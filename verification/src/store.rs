//! The persistence contract of the project store, and a verified in-memory
//! model of it.
//!
//! The durable state is modelled as a map from path to the text last saved
//! there.  `fs_save` and `fs_load` say what one successful save or load does
//! to that state; the lemmas below state the laws of the contract: a save
//! followed by a load at the same path returns exactly what was saved, a
//! save fully replaces the prior contents, and re-saving the same text
//! changes nothing.
//!
//! `ProjectStore` is an executable model of the same contract: a directory
//! of files held in memory, together with the set of paths that cannot be
//! written (read-only, or with a missing parent).  Its `save` and `load`
//! are proved against `fs_save` and `fs_load`; the process-wide file system
//! itself is driven by the unverified binary around this crate, which obeys
//! the same interface.

use vstd::prelude::*;

use crate::error::StoreError;

verus! {

/// The durable state after `contents` is saved at `path`: the file there is
/// created or fully overwritten, and no other path changes.
pub open spec fn fs_save(
    files: Map<Seq<char>, Seq<char>>,
    path: Seq<char>,
    contents: Seq<char>,
) -> Map<Seq<char>, Seq<char>> {
    files.insert(path, contents)
}

/// What a load at `path` returns: the whole text of the file there, or
/// nothing when no file exists at that path.
pub open spec fn fs_load(files: Map<Seq<char>, Seq<char>>, path: Seq<char>) -> Option<
    Seq<char>,
> {
    if files.contains_key(path) {
        Some(files[path])
    } else {
        None
    }
}

/// Round trip: loading a path right after saving text there returns exactly
/// that text, whatever the store held before.
pub proof fn lemma_round_trip(
    files: Map<Seq<char>, Seq<char>>,
    path: Seq<char>,
    contents: Seq<char>,
)
    ensures
        fs_load(fs_save(files, path, contents), path) == Some(contents),
{
}

/// Overwrite: saving new text to a path that already holds some other text
/// leaves the file containing exactly the new text, never a merge of both.
pub proof fn lemma_overwrite(
    files: Map<Seq<char>, Seq<char>>,
    path: Seq<char>,
    prior: Seq<char>,
    fresh: Seq<char>,
)
    requires
        fs_load(files, path) == Some(prior),
    ensures
        fs_load(fs_save(files, path, fresh), path) == Some(fresh),
{
}

/// A load at a missing path returns nothing, never an empty success value.
pub proof fn lemma_missing_load(files: Map<Seq<char>, Seq<char>>, path: Seq<char>)
    requires
        !files.contains_key(path),
    ensures
        fs_load(files, path) is None,
{
}

/// Idempotent re-save: saving the same text twice in a row leaves the store
/// in exactly the state one save leaves it in.
pub proof fn lemma_idempotent_save(
    files: Map<Seq<char>, Seq<char>>,
    path: Seq<char>,
    contents: Seq<char>,
)
    ensures
        fs_save(fs_save(files, path, contents), path, contents) == fs_save(
            files,
            path,
            contents,
        ),
{
    assert(fs_save(fs_save(files, path, contents), path, contents) =~= fs_save(
        files,
        path,
        contents,
    ));
}

/// A save touches no path but its own: every other file loads unchanged.
pub proof fn lemma_save_preserves_others(
    files: Map<Seq<char>, Seq<char>>,
    path: Seq<char>,
    contents: Seq<char>,
    other: Seq<char>,
)
    requires
        other != path,
    ensures
        fs_load(fs_save(files, path, contents), other) == fs_load(files, other),
{
}

/// The directory a sequence of path/contents entries describes, later
/// entries winning.
spec fn map_of(entries: Seq<(String, String)>) -> Map<Seq<char>, Seq<char>>
    decreases entries.len(),
{
    if entries.len() == 0 {
        Map::empty()
    } else {
        map_of(entries.drop_last()).insert(entries.last().0@, entries.last().1@)
    }
}

/// No path occurs twice among the entries.
spec fn unique_keys(entries: Seq<(String, String)>) -> bool {
    forall|i: int, j: int| 0 <= i < j < entries.len() ==> entries[i].0@ != entries[j].0@
}

/// The set of path views a sequence of paths holds.
spec fn path_set(locked: Seq<String>) -> Set<Seq<char>> {
    Set::new(|p: Seq<char>| exists|i: int| 0 <= i < locked.len() && locked[i]@ == p)
}

proof fn lemma_map_of_contains(entries: Seq<(String, String)>, p: Seq<char>)
    ensures
        map_of(entries).contains_key(p) <==> (exists|i: int|
            0 <= i < entries.len() && entries[i].0@ == p),
    decreases entries.len(),
{
    if entries.len() > 0 {
        let prefix = entries.drop_last();
        let n = entries.len() - 1;
        lemma_map_of_contains(prefix, p);
        if entries.last().0@ == p {
            assert(entries[n].0@ == p);
        } else {
            if map_of(entries).contains_key(p) {
                let i = choose|i: int| 0 <= i < prefix.len() && prefix[i].0@ == p;
                assert(entries[i].0@ == p);
            }
            if exists|i: int| 0 <= i < entries.len() && entries[i].0@ == p {
                let i = choose|i: int| 0 <= i < entries.len() && entries[i].0@ == p;
                assert(prefix[i].0@ == p);
            }
        }
    }
}

proof fn lemma_map_of_value(entries: Seq<(String, String)>, i: int)
    requires
        unique_keys(entries),
        0 <= i < entries.len(),
    ensures
        map_of(entries).contains_key(entries[i].0@),
        map_of(entries)[entries[i].0@] == entries[i].1@,
    decreases entries.len(),
{
    let n = entries.len() - 1;
    if i < n {
        let prefix = entries.drop_last();
        assert(unique_keys(prefix)) by {
            assert(forall|a: int, b: int|
                0 <= a < b < prefix.len() ==> entries[a].0@ != entries[b].0@);
        }
        lemma_map_of_value(prefix, i);
        assert(entries[i].0@ != entries[n].0@);
    }
}

proof fn lemma_map_of_update(entries: Seq<(String, String)>, i: int, entry: (String, String))
    requires
        unique_keys(entries),
        0 <= i < entries.len(),
        entry.0@ == entries[i].0@,
    ensures
        map_of(entries.update(i, entry)) == map_of(entries).insert(entry.0@, entry.1@),
        unique_keys(entries.update(i, entry)),
    decreases entries.len(),
{
    let n = entries.len() - 1;
    let updated = entries.update(i, entry);
    assert(unique_keys(updated)) by {
        assert(forall|a: int| 0 <= a < entries.len() ==> updated[a].0@ == entries[a].0@);
    }
    if i == n {
        assert(updated.drop_last() =~= entries.drop_last());
        assert(updated.last() == entry);
        assert(map_of(updated) =~= map_of(entries).insert(entry.0@, entry.1@));
    } else {
        let prefix = entries.drop_last();
        assert(unique_keys(prefix)) by {
            assert(forall|a: int, b: int|
                0 <= a < b < prefix.len() ==> entries[a].0@ != entries[b].0@);
        }
        assert(updated.drop_last() =~= prefix.update(i, entry));
        assert(updated.last() == entries.last());
        lemma_map_of_update(prefix, i, entry);
        assert(entry.0@ != entries[n].0@);
        assert(map_of(updated) =~= map_of(entries).insert(entry.0@, entry.1@));
    }
}

proof fn lemma_map_of_push(entries: Seq<(String, String)>, entry: (String, String))
    ensures
        map_of(entries.push(entry)) == map_of(entries).insert(entry.0@, entry.1@),
{
    assert(entries.push(entry).drop_last() =~= entries);
    assert(entries.push(entry).last() == entry);
}

/// An in-memory model of the durable store: each saved path with the text
/// last saved there, and the set of paths that refuse writes.  Saves and
/// loads behave exactly as `fs_save` and `fs_load` say.
pub struct ProjectStore {
    entries: Vec<(String, String)>,
    locked: Vec<String>,
}

impl ProjectStore {
    /// The files the store holds: each path mapped to the text last saved
    /// there.
    pub closed spec fn files(self) -> Map<Seq<char>, Seq<char>> {
        map_of(self.entries@)
    }

    /// The paths that refuse writes: read-only files, or paths whose parent
    /// is missing.
    pub closed spec fn unwritable(self) -> Set<Seq<char>> {
        path_set(self.locked@)
    }

    /// Internal well-formedness: no path occurs twice in the directory.
    pub closed spec fn wf(self) -> bool {
        unique_keys(self.entries@)
    }

    /// An empty store: no files, every path writable.
    pub fn new() -> (store: ProjectStore)
        ensures
            store.wf(),
            store.files() == Map::<Seq<char>, Seq<char>>::empty(),
            store.unwritable() == Set::<Seq<char>>::empty(),
    {
        let store = ProjectStore { entries: Vec::new(), locked: Vec::new() };
        proof {
            assert(store.files() =~= Map::<Seq<char>, Seq<char>>::empty());
            assert(store.unwritable() =~= Set::<Seq<char>>::empty());
        }
        store
    }

    /// Marks a path as refusing writes, as a read-only file or a missing
    /// parent directory would.  The files themselves are untouched.
    pub fn mark_unwritable(&mut self, path: String)
        ensures
            final(self).wf() == old(self).wf(),
            final(self).files() == old(self).files(),
            final(self).unwritable() == old(self).unwritable().insert(path@),
    {
        let ghost before = self.locked@;
        self.locked.push(path);
        proof {
            assert forall|p: Seq<char>| self.unwritable().contains(p) implies old(
                self,
            ).unwritable().insert(path@).contains(p) by {
                let i = choose|i: int| 0 <= i < self.locked@.len() && self.locked@[i]@ == p;
                if i < before.len() {
                    assert(before[i]@ == p);
                }
            }
            assert forall|p: Seq<char>|
                old(self).unwritable().insert(path@).contains(p) implies self.unwritable().contains(
                p,
            ) by {
                if old(self).unwritable().contains(p) {
                    let i = choose|i: int| 0 <= i < before.len() && before[i]@ == p;
                    assert(self.locked@[i]@ == p);
                } else {
                    assert(self.locked@[before.len() as int]@ == p);
                }
            }
            assert(self.unwritable() =~= old(self).unwritable().insert(path@));
        }
    }

    /// Whether the store refuses writes at `path`.
    fn is_unwritable(&self, path: &String) -> (locked: bool)
        ensures
            locked == self.unwritable().contains(path@),
    {
        let mut i: usize = 0;
        while i < self.locked.len()
            invariant
                i <= self.locked.len(),
                forall|j: int| 0 <= j < i ==> self.locked@[j]@ != path@,
            decreases self.locked.len() - i,
        {
            if self.locked[i] == *path {
                proof {
                    assert(self.locked@[i as int]@ == path@);
                }
                return true;
            }
            i += 1;
        }
        false
    }

    /// Saves `contents` at `path`: the file there is created or fully
    /// overwritten, replacing any prior text, and no other path changes.
    /// An unwritable path is refused with `PermissionDenied`, and the store
    /// is then left exactly as it was — no partial write is visible at any
    /// path.
    pub fn save(&mut self, path: String, contents: String) -> (result: Result<(), StoreError>)
        requires
            old(self).wf(),
        ensures
            final(self).wf(),
            final(self).unwritable() == old(self).unwritable(),
            old(self).unwritable().contains(path@) ==> result == Err::<(), StoreError>(
                StoreError::PermissionDenied,
            ) && final(self).files() == old(self).files(),
            !old(self).unwritable().contains(path@) ==> result == Ok::<(), StoreError>(())
                && final(self).files() == fs_save(old(self).files(), path@, contents@),
    {
        if self.is_unwritable(&path) {
            return Err(StoreError::PermissionDenied);
        }
        let ghost pre = self.entries@;
        let n = self.entries.len();
        let mut i: usize = 0;
        while i < n
            invariant
                n == self.entries.len(),
                i <= n,
                self.entries@ == pre,
                pre == old(self).entries@,
                self.locked@ == old(self).locked@,
                unique_keys(pre),
                !old(self).unwritable().contains(path@),
                forall|j: int| 0 <= j < i ==> self.entries@[j].0@ != path@,
            decreases n - i,
        {
            if self.entries[i].0 == path {
                let ghost p_view = path@;
                let ghost c_view = contents@;
                self.entries[i] = (path, contents);
                proof {
                    let entry = self.entries@[i as int];
                    assert(self.entries@ == pre.update(i as int, entry));
                    lemma_map_of_update(pre, i as int, entry);
                    assert(map_of(pre).insert(entry.0@, entry.1@) == fs_save(
                        map_of(pre),
                        p_view,
                        c_view,
                    ));
                }
                return Ok(());
            }
            i += 1;
        }
        self.entries.push((path, contents));
        proof {
            let entry = self.entries@.last();
            assert(self.entries@ == pre.push(entry));
            lemma_map_of_push(pre, entry);
            assert(unique_keys(self.entries@)) by {
                assert forall|a: int, b: int|
                    0 <= a < b < self.entries@.len() implies self.entries@[a].0@
                    != self.entries@[b].0@ by {
                    if b < pre.len() {
                        assert(pre[a].0@ != pre[b].0@);
                    } else {
                        assert(pre[a].0@ != entry.0@);
                    }
                }
            }
        }
        Ok(())
    }

    /// Loads the whole text saved at `path`.  A path at which no file
    /// exists is refused with `NotFound`, never answered with empty text;
    /// the store itself is never changed by a load.
    pub fn load(&self, path: String) -> (result: Result<String, StoreError>)
        requires
            self.wf(),
        ensures
            match result {
                Ok(contents) => fs_load(self.files(), path@) == Some(contents@),
                Err(e) => fs_load(self.files(), path@) is None && e == StoreError::NotFound,
            },
    {
        let n = self.entries.len();
        let mut i: usize = 0;
        while i < n
            invariant
                n == self.entries.len(),
                i <= n,
                self.wf(),
                forall|j: int| 0 <= j < i ==> self.entries@[j].0@ != path@,
            decreases n - i,
        {
            if self.entries[i].0 == path {
                let found = self.entries[i].1.clone();
                proof {
                    lemma_map_of_value(self.entries@, i as int);
                }
                return Ok(found);
            }
            i += 1;
        }
        proof {
            lemma_map_of_contains(self.entries@, path@);
        }
        Err(StoreError::NotFound)
    }
}

} // verus!
