use project_store::error::StoreError;
use project_store::store::ProjectStore;

#[test]
fn round_trip_returns_saved_text() {
    let mut store = ProjectStore::new();
    store
        .save("/projects/a.proj".to_string(), "alpha beta gamma".to_string())
        .unwrap();
    let loaded = store.load("/projects/a.proj".to_string()).unwrap();
    assert_eq!(loaded, "alpha beta gamma");
}

#[test]
fn overwrite_replaces_prior_text_entirely() {
    let mut store = ProjectStore::new();
    store
        .save("/projects/a.proj".to_string(), "first version".to_string())
        .unwrap();
    store
        .save("/projects/a.proj".to_string(), "second".to_string())
        .unwrap();
    let loaded = store.load("/projects/a.proj".to_string()).unwrap();
    assert_eq!(loaded, "second");
}

#[test]
fn load_of_missing_path_is_not_found() {
    let store = ProjectStore::new();
    let result = store.load("/projects/missing.proj".to_string());
    assert_eq!(result, Err(StoreError::NotFound));
}

#[test]
fn save_to_unwritable_path_is_permission_denied() {
    let mut store = ProjectStore::new();
    store.mark_unwritable("/readonly/a.proj".to_string());
    let result = store.save("/readonly/a.proj".to_string(), "text".to_string());
    assert_eq!(result, Err(StoreError::PermissionDenied));
    assert_eq!(
        store.load("/readonly/a.proj".to_string()),
        Err(StoreError::NotFound)
    );
}

#[test]
fn failed_save_leaves_sibling_paths_untouched() {
    let mut store = ProjectStore::new();
    store
        .save("/projects/sibling.proj".to_string(), "kept".to_string())
        .unwrap();
    store.mark_unwritable("/projects/broken.proj".to_string());
    let result = store.save("/projects/broken.proj".to_string(), "lost".to_string());
    assert_eq!(result, Err(StoreError::PermissionDenied));
    let sibling = store.load("/projects/sibling.proj".to_string()).unwrap();
    assert_eq!(sibling, "kept");
}

#[test]
fn empty_content_round_trips() {
    let mut store = ProjectStore::new();
    store.save("/projects/empty.proj".to_string(), "".to_string()).unwrap();
    let loaded = store.load("/projects/empty.proj".to_string()).unwrap();
    assert_eq!(loaded, "");
}

#[test]
fn re_saving_the_same_text_changes_nothing() {
    let mut store = ProjectStore::new();
    store
        .save("/projects/a.proj".to_string(), "stable".to_string())
        .unwrap();
    let after_one = store.load("/projects/a.proj".to_string()).unwrap();
    store
        .save("/projects/a.proj".to_string(), "stable".to_string())
        .unwrap();
    let after_two = store.load("/projects/a.proj".to_string()).unwrap();
    assert_eq!(after_one, after_two);
    assert_eq!(after_two, "stable");
}

#[test]
fn save_touches_no_other_path() {
    let mut store = ProjectStore::new();
    store.save("/p/one.proj".to_string(), "one".to_string()).unwrap();
    store.save("/p/two.proj".to_string(), "two".to_string()).unwrap();
    store.save("/p/one.proj".to_string(), "changed".to_string()).unwrap();
    assert_eq!(store.load("/p/two.proj".to_string()).unwrap(), "two");
    assert_eq!(store.load("/p/one.proj".to_string()).unwrap(), "changed");
}

#[test]
fn not_found_message_text() {
    assert_eq!(StoreError::NotFound.message(), "file not found");
}

#[test]
fn permission_denied_message_text() {
    assert_eq!(StoreError::PermissionDenied.message(), "permission denied");
}

#[test]
fn other_error_carries_its_description() {
    let error = StoreError::Other("disk full".to_string());
    assert_eq!(error.message(), "disk full");
}

#[test]
fn unwritable_path_still_loads_existing_text() {
    let mut store = ProjectStore::new();
    store.save("/p/a.proj".to_string(), "before".to_string()).unwrap();
    store.mark_unwritable("/p/a.proj".to_string());
    let result = store.save("/p/a.proj".to_string(), "after".to_string());
    assert_eq!(result, Err(StoreError::PermissionDenied));
    assert_eq!(store.load("/p/a.proj".to_string()).unwrap(), "before");
}
