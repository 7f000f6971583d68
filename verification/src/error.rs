//! The store's one failure channel.  Every file-system failure is collapsed
//! into a small tagged enumeration, and rendered for the caller as a
//! human-readable message.

use vstd::prelude::*;

verus! {

/// Why a save or a load failed.  No recovery or retry is attempted anywhere:
/// every failure is surfaced immediately to the caller.
#[derive(Debug, PartialEq, Eq)]
pub enum StoreError {
    /// The path names no existing file.
    NotFound,
    /// The path cannot be written: it is read-only, or its parent is missing.
    PermissionDenied,
    /// Any other file-system failure, carrying its description.
    Other(String),
}

impl StoreError {
    /// The message text that `message` renders for each variant.
    pub open spec fn text(self) -> Seq<char> {
        match self {
            StoreError::NotFound => "file not found"@,
            StoreError::PermissionDenied => "permission denied"@,
            StoreError::Other(description) => description@,
        }
    }

    /// The human-readable description handed to the caller.
    pub fn message(&self) -> (m: String)
        ensures
            m@ == self.text(),
    {
        match self {
            StoreError::NotFound => "file not found".to_owned(),
            StoreError::PermissionDenied => "permission denied".to_owned(),
            StoreError::Other(description) => description.clone(),
        }
    }
}

} // verus!
