//! A verified model of a whole-file project store: save and load of opaque
//! text, keyed by file-system path, with a single string-carrying error
//! channel.  The store holds no state between calls beyond the files
//! themselves; a save fully replaces the prior contents of its path.

pub mod error;
pub mod store;
