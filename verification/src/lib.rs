//! Detects files whose modification timestamp advanced since the last
//! recorded run without any change to their content, and plans a rewind of
//! those timestamps back to the recorded value.
//!
//! The library holds the whole decision logic: the snapshot data model, the
//! content-digest entries, the binary state-file codec, and the reconciler
//! that compares a live snapshot against a stored one. The surrounding
//! program only walks the tree, reads files, and applies the planned
//! timestamp rewinds.

pub mod codec;
pub mod digest;
pub mod reconcile;
pub mod scan;
pub mod snapshot;
