//! A log-structured key/value store: records are appended to numbered
//! segment files, an in-memory index locates the latest value of each key,
//! and compaction rewrites the live records into a fresh segment. The store
//! state decides what is written where; the caller performs the file I/O.
use vstd::prelude::*;

pub mod codec;
pub mod error;
pub mod names;
pub mod protocol;
pub mod store;

verus! {

} // verus!
