use vstd::prelude::*;

verus! {

/// The errors that the store, the codec and the wire protocol report.
#[derive(Debug, Clone, PartialEq, Eq)]
pub enum KvsError {
    /// A lookup found no such key.
    Get(String),
    /// A removal found no such key.
    Remove(String),
    /// A request named an operation that the protocol does not know.
    UnKnownOperation(String),
    /// A locator named a segment that the store does not hold.
    UnKnownLog(u64),
    /// A request lacked its key or its value.
    BadRequest,
    /// Stored bytes did not decode to the expected record.
    Corrupt,
    /// A segment id or a segment size would outgrow 64 bits.
    Exhausted,
    /// A file or socket operation failed; the text describes it.
    Io(String),
    /// The directory was last used with another engine.
    EngineMismatch,
}

} // verus!
