//! Failure surface of the decoder.

use vstd::prelude::*;

verus! {

/// The ways reading a resource table can fail.
#[derive(Debug)]
pub enum Error {
    /// An out-of-range index was handed to a string or style accessor.
    BadIndex,
    /// A structural inconsistency was discovered while parsing: bad header
    /// math, an offset outside its chunk, a count mismatch, a misaligned
    /// pool, an unknown chunk type, or an unsupported layout.
    CorruptData(String),
    /// Reserved for host I/O collaborators; the decoder itself never
    /// raises it.
    IoError(String),
    /// A chunk variant appeared in a position where it is not permitted.
    UnexpectedChunk,
}

} // verus!
