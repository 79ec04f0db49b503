//! The ways in which decoding fails.

use vstd::prelude::*;

verus! {

/// Why a stream could not be decoded. Every one of these ends the decoding:
/// nothing is retried and no partial output is handed back.
#[derive(Debug, Clone, Copy, PartialEq, Eq, Structural)]
pub enum DecompressError {
    /// A literal token announced more payload bytes than the input holds.
    TruncatedLiteral,
    /// The input ended after a control byte, before the format bytes that
    /// its category asks for.
    TruncatedToken,
    /// A match reaches back further than the output decoded so far.
    OffsetOutOfRange,
    /// A control byte selected none of the categories. The classification
    /// covers every byte, so no input leads here.
    MalformedControlByte,
}

} // verus!
