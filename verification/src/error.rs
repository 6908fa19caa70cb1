//! What can go wrong when encoding or decoding a block.

use vstd::prelude::*;

verus! {

/// Why a block could not be written or read.
#[derive(Clone, Copy, Debug, PartialEq, Eq, Structural)]
pub enum Error {
    /// A block holds at most `u32::MAX` points; this many were given.
    TooManyPoints(usize),
    /// The block starts with a tag that no codec here writes.
    UnknownCodec(u8),
    /// The block is truncated, or its contents cannot have come from an encoder.
    MalformedBlock,
}

} // verus!
