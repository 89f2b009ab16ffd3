//! The LZ4 block format and its decoders.

use vstd::prelude::*;

mod compress;
pub(crate) mod cursor;
mod decompress;
mod decompress_scattered;
pub mod density;
pub mod encoding;
pub mod format;
pub(crate) mod fragment;
pub(crate) mod history;
pub mod laws;
pub mod meaning;
pub mod outcome;
pub mod parts;
pub mod refusals;
pub mod search;
pub mod soundness;
pub(crate) mod straddle;

pub use compress::compress;
pub use decompress::{decompress, decompress_into};
pub use decompress_scattered::decompress_scattered;

verus! {

/// The shortest match a sequence can encode.
pub const MINMATCH: usize = 4;

/// The number of bytes a match can reach back over, rounded up to a power of
/// two: match offsets are 16-bit.
pub const WINDOW_SIZE: usize = 65536;

/// Why a block could not be decompressed.
#[derive(Debug, Clone, Copy, PartialEq, Eq)]
#[non_exhaustive]
pub enum DecompressError {
    /// The provided output is too small.
    OutputTooSmall {
        /// The least output size that is known to be needed.
        expected: usize,
        /// The output size that was provided.
        actual: usize,
    },
    /// A literal run is longer than the input that is left.
    LiteralOutOfBounds,
    /// The input ends in the middle of a sequence, or on a match.
    ExpectedAnotherByte,
    /// A match reaches back past the first byte of the output.
    OffsetOutOfBounds,
    /// A match has offset zero.
    OffsetZero,
}

} // verus!
