//! The ways compression and decompression fail.
use vstd::prelude::*;

verus! {

/// Why a call failed.
#[derive(Debug, Clone, Copy, PartialEq, Eq, Structural)]
pub enum HuffmanError {
    /// Compression of a zero-length buffer: there is no tree to build.
    EmptyInput,
    /// The bits ran out inside the tree encoding, or partway through a codeword.
    MalformedTreeEncoding,
    /// The buffer lacks the trailing pad-length byte, or that byte is above 7 or
    /// asks to drop more bits than the buffer holds.
    TruncatedBuffer,
}

} // verus!
