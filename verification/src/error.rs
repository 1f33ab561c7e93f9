use vstd::prelude::*;

verus! {

/// Every way in which the codec rejects its input.
#[derive(Clone, Copy, Debug, PartialEq, Eq, Structural)]
pub enum DeflateError {
    /// More symbols are in use than codes of the permitted length exist.
    InfeasibleHuffman,
    /// Canonical code assignment was handed lengths that decrease somewhere.
    UnsortedLengths,
    /// A symbol outside its alphabet, a repeat with nothing to repeat, or a
    /// reference whose length cannot be written.
    InvalidSymbol,
    /// The block is not a dynamic-Huffman block.
    UnsupportedBlockType,
    /// The bit stream ended before the block did, or bits are left over after
    /// the final block.
    Truncation,
    /// A reference reaches back before the start of the output.
    DistanceTooFar,
}

impl DeflateError {
    /// The diagnostic of every error.
    pub open spec fn diagnostic(self) -> &'static str {
        match self {
            DeflateError::InfeasibleHuffman => "huffman coding is not possible",
            DeflateError::UnsortedLengths => "the lengths are not sorted",
            DeflateError::InvalidSymbol => "encoded code contains mistake",
            DeflateError::UnsupportedBlockType => "not supported",
            DeflateError::Truncation => "Internal error",
            DeflateError::DistanceTooFar => "reference before the start of the output",
        }
    }

    /// A short diagnostic for the error.
    pub fn message(&self) -> (s: &'static str)
        ensures
            s == self.diagnostic(),
    {
        match self {
            DeflateError::InfeasibleHuffman => "huffman coding is not possible",
            DeflateError::UnsortedLengths => "the lengths are not sorted",
            DeflateError::InvalidSymbol => "encoded code contains mistake",
            DeflateError::UnsupportedBlockType => "not supported",
            DeflateError::Truncation => "Internal error",
            DeflateError::DistanceTooFar => "reference before the start of the output",
        }
    }
}

} // verus!
