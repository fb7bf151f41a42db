//! Error kinds shared by the codec pipeline.
//!
//! Every failure is terminal for its stream: DEFLATE has no resynchronisation
//! markers, so nothing after the detection point can be trusted. An error
//! carries its kind together with the byte offset at which it was detected.

use vstd::prelude::*;

verus! {

/// What went wrong while encoding or decoding a stream.
#[derive(Clone, Copy, PartialEq, Eq, Structural, Debug)]
pub enum CodecErrorKind {
    /// A bit value other than 0 or 1 was handed to the bit stream.
    InvalidBitValue,
    /// A block header carried a reserved type, or a stored block's length
    /// check failed.
    MalformedBlockHeader,
    /// The input ended before the declared amount of data was read.
    TruncatedStream,
    /// A Huffman tree was structurally broken: a branch missing a child, or
    /// codes too long for the coder's address word.
    InvalidHuffmanTree,
    /// A symbol outside the alphabet in use appeared.
    SymbolOutOfRange,
    /// A back-reference pointed before the start of the decoded output or
    /// beyond the search window.
    WindowViolation,
}

/// A terminal per-stream error: its kind and the byte offset where it was
/// detected.
#[derive(Clone, Copy, PartialEq, Eq, Structural, Debug)]
pub struct CodecError {
    pub kind: CodecErrorKind,
    pub offset: usize,
}

} // verus!
