//! The error kinds of the whole library.

use vstd::prelude::*;

verus! {

/// Every way a load, a parse or a decompression can fail.
#[derive(Debug, Clone, PartialEq, Eq)]
pub enum Error {
    /// The buffer does not start with a `%PDF-1` header comment.
    NotAPdf,
    /// The tail of the buffer holds no `startxref N EOL %%EOF`.
    MalformedTrailer,
    /// A literal string ends before its parentheses balance.
    UnbalancedString,
    /// A name holds a malformed `#NN` escape.
    InvalidName,
    /// A numeric field is out of range for its destination.
    InvalidNumber,
    /// The input ends before a production or a read is complete.
    UnexpectedEof,
    /// The cross-reference section cannot be read.
    MalformedXref,
    /// The object found at a recorded offset carries another key.
    XrefMismatch,
    /// Resolving stream metadata led back to a key under resolution.
    CycleInMetadata,
    /// A stream dictionary has no usable `Length`.
    MissingLength,
    /// A stream names a filter that cannot be applied.
    UnsupportedFilter(Vec<u8>),
    /// The object lives in an object stream.
    UnsupportedObjectStream,
    /// A DEFLATE block has the reserved type `11`.
    InvalidBlock,
    /// No Huffman code matches the bits read, or a symbol is out of range.
    InvalidCode,
    /// A back-reference reaches before the start of the output.
    BadDistance,
    /// `LEN` and `NLEN` of a stored block do not complement each other.
    LengthMismatch,
    /// A zlib or gzip header fails its checks.
    HeaderMismatch,
    /// The decompressed output would exceed the configured cap.
    OutputTooLarge,
    /// A byte-wise read was asked of a reader that is not byte-aligned.
    Misaligned,
}

/// Whether an outcome that holds bytes is the one that `expected` describes:
/// the same bytes, or the same error.
pub open spec fn same_bytes(outcome: Result<Vec<u8>, Error>, expected: Result<Seq<u8>, Error>) -> bool {
    match (outcome, expected) {
        (Ok(v), Ok(s)) => v@ == s,
        (Err(e), Err(f)) => e == f,
        _ => false,
    }
}

} // verus!
