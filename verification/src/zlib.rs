//! Decompression of the image data, which is left to the `inflate` crate.

use vstd::prelude::*;

verus! {

/// Calls `inflate::inflate_bytes_zlib` on `stream`.
///
/// Taken on trust: that the call returns for every stream, answering what it
/// cannot decompress with a message. Nothing is claimed of the outcome. It
/// is not even a function of the stream alone: the decompressor takes the
/// size of its window from the capacity of the buffer it allocates, and an
/// allocator may give more than was asked for. What is made of an outcome,
/// whichever it is, is the business of verified code.
#[verifier::external_body]
pub(crate) fn inflate_zlib(stream: &[u8]) -> (outcome: Result<Vec<u8>, String>) {
    inflate::inflate_bytes_zlib(stream)
}

} // verus!
