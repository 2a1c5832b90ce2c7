//! Decoder for LZHUF-compressed streams.
//!
//! The stream is a sequence of blocks. Each block carries a 16-bit code
//! count followed by three canonical Huffman table descriptions (for the
//! code-length alphabet, the symbol alphabet and the match-offset alphabet)
//! and then that many LZSS codes: literal bytes or length/offset
//! back-references into the bytes already produced. A header of sixteen zero
//! bits ends the stream.
//!
//! Every step of the decoder is specified against a bit-exact model of the
//! wire format, written as spec functions over the input byte sequence, and
//! the executable code is proved to return exactly what the model says.
use vstd::prelude::*;

pub mod bits;
pub mod decoder;
pub mod huffman;
pub mod laws;
pub mod lzss;

verus! {

/// How a decode operation fails.
///
/// `UnexpectedEof` reports a bit read that came back short: the stream ended
/// in the middle of a field or of a code. `DataError` reports a read that
/// succeeded but produced a structurally invalid value: a run-length escape
/// that overshoots its declared total, a length list that is not a valid
/// prefix-code description, or an offset too wide for the window.
#[derive(Clone, Copy, Debug, PartialEq, Eq, Structural)]
pub enum CompressionError {
    UnexpectedEof,
    DataError,
}

/// One LZSS code: a literal byte, or a back-reference of `len` bytes
/// starting `pos + 1` bytes before the end of the output produced so far.
#[derive(Clone, Copy, Debug, PartialEq, Eq, Structural)]
pub enum LzssCode {
    Symbol(u8),
    Reference { len: usize, pos: usize },
}

} // verus!
