//! LZSS window expansion and the top-level decoder.
//!
//! The block state machine produces a stream of LZSS codes; expansion
//! replays them against the bytes already produced. A back-reference
//! `Reference { len, pos }` appends `len` bytes, each copied from `pos + 1`
//! bytes before the current end of the output, so a reference may overlap
//! the bytes it is producing. A reference into history that does not exist
//! yet cannot be honoured and is reported as invalid data.
use vstd::prelude::*;

verus! {

use crate::CompressionError;
use crate::LzssCode;
use crate::bits::BitReader;
use crate::bits::total_bits;
use crate::decoder::InnerV;
use crate::decoder::LZSS_MIN_MATCH;
use crate::decoder::LzhufDecoderInner;
use crate::decoder::LzhufMethod;
use crate::decoder::SpecTable;
use crate::decoder::lemma_next_progress;
use crate::decoder::spec_next;

/// The output after appending `k` bytes, each copied from `pos + 1` bytes
/// before the (growing) end.
pub open spec fn spec_copy(out: Seq<u8>, pos: nat, k: nat) -> Seq<u8>
    recommends
        pos < out.len(),
    decreases k,
{
    if k == 0 {
        out
    } else {
        spec_copy(out.push(out[out.len() - 1 - pos]), pos, (k - 1) as nat)
    }
}

/// The output after one LZSS code: a literal appends its byte; a reference
/// appends its copied run, or is invalid when it reaches back before the
/// start of the output.
pub open spec fn spec_expand(out: Seq<u8>, code: LzssCode) -> Option<Seq<u8>> {
    match code {
        LzssCode::Symbol(b) => Some(out.push(b)),
        LzssCode::Reference { len, pos } => if (pos as nat) < out.len() {
            Some(spec_copy(out, pos as nat, len as nat))
        } else {
            None
        },
    }
}

/// Applies one LZSS code to the output. Returns false, leaving the output
/// unchanged, exactly when the code is a reference past the start.
pub fn push_code(out: &mut Vec<u8>, code: LzssCode) -> (r: bool)
    ensures
        final(out)@.len() >= old(out)@.len(),
        match spec_expand(old(out)@, code) {
            Some(o2) => r && final(out)@ == o2,
            None => !r && final(out)@ == old(out)@,
        },
{
    match code {
        LzssCode::Symbol(b) => {
            out.push(b);
            true
        },
        LzssCode::Reference { len, pos } => {
            if pos >= out.len() {
                return false;
            }
            let ghost out0 = out@;
            let mut k: usize = 0;
            while k < len
                invariant
                    k <= len,
                    pos < out@.len(),
                    out@.len() == out0.len() + k,
                    spec_copy(out@, pos as nat, (len - k) as nat) == spec_copy(
                        out0,
                        pos as nat,
                        len as nat,
                    ),
                decreases len - k,
            {
                let b = out[out.len() - 1 - pos];
                out.push(b);
                k = k + 1;
            }
            true
        },
    }
}

/// The whole decode of a stream from a given state: steps of the block
/// state machine, each code replayed by the window expander, until the
/// zero header ends the stream or an error is reported.
pub open spec fn spec_run(v: InnerV, s: Seq<u8>, pos: nat, out: Seq<u8>) -> Result<
    Seq<u8>,
    CompressionError,
>
    decreases total_bits(s) - pos, v.block_len,
{
    if pos > total_bits(s) {
        Err(CompressionError::UnexpectedEof)
    } else {
        match spec_next(v, s, pos) {
            Err(e) => Err(e),
            Ok((None, p2)) => Ok(out),
            Ok((Some((code, v2)), p2)) => {
                proof {
                    lemma_next_progress(v, s, pos);
                }
                match spec_expand(out, code) {
                    None => Err(CompressionError::DataError),
                    Some(out2) => spec_run(v2, s, p2, out2),
                }
            },
        }
    }
}

/// The block state machine's initial state for a stream with offset width
/// `p`: no block armed, no tables yet.
pub open spec fn init_view(p: nat) -> InnerV {
    InnerV {
        offset_len: p,
        min_match: LZSS_MIN_MATCH as nat,
        block_len: 0,
        sym: None::<SpecTable>,
        off: None::<SpecTable>,
    }
}

/// What decoding a whole byte stream returns: the decompressed bytes on a
/// clean zero-header termination, or the first error.
pub open spec fn spec_decode(s: Seq<u8>, p: nat) -> Result<Seq<u8>, CompressionError> {
    spec_run(init_view(p), s, 0, Seq::empty())
}

/// Decodes a whole stream: exactly `spec_decode` of the input bytes.
#[verifier::rlimit(100)]
pub fn decode_to_end(method: &LzhufMethod, input: Vec<u8>) -> (r: Result<
    Vec<u8>,
    CompressionError,
>)
    requires
        1 <= method.offset_len <= 16,
        input@.len() <= usize::MAX / 8,
    ensures
        match spec_decode(input@, method.offset_len as nat) {
            Ok(o) => (match r {
                Ok(v) => v@ == o,
                Err(_) => false,
            }),
            Err(e) => (match r {
                Ok(_) => false,
                Err(ee) => ee == e,
            }),
        },
{
    let mut inner = LzhufDecoderInner::new(method);
    let mut reader = BitReader::new(input);
    let ghost s = reader.bytes_view();
    let mut out: Vec<u8> = Vec::new();
    loop
        invariant
            inner.wf(),
            reader.wf(),
            reader.bytes_view() == s,
            s == input@,
            spec_run(inner@, s, reader.position(), out@) == spec_decode(
                s,
                method.offset_len as nat,
            ),
        decreases total_bits(s) - reader.position(), inner@.block_len,
    {
        let ghost p = reader.position();
        let ghost v = inner@;
        match inner.next(&mut reader) {
            Err(e) => {
                return Err(e);
            },
            Ok(None) => {
                return Ok(out);
            },
            Ok(Some(code)) => {
                proof {
                    lemma_next_progress(v, s, p);
                }
                if !push_code(&mut out, code) {
                    return Err(CompressionError::DataError);
                }
            },
        }
    }
}

/// The mathematical value of the top-level decoder: the block state
/// machine, the bytes produced so far, and how many of them the caller
/// has already pulled.
pub struct TopV {
    pub inner: InnerV,
    pub hist: Seq<u8>,
    pub emitted: nat,
}

/// One pull of a decompressed byte: a byte already produced but not yet
/// handed out, or else one more LZSS code expanded and its first new byte
/// handed out; `None` at the clean end of the stream.
pub open spec fn spec_top_next(v: TopV, s: Seq<u8>, pos: nat) -> Result<
    (Option<u8>, TopV, nat),
    CompressionError,
> {
    if v.emitted < v.hist.len() {
        Ok(
            (
                Some(v.hist[v.emitted as int]),
                TopV { emitted: (v.emitted + 1) as nat, ..v },
                pos,
            ),
        )
    } else {
        match spec_next(v.inner, s, pos) {
            Err(e) => Err(e),
            Ok((None, p2)) => Ok((None, v, p2)),
            Ok((Some((code, i2)), p2)) => match spec_expand(v.hist, code) {
                None => Err(CompressionError::DataError),
                Some(h2) => if v.emitted < h2.len() {
                    Ok(
                        (
                            Some(h2[v.emitted as int]),
                            TopV { inner: i2, hist: h2, emitted: (v.emitted + 1) as nat },
                            p2,
                        ),
                    )
                } else {
                    Err(CompressionError::DataError)
                },
            },
        }
    }
}

/// The top-level decoder: pulls one decompressed byte per call, feeding
/// the block state machine's codes through the window expander.
pub struct LzhufDecoder {
    pub inner: LzhufDecoderInner,
    pub out: Vec<u8>,
    pub emitted: usize,
}

impl View for LzhufDecoder {
    type V = TopV;

    open spec fn view(&self) -> TopV {
        TopV { inner: self.inner@, hist: self.out@, emitted: self.emitted as nat }
    }
}

impl LzhufDecoder {
    pub open spec fn wf(&self) -> bool {
        self.inner.wf() && self.emitted <= self.out@.len()
    }

    pub fn new(method: &LzhufMethod) -> (r: LzhufDecoder)
        requires
            1 <= method.offset_len <= 16,
        ensures
            r.wf(),
            r@ == (TopV {
                inner: init_view(method.offset_len as nat),
                hist: Seq::<u8>::empty(),
                emitted: 0,
            }),
    {
        let d = LzhufDecoder {
            inner: LzhufDecoderInner::new(method),
            out: Vec::new(),
            emitted: 0,
        };
        proof {
            assert(d.out@ =~= Seq::<u8>::empty());
        }
        d
    }

    /// Pulls the next decompressed byte; `Ok(None)` is the clean end of
    /// the stream.
    #[verifier::rlimit(100)]
    pub fn next(&mut self, reader: &mut BitReader) -> (r: Result<Option<u8>, CompressionError>)
        requires
            old(self).wf(),
            old(reader).wf(),
        ensures
            final(self).wf(),
            final(reader).wf(),
            final(reader).bytes_view() == old(reader).bytes_view(),
            match spec_top_next(old(self)@, old(reader).bytes_view(), old(reader).position()) {
                Ok((o, v2, p2)) => r == Ok::<Option<u8>, CompressionError>(o) && final(self)@
                    == v2 && final(reader).position() == p2,
                Err(e) => r == Err::<Option<u8>, CompressionError>(e),
            },
    {
        if self.emitted < self.out.len() {
            let b = self.out[self.emitted];
            self.emitted = self.emitted + 1;
            return Ok(Some(b));
        }
        match self.inner.next(reader) {
            Err(e) => Err(e),
            Ok(None) => Ok(None),
            Ok(Some(code)) => {
                if !push_code(&mut self.out, code) {
                    return Err(CompressionError::DataError);
                }
                if self.emitted < self.out.len() {
                    let b = self.out[self.emitted];
                    self.emitted = self.emitted + 1;
                    Ok(Some(b))
                } else {
                    Err(CompressionError::DataError)
                }
            },
        }
    }
}

} // verus!
