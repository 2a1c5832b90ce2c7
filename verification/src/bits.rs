//! Bit-level access to a byte stream, most significant bit first.
//!
//! The wire format is defined over the bits of the input bytes, read from
//! the most significant bit of the first byte onward. `read_val` is the
//! specification of every fixed-width field in the format; `BitReader` is
//! the executable reader proved against it.
use vstd::prelude::*;

verus! {

use vstd::arithmetic::power2::lemma2_to64;
use vstd::arithmetic::power2::lemma_pow2_strictly_increases;
use vstd::arithmetic::power2::lemma_pow2_unfold;
use vstd::arithmetic::power2::pow2;

/// Number of bits the byte sequence holds.
pub open spec fn total_bits(s: Seq<u8>) -> nat {
    s.len() * 8
}

/// The bit at position `b`, counting from the most significant bit of the
/// first byte; 0 or 1.
pub open spec fn bit_at(s: Seq<u8>, b: nat) -> nat
    recommends
        b < total_bits(s),
{
    ((s[(b / 8) as int] >> ((7 - b % 8) as u8)) & 1) as nat
}

/// The unsigned value of the `w` bits starting at position `pos`, most
/// significant bit first.
pub open spec fn read_val(s: Seq<u8>, pos: nat, w: nat) -> nat
    decreases w,
{
    if w == 0 {
        0
    } else {
        read_val(s, pos, (w - 1) as nat) * 2 + bit_at(s, (pos + w - 1) as nat)
    }
}

pub proof fn lemma_bit_at_le_1(s: Seq<u8>, b: nat)
    ensures
        bit_at(s, b) <= 1,
{
    let x = s[(b / 8) as int];
    let sh = (7 - b % 8) as u8;
    assert(((x >> sh) & 1) <= 1) by (bit_vector);
}

/// A `w`-bit field holds a value below `pow2(w)`.
pub proof fn lemma_read_val_bound(s: Seq<u8>, pos: nat, w: nat)
    ensures
        read_val(s, pos, w) < pow2(w),
    decreases w,
{
    if w == 0 {
        lemma2_to64();
    } else {
        lemma_read_val_bound(s, pos, (w - 1) as nat);
        lemma_bit_at_le_1(s, (pos + w - 1) as nat);
        lemma_pow2_unfold(w);
    }
}

/// A field of at most 16 bits fits a `u16`.
pub proof fn lemma_read_val_fits_u16(s: Seq<u8>, pos: nat, w: nat)
    requires
        w <= 16,
    ensures
        read_val(s, pos, w) < 0x10000,
{
    lemma_read_val_bound(s, pos, w);
    if w < 16 {
        lemma_pow2_strictly_increases(w, 16);
    }
    lemma2_to64();
}

/// Reads fixed-width unsigned fields from a byte vector, most significant
/// bit first, keeping a position measured in bits.
pub struct BitReader {
    pub bytes: Vec<u8>,
    pub pos: usize,
}

impl BitReader {
    /// The bytes the reader was constructed over.
    pub open spec fn bytes_view(&self) -> Seq<u8> {
        self.bytes@
    }

    /// The current position, in bits from the start of the stream.
    pub open spec fn position(&self) -> nat {
        self.pos as nat
    }

    pub open spec fn wf(&self) -> bool {
        self.pos <= total_bits(self.bytes@) && total_bits(self.bytes@) <= usize::MAX
    }

    pub fn new(bytes: Vec<u8>) -> (r: BitReader)
        requires
            bytes@.len() <= usize::MAX / 8,
        ensures
            r.wf(),
            r.bytes_view() == bytes@,
            r.position() == 0,
    {
        BitReader { bytes, pos: 0 }
    }

    /// Reads the next `width` bits as an unsigned value, advancing the
    /// position. Returns `None`, leaving the position unchanged, when fewer
    /// than `width` bits remain: the truncated-stream condition.
    pub fn read_bits(&mut self, width: usize) -> (r: Option<u16>)
        requires
            old(self).wf(),
            width <= 16,
        ensures
            final(self).wf(),
            final(self).bytes_view() == old(self).bytes_view(),
            old(self).position() + width <= total_bits(old(self).bytes_view()) ==> (r == Some(
                read_val(old(self).bytes_view(), old(self).position(), width as nat) as u16,
            ) && final(self).position() == old(self).position() + width),
            old(self).position() + width > total_bits(old(self).bytes_view()) ==> (r
                == None::<u16> && final(self).position() == old(self).position()),
    {
        let total = self.bytes.len() * 8;
        if width > total - self.pos {
            return None;
        }
        let ghost s = self.bytes@;
        let ghost pos0 = self.pos as nat;
        let mut v: u16 = 0;
        let mut i: usize = 0;
        proof {
            lemma2_to64();
        }
        while i < width
            invariant
                self.wf(),
                self.bytes@ == s,
                self.pos == pos0,
                i <= width,
                width <= 16,
                pos0 + width <= total_bits(s),
                v == read_val(s, pos0, i as nat),
                v < pow2(i as nat),
            decreases width - i,
        {
            let b = self.pos + i;
            let byte = self.bytes[b / 8];
            let sh = (7 - b % 8) as u8;
            let bit = ((byte >> sh) & 1) as u16;
            proof {
                lemma_bit_at_le_1(s, b as nat);
                assert(bit == bit_at(s, b as nat));
                if (i as nat) < 15 {
                    lemma_pow2_strictly_increases(i as nat, 15);
                }
                lemma2_to64();
                assert(v < 0x8000);
                lemma_pow2_unfold((i + 1) as nat);
            }
            v = v * 2 + bit;
            i = i + 1;
        }
        self.pos = self.pos + width;
        proof {
            lemma_read_val_bound(s, pos0, width as nat);
        }
        Some(v)
    }
}

} // verus!
