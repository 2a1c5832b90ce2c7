//! Laws of the decoder, stated over the wire-format model and proved once
//! and for all. Whole-stream termination needs no lemma here: every spec
//! function of the model carries a `decreases` measure, and the executable
//! decoder is verified against them, so decoding any stream ends in a
//! finite byte sequence or an error.
use vstd::prelude::*;

verus! {

use crate::CompressionError;
use crate::LzssCode;
use crate::bits::lemma_read_val_bound;
use crate::bits::read_val;
use crate::bits::total_bits;
use crate::decoder::InnerV;
use crate::decoder::SpecTable;
use crate::decoder::spec_len_tree_items;
use crate::decoder::spec_next;
use crate::decoder::spec_read_offset;
use crate::decoder::spec_table_dec;
use crate::decoder::zero_lens;
use vstd::arithmetic::power2::lemma_pow2_unfold;
use vstd::arithmetic::power2::pow2;

/// A degenerate table reproduces its constant on every decode call and
/// consumes no bits.
pub proof fn law_degenerate_table(c: u16, s: Seq<u8>, pos: nat)
    ensures
        spec_table_dec(SpecTable::Constant(c), s, pos) == Ok::<(Option<u16>, nat), CompressionError>(
            (Some(c), pos),
        ),
{
}

/// In a block whose symbol table is degenerate with a literal constant,
/// every step of the block state machine emits that literal and consumes
/// no bits, for as long as the block lasts.
pub proof fn law_degenerate_literal_block(v: InnerV, c: u16, s: Seq<u8>, pos: nat)
    requires
        v.block_len >= 1,
        v.sym == Some(SpecTable::Constant(c)),
        c <= 255,
    ensures
        spec_next(v, s, pos) == Ok::<(Option<(LzssCode, InnerV)>, nat), CompressionError>(
            (
                Some(
                    (
                        LzssCode::Symbol(c as u8),
                        InnerV { block_len: (v.block_len - 1) as nat, ..v },
                    ),
                ),
                pos,
            ),
        ),
{
    reveal(spec_next);
}

/// With both tables degenerate — a match-length constant and an offset
/// constant of 0 or 1 — a step emits the same back-reference every time
/// and consumes no bits.
pub proof fn law_degenerate_reference_block(v: InnerV, c: u16, pc: u16, s: Seq<u8>, pos: nat)
    requires
        v.block_len >= 1,
        v.sym == Some(SpecTable::Constant(c)),
        c > 255,
        v.off == Some(SpecTable::Constant(pc)),
        pc <= 1,
    ensures
        spec_next(v, s, pos) == Ok::<(Option<(LzssCode, InnerV)>, nat), CompressionError>(
            (
                Some(
                    (
                        LzssCode::Reference {
                            len: (c - 256 + v.min_match) as usize,
                            pos: pc as usize,
                        },
                        InnerV { block_len: (v.block_len - 1) as nat, ..v },
                    ),
                ),
                pos,
            ),
        ),
{
    reveal(spec_next);
}

/// Offset decoding: a code of 0 or 1 is the offset itself and consumes no
/// extra bits; a code `pc` between 2 and 16, with its `pc - 1` extra bits
/// available, yields an offset in `[pow2(pc - 1), pow2(pc) - 1]` and
/// consumes exactly `pc - 1` extra bits.
pub proof fn law_offset_decoding(s: Seq<u8>, pos: nat, pc: nat)
    ensures
        pc <= 1 ==> spec_read_offset(s, pos, pc) == Ok::<(nat, nat), CompressionError>((pc, pos)),
        2 <= pc <= 16 && pos + (pc - 1) <= total_bits(s) ==> (match spec_read_offset(s, pos, pc) {
            Ok((off, p2)) => pow2((pc - 1) as nat) <= off < pow2(pc) && p2 == pos + (pc - 1),
            Err(e) => false,
        }),
{
    if 2 <= pc <= 16 && pos + (pc - 1) <= total_bits(s) {
        lemma_read_val_bound(s, pos, (pc - 1) as nat);
        lemma_pow2_unfold(pc);
    }
}

/// A repeat escape in the code-length table whose zero entries would push
/// the list past its declared total fails with `DataError`; it is never
/// silently truncated.
pub proof fn law_len_tree_overshoot(s: Seq<u8>, pos: nat, len: nat, ll: Seq<u8>)
    requires
        ll.len() == 3,
        pos + 2 <= total_bits(s),
        3 + read_val(s, pos, 2) > len,
    ensures
        spec_len_tree_items(s, pos, len, ll) == Err::<(Seq<u8>, nat), CompressionError>(
            CompressionError::DataError,
        ),
{
    assert((ll + zero_lens(read_val(s, pos, 2))).len() == 3 + read_val(s, pos, 2));
}

/// A block header read with fewer than 16 bits left in the stream fails
/// with `UnexpectedEof`.
pub proof fn law_truncated_header(v: InnerV, s: Seq<u8>, pos: nat)
    requires
        v.block_len == 0,
        pos + 16 > total_bits(s),
    ensures
        spec_next(v, s, pos) == Err::<(Option<(LzssCode, InnerV)>, nat), CompressionError>(
            CompressionError::UnexpectedEof,
        ),
{
    reveal(spec_next);
}

} // verus!
