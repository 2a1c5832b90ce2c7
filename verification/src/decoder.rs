//! The block decoding protocol: the bit-level state machine that reads each
//! block's table descriptions, rebuilds the three canonical Huffman tables
//! from run-length-escaped code-length lists, and decodes the declared
//! number of LZSS codes.
//!
//! Every field of the wire format is modelled by a spec function over the
//! input bit sequence; each executable routine is proved to return exactly
//! what its spec counterpart says, position by position.
use vstd::prelude::*;

verus! {

use crate::CompressionError;
use crate::LzssCode;
use crate::bits::BitReader;
use crate::bits::bit_at;
use crate::bits::lemma_read_val_bound;
use crate::bits::lemma_read_val_fits_u16;
use crate::bits::read_val;
use crate::bits::total_bits;
use crate::huffman::HuffmanTable;
use crate::huffman::huff_valid;
use crate::huffman::pow2_u64;
use crate::huffman::spec_real_dec;
use vstd::arithmetic::power2::lemma2_to64;
use vstd::arithmetic::power2::pow2;

/// Minimum match length of a back-reference.
pub const LZSS_MIN_MATCH: usize = 3;

/// Immutable per-stream parameters: the bit width of the offset-table
/// count field and of raw offset entries.
pub struct LzhufMethod {
    pub offset_len: usize,
}

impl LzhufMethod {
    /// The offset width is also the width of single bit-reads, so it is
    /// capped by the 16-bit fields the format uses.
    pub fn new(offset_bits: usize) -> (r: LzhufMethod)
        requires
            1 <= offset_bits <= 16,
        ensures
            r.offset_len == offset_bits,
    {
        LzhufMethod { offset_len: offset_bits }
    }

    pub fn offset_bits(&self) -> (r: usize)
        ensures
            r == self.offset_len,
    {
        self.offset_len
    }
}

/// The mathematical value of a decode table: either a real canonical
/// Huffman table, given by its length list, or the degenerate case of a
/// single constant symbol returned without consuming bits.
pub enum SpecTable {
    Real { lens: Seq<u8> },
    Constant(u16),
}

/// A decode table as held by the block state machine: a real canonical
/// table, or the degenerate single-symbol case.
pub enum LzhufHuffmanDecoder {
    Huffman(HuffmanTable),
    Constant(u16),
}

impl View for LzhufHuffmanDecoder {
    type V = SpecTable;

    open spec fn view(&self) -> SpecTable {
        match self {
            LzhufHuffmanDecoder::Huffman(t) => SpecTable::Real { lens: t@ },
            LzhufHuffmanDecoder::Constant(c) => SpecTable::Constant(*c),
        }
    }
}

/// What decoding one symbol from a table returns: the degenerate table
/// restates its constant and consumes nothing; a real table walks the
/// bits of its canonical code.
pub open spec fn spec_table_dec(t: SpecTable, s: Seq<u8>, pos: nat) -> Result<
    (Option<u16>, nat),
    CompressionError,
> {
    match t {
        SpecTable::Real { lens } => spec_real_dec(lens, s, pos),
        SpecTable::Constant(c) => Ok((Some(c), pos)),
    }
}

pub proof fn lemma_table_dec_advances(t: SpecTable, s: Seq<u8>, pos: nat)
    requires
        pos <= total_bits(s),
    ensures
        match spec_table_dec(t, s, pos) {
            Ok((o, p2)) => pos <= p2 <= total_bits(s) && ((t is Real && o is Some) ==> pos < p2)
                && (t is Constant ==> p2 == pos),
            Err(e) => true,
        },
{
    match t {
        SpecTable::Real { lens } => crate::huffman::lemma_real_dec_advances(lens, s, pos),
        SpecTable::Constant(c) => {},
    }
}

/// The unary extension of the small-integer length encoding: past the base
/// value 7, each 1-bit adds one, the first 0-bit stops. A count that would
/// not fit the 8-bit result is structurally invalid.
pub open spec fn spec_unary_ext(s: Seq<u8>, pos: nat, c: u8) -> Result<
    (u8, nat),
    CompressionError,
>
    decreases total_bits(s) - pos,
{
    if pos >= total_bits(s) {
        Err(CompressionError::UnexpectedEof)
    } else if bit_at(s, pos) == 0 {
        Ok((c, (pos + 1) as nat))
    } else if c == 255 {
        Err(CompressionError::DataError)
    } else {
        spec_unary_ext(s, (pos + 1) as nat, (c + 1) as u8)
    }
}

/// One code-length value: a 3-bit base; the value 7 continues in unary.
pub open spec fn spec_dec_len(s: Seq<u8>, pos: nat) -> Result<(u8, nat), CompressionError> {
    if pos + 3 > total_bits(s) {
        Err(CompressionError::UnexpectedEof)
    } else {
        let c = read_val(s, pos, 3);
        if c == 7 {
            spec_unary_ext(s, (pos + 3) as nat, 7)
        } else {
            Ok((c as u8, (pos + 3) as nat))
        }
    }
}

pub proof fn lemma_unary_ext_advances(s: Seq<u8>, pos: nat, c: u8)
    ensures
        match spec_unary_ext(s, pos, c) {
            Ok((v, p2)) => pos < p2 <= total_bits(s),
            Err(e) => true,
        },
    decreases total_bits(s) - pos,
{
    if pos < total_bits(s) && bit_at(s, pos) != 0 && c != 255 {
        lemma_unary_ext_advances(s, (pos + 1) as nat, (c + 1) as u8);
    }
}

pub proof fn lemma_dec_len_advances(s: Seq<u8>, pos: nat)
    ensures
        match spec_dec_len(s, pos) {
            Ok((v, p2)) => pos < p2 <= total_bits(s),
            Err(e) => true,
        },
{
    if pos + 3 <= total_bits(s) && read_val(s, pos, 3) == 7 {
        lemma_unary_ext_advances(s, (pos + 3) as nat, 7);
    }
}

/// A run of `n` zero-valued length entries.
pub open spec fn zero_lens(n: nat) -> Seq<u8> {
    Seq::new(n, |i: int| 0u8)
}

/// Collecting the entries of the code-length table's length list: one
/// value per step, except that at the moment exactly three entries stand,
/// a 2-bit repeat count pushes that many zero entries; overshooting the
/// declared total `len` is a `DataError`, reaching it exactly stops.
pub open spec fn spec_len_tree_items(s: Seq<u8>, pos: nat, len: nat, ll: Seq<u8>) -> Result<
    (Seq<u8>, nat),
    CompressionError,
>
    decreases len - ll.len(),
{
    if ll.len() == 3 {
        if pos + 2 > total_bits(s) {
            Err(CompressionError::UnexpectedEof)
        } else {
            let rp = read_val(s, pos, 2);
            let ll2 = ll + zero_lens(rp);
            let pos2 = (pos + 2) as nat;
            if ll2.len() > len {
                Err(CompressionError::DataError)
            } else if ll2.len() == len {
                Ok((ll2, pos2))
            } else {
                match spec_dec_len(s, pos2) {
                    Ok((c, pos3)) => spec_len_tree_items(s, pos3, len, ll2.push(c)),
                    Err(e) => Err(e),
                }
            }
        }
    } else if ll.len() >= len {
        Ok((ll, pos))
    } else {
        match spec_dec_len(s, pos) {
            Ok((c, pos2)) => spec_len_tree_items(s, pos2, len, ll.push(c)),
            Err(e) => Err(e),
        }
    }
}

pub proof fn lemma_len_tree_items_bounds(s: Seq<u8>, pos: nat, len: nat, ll: Seq<u8>)
    requires
        pos <= total_bits(s),
    ensures
        match spec_len_tree_items(s, pos, len, ll) {
            Ok((llf, p2)) => pos <= p2 <= total_bits(s),
            Err(e) => true,
        },
    decreases len - ll.len(),
{
    if ll.len() == 3 {
        if pos + 2 <= total_bits(s) {
            let rp = read_val(s, pos, 2);
            let ll2 = ll + zero_lens(rp);
            let pos2 = (pos + 2) as nat;
            if ll2.len() < len {
                lemma_dec_len_advances(s, pos2);
                match spec_dec_len(s, pos2) {
                    Ok((c, pos3)) => {
                        lemma_len_tree_items_bounds(s, pos3, len, ll2.push(c));
                    },
                    Err(e) => {},
                }
            }
        }
    } else if ll.len() < len {
        lemma_dec_len_advances(s, pos);
        match spec_dec_len(s, pos) {
            Ok((c, pos2)) => {
                lemma_len_tree_items_bounds(s, pos2, len, ll.push(c));
            },
            Err(e) => {},
        }
    }
}

/// The code-length table: a count of `tbit` bits; count zero declares a
/// degenerate table whose constant is the next `tbit` bits; otherwise the
/// length list is collected and must describe a complete prefix code.
pub open spec fn spec_dec_len_tree(s: Seq<u8>, pos: nat, tbit: nat) -> Result<
    (SpecTable, nat),
    CompressionError,
> {
    if pos + tbit > total_bits(s) {
        Err(CompressionError::UnexpectedEof)
    } else {
        let len = read_val(s, pos, tbit);
        if len == 0 {
            if pos + 2 * tbit > total_bits(s) {
                Err(CompressionError::UnexpectedEof)
            } else {
                Ok(
                    (
                        SpecTable::Constant(read_val(s, (pos + tbit) as nat, tbit) as u16),
                        (pos + 2 * tbit) as nat,
                    ),
                )
            }
        } else {
            match spec_len_tree_items(s, (pos + tbit) as nat, len, Seq::empty()) {
                Ok((ll, p2)) => if huff_valid(ll) {
                    Ok((SpecTable::Real { lens: ll }, p2))
                } else {
                    Err(CompressionError::DataError)
                },
                Err(e) => Err(e),
            }
        }
    }
}

pub proof fn lemma_len_tree_bounds(s: Seq<u8>, pos: nat, tbit: nat)
    requires
        pos <= total_bits(s),
    ensures
        match spec_dec_len_tree(s, pos, tbit) {
            Ok((t, p2)) => pos <= p2 <= total_bits(s),
            Err(e) => true,
        },
{
    if pos + tbit <= total_bits(s) && read_val(s, pos, tbit) != 0 {
        lemma_len_tree_items_bounds(
            s,
            (pos + tbit) as nat,
            read_val(s, pos, tbit),
            Seq::empty(),
        );
    }
}

/// Collecting the symbol table's length list, driven by the code-length
/// table: symbol 0 pushes one zero entry, symbol 1 pushes `3 + e` zeros
/// for a 4-bit `e`, symbol 2 pushes `20 + e` zeros for a 9-bit `e`, and a
/// symbol `n >= 3` pushes one entry of length `n - 2`; collection stops as
/// soon as at least `len` entries stand.
pub open spec fn spec_symb_items(lt: SpecTable, s: Seq<u8>, pos: nat, len: nat, ll: Seq<u8>) -> Result<
    (Seq<u8>, nat),
    CompressionError,
>
    decreases total_bits(s) - pos, len - ll.len(),
{
    if ll.len() >= len {
        Ok((ll, pos))
    } else {
        match spec_table_dec(lt, s, pos) {
            Err(e) => Err(e),
            Ok((None, p2)) => Err(CompressionError::UnexpectedEof),
            Ok((Some(sym), p2)) => {
                proof {
                    if pos <= total_bits(s) {
                        lemma_table_dec_advances(lt, s, pos);
                    }
                }
                if !(pos <= p2 <= total_bits(s)) {
                    // unreachable for positions inside the stream; keeps
                    // the recursion well-founded on arbitrary arguments
                    Err(CompressionError::UnexpectedEof)
                } else if sym == 0 {
                    spec_symb_items(lt, s, p2, len, ll.push(0))
                } else if sym == 1 {
                    if p2 + 4 > total_bits(s) {
                        Err(CompressionError::UnexpectedEof)
                    } else {
                        let e = read_val(s, p2, 4);
                        spec_symb_items(lt, s, (p2 + 4) as nat, len, ll + zero_lens((3 + e) as nat))
                    }
                } else if sym == 2 {
                    if p2 + 9 > total_bits(s) {
                        Err(CompressionError::UnexpectedEof)
                    } else {
                        let e = read_val(s, p2, 9);
                        spec_symb_items(lt, s, (p2 + 9) as nat, len, ll + zero_lens((20 + e) as nat))
                    }
                } else {
                    spec_symb_items(lt, s, p2, len, ll.push((sym - 2) as u8))
                }
            },
        }
    }
}

pub proof fn lemma_symb_items_bounds(lt: SpecTable, s: Seq<u8>, pos: nat, len: nat, ll: Seq<u8>)
    requires
        pos <= total_bits(s),
    ensures
        match spec_symb_items(lt, s, pos, len, ll) {
            Ok((llf, p2)) => pos <= p2 <= total_bits(s),
            Err(e) => true,
        },
    decreases total_bits(s) - pos, len - ll.len(),
{
    if ll.len() < len {
        match spec_table_dec(lt, s, pos) {
            Err(e) => {},
            Ok((None, p2)) => {},
            Ok((Some(sym), p2)) => {
                lemma_table_dec_advances(lt, s, pos);
                if pos <= p2 <= total_bits(s) {
                    if sym == 0 {
                        lemma_symb_items_bounds(lt, s, p2, len, ll.push(0));
                    } else if sym == 1 {
                        if p2 + 4 <= total_bits(s) {
                            let e = read_val(s, p2, 4);
                            lemma_symb_items_bounds(
                                lt,
                                s,
                                (p2 + 4) as nat,
                                len,
                                ll + zero_lens((3 + e) as nat),
                            );
                        }
                    } else if sym == 2 {
                        if p2 + 9 <= total_bits(s) {
                            let e = read_val(s, p2, 9);
                            lemma_symb_items_bounds(
                                lt,
                                s,
                                (p2 + 9) as nat,
                                len,
                                ll + zero_lens((20 + e) as nat),
                            );
                        }
                    } else {
                        lemma_symb_items_bounds(lt, s, p2, len, ll.push((sym - 2) as u8));
                    }
                }
            },
        }
    }
}

/// The symbol table: a 9-bit count; zero declares a degenerate table whose
/// constant is the next 9 bits; otherwise the length list is collected
/// under the code-length table and must describe a complete prefix code.
pub open spec fn spec_dec_symb_tree(lt: SpecTable, s: Seq<u8>, pos: nat) -> Result<
    (SpecTable, nat),
    CompressionError,
> {
    if pos + 9 > total_bits(s) {
        Err(CompressionError::UnexpectedEof)
    } else {
        let len = read_val(s, pos, 9);
        if len == 0 {
            if pos + 18 > total_bits(s) {
                Err(CompressionError::UnexpectedEof)
            } else {
                Ok(
                    (
                        SpecTable::Constant(read_val(s, (pos + 9) as nat, 9) as u16),
                        (pos + 18) as nat,
                    ),
                )
            }
        } else {
            match spec_symb_items(lt, s, (pos + 9) as nat, len, Seq::empty()) {
                Ok((ll, p2)) => if huff_valid(ll) {
                    Ok((SpecTable::Real { lens: ll }, p2))
                } else {
                    Err(CompressionError::DataError)
                },
                Err(e) => Err(e),
            }
        }
    }
}

pub proof fn lemma_symb_tree_bounds(lt: SpecTable, s: Seq<u8>, pos: nat)
    requires
        pos <= total_bits(s),
    ensures
        match spec_dec_symb_tree(lt, s, pos) {
            Ok((t, p2)) => pos <= p2 <= total_bits(s),
            Err(e) => true,
        },
{
    if pos + 9 <= total_bits(s) && read_val(s, pos, 9) != 0 {
        lemma_symb_items_bounds(lt, s, (pos + 9) as nat, read_val(s, pos, 9), Seq::empty());
    }
}

/// Collecting the offset table's length list: exactly `k` more plain
/// values, with no run-length escape.
pub open spec fn spec_offs_items(s: Seq<u8>, pos: nat, k: nat, ll: Seq<u8>) -> Result<
    (Seq<u8>, nat),
    CompressionError,
>
    decreases k,
{
    if k == 0 {
        Ok((ll, pos))
    } else {
        match spec_dec_len(s, pos) {
            Ok((c, p2)) => spec_offs_items(s, p2, (k - 1) as nat, ll.push(c)),
            Err(e) => Err(e),
        }
    }
}

pub proof fn lemma_offs_items_bounds(s: Seq<u8>, pos: nat, k: nat, ll: Seq<u8>)
    requires
        pos <= total_bits(s),
    ensures
        match spec_offs_items(s, pos, k, ll) {
            Ok((llf, p2)) => pos <= p2 <= total_bits(s),
            Err(e) => true,
        },
    decreases k,
{
    if k > 0 {
        lemma_dec_len_advances(s, pos);
        match spec_dec_len(s, pos) {
            Ok((c, p2)) => {
                lemma_offs_items_bounds(s, p2, (k - 1) as nat, ll.push(c));
            },
            Err(e) => {},
        }
    }
}

/// The offset table: a count of `pbit` bits; zero declares a degenerate
/// table whose constant is the next `pbit` bits; otherwise that many plain
/// length values are read and must describe a complete prefix code.
pub open spec fn spec_dec_offs_tree(s: Seq<u8>, pos: nat, pbit: nat) -> Result<
    (SpecTable, nat),
    CompressionError,
> {
    if pos + pbit > total_bits(s) {
        Err(CompressionError::UnexpectedEof)
    } else {
        let len = read_val(s, pos, pbit);
        if len == 0 {
            if pos + 2 * pbit > total_bits(s) {
                Err(CompressionError::UnexpectedEof)
            } else {
                Ok(
                    (
                        SpecTable::Constant(read_val(s, (pos + pbit) as nat, pbit) as u16),
                        (pos + 2 * pbit) as nat,
                    ),
                )
            }
        } else {
            match spec_offs_items(s, (pos + pbit) as nat, len, Seq::empty()) {
                Ok((ll, p2)) => if huff_valid(ll) {
                    Ok((SpecTable::Real { lens: ll }, p2))
                } else {
                    Err(CompressionError::DataError)
                },
                Err(e) => Err(e),
            }
        }
    }
}

pub proof fn lemma_offs_tree_bounds(s: Seq<u8>, pos: nat, pbit: nat)
    requires
        pos <= total_bits(s),
    ensures
        match spec_dec_offs_tree(s, pos, pbit) {
            Ok((t, p2)) => pos <= p2 <= total_bits(s),
            Err(e) => true,
        },
{
    if pos + pbit <= total_bits(s) && read_val(s, pos, pbit) != 0 {
        lemma_offs_items_bounds(s, (pos + pbit) as nat, read_val(s, pos, pbit), Seq::empty());
    }
}

/// Turning a decoded offset code `pc` into the match offset: 0 and 1 stand
/// for themselves and consume nothing; `pc >= 2` is the bit length of the
/// offset, whose leading one is implicit and whose remaining `pc - 1` bits
/// follow raw. An offset of 17 bits or more could never fit the 65536-byte
/// window, so it is structurally invalid.
pub open spec fn spec_read_offset(s: Seq<u8>, pos: nat, pc: nat) -> Result<
    (nat, nat),
    CompressionError,
> {
    if pc <= 1 {
        Ok((pc, pos))
    } else if pc > 16 {
        Err(CompressionError::DataError)
    } else if pos + (pc - 1) > total_bits(s) {
        Err(CompressionError::UnexpectedEof)
    } else {
        Ok(((pow2((pc - 1) as nat) + read_val(s, pos, (pc - 1) as nat)) as nat, (pos + pc - 1) as nat))
    }
}

/// The mathematical value of the block state machine: the remaining-code
/// counter and the two live tables (the code-length table is transient and
/// never survives table reconstruction).
pub struct InnerV {
    pub offset_len: nat,
    pub min_match: nat,
    pub block_len: nat,
    pub sym: Option<SpecTable>,
    pub off: Option<SpecTable>,
}

/// Reading a block header and, unless it signals end of stream, the three
/// table descriptions: the 16-bit count, the code-length table with a
/// 5-bit count field, the symbol table driven by it, and the offset table
/// with the method's width. A short header read is `UnexpectedEof`; a full
/// zero header ends the stream.
pub open spec fn spec_init_block(v: InnerV, s: Seq<u8>, pos: nat) -> Result<
    (Option<InnerV>, nat),
    CompressionError,
> {
    if pos + 16 > total_bits(s) {
        Err(CompressionError::UnexpectedEof)
    } else {
        let hv = read_val(s, pos, 16);
        if hv == 0 {
            Ok((None, (pos + 16) as nat))
        } else {
            match spec_dec_len_tree(s, (pos + 16) as nat, 5) {
                Err(e) => Err(e),
                Ok((lt, p1)) => match spec_dec_symb_tree(lt, s, p1) {
                    Err(e) => Err(e),
                    Ok((st, p2)) => match spec_dec_offs_tree(s, p2, v.offset_len) {
                        Err(e) => Err(e),
                        Ok((ot, p3)) => Ok(
                            (
                                Some(
                                    InnerV {
                                        block_len: hv,
                                        sym: Some(st),
                                        off: Some(ot),
                                        ..v
                                    },
                                ),
                                p3,
                            ),
                        ),
                    },
                },
            }
        }
    }
}

pub proof fn lemma_init_block_bounds(v: InnerV, s: Seq<u8>, pos: nat)
    requires
        pos <= total_bits(s),
    ensures
        match spec_init_block(v, s, pos) {
            Ok((o, p2)) => pos + 16 <= p2 <= total_bits(s) && (match o {
                Some(v2) => v2.block_len == read_val(s, pos, 16) && v2.block_len > 0
                    && v2.offset_len == v.offset_len && v2.min_match == v.min_match,
                None => true,
            }),
            Err(e) => true,
        },
{
    if pos + 16 <= total_bits(s) {
        let hv = read_val(s, pos, 16);
        if hv != 0 {
            lemma_len_tree_bounds(s, (pos + 16) as nat, 5);
            match spec_dec_len_tree(s, (pos + 16) as nat, 5) {
                Err(e) => {},
                Ok((lt, p1)) => {
                    lemma_symb_tree_bounds(lt, s, p1);
                    match spec_dec_symb_tree(lt, s, p1) {
                        Err(e) => {},
                        Ok((st, p2)) => {
                            lemma_offs_tree_bounds(s, p2, v.offset_len);
                        },
                    }
                },
            }
        }
    }
}

/// Decoding one LZSS code inside a block: one symbol from the symbol
/// table; values up to 255 are literal bytes, larger values encode a match
/// length of `sym - 256 + min_match` followed by an offset code from the
/// offset table and its raw extension bits. The remaining-code counter
/// goes down by one.
pub open spec fn spec_code(v: InnerV, s: Seq<u8>, pos: nat) -> Result<
    (Option<(LzssCode, InnerV)>, nat),
    CompressionError,
> {
    let v2 = InnerV { block_len: (v.block_len - 1) as nat, ..v };
    match v.sym {
        None => Err(CompressionError::DataError),
        Some(st) => match spec_table_dec(st, s, pos) {
            Err(e) => Err(e),
            Ok((None, p1)) => Err(CompressionError::UnexpectedEof),
            Ok((Some(sym), p1)) => if sym <= 255 {
                Ok((Some((LzssCode::Symbol(sym as u8), v2)), p1))
            } else {
                match v.off {
                    None => Err(CompressionError::DataError),
                    Some(ot) => match spec_table_dec(ot, s, p1) {
                        Err(e) => Err(e),
                        Ok((None, p2)) => Err(CompressionError::UnexpectedEof),
                        Ok((Some(pc), p2)) => match spec_read_offset(s, p2, pc as nat) {
                            Err(e) => Err(e),
                            Ok((off, p3)) => Ok(
                                (
                                    Some(
                                        (
                                            LzssCode::Reference {
                                                len: (sym - 256 + v.min_match) as usize,
                                                pos: off as usize,
                                            },
                                            v2,
                                        ),
                                    ),
                                    p3,
                                ),
                            ),
                        },
                    },
                }
            },
        },
    }
}

/// One step of the block state machine: with the current block exhausted,
/// read a header (and stop cleanly on a zero header); then decode one
/// code.
#[verifier::opaque]
pub open spec fn spec_next(v: InnerV, s: Seq<u8>, pos: nat) -> Result<
    (Option<(LzssCode, InnerV)>, nat),
    CompressionError,
> {
    if v.block_len == 0 {
        match spec_init_block(v, s, pos) {
            Err(e) => Err(e),
            Ok((None, p2)) => Ok((None, p2)),
            Ok((Some(v2), p2)) => spec_code(v2, s, p2),
        }
    } else {
        spec_code(v, s, pos)
    }
}

pub proof fn lemma_code_bounds(v: InnerV, s: Seq<u8>, pos: nat)
    requires
        pos <= total_bits(s),
    ensures
        match spec_code(v, s, pos) {
            Ok((o, p2)) => pos <= p2 <= total_bits(s) && (match o {
                Some((code, v2)) => v2.block_len == (v.block_len - 1) as nat && v2.offset_len
                    == v.offset_len && v2.min_match == v.min_match && (match code {
                    LzssCode::Symbol(b) => true,
                    LzssCode::Reference { len, pos: o2 } => o2 < 0x10000 && (v.min_match <= 0x1000
                        ==> len >= v.min_match),
                }),
                None => false,
            }),
            Err(e) => true,
        },
{
    match v.sym {
        None => {},
        Some(st) => {
            lemma_table_dec_advances(st, s, pos);
            match spec_table_dec(st, s, pos) {
                Err(e) => {},
                Ok((None, p1)) => {},
                Ok((Some(sym), p1)) => {
                    if sym > 255 {
                        match v.off {
                            None => {},
                            Some(ot) => {
                                lemma_table_dec_advances(ot, s, p1);
                                match spec_table_dec(ot, s, p1) {
                                    Err(e) => {},
                                    Ok((None, p2)) => {},
                                    Ok((Some(pc), p2)) => {
                                        if 2 <= pc <= 16 && p2 + (pc - 1) <= total_bits(s) {
                                            lemma_read_val_bound(s, p2, (pc - 1) as nat);
                                            lemma_pow2_le_16((pc - 1) as nat);
                                        }
                                    },
                                }
                            },
                        }
                    }
                },
            }
        },
    }
}

proof fn lemma_pow2_le_16(e: nat)
    requires
        e <= 15,
    ensures
        pow2(e) + pow2(e) <= 0x10000,
{
    if e < 15 {
        vstd::arithmetic::power2::lemma_pow2_strictly_increases(e, 15);
    }
    lemma2_to64();
}

/// A successful step either consumed at least one bit or, consuming none,
/// decremented the remaining-code counter; and it stays inside the
/// stream. This is what makes whole-stream decoding terminate.
pub proof fn lemma_next_progress(v: InnerV, s: Seq<u8>, pos: nat)
    requires
        pos <= total_bits(s),
    ensures
        match spec_next(v, s, pos) {
            Ok((o, p2)) => pos <= p2 <= total_bits(s) && (match o {
                Some((code, v2)) => (p2 == pos ==> v2.block_len < v.block_len)
                    && v2.offset_len == v.offset_len && v2.min_match == v.min_match
                    && (match code {
                    LzssCode::Symbol(b) => true,
                    LzssCode::Reference { len, pos: o2 } => o2 < 0x10000 && (v.min_match <= 0x1000
                        ==> len >= v.min_match),
                }),
                None => true,
            }),
            Err(e) => true,
        },
{
    reveal(spec_next);
    if v.block_len == 0 {
        lemma_init_block_bounds(v, s, pos);
        match spec_init_block(v, s, pos) {
            Err(e) => {},
            Ok((None, p2)) => {},
            Ok((Some(v2), p2)) => {
                lemma_code_bounds(v2, s, p2);
            },
        }
    } else {
        lemma_code_bounds(v, s, pos);
    }
}

impl LzhufHuffmanDecoder {
    pub open spec fn wf(&self) -> bool {
        match self {
            LzhufHuffmanDecoder::Huffman(t) => t.wf(),
            LzhufHuffmanDecoder::Constant(_) => true,
        }
    }

    /// Decodes one symbol: the degenerate table restates its constant
    /// without reading; a real table reads the bits of one canonical code.
    pub fn dec(&self, reader: &mut BitReader) -> (r: Result<Option<u16>, CompressionError>)
        requires
            self.wf(),
            old(reader).wf(),
        ensures
            final(reader).wf(),
            final(reader).bytes_view() == old(reader).bytes_view(),
            match spec_table_dec(self@, old(reader).bytes_view(), old(reader).position()) {
                Ok((o, p2)) => r == Ok::<Option<u16>, CompressionError>(o)
                    && final(reader).position() == p2,
                Err(e) => r == Err::<Option<u16>, CompressionError>(e),
            },
    {
        match self {
            LzhufHuffmanDecoder::Huffman(t) => t.dec(reader),
            LzhufHuffmanDecoder::Constant(c) => Ok(Some(*c)),
        }
    }
}

/// The block state machine: the remaining-code counter of the current
/// block and its two live decode tables, rebuilt from the stream whenever
/// the counter runs out.
pub struct LzhufDecoderInner {
    pub offset_len: usize,
    pub min_match: usize,
    pub block_len: usize,
    pub symbol_decoder: Option<LzhufHuffmanDecoder>,
    pub offset_decoder: Option<LzhufHuffmanDecoder>,
}

impl View for LzhufDecoderInner {
    type V = InnerV;

    open spec fn view(&self) -> InnerV {
        InnerV {
            offset_len: self.offset_len as nat,
            min_match: self.min_match as nat,
            block_len: self.block_len as nat,
            sym: match self.symbol_decoder {
                Some(d) => Some(d@),
                None => None,
            },
            off: match self.offset_decoder {
                Some(d) => Some(d@),
                None => None,
            },
        }
    }
}

impl LzhufDecoderInner {
    pub open spec fn wf(&self) -> bool {
        &&& 1 <= self.offset_len <= 16
        &&& self.min_match == LZSS_MIN_MATCH
        &&& match self.symbol_decoder {
            Some(d) => d.wf(),
            None => true,
        }
        &&& match self.offset_decoder {
            Some(d) => d.wf(),
            None => true,
        }
    }

    pub fn new(method: &LzhufMethod) -> (r: LzhufDecoderInner)
        requires
            1 <= method.offset_len <= 16,
        ensures
            r.wf(),
            r@ == (InnerV {
                offset_len: method.offset_len as nat,
                min_match: LZSS_MIN_MATCH as nat,
                block_len: 0,
                sym: None::<SpecTable>,
                off: None::<SpecTable>,
            }),
    {
        LzhufDecoderInner {
            offset_len: method.offset_bits(),
            min_match: LZSS_MIN_MATCH,
            block_len: 0,
            symbol_decoder: None,
            offset_decoder: None,
        }
    }

    /// Decodes one code-length value: a 3-bit base, continued in unary
    /// when the base is 7.
    pub fn dec_len(&self, reader: &mut BitReader) -> (r: Result<u8, CompressionError>)
        requires
            old(reader).wf(),
        ensures
            final(reader).wf(),
            final(reader).bytes_view() == old(reader).bytes_view(),
            match spec_dec_len(old(reader).bytes_view(), old(reader).position()) {
                Ok((c, p2)) => r == Ok::<u8, CompressionError>(c) && final(reader).position()
                    == p2,
                Err(e) => r == Err::<u8, CompressionError>(e),
            },
    {
        let ghost s = reader.bytes_view();
        let ghost pos0 = reader.position();
        let c0 = match reader.read_bits(3) {
            None => {
                return Err(CompressionError::UnexpectedEof);
            },
            Some(v) => v,
        };
        proof {
            lemma_read_val_bound(s, pos0, 3);
            lemma2_to64();
        }
        let mut c: u8 = c0 as u8;
        if c != 7 {
            return Ok(c);
        }
        let mut res: Result<u8, CompressionError> = Err(CompressionError::DataError);
        loop
            invariant_except_break
                reader.wf(),
                reader.bytes_view() == s,
                7 <= c,
                spec_unary_ext(s, reader.position(), c) == spec_dec_len(s, pos0),
            ensures
                reader.wf(),
                reader.bytes_view() == s,
                match spec_dec_len(s, pos0) {
                    Ok((cc, p2)) => res == Ok::<u8, CompressionError>(cc) && reader.position()
                        == p2,
                    Err(e) => res == Err::<u8, CompressionError>(e),
                },
            decreases total_bits(s) - reader.position(),
        {
            let ghost p = reader.position();
            match reader.read_bits(1) {
                None => {
                    res = Err(CompressionError::UnexpectedEof);
                    break;
                },
                Some(b) => {
                    proof {
                        assert(read_val(s, p, 0) == 0);
                        assert(read_val(s, p, 1) == bit_at(s, p));
                    }
                    if b == 0 {
                        res = Ok(c);
                        break;
                    }
                    if c == 255 {
                        res = Err(CompressionError::DataError);
                        break;
                    }
                    c = c + 1;
                },
            }
        }
        res
    }

    /// Rebuilds the code-length table: a count of `tbit_len` bits, then
    /// either the degenerate constant or the run-length-escaped length
    /// list of `spec_len_tree_items`.
    pub fn dec_len_tree(&self, tbit_len: usize, reader: &mut BitReader) -> (r: Result<
        LzhufHuffmanDecoder,
        CompressionError,
    >)
        requires
            1 <= tbit_len <= 16,
            old(reader).wf(),
        ensures
            final(reader).wf(),
            final(reader).bytes_view() == old(reader).bytes_view(),
            match spec_dec_len_tree(
                old(reader).bytes_view(),
                old(reader).position(),
                tbit_len as nat,
            ) {
                Ok((t, p2)) => (match r {
                    Ok(d) => d@ == t && d.wf() && final(reader).position() == p2,
                    Err(_) => false,
                }),
                Err(e) => (match r {
                    Ok(_) => false,
                    Err(ee) => ee == e,
                }),
            },
    {
        let ghost s = reader.bytes_view();
        let ghost pos0 = reader.position();
        let len_v = match reader.read_bits(tbit_len) {
            None => {
                return Err(CompressionError::UnexpectedEof);
            },
            Some(v) => v,
        };
        proof {
            lemma_read_val_fits_u16(s, pos0, tbit_len as nat);
        }
        let len = len_v as usize;
        if len == 0 {
            let c = match reader.read_bits(tbit_len) {
                None => {
                    return Err(CompressionError::UnexpectedEof);
                },
                Some(v) => v,
            };
            return Ok(LzhufHuffmanDecoder::Constant(c));
        }
        let ghost pos1 = reader.position();
        let mut ll: Vec<u8> = Vec::new();
        let mut err: CompressionError = CompressionError::DataError;
        let mut built: bool = false;
        loop
            invariant_except_break
                reader.wf(),
                reader.bytes_view() == s,
                1 <= len <= 0xFFFF,
                ll@.len() <= len,
                !built,
                spec_len_tree_items(s, reader.position(), len as nat, ll@)
                    == spec_len_tree_items(s, pos1, len as nat, Seq::empty()),
            ensures
                reader.wf(),
                reader.bytes_view() == s,
                match spec_len_tree_items(s, pos1, len as nat, Seq::empty()) {
                    Ok((llf, p2)) => built && ll@ == llf && reader.position() == p2,
                    Err(e) => !built && err == e,
                },
            decreases len - ll@.len(),
        {
            let ghost ptop = reader.position();
            let ghost lltop = ll@;
            if ll.len() == 3 {
                let rp = match reader.read_bits(2) {
                    None => {
                        err = CompressionError::UnexpectedEof;
                        break;
                    },
                    Some(v) => v,
                };
                proof {
                    lemma_read_val_fits_u16(s, ptop, 2);
                }
                let mut k: u16 = 0;
                while k < rp
                    invariant
                        k <= rp,
                        reader.wf(),
                        reader.bytes_view() == s,
                        reader.position() == ptop + 2,
                        ll@ == lltop + zero_lens(k as nat),
                    decreases rp - k,
                {
                    ll.push(0);
                    proof {
                        assert(ll@ =~= lltop + zero_lens((k + 1) as nat));
                    }
                    k = k + 1;
                }
                proof {
                    assert(ll@ =~= lltop + zero_lens(read_val(s, ptop, 2)));
                }
                if ll.len() > len {
                    err = CompressionError::DataError;
                    break;
                }
                if ll.len() == len {
                    built = true;
                    break;
                }
            } else if ll.len() >= len {
                built = true;
                break;
            }
            match self.dec_len(reader) {
                Err(e) => {
                    err = e;
                    break;
                },
                Ok(c) => {
                    ll.push(c);
                },
            }
        }
        if !built {
            return Err(err);
        }
        match HuffmanTable::new(&ll) {
            Some(t) => Ok(LzhufHuffmanDecoder::Huffman(t)),
            None => Err(CompressionError::DataError),
        }
    }

    /// Rebuilds the symbol table: a 9-bit count, then either the
    /// degenerate constant or a length list decoded through the
    /// just-built code-length table with its zero-run escapes.
    pub fn dec_symb_tree(
        &self,
        len_decoder: &LzhufHuffmanDecoder,
        reader: &mut BitReader,
    ) -> (r: Result<LzhufHuffmanDecoder, CompressionError>)
        requires
            len_decoder.wf(),
            old(reader).wf(),
        ensures
            final(reader).wf(),
            final(reader).bytes_view() == old(reader).bytes_view(),
            match spec_dec_symb_tree(
                len_decoder@,
                old(reader).bytes_view(),
                old(reader).position(),
            ) {
                Ok((t, p2)) => (match r {
                    Ok(d) => d@ == t && d.wf() && final(reader).position() == p2,
                    Err(_) => false,
                }),
                Err(e) => (match r {
                    Ok(_) => false,
                    Err(ee) => ee == e,
                }),
            },
    {
        let ghost s = reader.bytes_view();
        let ghost pos0 = reader.position();
        let len_v = match reader.read_bits(9) {
            None => {
                return Err(CompressionError::UnexpectedEof);
            },
            Some(v) => v,
        };
        proof {
            lemma_read_val_fits_u16(s, pos0, 9);
        }
        let len = len_v as usize;
        if len == 0 {
            let c = match reader.read_bits(9) {
                None => {
                    return Err(CompressionError::UnexpectedEof);
                },
                Some(v) => v,
            };
            return Ok(LzhufHuffmanDecoder::Constant(c));
        }
        let ghost pos1 = reader.position();
        let mut ll: Vec<u8> = Vec::new();
        let mut err: CompressionError = CompressionError::DataError;
        let mut built: bool = false;
        loop
            invariant_except_break
                reader.wf(),
                reader.bytes_view() == s,
                len_decoder.wf(),
                1 <= len <= 0xFFFF,
                ll@.len() <= len + 531,
                !built,
                spec_symb_items(len_decoder@, s, reader.position(), len as nat, ll@)
                    == spec_symb_items(len_decoder@, s, pos1, len as nat, Seq::empty()),
            ensures
                reader.wf(),
                reader.bytes_view() == s,
                match spec_symb_items(len_decoder@, s, pos1, len as nat, Seq::empty()) {
                    Ok((llf, p2)) => built && ll@ == llf && reader.position() == p2,
                    Err(e) => !built && err == e,
                },
            decreases total_bits(s) - reader.position(), len - ll@.len(),
        {
            if ll.len() >= len {
                built = true;
                break;
            }
            let ghost ptop = reader.position();
            let ghost lltop = ll@;
            let sym = match len_decoder.dec(reader) {
                Err(e) => {
                    err = e;
                    break;
                },
                Ok(None) => {
                    err = CompressionError::UnexpectedEof;
                    break;
                },
                Ok(Some(v)) => v,
            };
            proof {
                lemma_table_dec_advances(len_decoder@, s, ptop);
            }
            let ghost pmid = reader.position();
            if sym == 0 {
                ll.push(0);
            } else if sym == 1 {
                let e = match reader.read_bits(4) {
                    None => {
                        err = CompressionError::UnexpectedEof;
                        break;
                    },
                    Some(v) => v,
                };
                proof {
                    lemma_read_val_bound(s, pmid, 4);
                    lemma2_to64();
                }
                let mut k: u16 = 0;
                while k < 3 + e
                    invariant
                        k <= 3 + e,
                        e < 16,
                        reader.wf(),
                        reader.bytes_view() == s,
                        reader.position() == pmid + 4,
                        ll@ == lltop + zero_lens(k as nat),
                    decreases 3 + e - k,
                {
                    ll.push(0);
                    proof {
                        assert(ll@ =~= lltop + zero_lens((k + 1) as nat));
                    }
                    k = k + 1;
                }
            } else if sym == 2 {
                let e = match reader.read_bits(9) {
                    None => {
                        err = CompressionError::UnexpectedEof;
                        break;
                    },
                    Some(v) => v,
                };
                proof {
                    lemma_read_val_bound(s, pmid, 9);
                    lemma2_to64();
                }
                let mut k: u16 = 0;
                while k < 20 + e
                    invariant
                        k <= 20 + e,
                        e < 512,
                        reader.wf(),
                        reader.bytes_view() == s,
                        reader.position() == pmid + 9,
                        ll@ == lltop + zero_lens(k as nat),
                    decreases 20 + e - k,
                {
                    ll.push(0);
                    proof {
                        assert(ll@ =~= lltop + zero_lens((k + 1) as nat));
                    }
                    k = k + 1;
                }
            } else {
                ll.push((sym - 2) as u8);
            }
        }
        if !built {
            return Err(err);
        }
        match HuffmanTable::new(&ll) {
            Some(t) => Ok(LzhufHuffmanDecoder::Huffman(t)),
            None => Err(CompressionError::DataError),
        }
    }

    /// Rebuilds the offset table: a count of `pbit_len` bits, then either
    /// the degenerate constant or exactly that many plain length values.
    pub fn dec_offs_tree(&self, pbit_len: usize, reader: &mut BitReader) -> (r: Result<
        LzhufHuffmanDecoder,
        CompressionError,
    >)
        requires
            1 <= pbit_len <= 16,
            old(reader).wf(),
        ensures
            final(reader).wf(),
            final(reader).bytes_view() == old(reader).bytes_view(),
            match spec_dec_offs_tree(
                old(reader).bytes_view(),
                old(reader).position(),
                pbit_len as nat,
            ) {
                Ok((t, p2)) => (match r {
                    Ok(d) => d@ == t && d.wf() && final(reader).position() == p2,
                    Err(_) => false,
                }),
                Err(e) => (match r {
                    Ok(_) => false,
                    Err(ee) => ee == e,
                }),
            },
    {
        let ghost s = reader.bytes_view();
        let ghost pos0 = reader.position();
        let len_v = match reader.read_bits(pbit_len) {
            None => {
                return Err(CompressionError::UnexpectedEof);
            },
            Some(v) => v,
        };
        proof {
            lemma_read_val_fits_u16(s, pos0, pbit_len as nat);
        }
        let len = len_v as usize;
        if len == 0 {
            let c = match reader.read_bits(pbit_len) {
                None => {
                    return Err(CompressionError::UnexpectedEof);
                },
                Some(v) => v,
            };
            return Ok(LzhufHuffmanDecoder::Constant(c));
        }
        let ghost pos1 = reader.position();
        let mut ll: Vec<u8> = Vec::new();
        let mut err: CompressionError = CompressionError::DataError;
        let mut built: bool = false;
        loop
            invariant_except_break
                reader.wf(),
                reader.bytes_view() == s,
                1 <= len <= 0xFFFF,
                ll@.len() <= len,
                !built,
                spec_offs_items(s, reader.position(), (len - ll@.len()) as nat, ll@)
                    == spec_offs_items(s, pos1, len as nat, Seq::empty()),
            ensures
                reader.wf(),
                reader.bytes_view() == s,
                match spec_offs_items(s, pos1, len as nat, Seq::empty()) {
                    Ok((llf, p2)) => built && ll@ == llf && reader.position() == p2,
                    Err(e) => !built && err == e,
                },
            decreases len - ll@.len(),
        {
            if ll.len() >= len {
                built = true;
                break;
            }
            match self.dec_len(reader) {
                Err(e) => {
                    err = e;
                    break;
                },
                Ok(c) => {
                    ll.push(c);
                },
            }
        }
        if !built {
            return Err(err);
        }
        match HuffmanTable::new(&ll) {
            Some(t) => Ok(LzhufHuffmanDecoder::Huffman(t)),
            None => Err(CompressionError::DataError),
        }
    }

    /// Reads the next block header. A full zero header is the clean end of
    /// the stream, reported as `Ok(false)` with no table touched; any other
    /// count rebuilds the three tables and arms the counter.
    pub fn init_block(&mut self, reader: &mut BitReader) -> (r: Result<bool, CompressionError>)
        requires
            old(self).wf(),
            old(reader).wf(),
        ensures
            final(self).wf(),
            final(reader).wf(),
            final(reader).bytes_view() == old(reader).bytes_view(),
            match spec_init_block(old(self)@, old(reader).bytes_view(), old(reader).position()) {
                Ok((Some(v2), p2)) => r == Ok::<bool, CompressionError>(true) && final(self)@
                    == v2 && final(reader).position() == p2,
                Ok((None, p2)) => r == Ok::<bool, CompressionError>(false)
                    && final(self)@ == old(self)@ && final(reader).position() == p2,
                Err(e) => r == Err::<bool, CompressionError>(e),
            },
    {
        let ghost s = reader.bytes_view();
        let ghost pos0 = reader.position();
        let hv = match reader.read_bits(16) {
            None => {
                return Err(CompressionError::UnexpectedEof);
            },
            Some(v) => v,
        };
        proof {
            lemma_read_val_fits_u16(s, pos0, 16);
        }
        if hv == 0 {
            return Ok(false);
        }
        let lt = match self.dec_len_tree(5, reader) {
            Err(e) => {
                return Err(e);
            },
            Ok(t) => t,
        };
        let st = match self.dec_symb_tree(&lt, reader) {
            Err(e) => {
                return Err(e);
            },
            Ok(t) => t,
        };
        let offlen = self.offset_len;
        let ot = match self.dec_offs_tree(offlen, reader) {
            Err(e) => {
                return Err(e);
            },
            Ok(t) => t,
        };
        self.block_len = hv as usize;
        self.symbol_decoder = Some(st);
        self.offset_decoder = Some(ot);
        Ok(true)
    }

    /// Decodes the next LZSS code, rebuilding tables at a block boundary.
    /// `Ok(None)` is the clean end of the stream.
    pub fn next(&mut self, reader: &mut BitReader) -> (r: Result<
        Option<LzssCode>,
        CompressionError,
    >)
        requires
            old(self).wf(),
            old(reader).wf(),
        ensures
            final(self).wf(),
            final(reader).wf(),
            final(reader).bytes_view() == old(reader).bytes_view(),
            match spec_next(old(self)@, old(reader).bytes_view(), old(reader).position()) {
                Ok((Some((code, v2)), p2)) => r == Ok::<Option<LzssCode>, CompressionError>(
                    Some(code),
                ) && final(self)@ == v2 && final(reader).position() == p2,
                Ok((None, p2)) => r == Ok::<Option<LzssCode>, CompressionError>(None)
                    && final(self)@ == old(self)@ && final(reader).position() == p2,
                Err(e) => r == Err::<Option<LzssCode>, CompressionError>(e),
            },
    {
        proof {
            reveal(spec_next);
        }
        let ghost s = reader.bytes_view();
        if self.block_len == 0 {
            match self.init_block(reader) {
                Err(e) => {
                    return Err(e);
                },
                Ok(false) => {
                    return Ok(None);
                },
                Ok(true) => {},
            }
        }
        let ghost pc0 = reader.position();
        let ghost v = self@;
        self.block_len = self.block_len - 1;
        let sym = match &self.symbol_decoder {
            None => {
                return Err(CompressionError::DataError);
            },
            Some(d) => match d.dec(reader) {
                Err(e) => {
                    return Err(e);
                },
                Ok(None) => {
                    return Err(CompressionError::UnexpectedEof);
                },
                Ok(Some(sv)) => sv,
            },
        };
        if sym <= 255 {
            return Ok(Some(LzssCode::Symbol(sym as u8)));
        }
        let len = (sym - 256) as usize + self.min_match;
        let ghost p1 = reader.position();
        let pc = match &self.offset_decoder {
            None => {
                return Err(CompressionError::DataError);
            },
            Some(d) => match d.dec(reader) {
                Err(e) => {
                    return Err(e);
                },
                Ok(None) => {
                    return Err(CompressionError::UnexpectedEof);
                },
                Ok(Some(sv)) => sv,
            },
        };
        let ghost p2 = reader.position();
        let pcu = pc as usize;
        if pcu <= 1 {
            return Ok(Some(LzssCode::Reference { len, pos: pcu }));
        }
        if pcu > 16 {
            return Err(CompressionError::DataError);
        }
        let extra = match reader.read_bits(pcu - 1) {
            None => {
                return Err(CompressionError::UnexpectedEof);
            },
            Some(v) => v,
        };
        proof {
            lemma_read_val_bound(s, p2, (pcu - 1) as nat);
            lemma_pow2_le_16((pcu - 1) as nat);
        }
        let base = pow2_u64((pcu - 1) as usize) as usize;
        let off = base + extra as usize;
        Ok(Some(LzssCode::Reference { len, pos: off }))
    }
}

} // verus!
