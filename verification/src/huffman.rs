//! Canonical Huffman tables: construction from a list of per-symbol code
//! lengths, and bit-by-bit decoding of one symbol.
//!
//! Codes are assigned canonically: symbols sorted by (code length, symbol
//! index) receive densely increasing code values, shorter codes being
//! lexicographically smaller; a length of 0 marks an unused symbol. A list
//! of lengths is accepted only when it describes a complete prefix code:
//! the Kraft sum over the used symbols must be exactly one.
use vstd::prelude::*;

verus! {

use crate::CompressionError;
use crate::bits::BitReader;
use crate::bits::bit_at;
use crate::bits::read_val;
use crate::bits::total_bits;
use vstd::arithmetic::power2::lemma2_to64;
use vstd::arithmetic::power2::lemma_pow2_strictly_increases;
use vstd::arithmetic::power2::lemma_pow2_unfold;
use vstd::arithmetic::power2::pow2;

/// Longest accepted code, in bits.
pub const MAX_CODE_LEN: u8 = 16;

/// Every length is at most `MAX_CODE_LEN`.
pub open spec fn lens_ok(lens: Seq<u8>) -> bool {
    forall|j: int| 0 <= j < lens.len() ==> lens[j] <= MAX_CODE_LEN
}

/// The Kraft sum of the first `n` lengths, scaled by `pow2(16)`: each used
/// symbol of length `l` contributes `pow2(16 - l)`.
pub open spec fn kraft_sum(lens: Seq<u8>, n: int) -> nat
    decreases n,
{
    if n <= 0 {
        0
    } else {
        kraft_sum(lens, n - 1) + if 0 < lens[n - 1] <= 16 {
            pow2((16 - lens[n - 1]) as nat)
        } else {
            0
        }
    }
}

/// A length list describes a complete prefix code: every length fits in 16
/// bits, the scaled Kraft sum is exactly `pow2(16)`, and the symbols fit in
/// a `u16`.
pub open spec fn huff_valid(lens: Seq<u8>) -> bool {
    lens.len() <= 0xFFFF && lens_ok(lens) && kraft_sum(lens, lens.len() as int) == 0x10000
}

/// Whether symbol `j` is assigned a code before the slot `(l, i)` in the
/// canonical order by (length, symbol index).
pub open spec fn precedes(lens: Seq<u8>, j: int, l: u8, i: int) -> bool {
    0 < lens[j] && (lens[j] < l || (lens[j] == l && j < i))
}

/// Partial sum, over the first `n` symbols, of the canonical-code
/// contributions to the slot `(l, i)`: each earlier symbol of length
/// `m <= l` shifts the code by `pow2(l - m)`.
pub open spec fn code_sum(lens: Seq<u8>, l: u8, i: int, n: int) -> nat
    decreases n,
{
    if n <= 0 {
        0
    } else {
        code_sum(lens, l, i, n - 1) + if precedes(lens, n - 1, l, i) && lens[n - 1] <= l {
            pow2((l - lens[n - 1]) as nat)
        } else {
            0
        }
    }
}

/// The canonical code value of symbol `i` (meaningful when its length is
/// positive; 0 for unused symbols).
pub open spec fn code_of(lens: Seq<u8>, i: int) -> nat {
    code_sum(lens, lens[i], i, lens.len() as int)
}

/// The first symbol among `0 .. n` whose code has length `l` and value
/// `acc`, if any.
pub open spec fn find_sym(lens: Seq<u8>, l: u8, acc: nat, n: int) -> Option<int>
    decreases n,
{
    if n <= 0 {
        None
    } else {
        match find_sym(lens, l, acc, n - 1) {
            Some(j) => Some(j),
            None => if lens[n - 1] == l && code_of(lens, n - 1) == acc {
                Some(n - 1)
            } else {
                None
            },
        }
    }
}

/// One canonical decode step: bits already read form the value `acc` of
/// length `l - 1`; read further bits until they match some symbol's code.
/// Exhausting the stream mid-code reports `UnexpectedEof`; sixteen bits
/// without a match is structurally invalid data.
pub open spec fn huff_walk(lens: Seq<u8>, s: Seq<u8>, pos: nat, l: nat, acc: nat) -> Result<
    (u16, nat),
    CompressionError,
>
    decreases 17 - l,
{
    if l > 16 {
        Err(CompressionError::DataError)
    } else if pos >= total_bits(s) {
        Err(CompressionError::UnexpectedEof)
    } else {
        let acc2 = acc * 2 + bit_at(s, pos);
        match find_sym(lens, (l as u8), acc2, lens.len() as int) {
            Some(j) => Ok((j as u16, (pos + 1) as nat)),
            None => huff_walk(lens, s, (pos + 1) as nat, (l + 1) as nat, acc2),
        }
    }
}

/// What decoding one symbol from a real (non-degenerate) table returns:
/// the matched symbol and the new bit position; `None` at the position of
/// the stream's end when the bits ran out mid-code.
pub open spec fn spec_real_dec(lens: Seq<u8>, s: Seq<u8>, pos: nat) -> Result<
    (Option<u16>, nat),
    CompressionError,
> {
    match huff_walk(lens, s, pos, 1, 0) {
        Ok((sym, p2)) => Ok((Some(sym), p2)),
        Err(CompressionError::UnexpectedEof) => Ok((None, total_bits(s))),
        Err(CompressionError::DataError) => Err(CompressionError::DataError),
    }
}

/// A successful walk consumes at least one bit and stays within the stream.
pub proof fn lemma_huff_walk_advances(lens: Seq<u8>, s: Seq<u8>, pos: nat, l: nat, acc: nat)
    ensures
        match huff_walk(lens, s, pos, l, acc) {
            Ok((sym, p2)) => pos < p2 <= total_bits(s),
            Err(e) => true,
        },
    decreases 17 - l,
{
    if l > 16 || pos >= total_bits(s) {
    } else {
        let acc2 = acc * 2 + bit_at(s, pos);
        if find_sym(lens, (l as u8), acc2, lens.len() as int) is None {
            lemma_huff_walk_advances(lens, s, (pos + 1) as nat, (l + 1) as nat, acc2);
        }
    }
}

/// A successful decode from a real table consumes at least one bit; a
/// decode that returns `None` ends at the stream's end.
pub proof fn lemma_real_dec_advances(lens: Seq<u8>, s: Seq<u8>, pos: nat)
    ensures
        match spec_real_dec(lens, s, pos) {
            Ok((o, p2)) => p2 <= total_bits(s) && (o is Some ==> pos < p2),
            Err(e) => true,
        },
{
    lemma_huff_walk_advances(lens, s, pos, 1, 0);
}

proof fn lemma_find_sym_found(lens: Seq<u8>, l: u8, acc: nat, j: int, n: int)
    requires
        0 <= j < n,
        find_sym(lens, l, acc, j) is None,
        lens[j] == l,
        code_of(lens, j) == acc,
    ensures
        find_sym(lens, l, acc, n) == Some(j),
    decreases n,
{
    if n > j + 1 {
        lemma_find_sym_found(lens, l, acc, j, n - 1);
    }
}

proof fn lemma_code_sum_le(lens: Seq<u8>, l: u8, i: int, n: int)
    requires
        l <= 16,
        0 <= n,
    ensures
        code_sum(lens, l, i, n) <= n * 0x10000,
    decreases n,
{
    if n > 0 {
        lemma_code_sum_le(lens, l, i, n - 1);
        if precedes(lens, n - 1, l, i) && lens[n - 1] <= l {
            if ((l - lens[n - 1]) as nat) < 16 {
                lemma_pow2_strictly_increases((l - lens[n - 1]) as nat, 16);
            }
            lemma2_to64();
        }
    }
}

proof fn lemma_kraft_sum_le(lens: Seq<u8>, n: int)
    requires
        0 <= n,
    ensures
        kraft_sum(lens, n) <= n * 0x10000,
    decreases n,
{
    if n > 0 {
        lemma_kraft_sum_le(lens, n - 1);
        if 0 < lens[n - 1] <= 16 {
            if ((16 - lens[n - 1]) as nat) < 16 {
                lemma_pow2_strictly_increases((16 - lens[n - 1]) as nat, 16);
            }
            lemma2_to64();
        }
    }
}

/// `pow2` for exponents up to 16, as a machine integer.
pub fn pow2_u64(e: usize) -> (r: u64)
    requires
        e <= 16,
    ensures
        r == pow2(e as nat),
        r <= 0x10000,
{
    let mut r: u64 = 1;
    let mut i: usize = 0;
    proof {
        lemma2_to64();
    }
    while i < e
        invariant
            i <= e,
            e <= 16,
            r == pow2(i as nat),
            r <= 0x10000,
        decreases e - i,
    {
        proof {
            if (i as nat) < 15 {
                lemma_pow2_strictly_increases(i as nat, 15);
            }
            lemma2_to64();
            lemma_pow2_unfold((i + 1) as nat);
        }
        r = r * 2;
        i = i + 1;
    }
    r
}

/// A canonical Huffman decode table: the per-symbol code lengths together
/// with the code value assigned to each symbol.
pub struct HuffmanTable {
    lens: Vec<u8>,
    codes: Vec<u64>,
}

impl View for HuffmanTable {
    type V = Seq<u8>;

    closed spec fn view(&self) -> Seq<u8> {
        self.lens@
    }
}

impl HuffmanTable {
    pub closed spec fn wf(&self) -> bool {
        &&& huff_valid(self.lens@)
        &&& self.codes@.len() == self.lens@.len()
        &&& forall|j: int| 0 <= j < self.lens@.len() ==> self.codes@[j] == code_of(self.lens@, j)
    }

    /// Builds the table for a list of code lengths. Returns `None` exactly
    /// when the list is not a complete prefix-code description.
    pub fn new(lens: &Vec<u8>) -> (r: Option<HuffmanTable>)
        ensures
            match r {
                Some(t) => huff_valid(lens@) && t.wf() && t@ == lens@,
                None => !huff_valid(lens@),
            },
    {
        let n = lens.len();
        if n > 0xFFFF {
            return None;
        }
        let mut sum: u64 = 0;
        let mut own: Vec<u8> = Vec::new();
        let mut i: usize = 0;
        while i < n
            invariant
                i <= n,
                n == lens@.len(),
                n <= 0xFFFF,
                own@ == lens@.subrange(0, i as int),
                sum == kraft_sum(lens@, i as int),
                sum <= (i as nat) * 0x10000,
                forall|j: int| 0 <= j < i ==> lens@[j] <= MAX_CODE_LEN,
            decreases n - i,
        {
            let l = lens[i];
            if l > MAX_CODE_LEN {
                return None;
            }
            if l > 0 {
                proof {
                    lemma_kraft_sum_le(lens@, i as int);
                }
                sum = sum + pow2_u64((16 - l) as usize);
            }
            own.push(l);
            proof {
                assert(own@ =~= lens@.subrange(0, i + 1));
            }
            i = i + 1;
        }
        if sum != 0x10000 {
            return None;
        }
        proof {
            assert(own@ =~= lens@);
        }
        let mut codes: Vec<u64> = Vec::new();
        let mut i: usize = 0;
        while i < n
            invariant
                i <= n,
                n == lens@.len(),
                n <= 0xFFFF,
                codes@.len() == i,
                lens_ok(lens@),
                forall|k: int| 0 <= k < i ==> codes@[k] == code_of(lens@, k),
            decreases n - i,
        {
            let li = lens[i];
            let mut c: u64 = 0;
            let mut j: usize = 0;
            while j < n
                invariant
                    j <= n,
                    n == lens@.len(),
                    n <= 0xFFFF,
                    lens_ok(lens@),
                    li == lens@[i as int],
                    li <= 16,
                    i < n,
                    c == code_sum(lens@, li, i as int, j as int),
                    c <= (j as nat) * 0x10000,
                decreases n - j,
            {
                let lj = lens[j];
                if lj > 0 && (lj < li || (lj == li && j < i)) {
                    proof {
                        lemma_code_sum_le(lens@, li, i as int, j as int);
                    }
                    c = c + pow2_u64((li - lj) as usize);
                }
                j = j + 1;
            }
            codes.push(c);
            i = i + 1;
        }
        Some(HuffmanTable { lens: own, codes })
    }

    /// Decodes one symbol, reading bits until they form the canonical code
    /// of some used symbol. Returns `Ok(None)` when the stream is exhausted
    /// mid-code; sixteen bits without a match is a `DataError`.
    pub fn dec(&self, reader: &mut BitReader) -> (r: Result<Option<u16>, CompressionError>)
        requires
            self.wf(),
            old(reader).wf(),
        ensures
            final(reader).wf(),
            final(reader).bytes_view() == old(reader).bytes_view(),
            match spec_real_dec(self@, old(reader).bytes_view(), old(reader).position()) {
                Ok((o, p2)) => r == Ok::<Option<u16>, CompressionError>(o)
                    && final(reader).position() == p2,
                Err(e) => r == Err::<Option<u16>, CompressionError>(e),
            },
    {
        let ghost s = reader.bytes_view();
        let ghost pos0 = reader.position();
        let mut acc: u16 = 0;
        let mut l: usize = 1;
        let mut res: Result<Option<u16>, CompressionError> = Err(CompressionError::DataError);
        proof {
            lemma2_to64();
        }
        loop
            invariant_except_break
                self.wf(),
                reader.wf(),
                reader.bytes_view() == s,
                1 <= l <= 17,
                acc < pow2((l - 1) as nat),
                res == Err::<Option<u16>, CompressionError>(CompressionError::DataError),
                huff_walk(self@, s, reader.position(), l as nat, acc as nat) == huff_walk(
                    self@,
                    s,
                    pos0,
                    1,
                    0,
                ),
            ensures
                reader.wf(),
                reader.bytes_view() == s,
                match spec_real_dec(self@, s, pos0) {
                    Ok((o, p2)) => res == Ok::<Option<u16>, CompressionError>(o)
                        && reader.position() == p2,
                    Err(e) => res == Err::<Option<u16>, CompressionError>(e),
                },
            decreases 17 - l,
        {
            if l > 16 {
                break;
            }
            let ghost p = reader.position();
            match reader.read_bits(1) {
                None => {
                    res = Ok(None);
                    break;
                },
                Some(b) => {
                    proof {
                        assert(read_val(s, p, 0) == 0);
                        assert(read_val(s, p, 1) == bit_at(s, p));
                        crate::bits::lemma_bit_at_le_1(s, p);
                        if ((l - 1) as nat) < 15 {
                            lemma_pow2_strictly_increases((l - 1) as nat, 15);
                        }
                        lemma2_to64();
                        lemma_pow2_unfold(l as nat);
                    }
                    let acc2 = acc * 2 + b;
                    let n = self.lens.len();
                    let mut j: usize = 0;
                    let mut hit: bool = false;
                    while j < n && !hit
                        invariant
                            j <= n,
                            self.wf(),
                            n == self.lens@.len(),
                            n <= 0xFFFF,
                            1 <= l <= 16,
                            find_sym(self@, l as u8, acc2 as nat, j as int) is None,
                            hit ==> j < n && self.lens@[j as int] == l as u8 && code_of(
                                self@,
                                j as int,
                            ) == acc2 as nat,
                        decreases n - j, (if hit { 0int } else { 1int }),
                    {
                        if self.lens[j] == (l as u8) && self.codes[j] == (acc2 as u64) {
                            hit = true;
                        } else {
                            j = j + 1;
                        }
                    }
                    if hit {
                        proof {
                            lemma_find_sym_found(self@, l as u8, acc2 as nat, j as int, n as int);
                        }
                        res = Ok(Some(j as u16));
                        break;
                    }
                    acc = acc2;
                    l = l + 1;
                },
            }
        }
        res
    }
}

} // verus!
