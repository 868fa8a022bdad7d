//! Huffman coding of the matcher's codes into a block.

use crate::bits::{bits_of, bytes_bits, lemma_rev_bits_bound, Bits};
use crate::btype::BlockType;
use crate::canonical::{
    canon_code, count_width, encoder_ok, first_code, lemma_canon_code_nonneg, lemma_rev_bits_low,
    slot, widths_within, wire_code,
};
use crate::code::{
    distance_extra_value, distance_extra_width, distance_symbol, extra_length_value,
    extra_length_width, lemma_distance_schedule, Code,
};
use crate::decoder::{lemma_pow2_up_to_15, HuffmanDecoder};
use crate::header::{
    codes_wf, count_frequencies, distance_frequencies, dynamic_header_bits, fields_cover,
    join_widths, lemma_count_distance_positive, lemma_count_literal_positive,
    lemma_count_run_positive, literal_frequencies, run_frequencies, run_frequencies_spec,
    run_lengths, run_lengths_spec, runs_coded, runs_expand, runs_valid, trim_spec, trimmed,
    used_fields, used_fields_spec, write_fields, write_runs, WIDTH_BASE,
};
use crate::lengths::{lemma_kraft_trim, limit_lengths, limit_lengths_spec, prefix_free};
use crate::stream::{fixed_distance_widths, fixed_literal_widths};
use crate::writer::{padded, Writer};
use vstd::arithmetic::power2::lemma2_to64;
use vstd::prelude::*;

verus! {

/// Where the table of the literal/length code starts.
pub const LITERAL_BASE: usize = 0;

/// Where the table of the distance code starts.
pub const DISTANCE_BASE: usize = 288;

/// The bits that stand for `sym` under the code of `widths`.
pub open spec fn symbol_bits(widths: Seq<u8>, sym: int) -> Seq<bool> {
    bits_of(wire_code(widths, sym), widths[sym] as nat)
}

/// The bits that stand for one code: its literal/length symbol with the
/// extra bits of a length, and for a back-reference its distance symbol with
/// the extra bits of the distance.
pub open spec fn code_bits(lit: Seq<u8>, dist: Seq<u8>, c: Code) -> Seq<bool> {
    let head = symbol_bits(lit, c.spec_literal_code()) + bits_of(
        extra_length_value(c),
        extra_length_width(c) as nat,
    );
    if c is Pointer {
        head + symbol_bits(dist, distance_symbol(c)) + bits_of(
            distance_extra_value(c),
            distance_extra_width(c) as nat,
        )
    } else {
        head
    }
}

/// The bits that stand for a sequence of codes.
pub open spec fn codes_bits(lit: Seq<u8>, dist: Seq<u8>, codes: Seq<Code>) -> Seq<bool>
    decreases codes.len(),
{
    if codes.len() == 0 {
        Seq::empty()
    } else {
        codes_bits(lit, dist, codes.drop_last()) + code_bits(lit, dist, codes.last())
    }
}

/// The bits of a final block of fixed type that holds `codes`.
pub open spec fn fixed_block_bits(codes: Seq<Code>) -> Seq<bool> {
    bits_of(1, 1) + bits_of(1, 2) + codes_bits(fixed_literal_widths(), fixed_distance_widths(), codes)
}

/// Every code can be written with the two alphabets: its symbols are in them.
pub open spec fn codes_fit(lit: Seq<u8>, dist: Seq<u8>, codes: Seq<Code>) -> bool {
    forall|k: int|
        0 <= k < codes.len() ==> (#[trigger] codes[k]).wf()
            && codes[k].spec_literal_code() < lit.len()
            && (codes[k] is Pointer ==> distance_symbol(codes[k]) < dist.len())
}

/// Every symbol that a code needs has a code of its own.
pub open spec fn codes_coded(lit: Seq<u8>, dist: Seq<u8>, codes: Seq<Code>) -> bool {
    forall|k: int|
        0 <= k < codes.len() ==> lit[(#[trigger] codes[k]).spec_literal_code()] >= 1
            && (codes[k] is Pointer
            ==> dist[distance_symbol(codes[k])] >= 1)
}

/// The bits of a final block of dynamic type that holds `codes`.
pub open spec fn dynamic_block_bits(
    lit: Seq<u8>,
    dist: Seq<u8>,
    clw: Seq<u8>,
    hclen: int,
    runs: Seq<(u8, u8)>,
    codes: Seq<Code>,
) -> Seq<bool> {
    bits_of(1, 1) + bits_of(2, 2) + dynamic_header_bits(lit, dist, clw, hclen, runs) + codes_bits(
        lit,
        dist,
        codes,
    )
}

/// What makes a dynamic block sound: code lengths that allow prefix codes
/// for all three alphabets, counts within the format's ranges, a header that
/// stands for the code lengths, and a code for every symbol used.
pub open spec fn dynamic_block_ok(
    lit: Seq<u8>,
    dist: Seq<u8>,
    clw: Seq<u8>,
    hclen: int,
    runs: Seq<(u8, u8)>,
    codes: Seq<Code>,
) -> bool {
    &&& 257 <= lit.len() <= 286
    &&& 1 <= dist.len() <= 30
    &&& clw.len() == 19
    &&& 4 <= hclen <= 19
    &&& prefix_free(lit)
    &&& prefix_free(dist)
    &&& prefix_free(clw)
    &&& widths_within(clw, 7)
    &&& fields_cover(clw, hclen)
    &&& runs_valid(runs)
    &&& runs_expand(runs) == lit + dist
    &&& runs_coded(clw, runs)
    &&& codes_fit(lit, dist, codes)
    &&& codes_coded(lit, dist, codes)
}

/// What a dynamic block was written with: the code lengths of its three
/// alphabets, how many fields its header has, and the symbols that its header
/// writes the code lengths in.
pub struct DynamicBlock {
    pub lit: Seq<u8>,
    pub dist: Seq<u8>,
    pub clw: Seq<u8>,
    pub hclen: int,
    pub runs: Seq<(u8, u8)>,
}

impl DynamicBlock {
    /// The block is sound for `codes`.
    pub open spec fn ok(self, codes: Seq<Code>) -> bool {
        dynamic_block_ok(self.lit, self.dist, self.clw, self.hclen, self.runs, codes)
    }

    /// The bits of the block for `codes`.
    pub open spec fn bits(self, codes: Seq<Code>) -> Seq<bool> {
        dynamic_block_bits(self.lit, self.dist, self.clw, self.hclen, self.runs, codes)
    }

    /// `bytes` is this block for `codes`, filled up to whole bytes.
    pub open spec fn describes(self, bytes: Seq<u8>, codes: Seq<Code>) -> bool {
        self.ok(codes) && bytes_bits(bytes) == padded(self.bits(codes))
    }
}

/// The dynamic block that `codes` are written with: code lengths by
/// package-merge from how often each symbol occurs, the alphabets cut after
/// their last symbol with a code, and the header that stands for them.
pub open spec fn dynamic_block_of(codes: Seq<Code>) -> DynamicBlock {
    let lit = trim_spec(limit_lengths_spec(literal_frequencies(codes), 15), 257);
    let dist = trim_spec(limit_lengths_spec(distance_frequencies(codes), 15), 1);
    let runs = run_lengths_spec(lit + dist, 0);
    let clw = limit_lengths_spec(run_frequencies_spec(runs), 7);
    DynamicBlock { lit, dist, clw, hclen: used_fields_spec(clw, 19), runs }
}

/// A literal/length symbol is at most 285.
pub proof fn lemma_literal_code_bound(c: Code)
    ensures
        0 <= c.spec_literal_code() <= 285,
{
}

/// The code tables of one block in the memory lent for them.
pub struct HuffmanEncoder<'a> {
    pub buf: &'a mut [i32; 0x10000],
    pub lit: Ghost<Seq<u8>>,
    pub dist: Ghost<Seq<u8>>,
}

impl<'a> HuffmanEncoder<'a> {
    /// The tables held are those of this encoder's code lengths.
    pub open spec fn wf(&self) -> bool {
        &&& self.lit@.len() <= 288
        &&& self.dist@.len() <= 32
        &&& widths_within(self.lit@, 15)
        &&& widths_within(self.dist@, 15)
        &&& encoder_ok(self.buf@, 0, self.lit@)
        &&& encoder_ok(self.buf@, 288, self.dist@)
    }

    /// Enters the symbols whose code has `w` bits into the table at `base`.
    /// `code` is the first code of that width; the result is the code after
    /// the last.
    #[verifier::rlimit(40)]
    fn fill_width(buf: &mut [i32; 0x10000], base: usize, widths: &[u8], w: u8, code: u32) -> (next: u32)
        requires
            1 <= w <= 15,
            widths_within(widths@, 15),
            base + widths@.len() <= 0x10000,
            code < 65536,
            code as int == first_code(widths@, w as int) % 65536,
            forall|sym: int|
                0 <= sym < widths@.len() ==> #[trigger] slot(old(buf)@, base as int, sym) == if 1
                    <= widths@[sym] < w {
                    widths@[sym] as int * 65536 + wire_code(widths@, sym)
                } else {
                    0
                },
        ensures
            next < 65536,
            next as int == (first_code(widths@, w as int) + count_width(
                widths@,
                w as int,
                widths@.len() as int,
            )) % 65536,
            forall|sym: int|
                0 <= sym < widths@.len() ==> #[trigger] slot(final(buf)@, base as int, sym) == if 1
                    <= widths@[sym] < w + 1 {
                    widths@[sym] as int * 65536 + wire_code(widths@, sym)
                } else {
                    0
                },
            forall|k: int|
                0 <= k < 0x10000
                    && !(base <= k < base + widths@.len()) ==> final(buf)@[k] == old(buf)@[k],
    {
        let n: usize = widths.len();
        let mut code: u32 = code;
        let mut s: usize = 0;
        while s < n
            invariant
                1 <= w <= 15,
                s <= n,
                n == widths@.len(),
                base + n <= 0x10000,
                widths_within(widths@, 15),
                code < 65536,
                code as int == (first_code(widths@, w as int) + count_width(
                    widths@,
                    w as int,
                    s as int,
                )) % 65536,
                forall|sym: int|
                    0 <= sym < n ==> #[trigger] slot(buf@, base as int, sym) == if 1 <= widths@[sym]
                        < w || (widths@[sym] == w && sym < s) {
                        widths@[sym] as int * 65536 + wire_code(widths@, sym)
                    } else {
                        0
                    },
                forall|k: int| 0 <= k < 0x10000
                    && !(base <= k < base + n) ==> buf@[k] == old(buf)@[k],
            decreases n - s,
        {
            let ghost before = buf@;
            if widths[s] == w {
                proof {
                    lemma_canon_code_nonneg(widths@, s as int);
                    lemma2_to64();
                    lemma_rev_bits_low(canon_code(widths@, s as int), 16, w as nat);
                }
                let bits = Bits { data: code as u16, width: w }.reverse();
                buf[base + s] = bits.as_i32();
                proof {
                    crate::canonical::lemma_next_code(
                        first_code(widths@, w as int) + count_width(widths@, w as int, s as int),
                        code as int,
                    );
                }
                code = (code + 1) % 65536;
            }
            proof {
                assert forall|sym: int| 0 <= sym < n implies #[trigger] slot(buf@, base as int, sym)
                    == if 1 <= widths@[sym] < w || (widths@[sym] == w && sym < s + 1) {
                    widths@[sym] as int * 65536 + wire_code(widths@, sym)
                } else {
                    0
                } by {
                    if sym != s {
                        assert(slot(buf@, base as int, sym) == slot(before, base as int, sym));
                    }
                }
            }
            s += 1;
        }
        code
    }

    /// Enters, for every symbol, its width and its code as sent into the table
    /// at `base`.
    pub fn fill(buf: &mut [i32; 0x10000], base: usize, widths: &[u8])
        requires
            widths_within(widths@, 15),
            base + widths@.len() <= 0x10000,
        ensures
            encoder_ok(final(buf)@, base as int, widths@),
            forall|k: int|
                0 <= k < 0x10000
                    && !(base <= k < base + widths@.len()) ==> final(buf)@[k] == old(buf)@[k],
    {
        let n: usize = widths.len();
        let mut i: usize = 0;
        while i < n
            invariant
                i <= n,
                n == widths@.len(),
                base + n <= 0x10000,
                forall|sym: int| 0 <= sym < i ==> #[trigger] slot(buf@, base as int, sym) == 0,
                forall|k: int| 0 <= k < 0x10000
                    && !(base <= k < base + n) ==> buf@[k] == old(buf)@[k],
            decreases n - i,
        {
            let ghost before = buf@;
            buf[base + i] = 0;
            proof {
                assert forall|sym: int| 0 <= sym < i + 1 implies #[trigger] slot(buf@, base as int, sym)
                    == 0 by {
                    if sym < i {
                        assert(slot(before, base as int, sym) == 0);
                    }
                }
            }
            i += 1;
        }
        let mut code: u32 = 0;
        let mut w: u8 = 1;
        while w <= 15
            invariant
                1 <= w <= 16,
                n == widths@.len(),
                base + n <= 0x10000,
                widths_within(widths@, 15),
                code < 65536,
                code as int == first_code(widths@, w as int) % 65536,
                forall|sym: int|
                    0 <= sym < n ==> #[trigger] slot(buf@, base as int, sym) == if 1 <= widths@[sym]
                        < w {
                        widths@[sym] as int * 65536 + wire_code(widths@, sym)
                    } else {
                        0
                    },
                forall|k: int| 0 <= k < 0x10000
                    && !(base <= k < base + n) ==> buf@[k] == old(buf)@[k],
            decreases 16 - w,
        {
            let next: u32 = Self::fill_width(buf, base, widths, w, code);
            proof {
                crate::canonical::lemma_next_first_code(widths@, w as int, next as int);
            }
            code = (2 * next) % 65536;
            w += 1;
        }
        proof {
            assert forall|sym: int| 0 <= sym < n implies #[trigger] slot(buf@, base as int, sym)
                == widths@[sym] as int * 65536 + wire_code(widths@, sym) by {
                assert(widths@[sym] as int <= 15);
            }
        }
    }

    /// Enters the tables of both alphabets from their code lengths.
    fn fill_both(lit: &[u8], dist: &[u8], buf: &mut [i32; 0x10000])
        requires
            lit@.len() <= 288,
            dist@.len() <= 32,
            widths_within(lit@, 15),
            widths_within(dist@, 15),
        ensures
            encoder_ok(final(buf)@, 0, lit@),
            encoder_ok(final(buf)@, 288, dist@),
            forall|k: int| 320 <= k < 0x10000 ==> final(buf)@[k] == old(buf)@[k],
    {
        Self::fill(buf, LITERAL_BASE, lit);
        let ghost mid = buf@;
        Self::fill(buf, DISTANCE_BASE, dist);
        proof {
            assert forall|sym: int| 0 <= sym < lit@.len() implies #[trigger] slot(buf@, 0, sym)
                == lit@[sym] as int * 65536 + wire_code(lit@, sym) by {
                assert(slot(mid, 0, sym) == lit@[sym] as int * 65536 + wire_code(lit@, sym));
            }
        }
    }

    /// The tables of the fixed codes.
    fn new_fixed(v_in: &[Code], buf: &'a mut [i32; 0x10000]) -> (r: Self)
        requires
            codes_wf(v_in@),
        ensures
            r.wf(),
            r.lit@ == fixed_literal_widths(),
            r.dist@ == fixed_distance_widths(),
            codes_fit(r.lit@, r.dist@, v_in@),
    {
        let (lit, dist) = HuffmanDecoder::fixed_widths();
        proof {
            assert(widths_within(lit@, 15));
            assert(widths_within(dist@, 15));
            assert forall|k: int| 0 <= k < v_in@.len() implies (#[trigger] v_in@[k]).wf()
                && v_in@[k].spec_literal_code() < lit@.len() && (v_in@[k] is Pointer
                ==> distance_symbol(v_in@[k]) < dist@.len()) by {
                assert(v_in@[k].wf());
                lemma_literal_code_bound(v_in@[k]);
                if v_in@[k] is Pointer {
                    lemma_distance_schedule(v_in@[k]);
                }
            }
        }
        Self::fill_both(lit.as_slice(), dist.as_slice(), buf);
        HuffmanEncoder { buf, lit: Ghost(lit@), dist: Ghost(dist@) }
    }

    /// Code lengths for one alphabet from how often its symbols occur, cut
    /// after the last symbol that has a code but not below `least` symbols.
    fn choose_lengths(freqs: &Vec<usize>, least: usize) -> (r: Vec<u8>)
        requires
            least <= freqs@.len() <= 288,
        ensures
            r@ == trim_spec(limit_lengths_spec(freqs@, 15), least as int),
            least <= r@.len() <= freqs@.len(),
            prefix_free(r@),
            forall|i: int| 0 <= i < freqs@.len() && #[trigger] freqs@[i] > 0 ==> i < r@.len()
                && r@[i] >= 1,
    {
        proof {
            lemma2_to64();
        }
        let full: Vec<u8> = limit_lengths(freqs.as_slice(), 15);
        let r: Vec<u8> = trimmed(&full, least);
        proof {
            lemma_kraft_trim(full@, r@.len() as int, 15);
            assert(widths_within(r@, 15)) by {
                assert forall|i: int| 0 <= i < r@.len() implies #[trigger] r@[i] as int <= 15 by {
                    assert(full@[i] as int <= 15);
                }
            }
            assert forall|i: int| 0 <= i < freqs@.len() && #[trigger] freqs@[i] > 0 implies i
                < r@.len() && r@[i] >= 1 by {
                assert(full@[i] >= 1);
                if i >= r@.len() {
                    assert(full@[i] == 0);
                }
            }
        }
        r
    }

    /// The tables of codes chosen for `v_in`, whose header is written.
    #[verifier::rlimit(40)]
    fn new_dynamic(v_in: &[Code], buf: &'a mut [i32; 0x10000], writer: &mut Writer) -> (r: Self)
        requires
            codes_wf(v_in@),
            old(writer).wf(),
        ensures
            final(writer).wf(),
            r.wf(),
            r.lit@ == dynamic_block_of(v_in@).lit,
            r.dist@ == dynamic_block_of(v_in@).dist,
            dynamic_block_of(v_in@).ok(v_in@),
            final(writer)@ == old(writer)@ + dynamic_header_bits(
                dynamic_block_of(v_in@).lit,
                dynamic_block_of(v_in@).dist,
                dynamic_block_of(v_in@).clw,
                dynamic_block_of(v_in@).hclen,
                dynamic_block_of(v_in@).runs,
            ),
    {
        let ghost start = writer@;
        let total: usize = v_in.len();
        let (lit_freq, dist_freq) = count_frequencies(v_in);
        let lit: Vec<u8> = Self::choose_lengths(&lit_freq, 257);
        let dist: Vec<u8> = Self::choose_lengths(&dist_freq, 1);
        proof {
            assert forall|k: int| 0 <= k < v_in@.len() implies (#[trigger] v_in@[k]).wf()
                && v_in@[k].spec_literal_code() < lit@.len() && (v_in@[k] is Pointer
                ==> distance_symbol(v_in@[k]) < dist@.len()) && lit@[v_in@[k].spec_literal_code()]
                >= 1 && (v_in@[k] is Pointer ==> dist@[distance_symbol(v_in@[k])] >= 1) by {
                let c = v_in@[k];
                assert(c.wf());
                lemma_literal_code_bound(c);
                lemma_count_literal_positive(v_in@, k, v_in@.len() as int);
                crate::header::lemma_count_literal_bounds(
                    v_in@,
                    c.spec_literal_code(),
                    v_in@.len() as int,
                );
                assert(lit_freq@[c.spec_literal_code()] > 0);
                if c is Pointer {
                    lemma_distance_schedule(c);
                    lemma_count_distance_positive(v_in@, k, v_in@.len() as int);
                    crate::header::lemma_count_distance_bounds(
                        v_in@,
                        distance_symbol(c),
                        v_in@.len() as int,
                    );
                    assert(dist_freq@[distance_symbol(c)] > 0);
                }
            }
        }
        let all: Vec<u8> = join_widths(&lit, &dist);
        proof {
            assert(widths_within(all@, 15)) by {
                assert forall|i: int| 0 <= i < all@.len() implies #[trigger] all@[i] as int <= 15 by {
                    if i < lit@.len() {
                        assert(lit@[i] as int <= 15);
                    } else {
                        assert(dist@[i - lit@.len()] as int <= 15);
                    }
                }
            }
        }
        let runs: Vec<(u8, u8)> = run_lengths(&all);
        let run_total: usize = runs.len();
        let run_freq: Vec<usize> = run_frequencies(&runs);
        proof {
            lemma2_to64();
        }
        let clw: Vec<u8> = limit_lengths(run_freq.as_slice(), 7);
        let hclen: usize = used_fields(&clw);
        proof {
            assert(widths_within(clw@, 15)) by {
                assert forall|i: int| 0 <= i < clw@.len() implies #[trigger] clw@[i] as int <= 15 by {
                    assert(clw@[i] as int <= 7);
                }
            }
            assert forall|k: int| 0 <= k < runs@.len() implies clw@[(#[trigger] runs@[k]).0 as int]
                >= 1 by {
                crate::header::lemma_runs_valid_at(runs@, k);
                lemma_count_run_positive(runs@, k, runs@.len() as int);
                crate::header::lemma_count_run_bounds(runs@, runs@[k].0 as int, runs@.len() as int);
                assert(run_freq@[runs@[k].0 as int] > 0);
            }
        }
        Self::fill(buf, WIDTH_BASE, clw.as_slice());
        let ghost mid = buf@;
        Self::fill_both(lit.as_slice(), dist.as_slice(), buf);
        proof {
            assert forall|sym: int| 0 <= sym < clw@.len() implies #[trigger] slot(buf@, 320, sym)
                == clw@[sym] as int * 65536 + wire_code(clw@, sym) by {
                assert(slot(mid, 320, sym) == clw@[sym] as int * 65536 + wire_code(clw@, sym));
            }
        }
        writer.write_bits(Bits { data: (lit.len() - 257) as u16, width: 5 });
        writer.write_bits(Bits { data: (dist.len() - 1) as u16, width: 5 });
        writer.write_bits(Bits { data: (hclen - 4) as u16, width: 4 });
        write_fields(writer, &clw, hclen);
        write_runs(writer, buf, &clw, &runs);
        proof {
            let block = dynamic_block_of(v_in@);
            assert(block.lit == lit@);
            assert(block.dist == dist@);
            assert(block.runs == runs@);
            assert(block.clw == clw@);
            assert(block.hclen == hclen);
            assert(writer@ =~= start + dynamic_header_bits(lit@, dist@, clw@, hclen as int, runs@));
        }
        HuffmanEncoder { buf, lit: Ghost(lit@), dist: Ghost(dist@) }
    }

    /// Builds the code tables for a block of the given type that holds
    /// `v_in`. For the dynamic type the codes are chosen for `v_in`, and the
    /// header that tells them is written.
    pub fn new(btype: BlockType, v_in: &[Code], buf: &'a mut [i32; 0x10000], writer: &mut Writer) -> (r:
        Self)
        requires
            btype != BlockType::Raw,
            codes_wf(v_in@),
            old(writer).wf(),
        ensures
            final(writer).wf(),
            r.wf(),
            codes_fit(r.lit@, r.dist@, v_in@),
            btype == BlockType::Fixed ==> r.lit@ == fixed_literal_widths() && r.dist@
                == fixed_distance_widths() && final(writer)@ == old(writer)@,
            btype == BlockType::Dynamic ==> r.lit@ == dynamic_block_of(v_in@).lit && r.dist@
                == dynamic_block_of(v_in@).dist && dynamic_block_of(v_in@).ok(v_in@)
                    && final(writer)@ == old(writer)@ + dynamic_header_bits(
                dynamic_block_of(v_in@).lit,
                dynamic_block_of(v_in@).dist,
                dynamic_block_of(v_in@).clw,
                dynamic_block_of(v_in@).hclen,
                dynamic_block_of(v_in@).runs,
            ),
    {
        match btype {
            BlockType::Fixed => Self::new_fixed(v_in, buf),
            _ => Self::new_dynamic(v_in, buf, writer),
        }
    }

    /// Writes one symbol of the alphabet whose table is at `base`.
    pub(crate) fn put(writer: &mut Writer, buf: &[i32; 0x10000], base: usize, sym: u16, Ghost(widths): Ghost<Seq<u8>>)
        requires
            old(writer).wf(),
            encoder_ok(buf@, base as int, widths),
            widths_within(widths, 15),
            sym < widths.len(),
        ensures
            final(writer).wf(),
            final(writer)@ == old(writer)@ + symbol_bits(widths, sym as int),
    {
        let entry: i32 = buf[base + sym as usize];
        proof {
            assert(entry as int == slot(buf@, base as int, sym as int));
            assert(widths[sym as int] as int <= 15);
            lemma_rev_bits_bound(canon_code(widths, sym as int), widths[sym as int] as nat);
            lemma_pow2_up_to_15(widths[sym as int] as nat);
        }
        let bits = Bits::from(entry);
        writer.write_bits(bits);
    }

    /// Writes one code.
    pub fn encode(&self, writer: &mut Writer, code: Code)
        requires
            old(writer).wf(),
            self.wf(),
            code.wf(),
            code.spec_literal_code() < self.lit@.len(),
            code is Pointer ==> distance_symbol(code) < self.dist@.len(),
        ensures
            final(writer).wf(),
            final(writer)@ == old(writer)@ + code_bits(self.lit@, self.dist@, code),
    {
        let ghost start = writer@;
        Self::put(writer, &*self.buf, LITERAL_BASE, code.literal_code(), Ghost(self.lit@));
        if let Some((width, data)) = code.extra_length() {
            writer.write_bits(Bits { data, width });
        }
        let ghost head = symbol_bits(self.lit@, code.spec_literal_code()) + bits_of(
            extra_length_value(code),
            extra_length_width(code) as nat,
        );
        proof {
            assert(bits_of(extra_length_value(code), 0) =~= Seq::<bool>::empty());
            assert(writer@ =~= start + head);
        }
        if let Some((sym, width, data)) = code.distance_code() {
            Self::put(writer, &*self.buf, DISTANCE_BASE, sym, Ghost(self.dist@));
            writer.write_bits(Bits { data, width });
            proof {
                assert(writer@ =~= start + (head + symbol_bits(self.dist@, distance_symbol(code))
                    + bits_of(distance_extra_value(code), distance_extra_width(code) as nat)));
            }
        }
    }

    /// Writes all of `codes`.
    pub fn encode_all(&self, writer: &mut Writer, codes: &[Code])
        requires
            old(writer).wf(),
            self.wf(),
            codes_fit(self.lit@, self.dist@, codes@),
        ensures
            final(writer).wf(),
            final(writer)@ == old(writer)@ + codes_bits(self.lit@, self.dist@, codes@),
    {
        let ghost start = writer@;
        let mut k: usize = 0;
        proof {
            assert(codes@.subrange(0, 0) =~= Seq::<Code>::empty());
            assert(start + Seq::<bool>::empty() =~= start);
        }
        while k < codes.len()
            invariant
                k <= codes.len(),
                writer.wf(),
                self.wf(),
                codes_fit(self.lit@, self.dist@, codes@),
                start == old(writer)@,
                writer@ == start + codes_bits(self.lit@, self.dist@, codes@.subrange(0, k as int)),
            decreases codes.len() - k,
        {
            let ghost before = codes_bits(self.lit@, self.dist@, codes@.subrange(0, k as int));
            proof {
                assert(codes@[k as int].wf());
                assert(codes@.subrange(0, k + 1).drop_last() =~= codes@.subrange(0, k as int));
                assert(codes@.subrange(0, k + 1).last() == codes@[k as int]);
            }
            self.encode(writer, codes[k]);
            proof {
                assert(writer@ =~= start + (before + code_bits(self.lit@, self.dist@, codes@[k as int])));
            }
            k += 1;
        }
        proof {
            assert(codes@.subrange(0, codes@.len() as int) =~= codes@);
        }
    }
}

/// What `huffman_encode` gives for `codes`: the bytes of one final block of
/// the given type. For the dynamic type that includes that the block is sound.
pub open spec fn encoded(bytes: Seq<u8>, codes: Seq<Code>, btype: BlockType) -> bool {
    match btype {
        BlockType::Fixed => bytes_bits(bytes) == padded(fixed_block_bits(codes)),
        BlockType::Dynamic => dynamic_block_of(codes).describes(bytes, codes),
        BlockType::Raw => false,
    }
}

/// Writes `v_in` as one final block of the given type.
pub fn huffman_encode(v_in: &[Code], btype: BlockType, buf: &mut [i32; 0x10000]) -> (r: Vec<u8>)
    requires
        btype != BlockType::Raw,
        codes_wf(v_in@),
    ensures
        encoded(r@, v_in@, btype),
{
    let mut writer = Writer::new();
    writer.write_bits(Bits { data: 1, width: 1 });
    writer.write_bits(Bits { data: btype.to_bits(), width: 2 });
    let ghost head = writer@;
    let encoder = HuffmanEncoder::new(btype, v_in, buf, &mut writer);
    let ghost mid = writer@;
    encoder.encode_all(&mut writer, v_in);
    proof {
        assert(head =~= bits_of(1, 1) + bits_of(btype.wire(), 2));
        if btype == BlockType::Fixed {
            assert(writer@ =~= fixed_block_bits(v_in@));
        } else {
            assert(writer@ =~= dynamic_block_of(v_in@).bits(v_in@));
        }
    }
    writer.finish()
}

} // verus!
