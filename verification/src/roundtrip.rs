//! Compressing and then restoring gives the input back.
//!
//! The proof follows the stream: where the bits that the encoder wrote stand
//! in the input, the decoder reads the number, the symbol, the code, the
//! header and the block that the encoder meant.

use crate::bits::{bit_at, bits_of, bytes_bits, lemma_rev_bits_bound};
use crate::btype::BlockType;
use crate::canonical::{
    count_width, eob_width, lemma_canon_code_nonneg, lemma_max_width_bound, lemma_table_entry_shape,
    max_width, sym_matches, table_entry, widths_within, wire_code,
};
use crate::code::{
    distance_extra_value, distance_extra_width, distance_symbol, extra_length_value,
    extra_length_width, lemma_distance_schedule, lemma_length_schedule, Code,
};
use crate::deflate::{deflate_codes, deflated};
use crate::error::Error;
use crate::header::{
    dynamic_header_bits, lemma_runs_valid_at, run_count, run_extra_width, runs_bits, runs_coded,
    runs_expand, runs_valid, width_fields,
};
use crate::huffman::{
    code_bits, codes_bits, dynamic_block_of, fixed_block_bits, symbol_bits, DynamicBlock,
};
use crate::lengths::{kraft, lemma_kraft_flat, prefix_free};
use crate::lzss::{
    expand, expand_codes, lemma_lzss_codes_wf, lemma_lzss_round_trip, lzss_encode_spec, lzss_from,
    match_code, match_total, takes_match,
};
use crate::prefix::{lemma_match_unique, lemma_table_finds};
use crate::reader::{
    carries, lemma_stream_value_bound, lemma_stream_value_of, lemma_stream_value_prefix, stream_bit,
    stream_value,
};
use crate::stream::{
    block_body, code_at, decode_at, dynamic_tables, fixed_distance_widths, fixed_literal_widths,
    inflate_spec, last_of, literal_at, next_run_at, pointer_at, read_code_widths, read_widths,
    repeat, width_code_order,
};
use crate::writer::padded;
use vstd::arithmetic::div_mod::lemma_small_mod;
use vstd::arithmetic::power2::{lemma2_to64, pow2};
use vstd::prelude::*;

verus! {

/// Bit `pos + i` of the stream is `bits[i]`.
pub open spec fn bit_is(input: Seq<u8>, pos: int, bits: Seq<bool>, i: int) -> bool {
    stream_bit(input, pos + i) == if bits[i] {
        1int
    } else {
        0int
    }
}

/// The stream holds `bits` from `pos` on.
pub open spec fn holds(input: Seq<u8>, pos: int, bits: Seq<bool>) -> bool {
    &&& 0 <= pos
    &&& pos + bits.len() <= 8 * input.len()
    &&& forall|i: int| 0 <= i < bits.len() ==> #[trigger] bit_is(input, pos, bits, i)
}

/// Bytes whose bits are `bits` filled up with zeros hold `bits` from the start.
pub proof fn lemma_holds_written(input: Seq<u8>, bits: Seq<bool>)
    requires
        bytes_bits(input) == padded(bits),
    ensures
        holds(input, 0, bits),
{
    assert(bytes_bits(input).len() == 8 * input.len());
    assert forall|i: int| 0 <= i < bits.len() implies #[trigger] bit_is(input, 0, bits, i) by {
        assert(bytes_bits(input)[i] == padded(bits)[i]);
        assert(padded(bits)[i] == bits[i]);
    }
}

/// A part of what the stream holds is held where it stands.
pub proof fn lemma_holds_part(input: Seq<u8>, pos: int, bits: Seq<bool>, a: int, b: int)
    requires
        holds(input, pos, bits),
        0 <= a <= b <= bits.len(),
    ensures
        holds(input, pos + a, bits.subrange(a, b)),
{
    assert forall|i: int| 0 <= i < b - a implies #[trigger] bit_is(
        input,
        pos + a,
        bits.subrange(a, b),
        i,
    ) by {
        assert(bit_is(input, pos, bits, a + i));
    }
}

/// Of two runs of bits held one after the other, each is held.
pub proof fn lemma_holds_split(input: Seq<u8>, pos: int, a: Seq<bool>, b: Seq<bool>)
    requires
        holds(input, pos, a + b),
    ensures
        holds(input, pos, a),
        holds(input, pos + a.len(), b),
{
    lemma_holds_part(input, pos, a + b, 0, a.len() as int);
    lemma_holds_part(input, pos, a + b, a.len() as int, (a + b).len() as int);
    assert((a + b).subrange(0, a.len() as int) =~= a);
    assert((a + b).subrange(a.len() as int, (a + b).len() as int) =~= b);
}

/// Where the stream holds the low `w` bits of `x`, they read as `x` reduced
/// to `w` bits.
pub proof fn lemma_holds_value(input: Seq<u8>, pos: int, x: int, w: nat)
    requires
        0 <= x,
        holds(input, pos, bits_of(x, w)),
    ensures
        stream_value(input, pos, w) == x % pow2(w) as int,
        pos + w <= 8 * input.len(),
{
    assert forall|i: int| 0 <= i < w implies #[trigger] carries(input, pos, x, i) by {
        assert(bit_is(input, pos, bits_of(x, w), i));
    }
    lemma_stream_value_of(input, pos, x, w);
}

/// Where the stream holds the low `w` bits of a number that fits them, they
/// read as that number.
pub proof fn lemma_holds_small_value(input: Seq<u8>, pos: int, x: int, w: nat)
    requires
        0 <= x < pow2(w),
        holds(input, pos, bits_of(x, w)),
    ensures
        stream_value(input, pos, w) == x,
        pos + w <= 8 * input.len(),
{
    lemma_holds_value(input, pos, x, w);
    lemma_small_mod(x as nat, pow2(w));
}

/// Where the stream holds the code of `sym`, any look at more bits starts with
/// that code.
pub proof fn lemma_holds_symbol_matches(widths: Seq<u8>, input: Seq<u8>, pos: int, sym: int, n: nat)
    requires
        0 <= sym < widths.len(),
        1 <= widths[sym] <= n,
        holds(input, pos, symbol_bits(widths, sym)),
    ensures
        sym_matches(widths, sym, stream_value(input, pos, n)),
        0 <= stream_value(input, pos, n),
        pos + widths[sym] <= 8 * input.len(),
{
    let w = widths[sym] as nat;
    lemma_canon_code_nonneg(widths, sym);
    lemma_rev_bits_bound(crate::canonical::canon_code(widths, sym), w);
    lemma_holds_small_value(input, pos, wire_code(widths, sym), w);
    lemma_stream_value_prefix(input, pos, w, n);
    lemma_stream_value_bound(input, pos, n);
}

/// Where the stream holds the code of `sym`, the decoder reads `sym`.
pub proof fn lemma_code_at(widths: Seq<u8>, input: Seq<u8>, pos: int, sym: int)
    requires
        prefix_free(widths),
        0 <= sym < widths.len(),
        widths[sym] >= 1,
        holds(input, pos, symbol_bits(widths, sym)),
    ensures
        code_at(widths, input, pos) == Ok::<(int, int), Error>((sym, pos + widths[sym])),
{
    lemma_max_width_bound(widths, sym);
    let n = max_width(widths) as nat;
    lemma_holds_symbol_matches(widths, input, pos, sym, n);
    lemma_table_finds(widths, sym, stream_value(input, pos, n));
}

/// Where the stream holds the code of the literal/length symbol `sym`, the
/// decoder reads `sym`, by the short look or by the long one.
pub proof fn lemma_literal_at(widths: Seq<u8>, input: Seq<u8>, pos: int, sym: int)
    requires
        prefix_free(widths),
        0 <= sym < widths.len(),
        widths[sym] >= 1,
        holds(input, pos, symbol_bits(widths, sym)),
    ensures
        literal_at(widths, input, pos) == Ok::<(int, int), Error>((sym, pos + widths[sym])),
{
    let w = widths[sym] as int;
    let eob = eob_width(widths);
    if widths.len() > 256 {
        assert(widths[256] as int <= 15);
    }
    let short = stream_value(input, pos, eob as nat);
    let e = table_entry(widths, short);
    lemma_stream_value_bound(input, pos, eob as nat);
    if w <= eob {
        lemma_holds_symbol_matches(widths, input, pos, sym, eob as nat);
        lemma_table_finds(widths, sym, short);
    } else {
        lemma_code_at(widths, input, pos, sym);
        lemma_table_entry_shape(widths, short);
        if e != 16 && e % 32 <= eob {
            // The short look found a symbol: its code stands in the stream, so
            // the long look starts with it too, as it does with the code of `sym`.
            let other = e / 32;
            let ow = (e % 32) as nat;
            lemma_max_width_bound(widths, sym);
            let n = max_width(widths) as nat;
            let long = stream_value(input, pos, n);
            lemma_holds_symbol_matches(widths, input, pos, sym, n);
            lemma_stream_value_prefix(input, pos, ow, eob as nat);
            lemma_stream_value_prefix(input, pos, ow, n);
            lemma_match_unique(widths, sym, other, long);
        }
    }
}

/// The extra bits of a length fit their width.
pub proof fn lemma_extra_length_fits(c: Code)
    ensures
        0 <= extra_length_value(c) < pow2(extra_length_width(c) as nat),
        0 <= extra_length_width(c) <= 5,
{
    lemma2_to64();
}

/// The extra bits of a distance fit their width.
pub proof fn lemma_distance_extra_fits(c: Code)
    requires
        c.wf(),
    ensures
        0 <= distance_extra_value(c) < pow2(distance_extra_width(c) as nat),
        0 <= distance_extra_width(c) <= 13,
{
    lemma2_to64();
    if c is Pointer {
        let d = c->distance as int - 1;
        if d >= 4 {
            let bits = crate::code::spec_distance_bits(d);
            let (low, half) = crate::code::spec_range_of_bits(bits);
            assert(half == pow2(bits as nat));
        }
    }
}

/// Every symbol that `c` is written with has a code.
pub open spec fn code_coded(lit: Seq<u8>, dist: Seq<u8>, c: Code) -> bool {
    &&& c.wf()
    &&& c.spec_literal_code() < lit.len()
    &&& lit[c.spec_literal_code()] >= 1
    &&& c is Pointer ==> distance_symbol(c) < dist.len() && dist[distance_symbol(c)] >= 1
}

/// How many bits `c` takes.
pub open spec fn code_len(lit: Seq<u8>, dist: Seq<u8>, c: Code) -> int {
    code_bits(lit, dist, c).len() as int
}

/// Where the stream holds the bits of a code, the decoder reads that code.
#[verifier::rlimit(40)]
pub proof fn lemma_decode_at(lit: Seq<u8>, dist: Seq<u8>, input: Seq<u8>, pos: int, c: Code)
    requires
        prefix_free(lit),
        prefix_free(dist),
        code_coded(lit, dist, c),
        holds(input, pos, code_bits(lit, dist, c)),
    ensures
        decode_at(lit, dist, input, pos) == Ok::<(Code, int), Error>((c, pos + code_len(lit, dist, c))),
        code_len(lit, dist, c) >= 1,
{
    let sym = c.spec_literal_code();
    let w = lit[sym] as int;
    let head = symbol_bits(lit, sym);
    let more = bits_of(extra_length_value(c), extra_length_width(c) as nat);
    lemma_extra_length_fits(c);
    if c is Pointer {
        let dsym = distance_symbol(c);
        let dhead = symbol_bits(dist, dsym);
        let dmore = bits_of(distance_extra_value(c), distance_extra_width(c) as nat);
        lemma_length_schedule(c);
        lemma_distance_schedule(c);
        lemma_distance_extra_fits(c);
        assert(code_bits(lit, dist, c) == head + more + dhead + dmore);
        lemma_holds_split(input, pos, head + more + dhead, dmore);
        lemma_holds_split(input, pos, head + more, dhead);
        lemma_holds_split(input, pos, head, more);
        lemma_literal_at(lit, input, pos, sym);
        let p1 = pos + w;
        lemma_holds_small_value(input, p1, extra_length_value(c), extra_length_width(c) as nat);
        let p2 = p1 + extra_length_width(c);
        lemma_code_at(dist, input, p2, dsym);
        let p3 = p2 + dist[dsym];
        lemma_holds_small_value(input, p3, distance_extra_value(c), distance_extra_width(c) as nat);
        assert(pointer_at(sym, dist, input, p1) == Ok::<(Code, int), Error>(
            (c, p3 + distance_extra_width(c)),
        ));
    } else {
        assert(more =~= Seq::<bool>::empty());
        assert(code_bits(lit, dist, c) =~= head);
        lemma_literal_at(lit, input, pos, sym);
    }
}

/// The bits of a sequence of codes are the bits of the first and then the
/// bits of the rest.
pub proof fn lemma_codes_bits_front(lit: Seq<u8>, dist: Seq<u8>, codes: Seq<Code>)
    requires
        codes.len() > 0,
    ensures
        codes_bits(lit, dist, codes) == code_bits(lit, dist, codes[0]) + codes_bits(
            lit,
            dist,
            codes.drop_first(),
        ),
    decreases codes.len(),
{
    let first = code_bits(lit, dist, codes[0]);
    let last = code_bits(lit, dist, codes.last());
    if codes.len() == 1 {
        assert(codes.drop_last() =~= Seq::<Code>::empty());
        assert(codes.drop_first() =~= Seq::<Code>::empty());
        assert(Seq::<bool>::empty() + first =~= first + Seq::<bool>::empty());
    } else {
        lemma_codes_bits_front(lit, dist, codes.drop_last());
        assert(codes.drop_last().drop_first() =~= codes.drop_first().drop_last());
        assert(codes.drop_last()[0] == codes[0]);
        assert(codes.drop_first().last() == codes.last());
        let mid = codes_bits(lit, dist, codes.drop_first().drop_last());
        assert((first + mid) + last =~= first + (mid + last));
    }
}

/// Every code is one of a block's body and has a code for each of its symbols.
pub open spec fn body_coded(lit: Seq<u8>, dist: Seq<u8>, codes: Seq<Code>) -> bool {
    forall|k: int|
        0 <= k < codes.len() ==> code_coded(lit, dist, #[trigger] codes[k])
            && !(codes[k] is EndOfBlock)
}

/// Where the stream holds the bits of a block's body and its end-of-block
/// code, the decoder expands the body.
pub proof fn lemma_block_body(
    lit: Seq<u8>,
    dist: Seq<u8>,
    input: Seq<u8>,
    pos: int,
    codes: Seq<Code>,
    out: Seq<u8>,
)
    requires
        prefix_free(lit),
        prefix_free(dist),
        body_coded(lit, dist, codes),
        lit.len() > 256,
        lit[256] >= 1,
        holds(input, pos, codes_bits(lit, dist, codes) + symbol_bits(lit, 256)),
        expand_codes(codes, out) is Ok,
    ensures
        block_body(lit, dist, input, pos, out) == Ok::<(Seq<u8>, int), Error>(
            (expand_codes(codes, out)->Ok_0, pos + codes_bits(lit, dist, codes).len() + lit[256]),
        ),
    decreases codes.len(),
{
    let end = symbol_bits(lit, 256);
    if codes.len() == 0 {
        assert(codes_bits(lit, dist, codes) + end =~= end);
        assert(code_bits(lit, dist, Code::EndOfBlock) =~= end);
        lemma_decode_at(lit, dist, input, pos, Code::EndOfBlock);
    } else {
        let c = codes[0];
        let rest = codes.drop_first();
        let first = code_bits(lit, dist, c);
        let later = codes_bits(lit, dist, rest);
        lemma_codes_bits_front(lit, dist, codes);
        assert((first + later) + end =~= first + (later + end));
        lemma_holds_split(input, pos, first, later + end);
        assert(code_coded(lit, dist, c));
        lemma_decode_at(lit, dist, input, pos, c);
        let p = pos + first.len();
        assert forall|k: int| 0 <= k < rest.len() implies code_coded(lit, dist, #[trigger] rest[k])
            && !(rest[k] is EndOfBlock) by {
            assert(rest[k] == codes[k + 1]);
        }
        match c {
            Code::EndOfBlock => {},
            Code::Literal(a) => {
                lemma_block_body(lit, dist, input, p, rest, out.push(a));
            },
            Code::Pointer { distance, length } => {
                lemma_block_body(
                    lit,
                    dist,
                    input,
                    p,
                    rest,
                    expand(out, distance as int, (length + 3) as nat),
                );
            },
        }
    }
}

/// How many symbols of the fixed literal/length alphabet below `upto` have a
/// code of `w` bits.
pub proof fn lemma_fixed_literal_counts(w: int, upto: int)
    requires
        0 <= upto <= 288,
    ensures
        count_width(fixed_literal_widths(), w, upto) == if w == 7 {
            if upto <= 256 {
                0
            } else if upto <= 280 {
                upto - 256
            } else {
                24
            }
        } else if w == 8 {
            if upto <= 144 {
                upto
            } else if upto <= 280 {
                144
            } else {
                144 + upto - 280
            }
        } else if w == 9 {
            if upto <= 144 {
                0
            } else if upto <= 256 {
                upto - 144
            } else {
                112
            }
        } else {
            0
        },
    decreases upto,
{
    if upto > 0 {
        lemma_fixed_literal_counts(w, upto - 1);
    }
}

/// The fixed code lengths leave room for prefix codes, exactly.
pub proof fn lemma_fixed_prefix_free()
    ensures
        prefix_free(fixed_literal_widths()),
        prefix_free(fixed_distance_widths()),
{
    let fl = fixed_literal_widths();
    let fd = fixed_distance_widths();
    lemma2_to64();
    assert(widths_within(fl, 15));
    assert(widths_within(fd, 15));
    assert(kraft(fl, 0) == 0);
    lemma_fixed_literal_counts(1, 288);
    assert(kraft(fl, 1) == 0);
    lemma_fixed_literal_counts(2, 288);
    assert(kraft(fl, 2) == 0);
    lemma_fixed_literal_counts(3, 288);
    assert(kraft(fl, 3) == 0);
    lemma_fixed_literal_counts(4, 288);
    assert(kraft(fl, 4) == 0);
    lemma_fixed_literal_counts(5, 288);
    assert(kraft(fl, 5) == 0);
    lemma_fixed_literal_counts(6, 288);
    assert(kraft(fl, 6) == 0);
    lemma_fixed_literal_counts(7, 288);
    assert(kraft(fl, 7) == 24);
    lemma_fixed_literal_counts(8, 288);
    assert(kraft(fl, 8) == 200);
    lemma_fixed_literal_counts(9, 288);
    assert(kraft(fl, 9) == 512);
    lemma_fixed_literal_counts(10, 288);
    assert(kraft(fl, 10) == 1024);
    lemma_fixed_literal_counts(11, 288);
    assert(kraft(fl, 11) == 2048);
    lemma_fixed_literal_counts(12, 288);
    assert(kraft(fl, 12) == 4096);
    lemma_fixed_literal_counts(13, 288);
    assert(kraft(fl, 13) == 8192);
    lemma_fixed_literal_counts(14, 288);
    assert(kraft(fl, 14) == 16384);
    lemma_fixed_literal_counts(15, 288);
    assert(kraft(fl, 15) == 32768);
    assert forall|i: int| 0 <= i < fd.len() implies #[trigger] fd[i] as int == 5 || fd[i] == 0 by {}
    lemma_kraft_flat(fd, 5, 15);
    assert(fd.len() == 30);
    assert(pow2(10) == 1024);
    assert(kraft(fd, 15) <= 30 * 1024);
}

/// The matcher's codes with the end-of-block marker, written as a fixed
/// block, are restored by the decoder.
pub proof fn lemma_inflate_fixed(input: Seq<u8>, codes: Seq<Code>, v: Seq<u8>)
    requires
        bytes_bits(input) == padded(fixed_block_bits(codes.push(Code::EndOfBlock))),
        forall|k: int| 0 <= k < codes.len() ==> (#[trigger] codes[k]).wf()
            && !(codes[k] is EndOfBlock),
        expand_codes(codes, Seq::empty()) == Ok::<Seq<u8>, Error>(v),
    ensures
        inflate_spec(input) == Ok::<Seq<u8>, Error>(v),
{
    let fl = fixed_literal_widths();
    let fd = fixed_distance_widths();
    let all = codes.push(Code::EndOfBlock);
    let body = codes_bits(fl, fd, codes);
    let end = symbol_bits(fl, 256);
    lemma_fixed_prefix_free();
    lemma2_to64();
    assert(all.drop_last() =~= codes);
    assert(code_bits(fl, fd, Code::EndOfBlock) =~= end);
    assert(codes_bits(fl, fd, all) == body + end);
    let bits = fixed_block_bits(all);
    lemma_holds_written(input, bits);
    assert(bits == bits_of(1, 1) + bits_of(1, 2) + (body + end));
    lemma_holds_split(input, 0, bits_of(1, 1) + bits_of(1, 2), body + end);
    lemma_holds_split(input, 0, bits_of(1, 1), bits_of(1, 2));
    lemma_holds_small_value(input, 0, 1, 1);
    lemma_holds_small_value(input, 1, 1, 2);
    assert forall|k: int| 0 <= k < codes.len() implies code_coded(fl, fd, #[trigger] codes[k])
        && !(codes[k] is EndOfBlock) by {
        let c = codes[k];
        assert(c.wf());
        if c is Pointer {
            lemma_distance_schedule(c);
        }
    }
    lemma_block_body(fl, fd, input, 3, codes, Seq::empty());
}

/// For each symbol of the code-length alphabet, the place of its length among
/// the fields of a dynamic block's header.
pub open spec fn order_index() -> Seq<int> {
    seq![3, 17, 15, 13, 11, 9, 7, 5, 4, 6, 8, 10, 12, 14, 16, 18, 0, 1, 2]
}

/// The field `k` is that of the symbol whose place is `k`.
pub proof fn lemma_order_of_field(k: int)
    requires
        0 <= k < 19,
    ensures
        0 <= width_code_order()[k] < 19,
        order_index()[width_code_order()[k]] == k,
{
    if k == 0 {
        assert(width_code_order()[0] == 16 && order_index()[16] == 0);
    } else if k == 1 {
        assert(width_code_order()[1] == 17 && order_index()[17] == 1);
    } else if k == 2 {
        assert(width_code_order()[2] == 18 && order_index()[18] == 2);
    } else if k == 3 {
        assert(width_code_order()[3] == 0 && order_index()[0] == 3);
    } else if k == 4 {
        assert(width_code_order()[4] == 8 && order_index()[8] == 4);
    } else if k == 5 {
        assert(width_code_order()[5] == 7 && order_index()[7] == 5);
    } else if k == 6 {
        assert(width_code_order()[6] == 9 && order_index()[9] == 6);
    } else if k == 7 {
        assert(width_code_order()[7] == 6 && order_index()[6] == 7);
    } else if k == 8 {
        assert(width_code_order()[8] == 10 && order_index()[10] == 8);
    } else if k == 9 {
        assert(width_code_order()[9] == 5 && order_index()[5] == 9);
    } else if k == 10 {
        assert(width_code_order()[10] == 11 && order_index()[11] == 10);
    } else if k == 11 {
        assert(width_code_order()[11] == 4 && order_index()[4] == 11);
    } else if k == 12 {
        assert(width_code_order()[12] == 12 && order_index()[12] == 12);
    } else if k == 13 {
        assert(width_code_order()[13] == 3 && order_index()[3] == 13);
    } else if k == 14 {
        assert(width_code_order()[14] == 13 && order_index()[13] == 14);
    } else if k == 15 {
        assert(width_code_order()[15] == 2 && order_index()[2] == 15);
    } else if k == 16 {
        assert(width_code_order()[16] == 14 && order_index()[14] == 16);
    } else if k == 17 {
        assert(width_code_order()[17] == 1 && order_index()[1] == 17);
    } else {
        assert(width_code_order()[18] == 15 && order_index()[15] == 18);
    }
}

/// The symbol `sym` has its length in the field at its place.
pub proof fn lemma_field_of_symbol(sym: int)
    requires
        0 <= sym < 19,
    ensures
        0 <= order_index()[sym] < 19,
        width_code_order()[order_index()[sym]] == sym,
{
    if sym == 0 {
        assert(order_index()[0] == 3 && width_code_order()[3] == 0);
    } else if sym == 1 {
        assert(order_index()[1] == 17 && width_code_order()[17] == 1);
    } else if sym == 2 {
        assert(order_index()[2] == 15 && width_code_order()[15] == 2);
    } else if sym == 3 {
        assert(order_index()[3] == 13 && width_code_order()[13] == 3);
    } else if sym == 4 {
        assert(order_index()[4] == 11 && width_code_order()[11] == 4);
    } else if sym == 5 {
        assert(order_index()[5] == 9 && width_code_order()[9] == 5);
    } else if sym == 6 {
        assert(order_index()[6] == 7 && width_code_order()[7] == 6);
    } else if sym == 7 {
        assert(order_index()[7] == 5 && width_code_order()[5] == 7);
    } else if sym == 8 {
        assert(order_index()[8] == 4 && width_code_order()[4] == 8);
    } else if sym == 9 {
        assert(order_index()[9] == 6 && width_code_order()[6] == 9);
    } else if sym == 10 {
        assert(order_index()[10] == 8 && width_code_order()[8] == 10);
    } else if sym == 11 {
        assert(order_index()[11] == 10 && width_code_order()[10] == 11);
    } else if sym == 12 {
        assert(order_index()[12] == 12 && width_code_order()[12] == 12);
    } else if sym == 13 {
        assert(order_index()[13] == 14 && width_code_order()[14] == 13);
    } else if sym == 14 {
        assert(order_index()[14] == 16 && width_code_order()[16] == 14);
    } else if sym == 15 {
        assert(order_index()[15] == 18 && width_code_order()[18] == 15);
    } else if sym == 16 {
        assert(order_index()[16] == 0 && width_code_order()[0] == 16);
    } else if sym == 17 {
        assert(order_index()[17] == 1 && width_code_order()[1] == 17);
    } else {
        assert(order_index()[18] == 2 && width_code_order()[2] == 18);
    }
}

/// Where the stream holds the first `k` fields, the decoder reads the lengths
/// of the symbols that they are for, and zero for the others.
pub proof fn lemma_read_code_widths(input: Seq<u8>, pos: int, clw: Seq<u8>, k: int)
    requires
        clw.len() == 19,
        widths_within(clw, 7),
        0 <= k <= 19,
        holds(input, pos, width_fields(clw, k)),
    ensures
        width_fields(clw, k).len() == 3 * k,
        read_code_widths(input, pos, k).len() == 19,
        forall|sym: int|
            0 <= sym < 19 ==> #[trigger] read_code_widths(input, pos, k)[sym] == if order_index()[sym]
                < k {
                clw[sym]
            } else {
                0u8
            },
    decreases k,
{
    if k > 0 {
        let at = width_code_order()[k - 1];
        lemma_order_of_field(k - 1);
        let before = width_fields(clw, k - 1);
        let field = bits_of(clw[at] as int, 3);
        lemma_holds_split(input, pos, before, field);
        lemma_read_code_widths(input, pos, clw, k - 1);
        lemma2_to64();
        assert(clw[at] as int <= 7);
        lemma_holds_small_value(input, pos + 3 * (k - 1), clw[at] as int, 3);
        assert forall|sym: int| 0 <= sym < 19 implies #[trigger] read_code_widths(input, pos, k)[sym]
            == if order_index()[sym] < k {
            clw[sym]
        } else {
            0u8
        } by {
            lemma_field_of_symbol(sym);
        }
    }
}

/// How many bits the first `k` of `runs` take.
pub open spec fn runs_len(clw: Seq<u8>, runs: Seq<(u8, u8)>, k: int) -> int {
    runs_bits(clw, runs.subrange(0, k)).len() as int
}

/// The bits of one symbol of the code-length alphabet with its extra bits.
pub open spec fn run_bits(clw: Seq<u8>, run: (u8, u8)) -> Seq<bool> {
    symbol_bits(clw, run.0 as int) + bits_of(run.1 as int, run_extra_width(run.0 as int) as nat)
}

/// Where the stream holds all of `runs`, it holds each of them at its place.
pub proof fn lemma_holds_run(input: Seq<u8>, base: int, clw: Seq<u8>, runs: Seq<(u8, u8)>, k: int)
    requires
        holds(input, base, runs_bits(clw, runs)),
        0 <= k <= runs.len(),
    ensures
        holds(input, base, runs_bits(clw, runs.subrange(0, k))),
        k < runs.len() ==> holds(input, base + runs_len(clw, runs, k), run_bits(clw, runs[k]))
            && runs_len(clw, runs, k + 1) == runs_len(clw, runs, k) + run_bits(clw, runs[k]).len(),
    decreases runs.len() - k,
{
    if k == runs.len() {
        assert(runs.subrange(0, k) =~= runs);
    } else {
        lemma_holds_run(input, base, clw, runs, k + 1);
        let upto = runs.subrange(0, k + 1);
        assert(upto.drop_last() =~= runs.subrange(0, k));
        assert(upto.last() == runs[k]);
        lemma_holds_split(input, base, runs_bits(clw, runs.subrange(0, k)), run_bits(clw, runs[k]));
    }
}

/// The lengths that the first symbols stand for are no more than all stand for.
pub proof fn lemma_runs_expand_grows(runs: Seq<(u8, u8)>, k: int)
    requires
        0 <= k <= runs.len(),
    ensures
        runs_expand(runs.subrange(0, k)).len() + (runs.len() - k) <= runs_expand(runs).len(),
    decreases runs.len() - k,
{
    if k == runs.len() {
        assert(runs.subrange(0, k) =~= runs);
    } else {
        lemma_runs_expand_grows(runs, k + 1);
        assert(runs.subrange(0, k + 1).drop_last() =~= runs.subrange(0, k));
    }
}

/// Where the stream holds `runs`, the decoder reads the lengths that they
/// stand for.
#[verifier::rlimit(40)]
pub proof fn lemma_read_runs(clw: Seq<u8>, input: Seq<u8>, base: int, runs: Seq<(u8, u8)>, k: int)
    requires
        prefix_free(clw),
        clw.len() == 19,
        runs_valid(runs),
        runs_coded(clw, runs),
        holds(input, base, runs_bits(clw, runs)),
        0 <= k <= runs.len(),
    ensures
        read_widths(
            clw,
            input,
            base + runs_len(clw, runs, k),
            runs_expand(runs.subrange(0, k)),
            runs_expand(runs).len() as int,
        ) == Ok::<(Seq<u8>, int), Error>((runs_expand(runs), base + runs_bits(clw, runs).len())),
    decreases runs.len() - k,
{
    let target = runs_expand(runs).len() as int;
    let acc = runs_expand(runs.subrange(0, k));
    let pos = base + runs_len(clw, runs, k);
    if k == runs.len() {
        assert(runs.subrange(0, k) =~= runs);
    } else {
        lemma_runs_expand_grows(runs, k);
        lemma_runs_valid_at(runs, k);
        lemma_holds_run(input, base, clw, runs, k);
        lemma_read_runs(clw, input, base, runs, k + 1);
        let (sym, extra) = runs[k];
        let width = run_extra_width(sym as int) as nat;
        assert(clw[runs[k].0 as int] >= 1);
        lemma_holds_split(input, pos, symbol_bits(clw, sym as int), bits_of(extra as int, width));
        lemma_code_at(clw, input, pos, sym as int);
        let p = pos + clw[sym as int];
        lemma2_to64();
        lemma_holds_small_value(input, p, extra as int, width);
        let upto = runs.subrange(0, k + 1);
        assert(upto.drop_last() =~= runs.subrange(0, k));
        assert(upto.last() == runs[k]);
        lemma_runs_expand_grows(runs, k + 1);
        let x = if sym < 16 {
            sym
        } else if sym == 16 && acc.len() > 0 {
            acc.last()
        } else {
            0u8
        };
        assert(runs_expand(upto) == acc + repeat(x, run_count(sym as int, extra as int)));
        assert(next_run_at(clw, input, pos, last_of(acc)) == Ok::<(u8, int, int), Error>(
            (x, run_count(sym as int, extra as int), p + width),
        ));
    }
}

/// Where the stream holds the header of a sound dynamic block, the decoder
/// reads the code lengths that the block was written with.
pub proof fn lemma_dynamic_tables(input: Seq<u8>, pos: int, block: DynamicBlock, codes: Seq<Code>)
    requires
        block.ok(codes),
        holds(
            input,
            pos,
            dynamic_header_bits(block.lit, block.dist, block.clw, block.hclen, block.runs),
        ),
    ensures
        dynamic_tables(input, pos) == Ok::<(Seq<u8>, Seq<u8>, int), Error>(
            (
                block.lit,
                block.dist,
                pos + dynamic_header_bits(
                    block.lit,
                    block.dist,
                    block.clw,
                    block.hclen,
                    block.runs,
                ).len(),
            ),
        ),
{
    let lit = block.lit;
    let dist = block.dist;
    let clw = block.clw;
    let hclen = block.hclen;
    let runs = block.runs;
    let b1 = bits_of(lit.len() - 257, 5);
    let b2 = bits_of(dist.len() - 1, 5);
    let b3 = bits_of(hclen - 4, 4);
    let b4 = width_fields(clw, hclen);
    let b5 = runs_bits(clw, runs);
    lemma2_to64();
    assert(dynamic_header_bits(lit, dist, clw, hclen, runs) == b1 + b2 + b3 + b4 + b5);
    lemma_holds_split(input, pos, b1 + b2 + b3 + b4, b5);
    lemma_holds_split(input, pos, b1 + b2 + b3, b4);
    lemma_holds_split(input, pos, b1 + b2, b3);
    lemma_holds_split(input, pos, b1, b2);
    lemma_holds_small_value(input, pos, lit.len() - 257, 5);
    lemma_holds_small_value(input, pos + 5, dist.len() - 1, 5);
    lemma_holds_small_value(input, pos + 10, hclen - 4, 4);
    lemma_read_code_widths(input, pos + 14, clw, hclen);
    let read = read_code_widths(input, pos + 14, hclen);
    assert(read =~= clw) by {
        assert forall|sym: int| 0 <= sym < 19 implies read[sym] == clw[sym] by {
            lemma_field_of_symbol(sym);
            if order_index()[sym] >= hclen {
                assert(clw[width_code_order()[order_index()[sym]]] == 0);
            }
        }
    }
    let start = pos + 14 + 3 * hclen;
    lemma_read_runs(clw, input, start, runs, 0);
    assert(runs.subrange(0, 0) =~= Seq::<(u8, u8)>::empty());
    assert(runs_expand(runs.subrange(0, 0)) =~= Seq::<u8>::empty());
    let all = lit + dist;
    assert(all.subrange(0, lit.len() as int) =~= lit);
    assert(all.subrange(lit.len() as int, (lit.len() + dist.len()) as int) =~= dist);
}

/// The matcher's codes with the end-of-block marker, written as a sound
/// dynamic block, are restored by the decoder.
pub proof fn lemma_inflate_dynamic(input: Seq<u8>, block: DynamicBlock, codes: Seq<Code>, v: Seq<u8>)
    requires
        block.describes(input, codes.push(Code::EndOfBlock)),
        forall|k: int| 0 <= k < codes.len() ==> !((#[trigger] codes[k]) is EndOfBlock),
        expand_codes(codes, Seq::empty()) == Ok::<Seq<u8>, Error>(v),
    ensures
        inflate_spec(input) == Ok::<Seq<u8>, Error>(v),
{
    let lit = block.lit;
    let dist = block.dist;
    let all = codes.push(Code::EndOfBlock);
    let header = dynamic_header_bits(lit, dist, block.clw, block.hclen, block.runs);
    let body = codes_bits(lit, dist, codes);
    let end = symbol_bits(lit, 256);
    lemma2_to64();
    assert(all.drop_last() =~= codes);
    assert(all.last() == Code::EndOfBlock);
    assert(all[all.len() - 1].wf());
    assert(code_bits(lit, dist, Code::EndOfBlock) =~= end);
    assert(codes_bits(lit, dist, all) == body + end);
    let bits = block.bits(all);
    lemma_holds_written(input, bits);
    assert(bits == bits_of(1, 1) + bits_of(2, 2) + header + (body + end));
    lemma_holds_split(input, 0, bits_of(1, 1) + bits_of(2, 2) + header, body + end);
    lemma_holds_split(input, 0, bits_of(1, 1) + bits_of(2, 2), header);
    lemma_holds_split(input, 0, bits_of(1, 1), bits_of(2, 2));
    lemma_holds_small_value(input, 0, 1, 1);
    lemma_holds_small_value(input, 1, 2, 2);
    lemma_dynamic_tables(input, 3, block, all);
    assert forall|k: int| 0 <= k < codes.len() implies code_coded(lit, dist, #[trigger] codes[k])
        && !(codes[k] is EndOfBlock) by {
        assert(all[k] == codes[k]);
        assert(all[k].wf());
    }
    lemma_block_body(lit, dist, input, 3 + header.len() as int, codes, Seq::empty());
}

/// Restoring what was compressed gives the input back: for every sequence of
/// bytes and both block types.
pub proof fn lemma_inflate_deflate(d: Seq<u8>, v: Seq<u8>, btype: BlockType)
    requires
        deflated(d, v, btype),
    ensures
        inflate_spec(d) == Ok::<Seq<u8>, Error>(v),
{
    let codes = lzss_encode_spec(v);
    lemma_lzss_round_trip(v);
    lemma_lzss_codes_wf(v, 0);
    match btype {
        BlockType::Fixed => {
            lemma_inflate_fixed(d, codes, v);
        },
        BlockType::Dynamic => {
            lemma_inflate_dynamic(d, dynamic_block_of(deflate_codes(v)), codes, v);
        },
        BlockType::Raw => {},
    }
}

/// Under the fixed codes a literal or the end-of-block marker takes at most
/// nine bits, a back-reference at most 31.
pub proof fn lemma_fixed_code_len(c: Code)
    requires
        c.wf(),
    ensures
        code_len(fixed_literal_widths(), fixed_distance_widths(), c) <= if c is Pointer {
            31int
        } else {
            9int
        },
        c is EndOfBlock ==> code_len(fixed_literal_widths(), fixed_distance_widths(), c) == 7,
{
    lemma_extra_length_fits(c);
    lemma_distance_extra_fits(c);
    if c is Pointer {
        lemma_distance_schedule(c);
    }
}

/// Under the fixed codes, what the matcher emits from `i` on takes at most
/// nine bits for each byte.
pub proof fn lemma_fixed_body_size(v: Seq<u8>, i: int)
    requires
        0 <= i <= v.len(),
    ensures
        codes_bits(fixed_literal_widths(), fixed_distance_widths(), lzss_from(v, i)).len() <= 9 * (
        v.len() - i),
    decreases v.len() - i,
{
    let fl = fixed_literal_widths();
    let fd = fixed_distance_widths();
    let codes = lzss_from(v, i);
    if i >= v.len() {
        assert(codes_bits(fl, fd, codes) =~= Seq::<bool>::empty());
    } else {
        lemma_lzss_codes_wf(v, i);
        lemma_codes_bits_front(fl, fd, codes);
        assert(codes[0].wf());
        lemma_fixed_code_len(codes[0]);
        if i + 3 < v.len() && takes_match(v, i) {
            crate::lzss::lemma_match_run_bounds(v, crate::lzss::candidate(v, i), i, 0);
            let rest = lzss_from(v, i + match_total(v, i));
            assert(codes == seq![match_code(v, i)] + rest);
            assert(codes.drop_first() =~= rest);
            lemma_fixed_body_size(v, i + match_total(v, i));
        } else {
            let rest = lzss_from(v, i + 1);
            assert(codes == seq![Code::Literal(v[i])] + rest);
            assert(codes.drop_first() =~= rest);
            lemma_fixed_body_size(v, i + 1);
        }
    }
}

/// A fixed block is never more than an eighth longer than its input, but for
/// two bytes: three header bits, nine bits for a byte at most, seven bits at
/// the end, and the last byte filled up.
pub proof fn lemma_fixed_size(d: Seq<u8>, v: Seq<u8>)
    requires
        deflated(d, v, BlockType::Fixed),
    ensures
        8 * d.len() <= 9 * v.len() + 17,
{
    let fl = fixed_literal_widths();
    let fd = fixed_distance_widths();
    let codes = lzss_encode_spec(v);
    let all = deflate_codes(v);
    lemma_fixed_body_size(v, 0);
    assert(all.drop_last() =~= codes);
    lemma_fixed_code_len(Code::EndOfBlock);
    let bits = fixed_block_bits(all);
    assert(bits.len() == 3 + codes_bits(fl, fd, codes).len() + 7);
    assert(bytes_bits(d).len() == 8 * d.len());
    assert(padded(bits).len() <= bits.len() + 7);
}

/// Bytes are told by their bits.
pub proof fn lemma_bytes_bits_injective(a: Seq<u8>, b: Seq<u8>)
    requires
        bytes_bits(a) == bytes_bits(b),
    ensures
        a == b,
{
    assert(bytes_bits(a).len() == 8 * a.len());
    assert(bytes_bits(b).len() == 8 * b.len());
    assert forall|k: int| 0 <= k < a.len() implies a[k] == b[k] by {
        lemma2_to64();
        assert forall|i: nat| i < 8 implies #[trigger] bit_at(a[k] as int, i) == bit_at(b[k] as int, i) by {
            let at: int = 8 * k + i;
            assert(at / 8 == k && at % 8 == i);
            assert(0 <= at < bytes_bits(a).len());
            assert(bytes_bits(a)[at] == (bit_at(a[k] as int, i) == 1));
            assert(bytes_bits(b)[at] == (bit_at(b[k] as int, i) == 1));
        }
        crate::prefix::lemma_same_bits(a[k] as int, b[k] as int, 8);
    }
    assert(a =~= b);
}

/// Compressing gives the same bytes whenever it is given the same input and
/// block type: what the cache held plays no part.
pub proof fn lemma_deflate_deterministic(d1: Seq<u8>, d2: Seq<u8>, v: Seq<u8>, btype: BlockType)
    requires
        deflated(d1, v, btype),
        deflated(d2, v, btype),
    ensures
        d1 == d2,
{
    lemma_bytes_bits_injective(d1, d2);
}

} // verus!
