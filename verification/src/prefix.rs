//! Why canonical codes can be told apart: where the code lengths leave room
//! for a prefix code, no code is the beginning of another, so the bits of a
//! stream match at most one symbol.

use crate::bits::{bit_at, lemma_bit_at_mod, lemma_low_bits_step, lemma_rev_bits_bit};
use crate::canonical::{
    canon_code, count_width, entry_in_width, entry_upto, first_code, lemma_canon_code_nonneg,
    lemma_count_width_bounds, lemma_table_entry_shape, pack, sym_matches, table_entry,
};
use crate::lengths::{kraft, prefix_free};
use vstd::arithmetic::div_mod::lemma_div_denominator;
use vstd::arithmetic::power2::{
    lemma2_to64, lemma_pow2_adds, lemma_pow2_pos, lemma_pow2_unfold, pow2,
};
use vstd::prelude::*;

verus! {

/// Two numbers of `w` bits with the same bits are the same number.
pub proof fn lemma_same_bits(a: int, b: int, w: nat)
    requires
        0 <= a < pow2(w),
        0 <= b < pow2(w),
        forall|i: nat| i < w ==> #[trigger] bit_at(a, i) == bit_at(b, i),
    ensures
        a == b,
{
    lemma_same_low_bits(a, b, w, w);
    vstd::arithmetic::div_mod::lemma_small_mod(a as nat, pow2(w));
    vstd::arithmetic::div_mod::lemma_small_mod(b as nat, pow2(w));
}

/// Two numbers with the same low bits agree modulo the power of two.
proof fn lemma_same_low_bits(a: int, b: int, w: nat, k: nat)
    requires
        0 <= a,
        0 <= b,
        k <= w,
        forall|i: nat| i < w ==> #[trigger] bit_at(a, i) == bit_at(b, i),
    ensures
        a % pow2(k) as int == b % pow2(k) as int,
    decreases k,
{
    if k == 0 {
        lemma2_to64();
    } else {
        lemma_same_low_bits(a, b, w, (k - 1) as nat);
        lemma_low_bits_step(a, (k - 1) as nat);
        lemma_low_bits_step(b, (k - 1) as nat);
        assert(bit_at(a, (k - 1) as nat) == bit_at(b, (k - 1) as nat));
    }
}

/// Bit `i` of `x` without its low `k` bits is bit `i + k` of `x`.
pub proof fn lemma_bit_at_shifted(x: int, k: nat, i: nat)
    requires
        0 <= x,
    ensures
        bit_at(x / pow2(k) as int, i) == bit_at(x, i + k),
{
    lemma_pow2_pos(k);
    lemma_pow2_pos(i);
    lemma_pow2_adds(k, i);
    lemma_div_denominator(x, pow2(k) as int, pow2(i) as int);
}

/// Counting symbols of one length goes up with the range counted.
pub proof fn lemma_count_width_grows(widths: Seq<u8>, w: int, a: int, b: int)
    requires
        a <= b,
    ensures
        count_width(widths, w, a) <= count_width(widths, w, b),
    decreases b - a,
{
    if a < b {
        lemma_count_width_grows(widths, w, a, b - 1);
        lemma_count_width_bounds(widths, w, b - 1);
        if b <= 0 {
            assert(count_width(widths, w, b) == 0);
        }
    }
}

/// The first code of a length is twice the room that the shorter codes take.
pub proof fn lemma_first_code_is_kraft(widths: Seq<u8>, w: int)
    requires
        1 <= w,
    ensures
        first_code(widths, w) == 2 * kraft(widths, w - 1),
    decreases w,
{
    if w > 1 {
        lemma_first_code_is_kraft(widths, w - 1);
    }
}

/// The room taken doubles at least with each bit more.
pub proof fn lemma_kraft_grows(widths: Seq<u8>, a: int, b: int)
    requires
        0 <= a <= b,
    ensures
        kraft(widths, a) * pow2((b - a) as nat) <= kraft(widths, b),
        0 <= kraft(widths, a),
    decreases b - a,
{
    lemma2_to64();
    crate::lengths::lemma_kraft_bound(widths, a);
    if a < b {
        lemma_kraft_grows(widths, a, b - 1);
        lemma_count_width_bounds(widths, b, widths.len() as int);
        lemma_pow2_unfold((b - a) as nat);
        let k = kraft(widths, a);
        let p = pow2((b - 1 - a) as nat) as int;
        let m = kraft(widths, b - 1);
        assert(k * (2 * p) <= 2 * m) by (nonlinear_arith)
            requires
                k * p <= m,
        ;
    } else {
        assert(kraft(widths, a) * pow2(0) == kraft(widths, a));
    }
}

/// Where the code lengths leave room for a prefix code, the codes of up to `w`
/// bits take no more room than there is.
pub proof fn lemma_kraft_fits(widths: Seq<u8>, w: int)
    requires
        prefix_free(widths),
        0 <= w <= 15,
    ensures
        0 <= kraft(widths, w) <= pow2(w as nat),
{
    lemma_kraft_grows(widths, w, 15);
    lemma_pow2_adds(w as nat, (15 - w) as nat);
    lemma2_to64();
    lemma_pow2_pos((15 - w) as nat);
    let k = kraft(widths, w);
    let p = pow2((15 - w) as nat) as int;
    let q = pow2(w as nat) as int;
    assert(k <= q) by (nonlinear_arith)
        requires
            k * p <= q * p,
            p > 0,
    ;
}

/// A symbol's code comes before the end of the room that the codes of its
/// length and shorter take; so it fits its length.
pub proof fn lemma_canon_code_fits(widths: Seq<u8>, sym: int)
    requires
        prefix_free(widths),
        0 <= sym < widths.len(),
        widths[sym] >= 1,
    ensures
        0 <= canon_code(widths, sym) < kraft(widths, widths[sym] as int),
        canon_code(widths, sym) < pow2(widths[sym] as nat),
{
    let w = widths[sym] as int;
    assert(w <= 15);
    lemma_canon_code_nonneg(widths, sym);
    lemma_first_code_is_kraft(widths, w);
    lemma_count_width_grows(widths, w, sym + 1, widths.len() as int);
    lemma_kraft_fits(widths, w);
}

/// Symbol `a` comes before symbol `b` in canonical order: it has the shorter
/// code, or one as long and is the lesser symbol.
pub open spec fn comes_before(widths: Seq<u8>, a: int, b: int) -> bool {
    widths[a] < widths[b] || (widths[a] == widths[b] && a < b)
}

/// The code of a later symbol, cut to the length of an earlier one, is
/// greater than the code of the earlier one.
pub proof fn lemma_canon_code_order(widths: Seq<u8>, a: int, b: int)
    requires
        prefix_free(widths),
        0 <= a < widths.len(),
        0 <= b < widths.len(),
        widths[a] >= 1,
        comes_before(widths, a, b),
    ensures
        (canon_code(widths, a) + 1) * pow2((widths[b] - widths[a]) as nat) <= canon_code(widths, b),
{
    let wa = widths[a] as int;
    let wb = widths[b] as int;
    lemma2_to64();
    if wa == wb {
        lemma_count_width_grows(widths, wa, a + 1, b);
        assert((canon_code(widths, a) + 1) * pow2(0) == canon_code(widths, a) + 1);
    } else {
        lemma_canon_code_fits(widths, a);
        lemma_first_code_is_kraft(widths, wb);
        lemma_count_width_bounds(widths, wb, b);
        lemma_kraft_grows(widths, wa, wb - 1);
        lemma_pow2_unfold((wb - wa) as nat);
        let c = canon_code(widths, a);
        let k = kraft(widths, wa);
        let p = pow2((wb - 1 - wa) as nat) as int;
        let m = kraft(widths, wb - 1);
        assert((c + 1) * (2 * p) <= 2 * m) by (nonlinear_arith)
            requires
                0 <= c + 1 <= k,
                k * p <= m,
                0 <= p,
        ;
    }
}

/// Where the bits `idx` start with the code of `sym`, the first bits of `idx`
/// are the bits of the code, last first.
proof fn lemma_match_bits(widths: Seq<u8>, sym: int, idx: int, j: nat)
    requires
        prefix_free(widths),
        0 <= sym < widths.len(),
        widths[sym] >= 1,
        0 <= idx,
        sym_matches(widths, sym, idx),
        j < widths[sym],
    ensures
        bit_at(canon_code(widths, sym), j) == bit_at(idx, (widths[sym] - 1 - j) as nat),
{
    let w = widths[sym] as nat;
    let c = canon_code(widths, sym);
    lemma_canon_code_nonneg(widths, sym);
    lemma_rev_bits_bit(c, w, (w - 1 - j) as nat);
    lemma_bit_at_mod(idx, w, (w - 1 - j) as nat);
}

/// The bits `idx` start with the code of at most one symbol.
pub proof fn lemma_match_unique(widths: Seq<u8>, a: int, b: int, idx: int)
    requires
        prefix_free(widths),
        0 <= a < widths.len(),
        0 <= b < widths.len(),
        widths[a] >= 1,
        widths[b] >= 1,
        0 <= idx,
        sym_matches(widths, a, idx),
        sym_matches(widths, b, idx),
    ensures
        a == b,
{
    if a != b {
        if comes_before(widths, a, b) {
            lemma_cut_code_greater(widths, a, b);
            lemma_cut_code_same(widths, a, b, idx);
        } else {
            lemma_cut_code_greater(widths, b, a);
            lemma_cut_code_same(widths, b, a, idx);
        }
    }
}

/// The code of `b` without the bits that it has more than the code of `a`.
pub open spec fn cut_code(widths: Seq<u8>, a: int, b: int) -> int {
    canon_code(widths, b) / pow2((widths[b] - widths[a]) as nat) as int
}

/// The code of a later symbol, cut to the length of an earlier one, is a
/// number of that length and greater than the code of the earlier one.
proof fn lemma_cut_code_greater(widths: Seq<u8>, a: int, b: int)
    requires
        prefix_free(widths),
        0 <= a < widths.len(),
        0 <= b < widths.len(),
        widths[a] >= 1,
        comes_before(widths, a, b),
    ensures
        canon_code(widths, a) < cut_code(widths, a, b) < pow2(widths[a] as nat),
{
    let wa = widths[a] as nat;
    let wb = widths[b] as nat;
    let ca = canon_code(widths, a);
    let cb = canon_code(widths, b);
    let d = (wb - wa) as nat;
    let cut = cut_code(widths, a, b);
    lemma_canon_code_fits(widths, a);
    lemma_canon_code_fits(widths, b);
    lemma_canon_code_order(widths, a, b);
    lemma_pow2_pos(d);
    lemma_pow2_adds(wa, d);
    assert(cut < pow2(wa)) by (nonlinear_arith)
        requires
            cb < pow2(wa) * pow2(d),
            cut == cb / pow2(d) as int,
            pow2(d) > 0,
            0 <= cb,
    ;
    assert(cut >= ca + 1) by (nonlinear_arith)
        requires
            (ca + 1) * pow2(d) <= cb,
            cut == cb / pow2(d) as int,
            pow2(d) > 0,
    ;
}

/// Where the bits `idx` start with the codes of two symbols, the longer code
/// cut to the length of the shorter is the shorter.
proof fn lemma_cut_code_same(widths: Seq<u8>, a: int, b: int, idx: int)
    requires
        prefix_free(widths),
        0 <= a < widths.len(),
        0 <= b < widths.len(),
        widths[a] >= 1,
        widths[b] >= 1,
        0 <= idx,
        sym_matches(widths, a, idx),
        sym_matches(widths, b, idx),
        comes_before(widths, a, b),
    ensures
        cut_code(widths, a, b) == canon_code(widths, a),
{
    let wa = widths[a] as nat;
    let wb = widths[b] as nat;
    let ca = canon_code(widths, a);
    let cb = canon_code(widths, b);
    let d = (wb - wa) as nat;
    let cut = cut_code(widths, a, b);
    lemma_canon_code_fits(widths, a);
    lemma_canon_code_fits(widths, b);
    lemma_cut_code_greater(widths, a, b);
    assert forall|j: nat| j < wa implies #[trigger] bit_at(ca, j) == bit_at(cut, j) by {
        lemma_match_bits(widths, a, idx, j);
        lemma_match_bits(widths, b, idx, j + d);
        lemma_bit_at_shifted(cb, d, j);
    }
    lemma_same_bits(ca, cut, wa);
}

/// Once a symbol whose code the bits start with is entered, the slot is not
/// empty.
proof fn lemma_entry_in_width_found(widths: Seq<u8>, idx: int, w: int, upto: int, fallback: int, sym: int)
    requires
        1 <= w <= 15,
        0 <= sym < upto <= widths.len(),
        widths[sym] as int == w,
        sym_matches(widths, sym, idx),
    ensures
        entry_in_width(widths, idx, w, upto, fallback) != 16,
    decreases upto,
{
    if widths[upto - 1] as int == w && sym_matches(widths, upto - 1, idx) {
    } else {
        lemma_entry_in_width_found(widths, idx, w, upto - 1, fallback, sym);
    }
}

/// Entering symbols does not empty a slot.
proof fn lemma_entry_in_width_kept(widths: Seq<u8>, idx: int, w: int, upto: int, fallback: int)
    requires
        1 <= w <= 15,
        0 <= upto <= widths.len(),
        fallback != 16,
    ensures
        entry_in_width(widths, idx, w, upto, fallback) != 16,
    decreases upto,
{
    if upto > 0 {
        if widths[upto - 1] as int == w && sym_matches(widths, upto - 1, idx) {
        } else {
            lemma_entry_in_width_kept(widths, idx, w, upto - 1, fallback);
        }
    }
}

/// Once the lengths up to that of a symbol whose code the bits start with are
/// entered, the slot is not empty.
proof fn lemma_entry_upto_found(widths: Seq<u8>, idx: int, w: int, sym: int)
    requires
        0 <= sym < widths.len(),
        1 <= widths[sym] <= w <= 15,
        sym_matches(widths, sym, idx),
    ensures
        entry_upto(widths, idx, w) != 16,
    decreases w,
{
    if widths[sym] as int == w {
        lemma_entry_in_width_found(
            widths,
            idx,
            w,
            widths.len() as int,
            entry_upto(widths, idx, w - 1),
            sym,
        );
    } else {
        lemma_entry_upto_found(widths, idx, w - 1, sym);
        lemma_entry_in_width_kept(widths, idx, w, widths.len() as int, entry_upto(widths, idx, w - 1));
    }
}

/// Where the code lengths leave room for a prefix code and the bits `idx`
/// start with the code of `sym`, the table answers `sym`.
pub proof fn lemma_table_finds(widths: Seq<u8>, sym: int, idx: int)
    requires
        prefix_free(widths),
        0 <= sym < widths.len(),
        widths[sym] >= 1,
        0 <= idx,
        sym_matches(widths, sym, idx),
    ensures
        table_entry(widths, idx) == pack(sym, widths[sym] as int),
{
    assert(widths[sym] as int <= 15);
    lemma_entry_upto_found(widths, idx, 15, sym);
    lemma_table_entry_shape(widths, idx);
    let e = table_entry(widths, idx);
    lemma_match_unique(widths, sym, e / 32, idx);
}

} // verus!
