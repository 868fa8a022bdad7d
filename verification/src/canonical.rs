//! Canonical Huffman codes: from code lengths to codes, and what a lookup
//! table built from them answers.
//!
//! Codes are numbered as the format prescribes: symbols are ordered by code
//! length and then by symbol, the first code is zero, and each next code is the
//! last one plus one, shifted left where the length grows. A code is sent most
//! significant bit first, so on a stream that fills bytes from the least
//! significant bit it appears reversed.

use crate::bits::{lemma_bit_at_mod, rev_bits};
use vstd::arithmetic::power2::pow2;
use vstd::prelude::*;

verus! {

/// What a table slot holds where no code matches: width 16, which no code has.
pub const NO_ENTRY: i32 = 16;

/// How many of the symbols below `upto` have a code of `w` bits.
pub open spec fn count_width(widths: Seq<u8>, w: int, upto: int) -> int
    decreases upto,
{
    if upto <= 0 {
        0
    } else {
        count_width(widths, w, upto - 1) + if widths[upto - 1] as int == w {
            1int
        } else {
            0int
        }
    }
}

/// The code of the first symbol that has `w` bits.
pub open spec fn first_code(widths: Seq<u8>, w: int) -> int
    decreases w,
{
    if w <= 1 {
        0
    } else {
        2 * (first_code(widths, w - 1) + count_width(widths, w - 1, widths.len() as int))
    }
}

/// The canonical code of `sym`, as a number whose low bits are the code. For
/// code lengths that ask for more codes than there are it may not fit its width.
pub open spec fn canon_code(widths: Seq<u8>, sym: int) -> int {
    first_code(widths, widths[sym] as int) + count_width(widths, widths[sym] as int, sym)
}

/// The code of `sym` as it appears on the stream: its bits reversed.
pub open spec fn wire_code(widths: Seq<u8>, sym: int) -> int {
    rev_bits(canon_code(widths, sym), widths[sym] as nat)
}

/// The greatest code length in `widths`; 0 for none.
pub open spec fn max_width(widths: Seq<u8>) -> int
    decreases widths.len(),
{
    if widths.len() == 0 {
        0
    } else {
        let rest = max_width(widths.drop_last());
        if widths.last() as int > rest {
            widths.last() as int
        } else {
            rest
        }
    }
}

/// The length of the end-of-block code in `widths`; 0 where it has none.
pub open spec fn eob_width(widths: Seq<u8>) -> int {
    if widths.len() > 256 {
        widths[256] as int
    } else {
        0
    }
}

/// A table slot for `sym` with a code of `w` bits.
pub open spec fn pack(sym: int, w: int) -> int {
    sym * 32 + w
}

/// The bits `idx`, low bit first, start with the code of `sym`.
pub open spec fn sym_matches(widths: Seq<u8>, sym: int, idx: int) -> bool {
    idx % pow2(widths[sym] as nat) as int == wire_code(widths, sym)
}

/// The slot for `idx` after the symbols below `upto` with `w` bits are entered
/// over `fallback`: the last of them that matches wins.
pub open spec fn entry_in_width(widths: Seq<u8>, idx: int, w: int, upto: int, fallback: int) -> int
    decreases upto,
{
    if upto <= 0 {
        fallback
    } else if widths[upto - 1] as int == w && sym_matches(widths, upto - 1, idx) {
        pack(upto - 1, w)
    } else {
        entry_in_width(widths, idx, w, upto - 1, fallback)
    }
}

/// The slot for `idx` after all symbols with up to `w` bits are entered, in
/// canonical order.
pub open spec fn entry_upto(widths: Seq<u8>, idx: int, w: int) -> int
    decreases w,
{
    if w <= 0 {
        16
    } else {
        entry_in_width(widths, idx, w, widths.len() as int, entry_upto(widths, idx, w - 1))
    }
}

/// What the table built from `widths` answers for the bits `idx`: a packed
/// symbol and width, or `NO_ENTRY`.
pub open spec fn table_entry(widths: Seq<u8>, idx: int) -> int {
    entry_upto(widths, idx, 15)
}

/// The slot `idx` of the table that starts at `base`.
pub open spec fn slot(buf: Seq<i32>, base: int, idx: int) -> int {
    buf[base + idx] as int
}

/// The `2^width` slots from `base` on hold the table built from `widths`.
pub open spec fn decoder_ok(buf: Seq<i32>, base: int, width: int, widths: Seq<u8>) -> bool {
    &&& buf.len() == 0x10000
    &&& 0 <= width <= 15
    &&& 0 <= base
    &&& base + pow2(width as nat) <= 0x10000
    &&& forall|idx: int| 0 <= idx < pow2(width as nat) ==> #[trigger] slot(buf, base, idx) == table_entry(widths, idx)
}

/// The slots from `base` on hold, for each symbol, its width and its code as
/// sent.
pub open spec fn encoder_ok(buf: Seq<i32>, base: int, widths: Seq<u8>) -> bool {
    &&& buf.len() == 0x10000
    &&& 0 <= base
    &&& base + widths.len() <= 0x10000
    &&& forall|sym: int|
        0 <= sym < widths.len() ==> #[trigger] slot(buf, base, sym) == widths[sym] as int * 65536
            + wire_code(widths, sym)
}

/// All code lengths are at most `limit`.
pub open spec fn widths_within(widths: Seq<u8>, limit: int) -> bool {
    forall|i: int| 0 <= i < widths.len() ==> #[trigger] widths[i] as int <= limit
}

/// No more symbols are counted than are looked at.
pub proof fn lemma_count_width_bounds(widths: Seq<u8>, w: int, upto: int)
    ensures
        0 <= count_width(widths, w, upto),
        upto >= 0 ==> count_width(widths, w, upto) <= upto,
    decreases upto,
{
    if upto > 0 {
        lemma_count_width_bounds(widths, w, upto - 1);
    }
}

/// A first code is not negative.
pub proof fn lemma_first_code_nonneg(widths: Seq<u8>, w: int)
    ensures
        0 <= first_code(widths, w),
    decreases w,
{
    if w > 1 {
        lemma_first_code_nonneg(widths, w - 1);
        lemma_count_width_bounds(widths, w - 1, widths.len() as int);
    }
}

/// A code is not negative.
pub proof fn lemma_canon_code_nonneg(widths: Seq<u8>, sym: int)
    ensures
        0 <= canon_code(widths, sym),
{
    lemma_first_code_nonneg(widths, widths[sym] as int);
    lemma_count_width_bounds(widths, widths[sym] as int, sym);
}

/// No code length is greater than the greatest.
pub proof fn lemma_max_width_bound(widths: Seq<u8>, i: int)
    requires
        0 <= i < widths.len(),
    ensures
        widths[i] as int <= max_width(widths),
        0 <= max_width(widths) <= 255,
    decreases widths.len(),
{
    if i < widths.len() - 1 {
        lemma_max_width_bound(widths.drop_last(), i);
    } else if widths.len() > 1 {
        lemma_max_width_bound(widths.drop_last(), 0);
    }
}

/// Where no code length is above `limit`, the greatest is not either.
pub proof fn lemma_max_width_within(widths: Seq<u8>, limit: int)
    requires
        widths_within(widths, limit),
        0 <= limit,
    ensures
        0 <= max_width(widths) <= limit,
    decreases widths.len(),
{
    if widths.len() > 0 {
        assert(widths_within(widths.drop_last(), limit)) by {
            assert forall|i: int| 0 <= i < widths.drop_last().len() implies #[trigger] widths.drop_last()[i] as int
                <= limit by {
                assert(widths[i] as int <= limit);
            }
        }
        lemma_max_width_within(widths.drop_last(), limit);
        assert(widths[widths.len() - 1] as int <= limit);
    }
}

/// A slot is empty or holds a symbol together with the length of its code,
/// and then the index starts with that code.
pub open spec fn entry_shape(widths: Seq<u8>, idx: int, e: int, w: int) -> bool {
    e == 16 || (1 <= e % 32 <= w && 0 <= e / 32 < widths.len() && widths[e / 32] as int == e % 32
        && e == pack(e / 32, e % 32) && sym_matches(widths, e / 32, idx))
}

/// Entering the symbols of one length leaves a slot empty or with a symbol
/// and its length.
pub proof fn lemma_entry_in_width_shape(widths: Seq<u8>, idx: int, w: int, upto: int, fallback: int)
    requires
        1 <= w <= 15,
        upto <= widths.len(),
        entry_shape(widths, idx, fallback, w - 1),
    ensures
        entry_shape(widths, idx, entry_in_width(widths, idx, w, upto, fallback), w),
    decreases upto,
{
    if upto > 0 {
        if widths[upto - 1] as int == w && sym_matches(widths, upto - 1, idx) {
            let e = pack(upto - 1, w);
            assert(e % 32 == w && e / 32 == upto - 1);
        } else {
            lemma_entry_in_width_shape(widths, idx, w, upto - 1, fallback);
        }
    }
}

/// Entering the symbols of the lengths up to `w` leaves a slot empty or with
/// a symbol and its length.
pub proof fn lemma_entry_upto_shape(widths: Seq<u8>, idx: int, w: int)
    requires
        0 <= w <= 15,
    ensures
        entry_shape(widths, idx, entry_upto(widths, idx, w), w),
    decreases w,
{
    if w > 0 {
        lemma_entry_upto_shape(widths, idx, w - 1);
        lemma_entry_in_width_shape(
            widths,
            idx,
            w,
            widths.len() as int,
            entry_upto(widths, idx, w - 1),
        );
    }
}

/// What a table answers is empty or a symbol of the alphabet with its own code
/// length, which is at least one and at most the greatest.
pub proof fn lemma_table_entry_shape(widths: Seq<u8>, idx: int)
    ensures
        entry_shape(widths, idx, table_entry(widths, idx), 15),
        table_entry(widths, idx) != 16 ==> table_entry(widths, idx) % 32 <= max_width(widths),
        0 <= table_entry(widths, idx),
{
    lemma_entry_upto_shape(widths, idx, 15);
    let e = table_entry(widths, idx);
    if e != 16 {
        lemma_max_width_bound(widths, e / 32);
    }
}

/// The first code of the next length, reduced to sixteen bits, from the code
/// after the last of this length, reduced to sixteen bits.
pub proof fn lemma_next_first_code(widths: Seq<u8>, w: int, next: int)
    requires
        1 <= w,
        next == (first_code(widths, w) + count_width(widths, w, widths.len() as int)) % 65536,
    ensures
        (2 * next) % 65536 == first_code(widths, w + 1) % 65536,
{
    let x = first_code(widths, w) + count_width(widths, w, widths.len() as int);
    assert(first_code(widths, w + 1) == 2 * x);
    vstd::arithmetic::div_mod::lemma_mul_mod_noop_general(2, x, 65536);
}

/// The code after a code, both reduced to sixteen bits.
pub proof fn lemma_next_code(x: int, code: int)
    requires
        code == x % 65536,
    ensures
        (code + 1) % 65536 == (x + 1) % 65536,
{
    vstd::arithmetic::div_mod::lemma_add_mod_noop(x, 1, 65536);
}

/// Reversing the low `w` bits does not look at the bits from `m` on.
pub proof fn lemma_rev_bits_low(x: int, m: nat, w: nat)
    requires
        w <= m,
    ensures
        rev_bits(x % pow2(m) as int, w) == rev_bits(x, w),
    decreases w,
{
    if w > 0 {
        lemma_rev_bits_low(x, m, (w - 1) as nat);
        lemma_bit_at_mod(x, m, (w - 1) as nat);
    }
}

} // verus!
