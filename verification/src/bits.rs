//! A short run of bits, and the arithmetic that contracts use to speak of bits.

use vstd::arithmetic::div_mod::{
    lemma_basic_div, lemma_breakdown, lemma_div_denominator, lemma_fundamental_div_mod,
    lemma_fundamental_div_mod_converse, lemma_hoist_over_denominator, lemma_mod_bound,
};
use vstd::arithmetic::power2::{
    lemma2_to64, lemma_pow2_adds, lemma_pow2_pos, lemma_pow2_strictly_increases, lemma_pow2_unfold,
    pow2,
};
use vstd::prelude::*;

verus! {

/// Bit `i` of the non-negative number `x`, as 0 or 1.
pub open spec fn bit_at(x: int, i: nat) -> int {
    (x / pow2(i) as int) % 2
}

/// The low `w` bits of `x` in reverse order: bit `i` of the result is bit
/// `w - 1 - i` of `x`.
pub open spec fn rev_bits(x: int, w: nat) -> int
    decreases w,
{
    if w == 0 {
        0
    } else {
        2 * rev_bits(x, (w - 1) as nat) + bit_at(x, (w - 1) as nat)
    }
}

/// A reversal of `w` bits fits in `w` bits.
pub proof fn lemma_rev_bits_bound(x: int, w: nat)
    ensures
        0 <= rev_bits(x, w) < pow2(w),
    decreases w,
{
    if w == 0 {
        lemma2_to64();
    } else {
        lemma_rev_bits_bound(x, (w - 1) as nat);
        lemma_pow2_unfold(w);
    }
}

/// The low `w` bits of `x`, least significant first.
pub open spec fn bits_of(x: int, w: nat) -> Seq<bool> {
    Seq::new(w, |i: int| bit_at(x, i as nat) == 1)
}

/// `n` bits that are all zero.
pub open spec fn zero_bits(n: nat) -> Seq<bool> {
    Seq::new(n, |i: int| false)
}

/// The bits of a byte sequence in stream order: byte by byte, each byte from its
/// least significant bit.
pub open spec fn bytes_bits(b: Seq<u8>) -> Seq<bool> {
    Seq::new(8 * b.len(), |i: int| bit_at(b[i / 8] as int, (i % 8) as nat) == 1)
}

/// Adding a multiple of `2^a` leaves the bits below `a` as they are.
pub proof fn lemma_bit_at_low(lo: int, hi: int, a: nat, i: nat)
    requires
        i < a,
    ensures
        bit_at(lo + hi * pow2(a), i) == bit_at(lo, i),
{
    let p = pow2(i) as int;
    let q = pow2((a - i - 1) as nat) as int;
    lemma_pow2_pos(i);
    lemma_pow2_adds(i, (a - i) as nat);
    lemma_pow2_unfold((a - i) as nat);
    let pa = pow2(a) as int;
    assert(pa == p * (2 * q));
    let j = 2 * (hi * q);
    assert(hi * pa == j * p) by (nonlinear_arith)
        requires
            pa == p * (2 * q),
            j == 2 * (hi * q),
    ;
    lemma_hoist_over_denominator(lo, j, p as nat);
    assert((lo + hi * pa) / p == lo / p + j);
}

/// Above a low part that fits in `a` bits, the bits are those of the high part.
pub proof fn lemma_bit_at_high(lo: int, hi: int, a: nat, i: nat)
    requires
        a <= i,
        0 <= lo < pow2(a),
        0 <= hi,
    ensures
        bit_at(lo + hi * pow2(a), i) == bit_at(hi, (i - a) as nat),
{
    let pa = pow2(a) as int;
    let pb = pow2((i - a) as nat) as int;
    let x = lo + hi * pa;
    lemma_pow2_pos(a);
    lemma_pow2_pos((i - a) as nat);
    lemma_pow2_adds(a, (i - a) as nat);
    assert(0 <= hi * pa) by (nonlinear_arith)
        requires
            0 <= hi,
            0 < pa,
    ;
    lemma_fundamental_div_mod_converse(x, pa, hi, lo);
    lemma_div_denominator(x, pa, pb);
}

/// Reducing modulo `2^w` leaves the bits below `w` as they are.
pub proof fn lemma_bit_at_mod(x: int, w: nat, i: nat)
    requires
        i < w,
    ensures
        bit_at(x % pow2(w) as int, i) == bit_at(x, i),
{
    let pw = pow2(w) as int;
    lemma_pow2_pos(w);
    lemma_fundamental_div_mod(x, pw);
    assert(x == x % pw + (x / pw) * pw) by (nonlinear_arith)
        requires
            x == pw * (x / pw) + (x % pw),
    ;
    lemma_bit_at_low(x % pw, x / pw, w, i);
}

/// A number below `2^w` has no bit set from `w` on.
pub proof fn lemma_bit_at_zero(x: int, w: nat, i: nat)
    requires
        0 <= x < pow2(w),
        w <= i,
    ensures
        bit_at(x, i) == 0,
{
    if w < i {
        lemma_pow2_strictly_increases(w, i);
    }
    lemma_basic_div(x, pow2(i) as int);
}

/// The low `w + 1` bits are the low `w` bits and bit `w` on top.
pub proof fn lemma_low_bits_step(x: int, w: nat)
    requires
        0 <= x,
    ensures
        x % pow2(w + 1) as int == x % pow2(w) as int + bit_at(x, w) * pow2(w),
{
    lemma_pow2_pos(w);
    lemma_pow2_unfold(w + 1);
    lemma_breakdown(x, pow2(w) as int, 2);
    assert(pow2(w) as int * 2 == pow2(w + 1) as int);
    assert(pow2(w) as int * ((x / pow2(w) as int) % 2) == bit_at(x, w) * pow2(w)) by (nonlinear_arith);
}

/// The low bits of a sum of a low part and a shifted high part are the bits of
/// the one followed by the bits of the other.
pub proof fn lemma_bits_of_concat(lo: int, hi: int, a: nat, b: nat)
    requires
        0 <= lo < pow2(a),
        0 <= hi,
    ensures
        bits_of(lo + hi * pow2(a), a + b) == bits_of(lo, a) + bits_of(hi, b),
{
    let x = lo + hi * pow2(a);
    assert forall|i: int| 0 <= i < a + b implies bits_of(x, a + b)[i] == (bits_of(lo, a) + bits_of(
        hi,
        b,
    ))[i] by {
        if i < a {
            lemma_bit_at_low(lo, hi, a, i as nat);
        } else {
            lemma_bit_at_high(lo, hi, a, i as nat);
        }
    }
    assert(bits_of(x, a + b) =~= bits_of(lo, a) + bits_of(hi, b));
}

/// The low `a + b` bits of `x` are its low `a` bits followed by the low `b` bits
/// of what is left after dropping them.
pub proof fn lemma_bits_of_split(x: int, a: nat, b: nat)
    requires
        0 <= x,
    ensures
        bits_of(x, a + b) == bits_of(x % pow2(a) as int, a) + bits_of(x / pow2(a) as int, b),
{
    let pa = pow2(a) as int;
    lemma_pow2_pos(a);
    lemma_fundamental_div_mod(x, pa);
    lemma_mod_bound(x, pa);
    vstd::arithmetic::div_mod::lemma_div_pos_is_pos(x, pa);
    assert(x == x % pa + (x / pa) * pa) by (nonlinear_arith)
        requires
            x == pa * (x / pa) + (x % pa),
    ;
    lemma_bits_of_concat(x % pa, x / pa, a, b);
}

/// Only the low `w` bits of `x` count in `bits_of(x, w)`.
pub proof fn lemma_bits_of_mod(x: int, w: nat)
    ensures
        bits_of(x % pow2(w) as int, w) == bits_of(x, w),
{
    assert forall|i: int| 0 <= i < w implies bits_of(x % pow2(w) as int, w)[i] == bits_of(x, w)[i] by {
        lemma_bit_at_mod(x, w, i as nat);
    }
    assert(bits_of(x % pow2(w) as int, w) =~= bits_of(x, w));
}

/// A number that fits in `w` bits, written with `n` bits, is its `w` bits followed by zeros.
pub proof fn lemma_bits_of_pad(x: int, w: nat, n: nat)
    requires
        0 <= x < pow2(w),
        w <= n,
    ensures
        bits_of(x, n) == bits_of(x, w) + zero_bits((n - w) as nat),
{
    assert forall|i: int| 0 <= i < n implies bits_of(x, n)[i] == (bits_of(x, w) + zero_bits(
        (n - w) as nat,
    ))[i] by {
        if i >= w {
            lemma_bit_at_zero(x, w, i as nat);
        }
    }
    assert(bits_of(x, n) =~= bits_of(x, w) + zero_bits((n - w) as nat));
}

/// One more byte adds its eight bits to the stream.
pub proof fn lemma_bytes_bits_push(b: Seq<u8>, x: u8)
    ensures
        bytes_bits(b.push(x)) == bytes_bits(b) + bits_of(x as int, 8),
{
    let n = b.len() as int;
    assert forall|i: int| 0 <= i < 8 * (n + 1) implies bytes_bits(b.push(x))[i] == (bytes_bits(b)
        + bits_of(x as int, 8))[i] by {
        if i < 8 * n {
            assert(i / 8 < n);
        } else {
            assert(i / 8 == n);
            assert(i % 8 == i - 8 * n);
        }
    }
    assert(bytes_bits(b.push(x)) =~= bytes_bits(b) + bits_of(x as int, 8));
}

/// The bits of a reversal are the bits of the number, last first.
pub proof fn lemma_rev_bits_bit(x: int, w: nat, i: nat)
    requires
        i < w,
        0 <= x,
    ensures
        bit_at(rev_bits(x, w), i) == bit_at(x, (w - 1 - i) as nat),
    decreases w,
{
    let r = rev_bits(x, (w - 1) as nat);
    let b = bit_at(x, (w - 1) as nat);
    lemma_rev_bits_bound(x, (w - 1) as nat);
    lemma2_to64();
    // rev_bits(x, w) == b + r * 2
    if i == 0 {
        lemma_bit_at_low(b, r, 1, 0);
        assert(bit_at(b, 0) == b);
    } else {
        lemma_bit_at_high(b, r, 1, i);
        lemma_rev_bits_bit(x, (w - 1) as nat, (i - 1) as nat);
    }
}

/// Up to sixteen bits of content, least significant bit first.
#[derive(Debug, Clone, Copy, PartialEq, Eq, Structural)]
pub struct Bits {
    pub data: u16,
    pub width: u8,
}

impl Bits {
    /// Unpacks what `as_i32` packed: the width from the third byte, the data
    /// from the low two.
    pub fn from(code: i32) -> (r: Self)
        ensures
            r.data as int == code as int % 65536,
            r.width as int == (code as int / 65536) % 256,
    {
        // The slot as an unsigned number: a negative one moves up by 2^32.
        let u: u32 = if code >= 0 {
            code as u32
        } else {
            (code + 0x7fff_ffff + 1) as u32 + 0x8000_0000
        };
        assert(u & 0xFFFF == u % 65536 && (u >> 16) & 0xFF == (u / 65536) % 256) by (bit_vector);
        let data: u16 = (u & 0xFFFF) as u16;
        let width: u8 = ((u >> 16) & 0xFF) as u8;
        assert(u as int == code as int || u as int == code as int + 65536 * 65536);
        Bits { data, width }
    }

    /// The same width, with the low `width` bits of the data in reverse order.
    pub fn reverse(&self) -> (r: Self)
        requires
            self.width <= 16,
        ensures
            r.width == self.width,
            r.data as int == rev_bits(self.data as int, self.width as nat),
    {
        let width: u8 = self.width;
        let data: u16 = self.data;
        let mut out: u16 = 0;
        let mut i: u8 = 0;
        proof {
            lemma2_to64();
        }
        while i < width
            invariant
                i <= width <= 16,
                out as int == rev_bits(data as int, i as nat),
                (out as int) < pow2(i as nat),
            decreases width - i,
        {
            let bit: u16 = (data >> i) & 1;
            proof {
                let shifted: u16 = data >> i;
                vstd::bits::lemma_u16_shr_is_div(data, i as u16);
                assert(shifted & 1 == shifted % 2) by (bit_vector);
                assert(bit as int == bit_at(data as int, i as nat));
                lemma_pow2_unfold((i + 1) as nat);
                vstd::arithmetic::power2::lemma_pow2_strictly_increases(i as nat, 16);
                lemma2_to64();
                assert(out < 0x8000) by {
                    if i < 15 {
                        vstd::arithmetic::power2::lemma_pow2_strictly_increases(i as nat, 15);
                    }
                }
                assert((out << 1) | bit == 2 * out + bit) by (bit_vector)
                    requires
                        out < 0x8000,
                        bit <= 1,
                ;
            }
            out = (out << 1) | bit;
            i += 1;
        }
        Bits { data: out, width }
    }

    /// Packs width and data into one table slot: `width * 65536 + data`.
    pub fn as_i32(&self) -> (r: i32)
        ensures
            r as int == self.width as int * 65536 + self.data as int,
    {
        let w: u32 = self.width as u32;
        let d: u32 = self.data as u32;
        assert((w << 16) | d == w * 65536 + d) by (bit_vector)
            requires
                w < 256,
                d < 65536,
        ;
        ((w << 16) | d) as i32
    }
}

/// Packing and unpacking give the same bits back.
pub proof fn lemma_bits_pack_unpack(b: Bits)
    ensures
        (b.width as int * 65536 + b.data as int) % 65536 == b.data as int,
        ((b.width as int * 65536 + b.data as int) / 65536) % 256 == b.width as int,
{
}

} // verus!
