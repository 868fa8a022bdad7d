//! Reading bits out of bytes, least significant bit first.
//!
//! Contracts speak of the input as a stream of bits that goes on with zeros
//! after its last byte, and of a position in it. Looking ahead past the end is
//! harmless; taking bits that are not there fails.

use crate::bits::{bit_at, lemma_low_bits_step};
use crate::error::Error;
use vstd::arithmetic::div_mod::{
    lemma_div_denominator, lemma_fundamental_div_mod_converse, lemma_hoist_over_denominator,
};
use vstd::arithmetic::power2::{
    lemma2_to64, lemma_pow2_adds, lemma_pow2_pos, lemma_pow2_unfold, pow2,
};
use vstd::prelude::*;

verus! {

/// Bit `k` of the stream, as 0 or 1: zero after the last byte.
pub open spec fn stream_bit(input: Seq<u8>, k: int) -> int {
    if 0 <= k < 8 * input.len() {
        bit_at(input[k / 8] as int, (k % 8) as nat)
    } else {
        0
    }
}

/// The `w` bits from `pos` on as a number, the first bit the least significant.
pub open spec fn stream_value(input: Seq<u8>, pos: int, w: nat) -> int
    decreases w,
{
    if w == 0 {
        0
    } else {
        stream_value(input, pos, (w - 1) as nat) + stream_bit(input, pos + w - 1) * pow2((w - 1) as nat)
    }
}

/// The least multiple of eight that is not below `pos`.
pub open spec fn align_up(pos: int) -> int {
    pos + (8 - pos % 8) % 8
}

/// A run of `w` bits is a number of `w` bits.
pub proof fn lemma_stream_value_bound(input: Seq<u8>, pos: int, w: nat)
    ensures
        0 <= stream_value(input, pos, w) < pow2(w),
    decreases w,
{
    if w == 0 {
        lemma2_to64();
    } else {
        lemma_stream_value_bound(input, pos, (w - 1) as nat);
        lemma_pow2_unfold(w);
        let b = stream_bit(input, pos + w - 1);
        let p = pow2((w - 1) as nat) as int;
        assert(0 <= b * p <= p) by (nonlinear_arith)
            requires
                0 <= b <= 1,
                0 <= p,
        ;
    }
}

/// A run of bits is worth its first `a` bits plus `2^a` times the rest.
pub proof fn lemma_stream_value_split(input: Seq<u8>, pos: int, a: nat, b: nat)
    ensures
        stream_value(input, pos, a + b) == stream_value(input, pos, a) + pow2(a) * stream_value(
            input,
            pos + a,
            b,
        ),
    decreases b,
{
    if b == 0 {
        assert(pow2(a) * stream_value(input, pos + a, 0) == 0);
    } else {
        lemma_stream_value_split(input, pos, a, (b - 1) as nat);
        lemma_pow2_adds(a, (b - 1) as nat);
        let bit = stream_bit(input, pos + a + b - 1);
        let pa = pow2(a) as int;
        let pb = pow2((b - 1) as nat) as int;
        let rest = stream_value(input, pos + a, (b - 1) as nat);
        assert(pa * (rest + bit * pb) == pa * rest + bit * (pa * pb)) by (nonlinear_arith);
    }
}

/// The first `w` bits of a longer run are that run's value modulo `2^w`.
pub proof fn lemma_stream_value_prefix(input: Seq<u8>, pos: int, w: nat, n: nat)
    requires
        w <= n,
    ensures
        stream_value(input, pos, n) % pow2(w) as int == stream_value(input, pos, w),
{
    lemma_stream_value_split(input, pos, w, (n - w) as nat);
    lemma_stream_value_bound(input, pos, w);
    lemma_pow2_pos(w);
    let q = stream_value(input, pos + w, (n - w) as nat);
    let r = stream_value(input, pos, w);
    let pw = pow2(w) as int;
    assert(pw * q == q * pw) by (nonlinear_arith);
    lemma_fundamental_div_mod_converse(stream_value(input, pos, n), pw, q, r);
}

/// Bit `pos + i` of the stream is bit `i` of `x`.
pub open spec fn carries(input: Seq<u8>, pos: int, x: int, i: int) -> bool {
    stream_bit(input, pos + i) == bit_at(x, i as nat)
}

/// Where the stream carries the bits of `x` from `pos` on, the run of `w` bits
/// there is worth the low `w` bits of `x`.
pub proof fn lemma_stream_value_of(input: Seq<u8>, pos: int, x: int, w: nat)
    requires
        0 <= x,
        forall|i: int| 0 <= i < w ==> #[trigger] carries(input, pos, x, i),
    ensures
        stream_value(input, pos, w) == x % pow2(w) as int,
    decreases w,
{
    if w == 0 {
        lemma2_to64();
    } else {
        lemma_stream_value_of(input, pos, x, (w - 1) as nat);
        lemma_low_bits_step(x, (w - 1) as nat);
        assert(carries(input, pos, x, w - 1));
    }
}

/// Eight bits from a byte boundary are that byte, or zero after the end.
pub proof fn lemma_stream_value_byte(input: Seq<u8>, q: int)
    requires
        0 <= q,
    ensures
        stream_value(input, 8 * q, 8) == if q < input.len() {
            input[q] as int
        } else {
            0
        },
{
    lemma2_to64();
    if q < input.len() {
        let x = input[q] as int;
        assert forall|i: int| 0 <= i < 8 implies #[trigger] carries(input, 8 * q, x, i) by {
            assert((8 * q + i) / 8 == q);
            assert((8 * q + i) % 8 == i);
        }
        lemma_stream_value_of(input, 8 * q, x, 8);
    } else {
        assert forall|i: int| 0 <= i < 8 implies #[trigger] carries(input, 8 * q, 0, i) by {
            lemma_pow2_pos(i as nat);
        }
        lemma_stream_value_of(input, 8 * q, 0, 8);
    }
}

/// A cursor over the bits of a byte slice.
#[derive(Debug)]
pub struct Reader<'a> {
    v_in: &'a [u8],
    /// How many bytes of the input are loaded.
    next: usize,
    /// How many zero bytes are loaded after the input's end.
    beyond: u8,
    last_read: u32,
    offset: u8,
}

impl<'a> Reader<'a> {
    /// The bytes read from.
    pub closed spec fn input(&self) -> Seq<u8> {
        self.v_in@
    }

    /// How many bits are taken so far.
    pub closed spec fn pos(&self) -> int {
        8 * (self.next + self.beyond) - (32 - self.offset)
    }

    /// How many bits are loaded and not yet taken.
    pub closed spec fn buffered(&self) -> int {
        32 - self.offset
    }

    /// The register holds the bits of the input from the position on, and the
    /// position is within the input.
    pub closed spec fn wf(&self) -> bool {
        &&& self.next <= self.v_in@.len()
        &&& self.offset <= 32
        &&& (self.beyond > 0 ==> self.next == self.v_in@.len())
        &&& 0 <= self.pos() <= 8 * self.v_in@.len()
        &&& self.last_read as int / pow2(self.offset as nat) as int == stream_value(
            self.v_in@,
            self.pos(),
            (32 - self.offset) as nat,
        )
    }

    /// The position is within the input.
    pub proof fn lemma_wf_pos(&self)
        requires
            self.wf(),
        ensures
            0 <= self.pos() <= 8 * self.input().len(),
            0 <= self.buffered() <= 32,
    {
    }

    /// A cursor at the first bit of `v_in`.
    pub fn new(v_in: &'a [u8]) -> (r: Self)
        ensures
            r.wf(),
            r.input() == v_in@,
            r.pos() == 0,
            r.buffered() == 0,
    {
        proof {
            lemma2_to64();
            vstd::arithmetic::power2::lemma2_to64_rest();
        }
        Reader { v_in, next: 0, beyond: 0, last_read: 0, offset: 32 }
    }

    /// Loads one more byte into the register: the next of the input, or a zero
    /// after its end.
    #[verifier::rlimit(40)]
    fn read(&mut self)
        requires
            old(self).wf(),
            old(self).offset >= 8,
        ensures
            final(self).wf(),
            final(self).input() == old(self).input(),
            final(self).pos() == old(self).pos(),
            final(self).offset == old(self).offset - 8,
    {
        let ghost n = (32 - self.offset) as nat;
        let ghost pos = self.pos();
        let byte: u32 = if self.next < self.v_in.len() {
            let b = self.v_in[self.next];
            self.next += 1;
            b as u32
        } else {
            self.beyond += 1;
            0
        };
        let x: u32 = self.last_read;
        let o: u8 = self.offset;
        assert((x >> 8) | (byte << 24) == x / 256 + byte * 16777216) by (bit_vector)
            requires
                byte < 256,
        ;
        self.offset = o - 8;
        self.last_read = (x >> 8) | (byte << 24);
        proof {
            lemma2_to64();
            let o2 = (o - 8) as nat;
            let po2 = pow2(o2) as int;
            let pn = pow2(n) as int;
            lemma_pow2_pos(o2);
            lemma_pow2_adds(8, o2);
            lemma_pow2_adds(o2, n);
            // 2^24 == 2^(o - 8) * 2^n
            assert(po2 * pn == 16777216);
            lemma_div_denominator(x as int, 256, po2);
            assert(256 * po2 == pow2(o as nat));
            assert((x as int / 256) / po2 == x as int / pow2(o as nat) as int);
            let j = byte as int * pn;
            assert(j * po2 == byte * 16777216) by (nonlinear_arith)
                requires
                    po2 * pn == 16777216,
                    j == byte as int * pn,
            ;
            lemma_hoist_over_denominator(x as int / 256, j, po2 as nat);
            assert(self.last_read as int / po2 == stream_value(self.v_in@, pos, n) + byte * pn);
            lemma_stream_value_split(self.v_in@, pos, n, 8);
            assert(pos + n == 8 * (old(self).next + old(self).beyond));
            lemma_stream_value_byte(self.v_in@, old(self).next + old(self).beyond);
            assert(pn * byte == byte * pn) by (nonlinear_arith);
        }
    }

    /// The next `width` bits as a number, without taking them.
    pub fn peek_bits(&mut self, width: u8) -> (r: u16)
        requires
            old(self).wf(),
            width <= 16,
        ensures
            final(self).wf(),
            final(self).input() == old(self).input(),
            final(self).pos() == old(self).pos(),
            final(self).buffered() >= width,
            r as int == stream_value(old(self).input(), old(self).pos(), width as nat),
    {
        while self.offset > 32 - width
            invariant
                self.wf(),
                width <= 16,
                self.input() == old(self).input(),
                self.pos() == old(self).pos(),
            decreases self.offset,
        {
            self.read();
        }
        if width == 0 {
            return 0;
        }
        let x: u32 = self.last_read;
        let o: u8 = self.offset;
        proof {
            lemma2_to64();
            lemma_pow2_pos(width as nat);
            if width < 16 {
                vstd::arithmetic::power2::lemma_pow2_strictly_increases(width as nat, 16);
            }
            vstd::bits::lemma_u32_shl_is_mul(1, width as u32);
            vstd::bits::lemma_u32_shr_is_div(x, o as u32);
            vstd::bits::lemma_u32_low_bits_mask_is_mod(x >> o, width as nat);
            lemma_stream_value_prefix(self.v_in@, self.pos(), width as nat, (32 - o) as nat);
        }
        let mask: u32 = (1u32 << width) - 1;
        ((x >> o) & mask) as u16
    }

    /// Takes `width` bits that were looked at.
    pub fn skip_bits(&mut self, width: u8) -> (r: Result<(), Error>)
        requires
            old(self).wf(),
            width <= old(self).buffered(),
        ensures
            final(self).wf(),
            final(self).input() == old(self).input(),
            old(self).pos() + width <= 8 * old(self).input().len() ==> r is Ok && final(self).pos()
                == old(self).pos() + width,
            old(self).pos() + width > 8 * old(self).input().len() ==> r == Err::<(), Error>(
                Error::BufferOverflow,
            ) && final(self).pos() == old(self).pos(),
    {
        if 32 - self.offset - 8 * self.beyond < width {
            return Err(Error::BufferOverflow);
        }
        let ghost n = (32 - self.offset) as nat;
        let ghost pos = self.pos();
        proof {
            lemma_stream_value_split(self.v_in@, pos, width as nat, (n - width) as nat);
            lemma_stream_value_bound(self.v_in@, pos, width as nat);
            lemma_pow2_pos(width as nat);
            lemma_pow2_pos(self.offset as nat);
            lemma_pow2_adds(self.offset as nat, width as nat);
            let x = self.last_read as int;
            let po = pow2(self.offset as nat) as int;
            let pw = pow2(width as nat) as int;
            let lo = stream_value(self.v_in@, pos, width as nat);
            let hi = stream_value(self.v_in@, pos + width, (n - width) as nat);
            assert(pw * hi == hi * pw) by (nonlinear_arith);
            lemma_fundamental_div_mod_converse(x / po, pw, hi, lo);
            lemma_div_denominator(x, po, pw);
        }
        self.offset += width;
        Ok(())
    }

    /// Takes the next `width` bits and returns them as a number.
    pub fn read_bits(&mut self, width: u8) -> (r: Result<u16, Error>)
        requires
            old(self).wf(),
            width <= 16,
        ensures
            final(self).wf(),
            final(self).input() == old(self).input(),
            old(self).pos() + width <= 8 * old(self).input().len() ==> r == Ok::<u16, Error>(
                stream_value(old(self).input(), old(self).pos(), width as nat) as u16,
            ) && final(self).pos() == old(self).pos() + width,
            old(self).pos() + width > 8 * old(self).input().len() ==> r == Err::<u16, Error>(
                Error::BufferOverflow,
            ) && final(self).pos() == old(self).pos(),
    {
        let bits = self.peek_bits(width);
        match self.skip_bits(width) {
            Ok(()) => Ok(bits),
            Err(e) => Err(e),
        }
    }

    /// Drops the rest of the byte in progress, so that reading goes on at the
    /// next byte boundary.
    pub fn reset(&mut self)
        requires
            old(self).wf(),
        ensures
            final(self).wf(),
            final(self).input() == old(self).input(),
            final(self).pos() == align_up(old(self).pos()),
            final(self).buffered() == 0,
    {
        let whole: u8 = (32 - self.offset) / 8;
        proof {
            lemma2_to64();
            vstd::arithmetic::power2::lemma2_to64_rest();
        }
        let back: u8 = whole - self.beyond;
        self.beyond = 0;
        self.next = self.next - back as usize;
        self.offset = 32;
    }

    /// Takes two whole bytes as a 16-bit number, low byte first.
    pub fn read_u16(&mut self) -> (r: Result<u16, Error>)
        requires
            old(self).wf(),
            old(self).buffered() == 0,
        ensures
            final(self).wf(),
            final(self).input() == old(self).input(),
            final(self).buffered() == 0,
            old(self).pos() + 16 <= 8 * old(self).input().len() ==> r == Ok::<u16, Error>(
                (old(self).input()[old(self).pos() / 8] as int + 256 * old(self).input()[old(self).pos() / 8 + 1] as int) as u16,
            ) && final(self).pos() == old(self).pos() + 16,
            old(self).pos() + 16 > 8 * old(self).input().len() ==> r == Err::<u16, Error>(
                Error::BufferOverflow,
            ) && final(self).pos() == old(self).pos(),
    {
        if self.v_in.len() - self.next < 2 {
            return Err(Error::BufferOverflow);
        }
        let low: u16 = self.v_in[self.next] as u16;
        let high: u16 = self.v_in[self.next + 1] as u16;
        self.next += 2;
        Ok(low + 256 * high)
    }

    /// Takes `len` whole bytes and appends them to `v_out`.
    pub fn fill(&mut self, v_out: &mut Vec<u8>, len: usize) -> (r: Result<(), Error>)
        requires
            old(self).wf(),
            old(self).buffered() == 0,
        ensures
            final(self).wf(),
            final(self).input() == old(self).input(),
            final(self).buffered() == 0,
            old(self).pos() + 8 * len <= 8 * old(self).input().len() ==> r is Ok
                && final(self).pos()
                == old(self).pos() + 8 * len
                    && final(v_out)@ == old(v_out)@ + old(self).input().subrange(old(self).pos() / 8, old(self).pos() / 8 + len),
            old(self).pos() + 8 * len > 8 * old(self).input().len() ==> r == Err::<(), Error>(
                Error::BufferOverflow,
            ) && final(self).pos() == old(self).pos() && final(v_out)@ == old(v_out)@,
    {
        if self.v_in.len() - self.next < len {
            return Err(Error::BufferOverflow);
        }
        let start: usize = self.next;
        let total: usize = self.v_in.len();
        let mut k: usize = 0;
        while k < len
            invariant
                k <= len,
                total == self.v_in@.len(),
                start + len <= total,
                start == self.next,
                self.v_in@ == old(self).v_in@,
                v_out@ == old(v_out)@ + self.v_in@.subrange(start as int, start + k),
            decreases len - k,
        {
            v_out.push(self.v_in[start + k]);
            k += 1;
            proof {
                assert(self.v_in@.subrange(start as int, start + k) == self.v_in@.subrange(
                    start as int,
                    start + k - 1,
                ).push(self.v_in@[start + k - 1]));
            }
        }
        self.next = start + len;
        Ok(())
    }
}

} // verus!
