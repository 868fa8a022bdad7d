//! Packing bits into bytes, least significant bit first.

use crate::bits::{
    bits_of, bytes_bits, lemma_bits_of_concat, lemma_bits_of_mod, lemma_bits_of_pad,
    lemma_bits_of_split, lemma_bytes_bits_push, zero_bits, Bits,
};
use vstd::arithmetic::power2::{lemma2_to64, lemma_pow2_adds, lemma_pow2_pos, pow2};
use vstd::prelude::*;

verus! {

/// `bits` filled up with zeros to a whole number of bytes.
pub open spec fn padded(bits: Seq<bool>) -> Seq<bool> {
    bits + zero_bits(((8 - bits.len() % 8) % 8) as nat)
}

/// Collects bits and hands them out as bytes. Bits wait in a register until
/// sixteen are there, then leave as two bytes.
#[derive(Debug)]
pub struct Writer {
    v_out: Vec<u8>,
    buf: u32,
    width: u8,
}

impl Writer {
    /// All bits written so far, in order.
    pub closed spec fn view(&self) -> Seq<bool> {
        bytes_bits(self.v_out@) + bits_of(self.buf as int, self.width as nat)
    }

    /// Fewer than sixteen bits wait, and the register holds nothing else.
    pub closed spec fn wf(&self) -> bool {
        self.width < 16 && (self.buf as int) < pow2(self.width as nat)
    }

    /// A writer that holds no bits.
    pub fn new() -> (r: Self)
        ensures
            r.wf(),
            r@ == Seq::<bool>::empty(),
    {
        let r = Writer { v_out: Vec::new(), buf: 0, width: 0 };
        proof {
            lemma2_to64();
            assert(r@ =~= Seq::<bool>::empty());
        }
        r
    }

    /// Appends the low `bits.width` bits of `bits.data`.
    #[verifier::rlimit(40)]
    pub fn write_bits(&mut self, bits: Bits)
        requires
            old(self).wf(),
            bits.width <= 16,
        ensures
            final(self).wf(),
            final(self)@ == old(self)@ + bits_of(bits.data as int, bits.width as nat),
    {
        let w: u8 = bits.width;
        let d: u32 = bits.data as u32;
        let w0: u8 = self.width;
        let b0: u32 = self.buf;
        proof {
            lemma_pow2_pos(w as nat);
            if w < 16 {
                lemma2_to64();
                vstd::arithmetic::power2::lemma_pow2_strictly_increases(w as nat, 16);
                vstd::bits::lemma_u32_shl_is_mul(1, w as u32);
            }
        }
        let mask: u32 = if w == 16 {
            0xFFFF
        } else {
            (1u32 << w) - 1
        };
        let m: u32 = d & mask;
        let shifted: u32 = m << w0;
        let joined: u32 = b0 | shifted;
        proof {
            lemma2_to64();
            lemma_pow2_pos(w as nat);
            lemma_pow2_pos(w0 as nat);
            let pw = pow2(w as nat) as int;
            let pw0 = pow2(w0 as nat) as int;
            assert(pw <= 65536 && pw0 <= 32768) by {
                if w < 16 {
                    vstd::arithmetic::power2::lemma_pow2_strictly_increases(w as nat, 16);
                }
                if w0 < 15 {
                    vstd::arithmetic::power2::lemma_pow2_strictly_increases(w0 as nat, 15);
                }
            }
            vstd::bits::lemma_u32_shl_is_mul(1, w0 as u32);
            let one_w0: u32 = 1u32 << w0;
            assert(one_w0 == pw0);
            vstd::bits::lemma_u32_low_bits_mask_is_mod(d, w as nat);
            assert(mask as int == vstd::bits::low_bits_mask(w as nat));
            assert(m as int == d as int % pw);
            assert(m < 65536);
            assert(m * pw0 <= 0xFFFF_FFFF) by (nonlinear_arith)
                requires
                    m < 65536,
                    0 < pw0 <= 32768,
            ;
            vstd::bits::lemma_u32_shl_is_mul(m, w0 as u32);
            assert(shifted as int == m * pw0);
            assert(b0 | (m << w0) == b0 + (m << w0)) by (bit_vector)
                requires
                    b0 < (1u32 << w0),
                    w0 < 16,
                    m < 65536,
            ;
            assert(joined as int == b0 + m * pw0);
            lemma_pow2_adds(w0 as nat, w as nat);
            assert(b0 + m * pw0 < pw0 * pw) by (nonlinear_arith)
                requires
                    0 <= b0 < pw0,
                    0 <= m < pw,
            ;
            lemma_bits_of_concat(b0 as int, m as int, w0 as nat, w as nat);
            lemma_bits_of_mod(d as int, w as nat);
        }
        self.buf = joined;
        self.width = w0 + w;
        assert(self@ == old(self)@ + bits_of(bits.data as int, bits.width as nat));

        if self.width >= 16 {
            let x: u32 = self.buf;
            assert(x & 0xff == x % 256 && (x >> 8) & 0xff == (x / 256) % 256
                && x >> 16 == x / 65536)
                by (bit_vector);
            let low: u8 = (x & 0xff) as u8;
            let high: u8 = ((x >> 8) & 0xff) as u8;
            let rest: u32 = x >> 16;
            proof {
                let r = (self.width - 16) as nat;
                lemma_bits_of_split(x as int, 16, r);
                let y = x as int % 65536;
                lemma_bits_of_split(y, 8, 8);
                assert(y % 256 == low as int);
                assert(y / 256 == high as int);
                lemma_bytes_bits_push(self.v_out@, low);
                lemma_bytes_bits_push(self.v_out@.push(low), high);
                lemma_pow2_adds(16, r);
                assert((rest as int) < pow2(r)) by (nonlinear_arith)
                    requires
                        rest as int == x as int / 65536,
                        (x as int) < 65536 * pow2(r),
                        0 <= x,
                ;
                assert(bytes_bits(self.v_out@.push(low).push(high)) + bits_of(rest as int, r)
                    =~= bytes_bits(self.v_out@) + bits_of(x as int, 16 + r));
            }
            self.v_out.push(low);
            self.v_out.push(high);
            self.width -= 16;
            self.buf = rest;
        }
    }

    /// The bytes that hold all bits written, the last byte filled up with zeros.
    pub fn finish(self) -> (r: Vec<u8>)
        requires
            self.wf(),
        ensures
            bytes_bits(r@) == padded(self@),
            r@.len() == (self@.len() + 7) / 8,
    {
        let mut out = self.v_out;
        let x: u32 = self.buf;
        let width: u8 = self.width;
        proof {
            lemma2_to64();
            assert(bytes_bits(out@).len() % 8 == 0);
            assert(self@.len() == 8 * out@.len() + width);
        }
        assert(x & 0xff == x % 256 && (x >> 8) & 0xff == (x / 256) % 256) by (bit_vector);
        if width > 8 {
            let low: u8 = (x & 0xff) as u8;
            let high: u8 = ((x >> 8) & 0xff) as u8;
            proof {
                vstd::arithmetic::power2::lemma_pow2_strictly_increases(width as nat, 16);
                assert(x < 65536);
                lemma_bits_of_pad(x as int, width as nat, 16);
                lemma_bits_of_split(x as int, 8, 8);
                assert((x as int / 256) % 256 == x as int / 256);
                lemma_bytes_bits_push(out@, low);
                lemma_bytes_bits_push(out@.push(low), high);
                assert(((8 - self@.len() % 8) % 8) == 16 - width);
                let a = bytes_bits(out@);
                let tail = zero_bits((16 - width) as nat);
                assert(padded(self@) == (a + bits_of(x as int, width as nat)) + tail);
                assert(bits_of(x as int, 16) == bits_of(low as int, 8) + bits_of(high as int, 8));
                assert(bytes_bits(out@.push(low).push(high)) == (a + bits_of(low as int, 8)) + bits_of(
                    high as int,
                    8,
                ));
                assert((a + bits_of(low as int, 8)) + bits_of(high as int, 8) =~= a + (bits_of(
                    low as int,
                    8,
                ) + bits_of(high as int, 8)));
                assert((a + bits_of(x as int, width as nat)) + tail =~= a + (bits_of(
                    x as int,
                    width as nat,
                ) + tail));
            }
            out.push(low);
            out.push(high);
        } else if width > 0 {
            let low: u8 = (x & 0xff) as u8;
            proof {
                if width < 8 {
                    vstd::arithmetic::power2::lemma_pow2_strictly_increases(width as nat, 8);
                }
                lemma_bits_of_pad(x as int, width as nat, 8);
                lemma_bytes_bits_push(out@, low);
                assert(((8 - self@.len() % 8) % 8) == 8 - width);
                assert(bytes_bits(out@.push(low)) =~= padded(self@));
            }
            out.push(low);
        } else {
            proof {
                assert(bytes_bits(out@) =~= padded(self@));
            }
        }
        proof {
            assert(bytes_bits(out@).len() == 8 * out@.len());
        }
        out
    }
}

} // verus!
