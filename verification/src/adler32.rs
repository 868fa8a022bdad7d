//! Adler-32 rolling checksum.

use vstd::prelude::*;

verus! {

/// The largest prime below 2^16, the modulus of both running sums.
pub const BASE: u32 = 65521;

/// The two running sums `(s1, s2)` reached from `start` after the bytes of `s`.
pub open spec fn adler_fold(start: (int, int), s: Seq<u8>) -> (int, int)
    decreases s.len(),
{
    if s.len() == 0 {
        start
    } else {
        let (a, b) = adler_fold(start, s.drop_last());
        let a2 = (a + s.last() as int) % 65521;
        (a2, (b + a2) % 65521)
    }
}

/// The Adler-32 checksum of `s` as one number: `s2` in the high half, `s1` in the low.
pub open spec fn adler32_value(s: Seq<u8>) -> int {
    adler_fold((1, 0), s).1 * 65536 + adler_fold((1, 0), s).0
}

/// The four bytes of `v`, most significant first.
pub open spec fn be_bytes(v: int) -> Seq<u8> {
    seq![
        ((v / 16777216) % 256) as u8,
        ((v / 65536) % 256) as u8,
        ((v / 256) % 256) as u8,
        (v % 256) as u8,
    ]
}

/// The serialized Adler-32 checksum of `s`.
pub open spec fn adler32_bytes(s: Seq<u8>) -> Seq<u8> {
    be_bytes(adler32_value(s))
}

/// Reduced sums stay reduced.
pub proof fn lemma_adler_fold_bounded(start: (int, int), s: Seq<u8>)
    requires
        0 <= start.0 < 65521,
        0 <= start.1 < 65521,
    ensures
        0 <= adler_fold(start, s).0 < 65521,
        0 <= adler_fold(start, s).1 < 65521,
    decreases s.len(),
{
    if s.len() > 0 {
        lemma_adler_fold_bounded(start, s.drop_last());
    }
}

/// Feeding `s` and then `t` is feeding `s + t`.
pub proof fn lemma_adler_fold_concat(start: (int, int), s: Seq<u8>, t: Seq<u8>)
    ensures
        adler_fold(adler_fold(start, s), t) == adler_fold(start, s + t),
    decreases t.len(),
{
    if t.len() == 0 {
        assert(s + t == s);
    } else {
        lemma_adler_fold_concat(start, s, t.drop_last());
        assert((s + t).drop_last() == s + t.drop_last());
    }
}

/// A running Adler-32 checksum: the two sums reached so far.
#[derive(Debug, Clone, Copy)]
pub struct Adler32(u32, u32);

impl Adler32 {
    /// The sums held, as `(s1, s2)`.
    pub closed spec fn view(&self) -> (int, int) {
        (self.0 as int, self.1 as int)
    }

    /// Both sums are reduced modulo `BASE`.
    pub closed spec fn wf(&self) -> bool {
        self.0 < 65521 && self.1 < 65521
    }

    /// A checksum of no bytes: the sums 1 and 0.
    pub fn new() -> (r: Self)
        ensures
            r.wf(),
            r@ == (1int, 0int),
    {
        Adler32(1, 0)
    }

    /// Feeds the bytes of `buf` into the sums.
    pub fn update(&mut self, buf: &[u8])
        requires
            old(self).wf(),
        ensures
            final(self).wf(),
            final(self)@ == adler_fold(old(self)@, buf@),
    {
        let mut i: usize = 0;
        while i < buf.len()
            invariant
                0 <= i <= buf.len(),
                self.wf(),
                self@ == adler_fold(old(self)@, buf@.subrange(0, i as int)),
            decreases buf.len() - i,
        {
            let byte: u8 = buf[i];
            self.0 = (self.0 + byte as u32) % BASE;
            self.1 = (self.1 + self.0) % BASE;
            proof {
                assert(buf@.subrange(0, i as int + 1).drop_last() == buf@.subrange(0, i as int));
            }
            i += 1;
        }
        proof {
            assert(buf@.subrange(0, buf.len() as int) == buf@);
        }
    }

    /// The checksum of the bytes fed so far: the second sum and then the first, each
    /// as two bytes, most significant first.
    pub fn checksum(&self) -> (r: [u8; 4])
        requires
            self.wf(),
        ensures
            r@ == be_bytes(self@.1 * 65536 + self@.0),
    {
        let a: u32 = self.0;
        let b: u32 = self.1;
        let v: u32 = b << 16 | a;
        assert(v == b * 65536 + a && (v >> 24) & 0xff == (v / 16777216) % 256
            && (v >> 16) & 0xff == (v
            / 65536) % 256 && (v >> 8) & 0xff == (v / 256) % 256 && v & 0xff == v % 256)
            by (bit_vector)
            requires
                v == b << 16 | a,
                a < 65521,
                b < 65521,
        ;
        let r: [u8; 4] = [
            ((v >> 24) & 0xff) as u8,
            ((v >> 16) & 0xff) as u8,
            ((v >> 8) & 0xff) as u8,
            (v & 0xff) as u8,
        ];
        assert(r@ =~= be_bytes(self@.1 * 65536 + self@.0));
        r
    }
}

} // verus!
