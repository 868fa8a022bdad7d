//! Huffman decoding by table: building the tables from code lengths, and
//! reading symbols through them.

use crate::bits::{lemma_rev_bits_bound, rev_bits, Bits};
use crate::btype::BlockType;
use crate::canonical::{
    canon_code, count_width, decoder_ok, entry_in_width, entry_upto, eob_width, first_code,
    lemma_canon_code_nonneg, lemma_max_width_bound, lemma_max_width_within, lemma_rev_bits_low,
    lemma_table_entry_shape, max_width, pack, slot, table_entry, widths_within, NO_ENTRY,
};
use crate::code::{
    distance_entry, lemma_distance_table_bounds, lemma_length_table_bounds, length_entry, Code,
};
use crate::error::Error;
use crate::reader::{lemma_stream_value_bound, stream_value, Reader};
use crate::stream::{
    code_at, decode_at, dynamic_tables, fixed_distance_widths, fixed_literal_widths, literal_at,
    next_run_at, pointer_at, read_code_widths, read_widths, repeat, run_at, width_code_order,
};
use vstd::arithmetic::div_mod::{lemma_fundamental_div_mod, lemma_fundamental_div_mod_converse};
use vstd::arithmetic::power2::{
    lemma2_to64, lemma_pow2_adds, lemma_pow2_pos, lemma_pow2_strictly_increases, pow2,
};
use vstd::prelude::*;

verus! {

/// `2^15`, the size of the largest table.
pub proof fn lemma_pow2_up_to_15(w: nat)
    requires
        w <= 15,
    ensures
        1 <= pow2(w) <= 32768,
{
    lemma2_to64();
    lemma_pow2_pos(w);
    if w < 15 {
        lemma_pow2_strictly_increases(w, 15);
    }
}

/// A table for code lengths of up to 15 bits has at most `2^15` slots.
pub proof fn lemma_table_size(widths: Seq<u8>)
    requires
        widths_within(widths, 15),
    ensures
        1 <= pow2(max_width(widths) as nat) <= 32768,
{
    lemma_max_width_within(widths, 15);
    lemma_pow2_up_to_15(max_width(widths) as nat);
}

/// The greatest code length in `widths`.
pub fn max_width_of(widths: &[u8]) -> (r: u8)
    ensures
        r as int == max_width(widths@),
{
    let mut r: u8 = 0;
    let mut i: usize = 0;
    while i < widths.len()
        invariant
            i <= widths.len(),
            r as int == max_width(widths@.subrange(0, i as int)),
        decreases widths.len() - i,
    {
        proof {
            assert(widths@.subrange(0, i + 1).drop_last() == widths@.subrange(0, i as int));
        }
        if widths[i] > r {
            r = widths[i];
        }
        i += 1;
    }
    proof {
        assert(widths@.subrange(0, widths@.len() as int) == widths@);
    }
    r
}

/// Where the table of the literal/length code starts.
pub const LITERAL_BASE: usize = 0;

/// Where the table of the distance code starts.
pub const DISTANCE_BASE: usize = 0x8000;

/// The tables of one block in the memory lent for them: how wide their
/// codes get, and the code lengths that they were built from.
pub struct HuffmanDecoder<'a> {
    pub buf: &'a mut [i32; 0x10000],
    pub eob_width: u8,
    pub max_lwidth: u8,
    pub max_dwidth: u8,
    pub lit: Ghost<Seq<u8>>,
    pub dist: Ghost<Seq<u8>>,
}

impl<'a> Reader<'a> {
    /// Takes one symbol of the code whose table is at `base`.
    pub(crate) fn get_code(
        &mut self,
        buf: &[i32; 0x10000],
        base: usize,
        max_width: u8,
        Ghost(widths): Ghost<Seq<u8>>,
    ) -> (r: Result<u16, Error>)
        requires
            old(self).wf(),
            decoder_ok(buf@, base as int, max_width as int, widths),
            max_width as int == crate::canonical::max_width(widths),
            widths.len() <= 0x10000,
        ensures
            final(self).wf(),
            final(self).input() == old(self).input(),
            match code_at(widths, old(self).input(), old(self).pos()) {
                Ok((sym, p)) => r == Ok::<u16, Error>(sym as u16) && final(self).pos() == p
                    && old(self).pos() < p <= 8 * old(self).input().len()
                    && 0 <= sym < widths.len(),
                Err(e) => r == Err::<u16, Error>(e),
            },
    {
        let ghost idx = stream_value(self.input(), self.pos(), max_width as nat);
        proof {
            lemma_stream_value_bound(self.input(), self.pos(), max_width as nat);
            lemma_table_entry_shape(widths, idx);
            self.lemma_wf_pos();
        }
        let code = self.peek_bits(max_width);
        let e: i32 = buf[base + code as usize];
        assert(e as int == slot(buf@, base as int, idx));
        let width: u8 = (e % 32) as u8;
        let sym: u16 = (e / 32) as u16;
        if width > max_width {
            return Err(Error::InvalidWidth);
        }
        match self.skip_bits(width) {
            Err(e) => Err(e),
            Ok(()) => Ok(sym),
        }
    }

    /// What the code-length symbol `code` adds to the lengths read so far:
    /// the length and how many times it comes.
    pub fn load_widthes(&mut self, code: u16, last: Option<u8>) -> (r: Result<(u8, usize), Error>)
        requires
            old(self).wf(),
        ensures
            final(self).wf(),
            final(self).input() == old(self).input(),
            match run_at(code as int, last, old(self).input(), old(self).pos()) {
                Ok((x, count, p)) => r == Ok::<(u8, usize), Error>((x, count as usize))
                    && final(self).pos() == p && 3 <= count + 2 <= 140
                    && old(self).pos() <= p <= 8 * old(self).input().len()
                    && (x as int == code || last == Some(x) || x == 0),
                Err(e) => r == Err::<(u8, usize), Error>(e),
            },
    {
        proof {
            vstd::arithmetic::power2::lemma2_to64();
            lemma_stream_value_bound(self.input(), self.pos(), 2);
            lemma_stream_value_bound(self.input(), self.pos(), 3);
            lemma_stream_value_bound(self.input(), self.pos(), 7);
            self.lemma_wf_pos();
        }
        if code < 16 {
            Ok((code as u8, 1))
        } else if code == 16 {
            match self.read_bits(2) {
                Err(e) => Err(e),
                Ok(n) => match last {
                    None => Err(Error::NoPreviousWidth),
                    Some(x) => Ok((x, n as usize + 3)),
                },
            }
        } else if code == 17 {
            match self.read_bits(3) {
                Err(e) => Err(e),
                Ok(n) => Ok((0, n as usize + 3)),
            }
        } else if code == 18 {
            match self.read_bits(7) {
                Err(e) => Err(e),
                Ok(n) => Ok((0, n as usize + 11)),
            }
        } else {
            Err(Error::InvalidCodeLengths)
        }
    }
}

impl<'a> HuffmanDecoder<'a> {
    /// The tables held are those of this decoder's code lengths.
    pub open spec fn wf(&self) -> bool {
        &&& self.lit@.len() <= 0x10000
        &&& self.dist@.len() <= 0x10000
        &&& self.max_lwidth as int == max_width(self.lit@)
        &&& self.max_dwidth as int == max_width(self.dist@)
        &&& self.eob_width as int == eob_width(self.lit@)
        &&& decoder_ok(self.buf@, 0, self.max_lwidth as int, self.lit@)
        &&& decoder_ok(self.buf@, 0x8000, self.max_dwidth as int, self.dist@)
    }

    /// The code lengths of the two alphabets of a fixed block.
    pub fn fixed_widths() -> (r: (Vec<u8>, Vec<u8>))
        ensures
            r.0@ == fixed_literal_widths(),
            r.1@ == fixed_distance_widths(),
    {
        let mut lit: Vec<u8> = Vec::new();
        let mut i: usize = 0;
        while i < 288
            invariant
                i <= 288,
                lit@.len() == i,
                forall|k: int| 0 <= k < i ==> lit@[k] == fixed_literal_widths()[k],
            decreases 288 - i,
        {
            let w: u8 = if i < 144 {
                8
            } else if i < 256 {
                9
            } else if i < 280 {
                7
            } else {
                8
            };
            lit.push(w);
            i += 1;
        }
        let mut dist: Vec<u8> = Vec::new();
        let mut j: usize = 0;
        while j < 30
            invariant
                j <= 30,
                dist@.len() == j,
                forall|k: int| 0 <= k < j ==> dist@[k] == 5,
            decreases 30 - j,
        {
            dist.push(5);
            j += 1;
        }
        proof {
            assert(lit@ =~= fixed_literal_widths());
            assert(dist@ =~= fixed_distance_widths());
        }
        (lit, dist)
    }

    /// The place of the `k`-th length field of a dynamic block's header in the
    /// code-length alphabet.
    pub fn width_code_order_at(k: usize) -> (r: usize)
        requires
            k < 19,
        ensures
            r as int == width_code_order()[k as int],
            r < 19,
    {
        if k == 0 {
            16
        } else if k == 1 {
            17
        } else if k == 2 {
            18
        } else if k == 3 {
            0
        } else if k % 2 == 0 {
            8 + (k - 4) / 2
        } else {
            7 - (k - 5) / 2
        }
    }

    /// Reads `count` fields of three bits: the lengths of the codes that the
    /// code lengths are written in.
    pub fn read_code_width_fields(reader: &mut Reader, count: usize) -> (r: Result<Vec<u8>, Error>)
        requires
            old(reader).wf(),
            4 <= count <= 19,
        ensures
            final(reader).wf(),
            final(reader).input() == old(reader).input(),
            old(reader).pos() + 3 * count <= 8 * old(reader).input().len() ==> r is Ok && r->Ok_0@
                == read_code_widths(old(reader).input(), old(reader).pos(), count as int)
                && final(reader).pos() == old(reader).pos() + 3 * count && widths_within(
                r->Ok_0@,
                7,
            ) && r->Ok_0@.len() == 19,
            old(reader).pos() + 3 * count > 8 * old(reader).input().len() ==> r == Err::<
                Vec<u8>,
                Error,
            >(Error::BufferOverflow),
    {
        let ghost input = reader.input();
        let ghost pos = reader.pos();
        let mut widths: Vec<u8> = Vec::new();
        let mut i: usize = 0;
        while i < 19
            invariant
                i <= 19,
                widths@.len() == i,
                forall|k: int| 0 <= k < i ==> widths@[k] == 0,
            decreases 19 - i,
        {
            widths.push(0);
            i += 1;
        }
        proof {
            assert(widths@ =~= read_code_widths(input, pos, 0));
        }
        let mut k: usize = 0;
        while k < count
            invariant
                k <= count <= 19,
                reader.wf(),
                input == old(reader).input(),
                pos == old(reader).pos(),
                reader.input() == input,
                reader.pos() == pos + 3 * k,
                widths@.len() == 19,
                widths@ == read_code_widths(input, pos, k as int),
                widths_within(widths@, 7),
            decreases count - k,
        {
            proof {
                lemma_stream_value_bound(input, pos + 3 * k, 3);
                vstd::arithmetic::power2::lemma2_to64();
            }
            let bits: u16 = match reader.read_bits(3) {
                Err(e) => {
                    return Err(e);
                },
                Ok(x) => x,
            };
            let at: usize = Self::width_code_order_at(k);
            widths[at] = bits as u8;
            k += 1;
        }
        proof {
            reader.lemma_wf_pos();
        }
        Ok(widths)
    }

    /// Takes the next symbol of the code-length alphabet with its extra bits.
    pub(crate) fn next_run(
        reader: &mut Reader,
        buf: &[i32; 0x10000],
        max_width: u8,
        last: Option<u8>,
        Ghost(clw): Ghost<Seq<u8>>,
    ) -> (r: Result<(u8, usize), Error>)
        requires
            old(reader).wf(),
            decoder_ok(buf@, 0, max_width as int, clw),
            max_width as int == crate::canonical::max_width(clw),
            clw.len() == 19,
        ensures
            final(reader).wf(),
            final(reader).input() == old(reader).input(),
            match next_run_at(clw, old(reader).input(), old(reader).pos(), last) {
                Ok((x, count, p)) => r == Ok::<(u8, usize), Error>((x, count as usize))
                    && final(reader).pos() == p && 1 <= count <= 138
                    && old(reader).pos() < p <= 8 * old(reader).input().len()
                    && (x <= 15 || last == Some(x)),
                Err(e) => r == Err::<(u8, usize), Error>(e),
            },
    {
        let code: u16 = match reader.get_code(buf, LITERAL_BASE, max_width, Ghost(clw)) {
            Err(e) => {
                return Err(e);
            },
            Ok(x) => x,
        };
        reader.load_widthes(code, last)
    }

    /// Reads `target` code lengths, written in the code whose table is at the
    /// start of `buf`.
    #[verifier::rlimit(40)]
    pub(crate) fn read_code_lengths(
        reader: &mut Reader,
        buf: &[i32; 0x10000],
        max_width: u8,
        target: usize,
        Ghost(clw): Ghost<Seq<u8>>,
    ) -> (r: Result<Vec<u8>, Error>)
        requires
            old(reader).wf(),
            decoder_ok(buf@, 0, max_width as int, clw),
            max_width as int == crate::canonical::max_width(clw),
            clw.len() == 19,
            target <= 1024,
        ensures
            final(reader).wf(),
            final(reader).input() == old(reader).input(),
            match read_widths(
                clw,
                old(reader).input(),
                old(reader).pos(),
                Seq::empty(),
                target as int,
            ) {
                Ok((all, p)) => r is Ok && r->Ok_0@ == all && final(reader).pos() == p
                    && old(reader).pos() <= p <= 8 * old(reader).input().len()
                    && all.len() == target
                    && widths_within(all, 15),
                Err(e) => r == Err::<Vec<u8>, Error>(e),
            },
    {
        let ghost input = reader.input();
        let ghost pos = reader.pos();
        let mut all: Vec<u8> = Vec::new();
        proof {
            reader.lemma_wf_pos();
        }
        while all.len() < target
            invariant
                reader.wf(),
                reader.input() == input,
                decoder_ok(buf@, 0, max_width as int, clw),
                max_width as int == crate::canonical::max_width(clw),
                clw.len() == 19,
                target <= 1024,
                all@.len() <= target,
                widths_within(all@, 15),
                input == old(reader).input(),
                pos == old(reader).pos(),
                pos <= reader.pos() <= 8 * input.len(),
                read_widths(clw, input, reader.pos(), all@, target as int) == read_widths(
                    clw,
                    input,
                    pos,
                    Seq::empty(),
                    target as int,
                ),
            decreases target - all.len(),
        {
            let last: Option<u8> = if all.len() > 0 {
                Some(all[all.len() - 1])
            } else {
                None
            };
            let (x, count) = match Self::next_run(reader, buf, max_width, last, Ghost(clw)) {
                Err(e) => {
                    return Err(e);
                },
                Ok(x) => x,
            };
            if all.len() + count > target {
                return Err(Error::InvalidCodeLengths);
            }
            let ghost before = all@;
            proof {
                if last is Some {
                    assert(before[before.len() - 1] as int <= 15);
                }
            }
            let mut k: usize = 0;
            while k < count
                invariant
                    k <= count,
                    all@ == before + repeat(x, k as int),
                decreases count - k,
            {
                all.push(x);
                k += 1;
                proof {
                    assert(before + repeat(x, k as int) =~= (before + repeat(x, k - 1)).push(x));
                }
            }
            proof {
                assert forall|i: int| 0 <= i < all@.len() implies #[trigger] all@[i] as int <= 15 by {
                    if i < before.len() {
                        assert(before[i] as int <= 15);
                    }
                }
            }
        }
        Ok(all)
    }

    /// Builds the tables of a block of the given type, for a dynamic block
    /// from the header that the reader stands at.
    pub fn new(btype: BlockType, reader: &mut Reader, buf: &'a mut [i32; 0x10000]) -> (r: Result<
        Self,
        Error,
    >)
        requires
            old(reader).wf(),
            btype != BlockType::Raw,
        ensures
            final(reader).wf(),
            final(reader).input() == old(reader).input(),
            r is Ok ==> r->Ok_0.wf() && old(reader).pos() <= final(reader).pos() <= 8
                * old(reader).input().len(),
            btype == BlockType::Fixed ==> r is Ok && r->Ok_0.lit@ == fixed_literal_widths()
                && r->Ok_0.dist@ == fixed_distance_widths()
                    && final(reader).pos() == old(reader).pos(),
            btype == BlockType::Dynamic ==> match dynamic_tables(
                old(reader).input(),
                old(reader).pos(),
            ) {
                Ok((lit, dist, p)) => r is Ok && r->Ok_0.lit@ == lit && r->Ok_0.dist@ == dist
                    && final(reader).pos() == p,
                Err(e) => r is Err && r->Err_0 == e,
            },
    {
        proof {
            reader.lemma_wf_pos();
        }
        let (lit, dist) = match btype {
            BlockType::Fixed => Self::fixed_widths(),
            _ => {
                match Self::read_dynamic_widths(reader, buf) {
                    Err(e) => {
                        return Err(e);
                    },
                    Ok(x) => x,
                }
            },
        };
        proof {
            lemma_table_size(lit@);
            lemma_table_size(dist@);
        }
        let (max_lwidth, eob_width) = Self::from_widthes(buf, LITERAL_BASE, lit.as_slice());
        let ghost mid = buf@;
        let (max_dwidth, _) = Self::from_widthes(buf, DISTANCE_BASE, dist.as_slice());
        proof {
            lemma_pow2_up_to_15(max_lwidth as nat);
            assert forall|idx: int| 0 <= idx < pow2(max_lwidth as nat) implies #[trigger] slot(
                buf@,
                0,
                idx,
            ) == table_entry(lit@, idx) by {
                assert(slot(mid, 0, idx) == table_entry(lit@, idx));
            }
        }
        Ok(HuffmanDecoder { buf, eob_width, max_lwidth, max_dwidth, lit: Ghost(lit@), dist: Ghost(dist@) })
    }

    /// Reads the header of a dynamic block: the code lengths of its two
    /// alphabets.
    pub fn read_dynamic_widths(reader: &mut Reader, buf: &mut [i32; 0x10000]) -> (r: Result<
        (Vec<u8>, Vec<u8>),
        Error,
    >)
        requires
            old(reader).wf(),
        ensures
            final(reader).wf(),
            final(reader).input() == old(reader).input(),
            match dynamic_tables(old(reader).input(), old(reader).pos()) {
                Ok((lit, dist, p)) => r is Ok && r->Ok_0.0@ == lit && r->Ok_0.1@ == dist
                    && final(reader).pos() == p
                    && old(reader).pos() <= p <= 8 * old(reader).input().len()
                    && widths_within(lit, 15) && widths_within(dist, 15) && lit.len() <= 288
                    && dist.len() <= 32,
                Err(e) => r is Err && r->Err_0 == e,
            },
    {
        let ghost input = reader.input();
        let ghost pos = reader.pos();
        proof {
            reader.lemma_wf_pos();
            vstd::arithmetic::power2::lemma2_to64();
            lemma_stream_value_bound(input, pos, 5);
            lemma_stream_value_bound(input, pos + 5, 5);
            lemma_stream_value_bound(input, pos + 10, 4);
        }
        let hlit: u16 = match reader.read_bits(5) {
            Err(e) => {
                return Err(e);
            },
            Ok(x) => x,
        };
        let hdist: u16 = match reader.read_bits(5) {
            Err(e) => {
                return Err(e);
            },
            Ok(x) => x,
        };
        let hclen: u16 = match reader.read_bits(4) {
            Err(e) => {
                return Err(e);
            },
            Ok(x) => x,
        };
        let lcount: usize = hlit as usize + 257;
        let dcount: usize = hdist as usize + 1;
        let wcount: usize = hclen as usize + 4;
        let clw: Vec<u8> = match Self::read_code_width_fields(reader, wcount) {
            Err(e) => {
                return Err(e);
            },
            Ok(x) => x,
        };
        proof {
            assert(widths_within(clw@, 15)) by {
                assert forall|i: int| 0 <= i < clw@.len() implies #[trigger] clw@[i] as int <= 15 by {
                    assert(clw@[i] as int <= 7);
                }
            }
        }
        proof {
            lemma_table_size(clw@);
        }
        let (max_wwidth, _) = Self::from_widthes(buf, LITERAL_BASE, clw.as_slice());
        let all: Vec<u8> = match Self::read_code_lengths(
            reader,
            buf,
            max_wwidth,
            lcount + dcount,
            Ghost(clw@),
        ) {
            Err(e) => {
                return Err(e);
            },
            Ok(x) => x,
        };
        let mut lit: Vec<u8> = Vec::new();
        let mut i: usize = 0;
        while i < lcount
            invariant
                i <= lcount,
                lcount + dcount == all@.len(),
                lit@ == all@.subrange(0, i as int),
            decreases lcount - i,
        {
            lit.push(all[i]);
            i += 1;
            proof {
                assert(all@.subrange(0, i as int) =~= all@.subrange(0, i - 1).push(all@[i - 1]));
            }
        }
        let mut dist: Vec<u8> = Vec::new();
        let mut j: usize = 0;
        while j < dcount
            invariant
                j <= dcount,
                lcount + dcount == all@.len(),
                lcount + dcount <= 1024,
                dist@ == all@.subrange(lcount as int, lcount + j),
            decreases dcount - j,
        {
            dist.push(all[lcount + j]);
            j += 1;
            proof {
                assert(all@.subrange(lcount as int, lcount + j) =~= all@.subrange(
                    lcount as int,
                    lcount + j - 1,
                ).push(all@[lcount + j - 1]));
            }
        }
        proof {
            assert forall|i: int| 0 <= i < lit@.len() implies #[trigger] lit@[i] as int <= 15 by {
                assert(all@[i] as int <= 15);
            }
            assert forall|i: int| 0 <= i < dist@.len() implies #[trigger] dist@[i] as int <= 15 by {
                assert(all@[lcount + i] as int <= 15);
            }
        }
        Ok((lit, dist))
    }

    /// Takes one literal/length symbol: first with a look at as many bits as
    /// the end-of-block code has, then, if that shows a longer code, at as many
    /// as the longest code has.
    pub fn decode_symbol(&self, reader: &mut Reader) -> (r: Result<u16, Error>)
        requires
            old(reader).wf(),
            self.wf(),
        ensures
            final(reader).wf(),
            final(reader).input() == old(reader).input(),
            match literal_at(self.lit@, old(reader).input(), old(reader).pos()) {
                Ok((sym, p)) => r == Ok::<u16, Error>(sym as u16) && final(reader).pos() == p
                    && old(reader).pos() < p <= 8 * old(reader).input().len() && 0 <= sym < 0x10000,
                Err(e) => r == Err::<u16, Error>(e),
            },
    {
        let ghost input = reader.input();
        let ghost pos = reader.pos();
        let ghost short_idx = stream_value(input, pos, self.eob_width as nat);
        proof {
            reader.lemma_wf_pos();
            lemma_stream_value_bound(input, pos, self.eob_width as nat);
            lemma_table_entry_shape(self.lit@, short_idx);
            if self.lit@.len() > 256 {
                lemma_max_width_bound(self.lit@, 256);
            }
            if self.eob_width < self.max_lwidth {
                lemma_pow2_strictly_increases(self.eob_width as nat, self.max_lwidth as nat);
            }
        }
        let code = reader.peek_bits(self.eob_width);
        let e: i32 = self.buf[code as usize];
        assert(e as int == slot(self.buf@, 0, short_idx));
        if (e % 32) as u8 > self.eob_width {
            return reader.get_code(&*self.buf, LITERAL_BASE, self.max_lwidth, Ghost(self.lit@));
        }
        let width: u8 = (e % 32) as u8;
        let sym: u16 = (e / 32) as u16;
        match reader.skip_bits(width) {
            Err(e) => Err(e),
            Ok(()) => Ok(sym),
        }
    }

    /// Takes what follows the length symbol `sym`: its extra bits, the
    /// distance symbol and its extra bits.
    pub fn decode_pointer(&self, sym: u16, reader: &mut Reader) -> (r: Result<Code, Error>)
        requires
            old(reader).wf(),
            self.wf(),
            257 <= sym <= 285,
        ensures
            final(reader).wf(),
            final(reader).input() == old(reader).input(),
            match pointer_at(sym as int, self.dist@, old(reader).input(), old(reader).pos()) {
                Ok((code, p)) => r == Ok::<Code, Error>(code) && final(reader).pos() == p
                    && old(reader).pos() < p <= 8 * old(reader).input().len() && code.wf()
                    && code is Pointer,
                Err(e) => r == Err::<Code, Error>(e),
            },
    {
        let ghost input = reader.input();
        let ghost pos = reader.pos();
        let (base, extra) = length_entry(sym as usize - 257);
        proof {
            reader.lemma_wf_pos();
            lemma_length_table_bounds(sym - 257);
            lemma_stream_value_bound(input, pos, extra as nat);
            vstd::arithmetic::power2::lemma2_to64();
        }
        let more: u16 = match reader.read_bits(extra) {
            Err(e) => {
                return Err(e);
            },
            Ok(x) => x,
        };
        let dsym: u16 = match reader.get_code(
            &*self.buf,
            DISTANCE_BASE,
            self.max_dwidth,
            Ghost(self.dist@),
        ) {
            Err(e) => {
                return Err(e);
            },
            Ok(x) => x,
        };
        if dsym >= 30 {
            return Err(Error::InvalidSymbol);
        }
        let ghost p3 = reader.pos();
        let (dbase, dextra) = distance_entry(dsym as usize);
        proof {
            lemma_distance_table_bounds(dsym as int);
            lemma_stream_value_bound(input, p3, dextra as nat);
        }
        let dmore: u16 = match reader.read_bits(dextra) {
            Err(e) => {
                return Err(e);
            },
            Ok(x) => x,
        };
        Ok(Code::Pointer { distance: dbase + dmore, length: base + more as u8 })
    }

    /// Takes one code of a block's body.
    pub fn decode(&self, reader: &mut Reader) -> (r: Result<Code, Error>)
        requires
            old(reader).wf(),
            self.wf(),
        ensures
            final(reader).wf(),
            final(reader).input() == old(reader).input(),
            match decode_at(self.lit@, self.dist@, old(reader).input(), old(reader).pos()) {
                Ok((code, p)) => r == Ok::<Code, Error>(code) && final(reader).pos() == p
                    && old(reader).pos() < p <= 8 * old(reader).input().len() && code.wf(),
                Err(e) => r == Err::<Code, Error>(e),
            },
    {
        let sym: u16 = match self.decode_symbol(reader) {
            Err(e) => {
                return Err(e);
            },
            Ok(x) => x,
        };
        if sym < 256 {
            Ok(Code::Literal(sym as u8))
        } else if sym == 256 {
            Ok(Code::EndOfBlock)
        } else if sym > 285 {
            Err(Error::InvalidSymbol)
        } else {
            self.decode_pointer(sym, reader)
        }
    }

    /// Enters the symbol `code`, whose canonical code is the low `width` bits
    /// of `data`, into the table at `base`: into every slot whose index starts,
    /// low bit first, with the code as sent.
    #[verifier::rlimit(40)]
    pub fn set_mapping(
        buf: &mut [i32; 0x10000],
        base: usize,
        code: u16,
        data: u16,
        width: u8,
        max_width: u8,
    )
        requires
            1 <= width <= max_width <= 15,
            base + pow2(max_width as nat) <= 0x10000,
        ensures
            forall|idx: int|
                0 <= idx < pow2(max_width as nat) ==> #[trigger] slot(final(buf)@, base as int, idx)
                    == if idx % pow2(width as nat) as int == rev_bits(data as int, width as nat) {
                    pack(code as int, width as int)
                } else {
                    slot(old(buf)@, base as int, idx)
                },
            forall|k: int|
                0 <= k < 0x10000 && !(base <= k < base + pow2(max_width as nat)) ==> final(buf)@[k]
                    == old(buf)@[k],
    {
        let bits = Bits { data, width }.reverse();
        let r: usize = bits.data as usize;
        proof {
            lemma_rev_bits_bound(data as int, width as nat);
            lemma_pow2_up_to_15(width as nat);
            lemma_pow2_up_to_15((max_width - width) as nat);
            lemma_pow2_up_to_15(max_width as nat);
            lemma_pow2_adds(width as nat, (max_width - width) as nat);
            vstd::bits::lemma_u32_shl_is_mul(1, width as u32);
            vstd::bits::lemma_u32_shl_is_mul(1, (max_width - width) as u32);
        }
        let step: usize = (1u32 << width) as usize;
        let count: usize = (1u32 << (max_width - width)) as usize;
        let entry: i32 = (code as i32) * 32 + width as i32;
        let ghost pmax = pow2(max_width as nat) as int;
        let mut padding: usize = 0;
        while padding < count
            invariant
                padding <= count,
                step as int == pow2(width as nat),
                step * count == pmax,
                pmax == pow2(max_width as nat),
                0 <= r < step,
                base + pmax <= 0x10000,
                entry as int == pack(code as int, width as int),
                forall|idx: int|
                    0 <= idx < pmax ==> #[trigger] slot(buf@, base as int, idx) == if idx % (
                    step as int) == r && idx / (step as int) < padding {
                        entry as int
                    } else {
                        slot(old(buf)@, base as int, idx)
                    },
                forall|k: int|
                    0 <= k < 0x10000 && !(base <= k < base + pmax) ==> buf@[k] == old(buf)@[k],
            decreases count - padding,
        {
            proof {
                assert(padding * step + r < step * count) by (nonlinear_arith)
                    requires
                        padding < count,
                        0 <= r < step,
                ;
            }
            let index: usize = padding * step + r;
            let ghost before = buf@;
            buf[base + index] = entry;
            proof {
                lemma_fundamental_div_mod_converse(index as int, step as int, padding as int, r as int);
                assert forall|idx: int| 0 <= idx < pmax implies #[trigger] slot(buf@, base as int, idx)
                    == if idx % (step as int) == r && idx / (step as int) < padding + 1 {
                    entry as int
                } else {
                    slot(old(buf)@, base as int, idx)
                } by {
                    if idx != index {
                        assert(slot(buf@, base as int, idx) == slot(before, base as int, idx));
                        if idx % (step as int) == r && idx / (step as int) == padding {
                            lemma_fundamental_div_mod(idx, step as int);
                            assert(step * (idx / (step as int)) == padding * step) by (nonlinear_arith)
                                requires
                                    idx / (step as int) == padding,
                            ;
                        }
                    }
                }
            }
            padding += 1;
        }
        proof {
            assert forall|idx: int| 0 <= idx < pmax implies #[trigger] slot(buf@, base as int, idx)
                == if idx % pow2(width as nat) as int == rev_bits(data as int, width as nat) {
                pack(code as int, width as int)
            } else {
                slot(old(buf)@, base as int, idx)
            } by {
                lemma_fundamental_div_mod(idx, step as int);
                let q = idx / (step as int);
                if q >= count {
                    assert(step * q >= step * count) by (nonlinear_arith)
                        requires
                            q >= count,
                            step > 0,
                    ;
                }
            }
        }
    }

    /// Enters the symbols whose code has `w` bits into the table at `base`, in
    /// the order of the symbols. `code` is the first code of that width; the
    /// result is the code after the last.
    #[verifier::rlimit(40)]
    fn enter_width(
        buf: &mut [i32; 0x10000],
        base: usize,
        widths: &[u8],
        max_width: u8,
        w: u8,
        code: u32,
    ) -> (next: u32)
        requires
            1 <= w <= 15,
            max_width as int == crate::canonical::max_width(widths@),
            max_width <= 15,
            widths@.len() <= 0x10000,
            base + pow2(max_width as nat) <= 0x10000,
            code < 65536,
            code as int == first_code(widths@, w as int) % 65536,
            forall|idx: int|
                0 <= idx < pow2(max_width as nat) ==> #[trigger] slot(old(buf)@, base as int, idx)
                    == entry_upto(widths@, idx, w - 1),
        ensures
            next < 65536,
            next as int == (first_code(widths@, w as int) + count_width(
                widths@,
                w as int,
                widths@.len() as int,
            )) % 65536,
            forall|idx: int|
                0 <= idx < pow2(max_width as nat) ==> #[trigger] slot(final(buf)@, base as int, idx)
                    == entry_upto(widths@, idx, w as int),
            forall|k: int|
                0 <= k < 0x10000 && !(base <= k < base + pow2(max_width as nat)) ==> final(buf)@[k]
                    == old(buf)@[k],
    {
        let n: usize = widths.len();
        let ghost pmax = pow2(max_width as nat) as int;
        let mut code: u32 = code;
        let mut s: usize = 0;
        while s < n
            invariant
                1 <= w <= 15,
                s <= n,
                n == widths@.len(),
                n <= 0x10000,
                max_width as int == crate::canonical::max_width(widths@),
                max_width <= 15,
                pmax == pow2(max_width as nat),
                base + pmax <= 0x10000,
                code < 65536,
                code as int == (first_code(widths@, w as int) + count_width(
                    widths@,
                    w as int,
                    s as int,
                )) % 65536,
                forall|idx: int|
                    0 <= idx < pmax ==> #[trigger] slot(buf@, base as int, idx) == entry_in_width(
                        widths@,
                        idx,
                        w as int,
                        s as int,
                        entry_upto(widths@, idx, w - 1),
                    ),
                forall|k: int|
                    0 <= k < 0x10000 && !(base <= k < base + pmax) ==> buf@[k] == old(buf)@[k],
            decreases n - s,
        {
            let ghost before = buf@;
            if widths[s] == w {
                proof {
                    lemma_max_width_bound(widths@, s as int);
                    lemma_canon_code_nonneg(widths@, s as int);
                    lemma2_to64();
                    lemma_rev_bits_low(canon_code(widths@, s as int), 16, w as nat);
                }
                Self::set_mapping(buf, base, s as u16, code as u16, w, max_width);
                proof {
                    crate::canonical::lemma_next_code(
                        first_code(widths@, w as int) + count_width(widths@, w as int, s as int),
                        code as int,
                    );
                }
                code = (code + 1) % 65536;
            }
            proof {
                assert forall|idx: int| 0 <= idx < pmax implies #[trigger] slot(buf@, base as int, idx)
                    == entry_in_width(
                    widths@,
                    idx,
                    w as int,
                    s + 1,
                    entry_upto(widths@, idx, w - 1),
                ) by {
                    assert(slot(before, base as int, idx) == entry_in_width(
                        widths@,
                        idx,
                        w as int,
                        s as int,
                        entry_upto(widths@, idx, w - 1),
                    ));
                }
            }
            s += 1;
        }
        code
    }

    /// Enters every symbol that has a code into the table at `base`, in
    /// canonical order, and returns the width of the end-of-block code (0 if
    /// it has none).
    #[verifier::rlimit(40)]
    pub fn restore_canonical_huffman_codes(
        buf: &mut [i32; 0x10000],
        base: usize,
        widths: &[u8],
        max_width: u8,
    ) -> (eob: u8)
        requires
            max_width as int == crate::canonical::max_width(widths@),
            max_width <= 15,
            widths@.len() <= 0x10000,
            base + pow2(max_width as nat) <= 0x10000,
            forall|idx: int|
                0 <= idx < pow2(max_width as nat) ==> #[trigger] slot(old(buf)@, base as int, idx) == 16,
        ensures
            decoder_ok(final(buf)@, base as int, max_width as int, widths@),
            forall|k: int|
                0 <= k < 0x10000 && !(base <= k < base + pow2(max_width as nat)) ==> final(buf)@[k]
                    == old(buf)@[k],
            eob as int == eob_width(widths@),
    {
        let n: usize = widths.len();
        let ghost pmax = pow2(max_width as nat) as int;
        let mut code: u32 = 0;
        let mut w: u8 = 1;
        while w <= 15
            invariant
                1 <= w <= 16,
                n == widths@.len(),
                n <= 0x10000,
                max_width as int == crate::canonical::max_width(widths@),
                max_width <= 15,
                pmax == pow2(max_width as nat),
                base + pmax <= 0x10000,
                code < 65536,
                code as int == first_code(widths@, w as int) % 65536,
                forall|idx: int|
                    0 <= idx < pmax ==> #[trigger] slot(buf@, base as int, idx) == entry_upto(
                        widths@,
                        idx,
                        w - 1,
                    ),
                forall|k: int|
                    0 <= k < 0x10000 && !(base <= k < base + pmax) ==> buf@[k] == old(buf)@[k],
            decreases 16 - w,
        {
            let next: u32 = Self::enter_width(buf, base, widths, max_width, w, code);
            proof {
                crate::canonical::lemma_next_first_code(widths@, w as int, next as int);
            }
            code = (2 * next) % 65536;
            w += 1;
        }
        if n > 256 {
            widths[256]
        } else {
            0
        }
    }

    /// Builds the table for `widths` at `base` and returns the greatest code
    /// length and the length of the end-of-block code.
    pub fn from_widthes(buf: &mut [i32; 0x10000], base: usize, widths: &[u8]) -> (r: (u8, u8))
        requires
            widths_within(widths@, 15),
            widths@.len() <= 0x10000,
            base + pow2(max_width(widths@) as nat) <= 0x10000,
        ensures
            r.0 as int == max_width(widths@),
            r.1 as int == eob_width(widths@),
            decoder_ok(final(buf)@, base as int, r.0 as int, widths@),
            forall|k: int|
                0 <= k < 0x10000
                    && !(base <= k < base + pow2(r.0 as nat)) ==> final(buf)@[k] == old(buf)@[k],
    {
        let max_width: u8 = max_width_of(widths);
        proof {
            lemma_max_width_within(widths@, 15);
            lemma_pow2_up_to_15(max_width as nat);
            vstd::bits::lemma_u32_shl_is_mul(1, max_width as u32);
        }
        let size: usize = (1u32 << max_width) as usize;
        let mut k: usize = 0;
        while k < size
            invariant
                k <= size,
                size as int == pow2(max_width as nat),
                base + size <= 0x10000,
                forall|idx: int| 0 <= idx < k ==> #[trigger] slot(buf@, base as int, idx) == 16,
                forall|j: int| 0 <= j < 0x10000
                    && !(base <= j < base + size) ==> buf@[j] == old(buf)@[j],
            decreases size - k,
        {
            let ghost before = buf@;
            buf[base + k] = NO_ENTRY;
            proof {
                assert forall|idx: int| 0 <= idx < k + 1 implies #[trigger] slot(buf@, base as int, idx)
                    == 16 by {
                    if idx < k {
                        assert(slot(before, base as int, idx) == 16);
                    }
                }
            }
            k += 1;
        }
        let eob_width = Self::restore_canonical_huffman_codes(buf, base, widths, max_width);
        (max_width, eob_width)
    }
}

} // verus!
