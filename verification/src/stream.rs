//! What a DEFLATE stream means: the bytes that it stands for, or the reason
//! why it stands for none.
//!
//! Everything here is ghost code. A stream is a sequence of bytes read as
//! bits from the least significant bit of each byte on; a position counts bits
//! from the start.

use crate::canonical::{eob_width, lemma_table_entry_shape, max_width, table_entry};
use crate::code::{
    distance_table, lemma_distance_table_bounds, lemma_length_table_bounds, length_table, Code,
};
use crate::error::Error;
use crate::lzss::expand;
use crate::reader::{align_up, stream_value};
use vstd::prelude::*;

verus! {

/// The code lengths of the literal/length alphabet in a fixed block.
pub open spec fn fixed_literal_widths() -> Seq<u8> {
    Seq::new(
        288,
        |i: int|
            if i < 144 {
                8u8
            } else if i < 256 {
                9u8
            } else if i < 280 {
                7u8
            } else {
                8u8
            },
    )
}

/// The code lengths of the distance alphabet in a fixed block.
pub open spec fn fixed_distance_widths() -> Seq<u8> {
    Seq::new(30, |i: int| 5u8)
}

/// The order in which a dynamic block sends the lengths of the codes that its
/// code lengths are written in.
pub open spec fn width_code_order() -> Seq<int> {
    seq![16, 17, 18, 0, 8, 7, 9, 6, 10, 5, 11, 4, 12, 3, 13, 2, 14, 1, 15]
}

/// The symbol at `pos` under the code of `widths`, with the position after it.
/// The table is asked with as many bits as the longest code has.
pub open spec fn code_at(widths: Seq<u8>, input: Seq<u8>, pos: int) -> Result<(int, int), Error> {
    let e = table_entry(widths, stream_value(input, pos, max_width(widths) as nat));
    if e % 32 > max_width(widths) {
        Err(Error::InvalidWidth)
    } else if pos + e % 32 > 8 * input.len() {
        Err(Error::BufferOverflow)
    } else {
        Ok((e / 32, pos + e % 32))
    }
}

/// The literal/length symbol at `pos`, with the position after it. The table
/// is first asked with as many bits as the end-of-block code has; only if the
/// answer is a longer code, with as many as the longest code has.
pub open spec fn literal_at(widths: Seq<u8>, input: Seq<u8>, pos: int) -> Result<(int, int), Error> {
    let short = table_entry(widths, stream_value(input, pos, eob_width(widths) as nat));
    if short % 32 <= eob_width(widths) {
        if pos + short % 32 > 8 * input.len() {
            Err(Error::BufferOverflow)
        } else {
            Ok((short / 32, pos + short % 32))
        }
    } else {
        code_at(widths, input, pos)
    }
}

/// What follows a length symbol: its extra bits, the distance symbol and its
/// extra bits. Gives the back-reference and the position after it.
pub open spec fn pointer_at(sym: int, dist: Seq<u8>, input: Seq<u8>, pos: int) -> Result<
    (Code, int),
    Error,
> {
    let (base, extra) = length_table()[sym - 257];
    if pos + extra > 8 * input.len() {
        Err(Error::BufferOverflow)
    } else {
        let length = base + stream_value(input, pos, extra as nat);
        match code_at(dist, input, pos + extra) {
            Err(e) => Err(e),
            Ok((dsym, p)) => if dsym >= 30 {
                Err(Error::InvalidSymbol)
            } else {
                let (dbase, dextra) = distance_table()[dsym];
                if p + dextra > 8 * input.len() {
                    Err(Error::BufferOverflow)
                } else {
                    Ok(
                        (
                            Code::Pointer {
                                distance: (dbase + stream_value(input, p, dextra as nat)) as u16,
                                length: length as u8,
                            },
                            p + dextra,
                        ),
                    )
                }
            },
        }
    }
}

/// The code at `pos` of a block body, with the position after it.
pub open spec fn decode_at(lit: Seq<u8>, dist: Seq<u8>, input: Seq<u8>, pos: int) -> Result<
    (Code, int),
    Error,
> {
    match literal_at(lit, input, pos) {
        Err(e) => Err(e),
        Ok((sym, p)) => if sym < 256 {
            Ok((Code::Literal(sym as u8), p))
        } else if sym == 256 {
            Ok((Code::EndOfBlock, p))
        } else if sym > 285 {
            Err(Error::InvalidSymbol)
        } else {
            pointer_at(sym, dist, input, p)
        },
    }
}

/// A symbol takes at least one bit and none past the end of the input.
pub proof fn lemma_code_at_advances(widths: Seq<u8>, input: Seq<u8>, pos: int)
    ensures
        code_at(widths, input, pos) is Ok ==> pos < code_at(widths, input, pos)->Ok_0.1 <= 8
            * input.len() && 0 <= code_at(widths, input, pos)->Ok_0.0,
{
    lemma_table_entry_shape(widths, stream_value(input, pos, max_width(widths) as nat));
}

/// A literal/length symbol takes at least one bit and none past the end of
/// the input.
pub proof fn lemma_literal_at_advances(widths: Seq<u8>, input: Seq<u8>, pos: int)
    ensures
        literal_at(widths, input, pos) is Ok ==> pos < literal_at(widths, input, pos)->Ok_0.1 <= 8
            * input.len() && 0 <= literal_at(widths, input, pos)->Ok_0.0,
{
    lemma_table_entry_shape(widths, stream_value(input, pos, eob_width(widths) as nat));
    lemma_code_at_advances(widths, input, pos);
}

/// A code takes at least one bit and none past the end of the input.
pub proof fn lemma_decode_at_advances(lit: Seq<u8>, dist: Seq<u8>, input: Seq<u8>, pos: int)
    ensures
        decode_at(lit, dist, input, pos) is Ok ==> pos < decode_at(lit, dist, input, pos)->Ok_0.1
            <= 8 * input.len(),
{
    lemma_literal_at_advances(lit, input, pos);
    if literal_at(lit, input, pos) is Ok {
        let (sym, p) = literal_at(lit, input, pos)->Ok_0;
        if 257 <= sym <= 285 {
            lemma_length_table_bounds(sym - 257);
            let extra = length_table()[sym - 257].1;
            lemma_code_at_advances(dist, input, p + extra);
            if code_at(dist, input, p + extra) is Ok {
                let dsym = code_at(dist, input, p + extra)->Ok_0.0;
                if dsym < 30 {
                    lemma_distance_table_bounds(dsym);
                }
            }
        }
    }
}

/// The output after the body of a block that starts at `pos` is expanded onto
/// `out`, with the position after its end-of-block code.
pub open spec fn block_body(lit: Seq<u8>, dist: Seq<u8>, input: Seq<u8>, pos: int, out: Seq<u8>) -> Result<
    (Seq<u8>, int),
    Error,
>
    decreases 8 * input.len() - pos,
    via block_body_decreases
{
    match decode_at(lit, dist, input, pos) {
        Err(e) => Err(e),
        Ok((code, p)) => match code {
            Code::EndOfBlock => Ok((out, p)),
            Code::Literal(a) => block_body(lit, dist, input, p, out.push(a)),
            Code::Pointer { distance, length } => if distance as int > out.len() {
                Err(Error::BackReferenceOutOfRange)
            } else {
                block_body(lit, dist, input, p, expand(out, distance as int, (length + 3) as nat))
            },
        },
    }
}

#[via_fn]
proof fn block_body_decreases(lit: Seq<u8>, dist: Seq<u8>, input: Seq<u8>, pos: int, out: Seq<u8>) {
    lemma_decode_at_advances(lit, dist, input, pos);
}

/// The body of a block takes at least one bit and none past the end of the
/// input.
pub proof fn lemma_block_body_advances(
    lit: Seq<u8>,
    dist: Seq<u8>,
    input: Seq<u8>,
    pos: int,
    out: Seq<u8>,
)
    ensures
        block_body(lit, dist, input, pos, out) is Ok ==> pos < block_body(
            lit,
            dist,
            input,
            pos,
            out,
        )->Ok_0.1 <= 8 * input.len(),
    decreases 8 * input.len() - pos,
{
    lemma_decode_at_advances(lit, dist, input, pos);
    match decode_at(lit, dist, input, pos) {
        Err(e) => {},
        Ok((code, p)) => match code {
            Code::EndOfBlock => {},
            Code::Literal(a) => {
                lemma_block_body_advances(lit, dist, input, p, out.push(a));
            },
            Code::Pointer { distance, length } => {
                if distance as int <= out.len() {
                    lemma_block_body_advances(
                        lit,
                        dist,
                        input,
                        p,
                        expand(out, distance as int, (length + 3) as nat),
                    );
                }
            },
        },
    }
}

/// The lengths of the nineteen codes that code lengths are written in, as
/// sent in `count` fields of three bits from `pos` on.
pub open spec fn read_code_widths(input: Seq<u8>, pos: int, count: int) -> Seq<u8>
    decreases count,
{
    if count <= 0 {
        Seq::new(19, |i: int| 0u8)
    } else {
        read_code_widths(input, pos, count - 1).update(
            width_code_order()[count - 1],
            stream_value(input, pos + 3 * (count - 1), 3) as u8,
        )
    }
}

/// What one symbol of the code-length alphabet adds to the lengths read so
/// far: the length, how many times, and the position after its extra bits.
pub open spec fn run_at(sym: int, last: Option<u8>, input: Seq<u8>, pos: int) -> Result<
    (u8, int, int),
    Error,
> {
    if 0 <= sym < 16 {
        Ok((sym as u8, 1, pos))
    } else if sym == 16 {
        if pos + 2 > 8 * input.len() {
            Err(Error::BufferOverflow)
        } else {
            match last {
                None => Err(Error::NoPreviousWidth),
                Some(x) => Ok((x, stream_value(input, pos, 2) + 3, pos + 2)),
            }
        }
    } else if sym == 17 {
        if pos + 3 > 8 * input.len() {
            Err(Error::BufferOverflow)
        } else {
            Ok((0u8, stream_value(input, pos, 3) + 3, pos + 3))
        }
    } else if sym == 18 {
        if pos + 7 > 8 * input.len() {
            Err(Error::BufferOverflow)
        } else {
            Ok((0u8, stream_value(input, pos, 7) + 11, pos + 7))
        }
    } else {
        Err(Error::InvalidCodeLengths)
    }
}

/// The last of the lengths read so far.
pub open spec fn last_of(acc: Seq<u8>) -> Option<u8> {
    if acc.len() == 0 {
        None
    } else {
        Some(acc.last())
    }
}

/// `count` times `x`.
pub open spec fn repeat(x: u8, count: int) -> Seq<u8> {
    Seq::new(count as nat, |i: int| x)
}

/// What the next symbol of the code-length alphabet at `pos` adds to the
/// lengths read so far, of which `last` is the last: the length, how many
/// times, and the position after it.
pub open spec fn next_run_at(clw: Seq<u8>, input: Seq<u8>, pos: int, last: Option<u8>) -> Result<
    (u8, int, int),
    Error,
> {
    match code_at(clw, input, pos) {
        Err(e) => Err(e),
        Ok((sym, p)) => run_at(sym, last, input, p),
    }
}

/// The code lengths of both alphabets of a dynamic block, `target` in all,
/// read from `pos` on after the lengths in `acc`; with the position after them.
pub open spec fn read_widths(clw: Seq<u8>, input: Seq<u8>, pos: int, acc: Seq<u8>, target: int) -> Result<
    (Seq<u8>, int),
    Error,
>
    decreases target - acc.len(),
    via read_widths_decreases
{
    if acc.len() >= target {
        Ok((acc, pos))
    } else {
        match next_run_at(clw, input, pos, last_of(acc)) {
            Err(e) => Err(e),
            Ok((x, count, p)) => if acc.len() + count > target {
                Err(Error::InvalidCodeLengths)
            } else {
                read_widths(clw, input, p, acc + repeat(x, count), target)
            },
        }
    }
}

#[via_fn]
proof fn read_widths_decreases(clw: Seq<u8>, input: Seq<u8>, pos: int, acc: Seq<u8>, target: int) {
    lemma_next_run_at_counts(clw, input, pos, last_of(acc));
}

/// A symbol of the code-length alphabet stands for one length at least.
pub proof fn lemma_next_run_at_counts(clw: Seq<u8>, input: Seq<u8>, pos: int, last: Option<u8>)
    ensures
        next_run_at(clw, input, pos, last) is Ok ==> next_run_at(clw, input, pos, last)->Ok_0.1 >= 1,
{
    match code_at(clw, input, pos) {
        Err(e) => {},
        Ok((sym, p)) => {
            crate::reader::lemma_stream_value_bound(input, p, 2);
            crate::reader::lemma_stream_value_bound(input, p, 3);
            crate::reader::lemma_stream_value_bound(input, p, 7);
        },
    }
}

/// The code lengths that the header of a dynamic block at `pos` sends: those of
/// the literal/length alphabet, those of the distance alphabet, and the
/// position of the block's body.
pub open spec fn dynamic_tables(input: Seq<u8>, pos: int) -> Result<(Seq<u8>, Seq<u8>, int), Error> {
    if pos + 14 > 8 * input.len() {
        Err(Error::BufferOverflow)
    } else {
        let lcount = stream_value(input, pos, 5) + 257;
        let dcount = stream_value(input, pos + 5, 5) + 1;
        let wcount = stream_value(input, pos + 10, 4) + 4;
        if pos + 14 + 3 * wcount > 8 * input.len() {
            Err(Error::BufferOverflow)
        } else {
            let clw = read_code_widths(input, pos + 14, wcount);
            match read_widths(clw, input, pos + 14 + 3 * wcount, Seq::empty(), lcount + dcount) {
                Err(e) => Err(e),
                Ok((all, p)) => Ok((all.subrange(0, lcount), all.subrange(lcount, lcount + dcount), p)),
            }
        }
    }
}

/// The output after the stored block whose header ends at `pos` is appended
/// to `out`, with the position after the block.
pub open spec fn raw_block(input: Seq<u8>, pos: int, out: Seq<u8>) -> Result<(Seq<u8>, int), Error> {
    let q = align_up(pos) / 8;
    if q + 4 > input.len() {
        Err(Error::BufferOverflow)
    } else {
        let len = input[q] as int + 256 * input[q + 1] as int;
        let nlen = input[q + 2] as int + 256 * input[q + 3] as int;
        if len + nlen != 65535 {
            Err(Error::LengthComplementMismatch)
        } else if q + 4 + len > input.len() {
            Err(Error::BufferOverflow)
        } else {
            Ok((out + input.subrange(q + 4, q + 4 + len), 8 * (q + 4 + len)))
        }
    }
}

/// The output after the block whose three header bits end at `pos` is added to
/// `out`, with the position after the block.
pub open spec fn block_at(btype: int, input: Seq<u8>, pos: int, out: Seq<u8>) -> Result<
    (Seq<u8>, int),
    Error,
> {
    if btype == 3 {
        Err(Error::ReservedBlockType)
    } else if btype == 0 {
        raw_block(input, pos, out)
    } else if btype == 1 {
        block_body(fixed_literal_widths(), fixed_distance_widths(), input, pos, out)
    } else {
        match dynamic_tables(input, pos) {
            Err(e) => Err(e),
            Ok((lit, dist, p)) => block_body(lit, dist, input, p, out),
        }
    }
}

/// Reading code lengths does not go back.
pub proof fn lemma_read_widths_advances(
    clw: Seq<u8>,
    input: Seq<u8>,
    pos: int,
    acc: Seq<u8>,
    target: int,
)
    ensures
        read_widths(clw, input, pos, acc, target) is Ok ==> pos <= read_widths(
            clw,
            input,
            pos,
            acc,
            target,
        )->Ok_0.1,
    decreases target - acc.len(),
{
    if acc.len() < target {
        lemma_code_at_advances(clw, input, pos);
        match next_run_at(clw, input, pos, last_of(acc)) {
            Err(e) => {},
            Ok((x, count, p)) => {
                lemma_next_run_at_counts(clw, input, pos, last_of(acc));
                if acc.len() + count <= target {
                    lemma_read_widths_advances(clw, input, p, acc + repeat(x, count), target);
                }
            },
        }
    }
}

/// A block ends after the position where its body starts, and within the
/// input.
pub proof fn lemma_block_at_advances(btype: int, input: Seq<u8>, pos: int, out: Seq<u8>)
    requires
        0 <= pos,
    ensures
        block_at(btype, input, pos, out) is Ok ==> pos <= block_at(btype, input, pos, out)->Ok_0.1
            <= 8 * input.len(),
{
    if btype == 3 {
    } else if btype == 0 {
    } else if btype == 1 {
        lemma_block_body_advances(fixed_literal_widths(), fixed_distance_widths(), input, pos, out);
    } else {
        match dynamic_tables(input, pos) {
            Err(e) => {},
            Ok((lit, dist, p)) => {
                let wcount = stream_value(input, pos + 10, 4) + 4;
                crate::reader::lemma_stream_value_bound(input, pos + 10, 4);
                lemma_read_widths_advances(
                    read_code_widths(input, pos + 14, wcount),
                    input,
                    pos + 14 + 3 * wcount,
                    Seq::empty(),
                    stream_value(input, pos, 5) + 257 + stream_value(input, pos + 5, 5) + 1,
                );
                lemma_block_body_advances(lit, dist, input, p, out);
            },
        }
    }
}

/// The output of the blocks from `pos` on, after `out`.
pub open spec fn blocks_from(input: Seq<u8>, pos: int, out: Seq<u8>) -> Result<Seq<u8>, Error>
    decreases 8 * input.len() - pos,
    via blocks_from_decreases
{
    if pos < 0 || pos + 3 > 8 * input.len() {
        Err(Error::BufferOverflow)
    } else {
        match block_at(stream_value(input, pos + 1, 2), input, pos + 3, out) {
            Err(e) => Err(e),
            Ok((out2, p)) => if stream_value(input, pos, 1) == 1 {
                Ok(out2)
            } else {
                blocks_from(input, p, out2)
            },
        }
    }
}

#[via_fn]
proof fn blocks_from_decreases(input: Seq<u8>, pos: int, out: Seq<u8>) {
    if !(pos < 0 || pos + 3 > 8 * input.len()) {
        lemma_block_at_advances(stream_value(input, pos + 1, 2), input, pos + 3, out);
    }
}

/// The bytes that the DEFLATE stream `input` stands for.
pub open spec fn inflate_spec(input: Seq<u8>) -> Result<Seq<u8>, Error> {
    blocks_from(input, 0, Seq::empty())
}

} // verus!
