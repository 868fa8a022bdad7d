//! DEFLATE: compressing bytes into a stream of blocks and restoring them.

use crate::btype::BlockType;
use crate::cache::Cache;
use crate::code::Code;
use crate::decoder::HuffmanDecoder;
use crate::error::Error;
use crate::huffman::{encoded, huffman_encode};
use crate::lzss::{extend, lemma_lzss_codes_wf, lzss_encode, lzss_encode_spec};
use crate::reader::{lemma_stream_value_bound, Reader};
use crate::stream::{block_body, blocks_from, inflate_spec, raw_block};
use vstd::prelude::*;

verus! {

/// Copies the stored block that the reader stands before onto `v_out`.
fn inflate_raw(reader: &mut Reader, v_out: &mut Vec<u8>) -> (r: Result<(), Error>)
    requires
        old(reader).wf(),
    ensures
        final(reader).wf(),
        final(reader).input() == old(reader).input(),
        match raw_block(old(reader).input(), old(reader).pos(), old(v_out)@) {
            Ok((out, p)) => r is Ok && final(v_out)@ == out && final(reader).pos() == p
                && old(reader).pos() <= p <= 8 * old(reader).input().len(),
            Err(e) => r == Err::<(), Error>(e),
        },
{
    proof {
        reader.lemma_wf_pos();
    }
    reader.reset();
    let len: u16 = match reader.read_u16() {
        Err(e) => {
            return Err(e);
        },
        Ok(x) => x,
    };
    let nlen: u16 = match reader.read_u16() {
        Err(e) => {
            return Err(e);
        },
        Ok(x) => x,
    };
    if len as u32 + nlen as u32 != 65535 {
        return Err(Error::LengthComplementMismatch);
    }
    reader.fill(v_out, len as usize)
}

/// Expands the body of a Huffman-coded block onto `v_out`, up to and
/// including its end-of-block code.
fn inflate_body(decoder: &HuffmanDecoder, reader: &mut Reader, v_out: &mut Vec<u8>) -> (r: Result<
    (),
    Error,
>)
    requires
        old(reader).wf(),
        decoder.wf(),
    ensures
        final(reader).wf(),
        final(reader).input() == old(reader).input(),
        match block_body(
            decoder.lit@,
            decoder.dist@,
            old(reader).input(),
            old(reader).pos(),
            old(v_out)@,
        ) {
            Ok((out, p)) => r is Ok && final(v_out)@ == out && final(reader).pos() == p
                && old(reader).pos() < p <= 8 * old(reader).input().len(),
            Err(e) => r == Err::<(), Error>(e),
        },
{
    let ghost input = reader.input();
    let ghost start = reader.pos();
    let ghost lit = decoder.lit@;
    let ghost dist = decoder.dist@;
    let ghost goal = block_body(lit, dist, input, start, v_out@);
    loop
        invariant
            reader.wf(),
            reader.input() == input,
            input == old(reader).input(),
            start == old(reader).pos(),
            decoder.wf(),
            lit == decoder.lit@,
            dist == decoder.dist@,
            start <= reader.pos(),
            goal == block_body(lit, dist, input, start, old(v_out)@),
            block_body(lit, dist, input, reader.pos(), v_out@) == goal,
        decreases 8 * input.len() - reader.pos(),
    {
        let code: Code = match decoder.decode(reader) {
            Err(e) => {
                return Err(e);
            },
            Ok(x) => x,
        };
        match code {
            Code::EndOfBlock => {
                return Ok(());
            },
            Code::Literal(a) => {
                v_out.push(a);
            },
            Code::Pointer { distance, length } => {
                match extend(v_out, distance as usize, length as usize + 3) {
                    Err(e) => {
                        return Err(e);
                    },
                    Ok(()) => {},
                }
            },
        }
    }
}

/// The codes of the one block that `v` is compressed into: what the matcher
/// emits, and the end-of-block marker.
pub open spec fn deflate_codes(v: Seq<u8>) -> Seq<Code> {
    lzss_encode_spec(v).push(Code::EndOfBlock)
}

/// `d` is `v` compressed into one final block of the given type: the codes of
/// the matcher and the end-of-block marker, written with the fixed codes or
/// with codes chosen for them.
pub open spec fn deflated(d: Seq<u8>, v: Seq<u8>, btype: BlockType) -> bool {
    encoded(d, deflate_codes(v), btype)
}

/// Compresses `v_in` into a DEFLATE stream of one final block.
pub fn deflate(v_in: &[u8], btype: BlockType, cache: &mut Cache) -> (r: Vec<u8>)
    requires
        btype != BlockType::Raw,
    ensures
        deflated(r@, v_in@, btype),
        inflate_spec(r@) == Ok::<Seq<u8>, Error>(v_in@),
        btype == BlockType::Fixed ==> 8 * r@.len() <= 9 * v_in@.len() + 17,
{
    let buf = cache.inner_mut();
    let mut encoded: Vec<Code> = lzss_encode(v_in, buf);
    proof {
        lemma_lzss_codes_wf(v_in@, 0);
    }
    encoded.push(Code::EndOfBlock);
    proof {
        assert(encoded@ == deflate_codes(v_in@));
        assert forall|k: int| 0 <= k < encoded@.len() implies (#[trigger] encoded@[k]).wf() by {
            if k < encoded@.len() - 1 {
                assert(lzss_encode_spec(v_in@)[k].wf());
            }
        }
    }
    let r = huffman_encode(encoded.as_slice(), btype, buf);
    proof {
        crate::roundtrip::lemma_inflate_deflate(r@, v_in@, btype);
        if btype == BlockType::Fixed {
            crate::roundtrip::lemma_fixed_size(r@, v_in@);
        }
    }
    r
}

/// Restores the bytes that a DEFLATE stream stands for.
pub fn inflate(v_in: &[u8], cache: &mut Cache) -> (r: Result<Vec<u8>, Error>)
    ensures
        match r {
            Ok(v) => inflate_spec(v_in@) == Ok::<Seq<u8>, Error>(v@),
            Err(e) => inflate_spec(v_in@) == Err::<Seq<u8>, Error>(e),
        },
{
    let buf = cache.inner_mut();
    let mut reader = Reader::new(v_in);
    let mut v_out: Vec<u8> = Vec::new();
    loop
        invariant
            reader.wf(),
            reader.input() == v_in@,
            blocks_from(v_in@, reader.pos(), v_out@) == inflate_spec(v_in@),
        decreases 8 * v_in@.len() - reader.pos(),
    {
        let ghost pos = reader.pos();
        proof {
            reader.lemma_wf_pos();
            vstd::arithmetic::power2::lemma2_to64();
            lemma_stream_value_bound(v_in@, pos, 1);
            lemma_stream_value_bound(v_in@, pos + 1, 2);
        }
        let bfinal: u16 = match reader.read_bits(1) {
            Err(e) => {
                return Err(e);
            },
            Ok(x) => x,
        };
        let btype: u16 = match reader.read_bits(2) {
            Err(e) => {
                return Err(e);
            },
            Ok(x) => x,
        };
        if btype == 3 {
            return Err(Error::ReservedBlockType);
        } else if btype == 0 {
            match inflate_raw(&mut reader, &mut v_out) {
                Err(e) => {
                    return Err(e);
                },
                Ok(()) => {},
            }
        } else {
            let decoder = match HuffmanDecoder::new(BlockType::from(btype), &mut reader, buf) {
                Err(e) => {
                    return Err(e);
                },
                Ok(x) => x,
            };
            match inflate_body(&decoder, &mut reader, &mut v_out) {
                Err(e) => {
                    return Err(e);
                },
                Ok(()) => {},
            }
        }
        if bfinal == 1 {
            return Ok(v_out);
        }
    }
}

/// Restores the bytes that a DEFLATE stream stands for into `v_out`, which
/// must have exactly their length.
pub fn inflate_to(v_in: &[u8], cache: &mut Cache, v_out: &mut [u8]) -> (r: Result<(), Error>)
    ensures
        final(v_out)@.len() == old(v_out)@.len(),
        match inflate_spec(v_in@) {
            Ok(v) => if v.len() == old(v_out)@.len() {
                r is Ok && final(v_out)@ == v
            } else {
                r == Err::<(), Error>(Error::BufferOverflow)
            },
            Err(e) => r == Err::<(), Error>(e),
        },
{
    let decoded: Vec<u8> = match inflate(v_in, cache) {
        Err(e) => {
            return Err(e);
        },
        Ok(x) => x,
    };
    let n: usize = v_out.len();
    if decoded.len() != n {
        return Err(Error::BufferOverflow);
    }
    let mut i: usize = 0;
    while i < n
        invariant
            i <= n,
            n == decoded@.len(),
            v_out@.len() == n,
            forall|k: int| 0 <= k < i ==> v_out@[k] == decoded@[k],
        decreases n - i,
    {
        v_out[i] = decoded[i];
        i += 1;
    }
    proof {
        assert(v_out@ =~= decoded@);
    }
    Ok(())
}

} // verus!
