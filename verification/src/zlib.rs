//! The ZLIB container: a two-byte header, a DEFLATE stream, and the Adler-32
//! checksum of the bytes that the stream stands for.

use crate::adler32::{adler32_bytes, Adler32};
use crate::btype::BlockType;
use crate::cache::Cache;
use crate::deflate::{deflate, deflated, inflate, inflate_to};
use crate::error::Error;
use crate::stream::inflate_spec;
use vstd::prelude::*;
use vstd::slice::slice_subrange;

verus! {

/// How many bytes the header takes.
pub const HEADER_LEN: usize = 2;

/// How many bytes the checksum takes.
pub const ADLER_LEN: usize = 4;

/// The compression method DEFLATE, in the low half of the first header byte.
pub const METHOD_DEFLATE: u8 = 8;

/// The first header byte that the encoder writes: DEFLATE with a window of 32 KiB.
pub const CMF: u8 = 0x78;

/// The second header byte that the encoder writes: compression level 2, and
/// the check bits that make the header a multiple of 31.
pub const FLG: u8 = 0x9C;

/// The ZLIB stream around the DEFLATE stream `d` of the bytes `v`.
pub open spec fn zlib_frame(d: Seq<u8>, v: Seq<u8>) -> Seq<u8> {
    seq![0x78u8, 0x9Cu8] + d + adler32_bytes(v)
}

/// What is wrong with the header of the ZLIB stream `input`, if anything: too
/// short for header and checksum, a method other than DEFLATE, check bits
/// that do not fit, or a preset dictionary asked for.
pub open spec fn header_fault(input: Seq<u8>) -> Option<Error> {
    if input.len() < 6 {
        Some(Error::ZlibHeaderTooShort)
    } else if input[0] as int % 16 != 8 {
        Some(Error::ZlibUnsupportedMethod)
    } else if (input[0] as int * 256 + input[1] as int) % 31 != 0 {
        Some(Error::ZlibFcheckMismatch)
    } else if (input[1] as int / 32) % 2 == 1 {
        Some(Error::ZlibPresetDictionary)
    } else {
        None
    }
}

/// The DEFLATE stream inside the ZLIB stream `input`.
pub open spec fn zlib_body(input: Seq<u8>) -> Seq<u8> {
    input.subrange(2, input.len() - 4)
}

/// The checksum at the end of the ZLIB stream `input`.
pub open spec fn zlib_trailer(input: Seq<u8>) -> Seq<u8> {
    input.subrange(input.len() - 4, input.len() as int)
}

/// The bytes that the ZLIB stream `input` stands for.
pub open spec fn zlib_decode_spec(input: Seq<u8>) -> Result<Seq<u8>, Error> {
    match header_fault(input) {
        Some(e) => Err(e),
        None => match inflate_spec(zlib_body(input)) {
            Err(e) => Err(e),
            Ok(v) => if adler32_bytes(v) == zlib_trailer(input) {
                Ok(v)
            } else {
                Err(Error::ZlibChecksumMismatch)
            },
        },
    }
}

/// What `zlib_decode_spec` gives where the caller expects `n` bytes: a
/// stream that stands for another number of bytes is rejected before its
/// checksum is looked at.
pub open spec fn zlib_decode_to_spec(input: Seq<u8>, n: int) -> Result<Seq<u8>, Error> {
    match header_fault(input) {
        Some(e) => Err(e),
        None => match inflate_spec(zlib_body(input)) {
            Err(e) => Err(e),
            Ok(v) => if v.len() != n {
                Err(Error::BufferOverflow)
            } else if adler32_bytes(v) == zlib_trailer(input) {
                Ok(v)
            } else {
                Err(Error::ZlibChecksumMismatch)
            },
        },
    }
}

/// Checks the two header bytes of a ZLIB stream.
fn check_header(v_in: &[u8]) -> (r: Result<(), Error>)
    ensures
        match header_fault(v_in@) {
            None => r is Ok && v_in@.len() >= 6,
            Some(e) => r == Err::<(), Error>(e),
        },
{
    if v_in.len() < HEADER_LEN + ADLER_LEN {
        return Err(Error::ZlibHeaderTooShort);
    }
    let cmf: u8 = v_in[0];
    let flg: u8 = v_in[1];
    assert(cmf & 0x0F == cmf % 16) by (bit_vector);
    assert((flg & 0x20 > 0) == ((flg / 32) % 2 == 1)) by (bit_vector);
    if (cmf & 0x0F) != METHOD_DEFLATE {
        return Err(Error::ZlibUnsupportedMethod);
    }
    if (cmf as u16 * 256 + flg as u16) % 31 != 0 {
        return Err(Error::ZlibFcheckMismatch);
    }
    if (flg & 0x20) > 0 {
        return Err(Error::ZlibPresetDictionary);
    }
    Ok(())
}

/// Whether the last four bytes of `v_in` are the checksum of `v_out`.
fn check_trailer(v_in: &[u8], v_out: &[u8]) -> (r: bool)
    requires
        v_in@.len() >= 4,
    ensures
        r == (adler32_bytes(v_out@) == zlib_trailer(v_in@)),
{
    let mut adler32 = Adler32::new();
    adler32.update(v_out);
    let sum: [u8; 4] = adler32.checksum();
    let n: usize = v_in.len();
    let ghost tail = zlib_trailer(v_in@);
    proof {
        assert(tail.len() == 4);
        assert(tail[0] == v_in@[n - 4] && tail[1] == v_in@[n - 3] && tail[2] == v_in@[n - 2]
            && tail[3]
            == v_in@[n - 1]);
        assert(sum@.len() == 4);
        if sum@[0] == tail[0] && sum@[1] == tail[1] && sum@[2] == tail[2] && sum@[3] == tail[3] {
            assert(sum@ =~= tail);
        }
    }
    sum[0] == v_in[n - 4] && sum[1] == v_in[n - 3] && sum[2] == v_in[n - 2] && sum[3] == v_in[n - 1]
}

/// The header, `data`, and the checksum of `v_in`, one after the other.
fn frame(data: &Vec<u8>, v_in: &[u8]) -> (r: Vec<u8>)
    ensures
        r@ == zlib_frame(data@, v_in@),
{
    let mut adler32 = Adler32::new();
    adler32.update(v_in);
    let sum: [u8; 4] = adler32.checksum();
    let mut v_out: Vec<u8> = Vec::new();
    v_out.push(CMF);
    v_out.push(FLG);
    let ghost head = v_out@;
    let mut i: usize = 0;
    while i < data.len()
        invariant
            i <= data@.len(),
            head.len() == 2,
            v_out@ == head + data@.subrange(0, i as int),
        decreases data@.len() - i,
    {
        v_out.push(data[i]);
        i += 1;
        proof {
            assert(head + data@.subrange(0, i as int) =~= (head + data@.subrange(0, i - 1)).push(
                data@[i - 1],
            ));
        }
    }
    v_out.push(sum[0]);
    v_out.push(sum[1]);
    v_out.push(sum[2]);
    v_out.push(sum[3]);
    proof {
        assert(data@.subrange(0, data@.len() as int) =~= data@);
        assert(head =~= seq![0x78u8, 0x9Cu8]);
        assert(sum@.len() == 4);
        assert(v_out@ =~= head + data@ + sum@);
    }
    v_out
}

/// Compresses `v_in` into a ZLIB stream.
pub fn zlib_encode(v_in: &[u8], btype: BlockType, cache: &mut Cache) -> (r: Vec<u8>)
    requires
        btype != BlockType::Raw,
    ensures
        exists|d: Seq<u8>| #[trigger] deflated(d, v_in@, btype) && r@ == zlib_frame(d, v_in@),
        zlib_decode_spec(r@) == Ok::<Seq<u8>, Error>(v_in@),
{
    let data: Vec<u8> = deflate(v_in, btype, cache);
    let r = frame(&data, v_in);
    proof {
        lemma_zlib_round_trip(data@, v_in@);
        assert(deflated(data@, v_in@, btype) && r@ == zlib_frame(data@, v_in@));
    }
    r
}

/// Restoring a ZLIB stream that frames a DEFLATE stream of `v` gives `v`.
pub proof fn lemma_zlib_round_trip(d: Seq<u8>, v: Seq<u8>)
    requires
        inflate_spec(d) == Ok::<Seq<u8>, Error>(v),
    ensures
        zlib_decode_spec(zlib_frame(d, v)) == Ok::<Seq<u8>, Error>(v),
{
    let z = zlib_frame(d, v);
    let sum = adler32_bytes(v);
    assert(sum.len() == 4);
    assert(z.len() == d.len() + 6);
    assert(z[0] == 0x78 && z[1] == 0x9C);
    assert(header_fault(z) is None);
    assert(zlib_body(z) =~= d);
    assert(zlib_trailer(z) =~= sum);
}

/// Restoring what `zlib_encode` makes of `v` gives `v`: for every sequence of
/// bytes and both block types.
pub proof fn lemma_zlib_decode_encode(z: Seq<u8>, v: Seq<u8>, btype: BlockType)
    requires
        exists|d: Seq<u8>| #[trigger] deflated(d, v, btype) && z == zlib_frame(d, v),
    ensures
        zlib_decode_spec(z) == Ok::<Seq<u8>, Error>(v),
{
    let d = choose|d: Seq<u8>| #[trigger] deflated(d, v, btype) && z == zlib_frame(d, v);
    crate::roundtrip::lemma_inflate_deflate(d, v, btype);
    lemma_zlib_round_trip(d, v);
}

/// Restores the bytes that a ZLIB stream stands for.
pub fn zlib_decode(v_in: &[u8], cache: &mut Cache) -> (r: Result<Vec<u8>, Error>)
    ensures
        match r {
            Ok(v) => zlib_decode_spec(v_in@) == Ok::<Seq<u8>, Error>(v@),
            Err(e) => zlib_decode_spec(v_in@) == Err::<Seq<u8>, Error>(e),
        },
{
    match check_header(v_in) {
        Err(e) => {
            return Err(e);
        },
        Ok(()) => {},
    }
    let body = slice_subrange(v_in, HEADER_LEN, v_in.len() - ADLER_LEN);
    let v_out: Vec<u8> = match inflate(body, cache) {
        Err(e) => {
            return Err(e);
        },
        Ok(x) => x,
    };
    if !check_trailer(v_in, v_out.as_slice()) {
        return Err(Error::ZlibChecksumMismatch);
    }
    Ok(v_out)
}

/// Restores the bytes that a ZLIB stream stands for into `v_out`, which must
/// have exactly their length.
pub fn zlib_decode_to(v_in: &[u8], cache: &mut Cache, v_out: &mut [u8]) -> (r: Result<(), Error>)
    ensures
        final(v_out)@.len() == old(v_out)@.len(),
        match zlib_decode_to_spec(v_in@, old(v_out)@.len() as int) {
            Ok(v) => r is Ok && final(v_out)@ == v,
            Err(e) => r == Err::<(), Error>(e),
        },
{
    match check_header(v_in) {
        Err(e) => {
            return Err(e);
        },
        Ok(()) => {},
    }
    let body = slice_subrange(v_in, HEADER_LEN, v_in.len() - ADLER_LEN);
    match inflate_to(body, cache, v_out) {
        Err(e) => {
            return Err(e);
        },
        Ok(()) => {},
    }
    if !check_trailer(v_in, v_out) {
        return Err(Error::ZlibChecksumMismatch);
    }
    Ok(())
}

} // verus!
