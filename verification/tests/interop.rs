use devker::btype::BlockType;
use devker::cache::Cache;
use devker::prelude::{deflate, inflate, zlib_decode, zlib_encode};
use std::io::{Read, Write};

fn samples() -> Vec<Vec<u8>> {
    let mut text = Vec::new();
    for i in 0..500 {
        text.extend_from_slice(format!("entry {} follows entry {} and so on; ", i, i.max(1) - 1).as_bytes());
    }
    let mut noise = Vec::new();
    let mut x: u32 = 99;
    for _ in 0..70_000 {
        x = x.wrapping_mul(1664525).wrapping_add(1013904223);
        noise.push((x >> 24) as u8);
    }
    vec![
        vec![],
        b"A".to_vec(),
        b"abcabc".to_vec(),
        vec![0u8; 1000],
        vec![0xEEu8; 100_000],
        b"The cache can be reused !".to_vec(),
        text,
        noise,
    ]
}

fn reference_inflate(stream: &[u8]) -> Vec<u8> {
    let mut decoder = libflate::deflate::Decoder::new(stream);
    let mut out = Vec::new();
    decoder.read_to_end(&mut out).unwrap();
    out
}

#[test]
fn reference_decoder_reads_our_fixed_streams() {
    let mut cache = Cache::new();
    for v in samples() {
        assert_eq!(reference_inflate(&deflate(&v, BlockType::Fixed, &mut cache)), v);
    }
}

#[test]
fn reference_decoder_reads_our_dynamic_streams() {
    let mut cache = Cache::new();
    for v in samples() {
        assert_eq!(reference_inflate(&deflate(&v, BlockType::Dynamic, &mut cache)), v);
    }
}

#[test]
fn reference_decoder_reads_our_zlib_streams() {
    let mut cache = Cache::new();
    for v in samples() {
        for btype in [BlockType::Fixed, BlockType::Dynamic] {
            let z = zlib_encode(&v, btype, &mut cache);
            let mut decoder = libflate::zlib::Decoder::new(&z[..]).unwrap();
            let mut out = Vec::new();
            decoder.read_to_end(&mut out).unwrap();
            assert_eq!(out, v);
        }
    }
}

#[test]
fn we_read_the_reference_encoder_dynamic_streams() {
    let mut cache = Cache::new();
    for v in samples() {
        let mut encoder = libflate::deflate::Encoder::new(Vec::new());
        encoder.write_all(&v).unwrap();
        let stream = encoder.finish().into_result().unwrap();
        assert_eq!(inflate(&stream, &mut cache), Ok(v));
    }
}

#[test]
fn we_read_the_reference_encoder_fixed_streams() {
    let mut cache = Cache::new();
    for v in samples() {
        let options = libflate::deflate::EncodeOptions::new().fixed_huffman_codes();
        let mut encoder = libflate::deflate::Encoder::with_options(Vec::new(), options);
        encoder.write_all(&v).unwrap();
        let stream = encoder.finish().into_result().unwrap();
        assert_eq!(inflate(&stream, &mut cache), Ok(v));
    }
}

#[test]
fn we_read_the_reference_encoder_stored_and_small_blocks() {
    let mut cache = Cache::new();
    for v in samples() {
        let options = libflate::deflate::EncodeOptions::new().no_compression();
        let mut encoder = libflate::deflate::Encoder::with_options(Vec::new(), options);
        encoder.write_all(&v).unwrap();
        let stream = encoder.finish().into_result().unwrap();
        assert_eq!(inflate(&stream, &mut cache), Ok(v.clone()));

        let options = libflate::deflate::EncodeOptions::new().block_size(300);
        let mut encoder = libflate::deflate::Encoder::with_options(Vec::new(), options);
        encoder.write_all(&v).unwrap();
        let stream = encoder.finish().into_result().unwrap();
        assert_eq!(inflate(&stream, &mut cache), Ok(v));
    }
}

#[test]
fn we_read_the_reference_encoder_zlib_streams() {
    let mut cache = Cache::new();
    for v in samples() {
        let mut encoder = libflate::zlib::Encoder::new(Vec::new()).unwrap();
        encoder.write_all(&v).unwrap();
        let stream = encoder.finish().into_result().unwrap();
        assert_eq!(zlib_decode(&stream, &mut cache), Ok(v));
    }
}

#[test]
fn our_dynamic_blocks_are_about_as_small_as_the_reference() {
    let mut cache = Cache::new();
    // Literals only, so that the matchers play no part: bytes with very
    // different frequencies and no repeated pairs worth a reference.
    let mut v = Vec::new();
    let mut x: u32 = 7;
    for _ in 0..50_000 {
        x = x.wrapping_mul(1664525).wrapping_add(1013904223);
        let r = (x >> 16) % 1000;
        v.push(if r < 500 { b'e' } else if r < 750 { b't' } else if r < 900 { b'a' } else { (x >> 8) as u8 });
    }
    let ours = deflate(&v, BlockType::Dynamic, &mut cache);
    let mut encoder = libflate::deflate::Encoder::new(Vec::new());
    encoder.write_all(&v).unwrap();
    let theirs = encoder.finish().into_result().unwrap();
    assert!(ours.len() < v.len() * 6 / 10);
    assert!(ours.len() <= theirs.len() * 12 / 10, "{} against {}", ours.len(), theirs.len());
}
