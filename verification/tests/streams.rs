use devker::btype::BlockType;
use devker::cache::Cache;
use devker::code::Code;
use devker::error::Error;
use devker::huffman::huffman_encode;
use devker::lengths::{lengths_ok, limit_lengths, package_merge};
use devker::prelude::{deflate, inflate, inflate_to, zlib_decode, zlib_decode_to, zlib_encode};
use rand::Rng;

/// Packs fields into bytes from the least significant bit on. A field is
/// `(value, width, true)` for a Huffman code, sent most significant bit first,
/// or `(value, width, false)` for a plain number.
fn pack(fields: &[(u32, u8, bool)]) -> Vec<u8> {
    let mut bits = Vec::new();
    for (value, width, code) in fields {
        for i in 0..*width {
            let at = if *code { width - 1 - i } else { i };
            bits.push((value >> at) & 1 == 1);
        }
    }
    let mut out = vec![0u8; (bits.len() + 7) / 8];
    for (i, b) in bits.iter().enumerate() {
        if *b {
            out[i / 8] |= 1 << (i % 8);
        }
    }
    out
}

fn round_trip(v: &[u8], btype: BlockType) {
    let mut c1 = Cache::new();
    let mut c2 = Cache::new();
    let encoded = deflate(v, btype, &mut c1);
    assert_eq!(inflate(&encoded, &mut c2), Ok(v.to_vec()));
    // The same cache again, as it was left.
    assert_eq!(inflate(&encoded, &mut c1), Ok(v.to_vec()));
    let z = zlib_encode(v, btype, &mut c2);
    assert_eq!(zlib_decode(&z, &mut c1), Ok(v.to_vec()));
}

fn both(v: &[u8]) {
    round_trip(v, BlockType::Fixed);
    round_trip(v, BlockType::Dynamic);
}

fn noise(len: usize, mut x: u64) -> Vec<u8> {
    let mut v = Vec::with_capacity(len);
    for _ in 0..len {
        x ^= x << 13;
        x ^= x >> 7;
        x ^= x << 17;
        v.push((x >> 32) as u8);
    }
    v
}

#[test]
fn empty_input_fixed_is_the_empty_block() {
    let mut cache = Cache::new();
    let encoded = deflate(b"", BlockType::Fixed, &mut cache);
    assert_eq!(encoded, vec![0x03, 0x00]);
    assert_eq!(inflate(&encoded, &mut cache), Ok(vec![]));
}

#[test]
fn empty_input_dynamic_round_trips() {
    let mut cache = Cache::new();
    let encoded = deflate(b"", BlockType::Dynamic, &mut cache);
    assert_eq!(encoded[0] & 0x07, 0b101);
    assert_eq!(inflate(&encoded, &mut cache), Ok(vec![]));
}

#[test]
fn empty_input_dynamic_has_the_known_bits() {
    let mut cache = Cache::new();
    let encoded = deflate(b"", BlockType::Dynamic, &mut cache);
    // Only the end-of-block symbol occurs: it gets a code of one bit. The 258
    // code lengths are 256 zeros, a one and a zero; written as two runs of
    // zeros (symbol 18), the length 1 and the length 0. Of the code-length
    // alphabet 18 occurs twice and gets one bit, 0 and 1 get two bits each.
    let mut fields = vec![(1, 1, false), (2, 2, false), (0, 5, false), (0, 5, false), (14, 4, false)];
    for f in [0u32, 0, 1, 2, 0, 0, 0, 0, 0, 0, 0, 0, 0, 0, 0, 0, 0, 2] {
        fields.push((f, 3, false));
    }
    fields.push((0, 1, true));
    fields.push((138 - 11, 7, false));
    fields.push((0, 1, true));
    fields.push((118 - 11, 7, false));
    fields.push((3, 2, true));
    fields.push((2, 2, true));
    fields.push((0, 1, true));
    assert_eq!(encoded, pack(&fields));
}

#[test]
fn single_byte_fixed_has_the_known_bytes() {
    let mut cache = Cache::new();
    let encoded = deflate(b"A", BlockType::Fixed, &mut cache);
    // Header bits 1, 01; the code 0111_0001 of 'A'; the end-of-block code.
    assert_eq!(encoded, pack(&[(1, 1, false), (1, 2, false), (0x71, 8, true), (0, 7, true)]));
    assert_eq!(encoded, vec![0x73, 0x04, 0x00]);
    assert_eq!(inflate(&encoded, &mut cache), Ok(b"A".to_vec()));
}

#[test]
fn fixed_codes_of_all_four_ranges() {
    let mut cache = Cache::new();
    // Literal 0x90 = 144 has the nine-bit code 1_1001_0000.
    let encoded = deflate(&[0x00, 0x8F, 0x90, 0xFF], BlockType::Fixed, &mut cache);
    assert_eq!(
        encoded,
        pack(&[
            (1, 1, false),
            (1, 2, false),
            (0x30, 8, true),
            (0xBF, 8, true),
            (0x190, 9, true),
            (0x1FF, 9, true),
            (0, 7, true),
        ])
    );
}

#[test]
fn fixed_back_reference_has_the_known_bits() {
    let mut cache = Cache::new();
    let encoded = deflate(b"abcdeabcde", BlockType::Fixed, &mut cache);
    // Five literals; length 5 is symbol 259, code 000_0011; distance 5 is symbol
    // 4 with one extra bit 0.
    assert_eq!(
        encoded,
        pack(&[
            (1, 1, false),
            (1, 2, false),
            (0x30 + 0x61, 8, true),
            (0x30 + 0x62, 8, true),
            (0x30 + 0x63, 8, true),
            (0x30 + 0x64, 8, true),
            (0x30 + 0x65, 8, true),
            (3, 7, true),
            (4, 5, true),
            (0, 1, false),
            (0, 7, true),
        ])
    );
    assert_eq!(inflate(&encoded, &mut cache), Ok(b"abcdeabcde".to_vec()));
}

#[test]
fn one_two_three_byte_inputs_round_trip() {
    both(b"");
    both(b"x");
    both(b"xy");
    both(b"xyz");
    both(b"xxx");
    both(b"xxxx");
}

#[test]
fn abcabc_round_trips() {
    both(&[0x61, 0x62, 0x63, 0x61, 0x62, 0x63]);
}

#[test]
fn thousand_zeros_round_trip() {
    both(&vec![0u8; 1000]);
    let mut cache = Cache::new();
    assert!(deflate(&vec![0u8; 1000], BlockType::Fixed, &mut cache).len() < 20);
}

#[test]
fn repetitions_around_the_longest_match_round_trip() {
    both(&vec![9u8; 257]);
    both(&vec![9u8; 258]);
    both(&vec![9u8; 259]);
    both(&vec![9u8; 260]);
    both(&vec![9u8; 517]);
}

#[test]
fn repetitions_of_window_size_round_trip() {
    both(&vec![0xABu8; 32768]);
    both(&vec![0xABu8; 32769]);
    let mut v = noise(32768, 5);
    let again = v.clone();
    v.extend_from_slice(&again);
    both(&v);
}

#[test]
fn the_cache_can_be_reused() {
    let mut cache = Cache::new();
    let first = b"Hello world, this is a wonderful world !".to_vec();
    let encoded = deflate(&first, BlockType::Fixed, &mut cache);
    assert_eq!(inflate(&encoded, &mut cache), Ok(first.clone()));
    let second = b"The cache can be reused !".to_vec();
    let encoded = deflate(&second, BlockType::Dynamic, &mut cache);
    assert_eq!(inflate(&encoded, &mut cache), Ok(second.clone()));
    let z = zlib_encode(&second, BlockType::Dynamic, &mut cache);
    // The trailer is the Adler-32 checksum of the input.
    assert_eq!(&z[z.len() - 4..], &[0x6E, 0xDB, 0x08, 0x58]);
    assert_eq!(zlib_decode(&z, &mut cache), Ok(second));
}

#[test]
fn random_mebibyte_round_trips() {
    let v = noise(1 << 20, 0x1234_5678_9ABC_DEF1);
    both(&v);
}

#[test]
fn random_mebibyte_from_the_system_round_trips() {
    let mut v = vec![0u8; 1 << 20];
    rand::thread_rng().fill(&mut v[..]);
    round_trip(&v, BlockType::Dynamic);
}

#[test]
fn text_round_trips_and_shrinks() {
    let mut v = Vec::new();
    for i in 0..2000 {
        v.extend_from_slice(format!("line {} of the text, which is much like line {}\n", i, i / 2).as_bytes());
    }
    both(&v);
    let mut cache = Cache::new();
    let fixed = deflate(&v, BlockType::Fixed, &mut cache);
    let dynamic = deflate(&v, BlockType::Dynamic, &mut cache);
    assert!(fixed.len() < v.len() / 2);
    assert!(dynamic.len() < fixed.len());
}

#[test]
fn every_byte_value_round_trips() {
    let mut v = Vec::new();
    for round in 0..3 {
        for b in 0..=255u8 {
            v.push(b.wrapping_mul(round * 2 + 1));
        }
    }
    both(&v);
}

#[test]
fn skewed_frequencies_round_trip() {
    // Frequencies like Fibonacci numbers ask for a deep tree; the limit of 15
    // bits has to hold.
    let mut v = Vec::new();
    let (mut a, mut b) = (1usize, 1usize);
    for sym in 0..24u8 {
        for _ in 0..a {
            v.push(sym);
            v.push(sym.wrapping_mul(7).wrapping_add(sym));
        }
        let next = a + b;
        a = b;
        b = next;
    }
    let mixed = noise(v.len(), 77).iter().zip(v.iter()).map(|(n, x)| if n % 4 == 0 { *n } else { *x }).collect::<Vec<u8>>();
    both(&v);
    both(&mixed);
}

#[test]
fn fixed_never_grows_by_more_than_an_eighth() {
    for len in [0usize, 1, 2, 3, 7, 8, 100, 1000, 4096] {
        let v = vec![0x90u8; len].iter().enumerate().map(|(i, _)| 144 + (i * 37 % 112) as u8).collect::<Vec<u8>>();
        let mut cache = Cache::new();
        let encoded = deflate(&v, BlockType::Fixed, &mut cache);
        assert!(encoded.len() <= v.len() * 9 / 8 + 3);
    }
    let v = noise(100_000, 3);
    let mut cache = Cache::new();
    assert!(deflate(&v, BlockType::Fixed, &mut cache).len() <= v.len() * 9 / 8 + 3);
}

#[test]
fn deflate_does_not_depend_on_the_cache() {
    let v = noise(5000, 11).iter().map(|b| b % 7).collect::<Vec<u8>>();
    for btype in [BlockType::Fixed, BlockType::Dynamic] {
        let mut clean = Cache::new();
        let mut other = Cache::new();
        let first = deflate(&v, btype, &mut clean);
        let _ = deflate(b"something else entirely", BlockType::Dynamic, &mut other);
        let _ = inflate(&first, &mut other);
        assert_eq!(deflate(&v, btype, &mut other), first);
        assert_eq!(deflate(&v, btype, &mut clean), first);
    }
}

#[test]
fn inflate_reads_a_stored_block() {
    let mut cache = Cache::new();
    let stream = [0x01, 0x03, 0x00, 0xFC, 0xFF, b'a', b'b', b'c'];
    assert_eq!(inflate(&stream, &mut cache), Ok(b"abc".to_vec()));
    let empty = [0x01, 0x00, 0x00, 0xFF, 0xFF];
    assert_eq!(inflate(&empty, &mut cache), Ok(vec![]));
}

#[test]
fn inflate_reads_several_blocks() {
    let mut cache = Cache::new();
    // A stored block that is not the last, then a fixed block with "A".
    let stream = [0x00, 0x01, 0x00, 0xFE, 0xFF, b'X', 0x73, 0x04, 0x00];
    assert_eq!(inflate(&stream, &mut cache), Ok(b"XA".to_vec()));
    // A fixed block that is not the last ('A', end of block: 18 bits), then a
    // stored block at the next byte boundary.
    let mut stream = pack(&[(0, 1, false), (1, 2, false), (0x71, 8, true), (0, 7, true), (0, 1, false), (0, 2, false)]);
    stream.extend_from_slice(&[0x02, 0x00, 0xFD, 0xFF, b'B', b'C']);
    stream.extend_from_slice(&[0x73, 0x04, 0x00]);
    assert_eq!(inflate(&stream, &mut cache), Ok(b"ABCA".to_vec()));
}

#[test]
fn inflate_back_reference_reaches_into_an_earlier_block() {
    let mut cache = Cache::new();
    let mut stream = vec![0x00, 0x03, 0x00, 0xFC, 0xFF, b'a', b'b', b'c'];
    // Final fixed block: length 3 (symbol 257), distance 3 (symbol 2), end.
    stream.extend_from_slice(&pack(&[(1, 1, false), (1, 2, false), (1, 7, true), (2, 5, true), (0, 7, true)]));
    assert_eq!(inflate(&stream, &mut cache), Ok(b"abcabc".to_vec()));
}

#[test]
fn inflate_length_258_uses_symbol_285() {
    let mut cache = Cache::new();
    let stream = pack(&[
        (1, 1, false),
        (1, 2, false),
        (0x30 + 0x5A, 8, true),
        (0xC5, 8, true),
        (0, 5, true),
        (0, 7, true),
    ]);
    let mut expected = vec![0x5Au8; 259];
    assert_eq!(inflate(&stream, &mut cache), Ok(expected.clone()));
    // Symbol 284 with all extra bits set gives 258 as well.
    let stream = pack(&[
        (1, 1, false),
        (1, 2, false),
        (0x30 + 0x5A, 8, true),
        (0xC4, 8, true),
        (31, 5, false),
        (0, 5, true),
        (0, 7, true),
    ]);
    expected.truncate(259);
    assert_eq!(inflate(&stream, &mut cache), Ok(expected));
}

#[test]
fn inflate_rejects_reserved_block_type() {
    let mut cache = Cache::new();
    assert_eq!(inflate(&[0x07], &mut cache), Err(Error::ReservedBlockType));
    assert_eq!(inflate(&[0x06, 0x00], &mut cache), Err(Error::ReservedBlockType));
}

#[test]
fn inflate_rejects_wrong_complement() {
    let mut cache = Cache::new();
    assert_eq!(
        inflate(&[0x01, 0x03, 0x00, 0x00, 0x00, b'a', b'b', b'c'], &mut cache),
        Err(Error::LengthComplementMismatch)
    );
    assert_eq!(
        inflate(&[0x01, 0x03, 0x00, 0xFC, 0xFE, b'a', b'b', b'c'], &mut cache),
        Err(Error::LengthComplementMismatch)
    );
}

#[test]
fn inflate_rejects_truncated_input() {
    let mut cache = Cache::new();
    assert_eq!(inflate(&[], &mut cache), Err(Error::BufferOverflow));
    assert_eq!(inflate(&[0x01, 0x03, 0x00, 0xFC], &mut cache), Err(Error::BufferOverflow));
    assert_eq!(inflate(&[0x01, 0x03, 0x00, 0xFC, 0xFF, b'a', b'b'], &mut cache), Err(Error::BufferOverflow));
    // A fixed block without its end-of-block code.
    assert_eq!(inflate(&[0x73], &mut cache), Err(Error::BufferOverflow));
    // A block that is not the last, and nothing after it.
    assert_eq!(inflate(&[0x00, 0x00, 0x00, 0xFF, 0xFF], &mut cache), Err(Error::BufferOverflow));
    let v = noise(3000, 9);
    let encoded = deflate(&v, BlockType::Dynamic, &mut cache);
    for cut in [1usize, 2, 10, encoded.len() / 2, encoded.len() - 1] {
        assert_eq!(inflate(&encoded[..cut], &mut cache), Err(Error::BufferOverflow));
    }
}

#[test]
fn inflate_rejects_symbols_outside_the_alphabet() {
    let mut cache = Cache::new();
    // The fixed code has codes for the symbols 286 and 287, which stand for nothing.
    assert_eq!(
        inflate(&pack(&[(1, 1, false), (1, 2, false), (0xC6, 8, true), (0, 16, false)]), &mut cache),
        Err(Error::InvalidSymbol)
    );
    assert_eq!(
        inflate(&pack(&[(1, 1, false), (1, 2, false), (0xC7, 8, true), (0, 16, false)]), &mut cache),
        Err(Error::InvalidSymbol)
    );
}

#[test]
fn inflate_rejects_bits_that_are_no_code() {
    let mut cache = Cache::new();
    // The fixed distance code has no code 30.
    let stream = pack(&[
        (1, 1, false),
        (1, 2, false),
        (0x71, 8, true),
        (1, 7, true),
        (30, 5, true),
        (0, 16, false),
    ]);
    assert_eq!(inflate(&stream, &mut cache), Err(Error::InvalidWidth));
}

#[test]
fn inflate_rejects_reference_before_start() {
    let mut cache = Cache::new();
    let stream = pack(&[(1, 1, false), (1, 2, false), (1, 7, true), (0, 5, true), (0, 7, true)]);
    assert_eq!(inflate(&stream, &mut cache), Err(Error::BackReferenceOutOfRange));
    let stream = pack(&[
        (1, 1, false),
        (1, 2, false),
        (0x71, 8, true),
        (1, 7, true),
        (1, 5, true),
        (0, 7, true),
    ]);
    assert_eq!(inflate(&stream, &mut cache), Err(Error::BackReferenceOutOfRange));
}

fn dynamic_header(fields: [u32; 4]) -> Vec<(u32, u8, bool)> {
    // 257 literal/length codes, 1 distance code, four length fields: for the
    // symbols 16, 17, 18 and 0 of the code-length alphabet.
    let mut v = vec![(1, 1, false), (2, 2, false), (0, 5, false), (0, 5, false), (0, 4, false)];
    for f in fields {
        v.push((f, 3, false));
    }
    v
}

#[test]
fn inflate_rejects_repeat_without_a_length() {
    let mut cache = Cache::new();
    // Symbols 16 and 0 have codes of one bit: 0 is "0" and 16 is "1".
    let mut fields = dynamic_header([1, 0, 0, 1]);
    fields.push((1, 1, true));
    fields.push((0, 2, false));
    fields.push((0, 32, false));
    assert_eq!(inflate(&pack(&fields), &mut cache), Err(Error::NoPreviousWidth));
}

#[test]
fn inflate_rejects_code_lengths_that_overrun() {
    let mut cache = Cache::new();
    // Symbols 18 and 0 have codes of one bit. Two runs of 138 zeros are more
    // than the 258 lengths that the header announces.
    let mut fields = dynamic_header([0, 0, 1, 1]);
    fields.push((1, 1, true));
    fields.push((127, 7, false));
    fields.push((1, 1, true));
    fields.push((127, 7, false));
    fields.push((0, 32, false));
    assert_eq!(inflate(&pack(&fields), &mut cache), Err(Error::InvalidCodeLengths));
}

#[test]
fn inflate_rejects_a_block_without_codes() {
    let mut cache = Cache::new();
    // All 258 code lengths zero: no bits are a code.
    let mut fields = dynamic_header([0, 0, 1, 1]);
    fields.push((1, 1, true));
    fields.push((127, 7, false));
    fields.push((1, 1, true));
    fields.push((109, 7, false));
    fields.push((0, 32, false));
    assert_eq!(inflate(&pack(&fields), &mut cache), Err(Error::InvalidWidth));
}

#[test]
fn inflate_reads_a_hand_made_dynamic_block() {
    let mut cache = Cache::new();
    // Code-length code: symbols 18, 0 and 1 ... here 18 -> 1 bit, 0 -> 2 bits,
    // 1 -> 2 bits; fields in the order 16, 17, 18, 0, 8, 7, 9, 6, 10, 5, 11,
    // 4, 12, 3, 13, 2, 14, 1.
    let mut fields = vec![(1, 1, false), (2, 2, false), (0, 5, false), (0, 5, false), (14, 4, false)];
    for f in [0u32, 0, 1, 2, 0, 0, 0, 0, 0, 0, 0, 0, 0, 0, 0, 0, 0, 2] {
        fields.push((f, 3, false));
    }
    // Canonical: 18 is "0", 0 is "10", 1 is "11".
    // Lengths: 65 zeros, 'A' = 1 bit, 190 zeros, end of block = 1 bit, one
    // distance length 0.
    fields.push((0, 1, true));
    fields.push((65 - 11, 7, false));
    fields.push((3, 2, true));
    fields.push((0, 1, true));
    fields.push((138 - 11, 7, false));
    fields.push((0, 1, true));
    fields.push((52 - 11, 7, false));
    fields.push((3, 2, true));
    fields.push((2, 2, true));
    // Body: 'A' is "0", end of block is "1".
    fields.push((0, 1, true));
    fields.push((0, 1, true));
    fields.push((0, 1, true));
    fields.push((1, 1, true));
    assert_eq!(inflate(&pack(&fields), &mut cache), Ok(b"AAA".to_vec()));
}

#[test]
fn inflate_to_fills_a_buffer_of_the_right_size() {
    let mut cache = Cache::new();
    let v = b"Hello world, this is a wonderful world !".to_vec();
    let encoded = deflate(&v, BlockType::Fixed, &mut cache);
    let mut out = vec![0u8; v.len()];
    assert_eq!(inflate_to(&encoded, &mut cache, &mut out), Ok(()));
    assert_eq!(out, v);
    let mut short = vec![0u8; v.len() - 1];
    assert_eq!(inflate_to(&encoded, &mut cache, &mut short), Err(Error::BufferOverflow));
    let mut long = vec![0u8; v.len() + 1];
    assert_eq!(inflate_to(&encoded, &mut cache, &mut long), Err(Error::BufferOverflow));
    let mut out = vec![0u8; v.len()];
    assert_eq!(inflate_to(&[0x07], &mut cache, &mut out), Err(Error::ReservedBlockType));
}

#[test]
fn zlib_frame_of_a_single_byte() {
    let mut cache = Cache::new();
    let z = zlib_encode(b"A", BlockType::Fixed, &mut cache);
    assert_eq!(z, vec![0x78, 0x9C, 0x73, 0x04, 0x00, 0x00, 0x42, 0x00, 0x42]);
    assert_eq!((0x78u32 * 256 + 0x9C) % 31, 0);
    assert_eq!(zlib_decode(&z, &mut cache), Ok(b"A".to_vec()));
    let z = zlib_encode(b"", BlockType::Fixed, &mut cache);
    assert_eq!(z, vec![0x78, 0x9C, 0x03, 0x00, 0x00, 0x00, 0x00, 0x01]);
}

#[test]
fn zlib_decode_accepts_other_valid_headers() {
    let mut cache = Cache::new();
    // Window of 256 bytes, fastest level: 0x08 0x1D.
    assert_eq!((0x08u32 * 256 + 0x1D) % 31, 0);
    let z = [0x08, 0x1D, 0x73, 0x04, 0x00, 0x00, 0x42, 0x00, 0x42];
    assert_eq!(zlib_decode(&z, &mut cache), Ok(b"A".to_vec()));
}

#[test]
fn zlib_decode_rejects_each_fault() {
    let mut cache = Cache::new();
    assert_eq!(zlib_decode(&[], &mut cache), Err(Error::ZlibHeaderTooShort));
    assert_eq!(zlib_decode(&[0x78, 0x9C, 0x03, 0x00, 0x00], &mut cache), Err(Error::ZlibHeaderTooShort));
    let good = [0x78, 0x9C, 0x73, 0x04, 0x00, 0x00, 0x42, 0x00, 0x42];
    let mut z = good;
    z[0] = 0x79;
    assert_eq!(zlib_decode(&z, &mut cache), Err(Error::ZlibUnsupportedMethod));
    let mut z = good;
    z[1] = 0x9D;
    assert_eq!(zlib_decode(&z, &mut cache), Err(Error::ZlibFcheckMismatch));
    let mut z = good;
    z[1] = 0x20;
    assert_eq!((0x78u32 * 256 + 0x20) % 31, 0);
    assert_eq!(zlib_decode(&z, &mut cache), Err(Error::ZlibPresetDictionary));
    let mut z = good;
    z[8] = 0x43;
    assert_eq!(zlib_decode(&z, &mut cache), Err(Error::ZlibChecksumMismatch));
    let mut z = good;
    z[2] = 0x07;
    assert_eq!(zlib_decode(&z, &mut cache), Err(Error::ReservedBlockType));
    // The method comes before the check bits.
    assert_eq!(zlib_decode(&[0x79, 0x00, 0, 0, 0, 0], &mut cache), Err(Error::ZlibUnsupportedMethod));
}

#[test]
fn zlib_decode_to_fills_a_buffer_of_the_right_size() {
    let mut cache = Cache::new();
    let v = b"The cache can be reused !".to_vec();
    let z = zlib_encode(&v, BlockType::Dynamic, &mut cache);
    let mut out = vec![0u8; v.len()];
    assert_eq!(zlib_decode_to(&z, &mut cache, &mut out), Ok(()));
    assert_eq!(out, v);
    let mut short = vec![0u8; 3];
    assert_eq!(zlib_decode_to(&z, &mut cache, &mut short), Err(Error::BufferOverflow));
    let mut bad = z.clone();
    let last = bad.len() - 1;
    bad[last] ^= 1;
    let mut out = vec![0u8; v.len()];
    assert_eq!(zlib_decode_to(&bad, &mut cache, &mut out), Err(Error::ZlibChecksumMismatch));
    assert_eq!(zlib_decode_to(&[0x79, 0, 0, 0, 0, 0], &mut cache, &mut out), Err(Error::ZlibUnsupportedMethod));
}

#[test]
fn huffman_encode_writes_codes_as_given() {
    let mut cache = Cache::new();
    let codes = [Code::Literal(b'A'), Code::EndOfBlock];
    assert_eq!(huffman_encode(&codes, BlockType::Fixed, cache.inner_mut()), vec![0x73, 0x04, 0x00]);
    let codes = [
        Code::Literal(b'a'),
        Code::Pointer { distance: 1, length: 255 },
        Code::Pointer { distance: 32768, length: 8 },
        Code::EndOfBlock,
    ];
    assert_eq!(
        huffman_encode(&codes, BlockType::Fixed, cache.inner_mut()),
        pack(&[
            (1, 1, false),
            (1, 2, false),
            (0x30 + 0x61, 8, true),
            (0xC5, 8, true),
            (0, 5, true),
            (9, 7, true),
            (0, 1, false),
            (29, 5, true),
            (8191, 13, false),
            (0, 7, true),
        ])
    );
}

#[test]
fn package_merge_gives_sound_lengths() {
    let cases: Vec<Vec<usize>> = vec![
        vec![1],
        vec![0, 5, 0],
        vec![1, 1],
        vec![1, 1, 1],
        vec![1, 1, 2, 2],
        vec![5, 9, 12, 13, 16, 45],
        vec![1, 2, 4, 8, 16, 32, 64, 128, 256, 512, 1024, 2048, 4096, 8192, 16384, 32768, 65536, 131072],
        (1..=286).collect(),
        vec![1000; 286],
        (0..286).map(|i| if i % 3 == 0 { 0 } else { (i * i) % 97 + 1 }).collect(),
    ];
    for freqs in cases {
        for limit in [7u8, 9, 15] {
            if freqs.len() > (1 << limit) {
                continue;
            }
            let widths = package_merge(&freqs, limit);
            assert!(lengths_ok(&widths, &freqs, limit), "{:?} at {}", freqs, limit);
            assert_eq!(limit_lengths(&freqs, limit), widths);
        }
    }
}

#[test]
fn package_merge_of_textbook_frequencies() {
    // The Huffman code of these frequencies has the lengths 4, 4, 3, 3, 3, 1.
    assert_eq!(package_merge(&[5, 9, 12, 13, 16, 45], 15), vec![4, 4, 3, 3, 3, 1]);
    // Limited to three bits, the frequent symbol has to give way.
    let limited = package_merge(&[5, 9, 12, 13, 16, 45], 3);
    assert!(limited.iter().all(|w| 1 <= *w && *w <= 3));
    assert_eq!(limited.iter().map(|w| 1u32 << (3 - w)).sum::<u32>(), 8);
    assert_eq!(package_merge(&[0, 7, 0], 15), vec![0, 1, 0]);
    assert_eq!(package_merge(&[3, 3], 15), vec![1, 1]);
    assert_eq!(package_merge(&[], 15), Vec::<u8>::new());
}

#[test]
fn lengths_ok_tells_sound_from_unsound() {
    assert!(lengths_ok(&[1, 1], &[3, 4], 15));
    assert!(lengths_ok(&[2, 2, 2, 2], &[1, 1, 1, 1], 15));
    assert!(lengths_ok(&[1, 0], &[3, 0], 15));
    // Three codes of one bit do not exist.
    assert!(!lengths_ok(&[1, 1, 1], &[1, 1, 1], 15));
    // A symbol that occurs needs a code.
    assert!(!lengths_ok(&[1, 0], &[3, 1], 15));
    // A symbol that does not occur has none.
    assert!(!lengths_ok(&[1, 1], &[3, 0], 15));
    // The limit holds.
    assert!(!lengths_ok(&[1, 8], &[3, 1], 7));
    assert!(!lengths_ok(&[1], &[3, 1], 15));
}
