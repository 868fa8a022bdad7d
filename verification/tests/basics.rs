use devker::adler32::Adler32;
use devker::bits::Bits;
use devker::btype::BlockType;
use devker::cache::Cache;
use devker::code::{distance_entry, div_rem, length_entry, Code};
use devker::error::Error;

fn adler(bytes: &[u8]) -> [u8; 4] {
    let mut a = Adler32::new();
    a.update(bytes);
    a.checksum()
}

fn adler_reference(bytes: &[u8]) -> [u8; 4] {
    let mut s1: u64 = 1;
    let mut s2: u64 = 0;
    for b in bytes {
        s1 = (s1 + *b as u64) % 65521;
        s2 = (s2 + s1) % 65521;
    }
    (((s2 << 16) | s1) as u32).to_be_bytes()
}

#[test]
fn adler32_of_nothing_is_one() {
    assert_eq!(adler(b""), [0, 0, 0, 1]);
}

#[test]
fn adler32_known_vectors() {
    assert_eq!(adler(b"A"), [0x00, 0x42, 0x00, 0x42]);
    assert_eq!(adler(b"a"), [0x00, 0x62, 0x00, 0x62]);
    assert_eq!(adler(b"abc"), [0x02, 0x4d, 0x01, 0x27]);
    assert_eq!(adler(b"Wikipedia"), [0x11, 0xE6, 0x03, 0x98]);
    assert_eq!(adler(b"message digest"), [0x29, 0x75, 0x05, 0x86]);
}

#[test]
fn adler32_matches_reference_on_long_inputs() {
    let mut v = Vec::new();
    for i in 0..100_000u32 {
        v.push((i.wrapping_mul(2654435761) >> 24) as u8);
    }
    assert_eq!(adler(&v), adler_reference(&v));
    let high = vec![0xFFu8; 70_000];
    assert_eq!(adler(&high), adler_reference(&high));
}

#[test]
fn adler32_update_in_pieces_is_update_at_once() {
    let mut a = Adler32::new();
    a.update(b"The cache ");
    a.update(b"can be reused !");
    assert_eq!(a.checksum(), adler(b"The cache can be reused !"));
}

#[test]
fn adler32_is_a_copy_type() {
    let mut a = Adler32::new();
    a.update(b"x");
    let b = a;
    a.update(b"y");
    assert_eq!(b.checksum(), adler(b"x"));
    assert_eq!(a.checksum(), adler(b"xy"));
}

#[test]
fn bits_pack_and_unpack() {
    let b = Bits { data: 0x1234, width: 13 };
    assert_eq!(b.as_i32(), 13 * 65536 + 0x1234);
    assert_eq!(Bits::from(b.as_i32()), b);
    assert_eq!(Bits::from(0), Bits { data: 0, width: 0 });
    assert_eq!(Bits::from(-1), Bits { data: 0xFFFF, width: 0xFF });
    assert_eq!(Bits::from(0x0107_00FF), Bits { data: 0x00FF, width: 7 });
}

#[test]
fn bits_reverse_low_bits() {
    assert_eq!(Bits { data: 0b0011, width: 4 }.reverse(), Bits { data: 0b1100, width: 4 });
    assert_eq!(Bits { data: 0b1, width: 1 }.reverse(), Bits { data: 0b1, width: 1 });
    assert_eq!(Bits { data: 0b1, width: 9 }.reverse(), Bits { data: 0b1_0000_0000, width: 9 });
    assert_eq!(Bits { data: 0x8001, width: 16 }.reverse(), Bits { data: 0x8001, width: 16 });
    assert_eq!(Bits { data: 0x0001, width: 16 }.reverse(), Bits { data: 0x8000, width: 16 });
    assert_eq!(Bits { data: 0xFFFF, width: 0 }.reverse(), Bits { data: 0, width: 0 });
    // Bits above the width play no part.
    assert_eq!(Bits { data: 0b1111_0001, width: 4 }.reverse(), Bits { data: 0b1000, width: 4 });
}

#[test]
fn bits_reverse_twice_is_identity_on_the_low_bits() {
    for width in 0..=16u8 {
        for data in [0u16, 1, 2, 0x55, 0xAA, 0x1234, 0x7FFF, 0xFFFF] {
            let low = if width == 16 { data } else { data & ((1u16 << width) - 1) };
            let b = Bits { data: low, width };
            assert_eq!(b.reverse().reverse(), b);
        }
    }
}

#[test]
fn block_type_from_wire_value() {
    assert_eq!(BlockType::from(0), BlockType::Raw);
    assert_eq!(BlockType::from(1), BlockType::Fixed);
    assert_eq!(BlockType::from(2), BlockType::Dynamic);
    assert_eq!(BlockType::Raw.to_bits(), 0);
    assert_eq!(BlockType::Fixed.to_bits(), 1);
    assert_eq!(BlockType::Dynamic.to_bits(), 2);
}

#[test]
fn cache_starts_zeroed_and_is_writable() {
    let mut cache = Cache::new();
    let slots = cache.inner_mut();
    assert_eq!(slots.len(), 0x10000);
    assert!(slots.iter().all(|x| *x == 0));
    slots[0xFFFF] = -7;
    assert_eq!(cache.inner_mut()[0xFFFF], -7);
}

#[test]
fn literal_code_of_each_kind() {
    assert_eq!(Code::Literal(0).literal_code(), 0);
    assert_eq!(Code::Literal(255).literal_code(), 255);
    assert_eq!(Code::EndOfBlock.literal_code(), 256);
    let p = |length: u8| Code::Pointer { distance: 1, length };
    assert_eq!(p(0).literal_code(), 257);
    assert_eq!(p(7).literal_code(), 264);
    assert_eq!(p(8).literal_code(), 265);
    assert_eq!(p(9).literal_code(), 265);
    assert_eq!(p(10).literal_code(), 266);
    assert_eq!(p(15).literal_code(), 268);
    assert_eq!(p(16).literal_code(), 269);
    assert_eq!(p(31).literal_code(), 272);
    assert_eq!(p(32).literal_code(), 273);
    assert_eq!(p(64).literal_code(), 277);
    assert_eq!(p(128).literal_code(), 281);
    assert_eq!(p(254).literal_code(), 284);
    assert_eq!(p(255).literal_code(), 285);
}

#[test]
fn extra_length_of_each_kind() {
    assert_eq!(Code::Literal(7).extra_length(), None);
    assert_eq!(Code::EndOfBlock.extra_length(), None);
    let p = |length: u8| Code::Pointer { distance: 1, length };
    assert_eq!(p(0).extra_length(), None);
    assert_eq!(p(7).extra_length(), None);
    assert_eq!(p(8).extra_length(), Some((1, 0)));
    assert_eq!(p(9).extra_length(), Some((1, 1)));
    assert_eq!(p(19).extra_length(), Some((2, 3)));
    assert_eq!(p(0x3F).extra_length(), Some((3, 7)));
    assert_eq!(p(0x7F).extra_length(), Some((4, 15)));
    assert_eq!(p(254).extra_length(), Some((5, 30)));
    assert_eq!(p(255).extra_length(), None);
}

#[test]
fn distance_code_of_each_range() {
    assert_eq!(Code::Literal(7).distance_code(), None);
    assert_eq!(Code::EndOfBlock.distance_code(), None);
    let p = |distance: u16| Code::Pointer { distance, length: 0 };
    assert_eq!(p(1).distance_code(), Some((0, 0, 0)));
    assert_eq!(p(4).distance_code(), Some((3, 0, 0)));
    assert_eq!(p(5).distance_code(), Some((4, 1, 0)));
    assert_eq!(p(6).distance_code(), Some((4, 1, 1)));
    assert_eq!(p(7).distance_code(), Some((5, 1, 0)));
    assert_eq!(p(9).distance_code(), Some((6, 2, 0)));
    assert_eq!(p(24).distance_code(), Some((8, 3, 7)));
    assert_eq!(p(257).distance_code(), Some((16, 7, 0)));
    assert_eq!(p(1024).distance_code(), Some((19, 8, 255)));
    assert_eq!(p(16385).distance_code(), Some((28, 13, 0)));
    assert_eq!(p(24577).distance_code(), Some((29, 13, 0)));
    assert_eq!(p(32768).distance_code(), Some((29, 13, 8191)));
}

#[test]
fn every_distance_is_its_schedule_entry_plus_extra_bits() {
    for distance in 1..=32768u32 {
        let code = Code::Pointer { distance: distance as u16, length: 0 };
        let (symbol, width, extra) = code.distance_code().unwrap();
        let (base, bits) = distance_entry(symbol as usize);
        assert_eq!(bits, width);
        assert_eq!(base as u32 + extra as u32, distance);
        assert!((extra as u32) < (1u32 << width));
    }
}

#[test]
fn every_length_is_its_schedule_entry_plus_extra_bits() {
    for length in 0..=255u16 {
        let code = Code::Pointer { distance: 1, length: length as u8 };
        let symbol = code.literal_code();
        let (base, bits) = length_entry(symbol as usize - 257);
        match code.extra_length() {
            None => {
                assert_eq!(bits, 0);
                assert_eq!(base as u16, length);
            }
            Some((width, extra)) => {
                assert_eq!(bits, width);
                assert_eq!(base as u16 + extra, length);
                assert!(extra < (1 << width));
            }
        }
    }
}

#[test]
fn schedule_entries_match_the_format() {
    assert_eq!(length_entry(0), (0, 0));
    assert_eq!(length_entry(8), (8, 1));
    assert_eq!(length_entry(11), (14, 1));
    assert_eq!(length_entry(12), (16, 2));
    assert_eq!(length_entry(27), (224, 5));
    assert_eq!(length_entry(28), (255, 0));
    assert_eq!(distance_entry(0), (1, 0));
    assert_eq!(distance_entry(3), (4, 0));
    assert_eq!(distance_entry(4), (5, 1));
    assert_eq!(distance_entry(5), (7, 1));
    assert_eq!(distance_entry(16), (257, 7));
    assert_eq!(distance_entry(29), (24577, 13));
}

#[test]
fn div_rem_gives_both() {
    assert_eq!(div_rem(17, 5), (3, 2));
    assert_eq!(div_rem(0, 7), (0, 0));
    assert_eq!(div_rem(65535, 1), (65535, 0));
}

#[test]
fn error_messages_are_the_familiar_ones() {
    assert_eq!(Error::BufferOverflow.message(), "Buffer overflow.");
    assert_eq!(Error::ReservedBlockType.message(), "Reserved btype.");
    assert_eq!(
        Error::LengthComplementMismatch.message(),
        "LEN is not the one's complement of NLEN."
    );
    assert_eq!(Error::ZlibChecksumMismatch.message(), "Zlib checksum error");
    assert_ne!(Error::InvalidWidth.message(), Error::InvalidSymbol.message());
}
