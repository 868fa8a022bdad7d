use devker::bits::Bits;
use devker::btype::BlockType;
use devker::cache::Cache;
use devker::code::Code;
use devker::decoder::{max_width_of, HuffmanDecoder};
use devker::error::Error;
use devker::header::{
    join_widths, count_frequencies, run_frequencies, run_lengths, same_run, trimmed, used_fields,
};
use devker::huffman::HuffmanEncoder;
use devker::reader::Reader;
use devker::writer::Writer;

#[test]
fn writer_packs_from_the_least_significant_bit() {
    let mut w = Writer::new();
    w.write_bits(Bits { data: 0b1, width: 1 });
    w.write_bits(Bits { data: 0b01, width: 2 });
    w.write_bits(Bits { data: 0b10110, width: 5 });
    assert_eq!(w.finish(), vec![0b1011_0011]);
}

#[test]
fn writer_pads_the_last_byte_with_zeros() {
    assert_eq!(Writer::new().finish(), Vec::<u8>::new());
    let mut w = Writer::new();
    w.write_bits(Bits { data: 1, width: 1 });
    assert_eq!(w.finish(), vec![0x01]);
    let mut w = Writer::new();
    w.write_bits(Bits { data: 0x1FF, width: 9 });
    assert_eq!(w.finish(), vec![0xFF, 0x01]);
    let mut w = Writer::new();
    w.write_bits(Bits { data: 0xABCD, width: 16 });
    assert_eq!(w.finish(), vec![0xCD, 0xAB]);
    let mut w = Writer::new();
    w.write_bits(Bits { data: 0xABCD, width: 16 });
    w.write_bits(Bits { data: 0x1, width: 1 });
    assert_eq!(w.finish(), vec![0xCD, 0xAB, 0x01]);
}

#[test]
fn writer_takes_only_the_low_bits_of_the_data() {
    let mut w = Writer::new();
    w.write_bits(Bits { data: 0xFFFF, width: 3 });
    w.write_bits(Bits { data: 0xFFFF, width: 0 });
    w.write_bits(Bits { data: 0x0000, width: 3 });
    w.write_bits(Bits { data: 0xFFFF, width: 2 });
    assert_eq!(w.finish(), vec![0b1100_0111]);
}

#[test]
fn writer_output_length_is_bits_over_eight_rounded_up() {
    for total in 0..100usize {
        let mut w = Writer::new();
        let mut left = total;
        let mut step = 1;
        while left > 0 {
            let width = step.min(left).min(16);
            w.write_bits(Bits { data: 0x5555, width: width as u8 });
            left -= width;
            step = step % 16 + 1;
        }
        assert_eq!(w.finish().len(), (total + 7) / 8);
    }
}

#[test]
fn reader_reads_what_the_writer_wrote() {
    let fields: Vec<(u16, u8)> =
        vec![(1, 1), (2, 2), (0x155, 9), (0, 0), (0xFFFF, 16), (0x1234, 13), (5, 3), (0x7F, 7), (1, 16)];
    let mut w = Writer::new();
    for (data, width) in &fields {
        w.write_bits(Bits { data: *data, width: *width });
    }
    let bytes = w.finish();
    let mut r = Reader::new(&bytes);
    for (data, width) in &fields {
        assert_eq!(r.peek_bits(*width), *data);
        assert_eq!(r.read_bits(*width), Ok(*data));
    }
}

#[test]
fn reader_peek_sees_zeros_after_the_end_and_read_fails() {
    let bytes = [0xFFu8];
    let mut r = Reader::new(&bytes);
    assert_eq!(r.peek_bits(12), 0x0FF);
    assert_eq!(r.read_bits(5), Ok(0x1F));
    assert_eq!(r.peek_bits(16), 0x0007);
    assert_eq!(r.read_bits(4), Err(Error::BufferOverflow));
    // The failed read took nothing.
    assert_eq!(r.read_bits(3), Ok(7));
    assert_eq!(r.read_bits(0), Ok(0));
    assert_eq!(r.read_bits(1), Err(Error::BufferOverflow));
    let mut empty = Reader::new(&[]);
    assert_eq!(empty.peek_bits(16), 0);
    assert_eq!(empty.read_bits(1), Err(Error::BufferOverflow));
}

#[test]
fn reader_reset_goes_to_the_next_byte_boundary() {
    let bytes = [0b0000_0101u8, 0x34, 0x12, 0xAA, 0xBB, 0xCC];
    let mut r = Reader::new(&bytes);
    assert_eq!(r.read_bits(3), Ok(0b101));
    r.reset();
    assert_eq!(r.read_u16(), Ok(0x1234));
    // At a boundary already: nothing is dropped.
    r.reset();
    let mut out = vec![9u8];
    assert_eq!(r.fill(&mut out, 2), Ok(()));
    assert_eq!(out, vec![9, 0xAA, 0xBB]);
    assert_eq!(r.read_bits(8), Ok(0xCC));
    r.reset();
    assert_eq!(r.read_u16(), Err(Error::BufferOverflow));
}

#[test]
fn reader_reset_gives_back_whole_bytes_that_were_looked_at() {
    let bytes = [0x01u8, 0x22, 0x33, 0x44];
    let mut r = Reader::new(&bytes);
    // A look at sixteen bits loads two bytes; only one bit is taken.
    assert_eq!(r.peek_bits(16), 0x2201);
    assert_eq!(r.read_bits(1), Ok(1));
    r.reset();
    assert_eq!(r.read_u16(), Ok(0x3322));
    let mut out = Vec::new();
    assert_eq!(r.fill(&mut out, 2), Err(Error::BufferOverflow));
    assert_eq!(r.fill(&mut out, 1), Ok(()));
    assert_eq!(out, vec![0x44]);
}

#[test]
fn decoder_table_of_a_small_code() {
    let mut cache = Cache::new();
    let buf = cache.inner_mut();
    // Lengths 2, 1, 3, 3 give the codes 10, 0, 110, 111.
    let (max_width, eob_width) = HuffmanDecoder::from_widthes(buf, 0, &[2, 1, 3, 3]);
    assert_eq!((max_width, eob_width), (3, 0));
    assert_eq!(max_width_of(&[2, 1, 3, 3]), 3);
    // A slot holds the symbol times 32 plus the width; its index is the code
    // with the first bit lowest, followed by any bits.
    let expected = [1 * 32 + 1, 0 * 32 + 2, 1 * 32 + 1, 2 * 32 + 3, 1 * 32 + 1, 0 * 32 + 2, 1 * 32 + 1, 3 * 32 + 3];
    assert_eq!(&buf[0..8], &expected);
}

#[test]
fn decoder_table_marks_bits_that_are_no_code() {
    let mut cache = Cache::new();
    let buf = cache.inner_mut();
    for slot in buf.iter_mut() {
        *slot = 12345;
    }
    // One code of two bits: 00. The other three slots stand for nothing.
    let (max_width, _) = HuffmanDecoder::from_widthes(buf, 16, &[0, 2]);
    assert_eq!(max_width, 2);
    assert_eq!(&buf[16..20], &[1 * 32 + 2, 16, 16, 16]);
    // Slots outside the table are left alone.
    assert_eq!(buf[15], 12345);
    assert_eq!(buf[20], 12345);
    // No code at all: a table of one empty slot.
    let (max_width, _) = HuffmanDecoder::from_widthes(buf, 0, &[0, 0, 0]);
    assert_eq!(max_width, 0);
    assert_eq!(buf[0], 16);
}

#[test]
fn decoder_reports_the_end_of_block_width() {
    let mut cache = Cache::new();
    let mut widths = vec![8u8; 257];
    widths[256] = 5;
    widths[0] = 9;
    let (max_width, eob_width) = HuffmanDecoder::from_widthes(cache.inner_mut(), 0, &widths);
    assert_eq!((max_width, eob_width), (9, 5));
}

#[test]
fn set_mapping_fills_every_slot_that_starts_with_the_code() {
    let mut cache = Cache::new();
    let buf = cache.inner_mut();
    // Code 110 of three bits in a table of five: as sent 011, so the slots
    // 3, 11, 19 and 27.
    HuffmanDecoder::set_mapping(buf, 100, 7, 0b110, 3, 5);
    for idx in 0..32usize {
        let expected = if idx % 8 == 3 { 7 * 32 + 3 } else { 0 };
        assert_eq!(buf[100 + idx], expected);
    }
}

#[test]
fn encoder_table_holds_width_and_code_as_sent() {
    let mut cache = Cache::new();
    let buf = cache.inner_mut();
    HuffmanEncoder::fill(buf, 10, &[2, 1, 3, 3, 0]);
    // Codes 10, 0, 110, 111; as sent 01, 0, 011, 111.
    assert_eq!(&buf[10..15], &[2 * 65536 + 0b01, 1 * 65536, 3 * 65536 + 0b011, 3 * 65536 + 0b111, 0]);
    assert_eq!(Bits::from(buf[12]), Bits { data: 0b011, width: 3 });
}

#[test]
fn fixed_widths_are_those_of_the_format() {
    let (lit, dist) = HuffmanDecoder::fixed_widths();
    assert_eq!(lit.len(), 288);
    assert_eq!((lit[0], lit[143], lit[144], lit[255], lit[256], lit[279], lit[280], lit[287]), (8, 8, 9, 9, 7, 7, 8, 8));
    assert_eq!(dist, vec![5u8; 30]);
    let order: Vec<usize> = (0..19).map(HuffmanDecoder::width_code_order_at).collect();
    assert_eq!(order, vec![16, 17, 18, 0, 8, 7, 9, 6, 10, 5, 11, 4, 12, 3, 13, 2, 14, 1, 15]);
}

#[test]
fn frequencies_count_both_alphabets() {
    let codes = [
        Code::Literal(b'a'),
        Code::Literal(b'a'),
        Code::Pointer { distance: 1, length: 0 },
        Code::Pointer { distance: 6, length: 255 },
        Code::Pointer { distance: 5, length: 0 },
        Code::EndOfBlock,
    ];
    let (lit, dist) = count_frequencies(&codes);
    assert_eq!(lit.len(), 286);
    assert_eq!(dist.len(), 30);
    assert_eq!(lit[b'a' as usize], 2);
    assert_eq!(lit[256], 1);
    assert_eq!(lit[257], 2);
    assert_eq!(lit[285], 1);
    assert_eq!(lit.iter().sum::<usize>(), 6);
    assert_eq!(dist[0], 1);
    assert_eq!(dist[4], 2);
    assert_eq!(dist.iter().sum::<usize>(), 3);
}

#[test]
fn trimmed_drops_zeros_at_the_end_down_to_the_least() {
    assert_eq!(trimmed(&vec![1, 0, 2, 0, 0], 1), vec![1, 0, 2]);
    assert_eq!(trimmed(&vec![1, 0, 2, 0, 0], 4), vec![1, 0, 2, 0]);
    assert_eq!(trimmed(&vec![0, 0, 0], 1), vec![0]);
    assert_eq!(trimmed(&vec![0, 0, 0], 0), Vec::<u8>::new());
    assert_eq!(trimmed(&vec![3, 3], 0), vec![3, 3]);
    assert_eq!(join_widths(&vec![1, 2], &vec![3]), vec![1, 2, 3]);
}

#[test]
fn same_run_counts_up_to_the_cap() {
    let all = vec![4, 4, 4, 4, 5, 5];
    assert_eq!(same_run(&all, 0, 138), 4);
    assert_eq!(same_run(&all, 0, 3), 3);
    assert_eq!(same_run(&all, 3, 6), 1);
    assert_eq!(same_run(&all, 4, 6), 2);
    assert_eq!(same_run(&all, 5, 1), 1);
}

#[test]
fn run_lengths_of_each_kind() {
    // Short runs of zeros stay plain.
    assert_eq!(run_lengths(&vec![0]), vec![(0, 0)]);
    assert_eq!(run_lengths(&vec![0, 0]), vec![(0, 0), (0, 0)]);
    // Three to ten zeros: symbol 17.
    assert_eq!(run_lengths(&vec![0; 3]), vec![(17, 0)]);
    assert_eq!(run_lengths(&vec![0; 10]), vec![(17, 7)]);
    // Eleven to 138 zeros: symbol 18.
    assert_eq!(run_lengths(&vec![0; 11]), vec![(18, 0)]);
    assert_eq!(run_lengths(&vec![0; 138]), vec![(18, 127)]);
    assert_eq!(run_lengths(&vec![0; 139]), vec![(18, 127), (0, 0)]);
    assert_eq!(run_lengths(&vec![0; 141]), vec![(18, 127), (17, 0)]);
    assert_eq!(run_lengths(&vec![0; 149]), vec![(18, 127), (18, 0)]);
    // A length that comes again: itself, then repeats of three to six.
    assert_eq!(run_lengths(&vec![5; 3]), vec![(5, 0), (5, 0), (5, 0)]);
    assert_eq!(run_lengths(&vec![5; 4]), vec![(5, 0), (16, 0)]);
    assert_eq!(run_lengths(&vec![5; 7]), vec![(5, 0), (16, 3)]);
    assert_eq!(run_lengths(&vec![5; 8]), vec![(5, 0), (16, 3), (5, 0)]);
    assert_eq!(run_lengths(&vec![5; 10]), vec![(5, 0), (16, 3), (16, 0)]);
    assert_eq!(
        run_lengths(&vec![8, 8, 8, 8, 0, 0, 0, 7, 0, 9, 9]),
        vec![(8, 0), (16, 0), (17, 0), (7, 0), (0, 0), (9, 0), (9, 0)]
    );
    assert_eq!(run_lengths(&vec![]), vec![]);
}

#[test]
fn run_frequencies_and_fields() {
    let runs = vec![(8u8, 0u8), (16, 0), (17, 0), (7, 0), (0, 0), (9, 0), (9, 0), (18, 5)];
    let freq = run_frequencies(&runs);
    assert_eq!(freq.len(), 19);
    assert_eq!((freq[0], freq[7], freq[8], freq[9], freq[16], freq[17], freq[18]), (1, 1, 1, 2, 1, 1, 1));
    assert_eq!(freq.iter().sum::<usize>(), 8);
    // Fields in the order 16, 17, 18, 0, 8, 7, 9, 6, 10, 5, 11, 4, 12, 3, 13,
    // 2, 14, 1, 15: the last length that is not zero decides.
    let mut clw = vec![0u8; 19];
    assert_eq!(used_fields(&clw), 4);
    clw[0] = 2;
    assert_eq!(used_fields(&clw), 4);
    clw[8] = 2;
    assert_eq!(used_fields(&clw), 5);
    clw[1] = 3;
    assert_eq!(used_fields(&clw), 18);
    clw[15] = 3;
    assert_eq!(used_fields(&clw), 19);
}

#[test]
fn every_error_has_its_own_message() {
    let all = [
        Error::BufferOverflow,
        Error::ReservedBlockType,
        Error::LengthComplementMismatch,
        Error::InvalidCodeLengths,
        Error::NoPreviousWidth,
        Error::InvalidWidth,
        Error::InvalidSymbol,
        Error::BackReferenceOutOfRange,
        Error::UnexpectedEndOfBlock,
        Error::ZlibHeaderTooShort,
        Error::ZlibUnsupportedMethod,
        Error::ZlibFcheckMismatch,
        Error::ZlibPresetDictionary,
        Error::ZlibChecksumMismatch,
    ];
    for (i, a) in all.iter().enumerate() {
        assert!(!a.message().is_empty());
        for b in &all[i + 1..] {
            assert_ne!(a.message(), b.message());
        }
    }
    assert_eq!(Error::InvalidSymbol.message(), "Invalid value decoded.");
    assert_eq!(Error::UnexpectedEndOfBlock.message(), "End Of Block is not supposed to be there.");
}

#[test]
fn encoder_and_decoder_agree_code_by_code() {
    let codes = [
        Code::Literal(0),
        Code::Literal(143),
        Code::Literal(144),
        Code::Literal(255),
        Code::Pointer { distance: 1, length: 0 },
        Code::Pointer { distance: 4, length: 7 },
        Code::Pointer { distance: 5, length: 8 },
        Code::Pointer { distance: 1024, length: 254 },
        Code::Pointer { distance: 32768, length: 255 },
        Code::EndOfBlock,
    ];
    for btype in [BlockType::Fixed, BlockType::Dynamic] {
        let mut cache = Cache::new();
        let mut writer = Writer::new();
        {
            let encoder = HuffmanEncoder::new(btype, &codes, cache.inner_mut(), &mut writer);
            for code in codes {
                encoder.encode(&mut writer, code);
            }
        }
        let bytes = writer.finish();
        let mut reader = Reader::new(&bytes);
        let decoder = HuffmanDecoder::new(btype, &mut reader, cache.inner_mut()).unwrap();
        for code in codes {
            assert_eq!(decoder.decode(&mut reader), Ok(code));
        }
    }
}

#[test]
fn fixed_decoder_knows_its_widths() {
    let mut cache = Cache::new();
    let bytes = [0u8; 4];
    let mut reader = Reader::new(&bytes);
    let decoder = HuffmanDecoder::new(BlockType::Fixed, &mut reader, cache.inner_mut()).unwrap();
    assert_eq!((decoder.eob_width, decoder.max_lwidth, decoder.max_dwidth), (7, 9, 5));
    // Seven zero bits are the end-of-block code.
    assert_eq!(decoder.decode(&mut reader), Ok(Code::EndOfBlock));
    assert_eq!(decoder.decode_symbol(&mut reader), Ok(256));
}
