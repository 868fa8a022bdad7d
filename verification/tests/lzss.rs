use devker::cache::Cache;
use devker::code::Code;
use devker::error::Error;
use devker::lzss::{extend, longest_match, lzss_decode, lzss_encode, prefix, PrefixTable};

fn encode(v: &[u8]) -> Vec<Code> {
    let mut cache = Cache::new();
    lzss_encode(v, cache.inner_mut())
}

fn literals(v: &[u8]) -> Vec<Code> {
    v.iter().map(|b| Code::Literal(*b)).collect()
}

#[test]
fn lzss_of_nothing_is_nothing() {
    assert_eq!(encode(b""), vec![]);
    assert_eq!(lzss_decode(&[]), Ok(vec![]));
}

#[test]
fn lzss_short_inputs_are_literals() {
    assert_eq!(encode(b"a"), literals(b"a"));
    assert_eq!(encode(b"aa"), literals(b"aa"));
    assert_eq!(encode(b"aaa"), literals(b"aaa"));
    assert_eq!(encode(b"aaaa"), literals(b"aaaa"));
}

#[test]
fn lzss_does_not_match_in_the_last_three_positions() {
    // The matcher looks for matches only while more than three bytes remain.
    assert_eq!(encode(b"abcabc"), literals(b"abcabc"));
}

#[test]
fn lzss_needs_more_than_two_bytes_after_the_prefix() {
    // "abcd" comes again, but only two bytes agree after the prefix "ab".
    assert_eq!(encode(b"abcdXabcdYYYY"), literals(b"abcdXabcdYYYY"));
}

#[test]
fn lzss_emits_a_back_reference_for_five_bytes() {
    let mut expected = literals(b"abcde");
    expected.push(Code::Pointer { distance: 5, length: 2 });
    assert_eq!(encode(b"abcdeabcde"), expected);
}

#[test]
fn lzss_match_may_run_to_the_end_of_the_input() {
    let mut expected = literals(b"abcdefgh");
    expected.push(Code::Pointer { distance: 8, length: 5 });
    assert_eq!(encode(b"abcdefghabcdefgh"), expected);
}

#[test]
fn lzss_run_of_one_byte() {
    // The first byte is a literal; the second position finds the first.
    let v = vec![0u8; 1000];
    let codes = encode(&v);
    assert_eq!(codes[0], Code::Literal(0));
    assert_eq!(codes[1], Code::Pointer { distance: 1, length: 255 });
    assert_eq!(lzss_decode(&codes), Ok(v));
}

#[test]
fn lzss_longest_back_reference_is_258() {
    let v = vec![7u8; 259];
    assert_eq!(encode(&v), vec![Code::Literal(7), Code::Pointer { distance: 1, length: 255 }]);
    let v = vec![7u8; 258];
    assert_eq!(encode(&v), vec![Code::Literal(7), Code::Pointer { distance: 1, length: 254 }]);
    let v = vec![7u8; 260];
    assert_eq!(
        encode(&v),
        vec![Code::Literal(7), Code::Pointer { distance: 1, length: 255 }, Code::Literal(7)]
    );
}

#[test]
fn lzss_takes_the_most_recent_candidate_only() {
    // "abXYZ" at 0, "abQRS" at 5, "abXYZ" at 10: the candidate at 10 is 5, which
    // does not match, so no back-reference although position 0 would match.
    assert_eq!(encode(b"abXYZabQRSabXYZ...."), literals(b"abXYZabQRSabXYZ...."));
}

#[test]
fn lzss_window_is_32768() {
    let mut v: Vec<u8> = b"abcdefgh".to_vec();
    let mut x: u32 = 1;
    while v.len() < 32768 {
        x = x.wrapping_mul(1103515245).wrapping_add(12345);
        // Bytes that never form "ab".
        v.push(b'A' + ((x >> 16) % 26) as u8);
    }
    v.extend_from_slice(b"abcdefgh....");
    let codes = encode(&v);
    assert!(codes.contains(&Code::Pointer { distance: 32768, length: 5 }));
    assert_eq!(lzss_decode(&codes), Ok(v.clone()));

    // One byte further away the candidate is out of reach.
    let mut w: Vec<u8> = b"abcdefgh".to_vec();
    w.extend_from_slice(&v[8..32768]);
    w.push(b'Z');
    w.extend_from_slice(b"abcdefgh....");
    let codes = encode(&w);
    assert!(!codes.iter().any(|c| matches!(c, Code::Pointer { distance, .. } if *distance > 32768)));
    assert!(!codes.contains(&Code::Pointer { distance: 32768, length: 5 }));
    assert_eq!(lzss_decode(&codes), Ok(w));
}

#[test]
fn lzss_round_trip_with_overlapping_runs() {
    let mut v = Vec::new();
    for _ in 0..10000 {
        v.push(0x00);
        v.push(0xFF);
    }
    assert_eq!(lzss_decode(&encode(&v)), Ok(v));
}

#[test]
fn lzss_round_trip_on_text() {
    let v = b"Hello world, this is a wonderful world ! Hello world, this is a wonderful world !".to_vec();
    let codes = encode(&v);
    assert!(codes.len() < v.len());
    assert_eq!(lzss_decode(&codes), Ok(v));
}

#[test]
fn lzss_encode_does_not_depend_on_the_cache() {
    let v = b"abcdeabcdeabcdeabcde-abcdeabcde".to_vec();
    let mut clean = Cache::new();
    let mut used = Cache::new();
    for slot in used.inner_mut().iter_mut() {
        *slot = 3;
    }
    assert_eq!(lzss_encode(&v, clean.inner_mut()), lzss_encode(&v, used.inner_mut()));
}

#[test]
fn lzss_decode_rejects_end_of_block() {
    assert_eq!(
        lzss_decode(&[Code::Literal(1), Code::EndOfBlock]),
        Err(Error::UnexpectedEndOfBlock)
    );
}

#[test]
fn lzss_decode_rejects_reference_before_start() {
    assert_eq!(
        lzss_decode(&[Code::Literal(1), Code::Pointer { distance: 2, length: 0 }]),
        Err(Error::BackReferenceOutOfRange)
    );
    assert_eq!(
        lzss_decode(&[Code::Pointer { distance: 1, length: 0 }]),
        Err(Error::BackReferenceOutOfRange)
    );
}

#[test]
fn extend_copies_byte_by_byte() {
    let mut v = b"abc".to_vec();
    assert_eq!(extend(&mut v, 3, 7), Ok(()));
    assert_eq!(v, b"abcabcabca".to_vec());
    let mut v = b"xy".to_vec();
    assert_eq!(extend(&mut v, 1, 4), Ok(()));
    assert_eq!(v, b"xyyyyy".to_vec());
    let mut v = b"xy".to_vec();
    assert_eq!(extend(&mut v, 2, 0), Ok(()));
    assert_eq!(v, b"xy".to_vec());
}

#[test]
fn extend_fails_and_leaves_the_buffer() {
    let mut v = b"xy".to_vec();
    assert_eq!(extend(&mut v, 3, 4), Err(Error::BackReferenceOutOfRange));
    assert_eq!(v, b"xy".to_vec());
}

#[test]
fn prefix_is_big_endian_pair() {
    assert_eq!(prefix(b"\x01\x02\x03", 0), 0x0102);
    assert_eq!(prefix(b"\x01\x02\x03", 1), 0x0203);
    assert_eq!(prefix(b"\xFF\xFF", 0), 0xFFFF);
}

#[test]
fn longest_match_counts_after_the_prefix() {
    assert_eq!(longest_match(b"abcdeabcde", 0, 5), 3);
    assert_eq!(longest_match(b"abcdeabcXe", 0, 5), 1);
    assert_eq!(longest_match(b"abab", 0, 2), 0);
    let v = vec![1u8; 600];
    assert_eq!(longest_match(&v, 0, 1), 256);
}

#[test]
fn prefix_table_returns_the_previous_position() {
    let mut cache = Cache::new();
    {
        let mut table = PrefixTable::new(cache.inner_mut());
        let v = b"ababab";
        assert_eq!(table.insert(v, 0), None);
        assert_eq!(table.insert(v, 1), None);
        assert_eq!(table.insert(v, 2), Some(0));
        table.overwrite(v, 3);
        assert_eq!(table.insert(v, 4), Some(2));
    }
    let slots = cache.inner_mut();
    assert_eq!(slots[0x6162], 4);
    assert_eq!(slots[0x6261], 3);
    assert_eq!(slots.iter().filter(|x| **x == -1).count(), 0x10000 - 2);
}
