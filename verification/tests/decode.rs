use lz77::lz77::decode::{decode, to_string};
use lz77::lz77::{Code, Lz77Error};

#[test]
fn decode_only_literals() {
    let encoding = vec![
        Code::<u8> { offset: 0, length: 0, literal: 0 },
        Code::<u8> { offset: 0, length: 0, literal: 1 },
        Code::<u8> { offset: 0, length: 0, literal: 2 },
        Code::<u8> { offset: 0, length: 0, literal: 3 },
        Code::<u8> { offset: 0, length: 0, literal: 4 },
    ];
    let expected_decoding = [0u8, 1, 2, 3, 4];
    let found_decoding = decode::<u8>(&encoding).unwrap();
    assert_eq!(&found_decoding, &expected_decoding);
}

#[test]
fn literals_and_segments() {
    let encoding = vec![
        Code::<u8> { offset: 0, length: 0, literal: 0 },
        Code::<u8> { offset: 1, length: 1, literal: 1 },
        Code::<u8> { offset: 0, length: 0, literal: 2 },
        Code::<u8> { offset: 2, length: 2, literal: 3 },
        Code::<u8> { offset: 4, length: 2, literal: 4 },
    ];
    let expected_decoding = [0u8, 0, 1, 2, 1, 2, 3, 2, 1, 4];
    let found_decoding = decode::<u8>(&encoding).unwrap();
    assert_eq!(&found_decoding, &expected_decoding);
}

#[test]
fn literals_and_segments_with_chars() {
    let encoding = vec![
        Code::<char> { offset: 0, length: 0, literal: 'a' },
        Code::<char> { offset: 1, length: 1, literal: 'b' },
        Code::<char> { offset: 0, length: 0, literal: 'c' },
        Code::<char> { offset: 2, length: 2, literal: 'd' },
        Code::<char> { offset: 4, length: 2, literal: 'e' },
    ];
    let expected_decoding = ['a', 'a', 'b', 'c', 'b', 'c', 'd', 'c', 'b', 'e'];
    let found_decoding = decode::<char>(&encoding).unwrap();
    assert_eq!(&found_decoding, &expected_decoding);
}

#[test]
fn empty_encoding() {
    let encoding: [Code<char>; 0] = [];
    let expected_decoding = "";
    let found_decoding = to_string(&encoding).unwrap();
    assert_eq!(&found_decoding, &expected_decoding);
}

#[test]
fn only_literals() {
    let encoding = vec![
        Code::<char> { offset: 0, length: 0, literal: 'a' },
        Code::<char> { offset: 0, length: 0, literal: 'b' },
        Code::<char> { offset: 0, length: 0, literal: 'c' },
        Code::<char> { offset: 0, length: 0, literal: 'd' },
        Code::<char> { offset: 0, length: 0, literal: 'e' },
    ];
    let expected_decoding = "abcde";
    let found_decoding = to_string(&encoding).unwrap();
    assert_eq!(&found_decoding, &expected_decoding);
}

#[test]
fn decode_some_matches() {
    let encoding = vec![
        Code::<char> { offset: 0, length: 0, literal: 'a' },
        Code::<char> { offset: 0, length: 0, literal: 'b' },
        Code::<char> { offset: 2, length: 2, literal: 'c' },
        Code::<char> { offset: 3, length: 3, literal: 'd' },
        Code::<char> { offset: 4, length: 3, literal: 'd' },
    ];
    let expected_decoding = "ababcabcdabcd";
    let found_decoding = to_string(&encoding).unwrap();
    assert_eq!(&found_decoding, &expected_decoding);
}

#[test]
fn decode_empty_codes_give_empty_output() {
    let encoding: [Code<u8>; 0] = [];
    assert_eq!(decode::<u8>(&encoding), Ok(Vec::new()));
}

#[test]
fn decode_mixed_codes_to_string() {
    let encoding = vec![
        Code::<char> { offset: 0, length: 0, literal: 'a' },
        Code::<char> { offset: 1, length: 1, literal: 'b' },
        Code::<char> { offset: 0, length: 0, literal: 'c' },
        Code::<char> { offset: 2, length: 2, literal: 'd' },
        Code::<char> { offset: 4, length: 2, literal: 'e' },
    ];
    assert_eq!(to_string(&encoding), Ok(String::from("aabcbcdcbe")));
}

#[test]
fn decode_overlapping_reference_repeats_last_symbol() {
    let encoding = vec![
        Code::<char> { offset: 0, length: 0, literal: 'a' },
        Code::<char> { offset: 1, length: 4, literal: 'b' },
    ];
    assert_eq!(decode::<char>(&encoding), Ok(vec!['a', 'a', 'a', 'a', 'a', 'b']));
    assert_eq!(to_string(&encoding), Ok(String::from("aaaaab")));
}

#[test]
fn decode_overlapping_reference_repeats_a_pair() {
    let encoding = vec![
        Code::<u8> { offset: 0, length: 0, literal: 1 },
        Code::<u8> { offset: 0, length: 0, literal: 2 },
        Code::<u8> { offset: 2, length: 5, literal: 3 },
    ];
    assert_eq!(decode::<u8>(&encoding), Ok(vec![1, 2, 1, 2, 1, 2, 1, 3]));
}

#[test]
fn decode_reference_as_long_as_its_offset() {
    let encoding = vec![
        Code::<u8> { offset: 0, length: 0, literal: 7 },
        Code::<u8> { offset: 1, length: 1, literal: 7 },
        Code::<u8> { offset: 3, length: 3, literal: 7 },
        Code::<u8> { offset: 2, length: 2, literal: 7 },
    ];
    assert_eq!(decode::<u8>(&encoding), Ok(vec![7u8; 10]));
}

#[test]
fn decode_rejects_offset_before_start() {
    let encoding = vec![
        Code::<u8> { offset: 0, length: 0, literal: 1 },
        Code::<u8> { offset: 2, length: 1, literal: 2 },
    ];
    assert_eq!(decode::<u8>(&encoding), Err(Lz77Error::InvalidOffset));
}

#[test]
fn decode_rejects_offset_in_first_code() {
    let encoding = vec![Code::<u8> { offset: 1, length: 1, literal: 1 }];
    assert_eq!(decode::<u8>(&encoding), Err(Lz77Error::InvalidOffset));
}

#[test]
fn decode_rejects_offset_before_start_without_length() {
    let encoding = vec![
        Code::<u8> { offset: 0, length: 0, literal: 1 },
        Code::<u8> { offset: 2, length: 0, literal: 2 },
    ];
    assert_eq!(decode::<u8>(&encoding), Err(Lz77Error::InvalidOffset));
}

#[test]
fn decode_rejects_zero_offset_with_length() {
    let encoding = vec![
        Code::<u8> { offset: 0, length: 0, literal: 1 },
        Code::<u8> { offset: 0, length: 1, literal: 2 },
    ];
    assert_eq!(decode::<u8>(&encoding), Err(Lz77Error::InvalidOffset));
}

#[test]
fn decode_accepts_offset_equal_to_position() {
    let encoding = vec![
        Code::<u8> { offset: 0, length: 0, literal: 1 },
        Code::<u8> { offset: 0, length: 0, literal: 2 },
        Code::<u8> { offset: 2, length: 1, literal: 3 },
    ];
    assert_eq!(decode::<u8>(&encoding), Ok(vec![1, 2, 1, 3]));
}

#[test]
fn to_string_rejects_invalid_offset() {
    let encoding = vec![Code::<char> { offset: 3, length: 2, literal: 'x' }];
    assert_eq!(to_string(&encoding), Err(Lz77Error::InvalidOffset));
}
