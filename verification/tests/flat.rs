use lz77::lz77::width::Width;
use lz77::{encode, encode_16, encode_32, encode_8};

#[test]
fn flat_encoding_of_bytes() {
    let input = [0u8, 1, 0, 1, 2, 0, 1, 2, 3, 0, 1, 2, 3];
    let expected: Vec<u32> = vec![0, 0, 0, 0, 0, 1, 2, 2, 2, 3, 3, 3, 4, 3, 3];
    assert_eq!(encode(&input, Width::W8), Ok(expected.clone()));
    assert_eq!(encode(&input, Width::W16), Ok(expected.clone()));
    assert_eq!(encode(&input, Width::W32), Ok(expected));
}

#[test]
fn flat_encoding_in_each_width() {
    let input = [0u8, 1, 0, 1, 2, 0, 1, 2, 3, 0, 1, 2, 3];
    assert_eq!(
        encode_8(&input),
        Ok(vec![0u8, 0, 0, 0, 0, 1, 2, 2, 2, 3, 3, 3, 4, 3, 3])
    );
    assert_eq!(
        encode_16(&input),
        Ok(vec![0u16, 0, 0, 0, 0, 1, 2, 2, 2, 3, 3, 3, 4, 3, 3])
    );
    assert_eq!(
        encode_32(&input),
        Ok(vec![0u32, 0, 0, 0, 0, 1, 2, 2, 2, 3, 3, 3, 4, 3, 3])
    );
}

#[test]
fn flat_encoding_of_empty_input() {
    let input: [u8; 0] = [];
    assert_eq!(encode(&input, Width::W8), Ok(Vec::new()));
    assert_eq!(encode_8(&input), Ok(Vec::new()));
    assert_eq!(encode_16(&input), Ok(Vec::new()));
    assert_eq!(encode_32(&input), Ok(Vec::new()));
}

#[test]
fn flat_encoding_has_three_values_for_each_code() {
    let input = [200u8, 201, 200, 201, 202];
    assert_eq!(encode_8(&input), Ok(vec![0u8, 0, 200, 0, 0, 201, 2, 2, 202]));
}

#[test]
fn flat_encoding_keeps_wide_offsets() {
    let mut input = vec![0u8; 258];
    input[0] = 9;
    input[256] = 9;
    input[257] = 1;
    let narrow = encode_8(&input).unwrap();
    let wide = encode_16(&input).unwrap();
    assert_eq!(narrow.len(), 33);
    assert_eq!(&narrow[27..], &[0u8, 0, 9, 0, 0, 1]);
    assert_eq!(wide.len(), 30);
    assert_eq!(&wide[27..], &[256u16, 1, 1]);
}
