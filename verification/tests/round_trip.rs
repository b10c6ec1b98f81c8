use lz77::lz77::decode::{decode, to_string};
use lz77::lz77::encode::{encode, from_string};
use lz77::lz77::width::Width;
use lz77::lz77::Code;

const WIDTHS: [Width; 3] = [Width::W8, Width::W16, Width::W32];

#[test]
fn round_trip_of_bytes() {
    let input = [0u8, 1, 0, 1, 2, 0, 1, 2, 3, 0, 1, 2, 3];
    for width in WIDTHS {
        let encoded = encode::<u8>(&input, width).unwrap();
        assert_eq!(decode::<u8>(&encoded), Ok(input.to_vec()));
    }
}

#[test]
fn round_trip_of_text() {
    let input = "12341234abcabcabcabcXXXXXXXXXXXXX";
    for width in WIDTHS {
        let encoded = from_string(input, width).unwrap();
        assert_eq!(encoded.len(), 12);
        assert_eq!(to_string(&encoded), Ok(String::from(input)));
    }
}

#[test]
fn round_trip_of_text_beyond_ascii() {
    let input = "żółw żółw — żółć";
    for width in WIDTHS {
        let encoded = from_string(input, width).unwrap();
        assert_eq!(to_string(&encoded), Ok(String::from(input)));
    }
}

#[test]
fn round_trip_of_empty_input() {
    let input: [u8; 0] = [];
    for width in WIDTHS {
        let encoded = encode::<u8>(&input, width).unwrap();
        assert!(encoded.is_empty());
        assert_eq!(decode::<u8>(&encoded), Ok(Vec::new()));
    }
    assert_eq!(to_string(&from_string("", Width::W8).unwrap()), Ok(String::new()));
}

#[test]
fn round_trip_of_single_symbol() {
    let input = [42u8];
    for width in WIDTHS {
        let encoded = encode::<u8>(&input, width).unwrap();
        assert_eq!(encoded, vec![Code::<u8> { offset: 0, length: 0, literal: 42 }]);
        assert_eq!(decode::<u8>(&encoded), Ok(input.to_vec()));
    }
}

#[test]
fn round_trip_of_input_longer_than_window() {
    let mut input = Vec::new();
    let mut state: u32 = 12345;
    for _ in 0..1500 {
        state = state.wrapping_mul(1103515245).wrapping_add(12345);
        input.push(((state >> 16) % 5) as u8);
    }
    for width in WIDTHS {
        let encoded = encode::<u8>(&input, width).unwrap();
        for code in encoded.iter() {
            assert!(code.offset <= width.max_value());
            assert!(code.length <= code.offset);
        }
        assert_eq!(decode::<u8>(&encoded), Ok(input.clone()));
    }
}

#[test]
fn distinct_symbols_encode_as_literals() {
    let input: Vec<u8> = (0..=255).collect();
    for width in WIDTHS {
        let encoded = encode::<u8>(&input, width).unwrap();
        assert_eq!(encoded.len(), input.len());
        for (code, symbol) in encoded.iter().zip(input.iter()) {
            assert_eq!(*code, Code::<u8> { offset: 0, length: 0, literal: *symbol });
        }
    }
}
