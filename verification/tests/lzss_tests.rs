use chameleon::errors::CodecErrorKind;
use chameleon::lzss::{
    decode_distance, decode_length, distance_code_info, distance_to_symbol, expand_tokens,
    length_code_info, length_to_symbol, LempelZiv, Token,
};

#[test]
fn lzss_tokens_for_abbbbb() {
    // A B B B B B: literal A, literal B, then a length-4 copy from one
    // byte back — the run overlaps its own output.
    let lz = LempelZiv::new(b"ABBBBB".to_vec());
    let tokens = lz.tokenize();
    assert_eq!(
        tokens,
        vec![
            Token::Literal(65),
            Token::Literal(66),
            Token::Match { length: 4, distance: 1 },
        ]
    );
}

#[test]
fn lzss_round_trip_repeating() {
    let data: Vec<u8> = b"abcabcabcabcabcabcabcabcabc".to_vec();
    let lz = LempelZiv::new(data.clone());
    let tokens = lz.tokenize();
    assert!(tokens.len() < data.len());
    let out = expand_tokens(&tokens).unwrap();
    assert_eq!(out, data);
}

#[test]
fn lzss_round_trip_single_byte() {
    let data: Vec<u8> = vec![42];
    let lz = LempelZiv::new(data.clone());
    let tokens = lz.tokenize();
    assert_eq!(tokens, vec![Token::Literal(42)]);
    assert_eq!(expand_tokens(&tokens).unwrap(), data);
}

#[test]
fn lzss_round_trip_empty() {
    let lz = LempelZiv::new(Vec::new());
    let tokens = lz.tokenize();
    assert!(tokens.is_empty());
    assert_eq!(expand_tokens(&tokens).unwrap(), Vec::<u8>::new());
}

#[test]
fn lzss_window_bounds_distances() {
    let mut data: Vec<u8> = Vec::new();
    for i in 0..200u8 {
        data.push(i % 10);
    }
    let lz = LempelZiv::with_buf_size(data.clone(), 16);
    assert_eq!(lz.buffer_size, 16);
    let tokens = lz.tokenize();
    for t in &tokens {
        if let Token::Match { length, distance } = t {
            assert!(*length >= 3 && *length <= 258);
            assert!(*distance >= 1 && *distance <= 16);
        }
    }
    assert_eq!(expand_tokens(&tokens).unwrap(), data);
}

#[test]
fn lzss_default_window_is_deflate_size() {
    let lz = LempelZiv::new(vec![1, 2, 3]);
    assert_eq!(lz.buffer_size, 32768);
}

#[test]
fn lzss_in_array_finds_leftmost() {
    let lz = LempelZiv::new(Vec::new());
    assert_eq!(lz.in_array(&[1, 2], &[0, 1, 2, 1, 2]), 1);
    assert_eq!(lz.in_array(&[9], &[0, 1, 2]), -1);
    assert_eq!(lz.in_array(&[0, 1, 2], &[0, 1, 2]), 0);
    assert_eq!(lz.in_array(&[2, 2], &[2, 1, 2, 2, 2]), 2);
}

#[test]
fn lzss_expand_rejects_stray_reference() {
    let tokens = vec![Token::Match { length: 3, distance: 5 }];
    let e = expand_tokens(&tokens).unwrap_err();
    assert_eq!(e.kind, CodecErrorKind::WindowViolation);
}

#[test]
fn lzss_length_symbol_269() {
    // Length symbol 269 carries 2 extra bits over the range 19..=22, so
    // extra bits 0b01 name length 20.
    assert_eq!(length_code_info(269), (2, 19, 22));
    assert_eq!(decode_length(269, 0b01), 20);
    assert_eq!(length_to_symbol(20), (269, 2, 1));
}

#[test]
fn lzss_length_table_edges() {
    assert_eq!(length_code_info(257), (0, 3, 3));
    assert_eq!(length_code_info(285), (0, 258, 258));
    assert_eq!(length_to_symbol(3), (257, 0, 0));
    assert_eq!(length_to_symbol(258), (285, 0, 0));
    assert_eq!(decode_length(284, 30), 257);
}

#[test]
fn lzss_distance_table_entries() {
    assert_eq!(distance_code_info(4), (1, 5, 6));
    assert_eq!(decode_distance(4, 1), 6);
    assert_eq!(distance_to_symbol(6), (4, 1, 1));
    assert_eq!(distance_code_info(0), (0, 1, 1));
    assert_eq!(distance_code_info(29), (13, 24577, 32768));
    assert_eq!(distance_to_symbol(32768), (29, 13, 8191));
    assert_eq!(decode_distance(29, 8191), 32768);
}
