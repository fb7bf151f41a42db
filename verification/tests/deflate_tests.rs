use chameleon::bitstream::{BitOrder, BitStream};
use chameleon::deflate::{compress_stored, decompress, parse_block_header};
use chameleon::errors::CodecErrorKind;
use chameleon::lzss::LempelZiv;

#[test]
fn deflate_header_bits() {
    assert_eq!(parse_block_header(0b0000_0001), (true, 0));
    assert_eq!(parse_block_header(0b0000_0101), (true, 2));
    assert_eq!(parse_block_header(0b0000_0000), (false, 0));
    assert_eq!(parse_block_header(0b0000_0011), (true, 1));
}

#[test]
fn deflate_stored_block_decodes_raw_bytes() {
    // BFINAL=1, BTYPE=00, then LEN=5, ~LEN, then five raw bytes.
    let bytes = vec![0x01, 0x05, 0x00, 0xFA, 0xFF, b'h', b'e', b'l', b'l', b'o'];
    let out = decompress(bytes).unwrap();
    assert_eq!(out, b"hello".to_vec());
}

#[test]
fn deflate_stored_block_with_bad_complement_fails() {
    let bytes = vec![0x01, 0x05, 0x00, 0xFA, 0xFE, b'h', b'e', b'l', b'l', b'o'];
    let e = decompress(bytes).unwrap_err();
    assert_eq!(e.kind, CodecErrorKind::MalformedBlockHeader);
}

#[test]
fn deflate_stored_round_trip() {
    let data: Vec<u8> = b"stored blocks copy their payload verbatim".to_vec();
    let packed = compress_stored(&data);
    assert_eq!(decompress(packed).unwrap(), data);
}

#[test]
fn deflate_stored_round_trip_empty() {
    let data: Vec<u8> = Vec::new();
    let packed = compress_stored(&data);
    assert_eq!(packed, vec![0x01, 0x00, 0x00, 0xFF, 0xFF]);
    assert_eq!(decompress(packed).unwrap(), data);
}

#[test]
fn deflate_stored_round_trip_multi_block() {
    // More than 65535 bytes forces a second stored block.
    let mut data: Vec<u8> = Vec::new();
    let mut x: u32 = 1;
    for _ in 0..70000 {
        x = x.wrapping_mul(1103515245).wrapping_add(12345);
        data.push((x >> 16) as u8);
    }
    let packed = compress_stored(&data);
    assert_eq!(packed.len(), data.len() + 10);
    assert_eq!(decompress(packed).unwrap(), data);
}

#[test]
fn deflate_fixed_round_trip_small() {
    let data: Vec<u8> = b"ABBBBB".to_vec();
    let lz = LempelZiv::new(data.clone());
    let packed = lz.compress();
    assert_eq!(decompress(packed).unwrap(), data);
}

#[test]
fn deflate_fixed_round_trip_text() {
    let data: Vec<u8> = b"hello world hello world hello world".to_vec();
    let lz = LempelZiv::new(data.clone());
    let packed = lz.compress();
    assert!(packed.len() < data.len() + 10);
    assert_eq!(decompress(packed).unwrap(), data);
}

#[test]
fn deflate_fixed_round_trip_empty() {
    let data: Vec<u8> = Vec::new();
    let lz = LempelZiv::new(data.clone());
    let packed = lz.compress();
    assert_eq!(decompress(packed).unwrap(), data);
}

#[test]
fn deflate_fixed_round_trip_all_bytes() {
    let mut data: Vec<u8> = Vec::new();
    let mut x: u32 = 7;
    for _ in 0..2000 {
        x = x.wrapping_mul(1103515245).wrapping_add(12345);
        data.push((x >> 13) as u8);
    }
    let lz = LempelZiv::new(data.clone());
    let packed = lz.compress();
    assert_eq!(decompress(packed).unwrap(), data);
}

#[test]
fn deflate_fixed_round_trip_beyond_window() {
    // A window far smaller than the data: every back-reference must stay
    // inside it and the stream must still invert exactly.
    let mut data: Vec<u8> = Vec::new();
    for i in 0..400u16 {
        data.push((i % 7) as u8 + b'a');
    }
    let lz = LempelZiv::with_buf_size(data.clone(), 16);
    let packed = lz.compress();
    assert_eq!(decompress(packed).unwrap(), data);
}

#[test]
fn deflate_reserved_block_type_fails() {
    // BFINAL=1, BTYPE=11.
    let e = decompress(vec![0b0000_0111]).unwrap_err();
    assert_eq!(e.kind, CodecErrorKind::MalformedBlockHeader);
}

#[test]
fn deflate_empty_input_fails() {
    let e = decompress(Vec::new()).unwrap_err();
    assert_eq!(e.kind, CodecErrorKind::TruncatedStream);
}

#[test]
fn deflate_dynamic_block_decodes() {
    // A hand-built dynamic block. Code-length code: symbol 18 gets a 1-bit
    // code, symbols 0 and 1 get 2-bit codes. Literal/length lengths: 65
    // zeros, then a 1-bit code for 'A', 190 zeros, then a 1-bit code for
    // the end-of-block symbol; one unused distance entry. Payload: 'A',
    // then end-of-block. The stream decodes to the single byte 'A'.
    let mut bs = BitStream::new();
    bs.push_bits(1, 1, BitOrder::Lsb); // BFINAL
    bs.push_bits(2, 2, BitOrder::Lsb); // BTYPE=10
    bs.push_bits(0, 5, BitOrder::Lsb); // HLIT: 257 literal/length codes
    bs.push_bits(0, 5, BitOrder::Lsb); // HDIST: 1 distance code
    bs.push_bits(15, 4, BitOrder::Lsb); // HCLEN: all 19 entries follow
    // Code-length code lengths in the transmission order
    // 16 17 18 0 8 7 9 6 10 5 11 4 12 3 13 2 14 1 15.
    let cl_lengths = [0u32, 0, 1, 2, 0, 0, 0, 0, 0, 0, 0, 0, 0, 0, 0, 0, 0, 2, 0];
    for l in cl_lengths {
        bs.push_bits(l, 3, BitOrder::Lsb);
    }
    // Canonical code-length codes: 18 -> 0, 0 -> 10, 1 -> 11.
    // 65 zeros: symbol 18 with 7 extra bits 54.
    bs.push_bits(0b0, 1, BitOrder::Msb);
    bs.push_bits(54, 7, BitOrder::Lsb);
    // Length 1 for literal 'A' (symbol 65).
    bs.push_bits(0b11, 2, BitOrder::Msb);
    // 138 zeros: symbol 18 with extra 127.
    bs.push_bits(0b0, 1, BitOrder::Msb);
    bs.push_bits(127, 7, BitOrder::Lsb);
    // 52 more zeros: symbol 18 with extra 41.
    bs.push_bits(0b0, 1, BitOrder::Msb);
    bs.push_bits(41, 7, BitOrder::Lsb);
    // Length 1 for the end-of-block symbol 256.
    bs.push_bits(0b11, 2, BitOrder::Msb);
    // One distance entry of length 0: symbol 0.
    bs.push_bits(0b10, 2, BitOrder::Msb);
    // Payload: 'A' has code 0, end-of-block has code 1.
    bs.push_bits(0b0, 1, BitOrder::Msb);
    bs.push_bits(0b1, 1, BitOrder::Msb);
    let out = decompress(bs.to_rfc_bytes()).unwrap();
    assert_eq!(out, vec![b'A']);
}
