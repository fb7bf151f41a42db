use chameleon::bitstream::{BitOrder, BitReader, BitStream};
use chameleon::errors::CodecErrorKind;

#[test]
fn bits_push_then_read_back_in_order() {
    let mut s = BitStream::new();
    assert!(s.push(1).is_ok());
    assert!(s.push(0).is_ok());
    assert!(s.push(1).is_ok());
    assert!(s.push(1).is_ok());
    assert_eq!(s.len, 4);
    let bytes = s.to_rfc_bytes();
    assert_eq!(bytes.len(), 1);
    let mut r = BitReader::new(bytes);
    assert_eq!(r.read_bit().unwrap(), 1);
    assert_eq!(r.read_bit().unwrap(), 0);
    assert_eq!(r.read_bit().unwrap(), 1);
    assert_eq!(r.read_bit().unwrap(), 1);
}

#[test]
fn bits_to_rfc_bytes_len_is_ceil() {
    let mut s = BitStream::new();
    assert_eq!(s.to_rfc_bytes().len(), 0);
    for _ in 0..9 {
        assert!(s.push(1).is_ok());
    }
    assert_eq!(s.len, 9);
    assert_eq!(s.to_rfc_bytes().len(), 2);
}

#[test]
fn bits_push_rejects_non_bit_values() {
    let mut s = BitStream::new();
    let e = s.push(2).unwrap_err();
    assert_eq!(e.kind, CodecErrorKind::InvalidBitValue);
    assert_eq!(s.len, 0);
    assert_eq!(s.to_rfc_bytes().len(), 0);
}

#[test]
fn bits_lsb_first_packing() {
    let mut s = BitStream::new();
    s.push_bits(0b110, 3, BitOrder::Lsb);
    let bytes = s.to_rfc_bytes();
    // LSB-first: stream bits are 0, 1, 1; packed from the low bit: 0b110.
    assert_eq!(bytes[0], 0b0000_0110);
}

#[test]
fn bits_msb_first_packing() {
    let mut s = BitStream::new();
    s.push_bits(0b110, 3, BitOrder::Msb);
    let bytes = s.to_rfc_bytes();
    // MSB-first: stream bits are 1, 1, 0; packed from the low bit: 0b011.
    assert_eq!(bytes[0], 0b0000_0011);
}

#[test]
fn bits_round_trip_sixteen() {
    let mut s = BitStream::new();
    s.push_bits(0xABCD, 16, BitOrder::Lsb);
    let mut r = BitReader::new(s.to_rfc_bytes());
    assert_eq!(r.read_bits(16, BitOrder::Lsb).unwrap(), 0xABCD);
}

#[test]
fn bits_msb_round_trip() {
    let mut s = BitStream::new();
    s.push_bits(0b10110, 5, BitOrder::Msb);
    let mut r = BitReader::new(s.to_rfc_bytes());
    assert_eq!(r.read_bits(5, BitOrder::Msb).unwrap(), 0b10110);
}

#[test]
fn bits_align_and_read_aligned_byte() {
    let mut r = BitReader::new(vec![0x0F, 0xAA]);
    assert_eq!(r.read_bits(3, BitOrder::Lsb).unwrap(), 0b111);
    r.align_to_byte();
    assert_eq!(r.read_aligned_byte().unwrap(), 0xAA);
}

#[test]
fn bits_truncated_read_fails() {
    let mut r = BitReader::new(vec![0x55]);
    let e = r.read_bits(16, BitOrder::Lsb).unwrap_err();
    assert_eq!(e.kind, CodecErrorKind::TruncatedStream);
    // The reader is untouched and can still serve what is there.
    assert_eq!(r.read_bits(8, BitOrder::Lsb).unwrap(), 0x55);
}

#[test]
fn bits_default_is_empty() {
    let s = BitStream::default();
    assert_eq!(s.len, 0);
    assert_eq!(s.bytes.len(), 0);
}
