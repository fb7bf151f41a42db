//! The gzip container: a 10-byte header, the raw DEFLATE block sequence,
//! and an 8-byte trailer. This layer only locates and hands over the
//! compressed payload as an opaque buffer; checksum validation and file
//! reading stay outside the codec.

use vstd::prelude::*;

verus! {

/// A gzip file split into its three regions.
pub struct GzipFile {
    /// The 10 header bytes: two magic bytes, compression method, flags,
    /// modification time, extra flags and the operating system byte.
    pub header: Vec<u8>,
    /// The raw DEFLATE block sequence between header and trailer.
    pub deflate_blocks: Vec<u8>,
    /// The 8 trailer bytes: CRC-32 and the uncompressed length.
    pub footer: Vec<u8>,
}

/// Copies `src[a..b]` into a fresh buffer.
pub(crate) fn subrange_vec(src: &Vec<u8>, a: usize, b: usize) -> (r: Vec<u8>)
    requires
        a <= b <= src@.len(),
    ensures
        r@ == src@.subrange(a as int, b as int),
{
    let mut r: Vec<u8> = Vec::new();
    let mut i: usize = a;
    while i < b
        invariant
            a <= i <= b <= src@.len(),
            r@ == src@.subrange(a as int, i as int),
        decreases b - i,
    {
        r.push(src[i]);
        proof {
            assert(r@ =~= src@.subrange(a as int, i + 1));
        }
        i = i + 1;
    }
    r
}

impl GzipFile {
    /// Splits a gzip file's bytes into header, DEFLATE payload and footer.
    pub fn from_bytes(file_bytes: Vec<u8>) -> (r: Self)
        requires
            file_bytes@.len() >= 18,
        ensures
            r.header@ == file_bytes@.subrange(0, 10),
            r.deflate_blocks@ == file_bytes@.subrange(10, file_bytes@.len() - 8),
            r.footer@ == file_bytes@.subrange(
                file_bytes@.len() - 8,
                file_bytes@.len() as int,
            ),
    {
        let n: usize = file_bytes.len();
        let header: Vec<u8> = subrange_vec(&file_bytes, 0, 10);
        let deflate_blocks: Vec<u8> = subrange_vec(&file_bytes, 10, n - 8);
        let footer: Vec<u8> = subrange_vec(&file_bytes, n - 8, n);
        GzipFile { header, deflate_blocks, footer }
    }
}

/// Whether a buffer starts with gzip's two magic bytes, `1f 8b`.
pub fn is_gzip(bytes: &Vec<u8>) -> (r: bool)
    ensures
        r == (bytes@.len() >= 2 && bytes@[0] == 0x1fu8 && bytes@[1] == 0x8bu8),
{
    bytes.len() >= 2 && bytes[0] == 0x1f && bytes[1] == 0x8b
}

} // verus!
