//! A lossless compression engine for the DEFLATE format (RFC 1951) and the
//! containers that wrap it: a bit-oriented stream, a frequency-driven Huffman
//! coder, an LZSS match finder, the DEFLATE block codec, and the thin gzip and
//! PNG container layers that hand the raw compressed payload in and out.

pub mod bitstream;
pub mod deflate;
pub mod errors;
pub mod gzip;
pub mod huffman;
pub mod lzss;
pub mod png;
