//! The DEFLATE block state machine of RFC 1951.
//!
//! A stream is a sequence of blocks, each opened by one BFINAL bit and two
//! BTYPE bits: stored (0), fixed-Huffman (1) or dynamic-Huffman (2); type 3
//! is reserved and malformed. Blocks are strictly sequential — a block's
//! bits begin exactly where the previous block's ended — and every failure
//! is terminal for the stream, since the format carries no
//! resynchronisation markers; bytes from blocks already completed stay
//! valid. Decompression handles all three block types; compression offers
//! stored blocks and the fixed-Huffman path fed by the LZSS match finder.

use crate::bitstream::{
    bit_in_bytes, bits_lsb_first, bits_msb_first, nth_bit32, BitOrder, BitReader, BitStream,
};
use crate::errors::{CodecError, CodecErrorKind};
use crate::lzss::LempelZiv;
use crate::lzss::{
    decode_distance, decode_length, distance_code_info, distance_to_symbol, effective_window,
    expand, extra_cap, length_code_info, length_to_symbol, spec_distance_info, spec_length_info,
    token_choice_ok, token_fits_window, tokens_gain, Token,
};
use vstd::prelude::*;

verus! {

/// Extracts BFINAL and BTYPE from the first byte of a block: BFINAL is the
/// least-significant bit, BTYPE the two bits above it.
pub fn parse_block_header(byte: u8) -> (r: (bool, u8))
    ensures
        r.0 == (byte & 0b0000_0001 != 0),
        r.1 == (byte & 0b0000_0110) >> 1u8,
        r.1 < 4,
{
    let bfinal: bool = (byte & 0b0000_0001) != 0;
    let btype: u8 = (byte & 0b0000_0110) >> 1u8;
    proof {
        assert((byte & 0b0000_0110) >> 1u8 < 4) by (bit_vector);
    }
    (bfinal, btype)
}

/// A canonical Huffman decode table: how many codes there are of each
/// length 1 to 15, and the symbols ordered by code length, then by symbol.
pub struct CodeTable {
    /// `counts[l]` is the number of symbols whose code is `l` bits long.
    pub counts: Vec<u16>,
    /// The symbols with nonzero code length, shortest codes first.
    pub symbols: Vec<u16>,
}

impl CodeTable {
    /// Every symbol in the table lies below `limit`.
    pub open spec fn bounded_by(&self, limit: int) -> bool {
        forall|i: int| 0 <= i < self.symbols@.len() ==> (self.symbols@[i] as int) < limit
    }
}

/// Builds the canonical decode table for a code-length assignment, failing
/// with `InvalidHuffmanTree` when the lengths oversubscribe the code space.
pub fn build_code_table(lengths: &Vec<u8>) -> (r: Result<CodeTable, CodecError>)
    requires
        lengths@.len() <= 65535,
        forall|i: int| 0 <= i < lengths@.len() ==> lengths@[i] <= 15,
    ensures
        r matches Ok(t) ==> {
            &&& t.counts@.len() == 16
            &&& t.symbols@.len() <= lengths@.len()
            &&& t.bounded_by(lengths@.len() as int)
        },
        r matches Err(e) ==> e.kind == CodecErrorKind::InvalidHuffmanTree,
{
    let n: usize = lengths.len();
    let mut counts: Vec<u16> = Vec::new();
    let mut z: usize = 0;
    while z < 16
        invariant
            z <= 16,
            counts@.len() == z,
            forall|k: int| 0 <= k < z ==> counts@[k] == 0u16,
        decreases 16 - z,
    {
        counts.push(0);
        z = z + 1;
    }
    let mut i: usize = 0;
    while i < n
        invariant
            n == lengths@.len(),
            n <= 65535,
            i <= n,
            counts@.len() == 16,
            forall|j: int| 0 <= j < lengths@.len() ==> lengths@[j] <= 15,
            forall|k: int| 0 <= k < 16 ==> counts@[k] <= i,
        decreases n - i,
    {
        let l: usize = lengths[i] as usize;
        let c: u16 = counts[l];
        counts[l] = c + 1;
        i = i + 1;
    }
    let mut left: i64 = 1;
    let mut l: usize = 1;
    while l < 16
        invariant
            counts@.len() == 16,
            1 <= l <= 16,
            0 <= left <= 0x8000,
        decreases 16 - l,
    {
        left = 2 * left - (counts[l] as i64);
        if left < 0 {
            return Err(CodecError { kind: CodecErrorKind::InvalidHuffmanTree, offset: 0 });
        }
        if left > 0x8000 {
            left = 0x8000;
        }
        l = l + 1;
    }
    let mut symbols: Vec<u16> = Vec::new();
    let mut len_pass: usize = 1;
    while len_pass < 16
        invariant
            n == lengths@.len(),
            n <= 65535,
            len_pass <= 16,
            symbols@.len() <= n,
            forall|k: int| 0 <= k < symbols@.len() ==> (symbols@[k] as int) < n,
        decreases 16 - len_pass,
    {
        let mut s: usize = 0;
        while s < n
            invariant
                n == lengths@.len(),
                n <= 65535,
                s <= n,
                symbols@.len() <= n,
                forall|k: int| 0 <= k < symbols@.len() ==> (symbols@[k] as int) < n,
            decreases n - s,
        {
            if lengths[s] as usize == len_pass {
                if symbols.len() < n {
                    symbols.push(s as u16);
                }
            }
            s = s + 1;
        }
        len_pass = len_pass + 1;
    }
    Ok(CodeTable { counts, symbols })
}

/// A value read as `count` extra bits stays within the range those bits
/// can address.
proof fn lemma_extra_fits(v: u32, count: u8)
    requires
        count <= 13,
        v < (1u32 << (count as u32)),
    ensures
        0 <= v as int <= extra_cap(count as int),
{
    assert((1u32 << 0u32) == 1 && (1u32 << 1u32) == 2 && (1u32 << 2u32) == 4 && (1u32 << 3u32)
        == 8 && (1u32 << 4u32) == 16 && (1u32 << 5u32) == 32 && (1u32 << 6u32) == 64 && (1u32
        << 7u32) == 128 && (1u32 << 8u32) == 256 && (1u32 << 9u32) == 512 && (1u32 << 10u32)
        == 1024 && (1u32 << 11u32) == 2048 && (1u32 << 12u32) == 4096 && (1u32 << 13u32) == 8192)
        by (bit_vector);
}

/// Reads one Huffman-coded symbol: bits come most-significant-first, the
/// canonical first-code/count bookkeeping finds the length, and the symbol
/// is looked up in the table's ordered list.
fn decode_symbol(reader: &mut BitReader, table: &CodeTable) -> (r: Result<u16, CodecError>)
    requires
        old(reader).wf(),
        table.counts@.len() == 16,
    ensures
        final(reader).wf(),
        final(reader).bytes@ == old(reader).bytes@,
        old(reader).cursor() <= final(reader).cursor() <= old(reader).cursor() + 15,
        r matches Ok(s) ==> {
            &&& exists|i: int| 0 <= i < table.symbols@.len() && table.symbols@[i] == s
            &&& final(reader).cursor() > old(reader).cursor()
        },
        r matches Err(e) ==> (e.kind == CodecErrorKind::TruncatedStream || e.kind
            == CodecErrorKind::InvalidHuffmanTree),
{
    let mut code: u64 = 0;
    let mut first: u64 = 0;
    let mut index: u64 = 0;
    let mut l: usize = 1;
    while l < 16
        invariant
            old(reader).wf(),
            reader.wf(),
            reader.bytes@ == old(reader).bytes@,
            table.counts@.len() == 16,
            1 <= l <= 16,
            old(reader).cursor() <= reader.cursor() <= old(reader).cursor() + (l - 1),
            first <= code,
            code <= 0xFFFF_FFFF,
            index <= (l - 1) * 0x1_0000,
        decreases 16 - l,
    {
        let bit: u8 = match reader.read_bit() {
            Ok(b) => b,
            Err(e) => {
                return Err(e);
            },
        };
        let b64: u64 = bit as u64;
        proof {
            let c = code;
            assert(c <= c | b64 && c | b64 <= c + 1) by (bit_vector)
                requires
                    b64 <= 1,
            ;
        }
        code = code | b64;
        let count: u64 = table.counts[l] as u64;
        if code < first + count {
            let idx: u64 = index + (code - first);
            if idx < table.symbols.len() as u64 {
                let s: u16 = table.symbols[idx as usize];
                return Ok(s);
            } else {
                return Err(
                    CodecError {
                        kind: CodecErrorKind::InvalidHuffmanTree,
                        offset: reader.byte_pos,
                    },
                );
            }
        }
        index = index + count;
        first = (first + count) * 2;
        code = code * 2;
        if code > 0xFFFF_FFFF {
            return Err(
                CodecError { kind: CodecErrorKind::InvalidHuffmanTree, offset: reader.byte_pos },
            );
        }
        l = l + 1;
    }
    Err(CodecError { kind: CodecErrorKind::InvalidHuffmanTree, offset: reader.byte_pos })
}

/// The code-length assignment of the fixed literal/length alphabet, RFC
/// 1951 section 3.2.6: 8 bits for 0..143, 9 for 144..255, 7 for 256..279,
/// 8 for 280..287.
fn fixed_litlen_lengths() -> (r: Vec<u8>)
    ensures
        r@.len() == 288,
        forall|i: int| 0 <= i < 144 ==> r@[i] == 8u8,
        forall|i: int| 144 <= i < 256 ==> r@[i] == 9u8,
        forall|i: int| 256 <= i < 280 ==> r@[i] == 7u8,
        forall|i: int| 280 <= i < 288 ==> r@[i] == 8u8,
        forall|i: int| 0 <= i < 288 ==> r@[i] <= 15,
{
    let mut r: Vec<u8> = Vec::new();
    let mut i: usize = 0;
    while i < 288
        invariant
            i <= 288,
            r@.len() == i,
            forall|k: int| 0 <= k < i && k < 144 ==> r@[k] == 8u8,
            forall|k: int| 144 <= k < i && k < 256 ==> r@[k] == 9u8,
            forall|k: int| 256 <= k < i && k < 280 ==> r@[k] == 7u8,
            forall|k: int| 280 <= k < i ==> r@[k] == 8u8,
        decreases 288 - i,
    {
        let v: u8 = if i < 144 {
            8
        } else if i < 256 {
            9
        } else if i < 280 {
            7
        } else {
            8
        };
        r.push(v);
        i = i + 1;
    }
    r
}

/// The fixed distance alphabet: every one of the 30 symbols has a 5-bit
/// code.
fn fixed_distance_lengths() -> (r: Vec<u8>)
    ensures
        r@.len() == 30,
        forall|i: int| 0 <= i < 30 ==> r@[i] == 5u8,
{
    let mut r: Vec<u8> = Vec::new();
    let mut i: usize = 0;
    while i < 30
        invariant
            i <= 30,
            r@.len() == i,
            forall|k: int| 0 <= k < i ==> r@[k] == 5u8,
        decreases 30 - i,
    {
        r.push(5);
        i = i + 1;
    }
    r
}

/// The fixed code of RFC 1951 section 3.2.6 for a literal/length symbol,
/// as its value and bit count.
pub open spec fn spec_fixed_litlen_code(sym: int) -> (int, int) {
    if 0 <= sym < 144 {
        (48 + sym, 8)
    } else if sym < 256 {
        (400 + (sym - 144), 9)
    } else if sym < 280 {
        (sym - 256, 7)
    } else if sym < 288 {
        (192 + (sym - 280), 8)
    } else {
        (0, 0)
    }
}

/// That fixed code's bits, most-significant first.
pub open spec fn spec_fixed_litlen_bits(sym: int) -> Seq<bool> {
    bits_msb_first(
        spec_fixed_litlen_code(sym).0 as u32,
        spec_fixed_litlen_code(sym).1 as nat,
    )
}

/// The bits one token contributes to a fixed-Huffman block: a literal's
/// fixed code, or a match's length code, its extra bits least-significant
/// first, the five-bit distance code and its extra bits, the covering
/// symbols read off the RFC range tables.
pub open spec fn token_bits_ok(t: Token, bits: Seq<bool>) -> bool {
    match t {
        Token::Literal(b) => bits == spec_fixed_litlen_bits(b as int),
        Token::Match { length, distance } => exists|ls: int, ds: int|
            {
                &&& 257 <= ls <= 285
                &&& 0 <= ds <= 29
                &&& spec_length_info(ls).1 <= length <= spec_length_info(ls).2
                &&& spec_distance_info(ds).1 <= distance <= spec_distance_info(ds).2
                &&& bits == spec_fixed_litlen_bits(ls) + bits_lsb_first(
                    (length - spec_length_info(ls).1) as u32,
                    spec_length_info(ls).0 as nat,
                ) + bits_msb_first(ds as u32, 5) + bits_lsb_first(
                    (distance - spec_distance_info(ds).1) as u32,
                    spec_distance_info(ds).0 as nat,
                )
            },
    }
}

/// The concatenation of every token's bits, in order.
pub open spec fn tokens_bits_ok(tokens: Seq<Token>, bits: Seq<bool>) -> bool
    decreases tokens.len(),
{
    if tokens.len() == 0 {
        bits == Seq::<bool>::empty()
    } else {
        exists|pre: Seq<bool>, tb: Seq<bool>|
            {
                &&& bits == pre + tb
                &&& tokens_bits_ok(tokens.drop_last(), pre)
                &&& token_bits_ok(tokens.last(), tb)
            }
    }
}

/// Appending one token's bits extends a token bit stream.
proof fn lemma_tokens_bits_snoc(tokens: Seq<Token>, t: Token, pre: Seq<bool>, tb: Seq<bool>)
    requires
        tokens_bits_ok(tokens, pre),
        token_bits_ok(t, tb),
    ensures
        tokens_bits_ok(tokens.push(t), pre + tb),
{
    assert(tokens.push(t).drop_last() =~= tokens);
    assert(tokens.push(t).last() == t);
    assert(tokens_bits_ok(tokens.push(t).drop_last(), pre));
    assert(token_bits_ok(tokens.push(t).last(), tb));
}

/// The fixed code for a literal/length symbol, as a value and a bit count,
/// RFC 1951 section 3.2.6.
pub fn fixed_litlen_code(symbol: u16) -> (r: (u16, u8))
    requires
        symbol < 288,
    ensures
        symbol < 144 ==> r == (((48 + symbol) as u16, 8u8)),
        144 <= symbol < 256 ==> r == (((400 + (symbol - 144)) as u16, 9u8)),
        256 <= symbol < 280 ==> r == (((symbol - 256) as u16, 7u8)),
        280 <= symbol ==> r == (((192 + (symbol - 280)) as u16, 8u8)),
        (r.0 as int, r.1 as int) == spec_fixed_litlen_code(symbol as int),
{
    if symbol < 144 {
        (48 + symbol, 8)
    } else if symbol < 256 {
        (400 + (symbol - 144), 9)
    } else if symbol < 280 {
        (symbol - 256, 7)
    } else {
        (192 + (symbol - 280), 8)
    }
}

/// The order in which the code-length code's lengths are transmitted in a
/// dynamic block header.
fn cl_order() -> (r: Vec<usize>)
    ensures
        r@.len() == 19,
        forall|i: int| 0 <= i < 19 ==> (#[trigger] r@[i]) < 19,
{
    let mut r: Vec<usize> = Vec::new();
    r.push(16);
    r.push(17);
    r.push(18);
    r.push(0);
    r.push(8);
    r.push(7);
    r.push(9);
    r.push(6);
    r.push(10);
    r.push(5);
    r.push(11);
    r.push(4);
    r.push(12);
    r.push(3);
    r.push(13);
    r.push(2);
    r.push(14);
    r.push(1);
    r.push(15);
    r
}

/// Reads a dynamic block's header: the code-length code, then the run-
/// length-compressed code lengths of the literal/length and distance
/// alphabets, and builds both decode tables.
fn read_dynamic_tables(reader: &mut BitReader) -> (r: Result<(CodeTable, CodeTable), CodecError>)
    requires
        old(reader).wf(),
    ensures
        final(reader).wf(),
        final(reader).bytes@ == old(reader).bytes@,
        final(reader).cursor() >= old(reader).cursor(),
        r matches Err(e) ==> (e.kind == CodecErrorKind::TruncatedStream || e.kind
            == CodecErrorKind::InvalidHuffmanTree || e.kind == CodecErrorKind::SymbolOutOfRange),
        r matches Ok(t) ==> {
            &&& t.0.counts@.len() == 16
            &&& t.1.counts@.len() == 16
            &&& t.0.bounded_by(288)
            &&& t.1.bounded_by(32)
        },
{
    let hlit: u32 = match reader.read_bits(5, BitOrder::Lsb) {
        Ok(v) => v,
        Err(e) => {
            return Err(e);
        },
    };
    let hdist: u32 = match reader.read_bits(5, BitOrder::Lsb) {
        Ok(v) => v,
        Err(e) => {
            return Err(e);
        },
    };
    let hclen: u32 = match reader.read_bits(4, BitOrder::Lsb) {
        Ok(v) => v,
        Err(e) => {
            return Err(e);
        },
    };
    proof {
        lemma_extra_fits(hlit, 5);
        lemma_extra_fits(hdist, 5);
        lemma_extra_fits(hclen, 4);
    }
    let nlit: usize = 257 + (hlit as usize);
    let ndist: usize = 1 + (hdist as usize);
    let ncl: usize = 4 + (hclen as usize);
    let mut cl_lengths: Vec<u8> = Vec::new();
    let mut z: usize = 0;
    while z < 19
        invariant
            z <= 19,
            cl_lengths@.len() == z,
            forall|k: int| 0 <= k < z ==> cl_lengths@[k] <= 15,
        decreases 19 - z,
    {
        cl_lengths.push(0);
        z = z + 1;
    }
    let order: Vec<usize> = cl_order();
    let mut k: usize = 0;
    while k < ncl
        invariant
            old(reader).wf(),
            reader.wf(),
            reader.bytes@ == old(reader).bytes@,
            reader.cursor() >= old(reader).cursor(),
            ncl <= 19,
            k <= ncl,
            order@.len() == 19,
            forall|i: int| 0 <= i < 19 ==> (#[trigger] order@[i]) < 19,
            cl_lengths@.len() == 19,
            forall|i: int| 0 <= i < 19 ==> cl_lengths@[i] <= 15,
        decreases ncl - k,
    {
        let lv: u32 = match reader.read_bits(3, BitOrder::Lsb) {
            Ok(v) => v,
            Err(e) => {
                return Err(e);
            },
        };
        proof {
            lemma_extra_fits(lv, 3);
        }
        let pos: usize = order[k];
        cl_lengths[pos] = lv as u8;
        k = k + 1;
    }
    let cl_table: CodeTable = match build_code_table(&cl_lengths) {
        Ok(t) => t,
        Err(e) => {
            return Err(e);
        },
    };
    let total: usize = nlit + ndist;
    let mut all: Vec<u8> = Vec::new();
    while all.len() < total
        invariant
            old(reader).wf(),
            reader.wf(),
            reader.bytes@ == old(reader).bytes@,
            reader.cursor() >= old(reader).cursor(),
            total <= 320,
            all@.len() <= total,
            cl_table.counts@.len() == 16,
            cl_table.bounded_by(19),
            forall|i: int| 0 <= i < all@.len() ==> all@[i] <= 15,
        decreases total - all@.len(),
    {
        let s: u16 = match decode_symbol(reader, &cl_table) {
            Ok(s) => s,
            Err(e) => {
                return Err(e);
            },
        };
        if s <= 15 {
            all.push(s as u8);
        } else if s == 16 {
            if all.len() == 0 {
                return Err(
                    CodecError {
                        kind: CodecErrorKind::InvalidHuffmanTree,
                        offset: reader.byte_pos,
                    },
                );
            }
            let prev: u8 = all[all.len() - 1];
            let ex: u32 = match reader.read_bits(2, BitOrder::Lsb) {
                Ok(v) => v,
                Err(e) => {
                    return Err(e);
                },
            };
            proof {
                lemma_extra_fits(ex, 2);
            }
            let rep: usize = 3 + (ex as usize);
            if all.len() + rep > total {
                return Err(
                    CodecError {
                        kind: CodecErrorKind::InvalidHuffmanTree,
                        offset: reader.byte_pos,
                    },
                );
            }
            let ghost len_before: int = all@.len() as int;
            let mut c: usize = 0;
            while c < rep
                invariant
                    c <= rep,
                    rep <= 6,
                    all@.len() == len_before + c,
                    all@.len() + (rep - c) <= total,
                    prev <= 15,
                    forall|i: int| 0 <= i < all@.len() ==> all@[i] <= 15,
                decreases rep - c,
            {
                all.push(prev);
                c = c + 1;
            }
        } else if s == 17 || s == 18 {
            let bits: u8 = if s == 17 {
                3
            } else {
                7
            };
            let base: usize = if s == 17 {
                3
            } else {
                11
            };
            let ex: u32 = match reader.read_bits(bits, BitOrder::Lsb) {
                Ok(v) => v,
                Err(e) => {
                    return Err(e);
                },
            };
            proof {
                lemma_extra_fits(ex, bits);
            }
            let rep: usize = base + (ex as usize);
            if all.len() + rep > total {
                return Err(
                    CodecError {
                        kind: CodecErrorKind::InvalidHuffmanTree,
                        offset: reader.byte_pos,
                    },
                );
            }
            let ghost len_before: int = all@.len() as int;
            let mut c: usize = 0;
            while c < rep
                invariant
                    c <= rep,
                    rep <= 138,
                    all@.len() == len_before + c,
                    all@.len() + (rep - c) <= total,
                    forall|i: int| 0 <= i < all@.len() ==> all@[i] <= 15,
                decreases rep - c,
            {
                all.push(0);
                c = c + 1;
            }
        } else {
            return Err(
                CodecError { kind: CodecErrorKind::SymbolOutOfRange, offset: reader.byte_pos },
            );
        }
    }
    let mut lit_lengths: Vec<u8> = Vec::new();
    let mut i: usize = 0;
    while i < nlit
        invariant
            i <= nlit,
            nlit <= 288,
            nlit <= all@.len(),
            lit_lengths@.len() == i,
            forall|j: int| 0 <= j < all@.len() ==> all@[j] <= 15,
            forall|j: int| 0 <= j < i ==> lit_lengths@[j] <= 15,
        decreases nlit - i,
    {
        lit_lengths.push(all[i]);
        i = i + 1;
    }
    let mut dist_lengths: Vec<u8> = Vec::new();
    let mut j: usize = 0;
    while j < ndist
        invariant
            j <= ndist,
            nlit <= 288,
            ndist <= 32,
            nlit + ndist <= all@.len(),
            dist_lengths@.len() == j,
            forall|t: int| 0 <= t < all@.len() ==> all@[t] <= 15,
            forall|t: int| 0 <= t < j ==> dist_lengths@[t] <= 15,
        decreases ndist - j,
    {
        dist_lengths.push(all[nlit + j]);
        j = j + 1;
    }
    let lit_table: CodeTable = match build_code_table(&lit_lengths) {
        Ok(t) => t,
        Err(e) => {
            return Err(e);
        },
    };
    let dist_table: CodeTable = match build_code_table(&dist_lengths) {
        Ok(t) => t,
        Err(e) => {
            return Err(e);
        },
    };
    proof {
        assert(lit_table.bounded_by(288)) by {
            assert(lit_table.bounded_by(lit_lengths@.len() as int));
        }
        assert(dist_table.bounded_by(32)) by {
            assert(dist_table.bounded_by(dist_lengths@.len() as int));
        }
    }
    Ok((lit_table, dist_table))
}

/// Decodes one block's symbol stream until the end-of-block symbol 256:
/// literals are copied out, length/distance pairs replay earlier output.
fn inflate_symbols(
    reader: &mut BitReader,
    out: &mut Vec<u8>,
    lit_table: &CodeTable,
    dist_table: &CodeTable,
) -> (r: Result<(), CodecError>)
    requires
        old(reader).wf(),
        lit_table.counts@.len() == 16,
        dist_table.counts@.len() == 16,
        lit_table.bounded_by(288),
        dist_table.bounded_by(32),
    ensures
        final(reader).wf(),
        final(reader).bytes@ == old(reader).bytes@,
        final(reader).cursor() >= old(reader).cursor(),
        r matches Err(e) ==> (e.kind == CodecErrorKind::TruncatedStream || e.kind
            == CodecErrorKind::InvalidHuffmanTree || e.kind == CodecErrorKind::SymbolOutOfRange
            || e.kind == CodecErrorKind::WindowViolation),
{
    loop
        invariant
            reader.wf(),
            reader.bytes@ == old(reader).bytes@,
            reader.cursor() >= old(reader).cursor(),
            lit_table.counts@.len() == 16,
            dist_table.counts@.len() == 16,
            lit_table.bounded_by(288),
            dist_table.bounded_by(32),
        decreases reader.bit_len() - reader.cursor(),
    {
        let s: u16 = match decode_symbol(reader, lit_table) {
            Ok(s) => s,
            Err(e) => {
                return Err(e);
            },
        };
        if s < 256 {
            out.push(s as u8);
        } else if s == 256 {
            return Ok(());
        } else if s <= 285 {
            let info: (u8, u16, u16) = length_code_info(s);
            let ex: u32 = match reader.read_bits(info.0, BitOrder::Lsb) {
                Ok(v) => v,
                Err(e) => {
                    return Err(e);
                },
            };
            proof {
                crate::lzss::lemma_length_extra_span(s as int);
                lemma_extra_fits(ex, info.0);
            }
            let length: u16 = decode_length(s, ex as u16);
            let ds: u16 = match decode_symbol(reader, dist_table) {
                Ok(v) => v,
                Err(e) => {
                    return Err(e);
                },
            };
            if ds > 29 {
                return Err(
                    CodecError { kind: CodecErrorKind::SymbolOutOfRange, offset: reader.byte_pos },
                );
            }
            let dinfo: (u8, u16, u16) = distance_code_info(ds);
            let dex: u32 = match reader.read_bits(dinfo.0, BitOrder::Lsb) {
                Ok(v) => v,
                Err(e) => {
                    return Err(e);
                },
            };
            proof {
                crate::lzss::lemma_distance_extra_span(ds as int);
                lemma_extra_fits(dex, dinfo.0);
            }
            let distance: u16 = decode_distance(ds, dex as u16);
            let d: usize = distance as usize;
            if d > out.len() {
                return Err(
                    CodecError { kind: CodecErrorKind::WindowViolation, offset: reader.byte_pos },
                );
            }
            let mut c: u16 = 0;
            while c < length
                invariant
                    c <= length,
                    1 <= d <= out@.len(),
                decreases length - c,
            {
                let b: u8 = out[out.len() - d];
                out.push(b);
                c = c + 1;
            }
        } else {
            return Err(
                CodecError { kind: CodecErrorKind::SymbolOutOfRange, offset: reader.byte_pos },
            );
        }
    }
}

/// A chain of stored blocks, parsed bytewise at `pos`: each block is a
/// header byte that is exactly 0 or 1 (BFINAL with BTYPE=0 and zero
/// padding), the little-endian length, its one's complement, and the raw
/// bytes; the chain ends at the first header with BFINAL set, trailing
/// bytes ignored. Any other shape is no stored chain.
pub open spec fn spec_stored_decode(bytes: Seq<u8>, pos: int) -> Option<Seq<u8>>
    decreases bytes.len() - pos,
{
    if pos < 0 || pos + 5 > bytes.len() {
        None::<Seq<u8>>
    } else {
        let h = bytes[pos];
        let len = (bytes[pos + 1] as int) + 256 * (bytes[pos + 2] as int);
        let nlen = (bytes[pos + 3] as int) + 256 * (bytes[pos + 4] as int);
        if (h == 0 || h == 1) && len + nlen == 65535 && pos + 5 + len <= bytes.len() {
            let chunk = bytes.subrange(pos + 5, pos + 5 + len);
            if h == 1 {
                Some(chunk)
            } else {
                match spec_stored_decode(bytes, pos + 5 + len) {
                    Some(rest) => Some(chunk + rest),
                    None => None::<Seq<u8>>,
                }
            }
        } else {
            None::<Seq<u8>>
        }
    }
}

/// Parsing a stored chain ignores everything before its starting offset.
proof fn lemma_stored_decode_shift(prefix: Seq<u8>, tail: Seq<u8>, p: int)
    requires
        p >= 0,
    ensures
        spec_stored_decode(prefix + tail, prefix.len() + p) == spec_stored_decode(tail, p),
    decreases tail.len() - p,
{
    let all = prefix + tail;
    let q = prefix.len() + p;
    if p + 5 <= tail.len() {
        assert(all[q] == tail[p]);
        assert(all[q + 1] == tail[p + 1]);
        assert(all[q + 2] == tail[p + 2]);
        assert(all[q + 3] == tail[p + 3]);
        assert(all[q + 4] == tail[p + 4]);
        let h = tail[p];
        let len = (tail[p + 1] as int) + 256 * (tail[p + 2] as int);
        let nlen = (tail[p + 3] as int) + 256 * (tail[p + 4] as int);
        if (h == 0 || h == 1) && len + nlen == 65535 && p + 5 + len <= tail.len() {
            assert(all.subrange(q + 5, q + 5 + len) =~= tail.subrange(p + 5, p + 5 + len));
            if h != 1 {
                lemma_stored_decode_shift(prefix, tail, p + 5 + len);
            }
        }
    }
}

/// Law: decoding inverts the stored-block encoder — the chain
/// `spec_stored_encode` emits parses back to exactly the bytes it was
/// given, so `decompress` of `compress_stored` is the identity by the two
/// functions' contracts.
pub proof fn lemma_stored_round_trip(data: Seq<u8>)
    ensures
        spec_stored_decode(spec_stored_encode(data), 0) == Some(data),
    decreases data.len(),
{
    let enc = spec_stored_encode(data);
    if data.len() <= 65535 {
        let lo = (data.len() % 256) as int;
        let hi = (data.len() / 256) as int;
        vstd::arithmetic::div_mod::lemma_fundamental_div_mod(data.len() as int, 256);
        assert(enc[1] == lo as u8 && enc[2] == hi as u8);
        assert(hi <= 255);
        assert((enc[1] as int) + 256 * (enc[2] as int) == data.len());
        assert((enc[3] as int) + 256 * (enc[4] as int) == 65535 - data.len());
        assert(enc.subrange(5, 5 + data.len() as int) =~= data);
    } else {
        let head = seq![0u8, 0xFFu8, 0xFFu8, 0u8, 0u8] + data.take(65535);
        let rest_enc = spec_stored_encode(data.skip(65535));
        assert(enc =~= head + rest_enc);
        assert(enc[0] == 0u8 && enc[1] == 0xFFu8 && enc[2] == 0xFFu8 && enc[3] == 0u8 && enc[4]
            == 0u8);
        assert((enc[1] as int) + 256 * (enc[2] as int) == 65535);
        assert((enc[3] as int) + 256 * (enc[4] as int) == 0);
        assert(enc.subrange(5, 5 + 65535int) =~= data.take(65535));
        lemma_stored_decode_shift(head, rest_enc, 0);
        assert(head.len() == 65540);
        lemma_stored_round_trip(data.skip(65535));
        assert(data.take(65535) + data.skip(65535) =~= data);
    }
}

/// Copies a stored chain out bytewise, without the bit machinery: returns
/// the chain's raw bytes exactly when `spec_stored_decode` accepts the
/// input from its start, and nothing otherwise.
fn stored_fast_path(input: &Vec<u8>) -> (r: Option<Vec<u8>>)
    ensures
        (match spec_stored_decode(input@, 0) {
            Some(d) => r matches Some(o) && o@ == d,
            None => r is None,
        }),
{
    let n: usize = input.len();
    let mut out: Vec<u8> = Vec::new();
    let mut pos: usize = 0;
    proof {
        match spec_stored_decode(input@, 0) {
            Some(d) => {
                assert(Seq::<u8>::empty() + d =~= d);
            },
            None => {},
        }
    }
    loop
        invariant
            n == input@.len(),
            pos <= n,
            spec_stored_decode(input@, 0) == (match spec_stored_decode(input@, pos as int) {
                Some(rest) => Some(out@ + rest),
                None => None::<Seq<u8>>,
            }),
        decreases n - pos,
    {
        if n - pos < 5 {
            return None;
        }
        let h: u8 = input[pos];
        if h != 0 && h != 1 {
            return None;
        }
        let len: usize = (input[pos + 1] as usize) + 256 * (input[pos + 2] as usize);
        let nlen: usize = (input[pos + 3] as usize) + 256 * (input[pos + 4] as usize);
        if len + nlen != 65535 {
            return None;
        }
        if len > n - (pos + 5) {
            return None;
        }
        let ghost out_before = out@;
        let mut j: usize = 0;
        while j < len
            invariant
                j <= len,
                pos + 5 + len <= n,
                n == input@.len(),
                out@ == out_before + input@.subrange(pos as int + 5, pos + 5 + j),
            decreases len - j,
        {
            out.push(input[pos + 5 + j]);
            proof {
                assert(out@ =~= out_before + input@.subrange(pos as int + 5, pos + 5 + j + 1));
            }
            j = j + 1;
        }
        if h == 1 {
            return Some(out);
        }
        proof {
            match spec_stored_decode(input@, pos + 5 + len) {
                Some(rest) => {
                    assert(out_before + (input@.subrange(pos as int + 5, pos + 5 + len) + rest)
                        =~= out@ + rest);
                },
                None => {},
            }
        }
        pos = pos + 5 + len;
    }
}

/// Decompresses a raw DEFLATE block sequence: reads each block header,
/// dispatches on the block type — stored, fixed-Huffman or dynamic-Huffman
/// — and stops after the block flagged BFINAL. Every malformed input fails
/// with the error kind naming what broke; nothing is silently coerced.
/// A chain of stored blocks decodes to exactly its raw bytes; a reserved
/// first block type, and a first stored block whose length check fails,
/// are refused as malformed.
pub fn decompress(input: Vec<u8>) -> (r: Result<Vec<u8>, CodecError>)
    ensures
        spec_stored_decode(input@, 0) matches Some(d) ==> (r matches Ok(o) && o@ == d),
        input@.len() >= 1 && ((input@[0] & 0b0000_0110) >> 1u8) == 3 ==> r == Err::<
            Vec<u8>,
            CodecError,
        >((CodecError { kind: CodecErrorKind::MalformedBlockHeader, offset: 0 })),
        (input@.len() >= 5 && ((input@[0] & 0b0000_0110) >> 1u8) == 0 && ((input@[1] as int) + 256
            * (input@[2] as int)) + ((input@[3] as int) + 256 * (input@[4] as int)) != 65535) ==> (
        r matches Err(e) && e.kind == CodecErrorKind::MalformedBlockHeader),
        r matches Err(e) ==> (e.kind == CodecErrorKind::TruncatedStream || e.kind
            == CodecErrorKind::MalformedBlockHeader || e.kind == CodecErrorKind::InvalidHuffmanTree
            || e.kind == CodecErrorKind::SymbolOutOfRange || e.kind
            == CodecErrorKind::WindowViolation),
{
    match stored_fast_path(&input) {
        Some(o) => {
            proof {
                if input@.len() >= 1 {
                    let h = input@[0];
                    assert(input@[0] == 0 || input@[0] == 1);
                    assert(((h & 0b0000_0110) >> 1u8) != 3 && ((h & 0b0000_0110) >> 1u8) == 0)
                        by (bit_vector)
                        requires
                            h == 0 || h == 1,
                    ;
                }
            }
            return Ok(o);
        },
        None => {},
    }
    if input.len() >= 1 {
        let first: (bool, u8) = parse_block_header(input[0]);
        if first.1 == 3 {
            return Err(CodecError { kind: CodecErrorKind::MalformedBlockHeader, offset: 0 });
        }
        if first.1 == 0 && input.len() >= 5 {
            let len0: u32 = (input[1] as u32) + 256 * (input[2] as u32);
            let nlen0: u32 = (input[3] as u32) + 256 * (input[4] as u32);
            if len0 + nlen0 != 65535 {
                return Err(CodecError { kind: CodecErrorKind::MalformedBlockHeader, offset: 5 });
            }
        }
    }
    let ghost inp0 = input@;
    let mut reader = BitReader::new(input);
    let mut out: Vec<u8> = Vec::new();
    loop
        invariant
            reader.wf(),
            inp0 == input@,
            reader.bytes@ == inp0,
            spec_stored_decode(inp0, 0) is None,
            inp0.len() >= 1 ==> ((inp0[0] & 0b0000_0110) >> 1u8) != 3,
            (inp0.len() >= 5 && ((inp0[0] & 0b0000_0110) >> 1u8) == 0) ==> ((inp0[1] as int) + 256
                * (inp0[2] as int)) + ((inp0[3] as int) + 256 * (inp0[4] as int)) == 65535,
        decreases reader.bit_len() - reader.cursor(),
    {
        let bfinal: u32 = match reader.read_bits(1, BitOrder::Lsb) {
            Ok(v) => v,
            Err(e) => {
                return Err(e);
            },
        };
        let btype: u32 = match reader.read_bits(2, BitOrder::Lsb) {
            Ok(v) => v,
            Err(e) => {
                return Err(e);
            },
        };
        proof {
            lemma_extra_fits(btype, 2);
        }
        if btype == 0 {
            reader.align_to_byte();
            let len: u32 = match reader.read_bits(16, BitOrder::Lsb) {
                Ok(v) => v,
                Err(e) => {
                    return Err(e);
                },
            };
            let nlen: u32 = match reader.read_bits(16, BitOrder::Lsb) {
                Ok(v) => v,
                Err(e) => {
                    return Err(e);
                },
            };
            proof {
                lemma_extra_fits16(len);
                lemma_extra_fits16(nlen);
            }
            if len != (nlen ^ 0xFFFF) {
                return Err(
                    CodecError {
                        kind: CodecErrorKind::MalformedBlockHeader,
                        offset: reader.byte_pos,
                    },
                );
            }
            let ghost bytes_snap = reader.bytes@;
            let ghost c0: int = reader.cursor();
            let mut c: u32 = 0;
            while c < len
                invariant
                    c <= len,
                    reader.wf(),
                    reader.bit_pos == 0,
                    reader.bytes@ == bytes_snap,
                    reader.cursor() >= c0,
                    inp0 == input@,
                    spec_stored_decode(inp0, 0) is None,
                    inp0.len() >= 1 ==> ((inp0[0] & 0b0000_0110) >> 1u8) != 3,
                    (inp0.len() >= 5 && ((inp0[0] & 0b0000_0110) >> 1u8) == 0) ==> ((
                    inp0[1] as int) + 256 * (inp0[2] as int)) + ((inp0[3] as int) + 256 * (
                    inp0[4] as int)) == 65535,
                decreases len - c,
            {
                let b: u8 = match reader.read_aligned_byte() {
                    Ok(b) => b,
                    Err(e) => {
                        return Err(e);
                    },
                };
                out.push(b);
                c = c + 1;
            }
        } else if btype == 1 {
            let lit_lengths: Vec<u8> = fixed_litlen_lengths();
            let dist_lengths: Vec<u8> = fixed_distance_lengths();
            let lit_table: CodeTable = match build_code_table(&lit_lengths) {
                Ok(t) => t,
                Err(e) => {
                    return Err(e);
                },
            };
            let dist_table: CodeTable = match build_code_table(&dist_lengths) {
                Ok(t) => t,
                Err(e) => {
                    return Err(e);
                },
            };
            match inflate_symbols(&mut reader, &mut out, &lit_table, &dist_table) {
                Ok(()) => {},
                Err(e) => {
                    return Err(e);
                },
            }
        } else if btype == 2 {
            let tables: (CodeTable, CodeTable) = match read_dynamic_tables(&mut reader) {
                Ok(t) => t,
                Err(e) => {
                    return Err(e);
                },
            };
            match inflate_symbols(&mut reader, &mut out, &tables.0, &tables.1) {
                Ok(()) => {},
                Err(e) => {
                    return Err(e);
                },
            }
        } else {
            return Err(
                CodecError { kind: CodecErrorKind::MalformedBlockHeader, offset: reader.byte_pos },
            );
        }
        if bfinal == 1 {
            return Ok(out);
        }
    }
}

/// A 16-bit field read from the stream fits 16 bits.
proof fn lemma_extra_fits16(v: u32)
    requires
        v < (1u32 << 16u32),
    ensures
        v <= 0xFFFF,
{
    assert((1u32 << 16u32) == 0x1_0000) by (bit_vector);
}

/// The stored-block encoding of a byte buffer: chunks of at most 65535
/// bytes, each behind a byte-aligned header of one type byte, the chunk
/// length in little-endian order, and its one's complement; the last chunk
/// carries BFINAL.
pub open spec fn spec_stored_encode(data: Seq<u8>) -> Seq<u8>
    decreases data.len(),
{
    if data.len() <= 65535 {
        seq![
            1u8,
            (data.len() % 256) as u8,
            (data.len() / 256) as u8,
            (255 - data.len() % 256) as u8,
            (255 - data.len() / 256) as u8,
        ] + data
    } else {
        seq![0u8, 0xFFu8, 0xFFu8, 0u8, 0u8] + data.take(65535) + spec_stored_encode(
            data.skip(65535),
        )
    }
}

/// Compresses a byte buffer as a sequence of stored blocks: no compression,
/// but a valid DEFLATE stream, terminated by one block with BFINAL set.
pub fn compress_stored(data: &Vec<u8>) -> (r: Vec<u8>)
    ensures
        r@ == spec_stored_encode(data@),
{
    let mut out: Vec<u8> = Vec::new();
    let mut s: usize = 0;
    let mut done: bool = false;
    proof {
        assert(data@.skip(0) =~= data@);
    }
    while !done
        invariant
            s <= data@.len(),
            done ==> out@ == spec_stored_encode(data@),
            !done ==> spec_stored_encode(data@) == out@ + spec_stored_encode(
                data@.skip(s as int),
            ),
        decreases data@.len() - s + (if done {
            0int
        } else {
            1int
        }),
    {
        let ghost rest = data@.skip(s as int);
        let rem: usize = data.len() - s;
        let chunk: usize = if rem <= 65535 {
            rem
        } else {
            65535
        };
        let ghost out_at_header = out@;
        if rem <= 65535 {
            out.push(1);
        } else {
            out.push(0);
        }
        out.push((chunk % 256) as u8);
        out.push((chunk / 256) as u8);
        out.push((255 - chunk % 256) as u8);
        out.push((255 - chunk / 256) as u8);
        let ghost base = out@;
        let mut j: usize = 0;
        while j < chunk
            invariant
                j <= chunk,
                s + chunk <= data@.len(),
                data@.len() <= usize::MAX,
                out@ == base + data@.subrange(s as int, s + j),
            decreases chunk - j,
        {
            out.push(data[s + j]);
            proof {
                assert(out@ =~= base + data@.subrange(s as int, s + j + 1));
            }
            j = j + 1;
        }
        if rem <= 65535 {
            proof {
                assert(rest.len() == rem);
                assert(data@.subrange(s as int, s + rem) =~= rest);
                assert(out@ =~= out_at_header + spec_stored_encode(rest));
            }
            done = true;
        } else {
            proof {
                assert(rest.len() == rem);
                assert(rest.take(65535) =~= data@.subrange(s as int, s + 65535));
                assert(rest.skip(65535) =~= data@.skip(s + 65535));
                assert(out@ =~= out_at_header + (seq![0u8, 0xFFu8, 0xFFu8, 0u8, 0u8]
                    + rest.take(65535)));
                assert(spec_stored_encode(rest) == (seq![0u8, 0xFFu8, 0xFFu8, 0u8, 0u8]
                    + rest.take(65535)) + spec_stored_encode(rest.skip(65535)));
                assert(out_at_header + (seq![0u8, 0xFFu8, 0xFFu8, 0u8, 0u8] + rest.take(65535))
                    + spec_stored_encode(data@.skip(s + 65535)) =~= out_at_header
                    + spec_stored_encode(rest));
            }
            s = s + 65535;
        }
    }
    out
}

/// Tokens whose matches fit the DEFLATE alphabet each stand for at least
/// one byte, so there are never more tokens than bytes.
proof fn lemma_token_count_le_gain(tokens: Seq<Token>, window: int)
    requires
        forall|i: int| 0 <= i < tokens.len() ==> token_fits_window(tokens[i], window),
    ensures
        tokens_gain(tokens) >= tokens.len(),
    decreases tokens.len(),
{
    if tokens.len() > 0 {
        assert(token_fits_window(tokens[0], window));
        assert forall|i: int|
            0 <= i < tokens.skip(1).len() implies token_fits_window(
            #[trigger] tokens.skip(1)[i],
            window,
        ) by {
            assert(tokens.skip(1)[i] == tokens[i + 1]);
        }
        lemma_token_count_le_gain(tokens.skip(1), window);
    }
}

impl LempelZiv {
    /// Compresses the data as a single fixed-Huffman DEFLATE block: the
    /// match finder's tokens, coded with RFC 1951's fixed tables — Huffman
    /// codes most-significant-bit first, extra bits least-significant-bit
    /// first — closed by the end-of-block symbol and zero-padded to whole
    /// bytes.
    pub fn compress(&self) -> (r: Vec<u8>)
        requires
            self.data@.len() <= 100_000_000,
        ensures
            r@.len() >= 1,
            (r@[0] & 0b0000_0001) == 1,
            ((r@[0] & 0b0000_0110) >> 1u8) == 1,
            exists|tokens: Seq<Token>, body: Seq<bool>|
                {
                    &&& expand(tokens) == self.data@
                    &&& crate::lzss::tokens_valid_from(0, tokens)
                    &&& forall|k: int|
                        0 <= k < tokens.len() ==> token_fits_window(
                            tokens[k],
                            effective_window(self.buffer_size as int),
                        )
                    &&& forall|k: int|
                        0 <= k < tokens.len() ==> #[trigger] token_choice_ok(
                            self.data@,
                            effective_window(self.buffer_size as int),
                            tokens,
                            k,
                        )
                    &&& tokens_bits_ok(tokens, body)
                    &&& ({
                        let stream = seq![true, true, false] + body + spec_fixed_litlen_bits(256);
                        &&& r@.len() == (stream.len() + 7) / 8
                        &&& (forall|i: int|
                            0 <= i < stream.len() ==> bit_in_bytes(r@, i) == stream[i])
                        &&& (forall|i: int|
                            stream.len() <= i < 8 * r@.len() ==> !bit_in_bytes(r@, i))
                    })
                },
    {
        let ghost w: int = if self.buffer_size <= 32768 {
            self.buffer_size as int
        } else {
            32768
        };
        let tokens: Vec<Token> = self.tokenize();
        proof {
            lemma_token_count_le_gain(tokens@, w);
            crate::lzss::lemma_expand_from_len(Seq::<u8>::empty(), tokens@);
        }
        let mut bs = BitStream::new();
        bs.push_bits(1, 1, BitOrder::Lsb);
        bs.push_bits(1, 2, BitOrder::Lsb);
        proof {
            assert(nth_bit32(1u32, 0) && !nth_bit32(1u32, 1)) by (bit_vector);
        }
        let ghost header = bs@;
        proof {
            assert(bs@.skip(3) =~= Seq::<bool>::empty());
            assert(tokens@.take(0) =~= Seq::<Token>::empty());
        }
        let mut i: usize = 0;
        while i < tokens.len()
            invariant
                bs.wf(),
                tokens@.len() <= 100_000_000,
                i <= tokens@.len(),
                bs.len <= 3 + 31 * i,
                bs@.len() >= 3,
                bs@[0] == header[0] && bs@[1] == header[1] && bs@[2] == header[2],
                header.len() == 3,
                header[0] == true && header[1] == true && header[2] == false,
                forall|k: int| 0 <= k < tokens@.len() ==> token_fits_window(tokens@[k], w),
                tokens_bits_ok(tokens@.take(i as int), bs@.skip(3)),
            decreases tokens@.len() - i,
        {
            let t: Token = tokens[i];
            let ghost pre = bs@.skip(3);
            match t {
                Token::Literal(b) => {
                    let code: (u16, u8) = fixed_litlen_code(b as u16);
                    bs.push_bits(code.0 as u32, code.1, BitOrder::Msb);
                    proof {
                        let ghost tb = bits_msb_first(code.0 as u32, code.1 as nat);
                        assert(0 <= spec_fixed_litlen_code(b as int).0 < 512);
                        assert(tb =~= spec_fixed_litlen_bits(b as int));
                        assert(token_bits_ok(t, tb));
                        lemma_tokens_bits_snoc(tokens@.take(i as int), t, pre, tb);
                        assert(tokens@.take(i as int).push(t) =~= tokens@.take(i + 1));
                        assert(bs@.skip(3) =~= pre + tb);
                    }
                },
                Token::Match { length, distance } => {
                    proof {
                        assert(token_fits_window(tokens@[i as int], w));
                    }
                    let ls: (u16, u8, u16) = length_to_symbol(length);
                    proof {
                        crate::lzss::lemma_length_extra_span(ls.0 as int);
                    }
                    let lc: (u16, u8) = fixed_litlen_code(ls.0);
                    bs.push_bits(lc.0 as u32, lc.1, BitOrder::Msb);
                    bs.push_bits(ls.2 as u32, ls.1, BitOrder::Lsb);
                    let ds: (u16, u8, u16) = distance_to_symbol(distance);
                    proof {
                        crate::lzss::lemma_distance_extra_span(ds.0 as int);
                    }
                    bs.push_bits(ds.0 as u32, 5, BitOrder::Msb);
                    bs.push_bits(ds.2 as u32, ds.1, BitOrder::Lsb);
                    proof {
                        let ls0: int = ls.0 as int;
                        let ds0: int = ds.0 as int;
                        let a1 = bits_msb_first(lc.0 as u32, lc.1 as nat);
                        let a2 = bits_lsb_first(ls.2 as u32, ls.1 as nat);
                        let a3 = bits_msb_first(ds.0 as u32, 5);
                        let a4 = bits_lsb_first(ds.2 as u32, ds.1 as nat);
                        let tb = a1 + a2 + a3 + a4;
                        assert(bs@.skip(3) =~= pre + tb);
                        assert(0 <= spec_fixed_litlen_code(ls0).0 < 512);
                        assert(a1 =~= spec_fixed_litlen_bits(ls0));
                        assert(a2 =~= bits_lsb_first(
                            (length - spec_length_info(ls0).1) as u32,
                            spec_length_info(ls0).0 as nat,
                        ));
                        assert(a3 =~= bits_msb_first(ds0 as u32, 5));
                        assert(a4 =~= bits_lsb_first(
                            (distance - spec_distance_info(ds0).1) as u32,
                            spec_distance_info(ds0).0 as nat,
                        ));
                        assert(token_bits_ok(t, tb));
                        lemma_tokens_bits_snoc(tokens@.take(i as int), t, pre, tb);
                        assert(tokens@.take(i as int).push(t) =~= tokens@.take(i + 1));
                    }
                },
            }
            i = i + 1;
        }
        proof {
            assert(tokens@.take(tokens@.len() as int) =~= tokens@);
        }
        let ghost body = bs@.skip(3);
        let ghost pre_eob = bs@;
        let eob: (u16, u8) = fixed_litlen_code(256);
        bs.push_bits(eob.0 as u32, eob.1, BitOrder::Msb);
        let r = bs.to_rfc_bytes();
        proof {
            assert(bs@[0] == true && bs@[1] == true && bs@[2] == false);
            let b0 = r@[0];
            assert(crate::bitstream::bit_in_bytes(r@, 0) == crate::bitstream::nth_bit(b0, 0));
            assert(crate::bitstream::bit_in_bytes(r@, 1) == crate::bitstream::nth_bit(b0, 1));
            assert(crate::bitstream::bit_in_bytes(r@, 2) == crate::bitstream::nth_bit(b0, 2));
            assert((b0 & 0b0000_0001) == 1 && ((b0 & 0b0000_0110) >> 1u8) == 1) by (bit_vector)
                requires
                    (b0 >> 0u8) & 1 == 1,
                    (b0 >> 1u8) & 1 == 1,
                    (b0 >> 2u8) & 1 != 1,
            ;
            assert(0 <= spec_fixed_litlen_code(256).0 < 512);
            assert(bits_msb_first(eob.0 as u32, eob.1 as nat) =~= spec_fixed_litlen_bits(256));
            let stream = seq![true, true, false] + body + spec_fixed_litlen_bits(256);
            assert(pre_eob.take(3) =~= seq![true, true, false]);
            assert(pre_eob =~= pre_eob.take(3) + body);
            assert(bs@ =~= stream);
            assert forall|k: int| 0 <= k < stream.len() implies bit_in_bytes(r@, k)
                == stream[k] by {
                assert(bs@[k] == bit_in_bytes(bs.bytes@, k));
            }
            assert(forall|k: int|
                stream.len() <= k < 8 * r@.len() ==> !bit_in_bytes(r@, k));
        }
        r
    }
}

} // verus!
