//! Bit-level streams over a byte buffer, packed in RFC 1951's order.
//!
//! Bit `i` of a stream lives in byte `i / 8` of the backing buffer, at
//! position `i % 8` counted from the least-significant bit: data is packed
//! into bytes starting with the least-significant bit, as section 3.1.1 of
//! the RFC requires. Multi-bit fields choose their own direction when they
//! are pushed: length/distance extra bits and other non-Huffman fields go
//! least-significant-bit first, Huffman codes most-significant-bit first.
//! That asymmetry is load-bearing and every caller states it explicitly
//! through [`BitOrder`].

use crate::errors::{CodecError, CodecErrorKind};
use vstd::prelude::*;

verus! {

/// Bit `k` of a byte, counted from the least-significant end.
pub open spec fn nth_bit(byte: u8, k: u8) -> bool {
    (byte >> k) & 1 == 1
}

/// Bit `k` of a 32-bit value, counted from the least-significant end.
pub open spec fn nth_bit32(value: u32, k: u32) -> bool {
    (value >> k) & 1 == 1
}

/// Bit `i` of a byte buffer in RFC 1951 packing order: byte `i / 8`,
/// position `i % 8` from the least-significant bit.
pub open spec fn bit_in_bytes(bytes: Seq<u8>, i: int) -> bool
    recommends
        0 <= i < 8 * bytes.len(),
{
    nth_bit(bytes[i / 8], (i % 8) as u8)
}

/// The direction in which a multi-bit value enters or leaves a stream.
#[derive(Clone, Copy, PartialEq, Eq, Structural, Debug)]
pub enum BitOrder {
    /// Least-significant bit first: length/distance extra bits, stored-block
    /// lengths, and every other non-Huffman field.
    Lsb,
    /// Most-significant bit first: Huffman codes only.
    Msb,
}

/// The first `count` bits of `value`, least-significant first.
pub open spec fn bits_lsb_first(value: u32, count: nat) -> Seq<bool> {
    Seq::new(count, |i: int| nth_bit32(value, i as u32))
}

/// The first `count` bits of `value`, most-significant of the `count` first.
pub open spec fn bits_msb_first(value: u32, count: nat) -> Seq<bool> {
    Seq::new(count, |i: int| nth_bit32(value, (count - 1 - i) as u32))
}

/// The bit sequence that pushing `value` with the given order appends.
pub open spec fn bits_of(value: u32, count: nat, order: BitOrder) -> Seq<bool> {
    match order {
        BitOrder::Lsb => bits_lsb_first(value, count),
        BitOrder::Msb => bits_msb_first(value, count),
    }
}

/// Splitting a bit cursor `8 * q + r` with `0 <= r < 8` into byte and bit
/// parts recovers `q` and `r`.
proof fn lemma_div_split(x: int, q: int, r: int)
    requires
        x == 8 * q + r,
        0 <= r < 8,
    ensures
        x / 8 == q,
        x % 8 == r,
{
    vstd::arithmetic::div_mod::lemma_fundamental_div_mod_converse_div(x, 8, q, r);
    vstd::arithmetic::div_mod::lemma_fundamental_div_mod_converse_mod(x, 8, q, r);
}

/// `0 <= i < 8 * n` puts byte index `i / 8` strictly below `n`.
proof fn lemma_div8_strict(i: int, n: int)
    requires
        0 <= i < 8 * n,
    ensures
        0 <= i / 8 < n,
        0 <= i % 8 < 8,
{
    vstd::arithmetic::div_mod::lemma_fundamental_div_mod(i, 8);
}

/// An append-only sequence of bits with an explicit bit length, backed by a
/// byte buffer of `ceil(len / 8)` bytes whose trailing padding bits are zero.
pub struct BitStream {
    /// How many bits of the backing buffer belong to the stream.
    pub len: u32,
    /// The backing buffer, in RFC 1951 packing order.
    pub bytes: Vec<u8>,
}

impl View for BitStream {
    type V = Seq<bool>;

    open spec fn view(&self) -> Seq<bool> {
        Seq::new(self.len as nat, |i: int| bit_in_bytes(self.bytes@, i))
    }
}

impl BitStream {
    /// The backing buffer holds exactly `ceil(len / 8)` bytes and every bit
    /// past `len` is zero padding.
    pub open spec fn wf(&self) -> bool {
        &&& self.bytes@.len() == (self.len + 7) / 8
        &&& forall|i: int|
            self.len <= i < 8 * self.bytes@.len() ==> !bit_in_bytes(self.bytes@, i)
    }

    /// Creates a new empty bit stream.
    pub fn new() -> (r: Self)
        ensures
            r.wf(),
            r@ == Seq::<bool>::empty(),
            r.len == 0,
    {
        let r = BitStream { len: 0, bytes: Vec::new() };
        proof {
            assert(r@ =~= Seq::<bool>::empty());
        }
        r
    }

    /// Appends one bit, already validated to be 0 or 1.
    fn push_bit(&mut self, bit: u8)
        requires
            old(self).wf(),
            bit <= 1,
            old(self).len < u32::MAX,
        ensures
            final(self).wf(),
            final(self)@ == old(self)@.push(bit == 1),
            final(self).len == old(self).len + 1,
    {
        let ghost old_bytes = self.bytes@;
        let ghost len: int = self.len as int;
        let ghost q: int = len / 8;
        let ghost r: int = len % 8;
        proof {
            vstd::arithmetic::div_mod::lemma_fundamental_div_mod(len, 8);
        }
        let pos: u32 = self.len % 8;
        if pos == 0 {
            proof {
                lemma_div_split(len + 7, q, 7);
            }
            self.bytes.push(bit);
            proof {
                lemma_bits_framed_after_push(old_bytes, self.bytes@, len, bit);
                lemma_div_split(len + 8, q + 1, 0);
            }
        } else {
            proof {
                lemma_div_split(len + 7, q + 1, r - 1);
            }
            let idx: usize = (self.len / 8) as usize;
            let b: u8 = self.bytes[idx];
            let nb: u8 = b | (bit << (pos as u8));
            self.bytes[idx] = nb;
            proof {
                assert(!nth_bit(b, (len % 8) as u8)) by {
                    assert(!bit_in_bytes(old_bytes, len));
                }
                lemma_bits_framed_after_set(old_bytes, self.bytes@, len, bit);
                lemma_div_split(len + 8, q + 1, r);
            }
        }
        self.len = self.len + 1;
        proof {
            assert(self@ =~= old(self)@.push(bit == 1));
        }
    }

    /// Takes in a 0 or 1 and appends it to the stream; any other value is
    /// refused with `InvalidBitValue` and the stream is left unchanged.
    pub fn push(&mut self, bit: u8) -> (r: Result<(), CodecError>)
        requires
            old(self).wf(),
            old(self).len < u32::MAX,
        ensures
            final(self).wf(),
            bit <= 1 ==> {
                &&& r is Ok
                &&& final(self)@ == old(self)@.push(bit == 1)
                &&& final(self).len == old(self).len + 1
            },
            bit > 1 ==> {
                &&& r == Err::<(), CodecError>(
                    (CodecError {
                        kind: CodecErrorKind::InvalidBitValue,
                        offset: (old(self).len / 8) as usize,
                    }),
                )
                &&& *final(self) == *old(self)
            },
    {
        if bit > 1 {
            return Err(
                CodecError {
                    kind: CodecErrorKind::InvalidBitValue,
                    offset: (self.len / 8) as usize,
                },
            );
        }
        self.push_bit(bit);
        Ok(())
    }

    /// Appends the low `count` bits of `value` in the given order.
    pub fn push_bits(&mut self, value: u32, count: u8, order: BitOrder)
        requires
            old(self).wf(),
            count <= 32,
            old(self).len + count <= u32::MAX,
        ensures
            final(self).wf(),
            final(self)@ == old(self)@ + bits_of(value, count as nat, order),
            final(self).len == old(self).len + count,
    {
        let ghost start = self@;
        let ghost len0: int = self.len as int;
        let ghost pattern = bits_of(value, count as nat, order);
        let mut k: u8 = 0;
        while k < count
            invariant
                self.wf(),
                k <= count,
                count <= 32,
                self.len == len0 + k,
                len0 + count <= u32::MAX,
                pattern == bits_of(value, count as nat, order),
                self@ == start + pattern.take(k as int),
            decreases count - k,
        {
            let shift: u32 = match order {
                BitOrder::Lsb => k as u32,
                BitOrder::Msb => (count - 1 - k) as u32,
            };
            let b: u8 = if (value >> shift) & 1 == 1 {
                1
            } else {
                0
            };
            self.push_bit(b);
            proof {
                assert(pattern[k as int] == (b == 1));
                assert(self@ =~= start + pattern.take(k + 1));
            }
            k = k + 1;
        }
        proof {
            assert(self@ =~= start + pattern);
        }
    }

    /// Hands out the backing buffer in RFC 1951 packing order. Its length is
    /// always `ceil(len / 8)`; callers must carry the exact bit length
    /// separately, since trailing padding bits carry no meaning.
    pub fn to_rfc_bytes(&self) -> (r: Vec<u8>)
        requires
            self.wf(),
        ensures
            r@ == self.bytes@,
            r@.len() == (self@.len() + 7) / 8,
    {
        let mut out: Vec<u8> = Vec::new();
        let mut i: usize = 0;
        while i < self.bytes.len()
            invariant
                i <= self.bytes@.len(),
                out@ == self.bytes@.subrange(0, i as int),
            decreases self.bytes@.len() - i,
        {
            out.push(self.bytes[i]);
            proof {
                assert(out@ =~= self.bytes@.subrange(0, i + 1));
            }
            i = i + 1;
        }
        proof {
            assert(out@ =~= self.bytes@);
        }
        out
    }
}

impl Default for BitStream {
    /// An empty stream, exactly as `new` builds it.
    fn default() -> (r: Self)
        ensures
            r.wf(),
            r@ == Seq::<bool>::empty(),
            r.len == 0,
    {
        Self::new()
    }
}

/// After appending one byte holding only `bit` to a buffer of `len / 8`
/// whole bytes, every old bit keeps its value, bit `len` of the new buffer
/// is `bit`, and the padding above it is zero.
proof fn lemma_bits_framed_after_push(old_bytes: Seq<u8>, new_bytes: Seq<u8>, len: int, bit: u8)
    requires
        bit <= 1,
        len >= 0,
        len % 8 == 0,
        old_bytes.len() == len / 8,
        new_bytes == old_bytes.push(bit),
    ensures
        forall|i: int| 0 <= i < len ==> bit_in_bytes(new_bytes, i) == bit_in_bytes(old_bytes, i),
        bit_in_bytes(new_bytes, len) == (bit == 1),
        forall|i: int| len < i < 8 * new_bytes.len() ==> !bit_in_bytes(new_bytes, i),
{
    vstd::arithmetic::div_mod::lemma_fundamental_div_mod(len, 8);
    assert forall|i: int| 0 <= i < len implies bit_in_bytes(new_bytes, i) == bit_in_bytes(
        old_bytes,
        i,
    ) by {
        lemma_div8_strict(i, len / 8);
    }
    assert(nth_bit(bit, 0) == (bit == 1)) by (bit_vector)
        requires
            bit <= 1,
    ;
    assert(bit_in_bytes(new_bytes, len) == (bit == 1)) by {
        lemma_div_split(len, len / 8, 0);
    }
    assert forall|i: int| len < i < 8 * new_bytes.len() implies !bit_in_bytes(new_bytes, i) by {
        lemma_div_split(i, len / 8, i - len);
        let k: u8 = (i % 8) as u8;
        assert(!nth_bit(bit, k)) by (bit_vector)
            requires
                bit <= 1,
                1 <= k < 8,
        ;
    }
}

/// After OR-ing `bit` into position `len % 8` of the last byte, bits below
/// `len` keep their value, bit `len` becomes `bit`, and zero bits above it
/// stay zero.
proof fn lemma_bits_framed_after_set(old_bytes: Seq<u8>, new_bytes: Seq<u8>, len: int, bit: u8)
    requires
        bit <= 1,
        len >= 0,
        len % 8 != 0,
        old_bytes.len() == len / 8 + 1,
        !nth_bit(old_bytes[len / 8], (len % 8) as u8),
        new_bytes == old_bytes.update(
            len / 8,
            old_bytes[len / 8] | (bit << ((len % 8) as u8)),
        ),
    ensures
        forall|i: int| 0 <= i < len ==> bit_in_bytes(new_bytes, i) == bit_in_bytes(old_bytes, i),
        bit_in_bytes(new_bytes, len) == (bit == 1),
        forall|i: int|
            len < i < 8 * new_bytes.len() && !bit_in_bytes(old_bytes, i) ==> !bit_in_bytes(
                new_bytes,
                i,
            ),
{
    vstd::arithmetic::div_mod::lemma_fundamental_div_mod(len, 8);
    let q: int = len / 8;
    let p: u8 = (len % 8) as u8;
    let b: u8 = old_bytes[q];
    let nb: u8 = b | (bit << p);
    assert forall|i: int| 0 <= i < len implies bit_in_bytes(new_bytes, i) == bit_in_bytes(
        old_bytes,
        i,
    ) by {
        lemma_div8_strict(i, q + 1);
        if i / 8 == q {
            vstd::arithmetic::div_mod::lemma_fundamental_div_mod(i, 8);
            let k: u8 = (i % 8) as u8;
            assert(nth_bit(nb, k) == nth_bit(b, k)) by (bit_vector)
                requires
                    nb == b | (bit << p),
                    bit <= 1,
                    k < p,
                    p < 8,
            ;
        }
    }
    assert(bit_in_bytes(new_bytes, len) == (bit == 1)) by {
        assert(nth_bit(nb, p) == (bit == 1)) by (bit_vector)
            requires
                nb == b | (bit << p),
                bit <= 1,
                p < 8,
                !nth_bit(b, p),
        ;
    }
    assert forall|i: int|
        len < i < 8 * new_bytes.len() && !bit_in_bytes(old_bytes, i) implies !bit_in_bytes(
        new_bytes,
        i,
    ) by {
        lemma_div_split(i, q, i - 8 * q);
        let k: u8 = (i % 8) as u8;
        assert(nth_bit(nb, k) == nth_bit(b, k)) by (bit_vector)
            requires
                nb == b | (bit << p),
                bit <= 1,
                p < k,
                k < 8,
        ;
    }
}

/// A sequential reader over a byte buffer, consuming bits in the same RFC
/// 1951 order in which [`BitStream`] produced them.
pub struct BitReader {
    /// The buffer being read.
    pub bytes: Vec<u8>,
    /// The byte the cursor stands in.
    pub byte_pos: usize,
    /// The bit inside that byte, counted from the least-significant end.
    pub bit_pos: u8,
}

impl BitReader {
    /// The cursor stays inside the buffer and only rests past the end at a
    /// byte boundary.
    pub open spec fn wf(&self) -> bool {
        &&& self.bit_pos < 8
        &&& self.byte_pos <= self.bytes@.len()
        &&& self.bit_pos != 0 ==> self.byte_pos < self.bytes@.len()
    }

    /// The absolute bit position of the cursor.
    pub open spec fn cursor(&self) -> int {
        8 * self.byte_pos + self.bit_pos
    }

    /// The total number of bits the buffer holds.
    pub open spec fn bit_len(&self) -> int {
        8 * (self.bytes@.len() as int)
    }

    /// Starts reading at the first bit of `bytes`.
    pub fn new(bytes: Vec<u8>) -> (r: Self)
        ensures
            r.wf(),
            r.bytes@ == bytes@,
            r.cursor() == 0,
    {
        BitReader { bytes, byte_pos: 0, bit_pos: 0 }
    }

    /// Consumes one bit, or fails with `TruncatedStream` at the end of the
    /// buffer.
    pub fn read_bit(&mut self) -> (r: Result<u8, CodecError>)
        requires
            old(self).wf(),
        ensures
            final(self).wf(),
            final(self).bytes@ == old(self).bytes@,
            old(self).cursor() < old(self).bit_len() ==> {
                &&& r matches Ok(b)
                &&& b <= 1
                &&& (b == 1) == bit_in_bytes(old(self).bytes@, old(self).cursor())
                &&& final(self).cursor() == old(self).cursor() + 1
            },
            old(self).cursor() >= old(self).bit_len() ==> {
                &&& r == Err::<u8, CodecError>(
                    (CodecError {
                        kind: CodecErrorKind::TruncatedStream,
                        offset: old(self).byte_pos,
                    }),
                )
                &&& *final(self) == *old(self)
            },
    {
        if self.byte_pos >= self.bytes.len() {
            return Err(
                CodecError { kind: CodecErrorKind::TruncatedStream, offset: self.byte_pos },
            );
        }
        let b: u8 = self.bytes[self.byte_pos];
        let bit: u8 = (b >> self.bit_pos) & 1;
        proof {
            lemma_div_split(self.cursor(), self.byte_pos as int, self.bit_pos as int);
            let k: u8 = self.bit_pos;
            assert((b >> k) & 1 <= 1) by (bit_vector);
        }
        if self.bit_pos == 7 {
            self.bit_pos = 0;
            self.byte_pos = self.byte_pos + 1;
        } else {
            self.bit_pos = self.bit_pos + 1;
        }
        Ok(bit)
    }

    /// Consumes `count` bits and assembles them into a value in the given
    /// order, leaving the reader untouched when fewer bits remain.
    pub fn read_bits(&mut self, count: u8, order: BitOrder) -> (r: Result<u32, CodecError>)
        requires
            old(self).wf(),
            count <= 32,
        ensures
            final(self).wf(),
            final(self).bytes@ == old(self).bytes@,
            old(self).cursor() + count <= old(self).bit_len() ==> {
                &&& r matches Ok(v)
                &&& final(self).cursor() == old(self).cursor() + count
                &&& forall|i: int|
                    0 <= i < count ==> bits_of(v, count as nat, order)[i] == bit_in_bytes(
                        old(self).bytes@,
                        old(self).cursor() + i,
                    )
                &&& forall|j: u32| count <= j < 32 ==> !nth_bit32(v, j)
                &&& count < 32 ==> v < (1u32 << (count as u32))
            },
            old(self).cursor() + count > old(self).bit_len() ==> {
                &&& r == Err::<u32, CodecError>(
                    (CodecError {
                        kind: CodecErrorKind::TruncatedStream,
                        offset: old(self).byte_pos,
                    }),
                )
                &&& *final(self) == *old(self)
            },
    {
        let avail_bytes: usize = self.bytes.len() - self.byte_pos;
        let enough: bool = if avail_bytes >= 5 {
            true
        } else {
            8 * (avail_bytes as u8) - self.bit_pos >= count
        };
        if !enough {
            return Err(
                CodecError { kind: CodecErrorKind::TruncatedStream, offset: self.byte_pos },
            );
        }
        let ghost c0: int = self.cursor();
        let ghost bytes0 = self.bytes@;
        let mut v: u32 = 0;
        let mut k: u8 = 0;
        proof {
            assert(forall|j: u32| j < 32 ==> !nth_bit32(0u32, j)) by (bit_vector);
            if count < 32 {
                let c32: u32 = count as u32;
                assert(0u32 < (1u32 << c32)) by (bit_vector)
                    requires
                        c32 < 32,
                ;
            }
        }
        while k < count
            invariant
                self.wf(),
                self.bytes@ == bytes0,
                k <= count,
                count <= 32,
                self.cursor() == c0 + k,
                c0 + count <= 8 * bytes0.len(),
                c0 >= 0,
                forall|i: int|
                    0 <= i < k ==> bits_of(v, count as nat, order)[i] == bit_in_bytes(
                        bytes0,
                        c0 + i,
                    ),
                forall|j: u32|
                    j < 32 && #[trigger] nth_bit32(v, j) ==> (match order {
                        BitOrder::Lsb => j < k,
                        BitOrder::Msb => count - k <= j < count,
                    }),
                count < 32 ==> v < (1u32 << (count as u32)),
            decreases count - k,
        {
            let bit: u8 = match self.read_bit() {
                Ok(b) => b,
                Err(e) => {
                    proof {
                        assert(false);
                    }
                    return Err(e);
                },
            };
            let ghost old_v = v;
            let shift: u32 = match order {
                BitOrder::Lsb => k as u32,
                BitOrder::Msb => (count - 1 - k) as u32,
            };
            v = v | ((bit as u32) << shift);
            proof {
                let kk: u32 = shift;
                let b32: u32 = bit as u32;
                let vnew: u32 = old_v | (b32 << kk);
                assert(v == vnew);
                assert(nth_bit32(vnew, kk) == ((b32 == 1) || nth_bit32(old_v, kk)))
                    by (bit_vector)
                    requires
                        vnew == old_v | (b32 << kk),
                        b32 <= 1,
                        kk < 32,
                ;
                assert(forall|j: u32|
                    j < 32 && j != kk ==> #[trigger] nth_bit32(vnew, j) == nth_bit32(
                        old_v,
                        j,
                    )) by (bit_vector)
                    requires
                        vnew == old_v | (b32 << kk),
                        b32 <= 1,
                        kk < 32,
                ;
                assert(!nth_bit32(old_v, kk));
                assert(nth_bit32(vnew, kk) == (bit == 1));
                assert forall|i: int|
                    0 <= i < k + 1 implies bits_of(v, count as nat, order)[i] == bit_in_bytes(
                    bytes0,
                    c0 + i,
                ) by {
                    match order {
                        BitOrder::Lsb => {
                            assert(bits_of(v, count as nat, order)[i] == nth_bit32(
                                vnew,
                                i as u32,
                            ));
                            if i < k {
                                assert(bits_of(old_v, count as nat, order)[i] == bit_in_bytes(
                                    bytes0,
                                    c0 + i,
                                ));
                                assert(nth_bit32(vnew, i as u32) == nth_bit32(old_v, i as u32));
                            } else {
                                assert(i as u32 == kk);
                            }
                        },
                        BitOrder::Msb => {
                            let p: u32 = (count - 1 - i) as u32;
                            assert(bits_of(v, count as nat, order)[i] == nth_bit32(vnew, p));
                            if i < k {
                                assert(bits_of(old_v, count as nat, order)[i] == bit_in_bytes(
                                    bytes0,
                                    c0 + i,
                                ));
                                assert(p != kk);
                                assert(nth_bit32(vnew, p) == nth_bit32(old_v, p));
                            } else {
                                assert(p == kk);
                            }
                        },
                    }
                }
                assert forall|j: u32| j < 32 && #[trigger] nth_bit32(vnew, j) implies (match order {
                    BitOrder::Lsb => j < k + 1,
                    BitOrder::Msb => count - (k + 1) <= j < count,
                }) by {
                    if j != kk {
                        assert(nth_bit32(old_v, j));
                    }
                }
                if count < 32 {
                    let c32: u32 = count as u32;
                    assert(vnew < (1u32 << c32)) by (bit_vector)
                        requires
                            vnew == old_v | (b32 << kk),
                            old_v < (1u32 << c32),
                            b32 <= 1,
                            kk < c32,
                            c32 < 32,
                    ;
                }
            }
            k = k + 1;
        }
        Ok(v)
    }

    /// Discards the rest of a partly-consumed byte so that the cursor stands
    /// at the next byte boundary; a cursor already aligned does not move.
    pub fn align_to_byte(&mut self)
        requires
            old(self).wf(),
        ensures
            final(self).wf(),
            final(self).bytes@ == old(self).bytes@,
            final(self).bit_pos == 0,
            old(self).bit_pos == 0 ==> *final(self) == *old(self),
            old(self).bit_pos != 0 ==> final(self).byte_pos == old(self).byte_pos + 1,
            final(self).cursor() == 8 * ((old(self).cursor() + 7) / 8),
            old(self).cursor() <= final(self).cursor() <= old(self).cursor() + 7,
    {
        proof {
            if self.bit_pos != 0 {
                lemma_div_split(self.cursor() + 7, self.byte_pos + 1, self.bit_pos - 1);
            } else {
                lemma_div_split(self.cursor() + 7, self.byte_pos as int, 7);
            }
        }
        if self.bit_pos != 0 {
            let n: usize = self.bytes.len();
            proof {
                assert(self.byte_pos < n);
            }
            self.bit_pos = 0;
            self.byte_pos = self.byte_pos + 1;
        }
    }

    /// Reads one whole byte from a byte-aligned cursor.
    pub fn read_aligned_byte(&mut self) -> (r: Result<u8, CodecError>)
        requires
            old(self).wf(),
            old(self).bit_pos == 0,
        ensures
            final(self).wf(),
            final(self).bytes@ == old(self).bytes@,
            final(self).bit_pos == 0,
            old(self).byte_pos < old(self).bytes@.len() ==> {
                &&& r == Ok::<u8, CodecError>(old(self).bytes@[old(self).byte_pos as int])
                &&& final(self).byte_pos == old(self).byte_pos + 1
            },
            old(self).byte_pos >= old(self).bytes@.len() ==> {
                &&& r == Err::<u8, CodecError>(
                    (CodecError {
                        kind: CodecErrorKind::TruncatedStream,
                        offset: old(self).byte_pos,
                    }),
                )
                &&& *final(self) == *old(self)
            },
    {
        if self.byte_pos >= self.bytes.len() {
            return Err(
                CodecError { kind: CodecErrorKind::TruncatedStream, offset: self.byte_pos },
            );
        }
        let b: u8 = self.bytes[self.byte_pos];
        self.byte_pos = self.byte_pos + 1;
        Ok(b)
    }
}

/// Bits come back out of a stream in the order they were pushed: bit `i` of
/// the buffer that `to_rfc_bytes` hands out is exactly bit `i` of the
/// stream's view, so a reader that consumes that buffer front to back (see
/// `BitReader::read_bit`) yields the pushed bits in push order.
pub proof fn lemma_stream_reads_back(s: BitStream, i: int)
    requires
        s.wf(),
        0 <= i < s@.len(),
    ensures
        bit_in_bytes(s.bytes@, i) == s@[i],
{
}

} // verus!
