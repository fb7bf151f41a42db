//! LZSS match finding over a bounded search window.
//!
//! The match finder turns a byte buffer into a stream of tokens: literal
//! bytes, and back-references `(length, distance)` into the bytes already
//! produced. Expanding the tokens again is the inverse transform, and the
//! central contract of this module: `expand` of what `tokenize` emits is
//! exactly the input.

use crate::errors::{CodecError, CodecErrorKind};
use vstd::prelude::*;

verus! {

/// One LZSS output unit: a literal byte, or a back-reference of `length`
/// bytes starting `distance` bytes before the current end of the output.
#[derive(Clone, Copy, PartialEq, Eq, Structural, Debug)]
pub enum Token {
    /// A byte copied through unchanged.
    Literal(u8),
    /// A run copied from earlier output; the copy may overlap its source,
    /// re-reading bytes it has itself just produced.
    Match {
        /// How many bytes to copy, 3 to 258 in DEFLATE's alphabet.
        length: u16,
        /// How far back the copy starts, 1 to 32768.
        distance: u16,
    },
}

/// Appends `length` bytes to `out`, each copied from `distance` bytes
/// before the current end; an overlapping copy reads its own output.
pub open spec fn lz_extend(out: Seq<u8>, distance: int, length: nat) -> Seq<u8>
    recommends
        1 <= distance <= out.len(),
    decreases length,
{
    if length == 0 {
        out
    } else {
        lz_extend(out.push(out[out.len() - distance]), distance, (length - 1) as nat)
    }
}

/// The output after applying one token.
pub open spec fn expand_step(out: Seq<u8>, t: Token) -> Seq<u8> {
    match t {
        Token::Literal(b) => out.push(b),
        Token::Match { length, distance } => lz_extend(out, distance as int, length as nat),
    }
}

/// The output after applying every token in order, starting from `out`.
pub open spec fn expand_from(out: Seq<u8>, tokens: Seq<Token>) -> Seq<u8>
    decreases tokens.len(),
{
    if tokens.len() == 0 {
        out
    } else {
        expand_from(expand_step(out, tokens[0]), tokens.skip(1))
    }
}

/// The byte buffer a token sequence stands for.
pub open spec fn expand(tokens: Seq<Token>) -> Seq<u8> {
    expand_from(Seq::<u8>::empty(), tokens)
}

/// How many output bytes one token contributes.
pub open spec fn token_gain(t: Token) -> int {
    match t {
        Token::Literal(_) => 1,
        Token::Match { length, .. } => length as int,
    }
}

/// How many output bytes a token sequence contributes.
pub open spec fn tokens_gain(tokens: Seq<Token>) -> int
    decreases tokens.len(),
{
    if tokens.len() == 0 {
        0
    } else {
        token_gain(tokens[0]) + tokens_gain(tokens.skip(1))
    }
}

/// Every back-reference stays inside the output produced before it: after
/// `produced` bytes, a match's distance must be between 1 and `produced`.
pub open spec fn tokens_valid_from(produced: int, tokens: Seq<Token>) -> bool
    decreases tokens.len(),
{
    if tokens.len() == 0 {
        true
    } else {
        let head_ok = match tokens[0] {
            Token::Literal(_) => true,
            Token::Match { length: _, distance } => 1 <= distance && distance <= produced,
        };
        head_ok && tokens_valid_from(produced + token_gain(tokens[0]), tokens.skip(1))
    }
}

/// A token's ranges fit DEFLATE's alphabets and the given search window.
pub open spec fn token_fits_window(t: Token, window: int) -> bool {
    match t {
        Token::Literal(_) => true,
        Token::Match { length, distance } => {
            &&& 3 <= length <= 258
            &&& 1 <= distance <= window
            &&& distance <= 32768
        },
    }
}

/// `needle` occurs in `hay` starting at position `m`.
pub open spec fn occurs_at(hay: Seq<u8>, needle: Seq<u8>, m: int) -> bool {
    &&& 0 <= m
    &&& m + needle.len() <= hay.len()
    &&& hay.subrange(m, m + needle.len()) == needle
}

/// Copying `length` bytes never changes anything but the tail: the result
/// keeps `out` as a prefix and grows by exactly `length`.
proof fn lemma_lz_extend_len(out: Seq<u8>, distance: int, length: nat)
    ensures
        lz_extend(out, distance, length).len() == out.len() + length,
    decreases length,
{
    if length > 0 {
        lemma_lz_extend_len(
            out.push(out[out.len() - distance]),
            distance,
            (length - 1) as nat,
        );
    }
}

/// One token grows the output by exactly its gain.
proof fn lemma_expand_step_len(out: Seq<u8>, t: Token)
    ensures
        expand_step(out, t).len() == out.len() + token_gain(t),
{
    match t {
        Token::Literal(_) => {},
        Token::Match { length, distance } => {
            lemma_lz_extend_len(out, distance as int, length as nat);
        },
    }
}

/// A token sequence grows the output by exactly its total gain.
pub proof fn lemma_expand_from_len(out: Seq<u8>, tokens: Seq<Token>)
    ensures
        expand_from(out, tokens).len() == out.len() + tokens_gain(tokens),
    decreases tokens.len(),
{
    if tokens.len() > 0 {
        lemma_expand_step_len(out, tokens[0]);
        lemma_expand_from_len(expand_step(out, tokens[0]), tokens.skip(1));
    }
}

/// Appending one token to the sequence applies it after all the others.
proof fn lemma_expand_from_snoc(out: Seq<u8>, tokens: Seq<Token>, t: Token)
    ensures
        expand_from(out, tokens.push(t)) == expand_step(expand_from(out, tokens), t),
    decreases tokens.len(),
{
    if tokens.len() == 0 {
        assert(tokens.push(t)[0] == t);
        assert(tokens.push(t).skip(1) =~= Seq::<Token>::empty());
        assert(expand_from(expand_step(out, t), Seq::<Token>::empty()) == expand_step(out, t));
        assert(expand_from(out, tokens) == out);
    } else {
        assert(tokens.push(t)[0] == tokens[0]);
        assert(tokens.push(t).skip(1) =~= tokens.skip(1).push(t));
        lemma_expand_from_snoc(expand_step(out, tokens[0]), tokens.skip(1), t);
    }
}

/// A valid sequence stays valid when a token valid at its end is appended.
proof fn lemma_valid_snoc(produced: int, tokens: Seq<Token>, t: Token)
    requires
        tokens_valid_from(produced, tokens),
        (match t {
            Token::Literal(_) => true,
            Token::Match { length: _, distance } => 1 <= distance && distance <= produced
                + tokens_gain(tokens),
        }),
    ensures
        tokens_valid_from(produced, tokens.push(t)),
    decreases tokens.len(),
{
    if tokens.len() == 0 {
        assert(tokens.push(t)[0] == t);
        assert(tokens.push(t).skip(1) =~= Seq::<Token>::empty());
        assert(tokens_gain(tokens) == 0);
        assert(tokens_valid_from(produced + token_gain(t), Seq::<Token>::empty()));
    } else {
        assert(tokens.push(t)[0] == tokens[0]);
        assert(tokens.push(t).skip(1) =~= tokens.skip(1).push(t));
        assert(tokens_gain(tokens) == token_gain(tokens[0]) + tokens_gain(tokens.skip(1)));
        lemma_valid_snoc(produced + token_gain(tokens[0]), tokens.skip(1), t);
    }
}

/// A sequence whose token `i` breaks the distance rule is invalid as a whole.
proof fn lemma_invalid_at(produced: int, tokens: Seq<Token>, i: int)
    requires
        0 <= i < tokens.len(),
        tokens_valid_from(produced, tokens.take(i)),
        !(match tokens[i] {
            Token::Literal(_) => true,
            Token::Match { length: _, distance } => 1 <= distance && distance <= produced
                + tokens_gain(tokens.take(i)),
        }),
    ensures
        !tokens_valid_from(produced, tokens),
    decreases i,
{
    if i == 0 {
        assert(tokens.take(0) =~= Seq::<Token>::empty());
    } else {
        assert(tokens.take(i)[0] == tokens[0]);
        assert(tokens.take(i).skip(1) =~= tokens.skip(1).take(i - 1));
        assert(tokens.skip(1)[i - 1] == tokens[i]);
        lemma_invalid_at(produced + token_gain(tokens[0]), tokens.skip(1), i - 1);
    }
}

/// The heart of the round trip: if the `length` bytes at `start` repeat the
/// bytes `distance` earlier, then extending the first `start` bytes by that
/// back-reference reproduces the first `start + length` bytes, overlap
/// included.
proof fn lemma_lz_extend_matches(data: Seq<u8>, start: int, distance: int, length: nat)
    requires
        1 <= distance <= start,
        start + length <= data.len(),
        forall|j: int| 0 <= j < length ==> #[trigger] data[start + j] == data[start - distance + j],
    ensures
        lz_extend(data.take(start), distance, length) == data.take(start + length),
    decreases length,
{
    if length > 0 {
        let out = data.take(start);
        assert(out[start - distance] == data[start - distance]);
        assert(data[start + 0] == data[start - distance + 0]);
        assert(data[start] == data[start - distance]);
        assert(out.push(data[start]) =~= data.take(start + 1));
        assert forall|j: int|
            0 <= j < length - 1 implies #[trigger] data[start + 1 + j] == data[start + 1 - distance
            + j] by {
            assert(data[start + (j + 1)] == data[start - distance + (j + 1)]);
        }
        lemma_lz_extend_matches(data, start + 1, distance, (length - 1) as nat);
    }
}

/// The effective search window: the configured size, capped at the 32768
/// bytes DEFLATE's distance alphabet can address.
pub open spec fn effective_window(buffer_size: int) -> int {
    if buffer_size <= 32768 {
        buffer_size
    } else {
        32768
    }
}

/// A candidate match for position `p` of `data` under window `w`: the
/// `l` bytes at `p` reappear starting at `m`, which lies before `p` and
/// no further back than the window allows.
pub open spec fn match_at(data: Seq<u8>, w: int, p: int, m: int, l: int) -> bool {
    &&& 0 <= l
    &&& p + l <= data.len()
    &&& (if p > w {
        p - w
    } else {
        0
    }) <= m
    &&& m < p
    &&& forall|j: int| 0 <= j < l ==> #[trigger] data[m + j] == data[p + j]
}

/// The greedy selection rule at token `i` of a stream for `data`: a
/// literal carries the byte at its position and stands only where no
/// three-byte match exists; a match is maximal — it can grow no further
/// unless it already spans 258 bytes or reaches the end of the data — and
/// copies from the leftmost (earliest) occurrence of its bytes.
pub open spec fn token_choice_ok(data: Seq<u8>, w: int, tokens: Seq<Token>, i: int) -> bool {
    let p = tokens_gain(tokens.take(i));
    match tokens[i] {
        Token::Literal(b) => {
            &&& 0 <= p < data.len()
            &&& b == data[p]
            &&& !(exists|m: int| #[trigger] match_at(data, w, p, m, 3))
        },
        Token::Match { length, distance } => {
            &&& match_at(data, w, p, p - distance, length as int)
            &&& (forall|m: int| m < p - distance ==> !match_at(data, w, p, m, length as int))
            &&& (length == 258 || p + length == data.len() || !(exists|m: int|
                #[trigger] match_at(data, w, p, m, (length + 1) as int)))
        },
    }
}

/// A match stays a match when shortened.
proof fn lemma_match_prefix(data: Seq<u8>, w: int, p: int, m: int, l: int, l2: int)
    requires
        match_at(data, w, p, m, l),
        0 <= l2 <= l,
    ensures
        match_at(data, w, p, m, l2),
{
}

/// A data-level match inside the window is an occurrence of the candidate
/// inside the searched region.
proof fn lemma_match_to_occurrence(data: Seq<u8>, w: int, s: int, m: int, l: int, w0: int)
    requires
        match_at(data, w, s, m, l),
        l >= 1,
        w0 == (if s > w {
            s - w
        } else {
            0
        }),
    ensures
        occurs_at(data.subrange(w0, s + l - 1), data.subrange(s, s + l), m - w0),
{
    let region = data.subrange(w0, s + l - 1);
    let cand = data.subrange(s, s + l);
    assert(region.subrange(m - w0, m - w0 + l) =~= cand) by {
        assert forall|j: int|
            0 <= j < l implies region.subrange(m - w0, m - w0 + l)[j] == cand[j] by {
            assert(region.subrange(m - w0, m - w0 + l)[j] == region[m - w0 + j]);
            assert(region[m - w0 + j] == data[m + j]);
            assert(data[m + j] == data[s + j]);
        }
    }
}

/// The windowed LZSS match finder: the data to scan and the size of the
/// backwards search window, 32768 by default as RFC 1951 fixes it.
pub struct LempelZiv {
    /// The bytes to tokenize.
    pub data: Vec<u8>,
    /// How far back a match may reach.
    pub buffer_size: usize,
}

impl LempelZiv {
    /// Takes the data to compress and uses the default window of 32768
    /// bytes that RFC 1951 fixes.
    pub fn new(data: Vec<u8>) -> (r: Self)
        ensures
            r.data@ == data@,
            r.buffer_size == 32768,
    {
        LempelZiv { data, buffer_size: 32768 }
    }

    /// Like `new`, but with a caller-chosen search window.
    pub fn with_buf_size(data: Vec<u8>, buffer_size: usize) -> (r: Self)
        ensures
            r.data@ == data@,
            r.buffer_size == buffer_size,
    {
        LempelZiv { data, buffer_size }
    }

    /// Finds the leftmost occurrence of `check_for` inside `check_from`,
    /// returning its index, or -1 when it does not occur.
    pub fn in_array(&self, check_for: &[u8], check_from: &[u8]) -> (r: isize)
        requires
            check_from@.len() <= isize::MAX,
        ensures
            r >= 0 ==> {
                &&& occurs_at(check_from@, check_for@, r as int)
                &&& forall|m: int| 0 <= m < r ==> !occurs_at(check_from@, check_for@, m)
            },
            r < 0 ==> {
                &&& r == -1
                &&& forall|m: int| !occurs_at(check_from@, check_for@, m)
            },
    {
        let l: usize = check_for.len();
        let n: usize = check_from.len();
        if l > n {
            return -1;
        }
        let mut m: usize = 0;
        while m <= n - l
            invariant
                l <= n,
                n <= isize::MAX,
                n == check_from@.len(),
                l == check_for@.len(),
                m <= n - l + 1,
                forall|m2: int| 0 <= m2 < m ==> !occurs_at(check_from@, check_for@, m2),
            decreases n - l + 1 - m,
        {
            let mut j: usize = 0;
            while j < l && *vstd::slice::slice_index_get(check_from, m + j)
                == *vstd::slice::slice_index_get(check_for, j)
                invariant
                    l <= n,
                    n == check_from@.len(),
                    l == check_for@.len(),
                    m <= n - l,
                    j <= l,
                    forall|j2: int| 0 <= j2 < j ==> check_from@[m + j2] == check_for@[j2],
                decreases l - j,
            {
                j = j + 1;
            }
            if j == l {
                proof {
                    assert(check_from@.subrange(m as int, m + l) =~= check_for@);
                    assert(m <= isize::MAX);
                }
                let r: isize = m as isize;
                proof {
                    assert(r == m as int);
                }
                return r;
            }
            proof {
                assert(!occurs_at(check_from@, check_for@, m as int)) by {
                    if occurs_at(check_from@, check_for@, m as int) {
                        assert(check_from@.subrange(m as int, m + l)[j as int]
                            == check_for@[j as int]);
                    }
                }
            }
            m = m + 1;
        }
        proof {
            assert forall|m2: int| !occurs_at(check_from@, check_for@, m2) by {
                if m2 >= m {
                    assert(m2 + l > n);
                }
            }
        }
        -1
    }

    /// Scans the data left to right, growing a candidate run at each
    /// position for as long as it reappears earlier inside the window, and
    /// emits a back-reference for runs of three bytes or more, literals
    /// otherwise. Each match is greedily maximal at its position and copies
    /// from the leftmost (earliest) occurrence of its bytes; expanding the
    /// emitted tokens yields the data back exactly.
    pub fn tokenize(&self) -> (r: Vec<Token>)
        requires
            self.data@.len() <= isize::MAX,
        ensures
            expand(r@) == self.data@,
            tokens_valid_from(0, r@),
            forall|i: int|
                0 <= i < r@.len() ==> token_fits_window(
                    r@[i],
                    if self.buffer_size <= 32768 {
                        self.buffer_size as int
                    } else {
                        32768
                    },
                ),
            forall|i: int|
                0 <= i < r@.len() ==> #[trigger] token_choice_ok(
                    self.data@,
                    effective_window(self.buffer_size as int),
                    r@,
                    i,
                ),
    {
        let n: usize = self.data.len();
        let w: usize = if self.buffer_size < 32768 {
            self.buffer_size
        } else {
            32768
        };
        let ghost wspec: int = if self.buffer_size <= 32768 {
            self.buffer_size as int
        } else {
            32768
        };
        let mut tokens: Vec<Token> = Vec::new();
        let mut s: usize = 0;
        proof {
            assert(expand(tokens@) =~= self.data@.take(0));
        }
        while s < n
            invariant
                n == self.data@.len(),
                n <= isize::MAX,
                w <= 32768,
                w as int == wspec,
                s <= n,
                expand(tokens@) == self.data@.take(s as int),
                tokens_valid_from(0, tokens@),
                forall|i: int| 0 <= i < tokens@.len() ==> token_fits_window(tokens@[i], wspec),
                forall|i: int|
                    0 <= i < tokens@.len() ==> #[trigger] token_choice_ok(
                        self.data@,
                        wspec,
                        tokens@,
                        i,
                    ),
            decreases n - s,
        {
            let room: usize = n - s;
            let maxl: usize = if room < 258 {
                room
            } else {
                258
            };
            let w0: usize = if s > w {
                s - w
            } else {
                0
            };
            let mut best_l: usize = 0;
            let mut best_m: usize = 0;
            let mut l: usize = 1;
            while l <= maxl
                invariant
                    n == self.data@.len(),
                    n <= isize::MAX,
                    s < n,
                    1 <= maxl <= n - s,
                    maxl <= 258,
                    w0 <= s,
                    s - w0 <= w,
                    w as int == wspec,
                    w0 as int == (if s as int > wspec {
                        s - wspec
                    } else {
                        0
                    }),
                    1 <= l,
                    best_l == 0 ==> best_m == 0,
                    l <= maxl ==> l == best_l + 1,
                    best_l != 0 ==> {
                        &&& 1 <= best_l <= maxl
                        &&& best_m < s
                        &&& w0 <= best_m
                        &&& s - best_m <= w
                        &&& forall|j: int|
                            0 <= j < best_l ==> #[trigger] self.data@[best_m + j] == self.data@[s
                                + j]
                        &&& forall|m: int|
                            m < best_m ==> !(#[trigger] match_at(
                                self.data@,
                                wspec,
                                s as int,
                                m,
                                best_l as int,
                            ))
                    },
                    l > maxl ==> (best_l == maxl || (forall|m: int|
                        !(#[trigger] match_at(self.data@, wspec, s as int, m, best_l + 1)))),
                decreases n + 1 - l,
            {
                let cand: &[u8] = vstd::slice::slice_subrange(self.data.as_slice(), s, s + l);
                let region: &[u8] = vstd::slice::slice_subrange(
                    self.data.as_slice(),
                    w0,
                    s + l - 1,
                );
                let found: isize = self.in_array(cand, region);
                if found >= 0 {
                    let fm: usize = found as usize;
                    proof {
                        assert(occurs_at(region@, cand@, fm as int));
                        assert(fm + l <= region@.len());
                        assert forall|j: int|
                            0 <= j < l implies #[trigger] self.data@[w0 + fm + j] == self.data@[s
                            + j] by {
                            assert(region@.subrange(fm as int, fm + l)[j] == cand@[j]);
                            assert(region@[fm + j] == self.data@[w0 + fm + j]);
                            assert(cand@[j] == self.data@[s + j]);
                        }
                        assert forall|m: int|
                            m < w0 + fm implies !(#[trigger] match_at(
                            self.data@,
                            wspec,
                            s as int,
                            m,
                            l as int,
                        )) by {
                            if match_at(self.data@, wspec, s as int, m, l as int) {
                                lemma_match_to_occurrence(
                                    self.data@,
                                    wspec,
                                    s as int,
                                    m,
                                    l as int,
                                    w0 as int,
                                );
                                assert(!occurs_at(region@, cand@, m - w0));
                            }
                        }
                    }
                    best_l = l;
                    best_m = w0 + fm;
                    l = l + 1;
                } else {
                    proof {
                        assert forall|m: int|
                            !(#[trigger] match_at(self.data@, wspec, s as int, m, l as int)) by {
                            if match_at(self.data@, wspec, s as int, m, l as int) {
                                lemma_match_to_occurrence(
                                    self.data@,
                                    wspec,
                                    s as int,
                                    m,
                                    l as int,
                                    w0 as int,
                                );
                                assert(!occurs_at(region@, cand@, m - w0));
                            }
                        }
                    }
                    l = n + 1;
                }
            }
            let ghost toks_before = tokens@;
            if best_l >= 3 {
                let d: usize = s - best_m;
                let t = Token::Match { length: best_l as u16, distance: d as u16 };
                proof {
                    lemma_expand_from_snoc(Seq::<u8>::empty(), tokens@, t);
                    lemma_expand_from_len(Seq::<u8>::empty(), tokens@);
                    lemma_lz_extend_matches(self.data@, s as int, d as int, best_l as nat);
                    lemma_valid_snoc(0, tokens@, t);
                }
                tokens.push(t);
                proof {
                    assert(tokens_gain(toks_before) == s as int);
                    assert forall|i: int|
                        0 <= i < tokens@.len() implies #[trigger] token_choice_ok(
                        self.data@,
                        wspec,
                        tokens@,
                        i,
                    ) by {
                        assert(tokens@.take(i) =~= toks_before.take(i));
                        if i < toks_before.len() {
                            assert(tokens@[i] == toks_before[i]);
                            assert(token_choice_ok(self.data@, wspec, toks_before, i));
                        } else {
                            assert(tokens@.take(i) =~= toks_before);
                            assert(tokens@[i] == t);
                            assert(match_at(
                                self.data@,
                                wspec,
                                s as int,
                                s - d,
                                best_l as int,
                            ));
                            if best_l == maxl {
                                assert(maxl == 258 || s + best_l == n);
                            }
                        }
                    }
                }
                s = s + best_l;
            } else {
                let b: u8 = self.data[s];
                let t = Token::Literal(b);
                proof {
                    lemma_expand_from_snoc(Seq::<u8>::empty(), tokens@, t);
                    lemma_expand_from_len(Seq::<u8>::empty(), tokens@);
                    lemma_valid_snoc(0, tokens@, t);
                    assert(self.data@.take(s as int).push(b) =~= self.data@.take(s + 1));
                }
                tokens.push(t);
                proof {
                    assert(tokens_gain(toks_before) == s as int);
                    assert forall|m: int|
                        !(#[trigger] match_at(self.data@, wspec, s as int, m, 3)) by {
                        if match_at(self.data@, wspec, s as int, m, 3) {
                            if best_l == maxl {
                                assert(s + 3 <= n);
                                assert(maxl == n - s);
                                assert(false);
                            } else {
                                lemma_match_prefix(
                                    self.data@,
                                    wspec,
                                    s as int,
                                    m,
                                    3,
                                    best_l + 1,
                                );
                                assert(false);
                            }
                        }
                    }
                    assert forall|i: int|
                        0 <= i < tokens@.len() implies #[trigger] token_choice_ok(
                        self.data@,
                        wspec,
                        tokens@,
                        i,
                    ) by {
                        assert(tokens@.take(i) =~= toks_before.take(i));
                        if i < toks_before.len() {
                            assert(tokens@[i] == toks_before[i]);
                            assert(token_choice_ok(self.data@, wspec, toks_before, i));
                        } else {
                            assert(tokens@.take(i) =~= toks_before);
                            assert(tokens@[i] == t);
                        }
                    }
                }
                s = s + 1;
            }
        }
        proof {
            assert(self.data@.take(n as int) =~= self.data@);
        }
        tokens
    }
}

/// Replays a token stream into the byte buffer it stands for. Succeeds
/// exactly on streams whose back-references all stay inside the output
/// already produced; the first stray reference stops the expansion with
/// `WindowViolation`.
pub fn expand_tokens(tokens: &Vec<Token>) -> (r: Result<Vec<u8>, CodecError>)
    ensures
        r matches Ok(out) ==> {
            &&& out@ == expand(tokens@)
            &&& tokens_valid_from(0, tokens@)
        },
        r matches Err(e) ==> {
            &&& !tokens_valid_from(0, tokens@)
            &&& e.kind == CodecErrorKind::WindowViolation
        },
{
    let mut out: Vec<u8> = Vec::new();
    let mut i: usize = 0;
    proof {
        assert(tokens@.take(0) =~= Seq::<Token>::empty());
    }
    while i < tokens.len()
        invariant
            i <= tokens@.len(),
            out@ == expand(tokens@.take(i as int)),
            tokens_valid_from(0, tokens@.take(i as int)),
        decreases tokens@.len() - i,
    {
        let t: Token = tokens[i];
        proof {
            assert(tokens@.take(i + 1) =~= tokens@.take(i as int).push(t));
            lemma_expand_from_snoc(Seq::<u8>::empty(), tokens@.take(i as int), t);
            lemma_expand_from_len(Seq::<u8>::empty(), tokens@.take(i as int));
        }
        match t {
            Token::Literal(b) => {
                out.push(b);
                proof {
                    lemma_valid_snoc(0, tokens@.take(i as int), t);
                }
            },
            Token::Match { length, distance } => {
                let d: usize = distance as usize;
                if d == 0 || d > out.len() {
                    proof {
                        lemma_invalid_at(0, tokens@, i as int);
                    }
                    return Err(
                        CodecError { kind: CodecErrorKind::WindowViolation, offset: out.len() },
                    );
                }
                proof {
                    lemma_valid_snoc(0, tokens@.take(i as int), t);
                }
                let ghost out0 = out@;
                let mut j: u16 = 0;
                while j < length
                    invariant
                        j <= length,
                        1 <= d <= out0.len(),
                        out@.len() == out0.len() + j,
                        lz_extend(out0, d as int, length as nat) == lz_extend(
                            out@,
                            d as int,
                            (length - j) as nat,
                        ),
                    decreases length - j,
                {
                    let b: u8 = out[out.len() - d];
                    out.push(b);
                    j = j + 1;
                }
            },
        }
        i = i + 1;
    }
    proof {
        assert(tokens@.take(tokens@.len() as int) =~= tokens@);
    }
    Ok(out)
}

/// The length-code table of RFC 1951 section 3.2.5: for each symbol 257 to
/// 285, its extra-bit count and the inclusive range of lengths it covers.
pub open spec fn spec_length_info(symbol: int) -> (int, int, int) {
    if symbol == 257 { (0, 3, 3) }
    else if symbol == 258 { (0, 4, 4) }
    else if symbol == 259 { (0, 5, 5) }
    else if symbol == 260 { (0, 6, 6) }
    else if symbol == 261 { (0, 7, 7) }
    else if symbol == 262 { (0, 8, 8) }
    else if symbol == 263 { (0, 9, 9) }
    else if symbol == 264 { (0, 10, 10) }
    else if symbol == 265 { (1, 11, 12) }
    else if symbol == 266 { (1, 13, 14) }
    else if symbol == 267 { (1, 15, 16) }
    else if symbol == 268 { (1, 17, 18) }
    else if symbol == 269 { (2, 19, 22) }
    else if symbol == 270 { (2, 23, 26) }
    else if symbol == 271 { (2, 27, 30) }
    else if symbol == 272 { (2, 31, 34) }
    else if symbol == 273 { (3, 35, 42) }
    else if symbol == 274 { (3, 43, 50) }
    else if symbol == 275 { (3, 51, 58) }
    else if symbol == 276 { (3, 59, 66) }
    else if symbol == 277 { (4, 67, 82) }
    else if symbol == 278 { (4, 83, 98) }
    else if symbol == 279 { (4, 99, 114) }
    else if symbol == 280 { (4, 115, 130) }
    else if symbol == 281 { (5, 131, 162) }
    else if symbol == 282 { (5, 163, 194) }
    else if symbol == 283 { (5, 195, 226) }
    else if symbol == 284 { (5, 227, 257) }
    else if symbol == 285 { (0, 258, 258) }
    else { (0, 0, 0) }
}

/// The distance-code table of RFC 1951 section 3.2.5: for each symbol 0 to
/// 29, its extra-bit count and the inclusive range of distances it covers.
pub open spec fn spec_distance_info(symbol: int) -> (int, int, int) {
    if symbol == 0 { (0, 1, 1) }
    else if symbol == 1 { (0, 2, 2) }
    else if symbol == 2 { (0, 3, 3) }
    else if symbol == 3 { (0, 4, 4) }
    else if symbol == 4 { (1, 5, 6) }
    else if symbol == 5 { (1, 7, 8) }
    else if symbol == 6 { (2, 9, 12) }
    else if symbol == 7 { (2, 13, 16) }
    else if symbol == 8 { (3, 17, 24) }
    else if symbol == 9 { (3, 25, 32) }
    else if symbol == 10 { (4, 33, 48) }
    else if symbol == 11 { (4, 49, 64) }
    else if symbol == 12 { (5, 65, 96) }
    else if symbol == 13 { (5, 97, 128) }
    else if symbol == 14 { (6, 129, 192) }
    else if symbol == 15 { (6, 193, 256) }
    else if symbol == 16 { (7, 257, 384) }
    else if symbol == 17 { (7, 385, 512) }
    else if symbol == 18 { (8, 513, 768) }
    else if symbol == 19 { (8, 769, 1024) }
    else if symbol == 20 { (9, 1025, 1536) }
    else if symbol == 21 { (9, 1537, 2048) }
    else if symbol == 22 { (10, 2049, 3072) }
    else if symbol == 23 { (10, 3073, 4096) }
    else if symbol == 24 { (11, 4097, 6144) }
    else if symbol == 25 { (11, 6145, 8192) }
    else if symbol == 26 { (12, 8193, 12288) }
    else if symbol == 27 { (12, 12289, 16384) }
    else if symbol == 28 { (13, 16385, 24576) }
    else if symbol == 29 { (13, 24577, 32768) }
    else { (0, 0, 0) }
}

/// The largest value `bits` extra bits can carry.
pub open spec fn extra_cap(bits: int) -> int {
    if bits == 0 { 0 }
    else if bits == 1 { 1 }
    else if bits == 2 { 3 }
    else if bits == 3 { 7 }
    else if bits == 4 { 15 }
    else if bits == 5 { 31 }
    else if bits == 6 { 63 }
    else if bits == 7 { 127 }
    else if bits == 8 { 255 }
    else if bits == 9 { 511 }
    else if bits == 10 { 1023 }
    else if bits == 11 { 2047 }
    else if bits == 12 { 4095 }
    else if bits == 13 { 8191 }
    else { 0 }
}

/// Looks a length symbol up in the RFC 1951 table: extra-bit count, range
/// start and range end.
pub fn length_code_info(symbol: u16) -> (r: (u8, u16, u16))
    requires
        257 <= symbol <= 285,
    ensures
        (r.0 as int, r.1 as int, r.2 as int) == spec_length_info(symbol as int),
{
    match symbol {
        257 => (0, 3, 3),
        258 => (0, 4, 4),
        259 => (0, 5, 5),
        260 => (0, 6, 6),
        261 => (0, 7, 7),
        262 => (0, 8, 8),
        263 => (0, 9, 9),
        264 => (0, 10, 10),
        265 => (1, 11, 12),
        266 => (1, 13, 14),
        267 => (1, 15, 16),
        268 => (1, 17, 18),
        269 => (2, 19, 22),
        270 => (2, 23, 26),
        271 => (2, 27, 30),
        272 => (2, 31, 34),
        273 => (3, 35, 42),
        274 => (3, 43, 50),
        275 => (3, 51, 58),
        276 => (3, 59, 66),
        277 => (4, 67, 82),
        278 => (4, 83, 98),
        279 => (4, 99, 114),
        280 => (4, 115, 130),
        281 => (5, 131, 162),
        282 => (5, 163, 194),
        283 => (5, 195, 226),
        284 => (5, 227, 257),
        _ => (0, 258, 258),
    }
}

/// Looks a distance symbol up in the RFC 1951 table: extra-bit count, range
/// start and range end.
pub fn distance_code_info(symbol: u16) -> (r: (u8, u16, u16))
    requires
        symbol <= 29,
    ensures
        (r.0 as int, r.1 as int, r.2 as int) == spec_distance_info(symbol as int),
{
    match symbol {
        0 => (0, 1, 1),
        1 => (0, 2, 2),
        2 => (0, 3, 3),
        3 => (0, 4, 4),
        4 => (1, 5, 6),
        5 => (1, 7, 8),
        6 => (2, 9, 12),
        7 => (2, 13, 16),
        8 => (3, 17, 24),
        9 => (3, 25, 32),
        10 => (4, 33, 48),
        11 => (4, 49, 64),
        12 => (5, 65, 96),
        13 => (5, 97, 128),
        14 => (6, 129, 192),
        15 => (6, 193, 256),
        16 => (7, 257, 384),
        17 => (7, 385, 512),
        18 => (8, 513, 768),
        19 => (8, 769, 1024),
        20 => (9, 1025, 1536),
        21 => (9, 1537, 2048),
        22 => (10, 2049, 3072),
        23 => (10, 3073, 4096),
        24 => (11, 4097, 6144),
        25 => (11, 6145, 8192),
        26 => (12, 8193, 12288),
        27 => (12, 12289, 16384),
        28 => (13, 16385, 24576),
        _ => (13, 24577, 32768),
    }
}

/// The length symbol covering `length`, with its extra-bit count and the
/// extra-bit value that selects `length` inside the symbol's range.
pub fn length_to_symbol(length: u16) -> (r: (u16, u8, u16))
    requires
        3 <= length <= 258,
    ensures
        257 <= r.0 <= 285,
        r.1 as int == spec_length_info(r.0 as int).0,
        spec_length_info(r.0 as int).1 <= length <= spec_length_info(r.0 as int).2,
        r.2 as int == length - spec_length_info(r.0 as int).1,
        r.2 as int <= extra_cap(r.1 as int),
{
    if length == 258 { (285, 0, 0) }
    else if length >= 227 { (284, 5, length - 227) }
    else if length >= 195 { (283, 5, length - 195) }
    else if length >= 163 { (282, 5, length - 163) }
    else if length >= 131 { (281, 5, length - 131) }
    else if length >= 115 { (280, 4, length - 115) }
    else if length >= 99 { (279, 4, length - 99) }
    else if length >= 83 { (278, 4, length - 83) }
    else if length >= 67 { (277, 4, length - 67) }
    else if length >= 59 { (276, 3, length - 59) }
    else if length >= 51 { (275, 3, length - 51) }
    else if length >= 43 { (274, 3, length - 43) }
    else if length >= 35 { (273, 3, length - 35) }
    else if length >= 31 { (272, 2, length - 31) }
    else if length >= 27 { (271, 2, length - 27) }
    else if length >= 23 { (270, 2, length - 23) }
    else if length >= 19 { (269, 2, length - 19) }
    else if length >= 17 { (268, 1, length - 17) }
    else if length >= 15 { (267, 1, length - 15) }
    else if length >= 13 { (266, 1, length - 13) }
    else if length >= 11 { (265, 1, length - 11) }
    else { (length + 254, 0, 0) }
}

/// The distance symbol covering `distance`, with its extra-bit count and
/// the extra-bit value that selects `distance` inside the symbol's range.
pub fn distance_to_symbol(distance: u16) -> (r: (u16, u8, u16))
    requires
        1 <= distance <= 32768,
    ensures
        r.0 <= 29,
        r.1 as int == spec_distance_info(r.0 as int).0,
        spec_distance_info(r.0 as int).1 <= distance <= spec_distance_info(r.0 as int).2,
        r.2 as int == distance - spec_distance_info(r.0 as int).1,
        r.2 as int <= extra_cap(r.1 as int),
{
    if distance >= 24577 { (29, 13, distance - 24577) }
    else if distance >= 16385 { (28, 13, distance - 16385) }
    else if distance >= 12289 { (27, 12, distance - 12289) }
    else if distance >= 8193 { (26, 12, distance - 8193) }
    else if distance >= 6145 { (25, 11, distance - 6145) }
    else if distance >= 4097 { (24, 11, distance - 4097) }
    else if distance >= 3073 { (23, 10, distance - 3073) }
    else if distance >= 2049 { (22, 10, distance - 2049) }
    else if distance >= 1537 { (21, 9, distance - 1537) }
    else if distance >= 1025 { (20, 9, distance - 1025) }
    else if distance >= 769 { (19, 8, distance - 769) }
    else if distance >= 513 { (18, 8, distance - 513) }
    else if distance >= 385 { (17, 7, distance - 385) }
    else if distance >= 257 { (16, 7, distance - 257) }
    else if distance >= 193 { (15, 6, distance - 193) }
    else if distance >= 129 { (14, 6, distance - 129) }
    else if distance >= 97 { (13, 5, distance - 97) }
    else if distance >= 65 { (12, 5, distance - 65) }
    else if distance >= 49 { (11, 4, distance - 49) }
    else if distance >= 33 { (10, 4, distance - 33) }
    else if distance >= 25 { (9, 3, distance - 25) }
    else if distance >= 17 { (8, 3, distance - 17) }
    else if distance >= 13 { (7, 2, distance - 13) }
    else if distance >= 9 { (6, 2, distance - 9) }
    else if distance >= 7 { (5, 1, distance - 7) }
    else if distance >= 5 { (4, 1, distance - 5) }
    else { (distance - 1, 0, 0) }
}

/// A length symbol plus its extra-bit value names one exact length.
pub fn decode_length(symbol: u16, extra: u16) -> (r: u16)
    requires
        257 <= symbol <= 285,
        extra as int <= extra_cap(spec_length_info(symbol as int).0),
    ensures
        r as int == spec_length_info(symbol as int).1 + extra,
        3 <= r <= 258,
{
    let info: (u8, u16, u16) = length_code_info(symbol);
    info.1 + extra
}

/// A distance symbol plus its extra-bit value names one exact distance.
pub fn decode_distance(symbol: u16, extra: u16) -> (r: u16)
    requires
        symbol <= 29,
        extra as int <= extra_cap(spec_distance_info(symbol as int).0),
    ensures
        r as int == spec_distance_info(symbol as int).1 + extra,
        1 <= r <= 32768,
{
    let info: (u8, u16, u16) = distance_code_info(symbol);
    info.1 + extra
}

/// Law: the length ranges are contiguous — each symbol's range starts right
/// after the previous one's — and together they run exactly from 3 to 258.
pub proof fn lemma_length_table_contiguous(symbol: int)
    requires
        257 <= symbol < 285,
    ensures
        spec_length_info(symbol + 1).1 == spec_length_info(symbol).2 + 1,
        spec_length_info(257).1 == 3,
        spec_length_info(285).2 == 258,
{
}

/// Law: the distance ranges are contiguous and together run exactly from 1
/// to 32768.
pub proof fn lemma_distance_table_contiguous(symbol: int)
    requires
        0 <= symbol < 29,
    ensures
        spec_distance_info(symbol + 1).1 == spec_distance_info(symbol).2 + 1,
        spec_distance_info(0).1 == 1,
        spec_distance_info(29).2 == 32768,
{
}

/// Law: every length symbol's extra bits can address its whole range, so
/// decoding any extra-bit value yields a legal length.
pub proof fn lemma_length_extra_span(symbol: int)
    requires
        257 <= symbol <= 285,
    ensures
        0 <= spec_length_info(symbol).0 <= 5,
        spec_length_info(symbol).2 - spec_length_info(symbol).1 <= extra_cap(
            spec_length_info(symbol).0,
        ),
        spec_length_info(symbol).1 + extra_cap(spec_length_info(symbol).0) <= 258,
{
}

/// Law: every distance symbol's extra bits address exactly its range.
pub proof fn lemma_distance_extra_span(symbol: int)
    requires
        0 <= symbol <= 29,
    ensures
        0 <= spec_distance_info(symbol).0 <= 13,
        spec_distance_info(symbol).2 - spec_distance_info(symbol).1 == extra_cap(
            spec_distance_info(symbol).0,
        ),
{
}

} // verus!
