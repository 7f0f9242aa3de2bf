//! The packed binary form of a dictionary.
//!
//! The sorted word list is front-coded over a bit-level instruction
//! stream. An instruction is a one-bit tag: `0` starts a pop (a 3-bit
//! count of characters to drop from the tail of the current word), `1` a
//! push (a 5-bit letter code, the offset from `'a'`). A word is emitted
//! whenever a pop arrives with characters newly pushed since the last
//! emission; two consecutive pop instructions with count 0 and nothing
//! pending terminate the stream, which is then padded with zero bits to a
//! byte boundary.

use vstd::arithmetic::div_mod::lemma_fundamental_div_mod;
use vstd::arithmetic::power2::{lemma2_to64, lemma_pow2_unfold, pow2};
use vstd::prelude::*;

verus! {

/// The bits of one byte, most significant first.
pub open spec fn byte_bits(b: u8) -> Seq<bool> {
    Seq::new(8, |j: int| (b >> ((7 - j) as u8)) & 1 == 1)
}

/// The bits of a byte string, each byte most significant bit first.
pub open spec fn bits_of_bytes(bs: Seq<u8>) -> Seq<bool> {
    Seq::new(bs.len() * 8, |i: int| byte_bits(bs[i / 8])[i % 8])
}

/// The value of a bit string read as a big-endian number.
pub open spec fn bits_val(bits: Seq<bool>) -> nat
    decreases bits.len(),
{
    if bits.len() == 0 {
        0
    } else {
        2 * bits_val(bits.drop_last()) + (if bits.last() {
            1nat
        } else {
            0nat
        })
    }
}

/// A bit string padded with zero bits to the next byte boundary.
pub open spec fn pad_zeros(bits: Seq<bool>) -> Seq<bool> {
    bits + Seq::new(((8 - bits.len() % 8) % 8) as nat, |i: int| false)
}

/// A byte whose bits, most significant first, are the eight given ones.
fn byte_from_bits(b0: bool, b1: bool, b2: bool, b3: bool, b4: bool, b5: bool, b6: bool, b7: bool)
    -> (v: u8)
    ensures
        byte_bits(v) =~= seq![b0, b1, b2, b3, b4, b5, b6, b7],
{
    let x0: u8 = if b0 { 1 } else { 0 };
    let x1: u8 = if b1 { 1 } else { 0 };
    let x2: u8 = if b2 { 1 } else { 0 };
    let x3: u8 = if b3 { 1 } else { 0 };
    let x4: u8 = if b4 { 1 } else { 0 };
    let x5: u8 = if b5 { 1 } else { 0 };
    let x6: u8 = if b6 { 1 } else { 0 };
    let x7: u8 = if b7 { 1 } else { 0 };
    let v: u8 = (x0 << 7) | (x1 << 6) | (x2 << 5) | (x3 << 4) | (x4 << 3) | (x5 << 2) | (x6 << 1)
        | x7;
    proof {
        assert((x0 <= 1 && x1 <= 1 && x2 <= 1 && x3 <= 1 && x4 <= 1 && x5 <= 1 && x6 <= 1 && x7
            <= 1 && v == (x0 << 7u8) | (x1 << 6u8) | (x2 << 5u8) | (x3 << 4u8) | (x4 << 3u8) | (x5
            << 2u8) | (x6 << 1u8) | x7) ==> ((v >> 7u8) & 1 == x0 && (v >> 6u8) & 1 == x1 && (v
            >> 5u8) & 1 == x2 && (v >> 4u8) & 1 == x3 && (v >> 3u8) & 1 == x4 && (v >> 2u8) & 1
            == x5 && (v >> 1u8) & 1 == x6 && (v >> 0u8) & 1 == x7)) by (bit_vector);
    }
    v
}

/// The bytes whose bits are the given ones, padded with zero bits.
fn pack_bits(bits: &Vec<bool>) -> (r: Vec<u8>)
    ensures
        bits_of_bytes(r@) == pad_zeros(bits@),
{
    let ghost padded = pad_zeros(bits@);
    let n = bits.len();
    let nbytes = n / 8 + (if n % 8 == 0 { 0 } else { 1 });
    proof {
        lemma_fundamental_div_mod(n as int, 8);
        assert(padded.len() == nbytes * 8);
    }
    let mut r: Vec<u8> = Vec::new();
    let mut i: usize = 0;
    while i < nbytes
        invariant
            n == bits@.len(),
            nbytes == n / 8 + (if n % 8 == 0 { 0int } else { 1int }),
            padded == pad_zeros(bits@),
            padded.len() == nbytes * 8,
            i <= nbytes,
            r@.len() == i,
            forall|j: int| 0 <= j < 8 * i ==> #[trigger] bits_of_bytes(r@)[j] == padded[j],
        decreases nbytes - i,
    {
        proof {
            lemma_fundamental_div_mod(n as int, 8);
            assert(8 * i < n);
        }
        let base = 8 * i;
        let b0 = get_bit(bits, base, 0);
        let b1 = get_bit(bits, base, 1);
        let b2 = get_bit(bits, base, 2);
        let b3 = get_bit(bits, base, 3);
        let b4 = get_bit(bits, base, 4);
        let b5 = get_bit(bits, base, 5);
        let b6 = get_bit(bits, base, 6);
        let b7 = get_bit(bits, base, 7);
        let ghost prev = r@;
        let v = byte_from_bits(b0, b1, b2, b3, b4, b5, b6, b7);
        r.push(v);
        proof {
            assert forall|j: int| 0 <= j < 8 * (i + 1) implies #[trigger] bits_of_bytes(r@)[j]
                == padded[j] by {
                assert(bits_of_bytes(r@)[j] == byte_bits(r@[j / 8])[j % 8]);
                if j < 8 * i {
                    assert(r@[j / 8] == prev[j / 8]);
                    assert(bits_of_bytes(prev)[j] == byte_bits(prev[j / 8])[j % 8]);
                } else {
                    assert(j / 8 == i as int && j % 8 == j - 8 * i) by {
                        lemma_fundamental_div_mod(j, 8);
                        vstd::arithmetic::div_mod::lemma_fundamental_div_mod_converse(
                            j, 8, i as int, j - 8 * i);
                    }
                    assert(r@[i as int] == v);
                }
            }
        }
        i += 1;
    }
    proof {
        assert(bits_of_bytes(r@) =~= padded);
    }
    r
}

/// The bit at position `base + off` of the padded form of a bit string:
/// the stored bit inside it, a zero pad bit beyond its end.
fn get_bit(bits: &Vec<bool>, base: usize, off: usize) -> (r: bool)
    requires
        base < bits@.len(),
    ensures
        base + off < bits@.len() ==> r == bits@[base + off],
        base + off >= bits@.len() ==> r == false,
{
    if off < bits.len() - base {
        bits[base + off]
    } else {
        false
    }
}

/// The bits of a byte string, unpacked for reading.
fn unpack_bits(bytes: &[u8]) -> (r: Vec<bool>)
    ensures
        r@ == bits_of_bytes(bytes@),
{
    let n = bytes.len();
    let mut r: Vec<bool> = Vec::new();
    let mut i: usize = 0;
    while i < n
        invariant
            n == bytes@.len(),
            i <= n,
            r@.len() == 8 * i,
            forall|j: int| 0 <= j < 8 * i ==> #[trigger] r@[j] == bits_of_bytes(bytes@)[j],
        decreases n - i,
    {
        let b = bytes[i];
        let mut k: usize = 0;
        while k < 8
            invariant
                n == bytes@.len(),
                i < n,
                b == bytes@[i as int],
                k <= 8,
                r@.len() == 8 * i + k,
                forall|j: int| 0 <= j < 8 * i ==> #[trigger] r@[j] == bits_of_bytes(bytes@)[j],
                forall|j: int| 0 <= j < k ==> #[trigger] r@[8 * i + j] == byte_bits(b)[j],
            decreases 8 - k,
        {
            r.push((b >> ((7 - k) as u8)) & 1 == 1);
            k += 1;
        }
        proof {
            assert forall|j: int| 0 <= j < 8 * (i + 1) implies #[trigger] r@[j] == bits_of_bytes(
                bytes@,
            )[j] by {
                if j >= 8 * i {
                    assert(j / 8 == i as int && j % 8 == j - 8 * i) by {
                        vstd::arithmetic::div_mod::lemma_fundamental_div_mod_converse(
                            j, 8, i as int, j - 8 * i);
                    }
                    assert(r@[8 * i + (j - 8 * i)] == byte_bits(b)[j - 8 * i]);
                }
            }
        }
        i += 1;
    }
    proof {
        assert(r@ =~= bits_of_bytes(bytes@));
    }
    r
}

/// The buffer with its last `n` characters dropped (all of them when it
/// holds fewer).
pub open spec fn pop_n(buf: Seq<char>, n: nat) -> Seq<char> {
    if n <= buf.len() {
        buf.take(buf.len() - n)
    } else {
        Seq::empty()
    }
}

/// The letter for a 5-bit push code: its offset from `'a'`.
pub open spec fn code_char(v: nat) -> char {
    ((97 + v) as u8) as char
}

/// What decoding a bit stream emits, from a given buffer and pending
/// flag: the sequence of completed words, or nothing when the stream ends
/// before it terminates.
///
/// A pop instruction first emits the buffer when characters are pending,
/// then drops its count of characters from the buffer's tail; a count of
/// zero with nothing pending terminates the stream. A push instruction
/// appends its letter to the buffer.
pub open spec fn spec_decode(bits: Seq<bool>, buf: Seq<char>, pending: bool) -> Option<
    Seq<Seq<char>>,
>
    decreases bits.len(),
{
    if bits.len() < 1 {
        None
    } else if !bits[0] {
        if bits.len() < 4 {
            None
        } else {
            let n = bits_val(bits.subrange(1, 4));
            if n == 0 && !pending {
                Some(Seq::empty())
            } else {
                let rest = spec_decode(bits.skip(4), pop_n(buf, n), false);
                if pending && buf.len() > 0 {
                    match rest {
                        Option::None => None,
                        Option::Some(ws) => Some(seq![buf] + ws),
                    }
                } else {
                    rest
                }
            }
        }
    } else {
        if bits.len() < 6 {
            None
        } else {
            let c = code_char(bits_val(bits.subrange(1, 6)));
            spec_decode(bits.skip(6), buf.push(c), true)
        }
    }
}

/// Strict lexicographic order on character strings, by code point.
pub open spec fn lex_lt(a: Seq<char>, b: Seq<char>) -> bool
    decreases a.len(),
{
    if b.len() == 0 {
        false
    } else if a.len() == 0 {
        true
    } else if a[0] != b[0] {
        a[0] < b[0]
    } else {
        lex_lt(a.skip(1), b.skip(1))
    }
}

pub proof fn lemma_lex_irrefl(a: Seq<char>)
    ensures
        !lex_lt(a, a),
    decreases a.len(),
{
    if a.len() > 0 {
        lemma_lex_irrefl(a.skip(1));
    }
}

pub proof fn lemma_lex_total(a: Seq<char>, b: Seq<char>)
    ensures
        a == b || lex_lt(a, b) || lex_lt(b, a),
    decreases a.len(),
{
    if a.len() == 0 && b.len() == 0 {
        assert(a =~= b);
    } else if a.len() > 0 && b.len() > 0 && a[0] == b[0] {
        lemma_lex_total(a.skip(1), b.skip(1));
        if a.skip(1) == b.skip(1) {
            assert(a =~= b) by {
                assert(a.skip(1).len() == b.skip(1).len());
                assert(a.len() == b.len());
                assert forall|i: int| 0 <= i < a.len() implies a[i] == b[i] by {
                    if i > 0 {
                        assert(a[i] == a.skip(1)[i - 1]);
                        assert(b[i] == b.skip(1)[i - 1]);
                    }
                }
            }
        }
    }
}

pub proof fn lemma_lex_trans(a: Seq<char>, b: Seq<char>, c: Seq<char>)
    requires
        lex_lt(a, b),
        lex_lt(b, c),
    ensures
        lex_lt(a, c),
    decreases a.len(),
{
    if c.len() == 0 || b.len() == 0 || a.len() == 0 {
        // Either a premise is contradicted or the conclusion is immediate.
    } else {
        if a[0] == b[0] && b[0] == c[0] {
            lemma_lex_trans(a.skip(1), b.skip(1), c.skip(1));
        }
    }
}

pub proof fn lemma_lex_prefix(a: Seq<char>, b: Seq<char>)
    requires
        a.is_prefix_of(b),
        a.len() < b.len(),
    ensures
        lex_lt(a, b),
    decreases a.len(),
{
    if a.len() > 0 {
        assert(a[0] == b.subrange(0, a.len() as int)[0]);
        assert(a.skip(1).is_prefix_of(b.skip(1))) by {
            assert(a.skip(1) =~= b.skip(1).subrange(0, a.len() - 1)) by {
                assert forall|i: int| 0 <= i < a.len() - 1 implies a.skip(1)[i] == b.skip(
                    1,
                ).subrange(0, a.len() - 1)[i] by {
                    assert(a[i + 1] == b.subrange(0, a.len() as int)[i + 1]);
                }
            }
        }
        lemma_lex_prefix(a.skip(1), b.skip(1));
    }
}

/// Executable counterpart of `lex_lt`.
fn lex_less(a: &Vec<char>, b: &Vec<char>) -> (r: bool)
    ensures
        r == lex_lt(a@, b@),
{
    proof {
        assert(a@.skip(0) =~= a@);
        assert(b@.skip(0) =~= b@);
    }
    let mut i: usize = 0;
    loop
        invariant
            i <= a@.len(),
            i <= b@.len(),
            lex_lt(a@, b@) == lex_lt(a@.skip(i as int), b@.skip(i as int)),
        decreases a@.len() - i,
    {
        let ghost sa = a@.skip(i as int);
        let ghost sb = b@.skip(i as int);
        if i >= b.len() {
            return false;
        }
        proof {
            assert(sb[0] == b@[i as int]);
        }
        if i >= a.len() {
            return true;
        }
        proof {
            assert(sa[0] == a@[i as int]);
        }
        if a[i] != b[i] {
            return a[i] < b[i];
        }
        proof {
            assert(sa.skip(1) =~= a@.skip(i + 1));
            assert(sb.skip(1) =~= b@.skip(i + 1));
        }
        i += 1;
    }
}

/// A strictly ascending run of words.
pub open spec fn strictly_sorted(ws: Seq<Seq<char>>) -> bool {
    forall|i: int, j: int| 0 <= i < j < ws.len() ==> lex_lt(#[trigger] ws[i], #[trigger] ws[j])
}

/// Insert a word, different from every word present, into a strictly
/// ascending run, keeping it ascending.
fn insert_sorted(arr: Vec<Vec<char>>, x: Vec<char>) -> (r: Vec<Vec<char>>)
    requires
        forall|i1: int, i2: int| 0 <= i1 < i2 < arr@.len()
            ==> lex_lt(#[trigger] arr@[i1]@, #[trigger] arr@[i2]@),
        forall|k: int| 0 <= k < arr@.len() ==> #[trigger] arr@[k]@ != x@,
    ensures
        r@.len() == arr@.len() + 1,
        forall|i1: int, i2: int| 0 <= i1 < i2 < r@.len()
            ==> lex_lt(#[trigger] r@[i1]@, #[trigger] r@[i2]@),
        exists|p: int|
            {
                &&& 0 <= p <= arr@.len()
                &&& #[trigger] r@[p]@ == x@
                &&& (forall|k: int| 0 <= k < p ==> r@[k]@ == arr@[k]@)
                &&& (forall|k: int| p < k < r@.len() ==> r@[k]@ == arr@[k - 1]@)
            },
{
    let n = arr.len();
    let mut r: Vec<Vec<char>> = Vec::new();
    let mut i: usize = 0;
    // Copy the run below x.
    while i < n && lex_less(&arr[i], &x)
        invariant
            n == arr@.len(),
            i <= n,
            r@.len() == i,
            forall|k: int| 0 <= k < i ==> #[trigger] r@[k]@ == arr@[k]@,
            forall|k: int| 0 <= k < i ==> lex_lt(#[trigger] arr@[k]@, x@),
        decreases n - i,
    {
        r.push(crate::dict::clone_chars(&arr[i]));
        i += 1;
    }
    let ghost p = i as int;
    let ghost xs = x@;
    proof {
        if i < arr@.len() {
            lemma_lex_total(xs, arr@[i as int]@);
        }
        assert forall|q: int| p <= q < arr@.len() implies lex_lt(xs, #[trigger] arr@[q]@) by {
            if q > p {
                lemma_lex_trans(xs, arr@[p]@, arr@[q]@);
            }
        }
    }
    r.push(x);
    // Copy the run above x.
    while i < n
        invariant
            n == arr@.len(),
            0 <= p <= i <= n,
            r@.len() == i + 1,
            forall|k: int| 0 <= k < p ==> #[trigger] r@[k]@ == arr@[k]@,
            r@[p]@ == xs,
            forall|k: int| p < k < r@.len() ==> #[trigger] r@[k]@ == arr@[k - 1]@,
            forall|k: int| 0 <= k < p ==> lex_lt(#[trigger] arr@[k]@, xs),
            forall|q: int| p <= q < arr@.len() ==> lex_lt(xs, #[trigger] arr@[q]@),
        decreases n - i,
    {
        let ghost prev_r = r@;
        let c = crate::dict::clone_chars(&arr[i]);
        let ghost cg = c;
        r.push(c);
        proof {
            assert(r@ == prev_r.push(cg));
            assert(prev_r.push(cg)[p] == prev_r[p]);
            assert(r@[p]@ == xs);
            assert forall|k: int| p < k < r@.len() implies #[trigger] r@[k]@ == arr@[k - 1]@ by {
                if k < r@.len() - 1 {
                    assert(prev_r.push(cg)[k] == prev_r[k]);
                } else {
                    assert(prev_r.push(cg)[k] == cg);
                }
            }
        }
        i += 1;
    }
    proof {
        assert forall|i1: int, i2: int| 0 <= i1 < i2 < r@.len() implies lex_lt(
            #[trigger] r@[i1]@,
            #[trigger] r@[i2]@,
        ) by {
            if i1 == p {
                assert(r@[i2]@ == arr@[i2 - 1]@);
            } else if i2 == p {
                assert(r@[i1]@ == arr@[i1]@);
            } else if i1 < p && i2 > p {
                lemma_lex_trans(arr@[i1]@, xs, arr@[i2 - 1]@);
            }
        }
        assert(r@[p]@ == xs);
    }
    r
}

/// The ascending run of exactly the words of a set.
pub open spec fn sorted_run_of(ws: Seq<Seq<char>>, s: Set<Seq<char>>) -> bool {
    &&& forall|i: int, j: int| 0 <= i < j < ws.len() ==> lex_lt(#[trigger] ws[i], #[trigger] ws[j])
    &&& forall|i: int| 0 <= i < ws.len() ==> s.contains(#[trigger] ws[i])
    &&& forall|w: Seq<char>| #[trigger] s.contains(w)
        ==> exists|i: int| 0 <= i < ws.len() && #[trigger] ws[i] == w
}

/// A set has only one ascending run: the packed form of a dictionary is
/// a function of its word set alone.
pub proof fn lemma_sorted_run_unique(ws1: Seq<Seq<char>>, ws2: Seq<Seq<char>>, s: Set<Seq<char>>)
    requires
        sorted_run_of(ws1, s),
        sorted_run_of(ws2, s),
    ensures
        ws1 == ws2,
    decreases ws1.len(),
{
    if ws1.len() == 0 {
        if ws2.len() > 0 {
            assert(s.contains(ws2[0]));
            let i = choose|i: int| 0 <= i < ws1.len() && #[trigger] ws1[i] == ws2[0];
        }
        assert(ws1 =~= ws2);
    } else if ws2.len() == 0 {
        assert(s.contains(ws1[0]));
        let i = choose|i: int| 0 <= i < ws2.len() && #[trigger] ws2[i] == ws1[0];
    } else {
        let h1 = ws1[0];
        let h2 = ws2[0];
        assert(h1 == h2) by {
            if h1 != h2 {
                assert(s.contains(h1) && s.contains(h2));
                let j = choose|j: int| 0 <= j < ws2.len() && #[trigger] ws2[j] == h1;
                let k = choose|k: int| 0 <= k < ws1.len() && #[trigger] ws1[k] == h2;
                assert(j != 0 && k != 0);
                assert(lex_lt(h2, ws2[j]) && lex_lt(h1, ws1[k]));
                lemma_lex_trans(h1, h2, h1);
                lemma_lex_irrefl(h1);
            }
        }
        let t1 = ws1.skip(1);
        let t2 = ws2.skip(1);
        let s1 = s.remove(h1);
        assert(forall|i: int| 0 <= i < t1.len() ==> #[trigger] t1[i] == ws1[i + 1]);
        assert(forall|i: int| 0 <= i < t2.len() ==> #[trigger] t2[i] == ws2[i + 1]);
        assert(sorted_run_of(t1, s1)) by {
            assert forall|i: int| 0 <= i < t1.len() implies s1.contains(#[trigger] t1[i]) by {
                assert(lex_lt(h1, ws1[i + 1]));
                if t1[i] == h1 {
                    lemma_lex_irrefl(h1);
                }
            }
            assert forall|w: Seq<char>| #[trigger] s1.contains(w) implies exists|i: int|
                0 <= i < t1.len() && #[trigger] t1[i] == w by {
                let i = choose|i: int| 0 <= i < ws1.len() && #[trigger] ws1[i] == w;
                assert(i != 0);
                assert(t1[i - 1] == w);
            }
        }
        assert(sorted_run_of(t2, s1)) by {
            assert forall|i: int| 0 <= i < t2.len() implies s1.contains(#[trigger] t2[i]) by {
                assert(lex_lt(h2, ws2[i + 1]));
                if t2[i] == h2 {
                    lemma_lex_irrefl(h2);
                }
            }
            assert forall|w: Seq<char>| #[trigger] s1.contains(w) implies exists|i: int|
                0 <= i < t2.len() && #[trigger] t2[i] == w by {
                let i = choose|i: int| 0 <= i < ws2.len() && #[trigger] ws2[i] == w;
                assert(i != 0);
                assert(t2[i - 1] == w);
            }
        }
        lemma_sorted_run_unique(t1, t2, s1);
        assert(ws1 =~= ws2) by {
            assert forall|i: int| 0 <= i < ws1.len() implies ws1[i] == ws2[i] by {
                if i > 0 {
                    assert(t1[i - 1] == t2[i - 1]);
                }
            }
        }
    }
}

/// Whether some entry of the list is the given word.
pub open spec fn has_word(ws: Seq<Vec<char>>, w: Seq<char>) -> bool {
    exists|j: int| 0 <= j < ws.len() && ws[j]@ == w
}

/// Sort pairwise-distinct words into strictly ascending order.
#[verifier::rlimit(100)]
#[verifier::spinoff_prover]
fn sort_words(words: Vec<Vec<char>>) -> (r: Vec<Vec<char>>)
    requires
        forall|i: int, j: int| 0 <= i < j < words@.len() ==> words@[i]@ != words@[j]@,
    ensures
        strictly_sorted(r@.map_values(|v: Vec<char>| v@)),
        forall|k: int| 0 <= k < r@.len() ==> has_word(words@, #[trigger] r@[k]@),
        forall|j: int| 0 <= j < words@.len() ==> has_word(r@, #[trigger] words@[j]@),
{
    let mut r: Vec<Vec<char>> = Vec::new();
    let mut i: usize = 0;
    while i < words.len()
        invariant
            forall|i1: int, i2: int| 0 <= i1 < i2 < words@.len() ==> words@[i1]@ != words@[i2]@,
            i <= words@.len(),
            r@.len() == i,
            forall|i1: int, i2: int| 0 <= i1 < i2 < r@.len()
                ==> lex_lt(#[trigger] r@[i1]@, #[trigger] r@[i2]@),
            forall|k: int| 0 <= k < r@.len()
                ==> exists|j: int| 0 <= j < i && #[trigger] r@[k]@ == words@[j]@,
            forall|j: int| 0 <= j < i
                ==> exists|k: int| 0 <= k < r@.len() && r@[k]@ == #[trigger] words@[j]@,
        decreases words@.len() - i,
    {
        let x = crate::dict::clone_chars(&words[i]);
        proof {
            assert forall|k: int| 0 <= k < r@.len() implies #[trigger] r@[k]@ != x@ by {
                let j = choose|j: int| 0 <= j < i && #[trigger] r@[k]@ == words@[j]@;
                assert(words@[j]@ != words@[i as int]@);
            }
        }
        let ghost prev = r@;
        let ghost xv = x@;
        r = insert_sorted(r, x);
        proof {
            let p = choose|p: int|
                {
                    &&& 0 <= p <= prev.len()
                    &&& #[trigger] r@[p]@ == xv
                    &&& (forall|k: int| 0 <= k < p ==> r@[k]@ == prev[k]@)
                    &&& (forall|k: int| p < k < r@.len() ==> r@[k]@ == prev[k - 1]@)
                };
            assert forall|k: int| 0 <= k < r@.len() implies exists|j: int|
                0 <= j < i + 1 && #[trigger] r@[k]@ == words@[j]@ by {
                if k == p {
                    assert(r@[k]@ == words@[i as int]@);
                } else {
                    let q = if k < p { k } else { k - 1 };
                    assert(r@[k]@ == prev[q]@);
                    let j = choose|j: int| 0 <= j < i && #[trigger] prev[q]@ == words@[j]@;
                    assert(r@[k]@ == words@[j]@);
                }
            }
            assert forall|j: int| 0 <= j < i + 1 implies exists|k: int|
                0 <= k < r@.len() && r@[k]@ == #[trigger] words@[j]@ by {
                if j == i as int {
                    assert(r@[p]@ == words@[j]@);
                } else {
                    let k0 = choose|k0: int| 0 <= k0 < prev.len() && prev[k0]@ == #[trigger] words@[j]@;
                    let k = if k0 < p { k0 } else { k0 + 1 };
                    assert(r@[k]@ == words@[j]@);
                }
            }
        }
        i += 1;
    }
    proof {
        assert(i == words@.len());
        assert forall|k: int| 0 <= k < r@.len() implies has_word(
            words@,
            #[trigger] r@[k]@,
        ) by {
            let j = choose|j: int| 0 <= j < i && #[trigger] r@[k]@ == words@[j]@;
            assert(0 <= j < words@.len() && words@[j]@ == r@[k]@);
        }
        assert forall|j: int| 0 <= j < words@.len() implies has_word(
            r@,
            #[trigger] words@[j]@,
        ) by {
            let k = choose|k: int| 0 <= k < r@.len() && r@[k]@ == #[trigger] words@[j]@;
            assert(0 <= k < r@.len() && r@[k]@ == words@[j]@);
        }
        let ghost vs = r@.map_values(|v: Vec<char>| v@);
        assert(strictly_sorted(vs)) by {
            assert forall|i1: int, i2: int| 0 <= i1 < i2 < vs.len() implies lex_lt(
                #[trigger] vs[i1],
                #[trigger] vs[i2],
            ) by {
                assert(vs[i1] == r@[i1]@);
                assert(vs[i2] == r@[i2]@);
            }
        }
    }
    r
}


/// The reason a packed dictionary failed to decode.
#[derive(Debug, Clone, Copy, PartialEq, Eq)]
pub enum DecodeError {
    /// The stream ended before a terminated instruction stream did.
    UnexpectedEnd,
}

/// The four bits of a pop instruction with the given count.
pub open spec fn pop_bits(n: u8) -> Seq<bool> {
    seq![false, (n >> 2) & 1 == 1, (n >> 1) & 1 == 1, n & 1 == 1]
}

/// The six bits of a push instruction with the given letter code.
pub open spec fn push_instr_bits(code: u8) -> Seq<bool> {
    seq![
        true,
        (code >> 4) & 1 == 1,
        (code >> 3) & 1 == 1,
        (code >> 2) & 1 == 1,
        (code >> 1) & 1 == 1,
        code & 1 == 1,
    ]
}

/// One where a bit is set, zero where it is not.
pub open spec fn bool1(b: bool) -> nat {
    if b {
        1
    } else {
        0
    }
}

proof fn lemma_bits_val3(a: bool, b: bool, c: bool)
    ensures
        bits_val(seq![a, b, c]) == 4 * bool1(a) + 2 * bool1(b) + bool1(c),
{
    let s = seq![a, b, c];
    assert(s.drop_last() =~= seq![a, b]);
    assert(seq![a, b].drop_last() =~= seq![a]);
    assert(seq![a].drop_last() =~= Seq::<bool>::empty());
    assert(bits_val(Seq::<bool>::empty()) == 0);
    assert(bits_val(seq![a]) == bool1(a));
    assert(bits_val(seq![a, b]) == 2 * bool1(a) + bool1(b));
}

proof fn lemma_bits_val5(a: bool, b: bool, c: bool, d: bool, e: bool)
    ensures
        bits_val(seq![a, b, c, d, e]) == 16 * bool1(a) + 8 * bool1(b) + 4 * bool1(c) + 2 * bool1(d)
            + bool1(e),
{
    let s = seq![a, b, c, d, e];
    assert(s.drop_last() =~= seq![a, b, c, d]);
    assert(seq![a, b, c, d].drop_last() =~= seq![a, b, c]);
    lemma_bits_val3(a, b, c);
    assert(bits_val(seq![a, b, c, d]) == 8 * bool1(a) + 4 * bool1(b) + 2 * bool1(c) + bool1(d));
}

proof fn lemma_pop_bits_val(n: u8)
    requires
        n < 8,
    ensures
        bits_val(pop_bits(n).subrange(1, 4)) == n,
{
    assert(pop_bits(n).subrange(1, 4) =~= seq![(n >> 2) & 1 == 1, (n >> 1) & 1 == 1, n & 1 == 1]);
    lemma_bits_val3((n >> 2) & 1 == 1, (n >> 1) & 1 == 1, n & 1 == 1);
    assert(((n >> 2) & 1) <= 1 && ((n >> 1) & 1) <= 1 && (n & 1) <= 1) by (bit_vector);
    assert(n < 8 ==> ((n >> 2) & 1) * 4 + ((n >> 1) & 1) * 2 + (n & 1) == n) by (bit_vector);
}

proof fn lemma_push_bits_val(code: u8)
    requires
        code < 32,
    ensures
        bits_val(push_instr_bits(code).subrange(1, 6)) == code,
{
    assert(push_instr_bits(code).subrange(1, 6) =~= seq![
        (code >> 4) & 1 == 1,
        (code >> 3) & 1 == 1,
        (code >> 2) & 1 == 1,
        (code >> 1) & 1 == 1,
        code & 1 == 1,
    ]);
    lemma_bits_val5(
        (code >> 4) & 1 == 1,
        (code >> 3) & 1 == 1,
        (code >> 2) & 1 == 1,
        (code >> 1) & 1 == 1,
        code & 1 == 1,
    );
    assert(((code >> 4) & 1) <= 1 && ((code >> 3) & 1) <= 1 && ((code >> 2) & 1) <= 1 && ((code
        >> 1) & 1) <= 1 && (code & 1) <= 1) by (bit_vector);
    assert(code < 32 ==> ((code >> 4) & 1) * 16 + ((code >> 3) & 1) * 8 + ((code >> 2) & 1) * 4 + (
    (code >> 1) & 1) * 2 + (code & 1) == code) by (bit_vector);
}

/// What the decoder makes of a pop instruction put in front of a stream.
proof fn lemma_decode_pop_step(n: u8, rest: Seq<bool>, buf: Seq<char>, pending: bool)
    requires
        n < 8,
        n == 0 ==> pending,
    ensures
        spec_decode(pop_bits(n) + rest, buf, pending) == (if pending && buf.len() > 0 {
            match spec_decode(rest, pop_n(buf, n as nat), false) {
                Option::None => Option::<Seq<Seq<char>>>::None,
                Option::Some(ws) => Option::Some(seq![buf] + ws),
            }
        } else {
            spec_decode(rest, pop_n(buf, n as nat), false)
        }),
{
    let bits = pop_bits(n) + rest;
    assert(bits[0] == false);
    assert(bits.len() >= 4);
    assert(bits.subrange(1, 4) =~= pop_bits(n).subrange(1, 4));
    lemma_pop_bits_val(n);
    assert(bits.skip(4) =~= rest);
}

/// What the decoder makes of a push instruction put in front of a stream.
proof fn lemma_decode_push_step(code: u8, rest: Seq<bool>, buf: Seq<char>, pending: bool)
    requires
        code < 32,
    ensures
        spec_decode(push_instr_bits(code) + rest, buf, pending) == spec_decode(
            rest,
            buf.push(code_char(code as nat)),
            true,
        ),
{
    let bits = push_instr_bits(code) + rest;
    assert(bits[0] == true);
    assert(bits.len() >= 6);
    assert(bits.subrange(1, 6) =~= push_instr_bits(code).subrange(1, 6));
    lemma_push_bits_val(code);
    assert(bits.skip(6) =~= rest);
}

/// The length of the longest common prefix of two strings.
pub open spec fn cpl(a: Seq<char>, b: Seq<char>) -> nat
    decreases a.len(),
{
    if a.len() == 0 || b.len() == 0 || a[0] != b[0] {
        0
    } else {
        1 + cpl(a.skip(1), b.skip(1))
    }
}

pub proof fn lemma_cpl(a: Seq<char>, b: Seq<char>)
    ensures
        cpl(a, b) <= a.len(),
        cpl(a, b) <= b.len(),
        forall|j: int| 0 <= j < cpl(a, b) ==> a[j] == b[j],
        cpl(a, b) < a.len() && cpl(a, b) < b.len() ==> a[cpl(a, b) as int] != b[cpl(a, b) as int],
    decreases a.len(),
{
    if a.len() == 0 || b.len() == 0 || a[0] != b[0] {
    } else {
        lemma_cpl(a.skip(1), b.skip(1));
        let l = cpl(a, b);
        assert forall|j: int| 0 <= j < l implies a[j] == b[j] by {
            if j > 0 {
                assert(a.skip(1)[j - 1] == b.skip(1)[j - 1]);
            }
        }
        if l < a.len() && l < b.len() {
            assert(a.skip(1)[l - 1] != b.skip(1)[l - 1]);
        }
    }
}

/// The pop chain dropping `n` characters: pop-7 instructions while more
/// than seven remain, then the remainder.
pub open spec fn chain_bits(n: nat) -> Seq<bool>
    decreases n,
{
    if n > 7 {
        pop_bits(7) + chain_bits((n - 7) as nat)
    } else {
        pop_bits(n as u8)
    }
}

/// The push instructions spelling a word's new suffix.
pub open spec fn pushes_bits(s: Seq<char>) -> Seq<bool>
    decreases s.len(),
{
    if s.len() == 0 {
        Seq::empty()
    } else {
        push_instr_bits(((s[0] as u8) - 97) as u8) + pushes_bits(s.skip(1))
    }
}

/// One word's instructions against the previous word: pops down to the
/// longest shared prefix (none at all for the first word), then pushes.
pub open spec fn word_bits(state: Seq<char>, w: Seq<char>) -> Seq<bool> {
    let l = cpl(state, w);
    (if state.len() == 0 {
        Seq::<bool>::empty()
    } else {
        chain_bits((state.len() - l) as nat)
    }) + pushes_bits(w.skip(l as int))
}

/// The whole instruction stream of a word list: each word front-coded
/// against its predecessor, then the double zero-count pop terminator.
pub open spec fn stream_bits(ws: Seq<Seq<char>>, state: Seq<char>) -> Seq<bool>
    decreases ws.len(),
{
    if ws.len() == 0 {
        pop_bits(0) + pop_bits(0)
    } else {
        word_bits(state, ws[0]) + stream_bits(ws.skip(1), ws[0])
    }
}

/// The remaining decoder run, with the words already emitted in front.
pub open spec fn decode_cont(
    rest: Seq<bool>,
    buf: Seq<char>,
    pending: bool,
    done: Seq<Seq<char>>,
) -> Option<Seq<Seq<char>>> {
    match spec_decode(rest, buf, pending) {
        Option::None => Option::<Seq<Seq<char>>>::None,
        Option::Some(t) => Option::Some(done + t),
    }
}

/// Appending a pop instruction to an emitted stream.
proof fn lemma_cont_pop(
    bits0: Seq<bool>,
    dstate: Seq<char>,
    pend: bool,
    done: Seq<Seq<char>>,
    n: u8,
)
    requires
        n < 8,
        n == 0 ==> pend,
        pend ==> dstate.len() > 0,
        forall|rest: Seq<bool>| #[trigger] spec_decode(bits0 + rest, Seq::empty(), false)
            == decode_cont(rest, dstate, pend, done),
    ensures
        forall|rest: Seq<bool>| #[trigger] spec_decode(
            (bits0 + pop_bits(n)) + rest,
            Seq::empty(),
            false,
        ) == decode_cont(
            rest,
            pop_n(dstate, n as nat),
            false,
            if pend {
                done.push(dstate)
            } else {
                done
            },
        ),
{
    assert forall|rest: Seq<bool>| #[trigger] spec_decode(
        (bits0 + pop_bits(n)) + rest,
        Seq::empty(),
        false,
    ) == decode_cont(
        rest,
        pop_n(dstate, n as nat),
        false,
        if pend {
            done.push(dstate)
        } else {
            done
        },
    ) by {
        assert((bits0 + pop_bits(n)) + rest =~= bits0 + (pop_bits(n) + rest));
        assert(spec_decode(bits0 + (pop_bits(n) + rest), Seq::empty(), false) == decode_cont(
            pop_bits(n) + rest,
            dstate,
            pend,
            done,
        ));
        lemma_decode_pop_step(n, rest, dstate, pend);
        if pend {
            match spec_decode(rest, pop_n(dstate, n as nat), false) {
                Option::None => {},
                Option::Some(t) => {
                    assert(done + (seq![dstate] + t) =~= done.push(dstate) + t);
                },
            }
        }
    }
}

/// Appending a push instruction to an emitted stream.
proof fn lemma_cont_push(
    bits0: Seq<bool>,
    dstate: Seq<char>,
    pend: bool,
    done: Seq<Seq<char>>,
    code: u8,
)
    requires
        code < 32,
        forall|rest: Seq<bool>| #[trigger] spec_decode(bits0 + rest, Seq::empty(), false)
            == decode_cont(rest, dstate, pend, done),
    ensures
        forall|rest: Seq<bool>| #[trigger] spec_decode(
            (bits0 + push_instr_bits(code)) + rest,
            Seq::empty(),
            false,
        ) == decode_cont(rest, dstate.push(code_char(code as nat)), true, done),
{
    assert forall|rest: Seq<bool>| #[trigger] spec_decode(
        (bits0 + push_instr_bits(code)) + rest,
        Seq::empty(),
        false,
    ) == decode_cont(rest, dstate.push(code_char(code as nat)), true, done) by {
        assert((bits0 + push_instr_bits(code)) + rest =~= bits0 + (push_instr_bits(code) + rest));
        assert(spec_decode(bits0 + (push_instr_bits(code) + rest), Seq::empty(), false)
            == decode_cont(push_instr_bits(code) + rest, dstate, pend, done));
        lemma_decode_push_step(code, rest, dstate, pend);
    }
}

/// Appending the double zero-count pop terminator: the decoder stops,
/// whatever follows, with any pending word emitted last.
proof fn lemma_cont_end(bits0: Seq<bool>, dstate: Seq<char>, pend: bool, done: Seq<Seq<char>>)
    requires
        pend ==> dstate.len() > 0,
        forall|rest: Seq<bool>| #[trigger] spec_decode(bits0 + rest, Seq::empty(), false)
            == decode_cont(rest, dstate, pend, done),
    ensures
        forall|rest: Seq<bool>| #[trigger] spec_decode(
            ((bits0 + pop_bits(0)) + pop_bits(0)) + rest,
            Seq::empty(),
            false,
        ) == Option::Some(
            if pend {
                done.push(dstate)
            } else {
                done
            },
        ),
{
    if pend {
        lemma_cont_pop(bits0, dstate, pend, done, 0);
    }
    let bits1 = bits0 + pop_bits(0);
    let dstate1 = if pend { pop_n(dstate, 0) } else { dstate };
    let done1 = if pend { done.push(dstate) } else { done };
    assert forall|rest: Seq<bool>| #[trigger] spec_decode(
        (bits1 + pop_bits(0)) + rest,
        Seq::empty(),
        false,
    ) == Option::Some(done1) by {
        assert((bits1 + pop_bits(0)) + rest =~= bits1 + (pop_bits(0) + rest));
        if pend {
            assert(spec_decode(bits1 + (pop_bits(0) + rest), Seq::empty(), false) == decode_cont(
                pop_bits(0) + rest,
                dstate1,
                false,
                done1,
            ));
        } else {
            assert(spec_decode(bits1 + (pop_bits(0) + rest), Seq::empty(), false) =~= spec_decode(
                bits0 + (pop_bits(0) + (pop_bits(0) + rest)),
                Seq::empty(),
                false,
            )) by {
                assert(bits1 + (pop_bits(0) + rest) =~= bits0 + (pop_bits(0) + (pop_bits(0)
                    + rest)));
            }
            assert(spec_decode(bits0 + (pop_bits(0) + (pop_bits(0) + rest)), Seq::empty(), false)
                == decode_cont(pop_bits(0) + (pop_bits(0) + rest), dstate, false, done));
            let inner = pop_bits(0) + (pop_bits(0) + rest);
            assert(inner[0] == false && inner.len() >= 4);
            assert(inner.subrange(1, 4) =~= pop_bits(0).subrange(1, 4));
            lemma_pop_bits_val(0);
            assert(spec_decode(inner, dstate, false) == Option::Some(Seq::<Seq<char>>::empty()));
            assert(done + Seq::<Seq<char>>::empty() =~= done);
        }
        if pend {
            let inner = pop_bits(0) + rest;
            assert(inner[0] == false && inner.len() >= 4);
            assert(inner.subrange(1, 4) =~= pop_bits(0).subrange(1, 4));
            lemma_pop_bits_val(0);
            assert(spec_decode(inner, dstate1, false) == Option::Some(Seq::<Seq<char>>::empty()));
            assert(done1 + Seq::<Seq<char>>::empty() =~= done1);
        }
    }
}

pub proof fn lemma_bits_val_bound(s: Seq<bool>)
    ensures
        bits_val(s) < pow2(s.len()),
    decreases s.len(),
{
    if s.len() == 0 {
        assert(pow2(0) == 1) by {
            lemma2_to64();
        }
    } else {
        lemma_bits_val_bound(s.drop_last());
        lemma_pow2_unfold(s.len());
    }
}

/// The big-endian value of `k` bits starting at `start`.
fn bits_value(bits: &Vec<bool>, start: usize, k: usize) -> (v: u8)
    requires
        start + k <= bits@.len(),
        k <= 7,
    ensures
        v as nat == bits_val(bits@.subrange(start as int, start + k)),
{
    let n = bits.len();
    let mut v: u8 = 0;
    let mut j: usize = 0;
    while j < k
        invariant
            n == bits@.len(),
            start + k <= n,
            k <= 7,
            j <= k,
            v as nat == bits_val(bits@.subrange(start as int, start + j)),
        decreases k - j,
    {
        proof {
            lemma_bits_val_bound(bits@.subrange(start as int, start + j));
            assert(pow2((j as nat)) <= pow2(6)) by {
                if j < 6 {
                    vstd::arithmetic::power2::lemma_pow2_strictly_increases(j as nat, 6);
                }
            }
            assert(pow2(6) == 64) by {
                lemma2_to64();
            }
        }
        let b = bits[start + j];
        v = 2 * v + (if b { 1 } else { 0 });
        proof {
            let s = bits@.subrange(start as int, start + j + 1);
            assert(s.drop_last() =~= bits@.subrange(start as int, start + j));
            assert(s.last() == bits@[start + j]);
        }
        j += 1;
    }
    v
}

impl crate::dict::Dict {
    /// Rebuild a dictionary from its packed binary form.
    ///
    /// Fails exactly when the stream is exhausted before the instruction
    /// stream terminates; otherwise the decoded words are added through
    /// the usual acceptance rule.
    #[verifier::rlimit(50)]
    pub fn deserialize_packed(bytes: &[u8]) -> (r: Result<crate::dict::Dict, DecodeError>)
        ensures
            r is Err <==> spec_decode(bits_of_bytes(bytes@), Seq::empty(), false) is None,
            r matches Ok(d) ==> {
                &&& spec_decode(bits_of_bytes(bytes@), Seq::empty(), false) matches Some(ws)
                    && d@ == crate::dict::spec_extend(Map::empty(), ws)
                &&& d.wf()
            },
    {
        let bits = unpack_bits(bytes);
        let ghost full = bits@;
        let mut dict = crate::dict::Dict::new();
        let mut buf: Vec<char> = Vec::new();
        let mut pending = false;
        let mut pos: usize = 0;
        let ghost mut emitted: Seq<Seq<char>> = Seq::empty();
        proof {
            assert(full.skip(0) =~= full);
        }
        loop
            invariant
                bits@ == full,
                full == bits_of_bytes(bytes@),
                pos <= full.len(),
                dict.wf(),
                dict@ == crate::dict::spec_extend(Map::<Seq<char>, Seq<char>>::empty(), emitted),
                pending ==> buf@.len() > 0,
                spec_decode(full, Seq::empty(), false) == match spec_decode(
                    full.skip(pos as int),
                    buf@,
                    pending,
                ) {
                    Option::None => Option::<Seq<Seq<char>>>::None,
                    Option::Some(ws) => Option::Some(emitted + ws),
                },
            decreases full.len() - pos,
        {
            let ghost rem = full.skip(pos as int);
            if pos >= bits.len() {
                return Err(DecodeError::UnexpectedEnd);
            }
            proof {
                assert(rem[0] == full[pos as int]);
            }
            if !bits[pos] {
                // pop instruction
                if pos + 4 > bits.len() {
                    proof {
                        assert(rem.len() < 4);
                    }
                    return Err(DecodeError::UnexpectedEnd);
                }
                let n = bits_value(&bits, pos + 1, 3);
                proof {
                    assert(rem.subrange(1, 4) =~= full.subrange(pos + 1, pos + 4));
                    assert(n as nat == bits_val(rem.subrange(1, 4)));
                    assert(rem.skip(4) =~= full.skip(pos + 4));
                }
                if n == 0 && !pending {
                    proof {
                        assert(spec_decode(rem, buf@, pending) == Some(Seq::<Seq<char>>::empty()));
                        assert(emitted + Seq::<Seq<char>>::empty() =~= emitted);
                    }
                    return Ok(dict);
                }
                let ghost buf_before = buf@;
                let ghost pending_before = pending;
                let ghost emitted_before = emitted;
                if pending {
                    dict.add_chars(&buf);
                    proof {
                        crate::dict::lemma_spec_extend_push(
                            Map::<Seq<char>, Seq<char>>::empty(),
                            emitted,
                            buf@,
                        );
                        emitted = emitted.push(buf@);
                    }
                }
                let keep = if (n as usize) <= buf.len() {
                    buf.len() - (n as usize)
                } else {
                    0
                };
                buf.truncate(keep);
                pending = false;
                pos += 4;
                proof {
                    assert(buf@ =~= pop_n(buf_before, n as nat));
                    let rest = spec_decode(full.skip(pos as int), buf@, false);
                    if pending_before && buf_before.len() > 0 {
                        if rest is Some {
                            let ws = rest.unwrap();
                            assert(spec_decode(rem, buf_before, pending_before) == Some(
                                seq![buf_before] + ws,
                            ));
                            assert(emitted_before + (seq![buf_before] + ws) =~= emitted + ws);
                        } else {
                            assert(spec_decode(rem, buf_before, pending_before) is None);
                        }
                    } else {
                        assert(spec_decode(rem, buf_before, pending_before) == rest);
                        assert(emitted == emitted_before);
                    }
                }
            } else {
                // push instruction
                if pos + 6 > bits.len() {
                    proof {
                        assert(rem.len() < 6);
                    }
                    return Err(DecodeError::UnexpectedEnd);
                }
                let code = bits_value(&bits, pos + 1, 5);
                proof {
                    assert(rem.subrange(1, 6) =~= full.subrange(pos + 1, pos + 6));
                    assert(code as nat == bits_val(rem.subrange(1, 6)));
                    assert(rem.skip(6) =~= full.skip(pos + 6));
                }
                proof {
                    lemma_bits_val_bound(rem.subrange(1, 6));
                    assert(pow2(5) == 32) by {
                        lemma2_to64();
                    }
                }
                let c = (97u8 + code) as char;
                proof {
                    assert(c == code_char(bits_val(rem.subrange(1, 6))));
                }
                buf.push(c);
                pending = true;
                pos += 6;
            }
        }
    }
}

/// Folding a run of valid words with pairwise-distinct collapsed paths
/// over the empty map stores exactly those pairs.
proof fn lemma_extend_pairs(ws: Seq<Seq<char>>)
    requires
        forall|i: int| 0 <= i < ws.len() ==> crate::dict::valid_word(#[trigger] ws[i]),
        forall|i: int, j: int| 0 <= i < j < ws.len()
            ==> crate::dict::collapse(ws[i]) != crate::dict::collapse(ws[j]),
    ensures
        forall|i: int| 0 <= i < ws.len() ==> crate::dict::spec_extend(
            Map::<Seq<char>, Seq<char>>::empty(),
            ws,
        ).contains_pair(crate::dict::collapse(#[trigger] ws[i]), ws[i]),
        forall|k: Seq<char>| crate::dict::spec_extend(
            Map::<Seq<char>, Seq<char>>::empty(),
            ws,
        ).dom().contains(k) ==> exists|i: int|
            0 <= i < ws.len() && crate::dict::collapse(#[trigger] ws[i]) == k,
    decreases ws.len(),
{
    let empty = Map::<Seq<char>, Seq<char>>::empty();
    if ws.len() > 0 {
        let prefix = ws.drop_last();
        let w = ws.last();
        lemma_extend_pairs(prefix);
        assert(prefix.push(w) =~= ws);
        crate::dict::lemma_spec_extend_push(empty, prefix, w);
        let m0 = crate::dict::spec_extend(empty, prefix);
        let m1 = crate::dict::spec_extend(empty, ws);
        assert(crate::dict::accepted(w)) by {
            assert(crate::dict::valid_word(w));
            assert forall|i: int| 0 <= i < w.len() implies crate::grid::is_alpha(
                #[trigger] w[i],
            ) by {
                assert(crate::dict::is_lower(w[i]));
            }
        }
        assert(crate::dict::lower_seq(w) =~= w) by {
            assert forall|i: int| 0 <= i < w.len() implies crate::dict::lower_seq(w)[i]
                == w[i] by {
                assert(crate::dict::is_lower(w[i]));
            }
        }
        assert(m1 == m0.insert(crate::dict::collapse(w), w));
        assert forall|i: int| 0 <= i < ws.len() implies m1.contains_pair(
            crate::dict::collapse(#[trigger] ws[i]),
            ws[i],
        ) by {
            if i < ws.len() - 1 {
                assert(m0.contains_pair(crate::dict::collapse(prefix[i]), prefix[i]));
                assert(crate::dict::collapse(ws[i]) != crate::dict::collapse(w));
            }
        }
        assert forall|k: Seq<char>| m1.dom().contains(k) implies exists|i: int|
            0 <= i < ws.len() && crate::dict::collapse(#[trigger] ws[i]) == k by {
            if k != crate::dict::collapse(w) {
                let i = choose|i: int|
                    0 <= i < prefix.len() && crate::dict::collapse(#[trigger] prefix[i]) == k;
                assert(crate::dict::collapse(ws[i]) == k);
            } else {
                assert(crate::dict::collapse(ws[ws.len() - 1]) == k);
            }
        }
    }
}

/// Re-adding exactly the words of a well-formed dictionary, in any
/// order, rebuilds it.
proof fn lemma_rebuild(m: Map<Seq<char>, Seq<char>>, ws: Seq<Seq<char>>)
    requires
        forall|k: Seq<char>| #[trigger] m.dom().contains(k)
            ==> crate::dict::valid_word(m[k]) && crate::dict::collapse(m[k]) == k,
        forall|i: int| 0 <= i < ws.len() ==> m.values().contains(#[trigger] ws[i]),
        forall|w: Seq<char>| #[trigger] m.values().contains(w)
            ==> exists|i: int| 0 <= i < ws.len() && #[trigger] ws[i] == w,
        forall|i: int, j: int| 0 <= i < j < ws.len() ==> ws[i] != ws[j],
    ensures
        crate::dict::spec_extend(Map::<Seq<char>, Seq<char>>::empty(), ws) == m,
{
    // A value of m sits under its own collapsed path.
    assert forall|w: Seq<char>| #[trigger] m.values().contains(w) implies m.dom().contains(
        crate::dict::collapse(w),
    ) && m[crate::dict::collapse(w)] == w && crate::dict::valid_word(w) by {
        let k = choose|k: Seq<char>| #[trigger] m.dom().contains(k) && m[k] == w;
        assert(crate::dict::collapse(w) == k);
    }
    assert forall|i: int| 0 <= i < ws.len() implies crate::dict::valid_word(#[trigger] ws[i]) by {
        assert(m.values().contains(ws[i]));
    }
    assert forall|i: int, j: int| 0 <= i < j < ws.len() implies crate::dict::collapse(ws[i])
        != crate::dict::collapse(ws[j]) by {
        if crate::dict::collapse(ws[i]) == crate::dict::collapse(ws[j]) {
            assert(m[crate::dict::collapse(ws[i])] == ws[i]);
            assert(m[crate::dict::collapse(ws[j])] == ws[j]);
        }
    }
    lemma_extend_pairs(ws);
    let built = crate::dict::spec_extend(Map::<Seq<char>, Seq<char>>::empty(), ws);
    assert forall|k: Seq<char>| #[trigger] m.dom().contains(k) implies built.dom().contains(k)
        && built[k] == m[k] by {
        let w = m[k];
        assert(m.values().contains(w)) by {
            assert(m.contains_value(w));
        }
        let i = choose|i: int| 0 <= i < ws.len() && #[trigger] ws[i] == w;
        assert(built.contains_pair(crate::dict::collapse(ws[i]), ws[i]));
        assert(crate::dict::collapse(w) == k);
    }
    assert forall|k: Seq<char>| #[trigger] built.dom().contains(k) implies m.dom().contains(k) by {
        let i = choose|i: int| 0 <= i < ws.len() && crate::dict::collapse(#[trigger] ws[i]) == k;
        assert(m.values().contains(ws[i]));
        assert(m.dom().contains(crate::dict::collapse(ws[i])));
    }
    assert(built =~= m);
}

/// A packed byte stream for the dictionary: it decodes to the sorted run
/// of exactly the dictionary's words — whatever bits may follow, since
/// the stream is self-terminating — and re-adding those words rebuilds
/// exactly the dictionary.
pub open spec fn packed_form(
    bits: Seq<bool>,
    m: Map<Seq<char>, Seq<char>>,
    ws: Seq<Seq<char>>,
) -> bool {
    &&& bits == pad_zeros(stream_bits(ws, Seq::empty()))
    &&& forall|extra: Seq<bool>| #[trigger] spec_decode(bits + extra, Seq::empty(), false)
        == Option::Some(ws)
    &&& spec_decode(bits, Seq::empty(), false) == Option::Some(ws)
    &&& crate::dict::spec_extend(Map::<Seq<char>, Seq<char>>::empty(), ws) == m
    &&& sorted_run_of(ws, m.values())
}

impl crate::dict::Dict {
    /// The packed binary form of the dictionary: its words, sorted
    /// ascending and front-coded over the bit-level instruction stream,
    /// terminated by a double zero-count pop and padded to a byte.
    /// Decoding the result yields exactly the dictionary back.
    pub fn serialize_packed(&self) -> (r: Vec<u8>)
        requires
            self.wf(),
        ensures
            exists|ws: Seq<Seq<char>>| packed_form(bits_of_bytes(r@), self@, ws),
    {
        let vecs = self.word_vecs();
        let ghost vecsv = vecs@;
        let ghost values = self@.values();
        let sorted = sort_words(vecs);
        let ghost ws = sorted@.map_values(|v: Vec<char>| v@);
        proof {
            assert(ws.len() == sorted@.len());
            assert(forall|k: int| 0 <= k < ws.len() ==> #[trigger] ws[k] == sorted@[k]@);
            assert forall|k: int| 0 <= k < sorted@.len() implies values.contains(
                #[trigger] sorted@[k]@,
            ) by {
                assert(has_word(vecsv, sorted@[k]@));
                let j = choose|j: int| 0 <= j < vecsv.len() && vecsv[j]@ == sorted@[k]@;
            }
            assert(sorted_run_of(ws, values)) by {
                assert forall|w: Seq<char>| #[trigger] values.contains(w) implies exists|i: int|
                    0 <= i < ws.len() && #[trigger] ws[i] == w by {
                    let j = choose|j: int| 0 <= j < vecsv.len() && #[trigger] vecsv[j]@ == w;
                    assert(has_word(sorted@, vecsv[j]@));
                    let k = choose|k: int| 0 <= k < sorted@.len() && sorted@[k]@ == vecsv[j]@;
                    assert(ws[k] == w);
                }
            }
            assert forall|k: int| 0 <= k < sorted@.len() implies crate::dict::valid_word(
                #[trigger] sorted@[k]@,
            ) by {
                let key = choose|key: Seq<char>|
                    #[trigger] self@.dom().contains(key) && self@[key] == sorted@[k]@;
            }
            assert forall|i1: int, i2: int| 0 <= i1 < i2 < sorted@.len() implies lex_lt(
                #[trigger] sorted@[i1]@,
                #[trigger] sorted@[i2]@,
            ) by {
                let vs = sorted@.map_values(|v: Vec<char>| v@);
                assert(vs[i1] == sorted@[i1]@ && vs[i2] == sorted@[i2]@);
            }
        }
        let mut bits: Vec<bool> = Vec::new();
        let mut state: Vec<char> = Vec::new();
        let ghost mut done: Seq<Seq<char>> = Seq::empty();
        let ghost mut pend: bool = false;
        proof {
            assert forall|rest: Seq<bool>| #[trigger] spec_decode(
                bits@ + rest,
                Seq::empty(),
                false,
            ) == decode_cont(rest, state@, pend, done) by {
                assert(bits@ + rest =~= rest);
                match spec_decode(rest, state@, false) {
                    Option::None => {},
                    Option::Some(t) => {
                        assert(done + t =~= t);
                    },
                }
            }
        }
        proof {
            assert(ws.skip(0) =~= ws);
            assert(bits@ + stream_bits(ws.skip(0), state@) =~= stream_bits(ws, Seq::empty()));
        }
        let mut i: usize = 0;
        while i < sorted.len()
            invariant
                self.wf(),
                values == self@.values(),
                ws == sorted@.map_values(|v: Vec<char>| v@),
                forall|k: int| 0 <= k < sorted@.len()
                    ==> crate::dict::valid_word(#[trigger] sorted@[k]@),
                i <= sorted@.len(),
                i == 0 ==> state@.len() == 0 && done =~= Seq::<Seq<char>>::empty() && !pend,
                i > 0 ==> pend && state@ == sorted@[i - 1]@ && done =~= ws.take(i - 1),
                forall|i1: int, i2: int| 0 <= i1 < i2 < sorted@.len()
                    ==> lex_lt(#[trigger] sorted@[i1]@, #[trigger] sorted@[i2]@),
                pend ==> state@.len() > 0,
                forall|rest: Seq<bool>| #[trigger] spec_decode(bits@ + rest, Seq::empty(), false)
                    == decode_cont(rest, state@, pend, done),
                stream_bits(ws, Seq::empty()) == bits@ + stream_bits(ws.skip(i as int), state@),
            decreases sorted@.len() - i,
        {
            let ghost bits_ws = bits@;
            let w = &sorted[i];
            proof {
                assert(crate::dict::valid_word(w@));
            }
            // The longest shared prefix with the previous word.
            let mut l: usize = 0;
            while l < state.len() && l < w.len() && state[l] == w[l]
                invariant
                    l <= state@.len(),
                    l <= w@.len(),
                    forall|k: int| 0 <= k < l ==> state@[k] == w@[k],
                decreases state@.len() - l,
            {
                l += 1;
            }
            let skip_pop = state.len() == 0;
            let mut need = state.len() - l;
            let ghost dstate0 = state@;
            let ghost need0 = need;
            proof {
                // The scan stopped exactly at the longest common prefix.
                lemma_cpl(dstate0, w@);
                let cl = cpl(dstate0, w@);
                if cl < l {
                    assert(dstate0[cl as int] == w@[cl as int]);
                }
                if cl > l {
                    assert(l < dstate0.len() && l < w@.len());
                    assert(dstate0[l as int] == w@[l as int]);
                }
                assert(cl == l);
            }
            // Emit the pops that shrink the buffer to that prefix.
            if !skip_pop {
                proof {
                    assert(dstate0.take(l + need) =~= dstate0);
                }
                while need > 7
                    invariant
                        l <= dstate0.len(),
                        need <= dstate0.len() - l,
                        need0 == dstate0.len() - l,
                        state@ == dstate0,
                        pend ==> state@.len() > 0,
                        forall|k: int| 0 <= k < l ==> dstate0[k] == w@[k],
                        (pend && need == dstate0.len() - l) || (!pend && need >= 1),
                        bits_ws + chain_bits(need0 as nat) == bits@ + chain_bits(need as nat),
                        forall|rest: Seq<bool>| #[trigger] spec_decode(
                            bits@ + rest,
                            Seq::empty(),
                            false,
                        ) == decode_cont(
                            rest,
                            dstate0.take(l + need),
                            pend,
                            if pend { done } else { done.push(dstate0) },
                        ),
                    decreases need,
                {
                    let ghost bits0 = bits@;
                    let ghost pend0 = pend;
                    push_pop_bits(&mut bits, 7);
                    proof {
                        lemma_cont_pop(
                            bits0,
                            dstate0.take(l + need),
                            pend0,
                            if pend0 { done } else { done.push(dstate0) },
                            7,
                        );
                        assert(pop_n(dstate0.take(l + need), 7) =~= dstate0.take(l + need - 7));
                        if pend0 {
                            assert(dstate0.take(l + need) =~= dstate0);
                        }
                        pend = false;
                        assert(chain_bits(need as nat) == pop_bits(7) + chain_bits(
                            (need - 7) as nat,
                        ));
                        assert(bits_ws + chain_bits(need0 as nat) == (bits0 + pop_bits(7))
                            + chain_bits((need - 7) as nat)) by {
                            assert(bits0 + (pop_bits(7) + chain_bits((need - 7) as nat)) =~= (
                            bits0 + pop_bits(7)) + chain_bits((need - 7) as nat));
                        }
                    }
                    need -= 7;
                }
                let ghost bits0 = bits@;
                let ghost pend0 = pend;
                proof {
                    assert(need < 8);
                    assert(need == 0 ==> pend0);
                }
                push_pop_bits(&mut bits, need as u8);
                proof {
                    lemma_cont_pop(
                        bits0,
                        dstate0.take(l + need),
                        pend0,
                        if pend0 { done } else { done.push(dstate0) },
                        need as u8,
                    );
                    assert(pop_n(dstate0.take(l + need), need as nat) =~= dstate0.take(l as int));
                    if pend0 {
                        assert(dstate0.take(l + need) =~= dstate0);
                    }
                    done = done.push(dstate0);
                    pend = false;
                    assert(chain_bits(need as nat) == pop_bits(need as u8));
                    assert(bits@ == bits_ws + chain_bits(need0 as nat));
                }
            }
            state.truncate(l);
            proof {
                assert(state@ =~= dstate0.take(l as int));
                if skip_pop {
                    assert(state@ =~= dstate0);
                }
            }
            // Push the new suffix.
            let ghost bits_ps = bits@;
            let mut j: usize = l;
            while j < w.len()
                invariant
                    crate::dict::valid_word(w@),
                    l <= j <= w@.len(),
                    state@ =~= w@.take(j as int),
                    forall|rest: Seq<bool>| #[trigger] spec_decode(
                        bits@ + rest,
                        Seq::empty(),
                        false,
                    ) == decode_cont(rest, state@, j > l || pend, done),
                    bits_ps + pushes_bits(w@.skip(l as int)) == bits@ + pushes_bits(
                        w@.skip(j as int),
                    ),
                decreases w@.len() - j,
            {
                let c = w[j];
                proof {
                    assert(crate::dict::is_lower(w@[j as int]));
                }
                let code = (c as u8) - 97;
                let ghost bits0 = bits@;
                let ghost pend0 = j > l || pend;
                push_code_bits(&mut bits, code);
                state.push(c);
                proof {
                    lemma_cont_push(bits0, w@.take(j as int), pend0, done, code);
                    assert(code_char(code as nat) == c) by {
                        assert(((97 + code) as u8) as char == c);
                    }
                    assert(w@.take(j + 1) =~= w@.take(j as int).push(c));
                    assert(pushes_bits(w@.skip(j as int)) == push_instr_bits(code) + pushes_bits(
                        w@.skip(j + 1),
                    )) by {
                        assert(w@.skip(j as int)[0] == w@[j as int]);
                        assert(w@.skip(j as int).len() > 0);
                        assert(w@.skip(j as int).skip(1) =~= w@.skip(j + 1));
                    }
                    assert(bits_ps + pushes_bits(w@.skip(l as int)) == (bits0 + push_instr_bits(
                        code,
                    )) + pushes_bits(w@.skip(j + 1))) by {
                        assert(bits0 + (push_instr_bits(code) + pushes_bits(w@.skip(j + 1))) =~= (
                        bits0 + push_instr_bits(code)) + pushes_bits(w@.skip(j + 1)));
                    }
                }
                j += 1;
            }
            proof {
                assert(state@ =~= w@);
                // The new word always extends the shared prefix: a word
                // equal to, or a prefix of, the previous word would not
                // sort strictly above it.
                if w@.len() == l {
                    if skip_pop {
                        assert(w@.len() >= 3);
                        assert(l == 0);
                        assert(false);
                    } else {
                        assert(i > 0 && sorted@[i - 1]@ == dstate0);
                        assert(lex_lt(dstate0, w@));
                        if l < dstate0.len() {
                            assert(w@.is_prefix_of(dstate0)) by {
                                assert(w@ =~= dstate0.subrange(0, l as int));
                            }
                            lemma_lex_prefix(w@, dstate0);
                            lemma_lex_trans(w@, dstate0, w@);
                            lemma_lex_irrefl(w@);
                            assert(false);
                        } else {
                            assert(dstate0 =~= w@);
                            lemma_lex_irrefl(w@);
                            assert(false);
                        }
                    }
                }
                pend = true;
                assert(i == 0 ==> done =~= ws.take(0));
                assert(i > 0 ==> done =~= ws.take(i as int)) by {
                    if i > 0 {
                        assert(ws.take(i - 1).push(dstate0) =~= ws.take(i as int)) by {
                            assert(ws[i - 1] == sorted@[i - 1]@);
                            assert(dstate0 == sorted@[i - 1]@);
                        }
                    }
                }
                assert(done =~= ws.take(i as int)) by {
                    if i == 0 {
                        assert(ws.take(0) =~= Seq::<Seq<char>>::empty());
                    }
                }
                // The bits emitted for this word are its front-coded form.
                assert(pushes_bits(w@.skip(w@.len() as int)) =~= Seq::<bool>::empty()) by {
                    assert(w@.skip(w@.len() as int) =~= Seq::<char>::empty());
                }
                assert(bits@ + Seq::<bool>::empty() =~= bits@);
                assert(bits@ == bits_ps + pushes_bits(w@.skip(l as int)));
                assert(bits@ == bits_ws + word_bits(dstate0, w@)) by {
                    assert(cpl(dstate0, w@) == l);
                    if skip_pop {
                        assert(bits_ps == bits_ws);
                        assert(word_bits(dstate0, w@) == Seq::<bool>::empty() + pushes_bits(
                            w@.skip(l as int),
                        ));
                        assert(Seq::<bool>::empty() + pushes_bits(w@.skip(l as int))
                            =~= pushes_bits(w@.skip(l as int)));
                    } else {
                        assert(bits_ps == bits_ws + chain_bits(need0 as nat));
                        assert(word_bits(dstate0, w@) == chain_bits(need0 as nat) + pushes_bits(
                            w@.skip(l as int),
                        ));
                        assert((bits_ws + chain_bits(need0 as nat)) + pushes_bits(
                            w@.skip(l as int),
                        ) =~= bits_ws + (chain_bits(need0 as nat) + pushes_bits(
                            w@.skip(l as int),
                        )));
                    }
                }
                // The whole-stream equation advances by one word.
                assert(stream_bits(ws, Seq::empty()) == bits@ + stream_bits(
                    ws.skip(i + 1),
                    state@,
                )) by {
                    assert(ws.skip(i as int)[0] == ws[i as int]);
                    assert(ws[i as int] == sorted@[i as int]@);
                    assert(ws.skip(i as int).len() > 0);
                    assert(stream_bits(ws.skip(i as int), dstate0) == word_bits(dstate0, w@)
                        + stream_bits(ws.skip(i as int).skip(1), w@));
                    assert(ws.skip(i as int).skip(1) =~= ws.skip(i + 1));
                    assert(bits_ws + (word_bits(dstate0, w@) + stream_bits(ws.skip(i + 1), w@))
                        =~= (bits_ws + word_bits(dstate0, w@)) + stream_bits(ws.skip(i + 1), w@));
                    assert(state@ =~= w@);
                }
            }
            i += 1;
        }
        // Terminate with a double zero-count pop.
        let ghost bits0 = bits@;
        let ghost pend0 = pend;
        let ghost done0 = done;
        let ghost dstate_fin = state@;
        push_pop_bits(&mut bits, 0);
        push_pop_bits(&mut bits, 0);
        proof {
            lemma_cont_end(bits0, dstate_fin, pend0, done0);
            assert(bits@ =~= (bits0 + pop_bits(0)) + pop_bits(0));
            assert(bits@ == stream_bits(ws, Seq::empty())) by {
                assert(ws.skip(sorted@.len() as int) =~= Seq::<Seq<char>>::empty());
                assert(stream_bits(Seq::<Seq<char>>::empty(), dstate_fin) == pop_bits(0)
                    + pop_bits(0));
                assert(bits0 + (pop_bits(0) + pop_bits(0)) =~= (bits0 + pop_bits(0)) + pop_bits(
                    0,
                ));
            }
        }
        let r = pack_bits(&bits);
        proof {
            let total = if pend0 { done0.push(dstate_fin) } else { done0 };
            assert(total =~= ws) by {
                if sorted@.len() == 0 {
                    assert(ws =~= Seq::<Seq<char>>::empty());
                } else {
                    assert(done0 =~= ws.take(sorted@.len() - 1));
                    assert(dstate_fin == sorted@[sorted@.len() - 1]@);
                    assert(ws.take(sorted@.len() - 1).push(ws[sorted@.len() - 1]) =~= ws);
                }
            }
            let pad = Seq::new(((8 - bits@.len() % 8) % 8) as nat, |k: int| false);
            assert(bits_of_bytes(r@) == bits@ + pad);
            assert(spec_decode(bits@ + pad, Seq::empty(), false) == Option::Some(total));
            assert(spec_decode(bits_of_bytes(r@), Seq::empty(), false) == Option::Some(ws));
            assert forall|extra: Seq<bool>| #[trigger] spec_decode(
                bits_of_bytes(r@) + extra,
                Seq::empty(),
                false,
            ) == Option::Some(ws) by {
                assert(bits_of_bytes(r@) + extra =~= bits@ + (pad + extra));
                assert(spec_decode(bits@ + (pad + extra), Seq::empty(), false) == Option::Some(
                    total,
                ));
            }
            assert forall|i2: int, j2: int| 0 <= i2 < j2 < ws.len() implies lex_lt(
                #[trigger] ws[i2],
                #[trigger] ws[j2],
            ) by {
                let vs = sorted@.map_values(|v: Vec<char>| v@);
                assert(vs[i2] == ws[i2] && vs[j2] == ws[j2]);
            }
            assert forall|i2: int, j2: int| 0 <= i2 < j2 < ws.len() implies ws[i2] != ws[j2] by {
                assert(lex_lt(ws[i2], ws[j2]));
                if ws[i2] == ws[j2] {
                    lemma_lex_irrefl(ws[i2]);
                }
            }
            lemma_rebuild(self@, ws);
            assert(bits_of_bytes(r@) == pad_zeros(stream_bits(ws, Seq::empty())));
            assert(packed_form(bits_of_bytes(r@), self@, ws));
        }
        r
    }
}

/// Append a pop tag and its 3-bit count, most significant bit first.
fn push_pop_bits(bits: &mut Vec<bool>, n: u8)
    requires
        n < 8,
    ensures
        final(bits)@ == old(bits)@ + pop_bits(n),
{
    bits.push(false);
    bits.push((n >> 2) & 1 == 1);
    bits.push((n >> 1) & 1 == 1);
    bits.push(n & 1 == 1);
    proof {
        assert(bits@ =~= old(bits)@ + pop_bits(n));
    }
}

/// Append a push tag and its 5-bit letter code, most significant first.
fn push_code_bits(bits: &mut Vec<bool>, code: u8)
    requires
        code < 32,
    ensures
        final(bits)@ == old(bits)@ + push_instr_bits(code),
{
    bits.push(true);
    bits.push((code >> 4) & 1 == 1);
    bits.push((code >> 3) & 1 == 1);
    bits.push((code >> 2) & 1 == 1);
    bits.push((code >> 1) & 1 == 1);
    bits.push(code & 1 == 1);
    proof {
        assert(bits@ =~= old(bits)@ + push_instr_bits(code));
    }
}

} // verus!
