//! The dictionary: a prefix tree over words.
//!
//! A word is accepted when it is at least three characters long and made of
//! ASCII letters only. Accepted words are lowercased; the stored value keeps
//! that lowercased spelling, while the tree path collapses every occurrence
//! of `"qu"` to the single letter `'q'`, so that one grid cell lettered `'q'`
//! stands for the traditional two-letter "Qu" tile.

use crate::grid::is_alpha;
use crate::trie::{trie_contents, Trie};
use vstd::prelude::*;

verus! {

/// True for the lowercase ASCII letters.
pub open spec fn is_lower(c: char) -> bool {
    'a' <= c && c <= 'z'
}

/// True for the uppercase ASCII letters.
pub open spec fn is_upper(c: char) -> bool {
    'A' <= c && c <= 'Z'
}

/// The ASCII-lowercased counterpart of a character.
pub open spec fn to_lower(c: char) -> char {
    if is_upper(c) {
        ((c as u8) + 32) as char
    } else {
        c
    }
}

/// A word, ASCII-lowercased character by character.
pub open spec fn lower_seq(w: Seq<char>) -> Seq<char> {
    w.map_values(|c: char| to_lower(c))
}

/// Whether `add` accepts a word: at least three characters, all of them
/// ASCII letters.
pub open spec fn accepted(w: Seq<char>) -> bool {
    w.len() >= 3 && forall|i: int| 0 <= i < w.len() ==> is_alpha(#[trigger] w[i])
}

/// A stored word: at least three characters, all lowercase ASCII letters.
pub open spec fn valid_word(w: Seq<char>) -> bool {
    w.len() >= 3 && forall|i: int| 0 <= i < w.len() ==> is_lower(#[trigger] w[i])
}

/// A word with every occurrence of `"qu"` collapsed to `'q'`, scanning
/// left to right.
pub open spec fn collapse(w: Seq<char>) -> Seq<char>
    decreases w.len(),
{
    if w.len() == 0 {
        Seq::empty()
    } else if w.len() >= 2 && w[0] == 'q' && w[1] == 'u' {
        seq!['q'] + collapse(w.skip(2))
    } else {
        seq![w[0]] + collapse(w.skip(1))
    }
}

/// What one `add` call does to the stored entries: nothing for a rejected
/// word; for an accepted one, the lowercased word is stored at its
/// collapsed path, replacing any previous entry there.
pub open spec fn spec_add(m: Map<Seq<char>, Seq<char>>, w: Seq<char>) -> Map<Seq<char>, Seq<char>> {
    if accepted(w) {
        m.insert(collapse(lower_seq(w)), lower_seq(w))
    } else {
        m
    }
}

/// What `extend` does: one `add` per word, in order.
pub open spec fn spec_extend(m: Map<Seq<char>, Seq<char>>, ws: Seq<Seq<char>>) -> Map<
    Seq<char>,
    Seq<char>,
>
    decreases ws.len(),
{
    if ws.len() == 0 {
        m
    } else {
        spec_extend(spec_add(m, ws[0]), ws.skip(1))
    }
}

/// Adding a word after a list of words is the same as adding it to the
/// result of the list.
pub proof fn lemma_spec_extend_push(m: Map<Seq<char>, Seq<char>>, ws: Seq<Seq<char>>, w: Seq<char>)
    ensures
        spec_extend(m, ws.push(w)) == spec_add(spec_extend(m, ws), w),
    decreases ws.len(),
{
    if ws.len() == 0 {
        assert(ws.push(w)[0] == w);
        assert(ws.push(w).skip(1) =~= Seq::<Seq<char>>::empty());
        assert(spec_extend(m, ws.push(w)) == spec_extend(spec_add(m, w), ws.push(w).skip(1)));
        assert(spec_extend(spec_add(m, w), Seq::<Seq<char>>::empty()) == spec_add(m, w));
        assert(spec_extend(m, ws) == m);
    } else {
        assert(ws.push(w)[0] == ws[0]);
        assert(ws.push(w).skip(1) =~= ws.skip(1).push(w));
        lemma_spec_extend_push(spec_add(m, ws[0]), ws.skip(1), w);
        assert(spec_extend(m, ws.push(w)) == spec_extend(
            spec_add(m, ws[0]),
            ws.skip(1).push(w),
        ));
        assert(spec_extend(m, ws) == spec_extend(spec_add(m, ws[0]), ws.skip(1)));
    }
}

/// Collapsing never lengthens a word and at most halves it: each step
/// keeps one character of the one or two it consumes.
pub proof fn lemma_collapse_len(w: Seq<char>)
    ensures
        collapse(w).len() <= w.len(),
        2 * collapse(w).len() >= w.len(),
    decreases w.len(),
{
    if w.len() == 0 {
    } else if w.len() >= 2 && w[0] == 'q' && w[1] == 'u' {
        lemma_collapse_len(w.skip(2));
    } else {
        lemma_collapse_len(w.skip(1));
    }
}

/// Adding the same word again changes nothing: insertion acts on the
/// word's collapsed path as a set operation, not an additive one.
pub proof fn lemma_add_idempotent(m: Map<Seq<char>, Seq<char>>, w: Seq<char>)
    ensures
        spec_add(spec_add(m, w), w) == spec_add(m, w),
{
    if accepted(w) {
        assert(spec_add(spec_add(m, w), w) =~= spec_add(m, w));
    }
}

/// An in-memory prefix tree over words, with an optional word value at
/// each node.
pub struct Dict {
    trie: Trie,
}

impl View for Dict {
    type V = Map<Seq<char>, Seq<char>>;

    closed spec fn view(&self) -> Self::V {
        trie_contents(self.trie)
    }
}

impl Dict {
    /// Every stored entry is a valid lowercase word sitting at its own
    /// collapsed path.
    pub open spec fn wf(&self) -> bool {
        forall|k: Seq<char>| #[trigger] self@.dom().contains(k)
            ==> valid_word(self@[k]) && collapse(self@[k]) == k
    }

    /// An empty dictionary.
    pub fn new() -> (d: Dict)
        ensures
            d@ == Map::<Seq<char>, Seq<char>>::empty(),
            d.wf(),
    {
        Dict { trie: Trie::new() }
    }

    /// Add a word to the dictionary.
    ///
    /// The word is accepted when it is at least 3 characters long and all
    /// its characters are ASCII letters; it is then lowercased and stored.
    /// Anything else is silently ignored.
    pub fn add(&mut self, word: &str)
        ensures
            final(self)@ == spec_add(old(self)@, word@),
            old(self).wf() ==> final(self).wf(),
    {
        let n = word.unicode_len();
        let mut cs: Vec<char> = Vec::new();
        let mut i: usize = 0;
        while i < n
            invariant
                n == word@.len(),
                i <= n,
                cs@ == word@.subrange(0, i as int),
            decreases n - i,
        {
            cs.push(word.get_char(i));
            proof {
                assert(cs@ =~= word@.subrange(0, i + 1));
            }
            i += 1;
        }
        proof {
            assert(cs@ =~= word@);
        }
        self.add_chars(&cs);
    }

    /// `add`, taking the word as its characters.
    pub fn add_chars(&mut self, word: &Vec<char>)
        ensures
            final(self)@ == spec_add(old(self)@, word@),
            old(self).wf() ==> final(self).wf(),
    {
        let n = word.len();
        if n < 3 {
            return ;
        }
        // Lowercase while checking that every character is a letter.
        let mut lw: Vec<char> = Vec::new();
        let mut i: usize = 0;
        while i < n
            invariant
                n == word@.len(),
                i <= n,
                lw@ == lower_seq(word@.subrange(0, i as int)),
                forall|j: int| 0 <= j < i ==> is_alpha(#[trigger] word@[j]),
            decreases n - i,
        {
            let c = word[i];
            if !crate::grid::is_alpha_exec(c) {
                return ;
            }
            lw.push(to_lower_exec(c));
            proof {
                assert(word@.subrange(0, i + 1).drop_last() =~= word@.subrange(0, i as int));
                assert(lower_seq(word@.subrange(0, i + 1)) =~= lower_seq(
                    word@.subrange(0, i as int),
                ).push(to_lower(word@[i as int])));
            }
            i += 1;
        }
        proof {
            assert(word@.subrange(0, n as int) =~= word@);
            assert(accepted(word@));
            assert(valid_word(lw@)) by {
                assert(forall|j: int| 0 <= j < lw@.len() ==> is_lower(#[trigger] lw@[j])) by {
                    assert(forall|j: int| 0 <= j < word@.len()
                        ==> is_alpha(#[trigger] word@[j]) && lw@[j] == to_lower(word@[j]));
                }
            }
        }
        // The tree path: the lowercased word with "qu" collapsed to "q".
        let mut path: Vec<char> = Vec::new();
        proof {
            assert(lw@.skip(0) =~= lw@);
            assert(Seq::<char>::empty() + collapse(lw@) =~= collapse(lw@));
        }
        let mut i: usize = 0;
        while i < lw.len()
            invariant
                i <= lw@.len(),
                collapse(lw@) == path@ + collapse(lw@.skip(i as int)),
            decreases lw@.len() - i,
        {
            let ghost pre = path@;
            if lw[i] == 'q' && i + 1 < lw.len() && lw[i + 1] == 'u' {
                path.push('q');
                proof {
                    let rest = lw@.skip(i as int);
                    assert(rest.len() >= 2 && rest[0] == 'q' && rest[1] == 'u');
                    assert(rest.skip(2) =~= lw@.skip(i + 2));
                    assert(collapse(rest) == seq!['q'] + collapse(lw@.skip(i + 2)));
                    assert(path@ =~= pre + seq!['q']);
                    assert(pre + (seq!['q'] + collapse(lw@.skip(i + 2))) =~= (pre + seq!['q'])
                        + collapse(lw@.skip(i + 2)));
                }
                i += 2;
            } else {
                path.push(lw[i]);
                proof {
                    let rest = lw@.skip(i as int);
                    assert(rest.len() >= 1 && rest[0] == lw@[i as int]);
                    assert(!(rest.len() >= 2 && rest[0] == 'q' && rest[1] == 'u'));
                    assert(rest.skip(1) =~= lw@.skip(i + 1));
                    assert(collapse(rest) == seq![lw@[i as int]] + collapse(lw@.skip(i + 1)));
                    assert(path@ =~= pre + seq![lw@[i as int]]);
                    assert(pre + (seq![lw@[i as int]] + collapse(lw@.skip(i + 1))) =~= (pre
                        + seq![lw@[i as int]]) + collapse(lw@.skip(i + 1)));
                }
                i += 1;
            }
        }
        proof {
            assert(lw@.skip(lw@.len() as int) =~= Seq::<char>::empty());
            assert(path@ + collapse(Seq::<char>::empty()) =~= path@);
        }
        let ghost lw_seq = lw@;
        self.trie.insert(&path, lw);
        proof {
            assert(collapse(lw_seq) == path@);
            if old(self).wf() {
                assert forall|k: Seq<char>| #[trigger] self@.dom().contains(k) implies valid_word(
                    self@[k],
                ) && collapse(self@[k]) == k by {
                    if k == path@ {
                        assert(self@[k] == lw_seq);
                    } else {
                        assert(old(self)@.dom().contains(k));
                    }
                }
            }
        }
    }

    /// Add every word of the list, in order.
    pub fn extend(&mut self, words: &Vec<String>)
        ensures
            final(self)@ == spec_extend(old(self)@, words@.map_values(|s: String| s@)),
            old(self).wf() ==> final(self).wf(),
    {
        let ghost ws = words@.map_values(|s: String| s@);
        proof {
            assert(ws.skip(0) =~= ws);
        }
        let mut i: usize = 0;
        while i < words.len()
            invariant
                i <= words@.len(),
                ws == words@.map_values(|s: String| s@),
                spec_extend(old(self)@, ws) == spec_extend(self@, ws.skip(i as int)),
                old(self).wf() ==> self.wf(),
            decreases words@.len() - i,
        {
            let ghost before = self@;
            self.add(words[i].as_str());
            proof {
                let rest = ws.skip(i as int);
                assert(rest.len() >= 1 && rest[0] == ws[i as int]);
                assert(spec_extend(before, rest) == spec_extend(
                    spec_add(before, ws[i as int]),
                    rest.skip(1),
                ));
                assert(rest.skip(1) =~= ws.skip(i + 1));
            }
            i += 1;
        }
        proof {
            assert(ws.skip(ws.len() as int) =~= Seq::<Seq<char>>::empty());
        }
    }

    /// Every stored word, each exactly once, in no particular order.
    pub fn words(&self) -> (r: Vec<String>)
        requires
            self.wf(),
        ensures
            forall|i: int| 0 <= i < r@.len() ==> self@.values().contains(#[trigger] r@[i]@),
            forall|w: Seq<char>| #[trigger] self@.values().contains(w)
                ==> exists|i: int| 0 <= i < r@.len() && #[trigger] r@[i]@ == w,
            forall|i: int, j: int| 0 <= i < j < r@.len() ==> r@[i]@ != r@[j]@,
    {
        let vecs = self.word_vecs();
        let mut r: Vec<String> = Vec::new();
        let mut i: usize = 0;
        while i < vecs.len()
            invariant
                i <= vecs@.len(),
                r@.len() == i,
                forall|j: int| 0 <= j < i ==> #[trigger] r@[j]@ == vecs@[j]@,
            decreases vecs@.len() - i,
        {
            r.push(chars_to_string(&vecs[i]));
            i += 1;
        }
        proof {
            assert forall|w: Seq<char>| #[trigger] self@.values().contains(w) implies exists|i: int|
                0 <= i < r@.len() && #[trigger] r@[i]@ == w by {
                let j = choose|j: int| 0 <= j < vecs@.len() && #[trigger] vecs@[j]@ == w;
                assert(r@[j]@ == w);
            }
        }
        r
    }

    /// Every stored word as its characters, each exactly once, in no
    /// particular order.
    pub(crate) fn word_vecs(&self) -> (r: Vec<Vec<char>>)
        requires
            self.wf(),
        ensures
            forall|i: int| 0 <= i < r@.len() ==> self@.values().contains(#[trigger] r@[i]@),
            forall|w: Seq<char>| #[trigger] self@.values().contains(w)
                ==> exists|i: int| 0 <= i < r@.len() && #[trigger] r@[i]@ == w,
            forall|i: int, j: int| 0 <= i < j < r@.len() ==> r@[i]@ != r@[j]@,
    {
        let pairs = self.trie.pairs();
        let mut r: Vec<Vec<char>> = Vec::new();
        let mut i: usize = 0;
        while i < pairs.len()
            invariant
                self.wf(),
                i <= pairs@.len(),
                r@.len() == i,
                forall|j: int| 0 <= j < pairs@.len()
                    ==> self@.dom().contains(#[trigger] pairs@[j].0@)
                        && pairs@[j].1@ == self@[pairs@[j].0@],
                forall|k: Seq<char>| #[trigger] self@.dom().contains(k)
                    ==> exists|j: int| 0 <= j < pairs@.len() && #[trigger] pairs@[j].0@ == k,
                forall|j1: int, j2: int| 0 <= j1 < j2 < pairs@.len()
                    ==> pairs@[j1].0@ != pairs@[j2].0@,
                forall|j: int| 0 <= j < i ==> #[trigger] r@[j]@ == pairs@[j].1@,
            decreases pairs@.len() - i,
        {
            r.push(clone_chars(&pairs[i].1));
            i += 1;
        }
        proof {
            assert forall|j: int| 0 <= j < r@.len() implies self@.values().contains(
                #[trigger] r@[j]@,
            ) by {
                assert(self@.contains_value(pairs@[j].1@)) by {
                    assert(self@.dom().contains(pairs@[j].0@));
                }
            }
            assert forall|w: Seq<char>| #[trigger] self@.values().contains(w) implies exists|i: int|
                0 <= i < r@.len() && #[trigger] r@[i]@ == w by {
                let k = choose|k: Seq<char>| #[trigger] self@.dom().contains(k) && self@[k] == w;
                let j = choose|j: int| 0 <= j < pairs@.len() && #[trigger] pairs@[j].0@ == k;
                assert(r@[j]@ == w);
            }
            assert forall|i: int, j: int| 0 <= i < j < r@.len() implies r@[i]@ != r@[j]@ by {
                if r@[i]@ == r@[j]@ {
                    // Equal values would sit at the same collapsed path.
                    assert(pairs@[i].0@ == collapse(self@[pairs@[i].0@]));
                    assert(pairs@[j].0@ == collapse(self@[pairs@[j].0@]));
                }
            }
        }
        r
    }
}

impl Dict {
    /// Whether the path is empty or some stored path starts with it.
    pub(crate) fn node_exists(&self, path: &Vec<char>) -> (r: bool)
        ensures
            r == (path@.len() == 0 || exists|k: Seq<char>|
                #[trigger] self@.dom().contains(k) && path@.is_prefix_of(k)),
    {
        proof {
            assert(self@ == trie_contents(self.trie));
        }
        self.trie.has_node_at(path)
    }

    /// The word stored at exactly the given path, if any.
    pub(crate) fn value_at(&self, path: &Vec<char>) -> (r: Option<Vec<char>>)
        ensures
            r is Some <==> self@.dom().contains(path@),
            r matches Some(w) ==> w@ == self@[path@],
    {
        self.trie.value_at(path)
    }

    /// Whether no stored path strictly extends the given characters.
    pub(crate) fn leaf_at(&self, path: &Vec<char>) -> (r: bool)
        ensures
            r == !(exists|k: Seq<char>|
                #[trigger] self@.dom().contains(k) && path@.is_prefix_of(k)
                    && k.len() > path@.len()),
    {
        proof {
            assert(self@ == trie_contents(self.trie));
        }
        self.trie.is_leaf_at(path)
    }
}

impl Default for Dict {
    /// An empty dictionary.
    fn default() -> (d: Dict)
        ensures
            d@ == Map::<Seq<char>, Seq<char>>::empty(),
            d.wf(),
    {
        Dict::new()
    }
}

/// Executable counterpart of `to_lower`.
fn to_lower_exec(c: char) -> (r: char)
    ensures
        r == to_lower(c),
{
    if 'A' <= c && c <= 'Z' {
        ((c as u8) + 32) as char
    } else {
        c
    }
}

/// A copy of a character vector.
pub(crate) fn clone_chars(v: &Vec<char>) -> (r: Vec<char>)
    ensures
        r@ == v@,
{
    let mut r: Vec<char> = Vec::new();
    let mut i: usize = 0;
    while i < v.len()
        invariant
            i <= v@.len(),
            r@ == v@.subrange(0, i as int),
        decreases v@.len() - i,
    {
        r.push(v[i]);
        proof {
            assert(r@ =~= v@.subrange(0, i + 1));
        }
        i += 1;
    }
    proof {
        assert(r@ =~= v@);
    }
    r
}

/// Relies on `Iterator::collect` for `String`: the string holds exactly
/// the given characters.
#[verifier::external_body]
pub(crate) fn chars_to_string(v: &Vec<char>) -> (s: String)
    ensures
        s@ == v@,
{
    v.iter().collect()
}

} // verus!
