//! Trusted interface to the prefix tree that backs the dictionary.
//!
//! The tree itself comes from the `sequence_trie` crate; Verus refuses that
//! type's declaration (its `TrieKey` bound), so it sits in the private field
//! of an opaque struct. Its observable content is modelled by
//! [`trie_contents`]: the finite map from each path that holds a stored word
//! down to that word. Every operation the dictionary and the grid search
//! need is a thin wrapper whose contract speaks over that map.
//!
//! `sequence_trie` documents one structural invariant that several of the
//! contracts below lean on: every leaf node holds a value, so every node of
//! the tree lies on the path of at least one stored entry.

use vstd::prelude::*;

verus! {

/// A prefix tree over characters whose nodes may hold a word.
#[verifier::external_body]
pub struct Trie {
    inner: sequence_trie::SequenceTrie<char, Vec<char>>,
}

/// The entries stored in a trie: each path with a value, mapped to the
/// word stored there.
pub uninterp spec fn trie_contents(t: Trie) -> Map<Seq<char>, Seq<char>>;

impl Trie {
    /// Relies on `SequenceTrie::new`: a fresh trie holds no entries.
    #[verifier::external_body]
    pub(crate) fn new() -> (t: Trie)
        ensures
            (trie_contents(t) == Map::<Seq<char>, Seq<char>>::empty()),
    {
        Trie { inner: sequence_trie::SequenceTrie::new() }
    }

    /// Relies on `SequenceTrie::insert_owned`: stores the value at the
    /// path, replacing any previous value there and touching no other
    /// entry.
    #[verifier::external_body]
    pub(crate) fn insert(&mut self, path: &Vec<char>, value: Vec<char>)
        ensures
            (trie_contents(*final(self)) == trie_contents(*old(self)).insert(path@, value@)),
    {
        self.inner.insert_owned(path.iter().cloned(), value);
    }

    /// Relies on `SequenceTrie::get`: returns the value stored at exactly
    /// the given path, if the path holds one.
    #[verifier::external_body]
    pub(crate) fn value_at(&self, path: &Vec<char>) -> (r: Option<Vec<char>>)
        ensures
            r is Some <==> trie_contents(*self).dom().contains(path@),
            r matches Some(w) ==> w@ == trie_contents(*self)[path@],
    {
        self.inner.get(path.iter()).cloned()
    }

    /// Relies on `SequenceTrie::get_node`, with the crate's leaf
    /// invariant: the root always exists, and a node exists for a
    /// non-empty path exactly when some stored entry starts with it.
    #[verifier::external_body]
    pub(crate) fn has_node_at(&self, path: &Vec<char>) -> (r: bool)
        ensures
            r == (path@.len() == 0 || exists|k: Seq<char>|
                #[trigger] trie_contents(*self).dom().contains(k) && path@.is_prefix_of(k)),
    {
        self.inner.get_node(path.iter()).is_some()
    }

    /// Relies on `SequenceTrie::get_node` and `SequenceTrie::is_leaf`,
    /// with the crate's leaf invariant: the node at the path has a
    /// descendant exactly when some stored entry strictly extends the
    /// path.
    #[verifier::external_body]
    pub(crate) fn is_leaf_at(&self, path: &Vec<char>) -> (r: bool)
        ensures
            r == !(exists|k: Seq<char>|
                #[trigger] trie_contents(*self).dom().contains(k) && path@.is_prefix_of(k)
                    && k.len() > path@.len()),
    {
        match self.inner.get_node(path.iter()) {
            Some(node) => node.is_leaf(),
            None => true,
        }
    }

    /// Relies on `SequenceTrie::iter`: yields every stored entry exactly
    /// once, in no particular order.
    #[verifier::external_body]
    pub(crate) fn pairs(&self) -> (r: Vec<(Vec<char>, Vec<char>)>)
        ensures
            forall|i: int| 0 <= i < r@.len()
                ==> trie_contents(*self).dom().contains(#[trigger] r@[i].0@)
                    && r@[i].1@ == trie_contents(*self)[r@[i].0@],
            forall|k: Seq<char>| #[trigger] trie_contents(*self).dom().contains(k)
                ==> exists|i: int| 0 <= i < r@.len() && #[trigger] r@[i].0@ == k,
            forall|i: int, j: int| 0 <= i < j < r@.len() ==> r@[i].0@ != r@[j].0@,
    {
        self.inner
            .iter()
            .map(|(k, v)| (k.into_iter().cloned().collect(), v.clone()))
            .collect()
    }
}

} // verus!
