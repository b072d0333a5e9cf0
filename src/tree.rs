use vstd::prelude::*;

use crate::format::TrieError;
use crate::trie::{lists, texts, with_prefix, Trie, TrieNode};

verus! {

/// A trie that never holds the empty key: storing the empty text does
/// nothing, and `search` never finds it.
pub struct TrieTree {
    inner: Trie,
}

impl View for TrieTree {
    type V = Set<Seq<char>>;

    closed spec fn view(&self) -> Set<Seq<char>> {
        self.inner@
    }
}

impl TrieTree {
    /// The root of the tree.
    pub closed spec fn root_node(self) -> TrieNode {
        self.inner.root_node()
    }

    /// The inner trie is well formed and lacks the empty key.
    pub closed spec fn wf(self) -> bool {
        self.inner.wf() && !self.inner@.contains(Seq::<char>::empty())
    }

    /// Makes an empty tree.
    pub fn new() -> (r: TrieTree)
        ensures
            r.wf(),
            r@ == Set::<Seq<char>>::empty(),
    {
        TrieTree { inner: Trie::new() }
    }

    /// Stores `item`, unless it is empty.
    pub fn insert(&mut self, item: &str)
        requires
            old(self).wf(),
            old(self)@.len() < usize::MAX,
        ensures
            final(self).wf(),
            final(self)@ == (if item@.len() == 0 { old(self)@ } else { old(self)@.insert(item@) }),
            item@.len() == 0 || old(self)@.contains(item@) ==> *final(self) == *old(self),
    {
        let cs = crate::trie::chars_of(item);
        if cs.len() == 0 {
            return;
        }
        self.inner.insert(item);
    }

    /// Removes the key `item`, if it is stored.
    pub fn remove(&mut self, item: &str)
        requires
            old(self).wf(),
        ensures
            final(self).wf(),
            final(self)@ == old(self)@.remove(item@),
    {
        self.inner.remove(item);
    }

    /// Removes every key that starts with `prefix`.
    pub fn remove_prefix(&mut self, prefix: &str)
        requires
            old(self).wf(),
        ensures
            final(self).wf(),
            final(self)@ == old(self)@.filter(|k: Seq<char>| !prefix@.is_prefix_of(k)),
    {
        self.inner.remove_prefix(prefix);
    }

    /// Whether `item` is a stored key; never true of the empty text.
    pub fn search(&self, item: &str) -> (r: bool)
        requires
            self.wf(),
        ensures
            r == self@.contains(item@),
            item@.len() == 0 ==> !r,
    {
        assert(self@ == self.inner@);
        assert(item@.len() == 0 ==> item@ =~= Seq::<char>::empty());
        self.inner.search(item)
    }

    /// Whether `prefix` is empty or starts some stored key.
    pub fn starts_with(&self, prefix: &str) -> (r: bool)
        requires
            self.wf(),
        ensures
            r == (prefix@.len() == 0 || exists|k: Seq<char>| #[trigger] self@.contains(k) && prefix@.is_prefix_of(k)),
    {
        assert(self@ == self.inner@);
        self.inner.search_prefix(prefix)
    }

    /// Every stored key that starts with `prefix`, in dictionary order.
    pub fn find_all(&self, prefix: &str) -> (r: Vec<String>)
        requires
            self.wf(),
        ensures
            lists(texts(r@), with_prefix(self@, prefix@)),
    {
        self.inner.find_all_prefix(prefix)
    }

    /// Every stored key, in dictionary order.
    pub fn get_all_words(&self) -> (r: Vec<String>)
        requires
            self.wf(),
        ensures
            lists(texts(r@), self@),
    {
        self.inner.find_all()
    }

    /// Removes every key.
    pub fn clear(&mut self)
        ensures
            final(self).wf(),
            final(self)@ == Set::<Seq<char>>::empty(),
    {
        self.inner.clear();
    }

    /// The root of the tree.
    pub fn root(&self) -> (r: &TrieNode)
        ensures
            *r == self.root_node(),
            r.keys() == self@,
            self.wf() ==> r.wf() && r.keys().finite() && r.keys().len() <= usize::MAX
                && !r.keys().contains(Seq::<char>::empty()),
    {
        proof {
            if self.wf() {
                crate::trie::lemma_root_restores(self.inner);
            }
        }
        self.inner.root()
    }

    /// Takes a tree built elsewhere; fails with `Malformed` where
    /// `Trie::from_root` does, or where the root ends the empty key.
    pub fn from_root(root: TrieNode) -> (r: Result<TrieTree, TrieError>)
        ensures
            r is Ok <==> (root.wf() && root.keys().finite() && root.keys().len() <= usize::MAX
                && !root.keys().contains(Seq::<char>::empty())),
            r matches Ok(t) ==> t.wf() && t@ == root.keys(),
            r matches Err(e) ==> e == TrieError::Malformed,
    {
        proof {
            reveal_strlit("");
        }
        assert(""@ =~= Seq::<char>::empty());
        let ghost keys = root.keys();
        let inner = match Trie::from_root(root) {
            Ok(t) => t,
            Err(e) => {
                return Err(e);
            },
        };
        if inner.search("") {
            return Err(TrieError::Malformed);
        }
        let r = TrieTree { inner };
        assert(r@ == keys);
        Ok(r)
    }
}

/// The tree of a `TrieTree` is accepted back by `TrieTree::from_root`, with
/// the same keys: rebuilding a tree from what was saved gives the same keys.
pub proof fn lemma_tree_root_restores(t: TrieTree)
    requires
        t.wf(),
    ensures
        t.root_node().wf(),
        t.root_node().keys().finite(),
        t.root_node().keys().len() <= usize::MAX,
        !t.root_node().keys().contains(Seq::<char>::empty()),
        t.root_node().keys() == t@,
{
    crate::trie::lemma_root_restores(t.inner);
}

} // verus!
