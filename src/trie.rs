use vstd::prelude::*;
use std::collections::BTreeMap;

verus! {

broadcast use {vstd::std_specs::btree::group_btree_axioms, vstd::laws_cmp::group_laws_cmp};

use crate::label::is_label;
use crate::format::TrieError;
use vstd::std_specs::btree::increasing_seq;
use vstd::std_specs::cmp::OrdSpec;

/// The keys of `keys` that start with `p`.
pub open spec fn with_prefix(keys: Set<Seq<char>>, p: Seq<char>) -> Set<Seq<char>> {
    keys.filter(|k: Seq<char>| p.is_prefix_of(k))
}

/// `a` comes strictly before `b` in dictionary order, characters being
/// compared by their scalar values.
pub open spec fn lex_lt(a: Seq<char>, b: Seq<char>) -> bool
    decreases a.len(),
{
    if a.len() == 0 {
        b.len() > 0
    } else if b.len() == 0 {
        false
    } else if a[0] == b[0] {
        lex_lt(a.drop_first(), b.drop_first())
    } else {
        (a[0] as u32) < (b[0] as u32)
    }
}

/// Each key comes strictly before the next one in dictionary order.
pub open spec fn sorted_keys(s: Seq<Seq<char>>) -> bool {
    forall|i: int, j: int| 0 <= i < j < s.len() ==> lex_lt(#[trigger] s[i], #[trigger] s[j])
}

/// The characters of each string of `v`.
pub open spec fn texts(v: Seq<String>) -> Seq<Seq<char>> {
    v.map_values(|s: String| s@)
}

/// `s` lists the set `keys` in dictionary order, each key once.
pub open spec fn lists(s: Seq<Seq<char>>, keys: Set<Seq<char>>) -> bool {
    sorted_keys(s) && s.to_set() == keys
}

/// Each key of `s` with `p` in front.
pub open spec fn prepend_all(s: Set<Seq<char>>, p: Seq<char>) -> Set<Seq<char>> {
    s.map(|t: Seq<char>| p + t)
}

/// Putting the same characters in front of two keys keeps their order.
pub proof fn lemma_lex_prefix(q: Seq<char>, a: Seq<char>, b: Seq<char>)
    ensures
        lex_lt(q + a, q + b) == lex_lt(a, b),
    decreases q.len(),
{
    if q.len() == 0 {
        assert(q + a =~= a);
        assert(q + b =~= b);
    } else {
        assert((q + a).drop_first() =~= q.drop_first() + a);
        assert((q + b).drop_first() =~= q.drop_first() + b);
        lemma_lex_prefix(q.drop_first(), a, b);
    }
}

/// Two sorted lists, every key of the first before every key of the
/// second, make a sorted list.
pub proof fn lemma_sorted_concat(a: Seq<Seq<char>>, b: Seq<Seq<char>>)
    requires
        sorted_keys(a),
        sorted_keys(b),
        forall|x: Seq<char>, y: Seq<char>| a.contains(x) && b.contains(y) ==> lex_lt(x, y),
    ensures
        sorted_keys(a + b),
{
    assert forall|i: int, j: int| 0 <= i < j < (a + b).len() implies lex_lt(#[trigger] (a + b)[i], #[trigger] (a + b)[j]) by {
        if j < a.len() {
            assert(lex_lt(a[i], a[j]));
        } else if i >= a.len() {
            assert(lex_lt(b[i - a.len()], b[j - a.len()]));
        } else {
            assert(a.contains(a[i]));
            assert(b.contains(b[j - a.len()]));
        }
    }
}

/// Taking one more entry of a list of keys adds that entry to the set of
/// those taken.
proof fn lemma_take_one_more(s: Seq<&u32>, j: int)
    requires
        0 <= j < s.len(),
    ensures
        s.take(j + 1).unref().to_set() == s.take(j).unref().to_set().insert(*s[j]),
{
    let before = s.take(j).unref();
    let after = s.take(j + 1).unref();
    assert(after =~= before.push(*s[j]));
    assert forall|x: u32| after.to_set().contains(x) <==> before.to_set().insert(*s[j]).contains(x) by {
        if after.contains(x) && x != *s[j] {
            let w = choose|w: int| 0 <= w < after.len() && after[w] == x;
            assert(before[w] == x);
        }
        if before.contains(x) {
            let w = choose|w: int| 0 <= w < before.len() && before[w] == x;
            assert(after[w] == x);
        }
        if x == *s[j] {
            assert(after[j] == x);
        }
    }
    assert(after.to_set() =~= before.to_set().insert(*s[j]));
}

/// Relies on `char::from_u32`: it gives the character whose scalar value
/// is `u`, when there is one.
#[verifier::external_body]
fn char_from_u32(u: u32) -> (r: Option<char>)
    ensures
        is_label(u) ==> r == Some(u as char),
        r matches Some(c) ==> c as u32 == u,
{
    char::from_u32(u)
}

/// Relies on `String`'s `FromIterator<char>`: the string holds the
/// characters in order.
#[verifier::external_body]
fn string_of(chars: &Vec<char>) -> (r: String)
    ensures
        r@ == chars@,
{
    chars.iter().collect()
}

/// One node of the tree: its outgoing edges, keyed by the scalar value of
/// their character, and whether a stored key ends here.
pub struct TrieNode {
    children: BTreeMap<u32, TrieNode>,
    terminal: bool,
}

impl TrieNode {
    pub closed spec fn is_word(self) -> bool {
        self.terminal
    }

    pub closed spec fn has_edge(self, c: char) -> bool {
        self.children@.contains_key(c as u32)
    }

    pub closed spec fn child(self, c: char) -> TrieNode {
        self.children@[c as u32]
    }

    /// The key `k` ends at a terminal node below this one.
    pub closed spec fn has_key(self, k: Seq<char>) -> bool
        decreases k.len(),
    {
        if k.len() == 0 {
            self.terminal
        } else {
            self.has_edge(k[0]) && self.child(k[0]).has_key(k.drop_first())
        }
    }

    /// The set of keys stored below this node.
    pub closed spec fn keys(self) -> Set<Seq<char>> {
        Set::new(|k: Seq<char>| self.has_key(k))
    }

    /// The keys below this node that are empty or start with a character
    /// whose scalar value is in `seen`.
    pub closed spec fn keys_via(self, seen: Set<u32>) -> Set<Seq<char>> {
        Set::new(|k: Seq<char>| self.has_key(k) && (k.len() == 0 || seen.contains(k[0] as u32)))
    }

    /// The keys below this node that start with `c`.
    pub closed spec fn keys_through(self, c: char) -> Set<Seq<char>> {
        Set::new(|k: Seq<char>| self.has_key(k) && k.len() > 0 && k[0] == c)
    }

    /// The path `p` leads from this node to some node.
    pub closed spec fn has_path(self, p: Seq<char>) -> bool
        decreases p.len(),
    {
        p.len() == 0 || (self.has_edge(p[0]) && self.child(p[0]).has_path(p.drop_first()))
    }

    /// The node that the path `p` leads to.
    pub closed spec fn at(self, p: Seq<char>) -> TrieNode
        decreases p.len(),
    {
        if p.len() == 0 {
            self
        } else {
            self.child(p[0]).at(p.drop_first())
        }
    }

    /// No edge leaves this node.
    pub closed spec fn is_leaf(self) -> bool {
        self.children@.is_empty()
    }

    /// A node that holds a key or leads to one.
    pub closed spec fn live(self) -> bool {
        self.terminal || !self.children@.is_empty()
    }

    /// Every edge carries a character, and every node below this one is live
    /// and well formed: no childless node that ends no key remains.
    pub closed spec fn wf(self) -> bool
        decreases self,
    {
        forall|u: u32| #[trigger]
            self.children@.contains_key(u) ==> {
                &&& is_label(u)
                &&& self.children@[u].live()
                &&& self.children@[u].wf()
            }
    }

    /// Makes a node without children.
    pub fn new(is_word: bool) -> (r: TrieNode)
        ensures
            r.wf(),
            r.is_word() == is_word,
            r.keys() == (if is_word { set![Seq::<char>::empty()] } else { Set::<Seq<char>>::empty() }),
    {
        let r = TrieNode { children: BTreeMap::new(), terminal: is_word };
        assert(r.keys() =~= (if is_word { set![Seq::<char>::empty()] } else { Set::<Seq<char>>::empty() })) by {
            assert forall|k: Seq<char>| r.has_key(k) <==> (k =~= Seq::<char>::empty() && is_word) by {}
        }
        r
    }

    /// Whether a key ends at this node.
    pub fn is_terminal(&self) -> (r: bool)
        ensures
            r == self.is_word(),
    {
        self.terminal
    }

    /// The characters on the edges out of this node, in increasing order of
    /// scalar value.
    pub fn labels(&self) -> (r: Vec<char>)
        ensures
            forall|c: char| #[trigger] r@.contains(c) ==> self.has_edge(c),
            self.wf() ==> forall|c: char| #[trigger] self.has_edge(c) ==> r@.contains(c),
            forall|a: int, b: int| 0 <= a < b < r@.len() ==> (#[trigger] r@[a] as u32) < (#[trigger] r@[b] as u32),
            r@.no_duplicates(),
    {
        let mut r: Vec<char> = Vec::new();
        for u in it: self.children.keys()
            invariant
                it.seq().unref().to_set() == self.children@.dom(),
                increasing_seq(it.seq()),
                forall|a: int, b: int| 0 <= a < b < r@.len() ==> (#[trigger] r@[a] as u32) < (#[trigger] r@[b] as u32),
                it.index() < it.seq().len() ==> forall|a: int| 0 <= a < r@.len() ==> ((#[trigger] r@[a]) as u32) < *it.seq()[it.index() as int],
                forall|c: char| #[trigger] r@.contains(c) ==> self.has_edge(c),
                forall|w: int| 0 <= w < it.index() && is_label(*it.seq()[w]) ==> r@.contains(#[trigger] (*it.seq()[w]) as char),
                it.index() == it.seq().len() ==> forall|v: u32| self.children@.contains_key(v) && is_label(v) ==> r@.contains(#[trigger] (v as char)),
        {
            let ghost j = it.index() as int;
            assert(it.seq().unref().to_set().contains(*u)) by {
                assert(it.seq().unref()[j] == *u);
            }
            let ghost r0 = r@;
            match char_from_u32(*u) {
                Some(c) => {
                    proof {
                        crate::label::lemma_label(c);
                    }
                    r.push(c);
                    assert forall|a: int, b: int| 0 <= a < b < r@.len() implies (#[trigger] r@[a] as u32) < (#[trigger] r@[b] as u32) by {
                        if b == r0.len() {
                            assert(r0[a] == r@[a]);
                        } else {
                            assert(r0[a] == r@[a] && r0[b] == r@[b]);
                        }
                    }
                    assert forall|d: char| #[trigger] r@.contains(d) implies self.has_edge(d) by {
                        if d != c {
                            assert(r0.contains(d)) by {
                                let w = choose|w: int| 0 <= w < r@.len() && r@[w] == d;
                                assert(r0[w] == d);
                            }
                        }
                    }
                    assert forall|w: int| 0 <= w < j + 1 && is_label(*it.seq()[w]) implies r@.contains(#[trigger] (*it.seq()[w]) as char) by {
                        if w < j {
                            let x = (*it.seq()[w]) as char;
                            let v = choose|v: int| 0 <= v < r0.len() && r0[v] == x;
                            assert(r@[v] == x);
                        } else {
                            assert(r@[r0.len() as int] == c);
                        }
                    }
                },
                None => {},
            }
            assert forall|a: int| j + 1 < it.seq().len() && 0 <= a < r@.len() implies ((#[trigger] r@[a]) as u32) < *it.seq()[j + 1] by {
                assert(vstd::laws_cmp::obeys_cmp::<&u32>());
                vstd::std_specs::btree::axiom_increasing_seq_meaning::<&u32>(it.seq());
                assert(<&u32 as OrdSpec>::cmp_spec(&it.seq()[j], &it.seq()[j + 1]) is Less);
                if a < r0.len() {
                    assert(r0[a] == r@[a]);
                }
            }
            assert forall|v: u32| j + 1 == it.seq().len() && self.children@.contains_key(v) && is_label(v) implies r@.contains(#[trigger] (v as char)) by {
                assert(it.seq().unref().to_set().contains(v));
                let w = choose|w: int| 0 <= w < it.seq().unref().len() && it.seq().unref()[w] == v;
                assert(*it.seq()[w] == v);
            }
        }
        proof {
            if self.wf() {
                assert forall|c: char| #[trigger] self.has_edge(c) implies r@.contains(c) by {
                    crate::label::lemma_label(c);
                    assert(self.children@.contains_key(c as u32));
                }
            }
            assert forall|a: int, b: int| 0 <= a < r@.len() && 0 <= b < r@.len() && a != b implies r@[a] != r@[b] by {
                if a < b {
                    assert((r@[a] as u32) < (r@[b] as u32));
                } else {
                    assert((r@[b] as u32) < (r@[a] as u32));
                }
            }
        }
        r
    }

    /// The node that the edge for `c` leads to, if there is one.
    pub fn get_child(&self, c: char) -> (r: Option<&TrieNode>)
        ensures
            r is Some == self.has_edge(c),
            r matches Some(n) ==> *n == self.child(c),
    {
        self.children.get(&(c as u32))
    }

    /// Makes `child` the node that the edge for `c` leads to.
    pub fn set_child(&mut self, c: char, child: TrieNode)
        ensures
            final(self).is_word() == old(self).is_word(),
            final(self).has_edge(c),
            final(self).child(c) == child,
            forall|d: char| d != c ==> (#[trigger] final(self).has_edge(d) == old(self).has_edge(d)
                && (final(self).has_edge(d) ==> final(self).child(d) == old(self).child(d))),
    {
        self.children.insert(c as u32, child);
        proof {
            crate::label::lemma_label(c);
        }
        assert forall|d: char| d != c implies #[trigger] self.has_edge(d) == old(self).has_edge(d)
            && (self.has_edge(d) ==> self.child(d) == old(self).child(d)) by {
            crate::label::lemma_label(d);
        }
    }

    /// Stores `text` below this node; gives 1 if it was new, else 0.
    pub fn insert(&mut self, text: &str) -> (r: usize)
        requires
            old(self).wf(),
        ensures
            final(self).wf(),
            final(self).keys() == old(self).keys().insert(text@),
            r == (if old(self).keys().contains(text@) { 0usize } else { 1usize }),
    {
        let key = chars_of(text);
        assert(key@.skip(0) =~= key@);
        if self.insert_at(&key, 0) {
            1
        } else {
            0
        }
    }

    /// Removes `text` from the keys below this node, dropping the edges that
    /// no longer lead to a key; gives 1 if it was stored, else 0.
    pub fn remove(&mut self, text: &str) -> (r: usize)
        requires
            old(self).wf(),
        ensures
            final(self).wf(),
            final(self).keys() == old(self).keys().remove(text@),
            r == (if old(self).keys().contains(text@) { 1usize } else { 0usize }),
    {
        if !self.search(text) {
            assert(self.keys().remove(text@) =~= self.keys());
            return 0;
        }
        let key = chars_of(text);
        assert(key@.skip(0) =~= key@);
        self.remove_at(&key, 0);
        1
    }

    /// Whether `text` is a key stored below this node.
    pub fn search(&self, text: &str) -> (r: bool)
        ensures
            r == self.keys().contains(text@),
    {
        let key = chars_of(text);
        assert(key@.skip(0) =~= key@);
        proof {
            self.lemma_key_concat(key@, Seq::empty());
            assert(key@ + Seq::<char>::empty() =~= key@);
        }
        match self.find(&key, 0) {
            None => false,
            Some(n) => n.terminal,
        }
    }

    /// Whether the characters of `text` form a path from this node.
    pub fn search_prefix(&self, text: &str) -> (r: bool)
        ensures
            r == self.has_path(text@),
    {
        let key = chars_of(text);
        assert(key@.skip(0) =~= key@);
        self.find(&key, 0).is_some()
    }

    /// The node that the characters `key[i..]` lead to, if any.
    fn find(&self, key: &Vec<char>, i: usize) -> (r: Option<&TrieNode>)
        requires
            i <= key.len(),
        ensures
            r is Some <==> self.has_path(key@.skip(i as int)),
            r matches Some(n) ==> *n == self.at(key@.skip(i as int)),
        decreases key.len() - i,
    {
        if i == key.len() {
            return Some(self);
        }
        let ghost p = key@.skip(i as int);
        assert(p.drop_first() =~= key@.skip(i + 1));
        let c = key[i];
        match self.children.get(&(c as u32)) {
            None => None,
            Some(child) => child.find(key, i + 1),
        }
    }

    /// Adds the key `key[i..]` below this node; says whether it was new.
    fn insert_at(&mut self, key: &Vec<char>, i: usize) -> (added: bool)
        requires
            i <= key.len(),
            old(self).wf(),
        ensures
            final(self).wf(),
            final(self).live(),
            final(self).keys() == old(self).keys().insert(key@.skip(i as int)),
            added == !old(self).keys().contains(key@.skip(i as int)),
        decreases key.len() - i,
    {
        let ghost pre = *self;
        let ghost p = key@.skip(i as int);
        if i == key.len() {
            let was = self.terminal;
            self.terminal = true;
            assert(self.keys() =~= pre.keys().insert(p)) by {
                assert forall|k: Seq<char>| #[trigger] self.has_key(k) == (pre.has_key(k) || k == p) by {
                    if k.len() == 0 {
                        assert(k =~= p);
                    }
                }
            }
            return !was;
        }
        let c = key[i];
        let u = c as u32;
        assert(p.drop_first() =~= key@.skip(i + 1));
        let mut child = match self.children.remove(&u) {
            Some(n) => n,
            None => TrieNode::new(false),
        };
        let ghost old_child = child;
        assert(old_child.keys() == if pre.has_edge(c) { pre.child(c).keys() } else { Set::empty() });
        let added = child.insert_at(key, i + 1);
        self.children.insert(u, child);
        proof { crate::label::lemma_label(c); }
        assert(is_label(u));
        assert(self.child(c) == child);
        assert forall|d: char| d != c implies self.has_edge(d) == pre.has_edge(d) && (self.has_edge(d) ==> self.child(d) == pre.child(d)) by {
            crate::label::lemma_label(d);
            assert(d as u32 != c as u32);
        }
        assert(self.keys() =~= pre.keys().insert(p)) by {
            assert forall|k: Seq<char>| #[trigger] self.has_key(k) == (pre.has_key(k) || k == p) by {
                if k.len() > 0 && k[0] == c {
                    assert(child.keys().contains(k.drop_first()) == child.has_key(k.drop_first()));
                    assert(old_child.keys().contains(k.drop_first()) == old_child.has_key(k.drop_first()));
                    if k == p {
                    } else {
                        assert(k.drop_first() != p.drop_first()) by {
                            if k.drop_first() == p.drop_first() {
                                assert(k =~= seq![k[0]] + k.drop_first());
                                assert(p =~= seq![p[0]] + p.drop_first());
                            }
                        }
                    }
                }
            }
        }
        assert(added == !pre.keys().contains(p)) by {
            assert(old_child.keys().contains(p.drop_first()) == old_child.has_key(p.drop_first()));
        }
        added
    }

    /// Whether this node holds a key or leads to one.
    fn is_live(&self) -> (r: bool)
        ensures
            r == self.live(),
    {
        self.terminal || !self.children.is_empty()
    }

    /// Removes the stored key `key[i..]`, then drops every edge on its path
    /// whose node no longer holds or leads to a key.
    fn remove_at(&mut self, key: &Vec<char>, i: usize)
        requires
            i <= key.len(),
            old(self).wf(),
            old(self).keys().contains(key@.skip(i as int)),
        ensures
            final(self).wf(),
            final(self).keys() == old(self).keys().remove(key@.skip(i as int)),
        decreases key.len() - i,
    {
        let ghost pre = *self;
        let ghost p = key@.skip(i as int);
        assert(pre.has_key(p));
        if i == key.len() {
            self.terminal = false;
            assert(self.keys() =~= pre.keys().remove(p)) by {
                assert forall|k: Seq<char>| #[trigger] self.has_key(k) == (pre.has_key(k) && k != p) by {
                    if k.len() == 0 {
                        assert(k =~= p);
                    }
                }
            }
            return;
        }
        let c = key[i];
        let u = c as u32;
        proof {
            crate::label::lemma_label(c);
        }
        assert(p.drop_first() =~= key@.skip(i + 1));
        let mut child = match self.children.remove(&u) {
            Some(n) => n,
            None => {
                return;
            },
        };
        let ghost old_child = child;
        assert(old_child.keys().contains(p.drop_first()));
        child.remove_at(key, i + 1);
        if child.is_live() {
            self.children.insert(u, child);
            assert(self.child(c) == child);
        } else {
            assert(child.keys() =~= Set::empty()) by {
                assert forall|k: Seq<char>| !child.has_key(k) by {}
            }
        }
        assert forall|d: char| d != c implies self.has_edge(d) == pre.has_edge(d) && (self.has_edge(
            d,
        ) ==> self.child(d) == pre.child(d)) by {
            crate::label::lemma_label(d);
        }
        assert(self.keys() =~= pre.keys().remove(p)) by {
            assert forall|k: Seq<char>| #[trigger] self.has_key(k) == (pre.has_key(k) && k != p) by {
                if k.len() > 0 && k[0] == c {
                    assert(child.keys().contains(k.drop_first()) == child.has_key(k.drop_first()));
                    assert(old_child.keys().contains(k.drop_first()) == old_child.has_key(
                        k.drop_first(),
                    ));
                    if k != p {
                        assert(k.drop_first() != p.drop_first()) by {
                            if k.drop_first() == p.drop_first() {
                                assert(k =~= seq![k[0]] + k.drop_first());
                                assert(p =~= seq![p[0]] + p.drop_first());
                            }
                        }
                    }
                }
            }
        }
    }

    /// Drops the whole subtree that the path `key[i..]` leads to, if there
    /// is one, then every edge on the path whose node no longer holds or
    /// leads to a key.
    fn cut_at(&mut self, key: &Vec<char>, i: usize)
        requires
            i < key.len(),
            old(self).wf(),
        ensures
            final(self).wf(),
            final(self).keys() == old(self).keys().filter(
                |k: Seq<char>| !key@.skip(i as int).is_prefix_of(k),
            ),
        decreases key.len() - i,
    {
        let ghost pre = *self;
        let ghost p = key@.skip(i as int);
        let c = key[i];
        let u = c as u32;
        proof {
            crate::label::lemma_label(c);
        }
        assert(p.drop_first() =~= key@.skip(i + 1));
        let mut child = match self.children.remove(&u) {
            Some(n) => n,
            None => {
                assert(self.keys() =~= pre.keys().filter(|k: Seq<char>| !p.is_prefix_of(k))) by {
                    assert forall|k: Seq<char>| #[trigger] self.has_key(k) implies !p.is_prefix_of(k) by {
                        if p.is_prefix_of(k) {
                            assert(k[0] == p[0]);
                        }
                    }
                }
                return;
            },
        };
        let ghost old_child = child;
        if i + 1 < key.len() {
            child.cut_at(key, i + 1);
            if child.is_live() {
                self.children.insert(u, child);
                assert(self.child(c) == child);
            } else {
                assert(child.keys() =~= Set::empty()) by {
                    assert forall|k: Seq<char>| !child.has_key(k) by {}
                }
            }
        }
        assert forall|d: char| d != c implies self.has_edge(d) == pre.has_edge(d) && (self.has_edge(
            d,
        ) ==> self.child(d) == pre.child(d)) by {
            crate::label::lemma_label(d);
        }
        assert(self.keys() =~= pre.keys().filter(|k: Seq<char>| !p.is_prefix_of(k))) by {
            assert forall|k: Seq<char>| #[trigger] self.has_key(k) == (pre.has_key(k) && !p.is_prefix_of(k)) by {
                if k.len() > 0 && k[0] == c {
                    let t = k.drop_first();
                    assert(p.is_prefix_of(k) == p.drop_first().is_prefix_of(t)) by {
                        if p.is_prefix_of(k) {
                            assert(p.drop_first() =~= t.subrange(0, p.len() - 1));
                        }
                        if p.drop_first().is_prefix_of(t) {
                            assert forall|j: int| 0 < j < p.len() implies p[j] == k[j] by {
                                assert(p[j] == p.drop_first()[j - 1]);
                                assert(p.drop_first()[j - 1] == t.subrange(0, p.len() - 1)[j - 1]);
                            }
                            assert(p =~= k.subrange(0, p.len() as int));
                        }
                    }
                    if i + 1 < key.len() {
                        assert(child.keys().contains(t) == child.has_key(t));
                        assert(old_child.keys().contains(t) == old_child.has_key(t));
                    } else {
                        assert(p.drop_first().len() == 0);
                        assert(p.drop_first().is_prefix_of(t));
                    }
                } else if k.len() > 0 {
                    assert(!p.is_prefix_of(k)) by {
                        if p.is_prefix_of(k) {
                            assert(k[0] == k.subrange(0, p.len() as int)[0]);
                        }
                    }
                }
            }
        }
    }

    /// The keys through one edge are those of its node, with the edge's
    /// character in front.
    proof fn lemma_through(self, c: char)
        requires
            self.has_edge(c),
            self.keys().finite() || self.child(c).keys().finite(),
        ensures
            self.keys_through(c) == self.child(c).keys().map(|t: Seq<char>| seq![c] + t),
            self.keys_through(c).subset_of(self.keys()),
            self.keys_through(c).finite(),
            self.child(c).keys().finite(),
            self.keys_through(c).len() == self.child(c).keys().len(),
            self.keys().finite() ==> self.keys_through(c).len() <= self.keys().len(),
    {
        let f = |t: Seq<char>| seq![c] + t;
        let g = |k: Seq<char>| k.drop_first();
        let ch = self.child(c);
        assert(self.keys_through(c) =~= ch.keys().map(f)) by {
            assert forall|k: Seq<char>| self.keys_through(c).contains(k) implies ch.keys().map(f).contains(k) by {
                assert(k =~= f(k.drop_first()));
                assert(ch.keys().contains(k.drop_first()));
            }
            assert forall|k: Seq<char>| ch.keys().map(f).contains(k) implies self.keys_through(c).contains(k) by {
                let t = choose|t: Seq<char>| ch.keys().contains(t) && f(t) == k;
                assert(k.drop_first() =~= t);
            }
        }
        if self.keys().finite() {
            vstd::set_lib::lemma_len_subset(self.keys_through(c), self.keys());
            assert(ch.keys() =~= self.keys_through(c).map(g)) by {
                assert forall|t: Seq<char>| ch.keys().contains(t) implies self.keys_through(c).map(g).contains(t) by {
                    assert(f(t).drop_first() =~= t);
                    assert(self.keys_through(c).contains(f(t)));
                }
            }
            self.keys_through(c).lemma_map_finite(g);
        }
        assert(vstd::relations::injective_on(f, ch.keys())) by {
            assert forall|a: Seq<char>, b: Seq<char>| ch.keys().contains(a) && ch.keys().contains(b) && #[trigger] f(a) == #[trigger] f(b) implies a == b by {
                assert(a =~= f(a).drop_first());
                assert(b =~= f(b).drop_first());
            }
        }
        vstd::set_lib::lemma_map_size(ch.keys(), self.keys_through(c), f);
    }

    /// Lists the keys below this node, each with `path` in front, in
    /// dictionary order.
    fn collect(&self, path: &mut Vec<char>) -> (r: Vec<String>)
        requires
            self.wf(),
        ensures
            final(path)@ == old(path)@,
            lists(texts(r@), prepend_all(self.keys(), old(path)@)),
        decreases self,
    {
        let ghost p0 = path@;
        let mut out: Vec<String> = Vec::new();
        if self.terminal {
            out.push(string_of(path));
        }
        let ghost mut seen: Set<u32> = Set::empty();
        assert(texts(out@).to_set() =~= prepend_all(self.keys_via(seen), p0)) by {
            assert forall|k: Seq<char>| #[trigger] prepend_all(self.keys_via(seen), p0).contains(k) implies texts(out@).to_set().contains(k) by {
                let t = choose|t: Seq<char>| self.keys_via(seen).contains(t) && p0 + t == k;
                assert(t =~= Seq::<char>::empty());
                assert(k =~= p0);
                assert(texts(out@)[0] == k);
            }
            assert forall|k: Seq<char>| texts(out@).to_set().contains(k) implies #[trigger] prepend_all(self.keys_via(seen), p0).contains(k) by {
                assert(self.keys_via(seen).contains(Seq::<char>::empty()));
                assert(p0 + Seq::<char>::empty() =~= k);
            }
        }
        for u in it: self.children.keys()
            invariant
                self.wf(),
                path@ == p0,
                it.seq().unref().to_set() == self.children@.dom(),
                it.seq().no_duplicates(),
                increasing_seq(it.seq()),
                seen == it.seq().take(it.index() as int).unref().to_set(),
                sorted_keys(texts(out@)),
                texts(out@).to_set() == prepend_all(self.keys_via(seen), p0),
                it.index() == it.seq().len() ==> seen == self.children@.dom(),
        {
            let ghost j = it.index() as int;
            assert(it.seq().unref().to_set().contains(*u)) by {
                assert(it.seq().unref()[j] == *u);
            }
            let child = match self.children.get(u) {
                Some(n) => n,
                None => {
                    return out;
                },
            };
            let c = match char_from_u32(*u) {
                Some(c) => c,
                None => {
                    return out;
                },
            };
            assert(*child == self.child(c));
            path.push(c);
            let mut sub = child.collect(path);
            let ghost q = path@;
            path.pop();
            assert(path@ =~= p0);
            proof {
                assert(q =~= p0 + seq![c]);
                let a = texts(out@);
                let b = texts(sub@);
                assert forall|x: Seq<char>, y: Seq<char>| a.contains(x) && b.contains(y) implies lex_lt(x, y) by {
                    assert(a.to_set().contains(x));
                    let t = choose|t: Seq<char>| self.keys_via(seen).contains(t) && p0 + t == x;
                    assert(b.to_set().contains(y));
                    let t2 = choose|t2: Seq<char>| child.keys().contains(t2) && q + t2 == y;
                    assert(y =~= p0 + (seq![c] + t2));
                    lemma_lex_prefix(p0, t, seq![c] + t2);
                    if t.len() > 0 {
                        crate::label::lemma_label(t[0]);
                        assert(seen.contains(t[0] as u32));
                        assert(it.seq().take(j).unref().contains(t[0] as u32));
                        let w = choose|w: int| 0 <= w < it.seq().take(j).unref().len() && it.seq().take(j).unref()[w] == t[0] as u32;
                        assert(it.seq().unref()[j] == *u);
                        assert(0 <= w < j < it.seq().len());
                        assert(vstd::laws_cmp::obeys_cmp::<&u32>());
                        vstd::std_specs::btree::axiom_increasing_seq_meaning::<&u32>(it.seq());
                        assert(<&u32 as OrdSpec>::cmp_spec(&it.seq()[w], &it.seq()[j]) is Less);
                        assert(*it.seq()[w] < *it.seq()[j]);
                    }
                }
                lemma_sorted_concat(a, b);
            }
            let ghost old_out = out@;
            let ghost old_sub = sub@;
            out.append(&mut sub);
            proof {
                assert(texts(out@) =~= texts(old_out) + texts(old_sub));
                let seen2 = seen.insert(*u);
                let lhs = prepend_all(self.keys_via(seen2), p0);
                let a = texts(old_out).to_set();
                let b = texts(old_sub).to_set();
                assert(lhs =~= texts(out@).to_set()) by {
                    assert forall|k: Seq<char>| lhs.contains(k) implies texts(out@).to_set().contains(k) by {
                        let t = choose|t: Seq<char>| self.keys_via(seen2).contains(t) && p0 + t == k;
                        if t.len() > 0 && t[0] as u32 == *u {
                            crate::label::lemma_label(t[0]);
                            assert(t[0] == c);
                            assert(child.keys().contains(t.drop_first()));
                            assert(k =~= q + t.drop_first());
                            assert(b.contains(k));
                            let w = choose|w: int| 0 <= w < texts(old_sub).len() && texts(old_sub)[w] == k;
                            assert(texts(out@)[texts(old_out).len() + w] == k);
                        } else {
                            assert(self.keys_via(seen).contains(t));
                            assert(a.contains(k));
                            let w = choose|w: int| 0 <= w < texts(old_out).len() && texts(old_out)[w] == k;
                            assert(texts(out@)[w] == k);
                        }
                    }
                    assert forall|k: Seq<char>| texts(out@).to_set().contains(k) implies lhs.contains(k) by {
                        let w = choose|w: int| 0 <= w < texts(out@).len() && texts(out@)[w] == k;
                        if w < texts(old_out).len() {
                            assert(a.contains(texts(old_out)[w]));
                            let t = choose|t: Seq<char>| self.keys_via(seen).contains(t) && p0 + t == k;
                            assert(self.keys_via(seen2).contains(t));
                        } else {
                            assert(b.contains(texts(old_sub)[w - texts(old_out).len()]));
                            let t2 = choose|t2: Seq<char>| child.keys().contains(t2) && q + t2 == k;
                            let t = seq![c] + t2;
                            assert(t.drop_first() =~= t2);
                            assert(k =~= p0 + t);
                            assert(self.keys_via(seen2).contains(t));
                        }
                    }
                }
                lemma_take_one_more(it.seq(), j);
                seen = seen2;
            }
            assert(j + 1 == it.seq().len() ==> it.seq().take(j + 1) =~= it.seq());
        }
        assert(self.keys_via(seen) =~= self.keys()) by {
            assert forall|k: Seq<char>| #[trigger] self.keys().contains(k) implies self.keys_via(seen).contains(k) by {
                if k.len() > 0 {
                    assert(self.children@.dom().contains(k[0] as u32));
                }
            }
        }
        out
    }

    /// Checks that every edge below this node carries a character and leads
    /// to a node that holds or leads to a key, and counts the keys; gives
    /// `None` when the check fails or the count does not fit in a `usize`.
    fn measure(&self) -> (r: Option<usize>)
        ensures
            r is Some <==> (self.wf() && self.keys().finite() && self.keys().len() <= usize::MAX),
            r matches Some(n) ==> n == self.keys().len(),
        decreases self,
    {
        let mut total: usize = if self.terminal { 1 } else { 0 };
        let ghost mut seen: Set<u32> = Set::empty();
        assert(self.keys_via(seen) =~= (if self.terminal { set![Seq::<char>::empty()] } else { Set::empty() })) by {
            assert forall|k: Seq<char>| #[trigger] self.keys_via(seen).contains(k) <==> (k =~= Seq::<char>::empty() && self.terminal) by {}
        }
        for u in it: self.children.keys()
            invariant
                it.seq().unref().to_set() == self.children@.dom(),
                it.seq().no_duplicates(),
                seen == it.seq().take(it.index() as int).unref().to_set(),
                forall|v: u32| #[trigger] seen.contains(v) ==> is_label(v) && self.children@[v].live()
                    && self.children@[v].wf(),
                self.keys_via(seen).finite(),
                total == self.keys_via(seen).len(),
                it.index() == it.seq().len() ==> seen == self.children@.dom(),
        {
            let ghost j = it.index() as int;
            assert(it.seq().unref().to_set().contains(*u)) by {
                assert(it.seq().unref()[j] == *u);
            }
            let child = match self.children.get(u) {
                Some(n) => n,
                None => {
                    return None;
                },
            };
            let c = match char_from_u32(*u) {
                Some(c) => c,
                None => {
                    return None;
                },
            };
            proof {
                crate::label::lemma_label(c);
            }
            assert(*child == self.child(c));
            if !child.is_live() {
                return None;
            }
            let x = match child.measure() {
                Some(x) => x,
                None => {
                    proof {
                        if self.keys().finite() {
                            self.lemma_through(c);
                        }
                    }
                    return None;
                },
            };
            proof {
                self.lemma_through(c);
                assert(!seen.contains(*u)) by {
                    if seen.contains(*u) {
                        let w = choose|w: int| 0 <= w < j && it.seq().take(j).unref()[w] == *u;
                        assert(it.seq()[w] == it.seq()[j]);
                    }
                }
                assert(self.keys_via(seen.insert(*u)) =~= self.keys_via(seen) + self.keys_through(c)) by {
                    assert forall|k: Seq<char>| #[trigger] self.keys_via(seen.insert(*u)).contains(k) <==> (self.keys_via(seen).contains(k) || self.keys_through(c).contains(k)) by {
                        if k.len() > 0 {
                            crate::label::lemma_label(k[0]);
                        }
                    }
                }
                assert(self.keys_via(seen).disjoint(self.keys_through(c))) by {
                    assert forall|k: Seq<char>| self.keys_through(c).contains(k) implies !self.keys_via(seen).contains(k) by {
                        crate::label::lemma_label(k[0]);
                    }
                }
                vstd::set_lib::lemma_set_disjoint_lens(self.keys_via(seen), self.keys_through(c));
                assert(self.keys_via(seen.insert(*u)).subset_of(self.keys()));
                if self.keys().finite() {
                    vstd::set_lib::lemma_len_subset(self.keys_via(seen.insert(*u)), self.keys());
                }
            }
            if x > usize::MAX - total {
                return None;
            }
            total = total + x;
            proof {
                lemma_take_one_more(it.seq(), j);
                seen = seen.insert(*u);
            }
            assert(j + 1 == it.seq().len() ==> it.seq().take(j + 1) =~= it.seq());
        }
        assert(self.keys_via(seen) =~= self.keys()) by {
            assert forall|k: Seq<char>| #[trigger] self.keys().contains(k) implies self.keys_via(seen).contains(k) by {
                if k.len() > 0 {
                    assert(self.children@.dom().contains(k[0] as u32));
                }
            }
        }
        Some(total)
    }

    /// Counts the keys below this node by walking all of it.
    fn size(&self) -> (r: usize)
        requires
            self.wf(),
            self.keys().finite(),
            self.keys().len() <= usize::MAX,
        ensures
            r == self.keys().len(),
        decreases self,
    {
        let mut total: usize = if self.terminal { 1 } else { 0 };
        let ghost mut seen: Set<u32> = Set::empty();
        assert(self.keys_via(seen) =~= (if self.terminal { set![Seq::<char>::empty()] } else { Set::empty() })) by {
            assert forall|k: Seq<char>| #[trigger] self.keys_via(seen).contains(k) <==> (k =~= Seq::<char>::empty() && self.terminal) by {}
        }
        for u in it: self.children.keys()
            invariant
                self.wf(),
                self.keys().finite(),
                self.keys().len() <= usize::MAX,
                it.seq().unref().to_set() == self.children@.dom(),
                it.seq().no_duplicates(),
                seen == it.seq().take(it.index() as int).unref().to_set(),
                self.keys_via(seen).finite(),
                total == self.keys_via(seen).len(),
                it.index() == it.seq().len() ==> seen == self.children@.dom(),
        {
            let ghost j = it.index() as int;
            assert(it.seq().unref().to_set().contains(*u)) by {
                assert(it.seq().unref()[j] == *u);
            }
            let child = match self.children.get(u) {
                Some(n) => n,
                None => {
                    return 0;
                },
            };
            let ghost c = (*u) as char;
            assert(c as u32 == *u);
            assert(*child == self.child(c));
            proof {
                self.lemma_through(c);
                assert(!seen.contains(*u)) by {
                    if seen.contains(*u) {
                        let w = choose|w: int| 0 <= w < j && it.seq().take(j).unref()[w] == *u;
                        assert(it.seq()[w] == it.seq()[j]);
                    }
                }
                assert(self.keys_via(seen.insert(*u)) =~= self.keys_via(seen) + self.keys_through(c)) by {
                    assert forall|k: Seq<char>| #[trigger] self.keys_via(seen.insert(*u)).contains(k) <==> (self.keys_via(seen).contains(k) || self.keys_through(c).contains(k)) by {
                        if k.len() > 0 {
                            crate::label::lemma_label(k[0]);
                        }
                    }
                }
                assert(self.keys_via(seen).disjoint(self.keys_through(c))) by {
                    assert forall|k: Seq<char>| self.keys_through(c).contains(k) implies !self.keys_via(seen).contains(k) by {
                        crate::label::lemma_label(k[0]);
                    }
                }
                vstd::set_lib::lemma_set_disjoint_lens(self.keys_via(seen), self.keys_through(c));
                assert(self.keys_via(seen.insert(*u)).subset_of(self.keys()));
                vstd::set_lib::lemma_len_subset(self.keys_via(seen.insert(*u)), self.keys());
            }
            let x = child.size();
            total = total + x;
            proof {
                lemma_take_one_more(it.seq(), j);
                seen = seen.insert(*u);
            }
            assert(j + 1 == it.seq().len() ==> it.seq().take(j + 1) =~= it.seq());
        }
        assert(self.keys_via(seen) =~= self.keys()) by {
            assert forall|k: Seq<char>| #[trigger] self.keys().contains(k) implies self.keys_via(seen).contains(k) by {
                if k.len() > 0 {
                    assert(self.children@.dom().contains(k[0] as u32));
                }
            }
        }
        total
    }

    /// A key below this node is a path followed by a key below the node
    /// that the path leads to.
    pub proof fn lemma_key_concat(self, p: Seq<char>, t: Seq<char>)
        ensures
            self.has_key(p + t) == (self.has_path(p) && self.at(p).has_key(t)),
        decreases p.len(),
    {
        if p.len() == 0 {
            assert(p + t =~= t);
        } else {
            assert((p + t).drop_first() =~= p.drop_first() + t);
            assert((p + t)[0] == p[0]);
            if self.has_edge(p[0]) {
                self.child(p[0]).lemma_key_concat(p.drop_first(), t);
            }
        }
    }

    /// The node at the end of a path from a well-formed node is well formed,
    /// and live unless the path is empty.
    pub proof fn lemma_at_wf(self, p: Seq<char>)
        requires
            self.wf(),
            self.has_path(p),
        ensures
            self.at(p).wf(),
            p.len() > 0 ==> self.at(p).live(),
        decreases p.len(),
    {
        if p.len() > 0 {
            assert(self.children@.contains_key(p[0] as u32));
            self.child(p[0]).lemma_at_wf(p.drop_first());
        }
    }

    /// A live, well-formed node holds some key.
    pub proof fn lemma_live_has_key(self)
        requires
            self.wf(),
            self.live(),
        ensures
            exists|t: Seq<char>| self.has_key(t),
        decreases self,
    {
        if !self.terminal {
            let u = choose|u: u32| self.children@.dom().contains(u);
            assert(self.children@.contains_key(u));
            let c = u as char;
            crate::label::lemma_label(c);
            assert(c as u32 == u);
            let ch = self.children@[u];
            ch.lemma_live_has_key();
            let t = choose|t: Seq<char>| ch.has_key(t);
            assert((seq![c] + t).drop_first() =~= t);
            assert(self.has_key(seq![c] + t));
        } else {
            assert(self.has_key(Seq::empty()));
        }
    }

    /// The keys that start with `p` are those below the node that `p` leads
    /// to, with `p` in front; there are as many.
    pub proof fn lemma_prefix_keys(self, p: Seq<char>)
        requires
            self.wf(),
            self.keys().finite(),
        ensures
            with_prefix(self.keys(), p).finite(),
            with_prefix(self.keys(), p).len() <= self.keys().len(),
            self.has_path(p) ==> self.at(p).keys().finite() && self.at(p).keys().len()
                == with_prefix(self.keys(), p).len(),
            (with_prefix(self.keys(), p).len() > 0) == (self.has_path(p) && (p.len() > 0
                || self.keys().len() > 0)),
            self.has_path(p) ==> with_prefix(self.keys(), p) == prepend_all(self.at(p).keys(), p),
    {
        let w = with_prefix(self.keys(), p);
        self.keys().lemma_len_filter(|k: Seq<char>| p.is_prefix_of(k));
        let f = |t: Seq<char>| p + t;
        let g = |k: Seq<char>| k.skip(p.len() as int);
        assert forall|k: Seq<char>| #[trigger] w.contains(k) implies k == f(g(k)) && self.has_path(p)
            && self.at(p).has_key(g(k)) by {
            assert(k =~= p + k.skip(p.len() as int));
            self.lemma_key_concat(p, g(k));
        }
        if self.has_path(p) {
            let a = self.at(p);
            assert(a.keys() =~= w.map(g)) by {
                assert forall|t: Seq<char>| a.keys().contains(t) implies w.map(g).contains(t) by {
                    self.lemma_key_concat(p, t);
                    assert(p.is_prefix_of(p + t)) by {
                        assert((p + t).subrange(0, p.len() as int) =~= p);
                    }
                    assert(g(f(t)) =~= t);
                    assert(w.contains(f(t)));
                }
            }
            w.lemma_map_finite(g);
            assert(w =~= a.keys().map(f)) by {
                assert forall|k: Seq<char>| w.contains(k) implies a.keys().map(f).contains(k) by {
                    assert(a.keys().contains(g(k)));
                }
                assert forall|k: Seq<char>| a.keys().map(f).contains(k) implies w.contains(k) by {
                    let t = choose|t: Seq<char>| a.keys().contains(t) && f(t) == k;
                    self.lemma_key_concat(p, t);
                    assert(k.subrange(0, p.len() as int) =~= p);
                }
            }
            assert(vstd::relations::injective_on(f, a.keys())) by {
                assert forall|x: Seq<char>, y: Seq<char>| a.keys().contains(x) && a.keys().contains(y)
                    && #[trigger] f(x) == #[trigger] f(y) implies x == y by {
                    assert(x =~= f(x).skip(p.len() as int));
                    assert(y =~= f(y).skip(p.len() as int));
                }
            }
            vstd::set_lib::lemma_map_size(a.keys(), w, f);
            assert(prepend_all(a.keys(), p) =~= w) by {
                assert forall|k: Seq<char>| prepend_all(a.keys(), p).contains(k) implies w.contains(k) by {
                    let t = choose|t: Seq<char>| a.keys().contains(t) && p + t == k;
                    assert(a.keys().map(f).contains(f(t)));
                }
                assert forall|k: Seq<char>| w.contains(k) implies prepend_all(a.keys(), p).contains(k) by {
                    assert(a.keys().contains(g(k)));
                    assert(k == p + g(k));
                }
            }
            self.lemma_at_wf(p);
            if p.len() > 0 {
                a.lemma_live_has_key();
                let t = choose|t: Seq<char>| a.has_key(t);
                assert(a.keys().contains(t));
                vstd::set_lib::lemma_set_empty_equivalency_len(a.keys());
            } else {
                assert(a == self);
                assert(w =~= self.keys()) by {
                    assert forall|k: Seq<char>| self.keys().contains(k) implies w.contains(k) by {
                        assert(k.subrange(0, 0) =~= p);
                    }
                }
            }
        } else {
            assert(w =~= Set::empty());
        }
    }
}


/// The characters of `s`, in order.
pub fn chars_of(s: &str) -> (r: Vec<char>)
    ensures
        r@ == s@,
{
    let mut r: Vec<char> = Vec::new();
    for c in it: s.chars()
        invariant
            it.seq() == s@,
            r@ == it.seq().take(it.index() as int),
    {
        assert(it.seq().take(it.index() + 1) =~= r@.push(c));
        r.push(c);
    }
    assert(s@.take(s@.len() as int) =~= s@);
    r
}

/// A set of distinct keys, each a sequence of characters, held as a prefix
/// tree together with the number of keys in it.
pub struct Trie {
    root: TrieNode,
    len: usize,
}

impl View for Trie {
    type V = Set<Seq<char>>;

    closed spec fn view(&self) -> Set<Seq<char>> {
        self.root.keys()
    }
}

impl Trie {
    /// The root of the tree.
    pub closed spec fn root_node(self) -> TrieNode {
        self.root
    }

    /// The tree holds no dead node and the count is the number of keys.
    pub closed spec fn wf(self) -> bool {
        &&& self.root.wf()
        &&& self.root.keys().finite()
        &&& self.len == self.root.keys().len()
    }

    /// Makes an empty trie.
    pub fn new() -> (r: Trie)
        ensures
            r.wf(),
            r@ == Set::<Seq<char>>::empty(),
    {
        let root = TrieNode::new(false);
        Trie { root, len: 0 }
    }

    /// The number of keys stored.
    pub fn len(&self) -> (r: usize)
        requires
            self.wf(),
        ensures
            r == self@.len(),
    {
        self.len
    }

    /// Whether `text` is a stored key.
    pub fn search(&self, text: &str) -> (r: bool)
        requires
            self.wf(),
        ensures
            r == self@.contains(text@),
    {
        let key = chars_of(text);
        assert(key@.skip(0) =~= key@);
        proof {
            self.root.lemma_key_concat(key@, Seq::empty());
            assert(key@ + Seq::<char>::empty() =~= key@);
        }
        match self.root.find(&key, 0) {
            None => false,
            Some(n) => n.terminal,
        }
    }

    /// Whether `prefix` is empty or starts some stored key.
    pub fn search_prefix(&self, prefix: &str) -> (r: bool)
        requires
            self.wf(),
        ensures
            r == (prefix@.len() == 0 || exists|k: Seq<char>| #[trigger] self@.contains(k) && prefix@.is_prefix_of(k)),
    {
        let key = chars_of(prefix);
        assert(key@.skip(0) =~= key@);
        proof {
            self.root.lemma_prefix_keys(key@);
            let w = with_prefix(self@, key@);
            if w.len() > 0 {
                vstd::set_lib::lemma_set_empty_equivalency_len(w);
                let k = choose|k: Seq<char>| w.contains(k);
                assert(self@.contains(k) && key@.is_prefix_of(k));
            }
            if exists|k: Seq<char>| #[trigger] self@.contains(k) && key@.is_prefix_of(k) {
                let k = choose|k: Seq<char>| #[trigger] self@.contains(k) && key@.is_prefix_of(k);
                assert(w.contains(k));
                vstd::set_lib::lemma_set_empty_equivalency_len(w);
            }
        }
        self.root.find(&key, 0).is_some()
    }

    /// The number of stored keys that start with `prefix`.
    pub fn prefix_count(&self, prefix: &str) -> (r: usize)
        requires
            self.wf(),
        ensures
            r == with_prefix(self@, prefix@).len(),
    {
        let key = chars_of(prefix);
        assert(key@.skip(0) =~= key@);
        proof {
            self.root.lemma_prefix_keys(key@);
            vstd::set_lib::lemma_set_empty_equivalency_len(with_prefix(self@, key@));
        }
        match self.root.find(&key, 0) {
            None => 0,
            Some(n) => {
                proof {
                    self.root.lemma_at_wf(key@);
                }
                n.size()
            },
        }
    }

    /// Stores `text`. Storing a key that is already there changes nothing.
    pub fn insert(&mut self, text: &str)
        requires
            old(self).wf(),
            old(self)@.len() < usize::MAX,
        ensures
            final(self).wf(),
            final(self)@ == old(self)@.insert(text@),
            old(self)@.contains(text@) ==> *final(self) == *old(self),
    {
        if self.search(text) {
            assert(self@.insert(text@) =~= self@);
            return;
        }
        let key = chars_of(text);
        assert(key@.skip(0) =~= key@);
        self.root.insert_at(&key, 0);
        self.len = self.len + 1;
    }

    /// Removes the key `text`; gives 1 if it was stored, else 0 and the
    /// trie is left as it was.
    pub fn remove(&mut self, text: &str) -> (r: usize)
        requires
            old(self).wf(),
        ensures
            final(self).wf(),
            final(self)@ == old(self)@.remove(text@),
            r == (if old(self)@.contains(text@) { 1usize } else { 0usize }),
            !old(self)@.contains(text@) ==> *final(self) == *old(self),
    {
        if !self.search(text) {
            assert(self@.remove(text@) =~= self@);
            return 0;
        }
        let key = chars_of(text);
        assert(key@.skip(0) =~= key@);
        self.root.remove_at(&key, 0);
        self.len = self.len - 1;
        1
    }

    /// Removes every key that starts with `prefix` and gives how many there
    /// were; when there were none the trie is left as it was.
    pub fn remove_prefix(&mut self, prefix: &str) -> (r: usize)
        requires
            old(self).wf(),
        ensures
            final(self).wf(),
            final(self)@ == old(self)@.filter(|k: Seq<char>| !prefix@.is_prefix_of(k)),
            r == with_prefix(old(self)@, prefix@).len(),
            r == 0 ==> *final(self) == *old(self),
    {
        let ghost pre = self@;
        let n = self.prefix_count(prefix);
        let ghost w = with_prefix(pre, prefix@);
        let ghost rest = pre.filter(|k: Seq<char>| !prefix@.is_prefix_of(k));
        proof {
            self.root.lemma_prefix_keys(prefix@);
            pre.lemma_len_filter(|k: Seq<char>| !prefix@.is_prefix_of(k));
            assert(w + rest =~= pre);
            assert(w.disjoint(rest));
            vstd::set_lib::lemma_set_disjoint_lens(w, rest);
        }
        if n == 0 {
            proof {
                vstd::set_lib::lemma_set_empty_equivalency_len(w);
            }
            assert(rest =~= pre) by {
                assert forall|k: Seq<char>| pre.contains(k) implies rest.contains(k) by {
                    assert(!w.contains(k));
                }
            }
            return 0;
        }
        let key = chars_of(prefix);
        if key.len() == 0 {
            self.clear();
            assert(rest =~= Set::empty()) by {
                assert forall|k: Seq<char>| !rest.contains(k) by {
                    assert(k.subrange(0, 0) =~= prefix@);
                }
            }
            return n;
        }
        assert(key@.skip(0) =~= key@);
        self.root.cut_at(&key, 0);
        self.len = self.len - n;
        n
    }

    /// The root of the tree.
    pub fn root(&self) -> (r: &TrieNode)
        ensures
            *r == self.root_node(),
            r.keys() == self@,
            self.wf() ==> r.wf(),
    {
        &self.root
    }

    /// Takes a tree built elsewhere as a trie, counting its keys. Fails with
    /// `Malformed` when an edge does not carry a character, or a node below
    /// the root neither ends a key nor leads to one, or the count does not
    /// fit in a `usize`.
    pub fn from_root(root: TrieNode) -> (r: Result<Trie, TrieError>)
        ensures
            r is Ok <==> (root.wf() && root.keys().finite() && root.keys().len() <= usize::MAX),
            r matches Ok(t) ==> t.wf() && t@ == root.keys(),
            r matches Err(e) ==> e == TrieError::Malformed,
    {
        match root.measure() {
            Some(n) => Ok(Trie { root, len: n }),
            None => Err(TrieError::Malformed),
        }
    }

    /// Like `from_root`, and fails with `CountMismatch` when the tree is
    /// well formed but does not hold `len` keys.
    pub fn from_parts(root: TrieNode, len: usize) -> (r: Result<Trie, TrieError>)
        ensures
            r is Ok <==> (root.wf() && root.keys().finite() && root.keys().len() == len),
            r matches Ok(t) ==> t.wf() && t@ == root.keys(),
            r matches Err(e) ==> (e == TrieError::Malformed <==> !(root.wf() && root.keys().finite()
                && root.keys().len() <= usize::MAX)),
            r matches Err(e) ==> (e == TrieError::Malformed || e == TrieError::CountMismatch),
    {
        let t = Trie::from_root(root)?;
        if t.len == len {
            Ok(t)
        } else {
            Err(TrieError::CountMismatch)
        }
    }

    /// Every stored key, in dictionary order.
    pub fn find_all(&self) -> (r: Vec<String>)
        requires
            self.wf(),
        ensures
            lists(texts(r@), self@),
    {
        let mut path: Vec<char> = Vec::new();
        let r = self.root.collect(&mut path);
        assert(prepend_all(self@, Seq::empty()) =~= self@) by {
            assert forall|k: Seq<char>| self@.contains(k) implies prepend_all(self@, Seq::empty()).contains(k) by {
                assert(Seq::<char>::empty() + k =~= k);
            }
            assert forall|k: Seq<char>| prepend_all(self@, Seq::empty()).contains(k) implies self@.contains(k) by {
                let t = choose|t: Seq<char>| self@.contains(t) && Seq::<char>::empty() + t == k;
                assert(Seq::<char>::empty() + t =~= t);
            }
        }
        r
    }

    /// Every stored key that starts with `prefix`, in dictionary order.
    pub fn find_all_prefix(&self, prefix: &str) -> (r: Vec<String>)
        requires
            self.wf(),
        ensures
            lists(texts(r@), with_prefix(self@, prefix@)),
    {
        let mut path = chars_of(prefix);
        assert(path@.skip(0) =~= path@);
        proof {
            self.root.lemma_prefix_keys(path@);
        }
        match self.root.find(&path, 0) {
            None => {
                let r: Vec<String> = Vec::new();
                proof {
                    vstd::set_lib::lemma_set_empty_equivalency_len(with_prefix(self@, prefix@));
                }
                assert(texts(r@).to_set() =~= with_prefix(self@, prefix@));
                r
            },
            Some(n) => {
                proof {
                    self.root.lemma_at_wf(path@);
                }
                n.collect(&mut path)
            },
        }
    }

    /// Removes every key.
    pub fn clear(&mut self)
        ensures
            final(self).wf(),
            final(self)@ == Set::<Seq<char>>::empty(),
    {
        self.root = TrieNode::new(false);
        self.len = 0;
    }
}


/// No key comes before itself.
pub proof fn lemma_lex_irreflexive(a: Seq<char>)
    ensures
        !lex_lt(a, a),
    decreases a.len(),
{
    if a.len() > 0 {
        lemma_lex_irreflexive(a.drop_first());
    }
}

/// A list of keys in dictionary order has as many entries as the set it
/// lists; so `prefix_count` equals the length of `find_all_prefix`, and
/// `len` the length of `find_all`.
pub proof fn lemma_listing_length(s: Seq<Seq<char>>, keys: Set<Seq<char>>)
    requires
        lists(s, keys),
    ensures
        s.len() == keys.len(),
        keys.finite(),
{
    assert(s.no_duplicates()) by {
        assert forall|i: int, j: int| 0 <= i < s.len() && 0 <= j < s.len() && i != j implies s[i] != s[j] by {
            lemma_lex_irreflexive(s[i]);
            if i < j {
                assert(lex_lt(s[i], s[j]));
            } else {
                assert(lex_lt(s[j], s[i]));
            }
        }
    }
    s.unique_seq_to_set();
}

/// After any sequence of operations, every node that the root leads to
/// and that has no children ends a key.
pub proof fn lemma_leaves_terminal(t: Trie, p: Seq<char>)
    requires
        t.wf(),
        p.len() > 0,
        t.root_node().has_path(p),
        t.root_node().at(p).is_leaf(),
    ensures
        t.root_node().at(p).is_word(),
{
    t.root.lemma_at_wf(p);
}

/// The tree of a trie is accepted back by `from_root`, and holds the same
/// keys: rebuilding a trie from what was saved gives the same keys and the
/// same count.
pub proof fn lemma_root_restores(t: Trie)
    requires
        t.wf(),
    ensures
        t.root_node().wf(),
        t.root_node().keys().finite(),
        t.root_node().keys().len() <= usize::MAX,
        t.root_node().keys() == t@,
        t.root_node().keys().len() == t@.len(),
{
}

} // verus!
