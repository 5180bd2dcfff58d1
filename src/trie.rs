use vstd::prelude::*;
use vstd::std_specs::iter::IteratorSpec;

use crate::iter::{Iter, lemma_node_strings};
use crate::order::strictly_ascending;

verus! {

/// A node of a prefix tree. The root owns the whole tree; each edge is labelled
/// by one character, and `boundary` marks the nodes at which a stored string ends.
///
/// The children are kept in strictly ascending order of their labels, so that no
/// two children share a label and enumeration needs no sort.
pub struct Trie {
    pub(crate) children: Vec<(char, Trie)>,
    pub(crate) boundary: bool,
}

/// The labels of `ch` are strictly ascending (hence pairwise distinct).
pub(crate) open spec fn keys_ascending(ch: Seq<(char, Trie)>) -> bool {
    forall|i: int, j: int| 0 <= i < j < ch.len() ==> ch[i].0 < ch[j].0
}

impl Trie {
    /// A node that has a stored string at or below it.
    pub(crate) open spec fn live(self) -> bool {
        self.boundary || self.children@.len() > 0
    }

    /// Labels are ascending at every node, and every node below the root is live
    /// (nodes are only created while inserting a string through them).
    pub(crate) open spec fn wf(self) -> bool
        decreases self,
    {
        &&& keys_ascending(self.children@)
        &&& forall|i: int|
            #![trigger self.children@[i]]
            0 <= i < self.children@.len() ==> self.children@[i].1.live()
                && self.children@[i].1.wf()
    }

    /// `s` was stored in the tree rooted here.
    pub(crate) open spec fn has(self, s: Seq<char>) -> bool
        decreases s.len(),
    {
        if s.len() == 0 {
            self.boundary
        } else {
            exists|i: int|
                #![trigger self.children@[i]]
                0 <= i < self.children@.len() && self.children@[i].0 == s[0]
                    && self.children@[i].1.has(s.drop_first())
        }
    }

    /// A path spelling `s` leads down from this node.
    pub(crate) open spec fn has_path(self, s: Seq<char>) -> bool
        decreases s.len(),
    {
        if s.len() == 0 {
            true
        } else {
            exists|i: int|
                #![trigger self.children@[i]]
                0 <= i < self.children@.len() && self.children@[i].0 == s[0]
                    && self.children@[i].1.has_path(s.drop_first())
        }
    }

    /// The invariant every tree handed out by this library keeps.
    pub closed spec fn well_formed(&self) -> bool {
        self.wf()
    }
}

impl View for Trie {
    type V = Set<Seq<char>>;

    /// The set of stored strings.
    closed spec fn view(&self) -> Set<Seq<char>> {
        Set::new(|s: Seq<char>| self.has(s))
    }
}

/// `s` is a prefix of some string of `v`; the empty string counts as a prefix
/// even when `v` is empty.
pub open spec fn prefix_of_some(v: Set<Seq<char>>, s: Seq<char>) -> bool {
    s.len() == 0 || exists|t: Seq<char>| v.contains(t) && s.is_prefix_of(t)
}

/// A node with no children and no stored string stores nothing.
proof fn lemma_empty_node_has_nothing(n: Trie, s: Seq<char>)
    requires
        n.children@.len() == 0,
        !n.boundary,
    ensures
        !n.has(s),
{
}

/// A well-formed live node stores at least one string.
proof fn lemma_live_stores_some(n: Trie) -> (x: Seq<char>)
    requires
        n.wf(),
        n.live(),
    ensures
        n.has(x),
    decreases n,
{
    if n.boundary {
        Seq::empty()
    } else {
        let c = n.children@[0].0;
        let child = n.children@[0].1;
        assert(keys_ascending(n.children@));
        assert(child.live() && child.wf());
        let y = lemma_live_stores_some(child);
        let x = seq![c] + y;
        assert(x.drop_first() =~= y);
        assert(n.has(x));
        x
    }
}

/// Within a well-formed tree, a path exists exactly for the prefixes of stored
/// strings (and for the empty string).
proof fn lemma_path_iff_prefix(n: Trie, s: Seq<char>)
    requires
        n.wf(),
    ensures
        n.has_path(s) <==> (s.len() == 0 || exists|t: Seq<char>| n.has(t) && s.is_prefix_of(t)),
    decreases s.len(),
{
    if s.len() > 0 {
        let s1 = s.drop_first();
        if n.has_path(s) {
            let i = choose|i: int|
                #![trigger n.children@[i]]
                0 <= i < n.children@.len() && n.children@[i].0 == s[0]
                    && n.children@[i].1.has_path(s1);
            let child = n.children@[i].1;
            lemma_path_iff_prefix(child, s1);
            let t1 = if s1.len() == 0 {
                lemma_live_stores_some(child)
            } else {
                choose|t1: Seq<char>| child.has(t1) && s1.is_prefix_of(t1)
            };
            let t = seq![s[0]] + t1;
            assert(t.drop_first() =~= t1);
            assert(n.has(t));
            assert(s.is_prefix_of(t)) by {
                assert forall|j: int| 0 <= j < s.len() implies s[j] == t[j] by {
                    if j > 0 {
                        assert(s[j] == s1[j - 1]);
                    }
                }
            }
        }
        if exists|t: Seq<char>| n.has(t) && s.is_prefix_of(t) {
            let t = choose|t: Seq<char>| n.has(t) && s.is_prefix_of(t);
            let t1 = t.drop_first();
            let i = choose|i: int|
                #![trigger n.children@[i]]
                0 <= i < n.children@.len() && n.children@[i].0 == t[0]
                    && n.children@[i].1.has(t1);
            let child = n.children@[i].1;
            assert(s1.is_prefix_of(t1)) by {
                assert forall|j: int| 0 <= j < s1.len() implies s1[j] == t1[j] by {
                    assert(s[j + 1] == t[j + 1]);
                }
            }
            lemma_path_iff_prefix(child, s1);
            assert(n.has_path(s));
        }
    }
}

/// Position of the child labelled `c`, or, when there is none, the position
/// at which such a child would keep the labels ascending.
fn find_child(children: &Vec<(char, Trie)>, c: char) -> (r: Result<usize, usize>)
    requires
        keys_ascending(children@),
    ensures
        match r {
            Ok(k) => k < children@.len() && children@[k as int].0 == c,
            Err(k) => k <= children@.len()
                && (forall|j: int| 0 <= j < k ==> children@[j].0 < c)
                && (forall|j: int| k <= j < children@.len() ==> c < children@[j].0),
        },
{
    let mut k: usize = 0;
    while k < children.len()
        invariant
            k <= children@.len(),
            keys_ascending(children@),
            forall|j: int| 0 <= j < k ==> children@[j].0 < c,
        decreases children@.len() - k,
    {
        let key = children[k].0;
        if key == c {
            return Ok(k);
        }
        if c < key {
            assert forall|j: int| k <= j < children@.len() implies c < children@[j].0 by {
                if j > k {
                    assert(children@[k as int].0 < children@[j].0);
                }
            }
            return Err(k);
        }
        k += 1;
    }
    Err(k)
}

/// The characters of `s`, in order.
fn chars_of(s: &str) -> (r: Vec<char>)
    ensures
        r@ == s@,
{
    broadcast use {vstd::string::axiom_spec_iter, vstd::string::next_postcondition};
    let mut out: Vec<char> = Vec::new();
    let mut it = s.chars();
    loop
        invariant
            out@ + it.remaining() == s@,
            it.decrease() is Some,
        ensures
            out@ == s@,
        decreases it.decrease()->0,
    {
        let ghost before = it.remaining();
        match it.next() {
            Some(c) => {
                out.push(c);
                assert(out@ + it.remaining() =~= s@);
            },
            None => {
                assert(before.len() == 0);
                assert(out@ =~= s@);
                break ;
            },
        }
    }
    out
}

/// Walks from `root` along `s`. With `prefix` set, tells whether the walk
/// reaches the end of `s`, that is whether `s` is a prefix of a stored string;
/// otherwise whether `s` itself is stored.
pub fn lookup(root: &Trie, s: &Vec<char>, prefix: bool) -> (r: bool)
    requires
        root.well_formed(),
    ensures
        r == if prefix {
            prefix_of_some(root@, s@)
        } else {
            root@.contains(s@)
        },
{
    proof {
        lemma_path_iff_prefix(*root, s@);
        if exists|t: Seq<char>| root.has(t) && s@.is_prefix_of(t) {
            let t = choose|t: Seq<char>| root.has(t) && s@.is_prefix_of(t);
            assert(root@.contains(t));
        }
        if s@.len() > 0 && prefix_of_some(root@, s@) {
            let t = choose|t: Seq<char>| root@.contains(t) && s@.is_prefix_of(t);
            assert(root.has(t));
        }
        assert(root@.contains(s@) == root.has(s@));
    }
    let mut node = root;
    let mut i: usize = 0;
    assert(s@.skip(0) =~= s@);
    while i < s.len()
        invariant
            node.wf(),
            i <= s@.len(),
            root.has(s@) == node.has(s@.skip(i as int)),
            root.has_path(s@) == node.has_path(s@.skip(i as int)),
            root.has_path(s@) == prefix_of_some(root@, s@),
            root.has(s@) == root@.contains(s@),
        decreases s@.len() - i,
    {
        let c = s[i];
        let ghost t = s@.skip(i as int);
        assert(t.drop_first() =~= s@.skip(i + 1));
        match find_child(&node.children, c) {
            Ok(k) => {
                proof {
                    let child = node.children@[k as int].1;
                    if node.has(t) {
                        let j = choose|j: int|
                            #![trigger node.children@[j]]
                            0 <= j < node.children@.len() && node.children@[j].0 == t[0]
                                && node.children@[j].1.has(t.drop_first());
                        assert(j == k);
                    }
                    if node.has_path(t) {
                        let j = choose|j: int|
                            #![trigger node.children@[j]]
                            0 <= j < node.children@.len() && node.children@[j].0 == t[0]
                                && node.children@[j].1.has_path(t.drop_first());
                        assert(j == k);
                    }
                    assert(child.has(t.drop_first()) ==> node.has(t));
                    assert(child.has_path(t.drop_first()) ==> node.has_path(t));
                }
                node = &node.children[k].1;
                i += 1;
            },
            Err(_) => {
                return false;
            },
        }
    }
    assert(s@.skip(i as int).len() == 0);
    if prefix {
        true
    } else {
        node.boundary
    }
}

/// Stores `s@.skip(i)` in the tree rooted at `node`, creating the missing
/// nodes on the way down.
fn insert_from(node: &mut Trie, s: &Vec<char>, i: usize)
    requires
        old(node).wf(),
        i <= s@.len(),
    ensures
        final(node).wf(),
        final(node).live(),
        forall|t: Seq<char>|
            #![trigger final(node).has(t)]
            final(node).has(t) == (old(node).has(t) || t == s@.skip(i as int)),
    decreases s@.len() - i,
{
    let ghost before = *node;
    if i == s.len() {
        node.boundary = true;
        assert forall|t: Seq<char>| #![trigger node.has(t)]
            node.has(t) == (before.has(t) || t == s@.skip(i as int)) by {
            if t.len() > 0 {
                assert(t != s@.skip(i as int));
                assert(node.children == before.children);
                assert(node.has(t) == before.has(t));
            } else {
                assert(t =~= s@.skip(i as int));
            }
        }
        return ;
    }
    let c = s[i];
    let ghost rest = s@.skip(i + 1);
    assert(s@.skip(i as int) =~= seq![c] + rest);
    let k = match find_child(&node.children, c) {
        Ok(k) => k,
        Err(k) => {
            node.children.insert(k, (c, Trie::new()));
            k
        },
    };
    let ghost mid = *node;
    insert_from(&mut node.children[k].1, s, i + 1);
    let ghost child = mid.children@[k as int].1;
    assert(node.children@ =~= mid.children@.update(k as int, (c, node.children@[k as int].1)));
    assert(node.wf()) by {
        assert forall|j: int| #![trigger node.children@[j]] 0 <= j < node.children@.len() implies
            node.children@[j].1.live() && node.children@[j].1.wf() by {
            if j != k {
                assert(node.children@[j] == mid.children@[j]);
                if before.children@.len() < mid.children@.len() {
                    if j < k {
                        assert(mid.children@[j] == before.children@[j]);
                    } else {
                        assert(mid.children@[j] == before.children@[j - 1]);
                    }
                }
            }
        }
    }
    assert forall|t: Seq<char>| #![trigger node.has(t)]
        node.has(t) == (before.has(t) || t == s@.skip(i as int)) by {
        if t.len() > 0 {
            let t1 = t.drop_first();
            assert(t == s@.skip(i as int) <==> (t[0] == c && t1 == rest)) by {
                if t[0] == c && t1 == rest {
                    assert(t =~= seq![c] + rest);
                }
                if t == s@.skip(i as int) {
                    assert((seq![c] + rest).drop_first() =~= rest);
                }
            }
            if node.has(t) {
                let j = choose|j: int|
                    #![trigger node.children@[j]]
                    0 <= j < node.children@.len() && node.children@[j].0 == t[0]
                        && node.children@[j].1.has(t1);
                if j != k {
                    assert(node.children@[j] == mid.children@[j]);
                    if before.children@.len() < mid.children@.len() && j > k {
                        assert(mid.children@[j] == before.children@[j - 1]);
                    }
                    assert(before.has(t));
                } else if !(t1 == rest) {
                    if before.children@.len() < mid.children@.len() {
                        assert(!child@.contains(t1));
                    }
                    assert(before.has(t));
                }
            }
            if before.has(t) {
                let j = choose|j: int|
                    #![trigger before.children@[j]]
                    0 <= j < before.children@.len() && before.children@[j].0 == t[0]
                        && before.children@[j].1.has(t1);
                if before.children@.len() < mid.children@.len() {
                    if j < k {
                        assert(node.children@[j] == before.children@[j]);
                    } else {
                        assert(node.children@[j + 1] == before.children@[j]);
                    }
                } else if j != k {
                    assert(node.children@[j] == before.children@[j]);
                } else {
                    assert(node.children@[j].1.has(t1));
                }
                assert(node.has(t));
            }
            if t == s@.skip(i as int) {
                assert(node.children@[k as int].1.has(t1));
                assert(node.has(t));
            }
        }
    }
}

/// Stores the string spelled by `chars` in the tree rooted at `trie`.
pub fn insert(trie: &mut Trie, chars: &Vec<char>)
    requires
        old(trie).well_formed(),
    ensures
        final(trie).well_formed(),
        final(trie)@ == old(trie)@.insert(chars@),
{
    let ghost before = *trie;
    assert(chars@.skip(0) =~= chars@);
    insert_from(trie, chars, 0);
    assert(trie@ =~= before@.insert(chars@));
}

impl Trie {
    /// An empty tree: a root with no children that is not a boundary.
    pub fn new() -> (r: Trie)
        ensures
            r.well_formed(),
            r@ == Set::<Seq<char>>::empty(),
    {
        let r = Trie { children: Vec::new(), boundary: false };
        proof {
            assert forall|t: Seq<char>| !r.has(t) by {
                lemma_empty_node_has_nothing(r, t);
            }
            assert(r@ =~= Set::<Seq<char>>::empty());
        }
        r
    }

    /// Stores `string`. Inserting a string that is already stored changes nothing.
    pub fn insert(&mut self, string: &str)
        requires
            old(self).well_formed(),
        ensures
            final(self).well_formed(),
            final(self)@ == old(self)@.insert(string@),
    {
        let chars = chars_of(string);
        insert(self, &chars);
    }

    /// Whether `string` is a prefix of some stored string. The empty string is
    /// a prefix of everything, also in an empty tree.
    pub fn prefix(&self, string: &str) -> (r: bool)
        requires
            self.well_formed(),
        ensures
            r == prefix_of_some(self@, string@),
    {
        let chars = chars_of(string);
        lookup(self, &chars, true)
    }

    /// Whether `string` itself was stored.
    pub fn contains(&self, string: &str) -> (r: bool)
        requires
            self.well_formed(),
        ensures
            r == self@.contains(string@),
    {
        let chars = chars_of(string);
        lookup(self, &chars, false)
    }

    /// A fresh walk over the stored strings: each of them exactly once, in
    /// ascending order. Walks do not disturb the tree or one another.
    pub fn iter(&self) -> (r: Iter<'_>)
        requires
            self.well_formed(),
        ensures
            r.well_formed(),
            strictly_ascending(r@),
            r@.to_set() == self@,
    {
        let r = Iter::start(self);
        proof {
            lemma_node_strings(*self);
            assert(r@.to_set() =~= self@);
        }
        r
    }
}

} // verus!
