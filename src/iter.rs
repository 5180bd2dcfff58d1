use vstd::prelude::*;

use crate::order::{lex_lt, strictly_ascending, lemma_lex_prepend};
use crate::trie::{Trie, keys_ascending};

verus! {

/// `w` put in front of each string of `ss`.
pub(crate) open spec fn prefixed(w: Seq<char>, ss: Seq<Seq<char>>) -> Seq<Seq<char>> {
    ss.map_values(|t: Seq<char>| w + t)
}

/// The strings stored at and below `n`, relative to `n`, in ascending order.
pub(crate) open spec fn node_strings(n: Trie) -> Seq<Seq<char>>
    decreases n,
{
    let own = if n.boundary {
        seq![Seq::<char>::empty()]
    } else {
        Seq::<Seq<char>>::empty()
    };
    own + forest_strings(n.children@)
}

/// The strings stored below the edges `ch`, each led by its edge's label,
/// edge after edge.
pub(crate) open spec fn forest_strings(ch: Seq<(char, Trie)>) -> Seq<Seq<char>>
    decreases ch,
{
    if ch.len() == 0 {
        Seq::empty()
    } else {
        prefixed(seq![ch[0].0], node_strings(ch[0].1)) + forest_strings(ch.drop_first())
    }
}

/// The number of nodes below the edges `ch`.
pub(crate) open spec fn forest_size(ch: Seq<(char, Trie)>) -> nat
    decreases ch,
{
    if ch.len() == 0 {
        0
    } else {
        1 + forest_size(ch[0].1.children@) + forest_size(ch.drop_first())
    }
}

proof fn lemma_prefixed_add(w: Seq<char>, a: Seq<Seq<char>>, b: Seq<Seq<char>>)
    ensures
        prefixed(w, a + b) == prefixed(w, a) + prefixed(w, b),
{
    assert(prefixed(w, a + b) =~= prefixed(w, a) + prefixed(w, b));
}

proof fn lemma_prefixed_twice(w: Seq<char>, v: Seq<char>, a: Seq<Seq<char>>)
    ensures
        prefixed(w, prefixed(v, a)) == prefixed(w + v, a),
{
    assert forall|i: int| 0 <= i < a.len() implies prefixed(w, prefixed(v, a))[i] == prefixed(w + v, a)[i] by {
        assert(w + (v + a[i]) =~= (w + v) + a[i]);
    }
    assert(prefixed(w, prefixed(v, a)) =~= prefixed(w + v, a));
}

proof fn lemma_prefixed_nothing(a: Seq<Seq<char>>)
    ensures
        prefixed(Seq::empty(), a) == a,
{
    assert forall|i: int| 0 <= i < a.len() implies prefixed(Seq::empty(), a)[i] == a[i] by {
        assert(Seq::<char>::empty() + a[i] =~= a[i]);
    }
    assert(prefixed(Seq::empty(), a) =~= a);
}

/// Joining two ascending sequences, all of the first before all of the second,
/// gives an ascending sequence.
proof fn lemma_join_ascending(a: Seq<Seq<char>>, b: Seq<Seq<char>>)
    requires
        strictly_ascending(a),
        strictly_ascending(b),
        forall|x: Seq<char>, y: Seq<char>| a.contains(x) && b.contains(y) ==> lex_lt(x, y),
    ensures
        strictly_ascending(a + b),
{
    let s = a + b;
    assert forall|i: int, j: int| 0 <= i < j < s.len() implies lex_lt(#[trigger] s[i], #[trigger] s[j]) by {
        if j < a.len() {
            assert(s[i] == a[i] && s[j] == a[j]);
        } else if i >= a.len() {
            assert(s[i] == b[i - a.len()] && s[j] == b[j - a.len()]);
        } else {
            assert(s[i] == a[i] && s[j] == b[j - a.len()]);
            assert(a.contains(s[i]) && b.contains(s[j]));
        }
    }
}

/// The strings of a well-formed node are its stored strings, in ascending order.
pub(crate) proof fn lemma_node_strings(n: Trie)
    requires
        n.wf(),
    ensures
        strictly_ascending(node_strings(n)),
        forall|t: Seq<char>| #[trigger] node_strings(n).contains(t) == n.has(t),
    decreases n,
{
    let ch = n.children@;
    let e = if n.boundary {
        seq![Seq::<char>::empty()]
    } else {
        Seq::<Seq<char>>::empty()
    };
    let f = forest_strings(ch);
    lemma_forest_strings(ch);
    assert(node_strings(n) == e + f);
    lemma_join_ascending(e, f);
    assert forall|t: Seq<char>| #[trigger] node_strings(n).contains(t) == n.has(t) by {
        if node_strings(n).contains(t) {
            let i = choose|i: int| 0 <= i < node_strings(n).len() && node_strings(n)[i] == t;
            if i >= e.len() {
                assert(f.contains(t));
            }
        }
        if t.len() == 0 {
            if n.boundary {
                assert(t =~= Seq::<char>::empty());
                assert(node_strings(n)[0] == t);
            }
            assert(!f.contains(t));
        } else {
            if n.has(t) {
                assert(f.contains(t));
                let i = choose|i: int| 0 <= i < f.len() && f[i] == t;
                assert(node_strings(n)[i + e.len()] == t);
            }
            assert(!e.contains(t));
        }
    }
}

/// The strings below well-formed edges with ascending labels are ascending, and
/// they are those that start with a label and go on with a string stored
/// below that label's edge.
pub(crate) proof fn lemma_forest_strings(ch: Seq<(char, Trie)>)
    requires
        keys_ascending(ch),
        forall|i: int| #![trigger ch[i]] 0 <= i < ch.len() ==> ch[i].1.wf(),
    ensures
        strictly_ascending(forest_strings(ch)),
        forall|t: Seq<char>| #[trigger] forest_strings(ch).contains(t) == (t.len() > 0
            && exists|i: int| #![trigger ch[i]] 0 <= i < ch.len() && ch[i].0 == t[0] && ch[i].1.has(t.drop_first())),
    decreases ch,
{
    if ch.len() > 0 {
        let c = ch[0].0;
        let k = ch[0].1;
        let rest = ch.drop_first();
        lemma_node_strings(k);
        let nk = node_strings(k);
        let a = prefixed(seq![c], nk);
        assert(forall|i: int| #![trigger rest[i]] 0 <= i < rest.len() ==> rest[i] == ch[i + 1]);
        lemma_forest_strings(rest);
        let b = forest_strings(rest);
        assert(forest_strings(ch) == a + b);
        assert(strictly_ascending(a)) by {
            assert forall|i: int, j: int| 0 <= i < j < a.len() implies lex_lt(#[trigger] a[i], #[trigger] a[j]) by {
                lemma_lex_prepend(c, nk[i], nk[j]);
            }
        }
        assert forall|t: Seq<char>| #[trigger] a.contains(t) == (t.len() > 0 && t[0] == c && k.has(t.drop_first())) by {
            if a.contains(t) {
                let i = choose|i: int| 0 <= i < a.len() && a[i] == t;
                assert(a[i] == seq![c] + nk[i]);
                assert(t.drop_first() =~= nk[i]);
                assert(nk.contains(nk[i]));
            }
            if t.len() > 0 && t[0] == c && k.has(t.drop_first()) {
                assert(nk.contains(t.drop_first()));
                let i = choose|i: int| 0 <= i < nk.len() && nk[i] == t.drop_first();
                assert(a[i] =~= t);
            }
        }
        assert forall|x: Seq<char>, y: Seq<char>| a.contains(x) && b.contains(y) implies lex_lt(x, y) by {
            let i = choose|i: int| #![trigger rest[i]] 0 <= i < rest.len() && rest[i].0 == y[0] && rest[i].1.has(y.drop_first());
            assert(ch[0].0 < ch[i + 1].0);
        }
        lemma_join_ascending(a, b);
        assert forall|t: Seq<char>| #[trigger] forest_strings(ch).contains(t) == (t.len() > 0
            && exists|i: int| #![trigger ch[i]] 0 <= i < ch.len() && ch[i].0 == t[0] && ch[i].1.has(t.drop_first())) by {
            let s = a + b;
            if s.contains(t) {
                let i = choose|i: int| 0 <= i < s.len() && s[i] == t;
                if i < a.len() {
                    assert(a.contains(t));
                } else {
                    assert(b[i - a.len()] == t);
                    assert(b.contains(t));
                    let j = choose|j: int| #![trigger rest[j]] 0 <= j < rest.len() && rest[j].0 == t[0] && rest[j].1.has(t.drop_first());
                    assert(ch[j + 1] == rest[j]);
                }
            }
            if t.len() > 0 && exists|i: int| #![trigger ch[i]] 0 <= i < ch.len() && ch[i].0 == t[0] && ch[i].1.has(t.drop_first()) {
                let i = choose|i: int| #![trigger ch[i]] 0 <= i < ch.len() && ch[i].0 == t[0] && ch[i].1.has(t.drop_first());
                if i == 0 {
                    assert(a.contains(t));
                    let p = choose|p: int| 0 <= p < a.len() && a[p] == t;
                    assert(s[p] == t);
                } else {
                    assert(rest[i - 1] == ch[i]);
                    assert(b.contains(t));
                    let p = choose|p: int| 0 <= p < b.len() && b[p] == t;
                    assert(s[p + a.len()] == t);
                }
            }
        }
    }
}

/// One level of a walk down the tree: a node, the position of the next child
/// to descend into, and whether the node itself has been looked at.
#[derive(Clone, Copy)]
pub(crate) struct Frame<'a> {
    pub(crate) node: &'a Trie,
    pub(crate) next: usize,
    pub(crate) visited: bool,
}

/// What is left to report of frame `f`, whose node is reached by the word `w`.
pub(crate) open spec fn frame_strings<'a>(f: Frame<'a>, w: Seq<char>) -> Seq<Seq<char>> {
    let own = if !f.visited && f.node.boundary {
        seq![w]
    } else {
        Seq::<Seq<char>>::empty()
    };
    own + prefixed(w, forest_strings(f.node.children@.skip(f.next as int)))
}

/// What is left to report of a stack of frames, top frame first; the frame at
/// depth `i` is reached by the first `i` characters of `word`.
pub(crate) open spec fn pending<'a>(frames: Seq<Frame<'a>>, word: Seq<char>) -> Seq<Seq<char>>
    decreases frames.len(),
{
    if frames.len() == 0 {
        Seq::empty()
    } else {
        frame_strings(frames.last(), word.take(frames.len() - 1)) + pending(frames.drop_last(), word)
    }
}

/// An upper bound on the steps a walk still takes on frame `f`.
pub(crate) open spec fn frame_work<'a>(f: Frame<'a>) -> nat {
    (if f.visited {
        0nat
    } else {
        1nat
    }) + 1 + 3 * forest_size(f.node.children@.skip(f.next as int))
}

pub(crate) open spec fn work<'a>(frames: Seq<Frame<'a>>) -> nat
    decreases frames.len(),
{
    if frames.len() == 0 {
        0
    } else {
        frame_work(frames.last()) + work(frames.drop_last())
    }
}

/// The pending strings of a stack depend only on the characters of the word
/// that lead to its frames.
proof fn lemma_pending_word<'a>(frames: Seq<Frame<'a>>, w1: Seq<char>, w2: Seq<char>)
    requires
        frames.len() <= w1.len() + 1,
        frames.len() <= w2.len() + 1,
        frames.len() == 0 || w1.take(frames.len() - 1) == w2.take(frames.len() - 1),
    ensures
        pending(frames, w1) == pending(frames, w2),
    decreases frames.len(),
{
    if frames.len() > 0 {
        let n = frames.len() - 1;
        assert(pending(frames, w1) == frame_strings(frames.last(), w1.take(n)) + pending(frames.drop_last(), w1));
        assert(pending(frames, w2) == frame_strings(frames.last(), w2.take(n)) + pending(frames.drop_last(), w2));
    }
    if frames.len() > 1 {
        let n = frames.len() - 1;
        assert(w1.take(n - 1) =~= w1.take(n).take(n - 1));
        assert(w2.take(n - 1) =~= w2.take(n).take(n - 1));
        lemma_pending_word(frames.drop_last(), w1, w2);
    }
}

/// A walk over the strings of a tree in ascending order. The stack holds one
/// frame per node on the path from the root to the current node, and
/// `current_word` spells that path.
pub struct Iter<'a> {
    stack: Vec<Frame<'a>>,
    current_word: Vec<char>,
}

impl<'a> View for Iter<'a> {
    type V = Seq<Seq<char>>;

    /// The strings that the walk has still to report, in order.
    closed spec fn view(&self) -> Seq<Seq<char>> {
        pending(self.stack@, self.current_word@)
    }
}

/// Relies on std's `FromIterator<char>` for `String`: the string holds the
/// given characters, in order.
#[verifier::external_body]
fn string_of(chars: &Vec<char>) -> (r: String)
    ensures
        r@ == chars@,
{
    chars.iter().collect()
}

impl<'a> Iter<'a> {
    /// The stack and the word agree in depth, and no frame is past its node's
    /// last child.
    pub closed spec fn well_formed(&self) -> bool {
        &&& (self.stack@.len() == 0 && self.current_word@.len() == 0)
            || self.stack@.len() == self.current_word@.len() + 1
        &&& forall|i: int|
            #![trigger self.stack@[i]]
            0 <= i < self.stack@.len() ==> self.stack@[i].next <= self.stack@[i].node.children@.len()
    }

    /// A walk that starts at `root`.
    pub(crate) fn start(root: &'a Trie) -> (r: Iter<'a>)
        ensures
            r.well_formed(),
            r@ == node_strings(*root),
    {
        let mut stack: Vec<Frame<'a>> = Vec::new();
        stack.push(Frame { node: root, next: 0, visited: false });
        let r = Iter { stack, current_word: Vec::new() };
        proof {
            let f = r.stack@[0];
            assert(r.stack@.len() == 1);
            assert(r.stack@.last() == f);
            assert(pending(r.stack@.drop_last(), r.current_word@) == Seq::<Seq<char>>::empty());
            assert(pending(r.stack@, r.current_word@) == frame_strings(f, r.current_word@.take(0)) + pending(r.stack@.drop_last(), r.current_word@));
            assert(r.stack@.drop_last() =~= Seq::<Frame<'a>>::empty());
            assert(r.current_word@.take(0) =~= Seq::<char>::empty());
            assert(root.children@.skip(0) =~= root.children@);
            lemma_prefixed_nothing(forest_strings(root.children@));
            assert(frame_strings(f, Seq::empty()) =~= node_strings(*root));
            assert(r@ =~= node_strings(*root));
        }
        r
    }

    /// Reports the next string of the walk, or `None` once all have been
    /// reported.
    pub fn next(&mut self) -> (r: Option<String>)
        requires
            old(self).well_formed(),
        ensures
            final(self).well_formed(),
            match r {
                None => old(self)@.len() == 0 && final(self)@ == old(self)@,
                Some(s) => old(self)@.len() > 0 && s@ == old(self)@[0] && final(self)@ == old(
                    self,
                )@.drop_first(),
            },
    {
        let ghost start = self@;
        loop
            invariant
                self.well_formed(),
                self@ == start,
                start == old(self)@,
            decreases work(self.stack@),
        {
            let len = self.stack.len();
            if len == 0 {
                assert(self@ =~= Seq::<Seq<char>>::empty());
                return None;
            }
            let top = len - 1;
            let f = self.stack[top];
            let ghost stack0 = self.stack@;
            let ghost word0 = self.current_word@;
            let ghost lower = stack0.drop_last();
            assert(word0.take(top as int) =~= word0);
            if !f.visited {
                self.stack[top] = Frame { node: f.node, next: f.next, visited: true };
                proof {
                    assert(self.stack@.drop_last() =~= lower);
                    let rest = prefixed(word0, forest_strings(f.node.children@.skip(f.next as int)));
                    assert(frame_strings(self.stack@.last(), word0) =~= rest);
                    if f.node.boundary {
                        assert(start =~= seq![word0] + (rest + pending(lower, word0)));
                        assert(self@ =~= start.drop_first());
                    } else {
                        assert(self@ =~= start);
                    }
                }
                if f.node.boundary {
                    return Some(string_of(&self.current_word));
                }
            } else if f.next < f.node.children.len() {
                let c = f.node.children[f.next].0;
                let child: &'a Trie = &f.node.children[f.next].1;
                let g = Frame { node: f.node, next: f.next + 1, visited: true };
                let h = Frame { node: child, next: 0, visited: false };
                self.stack[top] = g;
                self.current_word.push(c);
                self.stack.push(h);
                proof {
                    let ch = f.node.children@;
                    let rest = ch.skip(f.next + 1);
                    let word1 = self.current_word@;
                    assert(ch.skip(f.next as int).drop_first() =~= rest);
                    assert(ch.skip(f.next as int)[0] == (c, *child));
                    assert(child.children@.skip(0) =~= child.children@);
                    // the pending strings
                    let e = if child.boundary {
                        seq![Seq::<char>::empty()]
                    } else {
                        Seq::<Seq<char>>::empty()
                    };
                    let fc = forest_strings(child.children@);
                    let wc = word0.push(c);
                    assert(word1 =~= wc);
                    lemma_prefixed_twice(word0, seq![c], node_strings(*child));
                    assert(word0 + seq![c] =~= wc);
                    lemma_prefixed_add(wc, e, fc);
                    assert(prefixed(wc, e) =~= (if child.boundary {
                        seq![wc]
                    } else {
                        Seq::<Seq<char>>::empty()
                    }));
                    lemma_prefixed_add(word0, prefixed(seq![c], node_strings(*child)), forest_strings(rest));
                    assert(frame_strings(f, word0) =~= prefixed(wc, node_strings(*child))
                        + prefixed(word0, forest_strings(rest)));
                    assert(frame_strings(h, wc) =~= prefixed(wc, node_strings(*child)));
                    assert(frame_strings(g, word0) =~= prefixed(word0, forest_strings(rest)));
                    assert(self.stack@.drop_last() =~= lower.push(g));
                    assert(lower.push(g).drop_last() =~= lower);
                    assert(word1.take(top + 1) =~= wc);
                    assert(word1.take(top as int) =~= word0);
                    if top > 0 {
                        assert(word1.take(top - 1) =~= word0.take(top - 1));
                    }
                    lemma_pending_word(lower, word1, word0);
                    let s2 = self.stack@;
                    assert(s2.last() == h && lower.push(g).last() == g && stack0.last() == f);
                    assert(pending(s2, word1) == frame_strings(h, word1.take(top + 1)) + pending(
                        lower.push(g),
                        word1,
                    ));
                    assert(pending(lower.push(g), word1) == frame_strings(g, word1.take(top as int))
                        + pending(lower, word1));
                    assert(pending(stack0, word0) == frame_strings(f, word0.take(top as int))
                        + pending(lower, word0));
                    assert(self@ =~= start);
                    // the work left
                    assert(work(s2) == frame_work(h) + work(lower.push(g)));
                    assert(work(lower.push(g)) == frame_work(g) + work(lower));
                    assert(work(stack0) == frame_work(f) + work(lower));
                }
            } else {
                self.stack.pop();
                self.current_word.pop();
                proof {
                    assert(f.node.children@.skip(f.next as int) =~= Seq::<(char, Trie)>::empty());
                    assert(frame_strings(f, word0) =~= Seq::<Seq<char>>::empty());
                    assert(self.stack@ =~= lower);
                    if top > 0 {
                        assert(self.current_word@ =~= word0.drop_last());
                        assert(self.current_word@.take(top - 1) =~= word0.take(top - 1));
                    }
                    lemma_pending_word(lower, self.current_word@, word0);
                    assert(self@ =~= start);
                }
            }
        }
    }
}

} // verus!
