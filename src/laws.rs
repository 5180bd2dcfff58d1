use vstd::prelude::*;

use crate::order::{
    lex_lt, strictly_ascending, lemma_ascending_no_duplicates, lemma_ascending_unique,
    lemma_lex_asymmetric, lemma_lex_irreflexive,
};
use crate::trie::prefix_of_some;

verus! {

/// The stored strings after inserting the strings of `ss`, in order, into a
/// new tree (`Trie::new` starts from the empty set, `Trie::insert` adds one).
pub open spec fn stored_after(ss: Seq<Seq<char>>) -> Set<Seq<char>>
    decreases ss.len(),
{
    if ss.len() == 0 {
        Set::empty()
    } else {
        stored_after(ss.drop_last()).insert(ss.last())
    }
}

/// After a sequence of insertions the tree stores exactly the inserted strings,
/// whatever their order.
pub proof fn lemma_stored_after(ss: Seq<Seq<char>>)
    ensures
        stored_after(ss) == ss.to_set(),
    decreases ss.len(),
{
    if ss.len() > 0 {
        lemma_stored_after(ss.drop_last());
        assert(ss.to_set() =~= ss.drop_last().to_set().insert(ss.last())) by {
            assert forall|x: Seq<char>| ss.to_set().contains(x) implies
                ss.drop_last().to_set().insert(ss.last()).contains(x) by {
                let i = choose|i: int| 0 <= i < ss.len() && ss[i] == x;
                if i < ss.len() - 1 {
                    assert(ss.drop_last()[i] == x);
                }
            }
            assert forall|x: Seq<char>| ss.drop_last().to_set().contains(x) implies
                ss.to_set().contains(x) by {
                let i = choose|i: int| 0 <= i < ss.drop_last().len() && ss.drop_last()[i] == x;
                assert(ss[i] == x);
            }
        }
    } else {
        assert(ss.to_set() =~= Set::empty());
    }
}

/// After inserting `s`, `s` is stored and is a prefix of a stored string.
pub proof fn lemma_inserted_is_found(v: Set<Seq<char>>, s: Seq<char>)
    ensures
        v.insert(s).contains(s),
        prefix_of_some(v.insert(s), s),
{
    assert(s.is_prefix_of(s));
}

/// Every prefix of a stored string, the string itself included, passes the
/// prefix query.
pub proof fn lemma_prefix_of_stored(v: Set<Seq<char>>, s: Seq<char>, t: Seq<char>)
    requires
        v.contains(t),
        s.is_prefix_of(t),
    ensures
        prefix_of_some(v, s),
{
}

/// The empty string is stored exactly when it was inserted, and it always
/// passes the prefix query, also on an empty tree.
pub proof fn lemma_empty_string(ss: Seq<Seq<char>>)
    ensures
        stored_after(ss).contains(Seq::empty()) <==> ss.contains(Seq::empty()),
        prefix_of_some(stored_after(ss), Seq::empty()),
{
    lemma_stored_after(ss);
}

/// Inserting a string a second time changes nothing: the stored set, hence
/// every lookup, is the same, and so is the ascending listing of it.
pub proof fn lemma_insert_idempotent(
    ss: Seq<Seq<char>>,
    s: Seq<char>,
    once: Seq<Seq<char>>,
    twice: Seq<Seq<char>>,
)
    requires
        strictly_ascending(once),
        once.to_set() == stored_after(ss.push(s)),
        strictly_ascending(twice),
        twice.to_set() == stored_after(ss.push(s).push(s)),
    ensures
        stored_after(ss.push(s).push(s)) == stored_after(ss.push(s)),
        once == twice,
{
    assert(ss.push(s).push(s).drop_last() =~= ss.push(s));
    assert(stored_after(ss.push(s).push(s)) =~= stored_after(ss.push(s)));
    lemma_ascending_unique(once, twice);
}

/// An ascending listing of the stored strings holds each inserted string once
/// and nothing else, and does not depend on the order of insertion.
pub proof fn lemma_listing_complete(
    ss: Seq<Seq<char>>,
    out: Seq<Seq<char>>,
    ss2: Seq<Seq<char>>,
    out2: Seq<Seq<char>>,
)
    requires
        strictly_ascending(out),
        out.to_set() == stored_after(ss),
        strictly_ascending(out2),
        out2.to_set() == stored_after(ss2),
        ss.to_set() == ss2.to_set(),
    ensures
        forall|x: Seq<char>| out.contains(x) <==> ss.contains(x),
        out.no_duplicates(),
        out == out2,
{
    lemma_stored_after(ss);
    lemma_stored_after(ss2);
    lemma_ascending_no_duplicates(out);
    assert forall|x: Seq<char>| out.contains(x) <==> ss.contains(x) by {
        assert(out.to_set().contains(x) == out.contains(x));
        assert(ss.to_set().contains(x) == ss.contains(x));
    }
    lemma_ascending_unique(out, out2);
}

/// In an ascending listing one string comes before another exactly when it is
/// lexicographically smaller.
pub proof fn lemma_listing_order(out: Seq<Seq<char>>, i: int, j: int)
    requires
        strictly_ascending(out),
        0 <= i < out.len(),
        0 <= j < out.len(),
    ensures
        i < j <==> lex_lt(out[i], out[j]),
{
    if j < i {
        lemma_lex_asymmetric(out[j], out[i]);
    } else if i == j {
        lemma_lex_irreflexive(out[i]);
    }
}

/// A string whose first character starts no stored string is neither stored
/// nor a prefix of a stored string.
pub proof fn lemma_no_shared_start(v: Set<Seq<char>>, x: Seq<char>)
    requires
        x.len() > 0,
        forall|t: Seq<char>| #[trigger] v.contains(t) ==> t.len() == 0 || t[0] != x[0],
    ensures
        !v.contains(x),
        !prefix_of_some(v, x),
{
    if prefix_of_some(v, x) {
        let t = choose|t: Seq<char>| v.contains(t) && x.is_prefix_of(t);
        assert(t[0] == x[0]);
    }
}

} // verus!
