use vstd::prelude::*;

verus! {

/// `a` comes strictly before `b` in lexicographic order, characters compared
/// by their code; a proper prefix comes before its extensions.
pub open spec fn lex_lt(a: Seq<char>, b: Seq<char>) -> bool
    decreases a.len(),
{
    if b.len() == 0 {
        false
    } else if a.len() == 0 {
        true
    } else if a[0] != b[0] {
        a[0] < b[0]
    } else {
        lex_lt(a.drop_first(), b.drop_first())
    }
}

/// Every element of `s` comes strictly before every later one.
pub open spec fn strictly_ascending(s: Seq<Seq<char>>) -> bool {
    forall|i: int, j: int| 0 <= i < j < s.len() ==> lex_lt(#[trigger] s[i], #[trigger] s[j])
}

/// No string comes before itself.
pub proof fn lemma_lex_irreflexive(a: Seq<char>)
    ensures
        !lex_lt(a, a),
    decreases a.len(),
{
    if a.len() > 0 {
        lemma_lex_irreflexive(a.drop_first());
    }
}

/// The order is transitive.
pub proof fn lemma_lex_transitive(a: Seq<char>, b: Seq<char>, c: Seq<char>)
    requires
        lex_lt(a, b),
        lex_lt(b, c),
    ensures
        lex_lt(a, c),
    decreases a.len(),
{
    if a.len() > 0 && a[0] == b[0] && b[0] == c[0] {
        lemma_lex_transitive(a.drop_first(), b.drop_first(), c.drop_first());
    }
}


/// No two strings come each before the other.
pub proof fn lemma_lex_asymmetric(a: Seq<char>, b: Seq<char>)
    requires
        lex_lt(a, b),
    ensures
        !lex_lt(b, a),
{
    if lex_lt(b, a) {
        lemma_lex_transitive(a, b, a);
        lemma_lex_irreflexive(a);
    }
}

/// Putting the same character in front of two strings keeps their order.
pub proof fn lemma_lex_prepend(c: char, a: Seq<char>, b: Seq<char>)
    ensures
        lex_lt(seq![c] + a, seq![c] + b) == lex_lt(a, b),
{
    assert((seq![c] + a).drop_first() =~= a);
    assert((seq![c] + b).drop_first() =~= b);
}

/// A strictly ascending sequence holds no string twice.
pub proof fn lemma_ascending_no_duplicates(s: Seq<Seq<char>>)
    requires
        strictly_ascending(s),
    ensures
        s.no_duplicates(),
{
    assert forall|i: int, j: int| 0 <= i < s.len() && 0 <= j < s.len() && i != j implies s[i] != s[j] by {
        if i < j {
            assert(lex_lt(s[i], s[j]));
            lemma_lex_irreflexive(s[i]);
        } else {
            assert(lex_lt(s[j], s[i]));
            lemma_lex_irreflexive(s[j]);
        }
    }
}

/// Two strictly ascending sequences that hold the same strings are equal: the
/// set of strings fixes the order in which they are listed.
pub proof fn lemma_ascending_unique(a: Seq<Seq<char>>, b: Seq<Seq<char>>)
    requires
        strictly_ascending(a),
        strictly_ascending(b),
        a.to_set() == b.to_set(),
    ensures
        a == b,
    decreases a.len(),
{
    if a.len() == 0 {
        if b.len() > 0 {
            assert(b.to_set().contains(b[0]));
        }
        assert(a =~= b);
    } else if b.len() == 0 {
        assert(a.to_set().contains(a[0]));
    } else {
        // The first elements are both the least element of the common set.
        assert(b.to_set().contains(a[0]));
        assert(a.to_set().contains(b[0]));
        let i = choose|i: int| 0 <= i < b.len() && b[i] == a[0];
        let j = choose|j: int| 0 <= j < a.len() && a[j] == b[0];
        if i > 0 {
            assert(lex_lt(b[0], b[i]));
            if j > 0 {
                assert(lex_lt(a[0], a[j]));
                lemma_lex_asymmetric(a[0], b[0]);
            } else {
                lemma_lex_irreflexive(a[0]);
            }
        }
        assert(a[0] == b[0]);
        let a1 = a.drop_first();
        let b1 = b.drop_first();
        assert(a1.to_set() =~= b1.to_set()) by {
            assert forall|x: Seq<char>| a1.to_set().contains(x) implies b1.to_set().contains(x) by {
                let p = choose|p: int| 0 <= p < a1.len() && a1[p] == x;
                assert(a.to_set().contains(x));
                let q = choose|q: int| 0 <= q < b.len() && b[q] == x;
                assert(lex_lt(a[0], a[p + 1]));
                if q == 0 {
                    lemma_lex_irreflexive(x);
                }
                assert(b1[q - 1] == x);
            }
            assert forall|x: Seq<char>| b1.to_set().contains(x) implies a1.to_set().contains(x) by {
                let p = choose|p: int| 0 <= p < b1.len() && b1[p] == x;
                assert(b.to_set().contains(x));
                let q = choose|q: int| 0 <= q < a.len() && a[q] == x;
                assert(lex_lt(b[0], b[p + 1]));
                if q == 0 {
                    lemma_lex_irreflexive(x);
                }
                assert(a1[q - 1] == x);
            }
        }
        lemma_ascending_unique(a1, b1);
        assert(a =~= seq![a[0]] + a1);
        assert(b =~= seq![b[0]] + b1);
    }
}

} // verus!
