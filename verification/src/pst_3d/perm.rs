//! Permutation, filter and multiset facts about sequences.
//!
//! These small lemmas connect the three views the tree proofs move between:
//! the arena order of the stored labels, the pre-order of a subtree, and the
//! unordered multiset that the query contracts speak of.

use vstd::prelude::*;
use vstd::multiset::Multiset;

verus! {

/// `map_values` distributes over concatenation.
pub proof fn lemma_map_values_add<A, B>(a: Seq<A>, b: Seq<A>, f: spec_fn(A) -> B)
    ensures
        (a + b).map_values(f) == a.map_values(f) + b.map_values(f),
{
    assert((a + b).map_values(f) =~= a.map_values(f) + b.map_values(f));
}

/// Filtering a sequence and filtering its multiset agree.
pub proof fn lemma_filter_to_multiset<A>(s: Seq<A>, p: spec_fn(A) -> bool)
    ensures
        s.filter(p).to_multiset() == s.to_multiset().filter(p),
    decreases s.len(),
{
    broadcast use vstd::seq_lib::group_to_multiset_ensures;
    broadcast use vstd::multiset::group_multiset_axioms;

    reveal(Seq::filter);
    if s.len() == 0 {
        assert(s.to_multiset() =~= Multiset::<A>::empty());
        assert(s.filter(p).to_multiset() =~= s.to_multiset().filter(p));
    } else {
        let s1 = s.drop_last();
        let x = s.last();
        lemma_filter_to_multiset(s1, p);
        assert(s =~= s1.push(x));
        assert(s.to_multiset() == s1.to_multiset().insert(x));
        if p(x) {
            assert(s.filter(p) == s1.filter(p).push(x));
            assert(s.filter(p).to_multiset() == s1.filter(p).to_multiset().insert(x));
            assert(s1.to_multiset().insert(x).filter(p) =~= s1.to_multiset().filter(p).insert(x));
        } else {
            assert(s.filter(p) == s1.filter(p));
            assert(s1.to_multiset().insert(x).filter(p) =~= s1.to_multiset().filter(p));
        }
    }
}

/// Two sequences with the same multiset keep the same multiset after
/// filtering: a query answer does not depend on the order the labels are
/// stored in.
pub proof fn lemma_filter_permutation<A>(a: Seq<A>, b: Seq<A>, p: spec_fn(A) -> bool)
    requires
        a.to_multiset() == b.to_multiset(),
    ensures
        a.filter(p).to_multiset() == b.filter(p).to_multiset(),
{
    lemma_filter_to_multiset(a, p);
    lemma_filter_to_multiset(b, p);
}

/// A filter whose predicate holds everywhere keeps the sequence unchanged.
pub proof fn lemma_filter_all_true<A>(s: Seq<A>, p: spec_fn(A) -> bool)
    requires
        forall|k: int| 0 <= k < s.len() ==> p(#[trigger] s[k]),
    ensures
        s.filter(p) == s,
    decreases s.len(),
{
    reveal(Seq::filter);
    if s.len() == 0 {
    } else {
        let s1 = s.drop_last();
        lemma_filter_all_true(s1, p);
        assert(p(s.last()));
        assert(s.filter(p) == s1.push(s.last()));
        assert(s1.push(s.last()) =~= s);
    }
}

/// A filter whose predicate holds nowhere gives the empty sequence.
pub proof fn lemma_filter_none<A>(s: Seq<A>, p: spec_fn(A) -> bool)
    requires
        forall|k: int| 0 <= k < s.len() ==> !p(#[trigger] s[k]),
    ensures
        s.filter(p) == Seq::<A>::empty(),
    decreases s.len(),
{
    reveal(Seq::filter);
    if s.len() == 0 {
        assert(s.filter(p) =~= Seq::<A>::empty());
    } else {
        lemma_filter_none(s.drop_last(), p);
        assert(!p(s.last()));
        assert(s.filter(p) =~= Seq::<A>::empty());
    }
}

/// Filtering a one-element sequence keeps or drops that element.
pub proof fn lemma_filter_singleton<A>(x: A, p: spec_fn(A) -> bool)
    ensures
        seq![x].filter(p) == (if p(x) {
            seq![x]
        } else {
            Seq::<A>::empty()
        }),
{
    reveal_with_fuel(Seq::filter, 3);
    assert(seq![x].drop_last() =~= Seq::<A>::empty());
    assert(seq![x].drop_last().filter(p) == Seq::<A>::empty().filter(p));
    assert(Seq::<A>::empty().filter(p) == Seq::<A>::empty());
    assert(seq![x].last() == x);
    if p(x) {
        assert(seq![x].filter(p) =~= seq![x]);
    } else {
        assert(seq![x].filter(p) =~= Seq::<A>::empty());
    }
}

/// Two predicates that agree on every element of a sequence filter it to
/// the same result.
pub proof fn lemma_filter_congruent<A>(s: Seq<A>, p: spec_fn(A) -> bool, q: spec_fn(A) -> bool)
    requires
        forall|k: int| 0 <= k < s.len() ==> (p(#[trigger] s[k]) <==> q(s[k])),
    ensures
        s.filter(p) == s.filter(q),
    decreases s.len(),
{
    reveal(Seq::filter);
    if s.len() > 0 {
        lemma_filter_congruent(s.drop_last(), p, q);
        assert(p(s.last()) <==> q(s.last()));
    }
}

/// Filtering by the union of two predicates that never hold together
/// yields, as a multiset, the two separate filters side by side.
pub proof fn lemma_filter_disjoint_union<A>(
    s: Seq<A>,
    p1: spec_fn(A) -> bool,
    p2: spec_fn(A) -> bool,
    p: spec_fn(A) -> bool,
)
    requires
        forall|k: int| 0 <= k < s.len() ==> (p(#[trigger] s[k]) <==> (p1(s[k]) || p2(s[k]))),
        forall|k: int| 0 <= k < s.len() ==> !(p1(#[trigger] s[k]) && p2(s[k])),
    ensures
        s.filter(p).to_multiset() == s.filter(p1).to_multiset().add(s.filter(p2).to_multiset()),
    decreases s.len(),
{
    broadcast use vstd::seq_lib::group_to_multiset_ensures;
    broadcast use vstd::multiset::group_multiset_axioms;

    reveal(Seq::filter);
    if s.len() == 0 {
        assert(s.filter(p).to_multiset() =~= s.filter(p1).to_multiset().add(
            s.filter(p2).to_multiset(),
        ));
    } else {
        let s1 = s.drop_last();
        let x = s.last();
        lemma_filter_disjoint_union(s1, p1, p2, p);
        assert(p(x) <==> (p1(x) || p2(x)));
        assert(!(p1(x) && p2(x)));
        if p(x) {
            assert(s.filter(p).to_multiset() == s1.filter(p).to_multiset().insert(x));
            if p1(x) {
                assert(s.filter(p1).to_multiset() == s1.filter(p1).to_multiset().insert(x));
                assert(s.filter(p2) == s1.filter(p2));
            } else {
                assert(s.filter(p2).to_multiset() == s1.filter(p2).to_multiset().insert(x));
                assert(s.filter(p1) == s1.filter(p1));
            }
            assert(s.filter(p).to_multiset() =~= s.filter(p1).to_multiset().add(
                s.filter(p2).to_multiset(),
            ));
        } else {
            assert(s.filter(p) == s1.filter(p));
            assert(s.filter(p1) == s1.filter(p1));
            assert(s.filter(p2) == s1.filter(p2));
        }
    }
}

/// An element the predicate rejects never appears in the filtered sequence.
pub proof fn lemma_filter_excludes<A>(s: Seq<A>, p: spec_fn(A) -> bool, x: A)
    requires
        !p(x),
    ensures
        s.filter(p).to_multiset().count(x) == 0,
    decreases s.len(),
{
    broadcast use vstd::seq_lib::group_to_multiset_ensures;
    broadcast use vstd::multiset::group_multiset_axioms;

    reveal(Seq::filter);
    if s.len() == 0 {
    } else {
        lemma_filter_excludes(s.drop_last(), p, x);
        if p(s.last()) {
            assert(s.filter(p).to_multiset() == s.drop_last().filter(p).to_multiset().insert(
                s.last(),
            ));
            assert(s.last() != x);
        } else {
            assert(s.filter(p) == s.drop_last().filter(p));
        }
    }
}

/// Two sequences with the same multiset still have the same multiset after
/// mapping both through one function.
pub proof fn lemma_map_values_to_multiset_eq<A, B>(a: Seq<A>, b: Seq<A>, f: spec_fn(A) -> B)
    requires
        a.to_multiset() == b.to_multiset(),
    ensures
        a.map_values(f).to_multiset() == b.map_values(f).to_multiset(),
    decreases a.len(),
{
    broadcast use vstd::seq_lib::group_to_multiset_ensures;
    broadcast use vstd::multiset::group_multiset_axioms;

    if a.len() == 0 {
        assert(a.to_multiset().len() == 0);
        assert(b.len() == 0);
        assert(a.map_values(f) =~= Seq::<B>::empty());
        assert(b.map_values(f) =~= Seq::<B>::empty());
    } else {
        let x = a[0];
        assert(a.contains(x));
        assert(b.to_multiset().count(x) > 0);
        assert(b.contains(x));
        let k = choose|k: int| 0 <= k < b.len() && b[k] == x;
        let a1 = a.remove(0);
        let b1 = b.remove(k);
        assert(a1.to_multiset() == a.to_multiset().remove(x));
        assert(b1.to_multiset() == b.to_multiset().remove(x));
        lemma_map_values_to_multiset_eq(a1, b1, f);

        let fa = a.map_values(f);
        let fb = b.map_values(f);
        assert(fa.remove(0) =~= a1.map_values(f));
        assert(fb.remove(k) =~= b1.map_values(f));
        assert(fa.remove(0).to_multiset() == fa.to_multiset().remove(f(x))) by {
            assert(fa[0] == f(x));
        }
        assert(fb.remove(k).to_multiset() == fb.to_multiset().remove(f(x))) by {
            assert(fb[k] == f(x));
        }
        assert(fa.to_multiset().count(f(x)) > 0) by {
            assert(fa[0] == f(x));
            assert(fa.contains(f(x)));
        }
        assert(fb.to_multiset().count(f(x)) > 0) by {
            assert(fb[k] == f(x));
            assert(fb.contains(f(x)));
        }
        assert(fa.to_multiset() =~= fa.to_multiset().remove(f(x)).insert(f(x)));
        assert(fb.to_multiset() =~= fb.to_multiset().remove(f(x)).insert(f(x)));
    }
}

} // verus!
