//! Sorting of number triples.
use vstd::prelude::*;

verus! {

/// Triples in lexicographic order.
pub open spec fn triple_le(a: (u64, u64, u64), b: (u64, u64, u64)) -> bool {
    a.0 < b.0 || (a.0 == b.0 && (a.1 < b.1 || (a.1 == b.1 && a.2 <= b.2)))
}

/// Whether triples stand in ascending order.
pub open spec fn sorted_triples(s: Seq<(u64, u64, u64)>) -> bool {
    forall|i: int, j: int|
        #![trigger s[i], s[j]]
        0 <= i < j < s.len() ==> triple_le(s[i], s[j])
}

/// The triples of `s` in ascending order.
pub open spec fn in_order(s: Seq<(u64, u64, u64)>) -> Seq<(u64, u64, u64)> {
    s.sort_by(|a: (u64, u64, u64), b: (u64, u64, u64)| triple_le(a, b))
}

/// Sorts with the standard library's `sort_unstable` on slices: afterwards the
/// triples are the same ones, each as often as before, in the lexicographic
/// order that tuples of integers have.
#[verifier::external_body]
pub(crate) fn sort_triples(items: &mut Vec<(u64, u64, u64)>)
    ensures
        final(items)@.to_multiset() == old(items)@.to_multiset(),
        sorted_triples(final(items)@),
{
    items.sort_unstable();
}

/// Rearranging keeps the length and the elements.
pub proof fn lemma_same_elements(a: Seq<(u64, u64, u64)>, b: Seq<(u64, u64, u64)>)
    requires
        a.to_multiset() == b.to_multiset(),
    ensures
        a.len() == b.len(),
        forall|x: (u64, u64, u64)| #[trigger] a.contains(x) <==> b.contains(x),
        a.no_duplicates() ==> b.no_duplicates(),
{
    a.to_multiset_ensures();
    b.to_multiset_ensures();
    assert forall|x: (u64, u64, u64)| #[trigger] a.contains(x) <==> b.contains(x) by {
        assert(a.contains(x) <==> a.to_multiset().count(x) > 0);
        assert(b.contains(x) <==> b.to_multiset().count(x) > 0);
    }
    if a.no_duplicates() {
        a.lemma_multiset_has_no_duplicates();
        b.lemma_multiset_has_no_duplicates_conv();
    }
}

/// The ascending form of some triples is ascending, and a rearrangement.
pub proof fn lemma_sorted_form(s: Seq<(u64, u64, u64)>)
    ensures
        sorted_triples(in_order(s)),
        in_order(s).to_multiset() == s.to_multiset(),
{
    let leq = |a: (u64, u64, u64), b: (u64, u64, u64)| triple_le(a, b);
    lemma_total_order();
    s.lemma_sort_by_ensures(leq);
    let t = in_order(s);
    assert forall|i: int, j: int| #![trigger t[i], t[j]] 0 <= i < j < t.len() implies triple_le(
        t[i],
        t[j],
    ) by {
        assert(leq(t[i], t[j]));
    }
}

proof fn lemma_total_order()
    ensures
        vstd::relations::total_ordering(
            |a: (u64, u64, u64), b: (u64, u64, u64)| triple_le(a, b),
        ),
{
    let leq = |a: (u64, u64, u64), b: (u64, u64, u64)| triple_le(a, b);
    assert(vstd::relations::reflexive(leq));
    assert(vstd::relations::antisymmetric(leq));
    assert(vstd::relations::transitive(leq));
    assert(vstd::relations::strongly_connected(leq));
}

/// There is one way to put given triples into ascending order.
pub proof fn lemma_in_order(s: Seq<(u64, u64, u64)>, t: Seq<(u64, u64, u64)>)
    requires
        s.to_multiset() == t.to_multiset(),
        sorted_triples(t),
    ensures
        t == in_order(s),
{
    let leq = |a: (u64, u64, u64), b: (u64, u64, u64)| triple_le(a, b);
    lemma_total_order();
    s.lemma_sort_by_ensures(leq);
    assert(vstd::relations::sorted_by(t, leq));
    vstd::seq_lib::lemma_sorted_unique(t, in_order(s), leq);
}

} // verus!
