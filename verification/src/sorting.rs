//! Lists of numbers in ascending order.
use vstd::prelude::*;
use vstd::relations::*;
use vstd::seq_lib::*;

verus! {

/// The order of numbers.
pub open spec fn ascending() -> spec_fn(usize, usize) -> bool {
    |a: usize, b: usize| a <= b
}

/// The numbers of a list in ascending order, each as often as in the list.
pub open spec fn sorted(s: Seq<usize>) -> Seq<usize> {
    s.sort_by(ascending())
}

/// What makes a list the sorted one of another.
pub proof fn lemma_sorted(s: Seq<usize>, t: Seq<usize>)
    requires
        sorted_by(t, ascending()),
        t.to_multiset() == s.to_multiset(),
    ensures
        t == sorted(s),
{
    assert(total_ordering(ascending()));
    s.lemma_sort_by_ensures(ascending());
    lemma_sorted_unique(t, sorted(s), ascending());
}

/// Sorting keeps the numbers, their number and how often each occurs, and puts them in order.
pub proof fn lemma_sorted_keeps(s: Seq<usize>)
    ensures
        sorted(s).len() == s.len(),
        sorted(s).to_multiset() == s.to_multiset(),
        forall|v: usize| sorted(s).contains(v) <==> #[trigger] s.contains(v),
        forall|i: int, j: int| 0 <= i < j < sorted(s).len() ==> sorted(s)[i] <= sorted(s)[j],
{
    broadcast use group_to_multiset_ensures;

    assert(total_ordering(ascending()));
    s.lemma_sort_by_ensures(ascending());
    assert(sorted(s).to_multiset().len() == s.to_multiset().len());
    assert forall|v: usize| sorted(s).contains(v) <==> #[trigger] s.contains(v) by {
        assert(s.to_multiset().count(v) == sorted(s).to_multiset().count(v));
    }
    assert forall|i: int, j: int| 0 <= i < j < sorted(s).len() implies sorted(s)[i]
        <= sorted(s)[j] by {
        assert(ascending()(sorted(s)[i], sorted(s)[j]));
    }
}

/// Lists with the same numbers are the same once they are sorted.
pub proof fn lemma_sorted_same(s: Seq<usize>, t: Seq<usize>)
    requires
        s.to_multiset() == t.to_multiset(),
    ensures
        sorted(s) == sorted(t),
{
    assert(total_ordering(ascending()));
    t.lemma_sort_by_ensures(ascending());
    lemma_sorted(s, sorted(t));
}

/// Calls `slice::sort_unstable`, which puts the numbers of a list in ascending order and keeps all
/// of them.
#[verifier::external_body]
pub(crate) fn sort_unstable(v: &mut Vec<usize>)
    ensures
        sorted_by(final(v)@, ascending()),
        final(v)@.to_multiset() == old(v)@.to_multiset(),
{
    v.sort_unstable();
}

} // verus!
