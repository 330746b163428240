//! Rearrangements: what it means for a run of swaps to move every position
//! to exactly one other.

use crate::sample::swapped;
use vstd::prelude::*;

verus! {

/// The positions `0..n`, each in its own place.
pub open spec fn identity(n: nat) -> Seq<int> {
    Seq::new(n, |i: int| i)
}

/// Whether `order` names every position below its length exactly once.
pub open spec fn is_permutation(order: Seq<int>) -> bool {
    &&& forall|i: int| 0 <= i < order.len() ==> 0 <= #[trigger] order[i] < order.len()
    &&& forall|i: int, j: int|
        0 <= i < j < order.len() ==> #[trigger] order[i] != #[trigger] order[j]
}

/// The entries of `items` in the order that `order` names them.
pub open spec fn rearranged<A>(items: Seq<A>, order: Seq<int>) -> Seq<A> {
    Seq::new(order.len(), |i: int| items[order[i]])
}

/// Changing two entries over keeps a permutation a permutation.
pub proof fn lemma_swapped_permutation(order: Seq<int>, a: int, b: int)
    requires
        is_permutation(order),
        0 <= a < order.len(),
        0 <= b < order.len(),
    ensures
        is_permutation(swapped(order, a, b)),
        swapped(order, a, b).len() == order.len(),
{
    let after = swapped(order, a, b);
    assert forall|i: int, j: int| 0 <= i < j < after.len() implies #[trigger] after[i]
        != #[trigger] after[j] by {
        let from_i = if i == a { b } else if i == b { a } else { i };
        let from_j = if j == a { b } else if j == b { a } else { j };
        assert(after[i] == order[from_i]);
        assert(after[j] == order[from_j]);
        if from_i < from_j {
            assert(order[from_i] != order[from_j]);
        } else {
            assert(order[from_j] != order[from_i]);
        }
    }
}

/// Changing two entries over in the order and then reading the items is
/// reading the items and then changing the two over.
pub proof fn lemma_swapped_rearranged<A>(items: Seq<A>, order: Seq<int>, a: int, b: int)
    requires
        0 <= a < order.len(),
        0 <= b < order.len(),
    ensures
        rearranged(items, swapped(order, a, b)) == swapped(rearranged(items, order), a, b),
{
    assert(rearranged(items, swapped(order, a, b)) =~= swapped(rearranged(items, order), a, b));
}

/// Changing two entries over neither adds an item nor loses one.
pub proof fn lemma_swapped_multiset<A>(items: Seq<A>, a: int, b: int)
    requires
        0 <= a < items.len(),
        0 <= b < items.len(),
    ensures
        swapped(items, a, b).to_multiset() == items.to_multiset(),
{
    broadcast use vstd::seq_lib::group_to_multiset_ensures;

    let first = items.update(a, items[b]);
    vstd::seq_lib::to_multiset_update(items, a, items[b]);
    vstd::seq_lib::to_multiset_update(first, b, items[a]);
    assert(items.to_multiset().count(items[a]) > 0) by {
        assert(items.contains(items[a]));
    }
    assert(items.to_multiset().count(items[b]) > 0) by {
        assert(items.contains(items[b]));
    }
    assert(swapped(items, a, b).to_multiset() =~= items.to_multiset());
}

/// Reading the items in the order of their own positions changes nothing.
pub proof fn lemma_identity_rearranged<A>(items: Seq<A>)
    ensures
        rearranged(items, identity(items.len())) == items,
        is_permutation(identity(items.len())),
{
    assert(rearranged(items, identity(items.len())) =~= items);
}

} // verus!
