//! Labels: telling them apart, and the set of those that occur.

use vstd::laws_eq::obeys_concrete_eq;
use vstd::prelude::*;

verus! {

/// The labels of `labels` without repetition, each where it first occurs.
pub open spec fn distinct<L>(labels: Seq<L>) -> Seq<L>
    decreases labels.len(),
{
    if labels.len() == 0 {
        Seq::empty()
    } else {
        let before = distinct(labels.drop_last());
        if before.contains(labels.last()) {
            before
        } else {
            before.push(labels.last())
        }
    }
}

/// No label occurs twice among the distinct ones, and they are the labels
/// that occur at all.
pub proof fn lemma_distinct<L>(labels: Seq<L>)
    ensures
        distinct(labels).no_duplicates(),
        forall|label: L| distinct(labels).contains(label) <==> labels.contains(label),
    decreases labels.len(),
{
    let all = distinct(labels);
    if labels.len() > 0 {
        let front = labels.drop_last();
        let last = labels.last();
        let before = distinct(front);
        lemma_distinct(front);
        assert(all == if before.contains(last) { before } else { before.push(last) });
        assert forall|label: L| all.contains(label) <==> labels.contains(label) by {
            if labels.contains(label) {
                let i = choose|i: int| 0 <= i < labels.len() && labels[i] == label;
                if i < front.len() {
                    assert(front[i] == label);
                    assert(front.contains(label));
                    assert(before.contains(label));
                    let j = choose|j: int| 0 <= j < before.len() && before[j] == label;
                    assert(all[j] == label);
                } else {
                    assert(label == last);
                    if before.contains(last) {
                    } else {
                        assert(all[before.len() as int] == label);
                    }
                }
                assert(all.contains(label));
            }
            if all.contains(label) {
                let j = choose|j: int| 0 <= j < all.len() && all[j] == label;
                if j < before.len() {
                    assert(before[j] == label);
                    assert(before.contains(label));
                    assert(front.contains(label));
                    let i = choose|i: int| 0 <= i < front.len() && front[i] == label;
                    assert(labels[i] == label);
                } else {
                    assert(labels[labels.len() - 1] == label);
                }
                assert(labels.contains(label));
            }
        }
        assert(all.no_duplicates()) by {
            if !before.contains(last) {
                assert forall|i: int, j: int| 0 <= i < all.len() && 0 <= j < all.len() && i
                    != j implies all[i] != all[j] by {
                    if i < before.len() && j < before.len() {
                    } else if i < before.len() {
                        assert(before[i] == all[i]);
                    } else {
                        assert(before[j] == all[j]);
                    }
                }
            }
        }
    } else {
        assert forall|label: L| all.contains(label) <==> labels.contains(label) by {}
    }
}

/// The place of `label` among `labels`, if it is one of them.
pub fn position<L: Copy + PartialEq>(labels: &Vec<L>, label: &L) -> (place: Option<usize>)
    requires
        obeys_concrete_eq::<L>(),
    ensures
        match place {
            Some(k) => k < labels.len() && labels[k as int] == *label && forall|j: int|
                0 <= j < k ==> labels[j] != *label,
            None => !labels@.contains(*label),
        },
{
    proof {
        reveal(obeys_concrete_eq);
    }
    let mut k: usize = 0;
    while k < labels.len()
        invariant
            k <= labels.len(),
            obeys_concrete_eq::<L>(),
            forall|j: int| 0 <= j < k ==> labels[j] != *label,
        decreases labels.len() - k,
    {
        proof {
            reveal(obeys_concrete_eq);
        }
        if labels[k] == *label {
            return Some(k);
        }
        k += 1;
    }
    None
}

/// The labels of `labels` without repetition, each where it first occurs.
pub fn collect_distinct<L: Copy + PartialEq>(labels: &Vec<L>) -> (kept: Vec<L>)
    requires
        obeys_concrete_eq::<L>(),
    ensures
        kept@ == distinct(labels@),
{
    let mut kept: Vec<L> = Vec::new();
    let mut i: usize = 0;
    while i < labels.len()
        invariant
            i <= labels.len(),
            obeys_concrete_eq::<L>(),
            kept@ == distinct(labels@.take(i as int)),
        decreases labels.len() - i,
    {
        let label = labels[i];
        let known = position(&kept, &label);
        proof {
            assert(labels@.take(i + 1).drop_last() =~= labels@.take(i as int));
        }
        if known.is_none() {
            kept.push(label);
        }
        i += 1;
    }
    proof {
        assert(labels@.take(i as int) =~= labels@);
    }
    kept
}

} // verus!
