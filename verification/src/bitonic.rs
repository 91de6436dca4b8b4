//! Bitonic sequences, and why a pass splits one into two.
use vstd::prelude::*;
use crate::order::{all_at_most, ascending_by, descending_by, is_total_preorder};
use crate::pass::{first_half, pairs_ordered, pairwise_exchanged, second_half};
use crate::runs::{
    half_and, half_or, is_falling, is_ring_run, is_rising, lemma_fold_ring_run,
    lemma_two_slopes_make_ring_run,
};

verus! {

/// The threshold image of `s` at `t`: which positions hold an element that
/// is not at most `t`.
pub open spec fn marks<T>(rel: spec_fn(T, T) -> bool, s: Seq<T>, t: T) -> Seq<bool> {
    Seq::new(s.len(), |i: int| !rel(s[i], t))
}

/// `s` is bitonic: at every threshold, the positions of the elements above
/// it form one run of the ring. A sequence that ascends and then descends
/// is of this kind, and so is one that descends and then ascends.
pub open spec fn is_bitonic<T>(rel: spec_fn(T, T) -> bool, s: Seq<T>) -> bool {
    forall|t: T| is_ring_run(#[trigger] marks(rel, s, t))
}

/// The threshold images of a sorted sequence rise or fall with it.
pub proof fn lemma_marks_follow_order<T>(rel: spec_fn(T, T) -> bool, s: Seq<T>, t: T)
    requires
        is_total_preorder(rel),
    ensures
        ascending_by(rel, s) ==> is_rising(marks(rel, s, t)),
        descending_by(rel, s) ==> is_falling(marks(rel, s, t)),
{
    let b = marks(rel, s, t);
    if ascending_by(rel, s) {
        assert forall|i: int, j: int| 0 <= i < j < b.len() && b[i] implies b[j] by {
            assert(rel(s[i], s[j]));
            if rel(s[j], t) {
                assert(rel(s[i], t));
            }
        }
    }
    if descending_by(rel, s) {
        assert forall|i: int, j: int| 0 <= i < j < b.len() && b[j] implies b[i] by {
            assert(rel(s[j], s[i]));
            if rel(s[i], t) {
                assert(rel(s[j], t));
            }
        }
    }
}

/// An ascending sequence followed by a descending one is bitonic, and so
/// is a descending one followed by an ascending one.
pub proof fn lemma_two_runs_are_bitonic<T>(rel: spec_fn(T, T) -> bool, left: Seq<T>, right: Seq<T>)
    requires
        is_total_preorder(rel),
        (ascending_by(rel, left) && descending_by(rel, right)) || (descending_by(rel, left)
            && ascending_by(rel, right)),
    ensures
        is_bitonic(rel, left + right),
{
    assert forall|t: T| is_ring_run(#[trigger] marks(rel, left + right, t)) by {
        lemma_marks_follow_order(rel, left, t);
        lemma_marks_follow_order(rel, right, t);
        lemma_two_slopes_make_ring_run(marks(rel, left, t), marks(rel, right, t));
        assert(marks(rel, left + right, t) =~= marks(rel, left, t) + marks(rel, right, t));
    }
}

/// One ordering pass over a bitonic sequence of even length leaves two
/// bitonic halves, with every element of the first at most every element
/// of the second.
pub proof fn lemma_pass_splits_bitonic<T>(rel: spec_fn(T, T) -> bool, before: Seq<T>, after: Seq<T>)
    requires
        is_total_preorder(rel),
        before.len() % 2 == 0,
        is_bitonic(rel, before),
        pairwise_exchanged(before, after),
        pairs_ordered(rel, after),
    ensures
        is_bitonic(rel, first_half(after)),
        is_bitonic(rel, second_half(after)),
        all_at_most(rel, first_half(after), second_half(after)),
{
    let half = (before.len() / 2) as int;
    let low = first_half(after);
    let high = second_half(after);
    assert forall|t: T|
        marks(rel, low, t) == half_and(#[trigger] marks(rel, before, t)) && marks(rel, high, t)
            == half_or(marks(rel, before, t)) by {
        let b = marks(rel, before, t);
        assert forall|k: int| 0 <= k < half implies marks(rel, low, t)[k] == half_and(b)[k]
            && marks(rel, high, t)[k] == half_or(b)[k] by {
            assert(low[k] == after[k]);
            assert(high[k] == after[k + half]);
            assert(rel(after[k], after[k + half]));
            if rel(after[k + half], t) {
                assert(rel(after[k], t));
            }
        }
        assert(marks(rel, low, t) =~= half_and(b));
        assert(marks(rel, high, t) =~= half_or(b));
    }
    assert forall|t: T| is_ring_run(#[trigger] marks(rel, low, t)) by {
        lemma_fold_ring_run(marks(rel, before, t));
    }
    assert forall|t: T| is_ring_run(#[trigger] marks(rel, high, t)) by {
        lemma_fold_ring_run(marks(rel, before, t));
    }
    assert forall|i: int, j: int| 0 <= i < low.len() && 0 <= j < high.len() implies rel(
        #[trigger] low[i],
        #[trigger] high[j],
    ) by {
        let t = high[j];
        let b = marks(rel, before, t);
        lemma_fold_ring_run(b);
        assert(rel(t, t));
        assert(!marks(rel, high, t)[j]);
        assert(!half_or(b)[j]);
        assert(!half_and(b)[i]);
        assert(!marks(rel, low, t)[i]);
    }
}

} // verus!
