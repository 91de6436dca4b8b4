//! The plain sorter: the network over `Ord` elements, in either direction,
//! with no check of the length.
//!
//! It never fails, and sorts a slice whose length is a power of two. On any
//! other length it still rearranges the slice, but what comes out need not
//! be sorted; `third` is the sorter that checks.
use vstd::prelude::*;
use vstd::laws_cmp::obeys_cmp;
use vstd::laws_eq::obeys_concrete_eq;
use crate::bitonic::{is_bitonic, lemma_pass_splits_bitonic, lemma_two_runs_are_bitonic};
use crate::length::{is_accepted_length, is_network_length, lemma_network_length_halves};
use crate::natural::{
    gt_computes, lemma_natural_is_computed, lemma_natural_is_total_preorder, natural,
};
use crate::order::{
    facing, is_antisymmetric, is_total_preorder, lemma_facing_sorts_in_direction,
    lemma_join_sorted, lemma_sorted_arrangement_is_unique, sorted_in,
};
use crate::pass::{
    first_half, lemma_pass_step, pairs_ordered, pairwise_exchanged, pass_reached, second_half,
};
use crate::slices::exchange;

verus! {

/// The pair `(k, k + half)` of `before` was compared once, and stands in
/// `after` exchanged if `>` answered as `up` says, and as it was if not:
/// on an upward pass a pair is exchanged where the first element is
/// greater, on a downward pass where it is not.
pub open spec fn pair_placed<T: Ord>(up: bool, before: Seq<T>, after: Seq<T>, k: int) -> bool {
    let half = before.len() / 2;
    exists|greater: bool|
        {
            &&& #[trigger] call_ensures(T::gt, (&before[k], &before[k + half]), greater)
            &&& if greater == up {
                after[k] == before[k + half] && after[k + half] == before[k]
            } else {
                after[k] == before[k] && after[k + half] == before[k + half]
            }
        }
}

/// After a pass over elements on which `>` computes the failure of a
/// total relation, each pair stands in the order the pass was run for.
pub proof fn lemma_placed_pairs_are_ordered<T: Ord>(
    rel: spec_fn(T, T) -> bool,
    up: bool,
    before: Seq<T>,
    after: Seq<T>,
)
    requires
        gt_computes::<T>(rel),
        is_total_preorder(rel),
        after.len() == before.len(),
        forall|k: int| 0 <= k < before.len() / 2 ==> pair_placed(up, before, after, k),
    ensures
        pairs_ordered(facing(rel, up), after),
{
    let facing_rel = facing(rel, up);
    let half = before.len() / 2;
    assert forall|k: int| 0 <= k < half implies facing_rel(#[trigger] after[k], after[k + half]) by {
        assert(pair_placed(up, before, after, k));
        assert(rel(before[k], before[k + half]) || rel(before[k + half], before[k]));
    }
}

/// One pass: compares each element of the first half with its partner in
/// the second and exchanges the two where they stand against the
/// direction. No position belongs to two pairs.
fn compare_and_swap<T: Ord>(x: &mut [T], up: bool)
    ensures
        pairwise_exchanged(old(x)@, final(x)@),
        forall|k: int| 0 <= k < old(x)@.len() / 2 ==> pair_placed(up, old(x)@, final(x)@, k),
        final(x)@.to_multiset() == old(x)@.to_multiset(),
{
    let mid_point: usize = x.len() / 2;
    let mut i: usize = 0;
    let ghost mut done: int = 0;
    while i < mid_point
        invariant
            done == i,
            mid_point == old(x)@.len() / 2,
            pass_reached(old(x)@, x@, done),
            forall|k: int| 0 <= k < done ==> pair_placed(up, old(x)@, x@, k),
            x@.to_multiset() == old(x)@.to_multiset(),
        decreases mid_point - i,
    {
        let ghost entry = x@;
        assert(x@[done] == old(x)@[done] && x@[done + mid_point] == old(x)@[done + mid_point]);
        let greater = x[i].gt(&x[mid_point + i]);
        let swap = greater == up;
        if swap {
            exchange(x, i, mid_point + i);
        }
        proof {
            lemma_pass_step(old(x)@, entry, x@, done, swap);
            assert forall|k: int| 0 <= k <= done implies pair_placed(up, old(x)@, x@, k) by {
                if k < done {
                    assert(pair_placed(up, old(x)@, entry, k));
                } else {
                    assert(call_ensures(T::gt, (&old(x)@[k], &old(x)@[k + mid_point]), greater));
                }
            }
            done = done + 1;
        }
        i = i + 1;
    }
}

/// The merge: a pass over the whole, then the merge of each half. Turns a
/// bitonic sequence of network length into a sorted one.
fn sub_sort<T: Ord>(x: &mut [T], up: bool)
    ensures
        final(x)@.to_multiset() == old(x)@.to_multiset(),
        forall|rel: spec_fn(T, T) -> bool|
            #[trigger] gt_computes::<T>(rel) && is_total_preorder(rel) && is_network_length(
                old(x)@.len(),
            ) && is_bitonic(facing(rel, up), old(x)@) ==> sorted_in(rel, up, final(x)@),
    decreases old(x)@.len(),
{
    if x.len() > 1 {
        compare_and_swap(x, up);
        let ghost passed = x@;
        let mid_point: usize = x.len() / 2;
        let (left, right) = x.split_at_mut(mid_point);
        sub_sort(left, up);
        sub_sort(right, up);
        proof {
            let merged = left@ + right@;
            assert(passed =~= first_half(passed) + second_half(passed));
            vstd::seq_lib::lemma_multiset_commutative(first_half(passed), second_half(passed));
            vstd::seq_lib::lemma_multiset_commutative(left@, right@);
            assert forall|rel: spec_fn(T, T) -> bool|
                #[trigger] gt_computes::<T>(rel) && is_total_preorder(rel) && is_network_length(
                    old(x)@.len(),
                ) && is_bitonic(facing(rel, up), old(x)@) implies sorted_in(rel, up, merged) by {
                lemma_network_length_halves(old(x)@.len());
                lemma_facing_sorts_in_direction(rel, up, left@);
                lemma_facing_sorts_in_direction(rel, up, right@);
                lemma_facing_sorts_in_direction(rel, up, merged);
                lemma_placed_pairs_are_ordered(rel, up, old(x)@, passed);
                lemma_pass_splits_bitonic(facing(rel, up), old(x)@, passed);
                lemma_join_sorted(
                    facing(rel, up),
                    first_half(passed),
                    second_half(passed),
                    left@,
                    right@,
                );
            }
        }
    } else {
        proof {
            assert forall|rel: spec_fn(T, T) -> bool| sorted_in(rel, up, x@) by {}
        }
    }
}

/// Sorts `x` in place, ascending where `up` holds and descending where it
/// does not.
///
/// The slice is rearranged, whatever its length. Where the length is zero
/// or a power of two, it comes out sorted in the direction asked for by
/// every total relation whose failure `>` computes on `T`, and a slice
/// that was so sorted comes out as it was where the relation is
/// antisymmetric. For a type whose comparison obeys the laws of `Ord`,
/// that relation is `<=`.
pub fn sort<T: Ord>(x: &mut [T], up: bool)
    ensures
        final(x)@.to_multiset() == old(x)@.to_multiset(),
        forall|rel: spec_fn(T, T) -> bool|
            #[trigger] gt_computes::<T>(rel) && is_total_preorder(rel) && is_accepted_length(
                old(x)@.len(),
            ) ==> sorted_in(rel, up, final(x)@),
        forall|rel: spec_fn(T, T) -> bool|
            #[trigger] gt_computes::<T>(rel) && is_total_preorder(rel) && is_antisymmetric(rel)
                && is_accepted_length(old(x)@.len()) && sorted_in(rel, up, old(x)@) ==> final(x)@
                == old(x)@,
        obeys_cmp::<T>() && is_accepted_length(old(x)@.len()) ==> sorted_in(
            natural::<T>(),
            up,
            final(x)@,
        ),
        obeys_cmp::<T>() && obeys_concrete_eq::<T>() && is_accepted_length(old(x)@.len())
            && sorted_in(natural::<T>(), up, old(x)@) ==> final(x)@ == old(x)@,
    decreases old(x)@.len(),
{
    if x.len() > 1 {
        let mid_point: usize = x.len() / 2;
        let (left, right) = x.split_at_mut(mid_point);
        sort(left, true);
        sort(right, false);
        let ghost built = left@ + right@;
        proof {
            assert(old(x)@ =~= first_half(old(x)@) + second_half(old(x)@));
            vstd::seq_lib::lemma_multiset_commutative(first_half(old(x)@), second_half(old(x)@));
            vstd::seq_lib::lemma_multiset_commutative(left@, right@);
            assert forall|rel: spec_fn(T, T) -> bool|
                #[trigger] gt_computes::<T>(rel) && is_total_preorder(rel) && is_network_length(
                    old(x)@.len(),
                ) implies is_bitonic(facing(rel, up), built) by {
                lemma_network_length_halves(old(x)@.len());
                lemma_facing_sorts_in_direction(rel, up, left@);
                lemma_facing_sorts_in_direction(rel, up, right@);
                lemma_two_runs_are_bitonic(facing(rel, up), left@, right@);
            }
        }
        assert(x@ == built);
        assert(built.len() == old(x)@.len()) by {
            vstd::seq_lib::to_multiset_len(built);
            vstd::seq_lib::to_multiset_len(old(x)@);
        }
        sub_sort(x, up);
        proof {
            assert forall|rel: spec_fn(T, T) -> bool|
                #[trigger] gt_computes::<T>(rel) && is_total_preorder(rel) && is_antisymmetric(rel)
                    && is_network_length(old(x)@.len()) && sorted_in(
                    rel,
                    up,
                    old(x)@,
                ) implies x@ == old(x)@ by {
                lemma_facing_sorts_in_direction(rel, up, x@);
                lemma_facing_sorts_in_direction(rel, up, old(x)@);
                lemma_sorted_arrangement_is_unique(facing(rel, up), x@, old(x)@);
            }
        }
    } else {
        proof {
            assert forall|rel: spec_fn(T, T) -> bool| sorted_in(rel, up, x@) by {}
        }
    }
    proof {
        if obeys_cmp::<T>() {
            lemma_natural_is_total_preorder::<T>();
            lemma_natural_is_computed::<T>();
        }
    }
}

} // verus!
