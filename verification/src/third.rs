//! The validating sorter: it takes a comparator, refuses a length that no
//! bitonic network exists for, and leaves the slice untouched when it does.
use vstd::prelude::*;
use std::cmp::Ordering;
use vstd::laws_cmp::obeys_cmp;
use vstd::laws_eq::obeys_concrete_eq;
use crate::bitonic::{is_bitonic, lemma_pass_splits_bitonic, lemma_two_runs_are_bitonic};
use crate::comparator::{
    accepts, at_most, cmp_computes, computes, is_total_order, lemma_accepts_halves,
    lemma_accepts_rearranged, lemma_at_most_is_total_preorder, lemma_natural_verdicts,
    lemma_reversed_sorts_descending, natural_verdicts, reversed, separates,
};
use crate::length::{
    is_accepted_length, is_network_length, is_power_of_two, lemma_network_length_halves,
    length_error, length_error_text,
};
use crate::natural::natural;
use crate::order::{
    ascending_by, descending_by, facing, lemma_facing_sorts_in_direction, lemma_join_sorted,
    lemma_rewrite_sorted, lemma_sorted_arrangement_is_unique, sorted_in,
};
use crate::pass::{
    first_half, lemma_pass_step, pairs_ordered, pairwise_exchanged, pass_reached, second_half,
};
use crate::slices::exchange;
use crate::SortOrder;

verus! {

/// The verdict on a pair at which a pass exchanges it.
pub open spec fn swap_condition(forward: bool) -> Ordering {
    if forward {
        Ordering::Greater
    } else {
        Ordering::Less
    }
}

/// The pair `(k, k + half)` of `before` was compared once, and stands in
/// `after` exchanged if the verdict was the swap condition, and as it was
/// if not.
pub open spec fn pair_settled<T, F: Fn(&T, &T) -> Ordering>(
    comparator: &F,
    forward: bool,
    before: Seq<T>,
    after: Seq<T>,
    k: int,
) -> bool {
    let half = before.len() / 2;
    exists|o: Ordering|
        {
            &&& #[trigger] call_ensures(*comparator, (&before[k], &before[k + half]), o)
            &&& if o == swap_condition(forward) {
                after[k] == before[k + half] && after[k + half] == before[k]
            } else {
                after[k] == before[k] && after[k + half] == before[k + half]
            }
        }
}

/// After a pass with a comparator that computes a total order, each pair
/// stands in the order the pass was run for.
pub proof fn lemma_settled_pairs_are_ordered<T, F: Fn(&T, &T) -> Ordering>(
    comparator: &F,
    ord: spec_fn(T, T) -> Ordering,
    forward: bool,
    before: Seq<T>,
    after: Seq<T>,
)
    requires
        computes(comparator, ord),
        is_total_order(ord),
        after.len() == before.len(),
        forall|k: int|
            0 <= k < before.len() / 2 ==> pair_settled(comparator, forward, before, after, k),
    ensures
        pairs_ordered(facing(at_most(ord), forward), after),
{
    let rel = facing(at_most(ord), forward);
    let half = before.len() / 2;
    assert forall|k: int| 0 <= k < half implies rel(#[trigger] after[k], after[k + half]) by {
        assert(pair_settled(comparator, forward, before, after, k));
        let a = before[k];
        let b = before[k + half];
        assert(ord(a, b) == Ordering::Less <==> ord(b, a) == Ordering::Greater);
        assert(ord(b, a) == Ordering::Less <==> ord(a, b) == Ordering::Greater);
    }
}

/// Whether `verdict` is the one at which a pass in this direction
/// exchanges a pair.
fn is_swap_condition(verdict: Ordering, forward: bool) -> (r: bool)
    ensures
        r == (verdict == swap_condition(forward)),
{
    match verdict {
        Ordering::Greater => forward,
        Ordering::Less => !forward,
        Ordering::Equal => false,
    }
}

/// One pass: compares each element of the first half with its partner in
/// the second and exchanges the two where the verdict is the swap
/// condition. No position belongs to two pairs.
fn compare_and_swap<T, F>(x: &mut [T], forward: bool, comparator: &F) where
    F: Fn(&T, &T) -> Ordering,

    requires
        accepts(comparator, old(x)@),
    ensures
        pairwise_exchanged(old(x)@, final(x)@),
        forall|k: int|
            0 <= k < old(x)@.len() / 2 ==> pair_settled(
                comparator,
                forward,
                old(x)@,
                final(x)@,
                k,
            ),
        final(x)@.to_multiset() == old(x)@.to_multiset(),
{
    let mid_point: usize = x.len() / 2;
    let mut i: usize = 0;
    let ghost mut done: int = 0;
    while i < mid_point
        invariant
            done == i,
            mid_point == old(x)@.len() / 2,
            accepts(comparator, old(x)@),
            pass_reached(old(x)@, x@, done),
            forall|k: int| 0 <= k < done ==> pair_settled(comparator, forward, old(x)@, x@, k),
            x@.to_multiset() == old(x)@.to_multiset(),
        decreases mid_point - i,
    {
        let ghost entry = x@;
        assert(x@[done] == old(x)@[done] && x@[done + mid_point] == old(x)@[done + mid_point]);
        let verdict = comparator(&x[i], &x[mid_point + i]);
        let swap = is_swap_condition(verdict, forward);
        if swap {
            exchange(x, i, mid_point + i);
        }
        proof {
            lemma_pass_step(old(x)@, entry, x@, done, swap);
            assert forall|k: int| 0 <= k <= done implies pair_settled(
                comparator,
                forward,
                old(x)@,
                x@,
                k,
            ) by {
                if k < done {
                    assert(pair_settled(comparator, forward, old(x)@, entry, k));
                } else {
                    assert(call_ensures(
                        *comparator,
                        (&old(x)@[k], &old(x)@[k + mid_point]),
                        verdict,
                    ));
                }
            }
            done = done + 1;
        }
        i = i + 1;
    }
}

/// The merge: a pass over the whole, then the merge of each half. Turns a
/// bitonic sequence of network length into a sorted one.
fn sub_sort<T, F>(x: &mut [T], forward: bool, comparator: &F) where F: Fn(&T, &T) -> Ordering
    requires
        accepts(comparator, old(x)@),
    ensures
        final(x)@.to_multiset() == old(x)@.to_multiset(),
        forall|ord: spec_fn(T, T) -> Ordering|
            #[trigger] computes(comparator, ord) && is_total_order(ord) && is_network_length(
                old(x)@.len(),
            ) && is_bitonic(facing(at_most(ord), forward), old(x)@) ==> sorted_in(
                at_most(ord),
                forward,
                final(x)@,
            ),
    decreases old(x)@.len(),
{
    if x.len() > 1 {
        compare_and_swap(x, forward, comparator);
        let ghost passed = x@;
        proof {
            lemma_accepts_rearranged(comparator, old(x)@, passed);
            lemma_accepts_halves(comparator, passed);
        }
        let mid_point: usize = x.len() / 2;
        let (left, right) = x.split_at_mut(mid_point);
        sub_sort(left, forward, comparator);
        sub_sort(right, forward, comparator);
        proof {
            let merged = left@ + right@;
            assert(passed =~= first_half(passed) + second_half(passed));
            vstd::seq_lib::lemma_multiset_commutative(first_half(passed), second_half(passed));
            vstd::seq_lib::lemma_multiset_commutative(left@, right@);
            assert forall|ord: spec_fn(T, T) -> Ordering|
                #[trigger] computes(comparator, ord) && is_total_order(ord) && is_network_length(
                    old(x)@.len(),
                ) && is_bitonic(facing(at_most(ord), forward), old(x)@) implies sorted_in(
                at_most(ord),
                forward,
                merged,
            ) by {
                let rel = facing(at_most(ord), forward);
                lemma_at_most_is_total_preorder(ord);
                lemma_network_length_halves(old(x)@.len());
                lemma_facing_sorts_in_direction(at_most(ord), forward, left@);
                lemma_facing_sorts_in_direction(at_most(ord), forward, right@);
                lemma_facing_sorts_in_direction(at_most(ord), forward, merged);
                lemma_settled_pairs_are_ordered(comparator, ord, forward, old(x)@, passed);
                lemma_pass_splits_bitonic(rel, old(x)@, passed);
                lemma_join_sorted(rel, first_half(passed), second_half(passed), left@, right@);
            }
        }
    } else {
        proof {
            assert forall|ord: spec_fn(T, T) -> Ordering| sorted_in(at_most(ord), forward, x@) by {}
        }
    }
}

/// The build: sorts the first half forward and the second backward, which
/// makes the whole bitonic, and merges it in the direction asked for.
fn do_sort<T, F>(x: &mut [T], forward: bool, comparator: &F) where F: Fn(&T, &T) -> Ordering
    requires
        accepts(comparator, old(x)@),
    ensures
        final(x)@.to_multiset() == old(x)@.to_multiset(),
        forall|ord: spec_fn(T, T) -> Ordering|
            #[trigger] computes(comparator, ord) && is_total_order(ord) && is_network_length(
                old(x)@.len(),
            ) ==> sorted_in(at_most(ord), forward, final(x)@),
    decreases old(x)@.len(),
{
    if x.len() > 1 {
        proof {
            lemma_accepts_halves(comparator, old(x)@);
        }
        let mid_point: usize = x.len() / 2;
        let (left, right) = x.split_at_mut(mid_point);
        do_sort(left, true, comparator);
        do_sort(right, false, comparator);
        let ghost built = left@ + right@;
        proof {
            assert(old(x)@ =~= first_half(old(x)@) + second_half(old(x)@));
            vstd::seq_lib::lemma_multiset_commutative(first_half(old(x)@), second_half(old(x)@));
            vstd::seq_lib::lemma_multiset_commutative(left@, right@);
            assert forall|ord: spec_fn(T, T) -> Ordering|
                #[trigger] computes(comparator, ord) && is_total_order(ord) && is_network_length(
                    old(x)@.len(),
                ) implies is_bitonic(facing(at_most(ord), forward), built) by {
                lemma_at_most_is_total_preorder(ord);
                lemma_network_length_halves(old(x)@.len());
                lemma_facing_sorts_in_direction(at_most(ord), forward, left@);
                lemma_facing_sorts_in_direction(at_most(ord), forward, right@);
                lemma_two_runs_are_bitonic(facing(at_most(ord), forward), left@, right@);
            }
        }
        assert(x@ == built);
        assert(built.len() == old(x)@.len()) by {
            vstd::seq_lib::to_multiset_len(built);
            vstd::seq_lib::to_multiset_len(old(x)@);
        }
        proof {
            lemma_accepts_rearranged(comparator, old(x)@, built);
        }
        sub_sort(x, forward, comparator);
    } else {
        proof {
            assert forall|ord: spec_fn(T, T) -> Ordering| sorted_in(at_most(ord), forward, x@) by {}
        }
    }
}

/// Sorts `x` ascending by `comparator`, in place.
///
/// A length that is neither zero nor a power of two is refused with a
/// message that names it, before anything is moved. An accepted slice is
/// rearranged, whatever the comparator answers; it comes out ascending by
/// every total order that the comparator computes. Elements that compare
/// `Equal` may change places; where only identical elements do, a slice
/// that was ascending comes out as it was.
pub fn sort_by<T, F>(x: &mut [T], comparator: &F) -> (r: Result<(), String>) where
    F: Fn(&T, &T) -> Ordering,

    requires
        accepts(comparator, old(x)@),
    ensures
        r is Ok <==> is_accepted_length(old(x)@.len()),
        r matches Err(text) ==> text@ == length_error_text(old(x)@.len()) && final(x)@ == old(x)@,
        final(x)@.to_multiset() == old(x)@.to_multiset(),
        forall|ord: spec_fn(T, T) -> Ordering|
            #[trigger] computes(comparator, ord) && is_total_order(ord) && r is Ok
                ==> ascending_by(at_most(ord), final(x)@),
        forall|ord: spec_fn(T, T) -> Ordering|
            #[trigger] computes(comparator, ord) && is_total_order(ord) && separates(ord)
                && r is Ok && ascending_by(at_most(ord), old(x)@) ==> final(x)@ == old(x)@,
{
    if x.len() == 0 || is_power_of_two(x.len()) {
        do_sort(x, true, comparator);
        proof {
            assert forall|ord: spec_fn(T, T) -> Ordering|
                #[trigger] computes(comparator, ord) && is_total_order(ord) implies ascending_by(
                at_most(ord),
                x@,
            ) by {
                vstd::seq_lib::to_multiset_len(x@);
                vstd::seq_lib::to_multiset_len(old(x)@);
            }
            assert forall|ord: spec_fn(T, T) -> Ordering|
                #[trigger] computes(comparator, ord) && is_total_order(ord) && separates(ord)
                    && ascending_by(at_most(ord), old(x)@) implies x@ == old(x)@ by {
                lemma_at_most_is_total_preorder(ord);
                lemma_sorted_arrangement_is_unique(at_most(ord), x@, old(x)@);
            }
        }
        Ok(())
    } else {
        Err(length_error(x.len()))
    }
}

/// Sorts `x` in the order asked for, in place.
///
/// A length that is neither zero nor a power of two is refused with a
/// message that names it, before anything is moved. An accepted slice is
/// rearranged; it comes out sorted in the order asked for by every total
/// order that `cmp` computes on `T`, and a slice that was so sorted comes
/// out as it was where the order separates. For a type whose comparison
/// obeys the laws of `Ord`, that order is `<=`.
pub fn sort<T: Ord>(x: &mut [T], order: &SortOrder) -> (r: Result<(), String>)
    ensures
        r is Ok <==> is_accepted_length(old(x)@.len()),
        r matches Err(text) ==> text@ == length_error_text(old(x)@.len()) && final(x)@ == old(x)@,
        final(x)@.to_multiset() == old(x)@.to_multiset(),
        forall|ord: spec_fn(T, T) -> Ordering|
            #[trigger] cmp_computes::<T>(ord) && is_total_order(ord) && r is Ok ==> sorted_in(
                at_most(ord),
                *order == SortOrder::Ascending,
                final(x)@,
            ),
        forall|ord: spec_fn(T, T) -> Ordering|
            #[trigger] cmp_computes::<T>(ord) && is_total_order(ord) && separates(ord) && r is Ok
                && sorted_in(at_most(ord), *order == SortOrder::Ascending, old(x)@) ==> final(x)@
                == old(x)@,
        obeys_cmp::<T>() && r is Ok ==> sorted_in(
            natural::<T>(),
            *order == SortOrder::Ascending,
            final(x)@,
        ),
        obeys_cmp::<T>() && obeys_concrete_eq::<T>() && r is Ok && sorted_in(
            natural::<T>(),
            *order == SortOrder::Ascending,
            old(x)@,
        ) ==> final(x)@ == old(x)@,
{
    let r = match *order {
        SortOrder::Ascending => {
            let forward = |a: &T, b: &T| -> (o: Ordering)
                ensures
                    call_ensures(T::cmp, (a, b), o),
                { a.cmp(b) };
            let r = sort_by(x, &forward);
            proof {
                assert forall|ord: spec_fn(T, T) -> Ordering| #[trigger]
                    cmp_computes::<T>(ord) implies computes(&forward, ord) by {}
            }
            r
        },
        SortOrder::Descending => {
            let backward = |a: &T, b: &T| -> (o: Ordering)
                ensures
                    call_ensures(T::cmp, (b, a), o),
                { b.cmp(a) };
            let r = sort_by(x, &backward);
            proof {
                assert forall|ord: spec_fn(T, T) -> Ordering|
                    #[trigger] cmp_computes::<T>(ord) && is_total_order(ord) implies computes(
                    &backward,
                    reversed(ord),
                ) && is_total_order(reversed(ord)) && (separates(ord) ==> separates(reversed(ord)))
                    && ascending_by(at_most(reversed(ord)), x@) == descending_by(at_most(ord), x@)
                    && ascending_by(at_most(reversed(ord)), old(x)@) == descending_by(
                    at_most(ord),
                    old(x)@,
                ) by {
                    lemma_reversed_sorts_descending(ord, x@);
                    lemma_reversed_sorts_descending(ord, old(x)@);
                }
            }
            r
        },
    };
    proof {
        if obeys_cmp::<T>() {
            let up = *order == SortOrder::Ascending;
            lemma_natural_verdicts::<T>();
            lemma_rewrite_sorted(at_most(natural_verdicts::<T>()), natural::<T>(), up, x@);
            lemma_rewrite_sorted(at_most(natural_verdicts::<T>()), natural::<T>(), up, old(x)@);
        }
    }
    r
}

} // verus!
