//! Orders as relations, and sequences sorted by them.
//!
//! An order is given by its "at most" relation `rel`: `rel(a, b)` says that
//! `a` may stand before `b`. The networks only need it to be total and
//! transitive; elements that are at most each other (ties) may be distinct.
use vstd::prelude::*;

verus! {

/// Any two elements are related one way or the other, and the relation
/// carries over chains.
pub open spec fn is_total_preorder<T>(rel: spec_fn(T, T) -> bool) -> bool {
    &&& forall|a: T, b: T| #[trigger] rel(a, b) || rel(b, a)
    &&& forall|a: T, b: T, c: T| #[trigger] rel(a, b) && #[trigger] rel(b, c) ==> rel(a, c)
}

/// Elements that are at most each other are the same element.
pub open spec fn is_antisymmetric<T>(rel: spec_fn(T, T) -> bool) -> bool {
    forall|a: T, b: T| #[trigger] rel(a, b) && rel(b, a) ==> a == b
}

/// Every element is at most each element behind it.
pub open spec fn ascending_by<T>(rel: spec_fn(T, T) -> bool, s: Seq<T>) -> bool {
    forall|i: int, j: int| 0 <= i < j < s.len() ==> rel(#[trigger] s[i], #[trigger] s[j])
}

/// Every element is at most each element in front of it.
pub open spec fn descending_by<T>(rel: spec_fn(T, T) -> bool, s: Seq<T>) -> bool {
    forall|i: int, j: int| 0 <= i < j < s.len() ==> rel(#[trigger] s[j], #[trigger] s[i])
}

/// Each element is at most its successor.
pub open spec fn stepwise_ascending_by<T>(rel: spec_fn(T, T) -> bool, s: Seq<T>) -> bool {
    forall|i: int| 0 <= i < s.len() - 1 ==> rel(s[i], #[trigger] s[i + 1])
}

/// Each element is at most its predecessor.
pub open spec fn stepwise_descending_by<T>(rel: spec_fn(T, T) -> bool, s: Seq<T>) -> bool {
    forall|i: int| 0 <= i < s.len() - 1 ==> rel(#[trigger] s[i + 1], s[i])
}

/// `s` is sorted by `rel` in the direction asked for.
pub open spec fn sorted_in<T>(rel: spec_fn(T, T) -> bool, up: bool, s: Seq<T>) -> bool {
    if up {
        ascending_by(rel, s)
    } else {
        descending_by(rel, s)
    }
}

/// The relation to sort ascending by in order to sort by `rel` in the
/// direction asked for: `rel` itself, or its converse.
pub open spec fn facing<T>(rel: spec_fn(T, T) -> bool, up: bool) -> spec_fn(T, T) -> bool {
    |a: T, b: T|
        if up {
            rel(a, b)
        } else {
            rel(b, a)
        }
}

/// Every element of `low` is at most every element of `high`.
pub open spec fn all_at_most<T>(rel: spec_fn(T, T) -> bool, low: Seq<T>, high: Seq<T>) -> bool {
    forall|i: int, j: int|
        0 <= i < low.len() && 0 <= j < high.len() ==> rel(#[trigger] low[i], #[trigger] high[j])
}

/// Sorting by the facing relation is sorting in the direction asked for.
pub proof fn lemma_facing_sorts_in_direction<T>(rel: spec_fn(T, T) -> bool, up: bool, s: Seq<T>)
    ensures
        ascending_by(facing(rel, up), s) <==> sorted_in(rel, up, s),
        descending_by(facing(rel, up), s) <==> sorted_in(rel, !up, s),
        is_total_preorder(rel) ==> is_total_preorder(facing(rel, up)),
{
    let f = facing(rel, up);
    assert forall|a: T, b: T| #[trigger] f(a, b) == if up { rel(a, b) } else { rel(b, a) } by {}
    if ascending_by(f, s) {
        assert forall|i: int, j: int| 0 <= i < j < s.len() implies if up {
            rel(s[i], s[j])
        } else {
            rel(s[j], s[i])
        } by {
            assert(f(s[i], s[j]));
        }
    }
    if descending_by(f, s) {
        assert forall|i: int, j: int| 0 <= i < j < s.len() implies if up {
            rel(s[j], s[i])
        } else {
            rel(s[i], s[j])
        } by {
            assert(f(s[j], s[i]));
        }
    }
}

/// Relations that agree everywhere sort the same sequences.
pub proof fn lemma_rewrite_sorted<T>(
    rel: spec_fn(T, T) -> bool,
    same: spec_fn(T, T) -> bool,
    up: bool,
    s: Seq<T>,
)
    requires
        forall|a: T, b: T| #[trigger] rel(a, b) == same(a, b),
    ensures
        sorted_in(rel, up, s) == sorted_in(same, up, s),
{
    if sorted_in(rel, up, s) {
        assert forall|i: int, j: int| 0 <= i < j < s.len() implies if up {
            same(#[trigger] s[i], #[trigger] s[j])
        } else {
            same(s[j], s[i])
        } by {
            assert(rel(s[i], s[j]) == same(s[i], s[j]));
            assert(rel(s[j], s[i]) == same(s[j], s[i]));
        }
    }
    if sorted_in(same, up, s) {
        assert forall|i: int, j: int| 0 <= i < j < s.len() implies if up {
            rel(#[trigger] s[i], #[trigger] s[j])
        } else {
            rel(s[j], s[i])
        } by {
            assert(rel(s[i], s[j]) == same(s[i], s[j]));
            assert(rel(s[j], s[i]) == same(s[j], s[i]));
        }
    }
}

proof fn lemma_steps_reach<T>(rel: spec_fn(T, T) -> bool, s: Seq<T>, i: int, j: int)
    requires
        is_total_preorder(rel),
        stepwise_ascending_by(rel, s),
        0 <= i < j < s.len(),
    ensures
        rel(s[i], s[j]),
    decreases j - i,
{
    assert(rel(s[j - 1], s[j - 1 + 1]));
    if i < j - 1 {
        lemma_steps_reach(rel, s, i, j - 1);
    }
}

/// Under a transitive relation, a sequence that ascends step by step
/// ascends throughout, and likewise descending.
pub proof fn lemma_stepwise_is_sorted<T>(rel: spec_fn(T, T) -> bool, s: Seq<T>)
    requires
        is_total_preorder(rel),
    ensures
        stepwise_ascending_by(rel, s) <==> ascending_by(rel, s),
        stepwise_descending_by(rel, s) <==> descending_by(rel, s),
{
    if stepwise_ascending_by(rel, s) {
        assert forall|i: int, j: int| 0 <= i < j < s.len() implies rel(s[i], s[j]) by {
            lemma_steps_reach(rel, s, i, j);
        }
    }
    if stepwise_descending_by(rel, s) {
        let back = facing(rel, false);
        assert(stepwise_ascending_by(back, s)) by {
            assert forall|i: int| 0 <= i < s.len() - 1 implies back(s[i], #[trigger] s[i + 1]) by {}
        }
        lemma_facing_sorts_in_direction(rel, false, s);
        assert forall|i: int, j: int| 0 <= i < j < s.len() implies back(s[i], s[j]) by {
            lemma_steps_reach(back, s, i, j);
        }
    }
    if ascending_by(rel, s) {
        assert forall|i: int| 0 <= i < s.len() - 1 implies rel(s[i], #[trigger] s[i + 1]) by {}
    }
    if descending_by(rel, s) {
        assert forall|i: int| 0 <= i < s.len() - 1 implies rel(#[trigger] s[i + 1], s[i]) by {}
    }
}

/// Two sorted sequences, each a rearrangement of one of two sequences of
/// which the first lies wholly at most the second, join into a sorted one.
pub proof fn lemma_join_sorted<T>(
    rel: spec_fn(T, T) -> bool,
    low: Seq<T>,
    high: Seq<T>,
    low_sorted: Seq<T>,
    high_sorted: Seq<T>,
)
    requires
        all_at_most(rel, low, high),
        low_sorted.to_multiset() == low.to_multiset(),
        high_sorted.to_multiset() == high.to_multiset(),
        ascending_by(rel, low_sorted),
        ascending_by(rel, high_sorted),
    ensures
        ascending_by(rel, low_sorted + high_sorted),
{
    broadcast use vstd::seq_lib::group_to_multiset_ensures;

    let whole = low_sorted + high_sorted;
    let n = low_sorted.len() as int;
    assert forall|i: int, j: int| 0 <= i < j < whole.len() implies rel(
        #[trigger] whole[i],
        #[trigger] whole[j],
    ) by {
        if j < n {
            assert(rel(low_sorted[i], low_sorted[j]));
        } else if i >= n {
            assert(rel(high_sorted[i - n], high_sorted[j - n]));
        } else {
            let a = low_sorted[i];
            let b = high_sorted[j - n];
            assert(low_sorted.contains(a));
            assert(low_sorted.to_multiset().count(a) > 0);
            assert(low.contains(a));
            assert(high_sorted.contains(b));
            assert(high_sorted.to_multiset().count(b) > 0);
            assert(high.contains(b));
            let p = choose|p: int| 0 <= p < low.len() && low[p] == a;
            let q = choose|q: int| 0 <= q < high.len() && high[q] == b;
            assert(rel(low[p], high[q]));
        }
    }
}

/// Under an antisymmetric order, a multiset of elements has only one
/// ascending arrangement.
pub proof fn lemma_sorted_arrangement_is_unique<T>(rel: spec_fn(T, T) -> bool, s: Seq<T>, t: Seq<T>)
    requires
        is_total_preorder(rel),
        is_antisymmetric(rel),
        ascending_by(rel, s),
        ascending_by(rel, t),
        s.to_multiset() == t.to_multiset(),
    ensures
        s == t,
    decreases s.len(),
{
    broadcast use vstd::seq_lib::group_to_multiset_ensures;

    assert(s.len() == s.to_multiset().len() && t.len() == t.to_multiset().len());
    if s.len() == 0 {
        assert(s =~= t);
    } else {
        assert(rel(s[0], t[0])) by {
            assert(t.contains(t[0]));
            assert(t.to_multiset().count(t[0]) > 0);
            assert(s.contains(t[0]));
            let p = choose|p: int| 0 <= p < s.len() && s[p] == t[0];
            assert(rel(s[0], s[0]));
            if p > 0 {
                assert(rel(s[0], s[p]));
            }
        }
        assert(rel(t[0], s[0])) by {
            assert(s.contains(s[0]));
            assert(s.to_multiset().count(s[0]) > 0);
            assert(t.contains(s[0]));
            let p = choose|p: int| 0 <= p < t.len() && t[p] == s[0];
            assert(rel(t[0], t[0]));
            if p > 0 {
                assert(rel(t[0], t[p]));
            }
        }
        assert(s[0] == t[0]);
        let s_rest = s.remove(0);
        let t_rest = t.remove(0);
        assert(s_rest.to_multiset() == t_rest.to_multiset());
        assert forall|i: int, j: int| 0 <= i < j < s_rest.len() implies rel(
            #[trigger] s_rest[i],
            #[trigger] s_rest[j],
        ) by {
            assert(rel(s[i + 1], s[j + 1]));
        }
        assert forall|i: int, j: int| 0 <= i < j < t_rest.len() implies rel(
            #[trigger] t_rest[i],
            #[trigger] t_rest[j],
        ) by {
            assert(rel(t[i + 1], t[j + 1]));
        }
        lemma_sorted_arrangement_is_unique(rel, s_rest, t_rest);
        assert(s =~= t) by {
            assert forall|i: int| 0 <= i < s.len() implies s[i] == t[i] by {
                if i > 0 {
                    assert(s[i] == s_rest[i - 1]);
                    assert(t[i] == t_rest[i - 1]);
                }
            }
        }
    }
}

} // verus!
