//! Comparators: what it takes for one to stand for a total order.
//!
//! A comparator is any function from two elements to an `Ordering`. The
//! sorter calls whatever it is given; what it promises of the result
//! depends on the order that the comparator computes.
use vstd::prelude::*;
use std::cmp::Ordering;
use vstd::laws_cmp::obeys_cmp;
use vstd::laws_eq::obeys_concrete_eq;
use vstd::std_specs::cmp::{OrdSpec, PartialOrdSpec};
use crate::natural::{lemma_natural_is_total_preorder, lemma_verdicts_agree, natural};
use crate::order::{ascending_by, descending_by, is_antisymmetric, is_total_preorder};
use crate::pass::{first_half, second_half};

verus! {

/// `comparator` may be asked about any two elements of `s`.
pub open spec fn accepts<T, F: Fn(&T, &T) -> Ordering>(comparator: &F, s: Seq<T>) -> bool {
    forall|i: int, j: int|
        0 <= i < s.len() && 0 <= j < s.len() ==> call_requires(
            *comparator,
            (&#[trigger] s[i], &#[trigger] s[j]),
        )
}

/// A comparator that accepts the elements of `s` accepts them in any
/// arrangement.
pub proof fn lemma_accepts_rearranged<T, F: Fn(&T, &T) -> Ordering>(
    comparator: &F,
    s: Seq<T>,
    rearranged: Seq<T>,
)
    requires
        accepts(comparator, s),
        rearranged.to_multiset() == s.to_multiset(),
    ensures
        accepts(comparator, rearranged),
{
    broadcast use vstd::seq_lib::group_to_multiset_ensures;

    assert forall|i: int, j: int|
        0 <= i < rearranged.len() && 0 <= j < rearranged.len() implies call_requires(
        *comparator,
        (&#[trigger] rearranged[i], &#[trigger] rearranged[j]),
    ) by {
        let a = rearranged[i];
        let b = rearranged[j];
        assert(rearranged.contains(a) && rearranged.contains(b));
        assert(rearranged.to_multiset().count(a) > 0 && rearranged.to_multiset().count(b) > 0);
        assert(s.contains(a) && s.contains(b));
        let p = choose|p: int| 0 <= p < s.len() && s[p] == a;
        let q = choose|q: int| 0 <= q < s.len() && s[q] == b;
        assert(call_requires(*comparator, (&s[p], &s[q])));
    }
}

/// A comparator that accepts the elements of `s` accepts those of each
/// half of it.
pub proof fn lemma_accepts_halves<T, F: Fn(&T, &T) -> Ordering>(comparator: &F, s: Seq<T>)
    requires
        accepts(comparator, s),
    ensures
        accepts(comparator, first_half(s)),
        accepts(comparator, second_half(s)),
{
    let half = s.len() / 2;
    assert forall|i: int, j: int|
        0 <= i < first_half(s).len() && 0 <= j < first_half(s).len() implies call_requires(
        *comparator,
        (&#[trigger] first_half(s)[i], &#[trigger] first_half(s)[j]),
    ) by {
        assert(call_requires(*comparator, (&s[i], &s[j])));
    }
    assert forall|i: int, j: int|
        0 <= i < second_half(s).len() && 0 <= j < second_half(s).len() implies call_requires(
        *comparator,
        (&#[trigger] second_half(s)[i], &#[trigger] second_half(s)[j]),
    ) by {
        assert(call_requires(*comparator, (&s[i + half], &s[j + half])));
    }
}

/// Whatever `comparator` answers for a pair is what `ord` gives on it.
pub open spec fn computes<T, F: Fn(&T, &T) -> Ordering>(
    comparator: &F,
    ord: spec_fn(T, T) -> Ordering,
) -> bool {
    forall|a: T, b: T, o: Ordering| call_ensures(*comparator, (&a, &b), o) ==> o == ord(a, b)
}

/// `ord` compares as a total order does: turning a pair around turns
/// `Less` into `Greater`, and "not greater" carries over chains. Elements
/// that compare `Equal` need not be the same element.
pub open spec fn is_total_order<T>(ord: spec_fn(T, T) -> Ordering) -> bool {
    &&& forall|a: T, b: T| #[trigger] ord(a, b) == Ordering::Less <==> ord(b, a) == Ordering::Greater
    &&& forall|a: T, b: T, c: T|
        #[trigger] ord(a, b) != Ordering::Greater && #[trigger] ord(b, c) != Ordering::Greater
            ==> ord(a, c) != Ordering::Greater
}

/// Only an element and itself compare `Equal`.
pub open spec fn separates<T>(ord: spec_fn(T, T) -> Ordering) -> bool {
    forall|a: T, b: T| #[trigger] ord(a, b) == Ordering::Equal ==> a == b
}

/// The "at most" relation of `ord`: the first is not greater than the
/// second.
pub open spec fn at_most<T>(ord: spec_fn(T, T) -> Ordering) -> spec_fn(T, T) -> bool {
    |a: T, b: T| ord(a, b) != Ordering::Greater
}

/// The "at most" relation of a total order is total and transitive, and
/// antisymmetric where the order separates.
pub proof fn lemma_at_most_is_total_preorder<T>(ord: spec_fn(T, T) -> Ordering)
    requires
        is_total_order(ord),
    ensures
        is_total_preorder(at_most(ord)),
        separates(ord) ==> is_antisymmetric(at_most(ord)),
{
    let rel = at_most(ord);
    assert forall|a: T, b: T| #[trigger] rel(a, b) || rel(b, a) by {
        assert(ord(b, a) == Ordering::Less <==> ord(a, b) == Ordering::Greater);
    }
    assert forall|a: T, b: T, c: T| #[trigger] rel(a, b) && #[trigger] rel(b, c) implies rel(
        a,
        c,
    ) by {
        assert(ord(a, b) != Ordering::Greater && ord(b, c) != Ordering::Greater);
    }
    if separates(ord) {
        assert forall|a: T, b: T| #[trigger] rel(a, b) && rel(b, a) implies a == b by {
            assert(ord(a, b) == Ordering::Less <==> ord(b, a) == Ordering::Greater);
            assert(ord(a, b) == Ordering::Equal);
        }
    }
}

/// `ord` with every pair turned around.
pub open spec fn reversed<T>(ord: spec_fn(T, T) -> Ordering) -> spec_fn(T, T) -> Ordering {
    |a: T, b: T| ord(b, a)
}

/// A total order turned around is a total order, and sorts ascending what
/// the order itself sorts descending.
pub proof fn lemma_reversed_sorts_descending<T>(ord: spec_fn(T, T) -> Ordering, s: Seq<T>)
    requires
        is_total_order(ord),
    ensures
        is_total_order(reversed(ord)),
        separates(ord) ==> separates(reversed(ord)),
        ascending_by(at_most(reversed(ord)), s) == descending_by(at_most(ord), s),
{
    let back = reversed(ord);
    assert forall|a: T, b: T| #[trigger]
        back(a, b) == Ordering::Less <==> back(b, a) == Ordering::Greater by {
        assert(ord(b, a) == Ordering::Less <==> ord(a, b) == Ordering::Greater);
    }
    assert forall|a: T, b: T, c: T|
        #[trigger] back(a, b) != Ordering::Greater && #[trigger] back(b, c)
            != Ordering::Greater implies back(a, c) != Ordering::Greater by {
        assert(ord(c, b) != Ordering::Greater && ord(b, a) != Ordering::Greater);
    }
    if separates(ord) {
        assert forall|a: T, b: T| #[trigger] back(a, b) == Ordering::Equal implies a == b by {
            assert(ord(b, a) == Ordering::Equal);
        }
    }
    if ascending_by(at_most(back), s) {
        assert forall|i: int, j: int| 0 <= i < j < s.len() implies at_most(ord)(
            #[trigger] s[j],
            #[trigger] s[i],
        ) by {
            assert(at_most(back)(s[i], s[j]));
        }
    }
    if descending_by(at_most(ord), s) {
        assert forall|i: int, j: int| 0 <= i < j < s.len() implies at_most(back)(
            #[trigger] s[i],
            #[trigger] s[j],
        ) by {
            assert(at_most(ord)(s[j], s[i]));
        }
    }
}

/// Whatever `cmp` answers for a pair of `T` is what `ord` gives on it.
pub open spec fn cmp_computes<T: Ord>(ord: spec_fn(T, T) -> Ordering) -> bool {
    forall|a: T, b: T, o: Ordering| call_ensures(T::cmp, (&a, &b), o) ==> o == ord(a, b)
}

/// The verdicts that the specification of `Ord` for `T` gives.
pub open spec fn natural_verdicts<T: Ord>() -> spec_fn(T, T) -> Ordering {
    |a: T, b: T| a.cmp_spec(&b)
}

/// For a type whose comparison obeys the laws of `Ord`, `cmp` computes a
/// total order whose "at most" is `<=`; it separates where `==` holds of
/// identical values only.
pub proof fn lemma_natural_verdicts<T: Ord>()
    requires
        obeys_cmp::<T>(),
    ensures
        cmp_computes::<T>(natural_verdicts::<T>()),
        is_total_order(natural_verdicts::<T>()),
        obeys_concrete_eq::<T>() ==> separates(natural_verdicts::<T>()),
        forall|a: T, b: T| #[trigger] at_most(natural_verdicts::<T>())(a, b) == natural::<T>()(a, b),
{
    let ord = natural_verdicts::<T>();
    let rel = natural::<T>();
    lemma_natural_is_total_preorder::<T>();
    assert(T::obeys_cmp_spec()) by {
        reveal(vstd::laws_cmp::obeys_cmp_ord);
    }
    assert forall|a: T, b: T| #[trigger] rel(a, b) == (ord(a, b) != Ordering::Greater) by {
        reveal(vstd::laws_cmp::obeys_cmp_ord);
        assert(a.partial_cmp_spec(&b) == Some(a.cmp_spec(&b)));
    }
    assert forall|a: T, b: T| #[trigger]
        ord(a, b) == Ordering::Less <==> ord(b, a) == Ordering::Greater by {
        reveal(vstd::laws_cmp::obeys_cmp_ord);
        lemma_verdicts_agree(a, b);
        assert(a.partial_cmp_spec(&b) == Some(a.cmp_spec(&b)));
        assert(b.partial_cmp_spec(&a) == Some(b.cmp_spec(&a)));
    }
    assert forall|a: T, b: T, c: T|
        #[trigger] ord(a, b) != Ordering::Greater && #[trigger] ord(b, c)
            != Ordering::Greater implies ord(a, c) != Ordering::Greater by {
        assert(rel(a, b) && rel(b, c));
        assert(rel(a, c));
    }
    assert forall|a: T, b: T| #[trigger] at_most(ord)(a, b) == rel(a, b) by {
        assert(rel(a, b) == (ord(a, b) != Ordering::Greater));
    }
    if obeys_concrete_eq::<T>() {
        assert forall|a: T, b: T| #[trigger] ord(a, b) == Ordering::Equal implies a == b by {
            assert(rel(a, b) == (ord(a, b) != Ordering::Greater));
            assert(rel(b, a) == (ord(b, a) != Ordering::Greater));
            lemma_verdicts_agree(a, b);
            assert(rel(a, b) && rel(b, a));
        }
    }
}

} // verus!
