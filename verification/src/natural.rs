//! The order that `Ord` gives a type, as a relation.
use vstd::prelude::*;
use std::cmp::Ordering;
use vstd::laws_cmp::obeys_cmp;
use vstd::laws_eq::obeys_concrete_eq;
use vstd::std_specs::cmp::{PartialEqSpec, PartialOrdSpec};
use crate::order::{is_antisymmetric, is_total_preorder};

verus! {

/// `a <= b`, as the type's own comparison specifies it.
pub open spec fn natural<T: Ord>() -> spec_fn(T, T) -> bool {
    |a: T, b: T| a.partial_cmp_spec(&b) matches Some(Ordering::Less | Ordering::Equal)
}

/// `a >= b`, as the type's own comparison specifies it.
pub open spec fn natural_reverse<T: Ord>() -> spec_fn(T, T) -> bool {
    |a: T, b: T| a.partial_cmp_spec(&b) matches Some(Ordering::Greater | Ordering::Equal)
}

/// Whatever `>` answers for a pair is whether `rel` fails to hold of it.
pub open spec fn gt_computes<T: Ord>(rel: spec_fn(T, T) -> bool) -> bool {
    forall|a: T, b: T, greater: bool|
        call_ensures(T::gt, (&a, &b), greater) ==> greater == !rel(a, b)
}

/// The two verdicts on a pair and on the pair turned around.
pub proof fn lemma_verdicts_agree<T: Ord>(a: T, b: T)
    requires
        obeys_cmp::<T>(),
    ensures
        a.partial_cmp_spec(&b) is Some,
        a.partial_cmp_spec(&b) == Some(Ordering::Less) <==> b.partial_cmp_spec(&a) == Some(
            Ordering::Greater,
        ),
        a.partial_cmp_spec(&b) == Some(Ordering::Greater) <==> b.partial_cmp_spec(&a) == Some(
            Ordering::Less,
        ),
        a.partial_cmp_spec(&b) == Some(Ordering::Equal) <==> b.partial_cmp_spec(&a) == Some(
            Ordering::Equal,
        ),
        a.partial_cmp_spec(&b) == Some(Ordering::Equal) <==> a.eq_spec(&b),
{
    reveal(vstd::laws_cmp::obeys_partial_cmp_spec_properties);
    reveal(vstd::laws_cmp::obeys_cmp_partial_ord);
    reveal(vstd::laws_cmp::obeys_cmp_ord);
    reveal(vstd::laws_eq::obeys_eq_spec_properties);
    assert(a.partial_cmp_spec(&b) == Some(vstd::std_specs::cmp::OrdSpec::cmp_spec(&a, &b)));
    assert(b.partial_cmp_spec(&a) == Some(vstd::std_specs::cmp::OrdSpec::cmp_spec(&b, &a)));
    assert(a.eq_spec(&b) <==> b.eq_spec(&a));
}

/// For a type whose comparison obeys the laws of `Ord`, `<=` is total and
/// transitive; it is antisymmetric where `==` holds of identical values
/// only.
pub proof fn lemma_natural_is_total_preorder<T: Ord>()
    requires
        obeys_cmp::<T>(),
    ensures
        is_total_preorder(natural::<T>()),
        obeys_concrete_eq::<T>() ==> is_antisymmetric(natural::<T>()),
{
    reveal(vstd::laws_cmp::obeys_partial_cmp_spec_properties);
    reveal(vstd::laws_cmp::obeys_cmp_partial_ord);
    reveal(vstd::laws_cmp::obeys_cmp_ord);
    reveal(vstd::laws_eq::obeys_eq_spec_properties);
    let rel = natural::<T>();
    assert forall|a: T, b: T| #[trigger] rel(a, b) || rel(b, a) by {
        lemma_verdicts_agree(a, b);
    }
    assert forall|a: T, b: T, c: T| #[trigger] rel(a, b) && #[trigger] rel(b, c) implies rel(
        a,
        c,
    ) by {
        lemma_verdicts_agree(a, b);
        lemma_verdicts_agree(b, c);
        lemma_verdicts_agree(a, c);
        lemma_verdicts_agree(c, b);
        lemma_verdicts_agree(b, a);
        if a.partial_cmp_spec(&c) == Some(Ordering::Greater) {
            assert(c.partial_cmp_spec(&a) == Some(Ordering::Less));
            if a.partial_cmp_spec(&b) == Some(Ordering::Less) {
                assert(c.partial_cmp_spec(&b) == Some(Ordering::Less));
            } else {
                assert(b.eq_spec(&a));
                if b.partial_cmp_spec(&c) == Some(Ordering::Less) {
                    assert(b.partial_cmp_spec(&a) == Some(Ordering::Less));
                } else {
                    assert(a.eq_spec(&b));
                    assert(b.eq_spec(&c));
                    assert(a.eq_spec(&c));
                }
            }
        }
    }
    if obeys_concrete_eq::<T>() {
        reveal(obeys_concrete_eq);
        assert forall|a: T, b: T| #[trigger] rel(a, b) && rel(b, a) implies a == b by {
            lemma_verdicts_agree(a, b);
            assert(a.eq_spec(&b));
        }
    }
}

/// For a type whose comparison obeys the laws of `Ord`, `>` computes the
/// failure of `<=`.
pub proof fn lemma_natural_is_computed<T: Ord>()
    requires
        obeys_cmp::<T>(),
    ensures
        gt_computes::<T>(natural::<T>()),
{
    reveal(vstd::laws_cmp::obeys_cmp_partial_ord);
    assert forall|a: T, b: T, greater: bool|
        call_ensures(T::gt, (&a, &b), greater) implies greater == !natural::<T>()(a, b) by {
        lemma_verdicts_agree(a, b);
    }
}

} // verus!
