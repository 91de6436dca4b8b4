//! Sortedness predicates, and a reproducible source of test vectors.
use vstd::prelude::*;
use rand::distributions::Standard;
use rand::{Rng, SeedableRng};
use rand_pcg::Pcg64Mcg;
use vstd::laws_cmp::obeys_cmp;
use vstd::std_specs::cmp::PartialOrdSpec;
use crate::natural::{
    lemma_natural_is_total_preorder, lemma_verdicts_agree, natural, natural_reverse,
};
use crate::order::{
    ascending_by, descending_by, lemma_stepwise_is_sorted, stepwise_ascending_by,
    stepwise_descending_by,
};

verus! {

/// The generator of `rand_pcg` behind `Pcg64Mcg`, carried as an opaque
/// value: all that is said of one is which numbers it has yet to draw.
#[verifier::external_type_specification]
#[verifier::external_body]
pub struct ExMcg128Xsl64(rand_pcg::Mcg128Xsl64);

/// The number that `rng` will draw `k` draws from now.
pub uninterp spec fn upcoming(rng: Pcg64Mcg, k: int) -> u32;

/// The number that a generator made from `seed` draws at its draw `k`,
/// counted from zero.
pub uninterp spec fn seeded_number(seed: Seq<u8>, k: int) -> u32;

/// The first `n` numbers of the generator made from `seed`.
pub open spec fn seeded_numbers(seed: Seq<u8>, n: nat) -> Seq<u32> {
    Seq::new(n, |k: int| seeded_number(seed, k))
}

/// A generator in the state that `seed` gives.
///
/// Trusted: calls `rand_pcg::Pcg64Mcg::from_seed`, which sets the state
/// from the sixteen bytes of the seed and from nothing else, so the numbers
/// to come are those of the seed.
#[verifier::external_body]
fn generator_from(seed: [u8; 16]) -> (rng: Pcg64Mcg)
    ensures
        forall|k: int| 0 <= k ==> upcoming(rng, k) == seeded_number(seed@, k),
{
    Pcg64Mcg::from_seed(seed)
}

/// Draws the next number.
///
/// Trusted: calls `rand::Rng::sample` with `rand::distributions::Standard`,
/// which for `u32` hands out the generator's next output and advances its
/// state by one step: what was one draw further away is now next.
#[verifier::external_body]
fn draw(rng: &mut Pcg64Mcg) -> (number: u32)
    ensures
        number == upcoming(*old(rng), 0),
        forall|k: int| 0 <= k ==> upcoming(*final(rng), k) == upcoming(*old(rng), k + 1),
{
    rng.sample(&Standard)
}

/// The seed of the test vectors: sixteen zero bytes.
pub open spec fn zero_seed() -> Seq<u8> {
    Seq::new(16, |i: int| 0u8)
}

/// A vector of `n` pseudo-random numbers, the same on every call: the
/// first `n` numbers of the generator made from the zero seed.
pub fn new_u32_vec(n: usize) -> (v: Vec<u32>)
    ensures
        v@ == seeded_numbers(zero_seed(), n as nat),
        v@.len() == n,
{
    let seed: [u8; 16] = [0; 16];
    assert(seed@ =~= zero_seed());
    let mut rng = generator_from(seed);
    let mut v: Vec<u32> = Vec::new();
    let mut i: usize = 0;
    while i < n
        invariant
            i <= n,
            v@ == seeded_numbers(seed@, i as nat),
            forall|k: int| 0 <= k ==> upcoming(rng, k) == seeded_number(seed@, i + k),
        decreases n - i,
    {
        let number = draw(&mut rng);
        v.push(number);
        i = i + 1;
    }
    v
}

/// Whether each element of `x` is at most its successor.
///
/// The answer is `true` where `<=` says so of every step, and `false` at
/// the first step of which it does not. Where the comparison of `T` obeys
/// the laws of `Ord`, that is to say whether `x` is ascending throughout.
pub fn is_sorted_ascending<T: Ord>(x: &[T]) -> (r: bool)
    ensures
        r ==> forall|k: int|
            0 <= k < x@.len() - 1 ==> #[trigger] call_ensures(T::le, (&x@[k], &x@[k + 1]), true),
        !r ==> exists|k: int|
            0 <= k < x@.len() - 1 && #[trigger] call_ensures(T::le, (&x@[k], &x@[k + 1]), false),
        T::obeys_partial_cmp_spec() ==> r == stepwise_ascending_by(natural::<T>(), x@),
        obeys_cmp::<T>() ==> r == ascending_by(natural::<T>(), x@),
{
    let mut i: usize = 1;
    while i < x.len()
        invariant
            1 <= i,
            forall|k: int|
                0 <= k < i - 1 ==> #[trigger] call_ensures(T::le, (&x@[k], &x@[k + 1]), true),
        decreases x@.len() - i,
    {
        if !x[i - 1].le(&x[i]) {
            proof {
                assert(call_ensures(T::le, (&x@[i - 1], &x@[i - 1 + 1]), false));
                if T::obeys_partial_cmp_spec() {
                    assert(!natural::<T>()(x@[i - 1], x@[i - 1 + 1]));
                }
                lemma_sorted_throughout::<T>(x@);
            }
            return false;
        }
        i = i + 1;
    }
    proof {
        if T::obeys_partial_cmp_spec() {
            assert forall|k: int| 0 <= k < x@.len() - 1 implies natural::<T>()(
                x@[k],
                #[trigger] x@[k + 1],
            ) by {
                assert(call_ensures(T::le, (&x@[k], &x@[k + 1]), true));
            }
        }
        lemma_sorted_throughout::<T>(x@);
    }
    true
}

/// Whether each element of `x` is at least its successor.
///
/// The answer is `true` where `>=` says so of every step, and `false` at
/// the first step of which it does not. Where the comparison of `T` obeys
/// the laws of `Ord`, that is to say whether `x` is descending throughout.
pub fn is_sorted_descending<T: Ord>(x: &[T]) -> (r: bool)
    ensures
        r ==> forall|k: int|
            0 <= k < x@.len() - 1 ==> #[trigger] call_ensures(T::ge, (&x@[k], &x@[k + 1]), true),
        !r ==> exists|k: int|
            0 <= k < x@.len() - 1 && #[trigger] call_ensures(T::ge, (&x@[k], &x@[k + 1]), false),
        T::obeys_partial_cmp_spec() ==> r == stepwise_ascending_by(natural_reverse::<T>(), x@),
        obeys_cmp::<T>() ==> r == descending_by(natural::<T>(), x@),
{
    let mut i: usize = 1;
    while i < x.len()
        invariant
            1 <= i,
            forall|k: int|
                0 <= k < i - 1 ==> #[trigger] call_ensures(T::ge, (&x@[k], &x@[k + 1]), true),
        decreases x@.len() - i,
    {
        if !x[i - 1].ge(&x[i]) {
            proof {
                assert(call_ensures(T::ge, (&x@[i - 1], &x@[i - 1 + 1]), false));
                if T::obeys_partial_cmp_spec() {
                    assert(!natural_reverse::<T>()(x@[i - 1], x@[i - 1 + 1]));
                }
                lemma_sorted_throughout::<T>(x@);
            }
            return false;
        }
        i = i + 1;
    }
    proof {
        if T::obeys_partial_cmp_spec() {
            assert forall|k: int| 0 <= k < x@.len() - 1 implies natural_reverse::<T>()(
                x@[k],
                #[trigger] x@[k + 1],
            ) by {
                assert(call_ensures(T::ge, (&x@[k], &x@[k + 1]), true));
            }
        }
        lemma_sorted_throughout::<T>(x@);
    }
    true
}

/// For a type whose comparison obeys the laws of `Ord`, a sequence in
/// which each element is at most its successor is ascending, and one in
/// which each is at least its successor is descending.
pub proof fn lemma_sorted_throughout<T: Ord>(s: Seq<T>)
    ensures
        obeys_cmp::<T>() ==> T::obeys_partial_cmp_spec(),
        obeys_cmp::<T>() ==> stepwise_ascending_by(natural::<T>(), s) == ascending_by(
            natural::<T>(),
            s,
        ),
        obeys_cmp::<T>() ==> stepwise_ascending_by(natural_reverse::<T>(), s) == descending_by(
            natural::<T>(),
            s,
        ),
{
    if obeys_cmp::<T>() {
        reveal(vstd::laws_cmp::obeys_cmp_partial_ord);
        lemma_natural_is_total_preorder::<T>();
        lemma_stepwise_is_sorted(natural::<T>(), s);
        assert(stepwise_ascending_by(natural_reverse::<T>(), s) == stepwise_descending_by(
            natural::<T>(),
            s,
        )) by {
            assert forall|a: T, b: T| #[trigger]
                natural_reverse::<T>()(a, b) == natural::<T>()(b, a) by {
                lemma_verdicts_agree(a, b);
            }
            if stepwise_ascending_by(natural_reverse::<T>(), s) {
                assert forall|i: int| 0 <= i < s.len() - 1 implies natural::<T>()(
                    #[trigger] s[i + 1],
                    s[i],
                ) by {
                    assert(natural_reverse::<T>()(s[i], s[i + 1]));
                }
            }
            if stepwise_descending_by(natural::<T>(), s) {
                assert forall|i: int| 0 <= i < s.len() - 1 implies natural_reverse::<T>()(
                    s[i],
                    #[trigger] s[i + 1],
                ) by {
                    assert(natural::<T>()(s[i + 1], s[i]));
                }
            }
        }
    }
}

} // verus!
