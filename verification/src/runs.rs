//! Sequences of booleans whose `true` positions form one run.
//!
//! Whether a sequence of elements is sorted or bitonic can be read off its
//! threshold images: for a threshold `t`, mark each position whose element
//! lies above `t`. This module holds the facts about such images that the
//! networks rest on, free of any element type.
use vstd::prelude::*;

verus! {

/// `b` is `true` exactly on the positions `a..c` (or, with `inverted`,
/// exactly off them).
pub open spec fn is_arc(b: Seq<bool>, a: int, c: int, inverted: bool) -> bool {
    &&& 0 <= a <= c <= b.len()
    &&& forall|i: int| 0 <= i < b.len() ==> #[trigger] b[i] == ((a <= i < c) != inverted)
}

/// The `true` positions of `b` form a single run when the sequence is read
/// as a ring: a run inside the sequence, or one that wraps around its end.
pub open spec fn is_ring_run(b: Seq<bool>) -> bool {
    exists|a: int, c: int, inverted: bool| is_arc(b, a, c, inverted)
}

/// No `true` is followed by a `false`.
pub open spec fn is_rising(b: Seq<bool>) -> bool {
    forall|i: int, j: int| 0 <= i < j < b.len() && b[i] ==> b[j]
}

/// No `false` is followed by a `true`.
pub open spec fn is_falling(b: Seq<bool>) -> bool {
    forall|i: int, j: int| 0 <= i < j < b.len() && b[j] ==> b[i]
}

/// Position by position, the conjunction of the two halves of `b`.
pub open spec fn half_and(b: Seq<bool>) -> Seq<bool> {
    Seq::new((b.len() / 2) as nat, |i: int| b[i] && b[i + b.len() / 2])
}

/// Position by position, the disjunction of the two halves of `b`.
pub open spec fn half_or(b: Seq<bool>) -> Seq<bool> {
    Seq::new((b.len() / 2) as nat, |i: int| b[i] || b[i + b.len() / 2])
}

/// Every entry of `b` equals `v`.
pub open spec fn is_constant(b: Seq<bool>, v: bool) -> bool {
    forall|i: int| 0 <= i < b.len() ==> b[i] == v
}

/// A rising sequence is `false` up to some position and `true` from it on.
pub proof fn lemma_rising_has_step(b: Seq<bool>) -> (a: int)
    requires
        is_rising(b),
    ensures
        is_arc(b, a, b.len() as int, false),
    decreases b.len(),
{
    if b.len() == 0 {
        0
    } else if b[0] {
        assert forall|i: int| 0 <= i < b.len() implies #[trigger] b[i] by {
            if i > 0 {
                assert(b[0] ==> b[i]);
            }
        }
        0
    } else {
        let rest = b.subrange(1, b.len() as int);
        assert forall|i: int, j: int| 0 <= i < j < rest.len() && rest[i] implies rest[j] by {
            assert(b[i + 1] ==> b[j + 1]);
        }
        let a = lemma_rising_has_step(rest);
        assert forall|i: int| 0 <= i < b.len() implies #[trigger] b[i] == (a + 1 <= i < b.len()) by {
            if i > 0 {
                assert(rest[i - 1] == b[i]);
            }
        }
        a + 1
    }
}

/// A falling sequence is `true` up to some position and `false` from it on.
pub proof fn lemma_falling_has_step(b: Seq<bool>) -> (c: int)
    requires
        is_falling(b),
    ensures
        is_arc(b, 0, c, false),
    decreases b.len(),
{
    if b.len() == 0 {
        0
    } else if !b[0] {
        assert forall|i: int| 0 <= i < b.len() implies !#[trigger] b[i] by {
            if i > 0 {
                assert(b[i] ==> b[0]);
            }
        }
        0
    } else {
        let rest = b.subrange(1, b.len() as int);
        assert forall|i: int, j: int| 0 <= i < j < rest.len() && rest[j] implies rest[i] by {
            assert(b[j + 1] ==> b[i + 1]);
        }
        let c = lemma_falling_has_step(rest);
        assert forall|i: int| 0 <= i < b.len() implies #[trigger] b[i] == (0 <= i < c + 1) by {
            if i > 0 {
                assert(rest[i - 1] == b[i]);
            }
        }
        c + 1
    }
}

/// A rising sequence followed by a falling one, or a falling one followed
/// by a rising one, has its `true` positions in one ring run.
pub proof fn lemma_two_slopes_make_ring_run(left: Seq<bool>, right: Seq<bool>)
    requires
        (is_rising(left) && is_falling(right)) || (is_falling(left) && is_rising(right)),
    ensures
        is_ring_run(left + right),
{
    let whole = left + right;
    let n = left.len() as int;
    if is_rising(left) && is_falling(right) {
        let a = lemma_rising_has_step(left);
        let c = lemma_falling_has_step(right);
        assert forall|i: int| 0 <= i < whole.len() implies #[trigger] whole[i] == ((a <= i < n + c)
            != false) by {
            if i < n {
                assert(whole[i] == left[i]);
            } else {
                assert(whole[i] == right[i - n]);
            }
        }
        assert(is_arc(whole, a, n + c, false));
    } else {
        let a = lemma_falling_has_step(left);
        let c = lemma_rising_has_step(right);
        assert forall|i: int| 0 <= i < whole.len() implies #[trigger] whole[i] == ((a <= i < n + c)
            != true) by {
            if i < n {
                assert(whole[i] == left[i]);
            } else {
                assert(whole[i] == right[i - n]);
            }
        }
        assert(is_arc(whole, a, n + c, true));
    }
}

/// Folding a ring run of even length onto itself: the conjunction and the
/// disjunction of its halves are ring runs again, and either the first is
/// `false` throughout or the second is `true` throughout.
pub proof fn lemma_fold_ring_run(b: Seq<bool>)
    requires
        b.len() % 2 == 0,
        is_ring_run(b),
    ensures
        is_ring_run(half_and(b)),
        is_ring_run(half_or(b)),
        is_constant(half_and(b), false) || is_constant(half_or(b), true),
{
    let m = (b.len() / 2) as int;
    let lo = half_and(b);
    let hi = half_or(b);
    let (a, c, inverted) = choose|a: int, c: int, inverted: bool| is_arc(b, a, c, inverted);
    assert forall|i: int| 0 <= i < m implies lo[i] == (b[i] && b[i + m]) && hi[i] == (b[i] || b[i
        + m]) by {}
    if !inverted {
        if c <= m {
            assert(is_arc(lo, 0, 0, false));
            assert(is_arc(hi, a, c, false));
        } else if a >= m {
            assert(is_arc(lo, 0, 0, false));
            assert(is_arc(hi, a - m, c - m, false));
        } else if c - m <= a {
            assert(is_arc(lo, 0, 0, false));
            assert(is_arc(hi, c - m, a, true));
        } else {
            assert(is_arc(lo, a, c - m, false));
            assert(is_arc(hi, 0, m, false));
        }
    } else {
        if c <= m {
            assert(is_arc(lo, a, c, true));
            assert(is_arc(hi, 0, m, false));
        } else if a >= m {
            assert(is_arc(lo, a - m, c - m, true));
            assert(is_arc(hi, 0, m, false));
        } else if c - m <= a {
            assert(is_arc(lo, c - m, a, false));
            assert(is_arc(hi, 0, m, false));
        } else {
            assert(is_arc(lo, 0, 0, false));
            assert(is_arc(hi, a, c - m, true));
        }
    }
}

} // verus!
