//! One pass of the network: the pairs it visits and what it may do to them.
//!
//! A pass over a sequence pairs position `k` of the first half with
//! position `k + half` of the second. No position belongs to two pairs, so
//! the pairs can be handled in any order, or all at once.
use vstd::prelude::*;
use crate::slices::exchanged;

verus! {

/// The elements in front of the middle of `s`.
pub open spec fn first_half<T>(s: Seq<T>) -> Seq<T> {
    s.subrange(0, (s.len() / 2) as int)
}

/// The elements from the middle of `s` on; one more than the first half
/// where the length is odd.
pub open spec fn second_half<T>(s: Seq<T>) -> Seq<T> {
    s.subrange((s.len() / 2) as int, s.len() as int)
}

/// `after` arises from `before` by one pass over the pairs `(k, k + half)`
/// in which each pair was exchanged or left as it was; the last element of
/// an odd length has no partner and stays.
pub open spec fn pairwise_exchanged<T>(before: Seq<T>, after: Seq<T>) -> bool {
    let half = (before.len() / 2) as int;
    &&& after.len() == before.len()
    &&& forall|k: int|
        #![trigger after[k]]
        0 <= k < half ==> {
            ||| (after[k] == before[k] && after[k + half] == before[k + half])
            ||| (after[k] == before[k + half] && after[k + half] == before[k])
        }
    &&& forall|k: int| #![trigger after[k]] 2 * half <= k < before.len() ==> after[k] == before[k]
}

/// A pass over `before` has come as far as its pair number `done`: in
/// `current`, the pairs in front of it were exchanged or left, and the
/// pairs from it on, like the unpaired last element of an odd length,
/// still stand as they stood.
pub open spec fn pass_reached<T>(before: Seq<T>, current: Seq<T>, done: int) -> bool {
    let half = (before.len() / 2) as int;
    &&& 0 <= done <= half
    &&& pairwise_exchanged(before, current)
    &&& forall|k: int|
        #![trigger current[k]]
        done <= k < half ==> current[k] == before[k] && current[k + half] == before[k + half]
}

/// In each pair `(k, k + half)` the first element is at most the second.
pub open spec fn pairs_ordered<T>(rel: spec_fn(T, T) -> bool, s: Seq<T>) -> bool {
    let half = (s.len() / 2) as int;
    forall|k: int| 0 <= k < half ==> rel(#[trigger] s[k], s[k + half])
}

/// Exchanging the next pair of a pass, or leaving it, takes the pass one
/// pair further and touches no other pair.
pub proof fn lemma_pass_step<T>(
    before: Seq<T>,
    entry: Seq<T>,
    current: Seq<T>,
    done: int,
    swapped: bool,
)
    requires
        pass_reached(before, entry, done),
        done < before.len() / 2,
        current == if swapped {
            exchanged(entry, done, done + before.len() / 2)
        } else {
            entry
        },
    ensures
        pass_reached(before, current, done + 1),
        forall|k: int|
            0 <= k < current.len() && k != done && k != done + before.len() / 2 ==> current[k]
                == entry[k],
        entry[done] == before[done],
        entry[done + before.len() / 2] == before[done + before.len() / 2],
        current[done] == if swapped {
            before[done + before.len() / 2]
        } else {
            before[done]
        },
        current[done + before.len() / 2] == if swapped {
            before[done]
        } else {
            before[done + before.len() / 2]
        },
{
    let half = (before.len() / 2) as int;
    assert(entry[done] == before[done] && entry[done + half] == before[done + half]);
    assert forall|k: int| 0 <= k < current.len() && k != done && k != done + half implies current[k]
        == entry[k] by {}
    assert forall|k: int| #![trigger current[k]] 0 <= k < half implies {
        ||| (current[k] == before[k] && current[k + half] == before[k + half])
        ||| (current[k] == before[k + half] && current[k + half] == before[k])
    } by {
        if k != done {
            assert(current[k] == entry[k]);
            assert(current[k + half] == entry[k + half]);
            assert({
                ||| (entry[k] == before[k] && entry[k + half] == before[k + half])
                ||| (entry[k] == before[k + half] && entry[k + half] == before[k])
            });
        }
    }
    assert forall|k: int| #![trigger current[k]] 2 * half <= k < before.len() implies current[k]
        == before[k] by {
        assert(entry[k] == before[k]);
    }
    assert forall|k: int| #![trigger current[k]] done + 1 <= k < half implies current[k]
        == before[k] && current[k + half] == before[k + half] by {
        assert(entry[k] == before[k]);
        assert(current[k + half] == entry[k + half]);
    }
}

} // verus!
