//! Moving elements within a slice.
use vstd::prelude::*;

verus! {

/// `s` with the elements at `i` and `j` exchanged.
pub open spec fn exchanged<T>(s: Seq<T>, i: int, j: int) -> Seq<T> {
    s.update(i, s[j]).update(j, s[i])
}

/// Exchanging two elements rearranges a sequence.
pub proof fn lemma_exchange_rearranges<T>(s: Seq<T>, i: int, j: int)
    requires
        0 <= i < s.len(),
        0 <= j < s.len(),
    ensures
        exchanged(s, i, j).to_multiset() == s.to_multiset(),
{
    broadcast use vstd::seq_lib::group_to_multiset_ensures;

    let once = s.update(i, s[j]);
    assert(s.contains(s[j]));
    assert(once.to_multiset() == s.to_multiset().insert(s[j]).remove(s[i]));
    assert(once[j] == s[j]);
    assert(exchanged(s, i, j).to_multiset() == once.to_multiset().insert(s[i]).remove(s[j]));
    assert(exchanged(s, i, j).to_multiset() =~= s.to_multiset());
}

/// Exchanges the elements at `i` and `j`, where `i` comes first.
pub fn exchange<T>(x: &mut [T], i: usize, j: usize)
    requires
        i < j < old(x)@.len(),
    ensures
        final(x)@ == exchanged(old(x)@, i as int, j as int),
        final(x)@.to_multiset() == old(x)@.to_multiset(),
{
    let (front, back) = x.split_at_mut(j);
    core::mem::swap(&mut front[i], &mut back[0]);
    proof {
        lemma_exchange_rearranges(old(x)@, i as int, j as int);
        assert(front@ + back@ =~= exchanged(old(x)@, i as int, j as int));
    }
}

} // verus!
