//! An insertion sort for keyed index pairs, used to rank candidate cells:
//! the result is ordered by key and holds exactly the input pairs.

use vstd::prelude::*;
use vstd::seq_lib::group_to_multiset_ensures;

verus! {

/// Non-decreasing in the key component.
pub open spec fn sorted_by_key(s: Seq<(u64, usize)>) -> bool {
    forall|i: int, j: int| 0 <= i < j < s.len() ==> (#[trigger] s[i]).0 <= (#[trigger] s[j]).0
}

/// Sort the pairs by key, keeping exactly the same pairs.
pub fn sort_pairs(v: &mut Vec<(u64, usize)>)
    ensures
        final(v)@.len() == old(v)@.len(),
        sorted_by_key(final(v)@),
        final(v)@.to_multiset() == old(v)@.to_multiset(),
{
    let n = v.len();
    if n == 0 {
        return ;
    }
    let mut i: usize = 1;
    while i < n
        invariant
            n == v@.len(),
            1 <= i <= n,
            v@.to_multiset() == old(v)@.to_multiset(),
            forall|a: int, b: int| 0 <= a < b < i ==> (#[trigger] v@[a]).0 <= (#[trigger] v@[b]).0,
        decreases n - i,
    {
        let mut j: usize = i;
        while j > 0 && v[j - 1].0 > v[j].0
            invariant
                n == v@.len(),
                0 <= j <= i < n,
                v@.to_multiset() == old(v)@.to_multiset(),
                forall|a: int, b: int|
                    0 <= a < b <= i && b != j ==> (#[trigger] v@[a]).0 <= (#[trigger] v@[b]).0,
            decreases j,
        {
            let ghost pre = v@;
            let lower = v[j - 1];
            let upper = v[j];
            v[j - 1] = upper;
            v[j] = lower;
            proof {
                broadcast use group_to_multiset_ensures;
                broadcast use vstd::seq_lib::to_multiset_update;
                broadcast use vstd::multiset::group_multiset_axioms;

                assert(pre.contains(pre[j - 1])) by {
                    assert(pre[j - 1] == pre[j - 1]);
                }
                assert(pre.contains(pre[j as int])) by {
                    assert(pre[j as int] == pre[j as int]);
                }
                assert(v@ =~= pre.update(j - 1, pre[j as int]).update(j as int, pre[j - 1]));
                assert(v@.to_multiset() =~= pre.to_multiset());
            }
            j -= 1;
        }
        i += 1;
    }
}

/// Pairwise distinct index components.
pub open spec fn distinct_indices(s: Seq<(u64, usize)>) -> bool {
    forall|a: int, b: int| 0 <= a < b < s.len() ==> (#[trigger] s[a]).1 != (#[trigger] s[b]).1
}

/// A permutation of pairs with pairwise distinct indices again has pairwise
/// distinct indices.
pub proof fn lemma_permutation_keeps_distinct_indices(s1: Seq<(u64, usize)>, s2: Seq<(u64, usize)>)
    requires
        s1.to_multiset() == s2.to_multiset(),
        distinct_indices(s1),
    ensures
        distinct_indices(s2),
{
    broadcast use group_to_multiset_ensures;

    assert(s1.no_duplicates()) by {
        assert forall|a: int, b: int|
            0 <= a < s1.len() && 0 <= b < s1.len() && a != b implies s1[a] != s1[b] by {
            if a < b {
                assert(s1[a].1 != s1[b].1);
            } else {
                assert(s1[b].1 != s1[a].1);
            }
        }
    }
    s1.lemma_multiset_has_no_duplicates();
    s2.lemma_multiset_has_no_duplicates_conv();
    assert forall|a: int, b: int|
        0 <= a < b < s2.len() implies (#[trigger] s2[a]).1 != (#[trigger] s2[b]).1 by {
        if s2[a].1 == s2[b].1 {
            assert(s2[a] != s2[b]);
            assert(s2.contains(s2[a]));
            assert(s2.contains(s2[b]));
            assert(s1.to_multiset().count(s2[a]) > 0);
            assert(s1.to_multiset().count(s2[b]) > 0);
            assert(s1.contains(s2[a]));
            assert(s1.contains(s2[b]));
            let ia = choose|i: int| 0 <= i < s1.len() && s1[i] == s2[a];
            let ib = choose|i: int| 0 <= i < s1.len() && s1[i] == s2[b];
            assert(ia != ib);
            if ia < ib {
                assert(s1[ia].1 != s1[ib].1);
            } else {
                assert(s1[ib].1 != s1[ia].1);
            }
        }
    }
}

} // verus!
