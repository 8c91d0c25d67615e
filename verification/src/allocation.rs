//! The allocation engine: aspiration bidding. A budget of indivisible units
//! is spread over a list of candidates, each with a base cost, by raising a
//! shared waterline one step per round and admitting every candidate whose
//! effective cost (base cost plus units already placed on it) is still below
//! the line. The cheapest candidates fill first and ties share evenly.

use vstd::prelude::*;

verus! {

/// Sum of a sequence of placement counters.
pub open spec fn sum_placed(s: Seq<u32>) -> int
    decreases s.len(),
{
    if s.len() == 0 {
        0
    } else {
        sum_placed(s.drop_last()) + s.last()
    }
}

/// Raising one entry by one raises the sum by one.
pub proof fn lemma_sum_placed_update(s: Seq<u32>, i: int, v: u32)
    requires
        0 <= i < s.len(),
    ensures
        sum_placed(s.update(i, v)) == sum_placed(s) - s[i] + v,
    decreases s.len(),
{
    let t = s.update(i, v);
    if i == s.len() - 1 {
        assert(t.drop_last() =~= s.drop_last());
    } else {
        assert(t.drop_last() =~= s.drop_last().update(i, v));
        lemma_sum_placed_update(s.drop_last(), i, v);
    }
}

/// Every entry is at most the total, since no entry is negative.
pub proof fn lemma_sum_placed_entry_le(s: Seq<u32>, i: int)
    requires
        0 <= i < s.len(),
    ensures
        s[i] <= sum_placed(s),
        sum_placed(s) >= 0,
    decreases s.len(),
{
    if i == s.len() - 1 {
        lemma_sum_placed_nonneg(s.drop_last());
    } else {
        lemma_sum_placed_entry_le(s.drop_last(), i);
    }
}

/// A prefix never sums to more than the whole sequence.
pub proof fn lemma_sum_placed_prefix_le(s: Seq<u32>, i: int)
    requires
        0 <= i <= s.len(),
    ensures
        sum_placed(s.take(i)) <= sum_placed(s),
    decreases s.len() - i,
{
    if i == s.len() {
        assert(s.take(i) =~= s);
    } else {
        assert(s.take(i + 1).drop_last() =~= s.take(i));
        assert(s.take(i + 1).last() == s[i]);
        lemma_sum_placed_prefix_le(s, i + 1);
    }
}

/// A sum of placement counters is never negative.
pub proof fn lemma_sum_placed_nonneg(s: Seq<u32>)
    ensures
        sum_placed(s) >= 0,
    decreases s.len(),
{
    if s.len() > 0 {
        lemma_sum_placed_nonneg(s.drop_last());
    }
}

/// The effective cost of candidate `i`: its base cost plus what is already
/// placed on it.
pub open spec fn effective(costs: Seq<u64>, placed: Seq<u32>, i: int) -> int {
    costs[i] + placed[i]
}

/// Spread `budget` units over the candidates.
///
/// The result has one counter per candidate; the counters sum to exactly the
/// budget (with a positive budget the candidate list must not be empty — that
/// is the caller's precondition, not a recoverable state). Fairness: a
/// candidate that received anything never ends with an effective cost more
/// than one above any other candidate's final effective cost.
pub fn allocate(budget: u32, costs: &Vec<u64>) -> (placed: Vec<u32>)
    requires
        budget > 0 ==> costs@.len() > 0,
        forall|i: int| 0 <= i < costs@.len() ==> #[trigger] costs@[i] <= 0x4000_0000_0000_0000,
    ensures
        placed@.len() == costs@.len(),
        sum_placed(placed@) == budget,
        forall|i: int, j: int|
            0 <= i < placed@.len() && 0 <= j < placed@.len() && placed@[i] > 0 ==> effective(
                costs@,
                placed@,
                i,
            ) <= effective(costs@, placed@, j) + 1,
{
    let k = costs.len();
    let mut placed: Vec<u32> = Vec::new();
    let mut z: usize = 0;
    while z < k
        invariant
            z <= k,
            placed@.len() == z,
            forall|i: int| 0 <= i < z ==> placed@[i] == 0,
        decreases k - z,
    {
        placed.push(0);
        z += 1;
    }
    proof {
        lemma_sum_placed_zero(placed@);
    }
    if budget == 0 {
        return placed;
    }
    let mut low: u64 = costs[0];
    let mut m: usize = 1;
    while m < k
        invariant
            1 <= m <= k,
            k == costs@.len(),
            forall|i: int| 0 <= i < costs@.len() ==> #[trigger] costs@[i] <= 0x4000_0000_0000_0000,
            low <= 0x4000_0000_0000_0000,
            exists|i: int| 0 <= i < m && costs@[i] == low,
            forall|i: int| 0 <= i < m ==> #[trigger] costs@[i] >= low,
        decreases k - m,
    {
        if costs[m] < low {
            low = costs[m];
        }
        m += 1;
    }
    let mut aspiration: u64 = low;
    let mut left: u32 = budget;
    proof {
        let w0 = choose|i: int| 0 <= i < k && costs@[i] == low;
        assert(effective(costs@, placed@, w0) == aspiration);
    }
    while left > 0
        invariant
            k == costs@.len(),
            k > 0,
            placed@.len() == k,
            forall|i: int| 0 <= i < costs@.len() ==> #[trigger] costs@[i] <= 0x4000_0000_0000_0000,
            left <= budget,
            sum_placed(placed@) == budget - left,
            low <= aspiration,
            aspiration - low <= budget - left + 1,
            forall|i: int| 0 <= i < k ==> #[trigger] effective(costs@, placed@, i) >= aspiration - 1,
            left > 0 ==> forall|i: int|
                0 <= i < k ==> #[trigger] effective(costs@, placed@, i) >= aspiration,
            left > 0 ==> exists|i: int| 0 <= i < k && effective(costs@, placed@, i) == aspiration,
            forall|i: int|
                0 <= i < k && placed@[i] > 0 ==> #[trigger] effective(costs@, placed@, i)
                    <= aspiration,
        decreases left,
    {
        let round_aspiration = aspiration + 1;
        let ghost start = placed@;
        let ghost left_start = left;
        let mut c: usize = 0;
        while c < k
            invariant
                k == costs@.len(),
                k > 0,
                c <= k,
                placed@.len() == k,
                forall|i: int| 0 <= i < costs@.len() ==> #[trigger] costs@[i] <= 0x4000_0000_0000_0000,
                round_aspiration == aspiration + 1,
                aspiration <= 0x4000_0000_0000_0000 + u32::MAX as u64 + 1,
                left <= left_start <= budget,
                left_start > 0,
                sum_placed(placed@) == budget - left,
                forall|i: int|
                    0 <= i < k ==> #[trigger] effective(costs@, placed@, i) >= aspiration,
                forall|i: int|
                    0 <= i < c && left > 0 ==> #[trigger] effective(costs@, placed@, i)
                        >= round_aspiration,
                forall|i: int|
                    0 <= i < k ==> placed@[i] == start[i] || placed@[i] == start[i] + 1,
                forall|i: int| c <= i < k ==> placed@[i] == start[i],
                forall|i: int|
                    0 <= i < k && placed@[i] > 0 ==> #[trigger] effective(costs@, placed@, i)
                        <= round_aspiration,
                (left == left_start && left > 0) ==> (exists|i: int|
                    c <= i < k && effective(costs@, placed@, i) == aspiration),
            decreases k - c,
        {
            proof {
                lemma_sum_placed_entry_le(placed@, c as int);
            }
            let ghost snap = placed@;
            let ghost left_snap = left;
            let mut did_place: bool = false;
            if left > 0 && placed[c] as u64 + costs[c] < round_aspiration {
                let newcount = placed[c] + 1;
                placed[c] = newcount;
                left = left - 1;
                did_place = true;
                proof {
                    lemma_sum_placed_update(snap, c as int, newcount);
                }
            }
            proof {
                let ci = c as int;
                assert forall|i: int| 0 <= i < k implies #[trigger] effective(costs@, placed@, i)
                    >= aspiration by {
                    if i != ci {
                        assert(placed@[i] == snap[i]);
                    }
                    assert(effective(costs@, snap, i) >= aspiration);
                }
                assert forall|i: int| 0 <= i < ci + 1 && left > 0 implies #[trigger] effective(
                    costs@,
                    placed@,
                    i,
                ) >= round_aspiration by {
                    if i < ci {
                        assert(placed@[i] == snap[i]);
                        assert(effective(costs@, snap, i) >= round_aspiration);
                    } else {
                        if did_place {
                            assert(placed@[ci] == snap[ci] + 1);
                        } else {
                            assert(placed@[ci] == snap[ci]);
                            assert(left_snap > 0);
                            assert(effective(costs@, snap, ci) >= round_aspiration);
                        }
                    }
                }
                assert forall|i: int| 0 <= i < k && placed@[i] > 0 implies #[trigger] effective(
                    costs@,
                    placed@,
                    i,
                ) <= round_aspiration by {
                    if i != ci {
                        assert(placed@[i] == snap[i]);
                        assert(snap[i] > 0);
                        assert(effective(costs@, snap, i) <= round_aspiration);
                    } else {
                        if did_place {
                            assert(effective(costs@, snap, ci) < round_aspiration);
                        } else {
                            assert(placed@[ci] == snap[ci]);
                            assert(effective(costs@, snap, ci) <= round_aspiration);
                        }
                    }
                }
                if left == left_start && left > 0 {
                    assert(!did_place);
                    assert(placed@ =~= snap);
                    let w = choose|i: int|
                        ci <= i < k && effective(costs@, snap, i) == aspiration;
                    assert(effective(costs@, snap, ci) >= round_aspiration);
                    assert(w != ci);
                    assert(ci + 1 <= w < k && effective(costs@, placed@, w) == aspiration);
                }
            }
            c += 1;
        }
        proof {
            if left > 0 {
                assert(left < left_start);
                lemma_exists_at_waterline(costs@, placed@, start, round_aspiration as int);
            }
        }
        aspiration = round_aspiration;
    }
    placed
}

/// A fresh counter array sums to zero.
pub proof fn lemma_sum_placed_zero(s: Seq<u32>)
    requires
        forall|i: int| 0 <= i < s.len() ==> s[i] == 0,
    ensures
        sum_placed(s) == 0,
    decreases s.len(),
{
    if s.len() > 0 {
        lemma_sum_placed_zero(s.drop_last());
    }
}

/// After a full round in which the budget survived, some candidate sits
/// exactly on the waterline: every candidate that was at the old line was
/// raised onto the new one.
pub proof fn lemma_exists_at_waterline(
    costs: Seq<u64>,
    placed: Seq<u32>,
    start: Seq<u32>,
    aspiration: int,
)
    requires
        placed.len() == costs.len(),
        start.len() == costs.len(),
        exists|i: int| 0 <= i < costs.len() && effective(costs, start, i) == aspiration - 1,
        forall|i: int|
            0 <= i < costs.len() ==> #[trigger] placed[i] == start[i] || placed[i] == start[i] + 1,
        forall|i: int| 0 <= i < costs.len() ==> #[trigger] effective(costs, placed, i) >= aspiration,
    ensures
        exists|i: int| 0 <= i < costs.len() && effective(costs, placed, i) == aspiration,
{
    let w = choose|i: int| 0 <= i < costs.len() && effective(costs, start, i) == aspiration - 1;
    assert(placed[w] == start[w] || placed[w] == start[w] + 1);
    assert(effective(costs, placed, w) == aspiration);
}

} // verus!
