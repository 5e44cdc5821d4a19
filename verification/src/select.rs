use crate::data::{Data, Median, MedianError};
use crate::median::{full_weight, is_weighted_median, well_posed};
use crate::partition::{
    has_duplicate, lemma_rearranged_source, lemma_rearranged_whole, lemma_rearranged_wider,
    partition_range, rearranged, split_around, swapped,
};
use crate::scan::{base_case, sorted_scan};
use crate::sortedness::{sortedness, Sortedness};
use crate::weights::{every, has_value, lemma_weight_permutation, total_weight, weight_sum};
use crate::window::{
    lemma_base_case_decides, lemma_parted_total, lemma_scan_decides, lemma_step,
    lemma_tracks_start, narrowing,
};
use vstd::prelude::*;

verus! {

/// The first record of the window `lo..hi` has its least value.
spec fn first_is_least<T: Data>(s: Seq<T>, lo: int, hi: int) -> bool {
    forall|k: int| lo <= k < hi ==> s[lo].value() <= (#[trigger] s[k]).value()
}

/// The last record of the window `lo..hi` has its greatest value.
spec fn last_is_greatest<T: Data>(s: Seq<T>, lo: int, hi: int) -> bool {
    forall|k: int| lo <= k < hi ==> (#[trigger] s[k]).value() <= s[hi - 1].value()
}

/// How many more steps can leave the window `lo..hi` at its size. A step
/// does so only when its pivot is the least or the greatest value, and it
/// then puts the pivot at that end of the window.
#[verifier::opaque]
spec fn slack<T: Data>(s: Seq<T>, lo: int, hi: int) -> nat {
    let high: nat = if last_is_greatest(s, lo, hi) { 0 } else { 2 };
    let low: nat = if first_is_least(s, lo, hi) { 0 } else { 1 };
    high + low
}

/// A step whose pivot turns out to be the least value of the window, and
/// which moves nothing else, lowers the slack.
proof fn lemma_slack_after_least<T: Data>(
    before: Seq<T>,
    after: Seq<T>,
    lo: int,
    hi: int,
    target: int,
)
    requires
        0 <= lo < target < hi - 1 < before.len(),
        after == swapped(before, target, lo),
        split_around(after, lo, lo, hi, hi),
    ensures
        slack(after, lo, hi) < slack(before, lo, hi),
{
    reveal(slack);
    assert(after[target] == before[lo]);
}

/// A step whose pivot turns out to be the greatest value of the window, with
/// no other record of that value, lowers the slack.
proof fn lemma_slack_after_greatest<T: Data>(
    before: Seq<T>,
    after: Seq<T>,
    lo: int,
    hi: int,
    target: int,
)
    requires
        0 <= lo <= target < hi - 1 < before.len(),
        rearranged(before, after, lo, hi),
        split_around(after, lo, hi - 1, hi, hi),
        after[hi - 1] == before[target],
        !has_duplicate(before, lo, hi, target),
    ensures
        slack(after, lo, hi) < slack(before, lo, hi),
{
    reveal(slack);
    let j = lemma_rearranged_source(after, before, lo, hi, hi - 1);
}

/// Weight conservation: after a partition, the weight before the pivot with
/// the lower delta, the weight of the pivot with that of its duplicates, and
/// the weight after the pivot with the higher delta add up to the weight of
/// the window with both deltas. The same holds of whichever part is kept.
pub proof fn lemma_weight_conserved<T: Data>(
    before: Seq<T>,
    after: Seq<T>,
    lo: int,
    pivot_index: int,
    end: int,
    hi: int,
    lower_delta: nat,
    higher_delta: nat,
)
    requires
        rearranged(before, after, lo, hi),
        0 <= lo <= pivot_index < end <= hi <= before.len(),
    ensures
        ({
            let lower_sum = lower_delta + total_weight(after.subrange(lo, pivot_index));
            let higher_sum = higher_delta + total_weight(after.subrange(pivot_index + 1, end));
            let extra = total_weight(after.subrange(end, hi));
            let pivot_weight = after[pivot_index].weight() + extra;
            let total = lower_delta + total_weight(before.subrange(lo, hi)) + higher_delta;
            &&& lower_sum + pivot_weight + higher_sum == total
            &&& lower_delta + total_weight(after.subrange(lo, pivot_index + 1)) + (higher_sum
                + extra) == total
            &&& (lower_sum + extra) + total_weight(after.subrange(pivot_index, end))
                + higher_delta == total
        }),
{
    let v = after.subrange(lo, hi);
    lemma_weight_permutation(before.subrange(lo, hi), v, every());
    lemma_parted_total(v, pivot_index - lo, end - lo);
    assert(v.subrange(0, pivot_index - lo) =~= after.subrange(lo, pivot_index));
    assert(v.subrange(pivot_index - lo + 1, end - lo) =~= after.subrange(pivot_index + 1, end));
    assert(v.subrange(end - lo, hi - lo) =~= after.subrange(end, hi));
    assert(v.subrange(0, pivot_index - lo + 1) =~= after.subrange(lo, pivot_index + 1));
    assert(v.subrange(pivot_index - lo, end - lo) =~= after.subrange(pivot_index, end));
}

/// A record of the window `lo..hi` of rearranged records has a value of the
/// records before.
proof fn lemma_value_of_origin<T: Data>(origin: Seq<T>, s: Seq<T>, i: int)
    requires
        rearranged(origin, s, 0, origin.len() as int),
        0 <= i < s.len(),
    ensures
        has_value(origin, s[i].value()),
{
    let j = lemma_rearranged_source(origin, s, 0, origin.len() as int, i);
}

/// Every value of a window of rearranged records is a value of the records
/// before.
proof fn lemma_values_of_origin<T: Data>(origin: Seq<T>, s: Seq<T>, lo: int, hi: int, x: int)
    requires
        rearranged(origin, s, 0, origin.len() as int),
        0 <= lo <= hi <= s.len(),
        has_value(s.subrange(lo, hi), x),
    ensures
        has_value(origin, x),
{
    let w = s.subrange(lo, hi);
    let i = choose|i: int| 0 <= i < w.len() && (#[trigger] w[i]).value() == x;
    lemma_value_of_origin(origin, s, lo + i);
}

/// Computes the weighted median of `data`, with `lower_weight_delta` of
/// weight below all of its values and `higher_weight_delta` above.
///
/// The records of `data` are reordered. A window of the slice is narrowed
/// step by step: a sorted window is scanned; any other is partitioned around
/// its middle record, and the side that holds half of the full weight is
/// kept, with the weight of the other side added to the delta of that side.
///
/// An empty slice and a full weight of zero are errors. Otherwise the result
/// is made of values of `data`; it is the weighted median where the deltas
/// are well posed.
pub fn calculate<T: Data>(
    data: &mut [T],
    lower_weight_delta: u64,
    higher_weight_delta: u64,
) -> (r: Result<Median, MedianError>)
    ensures
        final(data)@.to_multiset() == old(data)@.to_multiset(),
        match r {
            Err(MedianError::EmptyInput) => old(data)@.len() == 0,
            Err(MedianError::NonPositiveTotalWeight) => {
                &&& old(data)@.len() > 0
                &&& full_weight(old(data)@, lower_weight_delta as nat, higher_weight_delta as nat)
                    == 0
            },
            Ok(m) => {
                &&& old(data)@.len() > 0
                &&& full_weight(old(data)@, lower_weight_delta as nat, higher_weight_delta as nat)
                    > 0
                &&& has_value(old(data)@, m.lower as int)
                &&& has_value(old(data)@, m.upper as int)
                &&& m.lower <= m.upper
                &&& well_posed(old(data)@, lower_weight_delta as nat, higher_weight_delta as nat)
                    ==> is_weighted_median(
                    old(data)@,
                    lower_weight_delta as nat,
                    higher_weight_delta as nat,
                    m,
                )
            },
        },
{
    let ghost origin = data@;
    let ghost lower_origin = lower_weight_delta as nat;
    let ghost higher_origin = higher_weight_delta as nat;
    let ghost posed = well_posed(origin, lower_origin, higher_origin);
    let n = data.len();
    if n == 0 {
        return Err(MedianError::EmptyInput);
    }
    let window_weight = weight_sum(data, 0, n);
    proof {
        assert(data@.subrange(0, n as int) =~= data@);
    }
    let total: u128 = lower_weight_delta as u128 + window_weight + higher_weight_delta as u128;
    if total == 0 {
        return Err(MedianError::NonPositiveTotalWeight);
    }
    let mut lo: usize = 0;
    let mut hi: usize = n;
    let mut lower_delta: u128 = lower_weight_delta as u128;
    let mut higher_delta: u128 = higher_weight_delta as u128;
    let ghost mut a: int = 0;
    let ghost mut b: int = 0;
    proof {
        if posed {
            let ends = lemma_tracks_start(origin, lower_origin, higher_origin);
            a = ends.0;
            b = ends.1;
        }
    }
    while hi - lo > 2
        invariant
            lo < hi <= n,
            n == data@.len(),
            n == origin.len(),
            origin == old(data)@,
            lower_origin == lower_weight_delta as nat,
            higher_origin == higher_weight_delta as nat,
            rearranged(origin, data@, 0, n as int),
            total == full_weight(origin, lower_origin, higher_origin),
            total > 0,
            lower_delta + total_weight(data@.subrange(lo as int, hi as int)) + higher_delta
                == total,
            posed == well_posed(origin, lower_origin, higher_origin),
            posed ==> narrowing(
                origin,
                lower_origin,
                higher_origin,
                data@.subrange(lo as int, hi as int),
                lower_delta as nat,
                higher_delta as nat,
                a,
                b,
            ),
        decreases hi - lo, slack(data@, lo as int, hi as int),
    {
        let ghost w = data@.subrange(lo as int, hi as int);
        let order = sortedness(data, lo, hi);
        if order != Sortedness::Unordered {
            let is_ascending = order == Sortedness::Ascending;
            let m = sorted_scan(data, lo, hi, is_ascending, lower_delta, total);
            proof {
                lemma_values_of_origin(origin, data@, lo as int, hi as int, m.lower as int);
                lemma_values_of_origin(origin, data@, lo as int, hi as int, m.upper as int);
                lemma_rearranged_whole(origin, data@, 0, n as int);
                if posed {
                    lemma_scan_decides(
                        origin,
                        lower_origin,
                        higher_origin,
                        w,
                        lower_delta as nat,
                        higher_delta as nat,
                        a,
                        b,
                        m,
                    );
                }
            }
            return Ok(m);
        }
        let ghost before = data@;
        let target = lo + (hi - lo) / 2;
        let (pivot_index, end, pivot_extra_weight) = partition_range(data, lo, hi, target);
        proof {
            lemma_rearranged_wider(before, data@, lo as int, hi as int, 0, n as int);
            lemma_weight_conserved(
                before,
                data@,
                lo as int,
                pivot_index as int,
                end as int,
                hi as int,
                lower_delta as nat,
                higher_delta as nat,
            );
            if posed {
                lemma_step(
                    origin,
                    lower_origin,
                    higher_origin,
                    before,
                    data@,
                    lo as int,
                    pivot_index as int,
                    end as int,
                    hi as int,
                    lower_delta as nat,
                    higher_delta as nat,
                    a,
                    b,
                );
            }
        }
        let pivot_weight = data[pivot_index].get_weight() as u128 + pivot_extra_weight;
        let lower_weight_sum = lower_delta + weight_sum(data, lo, pivot_index);
        let higher_weight_sum = higher_delta + weight_sum(data, pivot_index + 1, end);
        assert(lower_weight_sum + pivot_weight + higher_weight_sum == total);

        if lower_weight_sum < total - lower_weight_sum && higher_weight_sum < total
            - higher_weight_sum {
            let value = data[pivot_index].get_value();
            proof {
                lemma_value_of_origin(origin, data@, pivot_index as int);
                lemma_rearranged_whole(origin, data@, 0, n as int);
            }
            return Ok(Median::at(value));
        } else if lower_weight_sum >= total - lower_weight_sum {
            proof {
                b = data@[pivot_index as int].value();
                if pivot_index + 1 == hi {
                    lemma_slack_after_greatest(
                        before,
                        data@,
                        lo as int,
                        hi as int,
                        target as int,
                    );
                }
            }
            hi = pivot_index + 1;
            higher_delta = higher_weight_sum + pivot_extra_weight;
        } else {
            proof {
                a = data@[pivot_index as int].value();
                if pivot_index == lo && end == hi {
                    lemma_slack_after_least(before, data@, lo as int, hi as int, target as int);
                }
            }
            lo = pivot_index;
            hi = end;
            lower_delta = lower_weight_sum + pivot_extra_weight;
        }
    }
    let m = base_case(data, lo, hi, lower_delta, higher_delta);
    proof {
        let w = data@.subrange(lo as int, hi as int);
        lemma_value_of_origin(origin, data@, lo as int);
        if hi - lo == 2 {
            lemma_value_of_origin(origin, data@, lo + 1);
        }
        lemma_rearranged_whole(origin, data@, 0, n as int);
        if posed {
            lemma_base_case_decides(
                origin,
                lower_origin,
                higher_origin,
                w,
                lower_delta as nat,
                higher_delta as nat,
                a,
                b,
                m,
            );
        }
    }
    Ok(m)
}

/// Computes the weighted median of `data`: the value at which the cumulative
/// weight, taken in ascending order of value, first reaches half of the
/// total weight. The records of `data` are reordered.
pub fn weighted_median<T: Data>(data: &mut [T]) -> (r: Result<Median, MedianError>)
    ensures
        final(data)@.to_multiset() == old(data)@.to_multiset(),
        match r {
            Err(MedianError::EmptyInput) => old(data)@.len() == 0,
            Err(MedianError::NonPositiveTotalWeight) => {
                &&& old(data)@.len() > 0
                &&& total_weight(old(data)@) == 0
            },
            Ok(m) => {
                &&& old(data)@.len() > 0
                &&& total_weight(old(data)@) > 0
                &&& is_weighted_median(old(data)@, 0, 0, m)
            },
        },
{
    calculate(data, 0, 0)
}

} // verus!
