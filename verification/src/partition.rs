use crate::data::Data;
use crate::weights::{every, lemma_weight_concat, lemma_weight_single, total_weight};
use vstd::prelude::*;
use vstd::seq_lib::{lemma_multiset_commutative, to_multiset_contains, to_multiset_update};

verus! {

/// `<[E]>::swap` of std exchanges the elements at the positions `a` and `b`
/// and leaves every other element alone. It panics when a position is out of
/// bounds, so both must lie within the slice.
pub assume_specification<E>[ <[E]>::swap ](slice: &mut [E], a: usize, b: usize)
    requires
        a < old(slice)@.len(),
        b < old(slice)@.len(),
    ensures
        final(slice)@ == old(slice)@.update(a as int, old(slice)@[b as int]).update(
            b as int,
            old(slice)@[a as int],
        ),
;

/// `s` with the elements at `i` and `j` exchanged.
pub open spec fn swapped<T>(s: Seq<T>, i: int, j: int) -> Seq<T> {
    s.update(i, s[j]).update(j, s[i])
}

/// `after` holds the records of `before`, with those at the positions
/// `lo..hi` in some other order and all others in place.
pub open spec fn rearranged<T>(before: Seq<T>, after: Seq<T>, lo: int, hi: int) -> bool {
    &&& after.len() == before.len()
    &&& after.subrange(lo, hi).to_multiset() == before.subrange(lo, hi).to_multiset()
    &&& forall|k: int| 0 <= k < before.len() && !(lo <= k < hi) ==> after[k] == before[k]
}

/// Exchanging two elements of a range rearranges that range.
pub proof fn lemma_swapped_rearranged<T>(s: Seq<T>, i: int, j: int, lo: int, hi: int)
    requires
        0 <= lo <= i < hi <= s.len(),
        lo <= j < hi,
    ensures
        rearranged(s, swapped(s, i, j), lo, hi),
{
    let w = s.subrange(lo, hi);
    let t = swapped(s, i, j);
    assert(t.subrange(lo, hi) =~= swapped(w, i - lo, j - lo));
    if i == j {
        assert(swapped(w, i - lo, j - lo) =~= w);
    } else {
        let w1 = w.update(i - lo, w[j - lo]);
        to_multiset_update(w, i - lo, w[j - lo]);
        to_multiset_update(w1, j - lo, w[i - lo]);
        to_multiset_contains(w, w[i - lo]);
        assert(w1.update(j - lo, w[i - lo]).to_multiset() =~= w.to_multiset());
    }
}

/// What is rearranged within a range is rearranged within every wider range.
pub proof fn lemma_rearranged_wider<T>(a: Seq<T>, b: Seq<T>, lo: int, hi: int, lo2: int, hi2: int)
    requires
        rearranged(a, b, lo, hi),
        0 <= lo2 <= lo <= hi <= hi2 <= a.len(),
    ensures
        rearranged(a, b, lo2, hi2),
{
    let a0 = a.subrange(lo2, lo);
    let a1 = a.subrange(lo, hi);
    let a2 = a.subrange(hi, hi2);
    let b0 = b.subrange(lo2, lo);
    let b1 = b.subrange(lo, hi);
    let b2 = b.subrange(hi, hi2);
    assert(a0 =~= b0);
    assert(a2 =~= b2);
    assert(a.subrange(lo2, hi2) =~= a0 + a1 + a2);
    assert(b.subrange(lo2, hi2) =~= b0 + b1 + b2);
    lemma_multiset_commutative(a0, a1);
    lemma_multiset_commutative(a0 + a1, a2);
    lemma_multiset_commutative(b0, b1);
    lemma_multiset_commutative(b0 + b1, b2);
}

/// What is rearranged within a range holds the same records as before.
pub proof fn lemma_rearranged_whole<T>(a: Seq<T>, b: Seq<T>, lo: int, hi: int)
    requires
        rearranged(a, b, lo, hi),
        0 <= lo <= hi <= a.len(),
    ensures
        a.to_multiset() == b.to_multiset(),
{
    lemma_rearranged_wider(a, b, lo, hi, 0, a.len() as int);
    assert(a.subrange(0, a.len() as int) =~= a);
    assert(b.subrange(0, b.len() as int) =~= b);
}

/// Every record of a rearranged range was in the range before.
pub proof fn lemma_rearranged_source<T>(a: Seq<T>, b: Seq<T>, lo: int, hi: int, k: int) -> (j: int)
    requires
        rearranged(a, b, lo, hi),
        0 <= lo <= k < hi <= a.len(),
    ensures
        lo <= j < hi,
        a[j] == b[k],
{
    let wa = a.subrange(lo, hi);
    let wb = b.subrange(lo, hi);
    assert(wb[k - lo] == b[k]);
    to_multiset_contains(wb, b[k]);
    to_multiset_contains(wa, b[k]);
    let i = choose|i: int| 0 <= i < wa.len() && wa[i] == b[k];
    lo + i
}

/// The records of `s` at `lo..boundary` are at most `pivot_value`, and those
/// at `boundary..hi` are at least `pivot_value`.
pub open spec fn divided<T: Data>(
    s: Seq<T>,
    lo: int,
    boundary: int,
    hi: int,
    pivot_value: int,
) -> bool {
    &&& lo <= boundary <= hi <= s.len()
    &&& forall|k: int| lo <= k < boundary ==> (#[trigger] s[k]).value() <= pivot_value
    &&& forall|k: int| boundary <= k < hi ==> (#[trigger] s[k]).value() >= pivot_value
}

/// At `lo..hi`, a record with the value `pivot_value` stands in `after`
/// where it stood in `before`, and nowhere else.
pub open spec fn pivot_values_stay<T: Data>(
    before: Seq<T>,
    after: Seq<T>,
    lo: int,
    hi: int,
    pivot_value: int,
) -> bool {
    forall|k: int|
        lo <= k < hi && (before[k].value() == pivot_value || (#[trigger] after[k]).value()
            == pivot_value) ==> after[k] == before[k]
}

/// No record of `s` at `lo..hi` is below `pivot_value`.
pub open spec fn none_below<T: Data>(s: Seq<T>, lo: int, hi: int, pivot_value: int) -> bool {
    forall|k: int| lo <= k < hi ==> (#[trigger] s[k]).value() >= pivot_value
}

/// Splits the records at `lo..hi` around `pivot_value`, by exchanges only.
///
/// A forward position moves up past the records that do not exceed the pivot
/// value; at one that does, a backward position moves down to a record below
/// the pivot value and the two are exchanged. Afterwards the records before
/// the returned position are at most the pivot value and those from it on are
/// at least the pivot value. A record with the pivot value itself never
/// moves, and where no record is below the pivot value nothing moves at all.
pub fn partition_without_duplicates<T: Data>(
    data: &mut [T],
    lo: usize,
    hi: usize,
    pivot_value: i64,
) -> (boundary: usize)
    requires
        lo <= hi <= old(data)@.len(),
    ensures
        rearranged(old(data)@, final(data)@, lo as int, hi as int),
        divided(final(data)@, lo as int, boundary as int, hi as int, pivot_value as int),
        pivot_values_stay(old(data)@, final(data)@, lo as int, hi as int, pivot_value as int),
        lo < hi && old(data)@[lo as int].value() <= pivot_value ==> boundary > lo,
        none_below(old(data)@, lo as int, hi as int, pivot_value as int) ==> final(data)@ == old(
            data,
        )@,
{
    let ghost before = data@;
    let mut pivot_index: usize = lo;
    let mut end_index: usize = hi;
    while pivot_index < end_index
        invariant_except_break
            pivot_index == lo ==> end_index == hi,
        invariant
            lo <= pivot_index <= end_index <= hi <= data@.len(),
            rearranged(before, data@, lo as int, hi as int),
            forall|k: int| lo <= k < pivot_index ==> (#[trigger] data@[k]).value() <= pivot_value,
            forall|k: int| end_index <= k < hi ==> (#[trigger] data@[k]).value() >= pivot_value,
            pivot_values_stay(before, data@, lo as int, hi as int, pivot_value as int),
            pivot_index == lo ==> data@ == before,
            none_below(before, lo as int, hi as int, pivot_value as int) ==> data@ == before,
        ensures
            rearranged(before, data@, lo as int, hi as int),
            divided(data@, lo as int, pivot_index as int, hi as int, pivot_value as int),
            pivot_values_stay(before, data@, lo as int, hi as int, pivot_value as int),
            lo < hi && before[lo as int].value() <= pivot_value ==> pivot_index > lo,
            none_below(before, lo as int, hi as int, pivot_value as int) ==> data@ == before,
        decreases end_index - pivot_index,
    {
        if data[pivot_index].get_value() > pivot_value {
            end_index -= 1;
            while pivot_index < end_index && data[end_index].get_value() >= pivot_value
                invariant
                    lo <= pivot_index <= end_index < hi <= data@.len(),
                    forall|k: int|
                        end_index < k < hi ==> (#[trigger] data@[k]).value() >= pivot_value,
                decreases end_index - pivot_index,
            {
                end_index -= 1;
            }
            if pivot_index == end_index {
                break;
            }
            let ghost held = data@;
            data.swap(pivot_index, end_index);
            proof {
                lemma_swapped_rearranged(
                    held,
                    pivot_index as int,
                    end_index as int,
                    lo as int,
                    hi as int,
                );
            }
        }
        pivot_index += 1;
    }
    pivot_index
}

/// The positions `lo..hi` of `s` are split around the record at `pivot`: up
/// to `end`, smaller values stand before it and greater ones after it, and
/// from `end` on stand the other records with the pivot's value.
pub open spec fn split_around<T: Data>(s: Seq<T>, lo: int, pivot: int, end: int, hi: int) -> bool {
    &&& lo <= pivot < end <= hi <= s.len()
    &&& forall|k: int| lo <= k < pivot ==> (#[trigger] s[k]).value() < s[pivot].value()
    &&& forall|k: int| pivot < k < end ==> (#[trigger] s[k]).value() > s[pivot].value()
    &&& forall|k: int| end <= k < hi ==> (#[trigger] s[k]).value() == s[pivot].value()
}

/// Another record at `lo..hi` has the value of the record at `i`.
pub open spec fn has_duplicate<T: Data>(s: Seq<T>, lo: int, hi: int, i: int) -> bool {
    exists|k: int| lo <= k < hi && k != i && (#[trigger] s[k]).value() == s[i].value()
}

/// Partitions the window `lo..hi` of `data` around the record at
/// `partition_index`, which becomes the pivot.
///
/// Returns the pivot's position, the end of the window that is left, and the
/// summed weight of the other records that had the pivot's value. Those
/// records are moved behind the window that is left; within it the records
/// before the pivot have a smaller value and those after it a greater one.
/// A window whose other records all exceed the pivot is left as it was but
/// for the pivot, which changes places with the first record.
pub fn partition_range<T: Data>(
    data: &mut [T],
    lo: usize,
    hi: usize,
    partition_index: usize,
) -> (r: (usize, usize, u128))
    requires
        lo <= partition_index < hi <= old(data)@.len(),
    ensures
        rearranged(old(data)@, final(data)@, lo as int, hi as int),
        final(data)@[r.0 as int] == old(data)@[partition_index as int],
        split_around(final(data)@, lo as int, r.0 as int, r.1 as int, hi as int),
        r.2 == total_weight(final(data)@.subrange(r.1 as int, hi as int)),
        has_duplicate(old(data)@, lo as int, hi as int, partition_index as int) ==> r.1 < hi,
        r.0 == lo && r.1 == hi ==> final(data)@ == swapped(
            old(data)@,
            partition_index as int,
            lo as int,
        ),
{
    let ghost before = data@;
    data.swap(partition_index, lo);
    let ghost start = data@;
    let pivot_value = data[lo].get_value();
    proof {
        lemma_swapped_rearranged(before, partition_index as int, lo as int, lo as int, hi as int);
    }

    let mut len: usize = hi;
    let mut i: usize = lo + 1;
    let mut pivot_extra_weight: u128 = 0;
    while i < len
        invariant
            lo < i <= len <= hi <= data@.len(),
            rearranged(before, data@, lo as int, hi as int),
            data@[lo as int] == before[partition_index as int],
            pivot_value == before[partition_index as int].value(),
            forall|k: int| lo < k < i ==> (#[trigger] data@[k]).value() != pivot_value,
            forall|k: int| len <= k < hi ==> (#[trigger] data@[k]).value() == pivot_value,
            pivot_extra_weight == total_weight(data@.subrange(len as int, hi as int)),
            pivot_extra_weight <= (hi - len) * u64::MAX,
            len == hi ==> data@ == start,
        decreases len - i,
    {
        if data[i].get_value() == pivot_value {
            len -= 1;
            let w = data[i].get_weight();
            pivot_extra_weight += w as u128;
            let ghost held = data@;
            data.swap(i, len);
            proof {
                lemma_swapped_rearranged(held, i as int, len as int, lo as int, hi as int);
                let tail = data@.subrange(len as int, hi as int);
                let rest = held.subrange(len + 1, hi as int);
                assert(tail =~= seq![held[i as int]] + rest);
                lemma_weight_concat(seq![held[i as int]], rest, every());
                lemma_weight_single(held[i as int], every());
            }
        } else {
            i += 1;
        }
    }

    let ghost folded = data@;
    let boundary = partition_without_duplicates(data, lo, len, pivot_value);
    let ghost split = data@;
    let pivot_index = boundary - 1;
    data.swap(lo, pivot_index);

    proof {
        lemma_rearranged_wider(folded, split, lo as int, len as int, lo as int, hi as int);
        lemma_swapped_rearranged(split, lo as int, pivot_index as int, lo as int, hi as int);
        assert(data@.subrange(len as int, hi as int) =~= folded.subrange(len as int, hi as int));
        if pivot_index == lo && len == hi {
            assert forall|k: int| lo <= k < len implies (#[trigger] folded[k]).value()
                >= pivot_value by {
                let j = lemma_rearranged_source(split, folded, lo as int, len as int, k);
                assert(split[j].value() >= pivot_value);
            }
        }
        if has_duplicate(before, lo as int, hi as int, partition_index as int) {
            let k = choose|k: int|
                lo <= k < hi && k != partition_index && (#[trigger] before[k]).value()
                    == before[partition_index as int].value();
            if len == hi {
                if k == lo {
                    assert(start[partition_index as int] == before[lo as int]);
                } else {
                    assert(start[k] == before[k]);
                }
            }
        }
    }
    (pivot_index, len, pivot_extra_weight)
}

/// `window`, followed by `tail`, is what a partition around the record at
/// `partition_index` makes of `before`: the same records, the pivot at
/// `pivot_index` of the window with smaller values before it and greater ones
/// after it, and in the tail the other records with the pivot's value, of
/// summed weight `extra`.
pub open spec fn partitioned<T: Data>(
    before: Seq<T>,
    partition_index: int,
    pivot_index: int,
    window: Seq<T>,
    tail: Seq<T>,
    extra: nat,
) -> bool {
    &&& (window + tail).to_multiset() == before.to_multiset()
    &&& window[pivot_index] == before[partition_index]
    &&& split_around(window, 0, pivot_index, window.len() as int, window.len() as int)
    &&& forall|k: int|
        0 <= k < tail.len() ==> (#[trigger] tail[k]).value() == before[partition_index].value()
    &&& extra == total_weight(tail)
    &&& has_duplicate(before, 0, before.len() as int, partition_index) ==> tail.len() > 0
}

/// Partitions `data` around the record at `partition_index`.
///
/// Returns the pivot's position, the window that is left, and the summed
/// weight of the other records that had the pivot's value. Those records
/// stand behind the returned window; within it the records before the pivot
/// have a smaller value and those after it a greater one.
pub fn partition<T: Data>(data: &mut [T], partition_index: usize) -> (r: (usize, &mut [T], u128))
    requires
        partition_index < old(data)@.len(),
    ensures
        r.0 < r.1@.len() <= old(data)@.len(),
        exists|tail: Seq<T>|
            #[trigger] partitioned(
                old(data)@,
                partition_index as int,
                r.0 as int,
                r.1@,
                tail,
                r.2 as nat,
            ) && final(data)@ == final(r.1)@ + tail,
{
    let ghost before = data@;
    let hi = data.len();
    let (pivot_index, len, pivot_extra_weight) = partition_range(data, 0, hi, partition_index);
    let ghost split = data@;
    let (new_data, duplicates) = data.split_at_mut(len);
    let r = (pivot_index, new_data, pivot_extra_weight);
    proof {
        let window = r.1@;
        let tail = duplicates@;
        lemma_rearranged_whole(before, split, 0, hi as int);
        assert(window + tail =~= split);
        assert(partitioned(before, partition_index as int, r.0 as int, window, tail, r.2 as nat));
    }
    r
}

} // verus!
