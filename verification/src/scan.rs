use crate::data::{Data, Median};
use crate::median::no_value_between;
use crate::sortedness::{ascending, descending};
use crate::weights::{
    at_most, every, has_value, lemma_weight_agree, lemma_weight_none, lemma_weight_single,
    lemma_weight_split, total_weight, weight_below, weight_up_to,
};
use vstd::prelude::*;

verus! {

/// No record of `w` has a value below `v`.
pub open spec fn is_least<T: Data>(w: Seq<T>, v: int) -> bool {
    forall|i: int| 0 <= i < w.len() ==> v <= (#[trigger] w[i]).value()
}

/// No record of `w` has a value above `v`.
pub open spec fn is_greatest<T: Data>(w: Seq<T>, v: int) -> bool {
    forall|i: int| 0 <= i < w.len() ==> (#[trigger] w[i]).value() <= v
}

/// What a window of one or two records yields.
///
/// One record yields its value. Of two records, the first is weighed with
/// the lower delta against the second with the higher delta: the heavier
/// side yields its value, and equal sides yield the midpoint of the two.
pub open spec fn settled<T: Data>(
    w: Seq<T>,
    lower_delta: nat,
    higher_delta: nat,
    m: Median,
) -> bool {
    if w.len() == 1 {
        m.lower == w[0].value() && m.upper == w[0].value()
    } else {
        let lower = lower_delta + w[0].weight();
        let higher = w[1].weight() + higher_delta;
        if lower == higher {
            &&& m.lower == if w[0].value() <= w[1].value() { w[0].value() } else { w[1].value() }
            &&& m.upper == if w[0].value() <= w[1].value() { w[1].value() } else { w[0].value() }
        } else if lower > higher {
            m.lower == w[0].value() && m.upper == w[0].value()
        } else {
            m.lower == w[1].value() && m.upper == w[1].value()
        }
    }
}

/// The weight of a window of two records.
pub proof fn lemma_weight_of_two<T: Data>(w: Seq<T>)
    requires
        w.len() == 2,
    ensures
        total_weight(w) == w[0].weight() + w[1].weight(),
{
    assert(w.subrange(0, 1) =~= seq![w[0]]);
    lemma_weight_single(w[0], every());
}

/// The median of the window `lo..hi` of `data` where it holds one or two
/// records.
pub fn base_case<T: Data>(
    data: &[T],
    lo: usize,
    hi: usize,
    lower_weight_delta: u128,
    higher_weight_delta: u128,
) -> (m: Median)
    requires
        lo < hi <= data@.len(),
        hi - lo <= 2,
        lower_weight_delta + total_weight(data@.subrange(lo as int, hi as int))
            + higher_weight_delta <= u128::MAX,
    ensures
        settled(
            data@.subrange(lo as int, hi as int),
            lower_weight_delta as nat,
            higher_weight_delta as nat,
            m,
        ),
{
    if hi - lo == 1 {
        Median::at(data[lo].get_value())
    } else {
        proof {
            lemma_weight_of_two(data@.subrange(lo as int, hi as int));
        }
        let lower = lower_weight_delta + data[lo].get_weight() as u128;
        let higher = data[lo + 1].get_weight() as u128 + higher_weight_delta;
        if lower == higher {
            Median::between(data[lo].get_value(), data[lo + 1].get_value())
        } else if lower > higher {
            Median::at(data[lo].get_value())
        } else {
            Median::at(data[lo + 1].get_value())
        }
    }
}

/// What the scan of a sorted window yields, for `total` as the full weight.
///
/// `m.lower` is the first value, in ascending order, at which the cumulative
/// weight is at least half of `total`. Where it exceeds half, `m.upper` is
/// the same value; where it is exactly half, `m.upper` is the next value of
/// the window, if there is one. Where the cumulative weight stays below half
/// throughout, both are the greatest value.
pub open spec fn scanned<T: Data>(w: Seq<T>, lower_delta: nat, total: nat, m: Median) -> bool {
    let before = lower_delta + weight_below(w, m.lower as int);
    let through = lower_delta + weight_up_to(w, m.lower as int);
    &&& has_value(w, m.lower as int)
    &&& has_value(w, m.upper as int)
    &&& is_least(w, m.lower as int) || 2 * before < total
    &&& if total < 2 * through {
        m.upper == m.lower
    } else if total == 2 * through {
        ||| m.lower < m.upper && no_value_between(w, m.lower as int, m.upper as int)
        ||| m.upper == m.lower && is_greatest(w, m.lower as int)
    } else {
        m.upper == m.lower && is_greatest(w, m.lower as int)
    }
}

/// In a strictly ascending sequence, the records up to a position are those
/// whose value is at most the value at that position.
pub proof fn lemma_ascending_weight<T: Data>(s: Seq<T>, i: int)
    requires
        ascending(s, 0, s.len() as int),
        0 <= i < s.len(),
    ensures
        weight_up_to(s, s[i].value()) == total_weight(s.subrange(0, i + 1)),
        weight_below(s, s[i].value()) == total_weight(s.subrange(0, i)),
{
    let n = s.len() as int;
    let v = s[i].value();
    lemma_weight_split(s, 0, i + 1, n, at_most(v));
    lemma_weight_split(s, 0, i, n, at_most(v - 1));
    assert(s.subrange(0, n) =~= s);
    lemma_weight_agree(s.subrange(0, i + 1), at_most(v), every());
    lemma_weight_none(s.subrange(i + 1, n), at_most(v));
    lemma_weight_agree(s.subrange(0, i), at_most(v - 1), every());
    lemma_weight_none(s.subrange(i, n), at_most(v - 1));
}

/// In a strictly descending sequence, the records from a position on are
/// those whose value is at most the value at that position.
pub proof fn lemma_descending_weight<T: Data>(s: Seq<T>, i: int)
    requires
        descending(s, 0, s.len() as int),
        0 <= i < s.len(),
    ensures
        weight_up_to(s, s[i].value()) == total_weight(s.subrange(i, s.len() as int)),
        weight_below(s, s[i].value()) == total_weight(s.subrange(i + 1, s.len() as int)),
{
    let n = s.len() as int;
    let v = s[i].value();
    lemma_weight_split(s, 0, i, n, at_most(v));
    lemma_weight_split(s, 0, i + 1, n, at_most(v - 1));
    assert(s.subrange(0, n) =~= s);
    lemma_weight_agree(s.subrange(i, n), at_most(v), every());
    lemma_weight_none(s.subrange(0, i), at_most(v));
    lemma_weight_agree(s.subrange(i + 1, n), at_most(v - 1), every());
    lemma_weight_none(s.subrange(0, i + 1), at_most(v - 1));
}

/// The position in `w` of the record that stands at place `j` when the
/// records are taken in ascending order of value.
spec fn place<T: Data>(w: Seq<T>, is_ascending: bool, j: int) -> int {
    if is_ascending {
        j
    } else {
        w.len() - 1 - j
    }
}

/// The summed weight of the `j` records of least value of a sorted window.
spec fn weight_of_first<T: Data>(w: Seq<T>, is_ascending: bool, j: int) -> nat {
    if is_ascending {
        total_weight(w.subrange(0, j))
    } else {
        total_weight(w.subrange(w.len() - j, w.len() as int))
    }
}

/// `w` is sorted in the order that `is_ascending` names.
spec fn sorted<T: Data>(w: Seq<T>, is_ascending: bool) -> bool {
    if is_ascending {
        ascending(w, 0, w.len() as int)
    } else {
        descending(w, 0, w.len() as int)
    }
}

/// What one step of the scan of an ascending window relies on: the
/// cumulative weights before and through the record at `j`, and how its
/// value stands to the others.
proof fn lemma_step_up<T: Data>(w: Seq<T>, j: int)
    requires
        ascending(w, 0, w.len() as int),
        0 <= j < w.len(),
    ensures
        weight_below(w, w[j].value()) == total_weight(w.subrange(0, j)),
        weight_up_to(w, w[j].value()) == total_weight(w.subrange(0, j + 1)),
        total_weight(w.subrange(0, j + 1)) == total_weight(w.subrange(0, j)) + w[j].weight(),
        total_weight(w.subrange(0, j + 1)) <= total_weight(w),
        j == 0 ==> is_least(w, w[j].value()),
        j == w.len() - 1 ==> is_greatest(w, w[j].value()),
        j + 1 < w.len() ==> w[j].value() < w[j + 1].value() && no_value_between(
            w,
            w[j].value(),
            w[j + 1].value(),
        ),
{
    let n = w.len() as int;
    assert(w.subrange(0, n) =~= w);
    assert(w.subrange(j, j + 1) =~= seq![w[j]]);
    lemma_weight_single(w[j], every());
    lemma_ascending_weight(w, j);
    lemma_weight_split(w, 0, j, j + 1, every());
    lemma_weight_split(w, 0, j + 1, n, every());
    assert forall|i: int| 0 <= i < n && i != j implies (i < j ==> (#[trigger] w[i]).value()
        < w[j].value()) && (i > j ==> w[j].value() < w[i].value()) by {}
    if j + 1 < n {
        assert forall|i: int| 0 <= i < n implies !(w[j].value() < (#[trigger] w[i]).value() < w[j
            + 1].value()) by {
            if i > j + 1 {
                assert(w[j + 1].value() < w[i].value());
            }
        }
    }
}

/// What one step of the scan of a descending window relies on: the
/// cumulative weights before and through the record at `k`, which are those
/// of the records behind it, and how its value stands to the others.
proof fn lemma_step_down<T: Data>(w: Seq<T>, k: int)
    requires
        descending(w, 0, w.len() as int),
        0 <= k < w.len(),
    ensures
        weight_below(w, w[k].value()) == total_weight(w.subrange(k + 1, w.len() as int)),
        weight_up_to(w, w[k].value()) == total_weight(w.subrange(k, w.len() as int)),
        total_weight(w.subrange(k, w.len() as int)) == total_weight(
            w.subrange(k + 1, w.len() as int),
        ) + w[k].weight(),
        total_weight(w.subrange(k, w.len() as int)) <= total_weight(w),
        k == w.len() - 1 ==> is_least(w, w[k].value()),
        k == 0 ==> is_greatest(w, w[k].value()),
        k > 0 ==> w[k].value() < w[k - 1].value() && no_value_between(
            w,
            w[k].value(),
            w[k - 1].value(),
        ),
{
    let n = w.len() as int;
    assert(w.subrange(0, n) =~= w);
    assert(w.subrange(k, k + 1) =~= seq![w[k]]);
    lemma_weight_single(w[k], every());
    lemma_descending_weight(w, k);
    lemma_weight_split(w, k, k + 1, n, every());
    lemma_weight_split(w, 0, k, n, every());
    assert forall|i: int| 0 <= i < n && i != k implies (i < k ==> (#[trigger] w[i]).value()
        > w[k].value()) && (i > k ==> w[k].value() > w[i].value()) by {}
    if k > 0 {
        assert forall|i: int| 0 <= i < n implies !(w[k].value() < (#[trigger] w[i]).value() < w[k
            - 1].value()) by {
            if i < k - 1 {
                assert(w[i].value() > w[k - 1].value());
            }
        }
    }
}

/// What one step of the scan relies on: the cumulative weights before and
/// through the record at place `j`, and how its value stands to the others.
proof fn lemma_scan_step<T: Data>(w: Seq<T>, is_ascending: bool, j: int)
    requires
        sorted(w, is_ascending),
        0 <= j < w.len(),
    ensures
        weight_below(w, w[place(w, is_ascending, j)].value()) == weight_of_first(
            w,
            is_ascending,
            j,
        ),
        weight_up_to(w, w[place(w, is_ascending, j)].value()) == weight_of_first(
            w,
            is_ascending,
            j + 1,
        ),
        weight_of_first(w, is_ascending, j + 1) == weight_of_first(w, is_ascending, j) + w[place(
            w,
            is_ascending,
            j,
        )].weight(),
        weight_of_first(w, is_ascending, j + 1) <= total_weight(w),
        j == 0 ==> is_least(w, w[place(w, is_ascending, j)].value()),
        j == w.len() - 1 ==> is_greatest(w, w[place(w, is_ascending, j)].value()),
        j + 1 < w.len() ==> w[place(w, is_ascending, j)].value() < w[place(
            w,
            is_ascending,
            j + 1,
        )].value() && no_value_between(
            w,
            w[place(w, is_ascending, j)].value(),
            w[place(w, is_ascending, j + 1)].value(),
        ),
{
    if is_ascending {
        lemma_step_up(w, j);
    } else {
        lemma_step_down(w, w.len() - 1 - j);
    }
}

/// A window that is sorted within a sequence is sorted taken by itself.
proof fn lemma_sorted_window<T: Data>(s: Seq<T>, lo: int, hi: int, is_ascending: bool)
    requires
        0 <= lo <= hi <= s.len(),
        is_ascending ==> ascending(s, lo, hi),
        !is_ascending ==> descending(s, lo, hi),
    ensures
        sorted(s.subrange(lo, hi), is_ascending),
{
    let w = s.subrange(lo, hi);
    if is_ascending {
        assert forall|a: int, b: int| 0 <= a < b < w.len() implies (#[trigger] w[a]).value() < (
        #[trigger] w[b]).value() by {
            assert(s[lo + a].value() < s[lo + b].value());
        }
    } else {
        assert forall|a: int, b: int| 0 <= a < b < w.len() implies (#[trigger] w[a]).value() > (
        #[trigger] w[b]).value() by {
            assert(s[lo + a].value() > s[lo + b].value());
        }
    }
}

/// Finds the median of the sorted window `lo..hi` of `data` in one pass.
///
/// The records are visited in ascending order of value, from the front of an
/// ascending window and from the back of a descending one, and their weights
/// are added to the lower delta. The first value at which the sum is exactly
/// half of `total` yields the midpoint of that value and the next; the first
/// at which it exceeds half of `total` yields that value.
pub fn sorted_scan<T: Data>(
    data: &[T],
    lo: usize,
    hi: usize,
    is_ascending: bool,
    lower_weight_delta: u128,
    total: u128,
) -> (m: Median)
    requires
        lo < hi <= data@.len(),
        is_ascending ==> ascending(data@, lo as int, hi as int),
        !is_ascending ==> descending(data@, lo as int, hi as int),
        lower_weight_delta + total_weight(data@.subrange(lo as int, hi as int)) <= total,
    ensures
        scanned(data@.subrange(lo as int, hi as int), lower_weight_delta as nat, total as nat, m),
{
    let ghost w = data@.subrange(lo as int, hi as int);
    let n = hi - lo;
    let mut cumulative: u128 = lower_weight_delta;
    let mut j: usize = 0;
    proof {
        lemma_sorted_window(data@, lo as int, hi as int, is_ascending);
        assert(total_weight(w.subrange(0, 0)) == 0);
        assert(total_weight(w.subrange(n as int, n as int)) == 0);
    }
    while j < n
        invariant
            lo < hi <= data@.len(),
            n == hi - lo,
            j <= n,
            w == data@.subrange(lo as int, hi as int),
            sorted(w, is_ascending),
            cumulative == lower_weight_delta + weight_of_first(w, is_ascending, j as int),
            lower_weight_delta + total_weight(w) <= total,
            j > 0 ==> 2 * cumulative < total,
        decreases n - j,
    {
        let at: usize = if is_ascending { lo + j } else { hi - 1 - j };
        let value = data[at].get_value();
        let weight = data[at].get_weight();
        proof {
            lemma_scan_step(w, is_ascending, j as int);
            assert(w[place(w, is_ascending, j as int)] == data@[at as int]);
        }
        cumulative = cumulative + weight as u128;
        if cumulative == total - cumulative {
            if j + 1 < n {
                let after: usize = if is_ascending { at + 1 } else { at - 1 };
                let next = data[after].get_value();
                proof {
                    assert(w[place(w, is_ascending, j + 1)] == data@[after as int]);
                }
                return Median::between(value, next);
            } else {
                return Median::at(value);
            }
        }
        if cumulative > total - cumulative {
            return Median::at(value);
        }
        j += 1;
    }
    let last: usize = if is_ascending { hi - 1 } else { lo };
    let value = data[last].get_value();
    proof {
        lemma_scan_step(w, is_ascending, n - 1);
        assert(w[place(w, is_ascending, n - 1)] == data@[last as int]);
    }
    Median::at(value)
}

} // verus!
