use crate::data::{Data, Median};
use crate::median::{
    full_weight, is_weighted_median, lemma_permutation_index, median_between, well_posed,
};
use crate::partition::split_around;
use crate::scan::{is_greatest, is_least, lemma_weight_of_two, scanned, settled};
use crate::weights::{
    at_most, every, has_value, lemma_weight_agree, lemma_weight_none, lemma_weight_permutation,
    lemma_weight_remove, lemma_weight_single, lemma_weight_split, total_weight, weight_below,
    weight_up_to, weight_where,
};
use vstd::prelude::*;

verus! {

/// The window `w` with its deltas stands for the records `origin` with
/// theirs, where `a` is the least and `b` the greatest value of the window.
///
/// The window holds records of `origin`, and each value of `origin` from `a`
/// to `b` occurs in it. Below `b`, the cumulative weights of the window are
/// those of `origin`; at `b` they do not exceed them. The median of `origin`
/// is not below `a`; and either the higher delta is the weight above `b` and
/// the median is not above `b`, or the median is below `b`.
#[verifier::opaque]
pub open spec fn tracks<T: Data>(
    origin: Seq<T>,
    lower_origin: nat,
    higher_origin: nat,
    w: Seq<T>,
    lower_delta: nat,
    higher_delta: nat,
    a: int,
    b: int,
) -> bool {
    let total = full_weight(origin, lower_origin, higher_origin);
    let through_b = lower_origin + weight_up_to(origin, b);
    &&& lower_delta + total_weight(w) + higher_delta == total
    &&& forall|i: int|
        0 <= i < w.len() ==> origin.contains(#[trigger] w[i]) && a <= w[i].value() <= b
    &&& has_value(w, a)
    &&& has_value(w, b)
    &&& forall|j: int|
        0 <= j < origin.len() && a <= (#[trigger] origin[j]).value() <= b ==> has_value(
            w,
            origin[j].value(),
        )
    &&& forall|v: int|
        a <= v < b ==> lower_delta + weight_up_to(w, v) == lower_origin + #[trigger] weight_up_to(
            origin,
            v,
        )
    &&& 2 * (lower_origin + weight_below(origin, a)) < total
    &&& lower_delta + total_weight(w) <= through_b
    &&& (higher_delta + through_b == total && total < 2 * through_b) || total <= 2 * (lower_origin
        + weight_below(origin, b))
}

/// A non-empty sequence has a least and a greatest value.
pub proof fn lemma_extremes<T: Data>(s: Seq<T>) -> (r: (int, int))
    requires
        s.len() > 0,
    ensures
        has_value(s, r.0),
        has_value(s, r.1),
        is_least(s, r.0),
        is_greatest(s, r.1),
    decreases s.len(),
{
    let n = s.len() as int;
    let x = s[n - 1].value();
    if n == 1 {
        (x, x)
    } else {
        let t = s.drop_last();
        let (a, b) = lemma_extremes(t);
        let lo = if x < a { x } else { a };
        let hi = if x > b { x } else { b };
        assert forall|i: int| 0 <= i < n implies lo <= (#[trigger] s[i]).value() <= hi by {
            if i < n - 1 {
                assert(s[i] == t[i]);
            }
        }
        (lo, hi)
    }
}

/// With well-posed deltas, a sequence stands for itself.
pub proof fn lemma_tracks_start<T: Data>(s: Seq<T>, lower_delta: nat, higher_delta: nat) -> (r: (
    int,
    int,
))
    requires
        s.len() > 0,
        well_posed(s, lower_delta, higher_delta),
    ensures
        tracks(s, lower_delta, higher_delta, s, lower_delta, higher_delta, r.0, r.1),
        narrowing(s, lower_delta, higher_delta, s, lower_delta, higher_delta, r.0, r.1),
{
    reveal(narrowing);
    reveal(tracks);
    let (a, b) = lemma_extremes(s);
    lemma_weight_none(s, at_most(a - 1));
    lemma_weight_agree(s, at_most(b), every());
    (a, b)
}

/// A window that stands for `origin` still does so with its records in
/// another order.
pub proof fn lemma_tracks_permuted<T: Data>(
    origin: Seq<T>,
    lower_origin: nat,
    higher_origin: nat,
    w: Seq<T>,
    v: Seq<T>,
    lower_delta: nat,
    higher_delta: nat,
    a: int,
    b: int,
)
    requires
        tracks(origin, lower_origin, higher_origin, w, lower_delta, higher_delta, a, b),
        w.to_multiset() == v.to_multiset(),
    ensures
        tracks(origin, lower_origin, higher_origin, v, lower_delta, higher_delta, a, b),
{
    reveal(tracks);
    lemma_weight_permutation(w, v, every());
    assert forall|i: int| 0 <= i < v.len() implies origin.contains(#[trigger] v[i]) && a
        <= v[i].value() <= b by {
        let j = lemma_permutation_index(v, w, i);
        assert(w[j] == v[i]);
    }
    assert forall|j: int|
        0 <= j < origin.len() && a <= (#[trigger] origin[j]).value() <= b implies has_value(
        v,
        origin[j].value(),
    ) by {
        lemma_value_permuted(w, v, origin[j].value());
    }
    assert forall|u: int| a <= u < b implies lower_delta + weight_up_to(v, u) == lower_origin
        + #[trigger] weight_up_to(origin, u) by {
        lemma_weight_permutation(w, v, at_most(u));
    }
}

/// A value of a sequence is a value of every permutation of it.
pub proof fn lemma_value_permuted<T: Data>(w: Seq<T>, v: Seq<T>, x: int)
    requires
        w.to_multiset() == v.to_multiset(),
        has_value(w, x),
    ensures
        has_value(v, x),
{
    let i = choose|i: int| 0 <= i < w.len() && (#[trigger] w[i]).value() == x;
    let j = lemma_permutation_index(w, v, i);
}

/// The weight of a window that is split around a pivot, by its parts.
pub proof fn lemma_parted_total<T: Data>(v: Seq<T>, k: int, m: int)
    requires
        0 <= k < m <= v.len(),
    ensures
        total_weight(v) == total_weight(v.subrange(0, k)) + v[k].weight() + total_weight(
            v.subrange(k + 1, m),
        ) + total_weight(v.subrange(m, v.len() as int)),
        total_weight(v.subrange(0, k + 1)) == total_weight(v.subrange(0, k)) + v[k].weight(),
        total_weight(v.subrange(k, m)) == v[k].weight() + total_weight(v.subrange(k + 1, m)),
{
    let n = v.len() as int;
    assert(v.subrange(0, n) =~= v);
    assert(v.subrange(k, k + 1) =~= seq![v[k]]);
    lemma_weight_single(v[k], every());
    lemma_weight_split(v, 0, k, k + 1, every());
    lemma_weight_split(v, k, k + 1, m, every());
    lemma_weight_split(v, 0, k + 1, m, every());
    lemma_weight_split(v, 0, m, n, every());
}

/// Below the pivot's value, the cumulative weight of a split window is that
/// of the records before the pivot.
pub proof fn lemma_parted_below<T: Data>(v: Seq<T>, k: int, m: int, u: int)
    requires
        split_around(v, 0, k, m, v.len() as int),
        u < v[k].value(),
    ensures
        weight_up_to(v, u) == weight_up_to(v.subrange(0, k), u),
        weight_up_to(v, u) == weight_up_to(v.subrange(0, k + 1), u),
        u == v[k].value() - 1 ==> weight_up_to(v, u) == total_weight(v.subrange(0, k)),
{
    let n = v.len() as int;
    assert(v.subrange(0, n) =~= v);
    lemma_weight_split(v, 0, k, n, at_most(u));
    lemma_weight_none(v.subrange(k, n), at_most(u));
    lemma_weight_split(v, 0, k, k + 1, at_most(u));
    lemma_weight_none(v.subrange(k, k + 1), at_most(u));
    if u == v[k].value() - 1 {
        lemma_weight_agree(v.subrange(0, k), at_most(u), every());
    }
}

/// From the pivot's value on, the cumulative weight of a split window holds
/// all that stands before the pivot and all that was moved behind the window.
pub proof fn lemma_parted_above<T: Data>(v: Seq<T>, k: int, m: int, u: int)
    requires
        split_around(v, 0, k, m, v.len() as int),
        u >= v[k].value(),
    ensures
        weight_up_to(v, u) == total_weight(v.subrange(0, k)) + weight_up_to(v.subrange(k, m), u)
            + total_weight(v.subrange(m, v.len() as int)),
        u == v[k].value() ==> weight_up_to(v.subrange(k, m), u) == v[k].weight(),
{
    let n = v.len() as int;
    assert(v.subrange(0, n) =~= v);
    lemma_weight_split(v, 0, k, n, at_most(u));
    lemma_weight_split(v, k, m, n, at_most(u));
    lemma_weight_agree(v.subrange(0, k), at_most(u), every());
    lemma_weight_agree(v.subrange(m, n), at_most(u), every());
    if u == v[k].value() {
        lemma_weight_split(v, k, k + 1, m, at_most(u));
        lemma_weight_none(v.subrange(k + 1, m), at_most(u));
        assert(v.subrange(k, k + 1) =~= seq![v[k]]);
        lemma_weight_single(v[k], at_most(u));
    }
}

/// Where neither side of the pivot holds half of the full weight, the
/// pivot's value is the median.
pub proof fn lemma_pivot_decides<T: Data>(
    origin: Seq<T>,
    lower_origin: nat,
    higher_origin: nat,
    v: Seq<T>,
    lower_delta: nat,
    higher_delta: nat,
    a: int,
    b: int,
    k: int,
    m: int,
)
    requires
        tracks(origin, lower_origin, higher_origin, v, lower_delta, higher_delta, a, b),
        split_around(v, 0, k, m, v.len() as int),
        2 * (lower_delta + total_weight(v.subrange(0, k))) < full_weight(
            origin,
            lower_origin,
            higher_origin,
        ),
        2 * (higher_delta + total_weight(v.subrange(k + 1, m))) < full_weight(
            origin,
            lower_origin,
            higher_origin,
        ),
    ensures
        median_between(origin, lower_origin, higher_origin, v[k].value(), v[k].value()),
{
    reveal(tracks);
    let p = v[k].value();
    lemma_parted_total(v, k, m);
    lemma_parted_above(v, k, m, p);
    if k > 0 {
        lemma_parted_below(v, k, m, p - 1);
    }
}

/// Where the pivot stands first and the weight below it is at least half of
/// the full weight, the pivot's value is the median.
pub proof fn lemma_first_pivot_decides<T: Data>(
    origin: Seq<T>,
    lower_origin: nat,
    higher_origin: nat,
    v: Seq<T>,
    lower_delta: nat,
    higher_delta: nat,
    a: int,
    b: int,
    m: int,
)
    requires
        tracks(origin, lower_origin, higher_origin, v, lower_delta, higher_delta, a, b),
        split_around(v, 0, 0, m, v.len() as int),
        2 * lower_delta >= full_weight(origin, lower_origin, higher_origin),
    ensures
        median_between(origin, lower_origin, higher_origin, v[0].value(), v[0].value()),
{
    reveal(tracks);
    let p = v[0].value();
    let total = full_weight(origin, lower_origin, higher_origin);
    if p < b {
        if 2 * (lower_origin + weight_up_to(origin, p)) == total {
            lemma_weight_zero(v, at_most(p), 0);
        }
    }
}

/// A sum of weights that is zero has no record with weight in it.
pub proof fn lemma_weight_zero<T: Data>(s: Seq<T>, keep: spec_fn(T) -> bool, i: int)
    requires
        0 <= i < s.len(),
        keep(s[i]),
        weight_where(s, keep) == 0,
    ensures
        s[i].weight() == 0,
{
    lemma_weight_remove(s, i, keep);
}

/// Where the weight before the pivot is at least half of the full weight,
/// the records up to the pivot stand for `origin`, with all other weight
/// added to the higher delta.
pub proof fn lemma_keep_lower<T: Data>(
    origin: Seq<T>,
    lower_origin: nat,
    higher_origin: nat,
    v: Seq<T>,
    lower_delta: nat,
    higher_delta: nat,
    a: int,
    b: int,
    k: int,
    m: int,
)
    requires
        tracks(origin, lower_origin, higher_origin, v, lower_delta, higher_delta, a, b),
        split_around(v, 0, k, m, v.len() as int),
        k > 0,
        2 * (lower_delta + total_weight(v.subrange(0, k))) >= full_weight(
            origin,
            lower_origin,
            higher_origin,
        ),
    ensures
        tracks(
            origin,
            lower_origin,
            higher_origin,
            v.subrange(0, k + 1),
            lower_delta,
            higher_delta + total_weight(v.subrange(k + 1, m)) + total_weight(
                v.subrange(m, v.len() as int),
            ),
            a,
            v[k].value(),
        ),
{
    reveal(tracks);
    let p = v[k].value();
    let w = v.subrange(0, k + 1);
    lemma_parted_total(v, k, m);
    lemma_parted_below(v, k, m, p - 1);
    lemma_parted_above(v, k, m, p);
    assert forall|j: int|
        0 <= j < origin.len() && a <= (#[trigger] origin[j]).value() <= p implies has_value(
        w,
        origin[j].value(),
    ) by {
        lemma_kept_values(v, k, m, 0, k + 1, origin[j].value());
    }
    assert forall|u: int| a <= u < p implies lower_delta + weight_up_to(w, u) == lower_origin
        + #[trigger] weight_up_to(origin, u) by {
        lemma_parted_below(v, k, m, u);
        assert(lower_delta + weight_up_to(v, u) == lower_origin + weight_up_to(origin, u));
    }
}

/// A value of a split window that lies within the values of the part that is
/// kept is a value of that part.
pub proof fn lemma_kept_values<T: Data>(v: Seq<T>, k: int, m: int, from: int, to: int, x: int)
    requires
        split_around(v, 0, k, m, v.len() as int),
        has_value(v, x),
        (from == 0 && to == k + 1 && x <= v[k].value()) || (from == k && to == m && x
            >= v[k].value()),
    ensures
        has_value(v.subrange(from, to), x),
{
    let w = v.subrange(from, to);
    let i = choose|i: int| 0 <= i < v.len() && (#[trigger] v[i]).value() == x;
    if from <= i < to {
        assert(w[i - from] == v[i]);
    } else {
        assert(w[k - from] == v[k]);
    }
}

/// Where the weight before the pivot is less than half of the full weight
/// and the weight after it is not, the records from the pivot on stand for
/// `origin`, with all other weight added to the lower delta.
pub proof fn lemma_keep_upper<T: Data>(
    origin: Seq<T>,
    lower_origin: nat,
    higher_origin: nat,
    v: Seq<T>,
    lower_delta: nat,
    higher_delta: nat,
    a: int,
    b: int,
    k: int,
    m: int,
)
    requires
        tracks(origin, lower_origin, higher_origin, v, lower_delta, higher_delta, a, b),
        split_around(v, 0, k, m, v.len() as int),
        2 * (lower_delta + total_weight(v.subrange(0, k))) < full_weight(
            origin,
            lower_origin,
            higher_origin,
        ),
        2 * (higher_delta + total_weight(v.subrange(k + 1, m))) >= full_weight(
            origin,
            lower_origin,
            higher_origin,
        ),
    ensures
        tracks(
            origin,
            lower_origin,
            higher_origin,
            v.subrange(k, m),
            lower_delta + total_weight(v.subrange(0, k)) + total_weight(
                v.subrange(m, v.len() as int),
            ),
            higher_delta,
            v[k].value(),
            b,
        ),
{
    reveal(tracks);
    let p = v[k].value();
    let w = v.subrange(k, m);
    let kept = lower_delta + total_weight(v.subrange(0, k)) + total_weight(
        v.subrange(m, v.len() as int),
    );
    lemma_parted_total(v, k, m);
    if k > 0 {
        lemma_parted_below(v, k, m, p - 1);
    }
    assert forall|j: int|
        0 <= j < origin.len() && p <= (#[trigger] origin[j]).value() <= b implies has_value(
        w,
        origin[j].value(),
    ) by {
        lemma_kept_values(v, k, m, k, m, origin[j].value());
    }
    assert forall|u: int| p <= u < b implies kept + weight_up_to(w, u) == lower_origin
        + #[trigger] weight_up_to(origin, u) by {
        lemma_parted_above(v, k, m, u);
        assert(lower_delta + weight_up_to(v, u) == lower_origin + weight_up_to(origin, u));
    }
}

/// A window of one record that stands for `origin` holds the median.
pub proof fn lemma_single_decides<T: Data>(
    origin: Seq<T>,
    lower_origin: nat,
    higher_origin: nat,
    w: Seq<T>,
    lower_delta: nat,
    higher_delta: nat,
    a: int,
    b: int,
)
    requires
        tracks(origin, lower_origin, higher_origin, w, lower_delta, higher_delta, a, b),
        w.len() == 1,
    ensures
        median_between(origin, lower_origin, higher_origin, w[0].value(), w[0].value()),
{
    reveal(tracks);
}

/// What a window of two records in ascending order yields is the median, if
/// the window stands for `origin`.
pub proof fn lemma_pair_decides<T: Data>(
    origin: Seq<T>,
    lower_origin: nat,
    higher_origin: nat,
    w: Seq<T>,
    lower_delta: nat,
    higher_delta: nat,
    a: int,
    b: int,
    m: Median,
)
    requires
        tracks(origin, lower_origin, higher_origin, w, lower_delta, higher_delta, a, b),
        w.len() == 2,
        w[0].value() <= w[1].value(),
        settled(w, lower_delta, higher_delta, m),
    ensures
        is_weighted_median(origin, lower_origin, higher_origin, m),
{
    reveal(tracks);
    let x = w[0].value();
    let y = w[1].value();
    lemma_weight_of_two(w);
    if x < y {
        lemma_parted_above(w, 0, 2, x);
        lemma_parted_below(w, 1, 2, y - 1);
    }
}

/// What two records in descending order yield between equal deltas is their
/// median.
pub proof fn lemma_reversed_pair_decides<T: Data>(s: Seq<T>, delta: nat, m: Median)
    requires
        s.len() == 2,
        s[0].value() > s[1].value(),
        well_posed(s, delta, delta),
        settled(s, delta, delta, m),
    ensures
        is_weighted_median(s, delta, delta, m),
{
    let x = s[1].value();
    let y = s[0].value();
    lemma_weight_of_two(s);
    assert(s.subrange(0, 1) =~= seq![s[0]]);
    lemma_weight_split(s, 0, 1, 2, at_most(y));
    lemma_weight_single(s[0], at_most(x));
    lemma_weight_single(s[0], at_most(x - 1));
    lemma_weight_single(s[0], at_most(y - 1));
}

/// What the scan of a sorted window yields is the median, if the window
/// stands for `origin`.
pub proof fn lemma_scan_decides<T: Data>(
    origin: Seq<T>,
    lower_origin: nat,
    higher_origin: nat,
    w: Seq<T>,
    lower_delta: nat,
    higher_delta: nat,
    a: int,
    b: int,
    m: Median,
)
    requires
        narrowing(origin, lower_origin, higher_origin, w, lower_delta, higher_delta, a, b),
        w.len() > 2,
        scanned(
            w,
            lower_delta,
            full_weight(origin, lower_origin, higher_origin),
            m,
        ),
    ensures
        is_weighted_median(origin, lower_origin, higher_origin, m),
{
    reveal(narrowing);
    reveal(tracks);
}

/// What the selection knows of its window while the deltas it started from
/// are well posed: either the window is a single record whose value is the
/// median, or the window stands for the records it started from, and a
/// window of two records is in ascending order unless nothing was done yet.
#[verifier::opaque]
pub open spec fn narrowing<T: Data>(
    origin: Seq<T>,
    lower_origin: nat,
    higher_origin: nat,
    w: Seq<T>,
    lower_delta: nat,
    higher_delta: nat,
    a: int,
    b: int,
) -> bool {
    ||| w.len() == 1 && median_between(
        origin,
        lower_origin,
        higher_origin,
        w[0].value(),
        w[0].value(),
    )
    ||| tracks(origin, lower_origin, higher_origin, w, lower_delta, higher_delta, a, b) && (w.len()
        == 2 ==> w[0].value() <= w[1].value() || (w == origin && lower_delta == lower_origin
        && higher_delta == higher_origin))
}

/// What a window of one or two records yields is the median.
pub proof fn lemma_base_case_decides<T: Data>(
    origin: Seq<T>,
    lower_origin: nat,
    higher_origin: nat,
    w: Seq<T>,
    lower_delta: nat,
    higher_delta: nat,
    a: int,
    b: int,
    m: Median,
)
    requires
        well_posed(origin, lower_origin, higher_origin),
        narrowing(origin, lower_origin, higher_origin, w, lower_delta, higher_delta, a, b),
        1 <= w.len() <= 2,
        settled(w, lower_delta, higher_delta, m),
    ensures
        is_weighted_median(origin, lower_origin, higher_origin, m),
{
    reveal(narrowing);
    if w.len() == 1 {
        if tracks(origin, lower_origin, higher_origin, w, lower_delta, higher_delta, a, b) {
            lemma_single_decides(
                origin,
                lower_origin,
                higher_origin,
                w,
                lower_delta,
                higher_delta,
                a,
                b,
            );
        }
    } else if w[0].value() <= w[1].value() {
        lemma_pair_decides(
            origin,
            lower_origin,
            higher_origin,
            w,
            lower_delta,
            higher_delta,
            a,
            b,
            m,
        );
    } else {
        lemma_reversed_pair_decides(origin, lower_origin, m);
    }
}

/// One step of the selection on a window of three or more records that has
/// been partitioned: what each of its three outcomes establishes.
///
/// `before` and `after` are the records before and after the partition of
/// the window `lo..hi`, which left the pivot at `pivot_index` and the window
/// `lo..end`.
pub proof fn lemma_step<T: Data>(
    origin: Seq<T>,
    lower_origin: nat,
    higher_origin: nat,
    before: Seq<T>,
    after: Seq<T>,
    lo: int,
    pivot_index: int,
    end: int,
    hi: int,
    lower_delta: nat,
    higher_delta: nat,
    a: int,
    b: int,
)
    requires
        0 <= lo <= pivot_index < end <= hi <= before.len(),
        hi - lo > 2,
        after.len() == before.len(),
        after.subrange(lo, hi).to_multiset() == before.subrange(lo, hi).to_multiset(),
        split_around(after, lo, pivot_index, end, hi),
        narrowing(
            origin,
            lower_origin,
            higher_origin,
            before.subrange(lo, hi),
            lower_delta,
            higher_delta,
            a,
            b,
        ),
    ensures
        ({
            let total = full_weight(origin, lower_origin, higher_origin);
            let lower_sum = lower_delta + total_weight(after.subrange(lo, pivot_index));
            let higher_sum = higher_delta + total_weight(after.subrange(pivot_index + 1, end));
            let extra = total_weight(after.subrange(end, hi));
            let p = after[pivot_index].value();
            &&& 2 * lower_sum < total && 2 * higher_sum < total ==> median_between(
                origin,
                lower_origin,
                higher_origin,
                p,
                p,
            )
            &&& 2 * lower_sum >= total ==> narrowing(
                origin,
                lower_origin,
                higher_origin,
                after.subrange(lo, pivot_index + 1),
                lower_delta,
                higher_sum + extra,
                a,
                p,
            )
            &&& 2 * lower_sum < total && 2 * higher_sum >= total ==> narrowing(
                origin,
                lower_origin,
                higher_origin,
                after.subrange(pivot_index, end),
                lower_sum + extra,
                higher_delta,
                p,
                b,
            )
        }),
{
    reveal(narrowing);
    let total = full_weight(origin, lower_origin, higher_origin);
    let w = before.subrange(lo, hi);
    let v = after.subrange(lo, hi);
    let k = pivot_index - lo;
    let e = end - lo;
    assert(v.subrange(0, k) =~= after.subrange(lo, pivot_index));
    assert(v.subrange(k + 1, e) =~= after.subrange(pivot_index + 1, end));
    assert(v.subrange(e, v.len() as int) =~= after.subrange(end, hi));
    assert(v.subrange(0, k + 1) =~= after.subrange(lo, pivot_index + 1));
    assert(v.subrange(k, e) =~= after.subrange(pivot_index, end));
    lemma_tracks_permuted(
        origin,
        lower_origin,
        higher_origin,
        w,
        v,
        lower_delta,
        higher_delta,
        a,
        b,
    );
    let lower_sum = lower_delta + total_weight(v.subrange(0, k));
    let higher_sum = higher_delta + total_weight(v.subrange(k + 1, e));
    if 2 * lower_sum < total && 2 * higher_sum < total {
        lemma_pivot_decides(
            origin,
            lower_origin,
            higher_origin,
            v,
            lower_delta,
            higher_delta,
            a,
            b,
            k,
            e,
        );
    } else if 2 * lower_sum >= total {
        if k == 0 {
            lemma_first_pivot_decides(
                origin,
                lower_origin,
                higher_origin,
                v,
                lower_delta,
                higher_delta,
                a,
                b,
                e,
            );
        } else {
            lemma_keep_lower(
                origin,
                lower_origin,
                higher_origin,
                v,
                lower_delta,
                higher_delta,
                a,
                b,
                k,
                e,
            );
        }
    } else {
        lemma_keep_upper(
            origin,
            lower_origin,
            higher_origin,
            v,
            lower_delta,
            higher_delta,
            a,
            b,
            k,
            e,
        );
    }
}

} // verus!
