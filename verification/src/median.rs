use crate::data::{Data, Median};
use crate::scan::{lemma_ascending_weight, lemma_descending_weight};
use crate::sortedness::{ascending, descending};
use crate::weights::{
    at_most, every, has_value, lemma_weight_monotone, lemma_weight_permutation,
    lemma_weight_single, lemma_weight_split, total_weight, weight_below, weight_up_to,
};
use vstd::prelude::*;
use vstd::seq_lib::to_multiset_contains;

verus! {

/// The weight of the records of `s` together with the weight that lies below
/// and above all of them.
pub open spec fn full_weight<T: Data>(s: Seq<T>, lower_delta: nat, higher_delta: nat) -> nat {
    lower_delta + total_weight(s) + higher_delta
}

/// No record of `s` has a value strictly between `a` and `b`.
pub open spec fn no_value_between<T: Data>(s: Seq<T>, a: int, b: int) -> bool {
    forall|i: int| 0 <= i < s.len() ==> !(a < (#[trigger] s[i]).value() < b)
}

/// Some record of `s` has the value `v` and no weight.
pub open spec fn has_weightless<T: Data>(s: Seq<T>, v: int) -> bool {
    exists|i: int| 0 <= i < s.len() && (#[trigger] s[i]).value() == v && s[i].weight() == 0
}

/// The cumulative weight reaches exactly half of the full weight at `v`, and
/// `v` is the value of a record without weight as well as of records with
/// weight.
pub open spec fn halved_at_weightless<T: Data>(
    s: Seq<T>,
    lower_delta: nat,
    higher_delta: nat,
    v: int,
) -> bool {
    &&& 2 * (lower_delta + weight_up_to(s, v)) == full_weight(s, lower_delta, higher_delta)
    &&& has_weightless(s, v)
    &&& weight_below(s, v) < weight_up_to(s, v)
}

/// The number halfway between `lower` and `upper` is the weighted median of
/// the records of `s`, with `lower_delta` of weight below all of them and
/// `higher_delta` above.
///
/// `lower` is the least value at which the cumulative weight, taken in
/// ascending order of value, reaches half of the full weight. Where it
/// exceeds half there, `upper` is that value too. Where it is exactly half,
/// `upper` is the next greater value of `s`; only if a record without weight
/// shares the value `lower` with records that have weight, `upper` may also
/// be `lower`.
pub open spec fn median_between<T: Data>(
    s: Seq<T>,
    lower_delta: nat,
    higher_delta: nat,
    lower: int,
    upper: int,
) -> bool {
    let total = full_weight(s, lower_delta, higher_delta);
    let before = lower_delta + weight_below(s, lower);
    let through = lower_delta + weight_up_to(s, lower);
    &&& has_value(s, lower)
    &&& has_value(s, upper)
    &&& 2 * before < total <= 2 * through
    &&& if total < 2 * through {
        upper == lower
    } else {
        ||| lower < upper && no_value_between(s, lower, upper)
        ||| upper == lower && halved_at_weightless(s, lower_delta, higher_delta, lower)
    }
}

/// `m` is the weighted median of the records of `s`, with `lower_delta` of
/// weight below all of them and `higher_delta` above.
pub open spec fn is_weighted_median<T: Data>(
    s: Seq<T>,
    lower_delta: nat,
    higher_delta: nat,
    m: Median,
) -> bool {
    median_between(s, lower_delta, higher_delta, m.lower as int, m.upper as int)
}

/// The deltas leave the median among the records of `s`: each of them is
/// less than half of the full weight. Two records in descending order are
/// weighed against each other correctly only between equal deltas.
pub open spec fn well_posed<T: Data>(s: Seq<T>, lower_delta: nat, higher_delta: nat) -> bool {
    let total = full_weight(s, lower_delta, higher_delta);
    &&& 2 * lower_delta < total
    &&& 2 * higher_delta < total
    &&& s.len() == 2 && s[0].value() > s[1].value() ==> lower_delta == higher_delta
}

/// The cumulative weight grows with the value.
pub proof fn lemma_weight_up_to_grows<T: Data>(s: Seq<T>, u: int, v: int)
    requires
        u <= v,
    ensures
        weight_up_to(s, u) <= weight_up_to(s, v),
{
    lemma_weight_monotone(s, at_most(u), at_most(v));
}

/// A record of one sequence is found in every permutation of it.
pub proof fn lemma_permutation_index<T>(a: Seq<T>, b: Seq<T>, i: int) -> (j: int)
    requires
        a.to_multiset() == b.to_multiset(),
        0 <= i < a.len(),
    ensures
        0 <= j < b.len(),
        b[j] == a[i],
{
    to_multiset_contains(a, a[i]);
    to_multiset_contains(b, a[i]);
    choose|j: int| 0 <= j < b.len() && b[j] == a[i]
}

/// What is the weighted median of a sequence is the weighted median of every
/// permutation of it.
pub proof fn lemma_median_of_permutation<T: Data>(
    a: Seq<T>,
    b: Seq<T>,
    lower_delta: nat,
    higher_delta: nat,
    m: Median,
)
    requires
        a.to_multiset() == b.to_multiset(),
        is_weighted_median(a, lower_delta, higher_delta, m),
    ensures
        is_weighted_median(b, lower_delta, higher_delta, m),
{
    lemma_weight_permutation(a, b, every());
    lemma_weight_permutation(a, b, at_most(m.lower as int));
    lemma_weight_permutation(a, b, at_most(m.lower as int - 1));
    let il = choose|i: int| 0 <= i < a.len() && (#[trigger] a[i]).value() == m.lower;
    let jl = lemma_permutation_index(a, b, il);
    let iu = choose|i: int| 0 <= i < a.len() && (#[trigger] a[i]).value() == m.upper;
    let ju = lemma_permutation_index(a, b, iu);
    if no_value_between(a, m.lower as int, m.upper as int) {
        assert forall|j: int| 0 <= j < b.len() implies !(m.lower < (#[trigger] b[j]).value()
            < m.upper) by {
            let i = lemma_permutation_index(b, a, j);
            assert(a[i].value() == b[j].value());
        }
    }
    if has_weightless(a, m.lower as int) {
        let i = choose|i: int|
            0 <= i < a.len() && (#[trigger] a[i]).value() == m.lower && a[i].weight() == 0;
        let j = lemma_permutation_index(a, b, i);
    }
}

/// A sequence has at most one weighted median, unless the cumulative weight
/// reaches exactly half of the full weight at the value of a record without
/// weight that shares that value with records that have weight.
pub proof fn lemma_median_unique<T: Data>(
    s: Seq<T>,
    lower_delta: nat,
    higher_delta: nat,
    m1: Median,
    m2: Median,
)
    requires
        is_weighted_median(s, lower_delta, higher_delta, m1),
        is_weighted_median(s, lower_delta, higher_delta, m2),
        forall|v: int| !halved_at_weightless(s, lower_delta, higher_delta, v),
    ensures
        m1 == m2,
{
    if m1.lower < m2.lower {
        lemma_weight_up_to_grows(s, m1.lower as int, m2.lower as int - 1);
    }
    if m2.lower < m1.lower {
        lemma_weight_up_to_grows(s, m2.lower as int, m1.lower as int - 1);
    }
}

/// Permutation invariance: the weighted medians of two sequences that hold
/// the same records are the same, whatever the order of the records. The one
/// exception is stated as in `lemma_median_unique`.
pub proof fn lemma_permutation_invariance<T: Data>(
    a: Seq<T>,
    b: Seq<T>,
    lower_delta: nat,
    higher_delta: nat,
    ma: Median,
    mb: Median,
)
    requires
        a.to_multiset() == b.to_multiset(),
        is_weighted_median(a, lower_delta, higher_delta, ma),
        is_weighted_median(b, lower_delta, higher_delta, mb),
        forall|v: int| !halved_at_weightless(a, lower_delta, higher_delta, v),
    ensures
        ma == mb,
{
    lemma_median_of_permutation(b, a, lower_delta, higher_delta, mb);
    lemma_median_unique(a, lower_delta, higher_delta, ma, mb);
}

/// The fast path for sorted input agrees with the general path: a strictly
/// ascending or strictly descending sequence and every permutation of it
/// have the same weighted median.
pub proof fn lemma_sorted_and_shuffled_agree<T: Data>(
    sorted: Seq<T>,
    shuffled: Seq<T>,
    lower_delta: nat,
    higher_delta: nat,
    m_sorted: Median,
    m_shuffled: Median,
)
    requires
        ascending(sorted, 0, sorted.len() as int) || descending(sorted, 0, sorted.len() as int),
        sorted.to_multiset() == shuffled.to_multiset(),
        is_weighted_median(sorted, lower_delta, higher_delta, m_sorted),
        is_weighted_median(shuffled, lower_delta, higher_delta, m_shuffled),
    ensures
        m_sorted == m_shuffled,
{
    let n = sorted.len() as int;
    assert forall|v: int| !halved_at_weightless(sorted, lower_delta, higher_delta, v) by {
        if has_weightless(sorted, v) {
            let i = choose|i: int|
                0 <= i < sorted.len() && (#[trigger] sorted[i]).value() == v && sorted[i].weight()
                    == 0;
            if ascending(sorted, 0, n) {
                lemma_ascending_weight(sorted, i);
                lemma_weight_split(sorted, 0, i, i + 1, every());
            } else {
                lemma_descending_weight(sorted, i);
                lemma_weight_split(sorted, i, i + 1, n, every());
            }
            assert(sorted.subrange(i, i + 1) =~= seq![sorted[i]]);
            lemma_weight_single(sorted[i], every());
        }
    }
    lemma_permutation_invariance(
        sorted,
        shuffled,
        lower_delta,
        higher_delta,
        m_sorted,
        m_shuffled,
    );
}

/// The weighted median lies between the least and the greatest value: with
/// every value of `s` within `least..=greatest`, so is the median.
pub proof fn lemma_median_within_bounds<T: Data>(
    s: Seq<T>,
    lower_delta: nat,
    higher_delta: nat,
    m: Median,
    least: int,
    greatest: int,
)
    requires
        is_weighted_median(s, lower_delta, higher_delta, m),
        forall|i: int| 0 <= i < s.len() ==> least <= (#[trigger] s[i]).value() <= greatest,
    ensures
        2 * least <= m.twice() <= 2 * greatest,
        m.lower <= m.upper,
{
}

} // verus!
