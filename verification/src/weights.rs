use crate::data::Data;
use vstd::prelude::*;
use vstd::seq_lib::{to_multiset_contains, to_multiset_remove};

verus! {

/// The weight that `r` adds to a sum over the records that `keep` selects.
pub open spec fn counted<T: Data>(r: T, keep: spec_fn(T) -> bool) -> nat {
    if keep(r) {
        r.weight()
    } else {
        0
    }
}

/// The summed weight of the records of `s` that `keep` selects.
pub open spec fn weight_where<T: Data>(s: Seq<T>, keep: spec_fn(T) -> bool) -> nat
    decreases s.len(),
{
    if s.len() == 0 {
        0
    } else {
        weight_where(s.drop_last(), keep) + counted(s.last(), keep)
    }
}

/// Selects every record.
pub open spec fn every<T: Data>() -> spec_fn(T) -> bool {
    |r: T| true
}

/// Selects the records whose value is at most `v`.
pub open spec fn at_most<T: Data>(v: int) -> spec_fn(T) -> bool {
    |r: T| r.value() <= v
}

/// The summed weight of all records of `s`.
pub open spec fn total_weight<T: Data>(s: Seq<T>) -> nat {
    weight_where(s, every())
}

/// The summed weight of the records of `s` whose value is at most `v`.
pub open spec fn weight_up_to<T: Data>(s: Seq<T>, v: int) -> nat {
    weight_where(s, at_most(v))
}

/// The summed weight of the records of `s` whose value is less than `v`.
pub open spec fn weight_below<T: Data>(s: Seq<T>, v: int) -> nat {
    weight_up_to(s, v - 1)
}

/// Some record of `s` has the value `v`.
pub open spec fn has_value<T: Data>(s: Seq<T>, v: int) -> bool {
    exists|i: int| 0 <= i < s.len() && (#[trigger] s[i]).value() == v
}

/// The weight of a sequence of one record.
pub proof fn lemma_weight_single<T: Data>(r: T, keep: spec_fn(T) -> bool)
    ensures
        weight_where(seq![r], keep) == counted(r, keep),
{
    let s = seq![r];
    assert(weight_where(s.drop_last(), keep) == 0);
}

/// The weight of a concatenation is the sum of the weights of its parts.
pub proof fn lemma_weight_concat<T: Data>(a: Seq<T>, b: Seq<T>, keep: spec_fn(T) -> bool)
    ensures
        weight_where(a + b, keep) == weight_where(a, keep) + weight_where(b, keep),
    decreases b.len(),
{
    if b.len() == 0 {
    } else {
        assert((a + b).drop_last() =~= a + b.drop_last());
        lemma_weight_concat(a, b.drop_last(), keep);
    }
}

/// Cutting a range in two cuts its weight in two.
pub proof fn lemma_weight_split<T: Data>(
    s: Seq<T>,
    lo: int,
    mid: int,
    hi: int,
    keep: spec_fn(T) -> bool,
)
    requires
        0 <= lo <= mid <= hi <= s.len(),
    ensures
        weight_where(s.subrange(lo, hi), keep) == weight_where(s.subrange(lo, mid), keep)
            + weight_where(s.subrange(mid, hi), keep),
{
    assert(s.subrange(lo, hi) =~= s.subrange(lo, mid) + s.subrange(mid, hi));
    lemma_weight_concat(s.subrange(lo, mid), s.subrange(mid, hi), keep);
}

/// Taking one record out of a sequence takes its counted weight out of the sum.
pub proof fn lemma_weight_remove<T: Data>(s: Seq<T>, i: int, keep: spec_fn(T) -> bool)
    requires
        0 <= i < s.len(),
    ensures
        weight_where(s, keep) == weight_where(s.remove(i), keep) + counted(s[i], keep),
{
    let head = s.subrange(0, i);
    let tail = s.subrange(i + 1, s.len() as int);
    assert(s =~= head + seq![s[i]] + tail);
    lemma_weight_concat(head, seq![s[i]], keep);
    lemma_weight_concat(head + seq![s[i]], tail, keep);
    lemma_weight_concat(head, tail, keep);
    lemma_weight_single(s[i], keep);
}

/// The weight does not depend on the order of the records.
pub proof fn lemma_weight_permutation<T: Data>(a: Seq<T>, b: Seq<T>, keep: spec_fn(T) -> bool)
    requires
        a.to_multiset() == b.to_multiset(),
    ensures
        weight_where(a, keep) == weight_where(b, keep),
    decreases a.len(),
{
    a.to_multiset_ensures();
    b.to_multiset_ensures();
    if a.len() == 0 {
    } else {
        let x = a.last();
        let i = a.len() - 1;
        to_multiset_contains(a, x);
        let j = choose|j: int| 0 <= j < b.len() && b[j] == x;
        to_multiset_remove(a, i);
        lemma_weight_permutation(a.drop_last(), b.remove(j), keep);
        lemma_weight_remove(b, j, keep);
    }
}

/// Two selections that agree on every record of `s` give the same weight.
pub proof fn lemma_weight_agree<T: Data>(
    s: Seq<T>,
    f: spec_fn(T) -> bool,
    g: spec_fn(T) -> bool,
)
    requires
        forall|i: int| 0 <= i < s.len() ==> f(#[trigger] s[i]) == g(s[i]),
    ensures
        weight_where(s, f) == weight_where(s, g),
    decreases s.len(),
{
    if s.len() > 0 {
        let t = s.drop_last();
        lemma_weight_agree(t, f, g);
    }
}

/// A selection that holds no record of `s` gives no weight.
pub proof fn lemma_weight_none<T: Data>(s: Seq<T>, keep: spec_fn(T) -> bool)
    requires
        forall|i: int| 0 <= i < s.len() ==> !keep(#[trigger] s[i]),
    ensures
        weight_where(s, keep) == 0,
    decreases s.len(),
{
    if s.len() > 0 {
        let t = s.drop_last();
        lemma_weight_none(t, keep);
    }
}

/// A wider selection gives at least the weight of a narrower one.
pub proof fn lemma_weight_monotone<T: Data>(
    s: Seq<T>,
    f: spec_fn(T) -> bool,
    g: spec_fn(T) -> bool,
)
    requires
        forall|i: int| 0 <= i < s.len() ==> (f(#[trigger] s[i]) ==> g(s[i])),
    ensures
        weight_where(s, f) <= weight_where(s, g),
    decreases s.len(),
{
    if s.len() > 0 {
        let t = s.drop_last();
        lemma_weight_monotone(t, f, g);
    }
}

/// Sums the weights of the records of `data` at the positions `lo..hi`.
pub fn weight_sum<T: Data>(data: &[T], lo: usize, hi: usize) -> (sum: u128)
    requires
        lo <= hi <= data@.len(),
    ensures
        sum == total_weight(data@.subrange(lo as int, hi as int)),
        sum <= (hi - lo) * u64::MAX,
{
    let mut sum: u128 = 0;
    let mut i: usize = lo;
    while i < hi
        invariant
            lo <= i <= hi <= data@.len(),
            sum == total_weight(data@.subrange(lo as int, i as int)),
            sum <= (i - lo) * u64::MAX,
        decreases hi - i,
    {
        let w = data[i].get_weight();
        proof {
            let next = data@.subrange(lo as int, i + 1);
            assert(next.drop_last() =~= data@.subrange(lo as int, i as int));
        }
        sum = sum + w as u128;
        i = i + 1;
    }
    sum
}

} // verus!
