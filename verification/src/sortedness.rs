use crate::data::Data;
use vstd::prelude::*;

verus! {

/// How the values of a window run.
#[derive(Clone, Copy, Debug, PartialEq, Eq, Structural)]
pub enum Sortedness {
    /// Every value is less than the one after it.
    Ascending,
    /// Every value is greater than the one after it.
    Descending,
    /// Neither of the two.
    Unordered,
}

/// The values at the positions `lo..hi` of `s` strictly increase.
pub open spec fn ascending<T: Data>(s: Seq<T>, lo: int, hi: int) -> bool {
    forall|i: int, j: int|
        lo <= i < j < hi ==> (#[trigger] s[i]).value() < (#[trigger] s[j]).value()
}

/// The values at the positions `lo..hi` of `s` strictly decrease.
pub open spec fn descending<T: Data>(s: Seq<T>, lo: int, hi: int) -> bool {
    forall|i: int, j: int|
        lo <= i < j < hi ==> (#[trigger] s[i]).value() > (#[trigger] s[j]).value()
}

/// The order of the values at `lo..hi`. A window of fewer than two records
/// counts as ascending.
pub open spec fn order_of<T: Data>(s: Seq<T>, lo: int, hi: int) -> Sortedness {
    if ascending(s, lo, hi) {
        Sortedness::Ascending
    } else if descending(s, lo, hi) {
        Sortedness::Descending
    } else {
        Sortedness::Unordered
    }
}

/// Classifies the window `lo..hi` of `data` in one pass over neighbouring
/// pairs, which stops at the first pair that rules out both orders.
pub fn sortedness<T: Data>(data: &[T], lo: usize, hi: usize) -> (r: Sortedness)
    requires
        lo <= hi <= data@.len(),
    ensures
        r == order_of(data@, lo as int, hi as int),
{
    let mut forward_sorted = true;
    let mut backward_sorted = true;
    let mut i: usize = lo;
    while hi - i > 1
        invariant
            lo <= i <= hi <= data@.len(),
            i < hi || lo == hi,
            forward_sorted == ascending(data@, lo as int, i + 1),
            backward_sorted == descending(data@, lo as int, i + 1),
            forward_sorted || backward_sorted,
        decreases hi - i,
    {
        let current = data[i].get_value();
        let next = data[i + 1].get_value();
        forward_sorted = forward_sorted && current < next;
        backward_sorted = backward_sorted && current > next;
        if !backward_sorted && !forward_sorted {
            return Sortedness::Unordered;
        }
        i += 1;
    }
    if forward_sorted {
        Sortedness::Ascending
    } else {
        Sortedness::Descending
    }
}

/// Whether the values of `data` strictly increase or strictly decrease.
pub fn is_sorted<T: Data>(data: &mut [T]) -> (r: bool)
    ensures
        final(data)@ == old(data)@,
        r == (ascending(old(data)@, 0, old(data)@.len() as int) || descending(
            old(data)@,
            0,
            old(data)@.len() as int,
        )),
{
    let hi = data.len();
    match sortedness(data, 0, hi) {
        Sortedness::Unordered => false,
        _ => true,
    }
}

} // verus!
