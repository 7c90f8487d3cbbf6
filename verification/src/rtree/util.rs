//! Searching in the bounds of the levels.

use vstd::prelude::*;

verus! {

/// The first value in an ascending slice that is greater than the given one, or the last value
/// where none is.
pub(crate) fn upper_bound(value: usize, arr: &[usize]) -> (bound: usize)
    requires
        arr@.len() > 0,
        forall|i: int, j: int| 0 <= i <= j < arr@.len() ==> arr@[i] <= arr@[j],
    ensures
        exists|i: int|
            {
                &&& 0 <= i < arr@.len()
                &&& #[trigger] arr@[i] == bound
                &&& forall|j: int| 0 <= j < i ==> arr@[j] <= value
                &&& value < bound || i == arr@.len() - 1
            },
{
    let mut i: usize = 0;
    let mut j: usize = arr.len() - 1;
    while i < j
        invariant
            i <= j < arr@.len(),
            forall|i: int, j: int| 0 <= i <= j < arr@.len() ==> arr@[i] <= arr@[j],
            forall|k: int| 0 <= k < i ==> arr@[k] <= value,
            value < arr@[j as int] || j == arr@.len() - 1,
        decreases j - i,
    {
        let m: usize = i + (j - i) / 2;
        if arr[m] > value {
            j = m;
        } else {
            i = m + 1;
        }
    }
    arr[i]
}

/// More distinct positions than another sequence has do not all stand in it.
pub(crate) proof fn lemma_pigeonhole(a: Seq<int>, b: Seq<int>) -> (i: int)
    requires
        a.no_duplicates(),
        a.len() > b.len(),
    ensures
        0 <= i < a.len(),
        !b.contains(a[i]),
{
    if forall|i: int| 0 <= i < a.len() ==> b.contains(#[trigger] a[i]) {
        a.unique_seq_to_set();
        b.lemma_cardinality_of_set();
        assert(a.to_set().subset_of(b.to_set()));
        vstd::set_lib::lemma_len_subset(a.to_set(), b.to_set());
    }
    choose|i: int| 0 <= i < a.len() && !b.contains(#[trigger] a[i])
}

} // verus!
