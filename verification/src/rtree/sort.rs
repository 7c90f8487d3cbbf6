//! Sorting of the items of a tree before they are grouped into nodes.

pub mod permutation;
pub mod str_sort;
pub mod util;

use crate::indices::MutableIndices;
use crate::num::IndexableNum;
use crate::rtree::util::lemma_pigeonhole;
use vstd::prelude::*;

verus! {

/// What a sort needs to know of the tree.
#[derive(Debug, Clone, Copy, PartialEq, Eq)]
pub struct SortParams {
    /// The number of items in the tree.
    pub num_items: usize,
    /// The maximum number of children of a node.
    pub node_size: usize,
}

/// Whether `order` is a permutation of `0..n`: it holds `n` different numbers below `n`.
pub open spec fn is_permutation(order: Seq<int>, n: nat) -> bool {
    &&& order.len() == n
    &&& order.no_duplicates()
    &&& forall|i: int| 0 <= i < n ==> 0 <= #[trigger] order[i] < n
}

/// A permutation reaches every number below its length.
pub(crate) proof fn lemma_permutation_reaches(order: Seq<int>, n: nat, p: int) -> (i: int)
    requires
        is_permutation(order, n),
        0 <= p < n,
    ensures
        0 <= i < n,
        order[i] == p,
{
    if !order.contains(p) {
        let more = order.push(p);
        let all = Seq::new(n, |i: int| i);
        assert(more.no_duplicates()) by {
            assert forall|i: int, j: int| 0 <= i < j < more.len() implies more[i] != more[j] by {
                assert(order[i] == more[i]);
            }
        }
        let i = lemma_pigeonhole(more, all);
        assert(0 <= more[i] < n);
        assert(all[more[i]] == more[i]);
    }
    choose|i: int| 0 <= i < order.len() && order[i] == p
}

/// Whether each item `i` of a permutation has the box and the index that item `order[i]` had
/// before, and nothing else has changed. A box is made of four values.
pub open spec fn items_moved<N>(
    order: Seq<int>,
    boxes0: Seq<N>,
    boxes: Seq<N>,
    indices0: Seq<int>,
    indices: Seq<int>,
) -> bool {
    &&& boxes.len() == boxes0.len()
    &&& indices.len() == indices0.len()
    &&& forall|j: int|
        0 <= j < boxes.len() ==> #[trigger] boxes[j] == if j < 4 * order.len() {
            boxes0[4 * order[j / 4] + j % 4]
        } else {
            boxes0[j]
        }
    &&& forall|i: int|
        0 <= i < indices.len() ==> #[trigger] indices[i] == if i < order.len() {
            indices0[order[i]]
        } else {
            indices0[i]
        }
}

/// Whether the items of a tree have been put into another order, each with its box and its index.
pub open spec fn items_reordered<N>(
    num_items: nat,
    boxes0: Seq<N>,
    boxes: Seq<N>,
    indices0: Seq<int>,
    indices: Seq<int>,
) -> bool {
    exists|order: Seq<int>| #[trigger]
        is_permutation(order, num_items) && items_moved(order, boxes0, boxes, indices0, indices)
}

/// A way to sort the items of a tree, so that items that end up close to each other are close in
/// space.
pub trait Sort<N: IndexableNum> {
    /// What the sort asks of the tree.
    spec fn sortable(params: SortParams, boxes: Seq<N>) -> bool;

    /// What the sort establishes.
    spec fn sorted(params: SortParams, boxes: Seq<N>) -> bool;

    /// Sorts the boxes of the items, and the indices with them.
    fn sort<'a>(params: &mut SortParams, boxes: &mut [N], indices: &mut MutableIndices<'a>)
        requires
            4 * old(params).num_items <= old(boxes)@.len(),
            old(params).num_items <= old(indices)@.len(),
            Self::sortable(*old(params), old(boxes)@),
        ensures
            *final(params) == *old(params),
            items_reordered(
                old(params).num_items as nat,
                old(boxes)@,
                final(boxes)@,
                old(indices)@,
                final(indices)@,
            ),
            Self::sorted(*old(params), final(boxes)@),
            match (*old(indices), *final(indices)) {
                (MutableIndices::U16(before), MutableIndices::U16(after)) => {
                    final(after)@ == final(before)@
                },
                (MutableIndices::U32(before), MutableIndices::U32(after)) => {
                    final(after)@ == final(before)@
                },
                _ => false,
            },
    ;
}

} // verus!
