//! Sort-tile-recursive sorting.

use crate::indices::MutableIndices;
use crate::num::IndexableNum;
use crate::rtree::layout::ceil_div;
use crate::rtree::sort::permutation::{
    apply_permutation, identity, order_of, permuted, permuted_boxes, PermIndices,
};
use crate::rtree::sort::util::{block_ordered, is_ordering, k_block_sort_by, orders};
use crate::rtree::sort::{is_permutation, items_moved, items_reordered, Sort, SortParams};
use std::cmp::Ordering;
use std::ops::Range;
use vstd::prelude::*;

verus! {

/// Whether each key `i` is the one that stood at `order[i]` before.
pub open spec fn keys_moved<N>(order: Seq<int>, keys0: Seq<N>, keys: Seq<N>) -> bool {
    &&& keys.len() == keys0.len()
    &&& forall|i: int| 0 <= i < order.len() ==> #[trigger] keys[i] == keys0[order[i]]
}

/// The sort keys in a buffer of keys and indices.
pub open spec fn keys_of<N>(pairs: Seq<(N, u32)>) -> Seq<N> {
    Seq::new(pairs.len(), |i: int| pairs[i].0)
}

/// The indices in a buffer of keys and indices.
pub open spec fn indices_of<N>(pairs: Seq<(N, u32)>) -> Seq<u32> {
    Seq::new(pairs.len(), |i: int| pairs[i].1)
}

/// The order of numbers by rank.
pub open spec fn by_rank<N: IndexableNum>() -> spec_fn(N, N) -> bool {
    |a: N, b: N| a.rank() <= b.rank()
}

/// The order of pairs by the rank of their keys.
pub open spec fn by_key_rank<N: IndexableNum>() -> spec_fn((N, u32), (N, u32)) -> bool {
    |a: (N, u32), b: (N, u32)| a.0.rank() <= b.0.rank()
}

/// Compares two pairs by their keys.
fn by_key<N: IndexableNum>(a: &(N, u32), b: &(N, u32)) -> (answer: Ordering)
    ensures
        match answer {
            Ordering::Less => a.0.rank() < b.0.rank(),
            Ordering::Equal => a.0.rank() == b.0.rank(),
            Ordering::Greater => a.0.rank() > b.0.rank(),
        },
{
    if a.0.is_less(b.0) {
        Ordering::Less
    } else if b.0.is_less(a.0) {
        Ordering::Greater
    } else {
        Ordering::Equal
    }
}

/// Numbers the pairs: the index beside each key becomes the position of the pair.
fn number<N: IndexableNum>(pairs: &mut [(N, u32)])
    requires
        old(pairs)@.len() <= 0x1_0000_0000,
    ensures
        final(pairs)@.len() == old(pairs)@.len(),
        keys_of(final(pairs)@) == keys_of(old(pairs)@),
        indices_of(final(pairs)@) == identity(old(pairs)@.len()),
{
    let ghost pairs0 = pairs@;
    let mut idx: usize = 0;
    while idx < pairs.len()
        invariant
            idx <= pairs@.len(),
            pairs@.len() == pairs0.len(),
            pairs0.len() <= 0x1_0000_0000,
            forall|i: int| 0 <= i < pairs0.len() ==> (#[trigger] pairs@[i]).0 == pairs0[i].0,
            forall|i: int| 0 <= i < idx ==> (#[trigger] pairs@[i]).1 == i as u32,
        decreases pairs@.len() - idx,
    {
        pairs[idx].1 = idx as u32;
        idx += 1;
    }
    assert(keys_of(pairs@) =~= keys_of(pairs0));
    assert(indices_of(pairs@) =~= identity(pairs0.len()));
}

/// What it means for pairs to be numbered.
proof fn lemma_numbered<N>(pairs: Seq<(N, u32)>)
    requires
        indices_of(pairs) == identity(pairs.len()),
    ensures
        forall|i: int| 0 <= i < pairs.len() ==> (#[trigger] pairs[i]).1 == i as u32,
{
    assert forall|i: int| 0 <= i < pairs.len() implies (#[trigger] pairs[i]).1 == i as u32 by {
        assert(indices_of(pairs)[i] == pairs[i].1);
        assert(identity(pairs.len())[i] == i as u32);
    }
}

/// Whether a run of pairs, with its boxes and indices, has been sorted in blocks of `node_size` by
/// the order `order`.
#[verifier::opaque]
pub open spec fn run_sorted<N: IndexableNum>(
    order: Seq<int>,
    keys0: Seq<N>,
    keys: Seq<N>,
    boxes0: Seq<N>,
    boxes: Seq<N>,
    indices0: Seq<int>,
    indices: Seq<int>,
    node_size: usize,
) -> bool {
    &&& is_permutation(order, keys0.len())
    &&& keys_moved(order, keys0, keys)
    &&& items_moved(order, boxes0, boxes, indices0, indices)
    &&& block_ordered(keys, node_size, by_rank())
}

proof fn lemma_by_key_orders<N: IndexableNum>(pairs: Seq<(N, u32)>)
    ensures
        orders(by_key::<N>, by_key_rank(), pairs),
        is_ordering(by_key::<N>, pairs),
{
    assert(orders(by_key::<N>, by_key_rank(), pairs));
}

/// Numbered pairs, put into another order, describe that order.
proof fn lemma_order_of_numbered<N: IndexableNum>(pairs0: Seq<(N, u32)>, pairs: Seq<(N, u32)>)
    requires
        pairs0.len() <= 0x1_0000_0000,
        forall|i: int| 0 <= i < pairs0.len() ==> (#[trigger] pairs0[i]).1 == i as u32,
        pairs.to_multiset() == pairs0.to_multiset(),
    ensures
        pairs.len() == pairs0.len(),
        forall|i: int| 0 <= i < pairs.len() ==> 0 <= (#[trigger] pairs[i]).1 < pairs.len(),
        forall|i: int|
            0 <= i < pairs.len() ==> (#[trigger] pairs[i]).0 == pairs0[pairs[i].1 as int].0,
        is_permutation(Seq::new(pairs.len(), |i: int| pairs[i].1 as int), pairs.len()),
{
    broadcast use vstd::seq_lib::group_to_multiset_ensures;

    assert(pairs.len() == pairs.to_multiset().len() && pairs0.len() == pairs0.to_multiset().len());
    assert forall|i: int| 0 <= i < pairs.len() implies 0 <= (#[trigger] pairs[i]).1 < pairs.len()
        && pairs[i] == pairs0[pairs[i].1 as int] by {
        assert(pairs.contains(pairs[i]));
        assert(pairs.to_multiset().count(pairs[i]) > 0);
        assert(pairs0.contains(pairs[i]));
        let j = choose|j: int| 0 <= j < pairs0.len() && pairs0[j] == pairs[i];
        assert(pairs0[j].1 == j as u32);
    }
    assert(pairs0.no_duplicates());
    pairs0.lemma_multiset_has_no_duplicates();
    pairs.lemma_multiset_has_no_duplicates_conv();
    let order = Seq::new(pairs.len(), |i: int| pairs[i].1 as int);
    assert forall|i: int, j: int| 0 <= i < j < order.len() implies order[i] != order[j] by {
        if order[i] == order[j] {
            assert(pairs[i] == pairs0[order[i]] && pairs[j] == pairs0[order[j]]);
        }
    }
}

/// What a sort in blocks of the pairs, and the permutation that it leaves beside the keys, say of
/// the run.
proof fn lemma_run_sorted<N: IndexableNum>(
    pairs0: Seq<(N, u32)>,
    pairs: Seq<(N, u32)>,
    boxes0: Seq<N>,
    indices0: Seq<int>,
    node_size: usize,
)
    requires
        pairs0.len() <= 0x1_0000_0000,
        forall|i: int| 0 <= i < pairs0.len() ==> (#[trigger] pairs0[i]).1 == i as u32,
        pairs.to_multiset() == pairs0.to_multiset(),
        block_ordered(pairs, node_size, by_key_rank()),
        4 * pairs0.len() <= boxes0.len(),
        pairs0.len() <= indices0.len(),
    ensures
        pairs.len() == pairs0.len(),
        is_permutation(order_of(indices_of(pairs)), pairs.len()),
        run_sorted(
            order_of(indices_of(pairs)),
            keys_of(pairs0),
            keys_of(pairs),
            boxes0,
            permuted_boxes(boxes0, indices_of(pairs)),
            indices0,
            permuted(indices0, indices_of(pairs)),
            node_size,
        ),
{
    reveal(run_sorted);
    lemma_order_of_numbered(pairs0, pairs);
    let perm = indices_of(pairs);
    let order = order_of(perm);
    assert(order =~= Seq::new(pairs.len(), |i: int| pairs[i].1 as int));
    assert(keys_moved(order, keys_of(pairs0), keys_of(pairs)));
    assert(items_moved(
        order,
        boxes0,
        permuted_boxes(boxes0, perm),
        indices0,
        permuted(indices0, perm),
    ));
    assert(block_ordered(keys_of(pairs), node_size, by_rank()));
}

/// Sorts the pairs in blocks of `node_size` by their keys, and moves the boxes and the indices in
/// the same way.
fn sort_run<'a, N: IndexableNum>(
    pairs: &mut [(N, u32)],
    boxes: &mut [N],
    indices: &mut MutableIndices<'a>,
    node_size: usize,
)
    requires
        node_size > 0,
        old(pairs)@.len() <= 0x1_0000_0000,
        4 * old(pairs)@.len() <= old(boxes)@.len(),
        old(pairs)@.len() <= old(indices)@.len(),
    ensures
        final(pairs)@.len() == old(pairs)@.len(),
        final(boxes)@.len() == old(boxes)@.len(),
        final(indices)@.len() == old(indices)@.len(),
        indices_of(final(pairs)@) == identity(old(pairs)@.len()),
        exists|order: Seq<int>| #[trigger]
            run_sorted(
                order,
                keys_of(old(pairs)@),
                keys_of(final(pairs)@),
                old(boxes)@,
                final(boxes)@,
                old(indices)@,
                final(indices)@,
                node_size,
            ),
        match (*old(indices), *final(indices)) {
            (MutableIndices::U16(before), MutableIndices::U16(after)) => {
                final(after)@ == final(before)@
            },
            (MutableIndices::U32(before), MutableIndices::U32(after)) => {
                final(after)@ == final(before)@
            },
            _ => false,
        },
{
    number(pairs);
    let ghost numbered = pairs@;
    proof {
        lemma_by_key_orders(numbered);
        lemma_numbered(numbered);
    }
    k_block_sort_by(pairs, node_size, by_key::<N>);
    proof {
        lemma_run_sorted(numbered, pairs@, boxes@, indices@, node_size);
        assert(pairs.perm() == indices_of(pairs@));
        assert(pairs.keys() == keys_of(pairs@));
    }
    apply_permutation(pairs, boxes, indices);
    proof {
        assert(pairs.perm() == indices_of(pairs@));
        assert(pairs.keys() == keys_of(pairs@));
        assert(pairs@.len() == pairs.perm().len());
    }
}

/// Whether the items in `start..end` have been sorted in blocks of `node_size` by the order
/// `order`, which leaves the others in place.
#[verifier::opaque]
pub open spec fn range_sorted<N: IndexableNum>(
    order: Seq<int>,
    keys0: Seq<N>,
    keys: Seq<N>,
    boxes0: Seq<N>,
    boxes: Seq<N>,
    indices0: Seq<int>,
    indices: Seq<int>,
    start: usize,
    end: usize,
    node_size: usize,
) -> bool {
    &&& is_permutation(order, keys0.len())
    &&& forall|i: int|
        0 <= i < keys0.len() ==> if start <= i < end {
            start <= #[trigger] order[i] < end
        } else {
            order[i] == i
        }
    &&& keys_moved(order, keys0, keys)
    &&& items_moved(order, boxes0, boxes, indices0, indices)
    &&& block_ordered(keys.subrange(start as int, end as int), node_size, by_rank())
}

/// `s` with `part` in place of as many elements from `start` on.
spec fn spliced<A>(s: Seq<A>, start: int, part: Seq<A>) -> Seq<A> {
    s.subrange(0, start) + part + s.subrange(start + part.len(), s.len() as int)
}

/// The order of all items, where a run of them from `start` on is put into the order `run_order`.
spec fn order_around(n: nat, start: int, run_order: Seq<int>) -> Seq<int> {
    Seq::new(
        n,
        |i: int|
            if start <= i < start + run_order.len() {
                start + run_order[i - start]
            } else {
                i
            },
    )
}

/// Sorting a run of the items sorts that range of them.
proof fn lemma_range_sorted<N: IndexableNum>(
    run_order: Seq<int>,
    keys0: Seq<N>,
    run_keys: Seq<N>,
    boxes0: Seq<N>,
    run_boxes: Seq<N>,
    indices0: Seq<int>,
    run_indices: Seq<int>,
    start: usize,
    end: usize,
    node_size: usize,
)
    requires
        start <= end <= keys0.len(),
        4 * end <= boxes0.len(),
        end <= indices0.len(),
        run_sorted(
            run_order,
            keys0.subrange(start as int, end as int),
            run_keys,
            boxes0.subrange(4 * start, 4 * end),
            run_boxes,
            indices0.subrange(start as int, end as int),
            run_indices,
            node_size,
        ),
    ensures
        range_sorted(
            order_around(keys0.len(), start as int, run_order),
            keys0,
            spliced(keys0, start as int, run_keys),
            boxes0,
            spliced(boxes0, 4 * start, run_boxes),
            indices0,
            spliced(indices0, start as int, run_indices),
            start,
            end,
            node_size,
        ),
{
    reveal(run_sorted);
    reveal(range_sorted);
    let order = order_around(keys0.len(), start as int, run_order);
    let keys = spliced(keys0, start as int, run_keys);
    let boxes = spliced(boxes0, 4 * start, run_boxes);
    let indices = spliced(indices0, start as int, run_indices);
    assert forall|i: int, j: int| 0 <= i < j < order.len() implies order[i] != order[j] by {
        if start <= i < end && start <= j < end {
            assert(run_order[i - start] != run_order[j - start]);
        }
    }
    assert(is_permutation(order, keys0.len()));
    assert(keys_moved(order, keys0, keys));
    assert forall|j: int| 0 <= j < boxes.len() implies #[trigger] boxes[j] == if j < 4
        * order.len() {
        boxes0[4 * order[j / 4] + j % 4]
    } else {
        boxes0[j]
    } by {
        if 4 * start <= j < 4 * end {
            let i = j - 4 * start;
            assert(i / 4 == j / 4 - start && i % 4 == j % 4);
            assert(boxes[j] == run_boxes[i]);
            assert(0 <= run_order[i / 4] < end - start);
        }
    }
    assert(items_moved(order, boxes0, boxes, indices0, indices));
    assert(keys.subrange(start as int, end as int) =~= run_keys);
}

/// `indices` with those in `start..end` counted up from zero.
pub open spec fn numbered_range(indices: Seq<u32>, start: usize, end: usize) -> Seq<u32> {
    Seq::new(
        indices.len(),
        |i: int|
            if start <= i < end {
                (i - start) as u32
            } else {
                indices[i]
            },
    )
}

/// Sorts the given range of items in `center_with_indices` by their centers, in blocks of
/// `node_size`, and applies the same permutation to `boxes` and `indices`.
pub fn sort<'a, N: IndexableNum>(
    center_with_indices: &mut [(N, u32)],
    boxes: &mut [N],
    indices: &mut MutableIndices<'a>,
    range: Range<usize>,
    node_size: usize,
)
    requires
        node_size > 0,
        range.start <= range.end <= old(center_with_indices)@.len(),
        range.end - range.start <= 0x1_0000_0000,
        4 * range.end <= old(boxes)@.len(),
        range.end <= old(indices)@.len(),
    ensures
        indices_of(final(center_with_indices)@) == numbered_range(
            indices_of(old(center_with_indices)@),
            range.start,
            range.end,
        ),
        exists|order: Seq<int>| #[trigger]
            range_sorted(
                order,
                keys_of(old(center_with_indices)@),
                keys_of(final(center_with_indices)@),
                old(boxes)@,
                final(boxes)@,
                old(indices)@,
                final(indices)@,
                range.start,
                range.end,
                node_size,
            ),
        match (*old(indices), *final(indices)) {
            (MutableIndices::U16(before), MutableIndices::U16(after)) => {
                final(after)@ == final(before)@
            },
            (MutableIndices::U32(before), MutableIndices::U32(after)) => {
                final(after)@ == final(before)@
            },
            _ => false,
        },
{
    let ghost pairs0 = center_with_indices@;
    let ghost boxes0 = boxes@;
    let ghost indices0 = indices@;
    assert(boxes.len() <= usize::MAX);
    let len: usize = range.end - range.start;
    let (_, tail) = center_with_indices.split_at_mut(range.start);
    let (run, _) = tail.split_at_mut(len);
    let (_, boxes_tail) = boxes.split_at_mut(range.start * 4);
    let (run_boxes, _) = boxes_tail.split_at_mut(len * 4);
    let mut run_indices = match indices {
        MutableIndices::U16(arr) => {
            let (_, tail) = arr.split_at_mut(range.start);
            let (part, _) = tail.split_at_mut(len);
            MutableIndices::U16(part)
        },
        MutableIndices::U32(arr) => {
            let (_, tail) = arr.split_at_mut(range.start);
            let (part, _) = tail.split_at_mut(len);
            MutableIndices::U32(part)
        },
    };
    proof {
        assert(run@ =~= pairs0.subrange(range.start as int, range.end as int));
        assert(run_boxes@ =~= boxes0.subrange(4 * range.start, 4 * range.end));
        assert(run_indices@ =~= indices0.subrange(range.start as int, range.end as int));
    }
    sort_run(run, run_boxes, &mut run_indices, node_size);
    proof {
        let keys0 = keys_of(pairs0);
        assert(keys_of(pairs0.subrange(range.start as int, range.end as int)) =~= keys0.subrange(
            range.start as int,
            range.end as int,
        ));
        let run_order = choose|run_order: Seq<int>| #[trigger]
            run_sorted(
                run_order,
                keys0.subrange(range.start as int, range.end as int),
                keys_of(run@),
                boxes0.subrange(4 * range.start, 4 * range.end),
                run_boxes@,
                indices0.subrange(range.start as int, range.end as int),
                run_indices@,
                node_size,
            );
        lemma_range_sorted(
            run_order,
            keys0,
            keys_of(run@),
            boxes0,
            run_boxes@,
            indices0,
            run_indices@,
            range.start,
            range.end,
            node_size,
        );
        lemma_numbered(run@);
        assert(has_resolved(run_indices));
    }
    let ghost run_pairs = run@;
    let ghost run_keys = keys_of(run@);
    let ghost run_boxes = run_boxes@;
    let ghost run_values = run_indices@;
    assert(boxes@ =~= spliced(boxes0, 4 * range.start, run_boxes));
    assert(center_with_indices@ =~= spliced(pairs0, range.start as int, run_pairs));
    assert(keys_of(center_with_indices@) =~= spliced(
        keys_of(pairs0),
        range.start as int,
        run_keys,
    ));
    assert(indices@ =~= spliced(indices0, range.start as int, run_values));
    assert(indices_of(center_with_indices@) =~= numbered_range(
        indices_of(pairs0),
        range.start,
        range.end,
    ));
}

/// The square root of `n`, rounded up.
pub open spec fn ceil_sqrt(n: int) -> int
    decreases n,
{
    if n <= 0 {
        0
    } else {
        let root = ceil_sqrt(n - 1);
        if root * root < n {
            root + 1
        } else {
            root
        }
    }
}

/// The square root of `n`, rounded up, is the least number whose square is no less than `n`.
pub proof fn lemma_ceil_sqrt(n: int)
    requires
        n >= 0,
    ensures
        0 <= ceil_sqrt(n),
        n <= ceil_sqrt(n) * ceil_sqrt(n),
        n > 0 ==> (ceil_sqrt(n) - 1) * (ceil_sqrt(n) - 1) < n,
    decreases n,
{
    if n > 0 {
        lemma_ceil_sqrt(n - 1);
        let root = ceil_sqrt(n - 1);
        assert((root + 1) * (root + 1) == root * root + 2 * root + 1) by (nonlinear_arith);
        if n - 1 > 0 {
            assert((root - 1) * (root - 1) < n);
        } else {
            assert(root == 0);
        }
    }
}

/// No other number is the least whose square is no less than `n`.
proof fn lemma_ceil_sqrt_unique(n: int, root: int)
    requires
        n >= 0,
        root >= 0,
        n <= root * root,
        root > 0 ==> (root - 1) * (root - 1) < n,
    ensures
        root == ceil_sqrt(n),
{
    lemma_ceil_sqrt(n);
    let other = ceil_sqrt(n);
    if n == 0 {
        assert(root == 0) by (nonlinear_arith)
            requires
                root >= 0,
                root > 0 ==> (root - 1) * (root - 1) < 0,
        ;
    } else if root < other {
        assert(root * root <= (other - 1) * (other - 1)) by (nonlinear_arith)
            requires
                0 <= root <= other - 1,
        ;
    } else if other < root {
        assert(other * other <= (root - 1) * (root - 1)) by (nonlinear_arith)
            requires
                0 <= other <= root - 1,
        ;
    }
}

/// The number of items in a vertical slice: there are about as many slices as there are nodes in
/// each of them, and a slice is made of full nodes.
pub open spec fn slice_len(params: SortParams) -> int {
    ceil_sqrt(ceil_div(params.num_items as int, params.node_size as int)) * params.node_size
}

/// A slice is made of full nodes, so no node spans two slices.
pub proof fn lemma_slice_holds_full_nodes(params: SortParams)
    requires
        params.num_items > 0,
        params.node_size > 0,
    ensures
        slice_len(params) > 0,
        slice_len(params) % params.node_size as int == 0,
{
    let nodes = ceil_div(params.num_items as int, params.node_size as int);
    let slices = ceil_sqrt(nodes);
    let size = params.node_size as int;
    assert(nodes > 0) by (nonlinear_arith)
        requires
            nodes == (params.num_items + size - 1) / size,
            params.num_items > 0,
            size > 0,
    ;
    lemma_ceil_sqrt(nodes);
    assert(slices > 0) by (nonlinear_arith)
        requires
            slices >= 0,
            0 < nodes <= slices * slices,
    ;
    assert(slices * size > 0) by (nonlinear_arith)
        requires
            slices > 0,
            size > 0,
    ;
    vstd::arithmetic::div_mod::lemma_mod_multiples_basic(slices, size);
}

/// A slice is no longer than a node, or than two times the number of items.
proof fn lemma_slice_is_short(num_items: int, node_size: int, slices: int)
    requires
        num_items > 0,
        node_size > 0,
        slices > 0,
        (slices - 1) * (slices - 1) < (num_items - 1) / node_size + 1,
    ensures
        slices * node_size <= node_size || slices * node_size <= 2 * num_items,
{
    let nodes = (num_items - 1) / node_size;
    vstd::arithmetic::div_mod::lemma_fundamental_div_mod(num_items - 1, node_size);
    if slices > 1 {
        assert(slices * node_size <= 2 * num_items) by (nonlinear_arith)
            requires
                (slices - 1) * (slices - 1) <= nodes,
                node_size * nodes <= num_items - 1,
                slices > 1,
                node_size > 0,
        {
            assert(slices - 1 <= (slices - 1) * (slices - 1));
            assert((slices - 1) * node_size <= nodes * node_size);
            assert(node_size <= (slices - 1) * node_size);
        }
    } else {
        assert(slices * node_size == node_size);
    }
}

/// The number of items in a vertical slice.
pub fn items_per_slice(params: &SortParams) -> (len: usize)
    requires
        0 < params.num_items <= u32::MAX,
        4 * params.num_items <= usize::MAX,
        params.node_size > 0,
    ensures
        len == slice_len(*params),
{
    let num_items = params.num_items;
    let node_size = params.node_size;
    let num_leaf_nodes: usize = (num_items - 1) / node_size + 1;
    proof {
        vstd::arithmetic::div_mod::lemma_hoist_over_denominator(num_items - 1, 1, node_size as nat);
        assert(num_leaf_nodes == ceil_div(num_items as int, node_size as int));
    }
    assert(num_leaf_nodes <= num_items) by (nonlinear_arith)
        requires
            num_leaf_nodes == (num_items - 1) / node_size as int + 1,
            num_items > 0,
            node_size > 0,
    ;
    let mut num_vertical_slices: u64 = 0;
    while num_vertical_slices * num_vertical_slices < num_leaf_nodes as u64
        invariant
            num_leaf_nodes <= u32::MAX,
            num_vertical_slices <= 0x1_0000,
            num_vertical_slices * num_vertical_slices <= 0x1_0000_0000,
            num_vertical_slices > 0 ==> (num_vertical_slices - 1) * (num_vertical_slices - 1)
                < num_leaf_nodes,
        decreases 0x1_0001 - num_vertical_slices,
    {
        assert(num_vertical_slices < 0x1_0000) by (nonlinear_arith)
            requires
                num_vertical_slices * num_vertical_slices < 0x1_0000_0000,
        ;
        num_vertical_slices += 1;
        assert(num_vertical_slices * num_vertical_slices <= 0x1_0000_0000) by (nonlinear_arith)
            requires
                num_vertical_slices <= 0x1_0000,
        ;
    }
    proof {
        lemma_ceil_sqrt_unique(num_leaf_nodes as int, num_vertical_slices as int);
        lemma_slice_is_short(num_items as int, node_size as int, num_vertical_slices as int);
    }
    num_vertical_slices as usize * node_size
}

/// The center of box `i` on an axis: 0 for x, 1 for y.
pub open spec fn center<N: IndexableNum>(boxes: Seq<N>, i: int, axis: int) -> N {
    boxes[4 * i + axis].spec_plus(boxes[4 * i + axis + 2]).spec_half()
}

/// Whether the centers of the first `num_items` boxes can be computed on an axis.
pub open spec fn has_centers<N: IndexableNum>(boxes: Seq<N>, num_items: int, axis: int) -> bool {
    forall|i: int|
        0 <= i < num_items ==> (#[trigger] boxes[4 * i + axis]).plus_ok(boxes[4 * i + axis + 2])
}

/// Computes the centers of the first `num_items` boxes on an axis, into a buffer that is emptied
/// first.
pub fn fill_centers<N: IndexableNum>(
    center_with_indices: &mut Vec<(N, u32)>,
    boxes: &[N],
    num_items: usize,
    axis: usize,
)
    requires
        axis <= 1,
        4 * num_items <= boxes@.len(),
        has_centers(boxes@, num_items as int, axis as int),
    ensures
        final(center_with_indices)@ == Seq::new(
            num_items as nat,
            |i: int| (center(boxes@, i, axis as int), 0u32),
        ),
{
    center_with_indices.clear();
    assert(boxes.len() <= usize::MAX);
    let mut i: usize = 0;
    while i < num_items
        invariant
            i <= num_items,
            axis <= 1,
            4 * num_items <= boxes@.len() <= usize::MAX,
            has_centers(boxes@, num_items as int, axis as int),
            center_with_indices@ =~= Seq::new(
                i as nat,
                |i: int| (center(boxes@, i, axis as int), 0u32),
            ),
        decreases num_items - i,
    {
        let min = boxes[i * 4 + axis];
        let max = boxes[i * 4 + axis + 2];
        assert(boxes@[4 * i + axis].plus_ok(boxes@[4 * i + axis + 2]));
        center_with_indices.push((min.plus(max).half(), 0));
        i += 1;
    }
}

/// The tiling that sort-tile-recursive sorting establishes. No item lies in an earlier vertical
/// slice than one with a smaller x center; and within a slice, no item lies in an earlier node than
/// one with a smaller y center.
pub open spec fn is_tiled<N: IndexableNum>(params: SortParams, boxes: Seq<N>) -> bool {
    let slice = slice_len(params);
    let node = params.node_size as int;
    &&& forall|i: int, j: int|
        0 <= i < j < params.num_items && i / slice < j / slice ==> (#[trigger] center(
            boxes,
            i,
            0,
        )).rank() <= (#[trigger] center(boxes, j, 0)).rank()
    &&& forall|i: int, j: int|
        0 <= i < j < params.num_items && i / slice == j / slice && i / node < j / node
            ==> (#[trigger] center(boxes, i, 1)).rank() <= (#[trigger] center(boxes, j, 1)).rank()
}

/// An implementation of sort-tile-recursive (STR) sorting.
///
/// The items are cut into vertical slices by the x values of their centers, and each slice is cut
/// into nodes by the y values.
#[derive(Debug, Clone, Copy)]
pub struct STRSort;

/// One permutation after another.
spec fn composed(first: Seq<int>, second: Seq<int>) -> Seq<int> {
    Seq::new(second.len(), |i: int| first[second[i]])
}

/// One permutation after another is a permutation, and moves the items as both do.
proof fn lemma_composed<N>(
    n: nat,
    first: Seq<int>,
    second: Seq<int>,
    boxes0: Seq<N>,
    boxes1: Seq<N>,
    boxes2: Seq<N>,
    indices0: Seq<int>,
    indices1: Seq<int>,
    indices2: Seq<int>,
)
    requires
        is_permutation(first, n),
        is_permutation(second, n),
        4 * n <= boxes0.len(),
        n <= indices0.len(),
        items_moved(first, boxes0, boxes1, indices0, indices1),
        items_moved(second, boxes1, boxes2, indices1, indices2),
    ensures
        is_permutation(composed(first, second), n),
        items_moved(composed(first, second), boxes0, boxes2, indices0, indices2),
{
    let both = composed(first, second);
    assert forall|i: int, j: int| 0 <= i < j < n implies both[i] != both[j] by {
        assert(second[i] != second[j]);
        assert(0 <= second[i] < n && 0 <= second[j] < n);
    }
    assert forall|i: int| 0 <= i < n implies 0 <= #[trigger] both[i] < n by {
        assert(0 <= second[i] < n);
    }
    assert forall|j: int| 0 <= j < boxes2.len() implies #[trigger] boxes2[j] == if j < 4
        * both.len() {
        boxes0[4 * both[j / 4] + j % 4]
    } else {
        boxes0[j]
    } by {
        if j < 4 * n {
            let k = 4 * second[j / 4] + j % 4;
            assert(0 <= second[j / 4] < n);
            assert(k / 4 == second[j / 4] && k % 4 == j % 4);
            assert(boxes2[j] == boxes1[k]);
        } else {
            assert(boxes2[j] == boxes1[j]);
        }
    }
    assert forall|i: int| 0 <= i < indices2.len() implies #[trigger] indices2[i] == if i
        < both.len() {
        indices0[both[i]]
    } else {
        indices0[i]
    } by {
        if i < n {
            assert(0 <= second[i] < n);
            assert(indices2[i] == indices1[second[i]]);
        } else {
            assert(indices2[i] == indices1[i]);
        }
    }
}

/// Centers move with the boxes.
proof fn lemma_centers_moved<N: IndexableNum>(
    n: nat,
    order: Seq<int>,
    boxes0: Seq<N>,
    boxes: Seq<N>,
    indices0: Seq<int>,
    indices: Seq<int>,
    axis: int,
)
    requires
        0 <= axis <= 1,
        is_permutation(order, n),
        4 * n <= boxes0.len(),
        items_moved(order, boxes0, boxes, indices0, indices),
    ensures
        forall|i: int|
            0 <= i < n ==> #[trigger] center(boxes, i, axis) == center(boxes0, order[i], axis),
        has_centers(boxes0, n as int, axis) ==> has_centers(boxes, n as int, axis),
{
    assert forall|i: int| 0 <= i < n implies #[trigger] boxes[4 * i + axis] == boxes0[4 * order[i]
        + axis] && boxes[4 * i + axis + 2] == boxes0[4 * order[i] + axis + 2] by {
        assert((4 * i + axis) / 4 == i && (4 * i + axis) % 4 == axis);
        assert((4 * i + axis + 2) / 4 == i && (4 * i + axis + 2) % 4 == axis + 2);
    }
    assert forall|i: int| 0 <= i < n implies #[trigger] center(boxes, i, axis) == center(
        boxes0,
        order[i],
        axis,
    ) by {
        assert(boxes[4 * i + axis] == boxes0[4 * order[i] + axis]);
    }
    if has_centers(boxes0, n as int, axis) {
        assert forall|i: int| 0 <= i < n implies (#[trigger] boxes[4 * i + axis]).plus_ok(
            boxes[4 * i + axis + 2],
        ) by {
            assert(0 <= order[i] < n);
            assert(boxes0[4 * order[i] + axis].plus_ok(boxes0[4 * order[i] + axis + 2]));
        }
    }
}

/// How far the sort within the slices has come: the items before `done` lie in slices that are
/// sorted by y, the others have not been moved, and no item has left its slice.
#[verifier::opaque]
spec fn slices_sorted<N: IndexableNum>(
    params: SortParams,
    done: int,
    order: Seq<int>,
    keys: Seq<N>,
    boxes0: Seq<N>,
    boxes: Seq<N>,
    indices0: Seq<int>,
    indices: Seq<int>,
) -> bool {
    let n = params.num_items as nat;
    let slice = slice_len(params);
    let node = params.node_size as int;
    &&& is_permutation(order, n)
    &&& items_moved(order, boxes0, boxes, indices0, indices)
    &&& forall|i: int| 0 <= i < n ==> (#[trigger] order[i]) / slice == i / slice
    &&& forall|i: int| 0 <= i < n && done <= i ==> #[trigger] order[i] == i
    &&& keys.len() == n
    &&& forall|i: int| 0 <= i < n ==> #[trigger] keys[i] == center(boxes, i, 1)
    &&& forall|i: int, j: int|
        0 <= i < j < n && j < done && i / slice == j / slice && i / node < j / node
            ==> #[trigger] keys[i].rank() <= #[trigger] keys[j].rank()
}

/// Before the first slice, nothing has been moved.
proof fn lemma_no_slice_sorted<N: IndexableNum>(
    params: SortParams,
    keys: Seq<N>,
    boxes: Seq<N>,
    indices: Seq<int>,
)
    requires
        keys.len() == params.num_items,
        4 * params.num_items <= boxes.len(),
        params.num_items <= indices.len(),
        forall|i: int| 0 <= i < params.num_items ==> #[trigger] keys[i] == center(boxes, i, 1),
    ensures
        slices_sorted(
            params,
            0,
            Seq::new(params.num_items as nat, |i: int| i),
            keys,
            boxes,
            boxes,
            indices,
            indices,
        ),
{
    reveal(slices_sorted);
}

/// Sorting the next slice.
proof fn lemma_slice_sorted<N: IndexableNum>(
    params: SortParams,
    start: usize,
    end: usize,
    order: Seq<int>,
    step: Seq<int>,
    keys0: Seq<N>,
    keys: Seq<N>,
    boxes0: Seq<N>,
    boxes1: Seq<N>,
    boxes: Seq<N>,
    indices0: Seq<int>,
    indices1: Seq<int>,
    indices: Seq<int>,
)
    requires
        params.num_items > 0,
        params.node_size > 0,
        4 * params.num_items <= boxes0.len(),
        params.num_items <= indices0.len(),
        start as int % slice_len(params) == 0,
        start < params.num_items,
        end == if start + slice_len(params) < params.num_items {
            start + slice_len(params)
        } else {
            params.num_items as int
        },
        slices_sorted(params, start as int, order, keys0, boxes0, boxes1, indices0, indices1),
        range_sorted(
            step,
            keys0,
            keys,
            boxes1,
            boxes,
            indices1,
            indices,
            start,
            end,
            params.node_size,
        ),
    ensures
        slices_sorted(
            params,
            end as int,
            composed(order, step),
            keys,
            boxes0,
            boxes,
            indices0,
            indices,
        ),
{
    reveal(slices_sorted);
    reveal(range_sorted);
    let n = params.num_items as nat;
    let slice = slice_len(params);
    let node = params.node_size as int;
    let both = composed(order, step);
    lemma_slice_holds_full_nodes(params);
    lemma_composed(n, order, step, boxes0, boxes1, boxes, indices0, indices1, indices);
    lemma_centers_moved(n, step, boxes1, boxes, indices1, indices, 1);
    let q = start as int / slice;
    vstd::arithmetic::div_mod::lemma_fundamental_div_mod(start as int, slice);
    vstd::arithmetic::mul::lemma_mul_is_commutative(slice, q);
    assert(start == q * slice);
    assert forall|i: int| start <= i < end implies #[trigger] (i / slice) == q by {
        assert(i / slice == q) by (nonlinear_arith)
            requires
                slice > 0,
                q * slice <= i < q * slice + slice,
        ;
    }
    assert forall|i: int| 0 <= i < n implies (#[trigger] both[i]) / slice == i / slice by {
        if start <= i < end {
            assert(start <= step[i] < end);
            assert(order[step[i]] == step[i]);
            assert(step[i] / slice == q && i / slice == q);
        } else {
            assert(step[i] == i);
        }
    }
    assert forall|i: int| 0 <= i < n && end <= i implies #[trigger] both[i] == i by {
        assert(step[i] == i);
    }
    assert forall|i: int| 0 <= i < n implies #[trigger] keys[i] == center(boxes, i, 1) by {
        assert(keys[i] == keys0[step[i]]);
    }
    assert forall|i: int, j: int|
        0 <= i < j < n && j < end && i / slice == j / slice && i / node < j / node implies
        #[trigger] keys[i].rank() <= #[trigger] keys[j].rank() by {
        if j < start {
            assert(step[i] == i && step[j] == j);
            assert(keys[i] == keys0[i] && keys[j] == keys0[j]);
        } else {
            assert(j / slice == q);
            assert(i >= start) by (nonlinear_arith)
                requires
                    i / slice == q,
                    slice > 0,
                    start == q * slice,
            ;
            let run = keys.subrange(start as int, end as int);
            let m = slice / node * q;
            vstd::arithmetic::div_mod::lemma_fundamental_div_mod(slice, node);
            assert(start == m * node) by (nonlinear_arith)
                requires
                    start == q * slice,
                    slice == node * (slice / node),
                    m == slice / node * q,
            ;
            vstd::arithmetic::div_mod::lemma_hoist_over_denominator(i - start, m, node as nat);
            vstd::arithmetic::div_mod::lemma_hoist_over_denominator(j - start, m, node as nat);
            assert((by_rank::<N>())(run[i - start], run[j - start]));
        }
    }
}

/// What the sort by x, and then the sort within the slices, establish.
proof fn lemma_tiled<N: IndexableNum>(
    params: SortParams,
    first: Seq<int>,
    second: Seq<int>,
    x_keys0: Seq<N>,
    x_keys: Seq<N>,
    y_keys: Seq<N>,
    boxes0: Seq<N>,
    boxes1: Seq<N>,
    boxes: Seq<N>,
    indices0: Seq<int>,
    indices1: Seq<int>,
    indices: Seq<int>,
    slice: usize,
)
    requires
        params.num_items > 0,
        params.node_size > 0,
        4 * params.num_items <= boxes0.len(),
        params.num_items <= indices0.len(),
        slice == slice_len(params),
        x_keys0 == Seq::new(params.num_items as nat, |i: int| center(boxes0, i, 0)),
        range_sorted(
            first,
            x_keys0,
            x_keys,
            boxes0,
            boxes1,
            indices0,
            indices1,
            0,
            params.num_items,
            slice,
        ),
        slices_sorted(
            params,
            params.num_items as int,
            second,
            y_keys,
            boxes1,
            boxes,
            indices1,
            indices,
        ),
    ensures
        items_reordered(params.num_items as nat, boxes0, boxes, indices0, indices),
        is_tiled(params, boxes),
{
    reveal(slices_sorted);
    reveal(range_sorted);
    let n = params.num_items as nat;
    let node = params.node_size as int;
    lemma_composed(n, first, second, boxes0, boxes1, boxes, indices0, indices1, indices);
    assert(is_permutation(composed(first, second), n));
    lemma_centers_moved(n, first, boxes0, boxes1, indices0, indices1, 0);
    lemma_centers_moved(n, second, boxes1, boxes, indices1, indices, 0);
    assert(x_keys.subrange(0, n as int) =~= x_keys);
    assert forall|i: int, j: int|
        0 <= i < j < n && i / (slice as int) < j / (slice as int) implies (#[trigger] center(
        boxes,
        i,
        0,
    )).rank() <= (#[trigger] center(boxes, j, 0)).rank() by {
        let a = second[i];
        let b = second[j];
        assert(a / (slice as int) == i / (slice as int) && b / (slice as int) == j / (
        slice as int));
        assert(a < b) by {
            if b <= a {
                lemma_slice_holds_full_nodes(params);
                vstd::arithmetic::div_mod::lemma_div_is_ordered(b, a, slice as int);
            }
        }
        assert(x_keys[a] == center(boxes1, a, 0));
        assert(x_keys[b] == center(boxes1, b, 0));
        assert((by_rank::<N>())(x_keys[a], x_keys[b]));
    }
    assert forall|i: int, j: int|
        0 <= i < j < n && i / (slice as int) == j / (slice as int) && i / node < j
            / node implies (#[trigger] center(boxes, i, 1)).rank() <= (#[trigger] center(
        boxes,
        j,
        1,
    )).rank() by {
        assert(y_keys[i].rank() <= y_keys[j].rank());
    }
}

impl<N: IndexableNum> Sort<N> for STRSort {
    open spec fn sortable(params: SortParams, boxes: Seq<N>) -> bool {
        &&& 0 < params.num_items <= u32::MAX
        &&& params.node_size > 0
        &&& has_centers(boxes, params.num_items as int, 0)
        &&& has_centers(boxes, params.num_items as int, 1)
    }

    open spec fn sorted(params: SortParams, boxes: Seq<N>) -> bool {
        is_tiled(params, boxes)
    }

    fn sort<'a>(params: &mut SortParams, boxes: &mut [N], indices: &mut MutableIndices<'a>) {
        let ghost boxes0 = boxes@;
        let ghost indices0 = indices@;
        assert(boxes.len() <= usize::MAX);
        // The number of items per slice is a multiple of the node size, so that no node spans two
        // slices when the items are grouped into nodes.
        let num_items = params.num_items;
        let num_items_per_slice = items_per_slice(params);
        // The same buffer holds first the x and then the y values of the centers.
        let mut center_with_indices: Vec<(N, u32)> = Vec::with_capacity(num_items);
        fill_centers(&mut center_with_indices, boxes, num_items, 0);
        let ghost x_keys0 = keys_of(center_with_indices@);
        proof {
            lemma_slice_holds_full_nodes(*params);
            assert(x_keys0 =~= Seq::new(num_items as nat, |i: int| center(boxes0, i, 0)));
        }
        sort(&mut center_with_indices, boxes, indices, 0..num_items, num_items_per_slice);
        let ghost boxes1 = boxes@;
        let ghost indices1 = indices@;
        let ghost x_keys = keys_of(center_with_indices@);
        let ghost first = choose|order: Seq<int>| #[trigger]
            range_sorted(
                order,
                x_keys0,
                x_keys,
                boxes0,
                boxes1,
                indices0,
                indices1,
                0,
                num_items,
                num_items_per_slice,
            );
        proof {
            reveal(range_sorted);
            lemma_centers_moved(
                num_items as nat,
                first,
                boxes0,
                boxes1,
                indices0,
                indices1,
                1,
            );
        }
        fill_centers(&mut center_with_indices, boxes, num_items, 1);
        let ghost mut second: Seq<int> = Seq::new(num_items as nat, |i: int| i);
        proof {
            lemma_no_slice_sorted(*params, keys_of(center_with_indices@), boxes1, indices1);
        }
        let mut partition_start: usize = 0;
        while partition_start < num_items
            invariant
                0 < num_items <= u32::MAX,
                4 * num_items <= boxes0.len() <= usize::MAX,
                num_items <= indices0.len(),
                params.num_items == num_items,
                params.node_size > 0,
                boxes1.len() == boxes0.len(),
                indices1.len() == indices0.len(),
                boxes@.len() == boxes0.len(),
                indices@.len() == indices0.len(),
                num_items_per_slice == slice_len(*params),
                num_items_per_slice > 0,
                partition_start <= num_items,
                partition_start < num_items ==> partition_start as int % slice_len(*params) == 0,
                center_with_indices@.len() == num_items,
                slices_sorted(
                    *params,
                    partition_start as int,
                    second,
                    keys_of(center_with_indices@),
                    boxes1,
                    boxes@,
                    indices1,
                    indices@,
                ),
                match (*old(indices), *indices) {
                    (MutableIndices::U16(before), MutableIndices::U16(after)) => {
                        final(after)@ == final(before)@
                    },
                    (MutableIndices::U32(before), MutableIndices::U32(after)) => {
                        final(after)@ == final(before)@
                    },
                    _ => false,
                },
            decreases num_items - partition_start,
        {
            let ghost keys_before = keys_of(center_with_indices@);
            let ghost boxes_before = boxes@;
            let ghost indices_before = indices@;
            let partition_end = if num_items - partition_start > num_items_per_slice {
                partition_start + num_items_per_slice
            } else {
                num_items
            };
            // Within each x partition, sort by y values.
            sort(
                &mut center_with_indices,
                boxes,
                indices,
                partition_start..partition_end,
                params.node_size,
            );
            proof {
                let step = choose|order: Seq<int>| #[trigger]
                    range_sorted(
                        order,
                        keys_before,
                        keys_of(center_with_indices@),
                        boxes_before,
                        boxes@,
                        indices_before,
                        indices@,
                        partition_start,
                        partition_end,
                        params.node_size,
                    );
                lemma_slice_sorted(
                    *params,
                    partition_start,
                    partition_end,
                    second,
                    step,
                    keys_before,
                    keys_of(center_with_indices@),
                    boxes1,
                    boxes_before,
                    boxes@,
                    indices1,
                    indices_before,
                    indices@,
                );
                second = composed(second, step);
                reveal(slices_sorted);
                if partition_end < num_items {
                    vstd::arithmetic::div_mod::lemma_mod_add_multiples_vanish(
                        partition_start as int,
                        slice_len(*params),
                    );
                }
            }
            partition_start = partition_end;
        }
        proof {
            lemma_tiled(
                *params,
                first,
                second,
                x_keys0,
                x_keys,
                keys_of(center_with_indices@),
                boxes0,
                boxes1,
                boxes@,
                indices0,
                indices1,
                indices@,
                num_items_per_slice,
            );
        }
    }
}

} // verus!
