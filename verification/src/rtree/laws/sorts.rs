//! How items are put into order.

use crate::num::{counts_exactly, fits, IndexableNum};
use crate::rtree::layout::ceil_div;
use crate::rtree::sort::permutation::{identity, order_of, permuted, permuted_boxes};
use crate::rtree::sort::str_sort::{
    ceil_sqrt, center, has_centers, indices_of, is_tiled, items_per_slice, keys_of, lemma_ceil_sqrt,
    numbered_range, range_sorted, slice_len, STRSort,
};
use crate::rtree::sort::util::{block_ordered, is_ordering, orders};
use crate::rtree::sort::{is_permutation, items_reordered, Sort, SortParams};
use std::cmp::Ordering;
use vstd::prelude::*;

verus! {

/// Wherever a sequence that is ordered by blocks of `k` is cut behind a number of full blocks,
/// nothing before the cut is greater than anything behind it.
pub proof fn lemma_blocks_are_in_order<T>(
    s: Seq<T>,
    k: usize,
    leq: spec_fn(T, T) -> bool,
    blocks: int,
    i: int,
    j: int,
)
    requires
        k > 0,
        block_ordered(s, k, leq),
        0 <= i < blocks * k <= j < s.len(),
    ensures
        leq(s[i], s[j]),
{
    lemma_cut_between(k as int, blocks, i, j);
}

/// Positions on two sides of a cut behind full blocks belong to different blocks.
proof fn lemma_cut_between(k: int, blocks: int, i: int, j: int)
    requires
        k > 0,
        0 <= i < blocks * k <= j,
    ensures
        i / k < blocks <= j / k,
{
    vstd::arithmetic::div_mod::lemma_fundamental_div_mod(i, k);
    vstd::arithmetic::div_mod::lemma_fundamental_div_mod(j, k);
    let a = i / k;
    let b = j / k;
    assert(a < blocks <= b) by (nonlinear_arith)
        requires
            k > 0,
            i == k * a + i % k,
            j == k * b + j % k,
            0 <= i % k < k,
            0 <= j % k < k,
            i < blocks * k <= j,
    ;
}

/// A comparison function that can be called on all elements, and answers by an order on them, can be
/// sorted by, and stands for that order.
pub proof fn lemma_orders_can_be_sorted_by<T, F: FnMut(&T, &T) -> Ordering>(
    compare: F,
    leq: spec_fn(T, T) -> bool,
    s: Seq<T>,
)
    requires
        forall|x: T, y: T| #[trigger] leq(x, y) || leq(y, x),
        forall|x: T, y: T, z: T| #[trigger] leq(x, y) && #[trigger] leq(y, z) ==> leq(x, z),
        forall|x: T, y: T| #[trigger] call_requires(compare, (&x, &y)),
        forall|x: T, y: T, answer: Ordering| #[trigger]
            call_ensures(compare, (&x, &y), answer) ==> {
                &&& answer is Less ==> leq(x, y) && !leq(y, x)
                &&& answer is Equal ==> leq(x, y) && leq(y, x)
                &&& answer is Greater ==> leq(y, x) && !leq(x, y)
            },
    ensures
        orders(compare, leq, s),
        is_ordering(compare, s),
{
    assert(orders(compare, leq, s));
}

/// A permutation brings to each position what stood where it says, and leaves what is behind it. A
/// box keeps its four sides together.
pub proof fn lemma_permutations_bring<A, N>(perm: Seq<u32>, s: Seq<A>, boxes: Seq<N>)
    requires
        perm.len() <= s.len(),
        4 * perm.len() <= boxes.len(),
        forall|i: int| 0 <= i < perm.len() ==> (#[trigger] perm[i]) < perm.len(),
        forall|i: int, j: int|
            0 <= i < j < perm.len() ==> #[trigger] perm[i] != #[trigger] perm[j],
    ensures
        is_permutation(order_of(perm), perm.len()),
        permuted(s, perm).len() == s.len(),
        forall|i: int|
            0 <= i < perm.len() ==> #[trigger] permuted(s, perm)[i] == s[perm[i] as int],
        forall|i: int| perm.len() <= i < s.len() ==> #[trigger] permuted(s, perm)[i] == s[i],
        permuted_boxes(boxes, perm).len() == boxes.len(),
        forall|i: int, side: int|
            0 <= i < perm.len() && 0 <= side < 4 ==> #[trigger] permuted_boxes(boxes, perm)[4 * i
                + side] == boxes[4 * perm[i] + side],
        forall|j: int|
            4 * perm.len() <= j < boxes.len() ==> #[trigger] permuted_boxes(boxes, perm)[j]
                == boxes[j],
        identity(perm.len()).len() == perm.len(),
        forall|i: int|
            0 <= i < perm.len() && i <= u32::MAX ==> #[trigger] identity(perm.len())[i] == i,
{
    assert forall|i: int, side: int|
        0 <= i < perm.len() && 0 <= side < 4 implies #[trigger] permuted_boxes(boxes, perm)[4 * i
        + side] == boxes[4 * perm[i] + side] by {
        assert((4 * i + side) / 4 == i && (4 * i + side) % 4 == side);
    }
    let order = order_of(perm);
    assert forall|i: int, j: int| 0 <= i < j < order.len() implies order[i] != order[j] by {
        assert(perm[i] != perm[j]);
    }
}

/// What one permutation moves, its inverse moves back.
pub proof fn lemma_inverse_permutations_bring_back<A>(perm: Seq<u32>, inverse: Seq<u32>, s: Seq<A>)
    requires
        perm.len() <= s.len(),
        inverse.len() == perm.len(),
        forall|i: int| 0 <= i < perm.len() ==> (#[trigger] inverse[i]) < perm.len(),
        forall|i: int| 0 <= i < perm.len() ==> perm[(#[trigger] inverse[i]) as int] == i,
    ensures
        permuted(permuted(s, perm), inverse) == s,
{
    let back = permuted(permuted(s, perm), inverse);
    assert forall|i: int| 0 <= i < s.len() implies #[trigger] back[i] == s[i] by {
        if i < perm.len() {
            assert(perm[inverse[i] as int] == i);
        }
    }
    assert(back =~= s);
}

/// Half of a number, rounded toward zero.
pub open spec fn half_of(value: int) -> int {
    if value >= 0 {
        value / 2
    } else {
        -((-value) / 2)
    }
}

/// Where box `i` has its middle on an axis: 0 for x, 1 for y.
pub open spec fn middle_of<N: IndexableNum>(boxes: Seq<N>, i: int, axis: int) -> int {
    half_of(boxes[4 * i + axis].rank() + boxes[4 * i + axis + 2].rank())
}

/// Whether the sides of the first boxes can be added on both axes.
pub open spec fn sides_can_be_added<N: IndexableNum>(boxes: Seq<N>, num_items: int) -> bool {
    forall|i: int, axis: int|
        0 <= i < num_items && 0 <= axis <= 1 ==> fits::<N>(
            (#[trigger] boxes[4 * i + axis]).rank() + boxes[4 * i + axis + 2].rank(),
        )
}

/// The center of a box lies in the middle of its sides.
pub proof fn lemma_centers_lie_in_the_middle<N: IndexableNum>(
    boxes: Seq<N>,
    num_items: int,
    axis: int,
)
    requires
        counts_exactly::<N>(),
        0 <= axis <= 1,
        sides_can_be_added(boxes, num_items),
    ensures
        has_centers(boxes, num_items, axis),
        forall|i: int|
            0 <= i < num_items ==> (#[trigger] center(boxes, i, axis)).rank() == middle_of(
                boxes,
                i,
                axis,
            ),
{
    assert forall|i: int| 0 <= i < num_items implies (#[trigger] boxes[4 * i + axis]).plus_ok(
        boxes[4 * i + axis + 2],
    ) && center(boxes, i, axis).rank() == middle_of(boxes, i, axis) by {
        let a = boxes[4 * i + axis];
        let b = boxes[4 * i + axis + 2];
        assert(fits::<N>(a.rank() + b.rank()));
        assert(a.plus_ok(b) == fits::<N>(a.rank() + b.rank()));
        let sum = a.spec_plus(b);
        assert(sum.rank() == a.rank() + b.rank());
        let half = sum.spec_half();
    }
    assert forall|i: int| 0 <= i < num_items implies (#[trigger] center(boxes, i, axis)).rank()
        == middle_of(boxes, i, axis) by {
        let a = boxes[4 * i + axis];
    }
}

/// On any numbers, the center of a box is half of the sum of its two sides on the axis.
pub proof fn lemma_centers_halve_sums<N: IndexableNum>(boxes: Seq<N>, i: int)
    ensures
        center(boxes, i, 0) == boxes[4 * i].spec_plus(boxes[4 * i + 2]).spec_half(),
        center(boxes, i, 1) == boxes[4 * i + 1].spec_plus(boxes[4 * i + 3]).spec_half(),
{
}

/// Whether `slices` slices of `slices` nodes each are as few as hold all items: `nodes` nodes are as
/// few as hold the items, and with one slice less, of one node less, there would be too few.
pub open spec fn are_fewest_slices(
    num_items: int,
    node_size: int,
    nodes: int,
    slices: int,
) -> bool {
    &&& (nodes - 1) * node_size < num_items <= nodes * node_size
    &&& slices > 0
    &&& (slices - 1) * (slices - 1) < nodes <= slices * slices
}

/// A slice has as many full nodes as there are slices, as few as hold all items.
proof fn lemma_slices<N>(params: SortParams) -> (found: (int, int))
    requires
        params.num_items > 0,
        params.node_size > 0,
    ensures
        are_fewest_slices(params.num_items as int, params.node_size as int, found.0, found.1),
        slice_len(params) == found.1 * params.node_size,
{
    let n = params.num_items as int;
    let size = params.node_size as int;
    let nodes = ceil_div(n, size);
    vstd::arithmetic::div_mod::lemma_fundamental_div_mod(n + size - 1, size);
    assert((nodes - 1) * size < n <= nodes * size && nodes > 0) by (nonlinear_arith)
        requires
            n > 0,
            size > 0,
            n + size - 1 == size * nodes + (n + size - 1) % size,
            0 <= (n + size - 1) % size < size,
    ;
    lemma_ceil_sqrt(nodes);
    let slices = ceil_sqrt(nodes);
    assert(slices > 0) by (nonlinear_arith)
        requires
            slices >= 0,
            0 < nodes <= slices * slices,
    ;
    (nodes, slices)
}

/// The number of items in a slice is that of as many full nodes as there are slices, as few as hold
/// all items.
pub proof fn lemma_slices_hold_all_items(params: SortParams, len: usize) -> (found: (int, int))
    requires
        0 < params.num_items <= u32::MAX,
        4 * params.num_items <= usize::MAX,
        params.node_size > 0,
        call_ensures(items_per_slice, (&params,), len),
    ensures
        call_requires(items_per_slice, (&params,)),
        are_fewest_slices(params.num_items as int, params.node_size as int, found.0, found.1),
        len == found.1 * params.node_size,
{
    lemma_slices::<u32>(params)
}

/// Sorting into tiles can be done wherever there are items, nodes hold some, and the sides of the
/// boxes can be added.
pub proof fn lemma_tiles_can_be_made<N: IndexableNum>(params: SortParams, boxes: Seq<N>)
    requires
        counts_exactly::<N>(),
        0 < params.num_items <= u32::MAX,
        params.node_size > 0,
        sides_can_be_added(boxes, params.num_items as int),
    ensures
        <STRSort as Sort<N>>::sortable(params, boxes),
{
    lemma_centers_lie_in_the_middle(boxes, params.num_items as int, 0);
    lemma_centers_lie_in_the_middle(boxes, params.num_items as int, 1);
}

/// Sorting into tiles cuts the items into as few slices as hold them with as many nodes in a slice.
/// Wherever two slices are cut apart, no box before the cut has its middle to the right of one behind
/// it; and wherever two nodes of a slice are cut apart, no box of the slice before the cut has its
/// middle above one behind it.
pub proof fn lemma_tiles_are_in_order<N: IndexableNum>(params: SortParams, boxes: Seq<N>) -> (found: (
    int,
    int,
))
    requires
        counts_exactly::<N>(),
        params.num_items > 0,
        params.node_size > 0,
        sides_can_be_added(boxes, params.num_items as int),
        <STRSort as Sort<N>>::sorted(params, boxes),
    ensures
        are_fewest_slices(params.num_items as int, params.node_size as int, found.0, found.1),
        forall|cut: int, i: int, j: int|
            0 <= i < #[trigger] (cut * (found.1 * params.node_size)) <= j < params.num_items
                ==> #[trigger] middle_of(boxes, i, 0) <= #[trigger] middle_of(boxes, j, 0),
        forall|slice: int, cut: int, i: int, j: int|
            0 <= #[trigger] (slice * (found.1 * params.node_size)) <= i < #[trigger] (cut
                * params.node_size) <= j < params.num_items && j < slice * (found.1
                * params.node_size) + found.1 * params.node_size ==> #[trigger] middle_of(
                boxes,
                i,
                1,
            ) <= #[trigger] middle_of(boxes, j, 1),
{
    let found = lemma_slices::<N>(params);
    let node = params.node_size as int;
    let width = found.1 * node;
    assert(width > 0) by (nonlinear_arith)
        requires
            width == found.1 * node,
            found.1 > 0,
            node > 0,
    ;
    lemma_centers_lie_in_the_middle(boxes, params.num_items as int, 0);
    lemma_centers_lie_in_the_middle(boxes, params.num_items as int, 1);
    assert(is_tiled(params, boxes));
    assert forall|cut: int, i: int, j: int|
        0 <= i < #[trigger] (cut * (found.1 * params.node_size)) <= j
            < params.num_items implies #[trigger] middle_of(boxes, i, 0) <= #[trigger] middle_of(
        boxes,
        j,
        0,
    ) by {
        lemma_cut_between(width, cut, i, j);
        assert(center(boxes, i, 0).rank() <= center(boxes, j, 0).rank());
    }
    assert forall|slice: int, cut: int, i: int, j: int|
        0 <= #[trigger] (slice * (found.1 * params.node_size)) <= i < #[trigger] (cut
            * params.node_size) <= j < params.num_items && j < slice * (found.1 * params.node_size)
            + found.1 * params.node_size implies #[trigger] middle_of(boxes, i, 1)
        <= #[trigger] middle_of(boxes, j, 1) by {
        lemma_cut_between(node, cut, i, j);
        assert(i / width == slice && j / width == slice) by (nonlinear_arith)
            requires
                width > 0,
                slice * width <= i <= j < slice * width + width,
        ;
        assert(center(boxes, i, 1).rank() <= center(boxes, j, 1).rank());
    }
    found
}

/// Where items are put into another order, each of them is one of those from before, with all four
/// sides of its box and its index, no two are the same one, and what stands behind the items stays.
pub proof fn lemma_items_stay_together<N>(
    num_items: nat,
    boxes0: Seq<N>,
    boxes: Seq<N>,
    indices0: Seq<int>,
    indices: Seq<int>,
) -> (from: Seq<int>)
    requires
        4 * num_items <= boxes0.len(),
        num_items <= indices0.len(),
        items_reordered(num_items, boxes0, boxes, indices0, indices),
    ensures
        boxes.len() == boxes0.len(),
        indices.len() == indices0.len(),
        from.len() == num_items,
        forall|i: int| 0 <= i < num_items ==> 0 <= #[trigger] from[i] < num_items,
        forall|i: int, j: int| 0 <= i < j < num_items ==> #[trigger] from[i] != #[trigger] from[j],
        forall|i: int, side: int|
            0 <= i < num_items && 0 <= side < 4 ==> #[trigger] boxes[4 * i + side] == boxes0[4
                * from[i] + side],
        forall|i: int| 0 <= i < num_items ==> #[trigger] indices[i] == indices0[from[i]],
        forall|j: int| 4 * num_items <= j < boxes.len() ==> #[trigger] boxes[j] == boxes0[j],
        forall|i: int| num_items <= i < indices.len() ==> #[trigger] indices[i] == indices0[i],
{
    let from = choose|order: Seq<int>| #[trigger]
        is_permutation(order, num_items) && crate::rtree::sort::items_moved(
            order,
            boxes0,
            boxes,
            indices0,
            indices,
        );
    assert forall|i: int, side: int|
        0 <= i < num_items && 0 <= side < 4 implies #[trigger] boxes[4 * i + side] == boxes0[4
        * from[i] + side] by {
        assert((4 * i + side) / 4 == i && (4 * i + side) % 4 == side);
    }
    from
}

/// Sorting a range moves keys, boxes and indices of its items together, within the range, so that no
/// key before a cut behind full nodes is greater than one behind it. What is outside stays.
pub proof fn lemma_ranges_are_sorted<N: IndexableNum>(
    order: Seq<int>,
    keys0: Seq<N>,
    keys: Seq<N>,
    boxes0: Seq<N>,
    boxes: Seq<N>,
    indices0: Seq<int>,
    indices: Seq<int>,
    start: usize,
    end: usize,
    node_size: usize,
)
    requires
        node_size > 0,
        start <= end <= keys0.len(),
        4 * end <= boxes0.len(),
        end <= indices0.len(),
        4 * keys0.len() <= boxes0.len(),
        keys0.len() <= indices0.len(),
        range_sorted(
            order,
            keys0,
            keys,
            boxes0,
            boxes,
            indices0,
            indices,
            start,
            end,
            node_size,
        ),
    ensures
        keys.len() == keys0.len(),
        boxes.len() == boxes0.len(),
        indices.len() == indices0.len(),
        forall|i: int| start <= i < end ==> start <= #[trigger] order[i] < end,
        forall|i: int, j: int| start <= i < j < end ==> #[trigger] order[i] != #[trigger] order[j],
        forall|i: int| start <= i < end ==> #[trigger] keys[i] == keys0[order[i]],
        forall|i: int| start <= i < end ==> #[trigger] indices[i] == indices0[order[i]],
        forall|i: int, side: int|
            start <= i < end && 0 <= side < 4 ==> #[trigger] boxes[4 * i + side] == boxes0[4
                * order[i] + side],
        forall|i: int|
            0 <= i < keys0.len() && !(start <= i < end) ==> #[trigger] keys[i] == keys0[i],
        forall|i: int|
            0 <= i < indices0.len() && !(start <= i < end) ==> #[trigger] indices[i] == indices0[i],
        forall|j: int|
            0 <= j < boxes0.len() && !(4 * start <= j < 4 * end) ==> #[trigger] boxes[j]
                == boxes0[j],
        forall|cut: int, i: int, j: int|
            start <= i < start + #[trigger] (cut * node_size) <= j < end ==> (
            #[trigger] keys[i]).rank() <= (#[trigger] keys[j]).rank(),
{
    reveal(range_sorted);
    assert forall|i: int, side: int|
        start <= i < end && 0 <= side < 4 implies #[trigger] boxes[4 * i + side] == boxes0[4
        * order[i] + side] by {
        assert((4 * i + side) / 4 == i && (4 * i + side) % 4 == side);
    }
    assert forall|j: int|
        0 <= j < boxes0.len() && !(4 * start <= j < 4 * end) implies #[trigger] boxes[j]
        == boxes0[j] by {
        if j < 4 * keys0.len() {
            let i = j / 4;
            assert(order[i] == i);
        }
    }
    assert forall|i: int|
        0 <= i < indices0.len() && !(start <= i < end) implies #[trigger] indices[i]
        == indices0[i] by {
        if i < keys0.len() {
            assert(order[i] == i);
        }
    }
    assert forall|i: int| 0 <= i < keys0.len() && !(start <= i < end) implies #[trigger] keys[i]
        == keys0[i] by {
        assert(order[i] == i);
    }
    assert forall|cut: int, i: int, j: int|
        start <= i < start + #[trigger] (cut * node_size) <= j < end implies (
    #[trigger] keys[i]).rank() <= (#[trigger] keys[j]).rank() by {
        let run = keys.subrange(start as int, end as int);
        lemma_cut_between(node_size as int, cut, i - start, j - start);
        assert(run[i - start] == keys[i] && run[j - start] == keys[j]);
    }
}

/// A buffer of keys and numbers has the keys and the numbers that are in it, and a range that is
/// numbered counts up from zero.
pub proof fn lemma_pairs_are_read<N>(pairs: Seq<(N, u32)>, start: usize, end: usize)
    requires
        start <= end <= pairs.len(),
    ensures
        keys_of(pairs).len() == pairs.len(),
        indices_of(pairs).len() == pairs.len(),
        forall|i: int| 0 <= i < pairs.len() ==> #[trigger] keys_of(pairs)[i] == pairs[i].0,
        forall|i: int| 0 <= i < pairs.len() ==> #[trigger] indices_of(pairs)[i] == pairs[i].1,
        numbered_range(indices_of(pairs), start, end).len() == pairs.len(),
        forall|i: int|
            start <= i < end && i - start <= u32::MAX ==> start + #[trigger] numbered_range(
                indices_of(pairs),
                start,
                end,
            )[i] == i,
        forall|i: int|
            0 <= i < pairs.len() && !(start <= i < end) ==> #[trigger] numbered_range(
                indices_of(pairs),
                start,
                end,
            )[i] == pairs[i].1,
{
}

} // verus!
