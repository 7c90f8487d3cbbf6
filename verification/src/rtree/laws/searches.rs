//! Which items are found by their boxes.

use crate::num::IndexableNum;
use crate::rtree::index::RTreeIndex;
use crate::rtree::intersection::intersection_candidates_with_other_tree;
use crate::rtree::laws::storage::{
    is_below, is_stored_by_levels, lemma_below_ancestors, lemma_items_are_below,
    lemma_nodes_enclose_children, lemma_packed_trees_are_stored_by_levels, nodes_hold_children,
};
use crate::rtree::layout::TreeView;
use crate::rtree::search::{positions, Rect};
use vstd::prelude::*;

verus! {

/// Whether no box of an item ends before it starts.
pub open spec fn items_have_points<N: IndexableNum>(tree: TreeView<N>) -> bool {
    forall|p: int|
        0 <= p < tree.num_items ==> (#[trigger] tree.boxes[4 * p]).rank() <= tree.boxes[4 * p
            + 2].rank() && tree.boxes[4 * p + 1].rank() <= tree.boxes[4 * p + 3].rank()
}

/// Whether the point `(x, y)` lies in the box of node `p`.
pub open spec fn has_point<N: IndexableNum>(tree: TreeView<N>, p: int, x: N, y: N) -> bool {
    &&& tree.boxes[4 * p].rank() <= x.rank() <= tree.boxes[4 * p + 2].rank()
    &&& tree.boxes[4 * p + 1].rank() <= y.rank() <= tree.boxes[4 * p + 3].rank()
}

/// Whether some point lies in the box of node `p` and in the query box.
pub open spec fn shares_point<N: IndexableNum>(tree: TreeView<N>, p: int, query: Rect<N>) -> bool {
    exists|x: N, y: N|
        {
            &&& #[trigger] has_point(tree, p, x, y)
            &&& query.min_x.rank() <= x.rank() <= query.max_x.rank()
            &&& query.min_y.rank() <= y.rank() <= query.max_y.rank()
        }
}

/// Whether the box of node `p` and the query box overlap on both axes: neither ends before the other
/// starts.
pub open spec fn overlaps<N: IndexableNum>(tree: TreeView<N>, p: int, query: Rect<N>) -> bool {
    &&& !(query.max_x.rank() < tree.boxes[4 * p].rank())
    &&& !(query.max_y.rank() < tree.boxes[4 * p + 1].rank())
    &&& !(tree.boxes[4 * p + 2].rank() < query.min_x.rank())
    &&& !(tree.boxes[4 * p + 3].rank() < query.min_y.rank())
}

/// Boxes that have points overlap where, and only where, they share one.
pub proof fn lemma_overlapping_boxes_share_points<N: IndexableNum>(
    tree: TreeView<N>,
    p: int,
    query: Rect<N>,
)
    requires
        tree.boxes[4 * p].rank() <= tree.boxes[4 * p + 2].rank(),
        tree.boxes[4 * p + 1].rank() <= tree.boxes[4 * p + 3].rank(),
        query.min_x.rank() <= query.max_x.rank(),
        query.min_y.rank() <= query.max_y.rank(),
    ensures
        overlaps(tree, p, query) <==> shares_point(tree, p, query),
{
    if overlaps(tree, p, query) {
        let x = if tree.boxes[4 * p].rank() < query.min_x.rank() {
            query.min_x
        } else {
            tree.boxes[4 * p]
        };
        let y = if tree.boxes[4 * p + 1].rank() < query.min_y.rank() {
            query.min_y
        } else {
            tree.boxes[4 * p + 1]
        };
        assert(has_point(tree, p, x, y));
    }
}

/// The positions with a value, of those from `a` to `b` at which `pred` holds.
spec fn positions_of<A>(
    pred: spec_fn(int) -> bool,
    value: spec_fn(int) -> A,
    a: int,
    b: int,
    given: A,
) -> Set<int> {
    Set::new(|p: int| a <= p < b && pred(p) && value(p) == given)
}

/// A value occurs among those at the positions found as often as there are positions with it.
proof fn lemma_positions_counted<A>(
    pred: spec_fn(int) -> bool,
    value: spec_fn(int) -> A,
    a: int,
    b: int,
    given: A,
)
    ensures
        positions_of(pred, value, a, b, given).finite(),
        Seq::new(
            positions(pred, a, b).len(),
            |i: int| value(positions(pred, a, b)[i]),
        ).to_multiset().count(given) == positions_of(pred, value, a, b, given).len(),
    decreases b - a,
{
    broadcast use vstd::seq_lib::group_to_multiset_ensures;

    let ps = positions(pred, a, b);
    let values = Seq::new(ps.len(), |i: int| value(ps[i]));
    let set = positions_of(pred, value, a, b, given);
    if b <= a {
        assert(values =~= Seq::<A>::empty());
        assert(set =~= Set::<int>::empty());
    } else {
        lemma_positions_counted(pred, value, a, b - 1, given);
        let ps0 = positions(pred, a, b - 1);
        let values0 = Seq::new(ps0.len(), |i: int| value(ps0[i]));
        let set0 = positions_of(pred, value, a, b - 1, given);
        if pred(b - 1) {
            assert(values =~= values0.push(value(b - 1)));
            vstd::seq_lib::to_multiset_build(values0, value(b - 1));
            if value(b - 1) == given {
                assert(set =~= set0.insert(b - 1));
                assert(!set0.contains(b - 1));
            } else {
                assert(set =~= set0);
            }
        } else {
            assert(values =~= values0);
            assert(set =~= set0);
        }
    }
}

/// The items with an insertion index whose boxes overlap the query box.
pub open spec fn overlapping_items<N: IndexableNum>(
    tree: TreeView<N>,
    query: Rect<N>,
    index: u32,
) -> Set<int> {
    Set::new(
        |p: int|
            0 <= p < tree.num_items && overlaps(tree, p, query) && tree.indices[p] as u32 == index,
    )
}

/// What is reached from the root is what overlaps the query box, each as often as it is stored.
proof fn lemma_reached_items_overlap<N: IndexableNum>(
    tree: TreeView<N>,
    query: Rect<N>,
    index: u32,
)
    requires
        tree.boxes.len() > 0,
        is_stored_by_levels(tree),
        nodes_hold_children(tree),
    ensures
        overlapping_items(tree, query, index).finite(),
        tree.items_reached(query).to_multiset().count(index) == overlapping_items(
            tree,
            query,
            index,
        ).len(),
{
    lemma_nodes_enclose_children(tree);
    tree.lemma_search_is_complete(query);
    let pred = |p: int| tree.meets(query, p);
    let value = |p: int| tree.indices[p] as u32;
    lemma_positions_counted(pred, value, 0, tree.num_items, index);
    let ps = positions(pred, 0, tree.num_items);
    assert(tree.items_meeting(query) =~= Seq::new(ps.len(), |i: int| value(ps[i])));
    assert(overlapping_items(tree, query, index) =~= positions_of(
        pred,
        value,
        0,
        tree.num_items,
        index,
    ));
}

/// A search can be made of any tree that is stored level by level, and of an empty one.
pub proof fn lemma_trees_can_be_searched<N: IndexableNum, T: RTreeIndex<N>>(
    index: &T,
    min_x: N,
    min_y: N,
    max_x: N,
    max_y: N,
)
    requires
        index.tree().boxes.len() == 0 || is_stored_by_levels(index.tree()),
    ensures
        call_requires(T::search, (index, min_x, min_y, max_x, max_y)),
{
    lemma_packed_trees_are_stored_by_levels(index.tree());
}

/// A search finds each insertion index as often as there are items with it whose boxes overlap the
/// query box, and gives them in ascending order. Where boxes have points, those are the items that
/// share a point with the query box.
pub proof fn lemma_search_finds_what_overlaps<N: IndexableNum, T: RTreeIndex<N>>(
    index: &T,
    query: Rect<N>,
    results: Vec<u32>,
)
    requires
        index.tree().boxes.len() > 0,
        is_stored_by_levels(index.tree()),
        nodes_hold_children(index.tree()),
        call_ensures(
            T::search,
            (index, query.min_x, query.min_y, query.max_x, query.max_y),
            results,
        ),
    ensures
        forall|i: int, j: int| 0 <= i < j < results@.len() ==> results@[i] <= results@[j],
        forall|id: u32| #[trigger]
            results@.to_multiset().count(id) == overlapping_items(index.tree(), query, id).len(),
        forall|p: int|
            0 <= p < index.tree().num_items && #[trigger] overlaps(index.tree(), p, query)
                ==> results@.contains(index.tree().indices[p] as u32),
        items_have_points(index.tree()) && query.min_x.rank() <= query.max_x.rank()
            && query.min_y.rank() <= query.max_y.rank() ==> forall|id: u32| #[trigger]
            results@.contains(id) <==> exists|p: int|
                0 <= p < index.tree().num_items && #[trigger] shares_point(index.tree(), p, query)
                    && index.tree().indices[p] as u32 == id,
{
    broadcast use vstd::seq_lib::group_to_multiset_ensures;

    let tree = index.tree();
    assert forall|id: u32| #[trigger]
        results@.to_multiset().count(id) == overlapping_items(tree, query, id).len() by {
        lemma_reached_items_overlap(tree, query, id);
    }
    assert forall|id: u32| #[trigger] results@.contains(id) <==> exists|p: int|
        #[trigger] overlapping_items(tree, query, id).contains(p) by {
        lemma_reached_items_overlap(tree, query, id);
        let set = overlapping_items(tree, query, id);
        assert(results@.contains(id) <==> results@.to_multiset().count(id) > 0);
        if set.len() > 0 {
            assert(set.contains(set.choose()));
        } else {
            assert(set =~= Set::<int>::empty());
        }
    }
    assert forall|p: int|
        0 <= p < tree.num_items && #[trigger] overlaps(tree, p, query) implies results@.contains(
        tree.indices[p] as u32,
    ) by {
        assert(overlapping_items(tree, query, tree.indices[p] as u32).contains(p));
    }
    if items_have_points(tree) && query.min_x.rank() <= query.max_x.rank() && query.min_y.rank()
        <= query.max_y.rank() {
        assert forall|id: u32| #[trigger] results@.contains(id) <==> exists|p: int|
            0 <= p < tree.num_items && #[trigger] shares_point(tree, p, query) && tree.indices[p]
                as u32 == id by {
            assert forall|p: int| 0 <= p < tree.num_items implies #[trigger] shares_point(
                tree,
                p,
                query,
            ) == overlaps(tree, p, query) by {
                assert(tree.boxes[4 * p].rank() <= tree.boxes[4 * p + 2].rank());
                lemma_overlapping_boxes_share_points(tree, p, query);
            }
            if results@.contains(id) {
                let p = choose|p: int| #[trigger] overlapping_items(tree, query, id).contains(p);
                assert(shares_point(tree, p, query));
            }
            if exists|p: int|
                0 <= p < tree.num_items && #[trigger] shares_point(tree, p, query)
                    && tree.indices[p] as u32 == id {
                let p = choose|p: int|
                    0 <= p < tree.num_items && #[trigger] shares_point(tree, p, query)
                        && tree.indices[p] as u32 == id;
                assert(overlapping_items(tree, query, id).contains(p));
            }
        }
    }
}

/// Whether the boxes of an item and of all nodes above it overlap the query box.
pub open spec fn overlaps_from_above<N: IndexableNum>(
    tree: TreeView<N>,
    p: int,
    query: Rect<N>,
) -> bool {
    forall|l: int, q: int| #[trigger] is_below(tree, l, p, q) ==> overlaps(tree, q, query)
}

/// What is reached from a level on is what all nodes from there on lead to.
proof fn lemma_reached_from<N: IndexableNum>(
    tree: TreeView<N>,
    query: Rect<N>,
    level: int,
    p: int,
)
    requires
        0 <= level < tree.num_levels(),
    ensures
        tree.reached(query, level, tree.ancestor(level, p)) <==> forall|l: int|
            level <= l < tree.num_levels() ==> tree.meets(query, #[trigger] tree.ancestor(l, p)),
    decreases tree.num_levels() - level,
{
    let q = tree.ancestor(level, p);
    if level < tree.top() {
        lemma_reached_from(tree, query, level + 1, p);
        assert(tree.parent(level, q) == tree.ancestor(level + 1, p));
    }
    assert(tree.meets(query, q) == tree.meets(query, tree.ancestor(level, p)));
}

/// Whether or not nodes have the boxes of their children in their own, a search finds each insertion
/// index as often as there are items with it that overlap the query box, as all nodes above do.
pub proof fn lemma_search_goes_down<N: IndexableNum, T: RTreeIndex<N>>(
    index: &T,
    query: Rect<N>,
    results: Vec<u32>,
    id: u32,
)
    requires
        index.tree().boxes.len() > 0,
        is_stored_by_levels(index.tree()),
        call_ensures(
            T::search,
            (index, query.min_x, query.min_y, query.max_x, query.max_y),
            results,
        ),
    ensures
        results@.to_multiset().count(id) == Set::new(
            |p: int|
                0 <= p < index.tree().num_items && overlaps_from_above(index.tree(), p, query)
                    && index.tree().indices[p] as u32 == id,
        ).len(),
{
    let tree = index.tree();
    lemma_packed_trees_are_stored_by_levels(tree);
    let pred = |p: int| tree.reached(query, 0, p);
    let value = |p: int| tree.indices[p] as u32;
    lemma_positions_counted(pred, value, 0, tree.num_items, id);
    let ps = positions(pred, 0, tree.num_items);
    assert(tree.items_reached(query) =~= Seq::new(ps.len(), |i: int| value(ps[i])));
    assert forall|p: int| 0 <= p < tree.num_items implies #[trigger] overlaps_from_above(
        tree,
        p,
        query,
    ) == pred(p) by {
        lemma_reached_from(tree, query, 0, p);
        assert(tree.ancestor(0, p) == p);
        if pred(p) {
            assert forall|l: int, q: int| #[trigger] is_below(tree, l, p, q) implies overlaps(
                tree,
                q,
                query,
            ) by {
                lemma_below_ancestors(tree, l, p, q);
                assert(tree.meets(query, tree.ancestor(l, p)));
            }
        }
        if overlaps_from_above(tree, p, query) {
            assert forall|l: int| 0 <= l < tree.num_levels() implies tree.meets(
                query,
                #[trigger] tree.ancestor(l, p),
            ) by {
                lemma_items_are_below(tree, l, p);
                assert(overlaps(tree, tree.ancestor(l, p), query));
            }
        }
    }
    assert(Set::new(
        |p: int|
            0 <= p < tree.num_items && overlaps_from_above(tree, p, query) && tree.indices[p] as u32
                == id,
    ) =~= positions_of(pred, value, 0, tree.num_items, id));
}

/// A search for the box of an item that has points finds the item.
pub proof fn lemma_an_item_finds_itself<N: IndexableNum, T: RTreeIndex<N>>(
    index: &T,
    p: int,
    results: Vec<u32>,
)
    requires
        index.tree().boxes.len() > 0,
        is_stored_by_levels(index.tree()),
        nodes_hold_children(index.tree()),
        items_have_points(index.tree()),
        0 <= p < index.tree().num_items,
        call_ensures(
            T::search,
            (
                index,
                index.tree().boxes[4 * p],
                index.tree().boxes[4 * p + 1],
                index.tree().boxes[4 * p + 2],
                index.tree().boxes[4 * p + 3],
            ),
            results,
        ),
    ensures
        results@.contains(index.tree().indices[p] as u32),
{
    let tree = index.tree();
    let query = Rect {
        min_x: tree.boxes[4 * p],
        min_y: tree.boxes[4 * p + 1],
        max_x: tree.boxes[4 * p + 2],
        max_y: tree.boxes[4 * p + 3],
    };
    lemma_search_finds_what_overlaps(index, query, results);
    assert(tree.boxes[4 * p].rank() <= tree.boxes[4 * p + 2].rank());
    assert(overlaps(tree, p, query));
}

/// An empty tree has nothing to find.
pub proof fn lemma_nothing_is_found_in_an_empty_tree<N: IndexableNum, T: RTreeIndex<N>>(
    index: &T,
    query: Rect<N>,
    results: Vec<u32>,
)
    requires
        index.tree().boxes.len() == 0,
        call_ensures(
            T::search,
            (index, query.min_x, query.min_y, query.max_x, query.max_y),
            results,
        ),
    ensures
        results@.len() == 0,
{
}

/// The box of node `p` as a query.
spec fn query_of<N>(tree: TreeView<N>, p: int) -> Rect<N> {
    Rect {
        min_x: tree.boxes[4 * p],
        min_y: tree.boxes[4 * p + 1],
        max_x: tree.boxes[4 * p + 2],
        max_y: tree.boxes[4 * p + 3],
    }
}

/// Whether the boxes of an item of one tree and an item of another overlap on both axes: neither
/// ends before the other starts.
pub open spec fn items_overlap<N: IndexableNum>(
    left: TreeView<N>,
    right: TreeView<N>,
    pair: (int, int),
) -> bool {
    let (p, q) = pair;
    &&& 0 <= p < left.num_items
    &&& 0 <= q < right.num_items
    &&& !(left.boxes[4 * p + 2].rank() < right.boxes[4 * q].rank())
    &&& !(left.boxes[4 * p + 3].rank() < right.boxes[4 * q + 1].rank())
    &&& !(right.boxes[4 * q + 2].rank() < left.boxes[4 * p].rank())
    &&& !(right.boxes[4 * q + 3].rank() < left.boxes[4 * p + 1].rank())
}

/// The items of two trees that overlap and have the given insertion indices.
pub open spec fn overlapping_pairs<N: IndexableNum>(
    left: TreeView<N>,
    right: TreeView<N>,
    ids: (u32, u32),
) -> Set<(int, int)> {
    Set::new(
        |pair: (int, int)|
            items_overlap(left, right, pair) && left.indices[pair.0] as u32 == ids.0
                && right.indices[pair.1] as u32 == ids.1,
    )
}

/// Those whose left item stands before `end`.
spec fn pairs_until<N: IndexableNum>(
    left: TreeView<N>,
    right: TreeView<N>,
    ids: (u32, u32),
    end: int,
) -> Set<(int, int)> {
    Set::new(
        |pair: (int, int)| pair.0 < end && overlapping_pairs(left, right, ids).contains(pair),
    )
}

/// What one item of the left tree adds.
proof fn lemma_pairs_at_counted<N: IndexableNum>(
    left: TreeView<N>,
    right: TreeView<N>,
    ids: (u32, u32),
    p: int,
)
    requires
        right.boxes.len() > 0,
        is_stored_by_levels(right),
        nodes_hold_children(right),
        0 <= p < left.num_items,
    ensures
        ({
            let at = Set::new(
                |pair: (int, int)|
                    pair.0 == p && overlapping_pairs(left, right, ids).contains(pair),
            );
            at.finite() && left.pairs_at(right, p).to_multiset().count(ids) == at.len()
        }),
{
    broadcast use vstd::seq_lib::group_to_multiset_ensures;

    let query = query_of(left, p);
    let found = right.items_reached(query);
    let at = Set::new(
        |pair: (int, int)| pair.0 == p && overlapping_pairs(left, right, ids).contains(pair),
    );
    let pairs = left.pairs_at(right, p);
    lemma_reached_items_overlap(right, query, ids.1);
    let set = overlapping_items(right, query, ids.1);
    if left.indices[p] as u32 == ids.0 {
        let image = set.map(|q: int| (p, q));
        assert(at =~= image) by {
            assert forall|pair: (int, int)| at.contains(pair) implies image.contains(pair) by {
                assert(set.contains(pair.1));
                assert(pair == (p, pair.1));
            }
        }
        vstd::set_lib::lemma_map_size(set, image, |q: int| (p, q));
        lemma_paired_count(left.indices[p] as u32, found, ids.1);
        assert(pairs =~= Seq::new(found.len(), |i: int| (left.indices[p] as u32, found[i])));
    } else {
        assert(at =~= Set::<(int, int)>::empty());
        assert(!pairs.contains(ids));
    }
}

/// Pairing each of a sequence with the same number keeps how often each occurs.
proof fn lemma_paired_count(first: u32, found: Seq<u32>, second: u32)
    ensures
        Seq::new(found.len(), |i: int| (first, found[i])).to_multiset().count((first, second))
            == found.to_multiset().count(second),
    decreases found.len(),
{
    broadcast use vstd::seq_lib::group_to_multiset_ensures;

    let pairs = Seq::new(found.len(), |i: int| (first, found[i]));
    if found.len() == 0 {
        assert(pairs =~= Seq::<(u32, u32)>::empty());
        assert(found =~= Seq::<u32>::empty());
    } else {
        let found0 = found.drop_last();
        let pairs0 = Seq::new(found0.len(), |i: int| (first, found0[i]));
        lemma_paired_count(first, found0, second);
        assert(found =~= found0.push(found.last()));
        assert(pairs =~= pairs0.push((first, found.last())));
        vstd::seq_lib::to_multiset_build(found0, found.last());
        vstd::seq_lib::to_multiset_build(pairs0, (first, found.last()));
    }
}

/// What the items of the left tree before `end` add.
proof fn lemma_pairs_before_counted<N: IndexableNum>(
    left: TreeView<N>,
    right: TreeView<N>,
    ids: (u32, u32),
    end: int,
)
    requires
        right.boxes.len() > 0,
        is_stored_by_levels(right),
        nodes_hold_children(right),
        0 <= end <= left.num_items,
    ensures
        pairs_until(left, right, ids, end).finite(),
        left.pairs_before(right, end).to_multiset().count(ids) == pairs_until(
            left,
            right,
            ids,
            end,
        ).len(),
    decreases end,
{
    broadcast use vstd::seq_lib::group_to_multiset_ensures;

    let set = pairs_until(left, right, ids, end);
    if end == 0 {
        assert(set =~= Set::<(int, int)>::empty());
    } else {
        let p = end - 1;
        lemma_pairs_before_counted(left, right, ids, p);
        lemma_pairs_at_counted(left, right, ids, p);
        let set0 = pairs_until(left, right, ids, p);
        let at = Set::new(
            |pair: (int, int)| pair.0 == p && overlapping_pairs(left, right, ids).contains(pair),
        );
        assert(set =~= set0 + at);
        assert(set0.disjoint(at));
        vstd::set_lib::lemma_set_disjoint_lens(set0, at);
        vstd::seq_lib::lemma_multiset_commutative(
            left.pairs_before(right, p),
            left.pairs_at(right, p),
        );
    }
}

/// The candidates of two trees are the pairs of items whose boxes overlap, each pair as often as
/// there are such items: no pair is left out, none is added, and none comes twice.
pub proof fn lemma_candidates_are_what_overlaps<
    N: IndexableNum,
    L: RTreeIndex<N>,
    R: RTreeIndex<N>,
>(left: &L, right: &R, candidates: Vec<(u32, u32)>)
    requires
        left.tree().boxes.len() > 0,
        is_stored_by_levels(left.tree()),
        right.tree().boxes.len() > 0,
        is_stored_by_levels(right.tree()),
        nodes_hold_children(right.tree()),
        call_ensures(
            intersection_candidates_with_other_tree::<N, L, R>,
            (left, right),
            candidates,
        ),
    ensures
        call_requires(intersection_candidates_with_other_tree::<N, L, R>, (left, right)),
        forall|ids: (u32, u32)| #[trigger]
            candidates@.to_multiset().count(ids) == overlapping_pairs(
                left.tree(),
                right.tree(),
                ids,
            ).len(),
        (forall|p: int, q: int|
            0 <= p < q < left.tree().num_items ==> #[trigger] left.tree().indices[p] as u32
                != #[trigger] left.tree().indices[q] as u32) && (forall|p: int, q: int|
            0 <= p < q < right.tree().num_items ==> #[trigger] right.tree().indices[p] as u32
                != #[trigger] right.tree().indices[q] as u32) ==> candidates@.no_duplicates(),
{
    broadcast use vstd::seq_lib::group_to_multiset_ensures;

    let a = left.tree();
    let b = right.tree();
    lemma_packed_trees_are_stored_by_levels(a);
    lemma_packed_trees_are_stored_by_levels(b);
    assert forall|ids: (u32, u32)| #[trigger]
        candidates@.to_multiset().count(ids) == overlapping_pairs(a, b, ids).len() by {
        lemma_pairs_before_counted(a, b, ids, a.num_items);
        assert(pairs_until(a, b, ids, a.num_items) =~= overlapping_pairs(a, b, ids));
    }
    if (forall|p: int, q: int|
        0 <= p < q < a.num_items ==> #[trigger] a.indices[p] as u32 != #[trigger] a.indices[q]
            as u32) && (forall|p: int, q: int|
        0 <= p < q < b.num_items ==> #[trigger] b.indices[p] as u32 != #[trigger] b.indices[q]
            as u32) {
        assert forall|ids: (u32, u32)| candidates@.to_multiset().contains(
            ids,
        ) implies candidates@.to_multiset().count(ids) == 1 by {
            let set = overlapping_pairs(a, b, ids);
            lemma_pairs_before_counted(a, b, ids, a.num_items);
            assert(pairs_until(a, b, ids, a.num_items) =~= set);
            assert(candidates@.to_multiset().count(ids) == set.len());
            let one = set.choose();
            assert(set =~= Set::empty().insert(one)) by {
                assert forall|pair: (int, int)| set.contains(pair) implies pair == one by {
                    if pair.0 < one.0 {
                        assert(a.indices[pair.0] as u32 != a.indices[one.0] as u32);
                    } else if one.0 < pair.0 {
                        assert(a.indices[one.0] as u32 != a.indices[pair.0] as u32);
                    } else if pair.1 < one.1 {
                        assert(b.indices[pair.1] as u32 != b.indices[one.1] as u32);
                    } else if one.1 < pair.1 {
                        assert(b.indices[one.1] as u32 != b.indices[pair.1] as u32);
                    }
                }
            }
        }
        candidates@.lemma_multiset_has_no_duplicates_conv();
    }
}

/// An empty tree has no candidates with any other.
pub proof fn lemma_an_empty_tree_has_no_candidates<
    N: IndexableNum,
    L: RTreeIndex<N>,
    R: RTreeIndex<N>,
>(left: &L, right: &R, candidates: Vec<(u32, u32)>)
    requires
        left.tree().boxes.len() == 0 || right.tree().boxes.len() == 0,
        call_ensures(
            intersection_candidates_with_other_tree::<N, L, R>,
            (left, right),
            candidates,
        ),
    ensures
        candidates@.len() == 0,
{
}

} // verus!
