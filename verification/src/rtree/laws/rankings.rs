//! Which items are nearest.

use crate::num::{arithmetic_is_monotone, counts_exactly, fits, IndexableNum};
use crate::rtree::distance::{
    can_measure_from_point, can_measure_squared, finds_by_metric, is_negative, items_are_proper,
    max_distance_may_be, measure_from_geometry, measure_from_point, squared_distance_ok,
    squared_distance_to, squared_distances, squared_measure, squared_options, DistanceMetric,
    GeometryAccessor, SimpleDistanceMetric, SimpleSquaredDistance, SliceGeometryAccessor,
};
use crate::rtree::index::{indices_of, RTreeIndex};
use crate::rtree::laws::distances::{
    lemma_squared_distance_is_gap, lemma_squares_grow, squared_gap,
};
use crate::rtree::laws::searches::items_have_points;
use crate::rtree::laws::storage::{
    is_below, is_child, is_stored_by_levels, lemma_items_are_below, lemma_nodes_are_stored,
    lemma_nodes_enclose_children, lemma_packed_trees_are_stored_by_levels, nodes_hold_children,
    stands_in,
};
use crate::rtree::layout::TreeView;
use crate::rtree::neighbors::{can_measure_by, measure_by, within, Measure};
use crate::rtree::options::NeighborsOptions;
use vstd::prelude::*;

verus! {

/// The sides of the box of node `p`.
pub open spec fn corners<N>(tree: TreeView<N>, p: int) -> [N; 4] {
    [tree.boxes[4 * p], tree.boxes[4 * p + 1], tree.boxes[4 * p + 2], tree.boxes[4 * p + 3]]
}

/// The places of distances in their order.
pub open spec fn keys_of<D: IndexableNum>(exact: spec_fn(int) -> Option<D>) -> spec_fn(
    int,
) -> Option<int> {
    |p: int|
        match exact(p) {
            Some(dist) => Some(dist.rank()),
            None => None,
        }
}

/// Whether an item has a key, and not over the limit.
pub open spec fn takes_part(key: spec_fn(int) -> Option<int>, limit: int, p: int) -> bool {
    key(p) is Some && key(p)->0 <= limit
}

/// Whether `items` rank the items of a tree by their keys.
///
/// Each of them takes part and comes once, the least key first, and of equal keys what was inserted
/// first. Without `k` all that take part are ranked. With it no more than `k` are, and what is left
/// out comes behind all that are not; but if ties count, all those are ranked that are tied with the
/// one at rank `k`.
pub open spec fn is_ranking<N>(
    tree: TreeView<N>,
    key: spec_fn(int) -> Option<int>,
    limit: int,
    k: Option<usize>,
    ties: bool,
    items: Seq<int>,
) -> bool {
    &&& forall|i: int|
        0 <= i < items.len() ==> 0 <= #[trigger] items[i] < tree.num_items && takes_part(
            key,
            limit,
            items[i],
        )
    &&& forall|i: int, j: int|
        0 <= i < j < items.len() ==> {
            &&& #[trigger] items[i] != #[trigger] items[j]
            &&& key(items[i])->0 <= key(items[j])->0
            &&& key(items[i])->0 == key(items[j])->0 ==> tree.indices[items[i]]
                <= tree.indices[items[j]]
        }
    &&& match k {
        None => forall|p: int|
            0 <= p < tree.num_items && #[trigger] takes_part(key, limit, p) ==> items.contains(p),
        Some(k) => {
            &&& !ties || k == 0 ==> items.len() <= k
            &&& ties && k > 0 ==> forall|i: int|
                k <= i < items.len() ==> key(#[trigger] items[i])->0 == key(items[k - 1])->0
            &&& forall|p: int|
                0 <= p < tree.num_items && #[trigger] takes_part(key, limit, p) ==> {
                    ||| items.contains(p)
                    ||| k == 0
                    ||| {
                        &&& items.len() >= k
                        &&& key(items[k - 1])->0 <= key(p)->0
                        &&& ties ==> key(items[k - 1])->0 < key(p)->0
                        &&& key(items[k - 1])->0 == key(p)->0 ==> tree.indices[items[k - 1]]
                            <= tree.indices[p]
                    }
                }
        },
    }
}

/// Whether `results` are the insertion indices and the distances of `items`.
pub open spec fn are_results_of<N, D>(
    tree: TreeView<N>,
    exact: spec_fn(int) -> Option<D>,
    items: Seq<int>,
    results: Seq<(u32, D)>,
) -> bool {
    &&& results.len() == items.len()
    &&& forall|i: int|
        0 <= i < results.len() ==> (#[trigger] results[i]).0 == tree.indices[items[i]] as u32
            && exact(items[i]) == Some(results[i].1)
}

/// Whether `results` are the insertion indices and the distances of the items of a tree, ranked.
pub open spec fn are_ranked<N, D: IndexableNum>(
    tree: TreeView<N>,
    exact: spec_fn(int) -> Option<D>,
    limit: D,
    options: NeighborsOptions<D>,
    results: Seq<(u32, D)>,
) -> bool {
    exists|items: Seq<int>|
        {
            &&& #[trigger] is_ranking(
                tree,
                keys_of(exact),
                limit.rank(),
                options.k,
                options.include_tie_breakers,
                items,
            )
            &&& are_results_of(tree, exact, items, results)
        }
}

/// The largest distance at which an item is found: that of the options, or else the largest there
/// is.
pub open spec fn limit_of<D: IndexableNum>(options: NeighborsOptions<D>) -> D {
    match options.max_distance {
        Some(max) => max,
        None => D::spec_max_value(),
    }
}

/// Nearest items are a ranking.
proof fn lemma_nearest_is_ranking<N, D: IndexableNum>(
    tree: TreeView<N>,
    options: NeighborsOptions<D>,
    exact: spec_fn(int) -> Option<D>,
    items: Seq<int>,
)
    requires
        tree.nearest_items(options, exact, items),
        tree.ties_by_insertion(options.limit(), exact, items),
    ensures
        is_ranking(
            tree,
            keys_of(exact),
            limit_of(options).rank(),
            options.k,
            options.include_tie_breakers,
            items,
        ),
{
    let key = keys_of(exact);
    let limit = limit_of(options);
    assert forall|p: int| #[trigger] takes_part(key, limit.rank(), p) == within(
        exact(p),
        options.limit(),
    ) by {}
    assert forall|i: int|
        0 <= i < items.len() implies 0 <= #[trigger] items[i] < tree.num_items && takes_part(
        key,
        limit.rank(),
        items[i],
    ) by {
        assert(within(exact(items[i]), options.limit()));
        assert(takes_part(key, limit.rank(), items[i]) == within(exact(items[i]), options.limit()));
    }
    assert forall|i: int, j: int| 0 <= i < j < items.len() implies {
        &&& #[trigger] items[i] != #[trigger] items[j]
        &&& key(items[i])->0 <= key(items[j])->0
        &&& key(items[i])->0 == key(items[j])->0 ==> tree.indices[items[i]]
            <= tree.indices[items[j]]
    } by {
        assert(tree.found_no_later(exact, items[i], items[j]));
        assert(within(exact(items[i]), options.limit()) && within(exact(items[j]), options.limit()));
    }
    if options.k is Some && options.k->0 > 0 {
        let k = options.k->0 as int;
        assert forall|p: int|
            0 <= p < tree.num_items && #[trigger] takes_part(key, limit.rank(), p)
                && !items.contains(p) implies {
            &&& items.len() >= k
            &&& key(items[k - 1])->0 <= key(p)->0
            &&& options.include_tie_breakers ==> key(items[k - 1])->0 < key(p)->0
            &&& key(items[k - 1])->0 == key(p)->0 ==> tree.indices[items[k - 1]] <= tree.indices[p]
        } by {
            assert(within(exact(p), options.limit()));
            assert(within(exact(items[k - 1]), options.limit()));
            assert(tree.found_no_later(exact, items[k - 1], p));
        }
        if options.include_tie_breakers {
            assert forall|i: int| k <= i < items.len() implies key(#[trigger] items[i])->0 == key(
                items[k - 1],
            )->0 by {
                assert(within(exact(items[i]), options.limit()));
                assert(within(exact(items[k - 1]), options.limit()));
            }
        }
    }
}

/// What a search finds is ranked, where the answers for nodes are lower bounds on the distances of
/// the items in their boxes.
proof fn lemma_finds_ranks<N: IndexableNum, D: IndexableNum>(
    tree: TreeView<N>,
    measure: Measure<D>,
    options: NeighborsOptions<D>,
    exact: spec_fn(int) -> Option<D>,
    results: Seq<(u32, D)>,
)
    requires
        tree.boxes.len() > 0,
        is_stored_by_levels(tree),
        forall|p: int, answer: Option<D>|
            0 <= p < tree.num_items && #[trigger] (measure.item)(p, answer) ==> answer == exact(p),
        forall|l: int, p: int, q: int, bound: D|
            0 < l && #[trigger] is_below(tree, l, p, q) && exact(p) is Some
                && #[trigger] (measure.node)(q, bound) ==> bound.rank() <= exact(p)->0.rank(),
        tree.finds(measure, options, results),
    ensures
        are_ranked(tree, exact, limit_of(options), options, results),
{
    lemma_packed_trees_are_stored_by_levels(tree);
    assert forall|l: int, p: int, bound: D|
        0 < l < tree.num_levels() && 0 <= p < tree.num_items && #[trigger] (measure.node)(
            tree.ancestor(l, p),
            bound,
        ) && exact(p) is Some implies bound.rank() <= exact(p)->0.rank() by {
        lemma_items_are_below(tree, l, p);
    }
    assert(measure.is_exact(tree, exact));
    assert(tree.nearest(options, exact, results));
    let items = choose|items: Seq<int>|
        {
            &&& #[trigger] tree.nearest_items(options, exact, items)
            &&& tree.ties_by_insertion(options.limit(), exact, items)
            &&& results == Seq::new(
                items.len(),
                |i: int| (tree.indices[items[i]] as u32, exact(items[i])->0),
            )
        };
    lemma_nearest_is_ranking(tree, options, exact, items);
    assert forall|i: int| 0 <= i < results.len() implies (#[trigger] results[i]).0
        == tree.indices[items[i]] as u32 && exact(items[i]) == Some(results[i].1) by {
        assert(within(exact(items[i]), options.limit()));
    }
    assert(are_results_of(tree, exact, items, results));
}

/// A search with callbacks ranks the items by the distances that `item_distance` gives for their
/// insertion indices and boxes, up to the limit of the options, which is inclusive. It does so
/// wherever `bbox_distance` gives no more for the box of a node than the distance of an item below
/// it.
pub proof fn lemma_callbacks_rank_items<N: IndexableNum, D: IndexableNum, B, I>(
    tree: TreeView<N>,
    options: NeighborsOptions<D>,
    bbox_distance: B,
    item_distance: I,
    exact: spec_fn(int) -> Option<D>,
    results: Seq<(u32, D)>,
) where B: FnMut([N; 4]) -> D, I: FnMut(u32, [N; 4]) -> Option<D>
    requires
        tree.boxes.len() > 0,
        is_stored_by_levels(tree),
        forall|p: int, answer: Option<D>|
            0 <= p < tree.num_items && #[trigger] call_ensures(
                item_distance,
                (tree.indices[p] as u32, corners(tree, p)),
                answer,
            ) ==> answer == exact(p),
        forall|l: int, p: int, q: int, bound: D|
            0 < l && #[trigger] is_below(tree, l, p, q) && exact(p) is Some
                && #[trigger] call_ensures(bbox_distance, (corners(tree, q),), bound)
                ==> bound.rank() <= exact(p)->0.rank(),
        tree.finds(measure_by(tree, bbox_distance, item_distance), options, results),
    ensures
        are_ranked(tree, exact, limit_of(options), options, results),
{
    let measure = measure_by(tree, bbox_distance, item_distance);
    assert forall|p: int, answer: Option<D>|
        0 <= p < tree.num_items && #[trigger] (measure.item)(p, answer) implies answer == exact(
        p,
    ) by {
        assert(call_ensures(
            item_distance,
            (tree.indices[p] as u32, corners(tree, p)),
            answer,
        ));
    }
    assert forall|l: int, p: int, q: int, bound: D|
        0 < l && #[trigger] is_below(tree, l, p, q) && exact(p) is Some
            && #[trigger] (measure.node)(q, bound) implies bound.rank() <= exact(p)->0.rank() by {
        assert(call_ensures(bbox_distance, (corners(tree, q),), bound));
    }
    lemma_finds_ranks(tree, measure, options, exact, results);
}

/// A search with callbacks, without `k` and without a limit, finds every item that has a distance.
pub proof fn lemma_callbacks_find_every_item<N: IndexableNum, D: IndexableNum, B, I>(
    tree: TreeView<N>,
    options: NeighborsOptions<D>,
    bbox_distance: B,
    item_distance: I,
    exact: spec_fn(int) -> Option<D>,
    results: Seq<(u32, D)>,
) where B: FnMut([N; 4]) -> D, I: FnMut(u32, [N; 4]) -> Option<D>
    requires
        counts_exactly::<D>(),
        options.k is None,
        options.max_distance is None,
        tree.boxes.len() > 0,
        is_stored_by_levels(tree),
        forall|p: int, answer: Option<D>|
            0 <= p < tree.num_items && #[trigger] call_ensures(
                item_distance,
                (tree.indices[p] as u32, corners(tree, p)),
                answer,
            ) ==> answer == exact(p),
        forall|l: int, p: int, q: int, bound: D|
            0 < l && #[trigger] is_below(tree, l, p, q) && exact(p) is Some
                && #[trigger] call_ensures(bbox_distance, (corners(tree, q),), bound)
                ==> bound.rank() <= exact(p)->0.rank(),
        tree.finds(measure_by(tree, bbox_distance, item_distance), options, results),
    ensures
        forall|p: int|
            0 <= p < tree.num_items && (#[trigger] exact(p)) is Some ==> results.contains(
                (tree.indices[p] as u32, exact(p)->0),
            ),
{
    lemma_callbacks_rank_items(tree, options, bbox_distance, item_distance, exact, results);
    let items = choose|items: Seq<int>|
        {
            &&& #[trigger] is_ranking(
                tree,
                keys_of(exact),
                limit_of(options).rank(),
                options.k,
                options.include_tie_breakers,
                items,
            )
            &&& are_results_of(tree, exact, items, results)
        };
    assert forall|p: int| 0 <= p < tree.num_items && (#[trigger] exact(p)) is Some implies
        results.contains((tree.indices[p] as u32, exact(p)->0)) by {
        assert(takes_part(keys_of(exact), limit_of(options).rank(), p));
        let i = choose|i: int| 0 <= i < items.len() && items[i] == p;
        assert(results[i] == (tree.indices[p] as u32, exact(p)->0));
    }
}

/// Whatever the callbacks answer, each result of a search is the insertion index of another item,
/// with an answer that `item_distance` gives for it and its box, within the limit. An item is not
/// among the results only where `item_distance` left it out or gave more than the limit, or
/// `bbox_distance` gave more than the limit for some node, or `k` others were found.
pub proof fn lemma_callbacks_answer<N: IndexableNum, D: IndexableNum, B, I>(
    tree: TreeView<N>,
    options: NeighborsOptions<D>,
    bbox_distance: B,
    item_distance: I,
    results: Seq<(u32, D)>,
) where B: FnMut([N; 4]) -> D, I: FnMut(u32, [N; 4]) -> Option<D>
    requires
        tree.boxes.len() > 0,
        is_stored_by_levels(tree),
        tree.finds(measure_by(tree, bbox_distance, item_distance), options, results),
    ensures
        exists|items: Seq<int>|
            {
                &&& items.len() == results.len()
                &&& #[trigger] items.no_duplicates()
                &&& forall|i: int|
                    0 <= i < items.len() ==> {
                        &&& 0 <= #[trigger] items[i] < tree.num_items
                        &&& results[i].0 == tree.indices[items[i]] as u32
                        &&& call_ensures(
                            item_distance,
                            (tree.indices[items[i]] as u32, corners(tree, items[i])),
                            Some(results[i].1),
                        )
                        &&& results[i].1.rank() <= limit_of(options).rank()
                    }
                &&& forall|p: int|
                    0 <= p < tree.num_items && !#[trigger] items.contains(p) ==> {
                        ||| exists|answer: Option<D>|
                            {
                                &&& #[trigger] call_ensures(
                                    item_distance,
                                    (tree.indices[p] as u32, corners(tree, p)),
                                    answer,
                                )
                                &&& answer is Some ==> answer->0.rank() > limit_of(options).rank()
                            }
                        ||| exists|q: int, bound: D|
                            {
                                &&& tree.num_items <= q
                                &&& 4 * q < tree.boxes.len()
                                &&& #[trigger] call_ensures(
                                    bbox_distance,
                                    (corners(tree, q),),
                                    bound,
                                )
                                &&& bound.rank() > limit_of(options).rank()
                            }
                        ||| options.k is Some && results.len() >= options.k->0
                    }
            },
        options.k is Some && !options.include_tie_breakers ==> results.len() <= options.k->0,
{
    lemma_packed_trees_are_stored_by_levels(tree);
    lemma_nodes_are_stored(tree);
    let measure = measure_by(tree, bbox_distance, item_distance);
    let limit = limit_of(options);
    let (answers, items) = choose|answers: Map<int, Option<D>>, items: Seq<int>|
        {
            &&& measure.gives(tree, answers)
            &&& #[trigger] tree.may_find(options, answers, items)
            &&& results == tree.answers_at(answers, items)
        };
    assert(items.no_duplicates());
    assert forall|i: int| 0 <= i < items.len() implies {
        &&& 0 <= #[trigger] items[i] < tree.num_items
        &&& results[i].0 == tree.indices[items[i]] as u32
        &&& call_ensures(
            item_distance,
            (tree.indices[items[i]] as u32, corners(tree, items[i])),
            Some(results[i].1),
        )
        &&& results[i].1.rank() <= limit.rank()
    } by {
        assert(answers.contains_key(items[i]));
        assert((measure.item)(items[i], answers[items[i]]));
    }
    assert forall|p: int| 0 <= p < tree.num_items && !#[trigger] items.contains(p) implies {
        ||| exists|answer: Option<D>|
            {
                &&& #[trigger] call_ensures(
                    item_distance,
                    (tree.indices[p] as u32, corners(tree, p)),
                    answer,
                )
                &&& answer is Some ==> answer->0.rank() > limit.rank()
            }
        ||| exists|q: int, bound: D|
            {
                &&& tree.num_items <= q
                &&& 4 * q < tree.boxes.len()
                &&& #[trigger] call_ensures(bbox_distance, (corners(tree, q),), bound)
                &&& bound.rank() > limit.rank()
            }
        ||| options.k is Some && results.len() >= options.k->0
    } by {
        if answers.contains_key(p) && !within(answers[p], options.limit()) {
            assert((measure.item)(p, answers[p]));
            assert(call_ensures(
                item_distance,
                (tree.indices[p] as u32, corners(tree, p)),
                answers[p],
            ));
        } else if tree.is_pruned(answers, options.limit(), p) {
            let l = choose|l: int|
                {
                    &&& 0 < l < tree.num_levels()
                    &&& #[trigger] answers.contains_key(tree.ancestor(l, p))
                    &&& !within(answers[tree.ancestor(l, p)], options.limit())
                };
            let q = tree.ancestor(l, p);
            tree.lemma_ancestor(l, p);
            tree.lemma_levels_ascend(0, l);
            tree.lemma_levels_ascend(l, tree.top());
            assert((measure.node)(q, answers[q]->0));
            assert(call_ensures(bbox_distance, (corners(tree, q),), answers[q]->0));
        }
    }
}

/// A search with callbacks can be made wherever they can be called for the nodes.
pub proof fn lemma_callbacks_can_be_asked<N, D: IndexableNum, B, I>(
    tree: TreeView<N>,
    limit: D,
    bbox_distance: B,
    item_distance: I,
) where B: FnMut([N; 4]) -> D, I: FnMut(u32, [N; 4]) -> Option<D>
    requires
        tree.boxes.len() > 0,
        is_stored_by_levels(tree),
        forall|p: int|
            0 <= p < tree.num_items ==> call_requires(
                item_distance,
                (tree.indices[p] as u32, #[trigger] corners(tree, p)),
            ),
        forall|q: int|
            tree.num_items <= q && 4 * q < tree.boxes.len() ==> call_requires(
                bbox_distance,
                (#[trigger] corners(tree, q),),
            ),
    ensures
        can_measure_by(tree, limit, bbox_distance, item_distance),
{
    lemma_packed_trees_are_stored_by_levels(tree);
    assert forall|l: int, p: int| #[trigger] tree.in_level(l, p) implies if l > 0 {
        call_requires(bbox_distance, (tree.bbox(p),))
    } else {
        call_requires(item_distance, (tree.indices[p] as u32, tree.bbox(p)))
    } by {
        tree.lemma_levels_not_empty(l);
        tree.lemma_levels_ascend(0, l);
        tree.lemma_levels_ascend(l, tree.top());
        assert(corners(tree, p) == tree.bbox(p));
    }
}

/// A search by a metric from a point ranks the items by the distances that the metric gives from the
/// point to their boxes, up to the limit of the options, or else one that the metric gives as its
/// largest. It does so wherever the metric gives no more for the box of a node than
/// for that of an item below it.
pub proof fn lemma_metrics_rank_items<
    N: IndexableNum,
    M: SimpleDistanceMetric<N> + ?Sized,
>(
    tree: TreeView<N>,
    options: NeighborsOptions<N>,
    metric: &M,
    x: N,
    y: N,
    dist: spec_fn(int) -> N,
    results: Seq<(u32, N)>,
) -> (max: N)
    requires
        tree.boxes.len() > 0,
        is_stored_by_levels(tree),
        forall|p: int, given: N|
            0 <= p && 4 * p < tree.boxes.len() && #[trigger] call_ensures(
                M::distance_to_bbox,
                (
                    metric,
                    x,
                    y,
                    tree.boxes[4 * p],
                    tree.boxes[4 * p + 1],
                    tree.boxes[4 * p + 2],
                    tree.boxes[4 * p + 3],
                ),
                given,
            ) ==> given == dist(p),
        forall|l: int, p: int, q: int|
            0 < l && #[trigger] is_below(tree, l, p, q) ==> dist(q).rank() <= dist(p).rank(),
        finds_by_metric(tree, measure_from_point(tree, metric, x, y), options, metric, results),
    ensures
        options.max_distance is Some ==> max == options.max_distance->0,
        options.max_distance is None ==> call_ensures(M::max_distance, (metric,), max),
        are_ranked(tree, |p: int| Some(dist(p)), max, options, results),
{
    lemma_nodes_are_stored(tree);
    let measure = measure_from_point(tree, metric, x, y);
    let max = choose|max: N|
        {
            &&& #[trigger] max_distance_may_be(options, metric, max)
            &&& tree.finds(measure, options.up_to(max), results)
        };
    let exact = |p: int| Some(dist(p));
    assert forall|p: int, answer: Option<N>|
        0 <= p < tree.num_items && #[trigger] (measure.item)(p, answer) implies answer == exact(
        p,
    ) by {
        assert(call_ensures(
            M::distance_to_bbox,
            (
                metric,
                x,
                y,
                tree.boxes[4 * p],
                tree.boxes[4 * p + 1],
                tree.boxes[4 * p + 2],
                tree.boxes[4 * p + 3],
            ),
            answer->0,
        ));
    }
    assert forall|l: int, p: int, q: int, bound: N|
        0 < l && #[trigger] is_below(tree, l, p, q) && exact(p) is Some
            && #[trigger] (measure.node)(q, bound) implies bound.rank() <= exact(p)->0.rank() by {
        assert(stands_in(tree, l, q)) by {
            let c = choose|c: int| #[trigger]
                is_child(tree, l, q, c) && is_below(tree, l - 1, p, c);
        }
        assert(call_ensures(
            M::distance_to_bbox,
            (
                metric,
                x,
                y,
                tree.boxes[4 * q],
                tree.boxes[4 * q + 1],
                tree.boxes[4 * q + 2],
                tree.boxes[4 * q + 3],
            ),
            bound,
        ));
    }
    lemma_finds_ranks(tree, measure, options.up_to(max), exact, results);
    max
}

/// Whatever the metric answers, each result of a search from a point has the insertion index of an
/// item, and a distance that the metric gives from the point to its box.
pub proof fn lemma_metrics_answer<N: IndexableNum, M: SimpleDistanceMetric<N> + ?Sized>(
    tree: TreeView<N>,
    options: NeighborsOptions<N>,
    metric: &M,
    x: N,
    y: N,
    results: Seq<(u32, N)>,
    i: int,
) -> (p: int)
    requires
        tree.boxes.len() > 0,
        is_stored_by_levels(tree),
        finds_by_metric(tree, measure_from_point(tree, metric, x, y), options, metric, results),
        0 <= i < results.len(),
    ensures
        0 <= p < tree.num_items,
        results[i].0 == tree.indices[p] as u32,
        call_ensures(
            M::distance_to_bbox,
            (
                metric,
                x,
                y,
                tree.boxes[4 * p],
                tree.boxes[4 * p + 1],
                tree.boxes[4 * p + 2],
                tree.boxes[4 * p + 3],
            ),
            results[i].1,
        ),
        options.max_distance is Some ==> results[i].1.rank() <= options.max_distance->0.rank(),
{
    let measure = measure_from_point(tree, metric, x, y);
    let max = choose|max: N|
        {
            &&& #[trigger] max_distance_may_be(options, metric, max)
            &&& tree.finds(measure, options.up_to(max), results)
        };
    let limited = options.up_to(max);
    let (answers, items) = choose|answers: Map<int, Option<N>>, items: Seq<int>|
        {
            &&& measure.gives(tree, answers)
            &&& #[trigger] tree.may_find(limited, answers, items)
            &&& results == tree.answers_at(answers, items)
        };
    let p = items[i];
    assert(answers.contains_key(p));
    assert((measure.item)(p, answers[p]));
    p
}

/// A search by a metric can be made wherever the metric can give the distances to all boxes.
pub proof fn lemma_metrics_can_be_asked<N: IndexableNum, M: SimpleDistanceMetric<N> + ?Sized>(
    tree: TreeView<N>,
    limit: N,
    metric: &M,
    x: N,
    y: N,
)
    requires
        tree.boxes.len() > 0,
        is_stored_by_levels(tree),
        forall|p: int|
            0 <= p && 4 * p < tree.boxes.len() ==> metric.distance_to_bbox_ok(
                x,
                y,
                #[trigger] tree.boxes[4 * p],
                tree.boxes[4 * p + 1],
                tree.boxes[4 * p + 2],
                tree.boxes[4 * p + 3],
            ),
    ensures
        can_measure_from_point(tree, limit, metric, x, y),
{
    lemma_packed_trees_are_stored_by_levels(tree);
    assert forall|l: int, p: int| #[trigger] tree.in_level(l, p) implies {
        let bbox = tree.bbox(p);
        metric.distance_to_bbox_ok(x, y, bbox[0], bbox[1], bbox[2], bbox[3])
    } by {
        tree.lemma_levels_not_empty(l);
        tree.lemma_levels_ascend(0, l);
        tree.lemma_levels_ascend(l, tree.top());
        let side = tree.boxes[4 * p];
    }
}

/// Whether `dist` is an answer of the metric for the query and the geometry that the accessor gives
/// for an item, or of its largest distance where the accessor gives none.
pub open spec fn measures_geometry<
    N: IndexableNum,
    G,
    M: DistanceMetric<N, G> + ?Sized,
    A: GeometryAccessor<G> + ?Sized,
>(query: &G, metric: &M, accessor: &A, index: u32, dist: N) -> bool {
    ||| exists|geometry: &G|
        {
            &&& #[trigger] call_ensures(
                A::get_geometry,
                (accessor, index as usize),
                Some(geometry),
            )
            &&& call_ensures(M::distance_to_geometry, (metric, query, geometry), dist)
        }
    ||| {
        &&& call_ensures(A::get_geometry, (accessor, index as usize), None)
        &&& call_ensures(M::max_distance, (metric,), dist)
    }
}

/// The distances that geometries are measured at are those of the geometries of the items.
proof fn lemma_geometries_are_measured<
    N: IndexableNum,
    G,
    M: DistanceMetric<N, G> + ?Sized,
    A: GeometryAccessor<G> + ?Sized,
>(tree: TreeView<N>, query: &G, metric: &M, accessor: &A, p: int, answer: Option<N>)
    requires
        (measure_from_geometry(tree, query, metric, accessor).item)(p, answer),
    ensures
        answer is Some,
        measures_geometry(query, metric, accessor, tree.indices[p] as u32, answer->0),
{
    let index = tree.indices[p] as u32;
    let given = choose|given: Option<&G>|
        {
            &&& #[trigger] call_ensures(A::get_geometry, (accessor, index as usize), given)
            &&& match given {
                Some(geometry) => call_ensures(
                    M::distance_to_geometry,
                    (metric, query, geometry),
                    answer->0,
                ),
                None => call_ensures(M::max_distance, (metric,), answer->0),
            }
        };
    if given is Some {
        assert(call_ensures(A::get_geometry, (accessor, index as usize), Some(given->0)));
    }
}

/// A search from a geometry ranks the items by the distances of their geometries, and of items
/// without one by the largest distance of the metric, up to the limit of the options, or else one
/// that the metric gives as its largest. It does so wherever the metric gives no more for the box of
/// a node than the distance of an item below it.
pub proof fn lemma_geometries_rank_items<
    N: IndexableNum,
    G,
    M: DistanceMetric<N, G> + ?Sized,
    A: GeometryAccessor<G> + ?Sized,
>(
    tree: TreeView<N>,
    options: NeighborsOptions<N>,
    query: &G,
    metric: &M,
    accessor: &A,
    dist: spec_fn(int) -> N,
    results: Seq<(u32, N)>,
) -> (max: N)
    requires
        tree.boxes.len() > 0,
        is_stored_by_levels(tree),
        forall|p: int, given: N|
            0 <= p < tree.num_items && #[trigger] measures_geometry(
                query,
                metric,
                accessor,
                tree.indices[p] as u32,
                given,
            ) ==> given == dist(p),
        forall|l: int, p: int, q: int, bound: N|
            0 < l && #[trigger] is_below(tree, l, p, q) && #[trigger] call_ensures(
                M::distance_geometry_to_bbox,
                (
                    metric,
                    query,
                    tree.boxes[4 * q],
                    tree.boxes[4 * q + 1],
                    tree.boxes[4 * q + 2],
                    tree.boxes[4 * q + 3],
                ),
                bound,
            ) ==> bound.rank() <= dist(p).rank(),
        finds_by_metric(
            tree,
            measure_from_geometry(tree, query, metric, accessor),
            options,
            metric,
            results,
        ),
    ensures
        options.max_distance is Some ==> max == options.max_distance->0,
        options.max_distance is None ==> call_ensures(M::max_distance, (metric,), max),
        are_ranked(tree, |p: int| Some(dist(p)), max, options, results),
{
    let measure = measure_from_geometry(tree, query, metric, accessor);
    let max = choose|max: N|
        {
            &&& #[trigger] max_distance_may_be(options, metric, max)
            &&& tree.finds(measure, options.up_to(max), results)
        };
    let exact = |p: int| Some(dist(p));
    assert forall|p: int, answer: Option<N>|
        0 <= p < tree.num_items && #[trigger] (measure.item)(p, answer) implies answer == exact(
        p,
    ) by {
        lemma_geometries_are_measured(tree, query, metric, accessor, p, answer);
    }
    assert forall|l: int, p: int, q: int, bound: N|
        0 < l && #[trigger] is_below(tree, l, p, q) && exact(p) is Some
            && #[trigger] (measure.node)(q, bound) implies bound.rank() <= exact(p)->0.rank() by {
        assert(stands_in(tree, l, q)) by {
            let c = choose|c: int| #[trigger]
                is_child(tree, l, q, c) && is_below(tree, l - 1, p, c);
        }
        assert(call_ensures(
            M::distance_geometry_to_bbox,
            (
                metric,
                query,
                tree.boxes[4 * q],
                tree.boxes[4 * q + 1],
                tree.boxes[4 * q + 2],
                tree.boxes[4 * q + 3],
            ),
            bound,
        ));
    }
    lemma_finds_ranks(tree, measure, options.up_to(max), exact, results);
    max
}

/// Whatever the metric answers, each result of a search from a geometry has the insertion index of
/// an item, and a distance that the metric gives for the geometry of that item, or its largest where
/// the item has none.
pub proof fn lemma_geometries_answer<
    N: IndexableNum,
    G,
    M: DistanceMetric<N, G> + ?Sized,
    A: GeometryAccessor<G> + ?Sized,
>(
    tree: TreeView<N>,
    options: NeighborsOptions<N>,
    query: &G,
    metric: &M,
    accessor: &A,
    results: Seq<(u32, N)>,
    i: int,
)
    requires
        tree.boxes.len() > 0,
        is_stored_by_levels(tree),
        finds_by_metric(
            tree,
            measure_from_geometry(tree, query, metric, accessor),
            options,
            metric,
            results,
        ),
        0 <= i < results.len(),
    ensures
        measures_geometry(query, metric, accessor, results[i].0, results[i].1),
        options.max_distance is Some ==> results[i].1.rank() <= options.max_distance->0.rank(),
        exists|p: int|
            0 <= p < tree.num_items && results[i].0 == (#[trigger] tree.indices[p]) as u32,
{
    let measure = measure_from_geometry(tree, query, metric, accessor);
    let max = choose|max: N|
        {
            &&& #[trigger] max_distance_may_be(options, metric, max)
            &&& tree.finds(measure, options.up_to(max), results)
        };
    let limited = options.up_to(max);
    let (answers, items) = choose|answers: Map<int, Option<N>>, items: Seq<int>|
        {
            &&& measure.gives(tree, answers)
            &&& #[trigger] tree.may_find(limited, answers, items)
            &&& results == tree.answers_at(answers, items)
        };
    let p = items[i];
    assert(answers.contains_key(p));
    assert((measure.item)(p, answers[p]));
    lemma_geometries_are_measured(tree, query, metric, accessor, p, answers[p]);
    assert(results[i].0 == tree.indices[p] as u32);
}

/// The square of how far the point `(x, y)` is from the box of node `p`.
pub open spec fn squared_gap_to<N: IndexableNum>(tree: TreeView<N>, x: N, y: N, p: int) -> int {
    squared_gap(
        x,
        y,
        tree.boxes[4 * p],
        tree.boxes[4 * p + 1],
        tree.boxes[4 * p + 2],
        tree.boxes[4 * p + 3],
    )
}

/// Arithmetic that is that of numbers moves with its operands.
proof fn lemma_exact_arithmetic_is_monotone<N: IndexableNum>()
    requires
        counts_exactly::<N>(),
    ensures
        arithmetic_is_monotone::<N>(),
{
    assert forall|a: N, b: N|
        N::spec_zero().rank() <= a.rank() <= b.rank() && a.times_ok(a) && b.times_ok(b) implies (
    #[trigger] a.spec_times(a)).rank() <= (#[trigger] b.spec_times(b)).rank() by {
        lemma_squares_grow(a.rank(), b.rank());
    }
}

/// Whether the items of a tree rank by how far a point is from their boxes, up to the given distance
/// from it: the squares of both are compared.
pub open spec fn is_ranking_from_point<N: IndexableNum>(
    tree: TreeView<N>,
    x: N,
    y: N,
    max_results: Option<usize>,
    max_distance: Option<N>,
    items: Seq<int>,
) -> bool {
    is_ranking(
        tree,
        |p: int| Some(squared_gap_to(tree, x, y, p)),
        match max_distance {
            Some(max) => max.rank() * max.rank(),
            None => N::spec_max_value().rank(),
        },
        max_results,
        false,
        items,
    )
}

/// The squared distances to boxes are the squares of the gaps, where these fit.
proof fn lemma_gaps_are_measured<N: IndexableNum>(tree: TreeView<N>, x: N, y: N)
    requires
        counts_exactly::<N>(),
        tree.boxes.len() > 0,
        is_stored_by_levels(tree),
        forall|p: int|
            0 <= p && 4 * p < tree.boxes.len() ==> fits::<N>(#[trigger] squared_gap_to(tree, x, y, p)),
    ensures
        forall|p: int|
            0 <= p < tree.num_nodes() ==> squared_distance_ok(x, y, #[trigger] tree.bbox(p))
                && squared_distance_to(x, y, tree.bbox(p)).rank() == squared_gap_to(tree, x, y, p),
{
    lemma_nodes_are_stored(tree);
    assert forall|p: int| 0 <= p < tree.num_nodes() implies squared_distance_ok(
        x,
        y,
        #[trigger] tree.bbox(p),
    ) && squared_distance_to(x, y, tree.bbox(p)).rank() == squared_gap_to(tree, x, y, p) by {
        assert(fits::<N>(squared_gap_to(tree, x, y, p)));
        lemma_squared_distance_is_gap(
            x,
            y,
            tree.boxes[4 * p],
            tree.boxes[4 * p + 1],
            tree.boxes[4 * p + 2],
            tree.boxes[4 * p + 3],
        );
        assert(tree.bbox(p) =~= [
            tree.boxes[4 * p],
            tree.boxes[4 * p + 1],
            tree.boxes[4 * p + 2],
            tree.boxes[4 * p + 3],
        ]);
    }
}

/// A search from a point ranks the items by how far the point is from their boxes, up to the given
/// number of results and the given distance, which is inclusive; below zero it lets nothing be found.
/// It can be made wherever the squares of the distances to all boxes fit.
pub proof fn lemma_neighbors_rank_items<N: IndexableNum, T: RTreeIndex<N>>(
    index: &T,
    x: N,
    y: N,
    max_results: Option<usize>,
    max_distance: Option<N>,
    results: Vec<u32>,
)
    requires
        counts_exactly::<N>(),
        index.tree().boxes.len() > 0,
        is_stored_by_levels(index.tree()),
        nodes_hold_children(index.tree()),
        items_have_points(index.tree()),
        forall|p: int|
            0 <= p && 4 * p < index.tree().boxes.len() ==> fits::<N>(
                #[trigger] squared_gap_to(index.tree(), x, y, p),
            ),
        call_ensures(T::neighbors, (index, x, y, max_results, max_distance), results),
    ensures
        call_requires(T::neighbors, (index, x, y, max_results, max_distance)),
        max_distance is Some && max_distance->0.rank() < 0 ==> results@.len() == 0,
        max_distance is None || max_distance->0.rank() >= 0 ==> exists|items: Seq<int>|
            {
                &&& #[trigger] is_ranking_from_point(
                    index.tree(),
                    x,
                    y,
                    max_results,
                    max_distance,
                    items,
                )
                &&& results@.len() == items.len()
                &&& forall|i: int|
                    0 <= i < items.len() ==> #[trigger] results@[i]
                        == index.tree().indices[items[i]] as u32
            },
{
    let tree = index.tree();
    lemma_exact_arithmetic_is_monotone::<N>();
    lemma_nodes_enclose_children(tree);
    lemma_nodes_are_stored(tree);
    lemma_gaps_are_measured(tree, x, y);
    let options = squared_options(max_results, max_distance);
    assert(can_measure_squared(tree, options.limit(), x, y)) by {
        assert forall|l: int, p: int| #[trigger] tree.in_level(l, p) implies squared_distance_ok(
            x,
            y,
            tree.bbox(p),
        ) by {
            tree.lemma_levels_not_empty(l);
            tree.lemma_levels_ascend(0, l);
            tree.lemma_levels_ascend(l, tree.top());
        }
    }
    if max_distance is None || max_distance->0.rank() >= 0 {
        let exact = squared_distances(tree, x, y);
        assert(items_are_proper(tree)) by {
            assert forall|p: int| 0 <= p < tree.num_items implies {
                let bbox = #[trigger] tree.bbox(p);
                bbox[0].rank() <= bbox[2].rank() && bbox[1].rank() <= bbox[3].rank()
            } by {
                assert(tree.boxes[4 * p].rank() <= tree.boxes[4 * p + 2].rank());
            }
        }
        let items = choose|items: Seq<int>|
            {
                &&& #[trigger] tree.nearest_items(options, exact, items)
                &&& tree.ties_by_insertion(options.limit(), exact, items)
                &&& results@ == tree.items_at(items)
            };
        lemma_nearest_is_ranking(tree, options, exact, items);
        let limit = match max_distance {
            Some(max) => max.rank() * max.rank(),
            None => N::spec_max_value().rank(),
        };
        let key = |p: int| Some(squared_gap_to(tree, x, y, p));
        let old_key = keys_of(exact);
        let old_limit = limit_of(options).rank();
        assert forall|p: int| 0 <= p < tree.num_items implies #[trigger] takes_part(key, limit, p)
            == takes_part(old_key, old_limit, p) && key(p) == old_key(p) by {
            let d = squared_distance_to(x, y, tree.bbox(p));
            assert(d.rank() == squared_gap_to(tree, x, y, p));
            assert(d.rank() <= N::spec_max_value().rank());
            if max_distance is Some {
                let max = max_distance->0;
                assert(max.times_ok(max) == fits::<N>(max.rank() * max.rank()));
                if !max.times_ok(max) {
                    assert(max.rank() * max.rank() > N::spec_max_value().rank()) by {
                        let largest = N::spec_max_value();
                        lemma_squares_grow(0, max.rank());
                        if max.rank() * max.rank() <= largest.rank() {
                            assert(fits::<N>(max.rank() * max.rank()));
                        }
                    }
                }
            }
        }
        assert forall|i: int| 0 <= i < items.len() implies 0 <= #[trigger] items[i]
            < tree.num_items && takes_part(key, limit, items[i]) && key(items[i]) == old_key(
            items[i],
        ) by {
            assert(takes_part(old_key, old_limit, items[i]));
            assert(takes_part(key, limit, items[i]) == takes_part(old_key, old_limit, items[i]));
        }
        assert forall|p: int|
            0 <= p < tree.num_items && #[trigger] takes_part(key, limit, p) implies takes_part(
            old_key,
            old_limit,
            p,
        ) by {}
        assert(is_ranking(tree, key, limit, max_results, false, items));
        assert(is_ranking_from_point(tree, x, y, max_results, max_distance, items));
    }
}

/// Whatever else fits, each result of a search from a point is the insertion index of another item,
/// no more of them are given than asked for, and none is farther than the given distance, where the
/// square of its own fits.
pub proof fn lemma_neighbors_are_within_reach<N: IndexableNum, T: RTreeIndex<N>>(
    index: &T,
    x: N,
    y: N,
    max_results: Option<usize>,
    max_distance: Option<N>,
    results: Vec<u32>,
) -> (items: Seq<int>)
    requires
        counts_exactly::<N>(),
        index.tree().boxes.len() > 0,
        is_stored_by_levels(index.tree()),
        call_ensures(T::neighbors, (index, x, y, max_results, max_distance), results),
    ensures
        max_results is Some ==> results@.len() <= max_results->0,
        items.len() == results@.len(),
        forall|i: int, j: int| 0 <= i < j < items.len() ==> #[trigger] items[i] != #[trigger] items[j],
        forall|i: int|
            0 <= i < items.len() ==> {
                &&& 0 <= #[trigger] items[i] < index.tree().num_items
                &&& results@[i] == index.tree().indices[items[i]] as u32
                &&& max_distance is Some && fits::<N>(
                    squared_gap_to(index.tree(), x, y, items[i]),
                ) ==> max_distance->0.rank() >= 0 && squared_gap_to(index.tree(), x, y, items[i])
                    <= max_distance->0.rank() * max_distance->0.rank()
            },
{
    let tree = index.tree();
    lemma_packed_trees_are_stored_by_levels(tree);
    lemma_nodes_are_stored(tree);
    if is_negative(max_distance) {
        Seq::empty()
    } else {
        let options = squared_options(max_results, max_distance);
        let measure = squared_measure(tree, x, y);
        let ranked = choose|ranked: Seq<(u32, N)>|
            {
                &&& #[trigger] tree.finds(measure, options, ranked)
                &&& results@ == indices_of(ranked)
            };
        let (answers, items) = choose|answers: Map<int, Option<N>>, items: Seq<int>|
            {
                &&& measure.gives(tree, answers)
                &&& #[trigger] tree.may_find(options, answers, items)
                &&& ranked == tree.answers_at(answers, items)
            };
        assert forall|i: int| 0 <= i < items.len() implies {
            &&& 0 <= #[trigger] items[i] < tree.num_items
            &&& results@[i] == tree.indices[items[i]] as u32
            &&& max_distance is Some && fits::<N>(squared_gap_to(tree, x, y, items[i]))
                ==> max_distance->0.rank() >= 0 && squared_gap_to(tree, x, y, items[i])
                <= max_distance->0.rank() * max_distance->0.rank()
        } by {
            let p = items[i];
            assert(answers.contains_key(p));
            assert((measure.item)(p, answers[p]));
            assert(results@[i] == ranked[i].0);
            if max_distance is Some && fits::<N>(squared_gap_to(tree, x, y, p)) {
                let max = max_distance->0;
                lemma_squared_distance_is_gap(
                    x,
                    y,
                    tree.boxes[4 * p],
                    tree.boxes[4 * p + 1],
                    tree.boxes[4 * p + 2],
                    tree.boxes[4 * p + 3],
                );
                assert(tree.bbox(p) =~= corners(tree, p));
                let d = squared_distance_to(x, y, tree.bbox(p));
                assert(d.rank() <= N::spec_max_value().rank());
                assert(max.times_ok(max) == fits::<N>(max.rank() * max.rank()));
                if !max.times_ok(max) {
                    lemma_squares_grow(0, max.rank());
                    let largest = N::spec_max_value();
                    if max.rank() * max.rank() <= largest.rank() {
                        assert(fits::<N>(max.rank() * max.rank()));
                    }
                }
            }
        }
        items
    }
}

/// On any numbers, a search from a point gives the insertion indices of what a search by the squared
/// distance gives, up to the square of the given distance, in the same order.
pub proof fn lemma_neighbors_are_found_by_squared_distance<N: IndexableNum, T: RTreeIndex<N>>(
    index: &T,
    x: N,
    y: N,
    max_results: Option<usize>,
    max_distance: Option<N>,
    results: Vec<u32>,
    options: NeighborsOptions<N>,
    ranked: Seq<(u32, N)>,
)
    requires
        index.tree().boxes.len() > 0,
        is_stored_by_levels(index.tree()),
        forall|p: int, q: int|
            0 <= p < q < index.tree().num_items ==> #[trigger] index.tree().indices[p]
                != #[trigger] index.tree().indices[q],
        max_distance is Some ==> max_distance->0.rank() >= N::spec_zero().rank()
            && max_distance->0.times_ok(max_distance->0),
        options.k == max_results,
        !options.include_tie_breakers,
        max_distance is None ==> options.max_distance is None,
        max_distance is Some ==> options.max_distance == Some(
            max_distance->0.spec_times(max_distance->0),
        ),
        call_ensures(T::neighbors, (index, x, y, max_results, max_distance), results),
        finds_by_metric(
            index.tree(),
            measure_from_point(index.tree(), &SimpleSquaredDistance, x, y),
            options,
            &SimpleSquaredDistance,
            ranked,
        ),
    ensures
        results@.len() == ranked.len(),
        forall|i: int| 0 <= i < results@.len() ==> #[trigger] results@[i] == ranked[i].0,
{
    let tree = index.tree();
    lemma_packed_trees_are_stored_by_levels(tree);
    let measure = measure_from_point(tree, &SimpleSquaredDistance, x, y);
    let squared = squared_measure(tree, x, y);
    assert(options == squared_options(max_results, max_distance));
    let max = choose|max: N|
        {
            &&& #[trigger] max_distance_may_be(options, &SimpleSquaredDistance, max)
            &&& tree.finds(measure, options.up_to(max), ranked)
        };
    assert(max == options.limit());
    tree.lemma_finds_by_other(measure, squared, options.up_to(max), ranked);
    tree.lemma_finds_up_to(squared, options, ranked);
    let other = choose|other: Seq<(u32, N)>|
        {
            &&& #[trigger] tree.finds(squared, options, other)
            &&& results@ == indices_of(other)
        };
    let answer = |p: int| Some(squared_distance_to(x, y, tree.bbox(p)));
    assert(squared.answers_by(tree, answer));
    assert(tree.items_are_distinct());
    tree.lemma_outcome_is_unique(options, answer, ranked, other);
}

/// An empty tree has no neighbors, and of any tree none are found where none are wanted.
pub proof fn lemma_no_neighbors<N: IndexableNum, T: RTreeIndex<N>>(
    index: &T,
    x: N,
    y: N,
    max_results: Option<usize>,
    max_distance: Option<N>,
    results: Vec<u32>,
)
    requires
        index.tree().boxes.len() == 0 || max_results == Some(0usize),
        call_ensures(T::neighbors, (index, x, y, max_results, max_distance), results),
    ensures
        results@.len() == 0,
        index.tree().boxes.len() == 0 || is_stored_by_levels(index.tree()) ==> call_requires(
            T::neighbors,
            (index, x, y, max_results, max_distance),
        ),
{
    lemma_packed_trees_are_stored_by_levels(index.tree());
}

/// Options hold what they were made with: one result unless told otherwise, no limit, and no ties.
pub proof fn lemma_options_hold<D: IndexableNum>(
    plain: NeighborsOptions<D>,
    default: NeighborsOptions<D>,
    k: usize,
    some: NeighborsOptions<D>,
    all: NeighborsOptions<D>,
)
    requires
        call_ensures(NeighborsOptions::<D>::new, (), plain),
        call_ensures(<NeighborsOptions<D> as Default>::default, (), default),
        call_ensures(NeighborsOptions::<D>::k, (k,), some),
        call_ensures(NeighborsOptions::<D>::all, (), all),
    ensures
        plain.k == Some(1usize),
        default == plain,
        some.k == Some(k),
        all.k is None,
        plain.max_distance is None && some.max_distance is None && all.max_distance is None,
        !plain.include_tie_breakers && !some.include_tie_breakers && !all.include_tie_breakers,
{
}

/// Setting one of the options changes that one and no other.
pub proof fn lemma_options_are_set<D: IndexableNum>(
    options: NeighborsOptions<D>,
    max: D,
    limited: NeighborsOptions<D>,
    ties: bool,
    tied: NeighborsOptions<D>,
)
    requires
        call_ensures(NeighborsOptions::<D>::max_distance, (options, max), limited),
        call_ensures(NeighborsOptions::<D>::include_tie_breakers, (options, ties), tied),
    ensures
        limited.max_distance == Some(max),
        limited.k == options.k,
        limited.include_tie_breakers == options.include_tie_breakers,
        tied.include_tie_breakers == ties,
        tied.k == options.k,
        tied.max_distance == options.max_distance,
{
}

/// Geometries in a slice are found at their place in it, and nowhere else.
pub proof fn lemma_geometries_stand_in_slices<'a, G>(
    geometries: &'a [G],
    accessor: SliceGeometryAccessor<'a, G>,
    item_index: usize,
    geometry: Option<&G>,
)
    requires
        call_ensures(SliceGeometryAccessor::<'a, G>::new, (geometries,), accessor),
        call_ensures(
            <SliceGeometryAccessor<'a, G> as GeometryAccessor<G>>::get_geometry,
            (&accessor, item_index),
            geometry,
        ),
    ensures
        geometry is Some <==> item_index < geometries@.len(),
        geometry is Some ==> *geometry->0 == geometries@[item_index as int],
{
}

/// The squared distance has no limit of its own: no value is above it.
pub proof fn lemma_squared_distance_has_no_limit<N: IndexableNum>(max: N, dist: N)
    requires
        counts_exactly::<N>(),
        call_ensures(
            <SimpleSquaredDistance as SimpleDistanceMetric<N>>::max_distance,
            (&SimpleSquaredDistance,),
            max,
        ),
    ensures
        dist.rank() <= max.rank(),
{
}

} // verus!
