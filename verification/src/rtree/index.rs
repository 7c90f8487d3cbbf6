//! Searching and accessing the data of a tree.

use crate::error::GeoIndexError;
use crate::indices::Indices;
use crate::num::{arithmetic_is_monotone, IndexableNum};
use crate::rtree::distance::{
    bbox_distance_may_be, can_measure_from_point, can_measure_squared, finds_by_metric,
    geometry_distance_may_be, is_negative, items_are_proper, lemma_squared_distance_is_exact,
    max_distance_may_be, measure_from_geometry, measure_from_point, squared_distance_ok,
    squared_distances, squared_measure, squared_options, DistanceMetric, GeometryAccessor,
    SimpleDistanceMetric, SimpleSquaredDistance,
};
use crate::rtree::layout::TreeView;
use crate::rtree::metadata::RTreeMetadata;
use crate::rtree::neighbors::{can_measure_by, measure_by, Measure};
use crate::rtree::options::NeighborsOptions;
use crate::rtree::progress::{take_items, Progress};
use crate::rtree::queue::{NeighborNode, NeighborQueue};
use crate::rtree::search::{lemma_distinct_ids_ascend, positions, sort_ids, Rect};
use crate::rtree::util::upper_bound;
use std::collections::VecDeque;
use vstd::prelude::*;

verus! {

/// Whether `metadata` describes `tree`.
pub open spec fn describes<N>(metadata: RTreeMetadata, tree: TreeView<N>) -> bool {
    &&& tree.num_items == metadata.spec_num_items()
    &&& tree.node_size == metadata.spec_node_size()
    &&& bounds_are(metadata.spec_level_bounds(), tree.level_bounds)
}

/// Whether the level bounds have the given values.
pub open spec fn bounds_are(bounds: Seq<usize>, values: Seq<int>) -> bool {
    &&& bounds.len() == values.len()
    &&& forall|i: int| 0 <= i < bounds.len() ==> #[trigger] bounds[i] == values[i]
}

impl<N> TreeView<N> {
    /// The level bounds of a packed tree ascend.
    pub proof fn lemma_bounds_ascend(self)
        requires
            self.levels_packed(),
        ensures
            forall|i: int, j: int|
                0 <= i <= j < self.num_levels() ==> self.level_bounds[i] <= self.level_bounds[j],
    {
        assert forall|i: int, j: int| 0 <= i <= j < self.num_levels() implies self.level_bounds[i]
            <= self.level_bounds[j] by {
            self.lemma_levels_ascend(i, j);
            assert(self.level_bounds[i] % 4 == 0 && self.level_bounds[j] % 4 == 0);
        }
    }

    /// Where in the boxes a level starts.
    pub open spec fn level_offset(self, level: int) -> int {
        if level <= 0 {
            0
        } else {
            self.level_bounds[level - 1]
        }
    }

    /// The boxes of the levels below the given one, level by level.
    pub open spec fn boxes_below(self, level: int) -> Seq<N>
        decreases level,
    {
        if level <= 0 {
            Seq::empty()
        } else {
            self.boxes_below(level - 1) + self.boxes.subrange(
                self.level_offset(level - 1),
                self.level_bounds[level - 1],
            )
        }
    }

    /// The boxes below a level end where it starts.
    proof fn lemma_boxes_below(self, level: int)
        requires
            self.levels_packed(),
            0 <= level <= self.num_levels(),
        ensures
            0 <= self.level_offset(level) <= self.boxes.len(),
            self.boxes_below(level) == self.boxes.subrange(0, self.level_offset(level)),
        decreases level,
    {
        if level > 0 {
            self.lemma_boxes_below(level - 1);
            self.lemma_level_offset(level - 1);
        }
        assert(self.boxes_below(level) =~= self.boxes.subrange(0, self.level_offset(level)));
    }

    /// The boxes of all levels, level by level, are the boxes of the tree.
    pub proof fn lemma_levels_make_up_the_tree(self)
        requires
            self.levels_packed(),
        ensures
            self.boxes_below(self.num_levels()) == self.boxes,
    {
        self.lemma_boxes_below(self.num_levels());
        assert(self.level_bounds[self.top()] % 4 == 0);
        assert(self.boxes.subrange(0, self.boxes.len() as int) =~= self.boxes);
    }

    /// The levels of a packed tree stand within its boxes.
    pub proof fn lemma_level_offset(self, level: int)
        requires
            self.levels_packed(),
            0 <= level < self.num_levels(),
        ensures
            0 <= self.level_offset(level) <= self.level_bounds[level] <= self.boxes.len(),
    {
        self.lemma_levels_ascend(level, self.top());
        assert(self.level_bounds[level] % 4 == 0);
        if level > 0 {
            self.lemma_levels_not_empty(level - 1);
            self.lemma_levels_ascend(level - 1, level);
            assert(self.level_bounds[level - 1] % 4 == 0);
        } else {
            self.lemma_levels_not_empty(level);
        }
    }

    /// The first bound behind a node is the end of its level.
    pub proof fn lemma_bound_of(self, level: int, p: int, i: int)
        requires
            self.levels_packed(),
            self.in_level(level, p),
            0 <= i < self.num_levels(),
            forall|j: int| 0 <= j < i ==> self.level_bounds[j] <= 4 * p,
            4 * p < self.level_bounds[i] || i == self.top(),
        ensures
            i == level,
    {
        assert(self.level_bounds[level] % 4 == 0 && self.level_bounds[i] % 4 == 0);
        if i < level {
            self.lemma_levels_ascend(i, level);
        }
    }
}

/// Where the run of siblings that starts at `node_index` ends.
pub(crate) fn end_of_run<N>(
    node_index: usize,
    node_size: usize,
    level_bounds: &[usize],
    Ghost(tree): Ghost<TreeView<N>>,
    Ghost(level): Ghost<int>,
) -> (end: usize)
    requires
        tree.boxes.len() > 0,
        tree.is_packed(),
        node_size == tree.node_size,
        node_size <= u16::MAX,
        bounds_are(level_bounds@, tree.level_bounds),
        node_index % 4 == 0,
        tree.in_level(level, node_index as int / 4),
    ensures
        end == 4 * tree.run_end(level, node_index as int / 4),
        node_index < end <= tree.boxes.len(),
{
    let ghost p = node_index as int / 4;
    proof {
        tree.lemma_bounds_ascend();
        tree.lemma_levels_ascend(level, tree.top());
        assert(isize::MAX + 4 * u16::MAX <= usize::MAX);
    }
    let bound = upper_bound(node_index, level_bounds);
    proof {
        let i = choose|i: int|
            {
                &&& 0 <= i < level_bounds@.len()
                &&& #[trigger] level_bounds@[i] == bound
                &&& forall|j: int| 0 <= j < i ==> level_bounds@[j] <= node_index
                &&& node_index < bound || i == level_bounds@.len() - 1
            };
        assert forall|j: int| 0 <= j < i implies tree.level_bounds[j] <= 4 * p by {
            assert(level_bounds@[j] <= node_index);
        }
        tree.lemma_bound_of(level, p, i);
        assert(tree.level_bounds[level] % 4 == 0);
    }
    let end: usize = node_index + node_size * 4;
    if bound < end {
        bound
    } else {
        end
    }
}

/// A trait for searching and accessing data out of an RTree.
pub trait RTreeIndex<N: IndexableNum>: Sized {
    /// The contents of the tree.
    open spec fn tree(&self) -> TreeView<N> {
        arbitrary::<spec_fn(Self) -> TreeView<N>>()(*self)
    }

    /// A slice representing all the bounding boxes of all elements contained within this tree,
    /// including the bounding boxes of each internal node.
    fn boxes(&self) -> (boxes: &[N])
        ensures
            boxes@ == self.tree().boxes,
    ;

    /// A slice representing the indices within the `boxes` slice, including internal nodes.
    fn indices(&self) -> (indices: Indices<'_>)
        ensures
            indices@ == self.tree().indices,
            indices.is_wide() == self.tree().wide_indices,
    ;

    /// Access the metadata describing this RTree
    fn metadata(&self) -> (metadata: &RTreeMetadata)
        ensures
            describes(*metadata, self.tree()),
    ;

    /// The total number of items contained in this RTree.
    fn num_items(&self) -> (num_items: u32)
        ensures
            num_items == self.tree().num_items,
    {
        self.metadata().num_items()
    }

    /// The total number of nodes in this RTree, including both leaf and intermediate nodes.
    fn num_nodes(&self) -> (num_nodes: usize)
        ensures
            num_nodes == if self.tree().num_levels() == 0 {
                0
            } else {
                self.tree().end(self.tree().top())
            },
            self.tree().levels_packed() ==> num_nodes == self.tree().num_nodes(),
    {
        self.metadata().num_nodes()
    }

    /// The maximum number of elements in each node.
    fn node_size(&self) -> (node_size: u16)
        ensures
            node_size == self.tree().node_size,
    {
        self.metadata().node_size()
    }

    /// The offsets into [RTreeIndex::boxes] where each level's boxes starts and ends. The tree is
    /// laid out bottom-up, and there's an implicit initial 0. So the boxes of the lowest level of
    /// the tree are located from `boxes[0..self.level_bounds()[0]]`.
    fn level_bounds(&self) -> (level_bounds: &[usize])
        ensures
            bounds_are(level_bounds@, self.tree().level_bounds),
    {
        self.metadata().level_bounds()
    }

    /// The number of levels (height) of the tree.
    fn num_levels(&self) -> (num_levels: usize)
        ensures
            num_levels == self.tree().num_levels(),
    {
        self.level_bounds().len()
    }

    /// The tree is laid out from bottom to top. Level 0 is the _base_ of the tree. Each integer
    /// higher is one level higher of the tree.
    fn boxes_at_level(&self, level: usize) -> (result: Result<&[N], GeoIndexError>)
        requires
            self.tree().levels_packed() || (level < self.tree().num_levels()
                ==> self.tree().level_offset(level as int) <= self.tree().level_bounds[level as int]
                <= self.tree().boxes.len()),
        ensures
            match result {
                Ok(boxes) => {
                    &&& level < self.tree().num_levels()
                    &&& boxes@ == self.tree().boxes.subrange(
                        self.tree().level_offset(level as int),
                        self.tree().level_bounds[level as int],
                    )
                },
                Err(error) => {
                    &&& level >= self.tree().num_levels()
                    &&& error.message() == "Level out of bounds"@
                },
            },
    {
        let level_bounds = self.level_bounds();
        proof {
            if self.tree().levels_packed() && level < self.tree().num_levels() {
                self.tree().lemma_level_offset(level as int);
            }
        }
        if level >= level_bounds.len() {
            return Err(GeoIndexError::General("Level out of bounds".to_owned()));
        }
        let result = if level == 0 {
            &self.boxes()[0..level_bounds[0]]
        } else {
            &self.boxes()[level_bounds[level - 1]..level_bounds[level]]
        };
        Ok(result)
    }

    /// Search an RTree given the provided bounding box.
    ///
    /// Results are the indexes of the inserted objects in insertion order.
    fn search(&self, min_x: N, min_y: N, max_x: N, max_y: N) -> (results: Vec<u32>)
        requires
            self.tree().is_packed(),
        ensures
            forall|i: int, j: int| 0 <= i < j < results@.len() ==> results@[i] <= results@[j],
            self.tree().items_are_distinct() ==> forall|i: int, j: int|
                0 <= i < j < results@.len() ==> results@[i] < results@[j],
            self.tree().boxes.len() == 0 ==> results@.len() == 0,
            self.tree().boxes.len() > 0 ==> results@.to_multiset() == self.tree().items_reached(
                (Rect { min_x, min_y, max_x, max_y }),
            ).to_multiset(),
            self.tree().boxes.len() > 0 && self.tree().encloses() ==> results@.to_multiset()
                == self.tree().items_meeting((Rect { min_x, min_y, max_x, max_y })).to_multiset(),
    {
        let mut results = search_stored(
            self.boxes(),
            self.indices(),
            self.metadata(),
            Rect { min_x, min_y, max_x, max_y },
            Ghost(self.tree()),
        );
        let ghost stored = results@;
        sort_ids(&mut results);
        proof {
            let tree = self.tree();
            if tree.boxes.len() > 0 && tree.items_are_distinct() {
                tree.lemma_levels_ascend(0, tree.top());
                tree.lemma_items_are_found_once((Rect { min_x, min_y, max_x, max_y }));
                lemma_distinct_ids_ascend(stored, results@);
            }
        }
        results
    }

    /// Search items in order of distance from the given point.
    ///
    /// This method uses Euclidean distance by default. For other distance metrics,
    /// use [`RTreeIndex::neighbors_with_distance`].
    fn neighbors(&self, x: N, y: N, max_results: Option<usize>, max_distance: Option<N>) -> (results:
        Vec<u32>)
        requires
            self.tree().is_packed(),
            max_results != Some(0usize) && self.tree().boxes.len() > 0 && !is_negative(max_distance)
                ==> can_measure_squared(
                self.tree(),
                squared_options(max_results, max_distance).limit(),
                x,
                y,
            ),
        ensures
            max_results == Some(0usize) || self.tree().boxes.len() == 0 || is_negative(max_distance)
                ==> results@.len() == 0,
            self.tree().boxes.len() > 0 && !is_negative(max_distance) ==> exists|
                ranked: Seq<(u32, N)>,
            |
                {
                    &&& #[trigger] self.tree().finds(
                        squared_measure(self.tree(), x, y),
                        squared_options(max_results, max_distance),
                        ranked,
                    )
                    &&& results@ == indices_of(ranked)
                },
            self.tree().boxes.len() > 0 && !is_negative(max_distance) && self.tree().encloses()
                && items_are_proper(self.tree()) && arithmetic_is_monotone::<N>() && (forall|
                p: int,
            |
                0 <= p < self.tree().num_nodes() ==> squared_distance_ok(
                    x,
                    y,
                    #[trigger] self.tree().bbox(p),
                )) ==> exists|items: Seq<int>|
                {
                    &&& #[trigger] self.tree().nearest_items(
                        squared_options(max_results, max_distance),
                        squared_distances(self.tree(), x, y),
                        items,
                    )
                    &&& self.tree().ties_by_insertion(
                        squared_options(max_results, max_distance).limit(),
                        squared_distances(self.tree(), x, y),
                        items,
                    )
                    &&& results@ == self.tree().items_at(items)
                },
    {
        let mut results: Vec<u32> = Vec::new();
        let ghost wanted = squared_options(max_results, max_distance);
        if max_results.is_some() && max_results.unwrap() == 0 {
            proof {
                let tree = self.tree();
                lemma_none_wanted(tree, squared_measure(tree, x, y), wanted);
                assert(indices_of(Seq::<(u32, N)>::empty()) =~= results@);
                let none = Seq::<int>::empty();
                assert(tree.nearest_items(wanted, squared_distances(tree, x, y), none));
                assert(tree.items_at(none) =~= results@);
            }
            return results;
        }
        if self.boxes().is_empty() {
            return results;
        }
        // Distances are compared by their squares, and so is the limit.
        let max_distance = match max_distance {
            Some(max) => {
                if max.is_less(N::zero()) {
                    return results;
                }
                if max.can_square() {
                    Some(max.times(max))
                } else {
                    Some(N::max_value())
                }
            },
            None => None,
        };
        let options = NeighborsOptions { k: max_results, max_distance, include_tie_breakers: false };
        let metric = SimpleSquaredDistance;
        proof {
            let tree = self.tree();
            if max_results != Some(0usize) && tree.boxes.len() > 0 {
                assert forall|max: N| #[trigger]
                    max_distance_may_be(options, &metric, max) implies can_measure_from_point(
                    tree,
                    max,
                    &metric,
                    x,
                    y,
                ) by {
                    let measure = measure_from_point(tree, &metric, x, y);
                    assert forall|l: int, p: int| #[trigger]
                        tree.in_level(l, p) && measure.may_ask(tree, max, l, p) implies {
                        let bbox = tree.bbox(p);
                        metric.distance_to_bbox_ok(x, y, bbox[0], bbox[1], bbox[2], bbox[3])
                    } by {
                        measure.lemma_may_ask_by_other(
                            squared_measure(tree, x, y),
                            tree,
                            max,
                            l,
                            p,
                        );
                        assert(squared_distance_ok(x, y, tree.bbox(p)));
                    }
                }
            }
        }
        let ranked = self.neighbors_with_simple_distance(x, y, options, &metric);
        let mut i: usize = 0;
        while i < ranked.len()
            invariant
                i <= ranked@.len(),
                results@ == indices_of(ranked@.take(i as int)),
            decreases ranked@.len() - i,
        {
            results.push(ranked[i].0);
            i += 1;
            assert(results@ =~= indices_of(ranked@.take(i as int)));
        }
        proof {
            assert(ranked@.take(i as int) =~= ranked@);
            let tree = self.tree();
            if tree.boxes.len() > 0 {
                let max = choose|max: N|
                    {
                        &&& #[trigger] max_distance_may_be(options, &metric, max)
                        &&& tree.finds(
                            measure_from_point(tree, &metric, x, y),
                            options.up_to(max),
                            ranked@,
                        )
                    };
                assert(max == options.limit());
                let squared = squared_measure(tree, x, y);
                tree.lemma_finds_by_other(
                    measure_from_point(tree, &metric, x, y),
                    squared,
                    options.up_to(max),
                    ranked@,
                );
                tree.lemma_finds_up_to(squared, options, ranked@);
                if tree.encloses() && items_are_proper(tree) && arithmetic_is_monotone::<N>() && (
                forall|p: int|
                    0 <= p < tree.num_nodes() ==> squared_distance_ok(
                        x,
                        y,
                        #[trigger] tree.bbox(p),
                    )) {
                    lemma_squared_distance_is_exact(tree, x, y);
                    let exact = squared_distances(tree, x, y);
                    assert(tree.nearest(options, exact, ranked@));
                    let items = choose|items: Seq<int>|
                        {
                            &&& #[trigger] tree.nearest_items(options, exact, items)
                            &&& tree.ties_by_insertion(options.limit(), exact, items)
                            &&& ranked@ == Seq::new(
                                items.len(),
                                |i: int| (tree.indices[items[i]] as u32, exact(items[i])->0),
                            )
                        };
                    assert(results@ =~= tree.items_at(items));
                }
            }
        }
        results
    }

    /// Search items in order of distance from the given point using a simple distance metric.
    ///
    /// This is the base method for distance-based neighbor searches that works without geometries.
    ///
    /// # Arguments
    /// * `x` - The x coordinate of the query point
    /// * `y` - The y coordinate of the query point
    /// * `options` - Neighbor search options
    /// * `distance_metric` - The distance metric to use
    ///
    /// # Returns
    /// Vector of tuples (item_index, distance) ordered by increasing distance
    fn neighbors_with_simple_distance<M: SimpleDistanceMetric<N> + ?Sized>(
        &self,
        x: N,
        y: N,
        options: NeighborsOptions<N>,
        distance_metric: &M,
    ) -> (results: Vec<(u32, N)>)
        requires
            self.tree().is_packed(),
            options.k != Some(0usize) && self.tree().boxes.len() > 0 ==> forall|max: N| #[trigger]
                max_distance_may_be(options, distance_metric, max) ==> can_measure_from_point(
                    self.tree(),
                    max,
                    distance_metric,
                    x,
                    y,
                ),
        ensures
            options.k == Some(0usize) || self.tree().boxes.len() == 0 ==> results@.len() == 0,
            self.tree().boxes.len() > 0 ==> finds_by_metric(
                self.tree(),
                measure_from_point(self.tree(), distance_metric, x, y),
                options,
                distance_metric,
                results@,
            ),
    {
        let max = match options.max_distance {
            Some(max) => max,
            None => distance_metric.max_distance(),
        };
        let limited = NeighborsOptions { max_distance: Some(max), ..options };
        assert(max_distance_may_be(options, distance_metric, max));
        let bbox_distance = |bbox: [N; 4]| -> (dist: N)
            requires
                distance_metric.distance_to_bbox_ok(x, y, bbox[0], bbox[1], bbox[2], bbox[3]),
            ensures
                bbox_distance_may_be(distance_metric, x, y, bbox, dist),
            { distance_metric.distance_to_bbox(x, y, bbox[0], bbox[1], bbox[2], bbox[3]) };
        let item_distance = |_index: u32, bbox: [N; 4]| -> (answer: Option<N>)
            requires
                distance_metric.distance_to_bbox_ok(x, y, bbox[0], bbox[1], bbox[2], bbox[3]),
            ensures
                answer is Some && bbox_distance_may_be(distance_metric, x, y, bbox, answer->0),
            { Some(distance_metric.distance_to_bbox(x, y, bbox[0], bbox[1], bbox[2], bbox[3])) };
        proof {
            let tree = self.tree();
            if options.k != Some(0usize) && tree.boxes.len() > 0 {
                assert(can_measure_from_point(tree, max, distance_metric, x, y));
                let by_callbacks = measure_by(tree, bbox_distance, item_distance);
                assert forall|l: int, p: int| #[trigger]
                    tree.in_level(l, p) && by_callbacks.may_ask(tree, max, l, p) implies if l > 0 {
                    call_requires(bbox_distance, (tree.bbox(p),))
                } else {
                    call_requires(item_distance, (tree.indices[p] as u32, tree.bbox(p)))
                } by {
                    by_callbacks.lemma_may_ask_by_other(
                        measure_from_point(tree, distance_metric, x, y),
                        tree,
                        max,
                        l,
                        p,
                    );
                }
            }
        }
        let results = self.neighbors_with_callbacks(limited, bbox_distance, item_distance);
        proof {
            let tree = self.tree();
            if tree.boxes.len() > 0 {
                tree.lemma_finds_by_other(
                    measure_by(tree, bbox_distance, item_distance),
                    measure_from_point(tree, distance_metric, x, y),
                    limited,
                    results@,
                );
            }
        }
        results
    }

    /// Search items in increasing order of a caller-defined distance, without a geometry dependency.
    ///
    /// `bbox_distance` receives an internal node's bounding box as
    /// `[min_x, min_y, max_x, max_y]` and must return a lower bound on the distance
    /// to every item in that node. `item_distance` receives an item's original
    /// insertion index and bounding box and returns its exact distance, or `None`
    /// to exclude it. Both callbacks may capture the query and external geometry
    /// storage, including data decoded on demand.
    ///
    /// Distances and `max_distance` must use the same units and ordering, and must
    /// not be NaN. The distance type may differ from the tree's coordinate type.
    /// The distance limit is inclusive; `None` uses the distance type's maximum
    /// value. `options.k` limits the number of results (zero returns no items).
    /// Set `options.include_tie_breakers` to include all items tied at rank k.
    /// Returns `(insertion_index, distance)` pairs ordered by increasing distance.
    /// Items with equal distances may be returned in any order; they come in that of
    /// their insertion.
    ///
    /// Correct ranking and pruning require valid lower bounds. For spherical
    /// distances, use spherical bounds that account for poles and the antimeridian;
    /// a planar closest point on a longitude/latitude box is not generally valid.
    /// Returning zero is always a safe bound for nonnegative distances, but may
    /// require evaluating every item. Indexed boxes must enclose the full geometry
    /// under the chosen metric, including any extrema along curved edges.
    fn neighbors_with_callbacks<D, B, I>(
        &self,
        options: NeighborsOptions<D>,
        bbox_distance: B,
        item_distance: I,
    ) -> (results: Vec<(u32, D)>) where
        D: IndexableNum,
        B: FnMut([N; 4]) -> D,
        I: FnMut(u32, [N; 4]) -> Option<D>,

        requires
            self.tree().is_packed(),
            options.k != Some(0usize) && self.tree().boxes.len() > 0 ==> can_measure_by(
                self.tree(),
                options.limit(),
                bbox_distance,
                item_distance,
            ),
        ensures
            options.k == Some(0usize) || self.tree().boxes.len() == 0 ==> results@.len() == 0,
            self.tree().boxes.len() > 0 ==> self.tree().finds(
                measure_by(self.tree(), bbox_distance, item_distance),
                options,
                results@,
            ),
    {
        let ghost tree = self.tree();
        let ghost measure = measure_by(tree, bbox_distance, item_distance);
        let mut bbox_distance = bbox_distance;
        let mut item_distance = item_distance;
        let mut results: Vec<(u32, D)> = Vec::new();
        if options.k.is_some() && options.k.unwrap() == 0 {
            proof {
                lemma_none_wanted(tree, measure, options);
            }
            return results;
        }
        let boxes = self.boxes();
        if boxes.is_empty() {
            return results;
        }
        let indices = self.indices();
        let max_distance = match options.max_distance {
            Some(max) => max,
            None => D::max_value(),
        };
        let num_items = self.num_items() as usize;
        let node_size = self.node_size() as usize;
        let level_bounds = self.level_bounds();
        let mut queue: NeighborQueue<D> = NeighborQueue::new();
        let mut kth_distance: Option<D> = None;
        let ghost mut level = tree.top();
        let ghost mut done: int = 0;
        let ghost mut s = Progress::<D>::empty();
        let ghost limited = options.up_to(options.limit());
        proof {
            indices.lemma_in_range();
            tree.lemma_levels_ascend(0, level);
            tree.lemma_levels_not_empty(level);
            Progress::<D>::lemma_starts(tree, measure, max_distance);
            assert forall|answer: spec_fn(int) -> Option<D>| s.with_answers(
                max_distance,
                answer,
                tree.start(level),
                tree.end(level),
            ).is_passed(tree, limited, answer) by {
                assert(Progress::<D>::after(tree, limited, answer, 0) == s.with_answers(
                    max_distance,
                    answer,
                    tree.start(level),
                    tree.end(level),
                ));
            }
            assert(results@ =~= tree.answers_at(s.answers, s.items));
        }
        let mut outer_node_index: Option<usize> = boxes.len().checked_sub(4);
        while outer_node_index.is_some()
            invariant
                tree == self.tree(),
                measure == measure_by(tree, bbox_distance, item_distance),
                can_measure_by(tree, max_distance, bbox_distance, item_distance),
                boxes@ == tree.boxes,
                indices@ == tree.indices,
                forall|i: int|
                    0 <= i < tree.indices.len() ==> 0 <= #[trigger] tree.indices[i] <= u32::MAX,
                num_items == tree.num_items,
                node_size == tree.node_size,
                node_size <= u16::MAX,
                4 * num_items <= boxes@.len(),
                bounds_are(level_bounds@, tree.level_bounds),
                tree.boxes.len() > 0,
                tree.is_packed(),
                max_distance == options.limit(),
                queue.wf(),
                s.queue_is(tree, queue@),
                s.tallies(tree, options, results@, kth_distance),
                forall|exact: spec_fn(int) -> Option<D>| #[trigger]
                    measure.is_exact(tree, exact) ==> s.in_order(tree, exact),
                limited == options.up_to(max_distance),
                outer_node_index is Some && tree.items_are_distinct() ==> forall|
                    answer: spec_fn(int) -> Option<D>,
                | #[trigger]
                    measure.answers_by(tree, answer) ==> s.with_answers(
                        max_distance,
                        answer,
                        outer_node_index->0 as int / 4,
                        tree.run_end(level, outer_node_index->0 as int / 4),
                    ).is_passed(tree, limited, answer),
                outer_node_index is None && tree.items_are_distinct() ==> {
                    &&& s.is_over(tree, limited)
                    &&& forall|answer: spec_fn(int) -> Option<D>| #[trigger]
                        measure.answers_by(tree, answer) ==> s.is_passed(tree, limited, answer)
                },
                outer_node_index is Some ==> {
                    let node_index = outer_node_index->0 as int;
                    &&& node_index % 4 == 0
                    &&& tree.in_level(level, node_index / 4)
                    &&& s.wf(
                        tree,
                        measure,
                        max_distance,
                        node_index / 4,
                        tree.run_end(level, node_index / 4),
                    )
                },
                outer_node_index is None ==> {
                    &&& s.is_done(options)
                    &&& s.wf(tree, measure, max_distance, done, done)
                },
            decreases
                    if outer_node_index is Some {
                        1int
                    } else {
                        0
                    },
                    tree.num_nodes() - s.answers.dom().len(),
        {
            let node_index = outer_node_index.unwrap();
            let ghost run = node_index as int / 4;
            // find the end index of the node
            let end = end_of_run::<N>(
                node_index,
                node_size,
                level_bounds,
                Ghost(tree),
                Ghost(level),
            );
            // add child nodes to the queue
            let mut pos = node_index;
            let ghost asked = s.answers.dom().len();
            while pos < end
                invariant
                    tree == self.tree(),
                    measure == measure_by(tree, bbox_distance, item_distance),
                    can_measure_by(tree, max_distance, bbox_distance, item_distance),
                    boxes@ == tree.boxes,
                    indices@ == tree.indices,
                    forall|i: int|
                        0 <= i < tree.indices.len() ==> 0 <= #[trigger] tree.indices[i] <= u32::MAX,
                    num_items == tree.num_items,
                    4 * num_items <= boxes@.len(),
                    tree.boxes.len() > 0,
                    tree.is_packed(),
                    max_distance == options.limit(),
                    tree.in_level(level, run),
                    node_index == 4 * run,
                    end == 4 * tree.run_end(level, run),
                    node_index <= pos <= end,
                    pos % 4 == 0,
                    queue.wf(),
                    s.queue_is(tree, queue@),
                    s.tallies(tree, options, results@, kth_distance),
                    forall|exact: spec_fn(int) -> Option<D>| #[trigger]
                        measure.is_exact(tree, exact) ==> s.in_order(tree, exact),
                    s.wf(tree, measure, max_distance, pos as int / 4, end as int / 4),
                    s.answers.dom().len() == asked + (pos - node_index) / 4,
                    tree.items_are_distinct() ==> forall|answer: spec_fn(int) -> Option<D>|
                        #[trigger]
                        measure.answers_by(tree, answer) ==> s.with_answers(
                            max_distance,
                            answer,
                            pos as int / 4,
                            end as int / 4,
                        ).is_passed(tree, limited, answer),
                decreases end - pos,
            {
                let ghost p = pos as int / 4;
                proof {
                    tree.lemma_levels_ascend(level, tree.top());
                    tree.lemma_levels_ascend(0, level);
                    assert(tree.in_level(level, p));
                }
                assert(pos >> 2 == pos / 4) by (bit_vector);
                let index = indices.get(pos >> 2);
                let bbox = [boxes[pos], boxes[pos + 1], boxes[pos + 2], boxes[pos + 3]];
                assert(bbox == tree.bbox(p));
                proof {
                    s.lemma_may_ask(tree, measure, max_distance, p, end as int / 4, level, p);
                }
                let is_item = node_index < num_items * 4;
                let answer: Option<D> = if is_item {
                    item_distance(index as u32, bbox)
                } else {
                    Some(bbox_distance(bbox))
                };
                let ghost s0 = s;
                let ghost queue0 = queue@;
                proof {
                    s0.lemma_with_answer(tree, measure, max_distance, p, end as int / 4, answer);
                    s = s0.with_answer(max_distance, p, answer);
                    assert(!s0.answers.contains_key(p));
                }
                match answer {
                    Some(dist) => {
                        if !max_distance.is_less(dist) {
                            queue.push(NeighborNode { index, is_item, dist, pos: Ghost(p) });
                        }
                    },
                    None => {},
                }
                proof {
                    let hi = end as int / 4;
                    s0.lemma_queue_with_answer(
                        tree,
                        measure,
                        max_distance,
                        p,
                        hi,
                        answer,
                        queue0,
                    );
                    s0.lemma_tallies_with_answer(
                        tree,
                        measure,
                        options,
                        p,
                        hi,
                        answer,
                        results@,
                        kth_distance,
                    );
                    s0.lemma_answers_counted(tree, measure, max_distance, p, hi);
                    assert(s.answers.dom() =~= s0.answers.dom().insert(p));
                    assert forall|given: spec_fn(int) -> Option<D>| #[trigger]
                        measure.answers_by(tree, given) && tree.items_are_distinct() implies s.with_answers(
                        max_distance,
                        given,
                        p + 1,
                        hi,
                    ).is_passed(tree, limited, given) by {
                        if is_item {
                            assert((measure.item)(p, answer));
                        } else {
                            assert((measure.node)(p, answer->0));
                        }
                        assert(answer == given(p));
                        assert(s0.with_answers(max_distance, given, p, hi) == s.with_answers(
                            max_distance,
                            given,
                            p + 1,
                            hi,
                        ));
                    }
                }
                pos += 4;
            }
            let taken = take_items::<N, D>(
                &mut queue,
                &mut results,
                &mut kth_distance,
                options,
                Ghost(tree),
                Ghost(measure),
                Ghost(end as int / 4),
                Ghost(s),
            );
            proof {
                s = taken.1@;
            }
            let ghost s1 = s;
            let ghost queue1 = queue@;
            proof {
                done = end as int / 4;
                s1.lemma_answers_counted(tree, measure, max_distance, done, done);
            }
            outer_node_index = if taken.0 {
                None
            } else {
                match queue.pop() {
                    Some(node) => {
                        proof {
                            let q = node.pos@;
                            assert(queue1.count(node) > 0);
                            assert(s1.queued.contains(q) && node == s1.entry(tree, q));
                            assert(s1.answers.contains_key(q));
                            let l = tree.lemma_has_level(q);
                            s1.lemma_with_opened(tree, measure, max_distance, done, l, q);
                            s1.lemma_queue_with_opened(tree, q, queue1);
                            assert forall|r: int| #[trigger] s1.queued.contains(r) implies s1.entry(
                                tree,
                                q,
                            ).no_later(s1.entry(tree, r)) by {
                                assert(queue1.count(s1.entry(tree, r)) == 1);
                                assert(queue1.contains(s1.entry(tree, r)));
                            }
                            s1.lemma_is_first(tree, measure, max_distance, done, q);
                            assert forall|answer: spec_fn(int) -> Option<D>| #[trigger]
                                measure.answers_by(tree, answer)
                                    && tree.items_are_distinct() implies s1.with_children(
                                tree,
                                max_distance,
                                answer,
                                q,
                            ).is_passed(tree, limited, answer) by {
                                s1.lemma_one_first(tree, measure, max_distance, done, q);
                                s1.lemma_step_is_passed(tree, limited, answer);
                                assert(!s1.is_over(tree, limited));
                            }
                            assert(tree.in_level(tree.level_of(q), q));
                            tree.lemma_one_level(tree.level_of(q), l, q);
                            s = s1.with_opened(q);
                            level = l - 1;
                        }
                        Some(node.index)
                    },
                    None => {
                        proof {
                            assert forall|q: int| !#[trigger] s.queued.contains(q) by {
                                assert(queue1.count(s.entry(tree, q)) == 0);
                            }
                        }
                        None
                    },
                }
            };
        }
        proof {
            s.lemma_found(tree, measure, options, done, results@, kth_distance);
            assert forall|exact: spec_fn(int) -> Option<D>| #[trigger]
                measure.is_exact(tree, exact) implies tree.nearest(options, exact, results@) by {
                s.lemma_nearest(tree, measure, options, done, results@, kth_distance, exact);
            }
            assert forall|answer: spec_fn(int) -> Option<D>| #[trigger]
                measure.answers_by(tree, answer) && tree.items_are_distinct() implies tree.is_outcome(
                options,
                answer,
                results@,
            ) by {
                assert(s.is_passed(tree, limited, answer));
            }
        }
        results
    }

    /// Search items in order of distance from the given point using a custom distance metric.
    ///
    /// This method allows you to specify a custom distance calculation method, such as
    /// Euclidean, Haversine, or Spheroid distance.
    ///
    /// # Arguments
    /// * `x` - The x coordinate of the query point
    /// * `y` - The y coordinate of the query point
    /// * `options` - Neighbor search options
    /// * `distance_metric` - The distance metric to use
    ///
    /// # Returns
    /// Vector of tuples (item_index, distance) ordered by increasing distance
    fn neighbors_with_distance<G, M: DistanceMetric<N, G> + ?Sized>(
        &self,
        x: N,
        y: N,
        options: NeighborsOptions<N>,
        distance_metric: &M,
    ) -> (results: Vec<(u32, N)>)
        requires
            self.tree().is_packed(),
            options.k != Some(0usize) && self.tree().boxes.len() > 0 ==> forall|max: N| #[trigger]
                max_distance_may_be(options, distance_metric, max) ==> can_measure_from_point(
                    self.tree(),
                    max,
                    distance_metric,
                    x,
                    y,
                ),
        ensures
            options.k == Some(0usize) || self.tree().boxes.len() == 0 ==> results@.len() == 0,
            self.tree().boxes.len() > 0 ==> finds_by_metric(
                self.tree(),
                measure_from_point(self.tree(), distance_metric, x, y),
                options,
                distance_metric,
                results@,
            ),
    {
        self.neighbors_with_simple_distance(x, y, options, distance_metric)
    }

    /// Search items in order of distance from a query geometry using a distance metric and geometry accessor.
    ///
    /// This method allows searching with geometry-to-geometry distance calculations.
    /// The distance metric defines how distances are computed, and the geometry accessor
    /// provides access to the actual geometries by index.
    ///
    /// # Arguments
    /// * `query_geometry` - The query geometry
    /// * `options` - Neighbor search options
    /// * `distance_metric` - The distance metric to use
    /// * `accessor` - Provides access to geometries by index
    ///
    /// # Returns
    /// Vector of tuples (item_index, distance) ordered by increasing distance
    fn neighbors_geometry<
        G,
        M: DistanceMetric<N, G> + ?Sized,
        A: GeometryAccessor<G> + ?Sized,
    >(
        &self,
        query_geometry: &G,
        options: NeighborsOptions<N>,
        distance_metric: &M,
        accessor: &A,
    ) -> (results: Vec<(u32, N)>)
        requires
            self.tree().is_packed(),
        ensures
            options.k == Some(0usize) || self.tree().boxes.len() == 0 ==> results@.len() == 0,
            self.tree().boxes.len() > 0 ==> finds_by_metric(
                self.tree(),
                measure_from_geometry(self.tree(), query_geometry, distance_metric, accessor),
                options,
                distance_metric,
                results@,
            ),
    {
        let max = match options.max_distance {
            Some(max) => max,
            None => distance_metric.max_distance(),
        };
        let limited = NeighborsOptions { max_distance: Some(max), ..options };
        assert(max_distance_may_be(options, distance_metric, max));
        let bbox_distance = |bbox: [N; 4]| -> (dist: N)
            ensures
                call_ensures(
                    M::distance_geometry_to_bbox,
                    (distance_metric, query_geometry, bbox[0], bbox[1], bbox[2], bbox[3]),
                    dist,
                ),
            {
                distance_metric.distance_geometry_to_bbox(
                    query_geometry,
                    bbox[0],
                    bbox[1],
                    bbox[2],
                    bbox[3],
                )
            };
        let item_distance = |index: u32, _bbox: [N; 4]| -> (answer: Option<N>)
            ensures
                answer is Some && geometry_distance_may_be(
                    query_geometry,
                    distance_metric,
                    accessor,
                    index,
                    answer->0,
                ),
            {
                Some(
                    match accessor.get_geometry(index as usize) {
                        Some(item_geom) => distance_metric.distance_to_geometry(
                            query_geometry,
                            item_geom,
                        ),
                        None => distance_metric.max_distance(),
                    },
                )
            };
        let results = self.neighbors_with_callbacks(limited, bbox_distance, item_distance);
        proof {
            let tree = self.tree();
            if tree.boxes.len() > 0 {
                tree.lemma_finds_by_other(
                    measure_by(tree, bbox_distance, item_distance),
                    measure_from_geometry(tree, query_geometry, distance_metric, accessor),
                    limited,
                    results@,
                );
            }
        }
        results
    }
}

/// The items that a search reaches from the root, in the order in which they are stored.
pub(crate) fn search_stored<N: IndexableNum>(
    boxes: &[N],
    indices: Indices<'_>,
    metadata: &RTreeMetadata,
    query: Rect<N>,
    Ghost(tree): Ghost<TreeView<N>>,
) -> (results: Vec<u32>)
    requires
        boxes@ == tree.boxes,
        indices@ == tree.indices,
        describes(*metadata, tree),
        tree.is_packed(),
    ensures
        tree.boxes.len() == 0 ==> results@.len() == 0,
        tree.boxes.len() > 0 ==> results@ == tree.items_reached(query),
        tree.boxes.len() > 0 && tree.encloses() ==> results@ == tree.items_meeting(query),
        forall|i: int| 0 <= i < tree.indices.len() ==> 0 <= #[trigger] tree.indices[i] <= u32::MAX,
{
    let min_x = query.min_x;
    let min_y = query.min_y;
    let max_x = query.max_x;
    let max_y = query.max_y;
    let mut results: Vec<u32> = Vec::new();
    if boxes.is_empty() {
        return results;
    }
    let num_items = metadata.num_items() as usize;
    let node_size = metadata.node_size() as usize;
    let level_bounds = metadata.level_bounds();
    let ghost mut level = tree.top();
    let ghost mut runs = tree.runs_visited(query, level);
    let ghost mut done: int = 0;
    proof {
        tree.lemma_levels_ascend(0, level);
        lemma_search_starts(tree, query);
    }
    let mut queue: VecDeque<usize> = VecDeque::with_capacity(node_size);
    let mut outer_node_index: Option<usize> = boxes.len().checked_sub(4);
    while outer_node_index.is_some()
        invariant
            query == (Rect { min_x, min_y, max_x, max_y }),
            boxes@ == tree.boxes,
            indices@ == tree.indices,
            num_items == tree.num_items,
            node_size == tree.node_size,
            node_size <= u16::MAX,
            4 * num_items <= boxes@.len(),
            bounds_are(level_bounds@, tree.level_bounds),
            tree.boxes.len() > 0,
            tree.is_packed(),
            outer_node_index is Some ==> visiting(
                tree,
                query,
                level,
                runs,
                done,
                outer_node_index->Some_0,
                queue@,
                results@,
            ),
            outer_node_index is None ==> results@ == tree.items_reached(query),
        decreases
                if outer_node_index is Some {
                    level + 1
                } else {
                    0
                },
                runs.len() - done,
    {
        let node_index = outer_node_index.unwrap();
        let ghost results0 = results@;
        let ghost queue0 = queue@;
        let ghost run = runs[done];
        proof {
            lemma_run_visited(tree, query, level, done);
        }
        // find the end index of the node
        let end = end_of_run::<N>(
            node_index,
            node_size,
            level_bounds,
            Ghost(tree),
            Ghost(level),
        );
        // search through child nodes
        let mut pos = node_index;
        let ghost mut met: Seq<int> = Seq::empty();
        while pos < end
            invariant
                    query == (Rect { min_x, min_y, max_x, max_y }),
                boxes@ == tree.boxes,
                indices@ == tree.indices,
                num_items == tree.num_items,
                4 * num_items <= boxes@.len(),
                tree.boxes.len() > 0,
                tree.is_packed(),
                tree.in_level(level, run),
                node_index == 4 * run,
                end == 4 * tree.run_end(level, run),
                node_index <= pos <= end,
                pos % 4 == 0,
                met == positions(|p: int| tree.meets(query, p), run, pos as int / 4),
                level > 0 ==> results@ == results0 && queue@ == queue0 + offsets(
                    tree.child_runs(level, met),
                ),
                level == 0 ==> queue@ == queue0 && results@ == results0 + tree.items_at(met),
            decreases end - pos,
        {
            let ghost p = pos as int / 4;
            proof {
                tree.lemma_levels_ascend(level, tree.top());
                tree.lemma_levels_ascend(0, level);
                assert(tree.in_level(level, p));
            }
            let node_min_x = boxes[pos];
            let node_min_y = boxes[pos + 1];
            let node_max_x = boxes[pos + 2];
            let node_max_y = boxes[pos + 3];
            let ghost met0 = met;
            proof {
                met = positions(|p: int| tree.meets(query, p), run, p + 1);
            }
            // check if the query box disjoint with the node box
            if !(max_x.is_less(node_min_x) || max_y.is_less(node_min_y) || node_max_x.is_less(
                min_x,
            ) || node_max_y.is_less(min_y)) {
                assert(pos >> 2 == pos / 4) by (bit_vector);
                let index = indices.get(pos >> 2);
                if node_index >= num_items * 4 {
                    queue.push_back(index);  // node; add it to the search queue
                } else {
                    results.push(index as u32);  // leaf item
                }
                proof {
                    assert(tree.meets(query, p));
                    assert(met == met0.push(p));
                    assert(tree.child_runs(level, met) =~= tree.child_runs(level, met0).push(
                        tree.first_child(level, p),
                    ));
                    assert(queue0 + offsets(tree.child_runs(level, met)) =~= (queue0 + offsets(
                        tree.child_runs(level, met0),
                    )).push((4 * tree.first_child(level, p)) as usize));
                    assert(results0 + tree.items_at(met) =~= (results0 + tree.items_at(
                        met0,
                    )).push(tree.indices[p] as u32));
                }
            }
            pos += 4;
        }
        let ghost queue1 = queue@;
        outer_node_index = queue.pop_front();
        proof {
            lemma_run_done(tree, query, level, done, queue0, queue1, results0, results@);
            if done + 1 < runs.len() {
                done = done + 1;
            } else if level > 0 {
                level = level - 1;
                runs = tree.runs_visited(query, level);
                done = 0;
            }
        }
    }
    proof {
        if tree.encloses() {
            tree.lemma_search_is_complete(query);
        }
    }
    results
}

/// The insertion indices of items that were found with their distances.
pub open spec fn indices_of<N>(ranked: Seq<(u32, N)>) -> Seq<u32> {
    Seq::new(ranked.len(), |i: int| ranked[i].0)
}

/// Where in the boxes the given nodes stand.
spec fn offsets(nodes: Seq<int>) -> Seq<usize> {
    Seq::new(nodes.len(), |i: int| (4 * nodes[i]) as usize)
}

/// The state of a search before it looks at a run of siblings: `done` runs of the level have been
/// looked at, the others are in the queue, and behind them stand the children of what has been
/// reached in the level so far.
spec fn visiting<N: IndexableNum>(
    tree: TreeView<N>,
    query: Rect<N>,
    level: int,
    runs: Seq<int>,
    done: int,
    node_index: usize,
    queue: Seq<usize>,
    results: Seq<u32>,
) -> bool {
    let met = tree.met_in_runs(query, level, runs.take(done));
    &&& 0 <= level < tree.num_levels()
    &&& runs == tree.runs_visited(query, level)
    &&& 0 <= done < runs.len()
    &&& node_index == 4 * runs[done]
    &&& queue == offsets(
        runs.skip(done + 1) + if level > 0 {
            tree.child_runs(level, met)
        } else {
            Seq::empty()
        },
    )
    &&& results == if level > 0 {
        Seq::empty()
    } else {
        tree.items_at(met)
    }
}

/// A search starts at the root.
proof fn lemma_search_starts<N: IndexableNum>(tree: TreeView<N>, query: Rect<N>)
    requires
        tree.levels_packed(),
        tree.boxes.len() <= isize::MAX,
    ensures
        tree.boxes.len() >= 4,
        visiting(
            tree,
            query,
            tree.top(),
            tree.runs_visited(query, tree.top()),
            0,
            (tree.boxes.len() - 4) as usize,
            Seq::empty(),
            Seq::empty(),
        ),
{
    let top = tree.top();
    let runs = tree.runs_visited(query, top);
    tree.lemma_levels_not_empty(top);
    assert(runs.take(0) =~= Seq::<int>::empty());
    assert(tree.met_in_runs(query, top, runs.take(0)) =~= Seq::<int>::empty());
    assert(tree.child_runs(top, Seq::<int>::empty()) =~= Seq::<int>::empty());
    assert(tree.items_at(Seq::<int>::empty()) =~= Seq::<u32>::empty());
    assert(runs.skip(1) =~= Seq::<int>::empty());
    assert(offsets(runs.skip(1) + Seq::<int>::empty()) =~= Seq::<usize>::empty());
}

/// What a search does after it has looked at a run of siblings: the next run comes from the queue,
/// and an empty queue means that everything has been reached.
proof fn lemma_run_done<N: IndexableNum>(
    tree: TreeView<N>,
    query: Rect<N>,
    level: int,
    done: int,
    queue0: Seq<usize>,
    queue: Seq<usize>,
    results0: Seq<u32>,
    results: Seq<u32>,
)
    requires
        tree.levels_packed(),
        tree.boxes.len() <= isize::MAX,
        visiting(
            tree,
            query,
            level,
            tree.runs_visited(query, level),
            done,
            (4 * tree.runs_visited(query, level)[done]) as usize,
            queue0,
            results0,
        ),
        ({
            let run = tree.runs_visited(query, level)[done];
            let met = positions(|p: int| tree.meets(query, p), run, tree.run_end(level, run));
            if level > 0 {
                results == results0 && queue == queue0 + offsets(tree.child_runs(level, met))
            } else {
                queue == queue0 && results == results0 + tree.items_at(met)
            }
        }),
    ensures
        queue.len() == 0 ==> results == tree.items_reached(query),
        queue.len() > 0 ==> if done + 1 < tree.runs_visited(query, level).len() {
            visiting(
                tree,
                query,
                level,
                tree.runs_visited(query, level),
                done + 1,
                queue[0],
                queue.drop_first(),
                results,
            )
        } else {
            level > 0 && visiting(
                tree,
                query,
                level - 1,
                tree.runs_visited(query, level - 1),
                0,
                queue[0],
                queue.drop_first(),
                results,
            )
        },
{
    let runs = tree.runs_visited(query, level);
    let run = runs[done];
    let met = positions(|p: int| tree.meets(query, p), run, tree.run_end(level, run));
    let met0 = tree.met_in_runs(query, level, runs.take(done));
    let met1 = tree.met_in_runs(query, level, runs.take(done + 1));
    assert(runs.take(done + 1).drop_last() =~= runs.take(done));
    assert(met1 == met0 + met);
    assert(tree.child_runs(level, met1) =~= tree.child_runs(level, met0) + tree.child_runs(
        level,
        met,
    ));
    assert(tree.items_at(met1) =~= tree.items_at(met0) + tree.items_at(met));
    let next = if level > 0 {
        tree.child_runs(level, met1)
    } else {
        Seq::empty()
    };
    assert(queue =~= offsets(runs.skip(done + 1) + next));
    if done + 1 < runs.len() {
        assert((runs.skip(done + 1) + next)[0] == runs[done + 1]);
        lemma_run_visited(tree, query, level, done + 1);
        tree.lemma_levels_ascend(level, tree.top());
        tree.lemma_levels_not_empty(level);
        assert(queue.drop_first() =~= offsets(runs.skip(done + 2) + next));
    } else {
        assert(runs.take(done + 1) =~= runs);
        assert(runs.skip(done + 1) + next =~= next);
        tree.lemma_runs_visited(query, level);
        assert(met1 == tree.level_reached(query, level));
        if queue.len() == 0 {
            if level > 0 {
                assert(next.len() == 0);
                tree.lemma_nothing_reached(query, level);
                assert(tree.items_reached(query) =~= Seq::<u32>::empty());
            }
        } else {
            assert(level > 0);
            assert(next == tree.runs_visited(query, level - 1));
            lemma_run_visited(tree, query, level - 1, 0);
            tree.lemma_levels_ascend(level - 1, tree.top());
            tree.lemma_levels_not_empty(level - 1);
            assert(next.take(0) =~= Seq::<int>::empty());
            assert(tree.met_in_runs(query, level - 1, next.take(0)) =~= Seq::<int>::empty());
            assert(tree.child_runs(level - 1, Seq::<int>::empty()) =~= Seq::<int>::empty());
            assert(tree.items_at(Seq::<int>::empty()) =~= Seq::<u32>::empty());
            assert(queue.drop_first() =~= offsets(next.skip(1)));
            assert(next.skip(1) + Seq::<int>::empty() =~= next.skip(1));
            assert(results =~= Seq::<u32>::empty());
        }
    }
}

/// A run that a search visits stands in the level, and starts at a child of a node above or at the
/// root.
proof fn lemma_run_visited<N: IndexableNum>(
    tree: TreeView<N>,
    query: Rect<N>,
    level: int,
    i: int,
)
    requires
        tree.levels_packed(),
        0 <= level < tree.num_levels(),
        0 <= i < tree.runs_visited(query, level).len(),
    ensures
        tree.in_level(level, tree.runs_visited(query, level)[i]),
{
    tree.lemma_levels_not_empty(level);
    if level < tree.top() {
        let nodes = tree.level_reached(query, level + 1);
        crate::rtree::search::lemma_positions(
            |p: int| tree.reached(query, level + 1, p),
            tree.start(level + 1),
            tree.end(level + 1),
        );
        assert(nodes.contains(nodes[i]));
        tree.lemma_children(level + 1, nodes[i]);
        assert(tree.in_level(level, tree.first_child(level + 1, nodes[i])));
    }
}

/// Where no items are wanted, none are found.
proof fn lemma_none_wanted<N, D: IndexableNum>(
    tree: TreeView<N>,
    measure: Measure<D>,
    options: NeighborsOptions<D>,
)
    requires
        options.k == Some(0usize),
    ensures
        tree.finds(measure, options, Seq::empty()),
{
    let answers = Map::<int, Option<D>>::empty();
    let items = Seq::<int>::empty();
    assert(tree.may_find(options, answers, items));
    assert(tree.answers_at(answers, items) =~= Seq::empty());
    assert forall|exact: spec_fn(int) -> Option<D>| #[trigger]
        measure.is_exact(tree, exact) implies tree.nearest(
        options,
        exact,
        Seq::<(u32, D)>::empty(),
    ) by {
        assert(tree.nearest_items(options, exact, items));
        assert(Seq::<(u32, D)>::empty() =~= Seq::new(
            items.len(),
            |i: int| (tree.indices[items[i]] as u32, exact(items[i])->0),
        ));
    }
}

} // verus!
