//! Distances between what is searched for and what a tree holds.

use crate::num::{arithmetic_is_monotone, IndexableNum};
use crate::rtree::layout::TreeView;
use crate::rtree::neighbors::Measure;
use crate::rtree::options::NeighborsOptions;
use vstd::prelude::*;

verus! {

/// A simple distance metric trait that doesn't depend on a geometry type.
///
/// This trait is used for basic distance calculations without geometry support.
pub trait SimpleDistanceMetric<N: IndexableNum> {
    /// Whether the distance between the points `(x1, y1)` and `(x2, y2)` can be calculated.
    open spec fn distance_ok(&self, x1: N, y1: N, x2: N, y2: N) -> bool {
        true
    }

    /// Whether the distance from the point `(x, y)` to a box can be calculated.
    open spec fn distance_to_bbox_ok(
        &self,
        x: N,
        y: N,
        min_x: N,
        min_y: N,
        max_x: N,
        max_y: N,
    ) -> bool {
        true
    }

    /// Calculate the distance between two points (x1, y1) and (x2, y2).
    fn distance(&self, x1: N, y1: N, x2: N, y2: N) -> N
        requires
            self.distance_ok(x1, y1, x2, y2),
    ;

    /// Calculate the distance from a point to a bounding box.
    fn distance_to_bbox(&self, x: N, y: N, min_x: N, min_y: N, max_x: N, max_y: N) -> N
        requires
            self.distance_to_bbox_ok(x, y, min_x, min_y, max_x, max_y),
    ;

    /// Return the maximum distance value for this metric.
    fn max_distance(&self) -> (max: N)
        default_ensures
            max == N::spec_max_value(),
    {
        N::max_value()
    }
}

/// A distance metric on geometries of type `G`.
pub trait DistanceMetric<N: IndexableNum, G>: SimpleDistanceMetric<N> {
    /// Calculate the distance between two geometries.
    fn distance_to_geometry(&self, geom1: &G, geom2: &G) -> N;

    /// Calculate a lower bound on the distance from a geometry to what a bounding box holds.
    fn distance_geometry_to_bbox(
        &self,
        geometry: &G,
        min_x: N,
        min_y: N,
        max_x: N,
        max_y: N,
    ) -> N;
}

/// A trait for accessing geometries by index.
///
/// This trait allows different storage strategies for geometries (direct storage,
/// WKB decoding, caching, etc.) to be used with spatial index queries.
pub trait GeometryAccessor<G> {
    /// Get the geometry at the given index.
    ///
    /// # Arguments
    /// * `item_index` - Index of the item to retrieve
    ///
    /// # Returns
    /// A reference to the geometry at the given index, or None if the index is out of bounds
    fn get_geometry(&self, item_index: usize) -> Option<&G>;
}

/// Access to geometries that stand in a slice.
pub struct SliceGeometryAccessor<'a, G> {
    geometries: &'a [G],
}

impl<'a, G> View for SliceGeometryAccessor<'a, G> {
    type V = Seq<G>;

    closed spec fn view(&self) -> Seq<G> {
        self.geometries@
    }
}

impl<'a, G> SliceGeometryAccessor<'a, G> {
    /// Access to the given geometries.
    pub fn new(geometries: &'a [G]) -> (accessor: Self)
        ensures
            accessor@ == geometries@,
    {
        SliceGeometryAccessor { geometries }
    }
}

impl<'a, G> GeometryAccessor<G> for SliceGeometryAccessor<'a, G> {
    fn get_geometry(&self, item_index: usize) -> (geometry: Option<&G>)
        ensures
            match geometry {
                Some(geometry) => item_index < self@.len() && *geometry == self@[item_index as int],
                None => item_index >= self@.len(),
            },
    {
        if item_index < self.geometries.len() {
            Some(&self.geometries[item_index])
        } else {
            None
        }
    }
}

/// How far a value is from a range.
pub open spec fn spec_axis_dist<N: IndexableNum>(k: N, min: N, max: N) -> N {
    if k.rank() < min.rank() {
        min.spec_minus(k)
    } else if k.rank() <= max.rank() {
        N::spec_zero()
    } else {
        k.spec_minus(max)
    }
}

/// Whether the difference can be computed that tells how far a value is from a range.
pub open spec fn axis_dist_ok<N: IndexableNum>(k: N, min: N, max: N) -> bool {
    if k.rank() < min.rank() {
        min.minus_ok(k)
    } else if k.rank() <= max.rank() {
        true
    } else {
        k.minus_ok(max)
    }
}

/// 1D distance from a value to a range.
pub fn axis_dist<N: IndexableNum>(k: N, min: N, max: N) -> (dist: N)
    requires
        axis_dist_ok(k, min, max),
    ensures
        dist == spec_axis_dist(k, min, max),
{
    if k.is_less(min) {
        min.minus(k)
    } else if !max.is_less(k) {
        N::zero()
    } else {
        k.minus(max)
    }
}

/// The sum of two squares.
pub open spec fn sum_of_squares<N: IndexableNum>(dx: N, dy: N) -> N {
    dx.spec_times(dx).spec_plus(dy.spec_times(dy))
}

/// Whether a sum of two squares can be computed.
pub open spec fn sum_of_squares_ok<N: IndexableNum>(dx: N, dy: N) -> bool {
    &&& dx.times_ok(dx)
    &&& dy.times_ok(dy)
    &&& dx.spec_times(dx).plus_ok(dy.spec_times(dy))
}

/// The square of the distance from the point `(x, y)` to a box.
pub open spec fn squared_distance_to<N: IndexableNum>(x: N, y: N, bbox: [N; 4]) -> N {
    sum_of_squares(spec_axis_dist(x, bbox[0], bbox[2]), spec_axis_dist(y, bbox[1], bbox[3]))
}

/// Whether the square of the distance from the point `(x, y)` to a box can be computed.
pub open spec fn squared_distance_ok<N: IndexableNum>(x: N, y: N, bbox: [N; 4]) -> bool {
    &&& axis_dist_ok(x, bbox[0], bbox[2])
    &&& axis_dist_ok(y, bbox[1], bbox[3])
    &&& sum_of_squares_ok(
        spec_axis_dist(x, bbox[0], bbox[2]),
        spec_axis_dist(y, bbox[1], bbox[3]),
    )
}

/// The square of the Euclidean distance. It ranks as the Euclidean distance does and takes no root.
pub struct SimpleSquaredDistance;

impl<N: IndexableNum> SimpleDistanceMetric<N> for SimpleSquaredDistance {
    open spec fn distance_ok(&self, x1: N, y1: N, x2: N, y2: N) -> bool {
        &&& x2.minus_ok(x1)
        &&& y2.minus_ok(y1)
        &&& sum_of_squares_ok(x2.spec_minus(x1), y2.spec_minus(y1))
    }

    open spec fn distance_to_bbox_ok(
        &self,
        x: N,
        y: N,
        min_x: N,
        min_y: N,
        max_x: N,
        max_y: N,
    ) -> bool {
        squared_distance_ok(x, y, [min_x, min_y, max_x, max_y])
    }

    fn distance(&self, x1: N, y1: N, x2: N, y2: N) -> (dist: N)
        ensures
            dist == sum_of_squares(x2.spec_minus(x1), y2.spec_minus(y1)),
    {
        let dx = x2.minus(x1);
        let dy = y2.minus(y1);
        dx.times(dx).plus(dy.times(dy))
    }

    fn distance_to_bbox(&self, x: N, y: N, min_x: N, min_y: N, max_x: N, max_y: N) -> (dist: N)
        ensures
            dist == squared_distance_to(x, y, [min_x, min_y, max_x, max_y]),
    {
        let dx = axis_dist(x, min_x, max_x);
        let dy = axis_dist(y, min_y, max_y);
        dx.times(dx).plus(dy.times(dy))
    }
}

/// Whether a metric may give `dist` as the distance from the point `(x, y)` to a box.
pub open spec fn bbox_distance_may_be<N: IndexableNum, M: SimpleDistanceMetric<N> + ?Sized>(
    metric: &M,
    x: N,
    y: N,
    bbox: [N; 4],
    dist: N,
) -> bool {
    call_ensures(M::distance_to_bbox, (metric, x, y, bbox[0], bbox[1], bbox[2], bbox[3]), dist)
}

/// The distances that a metric gives from the point `(x, y)` to the boxes of a tree.
pub open spec fn measure_from_point<N: IndexableNum, M: SimpleDistanceMetric<N> + ?Sized>(
    tree: TreeView<N>,
    metric: &M,
    x: N,
    y: N,
) -> Measure<N> {
    Measure {
        node: |p: int, bound: N| bbox_distance_may_be(metric, x, y, tree.bbox(p), bound),
        item: |p: int, answer: Option<N>|
            answer is Some && bbox_distance_may_be(metric, x, y, tree.bbox(p), answer->0),
    }
}

/// Whether a metric can give the distances from the point `(x, y)` to the boxes that it may be asked
/// for in a search up to the given distance.
pub open spec fn can_measure_from_point<N: IndexableNum, M: SimpleDistanceMetric<N> + ?Sized>(
    tree: TreeView<N>,
    limit: N,
    metric: &M,
    x: N,
    y: N,
) -> bool {
    forall|l: int, p: int| #[trigger]
        tree.in_level(l, p) && measure_from_point(tree, metric, x, y).may_ask(tree, limit, l, p)
            ==> {
            let bbox = tree.bbox(p);
            metric.distance_to_bbox_ok(x, y, bbox[0], bbox[1], bbox[2], bbox[3])
        }
}

/// Whether `max` is the largest distance at which a search by a metric finds an item: that of the
/// options, or else one that the metric may give.
pub open spec fn max_distance_may_be<N: IndexableNum, M: SimpleDistanceMetric<N> + ?Sized>(
    options: NeighborsOptions<N>,
    metric: &M,
    max: N,
) -> bool {
    match options.max_distance {
        Some(max_distance) => max == max_distance,
        None => call_ensures(M::max_distance, (metric,), max),
    }
}

/// Whether `results` are what a search finds by a metric, up to the distance of the options or else
/// one that the metric may give as its largest.
pub open spec fn finds_by_metric<N: IndexableNum, M: SimpleDistanceMetric<N> + ?Sized>(
    tree: TreeView<N>,
    measure: Measure<N>,
    options: NeighborsOptions<N>,
    metric: &M,
    results: Seq<(u32, N)>,
) -> bool {
    exists|max: N|
        {
            &&& #[trigger] max_distance_may_be(options, metric, max)
            &&& tree.finds(measure, options.up_to(max), results)
        }
}

/// A search without a limit finds what a search up to the largest distance of the metric finds.
pub proof fn lemma_no_limit_is_that_of_the_metric<
    N: IndexableNum,
    M: SimpleDistanceMetric<N> + ?Sized,
>(
    tree: TreeView<N>,
    measure: Measure<N>,
    options: NeighborsOptions<N>,
    metric: &M,
    max: N,
    results: Seq<(u32, N)>,
)
    requires
        options.max_distance is None,
        call_ensures(M::max_distance, (metric,), max),
        forall|other: N| call_ensures(M::max_distance, (metric,), other) ==> other == max,
    ensures
        finds_by_metric(tree, measure, options, metric, results) <==> finds_by_metric(
            tree,
            measure,
            options.up_to(max),
            metric,
            results,
        ),
        finds_by_metric(tree, measure, options, metric, results) <==> tree.finds(
            measure,
            options.up_to(max),
            results,
        ),
{
    let limited = options.up_to(max);
    assert(limited.up_to(max) == limited);
    assert(max_distance_may_be(options, metric, max));
    assert(max_distance_may_be(limited, metric, max));
}

/// A search without a limit and one up to the largest distance of the metric find the same.
pub proof fn lemma_no_limit_agrees<N: IndexableNum, M: SimpleDistanceMetric<N> + ?Sized>(
    tree: TreeView<N>,
    measure: Measure<N>,
    options: NeighborsOptions<N>,
    metric: &M,
    max: N,
    exact: spec_fn(int) -> Option<N>,
    a: Seq<(u32, N)>,
    b: Seq<(u32, N)>,
)
    requires
        options.max_distance is None,
        call_ensures(M::max_distance, (metric,), max),
        forall|other: N| call_ensures(M::max_distance, (metric,), other) ==> other == max,
        measure.is_exact(tree, exact),
        finds_by_metric(tree, measure, options, metric, a),
        finds_by_metric(tree, measure, options.up_to(max), metric, b),
    ensures
        a.len() == b.len(),
        forall|i: int|
            0 <= i < a.len() ==> (#[trigger] a[i]).1.rank() == (#[trigger] b[i]).1.rank(),
        tree.items_are_distinct() ==> a == b,
{
    lemma_no_limit_is_that_of_the_metric(tree, measure, options, metric, max, a);
    lemma_no_limit_is_that_of_the_metric(tree, measure, options, metric, max, b);
    tree.lemma_distances_are_unique(options.up_to(max), exact, a, b);
    if tree.items_are_distinct() {
        tree.lemma_results_are_unique(options.up_to(max), exact, a, b);
    }
}

/// A search without a limit and one up to the largest distance of the metric give the same results,
/// whatever the metric, as long as it gives one distance for each box.
pub proof fn lemma_no_limit_by_answers<N: IndexableNum, M: SimpleDistanceMetric<N> + ?Sized>(
    tree: TreeView<N>,
    measure: Measure<N>,
    options: NeighborsOptions<N>,
    metric: &M,
    max: N,
    answer: spec_fn(int) -> Option<N>,
    a: Seq<(u32, N)>,
    b: Seq<(u32, N)>,
)
    requires
        options.max_distance is None,
        call_ensures(M::max_distance, (metric,), max),
        forall|other: N| call_ensures(M::max_distance, (metric,), other) ==> other == max,
        tree.items_are_distinct(),
        measure.answers_by(tree, answer),
        finds_by_metric(tree, measure, options, metric, a),
        finds_by_metric(tree, measure, options.up_to(max), metric, b),
    ensures
        a == b,
{
    lemma_no_limit_is_that_of_the_metric(tree, measure, options, metric, max, a);
    lemma_no_limit_is_that_of_the_metric(tree, measure, options, metric, max, b);
    tree.lemma_outcome_is_unique(options.up_to(max), answer, a, b);
}

/// Searches from a point, without a limit and up to the largest distance of the metric, give the
/// same results, whatever the metric, as long as it gives the distance `dist` for each box. Each
/// result belongs to an item, at that distance, which is within the limit.
pub proof fn lemma_no_limit_from_point<N: IndexableNum, M: SimpleDistanceMetric<N> + ?Sized>(
    tree: TreeView<N>,
    options: NeighborsOptions<N>,
    metric: &M,
    x: N,
    y: N,
    max: N,
    dist: spec_fn([N; 4]) -> N,
    a: Seq<(u32, N)>,
    b: Seq<(u32, N)>,
)
    requires
        tree.levels_packed(),
        options.max_distance is None,
        call_ensures(M::max_distance, (metric,), max),
        forall|other: N| call_ensures(M::max_distance, (metric,), other) ==> other == max,
        tree.items_are_distinct(),
        forall|bbox: [N; 4], given: N| #[trigger]
            bbox_distance_may_be(metric, x, y, bbox, given) ==> given == dist(bbox),
        finds_by_metric(tree, measure_from_point(tree, metric, x, y), options, metric, a),
        finds_by_metric(
            tree,
            measure_from_point(tree, metric, x, y),
            options.up_to(max),
            metric,
            b,
        ),
    ensures
        a == b,
        forall|i: int|
            0 <= i < a.len() ==> (#[trigger] a[i]).1.rank() <= max.rank() && exists|p: int|
                0 <= p < tree.num_items && a[i] == (
                    tree.indices[p] as u32,
                    dist(#[trigger] tree.bbox(p)),
                ),
{
    let measure = measure_from_point(tree, metric, x, y);
    let answer = |p: int| Some(dist(tree.bbox(p)));
    assert(measure.answers_by(tree, answer));
    lemma_no_limit_by_answers(tree, measure, options, metric, max, answer, a, b);
    lemma_no_limit_is_that_of_the_metric(tree, measure, options, metric, max, a);
    assert forall|i: int| 0 <= i < a.len() implies (#[trigger] a[i]).1.rank() <= max.rank()
        && exists|p: int|
        0 <= p < tree.num_items && a[i] == (
            tree.indices[p] as u32,
            dist(#[trigger] tree.bbox(p)),
        ) by {
        let p = lemma_results_are_measured(tree, options.up_to(max), metric, x, y, a, i);
        assert(a[i] == (tree.indices[p] as u32, dist(tree.bbox(p))));
    }
}

/// Each result of a search from a point belongs to an item, at a distance that the metric gives for
/// its box and that is within the limit.
pub proof fn lemma_results_are_measured<N: IndexableNum, M: SimpleDistanceMetric<N> + ?Sized>(
    tree: TreeView<N>,
    options: NeighborsOptions<N>,
    metric: &M,
    x: N,
    y: N,
    results: Seq<(u32, N)>,
    i: int,
) -> (p: int)
    requires
        tree.levels_packed(),
        tree.finds(measure_from_point(tree, metric, x, y), options, results),
        0 <= i < results.len(),
    ensures
        0 <= p < tree.num_items,
        results[i].0 == tree.indices[p] as u32,
        bbox_distance_may_be(metric, x, y, tree.bbox(p), results[i].1),
        results[i].1.rank() <= options.limit().rank(),
{
    let measure = measure_from_point(tree, metric, x, y);
    let (answers, items) = choose|answers: Map<int, Option<N>>, items: Seq<int>|
        {
            &&& measure.gives(tree, answers)
            &&& #[trigger] tree.may_find(options, answers, items)
            &&& results == tree.answers_at(answers, items)
        };
    let p = items[i];
    assert(answers.contains_key(p));
    assert((measure.item)(p, answers[p]));
    p
}

/// The distances that a metric gives from a geometry to the boxes of a tree and to the geometries of
/// its items. An item without a geometry is as far as the metric allows.
pub open spec fn measure_from_geometry<
    N: IndexableNum,
    G,
    M: DistanceMetric<N, G> + ?Sized,
    A: GeometryAccessor<G> + ?Sized,
>(tree: TreeView<N>, query: &G, metric: &M, accessor: &A) -> Measure<N> {
    Measure {
        node: |p: int, bound: N|
            {
                let bbox = tree.bbox(p);
                call_ensures(
                    M::distance_geometry_to_bbox,
                    (metric, query, bbox[0], bbox[1], bbox[2], bbox[3]),
                    bound,
                )
            },
        item: |p: int, answer: Option<N>|
            answer is Some && geometry_distance_may_be(
                query,
                metric,
                accessor,
                tree.indices[p] as u32,
                answer->0,
            ),
    }
}

/// Whether a metric may give `dist` as the distance from a geometry to that of the item with the
/// given insertion index.
pub open spec fn geometry_distance_may_be<
    N: IndexableNum,
    G,
    M: DistanceMetric<N, G> + ?Sized,
    A: GeometryAccessor<G> + ?Sized,
>(query: &G, metric: &M, accessor: &A, index: u32, dist: N) -> bool {
    exists|geometry: Option<&G>|
        {
            &&& #[trigger] call_ensures(A::get_geometry, (accessor, index as usize), geometry)
            &&& match geometry {
                Some(geometry) => call_ensures(
                    M::distance_to_geometry,
                    (metric, query, geometry),
                    dist,
                ),
                None => call_ensures(M::max_distance, (metric,), dist),
            }
        }
}

/// The squares of the distances from the point `(x, y)` to the boxes of a tree.
pub open spec fn squared_measure<N: IndexableNum>(tree: TreeView<N>, x: N, y: N) -> Measure<N> {
    Measure {
        node: |p: int, bound: N| bound == squared_distance_to(x, y, tree.bbox(p)),
        item: |p: int, answer: Option<N>|
            answer == Some(squared_distance_to(x, y, tree.bbox(p))),
    }
}

/// Whether the squares of the distances from the point `(x, y)` can be computed to the boxes that
/// they may be asked for in a search up to the given distance.
pub open spec fn can_measure_squared<N: IndexableNum>(
    tree: TreeView<N>,
    limit: N,
    x: N,
    y: N,
) -> bool {
    forall|l: int, p: int| #[trigger]
        tree.in_level(l, p) && squared_measure(tree, x, y).may_ask(tree, limit, l, p)
            ==> squared_distance_ok(x, y, tree.bbox(p))
}

/// The square of the distance from the point `(x, y)` to each item.
pub open spec fn squared_distances<N: IndexableNum>(tree: TreeView<N>, x: N, y: N) -> spec_fn(
    int,
) -> Option<N> {
    |p: int| Some(squared_distance_to(x, y, tree.bbox(p)))
}

/// Whether a distance limit is below zero, so that nothing is within it.
pub open spec fn is_negative<N: IndexableNum>(max_distance: Option<N>) -> bool {
    match max_distance {
        Some(max) => max.rank() < N::spec_zero().rank(),
        None => false,
    }
}

/// The square of a distance limit. Where it cannot be computed, no square that can be is above it,
/// and the largest value takes its place.
pub open spec fn squared_limit<N: IndexableNum>(max: N) -> N {
    if max.times_ok(max) {
        max.spec_times(max)
    } else {
        N::spec_max_value()
    }
}

/// The options of a search for up to `max_results` items up to a Euclidean distance, in terms of
/// squared distances: the limit is squared as the distances are.
pub open spec fn squared_options<N: IndexableNum>(
    max_results: Option<usize>,
    max_distance: Option<N>,
) -> NeighborsOptions<N> {
    NeighborsOptions {
        k: max_results,
        max_distance: match max_distance {
            Some(max) => Some(squared_limit(max)),
            None => None,
        },
        include_tie_breakers: false,
    }
}

/// Whether no box of an item ends before it starts.
pub open spec fn items_are_proper<N: IndexableNum>(tree: TreeView<N>) -> bool {
    forall|p: int|
        0 <= p < tree.num_items ==> {
            let bbox = #[trigger] tree.bbox(p);
            bbox[0].rank() <= bbox[2].rank() && bbox[1].rank() <= bbox[3].rank()
        }
}

/// A value is no farther from a range than from a range within it.
pub proof fn lemma_axis_dist<N: IndexableNum>(k: N, min: N, max: N, inner_min: N, inner_max: N)
    requires
        arithmetic_is_monotone::<N>(),
        axis_dist_ok(k, min, max),
        axis_dist_ok(k, inner_min, inner_max),
        min.rank() <= inner_min.rank() <= inner_max.rank() <= max.rank(),
    ensures
        N::spec_zero().rank() <= spec_axis_dist(k, min, max).rank(),
        spec_axis_dist(k, min, max).rank() <= spec_axis_dist(k, inner_min, inner_max).rank(),
{
}

/// The squared distance to the box of a node is a lower bound on the squared distances to the items
/// below it, where nodes enclose their children.
pub proof fn lemma_squared_distance_is_exact<N: IndexableNum>(tree: TreeView<N>, x: N, y: N)
    requires
        tree.levels_packed(),
        tree.encloses(),
        items_are_proper(tree),
        arithmetic_is_monotone::<N>(),
        forall|p: int|
            0 <= p < tree.num_nodes() ==> squared_distance_ok(x, y, #[trigger] tree.bbox(p)),
    ensures
        squared_measure(tree, x, y).is_exact(tree, squared_distances(tree, x, y)),
{
    let measure = squared_measure(tree, x, y);
    let exact = squared_distances(tree, x, y);
    assert forall|l: int, p: int, bound: N|
        0 < l < tree.num_levels() && 0 <= p < tree.num_items && #[trigger] (measure.node)(
            tree.ancestor(l, p),
            bound,
        ) && exact(p) is Some implies bound.rank() <= exact(p)->0.rank() by {
        let q = tree.ancestor(l, p);
        tree.lemma_ancestor(l, p);
        tree.lemma_ancestor_encloses(l, p);
        tree.lemma_levels_ascend(0, l);
        tree.lemma_levels_ascend(l, tree.top());
        let outer = tree.bbox(q);
        let inner = tree.bbox(p);
        assert(squared_distance_ok(x, y, outer));
        assert(squared_distance_ok(x, y, inner));
        lemma_axis_dist(x, outer[0], outer[2], inner[0], inner[2]);
        lemma_axis_dist(y, outer[1], outer[3], inner[1], inner[3]);
    }
}

} // verus!
