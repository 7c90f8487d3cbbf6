//! Fuzz tests for neighbors_geometry function.
//!
//! These tests verify the correctness of the `neighbors_geometry` function by comparing
//! its results against brute-force ground truth calculations.

use geo::algorithm::{BoundingRect, Distance, Euclidean};
use geo::{Coord, Geometry, LineString, Point, Polygon, Rect};
use geo_rtree::indices::MutableIndices;
use geo_rtree::num::IndexableNum;
use geo_rtree::rtree::distance::{
    axis_dist, DistanceMetric, SimpleDistanceMetric, SliceGeometryAccessor,
};
use geo_rtree::rtree::index::RTreeIndex;
use geo_rtree::rtree::metadata::RTreeMetadata;
use geo_rtree::rtree::options::NeighborsOptions;
use geo_rtree::rtree::sort::str_sort::STRSort;
use geo_rtree::rtree::sort::{Sort, SortParams};
use geo_rtree::rtree::tree::{IndexBuffer, RTree};
use rand::rngs::StdRng;
use rand::{Rng, SeedableRng};
use std::f64::consts::PI;

#[derive(Debug, Clone, Copy, PartialEq, PartialOrd)]
struct Float(f64);

impl IndexableNum for Float {
    fn is_less(self, other: Self) -> bool {
        self.0 < other.0
    }
    fn zero() -> Self {
        Float(0.0)
    }
    fn max_value() -> Self {
        Float(f64::MAX)
    }
    fn plus(self, other: Self) -> Self {
        Float(self.0 + other.0)
    }
    fn minus(self, other: Self) -> Self {
        Float(self.0 - other.0)
    }
    fn times(self, other: Self) -> Self {
        Float(self.0 * other.0)
    }
    fn can_square(self) -> bool {
        true
    }
    fn half(self) -> Self {
        Float(self.0 / 2.0)
    }
}

/// Packs boxes into a tree: items sorted, then each level grouped into the next.
struct Builder<N> {
    node_size: u16,
    boxes: Vec<N>,
}

impl<N: IndexableNum> Builder<N> {
    fn new() -> Self {
        Self::new_with_node_size(16)
    }

    fn new_with_node_size(node_size: u16) -> Self {
        Builder {
            node_size,
            boxes: Vec::new(),
        }
    }

    fn add(&mut self, min_x: N, min_y: N, max_x: N, max_y: N) {
        self.boxes.extend([min_x, min_y, max_x, max_y]);
    }

    fn into_parts(mut self) -> (Vec<N>, Vec<u32>, RTreeMetadata) {
        let num_items = self.boxes.len() / 4;
        if num_items == 0 {
            return (vec![], vec![], RTreeMetadata::new(0, self.node_size, vec![]));
        }
        let node_size = self.node_size as usize;
        let mut indices: Vec<u32> = (0..num_items as u32).collect();
        let mut params = SortParams {
            num_items,
            node_size,
        };
        <STRSort as Sort<N>>::sort(
            &mut params,
            &mut self.boxes,
            &mut MutableIndices::U32(&mut indices),
        );
        let mut level_bounds = vec![num_items * 4];
        let mut start = 0;
        loop {
            let end = self.boxes.len() / 4;
            let mut first = start;
            while first < end {
                let last = (first + node_size).min(end);
                let mut bbox = [0, 1, 2, 3].map(|axis| self.boxes[first * 4 + axis]);
                for p in first..last {
                    for axis in 0..4 {
                        let value = self.boxes[p * 4 + axis];
                        let better = if axis < 2 {
                            value.is_less(bbox[axis])
                        } else {
                            bbox[axis].is_less(value)
                        };
                        if better {
                            bbox[axis] = value;
                        }
                    }
                }
                self.boxes.extend(bbox);
                indices.push(first as u32 * 4);
                first = last;
            }
            level_bounds.push(self.boxes.len());
            start = end;
            if self.boxes.len() / 4 - end == 1 {
                break;
            }
        }
        let metadata = RTreeMetadata::new(num_items as u32, self.node_size, level_bounds);
        (self.boxes, indices, metadata)
    }

    fn finish(self) -> RTree<N> {
        let (boxes, indices, metadata) = self.into_parts();
        RTree::try_new(boxes, IndexBuffer::U32(indices), metadata).unwrap()
    }
}

impl Builder<Float> {
    fn add_floats(&mut self, min_x: f64, min_y: f64, max_x: f64, max_y: f64) {
        self.add(Float(min_x), Float(min_y), Float(max_x), Float(max_y));
    }
}

fn root_of_squares(dx: f64, dy: f64) -> Float {
    Float((dx * dx + dy * dy).sqrt())
}

fn bbox_geometry(min_x: Float, min_y: Float, max_x: Float, max_y: Float) -> Geometry<f64> {
    Geometry::Rect(Rect::new(
        Coord {
            x: min_x.0,
            y: min_y.0,
        },
        Coord {
            x: max_x.0,
            y: max_y.0,
        },
    ))
}

struct EuclideanDistance;

impl SimpleDistanceMetric<Float> for EuclideanDistance {
    fn distance(&self, x1: Float, y1: Float, x2: Float, y2: Float) -> Float {
        root_of_squares(x2.0 - x1.0, y2.0 - y1.0)
    }

    fn distance_to_bbox(
        &self,
        x: Float,
        y: Float,
        min_x: Float,
        min_y: Float,
        max_x: Float,
        max_y: Float,
    ) -> Float {
        root_of_squares(axis_dist(x, min_x, max_x).0, axis_dist(y, min_y, max_y).0)
    }
}

impl DistanceMetric<Float, Geometry<f64>> for EuclideanDistance {
    fn distance_to_geometry(&self, geom1: &Geometry<f64>, geom2: &Geometry<f64>) -> Float {
        Float(Euclidean.distance(geom1, geom2))
    }

    fn distance_geometry_to_bbox(
        &self,
        geometry: &Geometry<f64>,
        min_x: Float,
        min_y: Float,
        max_x: Float,
        max_y: Float,
    ) -> Float {
        Float(Euclidean.distance(geometry, &bbox_geometry(min_x, min_y, max_x, max_y)))
    }
}

/// Options for generating random geometries
#[derive(Debug, Clone)]
struct RandomGeometryOptions {
    /// Bounding box for geometry generation
    bounds: Rect,
    /// Size range for generated geometries (min, max)
    size_range: (f64, f64),
    /// Number of vertices for polygons (min, max)
    vertices_per_polygon_range: (usize, usize),
}

impl Default for RandomGeometryOptions {
    fn default() -> Self {
        Self {
            bounds: Rect::new(Coord { x: 0.0, y: 0.0 }, Coord { x: 100.0, y: 100.0 }),
            size_range: (1.0, 10.0),
            vertices_per_polygon_range: (4, 8),
        }
    }
}

/// Generate a random point within the given bounds
fn generate_random_point<R: Rng>(rng: &mut R, options: &RandomGeometryOptions) -> Point {
    Point::new(
        rng.random_range(options.bounds.min().x..options.bounds.max().x),
        rng.random_range(options.bounds.min().y..options.bounds.max().y),
    )
}

/// Generate a random polygon within the given bounds
fn generate_random_polygon<R: Rng>(rng: &mut R, options: &RandomGeometryOptions) -> Polygon {
    // Generate random center and size
    let half_size = rng.random_range(options.size_range.0..options.size_range.1) / 2.0;

    // Ensure polygon fits within bounds by constraining center position
    let center_x = rng
        .random_range((options.bounds.min().x + half_size)..(options.bounds.max().x - half_size));
    let center_y = rng
        .random_range((options.bounds.min().y + half_size)..(options.bounds.max().y - half_size));

    // Generate circular vertices
    let num_vertices = rng
        .random_range(options.vertices_per_polygon_range.0..=options.vertices_per_polygon_range.1)
        .max(3);

    let mut coords = Vec::with_capacity(num_vertices + 1);
    let mut angle: f64 = rng.random_range(0.0..(2.0 * PI));
    let dangle = 2.0 * PI / num_vertices as f64;

    for _ in 0..num_vertices {
        coords.push(Coord {
            x: angle.cos() * half_size + center_x,
            y: angle.sin() * half_size + center_y,
        });
        angle += dangle;
    }
    // Close the ring
    coords.push(coords[0]);

    Polygon::new(LineString::from(coords), vec![])
}

/// Generate a vector of random points
fn generate_random_points(
    seed: u64,
    count: usize,
    options: &RandomGeometryOptions,
) -> Vec<Geometry<f64>> {
    let mut rng = StdRng::seed_from_u64(seed);
    (0..count)
        .map(|_| Geometry::Point(generate_random_point(&mut rng, options)))
        .collect()
}

/// Generate a vector of random polygons
fn generate_random_polygons(
    seed: u64,
    count: usize,
    options: &RandomGeometryOptions,
) -> Vec<Geometry<f64>> {
    let mut rng = StdRng::seed_from_u64(seed);
    (0..count)
        .map(|_| Geometry::Polygon(generate_random_polygon(&mut rng, options)))
        .collect()
}

/// Compute K nearest neighbors using brute force for ground truth
fn compute_knn_ground_truth(
    query_geometry: &Geometry<f64>,
    indexed_geometries: &[Geometry<f64>],
    k: usize,
) -> Vec<(usize, f64)> {
    let mut distances: Vec<(usize, f64)> = indexed_geometries
        .iter()
        .enumerate()
        .map(|(idx, geom)| (idx, Euclidean.distance(query_geometry, geom)))
        .collect();

    // Sort by distance, then by index for stability
    distances.sort_by(|a, b| a.1.total_cmp(&b.1).then_with(|| a.0.cmp(&b.0)));

    distances.into_iter().take(k).collect()
}

/// Build an RTree from geometries
fn build_rtree_from_geometries(geometries: &[Geometry<f64>]) -> RTree<Float> {
    let mut builder = Builder::new();
    for geom in geometries {
        let rect = geom.bounding_rect().unwrap();
        builder.add_floats(rect.min().x, rect.min().y, rect.max().x, rect.max().y);
    }
    builder.finish()
}

/// Verify that neighbors_geometry returns correct results by comparing with ground truth
fn verify_neighbors_geometry(
    query_geometry: &Geometry<f64>,
    indexed_geometries: &[Geometry<f64>],
    k: usize,
    test_description: &str,
) {
    let tree = build_rtree_from_geometries(indexed_geometries);
    let metric = EuclideanDistance;
    let accessor = SliceGeometryAccessor::new(indexed_geometries);

    // Get results from neighbors_geometry
    let rtree_results =
        tree.neighbors_geometry(query_geometry, NeighborsOptions::k(k), &metric, &accessor);

    // Get ground truth
    let ground_truth = compute_knn_ground_truth(query_geometry, indexed_geometries, k);

    // Compute distances for rtree results
    let rtree_with_distances: Vec<(usize, f64)> = rtree_results
        .iter()
        .map(|&(idx, returned)| {
            let dist = Euclidean.distance(query_geometry, &indexed_geometries[idx as usize]);
            assert_eq!(returned.0, dist);
            (idx as usize, dist)
        })
        .collect();

    // Check that results are in non-decreasing distance order
    for i in 1..rtree_with_distances.len() {
        let prev_dist = rtree_with_distances[i - 1].1;
        let curr_dist = rtree_with_distances[i].1;
        assert!(
            prev_dist <= curr_dist + 1e-10, // Small epsilon for floating point
            "neighbors_geometry returned results out of order at position {} in {}: \
             idx {} has dist {}, but previous idx {} has dist {}",
            i,
            test_description,
            rtree_with_distances[i].0,
            curr_dist,
            rtree_with_distances[i - 1].0,
            prev_dist
        );
    }

    // Verify we got the same number of results
    assert_eq!(
        rtree_results.len(),
        ground_truth.len(),
        "neighbors_geometry returned wrong number of results for: {}",
        test_description
    );

    // Verify we got the correct set of K nearest neighbors (order may differ for ties)
    // Group by distance to handle ties
    let rtree_max_dist = rtree_with_distances.last().map(|(_, d)| *d).unwrap_or(0.0);
    let ground_truth_max_dist = ground_truth.last().map(|(_, d)| *d).unwrap_or(0.0);

    // The maximum distance should be approximately the same
    assert!(
        (rtree_max_dist - ground_truth_max_dist).abs() < 1e-10,
        "neighbors_geometry returned different K-th distance for {}: got {} expected {}",
        test_description,
        rtree_max_dist,
        ground_truth_max_dist
    );

    // Verify that all returned items are among the true K nearest neighbors
    // (allowing for ties at the boundary)
    let rtree_indices: std::collections::HashSet<usize> =
        rtree_results.iter().map(|&(idx, _)| idx as usize).collect();

    // Check that all rtree results have distances <= K-th distance
    for (idx, dist) in &rtree_with_distances {
        assert!(
            *dist <= ground_truth_max_dist + 1e-10,
            "neighbors_geometry returned item {} with distance {} which exceeds K-th distance {} in {}",
            idx, dist, ground_truth_max_dist, test_description
        );
    }

    // Check that no ground truth result was missed (should have same indices for non-tie cases)
    // For strict non-tie cases, indices should match
    let ground_truth_non_boundary: Vec<usize> = ground_truth
        .iter()
        .filter(|(_, d)| (*d - ground_truth_max_dist).abs() > 1e-10)
        .map(|(idx, _)| *idx)
        .collect();

    for idx in &ground_truth_non_boundary {
        assert!(
            rtree_indices.contains(idx),
            "neighbors_geometry missed item {} which is strictly closer than K-th neighbor in {}",
            idx,
            test_description
        );
    }
}

/// Test case: index points, query using point
#[test]
fn test_neighbors_geometry_point_index_point_query() {
    let options = RandomGeometryOptions::default();

    for seed in 0..20 {
        let indexed_geometries = generate_random_points(seed, 50, &options);
        let query_geometries = generate_random_points(seed + 1000, 10, &options);

        for (query_idx, query_geom) in query_geometries.iter().enumerate() {
            verify_neighbors_geometry(
                query_geom,
                &indexed_geometries,
                5,
                &format!("point_index_point_query seed={} query={}", seed, query_idx),
            );
        }
    }
}

/// Test case: index points, query using polygon
#[test]
fn test_neighbors_geometry_point_index_polygon_query() {
    let options = RandomGeometryOptions::default();

    for seed in 0..20 {
        let indexed_geometries = generate_random_points(seed, 50, &options);
        let query_geometries = generate_random_polygons(seed + 1000, 10, &options);

        for (query_idx, query_geom) in query_geometries.iter().enumerate() {
            verify_neighbors_geometry(
                query_geom,
                &indexed_geometries,
                5,
                &format!(
                    "point_index_polygon_query seed={} query={}",
                    seed, query_idx
                ),
            );
        }
    }
}

/// Test case: index polygons, query using point
#[test]
fn test_neighbors_geometry_polygon_index_point_query() {
    let options = RandomGeometryOptions::default();

    for seed in 0..20 {
        let indexed_geometries = generate_random_polygons(seed, 50, &options);
        let query_geometries = generate_random_points(seed + 1000, 10, &options);

        for (query_idx, query_geom) in query_geometries.iter().enumerate() {
            verify_neighbors_geometry(
                query_geom,
                &indexed_geometries,
                5,
                &format!(
                    "polygon_index_point_query seed={} query={}",
                    seed, query_idx
                ),
            );
        }
    }
}

/// Test case: index polygons, query using polygon
#[test]
fn test_neighbors_geometry_polygon_index_polygon_query() {
    let options = RandomGeometryOptions::default();

    for seed in 0..20 {
        let indexed_geometries = generate_random_polygons(seed, 50, &options);
        let query_geometries = generate_random_polygons(seed + 1000, 10, &options);

        for (query_idx, query_geom) in query_geometries.iter().enumerate() {
            verify_neighbors_geometry(
                query_geom,
                &indexed_geometries,
                5,
                &format!(
                    "polygon_index_polygon_query seed={} query={}",
                    seed, query_idx
                ),
            );
        }
    }
}

/// Test with mixed geometry sizes
#[test]
fn test_neighbors_geometry_mixed_sizes() {
    let mut rng = StdRng::seed_from_u64(42);

    // Generate polygons with varying sizes
    let mut indexed_geometries = Vec::new();
    for _ in 0..50 {
        let size_range = if rng.random_bool(0.5) {
            (0.5, 2.0) // Small polygons
        } else {
            (10.0, 30.0) // Large polygons
        };
        let options = RandomGeometryOptions {
            bounds: Rect::new(Coord { x: 0.0, y: 0.0 }, Coord { x: 100.0, y: 100.0 }),
            size_range,
            vertices_per_polygon_range: (4, 8),
        };
        indexed_geometries.push(Geometry::Polygon(generate_random_polygon(
            &mut rng, &options,
        )));
    }

    let options = RandomGeometryOptions::default();
    let query_geometries = generate_random_polygons(1000, 10, &options);

    for (query_idx, query_geom) in query_geometries.iter().enumerate() {
        verify_neighbors_geometry(
            query_geom,
            &indexed_geometries,
            5,
            &format!("mixed_sizes query={}", query_idx),
        );
    }
}

/// Test requesting more neighbors than available
#[test]
fn test_neighbors_geometry_k_larger_than_dataset() {
    let options = RandomGeometryOptions::default();
    let indexed_geometries = generate_random_polygons(42, 5, &options);
    let query_geom = Geometry::Point(Point::new(50.0, 50.0));

    let tree = build_rtree_from_geometries(&indexed_geometries);
    let metric = EuclideanDistance;
    let accessor = SliceGeometryAccessor::new(&indexed_geometries);

    // Request 10 neighbors but only 5 are available
    let rtree_results =
        tree.neighbors_geometry(&query_geom, NeighborsOptions::k(10), &metric, &accessor);
    let ground_truth = compute_knn_ground_truth(&query_geom, &indexed_geometries, 10);

    assert_eq!(rtree_results.len(), 5);
    assert_eq!(rtree_results.len(), ground_truth.len());

    let ground_truth_indices: Vec<usize> = ground_truth.iter().map(|(idx, _)| *idx).collect();
    let rtree_indices: Vec<usize> = rtree_results.iter().map(|&(idx, _)| idx as usize).collect();
    assert_eq!(rtree_indices, ground_truth_indices);
}

/// Test with max_distance constraint
#[test]
fn test_neighbors_geometry_with_max_distance() {
    let options = RandomGeometryOptions::default();

    for seed in 0..10 {
        let indexed_geometries = generate_random_polygons(seed, 50, &options);
        let query_geom = Geometry::Point(Point::new(50.0, 50.0));
        let max_distance = 20.0;

        let tree = build_rtree_from_geometries(&indexed_geometries);
        let metric = EuclideanDistance;
        let accessor = SliceGeometryAccessor::new(&indexed_geometries);

        let rtree_results: Vec<u32> = tree
            .neighbors_geometry(
                &query_geom,
                NeighborsOptions::all().max_distance(Float(max_distance)),
                &metric,
                &accessor,
            )
            .into_iter()
            .map(|(idx, _dist)| idx)
            .collect();

        // Verify all returned results are within max_distance
        for &idx in &rtree_results {
            let dist = Euclidean.distance(&query_geom, &indexed_geometries[idx as usize]);
            assert!(
                dist <= max_distance,
                "Result at distance {} exceeds max_distance {} (seed={})",
                dist,
                max_distance,
                seed
            );
        }

        // Verify no closer geometries were missed
        for (idx, geom) in indexed_geometries.iter().enumerate() {
            let dist = Euclidean.distance(&query_geom, geom);
            if dist <= max_distance {
                assert!(
                    rtree_results.contains(&(idx as u32)),
                    "Geometry at index {} with distance {} should be in results but isn't (seed={})",
                    idx, dist, seed
                );
            }
        }
    }
}
