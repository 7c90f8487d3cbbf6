use geo::algorithm::{Centroid, Distance, Euclidean, Haversine};
use geo::{Coord, Geometry, LineString, Point, Rect};
use geo_rtree::indices::{Indices, MutableIndices};
use geo_rtree::num::IndexableNum;
use geo_rtree::rtree::distance::{
    axis_dist, DistanceMetric, GeometryAccessor, SimpleDistanceMetric, SliceGeometryAccessor,
};
use geo_rtree::rtree::index::RTreeIndex;
use geo_rtree::rtree::metadata::RTreeMetadata;
use geo_rtree::rtree::options::NeighborsOptions;
use geo_rtree::rtree::sort::str_sort::STRSort;
use geo_rtree::rtree::sort::{Sort, SortParams};
use geo_rtree::rtree::tree::{IndexBuffer, RTree, RTreeRef};

#[derive(Debug, Clone, Copy, PartialEq, PartialOrd)]
struct Float(f64);

impl IndexableNum for Float {
    fn is_less(self, other: Self) -> bool {
        self.0 < other.0
    }
    fn zero() -> Self {
        Float(0.0)
    }
    fn max_value() -> Self {
        Float(f64::MAX)
    }
    fn plus(self, other: Self) -> Self {
        Float(self.0 + other.0)
    }
    fn minus(self, other: Self) -> Self {
        Float(self.0 - other.0)
    }
    fn times(self, other: Self) -> Self {
        Float(self.0 * other.0)
    }
    fn can_square(self) -> bool {
        true
    }
    fn half(self) -> Self {
        Float(self.0 / 2.0)
    }
}

/// Packs boxes into a tree: items sorted, then each level grouped into the next.
struct Builder<N> {
    node_size: u16,
    boxes: Vec<N>,
}

impl<N: IndexableNum> Builder<N> {
    fn new() -> Self {
        Self::new_with_node_size(16)
    }

    fn new_with_node_size(node_size: u16) -> Self {
        Builder {
            node_size,
            boxes: Vec::new(),
        }
    }

    fn add(&mut self, min_x: N, min_y: N, max_x: N, max_y: N) {
        self.boxes.extend([min_x, min_y, max_x, max_y]);
    }

    fn into_parts(mut self) -> (Vec<N>, Vec<u32>, RTreeMetadata) {
        let num_items = self.boxes.len() / 4;
        if num_items == 0 {
            return (vec![], vec![], RTreeMetadata::new(0, self.node_size, vec![]));
        }
        let node_size = self.node_size as usize;
        let mut indices: Vec<u32> = (0..num_items as u32).collect();
        let mut params = SortParams {
            num_items,
            node_size,
        };
        <STRSort as Sort<N>>::sort(
            &mut params,
            &mut self.boxes,
            &mut MutableIndices::U32(&mut indices),
        );
        let mut level_bounds = vec![num_items * 4];
        let mut start = 0;
        loop {
            let end = self.boxes.len() / 4;
            let mut first = start;
            while first < end {
                let last = (first + node_size).min(end);
                let mut bbox = [0, 1, 2, 3].map(|axis| self.boxes[first * 4 + axis]);
                for p in first..last {
                    for axis in 0..4 {
                        let value = self.boxes[p * 4 + axis];
                        let better = if axis < 2 {
                            value.is_less(bbox[axis])
                        } else {
                            bbox[axis].is_less(value)
                        };
                        if better {
                            bbox[axis] = value;
                        }
                    }
                }
                self.boxes.extend(bbox);
                indices.push(first as u32 * 4);
                first = last;
            }
            level_bounds.push(self.boxes.len());
            start = end;
            if self.boxes.len() / 4 - end == 1 {
                break;
            }
        }
        let metadata = RTreeMetadata::new(num_items as u32, self.node_size, level_bounds);
        (self.boxes, indices, metadata)
    }

    fn finish(self) -> RTree<N> {
        let (boxes, indices, metadata) = self.into_parts();
        RTree::try_new(boxes, IndexBuffer::U32(indices), metadata).unwrap()
    }
}

impl Builder<Float> {
    fn add_floats(&mut self, min_x: f64, min_y: f64, max_x: f64, max_y: f64) {
        self.add(Float(min_x), Float(min_y), Float(max_x), Float(max_y));
    }
}

fn root_of_squares(dx: f64, dy: f64) -> Float {
    Float((dx * dx + dy * dy).sqrt())
}

fn bbox_geometry(min_x: Float, min_y: Float, max_x: Float, max_y: Float) -> Geometry<f64> {
    Geometry::Rect(Rect::new(
        Coord {
            x: min_x.0,
            y: min_y.0,
        },
        Coord {
            x: max_x.0,
            y: max_y.0,
        },
    ))
}

struct EuclideanDistance;

impl SimpleDistanceMetric<Float> for EuclideanDistance {
    fn distance(&self, x1: Float, y1: Float, x2: Float, y2: Float) -> Float {
        root_of_squares(x2.0 - x1.0, y2.0 - y1.0)
    }

    fn distance_to_bbox(
        &self,
        x: Float,
        y: Float,
        min_x: Float,
        min_y: Float,
        max_x: Float,
        max_y: Float,
    ) -> Float {
        root_of_squares(axis_dist(x, min_x, max_x).0, axis_dist(y, min_y, max_y).0)
    }
}

impl DistanceMetric<Float, Geometry<f64>> for EuclideanDistance {
    fn distance_to_geometry(&self, geom1: &Geometry<f64>, geom2: &Geometry<f64>) -> Float {
        Float(Euclidean.distance(geom1, geom2))
    }

    fn distance_geometry_to_bbox(
        &self,
        geometry: &Geometry<f64>,
        min_x: Float,
        min_y: Float,
        max_x: Float,
        max_y: Float,
    ) -> Float {
        Float(Euclidean.distance(geometry, &bbox_geometry(min_x, min_y, max_x, max_y)))
    }
}

struct HaversineDistance;

impl SimpleDistanceMetric<Float> for HaversineDistance {
    fn distance(&self, lon1: Float, lat1: Float, lon2: Float, lat2: Float) -> Float {
        let p1 = Point::new(lon1.0, lat1.0);
        let p2 = Point::new(lon2.0, lat2.0);
        Float(Haversine.distance(p1, p2))
    }

    fn distance_to_bbox(
        &self,
        lon: Float,
        lat: Float,
        min_lon: Float,
        min_lat: Float,
        max_lon: Float,
        max_lat: Float,
    ) -> Float {
        let closest_lon = lon.0.clamp(min_lon.0, max_lon.0);
        let closest_lat = lat.0.clamp(min_lat.0, max_lat.0);
        let point = Point::new(lon.0, lat.0);
        let closest_point = Point::new(closest_lon, closest_lat);
        Float(Haversine.distance(point, closest_point))
    }
}

impl DistanceMetric<Float, Geometry<f64>> for HaversineDistance {
    fn distance_to_geometry(&self, geom1: &Geometry<f64>, geom2: &Geometry<f64>) -> Float {
        let c1 = geom1.centroid().unwrap_or(Point::new(0.0, 0.0));
        let c2 = geom2.centroid().unwrap_or(Point::new(0.0, 0.0));
        Float(Haversine.distance(c1, c2))
    }

    fn distance_geometry_to_bbox(
        &self,
        geometry: &Geometry<f64>,
        min_x: Float,
        min_y: Float,
        max_x: Float,
        max_y: Float,
    ) -> Float {
        let center = geometry.centroid().unwrap_or(Point::new(0.0, 0.0));
        self.distance_to_bbox(Float(center.x()), Float(center.y()), min_x, min_y, max_x, max_y)
    }
}

#[test]
fn test_euclidean_distance_neighbors() {
    let mut builder = Builder::new();
    builder.add_floats(0., 0., 1., 1.);
    builder.add_floats(2., 2., 3., 3.);
    builder.add_floats(4., 4., 5., 5.);
    let tree = builder.finish();

    let euclidean = EuclideanDistance;
    let results =
        tree.neighbors_with_distance(Float(0.), Float(0.), NeighborsOptions::all(), &euclidean);

    // Should return items in order of distance from (0,0)
    assert_eq!(results.len(), 3);
    assert_eq!(results[0].0, 0);
    assert_eq!(results[1].0, 1);
    assert_eq!(results[2].0, 2);
    // Verify distances are returned
    assert!(results[0].1 < results[1].1);
    assert!(results[1].1 < results[2].1);
}

#[test]
fn test_haversine_distance_neighbors() {
    let mut builder = Builder::new();
    // Add some geographic points (longitude, latitude)
    builder.add_floats(-74.0, 40.7, -74.0, 40.7); // New York
    builder.add_floats(-0.1, 51.5, -0.1, 51.5); // London
    builder.add_floats(139.7, 35.7, 139.7, 35.7); // Tokyo
    let tree = builder.finish();

    let haversine = HaversineDistance;
    let results = tree.neighbors_with_distance(
        Float(-74.0),
        Float(40.7),
        NeighborsOptions::all(),
        &haversine,
    );

    // From New York, should find New York first, then London, then Tokyo
    assert_eq!(results.len(), 3);
    assert_eq!(results[0].0, 0);
    assert_eq!(results[1].0, 1);
    assert_eq!(results[2].0, 2);
    // Verify distances: New York should be 0, London and Tokyo non-zero
    assert_eq!(results[0].1, Float(0.0));
    assert!(results[1].1 > Float(0.0));
    assert!(results[2].1 > Float(0.0));
}

#[test]
fn test_backward_compatibility() {
    let mut builder = Builder::new();
    builder.add_floats(0., 0., 1., 1.);
    builder.add_floats(2., 2., 3., 3.);
    builder.add_floats(4., 4., 5., 5.);
    let tree = builder.finish();

    // Search by squared distance
    let results_plain = tree.neighbors(Float(0.), Float(0.), None, None);

    // Euclidean distance gives the same order (just extract indices)
    let euclidean = EuclideanDistance;
    let results_new = tree
        .neighbors_with_distance(Float(0.), Float(0.), NeighborsOptions::all(), &euclidean)
        .into_iter()
        .map(|(idx, _dist)| idx)
        .collect::<Vec<_>>();

    assert_eq!(results_plain, results_new);
}

#[test]
fn test_max_distance_filtering() {
    let mut builder = Builder::new();
    builder.add_floats(0., 0., 1., 1.);
    builder.add_floats(2., 2., 3., 3.);
    builder.add_floats(10., 10., 11., 11.);
    let tree = builder.finish();

    let euclidean = EuclideanDistance;
    // Only find neighbors within distance 5
    let results = tree.neighbors_with_distance(
        Float(0.),
        Float(0.),
        NeighborsOptions::all().max_distance(Float(5.0)),
        &euclidean,
    );

    // Should only find first two items, not the distant third one
    assert_eq!(results.len(), 2);
    assert_eq!(results[0].0, 0);
    assert_eq!(results[1].0, 1);
}

#[test]
fn test_tie_breakers_enabled_without_ties() {
    let mut builder = Builder::new();
    builder.add_floats(0., 0., 0., 0.); // Item 0: distance 0
    builder.add_floats(1., 0., 1., 0.); // Item 1: distance 1
    builder.add_floats(0., 2., 0., 2.); // Item 2: distance 2
    builder.add_floats(3., 0., 3., 0.); // Item 3: distance 3
    builder.add_floats(0., 4., 0., 4.); // Item 4: distance 4
    let tree = builder.finish();

    let euclidean = EuclideanDistance;
    let results = tree.neighbors_with_distance(
        Float(0.),
        Float(0.),
        NeighborsOptions::k(3).include_tie_breakers(true),
        &euclidean,
    );

    assert_eq!(results.len(), 3);
    assert_eq!(results[0].0, 0);
    assert_eq!(results[1].0, 1);
    assert_eq!(results[2].0, 2);
}

#[test]
fn test_tie_breakers_k1_includes_all_nearest() {
    let mut builder = Builder::new();
    builder.add_floats(1., 0., 1., 0.);
    builder.add_floats(-1., 0., -1., 0.);
    builder.add_floats(0., 1., 0., 1.);
    builder.add_floats(0., -1., 0., -1.);
    let tree = builder.finish();

    let euclidean = EuclideanDistance;
    let results = tree.neighbors_with_distance(
        Float(0.),
        Float(0.),
        NeighborsOptions::k(1).include_tie_breakers(true),
        &euclidean,
    );

    assert_eq!(results.len(), 4);
    for (_, dist) in &results {
        assert!((dist.0 - 1.0).abs() < 1e-10);
    }

    let results_no_ties =
        tree.neighbors_with_distance(Float(0.), Float(0.), NeighborsOptions::k(1), &euclidean);
    assert_eq!(results_no_ties.len(), 1);
}

#[test]
fn test_tie_breakers_enabled_when_unbounded() {
    let mut builder = Builder::new();
    builder.add_floats(1., 0., 1., 0.); // distance 1
    builder.add_floats(2., 0., 2., 0.); // distance 2
    builder.add_floats(3., 0., 3., 0.); // distance 3
    let tree = builder.finish();

    let euclidean = EuclideanDistance;
    let results_default =
        tree.neighbors_with_distance(Float(0.), Float(0.), NeighborsOptions::all(), &euclidean);
    let results_ties = tree.neighbors_with_distance(
        Float(0.),
        Float(0.),
        NeighborsOptions::all().include_tie_breakers(true),
        &euclidean,
    );

    assert_eq!(results_default, results_ties);
}

#[test]
fn test_tie_breakers_with_max_distance_boundary() {
    let mut builder = Builder::new();
    builder.add_floats(1., 0., 1., 0.); // distance 1
    builder.add_floats(2., 0., 2., 0.); // distance 2
    builder.add_floats(0., 2., 0., 2.); // distance 2
    builder.add_floats(3., 0., 3., 0.); // distance 3
    let tree = builder.finish();

    let euclidean = EuclideanDistance;
    let results = tree.neighbors_with_distance(
        Float(0.),
        Float(0.),
        NeighborsOptions::k(2)
            .include_tie_breakers(true)
            .max_distance(Float(2.0)),
        &euclidean,
    );

    assert_eq!(results.len(), 3);
    let mut indices: Vec<u32> = results.iter().map(|(idx, _)| *idx).collect();
    indices.sort();
    assert_eq!(indices, vec![0, 1, 2]);
    for (_, dist) in &results {
        assert!(dist.0 <= 2.0 + 1e-10);
    }

    let results = tree.neighbors_with_distance(
        Float(0.),
        Float(0.),
        NeighborsOptions::k(2)
            .include_tie_breakers(true)
            .max_distance(Float(1.5)),
        &euclidean,
    );
    assert_eq!(results.len(), 1);
    assert_eq!(results[0].0, 0);
}

#[test]
fn test_tie_at_kth_distance_is_the_largest_distance() {
    let mut builder = Builder::new();
    builder.add_floats(1., 0., 1., 0.);
    builder.add_floats(2., 0., 2., 0.);
    builder.add_floats(-2., 0., -2., 0.);
    builder.add_floats(0., 2., 0., 2.);
    builder.add_floats(0., -2., 0., -2.);
    builder.add_floats(2., 0., 2., 0.);
    builder.add_floats(-2., 0., -2., 0.);
    builder.add_floats(0., 2., 0., 2.);
    builder.add_floats(0., -2., 0., -2.);
    let tree = builder.finish();

    let euclidean = EuclideanDistance;
    for k in 2..=10 {
        let results = tree.neighbors_with_distance(
            Float(0.),
            Float(0.),
            NeighborsOptions::k(k).include_tie_breakers(true),
            &euclidean,
        );

        assert_eq!(results.len(), 9);
        let tie_count = results
            .iter()
            .filter(|(_, dist)| (dist.0 - 2.0).abs() < 1e-10)
            .count();
        assert_eq!(tie_count, 8);
    }
}

#[test]
fn test_many_tie_at_kth_distance() {
    let mut builder = Builder::new();
    builder.add_floats(1., 0., 1., 0.);
    builder.add_floats(2., 0., 2., 0.);
    builder.add_floats(-2., 0., -2., 0.);
    builder.add_floats(0., 2., 0., 2.);
    builder.add_floats(0., -2., 0., -2.);
    builder.add_floats(3., 0., 3., 0.);
    builder.add_floats(-3., 0., -3., 0.);
    let tree = builder.finish();

    let euclidean = EuclideanDistance;
    for k in 2..=5 {
        let results = tree.neighbors_with_distance(
            Float(0.),
            Float(0.),
            NeighborsOptions::k(k).include_tie_breakers(true),
            &euclidean,
        );

        assert_eq!(results.len(), 5);
        let tie_count = results
            .iter()
            .filter(|(_, dist)| (dist.0 - 2.0).abs() < 1e-10)
            .count();
        assert_eq!(tie_count, 4);
    }

    for k in 6..10 {
        let results = tree.neighbors_with_distance(
            Float(0.),
            Float(0.),
            NeighborsOptions::k(k).include_tie_breakers(true),
            &euclidean,
        );

        assert_eq!(results.len(), 7);
        let tie_count = results
            .iter()
            .filter(|(_, dist)| (dist.0 - 2.0).abs() < 1e-10)
            .count();
        assert_eq!(tie_count, 4);
        let tie_count = results
            .iter()
            .filter(|(_, dist)| (dist.0 - 3.0).abs() < 1e-10)
            .count();
        assert_eq!(tie_count, 2);
    }
}

#[test]
fn test_geometry_neighbors_euclidean() {
    let mut builder = Builder::new();
    builder.add_floats(0., 0., 2., 2.); // Item 0
    builder.add_floats(5., 5., 7., 7.); // Item 1
    builder.add_floats(10., 10., 12., 12.); // Item 2
    let tree = builder.finish();

    // Geometries corresponding to the bboxes
    let geometries: Vec<Geometry<f64>> = vec![
        Geometry::Point(Point::new(1.0, 1.0)),   // Item 0
        Geometry::Point(Point::new(6.0, 6.0)),   // Item 1
        Geometry::Point(Point::new(11.0, 11.0)), // Item 2
    ];

    let query_geom = Geometry::Point(Point::new(3.0, 3.0));
    let metric = EuclideanDistance;
    let accessor = SliceGeometryAccessor::new(&geometries);
    let results =
        tree.neighbors_geometry(&query_geom, NeighborsOptions::all(), &metric, &accessor);

    // Item 0 should be closest to query point (3,3)
    assert_eq!(results[0].0, 0);
    assert_eq!(results[1].0, 1);
    assert_eq!(results[2].0, 2);
}

#[test]
fn test_geometry_neighbors_linestring() {
    let mut builder = Builder::new();
    builder.add_floats(0., 0., 10., 0.); // Item 0 - horizontal line
    builder.add_floats(5., 5., 15., 5.); // Item 1 - horizontal line higher up
    builder.add_floats(0., 10., 10., 10.); // Item 2 - horizontal line at top
    let tree = builder.finish();

    // Geometries corresponding to the bboxes
    let geometries: Vec<Geometry<f64>> = vec![
        Geometry::LineString(LineString::new(vec![
            Coord { x: 0.0, y: 0.0 },
            Coord { x: 10.0, y: 0.0 },
        ])),
        Geometry::LineString(LineString::new(vec![
            Coord { x: 5.0, y: 5.0 },
            Coord { x: 15.0, y: 5.0 },
        ])),
        Geometry::LineString(LineString::new(vec![
            Coord { x: 0.0, y: 10.0 },
            Coord { x: 10.0, y: 10.0 },
        ])),
    ];

    let query_geom = Geometry::Point(Point::new(5.0, 2.0));
    let metric = EuclideanDistance;
    let accessor = SliceGeometryAccessor::new(&geometries);
    let results =
        tree.neighbors_geometry(&query_geom, NeighborsOptions::all(), &metric, &accessor);

    // Item 0 (bottom line) should be closest to point (5, 2)
    assert_eq!(results[0].0, 0);
}

#[test]
fn test_geometry_neighbors_with_max_results() {
    let mut builder = Builder::new();
    for i in 0..5 {
        let x = (i * 3) as f64;
        builder.add_floats(x, x, x + 1., x + 1.);
    }
    let tree = builder.finish();

    // Create geometries for each bbox
    let geometries: Vec<Geometry<f64>> = (0..5)
        .map(|i| {
            let x = (i * 3) as f64;
            Geometry::Point(Point::new(x + 0.5, x + 0.5))
        })
        .collect();

    let query_geom = Geometry::Point(Point::new(5.0, 5.0));
    let metric = EuclideanDistance;
    let accessor = SliceGeometryAccessor::new(&geometries);
    let results =
        tree.neighbors_geometry(&query_geom, NeighborsOptions::k(3), &metric, &accessor);

    assert_eq!(results.len(), 3);
    // Should get the 3 closest items
}

#[test]
fn test_geometry_neighbors_haversine() {
    let mut builder = Builder::new();
    // Geographic bounding boxes (lon, lat)
    builder.add_floats(-74.1, 40.6, -74.0, 40.7); // New York area
    builder.add_floats(-0.2, 51.4, -0.1, 51.5); // London area
    builder.add_floats(139.6, 35.6, 139.7, 35.7); // Tokyo area
    let tree = builder.finish();

    let geometries: Vec<Geometry<f64>> = vec![
        Geometry::Point(Point::new(-74.0, 40.7)), // New York
        Geometry::Point(Point::new(-0.1, 51.5)),  // London
        Geometry::Point(Point::new(139.7, 35.7)), // Tokyo
    ];

    let query_geom = Geometry::Point(Point::new(-74.0, 40.7)); // New York
    let metric = HaversineDistance;
    let accessor = SliceGeometryAccessor::new(&geometries);
    let results =
        tree.neighbors_geometry(&query_geom, NeighborsOptions::all(), &metric, &accessor);

    // New York should be closest (distance 0)
    assert_eq!(results[0].0, 0);
}

#[test]
fn test_distance_values_returned() {
    let mut builder = Builder::new();
    builder.add_floats(0., 0., 0., 0.); // Item 0: distance 0
    builder.add_floats(3., 0., 3., 0.); // Item 1: distance 3
    builder.add_floats(0., 4., 0., 4.); // Item 2: distance 4
    let tree = builder.finish();

    let euclidean = EuclideanDistance;
    let results =
        tree.neighbors_with_distance(Float(0.), Float(0.), NeighborsOptions::all(), &euclidean);

    // Verify distance values are correct
    assert_eq!(results.len(), 3);
    assert_eq!(results[0], (0, Float(0.0)));
    assert_eq!(results[1], (1, Float(3.0)));
    assert_eq!(results[2], (2, Float(4.0)));
}

#[test]
fn test_geometry_tie_breakers() {
    let mut builder = Builder::new();
    builder.add_floats(0., 0., 0., 0.); // Item 0
    builder.add_floats(1., 0., 1., 0.); // Item 1
    builder.add_floats(0., 2., 0., 2.); // Item 2
    builder.add_floats(2., 0., 2., 0.); // Item 3 (same distance as item 2)
    let tree = builder.finish();

    let geometries: Vec<Geometry<f64>> = vec![
        Geometry::Point(Point::new(0.0, 0.0)),
        Geometry::Point(Point::new(1.0, 0.0)),
        Geometry::Point(Point::new(0.0, 2.0)),
        Geometry::Point(Point::new(2.0, 0.0)),
    ];

    let query_geom = Geometry::Point(Point::new(0.0, 0.0));
    let metric = EuclideanDistance;
    let accessor = SliceGeometryAccessor::new(&geometries);

    // Test with tie breakers enabled
    let results = tree.neighbors_geometry(
        &query_geom,
        NeighborsOptions::k(3).include_tie_breakers(true),
        &metric,
        &accessor,
    );

    // Should return 4 items: item 0 (distance 0), item 1 (distance 1),
    // and both items 2 and 3 (both at distance 2, tied at k=3)
    assert_eq!(results.len(), 4);
    assert_eq!(results[0].0, 0);
    assert_eq!(results[1].0, 1);

    let indices: Vec<u32> = results.iter().map(|(idx, _)| *idx).collect();
    assert!(indices.contains(&2));
    assert!(indices.contains(&3));

    // Test with tie breakers disabled
    let results_no_ties =
        tree.neighbors_geometry(&query_geom, NeighborsOptions::k(3), &metric, &accessor);
    // Should return only 3 items: item 0 (distance 0), item 1 (distance 1),
    // and either item 2 or item 3 (but not both, since tie breakers are disabled)
    assert_eq!(results_no_ties.len(), 3);
    assert_eq!(results_no_ties[0].0, 0);
    assert_eq!(results_no_ties[1].0, 1);
    assert!(results_no_ties[2].0 == 2 || results_no_ties[2].0 == 3);
}

#[test]
fn exact_distances_match_brute_force_after_sorting() {
    // Integer boxes, floating-point distances, loose envelopes, and enough items
    // to exercise multiple levels and insertion-index remapping.
    let points: Vec<(i32, i32)> = (0..97)
        .map(|i| ((i * 37 % 101) - 50, (i * 19 % 103) - 51))
        .collect();
    for node_size in [2, 8, 128] {
        let mut builder = Builder::<i32>::new_with_node_size(node_size);
        for &(x, y) in &points {
            builder.add(x - 5, y - 7, x + 3, y + 2);
        }
        let (boxes, indices, metadata) = builder.into_parts();
        let tree = RTreeRef::try_new(&boxes, Indices::U32(&indices), metadata).unwrap();
        for query in [(0.3_f64, -1.7_f64), (100.1, 95.8)] {
            let distance = |id: usize| {
                let (x, y) = points[id];
                (x as f64 - query.0).abs() + 2.0 * (y as f64 - query.1).abs()
            };
            for limit in [None, Some(0), Some(1), Some(12), Some(200)] {
                for max_distance in [None, Some(0.0), Some(40.0), Some(distance(1))] {
                    let mut expected: Vec<_> = (0..points.len())
                        .filter(|id| id % 7 != 0)
                        .filter(|&id| max_distance.map_or(true, |max| distance(id) <= max))
                        .collect();
                    expected.sort_by(|&a, &b| distance(a).partial_cmp(&distance(b)).unwrap());
                    expected.truncate(limit.unwrap_or(usize::MAX));
                    let actual = tree.neighbors_with_callbacks(
                        NeighborsOptions {
                            k: limit,
                            max_distance: max_distance.map(Float),
                            include_tie_breakers: false,
                        },
                        |[min_x, min_y, max_x, max_y]| {
                            Float(
                                (query.0 - query.0.clamp(min_x as f64, max_x as f64)).abs()
                                    + 2.0
                                        * (query.1 - query.1.clamp(min_y as f64, max_y as f64))
                                            .abs(),
                            )
                        },
                        |id, bbox| {
                            let (x, y) = points[id as usize];
                            assert_eq!(bbox, [x - 5, y - 7, x + 3, y + 2]);
                            (id % 7 != 0).then_some(Float(distance(id as usize)))
                        },
                    );
                    // Compare distances because tied items have no specified order.
                    assert_eq!(
                        actual
                            .iter()
                            .map(|&(id, dist)| {
                                assert_eq!(dist.0, distance(id as usize));
                                dist.0
                            })
                            .collect::<Vec<_>>(),
                        expected.iter().map(|&id| distance(id)).collect::<Vec<_>>()
                    );
                }
            }
        }
    }
}

#[test]
fn spherical_ranking_across_antimeridian_and_near_pole() {
    let points: [(f64, f64); 6] = [
        (179.9, 80.0),
        (-179.8, 80.0),
        (0.0, 89.9),
        (90.0, 85.0),
        (175.0, 75.0),
        (0.0, -80.0),
    ];
    let mut builder = Builder::new_with_node_size(2);
    for &(lon, lat) in &points {
        builder.add_floats(lon, lat, lon, lat);
    }
    let tree = builder.finish();
    for (lon, lat) in [(179.95_f64, 80.0_f64), (-90.0, 89.9)] {
        // Angular great-circle distance; the callback can use any radius or units.
        let distance = |id: usize| {
            let (x, y) = points[id];
            let a = ((y - lat).to_radians() / 2.0).sin().powi(2)
                + lat.to_radians().cos()
                    * y.to_radians().cos()
                    * ((x - lon).to_radians() / 2.0).sin().powi(2);
            2.0 * a.sqrt().asin()
        };
        let mut expected: Vec<_> = (0..points.len() as u32).collect();
        expected.sort_by(|&a, &b| {
            distance(a as usize)
                .partial_cmp(&distance(b as usize))
                .unwrap()
        });
        let actual = tree.neighbors_with_callbacks(
            NeighborsOptions::k(3),
            |_| Float(0.0),
            |id, _| Some(Float(distance(id as usize))),
        );
        assert_eq!(
            actual,
            expected[..3]
                .iter()
                .map(|&id| (id, Float(distance(id as usize))))
                .collect::<Vec<_>>()
        );
    }
}

#[test]
fn limits_empty_ties_and_pruning() {
    let empty = Builder::<Float>::new().finish();
    assert!(empty
        .neighbors_with_callbacks::<Float, _, _>(
            NeighborsOptions::all(),
            |_| panic!("empty tree"),
            |_, _| panic!("empty tree")
        )
        .is_empty());

    let mut builder = Builder::new_with_node_size(2);
    for x in 0..64 {
        builder.add_floats(x as f64, 0.0, x as f64, 0.0);
    }
    let tree = builder.finish();
    assert!(tree
        .neighbors_with_callbacks::<Float, _, _>(
            NeighborsOptions::k(0),
            |_| panic!("zero limit"),
            |_, _| panic!("zero limit")
        )
        .is_empty());
    assert!(tree
        .neighbors(Float(0.0), Float(0.0), Some(0), None)
        .is_empty());
    let mut calls = 0;
    let result = tree.neighbors_with_callbacks(
        NeighborsOptions::all().max_distance(Float(1.0)),
        |bbox| bbox[0],
        |_, bbox| {
            calls += 1;
            Some(bbox[0])
        },
    );
    assert_eq!(result, vec![(0, Float(0.0)), (1, Float(1.0))]);
    assert!(calls < 64, "far nodes should be pruned");
    let mut ties = tree.neighbors_with_callbacks(
        NeighborsOptions::all(),
        |_| Float(0.0),
        |_, _| Some(Float(1.0)),
    );
    ties.sort_unstable_by_key(|&(id, _)| id);
    assert_eq!(
        ties,
        (0..64).map(|id| (id, Float(1.0))).collect::<Vec<_>>()
    );
    assert!(tree
        .neighbors_with_callbacks::<Float, _, _>(
            NeighborsOptions::all(),
            |_| Float(0.0),
            |_, _| None
        )
        .is_empty());
}

#[test]
fn includes_ties_across_nodes_and_skips_excluded_items() {
    let mut builder = Builder::new_with_node_size(2);
    for x in 0..32 {
        builder.add_floats(x as f64, 0.0, x as f64, 0.0);
    }
    let tree = builder.finish();
    for include_ties in [false, true] {
        let results = tree.neighbors_with_callbacks(
            NeighborsOptions::k(2).include_tie_breakers(include_ties),
            |_| Float(0.0),
            |id, _| {
                (id != 0).then_some(if id == 1 {
                    Float(0.0)
                } else if id % 2 == 0 {
                    Float(1.0)
                } else {
                    Float(2.0)
                })
            },
        );
        assert_eq!(results[0], (1, Float(0.0)));
        assert_eq!(results.len(), if include_ties { 16 } else { 2 });
        assert!(results[1..]
            .iter()
            .all(|&(id, distance)| id % 2 == 0 && distance == Float(1.0)));
    }
}

#[test]
fn test_search_empty_tree_returns_empty() {
    let tree = Builder::<Float>::new().finish();

    let results = tree.search(Float(0.0), Float(0.0), Float(100.0), Float(100.0));
    assert!(results.is_empty());
}

#[test]
fn test_neighbors_empty_tree_returns_empty() {
    let tree = Builder::<Float>::new().finish();

    let results = tree.neighbors(Float(50.0), Float(50.0), Some(10), None);
    assert!(results.is_empty());
}

#[test]
fn test_neighbors_geometry_empty_tree_returns_empty() {
    let tree = Builder::<Float>::new().finish();

    let geometries: Vec<Geometry<f64>> = vec![];
    let metric = EuclideanDistance;
    let accessor = SliceGeometryAccessor::new(&geometries);
    let query_geom = Geometry::Point(Point::new(50.0, 50.0));

    let results =
        tree.neighbors_geometry(&query_geom, NeighborsOptions::k(10), &metric, &accessor);
    assert!(results.is_empty());
}

#[test]
fn neighbors_of_overlapping_boxes() {
    let mut builder = Builder::new();
    builder.add_floats(0., 0., 2., 2.);
    builder.add_floats(1., 1., 3., 3.);
    builder.add_floats(2., 2., 4., 4.);
    let tree = builder.finish();

    let results = tree.neighbors(Float(5.), Float(5.), None, None);
    assert_eq!(results, vec![2, 1, 0]);

    // The distances are sqrt(2), sqrt(8) and sqrt(18).
    let near = tree.neighbors(Float(5.), Float(5.), None, Some(Float(3.0)));
    assert_eq!(near, vec![2, 1]);
    let none = tree.neighbors(Float(5.), Float(5.), None, Some(Float(-3.0)));
    assert!(none.is_empty());
}

#[test]
fn neighbors_by_manhattan_distance() {
    let points = [(3.0_f64, 4.0_f64), (1.0, 2.0), (8.0, 1.0)];
    let mut builder = Builder::new();
    for &(x, y) in &points {
        builder.add_floats(x, y, x, y);
    }
    let tree = builder.finish();
    let query = (0.0_f64, 0.0_f64);
    let results = tree.neighbors_with_callbacks(
        NeighborsOptions::k(2),
        |[min_x, min_y, max_x, max_y]| {
            Float(
                (query.0 - query.0.clamp(min_x.0, max_x.0)).abs()
                    + (query.1 - query.1.clamp(min_y.0, max_y.0)).abs(),
            )
        },
        |id, _bbox| {
            let (x, y) = points[id as usize];
            Some(Float((x - query.0).abs() + (y - query.1).abs()))
        },
    );
    assert_eq!(results, vec![(1, Float(3.0)), (0, Float(7.0))]);
}

#[test]
fn neighbors_around_new_york() {
    let mut builder = Builder::new();
    builder.add_floats(-74.0, 40.7, -74.0, 40.7); // New York
    builder.add_floats(-0.1, 51.5, -0.1, 51.5); // London
    builder.add_floats(139.7, 35.7, 139.7, 35.7); // Tokyo
    let tree = builder.finish();

    let results = tree.neighbors_with_distance(
        Float(-74.0),
        Float(40.7),
        NeighborsOptions::k(2),
        &HaversineDistance,
    );
    assert_eq!(results.len(), 2);
    assert_eq!(results[0], (0, Float(0.0)));
    assert_eq!(results[1].0, 1);
    assert!((results[1].1 .0 - 5_570_000.0).abs() < 10_000.0);
}

#[test]
fn geometry_distances() {
    let mut builder = Builder::new();
    builder.add_floats(0., 0., 2., 2.);
    builder.add_floats(5., 5., 7., 7.);
    builder.add_floats(10., 10., 12., 12.);
    let tree = builder.finish();

    let geometries: Vec<Geometry<f64>> = vec![
        Geometry::Point(Point::new(1.0, 1.0)),
        Geometry::Point(Point::new(6.0, 6.0)),
        Geometry::Point(Point::new(11.0, 11.0)),
    ];
    let accessor = SliceGeometryAccessor::new(&geometries);
    let query_geom = Geometry::Point(Point::new(3.0, 3.0));
    let results = tree.neighbors_geometry(
        &query_geom,
        NeighborsOptions::all(),
        &EuclideanDistance,
        &accessor,
    );
    assert_eq!(results.len(), 3);
    for (result, expected) in results.iter().zip([(0, 2.82), (1, 4.24), (2, 11.31)]) {
        assert_eq!(result.0, expected.0);
        assert!((result.1 .0 - expected.1).abs() < 0.01);
    }
}

#[test]
fn an_item_without_a_geometry_is_as_far_as_can_be() {
    let mut builder = Builder::new();
    builder.add_floats(0., 0., 2., 2.);
    builder.add_floats(5., 5., 7., 7.);
    let tree = builder.finish();

    let geometries: Vec<Geometry<f64>> = vec![Geometry::Point(Point::new(1.0, 1.0))];
    let accessor = SliceGeometryAccessor::new(&geometries);
    assert!(accessor.get_geometry(0).is_some());
    assert!(accessor.get_geometry(1).is_none());
    let query_geom = Geometry::Point(Point::new(1.0, 1.0));
    let results = tree.neighbors_geometry(
        &query_geom,
        NeighborsOptions::all(),
        &EuclideanDistance,
        &accessor,
    );
    assert_eq!(results, vec![(0, Float(0.0)), (1, Float(f64::MAX))]);
    let near = tree.neighbors_geometry(
        &query_geom,
        NeighborsOptions::all().max_distance(Float(100.0)),
        &EuclideanDistance,
        &accessor,
    );
    assert_eq!(near, vec![(0, Float(0.0))]);
}

#[test]
fn a_metric_can_have_its_own_maximum() {
    struct UpToThree;
    impl SimpleDistanceMetric<Float> for UpToThree {
        fn distance(&self, x1: Float, y1: Float, x2: Float, y2: Float) -> Float {
            EuclideanDistance.distance(x1, y1, x2, y2)
        }

        fn distance_to_bbox(
            &self,
            x: Float,
            y: Float,
            min_x: Float,
            min_y: Float,
            max_x: Float,
            max_y: Float,
        ) -> Float {
            EuclideanDistance.distance_to_bbox(x, y, min_x, min_y, max_x, max_y)
        }

        fn max_distance(&self) -> Float {
            Float(3.0)
        }
    }
    let mut builder = Builder::new();
    builder.add_floats(0., 0., 0., 0.);
    builder.add_floats(3., 0., 3., 0.);
    builder.add_floats(0., 4., 0., 4.);
    let tree = builder.finish();
    assert_eq!(UpToThree.distance(Float(0.), Float(0.), Float(3.), Float(4.)), Float(5.));
    let results = tree.neighbors_with_simple_distance(
        Float(0.),
        Float(0.),
        NeighborsOptions::all(),
        &UpToThree,
    );
    assert_eq!(results, vec![(0, Float(0.0)), (1, Float(3.0))]);
    let farther = tree.neighbors_with_simple_distance(
        Float(0.),
        Float(0.),
        NeighborsOptions::all().max_distance(Float(4.0)),
        &UpToThree,
    );
    assert_eq!(farther.len(), 3);
}
