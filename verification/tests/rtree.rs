use geo_rtree::error::GeoIndexError;
use geo_rtree::indices::{Indices, MutableIndices};
use geo_rtree::num::IndexableNum;
use geo_rtree::rtree::distance::{axis_dist, SimpleDistanceMetric, SimpleSquaredDistance};
use geo_rtree::rtree::index::RTreeIndex;
use geo_rtree::rtree::intersection::intersection_candidates_with_other_tree;
use geo_rtree::rtree::metadata::RTreeMetadata;
use geo_rtree::rtree::options::NeighborsOptions;
use geo_rtree::rtree::sort::str_sort::STRSort;
use geo_rtree::rtree::sort::{Sort, SortParams};
use geo_rtree::rtree::tree::{IndexBuffer, RTree, RTreeRef};

/// Packs boxes into a tree: items sorted, then each level grouped into the next.
struct Builder<N> {
    node_size: u16,
    boxes: Vec<N>,
}

impl<N: IndexableNum> Builder<N> {
    fn new() -> Self {
        Self::new_with_node_size(16)
    }

    fn new_with_node_size(node_size: u16) -> Self {
        Builder {
            node_size,
            boxes: Vec::new(),
        }
    }

    fn add(&mut self, min_x: N, min_y: N, max_x: N, max_y: N) {
        self.boxes.extend([min_x, min_y, max_x, max_y]);
    }

    fn into_parts(mut self) -> (Vec<N>, Vec<u32>, RTreeMetadata) {
        let num_items = self.boxes.len() / 4;
        if num_items == 0 {
            return (vec![], vec![], RTreeMetadata::new(0, self.node_size, vec![]));
        }
        let node_size = self.node_size as usize;
        let mut indices: Vec<u32> = (0..num_items as u32).collect();
        let mut params = SortParams {
            num_items,
            node_size,
        };
        <STRSort as Sort<N>>::sort(
            &mut params,
            &mut self.boxes,
            &mut MutableIndices::U32(&mut indices),
        );
        let mut level_bounds = vec![num_items * 4];
        let mut start = 0;
        loop {
            let end = self.boxes.len() / 4;
            let mut first = start;
            while first < end {
                let last = (first + node_size).min(end);
                let mut bbox = [0, 1, 2, 3].map(|axis| self.boxes[first * 4 + axis]);
                for p in first..last {
                    for axis in 0..4 {
                        let value = self.boxes[p * 4 + axis];
                        let better = if axis < 2 {
                            value.is_less(bbox[axis])
                        } else {
                            bbox[axis].is_less(value)
                        };
                        if better {
                            bbox[axis] = value;
                        }
                    }
                }
                self.boxes.extend(bbox);
                indices.push(first as u32 * 4);
                first = last;
            }
            level_bounds.push(self.boxes.len());
            start = end;
            if self.boxes.len() / 4 - end == 1 {
                break;
            }
        }
        let metadata = RTreeMetadata::new(num_items as u32, self.node_size, level_bounds);
        (self.boxes, indices, metadata)
    }

    fn finish(self) -> RTree<N> {
        let (boxes, indices, metadata) = self.into_parts();
        RTree::try_new(boxes, IndexBuffer::U32(indices), metadata).unwrap()
    }
}

/// Boxes spread over the plane, of different sizes.
fn scattered(count: i32) -> Vec<[i32; 4]> {
    (0..count)
        .map(|i| {
            let x = i * 37 % 101;
            let y = i * 53 % 97;
            [x, y, x + i % 5, y + i % 7]
        })
        .collect()
}

fn tree_of(boxes: &[[i32; 4]], node_size: u16) -> RTree<i32> {
    let mut builder = Builder::new_with_node_size(node_size);
    for &[min_x, min_y, max_x, max_y] in boxes {
        builder.add(min_x, min_y, max_x, max_y);
    }
    builder.finish()
}

fn intersect(a: [i32; 4], b: [i32; 4]) -> bool {
    a[2] >= b[0] && a[3] >= b[1] && a[0] <= b[2] && a[1] <= b[3]
}

/// Five items in nodes of two, written out by hand.
fn small_parts() -> (Vec<i32>, Vec<u16>, Vec<usize>) {
    let boxes = vec![
        0, 0, 1, 1, // item 4
        2, 0, 3, 1, // item 0
        0, 5, 1, 6, // item 3
        2, 5, 3, 6, // item 1
        9, 9, 9, 9, // item 2
        0, 0, 3, 1, //
        0, 5, 3, 6, //
        9, 9, 9, 9, //
        0, 0, 3, 6, //
        9, 9, 9, 9, //
        0, 0, 9, 9,
    ];
    let indices = vec![4, 0, 3, 1, 2, 0, 8, 16, 20, 28, 32];
    (boxes, indices, vec![20, 32, 40, 44])
}

fn small_tree() -> RTree<i32> {
    let (boxes, indices, level_bounds) = small_parts();
    let metadata = RTreeMetadata::new(5, 2, level_bounds);
    RTree::try_new(boxes, IndexBuffer::U16(indices), metadata).unwrap()
}

#[test]
fn accessors_describe_the_tree() {
    let tree = small_tree();
    assert_eq!(tree.num_items(), 5);
    assert_eq!(tree.num_nodes(), 11);
    assert_eq!(tree.node_size(), 2);
    assert_eq!(tree.level_bounds(), &[20, 32, 40, 44]);
    assert_eq!(tree.num_levels(), 4);
    assert_eq!(tree.boxes().len(), 44);
    assert_eq!(tree.indices().len(), 11);
    assert_eq!(tree.indices().get(6), 8);
    assert_eq!(tree.metadata().num_items(), 5);
}

#[test]
fn boxes_at_level_cuts_the_boxes() {
    let tree = small_tree();
    let all = small_parts().0;
    assert_eq!(tree.boxes_at_level(0).unwrap(), &all[0..20]);
    assert_eq!(tree.boxes_at_level(1).unwrap(), &all[20..32]);
    assert_eq!(tree.boxes_at_level(2).unwrap(), &all[32..40]);
    assert_eq!(tree.boxes_at_level(3).unwrap(), &all[40..44]);
    for level in [4, 5, usize::MAX] {
        assert_eq!(
            tree.boxes_at_level(level),
            Err(GeoIndexError::General("Level out of bounds".to_string()))
        );
    }
}

#[test]
fn a_tree_must_be_packed() {
    let refused = GeoIndexError::General("Tree is not packed".to_string());
    let (boxes, indices, level_bounds) = small_parts();
    let try_ref = |boxes: &[i32], indices: &[u16], num_items, node_size, bounds: &[usize]| {
        let metadata = RTreeMetadata::new(num_items, node_size, bounds.to_vec());
        RTreeRef::try_new(boxes, Indices::U16(indices), metadata)
            .map(|tree| tree.search(0, 0, 100, 100).len())
    };
    assert_eq!(try_ref(&boxes, &indices, 5, 2, &level_bounds), Ok(5));
    assert_eq!(try_ref(&[], &[], 0, 2, &[]), Ok(0));
    // wrong numbers
    for (num_items, node_size) in [(4, 2), (6, 2), (5, 3), (5, 1), (5, 0), (0, 2)] {
        assert_eq!(
            try_ref(&boxes, &indices, num_items, node_size, &level_bounds),
            Err(refused.clone())
        );
    }
    // wrong bounds
    for bounds in [
        &[20, 32, 40][..],
        &[20, 32, 40, 43],
        &[20, 32, 36, 44],
        &[20, 16, 40, 44],
        &[20, 32, 40, 44, 48],
        &[],
    ] {
        assert_eq!(try_ref(&boxes, &indices, 5, 2, bounds), Err(refused.clone()));
    }
    // wrong lengths
    assert_eq!(
        try_ref(&boxes[..43], &indices, 5, 2, &level_bounds),
        Err(refused.clone())
    );
    assert_eq!(
        try_ref(&boxes[..40], &indices, 5, 2, &level_bounds),
        Err(refused.clone())
    );
    assert_eq!(
        try_ref(&boxes, &indices[..10], 5, 2, &level_bounds),
        Err(refused.clone())
    );
    // a node that points elsewhere
    let mut astray = indices.clone();
    astray[9] = 24;
    assert_eq!(try_ref(&boxes, &astray, 5, 2, &level_bounds), Err(refused.clone()));
    let metadata = RTreeMetadata::new(5, 2, level_bounds);
    assert!(RTree::try_new(boxes, IndexBuffer::U16(astray), metadata)
        .is_err_and(|error| error == refused));
}

#[test]
fn search_finds_items_in_insertion_order() {
    let tree = small_tree();
    assert_eq!(tree.search(0, 0, 9, 9), vec![0, 1, 2, 3, 4]);
    assert_eq!(tree.search(1, 1, 2, 5), vec![0, 1, 3, 4]);
    assert_eq!(tree.search(2, 0, 2, 9), vec![0, 1]);
    assert_eq!(tree.search(9, 9, 20, 20), vec![2]);
    assert_eq!(tree.search(4, 0, 8, 8), Vec::<u32>::new());
}

#[test]
fn search_matches_brute_force() {
    let boxes = scattered(300);
    let queries = [
        [0, 0, 1000, 1000],
        [0, 0, 10, 10],
        [40, 40, 60, 60],
        [100, 100, 200, 200],
        [200, 200, 300, 300],
        [10, 20, 80, 90],
        [50, 50, 50, 50],
    ];
    for node_size in [2, 3, 16, 500] {
        let tree = tree_of(&boxes, node_size);
        for query in queries {
            let found = tree.search(query[0], query[1], query[2], query[3]);
            let expected: Vec<u32> = (0..boxes.len() as u32)
                .filter(|&i| intersect(boxes[i as usize], query))
                .collect();
            assert_eq!(found, expected);
        }
    }
}

#[test]
fn a_tree_of_one_item() {
    let tree = tree_of(&[[3, 4, 5, 6]], 16);
    assert_eq!(tree.num_nodes(), 2);
    assert_eq!(tree.search(5, 6, 7, 8), vec![0]);
    assert_eq!(tree.search(6, 6, 7, 8), Vec::<u32>::new());
    assert_eq!(tree.neighbors(0, 0, None, None), vec![0]);
    // a root that is the item itself
    let alone = RTreeRef::try_new(
        &[3, 4, 5, 6],
        Indices::U32(&[7]),
        RTreeMetadata::new(1, 16, vec![4]),
    )
    .unwrap();
    assert_eq!(alone.search(5, 6, 7, 8), vec![7]);
    assert_eq!(alone.neighbors(0, 0, None, None), vec![7]);
}

#[test]
fn neighbors_match_brute_force() {
    let boxes = scattered(200);
    for node_size in [2, 5, 16] {
        let tree = tree_of(&boxes, node_size);
        for (x, y) in [(0, 0), (50, 50), (-30, 120)] {
            let distance = |i: u32| {
                let [min_x, min_y, max_x, max_y] = boxes[i as usize];
                let dx = x - x.clamp(min_x, max_x);
                let dy = y - y.clamp(min_y, max_y);
                dx * dx + dy * dy
            };
            for k in [None, Some(1), Some(10), Some(1000)] {
                for max in [None, Some(0), Some(20), Some(-1)] {
                    let found: Vec<i32> = tree
                        .neighbors(x, y, k, max)
                        .into_iter()
                        .map(distance)
                        .collect();
                    let mut expected: Vec<i32> = (0..boxes.len() as u32)
                        .map(distance)
                        .filter(|&d| max.map_or(true, |max| max >= 0 && d <= max * max))
                        .collect();
                    expected.sort();
                    expected.truncate(k.unwrap_or(usize::MAX));
                    assert_eq!(found, expected);
                }
            }
        }
    }
}

#[test]
fn the_limit_of_neighbors_is_a_distance() {
    let tree = tree_of(&[[3, 4, 3, 4], [6, 8, 6, 8]], 16);
    assert_eq!(tree.neighbors(0, 0, None, Some(4)), Vec::<u32>::new());
    assert_eq!(tree.neighbors(0, 0, None, Some(5)), vec![0]);
    assert_eq!(tree.neighbors(0, 0, None, Some(9)), vec![0]);
    assert_eq!(tree.neighbors(0, 0, None, Some(10)), vec![0, 1]);
    assert_eq!(tree.neighbors(3, 4, None, Some(0)), vec![0]);
    assert_eq!(tree.neighbors(3, 4, None, Some(-1)), Vec::<u32>::new());
    assert_eq!(tree.neighbors(0, 0, Some(0), Some(5)), Vec::<u32>::new());
    // a limit whose square does not fit
    assert_eq!(tree.neighbors(0, 0, None, Some(46_341)), vec![0, 1]);
    assert_eq!(tree.neighbors(0, 0, None, Some(i32::MAX)), vec![0, 1]);
    assert_eq!(tree_of(&[], 16).neighbors(0, 0, None, Some(i32::MAX)), Vec::<u32>::new());
    let overlapping = tree_of(&[[0, 0, 2, 2], [1, 1, 3, 3], [2, 2, 4, 4]], 16);
    assert_eq!(overlapping.neighbors(5, 5, None, Some(3)), vec![2, 1]);
}

#[test]
fn levels_make_up_the_tree() {
    for node_size in [2, 3, 16] {
        let tree = tree_of(&scattered(70), node_size);
        let mut boxes: Vec<i32> = Vec::new();
        for level in 0..tree.num_levels() {
            boxes.extend(tree.boxes_at_level(level).unwrap());
        }
        assert_eq!(boxes, tree.boxes());
    }
}

#[test]
fn indices_keep_their_width() {
    assert!(matches!(small_tree().indices(), Indices::U16(_)));
    assert!(matches!(tree_of(&scattered(5), 2).indices(), Indices::U32(_)));
}

#[test]
fn ties_change_nothing_without_k() {
    let tree = tree_of(&scattered(60), 3);
    for max in [0, 50, i32::MAX] {
        let options = NeighborsOptions::all().max_distance(max);
        let plain = tree.neighbors_with_simple_distance(7, 9, options, &SimpleSquaredDistance);
        let ties = tree.neighbors_with_simple_distance(
            7,
            9,
            options.include_tie_breakers(true),
            &SimpleSquaredDistance,
        );
        assert_eq!(plain, ties);
    }
}

#[test]
fn no_limit_is_the_limit_of_the_metric() {
    let tree = tree_of(&scattered(60), 3);
    let max = SimpleDistanceMetric::<i32>::max_distance(&SimpleSquaredDistance);
    for options in [
        NeighborsOptions::all(),
        NeighborsOptions::k(9),
        NeighborsOptions::k(9).include_tie_breakers(true),
    ] {
        assert_eq!(
            tree.neighbors_with_simple_distance(7, 9, options, &SimpleSquaredDistance),
            tree.neighbors_with_simple_distance(
                7,
                9,
                options.max_distance(max),
                &SimpleSquaredDistance
            )
        );
    }
}

#[test]
fn nearest_items_do_not_depend_on_the_tree() {
    let boxes: Vec<[i32; 4]> = (0..60).map(|i| [i % 4, i % 3, i % 4, i % 3]).collect();
    let nearest = |node_size: u16, k: usize, ties: bool| -> Vec<(u32, i32)> {
        tree_of(&boxes, node_size).neighbors_with_simple_distance(
            0,
            0,
            NeighborsOptions::k(k).include_tie_breakers(ties),
            &SimpleSquaredDistance,
        )
    };
    for k in [1, 7, 20, 60] {
        for ties in [false, true] {
            let first = nearest(2, k, ties);
            assert_eq!(first, nearest(7, k, ties));
            assert_eq!(first, nearest(100, k, ties));
        }
    }
    assert_eq!(
        nearest(2, 7, false),
        vec![(0, 0), (12, 0), (24, 0), (36, 0), (48, 0), (4, 1), (9, 1)]
    );
    assert_eq!(nearest(2, 7, true).len(), 15);
}

#[test]
fn results_depend_on_the_answers_alone() {
    /// Large boxes are far: no lower bound on the distances of what they hold.
    struct BySize;
    impl SimpleDistanceMetric<i32> for BySize {
        fn distance(&self, _x1: i32, _y1: i32, _x2: i32, _y2: i32) -> i32 {
            0
        }

        fn distance_to_bbox(
            &self,
            _x: i32,
            _y: i32,
            min_x: i32,
            min_y: i32,
            max_x: i32,
            max_y: i32,
        ) -> i32 {
            (max_x - min_x) + (max_y - min_y)
        }

        fn max_distance(&self) -> i32 {
            150
        }
    }
    let tree = tree_of(&scattered(90), 3);
    for options in [
        NeighborsOptions::all(),
        NeighborsOptions::k(11),
        NeighborsOptions::k(11).include_tie_breakers(true),
    ] {
        let free = tree.neighbors_with_simple_distance(0, 0, options, &BySize);
        let limited =
            tree.neighbors_with_simple_distance(0, 0, options.max_distance(150), &BySize);
        assert_eq!(free, limited);
    }
    assert_eq!(
        tree.neighbors_with_simple_distance(0, 0, NeighborsOptions::all(), &BySize),
        tree.neighbors_with_simple_distance(
            0,
            0,
            NeighborsOptions::all().include_tie_breakers(true),
            &BySize
        )
    );
}

#[test]
fn bounds_that_are_too_large_hide_items() {
    let tree = tree_of(&scattered(50), 4);
    let none = tree.neighbors_with_callbacks(
        NeighborsOptions::all().max_distance(10),
        |_| 11,
        |_, _| Some(0),
    );
    assert!(none.is_empty());
    let all = tree.neighbors_with_callbacks(
        NeighborsOptions::all().max_distance(10),
        |_| 10,
        |_, _| Some(10),
    );
    assert_eq!(all.len(), 50);
}

#[test]
fn squared_distance() {
    assert_eq!(SimpleSquaredDistance.distance(1, 2, 4, 6), 25);
    assert_eq!(SimpleSquaredDistance.distance_to_bbox(0, 0, 3, 4, 9, 9), 25);
    assert_eq!(SimpleSquaredDistance.distance_to_bbox(12, 5, 3, 4, 9, 9), 9);
    assert_eq!(SimpleSquaredDistance.distance_to_bbox(5, 5, 3, 4, 9, 9), 0);
    assert_eq!(
        SimpleDistanceMetric::<i32>::max_distance(&SimpleSquaredDistance),
        i32::MAX
    );
}

#[test]
fn axis_distance() {
    assert_eq!(axis_dist(1, 3, 5), 2);
    assert_eq!(axis_dist(3, 3, 5), 0);
    assert_eq!(axis_dist(4, 3, 5), 0);
    assert_eq!(axis_dist(5, 3, 5), 0);
    assert_eq!(axis_dist(9, 3, 5), 4);
    assert_eq!(axis_dist(1u8, 255, 255), 254);
}

#[test]
fn intersections_match_brute_force() {
    let left = scattered(80);
    let right: Vec<[i32; 4]> = scattered(120)
        .into_iter()
        .map(|[min_x, min_y, max_x, max_y]| [min_y, min_x, max_y + 2, max_x + 1])
        .collect();
    let mut found =
        intersection_candidates_with_other_tree(&tree_of(&left, 4), &tree_of(&right, 8));
    found.sort();
    let mut expected = Vec::new();
    for (i, &a) in left.iter().enumerate() {
        for (j, &b) in right.iter().enumerate() {
            if intersect(a, b) {
                expected.push((i as u32, j as u32));
            }
        }
    }
    assert!(!expected.is_empty());
    assert_eq!(found, expected);
}

#[test]
fn an_empty_tree_intersects_nothing() {
    let empty = tree_of(&[], 4);
    let tree = tree_of(&scattered(20), 4);
    assert!(intersection_candidates_with_other_tree(&empty, &tree).is_empty());
    assert!(intersection_candidates_with_other_tree(&tree, &empty).is_empty());
    assert!(empty.search(0, 0, 100, 100).is_empty());
    assert_eq!(empty.num_nodes(), 0);
    assert!(empty.boxes_at_level(0).is_err());
}

#[test]
fn options_are_built_step_by_step() {
    let options = NeighborsOptions::<i32>::new();
    assert_eq!(options.k, Some(1));
    assert_eq!(options.max_distance, None);
    assert!(!options.include_tie_breakers);
    assert_eq!(options, NeighborsOptions::default());
    assert_eq!(options, NeighborsOptions::k(1));
    assert_eq!(NeighborsOptions::<i32>::all().k, None);
    let built = NeighborsOptions::k(7)
        .max_distance(9)
        .include_tie_breakers(true);
    assert_eq!(
        built,
        NeighborsOptions {
            k: Some(7),
            max_distance: Some(9),
            include_tie_breakers: true
        }
    );
    assert!(!built.include_tie_breakers(false).include_tie_breakers);
}
