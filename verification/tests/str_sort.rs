use geo_rtree::indices::MutableIndices;
use geo_rtree::num::IndexableNum;
use geo_rtree::rtree::sort::str_sort::{fill_centers, items_per_slice, sort, STRSort};
use geo_rtree::rtree::sort::{Sort, SortParams};

#[derive(Debug, Clone, Copy, PartialEq)]
struct Float(f64);

impl IndexableNum for Float {
    fn is_less(self, other: Self) -> bool {
        self.0 < other.0
    }
    fn zero() -> Self {
        Float(0.0)
    }
    fn max_value() -> Self {
        Float(f64::MAX)
    }
    fn plus(self, other: Self) -> Self {
        Float(self.0 + other.0)
    }
    fn minus(self, other: Self) -> Self {
        Float(self.0 - other.0)
    }
    fn times(self, other: Self) -> Self {
        Float(self.0 * other.0)
    }
    fn can_square(self) -> bool {
        true
    }
    fn half(self) -> Self {
        Float(self.0 / 2.0)
    }
}

/// The nodes that items at the given points make: slices by x, then nodes by y.
fn nodes_by_hand(points: &[(f64, f64)], slice: usize, node_size: usize) -> Vec<Vec<u32>> {
    let mut items: Vec<u32> = (0..points.len() as u32).collect();
    items.sort_by(|&a, &b| points[a as usize].0.total_cmp(&points[b as usize].0));
    let mut nodes = Vec::new();
    for slice in items.chunks_mut(slice) {
        slice.sort_by(|&a, &b| points[a as usize].1.total_cmp(&points[b as usize].1));
        for node in slice.chunks_mut(node_size) {
            node.sort();
            nodes.push(node.to_vec());
        }
    }
    nodes
}

fn nodes_of(indices: &[u32], slice: usize, node_size: usize) -> Vec<Vec<u32>> {
    let mut nodes = Vec::new();
    for slice in indices.chunks(slice) {
        for node in slice.chunks(node_size) {
            let mut node = node.to_vec();
            node.sort();
            nodes.push(node);
        }
    }
    nodes
}

#[test]
fn tiles() {
    for (count, node_size, slice) in [(16, 2, 6), (25, 4, 12), (97, 3, 18), (10, 16, 16)] {
        let points: Vec<(f64, f64)> = (0..count)
            .map(|i| ((i * 37 % 101) as f64, (i * 53 % 103) as f64))
            .collect();
        let mut boxes: Vec<Float> = Vec::new();
        for &(x, y) in &points {
            boxes.extend([Float(x - 1.0), Float(y - 2.0), Float(x + 1.0), Float(y + 2.0)]);
        }
        let mut indices: Vec<u32> = (0..count).collect();
        let mut params = SortParams {
            num_items: count as usize,
            node_size,
        };
        assert_eq!(items_per_slice(&params), slice);
        <STRSort as Sort<Float>>::sort(
            &mut params,
            &mut boxes,
            &mut MutableIndices::U32(&mut indices),
        );
        assert_eq!(
            nodes_of(&indices, slice, node_size),
            nodes_by_hand(&points, slice, node_size)
        );
        // each item keeps its box
        for (i, &index) in indices.iter().enumerate() {
            let (x, y) = points[index as usize];
            assert_eq!(
                boxes[4 * i..4 * i + 4],
                [Float(x - 1.0), Float(y - 2.0), Float(x + 1.0), Float(y + 2.0)]
            );
        }
    }
}

#[test]
fn tiles_four_corners() {
    // two slices of two items each, the lower item of each first
    let mut boxes: Vec<i32> = vec![
        9, 9, 9, 9, //
        0, 8, 0, 8, //
        8, 0, 8, 0, //
        1, 1, 1, 1,
    ];
    let mut indices: Vec<u16> = vec![0, 1, 2, 3];
    let mut params = SortParams {
        num_items: 4,
        node_size: 1,
    };
    <STRSort as Sort<i32>>::sort(&mut params, &mut boxes, &mut MutableIndices::U16(&mut indices));
    assert_eq!(indices, [3, 1, 2, 0]);
    assert_eq!(boxes, [1, 1, 1, 1, 0, 8, 0, 8, 8, 0, 8, 0, 9, 9, 9, 9]);
    assert_eq!(params.num_items, 4);
}

#[test]
fn what_stands_behind_the_items_stays() {
    let mut boxes: Vec<i32> = vec![5, 5, 5, 5, 1, 1, 1, 1, 7, 8, 9, 10];
    let mut indices: Vec<u16> = vec![0, 1, 44];
    let mut params = SortParams {
        num_items: 2,
        node_size: 1,
    };
    <STRSort as Sort<i32>>::sort(&mut params, &mut boxes, &mut MutableIndices::U16(&mut indices));
    assert_eq!(indices, [1, 0, 44]);
    assert_eq!(boxes, [1, 1, 1, 1, 5, 5, 5, 5, 7, 8, 9, 10]);
}

#[test]
fn slices_hold_full_nodes() {
    for (num_items, node_size, expected) in [
        (1, 1, 1),
        (1, 16, 16),
        (16, 16, 16),
        (17, 16, 32),
        (64, 16, 32),
        (65, 16, 48),
        (1_000_000, 16, 4000),
        (4_294_967_295, 1, 65_536),
        (4_294_967_295, 2, 92_682),
    ] {
        let params = SortParams {
            num_items,
            node_size,
        };
        assert_eq!(items_per_slice(&params), expected);
    }
}

#[test]
fn centers_lie_between_the_sides() {
    let boxes: Vec<i32> = vec![0, 10, 4, 20, -3, -9, 0, -2];
    let mut centers: Vec<(i32, u32)> = vec![(7, 7)];
    fill_centers(&mut centers, &boxes, 2, 0);
    assert_eq!(centers, [(2, 0), (-1, 0)]);
    fill_centers(&mut centers, &boxes, 2, 1);
    assert_eq!(centers, [(15, 0), (-5, 0)]);
}

#[test]
fn sort_moves_a_range_only() {
    let mut centers: Vec<(i32, u32)> = vec![(9, 0), (3, 0), (2, 0), (1, 0), (0, 0)];
    let mut boxes: Vec<i32> = (0..20).collect();
    let mut indices: Vec<u32> = vec![10, 11, 12, 13, 14];
    sort(&mut centers, &mut boxes, &mut MutableIndices::U32(&mut indices), 1..4, 1);
    assert_eq!(indices, [10, 13, 12, 11, 14]);
    assert_eq!(boxes[4..16], [12, 13, 14, 15, 8, 9, 10, 11, 4, 5, 6, 7]);
    assert_eq!(boxes[..4], [0, 1, 2, 3]);
    assert_eq!(centers.iter().map(|c| c.0).collect::<Vec<_>>(), [9, 1, 2, 3, 0]);
}
