use std::fmt::Debug;

use geo_rtree::indices::MutableIndices;
use geo_rtree::rtree::sort::permutation::apply_permutation;
use geo_rtree::rtree::sort::util::k_block_sort_by;
use rand::rngs::StdRng;
use rand::seq::SliceRandom;
use rand::SeedableRng;

/// Assert the k-block invariant: max of block i <= min of block i+1.
fn assert_k_block_invariant(arr: &[u32], k: usize) {
    if arr.len() <= k {
        return;
    }
    let num_blocks = arr.len().div_ceil(k);

    for b in 0..num_blocks - 1 {
        let block_start = b * k;
        let block_end = ((b + 1) * k).min(arr.len());
        let next_start = block_end;
        let next_end = ((b + 2) * k).min(arr.len());

        let block_max = arr[block_start..block_end].iter().copied().max().unwrap();
        let next_min = arr[next_start..next_end].iter().copied().min().unwrap();

        assert!(
            block_max <= next_min,
            "k-block invariant violated: block {} max ({}) > block {} min ({}), k={}, arr={:?}",
            b,
            block_max,
            b + 1,
            next_min,
            k,
            arr
        );
    }
}

/// Assert that `arr` contains exactly the same elements as `expected` (as a multiset).
fn assert_same_elements(arr: &[u32], expected: &[u32]) {
    let mut a = arr.to_vec();
    let mut b = expected.to_vec();
    a.sort();
    b.sort();
    assert_eq!(a, b, "element sets differ");
}

#[test]
fn k_block_sort_empty() {
    let mut arr: Vec<u32> = vec![];
    for k in 1..10 {
        k_block_sort_by(&mut arr, k, |a, b| a.cmp(b));
        assert!(arr.is_empty());
    }
}

#[test]
fn k_block_sort_single_element() {
    let mut arr = vec![42u32];
    for k in 1..10 {
        k_block_sort_by(&mut arr, k, |a, b| a.cmp(b));
        assert_eq!(arr, vec![42]);
    }
}

#[test]
fn k_block_sort_already_sorted() {
    for k in 1..20 {
        for len in 0..20 {
            let original: Vec<u32> = (0..len).collect();
            let mut arr = original.clone();
            k_block_sort_by(&mut arr, k, |a, b| a.cmp(b));
            assert_same_elements(&arr, &original);
            assert_k_block_invariant(&arr, k);
        }
    }
}

#[test]
fn k_block_sort_reverse_order() {
    for k in 1..20 {
        for len in 0..20 {
            let original: Vec<u32> = (0..len).rev().collect();
            let expected: Vec<u32> = (0..len).collect();
            let mut arr = original.clone();
            k_block_sort_by(&mut arr, k, |a, b| a.cmp(b));
            assert_same_elements(&arr, &expected);
            assert_k_block_invariant(&arr, k);
        }
    }
}

#[test]
fn k_block_sort_all_equal_elements() {
    let mut arr = vec![7u32; 50];
    let expected = arr.clone();
    k_block_sort_by(&mut arr, 4, |a, b| a.cmp(b));
    assert_eq!(arr, expected);
}

#[test]
fn k_block_sort_random_fuzz() {
    for seed in 1..=20u64 {
        let mut rng = StdRng::seed_from_u64(seed);
        for k in 1..20 {
            for len in 0..20 {
                let mut arr: Vec<u32> = (0..len as u32).collect();
                arr.shuffle(&mut rng);
                let expected: Vec<u32> = (0..len as u32).collect();

                k_block_sort_by(&mut arr, k, |a, b| a.cmp(b));
                assert_same_elements(&arr, &expected);
                if len > 0 {
                    assert_k_block_invariant(&arr, k);
                }
            }
        }
    }
}

#[test]
fn blocks_of_one_are_a_full_sort() {
    let mut arr = vec![5u32, 3, 9, 1, 3, 7];
    k_block_sort_by(&mut arr, 1, |a, b| a.cmp(b));
    assert_eq!(arr, vec![1, 3, 3, 5, 7, 9]);
}

#[test]
fn a_comparison_in_descending_order_gives_descending_blocks() {
    let mut arr: Vec<u32> = (0..17).collect();
    k_block_sort_by(&mut arr, 4, |a, b| b.cmp(a));
    assert_same_elements(&arr[0..4], &[13, 14, 15, 16]);
    assert_same_elements(&arr[4..8], &[9, 10, 11, 12]);
    assert_same_elements(&arr[8..12], &[5, 6, 7, 8]);
    assert_same_elements(&arr[12..16], &[1, 2, 3, 4]);
    assert_eq!(arr[16], 0);
}

/// Build test data: boxes[i] = [i*10, i*10+1, i*10+2, i*10+3], indices[i] = i.
fn make_test_data(n: usize) -> (Vec<f64>, Vec<u16>) {
    let boxes: Vec<f64> = (0..n)
        .flat_map(|i| {
            let v = i as f64 * 10.0;
            [v, v + 1.0, v + 2.0, v + 3.0]
        })
        .collect();
    let indices: Vec<u16> = (0..n as u16).collect();
    (boxes, indices)
}

/// Verify that after applying permutation `perm`, boxes and indices at
/// position `i` correspond to the original item at `perm[i]`.
fn verify_permutation_result<F: PartialEq + Debug, I: PartialEq + Debug>(
    perm: &[u32],
    boxes: &[F],
    indices: &[I],
    orig_boxes: &[F],
    orig_indices: &[I],
) {
    for (i, &src) in perm.iter().enumerate() {
        let src = src as usize;
        let bi = i * 4;
        let bs = src * 4;
        assert_eq!(
            &boxes[bi..bi + 4],
            &orig_boxes[bs..bs + 4],
            "box mismatch at position {}: expected item from original position {}",
            i,
            src
        );
        assert_eq!(
            indices[i], orig_indices[src],
            "index mismatch at position {}: expected item from original position {}",
            i, src
        );
    }
}

#[test]
fn apply_permutation_identity() {
    for n in [0, 1, 2, 5, 16, 100] {
        let (orig_boxes, orig_indices) = make_test_data(n);
        let (mut boxes, mut indices) = (orig_boxes.clone(), orig_indices.clone());
        let mut perm: Vec<u32> = (0..n as u32).collect();
        let perm_copy = perm.clone();

        apply_permutation(
            perm.as_mut_slice(),
            &mut boxes,
            &mut MutableIndices::U16(&mut indices),
        );

        verify_permutation_result(&perm_copy, &boxes, &indices, &orig_boxes, &orig_indices);
    }
}

#[test]
fn apply_permutation_reverse() {
    for n in [0, 1, 2, 5, 16, 100] {
        let (orig_boxes, orig_indices) = make_test_data(n);
        let (mut boxes, mut indices) = (orig_boxes.clone(), orig_indices.clone());
        let mut perm: Vec<u32> = (0..n as u32).rev().collect();
        let perm_copy = perm.clone();

        apply_permutation(
            perm.as_mut_slice(),
            &mut boxes,
            &mut MutableIndices::U16(&mut indices),
        );

        verify_permutation_result(&perm_copy, &boxes, &indices, &orig_boxes, &orig_indices);
    }
}

#[test]
fn apply_permutation_single_cycle() {
    // Rotate all elements: perm = [1, 2, 3, ..., n-1, 0]
    let n = 8;
    let (orig_boxes, orig_indices) = make_test_data(n);
    let (mut boxes, mut indices) = (orig_boxes.clone(), orig_indices.clone());
    let mut perm: Vec<u32> = (1..n as u32).chain(std::iter::once(0)).collect();
    let perm_copy = perm.clone();

    apply_permutation(
        perm.as_mut_slice(),
        &mut boxes,
        &mut MutableIndices::U16(&mut indices),
    );

    verify_permutation_result(&perm_copy, &boxes, &indices, &orig_boxes, &orig_indices);
}

#[test]
fn apply_permutation_u32_indices() {
    // Test with U32 variant of MutableIndices
    let n = 10;
    let (orig_boxes, _) = make_test_data(n);
    let mut boxes = orig_boxes.clone();
    let orig_u32_indices: Vec<u32> = (0..n as u32).collect();
    let mut u32_indices = orig_u32_indices.clone();
    let mut perm: Vec<u32> = (0..n as u32).rev().collect();
    let perm_copy = perm.clone();

    apply_permutation(
        perm.as_mut_slice(),
        &mut boxes,
        &mut MutableIndices::U32(&mut u32_indices),
    );

    verify_permutation_result(
        &perm_copy,
        &boxes,
        &u32_indices,
        &orig_boxes,
        &orig_u32_indices,
    );
}

#[test]
fn apply_permutation_from_packed_pairs() {
    let n = 10;
    let (orig_boxes, orig_indices) = make_test_data(n);
    let (mut boxes, mut indices) = (orig_boxes.clone(), orig_indices.clone());

    let perm: Vec<u32> = (0..n as u32).rev().collect();
    let mut packed: Vec<(u32, u32)> = perm
        .iter()
        .copied()
        .enumerate()
        .map(|(i, p)| (i as u32, p))
        .collect();

    apply_permutation(
        packed.as_mut_slice(),
        &mut boxes,
        &mut MutableIndices::U16(&mut indices),
    );

    verify_permutation_result(&perm, &boxes, &indices, &orig_boxes, &orig_indices);
}

#[test]
fn apply_permutation_random_fuzz() {
    for seed in 1..=20u64 {
        let mut rng = StdRng::seed_from_u64(seed);
        for n in 0..100 {
            let (orig_boxes, orig_indices) = make_test_data(n);
            let (mut boxes, mut indices) = (orig_boxes.clone(), orig_indices.clone());
            let mut perm: Vec<u32> = (0..n as u32).collect();
            perm.shuffle(&mut rng);
            let perm_copy = perm.clone();

            apply_permutation(
                perm.as_mut_slice(),
                &mut boxes,
                &mut MutableIndices::U16(&mut indices),
            );

            verify_permutation_result(&perm_copy, &boxes, &indices, &orig_boxes, &orig_indices);
        }
    }
}

#[test]
fn apply_permutation_leaves_the_identity_and_the_keys() {
    let mut boxes: Vec<u8> = (0..16).collect();
    let mut indices: Vec<u32> = vec![70, 71, 72, 73];
    let mut packed: Vec<(char, u32)> = vec![('a', 2), ('b', 0), ('c', 1)];
    apply_permutation(
        packed.as_mut_slice(),
        &mut boxes,
        &mut MutableIndices::U32(&mut indices),
    );
    assert_eq!(packed, vec![('a', 0), ('b', 1), ('c', 2)]);
    assert_eq!(
        boxes,
        vec![8, 9, 10, 11, 0, 1, 2, 3, 4, 5, 6, 7, 12, 13, 14, 15]
    );
    assert_eq!(indices, vec![72, 70, 71, 73]);
}

#[test]
fn k_block_sort_leaves_a_single_block() {
    for (len, k) in [(0, 1), (1, 1), (0, 4), (3, 4), (4, 4)] {
        let before: Vec<u32> = (0..len).rev().collect();
        let mut arr = before.clone();
        k_block_sort_by(&mut arr, k, |_, _| panic!("nothing to compare"));
        assert_eq!(arr, before);
    }
}

#[test]
fn k_block_sort_takes_a_comparison_with_state() {
    let mut calls = 0;
    let mut arr: Vec<u32> = (0..40).rev().collect();
    k_block_sort_by(&mut arr, 8, |a, b| {
        calls += 1;
        a.cmp(b)
    });
    assert!(calls > 0);
    assert_k_block_invariant(&arr, 8);
}

#[test]
fn apply_permutation_follows_several_cycles() {
    // cycles (0 2 1), (3), (4 5)
    let mut perm: Vec<u32> = vec![2, 0, 1, 3, 5, 4];
    let mut boxes: Vec<u32> = (0..28).collect();
    let mut indices: Vec<u16> = vec![10, 11, 12, 13, 14, 15, 16];
    apply_permutation(
        perm.as_mut_slice(),
        &mut boxes,
        &mut MutableIndices::U16(&mut indices),
    );
    assert_eq!(indices, [12, 10, 11, 13, 15, 14, 16]);
    assert_eq!(boxes[..12], [8, 9, 10, 11, 0, 1, 2, 3, 4, 5, 6, 7]);
    assert_eq!(boxes[12..16], [12, 13, 14, 15]);
    assert_eq!(boxes[16..24], [20, 21, 22, 23, 16, 17, 18, 19]);
    assert_eq!(boxes[24..], [24, 25, 26, 27]);
    assert_eq!(perm, [0, 1, 2, 3, 4, 5]);
}
