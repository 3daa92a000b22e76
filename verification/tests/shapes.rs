use inferno::broadcast::{broadcast_index_map, broadcast_shape, broadcast_strides, broadcastable, reads_as};
use inferno::gather::{gather, gather_or};
use inferno::layout::{swap_leading_axes, transpose_matrix};
use inferno::shape::{checked_numel, strides_row_major};

#[test]
fn numel_multiplies_dimensions() {
    assert_eq!(checked_numel(&[2, 3, 4]), Some(24));
    assert_eq!(checked_numel(&[7]), Some(7));
}

#[test]
fn numel_of_empty_shape_is_one() {
    assert_eq!(checked_numel(&[]), Some(1));
}

#[test]
fn numel_with_zero_dimension_is_zero() {
    assert_eq!(checked_numel(&[3, 0, 5]), Some(0));
    assert_eq!(checked_numel(&[0, usize::MAX, 2]), Some(0));
}

#[test]
fn numel_overflow_is_none() {
    assert_eq!(checked_numel(&[usize::MAX, 2]), None);
    assert_eq!(checked_numel(&[usize::MAX, 2, 0]), None);
}

#[test]
fn row_major_strides() {
    assert_eq!(strides_row_major(&[2, 3, 4]), vec![12, 4, 1]);
    assert_eq!(strides_row_major(&[5]), vec![1]);
    assert_eq!(strides_row_major(&[]), Vec::<usize>::new());
}

#[test]
fn broadcast_bias_over_rows() {
    assert_eq!(broadcast_shape(&[4, 3], &[3]), vec![4, 3]);
}

#[test]
fn broadcast_stretches_ones_on_both_sides() {
    assert_eq!(broadcast_shape(&[2, 1], &[1, 5]), vec![2, 5]);
    assert_eq!(broadcast_shape(&[1, 5], &[2, 1]), vec![2, 5]);
    assert_eq!(broadcast_shape(&[2, 1, 3], &[4, 3]), vec![2, 4, 3]);
    assert_eq!(broadcast_shape(&[4, 3], &[2, 1, 3]), vec![2, 4, 3]);
    assert_eq!(broadcast_shape(&[], &[5]), vec![5]);
}

#[test]
fn incompatible_shapes_do_not_broadcast() {
    assert!(!broadcastable(&[2], &[3]));
    assert!(!broadcastable(&[4, 2], &[3, 2]));
    assert!(!broadcastable(&[2, 3], &[4, 3]));
    assert!(broadcastable(&[2, 1, 3], &[4, 3]));
    assert!(broadcastable(&[], &[5]));
}

#[test]
fn broadcast_is_symmetric_on_examples() {
    let cases: Vec<(Vec<usize>, Vec<usize>)> = vec![
        (vec![4, 3], vec![3]),
        (vec![2, 1, 5], vec![7, 1]),
        (vec![2], vec![3]),
        (vec![], vec![6, 2]),
    ];
    for (a, b) in cases {
        assert_eq!(broadcastable(&a, &b), broadcastable(&b, &a));
        if broadcastable(&a, &b) {
            assert_eq!(broadcast_shape(&a, &b), broadcast_shape(&b, &a));
        }
    }
}

#[test]
fn broadcast_with_itself_is_itself() {
    assert_eq!(broadcast_shape(&[3, 0, 2], &[3, 0, 2]), vec![3, 0, 2]);
}

#[test]
fn broadcast_strides_zero_for_stretched_axes() {
    assert_eq!(broadcast_strides(&[3], &[4, 3]), vec![0, 1]);
    assert_eq!(broadcast_strides(&[2, 1], &[2, 5]), vec![1, 0]);
    assert_eq!(broadcast_strides(&[2, 3], &[2, 3]), vec![3, 1]);
}

#[test]
fn index_map_repeats_a_row_vector() {
    assert_eq!(broadcast_index_map(&[2, 3], &[3]), Some(vec![0, 1, 2, 0, 1, 2]));
}

#[test]
fn index_map_repeats_a_column_vector() {
    assert_eq!(broadcast_index_map(&[2, 3], &[2, 1]), Some(vec![0, 0, 0, 1, 1, 1]));
}

#[test]
fn index_map_of_same_shape_is_identity() {
    assert_eq!(broadcast_index_map(&[2, 2], &[2, 2]), Some(vec![0, 1, 2, 3]));
}

#[test]
fn index_map_of_scalar_source() {
    assert_eq!(broadcast_index_map(&[3], &[1]), Some(vec![0, 0, 0]));
    assert_eq!(broadcast_index_map(&[2, 2], &[]), Some(vec![0, 0, 0, 0]));
}

#[test]
fn index_map_refuses_unreadable_source() {
    assert_eq!(broadcast_index_map(&[2, 3], &[4]), None);
    assert_eq!(broadcast_index_map(&[2, 3], &[2]), None);
}

#[test]
fn index_map_of_empty_output_is_empty() {
    assert_eq!(broadcast_index_map(&[0, 3], &[4]), Some(vec![]));
}

#[test]
fn reads_as_follows_broadcast_rules() {
    assert!(reads_as(&[3], &[4, 3]));
    assert!(reads_as(&[1, 3], &[4, 3]));
    assert!(!reads_as(&[2, 3], &[4, 3]));
    assert!(!reads_as(&[1, 4, 3], &[4, 3]));
}

#[test]
fn gather_reads_named_positions() {
    assert_eq!(gather(&[10, 20, 30], &[2, 0, 2, 1]), vec![30, 10, 30, 20]);
    assert_eq!(gather::<i32>(&[], &[]), Vec::<i32>::new());
}

#[test]
fn gather_or_fills_gaps() {
    assert_eq!(gather_or(&[1.5f32, 2.5], &[Some(1), None, Some(0)], 0.0), vec![2.5, 0.0, 1.5]);
}

#[test]
fn swap_leading_axes_of_three_axis_buffer() {
    let data: Vec<u32> = (0..12).collect();
    assert_eq!(swap_leading_axes(&data, 2, 3, 2), vec![0, 1, 6, 7, 2, 3, 8, 9, 4, 5, 10, 11]);
}

#[test]
fn transpose_of_matrix() {
    assert_eq!(transpose_matrix(&[1, 2, 3, 4, 5, 6], 2, 3), vec![1, 4, 2, 5, 3, 6]);
}

#[test]
fn transpose_twice_is_identity() {
    let data: Vec<u32> = (0..12).collect();
    let once = transpose_matrix(&data, 3, 4);
    assert_ne!(once, data);
    assert_eq!(transpose_matrix(&once, 4, 3), data);
    let swapped = swap_leading_axes(&data, 2, 3, 2);
    assert_eq!(swap_leading_axes(&swapped, 3, 2, 2), data);
}

#[test]
fn both_operands_read_at_the_broadcast_shape() {
    let cases: Vec<(Vec<usize>, Vec<usize>)> =
        vec![(vec![4, 3], vec![3]), (vec![2, 1, 5], vec![7, 1]), (vec![0, 3], vec![0, 1]), (vec![], vec![2])];
    for (a, b) in cases {
        let out = broadcast_shape(&a, &b);
        assert!(broadcast_index_map(&out, &a).is_some());
        assert!(broadcast_index_map(&out, &b).is_some());
    }
}

#[test]
fn zero_dimension_facing_one_cannot_be_read() {
    let out = broadcast_shape(&[0], &[1]);
    assert_eq!(out, vec![1]);
    assert_eq!(broadcast_index_map(&out, &[0]), None);
}
