use inferno::attention::AttentionGeometry;
use inferno::conv::{mul3, mul4, product_fits4, Conv2dGeometry, Pool2dGeometry};
use inferno::embedding::embedding_index_map;
use inferno::nn::{linear_shapes, AvgPool2d, Flatten, MaxPool2d};

#[test]
fn conv_geometry_without_padding() {
    let g = Conv2dGeometry::new(&[1, 1, 4, 4], &[2, 1, 3, 3], 1, 0);
    assert_eq!((g.out_height, g.out_width), (2, 2));
    assert_eq!(g.patch_size(), 9);
    assert_eq!(g.output_positions(), 4);
    assert_eq!(g.input_len(), 16);
    assert_eq!(g.output_shape(), vec![1, 2, 2, 2]);
}

#[test]
fn conv_geometry_with_same_padding() {
    let g = Conv2dGeometry::new(&[2, 3, 6, 6], &[4, 3, 3, 3], 1, 1);
    assert_eq!(g.output_shape(), vec![2, 4, 6, 6]);
    assert_eq!(g.patch_size(), 27);
    assert_eq!(g.output_positions(), 72);
    assert_eq!(g.input_len(), 216);
}

#[test]
fn conv_geometry_with_padding_and_stride() {
    let g = Conv2dGeometry::new(&[2, 3, 5, 7], &[4, 3, 3, 3], 2, 1);
    assert_eq!((g.out_height, g.out_width), (3, 4));
    assert_eq!(g.patch_size(), 27);
    assert_eq!(g.output_positions(), 24);
    assert_eq!(g.input_len(), 210);
    assert_eq!(g.output_shape(), vec![2, 4, 3, 4]);
}

#[test]
fn conv_geometry_is_defined_only_for_fitting_shapes() {
    assert!(!Conv2dGeometry::fits(&[1, 2, 4, 4], &[2, 1, 3, 3], 1, 0));
    assert!(!Conv2dGeometry::fits(&[2, 3, 6, 6], &[4, 2, 3, 3], 1, 1));
    assert!(!Conv2dGeometry::fits(&[1, 4, 4], &[2, 1, 3, 3], 1, 0));
    assert!(!Conv2dGeometry::fits(&[1, 1, 4, 4], &[2, 1, 3], 1, 0));
    assert!(!Conv2dGeometry::fits(&[1, 1, 4, 4], &[2, 1, 3, 3], 0, 0));
    assert!(!Conv2dGeometry::fits(&[1, 1, 2, 2], &[2, 1, 3, 3], 1, 0));
    assert!(Conv2dGeometry::fits(&[1, 1, 2, 2], &[2, 1, 3, 3], 1, 1));
    assert!(!Conv2dGeometry::fits(&[usize::MAX, 2, 1, 1], &[1, 2, 1, 1], 1, 0));
}

#[test]
fn im2col_map_without_padding() {
    let g = Conv2dGeometry::new(&[1, 1, 3, 3], &[1, 1, 2, 2], 1, 0);
    let expected: Vec<Option<usize>> =
        vec![0, 1, 3, 4, 1, 2, 4, 5, 3, 4, 6, 7, 4, 5, 7, 8].into_iter().map(Some).collect();
    assert_eq!(g.im2col_map(), expected);
}

#[test]
fn im2col_map_marks_padding() {
    let g = Conv2dGeometry::new(&[1, 1, 2, 2], &[1, 1, 2, 2], 1, 1);
    let n = None;
    let expected = vec![
        n, n, n, n, Some(0), Some(1), n, Some(2), Some(3),
        n, n, n, Some(0), Some(1), n, Some(2), Some(3), n,
        n, Some(0), Some(1), n, Some(2), Some(3), n, n, n,
        Some(0), Some(1), n, Some(2), Some(3), n, n, n, n,
    ];
    assert_eq!(g.im2col_map(), expected);
}

#[test]
fn im2col_map_over_channels() {
    let g = Conv2dGeometry::new(&[1, 2, 2, 2], &[3, 2, 1, 1], 1, 0);
    let expected: Vec<Option<usize>> = (0..8).map(Some).collect();
    assert_eq!(g.im2col_map(), expected);
}

#[test]
fn pool_geometry_sizes() {
    let g = Pool2dGeometry::new(&[2, 3, 4, 6], 2, 2).unwrap();
    assert_eq!((g.out_height, g.out_width), (2, 3));
    assert_eq!(g.planes(), 6);
    assert_eq!(g.output_len(), 36);
    assert_eq!(g.output_shape(), vec![2, 3, 2, 3]);
}

#[test]
fn pool_geometry_overlapping_windows() {
    let g = Pool2dGeometry::new(&[1, 1, 5, 5], 3, 1).unwrap();
    assert_eq!((g.out_height, g.out_width), (3, 3));
}

#[test]
fn pool_geometry_refuses_bad_settings() {
    assert!(Pool2dGeometry::new(&[1, 1, 4], 2, 2).is_none());
    assert!(Pool2dGeometry::new(&[1, 1, 4, 4], 5, 1).is_none());
    assert!(Pool2dGeometry::new(&[1, 1, 4, 4], 2, 0).is_none());
}

#[test]
fn pool_window_indices() {
    let g = Pool2dGeometry::new(&[1, 2, 4, 4], 2, 2).unwrap();
    assert_eq!(g.window(0, 1, 1), vec![10, 11, 14, 15]);
    assert_eq!(g.window(1, 0, 1), vec![18, 19, 22, 23]);
}

#[test]
fn pool_output_positions_in_order() {
    let g = Pool2dGeometry::new(&[1, 2, 2, 4], 2, 2).unwrap();
    assert_eq!(g.output_positions(), vec![(0, 0, 0), (0, 0, 1), (1, 0, 0), (1, 0, 1)]);
}

#[test]
fn products_that_fit() {
    assert_eq!(mul3(2, 3, 4), 24);
    assert_eq!(mul4(2, 3, 4, 5), 120);
    assert!(product_fits4(2, 3, 4, 5));
    assert!(!product_fits4(usize::MAX, 2, 1, 1));
    assert!(product_fits4(usize::MAX, 2, 0, 1));
}

#[test]
fn embedding_rows_are_gathered() {
    assert_eq!(embedding_index_map(&[2, 0], 3, 2), Ok(vec![4, 5, 0, 1]));
    assert_eq!(embedding_index_map(&[], 3, 2), Ok(vec![]));
}

#[test]
fn embedding_reports_first_bad_index() {
    assert_eq!(embedding_index_map(&[1, 5, 7], 3, 2), Err(5));
    assert_eq!(embedding_index_map(&[3], 3, 4), Err(3));
}

#[test]
fn attention_geometry_splits_heads() {
    let g = AttentionGeometry::new(&[2, 4, 8], &[2, 4, 8], &[2, 4, 8], 2).unwrap();
    assert_eq!((g.batch, g.seq_len, g.num_heads, g.head_dim), (2, 4, 2, 4));
    assert_eq!(g.d_model(), 8);
    assert_eq!(g.weights_offset(1, 1), 48);
    assert_eq!(g.weights_offset(0, 1), 16);
}

#[test]
fn attention_head_indices() {
    let g = AttentionGeometry::new(&[2, 2, 4], &[2, 2, 4], &[2, 2, 4], 2).unwrap();
    assert_eq!(g.head_indices(0, 1), vec![2, 3, 6, 7]);
    assert_eq!(g.head_indices(1, 0), vec![8, 9, 12, 13]);
}

#[test]
fn attention_geometry_refuses_bad_shapes() {
    assert!(AttentionGeometry::new(&[2, 4, 8], &[2, 4, 8], &[2, 4, 8], 3).is_none());
    assert!(AttentionGeometry::new(&[2, 4, 8], &[2, 4, 8], &[2, 4, 8], 0).is_none());
    assert!(AttentionGeometry::new(&[2, 4, 8], &[2, 5, 8], &[2, 4, 8], 2).is_none());
    assert!(AttentionGeometry::new(&[2, 4, 8], &[2, 4, 8], &[1, 4, 8], 2).is_none());
    assert!(AttentionGeometry::new(&[4, 8], &[4, 8], &[4, 8], 2).is_none());
}

#[test]
fn flatten_keeps_the_batch_axis() {
    assert_eq!(Flatten.output_shape(&[2, 3, 4]), Some(vec![2, 12]));
    assert_eq!(Flatten.output_shape(&[5]), Some(vec![5, 1]));
    assert_eq!(Flatten.output_shape(&[]), None);
    assert_eq!(Flatten.output_shape(&[1, usize::MAX, 2]), None);
}

#[test]
fn pool_layers_keep_their_settings() {
    let m = MaxPool2d::new(2, 2);
    assert_eq!((m.kernel, m.stride), (2, 2));
    let a = AvgPool2d::new(3, 1);
    assert_eq!((a.kernel, a.stride), (3, 1));
}

#[test]
fn linear_reads_all_leading_dimensions_as_rows() {
    assert_eq!(linear_shapes(&[2, 3, 4], 5), Some((6, vec![2, 3, 5])));
    assert_eq!(linear_shapes(&[4], 7), Some((1, vec![7])));
    assert_eq!(linear_shapes(&[], 7), None);
    assert_eq!(linear_shapes(&[usize::MAX, 2, 4], 7), None);
}
