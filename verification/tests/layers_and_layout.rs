//! Layer constructors, array layout, convolution patches and pooling.

use mlrust::array::{checked_product, NdArray};
use mlrust::conv::{col2im_targets, conv_out_extent, im2col, Padding, Stride};
use mlrust::layers::{argmax_rows, max_pool_grad_targets, Flatten, Input, MaxPool2D, ReLU, Softmax};
use mlrust::shape::Shape;

fn arr(shape: Vec<usize>, data: Vec<i32>) -> NdArray<i32> {
    NdArray::from_shape_vec(shape, data).unwrap()
}

#[test]
fn layer_constructors() {
    let _ = ReLU::new();
    let _ = Softmax::new();
    let _ = Flatten::new();
    let input = Input::new(vec![1, 28, 28]);
    assert_eq!(input.shape.0, vec![1, 28, 28]);
    let input = Input::new((4, 5));
    assert_eq!(input.shape.0, vec![4, 5]);
    let image = Input::image(3, 32, 32);
    assert_eq!(image.shape.0, vec![1, 3, 32, 32]);
    let pool = MaxPool2D::new((2, 2));
    assert_eq!(pool.kernel_size, (2, 2));
    let copy = pool.clone();
    assert_eq!(copy.kernel_size, (2, 2));
    let s = Stride(1, 2);
    let p = Padding(0, 3);
    assert_eq!((s.0, s.1, p.0, p.1), (1, 2, 0, 3));
}

#[test]
fn array_from_shape_vec_checks_the_count() {
    assert!(NdArray::from_shape_vec(vec![2, 3], vec![0; 6]).is_some());
    assert!(NdArray::from_shape_vec(vec![2, 3], vec![0; 5]).is_none());
    assert!(NdArray::from_shape_vec(vec![], vec![7]).is_some());
    assert!(NdArray::from_shape_vec(vec![usize::MAX, 2, 0], Vec::<u8>::new()).is_some());
    let a = arr(vec![2, 2], vec![1, 2, 3, 4]);
    assert_eq!(a.ndim(), 2);
    assert_eq!(a.len(), 4);
    assert_eq!(a.shape(), &[2, 2]);
    assert_eq!(a.into_data(), vec![1, 2, 3, 4]);
}

#[test]
fn checked_product_detects_overflow() {
    assert_eq!(checked_product(&[2, 3, 4]), Some(24));
    assert_eq!(checked_product(&[]), Some(1));
    assert_eq!(checked_product(&[usize::MAX, 2]), None);
    assert_eq!(checked_product(&[usize::MAX, usize::MAX, 0]), Some(0));
}

#[test]
fn slice_and_select_rows() {
    let a = arr(vec![3, 2], vec![1, 2, 3, 4, 5, 6]);
    let s = a.slice_rows(1, 3);
    assert_eq!(s.shape(), &[2, 2]);
    assert_eq!(s.data(), &[3, 4, 5, 6]);
    let e = a.slice_rows(2, 2);
    assert_eq!(e.shape(), &[0, 2]);
    assert!(e.data().is_empty());
    let t = a.select_rows(&[2, 0, 2]);
    assert_eq!(t.shape(), &[3, 2]);
    assert_eq!(t.data(), &[5, 6, 1, 2, 5, 6]);
    let none = a.select_rows(&[]);
    assert_eq!(none.shape(), &[0, 2]);
}

#[test]
fn conv_output_extent_formula() {
    assert_eq!(conv_out_extent(28, 1, 3, 1), 28);
    assert_eq!(conv_out_extent(5, 0, 2, 2), 2);
    assert_eq!(conv_out_extent(4, 0, 4, 1), 1);
}

#[test]
fn im2col_without_padding() {
    // one image, one channel, 3x3, kernel 2x2, stride 1
    let x = arr(vec![1, 1, 3, 3], (1..=9).collect());
    let cols = im2col(&x, 2, 2, 1, 1, 0, 0, 0);
    assert_eq!(cols.shape(), &[4, 4]);
    assert_eq!(
        cols.data(),
        &[1, 2, 4, 5, 2, 3, 5, 6, 4, 5, 7, 8, 5, 6, 8, 9]
    );
}

#[test]
fn im2col_with_padding_and_channels() {
    // one image, two channels of 1x1, kernel 1x1 padded by 1 -> 3x3 positions
    let x = arr(vec![1, 2, 1, 1], vec![7, 9]);
    let cols = im2col(&x, 1, 1, 1, 1, 1, 1, 0);
    assert_eq!(cols.shape(), &[9, 2]);
    let mut expected = vec![0; 18];
    expected[8] = 7;
    expected[9] = 9;
    assert_eq!(cols.data(), &expected[..]);
}

fn fold(targets: &[Option<usize>], cols: &[i64], len: usize) -> Vec<i64> {
    let mut image = vec![0i64; len];
    for (t, &g) in targets.iter().zip(cols.iter()) {
        if let Some(q) = *t {
            image[q] += g;
        }
    }
    image
}

#[test]
fn col2im_targets_name_the_cell_each_entry_reads() {
    // two 1x2 windows over a 1x3 row
    let targets = col2im_targets(&[1, 1, 1, 3], 1, 2, 1, 1, 0, 0);
    assert_eq!(targets, vec![Some(0), Some(1), Some(1), Some(2)]);
    // overlapping windows are summed
    assert_eq!(fold(&targets, &[1, 10, 1, 10], 3), vec![1, 11, 10]);
    // entries read from the padding have no target
    let padded = col2im_targets(&[1, 1, 1, 1], 1, 3, 1, 1, 0, 1);
    assert_eq!(padded, vec![None, Some(0), None]);
}

#[test]
fn col2im_targets_fold_is_the_adjoint_of_im2col() {
    let x = NdArray::from_shape_vec(vec![2, 1, 3, 3], (1..=18).map(|v| v as i64).collect()).unwrap();
    let unfolded = im2col(&x, 2, 2, 1, 1, 1, 1, 0i64);
    let c: Vec<i64> = (0..unfolded.len() as i64).map(|t| (t * 7) % 11 - 5).collect();
    let targets = col2im_targets(&[2, 1, 3, 3], 2, 2, 1, 1, 1, 1);
    assert_eq!(targets.len(), unfolded.len());
    let lhs: i64 = c.iter().zip(unfolded.data().iter()).map(|(a, b)| a * b).sum();
    let folded = fold(&targets, &c, 18);
    let rhs: i64 = x.data().iter().zip(folded.iter()).map(|(a, b)| a * b).sum();
    assert_eq!(lhs, rhs);
    // with a 2x2 kernel, stride 1 and padding 1, every cell lies in four windows
    let ones = vec![1i64; unfolded.len()];
    assert_eq!(fold(&targets, &ones, 18), vec![4i64; 18]);
}

#[test]
fn flatten_reshapes_rows() {
    let x = arr(vec![2, 2, 1, 3], (0..12).collect());
    let y = Flatten::new().forward_array(x);
    assert_eq!(y.shape(), &[2, 6]);
    assert_eq!(y.data(), &(0..12).collect::<Vec<i32>>()[..]);
}

#[test]
fn max_pool_forward_keeps_the_first_greatest() {
    let mut pool = MaxPool2D::new((2, 2));
    let x = arr(vec![1, 1, 2, 4], vec![1, 5, 2, 2, 5, 3, 2, 0]);
    let keys = NdArray::from_shape_vec(vec![1, 1, 2, 4], vec![1u32, 5, 2, 2, 5, 3, 2, 0]).unwrap();
    let (values, indices) = pool.max_pool_forward(&x, &keys, -100, 0, 2, 2);
    assert_eq!(values.shape(), &[1, 1, 1, 2]);
    assert_eq!(values.data(), &[5, 2]);
    assert_eq!(indices.data(), &[1, 0]);
}

#[test]
fn max_pool_forward_below_floor_keeps_init() {
    let mut pool = MaxPool2D::new((1, 2));
    let x = arr(vec![1, 1, 1, 3], vec![4, 6, 8]);
    let keys = NdArray::from_shape_vec(vec![1, 1, 1, 3], vec![1u32, 1, 9]).unwrap();
    let (values, indices) = pool.max_pool_forward(&x, &keys, -1, 1, 1, 2);
    assert_eq!(values.shape(), &[1, 1, 1, 1]);
    assert_eq!(values.data(), &[-1]);
    assert_eq!(indices.data(), &[0]);
}

#[test]
fn max_pool_backward_routes_to_the_kept_cell() {
    let mut pool = MaxPool2D::new((2, 2));
    let x = arr(vec![1, 1, 2, 4], vec![1, 5, 2, 2, 5, 3, 2, 9]);
    let keys = NdArray::from_shape_vec(vec![1, 1, 2, 4], vec![1u32, 5, 2, 2, 5, 3, 2, 9]).unwrap();
    let (_, indices) = pool.max_pool_forward(&x, &keys, -1, 0, 2, 2);
    let targets = max_pool_grad_targets(&Shape(vec![1, 1, 2, 4]), &indices, 2, 2);
    assert_eq!(targets, Some(vec![1, 7]));
}

#[test]
fn max_pool_backward_routes_to_the_kept_cell_when_the_kernel_does_not_divide() {
    let mut pool = MaxPool2D::new((2, 2));
    let x = arr(vec![1, 1, 3, 3], vec![1, 2, 0, 3, 9, 0, 0, 0, 0]);
    let keys = NdArray::from_shape_vec(vec![1, 1, 3, 3], vec![1u32, 2, 0, 3, 9, 0, 0, 0, 0]).unwrap();
    let (out, indices) = pool.max_pool_forward(&x, &keys, -1, 0, 2, 2);
    assert_eq!(out.data(), &[9]);
    assert_eq!(indices.data(), &[3]);
    assert_eq!(max_pool_grad_targets(&Shape(vec![1, 1, 3, 3]), &indices, 2, 2), Some(vec![4]));
}

#[test]
fn max_pool_backward_rejects_a_position_outside_the_input() {
    let indices = NdArray::from_shape_vec(vec![1, 1, 1, 2], vec![0usize, 7]).unwrap();
    assert_eq!(max_pool_grad_targets(&Shape(vec![1, 1, 2, 4]), &indices, 2, 2), None);
    let inside = NdArray::from_shape_vec(vec![1, 1, 1, 2], vec![3usize, 2]).unwrap();
    assert_eq!(max_pool_grad_targets(&Shape(vec![1, 1, 2, 4]), &inside, 2, 2), Some(vec![5, 6]));
}

#[test]
fn argmax_rows_picks_the_first_greatest_key() {
    let keys = NdArray::from_shape_vec(vec![3, 4], vec![1u32, 7, 7, 3, 5, 5, 5, 5, 0, 2, 9, 1]).unwrap();
    assert_eq!(argmax_rows(&keys, 0), vec![1, 0, 2]);
}

#[test]
fn argmax_rows_below_floor_predicts_zero() {
    let keys = NdArray::from_shape_vec(vec![2, 3], vec![4u32, 4, 4, 2, 9, 1]).unwrap();
    assert_eq!(argmax_rows(&keys, 4), vec![0, 1]);
    let empty = NdArray::from_shape_vec(vec![0, 3], Vec::<u32>::new()).unwrap();
    assert_eq!(argmax_rows(&empty, 0), Vec::<usize>::new());
}
