//! Backward traversal order, IDX decoding and batching.

use std::io::Write;

use flate2::write::GzEncoder;
use flate2::Compression;
use mlrust::array::NdArray;
use mlrust::autograd::topological_order;
use mlrust::error::MLError;
use mlrust::mnist::{decode_idx_images, decode_idx_labels, parse_idx_images, parse_idx_labels, MnistBatcher};

fn gz(bytes: &[u8]) -> Vec<u8> {
    let mut e = GzEncoder::new(Vec::new(), Compression::default());
    e.write_all(bytes).unwrap();
    e.finish().unwrap()
}

fn header(magic: u32, dims: &[u32]) -> Vec<u8> {
    let mut v = magic.to_be_bytes().to_vec();
    for d in dims {
        v.extend_from_slice(&d.to_be_bytes());
    }
    v
}

#[test]
fn topological_order_of_a_diamond() {
    // 0 = 1 + 2, 1 = relu(3), 2 = relu(3)
    let g = vec![vec![1, 2], vec![3], vec![3], vec![]];
    let order = topological_order(&g, 0);
    assert_eq!(order, vec![3, 1, 2, 0]);
}

#[test]
fn topological_order_follows_the_listed_order_of_inputs() {
    let g = vec![vec![2, 1], vec![3], vec![], vec![2]];
    assert_eq!(topological_order(&g, 0), vec![2, 3, 1, 0]);
}

#[test]
fn topological_order_skips_unreachable_nodes() {
    let g = vec![vec![], vec![0], vec![1, 0], vec![2]];
    assert_eq!(topological_order(&g, 2), vec![0, 1, 2]);
    assert_eq!(topological_order(&g, 0), vec![0]);
}

#[test]
fn topological_order_visits_each_node_once_on_cycles() {
    let g = vec![vec![1], vec![0, 1]];
    assert_eq!(topological_order(&g, 0), vec![1, 0]);
}

#[test]
fn decode_images() {
    let mut raw = header(2051, &[2, 1, 3]);
    raw.extend_from_slice(&[1, 2, 3, 4, 5, 6, 99]);
    let a = decode_idx_images(&raw).unwrap();
    assert_eq!(a.shape(), &[2, 1, 1, 3]);
    assert_eq!(a.data(), &[1, 2, 3, 4, 5, 6]);
}

#[test]
fn decode_images_short_data_is_an_io_error() {
    let mut raw = header(2051, &[2, 1, 3]);
    raw.extend_from_slice(&[1, 2, 3]);
    match decode_idx_images(&raw) {
        Err(MLError::IoError(m)) => assert_eq!(m, "failed to fill whole buffer"),
        other => panic!("unexpected {:?}", other),
    }
    match decode_idx_images(&raw[..10]) {
        Err(MLError::IoError(m)) => assert_eq!(m, "failed to fill whole buffer"),
        other => panic!("unexpected {:?}", other),
    }
}

#[test]
fn decode_labels() {
    let mut raw = header(2049, &[3]);
    raw.extend_from_slice(&[7, 0, 9]);
    let a = decode_idx_labels(&raw).unwrap();
    assert_eq!(a.shape(), &[3]);
    assert_eq!(a.data(), &[7, 0, 9]);
    assert!(matches!(decode_idx_labels(&raw[..9]), Err(MLError::IoError(_))));
    assert!(matches!(decode_idx_labels(&raw[..3]), Err(MLError::IoError(_))));
}

#[test]
fn parse_compressed_files() {
    let mut raw = header(2051, &[1, 2, 2]);
    raw.extend_from_slice(&[10, 20, 30, 40]);
    let a = parse_idx_images(&gz(&raw)).unwrap().unwrap();
    assert_eq!(a.shape(), &[1, 1, 2, 2]);
    assert_eq!(a.data(), &[10, 20, 30, 40]);
    let mut raw = header(2049, &[2]);
    raw.extend_from_slice(&[4, 2]);
    let l = parse_idx_labels(&gz(&raw)).unwrap().unwrap();
    assert_eq!(l.data(), &[4, 2]);
}

#[test]
fn parse_refuses_a_wrong_magic_number() {
    let raw = header(2049, &[1, 1, 1]);
    assert!(parse_idx_images(&gz(&raw)).is_none());
    let raw = header(2051, &[1]);
    assert!(parse_idx_labels(&gz(&raw)).is_none());
}

#[test]
fn parse_refuses_overflowing_extents() {
    let raw = header(2051, &[u32::MAX, u32::MAX, u32::MAX]);
    assert!(parse_idx_images(&gz(&raw)).is_none());
}

#[test]
fn parse_reports_corrupt_compression() {
    match parse_idx_images(&[1, 2, 3, 4, 5]) {
        Some(Err(MLError::IoError(m))) => assert!(!m.is_empty()),
        other => panic!("unexpected {:?}", other.map(|r| r.map(|a| a.len()))),
    }
}

#[test]
fn batcher_tiles_an_epoch_and_starts_over() {
    let images = NdArray::from_shape_vec(vec![5, 1, 1, 2], (0..10).collect::<Vec<i32>>()).unwrap();
    let labels = NdArray::from_shape_vec(vec![5], vec![0, 1, 2, 3, 4]).unwrap();
    let mut b = MnistBatcher::new(images, labels, 2);
    let (i0, l0) = b.next().unwrap();
    assert_eq!(i0.shape(), &[2, 1, 1, 2]);
    assert_eq!(i0.data(), &[0, 1, 2, 3]);
    assert_eq!(l0.data(), &[0, 1]);
    let (_, l1) = b.next().unwrap();
    assert_eq!(l1.data(), &[2, 3]);
    let (i2, l2) = b.next().unwrap();
    assert_eq!(i2.shape(), &[1, 1, 1, 2]);
    assert_eq!(l2.data(), &[4]);
    assert!(b.next().is_none());
    let (_, again) = b.next().unwrap();
    assert_eq!(again.data(), &[0, 1]);
}
