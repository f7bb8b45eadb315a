//! Shape and error tests.

use mlrust::error::MLError;
use mlrust::shape::{broadcast_reduction_axes, is_scalar, Device, Shape};

#[test]
fn test_shape_from_slice() {
    let shape: Shape = (&[2, 3, 4][..]).into();
    assert_eq!(shape.len(), 3);
    assert_eq!(shape.0[0], 2);
    assert_eq!(shape.0[1], 3);
    assert_eq!(shape.0[2], 4);
}

#[test]
fn test_shape_from_tuple() {
    let shape: Shape = (10, 20).into();
    assert_eq!(shape.len(), 2);
    assert_eq!(shape.0[0], 10);
    assert_eq!(shape.0[1], 20);
}

#[test]
fn test_shape_size() {
    let shape = Shape(vec![2, 3, 4]);
    assert_eq!(shape.size(), 24);
}

#[test]
fn shape_from_vec_and_four_tuple() {
    let a: Shape = vec![5, 6].into();
    assert_eq!(a.0, vec![5, 6]);
    let b: Shape = (1, 2, 3, 4).into();
    assert_eq!(b.0, vec![1, 2, 3, 4]);
    assert_eq!(b.size(), 24);
}

#[test]
fn shape_empty_has_size_one() {
    let s = Shape(vec![]);
    assert!(s.is_empty());
    assert_eq!(s.len(), 0);
    assert_eq!(s.size(), 1);
    let z = Shape(vec![3, 0, 7]);
    assert!(!z.is_empty());
    assert_eq!(z.size(), 0);
}

#[test]
fn scalar_shape_is_one_by_one() {
    assert!(is_scalar((1, 1)));
    assert!(!is_scalar((1, 2)));
    assert!(!is_scalar((2, 1)));
    assert!(!is_scalar((0, 0)));
}

#[test]
fn broadcast_axes_follow_the_operand_shape() {
    assert_eq!(broadcast_reduction_axes((3, 4), (3, 4)), (false, false));
    assert_eq!(broadcast_reduction_axes((3, 4), (1, 4)), (true, false));
    assert_eq!(broadcast_reduction_axes((3, 4), (3, 1)), (false, true));
    assert_eq!(broadcast_reduction_axes((3, 4), (1, 1)), (true, true));
    assert_eq!(broadcast_reduction_axes((1, 4), (1, 1)), (false, true));
}

#[test]
fn device_is_cpu() {
    let d = Device::Cpu;
    assert_eq!(d, Device::Cpu);
}

#[test]
fn error_messages() {
    let e = MLError::ShapeMismatch {
        expected: "(2, 3)".to_string(),
        got: "(3, 2)".to_string(),
        operation: "add".to_string(),
    };
    assert_eq!(e.message(), "Shape mismatch in add: expected (2, 3), got (3, 2)");
    let e = MLError::DimensionError { expected: 2, got: 104, operation: "MatMul backward".to_string() };
    assert_eq!(e.message(), "Dimension error in MatMul backward: expected 2 dimensions, got 104");
    let e = MLError::DimensionError { expected: 0, got: 10, operation: "x".to_string() };
    assert_eq!(e.message(), "Dimension error in x: expected 0 dimensions, got 10");
    assert_eq!(MLError::GradientError("g".to_string()).message(), "Gradient error: g");
    assert_eq!(MLError::LockError("l".to_string()).message(), "Lock acquisition failed: l");
    assert_eq!(MLError::InvalidOperation("i".to_string()).message(), "Invalid operation: i");
    assert_eq!(MLError::DistributionError("d".to_string()).message(), "Distribution error: d");
    assert_eq!(MLError::IoError("o".to_string()).message(), "I/O error: o");
    assert_eq!(MLError::SerializationError("s".to_string()).message(), "Serialization error: s");
    assert_eq!(MLError::DataError("x".to_string()).message(), "Data error: x");
    assert_eq!(MLError::ConfigError("c".to_string()).message(), "Configuration error: c");
}
