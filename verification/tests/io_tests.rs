use numrs2::array::Array;
use numrs2::io::{array_to_vec2d, vec2d_to_array, vec_to_array};

#[test]
fn test_vec_to_array() {
    let vec = vec![1, 2, 3, 4];
    let array = vec_to_array(vec, Some(&[2, 2])).unwrap();
    assert_eq!(array.shape(), vec![2, 2]);
    assert_eq!(array.to_vec(), vec![1, 2, 3, 4]);
}

#[test]
fn test_vec2d_to_array() {
    let vec = vec![vec![1, 2], vec![3, 4]];
    let array = vec2d_to_array(vec).unwrap();
    assert_eq!(array.shape(), vec![2, 2]);
    assert_eq!(array.to_vec(), vec![1, 2, 3, 4]);
}

#[test]
fn test_array_to_vec2d() {
    let array = Array::from_vec(vec![1, 2, 3, 4]).reshape(&[2, 2]);
    let vec = array_to_vec2d(&array).unwrap();
    assert_eq!(vec, vec![vec![1, 2], vec![3, 4]]);
}

#[test]
fn test_csv_serialization() {
    let array = Array::from_vec(vec![1, 2, 3, 4]).reshape(&[2, 2]);
    let rows = array.to_row_vectors().unwrap();
    assert_eq!(rows, vec![vec![1, 2], vec![3, 4]]);
}

#[test]
fn test_ndarray_conversions() {
    // The ndarray conversions are tested with their own module.
}

#[test]
fn test_nalgebra_conversions() {
    // The nalgebra conversions are tested with their own module.
}
