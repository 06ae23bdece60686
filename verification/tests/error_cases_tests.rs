use numrs2::array::Array;
use numrs2::error::NumRs2Error;
use numrs2::indexing::putmask;
use numrs2::io::{array_to_vec2d, vec2d_to_array, vec_to_array};

#[test]
fn choose_from_rejects_choices_of_other_shapes() {
    let idx = Array::from_vec(vec![0isize, 1]);
    let c0 = Array::from_vec(vec![1, 2]);
    let c1 = Array::from_vec(vec![1, 2, 3]);
    assert!(matches!(idx.choose_from(&[&c0, &c1], None), Err(NumRs2Error::ShapeMismatch { .. })));
}

#[test]
fn diagonal_with_an_empty_other_axis() {
    let a = Array::from_vec(Vec::<i32>::new()).reshape(&[2, 2, 0]);
    assert!(matches!(a.diagonal(0, Some(0), Some(1)), Err(NumRs2Error::IndexOutOfBounds(_))));
}

#[test]
fn take_and_compress_axis_out_of_range() {
    let a = Array::from_vec(vec![1, 2, 3, 4]).reshape(&[2, 2]);
    let idx = Array::from_vec(vec![0usize]);
    assert!(matches!(a.take(&idx, Some(2)), Err(NumRs2Error::DimensionMismatch(_))));
    let cond = Array::from_vec(vec![true, false]);
    assert!(matches!(a.compress(&cond, Some(2)), Err(NumRs2Error::DimensionMismatch(_))));
    let along = Array::from_vec(vec![2usize]);
    assert!(matches!(a.take(&along, Some(0)), Err(NumRs2Error::IndexOutOfBounds(_))));
}

#[test]
fn putmask_without_values() {
    let mut a = Array::from_vec(vec![1, 2]);
    let mask = Array::from_vec(vec![true, false]);
    let none = Array::from_vec(Vec::<i32>::new());
    assert!(matches!(putmask(&mut a, &mask, &none), Err(NumRs2Error::InvalidOperation(_))));
    assert_eq!(a.to_vec(), vec![1, 2]);
}

#[test]
fn conversions_report_dimension_errors() {
    assert!(matches!(vec2d_to_array(vec![vec![1, 2], vec![3]]), Err(NumRs2Error::DimensionMismatch(_))));
    let empty = vec2d_to_array(Vec::<Vec<i32>>::new()).unwrap();
    assert_eq!(empty.shape(), vec![0]);
    let a = Array::from_vec(vec![1, 2, 3]);
    assert!(matches!(array_to_vec2d(&a), Err(NumRs2Error::DimensionMismatch(_))));
    let b = Array::from_vec(vec![1, 2, 3, 4, 5, 6, 7, 8]).reshape(&[2, 2, 2]);
    assert!(matches!(b.to_row_vectors(), Err(NumRs2Error::DimensionMismatch(_))));
    assert_eq!(a.to_row_vectors().unwrap(), vec![vec![1, 2, 3]]);
    let c = vec_to_array(vec![1, 2, 3], None).unwrap();
    assert_eq!(c.shape(), vec![3]);
}
