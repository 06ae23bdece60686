use numrs2::array::Array;
use numrs2::error::NumRs2Error;
use numrs2::indexing::{indices_grid, ix_, mask_indices, put, putmask, IndexSpec};

fn a23() -> Array<i32> {
    Array::from_vec(vec![1, 2, 3, 4, 5, 6]).reshape(&[2, 3])
}

#[test]
fn get_and_set_read_back() {
    let mut a = a23();
    assert_eq!(a.get(&[1, 2]).unwrap(), 6);
    a.set(&[0, 1], 20).unwrap();
    assert_eq!(a.get(&[0, 1]).unwrap(), 20);
    assert_eq!(a.get(&[1, 1]).unwrap(), 5);
    assert!(matches!(a.get(&[2, 0]), Err(NumRs2Error::IndexOutOfBounds(_))));
    assert!(matches!(a.get(&[0]), Err(NumRs2Error::DimensionMismatch(_))));
    assert!(matches!(a.set(&[0, 3], 1), Err(NumRs2Error::IndexOutOfBounds(_))));
    assert_eq!(a.to_vec(), vec![1, 20, 3, 4, 5, 6]);
}

#[test]
fn transpose_twice_is_identity() {
    let a = a23();
    let t = a.transpose();
    assert_eq!(t.shape(), vec![3, 2]);
    assert_eq!(t.to_vec(), vec![1, 4, 2, 5, 3, 6]);
    let u = t.transpose();
    assert_eq!(u.shape(), a.shape());
    assert_eq!(u.to_vec(), a.to_vec());
}

#[test]
fn reshape_back_gives_same_array() {
    let a = a23();
    let b = a.reshape(&[3, 2]);
    let c = b.reshape(&[2, 3]);
    assert_eq!(c.shape(), vec![2, 3]);
    assert_eq!(c.to_vec(), a.to_vec());
}

#[test]
fn index_empty_specs_copies() {
    let a = a23();
    let r = a.index(&[]).unwrap();
    assert_eq!(r.shape(), vec![2, 3]);
    assert_eq!(r.to_vec(), a.to_vec());
}

#[test]
fn index_single_integer_drops_axis() {
    let a = a23();
    let r = a.index(&[IndexSpec::Index(1)]).unwrap();
    assert_eq!(r.shape(), vec![3]);
    assert_eq!(r.to_vec(), vec![4, 5, 6]);
    let r = a.index(&[IndexSpec::Index(0), IndexSpec::Index(2)]).unwrap();
    assert_eq!(r.shape(), Vec::<usize>::new());
    assert_eq!(r.to_vec(), vec![3]);
}

#[test]
fn index_slices_with_step() {
    let a = Array::from_vec((0..10).collect::<Vec<i32>>());
    let r = a.index(&[IndexSpec::slice(1, Some(8), Some(3))]).unwrap();
    assert_eq!(r.to_vec(), vec![1, 4, 7]);
    let r = a.index(&[IndexSpec::from_range(2..5)]).unwrap();
    assert_eq!(r.to_vec(), vec![2, 3, 4]);
    let r = a.index(&[IndexSpec::slice(5, Some(3), None)]).unwrap();
    assert_eq!(r.shape(), vec![0]);
    let b = a23();
    let r = b.index(&[IndexSpec::All, IndexSpec::slice(1, None, None)]).unwrap();
    assert_eq!(r.shape(), vec![2, 2]);
    assert_eq!(r.to_vec(), vec![2, 3, 5, 6]);
}

#[test]
fn index_errors() {
    let a = a23();
    assert!(matches!(
        a.index(&[IndexSpec::All, IndexSpec::All, IndexSpec::All]),
        Err(NumRs2Error::DimensionMismatch(_))
    ));
    assert!(matches!(a.index(&[IndexSpec::Index(2)]), Err(NumRs2Error::IndexOutOfBounds(_))));
    assert!(matches!(
        a.index(&[IndexSpec::slice(2, None, None)]),
        Err(NumRs2Error::IndexOutOfBounds(_))
    ));
    assert!(matches!(
        a.index(&[IndexSpec::slice(0, Some(3), None)]),
        Err(NumRs2Error::IndexOutOfBounds(_))
    ));
    assert!(matches!(
        a.index(&[IndexSpec::slice(0, None, Some(0))]),
        Err(NumRs2Error::InvalidOperation(_))
    ));
}

#[test]
fn index_ellipsis_addresses_trailing_axes() {
    let a = Array::from_vec((0..24).collect::<Vec<i32>>()).reshape(&[2, 3, 4]);
    let r = a.index(&[IndexSpec::ellipsis(), IndexSpec::Index(1)]).unwrap();
    assert_eq!(r.shape(), vec![2, 3]);
    assert_eq!(r.to_vec(), vec![1, 5, 9, 13, 17, 21]);
    let r = a.index(&[IndexSpec::Index(1), IndexSpec::ellipsis()]).unwrap();
    assert_eq!(r.shape(), vec![3, 4]);
    assert_eq!(r.to_vec(), (12..24).collect::<Vec<i32>>());
    assert!(matches!(
        a.index(&[IndexSpec::ellipsis(), IndexSpec::ellipsis()]),
        Err(NumRs2Error::InvalidOperation(_))
    ));
}

#[test]
fn index_with_mask_selects_rows() {
    let a = Array::from_vec(vec![1, 2, 3, 4, 5, 6]).reshape(&[3, 2]);
    let r = a.index(&[IndexSpec::from_mask(vec![true, false, true])]).unwrap();
    assert_eq!(r.shape(), vec![2, 2]);
    assert_eq!(r.to_vec(), vec![1, 2, 5, 6]);
    let r = a.index(&[IndexSpec::from_mask(vec![false, false, false])]).unwrap();
    assert_eq!(r.shape(), vec![0, 2]);
    assert!(matches!(
        a.index(&[IndexSpec::from_mask(vec![true, false])]),
        Err(NumRs2Error::ShapeMismatch { .. })
    ));
}

#[test]
fn index_with_integer_array() {
    let a = a23();
    let r = a.index(&[IndexSpec::from_indices(vec![1, 0, 1])]).unwrap();
    assert_eq!(r.shape(), vec![3, 3]);
    assert_eq!(r.to_vec(), vec![4, 5, 6, 1, 2, 3, 4, 5, 6]);
    let r = a.index(&[IndexSpec::All, IndexSpec::from_indices(vec![2, 0])]).unwrap();
    assert_eq!(r.shape(), vec![2, 2]);
    assert_eq!(r.to_vec(), vec![3, 1, 6, 4]);
    let r = a.index(&[IndexSpec::from_indices(vec![])]).unwrap();
    assert_eq!(r.shape(), vec![0, 3]);
    assert!(matches!(
        a.index(&[IndexSpec::from_indices(vec![2])]),
        Err(NumRs2Error::IndexOutOfBounds(_))
    ));
}

#[test]
fn index_integer_array_with_slice_pads_with_default() {
    let a = a23();
    let r = a.index(&[IndexSpec::from_indices(vec![1]), IndexSpec::slice(0, Some(2), None)]).unwrap();
    assert_eq!(r.shape(), vec![1, 3]);
    assert_eq!(r.to_vec(), vec![4, 5, 0]);
    let r = a
        .index_with_fill(&[IndexSpec::from_indices(vec![1]), IndexSpec::slice(0, Some(2), None)], -1)
        .unwrap();
    assert_eq!(r.to_vec(), vec![4, 5, -1]);
}

#[test]
fn index_with_several_integer_arrays() {
    let a = a23();
    let r = a
        .index(&[IndexSpec::from_indices(vec![0, 1]), IndexSpec::from_indices(vec![2, 0])])
        .unwrap();
    assert_eq!(r.shape(), vec![2]);
    assert_eq!(r.to_vec(), vec![3, 4]);
    let r = a
        .index(&[IndexSpec::from_indices(vec![1]), IndexSpec::from_indices(vec![0, 1, 2])])
        .unwrap();
    assert_eq!(r.to_vec(), vec![4, 5, 6]);
    assert!(matches!(
        a.index(&[IndexSpec::from_indices(vec![0, 1]), IndexSpec::from_indices(vec![0, 1, 2])]),
        Err(NumRs2Error::ShapeMismatch { .. })
    ));
    assert!(matches!(
        a.index(&[IndexSpec::from_indices(vec![0, 2]), IndexSpec::from_indices(vec![0, 1])]),
        Err(NumRs2Error::IndexOutOfBounds(_))
    ));
}

#[test]
fn diag_and_diagonal() {
    let a = Array::from_vec(vec![1, 2, 3, 4, 5, 6, 7, 8, 9]).reshape(&[3, 3]);
    assert_eq!(a.diag().unwrap().to_vec(), vec![1, 5, 9]);
    assert_eq!(a.diagonal(0, None, None).unwrap().to_vec(), vec![1, 5, 9]);
    assert_eq!(a.diagonal(1, None, None).unwrap().to_vec(), vec![2, 6]);
    assert_eq!(a.diagonal(-1, None, None).unwrap().to_vec(), vec![4, 8]);
    assert!(matches!(a.diagonal(0, Some(0), Some(0)), Err(NumRs2Error::InvalidOperation(_))));
    assert!(matches!(a.diagonal(0, Some(0), Some(2)), Err(NumRs2Error::DimensionMismatch(_))));
    let v = Array::from_vec(vec![1, 2]);
    assert!(matches!(v.diag(), Err(NumRs2Error::DimensionMismatch(_))));
}

#[test]
fn take_flat_and_along_axis() {
    let a = a23();
    let idx = Array::from_vec(vec![5usize, 0, 2]);
    assert_eq!(a.take(&idx, None).unwrap().to_vec(), vec![6, 1, 3]);
    let cols = Array::from_vec(vec![2usize, 0]);
    let r = a.take(&cols, Some(1)).unwrap();
    assert_eq!(r.shape(), vec![2, 2]);
    assert_eq!(r.to_vec(), vec![3, 1, 6, 4]);
    let bad = Array::from_vec(vec![6usize]);
    assert!(matches!(a.take(&bad, None), Err(NumRs2Error::IndexOutOfBounds(_))));
}

#[test]
fn compress_flat_and_along_axis() {
    let a = a23();
    let c = Array::from_vec(vec![true, false, true, false, false, true]);
    assert_eq!(a.compress(&c, None).unwrap().to_vec(), vec![1, 3, 6]);
    let rows = Array::from_vec(vec![false, true]);
    let r = a.compress(&rows, Some(0)).unwrap();
    assert_eq!(r.shape(), vec![1, 3]);
    assert_eq!(r.to_vec(), vec![4, 5, 6]);
    let short = Array::from_vec(vec![true]);
    assert!(matches!(a.compress(&short, None), Err(NumRs2Error::ShapeMismatch { .. })));
}

#[test]
fn choose_from_choices() {
    let idx = Array::from_vec(vec![0isize, 1, 0, 1]);
    let c0 = Array::from_vec(vec![10, 20, 30, 40]);
    let c1 = Array::from_vec(vec![1, 2, 3, 4]);
    let r = idx.choose_from(&[&c0, &c1], None).unwrap();
    assert_eq!(r.to_vec(), vec![10, 2, 30, 4]);
    let wrap = Array::from_vec(vec![2isize, -1, 0, 3]);
    assert_eq!(wrap.choose_from(&[&c0, &c1], Some("wrap")).unwrap().to_vec(), vec![10, 2, 30, 4]);
    assert_eq!(wrap.choose_from(&[&c0, &c1], Some("clip")).unwrap().to_vec(), vec![1, 20, 30, 4]);
    let a = Array::from_vec(vec![3isize, -1]);
    let d0 = Array::from_vec(vec![1, 2]);
    let d1 = Array::from_vec(vec![10, 20]);
    assert_eq!(a.choose_from(&[&d0, &d1], Some("wrap")).unwrap().to_vec(), vec![10, 20]);
    assert_eq!(a.choose_from(&[&d0, &d1], Some("clip")).unwrap().to_vec(), vec![10, 2]);
    assert!(matches!(wrap.choose_from(&[&c0, &c1], None), Err(NumRs2Error::IndexOutOfBounds(_))));
    assert!(matches!(idx.choose_from(&[&c0, &c1], Some("bogus")), Err(NumRs2Error::InvalidOperation(_))));
    let empty: [&Array<i32>; 0] = [];
    assert!(matches!(idx.choose_from(&empty, None), Err(NumRs2Error::InvalidOperation(_))));
}

#[test]
fn put_writes_flat_positions() {
    let mut a = a23();
    let idx = Array::from_vec(vec![0isize, 5]);
    let vals = Array::from_vec(vec![-1, -2]);
    put(&mut a, &idx, &vals, None).unwrap();
    assert_eq!(a.to_vec(), vec![-1, 2, 3, 4, 5, -2]);
    let far = Array::from_vec(vec![7isize]);
    let one = Array::from_vec(vec![9]);
    put(&mut a, &far, &one, Some("wrap")).unwrap();
    assert_eq!(a.to_vec(), vec![-1, 11, 3, 4, 5, -2]);
    put(&mut a, &far, &one, Some("clip")).unwrap();
    assert_eq!(a.to_vec(), vec![-1, 11, 3, 4, 5, 9]);
    let inside = Array::from_vec(vec![1isize]);
    put(&mut a, &inside, &one, Some("wrap")).unwrap();
    assert_eq!(a.to_vec(), vec![-1, 9, 3, 4, 5, 9]);
    assert!(matches!(put(&mut a, &far, &one, None), Err(NumRs2Error::IndexOutOfBounds(_))));
    let none = Array::from_vec(Vec::<i32>::new());
    assert!(matches!(put(&mut a, &far, &none, None), Err(NumRs2Error::InvalidOperation(_))));
}

#[test]
fn putmask_cycles_values() {
    let mut a = Array::from_vec(vec![1, 2, 3, 4, 5]);
    let mask = Array::from_vec(vec![true, false, true, true, true]);
    let vals = Array::from_vec(vec![10, 20]);
    putmask(&mut a, &mask, &vals).unwrap();
    assert_eq!(a.to_vec(), vec![10, 2, 20, 10, 20]);
    let short = Array::from_vec(vec![true]);
    assert!(matches!(putmask(&mut a, &short, &vals), Err(NumRs2Error::ShapeMismatch { .. })));
}

#[test]
fn set_mask_writes_in_order() {
    let mut a = Array::from_vec(vec![1, 2, 3, 4]);
    let mask = Array::from_vec(vec![false, true, false, true]);
    let vals = Array::from_vec(vec![7, 8]);
    a.set_mask(&mask, &vals).unwrap();
    assert_eq!(a.to_vec(), vec![1, 7, 3, 8]);
    let one = Array::from_vec(vec![7]);
    assert!(matches!(a.set_mask(&mask, &one), Err(NumRs2Error::ShapeMismatch { .. })));
}

#[test]
fn ix_builds_open_mesh() {
    let x = Array::from_vec(vec![0, 1]);
    let y = Array::from_vec(vec![2, 3, 4]);
    let m = ix_(&[&x, &y]).unwrap();
    assert_eq!(m.len(), 2);
    assert_eq!(m[0].shape(), vec![2, 1]);
    assert_eq!(m[1].shape(), vec![1, 3]);
    assert_eq!(m[1].to_vec(), vec![2, 3, 4]);
}

#[test]
fn mask_indices_lists_upper_triangle() {
    let r = mask_indices(&[3, 3], |idx: &[usize]| idx[0] <= idx[1]).unwrap();
    assert_eq!(r.len(), 2);
    assert_eq!(r[0].to_vec(), vec![0, 0, 0, 1, 1, 2]);
    assert_eq!(r[1].to_vec(), vec![0, 1, 2, 1, 2, 2]);
}

#[test]
fn index_full_mask_gives_array_back() {
    let a = a23();
    let r = a.index(&[IndexSpec::from_mask(vec![true, true])]).unwrap();
    assert_eq!(r.shape(), a.shape());
    assert_eq!(r.to_vec(), a.to_vec());
}

#[test]
fn index_whole_axes_gives_array_back() {
    let a = a23();
    let r = a.index(&[IndexSpec::All]).unwrap();
    assert_eq!(r.shape(), vec![2, 3]);
    assert_eq!(r.to_vec(), a.to_vec());
    let r = a.index(&[IndexSpec::ellipsis()]).unwrap();
    assert_eq!(r.to_vec(), a.to_vec());
}

#[test]
fn indices_grid_shapes_and_values() {
    let indices = indices_grid(&[3, 2]).unwrap();
    assert_eq!(indices.len(), 2);
    assert_eq!(indices[0].shape(), vec![3, 1]);
    assert_eq!(indices[1].shape(), vec![1, 2]);
    assert_eq!(indices[0].to_vec(), vec![0, 1, 2]);
    assert_eq!(indices[1].to_vec(), vec![0, 1]);
    assert!(indices_grid(&[]).unwrap().is_empty());
}

#[test]
fn take_documented_examples() {
    let a = Array::from_vec(vec![1, 2, 3, 4, 5, 6, 7, 8, 9, 10]);
    let result = a.take(&Array::from_vec(vec![0usize, 2, 4]), None).unwrap();
    assert_eq!(result.to_vec(), vec![1, 3, 5]);
    let b = a.reshape(&[5, 2]);
    let rows = b.take(&Array::from_vec(vec![0usize, 2, 4]), Some(0)).unwrap();
    assert_eq!(rows.shape(), vec![3, 2]);
    assert_eq!(rows.to_vec(), vec![1, 2, 5, 6, 9, 10]);
    let cols = b.take(&Array::from_vec(vec![1usize]), Some(1)).unwrap();
    assert_eq!(cols.shape(), vec![5, 1]);
    assert_eq!(cols.to_vec(), vec![2, 4, 6, 8, 10]);
}

#[test]
fn choose_takes_each_position_from_the_selected_choice() {
    let a = Array::from_vec(vec![0isize, 1, 2, 1, 0]);
    let c1 = Array::from_vec(vec![10, 20, 30, 40, 50]);
    let c2 = Array::from_vec(vec![100, 200, 300, 400, 500]);
    let c3 = Array::from_vec(vec![1000, 2000, 3000, 4000, 5000]);
    let result = a.choose_from(&[&c1, &c2, &c3], None).unwrap();
    assert_eq!(result.to_vec(), vec![10, 200, 3000, 400, 50]);
}

#[test]
fn compress_documented_example() {
    let a = Array::from_vec(vec![1, 2, 3, 4, 5, 6, 7, 8, 9, 10]);
    let condition = Array::from_vec(a.to_vec().iter().map(|x| x % 2 == 0).collect());
    let result = a.compress(&condition, None).unwrap();
    assert_eq!(result.to_vec(), vec![2, 4, 6, 8, 10]);
    let b = a.reshape(&[5, 2]);
    let cond_axis = Array::from_vec(vec![true, false, true, false, true]);
    let compressed = b.compress(&cond_axis, Some(0)).unwrap();
    assert_eq!(compressed.shape(), vec![3, 2]);
    assert_eq!(compressed.to_vec(), vec![1, 2, 5, 6, 9, 10]);
}

#[test]
fn put_wrapped_sum_out_of_range_fails() {
    let mut a = Array::from_vec(vec![200u8, 1]);
    let idx = Array::from_vec(vec![1isize, 2]);
    let vals = Array::from_vec(vec![7u8, 100]);
    assert!(matches!(put(&mut a, &idx, &vals, Some("wrap")), Err(NumRs2Error::InvalidOperation(_))));
    assert_eq!(a.to_vec(), vec![200, 7]);
}

#[test]
fn put_and_putmask_documented_examples() {
    let mut a = Array::from_vec(vec![0, 0, 0, 0, 0]);
    put(&mut a, &Array::from_vec(vec![0isize, 2, 4]), &Array::from_vec(vec![10, 20, 30]), None).unwrap();
    assert_eq!(a.to_vec(), vec![10, 0, 20, 0, 30]);
    let mut b = Array::from_vec(vec![0, 0, 0]);
    put(
        &mut b,
        &Array::from_vec(vec![0isize, 1, 2, 3, 4, 5]),
        &Array::from_vec(vec![10, 20, 30, 40, 50, 60]),
        Some("wrap"),
    )
    .unwrap();
    assert_eq!(b.to_vec(), vec![50, 70, 90]);
    let mut c = Array::from_vec(vec![1, 2, 3, 4, 5]);
    let mask = Array::from_vec(vec![false, true, false, true, false]);
    putmask(&mut c, &mask, &Array::from_vec(vec![20, 40])).unwrap();
    assert_eq!(c.to_vec(), vec![1, 20, 3, 40, 5]);
}

#[test]
fn ix_documented_example() {
    let x = Array::from_vec(vec![0, 1, 2]);
    let y = Array::from_vec(vec![0, 1, 2]);
    let indices = ix_(&[&x, &y]).unwrap();
    assert_eq!(indices.len(), 2);
    assert_eq!(indices[0].shape(), vec![3, 1]);
    assert_eq!(indices[1].shape(), vec![1, 3]);
}
