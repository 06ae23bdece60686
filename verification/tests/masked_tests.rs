use numrs2::array::Array;
use numrs2::error::NumRs2Error;
use numrs2::masked::MaskedArray;

#[test]
fn masked_counts_and_compressed() {
    let data = Array::from_vec(vec![1, 2, 3, 4]);
    let mask = Array::from_vec(vec![false, true, false, true]);
    let ma = MaskedArray::new(data, Some(mask), Some(-1)).unwrap();
    assert_eq!(ma.count_masked(), 2);
    assert_eq!(ma.count_valid(), 2);
    assert_eq!(ma.compressed().to_vec(), vec![1, 3]);
    assert_eq!(ma.filled(None).to_vec(), vec![1, -1, 3, -1]);
    assert_eq!(ma.filled(Some(0)).to_vec(), vec![1, 0, 3, 0]);
    assert_eq!(ma.filled(None).compress(&Array::from_vec(vec![true, false, true, false]), None).unwrap().to_vec(), ma.compressed().to_vec());
}

#[test]
fn masked_new_rejects_other_shape() {
    let data = Array::from_vec(vec![1, 2, 3]);
    let mask = Array::from_vec(vec![false, true]);
    assert!(matches!(MaskedArray::new(data, Some(mask), None), Err(NumRs2Error::ShapeMismatch { .. })));
}

#[test]
fn masked_values_and_where() {
    let data = Array::from_vec(vec![5, 7, 5, 9]);
    let ma = MaskedArray::masked_values(data, 5, None).unwrap();
    assert_eq!(ma.get_mask().to_vec(), vec![true, false, true, false]);
    assert_eq!(ma.get_fill_value(), 0);
    let data = Array::from_vec(vec![1, 2, 3]);
    let cond = Array::from_vec(vec![false, false, true]);
    let ma = MaskedArray::masked_where(data, cond, Some(42)).unwrap();
    assert_eq!(ma.get(&[2]).unwrap(), 42);
    assert_eq!(ma.get(&[1]).unwrap(), 2);
    let all = MaskedArray::masked_all(Array::from_vec(vec![1, 2]), None).unwrap();
    assert_eq!(all.count_valid(), 0);
}

#[test]
fn masked_set_get_shape_ops() {
    let data = Array::from_vec(vec![1, 2, 3, 4, 5, 6]).reshape(&[2, 3]);
    let mut ma = MaskedArray::new(data, None, Some(0)).unwrap();
    assert_eq!(ma.shape(), vec![2, 3]);
    assert_eq!(ma.ndim(), 2);
    assert_eq!(ma.size(), 6);
    ma.set(&[1, 1], 50, Some(true)).unwrap();
    assert_eq!(ma.get(&[1, 1]).unwrap(), 0);
    ma.set(&[1, 1], 60, Some(false)).unwrap();
    assert_eq!(ma.get(&[1, 1]).unwrap(), 60);
    assert!(matches!(ma.get(&[2, 0]), Err(NumRs2Error::IndexOutOfBounds(_))));
    assert!(matches!(ma.set(&[0], 1, None), Err(NumRs2Error::DimensionMismatch(_))));
    let t = ma.transpose();
    assert_eq!(t.shape(), vec![3, 2]);
    assert_eq!(t.get_data().to_vec(), vec![1, 4, 2, 60, 3, 6]);
    let r = ma.reshape(&[3, 2]);
    assert_eq!(r.get_data().to_vec(), vec![1, 2, 3, 4, 60, 6]);
    ma.set_fill_value(9);
    assert_eq!(ma.get_fill_value(), 9);
    let h = ma.harden_mask();
    let s = h.soften_mask();
    assert_eq!(s.get_data().to_vec(), ma.get_data().to_vec());
}

#[test]
fn a_hardened_mask_is_not_changed_by_set() {
    let m = MaskedArray::new(Array::from_vec(vec![1u64, 2]), Some(Array::from_vec(vec![true, false])), None).unwrap();
    let mut h = m.harden_mask();
    assert!(h.is_hard_mask());
    h.set(&[0], 5, Some(false)).unwrap();
    assert_eq!(h.get_mask().to_vec(), vec![true, false]);
    assert_eq!(h.get_data().to_vec(), vec![5, 2]);
    let mut s = h.soften_mask();
    assert!(!s.is_hard_mask());
    s.set(&[0], 6, Some(false)).unwrap();
    assert_eq!(s.get_mask().to_vec(), vec![false, false]);
}

#[test]
fn masked_arithmetic_masks_either_operand() {
    let a = MaskedArray::new(
        Array::from_vec(vec![1, 2, 3, 4]),
        Some(Array::from_vec(vec![false, true, false, false])),
        Some(-1),
    )
    .unwrap();
    let b = MaskedArray::new(
        Array::from_vec(vec![10, 20, 0, 2]),
        Some(Array::from_vec(vec![false, false, true, false])),
        Some(-7),
    )
    .unwrap();
    let s = a.add(&b);
    assert_eq!(s.get_data().to_vec(), vec![11, 22, 3, 6]);
    assert_eq!(s.get_mask().to_vec(), vec![false, true, true, false]);
    assert_eq!(s.get_fill_value(), -1);
    assert!(!s.is_hard_mask());
    let d = a.subtract(&b);
    assert_eq!(d.get_data().to_vec(), vec![-9, -18, 3, 2]);
    assert_eq!(d.get_mask().to_vec(), vec![false, true, true, false]);
    let p = a.multiply(&b);
    assert_eq!(p.get_data().to_vec(), vec![10, 40, 0, 8]);
    assert_eq!(p.get_mask().to_vec(), vec![false, true, true, false]);
    assert_eq!(p.filled(None).to_vec(), vec![10, -1, -1, 8]);
}

#[test]
fn masked_division_masks_zero_divisors() {
    let a = MaskedArray::new(
        Array::from_vec(vec![7, 2, 3, -9]),
        Some(Array::from_vec(vec![false, true, false, false])),
        None,
    )
    .unwrap();
    let b = MaskedArray::new(Array::from_vec(vec![2, -2, 0, 4]), None, None).unwrap();
    let q = a.divide(&b);
    assert_eq!(q.get_data().to_vec(), vec![3, -1, 3, -2]);
    assert_eq!(q.get_mask().to_vec(), vec![false, true, true, false]);
    assert_eq!(q.compressed().to_vec(), vec![3, -2]);
}
