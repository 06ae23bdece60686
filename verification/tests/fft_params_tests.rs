use numrs2::error::NumRs2Error;
use numrs2::fft_params::{
    expand_shape, is_power_of_two, normalize_axes, validate_flat_axis, validate_norm,
};

#[test]
fn negative_axes_count_from_the_end_and_keep_their_order() {
    let axes: &[isize] = &[-1, 0, -3];
    assert_eq!(normalize_axes(Some(axes), 3).unwrap(), Some(vec![2, 0, 0]));
    assert_eq!(normalize_axes(None, 3).unwrap(), None);
    let empty: &[isize] = &[];
    assert_eq!(normalize_axes(Some(empty), 0).unwrap(), Some(vec![]));
}

#[test]
fn axes_outside_the_array_are_rejected() {
    let too_big: &[isize] = &[0, 3];
    assert!(matches!(normalize_axes(Some(too_big), 3), Err(NumRs2Error::InvalidOperation(_))));
    let too_small: &[isize] = &[-4];
    assert!(matches!(normalize_axes(Some(too_small), 3), Err(NumRs2Error::InvalidOperation(_))));
}

#[test]
fn sizes_go_to_their_axes() {
    let sizes: &[usize] = &[8, 6];
    assert_eq!(
        expand_shape(&[3, 4, 5], Some(sizes), &Some(vec![2, 0])).unwrap(),
        Some(vec![6, 4, 8])
    );
    let repeated: &[usize] = &[5, 6];
    assert_eq!(expand_shape(&[3, 4], Some(repeated), &Some(vec![0, 0])).unwrap(), Some(vec![6, 4]));
    let whole: &[usize] = &[7, 9];
    assert_eq!(expand_shape(&[3, 4], Some(whole), &None).unwrap(), Some(vec![7, 9]));
    assert_eq!(expand_shape(&[3, 4], None, &Some(vec![1])).unwrap(), None);
}

#[test]
fn sizes_must_match_the_axes() {
    let one: &[usize] = &[8];
    assert!(matches!(
        expand_shape(&[3, 4], Some(one), &Some(vec![0, 1])),
        Err(NumRs2Error::InvalidOperation(_))
    ));
    assert!(matches!(expand_shape(&[3, 4], Some(one), &None), Err(NumRs2Error::InvalidOperation(_))));
}

#[test]
fn the_three_norm_modes_and_none_are_accepted() {
    assert!(validate_norm(None).is_ok());
    assert!(validate_norm(Some("backward")).is_ok());
    assert!(validate_norm(Some("ortho")).is_ok());
    assert!(validate_norm(Some("forward")).is_ok());
    assert!(matches!(validate_norm(Some("Ortho")), Err(NumRs2Error::InvalidOperation(_))));
    assert!(matches!(validate_norm(Some("")), Err(NumRs2Error::InvalidOperation(_))));
    assert!(matches!(validate_norm(Some("backwards")), Err(NumRs2Error::InvalidOperation(_))));
}

#[test]
fn a_flat_transform_takes_axis_zero_or_minus_one() {
    assert!(validate_flat_axis(None).is_ok());
    assert!(validate_flat_axis(Some(0)).is_ok());
    assert!(validate_flat_axis(Some(-1)).is_ok());
    assert!(matches!(validate_flat_axis(Some(1)), Err(NumRs2Error::InvalidOperation(_))));
    assert!(matches!(validate_flat_axis(Some(-2)), Err(NumRs2Error::InvalidOperation(_))));
}

#[test]
fn powers_of_two() {
    assert!(!is_power_of_two(0));
    assert!(is_power_of_two(1));
    assert!(is_power_of_two(2));
    assert!(!is_power_of_two(6));
    assert!(is_power_of_two(1024));
    assert!(!is_power_of_two(1023));
    assert!(is_power_of_two(1usize << 31));
    assert!(!is_power_of_two(usize::MAX));
}
