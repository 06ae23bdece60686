use numrs2::array::Array;
use numrs2::error::NumRs2Error;
use numrs2::fft_shift::FFT;

#[test]
fn test_fftshift_array_api() {
    // Test fftshift for 1D array
    let x = Array::from_vec(vec![0.0, 1.0, 2.0, 3.0, 4.0, 5.0, 6.0, 7.0]);

    let shifted = FFT::fftshift(&x).expect("fftshift should succeed");
    let shifted_data = shifted.to_vec();

    // Expected order: [4, 5, 6, 7, 0, 1, 2, 3]
    assert_eq!(shifted_data.len(), 8);
    assert_eq!(shifted_data, vec![4.0, 5.0, 6.0, 7.0, 0.0, 1.0, 2.0, 3.0]);

    // Test inverse fftshift
    let unshifted = FFT::ifftshift(&shifted).expect("ifftshift should succeed");
    let unshifted_data = unshifted.to_vec();

    // Should get back the original array
    assert_eq!(unshifted_data, x.to_vec());
}

#[test]
fn test_fftshift() {
    let arr = Array::from_vec(vec![1.0f64, 2.0, 3.0, 4.0, 5.0, 6.0]);
    let shifted = FFT::fftshift(&arr).expect("fftshift should succeed");
    let data = arr.to_vec();
    let s = shifted.to_vec();

    assert_eq!(s.len(), data.len());

    // For even length, first element should be from middle
    assert!((s[0] - data[data.len() / 2]).abs() < 1e-10);
}

#[test]
fn test_ifftshift() {
    let arr = Array::from_vec(vec![1.0f64, 2.0, 3.0, 4.0, 5.0, 6.0]);
    let shifted = FFT::fftshift(&arr).expect("fftshift should succeed");
    let recovered = FFT::ifftshift(&shifted).expect("ifftshift should succeed");

    // Should recover original arrangement
    for (orig, rec) in arr.to_vec().iter().zip(recovered.to_vec().iter()) {
        assert!((orig - rec).abs() < 1e-10);
    }
}

#[test]
fn odd_lengths_put_element_zero_at_the_center_and_shift_back() {
    let x = Array::from_vec(vec![0u32, 1, 2, 3, 4]);
    let shifted = FFT::fftshift(&x).unwrap();
    assert_eq!(shifted.to_vec(), vec![3, 4, 0, 1, 2]);
    let unshifted = FFT::ifftshift(&shifted).unwrap();
    assert_eq!(unshifted.to_vec(), vec![0, 1, 2, 3, 4]);
    assert_eq!(FFT::ifftshift(&x).unwrap().to_vec(), vec![2, 3, 4, 0, 1]);
    let back = FFT::fftshift(&FFT::ifftshift(&x).unwrap()).unwrap();
    assert_eq!(back.to_vec(), vec![0, 1, 2, 3, 4]);
}

#[test]
fn two_dimensional_shifts_turn_rows_and_columns() {
    let x = Array::from_vec((0u32..6).collect()).reshape(&[2, 3]);
    let shifted = x.fftshift_real().unwrap();
    assert_eq!(shifted.shape(), vec![2, 3]);
    assert_eq!(shifted.to_vec(), vec![5, 3, 4, 2, 0, 1]);
    let back = shifted.ifftshift_real().unwrap();
    assert_eq!(back.to_vec(), (0u32..6).collect::<Vec<u32>>());
}

#[test]
fn shifts_take_one_or_two_dimensions() {
    let cube = Array::from_vec(vec![0u8; 8]).reshape(&[2, 2, 2]);
    assert!(matches!(FFT::fftshift(&cube), Err(NumRs2Error::InvalidOperation(_))));
    assert!(matches!(FFT::ifftshift(&cube), Err(NumRs2Error::InvalidOperation(_))));
    let empty: Array<u8> = Array::from_vec(vec![]);
    assert_eq!(FFT::fftshift(&empty).unwrap().to_vec(), Vec::<u8>::new());
}
