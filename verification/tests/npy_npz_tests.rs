use numrs2::array::Array;
use numrs2::error::NumRs2Error;
use numrs2::io::{
    construct_npy_header, deserialize_from_file, get_numpy_dtype, list_npz_arrays, load_all_npz_arrays,
    load_npz_array, npy_bytes, npz_bytes, parse_npy_header, read_npy, read_npz, save_npz_arrays,
    NpyDtype, SerializeFormat,
};

fn f64_array(v: &[f64], shape: &[usize]) -> Array<u64> {
    Array::from_vec(v.iter().map(|x| x.to_bits()).collect()).reshape(shape)
}

fn f32_array(v: &[f32], shape: &[usize]) -> Array<u64> {
    Array::from_vec(v.iter().map(|x| x.to_bits() as u64).collect()).reshape(shape)
}

fn f64_values(a: &Array<u64>) -> Vec<f64> {
    a.to_vec().iter().map(|b| f64::from_bits(*b)).collect()
}

fn f32_values(a: &Array<u64>) -> Vec<f32> {
    a.to_vec().iter().map(|b| f32::from_bits(*b as u32)).collect()
}

fn lookup<'a>(pairs: &'a [(String, Array<u64>)], name: &str) -> &'a Array<u64> {
    &pairs.iter().find(|(n, _)| n == name).expect("missing array").1
}

#[test]
fn test_npy_header_construction() {
    let shape = vec![2, 3];
    let header = construct_npy_header(&shape, NpyDtype::F4).expect("Failed to construct NPY header");

    assert_eq!(&header[0..6], b"\x93NUMPY");
    assert_eq!(header[6], 1);
    assert_eq!(header[7], 0);

    let header_str = std::str::from_utf8(&header[10..]).expect("Invalid UTF-8 in header");
    assert!(header_str.contains("'shape': (2, 3)"));
    assert!(header_str.contains("'descr': '<f4'"));
    assert!(header_str.contains("'fortran_order': False"));
}

#[test]
fn test_npy_header_parsing() {
    let shape = vec![2, 3];
    let header = construct_npy_header(&shape, NpyDtype::F4).expect("Failed to construct NPY header");

    let (parsed_shape, dtype) = parse_npy_header(&header).expect("Failed to parse NPY header");
    assert_eq!(parsed_shape, shape);
    assert_eq!(String::from_utf8(dtype).unwrap(), "<f4");
}

#[test]
fn test_save_multiple_arrays_npz() {
    let arrays = vec![
        ("data".to_string(), f64_array(&[1.0, 2.0, 3.0, 4.0, 5.0, 6.0], &[2, 3])),
        ("weights".to_string(), f64_array(&[0.1, 0.5, 0.4], &[3])),
        ("labels".to_string(), f64_array(&[10.0, 20.0], &[2])),
    ];

    let buffer = save_npz_arrays(&arrays, NpyDtype::F8, true).expect("Failed to save NPZ arrays");
    let loaded_arrays =
        load_all_npz_arrays(&buffer, NpyDtype::F8).expect("Failed to load all NPZ arrays");

    assert_eq!(loaded_arrays.len(), 3);
    assert!(loaded_arrays.iter().any(|(n, _)| n == "data"));
    assert!(loaded_arrays.iter().any(|(n, _)| n == "weights"));
    assert!(loaded_arrays.iter().any(|(n, _)| n == "labels"));

    let data = lookup(&loaded_arrays, "data");
    assert_eq!(data.shape(), vec![2, 3]);
    assert_eq!(f64_values(data), vec![1.0, 2.0, 3.0, 4.0, 5.0, 6.0]);

    let weights = lookup(&loaded_arrays, "weights");
    assert_eq!(weights.shape(), vec![3]);
    assert_eq!(f64_values(weights), vec![0.1, 0.5, 0.4]);

    let labels = lookup(&loaded_arrays, "labels");
    assert_eq!(labels.shape(), vec![2]);
    assert_eq!(f64_values(labels), vec![10.0, 20.0]);
}

fn i32_array(v: &[i32]) -> Array<u64> {
    Array::from_vec(v.iter().map(|x| *x as u32 as u64).collect())
}

fn i32_values(a: &Array<u64>) -> Vec<i32> {
    a.to_vec().iter().map(|b| *b as u32 as i32).collect()
}

#[test]
fn test_save_multiple_arrays_uncompressed() {
    let arrays = vec![
        ("a".to_string(), i32_array(&[1, 2, 3])),
        ("b".to_string(), i32_array(&[4, 5, 6, 7])),
    ];

    let buffer = save_npz_arrays(&arrays, NpyDtype::I4, false).expect("Failed to save NPZ arrays");
    let loaded = load_all_npz_arrays(&buffer, NpyDtype::I4).expect("Failed to load all NPZ arrays");

    assert_eq!(loaded.len(), 2);
    assert_eq!(i32_values(lookup(&loaded, "a")), vec![1, 2, 3]);
    assert_eq!(i32_values(lookup(&loaded, "b")), vec![4, 5, 6, 7]);
}

#[test]
fn test_load_specific_array_from_npz() {
    let arrays = vec![
        ("first".to_string(), f32_array(&[1.0, 2.0], &[2])),
        ("second".to_string(), f32_array(&[3.0, 4.0, 5.0], &[3])),
        ("third".to_string(), f32_array(&[6.0], &[1])),
    ];

    let buffer = save_npz_arrays(&arrays, NpyDtype::F4, true).expect("Failed to save NPZ arrays");
    let second_array = load_npz_array(&buffer, "second", NpyDtype::F4)
        .expect("Failed to load second array from NPZ");
    assert_eq!(f32_values(&second_array), vec![3.0, 4.0, 5.0]);
}

#[test]
fn test_list_arrays_in_npz() {
    let arrays = vec![
        ("alpha".to_string(), f64_array(&[1.0], &[1])),
        ("beta".to_string(), f64_array(&[2.0], &[1])),
        ("gamma".to_string(), f64_array(&[3.0], &[1])),
    ];

    let buffer = save_npz_arrays(&arrays, NpyDtype::F8, true).expect("Failed to save NPZ arrays");
    let mut names = list_npz_arrays(&buffer).expect("Failed to list NPZ arrays");
    names.sort();

    let mut expected = vec!["alpha".to_string(), "beta".to_string(), "gamma".to_string()];
    expected.sort();

    assert_eq!(names, expected);
}

#[test]
fn test_save_empty_arrays_fails() {
    let arrays: Vec<(String, Array<u64>)> = Vec::new();

    let result = save_npz_arrays(&arrays, NpyDtype::F8, true);
    assert!(result.is_err());
    assert!(matches!(result, Err(NumRs2Error::InvalidOperation(_))));
}

#[test]
fn test_save_different_shapes_same_npz() {
    let arrays = vec![
        ("scalar".to_string(), f64_array(&[42.0], &[1])),
        ("vector".to_string(), f64_array(&[1.0, 2.0, 3.0, 4.0, 5.0], &[5])),
        (
            "matrix".to_string(),
            f64_array(&[1.0, 2.0, 3.0, 4.0, 5.0, 6.0, 7.0, 8.0, 9.0, 10.0, 11.0, 12.0], &[3, 4]),
        ),
        ("tensor".to_string(), f64_array(&[1.0; 24], &[2, 3, 4])),
    ];

    let buffer = save_npz_arrays(&arrays, NpyDtype::F8, true).expect("Failed to save NPZ arrays");
    let loaded = load_all_npz_arrays(&buffer, NpyDtype::F8).expect("Failed to load all NPZ arrays");

    assert_eq!(lookup(&loaded, "scalar").shape(), vec![1]);
    assert_eq!(lookup(&loaded, "vector").shape(), vec![5]);
    assert_eq!(lookup(&loaded, "matrix").shape(), vec![3, 4]);
    assert_eq!(lookup(&loaded, "tensor").shape(), vec![2, 3, 4]);
}

fn roundtrip_bits(bits: Vec<u64>, dtype: NpyDtype) -> Vec<u64> {
    let arrays = vec![("test".to_string(), Array::from_vec(bits))];
    let buffer = save_npz_arrays(&arrays, dtype, true).expect("Failed to save NPZ arrays");
    let loaded = load_all_npz_arrays(&buffer, dtype).expect("Failed to load all NPZ arrays");
    lookup(&loaded, "test").to_vec()
}

#[test]
fn test_save_different_types() {
    let f32s = vec![1.0f32, 2.0, 3.0];
    let back = roundtrip_bits(f32s.iter().map(|x| x.to_bits() as u64).collect(), NpyDtype::F4);
    assert_eq!(back.iter().map(|b| f32::from_bits(*b as u32)).collect::<Vec<_>>(), f32s);

    let f64s = vec![1.0f64, 2.0, 3.0];
    let back = roundtrip_bits(f64s.iter().map(|x| x.to_bits()).collect(), NpyDtype::F8);
    assert_eq!(back.iter().map(|b| f64::from_bits(*b)).collect::<Vec<_>>(), f64s);

    let i32s = vec![1i32, 2, 3];
    let back = roundtrip_bits(i32s.iter().map(|x| *x as u32 as u64).collect(), NpyDtype::I4);
    assert_eq!(back.iter().map(|b| *b as u32 as i32).collect::<Vec<_>>(), i32s);

    let i64s = vec![1i64, 2, 3];
    let back = roundtrip_bits(i64s.iter().map(|x| *x as u64).collect(), NpyDtype::I8);
    assert_eq!(back.iter().map(|b| *b as i64).collect::<Vec<_>>(), i64s);

    let u32s = vec![1u32, 2, 3];
    let back = roundtrip_bits(u32s.iter().map(|x| *x as u64).collect(), NpyDtype::U4);
    assert_eq!(back.iter().map(|b| *b as u32).collect::<Vec<_>>(), u32s);

    let u64s = vec![1u64, 2, 3];
    let back = roundtrip_bits(u64s.clone(), NpyDtype::U8);
    assert_eq!(back, u64s);
}

#[test]
fn test_load_nonexistent_array() {
    let arrays = vec![("exists".to_string(), f64_array(&[1.0], &[1]))];
    let buffer = save_npz_arrays(&arrays, NpyDtype::F8, true).expect("Failed to save NPZ arrays");

    let result = load_npz_array(&buffer, "nonexistent", NpyDtype::F8);
    assert!(result.is_err());
}

#[test]
fn npy_file_roundtrip_keeps_shape_and_values() {
    let a = Array::from_vec(vec![1u64, 2, 3, 4, 5, 6]).reshape(&[3, 2]);
    let bytes = npy_bytes(&a, NpyDtype::U2);
    let header_len = 10 + (bytes[8] as usize) + 256 * (bytes[9] as usize);
    assert_eq!(header_len % 16, 0);
    assert_eq!(bytes.len(), header_len + 6 * 2);
    assert_eq!(&bytes[header_len..header_len + 4], &[1, 0, 2, 0]);
    let back = read_npy(&bytes, NpyDtype::U2).unwrap();
    assert_eq!(back.shape(), vec![3, 2]);
    assert_eq!(back.to_vec(), vec![1, 2, 3, 4, 5, 6]);
}

#[test]
fn npy_scalar_shape_is_empty_tuple() {
    let a = Array::from_vec(vec![7u64]).reshape(&[]);
    let bytes = npy_bytes(&a, NpyDtype::U8);
    let text = std::str::from_utf8(&bytes[10..]).unwrap();
    assert!(text.contains("'shape': ()"));
    let back = read_npy(&bytes, NpyDtype::U8).unwrap();
    assert_eq!(back.shape(), Vec::<usize>::new());
    assert_eq!(back.to_vec(), vec![7]);
}

#[test]
fn npy_one_dimensional_shape_has_trailing_comma() {
    let header = construct_npy_header(&[5], NpyDtype::I8).unwrap();
    let text = std::str::from_utf8(&header[10..]).unwrap();
    assert!(text.contains("'shape': (5,)"));
    assert!(text.contains("'descr': '<i8'"));
    let (shape, descr) = parse_npy_header(&header).unwrap();
    assert_eq!(shape, vec![5]);
    assert_eq!(descr, b"<i8".to_vec());
}

#[test]
fn npy_bool_reads_nonzero_as_one() {
    let a = Array::from_vec(vec![1u64, 0, 1]);
    let mut bytes = npy_bytes(&a, NpyDtype::B1);
    let n = bytes.len();
    bytes[n - 1] = 7;
    let back = read_npy(&bytes, NpyDtype::B1).unwrap();
    assert_eq!(back.to_vec(), vec![1, 0, 1]);
}

#[test]
fn npy_read_errors() {
    let a = Array::from_vec(vec![1u64, 2]);
    let bytes = npy_bytes(&a, NpyDtype::U4);
    // Wrong dtype.
    assert!(matches!(read_npy(&bytes, NpyDtype::U8), Err(NumRs2Error::DeserializationError(_))));
    // Truncated data.
    assert!(matches!(
        read_npy(&bytes[..bytes.len() - 1], NpyDtype::U4),
        Err(NumRs2Error::DeserializationError(_))
    ));
    // Too short for a header.
    assert!(matches!(read_npy(&bytes[..5], NpyDtype::U4), Err(NumRs2Error::DeserializationError(_))));
    // Bad magic string.
    let mut bad = bytes.clone();
    bad[1] = b'X';
    assert!(matches!(read_npy(&bad, NpyDtype::U4), Err(NumRs2Error::DeserializationError(_))));
    // Unsupported version.
    let mut bad = bytes.clone();
    bad[6] = 2;
    assert!(matches!(read_npy(&bad, NpyDtype::U4), Err(NumRs2Error::DeserializationError(_))));
}

#[test]
fn npy_values_are_truncated_to_the_dtype_width() {
    let a = Array::from_vec(vec![0x1234u64]);
    let bytes = npy_bytes(&a, NpyDtype::U1);
    let back = read_npy(&bytes, NpyDtype::U1).unwrap();
    assert_eq!(back.to_vec(), vec![0x34]);
}

#[test]
fn npz_single_array_and_deserialize() {
    let a = Array::from_vec(vec![5u64, 6, 7]);
    let bytes = npz_bytes(&a, NpyDtype::U8).unwrap();
    assert_eq!(list_npz_arrays(&bytes).unwrap(), vec!["arr_0".to_string()]);
    let back = read_npz(&bytes, NpyDtype::U8).unwrap();
    assert_eq!(back.to_vec(), vec![5, 6, 7]);
    let back = deserialize_from_file(&bytes, SerializeFormat::Npz, NpyDtype::U8).unwrap();
    assert_eq!(back.to_vec(), vec![5, 6, 7]);
    let npy = npy_bytes(&a, NpyDtype::U8);
    let back = deserialize_from_file(&npy, SerializeFormat::Npy, NpyDtype::U8).unwrap();
    assert_eq!(back.to_vec(), vec![5, 6, 7]);
    assert!(matches!(
        deserialize_from_file(&npy, SerializeFormat::Json, NpyDtype::U8),
        Err(NumRs2Error::DeserializationError(_))
    ));
    for format in [SerializeFormat::Json, SerializeFormat::Csv, SerializeFormat::Binary] {
        match deserialize_from_file(&npy, format, NpyDtype::U8) {
            Err(NumRs2Error::DeserializationError(m)) => {
                assert_eq!(m, "Only NPY and NPZ formats are supported")
            }
            _ => panic!("expected a deserialization error"),
        }
    }
}

#[test]
fn numpy_descriptors_of_type_names() {
    assert_eq!(get_numpy_dtype(b"f32"), b"<f4".to_vec());
    assert_eq!(get_numpy_dtype(b"f64"), b"<f8".to_vec());
    assert_eq!(get_numpy_dtype(b"i32"), b"<i4".to_vec());
    assert_eq!(get_numpy_dtype(b"i64"), b"<i8".to_vec());
    assert_eq!(get_numpy_dtype(b"u8"), b"<u1".to_vec());
    assert_eq!(get_numpy_dtype(b"bool"), b"|b1".to_vec());
    assert_eq!(get_numpy_dtype(b"usize"), b"unknown".to_vec());
}

#[test]
fn npz_errors() {
    match list_npz_arrays(b"not a zip") {
        Ok(names) => assert!(names.is_empty()),
        Err(e) => assert!(matches!(e, NumRs2Error::DeserializationError(_))),
    }
    assert!(matches!(read_npz(b"not a zip", NpyDtype::U8), Err(NumRs2Error::DeserializationError(_))));
    let npy = npy_bytes(&Array::from_vec(vec![1u64]), NpyDtype::U8);
    assert!(matches!(read_npz(&npy, NpyDtype::U8), Err(NumRs2Error::DeserializationError(_))));
}

#[test]
fn npz_names_lose_all_npy_suffixes() {
    let arrays = vec![("x.npy".to_string(), Array::from_vec(vec![1u64]))];
    let buffer = save_npz_arrays(&arrays, NpyDtype::U8, true).unwrap();
    assert_eq!(list_npz_arrays(&buffer).unwrap(), vec!["x".to_string()]);
    let loaded = load_npz_array(&buffer, "x.npy", NpyDtype::U8).unwrap();
    assert_eq!(loaded.to_vec(), vec![1]);
}

#[test]
fn npz_load_all_keeps_later_array_under_a_repeated_name() {
    let arrays = vec![
        ("a".to_string(), Array::from_vec(vec![1u64])),
        ("a.npy".to_string(), Array::from_vec(vec![2u64])),
    ];
    let buffer = save_npz_arrays(&arrays, NpyDtype::U8, true).unwrap();
    let loaded = load_all_npz_arrays(&buffer, NpyDtype::U8).unwrap();
    assert_eq!(loaded.len(), 1);
    assert_eq!(loaded[0].0, "a");
    assert_eq!(loaded[0].1.to_vec(), vec![2]);
}

#[test]
fn npy_header_with_invalid_utf8_is_rejected() {
    let mut header = construct_npy_header(&[2], NpyDtype::U1).unwrap();
    let n = header.len();
    header[n - 2] = 0xFF;
    assert!(matches!(parse_npy_header(&header), Err(NumRs2Error::DeserializationError(_))));
}

#[test]
fn npz_save_then_load_all_gives_every_array_in_order() {
    let arrays = vec![
        ("m".to_string(), Array::from_vec(vec![1u64, 2, 3, 4]).reshape(&[2, 2])),
        ("v".to_string(), Array::from_vec(vec![7u64, 8])),
        ("s".to_string(), Array::from_vec(vec![9u64]).reshape(&[])),
    ];
    let buffer = save_npz_arrays(&arrays, NpyDtype::U2, true).unwrap();
    let loaded = load_all_npz_arrays(&buffer, NpyDtype::U2).unwrap();
    assert_eq!(loaded.len(), 3);
    for (k, (name, arr)) in arrays.iter().enumerate() {
        assert_eq!(&loaded[k].0, name);
        assert_eq!(loaded[k].1.shape(), arr.shape());
        assert_eq!(loaded[k].1.to_vec(), arr.to_vec());
    }
    assert_eq!(list_npz_arrays(&buffer).unwrap(), vec!["m", "v", "s"]);
    let first = read_npz(&buffer, NpyDtype::U2).unwrap();
    assert_eq!(first.shape(), vec![2, 2]);
    assert_eq!(first.to_vec(), vec![1, 2, 3, 4]);
}

#[test]
fn npz_load_by_name_takes_the_first_of_a_repeated_name() {
    let arrays = vec![
        ("a".to_string(), Array::from_vec(vec![1u64])),
        ("b".to_string(), Array::from_vec(vec![5u64])),
        ("a".to_string(), Array::from_vec(vec![2u64])),
    ];
    let buffer = save_npz_arrays(&arrays, NpyDtype::U1, true).unwrap();
    assert_eq!(load_npz_array(&buffer, "a", NpyDtype::U1).unwrap().to_vec(), vec![1]);
    assert_eq!(load_npz_array(&buffer, "b", NpyDtype::U1).unwrap().to_vec(), vec![5]);
}

#[test]
fn npz_bytes_without_a_central_directory_are_refused() {
    // A local header with no end record: the reader is never handed it.
    let mut bytes = vec![0x50u8, 0x4b, 0x03, 0x04];
    bytes.extend(vec![0u8; 46]);
    assert!(matches!(list_npz_arrays(&bytes), Err(NumRs2Error::DeserializationError(_))));
    assert!(matches!(read_npz(&bytes, NpyDtype::U1), Err(NumRs2Error::DeserializationError(_))));
    assert!(matches!(
        load_npz_array(&bytes, "a", NpyDtype::U1),
        Err(NumRs2Error::DeserializationError(_))
    ));
    assert!(matches!(load_all_npz_arrays(&bytes, NpyDtype::U1), Err(NumRs2Error::DeserializationError(_))));
    // An archive whose end record names a second disk.
    let good = npz_bytes(&Array::from_vec(vec![1u64]), NpyDtype::U1).unwrap();
    let mut bad = good.clone();
    let n = bad.len();
    bad[n - 22 + 4] = 1;
    assert!(matches!(read_npz(&bad, NpyDtype::U1), Err(NumRs2Error::DeserializationError(_))));
    assert_eq!(read_npz(&good, NpyDtype::U1).unwrap().to_vec(), vec![1]);
}

#[test]
fn npz_with_a_compressed_entry_is_refused() {
    let arrays = vec![("x".to_string(), Array::from_vec(vec![1u64, 2, 3]))];
    let mut buffer = save_npz_arrays(&arrays, NpyDtype::U8, true).unwrap();
    assert!(load_all_npz_arrays(&buffer, NpyDtype::U8).is_ok());
    let cd = buffer.windows(4).position(|w| w == [0x50, 0x4b, 0x01, 0x02]).unwrap();
    buffer[cd + 10] = 8;
    assert!(matches!(
        load_all_npz_arrays(&buffer, NpyDtype::U8),
        Err(NumRs2Error::DeserializationError(_))
    ));
    assert!(matches!(list_npz_arrays(&buffer), Err(NumRs2Error::DeserializationError(_))));
}
