use numrs2::array::Array;
use numrs2::error::NumRs2Error;
use numrs2::io::netcdf::{netcdf_from_parts, netcdf_parts};
use numrs2::io::NpyDtype;

#[test]
fn netcdf_parts_read_back() {
    let a = Array::from_vec(vec![1u64, 2, 3, 4]).reshape(&[2, 2]);
    let attrs = vec![("units".to_string(), "meters".to_string())];
    let (meta, bytes) = netcdf_parts(&a, "temp", &attrs, NpyDtype::U4);
    assert_eq!(bytes.len(), 16);
    assert_eq!(&bytes[0..4], &[1, 0, 0, 0]);
    let b = netcdf_from_parts(&meta, &bytes, "temp", NpyDtype::U4).unwrap();
    assert_eq!(b.shape(), vec![2, 2]);
    assert_eq!(b.to_vec(), vec![1, 2, 3, 4]);
    assert!(meta.contains("\"dtype\":\"u32\""));
}

#[test]
fn netcdf_errors() {
    let a = Array::from_vec(vec![7u64, 8]);
    let (meta, bytes) = netcdf_parts(&a, "v", &[], NpyDtype::U1);
    let de = |r: Result<Array<u64>, NumRs2Error>| matches!(r, Err(NumRs2Error::DeserializationError(_)));
    assert!(de(netcdf_from_parts(&meta, &bytes, "w", NpyDtype::U1)));
    assert!(de(netcdf_from_parts(&meta, &bytes[..1], "v", NpyDtype::U1)));
    assert!(de(netcdf_from_parts("not json", &bytes, "v", NpyDtype::U1)));
    assert!(de(netcdf_from_parts("{\"shape\":[2]}", &bytes, "v", NpyDtype::U1)));
    assert!(de(netcdf_from_parts("{\"variable_name\":\"v\"}", &bytes, "v", NpyDtype::U1)));
    assert!(de(netcdf_from_parts("{\"variable_name\":\"v\",\"shape\":[-2]}", &bytes, "v", NpyDtype::U1)));
    let ok = netcdf_from_parts("{\"variable_name\":\"v\",\"shape\":[2]}", &bytes, "v", NpyDtype::U1).unwrap();
    assert_eq!(ok.to_vec(), vec![7, 8]);
}
