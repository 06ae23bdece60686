//! Conversions between arrays and nested vectors, and the NumPy `.npy` and
//! `.npz` formats.

pub mod convert;
pub mod npy;
pub mod npy_laws;
pub mod npy_data;
pub mod npz;
pub mod netcdf;
pub mod zip_layout;
pub mod npz_laws;

pub use convert::{vec_to_array, vec2d_to_array, array_to_vec2d, SerializeFormat};
pub use npy::{NpyDtype, construct_npy_header, get_numpy_dtype, parse_npy_header};
pub use npy_data::{read_npy, npy_bytes};
pub use npz::{
    list_npz_arrays, read_npz, load_npz_array, load_all_npz_arrays, save_npz_arrays, npz_bytes,
    deserialize_from_file,
};
