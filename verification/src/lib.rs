//! N-dimensional arrays with indexing, masking and NumPy-style file headers.
//!
//! The library keeps every array as a row-major buffer together with its shape,
//! and states the behaviour of each operation over that model.

pub mod error;
pub mod shape;
pub mod array;
pub mod arith;
pub mod indexing;
pub mod selection;
pub mod masked;
pub mod io;
pub mod linalg;
pub mod fft_params;
pub mod fft_shift;
pub mod laws;
pub mod fancy_laws;
