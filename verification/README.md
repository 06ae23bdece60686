# numrs2

N-dimensional arrays with NumPy-style indexing, masked arrays, and the
NumPy `.npy` / `.npz` file formats, written in Verus: every function of
the library states its behaviour in `requires` / `ensures` clauses over a
mathematical model of the arrays, and Verus proves the code meets them.

Not proved, and marked where they stand: the calls into outside crates
(`byteorder`, `serde_json`, `oxiarc-archive`, `std::str::from_utf8`) sit
behind small `#[verifier::external_body]` wrappers whose contracts restate
what those crates' sources show; their doc comments say what each claims.
What such a call computes is often only named (an uninterpreted spec
function of its arguments), and the contracts above them are exact over
those names.

Bounds that the proofs carry:

- `.npz` archives are read only when their central directory has the
  layout of `zip_sound` (no Zip64 records, stored entries only); others
  are refused with `DeserializationError`.
- Loading what `save_npz_arrays` wrote gives the arrays back when the
  entries are `zip_readable`: fewer than 19280 arrays, names shorter than
  16384 characters without U+0006, and an archive below about 88 MB; the
  `oxiarc-archive` reader finds an end record by the last occurrence of
  its signature, so beyond these bounds a name or a field could spell it.

## Layout

- `src/shape.rs` — shapes, row-major positions and the arithmetic facts
  about them.
- `src/array.rs` — `Array<T>`: a shape and a row-major buffer, modelled by
  `ArrayModel { shape, data }`.
- `src/indexing.rs` — element access, diagonals, `take`, `compress`,
  `choose_from`, `put`, `putmask`, `set_mask`, `ix_`, `indices_grid`,
  `mask_indices`.
- `src/selection.rs` — `Array::index`: basic indexing (integers, slices,
  ellipsis), integer-array and boolean-mask indexing, with `index_spec`
  describing the result.
- `src/masked.rs` — masked arrays.
- `src/io/` — conversions to and from nested vectors; the `.npy` header
  and data section (`npy.rs`, `npy_data.rs`) with the proofs that reading
  gives back what was written (`npy_laws.rs`, `law_npy_file_roundtrip`);
  `.npz` archives through the `oxiarc-archive` ZIP reader and writer
  (`npz.rs`, entries always stored uncompressed), after a verified check
  of the archive's central-directory layout (`zip_layout.rs`), with the proofs that loading an archive that
  holds what was saved gives the arrays back (`npz_laws.rs`); NetCDF-like
  variables, a JSON metadata text read and written through `serde_json`
  beside the element bytes (`netcdf.rs`).
- `src/fft_params.rs`, `src/fft_shift.rs` — NumPy-style Fourier-transform
  parameters (axis lists, output sizes, normalization modes, radix-2
  lengths) and the shifts of the zero-frequency component, with the proof
  that `ifftshift` undoes `fftshift` and the other way round.
- `src/laws.rs`, `src/fancy_laws.rs` — properties relating several
  operations.
- `app/` — what the library does not hold: serde-based JSON/CSV/bincode
  serialization, file I/O, typed `.npy` elements (floats by their bits),
  reading and writing NetCDF-like files, floating-point statistics of
  masked arrays, and floating-point linear algebra (determinants,
  inverses, direct and iterative solvers, norms, Einstein summation),
  radix-2 Fourier transforms, and conversions to and from `nalgebra`
  matrices.
