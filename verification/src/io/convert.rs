//! Conversions between arrays and plain vectors.

use vstd::prelude::*;
use crate::array::{Array, ArrayModel, copy_slice};
use crate::error::{NumRs2Error, Result, message};
use crate::shape::{shape_size, flat_index, lemma_flat_index_2d, lemma_flat_index_bounds};

verus! {

/// Formats an array can be serialized to.
#[derive(Clone, Copy, Debug)]
pub enum SerializeFormat {
    /// JSON format.
    Json,
    /// CSV format.
    Csv,
    /// Binary format.
    Binary,
    /// NumPy NPY format (`*.npy`).
    Npy,
    /// NumPy NPZ format (zipped NPY files, `*.npz`).
    Npz,
}

/// `a` is the matrix whose rows are the (non-empty list of) rows `v`.
pub open spec fn is_matrix_of_rows<T>(v: Seq<Seq<T>>, a: ArrayModel<T>) -> bool {
    let rows = v.len();
    let cols = v[0].len();
    &&& a.shape == seq![rows as usize, cols as usize]
    &&& a.well_formed()
    &&& forall|i: int, j: int|
        0 <= i < rows && 0 <= j < cols ==> #[trigger] a.data[i * cols + j] == v[i][j]
}

/// The rows of a matrix model: row `i` holds the elements `i * cols + j`.
pub open spec fn rows_of<T>(a: ArrayModel<T>) -> Seq<Seq<T>> {
    let rows = a.shape[0] as int;
    let cols = a.shape[1] as int;
    Seq::new(rows as nat, |i: int| Seq::new(cols as nat, |j: int| a.data[i * cols + j]))
}

/// Row `p`, column `q` of a matrix with `cols` columns and at least `p + 1`
/// rows lies before the start of row `r` when `p < r`.
proof fn lemma_row_index(p: int, q: int, r: int, cols: int)
    requires
        0 <= p < r,
        0 <= q < cols,
    ensures
        0 <= p * cols + q < r * cols,
{
    assert(p * cols + q < r * cols) by (nonlinear_arith)
        requires
            0 <= p < r,
            0 <= q < cols,
    ;
    assert(0 <= p * cols) by (nonlinear_arith)
        requires
            0 <= p,
            0 <= cols,
    ;
}

/// Creates an array from the elements of `vec`, one-dimensional or under
/// `shape`.
pub fn vec_to_array<T: Copy>(vec: Vec<T>, shape: Option<&[usize]>) -> (r: Result<Array<T>>)
    requires
        shape matches Some(s) ==> shape_size(s@) == vec@.len(),
    ensures
        r matches Ok(a) && a@.data == vec@ && a@.well_formed() && a@.shape == match shape {
            Some(s) => s@,
            None => seq![vec@.len() as usize],
        },
{
    let array = Array::from_vec(vec);
    match shape {
        Some(s) => Ok(array.reshape(s)),
        None => Ok(array),
    }
}

/// Creates a two-dimensional array from equally long rows; an empty input
/// gives an empty one-dimensional array.
///
/// Fails with `DimensionMismatch` when the rows differ in length.
pub fn vec2d_to_array<T: Copy>(vec: Vec<Vec<T>>) -> (r: Result<Array<T>>)
    requires
        vec@.len() > 0 ==> vec@.len() * vec@[0]@.len() <= usize::MAX,
    ensures
        vec@.len() == 0 ==> (r matches Ok(a) && a@.shape == seq![0usize] && a@.data.len() == 0),
        vec@.len() > 0 && (exists|i: int| 0 <= i < vec@.len() && #[trigger] vec@[i]@.len() != vec@[0]@.len())
            ==> (r matches Err(NumRs2Error::DimensionMismatch(_))),
        vec@.len() > 0 && (forall|i: int| 0 <= i < vec@.len() ==> #[trigger] vec@[i]@.len() == vec@[0]@.len())
            ==> (r matches Ok(a) && is_matrix_of_rows(vec@.map_values(|row: Vec<T>| row@), a@)),
{
    if vec.len() == 0 {
        let a = Array::from_vec(Vec::new());
        assert(a@.shape =~= seq![0usize]);
        return Ok(a);
    }
    let rows = vec.len();
    let cols = vec[0].len();
    let mut i: usize = 0;
    while i < rows
        invariant
            i <= rows,
            rows == vec@.len(),
            cols == vec@[0]@.len(),
            forall|k: int| 0 <= k < i ==> #[trigger] vec@[k]@.len() == cols,
        decreases rows - i,
    {
        if vec[i].len() != cols {
            return Err(NumRs2Error::DimensionMismatch(message("rows differ in length")));
        }
        i = i + 1;
    }
    let ghost v = vec@.map_values(|row: Vec<T>| row@);
    let mut data: Vec<T> = Vec::with_capacity(rows * cols);
    let mut r: usize = 0;
    while r < rows
        invariant
            r <= rows,
            rows == vec@.len(),
            cols == vec@[0]@.len(),
            rows * cols <= usize::MAX,
            v == vec@.map_values(|row: Vec<T>| row@),
            forall|k: int| 0 <= k < rows ==> #[trigger] vec@[k]@.len() == cols,
            data@.len() == r * cols,
            forall|p: int, q: int| 0 <= p < r && 0 <= q < cols ==> #[trigger] data@[p * cols + q] == v[p][q],
        decreases rows - r,
    {
        let row = &vec[r];
        let mut c: usize = 0;
        while c < cols
            invariant
                c <= cols,
                r < rows,
                rows == vec@.len(),
                row@ == vec@[r as int]@,
                row@.len() == cols,
                rows * cols <= usize::MAX,
                v == vec@.map_values(|row: Vec<T>| row@),
                data@.len() == r * cols + c,
                forall|p: int, q: int| 0 <= p < r && 0 <= q < cols ==> #[trigger] data@[p * cols + q] == v[p][q],
                forall|q: int| 0 <= q < c ==> #[trigger] data@[r * cols + q] == v[r as int][q],
            decreases cols - c,
        {
            proof {
                assert((r + 1) * cols <= rows * cols) by (nonlinear_arith)
                    requires
                        r < rows,
                ;
                assert((r + 1) * cols == r * cols + cols) by (nonlinear_arith);
            }
            let ghost before = data@;
            data.push(row[c]);
            proof {
                assert forall|p: int, q: int| 0 <= p < r && 0 <= q < cols implies #[trigger] data@[p * cols
                    + q] == v[p][q] by {
                    lemma_row_index(p, q, r as int, cols as int);
                    assert(data@[p * cols + q] == before[p * cols + q]);
                }
            }
            c = c + 1;
        }
        proof {
            assert((r + 1) * cols == r * cols + cols) by (nonlinear_arith);
            assert forall|p: int, q: int| 0 <= p < r + 1 && 0 <= q < cols implies #[trigger] data@[p * cols + q]
                == v[p][q] by {
                if p < r {
                } else {
                    assert(p * cols + q == r * cols + q);
                }
            }
        }
        r = r + 1;
    }
    let mut shape: Vec<usize> = Vec::new();
    shape.push(rows);
    shape.push(cols);
    proof {
        assert(shape@ =~= seq![rows, cols]);
        lemma_flat_index_2d(rows, cols, 0, 0);
    }
    let a = Array::from_vec(data).reshape(shape.as_slice());
    assert(v.len() == rows);
    assert(v[0].len() == cols);
    Ok(a)
}

/// The rows of a two-dimensional array.
fn matrix_rows<T: Copy>(array: &Array<T>) -> (rows: Vec<Vec<T>>)
    requires
        array@.shape.len() == 2,
    ensures
        rows@.map_values(|row: Vec<T>| row@) == rows_of(array@),
{
    let shape = array.shape_ref();
    let data = array.data_ref();
    let n = data.len();
    let rows = shape[0];
    let cols = shape[1];
    proof {
        assert(shape@ =~= seq![rows, cols]);
        lemma_flat_index_2d(rows, cols, 0, 0);
    }
    let mut out: Vec<Vec<T>> = Vec::with_capacity(rows);
    let mut i: usize = 0;
    while i < rows
        invariant
            i <= rows,
            shape@ == seq![rows, cols],
            data@.len() == rows * cols,
            n == data@.len(),
            data@ == array@.data,
            array@.shape == shape@,
            out@.len() == i,
            forall|p: int| 0 <= p < i ==> (#[trigger] out@[p])@ == rows_of(array@)[p],
        decreases rows - i,
    {
        let mut row: Vec<T> = Vec::with_capacity(cols);
        let mut j: usize = 0;
        while j < cols
            invariant
                j <= cols,
                i < rows,
                data@.len() == rows * cols,
                n == data@.len(),
                row@.len() == j,
                forall|q: int| 0 <= q < j ==> #[trigger] row@[q] == data@[i * cols + q],
            decreases cols - j,
        {
            proof {
                assert(i * cols + j < rows * cols) by (nonlinear_arith)
                    requires
                        i < rows,
                        j < cols,
                ;
            }
            row.push(data[i * cols + j]);
            j = j + 1;
        }
        assert(row@ =~= rows_of(array@)[i as int]);
        out.push(row);
        i = i + 1;
    }
    assert(out@.map_values(|row: Vec<T>| row@) =~= rows_of(array@));
    out
}

/// The rows of a two-dimensional array as vectors.
///
/// Fails with `DimensionMismatch` unless the array has two dimensions.
pub fn array_to_vec2d<T: Copy>(array: &Array<T>) -> (r: Result<Vec<Vec<T>>>)
    ensures
        array@.shape.len() != 2 ==> (r matches Err(NumRs2Error::DimensionMismatch(_))),
        array@.shape.len() == 2 ==> (r matches Ok(v) && v@.map_values(|row: Vec<T>| row@) == rows_of(
            array@,
        )),
{
    if array.ndim() != 2 {
        return Err(NumRs2Error::DimensionMismatch(message("expected a 2D array")));
    }
    Ok(matrix_rows(array))
}

impl<T: Copy> Array<T> {
    /// The rows of the array: the whole array as one row when it is
    /// one-dimensional, its rows when it is two-dimensional.
    ///
    /// Fails with `DimensionMismatch` for any other number of dimensions.
    pub fn to_row_vectors(&self) -> (r: Result<Vec<Vec<T>>>)
        ensures
            self@.shape.len() == 1 ==> (r matches Ok(v) && v@.len() == 1 && v@[0]@ == self@.data),
            self@.shape.len() == 2 ==> (r matches Ok(v) && v@.map_values(|row: Vec<T>| row@) == rows_of(
                self@,
            )),
            self@.shape.len() != 1 && self@.shape.len() != 2 ==> (r matches Err(
                NumRs2Error::DimensionMismatch(_),
            )),
    {
        let nd = self.ndim();
        if nd == 1 {
            let mut v: Vec<Vec<T>> = Vec::new();
            v.push(self.to_vec());
            return Ok(v);
        } else if nd == 2 {
            return Ok(matrix_rows(self));
        }
        Err(NumRs2Error::DimensionMismatch(message("more than 2 dimensions")))
    }
}

} // verus!
