//! Element access, diagonals, and NumPy-style selection (`take`, `choose`,
//! `compress`, `put`, `putmask`, boolean and integer-array indexing).

use vstd::prelude::*;
use vstd::string::StringSliceAdditionalSpecFns;
use crate::array::{Array, ArrayModel, copy_slice, flat_index_exec, unflatten_exec};
use crate::error::{NumRs2Error, Result, message};
use crate::arith::CheckedArith;
use crate::shape::{
    shape_size, in_bounds, flat_index, unflatten, lemma_flat_index_bounds, lemma_unflatten,
    lemma_flat_index_1d, lemma_flat_index_2d,
};

verus! {

/// Represents an index specification for a single dimension.
#[derive(Clone, Debug)]
pub enum IndexSpec {
    /// A single index.
    Index(usize),
    /// A range of indices with start, optional end and optional step.
    Slice(usize, Option<usize>, Option<usize>),
    /// A set of arbitrary indices.
    Indices(Vec<usize>),
    /// A boolean mask.
    Mask(Vec<bool>),
    /// All indices.
    All,
    /// Ellipsis (`...`): expands to as many full slices as needed.
    Ellipsis,
}

impl IndexSpec {
    /// Creates a slice specification.
    pub fn slice(start: usize, end: Option<usize>, step: Option<usize>) -> (r: Self)
        ensures
            r == IndexSpec::Slice(start, end, step),
    {
        IndexSpec::Slice(start, end, step)
    }

    /// Creates a slice specification covering a range.
    pub fn from_range(range: std::ops::Range<usize>) -> (r: Self)
        ensures
            r == IndexSpec::Slice(range.start, Some(range.end), None),
    {
        IndexSpec::Slice(range.start, Some(range.end), None)
    }

    /// Creates a specification from a vector of indices.
    pub fn from_indices(indices: Vec<usize>) -> (r: Self)
        ensures
            r == IndexSpec::Indices(indices),
    {
        IndexSpec::Indices(indices)
    }

    /// Creates a specification from a boolean mask.
    pub fn from_mask(mask: Vec<bool>) -> (r: Self)
        ensures
            r == IndexSpec::Mask(mask),
    {
        IndexSpec::Mask(mask)
    }

    /// Creates an ellipsis specification.
    pub fn ellipsis() -> (r: Self)
        ensures
            r == IndexSpec::Ellipsis,
    {
        IndexSpec::Ellipsis
    }
}

/// How indices outside the valid range are treated by `choose` and `put`.
#[derive(Clone, Copy, Debug, PartialEq, Eq)]
pub enum IndexMode {
    /// An index outside the range is an error.
    Raise,
    /// Indices are taken modulo the length of the range.
    Wrap,
    /// Indices are clamped into the range.
    Clip,
}

/// The mode named by the bytes of a mode string: `raise`, `wrap` or `clip`
/// (ASCII), or `None` for any other string.
pub open spec fn mode_from_bytes(b: Seq<u8>) -> Option<IndexMode> {
    if b == seq![114u8, 97u8, 105u8, 115u8, 101u8] {
        Some(IndexMode::Raise)
    } else if b == seq![119u8, 114u8, 97u8, 112u8] {
        Some(IndexMode::Wrap)
    } else if b == seq![99u8, 108u8, 105u8, 112u8] {
        Some(IndexMode::Clip)
    } else {
        None
    }
}

/// The mode selected by an optional mode string; an absent string selects
/// `raise`.
pub open spec fn spec_index_mode(mode: Option<&str>) -> Option<IndexMode> {
    match mode {
        None => Some(IndexMode::Raise),
        Some(s) => mode_from_bytes(s.spec_bytes()),
    }
}

fn bytes_equal(a: &[u8], b: &[u8]) -> (r: bool)
    ensures
        r == (a@ == b@),
{
    if a.len() != b.len() {
        return false;
    }
    let mut i: usize = 0;
    while i < a.len()
        invariant
            a@.len() == b@.len(),
            i <= a.len(),
            forall|j: int| 0 <= j < i ==> a@[j] == b@[j],
        decreases a.len() - i,
    {
        if a[i] != b[i] {
            return false;
        }
        i = i + 1;
    }
    assert(a@ =~= b@);
    true
}

/// Reads a mode string.
pub fn parse_index_mode(mode: Option<&str>) -> (r: Option<IndexMode>)
    ensures
        r == spec_index_mode(mode),
{
    match mode {
        None => Some(IndexMode::Raise),
        Some(s) => {
            let b = s.as_bytes();
            let raise: [u8; 5] = [114u8, 97u8, 105u8, 115u8, 101u8];
            let wrap: [u8; 4] = [119u8, 114u8, 97u8, 112u8];
            let clip: [u8; 4] = [99u8, 108u8, 105u8, 112u8];
            assert(raise@ =~= seq![114u8, 97u8, 105u8, 115u8, 101u8]);
            assert(wrap@ =~= seq![119u8, 114u8, 97u8, 112u8]);
            assert(clip@ =~= seq![99u8, 108u8, 105u8, 112u8]);
            if bytes_equal(b, raise.as_slice()) {
                Some(IndexMode::Raise)
            } else if bytes_equal(b, wrap.as_slice()) {
                Some(IndexMode::Wrap)
            } else if bytes_equal(b, clip.as_slice()) {
                Some(IndexMode::Clip)
            } else {
                None
            }
        },
    }
}

/// Checks a multi-index against a shape: `Ok` when it addresses an element,
/// `DimensionMismatch` when its length differs from the number of
/// dimensions, `IndexOutOfBounds` when some index exceeds its dimension.
pub(crate) fn check_indices(shape: &[usize], indices: &[usize]) -> (r: Result<()>)
    ensures
        r is Ok <==> in_bounds(shape@, indices@),
        indices@.len() != shape@.len() ==> r matches Err(NumRs2Error::DimensionMismatch(_)),
        indices@.len() == shape@.len() && !in_bounds(shape@, indices@) ==> r matches Err(
            NumRs2Error::IndexOutOfBounds(_),
        ),
{
    if indices.len() != shape.len() {
        return Err(NumRs2Error::DimensionMismatch(message("index count differs from ndim")));
    }
    let mut k: usize = 0;
    while k < indices.len()
        invariant
            k <= indices.len(),
            indices@.len() == shape@.len(),
            forall|j: int| 0 <= j < k ==> indices@[j] < shape@[j],
        decreases indices.len() - k,
    {
        if indices[k] >= shape[k] {
            return Err(NumRs2Error::IndexOutOfBounds(message("index out of bounds")));
        }
        k = k + 1;
    }
    Ok(())
}

impl<T: Copy> Array<T> {
    /// Gets the element at the multi-index `indices`.
    ///
    /// Fails with `DimensionMismatch` when the number of indices differs from
    /// the number of dimensions and with `IndexOutOfBounds` when an index
    /// exceeds its dimension.
    pub fn get(&self, indices: &[usize]) -> (r: Result<T>)
        ensures
            indices@.len() != self@.shape.len() ==> r matches Err(
                NumRs2Error::DimensionMismatch(_),
            ),
            indices@.len() == self@.shape.len() && !in_bounds(self@.shape, indices@) ==> r matches Err(
                NumRs2Error::IndexOutOfBounds(_),
            ),
            in_bounds(self@.shape, indices@) ==> r == Ok::<T, NumRs2Error>(self@.at(indices@)),
    {
        let shape = self.shape_ref();
        let data = self.data_ref();
        match check_indices(shape.as_slice(), indices) {
            Err(e) => Err(e),
            Ok(()) => {
                let _n = data.len();
                let f = flat_index_exec(shape.as_slice(), indices);
                Ok(data[f])
            },
        }
    }

    /// The main diagonal of a two-dimensional array: the elements `(i, i)`
    /// for `i` below the smaller dimension.
    ///
    /// Fails with `DimensionMismatch` unless the array has two dimensions.
    pub fn diag(&self) -> (r: Result<Self>)
        ensures
            self@.shape.len() != 2 ==> r matches Err(NumRs2Error::DimensionMismatch(_)),
            self@.shape.len() == 2 ==> r is Ok,
            r matches Ok(d) ==> {
                let n = if self@.shape[0] <= self@.shape[1] {
                    self@.shape[0]
                } else {
                    self@.shape[1]
                };
                &&& d@.shape == seq![n]
                &&& d@.well_formed()
                &&& forall|i: int|
                    0 <= i < n ==> #[trigger] d@.data[i] == self@.at(seq![i as usize, i as usize])
            },
    {
        if self.ndim() != 2 {
            return Err(NumRs2Error::DimensionMismatch(message("diag requires a 2D array")));
        }
        let shape = self.shape_ref();
        let data = self.data_ref();
        let rows = shape[0];
        let cols = shape[1];
        let n = if rows <= cols {
            rows
        } else {
            cols
        };
        let total = data.len();
        proof {
            assert(shape@ =~= seq![rows, cols]);
            lemma_flat_index_2d(rows, cols, 0, 0);
        }
        let mut out: Vec<T> = Vec::with_capacity(n);
        let mut i: usize = 0;
        while i < n
            invariant
                i <= n,
                total == data@.len(),
                n <= rows,
                n <= cols,
                shape@ == seq![rows, cols],
                data@.len() == rows * cols,
                out@.len() == i,
                forall|j: int|
                    0 <= j < i ==> #[trigger] out@[j] == data@[flat_index(
                        seq![rows, cols],
                        seq![j as usize, j as usize],
                    )],
            decreases n - i,
        {
            proof {
                lemma_flat_index_2d(rows, cols, i, i);
                lemma_flat_index_bounds(seq![rows, cols], seq![i, i]);
            }
            out.push(data[i * cols + i]);
            i = i + 1;
        }
        Ok(Array::from_vec(out))
    }
}


/// Length of the diagonal with offset `off` of a `d1` by `d2` plane.
pub open spec fn diag_len(d1: int, d2: int, off: int) -> int {
    if off >= 0 {
        if d2 - off <= d1 { d2 - off } else { d1 }
    } else {
        if d1 + off <= d2 { d1 + off } else { d2 }
    }
}

/// Multi-index of the `i`-th element of the diagonal with offset `off` in the
/// plane of axes `ax1` and `ax2` of an `nd`-dimensional array; every other
/// index is zero.
pub open spec fn diag_index(nd: nat, ax1: int, ax2: int, off: int, i: int) -> Seq<usize> {
    let row = if off >= 0 { i } else { i - off };
    let col = if off >= 0 { i + off } else { i };
    Seq::new(nd, |k: int| 0usize).update(ax1, row as usize).update(ax2, col as usize)
}

impl<T: Copy> Array<T> {
    /// Extracts a diagonal: the elements whose indices along `axis1` and
    /// `axis2` (default `0` and `1`) differ by `offset` (positive above the
    /// main diagonal, negative below), taking index `0` along every other
    /// axis.
    ///
    /// Fails with `DimensionMismatch` when an axis is out of range, with
    /// `InvalidOperation` when the axes coincide, and with `IndexOutOfBounds`
    /// when the diagonal is not empty and another axis has length zero.
    pub fn diagonal(&self, offset: isize, axis1: Option<usize>, axis2: Option<usize>) -> (r: Result<Self>)
        requires
            ({
                let ax1 = match axis1 { Some(a) => a as int, None => 0 };
                let ax2 = match axis2 { Some(a) => a as int, None => 1 };
                ax1 < self@.shape.len() && ax2 < self@.shape.len() && ax1 != ax2 ==> {
                    &&& offset >= 0 ==> offset <= self@.shape[ax2]
                    &&& offset < 0 ==> offset > isize::MIN && -offset <= self@.shape[ax1]
                }
            }),
        ensures
            ({
                let nd = self@.shape.len();
                let ax1 = match axis1 { Some(a) => a as int, None => 0 };
                let ax2 = match axis2 { Some(a) => a as int, None => 1 };
                let len = diag_len(self@.shape[ax1] as int, self@.shape[ax2] as int, offset as int);
                &&& (ax1 >= nd || ax2 >= nd) ==> (r matches Err(NumRs2Error::DimensionMismatch(_)))
                &&& (ax1 < nd && ax2 < nd && ax1 == ax2) ==> (r matches Err(
                    NumRs2Error::InvalidOperation(_),
                ))
                &&& (ax1 < nd && ax2 < nd && ax1 != ax2) ==> {
                    let other_empty = exists|k: int|
                        0 <= k < nd && k != ax1 && k != ax2 && #[trigger] self@.shape[k] == 0;
                    &&& (len > 0 && other_empty) ==> (r matches Err(
                        NumRs2Error::IndexOutOfBounds(_),
                    ))
                    &&& !(len > 0 && other_empty) ==> r is Ok
                    &&& r matches Ok(d) ==> {
                        &&& d@.shape == seq![len as usize]
                        &&& d@.well_formed()
                        &&& forall|i: int|
                            0 <= i < len ==> #[trigger] d@.data[i] == self@.at(
                                diag_index(nd, ax1, ax2, offset as int, i),
                            )
                    }
                }
            }),
    {
        let ax1 = match axis1 {
            Some(a) => a,
            None => 0,
        };
        let ax2 = match axis2 {
            Some(a) => a,
            None => 1,
        };
        let nd = self.ndim();
        if ax1 >= nd || ax2 >= nd {
            return Err(NumRs2Error::DimensionMismatch(message("axes out of bounds")));
        }
        if ax1 == ax2 {
            return Err(NumRs2Error::InvalidOperation(message("axes cannot be identical")));
        }
        let shape = self.shape_ref();
        let data = self.data_ref();
        let total = data.len();
        let d1 = shape[ax1];
        let d2 = shape[ax2];
        let len: usize = if offset >= 0 {
            let o = offset as usize;
            if d2 - o <= d1 {
                d2 - o
            } else {
                d1
            }
        } else {
            let o = (-offset) as usize;
            if d1 - o <= d2 {
                d1 - o
            } else {
                d2
            }
        };
        assert(len == diag_len(d1 as int, d2 as int, offset as int));
        if len == 0 {
            let empty: Vec<T> = Vec::new();
            let d = Array::from_vec(empty);
            assert(d@.shape =~= seq![len]);
            return Ok(d);
        }
        // An empty axis other than the two diagonal axes leaves no element to read.
        let mut k: usize = 0;
        while k < nd
            invariant
                k <= nd,
                nd == shape@.len(),
                shape@ == self@.shape,
                ax1 as int == (match axis1 { Some(a) => a as int, None => 0 }),
                ax2 as int == (match axis2 { Some(a) => a as int, None => 1 }),
                len > 0,
                ax1 < nd,
                ax2 < nd,
                ax1 != ax2,
                len == diag_len(d1 as int, d2 as int, offset as int),
                d1 == shape@[ax1 as int],
                d2 == shape@[ax2 as int],
                forall|j: int| 0 <= j < k && j != ax1 && j != ax2 ==> shape@[j] != 0,
            decreases nd - k,
        {
            if k != ax1 && k != ax2 && shape[k] == 0 {
                assert(self@.shape[k as int] == 0);
                return Err(NumRs2Error::IndexOutOfBounds(message("index out of bounds")));
            }
            k = k + 1;
        }
        let mut out: Vec<T> = Vec::with_capacity(len);
        let mut i: usize = 0;
        while i < len
            invariant
                i <= len,
                len == diag_len(d1 as int, d2 as int, offset as int),
                len > 0,
                nd == shape@.len(),
                ax1 < nd,
                ax2 < nd,
                ax1 != ax2,
                d1 == shape@[ax1 as int],
                d2 == shape@[ax2 as int],
                total == data@.len(),
                data@.len() == shape_size(shape@),
                offset >= 0 ==> offset <= d2,
                offset < 0 ==> offset > isize::MIN && -offset <= d1,
                forall|j: int| 0 <= j < nd && j != ax1 && j != ax2 ==> shape@[j] != 0,
                out@.len() == i,
                forall|j: int|
                    0 <= j < i ==> #[trigger] out@[j] == data@[flat_index(
                        shape@,
                        diag_index(nd as nat, ax1 as int, ax2 as int, offset as int, j),
                    )],
            decreases len - i,
        {
            let mut idx: Vec<usize> = Vec::new();
            let mut q: usize = 0;
            while q < nd
                invariant
                    q <= nd,
                    idx@.len() == q,
                    forall|j: int| 0 <= j < q ==> idx@[j] == 0usize,
                decreases nd - q,
            {
                idx.push(0);
                q = q + 1;
            }
            let row: usize = if offset >= 0 {
                i
            } else {
                i + (-offset) as usize
            };
            let col: usize = if offset >= 0 {
                i + offset as usize
            } else {
                i
            };
            idx.set(ax1, row);
            idx.set(ax2, col);
            let ghost expect = diag_index(nd as nat, ax1 as int, ax2 as int, offset as int, i as int);
            assert(idx@ =~= expect);
            assert(in_bounds(shape@, idx@)) by {
                assert forall|j: int| 0 <= j < shape@.len() implies #[trigger] idx@[j] < shape@[j] by {
                    if j != ax1 && j != ax2 {
                        assert(shape@[j] != 0);
                    }
                }
            }
            let f = flat_index_exec(shape.as_slice(), idx.as_slice());
            out.push(data[f]);
            i = i + 1;
        }
        let d = Array::from_vec(out);
        assert(d@.shape =~= seq![len]);
        Ok(d)
    }
}


/// `r` holds the slices of `a` at the positions `idx` along axis `ax`, in the
/// order of `idx`: its shape is that of `a` with the length of axis `ax`
/// replaced by the number of positions.
pub open spec fn is_take_along_axis<T>(
    a: ArrayModel<T>,
    ax: int,
    idx: Seq<usize>,
    r: ArrayModel<T>,
) -> bool {
    &&& r.shape == a.shape.update(ax, idx.len() as usize)
    &&& r.well_formed()
    &&& forall|o: Seq<usize>|
        #[trigger] in_bounds(r.shape, o) ==> r.at(o) == a.at(o.update(ax, idx[o[ax] as int]))
}

/// The elements of `data` at the positions where `mask` is true, in order.
pub open spec fn select_where<T>(data: Seq<T>, mask: Seq<bool>) -> Seq<T>
    decreases mask.len(),
{
    if mask.len() == 0 {
        seq![]
    } else {
        let rest = select_where(data, mask.drop_last());
        if mask.last() {
            rest.push(data[mask.len() - 1])
        } else {
            rest
        }
    }
}

/// The positions where `mask` is true, in increasing order.
pub open spec fn true_positions(mask: Seq<bool>) -> Seq<usize>
    decreases mask.len(),
{
    if mask.len() == 0 {
        seq![]
    } else {
        let rest = true_positions(mask.drop_last());
        if mask.last() {
            rest.push((mask.len() - 1) as usize)
        } else {
            rest
        }
    }
}

/// Number of true entries of `mask`.
pub open spec fn count_true(mask: Seq<bool>) -> nat
    decreases mask.len(),
{
    if mask.len() == 0 {
        0
    } else {
        count_true(mask.drop_last()) + if mask.last() { 1nat } else { 0nat }
    }
}

/// Positions where `mask` is true, and their count.
pub(crate) fn true_positions_exec(mask: &[bool]) -> (r: Vec<usize>)
    ensures
        r@ == true_positions(mask@),
        r@.len() == count_true(mask@),
        forall|i: int| 0 <= i < r@.len() ==> #[trigger] r@[i] < mask@.len(),
{
    let mut r: Vec<usize> = Vec::new();
    let mut i: usize = 0;
    while i < mask.len()
        invariant
            i <= mask.len(),
            r@ == true_positions(mask@.take(i as int)),
            r@.len() == count_true(mask@.take(i as int)),
            forall|j: int| 0 <= j < r@.len() ==> #[trigger] r@[j] < i,
        decreases mask.len() - i,
    {
        assert(mask@.take(i + 1).drop_last() =~= mask@.take(i as int));
        if mask[i] {
            r.push(i);
        }
        i = i + 1;
    }
    assert(mask@.take(mask.len() as int) =~= mask@);
    r
}

/// Elements of `data` where `mask` is true.
pub(crate) fn select_where_exec<T: Copy>(data: &[T], mask: &[bool]) -> (r: Vec<T>)
    requires
        data@.len() == mask@.len(),
    ensures
        r@ == select_where(data@, mask@),
{
    let mut r: Vec<T> = Vec::new();
    let mut i: usize = 0;
    while i < mask.len()
        invariant
            i <= mask.len(),
            data@.len() == mask@.len(),
            r@ == select_where(data@, mask@.take(i as int)),
        decreases mask.len() - i,
    {
        assert(mask@.take(i + 1).drop_last() =~= mask@.take(i as int));
        if mask[i] {
            r.push(data[i]);
        }
        i = i + 1;
    }
    assert(mask@.take(mask.len() as int) =~= mask@);
    r
}

impl<T: Copy> Array<T> {
    /// The slices at positions `idx` along axis `ax`.
    pub(crate) fn take_along_axis(&self, ax: usize, idx: &[usize]) -> (r: Self)
        requires
            ax < self@.shape.len(),
            forall|i: int| 0 <= i < idx@.len() ==> #[trigger] idx@[i] < self@.shape[ax as int],
            shape_size(self@.shape.update(ax as int, idx@.len() as usize)) <= usize::MAX,
        ensures
            is_take_along_axis(self@, ax as int, idx@, r@),
    {
        let shape = self.shape_ref();
        let data = self.data_ref();
        let total = data.len();
        let mut out_shape = copy_slice(shape.as_slice());
        out_shape.set(ax, idx.len());
        let ghost os = out_shape@;
        assert(os == shape@.update(ax as int, idx@.len() as usize));
        let out_size = match crate::array::checked_shape_size(out_shape.as_slice()) {
            Some(n) => n,
            None => 0,
        };
        let mut out: Vec<T> = Vec::with_capacity(out_size);
        let mut j: usize = 0;
        while j < out_size
            invariant
                j <= out_size,
                out_size == shape_size(os),
                os == shape@.update(ax as int, idx@.len() as usize),
                out_shape@ == os,
                total == data@.len(),
                ax < shape@.len(),
                shape@ == self@.shape,
                data@ == self@.data,
                data@.len() == shape_size(shape@),
                forall|i: int| 0 <= i < idx@.len() ==> #[trigger] idx@[i] < shape@[ax as int],
                out@.len() == j,
                forall|q: int|
                    0 <= q < j ==> {
                        let o = #[trigger] unflatten(os, q);
                        out@[q] == self@.at(o.update(ax as int, idx@[o[ax as int] as int]))
                    },
            decreases out_size - j,
        {
            let o = unflatten_exec(out_shape.as_slice(), j);
            let p = o[ax];
            assert(p < idx@.len()) by {
                assert(o@[ax as int] < os[ax as int]);
            }
            let mut src = copy_slice(o.as_slice());
            src.set(ax, idx[p]);
            assert(in_bounds(shape@, src@)) by {
                assert forall|k: int| 0 <= k < shape@.len() implies #[trigger] src@[k] < shape@[k] by {
                    if k != ax {
                        assert(o@[k] < os[k]);
                    }
                }
            }
            let f = flat_index_exec(shape.as_slice(), src.as_slice());
            out.push(data[f]);
            j = j + 1;
        }
        let r = Array::from_parts(out_shape, out);
        assert forall|o: Seq<usize>| #[trigger] in_bounds(r@.shape, o) implies r@.at(o) == self@.at(
            o.update(ax as int, idx@[o[ax as int] as int]),
        ) by {
            lemma_flat_index_bounds(os, o);
            crate::shape::lemma_unflatten_flat_index(os, o);
        }
        r
    }

    /// Takes elements along an axis; with no axis, from the flattened array.
    ///
    /// Every index must lie below the total number of elements, else
    /// `IndexOutOfBounds`. With an axis, fails with `DimensionMismatch` when
    /// the axis is out of range and with `IndexOutOfBounds` when an index is
    /// not below the length of the axis; otherwise the result holds the
    /// slices at the given positions along the axis.
    pub fn take(&self, indices: &Array<usize>, axis: Option<usize>) -> (r: Result<Self>)
        requires
            match axis {
                Some(ax) => ax < self@.shape.len() ==> shape_size(
                    self@.shape.update(ax as int, indices@.data.len() as usize),
                ) <= usize::MAX,
                None => true,
            },
        ensures
            ({
                let idx = indices@.data;
                let n = self@.data.len();
                let all_below_size = forall|i: int| 0 <= i < idx.len() ==> #[trigger] idx[i] < n;
                &&& !all_below_size ==> (r matches Err(NumRs2Error::IndexOutOfBounds(_)))
                &&& all_below_size && axis is None ==> {
                    &&& r is Ok
                    &&& r matches Ok(t) ==> t@.shape == seq![idx.len() as usize] && t@.well_formed()
                        && t@.data == Seq::new(idx.len(), |i: int| self@.data[idx[i] as int])
                }
                &&& all_below_size ==> match axis {
                    None => true,
                    Some(ax) => {
                        &&& ax >= self@.shape.len() ==> (r matches Err(
                            NumRs2Error::DimensionMismatch(_),
                        ))
                        &&& ax < self@.shape.len() ==> {
                            let all_below_dim = forall|i: int|
                                0 <= i < idx.len() ==> #[trigger] idx[i] < self@.shape[ax as int];
                            &&& !all_below_dim ==> (r matches Err(
                                NumRs2Error::IndexOutOfBounds(_),
                            ))
                            &&& all_below_dim ==> (r matches Ok(t) && is_take_along_axis(
                                self@,
                                ax as int,
                                idx,
                                t@,
                            ))
                        }
                    },
                }
            }),
    {
        let idx = indices.data_ref();
        let data = self.data_ref();
        let n = data.len();
        let mut i: usize = 0;
        while i < idx.len()
            invariant
                i <= idx@.len(),
                n == data@.len(),
                idx@ == indices@.data,
                data@ == self@.data,
                forall|j: int| 0 <= j < i ==> #[trigger] idx@[j] < n,
            decreases idx@.len() - i,
        {
            if idx[i] >= n {
                return Err(NumRs2Error::IndexOutOfBounds(message("index out of bounds")));
            }
            i = i + 1;
        }
        match axis {
            None => {
                let mut out: Vec<T> = Vec::with_capacity(idx.len());
                let mut k: usize = 0;
                while k < idx.len()
                    invariant
                        k <= idx@.len(),
                        n == data@.len(),
                        data@ == self@.data,
                        forall|j: int| 0 <= j < idx@.len() ==> #[trigger] idx@[j] < n,
                        out@.len() == k,
                        forall|j: int| 0 <= j < k ==> #[trigger] out@[j] == data@[idx@[j] as int],
                    decreases idx@.len() - k,
                {
                    out.push(data[idx[k]]);
                    k = k + 1;
                }
                let t = Array::from_vec(out);
                assert(t@.data =~= Seq::new(idx@.len(), |i: int| self@.data[idx@[i] as int]));
                Ok(t)
            },
            Some(ax) => {
                if ax >= self.ndim() {
                    return Err(NumRs2Error::DimensionMismatch(message("axis out of bounds")));
                }
                let shape = self.shape_ref();
                let dim = shape[ax];
                let mut k: usize = 0;
                while k < idx.len()
                    invariant
                        k <= idx@.len(),
                        idx@ == indices@.data,
                        data@ == self@.data,
                        ax < self@.shape.len(),
                        axis == Some(ax),
                        dim == self@.shape[ax as int],
                        forall|j: int| 0 <= j < idx@.len() ==> #[trigger] idx@[j] < n,
                        n == data@.len(),
                        forall|j: int| 0 <= j < k ==> #[trigger] idx@[j] < dim,
                    decreases idx@.len() - k,
                {
                    if idx[k] >= dim {
                        assert(!(idx@[k as int] < self@.shape[ax as int]));
                        return Err(NumRs2Error::IndexOutOfBounds(message("index out of bounds")));
                    }
                    k = k + 1;
                }
                Ok(self.take_along_axis(ax, idx.as_slice()))
            },
        }
    }
}

impl<T: Copy> Array<T> {
    /// Selects elements where `condition` is true; with no axis, from the
    /// flattened array, otherwise the slices along the axis whose positions
    /// are true.
    ///
    /// Fails with `ShapeMismatch` when the condition's length differs from
    /// the number of elements (no axis) or from the axis length, and with
    /// `DimensionMismatch` when the axis is out of range.
    pub fn compress(&self, condition: &Array<bool>, axis: Option<usize>) -> (r: Result<Self>)
        ensures
            ({
                let c = condition@.data;
                match axis {
                    None => {
                        &&& c.len() != self@.data.len() ==> (r matches Err(
                            NumRs2Error::ShapeMismatch { expected, actual },
                        ) && expected@ == seq![self@.data.len() as usize] && actual@ == seq![
                            c.len() as usize,
                        ])
                        &&& c.len() == self@.data.len() ==> (r matches Ok(t) && t@.shape == seq![
                            count_true(c) as usize,
                        ] && t@.well_formed() && t@.data == select_where(self@.data, c))
                    },
                    Some(ax) => {
                        &&& ax >= self@.shape.len() ==> (r matches Err(
                            NumRs2Error::DimensionMismatch(_),
                        ))
                        &&& ax < self@.shape.len() && c.len() != self@.shape[ax as int] ==> (r matches Err(
                            NumRs2Error::ShapeMismatch { expected, actual },
                        ) && expected@ == seq![self@.shape[ax as int]] && actual@ == seq![
                            c.len() as usize,
                        ])
                        &&& ax < self@.shape.len() && c.len() == self@.shape[ax as int] ==> (r matches Ok(
                            t,
                        ) && is_take_along_axis(self@, ax as int, true_positions(c), t@))
                    },
                }
            }),
    {
        let cond = condition.data_ref();
        match axis {
            None => {
                let data = self.data_ref();
                if data.len() != cond.len() {
                    let mut expected: Vec<usize> = Vec::new();
                    expected.push(data.len());
                    let mut actual: Vec<usize> = Vec::new();
                    actual.push(cond.len());
                    assert(expected@ =~= seq![self@.data.len() as usize]);
                    assert(actual@ =~= seq![condition@.data.len() as usize]);
                    return Err(NumRs2Error::ShapeMismatch { expected, actual });
                }
                let out = select_where_exec(data.as_slice(), cond.as_slice());
                proof {
                    lemma_select_where_len(data@, cond@);
                }
                let t = Array::from_vec(out);
                assert(t@.shape =~= seq![count_true(cond@) as usize]);
                Ok(t)
            },
            Some(ax) => {
                if ax >= self.ndim() {
                    return Err(NumRs2Error::DimensionMismatch(message("axis out of bounds")));
                }
                let shape = self.shape_ref();
                if cond.len() != shape[ax] {
                    let mut expected: Vec<usize> = Vec::new();
                    expected.push(shape[ax]);
                    let mut actual: Vec<usize> = Vec::new();
                    actual.push(cond.len());
                    assert(expected@ =~= seq![self@.shape[ax as int]]);
                    assert(actual@ =~= seq![condition@.data.len() as usize]);
                    return Err(NumRs2Error::ShapeMismatch { expected, actual });
                }
                let positions = true_positions_exec(cond.as_slice());
                let _total = self.size();
                proof {
                    lemma_count_true_le(cond@);
                    crate::shape::lemma_size_update_le(self@.shape, ax as int, positions@.len() as usize);
                }
                Ok(self.take_along_axis(ax, positions.as_slice()))
            },
        }
    }
}

/// Selecting where a mask is true keeps as many elements as the mask has
/// true entries.
pub proof fn lemma_select_where_len<T>(data: Seq<T>, mask: Seq<bool>)
    ensures
        select_where(data, mask).len() == count_true(mask),
    decreases mask.len(),
{
    if mask.len() > 0 {
        lemma_select_where_len(data, mask.drop_last());
    }
}

/// A mask has at most as many true entries as it has entries.
pub proof fn lemma_count_true_le(mask: Seq<bool>)
    ensures
        count_true(mask) <= mask.len(),
    decreases mask.len(),
{
    if mask.len() > 0 {
        lemma_count_true_le(mask.drop_last());
    }
}


/// Position selected by index `idx` among `n` positions under `mode`:
/// `raise` keeps indices inside the range and rejects the others, `wrap`
/// takes the index modulo `n`, `clip` clamps it into the range.
pub open spec fn resolve_index(mode: IndexMode, idx: int, n: int) -> Option<int> {
    match mode {
        IndexMode::Raise => if 0 <= idx < n {
            Some(idx)
        } else {
            None
        },
        IndexMode::Wrap => if n > 0 {
            Some(idx % n)
        } else {
            None
        },
        IndexMode::Clip => if n > 0 {
            Some(
                if idx < 0 {
                    0
                } else if idx >= n {
                    n - 1
                } else {
                    idx
                },
            )
        } else {
            None
        },
    }
}

/// A selected position lies inside the range.
pub proof fn lemma_resolve_index_in_range(mode: IndexMode, idx: int, n: int)
    ensures
        resolve_index(mode, idx, n) matches Some(p) ==> 0 <= p < n,
{
    if mode == IndexMode::Wrap && n > 0 {
        vstd::arithmetic::div_mod::lemma_mod_bound(idx, n);
    }
}

/// Computes `resolve_index` on machine integers.
pub fn resolve_index_exec(mode: IndexMode, idx: isize, n: usize) -> (r: Option<usize>)
    requires
        mode != IndexMode::Raise ==> n > 0,
    ensures
        match resolve_index(mode, idx as int, n as int) {
            Some(p) => r == Some(p as usize) && 0 <= p < n,
            None => r is None,
        },
{
    match mode {
        IndexMode::Raise => {
            if idx >= 0 && (idx as usize) < n {
                Some(idx as usize)
            } else {
                None
            }
        },
        IndexMode::Wrap => {
            if idx >= 0 {
                let p = (idx as usize) % n;
                Some(p)
            } else {
                let a: usize = (-(idx + 1)) as usize;
                let m = a % n;
                proof {
                    let q = (a as int) / (n as int);
                    vstd::arithmetic::div_mod::lemma_fundamental_div_mod(a as int, n as int);
                    vstd::arithmetic::div_mod::lemma_mod_bound(a as int, n as int);
                    assert((n as int) * q == q * (n as int)) by (nonlinear_arith);
                    assert(idx as int == (-q - 1) * (n as int) + ((n as int) - 1 - (m as int))) by (
                    nonlinear_arith)
                        requires
                            a as int == q * (n as int) + (m as int),
                            idx as int == -(a as int) - 1,
                    ;
                    vstd::arithmetic::div_mod::lemma_fundamental_div_mod_converse(
                        idx as int,
                        n as int,
                        -q - 1,
                        (n as int) - 1 - (m as int),
                    );
                }
                Some(n - 1 - m)
            }
        },
        IndexMode::Clip => {
            if idx < 0 {
                Some(0)
            } else if (idx as usize) >= n {
                Some(n - 1)
            } else {
                Some(idx as usize)
            }
        },
    }
}

pub(crate) fn usize_slices_equal(a: &[usize], b: &[usize]) -> (r: bool)
    ensures
        r == (a@ == b@),
{
    if a.len() != b.len() {
        return false;
    }
    let mut i: usize = 0;
    while i < a.len()
        invariant
            a@.len() == b@.len(),
            i <= a.len(),
            forall|j: int| 0 <= j < i ==> a@[j] == b@[j],
        decreases a.len() - i,
    {
        if a[i] != b[i] {
            return false;
        }
        i = i + 1;
    }
    assert(a@ =~= b@);
    true
}

impl Array<isize> {
    /// Builds an array of the shape of `self` whose element at each position
    /// comes from the choice array selected by the index stored there, taken
    /// at the same position.
    ///
    /// Fails with `InvalidOperation` when no choice is given, with
    /// `ShapeMismatch` when a choice differs in shape from the first one
    /// (naming the first such choice), and, when `self` has elements, with
    /// `InvalidOperation` for a mode other than `raise`, `wrap` or `clip` and
    /// with `IndexOutOfBounds` for an index outside the choices under
    /// `raise`.
    pub fn choose_from<U: Copy>(&self, choices: &[&Array<U>], mode: Option<&str>) -> (r: Result<Array<U>>)
        requires
            choices@.len() > 0 && (forall|j: int|
                0 <= j < choices@.len() ==> (#[trigger] choices@[j])@.shape == choices@[0]@.shape)
                ==> self@.data.len() <= choices@[0]@.data.len(),
        ensures
            choices@.len() == 0 ==> (r matches Err(NumRs2Error::InvalidOperation(_))),
            choices@.len() > 0 ==> ({
                let first = choices@[0]@.shape;
                let same = forall|j: int|
                    0 <= j < choices@.len() ==> (#[trigger] choices@[j])@.shape == first;
                let nc = choices@.len() as int;
                &&& !same ==> (r matches Err(NumRs2Error::ShapeMismatch { expected, actual })
                    && expected@ == first && exists|j: int|
                    0 < j < choices@.len() && actual@ == (#[trigger] choices@[j])@.shape
                        && actual@ != first && forall|k: int|
                        0 <= k < j ==> (#[trigger] choices@[k])@.shape == first)
                &&& same && self@.data.len() > 0 && spec_index_mode(mode) is None ==> (r matches Err(
                    NumRs2Error::InvalidOperation(_),
                ))
                &&& same && self@.data.len() > 0 && spec_index_mode(mode) == Some(IndexMode::Raise)
                    && (exists|i: int|
                    0 <= i < self@.data.len() && resolve_index(
                        IndexMode::Raise,
                        #[trigger] self@.data[i] as int,
                        nc,
                    ) is None) ==> (r matches Err(NumRs2Error::IndexOutOfBounds(_)))
                &&& same && (self@.data.len() == 0 || (spec_index_mode(mode) is Some && forall|
                    i: int,
                |
                    0 <= i < self@.data.len() ==> resolve_index(
                        spec_index_mode(mode).unwrap(),
                        #[trigger] self@.data[i] as int,
                        nc,
                    ) is Some)) ==> (r matches Ok(t) && t@.shape == self@.shape && t@.well_formed()
                    && t@.data.len() == self@.data.len() && forall|i: int|
                    0 <= i < self@.data.len() ==> #[trigger] t@.data[i] == choices@[resolve_index(
                        spec_index_mode(mode).unwrap(),
                        self@.data[i] as int,
                        nc,
                    ).unwrap()]@.data[i])
            }),
    {
        if choices.len() == 0 {
            return Err(NumRs2Error::InvalidOperation(message("no choices provided")));
        }
        let nc = choices.len();
        let first = choices[0].shape_ref();
        let mut j: usize = 1;
        while j < nc
            invariant
                1 <= j <= nc,
                nc == choices@.len(),
                first@ == choices@[0]@.shape,
                forall|k: int| 0 <= k < j ==> (#[trigger] choices@[k])@.shape == first@,
            decreases nc - j,
        {
            let sj = choices[j].shape_ref();
            if !usize_slices_equal(first.as_slice(), sj.as_slice()) {
                let expected = copy_slice(first.as_slice());
                let actual = copy_slice(sj.as_slice());
                return Err(NumRs2Error::ShapeMismatch { expected, actual });
            }
            j = j + 1;
        }
        let my_shape = self.shape();
        let data = self.data_ref();
        let n = data.len();
        let _c0 = choices[0].size();
        if n == 0 {
            let out: Vec<U> = Vec::new();
            assert(out@.len() == shape_size(my_shape@));
            return Ok(Array::from_parts(my_shape, out));
        }
        let m = match parse_index_mode(mode) {
            Some(m) => m,
            None => {
                return Err(NumRs2Error::InvalidOperation(message("invalid mode")));
            },
        };
        let mut out: Vec<U> = Vec::with_capacity(n);
        let mut i: usize = 0;
        while i < n
            invariant
                i <= n,
                n == data@.len(),
                data@ == self@.data,
                n == shape_size(my_shape@),
                my_shape@ == self@.shape,
                nc == choices@.len(),
                nc > 0,
                spec_index_mode(mode) == Some(m),
                forall|k: int| 0 <= k < nc ==> (#[trigger] choices@[k])@.shape == first@,
                first@ == choices@[0]@.shape,
                n <= choices@[0]@.data.len(),
                choices@[0]@.data.len() == shape_size(first@),
                out@.len() == i,
                forall|k: int| 0 <= k < i ==> resolve_index(m, #[trigger] data@[k] as int, nc as int) is Some,
                forall|k: int|
                    0 <= k < i ==> #[trigger] out@[k] == choices@[resolve_index(
                        m,
                        data@[k] as int,
                        nc as int,
                    ).unwrap()]@.data[k],
            decreases n - i,
        {
            match resolve_index_exec(m, data[i], nc) {
                None => {
                    assert(resolve_index(IndexMode::Raise, self@.data[i as int] as int, nc as int) is None);
                    return Err(NumRs2Error::IndexOutOfBounds(message("index out of bounds")));
                },
                Some(p) => {
                    let c = choices[p];
                    let cd = c.data_ref();
                    let cn = c.size();
                    assert(c@.shape == choices@[0]@.shape);
                    assert(cn >= n);
                    out.push(cd[i]);
                },
            }
            i = i + 1;
        }
        Ok(Array::from_parts(my_shape, out))
    }
}


/// Under `wrap`, the index lies outside the array and wraps around: its
/// value is then added to the element there.
pub open spec fn put_wraps(mode: IndexMode, idx: int, n: int) -> bool {
    mode == IndexMode::Wrap && !(0 <= idx < n)
}

/// The buffer after the first `k` writes of `put`: write `j` stores
/// `vals[j]` at the position that `idx[j]` selects under `mode`, or, where
/// the index wraps around, adds `vals[j]` to the element there (writes
/// whose index selects nothing, or whose sum leaves the type, are skipped).
pub open spec fn put_prefix<T: CheckedArith>(
    data: Seq<T>,
    idx: Seq<isize>,
    vals: Seq<T>,
    mode: IndexMode,
    k: int,
) -> Seq<T>
    decreases k,
{
    if k <= 0 {
        data
    } else {
        let prev = put_prefix(data, idx, vals, mode, k - 1);
        match resolve_index(mode, idx[k - 1] as int, data.len() as int) {
            Some(p) => if put_wraps(mode, idx[k - 1] as int, data.len() as int) {
                match prev[p].sum_spec(vals[k - 1]) {
                    Some(x) => prev.update(p, x),
                    None => prev,
                }
            } else {
                prev.update(p, vals[k - 1])
            },
            None => prev,
        }
    }
}

/// Write `k` of `put` cannot be made: its index selects nothing, or it
/// wraps around and the sum leaves the element type.
pub open spec fn put_fails_at<T: CheckedArith>(
    data: Seq<T>,
    idx: Seq<isize>,
    vals: Seq<T>,
    mode: IndexMode,
    k: int,
) -> bool {
    match resolve_index(mode, idx[k] as int, data.len() as int) {
        None => true,
        Some(p) => put_wraps(mode, idx[k] as int, data.len() as int) && put_prefix(
            data,
            idx,
            vals,
            mode,
            k,
        )[p].sum_spec(vals[k]) is None,
    }
}

/// The mode under which `put` makes its writes: the one that `mode` names,
/// and `raise` where there are no indices (the mode is then not read).
pub open spec fn put_mode(mode: Option<&str>, count: int) -> IndexMode {
    if count == 0 {
        IndexMode::Raise
    } else {
        spec_index_mode(mode).unwrap()
    }
}

/// `put` leaves the length of the buffer unchanged.
pub proof fn lemma_put_prefix_len<T: CheckedArith>(
    data: Seq<T>,
    idx: Seq<isize>,
    vals: Seq<T>,
    mode: IndexMode,
    k: int,
)
    ensures
        put_prefix(data, idx, vals, mode, k).len() == data.len(),
    decreases k,
{
    if k > 0 {
        lemma_put_prefix_len(data, idx, vals, mode, k - 1);
        lemma_resolve_index_in_range(mode, idx[k - 1] as int, data.len() as int);
    }
}

/// Writes `values[i]` at the flat position selected by `indices[i]`, for each
/// `i` in order (positions are row-major positions of the whole array).
/// Under `wrap`, an index outside the array wraps around and its value is
/// added to the element there (so `wrap` with indices `0..6` and values
/// `10, 20, ..., 60` on three zeros gives `[50, 70, 90]`).
///
/// Fails with `InvalidOperation` when there are fewer values than indices or,
/// when there are indices, for a mode other than `raise`, `wrap` or `clip`;
/// the array is then unchanged. Under `raise`, the first index outside the
/// array fails with `IndexOutOfBounds`, and under `wrap` the first sum that
/// leaves the element type fails with `InvalidOperation`, leaving the
/// writes before it done.
pub fn put<T: CheckedArith>(array: &mut Array<T>, indices: &Array<isize>, values: &Array<T>, mode: Option<&str>) -> (r: Result<()>)
    requires
        indices@.data.len() > 0 && values@.data.len() >= indices@.data.len() && spec_index_mode(
            mode,
        ) is Some && spec_index_mode(mode) != Some(IndexMode::Raise) ==> old(array)@.data.len() > 0,
    ensures
        final(array)@.shape == old(array)@.shape,
        final(array)@.well_formed(),
        ({
            let idx = indices@.data;
            let vals = values@.data;
            let d0 = old(array)@.data;
            &&& vals.len() < idx.len() ==> (r matches Err(NumRs2Error::InvalidOperation(_))
                && final(array)@ == old(array)@)
            &&& vals.len() >= idx.len() && idx.len() > 0 && spec_index_mode(mode) is None ==> (r matches Err(
                NumRs2Error::InvalidOperation(_),
            ) && final(array)@ == old(array)@)
            &&& vals.len() >= idx.len() && (idx.len() == 0 || spec_index_mode(mode) is Some) ==> {
                let m = put_mode(mode, idx.len() as int);
                &&& (forall|i: int| 0 <= i < idx.len() ==> !#[trigger] put_fails_at(d0, idx, vals, m, i))
                    ==> (r is Ok && final(array)@.data == put_prefix(d0, idx, vals, m, idx.len() as int))
                &&& r is Err ==> exists|k: int|
                    0 <= k < idx.len() && #[trigger] put_fails_at(d0, idx, vals, m, k)
                        && (forall|i: int| 0 <= i < k ==> !#[trigger] put_fails_at(d0, idx, vals, m, i))
                        && final(array)@.data == put_prefix(d0, idx, vals, m, k)
                        && (resolve_index(m, idx[k] as int, d0.len() as int) is None ==> r matches Err(
                        NumRs2Error::IndexOutOfBounds(_),
                    )) && (resolve_index(m, idx[k] as int, d0.len() as int) is Some ==> r matches Err(
                        NumRs2Error::InvalidOperation(_),
                    ))
            }
        }),
{
    let ni = indices.size();
    let nv = values.size();
    let _ = array.size();
    if nv < ni {
        return Err(NumRs2Error::InvalidOperation(message("not enough values")));
    }
    if ni == 0 {
        return Ok(());
    }
    let m = match parse_index_mode(mode) {
        Some(m) => m,
        None => {
            return Err(NumRs2Error::InvalidOperation(message("invalid mode")));
        },
    };
    let n = array.size();
    let idx = indices.data_ref();
    let vals = values.data_ref();
    let ghost d0 = old(array)@.data;
    let mut i: usize = 0;
    while i < ni
        invariant
            i <= ni,
            ni == idx@.len(),
            idx@ == indices@.data,
            vals@ == values@.data,
            nv == vals@.len(),
            nv >= ni,
            n == d0.len(),
            d0 == old(array)@.data,
            m != IndexMode::Raise ==> n > 0,
            spec_index_mode(mode) == Some(m),
            m == put_mode(mode, idx@.len() as int),
            array@.shape == old(array)@.shape,
            array@.well_formed(),
            array@.data == put_prefix(d0, idx@, vals@, m, i as int),
            forall|k: int| 0 <= k < i ==> !#[trigger] put_fails_at(d0, idx@, vals@, m, k),
        decreases ni - i,
    {
        proof {
            lemma_put_prefix_len(d0, idx@, vals@, m, i as int);
        }
        let x = idx[i];
        match resolve_index_exec(m, x, n) {
            None => {
                assert(put_fails_at(d0, idx@, vals@, m, i as int));
                return Err(NumRs2Error::IndexOutOfBounds(message("index out of bounds")));
            },
            Some(p) => {
                let wraps = match m {
                    IndexMode::Wrap => x < 0 || x as usize >= n,
                    _ => false,
                };
                assert(wraps == put_wraps(m, x as int, n as int));
                if wraps {
                    let cur = array.get_flat(p);
                    match cur.checked_sum(vals[i]) {
                        Some(v) => {
                            array.set_flat(p, v);
                        },
                        None => {
                            assert(put_fails_at(d0, idx@, vals@, m, i as int));
                            return Err(NumRs2Error::InvalidOperation(message("sum out of range")));
                        },
                    }
                } else {
                    array.set_flat(p, vals[i]);
                }
            },
        }
        i = i + 1;
    }
    Ok(())
}

/// Number of true entries of the mask before position `i`: the rank of
/// position `i` among the selected positions.
pub open spec fn rank(mask: Seq<bool>, i: int) -> nat {
    count_true(mask.take(i))
}

/// Writes values into the positions where `mask` is true, the `k`-th selected
/// position (in row-major order) receiving `values[k % values.len()]`.
///
/// Fails with `ShapeMismatch` when the mask's shape differs from the array's,
/// and with `InvalidOperation` when the mask selects a position but there are
/// no values; the array is then unchanged.
pub fn putmask<T: Copy>(array: &mut Array<T>, mask: &Array<bool>, values: &Array<T>) -> (r: Result<()>)
    ensures
        final(array)@.shape == old(array)@.shape,
        final(array)@.well_formed(),
        old(array)@.shape != mask@.shape ==> (r matches Err(NumRs2Error::ShapeMismatch { expected, actual })
            && expected@ == old(array)@.shape && actual@ == mask@.shape && final(array)@ == old(array)@),
        old(array)@.shape == mask@.shape && values@.data.len() == 0 && count_true(mask@.data) > 0 ==> (r matches Err(
            NumRs2Error::InvalidOperation(_),
        ) && final(array)@ == old(array)@),
        old(array)@.shape == mask@.shape && !(values@.data.len() == 0 && count_true(mask@.data) > 0) ==> {
            &&& r is Ok
            &&& forall|i: int|
                0 <= i < old(array)@.data.len() ==> #[trigger] final(array)@.data[i] == if mask@.data[i] {
                    values@.data[(rank(mask@.data, i) % values@.data.len()) as int]
                } else {
                    old(array)@.data[i]
                }
        },
{
    let _ = array.size();
    let _ = mask.size();
    let shape = array.shape();
    let mshape = mask.shape_ref();
    if !usize_slices_equal(shape.as_slice(), mshape.as_slice()) {
        let expected = shape;
        let actual = copy_slice(mshape.as_slice());
        return Err(NumRs2Error::ShapeMismatch { expected, actual });
    }
    let md = mask.data_ref();
    let positions = true_positions_exec(md.as_slice());
    let nv = values.size();
    if nv == 0 && positions.len() > 0 {
        return Err(NumRs2Error::InvalidOperation(message("no values provided")));
    }
    let vals = values.data_ref();
    let n = md.len();
    let ghost d0 = old(array)@.data;
    let mut i: usize = 0;
    let mut k: usize = 0;
    while i < n
        invariant
            i <= n,
            n == md@.len(),
            n == d0.len(),
            md@ == mask@.data,
            vals@ == values@.data,
            nv == vals@.len(),
            nv == 0 ==> count_true(md@) == 0,
            k == count_true(md@.take(i as int)),
            k <= i,
            array@.shape == old(array)@.shape,
            array@.well_formed(),
            array@.data.len() == n,
            forall|j: int|
                0 <= j < i ==> #[trigger] array@.data[j] == if md@[j] {
                    vals@[(rank(md@, j) % nv as nat) as int]
                } else {
                    d0[j]
                },
            forall|j: int| i <= j < n ==> #[trigger] array@.data[j] == d0[j],
        decreases n - i,
    {
        assert(md@.take(i + 1).drop_last() =~= md@.take(i as int));
        if md[i] {
            proof {
                lemma_count_true_prefix_le(md@, i as int + 1);
                if nv == 0 {
                    lemma_count_true_prefix_pos(md@, i as int);
                }
            }
            let v = vals[k % nv];
            array.set_flat(i, v);
            k = k + 1;
        }
        i = i + 1;
    }
    Ok(())
}

/// A prefix of a mask has at most as many true entries as the mask.
pub proof fn lemma_count_true_prefix_le(mask: Seq<bool>, i: int)
    requires
        0 <= i <= mask.len(),
    ensures
        count_true(mask.take(i)) <= count_true(mask),
        count_true(mask.take(i)) <= i,
    decreases mask.len() - i,
{
    lemma_count_true_le(mask.take(i));
    if i < mask.len() {
        lemma_count_true_prefix_le(mask, i + 1);
        assert(mask.take(i + 1).drop_last() =~= mask.take(i));
    } else {
        assert(mask.take(i) =~= mask);
    }
}

/// A mask with a true entry has a positive count.
pub proof fn lemma_count_true_prefix_pos(mask: Seq<bool>, i: int)
    requires
        0 <= i < mask.len(),
        mask[i],
    ensures
        count_true(mask) > 0,
{
    assert(mask.take(i + 1).drop_last() =~= mask.take(i));
    lemma_count_true_prefix_le(mask, i + 1);
}

impl<T: Copy> Array<T> {
    /// Writes `values` into the positions where `mask` is true, the `k`-th
    /// selected position (in row-major order) receiving `values[k]`.
    ///
    /// Fails with `ShapeMismatch` when the mask's shape differs from the
    /// array's, or when the number of values differs from the number of true
    /// entries; the array is then unchanged.
    pub fn set_mask(&mut self, mask: &Array<bool>, values: &Array<T>) -> (r: Result<()>)
        ensures
            final(self)@.shape == old(self)@.shape,
            final(self)@.well_formed(),
            old(self)@.shape != mask@.shape ==> (r matches Err(NumRs2Error::ShapeMismatch { expected, actual })
                && expected@ == old(self)@.shape && actual@ == mask@.shape && final(self)@ == old(self)@),
            old(self)@.shape == mask@.shape && values@.data.len() != count_true(mask@.data) ==> (r matches Err(
                NumRs2Error::ShapeMismatch { expected, actual },
            ) && expected@ == seq![count_true(mask@.data) as usize] && actual@ == seq![values@.data.len() as usize]
                && final(self)@ == old(self)@),
            old(self)@.shape == mask@.shape && values@.data.len() == count_true(mask@.data) ==> {
                &&& r is Ok
                &&& forall|i: int|
                    0 <= i < old(self)@.data.len() ==> #[trigger] final(self)@.data[i] == if mask@.data[i] {
                        values@.data[rank(mask@.data, i) as int]
                    } else {
                        old(self)@.data[i]
                    }
            },
    {
        let _ = self.size();
        let _ = mask.size();
        let shape = self.shape();
        let mshape = mask.shape_ref();
        if !usize_slices_equal(shape.as_slice(), mshape.as_slice()) {
            let expected = shape;
            let actual = copy_slice(mshape.as_slice());
            return Err(NumRs2Error::ShapeMismatch { expected, actual });
        }
        let md = mask.data_ref();
        let positions = true_positions_exec(md.as_slice());
        let nv = values.size();
        if nv != positions.len() {
            let mut expected: Vec<usize> = Vec::new();
            expected.push(positions.len());
            let mut actual: Vec<usize> = Vec::new();
            actual.push(nv);
            assert(expected@ =~= seq![count_true(mask@.data) as usize]);
            assert(actual@ =~= seq![values@.data.len() as usize]);
            return Err(NumRs2Error::ShapeMismatch { expected, actual });
        }
        let vals = values.data_ref();
        let n = md.len();
        let ghost d0 = old(self)@.data;
        let mut i: usize = 0;
        let mut k: usize = 0;
        while i < n
            invariant
                i <= n,
                n == md@.len(),
                n == d0.len(),
                md@ == mask@.data,
                vals@ == values@.data,
                nv == vals@.len(),
                nv == count_true(md@),
                k == count_true(md@.take(i as int)),
                self@.shape == old(self)@.shape,
                self@.well_formed(),
                self@.data.len() == n,
                forall|j: int|
                    0 <= j < i ==> #[trigger] self@.data[j] == if md@[j] {
                        vals@[rank(md@, j) as int]
                    } else {
                        d0[j]
                    },
                forall|j: int| i <= j < n ==> #[trigger] self@.data[j] == d0[j],
            decreases n - i,
        {
            assert(md@.take(i + 1).drop_last() =~= md@.take(i as int));
            if md[i] {
                proof {
                    lemma_count_true_prefix_le(md@, i as int + 1);
                }
                let v = vals[k];
                self.set_flat(i, v);
                k = k + 1;
            }
            i = i + 1;
        }
        Ok(())
    }
}


/// The shape of `n` ones with dimension `i` set to `m`.
pub open spec fn unit_shape(n: nat, i: int, m: usize) -> Seq<usize> {
    Seq::new(n, |k: int| 1usize).update(i, m)
}

/// A shape of ones with one dimension `m` holds `m` elements.
pub proof fn lemma_unit_shape_size(n: nat, i: int, m: usize)
    requires
        0 <= i < n,
    ensures
        shape_size(unit_shape(n, i, m)) == m,
    decreases n,
{
    let s = unit_shape(n, i, m);
    let d = shape_size(s.drop_last());
    assert(shape_size(s) == d * (s.last() as nat));
    if i == n - 1 {
        assert(s.last() == m);
        if n == 1 {
            assert(s.drop_last() =~= Seq::<usize>::empty());
        } else {
            assert(s.drop_last() =~= Seq::new((n - 1) as nat, |k: int| 1usize));
            lemma_ones_size((n - 1) as nat);
        }
        assert(d == 1);
        assert(d * (m as nat) == m) by (nonlinear_arith)
            requires
                d == 1,
        ;
    } else {
        assert(s.last() == 1usize);
        assert(s.drop_last() =~= unit_shape((n - 1) as nat, i, m));
        lemma_unit_shape_size((n - 1) as nat, i, m);
        assert(d * 1 == d) by (nonlinear_arith);
    }
}

/// A shape of ones holds one element.
pub proof fn lemma_ones_size(n: nat)
    ensures
        shape_size(Seq::new(n, |k: int| 1usize)) == 1,
    decreases n,
{
    if n > 0 {
        let s = Seq::new(n, |k: int| 1usize);
        assert(s.drop_last() =~= Seq::new((n - 1) as nat, |k: int| 1usize));
        assert(s.last() == 1usize);
        lemma_ones_size((n - 1) as nat);
    }
}

/// Open mesh of index arrays: the `i`-th result holds the elements of
/// `arrays[i]` under a shape of ones whose dimension `i` is the number of
/// those elements.
pub fn ix_<T: Copy>(arrays: &[&Array<T>]) -> (r: Result<Vec<Array<T>>>)
    ensures
        r matches Ok(v) && v@.len() == arrays@.len() && forall|i: int|
            0 <= i < arrays@.len() ==> {
                &&& (#[trigger] v@[i])@.shape == unit_shape(
                    arrays@.len() as nat,
                    i,
                    arrays@[i]@.data.len() as usize,
                )
                &&& v@[i]@.data == arrays@[i]@.data
                &&& v@[i]@.well_formed()
            },
{
    let n = arrays.len();
    let mut out: Vec<Array<T>> = Vec::with_capacity(n);
    let mut i: usize = 0;
    while i < n
        invariant
            i <= n,
            n == arrays@.len(),
            out@.len() == i,
            forall|j: int|
                0 <= j < i ==> {
                    &&& (#[trigger] out@[j])@.shape == unit_shape(
                        n as nat,
                        j,
                        arrays@[j]@.data.len() as usize,
                    )
                    &&& out@[j]@.data == arrays@[j]@.data
                    &&& out@[j]@.well_formed()
                },
        decreases n - i,
    {
        let a = arrays[i];
        let m = a.size();
        let mut shape: Vec<usize> = Vec::with_capacity(n);
        let mut k: usize = 0;
        while k < n
            invariant
                k <= n,
                shape@.len() == k,
                forall|q: int| 0 <= q < k ==> shape@[q] == 1usize,
            decreases n - k,
        {
            shape.push(1);
            k = k + 1;
        }
        shape.set(i, m);
        assert(shape@ =~= unit_shape(n as nat, i as int, m));
        proof {
            lemma_unit_shape_size(n as nat, i as int, m);
        }
        out.push(a.reshape(shape.as_slice()));
        i = i + 1;
    }
    Ok(out)
}

/// Index arrays of a grid of shape `shape`: the `i`-th result holds
/// `0, 1, ..., shape[i] - 1` under a shape of ones whose dimension `i` is
/// `shape[i]`. An empty shape gives no arrays.
pub fn indices_grid(shape: &[usize]) -> (r: Result<Vec<Array<usize>>>)
    ensures
        r matches Ok(v) && v@.len() == shape@.len() && forall|i: int|
            0 <= i < shape@.len() ==> {
                &&& (#[trigger] v@[i])@.shape == unit_shape(shape@.len() as nat, i, shape@[i])
                &&& v@[i]@.data == Seq::new(shape@[i] as nat, |j: int| j as usize)
            },
{
    let n = shape.len();
    let mut out: Vec<Array<usize>> = Vec::with_capacity(n);
    let mut i: usize = 0;
    while i < n
        invariant
            i <= n,
            n == shape@.len(),
            out@.len() == i,
            forall|j: int|
                0 <= j < i ==> {
                    &&& (#[trigger] out@[j])@.shape == unit_shape(n as nat, j, shape@[j])
                    &&& out@[j]@.data == Seq::new(shape@[j] as nat, |q: int| q as usize)
                },
        decreases n - i,
    {
        let dim = shape[i];
        let mut index_shape: Vec<usize> = Vec::with_capacity(n);
        let mut k: usize = 0;
        while k < n
            invariant
                k <= n,
                index_shape@.len() == k,
                forall|q: int| 0 <= q < k ==> index_shape@[q] == 1usize,
            decreases n - k,
        {
            index_shape.push(1);
            k = k + 1;
        }
        index_shape.set(i, dim);
        assert(index_shape@ =~= unit_shape(n as nat, i as int, dim));
        let mut data: Vec<usize> = Vec::with_capacity(dim);
        let mut j: usize = 0;
        while j < dim
            invariant
                j <= dim,
                data@ =~= Seq::new(j as nat, |q: int| q as usize),
            decreases dim - j,
        {
            data.push(j);
            j = j + 1;
        }
        proof {
            lemma_unit_shape_size(n as nat, i as int, dim);
        }
        out.push(Array::from_vec(data).reshape(index_shape.as_slice()));
        i = i + 1;
    }
    Ok(out)
}

/// The flat positions of the elements selected under `b`, converted to their
/// index along dimension `d` of shape `s`.
pub open spec fn selected_coords(s: Seq<usize>, b: Seq<bool>, d: int) -> Seq<usize> {
    true_positions(b).map_values(|p: usize| unflatten(s, p as int)[d])
}

/// Calling `f` on the multi-index at row-major position `q` of shape `s`
/// may return `v`.
pub open spec fn call_outcome<F: Fn(&[usize]) -> bool>(f: F, s: Seq<usize>, q: int, v: bool) -> bool {
    exists|sl: &[usize]| sl@ == unflatten(s, q) && #[trigger] f.ensures((sl,), v)
}

/// `v` lists, per dimension of `s`, the indices of the positions selected by
/// the outcomes `b`, one outcome per position, each a possible result of
/// calling `f` on that position's multi-index.
pub open spec fn is_mask_indices_result<F: Fn(&[usize]) -> bool>(
    f: F,
    s: Seq<usize>,
    v: Seq<Array<usize>>,
    b: Seq<bool>,
) -> bool {
    &&& b.len() == shape_size(s)
    &&& forall|j: int| 0 <= j < b.len() ==> call_outcome(f, s, j, #[trigger] b[j])
    &&& forall|d: int|
        0 <= d < s.len() ==> (#[trigger] v[d])@.data == selected_coords(s, b, d) && v[d]@.shape
            == seq![count_true(b) as usize] && v[d]@.well_formed()
}

/// Some sequence of call outcomes makes `v` the result of `mask_indices`.
pub open spec fn has_mask_indices_result<F: Fn(&[usize]) -> bool>(
    f: F,
    s: Seq<usize>,
    v: Seq<Array<usize>>,
) -> bool {
    exists|b: Seq<bool>| #[trigger] is_mask_indices_result(f, s, v, b)
}

/// Indices, per dimension, of the elements of an array of shape `shape` for
/// which `mask_fn` returns true, visited in row-major order.
///
/// For each multi-index `mask_fn` is called once, in row-major order; the
/// result for dimension `d` lists the `d`-th index of every multi-index for
/// which the call returned true. An empty shape gives no arrays.
pub fn mask_indices<F: Fn(&[usize]) -> bool>(shape: &[usize], mask_fn: F) -> (r: Result<Vec<Array<usize>>>)
    requires
        shape_size(shape@) <= usize::MAX,
        forall|s: &[usize]| #[trigger] mask_fn.requires((s,)),
    ensures
        r matches Ok(v) && v@.len() == shape@.len(),
        shape@.len() > 0 ==> (r matches Ok(v) && has_mask_indices_result(mask_fn, shape@, v@)),
{
    if shape.len() == 0 {
        return Ok(Vec::new());
    }
    let total = match crate::array::checked_shape_size(shape) {
        Some(t) => t,
        None => 0,
    };
    let mut sel: Vec<usize> = Vec::new();
    let ghost f0 = mask_fn;
    let ghost mut b: Seq<bool> = Seq::empty();
    let mut j: usize = 0;
    while j < total
        invariant
            j <= total,
            total == shape_size(shape@),
            mask_fn == f0,
            forall|s: &[usize]| #[trigger] mask_fn.requires((s,)),
            b.len() == j,
            sel@ == true_positions(b),
            forall|q: int| 0 <= q < sel@.len() ==> #[trigger] sel@[q] < j,
            forall|q: int| 0 <= q < j ==> call_outcome(mask_fn, shape@, q, #[trigger] b[q]),
        decreases total - j,
    {
        let idx = unflatten_exec(shape, j);
        let sl = idx.as_slice();
        let hit = mask_fn(sl);
        let ghost old_b = b;
        proof {
            b = b.push(hit);
            assert(b.drop_last() =~= old_b);
            assert forall|q: int| 0 <= q < j + 1 implies call_outcome(mask_fn, shape@, q, #[trigger] b[q]) by {
                if q == j {
                    assert(sl@ == unflatten(shape@, q));
                    assert(mask_fn.ensures((sl,), b[q]));
                } else {
                    assert(b[q] == old_b[q]);
                }
            }
        }
        if hit {
            sel.push(j);
        }
        j = j + 1;
    }
    proof {
        lemma_true_positions_len(b);
    }
    let nd = shape.len();
    let mut out: Vec<Array<usize>> = Vec::with_capacity(nd);
    let mut d: usize = 0;
    while d < nd
        invariant
            d <= nd,
            nd == shape@.len(),
            total == shape_size(shape@),
            b.len() == total,
            mask_fn == f0,
            forall|q: int| 0 <= q < total ==> call_outcome(mask_fn, shape@, q, #[trigger] b[q]),
            sel@ == true_positions(b),
            sel@.len() == count_true(b),
            forall|q: int| 0 <= q < sel@.len() ==> #[trigger] sel@[q] < total,
            out@.len() == d,
            forall|e: int|
                0 <= e < d ==> (#[trigger] out@[e])@.data == selected_coords(shape@, b, e)
                    && out@[e]@.shape == seq![count_true(b) as usize] && out@[e]@.well_formed(),
        decreases nd - d,
    {
        let mut coords: Vec<usize> = Vec::with_capacity(sel.len());
        let mut q: usize = 0;
        while q < sel.len()
            invariant
                q <= sel@.len(),
                d < nd,
                nd == shape@.len(),
                total == shape_size(shape@),
                forall|t: int| 0 <= t < sel@.len() ==> #[trigger] sel@[t] < total,
                coords@.len() == q,
                forall|t: int|
                    0 <= t < q ==> #[trigger] coords@[t] == unflatten(shape@, sel@[t] as int)[d as int],
            decreases sel@.len() - q,
        {
            let idx = unflatten_exec(shape, sel[q]);
            coords.push(idx[d]);
            q = q + 1;
        }
        assert(coords@ =~= selected_coords(shape@, b, d as int));
        let a = Array::from_vec(coords);
        proof {
            assert(a@.shape =~= seq![count_true(b) as usize]);
        }
        out.push(a);
        d = d + 1;
    }
    assert(is_mask_indices_result(mask_fn, shape@, out@, b));
    assert(has_mask_indices_result(mask_fn, shape@, out@));
    Ok(out)
}

/// Each true entry contributes one position.
pub proof fn lemma_true_positions_len(mask: Seq<bool>)
    ensures
        true_positions(mask).len() == count_true(mask),
    decreases mask.len(),
{
    if mask.len() > 0 {
        lemma_true_positions_len(mask.drop_last());
    }
}

} // verus!
