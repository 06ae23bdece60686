//! Shifting the zero-frequency component of a spectrum to its center and
//! back, on one- and two-dimensional arrays.

use vstd::prelude::*;
use vstd::arithmetic::div_mod::{
    lemma_small_mod, lemma_mod_add_multiples_vanish, lemma_add_mod_noop_right,
    lemma_fundamental_div_mod, lemma_mod_pos_bound,
};
use crate::array::{Array, ArrayModel};
use crate::error::{NumRs2Error, Result, message};
use crate::shape::{lemma_flat_index_1d, lemma_flat_index_2d};

verus! {

/// The Fourier-transform operations of the library: the shifts of a
/// spectrum's zero-frequency component.
pub struct FFT;

/// How far a shift turns an axis of length `n`: element `j` of the shifted
/// axis is element `(j + shift_offset(n, inverse)) % n` of the input axis.
/// `fftshift` turns by `(n + 1) / 2`, which moves element 0 to position
/// `n / 2`, the center; `ifftshift` turns by `n / 2`, which undoes it.
pub open spec fn shift_offset(n: nat, inverse: bool) -> nat {
    if inverse {
        n / 2
    } else {
        (n + 1) / 2
    }
}

/// Position `j` of an axis of length `n` turned by `k`.
pub open spec fn turned(j: int, k: nat, n: nat) -> int {
    (j + k) % (n as int)
}

/// Element `(i, j)` of a row-major matrix with `cols` columns.
pub open spec fn cell<T>(data: Seq<T>, cols: nat, i: int, j: int) -> T {
    data[i * cols + j]
}

/// `b` is `a` with each of its (one or two) axes turned as the shift
/// (`inverse` for `ifftshift`) turns it.
pub open spec fn is_shift_of<T>(b: ArrayModel<T>, a: ArrayModel<T>, inverse: bool) -> bool {
    &&& b.shape == a.shape
    &&& b.well_formed()
    &&& a.shape.len() == 1 ==> forall|j: int|
        0 <= j < a.shape[0] ==> #[trigger] b.data[j] == a.data[turned(
            j,
            shift_offset(a.shape[0] as nat, inverse),
            a.shape[0] as nat,
        )]
    &&& a.shape.len() == 2 ==> forall|i: int, j: int|
        0 <= i < a.shape[0] && 0 <= j < a.shape[1] ==> #[trigger] cell(b.data, a.shape[1] as nat, i, j)
            == cell(
            a.data,
            a.shape[1] as nat,
            turned(i, shift_offset(a.shape[0] as nat, inverse), a.shape[0] as nat),
            turned(j, shift_offset(a.shape[1] as nat, inverse), a.shape[1] as nat),
        )
}

/// What a shift of `a` returns: the shifted array for one or two
/// dimensions, `InvalidOperation` otherwise.
pub open spec fn shift_outcome<T>(a: ArrayModel<T>, inverse: bool, r: Result<Array<T>>) -> bool {
    if a.shape.len() == 1 || a.shape.len() == 2 {
        r matches Ok(b) && is_shift_of(b@, a, inverse)
    } else {
        r matches Err(e) && e is InvalidOperation
    }
}

/// Position `j` of an axis of length `n` turned by `k`.
fn turn(j: usize, k: usize, n: usize) -> (r: usize)
    requires
        j < n,
        k <= n,
    ensures
        r == turned(j as int, k as nat, n as nat),
        r < n,
{
    if j >= n - k {
        proof {
            lemma_mod_add_multiples_vanish((j + k - n) as int, n as int);
            lemma_small_mod((j + k - n) as nat, n as nat);
        }
        j - (n - k)
    } else {
        proof {
            lemma_small_mod((j + k) as nat, n as nat);
        }
        j + k
    }
}

/// The turn of an axis of length `n`.
fn offset(n: usize, inverse: bool) -> (k: usize)
    ensures
        k == shift_offset(n as nat, inverse),
        k <= n,
{
    if inverse {
        n / 2
    } else {
        n / 2 + n % 2
    }
}

/// An entry of an earlier row of a row-major matrix comes before the
/// current row.
proof fn lemma_earlier_row(a: int, b: int, i: int, cols: int)
    requires
        0 <= a < i,
        0 <= b < cols,
    ensures
        a * cols + b < i * cols,
        0 <= a * cols + b,
{
    assert(a * cols + b < i * cols) by (nonlinear_arith)
        requires
            0 <= a < i,
            0 <= b < cols,
    ;
    assert(0 <= a * cols + b) by (nonlinear_arith)
        requires
            0 <= a,
            0 <= b,
            0 <= cols,
    ;
}

/// Shifts a one- or two-dimensional array.
fn shift<T: Copy>(x: &Array<T>, inverse: bool) -> (r: Result<Array<T>>)
    ensures
        shift_outcome(x@, inverse, r),
{
    let shape = x.shape();
    let data = x.to_vec();
    if shape.len() == 1 {
        let n = shape[0];
        proof {
            lemma_flat_index_1d(n, 0);
            assert(shape@ =~= seq![n]);
        }
        let k = offset(n, inverse);
        let mut out: Vec<T> = Vec::with_capacity(n);
        let mut j: usize = 0;
        while j < n
            invariant
                j <= n,
                n == data@.len(),
                k <= n,
                out@.len() == j,
                forall|t: int| 0 <= t < j ==> #[trigger] out@[t] == data@[turned(t, k as nat, n as nat)],
            decreases n - j,
        {
            let src = turn(j, k, n);
            out.push(data[src]);
            j = j + 1;
        }
        Ok(Array::from_parts(shape, out))
    } else if shape.len() == 2 {
        let rows = shape[0];
        let cols = shape[1];
        proof {
            lemma_flat_index_2d(rows, cols, 0, 0);
            assert(shape@ =~= seq![rows, cols]);
        }
        let kr = offset(rows, inverse);
        let kc = offset(cols, inverse);
        let total = data.len();
        let mut out: Vec<T> = Vec::new();
        let mut i: usize = 0;
        while i < rows
            invariant
                i <= rows,
                data@.len() == rows * cols,
                total == data@.len(),
                kr <= rows,
                kc <= cols,
                out@.len() == i * cols,
                forall|a: int, b: int|
                    0 <= a < i && 0 <= b < cols ==> #[trigger] cell(out@, cols as nat, a, b) == cell(
                        data@,
                        cols as nat,
                        turned(a, kr as nat, rows as nat),
                        turned(b, kc as nat, cols as nat),
                    ),
            decreases rows - i,
        {
            let src_row = turn(i, kr, rows);
            let ghost before = out@;
            let mut j: usize = 0;
            while j < cols
                invariant
                    i < rows,
                    j <= cols,
                    src_row < rows,
                    src_row == turned(i as int, kr as nat, rows as nat),
                    data@.len() == rows * cols,
                    total == data@.len(),
                    kc <= cols,
                    before.len() == i * cols,
                    out@.len() == i * cols + j,
                    out@.subrange(0, i * cols) == before,
                    forall|b: int|
                        0 <= b < j ==> #[trigger] out@[i * cols + b] == data@[src_row * cols
                            + turned(b, kc as nat, cols as nat)],
                decreases cols - j,
            {
                let src_col = turn(j, kc, cols);
                assert(src_row * cols + src_col < rows * cols) by (nonlinear_arith)
                    requires
                        src_row < rows,
                        src_col < cols,
                ;
                assert(0 <= src_row * cols) by (nonlinear_arith)
                    requires
                        0 <= src_row,
                        0 <= cols,
                ;
                let v = data[src_row * cols + src_col];
                let ghost prev = out@;
                out.push(v);
                assert(out@.subrange(0, i * cols) =~= prev.subrange(0, i * cols));
                j = j + 1;
            }
            assert forall|a: int, b: int|
                0 <= a < i + 1 && 0 <= b < cols implies #[trigger] cell(out@, cols as nat, a, b)
                == cell(
                data@,
                cols as nat,
                turned(a, kr as nat, rows as nat),
                turned(b, kc as nat, cols as nat),
            ) by {
                if a < i {
                    lemma_earlier_row(a, b, i as int, cols as int);
                    assert(out@[a * cols + b] == out@.subrange(0, i * cols)[a * cols + b]);
                    assert(cell(before, cols as nat, a, b) == cell(
                        data@,
                        cols as nat,
                        turned(a, kr as nat, rows as nat),
                        turned(b, kc as nat, cols as nat),
                    ));
                } else {
                    assert(0 <= i * cols) by (nonlinear_arith)
                        requires
                            0 <= i,
                            0 <= cols,
                    ;
                    assert(out@[i * cols + b] == data@[src_row * cols + turned(
                        b,
                        kc as nat,
                        cols as nat,
                    )]);
                }
            }
            assert((i + 1) * cols == i * cols + cols) by (nonlinear_arith);
            i = i + 1;
        }
        Ok(Array::from_parts(shape, out))
    } else {
        Err(NumRs2Error::InvalidOperation(message("the shifts take one- and two-dimensional arrays")))
    }
}

impl FFT {
    /// Shifts the zero-frequency component to the center: each axis (of a
    /// one- or two-dimensional array) is turned so that its element `j` is
    /// the input element `(j + (n + 1) / 2) % n`, `n` being the axis's
    /// length.
    ///
    /// Fails with `InvalidOperation` for other numbers of dimensions.
    pub fn fftshift<T: Copy>(x: &Array<T>) -> (r: Result<Array<T>>)
        ensures
            shift_outcome(x@, false, r),
    {
        shift(x, false)
    }

    /// The inverse of `fftshift`: each axis is turned so that its element
    /// `j` is the input element `(j + n / 2) % n`.
    ///
    /// Fails with `InvalidOperation` for other numbers of dimensions than
    /// one and two.
    pub fn ifftshift<T: Copy>(x: &Array<T>) -> (r: Result<Array<T>>)
        ensures
            shift_outcome(x@, true, r),
    {
        shift(x, true)
    }
}

impl<T: Copy> Array<T> {
    /// `FFT::fftshift` of the array.
    pub fn fftshift_real(&self) -> (r: Result<Array<T>>)
        ensures
            shift_outcome(self@, false, r),
    {
        FFT::fftshift(self)
    }

    /// `FFT::ifftshift` of the array.
    pub fn ifftshift_real(&self) -> (r: Result<Array<T>>)
        ensures
            shift_outcome(self@, true, r),
    {
        FFT::ifftshift(self)
    }
}

/// Turning an axis by `k1` and then by `k2`, with `k1 + k2` its length,
/// brings every position back.
proof fn lemma_turn_back(j: int, k1: nat, k2: nat, n: nat)
    requires
        0 <= j < n,
        k1 + k2 == n,
    ensures
        turned(turned(j, k1, n), k2, n) == j,
{
    lemma_add_mod_noop_right(k2 as int, j + k1, n as int);
    assert(k2 + (j + k1) == n + j);
    lemma_mod_add_multiples_vanish(j, n as int);
    lemma_small_mod(j as nat, n);
}

/// A position below `rows * cols` is row `p / cols`, column `p % cols`.
proof fn lemma_split_position(p: int, rows: int, cols: int)
    requires
        0 <= p < rows * cols,
        0 <= rows,
        0 <= cols,
    ensures
        cols > 0,
        0 <= p / cols < rows,
        0 <= p % cols < cols,
        (p / cols) * cols + p % cols == p,
{
    assert(cols > 0) by (nonlinear_arith)
        requires
            0 <= p < rows * cols,
            0 <= rows,
            0 <= cols,
    ;
    lemma_fundamental_div_mod(p, cols);
    lemma_mod_pos_bound(p, cols);
    let q = p / cols;
    let m = p % cols;
    assert(q * cols + m == p) by (nonlinear_arith)
        requires
            p == cols * q + m,
    ;
    assert(0 <= q < rows) by (nonlinear_arith)
        requires
            q * cols + m == p,
            0 <= m < cols,
            0 <= p < rows * cols,
            cols > 0,
    ;
}

/// Shifting back after a shift (`ifftshift` after `fftshift`, or
/// `fftshift` after `ifftshift`) gives the array back.
pub proof fn law_shift_then_unshift<T>(a: ArrayModel<T>, b: ArrayModel<T>, c: ArrayModel<T>, inverse: bool)
    requires
        a.well_formed(),
        a.shape.len() == 1 || a.shape.len() == 2,
        is_shift_of(b, a, inverse),
        is_shift_of(c, b, !inverse),
    ensures
        c == a,
{
    if a.shape.len() == 1 {
        let n = a.shape[0] as nat;
        lemma_flat_index_1d(a.shape[0], 0);
        assert(a.shape =~= seq![a.shape[0]]);
        assert forall|j: int| 0 <= j < c.data.len() implies c.data[j] == a.data[j] by {
            let t = turned(j, shift_offset(n, !inverse), n);
            lemma_mod_pos_bound(j + shift_offset(n, !inverse), n as int);
            assert(b.data[t] == a.data[turned(t, shift_offset(n, inverse), n)]);
            lemma_turn_back(j, shift_offset(n, !inverse), shift_offset(n, inverse), n);
        }
        assert(c.data =~= a.data);
    } else {
        let rows = a.shape[0] as nat;
        let cols = a.shape[1] as nat;
        lemma_flat_index_2d(a.shape[0], a.shape[1], 0, 0);
        assert(a.shape =~= seq![a.shape[0], a.shape[1]]);
        assert forall|p: int| 0 <= p < c.data.len() implies c.data[p] == a.data[p] by {
            lemma_split_position(p, rows as int, cols as int);
            let i = p / (cols as int);
            let j = p % (cols as int);
            let ti = turned(i, shift_offset(rows, !inverse), rows);
            let tj = turned(j, shift_offset(cols, !inverse), cols);
            lemma_mod_pos_bound(i + shift_offset(rows, !inverse), rows as int);
            lemma_mod_pos_bound(j + shift_offset(cols, !inverse), cols as int);
            assert(cell(c.data, cols, i, j) == cell(b.data, cols, ti, tj));
            assert(cell(b.data, cols, ti, tj) == cell(
                a.data,
                cols,
                turned(ti, shift_offset(rows, inverse), rows),
                turned(tj, shift_offset(cols, inverse), cols),
            ));
            lemma_turn_back(i, shift_offset(rows, !inverse), shift_offset(rows, inverse), rows);
            lemma_turn_back(j, shift_offset(cols, !inverse), shift_offset(cols, inverse), cols);
        }
        assert(c.data =~= a.data);
    }
}

} // verus!
