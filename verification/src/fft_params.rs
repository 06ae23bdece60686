//! NumPy-style parameters of the Fourier transforms: axis lists, output
//! sizes, normalization modes, and transform lengths.

use vstd::prelude::*;
use vstd::string::StrSliceExecFns;
use crate::error::{NumRs2Error, Result, message};

verus! {

/// The axis that `axis` names in an array of `ndim` dimensions, counting a
/// negative axis from the end, when it lies inside the array.
pub open spec fn normalized_axis(axis: isize, ndim: usize) -> Option<usize> {
    let a = if axis < 0 {
        axis + ndim
    } else {
        axis as int
    };
    if 0 <= a < ndim {
        Some(a as usize)
    } else {
        None
    }
}

/// Every axis of the list lies inside an array of `ndim` dimensions.
pub open spec fn axes_in_range(axes: Seq<isize>, ndim: usize) -> bool {
    forall|i: int| 0 <= i < axes.len() ==> normalized_axis(#[trigger] axes[i], ndim) is Some
}

/// Normalizes a NumPy-style axis list against `ndim` dimensions: each
/// negative axis `a` becomes `a + ndim`, the order is kept, and no list
/// stays no list.
///
/// Fails with `InvalidOperation` when an axis lies outside the array.
pub fn normalize_axes(axes: Option<&[isize]>, ndim: usize) -> (r: Result<Option<Vec<usize>>>)
    requires
        ndim <= isize::MAX,
    ensures
        match axes {
            None => r matches Ok(None),
            Some(ax) => if axes_in_range(ax@, ndim) {
                r matches Ok(Some(v)) && v@.len() == ax@.len() && forall|i: int|
                    0 <= i < ax@.len() ==> Some(#[trigger] v@[i]) == normalized_axis(ax@[i], ndim)
            } else {
                r matches Err(e) && e is InvalidOperation
            },
        },
{
    let list = match axes {
        None => {
            return Ok(None);
        },
        Some(ax) => ax,
    };
    let n = ndim as isize;
    let mut out: Vec<usize> = Vec::with_capacity(list.len());
    let mut i: usize = 0;
    while i < list.len()
        invariant
            i <= list@.len(),
            axes == Some(list),
            n == ndim,
            ndim <= isize::MAX,
            out@.len() == i,
            forall|j: int| 0 <= j < i ==> Some(#[trigger] out@[j]) == normalized_axis(list@[j], ndim),
            forall|j: int| 0 <= j < i ==> normalized_axis(#[trigger] list@[j], ndim) is Some,
        decreases list@.len() - i,
    {
        let axis = list[i];
        let a: isize = if axis < 0 {
            axis + n
        } else {
            axis
        };
        if a < 0 || a >= n {
            assert(normalized_axis(list@[i as int], ndim) is None);
            assert(!axes_in_range(list@, ndim));
            return Err(NumRs2Error::InvalidOperation(message("axis is out of bounds for the array")));
        }
        out.push(a as usize);
        i = i + 1;
    }
    Ok(Some(out))
}

/// The shape after writing `sizes[i]` on axis `axes[i]` of `shape`, for
/// the first `k` pairs in order (a later pair wins on a repeated axis).
pub open spec fn sizes_on_axes(shape: Seq<usize>, axes: Seq<usize>, sizes: Seq<usize>, k: nat) -> Seq<
    usize,
>
    decreases k,
{
    if k == 0 {
        shape
    } else {
        sizes_on_axes(shape, axes, sizes, (k - 1) as nat).update(axes[k - 1] as int, sizes[k - 1])
    }
}

/// Updating entries keeps the length.
proof fn lemma_sizes_on_axes_len(shape: Seq<usize>, axes: Seq<usize>, sizes: Seq<usize>, k: nat)
    requires
        k <= axes.len(),
        forall|i: int| 0 <= i < axes.len() ==> #[trigger] axes[i] < shape.len(),
    ensures
        sizes_on_axes(shape, axes, sizes, k).len() == shape.len(),
    decreases k,
{
    if k > 0 {
        lemma_sizes_on_axes_len(shape, axes, sizes, (k - 1) as nat);
    }
}

/// Expands NumPy-style output sizes for the transformed axes into the full
/// output shape: no sizes give no shape; with an axis list, each size goes
/// to its axis in order and the other axes keep the input's length;
/// without one, the sizes are the whole shape.
///
/// Fails with `InvalidOperation` when there are not as many sizes as axes,
/// or, without an axis list, as the input has dimensions.
pub fn expand_shape(input_shape: &[usize], s: Option<&[usize]>, axes: &Option<Vec<usize>>) -> (r:
    Result<Option<Vec<usize>>>)
    requires
        axes matches Some(ax) ==> forall|i: int|
            0 <= i < ax@.len() ==> #[trigger] ax@[i] < input_shape@.len(),
    ensures
        match s {
            None => r matches Ok(None),
            Some(sizes) => match axes {
                Some(ax) => if sizes@.len() == ax@.len() {
                    r matches Ok(Some(v)) && v@ == sizes_on_axes(
                        input_shape@,
                        ax@,
                        sizes@,
                        ax@.len(),
                    )
                } else {
                    r matches Err(e) && e is InvalidOperation
                },
                None => if sizes@.len() == input_shape@.len() {
                    r matches Ok(Some(v)) && v@ == sizes@
                } else {
                    r matches Err(e) && e is InvalidOperation
                },
            },
        },
{
    let sizes = match s {
        None => {
            return Ok(None);
        },
        Some(sz) => sz,
    };
    match axes {
        Some(ax) => {
            if sizes.len() != ax.len() {
                return Err(
                    NumRs2Error::InvalidOperation(message("s must have the same length as axes")),
                );
            }
            let mut full = crate::array::copy_slice(input_shape);
            let mut k: usize = 0;
            while k < ax.len()
                invariant
                    k <= ax@.len(),
                    sizes@.len() == ax@.len(),
                    forall|i: int| 0 <= i < ax@.len() ==> #[trigger] ax@[i] < input_shape@.len(),
                    full@ == sizes_on_axes(input_shape@, ax@, sizes@, k as nat),
                decreases ax@.len() - k,
            {
                proof {
                    lemma_sizes_on_axes_len(input_shape@, ax@, sizes@, k as nat);
                }
                let axis = ax[k];
                full.set(axis, sizes[k]);
                k = k + 1;
            }
            Ok(Some(full))
        },
        None => {
            if sizes.len() != input_shape.len() {
                return Err(
                    NumRs2Error::InvalidOperation(
                        message(
                            "s must have the same length as the input's number of dimensions",
                        ),
                    ),
                );
            }
            Ok(Some(crate::array::copy_slice(sizes)))
        },
    }
}

/// `backward`
pub open spec fn norm_backward() -> Seq<char> {
    seq!['b', 'a', 'c', 'k', 'w', 'a', 'r', 'd']
}

/// `ortho`
pub open spec fn norm_ortho() -> Seq<char> {
    seq!['o', 'r', 't', 'h', 'o']
}

/// `forward`
pub open spec fn norm_forward() -> Seq<char> {
    seq!['f', 'o', 'r', 'w', 'a', 'r', 'd']
}

/// A normalization mode NumPy accepts: none, `backward`, `ortho` or
/// `forward`.
pub open spec fn valid_norm(norm: Option<Seq<char>>) -> bool {
    match norm {
        None => true,
        Some(t) => t == norm_backward() || t == norm_ortho() || t == norm_forward(),
    }
}

/// The two texts are equal.
pub(crate) fn same_text(a: &str, b: &str) -> (r: bool)
    ensures
        r == (a@ == b@),
{
    let n = a.unicode_len();
    if n != b.unicode_len() {
        return false;
    }
    let mut i: usize = 0;
    while i < n
        invariant
            i <= n,
            n == a@.len(),
            n == b@.len(),
            forall|j: int| 0 <= j < i ==> a@[j] == b@[j],
        decreases n - i,
    {
        if a.get_char(i) != b.get_char(i) {
            return false;
        }
        i = i + 1;
    }
    assert(a@ =~= b@);
    true
}

/// Checks a NumPy-style normalization mode.
///
/// Fails with `InvalidOperation` unless the mode is absent or one of
/// `backward`, `ortho` and `forward`.
pub fn validate_norm(norm: Option<&str>) -> (r: Result<()>)
    ensures
        valid_norm(
            match norm {
                None => None,
                Some(t) => Some(t@),
            },
        ) <==> r is Ok,
        r matches Err(e) ==> e is InvalidOperation,
{
    let t = match norm {
        None => {
            return Ok(());
        },
        Some(t) => t,
    };
    let backward = "backward";
    let ortho = "ortho";
    let forward = "forward";
    proof {
        reveal_strlit("backward");
        reveal_strlit("ortho");
        reveal_strlit("forward");
        assert(backward@ =~= norm_backward());
        assert(ortho@ =~= norm_ortho());
        assert(forward@ =~= norm_forward());
    }
    if same_text(t, backward) || same_text(t, ortho) || same_text(t, forward) {
        Ok(())
    } else {
        Err(
            NumRs2Error::InvalidOperation(
                message("invalid norm value: expected backward, forward, or ortho"),
            ),
        )
    }
}

/// Checks the axis of a transform over a flat, one-dimensional slice:
/// none, `0` or `-1`.
///
/// Fails with `InvalidOperation` for any other axis.
pub fn validate_flat_axis(axis: Option<isize>) -> (r: Result<()>)
    ensures
        (axis is None || axis == Some(0isize) || axis == Some(-1isize)) <==> r is Ok,
        r matches Err(e) ==> e is InvalidOperation,
{
    match axis {
        None => Ok(()),
        Some(a) => if a == 0 || a == -1 {
            Ok(())
        } else {
            Err(
                NumRs2Error::InvalidOperation(
                    message("axis is out of bounds for a 1-D transform (expected 0 or -1)"),
                ),
            )
        },
    }
}

/// `n` is a power of two: 1, or twice a power of two.
pub open spec fn power_of_two(n: nat) -> bool
    decreases n,
{
    if n == 0 {
        false
    } else if n == 1 {
        true
    } else {
        n % 2 == 0 && power_of_two(n / 2)
    }
}

/// Whether `n` is a power of two (the lengths the radix-2 transform takes).
pub fn is_power_of_two(n: usize) -> (r: bool)
    ensures
        r == power_of_two(n as nat),
{
    let mut m = n;
    while m > 1 && m % 2 == 0
        invariant
            power_of_two(m as nat) == power_of_two(n as nat),
        decreases m,
    {
        m = m / 2;
    }
    m == 1
}

} // verus!
