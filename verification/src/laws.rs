//! Properties that relate several operations, stated over the models that
//! the operations' contracts use.

use vstd::prelude::*;
use crate::array::ArrayModel;
use crate::shape::{
    shape_size, in_bounds, flat_index, unflatten, lemma_flat_index_bounds, lemma_flat_index_injective,
    lemma_unflatten, lemma_in_bounds_reverse, lemma_reverse_reverse,
};
use crate::indexing::{count_true, select_where, diag_len, diag_index, lemma_select_where_len};
use crate::io::convert::{is_matrix_of_rows, rows_of};
use crate::masked::{MaskedModel, negate};
use crate::indexing::{IndexSpec, IndexMode, true_positions, put_prefix};
use crate::arith::CheckedArith;
use crate::selection::{
    AxisSel, index_spec, basic_index_spec, basic_error_from, basic_plan, first_mask_from,
    first_ellipsis_from, ellipsis_count, fancy_count, kept_shape, plan_counts, plan_source, gather,
    full_axis, pos_of_axis, take_along, mask_vec,
};

verus! {

/// After `set` writes `v` at the multi-index `idx`, `get` at `idx` gives
/// `v`, and `get` at any other multi-index gives what it gave before.
pub proof fn law_set_then_get<T>(a: ArrayModel<T>, idx: Seq<usize>, v: T, other: Seq<usize>)
    requires
        a.well_formed(),
        in_bounds(a.shape, idx),
        in_bounds(a.shape, other),
    ensures
        ({
            let b = ArrayModel { shape: a.shape, data: a.data.update(flat_index(a.shape, idx), v) };
            &&& b.at(idx) == v
            &&& other != idx ==> b.at(other) == a.at(other)
        }),
{
    lemma_flat_index_bounds(a.shape, idx);
    lemma_flat_index_bounds(a.shape, other);
    if other != idx && flat_index(a.shape, other) == flat_index(a.shape, idx) {
        lemma_flat_index_injective(a.shape, other, idx);
    }
}

/// `t` is the transpose of `a`, as `transpose` states it.
pub open spec fn is_transpose<T>(a: ArrayModel<T>, t: ArrayModel<T>) -> bool {
    &&& t.shape == a.shape.reverse()
    &&& t.well_formed()
    &&& forall|idx: Seq<usize>| #[trigger] in_bounds(a.shape, idx) ==> t.at(idx.reverse()) == a.at(idx)
}

/// Transposing twice gives the array back.
pub proof fn law_transpose_twice<T>(a: ArrayModel<T>, t: ArrayModel<T>, u: ArrayModel<T>)
    requires
        a.well_formed(),
        is_transpose(a, t),
        is_transpose(t, u),
    ensures
        u == a,
{
    lemma_reverse_reverse(a.shape);
    assert(u.shape == a.shape);
    assert forall|q: int| 0 <= q < a.data.len() implies #[trigger] u.data[q] == a.data[q] by {
        lemma_unflatten(a.shape, q);
        let idx = unflatten(a.shape, q);
        lemma_in_bounds_reverse(a.shape, idx);
        lemma_reverse_reverse(idx);
        assert(in_bounds(t.shape, idx.reverse()));
        assert(u.at(idx.reverse().reverse()) == t.at(idx.reverse()));
        assert(t.at(idx.reverse()) == a.at(idx));
    }
    assert(u.data =~= a.data);
}

/// Reshaping to another shape and back to the starting one gives the array
/// back (`reshape` keeps the elements in row-major order).
pub proof fn law_reshape_back<T>(a: ArrayModel<T>, b: ArrayModel<T>, c: ArrayModel<T>)
    requires
        a.well_formed(),
        b.data == a.data,
        c.shape == a.shape,
        c.data == b.data,
    ensures
        c == a,
{
}

/// The rows of the matrix built from equally long rows are those rows:
/// `array_to_vec2d` undoes `vec2d_to_array`.
pub proof fn law_rows_roundtrip<T>(v: Seq<Seq<T>>, a: ArrayModel<T>)
    requires
        0 < v.len() <= usize::MAX,
        v[0].len() <= usize::MAX,
        forall|i: int| 0 <= i < v.len() ==> #[trigger] v[i].len() == v[0].len(),
        is_matrix_of_rows(v, a),
    ensures
        rows_of(a) == v,
{
    let r = rows_of(a);
    let cols = v[0].len() as int;
    assert(a.shape[0] as int == v.len());
    assert(a.shape[1] as int == cols);
    assert(r.len() == v.len());
    let c0: nat = v[0].len();
    assert forall|i: int| 0 <= i < v.len() implies #[trigger] r[i] == v[i] by {
        assert(r[i].len() == cols);
        assert forall|j: int| 0 <= j < cols implies #[trigger] r[i][j] == v[i][j] by {
            assert(r[i][j] == a.data[i * c0 + j]);
            assert(a.data[i * c0 + j] == v[i][j]);
        }
        assert(r[i] =~= v[i]);
    }
    assert(r =~= v);
}

/// The number of true entries of a negated mask is the number of false
/// entries.
pub proof fn lemma_count_negate(m: Seq<bool>)
    ensures
        count_true(negate(m)) == m.len() - count_true(m),
    decreases m.len(),
{
    if m.len() > 0 {
        assert(negate(m).drop_last() =~= negate(m.drop_last()));
        lemma_count_negate(m.drop_last());
        crate::indexing::lemma_count_true_le(m.drop_last());
    }
}

/// `compressed` holds as many elements as `count_valid` counts: those not
/// masked.
pub proof fn law_compressed_len<T>(m: MaskedModel<T>)
    requires
        m.well_formed(),
    ensures
        select_where(m.data.data, negate(m.mask.data)).len() == m.data.data.len() - count_true(
            m.mask.data,
        ),
{
    lemma_select_where_len(m.data.data, negate(m.mask.data));
    lemma_count_negate(m.mask.data);
}

/// Elements where the mask is false are picked alike from two buffers that
/// agree there.
proof fn lemma_select_where_agree<T>(x: Seq<T>, y: Seq<T>, keep: Seq<bool>)
    requires
        x.len() == keep.len(),
        y.len() == keep.len(),
        forall|i: int| 0 <= i < keep.len() && keep[i] ==> #[trigger] x[i] == y[i],
    ensures
        select_where(x, keep) == select_where(y, keep),
    decreases keep.len(),
{
    if keep.len() > 0 {
        let k = keep.drop_last();
        lemma_select_where_agree(x.take(k.len() as int), y.take(k.len() as int), k);
        lemma_select_where_prefix(x, k);
        lemma_select_where_prefix(y, k);
    }
}

/// Selecting by a prefix of the mask looks only at the matching prefix.
proof fn lemma_select_where_prefix<T>(x: Seq<T>, k: Seq<bool>)
    requires
        k.len() <= x.len(),
    ensures
        select_where(x, k) == select_where(x.take(k.len() as int), k),
    decreases k.len(),
{
    if k.len() > 0 {
        lemma_select_where_prefix(x, k.drop_last());
        lemma_select_where_prefix(x.take(k.len() as int), k.drop_last());
        assert(x.take(k.len() as int).take(k.len() - 1) =~= x.take(k.len() - 1));
    }
}

/// Filling the masked elements and then keeping the unmasked ones gives
/// what `compressed` gives: filling changes only masked elements.
pub proof fn law_filled_then_compressed<T>(m: MaskedModel<T>, f: ArrayModel<T>, fill: T)
    requires
        m.well_formed(),
        f.data.len() == m.data.data.len(),
        forall|i: int|
            0 <= i < m.data.data.len() ==> #[trigger] f.data[i] == if m.mask.data[i] {
                fill
            } else {
                m.data.data[i]
            },
    ensures
        select_where(f.data, negate(m.mask.data)) == select_where(m.data.data, negate(m.mask.data)),
{
    let keep = negate(m.mask.data);
    assert forall|i: int| 0 <= i < keep.len() && keep[i] implies #[trigger] f.data[i] == m.data.data[i] by {
        assert(!m.mask.data[i]);
    }
    lemma_select_where_agree(f.data, m.data.data, keep);
}

/// The diagonal with offset `off` of a `d1` by `d2` plane lists exactly the
/// in-bounds positions `(r, c)` of the plane with `c - r == off`: each of
/// its multi-indices is such a position, and each such position is listed,
/// at index `r` when `off >= 0` and at index `c` otherwise. So its length
/// is `min(d2 - off, d1)` for `off >= 0` and `min(d1 + off, d2)` otherwise.
pub proof fn law_diagonal_lists_plane(nd: nat, ax1: int, ax2: int, d1: int, d2: int, off: int)
    requires
        0 <= ax1 < nd,
        0 <= ax2 < nd,
        ax1 != ax2,
        0 <= d1 <= usize::MAX,
        0 <= d2 <= usize::MAX,
        off >= 0 ==> off <= d2,
        off < 0 ==> -off <= d1,
    ensures
        diag_len(d1, d2, off) >= 0,
        forall|i: int|
            0 <= i < diag_len(d1, d2, off) ==> {
                let ix = #[trigger] diag_index(nd, ax1, ax2, off, i);
                &&& 0 <= ix[ax1] < d1
                &&& 0 <= ix[ax2] < d2
                &&& ix[ax2] - ix[ax1] == off
            },
        off >= 0 ==> forall|r: int|
            0 <= r < d1 && 0 <= r + off < d2 ==> {
                &&& 0 <= r < diag_len(d1, d2, off)
                &&& #[trigger] diag_index(nd, ax1, ax2, off, r)[ax1] == r
                &&& diag_index(nd, ax1, ax2, off, r)[ax2] == r + off
            },
        off < 0 ==> forall|c: int|
            0 <= c < d2 && 0 <= c - off < d1 ==> {
                &&& 0 <= c < diag_len(d1, d2, off)
                &&& #[trigger] diag_index(nd, ax1, ax2, off, c)[ax1] == c - off
                &&& diag_index(nd, ax1, ax2, off, c)[ax2] == c
            },
{
    assert forall|i: int| 0 <= i < diag_len(d1, d2, off) implies {
        let ix = #[trigger] diag_index(nd, ax1, ax2, off, i);
        &&& 0 <= ix[ax1] < d1
        &&& 0 <= ix[ax2] < d2
        &&& ix[ax2] - ix[ax1] == off
    } by {
        let ix = diag_index(nd, ax1, ax2, off, i);
        assert(ix[ax1] == (if off >= 0 { i } else { i - off }) as usize);
        assert(ix[ax2] == (if off >= 0 { i + off } else { i }) as usize);
    }
}

/// `diag` is `diagonal` with offset zero in the plane of the first two
/// axes: same length, same multi-indices.
pub proof fn law_diag_is_diagonal(shape: Seq<usize>, i: int)
    requires
        shape.len() == 2,
    ensures
        diag_len(shape[0] as int, shape[1] as int, 0) == if shape[0] <= shape[1] {
            shape[0] as int
        } else {
            shape[1] as int
        },
        diag_index(2, 0, 1, 0, i) == seq![i as usize, i as usize],
{
    assert(diag_index(2, 0, 1, 0, i) =~= seq![i as usize, i as usize]);
}

/// Specifications that are all single indices or all whole axes contain
/// no mask, integer array or ellipsis, and pass their checks when the
/// single indices lie inside their axes.
pub(crate) proof fn lemma_plain_specs(shape: Seq<usize>, specs: Seq<IndexSpec>, p: int)
    requires
        0 <= p <= specs.len(),
        specs.len() <= shape.len(),
        forall|k: int|
            0 <= k < specs.len() ==> (#[trigger] specs[k] is All) || (specs[k] matches IndexSpec::Index(
                i,
            ) && i < shape[k]),
    ensures
        first_mask_from(specs, p) is None,
        first_ellipsis_from(specs, p) is None,
        basic_error_from(shape, specs, p) is None,
    decreases specs.len() - p,
{
    if p < specs.len() {
        lemma_plain_specs(shape, specs, p + 1);
        lemma_plain_first_ellipsis(specs, 0);
    }
}

pub(crate) proof fn lemma_plain_first_ellipsis(specs: Seq<IndexSpec>, p: int)
    requires
        0 <= p <= specs.len(),
        forall|k: int| 0 <= k < specs.len() ==> !(#[trigger] specs[k] is Ellipsis),
    ensures
        first_ellipsis_from(specs, p) is None,
    decreases specs.len() - p,
{
    if p < specs.len() {
        lemma_plain_first_ellipsis(specs, p + 1);
    }
}

/// Counting integer arrays and ellipses among specifications that hold
/// none finds none.
pub(crate) proof fn lemma_plain_counts(specs: Seq<IndexSpec>, n: int)
    requires
        0 <= n <= specs.len(),
        forall|k: int|
            0 <= k < specs.len() ==> !(#[trigger] specs[k] is Indices) && !(specs[k] is Ellipsis),
    ensures
        fancy_count(specs, n) == 0,
        ellipsis_count(specs, n) == 0,
    decreases n,
{
    if n > 0 {
        lemma_plain_counts(specs, n - 1);
    }
}

/// A plan that keeps every axis whole keeps the shape.
pub(crate) proof fn lemma_full_plan_shape(shape: Seq<usize>, plan: Seq<AxisSel>)
    requires
        plan.len() == shape.len(),
        forall|k: int| 0 <= k < shape.len() ==> #[trigger] plan[k] == full_axis(shape[k]),
    ensures
        kept_shape(plan) == shape,
        plan_counts(plan) == shape,
    decreases shape.len(),
{
    if shape.len() > 0 {
        lemma_full_plan_shape(shape.drop_last(), plan.drop_last());
        assert(plan_counts(plan) =~= shape);
        assert(kept_shape(plan) =~= shape);
    }
}

/// Taking every addressed axis whole (and the others by default) gives the
/// array back.
pub proof fn law_index_whole_axes<T>(a: ArrayModel<T>, specs: Seq<IndexSpec>, fill: T)
    requires
        a.well_formed(),
        0 < specs.len() <= a.shape.len(),
        forall|k: int| 0 <= k < specs.len() ==> #[trigger] specs[k] is All,
    ensures
        index_spec(a, specs, fill) == Ok::<ArrayModel<T>, crate::selection::ErrKind>(a),
{
    lemma_plain_specs(a.shape, specs, 0);
    lemma_plain_counts(specs, specs.len() as int);
    let plan = basic_plan(a.shape, specs);
    assert forall|k: int| 0 <= k < a.shape.len() implies #[trigger] plan[k] == full_axis(a.shape[k]) by {
        match pos_of_axis(specs.len() as int, a.shape.len() as int, first_ellipsis_from(specs, 0), k) {
            Some(p) => {
                assert(p == k);
                assert(specs[p] is All);
            },
            None => {},
        }
    }
    lemma_full_plan_shape(a.shape, plan);
    let g = gather(a, plan);
    assert forall|q: int| 0 <= q < a.data.len() implies #[trigger] g.data[q] == a.data[q] by {
        lemma_unflatten(a.shape, q);
        let o = unflatten(a.shape, q);
        assert forall|k: int| 0 <= k < o.len() implies plan_source(plan, o)[k] == o[k] by {
            assert(plan[k] == full_axis(a.shape[k]));
        }
        assert(plan_source(plan, o) =~= o);
    }
    assert(g.data =~= a.data);
}

/// A plan of single indices drops every axis.
proof fn lemma_index_plan_shape(idx: Seq<usize>, plan: Seq<AxisSel>)
    requires
        plan.len() == idx.len(),
        forall|k: int|
            0 <= k < idx.len() ==> #[trigger] plan[k] == (AxisSel {
                start: idx[k],
                count: 1,
                step: 1,
                keep: false,
            }),
    ensures
        kept_shape(plan) == Seq::<usize>::empty(),
        plan_counts(plan) == Seq::new(idx.len(), |k: int| 1usize),
    decreases idx.len(),
{
    if idx.len() > 0 {
        lemma_index_plan_shape(idx.drop_last(), plan.drop_last());
        assert(plan_counts(plan) =~= Seq::new(idx.len(), |k: int| 1usize));
    }
}

/// Indexing every axis by a single index inside it gives the
/// zero-dimensional array of the element that `get` gives there.
pub proof fn law_index_single_indices<T>(a: ArrayModel<T>, idx: Seq<usize>, specs: Seq<IndexSpec>, fill: T)
    requires
        a.well_formed(),
        0 < specs.len(),
        in_bounds(a.shape, idx),
        specs.len() == a.shape.len(),
        forall|k: int| 0 <= k < specs.len() ==> #[trigger] specs[k] == IndexSpec::Index(idx[k]),
    ensures
        index_spec(a, specs, fill) == Ok::<ArrayModel<T>, crate::selection::ErrKind>(
            ArrayModel { shape: seq![], data: seq![a.at(idx)] },
        ),
{
    lemma_plain_specs(a.shape, specs, 0);
    lemma_plain_counts(specs, specs.len() as int);
    let plan = basic_plan(a.shape, specs);
    assert forall|k: int| 0 <= k < idx.len() implies #[trigger] plan[k] == (AxisSel {
        start: idx[k],
        count: 1,
        step: 1,
        keep: false,
    }) by {
        assert(pos_of_axis(specs.len() as int, a.shape.len() as int, first_ellipsis_from(specs, 0), k)
            == Some(k));
    }
    lemma_index_plan_shape(idx, plan);
    let counts = plan_counts(plan);
    crate::indexing::lemma_ones_size(idx.len());
    let g = gather(a, plan);
    lemma_unflatten(counts, 0);
    let o = unflatten(counts, 0);
    assert(plan_source(plan, o) =~= idx) by {
        assert forall|k: int| 0 <= k < idx.len() implies plan_source(plan, o)[k] == idx[k] by {
            assert(o[k] < counts[k]);
        }
    }
    assert(g.data =~= seq![a.at(idx)]);
}

/// The true positions of a mask of true entries are all positions.
proof fn lemma_true_positions_all(m: Seq<bool>)
    requires
        forall|i: int| 0 <= i < m.len() ==> #[trigger] m[i],
        m.len() <= usize::MAX + 1,
    ensures
        true_positions(m) == Seq::new(m.len(), |i: int| i as usize),
    decreases m.len(),
{
    if m.len() > 0 {
        lemma_true_positions_all(m.drop_last());
        assert(m.last());
        assert(true_positions(m) =~= Seq::new(m.len(), |i: int| i as usize));
    }
}

/// A mask whose entries are all true keeps every slice: indexing by it
/// gives the array back.
pub proof fn law_index_full_mask<T>(a: ArrayModel<T>, specs: Seq<IndexSpec>, fill: T)
    requires
        a.well_formed(),
        a.shape.len() > 0,
        specs.len() == 1,
        specs[0] is Mask,
        mask_vec(specs[0]).len() == a.shape[0],
        a.shape[0] > 0,
        forall|i: int| 0 <= i < a.shape[0] ==> #[trigger] mask_vec(specs[0])[i],
    ensures
        index_spec(a, specs, fill) == Ok::<ArrayModel<T>, crate::selection::ErrKind>(a),
{
    let m = mask_vec(specs[0]);
    let n = a.shape[0];
    lemma_true_positions_all(m);
    crate::indexing::lemma_true_positions_len(m);
    assert(first_mask_from(specs, 0) == Some(0int));
    let tp = true_positions(m);
    let t = take_along(a, 0, tp);
    assert(a.shape.update(0, n) =~= a.shape);
    assert forall|q: int| 0 <= q < a.data.len() implies #[trigger] t.data[q] == a.data[q] by {
        lemma_unflatten(a.shape, q);
        let o = unflatten(a.shape, q);
        assert(o[0] < n);
        assert(tp[o[0] as int] == o[0]);
        assert(o.update(0, tp[o[0] as int]) =~= o);
    }
    assert(t.data =~= a.data);
}

/// After `put` in `raise` mode with distinct indices inside the array,
/// the element at each index is the value put there, and every element at
/// a position no index names is unchanged.
pub proof fn law_put_then_read<T: CheckedArith>(data: Seq<T>, idx: Seq<isize>, vals: Seq<T>, k: int)
    requires
        0 <= k <= idx.len(),
        vals.len() >= idx.len(),
        forall|i: int| 0 <= i < idx.len() ==> 0 <= #[trigger] idx[i] < data.len(),
        forall|i: int, j: int| 0 <= i < j < idx.len() ==> idx[i] != idx[j],
    ensures
        ({
            let r = put_prefix(data, idx, vals, IndexMode::Raise, k);
            &&& r.len() == data.len()
            &&& forall|i: int| 0 <= i < k ==> r[#[trigger] idx[i] as int] == vals[i]
            &&& forall|p: int|
                0 <= p < data.len() && (forall|i: int| 0 <= i < k ==> #[trigger] idx[i] != p) ==> r[p]
                    == data[p]
        }),
    decreases k,
{
    if k > 0 {
        law_put_then_read(data, idx, vals, k - 1);
        let prev = put_prefix(data, idx, vals, IndexMode::Raise, k - 1);
        let r = put_prefix(data, idx, vals, IndexMode::Raise, k);
        assert(r == prev.update(idx[k - 1] as int, vals[k - 1]));
        assert forall|i: int| 0 <= i < k implies r[#[trigger] idx[i] as int] == vals[i] by {
            if i < k - 1 {
                assert(idx[i] != idx[k - 1]);
            }
        }
        assert forall|p: int|
            0 <= p < data.len() && (forall|i: int| 0 <= i < k ==> #[trigger] idx[i] != p) implies r[p]
                == data[p] by {
            assert(idx[k - 1] != p);
        }
    }
}

/// Slicing a one-dimensional array from `start` below `end` by `step`
/// picks the elements at `start`, `start + step`, ... below `end`.
pub proof fn law_slice_1d<T>(a: ArrayModel<T>, specs: Seq<IndexSpec>, start: usize, end: usize, step: usize, fill: T)
    requires
        a.well_formed(),
        a.shape.len() == 1,
        specs.len() == 1,
        specs[0] == IndexSpec::Slice(start, Some(end), Some(step)),
        start < a.shape[0],
        end <= a.shape[0],
        step > 0,
    ensures
        ({
            let count = if end > start { (end - start - 1) / (step as int) + 1 } else { 0 };
            &&& index_spec(a, specs, fill) matches Ok(r)
            &&& r.shape == seq![count as usize]
            &&& r.data.len() == count
            &&& forall|k: int| 0 <= k < count ==> #[trigger] r.data[k] == a.data[start + k * step]
        }),
{
    let count: int = if end > start { (end - start - 1) / (step as int) + 1 } else { 0 };
    assert(first_mask_from(specs, 0) is None) by {
        assert(first_mask_from(specs, 1) is None);
    }
    assert(fancy_count(specs, 0) == 0);
    assert(fancy_count(specs, 1) == 0);
    assert(first_ellipsis_from(specs, 0) is None) by {
        assert(first_ellipsis_from(specs, 1) is None);
    }
    assert(basic_error_from(a.shape, specs, 0) is None) by {
        assert(basic_error_from(a.shape, specs, 1) is None);
    }
    assert(ellipsis_count(specs, 0) == 0);
    assert(ellipsis_count(specs, 1) == 0);
    let plan = basic_plan(a.shape, specs);
    assert(pos_of_axis(1, 1, first_ellipsis_from(specs, 0), 0) == Some(0int));
    if end > start {
        assert((end - start - 1) / (step as int) + 1 <= end - start) by (nonlinear_arith)
            requires
                end > start,
                step >= 1,
        ;
    }
    assert(0 <= count <= usize::MAX);
    assert(plan[0].count == count);
    assert(plan[0].keep);
    assert(plan.drop_last() =~= Seq::<AxisSel>::empty());
    assert(kept_shape(Seq::<AxisSel>::empty()) == Seq::<usize>::empty());
    assert(plan.last() == plan[0]);
    assert(kept_shape(plan) == kept_shape(plan.drop_last()).push(plan.last().count));
    assert(kept_shape(plan) =~= seq![count as usize]);
    assert(plan_counts(plan) =~= seq![count as usize]);
    let g = gather(a, plan);
    crate::shape::lemma_flat_index_1d(count as usize, 0);
    assert(a.shape =~= seq![a.shape[0]]);
    assert forall|k: int| 0 <= k < count implies #[trigger] g.data[k] == a.data[start + k * step] by {
        assert(k * step <= (count - 1) * step) by (nonlinear_arith)
            requires
                0 <= k < count,
                step >= 1,
        ;
        assert((count - 1) * step <= end - start - 1) by (nonlinear_arith)
            requires
                count - 1 == (end - start - 1) / (step as int),
                end > start,
                step >= 1,
        ;
        let x = start + k * step;
        crate::shape::lemma_flat_index_1d(count as usize, k as usize);
        assert(in_bounds(seq![count as usize], seq![k as usize]));
        crate::shape::lemma_unflatten_flat_index(seq![count as usize], seq![k as usize]);
        assert(plan_source(plan, seq![k as usize]) =~= seq![x as usize]);
        crate::shape::lemma_flat_index_1d(a.shape[0], x as usize);
    }
}

} // verus!
