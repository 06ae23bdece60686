//! Indexing with one integer array and every other axis whole takes the
//! slices at the listed positions, in order.

use vstd::prelude::*;
use crate::array::ArrayModel;
use crate::indexing::IndexSpec;
use crate::laws::{lemma_plain_specs, lemma_plain_counts};
use crate::selection::{
    AxisSel, ErrKind, index_spec, basic_index_spec, basic_plan, first_mask_from, first_fancy_from,
    first_ellipsis_from, fancy_count, fancy_vec, kept_shape, plan_counts, plan_source, full_axis,
    pos_of_axis, fancy_single_spec, fancy_fill, write_slice, fancy_target, take_along,
};
use crate::shape::{
    shape_size, in_bounds, flat_index, unflatten, lemma_flat_index_bounds, lemma_unflatten,
    lemma_unflatten_flat_index, lemma_flat_index_injective,
};

verus! {

/// `s` with `v` inserted at position `f`.
pub open spec fn with_axis(s: Seq<usize>, f: int, v: usize) -> Seq<usize> {
    Seq::new(
        s.len() + 1,
        |k: int|
            if k < f {
                s[k]
            } else if k == f {
                v
            } else {
                s[k - 1]
            },
    )
}

/// `s` without position `f`.
pub open spec fn without_axis(s: Seq<usize>, f: int) -> Seq<usize> {
    Seq::new((s.len() - 1) as nat, |k: int| if k < f { s[k] } else { s[k + 1] })
}

/// Inserting an axis of length one, addressed by index zero, changes
/// neither the row-major position nor the number of elements.
proof fn lemma_flat_with_unit(s: Seq<usize>, idx: Seq<usize>, f: int)
    requires
        0 <= f <= s.len(),
        idx.len() == s.len(),
    ensures
        flat_index(with_axis(s, f, 1), with_axis(idx, f, 0)) == flat_index(s, idx),
        shape_size(with_axis(s, f, 1)) == shape_size(s),
    decreases s.len(),
{
    let ss = with_axis(s, f, 1);
    let ii = with_axis(idx, f, 0);
    if f == s.len() {
        assert(ss.drop_last() =~= s);
        assert(ii.drop_last() =~= idx);
        assert(ss.last() == 1);
        assert(ii.last() == 0);
        assert(flat_index(s, idx) * 1 + 0 == flat_index(s, idx));
        assert(shape_size(s) * 1 == shape_size(s));
    } else {
        lemma_flat_with_unit(s.drop_last(), idx.drop_last(), f);
        assert(ss.drop_last() =~= with_axis(s.drop_last(), f, 1));
        assert(ii.drop_last() =~= with_axis(idx.drop_last(), f, 0));
        assert(ss.last() == s.last());
        assert(ii.last() == idx.last());
    }
}

/// Positions in a shape with an inserted axis of length one have index zero
/// there and are otherwise the positions in the shape.
proof fn lemma_unflatten_with_unit(s: Seq<usize>, f: int, q: int)
    requires
        0 <= f <= s.len(),
        0 <= q < shape_size(s),
    ensures
        unflatten(with_axis(s, f, 1), q) == with_axis(unflatten(s, q), f, 0),
{
    lemma_unflatten(s, q);
    let u = unflatten(s, q);
    let ss = with_axis(s, f, 1);
    let uu = with_axis(u, f, 0);
    lemma_flat_with_unit(s, u, f);
    assert(in_bounds(ss, uu)) by {
        assert forall|k: int| 0 <= k < ss.len() implies #[trigger] uu[k] < ss[k] by {
            if k < f {
                assert(u[k] < s[k]);
            } else if k > f {
                assert(u[k - 1] < s[k - 1]);
            }
        }
    }
    lemma_unflatten_flat_index(ss, uu);
}

/// The lengths kept by a plan that takes every axis whole but drops `f`.
proof fn lemma_kept_without(shape: Seq<usize>, plan: Seq<AxisSel>, f: int)
    requires
        0 <= f < shape.len(),
        plan.len() == shape.len(),
        !plan[f].keep,
        forall|k: int| 0 <= k < shape.len() && k != f ==> #[trigger] plan[k] == full_axis(shape[k]),
    ensures
        kept_shape(plan) == without_axis(shape, f),
    decreases shape.len(),
{
    if f == shape.len() - 1 {
        crate::laws::lemma_full_plan_shape(shape.drop_last(), plan.drop_last());
        assert(kept_shape(plan) == kept_shape(plan.drop_last()));
        assert(without_axis(shape, f) =~= shape.drop_last());
    } else {
        lemma_kept_without(shape.drop_last(), plan.drop_last(), f);
        assert(plan.last() == full_axis(shape.last()));
        assert(without_axis(shape, f) =~= without_axis(shape.drop_last(), f).push(shape.last()));
    }
}

/// The slice at position `v` along axis `f`: the axis is dropped and every
/// other position is kept.
pub open spec fn axis_slice<T>(a: ArrayModel<T>, f: int, v: usize) -> ArrayModel<T> {
    let rem = without_axis(a.shape, f);
    ArrayModel {
        shape: rem,
        data: Seq::new(shape_size(rem), |q: int| a.at(with_axis(unflatten(rem, q), f, v))),
    }
}

/// Basic indexing with a single index at `f` and whole axes elsewhere gives
/// the slice there.
proof fn lemma_index_slice<T>(a: ArrayModel<T>, specs: Seq<IndexSpec>, f: int, v: usize)
    requires
        a.well_formed(),
        0 <= f < specs.len(),
        specs.len() <= a.shape.len(),
        v < a.shape[f],
        specs[f] == IndexSpec::Index(v),
        forall|k: int| 0 <= k < specs.len() && k != f ==> #[trigger] specs[k] is All,
    ensures
        basic_index_spec(a, specs) == Ok::<ArrayModel<T>, ErrKind>(axis_slice(a, f, v)),
{
    let sh = a.shape;
    lemma_plain_specs(sh, specs, 0);
    lemma_plain_counts(specs, specs.len() as int);
    let plan = basic_plan(sh, specs);
    let e = first_ellipsis_from(specs, 0);
    assert forall|k: int| 0 <= k < sh.len() && k != f implies #[trigger] plan[k] == full_axis(sh[k]) by {
        match pos_of_axis(specs.len() as int, sh.len() as int, e, k) {
            Some(p) => {
                assert(p == k);
                assert(specs[p] is All);
            },
            None => {},
        }
    }
    assert(plan[f] == (AxisSel { start: v, count: 1, step: 1, keep: false })) by {
        assert(pos_of_axis(specs.len() as int, sh.len() as int, e, f) == Some(f));
    }
    lemma_kept_without(sh, plan, f);
    let rem = without_axis(sh, f);
    let counts = plan_counts(plan);
    assert(counts =~= with_axis(rem, f, 1));
    lemma_flat_with_unit(rem, Seq::new(rem.len(), |k: int| 0usize), f);
    let g = crate::selection::gather(a, plan);
    let m = axis_slice(a, f, v);
    assert forall|q: int| 0 <= q < shape_size(rem) implies #[trigger] g.data[q] == m.data[q] by {
        lemma_unflatten_with_unit(rem, f, q);
        let u = unflatten(rem, q);
        lemma_unflatten(rem, q);
        assert(plan_source(plan, with_axis(u, f, 0)) =~= with_axis(u, f, v)) by {
            assert forall|k: int| 0 <= k < sh.len() && k != f implies plan_source(
                plan,
                with_axis(u, f, 0),
            )[k] == with_axis(u, f, v)[k] by {
                assert(plan[k] == full_axis(sh[k]));
            }
        }
    }
    assert(g.data =~= m.data);
}

/// `fancy_target` puts the slice's indices around index `j` at `f`.
proof fn lemma_fancy_target(n: nat, f: int, j: int, sidx: Seq<usize>)
    requires
        0 <= f < n,
        0 <= j,
        sidx.len() == n - 1,
    ensures
        fancy_target(n, f, j, sidx) == with_axis(sidx, f, j as usize),
{
    assert(fancy_target(n, f, j, sidx) =~= with_axis(sidx, f, j as usize));
}

/// A multi-index is its index at `f` put back into the rest.
proof fn lemma_with_without(t: Seq<usize>, f: int, v: usize)
    requires
        0 <= f < t.len(),
    ensures
        with_axis(without_axis(t, f), f, t[f]) == t,
        with_axis(without_axis(t, f), f, v) == t.update(f, v),
{
    assert(with_axis(without_axis(t, f), f, t[f]) =~= t);
    assert(with_axis(without_axis(t, f), f, v) =~= t.update(f, v));
}

/// Writing the first `i` elements of the slice at `v` along `f` as the
/// `j`-th slice of a buffer of shape `rs` writes, at each position whose
/// index at `f` is `j` and whose other indices come before the `i`-th
/// slice element, the element of the array at that position with index
/// `v` at `f`.
proof fn lemma_write_slice_take<T>(
    a: ArrayModel<T>,
    f: int,
    j: int,
    v: usize,
    buf: Seq<T>,
    rs: Seq<usize>,
    i: nat,
)
    requires
        a.well_formed(),
        0 <= f < a.shape.len(),
        v < a.shape[f],
        rs.len() == a.shape.len(),
        0 <= j < rs[f],
        forall|k: int| 0 <= k < rs.len() && k != f ==> #[trigger] rs[k] == a.shape[k],
        buf.len() == shape_size(rs),
        i <= shape_size(without_axis(a.shape, f)),
    ensures
        ({
            let rem = without_axis(a.shape, f);
            write_slice(buf, rs, f, j, axis_slice(a, f, v), i) matches Some(b) && b.len() == buf.len()
                && forall|t: Seq<usize>|
                #[trigger] in_bounds(rs, t) ==> b[flat_index(rs, t)] == if t[f] == j && flat_index(
                    rem,
                    without_axis(t, f),
                ) < i {
                    a.at(t.update(f, v))
                } else {
                    buf[flat_index(rs, t)]
                }
        }),
    decreases i,
{
    let rem = without_axis(a.shape, f);
    let s = axis_slice(a, f, v);
    assert forall|t: Seq<usize>| #[trigger] in_bounds(rs, t) implies in_bounds(rem, without_axis(t, f)) by {
        assert forall|k: int| 0 <= k < rem.len() implies #[trigger] without_axis(t, f)[k] < rem[k] by {
            if k < f {
                assert(t[k] < rs[k]);
            } else {
                assert(t[k + 1] < rs[k + 1]);
            }
        }
    }
    if i > 0 {
        lemma_write_slice_take(a, f, j, v, buf, rs, (i - 1) as nat);
        let b0 = write_slice(buf, rs, f, j, s, (i - 1) as nat).unwrap();
        lemma_unflatten(rem, i - 1);
        let u = unflatten(rem, i - 1);
        lemma_fancy_target(rs.len(), f, j, u);
        let tt = with_axis(u, f, j as usize);
        assert(in_bounds(rs, tt)) by {
            assert forall|k: int| 0 <= k < rs.len() implies #[trigger] tt[k] < rs[k] by {
                if k < f {
                    assert(u[k] < rem[k]);
                } else if k > f {
                    assert(u[k - 1] < rem[k - 1]);
                }
            }
        }
        lemma_flat_index_bounds(rs, tt);
        assert(without_axis(tt, f) =~= u);
        lemma_with_without(tt, f, v);
        assert(s.data[i - 1] == a.at(tt.update(f, v)));
        let b = b0.update(flat_index(rs, tt), s.data[i - 1]);
        assert(write_slice(buf, rs, f, j, s, i) == Some(b));
        assert forall|t: Seq<usize>| #[trigger] in_bounds(rs, t) implies b[flat_index(rs, t)] == if t[f]
            == j && flat_index(rem, without_axis(t, f)) < i {
            a.at(t.update(f, v))
        } else {
            buf[flat_index(rs, t)]
        } by {
            lemma_flat_index_bounds(rs, t);
            if flat_index(rs, t) == flat_index(rs, tt) {
                lemma_flat_index_injective(rs, t, tt);
            } else {
                if t[f] == j && flat_index(rem, without_axis(t, f)) == i - 1 {
                    lemma_unflatten_flat_index(rem, without_axis(t, f));
                    lemma_with_without(t, f, v);
                    assert(t == tt);
                }
            }
        }
    } else {
        assert(write_slice(buf, rs, f, j, s, 0) == Some(buf));
        assert forall|t: Seq<usize>| #[trigger] in_bounds(rs, t) implies !(flat_index(
            rem,
            without_axis(t, f),
        ) < 0) by {
            lemma_flat_index_bounds(rem, without_axis(t, f));
        }
    }
}

/// After the slices of the first `mm` indices are written, the positions
/// whose index at `f` is below `mm` hold the array's element with that
/// index replaced by the listed one; the others still hold `fill`.
proof fn lemma_fancy_fill_take<T>(
    a: ArrayModel<T>,
    specs: Seq<IndexSpec>,
    f: int,
    idx: Seq<usize>,
    fill: T,
    mm: nat,
)
    requires
        a.well_formed(),
        0 <= f < specs.len(),
        specs.len() <= a.shape.len(),
        forall|k: int| 0 <= k < specs.len() && k != f ==> #[trigger] specs[k] is All,
        forall|q: int| 0 <= q < idx.len() ==> #[trigger] idx[q] < a.shape[f],
        idx.len() <= usize::MAX,
        mm <= idx.len(),
    ensures
        ({
            let rs = a.shape.update(f, idx.len() as usize);
            fancy_fill(a, specs, f, idx, rs, fill, mm) matches Ok(b) && b.len() == shape_size(rs)
                && forall|t: Seq<usize>|
                #[trigger] in_bounds(rs, t) ==> b[flat_index(rs, t)] == if t[f] < mm {
                    a.at(t.update(f, idx[t[f] as int]))
                } else {
                    fill
                }
        }),
    decreases mm,
{
    let rs = a.shape.update(f, idx.len() as usize);
    if mm == 0 {
        assert forall|t: Seq<usize>| #[trigger] in_bounds(rs, t) implies Seq::new(
            shape_size(rs),
            |i: int| fill,
        )[flat_index(rs, t)] == fill by {
            lemma_flat_index_bounds(rs, t);
        }
    } else {
        lemma_fancy_fill_take(a, specs, f, idx, fill, (mm - 1) as nat);
        let b0 = fancy_fill(a, specs, f, idx, rs, fill, (mm - 1) as nat).unwrap();
        let v = idx[mm - 1];
        let sj = specs.update(f, IndexSpec::Index(v));
        assert forall|k: int| 0 <= k < sj.len() && k != f implies #[trigger] sj[k] is All by {
            assert(sj[k] == specs[k]);
        }
        lemma_index_slice(a, sj, f, v);
        let s = axis_slice(a, f, v);
        let rem = without_axis(a.shape, f);
        lemma_write_slice_take(a, f, mm - 1, v, b0, rs, shape_size(rem));
        let b = write_slice(b0, rs, f, mm - 1, s, s.data.len()).unwrap();
        assert(fancy_fill(a, specs, f, idx, rs, fill, mm) == Ok::<Seq<T>, ErrKind>(b));
        assert forall|t: Seq<usize>| #[trigger] in_bounds(rs, t) implies b[flat_index(rs, t)] == if t[f]
            < mm {
            a.at(t.update(f, idx[t[f] as int]))
        } else {
            fill
        } by {
            if t[f] == mm - 1 {
                assert(in_bounds(rem, without_axis(t, f)));
                lemma_flat_index_bounds(rem, without_axis(t, f));
            }
        }
    }
}

/// Indexing with one non-empty integer array at position `f` (whose entries
/// lie inside axis `f`) and whole axes elsewhere takes, in order, the
/// slices at the listed positions along axis `f`. (The array's length is
/// that of a `Vec`, so it fits a `usize`.)
pub proof fn law_index_one_integer_array<T>(a: ArrayModel<T>, specs: Seq<IndexSpec>, f: int, fill: T)
    requires
        a.well_formed(),
        0 <= f < specs.len(),
        specs.len() <= a.shape.len(),
        specs[f] is Indices,
        0 < fancy_vec(specs[f]).len() <= usize::MAX,
        forall|q: int| 0 <= q < fancy_vec(specs[f]).len() ==> #[trigger] fancy_vec(specs[f])[q] < a.shape[f],
        forall|k: int| 0 <= k < specs.len() && k != f ==> #[trigger] specs[k] is All,
    ensures
        index_spec(a, specs, fill) == Ok::<ArrayModel<T>, ErrKind>(
            take_along(a, f, fancy_vec(specs[f])),
        ),
{
    let idx = fancy_vec(specs[f]);
    lemma_no_mask(specs, 0);
    lemma_one_fancy(specs, f, specs.len() as int);
    lemma_first_fancy_is(specs, f, 0);
    lemma_fancy_fill_take(a, specs, f, idx, fill, idx.len());
    let rs = a.shape.update(f, idx.len() as usize);
    let b = fancy_fill(a, specs, f, idx, rs, fill, idx.len()).unwrap();
    assert(!(exists|j: int| 0 <= j < idx.len() && #[trigger] idx[j] >= a.shape[f]));
    assert(fancy_single_spec(a, specs, f, idx, fill) == Ok::<ArrayModel<T>, ErrKind>(
        ArrayModel { shape: rs, data: b },
    ));
    let tk = take_along(a, f, idx);
    assert forall|q: int| 0 <= q < b.len() implies #[trigger] b[q] == tk.data[q] by {
        lemma_unflatten(rs, q);
    }
    assert(b =~= tk.data);
}

/// Only whole axes and one integer array: no mask.
proof fn lemma_no_mask(specs: Seq<IndexSpec>, p: int)
    requires
        0 <= p <= specs.len(),
        forall|k: int| 0 <= k < specs.len() ==> !(#[trigger] specs[k] is Mask),
    ensures
        first_mask_from(specs, p) is None,
    decreases specs.len() - p,
{
    if p < specs.len() {
        lemma_no_mask(specs, p + 1);
    }
}

/// Exactly one integer array among the first `n` specifications once `n`
/// passes `f`.
proof fn lemma_one_fancy(specs: Seq<IndexSpec>, f: int, n: int)
    requires
        0 <= f < specs.len(),
        0 <= n <= specs.len(),
        specs[f] is Indices,
        forall|k: int| 0 <= k < specs.len() && k != f ==> #[trigger] specs[k] is All,
    ensures
        fancy_count(specs, n) == if n > f { 1nat } else { 0nat },
    decreases n,
{
    if n > 0 {
        lemma_one_fancy(specs, f, n - 1);
        if n - 1 != f {
            assert(specs[n - 1] is All);
        }
    }
}

/// The first integer array at or after `p <= f` is at `f`.
proof fn lemma_first_fancy_is(specs: Seq<IndexSpec>, f: int, p: int)
    requires
        0 <= p <= f < specs.len(),
        specs[f] is Indices,
        forall|k: int| 0 <= k < specs.len() && k != f ==> #[trigger] specs[k] is All,
    ensures
        first_fancy_from(specs, p) == Some(f),
    decreases f - p,
{
    if p < f {
        assert(specs[p] is All);
        lemma_first_fancy_is(specs, f, p + 1);
    }
}

} // verus!
