//! Indexing an array with one `IndexSpec` per axis: integers and slices
//! (basic indexing), integer arrays (fancy indexing) and boolean masks.

use vstd::prelude::*;
use crate::array::{Array, ArrayModel, copy_slice, flat_index_exec, unflatten_exec, checked_shape_size};
use crate::error::{NumRs2Error, Result, message};
use crate::indexing::{IndexSpec, true_positions, true_positions_exec, count_true, is_take_along_axis};
use crate::shape::{
    shape_size, in_bounds, flat_index, unflatten, lemma_flat_index_bounds, lemma_unflatten,
    lemma_size_update_le,
};

verus! {

/// The kinds of error an indexing operation reports.
#[derive(Clone, Copy, Debug, PartialEq, Eq, Structural)]
pub enum ErrKind {
    DimensionMismatch,
    ShapeMismatch,
    IndexOutOfBounds,
    InvalidOperation,
}

/// The kind of an error value.
pub open spec fn kind_of(e: NumRs2Error) -> Option<ErrKind> {
    match e {
        NumRs2Error::DimensionMismatch(_) => Some(ErrKind::DimensionMismatch),
        NumRs2Error::ShapeMismatch { .. } => Some(ErrKind::ShapeMismatch),
        NumRs2Error::IndexOutOfBounds(_) => Some(ErrKind::IndexOutOfBounds),
        NumRs2Error::InvalidOperation(_) => Some(ErrKind::InvalidOperation),
        _ => None,
    }
}

/// What basic indexing keeps of one axis: the positions `start`,
/// `start + step`, ... (`count` of them); an axis addressed by a single
/// index is dropped from the result (`keep` is false).
#[derive(Clone, Copy, Debug)]
pub struct AxisSel {
    pub start: usize,
    pub count: usize,
    pub step: usize,
    pub keep: bool,
}

/// The whole of an axis of length `n`.
pub open spec fn full_axis(n: usize) -> AxisSel {
    AxisSel { start: 0, count: n, step: 1, keep: true }
}

/// The selection that a specification makes of an axis of length `n`: a
/// single index drops the axis; a slice keeps the positions from `start`
/// on, by `step` (default 1), below `end` (default `n`); anything else
/// keeps the whole axis.
pub open spec fn sel_of_spec(spec: IndexSpec, n: usize) -> AxisSel {
    match spec {
        IndexSpec::Index(i) => AxisSel { start: i, count: 1, step: 1, keep: false },
        IndexSpec::Slice(st, end, step) => {
            let e = match end {
                Some(e) => e,
                None => n,
            };
            let s = match step {
                Some(s) => s,
                None => 1,
            };
            AxisSel {
                start: st,
                count: if e > st && s > 0 {
                    ((e - st - 1) / (s as int) + 1) as usize
                } else {
                    0
                },
                step: s,
                keep: true,
            }
        },
        _ => full_axis(n),
    }
}

/// The error, if any, of a specification addressing an axis of length `n`:
/// an index not below `n`, a slice whose start is not below `n` or whose end
/// exceeds `n`, or a zero step.
pub open spec fn spec_error(spec: IndexSpec, n: usize) -> Option<ErrKind> {
    match spec {
        IndexSpec::Index(i) => if i >= n {
            Some(ErrKind::IndexOutOfBounds)
        } else {
            None
        },
        IndexSpec::Slice(st, end, step) => {
            let e = match end {
                Some(e) => e,
                None => n,
            };
            if st >= n || e > n {
                Some(ErrKind::IndexOutOfBounds)
            } else if step == Some(0usize) {
                Some(ErrKind::InvalidOperation)
            } else {
                None
            }
        },
        _ => None,
    }
}

/// Position of the first ellipsis at or after `i`.
pub open spec fn first_ellipsis_from(specs: Seq<IndexSpec>, i: int) -> Option<int>
    decreases specs.len() - i,
{
    if i < 0 || i >= specs.len() {
        None
    } else if specs[i] is Ellipsis {
        Some(i)
    } else {
        first_ellipsis_from(specs, i + 1)
    }
}

/// Number of ellipses among the first `n` specifications.
pub open spec fn ellipsis_count(specs: Seq<IndexSpec>, n: int) -> nat
    decreases n,
{
    if n <= 0 {
        0
    } else {
        ellipsis_count(specs, n - 1) + if specs[n - 1] is Ellipsis { 1nat } else { 0nat }
    }
}

/// The axis that the specification at position `p` addresses: an ellipsis
/// at position `e` stands for as many full axes as the specifications
/// leave unaddressed, so later specifications address the trailing axes.
pub open spec fn axis_of_pos(len: int, ndim: int, e: Option<int>, p: int) -> int {
    match e {
        None => p,
        Some(e) => if p < e {
            p
        } else {
            p - 1 + (ndim - (len - 1))
        },
    }
}

/// The position of the specification that addresses axis `k`, or `None`
/// when the axis is taken whole (past the specifications, or covered by
/// the ellipsis).
pub open spec fn pos_of_axis(len: int, ndim: int, e: Option<int>, k: int) -> Option<int> {
    match e {
        None => if k < len {
            Some(k)
        } else {
            None
        },
        Some(e) => {
            let add = ndim - (len - 1);
            if k < e {
                Some(k)
            } else if k < e + add {
                None
            } else {
                Some(k - add + 1)
            }
        },
    }
}

/// The first error among the specifications from position `p` on, each
/// checked against the axis it addresses.
pub open spec fn basic_error_from(shape: Seq<usize>, specs: Seq<IndexSpec>, p: int) -> Option<
    ErrKind,
>
    decreases specs.len() - p,
{
    if p < 0 || p >= specs.len() {
        None
    } else {
        let e = first_ellipsis_from(specs, 0);
        let ax = axis_of_pos(specs.len() as int, shape.len() as int, e, p);
        let err = if specs[p] is Ellipsis {
            None
        } else {
            spec_error(specs[p], shape[ax])
        };
        match err {
            Some(k) => Some(k),
            None => basic_error_from(shape, specs, p + 1),
        }
    }
}

/// The selection of every axis.
pub open spec fn basic_plan(shape: Seq<usize>, specs: Seq<IndexSpec>) -> Seq<AxisSel> {
    let e = first_ellipsis_from(specs, 0);
    Seq::new(
        shape.len(),
        |k: int|
            match pos_of_axis(specs.len() as int, shape.len() as int, e, k) {
                Some(p) => sel_of_spec(specs[p], shape[k]),
                None => full_axis(shape[k]),
            },
    )
}

/// The number of positions selected of each axis.
pub open spec fn plan_counts(plan: Seq<AxisSel>) -> Seq<usize> {
    Seq::new(plan.len(), |k: int| plan[k].count)
}

/// The lengths of the kept axes.
pub open spec fn kept_shape(plan: Seq<AxisSel>) -> Seq<usize>
    decreases plan.len(),
{
    if plan.len() == 0 {
        seq![]
    } else {
        let front = kept_shape(plan.drop_last());
        if plan.last().keep {
            front.push(plan.last().count)
        } else {
            front
        }
    }
}

/// The multi-index of the source element for the position `o` of the
/// selection.
pub open spec fn plan_source(plan: Seq<AxisSel>, o: Seq<usize>) -> Seq<usize> {
    Seq::new(o.len(), |k: int| (plan[k].start + o[k] * plan[k].step) as usize)
}

/// The result of basic indexing: the selected elements in row-major order,
/// under the lengths of the kept axes.
pub open spec fn gather<T>(a: ArrayModel<T>, plan: Seq<AxisSel>) -> ArrayModel<T> {
    let counts = plan_counts(plan);
    ArrayModel {
        shape: kept_shape(plan),
        data: Seq::new(
            shape_size(counts),
            |q: int| a.at(plan_source(plan, unflatten(counts, q))),
        ),
    }
}

/// What basic indexing gives: the first error of a specification, a
/// second ellipsis (`InvalidOperation`), or the gathered selection.
pub open spec fn basic_index_spec<T>(a: ArrayModel<T>, specs: Seq<IndexSpec>) -> core::result::Result<
    ArrayModel<T>,
    ErrKind,
> {
    match basic_error_from(a.shape, specs, 0) {
        Some(k) => Err(k),
        None => if ellipsis_count(specs, specs.len() as int) >= 2 {
            Err(ErrKind::InvalidOperation)
        } else {
            Ok(gather(a, basic_plan(a.shape, specs)))
        },
    }
}

/// The specifications with the one at `over.0`, if any, replaced by the
/// single index `over.1`.
pub open spec fn eff_specs(specs: Seq<IndexSpec>, over: Option<(usize, usize)>) -> Seq<IndexSpec> {
    match over {
        None => specs,
        Some((p, i)) => specs.update(p as int, IndexSpec::Index(i)),
    }
}

/// `spec_error` of the effective specification at position `p`.
fn eff_error(specs: &[IndexSpec], over: Option<(usize, usize)>, p: usize, n: usize) -> (r: Option<
    ErrKind,
>)
    requires
        p < specs@.len(),
        over matches Some((q, _)) ==> q < specs@.len(),
    ensures
        r == spec_error(eff_specs(specs@, over)[p as int], n),
{
    let spec: &IndexSpec = &specs[p];
    let (is_over, i) = match over {
        Some((q, i)) => (q == p, i),
        None => (false, 0),
    };
    if is_over {
        return if i >= n {
            Some(ErrKind::IndexOutOfBounds)
        } else {
            None
        };
    }
    match spec {
        IndexSpec::Index(i) => if *i >= n {
            Some(ErrKind::IndexOutOfBounds)
        } else {
            None
        },
        IndexSpec::Slice(st, end, step) => {
            let e = match end {
                Some(e) => *e,
                None => n,
            };
            if *st >= n || e > n {
                Some(ErrKind::IndexOutOfBounds)
            } else if match step {
                Some(s) => *s == 0,
                None => false,
            } {
                Some(ErrKind::InvalidOperation)
            } else {
                None
            }
        },
        _ => None,
    }
}

/// `sel_of_spec` of the effective specification at position `p`.
fn eff_sel(specs: &[IndexSpec], over: Option<(usize, usize)>, p: usize, n: usize) -> (r: AxisSel)
    requires
        p < specs@.len(),
        over matches Some((q, _)) ==> q < specs@.len(),
    ensures
        r == sel_of_spec(eff_specs(specs@, over)[p as int], n),
{
    let (is_over, oi) = match over {
        Some((q, i)) => (q == p, i),
        None => (false, 0),
    };
    if is_over {
        return AxisSel { start: oi, count: 1, step: 1, keep: false };
    }
    match &specs[p] {
        IndexSpec::Index(i) => AxisSel { start: *i, count: 1, step: 1, keep: false },
        IndexSpec::Slice(st, end, step) => {
            let e = match end {
                Some(e) => *e,
                None => n,
            };
            let s = match step {
                Some(s) => *s,
                None => 1,
            };
            let count = if e > *st && s > 0 {
                (e - *st - 1) / s + 1
            } else {
                0
            };
            AxisSel { start: *st, count, step: s, keep: true }
        },
        _ => AxisSel { start: 0, count: n, step: 1, keep: true },
    }
}

/// Whether the effective specification at position `p` is an ellipsis.
fn eff_is_ellipsis(specs: &[IndexSpec], over: Option<(usize, usize)>, p: usize) -> (r: bool)
    requires
        p < specs@.len(),
        over matches Some((q, _)) ==> q < specs@.len(),
    ensures
        r == eff_specs(specs@, over)[p as int] is Ellipsis,
{
    match over {
        Some((q, _)) => if q == p {
            return false;
        },
        None => {},
    }
    match &specs[p] {
        IndexSpec::Ellipsis => true,
        _ => false,
    }
}

/// The first ellipsis and the number of ellipses.
fn ellipsis_info(specs: &[IndexSpec], over: Option<(usize, usize)>) -> (r: (Option<usize>, usize))
    requires
        over matches Some((q, _)) ==> q < specs@.len(),
    ensures
        match first_ellipsis_from(eff_specs(specs@, over), 0) {
            Some(e) => r.0 == Some(e as usize),
            None => r.0 is None,
        },
        r.1 == ellipsis_count(eff_specs(specs@, over), specs@.len() as int),
{
    let ghost es = eff_specs(specs@, over);
    let mut first: Option<usize> = None;
    let mut i: usize = specs.len();
    while i > 0
        invariant
            i <= specs@.len(),
            over matches Some((q, _)) ==> q < specs@.len(),
            es == eff_specs(specs@, over),
            es.len() == specs@.len(),
            match first_ellipsis_from(es, i as int) {
                Some(e) => first == Some(e as usize),
                None => first is None,
            },
        decreases i,
    {
        i = i - 1;
        if eff_is_ellipsis(specs, over, i) {
            first = Some(i);
        }
    }
    let mut count: usize = 0;
    let mut j: usize = 0;
    while j < specs.len()
        invariant
            j <= specs@.len(),
            over matches Some((q, _)) ==> q < specs@.len(),
            es == eff_specs(specs@, over),
            es.len() == specs@.len(),
            count == ellipsis_count(es, j as int),
            count <= j,
        decreases specs@.len() - j,
    {
        if eff_is_ellipsis(specs, over, j) {
            count = count + 1;
        }
        j = j + 1;
    }
    (first, count)
}

/// A selection that passed its check stays inside its axis.
pub open spec fn sel_valid(sel: AxisSel, n: usize) -> bool {
    &&& sel.step >= 1
    &&& sel.count <= n
    &&& sel.count > 0 ==> sel.start + (sel.count - 1) * sel.step < n
    &&& !sel.keep ==> sel.count == 1
}

/// A specification without error selects positions inside its axis.
proof fn lemma_sel_valid(spec: IndexSpec, n: usize)
    requires
        spec_error(spec, n) is None,
    ensures
        sel_valid(sel_of_spec(spec, n), n),
{
    match spec {
        IndexSpec::Slice(st, end, step) => {
            let e: int = match end {
                Some(e) => e as int,
                None => n as int,
            };
            let s: int = match step {
                Some(s) => s as int,
                None => 1,
            };
            assert(s >= 1);
            if e > st {
                let d = e - st;
                let c = (d - 1) / s + 1;
                assert(sel_of_spec(spec, n).count == c);
                assert((c - 1) * s <= d - 1) by (nonlinear_arith)
                    requires
                        c - 1 == (d - 1) / s,
                        s >= 1,
                        d >= 1,
                ;
                assert(c <= d) by (nonlinear_arith)
                    requires
                        c - 1 == (d - 1) / s,
                        s >= 1,
                        d >= 1,
                ;
            }
        },
        _ => {},
    }
}

/// The sizes of shapes compare as their dimensions do.
pub proof fn lemma_size_pointwise_le(a: Seq<usize>, b: Seq<usize>)
    requires
        a.len() == b.len(),
        forall|k: int| 0 <= k < a.len() ==> #[trigger] a[k] <= b[k],
    ensures
        shape_size(a) <= shape_size(b),
    decreases a.len(),
{
    if a.len() > 0 {
        lemma_size_pointwise_le(a.drop_last(), b.drop_last());
        let x = shape_size(a.drop_last());
        let y = shape_size(b.drop_last());
        assert(x * (a.last() as nat) <= y * (b.last() as nat)) by (nonlinear_arith)
            requires
                x <= y,
                a.last() <= b.last(),
        ;
    }
}

/// Dropping axes of length one keeps the number of elements.
proof fn lemma_kept_size(plan: Seq<AxisSel>)
    requires
        forall|k: int| 0 <= k < plan.len() && !(#[trigger] plan[k]).keep ==> plan[k].count == 1,
    ensures
        shape_size(kept_shape(plan)) == shape_size(plan_counts(plan)),
    decreases plan.len(),
{
    if plan.len() > 0 {
        let front = plan.drop_last();
        assert(plan_counts(plan).drop_last() =~= plan_counts(front));
        assert forall|k: int| 0 <= k < front.len() && !(#[trigger] front[k]).keep implies front[k].count
            == 1 by {
            assert(front[k] == plan[k]);
        }
        lemma_kept_size(front);
        let kf = kept_shape(front);
        let c = plan.last().count as nat;
        assert(plan_counts(plan).last() == plan.last().count);
        assert(shape_size(plan_counts(plan)) == shape_size(plan_counts(front)) * c);
        if plan.last().keep {
            assert(kept_shape(plan) == kf.push(plan.last().count));
            assert(kf.push(plan.last().count).drop_last() =~= kf);
            assert(shape_size(kept_shape(plan)) == shape_size(kf) * c);
        } else {
            assert(kept_shape(plan) == kf);
            assert(c == 1);
        }
    }
}

/// With no error from position `p0` on, every later specification other
/// than an ellipsis passes its check.
proof fn lemma_no_error_before(shape: Seq<usize>, specs: Seq<IndexSpec>, p0: int)
    requires
        0 <= p0,
        basic_error_from(shape, specs, p0) is None,
    ensures
        forall|q: int|
            p0 <= q < specs.len() && !(#[trigger] specs[q] is Ellipsis) ==> spec_error(
                specs[q],
                shape[axis_of_pos(
                    specs.len() as int,
                    shape.len() as int,
                    first_ellipsis_from(specs, 0),
                    q,
                )],
            ) is None,
    decreases specs.len() - p0,
{
    if p0 < specs.len() {
        lemma_no_error_before(shape, specs, p0 + 1);
    }
}

/// The first ellipsis lies among the specifications.
pub proof fn lemma_first_ellipsis(specs: Seq<IndexSpec>, i: int)
    ensures
        first_ellipsis_from(specs, i) matches Some(e) ==> 0 <= i <= e < specs.len()
            && specs[e] is Ellipsis && forall|q: int| i <= q < e ==> !(#[trigger] specs[q] is Ellipsis),
    decreases specs.len() - i,
{
    if 0 <= i < specs.len() && !(specs[i] is Ellipsis) {
        lemma_first_ellipsis(specs, i + 1);
    }
}

impl<T: Copy> Array<T> {
    /// Basic indexing (single indices, slices, full axes and at most one
    /// ellipsis), with the specification at `over.0` taken as the single
    /// index `over.1`.
    fn basic_index(&self, specs: &[IndexSpec], over: Option<(usize, usize)>) -> (r: Result<Self>)
        requires
            specs@.len() <= self@.shape.len(),
            over matches Some((p, _)) ==> p < specs@.len(),
        ensures
            match basic_index_spec(self@, eff_specs(specs@, over)) {
                Ok(m) => r matches Ok(a) && a@ == m,
                Err(k) => r matches Err(e) && kind_of(e) == Some(k),
            },
    {
        let shape = self.shape_ref();
        let data = self.data_ref();
        let ghost es = eff_specs(specs@, over);
        let ndim = shape.len();
        let len = specs.len();
        let (first, count) = ellipsis_info(specs, over);
        let ghost e = first_ellipsis_from(es, 0);
        proof {
            lemma_first_ellipsis(es, 0);
        }
        let mut p: usize = 0;
        while p < len
            invariant
                p <= len,
                over matches Some((q, _)) ==> q < specs@.len(),
                len == specs@.len(),
                len <= ndim,
                ndim == shape@.len(),
                es == eff_specs(specs@, over),
                es.len() == len,
                e == first_ellipsis_from(es, 0),
                e matches Some(x) ==> 0 <= x < len && es[x] is Ellipsis,
                match e {
                    Some(x) => first == Some(x as usize),
                    None => first is None,
                },
                basic_error_from(shape@, es, 0) == basic_error_from(shape@, es, p as int),
                shape@ == self@.shape,
            decreases len - p,
        {
            if !eff_is_ellipsis(specs, over, p) {
                let ax = match first {
                    None => p,
                    Some(x) => if p < x {
                        p
                    } else {
                        p + (ndim - len)
                    },
                };
                assert(ax == axis_of_pos(len as int, ndim as int, e, p as int));
                match eff_error(specs, over, p, shape[ax]) {
                    Some(k) => {
                        assert(basic_error_from(shape@, es, p as int) == Some(k));
                        assert(k == ErrKind::IndexOutOfBounds || k == ErrKind::InvalidOperation)
                            by {
                            match es[p as int] {
                                IndexSpec::Index(_) => {},
                                IndexSpec::Slice(_, _, _) => {},
                                _ => {},
                            }
                        }
                        assert(basic_error_from(self@.shape, es, 0) == Some(k));
                        assert(basic_index_spec(self@, es) == Err::<ArrayModel<T>, ErrKind>(k));
                        if k == ErrKind::IndexOutOfBounds {
                            return Err(NumRs2Error::IndexOutOfBounds(message("index out of bounds")));
                        } else {
                            return Err(
                                NumRs2Error::InvalidOperation(message("step size cannot be zero")),
                            );
                        }
                    },
                    None => {},
                }
            }
            p = p + 1;
        }
        assert(basic_error_from(shape@, es, len as int) is None);
        if count >= 2 {
            return Err(NumRs2Error::InvalidOperation(message("an index can hold a single ellipsis")));
        }
        let ghost plan_s = basic_plan(shape@, es);
        proof {
            lemma_no_error_before(shape@, es, 0);
        }
        let mut plan: Vec<AxisSel> = Vec::with_capacity(ndim);
        let mut k: usize = 0;
        while k < ndim
            invariant
                k <= ndim,
                over matches Some((q, _)) ==> q < specs@.len(),
                len == specs@.len(),
                len <= ndim,
                ndim == shape@.len(),
                es == eff_specs(specs@, over),
                es.len() == len,
                e == first_ellipsis_from(es, 0),
                e matches Some(x) ==> 0 <= x < len && es[x] is Ellipsis,
                match e {
                    Some(x) => first == Some(x as usize),
                    None => first is None,
                },
                plan_s == basic_plan(shape@, es),
                forall|q: int|
                    0 <= q < len && !(#[trigger] es[q] is Ellipsis) ==> spec_error(
                        es[q],
                        shape@[axis_of_pos(len as int, ndim as int, e, q)],
                    ) is None,
                plan@ == plan_s.take(k as int),
                forall|j: int| 0 <= j < k ==> sel_valid(#[trigger] plan@[j], shape@[j]),
            decreases ndim - k,
        {
            let pos: Option<usize> = match first {
                None => if k < len {
                    Some(k)
                } else {
                    None
                },
                Some(x) => {
                    let add = ndim - (len - 1);
                    if k < x {
                        Some(k)
                    } else if k < x + add {
                        None
                    } else {
                        Some(k - add + 1)
                    }
                },
            };
            assert(pos_of_axis(len as int, ndim as int, e, k as int) == match pos {
                Some(p) => Some(p as int),
                None => None::<int>,
            });
            let sel = match pos {
                Some(p) => {
                    assert(axis_of_pos(len as int, ndim as int, e, p as int) == k);
                    proof {
                        if !(es[p as int] is Ellipsis) {
                            lemma_sel_valid(es[p as int], shape@[k as int]);
                        }
                    }
                    let sel = eff_sel(specs, over, p, shape[k]);
                    assert(sel_valid(sel, shape@[k as int]));
                    sel
                },
                None => {
                    let sel = AxisSel { start: 0, count: shape[k], step: 1, keep: true };
                    assert(sel_valid(sel, shape@[k as int]));
                    sel
                },
            };
            assert(sel == plan_s[k as int]);
            plan.push(sel);
            assert(plan@ =~= plan_s.take(k + 1));
            k = k + 1;
        }
        assert(plan@ =~= plan_s);
        let mut counts: Vec<usize> = Vec::with_capacity(ndim);
        let mut kept: Vec<usize> = Vec::new();
        let mut j: usize = 0;
        while j < ndim
            invariant
                j <= ndim,
                ndim == shape@.len(),
                plan@ == plan_s,
                plan_s.len() == ndim,
                counts@ == plan_counts(plan_s).take(j as int),
                kept@ == kept_shape(plan_s.take(j as int)),
            decreases ndim - j,
        {
            counts.push(plan[j].count);
            let ghost t = plan_s.take(j + 1);
            assert(t.drop_last() =~= plan_s.take(j as int));
            if plan[j].keep {
                kept.push(plan[j].count);
            }
            j = j + 1;
            assert(counts@ =~= plan_counts(plan_s).take(j as int));
        }
        assert(counts@ =~= plan_counts(plan_s));
        assert(plan_s.take(ndim as int) =~= plan_s);
        proof {
            lemma_size_pointwise_le(counts@, shape@);
            lemma_kept_size(plan_s);
        }
        let _size = data.len();
        let total = match checked_shape_size(counts.as_slice()) {
            Some(t) => t,
            None => 0,
        };
        let mut out: Vec<T> = Vec::with_capacity(total);
        let mut q: usize = 0;
        while q < total
            invariant
                q <= total,
                total == shape_size(counts@),
                shape_size(counts@) <= shape_size(shape@),
                shape_size(shape@) <= usize::MAX,
                counts@ == plan_counts(plan_s),
                plan@ == plan_s,
                plan_s.len() == ndim,
                ndim == shape@.len(),
                shape@ == self@.shape,
                data@ == self@.data,
                data@.len() == shape_size(shape@),
                forall|i: int| 0 <= i < ndim ==> sel_valid(#[trigger] plan_s[i], shape@[i]),
                out@.len() == q,
                forall|i: int|
                    0 <= i < q ==> #[trigger] out@[i] == self@.at(
                        plan_source(plan_s, unflatten(counts@, i)),
                    ),
            decreases total - q,
        {
            let o = unflatten_exec(counts.as_slice(), q);
            let mut src: Vec<usize> = Vec::with_capacity(ndim);
            let mut k2: usize = 0;
            while k2 < ndim
                invariant
                    k2 <= ndim,
                    ndim == shape@.len(),
                    o@.len() == ndim,
                    in_bounds(counts@, o@),
                    counts@ == plan_counts(plan_s),
                    plan@ == plan_s,
                    plan_s.len() == ndim,
                    forall|i: int| 0 <= i < ndim ==> sel_valid(#[trigger] plan_s[i], shape@[i]),
                    src@.len() == k2,
                    forall|i: int| 0 <= i < k2 ==> #[trigger] src@[i] < shape@[i],
                    forall|i: int| 0 <= i < k2 ==> #[trigger] src@[i] == plan_source(plan_s, o@)[i],
                decreases ndim - k2,
            {
                let sel = plan[k2];
                let ok = o[k2];
                assert(ok < sel.count) by {
                    assert(o@[k2 as int] < counts@[k2 as int]);
                }
                assert(sel_valid(plan_s[k2 as int], shape@[k2 as int]));
                assert(sel.start + ok * sel.step < shape@[k2 as int]) by (nonlinear_arith)
                    requires
                        ok < sel.count,
                        sel.start + (sel.count - 1) * sel.step < shape@[k2 as int],
                        sel.step >= 1,
                {
                    assert(ok * sel.step <= (sel.count - 1) * sel.step);
                }
                src.push(sel.start + ok * sel.step);
                k2 = k2 + 1;
            }
            assert(src@ =~= plan_source(plan_s, o@));
            let f = flat_index_exec(shape.as_slice(), src.as_slice());
            out.push(data[f]);
            q = q + 1;
        }
        let r = Array::from_parts(kept, out);
        assert(r@.data =~= gather(self@, plan_s).data);
        Ok(r)
    }
}

/// The outcome `r` is the one `spec` describes: the array it gives, or an
/// error of the kind it names.
pub open spec fn outcome<T>(spec: core::result::Result<ArrayModel<T>, ErrKind>, r: Result<Array<T>>) -> bool {
    match spec {
        Ok(m) => r matches Ok(a) && a@ == m,
        Err(k) => r matches Err(e) && kind_of(e) == Some(k),
    }
}

/// The array of shape `a.shape` with axis `ax` replaced by the positions
/// `idx` of that axis, in their order.
pub open spec fn take_along<T>(a: ArrayModel<T>, ax: int, idx: Seq<usize>) -> ArrayModel<T> {
    let rs = a.shape.update(ax, idx.len() as usize);
    ArrayModel {
        shape: rs,
        data: Seq::new(
            shape_size(rs),
            |q: int| {
                let o = unflatten(rs, q);
                a.at(o.update(ax, idx[o[ax] as int]))
            },
        ),
    }
}

/// A take along an axis, described pointwise, is `take_along`.
proof fn lemma_take_along<T>(a: ArrayModel<T>, ax: int, idx: Seq<usize>, r: ArrayModel<T>)
    requires
        is_take_along_axis(a, ax, idx, r),
    ensures
        r == take_along(a, ax, idx),
{
    let m = take_along(a, ax, idx);
    assert forall|q: int| 0 <= q < r.data.len() implies #[trigger] r.data[q] == m.data[q] by {
        lemma_unflatten(r.shape, q);
        let o = unflatten(r.shape, q);
        assert(r.at(o) == a.at(o.update(ax, idx[o[ax] as int])));
    }
    assert(r.data =~= m.data);
}

/// Where fancy indexing along position `f` puts the element at multi-index
/// `sidx` of the slice taken for the `j`-th index: at `j` along `f`, and at
/// the slice's indices, in order, along the other axes (`0` where the slice
/// has too few axes).
pub open spec fn fancy_target(ndim: nat, f: int, j: int, sidx: Seq<usize>) -> Seq<usize> {
    Seq::new(
        ndim,
        |d: int|
            if d == f {
                j as usize
            } else {
                let sd = if d < f {
                    d
                } else {
                    d - 1
                };
                if sd < sidx.len() {
                    sidx[sd]
                } else {
                    0usize
                }
            },
    )
}

/// The buffer `buf` of shape `rs` after writing the first `n` elements of
/// the slice `s` taken for the `j`-th index, or `None` when one of them
/// falls outside the shape.
pub open spec fn write_slice<T>(
    buf: Seq<T>,
    rs: Seq<usize>,
    f: int,
    j: int,
    s: ArrayModel<T>,
    n: nat,
) -> Option<Seq<T>>
    decreases n,
{
    if n == 0 {
        Some(buf)
    } else {
        match write_slice(buf, rs, f, j, s, (n - 1) as nat) {
            None => None,
            Some(b) => {
                let t = fancy_target(rs.len(), f, j, unflatten(s.shape, n - 1));
                if in_bounds(rs, t) {
                    Some(b.update(flat_index(rs, t), s.data[n - 1]))
                } else {
                    None
                }
            },
        }
    }
}

/// The buffer after the slices for the first `m` indices of `idx` have
/// been written, starting from a buffer of `fill`.
pub open spec fn fancy_fill<T>(
    a: ArrayModel<T>,
    specs: Seq<IndexSpec>,
    f: int,
    idx: Seq<usize>,
    rs: Seq<usize>,
    fill: T,
    m: nat,
) -> core::result::Result<Seq<T>, ErrKind>
    decreases m,
{
    if m == 0 {
        Ok(Seq::new(shape_size(rs), |i: int| fill))
    } else {
        match fancy_fill(a, specs, f, idx, rs, fill, (m - 1) as nat) {
            Err(k) => Err(k),
            Ok(buf) => match basic_index_spec(a, specs.update(f, IndexSpec::Index(idx[m - 1]))) {
                Err(k) => Err(k),
                Ok(s) => match write_slice(buf, rs, f, m - 1, s, s.data.len()) {
                    None => Err(ErrKind::IndexOutOfBounds),
                    Some(b) => Ok(b),
                },
            },
        }
    }
}

/// Fancy indexing with the single integer array `idx` at position `f`: no
/// index gives an empty axis `f`; an index not below `a.shape[f]` is an
/// error; otherwise each index selects a slice by basic indexing (the other
/// specifications unchanged), which is written along `f` into an array of
/// `fill` of the shape of `a` with `idx.len()` at `f`.
pub open spec fn fancy_single_spec<T>(a: ArrayModel<T>, specs: Seq<IndexSpec>, f: int, idx: Seq<usize>, fill: T) -> core::result::Result<
    ArrayModel<T>,
    ErrKind,
> {
    if idx.len() == 0 {
        Ok(ArrayModel { shape: a.shape.update(f, 0), data: seq![] })
    } else if exists|j: int| 0 <= j < idx.len() && #[trigger] idx[j] >= a.shape[f] {
        Err(ErrKind::IndexOutOfBounds)
    } else {
        let rs = a.shape.update(f, idx.len() as usize);
        match fancy_fill(a, specs, f, idx, rs, fill, idx.len()) {
            Err(k) => Err(k),
            Ok(buf) => Ok(ArrayModel { shape: rs, data: buf }),
        }
    }
}

proof fn lemma_fancy_fill_len<T>(
    a: ArrayModel<T>,
    specs: Seq<IndexSpec>,
    f: int,
    idx: Seq<usize>,
    rs: Seq<usize>,
    fill: T,
    m: nat,
)
    ensures
        fancy_fill(a, specs, f, idx, rs, fill, m) matches Ok(b) ==> b.len() == shape_size(rs),
    decreases m,
{
    if m > 0 {
        lemma_fancy_fill_len(a, specs, f, idx, rs, fill, (m - 1) as nat);
        match fancy_fill(a, specs, f, idx, rs, fill, (m - 1) as nat) {
            Err(_) => {},
            Ok(buf) => match basic_index_spec(a, specs.update(f, IndexSpec::Index(idx[m - 1]))) {
                Err(_) => {},
                Ok(s) => {
                    if buf.len() == shape_size(rs) {
                        lemma_write_slice_len(buf, rs, f, m - 1, s, s.data.len());
                    }
                },
            },
        }
    }
}

proof fn lemma_write_slice_len<T>(buf: Seq<T>, rs: Seq<usize>, f: int, j: int, s: ArrayModel<T>, n: nat)
    requires
        buf.len() == shape_size(rs),
    ensures
        write_slice(buf, rs, f, j, s, n) matches Some(b) ==> b.len() == buf.len(),
    decreases n,
{
    if n > 0 {
        lemma_write_slice_len(buf, rs, f, j, s, (n - 1) as nat);
        let t = fancy_target(rs.len(), f, j, unflatten(s.shape, n - 1));
        if in_bounds(rs, t) {
            lemma_flat_index_bounds(rs, t);
        }
    }
}

impl<T: Copy> Array<T> {
    /// Fancy indexing with the single integer array `idx`, which is the
    /// specification at position `f`.
    fn fancy_single(&self, specs: &[IndexSpec], f: usize, idx: &Vec<usize>, fill: T) -> (r: Result<Self>)
        requires
            f < specs@.len(),
            specs@.len() <= self@.shape.len(),
            idx@.len() > 0 ==> shape_size(self@.shape.update(f as int, idx@.len() as usize))
                <= usize::MAX,
        ensures
            outcome(fancy_single_spec(self@, specs@, f as int, idx@, fill), r),
    {
        let shape = self.shape_ref();
        let ndim = shape.len();
        let n = idx.len();
        if n == 0 {
            let mut es = copy_slice(shape.as_slice());
            es.set(f, 0);
            proof {
                crate::array::lemma_zero_dim_size(es@, f as int);
            }
            assert(es@ =~= self@.shape.update(f as int, 0));
            let r = Array::from_parts(es, Vec::new());
            assert(r@.data =~= Seq::<T>::empty());
            return Ok(r);
        }
        let mut c: usize = 0;
        while c < n
            invariant
                c <= n,
                n == idx@.len(),
                f < shape@.len(),
                shape@ == self@.shape,
                forall|j: int| 0 <= j < c ==> #[trigger] idx@[j] < shape@[f as int],
            decreases n - c,
        {
            if idx[c] >= shape[f] {
                return Err(NumRs2Error::IndexOutOfBounds(message("index out of bounds")));
            }
            c = c + 1;
        }
        let mut rs = copy_slice(shape.as_slice());
        rs.set(f, n);
        let ghost rsv = self@.shape.update(f as int, n as usize);
        assert(rs@ =~= rsv);
        let total = match checked_shape_size(rs.as_slice()) {
            Some(t) => t,
            None => 0,
        };
        let mut buf: Vec<T> = Vec::with_capacity(total);
        let mut b: usize = 0;
        while b < total
            invariant
                b <= total,
                buf@ =~= Seq::new(b as nat, |i: int| fill),
            decreases total - b,
        {
            buf.push(fill);
            b = b + 1;
        }
        assert(buf@ =~= Seq::new(shape_size(rsv), |i: int| fill));
        let mut j: usize = 0;
        while j < n
            invariant
                j <= n,
                n == idx@.len(),
                n > 0,
                f < specs@.len(),
                specs@.len() <= shape@.len(),
                ndim == shape@.len(),
                shape@ == self@.shape,
                rs@ == rsv,
                rsv == self@.shape.update(f as int, n as usize),
                shape_size(rsv) <= usize::MAX,
                forall|q: int| 0 <= q < n ==> #[trigger] idx@[q] < shape@[f as int],
                fancy_fill(self@, specs@, f as int, idx@, rsv, fill, j as nat) == Ok::<Seq<T>, ErrKind>(buf@),
            decreases n - j,
        {
            let slice = match self.basic_index(specs, Some((f, idx[j]))) {
                Ok(s) => s,
                Err(e) => {
                    proof {
                        lemma_fancy_fill_err_stays(self@, specs@, f as int, idx@, rsv, fill, (j + 1) as nat, n as nat);
                    }
                    return Err(e);
                },
            };
            let ghost before = buf@;
            assert(eff_specs(specs@, Some((f, idx@[j as int]))) == specs@.update(
                f as int,
                IndexSpec::Index(idx@[j as int]),
            ));
            let ssh = slice.shape_ref();
            let sdat = slice.data_ref();
            let sn = sdat.len();
            proof {
                lemma_fancy_fill_len(self@, specs@, f as int, idx@, rsv, fill, j as nat);
            }
            let mut i: usize = 0;
            while i < sn
                invariant
                    i <= sn,
                    sn == sdat@.len(),
                    sdat@ == slice@.data,
                    ssh@ == slice@.shape,
                    slice@.well_formed(),
                    f < ndim,
                    ndim == rsv.len(),
                    rs@ == rsv,
                    shape_size(rsv) <= usize::MAX,
                    before.len() == shape_size(rsv),
                    write_slice(before, rsv, f as int, j as int, slice@, i as nat) == Some(buf@),
                    j < n,
                    n == idx@.len(),
                    shape@ == self@.shape,
                    rsv == self@.shape.update(f as int, n as usize),
                    forall|q: int| 0 <= q < n ==> #[trigger] idx@[q] < shape@[f as int],
                    fancy_fill(self@, specs@, f as int, idx@, rsv, fill, j as nat) == Ok::<Seq<T>, ErrKind>(before),
                    basic_index_spec(self@, specs@.update(f as int, IndexSpec::Index(idx@[j as int])))
                        == Ok::<ArrayModel<T>, ErrKind>(slice@),
                decreases sn - i,
            {
                let sidx = unflatten_exec(ssh.as_slice(), i);
                let mut target: Vec<usize> = Vec::with_capacity(ndim);
                let mut d: usize = 0;
                while d < ndim
                    invariant
                        d <= ndim,
                        f < ndim,
                        target@ =~= fancy_target(ndim as nat, f as int, j as int, sidx@).take(d as int),
                    decreases ndim - d,
                {
                    if d == f {
                        target.push(j);
                    } else {
                        let sd = if d < f {
                            d
                        } else {
                            d - 1
                        };
                        if sd < sidx.len() {
                            target.push(sidx[sd]);
                        } else {
                            target.push(0);
                        }
                    }
                    d = d + 1;
                    assert(target@ =~= fancy_target(ndim as nat, f as int, j as int, sidx@).take(d as int));
                }
                assert(target@ =~= fancy_target(ndim as nat, f as int, j as int, sidx@));
                proof {
                    lemma_write_slice_len(before, rsv, f as int, j as int, slice@, i as nat);
                }
                match crate::indexing::check_indices(rs.as_slice(), target.as_slice()) {
                    Err(_) => {
                        assert(write_slice(before, rsv, f as int, j as int, slice@, (i + 1) as nat) is None);
                        proof {
                            lemma_write_slice_none_stays(before, rsv, f as int, j as int, slice@, (i + 1) as nat, sn as nat);
                            lemma_fancy_fill_err_stays(self@, specs@, f as int, idx@, rsv, fill, (j + 1) as nat, n as nat);
                        }
                        assert(fancy_fill(self@, specs@, f as int, idx@, rsv, fill, (j + 1) as nat)
                            == Err::<Seq<T>, ErrKind>(ErrKind::IndexOutOfBounds));
                        assert(!(exists|q: int| 0 <= q < idx@.len() && #[trigger] idx@[q] >= self@.shape[f as int]));
                        return Err(NumRs2Error::IndexOutOfBounds(message("index out of bounds")));
                    },
                    Ok(()) => {},
                }
                let fi = flat_index_exec(rs.as_slice(), target.as_slice());
                buf.set(fi, sdat[i]);
                i = i + 1;
            }
            j = j + 1;
        }
        proof {
            lemma_fancy_fill_len(self@, specs@, f as int, idx@, rsv, fill, n as nat);
        }
        let r = Array::from_parts(rs, buf);
        Ok(r)
    }
}

/// Once writing a slice fails, writing more of it fails too.
proof fn lemma_write_slice_none_stays<T>(buf: Seq<T>, rs: Seq<usize>, f: int, j: int, s: ArrayModel<T>, n: nat, n2: nat)
    requires
        n <= n2,
        write_slice(buf, rs, f, j, s, n) is None,
    ensures
        write_slice(buf, rs, f, j, s, n2) is None,
    decreases n2 - n,
{
    if n < n2 {
        lemma_write_slice_none_stays(buf, rs, f, j, s, n, (n2 - 1) as nat);
    }
}

/// Once fancy indexing fails, it fails for more indices too.
proof fn lemma_fancy_fill_err_stays<T>(
    a: ArrayModel<T>,
    specs: Seq<IndexSpec>,
    f: int,
    idx: Seq<usize>,
    rs: Seq<usize>,
    fill: T,
    m: nat,
    m2: nat,
)
    requires
        m <= m2,
        fancy_fill(a, specs, f, idx, rs, fill, m) is Err,
    ensures
        fancy_fill(a, specs, f, idx, rs, fill, m2) == fancy_fill(a, specs, f, idx, rs, fill, m),
    decreases m2 - m,
{
    if m < m2 {
        lemma_fancy_fill_err_stays(a, specs, f, idx, rs, fill, m, (m2 - 1) as nat);
    }
}

/// The specification at position `d` is an integer array.
pub open spec fn is_fancy(specs: Seq<IndexSpec>, d: int) -> bool {
    0 <= d < specs.len() && specs[d] is Indices
}

/// The integer array of a specification (empty for the other kinds).
pub open spec fn fancy_vec(spec: IndexSpec) -> Seq<usize> {
    match spec {
        IndexSpec::Indices(v) => v@,
        _ => seq![],
    }
}

/// The boolean mask of a specification (empty for the other kinds).
pub open spec fn mask_vec(spec: IndexSpec) -> Seq<bool> {
    match spec {
        IndexSpec::Mask(m) => m@,
        _ => seq![],
    }
}

/// The length of the longest integer array among the first `n`
/// specifications.
pub open spec fn max_fancy_len(specs: Seq<IndexSpec>, n: int) -> nat
    decreases n,
{
    if n <= 0 {
        0
    } else {
        let m = max_fancy_len(specs, n - 1);
        if is_fancy(specs, n - 1) && fancy_vec(specs[n - 1]).len() > m {
            fancy_vec(specs[n - 1]).len()
        } else {
            m
        }
    }
}

/// Number of integer arrays among the first `n` specifications.
pub open spec fn fancy_count(specs: Seq<IndexSpec>, n: int) -> nat
    decreases n,
{
    if n <= 0 {
        0
    } else {
        fancy_count(specs, n - 1) + if is_fancy(specs, n - 1) { 1nat } else { 0nat }
    }
}

/// Position of the first integer array at or after `i`.
pub open spec fn first_fancy_from(specs: Seq<IndexSpec>, i: int) -> Option<int>
    decreases specs.len() - i,
{
    if i < 0 || i >= specs.len() {
        None
    } else if specs[i] is Indices {
        Some(i)
    } else {
        first_fancy_from(specs, i + 1)
    }
}

/// Position of the first mask at or after `i`.
pub open spec fn first_mask_from(specs: Seq<IndexSpec>, i: int) -> Option<int>
    decreases specs.len() - i,
{
    if i < 0 || i >= specs.len() {
        None
    } else if specs[i] is Mask {
        Some(i)
    } else {
        first_mask_from(specs, i + 1)
    }
}

/// Some integer array has neither the longest length nor length one.
pub open spec fn fancy_lengths_clash(specs: Seq<IndexSpec>) -> bool {
    let b = max_fancy_len(specs, specs.len() as int);
    exists|d: int|
        is_fancy(specs, d) && #[trigger] fancy_vec(specs[d]).len() != b && fancy_vec(specs[d]).len()
            != 1
}

/// The multi-index read for the `i`-th result of indexing with several
/// integer arrays: along an integer array its `i`-th entry (its only entry
/// when it has length one); along a single index that index; along a slice
/// its start; elsewhere `0`.
pub open spec fn multi_point(ndim: nat, specs: Seq<IndexSpec>, i: int) -> Seq<usize> {
    Seq::new(
        ndim,
        |d: int|
            if is_fancy(specs, d) {
                let v = fancy_vec(specs[d]);
                v[if v.len() == 1 {
                    0
                } else {
                    i
                }]
            } else if d < specs.len() {
                match specs[d] {
                    IndexSpec::Index(k) => k,
                    IndexSpec::Slice(st, _, _) => st,
                    _ => 0usize,
                }
            } else {
                0usize
            },
    )
}

/// Indexing with several integer arrays: their lengths must be that of the
/// longest or one; the result lists, for each `i` below the longest
/// length, the element at `multi_point(i)`.
pub open spec fn multi_fancy_spec<T>(a: ArrayModel<T>, specs: Seq<IndexSpec>) -> core::result::Result<
    ArrayModel<T>,
    ErrKind,
> {
    let b = max_fancy_len(specs, specs.len() as int);
    if fancy_lengths_clash(specs) {
        Err(ErrKind::ShapeMismatch)
    } else if exists|i: int|
        0 <= i < b && !#[trigger] in_bounds(a.shape, multi_point(a.shape.len(), specs, i)) {
        Err(ErrKind::IndexOutOfBounds)
    } else {
        Ok(
            ArrayModel {
                shape: seq![b as usize],
                data: Seq::new(b, |i: int| a.at(multi_point(a.shape.len(), specs, i))),
            },
        )
    }
}

/// Indexing with several integer arrays reads the specification of every
/// axis; with fewer specifications than axes it fails by a panic (an index
/// past the end of the specifications) once the first result's integer
/// array entries have been checked.
pub open spec fn multi_fancy_panics(shape: Seq<usize>, specs: Seq<IndexSpec>) -> bool {
    &&& max_fancy_len(specs, specs.len() as int) > 0
    &&& specs.len() < shape.len()
    &&& !fancy_lengths_clash(specs)
    &&& forall|d: int|
        is_fancy(specs, d) ==> #[trigger] multi_point(shape.len(), specs, 0)[d] < shape[d]
}

/// Boolean indexing along axis `dim`: the mask must have the axis' length;
/// the result keeps the slices where the mask is true.
pub open spec fn bool_index_spec<T>(a: ArrayModel<T>, dim: int, mask: Seq<bool>) -> core::result::Result<
    ArrayModel<T>,
    ErrKind,
> {
    if dim >= a.shape.len() {
        Err(ErrKind::DimensionMismatch)
    } else if mask.len() != a.shape[dim] {
        Err(ErrKind::ShapeMismatch)
    } else if count_true(mask) == 0 {
        Ok(ArrayModel { shape: a.shape.update(dim, 0), data: seq![] })
    } else {
        Ok(take_along(a, dim, true_positions(mask)))
    }
}

/// What `index` gives: the array itself for no specification; too many
/// specifications are an error; the first mask, if any, selects along its
/// axis; otherwise integer arrays select by fancy indexing, and without
/// them the specifications index basically.
pub open spec fn index_spec<T>(a: ArrayModel<T>, specs: Seq<IndexSpec>, fill: T) -> core::result::Result<
    ArrayModel<T>,
    ErrKind,
> {
    if specs.len() == 0 {
        Ok(a)
    } else if specs.len() > a.shape.len() {
        Err(ErrKind::DimensionMismatch)
    } else {
        match first_mask_from(specs, 0) {
            Some(d) => bool_index_spec(a, d, mask_vec(specs[d])),
            None => {
                let c = fancy_count(specs, specs.len() as int);
                if c == 0 {
                    basic_index_spec(a, specs)
                } else if c == 1 {
                    let f = first_fancy_from(specs, 0).unwrap();
                    fancy_single_spec(a, specs, f, fancy_vec(specs[f]), fill)
                } else {
                    multi_fancy_spec(a, specs)
                }
            },
        }
    }
}

/// The inputs on which `index` can run: the result of fancy indexing with
/// a single integer array fits in memory, and indexing with several does
/// not panic.
pub open spec fn index_admissible(shape: Seq<usize>, specs: Seq<IndexSpec>) -> bool {
    0 < specs.len() <= shape.len() && first_mask_from(specs, 0) is None ==> {
        let c = fancy_count(specs, specs.len() as int);
        &&& c == 1 ==> {
            let f = first_fancy_from(specs, 0).unwrap();
            fancy_vec(specs[f]).len() > 0 ==> shape_size(
                shape.update(f, fancy_vec(specs[f]).len() as usize),
            ) <= usize::MAX
        }
        &&& c >= 2 ==> !multi_fancy_panics(shape, specs)
    }
}

/// A mask's first position lies among the specifications.
proof fn lemma_first_mask(specs: Seq<IndexSpec>, i: int)
    requires
        0 <= i,
    ensures
        first_mask_from(specs, i) matches Some(d) ==> 0 <= i <= d < specs.len() && specs[d] is Mask,
        first_mask_from(specs, i) is None ==> forall|q: int| i <= q < specs.len() ==> !(#[trigger] specs[q] is Mask),
    decreases specs.len() - i,
{
    if 0 <= i < specs.len() && !(specs[i] is Mask) {
        lemma_first_mask(specs, i + 1);
    }
}

/// An integer array's first position lies among the specifications.
proof fn lemma_first_fancy(specs: Seq<IndexSpec>, i: int)
    ensures
        first_fancy_from(specs, i) matches Some(d) ==> 0 <= i <= d < specs.len() && specs[d] is Indices,
    decreases specs.len() - i,
{
    if 0 <= i < specs.len() && !(specs[i] is Indices) {
        lemma_first_fancy(specs, i + 1);
    }
}

impl<T: Copy> Array<T> {
    /// Indexing with several integer arrays.
    fn multi_fancy(&self, specs: &[IndexSpec]) -> (r: Result<Self>)
        requires
            specs@.len() <= self@.shape.len(),
            !multi_fancy_panics(self@.shape, specs@),
        ensures
            outcome(multi_fancy_spec(self@, specs@), r),
    {
        let shape = self.shape_ref();
        let ndim = shape.len();
        let len = specs.len();
        let mut b: usize = 0;
        let mut d: usize = 0;
        while d < len
            invariant
                d <= len,
                len == specs@.len(),
                b == max_fancy_len(specs@, d as int),
            decreases len - d,
        {
            match &specs[d] {
                IndexSpec::Indices(v) => {
                    if v.len() > b {
                        b = v.len();
                    }
                },
                _ => {},
            }
            d = d + 1;
        }
        let mut d2: usize = 0;
        while d2 < len
            invariant
                d2 <= len,
                len == specs@.len(),
                b == max_fancy_len(specs@, len as int),
                forall|q: int|
                    0 <= q < d2 && is_fancy(specs@, q) ==> #[trigger] fancy_vec(specs@[q]).len() == b
                        || fancy_vec(specs@[q]).len() == 1,
            decreases len - d2,
        {
            match &specs[d2] {
                IndexSpec::Indices(v) => {
                    if v.len() != b && v.len() != 1 {
                        let mut expected: Vec<usize> = Vec::new();
                        expected.push(b);
                        let mut actual: Vec<usize> = Vec::new();
                        actual.push(v.len());
                        assert(is_fancy(specs@, d2 as int) && fancy_vec(specs@[d2 as int]).len() != b
                            && fancy_vec(specs@[d2 as int]).len() != 1);
                        return Err(NumRs2Error::ShapeMismatch { expected, actual });
                    }
                },
                _ => {},
            }
            d2 = d2 + 1;
        }
        assert(!fancy_lengths_clash(specs@));
        let mut out: Vec<T> = Vec::with_capacity(b);
        let mut i: usize = 0;
        while i < b
            invariant
                i <= b,
                len == specs@.len(),
                len <= ndim,
                ndim == shape@.len(),
                shape@ == self@.shape,
                b == max_fancy_len(specs@, len as int),
                !fancy_lengths_clash(specs@),
                !multi_fancy_panics(self@.shape, specs@),
                i > 0 ==> len == ndim,
                out@.len() == i,
                forall|q: int| 0 <= q < i ==> in_bounds(shape@, #[trigger] multi_point(ndim as nat, specs@, q)),
                forall|q: int| 0 <= q < i ==> #[trigger] out@[q] == self@.at(multi_point(ndim as nat, specs@, q)),
            decreases b - i,
        {
            let ghost pt = multi_point(ndim as nat, specs@, i as int);
            let mut d3: usize = 0;
            while d3 < len
                invariant
                    d3 <= len,
                    len == specs@.len(),
                    len <= ndim,
                    ndim == shape@.len(),
                    i < b,
                    b == max_fancy_len(specs@, len as int),
                    !fancy_lengths_clash(specs@),
                    pt == multi_point(ndim as nat, specs@, i as int),
                    shape@ == self@.shape,
                    forall|q: int| 0 <= q < d3 && is_fancy(specs@, q) ==> #[trigger] pt[q] < shape@[q],
                decreases len - d3,
            {
                match &specs[d3] {
                    IndexSpec::Indices(v) => {
                        assert(fancy_vec(specs@[d3 as int]).len() == b || fancy_vec(specs@[d3 as int]).len() == 1);
                        let k = if v.len() == 1 {
                            0
                        } else {
                            i
                        };
                        if v[k] >= shape[d3] {
                            assert(!in_bounds(shape@, pt)) by {
                                assert(pt[d3 as int] == v@[k as int]);
                            }
                            assert(!in_bounds(self@.shape, multi_point(self@.shape.len(), specs@, i as int)));
                            return Err(NumRs2Error::IndexOutOfBounds(message("index out of bounds")));
                        }
                        assert(pt[d3 as int] == v@[k as int]);
                    },
                    _ => {},
                }
                d3 = d3 + 1;
            }
            if len < ndim {
                assert(i == 0);
                assert(multi_fancy_panics(self@.shape, specs@));
                return Err(NumRs2Error::IndexOutOfBounds(message("index out of bounds")));
            }
            let mut point: Vec<usize> = Vec::with_capacity(ndim);
            let mut d4: usize = 0;
            while d4 < ndim
                invariant
                    d4 <= ndim,
                    len == ndim,
                    len == specs@.len(),
                    ndim == shape@.len(),
                    i < b,
                    b == max_fancy_len(specs@, len as int),
                    !fancy_lengths_clash(specs@),
                    pt == multi_point(ndim as nat, specs@, i as int),
                    point@ =~= pt.take(d4 as int),
                decreases ndim - d4,
            {
                let x = match &specs[d4] {
                    IndexSpec::Indices(v) => {
                        assert(fancy_vec(specs@[d4 as int]).len() == b || fancy_vec(specs@[d4 as int]).len() == 1);
                        if v.len() == 1 {
                            v[0]
                        } else {
                            v[i]
                        }
                    },
                    IndexSpec::Index(k) => *k,
                    IndexSpec::Slice(st, _, _) => *st,
                    _ => 0,
                };
                point.push(x);
                d4 = d4 + 1;
                assert(point@ =~= pt.take(d4 as int));
            }
            assert(point@ =~= pt);
            match self.get(point.as_slice()) {
                Ok(x) => {
                    out.push(x);
                },
                Err(_) => {
                    assert(!in_bounds(self@.shape, multi_point(self@.shape.len(), specs@, i as int)));
                    return Err(NumRs2Error::IndexOutOfBounds(message("index out of bounds")));
                },
            }
            i = i + 1;
        }
        let r = Array::from_vec(out);
        assert(r@.data =~= Seq::new(b as nat, |q: int| self@.at(multi_point(ndim as nat, specs@, q))));
        Ok(r)
    }

    /// Boolean indexing along axis `dim`.
    fn bool_index(&self, dim: usize, mask: &Vec<bool>) -> (r: Result<Self>)
        ensures
            outcome(bool_index_spec(self@, dim as int, mask@), r),
    {
        let shape = self.shape_ref();
        if dim >= shape.len() {
            return Err(NumRs2Error::DimensionMismatch(message("dimension out of bounds")));
        }
        if mask.len() != shape[dim] {
            let mut expected: Vec<usize> = Vec::new();
            expected.push(shape[dim]);
            let mut actual: Vec<usize> = Vec::new();
            actual.push(mask.len());
            return Err(NumRs2Error::ShapeMismatch { expected, actual });
        }
        let tp = true_positions_exec(mask.as_slice());
        if tp.len() == 0 {
            let mut es = copy_slice(shape.as_slice());
            es.set(dim, 0);
            proof {
                crate::array::lemma_zero_dim_size(es@, dim as int);
            }
            assert(es@ =~= self@.shape.update(dim as int, 0));
            let r = Array::from_parts(es, Vec::new());
            assert(r@.data =~= Seq::<T>::empty());
            return Ok(r);
        }
        proof {
            crate::indexing::lemma_count_true_le(mask@);
            lemma_size_update_le(shape@, dim as int, tp@.len() as usize);
        }
        let _n = self.size();
        let r = self.take_along_axis(dim, tp.as_slice());
        proof {
            lemma_take_along(self@, dim as int, tp@, r@);
        }
        Ok(r)
    }

    /// Indexes the array with one specification per axis (fewer leave the
    /// remaining axes whole), as `index_spec` describes; positions that
    /// fancy indexing leaves unwritten hold `fill`.
    pub fn index_with_fill(&self, index_specs: &[IndexSpec], fill: T) -> (r: Result<Self>)
        requires
            index_admissible(self@.shape, index_specs@),
        ensures
            outcome(index_spec(self@, index_specs@, fill), r),
    {
        let ndim = self.ndim();
        let len = index_specs.len();
        if len == 0 {
            let shape = self.shape();
            let data = self.to_vec();
            return Ok(Array::from_parts(shape, data));
        }
        if len > ndim {
            return Err(NumRs2Error::DimensionMismatch(message("too many indices")));
        }
        proof {
            lemma_first_mask(index_specs@, 0);
            lemma_first_fancy(index_specs@, 0);
        }
        let mut d: usize = len;
        let mut first_mask: Option<usize> = None;
        while d > 0
            invariant
                d <= len,
                len == index_specs@.len(),
                match first_mask_from(index_specs@, d as int) {
                    Some(x) => first_mask == Some(x as usize),
                    None => first_mask is None,
                },
            decreases d,
        {
            d = d - 1;
            match &index_specs[d] {
                IndexSpec::Mask(_) => {
                    first_mask = Some(d);
                },
                _ => {},
            }
        }
        match first_mask {
            Some(m) => {
                return match &index_specs[m] {
                    IndexSpec::Mask(mask) => self.bool_index(m, mask),
                    _ => Err(NumRs2Error::InvalidOperation(message("no mask"))),
                };
            },
            None => {},
        }
        let mut c: usize = 0;
        let mut first_fancy: Option<usize> = None;
        let mut e: usize = len;
        while e > 0
            invariant
                e <= len,
                len == index_specs@.len(),
                match first_fancy_from(index_specs@, e as int) {
                    Some(x) => first_fancy == Some(x as usize),
                    None => first_fancy is None,
                },
                c == fancy_count(index_specs@, len as int) - fancy_count(index_specs@, e as int),
                c <= len - e,
                c > 0 ==> first_fancy is Some,
            decreases e,
        {
            e = e - 1;
            match &index_specs[e] {
                IndexSpec::Indices(_) => {
                    first_fancy = Some(e);
                    c = c + 1;
                },
                _ => {},
            }
        }
        proof {
            lemma_first_fancy(index_specs@, 0);
        }
        if c == 0 {
            return self.basic_index(index_specs, None);
        }
        if c == 1 {
            let f = match first_fancy {
                Some(f) => f,
                None => 0,
            };
            assert(first_fancy_from(index_specs@, 0) == Some(f as int));
            assert(fancy_count(index_specs@, len as int) == 1);
            return match &index_specs[f] {
                IndexSpec::Indices(v) => {
                    assert(fancy_vec(index_specs@[f as int]) == v@);
                    self.fancy_single(index_specs, f, v, fill)
                },
                _ => Err(NumRs2Error::InvalidOperation(message("no integer array"))),
            };
        }
        self.multi_fancy(index_specs)
    }
}

impl<T: Copy + Default> Array<T> {
    /// Indexes the array with one specification per axis, as
    /// `index_with_fill` does with the element type's default value (zero
    /// for the numeric types) as the fill.
    pub fn index(&self, index_specs: &[IndexSpec]) -> (r: Result<Self>)
        requires
            index_admissible(self@.shape, index_specs@),
        ensures
            exists|z: T| call_ensures(T::default, (), z) && outcome(index_spec(self@, index_specs@, z), r),
    {
        let fill = T::default();
        self.index_with_fill(index_specs, fill)
    }
}

} // verus!
