//! Shapes, row-major flat indices and the arithmetic facts about them.

use vstd::prelude::*;
use vstd::arithmetic::div_mod::lemma_fundamental_div_mod_converse;

verus! {

/// Number of elements of an array of shape `s` (the product of its
/// dimensions; `1` for the empty shape).
pub open spec fn shape_size(s: Seq<usize>) -> nat
    decreases s.len(),
{
    if s.len() == 0 {
        1
    } else {
        shape_size(s.drop_last()) * (s.last() as nat)
    }
}

/// `idx` addresses an element of an array of shape `s`.
pub open spec fn in_bounds(s: Seq<usize>, idx: Seq<usize>) -> bool {
    &&& idx.len() == s.len()
    &&& forall|k: int| 0 <= k < s.len() ==> #[trigger] idx[k] < s[k]
}

/// Row-major position of the multi-index `idx` in an array of shape `s`.
pub open spec fn flat_index(s: Seq<usize>, idx: Seq<usize>) -> int
    decreases s.len(),
{
    if s.len() == 0 {
        0
    } else {
        flat_index(s.drop_last(), idx.drop_last()) * (s.last() as int) + idx.last() as int
    }
}

/// Multi-index of the row-major position `f` in an array of shape `s`.
pub open spec fn unflatten(s: Seq<usize>, f: int) -> Seq<usize>
    decreases s.len(),
{
    if s.len() == 0 {
        seq![]
    } else {
        unflatten(s.drop_last(), f / (s.last() as int)).push((f % (s.last() as int)) as usize)
    }
}

proof fn lemma_row_major_step(q: int, n: int, i: int, d: int)
    requires
        0 <= q < n,
        0 <= i < d,
    ensures
        0 <= q * d + i < n * d,
{
    assert(q * d <= (n - 1) * d) by (nonlinear_arith)
        requires
            0 <= q < n,
            0 <= d,
    ;
    assert((n - 1) * d == n * d - d) by (nonlinear_arith);
    assert(0 <= q * d) by (nonlinear_arith)
        requires
            0 <= q,
            0 <= d,
    ;
}

proof fn lemma_size_nonneg_step(a: nat, b: nat)
    ensures
        a * b >= 0,
        b > 0 && a * b > 0 ==> a > 0,
        a * b > 0 ==> b > 0,
{
    assert(a * b >= 0) by (nonlinear_arith);
    if a * b > 0 {
        assert(b > 0 && a > 0) by (nonlinear_arith)
            requires
                a * b > 0,
        ;
    }
}

/// A multi-index inside the shape lands inside the buffer.
pub proof fn lemma_flat_index_bounds(s: Seq<usize>, idx: Seq<usize>)
    requires
        in_bounds(s, idx),
    ensures
        0 <= flat_index(s, idx) < shape_size(s),
    decreases s.len(),
{
    if s.len() > 0 {
        let s0 = s.drop_last();
        let i0 = idx.drop_last();
        assert(in_bounds(s0, i0)) by {
            assert forall|k: int| 0 <= k < s0.len() implies #[trigger] i0[k] < s0[k] by {
                assert(idx[k] < s[k]);
            }
        }
        lemma_flat_index_bounds(s0, i0);
        assert(idx[idx.len() - 1] < s[s.len() - 1]);
        lemma_row_major_step(
            flat_index(s0, i0),
            shape_size(s0) as int,
            idx.last() as int,
            s.last() as int,
        );
    }
}

/// Every position of the buffer is the position of the multi-index that
/// `unflatten` gives for it.
pub proof fn lemma_unflatten(s: Seq<usize>, f: int)
    requires
        0 <= f < shape_size(s),
    ensures
        in_bounds(s, unflatten(s, f)),
        flat_index(s, unflatten(s, f)) == f,
    decreases s.len(),
{
    if s.len() > 0 {
        let s0 = s.drop_last();
        let d = s.last() as int;
        lemma_size_nonneg_step(shape_size(s0), s.last() as nat);
        assert(d > 0);
        let q = f / d;
        let r = f % d;
        assert(f == q * d + r && 0 <= r < d) by {
            vstd::arithmetic::div_mod::lemma_fundamental_div_mod(f, d);
            vstd::arithmetic::div_mod::lemma_mod_bound(f, d);
            assert(d * (f / d) == (f / d) * d) by (nonlinear_arith);
        }
        assert(0 <= q < shape_size(s0)) by {
            if q < 0 {
                assert(q * d < 0) by (nonlinear_arith)
                    requires
                        q < 0,
                        d > 0,
                ;
            }
            if q >= shape_size(s0) {
                assert(q * d >= (shape_size(s0) as int) * d) by (nonlinear_arith)
                    requires
                        q >= shape_size(s0),
                        d > 0,
                ;
            }
        }
        lemma_unflatten(s0, q);
        let u = unflatten(s, f);
        assert(u.drop_last() =~= unflatten(s0, q));
        assert forall|k: int| 0 <= k < s.len() implies #[trigger] u[k] < s[k] by {
            if k < s.len() - 1 {
                assert(u[k] == unflatten(s0, q)[k]);
            }
        }
    }
}

/// Row-major positions determine their multi-index.
pub proof fn lemma_unflatten_flat_index(s: Seq<usize>, idx: Seq<usize>)
    requires
        in_bounds(s, idx),
    ensures
        unflatten(s, flat_index(s, idx)) == idx,
    decreases s.len(),
{
    if s.len() > 0 {
        let s0 = s.drop_last();
        let i0 = idx.drop_last();
        assert(in_bounds(s0, i0)) by {
            assert forall|k: int| 0 <= k < s0.len() implies #[trigger] i0[k] < s0[k] by {
                assert(idx[k] < s[k]);
            }
        }
        lemma_unflatten_flat_index(s0, i0);
        let d = s.last() as int;
        assert(idx[idx.len() - 1] < s[s.len() - 1]);
        let q = flat_index(s0, i0);
        let r = idx.last() as int;
        lemma_fundamental_div_mod_converse(q * d + r, d, q, r);
        assert(unflatten(s, flat_index(s, idx)) =~= idx);
    }
}

/// Two multi-indices inside the shape with the same position are equal.
pub proof fn lemma_flat_index_injective(s: Seq<usize>, a: Seq<usize>, b: Seq<usize>)
    requires
        in_bounds(s, a),
        in_bounds(s, b),
        flat_index(s, a) == flat_index(s, b),
    ensures
        a == b,
{
    lemma_unflatten_flat_index(s, a);
    lemma_unflatten_flat_index(s, b);
}

/// Row-major position in a matrix: row `i`, column `j` of an `r` by `c`
/// matrix is at `i * c + j`.
pub proof fn lemma_flat_index_2d(r: usize, c: usize, i: usize, j: usize)
    ensures
        flat_index(seq![r, c], seq![i, j]) == i * c + j,
        shape_size(seq![r, c]) == r * c,
{
    let s = seq![r, c];
    let idx = seq![i, j];
    assert(s.drop_last() =~= seq![r]);
    assert(idx.drop_last() =~= seq![i]);
    assert(seq![r].drop_last() =~= Seq::<usize>::empty());
    assert(seq![i].drop_last() =~= Seq::<usize>::empty());
    lemma_flat_index_1d(r, i);
}

/// A one-dimensional array of length `n` has `n` elements, stored in order.
pub proof fn lemma_flat_index_1d(n: usize, i: usize)
    ensures
        flat_index(seq![n], seq![i]) == i,
        shape_size(seq![n]) == n,
{
    let s = seq![n];
    let idx = seq![i];
    assert(s.drop_last() =~= Seq::<usize>::empty());
    assert(idx.drop_last() =~= Seq::<usize>::empty());
    assert(s.last() == n);
    assert(idx.last() == i);
    assert(flat_index(Seq::<usize>::empty(), Seq::<usize>::empty()) == 0);
    assert(shape_size(Seq::<usize>::empty()) == 1);
    assert(shape_size(s) == shape_size(s.drop_last()) * (s.last() as nat));
    assert(flat_index(s, idx) == flat_index(s.drop_last(), idx.drop_last()) * (s.last() as int)
        + idx.last() as int);
}

/// A shape whose dimensions are all positive has a positive number of
/// elements.
pub proof fn lemma_size_positive(s: Seq<usize>)
    requires
        forall|k: int| 0 <= k < s.len() ==> #[trigger] s[k] > 0,
    ensures
        shape_size(s) > 0,
    decreases s.len(),
{
    if s.len() > 0 {
        let s0 = s.drop_last();
        assert forall|k: int| 0 <= k < s0.len() implies #[trigger] s0[k] > 0 by {
            assert(s[k] > 0);
        }
        lemma_size_positive(s0);
        let a = shape_size(s0);
        let b = s.last() as nat;
        assert(s[s.len() - 1] > 0);
        assert(a * b > 0) by (nonlinear_arith)
            requires
                a > 0,
                b > 0,
        ;
    }
}


/// Shrinking one dimension does not grow the number of elements.
pub proof fn lemma_size_update_le(s: Seq<usize>, ax: int, n: usize)
    requires
        0 <= ax < s.len(),
        n <= s[ax],
    ensures
        shape_size(s.update(ax, n)) <= shape_size(s),
    decreases s.len(),
{
    let t = s.update(ax, n);
    let a = shape_size(s.drop_last());
    let b = s.last() as nat;
    if ax == s.len() - 1 {
        assert(t.drop_last() =~= s.drop_last());
        assert(a * (n as nat) <= a * b) by (nonlinear_arith)
            requires
                n <= b,
        ;
    } else {
        assert(t.drop_last() =~= s.drop_last().update(ax, n));
        lemma_size_update_le(s.drop_last(), ax, n);
        let a2 = shape_size(t.drop_last());
        assert(t.last() == s.last());
        assert(a2 * b <= a * b) by (nonlinear_arith)
            requires
                a2 <= a,
        ;
    }
}


/// The number of elements is also the first dimension times the number of
/// elements of the remaining dimensions.
pub proof fn lemma_size_first(s: Seq<usize>)
    requires
        s.len() > 0,
    ensures
        shape_size(s) == (s[0] as nat) * shape_size(s.drop_first()),
    decreases s.len(),
{
    if s.len() == 1 {
        assert(s.drop_last() =~= Seq::<usize>::empty());
        assert(s.drop_first() =~= Seq::<usize>::empty());
        assert(s.last() == s[0]);
        let a = s[0] as nat;
        assert(1 * a == a * 1) by (nonlinear_arith);
    } else {
        let s0 = s.drop_last();
        lemma_size_first(s0);
        assert(s0.drop_first() =~= s.drop_first().drop_last());
        assert(s.drop_first().last() == s.last());
        let a = s[0] as nat;
        let b = shape_size(s0.drop_first());
        let c = s.last() as nat;
        assert(shape_size(s) == (a * b) * c);
        assert(shape_size(s.drop_first()) == b * c);
        assert((a * b) * c == a * (b * c)) by (nonlinear_arith);
    }
}

/// Reversing the dimensions keeps the number of elements.
pub proof fn lemma_size_reverse(s: Seq<usize>)
    ensures
        shape_size(s.reverse()) == shape_size(s),
    decreases s.len(),
{
    if s.len() > 0 {
        let r = s.reverse();
        let t = s.drop_first();
        assert(r.drop_last() =~= t.reverse());
        assert(r.last() == s[0]);
        lemma_size_reverse(t);
        lemma_size_first(s);
        let a = s[0] as nat;
        let b = shape_size(t);
        assert(b * a == a * b) by (nonlinear_arith);
    } else {
        assert(s.reverse() =~= s);
    }
}

/// Reversing a shape and a multi-index together keeps the multi-index inside
/// the shape.
pub proof fn lemma_in_bounds_reverse(s: Seq<usize>, idx: Seq<usize>)
    requires
        in_bounds(s, idx),
    ensures
        in_bounds(s.reverse(), idx.reverse()),
{
    let n = s.len();
    if n > 0 {
        assert forall|k: int| 0 <= k < n implies #[trigger] idx.reverse()[k] < s.reverse()[k] by {
            assert(idx[n - 1 - k] < s[n - 1 - k]);
        }
    }
}

/// Reversing twice gives the sequence back.
pub proof fn lemma_reverse_reverse<A>(s: Seq<A>)
    ensures
        s.reverse().reverse() == s,
{
    if s.len() > 0 {
        assert(s.reverse().reverse() =~= s);
    } else {
        assert(s.reverse().reverse() =~= s);
    }
}

} // verus!
