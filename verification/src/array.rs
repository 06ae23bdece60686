//! The array type: a shape together with a row-major buffer of elements.

use vstd::prelude::*;
use crate::error::{NumRs2Error, Result, message};
use crate::shape::{
    shape_size, in_bounds, flat_index, unflatten, lemma_flat_index_bounds, lemma_unflatten,
    lemma_flat_index_1d, lemma_size_positive, lemma_size_reverse, lemma_in_bounds_reverse,
    lemma_reverse_reverse,
};

verus! {

/// Mathematical model of an array: its shape and its elements in row-major
/// order.
pub struct ArrayModel<T> {
    pub shape: Seq<usize>,
    pub data: Seq<T>,
}

impl<T> ArrayModel<T> {
    /// The buffer holds exactly as many elements as the shape describes.
    pub open spec fn well_formed(self) -> bool {
        self.data.len() == shape_size(self.shape)
    }

    /// The element at multi-index `idx`.
    pub open spec fn at(self, idx: Seq<usize>) -> T {
        self.data[flat_index(self.shape, idx)]
    }
}

/// An n-dimensional array stored in row-major order.
#[derive(Debug)]
pub struct Array<T> {
    shape: Vec<usize>,
    data: Vec<T>,
}

impl<T> View for Array<T> {
    type V = ArrayModel<T>;

    closed spec fn view(&self) -> ArrayModel<T> {
        ArrayModel { shape: self.shape@, data: self.data@ }
    }
}

/// Copies the elements of a slice into a new vector.
pub(crate) fn copy_slice<T: Copy>(v: &[T]) -> (r: Vec<T>)
    ensures
        r@ == v@,
{
    let mut r: Vec<T> = Vec::with_capacity(v.len());
    let mut i: usize = 0;
    while i < v.len()
        invariant
            i <= v.len(),
            r@ == v@.take(i as int),
        decreases v.len() - i,
    {
        r.push(v[i]);
        i = i + 1;
        assert(r@ =~= v@.take(i as int));
    }
    assert(v@.take(v.len() as int) =~= v@);
    r
}

/// The product of the dimensions, or `None` where it does not fit a `usize`.
pub(crate) fn checked_shape_size(shape: &[usize]) -> (r: Option<usize>)
    ensures
        r matches Some(n) ==> n == shape_size(shape@),
        r is None ==> shape_size(shape@) > usize::MAX,
{
    if has_zero_dim(shape) {
        return Some(0);
    }
    proof {
        lemma_size_positive(shape@);
    }
    let mut acc: usize = 1;
    let mut k: usize = 0;
    while k < shape.len()
        invariant
            k <= shape.len(),
            shape_size(shape@) > 0,
            acc == shape_size(shape@.take(k as int)),
        decreases shape.len() - k,
    {
        let ghost prefix = shape@.take(k as int);
        assert(shape@.take(k + 1).drop_last() =~= prefix);
        match acc.checked_mul(shape[k]) {
            Some(p) => {
                acc = p;
            },
            None => {
                proof {
                    lemma_prefix_size_monotone_or_zero(shape@, (k + 1) as int);
                }
                return None;
            },
        }
        k = k + 1;
    }
    assert(shape@.take(shape.len() as int) =~= shape@);
    Some(acc)
}

/// Whether some dimension is zero.
pub(crate) fn has_zero_dim(shape: &[usize]) -> (r: bool)
    ensures
        r == (exists|k: int| 0 <= k < shape@.len() && shape@[k] == 0),
        r ==> shape_size(shape@) == 0,
{
    let mut k: usize = 0;
    while k < shape.len()
        invariant
            k <= shape.len(),
            forall|j: int| 0 <= j < k ==> shape@[j] != 0,
        decreases shape.len() - k,
    {
        if shape[k] == 0 {
            proof {
                lemma_zero_dim_size(shape@, k as int);
            }
            return true;
        }
        k = k + 1;
    }
    false
}

/// A shape with a zero dimension has no elements.
pub proof fn lemma_zero_dim_size(s: Seq<usize>, k: int)
    requires
        0 <= k < s.len(),
        s[k] == 0,
    ensures
        shape_size(s) == 0,
    decreases s.len(),
{
    let a = shape_size(s.drop_last());
    let b = s.last() as nat;
    if k == s.len() - 1 {
        assert(a * b == 0) by (nonlinear_arith)
            requires
                b == 0,
        ;
    } else {
        lemma_zero_dim_size(s.drop_last(), k);
        assert(a * b == 0) by (nonlinear_arith)
            requires
                a == 0,
        ;
    }
}

/// Prefix products either stay below the full product or the full product is
/// zero.
pub proof fn lemma_prefix_size_monotone_or_zero(s: Seq<usize>, k: int)
    requires
        0 <= k <= s.len(),
    ensures
        shape_size(s.take(k)) <= shape_size(s) || shape_size(s) == 0,
    decreases s.len() - k,
{
    if k == s.len() {
        assert(s.take(k) =~= s);
    } else {
        let t = s.take(k + 1);
        lemma_prefix_size_monotone_or_zero(s, k + 1);
        assert(t.drop_last() =~= s.take(k));
        let a = shape_size(s.take(k));
        let b = s[k] as nat;
        assert(shape_size(t) == a * b);
        if b == 0 {
            lemma_zero_dim_size(s, k);
        } else {
            assert(a <= a * b) by (nonlinear_arith)
                requires
                    b >= 1,
            ;
        }
    }
}

/// Position of a multi-index that lies inside the shape.
pub(crate) fn flat_index_exec(shape: &[usize], idx: &[usize]) -> (f: usize)
    requires
        in_bounds(shape@, idx@),
        shape_size(shape@) <= usize::MAX,
    ensures
        f == flat_index(shape@, idx@),
        f < shape_size(shape@),
{
    proof {
        lemma_flat_index_bounds(shape@, idx@);
    }
    let mut f: usize = 0;
    let mut k: usize = 0;
    while k < shape.len()
        invariant
            k <= shape.len(),
            in_bounds(shape@, idx@),
            shape_size(shape@) <= usize::MAX,
            f == flat_index(shape@.take(k as int), idx@.take(k as int)),
        decreases shape.len() - k,
    {
        let ghost s1 = shape@.take(k + 1);
        let ghost i1 = idx@.take(k + 1);
        proof {
            assert(s1.drop_last() =~= shape@.take(k as int));
            assert(i1.drop_last() =~= idx@.take(k as int));
            assert(idx@[k as int] < shape@[k as int]);
            assert(in_bounds(s1, i1));
            lemma_flat_index_bounds(s1, i1);
            lemma_prefix_size_monotone_or_zero(shape@, k + 1);
            lemma_flat_index_bounds(shape@, idx@);
        }
        f = f * shape[k] + idx[k];
        k = k + 1;
    }
    assert(shape@.take(shape.len() as int) =~= shape@);
    assert(idx@.take(shape.len() as int) =~= idx@);
    f
}

/// Multi-index of a position inside the shape.
pub(crate) fn unflatten_exec(shape: &[usize], f: usize) -> (idx: Vec<usize>)
    requires
        f < shape_size(shape@),
    ensures
        idx@ == unflatten(shape@, f as int),
        in_bounds(shape@, idx@),
{
    proof {
        lemma_unflatten(shape@, f as int);
    }
    let mut k: usize = shape.len();
    let mut rem: usize = f;
    let mut tail: Vec<usize> = Vec::new();
    assert(shape@.take(k as int) =~= shape@);
    assert(unflatten(shape@, f as int) + tail@ =~= unflatten(shape@, f as int));
    while k > 0
        invariant
            k <= shape.len(),
            f < shape_size(shape@),
            unflatten(shape@, f as int) == unflatten(shape@.take(k as int), rem as int) + tail@,
        decreases k,
    {
        let ghost t = shape@.take(k as int);
        assert(t.drop_last() =~= shape@.take(k - 1));
        let d = shape[k - 1];
        if d == 0 {
            // No position lies inside a shape with a zero dimension.
            proof {
                lemma_unflatten(shape@, f as int);
                assert(unflatten(shape@, f as int)[k - 1] < shape@[k - 1]);
            }
            return tail;
        }
        let ghost old_tail = tail@;
        tail.insert(0, rem % d);
        assert(unflatten(t, rem as int) =~= unflatten(shape@.take(k - 1), (rem / d) as int).push(
            (rem % d) as usize,
        ));
        assert(unflatten(t, rem as int) + old_tail =~= unflatten(
            shape@.take(k - 1),
            (rem / d) as int,
        ) + tail@);
        rem = rem / d;
        k = k - 1;
    }
    assert(shape@.take(0) =~= Seq::<usize>::empty());
    assert(tail@ =~= unflatten(shape@, f as int));
    tail
}

impl<T: Clone> Clone for Array<T> {
    /// A copy of the array: the same shape, and each element cloned.
    fn clone(&self) -> (r: Self)
        ensures
            r@.shape == self@.shape,
            r@.data.len() == self@.data.len(),
            forall|i: int| 0 <= i < self@.data.len() ==> cloned::<T>(self@.data[i], #[trigger] r@.data[i]),
    {
        proof {
            use_type_invariant(self);
        }
        Array { shape: self.shape.clone(), data: self.data.clone() }
    }
}

impl<T> Array<T> {
    #[verifier::type_invariant]
    pub(crate) closed spec fn inv(self) -> bool {
        self.data@.len() == shape_size(self.shape@)
    }

    /// Builds an array from a shape and a buffer of matching length.
    pub(crate) fn from_parts(shape: Vec<usize>, data: Vec<T>) -> (a: Self)
        requires
            data@.len() == shape_size(shape@),
        ensures
            a@.shape == shape@,
            a@.data == data@,
    {
        Array { shape, data }
    }

    /// Splits the array into its shape and buffer.
    pub(crate) fn into_parts(self) -> (r: (Vec<usize>, Vec<T>))
        ensures
            r.0@ == self@.shape,
            r.1@ == self@.data,
            self@.well_formed(),
    {
        proof {
            use_type_invariant(&self);
        }
        (self.shape, self.data)
    }

    /// The buffer length matches the shape.
    pub(crate) fn well_formed(&self) -> (r: bool)
        ensures
            r,
            self@.well_formed(),
    {
        proof {
            use_type_invariant(self);
        }
        true
    }

    /// Creates a one-dimensional array holding the elements of `v`.
    pub fn from_vec(v: Vec<T>) -> (a: Self)
        ensures
            a@.shape == seq![v@.len() as usize],
            a@.data == v@,
            a@.well_formed(),
    {
        proof {
            lemma_flat_index_1d(v.len(), 0);
        }
        let mut shape: Vec<usize> = Vec::new();
        shape.push(v.len());
        assert(shape@ =~= seq![v@.len() as usize]);
        Array { shape, data: v }
    }

    /// Number of dimensions.
    pub fn ndim(&self) -> (n: usize)
        ensures
            n == self@.shape.len(),
            self@.well_formed(),
    {
        proof {
            use_type_invariant(self);
        }
        self.shape.len()
    }

    /// Total number of elements.
    pub fn size(&self) -> (n: usize)
        ensures
            n == self@.data.len(),
            n == shape_size(self@.shape),
            self@.well_formed(),
    {
        proof {
            use_type_invariant(self);
        }
        self.data.len()
    }

    /// The dimensions of the array.
    pub fn shape(&self) -> (s: Vec<usize>)
        ensures
            s@ == self@.shape,
            self@.well_formed(),
    {
        proof {
            use_type_invariant(self);
        }
        copy_slice(self.shape.as_slice())
    }

    /// The dimensions of the array, borrowed.
    pub(crate) fn shape_ref(&self) -> (s: &Vec<usize>)
        ensures
            s@ == self@.shape,
            self@.well_formed(),
    {
        proof {
            use_type_invariant(self);
        }
        &self.shape
    }

    /// The elements in row-major order, borrowed.
    pub(crate) fn data_ref(&self) -> (s: &Vec<T>)
        ensures
            s@ == self@.data,
            self@.well_formed(),
    {
        proof {
            use_type_invariant(self);
        }
        &self.data
    }
}

impl<T: Copy> Array<T> {
    /// The elements in row-major order.
    pub fn to_vec(&self) -> (v: Vec<T>)
        ensures
            v@ == self@.data,
            self@.well_formed(),
    {
        proof {
            use_type_invariant(self);
        }
        copy_slice(self.data.as_slice())
    }

    /// Element at row-major position `i`.
    pub(crate) fn get_flat(&self, i: usize) -> (x: T)
        requires
            i < self@.data.len(),
        ensures
            x == self@.data[i as int],
    {
        self.data[i]
    }

    /// Replaces the element at row-major position `i`.
    pub(crate) fn set_flat(&mut self, i: usize, value: T)
        requires
            i < old(self)@.data.len(),
        ensures
            final(self)@.shape == old(self)@.shape,
            final(self)@.data == old(self)@.data.update(i as int, value),
            final(self)@.well_formed(),
    {
        proof {
            use_type_invariant(&*self);
            lemma_flat_index_1d(0, 0);
        }
        let mut empty_shape: Vec<usize> = Vec::new();
        empty_shape.push(0);
        assert(empty_shape@ =~= seq![0usize]);
        let mut whole = Array { shape: empty_shape, data: Vec::new() };
        std::mem::swap(&mut whole, self);
        let Array { shape, mut data } = whole;
        data.set(i, value);
        *self = Array { shape, data };
    }

    /// The same elements under another shape with the same number of elements.
    pub fn reshape(&self, shape: &[usize]) -> (a: Self)
        requires
            shape_size(shape@) == self@.data.len(),
        ensures
            a@.shape == shape@,
            a@.data == self@.data,
            a@.well_formed(),
    {
        Array { shape: copy_slice(shape), data: copy_slice(self.data.as_slice()) }
    }

    /// Writes `value` at the multi-index `indices`.
    ///
    /// Fails with `DimensionMismatch` when the number of indices differs from
    /// the number of dimensions, and with `IndexOutOfBounds` when an index
    /// exceeds its dimension; the array is then left unchanged.
    pub fn set(&mut self, indices: &[usize], value: T) -> (r: Result<()>)
        ensures
            final(self)@.shape == old(self)@.shape,
            final(self)@.well_formed(),
            indices@.len() != old(self)@.shape.len() ==> r matches Err(
                NumRs2Error::DimensionMismatch(_),
            ),
            indices@.len() == old(self)@.shape.len() && !in_bounds(old(self)@.shape, indices@)
                ==> r matches Err(NumRs2Error::IndexOutOfBounds(_)),
            r is Err ==> final(self)@ == old(self)@,
            in_bounds(old(self)@.shape, indices@) <==> r is Ok,
            r is Ok ==> final(self)@.data == old(self)@.data.update(
                flat_index(old(self)@.shape, indices@),
                value,
            ),
    {
        proof {
            use_type_invariant(&*self);
        }
        if indices.len() != self.shape.len() {
            return Err(NumRs2Error::DimensionMismatch(message("index count differs from ndim")));
        }
        let mut k: usize = 0;
        while k < indices.len()
            invariant
                k <= indices.len(),
                indices@.len() == self.shape@.len(),
                self.data@.len() == shape_size(self.shape@),
                forall|j: int| 0 <= j < k ==> indices@[j] < self.shape@[j],
            decreases indices.len() - k,
        {
            if indices[k] >= self.shape[k] {
                return Err(NumRs2Error::IndexOutOfBounds(message("index out of bounds")));
            }
            k = k + 1;
        }
        let _len = self.data.len();
        let f = flat_index_exec(self.shape.as_slice(), indices);
        proof {
            lemma_flat_index_1d(0, 0);
        }
        let mut empty_shape: Vec<usize> = Vec::new();
        empty_shape.push(0);
        assert(empty_shape@ =~= seq![0usize]);
        let mut whole = Array { shape: empty_shape, data: Vec::new() };
        std::mem::swap(&mut whole, self);
        let Array { shape, mut data } = whole;
        data.set(f, value);
        *self = Array { shape, data };
        Ok(())
    }
}


impl<T: Copy> Array<T> {
    /// Reverses the order of the axes: the element at multi-index `idx` of
    /// the array is at the reversed multi-index of the result.
    pub fn transpose(&self) -> (t: Self)
        ensures
            t@.shape == self@.shape.reverse(),
            t@.well_formed(),
            forall|idx: Seq<usize>|
                #[trigger] in_bounds(self@.shape, idx) ==> t@.at(idx.reverse()) == self@.at(idx),
    {
        proof {
            use_type_invariant(self);
            lemma_size_reverse(self.shape@);
        }
        let n = self.data.len();
        let s = self.shape.as_slice();
        let mut rs: Vec<usize> = Vec::with_capacity(s.len());
        let mut k: usize = s.len();
        while k > 0
            invariant
                k <= s@.len(),
                rs@ == s@.reverse().take((s@.len() - k) as int),
            decreases k,
        {
            rs.push(s[k - 1]);
            k = k - 1;
            assert(rs@ =~= s@.reverse().take((s@.len() - k) as int));
        }
        assert(rs@ =~= s@.reverse());
        let mut out: Vec<T> = Vec::with_capacity(n);
        let mut j: usize = 0;
        while j < n
            invariant
                j <= n,
                n == self.data@.len(),
                n == shape_size(s@),
                n == shape_size(rs@),
                s@ == self.shape@,
                rs@ == s@.reverse(),
                out@.len() == j,
                forall|q: int|
                    0 <= q < j ==> #[trigger] out@[q] == self.data@[flat_index(
                        s@,
                        unflatten(rs@, q).reverse(),
                    )],
            decreases n - j,
        {
            let o = unflatten_exec(rs.as_slice(), j);
            let mut src: Vec<usize> = Vec::with_capacity(o.len());
            let mut q: usize = o.len();
            while q > 0
                invariant
                    q <= o@.len(),
                    src@ == o@.reverse().take((o@.len() - q) as int),
                decreases q,
            {
                src.push(o[q - 1]);
                q = q - 1;
                assert(src@ =~= o@.reverse().take((o@.len() - q) as int));
            }
            assert(src@ =~= o@.reverse());
            proof {
                lemma_in_bounds_reverse(rs@, o@);
                lemma_reverse_reverse(s@);
            }
            let f = flat_index_exec(s, src.as_slice());
            out.push(self.data[f]);
            j = j + 1;
        }
        let t = Array { shape: rs, data: out };
        assert forall|idx: Seq<usize>| #[trigger] in_bounds(self@.shape, idx) implies t@.at(idx.reverse())
            == self@.at(idx) by {
            lemma_in_bounds_reverse(s@, idx);
            lemma_flat_index_bounds(rs@, idx.reverse());
            crate::shape::lemma_unflatten_flat_index(rs@, idx.reverse());
            lemma_reverse_reverse(idx);
        }
        t
    }
}

} // verus!
