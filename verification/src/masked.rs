//! Masked arrays: an array of data together with a boolean mask of the same
//! shape, where a true mask entry marks the element as masked (invalid).

use vstd::prelude::*;
use vstd::std_specs::cmp::PartialEqSpec;
use crate::array::{Array, ArrayModel, copy_slice};
use crate::error::{NumRs2Error, Result};
use crate::indexing::{count_true, select_where, check_indices};
use crate::arith::CheckedArith;
use crate::shape::{shape_size, in_bounds};

verus! {

/// Mathematical model of a masked array.
pub struct MaskedModel<T> {
    pub data: ArrayModel<T>,
    pub mask: ArrayModel<bool>,
    pub fill: T,
    /// The mask is hard: `set` leaves it unchanged.
    pub hard: bool,
}

impl<T> MaskedModel<T> {
    /// Data and mask are well formed and share one shape.
    pub open spec fn well_formed(self) -> bool {
        &&& self.data.well_formed()
        &&& self.mask.well_formed()
        &&& self.data.shape == self.mask.shape
    }
}

/// Negation of every entry of a mask.
pub open spec fn negate(mask: Seq<bool>) -> Seq<bool> {
    mask.map_values(|b: bool| !b)
}

/// A masked array: data, a mask of the same shape (true = masked) and the
/// value that stands for masked elements.
pub struct MaskedArray<T> {
    data: Array<T>,
    mask: Array<bool>,
    fill_value: T,
    hard_mask: bool,
}

impl<T> View for MaskedArray<T> {
    type V = MaskedModel<T>;

    closed spec fn view(&self) -> MaskedModel<T> {
        MaskedModel { data: self.data@, mask: self.mask@, fill: self.fill_value, hard: self.hard_mask }
    }
}

/// A mask of `n` entries all equal to `b`.
fn constant_mask(n: usize, b: bool) -> (v: Vec<bool>)
    ensures
        v@ == Seq::new(n as nat, |i: int| b),
{
    let mut v: Vec<bool> = Vec::with_capacity(n);
    let mut i: usize = 0;
    while i < n
        invariant
            i <= n,
            v@ == Seq::new(i as nat, |k: int| b),
        decreases n - i,
    {
        v.push(b);
        i = i + 1;
        assert(v@ =~= Seq::new(i as nat, |k: int| b));
    }
    v
}

impl<T> MaskedArray<T> {
    #[verifier::type_invariant]
    closed spec fn inv(self) -> bool {
        self.data@.shape == self.mask@.shape
    }

    fn from_parts(data: Array<T>, mask: Array<bool>, fill_value: T) -> (m: Self)
        requires
            data@.shape == mask@.shape,
        ensures
            m@ == (MaskedModel { data: data@, mask: mask@, fill: fill_value, hard: false }),
    {
        MaskedArray { data, mask, fill_value, hard_mask: false }
    }

    /// The data and mask are well formed and share their shape.
    pub fn well_formed(&self) -> (r: bool)
        ensures
            r,
            self@.well_formed(),
    {
        proof {
            use_type_invariant(self);
        }
        self.data.well_formed();
        self.mask.well_formed();
        true
    }

    /// The underlying data array.
    pub fn get_data(&self) -> (d: &Array<T>)
        ensures
            d@ == self@.data,
    {
        &self.data
    }

    /// The mask array (true = masked).
    pub fn get_mask(&self) -> (m: &Array<bool>)
        ensures
            m@ == self@.mask,
    {
        &self.mask
    }

    /// Replaces the fill value.
    pub fn set_fill_value(&mut self, value: T)
        ensures
            final(self)@ == (MaskedModel { fill: value, ..old(self)@ }),
    {
        proof {
            use_type_invariant(&*self);
        }
        self.fill_value = value;
    }

    /// The shape of the array.
    pub fn shape(&self) -> (s: Vec<usize>)
        ensures
            s@ == self@.data.shape,
    {
        self.data.shape()
    }

    /// The number of dimensions.
    pub fn ndim(&self) -> (n: usize)
        ensures
            n == self@.data.shape.len(),
    {
        self.data.ndim()
    }

    /// The total number of elements.
    pub fn size(&self) -> (n: usize)
        ensures
            n == self@.data.data.len(),
            n == shape_size(self@.data.shape),
    {
        self.data.size()
    }

    /// The number of masked (invalid) elements.
    pub fn count_masked(&self) -> (n: usize)
        ensures
            n == count_true(self@.mask.data),
    {
        let m = self.mask.data_ref();
        let mut n: usize = 0;
        let mut i: usize = 0;
        while i < m.len()
            invariant
                i <= m@.len(),
                n == count_true(m@.take(i as int)),
                n <= i,
            decreases m@.len() - i,
        {
            assert(m@.take(i + 1).drop_last() =~= m@.take(i as int));
            if m[i] {
                n = n + 1;
            }
            i = i + 1;
        }
        assert(m@.take(m@.len() as int) =~= m@);
        n
    }

    /// The number of unmasked (valid) elements.
    pub fn count_valid(&self) -> (n: usize)
        ensures
            n == self@.data.data.len() - count_true(self@.mask.data),
    {
        self.well_formed();
        let masked = self.count_masked();
        proof {
            crate::indexing::lemma_count_true_le(self@.mask.data);
        }
        self.size() - masked
    }
}

impl<T: Copy> MaskedArray<T> {
    /// Creates a masked array from data, an optional mask of the same shape
    /// (all elements unmasked when absent) and an optional fill value (the
    /// type's default when absent).
    ///
    /// Fails with `ShapeMismatch` when the mask's shape differs from the
    /// data's.
    pub fn new(data: Array<T>, mask: Option<Array<bool>>, fill_value: Option<T>) -> (r: Result<Self>)
        where T: Default,
        ensures
            r matches Ok(ma) ==> !ma@.hard,
            match mask {
                Some(m) => m@.shape != data@.shape ==> (r matches Err(
                    NumRs2Error::ShapeMismatch { expected, actual },
                ) && expected@ == data@.shape && actual@ == m@.shape),
                None => true,
            },
            r matches Ok(ma) ==> {
                &&& ma@.data == data@
                &&& ma@.mask.shape == data@.shape
                &&& ma@.mask.data == match mask {
                    Some(m) => m@.data,
                    None => Seq::new(data@.data.len(), |i: int| false),
                }
                &&& ma@.well_formed()
                &&& fill_value matches Some(f) ==> ma@.fill == f
                &&& fill_value is None ==> call_ensures(T::default, (), ma@.fill)
            },
            (match mask {
                Some(m) => m@.shape == data@.shape,
                None => true,
            }) ==> r is Ok,
    {
        let _ = data.well_formed();
        let shape = data.shape();
        let mask_array = match mask {
            Some(m) => {
                let ms = m.shape_ref();
                if !crate::indexing::usize_slices_equal(ms.as_slice(), shape.as_slice()) {
                    let actual = copy_slice(ms.as_slice());
                    return Err(NumRs2Error::ShapeMismatch { expected: shape, actual });
                }
                m
            },
            None => {
                let n = data.size();
                Array::from_vec(constant_mask(n, false)).reshape(shape.as_slice())
            },
        };
        let fill = match fill_value {
            Some(f) => f,
            None => T::default(),
        };
        Ok(MaskedArray::from_parts(data, mask_array, fill))
    }

    /// Creates a masked array in which the elements equal to `value` are
    /// masked.
    pub fn masked_values(data: Array<T>, value: T, fill_value: Option<T>) -> (r: Result<Self>)
        where T: Default + PartialEq,
        ensures
            r matches Ok(ma) ==> !ma@.hard,
            r matches Ok(ma) && ma@.data == data@ && ma@.well_formed() && ma@.mask.shape == data@.shape
                && ma@.mask.data.len() == data@.data.len() && (T::obeys_eq_spec() ==> forall|i: int|
                0 <= i < data@.data.len() ==> #[trigger] ma@.mask.data[i] == data@.data[i].eq_spec(
                    &value,
                )) && (fill_value matches Some(f) ==> ma@.fill == f) && (fill_value is None
                ==> call_ensures(T::default, (), ma@.fill)),
    {
        let _ = data.well_formed();
        let shape = data.shape();
        let d = data.data_ref();
        let mut mv: Vec<bool> = Vec::with_capacity(d.len());
        let mut i: usize = 0;
        while i < d.len()
            invariant
                i <= d@.len(),
                mv@.len() == i,
                T::obeys_eq_spec() ==> forall|k: int|
                    0 <= k < i ==> #[trigger] mv@[k] == d@[k].eq_spec(&value),
            decreases d@.len() - i,
        {
            let e = d[i] == value;
            mv.push(e);
            i = i + 1;
        }
        let mask_array = Array::from_vec(mv).reshape(shape.as_slice());
        let fill = match fill_value {
            Some(f) => f,
            None => T::default(),
        };
        Ok(MaskedArray::from_parts(data, mask_array, fill))
    }

    /// Creates a masked array whose mask is `condition`.
    ///
    /// Fails with `ShapeMismatch` when the condition's shape differs from the
    /// data's.
    pub fn masked_where(data: Array<T>, condition: Array<bool>, fill_value: Option<T>) -> (r: Result<Self>)
        where T: Default,
        ensures
            r matches Ok(ma) ==> !ma@.hard,
            condition@.shape != data@.shape ==> (r matches Err(
                NumRs2Error::ShapeMismatch { expected, actual },
            ) && expected@ == data@.shape && actual@ == condition@.shape),
            condition@.shape == data@.shape ==> (r matches Ok(ma) && ma@.data == data@ && ma@.mask
                == condition@ && ma@.well_formed() && (fill_value matches Some(f) ==> ma@.fill == f)
                && (fill_value is None ==> call_ensures(T::default, (), ma@.fill))),
    {
        let _ = data.well_formed();
        let _ = condition.well_formed();
        let shape = data.shape();
        let cs = condition.shape_ref();
        if !crate::indexing::usize_slices_equal(shape.as_slice(), cs.as_slice()) {
            let actual = copy_slice(cs.as_slice());
            return Err(NumRs2Error::ShapeMismatch { expected: shape, actual });
        }
        let fill = match fill_value {
            Some(f) => f,
            None => T::default(),
        };
        Ok(MaskedArray::from_parts(data, condition, fill))
    }

    /// Creates a masked array with every element masked.
    pub fn masked_all(data: Array<T>, fill_value: Option<T>) -> (r: Result<Self>)
        where T: Default,
        ensures
            r matches Ok(ma) ==> !ma@.hard,
            r matches Ok(ma) && ma@.data == data@ && ma@.well_formed() && ma@.mask.data == Seq::new(
                data@.data.len(),
                |i: int| true,
            ) && (fill_value matches Some(f) ==> ma@.fill == f) && (fill_value is None
                ==> call_ensures(T::default, (), ma@.fill)),
    {
        let _ = data.well_formed();
        let shape = data.shape();
        let n = data.size();
        let mask_array = Array::from_vec(constant_mask(n, true)).reshape(shape.as_slice());
        let fill = match fill_value {
            Some(f) => f,
            None => T::default(),
        };
        Ok(MaskedArray::from_parts(data, mask_array, fill))
    }

    /// The fill value.
    pub fn get_fill_value(&self) -> (f: T)
        ensures
            f == self@.fill,
    {
        self.fill_value
    }

    /// A copy of the data in which masked elements are replaced by
    /// `fill_value`, or by the array's fill value when none is given.
    pub fn filled(&self, fill_value: Option<T>) -> (a: Array<T>)
        ensures
            a@.shape == self@.data.shape,
            a@.well_formed(),
            a@.data.len() == self@.data.data.len(),
            forall|i: int|
                0 <= i < self@.data.data.len() ==> #[trigger] a@.data[i] == if self@.mask.data[i] {
                    match fill_value {
                        Some(f) => f,
                        None => self@.fill,
                    }
                } else {
                    self@.data.data[i]
                },
    {
        self.well_formed();
        let fill = match fill_value {
            Some(f) => f,
            None => self.fill_value,
        };
        let d = self.data.data_ref();
        let m = self.mask.data_ref();
        let mut out: Vec<T> = Vec::with_capacity(d.len());
        let mut i: usize = 0;
        while i < d.len()
            invariant
                i <= d@.len(),
                d@.len() == m@.len(),
                out@.len() == i,
                forall|k: int| 0 <= k < i ==> #[trigger] out@[k] == if m@[k] { fill } else { d@[k] },
            decreases d@.len() - i,
        {
            if m[i] {
                out.push(fill);
            } else {
                out.push(d[i]);
            }
            i = i + 1;
        }
        let shape = self.data.shape_ref();
        Array::from_vec(out).reshape(shape.as_slice())
    }

    /// The unmasked elements, in row-major order, as a one-dimensional array.
    pub fn compressed(&self) -> (a: Array<T>)
        ensures
            a@.data == select_where(self@.data.data, negate(self@.mask.data)),
            a@.shape == seq![a@.data.len() as usize],
            a@.well_formed(),
    {
        self.well_formed();
        let d = self.data.data_ref();
        let m = self.mask.data_ref();
        let mut keep: Vec<bool> = Vec::with_capacity(m.len());
        let mut i: usize = 0;
        while i < m.len()
            invariant
                i <= m@.len(),
                keep@ == negate(m@).take(i as int),
            decreases m@.len() - i,
        {
            keep.push(!m[i]);
            i = i + 1;
            assert(keep@ =~= negate(m@).take(i as int));
        }
        assert(keep@ =~= negate(m@));
        let out = crate::indexing::select_where_exec(d.as_slice(), keep.as_slice());
        Array::from_vec(out)
    }

    /// A copy of the array whose mask is hard: `set` cannot change it.
    pub fn harden_mask(&self) -> (m: Self)
        ensures
            m@ == (MaskedModel { hard: true, ..self@ }),
    {
        let mut c = self.copy();
        proof {
            use_type_invariant(&c);
        }
        c.hard_mask = true;
        c
    }

    /// A copy of the array whose mask is soft: `set` may change it.
    pub fn soften_mask(&self) -> (m: Self)
        ensures
            m@ == (MaskedModel { hard: false, ..self@ }),
    {
        let mut c = self.copy();
        proof {
            use_type_invariant(&c);
        }
        c.hard_mask = false;
        c
    }

    /// Whether the mask is hard.
    pub fn is_hard_mask(&self) -> (r: bool)
        ensures
            r == self@.hard,
    {
        self.hard_mask
    }

    /// A copy of the array.
    pub fn copy(&self) -> (m: Self)
        ensures
            m@ == self@,
    {
        self.well_formed();
        let ds = self.data.shape_ref();
        let ms = self.mask.shape_ref();
        let d = self.data.reshape(ds.as_slice());
        let k = self.mask.reshape(ms.as_slice());
        let mut c = MaskedArray::from_parts(d, k, self.fill_value);
        c.hard_mask = self.hard_mask;
        c
    }

    /// The element at `indices`, or the fill value when that element is
    /// masked.
    ///
    /// Fails with `DimensionMismatch` when the number of indices differs from
    /// the number of dimensions and with `IndexOutOfBounds` when an index
    /// exceeds its dimension.
    pub fn get(&self, indices: &[usize]) -> (r: Result<T>)
        ensures
            indices@.len() != self@.data.shape.len() ==> (r matches Err(
                NumRs2Error::DimensionMismatch(_),
            )),
            indices@.len() == self@.data.shape.len() && !in_bounds(self@.data.shape, indices@) ==> (r matches Err(
                NumRs2Error::IndexOutOfBounds(_),
            )),
            in_bounds(self@.data.shape, indices@) ==> r == Ok::<T, NumRs2Error>(
                if self@.mask.at(indices@) {
                    self@.fill
                } else {
                    self@.data.at(indices@)
                },
            ),
    {
        self.well_formed();
        let shape = self.data.shape_ref();
        match check_indices(shape.as_slice(), indices) {
            Err(e) => Err(e),
            Ok(()) => {
                let masked = match self.mask.get(indices) {
                    Ok(b) => b,
                    Err(e) => {
                        return Err(e);
                    },
                };
                if masked {
                    Ok(self.fill_value)
                } else {
                    self.data.get(indices)
                }
            },
        }
    }

    /// Writes `value` at `indices` and, when `mask` is given and the mask is
    /// not hard, sets the mask entry there.
    ///
    /// Fails like `Array::set` on the data, leaving the array unchanged.
    pub fn set(&mut self, indices: &[usize], value: T, mask: Option<bool>) -> (r: Result<()>)
        ensures
            final(self)@.well_formed(),
            final(self)@.fill == old(self)@.fill,
            final(self)@.hard == old(self)@.hard,
            final(self)@.data.shape == old(self)@.data.shape,
            indices@.len() != old(self)@.data.shape.len() ==> (r matches Err(
                NumRs2Error::DimensionMismatch(_),
            )),
            indices@.len() == old(self)@.data.shape.len() && !in_bounds(old(self)@.data.shape, indices@)
                ==> (r matches Err(NumRs2Error::IndexOutOfBounds(_))),
            r is Err ==> final(self)@ == old(self)@,
            in_bounds(old(self)@.data.shape, indices@) <==> r is Ok,
            r is Ok ==> {
                let f = crate::shape::flat_index(old(self)@.data.shape, indices@);
                &&& final(self)@.data.data == old(self)@.data.data.update(f, value)
                &&& final(self)@.mask.data == match mask {
                    Some(b) => if old(self)@.hard {
                        old(self)@.mask.data
                    } else {
                        old(self)@.mask.data.update(f, b)
                    },
                    None => old(self)@.mask.data,
                }
            },
    {
        self.well_formed();
        let ghost m0 = self@;
        let mut whole = MaskedArray::from_parts(
            Array::from_vec(Vec::new()),
            Array::from_vec(Vec::new()),
            value,
        );
        std::mem::swap(&mut whole, self);
        let MaskedArray { data: mut d, mask: mut k, fill_value, hard_mask } = whole;
        let r = d.set(indices, value);
        match r {
            Err(e) => {
                *self = MaskedArray { data: d, mask: k, fill_value, hard_mask };
                Err(e)
            },
            Ok(()) => {
                match mask {
                    Some(b) => {
                        if !hard_mask {
                            let _ = k.set(indices, b);
                        }
                    },
                    None => {},
                }
                *self = MaskedArray { data: d, mask: k, fill_value, hard_mask };
                Ok(())
            },
        }
    }

    /// The same data and mask under another shape with the same number of
    /// elements.
    pub fn reshape(&self, shape: &[usize]) -> (m: Self)
        requires
            shape_size(shape@) == self@.data.data.len(),
        ensures
            m@.data.shape == shape@,
            m@.data.data == self@.data.data,
            m@.mask.data == self@.mask.data,
            m@.fill == self@.fill,
            m@.hard == self@.hard,
            m@.well_formed(),
    {
        self.well_formed();
        let mut m = MaskedArray::from_parts(
            self.data.reshape(shape),
            self.mask.reshape(shape),
            self.fill_value,
        );
        m.hard_mask = self.hard_mask;
        m
    }

    /// Reverses the order of the axes of data and mask.
    pub fn transpose(&self) -> (m: Self)
        ensures
            m@.data.shape == self@.data.shape.reverse(),
            m@.fill == self@.fill,
            m@.hard == self@.hard,
            m@.well_formed(),
            forall|idx: Seq<usize>|
                #[trigger] in_bounds(self@.data.shape, idx) ==> m@.data.at(idx.reverse())
                    == self@.data.at(idx) && m@.mask.at(idx.reverse()) == self@.mask.at(idx),
    {
        self.well_formed();
        let mut m = MaskedArray::from_parts(
            self.data.transpose(),
            self.mask.transpose(),
            self.fill_value,
        );
        m.hard_mask = self.hard_mask;
        m
    }
}


/// The elementwise operations on masked arrays.
enum ArithOp {
    Sum,
    Diff,
    Prod,
}

/// The result of `op` on two elements, or `None` when it leaves the type.
spec fn op_spec<T: CheckedArith>(op: ArithOp, a: T, b: T) -> Option<T> {
    match op {
        ArithOp::Sum => a.sum_spec(b),
        ArithOp::Diff => a.diff_spec(b),
        ArithOp::Prod => a.prod_spec(b),
    }
}

fn apply_op<T: CheckedArith>(op: &ArithOp, a: T, b: T) -> (r: Option<T>)
    ensures
        r == op_spec(*op, a, b),
{
    match op {
        ArithOp::Sum => a.checked_sum(b),
        ArithOp::Diff => a.checked_diff(b),
        ArithOp::Prod => a.checked_prod(b),
    }
}

/// Every pair of elements at one position has a result under `op`.
spec fn op_defined<T: CheckedArith>(op: ArithOp, a: Seq<T>, b: Seq<T>) -> bool {
    forall|i: int| 0 <= i < a.len() ==> (#[trigger] op_spec(op, a[i], b[i])) is Some
}

impl<T: CheckedArith> MaskedArray<T> {
    /// The elementwise result of `op`, masked where either operand is.
    fn combine(&self, other: &Self, op: ArithOp) -> (m: Self)
        requires
            self@.data.shape == other@.data.shape,
            op_defined(op, self@.data.data, other@.data.data),
        ensures
            m@.well_formed(),
            m@.data.shape == self@.data.shape,
            m@.fill == self@.fill,
            !m@.hard,
            m@.data.data.len() == self@.data.data.len(),
            forall|i: int|
                #![trigger m@.data.data[i]]
                #![trigger m@.mask.data[i]]
                0 <= i < self@.data.data.len() ==> op_spec(op, self@.data.data[i], other@.data.data[i])
                    == Some(m@.data.data[i]) && m@.mask.data[i] == (self@.mask.data[i]
                    || other@.mask.data[i]),
    {
        self.well_formed();
        other.well_formed();
        let a = self.data.data_ref();
        let b = other.data.data_ref();
        let ma = self.mask.data_ref();
        let mb = other.mask.data_ref();
        let n = a.len();
        let mut out: Vec<T> = Vec::with_capacity(n);
        let mut mk: Vec<bool> = Vec::with_capacity(n);
        let mut i: usize = 0;
        while i < n
            invariant
                n == a@.len(),
                a@.len() == b@.len(),
                ma@.len() == n,
                mb@.len() == n,
                i <= n,
                out@.len() == i,
                mk@.len() == i,
                op_defined(op, a@, b@),
                forall|k: int|
                    0 <= k < i ==> op_spec(op, a@[k], b@[k]) == Some(#[trigger] out@[k]) && mk@[k] == (
                    ma@[k] || mb@[k]),
            decreases n - i,
        {
            let x = a[i];
            let y = b[i];
            assert(op_spec(op, a@[i as int], b@[i as int]) is Some);
            match apply_op(&op, x, y) {
                Some(v) => out.push(v),
                None => out.push(x),
            }
            mk.push(ma[i] || mb[i]);
            i = i + 1;
        }
        let d = Array::from_parts(self.data.shape(), out);
        let k = Array::from_parts(self.data.shape(), mk);
        MaskedArray::from_parts(d, k, self.fill_value)
    }

    /// The elementwise sum, masked where either operand is masked; the fill
    /// value is this array's.
    ///
    /// Both arrays have one shape, and no sum leaves the element type.
    pub fn add(&self, other: &Self) -> (m: Self)
        requires
            self@.data.shape == other@.data.shape,
            forall|i: int|
                0 <= i < self@.data.data.len() ==> (#[trigger] self@.data.data[i]).sum_spec(
                    other@.data.data[i],
                ) is Some,
        ensures
            m@.well_formed(),
            m@.data.shape == self@.data.shape,
            m@.fill == self@.fill,
            !m@.hard,
            forall|i: int|
                #![trigger m@.data.data[i]]
                #![trigger m@.mask.data[i]]
                0 <= i < self@.data.data.len() ==> self@.data.data[i].sum_spec(other@.data.data[i])
                    == Some(m@.data.data[i]) && m@.mask.data[i] == (self@.mask.data[i]
                    || other@.mask.data[i]),
    {
        assert(op_defined(ArithOp::Sum, self@.data.data, other@.data.data));
        self.combine(other, ArithOp::Sum)
    }

    /// The elementwise difference, masked where either operand is masked;
    /// the fill value is this array's.
    ///
    /// Both arrays have one shape, and no difference leaves the element
    /// type.
    pub fn subtract(&self, other: &Self) -> (m: Self)
        requires
            self@.data.shape == other@.data.shape,
            forall|i: int|
                0 <= i < self@.data.data.len() ==> (#[trigger] self@.data.data[i]).diff_spec(
                    other@.data.data[i],
                ) is Some,
        ensures
            m@.well_formed(),
            m@.data.shape == self@.data.shape,
            m@.fill == self@.fill,
            !m@.hard,
            forall|i: int|
                #![trigger m@.data.data[i]]
                #![trigger m@.mask.data[i]]
                0 <= i < self@.data.data.len() ==> self@.data.data[i].diff_spec(other@.data.data[i])
                    == Some(m@.data.data[i]) && m@.mask.data[i] == (self@.mask.data[i]
                    || other@.mask.data[i]),
    {
        assert(op_defined(ArithOp::Diff, self@.data.data, other@.data.data));
        self.combine(other, ArithOp::Diff)
    }

    /// The elementwise product, masked where either operand is masked; the
    /// fill value is this array's.
    ///
    /// Both arrays have one shape, and no product leaves the element type.
    pub fn multiply(&self, other: &Self) -> (m: Self)
        requires
            self@.data.shape == other@.data.shape,
            forall|i: int|
                0 <= i < self@.data.data.len() ==> (#[trigger] self@.data.data[i]).prod_spec(
                    other@.data.data[i],
                ) is Some,
        ensures
            m@.well_formed(),
            m@.data.shape == self@.data.shape,
            m@.fill == self@.fill,
            !m@.hard,
            forall|i: int|
                #![trigger m@.data.data[i]]
                #![trigger m@.mask.data[i]]
                0 <= i < self@.data.data.len() ==> self@.data.data[i].prod_spec(other@.data.data[i])
                    == Some(m@.data.data[i]) && m@.mask.data[i] == (self@.mask.data[i]
                    || other@.mask.data[i]),
    {
        assert(op_defined(ArithOp::Prod, self@.data.data, other@.data.data));
        self.combine(other, ArithOp::Prod)
    }

    /// The elementwise quotient (rounded toward zero), masked where either
    /// operand is masked or the divisor is zero; where the divisor is zero
    /// the element is the dividend. The fill value is this array's.
    ///
    /// Both arrays have one shape, and no quotient by a nonzero divisor
    /// leaves the element type.
    pub fn divide(&self, other: &Self) -> (m: Self)
        requires
            self@.data.shape == other@.data.shape,
            forall|i: int|
                0 <= i < self@.data.data.len() && !other@.data.data[i].zero_spec() ==> (
                #[trigger] self@.data.data[i]).quot_spec(other@.data.data[i]) is Some,
        ensures
            m@.well_formed(),
            m@.data.shape == self@.data.shape,
            m@.fill == self@.fill,
            !m@.hard,
            forall|i: int|
                #![trigger m@.data.data[i]]
                #![trigger m@.mask.data[i]]
                0 <= i < self@.data.data.len() ==> {
                    &&& m@.mask.data[i] == (self@.mask.data[i] || other@.mask.data[i]
                        || other@.data.data[i].zero_spec())
                    &&& other@.data.data[i].zero_spec() ==> m@.data.data[i] == self@.data.data[i]
                    &&& !other@.data.data[i].zero_spec() ==> self@.data.data[i].quot_spec(
                        other@.data.data[i],
                    ) == Some(m@.data.data[i])
                },
    {
        self.well_formed();
        other.well_formed();
        let a = self.data.data_ref();
        let b = other.data.data_ref();
        let ma = self.mask.data_ref();
        let mb = other.mask.data_ref();
        let n = a.len();
        let mut out: Vec<T> = Vec::with_capacity(n);
        let mut mk: Vec<bool> = Vec::with_capacity(n);
        let mut i: usize = 0;
        while i < n
            invariant
                n == a@.len(),
                a@.len() == b@.len(),
                ma@.len() == n,
                mb@.len() == n,
                i <= n,
                out@.len() == i,
                mk@.len() == i,
                forall|k: int|
                    0 <= k < n && !b@[k].zero_spec() ==> (#[trigger] a@[k]).quot_spec(b@[k]) is Some,
                forall|k: int|
                    #![trigger out@[k]]
                    #![trigger mk@[k]]
                    0 <= k < i ==> {
                        &&& mk@[k] == (ma@[k] || mb@[k] || b@[k].zero_spec())
                        &&& b@[k].zero_spec() ==> out@[k] == a@[k]
                        &&& !b@[k].zero_spec() ==> a@[k].quot_spec(b@[k]) == Some(out@[k])
                    },
            decreases n - i,
        {
            let x = a[i];
            let y = b[i];
            let zero = y.is_zero();
            if zero {
                out.push(x);
            } else {
                assert(a@[i as int].quot_spec(b@[i as int]) is Some);
                match x.checked_quot(y) {
                    Some(v) => out.push(v),
                    None => out.push(x),
                }
            }
            mk.push(ma[i] || mb[i] || zero);
            assert(mk@[i as int] == (ma@[i as int] || mb@[i as int] || b@[i as int].zero_spec()));
            i = i + 1;
        }
        let d = Array::from_parts(self.data.shape(), out);
        let k = Array::from_parts(self.data.shape(), mk);
        MaskedArray::from_parts(d, k, self.fill_value)
    }
}

} // verus!
