//! Checked arithmetic on the integer element types: each operation gives
//! `None` where the exact result leaves the type (or divides by zero).

use vstd::prelude::*;

verus! {

/// Element types with checked arithmetic.
pub trait CheckedArith: Copy + Sized {
    /// The sum of two values, or `None` when it leaves the type's range.
    spec fn sum_spec(self, other: Self) -> Option<Self>;

    /// The difference of two values, or `None` when it leaves the type's
    /// range.
    spec fn diff_spec(self, other: Self) -> Option<Self>;

    /// The product of two values, or `None` when it leaves the type's range.
    spec fn prod_spec(self, other: Self) -> Option<Self>;

    /// The quotient of two values, rounded toward zero, or `None` when the
    /// divisor is zero or the quotient leaves the type's range.
    spec fn quot_spec(self, other: Self) -> Option<Self>;

    /// The value is zero.
    spec fn zero_spec(self) -> bool;

    /// The sum of two values, or `None` when it leaves the type's range.
    fn checked_sum(self, other: Self) -> (r: Option<Self>)
        ensures
            r == self.sum_spec(other),
    ;

    /// The difference of two values, or `None` when it leaves the type's
    /// range.
    fn checked_diff(self, other: Self) -> (r: Option<Self>)
        ensures
            r == self.diff_spec(other),
    ;

    /// The product of two values, or `None` when it leaves the type's range.
    fn checked_prod(self, other: Self) -> (r: Option<Self>)
        ensures
            r == self.prod_spec(other),
    ;

    /// The quotient of two values, or `None` when the divisor is zero or
    /// the quotient leaves the type's range.
    fn checked_quot(self, other: Self) -> (r: Option<Self>)
        ensures
            r == self.quot_spec(other),
    ;

    /// Whether the value is zero.
    fn is_zero(self) -> (r: bool)
        ensures
            r == self.zero_spec(),
    ;
}

impl CheckedArith for i8 {
    open spec fn sum_spec(self, other: Self) -> Option<Self> {
        if i8::MIN <= self + other <= i8::MAX {
            Some((self + other) as i8)
        } else {
            None
        }
    }

    open spec fn diff_spec(self, other: Self) -> Option<Self> {
        self.checked_sub(other)
    }

    open spec fn prod_spec(self, other: Self) -> Option<Self> {
        self.checked_mul(other)
    }

    open spec fn quot_spec(self, other: Self) -> Option<Self> {
        self.checked_div(other)
    }

    open spec fn zero_spec(self) -> bool {
        self == 0
    }

    fn checked_sum(self, other: Self) -> (r: Option<Self>) {
        self.checked_add(other)
    }

    fn checked_diff(self, other: Self) -> (r: Option<Self>) {
        self.checked_sub(other)
    }

    fn checked_prod(self, other: Self) -> (r: Option<Self>) {
        self.checked_mul(other)
    }

    fn checked_quot(self, other: Self) -> (r: Option<Self>) {
        self.checked_div(other)
    }

    fn is_zero(self) -> (r: bool) {
        self == 0
    }
}

impl CheckedArith for i16 {
    open spec fn sum_spec(self, other: Self) -> Option<Self> {
        if i16::MIN <= self + other <= i16::MAX {
            Some((self + other) as i16)
        } else {
            None
        }
    }

    open spec fn diff_spec(self, other: Self) -> Option<Self> {
        self.checked_sub(other)
    }

    open spec fn prod_spec(self, other: Self) -> Option<Self> {
        self.checked_mul(other)
    }

    open spec fn quot_spec(self, other: Self) -> Option<Self> {
        self.checked_div(other)
    }

    open spec fn zero_spec(self) -> bool {
        self == 0
    }

    fn checked_sum(self, other: Self) -> (r: Option<Self>) {
        self.checked_add(other)
    }

    fn checked_diff(self, other: Self) -> (r: Option<Self>) {
        self.checked_sub(other)
    }

    fn checked_prod(self, other: Self) -> (r: Option<Self>) {
        self.checked_mul(other)
    }

    fn checked_quot(self, other: Self) -> (r: Option<Self>) {
        self.checked_div(other)
    }

    fn is_zero(self) -> (r: bool) {
        self == 0
    }
}

impl CheckedArith for i32 {
    open spec fn sum_spec(self, other: Self) -> Option<Self> {
        if i32::MIN <= self + other <= i32::MAX {
            Some((self + other) as i32)
        } else {
            None
        }
    }

    open spec fn diff_spec(self, other: Self) -> Option<Self> {
        self.checked_sub(other)
    }

    open spec fn prod_spec(self, other: Self) -> Option<Self> {
        self.checked_mul(other)
    }

    open spec fn quot_spec(self, other: Self) -> Option<Self> {
        self.checked_div(other)
    }

    open spec fn zero_spec(self) -> bool {
        self == 0
    }

    fn checked_sum(self, other: Self) -> (r: Option<Self>) {
        self.checked_add(other)
    }

    fn checked_diff(self, other: Self) -> (r: Option<Self>) {
        self.checked_sub(other)
    }

    fn checked_prod(self, other: Self) -> (r: Option<Self>) {
        self.checked_mul(other)
    }

    fn checked_quot(self, other: Self) -> (r: Option<Self>) {
        self.checked_div(other)
    }

    fn is_zero(self) -> (r: bool) {
        self == 0
    }
}

impl CheckedArith for i64 {
    open spec fn sum_spec(self, other: Self) -> Option<Self> {
        if i64::MIN <= self + other <= i64::MAX {
            Some((self + other) as i64)
        } else {
            None
        }
    }

    open spec fn diff_spec(self, other: Self) -> Option<Self> {
        self.checked_sub(other)
    }

    open spec fn prod_spec(self, other: Self) -> Option<Self> {
        self.checked_mul(other)
    }

    open spec fn quot_spec(self, other: Self) -> Option<Self> {
        self.checked_div(other)
    }

    open spec fn zero_spec(self) -> bool {
        self == 0
    }

    fn checked_sum(self, other: Self) -> (r: Option<Self>) {
        self.checked_add(other)
    }

    fn checked_diff(self, other: Self) -> (r: Option<Self>) {
        self.checked_sub(other)
    }

    fn checked_prod(self, other: Self) -> (r: Option<Self>) {
        self.checked_mul(other)
    }

    fn checked_quot(self, other: Self) -> (r: Option<Self>) {
        self.checked_div(other)
    }

    fn is_zero(self) -> (r: bool) {
        self == 0
    }
}

impl CheckedArith for isize {
    open spec fn sum_spec(self, other: Self) -> Option<Self> {
        if isize::MIN <= self + other <= isize::MAX {
            Some((self + other) as isize)
        } else {
            None
        }
    }

    open spec fn diff_spec(self, other: Self) -> Option<Self> {
        self.checked_sub(other)
    }

    open spec fn prod_spec(self, other: Self) -> Option<Self> {
        self.checked_mul(other)
    }

    open spec fn quot_spec(self, other: Self) -> Option<Self> {
        self.checked_div(other)
    }

    open spec fn zero_spec(self) -> bool {
        self == 0
    }

    fn checked_sum(self, other: Self) -> (r: Option<Self>) {
        self.checked_add(other)
    }

    fn checked_diff(self, other: Self) -> (r: Option<Self>) {
        self.checked_sub(other)
    }

    fn checked_prod(self, other: Self) -> (r: Option<Self>) {
        self.checked_mul(other)
    }

    fn checked_quot(self, other: Self) -> (r: Option<Self>) {
        self.checked_div(other)
    }

    fn is_zero(self) -> (r: bool) {
        self == 0
    }
}

impl CheckedArith for u8 {
    open spec fn sum_spec(self, other: Self) -> Option<Self> {
        if 0 <= self + other <= u8::MAX {
            Some((self + other) as u8)
        } else {
            None
        }
    }

    open spec fn diff_spec(self, other: Self) -> Option<Self> {
        self.checked_sub(other)
    }

    open spec fn prod_spec(self, other: Self) -> Option<Self> {
        self.checked_mul(other)
    }

    open spec fn quot_spec(self, other: Self) -> Option<Self> {
        self.checked_div(other)
    }

    open spec fn zero_spec(self) -> bool {
        self == 0
    }

    fn checked_sum(self, other: Self) -> (r: Option<Self>) {
        self.checked_add(other)
    }

    fn checked_diff(self, other: Self) -> (r: Option<Self>) {
        self.checked_sub(other)
    }

    fn checked_prod(self, other: Self) -> (r: Option<Self>) {
        self.checked_mul(other)
    }

    fn checked_quot(self, other: Self) -> (r: Option<Self>) {
        self.checked_div(other)
    }

    fn is_zero(self) -> (r: bool) {
        self == 0
    }
}

impl CheckedArith for u16 {
    open spec fn sum_spec(self, other: Self) -> Option<Self> {
        if 0 <= self + other <= u16::MAX {
            Some((self + other) as u16)
        } else {
            None
        }
    }

    open spec fn diff_spec(self, other: Self) -> Option<Self> {
        self.checked_sub(other)
    }

    open spec fn prod_spec(self, other: Self) -> Option<Self> {
        self.checked_mul(other)
    }

    open spec fn quot_spec(self, other: Self) -> Option<Self> {
        self.checked_div(other)
    }

    open spec fn zero_spec(self) -> bool {
        self == 0
    }

    fn checked_sum(self, other: Self) -> (r: Option<Self>) {
        self.checked_add(other)
    }

    fn checked_diff(self, other: Self) -> (r: Option<Self>) {
        self.checked_sub(other)
    }

    fn checked_prod(self, other: Self) -> (r: Option<Self>) {
        self.checked_mul(other)
    }

    fn checked_quot(self, other: Self) -> (r: Option<Self>) {
        self.checked_div(other)
    }

    fn is_zero(self) -> (r: bool) {
        self == 0
    }
}

impl CheckedArith for u32 {
    open spec fn sum_spec(self, other: Self) -> Option<Self> {
        if 0 <= self + other <= u32::MAX {
            Some((self + other) as u32)
        } else {
            None
        }
    }

    open spec fn diff_spec(self, other: Self) -> Option<Self> {
        self.checked_sub(other)
    }

    open spec fn prod_spec(self, other: Self) -> Option<Self> {
        self.checked_mul(other)
    }

    open spec fn quot_spec(self, other: Self) -> Option<Self> {
        self.checked_div(other)
    }

    open spec fn zero_spec(self) -> bool {
        self == 0
    }

    fn checked_sum(self, other: Self) -> (r: Option<Self>) {
        self.checked_add(other)
    }

    fn checked_diff(self, other: Self) -> (r: Option<Self>) {
        self.checked_sub(other)
    }

    fn checked_prod(self, other: Self) -> (r: Option<Self>) {
        self.checked_mul(other)
    }

    fn checked_quot(self, other: Self) -> (r: Option<Self>) {
        self.checked_div(other)
    }

    fn is_zero(self) -> (r: bool) {
        self == 0
    }
}

impl CheckedArith for u64 {
    open spec fn sum_spec(self, other: Self) -> Option<Self> {
        if 0 <= self + other <= u64::MAX {
            Some((self + other) as u64)
        } else {
            None
        }
    }

    open spec fn diff_spec(self, other: Self) -> Option<Self> {
        self.checked_sub(other)
    }

    open spec fn prod_spec(self, other: Self) -> Option<Self> {
        self.checked_mul(other)
    }

    open spec fn quot_spec(self, other: Self) -> Option<Self> {
        self.checked_div(other)
    }

    open spec fn zero_spec(self) -> bool {
        self == 0
    }

    fn checked_sum(self, other: Self) -> (r: Option<Self>) {
        self.checked_add(other)
    }

    fn checked_diff(self, other: Self) -> (r: Option<Self>) {
        self.checked_sub(other)
    }

    fn checked_prod(self, other: Self) -> (r: Option<Self>) {
        self.checked_mul(other)
    }

    fn checked_quot(self, other: Self) -> (r: Option<Self>) {
        self.checked_div(other)
    }

    fn is_zero(self) -> (r: bool) {
        self == 0
    }
}

impl CheckedArith for usize {
    open spec fn sum_spec(self, other: Self) -> Option<Self> {
        if 0 <= self + other <= usize::MAX {
            Some((self + other) as usize)
        } else {
            None
        }
    }

    open spec fn diff_spec(self, other: Self) -> Option<Self> {
        self.checked_sub(other)
    }

    open spec fn prod_spec(self, other: Self) -> Option<Self> {
        self.checked_mul(other)
    }

    open spec fn quot_spec(self, other: Self) -> Option<Self> {
        self.checked_div(other)
    }

    open spec fn zero_spec(self) -> bool {
        self == 0
    }

    fn checked_sum(self, other: Self) -> (r: Option<Self>) {
        self.checked_add(other)
    }

    fn checked_diff(self, other: Self) -> (r: Option<Self>) {
        self.checked_sub(other)
    }

    fn checked_prod(self, other: Self) -> (r: Option<Self>) {
        self.checked_mul(other)
    }

    fn checked_quot(self, other: Self) -> (r: Option<Self>) {
        self.checked_div(other)
    }

    fn is_zero(self) -> (r: bool) {
        self == 0
    }
}

} // verus!
