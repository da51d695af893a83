//! Native integer types used for small values and for their magnitude bounds.
//!
//! [`ExtensionMagnitude`] gathers the checked arithmetic that the bound
//! computations need; [`SmallValue`] adds the reading of field elements as
//! native integers.

use crate::field::{fmod, Scalar};
use crate::small_value::{
    field_to_int_in, i32_to_field, i64_to_field, try_field_to_i32, try_field_to_i64,
};
use vstd::prelude::*;

verus! {

/// `num_integer::Roots::sqrt` on a non-negative `i128`: the truncated square
/// root `r`, with `r^2 <= n < (r + 1)^2`.
#[verifier::external_body]
fn integer_sqrt(n: i128) -> (r: i128)
    requires
        n >= 0,
    ensures
        r >= 0,
        r * r <= n < (r + 1) * (r + 1),
{
    num_integer::Roots::sqrt(&n)
}

/// A signed native integer type with the checked operations that the
/// extension-bound computations use.
pub trait ExtensionMagnitude: Copy + Sized {
    /// The number a value denotes.
    spec fn int_val(self) -> int;

    /// The largest value of the type.
    spec fn max_int() -> int;

    /// The smallest value of the type.
    spec fn min_int() -> int;

    proof fn lemma_range(x: Self)
        ensures
            Self::min_int() <= x.int_val() <= Self::max_int(),
            Self::min_int() == -Self::max_int() - 1,
            0x7fff <= Self::max_int() <= i128::MAX,
    ;

    proof fn lemma_bounds()
        ensures
            Self::min_int() == -Self::max_int() - 1,
            0x7fff <= Self::max_int() <= i128::MAX,
            Self::zero_value().int_val() == 0,
    ;

    /// The zero value of the type.
    spec fn zero_value() -> Self;

    /// A value is determined by the number it denotes.
    proof fn lemma_int_val_injective(x: Self, y: Self)
        requires
            x.int_val() == y.int_val(),
        ensures
            x == y,
    ;

    fn max_value() -> (r: Self)
        ensures
            r.int_val() == Self::max_int(),
    ;

    fn zero() -> (r: Self)
        ensures
            r == Self::zero_value(),
            r.int_val() == 0,
    ;

    fn from_usize(n: usize) -> (r: Option<Self>)
        ensures
            r is Some <==> n <= Self::max_int(),
            r matches Some(v) ==> v.int_val() == n,
    ;

    fn from_i128(v: i128) -> (r: Option<Self>)
        ensures
            r is Some <==> Self::min_int() <= v <= Self::max_int(),
            r matches Some(x) ==> x.int_val() == v,
    ;

    fn to_i128(self) -> (r: i128)
        ensures
            r == self.int_val(),
    ;

    fn checked_mul_mag(self, other: Self) -> (r: Option<Self>)
        ensures
            r is Some <==> Self::min_int() <= self.int_val() * other.int_val() <= Self::max_int(),
            r matches Some(x) ==> x.int_val() == self.int_val() * other.int_val(),
    ;

    fn checked_sub_mag(self, other: Self) -> (r: Option<Self>)
        ensures
            r is Some <==> Self::min_int() <= self.int_val() - other.int_val() <= Self::max_int(),
            r matches Some(x) ==> x.int_val() == self.int_val() - other.int_val(),
    ;

    fn checked_neg_mag(self) -> (r: Option<Self>)
        ensures
            r is Some <==> self.int_val() != Self::min_int(),
            r matches Some(x) ==> x.int_val() == -self.int_val(),
    ;

    /// Quotient of a non-negative value by a positive one.
    fn div_nonneg(self, other: Self) -> (r: Self)
        requires
            self.int_val() >= 0,
            other.int_val() > 0,
        ensures
            r.int_val() == self.int_val() / other.int_val(),
    ;

    /// Truncated square root of a non-negative value.
    fn isqrt(self) -> (r: Self)
        requires
            self.int_val() >= 0,
        ensures
            r.int_val() >= 0,
            r.int_val() * r.int_val() <= self.int_val() < (r.int_val() + 1) * (r.int_val() + 1),
    ;

    /// `self <= other`.
    fn le_mag(self, other: Self) -> (r: bool)
        ensures
            r == (self.int_val() <= other.int_val()),
    ;
}

/// A native integer type that holds small witness values, readable from and
/// convertible to field elements.
pub trait SmallValue: ExtensionMagnitude {
    /// The field element that the value denotes.
    fn small_to_field(self) -> (r: Scalar)
        ensures
            r@ == fmod(self.int_val()),
    ;

    /// The value that a field element denotes, if it is in the type's range.
    fn try_field_to_small(value: &Scalar) -> (r: Option<Self>)
        ensures
            match r {
                Some(x) => field_to_int_in(value@, Self::min_int(), Self::max_int()) == Some(
                    x.int_val(),
                ),
                None => field_to_int_in(value@, Self::min_int(), Self::max_int()) is None,
            },
    ;
}

impl ExtensionMagnitude for i16 {
    open spec fn int_val(self) -> int {
        self as int
    }

    open spec fn zero_value() -> Self {
        0
    }

    proof fn lemma_int_val_injective(x: Self, y: Self) {
    }

    open spec fn max_int() -> int {
        i16::MAX as int
    }

    open spec fn min_int() -> int {
        i16::MIN as int
    }

    proof fn lemma_range(x: Self) {
    }

    proof fn lemma_bounds() {
    }

    fn max_value() -> (r: Self) {
        i16::MAX
    }

    fn zero() -> (r: Self) {
        0
    }

    fn from_usize(n: usize) -> (r: Option<Self>) {
        if (n as u128) <= (i16::MAX as u128) {
            Some(n as i16)
        } else {
            None
        }
    }

    fn from_i128(v: i128) -> (r: Option<Self>) {
        if (i16::MIN as i128) <= v && v <= (i16::MAX as i128) {
            Some(v as i16)
        } else {
            None
        }
    }

    fn to_i128(self) -> (r: i128) {
        self as i128
    }

    fn checked_mul_mag(self, other: Self) -> (r: Option<Self>) {
        self.checked_mul(other)
    }

    fn checked_sub_mag(self, other: Self) -> (r: Option<Self>) {
        self.checked_sub(other)
    }

    fn checked_neg_mag(self) -> (r: Option<Self>) {
        if self == i16::MIN {
            None
        } else {
            Some(-self)
        }
    }

    fn div_nonneg(self, other: Self) -> (r: Self) {
        self / other
    }

    fn isqrt(self) -> (r: Self) {
        let r = integer_sqrt(self as i128);
        assert(r <= self) by (nonlinear_arith)
            requires
                r >= 0,
                r * r <= self,
        {
            if r > self {
                assert(r * r >= r * 1);
            }
        }
        r as i16
    }

    fn le_mag(self, other: Self) -> (r: bool) {
        self <= other
    }
}

impl ExtensionMagnitude for i32 {
    open spec fn int_val(self) -> int {
        self as int
    }

    open spec fn zero_value() -> Self {
        0
    }

    proof fn lemma_int_val_injective(x: Self, y: Self) {
    }

    open spec fn max_int() -> int {
        i32::MAX as int
    }

    open spec fn min_int() -> int {
        i32::MIN as int
    }

    proof fn lemma_range(x: Self) {
    }

    proof fn lemma_bounds() {
    }

    fn max_value() -> (r: Self) {
        i32::MAX
    }

    fn zero() -> (r: Self) {
        0
    }

    fn from_usize(n: usize) -> (r: Option<Self>) {
        if (n as u128) <= (i32::MAX as u128) {
            Some(n as i32)
        } else {
            None
        }
    }

    fn from_i128(v: i128) -> (r: Option<Self>) {
        if (i32::MIN as i128) <= v && v <= (i32::MAX as i128) {
            Some(v as i32)
        } else {
            None
        }
    }

    fn to_i128(self) -> (r: i128) {
        self as i128
    }

    fn checked_mul_mag(self, other: Self) -> (r: Option<Self>) {
        self.checked_mul(other)
    }

    fn checked_sub_mag(self, other: Self) -> (r: Option<Self>) {
        self.checked_sub(other)
    }

    fn checked_neg_mag(self) -> (r: Option<Self>) {
        if self == i32::MIN {
            None
        } else {
            Some(-self)
        }
    }

    fn div_nonneg(self, other: Self) -> (r: Self) {
        self / other
    }

    fn isqrt(self) -> (r: Self) {
        let r = integer_sqrt(self as i128);
        assert(r <= self) by (nonlinear_arith)
            requires
                r >= 0,
                r * r <= self,
        {
            if r > self {
                assert(r * r >= r * 1);
            }
        }
        r as i32
    }

    fn le_mag(self, other: Self) -> (r: bool) {
        self <= other
    }
}

impl ExtensionMagnitude for i64 {
    open spec fn int_val(self) -> int {
        self as int
    }

    open spec fn zero_value() -> Self {
        0
    }

    proof fn lemma_int_val_injective(x: Self, y: Self) {
    }

    open spec fn max_int() -> int {
        i64::MAX as int
    }

    open spec fn min_int() -> int {
        i64::MIN as int
    }

    proof fn lemma_range(x: Self) {
    }

    proof fn lemma_bounds() {
    }

    fn max_value() -> (r: Self) {
        i64::MAX
    }

    fn zero() -> (r: Self) {
        0
    }

    fn from_usize(n: usize) -> (r: Option<Self>) {
        if (n as u128) <= (i64::MAX as u128) {
            Some(n as i64)
        } else {
            None
        }
    }

    fn from_i128(v: i128) -> (r: Option<Self>) {
        if (i64::MIN as i128) <= v && v <= (i64::MAX as i128) {
            Some(v as i64)
        } else {
            None
        }
    }

    fn to_i128(self) -> (r: i128) {
        self as i128
    }

    fn checked_mul_mag(self, other: Self) -> (r: Option<Self>) {
        self.checked_mul(other)
    }

    fn checked_sub_mag(self, other: Self) -> (r: Option<Self>) {
        self.checked_sub(other)
    }

    fn checked_neg_mag(self) -> (r: Option<Self>) {
        if self == i64::MIN {
            None
        } else {
            Some(-self)
        }
    }

    fn div_nonneg(self, other: Self) -> (r: Self) {
        self / other
    }

    fn isqrt(self) -> (r: Self) {
        let r = integer_sqrt(self as i128);
        assert(r <= self) by (nonlinear_arith)
            requires
                r >= 0,
                r * r <= self,
        {
            if r > self {
                assert(r * r >= r * 1);
            }
        }
        r as i64
    }

    fn le_mag(self, other: Self) -> (r: bool) {
        self <= other
    }
}

impl ExtensionMagnitude for i128 {
    open spec fn int_val(self) -> int {
        self as int
    }

    open spec fn zero_value() -> Self {
        0
    }

    proof fn lemma_int_val_injective(x: Self, y: Self) {
    }

    open spec fn max_int() -> int {
        i128::MAX as int
    }

    open spec fn min_int() -> int {
        i128::MIN as int
    }

    proof fn lemma_range(x: Self) {
    }

    proof fn lemma_bounds() {
    }

    fn max_value() -> (r: Self) {
        i128::MAX
    }

    fn zero() -> (r: Self) {
        0
    }

    fn from_usize(n: usize) -> (r: Option<Self>) {
        if (n as u128) <= (i128::MAX as u128) {
            Some(n as i128)
        } else {
            None
        }
    }

    fn from_i128(v: i128) -> (r: Option<Self>) {
        if (i128::MIN as i128) <= v && v <= (i128::MAX as i128) {
            Some(v as i128)
        } else {
            None
        }
    }

    fn to_i128(self) -> (r: i128) {
        self as i128
    }

    fn checked_mul_mag(self, other: Self) -> (r: Option<Self>) {
        self.checked_mul(other)
    }

    fn checked_sub_mag(self, other: Self) -> (r: Option<Self>) {
        self.checked_sub(other)
    }

    fn checked_neg_mag(self) -> (r: Option<Self>) {
        if self == i128::MIN {
            None
        } else {
            Some(-self)
        }
    }

    fn div_nonneg(self, other: Self) -> (r: Self) {
        self / other
    }

    fn isqrt(self) -> (r: Self) {
        let r = integer_sqrt(self as i128);
        assert(r <= self) by (nonlinear_arith)
            requires
                r >= 0,
                r * r <= self,
        {
            if r > self {
                assert(r * r >= r * 1);
            }
        }
        r as i128
    }

    fn le_mag(self, other: Self) -> (r: bool) {
        self <= other
    }
}

impl SmallValue for i32 {
    fn small_to_field(self) -> (r: Scalar) {
        i32_to_field(self)
    }

    fn try_field_to_small(value: &Scalar) -> (r: Option<Self>) {
        try_field_to_i32(value)
    }
}

impl SmallValue for i64 {
    fn small_to_field(self) -> (r: Scalar) {
        i64_to_field(self)
    }

    fn try_field_to_small(value: &Scalar) -> (r: Option<Self>) {
        try_field_to_i64(value)
    }
}

} // verus!
