//! The basic single-variable, first-order differential: a value and one
//! derivative, with elementary arithmetic.
//!
//! This is the simple companion of the packed engine in [`crate::Diff`]: a
//! plain pair, with the product and quotient rules written out directly.

use vstd::prelude::*;

use crate::scalar::Scalar;

verus! {

/// A value together with its first derivative.
#[derive(Debug, Clone, Copy, PartialEq, Eq)]
pub struct Differential<T> {
    /// The value of the function at the evaluation point.
    pub value: T,
    /// The first derivative at the evaluation point.
    pub derivative: T,
}

impl<T: Scalar> Differential<T> {
    /// Pairs a value with its derivative.
    pub fn new(value: T, derivative: T) -> (r: Self)
        ensures
            r.value == value,
            r.derivative == derivative,
    {
        Self { value, derivative }
    }

    /// The differential of the constant zero.
    pub fn zero() -> (r: Self)
        ensures
            r.value == T::zero_spec(),
            r.derivative == T::zero_spec(),
    {
        Self { value: T::zero(), derivative: T::zero() }
    }

    /// Componentwise sum.
    pub fn add(self, rhs: Self) -> (r: Self)
        ensures
            r.value == self.value.add_spec(rhs.value),
            r.derivative == self.derivative.add_spec(rhs.derivative),
    {
        Self { value: self.value.add(rhs.value), derivative: self.derivative.add(rhs.derivative) }
    }

    /// Componentwise difference.
    pub fn sub(self, rhs: Self) -> (r: Self)
        ensures
            r.value == self.value.sub_spec(rhs.value),
            r.derivative == self.derivative.sub_spec(rhs.derivative),
    {
        Self { value: self.value.sub(rhs.value), derivative: self.derivative.sub(rhs.derivative) }
    }

    /// Componentwise negation.
    pub fn neg(self) -> (r: Self)
        ensures
            r.value == self.value.neg_spec(),
            r.derivative == self.derivative.neg_spec(),
    {
        Self { value: self.value.neg(), derivative: self.derivative.neg() }
    }

    /// The product rule: the values multiply, and the derivative is each
    /// derivative times the other value, added.
    pub fn mul(self, rhs: Self) -> (r: Self)
        ensures
            r.value == self.value.mul_spec(rhs.value),
            r.derivative == self.derivative.mul_spec(rhs.value).add_spec(
                self.value.mul_spec(rhs.derivative),
            ),
    {
        Self {
            value: self.value.mul(rhs.value),
            derivative: self.derivative.mul(rhs.value).add(self.value.mul(rhs.derivative)),
        }
    }

    /// The quotient rule: the values divide, and the derivative is the
    /// derivative of the numerator times the denominator's value, less the
    /// denominator's derivative times the numerator's value, divided by the
    /// denominator's value squared.
    pub fn div(self, rhs: Self) -> (r: Self)
        ensures
            r.value == self.value.div_spec(rhs.value),
            r.derivative == self.derivative.mul_spec(rhs.value).sub_spec(
                rhs.derivative.mul_spec(self.value),
            ).div_spec(rhs.value.mul_spec(rhs.value)),
    {
        Self {
            value: self.value.div(rhs.value),
            derivative: self.derivative.mul(rhs.value).sub(rhs.derivative.mul(self.value)).div(
                rhs.value.mul(rhs.value),
            ),
        }
    }

    /// The differential is negated where its value is negative, and kept
    /// as it is everywhere else.
    pub fn abs(self) -> (r: Self)
        ensures
            self.value.lt_spec(T::zero_spec()) ==> r.value == self.value.neg_spec()
                && r.derivative == self.derivative.neg_spec(),
            !self.value.lt_spec(T::zero_spec()) ==> r == self,
    {
        if self.value.lt(T::zero()) {
            self.neg()
        } else {
            self
        }
    }

    /// Zero where this value is below the other, the difference otherwise.
    pub fn abs_sub(self, rhs: Self) -> (r: Self)
        ensures
            self.value.lt_spec(rhs.value) ==> r.value == T::zero_spec() && r.derivative
                == T::zero_spec(),
            !self.value.lt_spec(rhs.value) ==> r.value == self.value.sub_spec(rhs.value)
                && r.derivative == self.derivative.sub_spec(rhs.derivative),
    {
        if self.value.lt(rhs.value) {
            Self::zero()
        } else {
            self.sub(rhs)
        }
    }

    /// The sign of the value, with a zero derivative: the derivative of a
    /// step function is zero wherever it is defined.
    pub fn signum(self) -> (r: Self)
        ensures
            r.value == self.value.signum_spec(),
            r.derivative == T::zero_spec(),
    {
        Self { value: self.value.signum(), derivative: T::zero() }
    }

    /// Whether the value counts as positive.
    pub fn is_positive(self) -> (r: bool)
        ensures
            r == self.value.pos_spec(),
    {
        self.value.is_positive()
    }

    /// Whether the value counts as negative.
    pub fn is_negative(self) -> (r: bool)
        ensures
            r == self.value.neg_sign_spec(),
    {
        self.value.is_negative()
    }
}

} // verus!
