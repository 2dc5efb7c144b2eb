//! Exact rational numbers over arbitrary-precision integers.

use vstd::prelude::*;

use num_bigint::BigInt;

use crate::bigint::{
    big_add, big_clone, big_div, big_from_i128, big_is_negative, big_is_zero, big_mul, big_neg,
    big_rem, big_sub, big_to_i64, big_value,
};

verus! {

/// A rational number `numerator / denominator` with a positive denominator.
pub struct Rational {
    numerator: BigInt,
    denominator: BigInt,
}

/// A rational value as a numerator and denominator pair.
pub type Q = (int, int);

/// The sum of two rational pairs.
pub open spec fn q_add(a: Q, b: Q) -> Q {
    (a.0 * b.1 + b.0 * a.1, a.1 * b.1)
}

/// The difference of two rational pairs.
pub open spec fn q_sub(a: Q, b: Q) -> Q {
    (a.0 * b.1 - b.0 * a.1, a.1 * b.1)
}

/// The product of two rational pairs.
pub open spec fn q_mul(a: Q, b: Q) -> Q {
    (a.0 * b.0, a.1 * b.1)
}

/// The quotient of two rational pairs, with the denominator kept positive.
pub open spec fn q_div(a: Q, b: Q) -> Q {
    if b.0 > 0 {
        (a.0 * b.1, a.1 * b.0)
    } else {
        (-(a.0 * b.1), -(a.1 * b.0))
    }
}

/// Whether `a < b` for pairs with positive denominators.
pub open spec fn q_less(a: Q, b: Q) -> bool {
    a.0 * b.1 < b.0 * a.1
}

/// Whether two pairs denote the same number.
pub open spec fn q_same(a: Q, b: Q) -> bool {
    a.0 * b.1 == b.0 * a.1
}

impl Rational {
    /// The value as a numerator and denominator pair.
    pub open spec fn q(self) -> Q {
        (self.num(), self.den())
    }

    /// The numerator as an integer.
    pub closed spec fn num(self) -> int {
        big_value(self.numerator)
    }

    /// The denominator as an integer.
    pub closed spec fn den(self) -> int {
        big_value(self.denominator)
    }

    /// The denominator is positive.
    pub open spec fn wf(self) -> bool {
        self.den() > 0
    }

    /// Whether two rationals denote the same number.
    pub open spec fn same(self, other: Rational) -> bool {
        self.num() * other.den() == other.num() * self.den()
    }

    /// Whether `self` is strictly less than `other` (both well-formed).
    pub open spec fn less(self, other: Rational) -> bool {
        self.num() * other.den() < other.num() * self.den()
    }

    /// The sign of `self - other` (both well-formed).
    pub open spec fn compare_spec(self, other: Rational) -> int {
        crate::geometry::sign(self.num() * other.den() - other.num() * self.den())
    }

    /// The rational `value / 1`.
    pub fn from_i64(value: i64) -> (result: Self)
        ensures
            result.wf(),
            result.num() == value,
            result.den() == 1,
    {
        Rational { numerator: big_from_i128(value as i128), denominator: big_from_i128(1) }
    }

    /// The rational `numerator / denominator` for a non-zero denominator; a
    /// negative denominator moves its sign to the numerator.
    pub fn from_i128(numerator: i128, denominator: i128) -> (result: Self)
        requires
            denominator != 0,
        ensures
            result.wf(),
            denominator > 0 ==> result.num() == numerator && result.den() == denominator,
            denominator < 0 ==> result.num() == -numerator && result.den() == -denominator,
    {
        let top = big_from_i128(numerator);
        let bottom = big_from_i128(denominator);
        if denominator < 0 {
            Rational { numerator: big_neg(&top), denominator: big_neg(&bottom) }
        } else {
            Rational { numerator: top, denominator: bottom }
        }
    }

    /// Zero.
    pub fn zero() -> (result: Self)
        ensures
            result.wf(),
            result.num() == 0,
            result.den() == 1,
    {
        Self::from_i128(0, 1)
    }

    /// One.
    pub fn one() -> (result: Self)
        ensures
            result.wf(),
            result.num() == 1,
            result.den() == 1,
    {
        Self::from_i128(1, 1)
    }

    /// One half.
    pub fn half() -> (result: Self)
        ensures
            result.wf(),
            result.num() == 1,
            result.den() == 2,
    {
        Self::from_i128(1, 2)
    }

    /// An equal copy.
    pub fn copy(&self) -> (result: Self)
        ensures
            result.num() == self.num(),
            result.den() == self.den(),
    {
        Rational { numerator: big_clone(&self.numerator), denominator: big_clone(&self.denominator) }
    }

    /// The exact sum.
    pub fn add(&self, other: &Self) -> (result: Self)
        requires
            self.wf(),
            other.wf(),
        ensures
            result.wf(),
            result.num() == self.num() * other.den() + other.num() * self.den(),
            result.den() == self.den() * other.den(),
    {
        let left = big_mul(&self.numerator, &other.denominator);
        let right = big_mul(&other.numerator, &self.denominator);
        let denominator = big_mul(&self.denominator, &other.denominator);
        proof {
            lemma_positive_product(self.den(), other.den());
        }
        Rational { numerator: big_add(&left, &right), denominator }
    }

    /// The exact difference.
    pub fn sub(&self, other: &Self) -> (result: Self)
        requires
            self.wf(),
            other.wf(),
        ensures
            result.wf(),
            result.num() == self.num() * other.den() - other.num() * self.den(),
            result.den() == self.den() * other.den(),
    {
        let left = big_mul(&self.numerator, &other.denominator);
        let right = big_mul(&other.numerator, &self.denominator);
        let denominator = big_mul(&self.denominator, &other.denominator);
        proof {
            lemma_positive_product(self.den(), other.den());
        }
        Rational { numerator: big_sub(&left, &right), denominator }
    }

    /// The exact product.
    pub fn mul(&self, other: &Self) -> (result: Self)
        requires
            self.wf(),
            other.wf(),
        ensures
            result.wf(),
            result.num() == self.num() * other.num(),
            result.den() == self.den() * other.den(),
    {
        proof {
            lemma_positive_product(self.den(), other.den());
        }
        Rational {
            numerator: big_mul(&self.numerator, &other.numerator),
            denominator: big_mul(&self.denominator, &other.denominator),
        }
    }

    /// The exact negation.
    pub fn neg(&self) -> (result: Self)
        requires
            self.wf(),
        ensures
            result.wf(),
            result.num() == -self.num(),
            result.den() == self.den(),
    {
        Rational { numerator: big_neg(&self.numerator), denominator: big_clone(&self.denominator) }
    }

    /// The exact quotient by a non-zero rational.
    pub fn div(&self, other: &Self) -> (result: Self)
        requires
            self.wf(),
            other.wf(),
            other.num() != 0,
        ensures
            result.wf(),
            other.num() > 0 ==> result.num() == self.num() * other.den() && result.den()
                == self.den() * other.num(),
            other.num() < 0 ==> result.num() == -(self.num() * other.den()) && result.den() == -(
            self.den() * other.num()),
    {
        let numerator = big_mul(&self.numerator, &other.denominator);
        let denominator = big_mul(&self.denominator, &other.numerator);
        if big_is_negative(&other.numerator) {
            proof {
                lemma_positive_product(self.den(), -other.num());
                assert(self.den() * (-other.num()) == -(self.den() * other.num())) by (nonlinear_arith);
            }
            Rational { numerator: big_neg(&numerator), denominator: big_neg(&denominator) }
        } else {
            proof {
                lemma_positive_product(self.den(), other.num());
            }
            Rational { numerator, denominator }
        }
    }

    /// Whether the value is zero.
    pub fn is_zero(&self) -> (result: bool)
        ensures
            result == (self.num() == 0),
    {
        big_is_zero(&self.numerator)
    }

    /// Whether the value is negative.
    pub fn is_negative(&self) -> (result: bool)
        requires
            self.wf(),
        ensures
            result == (self.num() < 0),
    {
        big_is_negative(&self.numerator)
    }

    /// Whether the value is positive.
    pub fn is_positive(&self) -> (result: bool)
        requires
            self.wf(),
        ensures
            result == (self.num() > 0),
    {
        !big_is_negative(&self.numerator) && !big_is_zero(&self.numerator)
    }

    /// The sign of `self - other`: -1, 0 or 1.
    pub fn compare(&self, other: &Self) -> (result: i8)
        requires
            self.wf(),
            other.wf(),
        ensures
            result == self.compare_spec(*other),
    {
        let difference = self.sub(other);
        if difference.is_negative() {
            -1
        } else if difference.is_zero() {
            0
        } else {
            1
        }
    }

    /// Whether both denote the same number.
    pub fn equals(&self, other: &Self) -> (result: bool)
        requires
            self.wf(),
            other.wf(),
        ensures
            result == self.same(*other),
    {
        self.compare(other) == 0
    }

    /// Whether `self < other`.
    pub fn lt(&self, other: &Self) -> (result: bool)
        requires
            self.wf(),
            other.wf(),
        ensures
            result == self.less(*other),
    {
        self.compare(other) < 0
    }

    /// Whether `self <= other`.
    pub fn le(&self, other: &Self) -> (result: bool)
        requires
            self.wf(),
            other.wf(),
        ensures
            result == !other.less(*self),
    {
        self.compare(other) <= 0
    }

    /// The value as an `i64` when it is an integer in range.
    pub fn to_i64(&self) -> (result: Option<i64>)
        requires
            self.wf(),
        ensures
            result is Some <==> (self.num() % self.den() == 0 && i64::MIN <= self.num() / self.den()
                <= i64::MAX),
            result matches Some(v) ==> v * self.den() == self.num(),
    {
        let remainder = big_rem(&self.numerator, &self.denominator);
        if !big_is_zero(&remainder) {
            proof {
                lemma_truncated_remainder(self.num(), self.den());
            }
            return None;
        }
        let quotient = big_div(&self.numerator, &self.denominator);
        proof {
            lemma_truncated_remainder(self.num(), self.den());
            lemma_exact_quotient(self.num(), self.den());
        }
        big_to_i64(&quotient)
    }

    /// The smaller of two rationals (the first when equal).
    pub fn min(&self, other: &Self) -> (result: Self)
        requires
            self.wf(),
            other.wf(),
        ensures
            result.wf(),
            if other.less(*self) {
                result.num() == other.num() && result.den() == other.den()
            } else {
                result.num() == self.num() && result.den() == self.den()
            },
    {
        if other.lt(self) {
            other.copy()
        } else {
            self.copy()
        }
    }

    /// The larger of two rationals (the first when equal).
    pub fn max(&self, other: &Self) -> (result: Self)
        requires
            self.wf(),
            other.wf(),
        ensures
            result.wf(),
            if self.less(*other) {
                result.num() == other.num() && result.den() == other.den()
            } else {
                result.num() == self.num() && result.den() == self.den()
            },
    {
        if self.lt(other) {
            other.copy()
        } else {
            self.copy()
        }
    }
}

proof fn lemma_positive_product(a: int, b: int)
    requires
        a > 0,
        b > 0,
    ensures
        a * b > 0,
{
    assert(a * b > 0) by (nonlinear_arith)
        requires
            a > 0,
            b > 0,
    ;
}

proof fn lemma_truncated_remainder(a: int, b: int)
    requires
        b > 0,
    ensures
        (a >= 0 ==> (a % b == 0 <==> a % b == 0)),
        (a < 0 ==> ((-((-a) % b) == 0) <==> a % b == 0)),
{
    if a < 0 {
        lemma_neg_mod_zero(a, b);
    }
}

proof fn lemma_neg_mod_zero(a: int, b: int)
    requires
        b > 0,
        a < 0,
    ensures
        ((-a) % b == 0) <==> (a % b == 0),
{
    vstd::arithmetic::div_mod::lemma_fundamental_div_mod(a, b);
    vstd::arithmetic::div_mod::lemma_fundamental_div_mod(-a, b);
    if (-a) % b == 0 {
        let q = (-a) / b;
        assert(a == b * (-q)) by (nonlinear_arith)
            requires
                -a == b * q + 0,
        ;
        vstd::arithmetic::div_mod::lemma_mod_multiples_basic(-q, b);
        assert(b * (-q) == (-q) * b) by (nonlinear_arith);
    }
    if a % b == 0 {
        let q = a / b;
        assert(-a == b * (-q)) by (nonlinear_arith)
            requires
                a == b * q + 0,
        ;
        vstd::arithmetic::div_mod::lemma_mod_multiples_basic(-q, b);
        assert(b * (-q) == (-q) * b) by (nonlinear_arith);
    }
}

proof fn lemma_exact_quotient(a: int, b: int)
    requires
        b > 0,
        a % b == 0,
    ensures
        a >= 0 ==> (a / b) * b == a,
        a < 0 ==> (-((-a) / b)) * b == a && -((-a) / b) == a / b,
{
    vstd::arithmetic::div_mod::lemma_fundamental_div_mod(a, b);
    assert((a / b) * b == a) by (nonlinear_arith)
        requires
            a == b * (a / b) + a % b,
            a % b == 0,
    ;
    if a < 0 {
        lemma_neg_mod_zero(a, b);
        vstd::arithmetic::div_mod::lemma_fundamental_div_mod(-a, b);
        assert(((-a) / b) * b == -a) by (nonlinear_arith)
            requires
                -a == b * ((-a) / b) + (-a) % b,
                (-a) % b == 0,
        ;
        assert((-((-a) / b)) * b == a) by (nonlinear_arith)
            requires
                ((-a) / b) * b == -a,
        ;
        assert(-((-a) / b) == a / b) by (nonlinear_arith)
            requires
                (-((-a) / b)) * b == a,
                (a / b) * b == a,
                b > 0,
        ;
    }
}

} // verus!
