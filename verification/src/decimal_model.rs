//! The mathematical model of a decimal number.
//!
//! A decimal is a pair of integers: `unscaled * 10^(-scale)`. Two pairs may
//! denote the same number (`10 * 10^-1` and `1 * 10^0`), so the order on
//! decimals compares them once both are written at a common scale.

use crate::digits::{
    digit_count, lemma_digit_count_bound, lemma_digit_count_cut, lemma_digit_count_shift,
    lemma_digit_count_upper, lemma_pow10_adds, lemma_pow10_monotonic, lemma_pow10_positive, pow10,
};
use vstd::prelude::*;

verus! {

/// The most digits that the unscaled part of a stored decimal may have.
pub const MAX_DIGITS: usize = 0x4000_0000;

/// The largest scale, in either direction, of a stored decimal.
pub const MAX_SCALE: i64 = 0x4000_0000;

/// A decimal number: `unscaled * 10^(-scale)`.
pub struct DecimalView {
    pub unscaled: int,
    pub scale: int,
}

impl DecimalView {
    /// Zero, written with no fractional digits.
    pub open spec fn zero() -> DecimalView {
        DecimalView { unscaled: 0, scale: 0 }
    }

    /// The unscaled part once the number is written at `scale`, which must
    /// not be below the number's own scale.
    pub open spec fn at_scale(self, scale: int) -> int
        recommends
            self.scale <= scale,
    {
        self.unscaled * pow10((scale - self.scale) as nat)
    }

    /// The larger of the two scales.
    pub open spec fn common_scale(self, other: DecimalView) -> int {
        if self.scale >= other.scale {
            self.scale
        } else {
            other.scale
        }
    }

    /// `self` is a smaller number than `other`.
    pub open spec fn lt(self, other: DecimalView) -> bool {
        self.at_scale(self.common_scale(other)) < other.at_scale(self.common_scale(other))
    }

    /// `self` is no larger a number than `other`.
    pub open spec fn le(self, other: DecimalView) -> bool {
        !other.lt(self)
    }

    /// Both denote the same number.
    pub open spec fn same_number(self, other: DecimalView) -> bool {
        !self.lt(other) && !other.lt(self)
    }

    /// The exact difference, written at the larger of the two scales.
    pub open spec fn minus(self, other: DecimalView) -> DecimalView {
        DecimalView {
            unscaled: self.at_scale(self.common_scale(other)) - other.at_scale(
                self.common_scale(other),
            ),
            scale: self.common_scale(other),
        }
    }

    /// The number with its sign flipped.
    pub open spec fn negated(self) -> DecimalView {
        DecimalView { unscaled: -self.unscaled, scale: self.scale }
    }

    /// The unscaled part without its sign.
    pub open spec fn magnitude(self) -> nat {
        if self.unscaled < 0 {
            (-self.unscaled) as nat
        } else {
            self.unscaled as nat
        }
    }

    /// The number of significant digits as written: the digits of the
    /// unscaled part.
    pub open spec fn digits(self) -> nat {
        digit_count(self.magnitude())
    }

    /// The number written with `prec` significant digits. Where it has more,
    /// the digits after the first `prec` are cut off; where it has fewer,
    /// zeros are appended, which leaves the number unchanged.
    pub open spec fn with_prec(self, prec: nat) -> DecimalView {
        if self.digits() > prec {
            let cut = (self.digits() - prec) as nat;
            let kept = self.magnitude() / pow10(cut);
            DecimalView {
                unscaled: if self.unscaled < 0 {
                    -(kept as int)
                } else {
                    kept as int
                },
                scale: self.scale - cut,
            }
        } else {
            let added = (prec - self.digits()) as nat;
            DecimalView { unscaled: self.unscaled * pow10(added), scale: self.scale + added }
        }
    }

    /// The decimal is small enough to be stored in a book: any two such
    /// decimals can be written at a common scale in memory.
    pub open spec fn in_range(self) -> bool {
        &&& self.digits() <= MAX_DIGITS
        &&& -MAX_SCALE <= self.scale <= MAX_SCALE
    }
}

/// Writing a number at a larger scale multiplies its unscaled part by the
/// matching power of ten.
pub proof fn lemma_at_scale_raise(v: DecimalView, low: int, high: int)
    requires
        v.scale <= low <= high,
    ensures
        v.at_scale(high) == v.at_scale(low) * pow10((high - low) as nat),
{
    let a = (low - v.scale) as nat;
    let b = (high - low) as nat;
    lemma_pow10_adds(a, b);
    assert((high - v.scale) as nat == a + b);
    assert(v.unscaled * (pow10(a) * pow10(b)) == (v.unscaled * pow10(a)) * pow10(b))
        by (nonlinear_arith);
}

/// The order may be read off at any scale that both numbers can be written
/// at.
pub proof fn lemma_lt_at(a: DecimalView, b: DecimalView, scale: int)
    requires
        a.scale <= scale,
        b.scale <= scale,
    ensures
        a.lt(b) <==> a.at_scale(scale) < b.at_scale(scale),
        a.at_scale(scale) == b.at_scale(scale) <==> a.same_number(b),
{
    let m = a.common_scale(b);
    let p = pow10((scale - m) as nat);
    lemma_at_scale_raise(a, m, scale);
    lemma_at_scale_raise(b, m, scale);
    lemma_pow10_positive((scale - m) as nat);
    let x = a.at_scale(m);
    let y = b.at_scale(m);
    assert(b.common_scale(a) == m);
    assert(x < y <==> x * p < y * p) by (nonlinear_arith)
        requires
            p >= 1,
    ;
    assert(y < x <==> y * p < x * p) by (nonlinear_arith)
        requires
            p >= 1,
    ;
}

/// The largest of three scales.
pub open spec fn top_scale(a: DecimalView, b: DecimalView, c: DecimalView) -> int {
    if a.common_scale(b) >= c.scale {
        a.common_scale(b)
    } else {
        c.scale
    }
}

/// `lt` is a strict order on numbers and `le` its reflexive closure: both are
/// transitive, and they chain with one another.
pub proof fn lemma_order_transitive(a: DecimalView, b: DecimalView, c: DecimalView)
    ensures
        a.lt(b) && b.lt(c) ==> a.lt(c),
        a.le(b) && b.le(c) ==> a.le(c),
        a.lt(b) && b.le(c) ==> a.lt(c),
        a.le(b) && b.lt(c) ==> a.lt(c),
        a.same_number(b) && b.same_number(c) ==> a.same_number(c),
{
    let s = top_scale(a, b, c);
    lemma_lt_at(a, b, s);
    lemma_lt_at(b, a, s);
    lemma_lt_at(b, c, s);
    lemma_lt_at(c, b, s);
    lemma_lt_at(a, c, s);
    lemma_lt_at(c, a, s);
}

/// No number is smaller than itself, and of two numbers at most one is the
/// smaller.
pub proof fn lemma_order_strict(a: DecimalView, b: DecimalView)
    ensures
        !a.lt(a),
        a.le(a),
        a.lt(b) ==> !b.lt(a),
        a.lt(b) ==> a.le(b),
        a.le(b) || b.le(a),
{
    assert(b.common_scale(a) == a.common_scale(b));
}

/// Subtraction and the order agree: the difference is negative exactly when
/// the first number is the smaller.
pub proof fn lemma_minus_sign(a: DecimalView, b: DecimalView)
    ensures
        a.minus(b).unscaled < 0 <==> a.lt(b),
        a.minus(b).unscaled == 0 <==> a.same_number(b),
{
    assert(b.common_scale(a) == a.common_scale(b));
}

/// The most digits that the difference of two stored decimals can have.
pub open spec fn max_difference_digits() -> nat {
    (MAX_DIGITS + 2 * MAX_SCALE + 1) as nat
}

/// A stored decimal written at a scale that another stored decimal has is
/// below ten to the digits and the scales that can be stored.
proof fn lemma_aligned_bound(a: DecimalView, scale: int)
    requires
        a.in_range(),
        a.scale <= scale <= MAX_SCALE,
    ensures
        -pow10((MAX_DIGITS + 2 * MAX_SCALE) as nat) < a.at_scale(scale) < pow10(
            (MAX_DIGITS + 2 * MAX_SCALE) as nat,
        ),
{
    let gap = (scale - a.scale) as nat;
    let m = a.magnitude();
    lemma_digit_count_bound(m);
    lemma_pow10_monotonic(a.digits(), MAX_DIGITS as nat);
    lemma_pow10_monotonic(gap, (2 * MAX_SCALE) as nat);
    lemma_pow10_adds(MAX_DIGITS as nat, (2 * MAX_SCALE) as nat);
    lemma_pow10_positive(gap);
    let p = pow10(gap);
    let top = pow10(MAX_DIGITS as nat);
    let wide = pow10((2 * MAX_SCALE) as nat);
    assert(m * p < top * wide) by (nonlinear_arith)
        requires
            m < top,
            1 <= p <= wide,
    ;
    assert(a.unscaled * p == m * p || a.unscaled * p == -(m * p)) by (nonlinear_arith)
        requires
            a.unscaled == m || a.unscaled == -m,
    ;
}

/// The difference of two stored decimals has a bounded number of digits.
pub proof fn lemma_minus_digits(a: DecimalView, b: DecimalView)
    requires
        a.in_range(),
        b.in_range(),
    ensures
        a.minus(b).digits() <= max_difference_digits(),
        -MAX_SCALE <= a.minus(b).scale <= MAX_SCALE,
{
    let scale = a.common_scale(b);
    lemma_aligned_bound(a, scale);
    lemma_aligned_bound(b, scale);
    let k = (MAX_DIGITS + 2 * MAX_SCALE) as nat;
    assert(pow10(k + 1) == 10 * pow10(k));
    lemma_digit_count_upper(a.minus(b).magnitude(), k + 1);
}

/// A number written with a precision has exactly that many significant
/// digits; zero, and any number at precision 0, is written with one.
pub proof fn lemma_with_prec_digits(v: DecimalView, prec: nat)
    ensures
        v.with_prec(prec).digits() == if v.unscaled == 0 || prec == 0 {
            1
        } else {
            prec
        },
        v.with_prec(prec).scale == v.scale + prec - v.digits(),
{
    let m = v.magnitude();
    if v.digits() > prec {
        let cut = (v.digits() - prec) as nat;
        lemma_digit_count_cut(m, cut);
        if prec == 0 {
            assert(m / pow10(cut) == 0);
        }
    } else {
        let added = (prec - v.digits()) as nat;
        if v.unscaled == 0 {
            assert(v.unscaled * pow10(added) == 0) by (nonlinear_arith)
                requires
                    v.unscaled == 0,
            ;
        } else {
            lemma_digit_count_shift(m, added);
            assert(v.unscaled * pow10(added) == m * pow10(added) || v.unscaled * pow10(added) == -(m
                * pow10(added))) by (nonlinear_arith)
                requires
                    v.unscaled == m || v.unscaled == -m,
            ;
            lemma_pow10_positive(added);
            assert(m * pow10(added) >= 1) by (nonlinear_arith)
                requires
                    m >= 1,
                    pow10(added) >= 1,
            ;
        }
    }
}

/// Appending zeros to reach a precision leaves the number unchanged.
pub proof fn lemma_with_prec_pads(v: DecimalView, prec: nat)
    requires
        v.digits() <= prec,
    ensures
        v.with_prec(prec).same_number(v),
{
    let w = v.with_prec(prec);
    let added = (prec - v.digits()) as nat;
    assert(w.scale == v.scale + added);
    lemma_lt_at(w, v, w.scale);
    assert(pow10(0) == 1);
    assert(w.at_scale(w.scale) == w.unscaled * 1);
    assert(v.at_scale(w.scale) == v.unscaled * pow10(added));
}

} // verus!
