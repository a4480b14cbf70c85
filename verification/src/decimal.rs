//! Decimal numbers of any length, as the venues send them.
//!
//! A [`Decimal`] keeps the digits of its unscaled part and a scale, exactly as
//! written: `1.0` and `1.00` are the same number with different digits. Text
//! is read, and aligned numbers are compared and subtracted, by the
//! `bigdecimal` crate; cutting to a precision, aligning and negating are done
//! here.

use crate::decimal_model::{DecimalView, MAX_DIGITS, MAX_SCALE};
use crate::digits::{
    canonical, digits_value, lemma_append_zeros, lemma_canonical_digit_count,
    lemma_canonical_zero, lemma_digits_value_prepend, lemma_leading_digit_positive,
    lemma_pow10_positive, lemma_single_digit, lemma_take_divides, pow10, zeros,
};
use bigdecimal::num_bigint::{BigInt, Sign};
use bigdecimal::BigDecimal;
use std::str::FromStr;
use vstd::prelude::*;
use vstd::string::StringSliceAdditionalSpecFns;
use vstd::utf8::encode_utf8;

verus! {

/// The longest text, in bytes, that is read as a decimal.
pub const MAX_TEXT_LEN: usize = 0x7fff_ffff;

/// The most bytes that may follow the exponent marker of a decimal text.
pub const MAX_EXPONENT_LEN: usize = 18;

/// The index of the exponent marker in `bytes`: that of the first `e` or
/// `E`, or the length of `bytes` where there is none.
pub open spec fn marker_index(bytes: Seq<u8>) -> nat
    decreases bytes.len(),
{
    if bytes.len() == 0 {
        0
    } else if bytes[0] == 0x65 || bytes[0] == 0x45 {
        0
    } else {
        1 + marker_index(bytes.drop_first())
    }
}

/// The text is short enough to be read: it is at most [`MAX_TEXT_LEN`] bytes
/// long, and at most [`MAX_EXPONENT_LEN`] bytes follow its exponent marker.
/// The scale of such a text fits in 64 bits whatever its digits are.
pub open spec fn short_exponent(bytes: Seq<u8>) -> bool {
    &&& bytes.len() <= MAX_TEXT_LEN
    &&& bytes.len() - marker_index(bytes) <= MAX_EXPONENT_LEN + 1
}

/// What `bigdecimal` reads `text` as: the unscaled part and the scale, or
/// `None` where it refuses the text.
pub uninterp spec fn decimal_reading(text: Seq<char>) -> Option<(int, int)>;

/// The text can be read as a decimal.
pub open spec fn readable(text: Seq<char>) -> bool {
    short_exponent(encode_utf8(text)) && decimal_reading(text) is Some
}

/// The decimal that a readable text denotes, digits as written.
pub open spec fn reading(text: Seq<char>) -> DecimalView
    recommends
        decimal_reading(text) is Some,
{
    let parts = decimal_reading(text)->0;
    DecimalView { unscaled: parts.0, scale: parts.1 }
}

/// An integer with the sign that `negative` gives it.
pub open spec fn signed(negative: bool, magnitude: nat) -> int {
    if negative {
        -(magnitude as int)
    } else {
        magnitude as int
    }
}

/// A decimal number of any length: a sign, the digits of the unscaled part
/// (most significant first) and a scale.
#[derive(Debug)]
pub struct Decimal {
    negative: bool,
    digits: Vec<u8>,
    scale: i64,
}

impl View for Decimal {
    type V = DecimalView;

    closed spec fn view(&self) -> DecimalView {
        DecimalView {
            unscaled: signed(self.negative, digits_value(self.digits@)),
            scale: self.scale as int,
        }
    }
}

impl Clone for Decimal {
    fn clone(&self) -> (r: Decimal)
        ensures
            r@ == self@,
            r.wf() == self.wf(),
    {
        Decimal { negative: self.negative, digits: copy_digits(&self.digits), scale: self.scale }
    }
}

/// A copy of a digit string.
fn copy_digits(digits: &Vec<u8>) -> (r: Vec<u8>)
    ensures
        r@ == digits@,
{
    let mut r: Vec<u8> = Vec::new();
    let mut i: usize = 0;
    while i < digits.len()
        invariant
            i <= digits.len(),
            r@ == digits@.take(i as int),
        decreases digits.len() - i,
    {
        r.push(digits[i]);
        assert(digits@.take(i + 1) =~= digits@.take(i as int).push(digits@[i as int]));
        i += 1;
    }
    assert(digits@.take(i as int) =~= digits@);
    assert(r@ =~= digits@);
    r
}

/// Whether `bigdecimal` can read `text` without its scale leaving 64 bits.
fn has_short_exponent(text: &str) -> (r: bool)
    ensures
        r == short_exponent(text.spec_bytes()),
{
    let bytes = text.as_bytes();
    let n = bytes.len();
    if n > MAX_TEXT_LEN {
        return false;
    }
    let mut i: usize = 0;
    assert(bytes@.skip(0) =~= bytes@);
    while i < n && bytes[i] != 0x65 && bytes[i] != 0x45
        invariant
            i <= n,
            n == bytes@.len(),
            marker_index(bytes@) == i + marker_index(bytes@.skip(i as int)),
        decreases n - i,
    {
        assert(bytes@.skip(i as int).drop_first() =~= bytes@.skip(i + 1));
        i += 1;
    }
    assert(marker_index(bytes@.skip(i as int)) == 0);
    n - i <= MAX_EXPONENT_LEN + 1
}

/// Reads `text` with `bigdecimal`'s `FromStr` and hands back the digits and
/// scale that it produced, unchanged. The contract claims that the result is
/// a function of the text alone ([`decimal_reading`]), and that the digits
/// come without a leading zero and with a sign only where the number is not
/// zero, as `BigInt::to_radix_be` gives them. A text with a long exponent is
/// left out: there the subtraction that computes the scale can overflow.
#[verifier::external_body]
fn read_decimal(text: &str) -> (r: Option<Decimal>)
    requires
        short_exponent(text.spec_bytes()),
    ensures
        r is Some <==> decimal_reading(text@) is Some,
        r matches Some(d) ==> d.wf() && decimal_reading(text@) == Some((d@.unscaled, d@.scale)),
{
    match BigDecimal::from_str(text) {
        Ok(number) => {
            let (unscaled, scale) = number.into_bigint_and_exponent();
            let (sign, digits) = unscaled.to_radix_be(10);
            let negative = match sign {
                Sign::Minus => true,
                Sign::NoSign => false,
                Sign::Plus => false,
            };
            Some(Decimal { negative, digits, scale })
        },
        Err(_) => None,
    }
}

/// Compares two decimals of one scale with `bigdecimal`'s `<`. At one scale
/// the crate compares the signs and then the sign of the difference of the
/// unscaled parts, so the contract claims the order of the unscaled parts.
#[verifier::external_body]
fn aligned_lt(a: &Decimal, b: &Decimal) -> (r: bool)
    requires
        a.wf(),
        b.wf(),
        a@.scale == b@.scale,
    ensures
        r == (a@.unscaled < b@.unscaled),
{
    let sign_a = if a.negative { Sign::Minus } else { Sign::Plus };
    let sign_b = if b.negative { Sign::Minus } else { Sign::Plus };
    let x = BigDecimal::new(BigInt::from_radix_be(sign_a, &a.digits, 10).unwrap(), a.scale);
    let y = BigDecimal::new(BigInt::from_radix_be(sign_b, &b.digits, 10).unwrap(), b.scale);
    x < y
}

/// Subtracts two decimals of one scale with `bigdecimal`'s `-`. At one scale
/// the crate subtracts the unscaled parts and keeps the scale, which is what
/// the contract claims.
#[verifier::external_body]
fn aligned_minus(a: &Decimal, b: &Decimal) -> (r: Decimal)
    requires
        a.wf(),
        b.wf(),
        a@.scale == b@.scale,
    ensures
        r.wf(),
        r@.unscaled == a@.unscaled - b@.unscaled,
        r@.scale == a@.scale,
{
    let sign_a = if a.negative { Sign::Minus } else { Sign::Plus };
    let sign_b = if b.negative { Sign::Minus } else { Sign::Plus };
    let x = BigDecimal::new(BigInt::from_radix_be(sign_a, &a.digits, 10).unwrap(), a.scale);
    let y = BigDecimal::new(BigInt::from_radix_be(sign_b, &b.digits, 10).unwrap(), b.scale);
    let (unscaled, scale) = (x - y).into_bigint_and_exponent();
    let (sign, digits) = unscaled.to_radix_be(10);
    let negative = match sign {
        Sign::Minus => true,
        Sign::NoSign => false,
        Sign::Plus => false,
    };
    Decimal { negative, digits, scale }
}

impl Decimal {
    /// The digits are the shortest that denote the unscaled part, and zero
    /// carries no sign.
    pub closed spec fn wf(&self) -> bool {
        &&& canonical(self.digits@)
        &&& self.negative ==> digits_value(self.digits@) > 0
    }

    /// Zero, written with no fractional digits.
    pub fn zero() -> (r: Decimal)
        ensures
            r.wf(),
            r@ == DecimalView::zero(),
    {
        let mut digits: Vec<u8> = Vec::new();
        digits.push(0);
        proof {
            lemma_single_digit(digits@);
        }
        Decimal { negative: false, digits, scale: 0 }
    }

    /// The decimal with the given sign, digits (most significant first) and
    /// scale. The digits must be the shortest that denote their number, and
    /// zero takes no sign.
    pub fn from_parts(negative: bool, digits: Vec<u8>, scale: i64) -> (r: Option<Decimal>)
        ensures
            r is Some <==> canonical(digits@) && (negative ==> digits_value(digits@) > 0),
            r matches Some(d) ==> d.wf() && d@ == (DecimalView {
                unscaled: signed(negative, digits_value(digits@)),
                scale: scale as int,
            }),
    {
        let n = digits.len();
        if n == 0 {
            return None;
        }
        let mut i: usize = 0;
        while i < n
            invariant
                i <= n,
                n == digits@.len(),
                forall|j: int| 0 <= j < i ==> #[trigger] digits@[j] < 10,
            decreases n - i,
        {
            if digits[i] >= 10 {
                return None;
            }
            i += 1;
        }
        if n > 1 && digits[0] == 0 {
            return None;
        }
        proof {
            lemma_canonical_zero(digits@);
        }
        if negative && n == 1 && digits[0] == 0 {
            return None;
        }
        Some(Decimal { negative, digits, scale })
    }

    /// The decimal `value * 10^(-scale)`, written with the digits of
    /// `value`.
    pub fn from_u64(value: u64, scale: i64) -> (r: Decimal)
        ensures
            r.wf(),
            r@ == (DecimalView { unscaled: value as int, scale: scale as int }),
    {
        let mut digits: Vec<u8> = Vec::new();
        let mut rest: u64 = value;
        let mut done = false;
        proof {
            assert(pow10(0) == 1);
            assert(rest * 1 == rest);
        }
        while !done
            invariant
                value == rest * pow10(digits@.len()) + digits_value(digits@),
                forall|j: int| 0 <= j < digits@.len() ==> #[trigger] digits@[j] < 10,
                done ==> rest == 0 && digits@.len() >= 1,
                done && digits@.len() > 1 ==> digits@[0] != 0,
                !done && digits@.len() > 0 ==> rest >= 1,
            decreases rest + if done { 0int } else { 1int },
        {
            let d: u8 = (rest % 10) as u8;
            let ghost before = digits@;
            let ghost old_rest = rest;
            digits.insert(0, d);
            rest = rest / 10;
            proof {
                assert(digits@ =~= seq![d] + before);
                lemma_digits_value_prepend(d, before);
                assert(pow10(before.len() + 1) == 10 * pow10(before.len()));
                assert(old_rest * pow10(before.len()) == rest * (10 * pow10(before.len())) + d
                    * pow10(before.len())) by (nonlinear_arith)
                    requires
                        old_rest == rest * 10 + d,
                ;
            }
            if rest == 0 {
                done = true;
                proof {
                    assert(rest * pow10(digits@.len()) == 0) by (nonlinear_arith)
                        requires
                            rest == 0,
                    ;
                }
            }
        }
        assert(value == digits_value(digits@)) by (nonlinear_arith)
            requires
                value == rest * pow10(digits@.len()) + digits_value(digits@),
                rest == 0,
        ;
        Decimal { negative: false, digits, scale }
    }

    /// Reads a decimal from text: an optional sign, digits with an optional
    /// point, and an optional exponent, as `bigdecimal` reads them. The
    /// digits are kept as written. A text of more than [`MAX_TEXT_LEN`]
    /// bytes, or with more than [`MAX_EXPONENT_LEN`] bytes behind its
    /// exponent marker, is refused like one that is no decimal.
    pub fn parse(text: &str) -> (r: Option<Decimal>)
        ensures
            r is Some <==> readable(text@),
            r matches Some(d) ==> d.wf() && d@ == reading(text@),
    {
        if has_short_exponent(text) {
            read_decimal(text)
        } else {
            None
        }
    }

    /// Whether the number is below zero.
    pub fn is_negative(&self) -> (r: bool)
        requires
            self.wf(),
        ensures
            r == (self@.unscaled < 0),
    {
        self.negative
    }

    /// Whether the number is zero.
    pub fn is_zero(&self) -> (r: bool)
        requires
            self.wf(),
        ensures
            r == (self@.unscaled == 0),
    {
        proof {
            lemma_canonical_zero(self.digits@);
        }
        self.digits.len() == 1 && self.digits[0] == 0
    }

    /// The scale: how many of the digits stand behind the point.
    pub fn scale(&self) -> (r: i64)
        ensures
            r == self@.scale,
    {
        self.scale
    }

    /// The digits of the unscaled part, most significant first.
    pub fn digits(&self) -> (r: &Vec<u8>)
        requires
            self.wf(),
        ensures
            canonical(r@),
            digits_value(r@) == self@.magnitude(),
            r@.len() == self@.digits(),
    {
        proof {
            lemma_canonical_digit_count(self.digits@);
        }
        &self.digits
    }

    /// Whether the decimal is small enough to be stored in a book.
    pub fn is_in_range(&self) -> (r: bool)
        requires
            self.wf(),
        ensures
            r == self@.in_range(),
    {
        proof {
            lemma_canonical_digit_count(self.digits@);
        }
        self.digits.len() <= MAX_DIGITS && -MAX_SCALE <= self.scale && self.scale <= MAX_SCALE
    }

    /// The number with its sign flipped.
    pub fn negated(&self) -> (r: Decimal)
        requires
            self.wf(),
        ensures
            r.wf(),
            r@ == self@.negated(),
    {
        let zero = self.is_zero();
        Decimal {
            negative: !self.negative && !zero,
            digits: copy_digits(&self.digits),
            scale: self.scale,
        }
    }

    /// The same number written at a larger scale: zeros are appended to its
    /// digits.
    fn rescaled(&self, scale: i64) -> (r: Decimal)
        requires
            self.wf(),
            self@.scale <= scale,
            self@.digits() + (scale - self@.scale) <= usize::MAX,
        ensures
            r.wf(),
            r@.scale == scale,
            r@.unscaled == self@.at_scale(scale as int),
    {
        let mut digits = copy_digits(&self.digits);
        let gap: usize = (scale as i128 - self.scale as i128) as usize;
        proof {
            lemma_canonical_digit_count(self.digits@);
            lemma_canonical_zero(self.digits@);
            lemma_pow10_positive(gap as nat);
        }
        if self.is_zero() {
            assert(self@.at_scale(scale as int) == 0) by (nonlinear_arith)
                requires
                    self@.unscaled == 0,
                    self@.at_scale(scale as int) == self@.unscaled * pow10(gap as nat),
            ;
        } else {
            let mut k: usize = 0;
            while k < gap
                invariant
                    k <= gap,
                    digits@ == self.digits@ + zeros(k as nat),
                decreases gap - k,
            {
                digits.push(0);
                assert(digits@ =~= self.digits@ + zeros((k + 1) as nat));
                k += 1;
            }
            proof {
                lemma_append_zeros(self.digits@, gap as nat);
                let v = digits_value(self.digits@);
                let p = pow10(gap as nat);
                assert(v * p >= 1) by (nonlinear_arith)
                    requires
                        v >= 1,
                        p >= 1,
                ;
                assert(digits@[0] == self.digits@[0]);
                assert(canonical(digits@));
                assert(signed(self.negative, v) * p == signed(self.negative, v * p))
                    by (nonlinear_arith);
            }
        }
        Decimal { negative: self.negative, digits, scale }
    }

    /// Whether `self` is a smaller number than `other`. Both must be small
    /// enough to be stored, so that they can be written at one scale.
    pub fn lt(&self, other: &Decimal) -> (r: bool)
        requires
            self.wf(),
            other.wf(),
            self@.in_range(),
            other@.in_range(),
        ensures
            r == self@.lt(other@),
    {
        if self.scale == other.scale {
            proof {
                assert(pow10(0) == 1);
                assert(self@.at_scale(self@.scale) == self@.unscaled * 1);
                assert(other@.at_scale(self@.scale) == other@.unscaled * 1);
            }
            aligned_lt(self, other)
        } else {
            let scale = if self.scale >= other.scale {
                self.scale
            } else {
                other.scale
            };
            let a = self.rescaled(scale);
            let b = other.rescaled(scale);
            aligned_lt(&a, &b)
        }
    }

    /// The exact difference `self - other`, written at the larger of the two
    /// scales. Both must be small enough to be stored, so that they can be
    /// written at one scale.
    pub fn minus(&self, other: &Decimal) -> (r: Decimal)
        requires
            self.wf(),
            other.wf(),
            self@.in_range(),
            other@.in_range(),
        ensures
            r.wf(),
            r@ == self@.minus(other@),
    {
        let scale = if self.scale >= other.scale {
            self.scale
        } else {
            other.scale
        };
        let a = self.rescaled(scale);
        let b = other.rescaled(scale);
        aligned_minus(&a, &b)
    }

    /// The number written with `prec` significant digits: digits after the
    /// first `prec` are cut off, and a shorter number is filled up with
    /// zeros. `None` where the scale of the result does not fit in 64 bits.
    pub fn with_prec(&self, prec: u64) -> (r: Option<Decimal>)
        requires
            self.wf(),
        ensures
            r is Some <==> i64::MIN <= self@.with_prec(prec as nat).scale <= i64::MAX,
            r matches Some(d) ==> d.wf() && d@ == self@.with_prec(prec as nat),
    {
        let n = self.digits.len();
        proof {
            lemma_canonical_digit_count(self.digits@);
            lemma_canonical_zero(self.digits@);
        }
        if n as u64 > prec {
            let keep: usize = prec as usize;
            let cut: usize = n - keep;
            let scale: i128 = self.scale as i128 - cut as i128;
            if scale < i64::MIN as i128 {
                return None;
            }
            proof {
                lemma_take_divides(self.digits@, keep as nat);
            }
            if keep == 0 {
                let mut digits: Vec<u8> = Vec::new();
                digits.push(0);
                proof {
                    lemma_single_digit(digits@);
                    assert(self.digits@.take(0).len() == 0);
                    assert(digits_value(self.digits@.take(0)) == 0);
                }
                Some(Decimal { negative: false, digits, scale: scale as i64 })
            } else {
                let mut digits: Vec<u8> = Vec::new();
                let mut i: usize = 0;
                while i < keep
                    invariant
                        i <= keep,
                        keep <= self.digits@.len(),
                        digits@ == self.digits@.take(i as int),
                    decreases keep - i,
                {
                    digits.push(self.digits[i]);
                    assert(self.digits@.take(i + 1) =~= self.digits@.take(i as int).push(
                        self.digits@[i as int],
                    ));
                    i += 1;
                }
                proof {
                    assert(digits@[0] == self.digits@[0]);
                    assert(forall|j: int| 0 <= j < digits@.len() ==> digits@[j] == self.digits@[j]);
                    assert(canonical(digits@));
                    lemma_leading_digit_positive(digits@);
                }
                Some(Decimal { negative: self.negative, digits, scale: scale as i64 })
            }
        } else {
            let added: u64 = prec - n as u64;
            let scale: i128 = self.scale as i128 + added as i128;
            if scale > i64::MAX as i128 {
                return None;
            }
            let mut digits = copy_digits(&self.digits);
            proof {
                lemma_pow10_positive(added as nat);
            }
            if self.is_zero() {
                assert(self@.unscaled * pow10(added as nat) == 0) by (nonlinear_arith)
                    requires
                        self@.unscaled == 0,
                ;
            } else {
                let mut k: u64 = 0;
                while k < added
                    invariant
                        k <= added,
                        digits@ == self.digits@ + zeros(k as nat),
                    decreases added - k,
                {
                    digits.push(0);
                    assert(digits@ =~= self.digits@ + zeros((k + 1) as nat));
                    k += 1;
                }
                proof {
                    lemma_append_zeros(self.digits@, added as nat);
                    let v = digits_value(self.digits@);
                    let p = pow10(added as nat);
                    assert(v * p >= 1) by (nonlinear_arith)
                        requires
                            v >= 1,
                            p >= 1,
                    ;
                    assert(digits@[0] == self.digits@[0]);
                    assert(canonical(digits@));
                    assert(signed(self.negative, v) * p == signed(self.negative, v * p))
                        by (nonlinear_arith);
                }
            }
            Some(Decimal { negative: self.negative, digits, scale: scale as i64 })
        }
    }
}

} // verus!
