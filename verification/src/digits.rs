//! Decimal digit strings and the numbers they denote.
//!
//! A digit string is a `Seq<u8>` of digits, most significant first. The
//! lemmas here connect edits of the string (dropping trailing digits,
//! appending zeros) with arithmetic on the number it denotes.

use vstd::arithmetic::div_mod::lemma_div_denominator;
use vstd::prelude::*;

verus! {

/// Ten to the power `n`.
pub open spec fn pow10(n: nat) -> nat
    decreases n,
{
    if n == 0 {
        1
    } else {
        10 * pow10((n - 1) as nat)
    }
}

/// The number that the digits `s` denote, most significant digit first.
pub open spec fn digits_value(s: Seq<u8>) -> nat
    decreases s.len(),
{
    if s.len() == 0 {
        0
    } else {
        digits_value(s.drop_last()) * 10 + s.last() as nat
    }
}

/// Every element is a decimal digit.
pub open spec fn all_digits(s: Seq<u8>) -> bool {
    forall|i: int| 0 <= i < s.len() ==> #[trigger] s[i] < 10
}

/// The shortest digit string of a number: at least one digit, and no
/// leading zero in front of another digit.
pub open spec fn canonical(s: Seq<u8>) -> bool {
    &&& s.len() >= 1
    &&& all_digits(s)
    &&& s.len() > 1 ==> s[0] != 0
}

/// How many decimal digits `n` has; zero has one.
pub open spec fn digit_count(n: nat) -> nat
    decreases n,
{
    if n < 10 {
        1
    } else {
        1 + digit_count(n / 10)
    }
}

/// A string of `k` zeros.
pub open spec fn zeros(k: nat) -> Seq<u8> {
    Seq::new(k, |i: int| 0u8)
}

/// A power of ten is at least one.
pub proof fn lemma_pow10_positive(n: nat)
    ensures
        pow10(n) >= 1,
    decreases n,
{
    if n > 0 {
        lemma_pow10_positive((n - 1) as nat);
    }
}

/// Powers of ten multiply by adding their exponents.
pub proof fn lemma_pow10_adds(a: nat, b: nat)
    ensures
        pow10(a + b) == pow10(a) * pow10(b),
    decreases a,
{
    if a == 0 {
        assert(pow10(0) == 1);
        assert(pow10(a + b) == 1 * pow10(b));
    } else {
        lemma_pow10_adds((a - 1) as nat, b);
        assert(pow10(a + b) == 10 * pow10((a - 1 + b) as nat));
        assert(10 * (pow10((a - 1) as nat) * pow10(b)) == (10 * pow10((a - 1) as nat)) * pow10(b))
            by (nonlinear_arith);
    }
}

/// A larger exponent gives no smaller a power of ten.
pub proof fn lemma_pow10_monotonic(a: nat, b: nat)
    requires
        a <= b,
    ensures
        pow10(a) <= pow10(b),
{
    lemma_pow10_adds(a, (b - a) as nat);
    lemma_pow10_positive((b - a) as nat);
    lemma_pow10_positive(a);
    let x = pow10(a);
    let y = pow10((b - a) as nat);
    assert(x <= x * y) by (nonlinear_arith)
        requires
            x >= 1,
            y >= 1,
    ;
}

/// A number is below ten to the count of its digits.
pub proof fn lemma_digit_count_bound(n: nat)
    ensures
        n < pow10(digit_count(n)),
    decreases n,
{
    reveal_with_fuel(pow10, 2);
    if n >= 10 {
        lemma_digit_count_bound(n / 10);
    }
}

/// A number below ten to the `k` has at most `k` digits.
pub proof fn lemma_digit_count_upper(n: nat, k: nat)
    requires
        k >= 1,
        n < pow10(k),
    ensures
        digit_count(n) <= k,
    decreases n,
{
    reveal_with_fuel(pow10, 2);
    if n >= 10 {
        lemma_digit_count_upper(n / 10, (k - 1) as nat);
    }
}

/// A number of 64 bits has at most twenty digits.
pub proof fn lemma_digit_count_u64(n: u64)
    ensures
        1 <= digit_count(n as nat) <= 20,
{
    reveal_with_fuel(pow10, 21);
    assert(pow10(20) == 100000000000000000000);
    lemma_digit_count_upper(n as nat, 20);
}

/// Appending `k` zeros to a positive number adds `k` digits.
pub proof fn lemma_digit_count_shift(n: nat, k: nat)
    requires
        n >= 1,
    ensures
        digit_count(n * pow10(k)) == digit_count(n) + k,
    decreases k,
{
    if k == 0 {
        assert(pow10(0) == 1);
        assert(n * 1 == n);
    } else {
        let shorter = n * pow10((k - 1) as nat);
        lemma_digit_count_shift(n, (k - 1) as nat);
        lemma_pow10_positive((k - 1) as nat);
        assert(shorter >= 1) by (nonlinear_arith)
            requires
                shorter == n * pow10((k - 1) as nat),
                n >= 1,
                pow10((k - 1) as nat) >= 1,
        ;
        assert(n * pow10(k) == shorter * 10) by (nonlinear_arith)
            requires
                shorter == n * pow10((k - 1) as nat),
                pow10(k) == 10 * pow10((k - 1) as nat),
        ;
        assert((shorter * 10) / 10 == shorter);
    }
}

/// Cutting off the last `cut` digits of a number leaves the others, and
/// nothing but zero once all are cut.
pub proof fn lemma_digit_count_cut(n: nat, cut: nat)
    requires
        cut <= digit_count(n),
    ensures
        cut < digit_count(n) ==> digit_count(n / pow10(cut)) == digit_count(n) - cut,
        cut < digit_count(n) && n >= 1 ==> n / pow10(cut) >= 1,
        cut == digit_count(n) ==> n / pow10(cut) == 0,
    decreases cut,
{
    if cut == 0 {
        assert(pow10(0) == 1);
        assert(n / 1 == n);
    } else if cut == digit_count(n) {
        lemma_digit_count_bound(n);
        lemma_pow10_positive(cut);
        vstd::arithmetic::div_mod::lemma_basic_div(n as int, pow10(cut) as int);
    } else {
        assert(n >= 10);
        lemma_digit_count_cut(n / 10, (cut - 1) as nat);
        lemma_pow10_positive((cut - 1) as nat);
        lemma_div_denominator(n as int, 10, pow10((cut - 1) as nat) as int);
        assert(pow10(cut) == 10 * pow10((cut - 1) as nat));
    }
}

/// A digit in front of a string counts by ten to the length of the string.
pub proof fn lemma_digits_value_prepend(d: u8, s: Seq<u8>)
    ensures
        digits_value(seq![d] + s) == d * pow10(s.len()) + digits_value(s),
    decreases s.len(),
{
    if s.len() == 0 {
        assert(seq![d] + s =~= seq![d]);
        lemma_single_digit(seq![d]);
        assert(pow10(0) == 1);
        assert(d * 1 == d);
    } else {
        let init = s.drop_last();
        assert((seq![d] + s).drop_last() =~= seq![d] + init);
        assert((seq![d] + s).last() == s.last());
        lemma_digits_value_prepend(d, init);
        assert((d * pow10(init.len()) + digits_value(init)) * 10 + s.last() == d * (10 * pow10(
            init.len(),
        )) + (digits_value(init) * 10 + s.last())) by (nonlinear_arith);
    }
}

/// A string of one digit denotes that digit.
pub proof fn lemma_single_digit(s: Seq<u8>)
    requires
        s.len() == 1,
    ensures
        digits_value(s) == s[0] as nat,
{
    assert(s.drop_last().len() == 0);
    assert(digits_value(s.drop_last()) == 0);
}

/// A string whose first digit is not zero denotes a positive number.
pub proof fn lemma_leading_digit_positive(s: Seq<u8>)
    requires
        s.len() >= 1,
        s[0] != 0,
    ensures
        digits_value(s) >= 1,
    decreases s.len(),
{
    if s.len() > 1 {
        lemma_leading_digit_positive(s.drop_last());
    }
}

/// The canonical string of a number has as many digits as the number.
pub proof fn lemma_canonical_digit_count(s: Seq<u8>)
    requires
        canonical(s),
    ensures
        digit_count(digits_value(s)) == s.len(),
    decreases s.len(),
{
    if s.len() == 1 {
        lemma_single_digit(s);
    } else {
        let init = s.drop_last();
        assert(canonical(init));
        lemma_canonical_digit_count(init);
        lemma_leading_digit_positive(init);
        assert(s.last() < 10);
        let v = digits_value(init);
        let d = s.last() as nat;
        assert((v * 10 + d) / 10 == v);
    }
}

/// Only the string `0` denotes zero among canonical strings.
pub proof fn lemma_canonical_zero(s: Seq<u8>)
    requires
        canonical(s),
    ensures
        digits_value(s) == 0 <==> (s.len() == 1 && s[0] == 0),
{
    if s.len() == 1 {
        lemma_single_digit(s);
    } else {
        lemma_leading_digit_positive(s);
    }
}

/// Appending `k` zeros multiplies the number by ten to the `k`.
pub proof fn lemma_append_zeros(s: Seq<u8>, k: nat)
    ensures
        digits_value(s + zeros(k)) == digits_value(s) * pow10(k),
    decreases k,
{
    if k == 0 {
        assert(s + zeros(0) =~= s);
        assert(pow10(0) == 1);
        assert(digits_value(s) * 1 == digits_value(s));
    } else {
        let shorter = s + zeros((k - 1) as nat);
        assert((s + zeros(k)).drop_last() =~= shorter);
        assert((s + zeros(k)).last() == 0);
        lemma_append_zeros(s, (k - 1) as nat);
        assert((digits_value(s) * pow10((k - 1) as nat)) * 10 == digits_value(s) * (10 * pow10(
            (k - 1) as nat,
        ))) by (nonlinear_arith);
    }
}

/// Keeping the first `n` digits divides the number by ten to the count of
/// digits dropped, rounding down.
pub proof fn lemma_take_divides(s: Seq<u8>, n: nat)
    requires
        all_digits(s),
        n <= s.len(),
    ensures
        digits_value(s.take(n as int)) == digits_value(s) / pow10((s.len() - n) as nat),
    decreases s.len() - n,
{
    if n == s.len() {
        assert(s.take(n as int) =~= s);
        assert(pow10(0) == 1);
        assert(digits_value(s) / 1 == digits_value(s));
    } else {
        let init = s.drop_last();
        assert(s.take(n as int) =~= init.take(n as int));
        lemma_take_divides(init, n);
        let k = (init.len() - n) as nat;
        assert(s.last() < 10);
        let v = digits_value(init);
        let d = s.last() as nat;
        assert((v * 10 + d) / 10 == v);
        lemma_pow10_positive(k);
        lemma_div_denominator(digits_value(s) as int, 10, pow10(k) as int);
        assert(pow10((s.len() - n) as nat) == 10 * pow10(k));
    }
}

} // verus!
