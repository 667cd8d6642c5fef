use atoi::{FromRadix10, FromRadix10Signed};
use vstd::arithmetic::div_mod::{lemma_div_by_multiple, lemma_div_denominator};
use vstd::prelude::*;

verus! {

/// ASCII `'0'`.
pub const ZERO_DIGIT: u8 = 48;

/// ASCII `'-'`.
pub const MINUS_SIGN: u8 = 45;

/// ASCII `'+'`.
pub const PLUS_SIGN: u8 = 43;

pub open spec fn is_digit(b: u8) -> bool {
    ZERO_DIGIT <= b <= 57
}

pub open spec fn is_sign(b: u8) -> bool {
    b == PLUS_SIGN || b == MINUS_SIGN
}

/// Ten to the power of `n`.
pub open spec fn pow10(n: nat) -> int
    decreases n,
{
    if n == 0 {
        1
    } else {
        10 * pow10((n - 1) as nat)
    }
}

/// Division rounding toward zero, as integer division does on machine integers.
pub open spec fn trunc_div(a: int, b: int) -> int {
    if a >= 0 {
        a / b
    } else {
        -((-a) / b)
    }
}

pub open spec fn in_i128(x: int) -> bool {
    i128::MIN <= x <= i128::MAX
}

/// Number of ASCII digits at the start of `s`.
pub open spec fn digit_run(s: Seq<u8>) -> nat
    decreases s.len(),
{
    if s.len() > 0 && is_digit(s[0]) {
        1 + digit_run(s.drop_first())
    } else {
        0
    }
}

/// The number that the ASCII digits `s` spell in base ten.
pub open spec fn digits_value(s: Seq<u8>) -> int
    decreases s.len(),
{
    if s.len() == 0 {
        0
    } else {
        10 * digits_value(s.drop_last()) + (s.last() - ZERO_DIGIT)
    }
}

/// Length of the optional leading sign of `t`.
pub open spec fn sign_len(t: Seq<u8>) -> nat {
    if t.len() > 0 && is_sign(t[0]) {
        1
    } else {
        0
    }
}

/// Bytes taken by an optional sign followed by the longest run of digits.
pub open spec fn signed_prefix_len(t: Seq<u8>) -> nat {
    sign_len(t) + digit_run(t.skip(sign_len(t) as int))
}

/// Value of the signed integer at the start of `t` (zero where no digit follows the sign).
pub open spec fn signed_prefix_value(t: Seq<u8>) -> int {
    let v = digits_value(t.subrange(sign_len(t) as int, signed_prefix_len(t) as int));
    if sign_len(t) == 1 && t[0] == MINUS_SIGN {
        -v
    } else {
        v
    }
}

/// Value of the run of digits at the start of `t` (zero where there is none).
pub open spec fn unsigned_prefix_value(t: Seq<u8>) -> int {
    digits_value(t.take(digit_run(t) as int))
}

/// What follows the radix character: empty where the integer part is the whole text.
pub open spec fn fraction_text(t: Seq<u8>) -> Seq<u8> {
    if signed_prefix_len(t) == t.len() {
        Seq::empty()
    } else {
        t.skip(signed_prefix_len(t) as int + 1)
    }
}

/// Number of fractional digits written in `t`.
pub open spec fn fraction_digits(t: Seq<u8>) -> nat {
    digit_run(fraction_text(t))
}

/// The fractional digits of `t` read as an integer.
pub open spec fn fraction_value(t: Seq<u8>) -> int {
    unsigned_prefix_value(fraction_text(t))
}

/// Whether the decimal is negative: a negative integer part, or a zero one written with `-`.
pub open spec fn is_negative(t: Seq<u8>) -> bool {
    signed_prefix_value(t) < 0 || (signed_prefix_value(t) == 0 && t[0] == MINUS_SIGN)
}

/// The decimal written in `t`, times ten to the number of its fractional digits.
pub open spec fn unscaled_value(t: Seq<u8>) -> int {
    let shifted = signed_prefix_value(t) * pow10(fraction_digits(t));
    if is_negative(t) {
        shifted - fraction_value(t)
    } else {
        shifted + fraction_value(t)
    }
}

/// The decimal written in `t` times ten to the `scale`, truncated toward zero.
pub open spec fn scaled_value(t: Seq<u8>, scale: nat) -> int {
    trunc_div(unscaled_value(t) * pow10(scale), pow10(fraction_digits(t)))
}

/// How many zeroes are missing after the fractional digits of `t` to reach `scale`.
pub open spec fn padding(t: Seq<u8>, scale: nat) -> nat {
    if fraction_digits(t) < scale {
        (scale - fraction_digits(t)) as nat
    } else {
        0
    }
}

/// Every intermediate value of the conversion fits in an `i128`.
pub open spec fn fits_i128(t: Seq<u8>, scale: nat) -> bool {
    &&& in_i128(signed_prefix_value(t) * pow10(fraction_digits(t)))
    &&& fraction_value(t) <= i128::MAX
    &&& in_i128(unscaled_value(t) * pow10(padding(t, scale)))
}

/// Relies on atoi's `FromRadix10Signed` for `i128`: it reads an optional `+` or `-`, then the
/// longest run of ASCII digits, and returns the value and the number of bytes read.
#[verifier::external_body]
fn parse_signed_prefix(text: &[u8]) -> (r: (i128, usize))
    requires
        in_i128(signed_prefix_value(text@)),
    ensures
        r.0 == signed_prefix_value(text@),
        r.1 == signed_prefix_len(text@),
{
    i128::from_radix_10_signed(text)
}

/// Relies on atoi's `FromRadix10` for `i128`: it reads the longest run of ASCII digits and
/// returns the value and the number of digits.
#[verifier::external_body]
fn parse_unsigned_prefix(text: &[u8]) -> (r: (i128, usize))
    requires
        unsigned_prefix_value(text@) <= i128::MAX,
    ensures
        r.0 == unsigned_prefix_value(text@),
        r.1 == digit_run(text@),
{
    i128::from_radix_10(text)
}

proof fn lemma_digit_run_bound(s: Seq<u8>)
    ensures
        digit_run(s) <= s.len(),
    decreases s.len(),
{
    if s.len() > 0 && is_digit(s[0]) {
        lemma_digit_run_bound(s.drop_first());
    }
}

proof fn lemma_pow10_positive(n: nat)
    ensures
        pow10(n) >= 1,
    decreases n,
{
    if n > 0 {
        lemma_pow10_positive((n - 1) as nat);
    }
}

proof fn lemma_pow10_adds(a: nat, b: nat)
    ensures
        pow10(a + b) == pow10(a) * pow10(b),
    decreases b,
{
    if b > 0 {
        lemma_pow10_adds(a, (b - 1) as nat);
        assert(pow10(a + b) == 10 * pow10((a + b - 1) as nat));
        assert(pow10(a) * pow10(b) == pow10(a) * (10 * pow10((b - 1) as nat)));
        assert(pow10(a) * (10 * pow10((b - 1) as nat)) == 10 * (pow10(a) * pow10(
            (b - 1) as nat,
        ))) by (nonlinear_arith);
    }
}

/// Multiplying by a larger power of ten does not shrink a magnitude.
proof fn lemma_scale_monotone(x: int, a: nat, b: nat)
    requires
        a <= b,
    ensures
        x >= 0 ==> 0 <= x * pow10(a) <= x * pow10(b),
        x < 0 ==> x * pow10(b) <= x * pow10(a) < 0,
{
    lemma_pow10_adds(a, (b - a) as nat);
    lemma_pow10_positive(a);
    lemma_pow10_positive((b - a) as nat);
    let p = pow10(a);
    let q = pow10((b - a) as nat);
    assert(pow10(b) == p * q);
    assert(x >= 0 ==> 0 <= x * p <= x * (p * q)) by (nonlinear_arith)
        requires
            p >= 1,
            q >= 1,
    ;
    assert(x < 0 ==> x * (p * q) <= x * p < 0) by (nonlinear_arith)
        requires
            p >= 1,
            q >= 1,
    ;
}

/// Truncating twice is truncating once by the product.
proof fn lemma_trunc_div_twice(x: int, p: int)
    requires
        p >= 1,
    ensures
        trunc_div(trunc_div(x, p), 10) == trunc_div(x, p * 10),
{
    if x >= 0 {
        lemma_div_denominator(x, p, 10);
        assert(x / p >= 0) by (nonlinear_arith)
            requires
                x >= 0,
                p >= 1,
        ;
    } else {
        lemma_div_denominator(-x, p, 10);
        assert((-x) / p >= 0) by (nonlinear_arith)
            requires
                x < 0,
                p >= 1,
        ;
        if (-x) / p == 0 {
            assert(trunc_div(x, p) == 0);
        }
    }
}

/// Exact multiples of the divisor are divided without loss.
proof fn lemma_trunc_div_exact(c: int, k: int, p: int)
    requires
        p >= 1,
    ensures
        trunc_div(c * k * p, p) == c * k,
{
    if c * k >= 0 {
        lemma_div_by_multiple(c * k, p);
        assert(c * k * p >= 0) by (nonlinear_arith)
            requires
                c * k >= 0,
                p >= 1,
        ;
    } else {
        lemma_div_by_multiple(-(c * k), p);
        assert(c * k * p < 0) by (nonlinear_arith)
            requires
                c * k < 0,
                p >= 1,
        ;
        assert(-(c * k * p) == (-(c * k)) * p) by (nonlinear_arith);
    }
}

/// A common power of ten in numerator and denominator cancels.
proof fn lemma_trunc_div_cancel(c: int, p: int, q: int)
    requires
        p >= 1,
        q >= 1,
    ensures
        trunc_div(c * p, p * q) == trunc_div(c, q),
{
    if c >= 0 {
        assert(c * p >= 0) by (nonlinear_arith)
            requires
                c >= 0,
                p >= 1,
        ;
        lemma_div_denominator(c * p, p, q);
        lemma_div_by_multiple(c, p);
    } else {
        assert(-(c * p) == (-c) * p) by (nonlinear_arith);
        assert(c * p < 0) by (nonlinear_arith)
            requires
                c < 0,
                p >= 1,
        ;
        lemma_div_denominator((-c) * p, p, q);
        lemma_div_by_multiple(-c, p);
    }
}

/// The conversion result, as the fractional digits are padded with zeroes to `scale`.
proof fn lemma_scaled_padded(t: Seq<u8>, scale: nat)
    requires
        fraction_digits(t) <= scale,
    ensures
        scaled_value(t, scale) == unscaled_value(t) * pow10((scale - fraction_digits(t)) as nat),
{
    let d = fraction_digits(t);
    let k = pow10((scale - d) as nat);
    lemma_pow10_adds((scale - d) as nat, d);
    lemma_pow10_positive(d);
    assert(pow10(scale) == k * pow10(d));
    assert(unscaled_value(t) * (k * pow10(d)) == unscaled_value(t) * k * pow10(d))
        by (nonlinear_arith);
    lemma_trunc_div_exact(unscaled_value(t), k, pow10(d));
}

/// The conversion result, as excess fractional digits are cut off.
proof fn lemma_scaled_truncated(t: Seq<u8>, scale: nat)
    requires
        scale <= fraction_digits(t),
    ensures
        scaled_value(t, scale) == trunc_div(
            unscaled_value(t),
            pow10((fraction_digits(t) - scale) as nat),
        ),
{
    let d = fraction_digits(t);
    lemma_pow10_adds(scale, (d - scale) as nat);
    lemma_pow10_positive(scale);
    lemma_pow10_positive((d - scale) as nat);
    lemma_trunc_div_cancel(unscaled_value(t), pow10(scale), pow10((d - scale) as nat));
}

proof fn lemma_digit_run_push(s: Seq<u8>, b: u8)
    ensures
        digit_run(s) < s.len() ==> digit_run(s.push(b)) == digit_run(s),
        digit_run(s) == s.len() && is_digit(b) ==> digit_run(s.push(b)) == s.len() + 1,
    decreases s.len(),
{
    lemma_digit_run_bound(s);
    assert(s.push(b)[0] == if s.len() > 0 { s[0] } else { b });
    if s.len() > 0 {
        assert(s.push(b).drop_first() =~= s.drop_first().push(b));
        lemma_digit_run_push(s.drop_first(), b);
    } else {
        assert(s.push(b).drop_first() =~= Seq::<u8>::empty());
        assert(digit_run(Seq::<u8>::empty()) == 0);
    }
}

/// Trailing zeroes in the fraction do not change the converted value: appending a zero digit
/// to a text whose fractional digits run to its end gives the same result for every scale
/// (and so does removing one).
pub proof fn lemma_trailing_zero_invariant(t: Seq<u8>, scale: nat)
    requires
        signed_prefix_len(t) < t.len(),
        signed_prefix_len(t) + 1 + fraction_digits(t) == t.len(),
    ensures
        scaled_value(t.push(ZERO_DIGIT), scale) == scaled_value(t, scale),
{
    let u = t.push(ZERO_DIGIT);
    let sl = sign_len(t);
    let len = signed_prefix_len(t);
    assert(sign_len(u) == sl);
    lemma_digit_run_bound(t.skip(sl as int));
    assert(u.skip(sl as int) =~= t.skip(sl as int).push(ZERO_DIGIT));
    lemma_digit_run_push(t.skip(sl as int), ZERO_DIGIT);
    assert(signed_prefix_len(u) == len);
    assert(u.subrange(sl as int, len as int) =~= t.subrange(sl as int, len as int));
    assert(signed_prefix_value(u) == signed_prefix_value(t));
    let f = fraction_text(t);
    assert(fraction_text(u) =~= f.push(ZERO_DIGIT));
    let d = fraction_digits(t);
    assert(f.len() == d);
    lemma_digit_run_push(f, ZERO_DIGIT);
    assert(fraction_digits(u) == d + 1);
    assert(f.push(ZERO_DIGIT).take(d as int + 1) =~= f.push(ZERO_DIGIT));
    assert(f.take(d as int) =~= f);
    assert(f.push(ZERO_DIGIT).drop_last() =~= f);
    assert(fraction_value(u) == 10 * fraction_value(t));
    assert(is_negative(u) == is_negative(t));
    let lhs = signed_prefix_value(t);
    let p = pow10(d);
    assert(pow10(d + 1) == 10 * p);
    assert(lhs * (10 * p) == 10 * (lhs * p)) by (nonlinear_arith);
    let c = unscaled_value(t);
    assert(unscaled_value(u) == 10 * c);
    lemma_pow10_positive(d);
    lemma_pow10_positive(scale);
    let x = c * pow10(scale);
    assert(10 * c * pow10(scale) == (c * pow10(scale)) * 10) by (nonlinear_arith);
    lemma_trunc_div_cancel(x, 10, p);
}

/// Converts the text of a decimal into that decimal times ten to the `scale`, as an integer.
///
/// The text is an optional sign, the integer digits, then any single byte as the radix
/// character and the fractional digits; radix and fraction may be missing. Fractional
/// digits beyond `scale` are cut off (toward zero), missing ones count as zeroes.
pub fn decimal_text_to_i128(text: &[u8], scale: usize) -> (n: i128)
    requires
        text@.len() > 0,
        fits_i128(text@, scale as nat),
    ensures
        n == scaled_value(text@, scale as nat),
{
    let ghost t = text@;
    proof {
        lemma_digit_run_bound(t.skip(sign_len(t) as int));
        lemma_pow10_positive(fraction_digits(t));
        lemma_scale_monotone(signed_prefix_value(t), 0, fraction_digits(t));
    }
    let (mut lhs, num_digits_lhs) = parse_signed_prefix(text);
    let (rhs, num_digits_rhs) = if num_digits_lhs == text.len() {
        assert(fraction_text(t) =~= Seq::<u8>::empty());
        (0i128, 0usize)
    } else {
        let (_, rest) = text.split_at(num_digits_lhs + 1);
        assert(rest@ =~= fraction_text(t));
        parse_unsigned_prefix(rest)
    };
    let ghost lhs0 = lhs as int;
    assert(lhs0 * pow10(0) == lhs0);
    for i in 0..num_digits_rhs
        invariant
            num_digits_rhs == fraction_digits(t),
            lhs == lhs0 * pow10(i as nat),
            in_i128(lhs0 * pow10(fraction_digits(t))),
    {
        proof {
            lemma_scale_monotone(lhs0, (i + 1) as nat, fraction_digits(t));
            assert(lhs0 * pow10((i + 1) as nat) == lhs0 * (10 * pow10(i as nat)));
            assert(lhs0 * (10 * pow10(i as nat)) == 10 * (lhs0 * pow10(i as nat)))
                by (nonlinear_arith);
        }
        lhs = lhs * 10;
    }
    proof {
        lemma_scale_monotone(unscaled_value(t), 0, padding(t, scale as nat));
    }
    let mut n = if lhs < 0 || (lhs == 0 && text[0] == MINUS_SIGN) {
        lhs - rhs
    } else {
        lhs + rhs
    };
    let ghost c = n as int;
    assert(c * pow10(0) == c);
    if num_digits_rhs < scale {
        for i in 0..(scale - num_digits_rhs)
            invariant
                num_digits_rhs < scale,
                n == c * pow10(i as nat),
                in_i128(c * pow10((scale - num_digits_rhs) as nat)),
        {
            proof {
                lemma_scale_monotone(c, (i + 1) as nat, (scale - num_digits_rhs) as nat);
                assert(c * pow10((i + 1) as nat) == c * (10 * pow10(i as nat)));
                assert(c * (10 * pow10(i as nat)) == 10 * (c * pow10(i as nat)))
                    by (nonlinear_arith);
            }
            n = n * 10;
        }
        proof {
            lemma_scaled_padded(t, scale as nat);
        }
    } else {
        assert(pow10(0) == 1);
        assert(c / 1 == c && (-c) / 1 == -c);
        for i in 0..(num_digits_rhs - scale)
            invariant
                n == trunc_div(c, pow10(i as nat)),
                in_i128(c),
        {
            proof {
                lemma_pow10_positive(i as nat);
                lemma_trunc_div_twice(c, pow10(i as nat));
                assert(pow10((i + 1) as nat) == 10 * pow10(i as nat));
                assert(pow10(i as nat) * 10 == 10 * pow10(i as nat));
            }
            n = n / 10;
        }
        proof {
            lemma_scaled_truncated(t, scale as nat);
        }
    }
    n
}

} // verus!
