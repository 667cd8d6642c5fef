use odbc_api::decimal_text_to_i128;

/// Oracle with `NLS_NUMERIC_CHARACTERS` set to ",." writes a comma as the radix character.
#[test]
fn decimal_is_represented_with_comma_as_radix() {
    let actual = decimal_text_to_i128(b"10,00000", 5);
    assert_eq!(1_000_000, actual);
}

/// Trailing zeroes up to the scale may be omitted.
#[test]
fn decimal_with_less_zeroes() {
    let actual = decimal_text_to_i128(b"10.0", 5);
    assert_eq!(1_000_000, actual);
}

#[test]
fn negative_decimal() {
    let actual = decimal_text_to_i128(b"-10.00000", 5);
    assert_eq!(-1_000_000, actual);
}

#[test]
fn negative_decimal_small() {
    let actual = decimal_text_to_i128(b"-0.1", 5);
    assert_eq!(-10000, actual);
}

#[test]
fn decimal_with_too_much_scale() {
    let actual = decimal_text_to_i128(b"10.000000", 5);
    assert_eq!(1_000_000, actual);
}

#[test]
fn trailing_zeroes_beyond_scale_do_not_matter() {
    assert_eq!(150, decimal_text_to_i128(b"1.5", 2));
    assert_eq!(150, decimal_text_to_i128(b"1.50", 2));
    assert_eq!(150, decimal_text_to_i128(b"1.5000000", 2));
    assert_eq!(-150, decimal_text_to_i128(b"-1.500", 2));
}

#[test]
fn integer_without_radix_is_padded() {
    assert_eq!(4200, decimal_text_to_i128(b"42", 2));
    assert_eq!(-7, decimal_text_to_i128(b"-7", 0));
}

#[test]
fn explicit_plus_sign_is_accepted() {
    assert_eq!(325, decimal_text_to_i128(b"+3.25", 2));
}

#[test]
fn excess_digits_truncate_toward_zero() {
    assert_eq!(32, decimal_text_to_i128(b"3.29", 1));
    assert_eq!(-123, decimal_text_to_i128(b"-1.239", 2));
    assert_eq!(-1, decimal_text_to_i128(b"-1.999", 0));
    assert_eq!(0, decimal_text_to_i128(b"-0.09", 1));
}

#[test]
fn scale_zero_keeps_integer_part() {
    assert_eq!(123, decimal_text_to_i128(b"123.456", 0));
}

#[test]
fn leading_zeroes_and_empty_fraction() {
    assert_eq!(4200, decimal_text_to_i128(b"0042.", 2));
    assert_eq!(50, decimal_text_to_i128(b".5", 2));
}

#[test]
fn large_values_use_the_full_width() {
    assert_eq!(
        12_345_678_901_234_567_890_123_456_789_000,
        decimal_text_to_i128(b"12345678901234567890123456789.000", 3)
    );
    assert_eq!(
        -12_345_678_901_234_567_890_123_456_789_000,
        decimal_text_to_i128(b"-12345678901234567890123456789", 3)
    );
}
