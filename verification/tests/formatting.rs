use subscript_runtime::fmt::{fixed_to_exponential, fmt_bool, fmt_i32, fmt_i64, fmt_u32, fmt_u64};

#[test]
fn integers_are_decimal_at_the_extremes() {
    assert_eq!(fmt_i32(-12), "-12");
    assert_eq!(fmt_u32(u32::MAX), "4294967295");
    assert_eq!(fmt_i64(i64::MIN), "-9223372036854775808");
    assert_eq!(fmt_u64(u64::MAX), "18446744073709551615");
}

#[test]
fn booleans() {
    assert_eq!(fmt_bool(true), "true");
    assert_eq!(fmt_bool(false), "false");
}

#[test]
fn small_integers_and_zero() {
    assert_eq!(fmt_i32(0), "0");
    assert_eq!(fmt_i32(i32::MIN), "-2147483648");
    assert_eq!(fmt_i32(i32::MAX), "2147483647");
    assert_eq!(fmt_u32(0), "0");
    assert_eq!(fmt_i64(-1), "-1");
    assert_eq!(fmt_u64(10), "10");
}

#[test]
fn fixed_spellings_move_to_exponential_notation() {
    assert_eq!(fixed_to_exponential("1000000000000000000000"), "1e+21");
    assert_eq!(fixed_to_exponential("-1000000000000000000000"), "-1e+21");
    assert_eq!(fixed_to_exponential("0.0000009999999999999997"), "9.999999999999997e-7");
    assert_eq!(fixed_to_exponential("-0.0000009999999999999997"), "-9.999999999999997e-7");
    assert_eq!(fixed_to_exponential("1234500000000000000000000"), "1.2345e+24");
    assert_eq!(fixed_to_exponential("0.00000012"), "1.2e-7");
    assert_eq!(fixed_to_exponential("12.5"), "1.25e+1");
    assert_eq!(fixed_to_exponential("7"), "7e+0");
}

#[test]
fn a_spelling_without_significant_digits_is_kept() {
    assert_eq!(fixed_to_exponential("0.000"), "0.000");
    assert_eq!(fixed_to_exponential("-0"), "-0");
    assert_eq!(fixed_to_exponential(""), "");
}
