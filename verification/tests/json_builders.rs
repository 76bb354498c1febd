use subscript_runtime::json::{append_quoted, decimal_exponent, exact_integer, integer_value, JsonBuilders, Visit, NUMBER_I64, NUMBER_I8, NUMBER_U64, NUMBER_U8, NUMBER_F64};

#[test]
fn escaping_matches_node_24_control_boundary() {
    let mut builders = JsonBuilders::default();
    let id = builders.begin(false).expect("builder");
    let mut input: Vec<u8> = (0..=0x20).collect();
    input.extend_from_slice(&[b'"', b'/', b'\\', 0x7f]);
    assert!(builders.string(id, &input));
    // The expected text ends with the DEL byte itself, unescaped.
    let expected = [
        br#""\u0000\u0001\u0002\u0003\u0004\u0005\u0006\u0007\b\t\n\u000b\f\r\u000e\u000f\u0010\u0011\u0012\u0013\u0014\u0015\u0016\u0017\u0018\u0019\u001a\u001b\u001c\u001d\u001e\u001f \"/\\"#.as_slice(),
        &[0x7f, b'"'],
    ]
    .concat();
    assert_eq!(builders.finish(id).expect("output"), expected);
}

#[test]
fn tracked_builder_uses_an_active_path_not_a_global_seen_set() {
    let mut builders = JsonBuilders::default();
    let id = builders.begin(true).expect("builder");
    assert_eq!(builders.visit(id, 7), Visit::Inserted);
    assert_eq!(builders.visit(id, 7), Visit::Cycle);
    assert!(builders.leave(id, 7));
    assert_eq!(builders.visit(id, 7), Visit::Inserted);
}

#[test]
fn untracked_and_unknown_builders_refuse_visits() {
    let mut builders = JsonBuilders::default();
    let id = builders.begin(false).expect("builder");
    assert_eq!(builders.visit(id, 7), Visit::InvalidBuilder);
    assert!(!builders.leave(id, 7));
    assert_eq!(builders.visit(id + 1, 7), Visit::InvalidBuilder);
    assert!(!builders.raw(id + 1, b"x"));
    assert_eq!(builders.finish(id + 1), None);
}

#[test]
fn integers_append_in_decimal_and_finish_removes_the_builder() {
    let mut builders = JsonBuilders::default();
    let id = builders.begin(false).expect("builder");
    assert!(builders.raw(id, b"["));
    assert!(builders.i32(id, -7));
    assert!(builders.raw(id, b","));
    assert!(builders.u32(id, u32::MAX));
    assert!(builders.raw(id, b","));
    assert!(builders.i64(id, i64::MIN));
    assert!(builders.raw(id, b","));
    assert!(builders.u64(id, u64::MAX));
    assert!(builders.raw(id, b"]"));
    assert_eq!(
        builders.finish(id).expect("output"),
        b"[-7,4294967295,-9223372036854775808,18446744073709551615]"
    );
    assert_eq!(builders.finish(id), None);
    assert!(!builders.i32(id, 1));
}

#[test]
fn clear_drops_every_builder_and_ids_keep_growing() {
    let mut builders = JsonBuilders::default();
    let a = builders.begin(false).expect("builder");
    let b = builders.begin(true).expect("builder");
    assert_ne!(a, b);
    builders.clear();
    assert_eq!(builders.finish(a), None);
    assert_eq!(builders.visit(b, 1), Visit::InvalidBuilder);
    let c = builders.begin(false).expect("builder");
    assert!(c > b);
}

#[test]
fn quoting_escapes_quotes_backslashes_and_controls() {
    let mut out = Vec::new();
    append_quoted(&mut out, "é\u{1b}\"".as_bytes());
    assert_eq!(out, "\"é\\u001b\\\"\"".as_bytes());
    let mut out = b"x".to_vec();
    append_quoted(&mut out, b"");
    assert_eq!(out, b"x\"\"");
}

#[test]
fn exponents_saturate_and_reject_bad_spellings() {
    assert_eq!(decimal_exponent(b"10"), Some(10));
    assert_eq!(decimal_exponent(b"+3"), Some(3));
    assert_eq!(decimal_exponent(b"-3"), Some(-3));
    assert_eq!(decimal_exponent(b"99999999999999999999999"), Some(i64::MAX));
    assert_eq!(decimal_exponent(b"-99999999999999999999999"), Some(-i64::MAX));
    assert_eq!(decimal_exponent(b""), None);
    assert_eq!(decimal_exponent(b"+"), None);
    assert_eq!(decimal_exponent(b"1x"), None);
}

#[test]
fn exact_integers_keep_sign_and_reject_fractions() {
    assert_eq!(exact_integer(b"-0"), Some((true, 0)));
    assert_eq!(exact_integer(b"0.000e5"), Some((false, 0)));
    assert_eq!(exact_integer(b"12.50e1"), Some((false, 125)));
    assert_eq!(exact_integer(b"-1e19"), Some((true, 10_000_000_000_000_000_000)));
    assert_eq!(exact_integer(b"1e20"), None);
    assert_eq!(exact_integer(b"1.5"), None);
    assert_eq!(exact_integer(b"1e999999999999999999999"), None);
}

#[test]
fn integer_targets_convert_decimal_text_exactly() {
    assert_eq!(integer_value(b"9007199254740993", NUMBER_I64), Some(9_007_199_254_740_993));
    assert_eq!(integer_value(b"-9223372036854775808", NUMBER_I64), Some(i64::MIN as u64));
    assert_eq!(integer_value(b"9223372036854775808", NUMBER_I64), None);
    assert_eq!(integer_value(b"18446744073709551615", NUMBER_U64), Some(u64::MAX));
    assert_eq!(integer_value(b"-1", NUMBER_U64), None);
    assert_eq!(integer_value(b"-0", NUMBER_U64), Some(0));
    assert_eq!(integer_value(b"-128", NUMBER_I8), Some((-128i64) as u64));
    assert_eq!(integer_value(b"-129", NUMBER_I8), None);
    assert_eq!(integer_value(b"255", NUMBER_U8), Some(255));
    assert_eq!(integer_value(b"1", NUMBER_F64), None);
    assert_eq!(integer_value(b"1", 99), None);
}
