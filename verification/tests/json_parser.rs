use subscript_runtime::json::{
    JsonBuilders, JsonParsers, KIND_ARRAY, KIND_BOOL, KIND_NULL, KIND_NUMBER, KIND_OBJECT, KIND_STRING,
    MAX_JSON_DEPTH, NUMBER_I16, NUMBER_I64, NUMBER_I8, NUMBER_U64, NUMBER_U8,
};

/// A number node's value as a binary64, read from its decimal text.
fn number(parsers: &JsonParsers, id: u64, node: u64) -> Option<f64> {
    let text = parsers.number_text(id, node)?;
    std::str::from_utf8(text).ok()?.parse().ok()
}

#[test]
fn parser_matches_node_number_and_duplicate_key_edges() {
    let mut parsers = JsonParsers::default();
    let id = parsers.begin(
        br#"{"duplicate":1,"duplicate":2,"negative":-0,"beyond":9007199254740993,"overflow":1e400}"#,
    );
    assert_ne!(id, 0);
    let root = parsers.root(id).expect("root");
    let duplicate = parsers.object_get(id, root, "duplicate").expect("object");
    assert_eq!(number(&parsers, id, duplicate), Some(2.0));
    let negative = parsers.object_get(id, root, "negative").expect("object");
    assert!(number(&parsers, id, negative).expect("number").is_sign_negative());
    let beyond = parsers.object_get(id, root, "beyond").expect("object");
    assert_eq!(number(&parsers, id, beyond), Some(9_007_199_254_740_992.0));
    assert_eq!(parsers.integer(id, beyond, NUMBER_I64), Some(9_007_199_254_740_993));
    let overflow = parsers.object_get(id, root, "overflow").expect("object");
    assert_eq!(number(&parsers, id, overflow), Some(f64::INFINITY));
}

fn parse(text: &str, target: u32) -> Option<u64> {
    let mut parsers = JsonParsers::default();
    let id = parsers.begin(text.as_bytes());
    assert_ne!(id, 0, "{text}");
    let root = parsers.root(id).expect("root");
    assert_eq!(
        parsers.integer_fits(id, root, target),
        Some(parsers.integer(id, root, target).is_some()),
        "{text}"
    );
    parsers.integer(id, root, target)
}

#[test]
fn integer_targets_parse_decimal_text_exactly() {
    assert_eq!(parse("9007199254740993", NUMBER_I64), Some(9_007_199_254_740_993));
    assert_eq!(parse("9223372036854775807", NUMBER_I64), Some(i64::MAX as u64));
    assert_eq!(parse("-9223372036854775808", NUMBER_I64), Some(i64::MIN as u64));
    assert_eq!(parse("9223372036854775808", NUMBER_I64), None);
    assert_eq!(parse("-9223372036854775809", NUMBER_I64), None);
    assert_eq!(parse("18446744073709551615", NUMBER_U64), Some(u64::MAX));
    assert_eq!(parse("18446744073709551616", NUMBER_U64), None);
    assert_eq!(parse("-1", NUMBER_U64), None);
    assert_eq!(parse("-0", NUMBER_U64), Some(0));

    assert_eq!(parse("1.0", NUMBER_I8), Some(1));
    assert_eq!(parse("10e-1", NUMBER_I8), Some(1));
    assert_eq!(parse("1.20e1", NUMBER_I8), Some(12));
    assert_eq!(parse("0e-999999999999999999999", NUMBER_U8), Some(0));
    assert_eq!(parse("1.2", NUMBER_I8), None);
    assert_eq!(parse("1e-1", NUMBER_I8), None);
    assert_eq!(parse("128", NUMBER_I8), None);
    assert_eq!(parse("256", NUMBER_U8), None);
}

#[test]
fn parser_rejects_malformed_text_without_creating_a_document() {
    let mut parsers = JsonParsers::default();
    for malformed in [
        br#"{"x":"#.as_slice(),
        br#"[1,]"#,
        br#"01"#,
        br#""\ud800""#,
        br#"true false"#,
    ] {
        assert_eq!(parsers.begin(malformed), 0, "{malformed:?}");
    }
}

#[test]
fn parser_rejects_input_past_the_depth_limit_without_overflowing() {
    let accepted = format!("{}0{}", "[".repeat(MAX_JSON_DEPTH), "]".repeat(MAX_JSON_DEPTH));
    let rejected = format!(
        "{}0{}",
        "[".repeat(MAX_JSON_DEPTH + 1),
        "]".repeat(MAX_JSON_DEPTH + 1)
    );
    let mut parsers = JsonParsers::default();
    assert_ne!(parsers.begin(accepted.as_bytes()), 0);
    assert_eq!(parsers.begin(rejected.as_bytes()), 0);
}

#[test]
fn parser_decodes_unicode_escapes_and_array_nodes() {
    let mut parsers = JsonParsers::default();
    let id = parsers.begin(br#"["A\u00e9\uD83D\uDE00",null,true]"#);
    let root = parsers.root(id).expect("root");
    assert_eq!(parsers.array_len(id, root), Some(3));
    let text = parsers.array_get(id, root, 0).expect("text node");
    assert_eq!(parsers.string(id, text), Some("Aé😀"));
    let null = parsers.array_get(id, root, 1).expect("null node");
    assert_eq!(parsers.is_kind(id, null, KIND_NULL), Some(true));
    let boolean = parsers.array_get(id, root, 2).expect("bool node");
    assert_eq!(parsers.boolean(id, boolean), Some(true));
}

#[test]
fn nodes_are_numbered_parts_first_from_one() {
    let mut parsers = JsonParsers::default();
    let id = parsers.begin(br#" [ 1 , { "k" : [ ] } , "s" ] "#);
    assert_eq!(id, 1);
    let root = parsers.root(id).expect("root");
    assert_eq!(root, 5);
    assert_eq!(parsers.array_get(id, root, 0), Some(1));
    assert_eq!(parsers.array_get(id, root, 1), Some(3));
    assert_eq!(parsers.array_get(id, root, 2), Some(4));
    assert_eq!(parsers.array_get(id, root, 3), None);
    assert_eq!(parsers.object_get(id, 3, "k"), Some(2));
    assert_eq!(parsers.object_get(id, 3, "missing"), Some(0));
    assert_eq!(parsers.object_get(id, 1, "k"), None);
    assert_eq!(parsers.is_kind(id, 1, KIND_NUMBER), Some(true));
    assert_eq!(parsers.is_kind(id, 2, KIND_ARRAY), Some(true));
    assert_eq!(parsers.is_kind(id, 3, KIND_OBJECT), Some(true));
    assert_eq!(parsers.is_kind(id, 4, KIND_STRING), Some(true));
    assert_eq!(parsers.is_kind(id, 4, KIND_BOOL), Some(false));
    assert_eq!(parsers.is_kind(id, 0, KIND_NULL), None);
    assert_eq!(parsers.is_kind(id, 6, KIND_NULL), None);
    assert_eq!(parsers.array_len(id, 2), Some(0));
}

#[test]
fn accessors_refuse_the_wrong_kind_and_unknown_documents() {
    let mut parsers = JsonParsers::default();
    let id = parsers.begin(br#"{"a":"x","b":false,"c":-12}"#);
    let root = parsers.root(id).expect("root");
    let a = parsers.object_get(id, root, "a").expect("object");
    let b = parsers.object_get(id, root, "b").expect("object");
    let c = parsers.object_get(id, root, "c").expect("object");
    assert_eq!(parsers.boolean(id, a), None);
    assert_eq!(parsers.boolean(id, b), Some(false));
    assert_eq!(parsers.string(id, b), None);
    assert_eq!(parsers.array_len(id, a), None);
    assert_eq!(parsers.integer(id, a, NUMBER_I8), None);
    assert_eq!(parsers.integer_fits(id, a, NUMBER_I8), Some(false));
    assert_eq!(parsers.integer(id, c, NUMBER_I16), Some((-12i64) as u64));
    assert_eq!(parsers.number_text(id, c), Some(b"-12".as_slice()));
    assert_eq!(parsers.number_text(id, a), None);
    assert_eq!(parsers.root(id + 1), None);
    assert_eq!(parsers.integer_fits(id + 1, root, NUMBER_I8), None);
}

#[test]
fn finish_and_clear_drop_documents_and_ids_keep_growing() {
    let mut parsers = JsonParsers::default();
    let a = parsers.begin(b"1");
    let b = parsers.begin(b"2");
    assert_eq!((a, b), (1, 2));
    assert!(parsers.finish(a));
    assert!(!parsers.finish(a));
    assert_eq!(parsers.root(a), None);
    assert_eq!(parsers.root(b), Some(1));
    parsers.clear();
    assert_eq!(parsers.root(b), None);
    assert_eq!(parsers.begin(b"null"), 3);
    assert_eq!(parsers.begin(b"nul"), 0);
    assert_eq!(parsers.begin(b"null"), 4);
}

#[test]
fn strings_decode_every_escape_and_refuse_raw_controls() {
    let mut parsers = JsonParsers::default();
    let id = parsers.begin(br#""\"\\\/\b\f\n\r\t\u0041\u00e9""#);
    let root = parsers.root(id).expect("root");
    assert_eq!(parsers.string(id, root), Some("\"\\/\u{8}\u{c}\n\r\tAé"));
    assert_eq!(parsers.begin(b"\"a\x01b\""), 0);
    assert_eq!(parsers.begin(br#""\x""#), 0);
    assert_eq!(parsers.begin(br#""\udc00""#), 0);
    assert_eq!(parsers.begin(br#""\ud800\u0041""#), 0);
    assert_eq!(parsers.begin(br#""\u12""#), 0);
    assert_eq!(parsers.begin(b"\"\xff\""), 0);
    assert_eq!(parsers.begin(b"\"\xc3\""), 0);
    let id = parsers.begin("\"é\"".as_bytes());
    let root = parsers.root(id).expect("root");
    assert_eq!(parsers.string(id, root), Some("é"));
}

#[test]
fn numbers_follow_the_json_grammar() {
    let mut parsers = JsonParsers::default();
    for good in ["0", "-0", "12", "1.5", "-1.5e+3", "2E-2", "0.0e0"] {
        assert_ne!(parsers.begin(good.as_bytes()), 0, "{good}");
    }
    for bad in ["-", "+1", ".5", "1.", "1e", "1e+", "00", "-01", "0x1", "1.e3", "NaN"] {
        assert_eq!(parsers.begin(bad.as_bytes()), 0, "{bad}");
    }
}

#[test]
fn strings_written_by_a_builder_read_back_unchanged() {
    for text in ["", "plain", "q\"b\\s/", "\u{0}\u{1f}\u{7f}\t\n", "é😀", "\u{8}\u{c}\r"] {
        let mut builders = JsonBuilders::default();
        let out = builders.begin(false).expect("builder");
        assert!(builders.string(out, text.as_bytes()));
        let json = builders.finish(out).expect("output");
        let mut parsers = JsonParsers::default();
        let id = parsers.begin(&json);
        assert_eq!(id, 1, "{text:?}");
        assert_eq!(parsers.root(id), Some(1));
        assert_eq!(parsers.string(id, 1), Some(text));
    }
}

#[test]
fn integers_written_by_a_builder_read_back_exactly() {
    for v in [0i64, 1, -1, 42, i64::MIN, i64::MAX, -9_007_199_254_740_993] {
        let mut builders = JsonBuilders::default();
        let out = builders.begin(false).expect("builder");
        assert!(builders.i64(out, v));
        let json = builders.finish(out).expect("output");
        let mut parsers = JsonParsers::default();
        let id = parsers.begin(&json);
        assert_eq!(parsers.integer(id, 1, NUMBER_I64), Some(v as u64));
    }
    for v in [0u64, 7, u64::MAX] {
        let mut builders = JsonBuilders::default();
        let out = builders.begin(false).expect("builder");
        assert!(builders.u64(out, v));
        let json = builders.finish(out).expect("output");
        let mut parsers = JsonParsers::default();
        let id = parsers.begin(&json);
        assert_eq!(parsers.integer(id, 1, NUMBER_U64), Some(v));
    }
}
