use subscript_runtime::assocops::{
    entry_stride, f32_key_bits, f64_key_bits, fnv1a, key_offset, mix64, round_word, shape_ok,
    value_offset, KeyKind, ENTRY_PREFIX, FNV_OFFSET,
};

#[test]
fn entry_layout_rounds_slots_to_words() {
    assert_eq!(round_word(0), Some(0));
    assert_eq!(round_word(1), Some(8));
    assert_eq!(round_word(8), Some(8));
    assert_eq!(round_word(9), Some(16));
    assert_eq!(round_word(usize::MAX), None);
    assert_eq!(entry_stride(4, 1), Some(ENTRY_PREFIX + 16));
    assert_eq!(entry_stride(8, 0), Some(ENTRY_PREFIX + 8));
    assert_eq!(entry_stride(usize::MAX - 7, 8), None);
    assert_eq!(key_offset(), ENTRY_PREFIX);
    assert_eq!(value_offset(4), ENTRY_PREFIX + 8);
    assert_eq!(value_offset(16), ENTRY_PREFIX + 16);
}

#[test]
fn key_shapes_match_their_kinds() {
    for size in [1usize, 2, 4, 8] {
        assert!(shape_ok(KeyKind::Bits, size));
    }
    assert!(!shape_ok(KeyKind::Bits, 3));
    assert!(shape_ok(KeyKind::F32, 4));
    assert!(!shape_ok(KeyKind::F32, 8));
    assert!(shape_ok(KeyKind::F64, 8));
    assert!(shape_ok(KeyKind::Str, 8));
    assert!(shape_ok(KeyKind::Ref, 8));
    assert!(!shape_ok(KeyKind::Ref, 4));
}

#[test]
fn hashes_match_their_reference_values() {
    assert_eq!(fnv1a(b""), FNV_OFFSET);
    assert_eq!(fnv1a(b"a"), 0xaf63_dc4c_8601_ec8c);
    assert_eq!(fnv1a(b"foobar"), 0x8594_4171_f739_67e8);
    assert_eq!(mix64(0), 0);
    assert_ne!(mix64(1), mix64(2));
    assert_eq!(mix64(1), 0xb456_bcfc_34c2_cb2c);
}

#[test]
fn float_keys_use_same_value_zero() {
    assert_eq!(f64_key_bits((-0.0f64).to_bits()), 0.0f64.to_bits());
    assert_eq!(f64_key_bits(f64::NAN.to_bits()), f64_key_bits((-f64::NAN).to_bits()));
    assert_eq!(f64_key_bits(0x7ff0_0000_0000_0001), 0x7ff8_0000_0000_0000);
    assert_eq!(f64_key_bits(1.5f64.to_bits()), 1.5f64.to_bits());
    assert_eq!(f64_key_bits(f64::INFINITY.to_bits()), f64::INFINITY.to_bits());
    assert_eq!(f32_key_bits((-0.0f32).to_bits()), 0);
    assert_eq!(f32_key_bits(0x7f80_0001), 0x7fc0_0000);
    assert_eq!(f32_key_bits(0xffc0_0000), 0x7fc0_0000);
    assert_eq!(f32_key_bits(2.5f32.to_bits()), 2.5f32.to_bits());
}
