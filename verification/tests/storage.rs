use subscript_runtime::context::{
    encode_utf8_word, inline_bmp_code_point, inline_string_scalar, scalar_utf8_len, size_class,
    LARGEST_BLOCK,
};

fn word_bytes(scalar: u32) -> [u8; 4] {
    encode_utf8_word(scalar).to_ne_bytes()
}

#[test]
fn utf8_lengths_follow_the_scalar_ranges() {
    assert_eq!(scalar_utf8_len(0x41), 1);
    assert_eq!(scalar_utf8_len(0x7f), 1);
    assert_eq!(scalar_utf8_len(0x80), 2);
    assert_eq!(scalar_utf8_len(0x7ff), 2);
    assert_eq!(scalar_utf8_len(0x800), 3);
    assert_eq!(scalar_utf8_len(0xffff), 3);
    assert_eq!(scalar_utf8_len(0x1_0000), 4);
    assert_eq!(scalar_utf8_len(0x10_ffff), 4);
}

#[test]
fn utf8_words_hold_the_encoding_then_zeros() {
    assert_eq!(word_bytes(0x41), [0x41, 0, 0, 0]);
    assert_eq!(word_bytes(0xe9), [0xc3, 0xa9, 0, 0]);
    assert_eq!(word_bytes(0x20ac), [0xe2, 0x82, 0xac, 0]);
    assert_eq!(word_bytes(0x1_f600), [0xf0, 0x9f, 0x98, 0x80]);
    for scalar in [0x41u32, 0xe9, 0x20ac, 0x1_f600] {
        let c = char::from_u32(scalar).expect("scalar");
        let mut buf = [0u8; 4];
        let n = c.encode_utf8(&mut buf).len();
        assert_eq!(&word_bytes(scalar)[..n], &buf[..n]);
        assert_eq!(n, scalar_utf8_len(scalar));
    }
}

#[test]
fn inline_handles_round_trip_bmp_scalars() {
    for scalar in [0u32, 0x41, 0xe9, 0xffff] {
        let raw = inline_bmp_code_point(scalar);
        assert_eq!(raw % 2, 1);
        assert_eq!(inline_string_scalar(raw), Some(scalar));
    }
    assert_eq!(inline_string_scalar(0), None);
    assert_eq!(inline_string_scalar(0x1000), None);
    assert_eq!(inline_string_scalar(1), None);
    assert_eq!(inline_string_scalar((0x1_0001 * 2) + 1), None);
}

#[test]
fn size_classes_are_the_smallest_holding_power_of_two() {
    assert_eq!(size_class(0), 0);
    assert_eq!(size_class(1), 0);
    assert_eq!(size_class(32), 0);
    assert_eq!(size_class(33), 1);
    assert_eq!(size_class(64), 1);
    assert_eq!(size_class(65), 2);
    assert_eq!(size_class(2048), 6);
    assert_eq!(size_class(2049), 7);
    assert_eq!(size_class(LARGEST_BLOCK), 7);
}
