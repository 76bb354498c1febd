use subscript_runtime::strings::{
    char_at, char_code_at, code_point_at, iter_code_point, slice, str_concat, CodePointStep,
    StringError, REPLACEMENT_CHARACTER,
};
use subscript_runtime::text::bytes_equal;

#[test]
fn ffi_slice_off_utf8_boundary_traps() {
    let s = "héllo".as_bytes();
    assert_eq!(slice(s, 0, 2), Err(StringError::OffBoundary));
}

#[test]
fn ffi_str_char_code_at_out_of_range_traps() {
    assert_eq!(char_code_at(b"abc", 3), None);
    assert_eq!(char_code_at(b"abc", 2), Some(99));
    assert_eq!(char_code_at(b"abc", -1), None);
}

#[test]
fn ffi_q27_string_code_point_boundary_and_range_traps() {
    let s = "é".as_bytes();
    assert_eq!(char_at(s, 1), Err(StringError::OffBoundary));
    assert_eq!(code_point_at(s, 2), Err(StringError::OutOfRange));
}

#[test]
fn ffi_concat_direct_writer_matches_the_vec_reference_path() {
    for (left, right) in [
        (&b"left"[..], &b"right"[..]),
        (&b""[..], &b"right"[..]),
        ("é".as_bytes(), "中".as_bytes()),
    ] {
        let mut expected = left.to_vec();
        expected.extend_from_slice(right);
        assert_eq!(str_concat(left, right), Some(expected));
    }
}

#[test]
fn ffi_string_round_trip() {
    let s = b"alpha-beta";
    assert_eq!(s.len(), 10);
    let tail = slice(s, 6, 10).unwrap();
    assert!(bytes_equal(&tail, b"beta"));
    assert!(!bytes_equal(s, b"beta"));
    assert_eq!(slice(s, -2, 3).unwrap(), b"".to_vec());
    assert_eq!(str_concat(s, b"beta").unwrap(), b"alpha-betabeta".to_vec());
}

#[test]
fn char_and_code_point_reads_decode_each_width() {
    let s = "aé中😀".as_bytes();
    assert_eq!(char_at(s, 0).unwrap(), b"a".to_vec());
    assert_eq!(char_at(s, 1).unwrap(), "é".as_bytes().to_vec());
    assert_eq!(char_at(s, 3).unwrap(), "中".as_bytes().to_vec());
    assert_eq!(char_at(s, 6).unwrap(), "😀".as_bytes().to_vec());
    assert_eq!(char_at(s, 99).unwrap(), Vec::<u8>::new());
    assert_eq!(char_at(s, -1).unwrap(), Vec::<u8>::new());
    assert_eq!(code_point_at(s, 0), Ok('a' as u32));
    assert_eq!(code_point_at(s, 1), Ok('é' as u32));
    assert_eq!(code_point_at(s, 3), Ok('中' as u32));
    assert_eq!(code_point_at(s, 6), Ok('😀' as u32));
    assert_eq!(code_point_at(s, 7), Err(StringError::OffBoundary));
    assert_eq!(code_point_at(s, -3), Err(StringError::OutOfRange));
}

#[test]
fn slices_clamp_count_from_the_end_and_keep_whole_characters() {
    let s = "héllo".as_bytes();
    assert_eq!(slice(s, 1, 3).unwrap(), "é".as_bytes().to_vec());
    assert_eq!(slice(s, -3, i32::MAX).unwrap(), b"llo".to_vec());
    assert_eq!(slice(s, 4, 1).unwrap(), Vec::<u8>::new());
    assert_eq!(slice(s, -100, 100).unwrap(), s.to_vec());
    // The end is checked where it lands, even when the pair is reversed.
    assert_eq!(slice(s, 4, 2), Err(StringError::OffBoundary));
    assert!(std::str::from_utf8(&slice(s, 0, 3).unwrap()).is_ok());
}

#[test]
fn for_of_steps_by_character_width() {
    let text = "aé€😀".as_bytes();
    let mut index = 0;
    let mut seen = Vec::new();
    loop {
        match iter_code_point(text, index) {
            CodePointStep::Next(scalar, next) => {
                seen.push((scalar, next));
                index = next;
            }
            CodePointStep::End => break,
            CodePointStep::Refused => panic!("refused a non-negative index"),
        }
    }
    assert_eq!(seen, vec![(0x61, 1), (0xe9, 3), (0x20ac, 6), (0x1f600, 10)]);
    assert_eq!(index, 10);
}

#[test]
fn for_of_refuses_negative_and_replaces_inside_a_character() {
    let text = "é!".as_bytes();
    assert_eq!(iter_code_point(text, -1), CodePointStep::Refused);
    assert_eq!(iter_code_point(text, 1), CodePointStep::Next(REPLACEMENT_CHARACTER, 2));
    assert_eq!(iter_code_point(text, 2), CodePointStep::Next(0x21, 3));
    assert_eq!(iter_code_point(text, 3), CodePointStep::End);
    assert_eq!(iter_code_point(text, 40), CodePointStep::End);
}
