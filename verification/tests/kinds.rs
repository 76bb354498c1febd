use subscript_runtime::arrops::{abi_of, array_growth, clamp_index, Abi, ElemKind, FmtKind};
use subscript_runtime::assocops::KeyKind;

#[test]
fn elem_and_fmt_kind_codes_round_trip() {
    for (v, k) in [
        (0, ElemKind::Int),
        (1, ElemKind::F32),
        (2, ElemKind::F64),
        (3, ElemKind::Str),
        (4, ElemKind::F16),
        (5, ElemKind::SignedInt),
    ] {
        assert_eq!(ElemKind::from_u32(v), Some(k));
    }
    assert_eq!(ElemKind::from_u32(9), None);
    for (v, k) in [
        (0, FmtKind::I32),
        (1, FmtKind::U32),
        (2, FmtKind::I64),
        (3, FmtKind::U64),
        (4, FmtKind::F32),
        (5, FmtKind::F64),
        (6, FmtKind::Bool),
        (7, FmtKind::Str),
        (8, FmtKind::I8),
        (9, FmtKind::U8),
        (10, FmtKind::I16),
        (11, FmtKind::U16),
        (12, FmtKind::F16),
    ] {
        assert_eq!(FmtKind::from_u32(v), Some(k));
    }
    assert_eq!(FmtKind::from_u32(13), None);
}

#[test]
fn abi_dispatch_is_kind_plus_width() {
    assert_eq!(abi_of(ElemKind::Int, 1), Some(Abi::U8));
    assert_eq!(abi_of(ElemKind::Int, 2), Some(Abi::U16));
    assert_eq!(abi_of(ElemKind::Int, 4), Some(Abi::U32));
    assert_eq!(abi_of(ElemKind::Int, 8), Some(Abi::U64));
    assert_eq!(abi_of(ElemKind::SignedInt, 1), Some(Abi::S8));
    assert_eq!(abi_of(ElemKind::SignedInt, 2), Some(Abi::S16));
    assert_eq!(abi_of(ElemKind::SignedInt, 4), Some(Abi::I32));
    assert_eq!(abi_of(ElemKind::SignedInt, 8), Some(Abi::I64));
    assert_eq!(abi_of(ElemKind::Str, 8), Some(Abi::U64));
    assert_eq!(abi_of(ElemKind::Str, 4), None);
    assert_eq!(abi_of(ElemKind::Str, 1), None);
    assert_eq!(abi_of(ElemKind::Str, 2), None);
    assert_eq!(abi_of(ElemKind::F16, 2), Some(Abi::U16));
    assert_eq!(abi_of(ElemKind::F32, 4), Some(Abi::F32));
    assert_eq!(abi_of(ElemKind::F64, 8), Some(Abi::F64));
    assert_eq!(abi_of(ElemKind::Int, 3), None);
    assert_eq!(abi_of(ElemKind::F32, 8), None);
    assert_eq!(abi_of(ElemKind::F64, 4), None);
    assert_eq!(abi_of(ElemKind::F16, 4), None);
}

#[test]
fn key_kind_codes_decode_and_reject_unknown_ones() {
    assert_eq!(KeyKind::from_u32(0), Some(KeyKind::Bits));
    assert_eq!(KeyKind::from_u32(1), Some(KeyKind::F32));
    assert_eq!(KeyKind::from_u32(2), Some(KeyKind::F64));
    assert_eq!(KeyKind::from_u32(3), Some(KeyKind::Str));
    assert_eq!(KeyKind::from_u32(4), Some(KeyKind::Ref));
    assert_eq!(KeyKind::from_u32(5), None);
    assert_eq!(KeyKind::from_u32(u32::MAX), None);
}

#[test]
fn slice_indices_clamp_with_negative_counting_from_the_end() {
    assert_eq!(clamp_index(0, 5), 0);
    assert_eq!(clamp_index(3, 5), 3);
    assert_eq!(clamp_index(9, 5), 5);
    assert_eq!(clamp_index(-1, 5), 4);
    assert_eq!(clamp_index(-5, 5), 0);
    assert_eq!(clamp_index(-9, 5), 0);
    assert_eq!(clamp_index(i32::MIN, 5), 0);
    assert_eq!(clamp_index(i32::MAX, 5), 5);
    assert_eq!(clamp_index(-1, 0), 0);
}

#[test]
fn arrays_grow_to_four_then_double() {
    assert_eq!(array_growth(0, 0), Some(4));
    assert_eq!(array_growth(3, 4), None);
    assert_eq!(array_growth(4, 4), Some(8));
    assert_eq!(array_growth(8, 8), Some(16));
}
