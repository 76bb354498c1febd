use subscript_runtime::arrops::{ElemArray, ElemKind, FmtKind};
use subscript_runtime::half::{f16_from_f64_bits, f64_bits_from_f16};

/// Builds an `i32[]` from `values`.
fn arr_i32(values: &[i32]) -> ElemArray {
    let mut a = ElemArray::new(4);
    for v in values {
        a.push(&v.to_le_bytes());
    }
    a
}

/// Builds an `f64[]` from `values`.
fn arr_f64(values: &[f64]) -> ElemArray {
    let mut a = ElemArray::new(8);
    for v in values {
        a.push(&v.to_le_bytes());
    }
    a
}

/// Builds a `string[]` from `values`, each element holding its content.
fn arr_str(values: &[&str]) -> ElemArray {
    let mut a = ElemArray::new(8);
    for v in values {
        a.push(v.as_bytes());
    }
    a
}

fn i32_items(a: &ElemArray) -> Vec<i32> {
    (0..a.len())
        .map(|i| {
            let b = a.get(i);
            i32::from_le_bytes([b[0], b[1], b[2], b[3]])
        })
        .collect()
}

/// The shortest round-trip spellings of the float elements of `a`.
fn f64_texts(a: &ElemArray) -> Vec<Vec<u8>> {
    (0..a.len())
        .map(|i| {
            let b = a.get(i);
            let mut w = [0u8; 8];
            w.copy_from_slice(b);
            format!("{}", f64::from_le_bytes(w)).into_bytes()
        })
        .collect()
}

#[test]
fn index_of_family_int_and_float_and_str() {
    let h = arr_i32(&[4, 7, 4, 9]);
    let (n4, n5, n7) = (4i32.to_le_bytes(), 5i32.to_le_bytes(), 7i32.to_le_bytes());
    assert_eq!(h.index_of(&n4, ElemKind::Int), Some(0));
    assert_eq!(h.last_index_of(&n4, ElemKind::Int), Some(2));
    assert_eq!(h.index_of(&n5, ElemKind::Int), Some(-1));
    assert_eq!(h.includes(&n7, ElemKind::Int), Some(1));
    assert_eq!(h.includes(&n5, ElemKind::Int), Some(0));

    // Floats: -0 == 0; NaN never equal.
    let f = arr_f64(&[0.0, 1.5, f64::NAN]);
    let nz = (-0.0f64).to_le_bytes();
    assert_eq!(f.index_of(&nz, ElemKind::F64), Some(0));
    let nan = f64::NAN.to_le_bytes();
    assert_eq!(f.index_of(&nan, ElemKind::F64), Some(-1));
    assert_eq!(f.includes(&nan, ElemKind::F64), Some(0));

    // Strings by content: a distinct value still matches.
    let s = arr_str(&["alpha", "beta"]);
    let fresh = String::from("beta");
    assert_eq!(s.index_of(fresh.as_bytes(), ElemKind::Str), Some(1));
    let miss = String::from("gamma");
    assert_eq!(s.index_of(miss.as_bytes(), ElemKind::Str), Some(-1));
}

#[test]
fn join_formats_per_kind_with_separator() {
    let sep = b", ";
    let none: Vec<Vec<u8>> = Vec::new();

    let h = arr_i32(&[1, -2, 3]);
    assert_eq!(h.join(sep, FmtKind::I32, &none), b"1, -2, 3".to_vec());

    let f = arr_f64(&[0.5, -0.0, 7.0]);
    let texts = f64_texts(&f);
    assert_eq!(f.join(sep, FmtKind::F64, &texts), b"0.5, -0, 7".to_vec());

    let mut i8s = ElemArray::new(1);
    for v in [-128i8, 127i8] {
        i8s.push(&v.to_le_bytes());
    }
    assert_eq!(i8s.join(sep, FmtKind::I8, &none), b"-128, 127".to_vec());

    let mut u16s = ElemArray::new(2);
    for v in [0u16, u16::MAX] {
        u16s.push(&v.to_le_bytes());
    }
    assert_eq!(u16s.join(sep, FmtKind::U16, &none), b"0, 65535".to_vec());

    let mut halves = ElemArray::new(2);
    let mut half_texts = Vec::new();
    for v in [1.5f64, -0.0] {
        let bits = f16_from_f64_bits(v.to_bits());
        halves.push(&bits.to_le_bytes());
        half_texts.push(format!("{}", f64::from_bits(f64_bits_from_f16(bits))).into_bytes());
    }
    assert_eq!(halves.join(sep, FmtKind::F16, &half_texts), b"1.5, -0".to_vec());

    let s = arr_str(&["a", "b"]);
    assert_eq!(s.join(sep, FmtKind::Str, &none), b"a, b".to_vec());

    // Booleans at width 1 (dev tier) and width 4 (ship-C tier).
    let mut b1 = ElemArray::new(1);
    for v in [1u8, 0u8] {
        b1.push(&[v]);
    }
    assert_eq!(b1.join(sep, FmtKind::Bool, &none), b"true, false".to_vec());
    let b4 = arr_i32(&[0, 1]);
    assert_eq!(b4.join(sep, FmtKind::Bool, &none), b"false, true".to_vec());

    // Empty array joins to "".
    let e = arr_i32(&[]);
    assert_eq!(e.join(sep, FmtKind::I32, &none), b"".to_vec());
}

#[test]
fn slice_applies_js_negative_and_clamp_rules() {
    let h = arr_i32(&[10, 20, 30, 40, 50]);
    assert_eq!(i32_items(&h.slice(1, 3)), vec![20, 30]);
    assert_eq!(i32_items(&h.slice(-2, i32::MAX)), vec![40, 50]);
    assert_eq!(i32_items(&h.slice(0, -1)), vec![10, 20, 30, 40]);
    assert_eq!(i32_items(&h.slice(3, 99)), vec![40, 50]);
    assert_eq!(i32_items(&h.slice(4, 2)), Vec::<i32>::new());
    // The receiver is untouched.
    assert_eq!(i32_items(&h), vec![10, 20, 30, 40, 50]);
}

#[test]
fn fill_reverse_concat() {
    let mut h = arr_i32(&[1, 2, 3, 4, 5]);
    h.fill(&0i32.to_le_bytes(), 1, 3);
    assert_eq!(i32_items(&h), vec![1, 0, 0, 4, 5]);
    h.fill(&7i32.to_le_bytes(), -2, i32::MAX);
    assert_eq!(i32_items(&h), vec![1, 0, 0, 7, 7]);

    let mut r = arr_i32(&[1, 2, 3, 4]);
    r.reverse();
    assert_eq!(i32_items(&r), vec![4, 3, 2, 1]);
    let mut odd = arr_i32(&[1, 2, 3]);
    odd.reverse();
    assert_eq!(i32_items(&odd), vec![3, 2, 1]);

    let a = arr_i32(&[1, 2]);
    let b = arr_i32(&[3]);
    let cat = a.concat(&b).unwrap();
    assert_eq!(i32_items(&cat), vec![1, 2, 3]);
    assert_eq!(i32_items(&a), vec![1, 2]);
    assert_eq!(i32_items(&b), vec![3]);
}

#[test]
fn unknown_abi_shape_traps_in_the_equality_searches() {
    // Two 3-byte elements have no ABI class; comparing them as
    // zero-extended words would report them equal, so the searches
    // refuse the shape instead.
    let mut h = ElemArray::new(3);
    let (a, b) = ([1u8, 2, 3], [4u8, 5, 6]);
    h.push(&a);
    h.push(&b);
    assert_eq!(h.index_of(&b, ElemKind::Int), None);
    assert_eq!(h.last_index_of(&a, ElemKind::Int), None);
    assert_eq!(h.includes(&a, ElemKind::Int), None);
}

#[test]
fn float_searches_compare_by_ieee_equality() {
    let f = arr_f64(&[f64::NAN, -0.0, 2.0]);
    assert_eq!(f.index_of(&0.0f64.to_le_bytes(), ElemKind::F64), Some(1));
    assert_eq!(f.last_index_of(&f64::NAN.to_le_bytes(), ElemKind::F64), Some(-1));
    let mut g = ElemArray::new(4);
    for v in [1.0f32, f32::NAN, 0.0] {
        g.push(&v.to_le_bytes());
    }
    assert_eq!(g.index_of(&(-0.0f32).to_le_bytes(), ElemKind::F32), Some(2));
    assert_eq!(g.includes(&f32::NAN.to_le_bytes(), ElemKind::F32), Some(0));
    let mut halves = ElemArray::new(2);
    for v in [0x3c00u16, 0x7e00, 0x8000] {
        halves.push(&v.to_le_bytes());
    }
    // +0 finds the negative zero; a binary16 NaN is never found.
    assert_eq!(halves.index_of(&0u16.to_le_bytes(), ElemKind::F16), Some(2));
    assert_eq!(halves.index_of(&0x7e00u16.to_le_bytes(), ElemKind::F16), Some(-1));
    assert_eq!(halves.index_of(&0x3c00u16.to_le_bytes(), ElemKind::F16), Some(0));
}

#[test]
fn search_edges_and_signed_integers() {
    let e = arr_i32(&[]);
    assert_eq!(e.index_of(&1i32.to_le_bytes(), ElemKind::Int), Some(-1));
    assert_eq!(e.includes(&1i32.to_le_bytes(), ElemKind::SignedInt), Some(0));
    let h = arr_i32(&[-1, 5, -1]);
    assert_eq!(h.index_of(&(-1i32).to_le_bytes(), ElemKind::SignedInt), Some(0));
    assert_eq!(h.last_index_of(&(-1i32).to_le_bytes(), ElemKind::SignedInt), Some(2));
    let s = arr_str(&["", "x"]);
    assert_eq!(s.index_of(b"", ElemKind::Str), Some(0));
}

#[test]
fn join_reads_each_integer_kind_at_its_own_width() {
    let sep = b"|";
    let none: Vec<Vec<u8>> = Vec::new();
    let mut u8s = ElemArray::new(1);
    for v in [0u8, 255] {
        u8s.push(&[v]);
    }
    assert_eq!(u8s.join(sep, FmtKind::U8, &none), b"0|255".to_vec());
    let mut i16s = ElemArray::new(2);
    for v in [i16::MIN, -1, i16::MAX] {
        i16s.push(&v.to_le_bytes());
    }
    assert_eq!(i16s.join(sep, FmtKind::I16, &none), b"-32768|-1|32767".to_vec());
    let u32s = arr_i32(&[-1, 0]);
    assert_eq!(u32s.join(sep, FmtKind::U32, &none), b"4294967295|0".to_vec());
    let mut i64s = ElemArray::new(8);
    for v in [i64::MIN, 42] {
        i64s.push(&v.to_le_bytes());
    }
    assert_eq!(i64s.join(sep, FmtKind::I64, &none), b"-9223372036854775808|42".to_vec());
    let mut u64s = ElemArray::new(8);
    u64s.push(&u64::MAX.to_le_bytes());
    assert_eq!(u64s.join(sep, FmtKind::U64, &none), b"18446744073709551615".to_vec());
    // A single element needs no separator; a multi-byte separator is
    // copied whole.
    let one = arr_i32(&[12]);
    assert_eq!(one.join(b" and ", FmtKind::I32, &none), b"12".to_vec());
    let two = arr_i32(&[1, 2]);
    assert_eq!(two.join(b" and ", FmtKind::I32, &none), b"1 and 2".to_vec());
}

#[test]
fn fill_slice_and_concat_edges() {
    let mut h = arr_i32(&[1, 2, 3]);
    // An empty or inverted range changes nothing.
    h.fill(&9i32.to_le_bytes(), 2, 1);
    assert_eq!(i32_items(&h), vec![1, 2, 3]);
    h.fill(&9i32.to_le_bytes(), -100, 100);
    assert_eq!(i32_items(&h), vec![9, 9, 9]);
    assert_eq!(i32_items(&h.slice(-100, -2)), vec![9]);
    assert_eq!(h.slice(0, 3).elem_size(), 4);
    // Operands of different widths do not concatenate.
    let mut bytes = ElemArray::new(1);
    bytes.push(&[1]);
    assert!(h.concat(&bytes).is_none());
    let mut r = arr_i32(&[]);
    r.reverse();
    assert_eq!(r.len(), 0);
}
