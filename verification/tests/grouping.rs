use subscript_runtime::arrops::ElemArray;
use subscript_runtime::assocops::{group_by, KeyKind};

/// The bytes of a `{ value, tag }` pair of `i32`s.
fn pair(value: i32, tag: i32) -> Vec<u8> {
    let mut b = value.to_le_bytes().to_vec();
    b.extend_from_slice(&tag.to_le_bytes());
    b
}

fn group_number(v: &[u8]) -> usize {
    let mut w = [0u8; 8];
    w.copy_from_slice(v);
    u64::from_le_bytes(w) as usize
}

#[test]
fn group_by_owns_aggregate_elements_and_roots_results_during_callbacks() {
    let mut items = ElemArray::new(8);
    for (value, tag) in [(1, 10), (2, 20), (3, 30)] {
        items.push(&pair(value, tag));
    }
    // The callback's keys: `value % 2`, as 4-byte integers.
    let keys: Vec<Vec<u8>> =
        [1i32, 2, 3].iter().map(|v| (v % 2).to_le_bytes().to_vec()).collect();
    let (groups, mut arrays) = group_by(&items, &keys, KeyKind::Bits, 4).expect("valid shape");
    assert_eq!(groups.len(), 2);
    let (k0, _) = groups.entry_at(0).unwrap();
    assert_eq!(i32::from_le_bytes([k0[0], k0[1], k0[2], k0[3]]), 1);
    let (k1, _) = groups.entry_at(1).unwrap();
    assert_eq!(i32::from_le_bytes([k1[0], k1[1], k1[2], k1[3]]), 0);

    let odd = group_number(groups.get(&1i32.to_le_bytes()).unwrap());
    assert_eq!(arrays[odd].len(), 2);
    // A group owns its elements: changing one leaves the source alone.
    arrays[odd].fill(&pair(99, 99), 0, 1);
    assert_eq!(arrays[odd].get(0), pair(99, 99).as_slice());
    assert_eq!(items.get(0), pair(1, 10).as_slice());
}

#[test]
fn group_by_keeps_first_occurrence_order_and_visit_order() {
    let mut items = ElemArray::new(4);
    for v in [5i32, 6, 7, 8, 9] {
        items.push(&v.to_le_bytes());
    }
    // Keys by the callback: 5 -> 2, 6 -> 1, 7 -> 2, 8 -> 1, 9 -> 3.
    let keys: Vec<Vec<u8>> = [2u8, 1, 2, 1, 3].iter().map(|k| vec![*k]).collect();
    let (groups, arrays) = group_by(&items, &keys, KeyKind::Bits, 1).unwrap();
    assert_eq!(groups.len(), 3);
    assert_eq!(arrays.len(), 3);
    let order: Vec<u8> = (0..3).map(|i| groups.entry_at(i).unwrap().0[0]).collect();
    assert_eq!(order, vec![2, 1, 3]);
    let values = |a: &ElemArray| -> Vec<i32> {
        (0..a.len())
            .map(|i| {
                let b = a.get(i);
                i32::from_le_bytes([b[0], b[1], b[2], b[3]])
            })
            .collect()
    };
    assert_eq!(values(&arrays[group_number(groups.get(&[2]).unwrap())]), vec![5, 7]);
    assert_eq!(values(&arrays[group_number(groups.get(&[1]).unwrap())]), vec![6, 8]);
    assert_eq!(values(&arrays[group_number(groups.get(&[3]).unwrap())]), vec![9]);
    // The group number is the entry's position.
    assert_eq!(group_number(groups.entry_at(2).unwrap().1), 2);
}

#[test]
fn group_by_compares_float_keys_as_the_map_does() {
    let mut items = ElemArray::new(1);
    for v in [1u8, 2, 3, 4] {
        items.push(&[v]);
    }
    let keys: Vec<Vec<u8>> = [0.0f64, -0.0, f64::NAN, -f64::NAN]
        .iter()
        .map(|k| k.to_le_bytes().to_vec())
        .collect();
    let (groups, arrays) = group_by(&items, &keys, KeyKind::F64, 8).unwrap();
    // Both zeros share a group; so do both NaNs.
    assert_eq!(groups.len(), 2);
    assert_eq!(arrays[0].len(), 2);
    assert_eq!(arrays[1].len(), 2);
}

#[test]
fn group_by_refuses_invalid_key_shapes_and_handles_no_visits() {
    let items = ElemArray::new(4);
    let none: Vec<Vec<u8>> = Vec::new();
    assert!(group_by(&items, &none, KeyKind::Bits, 3).is_none());
    assert!(group_by(&items, &none, KeyKind::F64, 4).is_none());
    let (groups, arrays) = group_by(&items, &none, KeyKind::Str, 8).unwrap();
    assert_eq!(groups.len(), 0);
    assert!(arrays.is_empty());
}
