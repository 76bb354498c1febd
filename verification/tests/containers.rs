use subscript_runtime::assocops::{
    set_difference, set_intersection, set_is_disjoint_from, set_is_subset_of, set_is_superset_of,
    set_symmetric_difference, set_union, AssocTable, KeyKind,
};

fn i32_map() -> AssocTable {
    AssocTable::new(KeyKind::Bits, 4, 4).expect("layout")
}

fn key(k: i32) -> [u8; 4] {
    k.to_le_bytes()
}

fn pairs(t: &AssocTable) -> Vec<(i32, i32)> {
    let mut out = Vec::new();
    for index in 0..t.order_len() {
        if let Some((k, v)) = t.entry_at(index) {
            out.push((
                i32::from_le_bytes(k.try_into().expect("key")),
                i32::from_le_bytes(v.try_into().expect("value")),
            ));
        }
    }
    out
}

#[test]
fn map_order_overwrite_delete_and_reinsert() {
    let mut t = i32_map();
    for (k, v) in [(2i32, 20i32), (1, 10), (3, 30)] {
        assert!(t.insert(&key(k), &v.to_le_bytes()));
    }
    assert!(t.insert(&key(2), &22i32.to_le_bytes()));
    assert!(t.delete(&key(1)));
    assert!(t.insert(&key(1), &11i32.to_le_bytes()));
    // This insertion reaches a full ordered vector holding one deleted
    // slot, so it packs before appending.
    assert!(t.insert(&key(4), &40i32.to_le_bytes()));
    assert_eq!(pairs(&t), vec![(2, 22), (3, 30), (1, 11), (4, 40)]);
    assert_eq!(t.order_len(), 4);
}

#[test]
fn churn_compacts_ordered_storage_at_the_growth_boundary() {
    let mut t = i32_map();
    for k in 0i32..200_000 {
        assert!(t.insert(&key(k), &k.to_le_bytes()));
        assert!(t.delete(&key(k)));
    }
    assert_eq!(t.len(), 0);
    assert_eq!(t.order_len(), 4);
    assert_eq!(t.ordered_capacity(), 4);
    assert_eq!(t.index_capacity(), 8);
}

#[test]
fn compaction_is_suppressed_during_for_each_mutation() {
    let mut t = i32_map();
    for k in 1i32..=4 {
        assert!(t.insert(&key(k), &(k * 10).to_le_bytes()));
    }
    assert!(t.delete(&key(1)));
    let mut seen = Vec::new();
    let mut inserted = false;
    t.begin_iteration();
    let mut index = 0;
    while index < t.order_len() {
        if let Some((k, _)) = t.entry_at(index) {
            let k = i32::from_le_bytes(k.try_into().expect("key"));
            seen.push(k);
            if k == 2 && !inserted {
                inserted = true;
                assert!(t.insert(&key(5), &50i32.to_le_bytes()));
            }
        }
        index += 1;
    }
    t.end_iteration();
    assert_eq!(seen, vec![2, 3, 4, 5]);
    assert_eq!(t.order_len(), 5);
    assert_eq!(t.ordered_capacity(), 8);
    assert_eq!(t.iterations(), 0);
}

#[test]
fn float_keys_use_same_value_zero_and_normalize_storage() {
    let mut t = AssocTable::new(KeyKind::F64, 8, 4).expect("layout");
    let seven = 7i32.to_le_bytes();
    assert!(t.insert(&(-0.0f64).to_bits().to_le_bytes(), &seven));
    assert!(t.has(&0.0f64.to_bits().to_le_bytes()));
    assert_eq!(t.entry_at(0).expect("entry").0, 0u64.to_le_bytes().as_slice());

    let nan_a = 0x7ff0_0000_0000_0001u64.to_le_bytes();
    let nan_b = 0xfff8_0000_0000_0042u64.to_le_bytes();
    assert!(t.insert(&nan_a, &seven));
    assert!(t.has(&nan_b));
    assert!(t.insert(&nan_b, &9i32.to_le_bytes()));
    assert_eq!(t.get(&nan_a), Some(9i32.to_le_bytes().as_slice()));
    assert_eq!(t.len(), 2);
    assert_eq!(
        t.entry_at(1).expect("entry").0,
        0x7ff8_0000_0000_0000u64.to_le_bytes().as_slice()
    );

    let mut f = AssocTable::new(KeyKind::F32, 4, 4).expect("layout");
    assert!(f.insert(&0x7f80_0001u32.to_le_bytes(), &seven));
    assert!(f.has(&0xffc0_0042u32.to_le_bytes()));
    assert_eq!(f.len(), 1);
    assert_eq!(f.entry_at(0).expect("entry").0, 0x7fc0_0000u32.to_le_bytes().as_slice());
}

#[test]
fn string_keys_use_content() {
    let mut t = AssocTable::new(KeyKind::Str, 8, 4).expect("layout");
    let a = String::from("same");
    let b = String::from("same");
    assert!(t.insert(a.as_bytes(), &9i32.to_le_bytes()));
    assert!(t.has(b.as_bytes()));
    assert!(!t.has(b"other"));
    assert!(t.insert(b"", &1i32.to_le_bytes()));
    assert_eq!(t.get(b""), Some(1i32.to_le_bytes().as_slice()));
}

#[test]
fn clear_retires_backing_storage() {
    let mut t = i32_map();
    assert!(t.insert(&key(1), &key(2)));
    t.clear();
    assert_eq!(t.len(), 0);
    assert_eq!(t.order_len(), 0);
    assert_eq!(t.ordered_capacity(), 0);
    assert_eq!(t.index_capacity(), 0);
    assert!(!t.has(&key(1)));
    assert!(t.insert(&key(1), &key(3)));
    assert_eq!(t.get(&key(1)), Some(key(3).as_slice()));
}

#[test]
fn layouts_and_key_widths_are_checked() {
    assert!(AssocTable::new(KeyKind::Bits, 3, 4).is_none());
    assert!(AssocTable::new(KeyKind::F32, 8, 4).is_none());
    assert!(AssocTable::new(KeyKind::Ref, 8, usize::MAX).is_none());
    assert!(AssocTable::new(KeyKind::Bits, 1, 0).is_some());
}

#[test]
fn many_keys_grow_the_index_and_stay_findable() {
    let mut t = i32_map();
    for k in 0i32..1000 {
        assert!(t.insert(&key(k * 7919), &k.to_le_bytes()));
    }
    assert_eq!(t.len(), 1000);
    for k in 0i32..1000 {
        assert_eq!(t.get(&key(k * 7919)), Some(k.to_le_bytes().as_slice()));
    }
    for k in (0i32..1000).step_by(2) {
        assert!(t.delete(&key(k * 7919)));
        assert!(!t.delete(&key(k * 7919)));
    }
    assert_eq!(t.len(), 500);
    for k in 0i32..1000 {
        assert_eq!(t.has(&key(k * 7919)), k % 2 == 1);
    }
    assert!(t.index_capacity().is_power_of_two());
    assert!(t.len() * 4 < t.index_capacity() * 3);
}

fn i32_set(values: &[i32]) -> AssocTable {
    let mut set = AssocTable::new(KeyKind::Bits, 4, 0).expect("layout");
    for value in values {
        assert!(set.insert(&value.to_le_bytes(), &[]));
    }
    set
}

fn i32_set_keys(set: &AssocTable) -> Vec<i32> {
    let mut keys = Vec::new();
    for index in 0..set.order_len() {
        if let Some((k, _)) = set.entry_at(index) {
            keys.push(i32::from_le_bytes(k.try_into().expect("key")));
        }
    }
    keys
}

#[test]
fn set_algebra_is_fresh_and_matches_es2024_order_and_predicates() {
    let s1 = i32_set(&[1, 2, 3]);
    let s2 = i32_set(&[3, 4]);
    let mut union12 = set_union(&s1, &s2).expect("shapes");
    let union21 = set_union(&s2, &s1).expect("shapes");
    assert_eq!(i32_set_keys(&union12), vec![1, 2, 3, 4]);
    assert_eq!(i32_set_keys(&union21), vec![3, 4, 1, 2]);
    assert_eq!(i32_set_keys(&set_intersection(&s1, &s2).expect("shapes")), vec![3]);
    assert_eq!(i32_set_keys(&set_difference(&s1, &s2).expect("shapes")), vec![1, 2]);
    assert_eq!(i32_set_keys(&set_difference(&s2, &s1).expect("shapes")), vec![4]);
    assert_eq!(
        i32_set_keys(&set_symmetric_difference(&s1, &s2).expect("shapes")),
        vec![1, 2, 4]
    );
    assert_eq!(
        i32_set_keys(&set_symmetric_difference(&s2, &s1).expect("shapes")),
        vec![4, 1, 2]
    );

    let wide = i32_set(&[1, 2, 3, 4]);
    let narrow = i32_set(&[4, 2]);
    assert_eq!(
        i32_set_keys(&set_intersection(&wide, &narrow).expect("shapes")),
        vec![4, 2],
        "ES2024 intersection traverses the smaller argument"
    );

    assert!(!set_is_subset_of(&s1, &s2));
    assert!(!set_is_superset_of(&s1, &s2));
    assert!(!set_is_disjoint_from(&s1, &s2));
    let only_three = i32_set(&[3]);
    let outside = i32_set(&[9]);
    assert!(set_is_subset_of(&only_three, &s1));
    assert!(set_is_superset_of(&s1, &only_three));
    assert!(set_is_disjoint_from(&s1, &outside));

    assert!(union12.insert(&9i32.to_le_bytes(), &[]));
    assert!(!s1.has(&9i32.to_le_bytes()));
}

#[test]
fn set_operands_of_different_shapes_are_refused() {
    let ints = i32_set(&[1]);
    let bytes = AssocTable::new(KeyKind::Bits, 1, 0).expect("layout");
    let map = i32_map();
    assert!(set_union(&ints, &bytes).is_none());
    assert!(set_intersection(&ints, &map).is_none());
    assert!(set_difference(&map, &ints).is_none());
    assert!(set_symmetric_difference(&ints, &bytes).is_none());
    assert!(!set_is_subset_of(&ints, &bytes));
    assert!(!set_is_superset_of(&ints, &bytes));
    assert!(!set_is_disjoint_from(&ints, &bytes));
}

#[test]
fn set_results_skip_deleted_keys_of_their_operands() {
    let mut a = i32_set(&[1, 2, 3, 4]);
    assert!(a.delete(&2i32.to_le_bytes()));
    let b = i32_set(&[4, 5, 2]);
    assert_eq!(i32_set_keys(&set_union(&a, &b).expect("shapes")), vec![1, 3, 4, 5, 2]);
    assert_eq!(i32_set_keys(&set_intersection(&a, &b).expect("shapes")), vec![4]);
    assert_eq!(i32_set_keys(&set_symmetric_difference(&a, &b).expect("shapes")), vec![1, 3, 5, 2]);
}

#[test]
fn get_or_writes_fallback_for_a_null_handle() {
    let key = 1i32;
    let fallback = 77i32;
    let out = subscript_runtime::assocops::get_or(None, &key.to_le_bytes(), &fallback.to_le_bytes());
    assert_eq!(out, fallback.to_le_bytes().to_vec());
}

#[test]
fn get_or_prefers_the_stored_value() {
    let mut m = i32_map();
    assert!(m.insert(&key(3), &key(30)));
    let found = subscript_runtime::assocops::get_or(Some(&m), &key(3), &key(-1));
    assert_eq!(found, key(30).to_vec());
    let missing = subscript_runtime::assocops::get_or(Some(&m), &key(4), &key(-1));
    assert_eq!(missing, key(-1).to_vec());
}
