use subscript_runtime::arrops::{ElemArray, MergeSort};

fn arr_i32(values: &[i32]) -> ElemArray {
    let mut a = ElemArray::new(4);
    for v in values {
        a.push(&v.to_le_bytes());
    }
    a
}

fn i32_items(a: &ElemArray) -> Vec<i32> {
    (0..a.len())
        .map(|i| {
            let b = a.get(i);
            i32::from_le_bytes([b[0], b[1], b[2], b[3]])
        })
        .collect()
}

/// Drives the sort with `cmp` over the elements' values; `None` from the
/// comparator aborts (a trap), leaving the array as it was. Returns the
/// comparisons asked for.
fn sort_with(a: &mut ElemArray, cmp: impl Fn(i32, i32) -> Option<i32>) -> Vec<(usize, usize)> {
    let values = i32_items(a);
    let mut s = MergeSort::new(a.len());
    let mut asked = Vec::new();
    while let Some((x, y)) = s.pending() {
        asked.push((x, y));
        match cmp(values[x], values[y]) {
            Some(c) => s.answer(c),
            None => return asked,
        }
    }
    a.permute(s.order());
    asked
}

#[test]
fn sort_is_stable_and_ascending() {
    let mut h = arr_i32(&[5, 1, 4, 2, 3]);
    sort_with(&mut h, |a, b| Some(a - b));
    assert_eq!(i32_items(&h), vec![1, 2, 3, 4, 5]);

    // Stability: key*10+seq pairs ordered by key keep seq order.
    let mut s = arr_i32(&[20, 11, 22, 13, 14]);
    sort_with(&mut s, |a, b| Some(a / 10 - b / 10));
    assert_eq!(i32_items(&s), vec![11, 13, 14, 20, 22]);
}

#[test]
fn a_comparator_trap_leaves_the_array_untouched() {
    let mut h = arr_i32(&[3, 1, 2]);
    let asked = sort_with(&mut h, |_, _| None);
    assert_eq!(asked.len(), 1);
    assert_eq!(i32_items(&h), vec![3, 1, 2]);
}

#[test]
fn sort_asks_the_bottom_up_merge_comparisons_in_order() {
    let mut h = arr_i32(&[4, 3, 2, 1]);
    let asked = sort_with(&mut h, |a, b| Some(a - b));
    // Width 1: (0,1), (2,3); width 2 merges [1,0] with [3,2].
    assert_eq!(asked, vec![(0, 1), (2, 3), (1, 3), (1, 2)]);
    assert_eq!(i32_items(&h), vec![1, 2, 3, 4]);
}

#[test]
fn short_and_odd_lengths_sort() {
    for n in 0..12usize {
        let values: Vec<i32> = (0..n as i32).map(|i| (i * 7 + 3) % 11).collect();
        let mut h = arr_i32(&values);
        sort_with(&mut h, |a, b| Some(a - b));
        let mut expected = values.clone();
        expected.sort();
        assert_eq!(i32_items(&h), expected);
    }
    let s = MergeSort::new(1);
    assert!(s.is_finished());
    assert_eq!(s.order(), &vec![0]);
}

#[test]
fn an_inconsistent_comparator_still_yields_a_permutation() {
    let mut h = arr_i32(&[1, 2, 3, 4, 5, 6, 7]);
    let flips = std::cell::Cell::new(false);
    sort_with(&mut h, |_, _| {
        let flip = !flips.get();
        flips.set(flip);
        Some(if flip { 1 } else { -1 })
    });
    let mut got = i32_items(&h);
    got.sort();
    assert_eq!(got, vec![1, 2, 3, 4, 5, 6, 7]);
}

#[test]
fn the_sort_finishes_within_one_pass_per_doubling() {
    for n in [0usize, 1, 2, 3, 7, 8, 33] {
        let mut sort = MergeSort::new(n);
        let mut answers = 0usize;
        while let Some((x, y)) = sort.pending() {
            sort.answer(if x > y { -1 } else { 1 });
            answers += 1;
        }
        let passes = if n < 2 { 0 } else { (usize::BITS - (n - 1).leading_zeros()) as usize };
        assert!(answers <= n * passes, "n = {n}: {answers} answers");
        assert!(sort.is_finished());
        let mut expected: Vec<usize> = (0..n).collect();
        expected.reverse();
        assert_eq!(sort.order(), &expected);
    }
}
