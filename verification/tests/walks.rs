use subscript_runtime::arrops::walks::{
    filter_kept, search, search_decision, search_miss, search_trapped, visits, SearchMode,
};
use subscript_runtime::arrops::ElemArray;

fn arr_i32(values: &[i32]) -> ElemArray {
    let mut a = ElemArray::new(4);
    for v in values {
        a.push(&v.to_le_bytes());
    }
    a
}

fn i32_items(a: &ElemArray) -> Vec<i32> {
    (0..a.len())
        .map(|i| {
            let b = a.get(i);
            i32::from_le_bytes([b[0], b[1], b[2], b[3]])
        })
        .collect()
}

/// Runs a search the way the runtime entry does: one predicate call per
/// visited element until the search decides; returns the answer and the
/// number of predicate calls.
fn run_search(mode: SearchMode, values: &[i32], pred: impl Fn(i32) -> bool) -> (i32, usize) {
    let mut probes = 0;
    let mut i = 0;
    while visits(values.len(), values.len(), i) {
        probes += 1;
        if let Some(r) = search_decision(mode, i, pred(values[i])) {
            return (r, probes);
        }
        i += 1;
    }
    (search_miss(mode), probes)
}

#[test]
fn some_every_find_index_short_circuit() {
    let values = [1, 2, 3, 4, 5];
    let (r, probes) = run_search(SearchMode::Any, &values, |v| v >= 3);
    assert_eq!(r, 1);
    assert_eq!(probes, 3);
    let (r, probes) = run_search(SearchMode::Every, &values, |v| v >= 3);
    assert_eq!(r, 0);
    assert_eq!(probes, 1);
    assert_eq!(run_search(SearchMode::FindIndex, &values, |v| v % 2 == 0).0, 1);
    assert_eq!(run_search(SearchMode::FindIndex, &[1, 3], |v| v % 2 == 0).0, -1);
}

#[test]
fn search_answers_over_recorded_verdicts() {
    assert_eq!(search(SearchMode::Any, &vec![false, false]), 0);
    assert_eq!(search(SearchMode::Any, &vec![false, true, false]), 1);
    assert_eq!(search(SearchMode::Every, &vec![true, true]), 1);
    assert_eq!(search(SearchMode::Every, &vec![true, false, true]), 0);
    assert_eq!(search(SearchMode::FindIndex, &vec![false, false, true, true]), 2);
    assert_eq!(search(SearchMode::FindIndex, &vec![]), -1);
    assert_eq!(search(SearchMode::Every, &vec![]), 1);
    assert_eq!(search_trapped(SearchMode::FindIndex), -1);
    assert_eq!(search_trapped(SearchMode::Every), 0);
    assert_eq!(search_trapped(SearchMode::Any), 0);
}

#[test]
fn filter_keeps_the_pre_callback_copies_whose_answer_is_true() {
    let h = arr_i32(&[1, 2, 3]);
    let verdicts: Vec<bool> = i32_items(&h).iter().map(|v| v % 2 == 0).collect();
    assert_eq!(i32_items(&filter_kept(&h, &verdicts)), vec![2]);
    // A trap after the second callback: only the answered elements count.
    let partial = filter_kept(&arr_i32(&[4, 5, 6]), &vec![true, false]);
    assert_eq!(i32_items(&partial), vec![4]);
    assert_eq!(filter_kept(&h, &vec![]).len(), 0);
}

#[test]
fn visiting_stops_at_the_current_end_and_ignores_appends() {
    assert!(visits(3, 3, 2));
    assert!(!visits(3, 2, 2));
    assert!(!visits(3, 5, 3));
}
