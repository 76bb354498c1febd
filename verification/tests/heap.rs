use std::collections::HashMap;

use subscript_runtime::context::heap::{AllocPlan, DeleteOutcome, ExactHeap};
use subscript_runtime::context::{FREED_HANDLE_DIAGNOSTICS_DEFAULT_MAX_RETAINED_BYTES, HEADER_SIZE};

/// A stand-in for Context memory around the heap's records: fresh
/// addresses, and the payload words the collector scans.
struct Memory {
    heap: ExactHeap,
    next: usize,
    words: HashMap<usize, Vec<usize>>,
}

impl Memory {
    fn new() -> Memory {
        Memory { heap: ExactHeap::new(), next: 0x10_0000, words: HashMap::new() }
    }

    /// `Context::alloc` on the exact-size tier: `None` where it returns null.
    fn allocate(&mut self, size: usize, class_id: u32, pos_id: u32) -> Option<usize> {
        if !self.heap.begin_alloc() {
            return None;
        }
        ExactHeap::layout_size(size)?;
        let payload = self.next + HEADER_SIZE;
        self.next += 0x1000;
        self.heap.register(payload, size, class_id, pos_id);
        self.words.insert(payload, vec![0; size / 8]);
        Some(payload)
    }

    fn write_word(&mut self, payload: usize, index: usize, word: usize) {
        self.words.get_mut(&payload).unwrap()[index] = word;
    }

    fn collect(&mut self, roots: &[usize]) -> Vec<(usize, usize)> {
        self.heap.collect(&roots.to_vec(), &self.words).release
    }
}

#[test]
fn freed_handle_diagnostics_setting_controls_release_and_retention() {
    let mut releasing = Memory::new();
    assert!(releasing.heap.set_freed_handle_diagnostics(false, usize::MAX, 0));
    let released_small = releasing.allocate(8, 1, 0).unwrap();
    releasing.heap.delete(released_small);
    let released_after_small = releasing.heap.reserved_bytes();
    let released_large = releasing.allocate(8, 1, 0).unwrap();
    releasing.heap.delete(released_large);
    assert_eq!(releasing.heap.live_bytes(), 0);
    assert_eq!(releasing.heap.reserved_bytes(), released_after_small);
    assert!(!releasing.heap.set_freed_handle_diagnostics(true, 0, usize::MAX));

    let mut diagnosing = Memory::new();
    assert!(diagnosing.heap.set_freed_handle_diagnostics(true, 0, usize::MAX));
    let retained_small = diagnosing.allocate(8, 1, 0).unwrap();
    diagnosing.heap.delete(retained_small);
    let retained_after_small = diagnosing.heap.reserved_bytes();
    let retained_large = diagnosing.allocate(8, 1, 0).unwrap();
    diagnosing.heap.delete(retained_large);
    assert_eq!(diagnosing.heap.live_bytes(), 0);
    assert!(diagnosing.heap.reserved_bytes() > retained_after_small);

    assert_eq!(diagnosing.heap.delete(retained_large), DeleteOutcome::DoubleDelete);
}

#[test]
fn freed_handle_diagnostics_threshold_controls_delete_and_collect_accounting() {
    for collect in [false, true] {
        let mut m = Memory::new();
        assert!(m.heap.set_freed_handle_diagnostics(true, 32, usize::MAX));

        let below = m.allocate(12, 1, 0).unwrap();
        assert_eq!(m.heap.live_bytes(), 12);
        assert_eq!(m.heap.reserved_bytes(), 12 + HEADER_SIZE);
        if collect {
            m.collect(&[]);
        } else {
            m.heap.delete(below);
        }
        assert_eq!(m.heap.live_bytes(), 0);
        assert_eq!(m.heap.reserved_bytes(), 0);

        let at = m.allocate(32, 1, 0).unwrap();
        if collect {
            m.collect(&[]);
        } else {
            m.heap.delete(at);
        }
        assert_eq!(m.heap.live_bytes(), 0);
        assert_eq!(m.heap.reserved_bytes(), 32 + HEADER_SIZE);

        let above = m.allocate(128, 1, 0).unwrap();
        if collect {
            m.collect(&[]);
        } else {
            m.heap.delete(above);
        }
        assert_eq!(m.heap.live_bytes(), 0);
        assert_eq!(m.heap.reserved_bytes(), 32 + HEADER_SIZE + 128 + HEADER_SIZE);
        assert_eq!(m.heap.retained_payloads().len(), 2);
        assert!(m.heap.is_retained(at) && m.heap.is_retained(above));
    }
}

#[test]
fn retention_budget_never_exceeds_and_evicts_oldest_first() {
    const BUDGET: usize = 72;
    let mut m = Memory::new();
    assert!(m.heap.set_freed_handle_diagnostics(true, 0, BUDGET));

    let oldest = m.allocate(32, 1, 0).unwrap();
    m.heap.delete(oldest);
    assert_eq!(m.heap.retained_bytes(), 48);
    assert_eq!(m.heap.reserved_bytes(), 48);

    let middle = m.allocate(8, 1, 0).unwrap();
    m.heap.delete(middle);
    assert_eq!(m.heap.retained_bytes(), BUDGET);
    assert_eq!(m.heap.reserved_bytes(), BUDGET);

    let newest = m.allocate(8, 1, 0).unwrap();
    let outcome = m.heap.delete(newest);
    assert_eq!(
        outcome,
        DeleteOutcome::Removed { class_id: 1, retained: true, release: vec![(oldest, 48)] }
    );
    assert!(m.heap.retained_bytes() <= BUDGET);
    assert_eq!(m.heap.retained_bytes(), 48);
    assert_eq!(m.heap.reserved_bytes(), 48);
    assert!(!m.heap.is_retained(oldest));
    assert!(m.heap.is_retained(middle));
    assert!(m.heap.is_retained(newest));
    assert_eq!(m.heap.retained_payloads(), vec![middle, newest]);

    // Neither the evicted nor the retained address is accepted as a live
    // handle under diagnostics.
    assert!(!m.heap.accepts_handle(oldest));
    assert!(!m.heap.accepts_handle(newest));
}

#[test]
fn retention_budget_applies_to_collect_sweeps() {
    const BUDGET: usize = 48;
    let mut m = Memory::new();
    assert!(m.heap.set_freed_handle_diagnostics(true, 0, BUDGET));

    for _ in 0..3 {
        assert!(m.allocate(8, 1, 0).is_some());
        m.collect(&[]);
        assert!(m.heap.retained_bytes() <= BUDGET);
        assert!(m.heap.reserved_bytes() <= BUDGET);
    }
    assert_eq!(m.heap.retained_bytes(), BUDGET);
    assert_eq!(m.heap.retained_payloads().len(), 2);
}

#[test]
fn allocation_larger_than_retention_budget_is_released_immediately() {
    let mut m = Memory::new();
    assert!(m.heap.set_freed_handle_diagnostics(true, 0, 47));
    let allocation = m.allocate(32, 1, 0).unwrap();
    let outcome = m.heap.delete(allocation);
    assert_eq!(
        outcome,
        DeleteOutcome::Removed { class_id: 1, retained: false, release: vec![(allocation, 48)] }
    );

    assert_eq!(m.heap.retained_bytes(), 0);
    assert_eq!(m.heap.reserved_bytes(), 0);
    assert!(m.heap.retained_payloads().is_empty());
    assert!(!m.heap.is_retained(allocation));
    assert!(!m.heap.accepts_handle(allocation));
}

#[test]
fn zero_retention_budget_retains_nothing() {
    let mut m = Memory::new();
    assert!(m.heap.set_freed_handle_diagnostics(true, 0, 0));
    let allocation = m.allocate(8, 1, 0).unwrap();
    m.heap.delete(allocation);

    assert_eq!(m.heap.retained_bytes(), 0);
    assert_eq!(m.heap.reserved_bytes(), 0);
    assert!(m.heap.retained_payloads().is_empty());
    assert!(!m.heap.is_retained(allocation));
}

#[test]
fn freed_handle_diagnostics_setting_refuses_changes_after_allocation_starts() {
    let mut m = Memory::new();
    assert!(m.heap.set_freed_handle_diagnostics(true, 32, usize::MAX));
    let below = m.allocate(12, 1, 0).unwrap();
    assert!(!m.heap.set_freed_handle_diagnostics(true, 0, usize::MAX));
    m.heap.delete(below);
    assert_eq!(m.heap.reserved_bytes(), 0);
}

#[test]
fn freed_handle_diagnostics_threshold_and_budget_are_ignored_when_disabled() {
    let mut m = Memory::new();
    assert!(m.heap.set_freed_handle_diagnostics(false, usize::MAX, 0));
    let allocation = m.allocate(128, 1, 0).unwrap();
    m.heap.delete(allocation);
    assert_eq!(m.heap.live_bytes(), 0);
    assert_eq!(m.heap.reserved_bytes(), 0);
    assert!(m.heap.retained_payloads().is_empty());
}

#[test]
fn delete_poisons_and_double_delete_traps() {
    let mut m = Memory::new();
    assert!(m.heap.set_freed_handle_diagnostics(true, 0, usize::MAX));
    let p = m.allocate(8, 1, 0).unwrap();
    let first = m.heap.delete(p);
    assert_eq!(first, DeleteOutcome::Removed { class_id: 1, retained: true, release: vec![] });
    assert!(!m.heap.is_live(p));
    assert!(m.heap.is_retained(p));
    assert_eq!(m.heap.delete(p), DeleteOutcome::DoubleDelete);
}

#[test]
fn delete_of_unowned_pointer_traps_with_nonzero_diagnostics_threshold() {
    let mut m = Memory::new();
    assert!(m.heap.set_freed_handle_diagnostics(true, 32, usize::MAX));
    assert_eq!(m.heap.delete(0x1000), DeleteOutcome::InvalidDelete);
}

#[test]
fn collect_frees_unreachable_and_keeps_rooted() {
    let mut m = Memory::new();
    let kept = m.allocate(8, 1, 0).unwrap();
    let dropped = m.allocate(8, 1, 0).unwrap();
    let released = m.collect(&[kept]);
    assert!(m.heap.is_live(kept));
    assert!(!m.heap.is_live(dropped));
    assert_eq!(released, vec![(dropped, 24)]);
    // Dropping the last reference frees the rest on the next collect.
    m.collect(&[0]);
    assert!(!m.heap.is_live(kept));
}

#[test]
fn collect_traces_through_payload_words() {
    let mut m = Memory::new();
    let inner = m.allocate(8, 1, 0).unwrap();
    let outer = m.allocate(8, 1, 0).unwrap();
    m.write_word(outer, 0, inner);
    m.collect(&[outer]);
    assert!(m.heap.is_live(outer));
    assert!(m.heap.is_live(inner));
}

#[test]
fn root_ranges_scan_every_word() {
    let mut m = Memory::new();
    let a = m.allocate(8, 1, 0).unwrap();
    let b = m.allocate(8, 1, 0).unwrap();
    m.collect(&[a, b]);
    assert!(m.heap.is_live(a));
    assert!(m.heap.is_live(b));
}

#[test]
fn collect_moves_unreachable_records_out_of_the_swept_map() {
    let mut m = Memory::new();
    assert!(m.heap.set_freed_handle_diagnostics(true, 0, usize::MAX));
    let kept = m.allocate(8, 1, 0).unwrap();
    let dropped = m.allocate(8, 1, 0).unwrap();

    m.collect(&[kept]);

    assert_eq!(m.heap.live_count(), 1);
    assert_eq!(m.heap.retained_payloads().len(), 1);
    assert!(m.heap.is_live(kept));
    assert!(m.heap.is_retained(dropped));
    assert!(!m.heap.is_live(dropped));
    // A second collection does not touch or discard the retained record.
    m.collect(&[kept]);
    assert_eq!(m.heap.live_count(), 1);
    assert_eq!(m.heap.retained_payloads(), vec![dropped]);
}

#[test]
fn allocation_fault_counts_object_requests_identically_in_both_tiers() {
    let mut m = Memory::new();
    m.heap.fail_alloc_after(2);
    assert!(m.allocate(8, 1, 10).is_some(), "first request");
    assert!(m.allocate(5000, 2, 11).is_none(), "second request");
    assert!(m.allocate(8, 3, 12).is_some(), "fired fault is one-shot");
    m.heap.fail_alloc_after(0);
    assert!(m.allocate(8, 4, 13).is_some(), "zero disables injection");
}

#[test]
fn cycles_and_interior_words_are_traced_conservatively() {
    let mut m = Memory::new();
    let a = m.allocate(16, 1, 0).unwrap();
    let b = m.allocate(16, 1, 0).unwrap();
    let c = m.allocate(8, 1, 0).unwrap();
    // a <-> b form a cycle; c is named only by an unreachable block.
    m.write_word(a, 1, b);
    m.write_word(b, 0, a);
    let d = m.allocate(8, 1, 0).unwrap();
    m.write_word(d, 0, c);
    // A root word that is no allocation address is ignored.
    let out = m.heap.collect(&vec![a, 12345], &m.words);
    assert!(m.heap.is_live(a) && m.heap.is_live(b));
    assert!(!m.heap.is_live(c) && !m.heap.is_live(d));
    assert_eq!(out.swept.len(), 2);
    // With no roots the unreachable cycle goes too.
    m.collect(&[]);
    assert_eq!(m.heap.live_count(), 0);
}

#[test]
fn records_report_class_position_and_sizes() {
    let mut m = Memory::new();
    let p = m.allocate(24, 3, 41).unwrap();
    let rec = m.heap.record(p).unwrap();
    assert_eq!((rec.payload_size, rec.layout_size, rec.class_id, rec.pos_id), (24, 40, 3, 41));
    let z = m.allocate(0, 5, 7).unwrap();
    assert_eq!(m.heap.record(z).unwrap().layout_size, HEADER_SIZE + 1);
    assert_eq!(m.heap.live_bytes(), 24);
    assert_eq!(m.heap.reserved_bytes(), 40 + 17);
    assert!(m.heap.record(0x42).is_none());
    assert_eq!(m.heap.delete(0x42), DeleteOutcome::NotLive);
    assert!(m.heap.accepts_handle(0x42));
    assert_eq!(ExactHeap::layout_size(usize::MAX), None);
    assert_eq!(ExactHeap::layout_size(8), Some(24));
    assert!(FREED_HANDLE_DIAGNOSTICS_DEFAULT_MAX_RETAINED_BYTES > 0);
}

#[test]
fn allocation_requests_are_decided_whole() {
    let mut heap = ExactHeap::new();
    assert_eq!(heap.plan_alloc(8, false), AllocPlan::Exact(8 + HEADER_SIZE));
    assert_eq!(heap.plan_alloc(0, false), AllocPlan::Exact(1 + HEADER_SIZE));
    assert_eq!(heap.plan_alloc(16, true), AllocPlan::Classed(0));
    assert_eq!(heap.plan_alloc(5000, true), AllocPlan::Large(5000 + HEADER_SIZE));
    assert_eq!(heap.plan_alloc(usize::MAX, false), AllocPlan::Unrepresentable);
    assert_eq!(heap.plan_alloc(usize::MAX, true), AllocPlan::Unrepresentable);
    heap.fail_alloc_after(2);
    assert_eq!(heap.plan_alloc(8, false), AllocPlan::Exact(8 + HEADER_SIZE));
    assert_eq!(heap.plan_alloc(8, true), AllocPlan::InjectedFailure);
    assert_eq!(heap.plan_alloc(8, true), AllocPlan::Classed(0), "the failure fires once");
}
