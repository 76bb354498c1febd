use subscript_runtime::context::traps::TrapState;

#[test]
fn first_trap_wins_and_every_trap_raises_the_flag() {
    let mut t = TrapState::new();
    assert!(!t.trapped());
    assert!(t.trap_record().is_none());
    t.set_observer(true);
    assert!(t.trap(3, b"first".to_vec(), 7), "the first trap is reported");
    assert!(t.trapped());
    assert!(!t.trap(5, b"second".to_vec(), 9), "later traps are not reported");
    let rec = t.trap_record().unwrap();
    assert_eq!((rec.kind, rec.message.as_slice(), rec.pos_id), (3, &b"first"[..], 7));
    assert!(t.trapped());
}

#[test]
fn clearing_resets_record_and_flag_at_a_host_boundary_only() {
    let mut t = TrapState::new();
    t.set_observer(true);
    assert!(t.trap(1, b"pending".to_vec(), 1));
    t.begin_notify();
    assert!(!t.can_clear_trap(0), "not while the observer runs");
    t.end_notify();
    assert!(!t.can_clear_trap(1), "not with a script frame on the stack");
    assert!(t.can_clear_trap(0));
    t.clear_trap();
    assert!(!t.trapped());
    assert!(t.trap_record().is_none());
    assert!(t.trap(2, b"again".to_vec(), 4), "a cleared state reports its next trap");
    assert_eq!(t.trap_record().unwrap().kind, 2);
}

#[test]
fn without_an_observer_nothing_is_reported() {
    let mut t = TrapState::new();
    assert!(!t.trap(1, Vec::new(), 0));
    assert!(t.trapped());
    assert_eq!(t.trap_record().unwrap().message.len(), 0);
}
