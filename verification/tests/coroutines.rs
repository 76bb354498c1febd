use std::collections::HashMap;

use subscript_runtime::context::coroutines::{AsyncRoot, AsyncRoots};

/// A stand-in for generated coroutines: each frame prints its id and
/// completes on its second poll.
struct Host {
    roots: AsyncRoots,
    polls: HashMap<usize, u8>,
    ids: HashMap<usize, u8>,
    stdout: Vec<u8>,
    trapped: bool,
    freed: Vec<usize>,
}

impl Host {
    fn new() -> Host {
        Host {
            roots: AsyncRoots::new(),
            polls: HashMap::new(),
            ids: HashMap::new(),
            stdout: Vec::new(),
            trapped: false,
            freed: Vec::new(),
        }
    }

    fn frame(&mut self, frame: usize, id: u8) {
        self.ids.insert(frame, id);
        self.polls.insert(frame, 0);
    }

    fn resume(&mut self, frame: usize) -> bool {
        let id = self.ids[&frame];
        self.stdout.extend_from_slice(if id == 1 { b"one\n" } else { b"two\n" });
        let polls = self.polls.get_mut(&frame).unwrap();
        *polls += 1;
        *polls == 2
    }

    fn kick(&mut self, frame: usize) {
        if !self.roots.kick_begin(frame, self.trapped) {
            return;
        }
        let done = self.resume(frame);
        if self.roots.kick_end(AsyncRoot { frame, resume: 0 }, done, self.trapped) {
            self.freed.push(frame);
        }
    }

    fn step(&mut self) -> usize {
        if !self.roots.begin_round(self.trapped) {
            return self.roots.pending_len();
        }
        while let Some(root) = self.roots.round_next() {
            let done = self.resume(root.frame);
            if self.roots.round_resumed(done, self.trapped) {
                self.freed.push(root.frame);
            }
        }
        self.roots.end_round()
    }
}

#[test]
fn held_async_count_uses_emitted_header_and_frees_without_collect() {
    let mut roots = AsyncRoots::new();
    let frame = 0x4010;
    roots.register(frame);
    assert_eq!(roots.count(frame), 1);
    roots.retain(frame);
    assert_eq!(roots.count(frame), 2);
    assert!(!roots.release(frame));
    assert_eq!(roots.count(frame), 1);
    roots.complete(frame, 37i32.to_ne_bytes().to_vec());
    assert_eq!(roots.result(frame, 4), Some(37i32.to_ne_bytes().to_vec()));
    assert_eq!(roots.count(frame), 1);
    assert!(roots.release(frame), "the final decrement frees immediately");
    assert_eq!(roots.count(frame), 0);
}

#[test]
fn async_step_resumes_pending_roots_in_kick_order() {
    let mut host = Host::new();
    host.frame(0x100, 1);
    host.frame(0x200, 2);
    host.kick(0x100);
    host.kick(0x200);
    assert_eq!(host.roots.pending_len(), 2);
    assert_eq!(std::mem::take(&mut host.stdout), b"one\ntwo\n");
    assert_eq!(host.step(), 0);
    assert_eq!(std::mem::take(&mut host.stdout), b"one\ntwo\n");
}

#[test]
fn async_step_on_trapped_context_is_no_op() {
    let mut host = Host::new();
    host.frame(0x100, 1);
    host.kick(0x100);
    host.trapped = true;
    assert_eq!(host.step(), 1);
    assert_eq!(host.polls[&0x100], 1);
    assert_eq!(host.roots.pending_len(), 1);
}

#[test]
fn dropping_context_does_not_resume_suspended_async_roots() {
    let mut host = Host::new();
    host.frame(0x100, 1);
    host.kick(0x100);
    assert_eq!(host.roots.pending_len(), 1);
    let polls = host.polls[&0x100];
    drop(host.roots);
    assert_eq!(polls, 1, "teardown must not run a continuation");
}

#[test]
fn async_step_keeps_unstepped_roots_live_during_collection() {
    let mut host = Host::new();
    host.frame(0x100, 3);
    host.frame(0x200, 2);
    host.roots.register(0x100);
    host.roots.register(0x200);
    host.kick(0x100);
    host.kick(0x200);
    assert!(host.roots.begin_round(false));
    let first = host.roots.round_next().unwrap();
    assert_eq!(first.frame, 0x100);
    // The first root collects while it runs: every frame of the round is
    // a root, also the one not polled yet.
    let roots = host.roots.frame_roots();
    assert!(roots.contains(&0x200));
    let done = host.resume(first.frame);
    assert!(done);
    assert!(host.roots.round_resumed(done, false), "the queue held the last handle");
    let roots = host.roots.frame_roots();
    assert!(roots.contains(&0x200), "the second root is still live");
    let second = host.roots.round_next().unwrap();
    let done = host.resume(second.frame);
    assert!(host.roots.round_resumed(done, false));
    assert_eq!(host.roots.end_round(), 0);
    assert_eq!(host.roots.count(0x200), 0);
}

#[test]
fn reload_epoch_and_script_depth_track_swaps_and_entries() {
    let mut roots = AsyncRoots::new();
    assert_eq!(roots.reload_epoch(), 0);
    roots.bump_reload_epoch();
    assert_eq!(roots.reload_epoch(), 1);
    assert_eq!(roots.script_depth(), 0);
    roots.enter_script();
    roots.enter_script();
    assert_eq!(roots.script_depth(), 2);
    roots.exit_script();
    roots.exit_script();
    roots.exit_script();
    assert_eq!(roots.script_depth(), 0);
}

#[test]
fn frames_created_before_a_reload_are_stale() {
    let mut roots = AsyncRoots::new();
    roots.register(0x100);
    assert!(!roots.is_stale(0x100));
    roots.bump_reload_epoch();
    assert!(roots.is_stale(0x100));
    roots.register(0x200);
    assert!(!roots.is_stale(0x200));
    assert!(!roots.is_stale(0x300), "unknown frames are not stale");
    roots.register(0);
    assert_eq!(roots.count(0), 0, "the null frame is never registered");
}

#[test]
fn a_trap_mid_round_keeps_the_trapping_root_and_the_rest_in_order() {
    let mut roots = AsyncRoots::new();
    for frame in [0x100, 0x200, 0x300] {
        assert!(roots.kick_begin(frame, false));
        roots.kick_end(AsyncRoot { frame, resume: frame + 1 }, false, false);
    }
    assert!(roots.begin_round(false));
    assert!(!roots.round_resumed(false, false));
    assert!(!roots.round_resumed(false, true));
    assert_eq!(roots.round_next(), None);
    assert_eq!(roots.end_round(), 3);
    assert!(roots.begin_round(false));
    assert_eq!(roots.round_next(), Some(AsyncRoot { frame: 0x100, resume: 0x101 }));
    assert!(!roots.round_resumed(true, false));
    assert_eq!(roots.round_next(), Some(AsyncRoot { frame: 0x200, resume: 0x201 }));
    assert!(!roots.round_resumed(false, false));
    assert_eq!(roots.round_next(), Some(AsyncRoot { frame: 0x300, resume: 0x301 }));
    assert!(!roots.round_resumed(false, false));
    assert_eq!(roots.end_round(), 2);
    assert!(roots.begin_round(false));
    assert_eq!(roots.round_next(), Some(AsyncRoot { frame: 0x200, resume: 0x201 }));
}

#[test]
fn completed_roots_free_registered_frames_and_results_check_size() {
    let mut roots = AsyncRoots::new();
    roots.register(0x100);
    assert!(roots.kick_begin(0x100, false));
    assert!(roots.kick_end(AsyncRoot { frame: 0x100, resume: 1 }, true, false));
    assert_eq!(roots.pending_len(), 0);
    roots.register(0x200);
    assert_eq!(roots.result(0x200, 0), None);
    roots.complete(0x200, vec![1, 2, 3]);
    assert_eq!(roots.result(0x200, 0), Some(vec![1, 2, 3]));
    assert_eq!(roots.result(0x200, 2), None);
    assert_eq!(roots.result(0x200, 3), Some(vec![1, 2, 3]));
    assert!(!roots.kick_begin(0, false));
    assert!(!roots.kick_begin(0x300, true));
}
