//! Poll-driven async roots: the reference counts, reload epochs and cached
//! completions of registered coroutine frames, and the deterministic queue
//! of suspended root invocations.
//!
//! Running generated code is the caller's: it resumes a root's frame and
//! reports whether the resume completed and whether the Context trapped.
//! The decisions around each resume are made here, one event at a time.
use vstd::prelude::*;

use std::collections::{HashMap, VecDeque};

verus! {

broadcast use vstd::std_specs::hash::group_hash_axioms;

/// A suspended root invocation: its frame and the caller's handle for the
/// frame's resume function.
#[derive(Debug, Clone, Copy, PartialEq, Eq)]
pub struct AsyncRoot {
    /// Address of the coroutine frame.
    pub frame: usize,
    /// The caller's handle for the resume function.
    pub resume: usize,
}

/// A registered frame: its held-handle count, the reload epoch it was
/// created in, and its fulfilled value once cached.
pub struct FrameMeta {
    /// Held handles.
    pub count: u32,
    /// Reload epoch at registration.
    pub created_epoch: u32,
    /// Fulfilled representation cached after the first held await.
    pub completion: Option<Vec<u8>>,
}

/// A frame's record as plain values: count, creation epoch, completion.
pub open spec fn meta_view(m: FrameMeta) -> (u32, u32, Option<Seq<u8>>) {
    (
        m.count,
        m.created_epoch,
        match m.completion {
            Some(v) => Some(v@),
            None => None,
        },
    )
}

/// `epoch + 1`, wrapping.
pub open spec fn next_epoch(epoch: u32) -> u32 {
    if epoch == u32::MAX {
        0
    } else {
        (epoch + 1) as u32
    }
}

/// The frames of `roots`, in order.
pub open spec fn frames_of(roots: Seq<AsyncRoot>) -> Seq<usize> {
    roots.map_values(|r: AsyncRoot| r.frame)
}

/// The registry of frames and the pending queue.
pub struct AsyncRoots {
    frames: HashMap<usize, FrameMeta>,
    pending: VecDeque<AsyncRoot>,
    round: VecDeque<AsyncRoot>,
    active: Vec<usize>,
    round_base: usize,
    epoch: u32,
    depth: u32,
}

impl AsyncRoots {
    /// The registered frames by address.
    pub closed spec fn frames(&self) -> Map<usize, (u32, u32, Option<Seq<u8>>)> {
        self.frames@.map_values(|m: FrameMeta| meta_view(m))
    }

    /// The suspended roots, in resume order.
    pub closed spec fn pending_roots(&self) -> Seq<AsyncRoot> {
        self.pending@
    }

    /// The roots of the round in progress not yet resumed, in order.
    pub closed spec fn round_roots(&self) -> Seq<AsyncRoot> {
        self.round@
    }

    /// Frames being resumed right now, which are collection roots.
    pub closed spec fn active_frames(&self) -> Seq<usize> {
        self.active@
    }

    /// Where the active frames stood when the round began.
    pub closed spec fn round_start(&self) -> usize {
        self.round_base
    }

    /// The current reload epoch.
    pub closed spec fn epoch_now(&self) -> u32 {
        self.epoch
    }

    /// Host-to-script calls currently on the stack.
    pub closed spec fn depth(&self) -> u32 {
        self.depth
    }

    /// No frame sits at the null address, and a round's frames are
    /// active above its start.
    pub closed spec fn wf(&self) -> bool {
        &&& !self.frames@.contains_key(0)
        &&& self.round_base <= self.active@.len()
    }

    /// An empty registry at epoch zero.
    pub fn new() -> (r: AsyncRoots)
        ensures
            r.wf(),
            r.frames() == Map::<usize, (u32, u32, Option<Seq<u8>>)>::empty(),
            r.pending_roots() == Seq::<AsyncRoot>::empty(),
            r.round_roots() == Seq::<AsyncRoot>::empty(),
            r.active_frames() == Seq::<usize>::empty(),
            r.epoch_now() == 0,
            r.depth() == 0,
    {
        let r = AsyncRoots {
            frames: HashMap::new(),
            pending: VecDeque::new(),
            round: VecDeque::new(),
            active: Vec::new(),
            round_base: 0,
            epoch: 0,
            depth: 0,
        };
        proof {
            assert(r.frames() =~= Map::<usize, (u32, u32, Option<Seq<u8>>)>::empty());
        }
        r
    }

    /// Marks entry into script code, saturating.
    pub fn enter_script(&mut self)
        ensures
            final(self).depth() == if old(self).depth() == u32::MAX {
                u32::MAX
            } else {
                (old(self).depth() + 1) as u32
            },
            final(self).frames() == old(self).frames(),
            final(self).pending_roots() == old(self).pending_roots(),
            final(self).round_roots() == old(self).round_roots(),
            final(self).active_frames() == old(self).active_frames(),
            final(self).round_start() == old(self).round_start(),
            final(self).epoch_now() == old(self).epoch_now(),
            old(self).wf() ==> final(self).wf(),
    {
        self.depth = self.depth.saturating_add(1);
    }

    /// Marks return from script code, stopping at zero.
    pub fn exit_script(&mut self)
        ensures
            final(self).depth() == if old(self).depth() == 0 {
                0
            } else {
                (old(self).depth() - 1) as u32
            },
            final(self).frames() == old(self).frames(),
            final(self).pending_roots() == old(self).pending_roots(),
            final(self).round_roots() == old(self).round_roots(),
            final(self).active_frames() == old(self).active_frames(),
            final(self).round_start() == old(self).round_start(),
            final(self).epoch_now() == old(self).epoch_now(),
            old(self).wf() ==> final(self).wf(),
    {
        self.depth = self.depth.saturating_sub(1);
    }

    /// Host-to-script calls currently on the stack; a reload applies only
    /// at zero.
    pub fn script_depth(&self) -> (r: u32)
        ensures
            r == self.depth(),
    {
        self.depth
    }

    /// The current reload epoch.
    pub fn reload_epoch(&self) -> (r: u32)
        ensures
            r == self.epoch_now(),
    {
        self.epoch
    }

    /// Advances the reload epoch, wrapping, which makes every frame
    /// created before it stale.
    pub fn bump_reload_epoch(&mut self)
        ensures
            final(self).epoch_now() == next_epoch(old(self).epoch_now()),
            final(self).depth() == old(self).depth(),
            final(self).frames() == old(self).frames(),
            final(self).pending_roots() == old(self).pending_roots(),
            final(self).round_roots() == old(self).round_roots(),
            final(self).active_frames() == old(self).active_frames(),
            final(self).round_start() == old(self).round_start(),
            old(self).wf() ==> final(self).wf(),
    {
        self.epoch = self.epoch.wrapping_add(1);
    }

    /// Registers a fresh frame with one held handle, created in the
    /// current epoch. The null frame is ignored.
    pub fn register(&mut self, frame: usize)
        requires
            old(self).wf(),
        ensures
            final(self).wf(),
            final(self).frames() == if frame == 0 {
                old(self).frames()
            } else {
                old(self).frames().insert(frame, (1u32, old(self).epoch_now(), None))
            },
            final(self).pending_roots() == old(self).pending_roots(),
            final(self).round_roots() == old(self).round_roots(),
            final(self).active_frames() == old(self).active_frames(),
            final(self).round_start() == old(self).round_start(),
            final(self).epoch_now() == old(self).epoch_now(),
            final(self).depth() == old(self).depth(),
    {
        if frame == 0 {
            return;
        }
        let ghost pre = self.frames@;
        self.frames.insert(frame, FrameMeta { count: 1, created_epoch: self.epoch, completion: None });
        proof {
            assert(self.frames() =~= pre.map_values(|m: FrameMeta| meta_view(m)).insert(
                frame,
                (1u32, self.epoch, None),
            ));
        }
    }

    /// Adds a held handle to a registered frame, saturating; anything
    /// else is ignored.
    pub fn retain(&mut self, frame: usize)
        requires
            old(self).wf(),
        ensures
            final(self).wf(),
            final(self).frames() == if old(self).frames().contains_key(frame) {
                let (c, e, v) = old(self).frames()[frame];
                old(self).frames().insert(
                    frame,
                    (if c == u32::MAX { c } else { (c + 1) as u32 }, e, v),
                )
            } else {
                old(self).frames()
            },
            final(self).pending_roots() == old(self).pending_roots(),
            final(self).round_roots() == old(self).round_roots(),
            final(self).active_frames() == old(self).active_frames(),
            final(self).round_start() == old(self).round_start(),
            final(self).epoch_now() == old(self).epoch_now(),
            final(self).depth() == old(self).depth(),
    {
        let ghost pre = self.frames@;
        match self.frames.remove(&frame) {
            Some(meta) => {
                let count = meta.count.saturating_add(1);
                let FrameMeta { count: _, created_epoch, completion } = meta;
                self.frames.insert(frame, FrameMeta { count, created_epoch, completion });
                proof {
                    assert(self.frames() =~= pre.map_values(|m: FrameMeta| meta_view(m)).insert(
                        frame,
                        (count, created_epoch, meta_view(meta).2),
                    ));
                }
            },
            None => {
                proof {
                    assert(self.frames@ =~= pre);
                }
            },
        }
    }

    /// Drops one held handle of a registered frame. The result is true
    /// exactly when that was the last handle: the frame then leaves the
    /// registry and the caller frees it. A count already at zero, or an
    /// unknown frame, is left alone.
    pub fn release(&mut self, frame: usize) -> (r: bool)
        requires
            old(self).wf(),
        ensures
            final(self).wf(),
            r <==> old(self).frames().contains_key(frame) && old(self).frames()[frame].0 == 1,
            final(self).frames() == if !old(self).frames().contains_key(frame) || old(self).frames()[frame].0
                == 0 {
                old(self).frames()
            } else if old(self).frames()[frame].0 == 1 {
                old(self).frames().remove(frame)
            } else {
                let (c, e, v) = old(self).frames()[frame];
                old(self).frames().insert(frame, ((c - 1) as u32, e, v))
            },
            final(self).pending_roots() == old(self).pending_roots(),
            final(self).round_roots() == old(self).round_roots(),
            final(self).active_frames() == old(self).active_frames(),
            final(self).round_start() == old(self).round_start(),
            final(self).epoch_now() == old(self).epoch_now(),
            final(self).depth() == old(self).depth(),
    {
        let ghost pre = self.frames@;
        match self.frames.remove(&frame) {
            Some(meta) => {
                if meta.count == 0 {
                    self.frames.insert(frame, meta);
                    proof {
                        assert(self.frames@ =~= pre);
                    }
                    return false;
                }
                if meta.count == 1 {
                    proof {
                        assert(self.frames() =~= pre.map_values(|m: FrameMeta| meta_view(m)).remove(
                            frame,
                        ));
                    }
                    return true;
                }
                let count = meta.count - 1;
                let FrameMeta { count: _, created_epoch, completion } = meta;
                self.frames.insert(frame, FrameMeta { count, created_epoch, completion });
                proof {
                    assert(self.frames() =~= pre.map_values(|m: FrameMeta| meta_view(m)).insert(
                        frame,
                        (count, created_epoch, meta_view(meta).2),
                    ));
                }
                false
            },
            None => {
                proof {
                    assert(self.frames@ =~= pre);
                }
                false
            },
        }
    }

    /// Held handles of a registered frame; zero for anything else.
    pub fn count(&self, frame: usize) -> (r: u32)
        ensures
            r == if self.frames().contains_key(frame) {
                self.frames()[frame].0
            } else {
                0
            },
    {
        match self.frames.get(&frame) {
            Some(meta) => meta.count,
            None => 0,
        }
    }

    /// A registered frame created before the current reload epoch.
    pub fn is_stale(&self, frame: usize) -> (r: bool)
        ensures
            r <==> self.frames().contains_key(frame) && self.frames()[frame].1 != self.epoch_now(),
    {
        match self.frames.get(&frame) {
            Some(meta) => meta.created_epoch != self.epoch,
            None => false,
        }
    }

    /// Caches the fulfilled representation of a registered frame; an
    /// unknown frame is ignored.
    pub fn complete(&mut self, frame: usize, value: Vec<u8>)
        requires
            old(self).wf(),
        ensures
            final(self).wf(),
            final(self).frames() == if old(self).frames().contains_key(frame) {
                let (c, e, _) = old(self).frames()[frame];
                old(self).frames().insert(frame, (c, e, Some(value@)))
            } else {
                old(self).frames()
            },
            final(self).pending_roots() == old(self).pending_roots(),
            final(self).round_roots() == old(self).round_roots(),
            final(self).active_frames() == old(self).active_frames(),
            final(self).round_start() == old(self).round_start(),
            final(self).epoch_now() == old(self).epoch_now(),
            final(self).depth() == old(self).depth(),
    {
        let ghost pre = self.frames@;
        match self.frames.remove(&frame) {
            Some(meta) => {
                let FrameMeta { count, created_epoch, completion: _ } = meta;
                let ghost v = value@;
                self.frames.insert(frame, FrameMeta { count, created_epoch, completion: Some(value) });
                proof {
                    assert(self.frames() =~= pre.map_values(|m: FrameMeta| meta_view(m)).insert(
                        frame,
                        (count, created_epoch, Some(v)),
                    ));
                }
            },
            None => {
                proof {
                    assert(self.frames@ =~= pre);
                }
            },
        }
    }

    /// The cached fulfilled representation of a frame that has completed,
    /// when it is `size` bytes long (any length when `size` is zero).
    pub fn result(&self, frame: usize, size: usize) -> (r: Option<Vec<u8>>)
        ensures
            r matches Some(v) ==> self.frames().contains_key(frame) && self.frames()[frame].2 == Some(v@),
            r is Some <==> (self.frames().contains_key(frame) && (self.frames()[frame].2 matches Some(c) && (
            size == 0 || c.len() == size))),
    {
        match self.frames.get(&frame) {
            Some(meta) => match &meta.completion {
                Some(bytes) => {
                    if size != 0 && bytes.len() != size {
                        return None;
                    }
                    let mut out: Vec<u8> = Vec::new();
                    let mut i: usize = 0;
                    while i < bytes.len()
                        invariant
                            i <= bytes@.len(),
                            out@ == bytes@.take(i as int),
                        decreases bytes@.len() - i,
                    {
                        out.push(bytes[i]);
                        i = i + 1;
                        proof {
                            assert(out@ =~= bytes@.take(i as int));
                        }
                    }
                    proof {
                        assert(bytes@.take(i as int) =~= bytes@);
                    }
                    Some(out)
                },
                None => None,
            },
            None => None,
        }
    }

    /// Number of suspended root invocations.
    pub fn pending_len(&self) -> (r: usize)
        ensures
            r == self.pending_roots().len(),
    {
        self.pending.len()
    }
}

/// The queues after the front root of a round reports on its resume:
/// a trap puts it and every root not yet resumed back at the end of the
/// queue and ends the round; a completed root leaves; a suspended root
/// goes to the back.
pub open spec fn after_resume(
    pending: Seq<AsyncRoot>,
    round: Seq<AsyncRoot>,
    done: bool,
    trapped: bool,
) -> (Seq<AsyncRoot>, Seq<AsyncRoot>) {
    if trapped {
        (pending + round, Seq::empty())
    } else if done {
        (pending, round.drop_first())
    } else {
        (pending.push(round[0]), round.drop_first())
    }
}

/// A whole round, resume by resume: the queue once `outcomes` (done,
/// trapped) have been reported for the front roots in turn.
pub open spec fn run_round(
    pending: Seq<AsyncRoot>,
    round: Seq<AsyncRoot>,
    outcomes: Seq<(bool, bool)>,
) -> Seq<AsyncRoot>
    decreases outcomes.len(),
{
    if round.len() == 0 || outcomes.len() == 0 {
        pending + round
    } else {
        let (p, r) = after_resume(pending, round, outcomes[0].0, outcomes[0].1);
        run_round(p, r, outcomes.drop_first())
    }
}

/// The roots of `round` that stay queued: those that suspended, in
/// order, then, from the first trap on, every root not resumed after it.
pub open spec fn kept(round: Seq<AsyncRoot>, outcomes: Seq<(bool, bool)>) -> Seq<AsyncRoot>
    decreases outcomes.len(),
{
    if round.len() == 0 || outcomes.len() == 0 || outcomes[0].1 {
        round
    } else if outcomes[0].0 {
        kept(round.drop_first(), outcomes.drop_first())
    } else {
        seq![round[0]] + kept(round.drop_first(), outcomes.drop_first())
    }
}

/// A round resumes the roots pending at its start in kick order: the
/// queue after it is what was queued before, followed by the roots that
/// suspended in their relative order and, after a trap, the trapping root
/// and every root not yet resumed; completed roots leave.
pub proof fn lemma_round_keeps_order(
    pending: Seq<AsyncRoot>,
    round: Seq<AsyncRoot>,
    outcomes: Seq<(bool, bool)>,
)
    ensures
        run_round(pending, round, outcomes) == pending + kept(round, outcomes),
    decreases outcomes.len(),
{
    if round.len() == 0 || outcomes.len() == 0 {
    } else if outcomes[0].1 {
        assert(run_round(pending + round, Seq::empty(), outcomes.drop_first()) == pending + round + Seq::<AsyncRoot>::empty());
        assert(pending + round + Seq::<AsyncRoot>::empty() =~= pending + round);
    } else if outcomes[0].0 {
        lemma_round_keeps_order(pending, round.drop_first(), outcomes.drop_first());
    } else {
        lemma_round_keeps_order(pending.push(round[0]), round.drop_first(), outcomes.drop_first());
        assert(pending.push(round[0]) + kept(round.drop_first(), outcomes.drop_first()) =~= pending + (seq![round[0]]
            + kept(round.drop_first(), outcomes.drop_first())));
    }
}

impl AsyncRoots {
    /// Starts a root invocation's first run: unless the frame is null or
    /// the Context has trapped, the frame becomes active (a collection
    /// root) and the caller resumes it.
    pub fn kick_begin(&mut self, frame: usize, trapped: bool) -> (r: bool)
        requires
            old(self).wf(),
        ensures
            final(self).wf(),
            r <==> frame != 0 && !trapped,
            final(self).active_frames() == if r {
                old(self).active_frames().push(frame)
            } else {
                old(self).active_frames()
            },
            final(self).frames() == old(self).frames(),
            final(self).pending_roots() == old(self).pending_roots(),
            final(self).round_roots() == old(self).round_roots(),
            final(self).round_start() == old(self).round_start(),
            final(self).epoch_now() == old(self).epoch_now(),
            final(self).depth() == old(self).depth(),
    {
        if frame == 0 || trapped {
            return false;
        }
        self.active.push(frame);
        true
    }

    /// Ends a root invocation's first run, which `done` says completed
    /// and `trapped` says trapped: a suspended root, absent a trap, joins
    /// the back of the queue; a completed one gives up the creator's
    /// handle. The result is true when that was the frame's last handle
    /// and the caller frees it.
    pub fn kick_end(&mut self, root: AsyncRoot, done: bool, trapped: bool) -> (r: bool)
        requires
            old(self).wf(),
            old(self).active_frames().len() > old(self).round_start(),
            old(self).active_frames().last() == root.frame,
        ensures
            final(self).wf(),
            final(self).active_frames() == old(self).active_frames().drop_last(),
            final(self).pending_roots() == if !done && !trapped {
                old(self).pending_roots().push(root)
            } else {
                old(self).pending_roots()
            },
            r <==> done && old(self).frames().contains_key(root.frame) && old(self).frames()[root.frame].0 == 1,
            !done ==> final(self).frames() == old(self).frames(),
            final(self).round_roots() == old(self).round_roots(),
            final(self).round_start() == old(self).round_start(),
            final(self).epoch_now() == old(self).epoch_now(),
            final(self).depth() == old(self).depth(),
    {
        self.active.pop();
        if !done {
            if !trapped {
                self.pending.push_back(root);
            }
            return false;
        }
        self.release(root.frame)
    }

    /// Starts a round of `step`: unless the Context has trapped or nothing
    /// is pending, every pending root moves into the round, in order, and
    /// their frames become active.
    pub fn begin_round(&mut self, trapped: bool) -> (r: bool)
        requires
            old(self).wf(),
            old(self).round_roots().len() == 0,
        ensures
            final(self).wf(),
            r <==> !trapped && old(self).pending_roots().len() > 0,
            r ==> {
                &&& final(self).round_roots() == old(self).pending_roots()
                &&& final(self).pending_roots() == Seq::<AsyncRoot>::empty()
                &&& final(self).active_frames() == old(self).active_frames() + frames_of(old(self).pending_roots())
                &&& final(self).round_start() == old(self).active_frames().len()
                &&& final(self).depth() == if old(self).depth() == u32::MAX {
                    u32::MAX
                } else {
                    (old(self).depth() + 1) as u32
                }
            },
            !r ==> {
                &&& final(self).round_roots() == old(self).round_roots()
                &&& final(self).pending_roots() == old(self).pending_roots()
                &&& final(self).active_frames() == old(self).active_frames()
                &&& final(self).round_start() == old(self).round_start()
                &&& final(self).depth() == old(self).depth()
            },
            final(self).frames() == old(self).frames(),
            final(self).epoch_now() == old(self).epoch_now(),
    {
        if trapped || self.pending.len() == 0 {
            return false;
        }
        let ghost pre = *self;
        let mut round: VecDeque<AsyncRoot> = VecDeque::new();
        std::mem::swap(&mut round, &mut self.pending);
        let base = self.active.len();
        let ghost act = self.active@;
        let n = round.len();
        let mut i: usize = 0;
        while i < n
            invariant
                n == round@.len(),
                i <= n,
                self.active@ == act + frames_of(round@.take(i as int)),
                round@ == pre.pending@,
                self.pending@ == Seq::<AsyncRoot>::empty(),
                self.frames == pre.frames,
                self.round@ == pre.round@,
                self.epoch == pre.epoch,
                self.depth == pre.depth,
            decreases n - i,
        {
            let f = round[i].frame;
            self.active.push(f);
            i = i + 1;
            proof {
                assert(frames_of(round@.take(i as int)) =~= frames_of(round@.take(i - 1)).push(f));
                assert(act + frames_of(round@.take(i - 1)).push(f) =~= (act + frames_of(round@.take(i - 1))).push(f));
            }
        }
        proof {
            assert(round@.take(n as int) =~= round@);
            assert(self.active@ == act + frames_of(round@));
            assert(frames_of(round@).len() == n);
        }
        let ghost moved = round@;
        self.round = round;
        self.round_base = base;
        self.enter_script();
        proof {
            assert(self.round@ == moved);
            assert(moved == old(self).pending@);
            assert(self.pending@ =~= Seq::<AsyncRoot>::empty());
        }
        true
    }

    /// The root the round resumes next.
    pub fn round_next(&self) -> (r: Option<AsyncRoot>)
        ensures
            r == if self.round_roots().len() > 0 {
                Some(self.round_roots()[0])
            } else {
                None::<AsyncRoot>
            },
    {
        if self.round.len() == 0 {
            None
        } else {
            Some(self.round[0])
        }
    }

    /// Records how the front root of the round fared: `done` says its
    /// resume completed, `trapped` that the Context trapped. A completed
    /// root, absent a trap, gives up the queue's handle; the result is
    /// true when that was the frame's last handle and the caller frees it.
    pub fn round_resumed(&mut self, done: bool, trapped: bool) -> (r: bool)
        requires
            old(self).wf(),
            old(self).round_roots().len() > 0,
        ensures
            final(self).wf(),
            (final(self).pending_roots(), final(self).round_roots()) == after_resume(
                old(self).pending_roots(),
                old(self).round_roots(),
                done,
                trapped,
            ),
            r <==> done && !trapped && old(self).frames().contains_key(old(self).round_roots()[0].frame)
                && old(self).frames()[old(self).round_roots()[0].frame].0 == 1,
            !(done && !trapped) ==> final(self).frames() == old(self).frames(),
            final(self).active_frames() == old(self).active_frames(),
            final(self).round_start() == old(self).round_start(),
            final(self).epoch_now() == old(self).epoch_now(),
            final(self).depth() == old(self).depth(),
    {
        let root = self.round.pop_front().unwrap();
        if trapped {
            self.pending.push_back(root);
            self.pending.append(&mut self.round);
            proof {
                assert(self.pending@ =~= old(self).pending@ + old(self).round@);
            }
            return false;
        }
        if !done {
            self.pending.push_back(root);
            return false;
        }
        self.release(root.frame)
    }

    /// Ends a round whose roots have all reported: the round's frames stop
    /// being active. Returns the number of pending roots.
    pub fn end_round(&mut self) -> (r: usize)
        requires
            old(self).wf(),
            old(self).round_roots().len() == 0,
        ensures
            final(self).wf(),
            r == old(self).pending_roots().len(),
            final(self).active_frames() == old(self).active_frames().take(old(self).round_start() as int),
            final(self).round_start() == final(self).active_frames().len(),
            final(self).frames() == old(self).frames(),
            final(self).pending_roots() == old(self).pending_roots(),
            final(self).round_roots() == old(self).round_roots(),
            final(self).epoch_now() == old(self).epoch_now(),
            final(self).depth() == if old(self).depth() == 0 {
                0
            } else {
                (old(self).depth() - 1) as u32
            },
    {
        self.active.truncate(self.round_base);
        self.exit_script();
        self.pending.len()
    }

    /// The frames that are collection roots: every queued root's frame,
    /// every active frame and every registered frame. The words of cached
    /// completions are roots too; the caller reads them from the bytes.
    pub fn frame_roots(&self) -> (r: Vec<usize>)
        ensures
            forall|x: usize| #[trigger] r@.contains(x) <==> frames_of(self.pending_roots()).contains(x)
                || self.active_frames().contains(x) || self.frames().contains_key(x),
    {
        let mut r: Vec<usize> = Vec::new();
        let n = self.pending.len();
        let mut i: usize = 0;
        while i < n
            invariant
                n == self.pending@.len(),
                i <= n,
                r@ == frames_of(self.pending@.take(i as int)),
            decreases n - i,
        {
            r.push(self.pending[i].frame);
            i = i + 1;
            proof {
                assert(frames_of(self.pending@.take(i as int)) =~= frames_of(self.pending@.take(i - 1)).push(self.pending@[i - 1].frame));
            }
        }
        proof {
            assert(self.pending@.take(n as int) =~= self.pending@);
        }
        let ghost queued = r@;
        let mut j: usize = 0;
        while j < self.active.len()
            invariant
                j <= self.active@.len(),
                r@ == queued + self.active@.take(j as int),
            decreases self.active@.len() - j,
        {
            r.push(self.active[j]);
            j = j + 1;
            proof {
                assert(queued + self.active@.take(j as int) =~= (queued + self.active@.take(j - 1)).push(self.active@[j - 1]));
            }
        }
        proof {
            assert(self.active@.take(j as int) =~= self.active@);
        }
        let ghost listed = r@;
        let keys = super::heap::live_keys(&self.frames);
        let mut k: usize = 0;
        while k < keys.len()
            invariant
                k <= keys@.len(),
                keys@.to_set() == self.frames@.dom(),
                r@ == listed + keys@.take(k as int),
            decreases keys@.len() - k,
        {
            r.push(keys[k]);
            k = k + 1;
            proof {
                assert(listed + keys@.take(k as int) =~= (listed + keys@.take(k - 1)).push(keys@[k - 1]));
            }
        }
        proof {
            assert(keys@.take(k as int) =~= keys@);
            assert forall|x: usize| #[trigger] r@.contains(x) <==> frames_of(self.pending_roots()).contains(x)
                || self.active_frames().contains(x) || self.frames().contains_key(x) by {
                assert(r@ == queued + self.active@ + keys@);
                assert(keys@.contains(x) <==> keys@.to_set().contains(x));
                if r@.contains(x) {
                    let p = choose|p: int| 0 <= p < r@.len() && r@[p] == x;
                    if p < queued.len() {
                        assert(queued[p] == x);
                    } else if p < queued.len() + self.active@.len() {
                        assert(self.active@[p - queued.len()] == x);
                    } else {
                        assert(keys@[p - queued.len() - self.active@.len()] == x);
                    }
                }
                if frames_of(self.pending_roots()).contains(x) {
                    let p = choose|p: int| 0 <= p < queued.len() && queued[p] == x;
                    assert(r@[p] == x);
                }
                if self.active_frames().contains(x) {
                    let p = choose|p: int| 0 <= p < self.active@.len() && self.active@[p] == x;
                    assert(r@[queued.len() + p] == x);
                }
                if self.frames().contains_key(x) {
                    assert(keys@.to_set().contains(x));
                    let p = choose|p: int| 0 <= p < keys@.len() && keys@[p] == x;
                    assert(r@[queued.len() + self.active@.len() + p] == x);
                }
            }
        }
        r
    }
}

} // verus!
