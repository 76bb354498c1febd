//! Bookkeeping of the exact-size (development tier) allocator: the live
//! allocation records, freed-handle diagnostics with their retention
//! budget, and the conservative mark-and-sweep collector.
//!
//! Memory itself is the caller's: it allocates and zeroes the system
//! block, writes and poisons headers, reads payload words for the
//! collector, and releases exactly the blocks the operations here list.
//! Addresses are payload addresses (block base plus the header).
use vstd::prelude::*;

use std::collections::{HashMap, HashSet, VecDeque};
use vstd::std_specs::hash::spec_keys_iter;
use vstd::std_specs::iter::IteratorSpec;

use super::arena::{block_class, block_need, NUM_CLASSES};
use super::{is_size_class, HEADER_SIZE, LARGEST_BLOCK};

verus! {

broadcast use vstd::std_specs::hash::group_hash_axioms;

/// What the allocator records of one live allocation.
#[derive(Debug, Clone, Copy, PartialEq, Eq)]
pub struct LiveRecord {
    /// Requested payload bytes.
    pub payload_size: usize,
    /// Bytes of the system block: header plus payload.
    pub layout_size: usize,
    /// Class id written in the header.
    pub class_id: u32,
    /// Allocating position id written in the header.
    pub pos_id: u32,
}

/// Total layout bytes of retained records.
pub open spec fn queue_bytes(q: Seq<(usize, usize)>) -> nat
    decreases q.len(),
{
    if q.len() == 0 {
        0
    } else {
        q[0].1 as nat + queue_bytes(q.drop_first())
    }
}

/// Payload addresses of retained records, oldest first.
pub open spec fn queue_payloads(q: Seq<(usize, usize)>) -> Seq<usize> {
    q.map_values(|e: (usize, usize)| e.0)
}

/// How many of the oldest records leave so that the rest fit in `room`.
pub open spec fn evictions(q: Seq<(usize, usize)>, room: nat) -> nat
    decreases q.len(),
{
    if queue_bytes(q) <= room || q.len() == 0 {
        0
    } else {
        1 + evictions(q.drop_first(), room)
    }
}

/// Retaining the freed block `(p, layout)` under budget `max`: a block
/// larger than the whole budget is released at once; otherwise the oldest
/// retained blocks are released until it fits and it joins the queue as
/// the newest. Yields the new queue, whether `p` was retained, and the
/// blocks to release in order.
pub open spec fn retire(q: Seq<(usize, usize)>, max: usize, p: usize, layout: usize) -> (
    Seq<(usize, usize)>,
    bool,
    Seq<(usize, usize)>,
) {
    if layout > max {
        (q, false, seq![(p, layout)])
    } else {
        let k = evictions(q, (max - layout) as nat) as int;
        (q.skip(k).push((p, layout)), true, q.take(k))
    }
}

/// Proves the byte sum of a queue split at `k`.
proof fn lemma_queue_bytes_split(q: Seq<(usize, usize)>, k: int)
    requires
        0 <= k <= q.len(),
    ensures
        queue_bytes(q) == queue_bytes(q.take(k)) + queue_bytes(q.skip(k)),
    decreases k,
{
    if k > 0 {
        lemma_queue_bytes_split(q.drop_first(), k - 1);
        assert(q.drop_first().take(k - 1) =~= q.take(k).drop_first());
        assert(q.drop_first().skip(k - 1) =~= q.skip(k));
    } else {
        assert(q.skip(0) =~= q);
        assert(q.take(0).len() == 0);
    }
}

/// Appending one record adds its layout bytes.
proof fn lemma_queue_bytes_push(q: Seq<(usize, usize)>, e: (usize, usize))
    ensures
        queue_bytes(q.push(e)) == queue_bytes(q) + e.1,
    decreases q.len(),
{
    if q.len() > 0 {
        lemma_queue_bytes_push(q.drop_first(), e);
        assert(q.push(e).drop_first() =~= q.drop_first().push(e));
        assert(q.push(e)[0] == q[0]);
    } else {
        assert(q.push(e).drop_first() =~= Seq::<(usize, usize)>::empty());
        assert(queue_bytes(Seq::<(usize, usize)>::empty()) == 0);
        assert(q.push(e)[0] == e);
    }
}

/// After the evictions the rest fits, and the evicted count is a prefix.
proof fn lemma_evictions_fit(q: Seq<(usize, usize)>, room: nat)
    ensures
        evictions(q, room) <= q.len(),
        queue_bytes(q.skip(evictions(q, room) as int)) <= room,
    decreases q.len(),
{
    if queue_bytes(q) <= room || q.len() == 0 {
        assert(q.skip(0) =~= q);
    } else {
        lemma_evictions_fit(q.drop_first(), room);
        let k = evictions(q.drop_first(), room) as int;
        assert(q.drop_first().skip(k) =~= q.skip(k + 1));
    }
}

/// The exact-size allocator's records. Memory reached through the
/// addresses is the caller's.
pub struct ExactHeap {
    live: HashMap<usize, LiveRecord>,
    dead: HashSet<usize>,
    retained: VecDeque<(usize, usize)>,
    retained_bytes: usize,
    diagnostics: bool,
    min_payload_bytes: usize,
    max_retained_bytes: usize,
    started: bool,
    fail_countdown: Option<u64>,
}

/// What `ExactHeap::delete` found and did.
#[derive(Debug, PartialEq, Eq)]
pub enum DeleteOutcome {
    /// Not a live allocation, with diagnostics off: nothing happens.
    NotLive,
    /// Diagnostics on: the address is a retained freed allocation.
    DoubleDelete,
    /// Diagnostics on: the address is no allocation the heap holds.
    InvalidDelete,
    /// The live record was removed. `retained`: the block stays owned and
    /// poisoned; `release`: the `(payload, layout)` blocks to give back to
    /// the system now, in order.
    Removed { class_id: u32, retained: bool, release: Vec<(usize, usize)> },
}

impl ExactHeap {
    /// Live records by payload address.
    pub closed spec fn live(&self) -> Map<usize, LiveRecord> {
        self.live@
    }

    /// Retained freed blocks `(payload, layout)`, oldest first.
    pub closed spec fn queue(&self) -> Seq<(usize, usize)> {
        self.retained@
    }

    /// Whether freed-handle diagnostics are on.
    pub closed spec fn diagnostics(&self) -> bool {
        self.diagnostics
    }

    /// Smallest payload a diagnostics-mode free retains.
    pub closed spec fn min_payload(&self) -> usize {
        self.min_payload_bytes
    }

    /// Byte budget of retained blocks.
    pub closed spec fn max_retained(&self) -> usize {
        self.max_retained_bytes
    }

    /// Whether an allocation request has been made.
    pub closed spec fn started(&self) -> bool {
        self.started
    }

    /// Pending injected allocation failure: requests left until it fires.
    pub closed spec fn countdown(&self) -> Option<u64> {
        self.fail_countdown
    }

    /// The retained-dead address set: the payloads of the queue.
    pub closed spec fn dead(&self) -> Set<usize> {
        self.dead@
    }

    /// Internal consistency: the dead set lists the queue's payloads,
    /// each once; the retained byte count is the queue's layout total and
    /// within budget; nothing is both live and dead, and nothing is live
    /// before the first allocation request; without diagnostics,
    /// or before any allocation, nothing is retained; an armed failure is
    /// at least one request away.
    pub closed spec fn wf(&self) -> bool {
        &&& self.dead@ == queue_payloads(self.retained@).to_set()
        &&& queue_payloads(self.retained@).no_duplicates()
        &&& self.retained_bytes == queue_bytes(self.retained@)
        &&& self.retained_bytes <= self.max_retained_bytes
        &&& forall|p: usize| #[trigger]
            self.live@.contains_key(p) ==> !self.dead@.contains(p) && self.started
        &&& !self.diagnostics ==> self.retained@.len() == 0
        &&& !self.started ==> self.retained@.len() == 0
        &&& self.fail_countdown != Some(0u64)
    }

    /// A fresh heap: no allocation, diagnostics off, no pending failure.
    pub fn new() -> (r: ExactHeap)
        ensures
            r.wf(),
            r.live() == Map::<usize, LiveRecord>::empty(),
            r.queue() == Seq::<(usize, usize)>::empty(),
            !r.diagnostics(),
            r.min_payload() == 0,
            r.max_retained() == 0,
            !r.started(),
            r.countdown() is None,
    {
        let r = ExactHeap {
            live: HashMap::new(),
            dead: HashSet::new(),
            retained: VecDeque::new(),
            retained_bytes: 0,
            diagnostics: false,
            min_payload_bytes: 0,
            max_retained_bytes: 0,
            started: false,
            fail_countdown: None,
        };
        proof {
            assert(queue_payloads(r.retained@) =~= Seq::<usize>::empty());
            assert(r.dead@ =~= queue_payloads(r.retained@).to_set());
        }
        r
    }

    /// Sets freed-handle diagnostics; the threshold and budget change only
    /// when enabling. Refused (`false`, nothing changed) once an
    /// allocation has been requested.
    pub fn set_freed_handle_diagnostics(
        &mut self,
        enabled: bool,
        min_payload_bytes: usize,
        max_retained_bytes: usize,
    ) -> (r: bool)
        requires
            old(self).wf(),
        ensures
            final(self).wf(),
            r == !old(self).started(),
            final(self).live() == old(self).live(),
            final(self).queue() == old(self).queue(),
            final(self).started() == old(self).started(),
            final(self).countdown() == old(self).countdown(),
            final(self).diagnostics() == if r { enabled } else { old(self).diagnostics() },
            final(self).min_payload() == if r && enabled {
                min_payload_bytes
            } else {
                old(self).min_payload()
            },
            final(self).max_retained() == if r && enabled {
                max_retained_bytes
            } else {
                old(self).max_retained()
            },
    {
        if self.started {
            return false;
        }
        self.diagnostics = enabled;
        if enabled {
            self.min_payload_bytes = min_payload_bytes;
            self.max_retained_bytes = max_retained_bytes;
        }
        true
    }
}

/// Bytes of the system block for a payload of `size` bytes: the header
/// plus at least one payload byte, saturating.
pub open spec fn block_size(size: usize) -> int {
    let payload: int = if size == 0 { 1 } else { size as int };
    if HEADER_SIZE + payload > usize::MAX {
        usize::MAX as int
    } else {
        HEADER_SIZE + payload
    }
}

/// The decision on an allocation request.
#[derive(Debug, Clone, Copy, PartialEq, Eq)]
pub enum AllocPlan {
    /// The armed injected failure fired: the request fails.
    InjectedFailure,
    /// No layout of the needed size exists: the request fails.
    Unrepresentable,
    /// An exact-size system block of this many bytes.
    Exact(usize),
    /// A block of this ship-tier size class.
    Classed(usize),
    /// A large ship-tier allocation: a system block of this many bytes.
    Large(usize),
}

/// Whether a block of `total` bytes at 16-byte alignment is a valid
/// layout: rounded up to the alignment it must not exceed `isize::MAX`.
pub open spec fn layout_ok(total: int) -> bool {
    total + 15 <= isize::MAX
}

impl ExactHeap {
    /// Arms an injected allocation failure: the `n`-th request from now
    /// fails; `n == 0` disarms.
    pub fn fail_alloc_after(&mut self, n: u64)
        requires
            old(self).wf(),
        ensures
            final(self).wf(),
            final(self).countdown() == if n != 0 { Some(n) } else { None::<u64> },
            final(self).live() == old(self).live(),
            final(self).queue() == old(self).queue(),
            final(self).diagnostics() == old(self).diagnostics(),
            final(self).min_payload() == old(self).min_payload(),
            final(self).max_retained() == old(self).max_retained(),
            final(self).started() == old(self).started(),
    {
        self.fail_countdown = if n != 0 { Some(n) } else { None };
    }

    /// Starts an allocation request: records that allocation has begun
    /// and counts down an armed failure. `false` when the injected failure
    /// fires now (it fires once); the request must then fail.
    pub fn begin_alloc(&mut self) -> (r: bool)
        requires
            old(self).wf(),
        ensures
            final(self).wf(),
            final(self).started(),
            r == !(old(self).countdown() == Some(1u64)),
            final(self).countdown() == match old(self).countdown() {
                Some(k) => if k == 1 { None } else { Some((k - 1) as u64) },
                None => None,
            },
            final(self).live() == old(self).live(),
            final(self).queue() == old(self).queue(),
            final(self).diagnostics() == old(self).diagnostics(),
            final(self).min_payload() == old(self).min_payload(),
            final(self).max_retained() == old(self).max_retained(),
    {
        self.started = true;
        match self.fail_countdown {
            Some(k) => {
                if k == 1 {
                    self.fail_countdown = None;
                    false
                } else {
                    self.fail_countdown = Some(k - 1);
                    true
                }
            },
            None => true,
        }
    }

    /// Decides an allocation request as a whole: an armed injected failure
    /// that fires now fails it; otherwise the ship tier (`ship`) serves a
    /// payload that fits a size class from that class, and every other
    /// request needs a system block of `block_size(size)` bytes, refused
    /// when no such layout exists.
    pub fn plan_alloc(&mut self, size: usize, ship: bool) -> (r: AllocPlan)
        requires
            old(self).wf(),
        ensures
            final(self).wf(),
            final(self).started(),
            final(self).countdown() == match old(self).countdown() {
                Some(k) => if k == 1 { None } else { Some((k - 1) as u64) },
                None => None,
            },
            final(self).live() == old(self).live(),
            final(self).queue() == old(self).queue(),
            final(self).diagnostics() == old(self).diagnostics(),
            final(self).min_payload() == old(self).min_payload(),
            final(self).max_retained() == old(self).max_retained(),
            old(self).countdown() == Some(1u64) ==> r == AllocPlan::InjectedFailure,
            old(self).countdown() != Some(1u64) && ship && block_need(size) <= LARGEST_BLOCK ==> (r
                matches AllocPlan::Classed(c) && c < NUM_CLASSES && is_size_class(
                block_need(size),
                c as nat,
            )),
            old(self).countdown() != Some(1u64) && !(ship && block_need(size) <= LARGEST_BLOCK) ==> r
                == if layout_ok(block_size(size)) {
                if ship {
                    AllocPlan::Large(block_size(size) as usize)
                } else {
                    AllocPlan::Exact(block_size(size) as usize)
                }
            } else {
                AllocPlan::Unrepresentable
            },
    {
        if !self.begin_alloc() {
            return AllocPlan::InjectedFailure;
        }
        if ship {
            if let Some(c) = block_class(size) {
                return AllocPlan::Classed(c);
            }
        }
        match Self::layout_size(size) {
            None => AllocPlan::Unrepresentable,
            Some(total) => if ship {
                AllocPlan::Large(total)
            } else {
                AllocPlan::Exact(total)
            },
        }
    }

    /// The system block size for a `size`-byte payload, or `None` when no
    /// 16-aligned layout of that size exists.
    pub fn layout_size(size: usize) -> (r: Option<usize>)
        ensures
            r matches Some(t) ==> t == block_size(size) && layout_ok(t as int),
            r is None <==> !layout_ok(block_size(size)),
    {
        let payload = if size == 0 { 1 } else { size };
        let total = HEADER_SIZE.saturating_add(payload);
        if total <= (isize::MAX as usize) - 15 {
            Some(total)
        } else {
            None
        }
    }

    /// Records a fresh live allocation at `payload`, whose zeroed block
    /// the caller obtained from the system and headed.
    pub fn register(&mut self, payload: usize, size: usize, class_id: u32, pos_id: u32)
        requires
            old(self).wf(),
            old(self).started(),
            !old(self).live().contains_key(payload),
            !old(self).dead().contains(payload),
        ensures
            final(self).wf(),
            final(self).live() == old(self).live().insert(
                payload,
                LiveRecord {
                    payload_size: size,
                    layout_size: block_size(size) as usize,
                    class_id,
                    pos_id,
                },
            ),
            final(self).queue() == old(self).queue(),
            final(self).dead() == old(self).dead(),
            final(self).diagnostics() == old(self).diagnostics(),
            final(self).min_payload() == old(self).min_payload(),
            final(self).max_retained() == old(self).max_retained(),
            final(self).started() == old(self).started(),
            final(self).countdown() == old(self).countdown(),
    {
        let payload_bytes = if size == 0 { 1 } else { size };
        let layout_size = HEADER_SIZE.saturating_add(payload_bytes);
        self.live.insert(payload, LiveRecord { payload_size: size, layout_size, class_id, pos_id });
    }

    /// Whether `payload` is a live allocation.
    pub fn is_live(&self, payload: usize) -> (r: bool)
        ensures
            r == self.live().contains_key(payload),
    {
        self.live.contains_key(&payload)
    }

    /// Whether `payload` is a freed allocation still retained (and
    /// poisoned) by diagnostics.
    pub fn is_retained(&self, payload: usize) -> (r: bool)
        ensures
            r == self.dead().contains(payload),
    {
        self.dead.contains(&payload)
    }

    /// The record of the live allocation at `payload`.
    pub fn record(&self, payload: usize) -> (r: Option<LiveRecord>)
        ensures
            r == if self.live().contains_key(payload) {
                Some(self.live()[payload])
            } else {
                None::<LiveRecord>
            },
    {
        match self.live.get(&payload) {
            Some(rec) => Some(*rec),
            None => None,
        }
    }

    /// Whether a runtime operation may use `payload`: always without
    /// diagnostics (use after delete is then undefined), else only when
    /// it is live.
    pub fn accepts_handle(&self, payload: usize) -> (r: bool)
        ensures
            r == (!self.diagnostics() || self.live().contains_key(payload)),
    {
        !self.diagnostics || self.live.contains_key(&payload)
    }

    /// Number of live allocations.
    pub fn live_count(&self) -> (r: usize)
        ensures
            r == self.live().dom().len(),
    {
        self.live.len()
    }

    /// Layout bytes of the retained freed blocks.
    pub fn retained_bytes(&self) -> (r: usize)
        requires
            self.wf(),
        ensures
            r == queue_bytes(self.queue()),
    {
        self.retained_bytes
    }

    /// Payload addresses of the retained freed blocks, oldest first.
    pub fn retained_payloads(&self) -> (r: Vec<usize>)
        ensures
            r@ == queue_payloads(self.queue()),
    {
        let mut r: Vec<usize> = Vec::new();
        let mut i: usize = 0;
        while i < self.retained.len()
            invariant
                i <= self.retained@.len(),
                r@ == queue_payloads(self.retained@.take(i as int)),
            decreases self.retained@.len() - i,
        {
            r.push(self.retained[i].0);
            i = i + 1;
            proof {
                assert(queue_payloads(self.retained@.take(i as int)) =~= queue_payloads(
                    self.retained@.take(i - 1),
                ).push(self.retained@[i - 1].0));
            }
        }
        proof {
            assert(self.retained@.take(i as int) =~= self.retained@);
        }
        r
    }
}

/// Dropping the oldest record drops its payload from the payload set.
proof fn lemma_payloads_drop_first(q: Seq<(usize, usize)>)
    requires
        q.len() > 0,
        queue_payloads(q).no_duplicates(),
    ensures
        queue_payloads(q.drop_first()).to_set() == queue_payloads(q).to_set().remove(q[0].0),
        queue_payloads(q.drop_first()).no_duplicates(),
{
    let ps = queue_payloads(q);
    let rest = queue_payloads(q.drop_first());
    assert(rest =~= ps.drop_first());
    assert forall|x: usize| rest.to_set().contains(x) <==> ps.to_set().remove(q[0].0).contains(x) by {
        if rest.to_set().contains(x) {
            let j = choose|j: int| 0 <= j < rest.len() && rest[j] == x;
            assert(ps[j + 1] == x);
            assert(ps[0] == q[0].0);
        }
        if ps.to_set().remove(q[0].0).contains(x) {
            let j = choose|j: int| 0 <= j < ps.len() && ps[j] == x;
            assert(j != 0);
            assert(rest[j - 1] == x);
        }
    }
    assert(rest.to_set() =~= ps.to_set().remove(q[0].0));
}

/// Appending a record not yet present adds its payload to the set.
proof fn lemma_payloads_push(q: Seq<(usize, usize)>, e: (usize, usize))
    requires
        queue_payloads(q).no_duplicates(),
        !queue_payloads(q).to_set().contains(e.0),
    ensures
        queue_payloads(q.push(e)).to_set() == queue_payloads(q).to_set().insert(e.0),
        queue_payloads(q.push(e)).no_duplicates(),
{
    let ps = queue_payloads(q);
    assert(queue_payloads(q.push(e)) =~= ps.push(e.0));
    assert forall|i: int| 0 <= i < ps.len() implies ps[i] != e.0 by {
        assert(ps.to_set().contains(ps[i]));
    }
    assert forall|x: usize| ps.push(e.0).to_set().contains(x) <==> ps.to_set().insert(e.0).contains(
        x,
    ) by {
        if ps.push(e.0).to_set().contains(x) {
            let j = choose|j: int| 0 <= j < ps.push(e.0).len() && ps.push(e.0)[j] == x;
            if j < ps.len() {
                assert(ps[j] == x);
            }
        }
        if ps.to_set().contains(x) {
            let j = choose|j: int| 0 <= j < ps.len() && ps[j] == x;
            assert(ps.push(e.0)[j] == x);
        }
        if x == e.0 {
            assert(ps.push(e.0)[ps.len() as int] == x);
        }
    }
    assert(ps.push(e.0).to_set() =~= ps.to_set().insert(e.0));
}

impl ExactHeap {
    /// Retains the freed block `(p, layout)` within the budget, releasing
    /// the oldest retained blocks as needed; an over-budget block is
    /// released itself.
    fn retain_block(&mut self, p: usize, layout: usize) -> (r: (bool, Vec<(usize, usize)>))
        requires
            old(self).wf(),
            old(self).diagnostics(),
            old(self).started(),
            !old(self).dead().contains(p),
            !old(self).live().contains_key(p),
        ensures
            final(self).wf(),
            final(self).queue() == retire(old(self).queue(), old(self).max_retained(), p, layout).0,
            r.0 == retire(old(self).queue(), old(self).max_retained(), p, layout).1,
            r.1@ == retire(old(self).queue(), old(self).max_retained(), p, layout).2,
            final(self).live() == old(self).live(),
            final(self).diagnostics() == old(self).diagnostics(),
            final(self).min_payload() == old(self).min_payload(),
            final(self).max_retained() == old(self).max_retained(),
            final(self).started() == old(self).started(),
            final(self).countdown() == old(self).countdown(),
    {
        let mut release: Vec<(usize, usize)> = Vec::new();
        if layout > self.max_retained_bytes {
            release.push((p, layout));
            return (false, release);
        }
        let room = self.max_retained_bytes - layout;
        let ghost q0 = self.retained@;
        let ghost k = evictions(q0, room as nat);
        proof {
            lemma_evictions_fit(q0, room as nat);
            assert(q0.skip(0) =~= q0);
        }
        let ghost mut j: int = 0;
        while self.retained_bytes > room
            invariant
                self.wf(),
                self.diagnostics,
                room == self.max_retained_bytes - layout,
                layout <= self.max_retained_bytes,
                self.max_retained_bytes == old(self).max_retained_bytes,
                self.live@ == old(self).live@,
                self.diagnostics == old(self).diagnostics,
                self.min_payload_bytes == old(self).min_payload_bytes,
                self.started == old(self).started,
                self.started,
                self.fail_countdown == old(self).fail_countdown,
                !self.live@.contains_key(p),
                !old(self).dead@.contains(p),
                q0 == old(self).retained@,
                k == evictions(q0, room as nat),
                0 <= j <= k <= q0.len(),
                self.retained@ == q0.skip(j),
                release@ == q0.take(j),
                k == j + evictions(self.retained@, room as nat),
            decreases self.retained@.len(),
        {
            let ghost before = self.retained@;
            proof {
                assert(before.len() > 0) by {
                    if before.len() == 0 {
                        assert(queue_bytes(before) == 0);
                    }
                }
                assert(evictions(before, room as nat) == 1 + evictions(
                    before.drop_first(),
                    room as nat,
                ));
                lemma_payloads_drop_first(before);
                assert(j < k);
                assert(before[0] == q0.skip(j)[0]);
                assert(q0.skip(j)[0] == q0[j]);
            }
            let oldest = self.retained.pop_front();
            let (q, ql) = oldest.unwrap();
            self.dead.remove(&q);
            proof {
                assert(before.subrange(1, before.len() as int) =~= before.drop_first());
                assert(before[0] == q0[j]);
                assert(q0.skip(j + 1) =~= before.drop_first());
                assert(q0.take(j + 1) =~= q0.take(j).push((q, ql)));
            }
            self.retained_bytes = self.retained_bytes - ql;
            release.push((q, ql));
            proof {
                j = j + 1;
            }
        }
        proof {
            assert(self.dead@ == queue_payloads(self.retained@).to_set());
            assert(!self.dead@.contains(p)) by {
                if self.dead@.contains(p) {
                    let jj = choose|jj: int|
                        0 <= jj < queue_payloads(self.retained@).len() && queue_payloads(
                            self.retained@,
                        )[jj] == p;
                    assert(queue_payloads(q0)[jj + j] == p);
                    assert(old(self).dead@.contains(p));
                }
            }
            lemma_payloads_push(self.retained@, (p, layout));
            lemma_queue_bytes_push(self.retained@, (p, layout));
        }
        self.dead.insert(p);
        self.retained_bytes = self.retained_bytes + layout;
        self.retained.push_back((p, layout));
        (true, release)
    }
}

/// Disposing of the freed block of `rec` at `p`: diagnostics retain a
/// payload of at least `min` bytes within budget `max`; any other block is
/// released at once. Yields the new queue, whether `p` was retained, and
/// the blocks to release in order.
pub open spec fn dispose(
    diagnostics: bool,
    min: usize,
    max: usize,
    q: Seq<(usize, usize)>,
    p: usize,
    rec: LiveRecord,
) -> (Seq<(usize, usize)>, bool, Seq<(usize, usize)>) {
    if diagnostics && rec.payload_size >= min {
        retire(q, max, p, rec.layout_size)
    } else {
        (q, false, seq![(p, rec.layout_size)])
    }
}

impl ExactHeap {
    /// Disposes of the freed block of `rec` at `p`, already removed from
    /// the live records.
    fn dispose_block(&mut self, p: usize, rec: LiveRecord) -> (r: (bool, Vec<(usize, usize)>))
        requires
            old(self).wf(),
            old(self).started(),
            !old(self).dead().contains(p),
            !old(self).live().contains_key(p),
        ensures
            final(self).wf(),
            ({
                let d = dispose(
                    old(self).diagnostics(),
                    old(self).min_payload(),
                    old(self).max_retained(),
                    old(self).queue(),
                    p,
                    rec,
                );
                &&& final(self).queue() == d.0
                &&& r.0 == d.1
                &&& r.1@ == d.2
            }),
            final(self).live() == old(self).live(),
            final(self).diagnostics() == old(self).diagnostics(),
            final(self).min_payload() == old(self).min_payload(),
            final(self).max_retained() == old(self).max_retained(),
            final(self).started() == old(self).started(),
            final(self).countdown() == old(self).countdown(),
    {
        if self.diagnostics && rec.payload_size >= self.min_payload_bytes {
            self.retain_block(p, rec.layout_size)
        } else {
            let mut release: Vec<(usize, usize)> = Vec::new();
            release.push((p, rec.layout_size));
            proof {
                assert(release@ =~= seq![(p, rec.layout_size)]);
            }
            (false, release)
        }
    }

    /// `Context.free` of `payload`. A live allocation's record is removed
    /// and its block disposed of per the diagnostics policy. Otherwise
    /// nothing changes; with diagnostics on, a retained freed address is a
    /// double delete and any other address an invalid delete.
    pub fn delete(&mut self, payload: usize) -> (r: DeleteOutcome)
        requires
            old(self).wf(),
        ensures
            final(self).wf(),
            final(self).diagnostics() == old(self).diagnostics(),
            final(self).min_payload() == old(self).min_payload(),
            final(self).max_retained() == old(self).max_retained(),
            final(self).started() == old(self).started(),
            final(self).countdown() == old(self).countdown(),
            !old(self).live().contains_key(payload) ==> {
                &&& final(self).live() == old(self).live()
                &&& final(self).queue() == old(self).queue()
                &&& r == if !old(self).diagnostics() {
                    DeleteOutcome::NotLive
                } else if old(self).dead().contains(payload) {
                    DeleteOutcome::DoubleDelete
                } else {
                    DeleteOutcome::InvalidDelete
                }
            },
            old(self).live().contains_key(payload) ==> {
                let rec = old(self).live()[payload];
                let d = dispose(
                    old(self).diagnostics(),
                    old(self).min_payload(),
                    old(self).max_retained(),
                    old(self).queue(),
                    payload,
                    rec,
                );
                &&& final(self).live() == old(self).live().remove(payload)
                &&& final(self).queue() == d.0
                &&& r matches DeleteOutcome::Removed { class_id, retained, release } && class_id
                    == rec.class_id && retained == d.1 && release@ == d.2
            },
    {
        match self.live.remove(&payload) {
            None => {
                if !self.diagnostics {
                    DeleteOutcome::NotLive
                } else if self.dead.contains(&payload) {
                    DeleteOutcome::DoubleDelete
                } else {
                    DeleteOutcome::InvalidDelete
                }
            },
            Some(rec) => {
                proof {
                    assert(self.live@ =~= old(self).live@.remove(payload));
                    assert(!self.dead@.contains(payload));
                    assert(old(self).live@.contains_key(payload));
                }
                let (retained, release) = self.dispose_block(payload, rec);
                DeleteOutcome::Removed { class_id: rec.class_id, retained, release }
            },
        }
    }
}

/// `b` is among the payload words of `a`.
pub open spec fn points_to(contents: Map<usize, Seq<usize>>, a: usize, b: usize) -> bool {
    contents.contains_key(a) && contents[a].contains(b)
}

/// `path` starts at a root word and runs through live allocations, each
/// holding the next one's address among its payload words.
pub open spec fn is_path(
    live: Set<usize>,
    contents: Map<usize, Seq<usize>>,
    roots: Seq<usize>,
    path: Seq<usize>,
) -> bool {
    &&& path.len() > 0
    &&& roots.contains(path[0])
    &&& forall|i: int| 0 <= i < path.len() ==> live.contains(#[trigger] path[i])
    &&& forall|i: int, j: int|
        #![trigger path[i], path[j]]
        0 <= i && j == i + 1 && j < path.len() ==> points_to(contents, path[i], path[j])
}

/// The live allocation `a` is reachable from the root words.
pub open spec fn reachable(
    live: Set<usize>,
    contents: Map<usize, Seq<usize>>,
    roots: Seq<usize>,
    a: usize,
) -> bool {
    exists|path: Seq<usize>| #[trigger] is_path(live, contents, roots, path) && path.last() == a
}

/// A set of live addresses that holds every live root and every live
/// word of its members holds every reachable allocation.
proof fn lemma_closed_holds_reachable(
    live: Set<usize>,
    contents: Map<usize, Seq<usize>>,
    roots: Seq<usize>,
    marked: Set<usize>,
    path: Seq<usize>,
)
    requires
        forall|r: usize| roots.contains(r) && live.contains(r) ==> #[trigger] marked.contains(r),
        forall|m: usize, w: usize|
            #![trigger marked.contains(m), points_to(contents, m, w)]
            marked.contains(m) && points_to(contents, m, w) && live.contains(w) ==> marked.contains(
                w,
            ),
        is_path(live, contents, roots, path),
    ensures
        marked.contains(path.last()),
    decreases path.len(),
{
    if path.len() == 1 {
        assert(live.contains(path[0]));
    } else {
        let prefix = path.drop_last();
        assert(is_path(live, contents, roots, prefix)) by {
            assert forall|i: int, j: int|
                #![trigger prefix[i], prefix[j]]
                0 <= i && j == i + 1 && j < prefix.len() implies points_to(
                contents,
                prefix[i],
                prefix[j],
            ) by {
                assert(path[i] == prefix[i] && path[j] == prefix[j]);
            }
            assert(prefix[0] == path[0]);
            assert forall|i: int| 0 <= i < prefix.len() implies live.contains(#[trigger] prefix[i]) by {
                assert(path[i] == prefix[i]);
            }
        }
        lemma_closed_holds_reachable(live, contents, roots, marked, prefix);
        let n = path.len() as int;
        assert(path[n - 2] == prefix.last());
        assert(points_to(contents, path[n - 2], path[n - 1]));
        assert(live.contains(path[n - 1]));
    }
}

/// Extending a path to a live word of its last allocation.
proof fn lemma_path_extends(
    live: Set<usize>,
    contents: Map<usize, Seq<usize>>,
    roots: Seq<usize>,
    path: Seq<usize>,
    w: usize,
)
    requires
        is_path(live, contents, roots, path),
        points_to(contents, path.last(), w),
        live.contains(w),
    ensures
        is_path(live, contents, roots, path.push(w)),
        path.push(w).last() == w,
{
    let ext = path.push(w);
    assert forall|i: int| 0 <= i < ext.len() implies live.contains(#[trigger] ext[i]) by {
        if i < path.len() {
            assert(ext[i] == path[i]);
        }
    }
    assert forall|i: int, j: int|
        #![trigger ext[i], ext[j]]
        0 <= i && j == i + 1 && j < ext.len() implies points_to(contents, ext[i], ext[j]) by {
        if j < path.len() {
            assert(ext[i] == path[i] && ext[j] == path[j]);
        } else {
            assert(ext[i] == path.last());
        }
    }
    assert(ext[0] == path[0]);
}

/// The payload words of each allocation, as plain sequences.
pub open spec fn words_view(contents: Map<usize, Vec<usize>>) -> Map<usize, Seq<usize>> {
    contents.map_values(|v: Vec<usize>| v@)
}

/// The mark phase: the live allocations reachable from the root words
/// through payload words, found with a work list.
pub(crate) fn mark_reachable(
    live_set: &HashSet<usize>,
    roots: &Vec<usize>,
    contents: &HashMap<usize, Vec<usize>>,
) -> (marked: HashSet<usize>)
        requires
            live_set@.finite(),
            forall|a: usize| #[trigger] live_set@.contains(a) ==> contents@.contains_key(a),
        ensures
            forall|a: usize| #[trigger]
                marked@.contains(a) <==> live_set@.contains(a) && reachable(
                    live_set@,
                    words_view(contents@),
                    roots@,
                    a,
                ),
    {
        let ghost live = live_set@;
        let ghost cv = words_view(contents@);
        let mut marked: HashSet<usize> = HashSet::new();
        let mut work: Vec<usize> = Vec::new();
        let mut r: usize = 0;
        while r < roots.len()
            invariant
                r <= roots@.len(),
                work@ == roots@.take(r as int),
            decreases roots@.len() - r,
        {
            work.push(roots[r]);
            r = r + 1;
            proof {
                assert(work@ =~= roots@.take(r as int));
            }
        }
        proof {
            assert(work@ =~= roots@);
            assert forall|i: int| 0 <= i < work@.len() && live.contains(#[trigger] work@[i]) implies reachable(
                live,
                cv,
                roots@,
                work@[i],
            ) by {
                let path = seq![work@[i]];
                assert(roots@.contains(work@[i]));
                assert(is_path(live, cv, roots@, path));
            }
        }
        while work.len() > 0
            invariant
                live == live_set@,
                live.finite(),
                cv == words_view(contents@),
                forall|a: usize| #[trigger] live_set@.contains(a) ==> contents@.contains_key(a),
                marked@.subset_of(live),
                forall|m: usize| #[trigger]
                    marked@.contains(m) ==> reachable(live, cv, roots@, m),
                forall|i: int|
                    0 <= i < work@.len() && live.contains(#[trigger] work@[i]) ==> reachable(
                        live,
                        cv,
                        roots@,
                        work@[i],
                    ),
                forall|x: usize|
                    roots@.contains(x) && live.contains(x) ==> #[trigger] marked@.contains(x)
                        || work@.contains(x),
                forall|m: usize, w: usize|
                    #![trigger marked@.contains(m), points_to(cv, m, w)]
                    marked@.contains(m) && points_to(cv, m, w) && live.contains(w) ==> marked@.contains(
                        w,
                    ) || work@.contains(w),
            decreases live.len() - marked@.len(), work@.len(),
        {
            let ghost before = work@;
            let a = work.pop().unwrap();
            proof {
                assert(before.last() == a);
                assert(work@ =~= before.drop_last());
                vstd::set_lib::lemma_len_subset(marked@, live);
                assert forall|x: usize| before.contains(x) && x != a implies work@.contains(x) by {
                    let t = choose|t: int| 0 <= t < before.len() && before[t] == x;
                    assert(t < before.len() - 1);
                    assert(work@[t] == x);
                }
            }
            if live_set.contains(&a) && !marked.contains(&a) {
                let ghost path_a = choose|path: Seq<usize>|
                    #[trigger] is_path(live, cv, roots@, path) && path.last() == a;
                proof {
                    assert(live.contains(before[before.len() - 1]));
                    assert(reachable(live, cv, roots@, a));
                    assert(is_path(live, cv, roots@, path_a) && path_a.last() == a);
                }
                let ghost marked_before = marked@;
                marked.insert(a);
                proof {
                    assert(live_set@.contains(a));
                    assert(contents@.contains_key(a));
                }
                let words = contents.get(&a).unwrap();
                proof {
                    assert(cv.contains_key(a));
                    assert(cv[a] == words@);
                    assert(marked@.subset_of(live));
                    assert(marked_before.len() < marked@.len()) by {
                        vstd::set_lib::lemma_len_subset(marked_before, live);
                    }
                }
                let mut k: usize = 0;
                while k < words.len()
                    invariant
                        live == live_set@,
                        live.finite(),
                        cv == words_view(contents@),
                        cv.contains_key(a),
                        cv[a] == words@,
                        marked@ == marked_before.insert(a),
                        marked@.subset_of(live),
                        marked_before.len() < marked@.len(),
                        is_path(live, cv, roots@, path_a) && path_a.last() == a,
                        k <= words@.len(),
                        forall|m: usize| #[trigger]
                            marked@.contains(m) ==> reachable(live, cv, roots@, m),
                        forall|i: int|
                            0 <= i < work@.len() && live.contains(#[trigger] work@[i]) ==> reachable(
                                live,
                                cv,
                                roots@,
                                work@[i],
                            ),
                        forall|x: usize|
                            roots@.contains(x) && live.contains(x) && x != a ==> #[trigger] marked@.contains(
                                x,
                            ) || work@.contains(x),
                        forall|m: usize, w: usize|
                            #![trigger marked@.contains(m), points_to(cv, m, w)]
                            marked@.contains(m) && m != a && points_to(cv, m, w) && live.contains(w)
                                && w != a ==> marked@.contains(w) || work@.contains(w),
                        forall|q: int|
                            0 <= q < k && live.contains(#[trigger] words@[q]) ==> marked@.contains(
                                words@[q],
                            ) || work@.contains(words@[q]),
                    decreases words@.len() - k,
                {
                    let w = words[k];
                    let ghost work_before = work@;
                    work.push(w);
                    proof {
                        assert(work@ =~= work_before.push(w));
                        assert(work@[work@.len() - 1] == w);
                        assert forall|x: usize| work_before.contains(x) implies work@.contains(x) by {
                            let t = choose|t: int| 0 <= t < work_before.len() && work_before[t] == x;
                            assert(work@[t] == x);
                        }
                        if live.contains(w) {
                            assert(words@.contains(w)) by {
                                assert(words@[k as int] == w);
                            }
                            assert(points_to(cv, path_a.last(), w));
                            lemma_path_extends(live, cv, roots@, path_a, w);
                            assert(reachable(live, cv, roots@, w));
                        }
                        assert forall|i: int|
                            0 <= i < work@.len() && live.contains(#[trigger] work@[i]) implies reachable(
                            live,
                            cv,
                            roots@,
                            work@[i],
                        ) by {
                            if i < work_before.len() {
                                assert(work@[i] == work_before[i]);
                            }
                        }
                    }
                    k = k + 1;
                }
                proof {
                    assert forall|m: usize, w: usize|
                        #![trigger marked@.contains(m), points_to(cv, m, w)]
                        marked@.contains(m) && points_to(cv, m, w) && live.contains(
                            w,
                        ) implies marked@.contains(w) || work@.contains(w) by {
                        if w == a {
                        } else if m == a {
                            let q = choose|q: int| 0 <= q < words@.len() && words@[q] == w;
                            assert(live.contains(words@[q]));
                        }
                    }
                }
            }
            proof {
                vstd::set_lib::lemma_len_subset(marked@, live);
            }
        }
        proof {
            assert forall|a: usize|
                live_set@.contains(a) && reachable(
                    live,
                    cv,
                    roots@,
                    a,
                ) implies #[trigger] marked@.contains(a) by {
                {
                    let path = choose|path: Seq<usize>|
                        #[trigger] is_path(live, cv, roots@, path) && path.last() == a;
                    lemma_closed_holds_reachable(live, cv, roots@, marked@, path);
                }
            }
        }
        marked
    }

/// The queue and the blocks to release after disposing of the records of
/// `swept` in order, starting from queue `q`.
pub open spec fn sweep_all(
    diagnostics: bool,
    min: usize,
    max: usize,
    q: Seq<(usize, usize)>,
    live: Map<usize, LiveRecord>,
    swept: Seq<usize>,
) -> (Seq<(usize, usize)>, Seq<(usize, usize)>)
    decreases swept.len(),
{
    if swept.len() == 0 {
        (q, Seq::empty())
    } else {
        let prev = sweep_all(diagnostics, min, max, q, live, swept.drop_last());
        let d = dispose(diagnostics, min, max, prev.0, swept.last(), live[swept.last()]);
        (d.0, prev.1 + d.2)
    }
}

/// What a collection removed.
#[derive(Debug)]
pub struct CollectOutcome {
    /// Payload addresses of the unreachable allocations, in the order they
    /// were disposed of; those not released below stay retained and must
    /// be poisoned.
    pub swept: Vec<usize>,
    /// `(payload, layout)` blocks to give back to the system, in order.
    pub release: Vec<(usize, usize)>,
}

/// The addresses of the live records, each once.
pub(crate) fn live_keys<V>(m: &HashMap<usize, V>) -> (r: Vec<usize>)
    ensures
        r@.to_set() == m@.dom(),
        r@.no_duplicates(),
{
    let mut r: Vec<usize> = Vec::new();
    for k in it: m.keys()
        invariant
            r@ == it.seq().take(it.index() as int).map_values(|x: &usize| *x),
    {
        r.push(*k);
    }
    proof {
        assert(r@ =~= spec_keys_iter(m).remaining().unref());
    }
    r
}

/// The addresses of `keys` as a set.
pub(crate) fn key_set(keys: &Vec<usize>) -> (r: HashSet<usize>)
    ensures
        r@ == keys@.to_set(),
        r@.finite(),
{
    let mut r: HashSet<usize> = HashSet::new();
    let mut i: usize = 0;
    while i < keys.len()
        invariant
            i <= keys@.len(),
            r@ == keys@.take(i as int).to_set(),
        decreases keys@.len() - i,
    {
        proof {
            assert(keys@.take(i + 1) =~= keys@.take(i as int).push(keys@[i as int]));
            keys@.take(i as int).lemma_push_to_set_commute(keys@[i as int]);
        }
        r.insert(keys[i]);
        i = i + 1;
    }
    proof {
        assert(keys@.take(i as int) =~= keys@);
        vstd::seq_lib::seq_to_set_is_finite(keys@);
    }
    r
}

/// Appending an element not yet present keeps a sequence free of
/// duplicates.
pub(crate) proof fn lemma_push_distinct(s: Seq<usize>, x: usize)
    requires
        s.no_duplicates(),
        !s.contains(x),
    ensures
        s.push(x).no_duplicates(),
        forall|q: usize| #[trigger] s.push(x).contains(q) <==> s.contains(q) || q == x,
{
    assert forall|q: usize| #[trigger] s.push(x).contains(q) <==> s.contains(q) || q == x by {
        if s.contains(q) {
            let i = choose|i: int| 0 <= i < s.len() && s[i] == q;
            assert(s.push(x)[i] == q);
        }
        if q == x {
            assert(s.push(x)[s.len() as int] == x);
        }
        if s.push(x).contains(q) && q != x {
            let i = choose|i: int| 0 <= i < s.push(x).len() && s.push(x)[i] == q;
            assert(s[i] == q);
        }
    }
    assert forall|i: int, j: int| 0 <= i < j < s.push(x).len() implies s.push(x)[i] != s.push(
        x,
    )[j] by {
        if j == s.len() {
            assert(s.push(x)[i] == s[i]);
        } else {
            assert(s.push(x)[i] == s[i] && s.push(x)[j] == s[j]);
        }
    }
}

impl ExactHeap {
    /// Explicit collection: every live allocation not reachable from the
    /// root words, through the payload words `contents` holds for each
    /// live allocation, is removed and disposed of as `delete` would
    /// dispose of it. Never runs unbidden.
    pub fn collect(&mut self, roots: &Vec<usize>, contents: &HashMap<usize, Vec<usize>>) -> (r:
        CollectOutcome)
        requires
            old(self).wf(),
            forall|a: usize| #[trigger]
                old(self).live().contains_key(a) ==> contents@.contains_key(a),
        ensures
            final(self).wf(),
            forall|a: usize| #[trigger]
                final(self).live().contains_key(a) <==> old(self).live().contains_key(a)
                    && reachable(old(self).live().dom(), words_view(contents@), roots@, a),
            forall|a: usize| #[trigger]
                final(self).live().contains_key(a) ==> final(self).live()[a] == old(
                    self,
                ).live()[a],
            r.swept@.no_duplicates(),
            forall|a: usize| #[trigger]
                r.swept@.contains(a) <==> old(self).live().contains_key(a) && !reachable(
                    old(self).live().dom(),
                    words_view(contents@),
                    roots@,
                    a,
                ),
            final(self).queue() == sweep_all(
                old(self).diagnostics(),
                old(self).min_payload(),
                old(self).max_retained(),
                old(self).queue(),
                old(self).live(),
                r.swept@,
            ).0,
            r.release@ == sweep_all(
                old(self).diagnostics(),
                old(self).min_payload(),
                old(self).max_retained(),
                old(self).queue(),
                old(self).live(),
                r.swept@,
            ).1,
            final(self).diagnostics() == old(self).diagnostics(),
            final(self).min_payload() == old(self).min_payload(),
            final(self).max_retained() == old(self).max_retained(),
            final(self).started() == old(self).started(),
            final(self).countdown() == old(self).countdown(),
    {
        let keys = live_keys(&self.live);
        let live_set = key_set(&keys);
        proof {
            assert(live_set@ == self.live@.dom());
            assert forall|a: usize| #[trigger] live_set@.contains(a) implies contents@.contains_key(a) by {
                assert(self.live().contains_key(a));
            }
        }
        let marked = mark_reachable(&live_set, roots, contents);
        let ghost old_live = self.live@;
        let ghost q0 = self.retained@;
        let mut swept: Vec<usize> = Vec::new();
        let mut release: Vec<(usize, usize)> = Vec::new();
        let mut i: usize = 0;
        while i < keys.len()
            invariant
                self.wf(),
                old_live == old(self).live@,
                q0 == old(self).retained@,
                self.diagnostics == old(self).diagnostics,
                self.min_payload_bytes == old(self).min_payload_bytes,
                self.max_retained_bytes == old(self).max_retained_bytes,
                self.started == old(self).started,
                self.fail_countdown == old(self).fail_countdown,
                keys@.to_set() == old_live.dom(),
                keys@.no_duplicates(),
                i <= keys@.len(),
                swept@.no_duplicates(),
                forall|a: usize| #[trigger]
                    swept@.contains(a) <==> keys@.take(i as int).contains(a) && !marked@.contains(
                        a,
                    ),
                forall|a: usize| #[trigger]
                    self.live@.contains_key(a) <==> old_live.contains_key(a) && !swept@.contains(a),
                forall|a: usize| #[trigger]
                    self.live@.contains_key(a) ==> self.live@[a] == old_live[a],
                self.retained@ == sweep_all(
                    self.diagnostics,
                    self.min_payload_bytes,
                    self.max_retained_bytes,
                    q0,
                    old_live,
                    swept@,
                ).0,
                release@ == sweep_all(
                    self.diagnostics,
                    self.min_payload_bytes,
                    self.max_retained_bytes,
                    q0,
                    old_live,
                    swept@,
                ).1,
            decreases keys@.len() - i,
        {
            let a = keys[i];
            let ghost swept_before = swept@;
            let ghost release_before = release@;
            proof {
                assert(keys@.to_set().contains(a));
                assert(!keys@.take(i as int).contains(a)) by {
                    if keys@.take(i as int).contains(a) {
                        let t = choose|t: int| 0 <= t < i && keys@.take(i as int)[t] == a;
                        assert(keys@[t] == keys@[i as int]);
                    }
                }
                let pre = keys@.take(i as int);
                assert(keys@.take(i + 1) =~= pre.push(a));
                assert forall|x: usize| #[trigger]
                    pre.push(a).contains(x) <==> pre.contains(x) || x == a by {
                    if pre.push(a).contains(x) && x != a {
                        let t = choose|t: int| 0 <= t < pre.push(a).len() && pre.push(a)[t] == x;
                        assert(pre[t] == x);
                    }
                    if pre.contains(x) {
                        let t = choose|t: int| 0 <= t < pre.len() && pre[t] == x;
                        assert(pre.push(a)[t] == x);
                    }
                    if x == a {
                        assert(pre.push(a)[pre.len() as int] == a);
                    }
                }
            }
            if !marked.contains(&a) {
                proof {
                    assert(!swept@.contains(a));
                    assert(self.live@.contains_key(a));
                }
                let rec = self.live.remove(&a).unwrap();
                proof {
                    assert(rec == old_live[a]);
                    assert(old(self).live@.contains_key(a));
                }
                let (_, mut rel) = self.dispose_block(a, rec);
                swept.push(a);
                release.append(&mut rel);
                proof {
                    lemma_push_distinct(swept_before, a);
                    assert(swept@.drop_last() =~= swept_before);
                    assert(swept@.last() == a);
                    assert forall|x: usize| #[trigger]
                        swept@.contains(x) <==> swept_before.contains(x) || x == a by {
                        if swept@.contains(x) && x != a {
                            let t = choose|t: int| 0 <= t < swept@.len() && swept@[t] == x;
                            assert(swept_before[t] == x);
                        }
                        if swept_before.contains(x) {
                            let t = choose|t: int| 0 <= t < swept_before.len() && swept_before[t] == x;
                            assert(swept@[t] == x);
                        }
                        if x == a {
                            assert(swept@[swept_before.len() as int] == a);
                        }
                    }
                }
            }
            i = i + 1;
        }
        proof {
            assert(keys@.take(i as int) =~= keys@);
            assert forall|a: usize| #[trigger]
                keys@.contains(a) <==> old_live.contains_key(a) by {
                assert(keys@.to_set().contains(a) == keys@.contains(a));
            }
        }
        CollectOutcome { swept, release }
    }
}

/// Sum of the payload sizes (`layouts` false) or layout sizes (`layouts`
/// true) of the records at the addresses `ks`.
pub open spec fn record_sum(live: Map<usize, LiveRecord>, ks: Seq<usize>, layouts: bool) -> nat
    decreases ks.len(),
{
    if ks.len() == 0 {
        0
    } else {
        record_sum(live, ks.drop_last(), layouts) + if layouts {
            live[ks.last()].layout_size as nat
        } else {
            live[ks.last()].payload_size as nat
        }
    }
}

/// `total` capped at `usize::MAX`.
pub open spec fn saturated(total: nat) -> nat {
    if total > usize::MAX {
        usize::MAX as nat
    } else {
        total
    }
}

impl ExactHeap {
    /// Sum over the live records, saturating.
    fn live_sum(&self, layouts: bool) -> (r: usize)
        ensures
            exists|ks: Seq<usize>|
                ks.to_set() == self.live().dom() && ks.no_duplicates() && r == saturated(
                    #[trigger] record_sum(self.live(), ks, layouts),
                ),
    {
        let keys = live_keys(&self.live);
        let mut total: usize = 0;
        let mut i: usize = 0;
        while i < keys.len()
            invariant
                i <= keys@.len(),
                keys@.to_set() == self.live@.dom(),
                keys@.no_duplicates(),
                total == saturated(record_sum(self.live@, keys@.take(i as int), layouts)),
            decreases keys@.len() - i,
        {
            let k = keys[i];
            proof {
                assert(keys@.to_set().contains(k));
                assert(keys@.take(i + 1).drop_last() =~= keys@.take(i as int));
            }
            let rec = *self.live.get(&k).unwrap();
            let add = if layouts { rec.layout_size } else { rec.payload_size };
            total = total.saturating_add(add);
            i = i + 1;
        }
        proof {
            assert(keys@.take(i as int) =~= keys@);
            assert(total == saturated(record_sum(self.live(), keys@, layouts)));
        }
        total
    }

    /// Requested payload bytes of the live allocations, saturating.
    pub fn live_bytes(&self) -> (r: usize)
        ensures
            exists|ks: Seq<usize>|
                ks.to_set() == self.live().dom() && ks.no_duplicates() && r == saturated(
                    #[trigger] record_sum(self.live(), ks, false),
                ),
    {
        self.live_sum(false)
    }

    /// Bytes reserved from the system: the live blocks plus the retained
    /// freed blocks, saturating.
    pub fn reserved_bytes(&self) -> (r: usize)
        requires
            self.wf(),
        ensures
            exists|ks: Seq<usize>|
                ks.to_set() == self.live().dom() && ks.no_duplicates() && r == saturated(
                    saturated(#[trigger] record_sum(self.live(), ks, true)) + queue_bytes(
                        self.queue(),
                    ),
                ),
    {
        let live_layouts = self.live_sum(true);
        live_layouts.saturating_add(self.retained_bytes)
    }
}

/// Retention never exceeds the budget and evicts oldest first: a block
/// within budget joins as the newest after exactly the oldest blocks
/// that must leave for it to fit (one fewer would not do), and the queue
/// stays within budget.
pub proof fn lemma_retire_within_budget(q: Seq<(usize, usize)>, max: usize, p: usize, layout: usize)
    requires
        queue_bytes(q) <= max,
        layout <= max,
    ensures
        ({
            let (nq, kept, released) = retire(q, max, p, layout);
            let k = evictions(q, (max - layout) as nat) as int;
            &&& kept
            &&& 0 <= k <= q.len()
            &&& released == q.take(k)
            &&& nq == q.skip(k).push((p, layout))
            &&& queue_bytes(nq) <= max
            &&& k > 0 ==> queue_bytes(q.skip(k - 1)) + layout > max
        }),
{
    let room = (max - layout) as nat;
    lemma_evictions_fit(q, room);
    let k = evictions(q, room) as int;
    lemma_queue_bytes_push(q.skip(k), (p, layout));
    if k > 0 {
        lemma_evictions_last(q, room);
    }
}

/// The last block evicted was needed: without evicting it the rest did
/// not fit.
proof fn lemma_evictions_last(q: Seq<(usize, usize)>, room: nat)
    requires
        evictions(q, room) > 0,
    ensures
        queue_bytes(q.skip(evictions(q, room) - 1)) > room,
    decreases q.len(),
{
    let k = evictions(q, room);
    lemma_evictions_fit(q, room);
    assert(q.len() > 0 && queue_bytes(q) > room);
    assert(k == 1 + evictions(q.drop_first(), room));
    if k == 1 {
        assert(q.skip(0) =~= q);
    } else {
        lemma_evictions_last(q.drop_first(), room);
        assert(q.drop_first().skip(k - 2) =~= q.skip(k - 1));
    }
}

/// A retained block is in the dead set afterwards, so freeing it again is
/// a double delete.
pub proof fn lemma_retired_is_dead(q: Seq<(usize, usize)>, max: usize, p: usize, layout: usize)
    requires
        layout <= max,
    ensures
        queue_payloads(retire(q, max, p, layout).0).to_set().contains(p),
{
    let nq = retire(q, max, p, layout).0;
    assert(queue_payloads(nq)[nq.len() - 1] == p);
}

/// Every live allocation a root word names survives collection, and so
/// does every live allocation a surviving one names in its payload.
pub proof fn lemma_roots_and_their_referents_survive(
    live: Set<usize>,
    contents: Map<usize, Seq<usize>>,
    roots: Seq<usize>,
    a: usize,
    b: usize,
)
    ensures
        roots.contains(a) && live.contains(a) ==> reachable(live, contents, roots, a),
        reachable(live, contents, roots, a) && points_to(contents, a, b) && live.contains(b)
            ==> reachable(live, contents, roots, b),
{
    if roots.contains(a) && live.contains(a) {
        assert(is_path(live, contents, roots, seq![a]));
    }
    if reachable(live, contents, roots, a) && points_to(contents, a, b) && live.contains(b) {
        let path = choose|path: Seq<usize>|
            #[trigger] is_path(live, contents, roots, path) && path.last() == a;
        lemma_path_extends(live, contents, roots, path, b);
    }
}

/// Only live allocations are reachable: nothing freed comes back.
pub proof fn lemma_reachable_is_live(
    live: Set<usize>,
    contents: Map<usize, Seq<usize>>,
    roots: Seq<usize>,
    a: usize,
)
    ensures
        reachable(live, contents, roots, a) ==> live.contains(a),
{
    if reachable(live, contents, roots, a) {
        let path = choose|path: Seq<usize>|
            #[trigger] is_path(live, contents, roots, path) && path.last() == a;
        assert(live.contains(path[path.len() - 1]));
    }
}

impl ExactHeap {
    /// Every live allocation with its record, each once, in no particular
    /// order: what a visitor of the live allocations is shown.
    pub fn live_allocations(&self) -> (r: Vec<(usize, LiveRecord)>)
        ensures
            r@.len() == self.live().dom().len(),
            forall|i: int|
                0 <= i < r@.len() ==> self.live().contains_key((#[trigger] r@[i]).0) && self.live()[r@[i].0]
                    == r@[i].1,
            forall|p: usize| #[trigger]
                self.live().contains_key(p) ==> exists|i: int| 0 <= i < r@.len() && r@[i].0 == p,
            forall|i: int, j: int| 0 <= i < j < r@.len() ==> (#[trigger] r@[i]).0 != (#[trigger] r@[j]).0,
    {
        let keys = live_keys(&self.live);
        let mut out: Vec<(usize, LiveRecord)> = Vec::new();
        let mut i: usize = 0;
        while i < keys.len()
            invariant
                i <= keys@.len(),
                keys@.to_set() == self.live@.dom(),
                keys@.no_duplicates(),
                out@.len() == i,
                forall|q: int| 0 <= q < i ==> (#[trigger] out@[q]).0 == keys@[q] && self.live@[keys@[q]] == out@[q].1,
            decreases keys@.len() - i,
        {
            let k = keys[i];
            proof {
                assert(keys@.to_set().contains(k));
            }
            let rec = *self.live.get(&k).unwrap();
            out.push((k, rec));
            i = i + 1;
        }
        proof {
            keys@.unique_seq_to_set();
            assert forall|p: usize| #[trigger] self.live@.contains_key(p) implies exists|q: int|
                0 <= q < out@.len() && out@[q].0 == p by {
                assert(keys@.to_set().contains(p));
                let q = choose|q: int| 0 <= q < keys@.len() && keys@[q] == p;
                assert(out@[q].0 == p);
            }
            assert forall|q: int| 0 <= q < out@.len() implies self.live@.contains_key((#[trigger] out@[q]).0) by {
                assert(keys@.to_set().contains(keys@[q]));
            }
        }
        out
    }
}

} // verus!
