//! The Context's trap state: the first trap of a run is recorded and
//! reported once; every trap raises the flag that generated code checks;
//! clearing is legal only at a host boundary.
//!
//! Kinds are the numeric trap codes of the ABI. Calling the host's
//! observer, and the message text, are the caller's: `trap` says whether
//! to notify.
use vstd::prelude::*;

verus! {

/// A recorded trap: its kind code, message bytes and source position.
#[derive(Debug, Clone)]
pub struct TrapRecord {
    /// Numeric trap kind.
    pub kind: u32,
    /// Message bytes.
    pub message: Vec<u8>,
    /// Source position id of the faulting operation.
    pub pos_id: u32,
}

/// A record as plain values: kind, message, position.
pub open spec fn record_view(r: TrapRecord) -> (u32, Seq<u8>, u32) {
    (r.kind, r.message@, r.pos_id)
}

/// Trap record, raised flag, installed observer and the guard raised
/// while the observer runs.
pub struct TrapState {
    record: Option<TrapRecord>,
    flag: u32,
    observer: bool,
    observer_active: bool,
}

impl TrapState {
    /// The recorded trap, if any.
    pub closed spec fn recorded(&self) -> Option<(u32, Seq<u8>, u32)> {
        match self.record {
            Some(r) => Some(record_view(r)),
            None => None,
        }
    }

    /// The trap flag is raised.
    pub closed spec fn raised(&self) -> bool {
        self.flag != 0
    }

    /// A host observer is installed.
    pub closed spec fn observed(&self) -> bool {
        self.observer
    }

    /// The observer is running right now.
    pub closed spec fn observing(&self) -> bool {
        self.observer_active
    }

    /// No trap, flag lowered, no observer.
    pub fn new() -> (r: TrapState)
        ensures
            r.recorded() is None,
            !r.raised(),
            !r.observed(),
            !r.observing(),
    {
        TrapState { record: None, flag: 0, observer: false, observer_active: false }
    }

    /// Installs (`true`) or removes the host observer of the first trap.
    pub fn set_observer(&mut self, installed: bool)
        ensures
            final(self).observed() == installed,
            final(self).recorded() == old(self).recorded(),
            final(self).raised() == old(self).raised(),
            final(self).observing() == old(self).observing(),
    {
        self.observer = installed;
    }

    /// Records a trap. Only the first trap of a run is stored, and only it
    /// is reported: the result says to notify the observer, which happens
    /// exactly when this trap was stored and an observer is installed.
    /// Every trap raises the flag, the first and every later one.
    pub fn trap(&mut self, kind: u32, message: Vec<u8>, pos_id: u32) -> (notify: bool)
        ensures
            final(self).recorded() == if old(self).recorded() is None {
                Some((kind, message@, pos_id))
            } else {
                old(self).recorded()
            },
            final(self).raised(),
            notify <==> old(self).recorded() is None && old(self).observed(),
            final(self).observed() == old(self).observed(),
            final(self).observing() == old(self).observing(),
    {
        let first = self.record.is_none();
        if first {
            self.record = Some(TrapRecord { kind, message, pos_id });
        }
        self.flag = 1;
        first && self.observer
    }

    /// Raises the guard while the observer runs.
    pub fn begin_notify(&mut self)
        ensures
            final(self).observing(),
            final(self).recorded() == old(self).recorded(),
            final(self).raised() == old(self).raised(),
            final(self).observed() == old(self).observed(),
    {
        self.observer_active = true;
    }

    /// Lowers the guard once the observer has returned.
    pub fn end_notify(&mut self)
        ensures
            !final(self).observing(),
            final(self).recorded() == old(self).recorded(),
            final(self).raised() == old(self).raised(),
            final(self).observed() == old(self).observed(),
    {
        self.observer_active = false;
    }

    /// A trap is pending.
    pub fn trapped(&self) -> (r: bool)
        ensures
            r == self.raised(),
    {
        self.flag != 0
    }

    /// The recorded trap, if any.
    pub fn trap_record(&self) -> (r: Option<&TrapRecord>)
        ensures
            match r {
                Some(t) => self.recorded() == Some(record_view(*t)),
                None => self.recorded() is None,
            },
    {
        match &self.record {
            Some(t) => Some(t),
            None => None,
        }
    }

    /// Clearing is legal only at a host boundary: no observer running and
    /// no script frame (`script_depth`) on the stack.
    pub fn can_clear_trap(&self, script_depth: u32) -> (r: bool)
        ensures
            r <==> !self.observing() && script_depth == 0,
    {
        !self.observer_active && script_depth == 0
    }

    /// Clears the record and lowers the flag, so the next run starts
    /// clean and its first trap is recorded and reported again.
    pub fn clear_trap(&mut self)
        ensures
            final(self).recorded() is None,
            !final(self).raised(),
            final(self).observed() == old(self).observed(),
            final(self).observing() == old(self).observing(),
    {
        self.record = None;
        self.flag = 0;
    }
}

/// The first trap wins: after any sequence of traps since the last
/// clear, the record is the first of them, and the flag is raised.
pub open spec fn after_traps(
    recorded: Option<(u32, Seq<u8>, u32)>,
    traps: Seq<(u32, Seq<u8>, u32)>,
) -> Option<(u32, Seq<u8>, u32)>
    decreases traps.len(),
{
    if traps.len() == 0 {
        recorded
    } else {
        after_traps(
            if recorded is None {
                Some(traps[0])
            } else {
                recorded
            },
            traps.drop_first(),
        )
    }
}

/// Traps applied one after another from a clear state leave exactly the
/// first of them recorded; from a state that already holds a record, they
/// leave that record.
pub proof fn lemma_first_trap_wins(
    recorded: Option<(u32, Seq<u8>, u32)>,
    traps: Seq<(u32, Seq<u8>, u32)>,
)
    ensures
        recorded is Some ==> after_traps(recorded, traps) == recorded,
        recorded is None && traps.len() > 0 ==> after_traps(recorded, traps) == Some(traps[0]),
    decreases traps.len(),
{
    if traps.len() > 0 {
        let next = if recorded is None {
            Some(traps[0])
        } else {
            recorded
        };
        lemma_first_trap_wins(next, traps.drop_first());
    }
}

} // verus!
