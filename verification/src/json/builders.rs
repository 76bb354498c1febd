//! Context-owned output builders for `JSON.stringify`, with the active
//! reference path that detects cycles.
use vstd::prelude::*;

use std::collections::{HashMap, HashSet};

use super::escape::{append_quoted, quoted};
use crate::text::{decimal_digits, push_decimal, signed_decimal};

verus! {

broadcast use vstd::std_specs::hash::group_hash_axioms;


/// Result of inserting one reference in a path-checking builder's active path.
#[derive(Debug, Clone, Copy, PartialEq, Eq)]
pub enum Visit {
    /// The reference was newly inserted.
    Inserted,
    /// The reference was already on the active path.
    Cycle,
    /// The builder id was absent or was not created as path-checking.
    InvalidBuilder,
}

/// Context-owned output builders. A successful `finish` removes its
/// entry; `clear` drops every unfinished builder.
pub struct JsonBuilders {
    next: u64,
    output: HashMap<u64, Vec<u8>>,
    active: HashMap<u64, HashSet<usize>>,
}

impl JsonBuilders {
    /// The last id handed out (zero before the first).
    pub closed spec fn last_id(&self) -> u64 {
        self.next
    }

    /// The output so far of each open builder.
    pub closed spec fn outputs(&self) -> Map<u64, Seq<u8>> {
        self.output@.map_values(|v: Vec<u8>| v@)
    }

    /// The active reference path of each open path-checking builder.
    pub closed spec fn actives(&self) -> Map<u64, Set<usize>> {
        self.active@.map_values(|s: HashSet<usize>| s@)
    }

    /// Every open builder has an id already handed out, and every checked
    /// path belongs to an open builder.
    pub closed spec fn wf(&self) -> bool {
        &&& forall|id: u64| #[trigger] self.output@.contains_key(id) ==> 1 <= id <= self.next
        &&& forall|id: u64| #[trigger] self.active@.contains_key(id) ==> self.output@.contains_key(id)
    }

    /// No builder open, no id handed out.
    pub fn new() -> (r: JsonBuilders)
        ensures
            r.wf(),
            r.last_id() == 0,
            r.outputs() == Map::<u64, Seq<u8>>::empty(),
            r.actives() == Map::<u64, Set<usize>>::empty(),
    {
        let r = JsonBuilders { next: 0, output: HashMap::new(), active: HashMap::new() };
        proof {
            assert(r.outputs() =~= Map::<u64, Seq<u8>>::empty());
            assert(r.actives() =~= Map::<u64, Set<usize>>::empty());
        }
        r
    }

    /// Starts one builder with an empty output, under the next id. Only
    /// the path-checking spelling gets an (empty) active reference path.
    /// `None` once every id has been handed out.
    pub fn begin(&mut self, with_path: bool) -> (r: Option<u64>)
        requires
            old(self).wf(),
        ensures
            final(self).wf(),
            old(self).last_id() == u64::MAX ==> r is None && *final(self) == *old(self),
            old(self).last_id() < u64::MAX ==> {
                let id = (old(self).last_id() + 1) as u64;
                &&& r == Some(id)
                &&& final(self).last_id() == id
                &&& final(self).outputs() == old(self).outputs().insert(id, Seq::empty())
                &&& final(self).actives() == if with_path {
                    old(self).actives().insert(id, Set::empty())
                } else {
                    old(self).actives()
                }
            },
    {
        if self.next == u64::MAX {
            return None;
        }
        self.next = self.next + 1;
        let id = self.next;
        self.output.insert(id, Vec::new());
        if with_path {
            self.active.insert(id, HashSet::new());
        }
        proof {
            assert(self.outputs() =~= old(self).outputs().insert(id, Seq::empty()));
            if with_path {
                assert(self.actives() =~= old(self).actives().insert(id, Set::empty()));
            } else {
                assert(self.actives() =~= old(self).actives());
            }
        }
        Some(id)
    }

    /// Removes a builder and returns its exact JSON bytes; `None` when
    /// `id` is not open.
    pub fn finish(&mut self, id: u64) -> (r: Option<Vec<u8>>)
        requires
            old(self).wf(),
        ensures
            final(self).wf(),
            final(self).last_id() == old(self).last_id(),
            final(self).outputs() == old(self).outputs().remove(id),
            final(self).actives() == old(self).actives().remove(id),
            match r {
                Some(v) => old(self).outputs().contains_key(id) && v@ == old(self).outputs()[id],
                None => !old(self).outputs().contains_key(id),
            },
    {
        self.active.remove(&id);
        let r = self.output.remove(&id);
        proof {
            assert(self.outputs() =~= old(self).outputs().remove(id));
            assert(self.actives() =~= old(self).actives().remove(id));
        }
        r
    }

    /// Drops every open builder.
    pub fn clear(&mut self)
        requires
            old(self).wf(),
        ensures
            final(self).wf(),
            final(self).last_id() == old(self).last_id(),
            final(self).outputs() == Map::<u64, Seq<u8>>::empty(),
            final(self).actives() == Map::<u64, Set<usize>>::empty(),
    {
        self.output.clear();
        self.active.clear();
        proof {
            assert(self.outputs() =~= Map::<u64, Seq<u8>>::empty());
            assert(self.actives() =~= Map::<u64, Set<usize>>::empty());
        }
    }

    /// Appends `suffix` to builder `id`'s output; false when `id` is not
    /// open.
    fn append(&mut self, id: u64, suffix: Ghost<Seq<u8>>, write: &Vec<u8>) -> (r: bool)
        requires
            old(self).wf(),
            write@ == suffix@,
        ensures
            final(self).wf(),
            final(self).last_id() == old(self).last_id(),
            final(self).actives() == old(self).actives(),
            r == old(self).outputs().contains_key(id),
            final(self).outputs() == if r {
                old(self).outputs().insert(id, old(self).outputs()[id] + suffix@)
            } else {
                old(self).outputs()
            },
    {
        match self.output.remove(&id) {
            Some(mut out) => {
                out.extend_from_slice(write.as_slice());
                proof {
                    assert(out@ =~= old(self).outputs()[id] + suffix@);
                }
                self.output.insert(id, out);
                proof {
                    assert(self.outputs() =~= old(self).outputs().insert(
                        id,
                        old(self).outputs()[id] + suffix@,
                    ));
                }
                true
            },
            None => {
                proof {
                    assert(self.outputs() =~= old(self).outputs());
                }
                false
            },
        }
    }

    /// Appends bytes that the generated serializer already shaped as
    /// JSON punctuation; false when `id` is not open.
    pub fn raw(&mut self, id: u64, bytes: &[u8]) -> (r: bool)
        requires
            old(self).wf(),
        ensures
            final(self).wf(),
            final(self).last_id() == old(self).last_id(),
            final(self).actives() == old(self).actives(),
            r == old(self).outputs().contains_key(id),
            final(self).outputs() == if r {
                old(self).outputs().insert(id, old(self).outputs()[id] + bytes@)
            } else {
                old(self).outputs()
            },
    {
        let mut write: Vec<u8> = Vec::new();
        write.extend_from_slice(bytes);
        proof {
            assert(write@ =~= bytes@);
        }
        self.append(id, Ghost(bytes@), &write)
    }

    /// Appends one quoted JSON string. Language strings are valid UTF-8,
    /// so all non-control bytes pass through unchanged.
    pub fn string(&mut self, id: u64, bytes: &[u8]) -> (r: bool)
        requires
            old(self).wf(),
        ensures
            final(self).wf(),
            final(self).last_id() == old(self).last_id(),
            final(self).actives() == old(self).actives(),
            r == old(self).outputs().contains_key(id),
            final(self).outputs() == if r {
                old(self).outputs().insert(id, old(self).outputs()[id] + quoted(bytes@))
            } else {
                old(self).outputs()
            },
    {
        let mut write: Vec<u8> = Vec::new();
        append_quoted(&mut write, bytes);
        proof {
            assert(write@ =~= quoted(bytes@));
        }
        self.append(id, Ghost(quoted(bytes@)), &write)
    }

    /// Appends the decimal spelling of `v`.
    fn integer(&mut self, id: u64, v: i128) -> (r: bool)
        requires
            old(self).wf(),
            -0x1_0000_0000_0000_0000 < v < 0x1_0000_0000_0000_0000,
        ensures
            final(self).wf(),
            final(self).last_id() == old(self).last_id(),
            final(self).actives() == old(self).actives(),
            r == old(self).outputs().contains_key(id),
            final(self).outputs() == if r {
                old(self).outputs().insert(id, old(self).outputs()[id] + signed_decimal(v as int))
            } else {
                old(self).outputs()
            },
    {
        let mut write: Vec<u8> = Vec::new();
        if v < 0 {
            write.push(45u8);
            push_decimal(&mut write, (-v) as u64);
        } else {
            push_decimal(&mut write, v as u64);
        }
        proof {
            assert(write@ =~= signed_decimal(v as int));
        }
        self.append(id, Ghost(signed_decimal(v as int)), &write)
    }

    /// Appends a signed 32-bit integer in decimal.
    pub fn i32(&mut self, id: u64, value: i32) -> (r: bool)
        requires
            old(self).wf(),
        ensures
            final(self).wf(),
            final(self).last_id() == old(self).last_id(),
            final(self).actives() == old(self).actives(),
            r == old(self).outputs().contains_key(id),
            final(self).outputs() == if r {
                old(self).outputs().insert(id, old(self).outputs()[id] + signed_decimal(value as int))
            } else {
                old(self).outputs()
            },
    {
        self.integer(id, value as i128)
    }

    /// Appends an unsigned 32-bit integer in decimal.
    pub fn u32(&mut self, id: u64, value: u32) -> (r: bool)
        requires
            old(self).wf(),
        ensures
            final(self).wf(),
            final(self).last_id() == old(self).last_id(),
            final(self).actives() == old(self).actives(),
            r == old(self).outputs().contains_key(id),
            final(self).outputs() == if r {
                old(self).outputs().insert(id, old(self).outputs()[id] + decimal_digits(value as nat))
            } else {
                old(self).outputs()
            },
    {
        self.integer(id, value as i128)
    }

    /// Appends a signed 64-bit integer in decimal.
    pub fn i64(&mut self, id: u64, value: i64) -> (r: bool)
        requires
            old(self).wf(),
        ensures
            final(self).wf(),
            final(self).last_id() == old(self).last_id(),
            final(self).actives() == old(self).actives(),
            r == old(self).outputs().contains_key(id),
            final(self).outputs() == if r {
                old(self).outputs().insert(id, old(self).outputs()[id] + signed_decimal(value as int))
            } else {
                old(self).outputs()
            },
    {
        self.integer(id, value as i128)
    }

    /// Appends an unsigned 64-bit integer in decimal.
    pub fn u64(&mut self, id: u64, value: u64) -> (r: bool)
        requires
            old(self).wf(),
        ensures
            final(self).wf(),
            final(self).last_id() == old(self).last_id(),
            final(self).actives() == old(self).actives(),
            r == old(self).outputs().contains_key(id),
            final(self).outputs() == if r {
                old(self).outputs().insert(id, old(self).outputs()[id] + decimal_digits(value as nat))
            } else {
                old(self).outputs()
            },
    {
        self.integer(id, value as i128)
    }

    /// Inserts `reference` into a path-checking builder's active path.
    pub fn visit(&mut self, id: u64, reference: usize) -> (r: Visit)
        requires
            old(self).wf(),
        ensures
            final(self).wf(),
            final(self).last_id() == old(self).last_id(),
            final(self).outputs() == old(self).outputs(),
            !old(self).actives().contains_key(id) ==> r == Visit::InvalidBuilder && final(self).actives() == old(self).actives(),
            old(self).actives().contains_key(id) && old(self).actives()[id].contains(reference)
                ==> r == Visit::Cycle && final(self).actives() == old(self).actives(),
            old(self).actives().contains_key(id) && !old(self).actives()[id].contains(reference)
                ==> r == Visit::Inserted && final(self).actives() == old(self).actives().insert(
                id,
                old(self).actives()[id].insert(reference),
            ),
    {
        if !self.output.contains_key(&id) {
            return Visit::InvalidBuilder;
        }
        match self.active.remove(&id) {
            None => {
                proof {
                    assert(self.actives() =~= old(self).actives());
                }
                Visit::InvalidBuilder
            },
            Some(mut set) => {
                let inserted = set.insert(reference);
                self.active.insert(id, set);
                proof {
                    assert(self.actives() =~= old(self).actives().insert(
                        id,
                        old(self).actives()[id].insert(reference),
                    ));
                    if !inserted {
                        assert(old(self).actives()[id].insert(reference) =~= old(self).actives()[id]);
                        assert(self.actives() =~= old(self).actives());
                    }
                }
                if inserted {
                    Visit::Inserted
                } else {
                    Visit::Cycle
                }
            },
        }
    }

    /// Removes `reference` after its object body has been serialized;
    /// false when it was not on the active path of `id`.
    pub fn leave(&mut self, id: u64, reference: usize) -> (r: bool)
        requires
            old(self).wf(),
        ensures
            final(self).wf(),
            final(self).last_id() == old(self).last_id(),
            final(self).outputs() == old(self).outputs(),
            r == (old(self).actives().contains_key(id) && old(self).actives()[id].contains(
                reference,
            )),
            final(self).actives() == if r {
                old(self).actives().insert(id, old(self).actives()[id].remove(reference))
            } else {
                old(self).actives()
            },
    {
        match self.active.remove(&id) {
            None => {
                proof {
                    assert(self.actives() =~= old(self).actives());
                }
                false
            },
            Some(mut set) => {
                let removed = set.remove(&reference);
                self.active.insert(id, set);
                proof {
                    assert(self.actives() =~= old(self).actives().insert(
                        id,
                        old(self).actives()[id].remove(reference),
                    ));
                    if !removed {
                        assert(old(self).actives()[id].remove(reference) =~= old(self).actives()[id]);
                        assert(self.actives() =~= old(self).actives());
                    }
                }
                removed
            },
        }
    }
}

impl Default for JsonBuilders {
    fn default() -> (r: JsonBuilders)
        ensures
            r.wf(),
            r.last_id() == 0,
            r.outputs() == Map::<u64, Seq<u8>>::empty(),
            r.actives() == Map::<u64, Set<usize>>::empty(),
    {
        JsonBuilders::new()
    }
}

/// Leaving a reference just visited restores the active path exactly:
/// cycle detection follows the current path, not every reference ever
/// seen.
pub proof fn lemma_leave_undoes_visit(paths: Map<u64, Set<usize>>, id: u64, reference: usize)
    requires
        paths.contains_key(id),
        !paths[id].contains(reference),
    ensures
        ({
            let visited = paths.insert(id, paths[id].insert(reference));
            visited.insert(id, visited[id].remove(reference)) == paths
        }),
{
    let visited = paths.insert(id, paths[id].insert(reference));
    assert(visited[id].remove(reference) =~= paths[id]);
    assert(visited.insert(id, visited[id].remove(reference)) =~= paths);
}

} // verus!
