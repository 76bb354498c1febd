//! Bookkeeping of the ship-tier arena: chunks of equal-size blocks, one
//! size class per chunk, with per-class free lists, and individual large
//! allocations. An address is a classed block's payload exactly when it
//! lies in a known chunk, on that chunk's block grid, below the chunk's
//! watermark, and that block is not free-listed.
//!
//! Memory is the caller's: it obtains zeroed chunks and large blocks from
//! the system, zeroes reused blocks, writes and reads headers and payload
//! words, and releases exactly the blocks the operations here name.
use vstd::prelude::*;

use std::collections::{HashMap, HashSet};

use super::heap::{reachable, saturated, words_view};
use super::{is_size_class, pow2, size_class, HEADER_SIZE, LARGEST_BLOCK, SMALLEST_BLOCK};

verus! {

broadcast use vstd::std_specs::hash::group_hash_axioms;

/// Bytes per chunk.
pub const CHUNK_SIZE: usize = 65536;

/// Number of size classes: blocks of 32, 64, ..., 4096 bytes.
pub const NUM_CLASSES: usize = 8;

/// Total bytes (header plus payload capacity) of a block of `class`.
pub open spec fn block_bytes(class: int) -> int {
    if class == 0 {
        32
    } else if class == 1 {
        64
    } else if class == 2 {
        128
    } else if class == 3 {
        256
    } else if class == 4 {
        512
    } else if class == 5 {
        1024
    } else if class == 6 {
        2048
    } else {
        4096
    }
}

/// Total bytes of a block of `class` (`class < NUM_CLASSES`).
pub fn class_block_bytes(class: usize) -> (r: usize)
    requires
        class < NUM_CLASSES,
    ensures
        r == block_bytes(class as int),
{
    if class == 0 {
        32
    } else if class == 1 {
        64
    } else if class == 2 {
        128
    } else if class == 3 {
        256
    } else if class == 4 {
        512
    } else if class == 5 {
        1024
    } else if class == 6 {
        2048
    } else {
        4096
    }
}

/// One chunk: its base address, size class, and watermark (the blocks
/// handed out so far, in grid order).
#[derive(Debug, Clone, Copy, PartialEq, Eq)]
pub struct ChunkRecord {
    /// Address of the chunk's first byte.
    pub base: usize,
    /// Size class of every block in it.
    pub class: usize,
    /// Blocks handed out so far.
    pub bump: usize,
}

/// A large allocation: requested payload bytes and system block bytes.
#[derive(Debug, Clone, Copy, PartialEq, Eq)]
pub struct LargeRecord {
    /// Requested payload bytes.
    pub payload_size: usize,
    /// Bytes of the system block: header plus payload.
    pub layout_size: usize,
}

/// The payload address of block `b` of chunk `ch`.
pub open spec fn payload_at(ch: ChunkRecord, b: int) -> int {
    ch.base + HEADER_SIZE + b * block_bytes(ch.class as int)
}

/// `addr` is the payload of a handed-out block of chunk `ch`: inside the
/// chunk, on its grid, below its watermark.
pub open spec fn on_grid(ch: ChunkRecord, addr: int) -> bool {
    let off = addr - ch.base - HEADER_SIZE;
    &&& ch.base + HEADER_SIZE <= addr < ch.base + CHUNK_SIZE
    &&& off % block_bytes(ch.class as int) == 0
    &&& off / block_bytes(ch.class as int) < ch.bump
}

/// Blocks of `class` that fit in a chunk.
pub open spec fn blocks_in_chunk(class: int) -> int {
    CHUNK_SIZE as int / block_bytes(class)
}

/// Grid arithmetic: the payload of block `b` is on the grid exactly at
/// offset `b` blocks.
proof fn lemma_grid(ch: ChunkRecord, b: int)
    requires
        0 <= b < ch.bump,
        ch.class < NUM_CLASSES,
        ch.bump <= blocks_in_chunk(ch.class as int),
    ensures
        on_grid(ch, payload_at(ch, b)),
        (payload_at(ch, b) - ch.base - HEADER_SIZE) / block_bytes(ch.class as int) == b,
{
    let bs = block_bytes(ch.class as int);
    vstd::arithmetic::div_mod::lemma_mod_multiples_basic(b, bs);
    vstd::arithmetic::div_mod::lemma_div_multiples_vanish(b, bs);
    assert(b * bs == bs * b) by (nonlinear_arith);
    assert(b * bs + bs <= CHUNK_SIZE) by (nonlinear_arith)
        requires
            b < ch.bump,
            ch.bump <= CHUNK_SIZE as int / bs,
            bs > 0,
            bs * (CHUNK_SIZE as int / bs) <= CHUNK_SIZE,
    {
        assert(b + 1 <= CHUNK_SIZE as int / bs);
    }
}

/// `p` is a handed-out block of some chunk of class `c`.
pub open spec fn in_class_chunk(ch: Seq<ChunkRecord>, c: int, p: usize) -> bool {
    exists|i: int| 0 <= i < ch.len() && ch[i].class == c && #[trigger] on_grid(ch[i], p as int)
}

/// The arena's records.
pub struct Arena {
    chunks: Vec<ChunkRecord>,
    order: Vec<usize>,
    open: Vec<Option<usize>>,
    free: Vec<Vec<usize>>,
    dead: HashSet<usize>,
    large: HashMap<usize, LargeRecord>,
}

impl Arena {
    /// The chunks, in the order they were added.
    pub closed spec fn chunk_list(&self) -> Seq<ChunkRecord> {
        self.chunks@
    }

    /// The free list of each class, oldest first (the last is reused next).
    pub closed spec fn free_lists(&self) -> Seq<Seq<usize>> {
        self.free@.map_values(|v: Vec<usize>| v@)
    }

    /// The large allocations by payload address.
    pub closed spec fn large_records(&self) -> Map<usize, LargeRecord> {
        self.large@
    }

    /// The chunk each class bumps from next, if any.
    pub closed spec fn open_chunks(&self) -> Seq<Option<usize>> {
        self.open@
    }

    /// `addr` is the payload of a handed-out block of some chunk.
    pub open spec fn is_block(&self, addr: int) -> bool {
        exists|i: int| 0 <= i < self.chunk_list().len() && on_grid(#[trigger] self.chunk_list()[i], addr)
    }

    /// `addr` is free-listed.
    pub open spec fn is_free(&self, addr: usize) -> bool {
        exists|c: int| 0 <= c < self.free_lists().len() && (#[trigger] self.free_lists()[c]).contains(addr)
    }

    /// `addr` is a live allocation: a handed-out block not on a free
    /// list, or a large allocation.
    pub open spec fn live(&self, addr: usize) -> bool {
        (self.is_block(addr as int) && !self.is_free(addr)) || self.large_records().contains_key(addr)
    }

    /// Chunks sit apart in address order; watermarks stay within their
    /// chunks; each free list holds distinct handed-out blocks of its
    /// class, mirrored by the dead set; large allocations lie outside
    /// every chunk.
    pub closed spec fn wf(&self) -> bool {
        let ch = self.chunks@;
        let ord = self.order@;
        &&& self.open@.len() == NUM_CLASSES
        &&& self.free@.len() == NUM_CLASSES
        &&& forall|i: int|
            0 <= i < ch.len() ==> (#[trigger] ch[i]).class < NUM_CLASSES && ch[i].bump
                <= blocks_in_chunk(ch[i].class as int) && ch[i].base + CHUNK_SIZE <= usize::MAX
        &&& ord.len() == ch.len()
        &&& ch.len() <= usize::MAX
        &&& forall|j: int| 0 <= j < ord.len() ==> #[trigger] ord[j] < ch.len()
        &&& forall|j: int, k: int|
            0 <= j < k < ord.len() ==> ch[#[trigger] ord[j] as int].base + CHUNK_SIZE <= ch[
                #[trigger] ord[k] as int].base
        &&& forall|i: usize| 0 <= i < ch.len() ==> #[trigger] ord.contains(i)
        &&& forall|c: int|
            0 <= c < NUM_CLASSES ==> match #[trigger] self.open@[c] {
                Some(i) => i < ch.len() && ch[i as int].class == c,
                None => true,
            }
        &&& forall|c: int, q: int|
            0 <= c < NUM_CLASSES && 0 <= q < self.free@[c]@.len() ==> in_class_chunk(
                ch,
                c,
                #[trigger] self.free@[c]@[q],
            )
        &&& forall|c: int| 0 <= c < NUM_CLASSES ==> (#[trigger] self.free@[c])@.no_duplicates()
        &&& forall|c: int, d: int, p: usize|
            #![trigger self.free@[c]@.contains(p), self.free@[d]@.contains(p)]
            0 <= c < d < NUM_CLASSES ==> !(self.free@[c]@.contains(p) && self.free@[d]@.contains(p))
        &&& forall|p: usize| #[trigger] self.dead@.contains(p) <==> self.is_free(p)
        &&& forall|p: usize, i: int|
            #![trigger self.large@.contains_key(p), ch[i]]
            self.large@.contains_key(p) && 0 <= i < ch.len() ==> !(ch[i].base <= p < ch[i].base
                + CHUNK_SIZE)
    }

    /// An empty arena.
    pub fn new() -> (r: Arena)
        ensures
            r.wf(),
            r.chunk_list().len() == 0,
            r.large_records() == Map::<usize, LargeRecord>::empty(),
    {
        let mut open: Vec<Option<usize>> = Vec::new();
        let mut free: Vec<Vec<usize>> = Vec::new();
        let mut c: usize = 0;
        while c < NUM_CLASSES
            invariant
                c <= NUM_CLASSES,
                open@.len() == c,
                free@.len() == c,
                forall|k: int| 0 <= k < c ==> #[trigger] open@[k] is None,
                forall|k: int| 0 <= k < c ==> #[trigger] free@[k]@.len() == 0,
            decreases NUM_CLASSES - c,
        {
            open.push(None);
            free.push(Vec::new());
            c = c + 1;
        }
        let r = Arena {
            chunks: Vec::new(),
            order: Vec::new(),
            open,
            free,
            dead: HashSet::new(),
            large: HashMap::new(),
        };
        proof {
            assert forall|c: int| 0 <= c < NUM_CLASSES implies #[trigger] r.free_lists()[c]
                =~= Seq::<usize>::empty() by {
                assert(r.free@[c]@.len() == 0);
                assert(r.free_lists()[c] == r.free@[c]@);
            }
            assert forall|p: usize| #[trigger] r.dead@.contains(p) <==> r.is_free(p) by {
                if r.is_free(p) {
                    let c = choose|c: int|
                        0 <= c < r.free_lists().len() && (#[trigger] r.free_lists()[c]).contains(p);
                    assert(r.free_lists()[c] =~= Seq::<usize>::empty());
                }
            }
        }
        r
    }
}

impl Arena {
    /// The base address of the chunk at position `j` of the address order.
    closed spec fn base_at(&self, j: int) -> int {
        self.chunks@[self.order@[j] as int].base as int
    }

    /// The first position in address order whose chunk starts above
    /// `addr`.
    fn first_above(&self, addr: usize) -> (lo: usize)
        requires
            self.wf(),
        ensures
            lo <= self.order@.len(),
            forall|j: int| 0 <= j < lo ==> #[trigger] self.base_at(j) <= addr,
            forall|j: int| lo <= j < self.order@.len() ==> #[trigger] self.base_at(j) > addr,
    {
        let n = self.order.len();
        let mut lo: usize = 0;
        let mut hi: usize = n;
        while lo < hi
            invariant
                self.wf(),
                n == self.order@.len(),
                0 <= lo <= hi <= n,
                forall|j: int| 0 <= j < lo ==> #[trigger] self.base_at(j) <= addr,
                forall|j: int| hi <= j < n ==> #[trigger] self.base_at(j) > addr,
            decreases hi - lo,
        {
            let m = lo + (hi - lo) / 2;
            let idx = self.order[m];
            if self.chunks[idx].base <= addr {
                proof {
                    assert forall|j: int| 0 <= j < m + 1 implies #[trigger] self.base_at(j) <= addr by {
                        if j < m {
                            assert(self.chunks@[self.order@[j] as int].base + CHUNK_SIZE
                                <= self.chunks@[self.order@[m as int] as int].base);
                        }
                    }
                }
                lo = m + 1;
            } else {
                proof {
                    assert forall|j: int| m <= j < n implies #[trigger] self.base_at(j) > addr by {
                        if j > m {
                            assert(self.chunks@[self.order@[m as int] as int].base + CHUNK_SIZE
                                <= self.chunks@[self.order@[j] as int].base);
                        }
                    }
                }
                hi = m;
            }
        }
        lo
    }

    /// The exact membership test: the chunk holding a handed-out block
    /// whose payload is `addr`. Only the last chunk starting at or below
    /// `addr` can hold it, inside its range, on its block grid, below its
    /// watermark.
    pub fn lookup_block(&self, addr: usize) -> (r: Option<usize>)
        requires
            self.wf(),
        ensures
            r matches Some(i) ==> i < self.chunk_list().len() && on_grid(
                self.chunk_list()[i as int],
                addr as int,
            ),
            r is None ==> !self.is_block(addr as int),
    {
        let n = self.order.len();
        let lo = self.first_above(addr);
        if lo == 0 {
            proof {
                assert forall|i: int| 0 <= i < self.chunk_list().len() implies !on_grid(
                    #[trigger] self.chunk_list()[i],
                    addr as int,
                ) by {
                    assert(self.order@.contains(i as usize));
                    let j = choose|j: int| 0 <= j < self.order@.len() && self.order@[j] == i as usize;
                    assert(self.base_at(j) > addr);
                }
            }
            return None;
        }
        let ci = self.order[lo - 1];
        let ch = self.chunks[ci];
        let ghost cand = (lo - 1) as int;
        proof {
            assert forall|i: int|
                0 <= i < self.chunk_list().len() && i != ci as int implies !on_grid(
                #[trigger] self.chunk_list()[i],
                addr as int,
            ) by {
                assert(self.order@.contains(i as usize));
                let j = choose|j: int| 0 <= j < self.order@.len() && self.order@[j] == i as usize;
                if j < cand {
                    assert(self.chunks@[self.order@[j] as int].base + CHUNK_SIZE
                        <= self.chunks@[self.order@[cand] as int].base);
                    assert(self.base_at(cand) <= addr);
                } else if j > cand {
                    assert(self.base_at(j) > addr);
                }
            }
        }
        if addr < ch.base + HEADER_SIZE || addr - ch.base >= CHUNK_SIZE {
            return None;
        }
        let off = addr - ch.base - HEADER_SIZE;
        let bs = class_block_bytes(ch.class);
        if off % bs != 0 {
            return None;
        }
        if off / bs >= ch.bump {
            return None;
        }
        Some(ci)
    }
}

impl Arena {
    /// Registers a fresh zeroed chunk at `base` for `class`, which the
    /// class then bumps from. The system hands out memory apart from
    /// every chunk and large allocation the arena holds.
    pub fn add_chunk(&mut self, base: usize, class: usize)
        requires
            old(self).wf(),
            class < NUM_CLASSES,
            base + CHUNK_SIZE <= usize::MAX,
            forall|i: int|
                0 <= i < old(self).chunk_list().len() ==> base + CHUNK_SIZE <= (
                #[trigger] old(self).chunk_list()[i]).base || old(self).chunk_list()[i].base
                    + CHUNK_SIZE <= base,
            forall|p: usize| #[trigger]
                old(self).large_records().contains_key(p) ==> !(base <= p < base + CHUNK_SIZE),
        ensures
            final(self).wf(),
            final(self).chunk_list() == old(self).chunk_list().push(
                ChunkRecord { base, class, bump: 0 },
            ),
            final(self).open_chunks() == old(self).open_chunks().update(
                class as int,
                Some(old(self).chunk_list().len() as usize),
            ),
            final(self).free_lists() == old(self).free_lists(),
            final(self).large_records() == old(self).large_records(),
    {
        let pos = self.first_above(base);
        let idx = self.chunks.len();
        let ghost old_order = self.order@;
        let ghost old_chunks = self.chunks@;
        proof {
            assert forall|j: int| 0 <= j < pos implies #[trigger] old_chunks[old_order[j] as int].base
                + CHUNK_SIZE <= base by {
                assert(self.base_at(j) <= base);
                assert(old_chunks[old_order[j] as int] == old(self).chunk_list()[old_order[j] as int]);
            }
            assert forall|j: int| pos <= j < old_order.len() implies base + CHUNK_SIZE
                <= #[trigger] old_chunks[old_order[j] as int].base by {
                assert(self.base_at(j) > base);
                assert(old_chunks[old_order[j] as int] == old(self).chunk_list()[old_order[j] as int]);
            }
        }
        self.chunks.push(ChunkRecord { base, class, bump: 0 });
        self.order.insert(pos, idx);
        self.open.set(class, Some(idx));
        let count = self.chunks.len();
        proof {
            let ch = self.chunks@;
            let ord = self.order@;
            assert(ch.len() == count);
            assert(ord == old_order.insert(pos as int, idx));
            assert forall|j: int| 0 <= j < old_order.len() implies #[trigger] old_order[j] < idx by {}
            assert forall|j: int| 0 <= j < ord.len() implies #[trigger] ord[j] < ch.len() by {
                if j < pos {
                    assert(ord[j] == old_order[j]);
                } else if j > pos {
                    assert(ord[j] == old_order[j - 1]);
                }
            }
            assert forall|j: int, k: int|
                0 <= j < k < ord.len() implies ch[#[trigger] ord[j] as int].base + CHUNK_SIZE <= ch[
                #[trigger] ord[k] as int].base by {
                if j < pos && k < pos {
                    assert(ord[j] == old_order[j] && ord[k] == old_order[k]);
                } else if j < pos && k == pos {
                    assert(ord[j] == old_order[j]);
                    assert(old_chunks[old_order[j] as int].base + CHUNK_SIZE <= base);
                } else if j < pos && k > pos {
                    assert(ord[j] == old_order[j] && ord[k] == old_order[k - 1]);
                } else if j == pos {
                    assert(ord[k] == old_order[k - 1]);
                    assert(base + CHUNK_SIZE <= old_chunks[old_order[k - 1] as int].base);
                } else {
                    assert(ord[j] == old_order[j - 1] && ord[k] == old_order[k - 1]);
                }
            }
            assert forall|i: usize| 0 <= i < ch.len() implies #[trigger] ord.contains(i) by {
                if i == idx {
                    assert(ord[pos as int] == idx);
                } else {
                    assert(old_order.contains(i));
                    let j = choose|j: int| 0 <= j < old_order.len() && old_order[j] == i;
                    if j < pos {
                        assert(ord[j] == i);
                    } else {
                        assert(ord[j + 1] == i);
                    }
                }
            }
            assert(self.free_lists() =~= old(self).free_lists());
            assert forall|c: int, q: int|
                0 <= c < NUM_CLASSES && 0 <= q < self.free@[c]@.len() implies in_class_chunk(
                ch,
                c,
                #[trigger] self.free@[c]@[q],
            ) by {
                assert(old(self).free@[c] == self.free@[c]);
                let p = self.free@[c]@[q];
                assert(in_class_chunk(old_chunks, c, old(self).free@[c]@[q]));
                let i = choose|i: int|
                    0 <= i < old_chunks.len() && old_chunks[i].class == c && #[trigger] on_grid(
                        old_chunks[i],
                        p as int,
                    );
                assert(ch[i] == old_chunks[i]);
            }
            assert forall|p: usize| #[trigger] self.dead@.contains(p) <==> self.is_free(p) by {
                assert(old(self).dead@.contains(p) <==> old(self).is_free(p));
            }
            assert forall|p: usize, i: int|
                #![trigger self.large@.contains_key(p), ch[i]]
                self.large@.contains_key(p) && 0 <= i < ch.len() implies !(ch[i].base <= p < ch[i].base
                    + CHUNK_SIZE) by {
                if i < old_chunks.len() {
                    assert(old_chunks[i] == ch[i]);
                    assert(old(self).large@.contains_key(p));
                } else {
                    assert(old(self).large_records().contains_key(p));
                }
            }
        }
    }
}

/// What `take_block` hands out.
#[derive(Debug, Clone, Copy, PartialEq, Eq)]
pub enum Grant {
    /// A free-listed block, popped: the caller zeroes its payload
    /// capacity and writes its header.
    Reused(usize),
    /// The next never-used block of the class's open chunk: its payload
    /// is still zero, and the caller writes its header.
    Fresh(usize),
    /// The class has no free block and no room: a new chunk is needed.
    NeedChunk,
}

/// The address a grant hands out.
pub open spec fn granted(g: Grant) -> Option<usize> {
    match g {
        Grant::Reused(p) => Some(p),
        Grant::Fresh(p) => Some(p),
        Grant::NeedChunk => None,
    }
}

impl Arena {
    /// The set of free-listed addresses.
    pub open spec fn free_set(&self) -> Set<usize> {
        Set::new(|p: usize| self.is_free(p))
    }

    /// Two chunks of the arena never overlap.
    proof fn lemma_apart(&self, i: int, k: int)
        requires
            self.wf(),
            0 <= i < self.chunk_list().len(),
            0 <= k < self.chunk_list().len(),
            i != k,
        ensures
            self.chunk_list()[i].base + CHUNK_SIZE <= self.chunk_list()[k].base
                || self.chunk_list()[k].base + CHUNK_SIZE <= self.chunk_list()[i].base,
    {
        let ord = self.order@;
        assert(ord.contains(i as usize));
        assert(ord.contains(k as usize));
        let ji = choose|j: int| 0 <= j < ord.len() && ord[j] == i as usize;
        let jk = choose|j: int| 0 <= j < ord.len() && ord[j] == k as usize;
        if ji < jk {
            assert(self.chunks@[ord[ji] as int].base + CHUNK_SIZE <= self.chunks@[ord[jk] as int].base);
        } else {
            assert(self.chunks@[ord[jk] as int].base + CHUNK_SIZE <= self.chunks@[ord[ji] as int].base);
        }
    }

    /// A free-listed address is a handed-out block of some chunk.
    proof fn lemma_free_is_block(&self, p: usize)
        requires
            self.wf(),
            self.is_free(p),
        ensures
            self.is_block(p as int),
            !self.large_records().contains_key(p),
    {
        let c = choose|c: int| 0 <= c < self.free_lists().len() && (#[trigger] self.free_lists()[c]).contains(p);
        assert(self.free_lists()[c] == self.free@[c]@);
        let q = choose|q: int| 0 <= q < self.free@[c]@.len() && self.free@[c]@[q] == p;
        assert(in_class_chunk(self.chunks@, c, self.free@[c]@[q]));
        let i = choose|i: int| 0 <= i < self.chunks@.len() && self.chunks@[i].class == c && #[trigger] on_grid(self.chunks@[i], p as int);
        assert(on_grid(self.chunk_list()[i], p as int));
        if self.large@.contains_key(p) {
            assert(!(self.chunks@[i].base <= p < self.chunks@[i].base + CHUNK_SIZE));
        }
    }

    /// An address on the grid of chunk `i` is on no other chunk's grid and
    /// is no large allocation.
    proof fn lemma_grid_owner(&self, i: int, p: int)
        requires
            self.wf(),
            0 <= i < self.chunk_list().len(),
            self.chunk_list()[i].base + HEADER_SIZE <= p < self.chunk_list()[i].base + CHUNK_SIZE,
        ensures
            forall|k: int| 0 <= k < self.chunk_list().len() && k != i ==> !on_grid(#[trigger] self.chunk_list()[k], p),
            0 <= p <= usize::MAX ==> !self.large_records().contains_key(p as usize),
    {
        assert forall|k: int| 0 <= k < self.chunk_list().len() && k != i implies !on_grid(#[trigger] self.chunk_list()[k], p) by {
            self.lemma_apart(i, k);
        }
        if 0 <= p <= usize::MAX && self.large@.contains_key(p as usize) {
            assert(self.chunks@[i] == self.chunk_list()[i]);
            assert(!(self.chunks@[i].base <= p < self.chunks@[i].base + CHUNK_SIZE));
        }
    }
}

impl Arena {
    /// Hands out a block of `class`: the most recently freed one of the
    /// class if any (free lists are last in, first out), else the next
    /// block of the class's open chunk while it has room, else nothing,
    /// and a new chunk is needed. A granted address was not live and now
    /// is; no other address changes.
    pub fn take_block(&mut self, class: usize) -> (r: Grant)
        requires
            old(self).wf(),
            class < NUM_CLASSES,
        ensures
            final(self).wf(),
            final(self).large_records() == old(self).large_records(),
            final(self).open_chunks() == old(self).open_chunks(),
            final(self).chunk_list().len() == old(self).chunk_list().len(),
            ({
                let fl = old(self).free_lists()[class as int];
                match r {
                    Grant::Reused(p) => {
                        &&& fl.len() > 0
                        &&& p == fl.last()
                        &&& final(self).free_lists() == old(self).free_lists().update(
                            class as int,
                            fl.drop_last(),
                        )
                        &&& final(self).chunk_list() == old(self).chunk_list()
                    },
                    Grant::Fresh(p) => {
                        &&& fl.len() == 0
                        &&& old(self).open_chunks()[class as int] matches Some(i) && {
                            let ch = old(self).chunk_list()[i as int];
                            &&& ch.bump < blocks_in_chunk(class as int)
                            &&& p == payload_at(ch, ch.bump as int)
                            &&& final(self).chunk_list() == old(self).chunk_list().update(
                                i as int,
                                ChunkRecord { bump: (ch.bump + 1) as usize, ..ch },
                            )
                        }
                        &&& final(self).free_lists() == old(self).free_lists()
                    },
                    Grant::NeedChunk => {
                        &&& fl.len() == 0
                        &&& !(old(self).open_chunks()[class as int] matches Some(i)
                            && old(self).chunk_list()[i as int].bump < blocks_in_chunk(class as int))
                        &&& final(self).chunk_list() == old(self).chunk_list()
                        &&& final(self).free_lists() == old(self).free_lists()
                    },
                }
            }),
            granted(r) matches Some(p) ==> !old(self).live(p),
            forall|q: usize| #[trigger] final(self).live(q) <==> old(self).live(q) || granted(r) == Some(q),
    {
        let ghost pre = *self;
        if self.free[class].len() > 0 {
            let p = self.free[class].pop().unwrap();
            self.dead.remove(&p);
            proof {
                assert(pre.free_lists()[class as int] == pre.free@[class as int]@);
                assert(pre.is_free(p));
                pre.lemma_free_is_block(p);
                assert(self.free_lists() =~= pre.free_lists().update(
                    class as int,
                    pre.free_lists()[class as int].drop_last(),
                ));
                self.lemma_pop_keeps(pre, class as int, p);
            }
            return Grant::Reused(p);
        }
        match self.open[class] {
            Some(i) => {
                let ch = self.chunks[i];
                let cap = CHUNK_SIZE / class_block_bytes(class);
                if ch.bump < cap {
                    let bs = class_block_bytes(class);
                    proof {
                        assert(pre.chunks@[i as int].class == class);
                        lemma_grid(ChunkRecord { bump: (ch.bump + 1) as usize, ..ch }, ch.bump as int);
                        assert(payload_at(ChunkRecord { bump: (ch.bump + 1) as usize, ..ch }, ch.bump as int)
                            == ch.base + HEADER_SIZE + ch.bump * bs);
                    }
                    let p = ch.base + HEADER_SIZE + ch.bump * bs;
                    self.chunks.set(i, ChunkRecord { bump: ch.bump + 1, ..ch });
                    proof {
                        self.lemma_bump_keeps(pre, i as int, p);
                    }
                    return Grant::Fresh(p);
                }
                Grant::NeedChunk
            },
            None => Grant::NeedChunk,
        }
    }
}

impl Arena {
    /// Popping the newest block `p` of free list `c` keeps the records
    /// well formed and makes `p`, and only `p`, live.
    proof fn lemma_pop_keeps(&self, pre: Arena, c: int, p: usize)
        requires
            pre.wf(),
            0 <= c < NUM_CLASSES,
            pre.free@[c]@.len() > 0,
            p == pre.free@[c]@.last(),
            self.chunks@ == pre.chunks@,
            self.order@ == pre.order@,
            self.open@ == pre.open@,
            self.large@ == pre.large@,
            self.free@.len() == NUM_CLASSES,
            self.free@[c]@ == pre.free@[c]@.drop_last(),
            forall|d: int| 0 <= d < NUM_CLASSES && d != c ==> #[trigger] self.free@[d]@ == pre.free@[d]@,
            self.dead@ == pre.dead@.remove(p),
        ensures
            self.wf(),
            !pre.live(p),
            forall|q: usize| #[trigger] self.live(q) <==> pre.live(q) || q == p,
    {
        let last = (pre.free@[c]@.len() - 1) as int;
        assert(pre.free_lists()[c] == pre.free@[c]@);
        assert(pre.free@[c]@.contains(p));
        assert(pre.is_free(p));
        pre.lemma_free_is_block(p);
        assert forall|q: usize| #[trigger] self.is_free(q) <==> pre.is_free(q) && q != p by {
            if self.is_free(q) {
                let d = choose|d: int| 0 <= d < self.free_lists().len() && (#[trigger] self.free_lists()[d]).contains(q);
                assert(self.free_lists()[d] == self.free@[d]@);
                assert(pre.free_lists()[d] == pre.free@[d]@);
                if d == c {
                    let j = choose|j: int| 0 <= j < self.free@[c]@.len() && self.free@[c]@[j] == q;
                    assert(pre.free@[c]@[j] == q);
                    assert(pre.free@[c]@.contains(q));
                    assert(j != last);
                } else {
                    assert(pre.free@[d]@.contains(q));
                }
            }
            if pre.is_free(q) && q != p {
                let d = choose|d: int| 0 <= d < pre.free_lists().len() && (#[trigger] pre.free_lists()[d]).contains(q);
                assert(self.free_lists()[d] == self.free@[d]@);
                assert(pre.free_lists()[d] == pre.free@[d]@);
                if d == c {
                    let j = choose|j: int| 0 <= j < pre.free@[c]@.len() && pre.free@[c]@[j] == q;
                    assert(j != last);
                    assert(self.free@[c]@[j] == q);
                    assert(self.free@[c]@.contains(q));
                } else {
                    assert(self.free@[d]@ == pre.free@[d]@);
                }
            }
        }
        assert forall|q: usize| #[trigger] self.is_block(q as int) <==> pre.is_block(q as int) by {
            assert(self.chunk_list() == pre.chunk_list());
        }
        assert forall|q: usize| #[trigger] self.live(q) <==> pre.live(q) || q == p by {
            assert(self.is_block(q as int) <==> pre.is_block(q as int));
            assert(self.is_free(q) <==> pre.is_free(q) && q != p);
        }
        // well-formedness of the shortened list
        assert forall|d: int, q: int|
            0 <= d < NUM_CLASSES && 0 <= q < self.free@[d]@.len() implies in_class_chunk(
            self.chunks@,
            d,
            #[trigger] self.free@[d]@[q],
        ) by {
            if d == c {
                assert(self.free@[c]@[q] == pre.free@[c]@[q]);
            }
            assert(in_class_chunk(pre.chunks@, d, pre.free@[d]@[q]));
        }
        assert forall|d: int| 0 <= d < NUM_CLASSES implies (#[trigger] self.free@[d])@.no_duplicates() by {
            if d == c {
                assert(pre.free@[c]@.no_duplicates());
            } else {
                assert(self.free@[d]@ == pre.free@[d]@);
            }
        }
        assert forall|d: int, e: int, q: usize|
            #![trigger self.free@[d]@.contains(q), self.free@[e]@.contains(q)]
            0 <= d < e < NUM_CLASSES implies !(self.free@[d]@.contains(q) && self.free@[e]@.contains(q)) by {
            if self.free@[d]@.contains(q) && self.free@[e]@.contains(q) {
                let jd = choose|j: int| 0 <= j < self.free@[d]@.len() && self.free@[d]@[j] == q;
                let je = choose|j: int| 0 <= j < self.free@[e]@.len() && self.free@[e]@[j] == q;
                if d == c {
                    assert(pre.free@[d]@[jd] == q);
                } else {
                    assert(self.free@[d]@ == pre.free@[d]@);
                }
                if e == c {
                    assert(pre.free@[e]@[je] == q);
                } else {
                    assert(self.free@[e]@ == pre.free@[e]@);
                }
                assert(pre.free@[d]@.contains(q));
                assert(pre.free@[e]@.contains(q));
            }
        }
        assert forall|q: usize| #[trigger] self.dead@.contains(q) <==> self.is_free(q) by {
            assert(pre.dead@.contains(q) <==> pre.is_free(q));
        }
    }

    /// Raising chunk `i`'s watermark by one block keeps the records well
    /// formed and makes exactly that block, `p`, live.
    proof fn lemma_bump_keeps(&self, pre: Arena, i: int, p: usize)
        requires
            pre.wf(),
            0 <= i < pre.chunks@.len(),
            pre.chunks@[i].bump < blocks_in_chunk(pre.chunks@[i].class as int),
            p == payload_at(pre.chunks@[i], pre.chunks@[i].bump as int),
            self.chunks@ == pre.chunks@.update(i, ChunkRecord { bump: (pre.chunks@[i].bump + 1) as usize, ..pre.chunks@[i] }),
            self.order@ == pre.order@,
            self.open@ == pre.open@,
            self.large@ == pre.large@,
            self.free@ == pre.free@,
            self.dead@ == pre.dead@,
        ensures
            self.wf(),
            !pre.live(p),
            forall|q: usize| #[trigger] self.live(q) <==> pre.live(q) || q == p,
    {
        let old_ch = pre.chunks@[i];
        let new_ch = self.chunks@[i];
        let b = old_ch.bump as int;
        lemma_grid(new_ch, b);
        assert(payload_at(new_ch, b) == p);
        pre.lemma_grid_owner(i, p as int);
        assert(!on_grid(old_ch, p as int));
        assert(!pre.is_block(p as int)) by {
            assert forall|k: int| 0 <= k < pre.chunk_list().len() implies !on_grid(#[trigger] pre.chunk_list()[k], p as int) by {
                if k == i {
                    assert(pre.chunk_list()[k] == old_ch);
                }
            }
        }
        assert forall|q: usize| #[trigger] self.is_block(q as int) <==> pre.is_block(q as int) || q == p by {
            if self.is_block(q as int) {
                let k = choose|k: int| 0 <= k < self.chunk_list().len() && on_grid(#[trigger] self.chunk_list()[k], q as int);
                if k == i {
                    if !on_grid(old_ch, q as int) {
                        let bs = block_bytes(old_ch.class as int);
                        let off = q - old_ch.base - HEADER_SIZE;
                        assert(off / bs == b);
                        assert(off % bs == 0);
                        vstd::arithmetic::div_mod::lemma_fundamental_div_mod(off, bs);
                        assert(off == bs * b);
                        assert(b * bs == bs * b) by (nonlinear_arith);
                    } else {
                        assert(on_grid(pre.chunk_list()[i], q as int));
                    }
                } else {
                    assert(pre.chunk_list()[k] == self.chunk_list()[k]);
                }
            }
            if pre.is_block(q as int) {
                let k = choose|k: int| 0 <= k < pre.chunk_list().len() && on_grid(#[trigger] pre.chunk_list()[k], q as int);
                if k == i {
                    assert(on_grid(self.chunk_list()[i], q as int));
                } else {
                    assert(pre.chunk_list()[k] == self.chunk_list()[k]);
                }
            }
            if q == p {
                assert(on_grid(self.chunk_list()[i], q as int));
            }
        }
        assert forall|q: usize| #[trigger] self.is_free(q) <==> pre.is_free(q) by {
            assert(self.free_lists() == pre.free_lists());
        }
        if pre.is_free(p) {
            pre.lemma_free_is_block(p);
        }
        assert forall|q: usize| #[trigger] self.live(q) <==> pre.live(q) || q == p by {
            assert(self.is_block(q as int) <==> pre.is_block(q as int) || q == p);
            assert(self.is_free(q) <==> pre.is_free(q));
        }
        // well-formedness
        let ch = self.chunks@;
        assert forall|j: int, k: int|
            0 <= j < k < self.order@.len() implies ch[#[trigger] self.order@[j] as int].base + CHUNK_SIZE <= ch[
            #[trigger] self.order@[k] as int].base by {
            assert(pre.chunks@[pre.order@[j] as int].base + CHUNK_SIZE <= pre.chunks@[pre.order@[k] as int].base);
        }
        assert forall|d: int, q: int|
            0 <= d < NUM_CLASSES && 0 <= q < self.free@[d]@.len() implies in_class_chunk(
            ch,
            d,
            #[trigger] self.free@[d]@[q],
        ) by {
            let x = self.free@[d]@[q];
            assert(in_class_chunk(pre.chunks@, d, pre.free@[d]@[q]));
            let k = choose|k: int| 0 <= k < pre.chunks@.len() && pre.chunks@[k].class == d && #[trigger] on_grid(pre.chunks@[k], x as int);
            assert(on_grid(ch[k], x as int));
        }
        assert forall|c: int|
            0 <= c < NUM_CLASSES implies match #[trigger] self.open@[c] {
                Some(j) => j < ch.len() && ch[j as int].class == c,
                None => true,
            } by {
            assert(pre.open@[c] == self.open@[c]);
        }
        assert forall|q: usize, k: int|
            #![trigger self.large@.contains_key(q), ch[k]]
            self.large@.contains_key(q) && 0 <= k < ch.len() implies !(ch[k].base <= q < ch[k].base
                + CHUNK_SIZE) by {
            assert(ch[k].base == pre.chunks@[k].base);
            assert(!(pre.chunks@[k].base <= q < pre.chunks@[k].base + CHUNK_SIZE));
        }
        assert forall|q: usize| #[trigger] self.dead@.contains(q) <==> self.is_free(q) by {
            assert(pre.dead@.contains(q) <==> pre.is_free(q));
        }
        assert forall|k: int| 0 <= k < ch.len() implies (#[trigger] ch[k]).class < NUM_CLASSES && ch[k].bump
                <= blocks_in_chunk(ch[k].class as int) && ch[k].base + CHUNK_SIZE <= usize::MAX by {
            assert(pre.chunks@[k].class < NUM_CLASSES);
        }
    }
}

/// What `release` did.
#[derive(Debug, Clone, Copy, PartialEq, Eq)]
pub enum Released {
    /// A live block went onto the free list of this class; the caller
    /// marks its header dead.
    Block(usize),
    /// A large allocation's record was dropped; the caller returns its
    /// system block.
    Large(LargeRecord),
    /// Nothing live was there: dead, free-listed or unknown.
    Nothing,
}

impl Arena {
    /// `addr` is live.
    pub fn is_live(&self, addr: usize) -> (r: bool)
        requires
            self.wf(),
        ensures
            r == self.live(addr),
    {
        match self.lookup_block(addr) {
            Some(ci) => {
                proof {
                    self.lemma_grid_owner(ci as int, addr as int);
                    assert(self.is_block(addr as int));
                    assert(self.dead@.contains(addr) <==> self.is_free(addr));
                }
                !self.dead.contains(&addr)
            },
            None => self.large.contains_key(&addr),
        }
    }

    /// Records a large allocation at `payload`, a fresh system block apart
    /// from every chunk.
    pub fn register_large(&mut self, payload: usize, rec: LargeRecord)
        requires
            old(self).wf(),
            !old(self).large_records().contains_key(payload),
            forall|i: int|
                0 <= i < old(self).chunk_list().len() ==> !((#[trigger] old(self).chunk_list()[i]).base
                    <= payload < old(self).chunk_list()[i].base + CHUNK_SIZE),
        ensures
            final(self).wf(),
            final(self).large_records() == old(self).large_records().insert(payload, rec),
            final(self).chunk_list() == old(self).chunk_list(),
            final(self).free_lists() == old(self).free_lists(),
            final(self).open_chunks() == old(self).open_chunks(),
            !old(self).live(payload),
            forall|q: usize| #[trigger] final(self).live(q) <==> old(self).live(q) || q == payload,
    {
        let ghost pre = *self;
        self.large.insert(payload, rec);
        proof {
            assert(!pre.is_block(payload as int));
            let ch = self.chunks@;
            assert forall|q: usize, k: int|
                #![trigger self.large@.contains_key(q), ch[k]]
                self.large@.contains_key(q) && 0 <= k < ch.len() implies !(ch[k].base <= q < ch[k].base
                    + CHUNK_SIZE) by {
                if q == payload {
                    assert(pre.chunk_list()[k] == ch[k]);
                } else {
                    assert(pre.large@.contains_key(q));
                }
            }
            assert forall|q: usize| #[trigger] self.live(q) <==> pre.live(q) || q == payload by {
                assert(self.chunk_list() == pre.chunk_list());
                assert(self.free_lists() == pre.free_lists());
                assert(self.is_block(q as int) == pre.is_block(q as int));
                assert(self.is_free(q) == pre.is_free(q));
            }
            assert forall|q: usize| #[trigger] self.dead@.contains(q) <==> self.is_free(q) by {
                assert(self.free_lists() == pre.free_lists());
                assert(pre.dead@.contains(q) <==> pre.is_free(q));
            }
        }
    }

    /// Releases the live allocation at `payload`: a classed block goes on
    /// its class's free list (reused first), a large record is dropped.
    /// Anything not live is left alone.
    pub fn release(&mut self, payload: usize) -> (r: Released)
        requires
            old(self).wf(),
        ensures
            final(self).wf(),
            final(self).chunk_list() == old(self).chunk_list(),
            final(self).open_chunks() == old(self).open_chunks(),
            r is Nothing <==> !old(self).live(payload),
            forall|q: usize| #[trigger] final(self).live(q) <==> old(self).live(q) && q != payload,
            match r {
                Released::Block(c) => {
                    &&& c < NUM_CLASSES
                    &&& exists|i: int|
                        0 <= i < old(self).chunk_list().len() && (#[trigger] old(self).chunk_list()[i]).class == c
                            && on_grid(old(self).chunk_list()[i], payload as int)
                    &&& final(self).free_lists() == old(self).free_lists().update(
                        c as int,
                        old(self).free_lists()[c as int].push(payload),
                    )
                    &&& final(self).large_records() == old(self).large_records()
                },
                Released::Large(rec) => {
                    &&& old(self).large_records().contains_key(payload)
                    &&& rec == old(self).large_records()[payload]
                    &&& final(self).large_records() == old(self).large_records().remove(payload)
                    &&& final(self).free_lists() == old(self).free_lists()
                },
                Released::Nothing => {
                    &&& final(self).free_lists() == old(self).free_lists()
                    &&& final(self).large_records() == old(self).large_records()
                },
            },
    {
        let ghost pre = *self;
        match self.lookup_block(payload) {
            Some(ci) => {
                proof {
                    pre.lemma_grid_owner(ci as int, payload as int);
                    assert(pre.is_block(payload as int));
                    assert(pre.dead@.contains(payload) <==> pre.is_free(payload));
                }
                if self.dead.contains(&payload) {
                    return Released::Nothing;
                }
                let c = self.chunks[ci].class;
                self.free[c].push(payload);
                self.dead.insert(payload);
                proof {
                    assert(self.free_lists() =~= pre.free_lists().update(
                        c as int,
                        pre.free_lists()[c as int].push(payload),
                    ));
                    self.lemma_push_keeps(pre, ci as int, payload);
                }
                Released::Block(c)
            },
            None => {
                if !self.large.contains_key(&payload) {
                    return Released::Nothing;
                }
                match self.large.remove(&payload) {
                    Some(rec) => {
                        proof {
                            assert forall|q: usize| #[trigger] self.live(q) <==> pre.live(q) && q != payload by {
                                assert(self.chunk_list() == pre.chunk_list());
                                assert(self.free_lists() == pre.free_lists());
                                assert(self.is_block(q as int) == pre.is_block(q as int));
                                assert(self.is_free(q) == pre.is_free(q));
                            }
                            let ch = self.chunks@;
                            assert forall|q: usize, k: int|
                                #![trigger self.large@.contains_key(q), ch[k]]
                                self.large@.contains_key(q) && 0 <= k < ch.len() implies !(ch[k].base <= q
                                    < ch[k].base + CHUNK_SIZE) by {
                                assert(pre.large@.contains_key(q));
                            }
                            assert forall|q: usize| #[trigger] self.dead@.contains(q) <==> self.is_free(q) by {
                                assert(self.free_lists() == pre.free_lists());
                                assert(pre.dead@.contains(q) <==> pre.is_free(q));
                            }
                        }
                        Released::Large(rec)
                    },
                    None => Released::Nothing,
                }
            },
        }
    }

    /// Pushing the live block `p` of chunk `i` onto its class's free list
    /// keeps the records well formed and makes `p`, and only `p`, dead.
    proof fn lemma_push_keeps(&self, pre: Arena, i: int, p: usize)
        requires
            pre.wf(),
            0 <= i < pre.chunks@.len(),
            on_grid(pre.chunks@[i], p as int),
            !pre.is_free(p),
            self.chunks@ == pre.chunks@,
            self.order@ == pre.order@,
            self.open@ == pre.open@,
            self.large@ == pre.large@,
            self.free@.len() == NUM_CLASSES,
            self.free@[pre.chunks@[i].class as int]@ == pre.free@[pre.chunks@[i].class as int]@.push(p),
            forall|d: int|
                0 <= d < NUM_CLASSES && d != pre.chunks@[i].class ==> #[trigger] self.free@[d]@ == pre.free@[d]@,
            self.dead@ == pre.dead@.insert(p),
        ensures
            self.wf(),
            forall|q: usize| #[trigger] self.live(q) <==> pre.live(q) && q != p,
            forall|q: usize| #[trigger] self.is_free(q) <==> pre.is_free(q) || q == p,
    {
        let c = pre.chunks@[i].class as int;
        assert(pre.chunk_list()[i] == pre.chunks@[i]);
        pre.lemma_grid_owner(i, p as int);
        assert forall|q: usize| #[trigger] self.is_free(q) <==> pre.is_free(q) || q == p by {
            if self.is_free(q) {
                let d = choose|d: int| 0 <= d < self.free_lists().len() && (#[trigger] self.free_lists()[d]).contains(q);
                assert(self.free_lists()[d] == self.free@[d]@);
                assert(pre.free_lists()[d] == pre.free@[d]@);
                if d == c && q != p {
                    let j = choose|j: int| 0 <= j < self.free@[c]@.len() && self.free@[c]@[j] == q;
                    assert(pre.free@[c]@[j] == q);
                    assert(pre.free@[c]@.contains(q));
                } else if d != c {
                    assert(pre.free@[d]@.contains(q));
                }
            }
            if pre.is_free(q) {
                let d = choose|d: int| 0 <= d < pre.free_lists().len() && (#[trigger] pre.free_lists()[d]).contains(q);
                assert(self.free_lists()[d] == self.free@[d]@);
                assert(pre.free_lists()[d] == pre.free@[d]@);
                if d == c {
                    let j = choose|j: int| 0 <= j < pre.free@[c]@.len() && pre.free@[c]@[j] == q;
                    assert(self.free@[c]@[j] == q);
                    assert(self.free@[c]@.contains(q));
                } else {
                    assert(self.free@[d]@ == pre.free@[d]@);
                }
            }
            if q == p {
                assert(self.free_lists()[c] == self.free@[c]@);
                assert(self.free@[c]@.last() == p);
                assert(self.free@[c]@.contains(p));
            }
        }
        assert forall|q: usize| #[trigger] self.live(q) <==> pre.live(q) && q != p by {
            assert(self.chunk_list() == pre.chunk_list());
            assert(self.is_block(q as int) == pre.is_block(q as int));
            assert(self.is_free(q) <==> pre.is_free(q) || q == p);
            if q == p {
                assert(!pre.large@.contains_key(p));
            }
        }
        // well-formedness of the longer list
        assert forall|d: int, q: int|
            0 <= d < NUM_CLASSES && 0 <= q < self.free@[d]@.len() implies in_class_chunk(
            self.chunks@,
            d,
            #[trigger] self.free@[d]@[q],
        ) by {
            if d == c && q == self.free@[c]@.len() - 1 {
                assert(self.free@[c]@[q] == p);
                assert(on_grid(self.chunks@[i], p as int));
            } else {
                if d == c {
                    assert(self.free@[c]@[q] == pre.free@[c]@[q]);
                }
                assert(in_class_chunk(pre.chunks@, d, pre.free@[d]@[q]));
            }
        }
        assert(!pre.free@[c]@.contains(p)) by {
            if pre.free@[c]@.contains(p) {
                assert(pre.free_lists()[c] == pre.free@[c]@);
            }
        }
        assert forall|d: int| 0 <= d < NUM_CLASSES implies (#[trigger] self.free@[d])@.no_duplicates() by {
            if d == c {
                assert(pre.free@[c]@.no_duplicates());
                assert forall|x: int, y: int| 0 <= x < y < self.free@[c]@.len() implies self.free@[c]@[x] != self.free@[c]@[y] by {
                    if y == self.free@[c]@.len() - 1 {
                        assert(self.free@[c]@[x] == pre.free@[c]@[x]);
                    } else {
                        assert(self.free@[c]@[x] == pre.free@[c]@[x]);
                        assert(self.free@[c]@[y] == pre.free@[c]@[y]);
                    }
                }
            } else {
                assert(self.free@[d]@ == pre.free@[d]@);
            }
        }
        assert forall|d: int, e: int, q: usize|
            #![trigger self.free@[d]@.contains(q), self.free@[e]@.contains(q)]
            0 <= d < e < NUM_CLASSES implies !(self.free@[d]@.contains(q) && self.free@[e]@.contains(q)) by {
            if self.free@[d]@.contains(q) && self.free@[e]@.contains(q) {
                let jd = choose|j: int| 0 <= j < self.free@[d]@.len() && self.free@[d]@[j] == q;
                let je = choose|j: int| 0 <= j < self.free@[e]@.len() && self.free@[e]@[j] == q;
                if q == p {
                    // p sits on no other list
                    if d != c {
                        assert(pre.free@[d]@ == self.free@[d]@);
                        assert(pre.free_lists()[d] == pre.free@[d]@);
                        assert(pre.free_lists()[d].contains(p));
                    } else {
                        assert(pre.free@[e]@ == self.free@[e]@);
                        assert(pre.free_lists()[e] == pre.free@[e]@);
                        assert(pre.free_lists()[e].contains(p));
                    }
                } else {
                    if d == c {
                        assert(jd < pre.free@[c]@.len());
                        assert(pre.free@[d]@[jd] == q);
                    } else {
                        assert(self.free@[d]@ == pre.free@[d]@);
                    }
                    if e == c {
                        assert(je < pre.free@[c]@.len());
                        assert(pre.free@[e]@[je] == q);
                    } else {
                        assert(self.free@[e]@ == pre.free@[e]@);
                    }
                    assert(pre.free@[d]@.contains(q));
                    assert(pre.free@[e]@.contains(q));
                }
            }
        }
        assert forall|q: usize| #[trigger] self.dead@.contains(q) <==> self.is_free(q) by {
            assert(pre.dead@.contains(q) <==> pre.is_free(q));
        }
    }
}

/// Chunk `ch` with its watermark at `b` blocks.
pub open spec fn with_bump(ch: ChunkRecord, b: int) -> ChunkRecord {
    ChunkRecord { bump: b as usize, ..ch }
}

/// Raising a watermark by one block adds exactly that block's payload to
/// the grid.
proof fn lemma_grid_step(ch: ChunkRecord, b: int)
    requires
        0 <= b < blocks_in_chunk(ch.class as int),
        ch.class < NUM_CLASSES,
        b + 1 <= usize::MAX,
    ensures
        on_grid(with_bump(ch, b + 1), payload_at(ch, b)),
        !on_grid(with_bump(ch, b), payload_at(ch, b)),
        forall|q: int| #[trigger] on_grid(with_bump(ch, b + 1), q) <==> on_grid(with_bump(ch, b), q) || q == payload_at(ch, b),
{
    let next = with_bump(ch, b + 1);
    lemma_grid(next, b);
    let bs = block_bytes(ch.class as int);
    assert forall|q: int| #[trigger] on_grid(next, q) <==> on_grid(with_bump(ch, b), q) || q == payload_at(ch, b) by {
        if on_grid(next, q) && !on_grid(with_bump(ch, b), q) {
            let off = q - ch.base - HEADER_SIZE;
            vstd::arithmetic::div_mod::lemma_fundamental_div_mod(off, bs);
            assert(off == bs * b);
            assert(b * bs == bs * b) by (nonlinear_arith);
        }
    }
}

impl Arena {
    /// The live addresses.
    pub open spec fn live_set(&self) -> Set<usize> {
        Set::new(|p: usize| self.live(p))
    }

    /// Every live address, once each, chunk by chunk in grid order and
    /// then the large allocations, with the size of each.
    fn live_addresses(&self) -> (out: (Vec<usize>, Vec<usize>))
        requires
            self.wf(),
        ensures
            out.0@.no_duplicates(),
            forall|q: usize| #[trigger] out.0@.contains(q) <==> self.live(q),
            out.1@.len() == out.0@.len(),
            forall|i: int| 0 <= i < out.0@.len() ==> out.1@[i] == self.live_size(#[trigger] out.0@[i]),
    {
        let mut r: Vec<usize> = Vec::new();
        let mut sizes: Vec<usize> = Vec::new();
        let n = self.chunks.len();
        let mut ci: usize = 0;
        while ci < n
            invariant
                self.wf(),
                n == self.chunks@.len(),
                ci <= n,
                r@.no_duplicates(),
                sizes@.len() == r@.len(),
                forall|i: int| 0 <= i < r@.len() ==> sizes@[i] == self.live_size(#[trigger] r@[i]),
                forall|q: usize| #[trigger] r@.contains(q) <==> !self.is_free(q) && exists|k: int|
                    0 <= k < ci && on_grid(#[trigger] self.chunks@[k], q as int),
            decreases n - ci,
        {
            let ch = self.chunks[ci];
            let bs = class_block_bytes(ch.class);
            let mut b: usize = 0;
            while b < ch.bump
                invariant
                    self.wf(),
                    n == self.chunks@.len(),
                    ci < n,
                    ch == self.chunks@[ci as int],
                    bs == block_bytes(ch.class as int),
                    b <= ch.bump,
                    r@.no_duplicates(),
                    sizes@.len() == r@.len(),
                    forall|i: int| 0 <= i < r@.len() ==> sizes@[i] == self.live_size(#[trigger] r@[i]),
                sizes@.len() == r@.len(),
                forall|i: int| 0 <= i < r@.len() ==> sizes@[i] == self.live_size(#[trigger] r@[i]),
                    forall|q: usize| #[trigger] r@.contains(q) <==> !self.is_free(q) && ((exists|k: int|
                        0 <= k < ci && on_grid(#[trigger] self.chunks@[k], q as int)) || on_grid(
                        with_bump(ch, b as int),
                        q as int,
                    )),
                decreases ch.bump - b,
            {
                proof {
                    lemma_grid_step(ch, b as int);
                    lemma_grid(ch, b as int);
                    self.lemma_grid_owner(ci as int, payload_at(ch, b as int));
                }
                let p = ch.base + HEADER_SIZE + b * bs;
                let ghost before = r@;
                if !self.dead.contains(&p) {
                    proof {
                        assert(self.dead@.contains(p) <==> self.is_free(p));
                        assert(!r@.contains(p)) by {
                            if r@.contains(p) {
                                if exists|k: int| 0 <= k < ci && on_grid(#[trigger] self.chunks@[k], p as int) {
                                    let k = choose|k: int| 0 <= k < ci && on_grid(#[trigger] self.chunks@[k], p as int);
                                    assert(self.chunk_list()[k] == self.chunks@[k]);
                                }
                            }
                        }
                        super::heap::lemma_push_distinct(r@, p);
                        self.lemma_block_size(ci as int, p);
                    }
                    r.push(p);
                    sizes.push(bs - HEADER_SIZE);
                }
                b = b + 1;
                proof {
                    assert forall|q: usize| #[trigger] r@.contains(q) <==> !self.is_free(q) && ((exists|k: int|
                        0 <= k < ci && on_grid(#[trigger] self.chunks@[k], q as int)) || on_grid(
                        with_bump(ch, b as int),
                        q as int,
                    )) by {
                        assert(on_grid(with_bump(ch, b as int), q as int) <==> on_grid(with_bump(ch, (b - 1) as int), q as int) || q as int == payload_at(ch, (b - 1) as int));
                        assert(self.dead@.contains(q) <==> self.is_free(q));
                        assert(r@ == before || r@ == before.push(p));
                        assert(r@ == before.push(p) ==> (r@.contains(q) <==> before.contains(q) || q == p));
                    }
                }
            }
            ci = ci + 1;
            proof {
                assert(with_bump(ch, b as int) == ch);
                assert forall|q: usize| #[trigger] r@.contains(q) <==> !self.is_free(q) && exists|k: int|
                    0 <= k < ci && on_grid(#[trigger] self.chunks@[k], q as int) by {
                    if exists|k: int| 0 <= k < ci && on_grid(#[trigger] self.chunks@[k], q as int) {
                        let k = choose|k: int| 0 <= k < ci && on_grid(#[trigger] self.chunks@[k], q as int);
                        if k < ci - 1 {
                            assert(exists|k2: int| 0 <= k2 < ci - 1 && on_grid(#[trigger] self.chunks@[k2], q as int));
                        }
                    }
                }
            }
        }
        let keys = super::heap::live_keys(&self.large);
        let mut j: usize = 0;
        proof {
            assert forall|q: usize| #[trigger] r@.contains(q) <==> (!self.is_free(q) && self.is_block(q as int))
                || keys@.take(0).contains(q) by {
                if self.is_block(q as int) {
                    let i = choose|i: int| 0 <= i < self.chunk_list().len() && on_grid(#[trigger] self.chunk_list()[i], q as int);
                    assert(on_grid(self.chunks@[i], q as int));
                }
                if exists|k: int| 0 <= k < n && on_grid(#[trigger] self.chunks@[k], q as int) {
                    let k = choose|k: int| 0 <= k < n && on_grid(#[trigger] self.chunks@[k], q as int);
                    assert(on_grid(self.chunk_list()[k], q as int));
                }
            }
        }
        while j < keys.len()
            invariant
                self.wf(),
                n == self.chunks@.len(),
                j <= keys@.len(),
                keys@.to_set() == self.large@.dom(),
                keys@.no_duplicates(),
                r@.no_duplicates(),
                sizes@.len() == r@.len(),
                forall|i: int| 0 <= i < r@.len() ==> sizes@[i] == self.live_size(#[trigger] r@[i]),
                forall|q: usize| #[trigger] r@.contains(q) <==> (!self.is_free(q) && self.is_block(q as int))
                    || keys@.take(j as int).contains(q),
            decreases keys@.len() - j,
        {
            let k = keys[j];
            proof {
                assert(keys@.to_set().contains(k));
                assert(self.large@.contains_key(k));
                assert(!self.is_block(k as int)) by {
                    if self.is_block(k as int) {
                        let i = choose|i: int| 0 <= i < self.chunk_list().len() && on_grid(#[trigger] self.chunk_list()[i], k as int);
                        assert(self.chunks@[i] == self.chunk_list()[i]);
                        assert(!(self.chunks@[i].base <= k < self.chunks@[i].base + CHUNK_SIZE));
                    }
                }
                assert(!keys@.take(j as int).contains(k)) by {
                    if keys@.take(j as int).contains(k) {
                        let x = choose|x: int| 0 <= x < j && keys@.take(j as int)[x] == k;
                        assert(keys@[x] == keys@[j as int]);
                    }
                }
                assert(keys@.take(j + 1) =~= keys@.take(j as int).push(k));
                assert(!r@.contains(k)) by {
                    if r@.contains(k) {
                        assert(self.is_block(k as int));
                    }
                }
                super::heap::lemma_push_distinct(r@, k);
                super::heap::lemma_push_distinct(keys@.take(j as int), k);
            }
            let rec = self.large.get(&k).unwrap();
            r.push(k);
            sizes.push(rec.payload_size);
            j = j + 1;
        }
        proof {
            assert(keys@.take(j as int) =~= keys@);
            assert forall|q: usize| #[trigger] r@.contains(q) <==> self.live(q) by {
                assert(keys@.contains(q) <==> keys@.to_set().contains(q));
            }
        }
        (r, sizes)
    }

    /// The size of a live allocation: the payload capacity of its block's
    /// class, or a large allocation's requested size.
    pub open spec fn live_size(&self, p: usize) -> int {
        if self.large_records().contains_key(p) {
            self.large_records()[p].payload_size as int
        } else {
            let i = choose|i: int| 0 <= i < self.chunk_list().len() && on_grid(#[trigger] self.chunk_list()[i], p as int);
            block_bytes(self.chunk_list()[i].class as int) - HEADER_SIZE
        }
    }

    /// A block's size is its chunk's class capacity.
    proof fn lemma_block_size(&self, ci: int, p: usize)
        requires
            self.wf(),
            0 <= ci < self.chunk_list().len(),
            on_grid(self.chunk_list()[ci], p as int),
        ensures
            self.live_size(p) == block_bytes(self.chunk_list()[ci].class as int) - HEADER_SIZE,
    {
        self.lemma_grid_owner(ci, p as int);
        let i = choose|i: int| 0 <= i < self.chunk_list().len() && on_grid(#[trigger] self.chunk_list()[i], p as int);
        assert(i == ci);
    }

    /// Every live allocation, once, with its size: the blocks chunk by
    /// chunk in grid order, then the large allocations.
    pub fn live_allocations(&self) -> (r: Vec<(usize, usize)>)
        requires
            self.wf(),
        ensures
            forall|i: int, j: int| 0 <= i < j < r@.len() ==> (#[trigger] r@[i]).0 != (#[trigger] r@[j]).0,
            forall|q: usize| self.live(q) <==> exists|i: int| 0 <= i < r@.len() && (#[trigger] r@[i]).0 == q,
            forall|i: int| 0 <= i < r@.len() ==> (#[trigger] r@[i]).1 == self.live_size(r@[i].0),
    {
        let (addrs, sizes) = self.live_addresses();
        let mut r: Vec<(usize, usize)> = Vec::new();
        let mut i: usize = 0;
        while i < addrs.len()
            invariant
                i <= addrs@.len(),
                sizes@.len() == addrs@.len(),
                r@.len() == i,
                forall|k: int| 0 <= k < i ==> (#[trigger] r@[k]) == (addrs@[k], sizes@[k]),
            decreases addrs@.len() - i,
        {
            r.push((addrs[i], sizes[i]));
            i = i + 1;
        }
        proof {
            assert forall|a: int, b: int| 0 <= a < b < r@.len() implies (#[trigger] r@[a]).0 != (#[trigger] r@[b]).0 by {
                assert(r@[a].0 == addrs@[a] && r@[b].0 == addrs@[b]);
            }
            assert forall|q: usize| self.live(q) <==> exists|k: int| 0 <= k < r@.len() && (#[trigger] r@[k]).0 == q by {
                if self.live(q) {
                    assert(addrs@.contains(q));
                    let k = choose|k: int| 0 <= k < addrs@.len() && addrs@[k] == q;
                    assert(r@[k].0 == q);
                }
                if exists|k: int| 0 <= k < r@.len() && (#[trigger] r@[k]).0 == q {
                    let k = choose|k: int| 0 <= k < r@.len() && (#[trigger] r@[k]).0 == q;
                    assert(addrs@[k] == q);
                    assert(addrs@.contains(q));
                }
            }
            assert forall|k: int| 0 <= k < r@.len() implies (#[trigger] r@[k]).1 == self.live_size(r@[k].0) by {
                assert(r@[k] == (addrs@[k], sizes@[k]));
            }
        }
        r
    }

    /// The number of live allocations.
    pub fn live_count(&self) -> (r: usize)
        requires
            self.wf(),
        ensures
            r == self.live_set().len(),
    {
        let (all, _) = self.live_addresses();
        proof {
            all@.unique_seq_to_set();
            assert(all@.to_set() =~= self.live_set());
        }
        all.len()
    }
}

impl Arena {
    /// Sweeps the chunk grids: every live block not in `marked` joins its
    /// class's free list, chunk by chunk in grid order; the swept blocks
    /// are returned in that order.
    fn sweep_blocks(&mut self, marked: &HashSet<usize>) -> (swept: Vec<usize>)
        requires
            old(self).wf(),
        ensures
            final(self).wf(),
            final(self).chunks@ == old(self).chunks@,
            final(self).open@ == old(self).open@,
            final(self).large@ == old(self).large@,
            swept@.no_duplicates(),
            forall|q: usize| #[trigger] swept@.contains(q) <==> old(self).is_block(q as int) && old(self).live(q)
                && !marked@.contains(q),
            forall|q: usize| #[trigger] final(self).live(q) <==> old(self).live(q) && !swept@.contains(q),
            forall|q: usize| #[trigger] final(self).is_free(q) <==> old(self).is_free(q) || swept@.contains(q),
    {
        let ghost pre = *self;
        let mut swept: Vec<usize> = Vec::new();
        let n = self.chunks.len();
        let mut ci: usize = 0;
        while ci < n
            invariant
                self.wf(),
                pre.wf(),
                self.chunks@ == pre.chunks@,
                self.order@ == pre.order@,
                self.open@ == pre.open@,
                self.large@ == pre.large@,
                n == self.chunks@.len(),
                ci <= n,
                swept@.no_duplicates(),
                forall|q: usize| #[trigger] swept@.contains(q) <==> pre.live(q) && !marked@.contains(q) && exists|k: int|
                    0 <= k < ci && on_grid(#[trigger] pre.chunks@[k], q as int),
                forall|q: usize| #[trigger] self.live(q) <==> pre.live(q) && !swept@.contains(q),
                forall|q: usize| #[trigger] self.is_free(q) <==> pre.is_free(q) || swept@.contains(q),
            decreases n - ci,
        {
            let ch = self.chunks[ci];
            let bs = class_block_bytes(ch.class);
            let mut b: usize = 0;
            while b < ch.bump
                invariant
                    self.wf(),
                    pre.wf(),
                    self.chunks@ == pre.chunks@,
                    self.order@ == pre.order@,
                    self.open@ == pre.open@,
                    self.large@ == pre.large@,
                    n == self.chunks@.len(),
                    ci < n,
                    ch == self.chunks@[ci as int],
                    bs == block_bytes(ch.class as int),
                    b <= ch.bump,
                    swept@.no_duplicates(),
                    forall|q: usize| #[trigger] swept@.contains(q) <==> pre.live(q) && !marked@.contains(q) && ((
                    exists|k: int| 0 <= k < ci && on_grid(#[trigger] pre.chunks@[k], q as int)) || on_grid(
                        with_bump(ch, b as int),
                        q as int,
                    )),
                    forall|q: usize| #[trigger] self.live(q) <==> pre.live(q) && !swept@.contains(q),
                    forall|q: usize| #[trigger] self.is_free(q) <==> pre.is_free(q) || swept@.contains(q),
                decreases ch.bump - b,
            {
                proof {
                    lemma_grid_step(ch, b as int);
                    lemma_grid(ch, b as int);
                    self.lemma_grid_owner(ci as int, payload_at(ch, b as int));
                }
                let p = ch.base + HEADER_SIZE + b * bs;
                let ghost before = swept@;
                let ghost mid = *self;
                proof {
                    assert(!swept@.contains(p)) by {
                        if swept@.contains(p) {
                            if exists|k: int| 0 <= k < ci && on_grid(#[trigger] pre.chunks@[k], p as int) {
                                let k = choose|k: int| 0 <= k < ci && on_grid(#[trigger] pre.chunks@[k], p as int);
                                assert(self.chunk_list()[k] == pre.chunks@[k]);
                            }
                        }
                    }
                    assert(self.is_block(p as int)) by {
                        assert(on_grid(self.chunk_list()[ci as int], p as int));
                    }
                    assert(self.dead@.contains(p) <==> self.is_free(p));
                }
                if !self.dead.contains(&p) && !marked.contains(&p) {
                    let c = ch.class;
                    self.free[c].push(p);
                    self.dead.insert(p);
                    proof {
                        self.lemma_push_keeps(mid, ci as int, p);
                        super::heap::lemma_push_distinct(swept@, p);
                    }
                    swept.push(p);
                }
                b = b + 1;
                proof {
                    assert forall|q: usize| #[trigger] swept@.contains(q) <==> pre.live(q) && !marked@.contains(q) && ((
                    exists|k: int| 0 <= k < ci && on_grid(#[trigger] pre.chunks@[k], q as int)) || on_grid(
                        with_bump(ch, b as int),
                        q as int,
                    )) by {
                        assert(on_grid(with_bump(ch, b as int), q as int) <==> on_grid(with_bump(ch, (b - 1) as int), q as int) || q as int == payload_at(ch, (b - 1) as int));
                        assert(swept@ == before || swept@ == before.push(p));
                        if q == p {
                            assert(mid.live(p) <==> pre.live(p));
                            assert(mid.live(p) <==> !mid.is_free(p));
                        }
                    }
                }
            }
            ci = ci + 1;
            proof {
                assert(with_bump(ch, b as int) == ch);
                assert forall|q: usize| #[trigger] swept@.contains(q) <==> pre.live(q) && !marked@.contains(q) && exists|k: int|
                    0 <= k < ci && on_grid(#[trigger] pre.chunks@[k], q as int) by {
                    if exists|k: int| 0 <= k < ci && on_grid(#[trigger] pre.chunks@[k], q as int) {
                        let k = choose|k: int| 0 <= k < ci && on_grid(#[trigger] pre.chunks@[k], q as int);
                        if k < ci - 1 {
                            assert(exists|k2: int| 0 <= k2 < ci - 1 && on_grid(#[trigger] pre.chunks@[k2], q as int));
                        }
                    }
                }
            }
        }
        proof {
            assert forall|q: usize| #[trigger] swept@.contains(q) <==> pre.is_block(q as int) && pre.live(q)
                && !marked@.contains(q) by {
                if pre.is_block(q as int) {
                    let i = choose|i: int| 0 <= i < pre.chunk_list().len() && on_grid(#[trigger] pre.chunk_list()[i], q as int);
                    assert(on_grid(pre.chunks@[i], q as int));
                }
                if exists|k: int| 0 <= k < n && on_grid(#[trigger] pre.chunks@[k], q as int) {
                    let k = choose|k: int| 0 <= k < n && on_grid(#[trigger] pre.chunks@[k], q as int);
                    assert(on_grid(pre.chunk_list()[k], q as int));
                }
            }
        }
        swept
    }
}

/// What a collection freed.
pub struct ArenaSweep {
    /// Blocks that joined the free lists, chunk by chunk in grid order;
    /// the caller marks their headers dead.
    pub blocks: Vec<usize>,
    /// Large allocations dropped, with their records; the caller returns
    /// their system blocks.
    pub large: Vec<(usize, LargeRecord)>,
}

impl Arena {
    /// Drops every large allocation not in `marked`.
    fn sweep_large(&mut self, marked: &HashSet<usize>) -> (freed: Vec<(usize, LargeRecord)>)
        requires
            old(self).wf(),
        ensures
            final(self).wf(),
            final(self).chunks@ == old(self).chunks@,
            final(self).open@ == old(self).open@,
            final(self).free@ == old(self).free@,
            forall|a: usize| #[trigger] final(self).large@.contains_key(a) <==> old(self).large@.contains_key(a)
                && marked@.contains(a),
            forall|a: usize| #[trigger] final(self).large@.contains_key(a) ==> final(self).large@[a] == old(self).large@[a],
            forall|i: int| 0 <= i < freed@.len() ==> old(self).large@.contains_key((#[trigger] freed@[i]).0)
                && !marked@.contains(freed@[i].0) && freed@[i].1 == old(self).large@[freed@[i].0],
            forall|a: usize| old(self).large@.contains_key(a) && !marked@.contains(a) ==> exists|i: int|
                0 <= i < freed@.len() && (#[trigger] freed@[i]).0 == a,
            forall|i: int, j: int| 0 <= i < j < freed@.len() ==> (#[trigger] freed@[i]).0 != (#[trigger] freed@[j]).0,
            forall|q: usize| #[trigger] final(self).live(q) <==> old(self).live(q) && !(old(self).large@.contains_key(q)
                && !marked@.contains(q)),
    {
        let ghost pre = *self;
        let keys = super::heap::live_keys(&self.large);
        let mut freed: Vec<(usize, LargeRecord)> = Vec::new();
        let mut j: usize = 0;
        while j < keys.len()
            invariant
                self.wf(),
                pre.wf(),
                self.chunks@ == pre.chunks@,
                self.order@ == pre.order@,
                self.open@ == pre.open@,
                self.free@ == pre.free@,
                self.dead@ == pre.dead@,
                j <= keys@.len(),
                keys@.to_set() == pre.large@.dom(),
                keys@.no_duplicates(),
                forall|a: usize| #[trigger] self.large@.contains_key(a) <==> pre.large@.contains_key(a)
                    && (keys@.take(j as int).contains(a) ==> marked@.contains(a)),
                forall|a: usize| #[trigger] self.large@.contains_key(a) ==> self.large@[a] == pre.large@[a],
                forall|i: int| 0 <= i < freed@.len() ==> pre.large@.contains_key((#[trigger] freed@[i]).0)
                    && !marked@.contains(freed@[i].0) && freed@[i].1 == pre.large@[freed@[i].0]
                    && keys@.take(j as int).contains(freed@[i].0),
                forall|a: usize| keys@.take(j as int).contains(a) && !marked@.contains(a) ==> exists|i: int|
                    0 <= i < freed@.len() && (#[trigger] freed@[i]).0 == a,
                forall|i: int, k: int| 0 <= i < k < freed@.len() ==> (#[trigger] freed@[i]).0 != (#[trigger] freed@[k]).0,
            decreases keys@.len() - j,
        {
            let k = keys[j];
            proof {
                assert(keys@.to_set().contains(k));
                assert(keys@.take(j + 1) =~= keys@.take(j as int).push(k));
                assert(!keys@.take(j as int).contains(k)) by {
                    if keys@.take(j as int).contains(k) {
                        let x = choose|x: int| 0 <= x < j && keys@.take(j as int)[x] == k;
                        assert(keys@[x] == keys@[j as int]);
                    }
                }
                super::heap::lemma_push_distinct(keys@.take(j as int), k);
            }
            if !marked.contains(&k) {
                let ghost mid = *self;
                let ghost fr = freed@;
                let rec = self.large.remove(&k).unwrap();
                freed.push((k, rec));
                proof {
                    let ch = self.chunks@;
                    assert forall|q: usize, x: int|
                        #![trigger self.large@.contains_key(q), ch[x]]
                        self.large@.contains_key(q) && 0 <= x < ch.len() implies !(ch[x].base <= q
                            < ch[x].base + CHUNK_SIZE) by {
                        assert(mid.large@.contains_key(q));
                    }
                    assert forall|q: usize| #[trigger] self.dead@.contains(q) <==> self.is_free(q) by {
                        assert(self.free_lists() == mid.free_lists());
                        assert(mid.dead@.contains(q) <==> mid.is_free(q));
                    }
                    assert forall|a: usize| keys@.take(j + 1).contains(a) && !marked@.contains(a) implies exists|i: int|
                        0 <= i < freed@.len() && (#[trigger] freed@[i]).0 == a by {
                        if a == k {
                            assert(freed@[fr.len() as int].0 == k);
                        } else {
                            let i = choose|i: int| 0 <= i < fr.len() && (#[trigger] fr[i]).0 == a;
                            assert(freed@[i] == fr[i]);
                        }
                    }
                    assert forall|i: int| 0 <= i < freed@.len() implies keys@.take(j + 1).contains((#[trigger] freed@[i]).0) by {
                        if i < fr.len() {
                            assert(freed@[i] == fr[i]);
                        }
                    }
                }
            } else {
                proof {
                    assert forall|i: int| 0 <= i < freed@.len() implies keys@.take(j + 1).contains((#[trigger] freed@[i]).0) by {
                    }
                }
            }
            j = j + 1;
        }
        proof {
            assert(keys@.take(j as int) =~= keys@);
            assert forall|a: usize| pre.large@.contains_key(a) && !marked@.contains(a) implies exists|i: int|
                0 <= i < freed@.len() && (#[trigger] freed@[i]).0 == a by {
                assert(keys@.to_set().contains(a));
            }
            assert forall|a: usize| #[trigger] self.large@.contains_key(a) <==> pre.large@.contains_key(a)
                && marked@.contains(a) by {
                assert(keys@.to_set().contains(a) <==> pre.large@.dom().contains(a));
            }
            assert forall|q: usize| #[trigger] self.live(q) <==> pre.live(q) && !(pre.large@.contains_key(q)
                && !marked@.contains(q)) by {
                assert(self.chunk_list() == pre.chunk_list());
                assert(self.free_lists() == pre.free_lists());
                assert(self.is_block(q as int) == pre.is_block(q as int));
                assert(self.is_free(q) == pre.is_free(q));
                if pre.large@.contains_key(q) {
                    pre.lemma_large_not_block(q);
                }
            }
        }
        freed
    }

    /// A large allocation's address is no handed-out block.
    proof fn lemma_large_not_block(&self, q: usize)
        requires
            self.wf(),
            self.large@.contains_key(q),
        ensures
            !self.is_block(q as int),
    {
        if self.is_block(q as int) {
            let i = choose|i: int| 0 <= i < self.chunk_list().len() && on_grid(#[trigger] self.chunk_list()[i], q as int);
            assert(self.chunks@[i] == self.chunk_list()[i]);
            assert(!(self.chunks@[i].base <= q < self.chunks@[i].base + CHUNK_SIZE));
        }
    }
}

impl Arena {
    /// Explicit collection: every live allocation not reachable from the
    /// root words, through the payload words `contents` holds for each
    /// live allocation, is freed. Unreached blocks join their class's
    /// free list, chunk by chunk in grid order; unreached large records
    /// are dropped. Never runs unbidden.
    pub fn collect(&mut self, roots: &Vec<usize>, contents: &HashMap<usize, Vec<usize>>) -> (r: ArenaSweep)
        requires
            old(self).wf(),
            forall|a: usize| #[trigger] old(self).live(a) ==> contents@.contains_key(a),
        ensures
            final(self).wf(),
            final(self).chunk_list() == old(self).chunk_list(),
            final(self).open_chunks() == old(self).open_chunks(),
            forall|a: usize| #[trigger]
                final(self).live(a) <==> old(self).live(a) && reachable(
                    old(self).live_set(),
                    words_view(contents@),
                    roots@,
                    a,
                ),
            r.blocks@.no_duplicates(),
            forall|a: usize| #[trigger]
                r.blocks@.contains(a) <==> old(self).is_block(a as int) && old(self).live(a) && !reachable(
                    old(self).live_set(),
                    words_view(contents@),
                    roots@,
                    a,
                ),
            forall|a: usize| #[trigger] final(self).is_free(a) <==> old(self).is_free(a) || r.blocks@.contains(a),
            forall|a: usize| #[trigger]
                final(self).large_records().contains_key(a) ==> final(self).large_records()[a] == old(
                    self,
                ).large_records()[a],
            forall|i: int|
                0 <= i < r.large@.len() ==> old(self).large_records().contains_key((#[trigger] r.large@[i]).0)
                    && r.large@[i].1 == old(self).large_records()[r.large@[i].0] && !reachable(
                    old(self).live_set(),
                    words_view(contents@),
                    roots@,
                    r.large@[i].0,
                ),
            forall|a: usize|
                old(self).large_records().contains_key(a) && !reachable(
                    old(self).live_set(),
                    words_view(contents@),
                    roots@,
                    a,
                ) ==> exists|i: int| 0 <= i < r.large@.len() && (#[trigger] r.large@[i]).0 == a,
            forall|i: int, j: int|
                0 <= i < j < r.large@.len() ==> (#[trigger] r.large@[i]).0 != (#[trigger] r.large@[j]).0,
    {
        let ghost pre = *self;
        let (addrs, _) = self.live_addresses();
        let live_set = super::heap::key_set(&addrs);
        proof {
            assert(live_set@ =~= pre.live_set()) by {
                assert forall|a: usize| live_set@.contains(a) <==> pre.live_set().contains(a) by {
                    assert(addrs@.to_set().contains(a) <==> addrs@.contains(a));
                }
            }
        }
        let marked = super::heap::mark_reachable(&live_set, roots, contents);
        let ghost cv = words_view(contents@);
        let blocks = self.sweep_blocks(&marked);
        let ghost mid = *self;
        let large = self.sweep_large(&marked);
        let ghost lv = large@;
        let r = ArenaSweep { blocks, large };
        proof {
            assert(self.chunk_list() == pre.chunk_list());
            assert(mid.large@ == pre.large@);
            assert forall|a: usize| #[trigger] self.live(a) <==> pre.live(a) && reachable(pre.live_set(), cv, roots@, a) by {
                assert(marked@.contains(a) <==> pre.live_set().contains(a) && reachable(pre.live_set(), cv, roots@, a));
                assert(pre.live_set().contains(a) <==> pre.live(a));
                assert(mid.live(a) <==> pre.live(a) && !r.blocks@.contains(a));
                if pre.large@.contains_key(a) {
                    pre.lemma_large_not_block(a);
                }
                if r.blocks@.contains(a) {
                    assert(pre.is_block(a as int));
                    assert(mid.is_block(a as int)) by {
                        assert(mid.chunk_list() == pre.chunk_list());
                    }
                }
            }
            assert forall|a: usize| #[trigger] self.is_free(a) <==> pre.is_free(a) || r.blocks@.contains(a) by {
                assert(self.free_lists() == mid.free_lists());
                assert(mid.is_free(a) <==> pre.is_free(a) || r.blocks@.contains(a));
                assert(self.is_free(a) == mid.is_free(a));
            }
            assert forall|a: usize| #[trigger] r.blocks@.contains(a) <==> pre.is_block(a as int) && pre.live(a) && !reachable(
                pre.live_set(),
                cv,
                roots@,
                a,
            ) by {
                assert(marked@.contains(a) <==> pre.live_set().contains(a) && reachable(pre.live_set(), cv, roots@, a));
                assert(pre.live_set().contains(a) <==> pre.live(a));
            }
            assert forall|i: int| 0 <= i < r.large@.len() implies !reachable(
                pre.live_set(),
                cv,
                roots@,
                (#[trigger] r.large@[i]).0,
            ) by {
                let a = r.large@[i].0;
                assert(!marked@.contains(a));
                assert(marked@.contains(a) <==> pre.live_set().contains(a) && reachable(pre.live_set(), cv, roots@, a));
                assert(pre.live(a)) by {
                    assert(pre.large_records().contains_key(a));
                }
                assert(pre.live_set().contains(a));
            }
            assert forall|a: usize|
                pre.large_records().contains_key(a) && !reachable(pre.live_set(), cv, roots@, a) implies exists|i: int|
                0 <= i < r.large@.len() && (#[trigger] r.large@[i]).0 == a by {
                assert(marked@.contains(a) <==> pre.live_set().contains(a) && reachable(pre.live_set(), cv, roots@, a));
                assert(mid.large@.contains_key(a));
                assert(!marked@.contains(a));
                assert(mid.large@.contains_key(a) && !marked@.contains(a));
                assert(exists|i: int| 0 <= i < lv.len() && (#[trigger] lv[i]).0 == a);
                assert(r.large@ == lv);
            }
        }
        r
    }
}

/// Sum of the payload sizes (`layouts` false) or system block sizes
/// (`layouts` true) of the large records at the addresses `ks`.
pub open spec fn large_sum(large: Map<usize, LargeRecord>, ks: Seq<usize>, layouts: bool) -> nat
    decreases ks.len(),
{
    if ks.len() == 0 {
        0
    } else {
        large_sum(large, ks.drop_last(), layouts) + if layouts {
            large[ks.last()].layout_size as nat
        } else {
            large[ks.last()].payload_size as nat
        }
    }
}

/// Live blocks among the first `n` blocks of chunk `ch`.
pub open spec fn chunk_live_count(ch: ChunkRecord, free: Set<usize>, n: int) -> nat
    decreases n,
{
    if n <= 0 {
        0
    } else {
        chunk_live_count(ch, free, n - 1) + if free.contains(payload_at(ch, n - 1) as usize) {
            0nat
        } else {
            1nat
        }
    }
}

/// Payload capacity of the live blocks of the chunks `chs`.
pub open spec fn blocks_capacity(chs: Seq<ChunkRecord>, free: Set<usize>) -> nat
    decreases chs.len(),
{
    if chs.len() == 0 {
        0
    } else {
        let ch = chs.last();
        blocks_capacity(chs.drop_last(), free) + chunk_live_count(ch, free, ch.bump as int) * (
        block_bytes(ch.class as int) - HEADER_SIZE) as nat
    }
}

/// Adding to a saturated total saturates the sum.
proof fn lemma_saturating_step(x: nat, y: nat)
    ensures
        (if saturated(x) + y > usize::MAX { usize::MAX as nat } else { saturated(x) + y }) == saturated(x + y),
{
}

impl Arena {
    /// Sum over the large records, saturating, starting from `start`.
    fn large_total(&self, start: usize, layouts: bool) -> (r: usize)
        ensures
            exists|ks: Seq<usize>|
                ks.to_set() == self.large_records().dom() && ks.no_duplicates() && r == saturated(
                    (start + #[trigger] large_sum(self.large_records(), ks, layouts)) as nat,
                ),
    {
        let keys = super::heap::live_keys(&self.large);
        let mut total: usize = start;
        let mut i: usize = 0;
        while i < keys.len()
            invariant
                i <= keys@.len(),
                keys@.to_set() == self.large@.dom(),
                keys@.no_duplicates(),
                total == saturated((start + large_sum(self.large@, keys@.take(i as int), layouts)) as nat),
            decreases keys@.len() - i,
        {
            let k = keys[i];
            proof {
                assert(keys@.to_set().contains(k));
                assert(keys@.take(i + 1).drop_last() =~= keys@.take(i as int));
            }
            let rec = *self.large.get(&k).unwrap();
            let add = if layouts { rec.layout_size } else { rec.payload_size };
            proof {
                lemma_saturating_step((start + large_sum(self.large@, keys@.take(i as int), layouts)) as nat, add as nat);
            }
            total = total.saturating_add(add);
            i = i + 1;
        }
        proof {
            assert(keys@.take(i as int) =~= keys@);
            assert(self.large_records() == self.large@);
            assert(total == saturated((start + large_sum(self.large_records(), keys@, layouts)) as nat));
        }
        total
    }

    /// Payload capacity of the live allocations, saturating: the class
    /// capacity of each live block and the requested size of each large
    /// allocation.
    pub fn live_bytes(&self) -> (r: usize)
        requires
            self.wf(),
        ensures
            exists|ks: Seq<usize>|
                ks.to_set() == self.large_records().dom() && ks.no_duplicates() && r == saturated(
                    #[trigger] large_sum(self.large_records(), ks, false) + blocks_capacity(
                        self.chunk_list(),
                        self.free_set(),
                    ),
                ),
    {
        let bytes0 = self.large_total(0, false);
        let ghost ks = choose|ks: Seq<usize>|
            ks.to_set() == self.large_records().dom() && ks.no_duplicates() && bytes0 == saturated(
                0 + #[trigger] large_sum(self.large_records(), ks, false),
            );
        let ghost base = large_sum(self.large_records(), ks, false);
        let ghost fs = self.free_set();
        proof {
            assert forall|q: usize| self.dead@.contains(q) <==> #[trigger] fs.contains(q) by {}
        }
        let mut bytes = bytes0;
        let n = self.chunks.len();
        let mut ci: usize = 0;
        while ci < n
            invariant
                self.wf(),
                n == self.chunks@.len(),
                ci <= n,
                fs == self.free_set(),
                forall|q: usize| self.dead@.contains(q) <==> #[trigger] fs.contains(q),
                bytes == saturated(base + blocks_capacity(self.chunks@.take(ci as int), fs)),
            decreases n - ci,
        {
            let ch = self.chunks[ci];
            let bs = class_block_bytes(ch.class);
            let cap = bs - HEADER_SIZE;
            let mut b: usize = 0;
            proof {
                assert(chunk_live_count(ch, fs, 0) == 0);
                let z = chunk_live_count(ch, fs, 0);
                assert(z * cap == 0) by (nonlinear_arith)
                    requires
                        z == 0,
                ;
            }
            while b < ch.bump
                invariant
                    self.wf(),
                    n == self.chunks@.len(),
                    ci < n,
                    ch == self.chunks@[ci as int],
                    bs == block_bytes(ch.class as int),
                    cap == bs - HEADER_SIZE,
                    b <= ch.bump,
                    forall|q: usize| self.dead@.contains(q) <==> #[trigger] fs.contains(q),
                    bytes == saturated((base + blocks_capacity(self.chunks@.take(ci as int), fs) + chunk_live_count(ch, fs, b as int) * cap) as nat),
                decreases ch.bump - b,
            {
                proof {
                    lemma_grid(ch, b as int);
                }
                let p = ch.base + HEADER_SIZE + b * bs;
                let ghost prior = (base + blocks_capacity(self.chunks@.take(ci as int), fs) + chunk_live_count(ch, fs, b as int) * cap) as nat;
                if !self.dead.contains(&p) {
                    proof {
                        lemma_saturating_step(prior, cap as nat);
                        assert(chunk_live_count(ch, fs, b + 1) == chunk_live_count(ch, fs, b as int) + 1);
                        assert((chunk_live_count(ch, fs, b as int) + 1) * cap == chunk_live_count(ch, fs, b as int) * cap + cap) by (nonlinear_arith);
                    }
                    bytes = bytes.saturating_add(cap);
                } else {
                    proof {
                        assert(chunk_live_count(ch, fs, b + 1) == chunk_live_count(ch, fs, b as int));
                    }
                }
                b = b + 1;
            }
            proof {
                assert(self.chunks@.take(ci + 1).drop_last() =~= self.chunks@.take(ci as int));
                assert(self.chunks@.take(ci + 1).last() == ch);
            }
            ci = ci + 1;
        }
        proof {
            assert(self.chunks@.take(n as int) =~= self.chunks@);
            assert(self.chunk_list() == self.chunks@);
        }
        bytes
    }

    /// Bytes reserved from the system, saturating: every chunk, and the
    /// system block of every large allocation.
    pub fn reserved_bytes(&self) -> (r: usize)
        requires
            self.wf(),
        ensures
            exists|ks: Seq<usize>|
                ks.to_set() == self.large_records().dom() && ks.no_duplicates() && r == saturated(
                    (self.chunk_list().len() * CHUNK_SIZE + #[trigger] large_sum(self.large_records(), ks, true)) as nat,
                ),
    {
        let n = self.chunks.len();
        let mut chunk_bytes: usize = 0;
        let mut ci: usize = 0;
        while ci < n
            invariant
                n == self.chunks@.len(),
                ci <= n,
                chunk_bytes == saturated((ci * CHUNK_SIZE) as nat),
            decreases n - ci,
        {
            proof {
                lemma_saturating_step((ci * CHUNK_SIZE) as nat, CHUNK_SIZE as nat);
                assert((ci + 1) * CHUNK_SIZE == ci * CHUNK_SIZE + CHUNK_SIZE) by (nonlinear_arith);
            }
            chunk_bytes = chunk_bytes.saturating_add(CHUNK_SIZE);
            ci = ci + 1;
        }
        let r = self.large_total(chunk_bytes, true);
        proof {
            let ks = choose|ks: Seq<usize>|
                ks.to_set() == self.large_records().dom() && ks.no_duplicates() && r == saturated(
                    (chunk_bytes + #[trigger] large_sum(self.large_records(), ks, true)) as nat,
                );
            let total = (n * CHUNK_SIZE) as nat;
            let l = large_sum(self.large_records(), ks, true);
            assert(saturated(saturated(total) + l) == saturated(total + l));
            assert(self.chunk_list().len() == n);
        }
        r
    }
}

/// Total bytes a block needs for a payload of `size` bytes: the header
/// and at least one payload byte.
pub open spec fn block_need(size: usize) -> int {
    HEADER_SIZE + if size == 0 { 1 } else { size as int }
}

/// The size class that serves a payload of `size` bytes: the smallest
/// class whose blocks hold header and payload, or `None` when that
/// exceeds the largest class and the allocation is large.
pub fn block_class(size: usize) -> (r: Option<usize>)
    ensures
        r is None <==> block_need(size) > LARGEST_BLOCK,
        r matches Some(c) ==> c < NUM_CLASSES && is_size_class(block_need(size), c as nat)
            && block_bytes(c as int) == SMALLEST_BLOCK * pow2(c as nat),
{
    let payload = if size == 0 { 1 } else { size };
    if payload > LARGEST_BLOCK - HEADER_SIZE {
        return None;
    }
    let c = size_class(HEADER_SIZE + payload);
    proof {
        reveal_with_fuel(pow2, 8);
    }
    Some(c)
}

impl Arena {
    /// Number of chunks the arena holds.
    pub fn chunk_count(&self) -> (r: usize)
        ensures
            r == self.chunk_list().len(),
    {
        self.chunks.len()
    }

    /// Number of large allocations the arena holds.
    pub fn large_count(&self) -> (r: usize)
        ensures
            r == self.large_records().len(),
    {
        self.large.len()
    }
}

} // verus!
