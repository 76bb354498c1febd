use std::collections::HashMap;

use subscript_runtime::context::arena::{
    block_class, class_block_bytes, Arena, Grant, LargeRecord, Released, CHUNK_SIZE,
};
use subscript_runtime::context::heap::ExactHeap;
use subscript_runtime::context::{HEADER_SIZE, LARGEST_BLOCK, SMALLEST_BLOCK};

/// A stand-in for ship-tier Context memory around the arena's records:
/// fresh chunk and large-block addresses, and the payload words the
/// collector scans.
struct Ship {
    arena: Arena,
    next: usize,
    words: HashMap<usize, Vec<usize>>,
}

impl Ship {
    fn new() -> Ship {
        Ship { arena: Arena::new(), next: 0x100_0000, words: HashMap::new() }
    }

    /// `Context::alloc` on the ship tier.
    fn allocate(&mut self, size: usize) -> usize {
        match block_class(size) {
            None => {
                let payload = self.next + HEADER_SIZE;
                let layout_size = HEADER_SIZE + size.max(1);
                self.next += (layout_size / CHUNK_SIZE + 2) * CHUNK_SIZE;
                self.arena.register_large(payload, LargeRecord { payload_size: size, layout_size });
                self.words.insert(payload, vec![0; size / 8]);
                payload
            }
            Some(class) => loop {
                match self.arena.take_block(class) {
                    Grant::Reused(p) | Grant::Fresh(p) => {
                        let capacity = class_block_bytes(class) - HEADER_SIZE;
                        self.words.insert(p, vec![0; capacity / 8]);
                        return p;
                    }
                    Grant::NeedChunk => {
                        let base = self.next;
                        self.next += CHUNK_SIZE;
                        self.arena.add_chunk(base, class);
                    }
                }
            },
        }
    }

    fn delete(&mut self, payload: usize) -> Released {
        self.arena.release(payload)
    }

    fn write_word(&mut self, payload: usize, index: usize, word: usize) {
        self.words.get_mut(&payload).unwrap()[index] = word;
    }

    fn collect(&mut self, roots: &[usize]) {
        self.arena.collect(&roots.to_vec(), &self.words);
    }
}

#[test]
fn ship_arena_reuses_free_listed_block_without_chunk_growth() {
    let mut ship = Ship::new();
    let first = ship.allocate(16);
    assert_eq!(ship.arena.chunk_count(), 1);
    for _ in 0..10_000 {
        ship.delete(first);
        let again = ship.allocate(16);
        assert_eq!(again, first, "LIFO free list returns the same block");
    }
    assert_eq!(ship.arena.chunk_count(), 1, "reuse cycles must not grow chunks");
    assert_eq!(ship.arena.live_count(), 1);
}

#[test]
fn ship_mode_delete_frees_and_removes_the_entry() {
    let mut ship = Ship::new();
    let a = ship.allocate(8);
    let b = ship.allocate(8);
    assert_eq!(ship.arena.live_count(), 2);

    assert_eq!(ship.delete(a), Released::Block(0));
    assert_eq!(ship.arena.live_count(), 1, "ship mode leaves no entry behind");
    assert!(!ship.arena.is_live(a));

    // A second delete of the released block is a no-op.
    assert_eq!(ship.delete(a), Released::Nothing);

    let c = ship.allocate(8);
    assert!(ship.arena.is_live(c));

    // Contrast: the diagnostic exact-size tier retains the poisoned entry.
    let mut dev = ExactHeap::new();
    assert!(dev.set_freed_handle_diagnostics(true, 0, usize::MAX));
    assert!(dev.begin_alloc());
    dev.register(0x20_0010, 8, 1, 0);
    assert!(dev.begin_alloc());
    dev.register(0x20_1010, 8, 1, 0);
    assert_eq!(dev.live_count() + dev.retained_payloads().len(), 2);
    dev.delete(0x20_0010);
    assert_eq!(
        dev.live_count() + dev.retained_payloads().len(),
        2,
        "diagnostic mode retains the poisoned entry"
    );
    assert!(ship.arena.is_live(b));
}

#[test]
fn ship_mode_collect_frees_and_removes_unreachable() {
    let mut ship = Ship::new();
    let kept = ship.allocate(8);
    let _dropped = ship.allocate(8);
    assert_eq!(ship.arena.live_count(), 2);
    ship.collect(&[kept]);
    assert!(ship.arena.is_live(kept));
    assert_eq!(ship.arena.live_count(), 1, "ship mode releases swept blocks");
}

#[test]
fn ship_collect_releases_unreachable_and_keeps_rooted() {
    let mut ship = Ship::new();
    let kept = ship.allocate(16);
    let dropped = ship.allocate(16);
    let dropped2 = ship.allocate(16);
    let inner = ship.allocate(16);
    ship.write_word(kept, 0, inner);
    assert_eq!(ship.arena.live_count(), 4);
    ship.collect(&[kept]);
    assert!(ship.arena.is_live(kept));
    assert!(ship.arena.is_live(inner), "traced through payload words");
    assert!(!ship.arena.is_live(dropped));
    assert!(!ship.arena.is_live(dropped2));
    assert_eq!(ship.arena.live_count(), 2);
    let chunks = ship.arena.chunk_count();
    let reused = ship.allocate(16);
    assert!(reused == dropped || reused == dropped2);
    assert_eq!(ship.arena.chunk_count(), chunks);
    ship.collect(&[0]);
    assert!(!ship.arena.is_live(kept));
    assert!(!ship.arena.is_live(inner));
}

#[test]
fn ship_large_allocations_membership_trace_collect_and_delete() {
    let mut ship = Ship::new();
    let big = ship.allocate(2 * LARGEST_BLOCK);
    assert!(ship.arena.is_live(big));
    assert!(!ship.arena.is_live(big + 8), "interior address is not a payload");
    assert_eq!(ship.arena.live_count(), 1);
    let inner = ship.allocate(16);
    ship.write_word(big, LARGEST_BLOCK / 8, inner);
    ship.collect(&[big]);
    assert!(ship.arena.is_live(big));
    assert!(ship.arena.is_live(inner), "traced through the large payload");
    ship.collect(&[0]);
    assert!(!ship.arena.is_live(big));
    assert_eq!(ship.arena.live_count(), 0);
    assert_eq!(ship.arena.large_count(), 0);
    let big3 = ship.allocate(LARGEST_BLOCK + 100);
    assert_eq!(ship.arena.large_count(), 1);
    let reserved_before_delete = ship.arena.reserved_bytes();
    assert!(matches!(ship.delete(big3), Released::Large(_)));
    assert!(!ship.arena.is_live(big3));
    assert_eq!(ship.arena.large_count(), 0);
    assert!(
        ship.arena.reserved_bytes() < reserved_before_delete,
        "a large delete returns its individual allocation to the system"
    );
}

#[test]
fn ship_membership_rejects_off_grid_and_above_watermark_addresses() {
    let mut ship = Ship::new();
    let p = ship.allocate(16);
    let q = ship.allocate(16);
    assert_eq!(ship.arena.live_count(), 2);
    assert!(!ship.arena.is_live(p + 8));
    assert_eq!(ship.delete(p + 8), Released::Nothing);
    let next_slot = q + SMALLEST_BLOCK;
    assert!(!ship.arena.is_live(next_slot));
    assert_eq!(ship.delete(next_slot), Released::Nothing);
    assert!(!ship.arena.is_live(0x1000));
    assert_eq!(ship.delete(0x1000), Released::Nothing, "ship-tier delete never traps");
    assert_eq!(ship.arena.live_count(), 2, "no-ops must not release live blocks");
    assert!(ship.arena.is_live(p) && ship.arena.is_live(q));
    ship.delete(p);
    ship.delete(q);
    let r = ship.allocate(16);
    assert_eq!(r, q, "free list intact after the no-op deletes");
}

#[test]
fn size_classes_pick_the_smallest_block_that_fits() {
    assert_eq!(block_class(0), Some(0));
    assert_eq!(block_class(16), Some(0));
    assert_eq!(block_class(17), Some(1));
    assert_eq!(block_class(200), Some(3));
    assert_eq!(block_class(LARGEST_BLOCK - HEADER_SIZE), Some(7));
    assert_eq!(block_class(LARGEST_BLOCK - HEADER_SIZE + 1), None);
    assert_eq!(block_class(usize::MAX), None);
    assert_eq!(class_block_bytes(3), 256);
}

#[test]
fn fresh_blocks_walk_the_grid_and_chunks_fill_up() {
    let mut ship = Ship::new();
    let first = ship.allocate(4000);
    let second = ship.allocate(4000);
    assert_eq!(second, first + 4096);
    for _ in 0..14 {
        ship.allocate(4000);
    }
    assert_eq!(ship.arena.chunk_count(), 1);
    let seventeenth = ship.allocate(4000);
    assert_eq!(ship.arena.chunk_count(), 2);
    assert!(seventeenth >= first + CHUNK_SIZE);
    assert_eq!(ship.arena.live_count(), 17);
}

#[test]
fn live_and_reserved_bytes_count_capacity_and_layouts() {
    let mut ship = Ship::new();
    assert_eq!(ship.arena.live_bytes(), 0);
    assert_eq!(ship.arena.reserved_bytes(), 0);
    let small = ship.allocate(16);
    assert_eq!(ship.arena.live_bytes(), 16);
    assert_eq!(ship.arena.reserved_bytes(), CHUNK_SIZE);
    let big = ship.allocate(5000);
    assert_eq!(ship.arena.live_bytes(), 16 + 5000);
    assert_eq!(ship.arena.reserved_bytes(), CHUNK_SIZE + HEADER_SIZE + 5000);
    ship.delete(small);
    ship.delete(big);
    assert_eq!(ship.arena.live_bytes(), 0);
    assert_eq!(ship.arena.reserved_bytes(), CHUNK_SIZE);
}

#[test]
fn live_allocations_list_blocks_in_grid_order_then_large() {
    let mut ship = Ship::new();
    let a = ship.allocate(16);
    let b = ship.allocate(100);
    let c = ship.allocate(16);
    let big = ship.allocate(9000);
    ship.delete(a);
    let all = ship.arena.live_allocations();
    assert_eq!(all, vec![(c, 16), (b, 112), (big, 9000)]);
}
