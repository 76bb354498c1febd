//! `Set` algebra: fresh result sets in ES2024 order, and the subset,
//! superset and disjointness tests.
use vstd::prelude::*;

use super::table::{
    canonical_key, count_some, holds_key, key_fits, lemma_position_spec, position_of, sat, slot_key,
    AssocTable,
};
use super::{key_shape_ok, stride_of, KeyKind};

verus! {

/// A live or deleted ordered slot of a container.
pub type Slot = Option<(Seq<u8>, Seq<u8>)>;

/// The keys of the live slots, in order.
pub open spec fn keys_of(s: Seq<Slot>) -> Seq<Seq<u8>>
    decreases s.len(),
{
    if s.len() == 0 {
        Seq::empty()
    } else {
        match s.last() {
            Some((k, _)) => keys_of(s.drop_last()).push(k),
            None => keys_of(s.drop_last()),
        }
    }
}

/// The slots of a set holding exactly `keys`, in order.
pub open spec fn set_slots(keys: Seq<Seq<u8>>) -> Seq<Slot> {
    keys.map_values(|k: Seq<u8>| Some((k, Seq::<u8>::empty())))
}

/// Key `k` passes the membership filter: always without one, else when
/// its presence in `other` is `wanted`.
pub open spec fn passes(k: Seq<u8>, other: Option<Seq<Slot>>, wanted: bool) -> bool {
    match other {
        None => true,
        Some(o) => (position_of(o, k) is Some) == wanted,
    }
}

/// The keys of a set holding `keys` after inserting, in `src` order,
/// every live key of `src` that passes the filter: new keys append,
/// present ones stay where they are.
pub open spec fn merged(keys: Seq<Seq<u8>>, src: Seq<Slot>, other: Option<Seq<Slot>>, wanted: bool) -> Seq<
    Seq<u8>,
>
    decreases src.len(),
{
    if src.len() == 0 {
        keys
    } else {
        let m = merged(keys, src.drop_last(), other, wanted);
        match src.last() {
            Some((k, _)) => if passes(k, other, wanted) && !m.contains(k) {
                m.push(k)
            } else {
                m
            },
            None => m,
        }
    }
}

/// Both operands are sets of one key shape.
pub open spec fn set_shapes_match(left: AssocTable, right: AssocTable) -> bool {
    &&& left.value_width() == 0
    &&& right.value_width() == 0
    &&& left.key_width() == right.key_width()
    &&& left.key_kind() == right.key_kind()
}

/// A set grown by insertions alone: no deleted slot, and capacities
/// within what such growth reaches.
pub open spec fn grown_by_adding(t: AssocTable) -> bool {
    &&& forall|i: int| 0 <= i < t.slots().len() ==> #[trigger] t.slots()[i] is Some
    &&& t.order_capacity() <= if t.slots().len() < 2 { 4 } else { 2 * t.slots().len() }
    &&& t.bucket_capacity() <= 8 * t.slots().len() + 8
}

/// Live slots of a set are its keys' slots.
proof fn lemma_set_slots_keys(ks: Seq<Seq<u8>>)
    ensures
        keys_of(set_slots(ks)) == ks,
        count_some(set_slots(ks)) == ks.len(),
    decreases ks.len(),
{
    if ks.len() > 0 {
        assert(set_slots(ks).drop_last() =~= set_slots(ks.drop_last()));
        lemma_set_slots_keys(ks.drop_last());
        assert(ks.drop_last().push(ks.last()) =~= ks);
    }
}

/// A key is among the live keys exactly when `position_of` finds it.
proof fn lemma_keys_position(s: Seq<Slot>, k: Seq<u8>)
    ensures
        keys_of(s).contains(k) <==> position_of(s, k) is Some,
    decreases s.len(),
{
    if s.len() > 0 {
        lemma_keys_position(s.drop_last(), k);
        let f = keys_of(s.drop_last());
        match s.last() {
            Some((key, _)) => {
                assert(keys_of(s) == f.push(key));
                if key == k {
                    assert(f.push(key)[f.len() as int] == k);
                } else {
                    assert(f.push(key).contains(k) ==> f.contains(k)) by {
                        if f.push(key).contains(k) {
                            let j = choose|j: int| 0 <= j < f.push(key).len() && f.push(key)[j] == k;
                            assert(f[j] == k);
                        }
                    }
                    assert(f.contains(k) ==> f.push(key).contains(k)) by {
                        if f.contains(k) {
                            let j = choose|j: int| 0 <= j < f.len() && f[j] == k;
                            assert(f.push(key)[j] == k);
                        }
                    }
                }
            },
            None => {},
        }
    }
}

/// A prefix has no more live slots than the whole.
proof fn lemma_count_some_prefix(s: Seq<Slot>, i: int)
    requires
        0 <= i <= s.len(),
    ensures
        count_some(s.subrange(0, i)) <= count_some(s),
    decreases s.len() - i,
{
    if i < s.len() {
        assert(s.subrange(0, i + 1).drop_last() =~= s.subrange(0, i));
        lemma_count_some_prefix(s, i + 1);
    } else {
        assert(s.subrange(0, i) =~= s);
    }
}

/// Keys merged in are at most the live slots offered.
proof fn lemma_merged_len(keys: Seq<Seq<u8>>, src: Seq<Slot>, other: Option<Seq<Slot>>, wanted: bool)
    ensures
        merged(keys, src, other, wanted).len() <= keys.len() + count_some(src),
    decreases src.len(),
{
    if src.len() > 0 {
        lemma_merged_len(keys, src.drop_last(), other, wanted);
    }
}

/// Inserting a key into a set grown by adding keeps it so, and never
/// needs a capacity beyond `usize`.
proof fn lemma_adding_fits(t: AssocTable)
    requires
        t.wf(),
        grown_by_adding(t),
        t.slots().len() < usize::MAX / 32,
    ensures
        !t.packs_next(),
        !t.adding_overflows(),
        t.slots_before_adding() == t.slots(),
        t.order_capacity_after_adding() <= if t.slots().len() + 1 < 2 { 4 } else { 2 * (t.slots().len() + 1) },
        t.bucket_capacity_after_adding() <= 8 * (t.slots().len() + 1) + 8,
{
    t.lemma_no_deleted_no_tombstones();
    let n = t.slots().len();
    let cap = t.bucket_capacity();
    if t.index_grows() {
        assert(4 * (n + 1) < u64::MAX);
        assert(sat(4 * sat((n + 1) as int)) == 4 * (n + 1));
        assert(3 * cap <= 4 * (n + 1));
    }
}

/// Inserts into `out`, in `source` order, every live key of `source`
/// whose membership in `other` (when given) is `wanted`.
fn insert_keys(out: &mut AssocTable, source: &AssocTable, other: Option<&AssocTable>, wanted: bool)
    requires
        old(out).wf(),
        source.wf(),
        grown_by_adding(*old(out)),
        old(out).value_width() == 0,
        old(out).key_kind() == source.key_kind(),
        old(out).key_width() == source.key_width(),
        other matches Some(o) ==> o.wf() && o.key_kind() == source.key_kind() && o.key_width() == source.key_width(),
        old(out).slots() == set_slots(keys_of(old(out).slots())),
        keys_of(old(out).slots()).len() + source.live_count() < usize::MAX / 32,
    ensures
        final(out).wf(),
        grown_by_adding(*final(out)),
        final(out).value_width() == 0,
        final(out).key_kind() == old(out).key_kind(),
        final(out).key_width() == old(out).key_width(),
        final(out).depth() == old(out).depth(),
        final(out).slots() == set_slots(
            merged(
                keys_of(old(out).slots()),
                source.slots(),
                match other {
                    Some(o) => Some(o.slots()),
                    None => None,
                },
                wanted,
            ),
        ),
{
    let ghost k0 = keys_of(out.slots());
    let ghost filter = match other {
        Some(o) => Some(o.slots()),
        None => None::<Seq<Slot>>,
    };
    let ghost src = source.slots();
    proof {
        source.lemma_slots_stored();
        lemma_merged_len(k0, src, filter, wanted);
        assert(src.subrange(0, 0) =~= Seq::<Slot>::empty());
    }
    let n = source.order_len();
    let mut index: usize = 0;
    while index < n
        invariant
            out.wf(),
            source.wf(),
            grown_by_adding(*out),
            out.value_width() == 0,
            out.key_kind() == source.key_kind(),
            out.key_width() == source.key_width(),
            out.depth() == old(out).depth(),
            other matches Some(o) ==> o.wf() && o.key_kind() == source.key_kind() && o.key_width() == source.key_width(),
            filter == match other {
                Some(o) => Some(o.slots()),
                None => None::<Seq<Slot>>,
            },
            src == source.slots(),
            n == src.len(),
            index <= n,
            out.slots() == set_slots(merged(k0, src.subrange(0, index as int), filter, wanted)),
            merged(k0, src, filter, wanted).len() <= k0.len() + count_some(src),
            k0.len() + count_some(src) < usize::MAX / 32,
            forall|i: int|
                0 <= i < src.len() && #[trigger] src[i] is Some ==> {
                    let (k, v) = src[i]->0;
                    &&& canonical_key(source.key_kind(), k) == k
                    &&& key_fits(source.key_kind(), source.key_width(), k)
                },
        decreases n - index,
    {
        let ghost before = merged(k0, src.subrange(0, index as int), filter, wanted);
        proof {
            assert(src.subrange(0, index + 1).drop_last() =~= src.subrange(0, index as int));
            assert(src.subrange(0, index + 1).last() == src[index as int]);
            lemma_merged_len(k0, src.subrange(0, index as int), filter, wanted);
            lemma_count_some_prefix(src, index as int);
            lemma_set_slots_keys(before);
        }
        match source.entry_at(index) {
            Some((k, _)) => {
                let keep = match other {
                    Some(o) => o.has(k) == wanted,
                    None => true,
                };
                if keep {
                    proof {
                        lemma_keys_position(out.slots(), k@);
                        lemma_adding_fits(*out);
                    }
                    let ghost pre = *out;
                    proof {
                        assert(src[index as int] is Some);
                        assert(canonical_key(source.key_kind(), k@) == k@);
                        lemma_keys_position(pre.slots(), k@);
                        lemma_position_spec(pre.slots(), k@);
                    }
                    let nothing: Vec<u8> = Vec::new();
                    let added = out.insert(k, nothing.as_slice());
                    proof {
                        assert(added);
                        let after = if before.contains(k@) { before } else { before.push(k@) };
                        if before.contains(k@) {
                            let p = position_of(pre.slots(), k@)->0;
                            assert(pre.slots()[p] == Some((before[p], Seq::<u8>::empty())));
                            assert(holds_key(pre.slots()[p], k@));
                            assert(pre.slots().update(p, Some((k@, Seq::<u8>::empty()))) =~= pre.slots());
                        } else {
                            assert(pre.slots().push(Some((k@, Seq::<u8>::empty()))) =~= set_slots(before.push(k@)));
                        }
                        assert(out.slots() == set_slots(after));
                        assert forall|i: int| 0 <= i < out.slots().len() implies #[trigger] out.slots()[i] is Some by {
                            assert(set_slots(after)[i] == Some((after[i], Seq::<u8>::empty())));
                        }
                    }
                }
            },
            None => {},
        }
        index = index + 1;
    }
    proof {
        assert(src.subrange(0, n as int) =~= src);
    }
}

/// Both operands are sets of one key shape.
fn shapes_match(left: &AssocTable, right: &AssocTable) -> (r: bool)
    ensures
        r == set_shapes_match(*left, *right),
{
    left.value_bytes() == 0 && right.value_bytes() == 0 && left.key_bytes() == right.key_bytes()
        && left.kind() == right.kind()
}

/// A fresh empty set of `like`'s key shape.
fn new_set_like(like: &AssocTable) -> (r: Option<AssocTable>)
    requires
        like.wf(),
    ensures
        r matches Some(t) && t.wf() && grown_by_adding(t) && t.value_width() == 0 && t.key_kind()
            == like.key_kind() && t.key_width() == like.key_width() && t.depth() == 0 && t.slots()
            == set_slots(Seq::empty()),
{
    proof {
        like.lemma_slots_stored();
    }
    let made = AssocTable::new(like.kind(), like.key_bytes(), 0);
    proof {
        if made is None {
            assert(stride_of(like.key_width() as int, 0) <= usize::MAX);
        }
        assert(set_slots(Seq::<Seq<u8>>::empty()) =~= Seq::<Slot>::empty());
    }
    made
}

/// Whether every live key of `source` is in `other`.
fn all_in(source: &AssocTable, other: &AssocTable) -> (r: bool)
    requires
        source.wf(),
        other.wf(),
        other.key_kind() == source.key_kind(),
        other.key_width() == source.key_width(),
    ensures
        r == forall|i: int|
            0 <= i < source.slots().len() && #[trigger] source.slots()[i] is Some ==> position_of(
                other.slots(),
                slot_key(source.slots()[i]),
            ) is Some,
{
    proof {
        source.lemma_slots_stored();
    }
    let n = source.order_len();
    let mut index: usize = 0;
    while index < n
        invariant
            source.wf(),
            other.wf(),
            other.key_kind() == source.key_kind(),
            other.key_width() == source.key_width(),
            n == source.slots().len(),
            index <= n,
            forall|i: int|
                0 <= i < index && #[trigger] source.slots()[i] is Some ==> position_of(
                    other.slots(),
                    slot_key(source.slots()[i]),
                ) is Some,
            forall|i: int|
                0 <= i < source.slots().len() && #[trigger] source.slots()[i] is Some ==> {
                    let (k, v) = source.slots()[i]->0;
                    &&& canonical_key(source.key_kind(), k) == k
                    &&& key_fits(source.key_kind(), source.key_width(), k)
                },
        decreases n - index,
    {
        if let Some((k, _)) = source.entry_at(index) {
            proof {
                assert(source.slots()[index as int] is Some);
            }
            if !other.has(k) {
                return false;
            }
        }
        index = index + 1;
    }
    true
}

/// Whether no live key of `source` is in `other`.
fn none_in(source: &AssocTable, other: &AssocTable) -> (r: bool)
    requires
        source.wf(),
        other.wf(),
        other.key_kind() == source.key_kind(),
        other.key_width() == source.key_width(),
    ensures
        r == forall|i: int|
            0 <= i < source.slots().len() && #[trigger] source.slots()[i] is Some ==> position_of(
                other.slots(),
                slot_key(source.slots()[i]),
            ) is None,
{
    proof {
        source.lemma_slots_stored();
    }
    let n = source.order_len();
    let mut index: usize = 0;
    while index < n
        invariant
            source.wf(),
            other.wf(),
            other.key_kind() == source.key_kind(),
            other.key_width() == source.key_width(),
            n == source.slots().len(),
            index <= n,
            forall|i: int|
                0 <= i < index && #[trigger] source.slots()[i] is Some ==> position_of(
                    other.slots(),
                    slot_key(source.slots()[i]),
                ) is None,
            forall|i: int|
                0 <= i < source.slots().len() && #[trigger] source.slots()[i] is Some ==> {
                    let (k, v) = source.slots()[i]->0;
                    &&& canonical_key(source.key_kind(), k) == k
                    &&& key_fits(source.key_kind(), source.key_width(), k)
                },
        decreases n - index,
    {
        if let Some((k, _)) = source.entry_at(index) {
            proof {
                assert(source.slots()[index as int] is Some);
            }
            if other.has(k) {
                return false;
            }
        }
        index = index + 1;
    }
    true
}

/// A fresh union: the receiver's keys in order, then the argument's
/// keys it lacks. `None` when the operands' key shapes differ.
pub fn set_union(left: &AssocTable, right: &AssocTable) -> (r: Option<AssocTable>)
    requires
        left.wf(),
        right.wf(),
        left.live_count() + right.live_count() < usize::MAX / 32,
    ensures
        match r {
            None => !set_shapes_match(*left, *right),
            Some(t) => {
                &&& set_shapes_match(*left, *right)
                &&& t.wf()
                &&& t.value_width() == 0
                &&& t.key_kind() == left.key_kind()
                &&& t.key_width() == left.key_width()
                &&& t.slots() == set_slots(
                    merged(merged(Seq::empty(), left.slots(), None, true), right.slots(), None, true),
                )
            },
        },
{
    if !shapes_match(left, right) {
        return None;
    }
    let mut out = match new_set_like(left) {
        Some(t) => t,
        None => return None,
    };
    proof {
        lemma_set_slots_keys(Seq::empty());
    }
    insert_keys(&mut out, left, None, true);
    proof {
        lemma_merged_len(Seq::empty(), left.slots(), None, true);
        lemma_set_slots_keys(merged(Seq::empty(), left.slots(), None, true));
    }
    insert_keys(&mut out, right, None, true);
    Some(out)
}

/// A fresh intersection in ES2024 order: the smaller operand (the
/// receiver on a tie) is traversed, keeping the keys the other holds.
pub fn set_intersection(left: &AssocTable, right: &AssocTable) -> (r: Option<AssocTable>)
    requires
        left.wf(),
        right.wf(),
        left.live_count() + right.live_count() < usize::MAX / 32,
    ensures
        match r {
            None => !set_shapes_match(*left, *right),
            Some(t) => {
                &&& set_shapes_match(*left, *right)
                &&& t.wf()
                &&& t.value_width() == 0
                &&& t.key_kind() == left.key_kind()
                &&& t.key_width() == left.key_width()
                &&& t.slots() == set_slots(
                    if left.live_count() <= right.live_count() {
                        merged(Seq::empty(), left.slots(), Some(right.slots()), true)
                    } else {
                        merged(Seq::empty(), right.slots(), Some(left.slots()), true)
                    },
                )
            },
        },
{
    if !shapes_match(left, right) {
        return None;
    }
    let mut out = match new_set_like(left) {
        Some(t) => t,
        None => return None,
    };
    proof {
        lemma_set_slots_keys(Seq::empty());
    }
    if left.len() <= right.len() {
        insert_keys(&mut out, left, Some(right), true);
    } else {
        insert_keys(&mut out, right, Some(left), true);
    }
    Some(out)
}

/// A fresh difference: the receiver's keys the argument lacks, in
/// receiver order.
pub fn set_difference(left: &AssocTable, right: &AssocTable) -> (r: Option<AssocTable>)
    requires
        left.wf(),
        right.wf(),
        left.live_count() + right.live_count() < usize::MAX / 32,
    ensures
        match r {
            None => !set_shapes_match(*left, *right),
            Some(t) => {
                &&& set_shapes_match(*left, *right)
                &&& t.wf()
                &&& t.value_width() == 0
                &&& t.key_kind() == left.key_kind()
                &&& t.key_width() == left.key_width()
                &&& t.slots() == set_slots(merged(Seq::empty(), left.slots(), Some(right.slots()), false))
            },
        },
{
    if !shapes_match(left, right) {
        return None;
    }
    let mut out = match new_set_like(left) {
        Some(t) => t,
        None => return None,
    };
    proof {
        lemma_set_slots_keys(Seq::empty());
    }
    insert_keys(&mut out, left, Some(right), false);
    Some(out)
}

/// A fresh symmetric difference: the receiver-only keys, then the
/// argument-only keys.
pub fn set_symmetric_difference(left: &AssocTable, right: &AssocTable) -> (r: Option<AssocTable>)
    requires
        left.wf(),
        right.wf(),
        left.live_count() + right.live_count() < usize::MAX / 32,
    ensures
        match r {
            None => !set_shapes_match(*left, *right),
            Some(t) => {
                &&& set_shapes_match(*left, *right)
                &&& t.wf()
                &&& t.value_width() == 0
                &&& t.key_kind() == left.key_kind()
                &&& t.key_width() == left.key_width()
                &&& t.slots() == set_slots(
                    merged(
                        merged(Seq::empty(), left.slots(), Some(right.slots()), false),
                        right.slots(),
                        Some(left.slots()),
                        false,
                    ),
                )
            },
        },
{
    if !shapes_match(left, right) {
        return None;
    }
    let mut out = match new_set_like(left) {
        Some(t) => t,
        None => return None,
    };
    proof {
        lemma_set_slots_keys(Seq::empty());
    }
    insert_keys(&mut out, left, Some(right), false);
    proof {
        lemma_merged_len(Seq::empty(), left.slots(), Some(right.slots()), false);
        lemma_set_slots_keys(merged(Seq::empty(), left.slots(), Some(right.slots()), false));
    }
    insert_keys(&mut out, right, Some(left), false);
    Some(out)
}

/// Whether every receiver key occurs in the argument (false for
/// operands of different key shapes).
pub fn set_is_subset_of(left: &AssocTable, right: &AssocTable) -> (r: bool)
    requires
        left.wf(),
        right.wf(),
    ensures
        r == (set_shapes_match(*left, *right) && left.live_count() <= right.live_count() && forall|i: int|
            0 <= i < left.slots().len() && #[trigger] left.slots()[i] is Some ==> position_of(
                right.slots(),
                slot_key(left.slots()[i]),
            ) is Some),
{
    shapes_match(left, right) && left.len() <= right.len() && all_in(left, right)
}

/// Whether every argument key occurs in the receiver (false for
/// operands of different key shapes).
pub fn set_is_superset_of(left: &AssocTable, right: &AssocTable) -> (r: bool)
    requires
        left.wf(),
        right.wf(),
    ensures
        r == (set_shapes_match(*left, *right) && left.live_count() >= right.live_count() && forall|i: int|
            0 <= i < right.slots().len() && #[trigger] right.slots()[i] is Some ==> position_of(
                left.slots(),
                slot_key(right.slots()[i]),
            ) is Some),
{
    shapes_match(left, right) && left.len() >= right.len() && all_in(right, left)
}

/// Whether the operands share no key (false for operands of different
/// key shapes). The smaller operand (the receiver on a tie) is
/// traversed.
pub fn set_is_disjoint_from(left: &AssocTable, right: &AssocTable) -> (r: bool)
    requires
        left.wf(),
        right.wf(),
    ensures
        r == (set_shapes_match(*left, *right) && if left.live_count() <= right.live_count() {
            forall|i: int|
                0 <= i < left.slots().len() && #[trigger] left.slots()[i] is Some ==> position_of(
                    right.slots(),
                    slot_key(left.slots()[i]),
                ) is None
        } else {
            forall|i: int|
                0 <= i < right.slots().len() && #[trigger] right.slots()[i] is Some ==> position_of(
                    left.slots(),
                    slot_key(right.slots()[i]),
                ) is None
        }),
{
    if !shapes_match(left, right) {
        return false;
    }
    if left.len() <= right.len() {
        none_in(left, right)
    } else {
        none_in(right, left)
    }
}

/// A key is in the merged keys exactly when it was already there, or is
/// a live key of `src` passing the filter.
pub proof fn lemma_merged_members(
    keys: Seq<Seq<u8>>,
    src: Seq<Slot>,
    other: Option<Seq<Slot>>,
    wanted: bool,
    k: Seq<u8>,
)
    ensures
        merged(keys, src, other, wanted).contains(k) <==> keys.contains(k) || (keys_of(src).contains(k)
            && passes(k, other, wanted)),
    decreases src.len(),
{
    if src.len() > 0 {
        let f = src.drop_last();
        lemma_merged_members(keys, f, other, wanted, k);
        let m = merged(keys, f, other, wanted);
        match src.last() {
            Some((key, _)) => {
                lemma_push_members(m, key, k);
                lemma_push_members(keys_of(f), key, k);
                if key == k {
                    if passes(k, other, wanted) && !m.contains(k) {
                        assert(m.push(key)[m.len() as int] == k);
                    }
                }
            },
            None => {},
        }
    }
}

/// Membership in a sequence with one more element.
proof fn lemma_push_members(s: Seq<Seq<u8>>, x: Seq<u8>, k: Seq<u8>)
    ensures
        s.push(x).contains(k) <==> s.contains(k) || x == k,
{
    if s.push(x).contains(k) {
        let j = choose|j: int| 0 <= j < s.push(x).len() && s.push(x)[j] == k;
        if j < s.len() {
            assert(s[j] == k);
        }
    }
    if s.contains(k) {
        let j = choose|j: int| 0 <= j < s.len() && s[j] == k;
        assert(s.push(x)[j] == k);
    }
    if x == k {
        assert(s.push(x)[s.len() as int] == k);
    }
}

/// A union holds exactly the keys of either operand.
pub proof fn lemma_union_members(left: Seq<Slot>, right: Seq<Slot>, k: Seq<u8>)
    ensures
        merged(merged(Seq::empty(), left, None, true), right, None, true).contains(k) <==> keys_of(
            left,
        ).contains(k) || keys_of(right).contains(k),
{
    lemma_merged_members(Seq::empty(), left, None, true, k);
    lemma_merged_members(merged(Seq::empty(), left, None, true), right, None, true, k);
}

/// An intersection holds exactly the keys of both operands.
pub proof fn lemma_intersection_members(source: Seq<Slot>, other: Seq<Slot>, k: Seq<u8>)
    ensures
        merged(Seq::empty(), source, Some(other), true).contains(k) <==> keys_of(source).contains(k)
            && keys_of(other).contains(k),
{
    lemma_merged_members(Seq::empty(), source, Some(other), true, k);
    lemma_keys_position(other, k);
}

/// A difference holds exactly the receiver's keys the argument lacks.
pub proof fn lemma_difference_members(left: Seq<Slot>, right: Seq<Slot>, k: Seq<u8>)
    ensures
        merged(Seq::empty(), left, Some(right), false).contains(k) <==> keys_of(left).contains(k)
            && !keys_of(right).contains(k),
{
    lemma_merged_members(Seq::empty(), left, Some(right), false, k);
    lemma_keys_position(right, k);
}

/// A symmetric difference holds exactly the keys of one operand only.
pub proof fn lemma_symmetric_difference_members(left: Seq<Slot>, right: Seq<Slot>, k: Seq<u8>)
    ensures
        merged(
            merged(Seq::empty(), left, Some(right), false),
            right,
            Some(left),
            false,
        ).contains(k) <==> (keys_of(left).contains(k) != keys_of(right).contains(k)),
{
    lemma_merged_members(Seq::empty(), left, Some(right), false, k);
    lemma_merged_members(merged(Seq::empty(), left, Some(right), false), right, Some(left), false, k);
    lemma_keys_position(right, k);
    lemma_keys_position(left, k);
}

} // verus!
