//! The `Map` / `Set` container: an insertion-ordered entry vector and an
//! open-addressed bucket index over it.
//!
//! Entries are appended in insertion order and never reused: deleting
//! one clears it in place and leaves a tombstone in the index, and
//! re-inserting a key appends it again. At the growth boundary the
//! deleted entries are packed out (unless an iteration is running), and
//! the index is rebuilt when it is three quarters used.
use vstd::prelude::*;

use super::{
    entry_stride, f32_key_bits, f32_key_bits_spec, f64_key_bits, f64_key_bits_spec, fnv1a,
    fnv1a_spec, key_shape_ok, mix64, mix64_spec, shape_ok, stride_of, KeyKind,
};
use crate::text::bytes_equal;

verus! {

/// An index bucket that never held an entry.
pub const EMPTY: u64 = 0;

/// An index bucket whose entry was deleted.
pub const TOMBSTONE: u64 = 0xffff_ffff_ffff_ffff;

/// Entry capacity of the first growth.
pub const INITIAL_ORDER_CAP: usize = 4;

/// Bucket count of the first index.
pub const INITIAL_BUCKET_CAP: usize = 8;

// ----- keys -----

/// The little-endian value of the first `n` bytes of `k`.
pub open spec fn le_bits(k: Seq<u8>, n: nat) -> u64
    decreases n,
{
    if n == 0 || n > k.len() || n > 8 {
        0
    } else {
        le_bits(k, (n - 1) as nat) | ((k[n - 1] as u64) << ((8 * (n - 1)) as u64))
    }
}

/// The low `n` bytes of `v`, least significant first.
pub open spec fn le_bytes(v: u64, n: nat) -> Seq<u8> {
    Seq::new(n, |i: int| ((v >> ((8 * i) as u64)) & 0xff) as u8)
}

/// The stored form of a key: floats under SameValueZero (both zeros as
/// `+0`, every NaN as the canonical NaN); other kinds unchanged.
pub open spec fn canonical_key(kind: KeyKind, k: Seq<u8>) -> Seq<u8> {
    match kind {
        KeyKind::F32 => le_bytes(f32_key_bits_spec(le_bits(k, 4) as u32) as u64, 4),
        KeyKind::F64 => le_bytes(f64_key_bits_spec(le_bits(k, 8)), 8),
        _ => k,
    }
}

/// The hash of a stored key: FNV-1a over a string's content, the 64-bit
/// finalizer over the bits of every other kind.
pub open spec fn key_hash(kind: KeyKind, k: Seq<u8>) -> u64 {
    match kind {
        KeyKind::Str => fnv1a_spec(k),
        _ => mix64_spec(le_bits(k, k.len())),
    }
}

/// A key of the right width for the container: any string content, or
/// exactly `key_size` bytes of the other kinds.
pub open spec fn key_fits(kind: KeyKind, key_size: usize, k: Seq<u8>) -> bool {
    kind == KeyKind::Str || k.len() == key_size
}

/// Reading back the low `n` bytes of `v` gives `v` when it fits.
pub(crate) proof fn lemma_le_round_trip(v: u64)
    ensures
        v < 0x1_0000_0000 ==> le_bits(le_bytes(v, 4), 4) == v,
        le_bits(le_bytes(v, 8), 8) == v,
{
    reveal_with_fuel(le_bits, 9);
    let b = le_bytes(v, 8);
    let c = le_bytes(v, 4);
    let b0 = ((v >> 0u64) & 0xff) as u8;
    let b1 = ((v >> 8u64) & 0xff) as u8;
    let b2 = ((v >> 16u64) & 0xff) as u8;
    let b3 = ((v >> 24u64) & 0xff) as u8;
    let b4 = ((v >> 32u64) & 0xff) as u8;
    let b5 = ((v >> 40u64) & 0xff) as u8;
    let b6 = ((v >> 48u64) & 0xff) as u8;
    let b7 = ((v >> 56u64) & 0xff) as u8;
    assert(b[0] == b0 && b[1] == b1 && b[2] == b2 && b[3] == b3);
    assert(b[4] == b4 && b[5] == b5 && b[6] == b6 && b[7] == b7);
    assert(c[0] == b0 && c[1] == b1 && c[2] == b2 && c[3] == b3);
    assert(((((((((0u64 | ((b0 as u64) << 0u64)) | ((b1 as u64) << 8u64)) | ((b2 as u64) << 16u64)) | ((b3 as u64) << 24u64)) | ((b4 as u64) << 32u64)) | ((b5 as u64) << 40u64)) | ((b6 as u64) << 48u64)) | ((b7 as u64) << 56u64)) == v) by (bit_vector)
        requires
            b0 == ((v >> 0u64) & 0xff) as u8,
            b1 == ((v >> 8u64) & 0xff) as u8,
            b2 == ((v >> 16u64) & 0xff) as u8,
            b3 == ((v >> 24u64) & 0xff) as u8,
            b4 == ((v >> 32u64) & 0xff) as u8,
            b5 == ((v >> 40u64) & 0xff) as u8,
            b6 == ((v >> 48u64) & 0xff) as u8,
            b7 == ((v >> 56u64) & 0xff) as u8,
    ;
    assert(v < 0x1_0000_0000 ==> (((((0u64 | ((b0 as u64) << 0u64)) | ((b1 as u64) << 8u64)) | ((b2 as u64) << 16u64)) | ((b3 as u64) << 24u64)) == v)) by (bit_vector)
        requires
            b0 == ((v >> 0u64) & 0xff) as u8,
            b1 == ((v >> 8u64) & 0xff) as u8,
            b2 == ((v >> 16u64) & 0xff) as u8,
            b3 == ((v >> 24u64) & 0xff) as u8,
    ;
}

/// The stored form of a stored key is itself.
pub proof fn lemma_canonical_idempotent(kind: KeyKind, k: Seq<u8>)
    ensures
        canonical_key(kind, canonical_key(kind, k)) == canonical_key(kind, k),
{
    match kind {
        KeyKind::F32 => {
            let x = le_bits(k, 4) as u32;
            let c = f32_key_bits_spec(x);
            lemma_le_round_trip(c as u64);
            assert((c as u64) < 0x1_0000_0000);
            assert(le_bits(le_bytes(c as u64, 4), 4) as u32 == c);
            assert(f32_key_bits_spec(f32_key_bits_spec(x)) == f32_key_bits_spec(x)) by (bit_vector);
        },
        KeyKind::F64 => {
            let x = le_bits(k, 8);
            let c = f64_key_bits_spec(x);
            lemma_le_round_trip(c);
            assert(f64_key_bits_spec(f64_key_bits_spec(x)) == f64_key_bits_spec(x)) by (bit_vector);
        },
        _ => {},
    }
}

/// The little-endian value of the first `n` bytes of `k`.
pub(crate) fn read_bits(k: &[u8], n: usize) -> (r: u64)
    requires
        n <= k@.len(),
        n <= 8,
    ensures
        r == le_bits(k@, n as nat),
{
    let mut v: u64 = 0;
    let mut i: usize = 0;
    while i < n
        invariant
            i <= n <= k@.len(),
            n <= 8,
            v == le_bits(k@, i as nat),
        decreases n - i,
    {
        v = v | ((k[i] as u64) << ((8 * i) as u64));
        i = i + 1;
    }
    v
}

/// The low `n` bytes of `v`, least significant first.
pub(crate) fn write_bits(v: u64, n: usize) -> (r: Vec<u8>)
    requires
        n <= 8,
    ensures
        r@ == le_bytes(v, n as nat),
{
    let mut out: Vec<u8> = Vec::new();
    let mut i: usize = 0;
    while i < n
        invariant
            i <= n <= 8,
            out@ =~= le_bytes(v, i as nat),
        decreases n - i,
    {
        out.push(((v >> ((8 * i) as u64)) & 0xff) as u8);
        i = i + 1;
    }
    out
}

/// The stored form of a key.
fn canonical(kind: KeyKind, key: &[u8]) -> (r: Vec<u8>)
    requires
        kind == KeyKind::F32 ==> key@.len() == 4,
        kind == KeyKind::F64 ==> key@.len() == 8,
    ensures
        r@ == canonical_key(kind, key@),
{
    match kind {
        KeyKind::F32 => write_bits(f32_key_bits(read_bits(key, 4) as u32) as u64, 4),
        KeyKind::F64 => write_bits(f64_key_bits(read_bits(key, 8)), 8),
        _ => {
            let mut out: Vec<u8> = Vec::new();
            let mut i: usize = 0;
            while i < key.len()
                invariant
                    i <= key@.len(),
                    out@ =~= key@.subrange(0, i as int),
                decreases key@.len() - i,
            {
                out.push(key[i]);
                i = i + 1;
            }
            proof {
                assert(key@.subrange(0, key@.len() as int) =~= key@);
            }
            out
        },
    }
}

/// The hash of a stored key.
fn hash_of(kind: KeyKind, key: &[u8]) -> (r: u64)
    requires
        kind != KeyKind::Str ==> key@.len() <= 8,
    ensures
        r == key_hash(kind, key@),
{
    match kind {
        KeyKind::Str => fnv1a(key),
        _ => mix64(read_bits(key, key.len())),
    }
}

// ----- the index -----

/// `x` brought back into `[0, cap)` after one step past the end.
pub open spec fn wrap(x: int, cap: int) -> int {
    if x < cap { x } else { x - cap }
}

/// The first bucket probed for hash `h` among `cap` buckets.
pub open spec fn home(h: u64, cap: int) -> int {
    h as int % cap
}

/// How many steps a probe starting at `from` takes to reach bucket `b`.
pub open spec fn dist(from: int, b: int, cap: int) -> int {
    if b >= from { b - from } else { b + cap - from }
}

/// Every bucket a probe for hash `h` passes before reaching `b` is in
/// use (live or tombstone), so a lookup of `h` reaches `b`.
pub open spec fn reachable(s: Seq<u64>, h: u64, b: int) -> bool {
    forall|k: int|
        0 <= k < dist(home(h, s.len() as int), b, s.len() as int) ==> #[trigger] s[wrap(
            home(h, s.len() as int) + k,
            s.len() as int,
        )] != EMPTY
}

/// Number of buckets in use (live or tombstone).
pub open spec fn count_used(s: Seq<u64>) -> nat
    decreases s.len(),
{
    if s.len() == 0 {
        0
    } else {
        count_used(s.drop_last()) + if s.last() != EMPTY { 1nat } else { 0 }
    }
}

/// Number of tombstone buckets.
pub open spec fn count_tombstones(s: Seq<u64>) -> nat
    decreases s.len(),
{
    if s.len() == 0 {
        0
    } else {
        count_tombstones(s.drop_last()) + if s.last() == TOMBSTONE { 1nat } else { 0 }
    }
}

/// The home bucket lies among the buckets.
proof fn lemma_home(h: u64, cap: int)
    requires
        cap > 0,
    ensures
        0 <= home(h, cap) < cap,
{
    vstd::arithmetic::div_mod::lemma_mod_bound(h as int, cap);
}

/// A probe from `from` reaches every bucket within `cap` steps.
proof fn lemma_dist(from: int, b: int, cap: int)
    requires
        0 <= from < cap,
        0 <= b < cap,
    ensures
        0 <= dist(from, b, cap) < cap,
        wrap(from + dist(from, b, cap), cap) == b,
{
}

/// Every bucket in use means the count of used buckets is the count of
/// buckets.
proof fn lemma_count_used_full(s: Seq<u64>)
    requires
        forall|b: int| 0 <= b < s.len() ==> s[b] != EMPTY,
    ensures
        count_used(s) == s.len(),
    decreases s.len(),
{
    if s.len() > 0 {
        assert(s.last() == s[s.len() - 1]);
        lemma_count_used_full(s.drop_last());
    }
}

/// No more buckets are used than exist.
proof fn lemma_count_used_bound(s: Seq<u64>)
    ensures
        count_used(s) <= s.len(),
        count_tombstones(s) <= count_used(s),
    decreases s.len(),
{
    if s.len() > 0 {
        lemma_count_used_bound(s.drop_last());
    }
}

/// A probe that found every bucket in use has visited a full table.
proof fn lemma_probe_saw_all(s: Seq<u64>, from: int)
    requires
        0 <= from < s.len(),
        forall|k: int| 0 <= k < s.len() ==> #[trigger] s[wrap(from + k, s.len() as int)] != EMPTY,
    ensures
        count_used(s) == s.len(),
{
    assert forall|b: int| 0 <= b < s.len() implies s[b] != EMPTY by {
        lemma_dist(from, b, s.len() as int);
        let k = dist(from, b, s.len() as int);
        assert(s[wrap(from + k, s.len() as int)] != EMPTY);
    }
    lemma_count_used_full(s);
}

/// One ordered entry: its key's hash, whether it is live, and its key
/// and value bytes (cleared when deleted).
struct Entry {
    hash: u64,
    active: bool,
    key: Vec<u8>,
    value: Vec<u8>,
}

/// What an ordered entry holds: its key and value while live.
spec fn entry_view(e: Entry) -> Option<(Seq<u8>, Seq<u8>)> {
    if e.active { Some((e.key@, e.value@)) } else { None }
}

/// Number of live entries.
spec fn count_live(e: Seq<Entry>) -> nat
    decreases e.len(),
{
    if e.len() == 0 {
        0
    } else {
        count_live(e.drop_last()) + if e.last().active { 1nat } else { 0 }
    }
}

/// Number of live slots.
pub open spec fn count_some(s: Seq<Option<(Seq<u8>, Seq<u8>)>>) -> nat
    decreases s.len(),
{
    if s.len() == 0 {
        0
    } else {
        count_some(s.drop_last()) + if s.last() is Some { 1nat } else { 0 }
    }
}

/// Slot `o` is live and holds key `k`.
pub open spec fn holds_key(o: Option<(Seq<u8>, Seq<u8>)>, k: Seq<u8>) -> bool {
    match o {
        Some((key, _)) => key == k,
        None => false,
    }
}

/// The position of the live slot with key `k`, if any.
pub open spec fn position_of(s: Seq<Option<(Seq<u8>, Seq<u8>)>>, k: Seq<u8>) -> Option<int>
    decreases s.len(),
{
    if s.len() == 0 {
        None
    } else if holds_key(s.last(), k) {
        Some(s.len() - 1)
    } else {
        position_of(s.drop_last(), k)
    }
}

/// The slot view of a sequence of entries.
spec fn view_of(e: Seq<Entry>) -> Seq<Option<(Seq<u8>, Seq<u8>)>> {
    e.map_values(|x: Entry| entry_view(x))
}

/// Live entries have distinct keys.
spec fn keys_unique(e: Seq<Entry>) -> bool {
    forall|i: int, j: int|
        0 <= i < j < e.len() && #[trigger] e[i].active && #[trigger] e[j].active ==> e[i].key@
            != e[j].key@
}

/// The live entry with key `k` is the slot `position_of` finds.
proof fn lemma_position_found(e: Seq<Entry>, k: Seq<u8>, i: int)
    requires
        keys_unique(e),
        0 <= i < e.len(),
        e[i].active,
        e[i].key@ == k,
    ensures
        position_of(view_of(e), k) == Some(i),
    decreases e.len(),
{
    let v = view_of(e);
    assert(v.drop_last() =~= view_of(e.drop_last()));
    if i < e.len() - 1 {
        let last = e.len() - 1;
        if e[last].active && e[last].key@ == k {
            assert(e[i].active && e[last].active);
        }
        assert(v.last() == entry_view(e[last]));
        lemma_position_found(e.drop_last(), k, i);
    } else {
        assert(v.last() == entry_view(e[i]));
    }
}

/// With no live entry holding `k`, `position_of` finds none.
proof fn lemma_position_absent(e: Seq<Entry>, k: Seq<u8>)
    requires
        forall|i: int| 0 <= i < e.len() && #[trigger] e[i].active ==> e[i].key@ != k,
    ensures
        position_of(view_of(e), k) is None,
    decreases e.len(),
{
    if e.len() > 0 {
        let v = view_of(e);
        assert(v.drop_last() =~= view_of(e.drop_last()));
        assert(v.last() == entry_view(e[e.len() - 1]));
        lemma_position_absent(e.drop_last(), k);
    }
}

/// Live entries are live slots.
proof fn lemma_count_some(e: Seq<Entry>)
    ensures
        count_some(view_of(e)) == count_live(e),
    decreases e.len(),
{
    if e.len() > 0 {
        assert(view_of(e).drop_last() =~= view_of(e.drop_last()));
        lemma_count_some(e.drop_last());
    }
}

/// Changing one entry changes the live count by its change of state.
proof fn lemma_count_live_update(e: Seq<Entry>, i: int, x: Entry)
    requires
        0 <= i < e.len(),
    ensures
        count_live(e.update(i, x)) == count_live(e) - (if e[i].active { 1int } else { 0 }) + (if x.active { 1int } else { 0 }),
    decreases e.len(),
{
    if i < e.len() - 1 {
        assert(e.update(i, x).drop_last() =~= e.drop_last().update(i, x));
        lemma_count_live_update(e.drop_last(), i, x);
    } else {
        assert(e.update(i, x).drop_last() =~= e.drop_last());
    }
}

/// Changing one bucket changes the counts by its change of state.
proof fn lemma_count_update(s: Seq<u64>, b: int, v: u64)
    requires
        0 <= b < s.len(),
    ensures
        count_used(s.update(b, v)) == count_used(s) - (if s[b] != EMPTY { 1int } else { 0 }) + (if v != EMPTY { 1int } else { 0 }),
        count_tombstones(s.update(b, v)) == count_tombstones(s) - (if s[b] == TOMBSTONE { 1int } else { 0 }) + (if v == TOMBSTONE { 1int } else { 0 }),
    decreases s.len(),
{
    if b < s.len() - 1 {
        assert(s.update(b, v).drop_last() =~= s.drop_last().update(b, v));
        lemma_count_update(s.drop_last(), b, v);
    } else {
        assert(s.update(b, v).drop_last() =~= s.drop_last());
    }
}

/// A probe passes each bucket once: within `cap` steps, the step that
/// lands on `b` is its distance.
proof fn lemma_wrap_unique(from: int, k: int, cap: int)
    requires
        0 <= from < cap,
        0 <= k < cap,
    ensures
        dist(from, wrap(from + k, cap), cap) == k,
{
}

/// The live slots in order, deleted ones dropped.
pub open spec fn packed(s: Seq<Option<(Seq<u8>, Seq<u8>)>>) -> Seq<Option<(Seq<u8>, Seq<u8>)>>
    decreases s.len(),
{
    if s.len() == 0 {
        s
    } else if s.last() is Some {
        packed(s.drop_last()).push(s.last())
    } else {
        packed(s.drop_last())
    }
}

/// `x` saturated at `u64::MAX`.
pub open spec fn sat(x: int) -> int {
    if x > u64::MAX { u64::MAX as int } else { x }
}

/// A prefix holds no more live entries than the whole.
proof fn lemma_count_live_prefix(e: Seq<Entry>, i: int)
    requires
        0 <= i <= e.len(),
    ensures
        count_live(e.subrange(0, i)) <= count_live(e),
        i < e.len() ==> count_live(e.subrange(0, i + 1)) == count_live(e.subrange(0, i)) + if e[i].active { 1nat } else { 0 },
    decreases e.len() - i,
{
    if i < e.len() {
        assert(e.subrange(0, i + 1).drop_last() =~= e.subrange(0, i));
        lemma_count_live_prefix(e, i + 1);
    } else {
        assert(e.subrange(0, i) =~= e);
    }
}

/// Live entries never outnumber the entries.
proof fn lemma_count_live_bound(e: Seq<Entry>)
    ensures
        count_live(e) <= e.len(),
    decreases e.len(),
{
    if e.len() > 0 {
        lemma_count_live_bound(e.drop_last());
    }
}

/// A fresh index has no bucket in use.
proof fn lemma_count_fresh(s: Seq<u64>)
    requires
        forall|b: int| 0 <= b < s.len() ==> s[b] == EMPTY,
    ensures
        count_used(s) == 0,
        count_tombstones(s) == 0,
    decreases s.len(),
{
    if s.len() > 0 {
        assert(s.last() == s[s.len() - 1]);
        lemma_count_fresh(s.drop_last());
    }
}

/// A copy of `v`.
fn copy_bytes(v: &[u8]) -> (r: Vec<u8>)
    ensures
        r@ == v@,
{
    let mut out: Vec<u8> = Vec::new();
    let mut i: usize = 0;
    while i < v.len()
        invariant
            i <= v@.len(),
            out@ =~= v@.subrange(0, i as int),
        decreases v@.len() - i,
    {
        out.push(v[i]);
        i = i + 1;
    }
    proof {
        assert(v@.subrange(0, v@.len() as int) =~= v@);
    }
    out
}

/// The empty bucket a probe for `hash` reaches first; one exists while
/// some bucket is unused.
fn probe_empty(buckets: &Vec<u64>, hash: u64) -> (b: usize)
    requires
        count_used(buckets@) < buckets@.len(),
    ensures
        b < buckets@.len(),
        buckets@[b as int] == EMPTY,
        reachable(buckets@, hash, b as int),
{
    let ghost s = buckets@;
    let cap = buckets.len();
    proof {
        lemma_home(hash, cap as int);
    }
    let ghost h0 = home(hash, cap as int);
    let mut bucket = (hash % (cap as u64)) as usize;
    let mut step: usize = 0;
    while step < cap
        invariant
            s == buckets@,
            cap == s.len(),
            cap > 0,
            0 <= h0 < cap,
            h0 == home(hash, cap as int),
            count_used(s) < cap,
            step <= cap,
            bucket == wrap(h0 + step, cap as int),
            forall|k: int| 0 <= k < step ==> #[trigger] s[wrap(h0 + k, cap as int)] != EMPTY,
        decreases cap - step,
    {
        if buckets[bucket] == EMPTY {
            proof {
                lemma_dist(h0, bucket as int, cap as int);
                lemma_wrap_unique(h0, step as int, cap as int);
            }
            return bucket;
        }
        bucket = if bucket + 1 == cap { 0 } else { bucket + 1 };
        step = step + 1;
    }
    proof {
        lemma_probe_saw_all(s, h0);
    }
    0
}

/// Every packed slot is one of the slots it was packed from.
proof fn lemma_packed_from(s: Seq<Option<(Seq<u8>, Seq<u8>)>>, j: int)
    requires
        0 <= j < packed(s).len(),
    ensures
        exists|i: int| 0 <= i < s.len() && s[i] == #[trigger] packed(s)[j],
    decreases s.len(),
{
    if s.len() > 0 {
        let front = s.drop_last();
        if s.last() is Some && j == packed(front).len() {
            assert(s[s.len() - 1] == packed(s)[j]);
        } else {
            lemma_packed_from(front, j);
            let i = choose|i: int| 0 <= i < front.len() && front[i] == #[trigger] packed(front)[j];
            assert(s[i] == packed(s)[j]);
        }
    }
}

/// Appending an entry adds its liveness to the count.
proof fn lemma_count_live_push(e: Seq<Entry>, x: Entry)
    ensures
        count_live(e.push(x)) == count_live(e) + if x.active { 1nat } else { 0 },
{
    assert(e.push(x).drop_last() =~= e);
}

/// The value stored under `k` in slots `s`, if any.
pub open spec fn value_of(s: Seq<Option<(Seq<u8>, Seq<u8>)>>, k: Seq<u8>) -> Option<Seq<u8>> {
    match position_of(s, k) {
        Some(p) => match s[p] {
            Some((_, v)) => Some(v),
            None => None,
        },
        None => None,
    }
}

/// The key of a live slot.
pub open spec fn slot_key(o: Option<(Seq<u8>, Seq<u8>)>) -> Seq<u8> {
    match o {
        Some((k, _)) => k,
        None => Seq::empty(),
    }
}

/// No two live slots share a key.
pub open spec fn slot_keys_unique(s: Seq<Option<(Seq<u8>, Seq<u8>)>>) -> bool {
    forall|i: int, j: int|
        0 <= i < j < s.len() && #[trigger] s[i] is Some && #[trigger] s[j] is Some ==> slot_key(s[i])
            != slot_key(s[j])
}

/// `position_of` finds a live slot holding the key, and none after it
/// holds the key.
pub proof fn lemma_position_spec(s: Seq<Option<(Seq<u8>, Seq<u8>)>>, k: Seq<u8>)
    ensures
        match position_of(s, k) {
            Some(p) => 0 <= p < s.len() && holds_key(s[p], k) && forall|q: int|
                p < q < s.len() ==> !holds_key(#[trigger] s[q], k),
            None => forall|q: int| 0 <= q < s.len() ==> !holds_key(#[trigger] s[q], k),
        },
    decreases s.len(),
{
    if s.len() > 0 {
        let f = s.drop_last();
        let n = s.len() - 1;
        lemma_position_spec(f, k);
        assert(s.last() == s[n]);
        if holds_key(s[n], k) {
            assert(position_of(s, k) == Some(n));
        } else {
            assert(position_of(s, k) == position_of(f, k));
            match position_of(f, k) {
                Some(p) => {
                    assert forall|q: int| p < q < s.len() implies !holds_key(#[trigger] s[q], k) by {
                        if q < n {
                            assert(s[q] == f[q]);
                        }
                    }
                    assert(s[p] == f[p]);
                },
                None => {
                    assert forall|q: int| 0 <= q < s.len() implies !holds_key(#[trigger] s[q], k) by {
                        if q < n {
                            assert(s[q] == f[q]);
                        }
                    }
                },
            }
        }
    }
}

/// A slot `p` holding `k` with no later slot holding it is what
/// `position_of` finds.
pub proof fn lemma_position_is(s: Seq<Option<(Seq<u8>, Seq<u8>)>>, k: Seq<u8>, p: int)
    requires
        0 <= p < s.len(),
        holds_key(s[p], k),
        forall|q: int| p < q < s.len() ==> !holds_key(#[trigger] s[q], k),
    ensures
        position_of(s, k) == Some(p),
{
    lemma_position_spec(s, k);
    match position_of(s, k) {
        Some(p2) => {
            if p2 < p {
                assert(holds_key(s[p], k));
            } else if p2 > p {
                assert(holds_key(s[p2], k));
            }
        },
        None => {
            assert(holds_key(s[p], k));
        },
    }
}

/// Packing keeps the value stored under every key.
proof fn lemma_packed_value(s: Seq<Option<(Seq<u8>, Seq<u8>)>>, k: Seq<u8>)
    ensures
        value_of(packed(s), k) == value_of(s, k),
    decreases s.len(),
{
    if s.len() > 0 {
        let f = s.drop_last();
        lemma_packed_value(f, k);
        let pf = packed(f);
        assert(s.last() == s[s.len() - 1]);
        if !holds_key(s.last(), k) {
            assert(position_of(s, k) == position_of(f, k));
            if let Some(p) = position_of(f, k) {
                lemma_position_spec(f, k);
                assert(s[p] == f[p]);
            }
        }
        if s.last() is Some {
            let ps = pf.push(s.last());
            assert(packed(s) == ps);
            assert(ps.drop_last() =~= pf);
            assert(ps.last() == s.last());
            if !holds_key(s.last(), k) {
                assert(position_of(ps, k) == position_of(pf, k));
                if let Some(p) = position_of(pf, k) {
                    lemma_position_spec(pf, k);
                    assert(ps[p] == pf[p]);
                }
            }
        } else {
            assert(packed(s) == pf);
        }
    }
}

/// What a write stores, a read gives back: in the slots an insertion of
/// `k` leaves (the slot holding `k` updated in place, or a new slot
/// appended after whatever packing), `k` holds `v`.
pub proof fn lemma_read_after_write(
    s: Seq<Option<(Seq<u8>, Seq<u8>)>>,
    base: Seq<Option<(Seq<u8>, Seq<u8>)>>,
    k: Seq<u8>,
    v: Seq<u8>,
)
    ensures
        value_of(
            match position_of(s, k) {
                Some(p) => s.update(p, Some((k, v))),
                None => base.push(Some((k, v))),
            },
            k,
        ) == Some(v),
{
    match position_of(s, k) {
        Some(p) => {
            lemma_position_spec(s, k);
            let after = s.update(p, Some((k, v)));
            assert forall|q: int| p < q < after.len() implies !holds_key(#[trigger] after[q], k) by {
                assert(after[q] == s[q]);
            }
            lemma_position_is(after, k, p);
        },
        None => {
            let after = base.push(Some((k, v)));
            lemma_position_is(after, k, base.len() as int);
        },
    }
}

/// A write leaves every other key's value alone, packing included.
pub proof fn lemma_write_keeps_others(
    s: Seq<Option<(Seq<u8>, Seq<u8>)>>,
    k: Seq<u8>,
    v: Seq<u8>,
    other: Seq<u8>,
)
    requires
        other != k,
    ensures
        value_of(
            match position_of(s, k) {
                Some(p) => s.update(p, Some((k, v))),
                None => s.push(Some((k, v))),
            },
            other,
        ) == value_of(s, other),
        value_of(packed(s).push(Some((k, v))), other) == value_of(s, other),
{
    lemma_position_spec(s, other);
    lemma_packed_value(s, other);
    let ps = packed(s);
    lemma_position_spec(ps, other);
    let pushed = ps.push(Some((k, v)));
    assert(pushed.drop_last() =~= ps);
    let appended = s.push(Some((k, v)));
    assert(appended.drop_last() =~= s);
    if let Some(p) = position_of(s, k) {
        lemma_position_spec(s, k);
        let after = s.update(p, Some((k, v)));
        match position_of(s, other) {
            Some(q) => {
                assert forall|x: int| q < x < after.len() implies !holds_key(#[trigger] after[x], other) by {
                    if x != p {
                        assert(after[x] == s[x]);
                    }
                }
                assert(q != p);
                lemma_position_is(after, other, q);
            },
            None => {
                lemma_position_spec(after, other);
                if let Some(q) = position_of(after, other) {
                    if q != p {
                        assert(after[q] == s[q]);
                    }
                }
            },
        }
    }
}

/// A deleted key reads as absent, and every other key keeps its value.
pub proof fn lemma_delete_removes(s: Seq<Option<(Seq<u8>, Seq<u8>)>>, k: Seq<u8>, other: Seq<u8>)
    requires
        slot_keys_unique(s),
        other != k,
    ensures
        ({
            let after = match position_of(s, k) {
                Some(p) => s.update(p, None),
                None => s,
            };
            value_of(after, k) is None && value_of(after, other) == value_of(s, other)
        }),
{
    lemma_position_spec(s, k);
    lemma_position_spec(s, other);
    if let Some(p) = position_of(s, k) {
        let after = s.update(p, None);
        lemma_position_spec(after, k);
        if let Some(q) = position_of(after, k) {
            assert(q != p);
            assert(after[q] == s[q]);
            if q < p {
                assert(s[q] is Some && s[p] is Some);
            }
        }
        lemma_position_spec(after, other);
        match position_of(s, other) {
            Some(q) => {
                assert(q != p);
                assert forall|x: int| q < x < after.len() implies !holds_key(#[trigger] after[x], other) by {
                    if x != p {
                        assert(after[x] == s[x]);
                    }
                }
                lemma_position_is(after, other, q);
            },
            None => {
                if let Some(q) = position_of(after, other) {
                    assert(after[q] == s[q]);
                }
            },
        }
    }
}

/// Entries all live are all counted.
proof fn lemma_count_live_all(e: Seq<Entry>)
    requires
        forall|i: int| 0 <= i < e.len() ==> #[trigger] e[i].active,
    ensures
        count_live(e) == e.len(),
    decreases e.len(),
{
    if e.len() > 0 {
        assert(e.last() == e[e.len() - 1]);
        assert forall|i: int| 0 <= i < e.drop_last().len() implies #[trigger] e.drop_last()[i].active by {
            assert(e.drop_last()[i] == e[i]);
        }
        lemma_count_live_all(e.drop_last());
    }
}

/// The container: live and deleted entries in insertion order, and the
/// bucket index. Each bucket is `EMPTY`, `TOMBSTONE`, or one more than
/// the position of a live entry.
pub struct AssocTable {
    kind: KeyKind,
    key_size: usize,
    value_size: usize,
    entries: Vec<Entry>,
    order_cap: usize,
    buckets: Vec<u64>,
    len: usize,
    tombstones: usize,
    iteration_depth: u64,
    at: Ghost<Seq<int>>,
}

/// Where a probe for a key ended: the entry holding it, or the bucket a
/// new entry would take (the first tombstone passed, else the empty
/// bucket that ended the probe).
struct Probe {
    bucket: usize,
    entry: Option<usize>,
}

impl AssocTable {
    /// The entries in insertion order: the key and value of each live
    /// entry, `None` for each deleted one not yet packed out.
    pub closed spec fn slots(&self) -> Seq<Option<(Seq<u8>, Seq<u8>)>> {
        self.entries@.map_values(|e: Entry| entry_view(e))
    }

    /// The entry count at which the ordered storage next grows.
    pub closed spec fn order_capacity(&self) -> nat {
        self.order_cap as nat
    }

    /// The number of running iterations.
    pub closed spec fn depth(&self) -> nat {
        self.iteration_depth as nat
    }

    /// The key kind.
    pub closed spec fn key_kind(&self) -> KeyKind {
        self.kind
    }

    /// The key width.
    pub closed spec fn key_width(&self) -> usize {
        self.key_size
    }

    /// The value width.
    pub closed spec fn value_width(&self) -> usize {
        self.value_size
    }

    /// The number of live entries.
    pub open spec fn live_count(&self) -> nat {
        count_some(self.slots())
    }

    /// An empty container for keys of `kind` and width `key_size` and
    /// values of width `value_size`; `None` when the entry layout is not
    /// representable or the key width does not suit the kind.
    pub fn new(kind: KeyKind, key_size: usize, value_size: usize) -> (r: Option<AssocTable>)
        ensures
            match r {
                Some(t) => {
                    &&& t.wf()
                    &&& t.slots() == Seq::<Option<(Seq<u8>, Seq<u8>)>>::empty()
                    &&& t.order_capacity() == 0
                    &&& t.bucket_capacity() == 0
                    &&& t.depth() == 0
                    &&& t.key_kind() == kind
                    &&& t.key_width() == key_size
                    &&& t.value_width() == value_size
                },
                None => true,
            },
            r is None <==> stride_of(key_size as int, value_size as int) > usize::MAX
                || !key_shape_ok(kind, key_size),
    {
        if entry_stride(key_size, value_size).is_none() || !shape_ok(kind, key_size) {
            return None;
        }
        let t = AssocTable {
            kind,
            key_size,
            value_size,
            entries: Vec::new(),
            order_cap: 0,
            buckets: Vec::new(),
            len: 0,
            tombstones: 0,
            iteration_depth: 0,
            at: Ghost(Seq::empty()),
        };
        proof {
            assert(t.slots() =~= Seq::<Option<(Seq<u8>, Seq<u8>)>>::empty());
        }
        Some(t)
    }

    /// The number of live entries.
    pub fn len(&self) -> (r: usize)
        requires
            self.wf(),
        ensures
            r == self.live_count(),
    {
        proof {
            lemma_count_some(self.entries@);
        }
        self.len
    }

    /// The number of ordered entries, deleted ones not yet packed out
    /// included: an iteration visits positions below it.
    pub fn order_len(&self) -> (r: usize)
        ensures
            r == self.slots().len(),
    {
        self.entries.len()
    }

    /// The key and value of the live entry at ordered position `index`;
    /// `None` for a deleted entry or past the end.
    pub fn entry_at(&self, index: usize) -> (r: Option<(&[u8], &[u8])>)
        ensures
            match r {
                Some((k, v)) => index < self.slots().len() && self.slots()[index as int] == Some(
                    (k@, v@),
                ),
                None => index >= self.slots().len() || self.slots()[index as int] is None,
            },
    {
        if index >= self.entries.len() {
            return None;
        }
        let e = &self.entries[index];
        if e.active {
            Some((e.key.as_slice(), e.value.as_slice()))
        } else {
            None
        }
    }

    /// Starts an iteration: packing is suppressed until it ends.
    pub fn begin_iteration(&mut self)
        requires
            old(self).wf(),
        ensures
            final(self).wf(),
            final(self).slots() == old(self).slots(),
            final(self).order_capacity() == old(self).order_capacity(),
            final(self).depth() == if old(self).depth() < u64::MAX {
                old(self).depth() + 1
            } else {
                old(self).depth()
            },
    {
        self.iteration_depth = self.iteration_depth.saturating_add(1);
    }

    /// Ends an iteration.
    pub fn end_iteration(&mut self)
        requires
            old(self).wf(),
        ensures
            final(self).wf(),
            final(self).slots() == old(self).slots(),
            final(self).order_capacity() == old(self).order_capacity(),
            final(self).depth() == if old(self).depth() > 0 {
                old(self).depth() - 1
            } else {
                0
            },
    {
        self.iteration_depth = self.iteration_depth.saturating_sub(1);
    }

    /// The value stored under `key`, compared under the container's key
    /// kind (floats under SameValueZero).
    pub fn get(&self, key: &[u8]) -> (r: Option<&[u8]>)
        requires
            self.wf(),
            key_fits(self.key_kind(), self.key_width(), key@),
        ensures
            match position_of(self.slots(), canonical_key(self.key_kind(), key@)) {
                Some(p) => r matches Some(v) && self.slots()[p] == Some(
                    (canonical_key(self.key_kind(), key@), v@),
                ),
                None => r is None,
            },
    {
        let stored = canonical(self.kind, key);
        let hash = hash_of(self.kind, stored.as_slice());
        let found = self.lookup(stored.as_slice(), hash);
        match found.entry {
            Some(i) => {
                proof {
                    lemma_position_found(self.entries@, stored@, i as int);
                }
                Some(self.entries[i].value.as_slice())
            },
            None => {
                proof {
                    lemma_position_absent(self.entries@, stored@);
                }
                None
            },
        }
    }

    /// Whether `key` is stored.
    pub fn has(&self, key: &[u8]) -> (r: bool)
        requires
            self.wf(),
            key_fits(self.key_kind(), self.key_width(), key@),
        ensures
            r == position_of(self.slots(), canonical_key(self.key_kind(), key@)) is Some,
    {
        self.get(key).is_some()
    }

    /// Deletes `key`: its entry is cleared in place (keeping its ordered
    /// position) and its bucket becomes a tombstone. False when absent.
    pub fn delete(&mut self, key: &[u8]) -> (r: bool)
        requires
            old(self).wf(),
            key_fits(old(self).key_kind(), old(self).key_width(), key@),
        ensures
            final(self).wf(),
            final(self).order_capacity() == old(self).order_capacity(),
            final(self).depth() == old(self).depth(),
            final(self).key_kind() == old(self).key_kind(),
            final(self).key_width() == old(self).key_width(),
            final(self).value_width() == old(self).value_width(),
            match position_of(old(self).slots(), canonical_key(old(self).key_kind(), key@)) {
                Some(p) => r && final(self).slots() == old(self).slots().update(p, None),
                None => !r && final(self).slots() == old(self).slots(),
            },
    {
        let stored = canonical(self.kind, key);
        let hash = hash_of(self.kind, stored.as_slice());
        let found = self.lookup(stored.as_slice(), hash);
        let i = match found.entry {
            Some(i) => i,
            None => {
                proof {
                    lemma_position_absent(self.entries@, stored@);
                }
                return false;
            },
        };
        let ghost e0 = self.entries@;
        let ghost s0 = self.buckets@;
        let b = found.bucket;
        proof {
            lemma_position_found(e0, stored@, i as int);
            lemma_count_update(s0, b as int, TOMBSTONE);
        }
        let cap = self.buckets.len();
        proof {
            lemma_count_used_bound(s0);
        }
        self.buckets.set(b, TOMBSTONE);
        let cleared = Entry { hash: 0, active: false, key: Vec::new(), value: Vec::new() };
        proof {
            lemma_count_live_update(e0, i as int, cleared);
        }
        self.entries.set(i, cleared);
        self.len = self.len - 1;
        self.tombstones = self.tombstones + 1;
        proof {
            let e = self.entries@;
            let s = self.buckets@;
            let cap = s.len() as int;
            assert forall|j: int| 0 <= j < e.len() && #[trigger] e[j].active implies 0 <= self.at@[j] < cap && s[self.at@[j]] == j + 1
                && e[j].hash == key_hash(self.kind, e[j].key@) && reachable(s, e[j].hash, self.at@[j])
                && key_fits(self.kind, self.key_size, e[j].key@) && e[j].value@.len() == self.value_size
                && canonical_key(self.kind, e[j].key@) == e[j].key@ by {
                assert(e0[j].active && e[j] == e0[j]);
                assert(self.at@[j] != b);
                assert forall|k: int| 0 <= k < dist(home(e[j].hash, cap), self.at@[j], cap) implies #[trigger] s[wrap(home(e[j].hash, cap) + k, cap)] != EMPTY by {
                    assert(s0[wrap(home(e[j].hash, cap) + k, cap)] != EMPTY);
                }
            }
            assert forall|c: int| 0 <= c < cap && #[trigger] s[c] != EMPTY && s[c] != TOMBSTONE implies 1 <= s[c] <= e.len() && e[s[c] - 1].active && self.at@[s[c] - 1] == c by {
                assert(c != b);
                assert(s[c] == s0[c]);
                if s[c] - 1 == i {
                    assert(self.at@[i as int] == b);
                }
            }
            assert forall|x: int, y: int| 0 <= x < y < e.len() && #[trigger] e[x].active && #[trigger] e[y].active implies e[x].key@ != e[y].key@ by {
                assert(e0[x].active && e0[y].active);
            }
            assert(self.slots() =~= old(self).slots().update(i as int, None));
        }
        true
    }

    /// Drops every entry and both capacities.
    pub fn clear(&mut self)
        requires
            old(self).wf(),
        ensures
            final(self).wf(),
            final(self).slots() == Seq::<Option<(Seq<u8>, Seq<u8>)>>::empty(),
            final(self).order_capacity() == 0,
            final(self).depth() == old(self).depth(),
            final(self).key_kind() == old(self).key_kind(),
            final(self).key_width() == old(self).key_width(),
            final(self).value_width() == old(self).value_width(),
    {
        self.entries = Vec::new();
        self.buckets = Vec::new();
        self.order_cap = 0;
        self.len = 0;
        self.tombstones = 0;
        self.at = Ghost(Seq::empty());
        proof {
            assert(self.slots() =~= Seq::<Option<(Seq<u8>, Seq<u8>)>>::empty());
        }
    }

    /// The bucket count of the index.
    pub closed spec fn bucket_capacity(&self) -> nat {
        self.buckets@.len()
    }

    /// The number of tombstone buckets.
    pub closed spec fn tombstone_count(&self) -> nat {
        self.tombstones as nat
    }

    /// The ordered storage is full and holds deleted entries, and no
    /// iteration runs: adding a key packs the deleted entries out first.
    pub open spec fn packs_next(&self) -> bool {
        &&& self.slots().len() == self.order_capacity()
        &&& self.depth() == 0
        &&& self.live_count() < self.slots().len()
    }

    /// Rebuilds the index over `new_cap` buckets: every live entry is
    /// placed at the first empty bucket its probe reaches.
    fn rebuild_index(&mut self, new_cap: usize)
        requires
            old(self).entries_ok(),
            old(self).len < new_cap,
        ensures
            final(self).wf(),
            final(self).entries@ == old(self).entries@,
            final(self).buckets@.len() == new_cap,
            final(self).tombstones == 0,
            final(self).len == old(self).len,
            final(self).order_cap == old(self).order_cap,
            final(self).iteration_depth == old(self).iteration_depth,
            final(self).kind == old(self).kind,
            final(self).key_size == old(self).key_size,
            final(self).value_size == old(self).value_size,
    {
        let ghost e = self.entries@;
        let mut buckets: Vec<u64> = Vec::new();
        let mut z: usize = 0;
        while z < new_cap
            invariant
                z <= new_cap,
                buckets@.len() == z,
                forall|b: int| 0 <= b < z ==> buckets@[b] == EMPTY,
            decreases new_cap - z,
        {
            buckets.push(EMPTY);
            z = z + 1;
        }
        proof {
            lemma_count_fresh(buckets@);
            lemma_count_live_prefix(e, 0);
        }
        let n = self.entries.len();
        let ghost mut at = Seq::new(n as nat, |q: int| 0int);
        let mut i: usize = 0;
        while i < n
            invariant
                self.entries_ok(),
                e == self.entries@,
                n == e.len(),
                self.len < new_cap,
                i <= n,
                buckets@.len() == new_cap,
                at.len() == n,
                n <= self.order_cap,
                self.order_cap % 2 == 0,
                count_used(buckets@) == count_live(e.subrange(0, i as int)),
                count_tombstones(buckets@) == 0,
                forall|b: int|
                    0 <= b < new_cap && #[trigger] buckets@[b] != EMPTY ==> buckets@[b] != TOMBSTONE && 1 <= buckets@[b] <= i
                        && e[buckets@[b] - 1].active && at[buckets@[b] - 1] == b,
                forall|j: int|
                    0 <= j < i && #[trigger] e[j].active ==> 0 <= at[j] < new_cap && buckets@[at[j]] == j + 1
                        && reachable(buckets@, e[j].hash, at[j]),
            decreases n - i,
        {
            proof {
                lemma_count_live_prefix(e, i as int);
            }
            if self.entries[i].active {
                let ghost before = buckets@;
                let b = probe_empty(&buckets, self.entries[i].hash);
                proof {
                    lemma_count_update(before, b as int, (i + 1) as u64);
                }
                buckets.set(b, (i + 1) as u64);
                proof {
                    at = at.update(i as int, b as int);
                    let s = buckets@;
                    assert forall|j: int| 0 <= j < i + 1 && #[trigger] e[j].active implies 0 <= at[j] < new_cap && s[at[j]] == j + 1
                        && reachable(s, e[j].hash, at[j]) by {
                        if j < i {
                            assert(before[at[j]] == j + 1);
                            assert forall|k: int| 0 <= k < dist(home(e[j].hash, new_cap as int), at[j], new_cap as int) implies #[trigger] s[wrap(home(e[j].hash, new_cap as int) + k, new_cap as int)] != EMPTY by {
                                assert(before[wrap(home(e[j].hash, new_cap as int) + k, new_cap as int)] != EMPTY);
                            }
                        } else {
                            assert forall|k: int| 0 <= k < dist(home(e[j].hash, new_cap as int), at[j], new_cap as int) implies #[trigger] s[wrap(home(e[j].hash, new_cap as int) + k, new_cap as int)] != EMPTY by {
                                assert(before[wrap(home(e[j].hash, new_cap as int) + k, new_cap as int)] != EMPTY);
                            }
                        }
                    }
                    assert forall|c: int| 0 <= c < new_cap && #[trigger] s[c] != EMPTY implies s[c] != TOMBSTONE && 1 <= s[c] <= i + 1
                        && e[s[c] - 1].active && at[s[c] - 1] == c by {
                        if c != b {
                            assert(s[c] == before[c]);
                        }
                    }
                }
            }
            i = i + 1;
        }
        self.buckets = buckets;
        self.tombstones = 0;
        self.at = Ghost(at);
        proof {
            assert(e.subrange(0, n as int) =~= e);
            lemma_count_live_bound(e);
            let s = self.buckets@;
            assert forall|j: int| 0 <= j < e.len() && #[trigger] e[j].active implies 0 <= at[j] < new_cap && s[at[j]] == j + 1
                && e[j].hash == key_hash(self.kind, e[j].key@) && reachable(s, e[j].hash, at[j])
                && key_fits(self.kind, self.key_size, e[j].key@) && e[j].value@.len() == self.value_size
                && canonical_key(self.kind, e[j].key@) == e[j].key@ by {
            }
        }
    }

    /// Packs the deleted entries out, keeping the live ones in order,
    /// and rebuilds the index over the same buckets.
    fn pack(&mut self)
        requires
            old(self).wf(),
            old(self).buckets@.len() > 0,
        ensures
            final(self).wf(),
            final(self).slots() == packed(old(self).slots()),
            final(self).len == old(self).len,
            final(self).buckets@.len() == old(self).buckets@.len(),
            final(self).tombstones == 0,
            final(self).order_cap == old(self).order_cap,
            final(self).iteration_depth == old(self).iteration_depth,
            final(self).kind == old(self).kind,
            final(self).key_size == old(self).key_size,
            final(self).value_size == old(self).value_size,
    {
        let ghost e = self.entries@;
        let mut kept: Vec<Entry> = Vec::new();
        let ghost mut from: Seq<int> = Seq::empty();
        let n = self.entries.len();
        let mut i: usize = 0;
        proof {
            assert(view_of(e.subrange(0, 0)) =~= Seq::empty());
        }
        while i < n
            invariant
                e == self.entries@,
                n == e.len(),
                i <= n,
                from.len() == kept@.len(),
                forall|a: int| 0 <= a < from.len() ==> 0 <= #[trigger] from[a] < i && e[from[a]].active,
                forall|a: int, b: int| 0 <= a < b < from.len() ==> #[trigger] from[a] < #[trigger] from[b],
                forall|a: int|
                    0 <= a < kept@.len() ==> (#[trigger] kept@[a]).active && kept@[a].hash == e[from[a]].hash
                        && kept@[a].key@ == e[from[a]].key@ && kept@[a].value@ == e[from[a]].value@,
                view_of(kept@) == packed(view_of(e.subrange(0, i as int))),
                count_live(kept@) == kept@.len(),
                kept@.len() == count_live(e.subrange(0, i as int)),
            decreases n - i,
        {
            proof {
                lemma_count_live_prefix(e, i as int);
                assert(view_of(e.subrange(0, i + 1)).drop_last() =~= view_of(e.subrange(0, i as int)));
                assert(view_of(e.subrange(0, i + 1)).last() == entry_view(e[i as int]));
            }
            if self.entries[i].active {
                let copy = Entry {
                    hash: self.entries[i].hash,
                    active: true,
                    key: copy_bytes(self.entries[i].key.as_slice()),
                    value: copy_bytes(self.entries[i].value.as_slice()),
                };
                let ghost before = kept@;
                kept.push(copy);
                proof {
                    from = from.push(i as int);
                    assert(kept@.drop_last() =~= before);
                    assert(view_of(kept@) =~= view_of(before).push(entry_view(copy)));
                }
            }
            i = i + 1;
        }
        proof {
            assert(e.subrange(0, n as int) =~= e);
            lemma_count_live_prefix(e, n as int);
            lemma_count_live_bound(e);
        }
        self.entries = kept;
        proof {
            let k = self.entries@;
            assert forall|x: int, y: int| 0 <= x < y < k.len() && #[trigger] k[x].active && #[trigger] k[y].active implies k[x].key@ != k[y].key@ by {
                assert(from[x] < from[y]);
                assert(e[from[x]].active && e[from[y]].active);
            }
            assert forall|x: int| 0 <= x < k.len() && #[trigger] k[x].active implies k[x].hash == key_hash(self.kind, k[x].key@)
                && key_fits(self.kind, self.key_size, k[x].key@) && k[x].value@.len() == self.value_size
                && canonical_key(self.kind, k[x].key@) == k[x].key@ by {
                assert(e[from[x]].active);
            }
        }
        let cap = self.buckets.len();
        proof {
            lemma_count_used_bound(self.buckets@);
        }
        self.rebuild_index(cap);
    }

    /// Packs the deleted entries out when the ordered storage is full,
    /// holds deleted entries, and no iteration runs.
    fn pack_if_full(&mut self)
        requires
            old(self).wf(),
        ensures
            final(self).wf(),
            final(self).slots() == old(self).slots_before_adding(),
            final(self).tombstones == old(self).tombstones_before_adding(),
            final(self).len == old(self).len,
            final(self).buckets@.len() == old(self).buckets@.len(),
            final(self).order_cap == old(self).order_cap,
            final(self).iteration_depth == old(self).iteration_depth,
            final(self).kind == old(self).kind,
            final(self).key_size == old(self).key_size,
            final(self).value_size == old(self).value_size,
    {
        proof {
            lemma_count_some(self.entries@);
        }
        if self.entries.len() == self.order_cap && self.iteration_depth == 0 && self.len
            < self.entries.len() {
            self.pack();
        }
    }

    /// Grows the ordered capacity when the entries fill it: to four
    /// from none, else doubled; false (unchanged) when doubling leaves
    /// `usize`.
    #[verifier::spinoff_prover]
    fn grow_order(&mut self) -> (r: bool)
        requires
            old(self).wf(),
        ensures
            final(self).wf(),
            final(self).slots() == old(self).slots(),
            final(self).entries@ == old(self).entries@,
            final(self).buckets@ == old(self).buckets@,
            final(self).len == old(self).len,
            final(self).tombstones == old(self).tombstones,
            final(self).iteration_depth == old(self).iteration_depth,
            final(self).kind == old(self).kind,
            final(self).key_size == old(self).key_size,
            final(self).value_size == old(self).value_size,
            ({
                let n = old(self).entries@.len();
                let c = old(self).order_cap as int;
                let grown = if n == c { if c == 0 { INITIAL_ORDER_CAP as int } else { 2 * c } } else { c };
                &&& r == (grown <= usize::MAX)
                &&& final(self).order_cap == if r { grown } else { c }
            }),
            r ==> final(self).entries@.len() < final(self).order_cap,
    {
        if self.entries.len() == self.order_cap {
            let new_cap = if self.order_cap == 0 {
                INITIAL_ORDER_CAP
            } else {
                match self.order_cap.checked_mul(2) {
                    Some(v) => v,
                    None => return false,
                }
            };
            self.order_cap = new_cap;
        }
        true
    }

    /// Rebuilds the index when live and tombstone buckets would reach
    /// three quarters with one more entry (or there is none), doubling it
    /// only when the live entries alone need the room; false (unchanged)
    /// when doubling leaves `usize`.
    fn prepare_index(&mut self) -> (r: bool)
        requires
            old(self).wf(),
        ensures
            final(self).wf(),
            final(self).entries@ == old(self).entries@,
            final(self).len == old(self).len,
            final(self).order_cap == old(self).order_cap,
            final(self).iteration_depth == old(self).iteration_depth,
            final(self).kind == old(self).kind,
            final(self).key_size == old(self).key_size,
            final(self).value_size == old(self).value_size,
            ({
                let cap = old(self).buckets@.len() as int;
                let live = old(self).len as int;
                let rebuilds = cap == 0 || sat(4 * sat(live + old(self).tombstones + 1)) >= sat(3 * cap);
                let grows = cap > 0 && sat(4 * sat(live + 1)) >= sat(3 * cap);
                &&& r == !(rebuilds && grows && 2 * cap > usize::MAX)
                &&& r ==> final(self).buckets@.len() == if !rebuilds {
                    cap
                } else if cap == 0 {
                    INITIAL_BUCKET_CAP as int
                } else if grows {
                    2 * cap
                } else {
                    cap
                }
                &&& r ==> final(self).tombstones == if rebuilds { 0 } else { old(self).tombstones as int }
            }),
            r ==> count_used(final(self).buckets@) + 1 < final(self).buckets@.len(),
    {
        let cap = self.buckets.len();
        proof {
            lemma_count_used_bound(self.buckets@);
        }
        let used_raw: u128 = self.len as u128 + self.tombstones as u128 + 1;
        let used: u128 = if used_raw > u64::MAX as u128 { u64::MAX as u128 } else { used_raw };
        let load = if used * 4 > u64::MAX as u128 { u64::MAX as u128 } else { used * 4 };
        let limit = if cap as u128 * 3 > u64::MAX as u128 { u64::MAX as u128 } else { cap as u128 * 3 };
        if cap == 0 || load >= limit {
            let grown_raw: u128 = self.len as u128 + 1;
            let grown_load = if grown_raw * 4 > u64::MAX as u128 { u64::MAX as u128 } else { grown_raw * 4 };
            let new_cap = if cap == 0 {
                INITIAL_BUCKET_CAP
            } else if grown_load >= limit {
                match cap.checked_mul(2) {
                    Some(v) => v,
                    None => return false,
                }
            } else {
                cap
            };
            self.rebuild_index(new_cap);
        }
        true
    }

    /// Makes room for one more entry: packs, grows the ordered capacity,
    /// then prepares the index.
    fn ensure_capacity(&mut self) -> (r: bool)
        requires
            old(self).wf(),
        ensures
            final(self).wf(),
            final(self).iteration_depth == old(self).iteration_depth,
            final(self).kind == old(self).kind,
            final(self).key_size == old(self).key_size,
            final(self).value_size == old(self).value_size,
            final(self).slots() == old(self).slots_before_adding(),
            final(self).order_capacity() == if old(self).order_overflows() {
                old(self).order_capacity()
            } else {
                old(self).order_capacity_after_adding()
            },
            r == !old(self).adding_overflows(),
            r ==> final(self).entries@.len() < final(self).order_cap && count_used(final(self).buckets@) + 1
                < final(self).buckets@.len(),
            r ==> final(self).bucket_capacity() == old(self).bucket_capacity_after_adding(),
    {
        proof {
            lemma_count_some(self.entries@);
        }
        self.pack_if_full();
        proof {
            lemma_count_some(self.entries@);
        }
        if !self.grow_order() {
            return false;
        }
        self.prepare_index()
    }

    /// The slots an insertion of a new key starts from: packed when
    /// `packs_next` holds.
    pub open spec fn slots_before_adding(&self) -> Seq<Option<(Seq<u8>, Seq<u8>)>> {
        if self.packs_next() {
            packed(self.slots())
        } else {
            self.slots()
        }
    }

    /// The ordered capacity an insertion of a new key leaves: four when
    /// there was none, doubled when the entries fill it.
    pub open spec fn order_capacity_after_adding(&self) -> nat {
        if self.slots_before_adding().len() == self.order_capacity() {
            if self.order_capacity() == 0 {
                INITIAL_ORDER_CAP as nat
            } else {
                2 * self.order_capacity()
            }
        } else {
            self.order_capacity()
        }
    }

    /// Doubling the ordered capacity would leave `usize`.
    pub open spec fn order_overflows(&self) -> bool {
        self.order_capacity_after_adding() > usize::MAX
    }

    /// The tombstones left after the packing an insertion does first.
    pub open spec fn tombstones_before_adding(&self) -> nat {
        if self.packs_next() { 0 } else { self.tombstone_count() }
    }

    /// Adding one entry rebuilds the index: there is none yet, or live
    /// and tombstone buckets would reach three quarters.
    pub open spec fn index_rebuilds(&self) -> bool {
        self.bucket_capacity() == 0 || sat(4 * sat((self.live_count() + self.tombstones_before_adding() + 1) as int))
            >= sat((3 * self.bucket_capacity()) as int)
    }

    /// The rebuilt index doubles: the live entries alone would reach
    /// three quarters.
    pub open spec fn index_grows(&self) -> bool {
        self.bucket_capacity() > 0 && sat(4 * sat((self.live_count() + 1) as int)) >= sat((3 * self.bucket_capacity()) as int)
    }

    /// The bucket count an insertion of a new key leaves.
    pub open spec fn bucket_capacity_after_adding(&self) -> nat {
        if !self.index_rebuilds() {
            self.bucket_capacity()
        } else if self.bucket_capacity() == 0 {
            INITIAL_BUCKET_CAP as nat
        } else if self.index_grows() {
            2 * self.bucket_capacity()
        } else {
            self.bucket_capacity()
        }
    }

    /// Adding a new key needs a capacity beyond `usize`.
    pub open spec fn adding_overflows(&self) -> bool {
        ||| self.order_overflows()
        ||| (self.index_rebuilds() && self.index_grows() && 2 * self.bucket_capacity() > usize::MAX)
    }

    /// Gives the live entry at `i` the value `value`.
    fn replace_value(&mut self, i: usize, value: &[u8])
        requires
            old(self).wf(),
            i < old(self).entries@.len(),
            old(self).entries@[i as int].active,
            value@.len() == old(self).value_size,
        ensures
            final(self).wf(),
            final(self).slots() == old(self).slots().update(
                i as int,
                Some((old(self).entries@[i as int].key@, value@)),
            ),
            final(self).buckets@ == old(self).buckets@,
            final(self).order_cap == old(self).order_cap,
            final(self).iteration_depth == old(self).iteration_depth,
            final(self).kind == old(self).kind,
            final(self).key_size == old(self).key_size,
            final(self).value_size == old(self).value_size,
    {
        let ghost e0 = self.entries@;
        let replaced = Entry {
            hash: self.entries[i].hash,
            active: true,
            key: copy_bytes(self.entries[i].key.as_slice()),
            value: copy_bytes(value),
        };
        proof {
            lemma_count_live_update(e0, i as int, replaced);
        }
        self.entries.set(i, replaced);
        proof {
            let e = self.entries@;
            assert forall|x: int, y: int| 0 <= x < y < e.len() && #[trigger] e[x].active && #[trigger] e[y].active implies e[x].key@ != e[y].key@ by {
                assert(e0[x].active && e0[y].active);
            }
            assert forall|j: int| 0 <= j < e.len() && #[trigger] e[j].active implies e[j].hash == key_hash(self.kind, e[j].key@)
                && key_fits(self.kind, self.key_size, e[j].key@) && e[j].value@.len() == self.value_size
                && canonical_key(self.kind, e[j].key@) == e[j].key@ by {
                assert(e0[j].active);
            }
            assert forall|c: int| 0 <= c < self.buckets@.len() && #[trigger] self.buckets@[c] != EMPTY && self.buckets@[c] != TOMBSTONE implies 1 <= self.buckets@[c] <= e.len()
                && e[self.buckets@[c] - 1].active && self.at@[self.buckets@[c] - 1] == c by {
            }
            assert forall|j: int| 0 <= j < e.len() && #[trigger] e[j].active implies 0 <= self.at@[j] < self.buckets@.len() && self.buckets@[self.at@[j]] == j + 1
                && reachable(self.buckets@, e[j].hash, self.at@[j]) by {
                assert(e0[j].active);
            }
            assert(self.slots() =~= old(self).slots().update(i as int, Some((e0[i as int].key@, value@))));
        }
    }

    /// Appends a live entry for the absent key `stored` and places it in
    /// bucket `b`, an unused bucket its probe reaches.
    fn add_entry(&mut self, stored: Vec<u8>, hash: u64, value: &[u8], b: usize)
        requires
            old(self).wf(),
            forall|i: int| 0 <= i < old(self).entries@.len() && #[trigger] old(self).entries@[i].active ==> old(self).entries@[i].key@ != stored@,
            hash == key_hash(old(self).kind, stored@),
            key_fits(old(self).kind, old(self).key_size, stored@),
            canonical_key(old(self).kind, stored@) == stored@,
            value@.len() == old(self).value_size,
            old(self).entries@.len() < old(self).order_cap,
            count_used(old(self).buckets@) + 1 < old(self).buckets@.len(),
            b < old(self).buckets@.len(),
            old(self).buckets@[b as int] == EMPTY || old(self).buckets@[b as int] == TOMBSTONE,
            reachable(old(self).buckets@, hash, b as int),
        ensures
            final(self).wf(),
            final(self).slots() == old(self).slots().push(Some((stored@, value@))),
            final(self).buckets@.len() == old(self).buckets@.len(),
            final(self).order_cap == old(self).order_cap,
            final(self).iteration_depth == old(self).iteration_depth,
            final(self).kind == old(self).kind,
            final(self).key_size == old(self).key_size,
            final(self).value_size == old(self).value_size,
    {
        let ghost e0 = self.entries@;
        let ghost s0 = self.buckets@;
        let ghost key = stored@;
        let n = self.entries.len();
        let cap_now = self.buckets.len();
        assert(self.len < cap_now);
        let fresh = Entry { hash, active: true, key: stored, value: copy_bytes(value) };
        proof {
            lemma_count_live_push(e0, fresh);
            lemma_count_update(s0, b as int, (n + 1) as u64);
            lemma_home(hash, s0.len() as int);
        }
        self.entries.push(fresh);
        if self.buckets[b] == TOMBSTONE {
            self.tombstones = self.tombstones - 1;
        }
        self.buckets.set(b, (n + 1) as u64);
        self.len = self.len + 1;
        proof {
            self.at@ = self.at@.push(b as int);
            let e = self.entries@;
            let s = self.buckets@;
            let cap = s.len() as int;
            assert forall|x: int, y: int| 0 <= x < y < e.len() && #[trigger] e[x].active && #[trigger] e[y].active implies e[x].key@ != e[y].key@ by {
                if y == n {
                    assert(e0[x].active);
                } else {
                    assert(e0[x].active && e0[y].active);
                }
            }
            assert forall|j: int| 0 <= j < e.len() && #[trigger] e[j].active implies e[j].hash == key_hash(self.kind, e[j].key@)
                && key_fits(self.kind, self.key_size, e[j].key@) && e[j].value@.len() == self.value_size
                && canonical_key(self.kind, e[j].key@) == e[j].key@ by {
                if j < n {
                    assert(e0[j].active);
                }
            }
            assert forall|c: int| 0 <= c < cap && #[trigger] s[c] != EMPTY && s[c] != TOMBSTONE implies 1 <= s[c] <= e.len()
                && e[s[c] - 1].active && self.at@[s[c] - 1] == c by {
                if c != b {
                    assert(s[c] == s0[c]);
                }
            }
            assert forall|j: int| 0 <= j < e.len() && #[trigger] e[j].active implies 0 <= self.at@[j] < cap && s[self.at@[j]] == j + 1
                && reachable(s, e[j].hash, self.at@[j]) by {
                let h0 = home(e[j].hash, cap);
                lemma_home(e[j].hash, cap);
                if j < n {
                    assert(e0[j].active);
                    assert(self.at@[j] != b);
                    assert forall|k: int| 0 <= k < dist(h0, self.at@[j], cap) implies #[trigger] s[wrap(h0 + k, cap)] != EMPTY by {
                        assert(s0[wrap(h0 + k, cap)] != EMPTY);
                    }
                } else {
                    assert forall|k: int| 0 <= k < dist(h0, b as int, cap) implies #[trigger] s[wrap(h0 + k, cap)] != EMPTY by {
                        lemma_dist(h0, b as int, cap);
                        lemma_wrap_unique(h0, k, cap);
                        assert(s0[wrap(h0 + k, cap)] != EMPTY);
                    }
                }
            }
            assert(self.slots() =~= old(self).slots().push(Some((key, value@))));
        }
    }

    /// Stores `value` under `key`: an existing key keeps its position and
    /// takes the new value; a new key is appended after making room (see
    /// `ensure_capacity`). False only when the room needed exceeds
    /// `usize`, and then nothing is stored.
    pub fn insert(&mut self, key: &[u8], value: &[u8]) -> (r: bool)
        requires
            old(self).wf(),
            key_fits(old(self).key_kind(), old(self).key_width(), key@),
            value@.len() == old(self).value_width(),
        ensures
            final(self).wf(),
            final(self).depth() == old(self).depth(),
            final(self).key_kind() == old(self).key_kind(),
            final(self).key_width() == old(self).key_width(),
            final(self).value_width() == old(self).value_width(),
            ({
                let k = canonical_key(old(self).key_kind(), key@);
                match position_of(old(self).slots(), k) {
                    Some(p) => {
                        &&& r
                        &&& final(self).slots() == old(self).slots().update(p, Some((k, value@)))
                        &&& final(self).order_capacity() == old(self).order_capacity()
                        &&& final(self).bucket_capacity() == old(self).bucket_capacity()
                    },
                    None => {
                        &&& r == !old(self).adding_overflows()
                        &&& r ==> final(self).bucket_capacity() == old(self).bucket_capacity_after_adding()
                        &&& final(self).order_capacity() == if old(self).order_overflows() {
                            old(self).order_capacity()
                        } else {
                            old(self).order_capacity_after_adding()
                        }
                        &&& final(self).slots() == if r {
                            old(self).slots_before_adding().push(Some((k, value@)))
                        } else {
                            old(self).slots_before_adding()
                        }
                    },
                }
            }),
    {
        let stored = canonical(self.kind, key);
        let hash = hash_of(self.kind, stored.as_slice());
        let found = self.lookup(stored.as_slice(), hash);
        if let Some(i) = found.entry {
            proof {
                lemma_position_found(self.entries@, stored@, i as int);
            }
            self.replace_value(i, value);
            return true;
        }
        proof {
            lemma_position_absent(self.entries@, stored@);
        }
        if !self.ensure_capacity() {
            return false;
        }
        let vacant = self.lookup(stored.as_slice(), hash);
        proof {
            self.lemma_still_absent(*old(self), stored@, vacant);
            lemma_canonical_idempotent(self.kind, key@);
        }
        self.add_entry(stored, hash, value, vacant.bucket);
        true
    }

    /// A key absent before an insertion made room is absent after it.
    proof fn lemma_still_absent(&self, before: AssocTable, k: Seq<u8>, probe: Probe)
        requires
            before.wf(),
            self.wf(),
            self.slots() == before.slots_before_adding(),
            position_of(before.slots(), k) is None,
            forall|i: int| 0 <= i < before.entries@.len() && #[trigger] before.entries@[i].active ==> before.entries@[i].key@ != k,
            probe.entry matches Some(i) ==> 0 <= i < self.entries@.len() && self.entries@[i as int].active && self.entries@[i as int].key@ == k,
        ensures
            probe.entry is None,
    {
        if let Some(i) = probe.entry {
            assert(view_of(self.entries@)[i as int] == Some((k, self.entries@[i as int].value@)));
            if before.packs_next() {
                lemma_packed_from(before.slots(), i as int);
                let q = choose|q: int| 0 <= q < before.slots().len() && before.slots()[q] == #[trigger] packed(before.slots())[i as int];
                assert(before.slots()[q] == view_of(before.entries@)[q]);
                assert(before.entries@[q].active);
            } else {
                assert(before.slots()[i as int] == view_of(before.entries@)[i as int]);
                assert(before.entries@[i as int].active);
            }
        }
    }

    /// The ordered capacity.
    pub fn ordered_capacity(&self) -> (r: usize)
        ensures
            r == self.order_capacity(),
    {
        self.order_cap
    }

    /// The bucket count of the index.
    pub fn index_capacity(&self) -> (r: usize)
        ensures
            r == self.bucket_capacity(),
    {
        self.buckets.len()
    }

    /// The number of running iterations.
    pub fn iterations(&self) -> (r: u64)
        ensures
            r == self.depth(),
    {
        self.iteration_depth
    }

    /// The live slots of a container have distinct keys.
    pub proof fn lemma_slot_keys_unique(&self)
        requires
            self.wf(),
        ensures
            slot_keys_unique(self.slots()),
    {
        let e = self.entries@;
        assert forall|i: int, j: int|
            0 <= i < j < self.slots().len() && #[trigger] self.slots()[i] is Some && #[trigger] self.slots()[j] is Some
                implies slot_key(self.slots()[i]) != slot_key(self.slots()[j]) by {
            assert(self.slots()[i] == entry_view(e[i]));
            assert(self.slots()[j] == entry_view(e[j]));
            assert(e[i].active && e[j].active);
        }
    }

    /// The key kind.
    pub fn kind(&self) -> (r: KeyKind)
        ensures
            r == self.key_kind(),
    {
        self.kind
    }

    /// The key width.
    pub fn key_bytes(&self) -> (r: usize)
        ensures
            r == self.key_width(),
    {
        self.key_size
    }

    /// The value width.
    pub fn value_bytes(&self) -> (r: usize)
        ensures
            r == self.value_width(),
    {
        self.value_size
    }

    /// Live slots hold stored (canonical) keys of the container's width
    /// and values of its value width.
    pub proof fn lemma_slots_stored(&self)
        requires
            self.wf(),
        ensures
            key_shape_ok(self.key_kind(), self.key_width()),
            forall|i: int|
                0 <= i < self.slots().len() && #[trigger] self.slots()[i] is Some ==> {
                    let (k, v) = self.slots()[i]->0;
                    &&& canonical_key(self.key_kind(), k) == k
                    &&& key_fits(self.key_kind(), self.key_width(), k)
                    &&& v.len() == self.value_width()
                },
    {
        assert forall|i: int| 0 <= i < self.slots().len() && #[trigger] self.slots()[i] is Some implies {
            let (k, v) = self.slots()[i]->0;
            &&& canonical_key(self.key_kind(), k) == k
            &&& key_fits(self.key_kind(), self.key_width(), k)
            &&& v.len() == self.value_width()
        } by {
            assert(self.slots()[i] == entry_view(self.entries@[i]));
            assert(self.entries@[i].active);
        }
    }

    /// With no deleted slot there is no tombstone.
    pub proof fn lemma_no_deleted_no_tombstones(&self)
        requires
            self.wf(),
            forall|i: int| 0 <= i < self.slots().len() ==> #[trigger] self.slots()[i] is Some,
        ensures
            self.tombstone_count() == 0,
            self.live_count() == self.slots().len(),
    {
        let e = self.entries@;
        assert forall|i: int| 0 <= i < e.len() implies #[trigger] e[i].active by {
            assert(self.slots()[i] == entry_view(e[i]));
        }
        lemma_count_live_all(e);
        lemma_count_some(e);
    }

    /// Probes for stored key `key` with hash `hash`.
    fn lookup(&self, key: &[u8], hash: u64) -> (r: Probe)
        requires
            self.wf(),
            hash == key_hash(self.kind, key@),
        ensures
            match r.entry {
                Some(i) => 0 <= i < self.entries@.len() && self.entries@[i as int].active
                    && self.entries@[i as int].key@ == key@,
                None => forall|i: int|
                    0 <= i < self.entries@.len() && #[trigger] self.entries@[i].active
                        ==> self.entries@[i].key@ != key@,
            },
            r.entry matches Some(i) ==> self.at@[i as int] == r.bucket && r.bucket < self.buckets@.len(),
            r.entry is None && count_used(self.buckets@) < self.buckets@.len() ==> r.bucket
                < self.buckets@.len() && (self.buckets@[r.bucket as int] == EMPTY
                || self.buckets@[r.bucket as int] == TOMBSTONE) && reachable(
                self.buckets@,
                hash,
                r.bucket as int,
            ),
    {
        let ghost e = self.entries@;
        let ghost s = self.buckets@;
        let cap = self.buckets.len();
        if cap == 0 {
            return Probe { bucket: 0, entry: None };
        }
        let start = (hash % (cap as u64)) as usize;
        proof {
            lemma_home(hash, cap as int);
        }
        let ghost h0 = home(hash, cap as int);
        assert(start == h0);
        let mut bucket = start;
        let mut first_tombstone: Option<usize> = None;
        let mut step: usize = 0;
        while step < cap
            invariant
                self.wf(),
                e == self.entries@,
                s == self.buckets@,
                cap == s.len(),
                cap > 0,
                0 <= h0 < cap,
                h0 == home(hash, cap as int),
                hash == key_hash(self.kind, key@),
                step <= cap,
                bucket == wrap(h0 + step, cap as int),
                forall|k: int| 0 <= k < step ==> #[trigger] s[wrap(h0 + k, cap as int)] != EMPTY,
                forall|k: int|
                    0 <= k < step ==> {
                        let v = #[trigger] s[wrap(h0 + k, cap as int)];
                        v == TOMBSTONE || !(e[v - 1].key@ == key@)
                    },
                match first_tombstone {
                    Some(t) => t < cap && s[t as int] == TOMBSTONE && dist(h0, t as int, cap as int)
                        < step,
                    None => true,
                },
            decreases cap - step,
        {
            let slot = self.buckets[bucket];
            if slot == EMPTY {
                let ghost b = bucket as int;
                proof {
                    assert forall|i: int|
                        0 <= i < e.len() && #[trigger] e[i].active implies e[i].key@ != key@ by {
                        if e[i].key@ == key@ {
                            let p = self.at@[i];
                            lemma_dist(h0, p, cap as int);
                            let d = dist(h0, p, cap as int);
                            if d < step {
                                assert(s[wrap(h0 + d, cap as int)] == i + 1);
                            } else if d > step {
                                assert(s[wrap(h0 + step, cap as int)] != EMPTY);
                            } else {
                                assert(s[p] == i + 1);
                            }
                        }
                    }
                    lemma_dist(h0, b, cap as int);
                    assert(dist(h0, b, cap as int) == step);
                }
                let vacant = match first_tombstone {
                    Some(t) => t,
                    None => bucket,
                };
                proof {
                    lemma_dist(h0, vacant as int, cap as int);
                }
                return Probe { bucket: vacant, entry: None };
            }
            if slot == TOMBSTONE {
                if first_tombstone.is_none() {
                    proof {
                        lemma_dist(h0, bucket as int, cap as int);
                    }
                    first_tombstone = Some(bucket);
                }
            } else {
                let index = (slot - 1) as usize;
                if self.entries[index].hash == hash && bytes_equal(
                    self.entries[index].key.as_slice(),
                    key,
                ) {
                    return Probe { bucket, entry: Some(index) };
                }
                proof {
                    if e[index as int].key@ == key@ {
                        assert(e[index as int].hash == key_hash(self.kind, key@));
                    }
                }
            }
            proof {
                assert(s[wrap(h0 + step, cap as int)] == slot);
            }
            bucket = if bucket + 1 == cap { 0 } else { bucket + 1 };
            step = step + 1;
        }
        proof {
            assert forall|i: int|
                0 <= i < e.len() && #[trigger] e[i].active implies e[i].key@ != key@ by {
                if e[i].key@ == key@ {
                    let p = self.at@[i];
                    lemma_dist(h0, p, cap as int);
                    let d = dist(h0, p, cap as int);
                    assert(s[wrap(h0 + d, cap as int)] == i + 1);
                }
            }
            lemma_probe_saw_all(s, h0);
        }
        let vacant = match first_tombstone {
            Some(t) => t,
            None => 0,
        };
        Probe { bucket: vacant, entry: None }
    }

    /// The entries alone are consistent: live keys are unique, of the
    /// right width and hashed, values have the value width, the live
    /// count is exact, and the ordered capacity (even) holds them all.
    closed spec fn entries_ok(&self) -> bool {
        let e = self.entries@;
        &&& e.len() <= self.order_cap
        &&& self.order_cap % 2 == 0
        &&& key_shape_ok(self.kind, self.key_size)
        &&& forall|i: int|
            0 <= i < e.len() && #[trigger] e[i].active ==> e[i].hash == key_hash(self.kind, e[i].key@)
                && key_fits(self.kind, self.key_size, e[i].key@) && e[i].value@.len() == self.value_size
                && canonical_key(self.kind, e[i].key@) == e[i].key@
        &&& keys_unique(e)
        &&& self.len == count_live(e)
    }

    /// The ordered entries and the index agree: every live entry sits in
    /// exactly one bucket, reachable by probing from its hash; every
    /// bucket in use is a tombstone or holds a live entry; the counters
    /// are exact, and some bucket is always unused.
    pub closed spec fn wf(&self) -> bool {
        let e = self.entries@;
        let s = self.buckets@;
        let cap = s.len() as int;
        let at = self.at@;
        &&& self.entries_ok()
        &&& cap == 0 ==> e.len() == 0
        &&& cap > 0 ==> count_used(s) < cap
        &&& at.len() == e.len()
        &&& forall|b: int|
            0 <= b < cap && #[trigger] s[b] != EMPTY && s[b] != TOMBSTONE ==> 1 <= s[b] <= e.len()
                && e[s[b] - 1].active && at[s[b] - 1] == b
        &&& forall|i: int|
            0 <= i < e.len() && #[trigger] e[i].active ==> 0 <= at[i] < cap && s[at[i]] == i + 1
                && reachable(s, e[i].hash, at[i])
        &&& count_used(s) == self.len + self.tombstones
        &&& count_tombstones(s) == self.tombstones
        &&& self.len + self.tombstones <= e.len()
    }
}

/// `getOr`: a copy of the value stored under `key`, else of `fallback`
/// (a value of the container's width); with no container the fallback
/// is the answer.
pub fn get_or(table: Option<&AssocTable>, key: &[u8], fallback: &[u8]) -> (r: Vec<u8>)
    requires
        table matches Some(t) ==> t.wf() && key_fits(t.key_kind(), t.key_width(), key@)
            && fallback@.len() == t.value_width(),
    ensures
        match table {
            None => r@ == fallback@,
            Some(t) => match position_of(t.slots(), canonical_key(t.key_kind(), key@)) {
                Some(p) => t.slots()[p] == Some((canonical_key(t.key_kind(), key@), r@)),
                None => r@ == fallback@,
            },
        },
{
    let found = match table {
        Some(t) => t.get(key),
        None => None,
    };
    match found {
        Some(v) => copy_bytes(v),
        None => copy_bytes(fallback),
    }
}

} // verus!
