//! `Map.groupBy`: the visited elements of an array collected into groups
//! under the keys a script callback produced for them.
use vstd::prelude::*;

use super::table::{
    canonical_key, key_fits, le_bits, le_bytes, lemma_le_round_trip, position_of, read_bits,
    write_bits, AssocTable,
};
use super::{key_shape_ok, stride_of, KeyKind};
use crate::arrops::elems::ElemArray;

verus! {

/// The stored form of each key.
pub open spec fn stored_keys(kind: KeyKind, keys: Seq<Seq<u8>>) -> Seq<Seq<u8>> {
    keys.map_values(|k: Seq<u8>| canonical_key(kind, k))
}

/// The distinct keys of `ks`, in order of first occurrence.
pub open spec fn distinct_keys(ks: Seq<Seq<u8>>) -> Seq<Seq<u8>>
    decreases ks.len(),
{
    if ks.len() == 0 {
        Seq::empty()
    } else {
        let d = distinct_keys(ks.drop_last());
        if d.contains(ks.last()) {
            d
        } else {
            d.push(ks.last())
        }
    }
}

/// The elements whose key is `k`, in order.
pub open spec fn group_of(ks: Seq<Seq<u8>>, items: Seq<Seq<u8>>, k: Seq<u8>) -> Seq<Seq<u8>>
    decreases ks.len(),
{
    if ks.len() == 0 || items.len() == 0 {
        Seq::empty()
    } else {
        let g = group_of(ks.drop_last(), items.drop_last(), k);
        if ks.last() == k {
            g.push(items.last())
        } else {
            g
        }
    }
}

/// The map's entries: each distinct key, in order, with its group number
/// as an 8-byte little-endian value.
pub open spec fn group_table(d: Seq<Seq<u8>>) -> Seq<Option<(Seq<u8>, Seq<u8>)>> {
    Seq::new(d.len(), |g: int| Some((d[g], le_bytes(g as u64, 8))))
}

/// The distinct keys are distinct.
proof fn lemma_distinct_keys_unique(ks: Seq<Seq<u8>>)
    ensures
        distinct_keys(ks).no_duplicates(),
        distinct_keys(ks).len() <= ks.len(),
        forall|k: Seq<u8>| distinct_keys(ks).contains(k) <==> ks.contains(k),
    decreases ks.len(),
{
    if ks.len() > 0 {
        let pre = ks.drop_last();
        lemma_distinct_keys_unique(pre);
        let d = distinct_keys(pre);
        assert forall|k: Seq<u8>| distinct_keys(ks).contains(k) <==> ks.contains(k) by {
            if ks.contains(k) && k != ks.last() {
                let t = choose|t: int| 0 <= t < ks.len() && ks[t] == k;
                assert(pre[t] == k);
            }
            if pre.contains(k) {
                let t = choose|t: int| 0 <= t < pre.len() && pre[t] == k;
                assert(ks[t] == k);
            }
            if k == ks.last() {
                assert(ks[ks.len() - 1] == k);
            }
            if !d.contains(ks.last()) && d.push(ks.last()).contains(k) && k != ks.last() {
                let t = choose|t: int| 0 <= t < d.push(ks.last()).len() && d.push(ks.last())[t] == k;
                assert(d[t] == k);
            }
            if d.contains(k) && !d.contains(ks.last()) {
                let t = choose|t: int| 0 <= t < d.len() && d[t] == k;
                assert(d.push(ks.last())[t] == k);
            }
            if !d.contains(ks.last()) && k == ks.last() {
                assert(d.push(ks.last())[d.len() as int] == k);
            }
        }
        if !d.contains(ks.last()) {
            assert forall|i: int, j: int|
                0 <= i < j < d.push(ks.last()).len() implies d.push(ks.last())[i] != d.push(
                ks.last(),
            )[j] by {
                if j == d.len() {
                    assert(d.contains(d[i]));
                }
            }
        }
    }
}

/// A key that never occurs has no elements.
proof fn lemma_group_of_absent(ks: Seq<Seq<u8>>, items: Seq<Seq<u8>>, k: Seq<u8>)
    requires
        !ks.contains(k),
    ensures
        group_of(ks, items, k) == Seq::<Seq<u8>>::empty(),
    decreases ks.len(),
{
    if ks.len() > 0 && items.len() > 0 {
        assert forall|x: Seq<u8>| ks.drop_last().contains(x) implies ks.contains(x) by {
            let t = choose|t: int| 0 <= t < ks.drop_last().len() && ks.drop_last()[t] == x;
            assert(ks[t] == x);
        }
        lemma_group_of_absent(ks.drop_last(), items.drop_last(), k);
        assert(ks[ks.len() - 1] != k);
    }
}

/// In the map of distinct keys `d`, key `k` sits at its index in `d`.
proof fn lemma_group_position(d: Seq<Seq<u8>>, k: Seq<u8>)
    requires
        d.no_duplicates(),
    ensures
        match position_of(group_table(d), k) {
            Some(g) => 0 <= g < d.len() && d[g] == k,
            None => !d.contains(k),
        },
    decreases d.len(),
{
    if d.len() > 0 {
        let pre = d.drop_last();
        assert(group_table(d).drop_last() =~= group_table(pre));
        assert forall|i: int, j: int| 0 <= i < j < pre.len() implies pre[i] != pre[j] by {
            assert(d[i] == pre[i] && d[j] == pre[j]);
        }
        lemma_group_position(pre, k);
        if d.last() != k {
            if d.contains(k) {
                let t = choose|t: int| 0 <= t < d.len() && d[t] == k;
                assert(pre[t] == k);
            }
            match position_of(group_table(pre), k) {
                Some(g) => {
                    assert(d[g] == pre[g]);
                },
                None => {},
            }
        }
    }
}

/// The keys as byte sequences.
pub open spec fn key_views(keys: Seq<Vec<u8>>) -> Seq<Seq<u8>> {
    keys.map_values(|k: Vec<u8>| k@)
}

/// `Map.groupBy` over the visited elements: `elements[i]` (the copy taken
/// before its callback ran) goes to the group of `keys[i]` (the key the
/// callback produced), keys compared as the map compares them. The map
/// holds each distinct key once, in order of first occurrence, with its
/// group number as an 8-byte little-endian value; each group holds its
/// elements in visiting order. `None` when the key kind and width make no
/// valid map.
pub fn group_by(elements: &ElemArray, keys: &Vec<Vec<u8>>, kind: KeyKind, key_size: usize) -> (r:
    Option<(AssocTable, Vec<ElemArray>)>)
    requires
        keys@.len() == elements@.len(),
        keys@.len() < usize::MAX / 16,
        forall|i: int| 0 <= i < keys@.len() ==> key_fits(kind, key_size, #[trigger] keys@[i]@),
    ensures
        r is None <==> stride_of(key_size as int, 8) > usize::MAX || !key_shape_ok(kind, key_size),
        r matches Some(res) ==> {
            let (t, groups) = res;
            let ks = stored_keys(kind, key_views(keys@));
            let d = distinct_keys(ks);
            &&& t.wf()
            &&& t.key_kind() == kind
            &&& t.key_width() == key_size
            &&& t.value_width() == 8
            &&& t.slots() == group_table(d)
            &&& groups@.len() == d.len()
            &&& forall|g: int|
                0 <= g < d.len() ==> (#[trigger] groups@[g])@ == group_of(ks, elements@, d[g])
                    && groups@[g].width() == elements.width()
        },
{
    let mut t = match AssocTable::new(kind, key_size, 8) {
        Some(t) => t,
        None => {
            return None;
        },
    };
    let ghost ks = stored_keys(kind, key_views(keys@));
    let mut groups: Vec<ElemArray> = Vec::new();
    let n = keys.len();
    let mut i: usize = 0;
    proof {
        assert(ks.take(0) =~= Seq::<Seq<u8>>::empty());
        assert(group_table(distinct_keys(ks.take(0))) =~= t.slots());
    }
    while i < n
        invariant
            n == keys@.len() == elements@.len() == ks.len(),
            n < usize::MAX / 16,
            ks == stored_keys(kind, key_views(keys@)),
            forall|q: int| 0 <= q < keys@.len() ==> key_fits(kind, key_size, #[trigger] keys@[q]@),
            i <= n,
            t.wf(),
            t.key_kind() == kind,
            t.key_width() == key_size,
            t.value_width() == 8,
            t.depth() == 0,
            t.slots() == group_table(distinct_keys(ks.take(i as int))),
            t.order_capacity() <= 2 * t.slots().len() + 4,
            t.bucket_capacity() <= 3 * t.slots().len() + 8,
            groups@.len() == distinct_keys(ks.take(i as int)).len(),
            forall|g: int|
                0 <= g < groups@.len() ==> (#[trigger] groups@[g])@ == group_of(
                    ks.take(i as int),
                    elements@.take(i as int),
                    distinct_keys(ks.take(i as int))[g],
                ) && groups@[g].width() == elements.width(),
        decreases n - i,
    {
        let ghost pre = ks.take(i as int);
        let ghost d = distinct_keys(pre);
        let ghost c = ks[i as int];
        proof {
            lemma_distinct_keys_unique(pre);
            lemma_group_position(d, c);
            assert(c == canonical_key(kind, keys@[i as int]@));
            assert(ks.take(i + 1).drop_last() =~= pre);
            assert(elements@.take(i + 1).drop_last() =~= elements@.take(i as int));
            assert(ks.take(i + 1).last() == c);
        }
        let key = keys[i].as_slice();
        let item = elements.get(i);
        proof {
            assert(key@ == keys@[i as int]@);
            assert(item@ == elements@.take(i + 1).last());
        }
        match t.get(key) {
            Some(v) => {
                let ghost g0 = position_of(t.slots(), c).unwrap();
                proof {
                    lemma_le_round_trip(g0 as u64);
                    assert(v@ == le_bytes(g0 as u64, 8));
                }
                let g = read_bits(v, 8) as usize;
                let ghost before = groups@;
                let mut grp = groups.remove(g);
                grp.push(item);
                groups.insert(g, grp);
                proof {
                    assert(d.contains(c));
                    assert(distinct_keys(ks.take(i + 1)) == d);
                    assert(g == g0);
                    assert forall|h: int| 0 <= h < groups@.len() implies (#[trigger] groups@[h])@
                        == group_of(
                        ks.take(i + 1),
                        elements@.take(i + 1),
                        distinct_keys(ks.take(i + 1))[h],
                    ) && groups@[h].width() == elements.width() by {
                        if h != g {
                            assert(groups@[h] == before[h]);
                            assert(d[h] != c);
                        }
                    }
                }
            },
            None => {
                let g = groups.len();
                let mut grp = ElemArray::new(elements.elem_size());
                grp.push(item);
                let ghost before = groups@.push(grp);
                groups.push(grp);
                let value = write_bits(g as u64, 8);
                let ghost t0 = t;
                proof {
                    assert forall|q: int| 0 <= q < t.slots().len() implies #[trigger] t.slots()[q]
                        is Some by {}
                    t.lemma_no_deleted_no_tombstones();
                    assert(!t.packs_next());
                    assert(t.slots_before_adding() == t.slots());
                    assert(d.len() <= i);
                    assert(!d.contains(c));
                    assert(!pre.contains(c));
                    lemma_group_of_absent(pre, elements@.take(i as int), c);
                }
                let added = t.insert(key, value.as_slice());
                proof {
                    assert(added);
                    assert(distinct_keys(ks.take(i + 1)) == d.push(c));
                    assert(t.slots() =~= group_table(d.push(c)));
                    assert forall|h: int| 0 <= h < groups@.len() implies (#[trigger] groups@[h])@
                        == group_of(
                        ks.take(i + 1),
                        elements@.take(i + 1),
                        distinct_keys(ks.take(i + 1))[h],
                    ) && groups@[h].width() == elements.width() by {
                        if h < before.len() - 1 {
                            assert(groups@[h] == before[h]);
                            assert(d.push(c)[h] == d[h]);
                            assert(d.contains(d[h]));
                        } else {
                            assert(d.push(c)[h] == c);
                        }
                    }
                }
            },
        }
        i = i + 1;
    }
    proof {
        assert(ks.take(n as int) =~= ks);
        assert(elements@.take(n as int) =~= elements@);
    }
    Some((t, groups))
}

} // verus!
