//! The decisions of the callback-driven array operations (`forEach`,
//! `map`, `filter`, `reduce`, `some`, `every`, `findIndex`): which element
//! a callback runs on next, when a search stops and what it answers, and
//! which elements a filter keeps. The callbacks themselves are script
//! code and run outside, one per element, with the trap flag checked
//! after each.
use vstd::prelude::*;

use super::elems::ElemArray;

verus! {

/// Whether element `index` is visited: it existed when the operation
/// started and still exists (a callback may shrink the array; elements a
/// callback appends are not visited).
pub open spec fn visited(initial_len: usize, current_len: usize, index: usize) -> bool {
    index < initial_len && index < current_len
}

/// Whether the operation runs its callback on element `index`, given the
/// length it started with and the length now.
pub fn visits(initial_len: usize, current_len: usize, index: usize) -> (r: bool)
    ensures
        r == visited(initial_len, current_len, index),
{
    index < initial_len && index < current_len
}

/// What a short-circuiting predicate search answers.
#[derive(Debug, Clone, Copy, PartialEq, Eq)]
pub enum SearchMode {
    /// `some`: stops on the first `true`; 1 or 0.
    Any,
    /// `every`: stops on the first `false`; 1 or 0.
    Every,
    /// `findIndex`: stops on the first `true`; that index or −1.
    FindIndex,
}

/// The answer when every visited element was tested without stopping.
pub open spec fn miss_of(mode: SearchMode) -> int {
    match mode {
        SearchMode::Any => 0,
        SearchMode::Every => 1,
        SearchMode::FindIndex => -1,
    }
}

/// The answer when a predicate call trapped, or the search could not
/// start: a defensible constant.
pub open spec fn trapped_of(mode: SearchMode) -> int {
    match mode {
        SearchMode::FindIndex => -1,
        _ => 0,
    }
}

/// Where the search stops on the predicate's answer `verdict` for element
/// `index`, with its answer; `None` to go on.
pub open spec fn decision_of(mode: SearchMode, index: int, verdict: bool) -> Option<int> {
    match mode {
        SearchMode::Any => if verdict { Some(1) } else { None },
        SearchMode::Every => if !verdict { Some(0) } else { None },
        SearchMode::FindIndex => if verdict { Some(index) } else { None },
    }
}

/// The answer of a search that visited all elements without stopping.
pub fn search_miss(mode: SearchMode) -> (r: i32)
    ensures
        r == miss_of(mode),
{
    match mode {
        SearchMode::Any => 0,
        SearchMode::Every => 1,
        SearchMode::FindIndex => -1,
    }
}

/// The answer of a search whose predicate trapped.
pub fn search_trapped(mode: SearchMode) -> (r: i32)
    ensures
        r == trapped_of(mode),
{
    match mode {
        SearchMode::FindIndex => -1,
        _ => 0,
    }
}

/// Whether the search stops on the predicate's answer `verdict` for
/// element `index`, and with what answer.
pub fn search_decision(mode: SearchMode, index: usize, verdict: bool) -> (r: Option<i32>)
    requires
        index <= i32::MAX,
    ensures
        r matches Some(v) ==> decision_of(mode, index as int, verdict) == Some(v as int),
        r is None <==> decision_of(mode, index as int, verdict) is None,
{
    match mode {
        SearchMode::Any => if verdict { Some(1) } else { None },
        SearchMode::Every => if !verdict { Some(0) } else { None },
        SearchMode::FindIndex => if verdict { Some(index as i32) } else { None },
    }
}

/// The answer of a search given the predicate's answers for the visited
/// elements from `i` on: the first stopping answer, else the miss
/// answer.
pub open spec fn search_from(mode: SearchMode, verdicts: Seq<bool>, i: int) -> int
    decreases verdicts.len() - i,
{
    if i < 0 || i >= verdicts.len() {
        miss_of(mode)
    } else {
        match decision_of(mode, i, verdicts[i]) {
            Some(v) => v,
            None => search_from(mode, verdicts, i + 1),
        }
    }
}

/// `some` / `every` / `findIndex` over the predicate's answers for the
/// visited elements, in order: the answer at the first element that
/// stops the search, else the miss answer. (The callbacks after a
/// stopping answer are never run.)
pub fn search(mode: SearchMode, verdicts: &Vec<bool>) -> (r: i32)
    requires
        verdicts@.len() <= i32::MAX,
    ensures
        r == search_from(mode, verdicts@, 0),
        mode == SearchMode::FindIndex ==> (r == -1 && forall|j: int|
            0 <= j < verdicts@.len() ==> !verdicts@[j]) || (0 <= r < verdicts@.len()
            && verdicts@[r as int] && forall|j: int| 0 <= j < r ==> !verdicts@[j]),
        mode == SearchMode::Any ==> (r == 1 <==> exists|j: int| 0 <= j < verdicts@.len() && verdicts@[j]),
        mode == SearchMode::Any ==> (r == 0 || r == 1),
        mode == SearchMode::Every ==> (r == 1 <==> forall|j: int| 0 <= j < verdicts@.len() ==> verdicts@[j]),
        mode == SearchMode::Every ==> (r == 0 || r == 1),
{
    proof {
        lemma_search_answers(verdicts@);
    }
    let mut i: usize = 0;
    while i < verdicts.len()
        invariant
            i <= verdicts@.len() <= i32::MAX,
            search_from(mode, verdicts@, 0) == search_from(mode, verdicts@, i as int),
        decreases verdicts@.len() - i,
    {
        match search_decision(mode, i, verdicts[i]) {
            Some(v) => {
                proof {
                    lemma_search_answers(verdicts@);
                }
                return v;
            },
            None => {},
        }
        i = i + 1;
    }
    search_miss(mode)
}

/// `filter`: the visited elements whose predicate answer was `true`, in
/// order. `elements[i]` is the copy of element `i` taken before its
/// callback ran, `keep[i]` the callback's answer; after a trap, only the
/// elements answered before it are passed.
pub fn filter_kept(elements: &ElemArray, keep: &Vec<bool>) -> (r: ElemArray)
    requires
        keep@.len() <= elements@.len(),
    ensures
        r.width() == elements.width(),
        r@ == kept_of(elements@, keep@),
        r@.len() == count_true(keep@),
        forall|i: int|
            0 <= i < keep@.len() && keep@[i] ==> r@[count_true(keep@.take(i)) as int] == elements@[i],
{
    proof {
        lemma_filter_keeps_each_true(elements@, keep@);
    }
    let mut out = ElemArray::new(elements.elem_size());
    let mut i: usize = 0;
    while i < keep.len()
        invariant
            keep@.len() <= elements@.len(),
            i <= keep@.len(),
            out.width() == elements.width(),
            out@ == kept_of(elements@.take(i as int), keep@.take(i as int)),
        decreases keep@.len() - i,
    {
        proof {
            assert(elements@.take(i + 1).drop_last() =~= elements@.take(i as int));
            assert(keep@.take(i + 1).drop_last() =~= keep@.take(i as int));
        }
        if keep[i] {
            out.push(elements.get(i));
        }
        i = i + 1;
    }
    proof {
        assert(keep@.take(i as int) =~= keep@);
        assert(kept_of(elements@.take(i as int), keep@) == kept_of(elements@, keep@)) by {
            lemma_kept_prefix(elements@, keep@);
        }
    }
    out
}

/// The elements of `items` whose answer in `keep` is `true`, in order
/// (answers beyond the elements, or elements beyond the answers, count
/// as not kept).
pub open spec fn kept_of(items: Seq<Seq<u8>>, keep: Seq<bool>) -> Seq<Seq<u8>>
    decreases keep.len(),
{
    if keep.len() == 0 || keep.len() > items.len() {
        Seq::empty()
    } else {
        let rest = kept_of(items.take(keep.len() - 1), keep.drop_last());
        if keep.last() {
            rest.push(items[keep.len() - 1])
        } else {
            rest
        }
    }
}

/// Only the elements the answers cover matter.
proof fn lemma_kept_prefix(items: Seq<Seq<u8>>, keep: Seq<bool>)
    requires
        keep.len() <= items.len(),
    ensures
        kept_of(items.take(keep.len() as int), keep) == kept_of(items, keep),
    decreases keep.len(),
{
    if keep.len() > 0 {
        let n = keep.len() as int;
        assert(items.take(n).take(n - 1) =~= items.take(n - 1));
        assert(items.take(n)[n - 1] == items[n - 1]);
    }
}

/// The number of `true` answers in `keep`.
pub open spec fn count_true(keep: Seq<bool>) -> nat
    decreases keep.len(),
{
    if keep.len() == 0 {
        0
    } else {
        count_true(keep.drop_last()) + if keep.last() { 1nat } else { 0nat }
    }
}

/// `filter` keeps every element answered `true`, once each, in order:
/// its length is the number of `true` answers, and the element answered
/// `true` at position `i` lands at the number of `true` answers before
/// `i`.
pub proof fn lemma_filter_keeps_each_true(items: Seq<Seq<u8>>, keep: Seq<bool>)
    requires
        keep.len() <= items.len(),
    ensures
        kept_of(items, keep).len() == count_true(keep),
        forall|i: int|
            0 <= i < keep.len() && keep[i] ==> kept_of(items, keep)[count_true(keep.take(i)) as int]
                == items[i],
    decreases keep.len(),
{
    if keep.len() > 0 {
        let n = keep.len() as int;
        let short = items.take(n - 1);
        let k2 = keep.drop_last();
        lemma_filter_keeps_each_true(short, k2);
        assert forall|i: int|
            0 <= i < keep.len() && keep[i] implies kept_of(items, keep)[count_true(keep.take(i)) as int]
            == items[i] by {
            if i < n - 1 {
                assert(keep.take(i) =~= k2.take(i));
                assert(k2[i] == keep[i]);
                assert(short[i] == items[i]);
                lemma_count_prefix_below(k2, i);
            } else {
                assert(keep.take(i) =~= k2);
            }
        }
    }
}

/// Fewer `true` answers come before a `true` answer than in all.
proof fn lemma_count_prefix_below(keep: Seq<bool>, i: int)
    requires
        0 <= i < keep.len(),
        keep[i],
    ensures
        count_true(keep.take(i)) < count_true(keep),
    decreases keep.len(),
{
    if i < keep.len() - 1 {
        lemma_count_prefix_below(keep.drop_last(), i);
        assert(keep.drop_last().take(i) =~= keep.take(i));
    } else {
        assert(keep.take(i) =~= keep.drop_last());
    }
}

/// `findIndex` answers the first index answered `true`, or -1 when none
/// is; `some` answers 1 exactly when an answer is `true`; `every` answers
/// 1 exactly when every answer is `true`. Each looks at the answers from
/// the first on.
pub proof fn lemma_search_answers(verdicts: Seq<bool>)
    ensures
        ({
            let r = search_from(SearchMode::FindIndex, verdicts, 0);
            ||| r == -1 && forall|j: int| 0 <= j < verdicts.len() ==> !verdicts[j]
            ||| 0 <= r < verdicts.len() && verdicts[r] && forall|j: int| 0 <= j < r ==> !verdicts[j]
        }),
        search_from(SearchMode::Any, verdicts, 0) == if exists|j: int|
            0 <= j < verdicts.len() && verdicts[j] {
            1int
        } else {
            0int
        },
        search_from(SearchMode::Every, verdicts, 0) == if forall|j: int|
            0 <= j < verdicts.len() ==> verdicts[j] {
            1int
        } else {
            0int
        },
{
    lemma_search_suffix(verdicts, 0);
}

/// The search from `i` on, in the terms of `lemma_search_answers`.
proof fn lemma_search_suffix(verdicts: Seq<bool>, i: int)
    requires
        0 <= i <= verdicts.len(),
    ensures
        ({
            let r = search_from(SearchMode::FindIndex, verdicts, i);
            ||| r == -1 && forall|j: int| i <= j < verdicts.len() ==> !verdicts[j]
            ||| i <= r < verdicts.len() && verdicts[r] && forall|j: int| i <= j < r ==> !verdicts[j]
        }),
        search_from(SearchMode::Any, verdicts, i) == if exists|j: int|
            i <= j < verdicts.len() && verdicts[j] {
            1int
        } else {
            0int
        },
        search_from(SearchMode::Every, verdicts, i) == if forall|j: int|
            i <= j < verdicts.len() ==> verdicts[j] {
            1int
        } else {
            0int
        },
    decreases verdicts.len() - i,
{
    if i < verdicts.len() {
        lemma_search_suffix(verdicts, i + 1);
        if verdicts[i] {
            assert(exists|j: int| i <= j < verdicts.len() && verdicts[j]);
        } else {
            assert(!(forall|j: int| i <= j < verdicts.len() ==> verdicts[j]));
            if exists|j: int| i <= j < verdicts.len() && verdicts[j] {
                let j = choose|j: int| i <= j < verdicts.len() && verdicts[j];
                assert(i + 1 <= j);
            }
        }
    }
}

} // verus!
