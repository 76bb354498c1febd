//! `sort(cmp)`: the stable bottom-up merge sort of an array under a
//! script comparator. The comparator runs outside, one comparison at a
//! time: the sort names the two elements (by their original positions)
//! it needs compared, takes the comparator's answer, and finally yields
//! the sorted order as a permutation of the original positions.
use vstd::prelude::*;

verus! {

/// One comparator answer: `(x, y, c <= 0)` for the comparison of the
/// elements originally at `x` and `y`.
pub type Answer = (usize, usize, bool);

/// `y` may follow `x` directly in a stable ascending order, on the
/// strength of the recorded answers: `x` was found no greater than `y`
/// and comes first originally, or `x` was found less than `y`.
pub open spec fn adjacent_ok(h: Seq<Answer>, x: usize, y: usize) -> bool {
    (h.contains((x, y, true)) && x < y) || h.contains((y, x, false))
}

/// `a` is a permutation of `0..n`.
pub open spec fn is_permutation(a: Seq<usize>, n: nat) -> bool {
    &&& a.len() == n
    &&& forall|p: int| 0 <= p < n ==> #[trigger] a[p] < n
    &&& forall|p: int, q: int| 0 <= p < q < n ==> #[trigger] a[p] != #[trigger] a[q]
}

/// Positions below `b` hold exactly the values below `b`.
pub open spec fn closed_at(a: Seq<usize>, b: int) -> bool {
    forall|p: int| 0 <= p < a.len() ==> (p < b <==> #[trigger] a[p] < b)
}

/// `q` starts a run of width `w`.
pub open spec fn run_start(q: int, w: int) -> bool {
    q % w == 0
}

/// Within every run of width `w` below position `end`, each element may
/// follow its predecessor.
pub open spec fn runs_sorted(a: Seq<usize>, h: Seq<Answer>, w: int, end: int) -> bool {
    forall|p: int, q: int|
        #![trigger a[p], a[q]]
        0 <= p && q == p + 1 && q < end && !run_start(q, w) ==> adjacent_ok(h, a[p], a[q])
}

/// Every run boundary of width `w` up to `end`, and `end` itself, closes
/// the positions below it.
pub open spec fn runs_closed(a: Seq<usize>, w: int, end: int) -> bool {
    forall|b: int| #![trigger run_start(b, w)] 0 <= b <= end && run_start(b, w) ==> closed_at(a, b)
}

/// A multiple of `2w` is a multiple of `w`.
proof fn lemma_start_halves(b: int, w: int)
    requires
        w > 0,
        b % (2 * w) == 0,
    ensures
        b % w == 0,
{
    assert(b % w == 0) by (nonlinear_arith)
        requires
            w > 0,
            b % (2 * w) == 0,
    {
        assert(b == (b / (2 * w)) * (2 * w));
        assert(b == ((b / (2 * w)) * 2) * w);
    }
}

/// No run of width `w` starts strictly inside one that starts at `lo`.
proof fn lemma_inside_run(lo: int, w: int, q: int)
    requires
        w > 0,
        lo % w == 0,
        lo < q < lo + w,
    ensures
        q % w != 0,
{
    assert(q % w != 0) by (nonlinear_arith)
        requires
            w > 0,
            lo % w == 0,
            lo < q < lo + w,
    {
    }
}

/// The run after one that starts at `lo` starts at `lo + w`.
proof fn lemma_next_run(lo: int, w: int)
    requires
        w > 0,
        lo % w == 0,
    ensures
        (lo + w) % w == 0,
{
    assert((lo + w) % w == 0) by (nonlinear_arith)
        requires
            w > 0,
            lo % w == 0,
    {
    }
}

/// Recorded facts stay recorded as answers accumulate.
proof fn lemma_adjacent_kept(h: Seq<Answer>, e: Answer, x: usize, y: usize)
    requires
        adjacent_ok(h, x, y),
    ensures
        adjacent_ok(h.push(e), x, y),
{
    if h.contains((y, x, false)) {
        lemma_contains_kept(h, e, (y, x, false));
    } else {
        lemma_contains_kept(h, e, (x, y, true));
    }
}

/// A recorded answer stays recorded.
proof fn lemma_contains_kept(h: Seq<Answer>, e: Answer, x: Answer)
    requires
        h.contains(x),
    ensures
        h.push(e).contains(x),
{
    let t = choose|t: int| 0 <= t < h.len() && h[t] == x;
    assert(h.push(e)[t] == x);
}

/// The sort in progress. Positions hold original positions: `a` is the
/// order produced by the finished passes, `tmp` the pass being merged.
pub struct MergeSort {
    a: Vec<usize>,
    tmp: Vec<usize>,
    n: usize,
    width: usize,
    lo: usize,
    mid: usize,
    hi: usize,
    l: usize,
    r: usize,
    k: usize,
    done: bool,
    last_left: Ghost<bool>,
    history: Ghost<Seq<Answer>>,
}

/// Merge passes still to run from run width `w`: one for each of the
/// widths `w`, `2w`, `4w`, ... below `n`.
pub open spec fn passes(w: int, n: int) -> nat
    decreases n - w,
{
    if !(1 <= w < n) {
        0
    } else if 2 * w >= n {
        1
    } else {
        1 + passes(2 * w, n)
    }
}

impl MergeSort {
    /// The comparator answers still to come at most: the elements the
    /// current pass has yet to place and a full pass for each pass after
    /// it. Every answer lowers it, and it is zero exactly when the sort
    /// has finished.
    pub closed spec fn steps_left(&self) -> nat {
        if self.done {
            0
        } else {
            (self.n - self.k) as nat + self.n as nat * passes(2 * self.width, self.n as int)
        }
    }

    /// The comparator answers given so far, in order.
    pub closed spec fn answers(&self) -> Seq<Answer> {
        self.history@
    }

    /// Whether the sort has finished.
    pub closed spec fn finished(&self) -> bool {
        self.done
    }

    /// The number of elements sorted.
    pub closed spec fn count(&self) -> nat {
        self.n as nat
    }

    /// The order so far: the finished passes' permutation.
    pub closed spec fn current(&self) -> Seq<usize> {
        self.a@
    }

    /// The comparison asked for next: the original positions of the left
    /// and the right element.
    pub closed spec fn asked(&self) -> (usize, usize) {
        (self.a@[self.l as int], self.a@[self.r as int])
    }

    /// The invariant of the merge, settled or not.
    closed spec fn progress_ok(&self) -> bool {
        let a = self.a@;
        let n = self.n as int;
        let h = self.history@;
        &&& a.len() == n
        &&& self.tmp@.len() == n
        &&& n <= i32::MAX
        &&& is_permutation(a, n as nat)
        &&& self.done ==> forall|p: int, q: int|
            #![trigger a[p], a[q]]
            0 <= p && q == p + 1 && q < n ==> adjacent_ok(h, a[p], a[q])
        &&& !self.done ==> merge_ok(
            a,
            self.tmp@,
            h,
            self.width as int,
            n,
            self.lo as int,
            self.mid as int,
            self.hi as int,
            self.l as int,
            self.r as int,
            self.k as int,
            self.last_left@,
        )
    }

    /// The invariant between steps: finished, or waiting for the answer
    /// to a comparison.
    pub closed spec fn wf(&self) -> bool {
        &&& self.progress_ok()
        &&& !self.done ==> self.l < self.mid && self.r < self.hi
    }
}

/// Run order stays justified as answers accumulate.
proof fn lemma_runs_sorted_kept(a: Seq<usize>, h: Seq<Answer>, e: Answer, w: int, end: int)
    requires
        runs_sorted(a, h, w, end),
    ensures
        runs_sorted(a, h.push(e), w, end),
{
    assert forall|p: int, q: int|
        #![trigger a[p], a[q]]
        0 <= p && q == p + 1 && q < end && !run_start(q, w) implies adjacent_ok(
        h.push(e),
        a[p],
        a[q],
    ) by {
        lemma_adjacent_kept(h, e, a[p], a[q]);
    }
}

/// The state of a pass: `a` holds sorted runs of width `w`; `t` holds
/// the merged runs of width `2w` below `lo` and the merge of the runs
/// `[lo, mid)` and `[mid, hi)` of `a` so far, up to `k`.
spec fn merge_ok(
    a: Seq<usize>,
    t: Seq<usize>,
    h: Seq<Answer>,
    w: int,
    n: int,
    lo: int,
    mid: int,
    hi: int,
    l: int,
    r: int,
    k: int,
    last_left: bool,
) -> bool {
    &&& 1 <= w < n
    &&& a.len() == n
    &&& t.len() == n
    &&& is_permutation(a, n as nat)
    &&& runs_sorted(a, h, w, n)
    &&& runs_closed(a, w, n)
    &&& lo % (2 * w) == 0
    &&& 0 <= lo < n
    &&& mid == if lo + w < n { lo + w } else { n }
    &&& hi == if lo + 2 * w < n { lo + 2 * w } else { n }
    &&& lo <= l <= mid <= r <= hi
    &&& k == l + (r - mid)
    &&& runs_sorted(t, h, 2 * w, k)
    &&& t_closed(t, w, lo, k)
    &&& from_runs(a, t, lo, mid, l, r, k)
    &&& forall|p: int, q: int| 0 <= p < q < k ==> #[trigger] t[p] != #[trigger] t[q]
    &&& k > lo && last_left ==> l > lo && t[k - 1] == a[l - 1]
    &&& k > lo && !last_left ==> r > mid && t[k - 1] == a[r - 1]
    &&& k > lo && last_left && r < hi ==> h.contains((t[k - 1], a[r], true))
    &&& k > lo && !last_left && l < mid ==> h.contains((a[l], t[k - 1], false))
}

/// Below `k`, every run boundary of width `2w` up to `lo` closes `t`.
spec fn t_closed(t: Seq<usize>, w: int, lo: int, k: int) -> bool {
    forall|b: int|
        #![trigger run_start(b, 2 * w)]
        0 <= b <= lo && run_start(b, 2 * w) ==> forall|p: int|
            0 <= p < k ==> (p < b <==> #[trigger] t[p] < b)
}

/// The merged output of the current run pair holds elements taken from
/// the consumed parts of the two runs.
spec fn from_runs(a: Seq<usize>, t: Seq<usize>, lo: int, mid: int, l: int, r: int, k: int) -> bool {
    forall|q: int|
        lo <= q < k ==> exists|p: int| (lo <= p < l || mid <= p < r) && #[trigger] a[p] == #[trigger] t[q]
}

/// The value bounds of the two runs being merged.
proof fn lemma_run_bounds(a: Seq<usize>, w: int, n: int, lo: int, mid: int, hi: int)
    requires
        1 <= w < n,
        a.len() == n,
        is_permutation(a, n as nat),
        runs_closed(a, w, n),
        lo % (2 * w) == 0,
        0 <= lo < n,
        mid == if lo + w < n { lo + w } else { n },
        hi == if lo + 2 * w < n { lo + 2 * w } else { n },
    ensures
        closed_at(a, lo),
        closed_at(a, mid),
        closed_at(a, hi),
        lo % w == 0,
        mid < n ==> mid % w == 0,
{
    lemma_start_halves(lo, w);
    assert(run_start(lo, w));
    lemma_next_run(lo, w);
    lemma_next_run(lo + w, w);
    assert forall|p: int| 0 <= p < a.len() implies (p < n <==> #[trigger] a[p] < n) by {}
    if mid < n {
        assert(run_start(mid, w));
    }
    if hi < n {
        assert(run_start(hi, w));
    }
}

/// The element the merge takes next: the left run's head or the right
/// run's head.
spec fn next_src(l: int, r: int, from_left: bool) -> int {
    if from_left { l } else { r }
}

/// What taking the next element needs: the run it comes from is not
/// exhausted, and the comparison that chose it is recorded.
spec fn can_place(
    a: Seq<usize>,
    h: Seq<Answer>,
    mid: int,
    hi: int,
    l: int,
    r: int,
    from_left: bool,
) -> bool {
    &&& from_left ==> l < mid && (r < hi ==> h.contains((a[l], a[r], true)))
    &&& !from_left ==> r < hi && (l < mid ==> h.contains((a[l], a[r], false)))
}

/// Taking the next element keeps the merged output in order.
proof fn lemma_place_sorted(
    a: Seq<usize>,
    t: Seq<usize>,
    h: Seq<Answer>,
    w: int,
    n: int,
    lo: int,
    mid: int,
    hi: int,
    l: int,
    r: int,
    k: int,
    last_left: bool,
    from_left: bool,
)
    requires
        merge_ok(a, t, h, w, n, lo, mid, hi, l, r, k, last_left),
        can_place(a, h, mid, hi, l, r, from_left),
    ensures
        runs_sorted(t.update(k, a[next_src(l, r, from_left)]), h, 2 * w, k + 1),
{
    let v = a[next_src(l, r, from_left)];
    let t2 = t.update(k, v);
    lemma_run_bounds(a, w, n, lo, mid, hi);
    if k > lo {
        lemma_inside_run(lo, 2 * w, k);
        if from_left {
            if last_left {
                lemma_inside_run(lo, w, l);
                assert(adjacent_ok(h, a[l - 1], a[l]));
            }
        } else {
            if last_left {
                assert(0 <= l - 1 < a.len());
                assert(a[l - 1] < mid);
                assert(a[r] >= mid);
            } else {
                assert(mid < n);
                lemma_inside_run(mid, w, r);
                assert(adjacent_ok(h, a[r - 1], a[r]));
            }
        }
        assert(adjacent_ok(h, t2[k - 1], t2[k]));
    }
    assert forall|p: int, q: int|
        #![trigger t2[p], t2[q]]
        0 <= p && q == p + 1 && q < k + 1 && !run_start(q, 2 * w) implies adjacent_ok(
        h,
        t2[p],
        t2[q],
    ) by {
        if q < k {
            assert(t2[p] == t[p] && t2[q] == t[q]);
        }
    }
}

/// Taking the next element keeps the run boundaries closing the output.
proof fn lemma_place_closed(
    a: Seq<usize>,
    t: Seq<usize>,
    h: Seq<Answer>,
    w: int,
    n: int,
    lo: int,
    mid: int,
    hi: int,
    l: int,
    r: int,
    k: int,
    last_left: bool,
    from_left: bool,
)
    requires
        merge_ok(a, t, h, w, n, lo, mid, hi, l, r, k, last_left),
        can_place(a, h, mid, hi, l, r, from_left),
    ensures
        t_closed(t.update(k, a[next_src(l, r, from_left)]), w, lo, k + 1),
{
    let v = a[next_src(l, r, from_left)];
    let t2 = t.update(k, v);
    lemma_run_bounds(a, w, n, lo, mid, hi);
    assert(v >= lo);
    assert forall|b: int|
        #![trigger run_start(b, 2 * w)]
        0 <= b <= lo && run_start(b, 2 * w) implies forall|p: int|
        0 <= p < k + 1 ==> (p < b <==> #[trigger] t2[p] < b) by {
        assert forall|p: int| 0 <= p < k + 1 implies (p < b <==> #[trigger] t2[p] < b) by {
            if p < k {
                assert(t2[p] == t[p]);
            }
        }
    }
}

/// Taking the next element records where it came from, and keeps the
/// output free of repeats.
proof fn lemma_place_from(
    a: Seq<usize>,
    t: Seq<usize>,
    h: Seq<Answer>,
    w: int,
    n: int,
    lo: int,
    mid: int,
    hi: int,
    l: int,
    r: int,
    k: int,
    last_left: bool,
    from_left: bool,
)
    requires
        merge_ok(a, t, h, w, n, lo, mid, hi, l, r, k, last_left),
        can_place(a, h, mid, hi, l, r, from_left),
    ensures
        from_runs(
            a,
            t.update(k, a[next_src(l, r, from_left)]),
            lo,
            mid,
            if from_left { l + 1 } else { l },
            if from_left { r } else { r + 1 },
            k + 1,
        ),
        forall|p: int, q: int|
            0 <= p < q < k + 1 ==> #[trigger] t.update(k, a[next_src(l, r, from_left)])[p]
                != #[trigger] t.update(k, a[next_src(l, r, from_left)])[q],
{
    let src = next_src(l, r, from_left);
    let v = a[src];
    let t2 = t.update(k, v);
    let l2 = if from_left { l + 1 } else { l };
    let r2 = if from_left { r } else { r + 1 };
    lemma_run_bounds(a, w, n, lo, mid, hi);
    assert forall|q: int| lo <= q < k + 1 implies exists|p: int|
        (lo <= p < l2 || mid <= p < r2) && #[trigger] a[p] == #[trigger] t2[q] by {
        if q < k {
            let p = choose|p: int| (lo <= p < l || mid <= p < r) && a[p] == t[q];
            assert(t2[q] == t[q]);
            assert(a[p] == t2[q]);
        } else {
            assert(a[src] == t2[q]);
        }
    }
    lemma_start_halves(lo, w);
    assert(run_start(lo, 2 * w));
    assert forall|p: int, q: int| 0 <= p < q < k + 1 implies #[trigger] t2[p] != #[trigger] t2[q] by {
        if q == k {
            assert(t2[p] == t[p]);
            if p < lo {
                assert(t[p] < lo);
            } else {
                let pp = choose|pp: int| (lo <= pp < l || mid <= pp < r) && a[pp] == t[p];
                assert(pp != src);
            }
        } else {
            assert(t2[p] == t[p] && t2[q] == t[q]);
        }
    }
}

/// Taking the next element preserves the merge invariant.
proof fn lemma_place(
    a: Seq<usize>,
    t: Seq<usize>,
    h: Seq<Answer>,
    w: int,
    n: int,
    lo: int,
    mid: int,
    hi: int,
    l: int,
    r: int,
    k: int,
    last_left: bool,
    from_left: bool,
)
    requires
        merge_ok(a, t, h, w, n, lo, mid, hi, l, r, k, last_left),
        can_place(a, h, mid, hi, l, r, from_left),
    ensures
        merge_ok(
            a,
            t.update(k, a[next_src(l, r, from_left)]),
            h,
            w,
            n,
            lo,
            mid,
            hi,
            if from_left { l + 1 } else { l },
            if from_left { r } else { r + 1 },
            k + 1,
            from_left,
        ),
{
    lemma_place_sorted(a, t, h, w, n, lo, mid, hi, l, r, k, last_left, from_left);
    lemma_place_closed(a, t, h, w, n, lo, mid, hi, l, r, k, last_left, from_left);
    lemma_place_from(a, t, h, w, n, lo, mid, hi, l, r, k, last_left, from_left);
}

/// Finishing a run pair moves the merge to the next pair.
proof fn lemma_next_pair(
    a: Seq<usize>,
    t: Seq<usize>,
    h: Seq<Answer>,
    w: int,
    n: int,
    lo: int,
    mid: int,
    hi: int,
    last_left: bool,
    next_left: bool,
)
    requires
        merge_ok(a, t, h, w, n, lo, mid, hi, mid, hi, hi, last_left),
        hi < n,
    ensures
        merge_ok(
            a,
            t,
            h,
            w,
            n,
            hi,
            if hi + w < n { hi + w } else { n },
            if hi + 2 * w < n { hi + 2 * w } else { n },
            hi,
            if hi + w < n { hi + w } else { n },
            hi,
            next_left,
        ),
{
    lemma_run_bounds(a, w, n, lo, mid, hi);
    lemma_next_run(lo, 2 * w);
    assert(run_start(lo, 2 * w));
    assert forall|b: int|
        #![trigger run_start(b, 2 * w)]
        0 <= b <= hi && run_start(b, 2 * w) implies forall|p: int|
        0 <= p < hi ==> (p < b <==> #[trigger] t[p] < b) by {
        if lo < b < hi {
            lemma_inside_run(lo, 2 * w, b);
        }
        if b == hi {
            assert forall|p: int| 0 <= p < hi implies (p < b <==> #[trigger] t[p] < b) by {
                if p < lo {
                    assert(t[p] < lo);
                } else {
                    let pp = choose|pp: int| (lo <= pp < mid || mid <= pp < hi) && a[pp] == t[p];
                    assert(a[pp] < hi);
                }
            }
        }
    }
}

/// A finished pass leaves `t` a permutation sorted in runs of width
/// `2w`, closed at their boundaries.
proof fn lemma_finish_pass(
    a: Seq<usize>,
    t: Seq<usize>,
    h: Seq<Answer>,
    w: int,
    n: int,
    lo: int,
    mid: int,
    last_left: bool,
)
    requires
        merge_ok(a, t, h, w, n, lo, mid, n, mid, n, n, last_left),
    ensures
        is_permutation(t, n as nat),
        runs_sorted(t, h, 2 * w, n),
        runs_closed(t, 2 * w, n),
{
    lemma_run_bounds(a, w, n, lo, mid, n);
    assert(run_start(lo, 2 * w));
    assert forall|p: int| 0 <= p < n implies #[trigger] t[p] < n by {
        if p < lo {
            assert(t[p] < lo);
        } else {
            let pp = choose|pp: int| (lo <= pp < mid || mid <= pp < n) && a[pp] == t[p];
        }
    }
    assert forall|b: int|
        #![trigger run_start(b, 2 * w)]
        0 <= b <= n && run_start(b, 2 * w) implies closed_at(t, b) by {
        if lo < b < lo + 2 * w {
            lemma_inside_run(lo, 2 * w, b);
        }
        if b <= lo {
            assert forall|p: int| 0 <= p < t.len() implies (p < b <==> #[trigger] t[p] < b) by {}
        } else {
            assert(b == n);
            assert forall|p: int| 0 <= p < t.len() implies (p < b <==> #[trigger] t[p] < b) by {}
        }
    }
}

/// A pass with runs as long as the array leaves every neighbour in order.
proof fn lemma_all_in_order(t: Seq<usize>, h: Seq<Answer>, w: int, n: int)
    requires
        runs_sorted(t, h, w, n),
        n <= w,
    ensures
        forall|p: int, q: int|
            #![trigger t[p], t[q]]
            0 <= p && q == p + 1 && q < n ==> adjacent_ok(h, t[p], t[q]),
{
    assert forall|p: int, q: int|
        #![trigger t[p], t[q]]
        0 <= p && q == p + 1 && q < n implies adjacent_ok(h, t[p], t[q]) by {
        lemma_inside_run(0, w, q);
    }
}

/// The merge invariant holds as answers accumulate.
proof fn lemma_merge_ok_kept(
    a: Seq<usize>,
    t: Seq<usize>,
    h: Seq<Answer>,
    e: Answer,
    w: int,
    n: int,
    lo: int,
    mid: int,
    hi: int,
    l: int,
    r: int,
    k: int,
    last_left: bool,
)
    requires
        merge_ok(a, t, h, w, n, lo, mid, hi, l, r, k, last_left),
    ensures
        merge_ok(a, t, h.push(e), w, n, lo, mid, hi, l, r, k, last_left),
{
    lemma_runs_sorted_kept(a, h, e, w, n);
    lemma_runs_sorted_kept(t, h, e, 2 * w, k);
    if k > lo && last_left && r < hi {
        lemma_contains_kept(h, e, (t[k - 1], a[r], true));
    }
    if k > lo && !last_left && l < mid {
        lemma_contains_kept(h, e, (a[l], t[k - 1], false));
    }
}

impl MergeSort {
    /// Starts sorting `n` elements: the order starts as the original
    /// one, and fewer than two elements are sorted already.
    pub fn new(n: usize) -> (r: MergeSort)
        requires
            n <= i32::MAX,
        ensures
            r.wf(),
            r.count() == n,
            r.answers() == Seq::<Answer>::empty(),
            r.finished() <==> n < 2,
            r.steps_left() == if n < 2 { 0 } else { n * passes(1, n as int) },
    {
        let mut a: Vec<usize> = Vec::new();
        let mut t: Vec<usize> = Vec::new();
        let mut i: usize = 0;
        while i < n
            invariant
                i <= n,
                a@.len() == i,
                t@.len() == i,
                forall|p: int| 0 <= p < i ==> a@[p] == p && t@[p] == p,
            decreases n - i,
        {
            a.push(i);
            t.push(i);
            i = i + 1;
        }
        let ghost h = Seq::<Answer>::empty();
        proof {
            assert forall|p: int, q: int|
                #![trigger a@[p], a@[q]]
                0 <= p && q == p + 1 && q < n && !run_start(q, 1) implies adjacent_ok(
                h,
                a@[p],
                a@[q],
            ) by {
                assert(q % 1 == 0);
            }
            assert forall|b: int|
                #![trigger run_start(b, 1)]
                0 <= b <= n && run_start(b, 1) implies closed_at(a@, b) by {}
        }
        proof {
            if n >= 2 {
                assert(passes(1, n as int) == 1 + passes(2, n as int));
                assert(n * (1 + passes(2, n as int)) == n + n * passes(2, n as int)) by (nonlinear_arith);
            }
        }
        if n < 2 {
            MergeSort {
                a,
                tmp: t,
                n,
                width: 1,
                lo: 0,
                mid: 0,
                hi: 0,
                l: 0,
                r: 0,
                k: 0,
                done: true,
                last_left: Ghost(true),
                history: Ghost(h),
            }
        } else {
            MergeSort {
                a,
                tmp: t,
                n,
                width: 1,
                lo: 0,
                mid: 1,
                hi: 2,
                l: 0,
                r: 1,
                k: 0,
                done: false,
                last_left: Ghost(true),
                history: Ghost(h),
            }
        }
    }

    /// The comparison to make next, as the original positions of the
    /// left and the right element; `None` once the sort has finished.
    pub fn pending(&self) -> (r: Option<(usize, usize)>)
        requires
            self.wf(),
        ensures
            r == if self.finished() { None } else { Some(self.asked()) },
    {
        if self.done {
            None
        } else {
            Some((self.a[self.l], self.a[self.r]))
        }
    }

    /// Whether the sort has finished.
    pub fn is_finished(&self) -> (r: bool)
        ensures
            r == self.finished(),
    {
        self.done
    }

    /// The sorted order: position `i` holds the original position of the
    /// element that goes there.
    pub fn order(&self) -> (r: &Vec<usize>)
        requires
            self.finished(),
        ensures
            r@ == self.current(),
    {
        &self.a
    }

    /// Moves the next element of the left run (`from_left`) or the right
    /// run into the merged output.
    fn place(&mut self, from_left: bool)
        requires
            old(self).progress_ok(),
            !old(self).done,
            can_place(
                old(self).a@,
                old(self).history@,
                old(self).mid as int,
                old(self).hi as int,
                old(self).l as int,
                old(self).r as int,
                from_left,
            ),
        ensures
            final(self).progress_ok(),
            !final(self).done,
            final(self).history == old(self).history,
            final(self).n == old(self).n,
            final(self).width == old(self).width,
            final(self).lo == old(self).lo,
            final(self).mid == old(self).mid,
            final(self).hi == old(self).hi,
            final(self).k == old(self).k + 1,
            final(self).l == if from_left { old(self).l + 1 } else { old(self).l as int },
            final(self).r == if from_left { old(self).r as int } else { old(self).r + 1 },
            final(self).steps_left() + 1 == old(self).steps_left(),
    {
        proof {
            lemma_place(
                self.a@,
                self.tmp@,
                self.history@,
                self.width as int,
                self.n as int,
                self.lo as int,
                self.mid as int,
                self.hi as int,
                self.l as int,
                self.r as int,
                self.k as int,
                self.last_left@,
                from_left,
            );
        }
        let src = if from_left { self.l } else { self.r };
        let v = self.a[src];
        self.tmp.set(self.k, v);
        if from_left {
            self.l = self.l + 1;
        } else {
            self.r = self.r + 1;
        }
        self.k = self.k + 1;
        proof {
            self.last_left = Ghost(from_left);
        }
    }

    /// Runs the merge on until it needs a comparison or has finished:
    /// copies the rest of a run whose partner is exhausted, moves on to
    /// the next run pair, and ends passes.
    fn settle(&mut self)
        requires
            old(self).progress_ok(),
        ensures
            final(self).wf(),
            final(self).history == old(self).history,
            final(self).n == old(self).n,
            final(self).steps_left() <= old(self).steps_left(),
    {
        while !self.done && !(self.l < self.mid && self.r < self.hi)
            invariant
                self.progress_ok(),
                self.history == old(self).history,
                self.n == old(self).n,
                self.steps_left() <= old(self).steps_left(),
            decreases (if self.done { 0 } else { self.n - self.width }), self.n - self.k, self.n
                - self.lo,
        {
            if self.l < self.mid {
                self.place(true);
            } else if self.r < self.hi {
                self.place(false);
            } else if self.hi < self.n {
                let lo2 = self.hi;
                let w = self.width;
                let mid2 = if self.n - lo2 > w { lo2 + w } else { self.n };
                let hi2 = if self.n - lo2 > 2 * w { lo2 + 2 * w } else { self.n };
                proof {
                    lemma_next_pair(
                        self.a@,
                        self.tmp@,
                        self.history@,
                        w as int,
                        self.n as int,
                        self.lo as int,
                        self.mid as int,
                        self.hi as int,
                        self.last_left@,
                        true,
                    );
                }
                self.lo = lo2;
                self.mid = mid2;
                self.hi = hi2;
                self.l = lo2;
                self.r = mid2;
                proof {
                    self.last_left = Ghost(true);
                }
            } else {
                proof {
                    lemma_finish_pass(
                        self.a@,
                        self.tmp@,
                        self.history@,
                        self.width as int,
                        self.n as int,
                        self.lo as int,
                        self.mid as int,
                        self.last_left@,
                    );
                }
                let ghost before = self.steps_left();
                proof {
                    assert(self.k == self.n);
                }
                std::mem::swap(&mut self.a, &mut self.tmp);
                let w2 = 2 * self.width;
                self.width = w2;
                if w2 < self.n {
                    self.lo = 0;
                    self.mid = w2;
                    self.hi = if self.n - w2 > w2 { w2 + w2 } else { self.n };
                    self.l = 0;
                    self.r = w2;
                    self.k = 0;
                    proof {
                        let nn = self.n as int;
                        let p4 = passes(2 * w2 as int, nn);
                        assert(passes(w2 as int, nn) == 1 + p4);
                        assert(before == nn * passes(w2 as int, nn));
                        assert(nn * (1 + p4) == nn + nn * p4) by (nonlinear_arith);
                        assert(self.steps_left() == before);
                        assert(0int % (2 * w2 as int) == 0);
                        assert forall|b: int|
                            #![trigger run_start(b, 2 * (w2 as int))]
                            0 <= b <= 0 && run_start(b, 2 * (w2 as int)) implies forall|p: int|
                            0 <= p < 0 ==> (p < b <==> #[trigger] self.tmp@[p] < b) by {}
                    }
                } else {
                    self.done = true;
                    proof {
                        lemma_all_in_order(self.a@, self.history@, w2 as int, self.n as int);
                    }
                }
            }
        }
    }

    /// Takes the comparator's answer `c` for the pending comparison (the
    /// left element goes first unless `c > 0`) and runs on to the next
    /// comparison.
    pub fn answer(&mut self, c: i32)
        requires
            old(self).wf(),
            !old(self).finished(),
        ensures
            final(self).wf(),
            final(self).count() == old(self).count(),
            final(self).answers() == old(self).answers().push(
                (old(self).asked().0, old(self).asked().1, c <= 0),
            ),
            final(self).steps_left() < old(self).steps_left(),
            final(self).finished() <==> final(self).steps_left() == 0,
    {
        let x = self.a[self.l];
        let y = self.a[self.r];
        let le = c <= 0;
        proof {
            lemma_merge_ok_kept(
                self.a@,
                self.tmp@,
                self.history@,
                (x, y, le),
                self.width as int,
                self.n as int,
                self.lo as int,
                self.mid as int,
                self.hi as int,
                self.l as int,
                self.r as int,
                self.k as int,
                self.last_left@,
            );
            let h = self.history@;
            self.history = Ghost(h.push((x, y, le)));
            assert(self.history@[h.len() as int] == (x, y, le));
        }
        self.place(le);
        self.settle();
        proof {
            self.lemma_steps_left();
        }
    }

    /// The sort has finished exactly when no answers are left to give.
    pub proof fn lemma_steps_left(&self)
        requires
            self.wf(),
        ensures
            self.finished() <==> self.steps_left() == 0,
    {
    }
}

/// `le` is a total preorder: any two elements compare, and comparison
/// chains.
pub open spec fn total_preorder(le: spec_fn(usize, usize) -> bool) -> bool {
    &&& forall|x: usize, y: usize| #[trigger] le(x, y) || le(y, x)
    &&& forall|x: usize, y: usize, z: usize| #[trigger] le(x, y) && #[trigger] le(y, z) ==> le(x, z)
}

/// Every recorded answer is the one `le` gives: the left element is no
/// greater than the right exactly when `le` says so.
pub open spec fn answers_follow(le: spec_fn(usize, usize) -> bool, h: Seq<Answer>) -> bool {
    forall|i: int| 0 <= i < h.len() ==> (#[trigger] h[i]).2 == le(h[i].0, h[i].1)
}

impl MergeSort {
    /// At every step the order is a permutation of the original
    /// positions; once finished, each element may follow its predecessor
    /// on the strength of the answers given.
    pub proof fn lemma_order(&self)
        requires
            self.wf(),
        ensures
            is_permutation(self.current(), self.count()),
            self.finished() ==> forall|p: int, q: int|
                #![trigger self.current()[p], self.current()[q]]
                0 <= p && q == p + 1 && q < self.count() ==> adjacent_ok(
                    self.answers(),
                    self.current()[p],
                    self.current()[q],
                ),
    {
    }
}

/// An adjacent pair justified by answers that follow a total preorder is
/// in order, and equal elements keep their original order.
proof fn lemma_adjacent_meaning(
    le: spec_fn(usize, usize) -> bool,
    h: Seq<Answer>,
    x: usize,
    y: usize,
)
    requires
        total_preorder(le),
        answers_follow(le, h),
        adjacent_ok(h, x, y),
    ensures
        le(x, y),
        le(y, x) ==> x < y,
{
    if h.contains((y, x, false)) {
        let i = choose|i: int| 0 <= i < h.len() && h[i] == (y, x, false);
        assert(h[i].2 == le(y, x));
        assert(le(x, y) || le(y, x));
    } else {
        let i = choose|i: int| 0 <= i < h.len() && h[i] == (x, y, true);
        assert(h[i].2 == le(x, y));
    }
}

/// A finished sort whose answers follow a total preorder has put the
/// elements in ascending order, stably: every element is no greater than
/// any later one, and of two equal elements the one first originally
/// comes first.
pub proof fn lemma_sorted_and_stable(s: MergeSort, le: spec_fn(usize, usize) -> bool)
    requires
        s.wf(),
        s.finished(),
        total_preorder(le),
        answers_follow(le, s.answers()),
    ensures
        forall|p: int, q: int|
            #![trigger s.current()[p], s.current()[q]]
            0 <= p < q < s.count() ==> le(s.current()[p], s.current()[q]),
        forall|p: int, q: int|
            #![trigger s.current()[p], s.current()[q]]
            0 <= p < q < s.count() && le(s.current()[q], s.current()[p]) ==> s.current()[p]
                < s.current()[q],
{
    s.lemma_order();
    let o = s.current();
    let n = s.count() as int;
    assert forall|p: int, q: int|
        #![trigger o[p], o[q]]
        0 <= p < q < n implies le(o[p], o[q]) && (le(o[q], o[p]) ==> o[p] < o[q]) by {
        lemma_chain(le, s.answers(), o, n, p, q);
    }
}

/// Induction along the order for `lemma_sorted_and_stable`.
proof fn lemma_chain(
    le: spec_fn(usize, usize) -> bool,
    h: Seq<Answer>,
    o: Seq<usize>,
    n: int,
    p: int,
    q: int,
)
    requires
        total_preorder(le),
        answers_follow(le, h),
        o.len() == n,
        forall|i: int, j: int|
            #![trigger o[i], o[j]]
            0 <= i && j == i + 1 && j < n ==> adjacent_ok(h, o[i], o[j]),
        0 <= p < q < n,
    ensures
        le(o[p], o[q]),
        le(o[q], o[p]) ==> o[p] < o[q],
    decreases q - p,
{
    lemma_adjacent_meaning(le, h, o[p], o[p + 1]);
    if q > p + 1 {
        lemma_chain(le, h, o, n, p + 1, q);
        assert(le(o[p], o[p + 1]) && le(o[p + 1], o[q]));
        if le(o[q], o[p]) {
            assert(le(o[p + 1], o[q]) && le(o[q], o[p]));
            assert(le(o[p + 1], o[p]));
            assert(le(o[q], o[p]) && le(o[p], o[p + 1]));
            assert(le(o[q], o[p + 1]));
        }
    }
}

} // verus!
