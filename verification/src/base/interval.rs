//! Half-open intervals of code points and the set operations on lists of
//! them that the character-class machinery needs.
use vstd::prelude::*;

verus! {

/// The half-open interval `[start, end)`.
#[derive(Debug, Clone, Copy, PartialEq, Eq)]
pub struct Interval {
    pub start: u32,
    pub end: u32,
}

/// Whether `p` lies in `i`.
pub open spec fn covers(i: Interval, p: int) -> bool {
    i.start <= p < i.end
}

/// Whether some interval of `s` holds `p`.
pub open spec fn covered(s: Seq<Interval>, p: int) -> bool {
    exists|k: int| 0 <= k < s.len() && covers(#[trigger] s[k], p)
}

/// Every interval of `s` starts no later than the next one.
pub open spec fn sorted_by_start(s: Seq<Interval>) -> bool {
    forall|i: int, j: int| 0 <= i < j < s.len() ==> s[i].start <= s[j].start
}

/// The intervals are non-empty, in increasing order, and neither overlap
/// nor touch: the canonical form of a set of points.
pub open spec fn canonical(s: Seq<Interval>) -> bool {
    &&& forall|i: int| 0 <= i < s.len() ==> #[trigger] s[i].start < s[i].end
    &&& forall|i: int| 0 <= i < s.len() - 1 ==> #[trigger] s[i].end < s[i + 1].start
}

/// `x` placed into `r` after every interval that starts no later than it.
pub open spec fn insert_by_start(r: Seq<Interval>, x: Interval) -> Seq<Interval>
    decreases r.len(),
{
    if r.len() == 0 {
        seq![x]
    } else if r.last().start <= x.start {
        r.push(x)
    } else {
        insert_by_start(r.drop_last(), x).push(r.last())
    }
}

/// The stable sort of `s` by start.
pub open spec fn sort_by_start(s: Seq<Interval>) -> Seq<Interval>
    decreases s.len(),
{
    if s.len() == 0 {
        s
    } else {
        insert_by_start(sort_by_start(s.drop_last()), s.last())
    }
}

/// Merging of a sorted run: `cur` is the interval being grown.
pub open spec fn merge_run(cur: Interval, rest: Seq<Interval>) -> Seq<Interval>
    decreases rest.len(),
{
    if rest.len() == 0 {
        seq![cur]
    } else {
        let next = rest[0];
        if next.start <= cur.end {
            let end = if cur.end >= next.end {
                cur.end
            } else {
                next.end
            };
            merge_run(Interval { start: cur.start, end }, rest.drop_first())
        } else {
            seq![cur] + merge_run(next, rest.drop_first())
        }
    }
}

/// What `Interval::merge` returns for `s`.
pub open spec fn merge_spec(s: Seq<Interval>) -> Seq<Interval> {
    let t = sort_by_start(s);
    if t.len() == 0 {
        t
    } else {
        merge_run(t[0], t.drop_first())
    }
}

/// The gaps left between sorted intervals, starting from `cur`.
pub open spec fn gaps(rest: Seq<Interval>, cur: int, max: int) -> Seq<Interval>
    decreases rest.len(),
{
    if rest.len() == 0 {
        if cur <= max {
            seq![Interval { start: cur as u32, end: (max + 1) as u32 }]
        } else {
            seq![]
        }
    } else {
        let iv = rest[0];
        let next_cur = if cur >= iv.end {
            cur
        } else {
            iv.end as int
        };
        if iv.start > cur {
            seq![Interval { start: cur as u32, end: iv.start }] + gaps(
                rest.drop_first(),
                next_cur,
                max,
            )
        } else {
            gaps(rest.drop_first(), next_cur, max)
        }
    }
}

/// What `Interval::complement` returns for `s`.
pub open spec fn complement_spec(s: Seq<Interval>, max: int) -> Seq<Interval> {
    gaps(sort_by_start(s), 0, max)
}

/// The pieces between consecutive distinct boundaries.
pub open spec fn pieces(b: Seq<u32>) -> Seq<Interval>
    decreases b.len(),
{
    if b.len() < 2 {
        seq![]
    } else {
        let w0 = b[b.len() - 2];
        let w1 = b[b.len() - 1];
        if w0 < w1 {
            pieces(b.drop_last()).push(Interval { start: w0, end: w1 })
        } else {
            pieces(b.drop_last())
        }
    }
}

/// The values of `s` in increasing order, each once.
pub open spec fn strictly_increasing(s: Seq<u32>) -> bool {
    forall|i: int, j: int| 0 <= i < j < s.len() ==> s[i] < s[j]
}

/// The boundary points of a list of intervals, with the ends of the code
/// point space.
pub open spec fn boundary_points(s: Seq<Interval>) -> Set<u32> {
    Set::new(
        |p: u32|
            p == 0 || p == 0x110000 || exists|k: int|
                0 <= k < s.len() && (#[trigger] s[k].start == p || s[k].end == p),
    )
}

proof fn lemma_insert_by_start(r: Seq<Interval>, x: Interval)
    ensures
        insert_by_start(r, x).len() == r.len() + 1,
        forall|p: int| covered(insert_by_start(r, x), p) <==> covered(r, p) || covers(x, p),
        sorted_by_start(r) ==> sorted_by_start(insert_by_start(r, x)),
        forall|k: int|
            0 <= k < insert_by_start(r, x).len() ==> (#[trigger] insert_by_start(r, x)[k] == x
                || r.contains(insert_by_start(r, x)[k])),
    decreases r.len(),
{
    let t = insert_by_start(r, x);
    if r.len() == 0 {
        assert forall|p: int| covered(t, p) <==> covered(r, p) || covers(x, p) by {
            if covers(x, p) {
                assert(covers(t[0], p));
            }
        }
    } else if r.last().start <= x.start {
        assert forall|p: int| covered(t, p) <==> covered(r, p) || covers(x, p) by {
            if covered(t, p) {
                let k = choose|k: int| 0 <= k < t.len() && covers(#[trigger] t[k], p);
                if k < r.len() {
                    assert(covers(r[k], p));
                }
            }
            if covered(r, p) {
                let k = choose|k: int| 0 <= k < r.len() && covers(#[trigger] r[k], p);
                assert(covers(t[k], p));
            }
            if covers(x, p) {
                assert(covers(t[r.len() as int], p));
            }
        }
        assert forall|k: int| 0 <= k < t.len() implies (#[trigger] t[k] == x || r.contains(t[k])) by {
            if k < r.len() {
                assert(t[k] == r[k]);
            }
        }
    } else {
        let r0 = r.drop_last();
        let u = insert_by_start(r0, x);
        lemma_insert_by_start(r0, x);
        assert forall|p: int| covered(t, p) <==> covered(r, p) || covers(x, p) by {
            if covered(t, p) {
                let k = choose|k: int| 0 <= k < t.len() && covers(#[trigger] t[k], p);
                if k < u.len() {
                    assert(covers(u[k], p));
                    if covered(r0, p) {
                        let j = choose|j: int| 0 <= j < r0.len() && covers(#[trigger] r0[j], p);
                        assert(covers(r[j], p));
                    }
                } else {
                    assert(covers(r[r.len() - 1], p));
                }
            }
            if covered(r, p) {
                let k = choose|k: int| 0 <= k < r.len() && covers(#[trigger] r[k], p);
                if k < r0.len() {
                    assert(covers(r0[k], p));
                    assert(covered(r0, p));
                    assert(covered(u, p));
                    let j = choose|j: int| 0 <= j < u.len() && covers(#[trigger] u[j], p);
                    assert(covers(t[j], p));
                } else {
                    assert(covers(t[u.len() as int], p));
                }
            }
            if covers(x, p) {
                assert(covered(u, p));
                let j = choose|j: int| 0 <= j < u.len() && covers(#[trigger] u[j], p);
                assert(covers(t[j], p));
            }
        }
        if sorted_by_start(r) {
            assert forall|i: int, j: int| 0 <= i < j < t.len() implies t[i].start <= t[j].start by {
                if j == t.len() - 1 {
                    assert(u[i] == x || r0.contains(u[i]));
                    if r0.contains(u[i]) {
                        let m = choose|m: int| 0 <= m < r0.len() && r0[m] == u[i];
                        assert(r[m] == u[i]);
                    }
                }
            }
        }
        assert forall|k: int| 0 <= k < t.len() implies (#[trigger] t[k] == x || r.contains(t[k])) by {
            if k < u.len() {
                assert(u[k] == x || r0.contains(u[k]));
                if r0.contains(u[k]) {
                    let m = choose|m: int| 0 <= m < r0.len() && r0[m] == u[k];
                    assert(r[m] == u[k]);
                }
            } else {
                assert(t[k] == r[r.len() - 1]);
            }
        }
    }
}

/// Sorting keeps the covered points, and sorts.
pub proof fn lemma_sort_by_start(s: Seq<Interval>)
    ensures
        sort_by_start(s).len() == s.len(),
        sorted_by_start(sort_by_start(s)),
        forall|p: int| covered(sort_by_start(s), p) <==> covered(s, p),
        forall|k: int|
            0 <= k < sort_by_start(s).len() ==> s.contains(#[trigger] sort_by_start(s)[k]),
    decreases s.len(),
{
    if s.len() > 0 {
        let s0 = s.drop_last();
        lemma_sort_by_start(s0);
        let t0 = sort_by_start(s0);
        lemma_insert_by_start(t0, s.last());
        let t = sort_by_start(s);
        assert forall|p: int| covered(t, p) <==> covered(s, p) by {
            if covered(s0, p) {
                let k = choose|k: int| 0 <= k < s0.len() && covers(#[trigger] s0[k], p);
                assert(covers(s[k], p));
            }
            if covered(s, p) {
                let k = choose|k: int| 0 <= k < s.len() && covers(#[trigger] s[k], p);
                if k < s0.len() {
                    assert(covers(s0[k], p));
                }
            }
        }
        assert forall|k: int| 0 <= k < t.len() implies s.contains(#[trigger] t[k]) by {
            if t[k] != s.last() {
                assert(t0.contains(t[k]));
                let m = choose|m: int| 0 <= m < t0.len() && t0[m] == t[k];
                assert(s0.contains(t0[m]));
                let j = choose|j: int| 0 <= j < s0.len() && s0[j] == t0[m];
                assert(s[j] == t[k]);
            } else {
                assert(s[s.len() - 1] == t[k]);
            }
        }
    }
}

proof fn lemma_merge_run(cur: Interval, rest: Seq<Interval>)
    requires
        sorted_by_start(rest),
        forall|k: int| 0 <= k < rest.len() ==> cur.start <= #[trigger] rest[k].start,
    ensures
        forall|p: int| covered(merge_run(cur, rest), p) <==> covers(cur, p) || covered(rest, p),
        merge_run(cur, rest).len() > 0,
        merge_run(cur, rest)[0].start == cur.start,
        (cur.start < cur.end && forall|k: int| 0 <= k < rest.len() ==> #[trigger] rest[k].start
            < rest[k].end) ==> canonical(merge_run(cur, rest)),
    decreases rest.len(),
{
    if rest.len() == 0 {
        assert forall|p: int| covered(merge_run(cur, rest), p) <==> covers(cur, p) || covered(rest, p) by {
            if covers(cur, p) {
                assert(covers(merge_run(cur, rest)[0], p));
            }
        }
    } else {
        let next = rest[0];
        let tail = rest.drop_first();
        assert forall|k: int| 0 <= k < tail.len() implies next.start <= #[trigger] tail[k].start by {
            assert(tail[k] == rest[k + 1]);
        }
        assert forall|p: int| covered(rest, p) <==> covers(next, p) || covered(tail, p) by {
            if covered(rest, p) {
                let k = choose|k: int| 0 <= k < rest.len() && covers(#[trigger] rest[k], p);
                if k > 0 {
                    assert(covers(tail[k - 1], p));
                }
            }
            if covered(tail, p) {
                let k = choose|k: int| 0 <= k < tail.len() && covers(#[trigger] tail[k], p);
                assert(covers(rest[k + 1], p));
            }
        }
        if next.start <= cur.end {
            let end = if cur.end >= next.end {
                cur.end
            } else {
                next.end
            };
            let merged = Interval { start: cur.start, end };
            assert forall|k: int| 0 <= k < tail.len() implies merged.start <= #[trigger] tail[k].start by {
                assert(tail[k] == rest[k + 1]);
            }
            lemma_merge_run(merged, tail);
            assert forall|p: int| covers(merged, p) <==> covers(cur, p) || covers(next, p) by {}
            if cur.start < cur.end && forall|k: int| 0 <= k < rest.len() ==> #[trigger] rest[k].start
                < rest[k].end {
                assert forall|k: int| 0 <= k < tail.len() implies #[trigger] tail[k].start < tail[k].end by {
                    assert(tail[k] == rest[k + 1]);
                }
            }
        } else {
            lemma_merge_run(next, tail);
            let r = merge_run(cur, rest);
            let t = merge_run(next, tail);
            assert(r == seq![cur] + t);
            assert forall|p: int| covered(r, p) <==> covers(cur, p) || covered(rest, p) by {
                if covered(r, p) {
                    let k = choose|k: int| 0 <= k < r.len() && covers(#[trigger] r[k], p);
                    if k > 0 {
                        assert(covers(t[k - 1], p));
                    }
                }
                if covered(t, p) {
                    let k = choose|k: int| 0 <= k < t.len() && covers(#[trigger] t[k], p);
                    assert(covers(r[k + 1], p));
                }
                if covers(cur, p) {
                    assert(covers(r[0], p));
                }
            }
            if cur.start < cur.end && forall|k: int| 0 <= k < rest.len() ==> #[trigger] rest[k].start
                < rest[k].end {
                assert forall|k: int| 0 <= k < tail.len() implies #[trigger] tail[k].start < tail[k].end by {
                    assert(tail[k] == rest[k + 1]);
                }
                assert forall|i: int| 0 <= i < r.len() implies #[trigger] r[i].start < r[i].end by {
                    if i > 0 {
                        assert(r[i] == t[i - 1]);
                    }
                }
                assert forall|i: int| 0 <= i < r.len() - 1 implies #[trigger] r[i].end < r[i + 1].start by {
                    if i > 0 {
                        assert(r[i] == t[i - 1]);
                        assert(r[i + 1] == t[i]);
                    }
                }
            }
        }
    }
}

/// Merging keeps exactly the points of the input.
pub proof fn law_merge_keeps_points(s: Seq<Interval>)
    ensures
        forall|p: int| covered(merge_spec(s), p) <==> covered(s, p),
{
    lemma_sort_by_start(s);
    let t = sort_by_start(s);
    if t.len() > 0 {
        let tail = t.drop_first();
        assert forall|k: int| 0 <= k < tail.len() implies t[0].start <= #[trigger] tail[k].start by {
            assert(tail[k] == t[k + 1]);
        }
        assert(sorted_by_start(tail)) by {
            assert forall|i: int, j: int| 0 <= i < j < tail.len() implies tail[i].start <= tail[j].start by {
                assert(tail[i] == t[i + 1] && tail[j] == t[j + 1]);
            }
        }
        lemma_merge_run(t[0], tail);
        assert forall|p: int| covered(t, p) <==> covers(t[0], p) || covered(tail, p) by {
            if covered(t, p) {
                let k = choose|k: int| 0 <= k < t.len() && covers(#[trigger] t[k], p);
                if k > 0 {
                    assert(covers(tail[k - 1], p));
                }
            }
            if covered(tail, p) {
                let k = choose|k: int| 0 <= k < tail.len() && covers(#[trigger] tail[k], p);
                assert(covers(t[k + 1], p));
            }
        }
    }
}

/// Merging non-empty intervals gives the canonical form: sorted, non-empty,
/// neither overlapping nor touching.
pub proof fn law_merge_canonical(s: Seq<Interval>)
    requires
        forall|k: int| 0 <= k < s.len() ==> #[trigger] s[k].start < s[k].end,
    ensures
        canonical(merge_spec(s)),
{
    lemma_sort_by_start(s);
    let t = sort_by_start(s);
    if t.len() > 0 {
        let tail = t.drop_first();
        assert forall|k: int| 0 <= k < t.len() implies #[trigger] t[k].start < t[k].end by {
            let j = choose|j: int| 0 <= j < s.len() && s[j] == t[k];
            assert(s[j].start < s[j].end);
        }
        assert forall|k: int| 0 <= k < tail.len() implies t[0].start <= #[trigger] tail[k].start by {
            assert(tail[k] == t[k + 1]);
        }
        assert forall|k: int| 0 <= k < tail.len() implies #[trigger] tail[k].start < tail[k].end by {
            assert(tail[k] == t[k + 1]);
        }
        assert(sorted_by_start(tail)) by {
            assert forall|i: int, j: int| 0 <= i < j < tail.len() implies tail[i].start <= tail[j].start by {
                assert(tail[i] == t[i + 1] && tail[j] == t[j + 1]);
            }
        }
        lemma_merge_run(t[0], tail);
    }
}

proof fn lemma_gaps(rest: Seq<Interval>, cur: int, max: int)
    requires
        sorted_by_start(rest),
        0 <= cur <= u32::MAX,
        0 <= max < u32::MAX,
    ensures
        forall|p: int| cur <= p <= max ==> (covered(gaps(rest, cur, max), p) <==> !covered(rest, p)),
        forall|p: int| p < cur ==> !covered(gaps(rest, cur, max), p),
    decreases rest.len(),
{
    let g = gaps(rest, cur, max);
    if rest.len() == 0 {
        assert forall|p: int| cur <= p <= max implies covered(g, p) by {
            assert(covers(g[0], p));
        }
    } else {
        let iv = rest[0];
        let tail = rest.drop_first();
        let next_cur = if cur >= iv.end {
            cur
        } else {
            iv.end as int
        };
        assert(sorted_by_start(tail)) by {
            assert forall|i: int, j: int| 0 <= i < j < tail.len() implies tail[i].start <= tail[j].start by {
                assert(tail[i] == rest[i + 1] && tail[j] == rest[j + 1]);
            }
        }
        lemma_gaps(tail, next_cur, max);
        let t = gaps(tail, next_cur, max);
        assert forall|p: int| covered(rest, p) <==> covers(iv, p) || covered(tail, p) by {
            if covered(rest, p) {
                let k = choose|k: int| 0 <= k < rest.len() && covers(#[trigger] rest[k], p);
                if k > 0 {
                    assert(covers(tail[k - 1], p));
                }
            }
            if covered(tail, p) {
                let k = choose|k: int| 0 <= k < tail.len() && covers(#[trigger] tail[k], p);
                assert(covers(rest[k + 1], p));
            }
        }
        assert forall|p: int| p < iv.start implies !covered(tail, p) by {
            if covered(tail, p) {
                let k = choose|k: int| 0 <= k < tail.len() && covers(#[trigger] tail[k], p);
                assert(tail[k] == rest[k + 1]);
            }
        }
        if iv.start > cur {
            let gap = Interval { start: cur as u32, end: iv.start };
            assert(g == seq![gap] + t);
            assert forall|p: int| covered(g, p) <==> covers(gap, p) || covered(t, p) by {
                if covered(g, p) {
                    let k = choose|k: int| 0 <= k < g.len() && covers(#[trigger] g[k], p);
                    if k > 0 {
                        assert(covers(t[k - 1], p));
                    }
                }
                if covered(t, p) {
                    let k = choose|k: int| 0 <= k < t.len() && covers(#[trigger] t[k], p);
                    assert(covers(g[k + 1], p));
                }
                if covers(gap, p) {
                    assert(covers(g[0], p));
                }
            }
        }
    }
}

/// Within `[0, max]` the complement holds exactly the points that no input
/// interval holds.
pub proof fn law_complement(s: Seq<Interval>, max: int)
    requires
        0 <= max < u32::MAX,
    ensures
        forall|p: int|
            0 <= p <= max ==> (covered(complement_spec(s, max), p) <==> !covered(s, p)),
{
    lemma_sort_by_start(s);
    lemma_gaps(sort_by_start(s), 0, max);
}

/// In a canonical list every interval ends before any later one starts.
proof fn lemma_canonical_order(a: Seq<Interval>, i: int, j: int)
    requires
        canonical(a),
        0 <= i < j < a.len(),
    ensures
        a[i].end < a[j].start,
    decreases j - i,
{
    if j > i + 1 {
        lemma_canonical_order(a, i, j - 1);
        assert(a[j - 1].start < a[j - 1].end);
        assert(a[j - 1].end < a[j].start);
    }
}

/// The tail of a canonical list is canonical.
proof fn lemma_canonical_tail(a: Seq<Interval>)
    requires
        canonical(a),
        a.len() > 0,
    ensures
        canonical(a.drop_first()),
{
    let t = a.drop_first();
    assert forall|i: int| 0 <= i < t.len() implies #[trigger] t[i].start < t[i].end by {
        assert(t[i] == a[i + 1]);
    }
    assert forall|i: int| 0 <= i < t.len() - 1 implies #[trigger] t[i].end < t[i + 1].start by {
        assert(t[i] == a[i + 1]);
        assert(t[i + 1] == a[i + 2]);
    }
}

/// A canonical list is fixed by the points it holds: two canonical lists
/// that hold the same points are equal.
pub proof fn lemma_canonical_unique(a: Seq<Interval>, b: Seq<Interval>)
    requires
        canonical(a),
        canonical(b),
        forall|p: int| covered(a, p) <==> covered(b, p),
    ensures
        a == b,
    decreases a.len() + b.len(),
{
    if a.len() == 0 {
        if b.len() > 0 {
            assert(covers(b[0], b[0].start as int));
            assert(covered(b, b[0].start as int));
        }
        assert(a =~= b);
    } else if b.len() == 0 {
        assert(covers(a[0], a[0].start as int));
        assert(covered(a, a[0].start as int));
    } else {
        let x = a[0];
        let y = b[0];
        lemma_canonical_heads(a, b);
        let a1 = a.drop_first();
        let b1 = b.drop_first();
        lemma_canonical_tail(a);
        lemma_canonical_tail(b);
        lemma_canonical_tails_points(a, b);
        lemma_canonical_unique(a1, b1);
        assert(a =~= seq![x] + a1);
        assert(b =~= seq![y] + b1);
    }
}

/// Two non-empty canonical lists that hold the same points start with the
/// same interval.
proof fn lemma_canonical_heads(a: Seq<Interval>, b: Seq<Interval>)
    requires
        canonical(a),
        canonical(b),
        a.len() > 0,
        b.len() > 0,
        forall|p: int| covered(a, p) <==> covered(b, p),
    ensures
        a[0] == b[0],
{
    {
        let x = a[0];
        let y = b[0];
        // the first points agree
        if x.start < y.start {
            assert(covered(a, x.start as int));
            let k = choose|k: int| 0 <= k < b.len() && covers(#[trigger] b[k], x.start as int);
            if k > 0 {
                lemma_canonical_order(b, 0, k);
            }
        }
        if y.start < x.start {
            assert(covered(b, y.start as int));
            let k = choose|k: int| 0 <= k < a.len() && covers(#[trigger] a[k], y.start as int);
            if k > 0 {
                lemma_canonical_order(a, 0, k);
            }
        }
        assert(x.start == y.start);
        // the first gaps agree
        if x.end < y.end {
            assert(covers(b[0], x.end as int));
            assert(covered(b, x.end as int));
            let k = choose|k: int| 0 <= k < a.len() && covers(#[trigger] a[k], x.end as int);
            if k > 0 {
                lemma_canonical_order(a, 0, k);
            }
        }
        if y.end < x.end {
            assert(covers(a[0], y.end as int));
            assert(covered(a, y.end as int));
            let k = choose|k: int| 0 <= k < b.len() && covers(#[trigger] b[k], y.end as int);
            if k > 0 {
                lemma_canonical_order(b, 0, k);
            }
        }
        assert(x == y);
    }
}

/// Two canonical lists with the same points and the same first interval
/// hold the same points after it.
proof fn lemma_canonical_tails_points(a: Seq<Interval>, b: Seq<Interval>)
    requires
        canonical(a),
        canonical(b),
        a.len() > 0,
        b.len() > 0,
        a[0] == b[0],
        forall|p: int| covered(a, p) <==> covered(b, p),
    ensures
        forall|p: int| covered(a.drop_first(), p) <==> covered(b.drop_first(), p),
{
    let a1 = a.drop_first();
    let b1 = b.drop_first();
    {
        assert forall|p: int| covered(a1, p) <==> covered(b1, p) by {
            if covered(a1, p) {
                let k = choose|k: int| 0 <= k < a1.len() && covers(#[trigger] a1[k], p);
                assert(a1[k] == a[k + 1]);
                lemma_canonical_order(a, 0, k + 1);
                assert(covered(a, p));
                let j = choose|j: int| 0 <= j < b.len() && covers(#[trigger] b[j], p);
                if j == 0 {
                    assert(false);
                }
                assert(b1[j - 1] == b[j]);
                assert(covers(b1[j - 1], p));
            }
            if covered(b1, p) {
                let k = choose|k: int| 0 <= k < b1.len() && covers(#[trigger] b1[k], p);
                assert(b1[k] == b[k + 1]);
                lemma_canonical_order(b, 0, k + 1);
                assert(covered(b, p));
                let j = choose|j: int| 0 <= j < a.len() && covers(#[trigger] a[j], p);
                if j == 0 {
                    assert(false);
                }
                assert(a1[j - 1] == a[j]);
                assert(covers(a1[j - 1], p));
            }
        }
    }
}

/// Two lists of non-empty intervals that hold the same points merge to the
/// same list; in particular merging does not depend on the order of its
/// input.
pub proof fn law_merge_same_points(s: Seq<Interval>, t: Seq<Interval>)
    requires
        forall|k: int| 0 <= k < s.len() ==> #[trigger] s[k].start < s[k].end,
        forall|k: int| 0 <= k < t.len() ==> #[trigger] t[k].start < t[k].end,
        forall|p: int| covered(s, p) <==> covered(t, p),
    ensures
        merge_spec(s) == merge_spec(t),
{
    law_merge_canonical(s);
    law_merge_canonical(t);
    law_merge_keeps_points(s);
    law_merge_keeps_points(t);
    assert forall|p: int| covered(merge_spec(s), p) <==> covered(merge_spec(t), p) by {
        assert(covered(merge_spec(s), p) <==> covered(s, p));
        assert(covered(merge_spec(t), p) <==> covered(t, p));
    }
    lemma_canonical_unique(merge_spec(s), merge_spec(t));
}

/// Merging a reordering of the same intervals gives the same list.
pub proof fn law_merge_order_free(s: Seq<Interval>, t: Seq<Interval>)
    requires
        forall|k: int| 0 <= k < s.len() ==> #[trigger] s[k].start < s[k].end,
        t.to_multiset() == s.to_multiset(),
    ensures
        merge_spec(s) == merge_spec(t),
{
    s.to_multiset_ensures();
    t.to_multiset_ensures();
    assert forall|k: int| 0 <= k < t.len() implies #[trigger] t[k].start < t[k].end by {
        assert(t.contains(t[k]));
        assert(t.to_multiset().count(t[k]) > 0);
        assert(s.to_multiset().count(t[k]) > 0);
        assert(s.contains(t[k]));
        let j = choose|j: int| 0 <= j < s.len() && s[j] == t[k];
    }
    assert forall|p: int| covered(s, p) <==> covered(t, p) by {
        if covered(s, p) {
            let k = choose|k: int| 0 <= k < s.len() && covers(#[trigger] s[k], p);
            assert(s.contains(s[k]));
            assert(s.to_multiset().count(s[k]) > 0);
            assert(t.to_multiset().count(s[k]) > 0);
            assert(t.contains(s[k]));
            let j = choose|j: int| 0 <= j < t.len() && t[j] == s[k];
            assert(covers(t[j], p));
        }
        if covered(t, p) {
            let k = choose|k: int| 0 <= k < t.len() && covers(#[trigger] t[k], p);
            assert(t.contains(t[k]));
            assert(t.to_multiset().count(t[k]) > 0);
            assert(s.to_multiset().count(t[k]) > 0);
            assert(s.contains(t[k]));
            let j = choose|j: int| 0 <= j < s.len() && s[j] == t[k];
            assert(covers(s[j], p));
        }
    }
    law_merge_same_points(s, t);
}

/// Merging is idempotent.
pub proof fn law_merge_idempotent(s: Seq<Interval>)
    requires
        forall|k: int| 0 <= k < s.len() ==> #[trigger] s[k].start < s[k].end,
    ensures
        merge_spec(merge_spec(s)) == merge_spec(s),
{
    law_merge_canonical(s);
    let m = merge_spec(s);
    assert forall|k: int| 0 <= k < m.len() implies #[trigger] m[k].start < m[k].end by {}
    law_merge_canonical(m);
    law_merge_keeps_points(m);
    lemma_canonical_unique(merge_spec(m), m);
}

/// The gaps of sorted intervals within `[0, max]` are canonical and stay
/// within `[cur, max]`.
proof fn lemma_gaps_shape(rest: Seq<Interval>, cur: int, max: int)
    requires
        sorted_by_start(rest),
        0 <= max < u32::MAX,
        0 <= cur <= max + 1,
        forall|k: int| 0 <= k < rest.len() ==> rest[k].start < #[trigger] rest[k].end && rest[k].end <= max + 1,
    ensures
        canonical(gaps(rest, cur, max)),
        forall|k: int|
            0 <= k < gaps(rest, cur, max).len() ==> cur <= #[trigger] gaps(rest, cur, max)[k].start
                && gaps(rest, cur, max)[k].end <= max + 1,
    decreases rest.len(),
{
    let g = gaps(rest, cur, max);
    if rest.len() > 0 {
        let iv = rest[0];
        let tail = rest.drop_first();
        let next_cur = if cur >= iv.end {
            cur
        } else {
            iv.end as int
        };
        assert(sorted_by_start(tail)) by {
            assert forall|i: int, j: int| 0 <= i < j < tail.len() implies tail[i].start <= tail[j].start by {
                assert(tail[i] == rest[i + 1] && tail[j] == rest[j + 1]);
            }
        }
        assert forall|k: int| 0 <= k < tail.len() implies tail[k].start < #[trigger] tail[k].end && tail[k].end <= max + 1 by {
            assert(tail[k] == rest[k + 1]);
        }
        lemma_gaps_shape(tail, next_cur, max);
        let t = gaps(tail, next_cur, max);
        if iv.start > cur {
            let gap = Interval { start: cur as u32, end: iv.start };
            assert(g == seq![gap] + t);
            assert forall|i: int| 0 <= i < g.len() implies #[trigger] g[i].start < g[i].end by {
                if i > 0 {
                    assert(g[i] == t[i - 1]);
                }
            }
            assert forall|i: int| 0 <= i < g.len() - 1 implies #[trigger] g[i].end < g[i + 1].start by {
                assert(g[i + 1] == t[i]);
                if i > 0 {
                    assert(g[i] == t[i - 1]);
                }
            }
            assert forall|k: int| 0 <= k < g.len() implies cur <= #[trigger] g[k].start && g[k].end <= max + 1 by {
                if k > 0 {
                    assert(g[k] == t[k - 1]);
                }
            }
        }
    }
}

/// The complement within `[0, max]` of intervals inside it is canonical and
/// stays inside it.
pub proof fn law_complement_canonical(s: Seq<Interval>, max: int)
    requires
        0 <= max < u32::MAX,
        forall|k: int| 0 <= k < s.len() ==> s[k].start < #[trigger] s[k].end && s[k].end <= max + 1,
    ensures
        canonical(complement_spec(s, max)),
        forall|k: int| 0 <= k < complement_spec(s, max).len() ==> #[trigger] complement_spec(s, max)[k].end <= max + 1,
{
    lemma_sort_by_start(s);
    let t = sort_by_start(s);
    assert forall|k: int| 0 <= k < t.len() implies t[k].start < #[trigger] t[k].end && t[k].end <= max + 1 by {
        assert(s.contains(t[k]));
        let j = choose|j: int| 0 <= j < s.len() && s[j] == t[k];
        assert(s[j].start < s[j].end <= max + 1);
    }
    lemma_gaps_shape(t, 0, max);
    let g = gaps(t, 0, max);
    assert forall|k: int| 0 <= k < g.len() implies #[trigger] g[k].end <= max + 1 by {
        assert(0 <= g[k].start);
    }
}

/// Taking the complement within `[0, max]` twice gives the merged input.
pub proof fn law_double_complement(s: Seq<Interval>, max: int)
    requires
        0 <= max < u32::MAX,
        forall|k: int| 0 <= k < s.len() ==> s[k].start < #[trigger] s[k].end && s[k].end <= max + 1,
    ensures
        complement_spec(complement_spec(s, max), max) == merge_spec(s),
{
    let c = complement_spec(s, max);
    law_complement_canonical(s, max);
    assert forall|k: int| 0 <= k < c.len() implies c[k].start < #[trigger] c[k].end && c[k].end <= max + 1 by {
        assert(c[k].start < c[k].end);
    }
    law_complement_canonical(c, max);
    let cc = complement_spec(c, max);
    law_complement(s, max);
    law_complement(c, max);
    law_merge_canonical(s);
    law_merge_keeps_points(s);
    assert forall|p: int| covered(cc, p) <==> covered(merge_spec(s), p) by {
        if 0 <= p <= max {
            assert(covered(cc, p) <==> !covered(c, p));
            assert(covered(c, p) <==> !covered(s, p));
        } else {
            if covered(cc, p) {
                let k = choose|k: int| 0 <= k < cc.len() && covers(#[trigger] cc[k], p);
                assert(cc[k].end <= max + 1);
            }
            if covered(s, p) {
                let k = choose|k: int| 0 <= k < s.len() && covers(#[trigger] s[k], p);
                assert(s[k].end <= max + 1);
            }
            assert(covered(merge_spec(s), p) <==> covered(s, p));
        }
    }
    lemma_canonical_unique(cc, merge_spec(s));
}

/// Between strictly increasing boundaries, piece `k` runs from `b[k]` to
/// `b[k + 1]`.
pub proof fn lemma_pieces_sorted(b: Seq<u32>)
    requires
        strictly_increasing(b),
        b.len() > 0,
    ensures
        pieces(b).len() == b.len() - 1,
        forall|k: int| 0 <= k < b.len() - 1 ==> #[trigger] pieces(b)[k] == (Interval { start: b[k], end: b[k + 1] }),
    decreases b.len(),
{
    if b.len() >= 2 {
        let a = b.drop_last();
        lemma_pieces_sorted(a);
        assert(b[b.len() - 2] < b[b.len() - 1]);
        assert forall|k: int| 0 <= k < b.len() - 1 implies #[trigger] pieces(b)[k] == Interval {
            start: b[k],
            end: b[k + 1],
        } by {
            if k < b.len() - 2 {
                assert(pieces(b)[k] == pieces(a)[k]);
                assert(a[k] == b[k] && a[k + 1] == b[k + 1]);
            }
        }
    }
}
/// The pieces between the boundary points of intervals that lie in the code
/// point space partition it: they run from `0` to `0x110000`, each ends
/// where the next starts, and none straddles a bound of an input interval.
pub proof fn law_pieces_partition(v: Seq<Interval>, b: Seq<u32>)
    requires
        forall|k: int| 0 <= k < v.len() ==> v[k].start < #[trigger] v[k].end && v[k].end <= 0x110000,
        strictly_increasing(b),
        b.to_set() == boundary_points(v),
    ensures
        b.len() >= 2,
        pieces(b).len() == b.len() - 1,
        forall|i: int| 0 <= i < b.len() - 1 ==> #[trigger] pieces(b)[i] == (Interval { start: b[i], end: b[i + 1] }),
        pieces(b)[0].start == 0,
        pieces(b)[pieces(b).len() - 1].end == 0x110000,
        forall|i: int| 0 <= i < pieces(b).len() - 1 ==> #[trigger] pieces(b)[i].end == pieces(b)[i + 1].start,
        forall|i: int, k: int|
            0 <= i < pieces(b).len() && 0 <= k < v.len() ==> #[trigger] pieces(b)[i].end <= #[trigger] v[k].start
                || pieces(b)[i].start >= v[k].end || (v[k].start <= pieces(b)[i].start && pieces(b)[i].end <= v[k].end),
{
    assert(boundary_points(v).contains(0u32));
    assert(boundary_points(v).contains(0x110000u32));
    assert(b.to_set().contains(0u32));
    assert(b.to_set().contains(0x110000u32));
    let j0 = choose|j: int| 0 <= j < b.len() && b[j] == 0u32;
    let j1 = choose|j: int| 0 <= j < b.len() && b[j] == 0x110000u32;
    assert forall|j: int| 0 <= j < b.len() implies #[trigger] b[j] <= 0x110000 by {
        assert(b.to_set().contains(b[j]));
        assert(boundary_points(v).contains(b[j]));
        if b[j] != 0 && b[j] != 0x110000 {
            let k = choose|k: int| 0 <= k < v.len() && (#[trigger] v[k].start == b[j] || v[k].end == b[j]);
            assert(v[k].end <= 0x110000);
        }
    }
    if j0 > 0 {
        assert(b[0] < b[j0]);
    }
    if j1 < b.len() - 1 {
        assert(b[j1] < b[b.len() - 1]);
    }
    assert(j0 != j1);
    lemma_pieces_sorted(b);
    let ps = pieces(b);
    assert(ps[0] == Interval { start: b[0], end: b[1] });
    assert(ps[ps.len() - 1] == Interval { start: b[b.len() - 2], end: b[b.len() - 1] });
    assert forall|i: int| 0 <= i < ps.len() - 1 implies #[trigger] ps[i].end == ps[i + 1].start by {
        assert(ps[i] == Interval { start: b[i], end: b[i + 1] });
        assert(ps[i + 1] == Interval { start: b[i + 1], end: b[i + 2] });
    }
    assert forall|i: int, k: int| 0 <= i < ps.len() && 0 <= k < v.len() implies #[trigger] ps[i].end
        <= #[trigger] v[k].start || ps[i].start >= v[k].end || (v[k].start <= ps[i].start && ps[i].end
        <= v[k].end) by {
        assert(ps[i] == Interval { start: b[i], end: b[i + 1] });
        assert(boundary_points(v).contains(v[k].start));
        assert(boundary_points(v).contains(v[k].end));
        assert(b.to_set().contains(v[k].start));
        assert(b.to_set().contains(v[k].end));
        let js = choose|j: int| 0 <= j < b.len() && b[j] == v[k].start;
        let je = choose|j: int| 0 <= j < b.len() && b[j] == v[k].end;
        if js > i + 1 {
            assert(b[i + 1] < b[js]);
        }
        if js < i {
            assert(b[js] < b[i]);
        }
        if je > i + 1 {
            assert(b[i + 1] < b[je]);
        }
        if je < i {
            assert(b[je] < b[i]);
        }
    }
}

proof fn lemma_merge_run_ends(cur: Interval, rest: Seq<Interval>, lo: int)
    requires
        cur.end >= lo,
        forall|k: int| 0 <= k < rest.len() ==> #[trigger] rest[k].end >= lo,
    ensures
        forall|k: int| 0 <= k < merge_run(cur, rest).len() ==> #[trigger] merge_run(cur, rest)[k].end >= lo,
    decreases rest.len(),
{
    if rest.len() == 0 {
        assert(merge_run(cur, rest) == seq![cur]);
    } else {
        let next = rest[0];
        let tail = rest.drop_first();
        assert forall|k: int| 0 <= k < tail.len() implies #[trigger] tail[k].end >= lo by {
            assert(tail[k] == rest[k + 1]);
        }
        if next.start <= cur.end {
            let end = if cur.end >= next.end {
                cur.end
            } else {
                next.end
            };
            lemma_merge_run_ends(Interval { start: cur.start, end }, tail, lo);
            assert(merge_run(cur, rest) == merge_run(Interval { start: cur.start, end }, tail));
        } else {
            lemma_merge_run_ends(next, tail, lo);
            let r = merge_run(cur, rest);
            let t = merge_run(next, tail);
            assert forall|k: int| 0 <= k < r.len() implies #[trigger] r[k].end >= lo by {
                if k > 0 {
                    assert(r[k] == t[k - 1]);
                }
            }
        }
    }
}

/// Every merged interval ends no earlier than the earliest end of the input.
pub proof fn lemma_merge_ends(s: Seq<Interval>, lo: int)
    requires
        forall|k: int| 0 <= k < s.len() ==> #[trigger] s[k].end >= lo,
    ensures
        forall|k: int| 0 <= k < merge_spec(s).len() ==> #[trigger] merge_spec(s)[k].end >= lo,
{
    lemma_sort_by_start(s);
    let t = sort_by_start(s);
    if t.len() > 0 {
        assert forall|k: int| 0 <= k < t.len() implies #[trigger] t[k].end >= lo by {
            let j = choose|j: int| 0 <= j < s.len() && s[j] == t[k];
            assert(s[j].end >= lo);
        }
        let tail = t.drop_first();
        assert forall|k: int| 0 <= k < tail.len() implies #[trigger] tail[k].end >= lo by {
            assert(tail[k] == t[k + 1]);
        }
        lemma_merge_run_ends(t[0], tail, lo);
    }
}

impl Interval {
    pub fn new(start: u32, end: u32) -> (r: Self)
        ensures
            r == (Interval { start, end }),
    {
        Interval { start, end }
    }

    pub fn is_empty(&self) -> (b: bool)
        ensures
            b == (self.start >= self.end),
    {
        self.start >= self.end
    }

    pub fn contains(&self, point: u32) -> (b: bool)
        ensures
            b == covers(*self, point as int),
    {
        self.start <= point && point < self.end
    }

    /// Sorts the intervals by start, keeping equal starts in their order.
    pub fn sort_by_start(intervals: Vec<Interval>) -> (r: Vec<Interval>)
        ensures
            r@ == sort_by_start(intervals@),
    {
        let mut r: Vec<Interval> = Vec::new();
        let mut i: usize = 0;
        while i < intervals.len()
            invariant
                i <= intervals.len(),
                r@ == sort_by_start(intervals@.take(i as int)),
            decreases intervals.len() - i,
        {
            proof {
                lemma_sort_by_start(intervals@.take(i as int));
            }
            let x = intervals[i];
            let mut j = r.len();
            while j > 0 && r[j - 1].start > x.start
                invariant
                    j <= r.len(),
                    sorted_by_start(r@),
                    forall|k: int| j <= k < r.len() ==> r@[k].start > x.start,
                decreases j,
            {
                j = j - 1;
            }
            proof {
                lemma_insert_at(r@, x, j as int);
            }
            r.insert(j, x);
            i = i + 1;
            assert(intervals@.take(i as int).drop_last() == intervals@.take(i - 1));
        }
        assert(intervals@.take(intervals.len() as int) == intervals@);
        r
    }

    /// Joins overlapping and touching intervals.
    pub fn merge(intervals: Vec<Interval>) -> (merged: Vec<Interval>)
        ensures
            merged@ == merge_spec(intervals@),
    {
        if intervals.len() == 0 {
            return intervals;
        }
        let sorted = Interval::sort_by_start(intervals);
        proof {
            lemma_sort_by_start(intervals@);
        }
        let mut merged: Vec<Interval> = Vec::new();
        let mut cur = sorted[0];
        let mut i: usize = 1;
        while i < sorted.len()
            invariant
                1 <= i <= sorted.len(),
                merged@ + merge_run(cur, sorted@.skip(i as int)) == merge_spec(intervals@),
            decreases sorted.len() - i,
        {
            let next = sorted[i];
            assert(sorted@.skip(i as int)[0] == next);
            assert(sorted@.skip(i as int).drop_first() == sorted@.skip(i + 1));
            if next.start <= cur.end {
                cur.end = if cur.end >= next.end {
                    cur.end
                } else {
                    next.end
                };
            } else {
                let ghost m0 = merged@;
                merged.push(cur);
                assert(m0 + (seq![cur] + merge_run(next, sorted@.skip(i + 1))) == merged@
                    + merge_run(next, sorted@.skip(i + 1)));
                cur = next;
            }
            i = i + 1;
        }
        let ghost m0 = merged@;
        merged.push(cur);
        assert(sorted@.skip(i as int).len() == 0);
        assert(m0 + seq![cur] == merged@);
        assert(sorted@.skip(1) == sorted@.drop_first());
        merged
    }

    /// The points in `[0, max_codepoint]` that no interval holds, as
    /// sorted intervals.
    pub fn complement(intervals: Vec<Interval>, max_codepoint: u32) -> (result: Vec<Interval>)
        requires
            max_codepoint < u32::MAX,
        ensures
            result@ == complement_spec(intervals@, max_codepoint as int),
    {
        let sorted = Interval::sort_by_start(intervals);
        let mut result: Vec<Interval> = Vec::new();
        let mut cur: u32 = 0;
        let mut i: usize = 0;
        assert(sorted@.skip(0) == sorted@);
        while i < sorted.len()
            invariant
                i <= sorted.len(),
                max_codepoint < u32::MAX,
                sorted@ == sort_by_start(intervals@),
                result@ + gaps(sorted@.skip(i as int), cur as int, max_codepoint as int)
                    == complement_spec(intervals@, max_codepoint as int),
            decreases sorted.len() - i,
        {
            let iv = sorted[i];
            assert(sorted@.skip(i as int)[0] == iv);
            assert(sorted@.skip(i as int).drop_first() == sorted@.skip(i + 1));
            let ghost r0 = result@;
            let next_cur = if cur >= iv.end {
                cur
            } else {
                iv.end
            };
            if iv.start > cur {
                result.push(Interval::new(cur, iv.start));
                assert(r0 + (seq![Interval { start: cur, end: iv.start }] + gaps(
                    sorted@.skip(i + 1),
                    next_cur as int,
                    max_codepoint as int,
                )) == result@ + gaps(sorted@.skip(i + 1), next_cur as int, max_codepoint as int));
            }
            cur = next_cur;
            i = i + 1;
        }
        assert(sorted@.skip(i as int).len() == 0);
        if cur <= max_codepoint {
            result.push(Interval::new(cur, max_codepoint + 1));
        }
        result
    }

    /// The boundary points of the intervals together with 0 and 0x110000,
    /// in increasing order, each once.
    pub fn collect_boundaries(intervals: &[Interval]) -> (points: Vec<u32>)
        ensures
            strictly_increasing(points@),
            points@.to_set() == boundary_points(intervals@),
    {
        let mut points: Vec<u32> = Vec::new();
        insert_point(&mut points, 0);
        insert_point(&mut points, 0x110000);
        let mut i: usize = 0;
        while i < intervals.len()
            invariant
                i <= intervals.len(),
                strictly_increasing(points@),
                points@.to_set() == boundary_points(intervals@.take(i as int)),
            decreases intervals.len() - i,
        {
            insert_point(&mut points, intervals[i].start);
            insert_point(&mut points, intervals[i].end);
            i = i + 1;
            proof {
                let s = intervals@.take(i as int);
                let s0 = intervals@.take(i - 1);
                assert forall|p: u32| #[trigger] boundary_points(s).contains(p) <==> boundary_points(
                    s0,
                ).insert(s[i - 1].start).insert(s[i - 1].end).contains(p) by {
                    if boundary_points(s).contains(p) && p != 0 && p != 0x110000 {
                        let k = choose|k: int|
                            0 <= k < s.len() && (#[trigger] s[k].start == p || s[k].end == p);
                        if k < i - 1 {
                            assert(s0[k] == s[k]);
                        }
                    }
                    if boundary_points(s0).contains(p) && p != 0 && p != 0x110000 {
                        let k = choose|k: int|
                            0 <= k < s0.len() && (#[trigger] s0[k].start == p || s0[k].end == p);
                        assert(s0.len() == i - 1);
                        assert(s0[k] == intervals@[k]);
                        assert(s[k] == intervals@[k]);
                        assert(s[k].start == p || s[k].end == p);
                    }
                    if p == s[i - 1].start || p == s[i - 1].end {
                        assert(s[i - 1].start == p || s[i - 1].end == p);
                    }
                }
                assert(boundary_points(s) =~= boundary_points(s0).insert(s[i - 1].start).insert(
                    s[i - 1].end,
                ));
            }
        }
        proof {
            assert(intervals@.take(intervals.len() as int) == intervals@);
        }
        points
    }

    /// The intervals between consecutive boundaries, skipping empty ones.
    pub fn build_intervals(boundaries: &[u32]) -> (r: Vec<Interval>)
        ensures
            r@ == pieces(boundaries@),
    {
        let mut r: Vec<Interval> = Vec::new();
        let mut i: usize = 1;
        if boundaries.len() < 2 {
            return r;
        }
        while i < boundaries.len()
            invariant
                1 <= i <= boundaries.len(),
                r@ == pieces(boundaries@.take(i as int)),
            decreases boundaries.len() - i,
        {
            let w0 = boundaries[i - 1];
            let w1 = boundaries[i];
            let ghost t = boundaries@.take(i + 1);
            assert(t.drop_last() == boundaries@.take(i as int));
            assert(t[t.len() - 2] == w0 && t[t.len() - 1] == w1);
            if w0 < w1 {
                r.push(Interval::new(w0, w1));
            }
            i = i + 1;
        }
        assert(boundaries@.take(boundaries.len() as int) == boundaries@);
        r
    }
}

proof fn lemma_insert_at(r: Seq<Interval>, x: Interval, j: int)
    requires
        0 <= j <= r.len(),
        sorted_by_start(r),
        forall|k: int| j <= k < r.len() ==> r[k].start > x.start,
        j > 0 ==> r[j - 1].start <= x.start,
    ensures
        insert_by_start(r, x) == r.insert(j, x),
    decreases r.len(),
{
    if r.len() == 0 {
        assert(r.insert(j, x) =~= seq![x]);
    } else if r.last().start <= x.start {
        assert(j == r.len());
        assert(r.insert(j, x) =~= r.push(x));
    } else {
        let r0 = r.drop_last();
        lemma_insert_at(r0, x, j);
        assert(r.insert(j, x) =~= r0.insert(j, x).push(r.last()));
    }
}

/// Inserts `p` into a strictly increasing vector unless it is there.
fn insert_point(points: &mut Vec<u32>, p: u32)
    requires
        strictly_increasing(old(points)@),
    ensures
        strictly_increasing(final(points)@),
        final(points)@.to_set() == old(points)@.to_set().insert(p),
{
    let mut j: usize = 0;
    while j < points.len() && points[j] < p
        invariant
            j <= points.len(),
            forall|k: int| 0 <= k < j ==> points@[k] < p,
        decreases points.len() - j,
    {
        j = j + 1;
    }
    if j < points.len() && points[j] == p {
        assert(points@.to_set() =~= points@.to_set().insert(p)) by {
            assert(points@.contains(p));
        }
        return ;
    }
    let ghost old_points = points@;
    points.insert(j, p);
    assert(points@ == old_points.insert(j as int, p));
    assert(points@.to_set() =~= old_points.to_set().insert(p)) by {
        assert forall|q: u32| #[trigger] points@.to_set().contains(q) <==> old_points.to_set().insert(p).contains(q) by {
            if points@.contains(q) {
                let k = choose|k: int| 0 <= k < points@.len() && points@[k] == q;
                if k < j {
                    assert(old_points[k] == q);
                } else if k > j {
                    assert(old_points[k - 1] == q);
                }
            }
            if old_points.contains(q) {
                let k = choose|k: int| 0 <= k < old_points.len() && old_points[k] == q;
                if k < j {
                    assert(points@[k] == q);
                } else {
                    assert(points@[k + 1] == q);
                }
            }
            if q == p {
                assert(points@[j as int] == q);
            }
        }
    }
}

/// Two strictly increasing sequences with the same values are equal.
pub proof fn lemma_sorted_unique(a: Seq<u32>, b: Seq<u32>)
    requires
        strictly_increasing(a),
        strictly_increasing(b),
        a.to_set() == b.to_set(),
    ensures
        a == b,
    decreases a.len() + b.len(),
{
    if a.len() == 0 {
        if b.len() > 0 {
            assert(b.to_set().contains(b[0]));
            assert(a.to_set().contains(b[0]));
        }
        assert(a =~= b);
    } else if b.len() == 0 {
        assert(a.to_set().contains(a[0]));
        assert(b.to_set().contains(a[0]));
    } else {
        assert(a.to_set().contains(a[0]));
        assert(b.to_set().contains(b[0]));
        let j = choose|j: int| 0 <= j < b.len() && b[j] == a[0];
        let i = choose|i: int| 0 <= i < a.len() && a[i] == b[0];
        assert(a[0] <= a[i]);
        assert(b[0] <= b[j]);
        let a1 = a.drop_first();
        let b1 = b.drop_first();
        assert forall|x: u32| a1.to_set().contains(x) <==> b1.to_set().contains(x) by {
            if a1.to_set().contains(x) {
                let k = choose|k: int| 0 <= k < a1.len() && a1[k] == x;
                assert(a[k + 1] == x);
                assert(a.to_set().contains(x));
                let m = choose|m: int| 0 <= m < b.len() && b[m] == x;
                assert(m != 0);
                assert(b1[m - 1] == x);
            }
            if b1.to_set().contains(x) {
                let k = choose|k: int| 0 <= k < b1.len() && b1[k] == x;
                assert(b[k + 1] == x);
                assert(b.to_set().contains(x));
                let m = choose|m: int| 0 <= m < a.len() && a[m] == x;
                assert(m != 0);
                assert(a1[m - 1] == x);
            }
        }
        assert(a1.to_set() =~= b1.to_set());
        lemma_sorted_unique(a1, b1);
        assert(a =~= b) by {
            assert forall|k: int| 0 <= k < a.len() implies a[k] == b[k] by {
                if k > 0 {
                    assert(a[k] == a1[k - 1]);
                    assert(b[k] == b1[k - 1]);
                }
            }
        }
    }
}

} // verus!
