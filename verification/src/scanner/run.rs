//! What the automata read: runs of the NFA and of the subset table over
//! words of code points, and the proof that the subset construction
//! follows the NFA.
use vstd::prelude::*;
use vstd::set_lib::lemma_len_subset;
use crate::base::interval::{Interval, boundary_points, lemma_pieces_sorted, pieces, strictly_increasing};
use crate::scanner::dfa::{
    DFA, best_token, class_bounds, classes_of, column, dfa_of, edge_interval, edge_intervals, edge_ok,
    edges_ok, entry_ok, eps_closure, first_of_kind, firsts, graph_intervals, merged, merged_classes,
    merged_table, merges, lemma_firsts_len, law_quotient_keeps_tokens, lift, quotient,
    stable, table_ok, next_set, reach_in, reads, step_set, subset_table, table,
};
use crate::scanner::nfa::Edge;

verus! {

/// The NFA states after reading `w` from `start`, following epsilon edges
/// before and after each code point.
pub open spec fn nfa_run(g: Seq<Seq<Edge>>, start: int, w: Seq<u32>) -> Set<int>
    decreases w.len(),
{
    if w.len() == 0 {
        eps_closure(g, Set::<int>::empty().insert(start))
    } else {
        next_set(g, nfa_run(g, start, w.drop_last()), w.last())
    }
}

/// Whether class `c` of `classes` holds `cp`.
pub open spec fn in_class(classes: Seq<(u32, u32)>, c: int, cp: u32) -> bool {
    0 <= c < classes.len() && classes[c].0 <= cp < classes[c].1
}

/// The class of `classes` that holds `cp`.
pub open spec fn class_of(classes: Seq<(u32, u32)>, cp: u32) -> int {
    choose|c: int| #[trigger] in_class(classes, c, cp)
}

/// The state of table `t` after reading `w` from state 0, or `None` once an
/// entry on the way is missing.
pub open spec fn table_run(t: Seq<Seq<Option<usize>>>, classes: Seq<(u32, u32)>, w: Seq<u32>) -> Option<
    usize,
>
    decreases w.len(),
{
    if w.len() == 0 {
        Some(0usize)
    } else {
        match table_run(t, classes, w.drop_last()) {
            None => None,
            Some(s) => t[s as int][class_of(classes, w.last())],
        }
    }
}

/// A finite set of code points has a largest member.
proof fn lemma_max(s: Set<u32>) -> (m: u32)
    requires
        s.finite(),
        s.len() > 0,
    ensures
        s.contains(m),
        forall|x: u32| s.contains(x) ==> x <= m,
    decreases s.len(),
{
    let x = s.choose();
    let r = s.remove(x);
    if r.len() == 0 {
        assert forall|y: u32| s.contains(y) implies y <= x by {
            if y != x {
                assert(r.contains(y));
            }
        }
        x
    } else {
        let m = lemma_max(r);
        if m < x {
            x
        } else {
            m
        }
    }
}

/// A finite set of code points can be listed in increasing order.
pub(crate) proof fn lemma_sorted_exists(s: Set<u32>)
    requires
        s.finite(),
    ensures
        (exists|q: Seq<u32>| strictly_increasing(q) && q.to_set() == s),
    decreases s.len(),
{
    if s.len() == 0 {
        let q = Seq::<u32>::empty();
        assert(q.to_set() =~= s);
        assert(strictly_increasing(q));
    } else {
        let m = lemma_max(s);
        let r = s.remove(m);
        lemma_sorted_exists(r);
        let q0 = choose|q: Seq<u32>| strictly_increasing(q) && q.to_set() == r;
        let q = q0.push(m);
        assert forall|i: int, j: int| 0 <= i < j < q.len() implies q[i] < q[j] by {
            if j < q0.len() {
            } else {
                assert(q0.to_set().contains(q0[i]));
                assert(r.contains(q[i]));
            }
        }
        assert(q.to_set() =~= s) by {
            assert forall|x: u32| q.to_set().contains(x) implies s.contains(x) by {
                let i = choose|i: int| 0 <= i < q.len() && q[i] == x;
                if i < q0.len() {
                    assert(q0.to_set().contains(x));
                }
            }
            assert forall|x: u32| s.contains(x) implies q.to_set().contains(x) by {
                if x == m {
                    assert(q[q0.len() as int] == x);
                } else {
                    assert(r.contains(x));
                    assert(q0.to_set().contains(x));
                    let i = choose|i: int| 0 <= i < q0.len() && q0[i] == x;
                    assert(q[i] == x);
                }
            }
        }
    }
}

/// The boundary points of a list of intervals are finitely many.
pub(crate) proof fn lemma_points_finite(s: Seq<Interval>)
    ensures
        boundary_points(s).finite(),
{
    let all = set![0u32, 0x110000u32] + s.map_values(|iv: Interval| iv.start).to_set() + s.map_values(
        |iv: Interval| iv.end,
    ).to_set();
    assert(boundary_points(s).subset_of(all)) by {
        assert forall|p: u32| boundary_points(s).contains(p) implies all.contains(p) by {
            if p != 0 && p != 0x110000 {
                let k = choose|k: int| 0 <= k < s.len() && (#[trigger] s[k].start == p || s[k].end == p);
                if s[k].start == p {
                    assert(s.map_values(|iv: Interval| iv.start)[k] == p);
                    assert(s.map_values(|iv: Interval| iv.start).to_set().contains(p));
                } else {
                    assert(s.map_values(|iv: Interval| iv.end)[k] == p);
                    assert(s.map_values(|iv: Interval| iv.end).to_set().contains(p));
                }
            }
        }
    }
    lemma_len_subset(boundary_points(s), all);
}

/// The class boundaries of `g` increase strictly and are its boundary
/// points.
proof fn lemma_bounds_sorted(g: Seq<Seq<Edge>>)
    ensures
        strictly_increasing(class_bounds(g)),
        class_bounds(g).to_set() == boundary_points(graph_intervals(g)),
{
    lemma_points_finite(graph_intervals(g));
    lemma_sorted_exists(boundary_points(graph_intervals(g)));
}


/// Every code point below `0x110000` lies in a class of `g`, and class `c`
/// runs between consecutive boundaries.
proof fn lemma_classes(g: Seq<Seq<Edge>>)
    ensures
        classes_of(class_bounds(g)).len() == class_bounds(g).len() - 1,
        forall|c: int|
            0 <= c < classes_of(class_bounds(g)).len() ==> #[trigger] classes_of(class_bounds(g))[c] == (
                class_bounds(g)[c],
                class_bounds(g)[c + 1],
            ),
        forall|cp: u32|
            cp < 0x110000 ==> in_class(
                classes_of(class_bounds(g)),
                #[trigger] class_of(classes_of(class_bounds(g)), cp),
                cp,
            ),
{
    let b = class_bounds(g);
    let bp = boundary_points(graph_intervals(g));
    lemma_bounds_sorted(g);
    assert(bp.contains(0u32));
    assert(bp.contains(0x110000u32));
    assert(b.to_set().contains(0u32));
    lemma_pieces_sorted(b);
    let classes = classes_of(b);
    assert forall|cp: u32| cp < 0x110000 implies in_class(classes, #[trigger] class_of(classes, cp), cp) by {
        let i0 = choose|i: int| 0 <= i < b.len() && b[i] == 0u32;
        assert(b.to_set().contains(0x110000u32));
        let i1 = choose|i: int| 0 <= i < b.len() && b[i] == 0x110000u32;
        if i1 <= i0 {
            assert(b[i1] <= b[i0]);
        }
        lemma_find_piece(b, cp, i0, i1);
        let k = choose|k: int| i0 <= k < i1 && #[trigger] b[k] <= cp && cp < b[k + 1];
        assert(classes[k] == (b[k], b[k + 1]));
        assert(in_class(classes, k, cp));
    }
}

/// Between boundaries `b[i0] <= cp < b[i1]` lies a piece that holds `cp`.
pub(crate) proof fn lemma_find_piece(b: Seq<u32>, cp: u32, i0: int, i1: int)
    requires
        strictly_increasing(b),
        0 <= i0 < i1 < b.len(),
        b[i0] <= cp < b[i1],
    ensures
        (exists|k: int| i0 <= k < i1 && #[trigger] b[k] <= cp && cp < b[k + 1]),
    decreases i1 - i0,
{
    if b[i0 + 1] > cp {
        assert(b[i0] <= cp < b[i0 + 1]);
    } else {
        lemma_find_piece(b, cp, i0 + 1, i1);
        let k = choose|k: int| i0 + 1 <= k < i1 && #[trigger] b[k] <= cp && cp < b[k + 1];
        assert(i0 <= k < i1 && b[k] <= cp < b[k + 1]);
    }
}

/// The interval an edge of state `s` reads is among the intervals of `g`.
proof fn lemma_edge_listed(g: Seq<Seq<Edge>>, s: int, j: int)
    requires
        0 <= s < g.len(),
        0 <= j < g[s].len(),
        edge_interval(g[s][j]).len() == 1,
    ensures
        graph_intervals(g).contains(edge_interval(g[s][j])[0]),
    decreases g.len(),
{
    let iv = edge_interval(g[s][j])[0];
    if s < g.len() - 1 {
        lemma_edge_listed(g.drop_last(), s, j);
        assert(g.drop_last()[s] == g[s]);
        let k = choose|k: int| 0 <= k < graph_intervals(g.drop_last()).len() && graph_intervals(g.drop_last())[k] == iv;
        assert(graph_intervals(g)[k] == iv);
    } else {
        lemma_edge_listed_in(g[s], j);
        let es = edge_intervals(g[s]);
        let k = choose|k: int| 0 <= k < es.len() && es[k] == iv;
        assert(graph_intervals(g) == graph_intervals(g.drop_last()) + es);
        assert(graph_intervals(g)[graph_intervals(g.drop_last()).len() + k] == iv);
    }
}

proof fn lemma_edge_listed_in(es: Seq<Edge>, j: int)
    requires
        0 <= j < es.len(),
        edge_interval(es[j]).len() == 1,
    ensures
        edge_intervals(es).contains(edge_interval(es[j])[0]),
    decreases es.len(),
{
    let iv = edge_interval(es[j])[0];
    if j < es.len() - 1 {
        lemma_edge_listed_in(es.drop_last(), j);
        assert(es.drop_last()[j] == es[j]);
        let k = choose|k: int| 0 <= k < edge_intervals(es.drop_last()).len() && edge_intervals(es.drop_last())[k] == iv;
        assert(edge_intervals(es)[k] == iv);
    } else {
        assert(edge_intervals(es) == edge_intervals(es.drop_last()) + edge_interval(es.last()));
        assert(edge_intervals(es)[edge_intervals(es.drop_last()).len() as int] == iv);
    }
}

/// Two code points of one class are read by the same edges of `g`.
proof fn lemma_reads_class(g: Seq<Seq<Edge>>, s: int, j: int, c: int, cp: u32)
    requires
        edges_ok(g),
        0 <= s < g.len(),
        0 <= j < g[s].len(),
        in_class(classes_of(class_bounds(g)), c, cp),
    ensures
        reads(g[s][j], cp) == reads(g[s][j], classes_of(class_bounds(g))[c].0),
{
    let e = g[s][j];
    assert(edge_ok(e));
    let b = class_bounds(g);
    lemma_classes(g);
    lemma_bounds_sorted(g);
    let lo = b[c];
    let hi = b[c + 1];
    assert(classes_of(b)[c] == (lo, hi));
    if edge_interval(e).len() == 1 {
        let iv = edge_interval(e)[0];
        lemma_edge_listed(g, s, j);
        let k = choose|k: int| 0 <= k < graph_intervals(g).len() && graph_intervals(g)[k] == iv;
        let bp = boundary_points(graph_intervals(g));
        assert(bp.contains(iv.start));
        assert(bp.contains(iv.end));
        assert(b.to_set().contains(iv.start));
        assert(b.to_set().contains(iv.end));
        let ks = choose|x: int| 0 <= x < b.len() && b[x] == iv.start;
        let ke = choose|x: int| 0 <= x < b.len() && b[x] == iv.end;
        assert(ks <= c ==> b[ks] <= lo);
        assert(ks > c ==> b[ks] >= hi);
        assert(ke <= c ==> b[ke] <= lo);
        assert(ke > c ==> b[ke] >= hi);
        assert((iv.start <= cp && cp < iv.end) == (iv.start <= lo && lo < iv.end));
    }
}

/// Two code points of one class lead from any set to the same states.
proof fn lemma_next_class(g: Seq<Seq<Edge>>, states: Set<int>, c: int, cp: u32)
    requires
        edges_ok(g),
        in_class(classes_of(class_bounds(g)), c, cp),
    ensures
        next_set(g, states, cp) == next_set(g, states, classes_of(class_bounds(g))[c].0),
{
    let f = classes_of(class_bounds(g))[c].0;
    assert forall|t: int| step_set(g, states, cp).contains(t) <==> step_set(g, states, f).contains(t) by {
        if step_set(g, states, cp).contains(t) {
            let (s, j) = choose|s: int, j: int|
                states.contains(s) && 0 <= s < g.len() && 0 <= j < g[s].len() && reads(#[trigger] g[s][j], cp)
                    && g[s][j].target == t;
            lemma_reads_class(g, s, j, c, cp);
        }
        if step_set(g, states, f).contains(t) {
            let (s, j) = choose|s: int, j: int|
                states.contains(s) && 0 <= s < g.len() && 0 <= j < g[s].len() && reads(#[trigger] g[s][j], f)
                    && g[s][j].target == t;
            lemma_reads_class(g, s, j, c, cp);
        }
    }
    assert(step_set(g, states, cp) =~= step_set(g, states, f));
}

proof fn lemma_reach_empty(g: Seq<Seq<Edge>>, n: nat)
    ensures
        reach_in(g, Set::<int>::empty(), n) == Set::<int>::empty(),
    decreases n,
{
    if n > 0 {
        lemma_reach_empty(g, (n - 1) as nat);
        assert(reach_in(g, Set::<int>::empty(), n) =~= Set::<int>::empty());
    }
}

/// Nothing is reached from no state.
proof fn lemma_next_empty(g: Seq<Seq<Edge>>, cp: u32)
    ensures
        next_set(g, Set::<int>::empty(), cp) == Set::<int>::empty(),
{
    assert(step_set(g, Set::<int>::empty(), cp) =~= Set::<int>::empty());
    assert forall|t: int| !eps_closure(g, Set::<int>::empty()).contains(t) by {
        if eps_closure(g, Set::<int>::empty()).contains(t) {
            let n = choose|n: nat| #[trigger] reach_in(g, Set::<int>::empty(), n).contains(t);
            lemma_reach_empty(g, n);
        }
    }
    assert(eps_closure(g, Set::<int>::empty()) =~= Set::<int>::empty());
}

/// The subset construction follows the NFA: reading a word of code points
/// through the table leads to the state whose set is what the NFA reaches
/// on that word, and a missing entry on the way means the NFA reaches no
/// state at all.
pub proof fn law_subset_simulates(
    g: Seq<Seq<Edge>>,
    start: int,
    sets: Seq<Set<int>>,
    t: Seq<Seq<Option<usize>>>,
    w: Seq<u32>,
)
    requires
        edges_ok(g),
        subset_table(g, start, classes_of(class_bounds(g)), sets, t),
        forall|i: int| 0 <= i < w.len() ==> #[trigger] w[i] < 0x110000,
    ensures
        match table_run(t, classes_of(class_bounds(g)), w) {
            Some(s) => s < sets.len() && sets[s as int] == nfa_run(g, start, w),
            None => nfa_run(g, start, w) == Set::<int>::empty(),
        },
    decreases w.len(),
{
    let classes = classes_of(class_bounds(g));
    if w.len() > 0 {
        let w0 = w.drop_last();
        assert forall|i: int| 0 <= i < w0.len() implies #[trigger] w0[i] < 0x110000 by {
            assert(w0[i] == w[i]);
        }
        law_subset_simulates(g, start, sets, t, w0);
        let cp = w.last();
        assert(w[w.len() - 1] < 0x110000);
        match table_run(t, classes, w0) {
            None => {
                lemma_next_empty(g, cp);
            },
            Some(s) => {
                lemma_classes(g);
                let c = class_of(classes, cp);
                assert(in_class(classes, c, cp));
                lemma_next_class(g, sets[s as int], c, cp);
                assert(entry_ok(g, classes, sets, t[s as int][c], s as int, c));
            },
        }
    }
}

/// The DFA that `build_dfa` makes recognises the tokens of the NFA: where
/// no two classes were merged, reading a word of code points through the
/// DFA's own table and classes reaches a state whose token is the best
/// token among the NFA states reached on the word, and no state only where
/// the NFA reaches none.
pub proof fn law_dfa_follows_nfa(
    g: Seq<Seq<Edge>>,
    start: int,
    accepts: Seq<(usize, usize)>,
    dfa: DFA,
    w: Seq<u32>,
)
    requires
        edges_ok(g),
        dfa_of(g, start, accepts, dfa),
        dfa.intervals@ == classes_of(class_bounds(g)),
        forall|i: int| 0 <= i < w.len() ==> #[trigger] w[i] < 0x110000,
    ensures
        match table_run(table(dfa.transitions@), dfa.intervals@, w) {
            Some(s) => s < dfa.accept.len() && dfa.accept@[s as int] == best_token(
                accepts,
                nfa_run(g, start, w),
            ),
            None => nfa_run(g, start, w) == Set::<int>::empty(),
        },
{
    let classes = classes_of(class_bounds(g));
    let (sets, t) = choose|sets: Seq<Set<int>>, t: Seq<Seq<Option<usize>>>|
        {
            &&& #[trigger] subset_table(g, start, classes, sets, t)
            &&& dfa.accept@ == sets.map_values(|s: Set<int>| best_token(accepts, s))
            &&& (table(dfa.transitions@), dfa.intervals@) == merged(t, classes)
        };
    if merges(t, classes.len()) {
        assert(merged(t, classes).1 == merged_classes(t, classes));
        assert(merged_classes(t, classes).len() == firsts(t, classes.len()).len());
        assert(false);
    }
    assert(table(dfa.transitions@) == t);
    law_subset_simulates(g, start, sets, t, w);
}

/// The merged column that takes the entries of class `c`: the position
/// among the kept classes of one with the same column.
pub open spec fn group_of(t: Seq<Seq<Option<usize>>>, nc: nat, c: int) -> int {
    choose|k: int| 0 <= k < firsts(t, nc).len() && column(t, #[trigger] firsts(t, nc)[k]) == column(t, c)
}

/// Some class at or before `c` has the column of `c` and is the first of
/// its kind.
proof fn lemma_first_like(t: Seq<Seq<Option<usize>>>, c: int)
    requires
        0 <= c,
    ensures
        exists|d: int| 0 <= d <= c && #[trigger] column(t, d) == column(t, c) && first_of_kind(t, d),
    decreases c,
{
    if !first_of_kind(t, c) {
        let d0 = choose|d: int| 0 <= d < c && column(t, d) == column(t, c);
        lemma_first_like(t, d0);
        let d = choose|d: int| 0 <= d <= d0 && #[trigger] column(t, d) == column(t, d0) && first_of_kind(t, d);
        assert(column(t, d) == column(t, c));
    } else {
        // `c` itself is the witness.
        assert(0 <= c <= c && column(t, c) == column(t, c) && first_of_kind(t, c));
    }
}

/// The kept classes below `k` include every class below `k` that is the
/// first of its kind.
proof fn lemma_firsts_has(t: Seq<Seq<Option<usize>>>, k: nat, d: int)
    requires
        0 <= d < k,
        first_of_kind(t, d),
    ensures
        firsts(t, k).contains(d),
    decreases k,
{
    let prev = firsts(t, (k - 1) as nat);
    if d < k - 1 {
        lemma_firsts_has(t, (k - 1) as nat, d);
        let i = choose|i: int| 0 <= i < prev.len() && prev[i] == d;
        if first_of_kind(t, k - 1) {
            assert(firsts(t, k) == prev + seq![k - 1]);
            assert(firsts(t, k)[i] == d);
        } else {
            assert(firsts(t, k) == prev + Seq::<int>::empty());
            assert(firsts(t, k)[i] == d);
        }
    } else {
        assert(firsts(t, k) == prev + seq![k - 1]);
        assert(firsts(t, k)[prev.len() as int] == d);
    }
}

/// Merging equal columns loses no transition: the entries of every class
/// are found in the merged column of its group.
pub proof fn law_merge_keeps_columns(t: Seq<Seq<Option<usize>>>, nc: nat, s: int, c: int)
    requires
        0 <= s < t.len(),
        0 <= c < nc,
        forall|r: int| 0 <= r < t.len() ==> #[trigger] t[r].len() == nc,
    ensures
        0 <= group_of(t, nc, c) < firsts(t, nc).len(),
        merged_table(t, nc)[s][group_of(t, nc, c)] == t[s][c],
{
    lemma_first_like(t, c);
    let d = choose|d: int| 0 <= d <= c && #[trigger] column(t, d) == column(t, c) && first_of_kind(t, d);
    lemma_firsts_has(t, nc, d);
    let f = firsts(t, nc);
    let i = choose|i: int| 0 <= i < f.len() && f[i] == d;
    assert(column(t, f[i]) == column(t, c));
    let k = group_of(t, nc, c);
    lemma_firsts_len(t, nc);
    assert(column(t, f[k]) == column(t, c));
    assert(column(t, f[k])[s] == t[s][f[k]]);
    assert(column(t, c)[s] == t[s][c]);
    assert(merged_table(t, nc)[s] == f.map_values(|x: int| t[s][x]));
}

/// The state of table `t` after reading `w` from state `s`, or `None` once
/// an entry on the way is missing.
pub open spec fn run_from(t: Seq<Seq<Option<usize>>>, classes: Seq<(u32, u32)>, s: usize, w: Seq<u32>) -> Option<
    usize,
>
    decreases w.len(),
{
    if w.len() == 0 {
        Some(s)
    } else {
        match run_from(t, classes, s, w.drop_last()) {
            None => None,
            Some(x) => t[x as int][class_of(classes, w.last())],
        }
    }
}


/// Whether each code point of `w` lies in one of `classes` (the class
/// `class_of` picks for it holds it).
pub open spec fn covered_by(classes: Seq<(u32, u32)>, w: Seq<u32>) -> bool {
    forall|i: int| 0 <= i < w.len() ==> in_class(classes, class_of(classes, #[trigger] w[i]), w[i])
}

/// Reading a word through a quotient by a stable partition leads to the
/// block of the state that the table before the quotient reaches.
proof fn lemma_quotient_run(
    t: Seq<Seq<Option<usize>>>,
    accept: Seq<Option<usize>>,
    start: int,
    part: Seq<usize>,
    reps: Seq<int>,
    t2: Seq<Seq<Option<usize>>>,
    accept2: Seq<Option<usize>>,
    start2: int,
    classes: Seq<(u32, u32)>,
    w: Seq<u32>,
)
    requires
        quotient(t, accept, start, part, reps, t2, accept2, start2),
        stable(t, part),
        table_ok(t, classes.len() as int),
        0 <= start < t.len(),
        t.len() <= usize::MAX,
        0 <= start2 <= usize::MAX,
        covered_by(classes, w),
    ensures
        run_from(t2, classes, start2 as usize, w) == lift(part, run_from(t, classes, start as usize, w)),
        run_from(t, classes, start as usize, w) matches Some(s) ==> s < t.len(),
    decreases w.len(),
{
    if w.len() == 0 {
        assert(start2 == part[start]);
        assert((start as usize) as int == start);
        assert((start2 as usize) as int == start2);
    } else {
        let w0 = w.drop_last();
        assert forall|i: int| 0 <= i < w0.len() implies in_class(classes, class_of(classes, #[trigger] w0[i]), w0[i]) by {
            assert(w0[i] == w[i]);
        }
        assert(covered_by(classes, w0));
        lemma_quotient_run(t, accept, start, part, reps, t2, accept2, start2, classes, w0);
        match run_from(t, classes, start as usize, w0) {
            None => {
                assert(run_from(t2, classes, start2 as usize, w0) == None::<usize>);
            },
            Some(s) => {
                let cp = w.last();
                assert(in_class(classes, class_of(classes, w[w.len() - 1]), w[w.len() - 1]));
                let c = class_of(classes, cp);
                assert(in_class(classes, c, cp));
                let p = part[s as int] as int;
                assert(p < t2.len());
                let r = reps[p];
                assert(0 <= r < t.len() && part[r] == p);
                assert(t[r].len() == classes.len());
                assert(t[s as int].len() == classes.len());
                assert(t2[p] == t[r].map_values(|e: Option<usize>| lift(part, e)));
                assert(t2[p][c] == lift(part, t[r][c]));
                assert(lift(part, t[r][c]) == lift(part, t[s as int][c]));
                if t[s as int][c] is Some {
                    assert(t[s as int][c]->0 < t.len());
                }
                assert(run_from(t2, classes, start2 as usize, w0) == Some(part[s as int]));
                assert(run_from(t, classes, start as usize, w) == t[s as int][c]);
                assert(run_from(t2, classes, start2 as usize, w) == t2[p][c]);
            },
        }
    }
}

/// A quotient by a stable partition recognises what the automaton does: on
/// every word whose code points lie in the classes, it reaches the block of
/// the state the automaton reaches (and no state exactly where the
/// automaton reaches none), and that block has the state's token.
/// Minimisation's partition need not be stable; where it is, this holds of
/// the minimised automaton.
pub proof fn law_stable_quotient_keeps_language(
    t: Seq<Seq<Option<usize>>>,
    accept: Seq<Option<usize>>,
    start: int,
    part: Seq<usize>,
    reps: Seq<int>,
    t2: Seq<Seq<Option<usize>>>,
    accept2: Seq<Option<usize>>,
    start2: int,
    classes: Seq<(u32, u32)>,
    w: Seq<u32>,
)
    requires
        quotient(t, accept, start, part, reps, t2, accept2, start2),
        stable(t, part),
        table_ok(t, classes.len() as int),
        0 <= start < t.len(),
        t.len() <= usize::MAX,
        0 <= start2 <= usize::MAX,
        covered_by(classes, w),
    ensures
        run_from(t2, classes, start2 as usize, w) == lift(part, run_from(t, classes, start as usize, w)),
        run_from(t, classes, start as usize, w) matches Some(s) ==> s < t.len() && accept2[part[s as int] as int]
            == accept[s as int],
{
    law_quotient_keeps_tokens(t, accept, start, part, reps, t2, accept2, start2);
    lemma_quotient_run(t, accept, start, part, reps, t2, accept2, start2, classes, w);
}



} // verus!
