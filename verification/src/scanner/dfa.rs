//! Deterministic automata: subset construction over character classes,
//! minimisation by partition refinement, and table compression.
use vstd::prelude::*;
use rayon::iter::{IntoParallelRefIterator, ParallelIterator};
use std::collections::VecDeque;
use vstd::set_lib::{lemma_int_range, lemma_len_subset, lemma_map_size, set_int_range};
use crate::base::bitset::{BitSet, empty_set, index_set, lemma_index_set_push};
use crate::base::interval::{Interval, boundary_points, lemma_sorted_unique, pieces, strictly_increasing};
use crate::scanner::nfa::{Edge, EdgeType, NFA, graph, sorted_points, targets_ok};

verus! {

/// Whether `e` is an epsilon edge from `s` to `t` in `g`.
pub open spec fn eps_step(g: Seq<Seq<Edge>>, s: int, t: int) -> bool {
    &&& 0 <= s < g.len()
    &&& exists|j: int|
        0 <= j < g[s].len() && (#[trigger] g[s][j]).edge_type is Epsilon && g[s][j].target == t
}

/// The states reached from `start` by at most `n` epsilon edges.
pub open spec fn reach_in(g: Seq<Seq<Edge>>, start: Set<int>, n: nat) -> Set<int>
    decreases n,
{
    if n == 0 {
        start
    } else {
        let p = reach_in(g, start, (n - 1) as nat);
        p + Set::new(|t: int| exists|s: int| p.contains(s) && #[trigger] eps_step(g, s, t))
    }
}

/// The epsilon closure of `start`: the states reached by epsilon edges.
pub open spec fn eps_closure(g: Seq<Seq<Edge>>, start: Set<int>) -> Set<int> {
    Set::new(|t: int| exists|n: nat| #[trigger] reach_in(g, start, n).contains(t))
}

/// Whether the edge `e` reads the code point `cp`.
pub open spec fn reads(e: Edge, cp: u32) -> bool {
    match e.edge_type {
        EdgeType::Character => e.character == Some(cp),
        EdgeType::Range => match (e.range_start, e.range_end) {
            (Some(a), Some(b)) => a <= cp && cp <= b,
            _ => false,
        },
        EdgeType::Epsilon => false,
    }
}

/// The states one edge reading `cp` away from `states`.
pub open spec fn step_set(g: Seq<Seq<Edge>>, states: Set<int>, cp: u32) -> Set<int> {
    Set::new(
        |t: int|
            exists|s: int, j: int|
                states.contains(s) && 0 <= s < g.len() && 0 <= j < g[s].len() && reads(
                    #[trigger] g[s][j],
                    cp,
                ) && g[s][j].target == t,
    )
}

/// The states after reading `cp` from `states`, following epsilon edges.
pub open spec fn next_set(g: Seq<Seq<Edge>>, states: Set<int>, cp: u32) -> Set<int> {
    eps_closure(g, step_set(g, states, cp))
}

/// Every member of `s` is a state of an automaton with `n` states.
pub open spec fn within(s: Set<int>, n: int) -> bool {
    forall|x: int| s.contains(x) ==> 0 <= x < n
}

/// The number of states below `n` outside `s`.
pub open spec fn missing(s: Set<int>, n: nat) -> nat
    decreases n,
{
    if n == 0 {
        0
    } else {
        missing(s, (n - 1) as nat) + if s.contains(n - 1) {
            0nat
        } else {
            1nat
        }
    }
}

proof fn lemma_missing_insert(s: Set<int>, t: int, n: nat)
    requires
        !s.contains(t),
        0 <= t < n,
    ensures
        missing(s.insert(t), n) + 1 == missing(s, n),
    decreases n,
{
    if t < n - 1 {
        lemma_missing_insert(s, t, (n - 1) as nat);
    } else {
        lemma_missing_same(s, t, (n - 1) as nat);
    }
}

proof fn lemma_missing_same(s: Set<int>, t: int, n: nat)
    requires
        t >= n,
    ensures
        missing(s.insert(t), n) == missing(s, n),
    decreases n,
{
    if n > 0 {
        lemma_missing_same(s, t, (n - 1) as nat);
    }
}

proof fn lemma_reach_mono(g: Seq<Seq<Edge>>, start: Set<int>, m: nat, n: nat)
    requires
        m <= n,
    ensures
        reach_in(g, start, m).subset_of(reach_in(g, start, n)),
    decreases n,
{
    if m < n {
        lemma_reach_mono(g, start, m, (n - 1) as nat);
    }
}

/// A set that holds `start` and is closed under epsilon edges holds the
/// whole closure.
proof fn lemma_closed_holds_closure(g: Seq<Seq<Edge>>, start: Set<int>, c: Set<int>)
    requires
        start.subset_of(c),
        forall|s: int, t: int| c.contains(s) && #[trigger] eps_step(g, s, t) ==> c.contains(t),
    ensures
        eps_closure(g, start).subset_of(c),
{
    assert forall|t: int| eps_closure(g, start).contains(t) implies c.contains(t) by {
        let n = choose|n: nat| #[trigger] reach_in(g, start, n).contains(t);
        lemma_reach_in_closed(g, start, c, n);
    }
}

proof fn lemma_reach_in_closed(g: Seq<Seq<Edge>>, start: Set<int>, c: Set<int>, n: nat)
    requires
        start.subset_of(c),
        forall|s: int, t: int| c.contains(s) && #[trigger] eps_step(g, s, t) ==> c.contains(t),
    ensures
        reach_in(g, start, n).subset_of(c),
    decreases n,
{
    if n > 0 {
        lemma_reach_in_closed(g, start, c, (n - 1) as nat);
    }
}

/// A successor of a member of the closure is in the closure.
pub proof fn lemma_closure_step(g: Seq<Seq<Edge>>, start: Set<int>, s: int, t: int)
    requires
        eps_closure(g, start).contains(s),
        eps_step(g, s, t),
    ensures
        eps_closure(g, start).contains(t),
{
    let n = choose|n: nat| #[trigger] reach_in(g, start, n).contains(s);
    assert(reach_in(g, start, n + 1).contains(t));
}

pub proof fn lemma_start_in_closure(g: Seq<Seq<Edge>>, start: Set<int>)
    ensures
        start.subset_of(eps_closure(g, start)),
{
    assert forall|t: int| start.contains(t) implies eps_closure(g, start).contains(t) by {
        assert(reach_in(g, start, 0).contains(t));
    }
}

/// The closure stays among the states.
proof fn lemma_closure_within(g: Seq<Seq<Edge>>, start: Set<int>)
    requires
        targets_ok(g),
        within(start, g.len() as int),
    ensures
        within(eps_closure(g, start), g.len() as int),
{
    let r = set_int_range(0, g.len() as int);
    assert forall|s: int, t: int| r.contains(s) && #[trigger] eps_step(g, s, t) implies r.contains(t) by {
        let j = choose|j: int|
            0 <= j < g[s].len() && (#[trigger] g[s][j]).edge_type is Epsilon && g[s][j].target == t;
        assert(g[s][j].target < g.len());
    }
    lemma_closed_holds_closure(g, start, r);
}

/// Whether `x` is one of the entries of `v`.
pub open spec fn holds(v: Seq<usize>, x: int) -> bool {
    exists|k: int| 0 <= k < v.len() && v[k] as int == x
}

/// The epsilon closure of a set of states.
fn epsilon_closure(nfa: &NFA, start_set: &BitSet) -> (closure: BitSet)
    requires
        targets_ok(graph(nfa.states@)),
        within(start_set@, nfa.states@.len() as int),
    ensures
        closure@ == eps_closure(graph(nfa.states@), start_set@),
{
    let ghost g = graph(nfa.states@);
    let ghost n = nfa.states@.len();
    let mut closure = start_set.duplicate();
    let mut stack: Vec<usize> = start_set.iter();
    proof {
        lemma_start_in_closure(g, start_set@);
        assert forall|k: int| 0 <= k < stack.len() implies closure@.contains(
            #[trigger] stack@[k] as int,
        ) by {
            assert(index_set(stack@).contains(stack@[k] as int));
        }
        assert forall|x: int| closure@.contains(x) implies holds(stack@, x) by {
            assert(index_set(stack@).contains(x));
        }
    }
    while stack.len() > 0
        invariant
            g == graph(nfa.states@),
            n == nfa.states@.len(),
            targets_ok(g),
            start_set@.subset_of(closure@),
            closure@.subset_of(eps_closure(g, start_set@)),
            within(closure@, n as int),
            forall|k: int| 0 <= k < stack.len() ==> closure@.contains(#[trigger] stack@[k] as int),
            forall|s: int, t: int|
                closure@.contains(s) && !holds(stack@, s) && #[trigger] eps_step(g, s, t)
                    ==> closure@.contains(t),
        decreases missing(closure@, n), stack.len(),
    {
        let ghost stack_before = stack@;
        let s = stack.pop().unwrap();
        let ghost stack_after_pop = stack@;
        assert(stack_before == stack_after_pop.push(s));
        let ghost closure_before = closure@;
        let edges = &nfa.states[s].edges;
        assert(edges@ == g[s as int]);
        let mut j: usize = 0;
        while j < edges.len()
            invariant
                g == graph(nfa.states@),
                n == nfa.states@.len(),
                edges@ == g[s as int],
                0 <= s < n,
                targets_ok(g),
                start_set@.subset_of(closure@),
                closure@.subset_of(eps_closure(g, start_set@)),
                closure_before.subset_of(closure@),
                closure@.contains(s as int),
                within(closure@, n as int),
                j <= edges.len(),
                missing(closure@, n) <= missing(closure_before, n),
                stack@.len() >= stack_after_pop.len(),
                stack@.subrange(0, stack_after_pop.len() as int) == stack_after_pop,
                missing(closure@, n) == missing(closure_before, n) ==> stack@ == stack_after_pop,
                forall|k: int| 0 <= k < stack.len() ==> closure@.contains(#[trigger] stack@[k] as int),
                forall|k: int|
                    0 <= k < j && (#[trigger] g[s as int][k]).edge_type is Epsilon ==> closure@.contains(
                        g[s as int][k].target as int,
                    ),
                forall|x: int| closure@.contains(x) && !closure_before.contains(x) ==> holds(stack@, x),
            decreases edges.len() - j,
        {
            let e = edges[j];
            if let EdgeType::Epsilon = e.edge_type {
                let t = e.target;
                if !closure.contains(t) {
                    let ghost cl = closure@;
                    let ghost st = stack@;
                    proof {
                        assert(g[s as int][j as int] == e);
                        assert(t < n);
                        assert(eps_step(g, s as int, t as int));
                        lemma_closure_step(g, start_set@, s as int, t as int);
                        lemma_missing_insert(closure@, t as int, n);
                    }
                    closure.add(t);
                    stack.push(t);
                    proof {
                        assert(stack@.subrange(0, stack_after_pop.len() as int) =~= stack_after_pop);
                        assert forall|x: int| closure@.contains(x) && !closure_before.contains(x) implies holds(
                            stack@,
                            x,
                        ) by {
                            if x == t as int {
                                assert(stack@[st.len() as int] as int == x);
                            } else {
                                assert(cl.contains(x));
                                let k = choose|k: int| 0 <= k < st.len() && st[k] as int == x;
                                assert(stack@[k] == st[k]);
                            }
                        }
                    }
                }
            }
            j = j + 1;
        }
        proof {
            assert forall|x: int, t: int|
                closure@.contains(x) && !holds(stack@, x) && #[trigger] eps_step(g, x, t) implies closure@.contains(t) by {
                let k = choose|k: int|
                    0 <= k < g[x].len() && (#[trigger] g[x][k]).edge_type is Epsilon && g[x][k].target
                        == t;
                if x == s as int {
                } else if closure_before.contains(x) {
                    if holds(stack_before, x) {
                        let i = choose|i: int| 0 <= i < stack_before.len() && stack_before[i] as int == x;
                        assert(i < stack_after_pop.len());
                        assert(stack@[i] == stack_after_pop[i]);
                    }
                }
            }
        }
    }
    proof {
        lemma_closed_holds_closure(g, start_set@, closure@);
        assert(closure@ =~= eps_closure(g, start_set@));
    }
    closure
}

/// The targets of the first `j` edges of `s` that read `cp`.
pub open spec fn out_set(g: Seq<Seq<Edge>>, s: int, cp: u32, j: int) -> Set<int> {
    Set::new(
        |t: int| exists|k: int| 0 <= k < j && reads(#[trigger] g[s][k], cp) && g[s][k].target == t,
    )
}

proof fn lemma_step_insert(g: Seq<Seq<Edge>>, states: Set<int>, s: int, cp: u32)
    requires
        0 <= s < g.len(),
    ensures
        step_set(g, states.insert(s), cp) == step_set(g, states, cp) + out_set(
            g,
            s,
            cp,
            g[s].len() as int,
        ),
{
    let l = step_set(g, states.insert(s), cp);
    let r = step_set(g, states, cp) + out_set(g, s, cp, g[s].len() as int);
    assert forall|t: int| l.contains(t) <==> r.contains(t) by {
        if l.contains(t) {
            let (x, j) = choose|x: int, j: int|
                states.insert(s).contains(x) && 0 <= x < g.len() && 0 <= j < g[x].len() && reads(
                    #[trigger] g[x][j],
                    cp,
                ) && g[x][j].target == t;
            if x == s {
                assert(out_set(g, s, cp, g[s].len() as int).contains(t));
            } else {
                assert(step_set(g, states, cp).contains(t));
            }
        }
        if step_set(g, states, cp).contains(t) {
            let (x, j) = choose|x: int, j: int|
                states.contains(x) && 0 <= x < g.len() && 0 <= j < g[x].len() && reads(
                    #[trigger] g[x][j],
                    cp,
                ) && g[x][j].target == t;
            assert(states.insert(s).contains(x));
        }
        if out_set(g, s, cp, g[s].len() as int).contains(t) {
            let k = choose|k: int| 0 <= k < g[s].len() && reads(#[trigger] g[s][k], cp) && g[s][k].target == t;
            assert(states.insert(s).contains(s));
        }
    }
    assert(l =~= r);
}

/// The states after reading `cp` from `states`, following epsilon edges.
fn move_on_codepoint(nfa: &NFA, states: &BitSet, cp: u32) -> (next: BitSet)
    requires
        targets_ok(graph(nfa.states@)),
        within(states@, nfa.states@.len() as int),
    ensures
        next@ == next_set(graph(nfa.states@), states@, cp),
        within(next@, nfa.states@.len() as int),
{
    let ghost g = graph(nfa.states@);
    let ghost n = nfa.states@.len();
    let mut next = empty_set(nfa.states.len());
    let v = states.iter();
    let mut i: usize = 0;
    assert(index_set(v@.take(0)) =~= Set::<int>::empty());
    assert(step_set(g, Set::<int>::empty(), cp) =~= Set::<int>::empty());
    while i < v.len()
        invariant
            g == graph(nfa.states@),
            n == nfa.states@.len(),
            targets_ok(g),
            states@ == index_set(v@),
            within(states@, n as int),
            i <= v.len(),
            next@ == step_set(g, index_set(v@.take(i as int)), cp),
            within(next@, n as int),
        decreases v.len() - i,
    {
        let s = v[i];
        assert(index_set(v@).contains(s as int));
        let edges = &nfa.states[s].edges;
        assert(edges@ == g[s as int]);
        let ghost before = next@;
        assert(out_set(g, s as int, cp, 0) =~= Set::<int>::empty());
        assert(before =~= before + out_set(g, s as int, cp, 0));
        let mut j: usize = 0;
        while j < edges.len()
            invariant
                g == graph(nfa.states@),
                n == nfa.states@.len(),
                targets_ok(g),
                0 <= s < n,
                edges@ == g[s as int],
                j <= edges.len(),
                next@ == before + out_set(g, s as int, cp, j as int),
                within(next@, n as int),
            decreases edges.len() - j,
        {
            let e = edges[j];
            let matches = match e.edge_type {
                EdgeType::Character => match e.character {
                    Some(ch) => cp == ch,
                    None => false,
                },
                EdgeType::Range => match (e.range_start, e.range_end) {
                    (Some(a), Some(b)) => cp >= a && cp <= b,
                    _ => false,
                },
                _ => false,
            };
            assert(g[s as int][j as int] == e);
            assert(matches == reads(e, cp));
            let ghost cur = next@;
            if matches {
                assert(e.target < n);
                next.add(e.target);
            }
            proof {
                let o1 = out_set(g, s as int, cp, j + 1);
                let o0 = out_set(g, s as int, cp, j as int);
                assert forall|t: int| o1.contains(t) <==> o0.contains(t) || (matches && t == e.target) by {
                    if o1.contains(t) {
                        let k = choose|k: int|
                            0 <= k < j + 1 && reads(#[trigger] g[s as int][k], cp) && g[s as int][k].target == t;
                        if k < j {
                            assert(o0.contains(t));
                        }
                    }
                    if o0.contains(t) {
                        let k = choose|k: int|
                            0 <= k < j && reads(#[trigger] g[s as int][k], cp) && g[s as int][k].target == t;
                        assert(o1.contains(t));
                    }
                    if matches && t == e.target {
                        assert(reads(g[s as int][j as int], cp));
                        assert(o1.contains(t));
                    }
                }
                assert(next@ =~= before + o1);
            }
            j = j + 1;
        }
        proof {
            lemma_index_set_push(v@.take(i as int), s);
            assert(v@.take(i + 1) =~= v@.take(i as int).push(s));
            lemma_step_insert(g, index_set(v@.take(i as int)), s as int, cp);
        }
        i = i + 1;
    }
    assert(v@.take(i as int) =~= v@);
    proof {
        lemma_closure_within(g, next@);
    }
    epsilon_closure(nfa, &next)
}

/// The interval of code points an edge reads, if it reads any.
pub open spec fn edge_interval(e: Edge) -> Seq<Interval> {
    match e.edge_type {
        EdgeType::Character => match e.character {
            Some(ch) => seq![Interval { start: ch, end: (ch + 1) as u32 }],
            None => seq![],
        },
        EdgeType::Range => match (e.range_start, e.range_end) {
            (Some(a), Some(b)) => seq![Interval { start: a, end: (b + 1) as u32 }],
            _ => seq![],
        },
        EdgeType::Epsilon => seq![],
    }
}

pub open spec fn edge_intervals(es: Seq<Edge>) -> Seq<Interval>
    decreases es.len(),
{
    if es.len() == 0 {
        seq![]
    } else {
        edge_intervals(es.drop_last()) + edge_interval(es.last())
    }
}

/// The intervals read by the edges of `g`, state by state.
pub open spec fn graph_intervals(g: Seq<Seq<Edge>>) -> Seq<Interval>
    decreases g.len(),
{
    if g.len() == 0 {
        seq![]
    } else {
        graph_intervals(g.drop_last()) + edge_intervals(g.last())
    }
}

/// The last code point an edge reads lies below `u32::MAX`.
pub open spec fn edge_ok(e: Edge) -> bool {
    &&& (e.edge_type is Character && e.character is Some ==> e.character->0 < u32::MAX)
    &&& (e.edge_type is Range && e.range_start is Some && e.range_end is Some ==> e.range_end->0
        < u32::MAX)
}

pub open spec fn edges_ok(g: Seq<Seq<Edge>>) -> bool {
    forall|i: int, j: int| 0 <= i < g.len() && 0 <= j < g[i].len() ==> edge_ok(#[trigger] g[i][j])
}

/// Whether every edge of `nfa` meets `edge_ok`, the bound that
/// `build_dfa` needs on the intervals it reads.
pub fn edges_fit(nfa: &NFA) -> (b: bool)
    ensures
        b == edges_ok(graph(nfa.states@)),
{
    let ghost g = graph(nfa.states@);
    let mut i: usize = 0;
    while i < nfa.states.len()
        invariant
            g == graph(nfa.states@),
            i <= nfa.states.len(),
            forall|a: int, c: int| 0 <= a < i && 0 <= c < g[a].len() ==> edge_ok(#[trigger] g[a][c]),
        decreases nfa.states.len() - i,
    {
        let edges = &nfa.states[i].edges;
        let mut j: usize = 0;
        while j < edges.len()
            invariant
                g == graph(nfa.states@),
                i < nfa.states.len(),
                edges@ == g[i as int],
                j <= edges.len(),
                forall|a: int, c: int| 0 <= a < i && 0 <= c < g[a].len() ==> edge_ok(#[trigger] g[a][c]),
                forall|c: int| 0 <= c < j ==> edge_ok(#[trigger] g[i as int][c]),
            decreases edges.len() - j,
        {
            let e = edges[j];
            let bad_char = match e.edge_type {
                EdgeType::Character => match e.character {
                    Some(c) => c == u32::MAX,
                    None => false,
                },
                _ => false,
            };
            let bad_range = match e.edge_type {
                EdgeType::Range => match (e.range_start, e.range_end) {
                    (Some(_), Some(hi)) => hi == u32::MAX,
                    _ => false,
                },
                _ => false,
            };
            if bad_char || bad_range {
                assert(!edge_ok(g[i as int][j as int]));
                return false;
            }
            j = j + 1;
        }
        i = i + 1;
    }
    true
}

/// The boundaries of the character classes of `g`: 0, 0x110000 and where
/// the edges' intervals start and end, in increasing order.
pub open spec fn class_bounds(g: Seq<Seq<Edge>>) -> Seq<u32> {
    sorted_points(boundary_points(graph_intervals(g)))
}

/// The character classes: the pieces between consecutive boundaries.
pub open spec fn classes_of(b: Seq<u32>) -> Seq<(u32, u32)> {
    pieces(b).map_values(|iv: Interval| (iv.start, iv.end))
}

/// The class boundaries of the automaton's edges.
fn collect_boundaries(nfa: &NFA) -> (points: Vec<u32>)
    requires
        edges_ok(graph(nfa.states@)),
    ensures
        points@ == class_bounds(graph(nfa.states@)),
        strictly_increasing(points@),
{
    let ghost g = graph(nfa.states@);
    let mut ivs: Vec<Interval> = Vec::new();
    let mut i: usize = 0;
    assert(g.take(0) =~= seq![]);
    while i < nfa.states.len()
        invariant
            g == graph(nfa.states@),
            edges_ok(g),
            i <= nfa.states.len(),
            ivs@ == graph_intervals(g.take(i as int)),
        decreases nfa.states.len() - i,
    {
        let edges = &nfa.states[i].edges;
        assert(edges@ == g[i as int]);
        let ghost base = ivs@;
        let mut j: usize = 0;
        assert(edges@.take(0) =~= seq![]);
        assert(ivs@ =~= base + edge_intervals(edges@.take(0)));
        while j < edges.len()
            invariant
                g == graph(nfa.states@),
                edges_ok(g),
                i < nfa.states.len(),
                edges@ == g[i as int],
                j <= edges.len(),
                ivs@ == base + edge_intervals(edges@.take(j as int)),
            decreases edges.len() - j,
        {
            let e = edges[j];
            assert(g[i as int][j as int] == e);
            assert(edge_ok(e));
            let ghost pre = ivs@;
            match e.edge_type {
                EdgeType::Character => {
                    if let Some(ch) = e.character {
                        ivs.push(Interval::new(ch, ch + 1));
                    }
                },
                EdgeType::Range => {
                    if let (Some(start), Some(end)) = (e.range_start, e.range_end) {
                        ivs.push(Interval::new(start, end + 1));
                    }
                },
                _ => {},
            }
            assert(edges@.take(j + 1).drop_last() =~= edges@.take(j as int));
            assert(ivs@ =~= pre + edge_interval(e));
            j = j + 1;
        }
        assert(edges@.take(j as int) =~= edges@);
        assert(g.take(i + 1).drop_last() =~= g.take(i as int));
        i = i + 1;
    }
    assert(g.take(i as int) =~= g);
    let points = Interval::collect_boundaries(ivs.as_slice());
    proof {
        let set = boundary_points(ivs@);
        let q = sorted_points(set);
        assert(strictly_increasing(points@) && points@.to_set() == set);
        assert(strictly_increasing(q) && q.to_set() == set);
        lemma_sorted_unique(q, points@);
    }
    points
}

/// The character classes between consecutive boundaries.
fn build_intervals(boundaries: &[u32]) -> (classes: Vec<(u32, u32)>)
    ensures
        classes@ == classes_of(boundaries@),
{
    let intervals = Interval::build_intervals(boundaries);
    let mut classes: Vec<(u32, u32)> = Vec::new();
    let mut i: usize = 0;
    while i < intervals.len()
        invariant
            i <= intervals.len(),
            intervals@ == pieces(boundaries@),
            classes@ == intervals@.take(i as int).map_values(|iv: Interval| (iv.start, iv.end)),
        decreases intervals.len() - i,
    {
        classes.push((intervals[i].start, intervals[i].end));
        i = i + 1;
        assert(classes@ =~= intervals@.take(i as int).map_values(|iv: Interval| (iv.start, iv.end)));
    }
    assert(intervals@.take(i as int) =~= intervals@);
    classes
}

pub struct CompressedDFA {
    pub default_trans: Vec<usize>,
    pub special_trans: Vec<Vec<(usize, usize)>>,
    pub accept: Vec<Option<usize>>,
    pub start_state: usize,
    pub intervals: Vec<(u32, u32)>,
}

/// A transition table over character classes: `transitions[s][c]` is the
/// state after reading a code point of class `c` in state `s`, and
/// `accept[s]` the token that state `s` recognises.
pub struct DFA {
    pub transitions: Vec<Vec<Option<usize>>>,
    pub accept: Vec<Option<usize>>,
    pub start_state: usize,
    pub intervals: Vec<(u32, u32)>,
}

/// The rows of a transition table.
pub open spec fn table(t: Seq<Vec<Option<usize>>>) -> Seq<Seq<Option<usize>>> {
    t.map_values(|row: Vec<Option<usize>>| row@)
}

/// Every row has one entry per class and every entry names a state.
pub open spec fn table_ok(t: Seq<Seq<Option<usize>>>, classes: int) -> bool {
    &&& forall|s: int| 0 <= s < t.len() ==> #[trigger] t[s].len() == classes
    &&& forall|s: int, c: int|
        0 <= s < t.len() && 0 <= c < t[s].len() && (#[trigger] t[s][c]) is Some ==> t[s][c]->0
            < t.len()
}

impl DFA {
    pub open spec fn wf(&self) -> bool {
        &&& table_ok(table(self.transitions@), self.intervals.len() as int)
        &&& self.accept.len() == self.transitions.len()
        &&& (self.transitions.len() > 0 ==> self.start_state < self.transitions.len())
    }
}

/// The entries of class `c` down the rows.
pub open spec fn column(t: Seq<Seq<Option<usize>>>, c: int) -> Seq<Option<usize>> {
    Seq::new(t.len(), |s: int| t[s][c])
}

/// Whether no class before `c` has the same column.
pub open spec fn first_of_kind(t: Seq<Seq<Option<usize>>>, c: int) -> bool {
    forall|d: int| 0 <= d < c ==> column(t, d) != column(t, c)
}

/// The classes below `k` whose column is the first of its kind.
pub open spec fn firsts(t: Seq<Seq<Option<usize>>>, k: nat) -> Seq<int>
    decreases k,
{
    if k == 0 {
        seq![]
    } else {
        firsts(t, (k - 1) as nat) + if first_of_kind(t, k - 1) {
            seq![k - 1]
        } else {
            seq![]
        }
    }
}

/// The last class below `k` with the same column as `c` (`c` itself when
/// there is none after it).
pub open spec fn last_like(t: Seq<Seq<Option<usize>>>, c: int, k: nat) -> int
    decreases k,
{
    if k == 0 || k - 1 <= c {
        c
    } else if column(t, k - 1) == column(t, c) {
        k - 1
    } else {
        last_like(t, c, (k - 1) as nat)
    }
}

/// The classes after merging classes with equal columns: each group is
/// spanned from its first class's start to its last class's end.
pub open spec fn merged_classes(t: Seq<Seq<Option<usize>>>, classes: Seq<(u32, u32)>) -> Seq<
    (u32, u32),
> {
    firsts(t, classes.len()).map_values(
        |c: int| (classes[c].0, classes[last_like(t, c, classes.len())].1),
    )
}

/// The table after merging classes with equal columns.
pub open spec fn merged_table(t: Seq<Seq<Option<usize>>>, nc: nat) -> Seq<Seq<Option<usize>>> {
    t.map_values(|row: Seq<Option<usize>>| firsts(t, nc).map_values(|c: int| row[c]))
}

/// Whether merging changes anything: more than one class, and two of them
/// with equal columns.
pub open spec fn merges(t: Seq<Seq<Option<usize>>>, nc: nat) -> bool {
    nc > 1 && firsts(t, nc).len() < nc
}

/// Whether a class before `i` has the same column as `x`.
pub open spec fn seen(t: Seq<Seq<Option<usize>>>, x: int, i: int) -> bool {
    exists|d: int| 0 <= d < i && column(t, d) == column(t, x)
}

pub proof fn lemma_firsts_len(t: Seq<Seq<Option<usize>>>, k: nat)
    ensures
        firsts(t, k).len() <= k,
        forall|g: int| 0 <= g < firsts(t, k).len() ==> 0 <= #[trigger] firsts(t, k)[g] < k,
    decreases k,
{
    if k > 0 {
        lemma_firsts_len(t, (k - 1) as nat);
        let f = firsts(t, (k - 1) as nat);
        if first_of_kind(t, k - 1) {
            let h = f + seq![k - 1];
            assert forall|g: int| 0 <= g < h.len() implies 0 <= #[trigger] h[g] < k by {
                if g < f.len() {
                    assert(h[g] == f[g]);
                }
            }
        } else {
            assert(f + seq![] =~= f);
        }
    }
}

/// Whether classes `a` and `b` lead to the same states from every state.
fn same_column(transitions: &Vec<Vec<Option<usize>>>, a: usize, b: usize, nc: usize) -> (r: bool)
    requires
        table_ok(table(transitions@), nc as int),
        a < nc,
        b < nc,
    ensures
        r == (column(table(transitions@), a as int) == column(table(transitions@), b as int)),
{
    let ghost t = table(transitions@);
    let mut s: usize = 0;
    while s < transitions.len()
        invariant
            t == table(transitions@),
            table_ok(t, nc as int),
            a < nc,
            b < nc,
            s <= transitions.len(),
            forall|k: int| 0 <= k < s ==> t[k][a as int] == t[k][b as int],
        decreases transitions.len() - s,
    {
        assert(transitions@[s as int]@ == t[s as int]);
        if transitions[s][a] != transitions[s][b] {
            assert(column(t, a as int)[s as int] != column(t, b as int)[s as int]);
            return false;
        }
        s = s + 1;
    }
    assert(column(t, a as int) =~= column(t, b as int));
    true
}

impl DFA {
    /// Merges character classes whose columns are equal: each group keeps
    /// its first class's column and spans from its first class's start to
    /// its last class's end.
    pub fn merge_columns(&mut self)
        requires
            old(self).wf(),
        ensures
            final(self).wf(),
            final(self).accept == old(self).accept,
            final(self).start_state == old(self).start_state,
            final(self).transitions.len() == old(self).transitions.len(),
            merges(table(old(self).transitions@), old(self).intervals.len() as nat) ==> {
                &&& table(final(self).transitions@) == merged_table(
                    table(old(self).transitions@),
                    old(self).intervals.len() as nat,
                )
                &&& final(self).intervals@ == merged_classes(
                    table(old(self).transitions@),
                    old(self).intervals@,
                )
            },
            !merges(table(old(self).transitions@), old(self).intervals.len() as nat) ==> {
                &&& final(self).transitions == old(self).transitions
                &&& final(self).intervals == old(self).intervals
            },
    {
        let ghost t = table(self.transitions@);
        let num_classes = self.intervals.len();
        if num_classes <= 1 {
            return ;
        }
        let ghost nc = num_classes as nat;
        let mut used: Vec<bool> = Vec::new();
        let mut k: usize = 0;
        while k < num_classes
            invariant
                k <= num_classes,
                used.len() == k,
                forall|x: int| 0 <= x < k ==> !used@[x],
            decreases num_classes - k,
        {
            used.push(false);
            k = k + 1;
        }
        let mut merged: Vec<Vec<usize>> = Vec::new();
        let mut i: usize = 0;
        while i < num_classes
            invariant
                t == table(self.transitions@),
                self.wf(),
                nc == num_classes,
                num_classes == self.intervals.len(),
                i <= num_classes,
                used.len() == num_classes,
                forall|x: int| 0 <= x < num_classes ==> #[trigger] used@[x] == seen(t, x, i as int),
                merged.len() == firsts(t, i as nat).len(),
                forall|g: int|
                    0 <= g < merged.len() ==> {
                        &&& (#[trigger] merged@[g]).len() > 0
                        &&& merged@[g]@[0] == firsts(t, i as nat)[g]
                        &&& merged@[g]@.last() == last_like(t, firsts(t, i as nat)[g], nc)
                        &&& merged@[g]@.last() < num_classes
                    },
            decreases num_classes - i,
        {
            let ghost f0 = firsts(t, i as nat);
            if used[i] {
                proof {
                    assert(!first_of_kind(t, i as int));
                    assert(firsts(t, (i + 1) as nat) == f0 + seq![]);
                    assert(firsts(t, (i + 1) as nat) =~= f0);
                    assert forall|x: int| 0 <= x < num_classes implies #[trigger] used@[x] == seen(
                        t,
                        x,
                        i + 1,
                    ) by {
                        if seen(t, x, i + 1) && !seen(t, x, i as int) {
                            let d0 = choose|d: int| 0 <= d < i && column(t, d) == column(t, i as int);
                            assert(column(t, d0) == column(t, x));
                        }
                    }
                }
                i = i + 1;
                continue ;
            }
            proof {
                assert(first_of_kind(t, i as int)) by {
                    assert forall|d: int| 0 <= d < i implies column(t, d) != column(t, i as int) by {
                        if column(t, d) == column(t, i as int) {
                            assert(seen(t, i as int, i as int));
                        }
                    }
                }
            }
            let mut group: Vec<usize> = Vec::new();
            group.push(i);
            used.set(i, true);
            let mut j: usize = i + 1;
            while j < num_classes
                invariant
                    t == table(self.transitions@),
                    self.wf(),
                    nc == num_classes,
                    num_classes == self.intervals.len(),
                    i < j <= num_classes,
                    used.len() == num_classes,
                    first_of_kind(t, i as int),
                    forall|x: int|
                        0 <= x < num_classes ==> #[trigger] used@[x] == (seen(t, x, i as int) || (
                        i <= x < j && column(t, x) == column(t, i as int))),
                    group.len() > 0,
                    group@[0] == i,
                    group@.last() == last_like(t, i as int, j as nat),
                    group@.last() < num_classes,
                decreases num_classes - j,
            {
                if !used[j] && same_column(&self.transitions, i, j, num_classes) {
                    used.set(j, true);
                    group.push(j);
                }
                proof {
                    if column(t, j as int) == column(t, i as int) {
                        assert(!seen(t, j as int, i as int)) by {
                            if seen(t, j as int, i as int) {
                                let d = choose|d: int| 0 <= d < i && column(t, d) == column(t, j as int);
                                assert(column(t, d) == column(t, i as int));
                            }
                        }
                    }
                }
                j = j + 1;
            }
            let ghost gv = group@;
            merged.push(group);
            proof {
                assert(firsts(t, (i + 1) as nat) == f0 + seq![i as int]);
                assert forall|x: int| 0 <= x < num_classes implies #[trigger] used@[x] == seen(
                    t,
                    x,
                    i + 1,
                ) by {
                    if column(t, x) == column(t, i as int) && x < i {
                        assert(seen(t, x, i as int));
                    }
                    if seen(t, x, i + 1) && !seen(t, x, i as int) {
                        assert(column(t, i as int) == column(t, x));
                    }
                    if used@[x] && !seen(t, x, i as int) {
                        assert(seen(t, x, i + 1));
                    }
                }
            }
            i = i + 1;
        }
        let ghost reps = firsts(t, nc);
        proof {
            lemma_firsts_len(t, nc);
        }
        if merged.len() == num_classes {
            return ;
        }
        let mut new_intervals: Vec<(u32, u32)> = Vec::new();
        let mut g: usize = 0;
        while g < merged.len()
            invariant
                t == table(self.transitions@),
                self.wf(),
                reps == firsts(t, nc),
                nc == num_classes,
                num_classes == self.intervals.len(),
                merged.len() == reps.len(),
                forall|h: int|
                    0 <= h < merged.len() ==> {
                        &&& (#[trigger] merged@[h]).len() > 0
                        &&& merged@[h]@[0] == reps[h]
                        &&& merged@[h]@.last() == last_like(t, reps[h], nc)
                        &&& merged@[h]@.last() < num_classes
                    },
                g <= merged.len(),
                new_intervals@ == merged_classes(t, self.intervals@).take(g as int),
            decreases merged.len() - g,
        {
            let group = &merged[g];
            let first = group[0];
            let last = group[group.len() - 1];
            assert(merged@[g as int]@.last() == group@[group.len() - 1]);
            new_intervals.push((self.intervals[first].0, self.intervals[last].1));
            g = g + 1;
            assert(new_intervals@ =~= merged_classes(t, self.intervals@).take(g as int));
        }
        assert(merged_classes(t, self.intervals@).take(g as int) =~= merged_classes(t, self.intervals@));
        let mut new_transitions: Vec<Vec<Option<usize>>> = Vec::new();
        let mut r: usize = 0;
        while r < self.transitions.len()
            invariant
                t == table(self.transitions@),
                self.wf(),
                reps == firsts(t, nc),
                nc == num_classes,
                num_classes == self.intervals.len(),
                merged.len() == reps.len(),
                forall|h: int|
                    0 <= h < merged.len() ==> {
                        &&& (#[trigger] merged@[h]).len() > 0
                        &&& merged@[h]@[0] == reps[h]
                        &&& merged@[h]@[0] < num_classes
                    },
                r <= self.transitions.len(),
                table(new_transitions@) == merged_table(t, nc).take(r as int),
            decreases self.transitions.len() - r,
        {
            let mut row: Vec<Option<usize>> = Vec::new();
            let mut h: usize = 0;
            assert(self.transitions@[r as int]@ == t[r as int]);
            while h < merged.len()
                invariant
                    t == table(self.transitions@),
                    self.wf(),
                    reps == firsts(t, nc),
                    num_classes == self.intervals.len(),
                    r < self.transitions.len(),
                    merged.len() == reps.len(),
                    forall|h2: int|
                        0 <= h2 < merged.len() ==> {
                            &&& (#[trigger] merged@[h2]).len() > 0
                            &&& merged@[h2]@[0] == reps[h2]
                            &&& merged@[h2]@[0] < num_classes
                        },
                    h <= merged.len(),
                    row@ == reps.take(h as int).map_values(|c: int| t[r as int][c]),
                decreases merged.len() - h,
            {
                let c = merged[h][0];
                row.push(self.transitions[r][c]);
                h = h + 1;
                assert(row@ =~= reps.take(h as int).map_values(|c: int| t[r as int][c]));
            }
            assert(reps.take(h as int) =~= reps);
            let ghost before = new_transitions@;
            let ghost rv = row@;
            assert(rv == merged_table(t, nc)[r as int]);
            new_transitions.push(row);
            assert(table(new_transitions@) =~= table(before).push(rv));
            assert(merged_table(t, nc).take(r + 1) =~= merged_table(t, nc).take(r as int).push(rv));
            r = r + 1;
        }
        assert(merged_table(t, nc).take(r as int) =~= merged_table(t, nc));
        proof {
            let nt = merged_table(t, nc);
            assert forall|s: int, c: int|
                0 <= s < nt.len() && 0 <= c < nt[s].len() && (#[trigger] nt[s][c]) is Some implies nt[s][c]->0
                < nt.len() by {
                assert(nt[s] == reps.map_values(|d: int| t[s][d]));
                assert(nt[s][c] == t[s][reps[c]]);
                assert(0 <= reps[c] < nc);
            }
        }
        self.transitions = new_transitions;
        self.intervals = new_intervals;
    }
}

pub open spec fn pow2(n: nat) -> nat
    decreases n,
{
    if n == 0 {
        1
    } else {
        2 * pow2((n - 1) as nat)
    }
}

/// A finite family of sets of states below `n` has at most `2^n` members.
proof fn lemma_family_bound(f: Set<Set<int>>, n: nat)
    requires
        f.finite(),
        forall|s: Set<int>| #[trigger] f.contains(s) ==> within(s, n as int),
    ensures
        f.len() <= pow2(n),
    decreases n,
{
    if n == 0 {
        let one = Set::<Set<int>>::empty().insert(Set::<int>::empty());
        assert forall|s: Set<int>| f.contains(s) implies one.contains(s) by {
            assert(s =~= Set::<int>::empty());
        }
        lemma_len_subset(f, one);
    } else {
        let m = n - 1;
        let f1 = f.filter(|s: Set<int>| s.contains(m));
        let f2 = f.filter(|s: Set<int>| !s.contains(m));
        lemma_len_subset(f1, f);
        lemma_len_subset(f2, f);
        let rm = |s: Set<int>| s.remove(m);
        let g1 = f1.map(rm);
        assert(vstd::relations::injective_on(rm, f1)) by {
            assert forall|a: Set<int>, b: Set<int>|
                f1.contains(a) && f1.contains(b) && #[trigger] rm(a) == #[trigger] rm(b) implies a == b by {
                assert(a =~= rm(a).insert(m));
                assert(b =~= rm(b).insert(m));
            }
        }
        lemma_map_size(f1, g1, rm);
        assert forall|s: Set<int>| #[trigger] g1.contains(s) implies within(s, m as int) by {
            let a = choose|a: Set<int>| f1.contains(a) && rm(a) == s;
            assert(within(a, n as int));
        }
        assert forall|s: Set<int>| #[trigger] f2.contains(s) implies within(s, m as int) by {
            assert(within(s, n as int));
        }
        lemma_family_bound(g1, m as nat);
        lemma_family_bound(f2, m as nat);
        assert(f =~= f1 + f2);
        vstd::set_lib::lemma_set_disjoint_lens(f1, f2);
    }
}

/// A list of distinct sets of states below `n` has at most `2^n` entries.
proof fn lemma_distinct_sets_bound(sets: Seq<Set<int>>, n: nat)
    requires
        forall|i: int, j: int| 0 <= i < j < sets.len() ==> sets[i] != sets[j],
        forall|i: int| 0 <= i < sets.len() ==> within(#[trigger] sets[i], n as int),
    ensures
        sets.len() <= pow2(n),
{
    assert(sets.no_duplicates()) by {
        assert forall|i: int, j: int| 0 <= i < sets.len() && 0 <= j < sets.len() && i != j implies sets[i]
            != sets[j] by {
            if i > j {
                assert(sets[j] != sets[i]);
            }
        }
    }
    sets.unique_seq_to_set();
    vstd::seq_lib::seq_to_set_is_finite(sets);
    assert forall|s: Set<int>| #[trigger] sets.to_set().contains(s) implies within(s, n as int) by {
        let i = choose|i: int| 0 <= i < sets.len() && sets[i] == s;
    }
    lemma_family_bound(sets.to_set(), n);
}

/// The smallest token among the accept states in `set` (the first of
/// equal ones), if any.
pub open spec fn best_token(accepts: Seq<(usize, usize)>, set: Set<int>) -> Option<usize>
    decreases accepts.len(),
{
    if accepts.len() == 0 {
        None
    } else {
        let b = best_token(accepts.drop_last(), set);
        let (sid, tok) = accepts.last();
        if set.contains(sid as int) && (b is None || tok < b->0) {
            Some(tok)
        } else {
            b
        }
    }
}

/// Whether entry `c` of row `i` is right: no entry when reading the class's
/// first code point leads nowhere, else the state whose set is reached.
pub open spec fn entry_ok(
    g: Seq<Seq<Edge>>,
    classes: Seq<(u32, u32)>,
    sets: Seq<Set<int>>,
    e: Option<usize>,
    i: int,
    c: int,
) -> bool {
    match e {
        None => next_set(g, sets[i], classes[c].0) == Set::<int>::empty(),
        Some(j) => j < sets.len() && sets[j as int] == next_set(g, sets[i], classes[c].0),
    }
}

/// `sets` and `t` form the subset automaton of `g`: state 0 is the closure
/// of the start state, the states are distinct sets, each entry follows
/// the sets, and every other state is entered from an earlier one.
pub open spec fn subset_table(
    g: Seq<Seq<Edge>>,
    start: int,
    classes: Seq<(u32, u32)>,
    sets: Seq<Set<int>>,
    t: Seq<Seq<Option<usize>>>,
) -> bool {
    &&& sets.len() == t.len()
    &&& sets.len() > 0
    &&& sets[0] == eps_closure(g, Set::<int>::empty().insert(start))
    &&& forall|i: int, j: int| 0 <= i < j < sets.len() ==> sets[i] != sets[j]
    &&& forall|i: int| 0 <= i < t.len() ==> #[trigger] t[i].len() == classes.len()
    &&& forall|i: int, c: int|
        0 <= i < t.len() && 0 <= c < classes.len() ==> entry_ok(g, classes, sets, #[trigger] t[i][c], i, c)
    &&& forall|j: int| 1 <= j < t.len() ==> #[trigger] entered(t, classes.len() as int, j)
}

/// Whether `j` occurs in `t` before entry `c` of row `i`, reading the rows
/// in order and each row class by class.
pub open spec fn occurs_before(t: Seq<Seq<Option<usize>>>, i: int, c: int, j: int) -> bool {
    exists|i2: int, c2: int|
        0 <= i2 <= i && 0 <= c2 < t[i2].len() && (i2 < i || c2 < c) && #[trigger] t[i2][c2] == Some(
            j as usize,
        )
}

/// States are numbered in the order they first occur: every entry that
/// leads to state `x` comes after an occurrence of each state from 1 to
/// `x - 1`.
pub open spec fn numbered_in_order(t: Seq<Seq<Option<usize>>>) -> bool {
    forall|i: int, c: int, j: int|
        0 <= i < t.len() && 0 <= c < t[i].len() && 1 <= j && t[i][c] is Some && j < t[i][c]->0
            ==> #[trigger] occurs_before(t, i, c, j)
}

/// Whether an entry of a row before `j` leads to `j`.
pub open spec fn entered(t: Seq<Seq<Option<usize>>>, nc: int, j: int) -> bool {
    exists|i: int, c: int| 0 <= i < j && 0 <= c < nc && #[trigger] t[i][c] == Some(j as usize)
}

/// The table and classes after merging equal columns.
pub open spec fn merged(t: Seq<Seq<Option<usize>>>, classes: Seq<(u32, u32)>) -> (
    Seq<Seq<Option<usize>>>,
    Seq<(u32, u32)>,
) {
    if merges(t, classes.len()) {
        (merged_table(t, classes.len()), merged_classes(t, classes))
    } else {
        (t, classes)
    }
}

/// The DFA that `build_dfa` makes of the automaton with graph `g`: the
/// subset automaton over its character classes, states numbered in the
/// order they are reached, with equal columns merged.
pub open spec fn dfa_of(
    g: Seq<Seq<Edge>>,
    start: int,
    accepts: Seq<(usize, usize)>,
    dfa: DFA,
) -> bool {
    let classes = classes_of(class_bounds(g));
    exists|sets: Seq<Set<int>>, t: Seq<Seq<Option<usize>>>|
        {
            &&& #[trigger] subset_table(g, start, classes, sets, t)
            &&& numbered_in_order(t)
            &&& dfa.accept@ == sets.map_values(|s: Set<int>| best_token(accepts, s))
            &&& (table(dfa.transitions@), dfa.intervals@) == merged(t, classes)
        }
}

fn best_token_of(nfa: &NFA, set: &BitSet) -> (r: Option<usize>)
    ensures
        r == best_token(nfa.accepts@, set@),
{
    let mut best: Option<usize> = None;
    let mut i: usize = 0;
    while i < nfa.accepts.len()
        invariant
            i <= nfa.accepts.len(),
            best == best_token(nfa.accepts@.take(i as int), set@),
        decreases nfa.accepts.len() - i,
    {
        let (state_id, token_id) = nfa.accepts[i];
        assert(nfa.accepts@.take(i + 1).drop_last() =~= nfa.accepts@.take(i as int));
        if set.contains(state_id) && (best.is_none() || token_id < best.unwrap()) {
            best = Some(token_id);
        }
        i = i + 1;
    }
    assert(nfa.accepts@.take(i as int) =~= nfa.accepts@);
    best
}

/// The DFA successor of `set` on the code point `cp`; `None` when no state
/// is reached.
fn successor(nfa: &NFA, set: &BitSet, cp: u32) -> (r: Option<BitSet>)
    requires
        targets_ok(graph(nfa.states@)),
        within(set@, nfa.states@.len() as int),
    ensures
        match r {
            None => next_set(graph(nfa.states@), set@, cp) == Set::<int>::empty(),
            Some(b) => b@ == next_set(graph(nfa.states@), set@, cp) && b@ != Set::<int>::empty(),
        },
{
    let next = move_on_codepoint(nfa, set, cp);
    if next.is_empty() {
        None
    } else {
        Some(next)
    }
}

/// The successors of `set` on the first code point of each class, worked
/// out in parallel by rayon's `par_iter().map(..).collect()`, which keeps
/// the order of the classes. The contract claims that entry `c` is what
/// `successor` returns for class `c`.
#[verifier::external_body]
fn successors(nfa: &NFA, set: &BitSet, classes: &[(u32, u32)]) -> (r: Vec<Option<BitSet>>)
    requires
        targets_ok(graph(nfa.states@)),
        within(set@, nfa.states@.len() as int),
    ensures
        r.len() == classes.len(),
        forall|c: int|
            0 <= c < classes.len() ==> match #[trigger] r@[c] {
                None => next_set(graph(nfa.states@), set@, classes@[c].0) == Set::<int>::empty(),
                Some(b) => b@ == next_set(graph(nfa.states@), set@, classes@[c].0) && b@ != Set::<
                    int,
                >::empty(),
            },
{
    classes.par_iter().map(|&(start_cp, _)| successor(nfa, set, start_cp)).collect()
}

/// The index of the state whose set equals `target`, if there is one.
fn find_state(states: &Vec<BitSet>, target: &BitSet) -> (r: Option<usize>)
    ensures
        match r {
            Some(i) => i < states.len() && states@[i as int]@ == target@,
            None => forall|i: int| 0 <= i < states.len() ==> (#[trigger] states@[i])@ != target@,
        },
{
    let mut i: usize = 0;
    while i < states.len()
        invariant
            i <= states.len(),
            forall|k: int| 0 <= k < i ==> (#[trigger] states@[k])@ != target@,
        decreases states.len() - i,
    {
        if states[i].same_elements(target) {
            return Some(i);
        }
        i = i + 1;
    }
    None
}

/// A row without transitions.
fn empty_row(n: usize) -> (row: Vec<Option<usize>>)
    ensures
        row.len() == n,
        forall|c: int| 0 <= c < n ==> #[trigger] row@[c] is None,
{
    let mut row: Vec<Option<usize>> = Vec::new();
    let mut i: usize = 0;
    while i < n
        invariant
            i <= n,
            row.len() == i,
            forall|c: int| 0 <= c < i ==> #[trigger] row@[c] is None,
        decreases n - i,
    {
        row.push(None);
        i = i + 1;
    }
    row
}

/// Whether one of the first `c` entries of `row` leads to `j`.
pub open spec fn listed(row: Seq<Option<usize>>, c: int, j: int) -> bool {
    exists|k: int| 0 <= k < c && #[trigger] row[k] == Some(j as usize)
}

/// The sets of states of a list of bit sets.
pub open spec fn views(v: Seq<BitSet>) -> Seq<Set<int>> {
    v.map_values(|b: BitSet| b@)
}

/// The DFA of the automaton: subset construction over the character
/// classes of its edges, with classes of equal columns merged.
pub fn build_dfa(nfa: &NFA) -> (dfa: DFA)
    requires
        nfa.wf(),
        edges_ok(graph(nfa.states@)),
    ensures
        dfa_of(graph(nfa.states@), nfa.start as int, nfa.accepts@, dfa),
        dfa.start_state == 0,
        dfa.wf(),
{
    let ghost g = graph(nfa.states@);
    let ghost n = nfa.states@.len();
    let boundaries = collect_boundaries(nfa);
    let intervals = build_intervals(boundaries.as_slice());
    let ghost classes = intervals@;
    let num_classes = intervals.len();
    let mut first = empty_set(nfa.states.len());
    first.add(nfa.start);
    let start_set = epsilon_closure(nfa, &first);
    proof {
        lemma_closure_within(g, first@);
    }
    let mut dfa_states: Vec<BitSet> = Vec::new();
    dfa_states.push(start_set);
    let mut dfa_trans: Vec<Vec<Option<usize>>> = Vec::new();
    dfa_trans.push(empty_row(num_classes));
    let mut head: usize = 0;
    proof {
        assert(views(dfa_states@).len() == 1);
        lemma_distinct_sets_bound(views(dfa_states@), n);
    }
    while head < dfa_states.len()
        invariant
            g == graph(nfa.states@),
            n == nfa.states@.len(),
            nfa.wf(),
            classes == intervals@,
            classes == classes_of(class_bounds(g)),
            num_classes == intervals.len(),
            views(dfa_states@).len() == table(dfa_trans@).len(),
            dfa_states.len() > 0,
            views(dfa_states@)[0] == eps_closure(g, Set::<int>::empty().insert(nfa.start as int)),
            forall|i: int, j: int|
                0 <= i < j < dfa_states.len() ==> views(dfa_states@)[i] != views(dfa_states@)[j],
            forall|i: int| 0 <= i < dfa_states.len() ==> within(#[trigger] views(dfa_states@)[i], n as int),
            forall|i: int| 0 <= i < dfa_trans.len() ==> #[trigger] table(dfa_trans@)[i].len() == num_classes,
            forall|i: int, c: int|
                0 <= i < head && 0 <= c < num_classes ==> entry_ok(
                    g,
                    classes,
                    views(dfa_states@),
                    #[trigger] table(dfa_trans@)[i][c],
                    i,
                    c,
                ),
            forall|i: int, c: int|
                head <= i < dfa_trans.len() && 0 <= c < num_classes ==> #[trigger] table(dfa_trans@)[i][c] is None,
            forall|j: int| 1 <= j < dfa_trans.len() ==> #[trigger] entered(table(dfa_trans@), num_classes as int, j),
            forall|i: int, c: int, j: int|
                0 <= i < head && 0 <= c < num_classes && 1 <= j && table(dfa_trans@)[i][c] is Some && j < table(
                    dfa_trans@,
                )[i][c]->0 ==> #[trigger] occurs_before(table(dfa_trans@), i, c, j),
            head <= dfa_states.len() <= pow2(n),
        decreases pow2(n) - head,
    {
        let id = head;
        let set = dfa_states[id].duplicate();
        let ghost sets0 = views(dfa_states@);
        let ghost t0 = table(dfa_trans@);
        let ghost len0 = dfa_states.len();
        assert(set@ == sets0[id as int]);
        let next_sets = successors(nfa, &set, intervals.as_slice());
        proof {
            assert forall|j: int| 1 <= j < len0 implies #[trigger] occurs_before(t0, id as int, 0, j) by {
                assert(entered(t0, num_classes as int, j));
                let (i, k) = choose|i: int, k: int|
                    0 <= i < j && 0 <= k < num_classes && #[trigger] t0[i][k] == Some(j as usize);
                if i >= head {
                    assert(t0[i][k] is None);
                }
            }
        }
        let mut row: Vec<Option<usize>> = Vec::new();
        let mut c: usize = 0;
        while c < num_classes
            invariant
                g == graph(nfa.states@),
                n == nfa.states@.len(),
                nfa.wf(),
                classes == intervals@,
                num_classes == intervals.len(),
                next_sets.len() == num_classes,
                forall|k: int|
                    0 <= k < num_classes ==> match #[trigger] next_sets@[k] {
                        None => next_set(g, set@, classes[k].0) == Set::<int>::empty(),
                        Some(b) => b@ == next_set(g, set@, classes[k].0) && b@ != Set::<int>::empty(),
                    },
                id < len0 <= dfa_states.len(),
                set@ == sets0[id as int],
                views(dfa_states@).len() == table(dfa_trans@).len(),
                views(dfa_states@).take(len0 as int) == sets0,
                forall|i: int| 0 <= i < len0 ==> #[trigger] table(dfa_trans@)[i] == t0[i],
                forall|i: int, k: int|
                    len0 <= i < dfa_trans.len() && 0 <= k < num_classes ==> #[trigger] table(dfa_trans@)[i][k] is None,
                forall|i: int| len0 <= i < dfa_trans.len() ==> #[trigger] table(dfa_trans@)[i].len() == num_classes,
                forall|i: int, j: int|
                    0 <= i < j < dfa_states.len() ==> views(dfa_states@)[i] != views(dfa_states@)[j],
                forall|i: int| 0 <= i < dfa_states.len() ==> within(#[trigger] views(dfa_states@)[i], n as int),
                dfa_states.len() <= pow2(n),
                c <= num_classes,
                row.len() == c,
                forall|k: int|
                    0 <= k < c ==> entry_ok(g, classes, views(dfa_states@), #[trigger] row@[k], id as int, k),
                forall|j: int| len0 <= j < dfa_states.len() ==> #[trigger] listed(row@, c as int, j),
                forall|j: int| 1 <= j < len0 ==> #[trigger] occurs_before(t0, id as int, 0, j),
                forall|k: int, j: int|
                    0 <= k < c && 1 <= j && row@[k] is Some && j < row@[k]->0 ==> occurs_before(t0, id as int, 0, j)
                        || #[trigger] listed(row@, k, j),
            decreases num_classes - c,
        {
            let ghost sets1 = views(dfa_states@);
            match &next_sets[c] {
                Some(next_set) => {
                    let found = find_state(&dfa_states, next_set);
                    let next_id = match found {
                        Some(i) => {
                            assert(sets1[i as int] == next_set@);
                            i
                        },
                        None => {
                            let new_id = dfa_states.len();
                            let ghost t1 = table(dfa_trans@);
                            proof {
                                assert forall|i: int| 0 <= i < sets1.len() implies sets1[i] != next_set@ by {
                                    assert(dfa_states@[i]@ != next_set@);
                                }
                                lemma_closure_within(g, step_set(g, set@, classes[c as int].0));
                                lemma_distinct_sets_bound(sets1.push(next_set@), n);
                            }
                            dfa_states.push(next_set.duplicate());
                            dfa_trans.push(empty_row(num_classes));
                            proof {
                                assert(views(dfa_states@) =~= sets1.push(next_set@));
                                assert(views(dfa_states@).take(len0 as int) =~= sets0);
                                assert forall|i: int| 0 <= i < len0 implies #[trigger] table(dfa_trans@)[i] == t0[i] by {
                                    assert(table(dfa_trans@)[i] == t1[i]);
                                }
                                assert forall|i: int, k: int|
                                    len0 <= i < dfa_trans.len() && 0 <= k < num_classes implies #[trigger] table(
                                    dfa_trans@,
                                )[i][k] is None by {
                                    if i < t1.len() {
                                        assert(table(dfa_trans@)[i] == t1[i]);
                                    }
                                }
                                assert forall|i: int|
                                    len0 <= i < dfa_trans.len() implies #[trigger] table(dfa_trans@)[i].len()
                                    == num_classes by {
                                    if i < t1.len() {
                                        assert(table(dfa_trans@)[i] == t1[i]);
                                    }
                                }
                                assert forall|k: int| 0 <= k < c implies entry_ok(
                                    g,
                                    classes,
                                    views(dfa_states@),
                                    #[trigger] row@[k],
                                    id as int,
                                    k,
                                ) by {
                                    assert(entry_ok(g, classes, sets1, row@[k], id as int, k));
                                    assert(views(dfa_states@)[id as int] == sets1[id as int]);
                                    match row@[k] {
                                        Some(j) => {
                                            assert(views(dfa_states@)[j as int] == sets1[j as int]);
                                        },
                                        None => {},
                                    }
                                }
                            }
                            new_id
                        },
                    };
                    let ghost before = row@;
                    let ghost len_now = dfa_states.len();
                    row.push(Some(next_id));
                    proof {
                        assert forall|k: int, j: int|
                            0 <= k < c + 1 && 1 <= j && row@[k] is Some && j < row@[k]->0 implies occurs_before(
                                t0,
                                id as int,
                                0,
                                j,
                            ) || #[trigger] listed(row@, k, j) by {
                            if k < c {
                                assert(row@[k] == before[k]);
                                if listed(before, k, j) {
                                    let k2 = choose|k2: int| 0 <= k2 < k && #[trigger] before[k2] == Some(j as usize);
                                    assert(row@[k2] == before[k2]);
                                }
                            } else if j >= len0 {
                                assert(j < len_now);
                                assert(listed(before, c as int, j));
                                let k2 = choose|k2: int| 0 <= k2 < c && #[trigger] before[k2] == Some(j as usize);
                                assert(row@[k2] == before[k2]);
                            }
                        }
                        assert(views(dfa_states@)[id as int] == sets0[id as int]);
                        assert(entry_ok(g, classes, views(dfa_states@), row@[c as int], id as int, c as int));
                        assert forall|j: int| len0 <= j < dfa_states.len() implies #[trigger] listed(
                            row@,
                            c + 1,
                            j,
                        ) by {
                            if j == next_id as int && j >= sets1.len() {
                                assert(row@[c as int] == Some(j as usize));
                            } else {
                                assert(listed(before, c as int, j));
                                let k = choose|k: int| 0 <= k < c && #[trigger] before[k] == Some(j as usize);
                                assert(row@[k] == before[k]);
                            }
                        }
                    }
                },
                None => {
                    let ghost before = row@;
                    row.push(None);
                    proof {
                        assert forall|k: int, j: int|
                            0 <= k < c + 1 && 1 <= j && row@[k] is Some && j < row@[k]->0 implies occurs_before(
                                t0,
                                id as int,
                                0,
                                j,
                            ) || #[trigger] listed(row@, k, j) by {
                            assert(row@[k] == before[k]);
                            if listed(before, k, j) {
                                let k2 = choose|k2: int| 0 <= k2 < k && #[trigger] before[k2] == Some(j as usize);
                                assert(row@[k2] == before[k2]);
                            }
                        }
                        assert(entry_ok(g, classes, views(dfa_states@), row@[c as int], id as int, c as int));
                        assert forall|j: int| len0 <= j < dfa_states.len() implies #[trigger] listed(
                            row@,
                            c + 1,
                            j,
                        ) by {
                            assert(listed(before, c as int, j));
                            let k = choose|k: int| 0 <= k < c && #[trigger] before[k] == Some(j as usize);
                            assert(row@[k] == before[k]);
                        }
                    }
                },
            }
            c = c + 1;
        }
        let ghost sets2 = views(dfa_states@);
        let ghost t2 = table(dfa_trans@);
        let ghost rv = row@;
        dfa_trans.set(id, row);
        proof {
            let t3 = table(dfa_trans@);
            assert(t3 =~= t2.update(id as int, rv));
            assert forall|i: int, k: int|
                0 <= i < head + 1 && 0 <= k < num_classes implies entry_ok(
                g,
                classes,
                sets2,
                #[trigger] t3[i][k],
                i,
                k,
            ) by {
                if i < id {
                    assert(t3[i] == t0[i]);
                    assert(entry_ok(g, classes, sets0, t0[i][k], i, k));
                    assert(sets2[i] == sets0[i]);
                    match t0[i][k] {
                        Some(j) => {
                            assert(sets2[j as int] == sets0[j as int]);
                        },
                        None => {},
                    }
                } else {
                    assert(t3[i][k] == rv[k]);
                }
            }
            assert forall|j: int| 1 <= j < dfa_trans.len() implies #[trigger] entered(t3, num_classes as int, j) by {
                if j < len0 {
                    assert(entered(t0, num_classes as int, j));
                    let (i, k) = choose|i: int, k: int|
                        0 <= i < j && 0 <= k < num_classes && #[trigger] t0[i][k] == Some(j as usize);
                    assert(i != id);
                    assert(t3[i] == t0[i]);
                } else {
                    assert(listed(rv, num_classes as int, j));
                    let k = choose|k: int| 0 <= k < num_classes && #[trigger] rv[k] == Some(j as usize);
                    assert(t3[id as int][k] == Some(j as usize));
                }
            }
            assert forall|i: int| 0 <= i < dfa_trans.len() implies #[trigger] t3[i].len() == num_classes by {
                if i < len0 && i != id {
                    assert(t3[i] == t0[i]);
                }
            }
            assert forall|i: int, k: int|
                head + 1 <= i < dfa_trans.len() && 0 <= k < num_classes implies #[trigger] t3[i][k] is None by {
                if i < len0 {
                    assert(t3[i] == t0[i]);
                }
            }
            assert forall|i: int, k: int, j: int|
                0 <= i < head + 1 && 0 <= k < num_classes && 1 <= j && t3[i][k] is Some && j < t3[i][k]->0
                    implies #[trigger] occurs_before(t3, i, k, j) by {
                if i < id {
                    assert(t3[i] == t0[i]);
                    assert(occurs_before(t0, i, k, j));
                    let (i2, c2) = choose|i2: int, c2: int|
                        0 <= i2 <= i && 0 <= c2 < t0[i2].len() && (i2 < i || c2 < k) && #[trigger] t0[i2][c2]
                            == Some(j as usize);
                    assert(t3[i2] == t0[i2]);
                } else {
                    assert(t3[i][k] == rv[k]);
                    if listed(rv, k, j) {
                        let k2 = choose|k2: int| 0 <= k2 < k && #[trigger] rv[k2] == Some(j as usize);
                        assert(t3[id as int][k2] == rv[k2]);
                    } else {
                        assert(occurs_before(t0, id as int, 0, j));
                        let (i2, c2) = choose|i2: int, c2: int|
                            0 <= i2 <= id && 0 <= c2 < t0[i2].len() && (i2 < id || c2 < 0) && #[trigger] t0[i2][c2]
                                == Some(j as usize);
                        assert(t3[i2] == t0[i2]);
                    }
                }
            }
        }
        head = head + 1;
    }
    let ghost sets = views(dfa_states@);
    let ghost t = table(dfa_trans@);
    let mut accept: Vec<Option<usize>> = Vec::new();
    let mut i: usize = 0;
    while i < dfa_states.len()
        invariant
            i <= dfa_states.len(),
            sets == views(dfa_states@),
            accept@ == sets.take(i as int).map_values(|s: Set<int>| best_token(nfa.accepts@, s)),
        decreases dfa_states.len() - i,
    {
        accept.push(best_token_of(nfa, &dfa_states[i]));
        i = i + 1;
        assert(accept@ =~= sets.take(i as int).map_values(|s: Set<int>| best_token(nfa.accepts@, s)));
    }
    assert(sets.take(i as int) =~= sets);
    proof {
        assert(subset_table(g, nfa.start as int, classes, sets, t));
        assert(numbered_in_order(t));
        assert forall|s: int, k: int|
            0 <= s < t.len() && 0 <= k < t[s].len() && (#[trigger] t[s][k]) is Some implies t[s][k]->0 < t.len() by {
            assert(entry_ok(g, classes, sets, t[s][k], s, k));
        }
    }
    let mut dfa = DFA { transitions: dfa_trans, accept, start_state: 0, intervals };
    dfa.merge_columns();
    proof {
        assert(dfa.accept@ == sets.map_values(|s: Set<int>| best_token(nfa.accepts@, s)));
        assert((table(dfa.transitions@), dfa.intervals@) == merged(t, classes));
    }
    dfa
}

/// The key that separates state `s` for class `c`: the block of its
/// successor, or `usize::MAX` when it has none.
pub open spec fn key_spec(t: Seq<Seq<Option<usize>>>, part: Seq<usize>, s: int, c: int) -> usize {
    match t[s][c] {
        Some(x) => part[x as int],
        None => usize::MAX,
    }
}

/// `part` puts every state in a block; every block is listed with at least
/// one state, and every state listed in block `p` is put in `p`.
pub open spec fn partition_ok(part: Seq<usize>, parts: Seq<Seq<usize>>, n: int) -> bool {
    &&& part.len() == n
    &&& forall|s: int| 0 <= s < n ==> #[trigger] part[s] < parts.len()
    &&& forall|p: int| 0 <= p < parts.len() ==> #[trigger] parts[p].len() > 0
    &&& forall|p: int, k: int|
        0 <= p < parts.len() && 0 <= k < parts[p].len() ==> #[trigger] parts[p][k] < n && part[parts[p][k] as int]
            == p
}

/// States in one block recognise the same token.
pub open spec fn respects(part: Seq<usize>, accept: Seq<Option<usize>>) -> bool {
    forall|s1: int, s2: int|
        #![trigger part[s1], part[s2]]
        0 <= s1 < part.len() && 0 <= s2 < part.len() && part[s1] == part[s2] ==> accept[s1] == accept[s2]
}

/// States that share a block in `new` share one in `old`.
pub open spec fn refines(new: Seq<usize>, old: Seq<usize>) -> bool {
    &&& new.len() == old.len()
    &&& forall|s1: int, s2: int|
        #![trigger new[s1], new[s2]]
        0 <= s1 < new.len() && 0 <= s2 < new.len() && new[s1] == new[s2] ==> old[s1] == old[s2]
}

/// The entry of a quotient row: the block of the successor.
pub open spec fn lift(part: Seq<usize>, e: Option<usize>) -> Option<usize> {
    match e {
        Some(x) => Some(part[x as int]),
        None => None,
    }
}

/// The automaton `(t2, accept2, start2)` is the quotient of `(t, accept,
/// start)` by the blocks of `part`, whose states recognise one token each:
/// block `p` behaves as its representative state `reps[p]`.
pub open spec fn quotient(
    t: Seq<Seq<Option<usize>>>,
    accept: Seq<Option<usize>>,
    start: int,
    part: Seq<usize>,
    reps: Seq<int>,
    t2: Seq<Seq<Option<usize>>>,
    accept2: Seq<Option<usize>>,
    start2: int,
) -> bool {
    &&& part.len() == t.len()
    &&& accept.len() == t.len()
    &&& reps.len() == t2.len()
    &&& accept2.len() == t2.len()
    &&& forall|s: int| 0 <= s < t.len() ==> #[trigger] part[s] < t2.len()
    &&& forall|p: int| 0 <= p < t2.len() ==> 0 <= #[trigger] reps[p] < t.len() && part[reps[p]] == p
    &&& respects(part, accept)
    &&& forall|p: int| 0 <= p < t2.len() ==> #[trigger] accept2[p] == accept[reps[p]]
    &&& forall|p: int| 0 <= p < t2.len() ==> #[trigger] t2[p] == t[reps[p]].map_values(
        |e: Option<usize>| lift(part, e),
    )
    &&& start2 == part[start]
}

/// Whether no sequence of `k` classes tells states `s1` and `s2` apart:
/// they recognise the same token and, for every class, both have no
/// transition or both lead to states that no `k - 1` classes tell apart.
pub open spec fn equiv(t: Seq<Seq<Option<usize>>>, accept: Seq<Option<usize>>, k: nat, s1: int, s2: int) -> bool
    decreases k,
{
    &&& accept[s1] == accept[s2]
    &&& k > 0 ==> forall|c: int|
        0 <= c < t[s1].len() ==> match (#[trigger] t[s1][c], t[s2][c]) {
            (None, None) => true,
            (Some(x), Some(y)) => equiv(t, accept, (k - 1) as nat, x as int, y as int),
            _ => false,
        }
}

/// Whether some sequence of classes tells `s1` and `s2` apart.
pub open spec fn apart(t: Seq<Seq<Option<usize>>>, accept: Seq<Option<usize>>, s1: int, s2: int) -> bool {
    exists|k: nat| !#[trigger] equiv(t, accept, k, s1, s2)
}

/// States in different blocks of `part` are told apart by some sequence of
/// classes.
pub open spec fn separated(t: Seq<Seq<Option<usize>>>, accept: Seq<Option<usize>>, part: Seq<usize>) -> bool {
    forall|s1: int, s2: int|
        #![trigger part[s1], part[s2]]
        0 <= s1 < part.len() && 0 <= s2 < part.len() && part[s1] != part[s2] ==> apart(t, accept, s1, s2)
}

/// The states of each block of `part` lead, on every class, into one block
/// (or all have no transition).
pub open spec fn stable(t: Seq<Seq<Option<usize>>>, part: Seq<usize>) -> bool {
    forall|s1: int, s2: int, c: int|
        #![trigger t[s1][c], t[s2][c], part[s1], part[s2]]
        0 <= s1 < part.len() && 0 <= s2 < part.len() && part[s1] == part[s2] && 0 <= c < t[s1].len() ==> lift(
            part,
            t[s1][c],
        ) == lift(part, t[s2][c])
}

/// The states of block `p` have equal keys for each of the first `nc`
/// classes.
pub open spec fn block_stable(t: Seq<Seq<Option<usize>>>, part: Seq<usize>, p: int, nc: int) -> bool {
    forall|s1: int, s2: int, c: int|
        #![trigger key_spec(t, part, s1, c), key_spec(t, part, s2, c)]
        0 <= s1 < part.len() && 0 <= s2 < part.len() && part[s1] == p && part[s2] == p && 0 <= c < nc
            ==> key_spec(t, part, s1, c) == key_spec(t, part, s2, c)
}

/// Whether `q` puts together every two states that `part` puts together.
pub open spec fn coarser(q: Seq<usize>, part: Seq<usize>) -> bool {
    &&& q.len() == part.len()
    &&& forall|s1: int, s2: int|
        #![trigger part[s1], part[s2]]
        0 <= s1 < part.len() && 0 <= s2 < part.len() && part[s1] == part[s2] ==> q[s1] == q[s2]
}

/// Block `p` of `part` was found stable against some partition that it
/// refines and that keeps tokens apart: on every class its states lead
/// into one block of that partition (or all have no transition).
pub open spec fn block_settled(t: Seq<Seq<Option<usize>>>, accept: Seq<Option<usize>>, part: Seq<usize>, p: int) -> bool {
    exists|q: Seq<usize>|
        #[trigger] coarser(q, part) && respects(q, accept) && forall|s1: int, s2: int, c: int|
            #![trigger t[s1][c], t[s2][c], part[s1], part[s2]]
            0 <= s1 < part.len() && 0 <= s2 < part.len() && part[s1] == p && part[s2] == p && 0 <= c < t[s1].len()
                ==> lift(q, t[s1][c]) == lift(q, t[s2][c])
}

/// Every block of `part` is settled.
pub open spec fn settled(t: Seq<Seq<Option<usize>>>, accept: Seq<Option<usize>>, part: Seq<usize>) -> bool {
    forall|s: int| 0 <= s < part.len() ==> #[trigger] block_settled(t, accept, part, part[s] as int)
}

/// `new` is the quotient of `old` by some partition into blocks of states
/// that recognise one token each, whose blocks only separate states that
/// some sequence of classes tells apart, and each of whose blocks was found
/// stable against a partition it refines.
pub open spec fn minimized(old: DFA, new: DFA) -> bool {
    exists|part: Seq<usize>, reps: Seq<int>|
        #[trigger] quotient(
            table(old.transitions@),
            old.accept@,
            old.start_state as int,
            part,
            reps,
            table(new.transitions@),
            new.accept@,
            new.start_state as int,
        ) && separated(table(old.transitions@), old.accept@, part) && settled(
            table(old.transitions@),
            old.accept@,
            part,
        )
}

/// Whether some state recognises `tok`.
pub open spec fn has_token(accept: Seq<Option<usize>>, tok: Option<usize>) -> bool {
    exists|s: int| 0 <= s < accept.len() && #[trigger] accept[s] == tok
}

/// Every state of a quotient recognises the token of the states of its
/// block, so the quotient has a state for each token of the automaton, and
/// no other tokens.
pub proof fn law_quotient_keeps_tokens(
    t: Seq<Seq<Option<usize>>>,
    accept: Seq<Option<usize>>,
    start: int,
    part: Seq<usize>,
    reps: Seq<int>,
    t2: Seq<Seq<Option<usize>>>,
    accept2: Seq<Option<usize>>,
    start2: int,
)
    requires
        quotient(t, accept, start, part, reps, t2, accept2, start2),
    ensures
        forall|s: int| 0 <= s < t.len() ==> #[trigger] accept2[part[s] as int] == accept[s],
        forall|p: int| 0 <= p < t2.len() ==> has_token(accept, #[trigger] accept2[p]),
        t2.len() <= t.len(),
{
    assert forall|s: int| 0 <= s < t.len() implies #[trigger] accept2[part[s] as int] == accept[s] by {
        let p = part[s] as int;
        assert(part[reps[p]] == part[s]);
    }
    assert forall|p: int| 0 <= p < t2.len() implies has_token(accept, #[trigger] accept2[p]) by {
        assert(accept[reps[p]] == accept2[p]);
    }
    lemma_reps_bound(part, reps, t.len(), t2.len());
}

/// Representatives of distinct blocks are distinct states, so there are no
/// more blocks than states.
proof fn lemma_reps_bound(part: Seq<usize>, reps: Seq<int>, n: nat, m: nat)
    requires
        reps.len() == m,
        forall|p: int| 0 <= p < m ==> 0 <= #[trigger] reps[p] < n && part[reps[p]] == p,
    ensures
        m <= n,
{
    let dom = set_int_range(0, m as int);
    let f = |p: int| reps[p];
    lemma_int_range(0, m as int);
    lemma_int_range(0, n as int);
    assert(vstd::relations::injective_on(f, dom)) by {
        assert forall|a: int, b: int| dom.contains(a) && dom.contains(b) && #[trigger] f(a) == #[trigger] f(
            b,
        ) implies a == b by {
            assert(part[reps[a]] == a);
            assert(part[reps[b]] == b);
        }
    }
    let img = dom.map(f);
    lemma_map_size(dom, img, f);
    assert(img.subset_of(set_int_range(0, n as int))) by {
        assert forall|x: int| img.contains(x) implies set_int_range(0, n as int).contains(x) by {
            let p = choose|p: int| dom.contains(p) && f(p) == x;
        }
    }
    lemma_len_subset(img, set_int_range(0, n as int));
}

/// The blocks listed in `parts` number at most the states.
proof fn lemma_parts_bound(part: Seq<usize>, parts: Seq<Seq<usize>>, n: nat)
    requires
        partition_ok(part, parts, n as int),
    ensures
        parts.len() <= n,
{
    let reps = Seq::new(parts.len(), |p: int| parts[p][0] as int);
    assert forall|p: int| 0 <= p < parts.len() implies 0 <= #[trigger] reps[p] < n && part[reps[p]] == p by {
        assert(parts[p].len() > 0);
        assert(parts[p][0] < n && part[parts[p][0] as int] == p);
    }
    lemma_reps_bound(part, reps, n, parts.len());
}

/// Every state is listed in the block that `part` puts it in.
pub open spec fn complete(part: Seq<usize>, parts: Seq<Seq<usize>>) -> bool {
    forall|x: int| 0 <= x < part.len() ==> #[trigger] holds(parts[part[x] as int], x)
}

/// States whose keys for a class differ are told apart, when the blocks
/// already separate only such states.
proof fn lemma_key_apart(
    t: Seq<Seq<Option<usize>>>,
    accept: Seq<Option<usize>>,
    part: Seq<usize>,
    s1: int,
    s2: int,
    c: int,
)
    requires
        separated(t, accept, part),
        part.len() == t.len(),
        forall|x: int| 0 <= x < part.len() ==> #[trigger] part[x] < usize::MAX,
        0 <= s1 < t.len(),
        0 <= s2 < t.len(),
        0 <= c < t[s1].len(),
        t[s1].len() == t[s2].len(),
        forall|s: int, d: int|
            0 <= s < t.len() && 0 <= d < t[s].len() && (#[trigger] t[s][d]) is Some ==> t[s][d]->0 < t.len(),
        key_spec(t, part, s1, c) != key_spec(t, part, s2, c),
    ensures
        apart(t, accept, s1, s2),
{
    match (t[s1][c], t[s2][c]) {
        (Some(x), Some(y)) => {
            assert(part[x as int] != part[y as int]);
            assert(apart(t, accept, x as int, y as int));
            let k = choose|k: nat| !#[trigger] equiv(t, accept, k, x as int, y as int);
            assert(!equiv(t, accept, k + 1, s1, s2));
        },
        (Some(x), None) => {
            assert(part[x as int] < usize::MAX);
            assert(!equiv(t, accept, 1, s1, s2));
        },
        (None, Some(y)) => {
            assert(part[y as int] < usize::MAX);
            assert(!equiv(t, accept, 1, s1, s2));
        },
        (None, None) => {},
    }
}

/// The separating key of state `s` for class `c`.
fn key_of(transitions: &Vec<Vec<Option<usize>>>, part_of: &Vec<usize>, s: usize, c: usize) -> (k: usize)
    requires
        s < transitions.len(),
        c < transitions@[s as int].len(),
        transitions@[s as int]@[c as int] is Some ==> transitions@[s as int]@[c as int]->0 < part_of.len(),
    ensures
        k == key_spec(table(transitions@), part_of@, s as int, c as int),
{
    assert(table(transitions@)[s as int] == transitions@[s as int]@);
    match transitions[s][c] {
        Some(t) => part_of[t],
        None => usize::MAX,
    }
}

/// The keys of the states of `block` for class `c`, in order.
fn block_keys(
    transitions: &Vec<Vec<Option<usize>>>,
    part_of: &Vec<usize>,
    block: &Vec<usize>,
    c: usize,
) -> (keys: Vec<usize>)
    requires
        part_of.len() == transitions.len(),
        forall|s: int| 0 <= s < transitions.len() ==> c < (#[trigger] transitions@[s])@.len(),
        forall|s: int|
            0 <= s < transitions.len() && (#[trigger] transitions@[s])@[c as int] is Some ==> transitions@[s]@[c as int]->0
                < transitions.len(),
        forall|k: int| 0 <= k < block.len() ==> #[trigger] block@[k] < transitions.len(),
    ensures
        keys.len() == block.len(),
        forall|k: int|
            0 <= k < block.len() ==> #[trigger] keys@[k] == key_spec(
                table(transitions@),
                part_of@,
                block@[k] as int,
                c as int,
            ),
{
    let mut keys: Vec<usize> = Vec::new();
    let mut i: usize = 0;
    while i < block.len()
        invariant
            part_of.len() == transitions.len(),
            forall|s: int| 0 <= s < transitions.len() ==> c < (#[trigger] transitions@[s])@.len(),
            forall|s: int|
                0 <= s < transitions.len() && (#[trigger] transitions@[s])@[c as int] is Some ==> transitions@[s]@[c as int]->0
                    < transitions.len(),
            forall|k: int| 0 <= k < block.len() ==> #[trigger] block@[k] < transitions.len(),
            i <= block.len(),
            keys.len() == i,
            forall|k: int|
                0 <= k < i ==> #[trigger] keys@[k] == key_spec(
                    table(transitions@),
                    part_of@,
                    block@[k] as int,
                    c as int,
                ),
        decreases block.len() - i,
    {
        let s = block[i];
        assert(c < transitions@[s as int]@.len());
        keys.push(key_of(transitions, part_of, s, c));
        i = i + 1;
    }
    keys
}

/// The keys of the states of `block` for class `c`, worked out in parallel
/// by rayon's `par_iter().map(..).collect()`, which keeps the order of the
/// block. The contract claims that entry `k` is what `key_of` returns for
/// the `k`-th state.
#[verifier::external_body]
fn block_keys_parallel(
    transitions: &Vec<Vec<Option<usize>>>,
    part_of: &Vec<usize>,
    block: &Vec<usize>,
    c: usize,
) -> (keys: Vec<usize>)
    requires
        part_of.len() == transitions.len(),
        forall|s: int| 0 <= s < transitions.len() ==> c < (#[trigger] transitions@[s])@.len(),
        forall|s: int|
            0 <= s < transitions.len() && (#[trigger] transitions@[s])@[c as int] is Some ==> transitions@[s]@[c as int]->0
                < transitions.len(),
        forall|k: int| 0 <= k < block.len() ==> #[trigger] block@[k] < transitions.len(),
    ensures
        keys.len() == block.len(),
        forall|k: int|
            0 <= k < block.len() ==> #[trigger] keys@[k] == key_spec(
                table(transitions@),
                part_of@,
                block@[k] as int,
                c as int,
            ),
{
    block.par_iter().map(|&s| key_of(transitions, part_of, s, c)).collect()
}

/// Whether some group of `gs` holds `x`.
pub open spec fn grouped(gs: Seq<Vec<usize>>, x: int) -> bool {
    exists|g: int| 0 <= g < gs.len() && #[trigger] holds(gs[g]@, x)
}

/// The states of `block` grouped by key, groups in the order of their
/// first state: each group holds states of the block, is not empty, and no
/// state is in two groups.
fn group_by_key(block: &Vec<usize>, keys: &Vec<usize>) -> (r: (Vec<Vec<usize>>, Vec<usize>))
    requires
        keys.len() == block.len(),
        forall|i: int, j: int|
            0 <= i < block.len() && 0 <= j < block.len() && block@[i] == block@[j] ==> keys@[i] == keys@[j],
    ensures
        forall|g1: int, g2: int| 0 <= g1 < g2 < r.1.len() ==> r.1@[g1] != r.1@[g2],
        forall|g: int, k: int, a: int|
            0 <= g < r.0.len() && 0 <= k < r.0@[g].len() && 0 <= a < block.len() && #[trigger] block@[a]
                == #[trigger] r.0@[g]@[k] ==> keys@[a] == r.1@[g],
        forall|a: int| 0 <= a < block.len() ==> #[trigger] grouped(r.0@, block@[a] as int),
        r.0.len() == r.1.len(),
        block.len() > 0 ==> r.0.len() > 0,
        forall|g: int| 0 <= g < r.0.len() ==> (#[trigger] r.0@[g]).len() > 0,
        forall|g: int, k: int|
            0 <= g < r.0.len() && 0 <= k < r.0@[g].len() ==> holds(block@, #[trigger] r.0@[g]@[k] as int),
        forall|g1: int, g2: int, k1: int, k2: int|
            0 <= g1 < r.0.len() && 0 <= g2 < r.0.len() && 0 <= k1 < r.0@[g1].len() && 0 <= k2
                < r.0@[g2].len() && #[trigger] r.0@[g1]@[k1] == #[trigger] r.0@[g2]@[k2] ==> g1 == g2,
{
    let mut groups: Vec<Vec<usize>> = Vec::new();
    let mut gkeys: Vec<usize> = Vec::new();
    let mut i: usize = 0;
    while i < block.len()
        invariant
            keys.len() == block.len(),
            forall|a: int, b: int|
                0 <= a < block.len() && 0 <= b < block.len() && block@[a] == block@[b] ==> keys@[a] == keys@[b],
            i <= block.len(),
            gkeys.len() == groups.len(),
            i > 0 ==> groups.len() > 0,
            forall|g1: int, g2: int| 0 <= g1 < g2 < gkeys.len() ==> gkeys@[g1] != gkeys@[g2],
            forall|g: int| 0 <= g < groups.len() ==> (#[trigger] groups@[g]).len() > 0,
            forall|g: int, k: int|
                0 <= g < groups.len() && 0 <= k < groups@[g].len() ==> exists|a: int|
                    0 <= a < i && block@[a] == #[trigger] groups@[g]@[k] && keys@[a] == gkeys@[g],
            forall|a: int| 0 <= a < i ==> #[trigger] grouped(groups@, block@[a] as int),
        decreases block.len() - i,
    {
        let key = keys[i];
        let mut g: usize = 0;
        while g < gkeys.len() && gkeys[g] != key
            invariant
                g <= gkeys.len(),
                forall|h: int| 0 <= h < g ==> gkeys@[h] != key,
            decreases gkeys.len() - g,
        {
            g = g + 1;
        }
        let ghost before = groups@;
        if g < gkeys.len() {
            groups[g].push(block[i]);
            proof {
                assert forall|a: int| 0 <= a < i + 1 implies #[trigger] grouped(groups@, block@[a] as int) by {
                    assert(groups@[g as int]@ == before[g as int]@.push(block@[i as int]));
                    if a == i {
                        assert(groups@[g as int]@[before[g as int].len() as int] == block@[a]);
                        assert(holds(groups@[g as int]@, block@[a] as int));
                    } else {
                        assert(grouped(before, block@[a] as int));
                        let h = choose|h: int| 0 <= h < before.len() && #[trigger] holds(before[h]@, block@[a] as int);
                        let k = choose|k: int| 0 <= k < before[h]@.len() && before[h]@[k] as int == block@[a] as int;
                        if h != g {
                            assert(groups@[h] == before[h]);
                        }
                        assert(groups@[h]@[k] == before[h]@[k]);
                        assert(holds(groups@[h]@, block@[a] as int));
                    }
                }
                assert forall|h: int, k: int|
                    0 <= h < groups.len() && 0 <= k < groups@[h].len() implies exists|a: int|
                        0 <= a < i + 1 && block@[a] == #[trigger] groups@[h]@[k] && keys@[a] == gkeys@[h] by {
                    if h == g && k == before[h].len() {
                        assert(block@[i as int] == groups@[h]@[k]);
                    } else {
                        assert(groups@[h]@[k] == before[h]@[k]);
                        let a = choose|a: int| 0 <= a < i && block@[a] == before[h]@[k] && keys@[a] == gkeys@[h];
                    }
                }
            }
        } else {
            let mut grp: Vec<usize> = Vec::new();
            grp.push(block[i]);
            groups.push(grp);
            gkeys.push(key);
            proof {
                assert forall|a: int| 0 <= a < i + 1 implies #[trigger] grouped(groups@, block@[a] as int) by {
                    if a == i {
                        assert(groups@[before.len() as int]@[0] == block@[a]);
                        assert(holds(groups@[before.len() as int]@, block@[a] as int));
                    } else {
                        assert(grouped(before, block@[a] as int));
                        let h = choose|h: int| 0 <= h < before.len() && #[trigger] holds(before[h]@, block@[a] as int);
                        assert(groups@[h] == before[h]);
                        assert(holds(groups@[h]@, block@[a] as int));
                    }
                }
                assert forall|h: int, k: int|
                    0 <= h < groups.len() && 0 <= k < groups@[h].len() implies exists|a: int|
                        0 <= a < i + 1 && block@[a] == #[trigger] groups@[h]@[k] && keys@[a] == gkeys@[h] by {
                    if h == before.len() {
                        assert(block@[i as int] == groups@[h]@[k]);
                    } else {
                        assert(groups@[h] == before[h]);
                        let a = choose|a: int| 0 <= a < i && block@[a] == before[h]@[k] && keys@[a] == gkeys@[h];
                    }
                }
            }
        }
        i = i + 1;
    }
    proof {
        assert forall|g1: int, g2: int, k1: int, k2: int|
            0 <= g1 < groups.len() && 0 <= g2 < groups.len() && 0 <= k1 < groups@[g1].len() && 0 <= k2
                < groups@[g2].len() && #[trigger] groups@[g1]@[k1] == #[trigger] groups@[g2]@[k2] implies g1 == g2 by {
            let a1 = choose|a: int| 0 <= a < i && block@[a] == groups@[g1]@[k1] && keys@[a] == gkeys@[g1];
            let a2 = choose|a: int| 0 <= a < i && block@[a] == groups@[g2]@[k2] && keys@[a] == gkeys@[g2];
            if g1 < g2 {
                assert(gkeys@[g1] != gkeys@[g2]);
            } else if g2 < g1 {
                assert(gkeys@[g2] != gkeys@[g1]);
            }
        }
        assert forall|g: int, k: int|
            0 <= g < groups.len() && 0 <= k < groups@[g].len() implies holds(block@, #[trigger] groups@[g]@[k] as int) by {
            let a = choose|a: int| 0 <= a < i && block@[a] == groups@[g]@[k] && keys@[a] == gkeys@[g];
            assert(block@[a] as int == groups@[g]@[k] as int);
        }
        assert forall|g: int, k: int, a: int|
            0 <= g < groups.len() && 0 <= k < groups@[g].len() && 0 <= a < block.len() && #[trigger] block@[a]
                == #[trigger] groups@[g]@[k] implies keys@[a] == gkeys@[g] by {
            let a2 = choose|a2: int| 0 <= a2 < i && block@[a2] == groups@[g]@[k] && keys@[a2] == gkeys@[g];
            assert(block@[a] == block@[a2]);
        }
    }
    (groups, gkeys)
}

/// The states of each block.
pub open spec fn blocks(v: Seq<Vec<usize>>) -> Seq<Seq<usize>> {
    v.map_values(|b: Vec<usize>| b@)
}

/// The block of `x` after the groups `gs[1..m)` of a split block have
/// become blocks `base`, `base + 1`, ...
pub open spec fn split_upto(old: Seq<usize>, gs: Seq<Seq<usize>>, base: int, m: int, x: int) -> usize {
    if exists|h: int| 1 <= h < m && #[trigger] holds(gs[h], x) {
        (base + (choose|h: int| 1 <= h < m && #[trigger] holds(gs[h], x)) - 1) as usize
    } else {
        old[x]
    }
}

fn copy_list(v: &Vec<usize>) -> (r: Vec<usize>)
    ensures
        r@ == v@,
{
    let mut r: Vec<usize> = Vec::new();
    let mut i: usize = 0;
    while i < v.len()
        invariant
            i <= v.len(),
            r@ == v@.take(i as int),
        decreases v.len() - i,
    {
        r.push(v[i]);
        i = i + 1;
        assert(r@ =~= v@.take(i as int));
    }
    assert(v@.take(i as int) =~= v@);
    r
}

/// Replaces block `pid` by the first group and adds the other groups as
/// new blocks at the end, each put on the worklist.
fn apply_split(
    parts: &mut Vec<Vec<usize>>,
    part_of: &mut Vec<usize>,
    worklist: &mut VecDeque<usize>,
    pid: usize,
    groups: &Vec<Vec<usize>>,
)
    requires
        partition_ok(old(part_of)@, blocks(old(parts)@), old(part_of)@.len() as int),
        pid < old(parts).len(),
        groups.len() >= 2,
        forall|g: int| 0 <= g < groups.len() ==> (#[trigger] groups@[g]).len() > 0,
        forall|g: int, k: int|
            0 <= g < groups.len() && 0 <= k < groups@[g].len() ==> holds(
                old(parts)@[pid as int]@,
                #[trigger] groups@[g]@[k] as int,
            ),
        forall|g1: int, g2: int, k1: int, k2: int|
            0 <= g1 < groups.len() && 0 <= g2 < groups.len() && 0 <= k1 < groups@[g1].len() && 0 <= k2
                < groups@[g2].len() && #[trigger] groups@[g1]@[k1] == #[trigger] groups@[g2]@[k2] ==> g1 == g2,
        forall|k: int| 0 <= k < old(worklist)@.len() ==> #[trigger] old(worklist)@[k] < old(parts).len(),
        complete(old(part_of)@, blocks(old(parts)@)),
        forall|x: int| #[trigger] holds(old(parts)@[pid as int]@, x) ==> grouped(groups@, x),
    ensures
        partition_ok(final(part_of)@, blocks(final(parts)@), old(part_of)@.len() as int),
        complete(final(part_of)@, blocks(final(parts)@)),
        forall|s1: int, s2: int|
            #![trigger final(part_of)@[s1], final(part_of)@[s2]]
            0 <= s1 < old(part_of)@.len() && 0 <= s2 < old(part_of)@.len()
                && final(part_of)@[s1] != final(part_of)@[s2]
                && old(part_of)@[s1] == old(part_of)@[s2] ==> exists|g1: int, g2: int|
                0 <= g1 < groups.len() && 0 <= g2 < groups.len() && g1 != g2 && #[trigger] holds(
                    groups@[g1]@,
                    s1,
                ) && #[trigger] holds(groups@[g2]@, s2),
        refines(final(part_of)@, old(part_of)@),
        final(parts).len() == old(parts).len() + groups.len() - 1,
        forall|k: int| 0 <= k < final(worklist)@.len() ==> #[trigger] final(worklist)@[k] < final(parts).len(),
        forall|x: int|
            0 <= x < old(part_of)@.len() ==> #[trigger] final(part_of)@[x] == old(part_of)@[x] || (old(part_of)@[x]
                == pid && final(part_of)@[x] >= old(parts).len()),
        final(worklist)@.len() >= old(worklist)@.len(),
        forall|k: int| 0 <= k < old(worklist)@.len() ==> #[trigger] final(worklist)@[k] == old(worklist)@[k],
        forall|p: int| old(parts).len() <= p < final(parts).len() ==> #[trigger] queued(final(worklist)@, p),
{
    let ghost n = part_of@.len() as int;
    let ghost old_wl = worklist@;
    let ghost old_part = part_of@;
    let ghost old_blocks = blocks(parts@);
    let ghost gs = blocks(groups@);
    let ghost base = parts.len() as int;
    proof {
        assert forall|g: int, k: int| 0 <= g < gs.len() && 0 <= k < gs[g].len() implies #[trigger] gs[g][k] < n
            && old_part[gs[g][k] as int] == pid by {
            assert(gs[g][k] == groups@[g]@[k]);
            assert(holds(old_blocks[pid as int], gs[g][k] as int));
            let i = choose|i: int|
                0 <= i < old_blocks[pid as int].len() && old_blocks[pid as int][i] as int == gs[g][k] as int;
        }
    }
    let first = copy_list(&groups[0]);
    parts.set(pid, first);
    let mut m: usize = 1;
    while m < groups.len()
        invariant
            n == part_of@.len(),
            old_part.len() == n,
            gs == blocks(groups@),
            gs.len() >= 2,
            base == old_blocks.len(),
            pid < base,
            1 <= m <= gs.len(),
            forall|g: int, k: int| 0 <= g < gs.len() && 0 <= k < gs[g].len() ==> #[trigger] gs[g][k] < n
                && old_part[gs[g][k] as int] == pid,
            parts.len() == base + m - 1,
            forall|p: int| 0 <= p < base && p != pid ==> #[trigger] blocks(parts@)[p] == old_blocks[p],
            blocks(parts@)[pid as int] == gs[0],
            forall|h: int| 1 <= h < m ==> #[trigger] blocks(parts@)[base + h - 1] == gs[h],
            forall|x: int| 0 <= x < n ==> #[trigger] part_of@[x] == split_upto(old_part, gs, base, m as int, x),
            forall|k: int| 0 <= k < worklist@.len() ==> #[trigger] worklist@[k] < parts.len(),
            worklist@.len() == old_wl.len() + m - 1,
            forall|k: int| 0 <= k < old_wl.len() ==> #[trigger] worklist@[k] == old_wl[k],
            forall|h: int| 1 <= h < m ==> #[trigger] worklist@[old_wl.len() + h - 1] == base + h - 1,
            forall|g: int| 0 <= g < groups.len() ==> (#[trigger] groups@[g]).len() > 0,
            forall|g1: int, g2: int, k1: int, k2: int|
                0 <= g1 < groups.len() && 0 <= g2 < groups.len() && 0 <= k1 < groups@[g1].len() && 0 <= k2
                    < groups@[g2].len() && #[trigger] groups@[g1]@[k1] == #[trigger] groups@[g2]@[k2] ==> g1 == g2,
        decreases groups.len() - m,
    {
        let new_pid = parts.len();
        let block = copy_list(&groups[m]);
        assert(block@ == gs[m as int]);
        let mut j: usize = 0;
        while j < block.len()
            invariant
                n == part_of@.len(),
                gs == blocks(groups@),
                1 <= m < gs.len(),
                block@ == gs[m as int],
                new_pid == base + m - 1,
                forall|g: int, k: int| 0 <= g < gs.len() && 0 <= k < gs[g].len() ==> #[trigger] gs[g][k] < n
                    && old_part[gs[g][k] as int] == pid,
                j <= block.len(),
                forall|x: int|
                    0 <= x < n ==> #[trigger] part_of@[x] == if holds(block@.take(j as int), x) {
                        new_pid
                    } else {
                        split_upto(old_part, gs, base, m as int, x)
                    },
            decreases block.len() - j,
        {
            let st = block[j];
            assert(gs[m as int][j as int] == st);
            part_of.set(st, new_pid);
            proof {
                assert forall|x: int| 0 <= x < n implies #[trigger] part_of@[x] == if holds(
                    block@.take(j + 1),
                    x,
                ) {
                    new_pid
                } else {
                    split_upto(old_part, gs, base, m as int, x)
                } by {
                    let t1 = block@.take(j + 1);
                    let t0 = block@.take(j as int);
                    if holds(t1, x) && x != st {
                        let i = choose|i: int| 0 <= i < t1.len() && #[trigger] t1[i] as int == x;
                        assert(t0[i] as int == x);
                    }
                    if holds(t0, x) {
                        let i = choose|i: int| 0 <= i < t0.len() && #[trigger] t0[i] as int == x;
                        assert(t1[i] as int == x);
                    }
                    if x == st {
                        assert(t1[j as int] as int == x);
                    }
                }
            }
            j = j + 1;
        }
        proof {
            assert(block@.take(j as int) =~= block@);
            assert forall|x: int| 0 <= x < n implies #[trigger] part_of@[x] == split_upto(
                old_part,
                gs,
                base,
                m + 1,
                x,
            ) by {
                if holds(block@, x) {
                    assert(holds(gs[m as int], x));
                    assert forall|h: int| 1 <= h < m + 1 && #[trigger] holds(gs[h], x) implies h == m by {
                        let k1 = choose|k: int| 0 <= k < gs[h].len() && gs[h][k] as int == x;
                        let k2 = choose|k: int| 0 <= k < gs[m as int].len() && gs[m as int][k] as int == x;
                        assert(groups@[h]@[k1] == groups@[m as int]@[k2]);
                    }
                    assert(holds(gs[m as int], x));
                } else {
                    if exists|h: int| 1 <= h < m + 1 && #[trigger] holds(gs[h], x) {
                        let h = choose|h: int| 1 <= h < m + 1 && #[trigger] holds(gs[h], x);
                        assert(h != m);
                        assert(exists|h2: int| 1 <= h2 < m && #[trigger] holds(gs[h2], x));
                    }
                }
            }
        }
        let ghost before = blocks(parts@);
        parts.push(block);
        worklist.push_back(new_pid);
        proof {
            assert(blocks(parts@) =~= before.push(gs[m as int]));
        }
        m = m + 1;
    }
    proof {
        let nb = blocks(parts@);
        let np = part_of@;
        assert forall|p: int| base <= p < parts.len() implies #[trigger] queued(worklist@, p) by {
            let h = p - base + 1;
            assert(worklist@[old_wl.len() + h - 1] == base + h - 1);
        }
        assert forall|x: int| 0 <= x < n implies #[trigger] np[x] == old_part[x] || (old_part[x] == pid && np[x]
            >= base) by {
            if exists|h: int| 1 <= h < gs.len() && #[trigger] holds(gs[h], x) {
                let h = choose|h: int| 1 <= h < gs.len() && #[trigger] holds(gs[h], x);
                let k = choose|k: int| 0 <= k < gs[h].len() && gs[h][k] as int == x;
                assert(old_part[gs[h][k] as int] == pid);
            }
        }
        assert forall|x: int| 0 <= x < n implies #[trigger] np[x] < nb.len() by {
            if exists|h: int| 1 <= h < gs.len() && #[trigger] holds(gs[h], x) {
            } else {
                assert(np[x] == old_part[x]);
            }
        }
        assert forall|p: int| 0 <= p < nb.len() implies #[trigger] nb[p].len() > 0 by {
            if p < base && p != pid {
                assert(nb[p] == old_blocks[p]);
            } else if p == pid {
                assert(gs[0] == groups@[0]@);
            } else {
                let h0 = p - base + 1;
                assert(nb[base + h0 - 1] == gs[h0]);
                assert(gs[h0] == groups@[h0]@);
            }
        }
        assert forall|p: int, k: int| 0 <= p < nb.len() && 0 <= k < nb[p].len() implies #[trigger] nb[p][k] < n
            && np[nb[p][k] as int] == p by {
            let x = nb[p][k] as int;
            if p < base && p != pid {
                assert(nb[p] == old_blocks[p]);
                assert(old_part[x] == p);
                if exists|h: int| 1 <= h < gs.len() && #[trigger] holds(gs[h], x) {
                    let h = choose|h: int| 1 <= h < gs.len() && #[trigger] holds(gs[h], x);
                    let k2 = choose|k2: int| 0 <= k2 < gs[h].len() && gs[h][k2] as int == x;
                    assert(old_part[gs[h][k2] as int] == pid);
                }
            } else if p == pid {
                assert(nb[p] == gs[0]);
                assert(gs[0][k] < n && old_part[gs[0][k] as int] == pid);
                if exists|h: int| 1 <= h < gs.len() && #[trigger] holds(gs[h], x) {
                    let h = choose|h: int| 1 <= h < gs.len() && #[trigger] holds(gs[h], x);
                    let k2 = choose|k2: int| 0 <= k2 < gs[h].len() && gs[h][k2] as int == x;
                    assert(groups@[0]@[k] == groups@[h]@[k2]);
                }
            } else {
                let h0 = p - base + 1;
                assert(nb[base + h0 - 1] == gs[h0]);
                assert(holds(gs[h0], x)) by {
                    assert(gs[h0][k] as int == x);
                }
                let h = choose|h: int| 1 <= h < gs.len() && #[trigger] holds(gs[h], x);
                let k2 = choose|k2: int| 0 <= k2 < gs[h].len() && gs[h][k2] as int == x;
                assert(groups@[h0]@[k] == groups@[h]@[k2]);
            }
        }
        assert forall|s1: int, s2: int|
            #![trigger np[s1], np[s2]]
            0 <= s1 < np.len() && 0 <= s2 < np.len() && np[s1] == np[s2] implies old_part[s1] == old_part[s2] by {
            let e1 = exists|h: int| 1 <= h < gs.len() && #[trigger] holds(gs[h], s1);
            let e2 = exists|h: int| 1 <= h < gs.len() && #[trigger] holds(gs[h], s2);
            if e1 {
                let h = choose|h: int| 1 <= h < gs.len() && #[trigger] holds(gs[h], s1);
                let k = choose|k: int| 0 <= k < gs[h].len() && gs[h][k] as int == s1;
                assert(old_part[gs[h][k] as int] == pid);
            }
            if e2 {
                let h = choose|h: int| 1 <= h < gs.len() && #[trigger] holds(gs[h], s2);
                let k = choose|k: int| 0 <= k < gs[h].len() && gs[h][k] as int == s2;
                assert(old_part[gs[h][k] as int] == pid);
            }
            if e1 && !e2 {
                assert(np[s2] == old_part[s2]);
                assert(old_part[s2] < base);
            }
            if e2 && !e1 {
                assert(np[s1] == old_part[s1]);
                assert(old_part[s1] < base);
            }
        }
        // two groups never share a state
        assert forall|x: int, h1: int, h2: int|
            0 <= h1 < gs.len() && 0 <= h2 < gs.len() && #[trigger] holds(gs[h1], x) && #[trigger] holds(gs[h2], x)
            implies h1 == h2 by {
            let k1 = choose|k: int| 0 <= k < gs[h1].len() && gs[h1][k] as int == x;
            let k2 = choose|k: int| 0 <= k < gs[h2].len() && gs[h2][k] as int == x;
            assert(groups@[h1]@[k1] == groups@[h2]@[k2]);
        }
        assert forall|x: int| 0 <= x < n implies #[trigger] holds(nb[np[x] as int], x) by {
            if exists|h: int| 1 <= h < gs.len() && #[trigger] holds(gs[h], x) {
                let h = choose|h: int| 1 <= h < gs.len() && #[trigger] holds(gs[h], x);
                assert(np[x] == base + h - 1);
                assert(nb[base + h - 1] == gs[h]);
            } else {
                assert(np[x] == old_part[x]);
                assert(holds(old_blocks[old_part[x] as int], x));
                if old_part[x] == pid {
                    assert(holds(old(parts)@[pid as int]@, x));
                    assert(grouped(groups@, x));
                    let g = choose|g: int| 0 <= g < groups@.len() && #[trigger] holds(groups@[g]@, x);
                    assert(gs[g] == groups@[g]@);
                    assert(g == 0);
                    assert(nb[pid as int] == gs[0]);
                } else {
                    assert(nb[old_part[x] as int] == old_blocks[old_part[x] as int]);
                }
            }
        }
        assert forall|s1: int, s2: int|
            #![trigger np[s1], np[s2]]
            0 <= s1 < n && 0 <= s2 < n && np[s1] != np[s2] && old_part[s1] == old_part[s2] implies exists|
                g1: int,
                g2: int,
            |
                0 <= g1 < groups.len() && 0 <= g2 < groups.len() && g1 != g2 && #[trigger] holds(groups@[g1]@, s1)
                    && #[trigger] holds(groups@[g2]@, s2) by {
            let e1 = exists|h: int| 1 <= h < gs.len() && #[trigger] holds(gs[h], s1);
            let e2 = exists|h: int| 1 <= h < gs.len() && #[trigger] holds(gs[h], s2);
            if !e1 && !e2 {
                assert(np[s1] == old_part[s1]);
                assert(np[s2] == old_part[s2]);
            }
            if e1 {
                let h = choose|h: int| 1 <= h < gs.len() && #[trigger] holds(gs[h], s1);
                let k = choose|k: int| 0 <= k < gs[h].len() && gs[h][k] as int == s1;
                assert(old_part[gs[h][k] as int] == pid);
            }
            if e2 {
                let h = choose|h: int| 1 <= h < gs.len() && #[trigger] holds(gs[h], s2);
                let k = choose|k: int| 0 <= k < gs[h].len() && gs[h][k] as int == s2;
                assert(old_part[gs[h][k] as int] == pid);
            }
            assert(old_part[s1] == pid);
            assert(holds(old_blocks[pid as int], s1));
            assert(holds(old_blocks[pid as int], s2));
            assert(holds(old(parts)@[pid as int]@, s1));
            assert(holds(old(parts)@[pid as int]@, s2));
            assert(grouped(groups@, s1));
            assert(grouped(groups@, s2));
            let g1 = choose|g: int| 0 <= g < groups@.len() && #[trigger] holds(groups@[g]@, s1);
            let g2 = choose|g: int| 0 <= g < groups@.len() && #[trigger] holds(groups@[g]@, s2);
            assert(gs[g1] == groups@[g1]@);
            assert(gs[g2] == groups@[g2]@);
            if g1 == g2 {
                if g1 >= 1 {
                    let h1 = choose|h: int| 1 <= h < gs.len() && #[trigger] holds(gs[h], s1);
                    let h2 = choose|h: int| 1 <= h < gs.len() && #[trigger] holds(gs[h], s2);
                    assert(h1 == g1);
                    assert(h2 == g1);
                } else {
                    assert(!e1);
                    assert(!e2);
                    assert(np[s1] == old_part[s1]);
                    assert(np[s2] == old_part[s2]);
                }
            }
        }
    }
}


/// A block whose states have equal keys on every class is settled against
/// the partition itself.
proof fn lemma_settled_of_keys(
    t: Seq<Seq<Option<usize>>>,
    accept: Seq<Option<usize>>,
    part: Seq<usize>,
    p: int,
    nc: int,
    np: int,
)
    requires
        table_ok(t, nc),
        part.len() == t.len(),
        np <= usize::MAX,
        forall|s: int| 0 <= s < part.len() ==> #[trigger] part[s] < np,
        respects(part, accept),
        block_stable(t, part, p, nc),
    ensures
        block_settled(t, accept, part, p),
{
    assert(coarser(part, part));
    assert forall|s1: int, s2: int, c: int|
        #![trigger t[s1][c], t[s2][c], part[s1], part[s2]]
        0 <= s1 < part.len() && 0 <= s2 < part.len() && part[s1] == p && part[s2] == p && 0 <= c < t[s1].len()
            implies lift(part, t[s1][c]) == lift(part, t[s2][c]) by {
        assert(key_spec(t, part, s1, c) == key_spec(t, part, s2, c));
        if let Some(x) = t[s1][c] {
            assert(part[x as int] < np);
        }
        if let Some(y) = t[s2][c] {
            assert(part[y as int] < np);
        }
    }
}

/// A settled block that a split leaves alone stays settled.
proof fn lemma_settled_refine(
    t: Seq<Seq<Option<usize>>>,
    accept: Seq<Option<usize>>,
    old: Seq<usize>,
    new: Seq<usize>,
    p: int,
    pid: int,
    base: int,
)
    requires
        block_settled(t, accept, old, p),
        refines(new, old),
        0 <= p < base,
        p != pid,
        forall|x: int| 0 <= x < old.len() ==> #[trigger] new[x] == old[x] || (old[x] == pid && new[x] >= base),
    ensures
        block_settled(t, accept, new, p),
{
    let q = choose|q: Seq<usize>|
        #[trigger] coarser(q, old) && respects(q, accept) && forall|s1: int, s2: int, c: int|
            #![trigger t[s1][c], t[s2][c], old[s1], old[s2]]
            0 <= s1 < old.len() && 0 <= s2 < old.len() && old[s1] == p && old[s2] == p && 0 <= c < t[s1].len()
                ==> lift(q, t[s1][c]) == lift(q, t[s2][c]);
    assert(coarser(q, new)) by {
        assert forall|s1: int, s2: int|
            #![trigger new[s1], new[s2]]
            0 <= s1 < new.len() && 0 <= s2 < new.len() && new[s1] == new[s2] implies q[s1] == q[s2] by {
            assert(old[s1] == old[s2]);
        }
    }
    assert forall|s1: int, s2: int, c: int|
        #![trigger t[s1][c], t[s2][c], new[s1], new[s2]]
        0 <= s1 < new.len() && 0 <= s2 < new.len() && new[s1] == p && new[s2] == p && 0 <= c < t[s1].len()
            implies lift(q, t[s1][c]) == lift(q, t[s2][c]) by {
        assert(new[s1] == old[s1] || (old[s1] == pid && new[s1] >= base));
        assert(new[s2] == old[s2] || (old[s2] == pid && new[s2] >= base));
        assert(old[s1] == p && old[s2] == p);
    }
}

/// Whether `p` is on the worklist `w`.
pub open spec fn queued(w: Seq<usize>, p: int) -> bool {
    exists|k: int| 0 <= k < w.len() && w[k] == p
}

/// A worklist holding each block from `0` to `count - 1`, in order.
fn all_blocks(count: usize) -> (w: VecDeque<usize>)
    ensures
        w@.len() == count,
        forall|k: int| 0 <= k < w@.len() ==> #[trigger] w@[k] == k,
{
    let mut w: VecDeque<usize> = VecDeque::new();
    let mut p: usize = 0;
    while p < count
        invariant
            p <= count,
            w@.len() == p,
            forall|k: int| 0 <= k < w@.len() ==> #[trigger] w@[k] == k,
        decreases count - p,
    {
        w.push_back(p);
        p = p + 1;
    }
    w
}

impl DFA {
    /// Partition refinement: blocks start as the states of each token and
    /// are split, block by block from a worklist, by the blocks that their
    /// states' transitions reach; a block that splits is queued again with
    /// its new parts, and the rest stay as they are. The blocks become the
    /// states.
    fn refine(&mut self, parallel: bool)
        requires
            old(self).wf(),
            old(self).transitions.len() > 0,
        ensures
            final(self).wf(),
            minimized(*old(self), *final(self)),
            final(self).intervals == old(self).intervals,
            final(self).transitions.len() <= old(self).transitions.len(),
    {
        let ghost t = table(self.transitions@);
        let ghost acc = self.accept@;
        let n = self.transitions.len();
        let num_classes = self.intervals.len();
        let mut part_of: Vec<usize> = Vec::new();
        let mut parts: Vec<Vec<usize>> = Vec::new();
        let mut tokens: Vec<Option<usize>> = Vec::new();
        let mut i: usize = 0;
        while i < n
            invariant
                n == self.transitions.len(),
                acc == self.accept@,
                acc.len() == n,
                i <= n,
                partition_ok(part_of@, blocks(parts@), i as int),
                complete(part_of@, blocks(parts@)),
                tokens.len() == parts.len(),
                forall|p: int, q: int| 0 <= p < q < tokens.len() ==> tokens@[p] != tokens@[q],
                forall|x: int| 0 <= x < i ==> #[trigger] tokens@[part_of@[x] as int] == acc[x],
            decreases n - i,
        {
            let tok = self.accept[i];
            let mut pid: usize = 0;
            while pid < tokens.len() && tokens[pid] != tok
                invariant
                    pid <= tokens.len(),
                    forall|h: int| 0 <= h < pid ==> tokens@[h] != tok,
                decreases tokens.len() - pid,
            {
                pid = pid + 1;
            }
            let ghost b0 = blocks(parts@);
            let ghost p0 = part_of@;
            if pid == tokens.len() {
                let ghost tk0 = tokens@;
                tokens.push(tok);
                parts.push(Vec::new());
                proof {
                    assert forall|p: int, q: int| 0 <= p < q < tokens.len() implies tokens@[p] != tokens@[q] by {
                        if q == tk0.len() {
                            assert(tk0[p] != tok);
                        } else {
                            assert(tk0[p] != tk0[q]);
                        }
                    }
                }
            }
            let ghost b1 = blocks(parts@);
            part_of.push(pid);
            parts[pid].push(i);
            proof {
                let b2 = blocks(parts@);
                assert(b2 =~= b1.update(pid as int, b1[pid as int].push(i)));
                assert forall|p: int| 0 <= p < b2.len() implies #[trigger] b2[p].len() > 0 by {
                    if p != pid {
                        assert(b2[p] == b0[p]);
                    }
                }
                assert forall|p: int, k: int| 0 <= p < b2.len() && 0 <= k < b2[p].len() implies #[trigger] b2[p][k]
                    < i + 1 && part_of@[b2[p][k] as int] == p by {
                    if p != pid {
                        assert(b2[p] == b0[p]);
                    } else if k < b1[p].len() {
                        assert(b2[p][k] == b1[p][k]);
                        assert(b1[p][k] == b0[p][k]);
                    }
                }
                assert forall|x: int| 0 <= x < i + 1 implies #[trigger] tokens@[part_of@[x] as int] == acc[x] by {
                    if x == i {
                        assert(tokens@[pid as int] == tok);
                    }
                }
                assert forall|x: int| 0 <= x < part_of@.len() implies #[trigger] holds(b2[part_of@[x] as int], x) by {
                    if x == i {
                        assert(b2[pid as int][b1[pid as int].len() as int] == i);
                    } else {
                        assert(part_of@[x] == p0[x]);
                        assert(holds(b0[p0[x] as int], x));
                        let k = choose|k: int| 0 <= k < b0[p0[x] as int].len() && b0[p0[x] as int][k] as int == x;
                        if p0[x] == pid {
                            assert(b1[pid as int] == b0[pid as int]);
                            assert(b2[pid as int][k] == b0[pid as int][k]);
                        } else {
                            assert(b2[p0[x] as int] == b0[p0[x] as int]);
                        }
                    }
                }
            }
            i = i + 1;
        }
        proof {
            assert forall|s1: int, s2: int|
                #![trigger part_of@[s1], part_of@[s2]]
                0 <= s1 < part_of@.len() && 0 <= s2 < part_of@.len() && part_of@[s1] == part_of@[s2] implies acc[s1]
                    == acc[s2] by {
                assert(tokens@[part_of@[s1] as int] == acc[s1]);
                assert(tokens@[part_of@[s2] as int] == acc[s2]);
            }
            lemma_parts_bound(part_of@, blocks(parts@), n as nat);
            assert forall|s1: int, s2: int|
                #![trigger part_of@[s1], part_of@[s2]]
                0 <= s1 < part_of@.len() && 0 <= s2 < part_of@.len() && part_of@[s1] != part_of@[s2] implies apart(
                    t,
                    acc,
                    s1,
                    s2,
                ) by {
                assert(tokens@[part_of@[s1] as int] == acc[s1]);
                assert(tokens@[part_of@[s2] as int] == acc[s2]);
                assert(acc[s1] != acc[s2]);
                assert(!equiv(t, acc, 0, s1, s2));
            }
        }
        let mut worklist = all_blocks(parts.len());
        proof {
            assert forall|p: int| 0 <= p < parts.len() implies (exists|k: int|
                0 <= k < worklist@.len() && worklist@[k] == p) || #[trigger] block_settled(t, acc, part_of@, p) by {
                assert(worklist@[p] == p);
            }
        }
        loop
            invariant
                n == self.transitions.len(),
                t == table(self.transitions@),
                acc == self.accept@,
                self.wf(),
                num_classes == self.intervals.len(),
                partition_ok(part_of@, blocks(parts@), n as int),
                complete(part_of@, blocks(parts@)),
                separated(t, acc, part_of@),
                respects(part_of@, acc),
                parts.len() <= n,
                forall|k: int| 0 <= k < worklist@.len() ==> #[trigger] worklist@[k] < parts.len(),
                forall|p: int|
                    0 <= p < parts.len() ==> (exists|k: int| 0 <= k < worklist@.len() && worklist@[k] == p)
                        || #[trigger] block_settled(t, acc, part_of@, p),
            ensures
                forall|p: int| 0 <= p < parts.len() ==> #[trigger] block_settled(t, acc, part_of@, p),
            decreases n - parts.len(), worklist@.len(),
        {
            let ghost wl_before = worklist@;
            let pid = match worklist.pop_front() {
                Some(x) => x,
                None => {
                    break ;
                },
            };
            let ghost parts_len0 = parts.len();
            let ghost wl0 = worklist@;
            let ghost po0 = part_of@;
            proof {
                assert(wl_before[0] == pid);
                assert(pid < parts.len());
                assert(blocks(parts@)[pid as int].len() > 0);
                assert forall|p: int| 0 <= p < parts.len() && p != pid implies (exists|k: int|
                    0 <= k < wl0.len() && wl0[k] == p) || #[trigger] block_settled(t, acc, po0, p) by {
                    if !block_settled(t, acc, po0, p) {
                        let k = choose|k: int| 0 <= k < wl_before.len() && wl_before[k] == p;
                        assert(k != 0);
                        assert(wl0[k - 1] == p);
                    }
                }
            }
            let block = copy_list(&parts[pid]);
            assert(block@ == blocks(parts@)[pid as int]);
            if block.len() == 0 {
                continue ;
            }
            let mut class: usize = 0;
            let mut split = false;
            while class < num_classes && !split
                invariant
                    n == self.transitions.len(),
                    t == table(self.transitions@),
                    acc == self.accept@,
                    self.wf(),
                    num_classes == self.intervals.len(),
                    partition_ok(part_of@, blocks(parts@), n as int),
                    complete(part_of@, blocks(parts@)),
                    separated(t, acc, part_of@),
                    respects(part_of@, acc),
                    pid < parts.len(),
                    !split ==> block@ == blocks(parts@)[pid as int],
                    !split ==> parts.len() == parts_len0,
                    split ==> parts.len() > parts_len0,
                    parts.len() <= n,
                    forall|k: int| 0 <= k < worklist@.len() ==> #[trigger] worklist@[k] < parts.len(),
                    !split ==> worklist@ == wl0,
                    !split ==> part_of@ == po0,
                    po0.len() == n,
                    pid < parts_len0,
                    forall|p: int| 0 <= p < parts_len0 && p != pid ==> (exists|k: int|
                        0 <= k < wl0.len() && wl0[k] == p) || #[trigger] block_settled(t, acc, po0, p),
                    split ==> refines(part_of@, po0),
                    split ==> forall|x: int|
                        0 <= x < n ==> #[trigger] part_of@[x] == po0[x] || (po0[x] == pid && part_of@[x] >= parts_len0),
                    split ==> worklist@.len() >= wl0.len(),
                    split ==> forall|k: int| 0 <= k < wl0.len() ==> #[trigger] worklist@[k] == wl0[k],
                    split ==> forall|p: int| parts_len0 <= p < parts.len() ==> #[trigger] queued(worklist@, p),
                    block.len() > 0,
                    !split ==> forall|s1: int, s2: int, c: int|
                        #![trigger key_spec(t, part_of@, s1, c), key_spec(t, part_of@, s2, c)]
                        0 <= c < class && holds(block@, s1) && holds(block@, s2) ==> key_spec(t, part_of@, s1, c)
                            == key_spec(t, part_of@, s2, c),
                decreases num_classes - class + if split {
                    0int
                } else {
                    1int
                },
            {
                proof {
                    assert forall|s: int| 0 <= s < self.transitions.len() implies class < (
                    #[trigger] self.transitions@[s])@.len() by {
                        assert(t[s] == self.transitions@[s]@);
                    }
                    assert forall|s: int|
                        0 <= s < self.transitions.len() && (
                        #[trigger] self.transitions@[s])@[class as int] is Some implies self.transitions@[s]@[class as int]->0
                        < self.transitions.len() by {
                        assert(t[s] == self.transitions@[s]@);
                        assert(t[s][class as int] is Some);
                    }
                    assert forall|k: int| 0 <= k < block.len() implies #[trigger] block@[k]
                        < self.transitions.len() by {
                        assert(blocks(parts@)[pid as int][k] < n);
                    }
                }
                let keys = if parallel {
                    block_keys_parallel(&self.transitions, &part_of, &block, class)
                } else {
                    block_keys(&self.transitions, &part_of, &block, class)
                };
                let (groups, gkeys) = group_by_key(&block, &keys);
                if groups.len() > 1 {
                    proof {
                        assert forall|g: int, k: int|
                            0 <= g < groups.len() && 0 <= k < groups@[g].len() implies holds(
                            parts@[pid as int]@,
                            #[trigger] groups@[g]@[k] as int,
                        ) by {
                            assert(holds(block@, groups@[g]@[k] as int));
                        }
                    }
                    proof {
                        assert forall|x: int| #[trigger] holds(parts@[pid as int]@, x) implies grouped(groups@, x) by {
                            let k = choose|k: int| 0 <= k < parts@[pid as int]@.len() && parts@[pid as int]@[k] as int == x;
                            assert(block@[k] == parts@[pid as int]@[k]);
                            assert(grouped(groups@, block@[k] as int));
                        }
                    }
                    let ghost old_part = part_of@;
                    apply_split(&mut parts, &mut part_of, &mut worklist, pid, &groups);
                    proof {
                        assert forall|x: int| 0 <= x < old_part.len() implies #[trigger] old_part[x] < usize::MAX by {
                            assert(old_part[x] < parts_len0);
                        }
                        assert forall|s1: int, s2: int|
                            #![trigger part_of@[s1], part_of@[s2]]
                            0 <= s1 < part_of@.len() && 0 <= s2 < part_of@.len() && part_of@[s1] != part_of@[s2] implies apart(
                                t,
                                acc,
                                s1,
                                s2,
                            ) by {
                            if old_part[s1] != old_part[s2] {
                                assert(apart(t, acc, s1, s2));
                            } else {
                                let (g1, g2) = choose|g1: int, g2: int|
                                    0 <= g1 < groups.len() && 0 <= g2 < groups.len() && g1 != g2 && #[trigger] holds(
                                        groups@[g1]@,
                                        s1,
                                    ) && #[trigger] holds(groups@[g2]@, s2);
                                let k1 = choose|k: int| 0 <= k < groups@[g1]@.len() && groups@[g1]@[k] as int == s1;
                                let k2 = choose|k: int| 0 <= k < groups@[g2]@.len() && groups@[g2]@[k] as int == s2;
                                assert(holds(block@, groups@[g1]@[k1] as int));
                                assert(holds(block@, groups@[g2]@[k2] as int));
                                let a1 = choose|a: int| 0 <= a < block@.len() && block@[a] as int == groups@[g1]@[k1] as int;
                                let a2 = choose|a: int| 0 <= a < block@.len() && block@[a] as int == groups@[g2]@[k2] as int;
                                assert(keys@[a1] == gkeys@[g1]);
                                assert(keys@[a2] == gkeys@[g2]);
                                if g1 < g2 {
                                    assert(gkeys@[g1] != gkeys@[g2]);
                                } else {
                                    assert(gkeys@[g2] != gkeys@[g1]);
                                }
                                assert(t[s1].len() == num_classes);
                                assert(t[s2].len() == num_classes);
                                lemma_key_apart(t, acc, old_part, s1, s2, class as int);
                            }
                        }
                        lemma_parts_bound(part_of@, blocks(parts@), n as nat);
                        assert forall|s1: int, s2: int|
                            #![trigger part_of@[s1], part_of@[s2]]
                            0 <= s1 < part_of@.len() && 0 <= s2 < part_of@.len() && part_of@[s1] == part_of@[s2] implies acc[s1]
                                == acc[s2] by {
                            assert(old_part[s1] == old_part[s2]);
                        }
                    }
                    split = true;
                } else {
                    proof {
                        assert(groups.len() == 1);
                        assert forall|s1: int| #[trigger] holds(block@, s1) implies key_spec(
                            t,
                            part_of@,
                            s1,
                            class as int,
                        ) == gkeys@[0] by {
                            let a = choose|a: int| 0 <= a < block@.len() && block@[a] as int == s1;
                            assert(grouped(groups@, block@[a] as int));
                            let g = choose|g: int| 0 <= g < groups@.len() && #[trigger] holds(groups@[g]@, s1);
                            assert(g == 0);
                            let k = choose|k: int| 0 <= k < groups@[0]@.len() && groups@[0]@[k] as int == s1;
                            assert(block@[a] == groups@[0]@[k]);
                            assert(keys@[a] == gkeys@[0]);
                        }
                    }
                    class = class + 1;
                }
            }
            if split {
                let ghost wl1 = worklist@;
                worklist.push_back(pid);
                proof {
                    assert forall|p: int| 0 <= p < parts.len() implies (exists|k: int|
                        0 <= k < worklist@.len() && worklist@[k] == p) || #[trigger] block_settled(
                        t,
                        acc,
                        part_of@,
                        p,
                    ) by {
                        if p == pid {
                            assert(worklist@[wl1.len() as int] == p);
                        } else if p >= parts_len0 {
                            assert(queued(wl1, p));
                            let k = choose|k: int| 0 <= k < wl1.len() && wl1[k] == p;
                            assert(worklist@[k] == p);
                        } else if exists|k: int| 0 <= k < wl0.len() && wl0[k] == p {
                            let k = choose|k: int| 0 <= k < wl0.len() && wl0[k] == p;
                            assert(wl1[k] == p);
                            assert(worklist@[k] == p);
                        } else {
                            assert(block_settled(t, acc, po0, p));
                            lemma_settled_refine(t, acc, po0, part_of@, p, pid as int, parts_len0 as int);
                        }
                    }
                }
            } else {
                proof {
                    assert(block_stable(t, part_of@, pid as int, num_classes as int)) by {
                        assert forall|s1: int, s2: int, c: int|
                            0 <= s1 < part_of@.len() && 0 <= s2 < part_of@.len() && part_of@[s1] == pid
                                && part_of@[s2] == pid && 0 <= c < num_classes implies #[trigger] key_spec(
                            t,
                            part_of@,
                            s1,
                            c,
                        ) == #[trigger] key_spec(t, part_of@, s2, c) by {
                            assert(holds(blocks(parts@)[part_of@[s1] as int], s1));
                            assert(holds(blocks(parts@)[part_of@[s2] as int], s2));
                        }
                    }
                    lemma_settled_of_keys(t, acc, part_of@, pid as int, num_classes as int, parts.len() as int);
                    assert forall|p: int| 0 <= p < parts.len() implies (exists|k: int|
                        0 <= k < worklist@.len() && worklist@[k] == p) || #[trigger] block_settled(
                        t,
                        acc,
                        part_of@,
                        p,
                    ) by {
                        if p != pid {
                            assert(part_of@ == po0);
                        }
                    }
                }
            }
        }
        proof {
            assert forall|s: int| 0 <= s < part_of@.len() implies #[trigger] block_settled(
                t,
                acc,
                part_of@,
                part_of@[s] as int,
            ) by {
                assert(part_of@[s] < parts.len());
            }
        }
        let new_states = parts.len();
        let mut new_transitions: Vec<Vec<Option<usize>>> = Vec::new();
        let mut new_accept: Vec<Option<usize>> = Vec::new();
        let ghost reps = Seq::new(parts.len() as nat, |q: int| parts@[q]@[0] as int);
        let mut q: usize = 0;
        while q < new_states
            invariant
                n == self.transitions.len(),
                t == table(self.transitions@),
                acc == self.accept@,
                self.wf(),
                num_classes == self.intervals.len(),
                partition_ok(part_of@, blocks(parts@), n as int),
                new_states == parts.len(),
                reps == Seq::new(parts.len() as nat, |q: int| parts@[q]@[0] as int),
                q <= new_states,
                new_accept.len() == q,
                new_transitions.len() == q,
                forall|r: int| 0 <= r < q ==> #[trigger] new_accept@[r] == acc[reps[r]],
                forall|r: int|
                    0 <= r < q ==> #[trigger] table(new_transitions@)[r] == t[reps[r]].map_values(
                        |e: Option<usize>| lift(part_of@, e),
                    ),
            decreases new_states - q,
        {
            assert(blocks(parts@)[q as int].len() > 0);
            let rep = parts[q][0];
            assert(rep < n);
            new_accept.push(self.accept[rep]);
            let mut row: Vec<Option<usize>> = Vec::new();
            let mut c: usize = 0;
            assert(t[rep as int] == self.transitions@[rep as int]@);
            while c < num_classes
                invariant
                    n == self.transitions.len(),
                    t == table(self.transitions@),
                    self.wf(),
                    num_classes == self.intervals.len(),
                    partition_ok(part_of@, blocks(parts@), n as int),
                    rep < n,
                    c <= num_classes,
                    row@ == t[rep as int].take(c as int).map_values(|e: Option<usize>| lift(part_of@, e)),
                decreases num_classes - c,
            {
                assert(t[rep as int] == self.transitions@[rep as int]@);
                match self.transitions[rep][c] {
                    Some(next) => {
                        assert(t[rep as int][c as int] == Some(next));
                        row.push(Some(part_of[next]));
                    },
                    None => {
                        row.push(None);
                    },
                }
                c = c + 1;
                assert(row@ =~= t[rep as int].take(c as int).map_values(|e: Option<usize>| lift(part_of@, e)));
            }
            assert(t[rep as int].take(c as int) =~= t[rep as int]);
            let ghost before = new_transitions@;
            let ghost rv = row@;
            new_transitions.push(row);
            proof {
                assert(table(new_transitions@) =~= table(before).push(rv));
            }
            q = q + 1;
        }
        let start = part_of[self.start_state];
        proof {
            let t2 = table(new_transitions@);
            assert(quotient(t, acc, self.start_state as int, part_of@, reps, t2, new_accept@, start as int)) by {
                assert forall|x: int| 0 <= x < new_states implies 0 <= #[trigger] reps[x] < t.len() && part_of@[reps[x]]
                    == x by {
                    assert(blocks(parts@)[x].len() > 0);
                    assert(blocks(parts@)[x][0] < n && part_of@[blocks(parts@)[x][0] as int] == x);
                }
            }
            assert(table_ok(t2, num_classes as int)) by {
                assert forall|x: int| 0 <= x < t2.len() implies #[trigger] t2[x].len() == num_classes by {
                    assert(0 <= reps[x] < n) by {
                        assert(blocks(parts@)[x].len() > 0);
                        assert(blocks(parts@)[x][0] < n);
                    }
                }
                assert forall|x: int, c: int|
                    0 <= x < t2.len() && 0 <= c < t2[x].len() && (#[trigger] t2[x][c]) is Some implies t2[x][c]->0
                    < t2.len() by {
                    assert(0 <= reps[x] < n) by {
                        assert(blocks(parts@)[x].len() > 0);
                        assert(blocks(parts@)[x][0] < n);
                    }
                    assert(t2[x][c] == lift(part_of@, t[reps[x]][c]));
                }
            }
        }
        let ghost old_start = self.start_state as int;
        self.transitions = new_transitions;
        self.accept = new_accept;
        self.start_state = start;
        assert(quotient(
            table(old(self).transitions@),
            old(self).accept@,
            old_start,
            part_of@,
            reps,
            table(self.transitions@),
            self.accept@,
            self.start_state as int,
        ));
        assert(separated(table(old(self).transitions@), old(self).accept@, part_of@));
    }

    /// Merges states that no split separates (see `refine`).
    pub fn minimize(&mut self)
        requires
            old(self).wf(),
        ensures
            final(self).wf(),
            old(self).transitions.len() == 0 ==> *final(self) == *old(self),
            old(self).transitions.len() > 0 ==> minimized(*old(self), *final(self)),
            final(self).intervals == old(self).intervals,
            final(self).transitions.len() <= old(self).transitions.len(),
    {
        if self.transitions.len() == 0 {
            return ;
        }
        self.refine(false);
    }

    /// `minimize`, with the keys of each block worked out in parallel.
    pub fn minimize_parallel(&mut self)
        requires
            old(self).wf(),
        ensures
            final(self).wf(),
            old(self).transitions.len() == 0 ==> *final(self) == *old(self),
            old(self).transitions.len() > 0 ==> minimized(*old(self), *final(self)),
            final(self).intervals == old(self).intervals,
            final(self).transitions.len() <= old(self).transitions.len(),
    {
        if self.transitions.len() == 0 {
            return ;
        }
        self.refine(true);
    }
}

/// How often `x` occurs in `s`.
pub open spec fn occurrences(s: Seq<Option<usize>>, x: Option<usize>) -> nat
    decreases s.len(),
{
    if s.len() == 0 {
        0
    } else {
        occurrences(s.drop_last(), x) + if s.last() == x {
            1nat
        } else {
            0nat
        }
    }
}

/// The default entry among the first `k` entries of a row, with its count:
/// an entry takes over when its count so far exceeds the best count.
pub open spec fn default_upto(row: Seq<Option<usize>>, k: nat) -> (Option<usize>, nat)
    decreases k,
{
    if k <= 1 {
        (row[0], 1)
    } else {
        let (best, best_count) = default_upto(row, (k - 1) as nat);
        let count = occurrences(row.take(k - 1), row[k - 1]) + 1;
        if count > best_count {
            (row[k - 1], count)
        } else {
            (best, best_count)
        }
    }
}

/// The entries of the first `k` classes that differ from `d` and lead
/// somewhere, as (class, state) pairs.
pub open spec fn specials(row: Seq<Option<usize>>, d: Option<usize>, k: nat) -> Seq<(usize, usize)>
    decreases k,
{
    if k == 0 {
        seq![]
    } else {
        specials(row, d, (k - 1) as nat) + if row[k - 1] != d && row[k - 1] is Some {
            seq![((k - 1) as usize, row[k - 1]->0)]
        } else {
            seq![]
        }
    }
}

/// The default transition of a row: its most frequent entry (state 0 when
/// that is no transition or the row is empty).
pub open spec fn default_of(row: Seq<Option<usize>>) -> usize {
    if row.len() == 0 {
        0
    } else {
        match default_upto(row, row.len()).0 {
            Some(x) => x,
            None => 0,
        }
    }
}

/// The transitions of a row other than its default.
pub open spec fn specials_of(row: Seq<Option<usize>>) -> Seq<(usize, usize)> {
    if row.len() == 0 {
        seq![]
    } else {
        specials(row, default_upto(row, row.len()).0, row.len())
    }
}

/// The default transition and the exceptions of one row.
fn compress_row(row: &Vec<Option<usize>>) -> (r: (usize, Vec<(usize, usize)>))
    ensures
        r.0 == default_of(row@),
        r.1@ == specials_of(row@),
{
    if row.len() == 0 {
        return (0, Vec::new());
    }
    let mut best = row[0];
    let mut best_count: usize = 1;
    let mut i: usize = 1;
    while i < row.len()
        invariant
            1 <= i <= row.len(),
            (best, best_count as nat) == default_upto(row@, i as nat),
            best_count <= i,
        decreases row.len() - i,
    {
        let mut count: usize = 1;
        let mut j: usize = 0;
        while j < i
            invariant
                j <= i < row.len(),
                count == occurrences(row@.take(j as int), row@[i as int]) + 1,
                count <= j + 1,
            decreases i - j,
        {
            assert(row@.take(j + 1).drop_last() =~= row@.take(j as int));
            if row[j] == row[i] {
                count = count + 1;
            }
            j = j + 1;
        }
        if count > best_count {
            best_count = count;
            best = row[i];
        }
        i = i + 1;
    }
    let default = match best {
        Some(x) => x,
        None => 0,
    };
    let mut special: Vec<(usize, usize)> = Vec::new();
    let mut c: usize = 0;
    while c < row.len()
        invariant
            c <= row.len(),
            row.len() > 0,
            best == default_upto(row@, row.len() as nat).0,
            special@ == specials(row@, best, c as nat),
        decreases row.len() - c,
    {
        let next_opt = row[c];
        if next_opt != best {
            if let Some(next) = next_opt {
                special.push((c, next));
            }
        }
        c = c + 1;
        assert(special@ =~= specials(row@, best, c as nat));
    }
    (default, special)
}

/// The default transition of each row, with the exceptions listed.
pub open spec fn compressed(dfa: DFA, c: CompressedDFA) -> bool {
    &&& c.default_trans@ == table(dfa.transitions@).map_values(|row: Seq<Option<usize>>| default_of(row))
    &&& c.special_trans@.map_values(|v: Vec<(usize, usize)>| v@) == table(dfa.transitions@).map_values(
        |row: Seq<Option<usize>>| specials_of(row),
    )
    &&& c.accept@ == dfa.accept@
    &&& c.start_state == dfa.start_state
    &&& c.intervals@ == dfa.intervals@
}

/// The state a compressed row leads to on class `c`: its exception for
/// `c` if it lists one, else its default.
pub open spec fn lookup(default: usize, exceptions: Seq<(usize, usize)>, c: int) -> usize
    decreases exceptions.len(),
{
    if exceptions.len() == 0 {
        default
    } else if exceptions.last().0 == c {
        exceptions.last().1
    } else {
        lookup(default, exceptions.drop_last(), c)
    }
}

proof fn lemma_lookup_specials(row: Seq<Option<usize>>, d: Option<usize>, def: usize, k: nat, c: int)
    requires
        k <= row.len(),
        row.len() <= usize::MAX,
        0 <= c < row.len(),
    ensures
        lookup(def, specials(row, d, k), c) == if c < k && row[c] != d && row[c] is Some {
            row[c]->0
        } else {
            def
        },
    decreases k,
{
    if k > 0 {
        let prev = specials(row, d, (k - 1) as nat);
        lemma_lookup_specials(row, d, def, (k - 1) as nat, c);
        if row[k - 1] != d && row[k - 1] is Some {
            let sp = specials(row, d, k);
            assert(sp == prev + seq![((k - 1) as usize, row[k - 1]->0)]);
            assert(sp.drop_last() =~= prev);
            assert(sp.last() == ((k - 1) as usize, row[k - 1]->0));
            assert(((k - 1) as usize) as int == k - 1);
        } else {
            assert(specials(row, d, k) =~= prev);
        }
    }
}

/// Compression keeps every transition: where state `s` has a transition on
/// class `c`, the compressed row of `s` leads to the same state.
pub proof fn law_compress_keeps_transitions(dfa: DFA, cd: CompressedDFA, s: int, c: int)
    requires
        compressed(dfa, cd),
        0 <= s < dfa.transitions.len(),
        0 <= c < dfa.transitions@[s].len(),
        dfa.transitions@[s]@[c] is Some,
    ensures
        lookup(cd.default_trans@[s], cd.special_trans@[s]@, c) == dfa.transitions@[s]@[c]->0,
{
    let row = table(dfa.transitions@)[s];
    assert(row == dfa.transitions@[s]@);
    assert(cd.default_trans@[s] == default_of(row));
    let sm = cd.special_trans@.map_values(|v: Vec<(usize, usize)>| v@);
    let tm = table(dfa.transitions@).map_values(|r: Seq<Option<usize>>| specials_of(r));
    assert(sm == tm);
    assert(tm[s] == specials_of(row));
    assert(sm.len() == cd.special_trans@.len());
    assert(sm[s] == cd.special_trans@[s]@);
    let d = default_upto(row, row.len()).0;
    assert(specials_of(row) == specials(row, d, row.len()));
    assert(cd.special_trans@[s]@ == specials_of(row));
    lemma_lookup_specials(row, d, default_of(row), row.len(), c);
    if row[c] == d {
        assert(default_of(row) == row[c]->0);
    }
}

impl DFA {
    /// The table as a default transition per state and a list of the
    /// transitions that differ from it.
    pub fn compress(&self) -> (c: CompressedDFA)
        ensures
            compressed(*self, c),
    {
        let ghost t = table(self.transitions@);
        let mut default_trans: Vec<usize> = Vec::new();
        let mut special_trans: Vec<Vec<(usize, usize)>> = Vec::new();
        let mut s: usize = 0;
        while s < self.transitions.len()
            invariant
                t == table(self.transitions@),
                s <= self.transitions.len(),
                default_trans@ == t.take(s as int).map_values(|row: Seq<Option<usize>>| default_of(row)),
                special_trans@.map_values(|v: Vec<(usize, usize)>| v@) == t.take(s as int).map_values(
                    |row: Seq<Option<usize>>| specials_of(row),
                ),
            decreases self.transitions.len() - s,
        {
            let (d, sp) = compress_row(&self.transitions[s]);
            assert(self.transitions@[s as int]@ == t[s as int]);
            let ghost before = special_trans@;
            let ghost spv = sp@;
            default_trans.push(d);
            special_trans.push(sp);
            assert(special_trans@.map_values(|v: Vec<(usize, usize)>| v@) =~= before.map_values(
                |v: Vec<(usize, usize)>| v@,
            ).push(spv));
            assert(t.take(s + 1) =~= t.take(s as int).push(t[s as int]));
            s = s + 1;
            assert(default_trans@ =~= t.take(s as int).map_values(|row: Seq<Option<usize>>| default_of(row)));
            assert(special_trans@.map_values(|v: Vec<(usize, usize)>| v@) =~= t.take(s as int).map_values(
                |row: Seq<Option<usize>>| specials_of(row),
            ));
        }
        assert(t.take(s as int) =~= t);
        let mut accept: Vec<Option<usize>> = Vec::new();
        let mut i: usize = 0;
        while i < self.accept.len()
            invariant
                i <= self.accept.len(),
                accept@ == self.accept@.take(i as int),
            decreases self.accept.len() - i,
        {
            accept.push(self.accept[i]);
            i = i + 1;
            assert(accept@ =~= self.accept@.take(i as int));
        }
        assert(self.accept@.take(i as int) =~= self.accept@);
        let mut intervals: Vec<(u32, u32)> = Vec::new();
        let mut k: usize = 0;
        while k < self.intervals.len()
            invariant
                k <= self.intervals.len(),
                intervals@ == self.intervals@.take(k as int),
            decreases self.intervals.len() - k,
        {
            intervals.push(self.intervals[k]);
            k = k + 1;
            assert(intervals@ =~= self.intervals@.take(k as int));
        }
        assert(self.intervals@.take(k as int) =~= self.intervals@);
        CompressedDFA { default_trans, special_trans, accept, start_state: self.start_state, intervals }
    }
}

} // verus!
