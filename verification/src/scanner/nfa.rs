//! Nondeterministic finite automata, built from regular expressions by
//! Thompson's construction.
//!
//! Every fragment has one start and one accept state; the fragments of
//! several token patterns hang off a common start state.
use vstd::prelude::*;
use crate::base::interval::{Interval, boundary_points, lemma_sorted_unique, pieces, strictly_increasing};
use crate::base::regex::ast::{CharClass, CharClassItem, RegexModel, RegexType, RepeatType};

verus! {

#[derive(Debug, Clone, Copy)]
pub enum EdgeType {
    Epsilon,
    Character,
    Range,
}

#[derive(Debug, Clone, Copy)]
pub struct Edge {
    pub edge_type: EdgeType,
    pub character: Option<u32>,
    pub range_start: Option<u32>,
    pub range_end: Option<u32>,
    pub target: usize,
}

#[derive(Debug, Clone)]
pub struct State {
    pub edges: Vec<Edge>,
}

/// States with their outgoing edges; `accepts` pairs an accept state with
/// the token it recognises.
#[derive(Debug, Clone)]
pub struct NFA {
    pub states: Vec<State>,
    pub start: usize,
    pub accepts: Vec<(usize, usize)>,
}

/// The edges of each state: the shape of an automaton.
pub open spec fn graph(states: Seq<State>) -> Seq<Seq<Edge>> {
    states.map_values(|s: State| s.edges@)
}

/// `g` with `e` added last to the edges of `from`.
pub open spec fn with_edge(g: Seq<Seq<Edge>>, from: int, e: Edge) -> Seq<Seq<Edge>> {
    g.update(from, g[from].push(e))
}

/// Every edge leads to a state of the automaton.
pub open spec fn targets_ok(g: Seq<Seq<Edge>>) -> bool {
    forall|i: int, j: int|
        0 <= i < g.len() && 0 <= j < g[i].len() ==> #[trigger] g[i][j].target < g.len()
}

pub open spec fn eps(t: int) -> Edge {
    Edge {
        edge_type: EdgeType::Epsilon,
        character: None,
        range_start: None,
        range_end: None,
        target: t as usize,
    }
}

pub open spec fn chr(c: u32, t: int) -> Edge {
    Edge {
        edge_type: EdgeType::Character,
        character: Some(c),
        range_start: None,
        range_end: None,
        target: t as usize,
    }
}

pub open spec fn rng(a: u32, b: u32, t: int) -> Edge {
    Edge {
        edge_type: EdgeType::Range,
        character: None,
        range_start: Some(a),
        range_end: Some(b),
        target: t as usize,
    }
}

/// The half-open interval of a closed range.
pub open spec fn item_interval(i: CharClassItem) -> Interval {
    Interval { start: i.start, end: (i.end + 1) as u32 }
}

/// The values of `s` in increasing order.
pub open spec fn sorted_points(s: Set<u32>) -> Seq<u32> {
    choose|q: Seq<u32>| strictly_increasing(q) && q.to_set() == s
}

/// The range edges to `a` of a character class. A negated class gets one
/// edge for every piece between the boundaries of its ranges (and of the
/// code point space).
pub open spec fn class_edges(negated: bool, items: Seq<CharClassItem>, a: int) -> Seq<Edge> {
    if negated {
        pieces(sorted_points(boundary_points(items.map_values(|i: CharClassItem| item_interval(i))))).map_values(
            |iv: Interval| rng(iv.start, (iv.end - 1) as u32, a),
        )
    } else {
        items.map_values(|i: CharClassItem| rng(i.start, i.end, a))
    }
}

/// Two fresh states joined by an epsilon edge.
pub open spec fn empty_frag(g: Seq<Seq<Edge>>) -> (Seq<Seq<Edge>>, int, int) {
    let n = g.len() as int;
    (with_edge(g.push(seq![]).push(seq![]), n, eps(n + 1)), n, n + 1)
}

/// The fragment for `r` added to `g`: the new graph, and the fragment's
/// start and accept states.
pub open spec fn frag(r: RegexModel, g: Seq<Seq<Edge>>) -> (Seq<Seq<Edge>>, int, int)
    decreases r, 0nat,
{
    let n = g.len() as int;
    match r {
        RegexModel::Char(c) => (with_edge(g.push(seq![]).push(seq![]), n, chr(c, n + 1)), n, n + 1),
        RegexModel::CharClass(negated, items) => (
            g.push(class_edges(negated, items, n + 1)).push(seq![]),
            n,
            n + 1,
        ),
        RegexModel::Concat(x, y) => {
            let (g1, s1, a1) = frag(*x, g);
            let (g2, s2, a2) = frag(*y, g1);
            (with_edge(g2, a1, eps(s2)), s1, a2)
        },
        RegexModel::Alt(x, y) => {
            let (g1, s1, a1) = frag(*x, g);
            let (g2, s2, a2) = frag(*y, g1);
            let st = g2.len() as int;
            let g3 = with_edge(with_edge(g2.push(seq![]).push(seq![]), st, eps(s1)), st, eps(s2));
            (with_edge(with_edge(g3, a1, eps(st + 1)), a2, eps(st + 1)), st, st + 1)
        },
        RegexModel::Star(x) => {
            let (g1, s, a) = frag(*x, g);
            let st = g1.len() as int;
            let g2 = with_edge(with_edge(g1.push(seq![]).push(seq![]), st, eps(s)), st, eps(st + 1));
            (with_edge(with_edge(g2, a, eps(s)), a, eps(st + 1)), st, st + 1)
        },
        RegexModel::Plus(x) => {
            let (g1, s, a) = frag(*x, g);
            let st = g1.len() as int;
            let g2 = with_edge(g1.push(seq![]).push(seq![]), st, eps(s));
            (with_edge(with_edge(g2, a, eps(s)), a, eps(st + 1)), st, st + 1)
        },
        RegexModel::Opt(x) => {
            let (g1, s, a) = frag(*x, g);
            let st = g1.len() as int;
            let g2 = with_edge(with_edge(g1.push(seq![]).push(seq![]), st, eps(s)), st, eps(st + 1));
            (with_edge(g2, a, eps(st + 1)), st, st + 1)
        },
        RegexModel::Repeat(x, kind) => match kind {
            RepeatType::Exactly(count) => if count == 0 {
                empty_frag(g)
            } else {
                let (g1, s, a) = frag(*x, g);
                let (g2, a2) = chain(*x, g1, a, (count - 1) as nat);
                (g2, s, a2)
            },
            RepeatType::AtLeast(count) => {
                let (g1, s, a) = frag(*x, g);
                let (g2, a2) = chain(*x, g1, a, if count >= 1 { (count - 1) as nat } else { 0 });
                let g3 = with_edge(g2, a2, eps(s));
                let f = g3.len() as int;
                (with_edge(g3.push(seq![]), a2, eps(f)), s, f)
            },
            RepeatType::Between(lo, hi) => if lo == 0 && hi == 0 {
                empty_frag(g)
            } else {
                let (g1, s, a) = frag(*x, g);
                let (g2, a2) = chain(*x, g1, a, if lo >= 1 { (lo - 1) as nat } else { 0 });
                let (g3, a3) = opt_chain(*x, g2, a2, (hi - lo) as nat);
                (g3, s, a3)
            },
        },
    }
}

/// `k` more copies of `x`, each joined to the accept state before it.
pub open spec fn chain(x: RegexModel, g: Seq<Seq<Edge>>, acc: int, k: nat) -> (Seq<Seq<Edge>>, int)
    decreases x, k + 1,
{
    if k == 0 {
        (g, acc)
    } else {
        let (g1, s, a) = frag(x, g);
        chain(x, with_edge(g1, acc, eps(s)), a, (k - 1) as nat)
    }
}

/// `k` optional copies of `x`: each may be entered or passed by.
pub open spec fn opt_chain(x: RegexModel, g: Seq<Seq<Edge>>, cur: int, k: nat) -> (
    Seq<Seq<Edge>>,
    int,
)
    decreases x, k + 1,
{
    if k == 0 {
        (g, cur)
    } else {
        let (g1, s, a) = frag(x, g);
        let tail = g1.len() as int;
        let g2 = with_edge(with_edge(g1.push(seq![]), cur, eps(tail)), cur, eps(s));
        opt_chain(x, with_edge(g2, a, eps(tail)), tail, (k - 1) as nat)
    }
}

/// The ranges of a negated class end below `u32::MAX`.
pub open spec fn class_ok(negated: bool, items: Seq<CharClassItem>) -> bool {
    negated ==> (forall|k: int| 0 <= k < items.len() ==> #[trigger] items[k].end < u32::MAX)
}

/// What the construction needs of a regular expression: the ranges of a
/// negated class end below `u32::MAX`, and bounded repetitions have their
/// lower bound at most their upper bound.
pub open spec fn regex_ok(r: RegexModel) -> bool
    decreases r,
{
    match r {
        RegexModel::Char(_) => true,
        RegexModel::CharClass(negated, items) => class_ok(negated, items),
        RegexModel::Concat(x, y) => regex_ok(*x) && regex_ok(*y),
        RegexModel::Alt(x, y) => regex_ok(*x) && regex_ok(*y),
        RegexModel::Star(x) => regex_ok(*x),
        RegexModel::Plus(x) => regex_ok(*x),
        RegexModel::Opt(x) => regex_ok(*x),
        RegexModel::Repeat(x, kind) => regex_ok(*x) && match kind {
            RepeatType::Between(lo, hi) => lo <= hi,
            _ => true,
        },
    }
}

/// Whether every range of `items` ends below `u32::MAX`.
fn ends_below_max(items: &Vec<CharClassItem>) -> (b: bool)
    ensures
        b == (forall|m: int| 0 <= m < items@.len() ==> #[trigger] items@[m].end < u32::MAX),
{
    let mut k: usize = 0;
    while k < items.len()
        invariant
            k <= items.len(),
            forall|m: int| 0 <= m < k ==> #[trigger] items@[m].end < u32::MAX,
        decreases items.len() - k,
    {
        if items[k].end == u32::MAX {
            return false;
        }
        k = k + 1;
    }
    true
}

/// Whether `r` meets `regex_ok`, what `build_nfa` needs of a pattern.
pub fn regex_fits(r: &RegexType) -> (b: bool)
    ensures
        b == regex_ok(r@),
    decreases r,
{
    match r {
        RegexType::Char(_) => true,
        RegexType::CharClass(cls) => !cls.negated || ends_below_max(&cls.items),
        RegexType::Concat(a, b) => regex_fits(a) && regex_fits(b),
        RegexType::Alt(a, b) => regex_fits(a) && regex_fits(b),
        RegexType::Star(a) => regex_fits(a),
        RegexType::Plus(a) => regex_fits(a),
        RegexType::Opt(a) => regex_fits(a),
        RegexType::Repeat(a, kind) => {
            let inner = regex_fits(a);
            match kind {
                RepeatType::Between(lo, hi) => inner && *lo <= *hi,
                _ => inner,
            }
        },
    }
}

proof fn lemma_push_empty(g: Seq<Seq<Edge>>)
    requires
        targets_ok(g),
    ensures
        targets_ok(g.push(seq![])),
{
    let h = g.push(seq![]);
    assert forall|i: int, j: int| 0 <= i < h.len() && 0 <= j < h[i].len() implies #[trigger] h[i][j].target
        < h.len() by {
        assert(i < g.len());
        assert(h[i] == g[i]);
    }
}

proof fn lemma_with_edge(g: Seq<Seq<Edge>>, from: int, e: Edge)
    requires
        targets_ok(g),
        0 <= from < g.len(),
        e.target < g.len(),
    ensures
        targets_ok(with_edge(g, from, e)),
        with_edge(g, from, e).len() == g.len(),
{
    let h = with_edge(g, from, e);
    assert forall|i: int, j: int| 0 <= i < h.len() && 0 <= j < h[i].len() implies #[trigger] h[i][j].target
        < h.len() by {
        if i != from {
            assert(h[i] == g[i]);
        } else if j < g[i].len() {
            assert(h[i][j] == g[i][j]);
        }
    }
}

/// The pieces between boundaries are not empty.
proof fn lemma_pieces_nonempty(b: Seq<u32>)
    ensures
        forall|k: int| 0 <= k < pieces(b).len() ==> #[trigger] pieces(b)[k].start < pieces(b)[k].end,
    decreases b.len(),
{
    if b.len() >= 2 {
        lemma_pieces_nonempty(b.drop_last());
        let p = pieces(b.drop_last());
        let w0 = b[b.len() - 2];
        let w1 = b[b.len() - 1];
        if w0 < w1 {
            let q = p.push(Interval { start: w0, end: w1 });
            assert(pieces(b) == q);
            assert forall|k: int| 0 <= k < q.len() implies #[trigger] q[k].start < q[k].end by {
                if k < p.len() {
                    assert(q[k] == p[k]);
                }
            }
        } else {
            assert(pieces(b) == p);
        }
    }
}

pub fn epsilon_edge(target: usize) -> (e: Edge)
    ensures
        e == eps(target as int),
{
    Edge {
        edge_type: EdgeType::Epsilon,
        character: None,
        range_start: None,
        range_end: None,
        target,
    }
}

pub fn char_edge(ch: u32, target: usize) -> (e: Edge)
    ensures
        e == chr(ch, target as int),
{
    Edge {
        edge_type: EdgeType::Character,
        character: Some(ch),
        range_start: None,
        range_end: None,
        target,
    }
}

pub fn range_edge(start: u32, end: u32, target: usize) -> (e: Edge)
    ensures
        e == rng(start, end, target as int),
{
    Edge {
        edge_type: EdgeType::Range,
        character: None,
        range_start: Some(start),
        range_end: Some(end),
        target,
    }
}

impl NFA {
    /// Every edge leads to a state, and the start state and every accept
    /// state are states.
    pub open spec fn wf(&self) -> bool {
        &&& targets_ok(graph(self.states@))
        &&& self.start < self.states.len()
        &&& forall|k: int| 0 <= k < self.accepts.len() ==> #[trigger] self.accepts@[k].0 < self.states.len()
    }

    pub fn new() -> (n: Self)
        ensures
            n.states@ == Seq::<State>::empty(),
            n.start == 0,
            n.accepts@ == Seq::<(usize, usize)>::empty(),
    {
        NFA { states: Vec::new(), start: 0, accepts: Vec::new() }
    }

    /// Adds a state; returns its index.
    pub fn add_state(&mut self, state: State) -> (index: usize)
        ensures
            final(self).states@ == old(self).states@.push(state),
            index == old(self).states.len(),
            final(self).start == old(self).start,
            final(self).accepts == old(self).accepts,
    {
        let index = self.states.len();
        self.states.push(state);
        index
    }

    pub fn add_edge(&mut self, from: usize, edge: Edge)
        requires
            from < old(self).states.len(),
        ensures
            graph(final(self).states@) == with_edge(graph(old(self).states@), from as int, edge),
            final(self).start == old(self).start,
            final(self).accepts == old(self).accepts,
    {
        self.states[from].edges.push(edge);
        assert(graph(self.states@) =~= with_edge(graph(old(self).states@), from as int, edge));
    }
}

impl Default for NFA {
    fn default() -> (n: Self)
        ensures
            n.states@ == Seq::<State>::empty(),
            n.start == 0,
            n.accepts@ == Seq::<(usize, usize)>::empty(),
    {
        Self::new()
    }
}

/// Adds a state without edges; returns its index.
fn new_state(nfa: &mut NFA) -> (i: usize)
    requires
        targets_ok(graph(old(nfa).states@)),
    ensures
        graph(final(nfa).states@) == graph(old(nfa).states@).push(seq![]),
        i == old(nfa).states.len(),
        final(nfa).states.len() == old(nfa).states.len() + 1,
        targets_ok(graph(final(nfa).states@)),
        final(nfa).start == old(nfa).start,
        final(nfa).accepts == old(nfa).accepts,
{
    let i = nfa.add_state(State { edges: Vec::new() });
    proof {
        assert(graph(nfa.states@) =~= graph(old(nfa).states@).push(seq![]));
        lemma_push_empty(graph(old(nfa).states@));
    }
    i
}

/// Adds the edge `e` to the state `from`.
fn link(nfa: &mut NFA, from: usize, e: Edge)
    requires
        from < old(nfa).states.len(),
        e.target < old(nfa).states.len(),
        targets_ok(graph(old(nfa).states@)),
    ensures
        graph(final(nfa).states@) == with_edge(graph(old(nfa).states@), from as int, e),
        final(nfa).states.len() == old(nfa).states.len(),
        targets_ok(graph(final(nfa).states@)),
        final(nfa).start == old(nfa).start,
        final(nfa).accepts == old(nfa).accepts,
{
    nfa.add_edge(from, e);
    proof {
        lemma_with_edge(graph(old(nfa).states@), from as int, e);
    }
}

/// The range edges of a character class, added to the state `s`, which
/// stands last but one with no edges yet.
fn add_class_edges(nfa: &mut NFA, class: &CharClass, s: usize, a: usize)
    requires
        targets_ok(graph(old(nfa).states@)),
        old(nfa).states.len() == s + 2,
        a == s + 1,
        graph(old(nfa).states@)[s as int] == Seq::<Edge>::empty(),
        class_ok(class.negated, class.items@),
    ensures
        graph(final(nfa).states@) == graph(old(nfa).states@).update(
            s as int,
            class_edges(class.negated, class.items@, a as int),
        ),
        final(nfa).states.len() == old(nfa).states.len(),
        targets_ok(graph(final(nfa).states@)),
        final(nfa).start == old(nfa).start,
        final(nfa).accepts == old(nfa).accepts,
{
    let ghost g0 = graph(nfa.states@);
    let ghost es = class_edges(class.negated, class.items@, a as int);
    let mut bounds: Vec<(u32, u32)> = Vec::new();
    if class.negated {
        assert(forall|k: int| 0 <= k < class.items@.len() ==> #[trigger] class.items@[k].end < u32::MAX);
        let mut ivs: Vec<Interval> = Vec::new();
        let mut i: usize = 0;
        while i < class.items.len()
            invariant
                i <= class.items.len(),
                forall|k: int| 0 <= k < class.items@.len() ==> #[trigger] class.items@[k].end < u32::MAX,
                ivs@ == class.items@.take(i as int).map_values(|x: CharClassItem| item_interval(x)),
            decreases class.items.len() - i,
        {
            ivs.push(Interval::new(class.items[i].start, class.items[i].end + 1));
            i = i + 1;
            assert(ivs@ =~= class.items@.take(i as int).map_values(|x: CharClassItem| item_interval(x)));
        }
        assert(class.items@.take(i as int) == class.items@);
        let points = Interval::collect_boundaries(ivs.as_slice());
        proof {
            let set = boundary_points(ivs@);
            assert(strictly_increasing(points@) && points@.to_set() == set);
            let q = sorted_points(set);
            assert(strictly_increasing(q) && q.to_set() == set);
            lemma_sorted_unique(q, points@);
        }
        let pcs = Interval::build_intervals(points.as_slice());
        proof {
            lemma_pieces_nonempty(points@);
        }
        let mut j: usize = 0;
        while j < pcs.len()
            invariant
                j <= pcs.len(),
                forall|k: int| 0 <= k < pcs.len() ==> #[trigger] pcs@[k].start < pcs@[k].end,
                bounds@ == pcs@.take(j as int).map_values(
                    |iv: Interval| (iv.start, (iv.end - 1) as u32),
                ),
            decreases pcs.len() - j,
        {
            bounds.push((pcs[j].start, pcs[j].end - 1));
            j = j + 1;
            assert(bounds@ =~= pcs@.take(j as int).map_values(
                |iv: Interval| (iv.start, (iv.end - 1) as u32),
            ));
        }
        assert(pcs@.take(j as int) == pcs@);
        assert(es =~= bounds@.map_values(|b: (u32, u32)| rng(b.0, b.1, a as int)));
    } else {
        let mut i: usize = 0;
        while i < class.items.len()
            invariant
                i <= class.items.len(),
                bounds@ == class.items@.take(i as int).map_values(
                    |x: CharClassItem| (x.start, x.end),
                ),
            decreases class.items.len() - i,
        {
            bounds.push((class.items[i].start, class.items[i].end));
            i = i + 1;
            assert(bounds@ =~= class.items@.take(i as int).map_values(
                |x: CharClassItem| (x.start, x.end),
            ));
        }
        assert(class.items@.take(i as int) == class.items@);
        assert(es =~= bounds@.map_values(|b: (u32, u32)| rng(b.0, b.1, a as int)));
    }
    let ghost all = bounds@.map_values(|b: (u32, u32)| rng(b.0, b.1, a as int));
    let mut k: usize = 0;
    assert(all.take(0) =~= Seq::<Edge>::empty());
    assert(g0.update(s as int, all.take(0)) =~= g0);
    while k < bounds.len()
        invariant
            k <= bounds.len(),
            a == s + 1,
            g0.len() == s + 2,
            all == bounds@.map_values(|b: (u32, u32)| rng(b.0, b.1, a as int)),
            graph(nfa.states@) == g0.update(s as int, all.take(k as int)),
            nfa.states.len() == s + 2,
            targets_ok(graph(nfa.states@)),
            nfa.start == old(nfa).start,
            nfa.accepts == old(nfa).accepts,
        decreases bounds.len() - k,
    {
        let ghost before = graph(nfa.states@);
        let e = range_edge(bounds[k].0, bounds[k].1, a);
        link(nfa, s, e);
        k = k + 1;
        assert(all.take(k as int) =~= all.take(k - 1).push(e));
        assert(graph(nfa.states@) =~= g0.update(s as int, all.take(k as int)));
    }
    assert(all.take(k as int) == all);
}

/// Two fresh states joined by an epsilon edge.
fn build_empty(nfa: &mut NFA) -> (r: (usize, usize))
    requires
        targets_ok(graph(old(nfa).states@)),
    ensures
        (graph(final(nfa).states@), r.0 as int, r.1 as int) == empty_frag(graph(old(nfa).states@)),
        targets_ok(graph(final(nfa).states@)),
        old(nfa).states.len() <= r.0 < final(nfa).states.len(),
        old(nfa).states.len() <= r.1 < final(nfa).states.len(),
        final(nfa).start == old(nfa).start,
        final(nfa).accepts == old(nfa).accepts,
{
    let start = new_state(nfa);
    let accept = new_state(nfa);
    link(nfa, start, epsilon_edge(accept));
    (start, accept)
}

/// `k` more copies of `sub` after the accept state `start`.
fn build_chain(sub: &RegexType, nfa: &mut NFA, start: usize, k: u32) -> (a: usize)
    requires
        regex_ok(sub@),
        targets_ok(graph(old(nfa).states@)),
        start < old(nfa).states.len(),
    ensures
        (graph(final(nfa).states@), a as int) == chain(
            sub@,
            graph(old(nfa).states@),
            start as int,
            k as nat,
        ),
        targets_ok(graph(final(nfa).states@)),
        a < final(nfa).states.len(),
        a == start || old(nfa).states.len() <= a,
        old(nfa).states.len() <= final(nfa).states.len(),
        final(nfa).start == old(nfa).start,
        final(nfa).accepts == old(nfa).accepts,
    decreases sub, 3nat,
{
    let ghost g0 = graph(nfa.states@);
    let mut accept = start;
    let mut i: u32 = 0;
    while i < k
        invariant
            i <= k,
            regex_ok(sub@),
            chain(sub@, g0, start as int, k as nat) == chain(
                sub@,
                graph(nfa.states@),
                accept as int,
                (k - i) as nat,
            ),
            targets_ok(graph(nfa.states@)),
            accept < nfa.states.len(),
            accept == start || old(nfa).states.len() <= accept,
            old(nfa).states.len() <= nfa.states.len(),
            nfa.start == old(nfa).start,
            nfa.accepts == old(nfa).accepts,
        decreases k - i,
    {
        let (ns, na) = build_regex_fragment(sub, nfa);
        link(nfa, accept, epsilon_edge(ns));
        accept = na;
        i = i + 1;
    }
    accept
}

/// `k` optional copies of `sub` after the state `start`.
fn build_opt_chain(sub: &RegexType, nfa: &mut NFA, start: usize, k: u32) -> (a: usize)
    requires
        regex_ok(sub@),
        targets_ok(graph(old(nfa).states@)),
        start < old(nfa).states.len(),
    ensures
        (graph(final(nfa).states@), a as int) == opt_chain(
            sub@,
            graph(old(nfa).states@),
            start as int,
            k as nat,
        ),
        targets_ok(graph(final(nfa).states@)),
        a < final(nfa).states.len(),
        a == start || old(nfa).states.len() <= a,
        old(nfa).states.len() <= final(nfa).states.len(),
        final(nfa).start == old(nfa).start,
        final(nfa).accepts == old(nfa).accepts,
    decreases sub, 3nat,
{
    let ghost g0 = graph(nfa.states@);
    let mut current = start;
    let mut i: u32 = 0;
    while i < k
        invariant
            i <= k,
            regex_ok(sub@),
            opt_chain(sub@, g0, start as int, k as nat) == opt_chain(
                sub@,
                graph(nfa.states@),
                current as int,
                (k - i) as nat,
            ),
            targets_ok(graph(nfa.states@)),
            current < nfa.states.len(),
            current == start || old(nfa).states.len() <= current,
            old(nfa).states.len() <= nfa.states.len(),
            nfa.start == old(nfa).start,
            nfa.accepts == old(nfa).accepts,
        decreases k - i,
    {
        let (os, oa) = build_regex_fragment(sub, nfa);
        let tail = new_state(nfa);
        link(nfa, current, epsilon_edge(tail));
        link(nfa, current, epsilon_edge(os));
        link(nfa, oa, epsilon_edge(tail));
        current = tail;
        i = i + 1;
    }
    current
}

/// A concatenation or an alternation.
fn build_pair(regex: &RegexType, nfa: &mut NFA) -> (r: (usize, usize))
    requires
        regex_ok(regex@),
        targets_ok(graph(old(nfa).states@)),
        regex is Concat || regex is Alt,
    ensures
        (graph(final(nfa).states@), r.0 as int, r.1 as int) == frag(
            regex@,
            graph(old(nfa).states@),
        ),
        targets_ok(graph(final(nfa).states@)),
        old(nfa).states.len() <= r.0 < final(nfa).states.len(),
        old(nfa).states.len() <= r.1 < final(nfa).states.len(),
        final(nfa).start == old(nfa).start,
        final(nfa).accepts == old(nfa).accepts,
    decreases regex, 1nat,
{
    match regex {
        RegexType::Concat(left, right) => {
            let (s1, a1) = build_regex_fragment(left, nfa);
            let (s2, a2) = build_regex_fragment(right, nfa);
            link(nfa, a1, epsilon_edge(s2));
            (s1, a2)
        },
        RegexType::Alt(left, right) => {
            let (s1, a1) = build_regex_fragment(left, nfa);
            let (s2, a2) = build_regex_fragment(right, nfa);
            let start = new_state(nfa);
            let accept = new_state(nfa);
            link(nfa, start, epsilon_edge(s1));
            link(nfa, start, epsilon_edge(s2));
            link(nfa, a1, epsilon_edge(accept));
            link(nfa, a2, epsilon_edge(accept));
            (start, accept)
        },
        _ => (0, 0),
    }
}

/// `*`, `+` or `?` applied to an expression.
fn build_closure(regex: &RegexType, nfa: &mut NFA) -> (r: (usize, usize))
    requires
        regex_ok(regex@),
        targets_ok(graph(old(nfa).states@)),
        regex is Star || regex is Plus || regex is Opt,
    ensures
        (graph(final(nfa).states@), r.0 as int, r.1 as int) == frag(
            regex@,
            graph(old(nfa).states@),
        ),
        targets_ok(graph(final(nfa).states@)),
        old(nfa).states.len() <= r.0 < final(nfa).states.len(),
        old(nfa).states.len() <= r.1 < final(nfa).states.len(),
        final(nfa).start == old(nfa).start,
        final(nfa).accepts == old(nfa).accepts,
    decreases regex, 1nat,
{
    match regex {
        RegexType::Star(sub) => {
            let (s_in, a_in) = build_regex_fragment(sub, nfa);
            let start = new_state(nfa);
            let accept = new_state(nfa);
            link(nfa, start, epsilon_edge(s_in));
            link(nfa, start, epsilon_edge(accept));
            link(nfa, a_in, epsilon_edge(s_in));
            link(nfa, a_in, epsilon_edge(accept));
            (start, accept)
        },
        RegexType::Plus(sub) => {
            let (s_in, a_in) = build_regex_fragment(sub, nfa);
            let start = new_state(nfa);
            let accept = new_state(nfa);
            link(nfa, start, epsilon_edge(s_in));
            link(nfa, a_in, epsilon_edge(s_in));
            link(nfa, a_in, epsilon_edge(accept));
            (start, accept)
        },
        RegexType::Opt(sub) => {
            let (s_in, a_in) = build_regex_fragment(sub, nfa);
            let start = new_state(nfa);
            let accept = new_state(nfa);
            link(nfa, start, epsilon_edge(s_in));
            link(nfa, start, epsilon_edge(accept));
            link(nfa, a_in, epsilon_edge(accept));
            (start, accept)
        },
        _ => (0, 0),
    }
}

/// A counted repetition.
fn build_repeat(regex: &RegexType, nfa: &mut NFA) -> (r: (usize, usize))
    requires
        regex_ok(regex@),
        targets_ok(graph(old(nfa).states@)),
        regex is Repeat,
    ensures
        (graph(final(nfa).states@), r.0 as int, r.1 as int) == frag(
            regex@,
            graph(old(nfa).states@),
        ),
        targets_ok(graph(final(nfa).states@)),
        old(nfa).states.len() <= r.0 < final(nfa).states.len(),
        old(nfa).states.len() <= r.1 < final(nfa).states.len(),
        final(nfa).start == old(nfa).start,
        final(nfa).accepts == old(nfa).accepts,
    decreases regex, 1nat,
{
    match regex {
        RegexType::Repeat(sub, kind) => match kind {
            RepeatType::Exactly(count) => {
                if *count == 0 {
                    build_empty(nfa)
                } else {
                    let (start, a0) = build_regex_fragment(sub, nfa);
                    let accept = build_chain(sub, nfa, a0, *count - 1);
                    (start, accept)
                }
            },
            RepeatType::AtLeast(n) => {
                let (start, a0) = build_regex_fragment(sub, nfa);
                let more = if *n >= 1 {
                    *n - 1
                } else {
                    0
                };
                let accept = build_chain(sub, nfa, a0, more);
                link(nfa, accept, epsilon_edge(start));
                let final_accept = new_state(nfa);
                link(nfa, accept, epsilon_edge(final_accept));
                (start, final_accept)
            },
            RepeatType::Between(n, m) => {
                if *n == 0 && *m == 0 {
                    build_empty(nfa)
                } else {
                    let (start, a0) = build_regex_fragment(sub, nfa);
                    let more = if *n >= 1 {
                        *n - 1
                    } else {
                        0
                    };
                    let accept = build_chain(sub, nfa, a0, more);
                    let tail = build_opt_chain(sub, nfa, accept, *m - *n);
                    (start, tail)
                }
            },
        },
        _ => (0, 0),
    }
}

/// Adds the fragment for `regex`; returns its start and accept states.
fn build_regex_fragment(regex: &RegexType, nfa: &mut NFA) -> (r: (usize, usize))
    requires
        regex_ok(regex@),
        targets_ok(graph(old(nfa).states@)),
    ensures
        (graph(final(nfa).states@), r.0 as int, r.1 as int) == frag(
            regex@,
            graph(old(nfa).states@),
        ),
        targets_ok(graph(final(nfa).states@)),
        old(nfa).states.len() <= r.0 < final(nfa).states.len(),
        old(nfa).states.len() <= r.1 < final(nfa).states.len(),
        final(nfa).start == old(nfa).start,
        final(nfa).accepts == old(nfa).accepts,
    decreases regex, 2nat,
{
    match regex {
        RegexType::Char(ch) => {
            let s = new_state(nfa);
            let a = new_state(nfa);
            link(nfa, s, char_edge(*ch, a));
            (s, a)
        },
        RegexType::CharClass(class) => {
            let ghost g0 = graph(nfa.states@);
            let s = new_state(nfa);
            let a = new_state(nfa);
            assert(graph(nfa.states@)[s as int] == Seq::<Edge>::empty());
            add_class_edges(nfa, class, s, a);
            assert(graph(nfa.states@) =~= g0.push(
                class_edges(class.negated, class.items@, a as int),
            ).push(seq![]));
            (s, a)
        },
        RegexType::Concat(..) | RegexType::Alt(..) => build_pair(regex, nfa),
        RegexType::Star(_) | RegexType::Plus(_) | RegexType::Opt(_) => build_closure(regex, nfa),
        RegexType::Repeat(..) => build_repeat(regex, nfa),
    }
}

/// The patterns' expressions by their models.
pub open spec fn pattern_models(ps: Seq<(usize, RegexType)>) -> Seq<(usize, RegexModel)> {
    ps.map_values(|p: (usize, RegexType)| (p.0, p.1@))
}

/// The graph and accept list that `build_nfa` builds: a common start state
/// with an epsilon edge to the fragment of each pattern, in order.
pub open spec fn nfa_of(ps: Seq<(usize, RegexModel)>) -> (Seq<Seq<Edge>>, Seq<(usize, usize)>)
    decreases ps.len(),
{
    if ps.len() == 0 {
        (seq![seq![]], seq![])
    } else {
        let (g, acc) = nfa_of(ps.drop_last());
        let (g1, s, a) = frag(ps.last().1, g);
        (with_edge(g1, 0, eps(s)), acc.push((a as usize, ps.last().0)))
    }
}

/// The automaton recognising the patterns; the accept state of each
/// pattern carries its token.
pub fn build_nfa(patterns: &[(usize, RegexType)]) -> (nfa: NFA)
    requires
        forall|i: int| 0 <= i < patterns@.len() ==> regex_ok(#[trigger] patterns@[i].1@),
    ensures
        (graph(nfa.states@), nfa.accepts@) == nfa_of(pattern_models(patterns@)),
        nfa.start == 0,
        nfa.wf(),
        nfa.accepts.len() == patterns@.len(),
        forall|k: int| 0 <= k < patterns@.len() ==> #[trigger] nfa.accepts@[k].1 == patterns@[k].0,
{
    let ghost ms = pattern_models(patterns@);
    let mut nfa = NFA::new();
    assert(targets_ok(graph(nfa.states@)));
    let global_start = new_state(&mut nfa);
    nfa.start = global_start;
    assert(graph(nfa.states@) =~= seq![seq![]]);
    assert(nfa.accepts@ =~= seq![]);
    assert(ms.take(0) =~= seq![]);
    let mut i: usize = 0;
    while i < patterns.len()
        invariant
            i <= patterns@.len(),
            ms == pattern_models(patterns@),
            forall|j: int| 0 <= j < patterns@.len() ==> regex_ok(#[trigger] patterns@[j].1@),
            (graph(nfa.states@), nfa.accepts@) == nfa_of(ms.take(i as int)),
            global_start == 0,
            nfa.start == 0,
            nfa.states.len() >= 1,
            targets_ok(graph(nfa.states@)),
            nfa.accepts.len() == i,
            forall|k: int| 0 <= k < i ==> #[trigger] nfa.accepts@[k].0 < nfa.states.len(),
            forall|k: int| 0 <= k < i ==> #[trigger] nfa.accepts@[k].1 == patterns@[k].0,
        decreases patterns@.len() - i,
    {
        let ghost before = nfa.accepts@;
        let (sub_start, sub_accept) = build_regex_fragment(&patterns[i].1, &mut nfa);
        link(&mut nfa, global_start, epsilon_edge(sub_start));
        nfa.accepts.push((sub_accept, patterns[i].0));
        proof {
            let t = ms.take(i + 1);
            assert(t.drop_last() =~= ms.take(i as int));
            assert(t.last() == (patterns@[i as int].0, patterns@[i as int].1@));
            assert forall|k: int| 0 <= k < i + 1 implies #[trigger] nfa.accepts@[k].0 < nfa.states.len() by {
                if k < i {
                    assert(nfa.accepts@[k] == before[k]);
                }
            }
            assert forall|k: int| 0 <= k < i + 1 implies #[trigger] nfa.accepts@[k].1 == patterns@[k].0 by {
                if k < i {
                    assert(nfa.accepts@[k] == before[k]);
                }
            }
        }
        i = i + 1;
    }
    assert(ms.take(i as int) =~= ms);
    nfa
}

} // verus!
