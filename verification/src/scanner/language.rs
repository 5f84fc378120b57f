//! The words a regular expression matches, and the proof that the NFA
//! built for a pattern reaches the pattern's accept state on each of them.
use vstd::prelude::*;
use crate::base::regex::ast::{CharClassItem, RegexModel, RepeatType};
use crate::scanner::dfa::{DFA, best_token, subset_table, class_bounds, classes_of, dfa_of, edges_ok, table, eps_closure, eps_step, lemma_closure_step, lemma_start_in_closure, next_set, reads, step_set};
use crate::scanner::nfa::{Edge, EdgeType, chain, empty_frag, eps, frag, opt_chain, with_edge};
use crate::base::interval::{Interval, boundary_points, lemma_pieces_sorted, pieces, strictly_increasing};
use crate::scanner::nfa::{class_edges, item_interval, nfa_of, regex_ok, rng, sorted_points};
use crate::scanner::run::{law_dfa_follows_nfa, law_subset_simulates, table_run, lemma_find_piece, lemma_points_finite, lemma_sorted_exists, nfa_run};

verus! {

/// Whether some range of `items` holds `cp`.
pub open spec fn in_items(items: Seq<CharClassItem>, cp: u32) -> bool {
    exists|k: int| 0 <= k < items.len() && #[trigger] items[k].start <= cp && cp <= items[k].end
}

/// Whether `r` matches the word `w` of code points.
pub open spec fn lang(r: RegexModel, w: Seq<u32>) -> bool
    decreases r, w.len(), 1nat, 0nat, 0int,
{
    match r {
        RegexModel::Char(c) => w == seq![c],
        RegexModel::CharClass(negated, items) => w.len() == 1 && in_items(items, w[0]) != negated,
        RegexModel::Concat(_, _) => split_from(r, w, 0),
        RegexModel::Alt(x, y) => lang(*x, w) || lang(*y, w),
        RegexModel::Star(x) => star(*x, w),
        RegexModel::Plus(_) => split_from(r, w, 0),
        RegexModel::Opt(x) => w.len() == 0 || lang(*x, w),
        RegexModel::Repeat(x, kind) => match kind {
            RepeatType::Exactly(n) => reps(*x, n as nat, w),
            RepeatType::AtLeast(_) => split_from(r, w, 0),
            RepeatType::Between(lo, _) => count_from(r, w, lo as nat),
        },
    }
}

/// For a concatenation, `x{n,}` or `x+`: whether `w` splits at some
/// position from `i` on into a word of the first part and a word of the
/// rest.
pub open spec fn split_from(r: RegexModel, w: Seq<u32>, i: int) -> bool
    decreases r, w.len(), 0nat, 0nat, w.len() + 1 - i,
{
    if i < 0 || i > w.len() {
        false
    } else {
        split_at(r, w, i) || split_from(r, w, i + 1)
    }
}

/// Whether `w` splits at `i` as `split_from` asks.
pub open spec fn split_at(r: RegexModel, w: Seq<u32>, i: int) -> bool
    decreases r, w.len(), 0nat, 0nat, 0int,
{
    if i < 0 || i > w.len() {
        false
    } else {
        match r {
            RegexModel::Concat(x, y) => lang(*x, w.take(i)) && lang(*y, w.skip(i)),
            RegexModel::Plus(x) => lang(*x, w.take(i)) && star(*x, w.skip(i)),
            RegexModel::Repeat(x, RepeatType::AtLeast(n)) => reps(*x, n as nat, w.take(i)) && star(*x, w.skip(i)),
            _ => false,
        }
    }
}

/// For `x{lo,hi}`: whether `w` is `k` words of `x` for some `k` from `k0`
/// to `hi`.
pub open spec fn count_from(r: RegexModel, w: Seq<u32>, k: nat) -> bool
    decreases r, w.len(), 0nat, 0nat, (if let RegexModel::Repeat(_, RepeatType::Between(_, hi)) = r {
        hi as int
    } else {
        0
    }) + 1 - k,
{
    match r {
        RegexModel::Repeat(x, RepeatType::Between(_, hi)) => if k > hi {
            false
        } else {
            reps(*x, k, w) || count_from(r, w, k + 1)
        },
        _ => false,
    }
}

/// Whether `w` is made of zero or more non-empty words that `x` matches.
pub open spec fn star(x: RegexModel, w: Seq<u32>) -> bool
    decreases x, w.len(), 4nat, 0nat, 0int,
{
    w.len() == 0 || star_from(x, w, 1)
}

/// Whether `w` starts with a word of `x` of length at least `i`, followed
/// by words of `x`.
pub open spec fn star_from(x: RegexModel, w: Seq<u32>, i: int) -> bool
    decreases x, w.len(), 3nat, 0nat, w.len() + 1 - i,
{
    if i < 1 || i > w.len() {
        false
    } else {
        (lang(x, w.take(i)) && star(x, w.skip(i))) || star_from(x, w, i + 1)
    }
}

/// Whether `w` is made of exactly `n` words that `x` matches.
pub open spec fn reps(x: RegexModel, n: nat, w: Seq<u32>) -> bool
    decreases x, w.len(), 2nat, n, w.len() + 2,
{
    if n == 0 {
        w.len() == 0
    } else {
        reps_from(x, n, w, 0)
    }
}

/// Whether `w` starts with a word of `x` of length at least `i`, followed
/// by `n - 1` words of `x`.
pub open spec fn reps_from(x: RegexModel, n: nat, w: Seq<u32>, i: int) -> bool
    decreases x, w.len(), 2nat, n, w.len() + 1 - i,
{
    if n == 0 || i < 0 || i > w.len() {
        false
    } else {
        (lang(x, w.take(i)) && reps(x, (n - 1) as nat, w.skip(i))) || reps_from(x, n, w, i + 1)
    }
}

pub(crate) proof fn lemma_split_from(r: RegexModel, w: Seq<u32>, i0: int)
    requires
        split_from(r, w, i0),
    ensures
        exists|i: int| i0 <= i <= w.len() && #[trigger] split_at(r, w, i),
    decreases w.len() + 1 - i0,
{
    if !split_at(r, w, i0) {
        lemma_split_from(r, w, i0 + 1);
        let i = choose|i: int| i0 + 1 <= i <= w.len() && #[trigger] split_at(r, w, i);
    }
}

pub(crate) proof fn lemma_star_from(x: RegexModel, w: Seq<u32>, i0: int)
    requires
        star_from(x, w, i0),
    ensures
        exists|i: int| i0 <= i <= w.len() && 1 <= i && #[trigger] lang(x, w.take(i)) && star(x, w.skip(i)),
    decreases w.len() + 1 - i0,
{
    if !(lang(x, w.take(i0)) && star(x, w.skip(i0))) {
        lemma_star_from(x, w, i0 + 1);
        let i = choose|i: int| i0 + 1 <= i <= w.len() && 1 <= i && #[trigger] lang(x, w.take(i)) && star(x, w.skip(i));
    }
}

/// A non-empty word of `x*` starts with a non-empty word of `x`.
pub(crate) proof fn lemma_star_split(x: RegexModel, w: Seq<u32>)
    requires
        star(x, w),
        w.len() > 0,
    ensures
        exists|i: int| 1 <= i <= w.len() && #[trigger] lang(x, w.take(i)) && star(x, w.skip(i)),
{
    lemma_star_from(x, w, 1);
}

pub(crate) proof fn lemma_reps_from(x: RegexModel, n: nat, w: Seq<u32>, i0: int)
    requires
        reps_from(x, n, w, i0),
    ensures
        n > 0,
        exists|i: int| i0 <= i <= w.len() && 0 <= i && #[trigger] lang(x, w.take(i)) && reps(x, (n - 1) as nat, w.skip(i)),
    decreases w.len() + 1 - i0,
{
    if !(lang(x, w.take(i0)) && reps(x, (n - 1) as nat, w.skip(i0))) {
        lemma_reps_from(x, n, w, i0 + 1);
        let i = choose|i: int|
            i0 + 1 <= i <= w.len() && 0 <= i && #[trigger] lang(x, w.take(i)) && reps(x, (n - 1) as nat, w.skip(i));
    }
}

/// `n > 0` words of `x` start with one word of `x`.
pub(crate) proof fn lemma_reps_unfold(x: RegexModel, n: nat, w: Seq<u32>)
    requires
        reps(x, n, w),
        n > 0,
    ensures
        exists|i: int| 0 <= i <= w.len() && #[trigger] lang(x, w.take(i)) && reps(x, (n - 1) as nat, w.skip(i)),
{
    lemma_reps_from(x, n, w, 0);
}

pub(crate) proof fn lemma_reps_from_intro(x: RegexModel, n: nat, w: Seq<u32>, j: int, i: int)
    requires
        n > 0,
        0 <= j <= i <= w.len(),
        lang(x, w.take(i)),
        reps(x, (n - 1) as nat, w.skip(i)),
    ensures
        reps_from(x, n, w, j),
    decreases i - j,
{
    if j < i {
        lemma_reps_from_intro(x, n, w, j + 1, i);
    }
}

/// A word of `x` followed by `n - 1` words of `x` is `n` words of `x`.
pub(crate) proof fn lemma_reps_fold(x: RegexModel, n: nat, w: Seq<u32>, i: int)
    requires
        n > 0,
        0 <= i <= w.len(),
        lang(x, w.take(i)),
        reps(x, (n - 1) as nat, w.skip(i)),
    ensures
        reps(x, n, w),
{
    lemma_reps_from_intro(x, n, w, 0, i);
}

pub(crate) proof fn lemma_count_from(x: RegexModel, lo: u32, hi: u32, w: Seq<u32>, k0: nat)
    requires
        count_from(RegexModel::Repeat(Box::new(x), RepeatType::Between(lo, hi)), w, k0),
    ensures
        exists|k: nat| k0 <= k <= hi && #[trigger] reps(x, k, w),
    decreases hi + 1 - k0,
{
    let r = RegexModel::Repeat(Box::new(x), RepeatType::Between(lo, hi));
    if !reps(x, k0, w) {
        lemma_count_from(x, lo, hi, w, k0 + 1);
        let k = choose|k: nat| k0 + 1 <= k <= hi && #[trigger] reps(x, k, w);
    }
}

/// Whether some path of at most `n` edges leads from `u` to `v` in `g`
/// reading `w`: epsilon edges read nothing, other edges one code point.
pub open spec fn path_n(g: Seq<Seq<Edge>>, u: int, v: int, w: Seq<u32>, n: nat) -> bool
    decreases n,
{
    if n == 0 {
        u == v && w.len() == 0
    } else {
        ||| path_n(g, u, v, w, (n - 1) as nat)
        ||| exists|x: int, j: int|
            0 <= x < g.len() && 0 <= j < g[x].len() && (#[trigger] g[x][j]).target == v && (
            (g[x][j].edge_type is Epsilon && path_n(g, u, x, w, (n - 1) as nat)) || (w.len() > 0 && g[x][j].edge_type
                !is Epsilon && reads(g[x][j], w.last()) && path_n(g, u, x, w.drop_last(), (n - 1) as nat)))
    }
}

/// Whether some path leads from `u` to `v` in `g` reading `w`.
pub open spec fn path(g: Seq<Seq<Edge>>, u: int, v: int, w: Seq<u32>) -> bool {
    exists|n: nat| #[trigger] path_n(g, u, v, w, n)
}

/// `h` has the states of `g`, each with the edges it has in `g` first.
pub open spec fn extends(g: Seq<Seq<Edge>>, h: Seq<Seq<Edge>>) -> bool {
    &&& g.len() <= h.len()
    &&& forall|i: int| 0 <= i < g.len() ==> (#[trigger] h[i]).len() >= g[i].len()
    &&& forall|i: int, j: int| 0 <= i < g.len() && 0 <= j < g[i].len() ==> #[trigger] h[i][j] == g[i][j]
}

pub(crate) proof fn lemma_extends_trans(g: Seq<Seq<Edge>>, h: Seq<Seq<Edge>>, k: Seq<Seq<Edge>>)
    requires
        extends(g, h),
        extends(h, k),
    ensures
        extends(g, k),
{
    assert forall|i: int, j: int| 0 <= i < g.len() && 0 <= j < g[i].len() implies #[trigger] k[i][j] == g[i][j] by {
        assert(h[i][j] == g[i][j]);
    }
}

pub(crate) proof fn lemma_path_n_extends(g: Seq<Seq<Edge>>, h: Seq<Seq<Edge>>, u: int, v: int, w: Seq<u32>, n: nat)
    requires
        extends(g, h),
        path_n(g, u, v, w, n),
    ensures
        path_n(h, u, v, w, n),
    decreases n,
{
    if n > 0 {
        if path_n(g, u, v, w, (n - 1) as nat) {
            lemma_path_n_extends(g, h, u, v, w, (n - 1) as nat);
        } else {
            let (x, j) = choose|x: int, j: int|
                0 <= x < g.len() && 0 <= j < g[x].len() && (#[trigger] g[x][j]).target == v && (
                (g[x][j].edge_type is Epsilon && path_n(g, u, x, w, (n - 1) as nat)) || (w.len() > 0
                    && g[x][j].edge_type !is Epsilon && reads(g[x][j], w.last()) && path_n(
                    g,
                    u,
                    x,
                    w.drop_last(),
                    (n - 1) as nat,
                )));
            assert(h[x][j] == g[x][j]);
            if g[x][j].edge_type is Epsilon && path_n(g, u, x, w, (n - 1) as nat) {
                lemma_path_n_extends(g, h, u, x, w, (n - 1) as nat);
            } else {
                lemma_path_n_extends(g, h, u, x, w.drop_last(), (n - 1) as nat);
            }
        }
    }
}

/// A path stays a path when states and edges are added.
pub(crate) proof fn lemma_path_extends(g: Seq<Seq<Edge>>, h: Seq<Seq<Edge>>, u: int, v: int, w: Seq<u32>)
    requires
        extends(g, h),
        path(g, u, v, w),
    ensures
        path(h, u, v, w),
{
    let n = choose|n: nat| #[trigger] path_n(g, u, v, w, n);
    lemma_path_n_extends(g, h, u, v, w, n);
}

pub(crate) proof fn lemma_path_n_mono(g: Seq<Seq<Edge>>, u: int, v: int, w: Seq<u32>, n: nat, m: nat)
    requires
        path_n(g, u, v, w, n),
        n <= m,
    ensures
        path_n(g, u, v, w, m),
    decreases m,
{
    if m > n {
        lemma_path_n_mono(g, u, v, w, n, (m - 1) as nat);
    }
}

pub(crate) proof fn lemma_path_n_concat(
    g: Seq<Seq<Edge>>,
    u: int,
    v: int,
    x: int,
    w1: Seq<u32>,
    w2: Seq<u32>,
    n1: nat,
    n2: nat,
)
    requires
        path_n(g, u, v, w1, n1),
        path_n(g, v, x, w2, n2),
    ensures
        path_n(g, u, x, w1 + w2, n1 + n2),
    decreases n2,
{
    if n2 == 0 {
        assert(w1 + w2 =~= w1);
    } else if path_n(g, v, x, w2, (n2 - 1) as nat) {
        lemma_path_n_concat(g, u, v, x, w1, w2, n1, (n2 - 1) as nat);
        lemma_path_n_mono(g, u, x, w1 + w2, (n1 + n2 - 1) as nat, n1 + n2);
    } else {
        let (y, j) = choose|y: int, j: int|
            0 <= y < g.len() && 0 <= j < g[y].len() && (#[trigger] g[y][j]).target == x && (
            (g[y][j].edge_type is Epsilon && path_n(g, v, y, w2, (n2 - 1) as nat)) || (w2.len() > 0
                && g[y][j].edge_type !is Epsilon && reads(g[y][j], w2.last()) && path_n(
                g,
                v,
                y,
                w2.drop_last(),
                (n2 - 1) as nat,
            )));
        if g[y][j].edge_type is Epsilon && path_n(g, v, y, w2, (n2 - 1) as nat) {
            lemma_path_n_concat(g, u, v, y, w1, w2, n1, (n2 - 1) as nat);
        } else {
            lemma_path_n_concat(g, u, v, y, w1, w2.drop_last(), n1, (n2 - 1) as nat);
            assert((w1 + w2).drop_last() =~= w1 + w2.drop_last());
            assert((w1 + w2).last() == w2.last());
        }
    }
}

/// Paths join end to end.
pub(crate) proof fn lemma_path_concat(g: Seq<Seq<Edge>>, u: int, v: int, x: int, w1: Seq<u32>, w2: Seq<u32>)
    requires
        path(g, u, v, w1),
        path(g, v, x, w2),
    ensures
        path(g, u, x, w1 + w2),
{
    let n1 = choose|n: nat| #[trigger] path_n(g, u, v, w1, n);
    let n2 = choose|n: nat| #[trigger] path_n(g, v, x, w2, n);
    lemma_path_n_concat(g, u, v, x, w1, w2, n1, n2);
}

/// An epsilon edge is a path reading nothing.
pub(crate) proof fn lemma_path_eps(g: Seq<Seq<Edge>>, u: int, j: int)
    requires
        0 <= u < g.len(),
        0 <= j < g[u].len(),
        g[u][j].edge_type is Epsilon,
    ensures
        path(g, u, g[u][j].target as int, Seq::<u32>::empty()),
{
    assert(path_n(g, u, u, Seq::<u32>::empty(), 0));
    assert(path_n(g, u, g[u][j].target as int, Seq::<u32>::empty(), 1));
}

/// An edge that reads `cp` is a path reading `cp`.
pub(crate) proof fn lemma_path_read(g: Seq<Seq<Edge>>, u: int, j: int, cp: u32)
    requires
        0 <= u < g.len(),
        0 <= j < g[u].len(),
        g[u][j].edge_type !is Epsilon,
        reads(g[u][j], cp),
    ensures
        path(g, u, g[u][j].target as int, seq![cp]),
{
    assert(seq![cp].drop_last() =~= Seq::<u32>::empty());
    assert(path_n(g, u, u, Seq::<u32>::empty(), 0));
    assert(path_n(g, u, g[u][j].target as int, seq![cp], 1));
}

/// The empty path.
pub(crate) proof fn lemma_path_here(g: Seq<Seq<Edge>>, u: int)
    ensures
        path(g, u, u, Seq::<u32>::empty()),
{
    assert(path_n(g, u, u, Seq::<u32>::empty(), 0));
}

/// The end of a path from the start state is among the states the NFA
/// reaches on the word read.
pub(crate) proof fn lemma_path_run(g: Seq<Seq<Edge>>, start: int, v: int, w: Seq<u32>, n: nat)
    requires
        path_n(g, start, v, w, n),
    ensures
        nfa_run(g, start, w).contains(v),
    decreases n,
{
    if n == 0 {
        lemma_start_in_closure(g, Set::<int>::empty().insert(start));
    } else if path_n(g, start, v, w, (n - 1) as nat) {
        lemma_path_run(g, start, v, w, (n - 1) as nat);
    } else {
        let (x, j) = choose|x: int, j: int|
            0 <= x < g.len() && 0 <= j < g[x].len() && (#[trigger] g[x][j]).target == v && (
            (g[x][j].edge_type is Epsilon && path_n(g, start, x, w, (n - 1) as nat)) || (w.len() > 0
                && g[x][j].edge_type !is Epsilon && reads(g[x][j], w.last()) && path_n(
                g,
                start,
                x,
                w.drop_last(),
                (n - 1) as nat,
            )));
        if g[x][j].edge_type is Epsilon && path_n(g, start, x, w, (n - 1) as nat) {
            lemma_path_run(g, start, x, w, (n - 1) as nat);
            assert(eps_step(g, x, v));
            if w.len() == 0 {
                lemma_closure_step(g, Set::<int>::empty().insert(start), x, v);
            } else {
                let prev = nfa_run(g, start, w.drop_last());
                lemma_closure_step(g, step_set(g, prev, w.last()), x, v);
            }
        } else {
            lemma_path_run(g, start, x, w.drop_last(), (n - 1) as nat);
            let prev = nfa_run(g, start, w.drop_last());
            assert(step_set(g, prev, w.last()).contains(v));
            lemma_start_in_closure(g, step_set(g, prev, w.last()));
        }
    }
}

pub(crate) proof fn lemma_with_edge_extends(h: Seq<Seq<Edge>>, x: int, e: Edge)
    requires
        0 <= x < h.len(),
    ensures
        extends(h, with_edge(h, x, e)),
        with_edge(h, x, e).len() == h.len(),
        with_edge(h, x, e)[x] == h[x].push(e),
{
    let k = with_edge(h, x, e);
    assert forall|i: int, j: int| 0 <= i < h.len() && 0 <= j < h[i].len() implies #[trigger] k[i][j] == h[i][j] by {
        if i == x {
            assert(k[i] == h[i].push(e));
        }
    }
}

pub(crate) proof fn lemma_push_extends(h: Seq<Seq<Edge>>, es: Seq<Edge>)
    ensures
        extends(h, h.push(es)),
{
    let k = h.push(es);
    assert forall|i: int, j: int| 0 <= i < h.len() && 0 <= j < h[i].len() implies #[trigger] k[i][j] == h[i][j] by {
        assert(k[i] == h[i]);
    }
}


/// The fragment of `r` adds states to `g` and edges after the old ones;
/// its start and accept states are new.
pub(crate) proof fn lemma_frag_shape(r: RegexModel, g: Seq<Seq<Edge>>)
    ensures
        extends(g, frag(r, g).0),
        g.len() <= frag(r, g).1 < frag(r, g).0.len(),
        g.len() <= frag(r, g).2 < frag(r, g).0.len(),
    decreases r, 0nat,
{
    let n = g.len() as int;
    match r {
        RegexModel::Char(c) => {
            let h = g.push(seq![]).push(seq![]);
            lemma_push_extends(g, seq![]);
            lemma_push_extends(g.push(seq![]), seq![]);
            lemma_extends_trans(g, g.push(seq![]), h);
            lemma_with_edge_extends(h, n, crate::scanner::nfa::chr(c, n + 1));
            assert(frag(r, g).0 == with_edge(h, n, crate::scanner::nfa::chr(c, n + 1)));
            lemma_extends_trans(g, h, frag(r, g).0);
        },
        RegexModel::CharClass(negated, items) => {
            let h = g.push(crate::scanner::nfa::class_edges(negated, items, n + 1));
            lemma_push_extends(g, crate::scanner::nfa::class_edges(negated, items, n + 1));
            lemma_push_extends(h, seq![]);
            lemma_extends_trans(g, h, h.push(seq![]));
        },
        RegexModel::Concat(x, y) => {
            let (g1, s1, a1) = frag(*x, g);
            let (g2, s2, a2) = frag(*y, g1);
            lemma_frag_shape(*x, g);
            lemma_frag_shape(*y, g1);
            lemma_extends_trans(g, g1, g2);
            lemma_with_edge_extends(g2, a1, eps(s2));
            lemma_extends_trans(g, g2, frag(r, g).0);
        },
        RegexModel::Alt(x, y) => {
            let (g1, s1, a1) = frag(*x, g);
            let (g2, s2, a2) = frag(*y, g1);
            lemma_frag_shape(*x, g);
            lemma_frag_shape(*y, g1);
            lemma_extends_trans(g, g1, g2);
            let st = g2.len() as int;
            let p = g2.push(seq![]).push(seq![]);
            lemma_push_extends(g2, seq![]);
            lemma_push_extends(g2.push(seq![]), seq![]);
            lemma_extends_trans(g2, g2.push(seq![]), p);
            let p1 = with_edge(p, st, eps(s1));
            lemma_with_edge_extends(p, st, eps(s1));
            let g3 = with_edge(p1, st, eps(s2));
            lemma_with_edge_extends(p1, st, eps(s2));
            let g4 = with_edge(g3, a1, eps(st + 1));
            lemma_with_edge_extends(g3, a1, eps(st + 1));
            lemma_with_edge_extends(g4, a2, eps(st + 1));
            lemma_extends_trans(g, g2, p);
            lemma_extends_trans(g, p, p1);
            lemma_extends_trans(g, p1, g3);
            lemma_extends_trans(g, g3, g4);
            lemma_extends_trans(g, g4, frag(r, g).0);
        },
        RegexModel::Star(x) => {
            let (g1, s, a) = frag(*x, g);
            lemma_frag_shape(*x, g);
            let st = g1.len() as int;
            let p = g1.push(seq![]).push(seq![]);
            lemma_push_extends(g1, seq![]);
            lemma_push_extends(g1.push(seq![]), seq![]);
            lemma_extends_trans(g1, g1.push(seq![]), p);
            let p1 = with_edge(p, st, eps(s));
            lemma_with_edge_extends(p, st, eps(s));
            let g2 = with_edge(p1, st, eps(st + 1));
            lemma_with_edge_extends(p1, st, eps(st + 1));
            let g3 = with_edge(g2, a, eps(s));
            lemma_with_edge_extends(g2, a, eps(s));
            lemma_with_edge_extends(g3, a, eps(st + 1));
            lemma_extends_trans(g, g1, p);
            lemma_extends_trans(g, p, p1);
            lemma_extends_trans(g, p1, g2);
            lemma_extends_trans(g, g2, g3);
            lemma_extends_trans(g, g3, frag(r, g).0);
        },
        RegexModel::Plus(x) => {
            let (g1, s, a) = frag(*x, g);
            lemma_frag_shape(*x, g);
            let st = g1.len() as int;
            let p = g1.push(seq![]).push(seq![]);
            lemma_push_extends(g1, seq![]);
            lemma_push_extends(g1.push(seq![]), seq![]);
            lemma_extends_trans(g1, g1.push(seq![]), p);
            let g2 = with_edge(p, st, eps(s));
            lemma_with_edge_extends(p, st, eps(s));
            let g3 = with_edge(g2, a, eps(s));
            lemma_with_edge_extends(g2, a, eps(s));
            lemma_with_edge_extends(g3, a, eps(st + 1));
            lemma_extends_trans(g, g1, p);
            lemma_extends_trans(g, p, g2);
            lemma_extends_trans(g, g2, g3);
            lemma_extends_trans(g, g3, frag(r, g).0);
        },
        RegexModel::Opt(x) => {
            let (g1, s, a) = frag(*x, g);
            lemma_frag_shape(*x, g);
            let st = g1.len() as int;
            let p = g1.push(seq![]).push(seq![]);
            lemma_push_extends(g1, seq![]);
            lemma_push_extends(g1.push(seq![]), seq![]);
            lemma_extends_trans(g1, g1.push(seq![]), p);
            let p1 = with_edge(p, st, eps(s));
            lemma_with_edge_extends(p, st, eps(s));
            let g2 = with_edge(p1, st, eps(st + 1));
            lemma_with_edge_extends(p1, st, eps(st + 1));
            lemma_with_edge_extends(g2, a, eps(st + 1));
            lemma_extends_trans(g, g1, p);
            lemma_extends_trans(g, p, p1);
            lemma_extends_trans(g, p1, g2);
            lemma_extends_trans(g, g2, frag(r, g).0);
        },
        RegexModel::Repeat(x, kind) => {
            lemma_empty_frag_shape(g);
            match kind {
                RepeatType::Exactly(count) => {
                    if count != 0 {
                        let (g1, s, a) = frag(*x, g);
                        lemma_frag_shape(*x, g);
                        lemma_chain_shape(*x, g1, a, (count - 1) as nat);
                        lemma_extends_trans(g, g1, frag(r, g).0);
                    }
                },
                RepeatType::AtLeast(count) => {
                    let (g1, s, a) = frag(*x, g);
                    lemma_frag_shape(*x, g);
                    let k: nat = if count >= 1 { (count - 1) as nat } else { 0 };
                    lemma_chain_shape(*x, g1, a, k);
                    let (g2, a2) = chain(*x, g1, a, k);
                    lemma_extends_trans(g, g1, g2);
                    let g3 = with_edge(g2, a2, eps(s));
                    lemma_with_edge_extends(g2, a2, eps(s));
                    let f = g3.len() as int;
                    lemma_push_extends(g3, seq![]);
                    lemma_with_edge_extends(g3.push(seq![]), a2, eps(f));
                    lemma_extends_trans(g, g2, g3);
                    lemma_extends_trans(g, g3, g3.push(seq![]));
                    lemma_extends_trans(g, g3.push(seq![]), frag(r, g).0);
                },
                RepeatType::Between(lo, hi) => {
                    if !(lo == 0 && hi == 0) {
                        let (g1, s, a) = frag(*x, g);
                        lemma_frag_shape(*x, g);
                        let k: nat = if lo >= 1 { (lo - 1) as nat } else { 0 };
                        lemma_chain_shape(*x, g1, a, k);
                        let (g2, a2) = chain(*x, g1, a, k);
                        lemma_extends_trans(g, g1, g2);
                        lemma_opt_chain_shape(*x, g2, a2, (hi - lo) as nat);
                        lemma_extends_trans(g, g2, frag(r, g).0);
                    }
                },
            }
        },
    }
}

pub(crate) proof fn lemma_empty_frag_shape(g: Seq<Seq<Edge>>)
    ensures
        extends(g, empty_frag(g).0),
        empty_frag(g).1 == g.len(),
        empty_frag(g).2 == g.len() + 1,
        empty_frag(g).0.len() == g.len() + 2,
{
    let n = g.len() as int;
    let h = g.push(seq![]).push(seq![]);
    lemma_push_extends(g, seq![]);
    lemma_push_extends(g.push(seq![]), seq![]);
    lemma_extends_trans(g, g.push(seq![]), h);
    lemma_with_edge_extends(h, n, eps(n + 1));
    lemma_extends_trans(g, h, empty_frag(g).0);
}

pub(crate) proof fn lemma_chain_shape(x: RegexModel, h: Seq<Seq<Edge>>, acc: int, k: nat)
    requires
        0 <= acc < h.len(),
    ensures
        extends(h, chain(x, h, acc, k).0),
        0 <= chain(x, h, acc, k).1 < chain(x, h, acc, k).0.len(),
        chain(x, h, acc, k).1 == acc || chain(x, h, acc, k).1 >= h.len(),
    decreases x, k + 1,
{
    if k > 0 {
        let (g1, s, a) = frag(x, h);
        lemma_frag_shape(x, h);
        let h2 = with_edge(g1, acc, eps(s));
        lemma_with_edge_extends(g1, acc, eps(s));
        lemma_chain_shape(x, h2, a, (k - 1) as nat);
        lemma_extends_trans(h, g1, h2);
        lemma_extends_trans(h, h2, chain(x, h, acc, k).0);
    }
}

pub(crate) proof fn lemma_opt_chain_shape(x: RegexModel, h: Seq<Seq<Edge>>, cur: int, k: nat)
    requires
        0 <= cur < h.len(),
    ensures
        extends(h, opt_chain(x, h, cur, k).0),
        0 <= opt_chain(x, h, cur, k).1 < opt_chain(x, h, cur, k).0.len(),
        opt_chain(x, h, cur, k).1 == cur || opt_chain(x, h, cur, k).1 >= h.len(),
    decreases x, k + 1,
{
    if k > 0 {
        let (g1, s, a) = frag(x, h);
        lemma_frag_shape(x, h);
        let tail = g1.len() as int;
        let p = g1.push(seq![]);
        lemma_push_extends(g1, seq![]);
        let p1 = with_edge(p, cur, eps(tail));
        lemma_with_edge_extends(p, cur, eps(tail));
        let g2 = with_edge(p1, cur, eps(s));
        lemma_with_edge_extends(p1, cur, eps(s));
        let g3 = with_edge(g2, a, eps(tail));
        lemma_with_edge_extends(g2, a, eps(tail));
        lemma_opt_chain_shape(x, g3, tail, (k - 1) as nat);
        lemma_extends_trans(h, g1, p);
        lemma_extends_trans(h, p, p1);
        lemma_extends_trans(h, p1, g2);
        lemma_extends_trans(h, g2, g3);
        lemma_extends_trans(h, g3, opt_chain(x, h, cur, k).0);
    }
}

/// Every edge of a state from `lo` on leads to a state from `lo` on.
pub open spec fn local(h: Seq<Seq<Edge>>, lo: int) -> bool {
    forall|i: int, j: int|
        lo <= i < h.len() && 0 <= j < h[i].len() ==> lo <= (#[trigger] h[i][j]).target < h.len()
}

pub(crate) proof fn lemma_local_push(h: Seq<Seq<Edge>>, lo: int)
    requires
        0 <= lo,
        local(h, lo),
    ensures
        local(h.push(seq![]), lo),
        forall|i: int| 0 <= i < h.len() ==> #[trigger] h.push(seq![])[i] == h[i],
{
    let k = h.push(seq![]);
    assert forall|i: int, j: int| lo <= i < k.len() && 0 <= j < k[i].len() implies lo <= (#[trigger] k[i][j]).target
        < k.len() by {
        assert(i < h.len());
        assert(k[i] == h[i]);
    }
}

pub(crate) proof fn lemma_local_edge(h: Seq<Seq<Edge>>, lo: int, x: int, t: int)
    requires
        0 <= lo,
        local(h, lo),
        lo <= x < h.len(),
        lo <= t < h.len(),
        t <= usize::MAX,
    ensures
        local(with_edge(h, x, eps(t)), lo),
        forall|i: int| 0 <= i < h.len() && i != x ==> #[trigger] with_edge(h, x, eps(t))[i] == h[i],
        with_edge(h, x, eps(t)).len() == h.len(),
{
    let k = with_edge(h, x, eps(t));
    assert forall|i: int, j: int| lo <= i < k.len() && 0 <= j < k[i].len() implies lo <= (#[trigger] k[i][j]).target
        < k.len() by {
        if i == x {
            assert(k[i] == h[i].push(eps(t)));
            if j < h[i].len() {
                assert(k[i][j] == h[i][j]);
            }
        } else {
            assert(k[i] == h[i]);
        }
    }
}

/// A fragment's new states only have edges among themselves and the
/// states from `lo` on, it leaves the old states alone, and its accept
/// state has no edge.
pub(crate) proof fn lemma_frag_local(r: RegexModel, g: Seq<Seq<Edge>>, lo: int)
    requires
        0 <= lo <= g.len(),
        local(g, lo),
        frag(r, g).0.len() <= usize::MAX,
    ensures
        local(frag(r, g).0, lo),
        forall|i: int| 0 <= i < g.len() ==> #[trigger] frag(r, g).0[i] == g[i],
        frag(r, g).0[frag(r, g).2].len() == 0,
    decreases r, 1nat,
{
    let n = g.len() as int;
    lemma_frag_shape(r, g);
    let (k0, s0, a0) = frag(r, g);
    match r {
        RegexModel::Char(c) => {
            let h = g.push(seq![]).push(seq![]);
            lemma_local_push(g, lo);
            lemma_local_push(g.push(seq![]), lo);
            let e = crate::scanner::nfa::chr(c, n + 1);
            assert(k0 == h.update(n, h[n].push(e)));
            assert forall|i: int, j: int| lo <= i < k0.len() && 0 <= j < k0[i].len() implies lo <= (
            #[trigger] k0[i][j]).target < k0.len() by {
                if i == n {
                    assert(k0[i] == seq![e]);
                } else {
                    assert(k0[i] == h[i]);
                }
            }
            assert forall|i: int| 0 <= i < g.len() implies #[trigger] k0[i] == g[i] by {
                assert(k0[i] == h[i]);
            }
        },
        RegexModel::CharClass(negated, items) => {
            let es = class_edges(negated, items, n + 1);
            assert forall|j: int| 0 <= j < es.len() implies #[trigger] es[j].target == (n + 1) as usize by {
                if negated {
                    let ps = pieces(sorted_points(boundary_points(items.map_values(|i: CharClassItem| item_interval(i)))));
                    assert(es[j] == rng(ps[j].start, (ps[j].end - 1) as u32, n + 1));
                } else {
                    assert(es[j] == rng(items[j].start, items[j].end, n + 1));
                }
            }
            let h = g.push(es);
            assert(k0 == h.push(seq![]));
            assert forall|i: int, j: int| lo <= i < k0.len() && 0 <= j < k0[i].len() implies lo <= (
            #[trigger] k0[i][j]).target < k0.len() by {
                if i == n {
                    assert(k0[i] == es);
                } else {
                    assert(i < n);
                    assert(k0[i] == g[i]);
                }
            }
            assert forall|i: int| 0 <= i < g.len() implies #[trigger] k0[i] == g[i] by {
                assert(k0[i] == h[i]);
            }
        },
        RegexModel::Concat(x, y) => {
            let (g1, s1, a1) = frag(*x, g);
            let (g2, s2, a2) = frag(*y, g1);
            lemma_frag_shape(*x, g);
            lemma_frag_shape(*y, g1);
            lemma_frag_local(*x, g, lo);
            lemma_frag_local(*y, g1, lo);
            lemma_local_edge(g2, lo, a1, s2);
            assert forall|i: int| 0 <= i < g.len() implies #[trigger] k0[i] == g[i] by {
                assert(k0[i] == g2[i]);
                assert(g2[i] == g1[i]);
            }
            assert(k0[a2] == g2[a2]);
        },
        RegexModel::Alt(x, y) => {
            let (g1, s1, a1) = frag(*x, g);
            let (g2, s2, a2) = frag(*y, g1);
            lemma_frag_shape(*x, g);
            lemma_frag_shape(*y, g1);
            let st = g2.len() as int;
            let p = g2.push(seq![]).push(seq![]);
            let p1 = with_edge(p, st, eps(s1));
            let g3 = with_edge(p1, st, eps(s2));
            let g4 = with_edge(g3, a1, eps(st + 1));
            assert(k0 == with_edge(g4, a2, eps(st + 1)));
            lemma_frag_local(*x, g, lo);
            lemma_frag_local(*y, g1, lo);
            lemma_local_push(g2, lo);
            lemma_local_push(g2.push(seq![]), lo);
            lemma_local_edge(p, lo, st, s1);
            lemma_local_edge(p1, lo, st, s2);
            lemma_local_edge(g3, lo, a1, st + 1);
            lemma_local_edge(g4, lo, a2, st + 1);
            assert forall|i: int| 0 <= i < g.len() implies #[trigger] k0[i] == g[i] by {
                assert(k0[i] == g4[i]);
                assert(g4[i] == g3[i]);
                assert(g3[i] == p1[i]);
                assert(p1[i] == p[i]);
                assert(p[i] == g2.push(seq![])[i]);
                assert(g2.push(seq![])[i] == g2[i]);
                assert(g2[i] == g1[i]);
            }
            assert(k0[st + 1] == p[st + 1]);
        },
        RegexModel::Star(x) => {
            let (g1, s, a) = frag(*x, g);
            lemma_frag_shape(*x, g);
            let st = g1.len() as int;
            let p = g1.push(seq![]).push(seq![]);
            let p1 = with_edge(p, st, eps(s));
            let g2 = with_edge(p1, st, eps(st + 1));
            let g3 = with_edge(g2, a, eps(s));
            assert(k0 == with_edge(g3, a, eps(st + 1)));
            lemma_frag_local(*x, g, lo);
            lemma_local_push(g1, lo);
            lemma_local_push(g1.push(seq![]), lo);
            lemma_local_edge(p, lo, st, s);
            lemma_local_edge(p1, lo, st, st + 1);
            lemma_local_edge(g2, lo, a, s);
            lemma_local_edge(g3, lo, a, st + 1);
            assert forall|i: int| 0 <= i < g.len() implies #[trigger] k0[i] == g[i] by {
                assert(k0[i] == g3[i]);
                assert(g3[i] == g2[i]);
                assert(g2[i] == p1[i]);
                assert(p1[i] == p[i]);
                assert(p[i] == g1.push(seq![])[i]);
                assert(g1.push(seq![])[i] == g1[i]);
            }
            assert(k0[st + 1] == p[st + 1]);
        },
        RegexModel::Plus(x) => {
            let (g1, s, a) = frag(*x, g);
            lemma_frag_shape(*x, g);
            let st = g1.len() as int;
            let p = g1.push(seq![]).push(seq![]);
            let g2 = with_edge(p, st, eps(s));
            let g3 = with_edge(g2, a, eps(s));
            assert(k0 == with_edge(g3, a, eps(st + 1)));
            lemma_frag_local(*x, g, lo);
            lemma_local_push(g1, lo);
            lemma_local_push(g1.push(seq![]), lo);
            lemma_local_edge(p, lo, st, s);
            lemma_local_edge(g2, lo, a, s);
            lemma_local_edge(g3, lo, a, st + 1);
            assert forall|i: int| 0 <= i < g.len() implies #[trigger] k0[i] == g[i] by {
                assert(k0[i] == g3[i]);
                assert(g3[i] == g2[i]);
                assert(g2[i] == p[i]);
                assert(p[i] == g1.push(seq![])[i]);
                assert(g1.push(seq![])[i] == g1[i]);
            }
            assert(k0[st + 1] == p[st + 1]);
        },
        RegexModel::Opt(x) => {
            let (g1, s, a) = frag(*x, g);
            lemma_frag_shape(*x, g);
            let st = g1.len() as int;
            let p = g1.push(seq![]).push(seq![]);
            let p1 = with_edge(p, st, eps(s));
            let g2 = with_edge(p1, st, eps(st + 1));
            assert(k0 == with_edge(g2, a, eps(st + 1)));
            lemma_frag_local(*x, g, lo);
            lemma_local_push(g1, lo);
            lemma_local_push(g1.push(seq![]), lo);
            lemma_local_edge(p, lo, st, s);
            lemma_local_edge(p1, lo, st, st + 1);
            lemma_local_edge(g2, lo, a, st + 1);
            assert forall|i: int| 0 <= i < g.len() implies #[trigger] k0[i] == g[i] by {
                assert(k0[i] == g2[i]);
                assert(g2[i] == p1[i]);
                assert(p1[i] == p[i]);
                assert(p[i] == g1.push(seq![])[i]);
                assert(g1.push(seq![])[i] == g1[i]);
            }
            assert(k0[st + 1] == p[st + 1]);
        },
        RegexModel::Repeat(x, kind) => {
            lemma_frag_repeat_local(*x, kind, g, lo);
        },
    }
}

pub(crate) proof fn lemma_empty_frag_local(g: Seq<Seq<Edge>>, lo: int)
    requires
        0 <= lo <= g.len(),
        local(g, lo),
        g.len() + 2 <= usize::MAX,
    ensures
        local(empty_frag(g).0, lo),
        forall|i: int| 0 <= i < g.len() ==> #[trigger] empty_frag(g).0[i] == g[i],
        empty_frag(g).0[empty_frag(g).2].len() == 0,
{
    let n = g.len() as int;
    let p = g.push(seq![]).push(seq![]);
    lemma_local_push(g, lo);
    lemma_local_push(g.push(seq![]), lo);
    lemma_local_edge(p, lo, n, n + 1);
    assert forall|i: int| 0 <= i < g.len() implies #[trigger] empty_frag(g).0[i] == g[i] by {
        assert(p[i] == g.push(seq![])[i]);
    }
}

/// The repetition cases of `lemma_frag_local`.
pub(crate) proof fn lemma_frag_repeat_local(x: RegexModel, kind: RepeatType, g: Seq<Seq<Edge>>, lo: int)
    requires
        0 <= lo <= g.len(),
        local(g, lo),
        frag(RegexModel::Repeat(Box::new(x), kind), g).0.len() <= usize::MAX,
    ensures
        local(frag(RegexModel::Repeat(Box::new(x), kind), g).0, lo),
        forall|i: int|
            0 <= i < g.len() ==> #[trigger] frag(RegexModel::Repeat(Box::new(x), kind), g).0[i] == g[i],
        frag(RegexModel::Repeat(Box::new(x), kind), g).0[frag(RegexModel::Repeat(Box::new(x), kind), g).2].len()
            == 0,
    decreases RegexModel::Repeat(Box::new(x), kind), 0nat,
{
    let r = RegexModel::Repeat(Box::new(x), kind);
    lemma_frag_shape(r, g);
    lemma_empty_frag_shape(g);
    let (k0, s0, a0) = frag(r, g);
    match kind {
        RepeatType::Exactly(count) => {
            if count == 0 {
                lemma_empty_frag_local(g, lo);
            } else {
                let (g1, s, a) = frag(x, g);
                lemma_frag_shape(x, g);
                let m = (count - 1) as nat;
                lemma_chain_shape(x, g1, a, m);
                lemma_frag_local(x, g, lo);
                lemma_chain_local(x, g1, a, m, lo);
            }
        },
        RepeatType::AtLeast(count) => {
            let (g1, s, a) = frag(x, g);
            lemma_frag_shape(x, g);
            let m: nat = if count >= 1 { (count - 1) as nat } else { 0 };
            lemma_chain_shape(x, g1, a, m);
            let (g2, a2) = chain(x, g1, a, m);
            let g3 = with_edge(g2, a2, eps(s));
            let f = g3.len() as int;
            assert(k0 == with_edge(g3.push(seq![]), a2, eps(f)));
            lemma_frag_local(x, g, lo);
            lemma_chain_local(x, g1, a, m, lo);
            lemma_local_edge(g2, lo, a2, s);
            lemma_local_push(g3, lo);
            lemma_local_edge(g3.push(seq![]), lo, a2, f);
            assert forall|i: int| 0 <= i < g.len() implies #[trigger] k0[i] == g[i] by {
                assert(k0[i] == g3.push(seq![])[i]);
                assert(g3.push(seq![])[i] == g3[i]);
                assert(g3[i] == g2[i]);
                assert(g2[i] == g1[i]);
            }
            assert(k0[f] == g3.push(seq![])[f]);
        },
        RepeatType::Between(lo_n, hi) => {
            if lo_n == 0 && hi == 0 {
                lemma_empty_frag_local(g, lo);
            } else {
                let (g1, s, a) = frag(x, g);
                lemma_frag_shape(x, g);
                let m: nat = if lo_n >= 1 { (lo_n - 1) as nat } else { 0 };
                lemma_chain_shape(x, g1, a, m);
                let (g2, a2) = chain(x, g1, a, m);
                lemma_opt_chain_shape(x, g2, a2, (hi - lo_n) as nat);
                let (g3, a3) = opt_chain(x, g2, a2, (hi - lo_n) as nat);
                lemma_extends_trans(g1, g2, g3);
                lemma_frag_local(x, g, lo);
                lemma_chain_local(x, g1, a, m, lo);
                lemma_opt_chain_local(x, g2, a2, (hi - lo_n) as nat, lo);
                assert forall|i: int| 0 <= i < g.len() implies #[trigger] k0[i] == g[i] by {
                    assert(k0[i] == g2[i]);
                    assert(g2[i] == g1[i]);
                }
            }
        },
    }
}

pub(crate) proof fn lemma_chain_local(x: RegexModel, h: Seq<Seq<Edge>>, acc: int, k: nat, lo: int)
    requires
        0 <= lo <= acc < h.len(),
        local(h, lo),
        h[acc].len() == 0,
        chain(x, h, acc, k).0.len() <= usize::MAX,
    ensures
        local(chain(x, h, acc, k).0, lo),
        forall|i: int| 0 <= i < h.len() && i != acc ==> #[trigger] chain(x, h, acc, k).0[i] == h[i],
        chain(x, h, acc, k).0[chain(x, h, acc, k).1].len() == 0,
    decreases x, k + 1,
{
    if k > 0 {
        let (g1, s, a) = frag(x, h);
        lemma_frag_shape(x, h);
        let h2 = with_edge(g1, acc, eps(s));
        lemma_with_edge_extends(g1, acc, eps(s));
        lemma_chain_shape(x, h2, a, (k - 1) as nat);
        lemma_frag_local(x, h, lo);
        lemma_local_edge(g1, lo, acc, s);
        assert(h2[a] == g1[a]);
        lemma_chain_local(x, h2, a, (k - 1) as nat, lo);
        assert forall|i: int| 0 <= i < h.len() && i != acc implies #[trigger] chain(x, h, acc, k).0[i] == h[i] by {
            assert(chain(x, h2, a, (k - 1) as nat).0[i] == h2[i]);
            assert(h2[i] == g1[i]);
        }
    }
}

pub(crate) proof fn lemma_opt_chain_local(x: RegexModel, h: Seq<Seq<Edge>>, cur: int, k: nat, lo: int)
    requires
        0 <= lo <= cur < h.len(),
        local(h, lo),
        h[cur].len() == 0,
        opt_chain(x, h, cur, k).0.len() <= usize::MAX,
    ensures
        local(opt_chain(x, h, cur, k).0, lo),
        forall|i: int| 0 <= i < h.len() && i != cur ==> #[trigger] opt_chain(x, h, cur, k).0[i] == h[i],
        opt_chain(x, h, cur, k).0[opt_chain(x, h, cur, k).1].len() == 0,
    decreases x, k + 1,
{
    if k > 0 {
        let (g1, s, a) = frag(x, h);
        lemma_frag_shape(x, h);
        let tail = g1.len() as int;
        let p = g1.push(seq![]);
        let p1 = with_edge(p, cur, eps(tail));
        let g2 = with_edge(p1, cur, eps(s));
        let g3 = with_edge(g2, a, eps(tail));
        lemma_push_extends(g1, seq![]);
        lemma_with_edge_extends(p, cur, eps(tail));
        lemma_with_edge_extends(p1, cur, eps(s));
        lemma_with_edge_extends(g2, a, eps(tail));
        lemma_opt_chain_shape(x, g3, tail, (k - 1) as nat);
        lemma_frag_local(x, h, lo);
        lemma_local_push(g1, lo);
        lemma_local_edge(p, lo, cur, tail);
        lemma_local_edge(p1, lo, cur, s);
        lemma_local_edge(g2, lo, a, tail);
        assert(g3[tail] == p[tail]);
        lemma_opt_chain_local(x, g3, tail, (k - 1) as nat, lo);
        assert forall|i: int| 0 <= i < h.len() && i != cur implies #[trigger] opt_chain(x, h, cur, k).0[i] == h[i] by {
            assert(opt_chain(x, g3, tail, (k - 1) as nat).0[i] == g3[i]);
            assert(g3[i] == g2[i]);
            assert(g2[i] == p1[i]);
            assert(p1[i] == p[i]);
            assert(p[i] == g1[i]);
        }
    }
}

/// The start state of each pattern's fragment, in order.
pub open spec fn pattern_starts(ps: Seq<(usize, RegexModel)>) -> Seq<int>
    decreases ps.len(),
{
    if ps.len() == 0 {
        seq![]
    } else {
        pattern_starts(ps.drop_last()).push(frag(ps.last().1, nfa_of(ps.drop_last()).0).1)
    }
}

/// Where the states of each pattern's fragment begin, and one past the
/// last state: pattern `k` owns the states from `bounds[k]` to
/// `bounds[k + 1]`.
pub open spec fn pattern_bounds(ps: Seq<(usize, RegexModel)>) -> Seq<int>
    decreases ps.len(),
{
    if ps.len() == 0 {
        seq![1]
    } else {
        pattern_bounds(ps.drop_last()).push(nfa_of(ps).0.len() as int)
    }
}

/// The shape of the automaton of the patterns: the common start state 0
/// has one epsilon edge per pattern, in order, to that pattern's start
/// state; each pattern owns a block of states after state 0, holding its
/// start and accept states; no edge leaves a pattern's block; and no edge
/// leaves an accept state.
pub proof fn law_nfa_shape(ps: Seq<(usize, RegexModel)>)
    requires
        nfa_of(ps).0.len() <= usize::MAX,
    ensures
        nfa_of(ps).0[0] == pattern_starts(ps).map_values(|s: int| eps(s)),
        pattern_starts(ps).len() == ps.len(),
        pattern_bounds(ps).len() == ps.len() + 1,
        pattern_bounds(ps)[0] == 1,
        pattern_bounds(ps)[ps.len() as int] == nfa_of(ps).0.len(),
        forall|k: int| 0 <= k <= ps.len() ==> 1 <= #[trigger] pattern_bounds(ps)[k] <= nfa_of(ps).0.len(),
        nfa_of(ps).1.len() == ps.len(),
        forall|k: int|
            0 <= k < ps.len() ==> pattern_bounds(ps)[k] <= #[trigger] pattern_starts(ps)[k] < pattern_bounds(ps)[k + 1],
        forall|k: int|
            0 <= k < ps.len() ==> pattern_bounds(ps)[k] <= (#[trigger] nfa_of(ps).1[k]).0 < pattern_bounds(ps)[k + 1],
        forall|k: int| 0 <= k < ps.len() ==> nfa_of(ps).0[(#[trigger] nfa_of(ps).1[k]).0 as int].len() == 0,
        forall|k: int, i: int, j: int|
            #![trigger pattern_bounds(ps)[k], nfa_of(ps).0[i][j]]
            0 <= k < ps.len() && pattern_bounds(ps)[k] <= i < pattern_bounds(ps)[k + 1] && 0 <= j
                < nfa_of(ps).0[i].len() ==> pattern_bounds(ps)[k] <= nfa_of(ps).0[i][j].target < pattern_bounds(
                ps,
            )[k + 1],
    decreases ps.len(),
{
    if ps.len() == 0 {
        assert(nfa_of(ps).0[0] =~= pattern_starts(ps).map_values(|s: int| eps(s)));
    } else {
        let p0 = ps.drop_last();
        let (g, acc) = nfa_of(p0);
        let r = ps.last().1;
        lemma_frag_shape(r, g);
        let (g1, s, a) = frag(r, g);
        let k0 = with_edge(g1, 0, eps(s));
        assert(nfa_of(ps).0 == k0);
        law_nfa_shape(p0);
        let b0 = pattern_bounds(p0);
        let st0 = pattern_starts(p0);
        let b = pattern_bounds(ps);
        let st = pattern_starts(ps);
        assert(b == b0.push(k0.len() as int));
        assert(st == st0.push(s));
        let lo = g.len() as int;
        assert(local(g, lo));
        lemma_frag_local(r, g, lo);
        lemma_nfa_shape(p0);
        lemma_with_edge_extends(g1, 0, eps(s));
        assert forall|i: int| 1 <= i < g1.len() implies #[trigger] k0[i] == g1[i] by {}
        assert forall|k: int| 0 <= k <= ps.len() implies 1 <= #[trigger] b[k] <= k0.len() by {
            if k <= p0.len() {
                assert(b[k] == b0[k]);
            }
        }
        assert(k0[0] == g1[0].push(eps(s)));
        assert(g1[0] == g[0]);
        assert(k0[0] =~= st.map_values(|s: int| eps(s)));
        let acc1 = nfa_of(ps).1;
        assert(acc1 == acc.push((a as usize, ps.last().0)));
        assert forall|k: int| 0 <= k < ps.len() implies b[k] <= #[trigger] st[k] < b[k + 1] by {
            if k < p0.len() {
                assert(st[k] == st0[k]);
                assert(b[k] == b0[k]);
                assert(b[k + 1] == b0[k + 1]);
            }
        }
        assert forall|k: int| 0 <= k < ps.len() implies b[k] <= (#[trigger] acc1[k]).0 < b[k + 1] by {
            if k < p0.len() {
                assert(acc1[k] == acc[k]);
                assert(b[k] == b0[k]);
                assert(b[k + 1] == b0[k + 1]);
            }
        }
        assert forall|k: int| 0 <= k < ps.len() implies k0[(#[trigger] acc1[k]).0 as int].len() == 0 by {
            if k < p0.len() {
                assert(acc1[k] == acc[k]);
                let q = acc[k].0 as int;
                assert(b0[k] <= q < b0[k + 1]);
                assert(b0[k + 1] <= g.len());
                assert(1 <= q < g.len());
                assert(k0[q] == g1[q]);
                assert(g1[q] == g[q]);
            } else {
                assert(acc1[k] == (a as usize, ps.last().0));
                assert(k0[a] == g1[a]);
            }
        }
        assert forall|k: int, i: int, j: int|
            #![trigger b[k], k0[i][j]]
            0 <= k < ps.len() && b[k] <= i < b[k + 1] && 0 <= j < k0[i].len() implies b[k] <= k0[i][j].target
                < b[k + 1] by {
            if k < p0.len() {
                assert(b[k] == b0[k]);
                assert(b[k + 1] == b0[k + 1]);
                assert(b0[k + 1] <= g.len());
                assert(1 <= i < g.len());
                assert(k0[i] == g1[i]);
                assert(g1[i] == g[i]);
                assert(b0[k] <= g[i][j].target < b0[k + 1]);
            } else {
                assert(b[k] == lo);
                assert(k0[i] == g1[i]);
                assert(lo <= g1[i][j].target < g1.len());
            }
        }
    }
}

/// Whether every code point of `w` is below `0x110000`.
pub open spec fn code_points(w: Seq<u32>) -> bool {
    forall|i: int| 0 <= i < w.len() ==> #[trigger] w[i] < 0x110000
}

/// Whether `r` uses no repetition whose automaton differs from its words:
/// `{n,}` only as `{1,}`, and `{0,m}` only as `{0,0}`.
pub open spec fn complete_ok(r: RegexModel) -> bool
    decreases r,
{
    match r {
        RegexModel::Char(_) => true,
        RegexModel::CharClass(_, _) => true,
        RegexModel::Concat(x, y) => complete_ok(*x) && complete_ok(*y),
        RegexModel::Alt(x, y) => complete_ok(*x) && complete_ok(*y),
        RegexModel::Star(x) => complete_ok(*x),
        RegexModel::Plus(x) => complete_ok(*x),
        RegexModel::Opt(x) => complete_ok(*x),
        RegexModel::Repeat(x, kind) => complete_ok(*x) && match kind {
            RepeatType::Exactly(_) => true,
            RepeatType::AtLeast(n) => n == 1,
            RepeatType::Between(lo, hi) => lo >= 1 || hi == 0,
        },
    }
}

pub(crate) proof fn lemma_code_points_split(w: Seq<u32>, i: int)
    requires
        code_points(w),
        0 <= i <= w.len(),
    ensures
        code_points(w.take(i)),
        code_points(w.skip(i)),
{
    assert forall|k: int| 0 <= k < w.take(i).len() implies #[trigger] w.take(i)[k] < 0x110000 by {
        assert(w.take(i)[k] == w[k]);
    }
    assert forall|k: int| 0 <= k < w.skip(i).len() implies #[trigger] w.skip(i)[k] < 0x110000 by {
        assert(w.skip(i)[k] == w[k + i]);
    }
}

/// Every code point below `0x110000` lies in a piece between the boundary
/// points of a list of intervals.
pub(crate) proof fn lemma_pieces_cover(s: Seq<Interval>, cp: u32)
    requires
        cp < 0x110000,
    ensures
        exists|k: int|
            0 <= k < pieces(sorted_points(boundary_points(s))).len() && #[trigger] pieces(
                sorted_points(boundary_points(s)),
            )[k].start <= cp && cp < pieces(sorted_points(boundary_points(s)))[k].end,
{
    let bp = boundary_points(s);
    lemma_points_finite(s);
    lemma_sorted_exists(bp);
    let b = sorted_points(bp);
    assert(strictly_increasing(b) && b.to_set() == bp);
    assert(bp.contains(0u32));
    assert(bp.contains(0x110000u32));
    assert(b.to_set().contains(0u32));
    assert(b.to_set().contains(0x110000u32));
    let i0 = choose|i: int| 0 <= i < b.len() && b[i] == 0u32;
    let i1 = choose|i: int| 0 <= i < b.len() && b[i] == 0x110000u32;
    if i1 <= i0 {
        assert(b[i1] <= b[i0]);
    }
    lemma_find_piece(b, cp, i0, i1);
    let k = choose|k: int| i0 <= k < i1 && #[trigger] b[k] <= cp && cp < b[k + 1];
    lemma_pieces_sorted(b);
    assert(pieces(b)[k] == (Interval { start: b[k], end: b[k + 1] }));
    assert(0 <= k < pieces(b).len() && pieces(b)[k].start <= cp && cp < pieces(b)[k].end);
}

/// `m + j` repetitions split into `m` and then `j`.
pub(crate) proof fn lemma_reps_split(x: RegexModel, m: nat, j: nat, w: Seq<u32>)
    requires
        reps(x, m + j, w),
    ensures
        exists|i: int| 0 <= i <= w.len() && #[trigger] reps(x, m, w.take(i)) && reps(x, j, w.skip(i)),
    decreases m,
{
    if m == 0 {
        assert(w.take(0) =~= Seq::<u32>::empty());
        assert(w.skip(0) =~= w);
        assert(reps(x, 0, w.take(0)));
    } else {
        lemma_reps_unfold(x, m + j, w);
        let i1 = choose|i: int| 0 <= i <= w.len() && #[trigger] lang(x, w.take(i)) && reps(x, (m + j - 1) as nat, w.skip(i));
        let rest = w.skip(i1);
        assert((m + j - 1) as nat == (m - 1) as nat + j);
        lemma_reps_split(x, (m - 1) as nat, j, rest);
        let i2 = choose|i: int| 0 <= i <= rest.len() && #[trigger] reps(x, (m - 1) as nat, rest.take(i)) && reps(x, j, rest.skip(i));
        let i = i1 + i2;
        let front = w.take(i);
        assert(front.take(i1) =~= w.take(i1));
        assert(front.skip(i1) =~= rest.take(i2));
        lemma_reps_fold(x, m, front, i1);
        assert(w.skip(i) =~= rest.skip(i2));
    }
}

/// From `a`, with epsilon edges back to `s` and on to `f`, a word made of
/// words of `x` leads to `f` when each word of `x` leads from `s` to `a`.
pub(crate) proof fn lemma_star_loop(x: RegexModel, h: Seq<Seq<Edge>>, s: int, a: int, f: int, v: Seq<u32>)
    requires
        forall|u: Seq<u32>| code_points(u) && #[trigger] lang(x, u) ==> path(h, s, a, u),
        path(h, a, s, Seq::<u32>::empty()),
        path(h, a, f, Seq::<u32>::empty()),
        code_points(v),
        star(x, v),
    ensures
        path(h, a, f, v),
    decreases v.len(),
{
    if v.len() > 0 {
        lemma_star_split(x, v);
        let i = choose|i: int| 1 <= i <= v.len() && #[trigger] lang(x, v.take(i)) && star(x, v.skip(i));
        lemma_code_points_split(v, i);
        lemma_star_loop(x, h, s, a, f, v.skip(i));
        lemma_path_concat(h, a, s, a, Seq::<u32>::empty(), v.take(i));
        assert(Seq::<u32>::empty() + v.take(i) =~= v.take(i));
        lemma_path_concat(h, a, a, f, v.take(i), v.skip(i));
        assert(v.take(i) + v.skip(i) =~= v);
    } else {
        assert(v =~= Seq::<u32>::empty());
    }
}

pub(crate) proof fn lemma_chain_complete(x: RegexModel, h: Seq<Seq<Edge>>, acc: int, k: nat)
    requires
        complete_ok(x),
        regex_ok(x),
        0 <= acc < h.len(),
        chain(x, h, acc, k).0.len() <= usize::MAX,
    ensures
        forall|v: Seq<u32>|
            code_points(v) && #[trigger] reps(x, k, v) ==> path(chain(x, h, acc, k).0, acc, chain(x, h, acc, k).1, v),
    decreases x, k + 1,
{
    if k == 0 {
        assert forall|v: Seq<u32>| code_points(v) && #[trigger] reps(x, k, v) implies path(
            chain(x, h, acc, k).0,
            acc,
            chain(x, h, acc, k).1,
            v,
        ) by {
            assert(v =~= Seq::<u32>::empty());
            lemma_path_here(h, acc);
        }
    } else {
        let (g1, s, a) = frag(x, h);
        lemma_frag_shape(x, h);
        let h2 = with_edge(g1, acc, eps(s));
        lemma_with_edge_extends(g1, acc, eps(s));
        lemma_chain_shape(x, h2, a, (k - 1) as nat);
        let (g3, a3) = chain(x, h2, a, (k - 1) as nat);
        lemma_extends_trans(g1, h2, g3);
        lemma_frag_complete(x, h);
        lemma_chain_complete(x, h2, a, (k - 1) as nat);
        lemma_path_eps(h2, acc, g1[acc].len() as int);
        lemma_path_extends(h2, g3, acc, s, Seq::<u32>::empty());
        assert forall|v: Seq<u32>| code_points(v) && #[trigger] reps(x, k, v) implies path(g3, acc, a3, v) by {
            lemma_reps_unfold(x, k, v);
            let i = choose|i: int| 0 <= i <= v.len() && #[trigger] lang(x, v.take(i)) && reps(x, (k - 1) as nat, v.skip(i));
            lemma_code_points_split(v, i);
            lemma_path_extends(g1, g3, s, a, v.take(i));
            lemma_path_concat(g3, acc, s, a, Seq::<u32>::empty(), v.take(i));
            assert(Seq::<u32>::empty() + v.take(i) =~= v.take(i));
            lemma_path_concat(g3, acc, a, a3, v.take(i), v.skip(i));
            assert(v.take(i) + v.skip(i) =~= v);
        }
    }
}

pub(crate) proof fn lemma_opt_chain_complete(x: RegexModel, h: Seq<Seq<Edge>>, cur: int, k: nat)
    requires
        complete_ok(x),
        regex_ok(x),
        0 <= cur < h.len(),
        opt_chain(x, h, cur, k).0.len() <= usize::MAX,
    ensures
        forall|j: nat, v: Seq<u32>|
            j <= k && code_points(v) && #[trigger] reps(x, j, v) ==> path(
                opt_chain(x, h, cur, k).0,
                cur,
                opt_chain(x, h, cur, k).1,
                v,
            ),
    decreases x, k + 1,
{
    if k == 0 {
        assert forall|j: nat, v: Seq<u32>| j <= k && code_points(v) && #[trigger] reps(x, j, v) implies path(
            opt_chain(x, h, cur, k).0,
            cur,
            opt_chain(x, h, cur, k).1,
            v,
        ) by {
            assert(v =~= Seq::<u32>::empty());
            lemma_path_here(h, cur);
        }
    } else {
        let (g1, s, a) = frag(x, h);
        lemma_frag_shape(x, h);
        let tail = g1.len() as int;
        let p = g1.push(seq![]);
        lemma_push_extends(g1, seq![]);
        let p1 = with_edge(p, cur, eps(tail));
        lemma_with_edge_extends(p, cur, eps(tail));
        let g2 = with_edge(p1, cur, eps(s));
        lemma_with_edge_extends(p1, cur, eps(s));
        let g3 = with_edge(g2, a, eps(tail));
        lemma_with_edge_extends(g2, a, eps(tail));
        lemma_opt_chain_shape(x, g3, tail, (k - 1) as nat);
        let (g4, a4) = opt_chain(x, g3, tail, (k - 1) as nat);
        lemma_extends_trans(p1, g2, g3);
        lemma_extends_trans(p1, g3, g4);
        lemma_extends_trans(g2, g3, g4);
        lemma_extends_trans(g1, p, p1);
        lemma_extends_trans(g1, p1, g4);
        lemma_frag_complete(x, h);
        lemma_opt_chain_complete(x, g3, tail, (k - 1) as nat);
        lemma_path_eps(p1, cur, p[cur].len() as int);
        lemma_path_extends(p1, g4, cur, tail, Seq::<u32>::empty());
        lemma_path_eps(g2, cur, p1[cur].len() as int);
        lemma_path_extends(g2, g4, cur, s, Seq::<u32>::empty());
        lemma_path_eps(g3, a, g2[a].len() as int);
        lemma_path_extends(g3, g4, a, tail, Seq::<u32>::empty());
        assert forall|j: nat, v: Seq<u32>| j <= k && code_points(v) && #[trigger] reps(x, j, v) implies path(
            g4,
            cur,
            a4,
            v,
        ) by {
            if j == 0 {
                assert(v =~= Seq::<u32>::empty());
                assert(reps(x, 0, v));
                lemma_path_concat(g4, cur, tail, a4, Seq::<u32>::empty(), v);
                assert(Seq::<u32>::empty() + v =~= v);
            } else {
                lemma_reps_unfold(x, j, v);
                let i = choose|i: int| 0 <= i <= v.len() && #[trigger] lang(x, v.take(i)) && reps(x, (j - 1) as nat, v.skip(i));
                lemma_code_points_split(v, i);
                lemma_path_extends(g1, g4, s, a, v.take(i));
                lemma_path_concat(g4, cur, s, a, Seq::<u32>::empty(), v.take(i));
                assert(Seq::<u32>::empty() + v.take(i) =~= v.take(i));
                lemma_path_concat(g4, cur, a, tail, v.take(i), Seq::<u32>::empty());
                assert(v.take(i) + Seq::<u32>::empty() =~= v.take(i));
                assert(reps(x, (j - 1) as nat, v.skip(i)));
                lemma_path_concat(g4, cur, tail, a4, v.take(i), v.skip(i));
                assert(v.take(i) + v.skip(i) =~= v);
            }
        }
    }
}

/// The fragment of `r` leads from its start to its accept state on every
/// word of code points that `r` matches.
pub(crate) proof fn lemma_frag_complete(r: RegexModel, g: Seq<Seq<Edge>>)
    requires
        complete_ok(r),
        regex_ok(r),
        frag(r, g).0.len() <= usize::MAX,
    ensures
        forall|w: Seq<u32>|
            code_points(w) && #[trigger] lang(r, w) ==> path(frag(r, g).0, frag(r, g).1, frag(r, g).2, w),
    decreases r, 1nat,
{
    let n = g.len() as int;
    lemma_frag_shape(r, g);
    let (k0, s0, a0) = frag(r, g);
    match r {
        RegexModel::Char(c) => {
            let h = g.push(seq![]).push(seq![]);
            lemma_with_edge_extends(h, n, crate::scanner::nfa::chr(c, n + 1));
            assert(k0[n] == seq![crate::scanner::nfa::chr(c, n + 1)]);
            assert forall|w: Seq<u32>| code_points(w) && #[trigger] lang(r, w) implies path(k0, s0, a0, w) by {
                lemma_path_read(k0, n, 0, c);
            }
        },
        RegexModel::CharClass(negated, items) => {
            let es = class_edges(negated, items, n + 1);
            assert(k0[n] == es);
            assert forall|w: Seq<u32>| code_points(w) && #[trigger] lang(r, w) implies path(k0, s0, a0, w) by {
                let cp = w[0];
                assert(w =~= seq![cp]);
                if negated {
                    let ivs = items.map_values(|i: CharClassItem| item_interval(i));
                    lemma_pieces_cover(ivs, cp);
                    let ps = pieces(sorted_points(boundary_points(ivs)));
                    let k = choose|k: int| 0 <= k < ps.len() && #[trigger] ps[k].start <= cp && cp < ps[k].end;
                    assert(es[k] == rng(ps[k].start, (ps[k].end - 1) as u32, n + 1));
                    lemma_path_read(k0, n, k, cp);
                } else {
                    let k = choose|k: int| 0 <= k < items.len() && #[trigger] items[k].start <= cp && cp <= items[k].end;
                    assert(es[k] == rng(items[k].start, items[k].end, n + 1));
                    lemma_path_read(k0, n, k, cp);
                }
            }
        },
        RegexModel::Concat(x, y) => {
            let (g1, s1, a1) = frag(*x, g);
            let (g2, s2, a2) = frag(*y, g1);
            lemma_frag_shape(*x, g);
            lemma_frag_shape(*y, g1);
            lemma_frag_complete(*x, g);
            lemma_frag_complete(*y, g1);
            lemma_with_edge_extends(g2, a1, eps(s2));
            lemma_extends_trans(g1, g2, k0);
            lemma_path_eps(k0, a1, g2[a1].len() as int);
            assert forall|w: Seq<u32>| code_points(w) && #[trigger] lang(r, w) implies path(k0, s0, a0, w) by {
                lemma_split_from(r, w, 0);
                let i = choose|i: int| 0 <= i <= w.len() && #[trigger] split_at(r, w, i);
                lemma_code_points_split(w, i);
                assert(lang(*x, w.take(i)) && lang(*y, w.skip(i)));
                assert(path(g1, s1, a1, w.take(i)));
                assert(path(g2, s2, a2, w.skip(i)));
                lemma_path_extends(g1, k0, s1, a1, w.take(i));
                lemma_path_extends(g2, k0, s2, a2, w.skip(i));
                lemma_path_concat(k0, s1, a1, s2, w.take(i), Seq::<u32>::empty());
                assert(w.take(i) + Seq::<u32>::empty() =~= w.take(i));
                lemma_path_concat(k0, s1, s2, a2, w.take(i), w.skip(i));
                assert(w.take(i) + w.skip(i) =~= w);
            }
        },
        RegexModel::Alt(x, y) => {
            let (g1, s1, a1) = frag(*x, g);
            let (g2, s2, a2) = frag(*y, g1);
            lemma_frag_shape(*x, g);
            lemma_frag_shape(*y, g1);
            lemma_frag_complete(*x, g);
            lemma_frag_complete(*y, g1);
            lemma_extends_trans(g, g1, g2);
            let st = g2.len() as int;
            let p = g2.push(seq![]).push(seq![]);
            lemma_push_extends(g2, seq![]);
            lemma_push_extends(g2.push(seq![]), seq![]);
            lemma_extends_trans(g2, g2.push(seq![]), p);
            let p1 = with_edge(p, st, eps(s1));
            lemma_with_edge_extends(p, st, eps(s1));
            let g3 = with_edge(p1, st, eps(s2));
            lemma_with_edge_extends(p1, st, eps(s2));
            let g4 = with_edge(g3, a1, eps(st + 1));
            lemma_with_edge_extends(g3, a1, eps(st + 1));
            lemma_with_edge_extends(g4, a2, eps(st + 1));
            lemma_extends_trans(p1, g3, g4);
            lemma_extends_trans(p1, g4, k0);
            lemma_extends_trans(g3, g4, k0);
            lemma_extends_trans(g2, p, p1);
            lemma_extends_trans(g2, p1, k0);
            lemma_extends_trans(g1, g2, k0);
            lemma_path_eps(p1, st, 0);
            lemma_path_extends(p1, k0, st, s1, Seq::<u32>::empty());
            lemma_path_eps(g3, st, 1);
            lemma_path_extends(g3, k0, st, s2, Seq::<u32>::empty());
            lemma_path_eps(g4, a1, g3[a1].len() as int);
            lemma_path_extends(g4, k0, a1, st + 1, Seq::<u32>::empty());
            lemma_path_eps(k0, a2, g4[a2].len() as int);
            assert forall|w: Seq<u32>| code_points(w) && #[trigger] lang(r, w) implies path(k0, s0, a0, w) by {
                assert(Seq::<u32>::empty() + w =~= w);
                assert(w + Seq::<u32>::empty() =~= w);
                if lang(*x, w) {
                    assert(path(g1, s1, a1, w));
                    lemma_path_extends(g1, k0, s1, a1, w);
                    lemma_path_concat(k0, st, s1, a1, Seq::<u32>::empty(), w);
                    lemma_path_concat(k0, st, a1, st + 1, w, Seq::<u32>::empty());
                } else {
                    assert(lang(*y, w));
                    assert(path(g2, s2, a2, w));
                    lemma_path_extends(g2, k0, s2, a2, w);
                    lemma_path_concat(k0, st, s2, a2, Seq::<u32>::empty(), w);
                    lemma_path_concat(k0, st, a2, st + 1, w, Seq::<u32>::empty());
                }
            }
        },
        RegexModel::Star(x) => {
            let (g1, s, a) = frag(*x, g);
            lemma_frag_shape(*x, g);
            lemma_frag_complete(*x, g);
            let st = g1.len() as int;
            let p = g1.push(seq![]).push(seq![]);
            lemma_push_extends(g1, seq![]);
            lemma_push_extends(g1.push(seq![]), seq![]);
            lemma_extends_trans(g1, g1.push(seq![]), p);
            let p1 = with_edge(p, st, eps(s));
            lemma_with_edge_extends(p, st, eps(s));
            let g2 = with_edge(p1, st, eps(st + 1));
            lemma_with_edge_extends(p1, st, eps(st + 1));
            let g3 = with_edge(g2, a, eps(s));
            lemma_with_edge_extends(g2, a, eps(s));
            lemma_with_edge_extends(g3, a, eps(st + 1));
            lemma_extends_trans(g2, g3, k0);
            lemma_extends_trans(p1, g2, k0);
            lemma_extends_trans(p, p1, k0);
            lemma_extends_trans(g1, p, k0);
            lemma_path_eps(p1, st, 0);
            lemma_path_extends(p1, k0, st, s, Seq::<u32>::empty());
            lemma_path_eps(g2, st, 1);
            lemma_path_extends(g2, k0, st, st + 1, Seq::<u32>::empty());
            lemma_path_eps(g3, a, g2[a].len() as int);
            lemma_path_extends(g3, k0, a, s, Seq::<u32>::empty());
            lemma_path_eps(k0, a, g3[a].len() as int);
            assert forall|u: Seq<u32>| code_points(u) && #[trigger] lang(*x, u) implies path(k0, s, a, u) by {
                lemma_path_extends(g1, k0, s, a, u);
            }
            assert forall|w: Seq<u32>| code_points(w) && #[trigger] lang(r, w) implies path(k0, s0, a0, w) by {
                if w.len() == 0 {
                    assert(w =~= Seq::<u32>::empty());
                } else {
                    lemma_star_split(*x, w);
                    let i = choose|i: int| 1 <= i <= w.len() && #[trigger] lang(*x, w.take(i)) && star(*x, w.skip(i));
                    lemma_code_points_split(w, i);
                    lemma_star_loop(*x, k0, s, a, st + 1, w.skip(i));
                    assert(path(k0, s, a, w.take(i)));
                    lemma_path_concat(k0, st, s, a, Seq::<u32>::empty(), w.take(i));
                    assert(Seq::<u32>::empty() + w.take(i) =~= w.take(i));
                    lemma_path_concat(k0, st, a, st + 1, w.take(i), w.skip(i));
                    assert(w.take(i) + w.skip(i) =~= w);
                }
            }
        },
        RegexModel::Plus(x) => {
            let (g1, s, a) = frag(*x, g);
            lemma_frag_shape(*x, g);
            lemma_frag_complete(*x, g);
            let st = g1.len() as int;
            let p = g1.push(seq![]).push(seq![]);
            lemma_push_extends(g1, seq![]);
            lemma_push_extends(g1.push(seq![]), seq![]);
            lemma_extends_trans(g1, g1.push(seq![]), p);
            let g2 = with_edge(p, st, eps(s));
            lemma_with_edge_extends(p, st, eps(s));
            let g3 = with_edge(g2, a, eps(s));
            lemma_with_edge_extends(g2, a, eps(s));
            lemma_with_edge_extends(g3, a, eps(st + 1));
            lemma_extends_trans(g2, g3, k0);
            lemma_extends_trans(p, g2, k0);
            lemma_extends_trans(g1, p, k0);
            lemma_path_eps(g2, st, 0);
            lemma_path_extends(g2, k0, st, s, Seq::<u32>::empty());
            lemma_path_eps(g3, a, g2[a].len() as int);
            lemma_path_extends(g3, k0, a, s, Seq::<u32>::empty());
            lemma_path_eps(k0, a, g3[a].len() as int);
            assert forall|u: Seq<u32>| code_points(u) && #[trigger] lang(*x, u) implies path(k0, s, a, u) by {
                lemma_path_extends(g1, k0, s, a, u);
            }
            assert forall|w: Seq<u32>| code_points(w) && #[trigger] lang(r, w) implies path(k0, s0, a0, w) by {
                lemma_split_from(r, w, 0);
                let i = choose|i: int| 0 <= i <= w.len() && #[trigger] split_at(r, w, i);
                lemma_code_points_split(w, i);
                assert(lang(*x, w.take(i)) && star(*x, w.skip(i)));
                lemma_star_loop(*x, k0, s, a, st + 1, w.skip(i));
                assert(path(k0, s, a, w.take(i)));
                lemma_path_concat(k0, st, s, a, Seq::<u32>::empty(), w.take(i));
                assert(Seq::<u32>::empty() + w.take(i) =~= w.take(i));
                lemma_path_concat(k0, st, a, st + 1, w.take(i), w.skip(i));
                assert(w.take(i) + w.skip(i) =~= w);
            }
        },
        RegexModel::Opt(x) => {
            let (g1, s, a) = frag(*x, g);
            lemma_frag_shape(*x, g);
            lemma_frag_complete(*x, g);
            let st = g1.len() as int;
            let p = g1.push(seq![]).push(seq![]);
            lemma_push_extends(g1, seq![]);
            lemma_push_extends(g1.push(seq![]), seq![]);
            lemma_extends_trans(g1, g1.push(seq![]), p);
            let p1 = with_edge(p, st, eps(s));
            lemma_with_edge_extends(p, st, eps(s));
            let g2 = with_edge(p1, st, eps(st + 1));
            lemma_with_edge_extends(p1, st, eps(st + 1));
            lemma_with_edge_extends(g2, a, eps(st + 1));
            lemma_extends_trans(p1, g2, k0);
            lemma_extends_trans(p, p1, k0);
            lemma_extends_trans(g1, p, k0);
            lemma_path_eps(p1, st, 0);
            lemma_path_extends(p1, k0, st, s, Seq::<u32>::empty());
            lemma_path_eps(g2, st, 1);
            lemma_path_extends(g2, k0, st, st + 1, Seq::<u32>::empty());
            lemma_path_eps(k0, a, g2[a].len() as int);
            assert forall|w: Seq<u32>| code_points(w) && #[trigger] lang(r, w) implies path(k0, s0, a0, w) by {
                if w.len() == 0 {
                    assert(w =~= Seq::<u32>::empty());
                } else {
                    assert(lang(*x, w));
                    assert(path(g1, s, a, w));
                    lemma_path_extends(g1, k0, s, a, w);
                    lemma_path_concat(k0, st, s, a, Seq::<u32>::empty(), w);
                    assert(Seq::<u32>::empty() + w =~= w);
                    lemma_path_concat(k0, st, a, st + 1, w, Seq::<u32>::empty());
                    assert(w + Seq::<u32>::empty() =~= w);
                }
            }
        },
        RegexModel::Repeat(x, kind) => {
            lemma_frag_repeat_complete(*x, kind, g);
        },
    }
}

/// The repetition cases of `lemma_frag_complete`.
pub(crate) proof fn lemma_frag_repeat_complete(x: RegexModel, kind: RepeatType, g: Seq<Seq<Edge>>)
    requires
        complete_ok(RegexModel::Repeat(Box::new(x), kind)),
        regex_ok(RegexModel::Repeat(Box::new(x), kind)),
        frag(RegexModel::Repeat(Box::new(x), kind), g).0.len() <= usize::MAX,
    ensures
        forall|w: Seq<u32>|
            code_points(w) && #[trigger] lang(RegexModel::Repeat(Box::new(x), kind), w) ==> path(
                frag(RegexModel::Repeat(Box::new(x), kind), g).0,
                frag(RegexModel::Repeat(Box::new(x), kind), g).1,
                frag(RegexModel::Repeat(Box::new(x), kind), g).2,
                w,
            ),
    decreases RegexModel::Repeat(Box::new(x), kind), 0nat,
{
    let r = RegexModel::Repeat(Box::new(x), kind);
    let n = g.len() as int;
    let (k0, s0, a0) = frag(r, g);
    lemma_empty_frag_shape(g);
    let e0 = empty_frag(g).0;
    let h = g.push(seq![]).push(seq![]);
    lemma_with_edge_extends(h, n, eps(n + 1));
    assert(e0[n] == seq![eps(n + 1)]);
    lemma_path_eps(e0, n, 0);
    match kind {
        RepeatType::Exactly(count) => {
            if count == 0 {
                assert forall|w: Seq<u32>| code_points(w) && #[trigger] lang(r, w) implies path(k0, s0, a0, w) by {
                    assert(reps(x, 0, w));
                    assert(w.len() == 0);
                    assert(w =~= Seq::<u32>::empty());
                }
            } else {
                let (g1, s, a) = frag(x, g);
                lemma_frag_shape(x, g);
                lemma_chain_shape(x, g1, a, (count - 1) as nat);
                let (g2, a2) = chain(x, g1, a, (count - 1) as nat);
                assert(g1.len() <= g2.len());
                lemma_frag_complete(x, g);
                lemma_chain_complete(x, g1, a, (count - 1) as nat);
                assert forall|w: Seq<u32>| code_points(w) && #[trigger] lang(r, w) implies path(k0, s0, a0, w) by {
                    assert(reps(x, count as nat, w));
                    lemma_reps_unfold(x, count as nat, w);
                    let i = choose|i: int| 0 <= i <= w.len() && #[trigger] lang(x, w.take(i)) && reps(x, (count - 1) as nat, w.skip(i));
                    lemma_code_points_split(w, i);
                    lemma_path_extends(g1, g2, s, a, w.take(i));
                    lemma_path_concat(g2, s, a, a2, w.take(i), w.skip(i));
                    assert(w.take(i) + w.skip(i) =~= w);
                }
            }
        },
        RepeatType::AtLeast(count) => {
            assert(count == 1);
            let (g1, s, a) = frag(x, g);
            lemma_frag_shape(x, g);
            assert(chain(x, g1, a, 0) == (g1, a));
            let g3 = with_edge(g1, a, eps(s));
            lemma_with_edge_extends(g1, a, eps(s));
            let f = g3.len() as int;
            let p = g3.push(seq![]);
            lemma_push_extends(g3, seq![]);
            lemma_with_edge_extends(p, a, eps(f));
            lemma_extends_trans(g3, p, k0);
            lemma_extends_trans(g1, g3, k0);
            lemma_frag_complete(x, g);
            lemma_path_eps(g3, a, g1[a].len() as int);
            lemma_path_extends(g3, k0, a, s, Seq::<u32>::empty());
            lemma_path_eps(k0, a, p[a].len() as int);
            assert forall|u: Seq<u32>| code_points(u) && #[trigger] lang(x, u) implies path(k0, s, a, u) by {
                lemma_path_extends(g1, k0, s, a, u);
            }
            assert forall|w: Seq<u32>| code_points(w) && #[trigger] lang(r, w) implies path(k0, s0, a0, w) by {
                lemma_split_from(r, w, 0);
                let i = choose|i: int| 0 <= i <= w.len() && #[trigger] split_at(r, w, i);
                let u = w.take(i);
                lemma_reps_unfold(x, 1, u);
                let i2 = choose|i2: int| 0 <= i2 <= u.len() && #[trigger] lang(x, u.take(i2)) && reps(x, 0, u.skip(i2));
                assert(u.take(i2) =~= u);
                lemma_code_points_split(w, i);
                lemma_star_loop(x, k0, s, a, f, w.skip(i));
                lemma_path_concat(k0, s, a, f, u, w.skip(i));
                assert(u + w.skip(i) =~= w);
            }
        },
        RepeatType::Between(lo, hi) => {
            if lo == 0 && hi == 0 {
                assert forall|w: Seq<u32>| code_points(w) && #[trigger] lang(r, w) implies path(k0, s0, a0, w) by {
                    lemma_count_from(x, lo, hi, w, lo as nat);
                    let k = choose|k: nat| lo <= k <= hi && #[trigger] reps(x, k, w);
                    assert(k == 0);
                    assert(reps(x, 0, w));
                    assert(w.len() == 0);
                    assert(w =~= Seq::<u32>::empty());
                }
            } else {
                assert(lo >= 1);
                assert(lo <= hi);
                let (g1, s, a) = frag(x, g);
                lemma_frag_shape(x, g);
                let m = (lo - 1) as nat;
                lemma_chain_shape(x, g1, a, m);
                let (g2, a2) = chain(x, g1, a, m);
                lemma_opt_chain_shape(x, g2, a2, (hi - lo) as nat);
                let (g3, a3) = opt_chain(x, g2, a2, (hi - lo) as nat);
                lemma_extends_trans(g1, g2, g3);
                lemma_frag_complete(x, g);
                lemma_chain_complete(x, g1, a, m);
                lemma_opt_chain_complete(x, g2, a2, (hi - lo) as nat);
                assert forall|w: Seq<u32>| code_points(w) && #[trigger] lang(r, w) implies path(k0, s0, a0, w) by {
                    lemma_count_from(x, lo, hi, w, lo as nat);
                    let k = choose|k: nat| lo <= k <= hi && #[trigger] reps(x, k, w);
                    let j = (k - lo) as nat;
                    assert(k == lo as nat + j);
                    lemma_reps_split(x, lo as nat, j, w);
                    let i = choose|i: int| 0 <= i <= w.len() && #[trigger] reps(x, lo as nat, w.take(i)) && reps(x, j, w.skip(i));
                    let u = w.take(i);
                    lemma_reps_unfold(x, lo as nat, u);
                    let i2 = choose|i2: int| 0 <= i2 <= u.len() && #[trigger] lang(x, u.take(i2)) && reps(x, m, u.skip(i2));
                    lemma_code_points_split(w, i);
                    lemma_code_points_split(u, i2);
                    lemma_path_extends(g1, g3, s, a, u.take(i2));
                    lemma_path_extends(g2, g3, a, a2, u.skip(i2));
                    lemma_path_concat(g3, s, a, a2, u.take(i2), u.skip(i2));
                    assert(u.take(i2) + u.skip(i2) =~= u);
                    lemma_path_concat(g3, s, a2, a3, u, w.skip(i));
                    assert(u + w.skip(i) =~= w);
                }
            }
        },
    }
}

/// The automaton of the patterns has its start state, and one accept
/// state per pattern, carrying the pattern's token.
pub(crate) proof fn lemma_nfa_shape(ps: Seq<(usize, RegexModel)>)
    ensures
        nfa_of(ps).0.len() >= 1,
        nfa_of(ps).1.len() == ps.len(),
        forall|k: int| 0 <= k < ps.len() ==> #[trigger] nfa_of(ps).1[k].1 == ps[k].0,
    decreases ps.len(),
{
    if ps.len() > 0 {
        let p0 = ps.drop_last();
        lemma_nfa_shape(p0);
        let (g, acc) = nfa_of(p0);
        lemma_frag_shape(ps.last().1, g);
        let (g1, s, a) = frag(ps.last().1, g);
        lemma_with_edge_extends(g1, 0, eps(s));
        assert forall|k: int| 0 <= k < ps.len() implies #[trigger] nfa_of(ps).1[k].1 == ps[k].0 by {
            if k < ps.len() - 1 {
                assert(p0[k] == ps[k]);
            }
        }
    }
}

/// A word that pattern `k` matches leads from the common start state to
/// the pattern's accept state.
pub(crate) proof fn lemma_nfa_path(ps: Seq<(usize, RegexModel)>, k: int, w: Seq<u32>)
    requires
        nfa_of(ps).0.len() <= usize::MAX,
        0 <= k < ps.len(),
        complete_ok(ps[k].1),
        regex_ok(ps[k].1),
        code_points(w),
        lang(ps[k].1, w),
    ensures
        path(nfa_of(ps).0, 0, nfa_of(ps).1[k].0 as int, w),
    decreases ps.len(),
{
    let p0 = ps.drop_last();
    lemma_nfa_shape(p0);
    let (g, acc) = nfa_of(p0);
    let r = ps.last().1;
    lemma_frag_shape(r, g);
    let (g1, s, a) = frag(r, g);
    let k0 = with_edge(g1, 0, eps(s));
    lemma_with_edge_extends(g1, 0, eps(s));
    assert(nfa_of(ps).0 == k0);
    if k == ps.len() - 1 {
        lemma_frag_complete(r, g);
        assert(path(g1, s, a, w));
        lemma_path_extends(g1, k0, s, a, w);
        assert(k0[0][g1[0].len() as int] == eps(s));
        lemma_path_eps(k0, 0, g1[0].len() as int);
        lemma_path_concat(k0, 0, s, a, Seq::<u32>::empty(), w);
        assert(Seq::<u32>::empty() + w =~= w);
        assert(nfa_of(ps).1[k] == (a as usize, ps.last().0));
    } else {
        assert(p0[k] == ps[k]);
        lemma_nfa_path(p0, k, w);
        lemma_extends_trans(g, g1, k0);
        lemma_path_extends(g, k0, 0, acc[k].0 as int, w);
        assert(nfa_of(ps).1[k] == acc[k]);
    }
}

/// A set that holds the accept state of entry `k` has a best token, no
/// larger than that entry's.
pub(crate) proof fn lemma_best_token_at_most(accepts: Seq<(usize, usize)>, set: Set<int>, k: int)
    requires
        0 <= k < accepts.len(),
        set.contains(accepts[k].0 as int),
    ensures
        best_token(accepts, set) matches Some(tok) && tok <= accepts[k].1,
    decreases accepts.len(),
{
    let a0 = accepts.drop_last();
    if k < accepts.len() - 1 {
        assert(a0[k] == accepts[k]);
        lemma_best_token_at_most(a0, set, k);
    }
}

/// Every word that a pattern matches is accepted by the subset automaton of
/// the patterns' NFA, before any classes are merged: reading it through the
/// table reaches a state whose set of NFA states has a best token, the
/// pattern's or a smaller one. Patterns using `{n,}` with `n` other than 1,
/// or `{0,m}` with `m` above 0, are left out.
pub proof fn law_subset_accepts_matched_word(
    ps: Seq<(usize, RegexModel)>,
    sets: Seq<Set<int>>,
    t: Seq<Seq<Option<usize>>>,
    k: int,
    w: Seq<u32>,
)
    requires
        edges_ok(nfa_of(ps).0),
        nfa_of(ps).0.len() <= usize::MAX,
        subset_table(nfa_of(ps).0, 0, classes_of(class_bounds(nfa_of(ps).0)), sets, t),
        0 <= k < ps.len(),
        regex_ok(ps[k].1),
        complete_ok(ps[k].1),
        code_points(w),
        lang(ps[k].1, w),
    ensures
        table_run(t, classes_of(class_bounds(nfa_of(ps).0)), w) matches Some(s) && (s < sets.len() && (
        best_token(nfa_of(ps).1, sets[s as int]) matches Some(tok) && tok <= ps[k].0)),
{
    let (g, acc) = nfa_of(ps);
    lemma_nfa_shape(ps);
    lemma_nfa_path(ps, k, w);
    let n = choose|n: nat| #[trigger] path_n(g, 0, acc[k].0 as int, w, n);
    lemma_path_run(g, 0, acc[k].0 as int, w, n);
    law_subset_simulates(g, 0, sets, t, w);
    lemma_best_token_at_most(acc, nfa_run(g, 0, w), k);
}

/// Every word that a pattern matches is accepted: reading it through the
/// table of the DFA built from the patterns' automaton (where no two
/// classes were merged) reaches a state whose token is the pattern's or
/// that of another pattern with a smaller token. Patterns using `{n,}` with
/// `n` other than 1, or `{0,m}` with `m` above 0, are left out: their
/// automaton differs from their words.
pub proof fn law_matched_word_accepted(ps: Seq<(usize, RegexModel)>, dfa: DFA, k: int, w: Seq<u32>)
    requires
        edges_ok(nfa_of(ps).0),
        nfa_of(ps).0.len() <= usize::MAX,
        dfa_of(nfa_of(ps).0, 0, nfa_of(ps).1, dfa),
        dfa.intervals@ == classes_of(class_bounds(nfa_of(ps).0)),
        0 <= k < ps.len(),
        regex_ok(ps[k].1),
        complete_ok(ps[k].1),
        code_points(w),
        lang(ps[k].1, w),
    ensures
        table_run(table(dfa.transitions@), dfa.intervals@, w) matches Some(s) && (s < dfa.accept.len()
            && (dfa.accept@[s as int] matches Some(tok) && tok <= ps[k].0)),
{
    let (g, acc) = nfa_of(ps);
    lemma_nfa_shape(ps);
    lemma_nfa_path(ps, k, w);
    let n = choose|n: nat| #[trigger] path_n(g, 0, acc[k].0 as int, w, n);
    lemma_path_run(g, 0, acc[k].0 as int, w, n);
    law_dfa_follows_nfa(g, 0, acc, dfa, w);
    lemma_best_token_at_most(acc, nfa_run(g, 0, w), k);
}

} // verus!
