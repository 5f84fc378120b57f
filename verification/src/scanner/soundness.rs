//! The converse of completeness: on patterns without negated classes,
//! `{n,}` or `{0,m}` with `m` above 0, a word that leads from a fragment's
//! start to its accept state is a word of the pattern, and so is a word
//! that the subset automaton of the patterns labels with the pattern's token.
use vstd::prelude::*;
use crate::base::regex::ast::{RegexModel, RepeatType};
use crate::scanner::dfa::{
    DFA, best_token, class_bounds, classes_of, dfa_of, edges_ok, eps_step, reach_in, reads, step_set, table,
};
use crate::scanner::run::{law_dfa_follows_nfa, nfa_run, table_run};
use crate::scanner::language::{
    count_from, in_items, lang, lemma_chain_local, lemma_chain_shape, lemma_empty_frag_local,
    lemma_empty_frag_shape, lemma_frag_local, lemma_frag_shape, lemma_opt_chain_local,
    lemma_opt_chain_shape, lemma_reps_fold, lemma_reps_unfold, lemma_star_split, local, path,
    path_n, reps, split_at, split_from, star, star_from,
};
use crate::scanner::nfa::{Edge, EdgeType, chain, empty_frag, eps, frag, nfa_of, opt_chain, regex_ok, with_edge};
use crate::scanner::language::{code_points, law_nfa_shape, pattern_bounds, pattern_starts};

verus! {

/// Whether `r` has no negated class, no `{n,}` and no `{0,m}` with `m`
/// above 0: the patterns whose automaton reads only their words.
pub open spec fn sound_ok(r: RegexModel) -> bool
    decreases r,
{
    match r {
        RegexModel::Char(_) => true,
        RegexModel::CharClass(negated, _) => !negated,
        RegexModel::Concat(x, y) => sound_ok(*x) && sound_ok(*y),
        RegexModel::Alt(x, y) => sound_ok(*x) && sound_ok(*y),
        RegexModel::Star(x) => sound_ok(*x),
        RegexModel::Plus(x) => sound_ok(*x),
        RegexModel::Opt(x) => sound_ok(*x),
        RegexModel::Repeat(x, kind) => sound_ok(*x) && match kind {
            RepeatType::Exactly(_) => true,
            RepeatType::AtLeast(_) => false,
            RepeatType::Between(lo, hi) => lo >= 1 || hi == 0,
        },
    }
}

/// Whether `w` is `j` words of `x` for some `j` from `lo` to `m`.
pub open spec fn count_in(x: RegexModel, lo: nat, m: nat, w: Seq<u32>) -> bool {
    exists|j: nat| lo <= j <= m && #[trigger] reps(x, j, w)
}

/// The words that lead from the start of the fragment of `r` (added to
/// `g`) to its state `q`.
pub open spec fn reach(r: RegexModel, g: Seq<Seq<Edge>>, q: int, w: Seq<u32>) -> bool
    decreases r, 0nat,
{
    let n = g.len() as int;
    match r {
        RegexModel::Char(_) => (q == n && w.len() == 0) || (q == n + 1 && lang(r, w)),
        RegexModel::CharClass(_, _) => (q == n && w.len() == 0) || (q == n + 1 && lang(r, w)),
        RegexModel::Concat(x, y) => {
            let g1 = frag(*x, g).0;
            if q < g1.len() {
                reach(*x, g, q, w)
            } else {
                exists|i: int| 0 <= i <= w.len() && #[trigger] lang(*x, w.take(i)) && reach(*y, g1, q, w.skip(i))
            }
        },
        RegexModel::Alt(x, y) => {
            let g1 = frag(*x, g).0;
            let g2 = frag(*y, g1).0;
            if q < g1.len() {
                reach(*x, g, q, w)
            } else if q < g2.len() {
                reach(*y, g1, q, w)
            } else if q == g2.len() {
                w.len() == 0
            } else {
                lang(r, w)
            }
        },
        RegexModel::Star(x) => {
            let g1 = frag(*x, g).0;
            if q < g1.len() {
                exists|i: int| 0 <= i <= w.len() && #[trigger] star(*x, w.take(i)) && reach(*x, g, q, w.skip(i))
            } else if q == g1.len() {
                w.len() == 0
            } else {
                star(*x, w)
            }
        },
        RegexModel::Plus(x) => {
            let g1 = frag(*x, g).0;
            if q < g1.len() {
                exists|i: int| 0 <= i <= w.len() && #[trigger] star(*x, w.take(i)) && reach(*x, g, q, w.skip(i))
            } else if q == g1.len() {
                w.len() == 0
            } else {
                lang(r, w)
            }
        },
        RegexModel::Opt(x) => {
            let g1 = frag(*x, g).0;
            if q < g1.len() {
                reach(*x, g, q, w)
            } else if q == g1.len() {
                w.len() == 0
            } else {
                w.len() == 0 || lang(*x, w)
            }
        },
        RegexModel::Repeat(x, kind) => match kind {
            RepeatType::Exactly(count) => if count == 0 {
                w.len() == 0
            } else {
                let (g1, s, a) = frag(*x, g);
                if q < g1.len() {
                    reach(*x, g, q, w)
                } else {
                    reach_chain(*x, g1, a, (count - 1) as nat, 1, q, w)
                }
            },
            RepeatType::AtLeast(_) => false,
            RepeatType::Between(lo, hi) => if lo == 0 && hi == 0 {
                w.len() == 0
            } else {
                let (g1, s, a) = frag(*x, g);
                let m = (lo - 1) as nat;
                let (g2, a2) = chain(*x, g1, a, m);
                if q < g1.len() {
                    reach(*x, g, q, w)
                } else if q < g2.len() {
                    reach_chain(*x, g1, a, m, 1, q, w)
                } else {
                    reach_opt(*x, g2, a2, (hi - lo) as nat, lo as nat, lo as nat, q, w)
                }
            },
        },
    }
}

/// The words that lead to state `q` of `k` more copies of `x` chained
/// after `acc`, which is reached by words of `m` copies.
pub open spec fn reach_chain(x: RegexModel, h: Seq<Seq<Edge>>, acc: int, k: nat, m: nat, q: int, w: Seq<u32>) -> bool
    decreases x, k + 1,
{
    if k == 0 {
        false
    } else {
        let (g1, s, a) = frag(x, h);
        if q < g1.len() {
            exists|i: int| 0 <= i <= w.len() && #[trigger] reps(x, m, w.take(i)) && reach(x, h, q, w.skip(i))
        } else {
            reach_chain(x, with_edge(g1, acc, eps(s)), a, (k - 1) as nat, m + 1, q, w)
        }
    }
}

/// The words that lead to state `q` of `k` optional copies of `x` after
/// `cur`, which is reached by words of `lo` to `m` copies.
pub open spec fn reach_opt(
    x: RegexModel,
    h: Seq<Seq<Edge>>,
    cur: int,
    k: nat,
    lo: nat,
    m: nat,
    q: int,
    w: Seq<u32>,
) -> bool
    decreases x, k + 1,
{
    if k == 0 {
        false
    } else {
        let (g1, s, a) = frag(x, h);
        let tail = g1.len() as int;
        let g3 = with_edge(with_edge(with_edge(g1.push(seq![]), cur, eps(tail)), cur, eps(s)), a, eps(tail));
        if q < g1.len() {
            exists|i: int| 0 <= i <= w.len() && #[trigger] count_in(x, lo, m, w.take(i)) && reach(x, h, q, w.skip(i))
        } else if q == tail {
            count_in(x, lo, m + 1, w)
        } else {
            reach_opt(x, g3, tail, (k - 1) as nat, lo, m + 1, q, w)
        }
    }
}

/// Edge `e` from `q` keeps the words of `rf`: a word leading to `q` leads,
/// with what `e` reads, to its target.
pub open spec fn step_sound(rf: spec_fn(int, Seq<u32>) -> bool, q: int, e: Edge) -> bool {
    forall|w: Seq<u32>|
        #[trigger] rf(q, w) ==> if e.edge_type is Epsilon {
            rf(e.target as int, w)
        } else {
            forall|cp: u32| #[trigger] reads(e, cp) ==> rf(e.target as int, w.push(cp))
        }
}

/// Every edge of the row of `q` keeps the words of `rf`.
pub open spec fn row_sound(row: Seq<Edge>, q: int, rf: spec_fn(int, Seq<u32>) -> bool) -> bool {
    forall|j: int| 0 <= j < row.len() ==> step_sound(rf, q, #[trigger] row[j])
}

/// Every row from `lo` to `hi` keeps the words of `rf`.
pub open spec fn rows_sound(h: Seq<Seq<Edge>>, lo: int, hi: int, rf: spec_fn(int, Seq<u32>) -> bool) -> bool {
    forall|q: int| lo <= q < hi ==> #[trigger] row_sound(h[q], q, rf)
}

/// A path from a state of a closed region whose edges keep the words of
/// `rf` ends in the region, on a word of `rf`.
proof fn lemma_path_sound(
    h: Seq<Seq<Edge>>,
    lo: int,
    rf: spec_fn(int, Seq<u32>) -> bool,
    s0: int,
    v: int,
    w: Seq<u32>,
    n: nat,
)
    requires
        0 <= lo,
        local(h, lo),
        rows_sound(h, lo, h.len() as int, rf),
        lo <= s0 < h.len(),
        rf(s0, Seq::<u32>::empty()),
        path_n(h, s0, v, w, n),
    ensures
        lo <= v < h.len(),
        rf(v, w),
    decreases n,
{
    if n == 0 {
        assert(w =~= Seq::<u32>::empty());
    } else if path_n(h, s0, v, w, (n - 1) as nat) {
        lemma_path_sound(h, lo, rf, s0, v, w, (n - 1) as nat);
    } else {
        let (x, j) = choose|x: int, j: int|
            0 <= x < h.len() && 0 <= j < h[x].len() && (#[trigger] h[x][j]).target == v && (
            (h[x][j].edge_type is Epsilon && path_n(h, s0, x, w, (n - 1) as nat)) || (w.len() > 0
                && h[x][j].edge_type !is Epsilon && reads(h[x][j], w.last()) && path_n(
                h,
                s0,
                x,
                w.drop_last(),
                (n - 1) as nat,
            )));
        let e = h[x][j];
        if e.edge_type is Epsilon && path_n(h, s0, x, w, (n - 1) as nat) {
            lemma_path_sound(h, lo, rf, s0, x, w, (n - 1) as nat);
            assert(row_sound(h[x], x, rf));
            assert(step_sound(rf, x, e));
        } else {
            lemma_path_sound(h, lo, rf, s0, x, w.drop_last(), (n - 1) as nat);
            assert(row_sound(h[x], x, rf));
            assert(step_sound(rf, x, e));
            assert(rf(x, w.drop_last()));
            assert(reads(e, w.last()));
            assert(w.drop_last().push(w.last()) =~= w);
        }
    }
}

/// Rows that keep the words of `inner` keep the words of `outer` when,
/// within their region, `outer` is `inner` after a prefix of `pre`.
proof fn lemma_lift(
    h: Seq<Seq<Edge>>,
    lo: int,
    hi: int,
    inner: spec_fn(int, Seq<u32>) -> bool,
    outer: spec_fn(int, Seq<u32>) -> bool,
    pre: spec_fn(Seq<u32>) -> bool,
)
    requires
        0 <= lo <= hi <= h.len(),
        rows_sound(h, lo, hi, inner),
        forall|q: int, j: int| lo <= q < hi && 0 <= j < h[q].len() ==> lo <= (#[trigger] h[q][j]).target < hi,
        forall|q: int, w: Seq<u32>|
            lo <= q < hi ==> (#[trigger] outer(q, w) <==> exists|i: int|
                0 <= i <= w.len() && #[trigger] pre(w.take(i)) && inner(q, w.skip(i))),
    ensures
        rows_sound(h, lo, hi, outer),
{
    assert forall|q: int| lo <= q < hi implies #[trigger] row_sound(h[q], q, outer) by {
        assert forall|j: int| 0 <= j < h[q].len() implies step_sound(outer, q, #[trigger] h[q][j]) by {
            let e = h[q][j];
            let t = e.target as int;
            assert(row_sound(h[q], q, inner));
            assert(step_sound(inner, q, e));
            assert(lo <= t < hi);
            assert forall|w: Seq<u32>| #[trigger] outer(q, w) implies if e.edge_type is Epsilon {
                outer(t, w)
            } else {
                forall|cp: u32| #[trigger] reads(e, cp) ==> outer(t, w.push(cp))
            } by {
                let i = choose|i: int| 0 <= i <= w.len() && #[trigger] pre(w.take(i)) && inner(q, w.skip(i));
                if e.edge_type is Epsilon {
                    assert(inner(t, w.skip(i)));
                } else {
                    assert forall|cp: u32| #[trigger] reads(e, cp) implies outer(t, w.push(cp)) by {
                        assert(inner(t, w.skip(i).push(cp)));
                        assert(w.push(cp).take(i) =~= w.take(i));
                        assert(w.push(cp).skip(i) =~= w.skip(i).push(cp));
                    }
                }
            }
        }
    }
}

/// Rows that keep the words of `inner` keep those of `outer` where the two
/// agree on the region.
proof fn lemma_same(
    h: Seq<Seq<Edge>>,
    lo: int,
    hi: int,
    inner: spec_fn(int, Seq<u32>) -> bool,
    outer: spec_fn(int, Seq<u32>) -> bool,
)
    requires
        0 <= lo <= hi <= h.len(),
        rows_sound(h, lo, hi, inner),
        forall|q: int, j: int| lo <= q < hi && 0 <= j < h[q].len() ==> lo <= (#[trigger] h[q][j]).target < hi,
        forall|q: int, w: Seq<u32>| lo <= q < hi ==> (#[trigger] outer(q, w) <==> inner(q, w)),
    ensures
        rows_sound(h, lo, hi, outer),
{
    assert forall|q: int| lo <= q < hi implies #[trigger] row_sound(h[q], q, outer) by {
        assert forall|j: int| 0 <= j < h[q].len() implies step_sound(outer, q, #[trigger] h[q][j]) by {
            let e = h[q][j];
            assert(row_sound(h[q], q, inner));
            assert(step_sound(inner, q, e));
            assert(lo <= e.target < hi);
        }
    }
}

/// `star` from a first word on.
proof fn lemma_star_intro(x: RegexModel, w: Seq<u32>, i: int)
    requires
        1 <= i <= w.len(),
        lang(x, w.take(i)),
        star(x, w.skip(i)),
    ensures
        star(x, w),
{
    lemma_star_from_intro(x, w, 1, i);
}

proof fn lemma_star_from_intro(x: RegexModel, w: Seq<u32>, j: int, i: int)
    requires
        1 <= j <= i <= w.len(),
        lang(x, w.take(i)),
        star(x, w.skip(i)),
    ensures
        star_from(x, w, j),
    decreases i - j,
{
    if j < i {
        lemma_star_from_intro(x, w, j + 1, i);
    }
}

/// Words of `x*` followed by a word of `x` are words of `x*`.
proof fn lemma_star_append(x: RegexModel, u: Seq<u32>, v: Seq<u32>)
    requires
        star(x, u),
        lang(x, v),
    ensures
        star(x, u + v),
    decreases u.len(),
{
    if u.len() == 0 {
        assert(u + v =~= v);
        if v.len() > 0 {
            assert(v.take(v.len() as int) =~= v);
            assert(v.skip(v.len() as int) =~= Seq::<u32>::empty());
            lemma_star_intro(x, v, v.len() as int);
        }
    } else {
        lemma_star_split(x, u);
        let i = choose|i: int| 1 <= i <= u.len() && #[trigger] lang(x, u.take(i)) && star(x, u.skip(i));
        lemma_star_append(x, u.skip(i), v);
        assert((u + v).take(i) =~= u.take(i));
        assert((u + v).skip(i) =~= u.skip(i) + v);
        lemma_star_intro(x, u + v, i);
    }
}

/// `m` words of `x` followed by one more are `m + 1` words.
proof fn lemma_reps_append(x: RegexModel, m: nat, u: Seq<u32>, v: Seq<u32>)
    requires
        reps(x, m, u),
        lang(x, v),
    ensures
        reps(x, m + 1, u + v),
    decreases m,
{
    if m == 0 {
        assert(u.len() == 0);
        assert(u + v =~= v);
        assert(v.take(v.len() as int) =~= v);
        assert(v.skip(v.len() as int) =~= Seq::<u32>::empty());
        assert(reps(x, 0, v.skip(v.len() as int)));
        lemma_reps_fold(x, 1, v, v.len() as int);
    } else {
        lemma_reps_unfold(x, m, u);
        let i = choose|i: int| 0 <= i <= u.len() && #[trigger] lang(x, u.take(i)) && reps(x, (m - 1) as nat, u.skip(i));
        lemma_reps_append(x, (m - 1) as nat, u.skip(i), v);
        assert((u + v).take(i) =~= u.take(i));
        assert((u + v).skip(i) =~= u.skip(i) + v);
        assert((m - 1) as nat + 1 == m);
        lemma_reps_fold(x, m + 1, u + v, i);
    }
}

/// A word of the first part followed by one of the second is a word of the
/// split.
proof fn lemma_split_intro(r: RegexModel, w: Seq<u32>, j: int, i: int)
    requires
        0 <= j <= i <= w.len(),
        split_at(r, w, i),
    ensures
        split_from(r, w, j),
    decreases i - j,
{
    if j < i {
        lemma_split_intro(r, w, j + 1, i);
    }
}

/// The words that lead from the start of the fragment of `r` to each state.
pub open spec fn reach_fn(r: RegexModel, g: Seq<Seq<Edge>>) -> spec_fn(int, Seq<u32>) -> bool {
    |q: int, w: Seq<u32>| reach(r, g, q, w)
}

/// The words of `x`.
pub open spec fn lang_fn(x: RegexModel) -> spec_fn(Seq<u32>) -> bool {
    |u: Seq<u32>| lang(x, u)
}

/// The words of `x*`.
pub open spec fn star_fn(x: RegexModel) -> spec_fn(Seq<u32>) -> bool {
    |u: Seq<u32>| star(x, u)
}

/// `x+` holds words of `x*` followed by a word of `x`.
proof fn lemma_plus_of(r: RegexModel, x: RegexModel, u: Seq<u32>, v: Seq<u32>)
    requires
        r == RegexModel::Plus(Box::new(x)),
        star(x, u),
        lang(x, v),
    ensures
        lang(r, u + v),
{
    let w = u + v;
    if u.len() == 0 {
        assert(w =~= v);
        assert(w.take(w.len() as int) =~= v);
        assert(w.skip(w.len() as int) =~= Seq::<u32>::empty());
        assert(split_at(r, w, w.len() as int));
        lemma_split_intro(r, w, 0, w.len() as int);
    } else {
        lemma_star_split(x, u);
        let i = choose|i: int| 1 <= i <= u.len() && #[trigger] lang(x, u.take(i)) && star(x, u.skip(i));
        lemma_star_append(x, u.skip(i), v);
        assert(w.take(i) =~= u.take(i));
        assert(w.skip(i) =~= u.skip(i) + v);
        assert(split_at(r, w, i));
        lemma_split_intro(r, w, 0, i);
    }
}

/// An epsilon edge keeps the words of `rf` when every word of its source is
/// one of its target.
proof fn lemma_eps_step(rf: spec_fn(int, Seq<u32>) -> bool, q: int, t: int)
    requires
        0 <= t <= usize::MAX,
        forall|w: Seq<u32>| #[trigger] rf(q, w) ==> rf(t, w),
    ensures
        step_sound(rf, q, eps(t)),
{
}

/// The fragment of `r` keeps, along every edge of its states, the words
/// that lead from its start; its start is reached by the empty word; and
/// its accept state only by words of `r`.
pub(crate) proof fn lemma_frag_sound(r: RegexModel, g: Seq<Seq<Edge>>)
    requires
        sound_ok(r),
        regex_ok(r),
        frag(r, g).0.len() <= usize::MAX,
    ensures
        rows_sound(frag(r, g).0, g.len() as int, frag(r, g).0.len() as int, reach_fn(r, g)),
        reach(r, g, frag(r, g).1, Seq::<u32>::empty()),
        forall|w: Seq<u32>| #[trigger] reach(r, g, frag(r, g).2, w) ==> lang(r, w),
    decreases r, 4nat,
{
    match r {
        RegexModel::Char(c) => {
            lemma_sound_char(r, g);
        },
        RegexModel::CharClass(negated, items) => {
            lemma_sound_charclass(r, g);
        },
        RegexModel::Concat(x, y) => {
            lemma_sound_concat(r, g);
        },
        RegexModel::Alt(x, y) => {
            lemma_sound_alt(r, g);
        },
        RegexModel::Star(x) => {
            lemma_sound_star(r, g);
        },
        RegexModel::Plus(x) => {
            lemma_sound_plus(r, g);
        },
        RegexModel::Opt(x) => {
            lemma_sound_opt(r, g);
        },
        RegexModel::Repeat(x, kind) => {
            lemma_sound_repeat(r, g);
        },
    }
}

proof fn lemma_sound_char(r: RegexModel, g: Seq<Seq<Edge>>)
    requires
        r is Char,
        sound_ok(r),
        regex_ok(r),
        frag(r, g).0.len() <= usize::MAX,
    ensures
        rows_sound(frag(r, g).0, g.len() as int, frag(r, g).0.len() as int, reach_fn(r, g)),
        reach(r, g, frag(r, g).1, Seq::<u32>::empty()),
        forall|w: Seq<u32>| #[trigger] reach(r, g, frag(r, g).2, w) ==> lang(r, w),
    decreases r, 3nat,
{
    let n = g.len() as int;
    lemma_frag_shape(r, g);
    assert(local(g, n));
    lemma_frag_local(r, g, n);
    let (k0, s0, a0) = frag(r, g);
    let rr = reach_fn(r, g);
    match r {
        RegexModel::Char(c) => {
            let h = g.push(seq![]).push(seq![]);
            let e = crate::scanner::nfa::chr(c, n + 1);
            assert(k0 == h.update(n, h[n].push(e)));
            assert(k0[n] =~= seq![e]);
            assert(k0[n + 1] == h[n + 1]);
            assert forall|q: int| n <= q < k0.len() implies #[trigger] row_sound(k0[q], q, rr) by {
                if q == n {
                    assert forall|j: int| 0 <= j < k0[q].len() implies step_sound(rr, q, #[trigger] k0[q][j]) by {
                        assert(k0[q][j] == e);
                        assert forall|w: Seq<u32>| #[trigger] rr(q, w) implies forall|cp: u32| #[trigger] reads(e, cp)
                            ==> rr(e.target as int, w.push(cp)) by {
                            assert forall|cp: u32| #[trigger] reads(e, cp) implies rr(e.target as int, w.push(cp)) by {
                                assert(w.push(cp) =~= seq![c]);
                            }
                        }
                    }
                }
            }
        },
        _ => {},
    }
}

proof fn lemma_sound_charclass(r: RegexModel, g: Seq<Seq<Edge>>)
    requires
        r is CharClass,
        sound_ok(r),
        regex_ok(r),
        frag(r, g).0.len() <= usize::MAX,
    ensures
        rows_sound(frag(r, g).0, g.len() as int, frag(r, g).0.len() as int, reach_fn(r, g)),
        reach(r, g, frag(r, g).1, Seq::<u32>::empty()),
        forall|w: Seq<u32>| #[trigger] reach(r, g, frag(r, g).2, w) ==> lang(r, w),
    decreases r, 3nat,
{
    let n = g.len() as int;
    lemma_frag_shape(r, g);
    assert(local(g, n));
    lemma_frag_local(r, g, n);
    let (k0, s0, a0) = frag(r, g);
    let rr = reach_fn(r, g);
    match r {
        RegexModel::CharClass(negated, items) => {
            let es = crate::scanner::nfa::class_edges(negated, items, n + 1);
            assert(k0 == g.push(es).push(seq![]));
            assert(k0[n] == es);
            assert forall|q: int| n <= q < k0.len() implies #[trigger] row_sound(k0[q], q, rr) by {
                if q == n {
                    assert forall|j: int| 0 <= j < k0[q].len() implies step_sound(rr, q, #[trigger] k0[q][j]) by {
                        let e = es[j];
                        assert(e == crate::scanner::nfa::rng(items[j].start, items[j].end, n + 1));
                        assert forall|w: Seq<u32>| #[trigger] rr(q, w) implies forall|cp: u32| #[trigger] reads(e, cp)
                            ==> rr(e.target as int, w.push(cp)) by {
                            assert forall|cp: u32| #[trigger] reads(e, cp) implies rr(e.target as int, w.push(cp)) by {
                                assert(w.push(cp) =~= seq![cp]);
                                assert(items[j].start <= cp && cp <= items[j].end);
                                assert(in_items(items, cp));
                            }
                        }
                    }
                }
            }
        },
        _ => {},
    }
}

proof fn lemma_sound_concat(r: RegexModel, g: Seq<Seq<Edge>>)
    requires
        r is Concat,
        sound_ok(r),
        regex_ok(r),
        frag(r, g).0.len() <= usize::MAX,
    ensures
        rows_sound(frag(r, g).0, g.len() as int, frag(r, g).0.len() as int, reach_fn(r, g)),
        reach(r, g, frag(r, g).1, Seq::<u32>::empty()),
        forall|w: Seq<u32>| #[trigger] reach(r, g, frag(r, g).2, w) ==> lang(r, w),
    decreases r, 3nat,
{
    let n = g.len() as int;
    lemma_frag_shape(r, g);
    assert(local(g, n));
    lemma_frag_local(r, g, n);
    let (k0, s0, a0) = frag(r, g);
    let rr = reach_fn(r, g);
    match r {
        RegexModel::Concat(x, y) => {
            let (g1, s1, a1) = frag(*x, g);
            let (g2, s2, a2) = frag(*y, g1);
            lemma_frag_shape(*x, g);
            lemma_frag_shape(*y, g1);
            lemma_frag_local(*x, g, n);
            lemma_frag_local(*y, g1, n);
            assert(local(g1, g1.len() as int));
            lemma_frag_local(*y, g1, g1.len() as int);
            lemma_frag_sound(*x, g);
            lemma_frag_sound(*y, g1);
            let rx = reach_fn(*x, g);
            let ry = reach_fn(*y, g1);
            assert(k0 == g2.update(a1, g2[a1].push(eps(s2))));
            lemma_same(g1, n, g1.len() as int, rx, rr);
            let pre = lang_fn(*x);
            assert forall|q: int, w: Seq<u32>| g1.len() <= q < g2.len() implies (#[trigger] rr(q, w) <==> exists|i: int|
                0 <= i <= w.len() && #[trigger] pre(w.take(i)) && ry(q, w.skip(i))) by {
                if rr(q, w) {
                    let i = choose|i: int| 0 <= i <= w.len() && #[trigger] lang(*x, w.take(i)) && reach(*y, g1, q, w.skip(i));
                    assert(pre(w.take(i)) && ry(q, w.skip(i)));
                }
                if exists|i: int| 0 <= i <= w.len() && #[trigger] pre(w.take(i)) && ry(q, w.skip(i)) {
                    let i = choose|i: int| 0 <= i <= w.len() && #[trigger] pre(w.take(i)) && ry(q, w.skip(i));
                    assert(lang(*x, w.take(i)) && reach(*y, g1, q, w.skip(i)));
                }
            }
            lemma_lift(g2, g1.len() as int, g2.len() as int, ry, rr, pre);
            assert forall|q: int| n <= q < k0.len() implies #[trigger] row_sound(k0[q], q, rr) by {
                if q == a1 {
                    assert(g2[a1] == g1[a1]);
                    assert(k0[q] =~= seq![eps(s2)]);
                    assert forall|w: Seq<u32>| #[trigger] rr(a1, w) implies rr(s2, w) by {
                        assert(reach(*x, g, a1, w));
                        assert(lang(*x, w));
                        assert(w.take(w.len() as int) =~= w);
                        assert(w.skip(w.len() as int) =~= Seq::<u32>::empty());
                    }
                    lemma_eps_step(rr, a1, s2);
                    assert forall|j: int| 0 <= j < k0[q].len() implies step_sound(rr, q, #[trigger] k0[q][j]) by {}
                } else if q < g1.len() {
                    assert(k0[q] == g2[q]);
                    assert(g2[q] == g1[q]);
                    assert(row_sound(g1[q], q, rr));
                } else {
                    assert(k0[q] == g2[q]);
                    assert(row_sound(g2[q], q, rr));
                }
            }
            assert forall|w: Seq<u32>| #[trigger] reach(r, g, a0, w) implies lang(r, w) by {
                let i = choose|i: int| 0 <= i <= w.len() && #[trigger] lang(*x, w.take(i)) && reach(*y, g1, a2, w.skip(i));
                assert(split_at(r, w, i));
                lemma_split_intro(r, w, 0, i);
            }
        },
        _ => {},
    }
}

proof fn lemma_sound_alt(r: RegexModel, g: Seq<Seq<Edge>>)
    requires
        r is Alt,
        sound_ok(r),
        regex_ok(r),
        frag(r, g).0.len() <= usize::MAX,
    ensures
        rows_sound(frag(r, g).0, g.len() as int, frag(r, g).0.len() as int, reach_fn(r, g)),
        reach(r, g, frag(r, g).1, Seq::<u32>::empty()),
        forall|w: Seq<u32>| #[trigger] reach(r, g, frag(r, g).2, w) ==> lang(r, w),
    decreases r, 3nat,
{
    let n = g.len() as int;
    lemma_frag_shape(r, g);
    assert(local(g, n));
    lemma_frag_local(r, g, n);
    let (k0, s0, a0) = frag(r, g);
    let rr = reach_fn(r, g);
    match r {
        RegexModel::Alt(x, y) => {
            let (g1, s1, a1) = frag(*x, g);
            let (g2, s2, a2) = frag(*y, g1);
            lemma_frag_shape(*x, g);
            lemma_frag_shape(*y, g1);
            lemma_frag_local(*x, g, n);
            lemma_frag_local(*y, g1, n);
            assert(local(g1, g1.len() as int));
            lemma_frag_local(*y, g1, g1.len() as int);
            lemma_frag_sound(*x, g);
            lemma_frag_sound(*y, g1);
            let rx = reach_fn(*x, g);
            let ry = reach_fn(*y, g1);
            let st = g2.len() as int;
            let p = g2.push(seq![]).push(seq![]);
            let p1 = with_edge(p, st, eps(s1));
            let g3 = with_edge(p1, st, eps(s2));
            let g4 = with_edge(g3, a1, eps(st + 1));
            assert(k0 == with_edge(g4, a2, eps(st + 1)));
            lemma_same(g1, n, g1.len() as int, rx, rr);
            lemma_same(g2, g1.len() as int, g2.len() as int, ry, rr);
            assert forall|q: int| 0 <= q < g2.len() && q != a1 && q != a2 implies #[trigger] k0[q] == g2[q] by {
                assert(k0[q] == g4[q]);
                assert(g4[q] == g3[q]);
                assert(g3[q] == p1[q]);
                assert(p1[q] == p[q]);
                assert(p[q] == g2.push(seq![])[q]);
            }
            assert(k0[st] =~= seq![eps(s1), eps(s2)]);
            assert(k0[a1] =~= seq![eps(st + 1)]) by {
                assert(g2[a1] == g1[a1]);
            }
            assert(k0[a2] =~= seq![eps(st + 1)]);
            assert forall|q: int| n <= q < k0.len() implies #[trigger] row_sound(k0[q], q, rr) by {
                if q == st {
                    assert forall|w: Seq<u32>| #[trigger] rr(st, w) implies rr(s1, w) && rr(s2, w) by {
                        assert(w =~= Seq::<u32>::empty());
                        assert(reach(*x, g, s1, Seq::<u32>::empty()));
                        assert(reach(*y, g1, s2, Seq::<u32>::empty()));
                    }
                    lemma_eps_step(rr, st, s1);
                    lemma_eps_step(rr, st, s2);
                    assert forall|j: int| 0 <= j < k0[q].len() implies step_sound(rr, q, #[trigger] k0[q][j]) by {}
                } else if q == a1 {
                    assert forall|w: Seq<u32>| #[trigger] rr(a1, w) implies rr(st + 1, w) by {
                        assert(reach(*x, g, a1, w));
                    }
                    lemma_eps_step(rr, a1, st + 1);
                    assert forall|j: int| 0 <= j < k0[q].len() implies step_sound(rr, q, #[trigger] k0[q][j]) by {}
                } else if q == a2 {
                    assert forall|w: Seq<u32>| #[trigger] rr(a2, w) implies rr(st + 1, w) by {
                        assert(reach(*y, g1, a2, w));
                    }
                    lemma_eps_step(rr, a2, st + 1);
                    assert forall|j: int| 0 <= j < k0[q].len() implies step_sound(rr, q, #[trigger] k0[q][j]) by {}
                } else if q < g1.len() {
                    assert(g2[q] == g1[q]);
                    assert(row_sound(g1[q], q, rr));
                } else if q < g2.len() {
                    assert(row_sound(g2[q], q, rr));
                } else {
                    assert(k0[q] == p[q]);
                }
            }
        },
        _ => {},
    }
}

proof fn lemma_sound_star(r: RegexModel, g: Seq<Seq<Edge>>)
    requires
        r is Star,
        sound_ok(r),
        regex_ok(r),
        frag(r, g).0.len() <= usize::MAX,
    ensures
        rows_sound(frag(r, g).0, g.len() as int, frag(r, g).0.len() as int, reach_fn(r, g)),
        reach(r, g, frag(r, g).1, Seq::<u32>::empty()),
        forall|w: Seq<u32>| #[trigger] reach(r, g, frag(r, g).2, w) ==> lang(r, w),
    decreases r, 3nat,
{
    let n = g.len() as int;
    lemma_frag_shape(r, g);
    assert(local(g, n));
    lemma_frag_local(r, g, n);
    let (k0, s0, a0) = frag(r, g);
    let rr = reach_fn(r, g);
    match r {
        RegexModel::Star(x) => {
            let (g1, s, a) = frag(*x, g);
            lemma_frag_shape(*x, g);
            lemma_frag_local(*x, g, n);
            lemma_frag_sound(*x, g);
            let rx = reach_fn(*x, g);
            let st = g1.len() as int;
            let p = g1.push(seq![]).push(seq![]);
            let p1 = with_edge(p, st, eps(s));
            let g2 = with_edge(p1, st, eps(st + 1));
            let g3 = with_edge(g2, a, eps(s));
            assert(k0 == with_edge(g3, a, eps(st + 1)));
            let pre = star_fn(*x);
            assert forall|q: int, w: Seq<u32>| n <= q < g1.len() implies (#[trigger] rr(q, w) <==> exists|i: int|
                0 <= i <= w.len() && #[trigger] pre(w.take(i)) && rx(q, w.skip(i))) by {
                if rr(q, w) {
                    let i = choose|i: int| 0 <= i <= w.len() && #[trigger] star(*x, w.take(i)) && reach(*x, g, q, w.skip(i));
                    assert(pre(w.take(i)) && rx(q, w.skip(i)));
                }
                if exists|i: int| 0 <= i <= w.len() && #[trigger] pre(w.take(i)) && rx(q, w.skip(i)) {
                    let i = choose|i: int| 0 <= i <= w.len() && #[trigger] pre(w.take(i)) && rx(q, w.skip(i));
                    assert(star(*x, w.take(i)) && reach(*x, g, q, w.skip(i)));
                }
            }
            lemma_lift(g1, n, g1.len() as int, rx, rr, pre);
            assert forall|q: int| 0 <= q < g1.len() && q != a implies #[trigger] k0[q] == g1[q] by {
                assert(k0[q] == g3[q]);
                assert(g3[q] == g2[q]);
                assert(g2[q] == p1[q]);
                assert(p1[q] == p[q]);
                assert(p[q] == g1.push(seq![])[q]);
            }
            assert(k0[st] =~= seq![eps(s), eps(st + 1)]);
            assert(k0[a] =~= seq![eps(s), eps(st + 1)]);
            assert(reach(*x, g, s, Seq::<u32>::empty()));
            assert(Seq::<u32>::empty().take(0) =~= Seq::<u32>::empty());
            assert(Seq::<u32>::empty().skip(0) =~= Seq::<u32>::empty());
            assert(rr(s, Seq::<u32>::empty())) by {
                assert(star(*x, Seq::<u32>::empty().take(0)));
            }
            assert forall|q: int| n <= q < k0.len() implies #[trigger] row_sound(k0[q], q, rr) by {
                if q == st {
                    assert forall|w: Seq<u32>| #[trigger] rr(st, w) implies rr(s, w) && rr(st + 1, w) by {
                        assert(w =~= Seq::<u32>::empty());
                    }
                    lemma_eps_step(rr, st, s);
                    lemma_eps_step(rr, st, st + 1);
                    assert forall|j: int| 0 <= j < k0[q].len() implies step_sound(rr, q, #[trigger] k0[q][j]) by {}
                } else if q == a {
                    assert forall|w: Seq<u32>| #[trigger] rr(a, w) implies rr(s, w) && rr(st + 1, w) by {
                        let i = choose|i: int| 0 <= i <= w.len() && #[trigger] star(*x, w.take(i)) && reach(*x, g, a, w.skip(i));
                        assert(lang(*x, w.skip(i)));
                        lemma_star_append(*x, w.take(i), w.skip(i));
                        assert(w.take(i) + w.skip(i) =~= w);
                        assert(w.take(w.len() as int) =~= w);
                        assert(w.skip(w.len() as int) =~= Seq::<u32>::empty());
                        assert(star(*x, w.take(w.len() as int)));
                    }
                    lemma_eps_step(rr, a, s);
                    lemma_eps_step(rr, a, st + 1);
                    assert forall|j: int| 0 <= j < k0[q].len() implies step_sound(rr, q, #[trigger] k0[q][j]) by {}
                } else if q < g1.len() {
                    assert(row_sound(g1[q], q, rr));
                } else {
                    assert(k0[q] == p[q]);
                }
            }
        },
        _ => {},
    }
}

proof fn lemma_sound_plus(r: RegexModel, g: Seq<Seq<Edge>>)
    requires
        r is Plus,
        sound_ok(r),
        regex_ok(r),
        frag(r, g).0.len() <= usize::MAX,
    ensures
        rows_sound(frag(r, g).0, g.len() as int, frag(r, g).0.len() as int, reach_fn(r, g)),
        reach(r, g, frag(r, g).1, Seq::<u32>::empty()),
        forall|w: Seq<u32>| #[trigger] reach(r, g, frag(r, g).2, w) ==> lang(r, w),
    decreases r, 3nat,
{
    let n = g.len() as int;
    lemma_frag_shape(r, g);
    assert(local(g, n));
    lemma_frag_local(r, g, n);
    let (k0, s0, a0) = frag(r, g);
    let rr = reach_fn(r, g);
    match r {
        RegexModel::Plus(x) => {
            let (g1, s, a) = frag(*x, g);
            lemma_frag_shape(*x, g);
            lemma_frag_local(*x, g, n);
            lemma_frag_sound(*x, g);
            let rx = reach_fn(*x, g);
            let st = g1.len() as int;
            let p = g1.push(seq![]).push(seq![]);
            let g2 = with_edge(p, st, eps(s));
            let g3 = with_edge(g2, a, eps(s));
            assert(k0 == with_edge(g3, a, eps(st + 1)));
            let pre = star_fn(*x);
            assert forall|q: int, w: Seq<u32>| n <= q < g1.len() implies (#[trigger] rr(q, w) <==> exists|i: int|
                0 <= i <= w.len() && #[trigger] pre(w.take(i)) && rx(q, w.skip(i))) by {
                if rr(q, w) {
                    let i = choose|i: int| 0 <= i <= w.len() && #[trigger] star(*x, w.take(i)) && reach(*x, g, q, w.skip(i));
                    assert(pre(w.take(i)) && rx(q, w.skip(i)));
                }
                if exists|i: int| 0 <= i <= w.len() && #[trigger] pre(w.take(i)) && rx(q, w.skip(i)) {
                    let i = choose|i: int| 0 <= i <= w.len() && #[trigger] pre(w.take(i)) && rx(q, w.skip(i));
                    assert(star(*x, w.take(i)) && reach(*x, g, q, w.skip(i)));
                }
            }
            lemma_lift(g1, n, g1.len() as int, rx, rr, pre);
            assert forall|q: int| 0 <= q < g1.len() && q != a implies #[trigger] k0[q] == g1[q] by {
                assert(k0[q] == g3[q]);
                assert(g3[q] == g2[q]);
                assert(g2[q] == p[q]);
                assert(p[q] == g1.push(seq![])[q]);
            }
            assert(k0[st] =~= seq![eps(s)]);
            assert(k0[a] =~= seq![eps(s), eps(st + 1)]);
            assert(reach(*x, g, s, Seq::<u32>::empty()));
            assert(rr(s, Seq::<u32>::empty())) by {
                assert(Seq::<u32>::empty().take(0) =~= Seq::<u32>::empty());
                assert(Seq::<u32>::empty().skip(0) =~= Seq::<u32>::empty());
                assert(star(*x, Seq::<u32>::empty().take(0)));
            }
            assert forall|q: int| n <= q < k0.len() implies #[trigger] row_sound(k0[q], q, rr) by {
                if q == st {
                    assert forall|w: Seq<u32>| #[trigger] rr(st, w) implies rr(s, w) by {
                        assert(w =~= Seq::<u32>::empty());
                    }
                    lemma_eps_step(rr, st, s);
                    assert forall|j: int| 0 <= j < k0[q].len() implies step_sound(rr, q, #[trigger] k0[q][j]) by {}
                } else if q == a {
                    assert forall|w: Seq<u32>| #[trigger] rr(a, w) implies rr(s, w) && rr(st + 1, w) by {
                        let i = choose|i: int| 0 <= i <= w.len() && #[trigger] star(*x, w.take(i)) && reach(*x, g, a, w.skip(i));
                        assert(lang(*x, w.skip(i)));
                        lemma_star_append(*x, w.take(i), w.skip(i));
                        lemma_plus_of(r, *x, w.take(i), w.skip(i));
                        assert(w.take(i) + w.skip(i) =~= w);
                        assert(w.take(w.len() as int) =~= w);
                        assert(w.skip(w.len() as int) =~= Seq::<u32>::empty());
                        assert(star(*x, w.take(w.len() as int)));
                    }
                    lemma_eps_step(rr, a, s);
                    lemma_eps_step(rr, a, st + 1);
                    assert forall|j: int| 0 <= j < k0[q].len() implies step_sound(rr, q, #[trigger] k0[q][j]) by {}
                } else if q < g1.len() {
                    assert(row_sound(g1[q], q, rr));
                } else {
                    assert(k0[q] == p[q]);
                }
            }
        },
        _ => {},
    }
}

proof fn lemma_sound_opt(r: RegexModel, g: Seq<Seq<Edge>>)
    requires
        r is Opt,
        sound_ok(r),
        regex_ok(r),
        frag(r, g).0.len() <= usize::MAX,
    ensures
        rows_sound(frag(r, g).0, g.len() as int, frag(r, g).0.len() as int, reach_fn(r, g)),
        reach(r, g, frag(r, g).1, Seq::<u32>::empty()),
        forall|w: Seq<u32>| #[trigger] reach(r, g, frag(r, g).2, w) ==> lang(r, w),
    decreases r, 3nat,
{
    let n = g.len() as int;
    lemma_frag_shape(r, g);
    assert(local(g, n));
    lemma_frag_local(r, g, n);
    let (k0, s0, a0) = frag(r, g);
    let rr = reach_fn(r, g);
    match r {
        RegexModel::Opt(x) => {
            let (g1, s, a) = frag(*x, g);
            lemma_frag_shape(*x, g);
            lemma_frag_local(*x, g, n);
            lemma_frag_sound(*x, g);
            let rx = reach_fn(*x, g);
            let st = g1.len() as int;
            let p = g1.push(seq![]).push(seq![]);
            let p1 = with_edge(p, st, eps(s));
            let g2 = with_edge(p1, st, eps(st + 1));
            assert(k0 == with_edge(g2, a, eps(st + 1)));
            lemma_same(g1, n, g1.len() as int, rx, rr);
            assert forall|q: int| 0 <= q < g1.len() && q != a implies #[trigger] k0[q] == g1[q] by {
                assert(k0[q] == g2[q]);
                assert(g2[q] == p1[q]);
                assert(p1[q] == p[q]);
                assert(p[q] == g1.push(seq![])[q]);
            }
            assert(k0[st] =~= seq![eps(s), eps(st + 1)]);
            assert(k0[a] =~= seq![eps(st + 1)]);
            assert forall|q: int| n <= q < k0.len() implies #[trigger] row_sound(k0[q], q, rr) by {
                if q == st {
                    assert forall|w: Seq<u32>| #[trigger] rr(st, w) implies rr(s, w) && rr(st + 1, w) by {
                        assert(w =~= Seq::<u32>::empty());
                    }
                    lemma_eps_step(rr, st, s);
                    lemma_eps_step(rr, st, st + 1);
                    assert forall|j: int| 0 <= j < k0[q].len() implies step_sound(rr, q, #[trigger] k0[q][j]) by {}
                } else if q == a {
                    assert forall|w: Seq<u32>| #[trigger] rr(a, w) implies rr(st + 1, w) by {
                        assert(reach(*x, g, a, w));
                    }
                    lemma_eps_step(rr, a, st + 1);
                    assert forall|j: int| 0 <= j < k0[q].len() implies step_sound(rr, q, #[trigger] k0[q][j]) by {}
                } else if q < g1.len() {
                    assert(row_sound(g1[q], q, rr));
                } else {
                    assert(k0[q] == p[q]);
                }
            }
        },
        _ => {},
    }
}

proof fn lemma_sound_repeat(r: RegexModel, g: Seq<Seq<Edge>>)
    requires
        r is Repeat,
        sound_ok(r),
        regex_ok(r),
        frag(r, g).0.len() <= usize::MAX,
    ensures
        rows_sound(frag(r, g).0, g.len() as int, frag(r, g).0.len() as int, reach_fn(r, g)),
        reach(r, g, frag(r, g).1, Seq::<u32>::empty()),
        forall|w: Seq<u32>| #[trigger] reach(r, g, frag(r, g).2, w) ==> lang(r, w),
    decreases r, 3nat,
{
    let n = g.len() as int;
    lemma_frag_shape(r, g);
    assert(local(g, n));
    lemma_frag_local(r, g, n);
    let (k0, s0, a0) = frag(r, g);
    let rr = reach_fn(r, g);
    match r {
        RegexModel::Repeat(x, kind) => {
            match kind {
                RepeatType::Exactly(count) => {
                    if count == 0 {
                        lemma_sound_empty(r, g);
                    } else {
                        lemma_sound_exactly(r, *x, count, g);
                    }
                },
                RepeatType::AtLeast(_) => {},
                RepeatType::Between(lo, hi) => {
                    if lo == 0 && hi == 0 {
                        lemma_sound_empty(r, g);
                    } else {
                        lemma_sound_between(r, *x, lo, hi, g);
                    }
                },
            }
        },
        _ => {},
    }
}

/// The words of `m` copies of `x`.
pub open spec fn reps_fn(x: RegexModel, m: nat) -> spec_fn(Seq<u32>) -> bool {
    |u: Seq<u32>| reps(x, m, u)
}

/// The words of `lo` to `m` copies of `x`.
pub open spec fn count_fn(x: RegexModel, lo: nat, m: nat) -> spec_fn(Seq<u32>) -> bool {
    |u: Seq<u32>| count_in(x, lo, m, u)
}

pub open spec fn chain_fn(x: RegexModel, h: Seq<Seq<Edge>>, acc: int, k: nat, m: nat) -> spec_fn(int, Seq<u32>) -> bool {
    |q: int, w: Seq<u32>| reach_chain(x, h, acc, k, m, q, w)
}

pub open spec fn opt_fn(x: RegexModel, h: Seq<Seq<Edge>>, cur: int, k: nat, lo: nat, m: nat) -> spec_fn(
    int,
    Seq<u32>,
) -> bool {
    |q: int, w: Seq<u32>| reach_opt(x, h, cur, k, lo, m, q, w)
}

/// `count_from` holds of a word of `j` copies for `j` from `k0` to the
/// upper bound.
proof fn lemma_count_from_intro(x: RegexModel, lo: u32, hi: u32, w: Seq<u32>, k0: nat, j: nat)
    requires
        k0 <= j <= hi,
        reps(x, j, w),
    ensures
        count_from(RegexModel::Repeat(Box::new(x), RepeatType::Between(lo, hi)), w, k0),
    decreases j - k0,
{
    if k0 < j {
        lemma_count_from_intro(x, lo, hi, w, k0 + 1, j);
    }
}

/// A word of `lo` to `m` copies of `x` followed by a word of `x` is one of
/// `lo` to `m + 1` copies.
proof fn lemma_count_append(x: RegexModel, lo: nat, m: nat, u: Seq<u32>, v: Seq<u32>)
    requires
        count_in(x, lo, m, u),
        lang(x, v),
    ensures
        count_in(x, lo, m + 1, u + v),
{
    let j = choose|j: nat| lo <= j <= m && #[trigger] reps(x, j, u);
    lemma_reps_append(x, j, u, v);
    assert(reps(x, j + 1, u + v));
}

/// The fragment that reads only the empty word.
proof fn lemma_sound_empty(r: RegexModel, g: Seq<Seq<Edge>>)
    requires
        r matches RegexModel::Repeat(_, kind) && (kind == RepeatType::Exactly(0) || kind == RepeatType::Between(0, 0)),
        frag(r, g).0.len() <= usize::MAX,
    ensures
        rows_sound(frag(r, g).0, g.len() as int, frag(r, g).0.len() as int, reach_fn(r, g)),
        reach(r, g, frag(r, g).1, Seq::<u32>::empty()),
        forall|w: Seq<u32>| #[trigger] reach(r, g, frag(r, g).2, w) ==> lang(r, w),
{
    let n = g.len() as int;
    lemma_empty_frag_shape(g);
    let (k0, s0, a0) = frag(r, g);
    assert(frag(r, g) == empty_frag(g));
    let rr = reach_fn(r, g);
    let h = g.push(seq![]).push(seq![]);
    assert(k0 == h.update(n, h[n].push(eps(n + 1))));
    assert(k0[n] =~= seq![eps(n + 1)]);
    assert(k0[n + 1] == h[n + 1]);
    assert forall|q: int| n <= q < k0.len() implies #[trigger] row_sound(k0[q], q, rr) by {
        if q == n {
            lemma_eps_step(rr, n, n + 1);
            assert forall|j: int| 0 <= j < k0[q].len() implies step_sound(rr, q, #[trigger] k0[q][j]) by {}
        }
    }
    let x = *r->Repeat_0;
    assert forall|w: Seq<u32>| #[trigger] reach(r, g, a0, w) implies lang(r, w) by {
        assert(w.len() == 0);
        assert(reps(x, 0, w));
        if r->Repeat_1 is Between {
            lemma_count_from_intro(x, 0, 0, w, 0, 0);
        }
    }
}

/// `k` chained copies of `x` after `acc` keep the words of `reach_chain`.
proof fn lemma_chain_sound(x: RegexModel, h: Seq<Seq<Edge>>, acc: int, k: nat, m: nat)
    requires
        sound_ok(x),
        regex_ok(x),
        k >= 1,
        0 <= acc < h.len(),
        h[acc].len() == 0,
        chain(x, h, acc, k).0.len() <= usize::MAX,
    ensures
        rows_sound(chain(x, h, acc, k).0, h.len() as int, chain(x, h, acc, k).0.len() as int, chain_fn(x, h, acc, k, m)),
        forall|w: Seq<u32>| #[trigger] reps(x, m, w) ==> reach_chain(x, h, acc, k, m, frag(x, h).1, w),
        chain(x, h, acc, k).0[acc] == h[acc].push(eps(frag(x, h).1)),
        chain(x, h, acc, k).1 >= h.len(),
        frag(x, h).0.len() <= chain(x, h, acc, k).0.len(),
        forall|w: Seq<u32>| #[trigger] reach_chain(x, h, acc, k, m, chain(x, h, acc, k).1, w) ==> reps(x, m + k, w),
        forall|q: int, j: int|
            h.len() <= q < chain(x, h, acc, k).0.len() && 0 <= j < chain(x, h, acc, k).0[q].len() ==> h.len() <= (
            #[trigger] chain(x, h, acc, k).0[q][j]).target < chain(x, h, acc, k).0.len(),
    decreases x, k + 5,
{
    let (g1, s, a) = frag(x, h);
    lemma_frag_shape(x, h);
    let h2 = with_edge(g1, acc, eps(s));
    lemma_chain_shape(x, h2, a, (k - 1) as nat);
    let (c, ca) = chain(x, h, acc, k);
    assert(chain(x, h, acc, k) == chain(x, h2, a, (k - 1) as nat));
    let n = h.len() as int;
    assert(local(h, n));
    lemma_frag_local(x, h, n);
    lemma_frag_sound(x, h);
    let rx = reach_fn(x, h);
    let rc = chain_fn(x, h, acc, k, m);
    let pre = reps_fn(x, m);
    assert forall|q: int, w: Seq<u32>| n <= q < g1.len() implies (#[trigger] rc(q, w) <==> exists|i: int|
        0 <= i <= w.len() && #[trigger] pre(w.take(i)) && rx(q, w.skip(i))) by {
        if rc(q, w) {
            let i = choose|i: int| 0 <= i <= w.len() && #[trigger] reps(x, m, w.take(i)) && reach(x, h, q, w.skip(i));
            assert(pre(w.take(i)) && rx(q, w.skip(i)));
        }
        if exists|i: int| 0 <= i <= w.len() && #[trigger] pre(w.take(i)) && rx(q, w.skip(i)) {
            let i = choose|i: int| 0 <= i <= w.len() && #[trigger] pre(w.take(i)) && rx(q, w.skip(i));
            assert(reps(x, m, w.take(i)) && reach(x, h, q, w.skip(i)));
        }
    }
    lemma_lift(g1, n, g1.len() as int, rx, rc, pre);
    assert(h2[a] == g1[a]);
    assert(g1[acc] == h[acc]);
    lemma_chain_local(x, h2, a, (k - 1) as nat, n);
    assert forall|w: Seq<u32>| #[trigger] reps(x, m, w) implies reach_chain(x, h, acc, k, m, s, w) by {
        assert(w.take(w.len() as int) =~= w);
        assert(w.skip(w.len() as int) =~= Seq::<u32>::empty());
        assert(reach(x, h, s, Seq::<u32>::empty()));
    }
    // a word reaching the accept state of the first copy is one of `m + 1` copies
    assert forall|w: Seq<u32>| #[trigger] rc(a, w) implies reps(x, m + 1, w) by {
        let i = choose|i: int| 0 <= i <= w.len() && #[trigger] reps(x, m, w.take(i)) && reach(x, h, a, w.skip(i));
        assert(lang(x, w.skip(i)));
        lemma_reps_append(x, m, w.take(i), w.skip(i));
        assert(w.take(i) + w.skip(i) =~= w);
    }
    if k == 1 {
        assert(c == h2);
        assert forall|w: Seq<u32>| #[trigger] reach_chain(x, h, acc, k, m, ca, w) implies reps(x, m + k, w) by {
            assert(rc(a, w));
        }
        assert forall|q: int| n <= q < c.len() implies #[trigger] row_sound(c[q], q, rc) by {
            assert(c[q] == g1[q]);
        }
        assert forall|q: int, j: int| n <= q < c.len() && 0 <= j < c[q].len() implies n <= (#[trigger] c[q][j]).target
            < c.len() by {
            assert(c[q] == g1[q]);
        }
    } else {
        let k1 = (k - 1) as nat;
        lemma_chain_sound(x, h2, a, k1, m + 1);
        let rc1 = chain_fn(x, h2, a, k1, m + 1);
        let s1 = frag(x, h2).1;
        lemma_frag_shape(x, h2);
        let g1n = g1.len() as int;
        assert(s1 < c.len());
        assert forall|q: int, w: Seq<u32>| g1n <= q < c.len() implies (#[trigger] rc(q, w) <==> rc1(q, w)) by {}
        lemma_same(c, g1n, c.len() as int, rc1, rc);
        assert(c[a] =~= seq![eps(s1)]);
        assert forall|w: Seq<u32>| #[trigger] rc(a, w) implies rc(s1, w) by {
            assert(reps(x, m + 1, w));
            assert(rc1(s1, w));
        }
        lemma_eps_step(rc, a, s1);
        assert forall|q: int| n <= q < c.len() implies #[trigger] row_sound(c[q], q, rc) by {
            if q == a {
                assert forall|j: int| 0 <= j < c[q].len() implies step_sound(rc, q, #[trigger] c[q][j]) by {}
            } else if q < g1n {
                assert(c[q] == h2[q]);
                assert(h2[q] == g1[q]);
            }
        }
        assert forall|q: int, j: int| n <= q < c.len() && 0 <= j < c[q].len() implies n <= (#[trigger] c[q][j]).target
            < c.len() by {
            if q < g1n && q != a {
                assert(c[q] == h2[q]);
                assert(h2[q] == g1[q]);
            }
        }
        assert(c[acc] == h2[acc]);
        assert forall|w: Seq<u32>| #[trigger] reach_chain(x, h, acc, k, m, ca, w) implies reps(x, m + k, w) by {
            assert(rc1(ca, w));
            assert(m + 1 + k1 == m + k);
        }
    }
}

/// `x{count}` with `count` at least 1.
proof fn lemma_sound_exactly(r: RegexModel, x: RegexModel, count: u32, g: Seq<Seq<Edge>>)
    requires
        r == RegexModel::Repeat(Box::new(x), RepeatType::Exactly(count)),
        count >= 1,
        sound_ok(r),
        regex_ok(r),
        frag(r, g).0.len() <= usize::MAX,
    ensures
        rows_sound(frag(r, g).0, g.len() as int, frag(r, g).0.len() as int, reach_fn(r, g)),
        reach(r, g, frag(r, g).1, Seq::<u32>::empty()),
        forall|w: Seq<u32>| #[trigger] reach(r, g, frag(r, g).2, w) ==> lang(r, w),
    decreases r, 2nat,
{
    let n = g.len() as int;
    lemma_frag_shape(r, g);
    let (k0, s0, a0) = frag(r, g);
    let rr = reach_fn(r, g);
    let (g1, s, a) = frag(x, g);
    lemma_frag_shape(x, g);
    let k1 = (count - 1) as nat;
    lemma_chain_shape(x, g1, a, k1);
    assert(local(g, n));
    lemma_frag_local(x, g, n);
    lemma_frag_sound(x, g);
    let rx = reach_fn(x, g);
    assert forall|w: Seq<u32>| #[trigger] rr(a, w) implies reps(x, 1, w) by {
        assert(reach(x, g, a, w));
        assert(lang(x, w));
        lemma_reps_append(x, 0, Seq::<u32>::empty(), w);
        assert(Seq::<u32>::empty() + w =~= w);
    }
    lemma_same(g1, n, g1.len() as int, rx, rr);
    if count == 1 {
        assert(k0 == g1);
        assert forall|w: Seq<u32>| #[trigger] reach(r, g, a0, w) implies lang(r, w) by {
            assert(rr(a, w));
        }
    } else {
        lemma_chain_sound(x, g1, a, k1, 1);
        lemma_chain_local(x, g1, a, k1, n);
        let rc = chain_fn(x, g1, a, k1, 1);
        let s1 = frag(x, g1).1;
        lemma_frag_shape(x, g1);
        let g1n = g1.len() as int;
        assert(s1 < k0.len());
        assert forall|q: int, w: Seq<u32>| g1n <= q < k0.len() implies (#[trigger] rr(q, w) <==> rc(q, w)) by {}
        lemma_same(k0, g1n, k0.len() as int, rc, rr);
        assert(k0[a] =~= seq![eps(s1)]);
        assert forall|w: Seq<u32>| #[trigger] rr(a, w) implies rr(s1, w) by {
            assert(reps(x, 1, w));
            assert(rc(s1, w));
        }
        lemma_eps_step(rr, a, s1);
        assert forall|q: int| n <= q < k0.len() implies #[trigger] row_sound(k0[q], q, rr) by {
            if q == a {
                assert forall|j: int| 0 <= j < k0[q].len() implies step_sound(rr, q, #[trigger] k0[q][j]) by {}
            } else if q < g1n {
                assert(k0[q] == g1[q]);
            }
        }
        assert forall|w: Seq<u32>| #[trigger] reach(r, g, a0, w) implies lang(r, w) by {
            assert(rc(a0, w));
            assert(1 + k1 == count);
        }
    }
}

/// The graph after one optional copy of `x` after `cur`, before the rest.
pub open spec fn opt_step(x: RegexModel, h: Seq<Seq<Edge>>, cur: int) -> Seq<Seq<Edge>> {
    let (g1, s, a) = frag(x, h);
    let tail = g1.len() as int;
    with_edge(with_edge(with_edge(g1.push(seq![]), cur, eps(tail)), cur, eps(s)), a, eps(tail))
}

/// The rows of the graph after one optional copy.
proof fn lemma_opt_step_rows(x: RegexModel, h: Seq<Seq<Edge>>, cur: int)
    requires
        0 <= cur < h.len(),
        opt_step(x, h, cur).len() <= usize::MAX,
    ensures
        forall|q: int|
            0 <= q < frag(x, h).0.len() && q != frag(x, h).2 && q != cur ==> #[trigger] opt_step(x, h, cur)[q] == frag(
                x,
                h,
            ).0[q],
        opt_step(x, h, cur)[frag(x, h).2] =~= frag(x, h).0[frag(x, h).2].push(eps(frag(x, h).0.len() as int)),
        opt_step(x, h, cur)[frag(x, h).0.len() as int] =~= Seq::<Edge>::empty(),
        opt_step(x, h, cur)[cur] =~= h[cur].push(eps(frag(x, h).0.len() as int)).push(eps(frag(x, h).1)),
        opt_step(x, h, cur).len() == frag(x, h).0.len() + 1,
        h.len() <= frag(x, h).1 < frag(x, h).0.len(),
        h.len() <= frag(x, h).2 < frag(x, h).0.len(),
{
    let (g1, s, a) = frag(x, h);
    lemma_frag_shape(x, h);
    let tail = g1.len() as int;
    let p = g1.push(seq![]);
    let p1 = with_edge(p, cur, eps(tail));
    let g2 = with_edge(p1, cur, eps(s));
    let g3 = with_edge(g2, a, eps(tail));
    assert(g3 == opt_step(x, h, cur));
    assert(local(h, h.len() as int));
    lemma_frag_local(x, h, h.len() as int);
    assert forall|q: int| 0 <= q < g1.len() && q != a && q != cur implies #[trigger] g3[q] == g1[q] by {
        assert(g3[q] == g2[q]);
        assert(g2[q] == p1[q]);
        assert(p1[q] == p[q]);
    }
    assert(g1[cur] == h[cur]);
}

/// The rows of the first optional copy keep the words of `reach_opt`.
proof fn lemma_opt_lift(x: RegexModel, h: Seq<Seq<Edge>>, cur: int, k: nat, lo: nat, m: nat)
    requires
        k >= 1,
        local(frag(x, h).0, h.len() as int),
        rows_sound(frag(x, h).0, h.len() as int, frag(x, h).0.len() as int, reach_fn(x, h)),
        h.len() <= frag(x, h).0.len(),
    ensures
        rows_sound(frag(x, h).0, h.len() as int, frag(x, h).0.len() as int, opt_fn(x, h, cur, k, lo, m)),
{
    let g1 = frag(x, h).0;
    let n = h.len() as int;
    let rx = reach_fn(x, h);
    let ro = opt_fn(x, h, cur, k, lo, m);
    let pre = count_fn(x, lo, m);
    assert forall|q: int, w: Seq<u32>| n <= q < g1.len() implies (#[trigger] ro(q, w) <==> exists|i: int|
        0 <= i <= w.len() && #[trigger] pre(w.take(i)) && rx(q, w.skip(i))) by {
        if ro(q, w) {
            let i = choose|i: int| 0 <= i <= w.len() && #[trigger] count_in(x, lo, m, w.take(i)) && reach(x, h, q, w.skip(i));
            assert(pre(w.take(i)) && rx(q, w.skip(i)));
        }
        if exists|i: int| 0 <= i <= w.len() && #[trigger] pre(w.take(i)) && rx(q, w.skip(i)) {
            let i = choose|i: int| 0 <= i <= w.len() && #[trigger] pre(w.take(i)) && rx(q, w.skip(i));
            assert(count_in(x, lo, m, w.take(i)) && reach(x, h, q, w.skip(i)));
        }
    }
    lemma_lift(g1, n, g1.len() as int, rx, ro, pre);
}

/// The first optional copy: its rows keep the words of `reach_opt`, and
/// the edges that join it to `cur` and to the next state do too.
proof fn lemma_opt_head(x: RegexModel, h: Seq<Seq<Edge>>, cur: int, k: nat, lo: nat, m: nat)
    requires
        sound_ok(x),
        regex_ok(x),
        k >= 1,
        0 <= cur < h.len(),
        opt_step(x, h, cur).len() <= usize::MAX,
    ensures
        rows_sound(frag(x, h).0, h.len() as int, frag(x, h).0.len() as int, opt_fn(x, h, cur, k, lo, m)),
        forall|q: int, j: int|
            h.len() <= q < frag(x, h).0.len() && 0 <= j < frag(x, h).0[q].len() ==> h.len() <= (
            #[trigger] frag(x, h).0[q][j]).target < frag(x, h).0.len(),
        forall|w: Seq<u32>|
            #[trigger] count_in(x, lo, m, w) ==> reach_opt(x, h, cur, k, lo, m, frag(x, h).1, w) && reach_opt(
                x,
                h,
                cur,
                k,
                lo,
                m,
                frag(x, h).0.len() as int,
                w,
            ),
        forall|w: Seq<u32>|
            #[trigger] reach_opt(x, h, cur, k, lo, m, frag(x, h).2, w) ==> reach_opt(
                x,
                h,
                cur,
                k,
                lo,
                m,
                frag(x, h).0.len() as int,
                w,
            ),
        h.len() <= frag(x, h).1 < frag(x, h).0.len(),
        h.len() <= frag(x, h).2 < frag(x, h).0.len(),
        frag(x, h).0[frag(x, h).2].len() == 0,
    decreases x, 5nat,
{
    let (g1, s, a) = frag(x, h);
    lemma_frag_shape(x, h);
    let tail = g1.len() as int;
    let p = g1.push(seq![]);
    let p1 = with_edge(p, cur, eps(tail));
    let g2 = with_edge(p1, cur, eps(s));
    let g3 = with_edge(g2, a, eps(tail));
    assert(g3 == opt_step(x, h, cur));
    let n = h.len() as int;
    assert(local(h, n));
    lemma_frag_local(x, h, n);
    lemma_frag_sound(x, h);
    let ro = opt_fn(x, h, cur, k, lo, m);
    lemma_opt_lift(x, h, cur, k, lo, m);
    assert forall|w: Seq<u32>| #[trigger] count_in(x, lo, m, w) implies ro(s, w) && ro(tail, w) by {
        assert(w.take(w.len() as int) =~= w);
        assert(w.skip(w.len() as int) =~= Seq::<u32>::empty());
        assert(reach(x, h, s, Seq::<u32>::empty()));
        assert(count_in(x, lo, m, w.take(w.len() as int)));
        let j = choose|j: nat| lo <= j <= m && #[trigger] reps(x, j, w);
        assert(reps(x, j, w));
    }
    assert forall|w: Seq<u32>| #[trigger] reach_opt(x, h, cur, k, lo, m, a, w) implies reach_opt(x, h, cur, k, lo, m, tail, w) by {
        let i = choose|i: int| 0 <= i <= w.len() && #[trigger] count_in(x, lo, m, w.take(i)) && reach(x, h, a, w.skip(i));
        assert(lang(x, w.skip(i)));
        lemma_count_append(x, lo, m, w.take(i), w.skip(i));
        assert(w.take(i) + w.skip(i) =~= w);
    }
}

/// `k` optional copies of `x` after `cur` keep the words of `reach_opt`.
proof fn lemma_opt_sound(x: RegexModel, h: Seq<Seq<Edge>>, cur: int, k: nat, lo: nat, m: nat)
    requires
        sound_ok(x),
        regex_ok(x),
        k >= 1,
        0 <= cur < h.len(),
        h[cur].len() == 0,
        opt_chain(x, h, cur, k).0.len() <= usize::MAX,
    ensures
        rows_sound(opt_chain(x, h, cur, k).0, h.len() as int, opt_chain(x, h, cur, k).0.len() as int, opt_fn(x, h, cur, k, lo, m)),
        forall|q: int, j: int|
            h.len() <= q < opt_chain(x, h, cur, k).0.len() && 0 <= j < opt_chain(x, h, cur, k).0[q].len() ==> h.len()
                <= (#[trigger] opt_chain(x, h, cur, k).0[q][j]).target < opt_chain(x, h, cur, k).0.len(),
        forall|w: Seq<u32>|
            #[trigger] count_in(x, lo, m, w) ==> reach_opt(x, h, cur, k, lo, m, frag(x, h).1, w) && reach_opt(
                x,
                h,
                cur,
                k,
                lo,
                m,
                frag(x, h).0.len() as int,
                w,
            ),
        opt_chain(x, h, cur, k).0[cur] == h[cur].push(eps(frag(x, h).0.len() as int)).push(eps(frag(x, h).1)),
        opt_chain(x, h, cur, k).1 >= h.len(),
        frag(x, h).0.len() < opt_chain(x, h, cur, k).0.len(),
        forall|w: Seq<u32>|
            #[trigger] reach_opt(x, h, cur, k, lo, m, opt_chain(x, h, cur, k).1, w) ==> count_in(x, lo, m + k, w),
    decreases x, 2 * k + 5,
{
    let (g1, s, a) = frag(x, h);
    let tail = g1.len() as int;
    let g3 = opt_step(x, h, cur);
    let k1 = (k - 1) as nat;
    let (o, oa) = opt_chain(x, h, cur, k);
    assert(opt_chain(x, h, cur, k) == opt_chain(x, g3, tail, k1));
    lemma_frag_shape(x, h);
    assert(g3.len() == g1.len() + 1);
    lemma_opt_chain_shape(x, g3, tail, k1);
    assert(o.len() >= g3.len());
    lemma_opt_step_rows(x, h, cur);
    lemma_opt_chain_shape(x, g3, tail, k1);
    assert(o.len() >= g3.len());
    lemma_opt_head(x, h, cur, k, lo, m);
    assert(local(h, h.len() as int));
    lemma_frag_local(x, h, h.len() as int);
    let n = h.len() as int;
    let ro = opt_fn(x, h, cur, k, lo, m);
    lemma_eps_step(ro, a, tail);
    if k == 1 {
        assert(o == g3);
        assert forall|w: Seq<u32>| #[trigger] reach_opt(x, h, cur, k, lo, m, oa, w) implies count_in(x, lo, m + k, w) by {}
        assert forall|q: int| n <= q < o.len() implies #[trigger] row_sound(o[q], q, ro) by {
            if q == a {
                assert forall|j: int| 0 <= j < o[q].len() implies step_sound(ro, q, #[trigger] o[q][j]) by {}
            } else if q < g1.len() {
                assert(o[q] == g1[q]);
            }
        }
        assert forall|q: int, j: int| n <= q < o.len() && 0 <= j < o[q].len() implies n <= (#[trigger] o[q][j]).target
            < o.len() by {
            if q < g1.len() && q != a {
                assert(o[q] == g1[q]);
            }
        }
    } else {
        lemma_opt_sound_rest(x, h, cur, k, lo, m);
    }
}

/// The optional copies after the first.
proof fn lemma_opt_sound_rest(x: RegexModel, h: Seq<Seq<Edge>>, cur: int, k: nat, lo: nat, m: nat)
    requires
        sound_ok(x),
        regex_ok(x),
        k >= 2,
        0 <= cur < h.len(),
        h[cur].len() == 0,
        opt_chain(x, h, cur, k).0.len() <= usize::MAX,
        opt_step(x, h, cur).len() <= usize::MAX,
        opt_chain(x, h, cur, k) == opt_chain(x, opt_step(x, h, cur), frag(x, h).0.len() as int, (k - 1) as nat),
        opt_chain(x, h, cur, k).0.len() >= opt_step(x, h, cur).len(),
        opt_step(x, h, cur).len() == frag(x, h).0.len() + 1,
    ensures
        rows_sound(opt_chain(x, h, cur, k).0, h.len() as int, opt_chain(x, h, cur, k).0.len() as int, opt_fn(x, h, cur, k, lo, m)),
        forall|q: int, j: int|
            h.len() <= q < opt_chain(x, h, cur, k).0.len() && 0 <= j < opt_chain(x, h, cur, k).0[q].len() ==> h.len()
                <= (#[trigger] opt_chain(x, h, cur, k).0[q][j]).target < opt_chain(x, h, cur, k).0.len(),
        opt_chain(x, h, cur, k).0[cur] == opt_step(x, h, cur)[cur],
        opt_chain(x, h, cur, k).1 >= h.len(),
        forall|w: Seq<u32>|
            #[trigger] reach_opt(x, h, cur, k, lo, m, opt_chain(x, h, cur, k).1, w) ==> count_in(x, lo, m + k, w),
    decreases x, 2 * k + 4,
{
    let (g1, s, a) = frag(x, h);
    let tail = g1.len() as int;
    let g3 = opt_step(x, h, cur);
    let k1 = (k - 1) as nat;
    let (o, oa) = opt_chain(x, h, cur, k);
    lemma_frag_shape(x, h);
    lemma_opt_step_rows(x, h, cur);
    lemma_opt_head(x, h, cur, k, lo, m);
    assert(local(h, h.len() as int));
    lemma_frag_local(x, h, h.len() as int);
    let n = h.len() as int;
    let ro = opt_fn(x, h, cur, k, lo, m);
    lemma_eps_step(ro, a, tail);
    lemma_opt_sound(x, g3, tail, k1, lo, m + 1);
    lemma_opt_chain_local(x, g3, tail, k1, n);
    let ro1 = opt_fn(x, g3, tail, k1, lo, m + 1);
    let s1 = frag(x, g3).1;
    let t1 = frag(x, g3).0.len() as int;
    lemma_frag_shape(x, g3);
    let g3n = g3.len() as int;
    assert forall|q: int, w: Seq<u32>| g3n <= q < o.len() implies (#[trigger] ro(q, w) <==> ro1(q, w)) by {}
    lemma_same(o, g3n, o.len() as int, ro1, ro);
    assert(o[tail] =~= seq![eps(t1), eps(s1)]);
    assert(t1 < o.len());
    assert forall|w: Seq<u32>| #[trigger] ro(tail, w) implies ro(s1, w) && ro(t1, w) by {
        assert(count_in(x, lo, m + 1, w));
        assert(ro1(s1, w) && ro1(t1, w));
    }
    lemma_eps_step(ro, tail, s1);
    lemma_eps_step(ro, tail, t1);
    assert forall|q: int| n <= q < o.len() implies #[trigger] row_sound(o[q], q, ro) by {
        if q == a {
            assert(o[q] == g3[q]);
            assert forall|j: int| 0 <= j < o[q].len() implies step_sound(ro, q, #[trigger] o[q][j]) by {}
        } else if q == tail {
            assert forall|j: int| 0 <= j < o[q].len() implies step_sound(ro, q, #[trigger] o[q][j]) by {}
        } else if q < g1.len() {
            assert(o[q] == g3[q]);
            assert(g3[q] == g1[q]);
        }
    }
    assert forall|q: int, j: int| n <= q < o.len() && 0 <= j < o[q].len() implies n <= (#[trigger] o[q][j]).target
        < o.len() by {
        if q < g1.len() {
            assert(o[q] == g3[q]);
        }
    }
    assert(o[cur] == g3[cur]);
    assert forall|w: Seq<u32>| #[trigger] reach_opt(x, h, cur, k, lo, m, oa, w) implies count_in(x, lo, m + k, w) by {
        assert(ro1(oa, w));
        assert(m + 1 + k1 == m + k);
    }
}

/// The mandatory copies of `x{lo,hi}`: their rows keep the words of
/// `reach`, and their last accept state is reached by words of `lo` copies.
proof fn lemma_between_head(r: RegexModel, x: RegexModel, lo: u32, hi: u32, g: Seq<Seq<Edge>>)
    requires
        r == RegexModel::Repeat(Box::new(x), RepeatType::Between(lo, hi)),
        lo >= 1,
        lo <= hi,
        sound_ok(x),
        regex_ok(x),
        frag(r, g).0.len() <= usize::MAX,
    ensures
        ({
            let (g1, s, a) = frag(x, g);
            let (g2, a2) = chain(x, g1, a, (lo - 1) as nat);
            &&& rows_sound(g2, g.len() as int, g2.len() as int, reach_fn(r, g))
            &&& forall|q: int, j: int|
                g.len() <= q < g2.len() && 0 <= j < g2[q].len() ==> g.len() <= (#[trigger] g2[q][j]).target < g2.len()
            &&& forall|w: Seq<u32>| #[trigger] reach(r, g, a2, w) ==> reps(x, lo as nat, w)
            &&& g2[a2].len() == 0
            &&& g.len() <= a2 < g2.len()
            &&& g1.len() <= g2.len()
            &&& g2.len() <= frag(r, g).0.len()
            &&& reach(r, g, s, Seq::<u32>::empty())
        }),
    decreases r, 1nat,
{
    let n = g.len() as int;
    lemma_frag_shape(r, g);
    let rr = reach_fn(r, g);
    let (g1, s, a) = frag(x, g);
    lemma_frag_shape(x, g);
    let m0 = (lo - 1) as nat;
    lemma_chain_shape(x, g1, a, m0);
    let (g2, a2) = chain(x, g1, a, m0);
    lemma_opt_chain_shape(x, g2, a2, (hi - lo) as nat);
    assert(frag(r, g).0 == opt_chain(x, g2, a2, (hi - lo) as nat).0);
    assert(local(g, n));
    lemma_frag_local(x, g, n);
    lemma_frag_sound(x, g);
    let rx = reach_fn(x, g);
    lemma_same(g1, n, g1.len() as int, rx, rr);
    assert forall|w: Seq<u32>| #[trigger] rr(a, w) implies reps(x, 1, w) by {
        assert(reach(x, g, a, w));
        assert(lang(x, w));
        lemma_reps_append(x, 0, Seq::<u32>::empty(), w);
        assert(Seq::<u32>::empty() + w =~= w);
    }
    if m0 == 0 {
        assert(g2 == g1 && a2 == a);
        assert forall|w: Seq<u32>| #[trigger] reach(r, g, a2, w) implies reps(x, lo as nat, w) by {
            assert(rr(a, w));
        }
    } else {
        lemma_chain_sound(x, g1, a, m0, 1);
        lemma_chain_local(x, g1, a, m0, n);
        let rc = chain_fn(x, g1, a, m0, 1);
        let s1 = frag(x, g1).1;
        lemma_frag_shape(x, g1);
        let g1n = g1.len() as int;
        assert(s1 < g2.len());
        assert forall|q: int, w: Seq<u32>| g1n <= q < g2.len() implies (#[trigger] rr(q, w) <==> rc(q, w)) by {}
        lemma_same(g2, g1n, g2.len() as int, rc, rr);
        assert(g2[a] =~= seq![eps(s1)]);
        assert forall|w: Seq<u32>| #[trigger] rr(a, w) implies rr(s1, w) by {
            assert(reps(x, 1, w));
            assert(rc(s1, w));
        }
        lemma_eps_step(rr, a, s1);
        assert forall|q: int| n <= q < g2.len() implies #[trigger] row_sound(g2[q], q, rr) by {
            if q == a {
                assert forall|j: int| 0 <= j < g2[q].len() implies step_sound(rr, q, #[trigger] g2[q][j]) by {}
            } else if q < g1n {
                assert(g2[q] == g1[q]);
            }
        }
        assert forall|q: int, j: int| n <= q < g2.len() && 0 <= j < g2[q].len() implies n <= (#[trigger] g2[q][j]).target
            < g2.len() by {
            if q < g1n && q != a {
                assert(g2[q] == g1[q]);
            }
        }
        assert forall|w: Seq<u32>| #[trigger] reach(r, g, a2, w) implies reps(x, lo as nat, w) by {
            assert(rc(a2, w));
            assert(1 + m0 == lo);
        }
    }
}

/// `x{lo,hi}` with `lo` at least 1.
proof fn lemma_sound_between(r: RegexModel, x: RegexModel, lo: u32, hi: u32, g: Seq<Seq<Edge>>)
    requires
        r == RegexModel::Repeat(Box::new(x), RepeatType::Between(lo, hi)),
        !(lo == 0 && hi == 0),
        sound_ok(r),
        regex_ok(r),
        frag(r, g).0.len() <= usize::MAX,
    ensures
        rows_sound(frag(r, g).0, g.len() as int, frag(r, g).0.len() as int, reach_fn(r, g)),
        reach(r, g, frag(r, g).1, Seq::<u32>::empty()),
        forall|w: Seq<u32>| #[trigger] reach(r, g, frag(r, g).2, w) ==> lang(r, w),
    decreases r, 2nat,
{
    assert(lo >= 1 && lo <= hi);
    let n = g.len() as int;
    let rr = reach_fn(r, g);
    let (g1, s, a) = frag(x, g);
    let m0 = (lo - 1) as nat;
    let (g2, a2) = chain(x, g1, a, m0);
    let kk = (hi - lo) as nat;
    let (k0, s0, a0) = frag(r, g);
    assert(frag(r, g) == (opt_chain(x, g2, a2, kk).0, s, opt_chain(x, g2, a2, kk).1));
    lemma_between_head(r, x, lo, hi, g);
    assert forall|w: Seq<u32>, j: nat| lo <= j <= hi && #[trigger] reps(x, j, w) implies lang(r, w) by {
        lemma_count_from_intro(x, lo, hi, w, lo as nat, j);
    }
    if kk == 0 {
        assert(k0 == g2 && a0 == a2);
        assert forall|w: Seq<u32>| #[trigger] reach(r, g, a0, w) implies lang(r, w) by {
            assert(reps(x, lo as nat, w));
        }
    } else {
        lemma_opt_sound(x, g2, a2, kk, lo as nat, lo as nat);
        lemma_opt_chain_local(x, g2, a2, kk, n);
        let ro = opt_fn(x, g2, a2, kk, lo as nat, lo as nat);
        let so = frag(x, g2).1;
        let tl = frag(x, g2).0.len() as int;
        lemma_frag_shape(x, g2);
        let g2n = g2.len() as int;
        assert(tl < k0.len());
        assert forall|q: int, w: Seq<u32>| g2n <= q < k0.len() implies (#[trigger] rr(q, w) <==> ro(q, w)) by {}
        lemma_same(k0, g2n, k0.len() as int, ro, rr);
        assert(k0[a2] =~= seq![eps(tl), eps(so)]);
        assert forall|w: Seq<u32>| #[trigger] rr(a2, w) implies rr(so, w) && rr(tl, w) by {
            assert(reps(x, lo as nat, w));
            assert(count_in(x, lo as nat, lo as nat, w));
            assert(ro(so, w) && ro(tl, w));
        }
        lemma_eps_step(rr, a2, so);
        lemma_eps_step(rr, a2, tl);
        assert forall|q: int| n <= q < k0.len() implies #[trigger] row_sound(k0[q], q, rr) by {
            if q == a2 {
                assert forall|j: int| 0 <= j < k0[q].len() implies step_sound(rr, q, #[trigger] k0[q][j]) by {}
            } else if q < g2n {
                assert(k0[q] == g2[q]);
            }
        }
        assert forall|w: Seq<u32>| #[trigger] reach(r, g, a0, w) implies lang(r, w) by {
            assert(ro(a0, w));
            assert(count_in(x, lo as nat, lo as nat + kk, w));
            let j = choose|j: nat| lo as nat <= j <= lo as nat + kk && #[trigger] reps(x, j, w);
            assert(reps(x, j, w));
        }
    }
}

/// On patterns without negated classes, `{n,}` or `{0,m}` with `m` above
/// 0, the fragment of a pattern reads only words of the pattern: every word
/// that leads from its start to its accept state is one the pattern
/// matches.
pub proof fn law_frag_reads_only_its_words(r: RegexModel, g: Seq<Seq<Edge>>, w: Seq<u32>)
    requires
        sound_ok(r),
        regex_ok(r),
        frag(r, g).0.len() <= usize::MAX,
        path(frag(r, g).0, frag(r, g).1, frag(r, g).2, w),
    ensures
        lang(r, w),
{
    let (k0, s0, a0) = frag(r, g);
    let n = g.len() as int;
    lemma_frag_shape(r, g);
    assert(local(g, n));
    lemma_frag_local(r, g, n);
    lemma_frag_sound(r, g);
    let steps = choose|steps: nat| #[trigger] path_n(k0, s0, a0, w, steps);
    lemma_path_sound(k0, n, reach_fn(r, g), s0, a0, w, steps);
}

/// Pattern `k`'s fragment keeps its rows in the automaton of all the
/// patterns: it was added to the automaton of the patterns before it, owns
/// the states from `pattern_bounds[k]` to `pattern_bounds[k + 1]`, and its
/// start and accept states are those the automaton lists for it.
proof fn lemma_nfa_rows(ps: Seq<(usize, RegexModel)>, k: int)
    requires
        nfa_of(ps).0.len() <= usize::MAX,
        0 <= k < ps.len(),
    ensures
        ({
            let gk = nfa_of(ps.take(k)).0;
            let fk = frag(ps[k].1, gk);
            &&& forall|q: int| gk.len() <= q < fk.0.len() ==> #[trigger] nfa_of(ps).0[q] == fk.0[q]
            &&& fk.0.len() <= nfa_of(ps).0.len()
            &&& gk.len() >= 1
            &&& nfa_of(ps).1[k].0 as int == fk.2
            &&& pattern_starts(ps)[k] == fk.1
            &&& pattern_bounds(ps)[k] == gk.len()
            &&& pattern_bounds(ps)[k + 1] == fk.0.len()
        }),
    decreases ps.len(),
{
    let p0 = ps.drop_last();
    let (g, acc) = nfa_of(p0);
    let last = ps.last().1;
    lemma_frag_shape(last, g);
    let (g1, s1, a1) = frag(last, g);
    let h = with_edge(g1, 0, eps(s1));
    assert(nfa_of(ps).0 == h);
    law_nfa_shape(p0);
    assert(g.len() >= 1);
    assert(local(g, g.len() as int));
    lemma_frag_local(last, g, g.len() as int);
    assert(pattern_bounds(ps) == pattern_bounds(p0).push(h.len() as int));
    assert(pattern_starts(ps) == pattern_starts(p0).push(s1));
    if k == ps.len() - 1 {
        assert(ps.take(k) =~= p0);
        assert(ps[k] == ps.last());
        assert forall|q: int| g.len() <= q < g1.len() implies #[trigger] h[q] == g1[q] by {}
        assert(nfa_of(ps).1 == acc.push((a1 as usize, ps.last().0)));
        law_nfa_shape(p0);
    } else {
        lemma_nfa_rows(p0, k);
        assert(p0.take(k) =~= ps.take(k));
        assert(p0[k] == ps[k]);
        let gk = nfa_of(ps.take(k)).0;
        let fk = frag(ps[k].1, gk);
        assert forall|q: int| gk.len() <= q < fk.0.len() implies #[trigger] h[q] == fk.0[q] by {
            assert(h[q] == g1[q]);
            assert(g1[q] == g[q]);
        }
        assert(nfa_of(ps).1 == acc.push((a1 as usize, ps.last().0)));
        assert(nfa_of(ps).1[k] == acc[k]);
    }
}

/// Whether state `q` lies in the block of some pattern.
pub open spec fn in_some_block(ps: Seq<(usize, RegexModel)>, q: int) -> bool {
    exists|j: int| 0 <= j < ps.len() && #[trigger] pattern_bounds(ps)[j] <= q < pattern_bounds(ps)[j + 1]
}

/// In an increasing list, later entries are no smaller.
proof fn lemma_increasing(b: Seq<int>, i: int, j: int)
    requires
        forall|k: int| 0 <= k < b.len() - 1 ==> #[trigger] b[k] < b[k + 1],
        0 <= i <= j < b.len(),
    ensures
        b[i] <= b[j],
    decreases j - i,
{
    if i < j {
        lemma_increasing(b, i, j - 1);
        assert(b[j - 1] < b[j]);
    }
}

/// In an increasing list, every value from the first entry to below the
/// last lies between two neighbours.
proof fn lemma_between_neighbours(b: Seq<int>, q: int)
    requires
        forall|i: int, j: int| 0 <= i < j < b.len() ==> #[trigger] b[i] < #[trigger] b[j],
        b.len() >= 1,
        b[0] <= q < b[b.len() - 1],
    ensures
        exists|j: int| 0 <= j < b.len() - 1 && #[trigger] b[j] <= q < b[j + 1],
    decreases b.len(),
{
    let b0 = b.drop_last();
    if q < b[b.len() - 2] {
        assert forall|i: int, j: int| 0 <= i < j < b0.len() implies #[trigger] b0[i] < #[trigger] b0[j] by {
            assert(b0[i] == b[i] && b0[j] == b[j]);
        }
        lemma_between_neighbours(b0, q);
        let j = choose|j: int| 0 <= j < b0.len() - 1 && #[trigger] b0[j] <= q < b0[j + 1];
        assert(b[j] <= q < b[j + 1]);
    } else {
        let j = b.len() - 2;
        assert(b[j] <= q < b[j + 1]);
    }
}

/// The pattern blocks grow, and every state but 0 lies in one of them.
proof fn lemma_bounds_cover(ps: Seq<(usize, RegexModel)>)
    requires
        nfa_of(ps).0.len() <= usize::MAX,
    ensures
        forall|i: int, j: int| 0 <= i <= j <= ps.len() ==> #[trigger] pattern_bounds(ps)[i] <= #[trigger] pattern_bounds(ps)[j],
        forall|q: int| 1 <= q < nfa_of(ps).0.len() ==> #[trigger] in_some_block(ps, q),
        pattern_bounds(ps).len() == ps.len() + 1,
        pattern_bounds(ps)[0] == 1,
        pattern_bounds(ps)[ps.len() as int] == nfa_of(ps).0.len(),
{
    let b = pattern_bounds(ps);
    assert(b.len() == ps.len() + 1 && b[0] == 1 && b[ps.len() as int] == nfa_of(ps).0.len()) by {
        law_nfa_shape(ps);
    }
    assert(forall|i: int, j: int| 0 <= i < j < b.len() ==> #[trigger] b[i] < #[trigger] b[j]) by {
        assert forall|k: int| 0 <= k < b.len() - 1 implies #[trigger] b[k] < b[k + 1] by {
            law_nfa_shape(ps);
            assert(b[k] <= pattern_starts(ps)[k] < b[k + 1]);
        }
        assert forall|i: int, j: int| 0 <= i < j < b.len() implies #[trigger] b[i] < #[trigger] b[j] by {
            lemma_increasing(b, i + 1, j);
            assert(b[i] < b[i + 1]);
        }
    }
    assert forall|i: int, j: int| 0 <= i <= j <= ps.len() implies #[trigger] b[i] <= #[trigger] b[j] by {
        if i < j {
            assert(b[i] < b[j]);
        }
    }
    assert forall|q: int| 1 <= q < nfa_of(ps).0.len() implies #[trigger] in_some_block(ps, q) by {
        lemma_between_neighbours(b, q);
        let j = choose|j: int| 0 <= j < b.len() - 1 && #[trigger] b[j] <= q < b[j + 1];
        assert(0 <= j < ps.len() && pattern_bounds(ps)[j] <= q < pattern_bounds(ps)[j + 1]);
    }
}

/// The words that lead from the common start state to state `q` of the
/// automaton of the patterns, as far as pattern `k` is concerned: within
/// its block those of its fragment, the empty word at the start state, and
/// any word elsewhere.
pub open spec fn nfa_reach_fn(ps: Seq<(usize, RegexModel)>, k: int) -> spec_fn(int, Seq<u32>) -> bool {
    |q: int, w: Seq<u32>|
        if pattern_bounds(ps)[k] <= q < pattern_bounds(ps)[k + 1] {
            reach(ps[k].1, nfa_of(ps.take(k)).0, q, w)
        } else if q == 0 {
            w.len() == 0
        } else {
            true
        }
}

/// An edge of a row in pattern `i`'s block stays in the block.
proof fn lemma_region_target(ps: Seq<(usize, RegexModel)>, i: int, q: int, j: int)
    requires
        nfa_of(ps).0.len() <= usize::MAX,
        0 <= i < ps.len(),
        pattern_bounds(ps)[i] <= q < pattern_bounds(ps)[i + 1],
        0 <= j < nfa_of(ps).0[q].len(),
    ensures
        pattern_bounds(ps)[i] <= nfa_of(ps).0[q][j].target < pattern_bounds(ps)[i + 1],
{
    law_nfa_shape(ps);
}

/// The start state's edges lead to the start of each pattern's block.
proof fn lemma_start_edge(ps: Seq<(usize, RegexModel)>, j: int)
    requires
        nfa_of(ps).0.len() <= usize::MAX,
        0 <= j < nfa_of(ps).0[0].len(),
    ensures
        j < ps.len(),
        nfa_of(ps).0[0][j] == eps(pattern_starts(ps)[j]),
        pattern_bounds(ps)[j] <= pattern_starts(ps)[j] < pattern_bounds(ps)[j + 1],
{
    law_nfa_shape(ps);
}

/// The start state's edges keep the words of `nfa_reach_fn`.
proof fn lemma_row0_sound(ps: Seq<(usize, RegexModel)>, k: int)
    requires
        nfa_of(ps).0.len() <= usize::MAX,
        0 <= k < ps.len(),
        sound_ok(ps[k].1),
        regex_ok(ps[k].1),
    ensures
        row_sound(nfa_of(ps).0[0], 0, nfa_reach_fn(ps, k)),
{
    let h = nfa_of(ps).0;
    let b = pattern_bounds(ps);
    let st = pattern_starts(ps);
    law_nfa_shape(ps);
    lemma_nfa_rows(ps, k);
    lemma_bounds_cover(ps);
    let gk = nfa_of(ps.take(k)).0;
    let r = ps[k].1;
    assert(reach(r, gk, frag(r, gk).1, Seq::<u32>::empty())) by {
        lemma_frag_sound(r, gk);
    }
    let rn = nfa_reach_fn(ps, k);
    assert forall|j: int| 0 <= j < h[0].len() implies step_sound(rn, 0, #[trigger] h[0][j]) by {
        assert(h[0][j] == eps(st[j]));
        assert(b[j] <= st[j] < b[j + 1]);
        assert forall|w: Seq<u32>| #[trigger] rn(0, w) implies rn(st[j], w) by {
            if j == k {
                assert(w =~= Seq::<u32>::empty());
            } else if j < k {
                assert(b[j + 1] <= b[k]);
            } else {
                assert(b[k + 1] <= b[j]);
            }
            assert(b[0] <= b[j]);
        }
        lemma_eps_step(rn, 0, st[j]);
    }
}

/// The rows of pattern `k`'s block keep the words of `nfa_reach_fn`.
proof fn lemma_row_in_sound(ps: Seq<(usize, RegexModel)>, k: int, q: int)
    requires
        nfa_of(ps).0.len() <= usize::MAX,
        0 <= k < ps.len(),
        sound_ok(ps[k].1),
        regex_ok(ps[k].1),
        pattern_bounds(ps)[k] <= q < pattern_bounds(ps)[k + 1],
    ensures
        row_sound(nfa_of(ps).0[q], q, nfa_reach_fn(ps, k)),
{
    let h = nfa_of(ps).0;
    lemma_nfa_rows(ps, k);
    let gk = nfa_of(ps.take(k)).0;
    let r = ps[k].1;
    let fk = frag(r, gk);
    lemma_frag_shape(r, gk);
    assert(local(gk, gk.len() as int));
    lemma_frag_local(r, gk, gk.len() as int);
    lemma_frag_sound(r, gk);
    let rk = reach_fn(r, gk);
    let rn = nfa_reach_fn(ps, k);
    assert(h[q] == fk.0[q]);
    assert(row_sound(fk.0[q], q, rk));
    assert forall|j: int| 0 <= j < h[q].len() implies step_sound(rn, q, #[trigger] h[q][j]) by {
        let e = h[q][j];
        assert(step_sound(rk, q, e));
        let t = e.target as int;
        assert(gk.len() <= t < fk.0.len());
        assert forall|w: Seq<u32>| #[trigger] rn(q, w) implies if e.edge_type is Epsilon {
            rn(t, w)
        } else {
            forall|cp: u32| #[trigger] reads(e, cp) ==> rn(t, w.push(cp))
        } by {
            assert(rk(q, w));
            if e.edge_type is Epsilon {
                assert(rk(t, w));
            } else {
                assert forall|cp: u32| #[trigger] reads(e, cp) implies rn(t, w.push(cp)) by {
                    assert(rk(t, w.push(cp)));
                }
            }
        }
    }
}

/// The rows outside pattern `k`'s block and the start state lead to no
/// state of that block.
proof fn lemma_row_out_sound(ps: Seq<(usize, RegexModel)>, k: int, q: int)
    requires
        nfa_of(ps).0.len() <= usize::MAX,
        0 <= k < ps.len(),
        1 <= q < nfa_of(ps).0.len(),
        !(pattern_bounds(ps)[k] <= q < pattern_bounds(ps)[k + 1]),
    ensures
        row_sound(nfa_of(ps).0[q], q, nfa_reach_fn(ps, k)),
{
    let h = nfa_of(ps).0;
    let b = pattern_bounds(ps);
    lemma_bounds_cover(ps);
    let rn = nfa_reach_fn(ps, k);
    assert(in_some_block(ps, q));
    let i = choose|i: int| 0 <= i < ps.len() && #[trigger] b[i] <= q < b[i + 1];
    assert forall|j: int| 0 <= j < h[q].len() implies step_sound(rn, q, #[trigger] h[q][j]) by {
        let e = h[q][j];
        lemma_region_target(ps, i, q, j);
        assert(b[i] <= e.target < b[i + 1]);
        if i < k {
            assert(b[i + 1] <= b[k]);
        } else {
            assert(i != k);
            assert(b[k + 1] <= b[i]);
        }
        assert(b[0] <= b[i]);
    }
}

/// Every edge of the automaton of the patterns leads to one of its states.
proof fn lemma_nfa_local(ps: Seq<(usize, RegexModel)>)
    requires
        nfa_of(ps).0.len() <= usize::MAX,
    ensures
        local(nfa_of(ps).0, 0),
{
    let h = nfa_of(ps).0;
    let b = pattern_bounds(ps);
    let st = pattern_starts(ps);
    lemma_bounds_cover(ps);
    assert forall|q: int, j: int| 0 <= q < h.len() && 0 <= j < h[q].len() implies 0 <= (#[trigger] h[q][j]).target
        < h.len() by {
        if q == 0 {
            lemma_start_edge(ps, j);
            assert(b[j + 1] <= b[ps.len() as int]);
        } else {
            assert(in_some_block(ps, q));
            let i = choose|i: int| 0 <= i < ps.len() && #[trigger] b[i] <= q < b[i + 1];
            lemma_region_target(ps, i, q, j);
            assert(b[i + 1] <= b[ps.len() as int]);
        }
    }
}

/// Every row of the automaton of the patterns keeps the words of
/// `nfa_reach_fn`.
proof fn lemma_nfa_rows_sound(ps: Seq<(usize, RegexModel)>, k: int)
    requires
        nfa_of(ps).0.len() <= usize::MAX,
        0 <= k < ps.len(),
        sound_ok(ps[k].1),
        regex_ok(ps[k].1),
    ensures
        rows_sound(nfa_of(ps).0, 0, nfa_of(ps).0.len() as int, nfa_reach_fn(ps, k)),
        local(nfa_of(ps).0, 0),
{
    let h = nfa_of(ps).0;
    let rn = nfa_reach_fn(ps, k);
    assert forall|q: int| 0 <= q < h.len() implies #[trigger] row_sound(h[q], q, rn) by {
        if q == 0 {
            lemma_row0_sound(ps, k);
        } else if pattern_bounds(ps)[k] <= q < pattern_bounds(ps)[k + 1] {
            lemma_row_in_sound(ps, k, q);
        } else {
            lemma_row_out_sound(ps, k, q);
        }
    }
    lemma_nfa_local(ps);
}

/// On a pattern without negated classes, `{n,}` or `{0,m}` with `m` above
/// 0, the automaton of all the patterns leads from its start state to that
/// pattern's accept state only on words of the pattern.
pub proof fn law_nfa_reads_only_pattern_words(ps: Seq<(usize, RegexModel)>, k: int, w: Seq<u32>)
    requires
        nfa_of(ps).0.len() <= usize::MAX,
        0 <= k < ps.len(),
        sound_ok(ps[k].1),
        regex_ok(ps[k].1),
        path(nfa_of(ps).0, 0, nfa_of(ps).1[k].0 as int, w),
    ensures
        lang(ps[k].1, w),
{
    let h = nfa_of(ps).0;
    lemma_nfa_rows_sound(ps, k);
    lemma_nfa_rows(ps, k);
    law_nfa_shape(ps);
    let gk = nfa_of(ps.take(k)).0;
    let r = ps[k].1;
    lemma_frag_sound(r, gk);
    let rn = nfa_reach_fn(ps, k);
    let a = nfa_of(ps).1[k].0 as int;
    let steps = choose|steps: nat| #[trigger] path_n(h, 0, a, w, steps);
    assert(rn(0, Seq::<u32>::empty())) by {
        assert(pattern_bounds(ps)[0] <= pattern_bounds(ps)[k]) by {
            lemma_bounds_cover(ps);
        }
    }
    lemma_path_sound(h, 0, rn, 0, a, w, steps);
    assert(pattern_bounds(ps)[k] <= a < pattern_bounds(ps)[k + 1]);
    assert(reach(r, gk, frag(r, gk).2, w));
}


/// Each pattern's accept state carries the pattern's token.
proof fn lemma_accept_tokens(ps: Seq<(usize, RegexModel)>)
    ensures
        nfa_of(ps).1.len() == ps.len(),
        forall|k: int| 0 <= k < ps.len() ==> (#[trigger] nfa_of(ps).1[k]).1 == ps[k].0,
    decreases ps.len(),
{
    if ps.len() > 0 {
        let p0 = ps.drop_last();
        lemma_accept_tokens(p0);
        assert forall|k: int| 0 <= k < ps.len() implies (#[trigger] nfa_of(ps).1[k]).1 == ps[k].0 by {
            if k < ps.len() - 1 {
                assert(nfa_of(ps).1[k] == nfa_of(p0).1[k]);
                assert(ps[k] == p0[k]);
            }
        }
    }
}

/// A best token is the token of an accept state in the set.
proof fn lemma_best_token_from(accepts: Seq<(usize, usize)>, set: Set<int>)
    requires
        best_token(accepts, set) is Some,
    ensures
        exists|k: int|
            0 <= k < accepts.len() && set.contains((#[trigger] accepts[k]).0 as int) && accepts[k].1
                == best_token(accepts, set)->0,
    decreases accepts.len(),
{
    let a0 = accepts.drop_last();
    let b = best_token(a0, set);
    let (sid, tok) = accepts.last();
    if set.contains(sid as int) && (b is None || tok < b->0) {
        let k = accepts.len() - 1;
        assert(accepts[k] == (sid, tok));
    } else {
        lemma_best_token_from(a0, set);
        let k = choose|k: int|
            0 <= k < a0.len() && set.contains((#[trigger] a0[k]).0 as int) && a0[k].1 == b->0;
        assert(accepts[k] == a0[k]);
    }
}

/// A state that epsilon edges reach from states at the end of paths on `w`
/// is at the end of a path on `w` too.
proof fn lemma_reach_in_path(g: Seq<Seq<Edge>>, start: int, s0: Set<int>, w: Seq<u32>, n: nat, v: int)
    requires
        forall|s: int| s0.contains(s) ==> path(g, start, s, w),
        reach_in(g, s0, n).contains(v),
    ensures
        path(g, start, v, w),
    decreases n,
{
    if n > 0 {
        let p = reach_in(g, s0, (n - 1) as nat);
        if p.contains(v) {
            lemma_reach_in_path(g, start, s0, w, (n - 1) as nat, v);
        } else {
            let s = choose|s: int| p.contains(s) && #[trigger] eps_step(g, s, v);
            lemma_reach_in_path(g, start, s0, w, (n - 1) as nat, s);
            let m = choose|m: nat| #[trigger] path_n(g, start, s, w, m);
            let j = choose|j: int|
                0 <= j < g[s].len() && (#[trigger] g[s][j]).edge_type is Epsilon && g[s][j].target == v;
            assert(path_n(g, start, v, w, m + 1));
        }
    }
}

/// Every state that the NFA reaches on `w` is at the end of a path on `w`.
proof fn lemma_run_path(g: Seq<Seq<Edge>>, start: int, w: Seq<u32>, v: int)
    requires
        nfa_run(g, start, w).contains(v),
    ensures
        path(g, start, v, w),
    decreases w.len(),
{
    if w.len() == 0 {
        let s0 = Set::<int>::empty().insert(start);
        assert(path_n(g, start, start, w, 0));
        let n = choose|n: nat| #[trigger] reach_in(g, s0, n).contains(v);
        lemma_reach_in_path(g, start, s0, w, n, v);
    } else {
        let w0 = w.drop_last();
        let prev = nfa_run(g, start, w0);
        let s0 = step_set(g, prev, w.last());
        assert forall|t: int| s0.contains(t) implies path(g, start, t, w) by {
            let (s, j) = choose|s: int, j: int|
                prev.contains(s) && 0 <= s < g.len() && 0 <= j < g[s].len() && reads(
                    #[trigger] g[s][j],
                    w.last(),
                ) && g[s][j].target == t;
            lemma_run_path(g, start, w0, s);
            let m = choose|m: nat| #[trigger] path_n(g, start, s, w0, m);
            assert(g[s][j].edge_type !is Epsilon);
            assert(path_n(g, start, t, w, m + 1));
        }
        let n = choose|n: nat| #[trigger] reach_in(g, s0, n).contains(v);
        lemma_reach_in_path(g, start, s0, w, n, v);
    }
}

/// The scanner's automaton reads only the words of its patterns: where no
/// two classes were merged and no pattern with token `tok` has a negated
/// class, `{n,}` or `{0,m}` with `m` above 0, reading `w` through the table
/// of the DFA built from the patterns' NFA to a state with token `tok`
/// means that a pattern with token `tok` matches `w`.
pub proof fn law_dfa_token_reads_pattern_word(
    ps: Seq<(usize, RegexModel)>,
    dfa: DFA,
    w: Seq<u32>,
    s: usize,
    tok: usize,
)
    requires
        edges_ok(nfa_of(ps).0),
        nfa_of(ps).0.len() <= usize::MAX,
        dfa_of(nfa_of(ps).0, 0, nfa_of(ps).1, dfa),
        dfa.intervals@ == classes_of(class_bounds(nfa_of(ps).0)),
        forall|k: int|
            0 <= k < ps.len() && (#[trigger] ps[k]).0 == tok ==> sound_ok(ps[k].1) && regex_ok(ps[k].1),
        code_points(w),
        table_run(table(dfa.transitions@), dfa.intervals@, w) == Some(s),
        s < dfa.accept.len(),
        dfa.accept@[s as int] == Some(tok),
    ensures
        exists|k: int| 0 <= k < ps.len() && (#[trigger] ps[k]).0 == tok && lang(ps[k].1, w),
{
    let (g, acc) = nfa_of(ps);
    law_dfa_follows_nfa(g, 0, acc, dfa, w);
    let set = nfa_run(g, 0, w);
    lemma_best_token_from(acc, set);
    let k = choose|k: int|
        0 <= k < acc.len() && set.contains((#[trigger] acc[k]).0 as int) && acc[k].1 == best_token(acc, set)->0;
    lemma_accept_tokens(ps);
    lemma_run_path(g, 0, w, acc[k].0 as int);
    assert(ps[k].0 == tok);
    law_nfa_reads_only_pattern_words(ps, k, w);
}

} // verus!
