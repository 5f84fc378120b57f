//! Preparing a grammar for recursive-descent code: substituting earlier
//! rules into later ones, refusing left recursion, and writing the body of
//! each rule's parse function.
use vstd::prelude::*;
use rayon::iter::{IntoParallelRefIterator, ParallelIterator};
use crate::base::error::Error;
use crate::base::text::{chars_of, dec, push_chars, push_radix, push_str, string_of};
use crate::parser::grammar::{
    CharClassItem, Expr, ExprModel, Grammar, GrammarModel, Rule, RuleModel, expr_models,
};
use crate::parser::peg_parser::rule_models;

verus! {

/// Whether `e` refers to the rule `name` anywhere.
pub open spec fn mentions(e: ExprModel, name: Seq<char>) -> bool
    decreases e,
{
    match e {
        ExprModel::RuleRef(n) => n == name,
        ExprModel::Sequence(es) => mentions_any(es, name),
        ExprModel::Choice(es) => mentions_any(es, name),
        ExprModel::Repeat(x) => mentions(*x, name),
        ExprModel::Plus(x) => mentions(*x, name),
        ExprModel::Optional(x) => mentions(*x, name),
        ExprModel::AndPredicate(x) => mentions(*x, name),
        ExprModel::NotPredicate(x) => mentions(*x, name),
        ExprModel::Group(x) => mentions(*x, name),
        _ => false,
    }
}

/// Whether one of `es` refers to the rule `name`.
pub open spec fn mentions_any(es: Seq<ExprModel>, name: Seq<char>) -> bool
    decreases es,
{
    if es.len() == 0 {
        false
    } else {
        mentions_any(es.drop_last(), name) || mentions(es.last(), name)
    }
}

/// `e` with every reference to `target` replaced by `r`.
pub open spec fn replaced(e: ExprModel, target: Seq<char>, r: ExprModel) -> ExprModel
    decreases e,
{
    match e {
        ExprModel::RuleRef(n) => if n == target {
            r
        } else {
            e
        },
        ExprModel::Sequence(es) => ExprModel::Sequence(replaced_all(es, target, r)),
        ExprModel::Choice(es) => ExprModel::Choice(replaced_all(es, target, r)),
        ExprModel::Repeat(x) => ExprModel::Repeat(Box::new(replaced(*x, target, r))),
        ExprModel::Plus(x) => ExprModel::Plus(Box::new(replaced(*x, target, r))),
        ExprModel::Optional(x) => ExprModel::Optional(Box::new(replaced(*x, target, r))),
        ExprModel::AndPredicate(x) => ExprModel::AndPredicate(Box::new(replaced(*x, target, r))),
        ExprModel::NotPredicate(x) => ExprModel::NotPredicate(Box::new(replaced(*x, target, r))),
        ExprModel::Group(x) => ExprModel::Group(Box::new(replaced(*x, target, r))),
        _ => e,
    }
}

pub open spec fn replaced_all(es: Seq<ExprModel>, target: Seq<char>, r: ExprModel) -> Seq<ExprModel>
    decreases es,
{
    if es.len() == 0 {
        seq![]
    } else {
        replaced_all(es.drop_last(), target, r).push(replaced(es.last(), target, r))
    }
}

/// Whether `e` can begin with a reference to the rule `name`: the first
/// item of a sequence, any alternative of a choice, or the operand of an
/// operator.
pub open spec fn starts_with_ref(e: ExprModel, name: Seq<char>) -> bool
    decreases e,
{
    match e {
        ExprModel::RuleRef(n) => n == name,
        ExprModel::Sequence(es) => es.len() > 0 && starts_with_ref(es[0], name),
        ExprModel::Choice(es) => starts_any(es, name),
        ExprModel::Repeat(x) => starts_with_ref(*x, name),
        ExprModel::Plus(x) => starts_with_ref(*x, name),
        ExprModel::Optional(x) => starts_with_ref(*x, name),
        ExprModel::AndPredicate(x) => starts_with_ref(*x, name),
        ExprModel::NotPredicate(x) => starts_with_ref(*x, name),
        ExprModel::Group(x) => starts_with_ref(*x, name),
        _ => false,
    }
}

/// Whether one of `es` can begin with a reference to the rule `name`.
pub open spec fn starts_any(es: Seq<ExprModel>, name: Seq<char>) -> bool
    decreases es,
{
    if es.len() == 0 {
        false
    } else {
        starts_any(es.drop_last(), name) || starts_with_ref(es.last(), name)
    }
}

/// Whether `expr` refers to the rule `name`.
pub fn contains_rule_ref(expr: &Expr, name: &String) -> (b: bool)
    ensures
        b == mentions(expr@, name@),
    decreases expr,
{
    match expr {
        Expr::RuleRef(n) => {
            *n == *name
        },
        Expr::Sequence(v) => {
            proof {
                crate::parser::grammar::lemma_models_seq(*v);
            }
            any_contains_rule_ref(v, name)
        },
        Expr::Choice(v) => {
            proof {
                crate::parser::grammar::lemma_models_seq(*v);
            }
            any_contains_rule_ref(v, name)
        },
        Expr::Repeat(e) | Expr::Plus(e) | Expr::Optional(e) | Expr::Group(e) | Expr::AndPredicate(e)
        | Expr::NotPredicate(e) => contains_rule_ref(e, name),
        _ => false,
    }
}

fn any_contains_rule_ref(v: &Vec<Expr>, name: &String) -> (b: bool)
    ensures
        b == mentions_any(expr_models(v@), name@),
    decreases v,
{
    let ghost es = expr_models(v@);
    let mut found = false;
    let mut i: usize = 0;
    assert(es.take(0) =~= seq![]);
    while i < v.len()
        invariant
            es == expr_models(v@),
            i <= v.len(),
            found == mentions_any(es.take(i as int), name@),
        decreases v.len() - i,
    {
        let m = contains_rule_ref(&v[i], name);
        assert(es.take(i + 1).drop_last() =~= es.take(i as int));
        found = found || m;
        i = i + 1;
    }
    assert(es.take(i as int) =~= es);
    found
}

/// The views of a list of names.
pub open spec fn string_views(v: Seq<String>) -> Seq<Seq<char>> {
    v.map_values(|s: String| s@)
}

/// The rules that `expr` refers to, each once, in the order first met.
pub fn collect_nonterminal_deps(expr: &Expr) -> (deps: Vec<String>)
    ensures
        forall|n: Seq<char>| #[trigger] string_views(deps@).contains(n) <==> mentions(expr@, n),
        string_views(deps@).no_duplicates(),
{
    let mut deps: Vec<String> = Vec::new();
    assert(string_views(deps@) =~= seq![]);
    add_deps(expr, &mut deps);
    deps
}

/// Appends `name` unless it is already listed.
fn add_name(deps: &mut Vec<String>, name: &String)
    requires
        string_views(old(deps)@).no_duplicates(),
    ensures
        string_views(final(deps)@).no_duplicates(),
        forall|n: Seq<char>| #[trigger] string_views(final(deps)@).contains(n) <==> (string_views(
            old(deps)@,
        ).contains(n) || n == name@),
{
    let ghost before = string_views(deps@);
    let mut k: usize = 0;
    while k < deps.len()
        invariant
            before == string_views(deps@),
            before.no_duplicates(),
            k <= deps.len(),
            forall|m: int| 0 <= m < k ==> deps@[m]@ != name@,
        decreases deps.len() - k,
    {
        if deps[k] == *name {
            assert(before[k as int] == name@);
            return;
        }
        k = k + 1;
    }
    assert(!before.contains(name@));
    deps.push(name.clone());
    let ghost after = string_views(deps@);
    assert(after =~= before.push(name@));
    assert forall|n: Seq<char>| #[trigger] after.contains(n) <==> (before.contains(n) || n == name@) by {
        if n == name@ {
            assert(after[before.len() as int] == n);
        }
        if before.contains(n) {
            let m = choose|m: int| 0 <= m < before.len() && before[m] == n;
            assert(after[m] == n);
        }
    }
}

/// Adds the rules that `expr` refers to.
fn add_deps(expr: &Expr, deps: &mut Vec<String>)
    requires
        string_views(old(deps)@).no_duplicates(),
    ensures
        string_views(final(deps)@).no_duplicates(),
        forall|n: Seq<char>| #[trigger] string_views(final(deps)@).contains(n) <==> (string_views(
            old(deps)@,
        ).contains(n) || mentions(expr@, n)),
    decreases expr,
{
    match expr {
        Expr::RuleRef(n) => add_name(deps, n),
        Expr::Sequence(v) => {
            proof {
                crate::parser::grammar::lemma_models_seq(*v);
            }
            add_deps_all(v, deps);
        },
        Expr::Choice(v) => {
            proof {
                crate::parser::grammar::lemma_models_seq(*v);
            }
            add_deps_all(v, deps);
        },
        Expr::Repeat(e) | Expr::Plus(e) | Expr::Optional(e) | Expr::Group(e) | Expr::AndPredicate(e)
        | Expr::NotPredicate(e) => add_deps(e, deps),
        _ => {},
    }
}

fn add_deps_all(v: &Vec<Expr>, deps: &mut Vec<String>)
    requires
        string_views(old(deps)@).no_duplicates(),
    ensures
        string_views(final(deps)@).no_duplicates(),
        forall|n: Seq<char>| #[trigger] string_views(final(deps)@).contains(n) <==> (string_views(
            old(deps)@,
        ).contains(n) || mentions_any(expr_models(v@), n)),
    decreases v,
{
    let ghost es = expr_models(v@);
    let ghost start = string_views(deps@);
    let mut i: usize = 0;
    assert(es.take(0) =~= seq![]);
    while i < v.len()
        invariant
            es == expr_models(v@),
            i <= v.len(),
            string_views(deps@).no_duplicates(),
            forall|n: Seq<char>| #[trigger] string_views(deps@).contains(n) <==> (start.contains(n)
                || mentions_any(es.take(i as int), n)),
        decreases v.len() - i,
    {
        add_deps(&v[i], deps);
        assert(es.take(i + 1).drop_last() =~= es.take(i as int));
        i = i + 1;
    }
    assert(es.take(i as int) =~= es);
}

/// Whether `expr` can begin with a reference to the rule `name`.
fn begins_with_rule(expr: &Expr, name: &String) -> (b: bool)
    ensures
        b == starts_with_ref(expr@, name@),
    decreases expr,
{
    match expr {
        Expr::RuleRef(n) => {
            *n == *name
        },
        Expr::Sequence(v) => {
            proof {
                crate::parser::grammar::lemma_models_seq(*v);
            }
            if v.len() == 0 {
                false
            } else {
                begins_with_rule(&v[0], name)
            }
        },
        Expr::Choice(v) => {
            proof {
                crate::parser::grammar::lemma_models_seq(*v);
            }
            any_begins_with_rule(v, name)
        },
        Expr::Repeat(e) | Expr::Plus(e) | Expr::Optional(e) | Expr::Group(e) | Expr::AndPredicate(e)
        | Expr::NotPredicate(e) => begins_with_rule(e, name),
        _ => false,
    }
}

fn any_begins_with_rule(v: &Vec<Expr>, name: &String) -> (b: bool)
    ensures
        b == starts_any(expr_models(v@), name@),
    decreases v,
{
    let ghost es = expr_models(v@);
    let mut found = false;
    let mut i: usize = 0;
    assert(es.take(0) =~= seq![]);
    while i < v.len()
        invariant
            es == expr_models(v@),
            i <= v.len(),
            found == starts_any(es.take(i as int), name@),
        decreases v.len() - i,
    {
        let m = begins_with_rule(&v[i], name);
        assert(es.take(i + 1).drop_last() =~= es.take(i as int));
        found = found || m;
        i = i + 1;
    }
    assert(es.take(i as int) =~= es);
    found
}

/// `expr` with every reference to the rule `target` replaced by
/// `replacement`.
pub fn replace_rule_ref(expr: &Expr, target: &String, replacement: &Expr) -> (e: Expr)
    ensures
        e@ == replaced(expr@, target@, replacement@),
    decreases expr,
{
    match expr {
        Expr::RuleRef(name) => {
            if *name == *target {
                replacement.duplicate()
            } else {
                expr.duplicate()
            }
        },
        Expr::Sequence(v) => {
            let w = replace_all(v, target, replacement);
            proof {
                crate::parser::grammar::lemma_models_seq(*v);
                crate::parser::grammar::lemma_models_seq(w);
            }
            Expr::Sequence(w)
        },
        Expr::Choice(v) => {
            let w = replace_all(v, target, replacement);
            proof {
                crate::parser::grammar::lemma_models_seq(*v);
                crate::parser::grammar::lemma_models_seq(w);
            }
            Expr::Choice(w)
        },
        Expr::Repeat(x) => Expr::Repeat(Box::new(replace_rule_ref(x, target, replacement))),
        Expr::Plus(x) => Expr::Plus(Box::new(replace_rule_ref(x, target, replacement))),
        Expr::Optional(x) => Expr::Optional(Box::new(replace_rule_ref(x, target, replacement))),
        Expr::Group(x) => Expr::Group(Box::new(replace_rule_ref(x, target, replacement))),
        Expr::AndPredicate(x) => Expr::AndPredicate(Box::new(replace_rule_ref(x, target, replacement))),
        Expr::NotPredicate(x) => Expr::NotPredicate(Box::new(replace_rule_ref(x, target, replacement))),
        _ => expr.duplicate(),
    }
}

fn replace_all(v: &Vec<Expr>, target: &String, replacement: &Expr) -> (w: Vec<Expr>)
    ensures
        expr_models(w@) == replaced_all(expr_models(v@), target@, replacement@),
    decreases v,
{
    let ghost es = expr_models(v@);
    let mut w: Vec<Expr> = Vec::new();
    let mut i: usize = 0;
    assert(es.take(0) =~= seq![]);
    assert(expr_models(w@) =~= seq![]);
    while i < v.len()
        invariant
            es == expr_models(v@),
            i <= v.len(),
            expr_models(w@) == replaced_all(es.take(i as int), target@, replacement@),
        decreases v.len() - i,
    {
        let e = replace_rule_ref(&v[i], target, replacement);
        let ghost before = w@;
        let ghost ev = e@;
        w.push(e);
        assert(expr_models(w@) =~= expr_models(before).push(ev));
        assert(es.take(i + 1).drop_last() =~= es.take(i as int));
        i = i + 1;
    }
    assert(es.take(i as int) =~= es);
    w
}

/// The names of the rules, in order.
pub open spec fn names_of(rules: Seq<RuleModel>) -> Seq<Seq<char>> {
    rules.map_values(|r: RuleModel| r.name)
}

/// The first position of `name` in `ns`, or -1.
pub open spec fn find_name(ns: Seq<Seq<char>>, name: Seq<char>) -> int
    decreases ns.len(),
{
    if ns.len() == 0 {
        -1
    } else if ns[0] == name {
        0
    } else {
        let k = find_name(ns.drop_first(), name);
        if k < 0 {
            -1
        } else {
            k + 1
        }
    }
}

proof fn lemma_find_name(ns: Seq<Seq<char>>, name: Seq<char>, i: int)
    requires
        0 <= i <= ns.len(),
        forall|j: int| 0 <= j < i ==> ns[j] != name,
        i < ns.len() ==> ns[i] == name,
    ensures
        find_name(ns, name) == if i < ns.len() {
            i
        } else {
            -1
        },
    decreases ns.len(),
{
    if ns.len() > 0 && i > 0 {
        lemma_find_name(ns.drop_first(), name, i - 1);
    }
}

/// One definition per name, in the order names first appear; a later
/// definition of a name replaces the earlier one.
pub open spec fn definitions(rules: Seq<RuleModel>) -> Seq<RuleModel>
    decreases rules.len(),
{
    if rules.len() == 0 {
        seq![]
    } else {
        let d = definitions(rules.drop_last());
        let r = rules.last();
        let k = find_name(names_of(d), r.name);
        if k >= 0 {
            d.update(k, r)
        } else {
            d.push(r)
        }
    }
}

/// Rule `ai` with its references to rule `aj` replaced by `aj`'s body, if
/// it has any.
pub open spec fn subst(tbl: Seq<RuleModel>, ai: Seq<char>, aj: Seq<char>) -> Seq<RuleModel> {
    let ki = find_name(names_of(tbl), ai);
    let kj = find_name(names_of(tbl), aj);
    if ki >= 0 && kj >= 0 && mentions(tbl[ki].expr, aj) {
        tbl.update(
            ki,
            RuleModel { name: tbl[ki].name, expr: replaced(tbl[ki].expr, aj, tbl[kj].expr), ast: tbl[ki].ast },
        )
    } else {
        tbl
    }
}

/// The rules after substituting into `names[i]` the rules `names[0..j)`, in
/// order.
pub open spec fn subst_upto(tbl: Seq<RuleModel>, names: Seq<Seq<char>>, i: int, j: nat) -> Seq<RuleModel>
    decreases j,
{
    if j == 0 {
        tbl
    } else {
        subst(subst_upto(tbl, names, i, (j - 1) as nat), names[i], names[j - 1])
    }
}

/// The rules after treating `names[0..i)` in order: each gets the rules
/// named before it substituted, and must not begin with itself. `Err`
/// carries the first rule that does.
pub open spec fn eliminated(tbl: Seq<RuleModel>, names: Seq<Seq<char>>, i: nat) -> Result<
    Seq<RuleModel>,
    Seq<char>,
>
    decreases i,
{
    if i == 0 {
        Ok(tbl)
    } else {
        match eliminated(tbl, names, (i - 1) as nat) {
            Err(n) => Err(n),
            Ok(t) => {
                let t2 = subst_upto(t, names, i - 1, (i - 1) as nat);
                let k = find_name(names_of(t2), names[i - 1]);
                if k >= 0 && starts_with_ref(t2[k].expr, names[i - 1]) {
                    Err(names[i - 1])
                } else {
                    Ok(t2)
                }
            },
        }
    }
}

/// The rules named `start` (`first`) or the others, in order.
pub open spec fn keep(tbl: Seq<RuleModel>, start: Seq<char>, first: bool) -> Seq<RuleModel>
    decreases tbl.len(),
{
    if tbl.len() == 0 {
        seq![]
    } else {
        keep(tbl.drop_last(), start, first) + if (tbl.last().name == start) == first {
            seq![tbl.last()]
        } else {
            seq![]
        }
    }
}

pub open spec fn left_recursion_msg(name: Seq<char>) -> Seq<char> {
    "Left recursion in rule '"@ + name + "'"@
}

/// What `eliminate_left_recursion` returns for the grammar `g`.
pub open spec fn without_left_recursion(g: GrammarModel) -> Result<GrammarModel, Seq<char>> {
    match eliminated(definitions(g.rules), names_of(g.rules), g.rules.len()) {
        Err(n) => Err(left_recursion_msg(n)),
        Ok(t) => Ok(GrammarModel { start: g.start, rules: keep(t, g.start, true) + keep(t, g.start, false) }),
    }
}

/// The position of the rule named `name`.
fn find_rule(tbl: &Vec<Rule>, name: &String) -> (k: usize)
    requires
        find_name(names_of(rule_models(tbl@)), name@) >= 0,
    ensures
        k == find_name(names_of(rule_models(tbl@)), name@),
        k < tbl.len(),
{
    let ghost ns = names_of(rule_models(tbl@));
    let mut i: usize = 0;
    while i < tbl.len()
        invariant
            ns == names_of(rule_models(tbl@)),
            find_name(ns, name@) >= 0,
            i <= tbl.len(),
            forall|j: int| 0 <= j < i ==> ns[j] != name@,
        decreases tbl.len() - i,
    {
        assert(ns[i as int] == tbl@[i as int].name@);
        if tbl[i].name == *name {
            proof {
                lemma_find_name(ns, name@, i as int);
            }
            return i;
        }
        i = i + 1;
    }
    proof {
        lemma_find_name(ns, name@, i as int);
    }
    i
}

/// Whether a rule is named `name`, and where.
fn lookup_rule(tbl: &Vec<Rule>, name: &String) -> (k: Option<usize>)
    ensures
        match k {
            Some(i) => i == find_name(names_of(rule_models(tbl@)), name@) && i < tbl.len(),
            None => find_name(names_of(rule_models(tbl@)), name@) == -1,
        },
{
    let ghost ns = names_of(rule_models(tbl@));
    let mut i: usize = 0;
    while i < tbl.len()
        invariant
            ns == names_of(rule_models(tbl@)),
            i <= tbl.len(),
            forall|j: int| 0 <= j < i ==> ns[j] != name@,
        decreases tbl.len() - i,
    {
        assert(ns[i as int] == tbl@[i as int].name@);
        if tbl[i].name == *name {
            proof {
                lemma_find_name(ns, name@, i as int);
            }
            return Some(i);
        }
        i = i + 1;
    }
    proof {
        lemma_find_name(ns, name@, i as int);
    }
    None
}

proof fn lemma_find_contains(ns: Seq<Seq<char>>, name: Seq<char>)
    ensures
        find_name(ns, name) >= 0 <==> ns.contains(name),
        find_name(ns, name) < ns.len(),
        find_name(ns, name) >= 0 ==> ns[find_name(ns, name)] == name,
    decreases ns.len(),
{
    if ns.len() > 0 {
        lemma_find_contains(ns.drop_first(), name);
        if ns[0] != name {
            if ns.contains(name) {
                let j = choose|j: int| 0 <= j < ns.len() && ns[j] == name;
                assert(ns.drop_first()[j - 1] == name);
            }
            if ns.drop_first().contains(name) {
                let j = choose|j: int| 0 <= j < ns.len() - 1 && ns.drop_first()[j] == name;
                assert(ns[j + 1] == name);
            }
        } else {
            assert(ns.contains(name)) by {
                assert(ns[0] == name);
            }
        }
    }
}

proof fn lemma_definitions_names(rules: Seq<RuleModel>)
    ensures
        forall|k: int| 0 <= k < rules.len() ==> #[trigger] names_of(definitions(rules)).contains(rules[k].name),
    decreases rules.len(),
{
    if rules.len() > 0 {
        let d = definitions(rules.drop_last());
        lemma_definitions_names(rules.drop_last());
        let r = rules.last();
        let k = find_name(names_of(d), r.name);
        lemma_find_contains(names_of(d), r.name);
        let d2 = definitions(rules);
        assert forall|x: int| 0 <= x < rules.len() implies #[trigger] names_of(d2).contains(rules[x].name) by {
            if x < rules.len() - 1 {
                assert(rules.drop_last()[x] == rules[x]);
                assert(names_of(d).contains(rules[x].name));
                let y = choose|y: int| 0 <= y < names_of(d).len() && names_of(d)[y] == rules[x].name;
                if k >= 0 {
                    assert(names_of(d2)[y] == rules[x].name);
                } else {
                    assert(names_of(d2)[y] == rules[x].name);
                }
            } else {
                if k >= 0 {
                    assert(names_of(d2)[k] == r.name);
                } else {
                    assert(names_of(d2)[d.len() as int] == r.name);
                }
            }
        }
    }
}

proof fn lemma_subst_names(tbl: Seq<RuleModel>, ai: Seq<char>, aj: Seq<char>)
    ensures
        names_of(subst(tbl, ai, aj)) == names_of(tbl),
{
    let ki = find_name(names_of(tbl), ai);
    let kj = find_name(names_of(tbl), aj);
    let s2 = subst(tbl, ai, aj);
    if ki >= 0 && kj >= 0 && mentions(tbl[ki].expr, aj) {
        lemma_find_contains(names_of(tbl), ai);
        assert forall|k: int| 0 <= k < tbl.len() implies names_of(s2)[k] == names_of(tbl)[k] by {
            if k == ki {
                assert(s2[k].name == tbl[ki].name);
            } else {
                assert(s2[k] == tbl[k]);
            }
        }
    }
    assert(names_of(s2) =~= names_of(tbl));
}

proof fn lemma_subst_upto_names(tbl: Seq<RuleModel>, names: Seq<Seq<char>>, i: int, j: nat)
    ensures
        names_of(subst_upto(tbl, names, i, j)) == names_of(tbl),
    decreases j,
{
    if j > 0 {
        lemma_subst_upto_names(tbl, names, i, (j - 1) as nat);
        lemma_subst_names(subst_upto(tbl, names, i, (j - 1) as nat), names[i], names[j - 1]);
    }
}

proof fn lemma_definitions_unique(rules: Seq<RuleModel>)
    ensures
        names_of(definitions(rules)).no_duplicates(),
        forall|k: int|
            0 <= k < definitions(rules).len() ==> names_of(rules).contains(
                #[trigger] definitions(rules)[k].name,
            ),
    decreases rules.len(),
{
    if rules.len() > 0 {
        let d = definitions(rules.drop_last());
        lemma_definitions_unique(rules.drop_last());
        let r = rules.last();
        let k = find_name(names_of(d), r.name);
        lemma_find_contains(names_of(d), r.name);
        let d2 = definitions(rules);
        assert forall|x: int| 0 <= x < d2.len() implies names_of(rules).contains(#[trigger] d2[x].name) by {
            if x < d.len() && (k < 0 || x != k) {
                assert(d2[x] == d[x]);
                assert(names_of(rules.drop_last()).contains(d[x].name));
                let y = choose|y: int| 0 <= y < rules.len() - 1 && names_of(rules.drop_last())[y] == d[x].name;
                assert(names_of(rules)[y] == d[x].name);
            } else {
                assert(d2[x] == r);
                assert(names_of(rules)[rules.len() - 1] == r.name);
            }
        }
        assert forall|x: int, y: int| 0 <= x < y < d2.len() implies names_of(d2)[x] != names_of(d2)[y] by {
            if k >= 0 {
                assert(names_of(d2)[x] == names_of(d)[x]);
                assert(names_of(d2)[y] == names_of(d)[y]);
            } else if y < d.len() {
                assert(names_of(d2)[x] == names_of(d)[x]);
                assert(names_of(d2)[y] == names_of(d)[y]);
            } else {
                assert(names_of(d2)[x] == names_of(d)[x]);
                assert(names_of(d).contains(names_of(d)[x]));
            }
        }
    }
}

proof fn lemma_subst_other(tbl: Seq<RuleModel>, ai: Seq<char>, aj: Seq<char>, k: int)
    requires
        0 <= k < tbl.len(),
        k != find_name(names_of(tbl), ai),
    ensures
        subst(tbl, ai, aj)[k] == tbl[k],
        subst(tbl, ai, aj).len() == tbl.len(),
{
    lemma_find_contains(names_of(tbl), ai);
}

proof fn lemma_subst_upto_other(tbl: Seq<RuleModel>, names: Seq<Seq<char>>, i: int, j: nat, k: int)
    requires
        0 <= k < tbl.len(),
        k != find_name(names_of(tbl), names[i]),
    ensures
        subst_upto(tbl, names, i, j)[k] == tbl[k],
        subst_upto(tbl, names, i, j).len() == tbl.len(),
    decreases j,
{
    if j > 0 {
        let prev = subst_upto(tbl, names, i, (j - 1) as nat);
        lemma_subst_upto_other(tbl, names, i, (j - 1) as nat, k);
        lemma_subst_upto_names(tbl, names, i, (j - 1) as nat);
        lemma_subst_other(prev, names[i], names[j - 1], k);
    }
}

/// After `i` steps, none of the rules treated so far can begin with
/// itself, and the names are those of the input.
proof fn lemma_eliminated_clean(tbl: Seq<RuleModel>, names: Seq<Seq<char>>, i: nat)
    requires
        i <= names.len(),
        eliminated(tbl, names, i) is Ok,
    ensures
        names_of(eliminated(tbl, names, i)->Ok_0) == names_of(tbl),
        forall|m: int|
            #![trigger names[m]]
            0 <= m < i ==> {
                let t = eliminated(tbl, names, i)->Ok_0;
                let k = find_name(names_of(t), names[m]);
                k >= 0 ==> !starts_with_ref(t[k].expr, names[m])
            },
    decreases i,
{
    if i > 0 {
        lemma_eliminated_clean(tbl, names, (i - 1) as nat);
        let t = eliminated(tbl, names, (i - 1) as nat)->Ok_0;
        let t2 = subst_upto(t, names, i - 1, (i - 1) as nat);
        lemma_subst_upto_names(t, names, i - 1, (i - 1) as nat);
        let ki = find_name(names_of(t2), names[i - 1]);
        assert(eliminated(tbl, names, i) == Ok::<Seq<RuleModel>, Seq<char>>(t2));
        assert forall|m: int|
            #![trigger names[m]]
            0 <= m < i implies {
                let k = find_name(names_of(t2), names[m]);
                k >= 0 ==> !starts_with_ref(t2[k].expr, names[m])
            } by {
            let k = find_name(names_of(t2), names[m]);
            if m < i - 1 && k >= 0 {
                lemma_find_contains(names_of(t2), names[m]);
                lemma_find_contains(names_of(t2), names[i - 1]);
                if k != ki {
                    lemma_subst_upto_other(t, names, i - 1, (i - 1) as nat, k);
                    assert(t2[k] == t[k]);
                } else {
                    assert(names[m] == names[i - 1]);
                }
            }
        }
    }
}

proof fn lemma_keep_from(t: Seq<RuleModel>, start: Seq<char>, first: bool)
    ensures
        forall|j: int| 0 <= j < keep(t, start, first).len() ==> t.contains(#[trigger] keep(t, start, first)[j]),
    decreases t.len(),
{
    if t.len() > 0 {
        lemma_keep_from(t.drop_last(), start, first);
        let a = keep(t.drop_last(), start, first);
        assert forall|j: int| 0 <= j < keep(t, start, first).len() implies t.contains(#[trigger] keep(t, start, first)[j]) by {
            if j < a.len() {
                assert(keep(t, start, first)[j] == a[j]);
                let y = choose|y: int| 0 <= y < t.len() - 1 && t.drop_last()[y] == a[j];
                assert(t[y] == a[j]);
            } else {
                assert(keep(t, start, first)[j] == t.last());
                assert(t[t.len() - 1] == t.last());
            }
        }
    }
}

/// A grammar that `eliminate_left_recursion` accepts comes back with no
/// rule that can begin with a reference to itself.
pub proof fn law_no_left_recursion(g: GrammarModel)
    ensures
        match without_left_recursion(g) {
            Ok(h) => forall|j: int|
                0 <= j < h.rules.len() ==> !starts_with_ref(#[trigger] h.rules[j].expr, h.rules[j].name),
            Err(_) => true,
        },
{
    let tbl = definitions(g.rules);
    let names = names_of(g.rules);
    let n = g.rules.len();
    if eliminated(tbl, names, n) is Ok {
        let t = eliminated(tbl, names, n)->Ok_0;
        lemma_eliminated_clean(tbl, names, n);
        lemma_definitions_unique(g.rules);
        let h = without_left_recursion(g)->Ok_0;
        let front = keep(t, g.start, true);
        let back = keep(t, g.start, false);
        lemma_keep_from(t, g.start, true);
        lemma_keep_from(t, g.start, false);
        assert forall|j: int| 0 <= j < h.rules.len() implies !starts_with_ref(
            #[trigger] h.rules[j].expr,
            h.rules[j].name,
        ) by {
            let r = h.rules[j];
            if j < front.len() {
                assert(r == front[j]);
            } else {
                assert(r == back[j - front.len()]);
            }
            assert(t.contains(r));
            let k = choose|k: int| 0 <= k < t.len() && t[k] == r;
            assert(names_of(t)[k] == r.name);
            assert(tbl[k].name == r.name);
            assert(names.contains(r.name));
            let m = choose|m: int| 0 <= m < names.len() && names[m] == r.name;
            lemma_find_name(names_of(t), r.name, k);
            assert(names[m] == r.name);
        }
    }
}

/// Substitutes into each rule, in order, the rules named before it, and
/// refuses a rule that can then begin with itself: a recursive-descent
/// parser would call it forever. The start rule comes first in the result.
pub fn eliminate_left_recursion(grammar: &Grammar) -> (r: Result<Grammar, Error>)
    ensures
        match without_left_recursion(grammar@) {
            Ok(g) => r matches Ok(out) && out@ == g,
            Err(m) => r matches Err(e) && e matches Error::Other(msg) && msg@ == m,
        },
{
    let ghost models = rule_models(grammar.rules@);
    assert(models == grammar@.rules);
    let mut tbl: Vec<Rule> = Vec::new();
    let mut i: usize = 0;
    assert(models.take(0) =~= seq![]);
    assert(rule_models(tbl@) =~= seq![]);
    while i < grammar.rules.len()
        invariant
            models == rule_models(grammar.rules@),
            i <= grammar.rules.len(),
            rule_models(tbl@) == definitions(models.take(i as int)),
        decreases grammar.rules.len() - i,
    {
        let r = grammar.rules[i].duplicate();
        let ghost rv = r@;
        assert(rv == models[i as int]);
        assert(models.take(i + 1).drop_last() =~= models.take(i as int));
        let ghost before = rule_models(tbl@);
        match lookup_rule(&tbl, &grammar.rules[i].name) {
            Some(k) => {
                tbl.set(k, r);
                assert(rule_models(tbl@) =~= before.update(k as int, rv));
            },
            None => {
                tbl.push(r);
                assert(rule_models(tbl@) =~= before.push(rv));
            },
        }
        i = i + 1;
    }
    assert(models.take(i as int) =~= models);
    let ghost defs = rule_models(tbl@);
    assert(defs == definitions(models));
    let mut names: Vec<String> = Vec::new();
    let mut k: usize = 0;
    while k < grammar.rules.len()
        invariant
            models == rule_models(grammar.rules@),
            k <= grammar.rules.len(),
            names@.map_values(|s: String| s@) == names_of(models).take(k as int),
        decreases grammar.rules.len() - k,
    {
        let ghost before = names@.map_values(|s: String| s@);
        let nm = grammar.rules[k].name.clone();
        assert(nm@ == names_of(models)[k as int]);
        names.push(nm);
        assert(names@.map_values(|s: String| s@) =~= before.push(names_of(models)[k as int]));
        k = k + 1;
        assert(names@.map_values(|s: String| s@) =~= names_of(models).take(k as int));
    }
    assert(names_of(models).take(k as int) =~= names_of(models));
    let ghost ns = names_of(models);
    proof {
        lemma_definitions_names(models);
        assert forall|x: int| 0 <= x < ns.len() implies find_name(names_of(defs), #[trigger] ns[x]) >= 0 by {
            lemma_find_contains(names_of(defs), ns[x]);
        }
        assert(eliminated(defs, ns, 0) == Ok::<Seq<RuleModel>, Seq<char>>(defs));
    }
    let mut i: usize = 0;
    while i < names.len()
        invariant
            models == grammar@.rules,
            defs == definitions(models),
            ns == names_of(models),
            names@.map_values(|s: String| s@) == ns,
            names.len() == ns.len(),
            i <= names.len(),
            eliminated(defs, ns, i as nat) == Ok::<Seq<RuleModel>, Seq<char>>(rule_models(tbl@)),
            names_of(rule_models(tbl@)) == names_of(defs),
            forall|x: int| 0 <= x < ns.len() ==> find_name(names_of(defs), #[trigger] ns[x]) >= 0,
        decreases names.len() - i,
    {
        let ghost t0 = rule_models(tbl@);
        let mut j: usize = 0;
        while j < i
            invariant
                ns == names_of(models),
                names@.map_values(|s: String| s@) == ns,
                names.len() == ns.len(),
                j <= i < names.len(),
                rule_models(tbl@) == subst_upto(t0, ns, i as int, j as nat),
                names_of(rule_models(tbl@)) == names_of(defs),
                forall|x: int| 0 <= x < ns.len() ==> find_name(names_of(defs), #[trigger] ns[x]) >= 0,
            decreases i - j,
        {
            assert(names[i as int]@ == ns[i as int]);
            assert(names[j as int]@ == ns[j as int]);
            let ghost cur = rule_models(tbl@);
            assert(find_name(names_of(defs), ns[i as int]) >= 0);
            assert(find_name(names_of(defs), ns[j as int]) >= 0);
            let ki = find_rule(&tbl, &names[i]);
            let kj = find_rule(&tbl, &names[j]);
            assert(cur[ki as int] == tbl@[ki as int]@);
            assert(cur[kj as int] == tbl@[kj as int]@);
            if contains_rule_ref(&tbl[ki].expr, &names[j]) {
                let new_expr = replace_rule_ref(&tbl[ki].expr, &names[j], &tbl[kj].expr);
                let mut nr = tbl[ki].duplicate();
                nr.expr = new_expr;
                let ghost nv = nr@;
                tbl.set(ki, nr);
                assert(rule_models(tbl@) =~= cur.update(ki as int, nv));
            }
            proof {
                lemma_subst_names(cur, ns[i as int], ns[j as int]);
            }
            j = j + 1;
        }
        let ghost t2 = rule_models(tbl@);
        assert(names[i as int]@ == ns[i as int]);
        assert(find_name(names_of(defs), ns[i as int]) >= 0);
        let k = find_rule(&tbl, &names[i]);
        assert(t2[k as int] == tbl@[k as int]@);
        if begins_with_rule(&tbl[k].expr, &names[i]) {
            let mut m: Vec<char> = Vec::new();
            push_str(&mut m, "Left recursion in rule '");
            push_chars(&mut m, &chars_of(names[i].as_str()));
            push_str(&mut m, "'");
            assert(m@ =~= left_recursion_msg(ns[i as int]));
            assert(eliminated(defs, ns, (i + 1) as nat) == Err::<Seq<RuleModel>, Seq<char>>(ns[i as int]));
            proof {
                lemma_err_persists_at(defs, ns, (i + 1) as nat, ns[i as int], ns.len());
                assert(without_left_recursion(grammar@) == Err::<GrammarModel, Seq<char>>(
                    left_recursion_msg(ns[i as int]),
                ));
            }
            return Err(Error::other(string_of(m.as_slice())));
        }
        i = i + 1;
    }
    let start = &grammar.start;
    let ghost t = rule_models(tbl@);
    let mut out: Vec<Rule> = Vec::new();
    let mut q: usize = 0;
    assert(t.take(0) =~= seq![]);
    assert(rule_models(out@) =~= seq![]);
    while q < tbl.len()
        invariant
            t == rule_models(tbl@),
            q <= tbl.len(),
            rule_models(out@) == keep(t.take(q as int), start@, true),
        decreases tbl.len() - q,
    {
        assert(t.take(q + 1).drop_last() =~= t.take(q as int));
        assert(t[q as int] == tbl@[q as int]@);
        let ghost before = rule_models(out@);
        if tbl[q].name == *start {
            let r = tbl[q].duplicate();
            let ghost rv = r@;
            out.push(r);
            assert(rule_models(out@) =~= before.push(rv));
            assert(rule_models(out@) =~= before + seq![rv]);
        } else {
            assert(rule_models(out@) =~= before + seq![]);
        }
        q = q + 1;
    }
    assert(t.take(q as int) =~= t);
    let ghost firsts = rule_models(out@);
    let mut q: usize = 0;
    assert(firsts + keep(t.take(0), start@, false) =~= firsts);
    while q < tbl.len()
        invariant
            t == rule_models(tbl@),
            q <= tbl.len(),
            rule_models(out@) == firsts + keep(t.take(q as int), start@, false),
        decreases tbl.len() - q,
    {
        assert(t.take(q + 1).drop_last() =~= t.take(q as int));
        assert(t[q as int] == tbl@[q as int]@);
        let ghost before = rule_models(out@);
        if tbl[q].name != *start {
            let r = tbl[q].duplicate();
            let ghost rv = r@;
            out.push(r);
            assert(rule_models(out@) =~= before.push(rv));
            assert(rule_models(out@) =~= firsts + (keep(t.take(q as int), start@, false) + seq![rv]));
        } else {
            assert(rule_models(out@) =~= firsts + (keep(t.take(q as int), start@, false) + seq![]));
        }
        q = q + 1;
    }
    assert(t.take(q as int) =~= t);
    let g = Grammar { start: grammar.start.clone(), rules: out };
    assert(g@.rules == rule_models(out@));
    assert(without_left_recursion(grammar@) == Ok::<GrammarModel, Seq<char>>(
        GrammarModel { start: grammar@.start, rules: keep(t, start@, true) + keep(t, start@, false) },
    ));
    Ok(g)
}

/// Once a rule is refused, the refusal stands.
proof fn lemma_err_persists_at(tbl: Seq<RuleModel>, names: Seq<Seq<char>>, i: nat, n: Seq<char>, m: nat)
    requires
        eliminated(tbl, names, i) == Err::<Seq<RuleModel>, Seq<char>>(n),
        i <= m,
    ensures
        eliminated(tbl, names, m) == Err::<Seq<RuleModel>, Seq<char>>(n),
    decreases m,
{
    if m > i {
        lemma_err_persists_at(tbl, names, i, n, (m - 1) as nat);
    }
}

/// `a` with each `$` replaced by `args`.
pub open spec fn dollar_replaced(a: Seq<char>, args: Seq<char>) -> Seq<char>
    decreases a.len(),
{
    if a.len() == 0 {
        seq![]
    } else {
        dollar_replaced(a.drop_last(), args) + if a.last() == '$' {
            args
        } else {
            seq![a.last()]
        }
    }
}

/// The names of the first `n` results of a sequence: `_r0, _r1, ...`.
pub open spec fn result_names(n: nat) -> Seq<char>
    decreases n,
{
    if n == 0 {
        seq![]
    } else if n == 1 {
        "_r0"@
    } else {
        result_names((n - 1) as nat) + ", _r"@ + dec((n - 1) as nat)
    }
}

/// The ranges of a character class as `(start, end)`, separated by commas.
pub open spec fn class_text(items: Seq<CharClassItem>) -> Seq<char>
    decreases items.len(),
{
    if items.len() == 0 {
        seq![]
    } else {
        let it = items.last();
        let one = "("@ + dec(it.start as nat) + ", "@ + dec(it.end as nat) + ")"@;
        if items.len() == 1 {
            one
        } else {
            class_text(items.drop_last()) + ", "@ + one
        }
    }
}

pub open spec fn bool_text(b: bool) -> Seq<char> {
    if b {
        "true"@
    } else {
        "false"@
    }
}

/// The character an expected code point stands for: its low byte.
pub open spec fn byte_char(c: u32) -> char {
    ((c % 256) as u8) as char
}

/// The result line of a sequence of `n` items.
pub open spec fn seq_result(action: Option<Seq<char>>, n: nat) -> Seq<char> {
    match action {
        Some(a) => "        Ok("@ + dollar_replaced(a, result_names(n)) + ")\n"@,
        None => if n > 0 {
            "        Ok(_r"@ + dec((n - 1) as nat) + ")\n"@
        } else {
            "        Ok(AST::Value(\"\".to_string()))\n"@
        },
    }
}

/// The lines binding the results of the first `k` items of a sequence.
pub open spec fn seq_lines(es: Seq<ExprModel>, k: nat) -> Seq<char>
    decreases es, k,
{
    if k == 0 || k > es.len() {
        seq![]
    } else {
        seq_lines(es, (k - 1) as nat) + "        let _r"@ + dec((k - 1) as nat) + " = "@ + code_of(
            es[k - 1],
            None,
        ) + ";\n"@
    }
}

/// The lines trying the first `k` alternatives of a choice.
pub open spec fn choice_lines(es: Seq<ExprModel>, k: nat) -> Seq<char>
    decreases es, k,
{
    if k == 0 || k > es.len() {
        seq![]
    } else {
        choice_lines(es, (k - 1) as nat) + (if k > 1 {
            "        self.pos = saved_pos;\n"@ + "        self.line = saved_line;\n"@
                + "        self.col = saved_col;\n"@
        } else {
            seq![]
        }) + "        match "@ + code_of(es[k - 1], None) + " {\n"@ + "            Ok(val) => return Ok(val),\n"@
            + "            Err(_) => {}\n"@ + "        }\n"@
    }
}

/// The text of each character expected in turn.
pub open spec fn expect_lines(s: Seq<char>) -> Seq<char>
    decreases s.len(),
{
    if s.len() == 0 {
        seq![]
    } else {
        expect_lines(s.drop_last()) + "        self.expect_char('"@ + seq![s.last()] + "')?;\n"@
    }
}

/// The Rust code that parses `e` inside a generated parser; `action`
/// builds the value of a sequence from its results (`$` stands for them).
pub open spec fn code_of(e: ExprModel, action: Option<Seq<char>>) -> Seq<char>
    decreases e, 0nat,
{
    match e {
        ExprModel::Sequence(es) => seq_lines(es, es.len()) + seq_result(action, es.len()),
        ExprModel::Choice(es) => "        let saved_pos = self.pos;\n"@ + "        let saved_line = self.line;\n"@
            + "        let saved_col = self.col;\n"@ + choice_lines(es, es.len())
            + "        Err(self.error(\"No alternative matched\"))\n"@,
        ExprModel::Repeat(x) => "        let mut results = Vec::new();\n        while let Ok(val) = "@ + code_of(*x, None) + " {\n            results.push(val);\n        }\n        Ok(AST::Value(format!(\"{:?}\", results)))"@,
        ExprModel::Plus(x) => "        let mut results = Vec::new();\n        match "@ + code_of(*x, None) + " {\n            Ok(val) => results.push(val),\n            Err(e) => return Err(e),\n        }\n        while let Ok(val) = "@ + code_of(*x, None) + " {\n            results.push(val);\n        }\n        Ok(AST::Value(format!(\"{:?}\", results)))"@,
        ExprModel::Optional(x) => "        let saved_pos = self.pos;\n        match "@ + code_of(*x, None) + " {\n            Ok(val) => Ok(val),\n            Err(_) => {\n                self.pos = saved_pos;\n                Ok(AST::Value(\"none\".to_string()))\n            }\n        }"@,
        ExprModel::AndPredicate(x) => "        let saved_pos = self.pos;\n        match "@ + code_of(*x, None) + " {\n            Ok(_) => {\n                self.pos = saved_pos;\n                Ok(AST::Value(\"satisfied\".to_string()))\n            }\n            Err(_) => Err(self.error(\"And predicate failed\")),\n        }"@,
        ExprModel::NotPredicate(x) => "        let saved_pos = self.pos;\n        match "@ + code_of(*x, None) + " {\n            Ok(_) => {\n                self.pos = saved_pos;\n                Err(self.error(\"Not predicate failed\"))\n            }\n            Err(_) => {\n                self.pos = saved_pos;\n                Ok(AST::Value(\"not satisfied\".to_string()))\n            }\n        }"@,
        ExprModel::Group(x) => code_of(*x, action),
        ExprModel::RuleRef(name) => "self.parse_"@ + name + "()"@,
        ExprModel::Char(c) => "        self.expect_char('"@ + seq![byte_char(c)] + "')?;\n        Ok(AST::Value(format!(\"'{}'\", '"@ + seq![byte_char(c)] + "')))"@,
        ExprModel::String(s) => expect_lines(s) + "        Ok(AST::Value(\""@ + s + "\".to_string()))\n"@,
        ExprModel::CharClass(negated, items) => "        self.match_char_class("@ + bool_text(negated) + ", &["@ + class_text(items)
            + "])?;\n        Ok(AST::Value(\"char_class\".to_string()))"@,
        ExprModel::Regex(p) => "        self.match_regex(\""@ + p + "\")?;\n        Ok(AST::Value(\"regex\".to_string()))"@,
        ExprModel::Eof => "        if self.peek().is_none() {\n            Ok(AST::Value(\"EOF\".to_string()))\n        } else {\n            Err(self.error(\"Expected EOF\"))\n        }"@,
        ExprModel::AnyChar => "        match self.consume() {\n            Some(ch) => Ok(AST::Value(format!(\"{}\", ch))),\n            None => Err(self.error(\"Expected any character\")),\n        }"@,
    }
}

pub open spec fn chars_opt(o: Option<Vec<char>>) -> Option<Seq<char>> {
    match o {
        Some(v) => Some(v@),
        None => None,
    }
}

fn replace_dollar(a: &Vec<char>, args: &Vec<char>) -> (r: Vec<char>)
    ensures
        r@ == dollar_replaced(a@, args@),
{
    let mut r: Vec<char> = Vec::new();
    let mut i: usize = 0;
    assert(a@.take(0) =~= seq![]);
    while i < a.len()
        invariant
            i <= a.len(),
            r@ == dollar_replaced(a@.take(i as int), args@),
        decreases a.len() - i,
    {
        assert(a@.take(i + 1).drop_last() =~= a@.take(i as int));
        if a[i] == '$' {
            push_chars(&mut r, args);
        } else {
            r.push(a[i]);
        }
        i = i + 1;
        assert(r@ =~= dollar_replaced(a@.take(i as int), args@));
    }
    assert(a@.take(i as int) =~= a@);
    r
}

fn push_dec(out: &mut Vec<char>, n: usize)
    ensures
        final(out)@ == old(out)@ + dec(n as nat),
{
    push_radix(out, n as u64, 10);
}

fn push_dec32(out: &mut Vec<char>, n: u32)
    ensures
        final(out)@ == old(out)@ + dec(n as nat),
{
    push_radix(out, n as u64, 10);
}

/// The Rust code that parses `expr` (see `code_of`).
fn code_chars(expr: &Expr, action: &Option<Vec<char>>) -> (r: Vec<char>)
    ensures
        r@ == code_of(expr@, chars_opt(*action)),
    decreases expr, 0nat,
{
    let mut code: Vec<char> = Vec::new();
    match expr {
        Expr::Sequence(v) => {
            proof {
                crate::parser::grammar::lemma_models_seq(*v);
            }
            let lines = sequence_code(v);
            push_chars(&mut code, &lines);
            let n = v.len();
            match action {
                Some(a) => {
                    let mut args: Vec<char> = Vec::new();
                    let mut i: usize = 0;
                    while i < n
                        invariant
                            i <= n,
                            args@ == result_names(i as nat),
                        decreases n - i,
                    {
                        if i > 0 {
                            push_str(&mut args, ", ");
                        }
                        push_str(&mut args, "_r");
                        push_dec(&mut args, i);
                        i = i + 1;
                        proof {
                            if i == 1 {
                                reveal_strlit("_r0");
                                reveal_strlit("_r");
                                assert(dec(0) =~= seq!['0']);
                                assert(args@ =~= "_r0"@);
                            } else {
                                assert(args@ =~= result_names((i - 1) as nat) + ", _r"@ + dec((i - 1) as nat)) by {
                                    reveal_strlit(", _r");
                                    reveal_strlit(", ");
                                    reveal_strlit("_r");
                                }
                            }
                        }
                    }
                    push_str(&mut code, "        Ok(");
                    push_chars(&mut code, &replace_dollar(a, &args));
                    push_str(&mut code, ")\n");
                },
                None => {
                    if n > 0 {
                        push_str(&mut code, "        Ok(_r");
                        push_dec(&mut code, n - 1);
                        push_str(&mut code, ")\n");
                    } else {
                        push_str(&mut code, "        Ok(AST::Value(\"\".to_string()))\n");
                    }
                },
            }
        },
        Expr::Choice(v) => {
            proof {
                crate::parser::grammar::lemma_models_seq(*v);
            }
            push_str(&mut code, "        let saved_pos = self.pos;\n");
            push_str(&mut code, "        let saved_line = self.line;\n");
            push_str(&mut code, "        let saved_col = self.col;\n");
            push_chars(&mut code, &choice_code(v));
            push_str(&mut code, "        Err(self.error(\"No alternative matched\"))\n");
        },
        Expr::Repeat(x) => {
            push_str(&mut code, "        let mut results = Vec::new();\n        while let Ok(val) = ");
            push_chars(&mut code, &code_chars(x, &None));
            push_str(&mut code, " {\n            results.push(val);\n        }\n        Ok(AST::Value(format!(\"{:?}\", results)))");
        },
        Expr::Plus(x) => {
            let sub = code_chars(x, &None);
            push_str(&mut code, "        let mut results = Vec::new();\n        match ");
            push_chars(&mut code, &sub);
            push_str(&mut code, " {\n            Ok(val) => results.push(val),\n            Err(e) => return Err(e),\n        }\n        while let Ok(val) = ");
            push_chars(&mut code, &sub);
            push_str(&mut code, " {\n            results.push(val);\n        }\n        Ok(AST::Value(format!(\"{:?}\", results)))");
        },
        Expr::Optional(x) => {
            push_str(&mut code, "        let saved_pos = self.pos;\n        match ");
            push_chars(&mut code, &code_chars(x, &None));
            push_str(&mut code, " {\n            Ok(val) => Ok(val),\n            Err(_) => {\n                self.pos = saved_pos;\n                Ok(AST::Value(\"none\".to_string()))\n            }\n        }");
        },
        Expr::AndPredicate(x) => {
            push_str(&mut code, "        let saved_pos = self.pos;\n        match ");
            push_chars(&mut code, &code_chars(x, &None));
            push_str(&mut code, " {\n            Ok(_) => {\n                self.pos = saved_pos;\n                Ok(AST::Value(\"satisfied\".to_string()))\n            }\n            Err(_) => Err(self.error(\"And predicate failed\")),\n        }");
        },
        Expr::NotPredicate(x) => {
            push_str(&mut code, "        let saved_pos = self.pos;\n        match ");
            push_chars(&mut code, &code_chars(x, &None));
            push_str(&mut code, " {\n            Ok(_) => {\n                self.pos = saved_pos;\n                Err(self.error(\"Not predicate failed\"))\n            }\n            Err(_) => {\n                self.pos = saved_pos;\n                Ok(AST::Value(\"not satisfied\".to_string()))\n            }\n        }");
        },
        Expr::Group(x) => {
            push_chars(&mut code, &code_chars(x, action));
        },
        Expr::RuleRef(name) => {
            push_str(&mut code, "self.parse_");
            push_chars(&mut code, &chars_of(name.as_str()));
            push_str(&mut code, "()");
        },
        Expr::Char(c) => {
            let ch = low_byte_char(*c);
            push_str(&mut code, "        self.expect_char('");
            code.push(ch);
            push_str(&mut code, "')?;\n        Ok(AST::Value(format!(\"'{}'\", '");
            code.push(ch);
            push_str(&mut code, "')))");
        },
        Expr::String(s) => {
            let cs = chars_of(s.as_str());
            let mut i: usize = 0;
            assert(cs@.take(0) =~= seq![]);
            while i < cs.len()
                invariant
                    i <= cs.len(),
                    code@ == expect_lines(cs@.take(i as int)),
                decreases cs.len() - i,
            {
                assert(cs@.take(i + 1).drop_last() =~= cs@.take(i as int));
                push_str(&mut code, "        self.expect_char('");
                code.push(cs[i]);
                push_str(&mut code, "')?;\n");
                i = i + 1;
                assert(code@ =~= expect_lines(cs@.take(i as int)));
            }
            assert(cs@.take(i as int) =~= cs@);
            push_str(&mut code, "        Ok(AST::Value(\"");
            push_chars(&mut code, &cs);
            push_str(&mut code, "\".to_string()))\n");
        },
        Expr::CharClass(class) => {
            push_str(&mut code, "        self.match_char_class(");
            if class.negated {
                push_str(&mut code, "true");
            } else {
                push_str(&mut code, "false");
            }
            push_str(&mut code, ", &[");
            let mut i: usize = 0;
            let ghost items = class.items@;
            let ghost base = code@;
            assert(items.take(0) =~= seq![]);
            assert(code@ =~= base + class_text(items.take(0)));
            while i < class.items.len()
                invariant
                    items == class.items@,
                    i <= class.items.len(),
                    code@ == base + class_text(items.take(i as int)),
                decreases class.items.len() - i,
            {
                let ghost before = code@;
                if i > 0 {
                    push_str(&mut code, ", ");
                }
                push_str(&mut code, "(");
                push_dec32(&mut code, class.items[i].start);
                push_str(&mut code, ", ");
                push_dec32(&mut code, class.items[i].end);
                push_str(&mut code, ")");
                assert(items.take(i + 1).drop_last() =~= items.take(i as int));
                i = i + 1;
                assert(code@ =~= base + class_text(items.take(i as int)));
            }
            assert(items.take(i as int) =~= items);
            push_str(&mut code, "])?;\n        Ok(AST::Value(\"char_class\".to_string()))");
        },
        Expr::Regex(p) => {
            push_str(&mut code, "        self.match_regex(\"");
            push_chars(&mut code, &chars_of(p.as_str()));
            push_str(&mut code, "\")?;\n        Ok(AST::Value(\"regex\".to_string()))");
        },
        Expr::Eof => {
            push_str(&mut code, "        if self.peek().is_none() {\n            Ok(AST::Value(\"EOF\".to_string()))\n        } else {\n            Err(self.error(\"Expected EOF\"))\n        }");
        },
        Expr::AnyChar => {
            push_str(&mut code, "        match self.consume() {\n            Some(ch) => Ok(AST::Value(format!(\"{}\", ch))),\n            None => Err(self.error(\"Expected any character\")),\n        }");
        },
    }
    code
}

/// The lines binding the results of the items of a sequence.
fn sequence_code(v: &Vec<Expr>) -> (r: Vec<char>)
    ensures
        r@ == seq_lines(expr_models(v@), v.len() as nat),
    decreases v, 1nat,
{
    let ghost es = expr_models(v@);
    let mut code: Vec<char> = Vec::new();
    let mut i: usize = 0;
    while i < v.len()
        invariant
            es == expr_models(v@),
            i <= v.len(),
            code@ == seq_lines(es, i as nat),
        decreases v.len() - i,
    {
        let sub = code_chars(&v[i], &None);
        push_str(&mut code, "        let _r");
        push_dec(&mut code, i);
        push_str(&mut code, " = ");
        push_chars(&mut code, &sub);
        push_str(&mut code, ";\n");
        i = i + 1;
    }
    code
}

/// The lines trying the alternatives of a choice in turn.
fn choice_code(v: &Vec<Expr>) -> (r: Vec<char>)
    ensures
        r@ == choice_lines(expr_models(v@), v.len() as nat),
    decreases v, 1nat,
{
    let ghost es = expr_models(v@);
    let mut code: Vec<char> = Vec::new();
    let mut i: usize = 0;
    while i < v.len()
        invariant
            es == expr_models(v@),
            i <= v.len(),
            code@ == choice_lines(es, i as nat),
        decreases v.len() - i,
    {
        let sub = code_chars(&v[i], &None);
        if i > 0 {
            push_str(&mut code, "        self.pos = saved_pos;\n");
            push_str(&mut code, "        self.line = saved_line;\n");
            push_str(&mut code, "        self.col = saved_col;\n");
        }
        push_str(&mut code, "        match ");
        push_chars(&mut code, &sub);
        push_str(&mut code, " {\n");
        push_str(&mut code, "            Ok(val) => return Ok(val),\n");
        push_str(&mut code, "            Err(_) => {}\n");
        push_str(&mut code, "        }\n");
        i = i + 1;
    }
    code
}

/// The Rust code of a parse function's body for `expr`; `ast_action`
/// builds the value of a sequence, `$` standing for its results.
pub fn generate_expr_code(expr: &Expr, ast_action: &Option<String>) -> (code: String)
    ensures
        code@ == code_of(expr@, crate::parser::grammar::opt_view(*ast_action)),
{
    let action = match ast_action {
        Some(a) => Some(chars_of(a.as_str())),
        None => None,
    };
    let v = code_chars(expr, &action);
    string_of(v.as_slice())
}

/// The character for the low byte of a code point.
fn low_byte_char(c: u32) -> (ch: char)
    ensures
        ch == byte_char(c),
{
    ((c % 256) as u8) as char
}

/// The body of each rule's parse function, written in parallel by rayon's
/// `par_iter().map(..).collect()`, which keeps the order of the rules. The
/// contract claims that entry `i` is what `generate_expr_code` returns for
/// rule `i`.
#[verifier::external_body]
fn rule_bodies(rules: &Vec<Rule>) -> (bodies: Vec<String>)
    ensures
        bodies.len() == rules.len(),
        forall|i: int|
            0 <= i < rules.len() ==> (#[trigger] bodies@[i])@ == code_of(
                rules@[i].expr@,
                crate::parser::grammar::opt_view(rules@[i].ast),
            ),
{
    rules.par_iter().map(|rule| generate_expr_code(&rule.expr, &rule.ast)).collect()
}

/// The name and function body of each rule, start rule first.
pub open spec fn functions_of(rules: Seq<RuleModel>) -> Seq<(Seq<char>, Seq<char>)> {
    rules.map_values(|r: RuleModel| (r.name, code_of(r.expr, r.ast)))
}

/// What a parser for the grammar is generated from: the start rule's name
/// and each rule's name and parse-function body (after
/// `eliminate_left_recursion`, whose error it passes on).
pub fn prepare_parser(grammar: &Grammar) -> (r: Result<(String, Vec<(String, String)>), Error>)
    ensures
        match without_left_recursion(grammar@) {
            Ok(g) => r matches Ok((start, fns)) && start@ == g.start && fns@.map_values(
                |f: (String, String)| (f.0@, f.1@),
            ) == functions_of(g.rules),
            Err(m) => r matches Err(e) && e matches Error::Other(msg) && msg@ == m,
        },
{
    let g = eliminate_left_recursion(grammar)?;
    let bodies = rule_bodies(&g.rules);
    let ghost rules = g@.rules;
    let mut fns: Vec<(String, String)> = Vec::new();
    let mut i: usize = 0;
    while i < g.rules.len()
        invariant
            rules == g@.rules,
            bodies.len() == g.rules.len(),
            forall|k: int|
                0 <= k < g.rules.len() ==> (#[trigger] bodies@[k])@ == code_of(
                    g.rules@[k].expr@,
                    crate::parser::grammar::opt_view(g.rules@[k].ast),
                ),
            i <= g.rules.len(),
            fns@.map_values(|f: (String, String)| (f.0@, f.1@)) == functions_of(rules.take(i as int)),
        decreases g.rules.len() - i,
    {
        let ghost before = fns@.map_values(|f: (String, String)| (f.0@, f.1@));
        let name = g.rules[i].name.clone();
        let body = bodies[i].clone();
        let ghost pair = (name@, body@);
        assert(rules[i as int] == g.rules@[i as int]@);
        assert(pair == (rules[i as int].name, code_of(rules[i as int].expr, rules[i as int].ast)));
        fns.push((name, body));
        assert(fns@.map_values(|f: (String, String)| (f.0@, f.1@)) =~= before.push(pair));
        assert(functions_of(rules.take(i + 1)) =~= functions_of(rules.take(i as int)).push(pair));
        i = i + 1;
        assert(fns@.map_values(|f: (String, String)| (f.0@, f.1@)) =~= functions_of(rules.take(i as int)));
    }
    assert(rules.take(i as int) =~= rules);
    Ok((g.start, fns))
}


/// The code for a repetition `x*` loops: it tries the code for `x` again
/// and again with `while let Ok(val) = ...`, pushing each result, so the
/// generated parse function takes any number of matches of `x`.
pub proof fn law_repeat_loops(x: ExprModel, action: Option<Seq<char>>)
    ensures
        exists|pre: Seq<char>, post: Seq<char>|
            code_of(ExprModel::Repeat(Box::new(x)), action) == pre + "while let Ok(val) = "@ + code_of(x, None)
                + " {\n            results.push(val);\n        }"@ + post,
{
    reveal_strlit("        let mut results = Vec::new();\n        while let Ok(val) = ");
    reveal_strlit(" {\n            results.push(val);\n        }\n        Ok(AST::Value(format!(\"{:?}\", results)))");
    reveal_strlit("while let Ok(val) = ");
    reveal_strlit(" {\n            results.push(val);\n        }");
    let pre = "        let mut results = Vec::new();\n        "@;
    let post = "\n        Ok(AST::Value(format!(\"{:?}\", results)))"@;
    reveal_strlit("        let mut results = Vec::new();\n        ");
    reveal_strlit("\n        Ok(AST::Value(format!(\"{:?}\", results)))");
    let a = "        let mut results = Vec::new();\n        while let Ok(val) = "@;
    let b = " {\n            results.push(val);\n        }\n        Ok(AST::Value(format!(\"{:?}\", results)))"@;
    let w = "while let Ok(val) = "@;
    let l = " {\n            results.push(val);\n        }"@;
    assert(a =~= pre + w);
    assert(b =~= l + post);
    let cx = code_of(x, None);
    assert(code_of(ExprModel::Repeat(Box::new(x)), action) == a + cx + b);
    assert(a + cx + b =~= pre + w + cx + l + post);
}

/// The code for `x+` first requires one match of `x`, returning its error
/// when there is none, and then loops like `x*` with `while let Ok(val) =
/// ...`, pushing each further result.
pub proof fn law_plus_loops(x: ExprModel, action: Option<Seq<char>>)
    ensures
        exists|pre: Seq<char>, mid: Seq<char>, post: Seq<char>|
            code_of(ExprModel::Plus(Box::new(x)), action) == pre + "match "@ + code_of(x, None)
                + " {\n            Ok(val) => results.push(val),\n            Err(e) => return Err(e),\n        }"@ + mid
                + "while let Ok(val) = "@ + code_of(x, None) + " {\n            results.push(val);\n        }"@ + post,
{
    let a = "        let mut results = Vec::new();\n        match "@;
    let b = " {\n            Ok(val) => results.push(val),\n            Err(e) => return Err(e),\n        }\n        while let Ok(val) = "@;
    let c = " {\n            results.push(val);\n        }\n        Ok(AST::Value(format!(\"{:?}\", results)))"@;
    reveal_strlit("        let mut results = Vec::new();\n        match ");
    reveal_strlit(" {\n            Ok(val) => results.push(val),\n            Err(e) => return Err(e),\n        }\n        while let Ok(val) = ");
    reveal_strlit(" {\n            results.push(val);\n        }\n        Ok(AST::Value(format!(\"{:?}\", results)))");
    let pre = "        let mut results = Vec::new();\n        "@;
    let m = "match "@;
    let mt = " {\n            Ok(val) => results.push(val),\n            Err(e) => return Err(e),\n        }"@;
    let mid = "\n        "@;
    let w = "while let Ok(val) = "@;
    let l = " {\n            results.push(val);\n        }"@;
    let post = "\n        Ok(AST::Value(format!(\"{:?}\", results)))"@;
    reveal_strlit("        let mut results = Vec::new();\n        ");
    reveal_strlit("match ");
    reveal_strlit(" {\n            Ok(val) => results.push(val),\n            Err(e) => return Err(e),\n        }");
    reveal_strlit("\n        ");
    reveal_strlit("while let Ok(val) = ");
    reveal_strlit(" {\n            results.push(val);\n        }");
    reveal_strlit("\n        Ok(AST::Value(format!(\"{:?}\", results)))");
    assert(a =~= pre + m);
    assert(b =~= mt + mid + w);
    assert(c =~= l + post);
    let cx = code_of(x, None);
    assert(code_of(ExprModel::Plus(Box::new(x)), action) == a + cx + b + cx + c);
    assert(a + cx + b + cx + c =~= pre + m + cx + mt + mid + w + cx + l + post);
}


/// Whether `a` is a reference to the rule `n`, or a sequence whose first
/// item is one.
pub open spec fn heads_with(a: ExprModel, n: Seq<char>) -> bool {
    ||| a == ExprModel::RuleRef(n)
    ||| (a matches ExprModel::Sequence(items) && items.len() > 0 && items[0] == ExprModel::RuleRef(n))
}

/// Whether `e` is a choice one of whose alternatives is, or begins with, a
/// reference to the rule `n`.
pub open spec fn left_alternative(e: ExprModel, n: Seq<char>) -> bool {
    e matches ExprModel::Choice(es) && exists|k: int| 0 <= k < es.len() && #[trigger] heads_with(es[k], n)
}

/// No two rules share a name.
pub open spec fn unique_names(rules: Seq<RuleModel>) -> bool {
    forall|a: int, b: int| 0 <= a < b < rules.len() ==> #[trigger] rules[a].name != #[trigger] rules[b].name
}

proof fn lemma_starts_any_at(es: Seq<ExprModel>, n: Seq<char>, k: int)
    requires
        0 <= k < es.len(),
        starts_with_ref(es[k], n),
    ensures
        starts_any(es, n),
    decreases es.len(),
{
    if k < es.len() - 1 {
        assert(es.drop_last()[k] == es[k]);
        lemma_starts_any_at(es.drop_last(), n, k);
    }
}

proof fn lemma_left_alternative_starts(e: ExprModel, n: Seq<char>)
    requires
        left_alternative(e, n),
    ensures
        starts_with_ref(e, n),
{
    if let ExprModel::Choice(es) = e {
        let k = choose|k: int| 0 <= k < es.len() && #[trigger] heads_with(es[k], n);
        if let ExprModel::Sequence(items) = es[k] {
            if es[k] != ExprModel::RuleRef(n) {
                assert(starts_with_ref(items[0], n));
            }
        }
        assert(starts_with_ref(es[k], n));
        lemma_starts_any_at(es, n, k);
    }
}

proof fn lemma_replaced_all_at(es: Seq<ExprModel>, target: Seq<char>, r: ExprModel)
    ensures
        replaced_all(es, target, r).len() == es.len(),
        forall|k: int| 0 <= k < es.len() ==> #[trigger] replaced_all(es, target, r)[k] == replaced(es[k], target, r),
    decreases es.len(),
{
    if es.len() > 0 {
        lemma_replaced_all_at(es.drop_last(), target, r);
        assert forall|k: int| 0 <= k < es.len() implies #[trigger] replaced_all(es, target, r)[k] == replaced(
            es[k],
            target,
            r,
        ) by {
            if k < es.len() - 1 {
                assert(es.drop_last()[k] == es[k]);
            }
        }
    }
}

/// Substituting the body of another rule keeps an alternative that begins
/// with a reference to `n`.
proof fn lemma_left_alternative_replaced(e: ExprModel, n: Seq<char>, target: Seq<char>, r: ExprModel)
    requires
        target != n,
        left_alternative(e, n),
    ensures
        left_alternative(replaced(e, target, r), n),
{
    if let ExprModel::Choice(es) = e {
        let k = choose|k: int| 0 <= k < es.len() && #[trigger] heads_with(es[k], n);
        lemma_replaced_all_at(es, target, r);
        let es2 = replaced_all(es, target, r);
        assert(es2[k] == replaced(es[k], target, r));
        if es[k] == ExprModel::RuleRef(n) {
            assert(heads_with(es2[k], n));
        } else if let ExprModel::Sequence(items) = es[k] {
            lemma_replaced_all_at(items, target, r);
            assert(replaced_all(items, target, r)[0] == replaced(items[0], target, r));
            assert(es2[k] == ExprModel::Sequence(replaced_all(items, target, r)));
            assert(heads_with(es2[k], n));
        }
        let e2 = replaced(e, target, r);
        assert(e2 == ExprModel::Choice(es2));
        assert(0 <= k < es2.len() && heads_with(es2[k], n));
        assert(e2 is Choice);
        assert(e2->Choice_0 == es2);
        assert(exists|j: int| 0 <= j < es2.len() && #[trigger] heads_with(es2[j], n));
    }
}

/// The rule named `n` is in the table and has an alternative beginning
/// with a reference to itself.
pub open spec fn left_in(t: Seq<RuleModel>, n: Seq<char>) -> bool {
    find_name(names_of(t), n) >= 0 && left_alternative(t[find_name(names_of(t), n)].expr, n)
}

proof fn lemma_subst_keeps_left(t: Seq<RuleModel>, ai: Seq<char>, aj: Seq<char>, n: Seq<char>)
    requires
        aj != n,
        left_in(t, n),
    ensures
        left_in(subst(t, ai, aj), n),
{
    lemma_subst_names(t, ai, aj);
    lemma_find_contains(names_of(t), n);
    let k = find_name(names_of(t), n);
    let ki = find_name(names_of(t), ai);
    let kj = find_name(names_of(t), aj);
    if ki >= 0 && kj >= 0 && mentions(t[ki].expr, aj) && ki == k {
        lemma_left_alternative_replaced(t[k].expr, n, aj, t[kj].expr);
    } else if ki != k {
        lemma_subst_other(t, ai, aj, k);
    }
}

proof fn lemma_subst_upto_keeps_left(t: Seq<RuleModel>, names: Seq<Seq<char>>, i: int, j: nat, n: Seq<char>)
    requires
        j <= names.len(),
        forall|x: int| 0 <= x < j ==> #[trigger] names[x] != n,
        left_in(t, n),
    ensures
        left_in(subst_upto(t, names, i, j), n),
    decreases j,
{
    if j > 0 {
        lemma_subst_upto_keeps_left(t, names, i, (j - 1) as nat, n);
        assert(names[j - 1] != n);
        lemma_subst_keeps_left(subst_upto(t, names, i, (j - 1) as nat), names[i], names[j - 1], n);
    }
}

proof fn lemma_eliminated_keeps_left(tbl: Seq<RuleModel>, names: Seq<Seq<char>>, i: int, m: nat, n: Seq<char>)
    requires
        0 <= i < names.len(),
        m <= i,
        forall|x: int| 0 <= x < names.len() && x != i ==> #[trigger] names[x] != n,
        left_in(tbl, n),
    ensures
        eliminated(tbl, names, m) matches Ok(t) ==> left_in(t, n),
    decreases m,
{
    if m > 0 {
        lemma_eliminated_keeps_left(tbl, names, i, (m - 1) as nat, n);
        if let Ok(t) = eliminated(tbl, names, (m - 1) as nat) {
            assert forall|x: int| 0 <= x < m - 1 implies #[trigger] names[x] != n by {}
            lemma_subst_upto_keeps_left(t, names, m - 1, (m - 1) as nat, n);
        }
    }
}

proof fn lemma_definitions_plain(rules: Seq<RuleModel>)
    requires
        unique_names(rules),
    ensures
        definitions(rules) == rules,
    decreases rules.len(),
{
    if rules.len() > 0 {
        let r0 = rules.drop_last();
        assert forall|a: int, b: int| 0 <= a < b < r0.len() implies #[trigger] r0[a].name != #[trigger] r0[b].name by {
            assert(r0[a] == rules[a]);
            assert(r0[b] == rules[b]);
        }
        lemma_definitions_plain(r0);
        let r = rules.last();
        assert forall|j: int| 0 <= j < r0.len() implies names_of(r0)[j] != r.name by {
            assert(rules[j].name != rules[rules.len() - 1].name);
        }
        lemma_find_name(names_of(r0), r.name, r0.len() as int);
        assert(r0.push(r) =~= rules);
    }
}

/// A rule one of whose alternatives is, or begins with, a reference to
/// the rule itself is refused wherever it stands in a grammar whose rule
/// names are distinct: substituting the rules before it leaves that
/// alternative as it is, and the grammar comes back as an error.
pub proof fn law_left_recursive_alternative_refused(g: GrammarModel, i: int)
    requires
        unique_names(g.rules),
        0 <= i < g.rules.len(),
        left_alternative(g.rules[i].expr, g.rules[i].name),
    ensures
        without_left_recursion(g) is Err,
{
    let rules = g.rules;
    let names = names_of(rules);
    let n = rules[i].name;
    lemma_definitions_plain(rules);
    let tbl = definitions(rules);
    assert forall|j: int| 0 <= j < i implies names[j] != n by {
        assert(rules[j].name != rules[i].name);
    }
    lemma_find_name(names, n, i);
    assert(left_in(tbl, n));
    assert forall|x: int| 0 <= x < names.len() && x != i implies #[trigger] names[x] != n by {
        if x < i {
            assert(rules[x].name != rules[i].name);
        } else {
            assert(rules[i].name != rules[x].name);
        }
    }
    lemma_eliminated_keeps_left(tbl, names, i, i as nat, n);
    match eliminated(tbl, names, i as nat) {
        Err(e) => {
            lemma_err_persists_at(tbl, names, i as nat, e, rules.len());
        },
        Ok(t) => {
            assert forall|x: int| 0 <= x < i implies #[trigger] names[x] != n by {}
            lemma_subst_upto_keeps_left(t, names, i, i as nat, n);
            let t2 = subst_upto(t, names, i, i as nat);
            assert(names[i] == n);
            lemma_left_alternative_starts(t2[find_name(names_of(t2), n)].expr, n);
            assert(eliminated(tbl, names, (i + 1) as nat) == Err::<Seq<RuleModel>, Seq<char>>(n));
            lemma_err_persists_at(tbl, names, (i + 1) as nat, n, rules.len());
        },
    }
}

/// A grammar that is accepted comes back with no rule one of whose
/// alternatives is, or begins with, a reference to the rule itself.
pub proof fn law_accepted_rules_have_no_left_alternative(g: GrammarModel)
    ensures
        without_left_recursion(g) matches Ok(h) ==> forall|j: int|
            0 <= j < h.rules.len() ==> !left_alternative(#[trigger] h.rules[j].expr, h.rules[j].name),
{
    law_no_left_recursion(g);
    if let Ok(h) = without_left_recursion(g) {
        assert forall|j: int| 0 <= j < h.rules.len() implies !left_alternative(
            #[trigger] h.rules[j].expr,
            h.rules[j].name,
        ) by {
            if left_alternative(h.rules[j].expr, h.rules[j].name) {
                lemma_left_alternative_starts(h.rules[j].expr, h.rules[j].name);
            }
        }
    }
}

/// The code for `x?` saves the position, tries the code for `x`, and on
/// failure puts the position back and succeeds.
pub proof fn law_optional_backtracks(x: ExprModel, action: Option<Seq<char>>)
    ensures
        exists|f0: Seq<char>, f1: Seq<char>, f2: Seq<char>|
            code_of(ExprModel::Optional(Box::new(x)), action) == f0 + "let saved_pos = self.pos;"@ + f1 + "match "@ + code_of(x, None) + " {\n            Ok(val) => Ok(val),\n            Err(_) => {\n                self.pos = saved_pos;\n                Ok("@ + f2,
{
    reveal_strlit("        let saved_pos = self.pos;\n        match ");
    reveal_strlit(" {\n            Ok(val) => Ok(val),\n            Err(_) => {\n                self.pos = saved_pos;\n                Ok(AST::Value(\"none\".to_string()))\n            }\n        }");
    reveal_strlit("        ");
    reveal_strlit("\n        ");
    reveal_strlit("AST::Value(\"none\".to_string()))\n            }\n        }");
    reveal_strlit("let saved_pos = self.pos;");
    reveal_strlit("match ");
    reveal_strlit(" {\n            Ok(val) => Ok(val),\n            Err(_) => {\n                self.pos = saved_pos;\n                Ok(");
    let f0 = "        "@;
    let f1 = "\n        "@;
    let f2 = "AST::Value(\"none\".to_string()))\n            }\n        }"@;
    assert("        let saved_pos = self.pos;\n        match "@ =~= f0 + "let saved_pos = self.pos;"@ + f1 + "match "@);
    assert(" {\n            Ok(val) => Ok(val),\n            Err(_) => {\n                self.pos = saved_pos;\n                Ok(AST::Value(\"none\".to_string()))\n            }\n        }"@ =~= " {\n            Ok(val) => Ok(val),\n            Err(_) => {\n                self.pos = saved_pos;\n                Ok("@ + f2);
    let cx = code_of(x, None);
    assert(code_of(ExprModel::Optional(Box::new(x)), action) == "        let saved_pos = self.pos;\n        match "@ + cx + " {\n            Ok(val) => Ok(val),\n            Err(_) => {\n                self.pos = saved_pos;\n                Ok(AST::Value(\"none\".to_string()))\n            }\n        }"@);
    assert("        let saved_pos = self.pos;\n        match "@ + cx + " {\n            Ok(val) => Ok(val),\n            Err(_) => {\n                self.pos = saved_pos;\n                Ok(AST::Value(\"none\".to_string()))\n            }\n        }"@ =~= f0 + "let saved_pos = self.pos;"@ + f1 + "match "@ + cx + " {\n            Ok(val) => Ok(val),\n            Err(_) => {\n                self.pos = saved_pos;\n                Ok("@ + f2);
}

/// The code for `&x` saves the position, tries the code for `x`, puts the
/// position back and succeeds when `x` matched, and fails when it did not.
pub proof fn law_and_predicate_backtracks(x: ExprModel, action: Option<Seq<char>>)
    ensures
        exists|f0: Seq<char>, f1: Seq<char>, f2: Seq<char>, f3: Seq<char>|
            code_of(ExprModel::AndPredicate(Box::new(x)), action) == f0 + "let saved_pos = self.pos;"@ + f1 + "match "@ + code_of(x, None) + " {\n            Ok(_) => {\n                self.pos = saved_pos;\n                Ok("@ + f2 + "Err(_) => Err("@ + f3,
{
    reveal_strlit("        let saved_pos = self.pos;\n        match ");
    reveal_strlit(" {\n            Ok(_) => {\n                self.pos = saved_pos;\n                Ok(AST::Value(\"satisfied\".to_string()))\n            }\n            Err(_) => Err(self.error(\"And predicate failed\")),\n        }");
    reveal_strlit("        ");
    reveal_strlit("\n        ");
    reveal_strlit("AST::Value(\"satisfied\".to_string()))\n            }\n            ");
    reveal_strlit("self.error(\"And predicate failed\")),\n        }");
    reveal_strlit("let saved_pos = self.pos;");
    reveal_strlit("match ");
    reveal_strlit(" {\n            Ok(_) => {\n                self.pos = saved_pos;\n                Ok(");
    reveal_strlit("Err(_) => Err(");
    let f0 = "        "@;
    let f1 = "\n        "@;
    let f2 = "AST::Value(\"satisfied\".to_string()))\n            }\n            "@;
    let f3 = "self.error(\"And predicate failed\")),\n        }"@;
    assert("        let saved_pos = self.pos;\n        match "@ =~= f0 + "let saved_pos = self.pos;"@ + f1 + "match "@);
    assert(" {\n            Ok(_) => {\n                self.pos = saved_pos;\n                Ok(AST::Value(\"satisfied\".to_string()))\n            }\n            Err(_) => Err(self.error(\"And predicate failed\")),\n        }"@ =~= " {\n            Ok(_) => {\n                self.pos = saved_pos;\n                Ok("@ + f2 + "Err(_) => Err("@ + f3);
    let cx = code_of(x, None);
    assert(code_of(ExprModel::AndPredicate(Box::new(x)), action) == "        let saved_pos = self.pos;\n        match "@ + cx + " {\n            Ok(_) => {\n                self.pos = saved_pos;\n                Ok(AST::Value(\"satisfied\".to_string()))\n            }\n            Err(_) => Err(self.error(\"And predicate failed\")),\n        }"@);
    assert("        let saved_pos = self.pos;\n        match "@ + cx + " {\n            Ok(_) => {\n                self.pos = saved_pos;\n                Ok(AST::Value(\"satisfied\".to_string()))\n            }\n            Err(_) => Err(self.error(\"And predicate failed\")),\n        }"@ =~= f0 + "let saved_pos = self.pos;"@ + f1 + "match "@ + cx + " {\n            Ok(_) => {\n                self.pos = saved_pos;\n                Ok("@ + f2 + "Err(_) => Err("@ + f3);
}

/// The code for `!x` saves the position, tries the code for `x`, fails
/// when `x` matched, and puts the position back and succeeds when it did
/// not.
pub proof fn law_not_predicate_backtracks(x: ExprModel, action: Option<Seq<char>>)
    ensures
        exists|f0: Seq<char>, f1: Seq<char>, f2: Seq<char>, f3: Seq<char>|
            code_of(ExprModel::NotPredicate(Box::new(x)), action) == f0 + "let saved_pos = self.pos;"@ + f1 + "match "@ + code_of(x, None) + " {\n            Ok(_) => {\n                self.pos = saved_pos;\n                Err("@ + f2 + "Err(_) => {\n                self.pos = saved_pos;\n                Ok("@ + f3,
{
    reveal_strlit("        let saved_pos = self.pos;\n        match ");
    reveal_strlit(" {\n            Ok(_) => {\n                self.pos = saved_pos;\n                Err(self.error(\"Not predicate failed\"))\n            }\n            Err(_) => {\n                self.pos = saved_pos;\n                Ok(AST::Value(\"not satisfied\".to_string()))\n            }\n        }");
    reveal_strlit("        ");
    reveal_strlit("\n        ");
    reveal_strlit("self.error(\"Not predicate failed\"))\n            }\n            ");
    reveal_strlit("AST::Value(\"not satisfied\".to_string()))\n            }\n        }");
    reveal_strlit("let saved_pos = self.pos;");
    reveal_strlit("match ");
    reveal_strlit(" {\n            Ok(_) => {\n                self.pos = saved_pos;\n                Err(");
    reveal_strlit("Err(_) => {\n                self.pos = saved_pos;\n                Ok(");
    let f0 = "        "@;
    let f1 = "\n        "@;
    let f2 = "self.error(\"Not predicate failed\"))\n            }\n            "@;
    let f3 = "AST::Value(\"not satisfied\".to_string()))\n            }\n        }"@;
    assert("        let saved_pos = self.pos;\n        match "@ =~= f0 + "let saved_pos = self.pos;"@ + f1 + "match "@);
    assert(" {\n            Ok(_) => {\n                self.pos = saved_pos;\n                Err(self.error(\"Not predicate failed\"))\n            }\n            Err(_) => {\n                self.pos = saved_pos;\n                Ok(AST::Value(\"not satisfied\".to_string()))\n            }\n        }"@ =~= " {\n            Ok(_) => {\n                self.pos = saved_pos;\n                Err("@ + f2 + "Err(_) => {\n                self.pos = saved_pos;\n                Ok("@ + f3);
    let cx = code_of(x, None);
    assert(code_of(ExprModel::NotPredicate(Box::new(x)), action) == "        let saved_pos = self.pos;\n        match "@ + cx + " {\n            Ok(_) => {\n                self.pos = saved_pos;\n                Err(self.error(\"Not predicate failed\"))\n            }\n            Err(_) => {\n                self.pos = saved_pos;\n                Ok(AST::Value(\"not satisfied\".to_string()))\n            }\n        }"@);
    assert("        let saved_pos = self.pos;\n        match "@ + cx + " {\n            Ok(_) => {\n                self.pos = saved_pos;\n                Err(self.error(\"Not predicate failed\"))\n            }\n            Err(_) => {\n                self.pos = saved_pos;\n                Ok(AST::Value(\"not satisfied\".to_string()))\n            }\n        }"@ =~= f0 + "let saved_pos = self.pos;"@ + f1 + "match "@ + cx + " {\n            Ok(_) => {\n                self.pos = saved_pos;\n                Err("@ + f2 + "Err(_) => {\n                self.pos = saved_pos;\n                Ok("@ + f3);
}


/// Whether `e` matches input without calling a rule: a character, a
/// string, a class, a pattern, any character or the end of input.
pub open spec fn terminal(e: ExprModel) -> bool {
    e is Char || e is String || e is CharClass || e is Regex || e is AnyChar || e is Eof
}

/// Whether `e` is a sequence that begins with a terminal.
pub open spec fn guarded_seq(e: ExprModel) -> bool {
    e matches ExprModel::Sequence(items) && items.len() > 0 && terminal(items[0])
}

/// Whether every alternative of `e` begins with a terminal: a sequence
/// that does, or a choice of such sequences.
pub open spec fn guarded(e: ExprModel) -> bool {
    ||| guarded_seq(e)
    ||| (e matches ExprModel::Choice(es) && forall|k: int| 0 <= k < es.len() ==> guarded_seq(#[trigger] es[k]))
}

proof fn lemma_guarded_seq_not_left(e: ExprModel, n: Seq<char>)
    requires
        guarded_seq(e),
    ensures
        !starts_with_ref(e, n),
{
    if let ExprModel::Sequence(items) = e {
        assert(!starts_with_ref(items[0], n));
    }
}

proof fn lemma_guarded_any_not_left(es: Seq<ExprModel>, n: Seq<char>)
    requires
        forall|k: int| 0 <= k < es.len() ==> guarded_seq(#[trigger] es[k]),
    ensures
        !starts_any(es, n),
    decreases es.len(),
{
    if es.len() > 0 {
        assert forall|k: int| 0 <= k < es.len() - 1 implies guarded_seq(#[trigger] es.drop_last()[k]) by {
            assert(es.drop_last()[k] == es[k]);
        }
        lemma_guarded_any_not_left(es.drop_last(), n);
        assert(guarded_seq(es[es.len() - 1]));
        lemma_guarded_seq_not_left(es.last(), n);
    }
}

proof fn lemma_guarded_not_left(e: ExprModel, n: Seq<char>)
    requires
        guarded(e),
    ensures
        !starts_with_ref(e, n),
{
    if guarded_seq(e) {
        lemma_guarded_seq_not_left(e, n);
    } else if let ExprModel::Choice(es) = e {
        lemma_guarded_any_not_left(es, n);
    }
}

proof fn lemma_guarded_seq_replaced(e: ExprModel, target: Seq<char>, r: ExprModel)
    requires
        guarded_seq(e),
    ensures
        guarded_seq(replaced(e, target, r)),
{
    if let ExprModel::Sequence(items) = e {
        lemma_replaced_all_at(items, target, r);
        assert(replaced(items[0], target, r) == items[0]);
        assert(replaced(e, target, r) == ExprModel::Sequence(replaced_all(items, target, r)));
    }
}

proof fn lemma_guarded_replaced(e: ExprModel, target: Seq<char>, r: ExprModel)
    requires
        guarded(e),
    ensures
        guarded(replaced(e, target, r)),
{
    if guarded_seq(e) {
        lemma_guarded_seq_replaced(e, target, r);
    } else if let ExprModel::Choice(es) = e {
        lemma_replaced_all_at(es, target, r);
        let es2 = replaced_all(es, target, r);
        assert forall|k: int| 0 <= k < es2.len() implies guarded_seq(#[trigger] es2[k]) by {
            lemma_guarded_seq_replaced(es[k], target, r);
        }
        assert(replaced(e, target, r) == ExprModel::Choice(es2));
    }
}

/// Every rule of the table is guarded.
pub open spec fn all_guarded(t: Seq<RuleModel>) -> bool {
    forall|j: int| 0 <= j < t.len() ==> guarded(#[trigger] t[j].expr)
}

proof fn lemma_subst_guarded(t: Seq<RuleModel>, ai: Seq<char>, aj: Seq<char>)
    requires
        all_guarded(t),
    ensures
        all_guarded(subst(t, ai, aj)),
{
    let ki = find_name(names_of(t), ai);
    let kj = find_name(names_of(t), aj);
    if ki >= 0 && kj >= 0 && mentions(t[ki].expr, aj) {
        lemma_find_contains(names_of(t), ai);
        lemma_find_contains(names_of(t), aj);
        lemma_guarded_replaced(t[ki].expr, aj, t[kj].expr);
        let t2 = subst(t, ai, aj);
        assert forall|j: int| 0 <= j < t2.len() implies guarded(#[trigger] t2[j].expr) by {
            if j != ki {
                assert(t2[j] == t[j]);
            }
        }
    }
}

proof fn lemma_subst_upto_guarded(t: Seq<RuleModel>, names: Seq<Seq<char>>, i: int, j: nat)
    requires
        all_guarded(t),
    ensures
        all_guarded(subst_upto(t, names, i, j)),
    decreases j,
{
    if j > 0 {
        lemma_subst_upto_guarded(t, names, i, (j - 1) as nat);
        lemma_subst_guarded(subst_upto(t, names, i, (j - 1) as nat), names[i], names[j - 1]);
    }
}

proof fn lemma_eliminated_guarded(tbl: Seq<RuleModel>, names: Seq<Seq<char>>, m: nat)
    requires
        all_guarded(tbl),
    ensures
        eliminated(tbl, names, m) matches Ok(t) && all_guarded(t),
    decreases m,
{
    if m > 0 {
        lemma_eliminated_guarded(tbl, names, (m - 1) as nat);
        let t = eliminated(tbl, names, (m - 1) as nat)->Ok_0;
        lemma_subst_upto_guarded(t, names, m - 1, (m - 1) as nat);
        let t2 = subst_upto(t, names, m - 1, (m - 1) as nat);
        let k = find_name(names_of(t2), names[m - 1]);
        lemma_find_contains(names_of(t2), names[m - 1]);
        if k >= 0 {
            lemma_guarded_not_left(t2[k].expr, names[m - 1]);
        }
    }
}

proof fn lemma_definitions_guarded(rules: Seq<RuleModel>)
    requires
        all_guarded(rules),
    ensures
        all_guarded(definitions(rules)),
    decreases rules.len(),
{
    if rules.len() > 0 {
        let r0 = rules.drop_last();
        assert forall|j: int| 0 <= j < r0.len() implies guarded(#[trigger] r0[j].expr) by {
            assert(r0[j] == rules[j]);
        }
        lemma_definitions_guarded(r0);
        let d = definitions(r0);
        let r = rules.last();
        assert(guarded(rules[rules.len() - 1].expr));
        let k = find_name(names_of(d), r.name);
        lemma_find_contains(names_of(d), r.name);
        let d2 = definitions(rules);
        assert forall|j: int| 0 <= j < d2.len() implies guarded(#[trigger] d2[j].expr) by {
            if j < d.len() && j != k {
                assert(d2[j] == d[j]);
            }
        }
    }
}

/// Right recursion is no left recursion: a grammar in which every
/// alternative of every rule begins with a terminal (a sequence that
/// starts with one, or a choice of such sequences) is accepted, whatever
/// rules the rest of each sequence refers to, itself included.
pub proof fn law_guarded_grammar_accepted(g: GrammarModel)
    requires
        forall|j: int| 0 <= j < g.rules.len() ==> guarded(#[trigger] g.rules[j].expr),
    ensures
        without_left_recursion(g) is Ok,
{
    lemma_definitions_guarded(g.rules);
    lemma_eliminated_guarded(definitions(g.rules), names_of(g.rules), g.rules.len());
}


/// The text that tries alternative `k` of a choice: the saved position,
/// line and column put back (from the second alternative on), then the
/// code for the alternative, returning its result when it matches.
pub open spec fn try_alternative(es: Seq<ExprModel>, k: int) -> Seq<char> {
    (if k > 0 {
        "        self.pos = saved_pos;\n"@ + "        self.line = saved_line;\n"@ + "        self.col = saved_col;\n"@
    } else {
        seq![]
    }) + "        match "@ + code_of(es[k], None) + " {\n"@ + "            Ok(val) => return Ok(val),\n"@
}

proof fn lemma_choice_lines_hold(es: Seq<ExprModel>, k: int, m: nat)
    requires
        0 <= k < m <= es.len(),
    ensures
        exists|pre: Seq<char>, post: Seq<char>| choice_lines(es, m) == pre + try_alternative(es, k) + post,
    decreases m,
{
    if m == k + 1 {
        let post = "            Err(_) => {}\n"@ + "        }\n"@;
        assert(choice_lines(es, m) =~= choice_lines(es, k as nat) + try_alternative(es, k) + post);
    } else {
        lemma_choice_lines_hold(es, k, (m - 1) as nat);
        let (pre, post) = choose|pre: Seq<char>, post: Seq<char>|
            choice_lines(es, (m - 1) as nat) == pre + try_alternative(es, k) + post;
        let rest = choice_lines(es, m).subrange(choice_lines(es, (m - 1) as nat).len() as int, choice_lines(es, m).len() as int);
        assert(choice_lines(es, m) =~= choice_lines(es, (m - 1) as nat) + rest);
        assert(choice_lines(es, m) =~= pre + try_alternative(es, k) + (post + rest));
    }
}

/// The code for a choice saves the position, line and column, and tries
/// every alternative in turn: from the second on it first puts them back,
/// and the first alternative that matches gives the result.
pub proof fn law_choice_tries_each_alternative(es: Seq<ExprModel>, action: Option<Seq<char>>, k: int)
    requires
        0 <= k < es.len(),
    ensures
        exists|pre: Seq<char>, post: Seq<char>|
            code_of(ExprModel::Choice(es), action) == "        let saved_pos = self.pos;\n"@
                + "        let saved_line = self.line;\n"@ + "        let saved_col = self.col;\n"@ + pre
                + try_alternative(es, k) + post,
{
    lemma_choice_lines_hold(es, k, es.len());
    let (pre, post) = choose|pre: Seq<char>, post: Seq<char>|
        choice_lines(es, es.len()) == pre + try_alternative(es, k) + post;
    let head = "        let saved_pos = self.pos;\n"@ + "        let saved_line = self.line;\n"@
        + "        let saved_col = self.col;\n"@;
    let tail = "        Err(self.error(\"No alternative matched\"))\n"@;
    assert(code_of(ExprModel::Choice(es), action) == head + choice_lines(es, es.len()) + tail);
    assert(code_of(ExprModel::Choice(es), action) =~= head + pre + try_alternative(es, k) + (post + tail));
}

/// The text that binds the result of item `k` of a sequence to `_r<k>`.
pub open spec fn bind_item(es: Seq<ExprModel>, k: int) -> Seq<char> {
    "        let _r"@ + dec(k as nat) + " = "@ + code_of(es[k], None) + ";\n"@
}

proof fn lemma_seq_lines_hold(es: Seq<ExprModel>, k: int, m: nat)
    requires
        0 <= k < m <= es.len(),
    ensures
        exists|pre: Seq<char>, post: Seq<char>| seq_lines(es, m) == pre + bind_item(es, k) + post,
    decreases m,
{
    if m == k + 1 {
        assert(seq_lines(es, m) =~= seq_lines(es, k as nat) + bind_item(es, k) + Seq::<char>::empty());
    } else {
        lemma_seq_lines_hold(es, k, (m - 1) as nat);
        let (pre, post) = choose|pre: Seq<char>, post: Seq<char>|
            seq_lines(es, (m - 1) as nat) == pre + bind_item(es, k) + post;
        let rest = bind_item(es, m - 1);
        assert(seq_lines(es, m) =~= seq_lines(es, (m - 1) as nat) + rest);
        assert(seq_lines(es, m) =~= pre + bind_item(es, k) + (post + rest));
    }
}

/// The code for a sequence runs the code of every item and binds the
/// result of item `k` to `_r<k>`, before the line giving the result.
pub proof fn law_sequence_binds_each_item(es: Seq<ExprModel>, action: Option<Seq<char>>, k: int)
    requires
        0 <= k < es.len(),
    ensures
        exists|pre: Seq<char>, post: Seq<char>|
            code_of(ExprModel::Sequence(es), action) == pre + bind_item(es, k) + post + seq_result(action, es.len()),
{
    lemma_seq_lines_hold(es, k, es.len());
    let (pre, post) = choose|pre: Seq<char>, post: Seq<char>|
        seq_lines(es, es.len()) == pre + bind_item(es, k) + post;
    assert(code_of(ExprModel::Sequence(es), action) == seq_lines(es, es.len()) + seq_result(action, es.len()));
}

} // verus!
