//! The syntax tree of a PEG grammar.
use vstd::prelude::*;
use crate::base::text::{chars_of, code_point};

verus! {

#[derive(Debug)]
pub struct Grammar {
    pub start: String,
    pub rules: Vec<Rule>,
}

#[derive(Debug)]
pub struct Rule {
    pub name: String,
    pub expr: Expr,
    pub ast: Option<String>,
}

/// The closed range `[start, end]` of code points.
#[derive(Debug, Clone, Copy)]
pub struct CharClassItem {
    pub start: u32,
    pub end: u32,
}

#[derive(Debug, Clone)]
pub struct CharClass {
    pub negated: bool,
    pub items: Vec<CharClassItem>,
}

#[derive(Debug)]
pub enum Expr {
    Sequence(Vec<Expr>),
    Choice(Vec<Expr>),
    Repeat(Box<Expr>),
    Plus(Box<Expr>),
    Optional(Box<Expr>),
    AndPredicate(Box<Expr>),
    NotPredicate(Box<Expr>),
    Group(Box<Expr>),
    RuleRef(String),
    Char(u32),
    String(String),
    Regex(String),
    CharClass(CharClass),
    Eof,
    AnyChar,
}

/// The mathematical value of a grammar expression.
pub enum ExprModel {
    Sequence(Seq<ExprModel>),
    Choice(Seq<ExprModel>),
    Repeat(Box<ExprModel>),
    Plus(Box<ExprModel>),
    Optional(Box<ExprModel>),
    AndPredicate(Box<ExprModel>),
    NotPredicate(Box<ExprModel>),
    Group(Box<ExprModel>),
    RuleRef(Seq<char>),
    Char(u32),
    String(Seq<char>),
    Regex(Seq<char>),
    CharClass(bool, Seq<CharClassItem>),
    Eof,
    AnyChar,
}

/// The mathematical value of a rule: its name, expression and action.
pub struct RuleModel {
    pub name: Seq<char>,
    pub expr: ExprModel,
    pub ast: Option<Seq<char>>,
}

pub struct GrammarModel {
    pub start: Seq<char>,
    pub rules: Seq<RuleModel>,
}

impl Expr {
    pub open spec fn model(&self) -> ExprModel
        decreases self,
    {
        match self {
            Expr::Sequence(v) => ExprModel::Sequence(
                Seq::new(
                    v.len() as nat,
                    |i: int|
                        if 0 <= i < v.len() {
                            v@[i].model()
                        } else {
                            ExprModel::Eof
                        },
                ),
            ),
            Expr::Choice(v) => ExprModel::Choice(
                Seq::new(
                    v.len() as nat,
                    |i: int|
                        if 0 <= i < v.len() {
                            v@[i].model()
                        } else {
                            ExprModel::Eof
                        },
                ),
            ),
            Expr::Repeat(e) => ExprModel::Repeat(Box::new(e.model())),
            Expr::Plus(e) => ExprModel::Plus(Box::new(e.model())),
            Expr::Optional(e) => ExprModel::Optional(Box::new(e.model())),
            Expr::AndPredicate(e) => ExprModel::AndPredicate(Box::new(e.model())),
            Expr::NotPredicate(e) => ExprModel::NotPredicate(Box::new(e.model())),
            Expr::Group(e) => ExprModel::Group(Box::new(e.model())),
            Expr::RuleRef(n) => ExprModel::RuleRef(n@),
            Expr::Char(c) => ExprModel::Char(*c),
            Expr::String(s) => ExprModel::String(s@),
            Expr::Regex(s) => ExprModel::Regex(s@),
            Expr::CharClass(c) => ExprModel::CharClass(c.negated, c.items@),
            Expr::Eof => ExprModel::Eof,
            Expr::AnyChar => ExprModel::AnyChar,
        }
    }
}

impl View for Expr {
    type V = ExprModel;

    open spec fn view(&self) -> ExprModel {
        self.model()
    }
}

/// The models of a list of expressions.
pub open spec fn expr_models(v: Seq<Expr>) -> Seq<ExprModel> {
    v.map_values(|e: Expr| e@)
}

pub open spec fn opt_view(o: Option<String>) -> Option<Seq<char>> {
    match o {
        Some(s) => Some(s@),
        None => None,
    }
}

impl View for Rule {
    type V = RuleModel;

    open spec fn view(&self) -> RuleModel {
        RuleModel { name: self.name@, expr: self.expr@, ast: opt_view(self.ast) }
    }
}

impl View for Grammar {
    type V = GrammarModel;

    open spec fn view(&self) -> GrammarModel {
        GrammarModel { start: self.start@, rules: self.rules@.map_values(|r: Rule| r@) }
    }
}

/// The elements of a sequence-like list with nested sequences spliced in
/// one level deep; `choice` selects `Choice` instead of `Sequence`.
pub open spec fn flatten(es: Seq<ExprModel>, choice: bool) -> Seq<ExprModel>
    decreases es.len(),
{
    if es.len() == 0 {
        seq![]
    } else {
        let e = es.last();
        let tail = if choice {
            match e {
                ExprModel::Choice(inner) => inner,
                _ => seq![e],
            }
        } else {
            match e {
                ExprModel::Sequence(inner) => inner,
                _ => seq![e],
            }
        };
        flatten(es.drop_last(), choice) + tail
    }
}

/// What `Expr::seq` (`choice == false`) or `Expr::choice` builds.
pub open spec fn combine(es: Seq<ExprModel>, choice: bool) -> ExprModel {
    if es.len() == 1 {
        es[0]
    } else {
        let flat = flatten(es, choice);
        if flat.len() == 1 {
            flat[0]
        } else if choice {
            ExprModel::Choice(flat)
        } else {
            ExprModel::Sequence(flat)
        }
    }
}

pub proof fn lemma_models_seq(v: Vec<Expr>)
    ensures
        (Expr::Sequence(v))@ == ExprModel::Sequence(expr_models(v@)),
        (Expr::Choice(v))@ == ExprModel::Choice(expr_models(v@)),
{
    let f = Seq::new(
        v.len() as nat,
        |i: int|
            if 0 <= i < v.len() {
                v@[i].model()
            } else {
                ExprModel::Eof
            },
    );
    let m = (Expr::Sequence(v)).model();
    let inner = m->Sequence_0;
    assert(inner =~= expr_models(v@));
    let m2 = (Expr::Choice(v)).model();
    let inner2 = m2->Choice_0;
    assert(inner2 =~= expr_models(v@));
}

impl Expr {
    fn combine(exprs: Vec<Expr>, choice: bool) -> (e: Expr)
        requires
            exprs.len() > 0,
        ensures
            e@ == combine(expr_models(exprs@), choice),
    {
        let ghost all = expr_models(exprs@);
        let mut exprs = exprs;
        if exprs.len() == 1 {
            let e = exprs.pop().unwrap();
            return e;
        }
        let mut flat: Vec<Expr> = Vec::new();
        let mut k: usize = 0;
        let n = exprs.len();
        assert(all.skip(0) == all);
        assert(flatten(all.take(0), choice) =~= seq![]);
        assert(expr_models(flat@) =~= seq![]);
        while exprs.len() > 0
            invariant
                k + exprs.len() == n,
                n == all.len(),
                expr_models(exprs@) == all.skip(k as int),
                expr_models(flat@) == flatten(all.take(k as int), choice),
            decreases exprs.len(),
        {
            let ghost before_exprs = exprs@;
            let e = exprs.remove(0);
            assert(expr_models(before_exprs)[0] == e@);
            assert(all.skip(k as int)[0] == all[k as int]);
            assert(exprs@ == before_exprs.drop_first());
            assert(expr_models(exprs@) =~= expr_models(before_exprs).drop_first());
            assert(all.skip(k as int).drop_first() =~= all.skip(k + 1));
            assert(all.take(k + 1).drop_last() =~= all.take(k as int));
            assert(all.take(k + 1).last() == all[k as int]);
            let ghost before = flat@;
            match e {
                Expr::Sequence(inner) if !choice => {
                    proof {
                        lemma_models_seq(inner);
                    }
                    let mut inner = inner;
                    let ghost iv = inner@;
                    flat.append(&mut inner);
                    assert(expr_models(flat@) =~= expr_models(before) + expr_models(iv));
                },
                Expr::Choice(inner) if choice => {
                    proof {
                        lemma_models_seq(inner);
                    }
                    let mut inner = inner;
                    let ghost iv = inner@;
                    flat.append(&mut inner);
                    assert(expr_models(flat@) =~= expr_models(before) + expr_models(iv));
                },
                other => {
                    flat.push(other);
                    assert(expr_models(flat@) =~= expr_models(before) + seq![other@]);
                },
            }
            k = k + 1;
        }
        assert(all.take(n as int) == all);
        if flat.len() == 1 {
            let e = flat.pop().unwrap();
            e
        } else if choice {
            proof {
                lemma_models_seq(flat);
            }
            Expr::Choice(flat)
        } else {
            proof {
                lemma_models_seq(flat);
            }
            Expr::Sequence(flat)
        }
    }

    /// A sequence of the expressions, nested sequences spliced in; a single
    /// expression stands for itself.
    pub fn seq(exprs: Vec<Expr>) -> (e: Self)
        requires
            exprs.len() > 0,
        ensures
            e@ == combine(expr_models(exprs@), false),
    {
        Expr::combine(exprs, false)
    }

    /// An ordered choice of the expressions, nested choices spliced in; a
    /// single expression stands for itself.
    pub fn choice(exprs: Vec<Expr>) -> (e: Self)
        requires
            exprs.len() > 0,
        ensures
            e@ == combine(expr_models(exprs@), true),
    {
        Expr::combine(exprs, true)
    }
}

/// The expression for a string literal: one character, or the sequence of
/// its characters.
pub open spec fn literal_chars(s: Seq<char>) -> Seq<ExprModel> {
    s.map_values(|c: char| ExprModel::Char(c as u32))
}

pub open spec fn literal_model(s: Seq<char>) -> ExprModel {
    let cs = literal_chars(s);
    if cs.len() == 1 {
        cs[0]
    } else {
        ExprModel::Sequence(cs)
    }
}

pub fn string_literal_to_expr(s: &str) -> (e: Expr)
    ensures
        e@ == literal_model(s@),
{
    let cs = chars_of(s);
    let mut v: Vec<Expr> = Vec::new();
    let mut i: usize = 0;
    while i < cs.len()
        invariant
            i <= cs.len(),
            cs@ == s@,
            expr_models(v@) == literal_chars(s@.take(i as int)),
        decreases cs.len() - i,
    {
        let ghost before = v@;
        let e = Expr::Char(code_point(cs[i]));
        assert(e@ == ExprModel::Char(cs@[i as int] as u32));
        v.push(e);
        assert(expr_models(v@) =~= expr_models(before).push(e@));
        i = i + 1;
        assert(expr_models(v@) =~= literal_chars(s@.take(i as int)));
    }
    assert(s@.take(cs.len() as int) == s@);
    if v.len() == 1 {
        v.pop().unwrap()
    } else {
        proof {
            lemma_models_seq(v);
        }
        Expr::Sequence(v)
    }
}

impl Expr {
    /// A copy of the expression.
    pub fn duplicate(&self) -> (e: Expr)
        ensures
            e@ == self@,
        decreases self,
    {
        match self {
            Expr::Sequence(v) => {
                let w = Expr::duplicate_all(v);
                proof {
                    lemma_models_seq(w);
                    lemma_models_seq(*v);
                }
                Expr::Sequence(w)
            },
            Expr::Choice(v) => {
                let w = Expr::duplicate_all(v);
                proof {
                    lemma_models_seq(w);
                    lemma_models_seq(*v);
                }
                Expr::Choice(w)
            },
            Expr::Repeat(e) => Expr::Repeat(Box::new(e.duplicate())),
            Expr::Plus(e) => Expr::Plus(Box::new(e.duplicate())),
            Expr::Optional(e) => Expr::Optional(Box::new(e.duplicate())),
            Expr::AndPredicate(e) => Expr::AndPredicate(Box::new(e.duplicate())),
            Expr::NotPredicate(e) => Expr::NotPredicate(Box::new(e.duplicate())),
            Expr::Group(e) => Expr::Group(Box::new(e.duplicate())),
            Expr::RuleRef(n) => Expr::RuleRef(n.clone()),
            Expr::Char(c) => Expr::Char(*c),
            Expr::String(t) => Expr::String(t.clone()),
            Expr::Regex(t) => Expr::Regex(t.clone()),
            Expr::CharClass(c) => {
                let mut items: Vec<CharClassItem> = Vec::new();
                let mut i: usize = 0;
                while i < c.items.len()
                    invariant
                        i <= c.items.len(),
                        items@ == c.items@.take(i as int),
                    decreases c.items.len() - i,
                {
                    items.push(c.items[i]);
                    i = i + 1;
                    assert(items@ =~= c.items@.take(i as int));
                }
                assert(c.items@.take(i as int) =~= c.items@);
                Expr::CharClass(CharClass { negated: c.negated, items })
            },
            Expr::Eof => Expr::Eof,
            Expr::AnyChar => Expr::AnyChar,
        }
    }

    fn duplicate_all(v: &Vec<Expr>) -> (w: Vec<Expr>)
        ensures
            expr_models(w@) == expr_models(v@),
        decreases v,
    {
        let mut w: Vec<Expr> = Vec::new();
        let mut i: usize = 0;
        while i < v.len()
            invariant
                i <= v.len(),
                expr_models(w@) == expr_models(v@.take(i as int)),
            decreases v.len() - i,
        {
            let ghost before = w@;
            let e = v[i].duplicate();
            let ghost ev = e@;
            assert(ev == v@[i as int]@);
            w.push(e);
            assert(expr_models(w@) =~= expr_models(before).push(ev));
            assert(v@.take(i + 1) =~= v@.take(i as int).push(v@[i as int]));
            i = i + 1;
            assert(expr_models(w@) =~= expr_models(v@.take(i as int)));
        }
        assert(v@.take(i as int) =~= v@);
        w
    }
}

impl Rule {
    /// A copy of the rule.
    pub fn duplicate(&self) -> (r: Rule)
        ensures
            r@ == self@,
    {
        let ast = match &self.ast {
            Some(a) => Some(a.clone()),
            None => None,
        };
        Rule { name: self.name.clone(), expr: self.expr.duplicate(), ast }
    }
}

} // verus!
