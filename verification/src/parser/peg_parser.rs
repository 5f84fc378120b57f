//! A parser for PEG grammar definitions.
//!
//! ```text
//! grammar  := rule+
//! rule     := IDENT '<-' choice ('{' action '}')?
//! choice   := sequence ('/' sequence)*
//! sequence := prefix+            (ending before a rule start)
//! prefix   := ('&' | '!') prefix | primary ('*' | '+' | '?')*
//! primary  := '(' choice ')' | string | IDENT | '.' | '[' class ']'
//! ```
//!
//! Whitespace and `//` comments separate tokens. A rule name that is already
//! defined is an error.
use vstd::prelude::*;
use crate::base::error::Error;
use crate::base::regex::parser::{Cursor, Step, adv, agrees, is_error_at, peek, step};
use crate::base::text::{
    ascii_alphabetic, ascii_alphanumeric, chars_of, code_point, is_ascii_alphabetic,
    is_ascii_alphanumeric, is_whitespace, push_chars, push_str, string_of, whitespace,
};
use crate::parser::grammar::{
    CharClass, CharClassItem, Expr, ExprModel, Grammar, GrammarModel, Rule, RuleModel, combine,
    expr_models, literal_model, string_literal_to_expr,
};

verus! {

pub open spec fn peek_at(s: Seq<char>, c: Cursor, k: int) -> Option<char> {
    if 0 <= c.pos + k < s.len() {
        Some(s[c.pos + k])
    } else {
        None
    }
}

/// The cursor at the end of a `//` comment's line (before the newline).
pub open spec fn skip_comment(s: Seq<char>, c: Cursor) -> Cursor
    decreases s.len() - c.pos,
{
    match peek(s, c) {
        Some(ch) => if ch != '\n' {
            skip_comment(s, step(c, ch))
        } else {
            c
        },
        None => c,
    }
}

proof fn lemma_skip_comment(s: Seq<char>, c: Cursor)
    requires
        0 <= c.pos <= s.len(),
    ensures
        c.pos <= skip_comment(s, c).pos <= s.len(),
    decreases s.len() - c.pos,
{
    match peek(s, c) {
        Some(ch) => if ch != '\n' {
            lemma_skip_comment(s, step(c, ch));
        },
        None => {},
    }
}

/// Skips whitespace and `//` comments; tells whether anything was skipped.
pub open spec fn skip_ws(s: Seq<char>, c: Cursor, skipped: bool) -> (bool, Cursor)
    decreases s.len() - c.pos,
{
    match peek(s, c) {
        Some(ch) => if is_whitespace(ch) {
            skip_ws(s, step(c, ch), true)
        } else if ch == '/' && peek_at(s, c, 1) == Some('/') {
            let c2 = step(step(c, '/'), '/');
            let c3 = skip_comment(s, c2);
            if c.pos < c3.pos <= s.len() {
                skip_ws(s, c3, true)
            } else {
                (true, c3)
            }
        } else {
            (skipped, c)
        },
        None => (skipped, c),
    }
}

/// The cursor after skipping.
pub open spec fn skip(s: Seq<char>, c: Cursor) -> Cursor {
    skip_ws(s, c, false).1
}

pub open spec fn is_ident_start(c: char) -> bool {
    is_ascii_alphabetic(c) || c == '_'
}

pub open spec fn is_ident_char(c: char) -> bool {
    is_ascii_alphanumeric(c) || c == '_'
}

/// The rest of an identifier.
pub open spec fn ident_run(s: Seq<char>, acc: Seq<char>, c: Cursor) -> (Seq<char>, Cursor)
    decreases s.len() - c.pos,
{
    match peek(s, c) {
        Some(ch) => if is_ident_char(ch) {
            ident_run(s, acc.push(ch), step(c, ch))
        } else {
            (acc, c)
        },
        None => (acc, c),
    }
}

/// An identifier, after skipping.
pub open spec fn identifier(s: Seq<char>, c: Cursor) -> Step<Seq<char>> {
    let c1 = skip(s, c);
    match peek(s, c1) {
        Some(ch) => if is_ident_start(ch) {
            let (name, c2) = ident_run(s, seq![ch], step(c1, ch));
            Ok((name, c2))
        } else {
            Err(("Expected identifier, found '"@ + seq![ch] + "'"@, c1))
        },
        None => Err(("Expected identifier"@, c1)),
    }
}

/// Reads the character `e`.
pub open spec fn expect_char(s: Seq<char>, c: Cursor, e: char) -> Step<()> {
    match peek(s, c) {
        Some(ch) => if ch == e {
            Ok(((), step(c, ch)))
        } else {
            Err(("Expected '"@ + seq![e] + "', found '"@ + seq![ch] + "'"@, step(c, ch)))
        },
        None => Err(("Expected '"@ + seq![e] + "'"@, c)),
    }
}

/// Reads the characters of `e` one after another.
pub open spec fn expect_chars(s: Seq<char>, c: Cursor, e: Seq<char>) -> Step<()>
    decreases e.len(),
{
    if e.len() == 0 {
        Ok(((), c))
    } else {
        match expect_char(s, c, e[0]) {
            Err(x) => Err(x),
            Ok((_, c1)) => expect_chars(s, c1, e.drop_first()),
        }
    }
}

/// Whether an identifier followed by `<-` starts at `c`: the head of the
/// next rule.
pub open spec fn at_rule_start(s: Seq<char>, c: Cursor) -> bool {
    match peek(s, c) {
        Some(ch) => is_ident_start(ch) && {
            let c1 = ident_run(s, seq![ch], step(c, ch)).1;
            let c2 = skip(s, c1);
            peek(s, c2) == Some('<') && peek_at(s, c2, 1) == Some('-')
        },
        None => false,
    }
}

/// The character an escape in a string literal stands for.
pub open spec fn string_escape(e: char) -> Option<char> {
    if e == 'n' {
        Some('\n')
    } else if e == 't' {
        Some('\t')
    } else if e == 'r' {
        Some('\r')
    } else if e == '\\' || e == '\'' || e == '"' {
        Some(e)
    } else {
        None
    }
}

/// The body of a string literal up to its closing quote or the end.
pub open spec fn string_body(s: Seq<char>, quote: char, acc: Seq<char>, c: Cursor) -> Step<
    Seq<char>,
>
    decreases s.len() - c.pos,
{
    match peek(s, c) {
        None => Ok((acc, c)),
        Some(ch) => if ch == quote {
            Ok((acc, step(c, ch)))
        } else if ch == '\\' {
            let c1 = step(c, ch);
            match peek(s, c1) {
                None => Err(("Escape at end of string"@, c1)),
                Some(e) => {
                    let c2 = step(c1, e);
                    match string_escape(e) {
                        Some(m) => string_body(s, quote, acc.push(m), c2),
                        None => Err(("Invalid escape sequence: \\"@ + seq![e], c2)),
                    }
                },
            }
        } else {
            string_body(s, quote, acc.push(ch), step(c, ch))
        },
    }
}

/// A string literal; `c` stands at its opening quote.
pub open spec fn string_literal(s: Seq<char>, c: Cursor) -> Step<ExprModel> {
    match peek(s, c) {
        None => Err(("Expected quote"@, c)),
        Some(q) => match string_body(s, q, seq![], step(c, q)) {
            Err(e) => Err(e),
            Ok((body, c1)) => Ok((literal_model(body), c1)),
        },
    }
}

pub open spec fn class_item(start: char, end: char) -> CharClassItem {
    CharClassItem { start: start as u32, end: end as u32 }
}

/// The items of a character class up to `]` (read) or the end.
pub open spec fn class_body(s: Seq<char>, items: Seq<CharClassItem>, c: Cursor) -> Step<
    Seq<CharClassItem>,
>
    decreases s.len() - c.pos,
{
    match peek(s, c) {
        None => Ok((items, c)),
        Some(ch) => if ch == ']' {
            Ok((items, step(c, ch)))
        } else {
            let c1 = step(c, ch);
            if peek(s, c1) == Some('-') {
                let c2 = step(c1, '-');
                match peek(s, c2) {
                    None => Err(("Expected character after '-'"@, c2)),
                    Some(e) => {
                        let c3 = step(c2, e);
                        if ch as u32 > e as u32 {
                            Err(("Invalid range: "@ + seq![ch] + " > "@ + seq![e], c3))
                        } else {
                            class_body(s, items.push(class_item(ch, e)), c3)
                        }
                    },
                }
            } else {
                class_body(s, items.push(class_item(ch, ch)), c1)
            }
        },
    }
}

/// A character class; `c` stands at its `[`.
pub open spec fn char_class(s: Seq<char>, c: Cursor) -> Step<ExprModel> {
    match expect_char(s, c, '[') {
        Err(e) => Err(e),
        Ok((_, c1)) => {
            let negated = peek(s, c1) == Some('^');
            let c2 = if negated {
                step(c1, '^')
            } else {
                c1
            };
            match class_body(s, seq![], c2) {
                Err(e) => Err(e),
                Ok((items, c3)) => Ok((ExprModel::CharClass(negated, items), c3)),
            }
        },
    }
}

/// The postfix operators after a primary.
pub open spec fn suffix_ops(s: Seq<char>, e: ExprModel, c: Cursor) -> (ExprModel, Cursor)
    decreases s.len() - c.pos,
{
    match peek(s, c) {
        Some(op) => if op == '*' {
            suffix_ops(s, ExprModel::Repeat(Box::new(e)), step(c, op))
        } else if op == '+' {
            suffix_ops(s, ExprModel::Plus(Box::new(e)), step(c, op))
        } else if op == '?' {
            suffix_ops(s, ExprModel::Optional(Box::new(e)), step(c, op))
        } else {
            (e, c)
        },
        None => (e, c),
    }
}

pub open spec fn in_range(s: Seq<char>, c: Cursor, c1: Cursor) -> bool {
    c.pos <= c1.pos <= s.len()
}

/// An expression: an ordered choice.
pub open spec fn p_expr(s: Seq<char>, c: Cursor) -> Step<ExprModel>
    decreases s.len() - c.pos, 7int,
{
    p_choice(s, c)
}

pub open spec fn p_choice(s: Seq<char>, c: Cursor) -> Step<ExprModel>
    decreases s.len() - c.pos, 6int,
{
    match p_seq(s, c) {
        Err(e) => Err(e),
        Ok((e, c1)) => if in_range(s, c, c1) {
            choice_rest(s, seq![e], c1)
        } else {
            Err((seq![], c1))
        },
    }
}

/// Further alternatives, each after a `/`.
pub open spec fn choice_rest(s: Seq<char>, es: Seq<ExprModel>, c: Cursor) -> Step<ExprModel>
    decreases s.len() - c.pos, 5int,
{
    let c1 = skip(s, c);
    if peek(s, c1) == Some('/') && in_range(s, c, c1) {
        let c2 = step(c1, '/');
        let c3 = skip(s, c2);
        if in_range(s, c2, c3) {
            match p_seq(s, c3) {
                Err(e) => Err(e),
                Ok((e, c4)) => if in_range(s, c3, c4) {
                    choice_rest(s, es.push(e), c4)
                } else {
                    Err((seq![], c4))
                },
            }
        } else {
            Err((seq![], c3))
        }
    } else {
        Ok((combine(es, true), c1))
    }
}

pub open spec fn p_seq(s: Seq<char>, c: Cursor) -> Step<ExprModel>
    decreases s.len() - c.pos, 4int,
{
    let c1 = skip(s, c);
    if in_range(s, c, c1) {
        match seq_items(s, seq![], c1) {
            Err(e) => Err(e),
            Ok((es, c2)) => if es.len() == 0 {
                Err(("Expected expression"@, c2))
            } else {
                Ok((combine(es, false), c2))
            },
        }
    } else {
        Err((seq![], c1))
    }
}

pub open spec fn ends_sequence(s: Seq<char>, c: Cursor, ch: char) -> bool {
    ch == '/' || ch == ')' || ch == '*' || ch == '+' || ch == '?' || at_rule_start(s, c)
}

pub open spec fn seq_items(s: Seq<char>, es: Seq<ExprModel>, c: Cursor) -> Step<Seq<ExprModel>>
    decreases s.len() - c.pos, 3int,
{
    match peek(s, c) {
        None => Ok((es, c)),
        Some(ch) => if ends_sequence(s, c, ch) {
            Ok((es, c))
        } else {
            match p_prefix(s, c) {
                Err(e) => Err(e),
                Ok((e, c1)) => {
                    let c2 = skip(s, c1);
                    if c.pos < c1.pos && in_range(s, c1, c2) {
                        seq_items(s, es.push(e), c2)
                    } else {
                        Err((seq![], c2))
                    }
                },
            }
        },
    }
}

pub open spec fn p_prefix(s: Seq<char>, c: Cursor) -> Step<ExprModel>
    decreases s.len() - c.pos, 2int,
{
    let c1 = skip(s, c);
    if in_range(s, c, c1) {
        match peek(s, c1) {
            Some(ch) => if ch == '&' || ch == '!' {
                match p_prefix(s, step(c1, ch)) {
                    Err(e) => Err(e),
                    Ok((e, c2)) => if ch == '&' {
                        Ok((ExprModel::AndPredicate(Box::new(e)), c2))
                    } else {
                        Ok((ExprModel::NotPredicate(Box::new(e)), c2))
                    },
                }
            } else {
                p_suffix(s, c1)
            },
            None => p_suffix(s, c1),
        }
    } else {
        Err((seq![], c1))
    }
}

pub open spec fn p_suffix(s: Seq<char>, c: Cursor) -> Step<ExprModel>
    decreases s.len() - c.pos, 1int,
{
    match p_primary(s, c) {
        Err(e) => Err(e),
        Ok((e, c1)) => Ok(suffix_ops(s, e, c1)),
    }
}

pub open spec fn p_primary(s: Seq<char>, c: Cursor) -> Step<ExprModel>
    decreases s.len() - c.pos, 0int,
{
    let c1 = skip(s, c);
    if in_range(s, c, c1) {
        match peek(s, c1) {
            Some(ch) => if ch == '(' {
                if c1.pos < s.len() {
                    match p_expr(s, step(c1, ch)) {
                        Err(e) => Err(e),
                        Ok((e, c2)) => match expect_char(s, c2, ')') {
                            Err(err) => Err(err),
                            Ok((_, c3)) => Ok((ExprModel::Group(Box::new(e)), c3)),
                        },
                    }
                } else {
                    Err((seq![], c1))
                }
            } else if ch == '\'' || ch == '"' {
                string_literal(s, c1)
            } else if is_ident_start(ch) {
                match identifier(s, c1) {
                    Err(e) => Err(e),
                    Ok((name, c2)) => if name == "EOF"@ {
                        Ok((ExprModel::Eof, c2))
                    } else {
                        Ok((ExprModel::RuleRef(name), c2))
                    },
                }
            } else if ch == '.' {
                Ok((ExprModel::AnyChar, step(c1, ch)))
            } else if ch == '[' {
                char_class(s, c1)
            } else {
                Err(("Unexpected token in expression"@, c1))
            },
            None => Err(("Unexpected token in expression"@, c1)),
        }
    } else {
        Err((seq![], c1))
    }
}

/// The text of an action block up to its matching `}` (read) or the end.
pub open spec fn action_body(s: Seq<char>, depth: nat, code: Seq<char>, c: Cursor) -> (
    Seq<char>,
    Cursor,
)
    decreases s.len() - c.pos,
{
    match peek(s, c) {
        None => (code, c),
        Some(ch) => if ch == '{' {
            action_body(s, depth + 1, code.push(ch), step(c, ch))
        } else if ch == '}' {
            if depth <= 1 {
                (code, step(c, ch))
            } else {
                action_body(s, (depth - 1) as nat, code.push(ch), step(c, ch))
            }
        } else {
            action_body(s, depth, code.push(ch), step(c, ch))
        },
    }
}

/// `t` without leading whitespace.
pub open spec fn trim_start(t: Seq<char>) -> Seq<char>
    decreases t.len(),
{
    if t.len() > 0 && is_whitespace(t[0]) {
        trim_start(t.drop_first())
    } else {
        t
    }
}

/// `t` without trailing whitespace.
pub open spec fn trim_end(t: Seq<char>) -> Seq<char>
    decreases t.len(),
{
    if t.len() > 0 && is_whitespace(t.last()) {
        trim_end(t.drop_last())
    } else {
        t
    }
}

pub open spec fn trim(t: Seq<char>) -> Seq<char> {
    trim_end(trim_start(t))
}

/// One rule with its optional action.
pub open spec fn p_rule(s: Seq<char>, c: Cursor) -> Step<RuleModel> {
    let c1 = skip(s, c);
    match identifier(s, c1) {
        Err(e) => Err(e),
        Ok((name, c2)) => {
            let c3 = skip(s, c2);
            match expect_chars(s, c3, "<-"@) {
                Err(e) => Err(e),
                Ok((_, c5)) => match p_expr(s, skip(s, c5)) {
                    Err(e) => Err(e),
                    Ok((expr, c6)) => {
                        let c7 = skip(s, c6);
                        if peek(s, c7) == Some('{') {
                            let (code, c8) = action_body(s, 1, seq![], step(c7, '{'));
                            let t = trim(code);
                            let ast = if t.len() == 0 {
                                None
                            } else {
                                Some(t)
                            };
                            Ok((RuleModel { name, expr, ast }, c8))
                        } else {
                            Ok((RuleModel { name, expr, ast: None }, c7))
                        }
                    },
                },
            }
        },
    }
}

/// Whether a rule named `name` is among `rules`.
pub open spec fn defines(rules: Seq<RuleModel>, name: Seq<char>) -> bool {
    exists|i: int| 0 <= i < rules.len() && #[trigger] rules[i].name == name
}

pub open spec fn duplicate_msg(name: Seq<char>) -> Seq<char> {
    "Duplicate definition of rule '"@ + name + "'"@
}

/// Rules up to the end of the input.
pub open spec fn rules_from(s: Seq<char>, rules: Seq<RuleModel>, c: Cursor) -> Step<
    Seq<RuleModel>,
>
    decreases s.len() - c.pos,
{
    match peek(s, c) {
        None => Ok((rules, c)),
        Some(_) => match p_rule(s, c) {
            Err(e) => Err(e),
            Ok((r, c1)) => if defines(rules, r.name) {
                Err((duplicate_msg(r.name), c1))
            } else {
                let c2 = skip(s, c1);
                if c.pos < c1.pos && in_range(s, c1, c2) {
                    rules_from(s, rules.push(r), c2)
                } else {
                    Err((seq![], c2))
                }
            },
        },
    }
}

/// The rules of the input from `c` on, after leading whitespace, or the
/// first error.
pub open spec fn grammar_of(s: Seq<char>, c: Cursor) -> Step<Seq<RuleModel>> {
    rules_from(s, seq![], skip(s, c))
}

/// Whether an executed step that builds a value matches the specified one:
/// the value's view and the final cursor, or the same error at the same place.
pub open spec fn agrees_view<T: View>(r: Result<T, Error>, s: Step<T::V>, now: Cursor) -> bool {
    match (r, s) {
        (Ok(v), Ok((w, c))) => v@ == w && now == c,
        (Err(e), Err((m, c))) => is_error_at(e, m, c),
        _ => false,
    }
}

pub open spec fn rule_models(v: Seq<Rule>) -> Seq<RuleModel> {
    v.map_values(|r: Rule| r@)
}

/// What `PegParser::parse` returns for the outcome `g` of `grammar_of`.
pub open spec fn parsed(r: Result<Grammar, Error>, g: Step<Seq<RuleModel>>) -> bool {
    match g {
        Err((m, c)) => r matches Err(e) && is_error_at(e, m, c),
        Ok((rules, _)) => if rules.len() == 0 {
            r matches Err(e) && e matches Error::Other(m) && m@ == "No rules defined"@
        } else {
            r matches Ok(gr) && gr@ == (GrammarModel { start: rules[0].name, rules })
        },
    }
}

pub struct PegParser {
    input: Vec<char>,
    pos: usize,
    line: usize,
    col: usize,
}

impl PegParser {
    /// The characters being parsed.
    pub closed spec fn input(&self) -> Seq<char> {
        self.input@
    }

    /// Where the parser stands.
    pub closed spec fn cursor(&self) -> Cursor {
        Cursor { pos: self.pos as int, line: self.line as int, col: self.col as int }
    }

    /// The position and line/column counters stay in range for the rest of
    /// the input.
    pub closed spec fn wf(&self) -> bool {
        &&& self.input.len() + 2 < usize::MAX
        &&& self.pos <= self.input.len()
        &&& self.line + (self.input.len() - self.pos) < usize::MAX
        &&& self.col + (self.input.len() - self.pos) < usize::MAX
    }

    pub fn new(input: &str) -> (p: Self)
        requires
            input@.len() + 2 < usize::MAX,
        ensures
            p.input() == input@,
            p.cursor() == (Cursor { pos: 0, line: 1, col: 1 }),
            p.wf(),
    {
        PegParser { input: chars_of(input), pos: 0, line: 1, col: 1 }
    }

    fn peek(&self) -> (r: Option<char>)
        ensures
            r == peek(self.input(), self.cursor()),
    {
        if self.pos < self.input.len() {
            Some(self.input[self.pos])
        } else {
            None
        }
    }

    fn peek_ahead(&self, offset: usize) -> (r: Option<char>)
        requires
            self.wf(),
        ensures
            r == peek_at(self.input(), self.cursor(), offset as int),
    {
        if offset < self.input.len() - self.pos {
            Some(self.input[self.pos + offset])
        } else {
            None
        }
    }

    fn advance(&mut self)
        requires
            old(self).wf(),
        ensures
            final(self).wf(),
            final(self).input() == old(self).input(),
            final(self).cursor() == adv(old(self).input(), old(self).cursor()),
    {
        if let Some(c) = self.peek() {
            self.pos = self.pos + 1;
            if c == '\n' {
                self.line = self.line + 1;
                self.col = 1;
            } else {
                self.col = self.col + 1;
            }
        }
    }

    fn consume(&mut self) -> (r: Option<char>)
        requires
            old(self).wf(),
        ensures
            final(self).wf(),
            final(self).input() == old(self).input(),
            r == peek(old(self).input(), old(self).cursor()),
            final(self).cursor() == adv(old(self).input(), old(self).cursor()),
    {
        let c = self.peek()?;
        self.advance();
        Some(c)
    }

    /// Skips whitespace and `//` comments; tells whether anything was skipped.
    fn skip_whitespace_and_comments(&mut self) -> (skipped: bool)
        requires
            old(self).wf(),
        ensures
            final(self).wf(),
            final(self).input() == old(self).input(),
            final(self).pos >= old(self).pos,
            (skipped, final(self).cursor()) == skip_ws(old(self).input(), old(self).cursor(), false),
    {
        let ghost s = self.input();
        let ghost c0 = self.cursor();
        let mut skipped = false;
        loop
            invariant
                self.wf(),
                self.input() == s,
                s == old(self).input(),
                c0 == old(self).cursor(),
                self.pos >= c0.pos,
                skip_ws(s, c0, false) == skip_ws(s, self.cursor(), skipped),
            ensures
                self.wf(),
                self.input() == s,
                self.pos >= c0.pos,
                skip_ws(s, c0, false) == (skipped, self.cursor()),
            decreases self.input.len() - self.pos,
        {
            match self.peek() {
                Some(c) => {
                    if whitespace(c) {
                        self.advance();
                        skipped = true;
                    } else if c == '/' && self.peek_ahead(1) == Some('/') {
                        self.advance();
                        self.advance();
                        let ghost c2 = self.cursor();
                        loop
                            invariant
                                self.wf(),
                                self.input() == s,
                                self.pos >= c2.pos,
                                skip_comment(s, c2) == skip_comment(s, self.cursor()),
                            ensures
                                self.wf(),
                                self.input() == s,
                                self.pos >= c2.pos,
                                skip_comment(s, c2) == self.cursor(),
                            decreases self.input.len() - self.pos,
                        {
                            match self.peek() {
                                Some(ch) => {
                                    if ch == '\n' {
                                        break ;
                                    }
                                    self.advance();
                                },
                                None => {
                                    break ;
                                },
                            }
                        }
                        skipped = true;
                    } else {
                        break ;
                    }
                },
                None => {
                    break ;
                },
            }
        }
        skipped
    }

    fn error(&self, msg: &Vec<char>) -> (e: Error)
        ensures
            is_error_at(e, msg@, self.cursor()),
    {
        Error::parse(string_of(msg.as_slice()), self.line, self.col)
    }

    fn parse_identifier(&mut self) -> (r: Result<String, Error>)
        requires
            old(self).wf(),
        ensures
            final(self).wf(),
            final(self).input() == old(self).input(),
            final(self).pos >= old(self).pos,
            r is Ok ==> final(self).pos > old(self).pos,
            agrees_view(r, identifier(old(self).input(), old(self).cursor()), final(self).cursor()),
    {
        let ghost s = self.input();
        self.skip_whitespace_and_comments();
        let ghost c1 = self.cursor();
        match self.peek() {
            Some(c) => {
                if ascii_alphabetic(c) || c == '_' {
                    let mut name: Vec<char> = Vec::new();
                    name.push(c);
                    self.advance();
                    loop
                        invariant
                            self.wf(),
                            self.input() == s,
                            self.pos > c1.pos,
                            ident_run(s, seq![c], step(c1, c)) == ident_run(s, name@, self.cursor()),
                        ensures
                            self.wf(),
                            self.input() == s,
                            self.pos > c1.pos,
                            ident_run(s, seq![c], step(c1, c)) == (name@, self.cursor()),
                        decreases self.input.len() - self.pos,
                    {
                        match self.peek() {
                            Some(c2) => {
                                if ascii_alphanumeric(c2) || c2 == '_' {
                                    name.push(c2);
                                    self.advance();
                                } else {
                                    break ;
                                }
                            },
                            None => {
                                break ;
                            },
                        }
                    }
                    Ok(string_of(name.as_slice()))
                } else {
                    let mut m: Vec<char> = Vec::new();
                    push_str(&mut m, "Expected identifier, found '");
                    m.push(c);
                    push_str(&mut m, "'");
                    assert(m@ =~= "Expected identifier, found '"@ + seq![c] + "'"@);
                    Err(self.error(&m))
                }
            },
            None => {
                let mut m: Vec<char> = Vec::new();
                push_str(&mut m, "Expected identifier");
                assert(m@ =~= "Expected identifier"@);
                Err(self.error(&m))
            },
        }
    }

    fn expect(&mut self, expected: char) -> (r: Result<(), Error>)
        requires
            old(self).wf(),
        ensures
            final(self).wf(),
            final(self).input() == old(self).input(),
            final(self).pos >= old(self).pos,
            agrees(r, expect_char(old(self).input(), old(self).cursor(), expected), final(self).cursor()),
    {
        if let Some(c) = self.consume() {
            if c == expected {
                Ok(())
            } else {
                let mut m: Vec<char> = Vec::new();
                push_str(&mut m, "Expected '");
                m.push(expected);
                push_str(&mut m, "', found '");
                m.push(c);
                push_str(&mut m, "'");
                assert(m@ =~= "Expected '"@ + seq![expected] + "', found '"@ + seq![c] + "'"@);
                Err(self.error(&m))
            }
        } else {
            let mut m: Vec<char> = Vec::new();
            push_str(&mut m, "Expected '");
            m.push(expected);
            push_str(&mut m, "'");
            assert(m@ =~= "Expected '"@ + seq![expected] + "'"@);
            Err(self.error(&m))
        }
    }

    fn expect_str(&mut self, text: &str) -> (r: Result<(), Error>)
        requires
            old(self).wf(),
        ensures
            final(self).wf(),
            final(self).input() == old(self).input(),
            final(self).pos >= old(self).pos,
            agrees(r, expect_chars(old(self).input(), old(self).cursor(), text@), final(self).cursor()),
    {
        let ghost s = self.input();
        let ghost c0 = self.cursor();
        let cs = chars_of(text);
        let mut i: usize = 0;
        assert(text@.skip(0) =~= text@);
        while i < cs.len()
            invariant
                self.wf(),
                self.input() == s,
                s == old(self).input(),
                c0 == old(self).cursor(),
                self.pos >= c0.pos,
                cs@ == text@,
                i <= cs.len(),
                expect_chars(s, c0, text@) == expect_chars(s, self.cursor(), text@.skip(i as int)),
            decreases cs.len() - i,
        {
            assert(text@.skip(i as int)[0] == cs@[i as int]);
            assert(text@.skip(i as int).drop_first() =~= text@.skip(i + 1));
            self.expect(cs[i])?;
            i = i + 1;
        }
        assert(text@.skip(i as int) =~= seq![]);
        Ok(())
    }

    fn parse_string_literal(&mut self) -> (r: Result<Expr, Error>)
        requires
            old(self).wf(),
        ensures
            final(self).wf(),
            final(self).input() == old(self).input(),
            final(self).pos >= old(self).pos,
            r is Ok ==> final(self).pos > old(self).pos,
            agrees_view(r, string_literal(old(self).input(), old(self).cursor()), final(self).cursor()),
    {
        let ghost s = self.input();
        let ghost c0 = self.cursor();
        let quote = match self.consume() {
            Some(q) => q,
            None => {
                let mut m: Vec<char> = Vec::new();
                push_str(&mut m, "Expected quote");
                assert(m@ =~= "Expected quote"@);
                return Err(self.error(&m));
            },
        };
        let mut text: Vec<char> = Vec::new();
        loop
            invariant_except_break
                string_body(s, quote, seq![], step(c0, quote)) == string_body(
                    s,
                    quote,
                    text@,
                    self.cursor(),
                ),
            invariant
                self.wf(),
                self.input() == s,
                s == old(self).input(),
                c0 == old(self).cursor(),
                self.pos > c0.pos,
                peek(s, c0) == Some(quote),
            ensures
                self.wf(),
                self.input() == s,
                self.pos > c0.pos,
                string_body(s, quote, seq![], step(c0, quote)) == Ok::<
                    (Seq<char>, Cursor),
                    (Seq<char>, Cursor),
                >((text@, self.cursor())),
            decreases self.input.len() - self.pos,
        {
            match self.peek() {
                None => {
                    break ;
                },
                Some(c) => {
                    if c == quote {
                        self.advance();
                        break ;
                    }
                    if c == '\\' {
                        self.advance();
                        let escaped = match self.consume() {
                            Some(e) => e,
                            None => {
                                let mut m: Vec<char> = Vec::new();
                                push_str(&mut m, "Escape at end of string");
                                assert(m@ =~= "Escape at end of string"@);
                                return Err(self.error(&m));
                            },
                        };
                        let ch = if escaped == 'n' {
                            '\n'
                        } else if escaped == 't' {
                            '\t'
                        } else if escaped == 'r' {
                            '\r'
                        } else if escaped == '\\' || escaped == '\'' || escaped == '"' {
                            escaped
                        } else {
                            let mut m: Vec<char> = Vec::new();
                            push_str(&mut m, "Invalid escape sequence: \\");
                            m.push(escaped);
                            assert(m@ =~= "Invalid escape sequence: \\"@ + seq![escaped]);
                            return Err(self.error(&m));
                        };
                        text.push(ch);
                    } else {
                        text.push(c);
                        self.advance();
                    }
                },
            }
        }
        let t = string_of(text.as_slice());
        Ok(string_literal_to_expr(t.as_str()))
    }

    fn parse_char_class(&mut self) -> (r: Result<Expr, Error>)
        requires
            old(self).wf(),
        ensures
            final(self).wf(),
            final(self).input() == old(self).input(),
            final(self).pos >= old(self).pos,
            r is Ok ==> final(self).pos > old(self).pos,
            agrees_view(r, char_class(old(self).input(), old(self).cursor()), final(self).cursor()),
    {
        let ghost s = self.input();
        let ghost c0 = self.cursor();
        self.expect('[')?;
        let ghost c1 = self.cursor();
        let negated = if self.peek() == Some('^') {
            self.advance();
            true
        } else {
            false
        };
        let ghost c2 = self.cursor();
        assert(negated == (peek(s, c1) == Some('^')));
        assert(char_class(s, c0) == match class_body(s, seq![], c2) {
            Err(e) => Err(e),
            Ok((items, c3)) => Ok((ExprModel::CharClass(negated, items), c3)),
        });
        let mut items: Vec<CharClassItem> = Vec::new();
        loop
            invariant_except_break
                class_body(s, seq![], c2) == class_body(s, items@, self.cursor()),
            invariant
                self.wf(),
                self.input() == s,
                s == old(self).input(),
                c0 == old(self).cursor(),
                self.pos >= c2.pos > c0.pos,
                char_class(s, c0) == match class_body(s, seq![], c2) {
                    Err(e) => Err(e),
                    Ok((items, c3)) => Ok((ExprModel::CharClass(negated, items), c3)),
                },
            ensures
                self.wf(),
                self.input() == s,
                self.pos >= c2.pos,
                class_body(s, seq![], c2) == Ok::<
                    (Seq<CharClassItem>, Cursor),
                    (Seq<char>, Cursor),
                >((items@, self.cursor())),
            decreases self.input.len() - self.pos,
        {
            match self.peek() {
                None => {
                    break ;
                },
                Some(c) => {
                    if c == ']' {
                        self.advance();
                        break ;
                    }
                    let ghost cb = self.cursor();
                    let start = c;
                    self.advance();
                    let end = if self.peek() == Some('-') {
                        self.advance();
                        match self.consume() {
                            Some(e) => e,
                            None => {
                                let mut m: Vec<char> = Vec::new();
                                push_str(&mut m, "Expected character after '-'");
                                assert(m@ =~= "Expected character after '-'"@);
                                assert(class_body(s, items@, cb) == Err::<
                                    (Seq<CharClassItem>, Cursor),
                                    (Seq<char>, Cursor),
                                >((m@, self.cursor())));
                                return Err(self.error(&m));
                            },
                        }
                    } else {
                        start
                    };
                    let a = code_point(start);
                    let b = code_point(end);
                    if a > b {
                        let mut m: Vec<char> = Vec::new();
                        push_str(&mut m, "Invalid range: ");
                        m.push(start);
                        push_str(&mut m, " > ");
                        m.push(end);
                        assert(m@ =~= "Invalid range: "@ + seq![start] + " > "@ + seq![end]);
                        assert(class_body(s, items@, cb) == Err::<
                            (Seq<CharClassItem>, Cursor),
                            (Seq<char>, Cursor),
                        >((m@, self.cursor())));
                        return Err(self.error(&m));
                    }
                    items.push(CharClassItem { start: a, end: b });
                },
            }
        }
        Ok(Expr::CharClass(CharClass { negated, items }))
    }

    /// Whether the parser stands at an identifier followed by `<-`: the head
    /// of the next rule. The parser is left where it was.
    fn at_rule_start(&mut self) -> (b: bool)
        requires
            old(self).wf(),
        ensures
            final(self).wf(),
            final(self).input() == old(self).input(),
            final(self).cursor() == old(self).cursor(),
            b == at_rule_start(old(self).input(), old(self).cursor()),
    {
        let ghost s = self.input();
        let ghost c0 = self.cursor();
        let pos = self.pos;
        let line = self.line;
        let col = self.col;
        let b = match self.peek() {
            Some(c) => {
                if ascii_alphabetic(c) || c == '_' {
                    self.advance();
                    let ghost mut acc = seq![c];
                    loop
                        invariant
                            self.wf(),
                            self.input() == s,
                            ident_run(s, seq![c], step(c0, c)) == ident_run(s, acc, self.cursor()),
                        ensures
                            self.wf(),
                            self.input() == s,
                            ident_run(s, seq![c], step(c0, c)) == (acc, self.cursor()),
                        decreases self.input.len() - self.pos,
                    {
                        match self.peek() {
                            Some(c2) => {
                                if ascii_alphanumeric(c2) || c2 == '_' {
                                    proof {
                                        acc = acc.push(c2);
                                    }
                                    self.advance();
                                } else {
                                    break ;
                                }
                            },
                            None => {
                                break ;
                            },
                        }
                    }
                    self.skip_whitespace_and_comments();
                    self.peek() == Some('<') && self.peek_ahead(1) == Some('-')
                } else {
                    false
                }
            },
            None => false,
        };
        self.pos = pos;
        self.line = line;
        self.col = col;
        b
    }

    fn parse_expr(&mut self) -> (r: Result<Expr, Error>)
        requires
            old(self).wf(),
        ensures
            final(self).wf(),
            final(self).input() == old(self).input(),
            final(self).pos >= old(self).pos,
            agrees_view(r, p_expr(old(self).input(), old(self).cursor()), final(self).cursor()),
        decreases old(self).input.len() - old(self).pos, 7int,
    {
        self.parse_choice()
    }

    fn parse_choice(&mut self) -> (r: Result<Expr, Error>)
        requires
            old(self).wf(),
        ensures
            final(self).wf(),
            final(self).input() == old(self).input(),
            final(self).pos >= old(self).pos,
            agrees_view(r, p_choice(old(self).input(), old(self).cursor()), final(self).cursor()),
        decreases old(self).input.len() - old(self).pos, 6int,
    {
        let ghost s = self.input();
        let ghost c0 = self.cursor();
        let first = self.parse_sequence()?;
        let mut exprs: Vec<Expr> = Vec::new();
        exprs.push(first);
        assert(expr_models(exprs@) =~= seq![first@]);
        loop
            invariant_except_break
                p_choice(s, c0) == choice_rest(s, expr_models(exprs@), self.cursor()),
            invariant
                self.wf(),
                self.input() == s,
                s == old(self).input(),
                c0 == old(self).cursor(),
                self.pos >= c0.pos,
                exprs.len() > 0,
            ensures
                self.wf(),
                self.input() == s,
                self.pos >= c0.pos,
                exprs.len() > 0,
                p_choice(s, c0) == Ok::<(ExprModel, Cursor), (Seq<char>, Cursor)>(
                    (combine(expr_models(exprs@), true), self.cursor()),
                ),
            decreases self.input.len() - self.pos,
        {
            let ghost cl = self.cursor();
            let ghost es = expr_models(exprs@);
            self.skip_whitespace_and_comments();
            if self.peek() == Some('/') {
                let ghost c1 = self.cursor();
                self.advance();
                let ghost c2 = self.cursor();
                assert(c2 == step(c1, '/'));
                self.skip_whitespace_and_comments();
                let ghost c3 = self.cursor();
                let e = match self.parse_sequence() {
                    Ok(e) => e,
                    Err(err) => {
                        assert(choice_rest(s, es, cl) == p_seq(s, c3));
                        return Err(err);
                    },
                };
                assert(choice_rest(s, es, cl) == choice_rest(s, es.push(e@), self.cursor()));
                let ghost before = exprs@;
                exprs.push(e);
                assert(expr_models(exprs@) =~= expr_models(before).push(e@));
            } else {
                break ;
            }
        }
        Ok(Expr::choice(exprs))
    }

    fn parse_sequence(&mut self) -> (r: Result<Expr, Error>)
        requires
            old(self).wf(),
        ensures
            final(self).wf(),
            final(self).input() == old(self).input(),
            final(self).pos >= old(self).pos,
            agrees_view(r, p_seq(old(self).input(), old(self).cursor()), final(self).cursor()),
        decreases old(self).input.len() - old(self).pos, 4int,
    {
        let ghost s = self.input();
        let ghost c0 = self.cursor();
        let mut exprs: Vec<Expr> = Vec::new();
        self.skip_whitespace_and_comments();
        let ghost c1 = self.cursor();
        assert(expr_models(exprs@) =~= seq![]);
        loop
            invariant
                self.wf(),
                self.input() == s,
                s == old(self).input(),
                c0 == old(self).cursor(),
                c1 == skip(s, c0),
                self.pos >= c1.pos >= c0.pos,
                seq_items(s, seq![], c1) == seq_items(s, expr_models(exprs@), self.cursor()),
            ensures
                self.wf(),
                self.input() == s,
                self.pos >= c1.pos,
                seq_items(s, seq![], c1) == Ok::<(Seq<ExprModel>, Cursor), (Seq<char>, Cursor)>(
                    (expr_models(exprs@), self.cursor()),
                ),
            decreases self.input.len() - self.pos,
        {
            match self.peek() {
                None => {
                    break ;
                },
                Some(c) => {
                    if c == '/' || c == ')' || c == '*' || c == '+' || c == '?'
                        || self.at_rule_start() {
                        break ;
                    }
                    let e = self.parse_prefix()?;
                    let ghost before = exprs@;
                    exprs.push(e);
                    assert(expr_models(exprs@) =~= expr_models(before).push(e@));
                    self.skip_whitespace_and_comments();
                },
            }
        }
        if exprs.len() == 0 {
            let mut m: Vec<char> = Vec::new();
            push_str(&mut m, "Expected expression");
            assert(m@ =~= "Expected expression"@);
            Err(self.error(&m))
        } else {
            Ok(Expr::seq(exprs))
        }
    }

    fn parse_prefix(&mut self) -> (r: Result<Expr, Error>)
        requires
            old(self).wf(),
        ensures
            final(self).wf(),
            final(self).input() == old(self).input(),
            final(self).pos >= old(self).pos,
            r is Ok ==> final(self).pos > old(self).pos,
            agrees_view(r, p_prefix(old(self).input(), old(self).cursor()), final(self).cursor()),
        decreases old(self).input.len() - old(self).pos, 2int,
    {
        self.skip_whitespace_and_comments();
        let c = self.peek();
        if c == Some('&') {
            self.advance();
            let inner = self.parse_prefix()?;
            Ok(Expr::AndPredicate(Box::new(inner)))
        } else if c == Some('!') {
            self.advance();
            let inner = self.parse_prefix()?;
            Ok(Expr::NotPredicate(Box::new(inner)))
        } else {
            self.parse_suffix()
        }
    }

    fn parse_suffix(&mut self) -> (r: Result<Expr, Error>)
        requires
            old(self).wf(),
        ensures
            final(self).wf(),
            final(self).input() == old(self).input(),
            final(self).pos >= old(self).pos,
            r is Ok ==> final(self).pos > old(self).pos,
            agrees_view(r, p_suffix(old(self).input(), old(self).cursor()), final(self).cursor()),
        decreases old(self).input.len() - old(self).pos, 1int,
    {
        let ghost s = self.input();
        let ghost c0 = self.cursor();
        let mut expr = self.parse_primary()?;
        let ghost e1 = expr@;
        let ghost c1 = self.cursor();
        loop
            invariant
                self.wf(),
                self.input() == s,
                self.pos >= c1.pos > c0.pos,
                suffix_ops(s, e1, c1) == suffix_ops(s, expr@, self.cursor()),
            ensures
                self.wf(),
                self.input() == s,
                self.pos >= c1.pos,
                suffix_ops(s, e1, c1) == (expr@, self.cursor()),
            decreases self.input.len() - self.pos,
        {
            match self.peek() {
                Some(c) => {
                    if c == '*' {
                        self.advance();
                        expr = Expr::Repeat(Box::new(expr));
                    } else if c == '+' {
                        self.advance();
                        expr = Expr::Plus(Box::new(expr));
                    } else if c == '?' {
                        self.advance();
                        expr = Expr::Optional(Box::new(expr));
                    } else {
                        break ;
                    }
                },
                None => {
                    break ;
                },
            }
        }
        Ok(expr)
    }

    fn parse_primary(&mut self) -> (r: Result<Expr, Error>)
        requires
            old(self).wf(),
        ensures
            final(self).wf(),
            final(self).input() == old(self).input(),
            final(self).pos >= old(self).pos,
            r is Ok ==> final(self).pos > old(self).pos,
            agrees_view(r, p_primary(old(self).input(), old(self).cursor()), final(self).cursor()),
        decreases old(self).input.len() - old(self).pos, 0int,
    {
        self.skip_whitespace_and_comments();
        match self.peek() {
            Some(c) => {
                if c == '(' {
                    self.advance();
                    let expr = self.parse_expr()?;
                    self.expect(')')?;
                    Ok(Expr::Group(Box::new(expr)))
                } else if c == '\'' || c == '"' {
                    self.parse_string_literal()
                } else if ascii_alphabetic(c) || c == '_' {
                    let name = self.parse_identifier()?;
                    let eof: String = "EOF".to_owned();
                    if name == eof {
                        Ok(Expr::Eof)
                    } else {
                        Ok(Expr::RuleRef(name))
                    }
                } else if c == '.' {
                    self.advance();
                    Ok(Expr::AnyChar)
                } else if c == '[' {
                    self.parse_char_class()
                } else {
                    let mut m: Vec<char> = Vec::new();
                    push_str(&mut m, "Unexpected token in expression");
                    assert(m@ =~= "Unexpected token in expression"@);
                    Err(self.error(&m))
                }
            },
            None => {
                let mut m: Vec<char> = Vec::new();
                push_str(&mut m, "Unexpected token in expression");
                assert(m@ =~= "Unexpected token in expression"@);
                Err(self.error(&m))
            },
        }
    }

    fn parse_rule(&mut self) -> (r: Result<Rule, Error>)
        requires
            old(self).wf(),
        ensures
            final(self).wf(),
            final(self).input() == old(self).input(),
            final(self).pos >= old(self).pos,
            r is Ok ==> final(self).pos > old(self).pos,
            agrees_view(r, p_rule(old(self).input(), old(self).cursor()), final(self).cursor()),
    {
        let ghost s = self.input();
        self.skip_whitespace_and_comments();
        let name = self.parse_identifier()?;
        self.skip_whitespace_and_comments();
        self.expect_str("<-")?;
        self.skip_whitespace_and_comments();
        let expr = self.parse_expr()?;
        self.skip_whitespace_and_comments();
        let ast = if self.peek() == Some('{') {
            self.advance();
            let ghost cs = self.cursor();
            let mut depth: usize = 1;
            let mut code: Vec<char> = Vec::new();
            loop
                invariant_except_break
                    action_body(s, 1, seq![], cs) == action_body(
                        s,
                        depth as nat,
                        code@,
                        self.cursor(),
                    ),
                invariant
                    self.wf(),
                    self.input() == s,
                    self.pos >= cs.pos >= 0,
                    1 <= depth <= 1 + (self.pos - cs.pos),
                ensures
                    self.wf(),
                    self.input() == s,
                    self.pos >= cs.pos,
                    action_body(s, 1, seq![], cs) == (code@, self.cursor()),
                decreases self.input.len() - self.pos,
            {
                match self.peek() {
                    None => {
                        break ;
                    },
                    Some(c) => {
                        if c == '{' {
                            depth = depth + 1;
                        } else if c == '}' {
                            if depth <= 1 {
                                self.advance();
                                break ;
                            }
                            depth = depth - 1;
                        }
                        code.push(c);
                        self.advance();
                    },
                }
            }
            let trimmed = trim_chars(&code);
            if trimmed.len() == 0 {
                None
            } else {
                Some(string_of(trimmed.as_slice()))
            }
        } else {
            None
        };
        Ok(Rule { name, expr, ast })
    }

    /// Parses the rules of a grammar; the first rule is the start rule.
    pub fn parse(&mut self) -> (r: Result<Grammar, Error>)
        requires
            old(self).wf(),
        ensures
            final(self).wf(),
            final(self).input() == old(self).input(),
            parsed(r, grammar_of(old(self).input(), old(self).cursor())),
    {
        let ghost s = self.input();
        let ghost c0 = self.cursor();
        let mut rules: Vec<Rule> = Vec::new();
        let mut start_rule: Option<String> = None;
        self.skip_whitespace_and_comments();
        let ghost c1 = self.cursor();
        assert(rule_models(rules@) =~= seq![]);
        loop
            invariant
                self.wf(),
                self.input() == s,
                s == old(self).input(),
                c0 == old(self).cursor(),
                c1 == skip(s, c0),
                self.pos >= c1.pos,
                rules_from(s, seq![], c1) == rules_from(s, rule_models(rules@), self.cursor()),
                start_rule is None <==> rules.len() == 0,
                rules.len() > 0 ==> (start_rule matches Some(n) && n@ == rules@[0].name@),
            ensures
                self.wf(),
                self.input() == s,
                rules_from(s, seq![], c1) == Ok::<(Seq<RuleModel>, Cursor), (Seq<char>, Cursor)>(
                    (rule_models(rules@), self.cursor()),
                ),
                start_rule is None <==> rules.len() == 0,
                rules.len() > 0 ==> (start_rule matches Some(n) && n@ == rules@[0].name@),
            decreases self.input.len() - self.pos,
        {
            if self.peek().is_none() {
                break ;
            }
            let ghost cr = self.cursor();
            let rule = self.parse_rule()?;
            if has_rule(&rules, &rule.name) {
                let mut m: Vec<char> = Vec::new();
                push_str(&mut m, "Duplicate definition of rule '");
                push_chars(&mut m, &chars_of(rule.name.as_str()));
                push_str(&mut m, "'");
                assert(m@ =~= duplicate_msg(rule.name@));
                return Err(self.error(&m));
            }
            if start_rule.is_none() {
                start_rule = Some(rule.name.clone());
            }
            let ghost before = rules@;
            let ghost rm = rule@;
            rules.push(rule);
            assert(rule_models(rules@) =~= rule_models(before).push(rm));
            self.skip_whitespace_and_comments();
        }
        match start_rule {
            None => {
                let mut m: Vec<char> = Vec::new();
                push_str(&mut m, "No rules defined");
                assert(m@ =~= "No rules defined"@);
                Err(Error::other(string_of(m.as_slice())))
            },
            Some(start) => {
                let g = Grammar { start, rules };
                assert(g@.rules =~= rule_models(g.rules@));
                Ok(g)
            },
        }
    }
}

/// Whether one of `rules` is named `name`.
fn has_rule(rules: &Vec<Rule>, name: &String) -> (b: bool)
    ensures
        b == defines(rule_models(rules@), name@),
{
    let mut i: usize = 0;
    while i < rules.len()
        invariant
            i <= rules.len(),
            forall|k: int| 0 <= k < i ==> rules@[k].name@ != name@,
        decreases rules.len() - i,
    {
        if rules[i].name == *name {
            assert(rule_models(rules@)[i as int].name == name@);
            return true;
        }
        i = i + 1;
    }
    assert forall|k: int| 0 <= k < rules.len() implies #[trigger] rule_models(rules@)[k].name
        != name@ by {
        assert(rule_models(rules@)[k] == rules@[k]@);
    }
    false
}

/// The text between leading and trailing whitespace.
fn trim_chars(t: &Vec<char>) -> (r: Vec<char>)
    ensures
        r@ == trim(t@),
{
    let mut i: usize = 0;
    assert(t@.skip(0) =~= t@);
    while i < t.len() && whitespace(t[i])
        invariant
            i <= t.len(),
            trim_start(t@) == trim_start(t@.skip(i as int)),
        decreases t.len() - i,
    {
        assert(t@.skip(i as int).drop_first() =~= t@.skip(i + 1));
        i = i + 1;
    }
    let ghost u = t@.skip(i as int);
    assert(trim_start(t@) == u);
    let mut j: usize = t.len();
    assert(u.take(j - i) =~= u);
    while j > i && whitespace(t[j - 1])
        invariant
            i <= j <= t.len(),
            u == t@.skip(i as int),
            trim_end(u) == trim_end(u.take(j - i)),
        decreases j,
    {
        assert(u.take(j - i).drop_last() =~= u.take(j - 1 - i));
        j = j - 1;
    }
    let mut r: Vec<char> = Vec::new();
    let mut k: usize = i;
    while k < j
        invariant
            i <= k <= j <= t.len(),
            r@ == t@.subrange(i as int, k as int),
        decreases j - k,
    {
        r.push(t[k]);
        k = k + 1;
        assert(r@ =~= t@.subrange(i as int, k as int));
    }
    assert(r@ =~= u.take(j - i));
    r
}


/// Whether `o` is a postfix operator: `*`, `+` or `?`.
pub open spec fn is_suffix_op(o: Option<char>) -> bool {
    o == Some('*') || o == Some('+') || o == Some('?')
}

/// The postfix operators after an expression `e`: one `*` makes it
/// `Repeat(e)` (zero or more), one `+` makes it `Plus(e)` (one or more) and
/// one `?` makes it `Optional(e)`; with no operator `e` stands as it is.
pub proof fn law_suffix_operators(s: Seq<char>, c: Cursor, e: ExprModel)
    ensures
        peek(s, c) == Some('*') && !is_suffix_op(peek(s, step(c, '*'))) ==> suffix_ops(s, e, c) == (
        ExprModel::Repeat(Box::new(e)), step(c, '*')),
        peek(s, c) == Some('+') && !is_suffix_op(peek(s, step(c, '+'))) ==> suffix_ops(s, e, c) == (
        ExprModel::Plus(Box::new(e)), step(c, '+')),
        peek(s, c) == Some('?') && !is_suffix_op(peek(s, step(c, '?'))) ==> suffix_ops(s, e, c) == (
        ExprModel::Optional(Box::new(e)), step(c, '?')),
        !is_suffix_op(peek(s, c)) ==> suffix_ops(s, e, c) == (e, c),
        peek(s, c) == Some('?') && peek(s, step(c, '?')) == Some('*') && !is_suffix_op(
            peek(s, step(step(c, '?'), '*')),
        ) ==> suffix_ops(s, e, c) == (
        ExprModel::Repeat(Box::new(ExprModel::Optional(Box::new(e)))), step(step(c, '?'), '*')),
{
    reveal_with_fuel(suffix_ops, 3);
}

/// A primary followed by one postfix operator: `e*` parses to
/// `Repeat(e)`, `e+` to `Plus(e)` and `e?` to `Optional(e)`, where `e` is
/// what the primary parses to.
pub proof fn law_suffixed_primary(s: Seq<char>, c: Cursor)
    ensures
        p_primary(s, c) matches Ok((e, c1)) ==> ((peek(s, c1) == Some('*') && !is_suffix_op(
            peek(s, step(c1, '*')),
        )) ==> p_suffix(s, c) == Ok::<(ExprModel, Cursor), (Seq<char>, Cursor)>(
            (ExprModel::Repeat(Box::new(e)), step(c1, '*')),
        )),
        p_primary(s, c) matches Ok((e, c1)) ==> ((peek(s, c1) == Some('+') && !is_suffix_op(
            peek(s, step(c1, '+')),
        )) ==> p_suffix(s, c) == Ok::<(ExprModel, Cursor), (Seq<char>, Cursor)>(
            (ExprModel::Plus(Box::new(e)), step(c1, '+')),
        )),
        p_primary(s, c) matches Ok((e, c1)) ==> ((peek(s, c1) == Some('?') && !is_suffix_op(
            peek(s, step(c1, '?')),
        )) ==> p_suffix(s, c) == Ok::<(ExprModel, Cursor), (Seq<char>, Cursor)>(
            (ExprModel::Optional(Box::new(e)), step(c1, '?')),
        )),
{
    if let Ok((e, c1)) = p_primary(s, c) {
        law_suffix_operators(s, c1, e);
    }
}

} // verus!
