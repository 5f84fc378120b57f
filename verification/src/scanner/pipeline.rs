//! From token patterns to a minimal DFA: every pattern and skip regex is
//! parsed, the automata are built, and the DFA is minimised.
use vstd::prelude::*;
use crate::base::error::Error;
use crate::base::regex::ast::{RegexModel, RegexType};
use crate::base::regex::parser::{Cursor, Parser, Step, is_error_at, parse_from};
use crate::base::text::{chars_of, dec, push_chars, push_str, string_of};
use crate::config::PatternDef;
use crate::scanner::dfa::{DFA, build_dfa, dfa_of, edges_fit, edges_ok, minimized};
use crate::scanner::nfa::{build_nfa, nfa_of, pattern_models, regex_fits, regex_ok};

verus! {

/// The cursor at the start of a text.
pub open spec fn origin() -> Cursor {
    Cursor { pos: 0, line: 1, col: 1 }
}

/// What parsing `s` as a whole regular expression gives.
#[verifier::opaque]
pub open spec fn regex_of(s: Seq<char>) -> Step<RegexModel> {
    parse_from(s, origin())
}

/// The texts to parse: the patterns' regular expressions, then the skip
/// regexes.
pub open spec fn sources(patterns: Seq<PatternDef>, skips: Seq<String>) -> Seq<Seq<char>> {
    patterns.map_values(|p: PatternDef| p.regex@) + skips.map_values(|s: String| s@)
}

/// The error reported when source `k` fails with message `m` at `c`: a
/// pattern's parse error names its token; a skip regex's becomes a
/// configuration error that quotes it.
pub open spec fn failure(
    patterns: Seq<PatternDef>,
    skips: Seq<String>,
    k: int,
    m: Seq<char>,
    c: Cursor,
    e: Error,
) -> bool {
    if k < patterns.len() {
        &&& e matches Error::Parse { message, line, col }
        &&& message@ == m + " (while parsing token '"@ + patterns[k].token@ + "')"@
        &&& line == c.line
        &&& col == c.col
    } else {
        &&& e matches Error::Config(msg)
        &&& msg@ == "Failed to parse skip regex '"@ + skips[k - patterns.len()]@ + "': "@
            + "Parse error at line "@ + dec(c.line as nat) + ", col "@ + dec(c.col as nat) + ": "@
            + m
    }
}

/// Whether the first `k` sources parse.
pub open spec fn parse_upto(all: Seq<Seq<char>>, k: int) -> bool {
    forall|i: int| 0 <= i < k ==> (#[trigger] regex_of(all[i])) is Ok
}

/// Tree `i` is numbered `i` and is what source `i` parses to.
pub open spec fn tree_at(all: Seq<Seq<char>>, asts: Seq<(usize, RegexType)>, i: int) -> bool {
    &&& asts[i].0 == i
    &&& match regex_of(all[i]) {
        Ok((m, _)) => asts[i].1@ == m,
        Err(_) => false,
    }
}

/// Source `k` fails to parse, and `e` is the error reported for it.
pub open spec fn fails_with(patterns: Seq<PatternDef>, skips: Seq<String>, k: int, e: Error) -> bool {
    match regex_of(sources(patterns, skips)[k]) {
        Ok(_) => false,
        Err((m, c)) => failure(patterns, skips, k, m, c, e),
    }
}

/// What `parse_patterns` returns on `patterns` and `skips`.
pub open spec fn parsed_patterns(
    patterns: Seq<PatternDef>,
    skips: Seq<String>,
    r: Result<(Vec<(usize, RegexType)>, Vec<String>, Vec<usize>), Error>,
) -> bool {
    let all = sources(patterns, skips);
    match r {
        Ok((asts, names, skip_ids)) => {
            &&& parse_upto(all, all.len() as int)
            &&& asts.len() == all.len()
            &&& forall|i: int| 0 <= i < all.len() ==> tree_at(all, asts@, i)
            &&& names@.map_values(|s: String| s@) == patterns.map_values(|p: PatternDef| p.token@)
            &&& skip_ids@ == Seq::new(skips.len(), |i: int| (patterns.len() + i) as usize)
        },
        Err(e) => exists|k: int|
            0 <= k < all.len() && parse_upto(all, k) && #[trigger] fails_with(patterns, skips, k, e),
    }
}

fn token_message(message: &String, token: &String) -> (r: String)
    ensures
        r@ == message@ + " (while parsing token '"@ + token@ + "')"@,
{
    let mut out: Vec<char> = Vec::new();
    push_chars(&mut out, &chars_of(message.as_str()));
    push_str(&mut out, " (while parsing token '");
    push_chars(&mut out, &chars_of(token.as_str()));
    push_str(&mut out, "')");
    string_of(out.as_slice())
}

fn skip_message(regex: &String, shown: &String) -> (r: String)
    ensures
        r@ == "Failed to parse skip regex '"@ + regex@ + "': "@ + shown@,
{
    let mut out: Vec<char> = Vec::new();
    push_str(&mut out, "Failed to parse skip regex '");
    push_chars(&mut out, &chars_of(regex.as_str()));
    push_str(&mut out, "': ");
    push_chars(&mut out, &chars_of(shown.as_str()));
    string_of(out.as_slice())
}

/// Parses `text` as a whole regular expression.
fn parse_text(text: &str) -> (r: Result<RegexType, Error>)
    requires
        text@.len() + 2 < usize::MAX,
    ensures
        match (r, regex_of(text@)) {
            (Ok(v), Ok((m, _))) => v@ == m,
            (Err(e), Err((m, c))) => is_error_at(e, m, c),
            _ => false,
        },
{
    let mut parser = Parser::new(text);
    proof {
        reveal(regex_of);
    }
    parser.parse()
}

/// Parses one source; on failure builds the error that `failure` names.
fn parse_source(
    patterns: &Vec<PatternDef>,
    skips: &Vec<String>,
    k: usize,
) -> (r: Result<RegexType, Error>)
    requires
        k < patterns.len() + skips.len(),
        sources(patterns@, skips@)[k as int].len() + 2 < usize::MAX,
    ensures
        match (r, regex_of(sources(patterns@, skips@)[k as int])) {
            (Ok(v), Ok((m, _))) => v@ == m,
            (Err(e), Err((m, c))) => failure(patterns@, skips@, k as int, m, c, e),
            _ => false,
        },
{
    let ghost all = sources(patterns@, skips@);
    let np = patterns.len();
    let text: &str = if k < np {
        patterns[k].regex.as_str()
    } else {
        skips[k - np].as_str()
    };
    assert(text@ == all[k as int]);
    assert(k >= np ==> all[k as int] == skips@[k - np]@);
    match parse_text(text) {
        Ok(ast) => Ok(ast),
        Err(e) => match e {
            Error::Parse { message, line, col } => {
                if k < np {
                    let msg = token_message(&message, &patterns[k].token);
                    Err(Error::Parse { message: msg, line, col })
                } else {
                    let ghost m = message@;
                    let shown = Error::Parse { message, line, col }.to_string();
                    let msg = skip_message(&skips[k - np], &shown);
                    assert(msg@ =~= "Failed to parse skip regex '"@ + skips@[k - np]@ + "': "@
                        + "Parse error at line "@ + dec(line as nat) + ", col "@ + dec(col as nat)
                        + ": "@ + m);
                    Err(Error::Config(msg))
                }
            },
            _ => Err(e),
        },
    }
}

/// Parses every pattern, then every skip regex, stopping at the first that
/// fails. On success: the trees numbered in order, the token names, and the
/// numbers given to the skip regexes (after the patterns').
pub fn parse_patterns(patterns: &Vec<PatternDef>, skip_regexes: &Vec<String>) -> (r: Result<
    (Vec<(usize, RegexType)>, Vec<String>, Vec<usize>),
    Error,
>)
    requires
        patterns.len() + skip_regexes.len() < usize::MAX,
        forall|i: int|
            0 <= i < sources(patterns@, skip_regexes@).len() ==> #[trigger] sources(
                patterns@,
                skip_regexes@,
            )[i].len() + 2 < usize::MAX,
    ensures
        parsed_patterns(patterns@, skip_regexes@, r),
{
    let ghost all = sources(patterns@, skip_regexes@);
    let total = patterns.len() + skip_regexes.len();
    let mut asts: Vec<(usize, RegexType)> = Vec::new();
    let mut k: usize = 0;
    while k < total
        invariant
            all == sources(patterns@, skip_regexes@),
            total == all.len(),
            forall|i: int| 0 <= i < all.len() ==> #[trigger] all[i].len() + 2 < usize::MAX,
            k <= total,
            parse_upto(all, k as int),
            asts.len() == k,
            forall|i: int| 0 <= i < k ==> #[trigger] tree_at(all, asts@, i),
        decreases total - k,
    {
        match parse_source(patterns, skip_regexes, k) {
            Ok(ast) => {
                let ghost before = asts@;
                asts.push((k, ast));
                proof {
                    assert forall|i: int| 0 <= i < k + 1 implies #[trigger] tree_at(all, asts@, i) by {
                        if i < k {
                            assert(tree_at(all, before, i));
                            assert(asts@[i] == before[i]);
                        }
                    }
                    assert forall|i: int| 0 <= i < k + 1 implies (#[trigger] regex_of(all[i])) is Ok by {
                        if i < k {
                            assert(parse_upto(all, k as int));
                        }
                    }
                }
                k = k + 1;
            },
            Err(e) => {
                proof {
                    assert(fails_with(patterns@, skip_regexes@, k as int, e));
                }
                return Err(e);
            },
        }
    }
    let mut names: Vec<String> = Vec::new();
    let mut i: usize = 0;
    while i < patterns.len()
        invariant
            i <= patterns.len(),
            names.len() == i,
            forall|m: int| 0 <= m < i ==> #[trigger] names@[m]@ == patterns@[m].token@,
        decreases patterns.len() - i,
    {
        names.push(patterns[i].token.clone());
        i = i + 1;
    }
    assert(names@.map_values(|s: String| s@) =~= patterns@.map_values(|p: PatternDef| p.token@));
    let np = patterns.len();
    let mut skip_ids: Vec<usize> = Vec::new();
    let mut j: usize = 0;
    while j < skip_regexes.len()
        invariant
            np == patterns.len(),
            np + skip_regexes.len() < usize::MAX,
            j <= skip_regexes.len(),
            skip_ids@ == Seq::new(j as nat, |x: int| (np + x) as usize),
        decreases skip_regexes.len() - j,
    {
        skip_ids.push(np + j);
        j = j + 1;
    }
    Ok((asts, names, skip_ids))
}

/// The minimal DFA reached from the patterns `asts`: the subset
/// construction of their NFA, then minimised (unchanged where it has no
/// state).
pub open spec fn scanned(asts: Seq<(usize, RegexType)>, dfa: DFA) -> bool {
    let (g, acc) = nfa_of(pattern_models(asts));
    exists|d0: DFA|
        {
            &&& #[trigger] dfa_of(g, 0, acc, d0)
            &&& d0.start_state == 0
            &&& d0.wf()
            &&& d0.transitions.len() == 0 ==> dfa == d0
            &&& d0.transitions.len() > 0 ==> minimized(d0, dfa)
            &&& dfa.intervals == d0.intervals
        }
}

/// What the automata need of the patterns: each meets `regex_ok`, and
/// their NFA meets `edges_ok`.
pub open spec fn buildable(asts: Seq<(usize, RegexType)>) -> bool {
    &&& forall|i: int| 0 <= i < asts.len() ==> regex_ok(#[trigger] asts[i].1@)
    &&& edges_ok(nfa_of(pattern_models(asts)).0)
}

/// Builds the NFA of the patterns, determinises it and minimises the
/// result, serially or with the parallel refinement. Patterns the
/// construction cannot take are an internal error.
pub fn build_scanner_dfa(asts: &Vec<(usize, RegexType)>, parallel: bool) -> (r: Result<DFA, Error>)
    ensures
        r is Ok <==> buildable(asts@),
        r matches Ok(dfa) ==> scanned(asts@, dfa) && dfa.wf(),
        r matches Err(e) ==> e matches Error::Internal(msg) && msg@
            == "pattern outside the range the automaton construction supports"@,
{
    let mut i: usize = 0;
    while i < asts.len()
        invariant
            i <= asts.len(),
            forall|k: int| 0 <= k < i ==> regex_ok(#[trigger] asts@[k].1@),
        decreases asts.len() - i,
    {
        if !regex_fits(&asts[i].1) {
            return Err(Error::Internal("pattern outside the range the automaton construction supports".to_owned()));
        }
        i = i + 1;
    }
    let nfa = build_nfa(asts.as_slice());
    if !edges_fit(&nfa) {
        return Err(Error::Internal("pattern outside the range the automaton construction supports".to_owned()));
    }
    let mut dfa = build_dfa(&nfa);
    let ghost d0 = dfa;
    if parallel {
        dfa.minimize_parallel();
    } else {
        dfa.minimize();
    }
    assert(dfa_of(nfa_of(pattern_models(asts@)).0, 0, nfa_of(pattern_models(asts@)).1, d0));
    Ok(dfa)
}

} // verus!
