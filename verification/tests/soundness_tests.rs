use generator::base::regex::parser::Parser;
use generator::scanner::dfa::build_dfa;
use generator::scanner::nfa::{build_nfa, EdgeType};
use generator::{CharClass, CharClassItem, RegexType, NFA};

fn closure(nfa: &NFA, mut set: Vec<usize>) -> Vec<usize> {
    let mut i = 0;
    while i < set.len() {
        let s = set[i];
        for e in &nfa.states[s].edges {
            if matches!(e.edge_type, EdgeType::Epsilon) && !set.contains(&e.target) {
                set.push(e.target);
            }
        }
        i += 1;
    }
    set
}

fn nfa_states_after(nfa: &NFA, w: &[u32]) -> Vec<usize> {
    let mut set = closure(nfa, vec![nfa.start]);
    for &cp in w {
        let mut next = Vec::new();
        for &s in &set {
            for e in &nfa.states[s].edges {
                let hit = match e.edge_type {
                    EdgeType::Character => e.character == Some(cp),
                    EdgeType::Range => e.range_start.unwrap() <= cp && cp <= e.range_end.unwrap(),
                    EdgeType::Epsilon => false,
                };
                if hit && !next.contains(&e.target) {
                    next.push(e.target);
                }
            }
        }
        set = closure(nfa, next);
    }
    set
}

fn words(alphabet: &[char], max_len: usize) -> Vec<Vec<u32>> {
    let mut all: Vec<Vec<u32>> = vec![vec![]];
    let mut last: Vec<Vec<u32>> = vec![vec![]];
    for _ in 0..max_len {
        let mut next = Vec::new();
        for w in &last {
            for &c in alphabet {
                let mut v = w.clone();
                v.push(c as u32);
                next.push(v);
            }
        }
        all.extend(next.iter().cloned());
        last = next;
    }
    all
}

fn text(w: &[u32]) -> String {
    w.iter().map(|&c| char::from_u32(c).unwrap()).collect()
}

fn in_first(s: &str) -> bool {
    // a(b|c)*
    s.starts_with('a') && s[1..].chars().all(|c| c == 'b' || c == 'c')
}

fn in_second(s: &str) -> bool {
    // c{2,3}
    s == "cc" || s == "ccc"
}

fn in_third(s: &str) -> bool {
    // [ab]c?
    s == "a" || s == "b" || s == "ac" || s == "bc"
}

fn in_fourth(s: &str) -> bool {
    // [\u{0}-`]
    s.chars().count() == 1 && s.chars().all(|c| c <= '`')
}

// The fourth pattern reaches down to code point 0, so that no two
// character classes have equal columns and none is merged.
fn patterns() -> Vec<(usize, RegexType)> {
    let low = RegexType::CharClass(CharClass {
        negated: false,
        items: vec![CharClassItem { start: 0, end: '`' as u32 }],
    });
    vec![
        (1, Parser::new("a(b|c)*").parse().unwrap()),
        (2, Parser::new("c{2,3}").parse().unwrap()),
        (3, Parser::new("[ab]c?").parse().unwrap()),
        (4, low),
    ]
}

#[test]
fn nfa_accept_states_read_only_pattern_words() {
    let patterns = patterns();
    let nfa = build_nfa(&patterns);
    let langs: [fn(&str) -> bool; 4] = [in_first, in_second, in_third, in_fourth];
    for w in words(&['a', 'b', 'c', '`'], 4) {
        let reached = nfa_states_after(&nfa, &w);
        let s = text(&w);
        for k in 0..4 {
            let accept = nfa.accepts[k].0;
            assert_eq!(reached.contains(&accept), langs[k](&s), "pattern {} on {:?}", k, s);
        }
    }
}

fn token_after(dfa: &generator::DFA, w: &[u32]) -> Option<Option<usize>> {
    let mut state = dfa.start_state;
    for &cp in w {
        let c = dfa.intervals.iter().position(|&(lo, hi)| lo <= cp && cp < hi)?;
        state = dfa.transitions[state][c]?;
    }
    Some(dfa.accept[state])
}

#[test]
fn dfa_tokens_name_a_matching_pattern() {
    let patterns = patterns();
    let nfa = build_nfa(&patterns);
    let dfa = build_dfa(&nfa);
    let langs: [fn(&str) -> bool; 4] = [in_first, in_second, in_third, in_fourth];
    for w in words(&['a', 'b', 'c', '`'], 4) {
        let s = text(&w);
        let best = (0..4).filter(|&k| langs[k](&s)).map(|k| patterns[k].0).min();
        let got = token_after(&dfa, &w).flatten();
        assert_eq!(got, best, "word {:?}", s);
    }
}
