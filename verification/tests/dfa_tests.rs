use generator::base::regex::ast::{CharClass, CharClassItem, RegexType, RepeatType};
use generator::base::regex::parser::Parser;
use generator::scanner::dfa::build_dfa;
use generator::scanner::dot::dfa_to_dot;
use generator::scanner::generator::{compressed_tables, dense_tables};
use generator::scanner::nfa::{build_nfa, EdgeType, NFA};

#[test]
fn test_minimization() {
    let patterns = vec![(
        0,
        RegexType::Alt(
            Box::new(RegexType::Char('a' as u32)),
            Box::new(RegexType::Char('b' as u32)),
        ),
    )];
    let nfa = build_nfa(&patterns);
    let mut dfa = build_dfa(&nfa);
    let states_before = dfa.transitions.len();
    dfa.minimize();
    let states_after = dfa.transitions.len();
    assert!(states_after <= states_before);
    assert!(states_after >= 2);
}

fn regex(s: &str) -> RegexType {
    Parser::new(s).parse().unwrap()
}

#[test]
fn thompson_fragment_shape() {
    let nfa = build_nfa(&[(7, RegexType::Char('a' as u32))]);
    assert_eq!(nfa.start, 0);
    assert_eq!(nfa.states.len(), 3);
    assert_eq!(nfa.accepts, vec![(2, 7)]);
    assert!(matches!(nfa.states[0].edges[0].edge_type, EdgeType::Epsilon));
    assert_eq!(nfa.states[0].edges[0].target, 1);
    assert!(matches!(nfa.states[1].edges[0].edge_type, EdgeType::Character));
    assert_eq!(nfa.states[1].edges[0].character, Some('a' as u32));
}

#[test]
fn bounded_repeat_copies() {
    let r = RegexType::Repeat(Box::new(RegexType::Char('a' as u32)), RepeatType::Exactly(3));
    let nfa = build_nfa(&[(0, r)]);
    // start state, then three copies of a two-state fragment
    assert_eq!(nfa.states.len(), 7);
}

#[test]
fn smallest_token_wins() {
    let nfa = build_nfa(&[(0, regex("[0-9]+")), (1, regex("[a-z]+")), (2, regex("if"))]);
    let dfa = build_dfa(&nfa);
    assert!(dfa.accept.contains(&Some(0)));
    assert!(dfa.accept.contains(&Some(1)));
    // every state that accepts "if" also accepts [a-z]+, whose token is smaller
    assert!(!dfa.accept.contains(&Some(2)));
}

#[test]
fn parallel_minimisation_matches() {
    let nfa = build_nfa(&[(0, regex("(a|b)*abb")), (1, regex("b+"))]);
    let mut d1 = build_dfa(&nfa);
    let mut d2 = build_dfa(&nfa);
    d1.minimize();
    d2.minimize_parallel();
    assert_eq!(d1.transitions, d2.transitions);
    assert_eq!(d1.accept, d2.accept);
    assert_eq!(d1.start_state, d2.start_state);
}

#[test]
fn minimisation_keeps_every_token() {
    let nfa = build_nfa(&[(0, regex("ab")), (1, regex("cd"))]);
    let mut dfa = build_dfa(&nfa);
    let before: Vec<Option<usize>> = dfa.accept.clone();
    dfa.minimize();
    for tok in before {
        assert!(dfa.accept.contains(&tok));
    }
}

#[test]
fn equal_columns_are_merged() {
    let nfa = build_nfa(&[(0, regex("[ab]"))]);
    let dfa = build_dfa(&nfa);
    // 'a' and 'b' behave alike and share one class
    assert!(dfa.intervals.contains(&('a' as u32, 'c' as u32)));
}

#[test]
fn negated_class_covers_everything() {
    let class = RegexType::CharClass(CharClass {
        negated: true,
        items: vec![CharClassItem { start: 'b' as u32, end: 'b' as u32 }],
    });
    let nfa = build_nfa(&[(0, class)]);
    let ranges: Vec<(u32, u32)> = nfa.states[1]
        .edges
        .iter()
        .map(|e| (e.range_start.unwrap(), e.range_end.unwrap()))
        .collect();
    assert_eq!(ranges, vec![(0, 'a' as u32), ('b' as u32, 'b' as u32), ('c' as u32, 0x10FFFF)]);
}

#[test]
fn compression_picks_most_frequent_entry() {
    let dfa = generator::scanner::dfa::DFA {
        transitions: vec![vec![Some(1), None, Some(1), Some(0)], vec![None, None, Some(0), None]],
        accept: vec![None, Some(3)],
        start_state: 0,
        intervals: vec![(0, 1), (1, 2), (2, 3), (3, 4)],
    };
    let c = dfa.compress();
    assert_eq!(c.default_trans, vec![1, 0]);
    assert_eq!(c.special_trans, vec![vec![(3, 0)], vec![(2, 0)]]);
    let (_, t) = compressed_tables(&dfa, 4, &[]);
    assert_eq!(t.special_trans, vec![(0, 3, 0), (1, 2, 0)]);
    assert_eq!(t.accept, vec!["None".to_string(), "Some(3)".to_string()]);
}

#[test]
fn dense_tables_shift_states() {
    let dfa = generator::scanner::dfa::DFA {
        transitions: vec![vec![Some(1), None], vec![None, Some(0)]],
        accept: vec![None, Some(0)],
        start_state: 0,
        intervals: vec![(0, 10), (10, 20)],
    };
    let t = dense_tables(&dfa, 1, &[1]);
    assert_eq!(t.start_state, 1);
    assert_eq!(t.transitions, vec![vec![0, 0], vec![2, 0], vec![0, 1]]);
    assert_eq!(t.accept, vec!["None", "None", "Some(0)"]);
    assert_eq!(t.skip_flags, vec![false, true]);
}

#[test]
fn dot_output() {
    let dfa = generator::scanner::dfa::DFA {
        transitions: vec![vec![Some(1), None], vec![None, None]],
        accept: vec![None, Some(0)],
        start_state: 0,
        intervals: vec![('a' as u32, 'b' as u32), (0x100, 0x200)],
    };
    let dot = dfa_to_dot(&dfa);
    assert_eq!(
        dot,
        "digraph DFA {\n  rankdir=LR;\n  node [shape=circle];\n  1 [shape=doublecircle];\n  start [shape=point];\n  start -> 0;\n  0 -> 1 [label=\"'a'\"];\n}\n"
    );
}

#[test]
fn nfa_default_is_empty() {
    let nfa = NFA::default();
    assert!(nfa.states.is_empty());
    assert!(nfa.accepts.is_empty());
}

#[test]
fn compression_keeps_every_transition() {
    let nfa = build_nfa(&[(0, regex("[a-c]x|ab+")), (1, regex("[b-d]*"))]);
    let mut dfa = build_dfa(&nfa);
    dfa.minimize();
    let c = dfa.compress();
    for (s, row) in dfa.transitions.iter().enumerate() {
        for (class, entry) in row.iter().enumerate() {
            if let Some(target) = entry {
                let found = c.special_trans[s]
                    .iter()
                    .rev()
                    .find(|&&(k, _)| k == class)
                    .map(|&(_, n)| n)
                    .unwrap_or(c.default_trans[s]);
                assert_eq!(found, *target);
            }
        }
    }
}

fn run_classes(dfa: &generator::DFA, w: &[u32]) -> Option<usize> {
    let mut state = 0usize;
    for &cp in w {
        let c = dfa.intervals.iter().position(|&(lo, hi)| lo <= cp && cp < hi)?;
        state = dfa.transitions[state][c]?;
    }
    Some(state)
}

#[test]
fn unmerged_dfa_follows_the_nfa() {
    let any = RegexType::CharClass(CharClass { negated: false, items: vec![CharClassItem { start: 0, end: 0x10FFFF }] });
    let nfa = build_nfa(&[(4, any)]);
    let dfa = build_dfa(&nfa);
    assert_eq!(dfa.intervals, vec![(0, 0x110000)]);
    let start = run_classes(&dfa, &[]).unwrap();
    assert_eq!(dfa.accept[start], None);
    let one = run_classes(&dfa, &['a' as u32]).unwrap();
    assert_eq!(dfa.accept[one], Some(4));
    assert_eq!(run_classes(&dfa, &['a' as u32, 'b' as u32]), None);
}

#[test]
fn render_dot_uses_the_given_labels() {
    let dfa = generator::DFA {
        transitions: vec![vec![Some(1), None], vec![None, Some(0)]],
        accept: vec![None, Some(3)],
        start_state: 0,
        intervals: vec![(97, 98), (0, 5)],
    };
    let dot = generator::scanner::dot::render_dot(&dfa, &vec!["A".to_string(), "B".to_string()]);
    assert_eq!(
        dot,
        "digraph DFA {\n  rankdir=LR;\n  node [shape=circle];\n  1 [shape=doublecircle];\n  start [shape=point];\n  start -> 0;\n  0 -> 1 [label=\"A\"];\n  1 -> 0 [label=\"B\"];\n}\n"
    );
}

#[test]
fn nfa_description() {
    let nfa = build_nfa(&[(7, RegexType::Char('a' as u32))]);
    assert_eq!(
        nfa.to_string(),
        "Start state: 0\nAccepts states: [(2, 7)]\nState 0:\n  ε -> 1\nState 1:\n  'a' -> 2\nState 2:\n"
    );
    let odd = NFA {
        states: vec![generator::scanner::nfa::State {
            edges: vec![
                generator::scanner::nfa::Edge {
                    edge_type: EdgeType::Character,
                    character: Some(0xD800),
                    range_start: None,
                    range_end: None,
                    target: 0,
                },
                generator::scanner::nfa::Edge {
                    edge_type: EdgeType::Range,
                    character: None,
                    range_start: Some(0x30),
                    range_end: Some(0x39),
                    target: 0,
                },
            ],
        }],
        start: 0,
        accepts: vec![],
    };
    assert_eq!(odd.to_string(), "Start state: 0\nAccepts states: []\nState 0:\n  U+D800 -> 0\n  [U+0030, U+0039] -> 0\n");
}

#[test]
fn dfa_description() {
    let dfa = generator::scanner::dfa::DFA {
        transitions: vec![vec![Some(1), None], vec![None, Some(1)]],
        accept: vec![Some(2), Some(0)],
        start_state: 0,
        intervals: vec![('a' as u32, 'b' as u32), (0x100, 0x200)],
    };
    assert_eq!(
        dfa.to_string(),
        "DFA start state: 0\nNumber of states: 2\nNumber of character classes: 2\nAccept states: [(0, 2), (1, 0)]\nTransitions:\n  state 0 -- [U+0061, U+0062) --> state 1\n  state 1 -- [U+0100, U+0200) --> state 1\n"
    );
}

#[test]
fn matched_word_is_accepted() {
    let any = || RegexType::CharClass(CharClass { negated: false, items: vec![CharClassItem { start: 0, end: 0x10FFFF }] });
    let nfa = build_nfa(&[(4, RegexType::Plus(Box::new(any()))), (2, any())]);
    let dfa = build_dfa(&nfa);
    assert_eq!(dfa.intervals, vec![(0, 0x110000)]);
    // one code point: both patterns match, the smaller token wins
    let one = run_classes(&dfa, &['x' as u32]).unwrap();
    assert_eq!(dfa.accept[one], Some(2));
    // two code points: only the first pattern matches
    let two = run_classes(&dfa, &['x' as u32, 0x1F600]).unwrap();
    assert_eq!(dfa.accept[two], Some(4));
}

#[test]
fn nfa_shape_per_pattern() {
    // patterns whose fragments begin with their start state
    let nfa = build_nfa(&[(0, regex("ab")), (1, regex("c{2}")), (2, regex("[x-z]"))]);
    assert_eq!(nfa.start, 0);
    let starts: Vec<usize> = nfa.states[0].edges.iter().map(|e| e.target).collect();
    assert_eq!(starts.len(), 3);
    for e in &nfa.states[0].edges {
        assert!(matches!(e.edge_type, EdgeType::Epsilon));
    }
    assert_eq!(nfa.accepts.len(), 3);
    // each pattern's states lie between its start and the next pattern's start
    let mut bounds = starts.clone();
    bounds.push(nfa.states.len());
    for k in 0..3 {
        let (acc, tok) = nfa.accepts[k];
        assert_eq!(tok, k);
        assert!(bounds[k] <= acc && acc < bounds[k + 1]);
        assert!(nfa.states[acc].edges.is_empty());
        for i in bounds[k]..bounds[k + 1] {
            for e in &nfa.states[i].edges {
                assert!(bounds[k] <= e.target && e.target < bounds[k + 1]);
            }
        }
    }
}
