use generator::base::error::Error;
use generator::base::regex::ast::{CharClass, CharClassItem, RegexType, RepeatType};
use generator::base::template::expander::TemplateMap;
use generator::config::PatternDef;
use generator::scanner::dfa::{build_dfa, edges_fit, DFA};
use generator::scanner::dot::labels_fit;
use generator::scanner::nfa::{build_nfa, regex_fits, Edge, EdgeType, State, NFA};
use generator::scanner::pipeline::{build_scanner_dfa, parse_patterns};

fn pat(token: &str, regex: &str) -> PatternDef {
    PatternDef { token: token.to_string(), regex: regex.to_string() }
}

fn direct(patterns: &[(usize, RegexType)], parallel: bool) -> DFA {
    let nfa = build_nfa(patterns);
    let mut dfa = build_dfa(&nfa);
    if parallel {
        dfa.minimize_parallel();
    } else {
        dfa.minimize();
    }
    dfa
}

fn same(a: &DFA, b: &DFA) -> bool {
    a.transitions == b.transitions && a.accept == b.accept && a.start_state == b.start_state && a.intervals == b.intervals
}

fn keywords() -> (Vec<PatternDef>, Vec<String>) {
    (vec![pat("IF", "if"), pat("ID", "[a-z]+")], vec![" +".to_string()])
}

#[test]
fn pipeline_numbers_trees_and_skips() {
    let (patterns, skips) = keywords();
    let (asts, names, skip_ids) = parse_patterns(&patterns, &skips).unwrap();
    assert_eq!(asts.len(), 3);
    for (i, (id, _)) in asts.iter().enumerate() {
        assert_eq!(*id, i);
    }
    assert_eq!(names, vec!["IF".to_string(), "ID".to_string()]);
    assert_eq!(skip_ids, vec![2]);
}

#[test]
fn pipeline_names_token_of_bad_pattern() {
    let patterns = vec![pat("A", "a"), pat("B", "(b")];
    match parse_patterns(&patterns, &vec![]) {
        Err(Error::Parse { message, line, .. }) => {
            assert!(message.contains("Expected ')'"));
            assert!(message.ends_with(" (while parsing token 'B')"));
            assert_eq!(line, 1);
        }
        other => panic!("unexpected result: {:?}", other.map(|r| r.1)),
    }
}

#[test]
fn pipeline_stops_at_first_bad_pattern() {
    let patterns = vec![pat("A", "(a"), pat("B", "[b")];
    match parse_patterns(&patterns, &vec![]) {
        Err(Error::Parse { message, .. }) => assert!(message.ends_with("(while parsing token 'A')")),
        other => panic!("unexpected result: {:?}", other.map(|r| r.1)),
    }
}

#[test]
fn pipeline_quotes_bad_skip_regex() {
    let patterns = vec![pat("A", "a")];
    let skips = vec!["(x".to_string()];
    match parse_patterns(&patterns, &skips) {
        Err(Error::Config(msg)) => {
            assert!(msg.starts_with("Failed to parse skip regex '(x': Parse error at line 1, col "));
            assert!(msg.contains("Expected ')'"));
        }
        other => panic!("unexpected result: {:?}", other.map(|r| r.1)),
    }
}

#[test]
fn scanner_dfa_is_the_minimised_subset_construction() {
    let (patterns, skips) = keywords();
    for parallel in [false, true] {
        let (asts, _, _) = parse_patterns(&patterns, &skips).unwrap();
        let dfa = build_scanner_dfa(&asts, parallel).unwrap();
        let (asts, _, _) = parse_patterns(&patterns, &skips).unwrap();
        assert!(same(&dfa, &direct(&asts, parallel)));
        assert_eq!(dfa.start_state, 0);
        assert!(dfa.accept.contains(&Some(0)));
        assert!(dfa.accept.contains(&Some(1)));
        assert!(dfa.accept.contains(&Some(2)));
    }
}

#[test]
fn scanner_dfa_refuses_unsupported_class() {
    let negated = RegexType::CharClass(CharClass {
        negated: true,
        items: vec![CharClassItem { start: 5, end: u32::MAX }],
    });
    match build_scanner_dfa(&vec![(0, negated)], false) {
        Err(e) => assert_eq!(
            e.to_string(),
            "Internal error: pattern outside the range the automaton construction supports"
        ),
        Ok(_) => panic!("expected an error"),
    }
}

#[test]
fn regex_fits_checks_bounds() {
    assert!(regex_fits(&RegexType::Char('a' as u32)));
    let reversed = RegexType::Repeat(Box::new(RegexType::Char('a' as u32)), RepeatType::Between(3, 1));
    assert!(!regex_fits(&reversed));
    let ok = RegexType::Repeat(Box::new(RegexType::Char('a' as u32)), RepeatType::Between(1, 3));
    assert!(regex_fits(&ok));
    let plain = RegexType::CharClass(CharClass { negated: false, items: vec![CharClassItem { start: 1, end: u32::MAX }] });
    assert!(regex_fits(&plain));
}

#[test]
fn edges_fit_checks_character_edges() {
    let nfa = build_nfa(&[(0, RegexType::Char('a' as u32))]);
    assert!(edges_fit(&nfa));
    let bad = NFA {
        states: vec![State {
            edges: vec![Edge {
                edge_type: EdgeType::Character,
                character: Some(u32::MAX),
                range_start: None,
                range_end: None,
                target: 0,
            }],
        }],
        start: 0,
        accepts: vec![],
    };
    assert!(!edges_fit(&bad));
}

#[test]
fn labels_fit_checks_classes() {
    let nfa = build_nfa(&[(0, RegexType::Char('a' as u32))]);
    let dfa = build_dfa(&nfa);
    assert!(labels_fit(&dfa));
    let bad = DFA { transitions: vec![vec![None]], accept: vec![None], start_state: 0, intervals: vec![(0, 0)] };
    assert!(!labels_fit(&bad));
}

#[test]
fn template_map_lists_entries() {
    let mut t = TemplateMap::new();
    t.insert("DIGIT".to_string(), "[0-9]".to_string());
    t.insert("ALPHA".to_string(), "[a-z]".to_string());
    t.insert("DIGIT".to_string(), "[0-7]".to_string());
    let mut entries = t.entries();
    entries.sort();
    assert_eq!(
        entries,
        vec![
            ("ALPHA".to_string(), "[a-z]".to_string()),
            ("DIGIT".to_string(), "[0-7]".to_string())
        ]
    );
}

#[test]
fn scanner_gives_matched_word_its_token() {
    let any = || RegexType::CharClass(CharClass { negated: false, items: vec![CharClassItem { start: 0, end: 0x10FFFF }] });
    let asts = vec![(4, RegexType::Plus(Box::new(any()))), (2, any())];
    let dfa = build_scanner_dfa(&asts, false).unwrap();
    assert_eq!(dfa.intervals, vec![(0, 0x110000)]);
    let run = |w: &[u32]| -> Option<usize> {
        let mut s = dfa.start_state;
        for _ in w {
            s = dfa.transitions[s][0]?;
        }
        dfa.accept[s]
    };
    assert_eq!(run(&['q' as u32]), Some(2));
    assert_eq!(run(&['q' as u32, 'r' as u32, 's' as u32]), Some(4));
}
