use generator::base::interval::Interval;
use generator::base::regex::ast::{CharClassItem, RegexType};
use generator::base::regex::parser::{merge_intervals, Parser};
use generator::scanner::dfa::build_dfa;
use generator::scanner::nfa::build_nfa;

fn iv(start: u32, end: u32) -> Interval {
    Interval::new(start, end)
}

#[test]
fn merge_is_idempotent_and_order_free() {
    let v = vec![iv(10, 20), iv(0, 5), iv(15, 30), iv(5, 7)];
    let m = Interval::merge(v.clone());
    assert_eq!(m, vec![iv(0, 7), iv(10, 30)]);
    assert_eq!(Interval::merge(m.clone()), m);
    let mut w = v.clone();
    w.reverse();
    assert_eq!(Interval::merge(w), m);
}

#[test]
fn double_complement_is_the_merge() {
    let v = vec![iv(10, 20), iv(0, 5), iv(15, 30)];
    let c = Interval::complement(v.clone(), 99);
    assert_eq!(c, vec![iv(5, 10), iv(30, 100)]);
    assert_eq!(Interval::complement(c, 99), Interval::merge(v));
}

#[test]
fn pieces_partition_the_code_points() {
    let v = vec![iv(97, 123), iv(48, 58)];
    let b = Interval::collect_boundaries(&v);
    let w = Interval::build_intervals(&b);
    assert_eq!(w.len(), b.len() - 1);
    assert_eq!(w[0].start, 0);
    assert_eq!(w[w.len() - 1].end, 0x110000);
    for i in 0..w.len() - 1 {
        assert_eq!(w[i].end, w[i + 1].start);
    }
    for p in &w {
        for x in &v {
            assert!(p.end <= x.start || p.start >= x.end || (x.start <= p.start && p.end <= x.end));
        }
    }
}

#[test]
fn class_ranges_are_merged() {
    let items = vec![
        CharClassItem { start: 'c' as u32, end: 'e' as u32 },
        CharClassItem { start: 'a' as u32, end: 'b' as u32 },
        CharClassItem { start: 'x' as u32, end: 'x' as u32 },
    ];
    let m = merge_intervals(items);
    assert_eq!(m.len(), 2);
    assert_eq!((m[0].start, m[0].end), ('a' as u32, 'e' as u32));
    assert_eq!((m[1].start, m[1].end), ('x' as u32, 'x' as u32));
}

fn token_after(dfa: &generator::DFA, w: &[u32]) -> Option<Option<usize>> {
    let mut state = dfa.start_state;
    for &cp in w {
        let c = dfa.intervals.iter().position(|&(lo, hi)| lo <= cp && cp < hi)?;
        state = dfa.transitions[state][c]?;
    }
    Some(dfa.accept[state])
}

#[test]
fn minimisation_keeps_tokens_of_sample_words() {
    let r = Parser::new("ab|cb").parse().unwrap();
    let nfa = build_nfa(&[(3, r), (5, RegexType::Char('a' as u32))]);
    let dfa = build_dfa(&nfa);
    let mut small = build_dfa(&nfa);
    small.minimize();
    assert!(small.transitions.len() <= dfa.transitions.len());
    let words: Vec<Vec<u32>> = vec![
        vec![],
        vec!['a' as u32],
        vec!['a' as u32, 'b' as u32],
        vec!['c' as u32, 'b' as u32],
        vec!['c' as u32],
        vec!['a' as u32, 'b' as u32, 'b' as u32],
        vec!['z' as u32],
    ];
    for w in &words {
        assert_eq!(token_after(&small, w), token_after(&dfa, w));
    }
    let mut par = build_dfa(&nfa);
    par.minimize_parallel();
    for w in &words {
        assert_eq!(token_after(&par, w), token_after(&dfa, w));
    }
}

#[test]
fn negated_class_body_is_merged() {
    match Parser::new("[^xa-cb-]").parse().unwrap() {
        RegexType::CharClass(c) => {
            assert!(c.negated);
            let items: Vec<(u32, u32)> = c.items.iter().map(|i| (i.start, i.end)).collect();
            assert_eq!(items, vec![('-' as u32, '-' as u32), ('a' as u32, 'c' as u32), ('x' as u32, 'x' as u32)]);
        }
        other => panic!("expected a class, got {:?}", other),
    }
}
