use generator::parser::generator::{eliminate_left_recursion, generate_expr_code, prepare_parser};
use generator::parser::grammar::{Expr, Grammar, Rule};
use generator::parser::peg_parser::PegParser;

#[test]
fn test_peg_parser_basic() {
    let input = r#"
        S <- 'a' A
        A <- 'b' / 'c'
    "#;
    let grammar = PegParser::new(input).parse().unwrap();
    assert_eq!(grammar.start, "S");
    assert_eq!(grammar.rules.len(), 2);
    assert_eq!(grammar.rules[0].name, "S");
    assert_eq!(grammar.rules[1].name, "A");
}

#[test]
fn test_peg_parser_quantifiers() {
    let input = r#"
        S <- 'a'* 'b'+
        T <- 'c'?
    "#;
    let grammar = PegParser::new(input).parse().unwrap();
    assert_eq!(grammar.rules.len(), 2);
}

#[test]
fn test_peg_parser_predicates() {
    let input = r#"
        S <- &'a' 'b'
        T <- !'c'
    "#;
    let grammar = PegParser::new(input).parse().unwrap();
    assert_eq!(grammar.rules.len(), 2);
}

#[test]
fn test_peg_parser_error() {
    let input = r#"
        S <- 'a'
        S <- 'b' // 重复规则
    "#;
    let result = PegParser::new(input).parse();
    assert!(result.is_err());
}

#[test]
fn test_direct_left_recursion_detection() {
    let grammar = Grammar {
        start: "S".to_string(),
        rules: vec![Rule {
            name: "S".to_string(),
            expr: Expr::seq(vec![Expr::RuleRef("S".to_string()), Expr::Char('a' as u32)]),
            ast: None,
        }],
    };
    let result = prepare_parser(&grammar);
    assert!(result.is_err());
    let err = result.unwrap_err();

    let err_msg = err.to_string();
    assert!(err_msg.contains("Left recursion"));
}

#[test]
fn test_indirect_left_recursion_detection() {
    let grammar = Grammar {
        start: "S".to_string(),
        rules: vec![
            Rule {
                name: "S".to_string(),
                expr: Expr::RuleRef("A".to_string()),
                ast: None,
            },
            Rule {
                name: "A".to_string(),
                expr: Expr::seq(vec![Expr::RuleRef("S".to_string()), Expr::Char('b' as u32)]),
                ast: None,
            },
        ],
    };
    let result = prepare_parser(&grammar);
    assert!(result.is_err());
    let err = result.unwrap_err();
    let err_msg = err.to_string();
    assert!(err_msg.contains("Left recursion"));
}

#[test]
fn peg_parser_empty_input_has_no_rules() {
    let result = PegParser::new("   // nothing here\n").parse();
    let err = result.unwrap_err();
    assert_eq!(err.to_string(), "Error: No rules defined");
}

#[test]
fn peg_parser_reads_actions_classes_and_strings() {
    let input = "S <- [a-c] \"x\\ty\" . EOF";
    let grammar = PegParser::new(input).parse().unwrap();
    assert_eq!(grammar.start, "S");
    match &grammar.rules[0].expr {
        Expr::Sequence(items) => {
            assert_eq!(items.len(), 6);
            match &items[0] {
                Expr::CharClass(c) => {
                    assert!(!c.negated);
                    assert_eq!(c.items.len(), 1);
                    assert_eq!(c.items[0].start, 'a' as u32);
                    assert_eq!(c.items[0].end, 'c' as u32);
                }
                _ => panic!("expected a class"),
            }
            assert!(matches!(items[1], Expr::Char(c) if c == 'x' as u32));
            assert!(matches!(items[2], Expr::Char(c) if c == '\t' as u32));
            assert!(matches!(items[3], Expr::Char(c) if c == 'y' as u32));
            assert!(matches!(items[4], Expr::AnyChar));
            assert!(matches!(items[5], Expr::Eof));
        }
        _ => panic!("expected a sequence"),
    }
}

#[test]
fn peg_parser_reports_position_of_error() {
    let err = PegParser::new("S <- ( 'a'").parse().unwrap_err();
    assert_eq!(err.to_string(), "Parse error at line 1, col 11: Expected ')'");
}

#[test]
fn peg_parser_invalid_range() {
    let err = PegParser::new("S <- [z-a]").parse().unwrap_err();
    assert!(err.to_string().contains("Invalid range: z > a"));
}

#[test]
fn start_rule_comes_first() {
    let grammar = Grammar {
        start: "B".to_string(),
        rules: vec![
            Rule { name: "A".to_string(), expr: Expr::Char('a' as u32), ast: None },
            Rule { name: "B".to_string(), expr: Expr::RuleRef("A".to_string()), ast: None },
        ],
    };
    let g = eliminate_left_recursion(&grammar).unwrap();
    assert_eq!(g.rules[0].name, "B");
    assert_eq!(g.rules[1].name, "A");
    match &g.rules[0].expr {
        Expr::Char(c) => assert_eq!(*c, 'a' as u32),
        _ => panic!("expected the substituted rule"),
    }
}

#[test]
fn expression_code_for_sequence_with_action() {
    let e = Expr::seq(vec![Expr::RuleRef("T".to_string()), Expr::RuleRef("U".to_string())]);
    let code = generate_expr_code(&e, &Some("AST::Pair($)".to_string()));
    assert_eq!(
        code,
        "        let _r0 = self.parse_T();\n        let _r1 = self.parse_U();\n        Ok(AST::Pair(_r0, _r1))\n"
    );
}

#[test]
fn expression_code_for_char() {
    let code = generate_expr_code(&Expr::Char('x' as u32), &None);
    assert_eq!(
        code,
        "        self.expect_char('x')?;\n        Ok(AST::Value(format!(\"'{}'\", 'x')))"
    );
}

#[test]
fn prepared_rules_keep_order_and_bodies() {
    let grammar = Grammar {
        start: "S".to_string(),
        rules: vec![Rule { name: "S".to_string(), expr: Expr::RuleRef("T".to_string()), ast: None }],
    };
    let (start, fns) = prepare_parser(&grammar).unwrap();
    assert_eq!(start, "S");
    assert_eq!(fns, vec![("S".to_string(), "self.parse_T()".to_string())]);
}

#[test]
fn nonterminal_deps_are_listed_once() {
    let e = Expr::Choice(vec![
        Expr::RuleRef("A".to_string()),
        Expr::Sequence(vec![
            Expr::RuleRef("B".to_string()),
            Expr::Repeat(Box::new(Expr::RuleRef("A".to_string()))),
        ]),
        Expr::Char('x' as u32),
    ]);
    let deps = generator::parser::generator::collect_nonterminal_deps(&e);
    assert_eq!(deps, vec!["A".to_string(), "B".to_string()]);
    assert!(generator::parser::generator::collect_nonterminal_deps(&Expr::AnyChar).is_empty());
}

#[test]
fn accepted_grammar_has_no_self_leading_rule() {
    let grammar = Grammar {
        start: "A".to_string(),
        rules: vec![
            Rule {
                name: "B".to_string(),
                expr: Expr::Sequence(vec![Expr::Char('y' as u32), Expr::RuleRef("A".to_string())]),
                ast: None,
            },
            Rule {
                name: "A".to_string(),
                expr: Expr::Choice(vec![
                    Expr::Sequence(vec![Expr::RuleRef("B".to_string()), Expr::Char('x' as u32)]),
                    Expr::Char('z' as u32),
                ]),
                ast: None,
            },
        ],
    };
    let g = eliminate_left_recursion(&grammar).unwrap();
    assert_eq!(g.rules[0].name, "A");
    assert_eq!(g.rules[1].name, "B");
    for rule in &g.rules {
        let first = match &rule.expr {
            Expr::Sequence(items) => &items[0],
            other => other,
        };
        assert!(!matches!(first, Expr::RuleRef(n) if *n == rule.name));
    }
    match &g.rules[0].expr {
        Expr::Choice(alts) => match &alts[0] {
            Expr::Sequence(items) => assert!(matches!(items[0], Expr::Sequence(_))),
            _ => panic!("expected B's body substituted"),
        },
        _ => panic!("expected a choice"),
    }
}

#[test]
fn prepared_parser_has_a_body_per_rule() {
    let grammar = PegParser::new("Add <- Term ('+' Term)*\nTerm <- Num ('*' Num)*\nNum <- [0-9]+ / '(' Add ')'\n")
        .parse()
        .unwrap();
    let (start, functions) = prepare_parser(&grammar).unwrap();
    let g = eliminate_left_recursion(&grammar).unwrap();
    assert_eq!(start, "Add");
    assert_eq!(functions.len(), 3);
    for (i, (name, body)) in functions.iter().enumerate() {
        assert_eq!(*name, g.rules[i].name);
        assert_eq!(*body, generate_expr_code(&g.rules[i].expr, &g.rules[i].ast));
        assert!(!body.is_empty());
    }
}
