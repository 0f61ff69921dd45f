use parser300b::bnf::parse_grammar;
use parser300b::bnf::parse_lhs;
use parser300b::bnf::parse_opt_term;
use parser300b::bnf::parse_term;
use parser300b::bnf::ParseError;
use parser300b::grammar::Expression;
use parser300b::grammar::ExtExpression;
use parser300b::grammar::ExtGrammar;
use parser300b::grammar::ExtProduction;
use parser300b::grammar::Grammar;
use parser300b::grammar::OptTerm;
use parser300b::grammar::Production;
use parser300b::grammar::Term;

#[test]
fn parse_term_test() {
    assert_eq!(parse_term("goga"), Term::Terminal("goga".to_string()));
    assert_eq!(parse_term("<goga>"), Term::Nonterminal("goga".to_string()));
}

#[test]
fn try_from_test() {
    let grammar: Result<ExtGrammar, _> = r#"
            <block> ::= <expr> | t
            <expr> ::= id = val | t | c
        "#
    .try_into();

    match grammar {
        Ok(grammar) => {
            println!("grammar: {:#?}", &grammar);
            assert_eq!(
                grammar,
                ExtGrammar {
                    productions: vec![
                        ExtProduction {
                            lhs: "block".to_string(),
                            rhs: vec![
                                ExtExpression {
                                    terms: vec![OptTerm::obl(Term::Nonterminal(
                                        "expr".to_string(),
                                    )),],
                                },
                                ExtExpression {
                                    terms: vec![OptTerm::obl(Term::Terminal("t".to_string(),)),],
                                },
                            ],
                        },
                        ExtProduction {
                            lhs: "expr".to_string(),
                            rhs: vec![
                                ExtExpression {
                                    terms: vec![
                                        OptTerm::obl(Term::Terminal("id".to_string(),)),
                                        OptTerm::obl(Term::Terminal("=".to_string(),)),
                                        OptTerm::obl(Term::Terminal("val".to_string(),)),
                                    ],
                                },
                                ExtExpression {
                                    terms: vec![OptTerm::obl(Term::Terminal("t".to_string(),)),],
                                },
                                ExtExpression {
                                    terms: vec![OptTerm::obl(Term::Terminal("c".to_string(),)),],
                                },
                            ],
                        },
                    ],
                }
            )
        }
        Err(err) => panic!("{}", err.to_text()),
    }
}

#[test]
fn try_from_opt_test() {
    let grammar: Result<ExtGrammar, _> = r#"
            <block> ::= <expr>? | t
            <expr> ::= id = val? | t | c
        "#
    .try_into();

    match grammar {
        Ok(grammar) => {
            println!("grammar: {:#?}", &grammar);
            assert_eq!(
                grammar,
                ExtGrammar {
                    productions: vec![
                        ExtProduction {
                            lhs: "block".to_string(),
                            rhs: vec![
                                ExtExpression {
                                    terms: vec![OptTerm::opt(Term::Nonterminal(
                                        "expr".to_string(),
                                    )),],
                                },
                                ExtExpression {
                                    terms: vec![OptTerm::obl(Term::Terminal("t".to_string(),)),],
                                },
                            ],
                        },
                        ExtProduction {
                            lhs: "expr".to_string(),
                            rhs: vec![
                                ExtExpression {
                                    terms: vec![
                                        OptTerm::obl(Term::Terminal("id".to_string(),)),
                                        OptTerm::obl(Term::Terminal("=".to_string(),)),
                                        OptTerm::opt(Term::Terminal("val".to_string(),)),
                                    ],
                                },
                                ExtExpression {
                                    terms: vec![OptTerm::obl(Term::Terminal("t".to_string(),)),],
                                },
                                ExtExpression {
                                    terms: vec![OptTerm::obl(Term::Terminal("c".to_string(),)),],
                                },
                            ],
                        },
                    ],
                }
            )
        }
        Err(err) => panic!("{}", err.to_text()),
    }
}

fn terminal(name: &str) -> Term {
    Term::Terminal(name.to_string())
}

fn nonterminal(name: &str) -> Term {
    Term::Nonterminal(name.to_string())
}

#[test]
fn terms_are_told_apart_by_their_brackets() {
    assert_eq!(parse_term("\"N\""), terminal("N"));
    assert_eq!(parse_term("\"\""), terminal(""));
    assert_eq!(parse_term("<>"), nonterminal(""));
    assert_eq!(parse_term("<"), terminal("<"));
    assert_eq!(parse_term("\""), terminal("\""));
    assert_eq!(parse_term("<a"), terminal("<a"));
    assert_eq!(parse_term("a>"), terminal("a>"));
    assert_eq!(parse_term("\"a>"), terminal("\"a>"));
    assert_eq!(parse_term(""), terminal(""));
    assert_eq!(parse_term("<été>"), nonterminal("été"));
    assert_eq!(parse_term("\"::=\""), terminal("::="));
}

#[test]
fn a_question_mark_at_the_end_makes_a_term_optional() {
    assert_eq!(parse_opt_term("<a>?"), OptTerm::opt(nonterminal("a")));
    assert_eq!(parse_opt_term("\"x\"?"), OptTerm::opt(terminal("x")));
    assert_eq!(parse_opt_term("x?"), OptTerm::opt(terminal("x")));
    assert_eq!(parse_opt_term("?"), OptTerm::obl(terminal("?")));
    assert_eq!(parse_opt_term("??"), OptTerm::opt(terminal("?")));
    assert_eq!(parse_opt_term("<a?>"), OptTerm::obl(nonterminal("a?")));
    assert_eq!(parse_opt_term(""), OptTerm::obl(terminal("")));
}

#[test]
fn a_left_hand_side_stands_in_angle_brackets() {
    assert_eq!(parse_lhs("<block>").unwrap(), "block");
    assert_eq!(parse_lhs("<>").unwrap(), "");
    match parse_lhs("block") {
        Err(ParseError::WrongLhs(found)) => assert_eq!(found, "block"),
        _ => panic!("a bare name was taken for a left-hand side"),
    }
    match parse_lhs("<") {
        Err(ParseError::WrongLhs(found)) => assert_eq!(found, "<"),
        _ => panic!("a lone bracket was taken for a left-hand side"),
    }
}

#[test]
fn a_line_without_the_sign_is_an_error() {
    match parse_grammar("<a> ::= b\n  <c> = d  \n<e> ::= f") {
        Err(ParseError::RhsNotFound(line)) => assert_eq!(line, "<c> = d"),
        _ => panic!("a line without the sign was accepted"),
    }
    match ExtGrammar::try_from("nothing here") {
        Err(e) => assert_eq!(e.to_text(), "rhs not found in 'nothing here'"),
        Ok(_) => panic!("a line without the sign was accepted"),
    }
}

#[test]
fn a_wrong_left_hand_side_is_an_error() {
    match parse_grammar("<a> ::= b\n c ::= d") {
        Err(e) => {
            assert_eq!(e.to_text(), "lhs must be '<***>' byt found 'c'");
            assert!(matches!(e, ParseError::WrongLhs(_)));
        }
        Ok(_) => panic!("a bare left-hand side was accepted"),
    }
    match parse_grammar("::= d") {
        Err(ParseError::WrongLhs(found)) => assert_eq!(found, ""),
        _ => panic!("an empty left-hand side was accepted"),
    }
}

#[test]
fn the_first_wrong_line_gives_the_error() {
    match parse_grammar("x ::= a\nno sign") {
        Err(ParseError::WrongLhs(found)) => assert_eq!(found, "x"),
        _ => panic!("the first error was passed over"),
    }
    match parse_grammar("no sign\nx ::= a") {
        Err(ParseError::RhsNotFound(line)) => assert_eq!(line, "no sign"),
        _ => panic!("the first error was passed over"),
    }
}

#[test]
fn the_error_for_a_missing_left_hand_side_has_its_text() {
    let e = ParseError::LhsNotFound("::= a".to_string());
    assert_eq!(e.to_text(), "lhs not found in '::= a'");
    assert_eq!(e.clone().to_text(), e.to_text());
}

#[test]
fn blank_lines_and_white_space_are_passed_over() {
    let grammar = parse_grammar("\n\n \t <a>\t ::=  x   y \r\n\r\n<b>::=z\n\u{3000}\n").unwrap();
    assert_eq!(
        grammar,
        ExtGrammar {
            productions: vec![
                ExtProduction {
                    lhs: "a".to_string(),
                    rhs: vec![ExtExpression {
                        terms: vec![OptTerm::obl(terminal("x")), OptTerm::obl(terminal("y"))]
                    }]
                },
                ExtProduction {
                    lhs: "b".to_string(),
                    rhs: vec![ExtExpression { terms: vec![OptTerm::obl(terminal("z"))] }]
                },
            ]
        }
    );
    assert_eq!(parse_grammar("").unwrap(), ExtGrammar { productions: vec![] });
    assert_eq!(parse_grammar(" \n\t\n").unwrap(), ExtGrammar { productions: vec![] });
}

#[test]
fn terms_stand_between_spaces_only() {
    let grammar = parse_grammar("<a> ::= x\ty | | \"|\"").unwrap();
    assert_eq!(
        grammar.productions[0].rhs,
        vec![
            ExtExpression { terms: vec![OptTerm::obl(terminal("x\ty"))] },
            ExtExpression { terms: vec![] },
            ExtExpression { terms: vec![OptTerm::obl(terminal("\""))] },
            ExtExpression { terms: vec![OptTerm::obl(terminal("\""))] },
        ]
    );
    let second = parse_grammar("<a> ::= \"::=\" <b>").unwrap();
    assert_eq!(
        second.productions[0].rhs,
        vec![ExtExpression {
            terms: vec![OptTerm::obl(terminal("::=")), OptTerm::obl(nonterminal("b"))]
        }]
    );
    let empty = parse_grammar("<a> ::=").unwrap();
    assert_eq!(empty.productions[0].rhs, vec![ExtExpression { terms: vec![] }]);
}

#[test]
fn an_optional_term_becomes_two_alternatives() {
    let e = ExtExpression {
        terms: vec![
            OptTerm::obl(terminal("N")),
            OptTerm::obl(terminal("{")),
            OptTerm::opt(nonterminal("block")),
            OptTerm::obl(terminal("}")),
        ],
    };
    assert_eq!(
        e.flatten(),
        vec![
            Expression {
                terms: vec![terminal("N"), terminal("{"), nonterminal("block"), terminal("}")]
            },
            Expression { terms: vec![terminal("N"), terminal("{"), terminal("}")] },
        ]
    );
}

#[test]
fn two_optional_terms_become_four_alternatives() {
    let e = ExtExpression {
        terms: vec![
            OptTerm::opt(terminal("a")),
            OptTerm::obl(terminal("b")),
            OptTerm::opt(terminal("c")),
        ],
    };
    assert_eq!(
        e.flatten(),
        vec![
            Expression { terms: vec![terminal("a"), terminal("b"), terminal("c")] },
            Expression { terms: vec![terminal("a"), terminal("b")] },
            Expression { terms: vec![terminal("b"), terminal("c")] },
            Expression { terms: vec![terminal("b")] },
        ]
    );
}

#[test]
fn equal_optional_terms_give_equal_alternatives() {
    let e = ExtExpression { terms: vec![OptTerm::opt(terminal("a")), OptTerm::opt(terminal("a"))] };
    assert_eq!(
        e.flatten(),
        vec![
            Expression { terms: vec![terminal("a"), terminal("a")] },
            Expression { terms: vec![terminal("a")] },
            Expression { terms: vec![terminal("a")] },
            Expression { terms: vec![] },
        ]
    );
}

#[test]
fn an_expression_without_terms_flattens_to_nothing() {
    let e = ExtExpression { terms: vec![] };
    assert_eq!(e.flatten(), vec![]);
    let p = ExtProduction {
        lhs: "a".to_string(),
        rhs: vec![
            ExtExpression { terms: vec![] },
            ExtExpression { terms: vec![OptTerm::obl(terminal("x"))] },
        ],
    };
    assert_eq!(
        p.flatten(),
        Production { lhs: "a".to_string(), rhs: vec![Expression { terms: vec![terminal("x")] }] }
    );
}

#[test]
fn a_production_keeps_the_order_of_its_alternatives() {
    let p = ExtProduction {
        lhs: "p".to_string(),
        rhs: vec![
            ExtExpression { terms: vec![OptTerm::opt(terminal("a")), OptTerm::obl(terminal("b"))] },
            ExtExpression { terms: vec![OptTerm::obl(terminal("c"))] },
            ExtExpression { terms: vec![OptTerm::obl(terminal("d")), OptTerm::opt(terminal("e"))] },
        ],
    };
    assert_eq!(
        p.flatten(),
        Production {
            lhs: "p".to_string(),
            rhs: vec![
                Expression { terms: vec![terminal("a"), terminal("b")] },
                Expression { terms: vec![terminal("b")] },
                Expression { terms: vec![terminal("c")] },
                Expression { terms: vec![terminal("d"), terminal("e")] },
                Expression { terms: vec![terminal("d")] },
            ]
        }
    );
}

#[test]
fn a_grammar_flattens_each_production() {
    let grammar = parse_grammar("<n> ::= N <b>?\n<b> ::= W").unwrap().flatten();
    assert_eq!(
        grammar,
        Grammar {
            productions: vec![
                Production {
                    lhs: "n".to_string(),
                    rhs: vec![
                        Expression { terms: vec![terminal("N"), nonterminal("b")] },
                        Expression { terms: vec![terminal("N")] },
                    ]
                },
                Production {
                    lhs: "b".to_string(),
                    rhs: vec![Expression { terms: vec![terminal("W")] }]
                },
            ]
        }
    );
}

#[test]
fn terms_are_made_optional_or_obligatory() {
    let t = OptTerm::opt(terminal("x"));
    assert!(t.is_optional);
    assert_eq!(t.term, terminal("x"));
    assert!(!OptTerm::obl(terminal("x")).is_optional);
    assert_eq!(t.clone().into_obl(), OptTerm::obl(terminal("x")));
    assert_eq!(OptTerm::obl(nonterminal("y")).into_obl(), OptTerm::obl(nonterminal("y")));
}

#[test]
fn a_grammar_is_written_as_it_is_read() {
    assert_eq!(terminal("N").to_text(), "\"N\"");
    assert_eq!(nonterminal("b").to_text(), "<b>");
    assert_eq!(OptTerm::opt(nonterminal("b")).to_text(), "<b>?");
    assert_eq!(OptTerm::obl(terminal("N")).to_text(), "\"N\"");
    assert_eq!(Expression { terms: vec![] }.to_text(), "");
    assert_eq!(Expression { terms: vec![terminal("a")] }.to_text(), "\"a\"");
    let grammar = parse_grammar("<b> ::= <a> | <b> \".\" <a>\n<a> ::= N").unwrap().flatten();
    assert_eq!(grammar.productions[0].to_text(), "<b> ::= <a> | <b> \".\" <a>");
    assert_eq!(grammar.to_text(), "<b> ::= <a> | <b> \".\" <a>\n<a> ::= \"N\"");
    assert_eq!(Grammar { productions: vec![] }.to_text(), "");
    assert_eq!(Production { lhs: "e".to_string(), rhs: vec![] }.to_text(), "<e> ::= ");
}
