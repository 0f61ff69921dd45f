use parser300b::bnf::parse_grammar;
use parser300b::ctx::Ctx;
use parser300b::ctx::LexToken;
use parser300b::ctx::Token;
use parser300b::grammar::Expression;
use parser300b::grammar::Grammar;
use parser300b::grammar::OptTerm;
use parser300b::grammar::Production;
use parser300b::grammar::Term;
use parser300b::parse::do_expression;
use parser300b::parse::do_plain_term;
use parser300b::parse::do_production;
use parser300b::parse::do_term;
use parser300b::parse::make_ctx;
use parser300b::parse::parse;
use parser300b::tree::format_node;
use parser300b::tree::format_tree;
use parser300b::tree::ParseTree;
use parser300b::tree::ParseTreeNode;
use parser300b::tree::Structure;

fn grammar(text: &str) -> Grammar {
    match parse_grammar(text) {
        Ok(g) => g.flatten(),
        Err(e) => panic!("{}", e.to_text()),
    }
}

fn tokens(names: &[&str]) -> Vec<String> {
    names.iter().map(|n| n.to_string()).collect()
}

fn texts(results: Vec<Result<ParseTree<String>, String>>) -> Vec<Result<String, String>> {
    results.into_iter().map(|r| r.map(|t| t.to_text())).collect()
}

fn run(text: &str, names: &[&str], ignore_errors: bool) -> Vec<Result<String, String>> {
    let g = grammar(text);
    let t = tokens(names);
    texts(parse(make_ctx(&g, &t, false, ignore_errors)))
}

#[test]
fn an_empty_grammar_gives_one_error() {
    let g = Grammar { productions: vec![] };
    for names in [vec![], vec!["a"], vec!["a", "b", "c"]] {
        let t = tokens(&names);
        for ignore_errors in [false, true] {
            let results = texts(parse(make_ctx(&g, &t, false, ignore_errors)));
            assert_eq!(results, vec![Err("grammar is empty".to_string())]);
        }
    }
}

#[test]
fn a_terminal_matches_one_token_by_its_name() {
    assert_eq!(run("<a> ::= N", &["N"], false), vec![Ok("a\n`N\n".to_string())]);
    assert_eq!(
        run("<a> ::= N", &["M"], false),
        vec![Err("front token 'M' is not given terminal 'N'".to_string())]
    );
    assert_eq!(run("<a> ::= N", &["M"], true), vec![]);
}

#[test]
fn a_terminal_over_two_tokens_is_a_length_error() {
    assert_eq!(
        run("<a> ::= N", &["N", "N"], false),
        vec![Err("Ctx len is not 1 on \"N\" != <0, 2, 'NN'> ".to_string())]
    );
    let g = Grammar { productions: vec![] };
    let t = tokens(&["N", "x"]);
    let term = Term::Terminal("N".to_string());
    let results = do_plain_term(make_ctx(&g, &t, false, false), &term);
    assert_eq!(results.len(), 1);
    assert_eq!(results[0], Err("Ctx len is not 1 on \"N\" != <0, 2, 'Nx'> ".to_string()));
}

#[test]
fn a_terminal_over_no_token_is_a_length_error() {
    assert_eq!(
        run("<a> ::= N", &[], false),
        vec![Err("Ctx len is not 1 on \"N\" != <0, 0, ''> ".to_string())]
    );
    assert_eq!(run("<a> ::= N", &[], true), vec![]);
}

#[test]
fn a_nonterminal_without_a_production_is_an_error() {
    assert_eq!(
        run("<a> ::= <b>", &["x"], false),
        vec![Err("production 'b' not found".to_string())]
    );
}

#[test]
fn the_first_production_of_a_name_is_the_one_that_counts() {
    assert_eq!(
        run("<a> ::= <b>\n<b> ::= x\n<b> ::= y", &["y"], false),
        vec![Err("front token 'y' is not given terminal 'x'".to_string())]
    );
    assert_eq!(
        run("<a> ::= <b>\n<b> ::= x\n<b> ::= y", &["x"], false),
        vec![Ok("a\n`b\n``x\n".to_string())]
    );
}

#[test]
fn an_optional_term_is_refused() {
    let g = Grammar { productions: vec![] };
    let t = tokens(&["x"]);
    let term = OptTerm::opt(Term::Terminal("x".to_string()));
    let results = do_term(make_ctx(&g, &t, false, false), &term);
    assert_eq!(
        results,
        vec![Err("optional terms are unimplemented. term '\"x\"?' is optional. call \
                  Grammar::flatten() to remove them"
            .to_string())]
    );
    let nonterminal = OptTerm::opt(Term::Nonterminal("b".to_string()));
    let results = do_term(make_ctx(&g, &t, false, true), &nonterminal);
    assert_eq!(
        results,
        vec![Err("optional terms are unimplemented. term '<b>?' is optional. call \
                  Grammar::flatten() to remove them"
            .to_string())]
    );
    let plain = OptTerm::obl(Term::Terminal("x".to_string()));
    let results = do_term(make_ctx(&g, &t, false, false), &plain);
    assert_eq!(results, vec![Ok(ParseTreeNode::Terminal(&t[0]))]);
}

#[test]
fn a_term_beyond_the_deepest_level_is_an_error() {
    let g = grammar("<a> ::= <a>");
    let t = tokens(&["x"]);
    let mut ctx = make_ctx(&g, &t, false, false);
    ctx.level = 201;
    let term = OptTerm::opt(Term::Terminal("x".to_string()));
    assert_eq!(do_term(ctx.clone(), &term), vec![Err("max level reached".to_string())]);
    let plain = Term::Terminal("x".to_string());
    assert_eq!(do_plain_term(ctx.clone(), &plain), vec![Err("max level reached".to_string())]);
    ctx.level = 200;
    assert_eq!(do_plain_term(ctx.clone(), &plain), vec![Ok(ParseTreeNode::Terminal(&t[0]))]);
    assert_eq!(texts(parse(ctx)), vec![Err("max level reached".to_string())]);
}

#[test]
fn a_production_that_derives_itself_ends_in_one_error() {
    assert_eq!(run("<a> ::= <a>", &["x"], false), vec![Err("max capacity exceeded".to_string())]);
    assert_eq!(run("<a> ::= <a>", &["x"], true), vec![]);
    assert_eq!(
        run("<a> ::= <a> | x", &["x"], true),
        (0..129)
            .rev()
            .map(|depth| {
                let mut text = String::new();
                for level in 0..=depth {
                    text.push_str(&"`".repeat(level));
                    text.push_str("a\n");
                }
                text.push_str(&"`".repeat(depth + 1));
                text.push_str("x\n");
                Ok(text)
            })
            .collect::<Vec<_>>()
    );
}

#[test]
fn errors_stand_in_the_order_of_the_search() {
    assert_eq!(
        run("<b> ::= <a> | <b> \".\" <a>\n<a> ::= N", &["N", "."], false),
        vec![Err("Ctx len is not 1 on \"N\" != <0, 2, 'N.'> ".to_string())]
    );
    assert_eq!(
        run("<s> ::= x y | y | x z", &["x", "y"], false),
        vec![
            Ok("s\n`x\n`y\n".to_string()),
            Err("Ctx len is not 1 on \"y\" != <0, 2, 'xy'> ".to_string()),
            Err("front token 'y' is not given terminal 'z'".to_string()),
        ]
    );
    assert_eq!(
        run("<s> ::= y x", &["x", "y"], false),
        vec![Err("front token 'x' is not given terminal 'y'".to_string())]
    );
}

#[test]
fn every_derivation_of_an_ambiguous_grammar_is_given() {
    let right = "s\n`s\n``a\n`s\n``s\n```a\n``s\n```a\n";
    let left = "s\n`s\n``s\n```a\n``s\n```a\n`s\n``a\n";
    assert_eq!(
        run("<s> ::= <s> <s> | a", &["a", "a", "a"], true),
        vec![Ok(right.to_string()), Ok(left.to_string())]
    );
    assert_eq!(run("<s> ::= <s> <s> | a", &["a", "a", "a", "a"], true).len(), 5);
    assert_eq!(run("<s> ::= <s> <s> | a", &["a", "a", "a", "a", "a"], true).len(), 14);
}

#[test]
fn every_combination_of_the_results_of_the_slots_is_given() {
    assert_eq!(
        run("<s> ::= <p> <p>\n<p> ::= a | <q>\n<q> ::= a", &["a", "a"], true),
        vec![
            Ok("s\n`p\n``a\n`p\n``a\n".to_string()),
            Ok("s\n`p\n``a\n`p\n``q\n```a\n".to_string()),
            Ok("s\n`p\n``q\n```a\n`p\n``a\n".to_string()),
            Ok("s\n`p\n``q\n```a\n`p\n``q\n```a\n".to_string()),
        ]
    );
}

#[test]
fn the_first_error_among_the_slots_is_the_result() {
    assert_eq!(
        run("<s> ::= <p> <r> <p>\n<p> ::= a | b\n<r> ::= c", &["b", "d", "c"], false),
        vec![
            Err("front token 'b' is not given terminal 'a'".to_string()),
            Err("front token 'b' is not given terminal 'a'".to_string()),
            Err("front token 'd' is not given terminal 'c'".to_string()),
            Err("front token 'd' is not given terminal 'c'".to_string()),
        ]
    );
}

#[test]
fn an_alternative_longer_than_the_window_gives_nothing() {
    assert_eq!(run("<s> ::= a b c", &["a", "b"], false), vec![]);
    let g = Grammar { productions: vec![] };
    let t = tokens(&["a"]);
    let name = "s".to_string();
    let none = Expression { terms: vec![] };
    assert_eq!(do_expression(make_ctx(&g, &t, false, false), &name, &none), vec![]);
}

#[test]
fn a_production_gives_its_alternatives_in_order() {
    let g = grammar("<x> ::= b\n<s> ::= <x> | b | a");
    let t = tokens(&["b"]);
    let all = texts(do_production(make_ctx(&g, &t, false, false), &g.productions[1]));
    assert_eq!(
        all,
        vec![
            Ok("s\n`x\n``b\n".to_string()),
            Ok("s\n`b\n".to_string()),
            Err("front token 'b' is not given terminal 'a'".to_string()),
        ]
    );
    let kept = texts(do_production(make_ctx(&g, &t, false, true), &g.productions[1]));
    assert_eq!(kept, vec![Ok("s\n`x\n``b\n".to_string()), Ok("s\n`b\n".to_string())]);
    let other = Production {
        lhs: "t".to_string(),
        rhs: vec![Expression { terms: vec![Term::Nonterminal("s".to_string())] }],
    };
    let nested = texts(do_production(make_ctx(&g, &t, false, true), &other));
    assert_eq!(
        nested,
        vec![Ok("t\n`s\n``x\n```b\n".to_string()), Ok("t\n`s\n``b\n".to_string())]
    );
}

#[test]
fn a_tree_has_one_node_for_each_term() {
    let g = grammar("<s> ::= <p> \".\" <p> | <p>\n<p> ::= a | a \".\" a");
    let t = tokens(&["a", ".", "a"]);
    let trees = parse(make_ctx(&g, &t, false, true));
    assert_eq!(trees.len(), 2);
    for tree in trees {
        let tree = tree.unwrap();
        assert_eq!(tree.lhs, "s");
        assert!(tree.rhs.len() == 3 || tree.rhs.len() == 1);
        assert_eq!(tree.clone(), tree);
    }
}

#[test]
fn the_window_of_a_context_is_what_is_parsed() {
    let g = grammar("<s> ::= a b");
    let t = tokens(&["x", "a", "b", "y"]);
    let ctx = Ctx::test(1, 3, &t, &g);
    assert_eq!(texts(parse(ctx)), vec![Ok("s\n`a\n`b\n".to_string())]);
    assert_eq!(texts(parse(Ctx::test(0, 4, &t, &g))), vec![]);
}

#[test]
fn make_ctx_covers_all_tokens() {
    let g = Grammar { productions: vec![] };
    let t = tokens(&["a", "b", "c"]);
    let ctx = make_ctx(&g, &t, true, false);
    assert_eq!((ctx.begin, ctx.end, ctx.level), (0, 3, 0));
    assert!(ctx.logs_enabled);
    assert!(!ctx.ignore_errors);
    assert_eq!(ctx.prod_stack.len(), 0);
    let quiet = make_ctx(&g, &t, false, true);
    assert!(!quiet.logs_enabled);
    assert!(quiet.ignore_errors);
    assert!(quiet == Ctx::test(0, 3, &t, &g));
    let same_content = tokens(&["a", "b", "c"]);
    assert!(quiet != Ctx::test(0, 3, &same_content, &g));
}

fn word(name: &str, text: &str, position: usize) -> LexToken {
    LexToken { name: name.to_string(), text: text.to_string(), position }
}

#[test]
fn a_token_is_matched_by_its_name_and_printed_by_its_text() {
    let g = grammar("<s> ::= id \"=\" num");
    let t = vec![word("id", "x", 0), word("=", "=", 2), word("num", "42", 4)];
    assert_eq!(t[2].name(), "num");
    assert_eq!(t[2].to_text(), "42");
    assert_eq!(t[2].clone(), t[2]);
    let trees = parse(make_ctx(&g, &t, false, false));
    assert_eq!(trees.len(), 1);
    let tree = trees[0].as_ref().unwrap();
    assert_eq!(tree.to_text(), "s\n`x\n`=\n`42\n");
    assert_eq!(
        tree.to_structure(),
        Structure::List(vec![
            Structure::Name("s".to_string()),
            Structure::Name("id".to_string()),
            Structure::Name("=".to_string()),
            Structure::Name("num".to_string()),
        ])
    );
    let wrong = vec![word("num", "7", 0)];
    let g2 = grammar("<s> ::= id");
    let results: Vec<_> =
        parse(make_ctx(&g2, &wrong, false, false)).into_iter().map(|r| r.map(|_| ())).collect();
    assert_eq!(results, vec![Err("front token '7' is not given terminal 'id'".to_string())]);
}

#[test]
fn the_structured_form_nests_as_the_tree() {
    let g = grammar("<b> ::= <a> | <b> \".\" <a>\n<a> ::= N");
    let t = tokens(&["N", ".", "N"]);
    let trees = parse(make_ctx(&g, &t, false, true));
    assert_eq!(trees.len(), 1);
    let tree = trees[0].as_ref().unwrap();
    let name = |n: &str| Structure::Name(n.to_string());
    let a = || Structure::List(vec![name("a"), name("N")]);
    assert_eq!(
        tree.to_structure(),
        Structure::List(vec![name("b"), Structure::List(vec![name("b"), a()]), name("."), a()])
    );
    assert_eq!(tree.rhs[1].to_structure(), name("."));
    assert_eq!(tree.rhs[2].to_structure(), a());
    let elided: ParseTreeNode<String> = ParseTreeNode::Elided;
    assert_eq!(elided.to_structure(), Structure::Absent);
}

#[test]
fn trees_with_one_structured_form_are_one_tree() {
    let g = grammar("<s> ::= <s> <s> | a | <t>\n<t> ::= a");
    let t = tokens(&["a", "a", "a"]);
    let trees: Vec<_> =
        parse(make_ctx(&g, &t, false, true)).into_iter().map(|r| r.unwrap()).collect();
    assert!(trees.len() > 2);
    for x in &trees {
        for y in &trees {
            assert_eq!(x.to_structure() == y.to_structure(), x == y);
        }
    }
}

#[test]
fn a_tree_prints_one_line_for_each_name_and_token() {
    let names = tokens(&["N", "M"]);
    let lhs = "b".to_string();
    let inner = "a".to_string();
    let tree = ParseTree {
        lhs: &lhs,
        rhs: vec![
            ParseTreeNode::Terminal(&names[0]),
            ParseTreeNode::Elided,
            ParseTreeNode::Nonterminal(ParseTree {
                lhs: &inner,
                rhs: vec![ParseTreeNode::Terminal(&names[1])],
            }),
        ],
    };
    assert_eq!(tree.to_text(), "b\n`N\n`a\n``M\n");
    assert_eq!(tree.rhs[0].to_text(), "N\n");
    assert_eq!(tree.rhs[1].to_text(), "");
    assert_eq!(tree.rhs[2].to_text(), "a\n`M\n");
    let mut out = "> ".to_string();
    format_tree(&tree, &mut out, 2);
    assert_eq!(out, "> ``b\n```N\n```a\n````M\n");
    let mut node = String::new();
    format_node(&tree.rhs[0], &mut node, 3);
    format_node(&tree.rhs[1], &mut node, 3);
    assert_eq!(node, "```N\n");
    let empty = ParseTree::<String> { lhs: &lhs, rhs: vec![] };
    assert_eq!(empty.to_text(), "b\n");
    assert_eq!(
        tree.to_structure(),
        Structure::List(vec![
            Structure::Name("b".to_string()),
            Structure::Name("N".to_string()),
            Structure::Absent,
            Structure::List(vec![
                Structure::Name("a".to_string()),
                Structure::Name("M".to_string())
            ]),
        ])
    );
}

#[test]
fn the_parse_with_an_optional_block_left_out_gives_one_tree() {
    let text = "<namespace> ::= \"N\" \"{\" <block>? \"}\"\n\
                <block> ::= <subs> | <subs> \";\" <block>\n\
                <subs>  ::= \"W\"";
    assert_eq!(run(text, &["N", "{", "}"], true), vec![Ok("namespace\n`N\n`{\n`}\n".to_string())]);
}

#[test]
fn the_postfix_example_holds_the_nested_tree() {
    let text = "<b> ::= <a> | <b> \".\" <a>\n<a> ::= \"N\"";
    let results = run(text, &["N", ".", "N", ".", "N"], true);
    let nested = "b\n`b\n``b\n```a\n````N\n``.\n``a\n```N\n`.\n`a\n``N\n";
    assert_eq!(results, vec![Ok(nested.to_string())]);
}
