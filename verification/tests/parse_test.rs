use parser300b::bnf::parse_grammar;
use parser300b::parse::make_ctx;
use parser300b::parse::parse;

/// The lines of `text` without what stands before the bar that starts each
/// of them, and without a blank first and last line. Nothing where a line
/// in between has no bar.
fn trim_margin(text: &str) -> Option<String> {
    let mut lines: Vec<&str> = text.lines().collect();
    if lines.first().map_or(false, |l| l.trim().is_empty()) {
        lines.remove(0);
    }
    if lines.last().map_or(false, |l| l.trim().is_empty()) {
        lines.pop();
    }
    let mut out: Vec<&str> = Vec::new();
    for line in lines {
        out.push(line.trim_start().strip_prefix('|')?);
    }
    Some(out.join("\n"))
}

fn results(grammar: &str, tokens: &[&str], ignore_errors: bool) -> Vec<Result<String, String>> {
    let grammar_text = trim_margin(grammar).unwrap_or(grammar.to_string());
    let g = match parse_grammar(grammar_text.as_str()) {
        Ok(g) => g.flatten(),
        Err(e) => panic!("grammar parsed: {}", e.to_text()),
    };
    let t: Vec<String> = tokens.iter().map(|x| String::from(*x)).collect();
    let ctx = make_ctx(&g, &t, false, ignore_errors);
    parse(ctx).into_iter().map(|r| r.map(|tree| tree.to_text())).collect()
}

fn assert_contains_tree(grammar: &str, tokens: &[&str], expected_tree: &str) {
    let trees = results(grammar, tokens, true);
    let expected: Result<String, String> = Ok(trim_margin(expected_tree).unwrap() + "\n");
    let found = trees.iter().any(|t| *t == expected);
    if !found {
        panic!(
            "assertion failed: `left.contains(right)`\nleft: {:#?}\nright: {:#?}",
            trees, expected
        );
    }
}

#[test]
fn postfix_test() {
    assert_contains_tree(
        r#"
                |<b> ::= <a> | <b> "." <a>
                |<a> ::= "N"
            "#,
        &["N", ".", "N", ".", "N"],
        r#"
                |b
                |`b
                |``b
                |```a
                |````N
                |``.
                |``a
                |```N
                |`.
                |`a
                |``N
            "#,
    );
}

#[test]
fn preffix_postfix_test() {
    assert_contains_tree(
        r#"
                |<c> ::= "K" "W" "=" <b>
                |<b> ::= "W" | <b> "." "W"
            "#,
        &["K", "W", "=", "W", ".", "W", ".", "W"],
        r#"
                |c
                |`K
                |`W
                |`=
                |`b
                |``b
                |```b
                |````W
                |```.
                |```W
                |``.
                |``W
            "#,
    );
}

#[test]
fn block_test() {
    assert_contains_tree(
        r#"
                |<block> ::= <subs> | <subs> ";" <block>
                |<subs>  ::= "W"
            "#,
        &["W", ";", "W", ";", "W"],
        r#"
                |block
                |`subs
                |``W
                |`;
                |`block
                |``subs
                |```W
                |``;
                |``block
                |```subs
                |````W
            "#,
    );
}

#[test]
fn opt_block_test() {
    assert_contains_tree(
        r#"
                |<namespace> ::= "N" "{" <block>? "}"
                |<block> ::= <subs> | <subs> ";" <block>
                |<subs>  ::= "W"
            "#,
        &["N", "{", "W", ";", "W", ";", "W", "}"],
        r#"
                |namespace
                |`N
                |`{
                |`block
                |``subs
                |```W
                |``;
                |``block
                |```subs
                |````W
                |```;
                |```block
                |````subs
                |`````W
                |`}
            "#,
    );
}

#[test]
fn opt_block_missing_test() {
    assert_contains_tree(
        r#"
                |<namespace> ::= "N" "{" <block>? "}"
                |<block> ::= <subs> | <subs> ";" <block>
                |<subs>  ::= "W"
            "#,
        &["N", "{", "}"],
        r#"
                |namespace
                |`N
                |`{
                |`}
            "#,
    );
}

#[test]
fn block_subs_simple_test() {
    assert_contains_tree(
        r#"
                |<block> ::= <subs> | <subs> ";" <block>
                |<subs>  ::= "Y" "=" "X"
            "#,
        &["Y", "=", "X", ";", "Y", "=", "X"],
        r#"
                |block
                |`subs
                |``Y
                |``=
                |``X
                |`;
                |`block
                |``subs
                |```Y
                |```=
                |```X
            "#,
    );
}

#[test]
fn block_subs_test() {
    assert_contains_tree(
        r#"
                |<block> ::= <subs> | <subs> ";" <block>
                |<subs>  ::= <lhs> "=" <rhs>
                |<lhs>   ::= "Y"
                |<rhs>   ::= "X"
            "#,
        &["Y", "=", "X", ";", "Y", "=", "X"],
        r#"
                |block
                |`subs
                |``lhs
                |```Y
                |``=
                |``rhs
                |```X
                |`;
                |`block
                |``subs
                |```lhs
                |````Y
                |```=
                |```rhs
                |````X
            "#,
    );
}

#[test]
fn block_postfix_test() {
    assert_contains_tree(
        r#"
                |<block> ::= <subs> | <subs> ";" <block>
                |<subs>  ::= <lhs> "=" <rhs>
                |<lhs>   ::= "ID"
                |<rhs>   ::= <expr> | <rhs> "." <expr>
                |<expr>  ::= "W"
            "#,
        &[
            "ID", "=", "W", ".", "W", ";", "ID", "=", "W", ".", "W", ".", "W", ";", "ID", "=", "W",
        ],
        r#"
                |block
                |`subs
                |``lhs
                |```ID
                |``=
                |``rhs
                |```rhs
                |````expr
                |`````W
                |```.
                |```expr
                |````W
                |`;
                |`block
                |``subs
                |```lhs
                |````ID
                |```=
                |```rhs
                |````rhs
                |`````rhs
                |``````expr
                |```````W
                |`````.
                |`````expr
                |``````W
                |````.
                |````expr
                |`````W
                |``;
                |``block
                |```subs
                |````lhs
                |`````ID
                |````=
                |````rhs
                |`````expr
                |``````W
            "#,
    );
}

#[test]
fn hard_parse00_test() {
    assert_contains_tree(
        r#"
            <block> ::= <stmt> ";" | <stmt> ";" <block>
            <namespace> ::= "namespace" "{" <block>? "}"
            <subs> ::= <lhs> "=" <postfix_rhs>
            <lhs> ::= <id> | "exp" | "_"
            <postfix_rhs> ::= <rhs> | <postfix_rhs> "." <id>
            <rhs> ::= <namespace> | <literal> | <subs> | <callable_or_type_rhs> | <call>
            <stmt> ::= <subs> | "stmt"
            <class_decl> ::= "class" "(" <decl_arg_list>? ")" "{" <block>? "}"
            <arg_list> ::= <arg> | <arg_list> "," <arg>
            <arg> ::= <postfix_rhs>
            <decl_arg_list> ::= <decl_arg> | <decl_arg_list> "," <decl_arg>
            <decl_arg> ::= <id> " " <callable_or_type_rhs>
            <primitive_type> ::= "int" | "float"
            <func_decl> ::= "(" <decl_arg_list>? ")" "{" <block>? "}"
            <callable_or_type_rhs> ::= <id> | <func_decl> | <primitive_type> | <class_decl>
            <call> ::= <callable_or_type_rhs> "(" <arg_list>? ")"
            <literal> ::= "STR" | "NUM"
            <id> ::= "ID"
        "#,
        &[
            "stmt", ";", "exp", "=", "ID", "(", "ID", "(", "int", "(", ")", ".", "ID", ")", ")",
            ";",
        ],
        r#"
            |block
            |`stmt
            |``stmt
            |`;
            |`block
            |``stmt
            |```subs
            |````lhs
            |`````exp
            |````=
            |````postfix_rhs
            |`````rhs
            |``````call
            |```````callable_or_type_rhs
            |````````id
            |`````````ID
            |```````(
            |```````arg_list
            |````````arg
            |`````````postfix_rhs
            |``````````rhs
            |```````````call
            |````````````callable_or_type_rhs
            |`````````````id
            |``````````````ID
            |````````````(
            |````````````arg_list
            |`````````````arg
            |``````````````postfix_rhs
            |```````````````postfix_rhs
            |````````````````rhs
            |`````````````````call
            |``````````````````callable_or_type_rhs
            |```````````````````primitive_type
            |````````````````````int
            |``````````````````(
            |``````````````````)
            |```````````````.
            |```````````````id
            |````````````````ID
            |````````````)
            |```````)
            |``;
        "#,
    );
}

#[test]
fn hard_level_test() {
    let g = match parse_grammar("") {
        Ok(g) => g.flatten(),
        Err(e) => panic!("{}", e.to_text()),
    };

    let t: Vec<_> = vec![""].into_iter().map(|x| String::from(x)).collect();

    let ctx = make_ctx(&g, &t, true, true);

    let mut trees: Vec<_> = parse(ctx).into_iter().map(|t| t.map(|t| t.to_text())).collect();

    trees.sort_by(|x, y| x.is_ok().cmp(&y.is_ok()));

    assert_contains_tree(
        r#"
        <syntax>         ::= <rule> | <rule> <syntax>
        <rule>           ::= "<" <rule_name> ">" "::=" <expression> <line_end>
        <expression>     ::= <list> | <list> "or" <expression>
        <line_end>       ::= "end" | <line_end> <line_end>
        <list>           ::= <term> | <term> <list>
        <term>           ::= <literal> | "<" <rule_name> ">"
        <literal>        ::= "`" <text> "`"
        <text>           ::= <character> <text> | <character>
        <character>      ::= <letter> | <digit>
        <letter>         ::= "J" | "K" | "L" | "q"
        <digit>          ::= "0"
        <rule_name>      ::= <letter> | <rule_name> <rule_char>
        <rule_char>      ::= <letter> | <digit> | "_"
    "#,
        &["<", "K", ">", "::=", "<", "L", "J", ">", "end"],
        r#"
                |syntax
                |`rule
                |``<
                |``rule_name
                |```letter
                |````K
                |``>
                |``::=
                |``expression
                |```list
                |````term
                |`````<
                |`````rule_name
                |``````rule_name
                |```````letter
                |````````L
                |``````rule_char
                |```````letter
                |````````J
                |`````>
                |``line_end
                |```end
            "#,
    );
}
