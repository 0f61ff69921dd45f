use colored::Color;
use parser300b::ctx::Arr;
use parser300b::ctx::Ctx;
use parser300b::grammar::Grammar;
use parser300b::grammar::Production;

#[test]
fn split_ctx_test() {
    let tokens: Vec<String> = Vec::new();
    let grammar = Grammar { productions: vec![] };
    let ctx = Ctx {
        begin: 4,
        end: 9,
        tokens: &tokens,
        grammar: &grammar,
        level: 0,
        logs_enabled: true,
        ignore_errors: false,
        prod_stack: Default::default(),
    };

    let combinations: Vec<_> =
        ctx.combinations(3).into_iter().map(|combination| ctx.split(combination)).collect();

    assert_eq!(
        combinations,
        vec![
            vec![ctx.at(4..5), ctx.at(5..6), ctx.at(6..9)],
            vec![ctx.at(4..5), ctx.at(5..7), ctx.at(7..9)],
            vec![ctx.at(4..5), ctx.at(5..8), ctx.at(8..9)],
            vec![ctx.at(4..6), ctx.at(6..7), ctx.at(7..9)],
            vec![ctx.at(4..6), ctx.at(6..8), ctx.at(8..9)],
            vec![ctx.at(4..7), ctx.at(7..8), ctx.at(8..9)],
        ]
    );
}

#[test]
fn split_ctx_test2() {
    let tokens: Vec<String> = Vec::new();
    let grammar = Grammar { productions: vec![] };
    let ctx = Ctx {
        begin: 0,
        end: 7,
        tokens: &tokens,
        grammar: &grammar,
        level: 0,
        logs_enabled: true,
        ignore_errors: false,
        prod_stack: Default::default(),
    };

    let combinations: Vec<_> =
        ctx.combinations(4).into_iter().map(|combination| ctx.split(combination)).collect();

    assert_eq!(
        combinations,
        vec![
            vec![ctx.at(0..1), ctx.at(1..2), ctx.at(2..3), ctx.at(3..7)],
            vec![ctx.at(0..1), ctx.at(1..2), ctx.at(2..4), ctx.at(4..7)],
            vec![ctx.at(0..1), ctx.at(1..2), ctx.at(2..5), ctx.at(5..7)],
            vec![ctx.at(0..1), ctx.at(1..2), ctx.at(2..6), ctx.at(6..7)],
            vec![ctx.at(0..1), ctx.at(1..3), ctx.at(3..4), ctx.at(4..7)],
            vec![ctx.at(0..1), ctx.at(1..3), ctx.at(3..5), ctx.at(5..7)],
            vec![ctx.at(0..1), ctx.at(1..3), ctx.at(3..6), ctx.at(6..7)],
            vec![ctx.at(0..1), ctx.at(1..4), ctx.at(4..5), ctx.at(5..7)],
            vec![ctx.at(0..1), ctx.at(1..4), ctx.at(4..6), ctx.at(6..7)],
            vec![ctx.at(0..1), ctx.at(1..5), ctx.at(5..6), ctx.at(6..7)],
            vec![ctx.at(0..2), ctx.at(2..3), ctx.at(3..4), ctx.at(4..7)],
            vec![ctx.at(0..2), ctx.at(2..3), ctx.at(3..5), ctx.at(5..7)],
            vec![ctx.at(0..2), ctx.at(2..3), ctx.at(3..6), ctx.at(6..7)],
            vec![ctx.at(0..2), ctx.at(2..4), ctx.at(4..5), ctx.at(5..7)],
            vec![ctx.at(0..2), ctx.at(2..4), ctx.at(4..6), ctx.at(6..7)],
            vec![ctx.at(0..2), ctx.at(2..5), ctx.at(5..6), ctx.at(6..7)],
            vec![ctx.at(0..3), ctx.at(3..4), ctx.at(4..5), ctx.at(5..7)],
            vec![ctx.at(0..3), ctx.at(3..4), ctx.at(4..6), ctx.at(6..7)],
            vec![ctx.at(0..3), ctx.at(3..5), ctx.at(5..6), ctx.at(6..7)],
            vec![ctx.at(0..4), ctx.at(4..5), ctx.at(5..6), ctx.at(6..7)],
        ]
    );
}

#[test]
fn split_ctx_into_same_test() {
    let tokens: Vec<String> = Vec::new();
    let grammar = Grammar { productions: vec![] };
    let ctx = Ctx {
        begin: 0,
        end: 7,
        tokens: &tokens,
        grammar: &grammar,
        level: 0,
        logs_enabled: true,
        ignore_errors: false,
        prod_stack: Default::default(),
    };

    let combinations: Vec<_> =
        ctx.combinations(1).into_iter().map(|combination| ctx.split(combination)).collect();

    assert_eq!(combinations, vec![vec![ctx]]);
}

fn ranges(parts: &[Ctx<String>]) -> Vec<(usize, usize)> {
    parts.iter().map(|c| (c.begin, c.end)).collect()
}

#[test]
fn split_leaves_out_empty_ranges_at_the_ends() {
    let tokens: Vec<String> = Vec::new();
    let grammar = Grammar { productions: vec![] };
    let ctx = Ctx::test(2, 6, &tokens, &grammar);
    let at = |marks: Vec<usize>| {
        ranges(&ctx.split(parser300b::combination::Combination { marks }))
    };
    assert_eq!(at(vec![]), vec![(2, 6)]);
    assert_eq!(at(vec![4]), vec![(2, 4), (4, 6)]);
    assert_eq!(at(vec![2]), vec![(2, 6)]);
    assert_eq!(at(vec![6]), vec![(2, 6)]);
    assert_eq!(at(vec![2, 4]), vec![(2, 4), (4, 6)]);
    assert_eq!(at(vec![3, 6]), vec![(2, 3), (3, 6)]);
    assert_eq!(at(vec![3, 4, 5]), vec![(2, 3), (3, 4), (4, 5), (5, 6)]);
}

#[test]
fn split_tiles_the_window_for_every_combination() {
    let tokens: Vec<String> = Vec::new();
    let grammar = Grammar { productions: vec![] };
    let ctx = Ctx::test(3, 9, &tokens, &grammar);
    for count in 1..=6 {
        for combination in ctx.combinations(count) {
            let parts = ranges(&ctx.split(combination));
            assert_eq!(parts.len(), count);
            assert_eq!(parts[0].0, 3);
            assert_eq!(parts[count - 1].1, 9);
            for i in 0..count {
                assert!(parts[i].0 < parts[i].1);
                if i + 1 < count {
                    assert_eq!(parts[i].1, parts[i + 1].0);
                }
            }
        }
    }
    assert_eq!(ctx.combinations(7).len(), 0);
    assert_eq!(ctx.combinations(0).len(), 0);
}

#[test]
fn combinations_of_an_empty_window() {
    let tokens: Vec<String> = Vec::new();
    let grammar = Grammar { productions: vec![] };
    let ctx = Ctx::test(5, 5, &tokens, &grammar);
    let one = ctx.combinations(1);
    assert_eq!(one.len(), 1);
    assert_eq!(one[0].marks, Vec::<usize>::new());
    assert_eq!(ctx.combinations(2).len(), 0);
    let last = Ctx::test(usize::MAX, usize::MAX, &tokens, &grammar);
    assert_eq!(last.combinations(1).len(), 1);
    assert_eq!(last.combinations(3).len(), 0);
}

#[test]
fn contexts_are_equal_by_window_and_storage() {
    let tokens: Vec<String> = vec!["a".to_string()];
    let same_content: Vec<String> = vec!["a".to_string()];
    let grammar = Grammar { productions: vec![] };
    let other_grammar = Grammar { productions: vec![] };
    let ctx = Ctx::test(0, 1, &tokens, &grammar);
    assert!(ctx == Ctx::test(0, 1, &tokens, &grammar));
    assert!(ctx == ctx.clone());
    assert!(ctx != Ctx::test(0, 0, &tokens, &grammar));
    assert!(ctx != Ctx::test(1, 1, &tokens, &grammar));
    assert!(ctx != Ctx::test(0, 1, &same_content, &grammar));
    assert!(ctx != Ctx::test(0, 1, &tokens, &other_grammar));
}

#[test]
fn test_context_starts_at_level_zero() {
    let tokens: Vec<String> = vec!["a".to_string(), "b".to_string()];
    let grammar = Grammar { productions: vec![] };
    let ctx = Ctx::test(0, 2, &tokens, &grammar);
    assert_eq!(ctx.level, 0);
    assert!(!ctx.logs_enabled);
    assert!(ctx.ignore_errors);
    assert_eq!(ctx.prod_stack.len(), 0);
    assert_eq!(ctx.len(), 2);
    assert_eq!(ctx.front(), "a");
    assert_eq!(ctx.at(1..2).front(), "b");
}

#[test]
fn next_level_records_the_production() {
    let tokens: Vec<String> = vec!["a".to_string()];
    let production = Production { lhs: "p".to_string(), rhs: vec![] };
    let grammar = Grammar { productions: vec![] };
    let ctx = Ctx::test(0, 1, &tokens, &grammar);
    let deeper = ctx.next_level(&production).next_level(&production);
    assert_eq!(deeper.level, 2);
    assert_eq!(deeper.prod_stack.len(), 2);
    assert_eq!(deeper.prod_stack.back().unwrap().lhs, "p");
    assert_eq!((deeper.begin, deeper.end), (0, 1));
    let narrowed = deeper.at(0..0);
    assert_eq!(narrowed.level, 2);
    assert_eq!(narrowed.prod_stack.len(), 2);
    assert!(deeper == ctx);
    assert!(narrowed == ctx.at(0..0));
    let reset = deeper.reset_stack();
    assert_eq!(reset.level, 2);
    assert_eq!(reset.prod_stack.len(), 0);
    assert!(reset == ctx);
}

#[test]
fn every_context_of_a_parse_shares_the_storage() {
    let tokens: Vec<String> = vec!["a".to_string(), "b".to_string(), "c".to_string()];
    let copy = tokens.clone();
    let grammar = Grammar { productions: vec![] };
    let ctx = Ctx::test(0, 3, &tokens, &grammar);
    for combination in ctx.combinations(2) {
        for part in ctx.split(combination) {
            assert!(part == ctx.at(part.begin..part.end));
            assert!(part != Ctx::test(part.begin, part.end, &copy, &grammar));
        }
    }
    assert!(ctx.clone().at(1..2) == Ctx::test(1, 2, &tokens, &grammar));
}

#[test]
fn context_text_has_two_forms() {
    let tokens: Vec<String> = vec!["N".to_string(), ".".to_string(), "N".to_string()];
    let grammar = Grammar { productions: vec![] };
    let ctx = Ctx::test(0, 3, &tokens, &grammar);
    assert_eq!(ctx.to_text(false), "'N.N'");
    assert_eq!(ctx.to_text(true), "<0, 3, 'N.N'> ");
    assert_eq!(ctx.at(1..3).to_text(true), "<1, 3, '.N'> ");
    assert_eq!(ctx.at(2..2).to_text(false), "''");
}

#[test]
fn color_follows_the_level() {
    let tokens: Vec<String> = Vec::new();
    let grammar = Grammar { productions: vec![] };
    let mut ctx = Ctx::test(0, 0, &tokens, &grammar);
    assert_eq!(ctx.color(), Color::TrueColor { r: 0, g: 0, b: 0 });
    ctx.level = 1;
    assert_eq!(ctx.color(), Color::TrueColor { r: 32, g: 64, b: 128 });
    ctx.level = 3;
    assert_eq!(ctx.color(), Color::TrueColor { r: 96, g: 192, b: 128 });
    ctx.level = 8;
    assert_eq!(ctx.color(), Color::TrueColor { r: 0, g: 0, b: 0 });
    ctx.level = usize::MAX;
    assert_eq!(ctx.color(), Color::TrueColor { r: 224, g: 192, b: 128 });
}

#[test]
fn stack_holds_no_more_than_its_capacity() {
    let mut stack: Arr<u8, 2> = Default::default();
    assert_eq!(stack.len(), 0);
    assert_eq!(stack.back(), None);
    assert_eq!(stack.head(), &[] as &[u8]);
    stack.push(7);
    assert_eq!(stack.back(), Some(&7));
    assert_eq!(stack.head(), &[] as &[u8]);
    let stack = stack.with(9).unwrap();
    assert_eq!(stack.len(), 2);
    assert_eq!(stack.back(), Some(&9));
    assert_eq!(stack.head(), &[7]);
    match stack.with(1) {
        Ok(_) => panic!("a full stack took one more"),
        Err(e) => assert_eq!(e, "max capacity exceeded"),
    }
}
