//! Every derivation is found: a tree that derives the window of a context
//! from a production stands among the results of the production, as far as
//! the bounds on the recursion let the engine reach it.

use crate::combination::expansion;
use crate::combination::is_combination;
use crate::combination::is_index_tuple;
use crate::combination::lemma_combinations_complete;
use crate::combination::lemma_index_tuples_complete;
use crate::combination::pick;
use crate::combination::row_lens;
use crate::ctx::split_points;
use crate::ctx::split_ranges;
use crate::ctx::CtxView;
use crate::ctx::Token;
use crate::grammar::ProductionView;
use crate::grammar::TermView;
use crate::parse::alternative_results;
use crate::parse::expression_results;
use crate::parse::first_production;
use crate::parse::folded;
use crate::parse::parse_results;
use crate::parse::production_results;
use crate::parse::results_by_split;
use crate::parse::slot_results;
use crate::parse::split_results;
use crate::parse::term_results;
use crate::parse::NodeOutcome;
use crate::parse::TreeOutcome;
use crate::sequences::concat;
use crate::parse::lemma_all_ok;
use crate::parse::lemma_without_errors_keeps;
use crate::sequences::lemma_concat_index;
use crate::sequences::lemma_concat_part;
use crate::sequences::lemma_offsets_grow;
use crate::sequences::offset;
use crate::soundness::law_production_derives_window;
use crate::soundness::node_derives;
use crate::soundness::node_in_reach;
use crate::soundness::nodes_derive;
use crate::soundness::tree_derives;
use crate::soundness::tree_in_reach;
use crate::tree::leaves_by_node;
use crate::tree::node_leaves;
use crate::tree::tree_leaves;
use crate::tree::NodeView;
use crate::tree::TreeView;
use vstd::prelude::*;

verus! {

/// A node that the engine can reach holds a token.
pub proof fn lemma_leaves_nonempty<T>(node: NodeView<T>, depth: int, level: int)
    requires
        node_in_reach(node, depth, level),
    ensures
        node_leaves(node).len() > 0,
    decreases node,
{
    match node {
        NodeView::Terminal(_) => {},
        NodeView::Nonterminal(tree) => {
            let parts = leaves_by_node(tree);
            let last = tree.rhs.len() - 1;
            assert(node_in_reach(tree.rhs[last], depth + 1, level + 1));
            lemma_leaves_nonempty(tree.rhs[last], depth + 1, level + 1);
            assert(parts.last() == node_leaves(tree.rhs[last]));
        },
        NodeView::Elided => {},
    }
}

/// The cut points between the parts, for a window that starts at `begin`.
pub open spec fn marks_between<A>(parts: Seq<Seq<A>>, begin: int) -> Seq<int> {
    Seq::new((parts.len() - 1) as nat, |j: int| begin + offset(parts, j + 1))
}

/// The ranges of the parts, for a window that starts at `begin`.
pub open spec fn ranges_of<A>(parts: Seq<Seq<A>>, begin: int) -> Seq<(int, int)> {
    Seq::new(parts.len(), |j: int| (begin + offset(parts, j), begin + offset(parts, j + 1)))
}

/// Parts without an empty one that make up the window `[begin, end)`: the
/// cut points between them are among those that a context offers for their
/// number, and they part the window into the ranges of the parts. The
/// result is the position of the cut points.
pub proof fn lemma_parts_are_a_split<A>(parts: Seq<Seq<A>>, begin: int, end: int) -> (k: int)
    requires
        parts.len() > 0,
        forall|j: int| 0 <= j < parts.len() ==> (#[trigger] parts[j]).len() > 0,
        concat(parts).len() == end - begin,
    ensures
        0 <= k < split_points(begin, end, parts.len()).len(),
        split_points(begin, end, parts.len())[k] == marks_between(parts, begin),
        split_ranges(begin, end, marks_between(parts, begin)) == ranges_of(parts, begin),
{
    let n = parts.len() as int;
    let marks = marks_between(parts, begin);
    assert(parts.take(n) =~= parts);
    assert(parts.take(0) =~= Seq::<Seq<A>>::empty());
    assert(offset(parts, 0) == 0);
    assert(offset(parts, n) == end - begin);
    assert forall|i: int| 0 <= i < marks.len() implies begin + 1 <= #[trigger] marks[i] < end by {
        lemma_offsets_grow(parts, 0, i + 1);
        lemma_offsets_grow(parts, i + 1, n);
    }
    assert forall|i: int, j: int| 0 <= i < j < marks.len() implies marks[i] < marks[j] by {
        lemma_offsets_grow(parts, i + 1, j + 1);
    }
    assert(is_combination(marks, begin + 1, end, (n - 1) as nat));
    let k = lemma_combinations_complete(marks, begin + 1, end, (n - 1) as nat);
    let ranges = split_ranges(begin, end, marks);
    if n == 1 {
        assert(ranges =~= ranges_of(parts, begin));
    } else {
        assert(marks[0] > begin);
        assert(marks.last() < end);
        assert(ranges =~= ranges_of(parts, begin));
    }
    k
}

/// A tree that derives the window of a context from a production, and that
/// the engine can reach from the context, stands among the results of the
/// production; the result of the lemma is a position that holds it.
pub proof fn law_production_finds<T: Token>(
    ctx: CtxView<T>,
    production: ProductionView,
    tree: TreeView<T>,
) -> (i: int)
    requires
        ctx.wf(),
        tree_derives(ctx.grammar, tree, production),
        tree_leaves(tree) == ctx.tokens.subrange(ctx.begin, ctx.end),
        tree_in_reach(tree, ctx.stack.len() as int, ctx.level),
    ensures
        0 <= i < production_results(ctx, production).len(),
        production_results(ctx, production)[i] == TreeOutcome::<T>::Ok(tree),
    decreases tree, 3int,
{
    let a = choose|a: int|
        0 <= a < production.rhs.len() && nodes_derive(
            ctx.grammar,
            tree,
            #[trigger] production.rhs[a],
        );
    let x = lemma_expression_finds(ctx, production.lhs, production.rhs[a], tree);
    let parts = alternative_results(ctx, production);
    let j = lemma_concat_index(parts, a, x);
    if ctx.ignore_errors {
        lemma_without_errors_keeps(concat(parts), j)
    } else {
        j
    }
}

/// A tree whose nodes derive the window of a context from the terms of an
/// expression, term by term, and that the engine can reach, stands among
/// the results of the expression.
pub proof fn lemma_expression_finds<T: Token>(
    ctx: CtxView<T>,
    lhs: Seq<char>,
    terms: Seq<TermView>,
    tree: TreeView<T>,
) -> (i: int)
    requires
        ctx.wf(),
        tree.lhs == lhs,
        nodes_derive(ctx.grammar, tree, terms),
        tree_leaves(tree) == ctx.tokens.subrange(ctx.begin, ctx.end),
        tree_in_reach(tree, ctx.stack.len() as int, ctx.level),
    ensures
        0 <= i < expression_results(ctx, lhs, terms).len(),
        expression_results(ctx, lhs, terms)[i] == TreeOutcome::<T>::Ok(tree),
    decreases tree, 2int,
{
    let n = terms.len() as int;
    let parts = leaves_by_node(tree);
    let window = ctx.tokens.subrange(ctx.begin, ctx.end);
    let depth = ctx.stack.len() as int;
    assert forall|j: int| 0 <= j < parts.len() implies (#[trigger] parts[j]).len() > 0 by {
        assert(node_in_reach(tree.rhs[j], depth, ctx.level));
        lemma_leaves_nonempty(tree.rhs[j], depth, ctx.level);
    }
    let k = lemma_parts_are_a_split(parts, ctx.begin, ctx.end);
    let marks = marks_between(parts, ctx.begin);
    let ranges = ranges_of(parts, ctx.begin);
    let rows = slot_results(ctx, terms, marks);
    assert(rows.len() == n);
    let picked = Seq::new(
        n as nat,
        |j: int|
            choose|r: int|
                0 <= r < rows[j].len() && rows[j][r] == NodeOutcome::<T>::Ok(tree.rhs[j]),
    );
    assert forall|j: int| 0 <= j < n implies 0 <= #[trigger] picked[j] < rows[j].len()
        && rows[j][picked[j]] == NodeOutcome::<T>::Ok(tree.rhs[j]) by {
        lemma_concat_part(parts, j);
        let part = ctx.at(ranges[j]);
        assert(parts[j] == node_leaves(tree.rhs[j]));
        assert(window.subrange(offset(parts, j), offset(parts, j + 1)) =~= ctx.tokens.subrange(
            part.begin,
            part.end,
        ));
        assert(node_in_reach(tree.rhs[j], depth, ctx.level));
        assert(node_derives(ctx.grammar, tree.rhs[j], terms[j]));
        let r = lemma_term_finds(part, terms[j], tree.rhs[j]);
        assert(rows[j] == term_results(part, terms[j]));
        assert(0 <= r < rows[j].len() && rows[j][r] == NodeOutcome::<T>::Ok(tree.rhs[j]));
    }
    assert(is_index_tuple(picked, row_lens(rows))) by {
        assert forall|j: int| 0 <= j < row_lens(rows).len() implies 0 <= #[trigger] picked[j]
            < row_lens(rows)[j] by {
            assert(0 <= picked[j] < rows[j].len());
        }
    }
    let x = lemma_index_tuples_complete(row_lens(rows), picked);
    let slots = expansion(rows)[x];
    assert(slots == pick(rows, picked));
    assert forall|j: int| 0 <= j < slots.len() implies #[trigger] slots[j] is Ok by {
        assert(slots[j] == rows[j][picked[j]]);
    }
    lemma_all_ok(slots);
    assert(slots.map_values(|r: NodeOutcome<T>| r->Ok_0) =~= tree.rhs) by {
        assert forall|j: int| 0 <= j < n implies slots[j]->Ok_0 == tree.rhs[j] by {
            assert(slots[j] == rows[j][picked[j]]);
        }
    }
    assert(folded(lhs, slots) == TreeOutcome::<T>::Ok(tree));
    let by_split = results_by_split(ctx, lhs, terms);
    assert(by_split[k] == split_results(ctx, lhs, terms, marks));
    assert(split_results(ctx, lhs, terms, marks)[x] == folded(lhs, slots));
    lemma_concat_index(by_split, k, x)
}

/// A node that derives the window of a context from a term, and that the
/// engine can reach, stands among the results of the term.
pub proof fn lemma_term_finds<T: Token>(ctx: CtxView<T>, term: TermView, node: NodeView<T>) -> (i:
    int)
    requires
        ctx.wf(),
        node_derives(ctx.grammar, node, term),
        node_leaves(node) == ctx.tokens.subrange(ctx.begin, ctx.end),
        node_in_reach(node, ctx.stack.len() as int, ctx.level),
    ensures
        0 <= i < term_results(ctx, term).len(),
        term_results(ctx, term)[i] == NodeOutcome::<T>::Ok(node),
    decreases node, 4int,
{
    match node {
        NodeView::Terminal(token) => {
            let window = ctx.tokens.subrange(ctx.begin, ctx.end);
            assert(window.len() == 1);
            assert(window[0] == token);
            0
        },
        NodeView::Nonterminal(tree) => {
            let at = first_production(ctx.grammar, term->Nonterminal_0)->Some_0;
            let production = ctx.grammar[at];
            let deeper = ctx.next_level(production);
            let i = law_production_finds(deeper, production, tree);
            i
        },
        NodeView::Elided => 0,
    }
}

/// A tree that derives all the tokens of a context from the start rule, and
/// that the engine can reach, stands among the results of the parse.
pub proof fn law_parse_finds<T: Token>(ctx: CtxView<T>, tree: TreeView<T>) -> (i: int)
    requires
        ctx.wf(),
        ctx.grammar.len() > 0,
        tree_derives(ctx.grammar, tree, ctx.grammar[0]),
        tree_leaves(tree) == ctx.tokens.subrange(ctx.begin, ctx.end),
        tree_in_reach(tree, ctx.stack.len() as int, ctx.level),
    ensures
        0 <= i < parse_results(ctx).len(),
        parse_results(ctx)[i] == TreeOutcome::<T>::Ok(tree),
{
    law_production_finds(ctx, ctx.grammar[0], tree)
}

/// The trees among the results of a production are exactly the derivations
/// of the window from the production that the engine can reach.
pub proof fn law_results_are_the_derivations<T: Token>(
    ctx: CtxView<T>,
    production: ProductionView,
    tree: TreeView<T>,
)
    requires
        ctx.wf(),
    ensures
        (exists|i: int|
            0 <= i < production_results(ctx, production).len() && #[trigger] production_results(
                ctx,
                production,
            )[i] == TreeOutcome::<T>::Ok(tree)) <==> (tree_derives(ctx.grammar, tree, production)
            && tree_leaves(tree) == ctx.tokens.subrange(ctx.begin, ctx.end) && tree_in_reach(
            tree,
            ctx.stack.len() as int,
            ctx.level,
        )),
{
    let results = production_results(ctx, production);
    if exists|i: int|
        0 <= i < results.len() && #[trigger] results[i] == TreeOutcome::<T>::Ok(tree) {
        let i = choose|i: int|
            0 <= i < results.len() && #[trigger] results[i] == TreeOutcome::<T>::Ok(tree);
        law_production_derives_window(ctx, production, i);
    }
    if tree_derives(ctx.grammar, tree, production) && tree_leaves(tree) == ctx.tokens.subrange(
        ctx.begin,
        ctx.end,
    ) && tree_in_reach(tree, ctx.stack.len() as int, ctx.level) {
        let i = law_production_finds(ctx, production, tree);
        assert(results[i] == TreeOutcome::<T>::Ok(tree));
    }
}

} // verus!
