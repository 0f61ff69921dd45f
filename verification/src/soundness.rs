//! What holds of every tree that the engine yields: it is a derivation of
//! the window from the production, within the bounds of the recursion, and
//! its structured form tells it apart from every other tree over that
//! window.

use crate::combination::expansion;
use crate::combination::index_expansion;
use crate::combination::lemma_index_tuple_bounds;
use crate::combination::pick;
use crate::combination::row_lens;
use crate::ctx::law_split_tiles;
use crate::ctx::split_points;
use crate::ctx::split_ranges;
use crate::ctx::tiles;
use crate::ctx::CtxView;
use crate::ctx::Token;
use crate::ctx::STACK_CAPACITY;
use crate::grammar::ProductionView;
use crate::grammar::TermView;
use crate::parse::alternative_results;
use crate::parse::expression_results;
use crate::parse::lemma_no_error;
use crate::parse::lemma_without_errors_member;
use crate::parse::first_production;
use crate::parse::folded;
use crate::parse::parse_results;
use crate::parse::production_results;
use crate::parse::results_by_split;
use crate::parse::slot_results;
use crate::parse::split_results;
use crate::parse::term_results;
use crate::parse::MAX_LEVEL;
use crate::sequences::concat;
use crate::sequences::lemma_concat_member;
use crate::sequences::lemma_concat_take;
use crate::tree::leaves_by_node;
use crate::tree::node_leaves;
use crate::tree::node_structure;
use crate::tree::node_structures;
use crate::tree::tree_leaves;
use crate::tree::tree_structure;
use crate::tree::StructureView;
use crate::tree::NodeView;
use crate::tree::TreeView;
use vstd::prelude::*;

verus! {

/// The tokens that `tokens` holds in each of the ranges.
pub open spec fn windows<T>(tokens: Seq<T>, ranges: Seq<(int, int)>) -> Seq<Seq<T>> {
    Seq::new(ranges.len(), |i: int| tokens.subrange(ranges[i].0, ranges[i].1))
}

/// The tokens of ranges that tile `[begin, end)`, one range after another,
/// are the tokens of `[begin, end)`.
pub proof fn lemma_tiles_concat<T>(tokens: Seq<T>, ranges: Seq<(int, int)>, begin: int, end: int)
    requires
        tiles(ranges, begin, end),
        0 <= begin,
        end <= tokens.len(),
    ensures
        begin <= end,
        concat(windows(tokens, ranges)) == tokens.subrange(begin, end),
    decreases ranges.len(),
{
    let last = ranges.last();
    let parts = windows(tokens, ranges);
    assert(parts.last() == tokens.subrange(last.0, last.1));
    assert(last.0 <= last.1);
    if ranges.len() == 1 {
        assert(parts.drop_last() =~= Seq::<Seq<T>>::empty());
        assert(concat(parts.drop_last()) =~= Seq::<T>::empty());
        assert(ranges.first() == last);
        assert(concat(parts) =~= tokens.subrange(begin, end));
    } else {
        let shorter = ranges.drop_last();
        assert(shorter.last() == ranges[ranges.len() - 2]);
        assert(tiles(shorter, begin, last.0)) by {
            assert forall|i: int| 0 <= i < shorter.len() - 1 implies (#[trigger] shorter[i]).1
                == shorter[i + 1].0 by {
                assert(shorter[i] == ranges[i]);
            }
            assert forall|i: int| 0 <= i < shorter.len() implies (#[trigger] shorter[i]).0
                <= shorter[i].1 by {
                assert(shorter[i] == ranges[i]);
            }
        }
        lemma_tiles_concat(tokens, shorter, begin, last.0);
        assert(parts.drop_last() =~= windows(tokens, shorter));
        assert(concat(parts) =~= tokens.subrange(begin, end));
    }
}

/// The engine can reach `node` from a context at the level `level` whose
/// stack holds `depth` productions: it meets no level beyond `MAX_LEVEL`
/// and no full stack on the way to any token of the node, and every tree in
/// the node has a node of its own.
pub open spec fn node_in_reach<T>(node: NodeView<T>, depth: int, level: int) -> bool
    decreases node, 1int,
{
    match node {
        NodeView::Terminal(_) => level <= MAX_LEVEL,
        NodeView::Nonterminal(tree) => {
            &&& level <= MAX_LEVEL
            &&& depth < STACK_CAPACITY
            &&& tree_in_reach(tree, depth + 1, level + 1)
        },
        NodeView::Elided => false,
    }
}

/// The engine can reach every node of `tree`, of which there is at least
/// one, from a context at the level `level` whose stack holds `depth`
/// productions.
pub open spec fn tree_in_reach<T>(tree: TreeView<T>, depth: int, level: int) -> bool
    decreases tree, 0int,
{
    &&& tree.rhs.len() > 0
    &&& forall|j: int|
        0 <= j < tree.rhs.len() ==> node_in_reach(#[trigger] tree.rhs[j], depth, level)
}

/// `node` is what `term` may derive under `grammar`: a token with the name
/// of a terminal, or a tree that the first production for a nonterminal
/// derives.
pub open spec fn node_derives<T: Token>(
    grammar: Seq<ProductionView>,
    node: NodeView<T>,
    term: TermView,
) -> bool
    decreases node, 2int,
{
    match node {
        NodeView::Terminal(token) => term == TermView::Terminal(token.name_view()),
        NodeView::Nonterminal(tree) => {
            &&& term is Nonterminal
            &&& first_production(grammar, term->Nonterminal_0) is Some
            &&& tree_derives(
                grammar,
                tree,
                grammar[first_production(grammar, term->Nonterminal_0)->Some_0],
            )
        },
        NodeView::Elided => false,
    }
}

/// `tree` is what `production` may derive under `grammar`: it bears the
/// name of the production, and its nodes are what the terms of one of the
/// alternatives derive, term by term.
pub open spec fn tree_derives<T: Token>(
    grammar: Seq<ProductionView>,
    tree: TreeView<T>,
    production: ProductionView,
) -> bool
    decreases tree, 1int,
{
    &&& tree.lhs == production.lhs
    &&& exists|a: int|
        0 <= a < production.rhs.len() && nodes_derive(grammar, tree, #[trigger] production.rhs[a])
}

/// The nodes of `tree` are what the terms derive, term by term.
pub open spec fn nodes_derive<T: Token>(
    grammar: Seq<ProductionView>,
    tree: TreeView<T>,
    terms: Seq<TermView>,
) -> bool
    decreases tree, 0int,
{
    &&& tree.rhs.len() == terms.len()
    &&& forall|j: int|
        0 <= j < tree.rhs.len() ==> node_derives(grammar, #[trigger] tree.rhs[j], terms[j])
}

/// A tree that a production yields is a derivation of the window of the
/// context from the production: it is named after the production, its
/// nodes follow one alternative under the grammar of the context, and its
/// tokens are the window.
pub proof fn law_production_derives_window<T: Token>(
    ctx: CtxView<T>,
    production: ProductionView,
    i: int,
)
    requires
        ctx.wf(),
        0 <= i < production_results(ctx, production).len(),
        production_results(ctx, production)[i] is Ok,
    ensures
        production_results(ctx, production)[i]->Ok_0.lhs == production.lhs,
        tree_derives(ctx.grammar, production_results(ctx, production)[i]->Ok_0, production),
        tree_leaves(production_results(ctx, production)[i]->Ok_0) == ctx.tokens.subrange(
            ctx.begin,
            ctx.end,
        ),
        tree_in_reach(
            production_results(ctx, production)[i]->Ok_0,
            ctx.stack.len() as int,
            ctx.level,
        ),
    decreases STACK_CAPACITY - ctx.stack.len(), 4int,
{
    let parts = alternative_results(ctx, production);
    let all = concat(parts);
    let j = if ctx.ignore_errors {
        lemma_without_errors_member(all, i)
    } else {
        i
    };
    let at = lemma_concat_member(parts, j);
    law_expression_derives_window(ctx, production.lhs, production.rhs[at.0], at.1);
    let tree = production_results(ctx, production)[i]->Ok_0;
    assert(tree == expression_results(ctx, production.lhs, production.rhs[at.0])[at.1]->Ok_0);
    assert(0 <= at.0 < production.rhs.len());
    assert(nodes_derive(ctx.grammar, tree, production.rhs[at.0]));
    assert(tree_derives(ctx.grammar, tree, production));
}

/// A tree that an expression yields bears the name that was given for it
/// and has one node per term, each a derivation from its term; its tokens
/// are the window of the context.
pub proof fn law_expression_derives_window<T: Token>(
    ctx: CtxView<T>,
    lhs: Seq<char>,
    terms: Seq<TermView>,
    i: int,
)
    requires
        ctx.wf(),
        0 <= i < expression_results(ctx, lhs, terms).len(),
        expression_results(ctx, lhs, terms)[i] is Ok,
    ensures
        expression_results(ctx, lhs, terms)[i]->Ok_0.lhs == lhs,
        expression_results(ctx, lhs, terms)[i]->Ok_0.rhs.len() == terms.len(),
        nodes_derive(ctx.grammar, expression_results(ctx, lhs, terms)[i]->Ok_0, terms),
        tree_leaves(expression_results(ctx, lhs, terms)[i]->Ok_0) == ctx.tokens.subrange(
            ctx.begin,
            ctx.end,
        ),
        tree_in_reach(
            expression_results(ctx, lhs, terms)[i]->Ok_0,
            ctx.stack.len() as int,
            ctx.level,
        ),
    decreases STACK_CAPACITY - ctx.stack.len(), 2int,
{
    let parts = results_by_split(ctx, lhs, terms);
    let at = lemma_concat_member(parts, i);
    lemma_split_derives_window(ctx, lhs, terms, at.0, at.1);
}

/// A tree that one way to part the window yields has one node per term,
/// each a derivation from its term, and its tokens are the window of the
/// context.
pub proof fn lemma_split_derives_window<T: Token>(
    ctx: CtxView<T>,
    lhs: Seq<char>,
    terms: Seq<TermView>,
    k: int,
    x: int,
)
    requires
        ctx.wf(),
        0 <= k < split_points(ctx.begin, ctx.end, terms.len()).len(),
        0 <= x < split_results(
            ctx,
            lhs,
            terms,
            split_points(ctx.begin, ctx.end, terms.len())[k],
        ).len(),
        split_results(ctx, lhs, terms, split_points(ctx.begin, ctx.end, terms.len())[k])[x] is Ok,
    ensures
        ({
            let tree = split_results(
                ctx,
                lhs,
                terms,
                split_points(ctx.begin, ctx.end, terms.len())[k],
            )[x]->Ok_0;
            &&& tree.lhs == lhs
            &&& tree.rhs.len() == terms.len()
            &&& nodes_derive(ctx.grammar, tree, terms)
            &&& tree_leaves(tree) == ctx.tokens.subrange(ctx.begin, ctx.end)
            &&& tree_in_reach(tree, ctx.stack.len() as int, ctx.level)
        }),
    decreases STACK_CAPACITY - ctx.stack.len(), 1int,
{
    let marks = split_points(ctx.begin, ctx.end, terms.len())[k];
    let ranges = split_ranges(ctx.begin, ctx.end, marks);
    let rows = slot_results(ctx, terms, marks);
    let picked = index_expansion(row_lens(rows))[x];
    let slots = expansion(rows)[x];
    let tree = folded(lhs, slots)->Ok_0;
    law_split_tiles(ctx.begin, ctx.end, terms.len(), k);
    assert(rows.len() == terms.len());
    assert(rows.len() > 0);
    lemma_index_tuple_bounds(row_lens(rows), x);
    assert(slots == pick(rows, picked));
    assert(tree.rhs.len() == terms.len());
    assert forall|j: int| 0 <= j < terms.len() implies #[trigger] leaves_by_node(tree)[j]
        == ctx.tokens.subrange(ranges[j].0, ranges[j].1) && node_derives(
        ctx.grammar,
        tree.rhs[j],
        terms[j],
    ) && node_in_reach(tree.rhs[j], ctx.stack.len() as int, ctx.level) by {
        lemma_no_error(slots, j);
        assert(0 <= picked[j] < row_lens(rows)[j]);
        assert(slots[j] == rows[j][picked[j]]);
        assert(rows[j] == term_results(ctx.at(ranges[j]), terms[j]));
        assert(ctx.begin <= ranges[j].0 && ranges[j].1 <= ctx.end);
        law_term_derives_window(ctx.at(ranges[j]), terms[j], picked[j]);
        assert(tree.rhs[j] == slots[j]->Ok_0);
    }
    assert(leaves_by_node(tree) =~= windows(ctx.tokens, ranges));
    assert forall|j: int| 0 <= j < tree.rhs.len() implies node_derives(
        ctx.grammar,
        #[trigger] tree.rhs[j],
        terms[j],
    ) && node_in_reach(tree.rhs[j], ctx.stack.len() as int, ctx.level) by {
        assert(leaves_by_node(tree)[j] == ctx.tokens.subrange(ranges[j].0, ranges[j].1));
    }
    assert(nodes_derive(ctx.grammar, tree, terms));
    assert(tree_in_reach(tree, ctx.stack.len() as int, ctx.level));
    lemma_tiles_concat(ctx.tokens, ranges, ctx.begin, ctx.end);
}

/// A node that a term yields is a derivation of the window of the context
/// from the term.
pub proof fn law_term_derives_window<T: Token>(ctx: CtxView<T>, term: TermView, i: int)
    requires
        ctx.wf(),
        0 <= i < term_results(ctx, term).len(),
        term_results(ctx, term)[i] is Ok,
    ensures
        node_derives(ctx.grammar, term_results(ctx, term)[i]->Ok_0, term),
        node_leaves(term_results(ctx, term)[i]->Ok_0) == ctx.tokens.subrange(ctx.begin, ctx.end),
        node_in_reach(term_results(ctx, term)[i]->Ok_0, ctx.stack.len() as int, ctx.level),
    decreases STACK_CAPACITY - ctx.stack.len(), 0int,
{
    if ctx.level <= MAX_LEVEL {
        match term {
            TermView::Terminal(name) => {
                assert(ctx.len() == 1);
                assert(seq![ctx.tokens[ctx.begin]] =~= ctx.tokens.subrange(ctx.begin, ctx.end));
            },
            TermView::Nonterminal(name) => {
                let at = first_production(ctx.grammar, name)->Some_0;
                let production = ctx.grammar[at];
                let deeper = ctx.next_level(production);
                assert(ctx.stack.len() < STACK_CAPACITY);
                law_production_derives_window(deeper, production, i);
            },
        }
    }
}

/// Two nodes with one structured form whose tokens end two equal
/// sequences are one node, and what stands before their tokens is equal.
pub proof fn lemma_same_node<T: Token>(
    a: NodeView<T>,
    b: NodeView<T>,
    before_a: Seq<T>,
    before_b: Seq<T>,
)
    requires
        node_structure(a) == node_structure(b),
        before_a + node_leaves(a) == before_b + node_leaves(b),
    ensures
        a == b,
        before_a == before_b,
    decreases a, 0int,
{
    match a {
        NodeView::Terminal(token) => {
            let other = b->Terminal_0;
            let left = before_a + node_leaves(a);
            let right = before_b + node_leaves(b);
            assert(left.last() == token);
            assert(right.last() == other);
            assert(left.drop_last() =~= before_a);
            assert(right.drop_last() =~= before_b);
        },
        NodeView::Nonterminal(tree) => {
            lemma_same_tree(tree, b->Nonterminal_0, before_a, before_b);
        },
        NodeView::Elided => {
            assert(before_a + node_leaves(a) =~= before_a);
            assert(before_b + node_leaves(b) =~= before_b);
        },
    }
}

/// Two trees with one structured form whose tokens end two equal sequences
/// are one tree, and what stands before their tokens is equal.
pub proof fn lemma_same_tree<T: Token>(
    a: TreeView<T>,
    b: TreeView<T>,
    before_a: Seq<T>,
    before_b: Seq<T>,
)
    requires
        tree_structure(a) == tree_structure(b),
        before_a + tree_leaves(a) == before_b + tree_leaves(b),
    ensures
        a == b,
        before_a == before_b,
    decreases a, 2int,
{
    let items_a = seq![StructureView::Name(a.lhs)] + node_structures(a);
    let items_b = seq![StructureView::Name(b.lhs)] + node_structures(b);
    assert(items_a == items_b);
    assert(items_a.len() == items_b.len());
    assert(a.rhs.len() == b.rhs.len());
    assert(items_a[0] == items_b[0]);
    assert forall|i: int| 0 <= i < a.rhs.len() implies node_structure(#[trigger] a.rhs[i])
        == node_structure(b.rhs[i]) by {
        assert(items_a[i + 1] == node_structures(a)[i]);
        assert(items_b[i + 1] == node_structures(b)[i]);
    }
    let n = a.rhs.len() as int;
    assert(leaves_by_node(a).take(n) =~= leaves_by_node(a));
    assert(leaves_by_node(b).take(n) =~= leaves_by_node(b));
    lemma_same_nodes(a, b, n, before_a, before_b);
    assert(a.rhs =~= b.rhs);
}

/// The first `n` nodes of two trees, where the nodes have the same
/// structured forms and their tokens end two equal sequences, are the same
/// nodes, and what stands before their tokens is equal.
pub proof fn lemma_same_nodes<T: Token>(
    a: TreeView<T>,
    b: TreeView<T>,
    n: int,
    before_a: Seq<T>,
    before_b: Seq<T>,
)
    requires
        0 <= n <= a.rhs.len(),
        a.rhs.len() == b.rhs.len(),
        forall|i: int|
            0 <= i < a.rhs.len() ==> node_structure(#[trigger] a.rhs[i]) == node_structure(
                b.rhs[i],
            ),
        before_a + concat(leaves_by_node(a).take(n)) == before_b + concat(
            leaves_by_node(b).take(n),
        ),
    ensures
        forall|i: int| 0 <= i < n ==> #[trigger] a.rhs[i] == b.rhs[i],
        before_a == before_b,
    decreases a, 1int, n,
{
    if n == 0 {
        assert(before_a + concat(leaves_by_node(a).take(0)) =~= before_a);
        assert(before_b + concat(leaves_by_node(b).take(0)) =~= before_b);
    } else {
        let front_a = before_a + concat(leaves_by_node(a).take(n - 1));
        let front_b = before_b + concat(leaves_by_node(b).take(n - 1));
        lemma_concat_take(leaves_by_node(a), n - 1);
        lemma_concat_take(leaves_by_node(b), n - 1);
        assert(front_a + node_leaves(a.rhs[n - 1]) =~= before_a + concat(
            leaves_by_node(a).take(n),
        ));
        assert(front_b + node_leaves(b.rhs[n - 1]) =~= before_b + concat(
            leaves_by_node(b).take(n),
        ));
        lemma_same_node(a.rhs[n - 1], b.rhs[n - 1], front_a, front_b);
        lemma_same_nodes(a, b, n - 1, before_a, before_b);
    }
}

/// Given its tokens, a tree can be told from its structured form: two
/// trees with one structured form and the same tokens are one tree.
pub proof fn law_structure_is_lossless<T: Token>(a: TreeView<T>, b: TreeView<T>)
    requires
        tree_structure(a) == tree_structure(b),
        tree_leaves(a) == tree_leaves(b),
    ensures
        a == b,
{
    assert(Seq::<T>::empty() + tree_leaves(a) =~= Seq::<T>::empty() + tree_leaves(b));
    lemma_same_tree(a, b, Seq::empty(), Seq::empty());
}

/// Among the trees that a production yields over one window, the
/// structured form tells every tree apart: two of them with one structured
/// form are one tree.
pub proof fn law_structure_tells_trees_apart<T: Token>(
    ctx: CtxView<T>,
    production: ProductionView,
    i: int,
    j: int,
)
    requires
        ctx.wf(),
        0 <= i < production_results(ctx, production).len(),
        0 <= j < production_results(ctx, production).len(),
        production_results(ctx, production)[i] is Ok,
        production_results(ctx, production)[j] is Ok,
        tree_structure(production_results(ctx, production)[i]->Ok_0) == tree_structure(
            production_results(ctx, production)[j]->Ok_0,
        ),
    ensures
        production_results(ctx, production)[i] == production_results(ctx, production)[j],
{
    law_production_derives_window(ctx, production, i);
    law_production_derives_window(ctx, production, j);
    law_structure_is_lossless(
        production_results(ctx, production)[i]->Ok_0,
        production_results(ctx, production)[j]->Ok_0,
    );
}

/// A tree that a parse yields is a derivation of the window of the context
/// from the start rule, the first production of the grammar.
pub proof fn law_parse_derives_window<T: Token>(ctx: CtxView<T>, i: int)
    requires
        ctx.wf(),
        0 <= i < parse_results(ctx).len(),
        parse_results(ctx)[i] is Ok,
    ensures
        ctx.grammar.len() > 0,
        tree_derives(ctx.grammar, parse_results(ctx)[i]->Ok_0, ctx.grammar[0]),
        tree_leaves(parse_results(ctx)[i]->Ok_0) == ctx.tokens.subrange(ctx.begin, ctx.end),
{
    law_production_derives_window(ctx, ctx.grammar[0], i);
}

} // verus!
