//! The derivation engine: every way to derive a token range from a
//! production, an expression or a term, in a fixed order.

use crate::combination::combination_views;
use crate::combination::Combination;
use crate::combination::expand_indices;
use crate::combination::expansion;
use crate::combination::index_expansion;
use crate::combination::index_view;
use crate::combination::index_views;
use crate::combination::lemma_index_tuple_bounds;
use crate::combination::len_views;
use crate::combination::pick;
use crate::combination::row_lens;
use crate::ctx::ctx_text;
use crate::ctx::ctx_views;
use crate::ctx::law_split_tiles;
use crate::ctx::split_points;
use crate::ctx::split_ranges;
use crate::ctx::Ctx;
use crate::ctx::CtxView;
use crate::ctx::Token;
use crate::ctx::STACK_CAPACITY;
use crate::grammar::opt_term_text;
use crate::grammar::term_text;
use crate::grammar::Expression;
use crate::grammar::Grammar;
use crate::grammar::OptTerm;
use crate::grammar::OptTermView;
use crate::grammar::Production;
use crate::grammar::ProductionView;
use crate::grammar::Term;
use crate::grammar::TermView;
use crate::sequences::concat;
use crate::sequences::lemma_concat_take;
use crate::tree::lemma_tree_view;
use crate::tree::node_views;
use crate::tree::NodeView;
use crate::tree::ParseTree;
use crate::tree::ParseTreeNode;
use crate::tree::TreeView;
use vstd::prelude::*;
use vstd::string::StringExecFns;

verus! {

/// Why a branch of the search gave no tree, in words.
pub type Error = String;

/// What one branch gives for a production or an expression.
pub type TreeOutcome<T> = Result<TreeView<T>, Seq<char>>;

/// What one branch gives for a term.
pub type NodeOutcome<T> = Result<NodeView<T>, Seq<char>>;

/// The deepest level at which a term is still expanded.
pub const MAX_LEVEL: usize = 200;

/// The value of a result for a production or an expression.
pub open spec fn tree_outcome<T: Token>(r: Result<ParseTree<T>, Error>) -> TreeOutcome<T> {
    match r {
        Ok(tree) => Ok(tree@),
        Err(e) => Err(e@),
    }
}

/// The values of the results, in the same order.
pub open spec fn tree_outcomes<T: Token>(s: Seq<Result<ParseTree<T>, Error>>) -> Seq<
    TreeOutcome<T>,
> {
    s.map_values(|r: Result<ParseTree<T>, Error>| tree_outcome(r))
}

/// The value of a result for a term.
pub open spec fn node_outcome<T: Token>(r: Result<ParseTreeNode<T>, Error>) -> NodeOutcome<T> {
    match r {
        Ok(node) => Ok(node@),
        Err(e) => Err(e@),
    }
}

/// The values of the results, in the same order.
pub open spec fn node_outcomes<T: Token>(s: Seq<Result<ParseTreeNode<T>, Error>>) -> Seq<
    NodeOutcome<T>,
> {
    s.map_values(|r: Result<ParseTreeNode<T>, Error>| node_outcome(r))
}

/// The values of rows of results.
pub open spec fn node_outcome_rows<T: Token>(
    rows: Seq<Vec<Result<ParseTreeNode<T>, Error>>>,
) -> Seq<Seq<NodeOutcome<T>>> {
    rows.map_values(|row: Vec<Result<ParseTreeNode<T>, Error>>| node_outcomes(row@))
}

/// The message for a term that lies deeper than `MAX_LEVEL`.
pub open spec fn max_level_message() -> Seq<char> {
    "max level reached"@
}

/// The message for a nonterminal that would take the production stack
/// beyond its capacity.
pub open spec fn capacity_message() -> Seq<char> {
    "max capacity exceeded"@
}

/// The message for a grammar without productions.
pub open spec fn empty_grammar_message() -> Seq<char> {
    "grammar is empty"@
}

/// The message for an optional term, which the engine does not expand.
pub open spec fn optional_message(term: OptTermView) -> Seq<char> {
    "optional terms are unimplemented. term '"@ + opt_term_text(term)
        + "' is optional. call Grammar::flatten() to remove them"@
}

/// The message for a token whose name is not the terminal.
pub open spec fn mismatch_message(token_text: Seq<char>, terminal: Seq<char>) -> Seq<char> {
    "front token '"@ + token_text + "' is not given terminal '"@ + terminal + "'"@
}

/// The message for a terminal that is held against a context of another
/// length than 1.
pub open spec fn length_message<T: Token>(term: TermView, ctx: CtxView<T>) -> Seq<char> {
    "Ctx len is not 1 on "@ + term_text(term) + " != "@ + ctx_text(ctx, true)
}

/// The message for a nonterminal without a production.
pub open spec fn not_found_message(name: Seq<char>) -> Seq<char> {
    "production '"@ + name + "' not found"@
}

/// `i` is the first production of `grammar` whose left-hand side is `name`.
pub open spec fn is_first_production(
    grammar: Seq<ProductionView>,
    name: Seq<char>,
    i: int,
) -> bool {
    &&& 0 <= i < grammar.len()
    &&& grammar[i].lhs == name
    &&& forall|j: int| 0 <= j < i ==> (#[trigger] grammar[j]).lhs != name
}

/// The position of the first production for `name`, if there is one.
pub open spec fn first_production(grammar: Seq<ProductionView>, name: Seq<char>) -> Option<int> {
    if exists|i: int| is_first_production(grammar, name, i) {
        Some(choose|i: int| is_first_production(grammar, name, i))
    } else {
        None
    }
}

/// The results without the errors, in the same order.
pub open spec fn without_errors<A, E>(results: Seq<Result<A, E>>) -> Seq<Result<A, E>>
    decreases results.len(),
{
    if results.len() == 0 {
        Seq::empty()
    } else {
        let front = without_errors(results.drop_last());
        if results.last() is Ok {
            front.push(results.last())
        } else {
            front
        }
    }
}

/// The first error among the results of the slots, if any.
pub open spec fn first_error<A, E>(slots: Seq<Result<A, E>>) -> Option<E>
    decreases slots.len(),
{
    if slots.len() == 0 {
        None
    } else {
        match first_error(slots.drop_last()) {
            Some(e) => Some(e),
            None => match slots.last() {
                Ok(_) => None,
                Err(e) => Some(e),
            },
        }
    }
}

/// One result per slot, folded into one result for the expression: the
/// first error among them, or the tree that holds every node in order.
pub open spec fn folded<T>(lhs: Seq<char>, slots: Seq<NodeOutcome<T>>) -> TreeOutcome<T> {
    match first_error(slots) {
        Some(e) => Err(e),
        None => Ok(TreeView { lhs, rhs: slots.map_values(|r: NodeOutcome<T>| r->Ok_0) }),
    }
}

/// A tree result as the result for the nonterminal that it derives.
pub open spec fn as_node<T>(r: TreeOutcome<T>) -> NodeOutcome<T> {
    match r {
        Ok(tree) => Ok(NodeView::Nonterminal(tree)),
        Err(e) => Err(e),
    }
}

/// Every result for deriving the window of `ctx` from `production`: the
/// results of its alternatives in the order of their declaration, without
/// the errors where the context drops them.
pub open spec fn production_results<T: Token>(ctx: CtxView<T>, production: ProductionView) -> Seq<
    TreeOutcome<T>,
>
    decreases STACK_CAPACITY - ctx.stack.len(), 4int,
{
    let all = concat(alternative_results(ctx, production));
    if ctx.ignore_errors {
        without_errors(all)
    } else {
        all
    }
}

/// The results of each alternative of `production`.
pub open spec fn alternative_results<T: Token>(ctx: CtxView<T>, production: ProductionView) -> Seq<
    Seq<TreeOutcome<T>>,
>
    decreases STACK_CAPACITY - ctx.stack.len(), 3int,
{
    Seq::new(
        production.rhs.len(),
        |i: int| expression_results(ctx, production.lhs, production.rhs[i]),
    )
}

/// Every result for deriving the window of `ctx` from the expression
/// `terms` of the production `lhs`: the results of each way to part the
/// window into as many non-empty ranges as there are terms, in the order of
/// the cut points.
pub open spec fn expression_results<T: Token>(
    ctx: CtxView<T>,
    lhs: Seq<char>,
    terms: Seq<TermView>,
) -> Seq<TreeOutcome<T>>
    decreases STACK_CAPACITY - ctx.stack.len(), 2int,
{
    concat(results_by_split(ctx, lhs, terms))
}

/// The results of each way to part the window of `ctx` for `terms`.
pub open spec fn results_by_split<T: Token>(
    ctx: CtxView<T>,
    lhs: Seq<char>,
    terms: Seq<TermView>,
) -> Seq<Seq<TreeOutcome<T>>>
    decreases STACK_CAPACITY - ctx.stack.len(), 1int, 1int,
{
    let points = split_points(ctx.begin, ctx.end, terms.len());
    Seq::new(points.len(), |k: int| split_results(ctx, lhs, terms, points[k]))
}

/// The results for one way to part the window: every combination of one
/// result per slot, folded, the first slot varying slowest.
pub open spec fn split_results<T: Token>(
    ctx: CtxView<T>,
    lhs: Seq<char>,
    terms: Seq<TermView>,
    marks: Seq<int>,
) -> Seq<TreeOutcome<T>>
    decreases STACK_CAPACITY - ctx.stack.len(), 1int, 0int,
{
    expansion(slot_results(ctx, terms, marks)).map_values(
        |slots: Seq<NodeOutcome<T>>| folded(lhs, slots),
    )
}

/// The results of each slot: those of the `j`-th term over the `j`-th range
/// that the cut points `marks` part the window into.
pub open spec fn slot_results<T: Token>(
    ctx: CtxView<T>,
    terms: Seq<TermView>,
    marks: Seq<int>,
) -> Seq<Seq<NodeOutcome<T>>>
    decreases STACK_CAPACITY - ctx.stack.len(), 0int, 1int,
{
    let ranges = split_ranges(ctx.begin, ctx.end, marks);
    let count = if ranges.len() <= terms.len() {
        ranges.len()
    } else {
        terms.len()
    };
    Seq::new(count, |j: int| term_results(ctx.at(ranges[j]), terms[j]))
}

/// Every result for deriving the window of `ctx` from `term`. Beyond
/// `MAX_LEVEL` it is one error. A terminal gives its token where the window
/// is that one token and the names agree, and one error otherwise. A
/// nonterminal gives the results of its first production, one level deeper,
/// or one error where it has none or the production stack is full.
pub open spec fn term_results<T: Token>(ctx: CtxView<T>, term: TermView) -> Seq<NodeOutcome<T>>
    decreases STACK_CAPACITY - ctx.stack.len(), 0int, 0int,
{
    if ctx.level > MAX_LEVEL {
        seq![Err(max_level_message())]
    } else {
        match term {
            TermView::Terminal(name) => {
                if ctx.len() == 1 {
                    let token = ctx.tokens[ctx.begin];
                    if token.name_view() == name {
                        seq![Ok(NodeView::Terminal(token))]
                    } else {
                        seq![Err(mismatch_message(token.text_view(), name))]
                    }
                } else {
                    seq![Err(length_message(term, ctx))]
                }
            },
            TermView::Nonterminal(name) => {
                match first_production(ctx.grammar, name) {
                    Some(i) => {
                        if ctx.stack.len() >= STACK_CAPACITY {
                            seq![Err(capacity_message())]
                        } else {
                            production_results(
                                ctx.next_level(ctx.grammar[i]),
                                ctx.grammar[i],
                            ).map_values(|r: TreeOutcome<T>| as_node(r))
                        }
                    },
                    None => seq![Err(not_found_message(name))],
                }
            },
        }
    }
}

/// Every result for deriving the window of `ctx` from a term of the
/// authoring form: one error for an optional term, the results of the term
/// for any other.
pub open spec fn opt_term_results<T: Token>(ctx: CtxView<T>, term: OptTermView) -> Seq<
    NodeOutcome<T>,
> {
    if ctx.level > MAX_LEVEL {
        seq![Err(max_level_message())]
    } else if term.is_optional {
        seq![Err(optional_message(term))]
    } else {
        term_results(ctx, term.term)
    }
}

/// Every result of a parse: one error for a grammar without productions,
/// the results of the first production otherwise.
pub open spec fn parse_results<T: Token>(ctx: CtxView<T>) -> Seq<TreeOutcome<T>> {
    if ctx.grammar.len() == 0 {
        seq![Err(empty_grammar_message())]
    } else {
        production_results(ctx, ctx.grammar[0])
    }
}

/// The one result that is the error `message`.
fn failure<'tg, T: Token>(message: Error) -> (r: Vec<Result<ParseTreeNode<'tg, 'tg, T>, Error>>)
    ensures
        node_outcomes(r@) == seq![NodeOutcome::<T>::Err(message@)],
{
    let mut r: Vec<Result<ParseTreeNode<'tg, 'tg, T>, Error>> = Vec::new();
    r.push(Err(message));
    assert(node_outcomes(r@) =~= seq![NodeOutcome::<T>::Err(message@)]);
    r
}

/// The message for an optional term.
fn optional_error(term: &OptTerm) -> (message: Error)
    ensures
        message@ == optional_message(term@),
{
    let mut message = String::from_str("optional terms are unimplemented. term '");
    message.append(term.to_text().as_str());
    message.append("' is optional. call Grammar::flatten() to remove them");
    message
}

/// The message for a token whose name is not the terminal.
fn mismatch_error<T: Token>(token: &T, terminal: &String) -> (message: Error)
    ensures
        message@ == mismatch_message(token.text_view(), terminal@),
{
    let mut message = String::from_str("front token '");
    message.append(token.to_text().as_str());
    message.append("' is not given terminal '");
    message.append(terminal.as_str());
    message.append("'");
    message
}

/// The message for a terminal over a context of another length than 1.
fn length_error<T: Token>(term: &Term, ctx: &Ctx<T>) -> (message: Error)
    requires
        ctx@.wf(),
    ensures
        message@ == length_message(term@, ctx@),
{
    let mut message = String::from_str("Ctx len is not 1 on ");
    message.append(term.to_text().as_str());
    message.append(" != ");
    message.append(ctx.to_text(true).as_str());
    message
}

/// The message for a nonterminal without a production.
fn not_found_error(name: &String) -> (message: Error)
    ensures
        message@ == not_found_message(name@),
{
    let mut message = String::from_str("production '");
    message.append(name.as_str());
    message.append("' not found");
    message
}

/// The first production of `grammar` whose left-hand side is `name`.
fn find_production<'g>(grammar: &'g Grammar, name: &String) -> (r: Option<&'g Production>)
    ensures
        match first_production(grammar@, name@) {
            Some(i) => r == Some(&grammar.productions@[i]),
            None => r is None,
        },
{
    let mut i: usize = 0;
    while i < grammar.productions.len()
        invariant
            i <= grammar.productions.len(),
            forall|j: int| 0 <= j < i ==> (#[trigger] grammar@[j]).lhs != name@,
        decreases grammar.productions.len() - i,
    {
        let production = &grammar.productions[i];
        if production.lhs == *name {
            assert(is_first_production(grammar@, name@, i as int));
            return Some(production);
        }
        i += 1;
    }
    None
}

/// The tree, or the first error, that the results picked by `tuple` fold
/// into.
fn fold_slots<'tg, T: Token>(
    lhs: &'tg String,
    rows: &Vec<Vec<Result<ParseTreeNode<'tg, 'tg, T>, Error>>>,
    tuple: &Vec<usize>,
) -> (r: Result<ParseTree<'tg, 'tg, T>, Error>)
    requires
        tuple@.len() == rows@.len(),
        forall|j: int| 0 <= j < rows@.len() ==> tuple@[j] < (#[trigger] rows@[j])@.len(),
    ensures
        tree_outcome(r) == folded(lhs@, pick(node_outcome_rows(rows@), index_view(*tuple))),
{
    let ghost slots = pick(node_outcome_rows(rows@), index_view(*tuple));
    let mut rhs: Vec<ParseTreeNode<'tg, 'tg, T>> = Vec::new();
    let mut j: usize = 0;
    while j < rows.len()
        invariant
            j <= rows.len(),
            tuple@.len() == rows@.len(),
            forall|x: int| 0 <= x < rows@.len() ==> tuple@[x] < (#[trigger] rows@[x])@.len(),
            slots == pick(node_outcome_rows(rows@), index_view(*tuple)),
            first_error(slots.take(j as int)) is None,
            node_views(rhs@) == slots.take(j as int).map_values(|r: NodeOutcome<T>| r->Ok_0),
        decreases rows.len() - j,
    {
        proof {
            assert(slots.take(j + 1).drop_last() =~= slots.take(j as int));
            assert(slots[j as int] == node_outcome(rows@[j as int]@[tuple@[j as int] as int]));
        }
        match &rows[j][tuple[j]] {
            Ok(node) => {
                let ghost before = rhs@;
                rhs.push(node.clone());
                assert(node_views(rhs@) =~= node_views(before).push(node@));
                assert(node_views(rhs@) =~= slots.take(j + 1).map_values(
                    |r: NodeOutcome<T>| r->Ok_0,
                ));
            },
            Err(e) => {
                proof {
                    lemma_first_error_stays(slots, j + 1);
                }
                return Err(e.clone());
            },
        }
        j += 1;
    }
    let tree = ParseTree { lhs, rhs };
    proof {
        assert(slots.take(rows.len() as int) =~= slots);
        lemma_tree_view(tree);
    }
    Ok(tree)
}

/// An error among the first `n` slots is the first error of them all.
pub proof fn lemma_first_error_stays<A, E>(slots: Seq<Result<A, E>>, n: int)
    requires
        0 <= n <= slots.len(),
        first_error(slots.take(n)) is Some,
    ensures
        first_error(slots) == first_error(slots.take(n)),
    decreases slots.len() - n,
{
    if n < slots.len() {
        assert(slots.take(n + 1).drop_last() =~= slots.take(n));
        lemma_first_error_stays(slots, n + 1);
    } else {
        assert(slots.take(n) =~= slots);
    }
}

/// Dropping the errors of two sequences and joining them is dropping the
/// errors of the joined sequence.
pub proof fn lemma_without_errors_add<A, E>(a: Seq<Result<A, E>>, b: Seq<Result<A, E>>)
    ensures
        without_errors(a + b) == without_errors(a) + without_errors(b),
    decreases b.len(),
{
    if b.len() == 0 {
        assert(a + b =~= a);
        assert(without_errors(a) + without_errors(b) =~= without_errors(a));
    } else {
        lemma_without_errors_add(a, b.drop_last());
        assert((a + b).drop_last() =~= a + b.drop_last());
        assert(without_errors(a + b) =~= without_errors(a) + without_errors(b));
    }
}

/// Every result for deriving the window of `ctx` from `production`: the
/// results of its alternatives in the order of their declaration, without
/// the errors where the context drops them.
pub fn do_production<'tg, T: Token>(ctx: Ctx<'tg, 'tg, T>, production: &'tg Production) -> (result:
    Vec<Result<ParseTree<'tg, 'tg, T>, Error>>)
    requires
        ctx@.wf(),
    ensures
        tree_outcomes(result@) == production_results(ctx@, production@),
    decreases STACK_CAPACITY - ctx@.stack.len(), 4int,
{
    let ghost parts = alternative_results(ctx@, production@);
    let ignore_errors = ctx.ignore_errors;
    let mut result: Vec<Result<ParseTree<'tg, 'tg, T>, Error>> = Vec::new();
    let mut i: usize = 0;
    assert(tree_outcomes(result@) =~= concat(parts.take(0)));
    assert(tree_outcomes(result@) =~= without_errors(concat(parts.take(0))));
    while i < production.rhs.len()
        invariant
            i <= production.rhs.len(),
            ctx@.wf(),
            ignore_errors == ctx@.ignore_errors,
            parts == alternative_results(ctx@, production@),
            parts.len() == production.rhs@.len(),
            ignore_errors ==> tree_outcomes(result@) == without_errors(
                concat(parts.take(i as int)),
            ),
            !ignore_errors ==> tree_outcomes(result@) == concat(parts.take(i as int)),
        decreases production.rhs.len() - i,
    {
        let mut part = do_expression(ctx.clone(), &production.lhs, &production.rhs[i]);
        proof {
            lemma_concat_take(parts, i as int);
            assert(tree_outcomes(part@) == parts[i as int]);
        }
        let ghost before = result@;
        let ghost added = part@;
        if ignore_errors {
            keep_successes(&mut result, part);
            proof {
                lemma_without_errors_add(concat(parts.take(i as int)), parts[i as int]);
            }
        } else {
            result.append(&mut part);
            assert(tree_outcomes(result@) =~= tree_outcomes(before) + tree_outcomes(added));
        }
        i += 1;
    }
    assert(parts.take(production.rhs.len() as int) =~= parts);
    result
}

/// Moves the results that are no errors from `part` to the end of `out`.
fn keep_successes<'tg, T: Token>(
    out: &mut Vec<Result<ParseTree<'tg, 'tg, T>, Error>>,
    part: Vec<Result<ParseTree<'tg, 'tg, T>, Error>>,
)
    ensures
        tree_outcomes(final(out)@) == tree_outcomes(old(out)@) + without_errors(
            tree_outcomes(part@),
        ),
{
    let ghost all = part@;
    let ghost views = tree_outcomes(part@);
    assert(tree_outcomes(out@) =~= tree_outcomes(old(out)@) + without_errors(views.take(0)));
    for item in it: part
        invariant
            all == it.seq(),
            views == tree_outcomes(all),
            tree_outcomes(out@) == tree_outcomes(old(out)@) + without_errors(
                views.take(it.index() as int),
            ),
    {
        let ghost k = it.index() as int;
        let ghost before = out@;
        proof {
            assert(views.take(k + 1).drop_last() =~= views.take(k));
            assert(views[k] == tree_outcome(item));
        }
        if item.is_ok() {
            out.push(item);
            assert(tree_outcomes(out@) =~= tree_outcomes(before).push(tree_outcome(item)));
        }
        assert(tree_outcomes(out@) =~= tree_outcomes(old(out)@) + without_errors(
            views.take(k + 1),
        ));
    }
    assert(views.take(all.len() as int) =~= views);
}

/// Every result for deriving the window of `ctx` from `term`: one error
/// beyond `MAX_LEVEL`; for a terminal its token, where the window is that
/// one token and the names agree, or one error; for a nonterminal the
/// results of its first production one level deeper, each tree as a node,
/// or one error where it has no production or the production stack is full.
pub fn do_plain_term<'tg, T: Token>(ctx: Ctx<'tg, 'tg, T>, term: &'tg Term) -> (result: Vec<
    Result<ParseTreeNode<'tg, 'tg, T>, Error>,
>)
    requires
        ctx@.wf(),
    ensures
        node_outcomes(result@) == term_results(ctx@, term@),
    decreases STACK_CAPACITY - ctx@.stack.len(), 0int, 0int,
{
    if ctx.level > MAX_LEVEL {
        return failure(String::from_str("max level reached"));
    }
    match term {
        Term::Terminal(terminal) => {
            if ctx.len() == 1 {
                let token = ctx.front();
                if String::from_str(token.name()) == *terminal {
                    let mut result: Vec<Result<ParseTreeNode<'tg, 'tg, T>, Error>> = Vec::new();
                    result.push(Ok(ParseTreeNode::Terminal(token)));
                    assert(node_outcomes(result@) =~= seq![
                        NodeOutcome::<T>::Ok(NodeView::Terminal(*token)),
                    ]);
                    result
                } else {
                    failure(mismatch_error(token, terminal))
                }
            } else {
                failure(length_error(term, &ctx))
            }
        },
        Term::Nonterminal(nonterminal) => {
            match find_production(ctx.grammar, nonterminal) {
                Some(production) => {
                    if ctx.prod_stack.len() >= STACK_CAPACITY {
                        failure(String::from_str("max capacity exceeded"))
                    } else {
                        let ghost i = first_production(ctx@.grammar, nonterminal@)->Some_0;
                        assert(production@ == ctx@.grammar[i]);
                        let deeper = ctx.next_level(production);
                        let trees = do_production(deeper, production);
                        as_nodes(trees)
                    }
                },
                None => failure(not_found_error(nonterminal)),
            }
        },
    }
}

/// Each tree result as the result for the nonterminal that it derives.
fn as_nodes<'tg, T: Token>(trees: Vec<Result<ParseTree<'tg, 'tg, T>, Error>>) -> (nodes: Vec<
    Result<ParseTreeNode<'tg, 'tg, T>, Error>,
>)
    ensures
        node_outcomes(nodes@) == tree_outcomes(trees@).map_values(|r: TreeOutcome<T>| as_node(r)),
{
    let ghost all = trees@;
    let mut nodes: Vec<Result<ParseTreeNode<'tg, 'tg, T>, Error>> = Vec::new();
    for item in it: trees
        invariant
            all == it.seq(),
            nodes@.len() == it.index(),
            forall|k: int|
                0 <= k < nodes@.len() ==> node_outcome(#[trigger] nodes@[k]) == as_node(
                    tree_outcome(all[k]),
                ),
    {
        let node = match item {
            Ok(tree) => Ok(ParseTreeNode::Nonterminal(tree)),
            Err(e) => Err(e),
        };
        nodes.push(node);
    }
    assert(node_outcomes(nodes@) =~= tree_outcomes(all).map_values(
        |r: TreeOutcome<T>| as_node(r),
    ));
    nodes
}

/// Every result for deriving the window of `ctx` from a term of the
/// authoring form. An optional term gives one error that asks for a
/// flattened grammar; any other term gives what `do_plain_term` gives.
pub fn do_term<'tg, T: Token>(ctx: Ctx<'tg, 'tg, T>, term: &'tg OptTerm) -> (result: Vec<
    Result<ParseTreeNode<'tg, 'tg, T>, Error>,
>)
    requires
        ctx@.wf(),
    ensures
        node_outcomes(result@) == opt_term_results(ctx@, term@),
        term.is_optional ==> result@.len() == 1 && result@[0] is Err,
{
    proof {
        if term.is_optional {
            law_optional_term_fails(ctx@, term@);
        }
    }
    if ctx.level > MAX_LEVEL {
        return failure(String::from_str("max level reached"));
    }
    if term.is_optional {
        return failure(optional_error(term));
    }
    do_plain_term(ctx, &term.term)
}

/// Each of `parts` is `ctx` narrowed to the range at its position, and each
/// range lies within the window of `ctx`.
pub open spec fn are_windows<T>(
    parts: Seq<Ctx<T>>,
    ctx: CtxView<T>,
    ranges: Seq<(int, int)>,
) -> bool {
    &&& parts.len() == ranges.len()
    &&& forall|x: int|
        0 <= x < parts.len() ==> (#[trigger] parts[x])@ == ctx.at(ranges[x]) && ctx.begin
            <= ranges[x].0 <= ranges[x].1 <= ctx.end
}

/// The results of each slot of one way to part the window of `ctx`.
fn do_slots<'tg, T: Token>(
    ctx: &Ctx<'tg, 'tg, T>,
    expression: &'tg Expression,
    combination: Combination,
    Ghost(k): Ghost<int>,
) -> (rows: Vec<Vec<Result<ParseTreeNode<'tg, 'tg, T>, Error>>>)
    requires
        ctx@.wf(),
        0 <= k < split_points(ctx@.begin, ctx@.end, expression@.len()).len(),
        combination@ == split_points(ctx@.begin, ctx@.end, expression@.len())[k],
    ensures
        node_outcome_rows(rows@) == slot_results(ctx@, expression@, combination@),
    decreases STACK_CAPACITY - ctx@.stack.len(), 0int, 1int,
{
    let ghost ranges = split_ranges(ctx@.begin, ctx@.end, combination@);
    let ghost expected = slot_results(ctx@, expression@, combination@);
    proof {
        law_split_tiles(ctx@.begin, ctx@.end, expression@.len(), k);
    }
    let parts = ctx.split(combination);
    let ghost all = parts@;
    let count = parts.len();
    proof {
        assert(ctx_views(all).len() == all.len());
        assert(expression@.len() == expression.terms@.len());
        assert forall|x: int| 0 <= x < all.len() implies (#[trigger] all[x])@ == ctx@.at(
            ranges[x],
        ) by {
            assert(ctx_views(all)[x] == all[x]@);
        }
        assert(are_windows(all, ctx@, ranges));
    }
    let mut rows: Vec<Vec<Result<ParseTreeNode<'tg, 'tg, T>, Error>>> = Vec::new();
    let mut j: usize = 0;
    for part in it: parts
        invariant
            all == it.seq(),
            j == it.index(),
            j <= all.len(),
            all.len() == count,
            ctx@.wf(),
            all.len() == expression.terms@.len(),
            ranges.len() == all.len(),
            are_windows(all, ctx@, ranges),
            expected == slot_results(ctx@, expression@, combination@),
            ranges == split_ranges(ctx@.begin, ctx@.end, combination@),
            rows@.len() == j,
            forall|x: int| 0 <= x < j ==> node_outcomes((#[trigger] rows@[x])@) == expected[x],
    {
        assert(j < all.len());
        assert(part == all[j as int]);
        assert(part@ == ctx@.at(ranges[j as int]));
        assert(expression@[j as int] == expression.terms@[j as int]@);
        let row = do_plain_term(part, &expression.terms[j]);
        rows.push(row);
        j += 1;
    }
    assert(node_outcome_rows(rows@) =~= expected);
    rows
}

/// Every result for deriving the window of `ctx` from `expression`, an
/// alternative of the production `production_name`: for each way to part the
/// window into as many non-empty ranges as the expression has terms, in the
/// order of the cut points, every combination of one result per term,
/// folded into a tree or into the first error among them.
pub fn do_expression<'tg, T: Token>(
    ctx: Ctx<'tg, 'tg, T>,
    production_name: &'tg String,
    expression: &'tg Expression,
) -> (result: Vec<Result<ParseTree<'tg, 'tg, T>, Error>>)
    requires
        ctx@.wf(),
    ensures
        tree_outcomes(result@) == expression_results(ctx@, production_name@, expression@),
    decreases STACK_CAPACITY - ctx@.stack.len(), 2int,
{
    let ghost points = split_points(ctx@.begin, ctx@.end, expression@.len());
    let ghost parts = results_by_split(ctx@, production_name@, expression@);
    let combinations = ctx.combinations(expression.terms.len());
    let mut result: Vec<Result<ParseTree<'tg, 'tg, T>, Error>> = Vec::new();
    let mut k: usize = 0;
    assert(tree_outcomes(result@) =~= concat(parts.take(0)));
    while k < combinations.len()
        invariant
            k <= combinations.len(),
            ctx@.wf(),
            points == split_points(ctx@.begin, ctx@.end, expression@.len()),
            combination_views(combinations@) == points,
            parts == results_by_split(ctx@, production_name@, expression@),
            parts.len() == points.len(),
            tree_outcomes(result@) == concat(parts.take(k as int)),
        decreases combinations.len() - k,
    {
        let combination = combinations[k].clone();
        proof {
            assert(combination@ == combination_views(combinations@)[k as int]);
            lemma_concat_take(parts, k as int);
        }
        let rows = do_slots(&ctx, expression, combination, Ghost(k as int));
        let ghost slots = node_outcome_rows(rows@);
        let lens = row_lengths(&rows);
        let tuples = expand_indices(&lens);
        let ghost before = result@;
        let mut i: usize = 0;
        while i < tuples.len()
            invariant
                i <= tuples.len(),
                slots == node_outcome_rows(rows@),
                len_views(lens@) == row_lens(slots),
                index_views(tuples@) == index_expansion(row_lens(slots)),
                result@.len() == before.len() + i,
                forall|x: int| 0 <= x < before.len() ==> result@[x] == before[x],
                forall|x: int|
                    0 <= x < i ==> tree_outcome(#[trigger] result@[before.len() + x]) == folded(
                        production_name@,
                        expansion(slots)[x],
                    ),
            decreases tuples.len() - i,
        {
            proof {
                let tuple = tuples@[i as int];
                assert(index_view(tuple) == index_views(tuples@)[i as int]);
                assert(slots.len() > 0);
                assert(slots.len() == rows@.len());
                lemma_index_tuple_bounds(row_lens(slots), i as int);
                assert(index_view(tuple).len() == tuple@.len());
                assert forall|j: int| 0 <= j < rows@.len() implies tuple@[j] < (
                #[trigger] rows@[j])@.len() by {
                    assert(index_view(tuple)[j] == tuple@[j]);
                    assert(row_lens(slots)[j] == slots[j].len());
                    assert(slots[j] == node_outcomes(rows@[j]@));
                }
                assert(expansion(slots)[i as int] == pick(slots, index_view(tuple)));
            }
            let tree = fold_slots(production_name, &rows, &tuples[i]);
            result.push(tree);
            i += 1;
        }
        proof {
            let added = split_results(ctx@, production_name@, expression@, points[k as int]);
            assert(parts[k as int] == added);
            assert(added.len() == expansion(slots).len());
            assert(expansion(slots).len() == tuples@.len()) by {
                assert(index_views(tuples@).len() == tuples@.len());
            }
            assert forall|x: int| 0 <= x < added.len() implies tree_outcomes(result@)[before.len()
                + x] == added[x] by {
                assert(tree_outcome(result@[before.len() + x]) == folded(
                    production_name@,
                    expansion(slots)[x],
                ));
            }
            assert(tree_outcomes(result@) =~= tree_outcomes(before) + added);
        }
        k += 1;
    }
    assert(parts.take(combinations.len() as int) =~= parts);
    result
}

/// The lengths of the rows.
fn row_lengths<'tg, T: Token>(rows: &Vec<Vec<Result<ParseTreeNode<'tg, 'tg, T>, Error>>>) -> (lens:
    Vec<usize>)
    ensures
        len_views(lens@) == row_lens(node_outcome_rows(rows@)),
{
    let mut lens: Vec<usize> = Vec::new();
    let mut j: usize = 0;
    while j < rows.len()
        invariant
            j <= rows.len(),
            lens@.len() == j,
            forall|x: int| 0 <= x < j ==> lens@[x] == rows@[x]@.len(),
        decreases rows.len() - j,
    {
        lens.push(rows[j].len());
        j += 1;
    }
    assert(len_views(lens@) =~= row_lens(node_outcome_rows(rows@)));
    lens
}

/// A context over all of `tokens`, at level 0 and with an empty production
/// stack.
pub fn make_ctx<'tg, T: Token>(
    grammar: &'tg Grammar,
    tokens: &'tg Vec<T>,
    logs_enabled: bool,
    ignore_errors: bool,
) -> (ctx: Ctx<'tg, 'tg, T>)
    ensures
        ctx@ == (CtxView {
            begin: 0,
            end: tokens@.len() as int,
            tokens: tokens@,
            grammar: grammar@,
            level: 0,
            logs_enabled,
            ignore_errors,
            stack: Seq::empty(),
        }),
        ctx@.wf(),
        ctx.tokens == tokens,
        ctx.grammar == grammar,
{
    let start = Ctx::test(0, tokens.len(), tokens, grammar);
    Ctx {
        begin: start.begin,
        end: start.end,
        tokens: start.tokens,
        grammar: start.grammar,
        level: start.level,
        logs_enabled,
        ignore_errors,
        prod_stack: start.prod_stack,
    }
}

/// Every result of deriving the window of `ctx` from the start rule, the
/// first production of the grammar; one error where the grammar has no
/// production.
pub fn parse<'tg, T: Token>(ctx: Ctx<'tg, 'tg, T>) -> (result: Vec<
    Result<ParseTree<'tg, 'tg, T>, Error>,
>)
    requires
        ctx@.wf(),
    ensures
        tree_outcomes(result@) == parse_results(ctx@),
        ctx.grammar.productions@.len() == 0 ==> result@.len() == 1 && result@[0] is Err
            && result@[0]->Err_0@ == empty_grammar_message(),
{
    if ctx.grammar.productions.len() > 0 {
        let first = &ctx.grammar.productions[0];
        do_production(ctx, first)
    } else {
        let mut result: Vec<Result<ParseTree<'tg, 'tg, T>, Error>> = Vec::new();
        result.push(Err(String::from_str("grammar is empty")));
        assert(tree_outcomes(result@) =~= seq![TreeOutcome::<T>::Err(empty_grammar_message())]);
        result
    }
}

/// An optional term never gives a node: held against any context it
/// gives one error, which beyond `MAX_LEVEL` is the error of the level and
/// otherwise the one that asks for a flattened grammar.
pub proof fn law_optional_term_fails<T: Token>(ctx: CtxView<T>, term: OptTermView)
    requires
        term.is_optional,
    ensures
        opt_term_results(ctx, term).len() == 1,
        opt_term_results(ctx, term)[0] is Err,
        ctx.level <= MAX_LEVEL ==> opt_term_results(ctx, term) == seq![
            NodeOutcome::<T>::Err(optional_message(term)),
        ],
{
}

/// A terminal held against a context that is not exactly one token gives
/// one error and never a node: beyond `MAX_LEVEL` the error of the level,
/// and otherwise the error of the length.
pub proof fn law_terminal_needs_one_token<T: Token>(ctx: CtxView<T>, name: Seq<char>)
    requires
        ctx.len() != 1,
    ensures
        term_results(ctx, TermView::Terminal(name)).len() == 1,
        term_results(ctx, TermView::Terminal(name))[0] is Err,
        ctx.level <= MAX_LEVEL ==> term_results(ctx, TermView::Terminal(name)) == seq![
            NodeOutcome::<T>::Err(length_message(TermView::Terminal(name), ctx)),
        ],
{
}

/// A parse with a grammar that has no production gives exactly one result,
/// the error that says so, whatever the tokens are.
pub proof fn law_empty_grammar<T: Token>(ctx: CtxView<T>)
    requires
        ctx.grammar.len() == 0,
    ensures
        parse_results(ctx) == seq![TreeOutcome::<T>::Err(empty_grammar_message())],
{
}

/// Where the context drops errors, a production gives trees only.
pub proof fn law_ignored_errors<T: Token>(ctx: CtxView<T>, production: ProductionView, i: int)
    requires
        ctx.ignore_errors,
        0 <= i < production_results(ctx, production).len(),
    ensures
        production_results(ctx, production)[i] is Ok,
{
    lemma_without_errors_ok(concat(alternative_results(ctx, production)), i);
}

/// What is left when the errors are dropped is no error.
pub proof fn lemma_without_errors_ok<A, E>(results: Seq<Result<A, E>>, i: int)
    requires
        0 <= i < without_errors(results).len(),
    ensures
        without_errors(results)[i] is Ok,
    decreases results.len(),
{
    let front = without_errors(results.drop_last());
    if i < front.len() {
        lemma_without_errors_ok(results.drop_last(), i);
    }
}

/// Where no slot holds an error, every slot holds a node.
pub proof fn lemma_no_error<A, E>(slots: Seq<Result<A, E>>, j: int)
    requires
        first_error(slots) is None,
        0 <= j < slots.len(),
    ensures
        slots[j] is Ok,
    decreases slots.len(),
{
    if j < slots.len() - 1 {
        lemma_no_error(slots.drop_last(), j);
    }
}

/// What is left when the errors are dropped stood among the results, and
/// is no error.
pub proof fn lemma_without_errors_member<A, E>(results: Seq<Result<A, E>>, i: int) -> (j: int)
    requires
        0 <= i < without_errors(results).len(),
    ensures
        0 <= j < results.len(),
        results[j] == without_errors(results)[i],
        results[j] is Ok,
    decreases results.len(),
{
    let front = without_errors(results.drop_last());
    if i < front.len() {
        lemma_without_errors_member(results.drop_last(), i)
    } else {
        results.len() - 1
    }
}

/// A result that is no error is still there when the errors are dropped;
/// the result of the lemma is its position then.
pub proof fn lemma_without_errors_keeps<A, E>(results: Seq<Result<A, E>>, j: int) -> (i: int)
    requires
        0 <= j < results.len(),
        results[j] is Ok,
    ensures
        0 <= i < without_errors(results).len(),
        without_errors(results)[i] == results[j],
    decreases results.len(),
{
    let front = without_errors(results.drop_last());
    if j == results.len() - 1 {
        front.len() as int
    } else {
        lemma_without_errors_keeps(results.drop_last(), j)
    }
}

/// Where every slot holds a node, there is no first error.
pub proof fn lemma_all_ok<A, E>(slots: Seq<Result<A, E>>)
    requires
        forall|j: int| 0 <= j < slots.len() ==> #[trigger] slots[j] is Ok,
    ensures
        first_error(slots) is None,
    decreases slots.len(),
{
    if slots.len() > 0 {
        let front = slots.drop_last();
        assert forall|j: int| 0 <= j < front.len() implies #[trigger] front[j] is Ok by {
            assert(front[j] == slots[j]);
        }
        lemma_all_ok(front);
        assert(slots.last() == slots[slots.len() - 1]);
    }
}

} // verus!
