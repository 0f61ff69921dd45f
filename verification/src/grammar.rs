//! The grammar model: terms, expressions, productions, and the flattening
//! that removes optional terms.

use crate::combination::expand_indices;
use crate::combination::index_expansion;
use crate::combination::index_tuples;
use crate::combination::index_view;
use crate::combination::index_views;
use crate::combination::len_views;
use crate::combination::is_index_tuple;
use crate::combination::law_index_tuples_exact;
use crate::combination::lemma_index_tuple_bounds;
use crate::sequences::concat;
use crate::sequences::joined;
use crate::sequences::lemma_concat_take;
use crate::sequences::lemma_joined_take;
use vstd::prelude::*;
use vstd::string::StringExecFns;

verus! {

/// A grammar symbol: a terminal, matched against one token's name, or a
/// nonterminal, expanded through its production.
#[derive(Debug, PartialEq)]
pub enum Term {
    Terminal(String),
    Nonterminal(String),
}

/// The mathematical value of a `Term`.
pub ghost enum TermView {
    Terminal(Seq<char>),
    Nonterminal(Seq<char>),
}

impl View for Term {
    type V = TermView;

    open spec fn view(&self) -> TermView {
        match self {
            Term::Terminal(name) => TermView::Terminal(name@),
            Term::Nonterminal(name) => TermView::Nonterminal(name@),
        }
    }
}

impl Clone for Term {
    fn clone(&self) -> (r: Self)
        ensures
            r == *self,
    {
        match self {
            Term::Terminal(name) => Term::Terminal(name.clone()),
            Term::Nonterminal(name) => Term::Nonterminal(name.clone()),
        }
    }
}

/// How a term is written: a terminal in double quotes, a nonterminal in
/// angle brackets.
pub open spec fn term_text(term: TermView) -> Seq<char> {
    match term {
        TermView::Terminal(name) => "\""@ + name + "\""@,
        TermView::Nonterminal(name) => "<"@ + name + ">"@,
    }
}

impl Term {
    /// The term as it is written in a grammar.
    pub fn to_text(&self) -> (text: String)
        ensures
            text@ == term_text(self@),
    {
        match self {
            Term::Terminal(name) => {
                let mut text = String::from_str("\"");
                text.append(name.as_str());
                text.append("\"");
                text
            },
            Term::Nonterminal(name) => {
                let mut text = String::from_str("<");
                text.append(name.as_str());
                text.append(">");
                text
            },
        }
    }
}

/// A term of the authoring form of a grammar, which may be optional.
#[derive(Debug, PartialEq)]
pub struct OptTerm {
    pub term: Term,
    pub is_optional: bool,
}

/// The mathematical value of an `OptTerm`.
pub ghost struct OptTermView {
    pub term: TermView,
    pub is_optional: bool,
}

impl View for OptTerm {
    type V = OptTermView;

    open spec fn view(&self) -> OptTermView {
        OptTermView { term: self.term@, is_optional: self.is_optional }
    }
}

impl Clone for OptTerm {
    fn clone(&self) -> (r: Self)
        ensures
            r == *self,
    {
        OptTerm { term: self.term.clone(), is_optional: self.is_optional }
    }
}

/// How an optional term is written: the term, then `?` where it is optional.
pub open spec fn opt_term_text(term: OptTermView) -> Seq<char> {
    if term.is_optional {
        term_text(term.term) + "?"@
    } else {
        term_text(term.term)
    }
}

impl OptTerm {
    /// An optional term.
    pub fn opt(t: Term) -> (r: Self)
        ensures
            r == (OptTerm { term: t, is_optional: true }),
    {
        Self { term: t, is_optional: true }
    }

    /// An obligatory term.
    pub fn obl(t: Term) -> (r: Self)
        ensures
            r == (OptTerm { term: t, is_optional: false }),
    {
        Self { term: t, is_optional: false }
    }

    /// The same term, made obligatory.
    pub fn into_obl(self) -> (r: Self)
        ensures
            r == (OptTerm { term: self.term, is_optional: false }),
    {
        Self { term: self.term, is_optional: false }
    }

    /// The term as it is written in a grammar.
    pub fn to_text(&self) -> (text: String)
        ensures
            text@ == opt_term_text(self@),
    {
        let mut text = self.term.to_text();
        if self.is_optional {
            text.append("?");
        }
        text
    }
}

/// The values of the terms, in the same order.
pub open spec fn term_views(terms: Seq<Term>) -> Seq<TermView> {
    terms.map_values(|t: Term| t@)
}

/// The values of the optional terms, in the same order.
pub open spec fn opt_term_views(terms: Seq<OptTerm>) -> Seq<OptTermView> {
    terms.map_values(|t: OptTerm| t@)
}

/// An alternative of a production without optional terms: the terms that a
/// token range has to match, in this order.
#[derive(Debug, PartialEq)]
pub struct Expression {
    pub terms: Vec<Term>,
}

impl View for Expression {
    type V = Seq<TermView>;

    open spec fn view(&self) -> Seq<TermView> {
        term_views(self.terms@)
    }
}

/// How an expression is written: its terms with one space between them.
pub open spec fn expression_text(terms: Seq<TermView>) -> Seq<char> {
    joined(terms.map_values(|t: TermView| term_text(t)), " "@)
}

impl Expression {
    /// The expression as it is written in a grammar.
    pub fn to_text(&self) -> (text: String)
        ensures
            text@ == expression_text(self@),
    {
        let ghost parts = self@.map_values(|t: TermView| term_text(t));
        let mut text = String::new();
        let mut i: usize = 0;
        assert(joined(parts.take(0), " "@) =~= Seq::<char>::empty());
        while i < self.terms.len()
            invariant
                i <= self.terms.len(),
                parts == self@.map_values(|t: TermView| term_text(t)),
                text@ == joined(parts.take(i as int), " "@),
            decreases self.terms.len() - i,
        {
            proof {
                lemma_joined_take(parts, " "@, i as int);
            }
            if i > 0 {
                text.append(" ");
            }
            let part = self.terms[i].to_text();
            text.append(part.as_str());
            assert(text@ =~= joined(parts.take(i + 1), " "@));
            i += 1;
        }
        assert(parts.take(self.terms.len() as int) =~= parts);
        text
    }
}

/// An alternative of a production in its authoring form, where a term may
/// be optional.
#[derive(Debug, PartialEq)]
pub struct ExtExpression {
    pub terms: Vec<OptTerm>,
}

impl View for ExtExpression {
    type V = Seq<OptTermView>;

    open spec fn view(&self) -> Seq<OptTermView> {
        opt_term_views(self.terms@)
    }
}

/// How many choices each term leaves: present or absent for an optional
/// term, present for any other.
pub open spec fn choice_lens(terms: Seq<OptTermView>) -> Seq<nat> {
    terms.map_values(
        |t: OptTermView|
            if t.is_optional {
                2nat
            } else {
                1nat
            },
    )
}

/// The terms that stay when term `j` is kept where `choice[j] == 0` and
/// dropped elsewhere.
pub open spec fn kept_terms(terms: Seq<OptTermView>, choice: Seq<int>) -> Seq<TermView>
    decreases terms.len(),
{
    if terms.len() == 0 {
        Seq::empty()
    } else {
        let front = kept_terms(terms.drop_last(), choice.drop_last());
        if choice.last() == 0 {
            front.push(terms.last().term)
        } else {
            front
        }
    }
}

/// The expressions without optional terms that stand for `terms`: one for
/// each way of keeping or dropping every optional term, the first term's
/// choice varying slowest and "kept" coming before "dropped". No term gives
/// no expression.
pub open spec fn flattened_expression(terms: Seq<OptTermView>) -> Seq<Seq<TermView>> {
    index_expansion(choice_lens(terms)).map_values(|choice: Seq<int>| kept_terms(terms, choice))
}

/// The values of the expressions, in the same order.
pub open spec fn expression_views(expressions: Seq<Expression>) -> Seq<Seq<TermView>> {
    expressions.map_values(|e: Expression| e@)
}

/// The values of the authoring-form expressions, in the same order.
pub open spec fn ext_expression_views(expressions: Seq<ExtExpression>) -> Seq<Seq<OptTermView>> {
    expressions.map_values(|e: ExtExpression| e@)
}

impl ExtExpression {
    /// The number of choices that each term leaves.
    fn choices(&self) -> (lens: Vec<usize>)
        ensures
            len_views(lens@) == choice_lens(self@),
    {
        let mut lens: Vec<usize> = Vec::new();
        let mut j: usize = 0;
        while j < self.terms.len()
            invariant
                j <= self.terms.len(),
                lens@.len() == j,
                forall|x: int|
                    0 <= x < j ==> lens@[x] == (if self.terms@[x].is_optional {
                        2usize
                    } else {
                        1usize
                    }),
            decreases self.terms.len() - j,
        {
            lens.push(
                if self.terms[j].is_optional {
                    2
                } else {
                    1
                },
            );
            j += 1;
        }
        assert(len_views(lens@) =~= choice_lens(self@));
        lens
    }

    /// The terms that `choice` keeps.
    fn keep(&self, choice: &Vec<usize>) -> (r: Expression)
        requires
            choice@.len() == self.terms@.len(),
        ensures
            r@ == kept_terms(self@, index_view(*choice)),
    {
        let ghost terms = self@;
        let ghost picked = index_view(*choice);
        let mut kept: Vec<Term> = Vec::new();
        let mut j: usize = 0;
        while j < self.terms.len()
            invariant
                j <= self.terms.len(),
                terms == self@,
                picked == index_view(*choice),
                choice@.len() == self.terms@.len(),
                term_views(kept@) == kept_terms(terms.take(j as int), picked.take(j as int)),
            decreases self.terms.len() - j,
        {
            proof {
                assert(terms.take(j + 1).drop_last() =~= terms.take(j as int));
                assert(picked.take(j + 1).drop_last() =~= picked.take(j as int));
            }
            if choice[j] == 0 {
                let ghost before = kept@;
                kept.push(self.terms[j].term.clone());
                assert(term_views(kept@) =~= term_views(before).push(terms[j as int].term));
            }
            j += 1;
        }
        proof {
            assert(terms.take(self.terms.len() as int) =~= terms);
            assert(picked.take(self.terms.len() as int) =~= picked);
        }
        Expression { terms: kept }
    }

    /// Removes the optional terms: one expression for each way of keeping or
    /// dropping every optional term.
    pub fn flatten(self) -> (r: Vec<Expression>)
        ensures
            expression_views(r@) == flattened_expression(self@),
    {
        self.flattened()
    }

    /// The expressions that `flatten` gives, built from a borrowed value.
    fn flattened(&self) -> (r: Vec<Expression>)
        ensures
            expression_views(r@) == flattened_expression(self@),
    {
        let lens = self.choices();
        let choices = expand_indices(&lens);
        let ghost expected = index_expansion(choice_lens(self@));
        let mut r: Vec<Expression> = Vec::new();
        let mut i: usize = 0;
        while i < choices.len()
            invariant
                i <= choices.len(),
                index_views(choices@) == expected,
                expected == index_expansion(choice_lens(self@)),
                r@.len() == i,
                forall|x: int|
                    0 <= x < i ==> (#[trigger] r@[x])@ == kept_terms(self@, expected[x]),
            decreases choices.len() - i,
        {
            proof {
                assert(index_view(choices@[i as int]) == index_views(choices@)[i as int]);
                lemma_index_tuple_bounds(choice_lens(self@), i as int);
            }
            let e = self.keep(&choices[i]);
            r.push(e);
            i += 1;
        }
        assert(expression_views(r@) =~= flattened_expression(self@));
        r
    }
}

/// A rule of a grammar without optional terms: a nonterminal and the
/// alternatives that it expands to, tried in this order.
#[derive(Debug, PartialEq)]
pub struct Production {
    pub lhs: String,
    pub rhs: Vec<Expression>,
}

/// The mathematical value of a `Production`.
pub ghost struct ProductionView {
    pub lhs: Seq<char>,
    pub rhs: Seq<Seq<TermView>>,
}

impl View for Production {
    type V = ProductionView;

    open spec fn view(&self) -> ProductionView {
        ProductionView { lhs: self.lhs@, rhs: expression_views(self.rhs@) }
    }
}

/// How a production is written: the left-hand side in angle brackets, the
/// sign `::=`, and the alternatives with ` | ` between them.
pub open spec fn production_text(production: ProductionView) -> Seq<char> {
    "<"@ + production.lhs + "> ::= "@ + joined(
        production.rhs.map_values(|e: Seq<TermView>| expression_text(e)),
        " | "@,
    )
}

impl Production {
    /// The production as it is written in a grammar.
    pub fn to_text(&self) -> (text: String)
        ensures
            text@ == production_text(self@),
    {
        let ghost parts = self@.rhs.map_values(|e: Seq<TermView>| expression_text(e));
        let mut alternatives = String::new();
        let mut i: usize = 0;
        assert(joined(parts.take(0), " | "@) =~= Seq::<char>::empty());
        while i < self.rhs.len()
            invariant
                i <= self.rhs.len(),
                parts == self@.rhs.map_values(|e: Seq<TermView>| expression_text(e)),
                alternatives@ == joined(parts.take(i as int), " | "@),
            decreases self.rhs.len() - i,
        {
            proof {
                lemma_joined_take(parts, " | "@, i as int);
            }
            if i > 0 {
                alternatives.append(" | ");
            }
            let part = self.rhs[i].to_text();
            alternatives.append(part.as_str());
            assert(alternatives@ =~= joined(parts.take(i + 1), " | "@));
            i += 1;
        }
        assert(parts.take(self.rhs.len() as int) =~= parts);
        let mut text = String::from_str("<");
        text.append(self.lhs.as_str());
        text.append("> ::= ");
        text.append(alternatives.as_str());
        text
    }
}

/// A rule of a grammar in its authoring form.
#[derive(Debug, PartialEq)]
pub struct ExtProduction {
    pub lhs: String,
    pub rhs: Vec<ExtExpression>,
}

/// The mathematical value of an `ExtProduction`.
pub ghost struct ExtProductionView {
    pub lhs: Seq<char>,
    pub rhs: Seq<Seq<OptTermView>>,
}

impl View for ExtProduction {
    type V = ExtProductionView;

    open spec fn view(&self) -> ExtProductionView {
        ExtProductionView { lhs: self.lhs@, rhs: ext_expression_views(self.rhs@) }
    }
}

/// The alternatives without optional terms that stand for `rhs`: what each
/// alternative flattens to, one after another in the order of `rhs`.
pub open spec fn flattened_alternatives(rhs: Seq<Seq<OptTermView>>) -> Seq<Seq<TermView>> {
    concat(rhs.map_values(|e: Seq<OptTermView>| flattened_expression(e)))
}

/// The production without optional terms that stands for `production`.
pub open spec fn flattened_production(production: ExtProductionView) -> ProductionView {
    ProductionView { lhs: production.lhs, rhs: flattened_alternatives(production.rhs) }
}

impl ExtProduction {
    /// Removes the optional terms: the alternatives become the expansions of
    /// each alternative, in the order of the alternatives.
    pub fn flatten(self) -> (r: Production)
        ensures
            r@ == flattened_production(self@),
    {
        let rhs = self.flattened_rhs();
        Production { lhs: self.lhs, rhs }
    }

    /// The alternatives that `flatten` gives.
    fn flattened_rhs(&self) -> (rhs: Vec<Expression>)
        ensures
            expression_views(rhs@) == flattened_alternatives(self@.rhs),
    {
        let ghost parts = self@.rhs.map_values(|e: Seq<OptTermView>| flattened_expression(e));
        let mut rhs: Vec<Expression> = Vec::new();
        let mut i: usize = 0;
        assert(expression_views(rhs@) =~= concat(parts.take(0)));
        while i < self.rhs.len()
            invariant
                i <= self.rhs.len(),
                parts == self@.rhs.map_values(|e: Seq<OptTermView>| flattened_expression(e)),
                expression_views(rhs@) == concat(parts.take(i as int)),
            decreases self.rhs.len() - i,
        {
            let mut expanded = self.rhs[i].flattened();
            let ghost before = rhs@;
            let ghost added = expanded@;
            rhs.append(&mut expanded);
            proof {
                lemma_concat_take(parts, i as int);
                assert(expression_views(rhs@) =~= expression_views(before) + expression_views(
                    added,
                ));
            }
            i += 1;
        }
        assert(parts.take(self.rhs.len() as int) =~= parts);
        rhs
    }
}

/// The values of the productions, in the same order.
pub open spec fn production_views(productions: Seq<Production>) -> Seq<ProductionView> {
    productions.map_values(|p: Production| p@)
}

/// The values of the authoring-form productions, in the same order.
pub open spec fn ext_production_views(productions: Seq<ExtProduction>) -> Seq<ExtProductionView> {
    productions.map_values(|p: ExtProduction| p@)
}

/// A grammar without optional terms. Its first production is the start rule.
#[derive(Debug, PartialEq)]
pub struct Grammar {
    pub productions: Vec<Production>,
}

impl View for Grammar {
    type V = Seq<ProductionView>;

    open spec fn view(&self) -> Seq<ProductionView> {
        production_views(self.productions@)
    }
}

/// How a grammar is written: one production per line.
pub open spec fn grammar_text(productions: Seq<ProductionView>) -> Seq<char> {
    joined(productions.map_values(|p: ProductionView| production_text(p)), "\n"@)
}

impl Grammar {
    /// The grammar as it is written, one production per line.
    pub fn to_text(&self) -> (text: String)
        ensures
            text@ == grammar_text(self@),
    {
        let ghost parts = self@.map_values(|p: ProductionView| production_text(p));
        let mut text = String::new();
        let mut i: usize = 0;
        assert(joined(parts.take(0), "\n"@) =~= Seq::<char>::empty());
        while i < self.productions.len()
            invariant
                i <= self.productions.len(),
                parts == self@.map_values(|p: ProductionView| production_text(p)),
                text@ == joined(parts.take(i as int), "\n"@),
            decreases self.productions.len() - i,
        {
            proof {
                lemma_joined_take(parts, "\n"@, i as int);
            }
            if i > 0 {
                text.append("\n");
            }
            let part = self.productions[i].to_text();
            text.append(part.as_str());
            assert(text@ =~= joined(parts.take(i + 1), "\n"@));
            i += 1;
        }
        assert(parts.take(self.productions.len() as int) =~= parts);
        text
    }
}

/// A grammar in its authoring form, where a term may be optional.
#[derive(Debug, PartialEq)]
pub struct ExtGrammar {
    pub productions: Vec<ExtProduction>,
}

impl View for ExtGrammar {
    type V = Seq<ExtProductionView>;

    open spec fn view(&self) -> Seq<ExtProductionView> {
        ext_production_views(self.productions@)
    }
}

/// The grammar without optional terms that stands for `productions`.
pub open spec fn flattened_grammar(productions: Seq<ExtProductionView>) -> Seq<ProductionView> {
    productions.map_values(|p: ExtProductionView| flattened_production(p))
}

impl ExtGrammar {
    /// Removes every optional term by turning it into more alternatives.
    pub fn flatten(self) -> (r: Grammar)
        ensures
            r@ == flattened_grammar(self@),
    {
        let mut productions: Vec<Production> = Vec::new();
        let mut i: usize = 0;
        while i < self.productions.len()
            invariant
                i <= self.productions.len(),
                productions@.len() == i,
                forall|x: int|
                    0 <= x < i ==> (#[trigger] productions@[x])@ == flattened_production(
                        self.productions@[x]@,
                    ),
            decreases self.productions.len() - i,
        {
            let production = &self.productions[i];
            let rhs = production.flattened_rhs();
            productions.push(Production { lhs: production.lhs.clone(), rhs });
            i += 1;
        }
        let r = Grammar { productions };
        assert(r@ =~= flattened_grammar(self@));
        r
    }
}

/// The number of optional terms.
pub open spec fn optional_count(terms: Seq<OptTermView>) -> nat
    decreases terms.len(),
{
    if terms.len() == 0 {
        0
    } else {
        optional_count(terms.drop_last()) + (if terms.last().is_optional {
            1nat
        } else {
            0nat
        })
    }
}

/// Two to the power `m`.
pub open spec fn power_of_two(m: nat) -> nat
    decreases m,
{
    if m == 0 {
        1
    } else {
        2 * power_of_two((m - 1) as nat)
    }
}

/// `choice` says of every term whether it is kept (0) or dropped (1), and
/// drops optional terms only.
pub open spec fn is_choice(terms: Seq<OptTermView>, choice: Seq<int>) -> bool {
    &&& choice.len() == terms.len()
    &&& forall|j: int|
        0 <= j < terms.len() ==> #[trigger] choice[j] == 0 || (choice[j] == 1
            && terms[j].is_optional)
}

/// The choice that gives the `k`-th expression of the flattening of `terms`.
pub open spec fn flatten_choice(terms: Seq<OptTermView>, k: int) -> Seq<int> {
    index_tuples(choice_lens(terms))[k]
}

/// There are two to the power of the number of optional terms ways to keep
/// or drop each of them.
pub proof fn lemma_choice_count(terms: Seq<OptTermView>)
    ensures
        index_tuples(choice_lens(terms)).len() == power_of_two(optional_count(terms)),
    decreases terms.len(),
{
    if terms.len() > 0 {
        lemma_choice_count(terms.drop_last());
        assert(choice_lens(terms).drop_last() =~= choice_lens(terms.drop_last()));
        let shorter = index_tuples(choice_lens(terms.drop_last())).len();
        if terms.last().is_optional {
            assert(choice_lens(terms).last() == 2);
            assert(index_tuples(choice_lens(terms)).len() == shorter * 2);
        } else {
            assert(choice_lens(terms).last() == 1);
            assert(index_tuples(choice_lens(terms)).len() == shorter * 1);
        }
    }
}

/// Flattening an expression that has a term and `m` optional terms gives
/// two to the power `m` expressions. Each is what stays of the terms, in
/// their order, when some of the optional terms are dropped, and each way of
/// keeping or dropping the optional terms gives the expression at exactly
/// one position.
pub proof fn law_flatten_choices(terms: Seq<OptTermView>, choice: Seq<int>)
    requires
        terms.len() > 0,
    ensures
        flattened_expression(terms).len() == power_of_two(optional_count(terms)),
        forall|k: int|
            0 <= k < flattened_expression(terms).len() ==> is_choice(
                terms,
                #[trigger] flatten_choice(terms, k),
            ) && flattened_expression(terms)[k] == kept_terms(terms, flatten_choice(terms, k)),
        is_choice(terms, choice) ==> exists|k: int|
            0 <= k < flattened_expression(terms).len() && #[trigger] flatten_choice(terms, k)
                == choice,
        forall|k: int, l: int|
            0 <= k < flattened_expression(terms).len() && 0 <= l < flattened_expression(
                terms,
            ).len() && flatten_choice(terms, k) == choice && flatten_choice(terms, l) == choice
                ==> k == l,
{
    let lens = choice_lens(terms);
    let flat = flattened_expression(terms);
    lemma_choice_count(terms);
    assert(flat.len() == index_tuples(lens).len());
    assert forall|k: int| 0 <= k < flattened_expression(terms).len() implies is_choice(
        terms,
        #[trigger] flatten_choice(terms, k),
    ) && flattened_expression(terms)[k] == kept_terms(terms, flatten_choice(terms, k)) by {
        lemma_index_tuple_bounds(lens, k);
        let c = flatten_choice(terms, k);
        assert forall|j: int| 0 <= j < terms.len() implies #[trigger] c[j] == 0 || (c[j] == 1
            && terms[j].is_optional) by {
            assert(0 <= c[j] < lens[j]);
        }
    }
    law_index_tuples_exact(lens, choice);
    if is_choice(terms, choice) {
        assert forall|j: int| 0 <= j < lens.len() implies 0 <= #[trigger] choice[j] < lens[j] by {
            assert(choice[j] == 0 || (choice[j] == 1 && terms[j].is_optional));
        }
        assert(is_index_tuple(choice, lens));
        let k = choose|k: int| 0 <= k < index_tuples(lens).len() && #[trigger] index_tuples(
            lens,
        )[k] == choice;
        assert(flatten_choice(terms, k) == choice);
    }
}

} // verus!
