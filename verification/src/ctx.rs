//! The parsing context: a window over the tokens, the grammar, and the
//! state that bounds the recursion.

use crate::combination::combinations_of;
use crate::combination::combination_views;
use crate::combination::generate_combinations;
use crate::combination::is_combination;
use crate::combination::lemma_combinations_len;
use crate::combination::lemma_combinations_valid;
use crate::combination::Combination;
use crate::grammar::Grammar;
use crate::grammar::Production;
use crate::grammar::ProductionView;
use crate::sequences::concat;
use crate::sequences::lemma_concat_take;
use crate::text::decimal;
use crate::text::decimal_text;
use colored::Color;
use std::ops::Range;
use vstd::prelude::*;
use vstd::slice::slice_subrange;
use vstd::std_specs::cmp::PartialEqSpecImpl;
use vstd::string::StringExecFns;

verus! {

/// What the engine asks of a token: a name, which terminals are matched
/// against, and a text, which stands for it in trees and messages.
pub trait Token: Clone {
    /// The name as a sequence of characters.
    spec fn name_view(&self) -> Seq<char>;

    /// The name that a terminal has to equal.
    fn name(&self) -> (r: &str)
        ensures
            r@ == self.name_view(),
    ;

    /// The text as a sequence of characters.
    spec fn text_view(&self) -> Seq<char>;

    /// The text that is printed for the token.
    fn to_text(&self) -> (r: String)
        ensures
            r@ == self.text_view(),
    ;
}

impl Token for String {
    open spec fn name_view(&self) -> Seq<char> {
        self@
    }

    fn name(&self) -> (r: &str) {
        self.as_str()
    }

    open spec fn text_view(&self) -> Seq<char> {
        self@
    }

    fn to_text(&self) -> (r: String) {
        self.clone()
    }
}

/// A token as a lexer gives it: the name of its kind, the text that was
/// read, and the position at which it was read.
#[derive(Debug, PartialEq, Eq)]
pub struct LexToken {
    pub name: String,
    pub text: String,
    pub position: usize,
}

impl Clone for LexToken {
    fn clone(&self) -> (r: Self)
        ensures
            r == *self,
    {
        LexToken { name: self.name.clone(), text: self.text.clone(), position: self.position }
    }
}

impl Token for LexToken {
    open spec fn name_view(&self) -> Seq<char> {
        self.name@
    }

    fn name(&self) -> (r: &str) {
        self.name.as_str()
    }

    open spec fn text_view(&self) -> Seq<char> {
        self.text@
    }

    fn to_text(&self) -> (r: String) {
        self.text.clone()
    }
}

/// The most productions that may be expanded at once on one derivation path.
pub const STACK_CAPACITY: usize = 128;

/// A stack that holds at most `CAPACITY` items.
#[derive(Debug)]
pub struct Arr<T, const CAPACITY: usize> {
    items: Vec<T>,
}

impl<T, const CAPACITY: usize> View for Arr<T, CAPACITY> {
    type V = Seq<T>;

    closed spec fn view(&self) -> Seq<T> {
        self.items@
    }
}

impl<T, const CAPACITY: usize> Default for Arr<T, CAPACITY> {
    fn default() -> (r: Self)
        ensures
            r@ == Seq::<T>::empty(),
    {
        Self { items: Vec::new() }
    }
}

impl<T: Clone, const CAPACITY: usize> Clone for Arr<T, CAPACITY> {
    fn clone(&self) -> (r: Self)
        ensures
            r@.len() == self@.len(),
            forall|i: int| 0 <= i < self@.len() ==> cloned(self@[i], #[trigger] r@[i]),
    {
        proof {
            use_type_invariant(self);
        }
        Self { items: self.items.clone() }
    }
}

impl<T, const CAPACITY: usize> Arr<T, CAPACITY> {
    #[verifier::type_invariant]
    spec fn within_capacity(self) -> bool {
        self.items@.len() <= CAPACITY
    }

    /// The stack with `v` on top, or an error where it is full.
    pub fn with(self, v: T) -> (r: Result<Self, String>)
        ensures
            self@.len() < CAPACITY ==> r is Ok && r->Ok_0@ == self@.push(v),
            self@.len() >= CAPACITY ==> r is Err && r->Err_0@ == "max capacity exceeded"@,
    {
        proof {
            use_type_invariant(&self);
        }
        if self.items.len() < CAPACITY {
            let mut items = self.items;
            items.push(v);
            Ok(Self { items })
        } else {
            Err(String::from_str("max capacity exceeded"))
        }
    }

    /// Puts `v` on top of a stack that is not full.
    pub fn push(&mut self, v: T)
        requires
            old(self)@.len() < CAPACITY,
        ensures
            final(self)@ == old(self)@.push(v),
    {
        proof {
            use_type_invariant(&*self);
        }
        let mut taken = Self { items: Vec::new() };
        std::mem::swap(self, &mut taken);
        let mut items = taken.items;
        items.push(v);
        *self = Self { items };
    }

    /// The number of items.
    pub fn len(&self) -> (n: usize)
        ensures
            n == self@.len(),
            n <= CAPACITY,
    {
        proof {
            use_type_invariant(self);
        }
        self.items.len()
    }

    /// The item on top, if there is one.
    pub fn back(&self) -> (r: Option<&T>)
        ensures
            self@.len() == 0 ==> r is None,
            self@.len() > 0 ==> r == Some(&self@.last()),
    {
        if self.items.len() > 0 {
            Some(&self.items[self.items.len() - 1])
        } else {
            None
        }
    }

    /// Every item below the top one.
    pub fn head(&self) -> (r: &[T])
        ensures
            self@.len() == 0 ==> r@ == Seq::<T>::empty(),
            self@.len() > 0 ==> r@ == self@.drop_last(),
    {
        if self.items.len() > 0 {
            slice_subrange(self.items.as_slice(), 0, self.items.len() - 1)
        } else {
            slice_subrange(self.items.as_slice(), 0, 0)
        }
    }
}

/// A window `[begin, end)` over the tokens of a parse, with the grammar and
/// the state of the recursion. The tokens and the grammar are borrowed for
/// the whole parse and shared by every context.
#[derive(Debug)]
pub struct Ctx<'t, 'g, T> {
    pub begin: usize,
    pub end: usize,
    pub tokens: &'t Vec<T>,
    pub grammar: &'g Grammar,
    pub level: usize,
    pub logs_enabled: bool,
    pub ignore_errors: bool,
    /// The productions that are being expanded on the way to this context.
    pub prod_stack: Arr<&'g Production, STACK_CAPACITY>,
}

/// The mathematical value of a `Ctx`.
pub ghost struct CtxView<T> {
    pub begin: int,
    pub end: int,
    pub tokens: Seq<T>,
    pub grammar: Seq<ProductionView>,
    pub level: int,
    pub logs_enabled: bool,
    pub ignore_errors: bool,
    pub stack: Seq<ProductionView>,
}

impl<T> CtxView<T> {
    /// The same context, narrowed to `range`.
    pub open spec fn at(self, range: (int, int)) -> Self {
        CtxView { begin: range.0, end: range.1, ..self }
    }

    /// The context one level deeper, with `production` on its stack.
    pub open spec fn next_level(self, production: ProductionView) -> Self {
        CtxView { level: self.level + 1, stack: self.stack.push(production), ..self }
    }

    /// The number of tokens in the window.
    pub open spec fn len(self) -> int {
        self.end - self.begin
    }

    /// The window lies within the tokens.
    pub open spec fn wf(self) -> bool {
        0 <= self.begin <= self.end <= self.tokens.len()
    }
}

/// The values of the productions that the references point to.
pub open spec fn stack_view(stack: Seq<&Production>) -> Seq<ProductionView> {
    stack.map_values(|p: &Production| p@)
}

impl<'t, 'g, T> View for Ctx<'t, 'g, T> {
    type V = CtxView<T>;

    open spec fn view(&self) -> CtxView<T> {
        CtxView {
            begin: self.begin as int,
            end: self.end as int,
            tokens: self.tokens@,
            grammar: self.grammar@,
            level: self.level as int,
            logs_enabled: self.logs_enabled,
            ignore_errors: self.ignore_errors,
            stack: stack_view(self.prod_stack@),
        }
    }
}

impl<'t, 'g, T> Clone for Ctx<'t, 'g, T> {
    fn clone(&self) -> (r: Self)
        ensures
            r@ == self@,
            r.tokens == self.tokens,
            r.grammar == self.grammar,
    {
        let prod_stack = self.prod_stack.clone();
        assert(stack_view(prod_stack@) =~= stack_view(self.prod_stack@));
        Ctx {
            begin: self.begin,
            end: self.end,
            tokens: self.tokens,
            grammar: self.grammar,
            level: self.level,
            logs_enabled: self.logs_enabled,
            ignore_errors: self.ignore_errors,
            prod_stack,
        }
    }
}

/// Whether two references point to the same vector of tokens. This is
/// `std::ptr::eq`: what it returns depends on the addresses alone. A vector
/// has a size, whatever it holds, so two of them that are borrowed at once
/// share no address; all that is claimed is that one such place holds one
/// value.
#[verifier::external_body]
fn same_tokens<T>(a: &Vec<T>, b: &Vec<T>) -> (r: bool)
    ensures
        r ==> a == b,
{
    std::ptr::eq(a, b)
}

/// Whether two references point to the same grammar. This is
/// `std::ptr::eq`: what it returns depends on the addresses alone. A
/// grammar has a size, so two of them that are borrowed at once share no
/// address; all that is claimed is that one such place holds one value.
#[verifier::external_body]
fn same_grammar(a: &Grammar, b: &Grammar) -> (r: bool)
    ensures
        r ==> a == b,
{
    std::ptr::eq(a, b)
}

impl<'t, 'g, T> PartialEq for Ctx<'t, 'g, T> {
    /// Two contexts are equal when they are the same window over the same
    /// token storage and grammar storage, whatever the storage holds.
    fn eq(&self, other: &Self) -> (r: bool)
        ensures
            r ==> self.begin == other.begin && self.end == other.end && self.tokens
                == other.tokens && self.grammar == other.grammar,
            self.begin != other.begin || self.end != other.end ==> !r,
    {
        self.begin == other.begin && self.end == other.end && same_tokens(
            self.tokens,
            other.tokens,
        ) && same_grammar(self.grammar, other.grammar)
    }
}

/// Whether two contexts are equal goes by where their tokens and their
/// grammar are stored, which no value tells. So `==` on contexts has no
/// meaning in contracts beyond what `eq` ensures.
impl<'t, 'g, T> PartialEqSpecImpl for Ctx<'t, 'g, T> {
    open spec fn obeys_eq_spec() -> bool {
        false
    }

    open spec fn eq_spec(&self, other: &Self) -> bool {
        self@.begin == other@.begin && self@.end == other@.end
    }
}

/// The values of the contexts, in the same order.
pub open spec fn ctx_views<T>(contexts: Seq<Ctx<T>>) -> Seq<CtxView<T>> {
    contexts.map_values(|c: Ctx<T>| c@)
}

/// `ctx` narrowed to each of the ranges.
pub open spec fn narrowed<T>(ctx: CtxView<T>, ranges: Seq<(int, int)>) -> Seq<CtxView<T>> {
    Seq::new(ranges.len(), |i: int| ctx.at(ranges[i]))
}

/// The ranges that the cut points `marks` part `[begin, end)` into: the
/// range from `begin` to the first mark where it is not empty, the range
/// between each two neighbouring marks, and the range from the last mark to
/// `end` where it is not empty. No mark leaves the one range `[begin, end)`.
pub open spec fn split_ranges(begin: int, end: int, marks: Seq<int>) -> Seq<(int, int)> {
    if marks.len() == 0 {
        seq![(begin, end)]
    } else {
        leading_range(begin, marks) + inner_ranges(marks) + trailing_range(marks, end)
    }
}

/// The range from `begin` to the first mark, where it is not empty.
pub open spec fn leading_range(begin: int, marks: Seq<int>) -> Seq<(int, int)> {
    if marks.first() > begin {
        seq![(begin, marks.first())]
    } else {
        Seq::empty()
    }
}

/// The ranges between each two neighbouring marks.
pub open spec fn inner_ranges(marks: Seq<int>) -> Seq<(int, int)> {
    Seq::new((marks.len() - 1) as nat, |i: int| (marks[i], marks[i + 1]))
}

/// The range from the last mark to `end`, where it is not empty.
pub open spec fn trailing_range(marks: Seq<int>, end: int) -> Seq<(int, int)> {
    if marks.last() < end {
        seq![(marks.last(), end)]
    } else {
        Seq::empty()
    }
}

/// The ways to part `[begin, end)` into `count` non-empty ranges: the cut
/// points are the strictly increasing `count - 1`-tuples over
/// `[begin + 1, end)`. There is no way to part it into no range.
pub open spec fn split_points(begin: int, end: int, count: nat) -> Seq<Seq<int>> {
    if count == 0 {
        Seq::empty()
    } else {
        combinations_of(begin + 1, end, (count - 1) as nat)
    }
}

/// The colours of the crate `colored`: sixteen named ones, and
/// `TrueColor` with a red, a green and a blue part.
#[verifier::external_type_specification]
pub struct ExColor(Color);

impl<'t, 'g, T> Ctx<'t, 'g, T> {
    /// A context at level 0 that does not log and drops errors.
    pub fn test(begin: usize, end: usize, tokens: &'t Vec<T>, grammar: &'g Grammar) -> (r: Self)
        ensures
            r@ == (CtxView {
                begin: begin as int,
                end: end as int,
                tokens: tokens@,
                grammar: grammar@,
                level: 0,
                logs_enabled: false,
                ignore_errors: true,
                stack: Seq::empty(),
            }),
            r.tokens == tokens,
            r.grammar == grammar,
    {
        let prod_stack: Arr<&'g Production, STACK_CAPACITY> = Arr::default();
        assert(stack_view(prod_stack@) =~= Seq::empty());
        Self {
            begin,
            end,
            tokens,
            grammar,
            level: 0,
            logs_enabled: false,
            ignore_errors: true,
            prod_stack,
        }
    }

    /// The same context with an empty production stack.
    pub fn reset_stack(self) -> (r: Self)
        ensures
            r@ == (CtxView { stack: Seq::empty(), ..self@ }),
            r.tokens == self.tokens,
            r.grammar == self.grammar,
    {
        let prod_stack: Arr<&'g Production, STACK_CAPACITY> = Arr::default();
        assert(stack_view(prod_stack@) =~= Seq::empty());
        Self {
            begin: self.begin,
            end: self.end,
            tokens: self.tokens,
            grammar: self.grammar,
            level: self.level,
            logs_enabled: self.logs_enabled,
            ignore_errors: self.ignore_errors,
            prod_stack,
        }
    }

    /// The context one level deeper, with `production` on its stack. The
    /// stack must have room for it.
    pub fn next_level(&self, production: &'g Production) -> (r: Ctx<'t, 'g, T>)
        requires
            self@.stack.len() < STACK_CAPACITY,
            self.level < usize::MAX,
        ensures
            r@ == self@.next_level(production@),
            r.tokens == self.tokens,
            r.grammar == self.grammar,
    {
        let mut prod_stack = self.prod_stack.clone();
        let ghost copied = prod_stack@;
        assert(stack_view(copied) =~= stack_view(self.prod_stack@));
        prod_stack.push(production);
        assert(stack_view(prod_stack@) =~= stack_view(copied).push(production@));
        Ctx {
            begin: self.begin,
            end: self.end,
            tokens: self.tokens,
            grammar: self.grammar,
            level: self.level + 1,
            logs_enabled: self.logs_enabled,
            ignore_errors: self.ignore_errors,
            prod_stack,
        }
    }

    /// The colour that goes with the level of the context.
    pub fn color(&self) -> (c: Color)
        ensures
            c == (Color::TrueColor {
                r: ((self.level * 32) % 256) as u8,
                g: ((self.level * 64) % 256) as u8,
                b: ((self.level * 128) % 256) as u8,
            }),
    {
        let level = self.level;
        let r: usize = (level % 8) * 32;
        let g: usize = (level % 4) * 64;
        let b: usize = (level % 2) * 128;
        assert(r == (level * 32) % 256) by (nonlinear_arith)
            requires
                r == (level % 8) * 32,
        ;
        assert(g == (level * 64) % 256) by (nonlinear_arith)
            requires
                g == (level % 4) * 64,
        ;
        assert(b == (level * 128) % 256) by (nonlinear_arith)
            requires
                b == (level % 2) * 128,
        ;
        Color::TrueColor { r: r as u8, g: g as u8, b: b as u8 }
    }

    /// The same context, narrowed to `range`.
    pub fn at(&self, range: Range<usize>) -> (r: Ctx<'t, 'g, T>)
        ensures
            r@ == self@.at((range.start as int, range.end as int)),
            r.tokens == self.tokens,
            r.grammar == self.grammar,
    {
        self.window(range.start, range.end)
    }

    /// The same context over `[begin, end)`.
    fn window(&self, begin: usize, end: usize) -> (r: Ctx<'t, 'g, T>)
        ensures
            r@ == self@.at((begin as int, end as int)),
            r.tokens == self.tokens,
            r.grammar == self.grammar,
    {
        let prod_stack = self.prod_stack.clone();
        assert(stack_view(prod_stack@) =~= stack_view(self.prod_stack@));
        Ctx {
            begin,
            end,
            tokens: self.tokens,
            grammar: self.grammar,
            level: self.level,
            logs_enabled: self.logs_enabled,
            ignore_errors: self.ignore_errors,
            prod_stack,
        }
    }

    /// The contexts that the cut points of `combination` part this one into.
    pub fn split(&self, combination: Combination) -> (result: Vec<Ctx<'t, 'g, T>>)
        ensures
            ctx_views(result@) == narrowed(
                self@,
                split_ranges(self@.begin, self@.end, combination@),
            ),
            forall|i: int|
                0 <= i < result@.len() ==> (#[trigger] result@[i]).tokens == self.tokens
                    && result@[i].grammar == self.grammar,
    {
        let ghost marks = combination@;
        let ghost ranges = split_ranges(self@.begin, self@.end, marks);
        let count = combination.marks.len();
        let mut result: Vec<Ctx<'t, 'g, T>> = Vec::new();
        if count == 0 {
            result.push(self.window(self.begin, self.end));
            assert(ctx_views(result@) =~= narrowed(self@, ranges));
            return result;
        }
        if combination.marks[0] > self.begin {
            result.push(self.window(self.begin, combination.marks[0]));
        }
        let ghost lead = leading_range(self@.begin, marks);
        let ghost inner = inner_ranges(marks);
        assert(ctx_views(result@) =~= narrowed(self@, lead + inner.take(0)));
        let mut i: usize = 0;
        while i < count
            invariant
                i <= count,
                count > 0,
                count == combination.marks@.len(),
                marks == combination@,
                forall|x: int|
                    0 <= x < result@.len() ==> (#[trigger] result@[x]).tokens == self.tokens
                        && result@[x].grammar == self.grammar,
                lead == leading_range(self@.begin, marks),
                inner == inner_ranges(marks),
                i < count ==> ctx_views(result@) == narrowed(self@, lead + inner.take(i as int)),
                i == count ==> ctx_views(result@) == narrowed(
                    self@,
                    split_ranges(self@.begin, self@.end, marks),
                ),
            decreases count - i,
        {
            let ghost before = ctx_views(result@);
            if i + 1 < count {
                let piece = self.window(combination.marks[i], combination.marks[i + 1]);
                result.push(piece);
                proof {
                    assert(inner.take(i + 1) =~= inner.take(i as int).push(inner[i as int]));
                    assert(ctx_views(result@) =~= before.push(self@.at(inner[i as int])));
                    assert(ctx_views(result@) =~= narrowed(self@, lead + inner.take(i + 1)));
                }
            } else {
                assert(inner.take(i as int) =~= inner);
                if combination.marks[i] < self.end {
                    let piece = self.window(combination.marks[i], self.end);
                    result.push(piece);
                    proof {
                        assert(ctx_views(result@) =~= before.push(
                            self@.at((marks.last(), self@.end)),
                        ));
                    }
                }
                assert(ctx_views(result@) =~= narrowed(
                    self@,
                    lead + inner + trailing_range(marks, self@.end),
                ));
            }
            i += 1;
        }
        result
    }

    /// The cut points of every way to part the context into `subctx_count`
    /// non-empty contexts, in ascending lexicographic order.
    pub fn combinations(&self, subctx_count: usize) -> (result: Vec<Combination>)
        ensures
            combination_views(result@) == split_points(
                self@.begin,
                self@.end,
                subctx_count as nat,
            ),
    {
        if subctx_count == 0 {
            let result: Vec<Combination> = Vec::new();
            assert(combination_views(result@) =~= Seq::<Seq<int>>::empty());
            result
        } else if self.begin < usize::MAX {
            generate_combinations(self.begin + 1, self.end, subctx_count - 1)
        } else {
            proof {
                lemma_combinations_len(self.begin + 1, self.end as int, (subctx_count - 1) as nat);
                lemma_combinations_len(self.end as int, self.end as int, (subctx_count - 1) as nat);
                lemma_beyond_the_end(self.begin + 1, self.end as int, (subctx_count - 1) as nat);
                lemma_beyond_the_end(self.end as int, self.end as int, (subctx_count - 1) as nat);
            }
            generate_combinations(self.end, self.end, subctx_count - 1)
        }
    }

    /// The number of tokens in the window.
    pub fn len(&self) -> (n: usize)
        requires
            self.begin <= self.end,
        ensures
            n == self@.len(),
    {
        return self.end - self.begin
    }

    /// The first token of the window.
    pub fn front(&self) -> (token: &'t T)
        requires
            self.begin < self.tokens@.len(),
        ensures
            *token == self@.tokens[self@.begin],
    {
        &self.tokens[self.begin]
    }
}

/// Over a range that holds no position there is the empty tuple for
/// `k == 0` and nothing else.
pub proof fn lemma_beyond_the_end(b: int, e: int, k: nat)
    requires
        b >= e,
    ensures
        combinations_of(b, e, k) == (if k == 0 {
            seq![Seq::<int>::empty()]
        } else {
            Seq::<Seq<int>>::empty()
        }),
{
    lemma_combinations_len(b, e, k);
    if k > 0 {
        assert(combinations_of(b, e, k) =~= Seq::<Seq<int>>::empty());
    }
}

/// The texts of the tokens of `[begin, end)`, one after another.
pub open spec fn segment_text<T: Token>(tokens: Seq<T>, begin: int, end: int) -> Seq<char> {
    concat(tokens.subrange(begin, end).map_values(|t: T| t.text_view()))
}

/// How a context is written. The short form is the text of its tokens in
/// single quotes; the long form puts the bounds of the window before it.
pub open spec fn ctx_text<T: Token>(ctx: CtxView<T>, long: bool) -> Seq<char> {
    let segment = segment_text(ctx.tokens, ctx.begin, ctx.end);
    if long {
        "<"@ + decimal_text(ctx.begin as nat) + ", "@ + decimal_text(ctx.end as nat) + ", '"@
            + segment + "'> "@
    } else {
        "'"@ + segment + "'"@
    }
}

impl<'t, 'g, T: Token> Ctx<'t, 'g, T> {
    /// The texts of the tokens in the window, one after another.
    fn segment(&self) -> (text: String)
        requires
            self@.wf(),
        ensures
            text@ == segment_text(self@.tokens, self@.begin, self@.end),
    {
        let ghost parts = self@.tokens.subrange(self@.begin, self@.end).map_values(
            |t: T| t.text_view(),
        );
        let mut text = String::new();
        let mut i: usize = self.begin;
        assert(text@ =~= concat(parts.take(0)));
        while i < self.end
            invariant
                self@.wf(),
                self.begin <= i <= self.end,
                parts == self@.tokens.subrange(self@.begin, self@.end).map_values(
                    |t: T| t.text_view(),
                ),
                text@ == concat(parts.take(i - self.begin)),
            decreases self.end - i,
        {
            proof {
                lemma_concat_take(parts, i - self.begin);
            }
            let part = self.tokens[i].to_text();
            text.append(part.as_str());
            i += 1;
        }
        assert(parts.take(self.end - self.begin) =~= parts);
        text
    }

    /// The context as text: in the long form where `long` is set, in the
    /// short form otherwise.
    pub fn to_text(&self, long: bool) -> (text: String)
        requires
            self@.wf(),
        ensures
            text@ == ctx_text(self@, long),
    {
        let segment = self.segment();
        if long {
            let mut text = String::from_str("<");
            text.append(decimal(self.begin).as_str());
            text.append(", ");
            text.append(decimal(self.end).as_str());
            text.append(", '");
            text.append(segment.as_str());
            text.append("'> ");
            text
        } else {
            let mut text = String::from_str("'");
            text.append(segment.as_str());
            text.append("'");
            text
        }
    }
}

/// The ranges lie end to end from `begin` to `end`: the first starts at
/// `begin`, each starts where the one before it ends, and the last ends at
/// `end`.
pub open spec fn tiles(ranges: Seq<(int, int)>, begin: int, end: int) -> bool {
    &&& ranges.len() > 0
    &&& ranges.first().0 == begin
    &&& ranges.last().1 == end
    &&& forall|i: int| 0 <= i < ranges.len() ==> (#[trigger] ranges[i]).0 <= ranges[i].1
    &&& forall|i: int| 0 <= i < ranges.len() - 1 ==> (#[trigger] ranges[i]).1 == ranges[i + 1].0
}

/// Parting a context by any of the cut points that it offers for `count`
/// parts gives exactly `count` ranges, which tile `[begin, end)` without gap
/// or overlap; where the context holds a token, none of them is empty.
pub proof fn law_split_tiles(begin: int, end: int, count: nat, k: int)
    requires
        begin <= end,
        0 <= k < split_points(begin, end, count).len(),
    ensures
        ({
            let ranges = split_ranges(begin, end, split_points(begin, end, count)[k]);
            &&& ranges.len() == count
            &&& tiles(ranges, begin, end)
            &&& begin < end ==> forall|i: int|
                0 <= i < ranges.len() ==> (#[trigger] ranges[i]).0 < ranges[i].1
            &&& forall|i: int|
                0 <= i < ranges.len() ==> begin <= (#[trigger] ranges[i]).0 && ranges[i].1 <= end
        }),
{
    let marks = split_points(begin, end, count)[k];
    let ranges = split_ranges(begin, end, marks);
    lemma_combinations_valid(begin + 1, end, (count - 1) as nat, k);
    assert(is_combination(marks, begin + 1, end, (count - 1) as nat));
    if marks.len() > 0 {
        let inner = Seq::new((marks.len() - 1) as nat, |i: int| (marks[i], marks[i + 1]));
        assert(marks[0] > begin);
        assert(marks.last() < end);
        assert(ranges =~= seq![(begin, marks[0])] + inner + seq![(marks.last(), end)]);
        assert forall|i: int| 0 <= i < ranges.len() implies (#[trigger] ranges[i]).0
            < ranges[i].1 by {
            if 0 < i < ranges.len() - 1 {
                assert(ranges[i] == inner[i - 1]);
            }
        }
        assert forall|i: int| 0 <= i < ranges.len() implies begin <= (#[trigger] ranges[i]).0
            && ranges[i].1 <= end by {
            if 0 < i < ranges.len() - 1 {
                assert(ranges[i] == inner[i - 1]);
            }
        }
        assert forall|i: int| 0 <= i < ranges.len() - 1 implies (#[trigger] ranges[i]).1
            == ranges[i + 1].0 by {
            if 0 < i {
                assert(ranges[i] == inner[i - 1]);
            }
            if i + 1 < ranges.len() - 1 {
                assert(ranges[i + 1] == inner[i]);
            }
        }
    }
}

/// The cut points that a context offers are strictly increasing and lie
/// strictly between the bounds of its window.
pub proof fn law_split_points_within(begin: int, end: int, count: nat, k: int)
    requires
        0 <= k < split_points(begin, end, count).len(),
    ensures
        count > 0,
        is_combination(split_points(begin, end, count)[k], begin + 1, end, (count - 1) as nat),
{
    lemma_combinations_valid(begin + 1, end, (count - 1) as nat, k);
}

/// Parting a window by any strictly increasing cut points within it gives
/// one range more than there are cut points, less the empty range at either
/// end; unless nothing is left, the ranges tile the window.
pub proof fn law_split_by_any_marks(begin: int, end: int, marks: Seq<int>)
    requires
        begin <= end,
        is_combination(marks, begin, end + 1, marks.len()),
    ensures
        ({
            let ranges = split_ranges(begin, end, marks);
            &&& marks.len() == 0 ==> ranges == seq![(begin, end)]
            &&& marks.len() > 0 ==> ranges.len() == marks.len() - 1 + (if marks.first() > begin {
                1int
            } else {
                0int
            }) + (if marks.last() < end {
                1int
            } else {
                0int
            })
            &&& ranges.len() > 0 ==> tiles(ranges, begin, end)
        }),
{
    let ranges = split_ranges(begin, end, marks);
    if marks.len() > 0 {
        let k = marks.len() as int;
        let inner = Seq::new((k - 1) as nat, |i: int| (marks[i], marks[i + 1]));
        let lead = if marks[0] > begin {
            seq![(begin, marks[0])]
        } else {
            Seq::<(int, int)>::empty()
        };
        let trail = if marks.last() < end {
            seq![(marks.last(), end)]
        } else {
            Seq::<(int, int)>::empty()
        };
        let l = lead.len() as int;
        assert(ranges =~= lead + inner + trail);
        assert(ranges.len() == l + (k - 1) + trail.len());
        assert(marks[0] >= begin);
        assert(marks[k - 1] <= end);
        assert forall|i: int| 0 <= i < ranges.len() implies #[trigger] ranges[i] == (if i < l {
            (begin, marks[0])
        } else if i < l + k - 1 {
            (marks[i - l], marks[i - l + 1])
        } else {
            (marks[k - 1], end)
        }) by {
            if l <= i < l + k - 1 {
                assert(ranges[i] == inner[i - l]);
            }
        }
        if ranges.len() > 0 {
            assert forall|i: int| 0 <= i < ranges.len() implies (#[trigger] ranges[i]).0
                <= ranges[i].1 by {
                if l <= i < l + k - 1 {
                    assert(marks[i - l] < marks[i - l + 1]);
                }
            }
            assert forall|i: int| 0 <= i < ranges.len() - 1 implies (#[trigger] ranges[i]).1
                == ranges[i + 1].0 by {
                assert(ranges[i + 1] == (if i + 1 < l {
                    (begin, marks[0])
                } else if i + 1 < l + k - 1 {
                    (marks[i + 1 - l], marks[i + 1 - l + 1])
                } else {
                    (marks[k - 1], end)
                }));
            }
            assert(ranges.first() == ranges[0]);
            assert(ranges.last() == ranges[ranges.len() - 1]);
            assert(ranges.first().0 == begin);
            assert(ranges.last().1 == end);
        }
    }
}

} // verus!
