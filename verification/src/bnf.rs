//! Reading a grammar from its text: one production per line, written
//! `<lhs> ::= alt | alt | ...`.

use crate::grammar::ext_expression_views;
use crate::grammar::ext_production_views;
use crate::grammar::ExtExpression;
use crate::grammar::ExtGrammar;
use crate::grammar::ExtProduction;
use crate::grammar::ExtProductionView;
use crate::grammar::OptTerm;
use crate::grammar::OptTermView;
use crate::grammar::Term;
use crate::grammar::TermView;
use vstd::prelude::*;
use vstd::std_specs::convert::TryFromSpecImpl;
use vstd::string::StringExecFns;

verus! {

/// Why a text is no grammar.
#[derive(Debug)]
pub enum ParseError {
    /// A line without a left-hand side; it holds the line.
    LhsNotFound(String),
    /// A left-hand side that is not written `<...>`; it holds what stands
    /// there.
    WrongLhs(String),
    /// A line without the sign `::=`; it holds the line.
    RhsNotFound(String),
}

/// The mathematical value of a `ParseError`.
pub ghost enum ParseErrorView {
    LhsNotFound(Seq<char>),
    WrongLhs(Seq<char>),
    RhsNotFound(Seq<char>),
}

impl View for ParseError {
    type V = ParseErrorView;

    open spec fn view(&self) -> ParseErrorView {
        match self {
            ParseError::LhsNotFound(line) => ParseErrorView::LhsNotFound(line@),
            ParseError::WrongLhs(lhs) => ParseErrorView::WrongLhs(lhs@),
            ParseError::RhsNotFound(line) => ParseErrorView::RhsNotFound(line@),
        }
    }
}

impl Clone for ParseError {
    fn clone(&self) -> (r: Self)
        ensures
            r == *self,
    {
        match self {
            ParseError::LhsNotFound(line) => ParseError::LhsNotFound(line.clone()),
            ParseError::WrongLhs(lhs) => ParseError::WrongLhs(lhs.clone()),
            ParseError::RhsNotFound(line) => ParseError::RhsNotFound(line.clone()),
        }
    }
}

/// What a parse error says.
pub open spec fn parse_error_text(error: ParseErrorView) -> Seq<char> {
    match error {
        ParseErrorView::LhsNotFound(line) => "lhs not found in '"@ + line + "'"@,
        ParseErrorView::WrongLhs(lhs) => "lhs must be '<***>' byt found '"@ + lhs + "'"@,
        ParseErrorView::RhsNotFound(line) => "rhs not found in '"@ + line + "'"@,
    }
}

impl ParseError {
    /// What the error says.
    pub fn to_text(&self) -> (text: String)
        ensures
            text@ == parse_error_text(self@),
    {
        match self {
            ParseError::LhsNotFound(line) => {
                let mut text = String::from_str("lhs not found in '");
                text.append(line.as_str());
                text.append("'");
                text
            },
            ParseError::WrongLhs(lhs) => {
                let mut text = String::from_str("lhs must be '<***>' byt found '");
                text.append(lhs.as_str());
                text.append("'");
                text
            },
            ParseError::RhsNotFound(line) => {
                let mut text = String::from_str("rhs not found in '");
                text.append(line.as_str());
                text.append("'");
                text
            },
        }
    }
}

/// Whether `c` is white space: one of the 25 characters that Unicode gives
/// the property White_Space.
pub open spec fn is_space(c: char) -> bool {
    let u = c as u32;
    ||| 0x09 <= u <= 0x0D
    ||| u == 0x20
    ||| u == 0x85
    ||| u == 0xA0
    ||| u == 0x1680
    ||| 0x2000 <= u <= 0x200A
    ||| u == 0x2028
    ||| u == 0x2029
    ||| u == 0x202F
    ||| u == 0x205F
    ||| u == 0x3000
}

/// `s` without the white space at its two ends.
pub open spec fn trimmed(s: Seq<char>) -> Seq<char>
    decreases s.len(),
{
    if s.len() > 0 && is_space(s.first()) {
        trimmed(s.drop_first())
    } else if s.len() > 0 && is_space(s.last()) {
        trimmed(s.drop_last())
    } else {
        s
    }
}

/// The position of the first `sep` in `s`, or the length of `s` where it
/// holds none.
pub open spec fn first_index(s: Seq<char>, sep: char) -> int
    decreases s.len(),
{
    if s.len() == 0 || s.first() == sep {
        0
    } else {
        1 + first_index(s.drop_first(), sep)
    }
}

/// The pieces of `s` between its separators: one more than it holds
/// separators, some of them empty perhaps.
pub open spec fn pieces(s: Seq<char>, sep: char) -> Seq<Seq<char>>
    decreases s.len(),
{
    let i = first_index(s, sep);
    if 0 <= i < s.len() {
        seq![s.take(i)] + pieces(s.skip(i + 1), sep)
    } else {
        seq![s]
    }
}

/// The parts without the white space at their ends, and without those that
/// hold nothing else.
pub open spec fn words(parts: Seq<Seq<char>>) -> Seq<Seq<char>>
    decreases parts.len(),
{
    if parts.len() == 0 {
        Seq::empty()
    } else {
        let word = trimmed(parts.first());
        if word.len() == 0 {
            words(parts.drop_first())
        } else {
            seq![word] + words(parts.drop_first())
        }
    }
}

/// The sign between the two sides of a production.
pub open spec fn delimiter() -> Seq<char> {
    seq![':', ':', '=']
}

/// The delimiter stands at position `i` of `s`, and nowhere before.
pub open spec fn is_first_delimiter(s: Seq<char>, i: int) -> bool {
    &&& 0 <= i <= s.len() - 3
    &&& s.subrange(i, i + 3) == delimiter()
    &&& forall|j: int| 0 <= j < i ==> #[trigger] s.subrange(j, j + 3) != delimiter()
}

/// Where the delimiter first stands in `s`, if anywhere.
pub open spec fn first_delimiter(s: Seq<char>) -> Option<int> {
    if exists|i: int| is_first_delimiter(s, i) {
        Some(choose|i: int| is_first_delimiter(s, i))
    } else {
        None
    }
}

/// Whether `s` is written between `open` and `close`.
pub open spec fn is_wrapped(s: Seq<char>, open: char, close: char) -> bool {
    s.len() > 1 && s.first() == open && s.last() == close
}

/// `s` without its first and its last character.
pub open spec fn inner(s: Seq<char>) -> Seq<char> {
    s.subrange(1, s.len() - 1)
}

/// The term that `s` stands for: a nonterminal where it is written in angle
/// brackets, a terminal without its quotes where it is written in double
/// quotes, a terminal that is all of `s` otherwise.
pub open spec fn parsed_term(s: Seq<char>) -> TermView {
    if is_wrapped(s, '<', '>') {
        TermView::Nonterminal(inner(s))
    } else if is_wrapped(s, '"', '"') {
        TermView::Terminal(inner(s))
    } else {
        TermView::Terminal(s)
    }
}

/// The term that `s` stands for, optional where `s` is longer than one
/// character and ends in `?`.
pub open spec fn parsed_opt_term(s: Seq<char>) -> OptTermView {
    if s.len() > 1 && s.last() == '?' {
        OptTermView { term: parsed_term(s.drop_last()), is_optional: true }
    } else {
        OptTermView { term: parsed_term(s), is_optional: false }
    }
}

/// The name that the left-hand side `s` holds in angle brackets, or the
/// error that it holds none.
pub open spec fn parsed_lhs(s: Seq<char>) -> Result<Seq<char>, ParseErrorView> {
    if is_wrapped(s, '<', '>') {
        Ok(inner(s))
    } else {
        Err(ParseErrorView::WrongLhs(s))
    }
}

/// The terms of one alternative: its words between single spaces.
pub open spec fn parsed_expression(s: Seq<char>) -> Seq<OptTermView> {
    words(pieces(s, ' ')).map_values(|w: Seq<char>| parsed_opt_term(w))
}

/// The alternatives of a right-hand side: its pieces between bars.
pub open spec fn parsed_alternatives(s: Seq<char>) -> Seq<Seq<OptTermView>> {
    pieces(s, '|').map_values(|a: Seq<char>| parsed_expression(a))
}

/// The production that a line stands for. The line holds no white space at
/// its ends. Without the delimiter it is an error; what stands before the
/// delimiter is the left-hand side, what stands behind it the alternatives.
pub open spec fn parsed_line(line: Seq<char>) -> Result<ExtProductionView, ParseErrorView> {
    match first_delimiter(line) {
        None => Err(ParseErrorView::RhsNotFound(line)),
        Some(at) => match parsed_lhs(trimmed(line.take(at))) {
            Err(e) => Err(e),
            Ok(lhs) => Ok(
                ExtProductionView { lhs, rhs: parsed_alternatives(line.skip(at + 3)) },
            ),
        },
    }
}

/// The productions of the lines, or the error of the first line that is
/// none.
pub open spec fn parsed_lines(lines: Seq<Seq<char>>) -> Result<
    Seq<ExtProductionView>,
    ParseErrorView,
>
    decreases lines.len(),
{
    if lines.len() == 0 {
        Ok(Seq::empty())
    } else {
        match parsed_line(lines.first()) {
            Err(e) => Err(e),
            Ok(p) => match parsed_lines(lines.drop_first()) {
                Err(e) => Err(e),
                Ok(ps) => Ok(seq![p] + ps),
            },
        }
    }
}

/// The grammar that `text` stands for: the productions of its lines that
/// are not blank, or the error of the first of them that is no production.
pub open spec fn parsed_grammar(text: Seq<char>) -> Result<Seq<ExtProductionView>, ParseErrorView> {
    parsed_lines(words(pieces(text, '\n')))
}

/// Appends `c` to `text`. This is `String::push`, which puts the character
/// at the end of the string.
#[verifier::external_body]
fn push_char(text: &mut String, c: char)
    ensures
        final(text)@ == old(text)@.push(c),
{
    text.push(c)
}

/// The characters of `text`.
fn chars_of(text: &str) -> (chars: Vec<char>)
    ensures
        chars@ == text@,
{
    let mut chars: Vec<char> = Vec::new();
    for c in it: text.chars()
        invariant
            it.seq() == text@,
            chars@ == it.seq().take(it.index() as int),
    {
        chars.push(c);
        assert(it.seq().take(it.index() + 1) =~= it.seq().take(it.index() as int).push(c));
    }
    assert(text@.take(text@.len() as int) =~= text@);
    chars
}

/// The text that `chars` holds in `[from, to)`.
fn text_of(chars: &Vec<char>, from: usize, to: usize) -> (text: String)
    requires
        from <= to <= chars@.len(),
    ensures
        text@ == chars@.subrange(from as int, to as int),
{
    let mut text = String::new();
    let mut i: usize = from;
    while i < to
        invariant
            from <= i <= to <= chars@.len(),
            text@ == chars@.subrange(from as int, i as int),
        decreases to - i,
    {
        push_char(&mut text, chars[i]);
        assert(text@ =~= chars@.subrange(from as int, i + 1));
        i += 1;
    }
    text
}

/// Whether `c` is white space.
fn is_white_space(c: char) -> (r: bool)
    ensures
        r == is_space(c),
{
    let u = c as u32;
    (0x09 <= u && u <= 0x0D) || u == 0x20 || u == 0x85 || u == 0xA0 || u == 0x1680 || (0x2000 <= u
        && u <= 0x200A) || u == 0x2028 || u == 0x2029 || u == 0x202F || u == 0x205F || u == 0x3000
}

/// The bounds of `[from, to)` without the white space at its two ends.
fn trim(chars: &Vec<char>, from: usize, to: usize) -> (r: (usize, usize))
    requires
        from <= to <= chars@.len(),
    ensures
        from <= r.0 <= r.1 <= to,
        chars@.subrange(r.0 as int, r.1 as int) == trimmed(
            chars@.subrange(from as int, to as int),
        ),
{
    let mut a: usize = from;
    while a < to && is_white_space(chars[a])
        invariant
            from <= a <= to <= chars@.len(),
            trimmed(chars@.subrange(a as int, to as int)) == trimmed(
                chars@.subrange(from as int, to as int),
            ),
        decreases to - a,
    {
        assert(chars@.subrange(a as int, to as int).drop_first() =~= chars@.subrange(
            a + 1,
            to as int,
        ));
        a += 1;
    }
    let mut b: usize = to;
    while b > a && is_white_space(chars[b - 1])
        invariant
            a <= b <= to <= chars@.len(),
            a == to || !is_space(chars@[a as int]),
            trimmed(chars@.subrange(a as int, b as int)) == trimmed(
                chars@.subrange(from as int, to as int),
            ),
        decreases b,
    {
        assert(chars@.subrange(a as int, b as int).drop_last() =~= chars@.subrange(
            a as int,
            b - 1,
        ));
        b -= 1;
    }
    (a, b)
}

/// The end of the piece that starts at `from`: the position of the next
/// `sep` before `to`, or `to`.
fn piece_end(chars: &Vec<char>, from: usize, to: usize, sep: char) -> (end: usize)
    requires
        from <= to <= chars@.len(),
    ensures
        from <= end <= to,
        end - from == first_index(chars@.subrange(from as int, to as int), sep),
{
    let mut end: usize = from;
    while end < to && chars[end] != sep
        invariant
            from <= end <= to <= chars@.len(),
            first_index(chars@.subrange(from as int, to as int), sep) == (end - from)
                + first_index(chars@.subrange(end as int, to as int), sep),
        decreases to - end,
    {
        assert(chars@.subrange(end as int, to as int).drop_first() =~= chars@.subrange(
            end + 1,
            to as int,
        ));
        end += 1;
    }
    end
}

/// The texts that `s` holds in the ranges.
pub open spec fn texts(s: Seq<char>, ranges: Seq<(usize, usize)>) -> Seq<Seq<char>> {
    ranges.map_values(|r: (usize, usize)| s.subrange(r.0 as int, r.1 as int))
}

/// Every range lies within `[0, len]`.
pub open spec fn within(ranges: Seq<(usize, usize)>, len: nat) -> bool {
    forall|i: int| 0 <= i < ranges.len() ==> (#[trigger] ranges[i]).0 <= ranges[i].1 <= len
}

/// The bounds of the pieces of `[from, to)` between the separators.
fn piece_ranges(chars: &Vec<char>, from: usize, to: usize, sep: char) -> (ranges: Vec<
    (usize, usize),
>)
    requires
        from <= to <= chars@.len(),
    ensures
        texts(chars@, ranges@) == pieces(chars@.subrange(from as int, to as int), sep),
        within(ranges@, chars@.len()),
{
    let ghost all = pieces(chars@.subrange(from as int, to as int), sep);
    let mut ranges: Vec<(usize, usize)> = Vec::new();
    let mut start: usize = from;
    let mut done = false;
    assert(all =~= texts(chars@, ranges@) + all);
    while !done
        invariant
            from <= start <= to <= chars@.len(),
            within(ranges@, chars@.len()),
            all == pieces(chars@.subrange(from as int, to as int), sep),
            !done ==> all == texts(chars@, ranges@) + pieces(
                chars@.subrange(start as int, to as int),
                sep,
            ),
            done ==> all == texts(chars@, ranges@),
        decreases to - start + (if done { 0int } else { 1int }),
    {
        let end = piece_end(chars, start, to, sep);
        let ghost rest = chars@.subrange(start as int, to as int);
        let ghost before = ranges@;
        ranges.push((start, end));
        proof {
            assert(texts(chars@, ranges@) =~= texts(chars@, before).push(
                chars@.subrange(start as int, end as int),
            ));
            assert(rest.take(end - start) =~= chars@.subrange(start as int, end as int));
        }
        if end < to {
            proof {
                assert(rest.skip(end - start + 1) =~= chars@.subrange(end + 1, to as int));
                assert(all =~= texts(chars@, ranges@) + pieces(
                    chars@.subrange(end + 1, to as int),
                    sep,
                ));
            }
            start = end + 1;
        } else {
            proof {
                assert(rest =~= chars@.subrange(start as int, end as int));
                assert(all =~= texts(chars@, ranges@));
            }
            done = true;
        }
    }
    ranges
}

/// The bounds of the words of the parts: each part without the white space
/// at its ends, and no part that holds nothing else.
fn word_ranges(chars: &Vec<char>, parts: &Vec<(usize, usize)>) -> (ranges: Vec<(usize, usize)>)
    requires
        within(parts@, chars@.len()),
    ensures
        texts(chars@, ranges@) == words(texts(chars@, parts@)),
        within(ranges@, chars@.len()),
{
    let ghost all = texts(chars@, parts@);
    let mut ranges: Vec<(usize, usize)> = Vec::new();
    let mut i: usize = 0;
    assert(all.skip(0) =~= all);
    assert(words(all) =~= texts(chars@, ranges@) + words(all.skip(0)));
    while i < parts.len()
        invariant
            i <= parts.len(),
            within(parts@, chars@.len()),
            within(ranges@, chars@.len()),
            all == texts(chars@, parts@),
            words(all) == texts(chars@, ranges@) + words(all.skip(i as int)),
        decreases parts.len() - i,
    {
        let part = parts[i];
        let (a, b) = trim(chars, part.0, part.1);
        let ghost before = ranges@;
        proof {
            assert(all.skip(i as int).drop_first() =~= all.skip(i + 1));
            assert(all.skip(i as int).first() == chars@.subrange(part.0 as int, part.1 as int));
        }
        if a < b {
            ranges.push((a, b));
            assert(texts(chars@, ranges@) =~= texts(chars@, before).push(
                chars@.subrange(a as int, b as int),
            ));
            assert(words(all) =~= texts(chars@, ranges@) + words(all.skip(i + 1)));
        }
        i += 1;
    }
    assert(words(all) =~= texts(chars@, ranges@));
    ranges
}

/// The position in `[from, to)` at which the delimiter first stands.
fn find_delimiter(chars: &Vec<char>, from: usize, to: usize) -> (r: Option<usize>)
    requires
        from <= to <= chars@.len(),
    ensures
        match first_delimiter(chars@.subrange(from as int, to as int)) {
            Some(at) => r == Some((from + at) as usize) && 0 <= at <= to - from - 3,
            None => r is None,
        },
{
    let ghost line = chars@.subrange(from as int, to as int);
    let mut i: usize = from;
    while to - i >= 3
        invariant
            from <= i <= to <= chars@.len(),
            line == chars@.subrange(from as int, to as int),
            forall|j: int| 0 <= j < i - from ==> #[trigger] line.subrange(j, j + 3) != delimiter(),
        decreases to - i,
    {
        let ghost here = line.subrange(i - from, i - from + 3);
        if chars[i] == ':' && chars[i + 1] == ':' && chars[i + 2] == '=' {
            proof {
                assert(here =~= delimiter());
                assert(is_first_delimiter(line, i - from));
                let found = choose|at: int| is_first_delimiter(line, at);
                assert(found == i - from) by {
                    if found < i - from {
                        assert(line.subrange(found, found + 3) != delimiter());
                    }
                }
            }
            return Some(i);
        }
        proof {
            assert(here[0] == chars@[i as int]);
            assert(here[1] == chars@[i + 1]);
            assert(here[2] == chars@[i + 2]);
            assert(delimiter()[0] == ':' && delimiter()[1] == ':' && delimiter()[2] == '=');
        }
        i += 1;
    }
    None
}

/// Whether `[from, to)` is written between `open` and `close`.
fn wrapped(chars: &Vec<char>, from: usize, to: usize, open: char, close: char) -> (r: bool)
    requires
        from <= to <= chars@.len(),
    ensures
        r == is_wrapped(chars@.subrange(from as int, to as int), open, close),
        r ==> to - from > 1 && inner(chars@.subrange(from as int, to as int)) == chars@.subrange(
            from + 1,
            to - 1,
        ),
{
    let r = to - from > 1 && chars[from] == open && chars[to - 1] == close;
    if r {
        assert(inner(chars@.subrange(from as int, to as int)) =~= chars@.subrange(
            from + 1,
            to - 1,
        ));
    }
    r
}

/// The term that stands in `[from, to)`.
fn term_at(chars: &Vec<char>, from: usize, to: usize) -> (term: Term)
    requires
        from <= to <= chars@.len(),
    ensures
        term@ == parsed_term(chars@.subrange(from as int, to as int)),
{
    if wrapped(chars, from, to, '<', '>') {
        Term::Nonterminal(text_of(chars, from + 1, to - 1))
    } else if wrapped(chars, from, to, '"', '"') {
        Term::Terminal(text_of(chars, from + 1, to - 1))
    } else {
        Term::Terminal(text_of(chars, from, to))
    }
}

/// The term that stands in `[from, to)`, optional where it ends in `?`.
fn opt_term_at(chars: &Vec<char>, from: usize, to: usize) -> (term: OptTerm)
    requires
        from <= to <= chars@.len(),
    ensures
        term@ == parsed_opt_term(chars@.subrange(from as int, to as int)),
{
    if to - from > 1 && chars[to - 1] == '?' {
        assert(chars@.subrange(from as int, to as int).drop_last() =~= chars@.subrange(
            from as int,
            to - 1,
        ));
        OptTerm { term: term_at(chars, from, to - 1), is_optional: true }
    } else {
        OptTerm { term: term_at(chars, from, to), is_optional: false }
    }
}

/// The name that the left-hand side in `[from, to)` holds.
fn lhs_at(chars: &Vec<char>, from: usize, to: usize) -> (r: Result<String, ParseError>)
    requires
        from <= to <= chars@.len(),
    ensures
        match parsed_lhs(chars@.subrange(from as int, to as int)) {
            Ok(name) => r is Ok && r->Ok_0@ == name,
            Err(e) => r is Err && r->Err_0@ == e,
        },
{
    if wrapped(chars, from, to, '<', '>') {
        Ok(text_of(chars, from + 1, to - 1))
    } else {
        Err(ParseError::WrongLhs(text_of(chars, from, to)))
    }
}

/// The alternative that stands in `[from, to)`.
fn expression_at(chars: &Vec<char>, from: usize, to: usize) -> (expression: ExtExpression)
    requires
        from <= to <= chars@.len(),
    ensures
        expression@ == parsed_expression(chars@.subrange(from as int, to as int)),
{
    let parts = piece_ranges(chars, from, to, ' ');
    let ranges = word_ranges(chars, &parts);
    let ghost found = texts(chars@, ranges@);
    let mut terms: Vec<OptTerm> = Vec::new();
    let mut i: usize = 0;
    while i < ranges.len()
        invariant
            i <= ranges.len(),
            within(ranges@, chars@.len()),
            found == texts(chars@, ranges@),
            terms@.len() == i,
            forall|x: int| 0 <= x < i ==> (#[trigger] terms@[x])@ == parsed_opt_term(found[x]),
        decreases ranges.len() - i,
    {
        let range = ranges[i];
        terms.push(opt_term_at(chars, range.0, range.1));
        i += 1;
    }
    let expression = ExtExpression { terms };
    assert(expression@ =~= parsed_expression(chars@.subrange(from as int, to as int)));
    expression
}

/// The alternatives that stand in `[from, to)`.
fn alternatives_at(chars: &Vec<char>, from: usize, to: usize) -> (rhs: Vec<ExtExpression>)
    requires
        from <= to <= chars@.len(),
    ensures
        ext_expression_views(rhs@) == parsed_alternatives(
            chars@.subrange(from as int, to as int),
        ),
{
    let ranges = piece_ranges(chars, from, to, '|');
    let ghost found = texts(chars@, ranges@);
    let mut rhs: Vec<ExtExpression> = Vec::new();
    let mut i: usize = 0;
    while i < ranges.len()
        invariant
            i <= ranges.len(),
            within(ranges@, chars@.len()),
            found == texts(chars@, ranges@),
            rhs@.len() == i,
            forall|x: int| 0 <= x < i ==> (#[trigger] rhs@[x])@ == parsed_expression(found[x]),
        decreases ranges.len() - i,
    {
        let range = ranges[i];
        rhs.push(expression_at(chars, range.0, range.1));
        i += 1;
    }
    assert(ext_expression_views(rhs@) =~= parsed_alternatives(
        chars@.subrange(from as int, to as int),
    ));
    rhs
}

/// The value of the result of reading one production.
pub open spec fn production_outcome(r: Result<ExtProduction, ParseError>) -> Result<
    ExtProductionView,
    ParseErrorView,
> {
    match r {
        Ok(p) => Ok(p@),
        Err(e) => Err(e@),
    }
}

/// The value of the result of reading a grammar.
pub open spec fn grammar_outcome(r: Result<ExtGrammar, ParseError>) -> Result<
    Seq<ExtProductionView>,
    ParseErrorView,
> {
    match r {
        Ok(g) => Ok(g@),
        Err(e) => Err(e@),
    }
}

/// The production that stands in the line `[from, to)`.
fn line_at(chars: &Vec<char>, from: usize, to: usize) -> (r: Result<ExtProduction, ParseError>)
    requires
        from <= to <= chars@.len(),
    ensures
        production_outcome(r) == parsed_line(chars@.subrange(from as int, to as int)),
{
    let ghost line = chars@.subrange(from as int, to as int);
    match find_delimiter(chars, from, to) {
        Some(at) => {
            let (a, b) = trim(chars, from, at);
            proof {
                assert(line.take(at - from) =~= chars@.subrange(from as int, at as int));
                assert(line.skip(at - from + 3) =~= chars@.subrange(at + 3, to as int));
            }
            match lhs_at(chars, a, b) {
                Ok(lhs) => {
                    let rhs = alternatives_at(chars, at + 3, to);
                    Ok(ExtProduction { lhs, rhs })
                },
                Err(e) => Err(e),
            }
        },
        None => Err(ParseError::RhsNotFound(text_of(chars, from, to))),
    }
}

/// Reading the lines one after another reads what comes first before what
/// comes after, and stops at the first error.
pub proof fn lemma_parsed_lines_add(a: Seq<Seq<char>>, b: Seq<Seq<char>>)
    ensures
        parsed_lines(a + b) == (match parsed_lines(a) {
            Err(e) => Err(e),
            Ok(ps) => match parsed_lines(b) {
                Err(e) => Err(e),
                Ok(qs) => Ok(ps + qs),
            },
        }),
    decreases a.len(),
{
    if a.len() == 0 {
        assert(a + b =~= b);
        if let Ok(qs) = parsed_lines(b) {
            assert(Seq::<ExtProductionView>::empty() + qs =~= qs);
        }
    } else {
        assert((a + b).drop_first() =~= a.drop_first() + b);
        lemma_parsed_lines_add(a.drop_first(), b);
        if let Ok(p) = parsed_line(a.first()) {
            if let Ok(ps) = parsed_lines(a.drop_first()) {
                if let Ok(qs) = parsed_lines(b) {
                    assert(seq![p] + (ps + qs) =~= (seq![p] + ps) + qs);
                }
            }
        }
    }
}

/// The grammar that `text` stands for. Each line that is not blank is one
/// production, `<lhs> ::= alt | alt | ...`; the terms of an alternative
/// stand between spaces. The first line that is no production gives the
/// error, and no grammar.
pub fn parse_grammar(text: &str) -> (r: Result<ExtGrammar, ParseError>)
    ensures
        grammar_outcome(r) == parsed_grammar(text@),
{
    let chars = chars_of(text);
    assert(chars@.subrange(0, chars@.len() as int) =~= chars@);
    let parts = piece_ranges(&chars, 0, chars.len(), '\n');
    let lines = word_ranges(&chars, &parts);
    let ghost found = texts(chars@, lines@);
    let mut productions: Vec<ExtProduction> = Vec::new();
    let mut i: usize = 0;
    assert(found.take(0) =~= Seq::<Seq<char>>::empty());
    assert(ext_production_views(productions@) =~= Seq::<ExtProductionView>::empty());
    while i < lines.len()
        invariant
            i <= lines.len(),
            within(lines@, chars@.len()),
            found == texts(chars@, lines@),
            parsed_grammar(text@) == parsed_lines(found),
            parsed_lines(found.take(i as int)) == Ok::<Seq<ExtProductionView>, ParseErrorView>(
                ext_production_views(productions@),
            ),
        decreases lines.len() - i,
    {
        let line = lines[i];
        proof {
            let one = seq![found[i as int]];
            assert(found[i as int] == chars@.subrange(line.0 as int, line.1 as int));
            assert(found.take(i + 1) =~= found.take(i as int) + one);
            lemma_parsed_lines_add(found.take(i as int), one);
            assert(one.first() == found[i as int]);
            assert(one.drop_first() =~= Seq::<Seq<char>>::empty());
            assert(parsed_lines(one.drop_first()) == Ok::<Seq<ExtProductionView>, ParseErrorView>(
                Seq::empty(),
            ));
            assert(found =~= found.take(i + 1) + found.skip(i + 1));
            lemma_parsed_lines_add(found.take(i + 1), found.skip(i + 1));
        }
        match line_at(&chars, line.0, line.1) {
            Ok(production) => {
                let ghost before = productions@;
                proof {
                    assert(seq![production@] + Seq::<ExtProductionView>::empty() =~= seq![
                        production@,
                    ]);
                }
                productions.push(production);
                assert(ext_production_views(productions@) =~= ext_production_views(before)
                    + seq![production@]);
            },
            Err(e) => {
                return Err(e);
            },
        }
        i += 1;
    }
    assert(found.take(lines.len() as int) =~= found);
    Ok(ExtGrammar { productions })
}

/// The term that `term` stands for.
pub fn parse_term(term: &str) -> (r: Term)
    ensures
        r@ == parsed_term(term@),
{
    let chars = chars_of(term);
    assert(chars@.subrange(0, chars@.len() as int) =~= chars@);
    term_at(&chars, 0, chars.len())
}

/// The term that `term` stands for, optional where it ends in `?`.
pub fn parse_opt_term(term: &str) -> (r: OptTerm)
    ensures
        r@ == parsed_opt_term(term@),
{
    let chars = chars_of(term);
    assert(chars@.subrange(0, chars@.len() as int) =~= chars@);
    opt_term_at(&chars, 0, chars.len())
}

/// The name that the left-hand side `term` holds in angle brackets.
pub fn parse_lhs(term: &str) -> (r: Result<String, ParseError>)
    ensures
        match parsed_lhs(term@) {
            Ok(name) => r is Ok && r->Ok_0@ == name,
            Err(e) => r is Err && r->Err_0@ == e,
        },
{
    let chars = chars_of(term);
    assert(chars@.subrange(0, chars@.len() as int) =~= chars@);
    lhs_at(&chars, 0, chars.len())
}

impl<'a> TryFrom<&'a str> for ExtGrammar {
    type Error = ParseError;

    /// The grammar that `value` stands for.
    fn try_from(value: &'a str) -> (r: Result<Self, ParseError>)
        ensures
            grammar_outcome(r) == parsed_grammar(value@),
    {
        parse_grammar(value)
    }
}

/// The result of the conversion is stated over the values of the grammar
/// and of the error, by what `try_from` ensures.
impl<'a> TryFromSpecImpl<&'a str> for ExtGrammar {
    open spec fn obeys_try_from_spec() -> bool {
        false
    }

    open spec fn try_from_spec(v: &'a str) -> Result<Self, ParseError> {
        arbitrary()
    }
}

} // verus!
