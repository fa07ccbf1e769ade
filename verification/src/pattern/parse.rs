//! The notation of patterns: its grammar, as functions that say what
//! stands at a place in a text, and the reader that follows it.

use super::data::{Pattern, PatternTree};
use crate::data::{Leaf, SymStr};
use crate::parsing::{
    after_spaces, chars_of, lemma_after_spaces, lemma_after_word, parse_string, parse_whitespace, parse_word,
    stands, string, word, ParseError, Parsed,
};
use vstd::prelude::*;

verus! {

/// Why a text is no pattern.
#[derive(Debug)]
pub struct E(String);

impl E {
    /// What went wrong, in words.
    pub fn message(&self) -> (m: &String)
        ensures
            m@ == self@,
    {
        &self.0
    }
}

impl View for E {
    type V = Seq<char>;

    closed spec fn view(&self) -> Seq<char> {
        self.0@
    }
}

/// The pattern as a tree of characters.
pub open spec fn text_tree(p: Pattern<SymStr>) -> PatternTree<Leaf>
    decreases p,
{
    match p {
        Pattern::Atom(a) => PatternTree::Atom(a@),
        Pattern::Fail => PatternTree::Fail,
        Pattern::Wild => PatternTree::Wild,
        Pattern::CaptureVar(name) => PatternTree::CaptureVar(name@),
        Pattern::Cons { name, params } => PatternTree::Cons(name@, text_trees(params@)),
        Pattern::ExactList(ps) => PatternTree::ExactList(text_trees(ps@)),
        Pattern::ListPath(ps) => PatternTree::ListPath(text_trees(ps@)),
        Pattern::PathNext => PatternTree::PathNext,
        Pattern::Path(ps) => PatternTree::Path(text_trees(ps@)),
        Pattern::And(a, b) => PatternTree::And(Box::new(text_tree(*a)), Box::new(text_tree(*b))),
        Pattern::Or(a, b) => PatternTree::Or(Box::new(text_tree(*a)), Box::new(text_tree(*b))),
        Pattern::TemplateVar(name) => PatternTree::TemplateVar(name@),
    }
}

/// The patterns as trees of characters, in order.
pub open spec fn text_trees(ps: Seq<Pattern<SymStr>>) -> Seq<PatternTree<Leaf>>
    decreases ps,
{
    if ps.len() == 0 {
        Seq::empty()
    } else {
        text_trees(ps.drop_last()).push(text_tree(ps.last()))
    }
}

/// Whether the characters of `token` stand at `at`.
pub open spec fn stands_all(s: Seq<char>, at: int, token: Seq<char>) -> bool {
    0 <= at && at + token.len() <= s.len() && s.subrange(at, at + token.len()) == token
}

/// A pattern with whitespace around it and any number of `.and(..)` and
/// `.or(..)` behind it, which bind to the left.
pub open spec fn pattern(s: Seq<char>, at: int) -> Parsed<PatternTree<Leaf>>
    decreases s.len() - at, 5int,
{
    if !(0 <= at <= s.len()) {
        Err(ParseError::Error)
    } else {
        proof {
            lemma_after_spaces(s, at);
        }
        match bare(s, after_spaces(s, at)) {
            Ok((p, end)) => if !(at < end <= s.len()) {
                Err(ParseError::Error)
            } else {
                proof {
                    lemma_after_spaces(s, end);
                }
                match ends(s, after_spaces(s, end), p) {
                    Ok((q, after)) => Ok((q, after_spaces(s, after))),
                    Err(e) => Err(e),
                }
            },
            Err(e) => Err(e),
        }
    }
}

/// The first of two results that is no plain `Error`.
pub open spec fn or_else<T>(first: Parsed<T>, second: Parsed<T>) -> Parsed<T> {
    match first {
        Err(ParseError::Error) => second,
        _ => first,
    }
}

/// A pattern without combinators behind it. The kinds are tried in this
/// order: constructor, list path, exact list, wildcard, capture, path, path
/// marker, symbol, string, template variable.
pub open spec fn bare(s: Seq<char>, at: int) -> Parsed<PatternTree<Leaf>>
    decreases s.len() - at, 4int,
{
    or_else(
        cons(s, at),
        or_else(
            list_path(s, at),
            or_else(
                list(s, at),
                or_else(
                    wild(s, at),
                    or_else(
                        capture(s, at),
                        or_else(
                            path(s, at),
                            or_else(marker(s, at), or_else(symbol(s, at), or_else(text(s, at), template(s, at)))),
                        ),
                    ),
                ),
            ),
        ),
    )
}

/// A constructor: a word and its parameters in round brackets.
pub open spec fn cons(s: Seq<char>, at: int) -> Parsed<PatternTree<Leaf>>
    decreases s.len() - at, 3int,
{
    match word(s, at) {
        Ok((name, end)) => {
            proof {
                lemma_after_word(s, at + 1);
                lemma_after_spaces(s, end);
            }
            match items(s, after_spaces(s, end), seq!['('], seq![')']) {
                Ok((params, after)) => Ok((PatternTree::Cons(name, params), after)),
                Err(e) => Err(e),
            }
        },
        Err(e) => Err(e),
    }
}

/// A list path: patterns between `[|` and `|]`.
pub open spec fn list_path(s: Seq<char>, at: int) -> Parsed<PatternTree<Leaf>>
    decreases s.len() - at, 3int,
{
    match items(s, at, seq!['[', '|'], seq!['|', ']']) {
        Ok((ps, after)) => Ok((PatternTree::ListPath(ps), after)),
        Err(e) => Err(e),
    }
}

/// An exact list: patterns between `[` and `]`.
pub open spec fn list(s: Seq<char>, at: int) -> Parsed<PatternTree<Leaf>>
    decreases s.len() - at, 3int,
{
    match items(s, at, seq!['['], seq![']']) {
        Ok((ps, after)) => Ok((PatternTree::ExactList(ps), after)),
        Err(e) => Err(e),
    }
}

/// A path: steps between `{|` and `|}`.
pub open spec fn path(s: Seq<char>, at: int) -> Parsed<PatternTree<Leaf>>
    decreases s.len() - at, 3int,
{
    match items(s, at, seq!['{', '|'], seq!['|', '}']) {
        Ok((ps, after)) => Ok((PatternTree::Path(ps), after)),
        Err(e) => Err(e),
    }
}

/// The wildcard: the word `_`.
pub open spec fn wild(s: Seq<char>, at: int) -> Parsed<PatternTree<Leaf>> {
    match word(s, at) {
        Ok((name, end)) => if name == seq!['_'] {
            Ok((PatternTree::Wild, end))
        } else {
            Err(ParseError::Error)
        },
        Err(e) => Err(e),
    }
}

/// A capture: a word.
pub open spec fn capture(s: Seq<char>, at: int) -> Parsed<PatternTree<Leaf>> {
    match word(s, at) {
        Ok((name, end)) => Ok((PatternTree::CaptureVar(name), end)),
        Err(e) => Err(e),
    }
}

/// The path marker: `^`.
pub open spec fn marker(s: Seq<char>, at: int) -> Parsed<PatternTree<Leaf>> {
    if stands(s, at, '^') {
        Ok((PatternTree::PathNext, at + 1))
    } else {
        Err(ParseError::Error)
    }
}

/// A symbol: a colon and a word.
pub open spec fn symbol(s: Seq<char>, at: int) -> Parsed<PatternTree<Leaf>> {
    if stands(s, at, ':') {
        match word(s, at + 1) {
            Ok((name, end)) => Ok((PatternTree::Atom(Leaf::Symbol(name)), end)),
            Err(e) => Err(e),
        }
    } else {
        Err(ParseError::Error)
    }
}

/// A string literal.
pub open spec fn text(s: Seq<char>, at: int) -> Parsed<PatternTree<Leaf>> {
    match string(s, at) {
        Ok((body, end)) => Ok((PatternTree::Atom(Leaf::Text(body)), end)),
        Err(e) => Err(e),
    }
}

/// A template variable: `%` and a word, which must follow.
pub open spec fn template(s: Seq<char>, at: int) -> Parsed<PatternTree<Leaf>> {
    if stands(s, at, '%') {
        match word(s, at + 1) {
            Ok((name, end)) => Ok((PatternTree::TemplateVar(name), end)),
            Err(_) => Err(ParseError::Fatal),
        }
    } else {
        Err(ParseError::Error)
    }
}

/// Patterns between an opening and a closing bracket, with commas between
/// them and, if one likes, a comma after the last. Once the opening bracket
/// is there, the closing one must follow.
pub open spec fn items(s: Seq<char>, at: int, open: Seq<char>, close: Seq<char>) -> Parsed<Seq<PatternTree<Leaf>>>
    decreases s.len() - at, 2int,
{
    if !(0 <= at <= s.len()) || open.len() == 0 {
        Err(ParseError::Error)
    } else {
        proof {
            lemma_after_spaces(s, at);
        }
        let start = after_spaces(s, at);
        if !stands_all(s, start, open) {
            Err(ParseError::Error)
        } else {
            match followed(s, start + open.len()) {
                Ok((first, mid)) => if !(start < mid <= s.len()) {
                    Err(ParseError::Error)
                } else {
                    proof {
                        lemma_after_spaces(s, mid);
                    }
                    let last = pattern(s, after_spaces(s, mid));
                    match last {
                        Err(ParseError::Fatal) => Err(ParseError::Fatal),
                        _ => {
                            let all = if last is Ok {
                                first.push(last->Ok_0.0)
                            } else {
                                first
                            };
                            let end = after_spaces(
                                s,
                                if last is Ok {
                                    last->Ok_0.1
                                } else {
                                    after_spaces(s, mid)
                                },
                            );
                            if stands_all(s, end, close) {
                                Ok((all, after_spaces(s, end + close.len())))
                            } else {
                                Err(ParseError::Fatal)
                            }
                        },
                    }
                },
                Err(e) => Err(e),
            }
        }
    }
}

/// As many patterns, each followed by a comma, as there are.
pub open spec fn followed(s: Seq<char>, at: int) -> Parsed<Seq<PatternTree<Leaf>>>
    decreases s.len() - at, 7int,
{
    match with_comma(s, at) {
        Ok((p, end)) => if at < end <= s.len() {
            match followed(s, end) {
                Ok((rest, after)) => Ok((seq![p] + rest, after)),
                Err(e) => Err(e),
            }
        } else {
            Err(ParseError::Error)
        },
        Err(ParseError::Error) => Ok((Seq::empty(), at)),
        Err(ParseError::Fatal) => Err(ParseError::Fatal),
    }
}

/// A pattern and the comma after it.
pub open spec fn with_comma(s: Seq<char>, at: int) -> Parsed<PatternTree<Leaf>>
    decreases s.len() - at, 6int,
{
    if !(0 <= at <= s.len()) {
        Err(ParseError::Error)
    } else {
        proof {
            lemma_after_spaces(s, at);
        }
        match pattern(s, after_spaces(s, at)) {
            Ok((p, end)) => {
                let comma = after_spaces(s, end);
                if stands(s, comma, ',') {
                    Ok((p, after_spaces(s, comma + 1)))
                } else {
                    Err(ParseError::Error)
                }
            },
            Err(e) => Err(e),
        }
    }
}

/// The combinators behind a pattern, applied to it one after another.
pub open spec fn ends(s: Seq<char>, at: int, left: PatternTree<Leaf>) -> Parsed<PatternTree<Leaf>>
    decreases s.len() - at, 1int,
{
    match or_else(end(s, at, seq!['a', 'n', 'd']), end(s, at, seq!['o', 'r'])) {
        Ok(((both, right), after)) => if at < after <= s.len() {
            ends(
                s,
                after,
                if both {
                    PatternTree::And(Box::new(left), Box::new(right))
                } else {
                    PatternTree::Or(Box::new(left), Box::new(right))
                },
            )
        } else {
            Err(ParseError::Error)
        },
        Err(ParseError::Error) => Ok((left, at)),
        Err(ParseError::Fatal) => Err(ParseError::Fatal),
    }
}

/// One combinator: a dot, the keyword and a pattern in round brackets. Once
/// the keyword is there, the rest must follow. The result says whether the
/// keyword was `and`.
pub open spec fn end(s: Seq<char>, at: int, keyword: Seq<char>) -> Parsed<(bool, PatternTree<Leaf>)>
    decreases s.len() - at, 0int,
{
    if !(0 <= at <= s.len()) {
        Err(ParseError::Error)
    } else {
        proof {
            lemma_after_spaces(s, at);
        }
        let dot = after_spaces(s, at);
        if !stands(s, dot, '.') {
            Err(ParseError::Error)
        } else {
            proof {
                lemma_after_spaces(s, dot + 1);
            }
            match word(s, after_spaces(s, dot + 1)) {
                Ok((name, after_name)) => if name != keyword {
                    Err(ParseError::Error)
                } else {
                    proof {
                        lemma_after_word(s, after_spaces(s, dot + 1) + 1);
                        lemma_after_spaces(s, after_name);
                    }
                    let paren = after_spaces(s, after_name);
                    if !stands(s, paren, '(') {
                        Err(ParseError::Fatal)
                    } else {
                        match pattern(s, paren + 1) {
                            Ok((right, close)) => if stands(s, close, ')') {
                                Ok(((keyword == seq!['a', 'n', 'd'], right), after_spaces(s, close + 1)))
                            } else {
                                Err(ParseError::Fatal)
                            },
                            Err(_) => Err(ParseError::Fatal),
                        }
                    }
                },
                Err(e) => Err(e),
            }
        }
    }
}

/// A whole text as one pattern: nothing may be left over, and nothing else
/// is tried.
pub open spec fn document(s: Seq<char>) -> Result<PatternTree<Leaf>, ParseError> {
    match pattern(s, 0) {
        Ok((p, end)) => if end == s.len() {
            Ok(p)
        } else {
            Err(ParseError::Fatal)
        },
        Err(_) => Err(ParseError::Fatal),
    }
}

proof fn lemma_text_trees_push(ps: Seq<Pattern<SymStr>>, p: Pattern<SymStr>)
    ensures
        text_trees(ps.push(p)) == text_trees(ps).push(text_tree(p)),
{
    assert(ps.push(p).drop_last() =~= ps);
}

/// Whether the characters of `token` stand at `at`.
fn starts_with(input: &[char], at: usize, token: &[char]) -> (r: bool)
    requires
        at <= input@.len(),
    ensures
        r == stands_all(input@, at as int, token@),
        r ==> at + token@.len() <= usize::MAX,
{
    let n = input.len();
    if token.len() > n - at {
        return false;
    }
    let mut i: usize = 0;
    while i < token.len()
        invariant
            i <= token@.len(),
            n == input@.len(),
            at + token@.len() <= n,
            forall|j: int| 0 <= j < i ==> input@[at + j] == token@[j],
        decreases token@.len() - i,
    {
        if input[at + i] != token[i] {
            assert(input@.subrange(at as int, at + token@.len())[i as int] != token@[i as int]);
            return false;
        }
        i += 1;
    }
    assert(input@.subrange(at as int, at + token@.len()) =~= token@);
    true
}

/// Takes patterns that are each followed by a comma, as many as there are.
fn parse_followed(input: &[char], at: usize) -> (r: Result<(Vec<Pattern<SymStr>>, usize), ParseError>)
    requires
        at <= input@.len(),
    ensures
        match followed(input@, at as int) {
            Ok((ts, end)) => r matches Ok((ps, e)) && text_trees(ps@) == ts && e == end && at <= e <= input@.len(),
            Err(x) => r == Err::<(Vec<Pattern<SymStr>>, usize), ParseError>(x),
        },
    decreases input@.len() - at, 7int,
{
    let mut found: Vec<Pattern<SymStr>> = Vec::new();
    let mut i: usize = at;
    assert(text_trees(found@) + Seq::<PatternTree<Leaf>>::empty() =~= Seq::<PatternTree<Leaf>>::empty());
    loop
        invariant
            at <= i <= input@.len(),
            match followed(input@, i as int) {
                Ok((rest, end)) => followed(input@, at as int) == Ok::<(Seq<PatternTree<Leaf>>, int), ParseError>(
                    (text_trees(found@) + rest, end),
                ),
                Err(x) => followed(input@, at as int) == Err::<(Seq<PatternTree<Leaf>>, int), ParseError>(x),
            },
        decreases input@.len() - i,
    {
        match parse_with_comma(input, i) {
            Ok((p, next)) => {
                proof {
                    lemma_text_trees_push(found@, p);
                    if let Ok((rest, end)) = followed(input@, next as int) {
                        assert(text_trees(found@).push(text_tree(p)) + rest =~= text_trees(found@) + (seq![
                            text_tree(p),
                        ] + rest));
                    }
                }
                found.push(p);
                i = next;
            },
            Err(ParseError::Error) => {
                assert(text_trees(found@) + Seq::<PatternTree<Leaf>>::empty() =~= text_trees(found@));
                return Ok((found, i));
            },
            Err(ParseError::Fatal) => {
                return Err(ParseError::Fatal);
            },
        }
    }
}

/// Takes a pattern and the comma after it.
fn parse_with_comma(input: &[char], at: usize) -> (r: Result<(Pattern<SymStr>, usize), ParseError>)
    requires
        at <= input@.len(),
    ensures
        match with_comma(input@, at as int) {
            Ok((t, end)) => r matches Ok((p, e)) && text_tree(p) == t && e == end && at < e <= input@.len(),
            Err(x) => r == Err::<(Pattern<SymStr>, usize), ParseError>(x),
        },
    decreases input@.len() - at, 6int,
{
    let start = parse_whitespace(input, at);
    match parse_pattern(input, start) {
        Ok((p, end)) => {
            let comma = parse_whitespace(input, end);
            if comma < input.len() && input[comma] == ',' {
                let after = parse_whitespace(input, comma + 1);
                Ok((p, after))
            } else {
                Err(ParseError::Error)
            }
        },
        Err(e) => Err(e),
    }
}

/// Takes patterns between brackets.
fn parse_items(input: &[char], at: usize, open: &[char], close: &[char]) -> (r: Result<
    (Vec<Pattern<SymStr>>, usize),
    ParseError,
>)
    requires
        at <= input@.len(),
        open@.len() > 0,
    ensures
        match items(input@, at as int, open@, close@) {
            Ok((ts, end)) => r matches Ok((ps, e)) && text_trees(ps@) == ts && e == end && at < e <= input@.len(),
            Err(x) => r == Err::<(Vec<Pattern<SymStr>>, usize), ParseError>(x),
        },
    decreases input@.len() - at, 2int,
{
    let start = parse_whitespace(input, at);
    if !starts_with(input, start, open) {
        return Err(ParseError::Error);
    }
    let (mut found, mid) = match parse_followed(input, start + open.len()) {
        Ok(r) => r,
        Err(e) => {
            return Err(e);
        },
    };
    let last_at = parse_whitespace(input, mid);
    let mut end = last_at;
    match parse_pattern(input, last_at) {
        Ok((p, after)) => {
            proof {
                lemma_text_trees_push(found@, p);
            }
            found.push(p);
            end = after;
        },
        Err(ParseError::Error) => {},
        Err(ParseError::Fatal) => {
            return Err(ParseError::Fatal);
        },
    }
    let closing = parse_whitespace(input, end);
    if starts_with(input, closing, close) {
        let after = parse_whitespace(input, closing + close.len());
        Ok((found, after))
    } else {
        Err(ParseError::Fatal)
    }
}

/// Takes a constructor.
fn parse_cons(input: &[char], at: usize) -> (r: Result<(Pattern<SymStr>, usize), ParseError>)
    requires
        at <= input@.len(),
    ensures
        match cons(input@, at as int) {
            Ok((t, end)) => r matches Ok((p, e)) && text_tree(p) == t && e == end && at < e <= input@.len(),
            Err(x) => r == Err::<(Pattern<SymStr>, usize), ParseError>(x),
        },
    decreases input@.len() - at, 3int,
{
    let (name, end) = match parse_word(input, at) {
        Ok(r) => r,
        Err(e) => {
            return Err(e);
        },
    };
    let clear = parse_whitespace(input, end);
    let open = ['('];
    let close = [')'];
    assert(open@ =~= seq!['(']);
    assert(close@ =~= seq![')']);
    match parse_items(input, clear, open.as_slice(), close.as_slice()) {
        Ok((params, after)) => Ok((Pattern::Cons { name, params }, after)),
        Err(e) => Err(e),
    }
}

/// Takes a list path.
fn parse_list_path(input: &[char], at: usize) -> (r: Result<(Pattern<SymStr>, usize), ParseError>)
    requires
        at <= input@.len(),
    ensures
        match list_path(input@, at as int) {
            Ok((t, end)) => r matches Ok((p, e)) && text_tree(p) == t && e == end && at < e <= input@.len(),
            Err(x) => r == Err::<(Pattern<SymStr>, usize), ParseError>(x),
        },
    decreases input@.len() - at, 3int,
{
    let open = ['[', '|'];
    let close = ['|', ']'];
    assert(open@ =~= seq!['[', '|']);
    assert(close@ =~= seq!['|', ']']);
    match parse_items(input, at, open.as_slice(), close.as_slice()) {
        Ok((points, after)) => Ok((Pattern::ListPath(points), after)),
        Err(e) => Err(e),
    }
}

/// Takes an exact list.
fn parse_list(input: &[char], at: usize) -> (r: Result<(Pattern<SymStr>, usize), ParseError>)
    requires
        at <= input@.len(),
    ensures
        match list(input@, at as int) {
            Ok((t, end)) => r matches Ok((p, e)) && text_tree(p) == t && e == end && at < e <= input@.len(),
            Err(x) => r == Err::<(Pattern<SymStr>, usize), ParseError>(x),
        },
    decreases input@.len() - at, 3int,
{
    let open = ['['];
    let close = [']'];
    assert(open@ =~= seq!['[']);
    assert(close@ =~= seq![']']);
    match parse_items(input, at, open.as_slice(), close.as_slice()) {
        Ok((members, after)) => Ok((Pattern::ExactList(members), after)),
        Err(e) => Err(e),
    }
}

/// Takes a path.
fn parse_path(input: &[char], at: usize) -> (r: Result<(Pattern<SymStr>, usize), ParseError>)
    requires
        at <= input@.len(),
    ensures
        match path(input@, at as int) {
            Ok((t, end)) => r matches Ok((p, e)) && text_tree(p) == t && e == end && at < e <= input@.len(),
            Err(x) => r == Err::<(Pattern<SymStr>, usize), ParseError>(x),
        },
    decreases input@.len() - at, 3int,
{
    let open = ['{', '|'];
    let close = ['|', '}'];
    assert(open@ =~= seq!['{', '|']);
    assert(close@ =~= seq!['|', '}']);
    match parse_items(input, at, open.as_slice(), close.as_slice()) {
        Ok((points, after)) => Ok((Pattern::Path(points), after)),
        Err(e) => Err(e),
    }
}

/// Takes the wildcard.
fn parse_wild(input: &[char], at: usize) -> (r: Result<(Pattern<SymStr>, usize), ParseError>)
    requires
        at <= input@.len(),
    ensures
        match wild(input@, at as int) {
            Ok((t, end)) => r matches Ok((p, e)) && text_tree(p) == t && e == end && at < e <= input@.len(),
            Err(x) => r == Err::<(Pattern<SymStr>, usize), ParseError>(x),
        },
{
    match parse_word(input, at) {
        Ok((name, end)) => {
            if end - at == 1 && input[at] == '_' {
                assert(input@.subrange(at as int, end as int) =~= seq!['_']);
                Ok((Pattern::Wild, end))
            } else {
                proof {
                    let w = input@.subrange(at as int, end as int);
                    if w == seq!['_'] {
                        assert(w.len() == 1);
                        assert(w[0] == '_');
                    }
                }
                Err(ParseError::Error)
            }
        },
        Err(e) => Err(e),
    }
}

/// Takes a capture.
fn parse_capture_var(input: &[char], at: usize) -> (r: Result<(Pattern<SymStr>, usize), ParseError>)
    requires
        at <= input@.len(),
    ensures
        match capture(input@, at as int) {
            Ok((t, end)) => r matches Ok((p, e)) && text_tree(p) == t && e == end && at < e <= input@.len(),
            Err(x) => r == Err::<(Pattern<SymStr>, usize), ParseError>(x),
        },
{
    match parse_word(input, at) {
        Ok((name, end)) => Ok((Pattern::CaptureVar(name), end)),
        Err(e) => Err(e),
    }
}

/// Takes the path marker.
fn parse_path_next(input: &[char], at: usize) -> (r: Result<(Pattern<SymStr>, usize), ParseError>)
    requires
        at <= input@.len(),
    ensures
        match marker(input@, at as int) {
            Ok((t, end)) => r matches Ok((p, e)) && text_tree(p) == t && e == end && at < e <= input@.len(),
            Err(x) => r == Err::<(Pattern<SymStr>, usize), ParseError>(x),
        },
{
    if at < input.len() && input[at] == '^' {
        Ok((Pattern::PathNext, at + 1))
    } else {
        Err(ParseError::Error)
    }
}

/// Takes a symbol.
fn parse_symbol(input: &[char], at: usize) -> (r: Result<(Pattern<SymStr>, usize), ParseError>)
    requires
        at <= input@.len(),
    ensures
        match symbol(input@, at as int) {
            Ok((t, end)) => r matches Ok((p, e)) && text_tree(p) == t && e == end && at < e <= input@.len(),
            Err(x) => r == Err::<(Pattern<SymStr>, usize), ParseError>(x),
        },
{
    if !(at < input.len() && input[at] == ':') {
        return Err(ParseError::Error);
    }
    match parse_word(input, at + 1) {
        Ok((name, end)) => Ok((Pattern::Atom(SymStr::Symbol(name)), end)),
        Err(e) => Err(e),
    }
}

/// Takes a string literal.
fn parse_string_pattern(input: &[char], at: usize) -> (r: Result<(Pattern<SymStr>, usize), ParseError>)
    requires
        at <= input@.len(),
    ensures
        match text(input@, at as int) {
            Ok((t, end)) => r matches Ok((p, e)) && text_tree(p) == t && e == end && at < e <= input@.len(),
            Err(x) => r == Err::<(Pattern<SymStr>, usize), ParseError>(x),
        },
{
    match parse_string(input, at) {
        Ok((body, end)) => Ok((Pattern::Atom(SymStr::String(body)), end)),
        Err(e) => Err(e),
    }
}

/// Takes a template variable.
fn parse_template_variable(input: &[char], at: usize) -> (r: Result<(Pattern<SymStr>, usize), ParseError>)
    requires
        at <= input@.len(),
    ensures
        match template(input@, at as int) {
            Ok((t, end)) => r matches Ok((p, e)) && text_tree(p) == t && e == end && at < e <= input@.len(),
            Err(x) => r == Err::<(Pattern<SymStr>, usize), ParseError>(x),
        },
{
    if !(at < input.len() && input[at] == '%') {
        return Err(ParseError::Error);
    }
    match parse_word(input, at + 1) {
        Ok((name, end)) => Ok((Pattern::TemplateVar(name), end)),
        Err(_) => Err(ParseError::Fatal),
    }
}

/// Takes a pattern of any kind, without combinators.
fn parse_bare(input: &[char], at: usize) -> (r: Result<(Pattern<SymStr>, usize), ParseError>)
    requires
        at <= input@.len(),
    ensures
        match bare(input@, at as int) {
            Ok((t, end)) => r matches Ok((p, e)) && text_tree(p) == t && e == end && at < e <= input@.len(),
            Err(x) => r == Err::<(Pattern<SymStr>, usize), ParseError>(x),
        },
    decreases input@.len() - at, 4int,
{
    match parse_cons(input, at) {
        Err(ParseError::Error) => {},
        other => {
            return other;
        },
    }
    match parse_list_path(input, at) {
        Err(ParseError::Error) => {},
        other => {
            return other;
        },
    }
    match parse_list(input, at) {
        Err(ParseError::Error) => {},
        other => {
            return other;
        },
    }
    match parse_wild(input, at) {
        Err(ParseError::Error) => {},
        other => {
            return other;
        },
    }
    match parse_capture_var(input, at) {
        Err(ParseError::Error) => {},
        other => {
            return other;
        },
    }
    match parse_path(input, at) {
        Err(ParseError::Error) => {},
        other => {
            return other;
        },
    }
    match parse_path_next(input, at) {
        Err(ParseError::Error) => {},
        other => {
            return other;
        },
    }
    match parse_symbol(input, at) {
        Err(ParseError::Error) => {},
        other => {
            return other;
        },
    }
    match parse_string_pattern(input, at) {
        Err(ParseError::Error) => {},
        other => {
            return other;
        },
    }
    parse_template_variable(input, at)
}

/// Takes one combinator with the keyword `keyword`.
fn parse_end(input: &[char], at: usize, keyword: &[char]) -> (r: Result<(Pattern<SymStr>, usize), ParseError>)
    requires
        at <= input@.len(),
    ensures
        match end(input@, at as int, keyword@) {
            Ok(((_, t), after)) => r matches Ok((p, e)) && text_tree(p) == t && e == after && at < e
                <= input@.len(),
            Err(x) => r == Err::<(Pattern<SymStr>, usize), ParseError>(x),
        },
    decreases input@.len() - at, 0int,
{
    let dot = parse_whitespace(input, at);
    if !(dot < input.len() && input[dot] == '.') {
        return Err(ParseError::Error);
    }
    let name_at = parse_whitespace(input, dot + 1);
    let after_name = match parse_word(input, name_at) {
        Ok((_, end)) => end,
        Err(e) => {
            return Err(e);
        },
    };
    if !(after_name - name_at == keyword.len() && starts_with(input, name_at, keyword)) {
        return Err(ParseError::Error);
    }
    let paren = parse_whitespace(input, after_name);
    if !(paren < input.len() && input[paren] == '(') {
        return Err(ParseError::Fatal);
    }
    match parse_pattern(input, paren + 1) {
        Ok((right, close)) => {
            if close < input.len() && input[close] == ')' {
                let after = parse_whitespace(input, close + 1);
                Ok((right, after))
            } else {
                Err(ParseError::Fatal)
            }
        },
        Err(_) => Err(ParseError::Fatal),
    }
}

/// Takes one `.and(..)`.
fn parse_and(input: &[char], at: usize) -> (r: Result<(Pattern<SymStr>, usize), ParseError>)
    requires
        at <= input@.len(),
    ensures
        match end(input@, at as int, seq!['a', 'n', 'd']) {
            Ok(((_, t), after)) => r matches Ok((p, e)) && text_tree(p) == t && e == after && at < e
                <= input@.len(),
            Err(x) => r == Err::<(Pattern<SymStr>, usize), ParseError>(x),
        },
    decreases input@.len() - at, 1int,
{
    let keyword = ['a', 'n', 'd'];
    assert(keyword@ =~= seq!['a', 'n', 'd']);
    parse_end(input, at, keyword.as_slice())
}

/// Takes one `.or(..)`.
fn parse_or(input: &[char], at: usize) -> (r: Result<(Pattern<SymStr>, usize), ParseError>)
    requires
        at <= input@.len(),
    ensures
        match end(input@, at as int, seq!['o', 'r']) {
            Ok(((_, t), after)) => r matches Ok((p, e)) && text_tree(p) == t && e == after && at < e
                <= input@.len(),
            Err(x) => r == Err::<(Pattern<SymStr>, usize), ParseError>(x),
        },
    decreases input@.len() - at, 1int,
{
    let keyword = ['o', 'r'];
    assert(keyword@ =~= seq!['o', 'r']);
    parse_end(input, at, keyword.as_slice())
}

/// Takes a pattern with whitespace around it and the combinators behind
/// it.
fn parse_pattern(input: &[char], at: usize) -> (r: Result<(Pattern<SymStr>, usize), ParseError>)
    requires
        at <= input@.len(),
    ensures
        match pattern(input@, at as int) {
            Ok((t, end)) => r matches Ok((p, e)) && text_tree(p) == t && e == end && at < e <= input@.len(),
            Err(x) => r == Err::<(Pattern<SymStr>, usize), ParseError>(x),
        },
    decreases input@.len() - at, 5int,
{
    let start = parse_whitespace(input, at);
    let (first, end) = match parse_bare(input, start) {
        Ok(r) => r,
        Err(e) => {
            return Err(e);
        },
    };
    let mut left = first;
    let mut i: usize = parse_whitespace(input, end);
    loop
        invariant
            at < i <= input@.len(),
            pattern(input@, at as int) == (match ends(input@, i as int, text_tree(left)) {
                Ok((q, after)) => Ok::<(PatternTree<Leaf>, int), ParseError>((q, after_spaces(input@, after))),
                Err(e) => Err::<(PatternTree<Leaf>, int), ParseError>(e),
            }),
        decreases input@.len() - i,
    {
        match parse_and(input, i) {
            Ok((right, after)) => {
                left = Pattern::And(Box::new(left), Box::new(right));
                i = after;
                continue ;
            },
            Err(ParseError::Fatal) => {
                return Err(ParseError::Fatal);
            },
            Err(ParseError::Error) => {},
        }
        match parse_or(input, i) {
            Ok((right, after)) => {
                left = Pattern::Or(Box::new(left), Box::new(right));
                i = after;
            },
            Err(ParseError::Fatal) => {
                return Err(ParseError::Fatal);
            },
            Err(ParseError::Error) => {
                let after = parse_whitespace(input, i);
                return Ok((left, after));
            },
        }
    }
}

/// Reads a whole text as one pattern.
///
/// The text must hold one pattern and nothing else but whitespace around
/// it.
pub fn parse(text: &str) -> (r: Result<Pattern<SymStr>, E>)
    ensures
        match document(text@) {
            Ok(t) => r matches Ok(p) && text_tree(p) == t,
            Err(_) => r matches Err(e) && e@ == "Not a Pattern"@,
        },
{
    let input = chars_of(text);
    match parse_pattern(input.as_slice(), 0) {
        Ok((p, end)) => {
            if end == input.len() {
                Ok(p)
            } else {
                Err(E("Not a Pattern".to_owned()))
            }
        },
        Err(_) => Err(E("Not a Pattern".to_owned())),
    }
}

impl std::str::FromStr for Pattern<SymStr> {
    type Err = E;

    fn from_str(s: &str) -> (r: Result<Pattern<SymStr>, E>)
        ensures
            match document(s@) {
                Ok(t) => r matches Ok(p) && text_tree(p) == t,
                Err(_) => r matches Err(e) && e@ == "Not a Pattern"@,
            },
    {
        parse(s)
    }
}

} // verus!
