//! The notation of values: its grammar, as functions that say what stands
//! at a place in a text, and the reader that follows it.

use super::data::{Data, Leaf, SymStr};
use crate::parsing::{
    after_spaces, chars_of, lemma_after_spaces, lemma_after_word, parse_string,
    parse_whitespace, parse_word, stands, string, word, ParseError, Parsed,
};
use crate::pattern::ValueTree;
use vstd::prelude::*;

verus! {

/// Why a text is no value.
#[derive(Debug)]
pub struct E(String);

impl E {
    /// What went wrong, in words.
    pub fn message(&self) -> (m: &String)
        ensures
            m@ == self@,
    {
        &self.0
    }
}

impl View for E {
    type V = Seq<char>;

    closed spec fn view(&self) -> Seq<char> {
        self.0@
    }
}

/// A value with whitespace around it.
pub open spec fn data(s: Seq<char>, at: int) -> Parsed<ValueTree<Leaf>>
    decreases s.len() - at, 5int,
{
    if !(0 <= at <= s.len()) {
        Err(ParseError::Error)
    } else {
        proof {
            lemma_after_spaces(s, at);
        }
        match bare(s, after_spaces(s, at)) {
            Ok((d, end)) => Ok((d, after_spaces(s, end))),
            Err(e) => Err(e),
        }
    }
}

/// A value: a constructor, a list, a symbol or a string, tried in this
/// order.
pub open spec fn bare(s: Seq<char>, at: int) -> Parsed<ValueTree<Leaf>>
    decreases s.len() - at, 4int,
{
    match cons(s, at) {
        Err(ParseError::Error) => match list(s, at) {
            Err(ParseError::Error) => match symbol(s, at) {
                Err(ParseError::Error) => text(s, at),
                other => other,
            },
            other => other,
        },
        other => other,
    }
}

/// A constructor: a word and its parameters in round brackets.
pub open spec fn cons(s: Seq<char>, at: int) -> Parsed<ValueTree<Leaf>>
    decreases s.len() - at, 3int,
{
    match word(s, at) {
        Ok((name, end)) => {
            proof {
                lemma_after_word(s, at + 1);
                lemma_after_spaces(s, end);
            }
            match items(s, after_spaces(s, end), '(', ')') {
                Ok((params, after)) => Ok((ValueTree::Cons(name, params), after)),
                Err(e) => Err(e),
            }
        },
        Err(e) => Err(e),
    }
}

/// A list: its members in square brackets.
pub open spec fn list(s: Seq<char>, at: int) -> Parsed<ValueTree<Leaf>>
    decreases s.len() - at, 3int,
{
    match items(s, at, '[', ']') {
        Ok((members, after)) => Ok((ValueTree::List(members), after)),
        Err(e) => Err(e),
    }
}

/// A symbol: a colon and a word.
pub open spec fn symbol(s: Seq<char>, at: int) -> Parsed<ValueTree<Leaf>> {
    if stands(s, at, ':') {
        match word(s, at + 1) {
            Ok((name, end)) => Ok((ValueTree::Atom(Leaf::Symbol(name)), end)),
            Err(e) => Err(e),
        }
    } else {
        Err(ParseError::Error)
    }
}

/// A string literal.
pub open spec fn text(s: Seq<char>, at: int) -> Parsed<ValueTree<Leaf>> {
    match string(s, at) {
        Ok((body, end)) => Ok((ValueTree::Atom(Leaf::Text(body)), end)),
        Err(e) => Err(e),
    }
}

/// Values between an opening and a closing bracket, with commas between
/// them and, if one likes, a comma after the last. Once the opening bracket
/// is there, the closing one must follow.
pub open spec fn items(s: Seq<char>, at: int, open: char, close: char) -> Parsed<Seq<ValueTree<Leaf>>>
    decreases s.len() - at, 2int,
{
    if !(0 <= at <= s.len()) {
        Err(ParseError::Error)
    } else {
        proof {
            lemma_after_spaces(s, at);
        }
        let start = after_spaces(s, at);
        if !stands(s, start, open) {
            Err(ParseError::Error)
        } else {
            match followed(s, start + 1) {
                Ok((first, mid)) => if !(start < mid <= s.len()) {
                    Err(ParseError::Error)
                } else {
                    proof {
                        lemma_after_spaces(s, mid);
                    }
                    let last = data(s, after_spaces(s, mid));
                    match last {
                        Err(ParseError::Fatal) => Err(ParseError::Fatal),
                        _ => {
                            let all = if last is Ok {
                                first.push(last->Ok_0.0)
                            } else {
                                first
                            };
                            let end = after_spaces(
                                s,
                                if last is Ok {
                                    last->Ok_0.1
                                } else {
                                    after_spaces(s, mid)
                                },
                            );
                            if stands(s, end, close) {
                                Ok((all, after_spaces(s, end + 1)))
                            } else {
                                Err(ParseError::Fatal)
                            }
                        },
                    }
                },
                Err(e) => Err(e),
            }
        }
    }
}

/// As many values, each followed by a comma, as there are.
pub open spec fn followed(s: Seq<char>, at: int) -> Parsed<Seq<ValueTree<Leaf>>>
    decreases s.len() - at, 7int,
{
    match with_comma(s, at) {
        Ok((d, end)) => if at < end <= s.len() {
            match followed(s, end) {
                Ok((rest, after)) => Ok((seq![d] + rest, after)),
                Err(e) => Err(e),
            }
        } else {
            Err(ParseError::Error)
        },
        Err(ParseError::Error) => Ok((Seq::empty(), at)),
        Err(ParseError::Fatal) => Err(ParseError::Fatal),
    }
}

/// A value and the comma after it.
pub open spec fn with_comma(s: Seq<char>, at: int) -> Parsed<ValueTree<Leaf>>
    decreases s.len() - at, 6int,
{
    if !(0 <= at <= s.len()) {
        Err(ParseError::Error)
    } else {
        proof {
            lemma_after_spaces(s, at);
        }
        match data(s, after_spaces(s, at)) {
            Ok((d, end)) => {
                let comma = after_spaces(s, end);
                if stands(s, comma, ',') {
                    Ok((d, after_spaces(s, comma + 1)))
                } else {
                    Err(ParseError::Error)
                }
            },
            Err(e) => Err(e),
        }
    }
}

/// A whole text as one value: nothing may be left over, and nothing else
/// is tried.
pub open spec fn document(s: Seq<char>) -> Result<ValueTree<Leaf>, ParseError> {
    match data(s, 0) {
        Ok((d, end)) => if end == s.len() {
            Ok(d)
        } else {
            Err(ParseError::Fatal)
        },
        Err(_) => Err(ParseError::Fatal),
    }
}

proof fn lemma_text_trees_push(ds: Seq<Data>, d: Data)
    ensures
        Data::text_trees(ds.push(d)) == Data::text_trees(ds).push(d@),
{
    assert(ds.push(d).drop_last() =~= ds);
}

/// Takes values that are each followed by a comma, as many as there are.
fn parse_followed(input: &[char], at: usize) -> (r: Result<(Vec<Data>, usize), ParseError>)
    requires
        at <= input@.len(),
    ensures
        match followed(input@, at as int) {
            Ok((ts, end)) => r matches Ok((ds, e)) && Data::text_trees(ds@) == ts && e == end && at <= e
                <= input@.len(),
            Err(x) => r == Err::<(Vec<Data>, usize), ParseError>(x),
        },
    decreases input@.len() - at, 7int,
{
    let mut found: Vec<Data> = Vec::new();
    let mut i: usize = at;
    assert(Data::text_trees(found@) + Seq::<ValueTree<Leaf>>::empty() =~= Seq::<ValueTree<Leaf>>::empty());
    loop
        invariant
            at <= i <= input@.len(),
            match followed(input@, i as int) {
                Ok((rest, end)) => followed(input@, at as int) == Ok::<(Seq<ValueTree<Leaf>>, int), ParseError>(
                    (Data::text_trees(found@) + rest, end),
                ),
                Err(x) => followed(input@, at as int) == Err::<(Seq<ValueTree<Leaf>>, int), ParseError>(x),
            },
        decreases input@.len() - i,
    {
        match parse_with_comma(input, i) {
            Ok((d, next)) => {
                proof {
                    lemma_text_trees_push(found@, d);
                    if let Ok((rest, end)) = followed(input@, next as int) {
                        assert(Data::text_trees(found@).push(d@) + rest =~= Data::text_trees(found@) + (seq![
                            d@,
                        ] + rest));
                    }
                }
                found.push(d);
                i = next;
            },
            Err(ParseError::Error) => {
                assert(Data::text_trees(found@) + Seq::<ValueTree<Leaf>>::empty() =~= Data::text_trees(found@));
                return Ok((found, i));
            },
            Err(ParseError::Fatal) => {
                return Err(ParseError::Fatal);
            },
        }
    }
}

/// Takes a value and the comma after it.
fn parse_with_comma(input: &[char], at: usize) -> (r: Result<(Data, usize), ParseError>)
    requires
        at <= input@.len(),
    ensures
        match with_comma(input@, at as int) {
            Ok((t, end)) => r matches Ok((d, e)) && d@ == t && e == end && at < e <= input@.len(),
            Err(x) => r == Err::<(Data, usize), ParseError>(x),
        },
    decreases input@.len() - at, 6int,
{
    let start = parse_whitespace(input, at);
    match parse_data(input, start) {
        Ok((d, end)) => {
            let comma = parse_whitespace(input, end);
            if comma < input.len() && input[comma] == ',' {
                let after = parse_whitespace(input, comma + 1);
                Ok((d, after))
            } else {
                Err(ParseError::Error)
            }
        },
        Err(e) => Err(e),
    }
}

/// Takes values between brackets.
fn parse_items(input: &[char], at: usize, open: char, close: char) -> (r: Result<(Vec<Data>, usize), ParseError>)
    requires
        at <= input@.len(),
    ensures
        match items(input@, at as int, open, close) {
            Ok((ts, end)) => r matches Ok((ds, e)) && Data::text_trees(ds@) == ts && e == end && at < e
                <= input@.len(),
            Err(x) => r == Err::<(Vec<Data>, usize), ParseError>(x),
        },
    decreases input@.len() - at, 2int,
{
    let start = parse_whitespace(input, at);
    if !(start < input.len() && input[start] == open) {
        return Err(ParseError::Error);
    }
    let (mut found, mid) = match parse_followed(input, start + 1) {
        Ok(r) => r,
        Err(e) => {
            return Err(e);
        },
    };
    let last_at = parse_whitespace(input, mid);
    let mut end = last_at;
    match parse_data(input, last_at) {
        Ok((d, after)) => {
            proof {
                lemma_text_trees_push(found@, d);
            }
            found.push(d);
            end = after;
        },
        Err(ParseError::Error) => {},
        Err(ParseError::Fatal) => {
            return Err(ParseError::Fatal);
        },
    }
    let closing = parse_whitespace(input, end);
    if closing < input.len() && input[closing] == close {
        let after = parse_whitespace(input, closing + 1);
        Ok((found, after))
    } else {
        Err(ParseError::Fatal)
    }
}

/// Takes a constructor.
fn parse_cons(input: &[char], at: usize) -> (r: Result<(Data, usize), ParseError>)
    requires
        at <= input@.len(),
    ensures
        match cons(input@, at as int) {
            Ok((t, end)) => r matches Ok((d, e)) && d@ == t && e == end && at < e <= input@.len(),
            Err(x) => r == Err::<(Data, usize), ParseError>(x),
        },
    decreases input@.len() - at, 3int,
{
    let (name, end) = match parse_word(input, at) {
        Ok(r) => r,
        Err(e) => {
            return Err(e);
        },
    };
    let clear = parse_whitespace(input, end);
    match parse_items(input, clear, '(', ')') {
        Ok((params, after)) => Ok((Data::Cons { name, params }, after)),
        Err(e) => Err(e),
    }
}

/// Takes a list.
fn parse_list(input: &[char], at: usize) -> (r: Result<(Data, usize), ParseError>)
    requires
        at <= input@.len(),
    ensures
        match list(input@, at as int) {
            Ok((t, end)) => r matches Ok((d, e)) && d@ == t && e == end && at < e <= input@.len(),
            Err(x) => r == Err::<(Data, usize), ParseError>(x),
        },
    decreases input@.len() - at, 3int,
{
    match parse_items(input, at, '[', ']') {
        Ok((members, after)) => Ok((Data::List(members), after)),
        Err(e) => Err(e),
    }
}

/// Takes a symbol.
fn parse_symbol(input: &[char], at: usize) -> (r: Result<(Data, usize), ParseError>)
    requires
        at <= input@.len(),
    ensures
        match symbol(input@, at as int) {
            Ok((t, end)) => r matches Ok((d, e)) && d@ == t && e == end && at < e <= input@.len(),
            Err(x) => r == Err::<(Data, usize), ParseError>(x),
        },
{
    if !(at < input.len() && input[at] == ':') {
        return Err(ParseError::Error);
    }
    match parse_word(input, at + 1) {
        Ok((name, end)) => Ok((Data::SymStr(SymStr::Symbol(name)), end)),
        Err(e) => Err(e),
    }
}

/// Takes a string literal.
fn parse_string_data(input: &[char], at: usize) -> (r: Result<(Data, usize), ParseError>)
    requires
        at <= input@.len(),
    ensures
        match text(input@, at as int) {
            Ok((t, end)) => r matches Ok((d, e)) && d@ == t && e == end && at < e <= input@.len(),
            Err(x) => r == Err::<(Data, usize), ParseError>(x),
        },
{
    match parse_string(input, at) {
        Ok((body, end)) => Ok((Data::SymStr(SymStr::String(body)), end)),
        Err(e) => Err(e),
    }
}

/// Takes a value of any kind.
fn parse_bare(input: &[char], at: usize) -> (r: Result<(Data, usize), ParseError>)
    requires
        at <= input@.len(),
    ensures
        match bare(input@, at as int) {
            Ok((t, end)) => r matches Ok((d, e)) && d@ == t && e == end && at < e <= input@.len(),
            Err(x) => r == Err::<(Data, usize), ParseError>(x),
        },
    decreases input@.len() - at, 4int,
{
    match parse_cons(input, at) {
        Err(ParseError::Error) => {},
        other => {
            return other;
        },
    }
    match parse_list(input, at) {
        Err(ParseError::Error) => {},
        other => {
            return other;
        },
    }
    match parse_symbol(input, at) {
        Err(ParseError::Error) => {},
        other => {
            return other;
        },
    }
    parse_string_data(input, at)
}

/// Takes a value with whitespace around it.
fn parse_data(input: &[char], at: usize) -> (r: Result<(Data, usize), ParseError>)
    requires
        at <= input@.len(),
    ensures
        match data(input@, at as int) {
            Ok((t, end)) => r matches Ok((d, e)) && d@ == t && e == end && at < e <= input@.len(),
            Err(x) => r == Err::<(Data, usize), ParseError>(x),
        },
    decreases input@.len() - at, 5int,
{
    let start = parse_whitespace(input, at);
    match parse_bare(input, start) {
        Ok((d, end)) => {
            let after = parse_whitespace(input, end);
            Ok((d, after))
        },
        Err(e) => Err(e),
    }
}

/// Reads a whole text as one value.
///
/// The text must hold one value and nothing else but whitespace around it.
pub fn parse(text: &str) -> (r: Result<Data, E>)
    ensures
        match document(text@) {
            Ok(t) => r matches Ok(d) && d@ == t,
            Err(_) => r matches Err(e) && e@ == "Not Data"@,
        },
{
    let input = chars_of(text);
    match parse_data(input.as_slice(), 0) {
        Ok((d, end)) => {
            if end == input.len() {
                Ok(d)
            } else {
                Err(E("Not Data".to_owned()))
            }
        },
        Err(_) => Err(E("Not Data".to_owned())),
    }
}

impl std::str::FromStr for Data {
    type Err = E;

    fn from_str(s: &str) -> (r: Result<Data, E>)
        ensures
            match document(s@) {
                Ok(t) => r matches Ok(d) && d@ == t,
                Err(_) => r matches Err(e) && e@ == "Not Data"@,
            },
    {
        parse(s)
    }
}

} // verus!
