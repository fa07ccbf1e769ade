//! When showing a value and reading the text gives the value again.

use super::data::{shown, shown_all, Data, Leaf, SymStr};
use super::parse::{bare, cons, data, document, followed, items, list, symbol, text, with_comma};
use crate::parsing::{
    after_spaces, after_word, alphabetic, chars_of, digit, string, string_body, whitespace, word, word_part,
    word_start, ParseError,
};
use crate::pattern::ValueTree;
use vstd::prelude::*;

verus! {

/// A mark of the notation: a character that is neither whitespace nor part
/// of a word.
pub open spec fn mark(c: char) -> bool {
    !whitespace(c) && !alphabetic(c) && !digit(c) && c != '_'
}

/// The characters that the notation is written with: the space is
/// whitespace, and the colon, the quote, the brackets and the comma are
/// marks.
pub open spec fn marks_are_plain() -> bool {
    &&& whitespace(' ')
    &&& mark(':')
    &&& mark('"')
    &&& mark('(')
    &&& mark(')')
    &&& mark('[')
    &&& mark(']')
    &&& mark(',')
}

/// A name that reads as one word.
pub open spec fn is_word(name: Seq<char>) -> bool {
    &&& name.len() > 0
    &&& word_start(name[0])
    &&& !whitespace(name[0])
    &&& forall|i: int| 0 <= i < name.len() ==> word_part(#[trigger] name[i])
}

/// A text that can stand between quotes as it is.
pub open spec fn quotable(body: Seq<char>) -> bool {
    forall|i: int| 0 <= i < body.len() ==> #[trigger] body[i] != '"' && body[i] != '\\'
}

/// A value whose names are words and whose strings need no escape.
pub open spec fn writable(t: ValueTree<Leaf>) -> bool
    decreases t, 0int,
{
    match t {
        ValueTree::Atom(Leaf::Symbol(name)) => is_word(name),
        ValueTree::Atom(Leaf::Text(body)) => quotable(body),
        ValueTree::Object => false,
        ValueTree::Cons(name, cs) => is_word(name) && all_writable(cs),
        ValueTree::List(cs) => all_writable(cs),
    }
}

/// `writable` holds of each of `ts`.
pub open spec fn all_writable(ts: Seq<ValueTree<Leaf>>) -> bool
    decreases ts, 1int,
{
    forall|i: int| 0 <= i < ts.len() ==> writable(#[trigger] ts[i])
}

/// The characters of `part` stand in `s` from `at` on.
pub open spec fn sits(s: Seq<char>, at: int, part: Seq<char>) -> bool {
    0 <= at && at + part.len() <= s.len() && s.subrange(at, at + part.len()) == part
}

/// At `at` the input ends or a mark stands.
pub open spec fn item_ends(s: Seq<char>, at: int) -> bool {
    0 <= at <= s.len() && (at < s.len() ==> mark(s[at]))
}

proof fn lemma_sits_char(s: Seq<char>, at: int, part: Seq<char>, i: int)
    requires
        sits(s, at, part),
        0 <= i < part.len(),
    ensures
        s[at + i] == part[i],
{
    assert(s.subrange(at, at + part.len())[i] == part[i]);
}

proof fn lemma_sits_split(s: Seq<char>, at: int, a: Seq<char>, b: Seq<char>)
    requires
        sits(s, at, a + b),
    ensures
        sits(s, at, a),
        sits(s, at + a.len(), b),
{
    let whole = s.subrange(at, at + (a + b).len());
    assert(s.subrange(at, at + a.len()) =~= a) by {
        assert forall|i: int| 0 <= i < a.len() implies s[at + i] == a[i] by {
            assert(whole[i] == (a + b)[i]);
        }
    }
    assert(s.subrange(at + a.len(), at + a.len() + b.len()) =~= b) by {
        assert forall|i: int| 0 <= i < b.len() implies s[at + a.len() + i] == b[i] by {
            assert(whole[a.len() + i] == (a + b)[a.len() + i]);
        }
    }
}

proof fn lemma_no_spaces(s: Seq<char>, at: int)
    requires
        0 <= at <= s.len(),
        at < s.len() ==> !whitespace(s[at]),
    ensures
        after_spaces(s, at) == at,
{
}

proof fn lemma_word_goes_on(s: Seq<char>, from: int, to: int)
    requires
        0 <= from <= to <= s.len(),
        forall|i: int| from <= i < to ==> word_part(#[trigger] s[i]),
        to < s.len() ==> !word_part(s[to]),
    ensures
        after_word(s, from) == to,
    decreases to - from,
{
    if from < to {
        lemma_word_goes_on(s, from + 1, to);
    }
}

proof fn lemma_word_reads(name: Seq<char>, s: Seq<char>, at: int)
    requires
        is_word(name),
        sits(s, at, name),
        item_ends(s, at + name.len()),
    ensures
        word(s, at) == Ok::<(Seq<char>, int), ParseError>((name, at + name.len())),
{
    lemma_sits_char(s, at, name, 0);
    assert forall|i: int| at + 1 <= i < at + name.len() implies word_part(#[trigger] s[i]) by {
        lemma_sits_char(s, at, name, i - at);
    }
    lemma_word_goes_on(s, at + 1, at + name.len());
}

proof fn lemma_body_reads(body: Seq<char>, s: Seq<char>, at: int)
    requires
        quotable(body),
        sits(s, at, body),
        at + body.len() < s.len(),
        s[at + body.len()] == '"',
    ensures
        string_body(s, at) == Ok::<(Seq<char>, int), ParseError>((body, at + body.len())),
    decreases body.len(),
{
    if body.len() == 0 {
        assert(body =~= Seq::empty());
    } else {
        lemma_sits_char(s, at, body, 0);
        assert(body =~= seq![body[0]] + body.drop_first());
        lemma_sits_split(s, at, seq![body[0]], body.drop_first());
        assert forall|i: int| 0 <= i < body.drop_first().len() implies #[trigger] body.drop_first()[i] != '"'
            && body.drop_first()[i] != '\\' by {
            assert(body.drop_first()[i] == body[i + 1]);
        }
        lemma_body_reads(body.drop_first(), s, at + 1);
    }
}

proof fn lemma_string_reads(body: Seq<char>, s: Seq<char>, at: int)
    requires
        quotable(body),
        sits(s, at, seq!['"'] + body + seq!['"']),
    ensures
        string(s, at) == Ok::<(Seq<char>, int), ParseError>((body, at + body.len() + 2)),
{
    let whole = seq!['"'] + body + seq!['"'];
    lemma_sits_char(s, at, whole, 0);
    lemma_sits_char(s, at, whole, body.len() as int + 1);
    lemma_sits_split(s, at, seq!['"'] + body, seq!['"']);
    lemma_sits_split(s, at, seq!['"'], body);
    lemma_body_reads(body, s, at + 1);
}

/// The text of a value is not empty and starts with no whitespace.
proof fn lemma_shown_starts(t: ValueTree<Leaf>)
    requires
        marks_are_plain(),
        writable(t),
    ensures
        shown(t).len() > 0,
        !whitespace(shown(t)[0]),
{
}

/// The texts of values in a row, seen from the first one.
proof fn lemma_shown_all_first(ts: Seq<ValueTree<Leaf>>)
    requires
        ts.len() >= 2,
    ensures
        shown_all(ts) == shown(ts[0]) + seq![',', ' '] + shown_all(ts.drop_first()),
    decreases ts.len(),
{
    let rest = ts.drop_first();
    if ts.len() == 2 {
        assert(ts.drop_last()[0] == ts[0]);
        assert(shown_all(ts.drop_last()) == shown(ts[0]));
        assert(rest[0] == ts.last());
        assert(shown_all(rest) == shown(ts.last()));
    } else {
        lemma_shown_all_first(ts.drop_last());
        assert(ts.drop_last().drop_first() =~= rest.drop_last());
        assert(rest.last() == ts.last());
        assert(ts.drop_last()[0] == ts[0]);
        assert(shown_all(ts) =~= shown(ts[0]) + seq![',', ' '] + shown_all(rest));
    }
}

/// A bracket of the notation, with the one that closes it.
pub open spec fn brackets(open: char, close: char) -> bool {
    (open == '(' && close == ')') || (open == '[' && close == ']')
}

/// No value starts at a closing bracket or a comma.
proof fn lemma_no_value_at_mark(s: Seq<char>, at: int)
    requires
        marks_are_plain(),
        0 <= at < s.len(),
        s[at] == ')' || s[at] == ']' || s[at] == ',',
    ensures
        data(s, at) == Err::<(ValueTree<Leaf>, int), ParseError>(ParseError::Error),
        with_comma(s, at) == Err::<(ValueTree<Leaf>, int), ParseError>(ParseError::Error),
{
    lemma_no_spaces(s, at);
    assert(word(s, at) is Err);
    assert(cons(s, at) == Err::<(ValueTree<Leaf>, int), ParseError>(ParseError::Error));
    assert(items(s, at, '[', ']') is Err);
    assert(list(s, at) == Err::<(ValueTree<Leaf>, int), ParseError>(ParseError::Error));
    assert(symbol(s, at) == Err::<(ValueTree<Leaf>, int), ParseError>(ParseError::Error));
    assert(string(s, at) is Err);
    assert(text(s, at) == Err::<(ValueTree<Leaf>, int), ParseError>(ParseError::Error));
    assert(bare(s, at) == Err::<(ValueTree<Leaf>, int), ParseError>(ParseError::Error));
}

/// The text of a writable value, where it stands before a mark or the end
/// of the input, reads as the value.
proof fn lemma_value_reads(t: ValueTree<Leaf>, s: Seq<char>, at: int)
    requires
        marks_are_plain(),
        writable(t),
        sits(s, at, shown(t)),
        item_ends(s, at + shown(t).len()),
    ensures
        bare(s, at) == Ok::<(ValueTree<Leaf>, int), ParseError>((t, at + shown(t).len())),
        data(s, at) == Ok::<(ValueTree<Leaf>, int), ParseError>((t, at + shown(t).len())),
    decreases t, 0int,
{
    let end = at + shown(t).len();
    lemma_shown_starts(t);
    lemma_sits_char(s, at, shown(t), 0);
    lemma_no_spaces(s, at);
    lemma_no_spaces(s, end);
    match t {
        ValueTree::Atom(Leaf::Symbol(name)) => {
            lemma_sits_split(s, at, seq![':'], name);
            lemma_word_reads(name, s, at + 1);
            assert(word(s, at) is Err);
            assert(items(s, at, '[', ']') is Err);
        },
        ValueTree::Atom(Leaf::Text(body)) => {
            lemma_string_reads(body, s, at);
            assert(word(s, at) is Err);
            assert(items(s, at, '[', ']') is Err);
        },
        ValueTree::Object => {},
        ValueTree::Cons(name, cs) => {
            let inner = seq!['('] + shown_all(cs) + seq![')'];
            assert(shown(t) =~= name + inner);
            lemma_sits_split(s, at, name, inner);
            lemma_sits_char(s, at + name.len(), inner, 0);
            lemma_word_reads(name, s, at);
            lemma_no_spaces(s, at + name.len());
            lemma_items_read(cs, s, at + name.len(), '(', ')');
        },
        ValueTree::List(cs) => {
            assert(word(s, at) is Err);
            lemma_items_read(cs, s, at, '[', ']');
        },
    }
}

/// The texts of values in a row, where a closing bracket follows, read as
/// the values: all but the last are followed by a comma.
proof fn lemma_row_reads(cs: Seq<ValueTree<Leaf>>, s: Seq<char>, at: int)
    requires
        marks_are_plain(),
        cs.len() > 0,
        forall|i: int| 0 <= i < cs.len() ==> writable(#[trigger] cs[i]),
        sits(s, at, shown_all(cs)),
        at + shown_all(cs).len() < s.len(),
        s[at + shown_all(cs).len()] == ')' || s[at + shown_all(cs).len()] == ']',
    ensures
        shown_all(cs).len() >= shown(cs.last()).len(),
        followed(s, at) == Ok::<(Seq<ValueTree<Leaf>>, int), ParseError>(
            (cs.drop_last(), at + shown_all(cs).len() - shown(cs.last()).len()),
        ),
    decreases cs, 1int,
{
    let first = cs[0];
    lemma_shown_starts(first);
    if cs.len() == 1 {
        assert(cs.drop_last() =~= Seq::empty());
        let end = at + shown(first).len();
        lemma_value_reads(first, s, at);
        lemma_no_spaces(s, at);
        lemma_no_spaces(s, end);
        assert(with_comma(s, at) == Err::<(ValueTree<Leaf>, int), ParseError>(ParseError::Error));
    } else {
        let rest = cs.drop_first();
        lemma_shown_all_first(cs);
        let head = shown(first) + seq![',', ' '];
        assert(shown_all(cs) =~= head + shown_all(rest));
        lemma_sits_split(s, at, head, shown_all(rest));
        lemma_sits_split(s, at, shown(first), seq![',', ' ']);
        let comma = at + shown(first).len();
        lemma_sits_char(s, comma, seq![',', ' '], 0);
        lemma_sits_char(s, comma, seq![',', ' '], 1);
        lemma_value_reads(first, s, at);
        lemma_no_spaces(s, at);
        lemma_no_spaces(s, comma);
        assert forall|i: int| 0 <= i < rest.len() implies writable(#[trigger] rest[i]) by {
            assert(rest[i] == cs[i + 1]);
        }
        lemma_shown_starts(rest[0]);
        assert(shown_all(rest).len() > 0 && shown_all(rest)[0] == shown(rest[0])[0]) by {
            if rest.len() >= 2 {
                lemma_shown_all_first(rest);
            }
        }
        lemma_sits_char(s, comma + 2, shown_all(rest), 0);
        lemma_no_spaces(s, comma + 2);
        assert(after_spaces(s, comma + 1) == comma + 2);
        assert(with_comma(s, at) == Ok::<(ValueTree<Leaf>, int), ParseError>((first, comma + 2)));
        lemma_row_reads(rest, s, comma + 2);
        assert(rest.last() == cs.last());
        assert(seq![first] + rest.drop_last() =~= cs.drop_last());
    }
}

/// The texts of values in a row between brackets read as the values.
proof fn lemma_items_read(cs: Seq<ValueTree<Leaf>>, s: Seq<char>, at: int, open: char, close: char)
    requires
        marks_are_plain(),
        brackets(open, close),
        forall|i: int| 0 <= i < cs.len() ==> writable(#[trigger] cs[i]),
        sits(s, at, seq![open] + shown_all(cs) + seq![close]),
        item_ends(s, at + shown_all(cs).len() + 2),
    ensures
        items(s, at, open, close) == Ok::<(Seq<ValueTree<Leaf>>, int), ParseError>(
            (cs, at + shown_all(cs).len() + 2),
        ),
    decreases cs, 2int,
{
    let whole = seq![open] + shown_all(cs) + seq![close];
    let closing = at + 1 + shown_all(cs).len();
    lemma_sits_char(s, at, whole, 0);
    lemma_sits_char(s, at, whole, shown_all(cs).len() as int + 1);
    lemma_sits_split(s, at, seq![open] + shown_all(cs), seq![close]);
    lemma_sits_split(s, at, seq![open], shown_all(cs));
    lemma_no_spaces(s, at);
    lemma_no_spaces(s, closing);
    lemma_no_spaces(s, closing + 1);
    if cs.len() == 0 {
        lemma_no_value_at_mark(s, closing);
        assert(followed(s, at + 1) == Ok::<(Seq<ValueTree<Leaf>>, int), ParseError>((Seq::empty(), at + 1)));
        assert(cs =~= Seq::empty());
    } else {
        let last = cs.last();
        lemma_row_reads(cs, s, at + 1);
        let last_at = closing - shown(last).len();
        lemma_shown_starts(last);
        assert(sits(s, last_at, shown(last))) by {
            if cs.len() == 1 {
                assert(shown_all(cs) == shown(last));
            } else {
                let before = shown_all(cs.drop_last()) + seq![',', ' '];
                assert(shown_all(cs) =~= before + shown(last));
                lemma_sits_split(s, at + 1, before, shown(last));
            }
        }
        lemma_sits_char(s, last_at, shown(last), 0);
        lemma_no_spaces(s, last_at);
        lemma_value_reads(last, s, last_at);
        assert(cs.drop_last().push(last) =~= cs);
    }
}

/// The text that shows a writable value reads back as the value.
pub proof fn law_shown_value_reads_back(t: ValueTree<Leaf>)
    requires
        writable(t),
    ensures
        document(shown(t)) == Ok::<ValueTree<Leaf>, ParseError>(t),
{
    assert(marks_are_plain());
    let s = shown(t);
    assert(s.subrange(0, s.len() as int) =~= s);
    lemma_value_reads(t, s, 0);
}

/// Whether a name reads as one word.
fn reads_as_word(name: &String) -> (r: bool)
    ensures
        r == is_word(name@),
{
    let cs = chars_of(name.as_str());
    if cs.len() == 0 {
        return false;
    }
    if !(cs[0].is_alphabetic() || cs[0] == '_') || cs[0].is_whitespace() {
        return false;
    }
    let mut i: usize = 0;
    while i < cs.len()
        invariant
            i <= cs@.len(),
            cs@ == name@,
            forall|j: int| 0 <= j < i ==> word_part(#[trigger] cs@[j]),
        decreases cs@.len() - i,
    {
        let c = cs[i];
        if !(c.is_alphabetic() || ('0' <= c && c <= '9') || c == '_') {
            return false;
        }
        i += 1;
    }
    true
}

/// Whether a text can stand between quotes as it is.
fn needs_no_escape(body: &String) -> (r: bool)
    ensures
        r == quotable(body@),
{
    let cs = chars_of(body.as_str());
    let mut i: usize = 0;
    while i < cs.len()
        invariant
            i <= cs@.len(),
            cs@ == body@,
            forall|j: int| 0 <= j < i ==> #[trigger] cs@[j] != '"' && cs@[j] != '\\',
        decreases cs@.len() - i,
    {
        if cs[i] == '"' || cs[i] == '\\' {
            return false;
        }
        i += 1;
    }
    true
}

impl Data {
    /// Whether the names of this value are words and its strings need no
    /// escape.
    pub fn is_writable(&self) -> (r: bool)
        ensures
            r == writable(self@),
        decreases self, 0int,
    {
        match self {
            Data::SymStr(SymStr::Symbol(name)) => reads_as_word(name),
            Data::SymStr(SymStr::String(body)) => needs_no_escape(body),
            Data::Cons { name, params } => reads_as_word(name) && Self::are_writable(params),
            Data::List(ds) => Self::are_writable(ds),
        }
    }

    fn are_writable(ds: &Vec<Data>) -> (r: bool)
        ensures
            r == all_writable(Data::text_trees(ds@)),
        decreases ds, 1int,
    {
        let ghost all = Data::text_trees(ds@);
        proof {
            Self::lemma_text_trees(ds@);
        }
        let mut i: usize = 0;
        while i < ds.len()
            invariant
                i <= ds@.len(),
                all == Data::text_trees(ds@),
                all.len() == ds@.len(),
                forall|j: int| 0 <= j < ds@.len() ==> #[trigger] all[j] == ds@[j]@,
                forall|j: int| 0 <= j < i ==> writable(#[trigger] all[j]),
            decreases ds@.len() - i,
        {
            if !ds[i].is_writable() {
                assert(!writable(all[i as int]));
                return false;
            }
            i += 1;
        }
        true
    }

    /// Whether the text that shows this value reads back as the value: its
    /// names are words and its strings need no escape.
    pub fn reads_back(&self) -> (r: bool)
        ensures
            r == writable(self@),
            r ==> document(shown(self@)) == Ok::<ValueTree<Leaf>, ParseError>(self@),
    {
        let r = self.is_writable();
        proof {
            if r {
                law_shown_value_reads_back(self@);
            }
        }
        r
    }
}

} // verus!
