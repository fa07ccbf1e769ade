//! The lexical ground that the notations of values and of patterns share:
//! whitespace, words and string literals, each as a grammar over
//! characters and as a scanner that follows it.

use vstd::prelude::*;

verus! {

/// Why a parser stopped: `Error` leaves the caller free to try something
/// else at the same place, `Fatal` ends the whole parse.
#[derive(Debug, Clone, Copy, PartialEq, Eq)]
pub enum ParseError {
    Error,
    Fatal,
}

/// What a parser gives at a place in the input: a value and the place
/// after it, or why it stopped.
pub type Parsed<T> = Result<(T, int), ParseError>;

/// The characters that have the Unicode property White_Space.
pub open spec fn whitespace(c: char) -> bool {
    ||| '\u{9}' <= c <= '\u{d}'
    ||| c == ' '
    ||| c == '\u{85}'
    ||| c == '\u{a0}'
    ||| c == '\u{1680}'
    ||| '\u{2000}' <= c <= '\u{200a}'
    ||| c == '\u{2028}'
    ||| c == '\u{2029}'
    ||| c == '\u{202f}'
    ||| c == '\u{205f}'
    ||| c == '\u{3000}'
}

/// Whether `char::is_alphabetic` holds of `c`, a character beyond ASCII.
pub uninterp spec fn alphabetic_beyond_ascii(c: char) -> bool;

/// The characters that have the Unicode property Alphabetic: in ASCII the
/// letters, beyond it what `char::is_alphabetic` says.
pub open spec fn alphabetic(c: char) -> bool {
    if c <= '\u{7f}' {
        'a' <= c <= 'z' || 'A' <= c <= 'Z'
    } else {
        alphabetic_beyond_ascii(c)
    }
}

/// `char::is_whitespace` tells whether a character has the Unicode property
/// White_Space, a list of twenty-five characters.
pub assume_specification[ char::is_whitespace ](c: char) -> (r: bool)
    ensures
        r == whitespace(c),
;

/// `char::is_alphabetic` tells whether a character has the Unicode property
/// Alphabetic. In ASCII those are the letters; beyond ASCII the answer
/// depends on the character alone and is left as it comes.
pub assume_specification[ char::is_alphabetic ](c: char) -> (r: bool)
    ensures
        r == if c <= '\u{7f}' {
            'a' <= c <= 'z' || 'A' <= c <= 'Z'
        } else {
            alphabetic_beyond_ascii(c)
        },
;

/// `String::push` appends one character to the end of the string.
pub assume_specification[ std::string::String::push ](s: &mut std::string::String, c: char)
    ensures
        final(s)@ == old(s)@.push(c),
;

/// A decimal digit.
pub open spec fn digit(c: char) -> bool {
    '0' <= c <= '9'
}

/// A character that may start a word.
pub open spec fn word_start(c: char) -> bool {
    alphabetic(c) || c == '_'
}

/// A character that may go on a word.
pub open spec fn word_part(c: char) -> bool {
    alphabetic(c) || digit(c) || c == '_'
}

/// The place after the whitespace that stands at `at`.
pub open spec fn after_spaces(s: Seq<char>, at: int) -> int
    decreases s.len() - at,
{
    if 0 <= at < s.len() && whitespace(s[at]) {
        after_spaces(s, at + 1)
    } else {
        at
    }
}

/// The place after the word characters that stand at `at`.
pub open spec fn after_word(s: Seq<char>, at: int) -> int
    decreases s.len() - at,
{
    if 0 <= at < s.len() && word_part(s[at]) {
        after_word(s, at + 1)
    } else {
        at
    }
}

/// A word: a letter or underscore, then letters, digits and underscores, as
/// many as there are.
pub open spec fn word(s: Seq<char>, at: int) -> Parsed<Seq<char>> {
    if 0 <= at < s.len() && word_start(s[at]) {
        Ok((s.subrange(at, after_word(s, at + 1)), after_word(s, at + 1)))
    } else {
        Err(ParseError::Error)
    }
}

/// What the character after a backslash stands for, if it is an escape
/// code.
pub open spec fn escape(c: char) -> Option<char> {
    if c == 'n' {
        Some('\n')
    } else if c == 'r' {
        Some('\r')
    } else if c == 't' {
        Some('\t')
    } else if c == '\\' {
        Some('\\')
    } else if c == '0' {
        Some('\0')
    } else if c == '"' {
        Some('"')
    } else {
        None
    }
}

/// The characters of a string literal from `at` up to the quote that closes
/// it or the end of the input. A backslash must be followed by an escape
/// code.
pub open spec fn string_body(s: Seq<char>, at: int) -> Parsed<Seq<char>>
    decreases s.len() - at,
{
    if !(0 <= at < s.len()) || s[at] == '"' {
        Ok((Seq::empty(), at))
    } else if s[at] == '\\' {
        if at + 1 < s.len() && escape(s[at + 1]) is Some {
            match string_body(s, at + 2) {
                Ok((rest, end)) => Ok((seq![escape(s[at + 1])->0] + rest, end)),
                Err(e) => Err(e),
            }
        } else {
            Err(ParseError::Fatal)
        }
    } else {
        match string_body(s, at + 1) {
            Ok((rest, end)) => Ok((seq![s[at]] + rest, end)),
            Err(e) => Err(e),
        }
    }
}

/// A string literal: a quote, the body, a quote.
pub open spec fn string(s: Seq<char>, at: int) -> Parsed<Seq<char>> {
    if 0 <= at < s.len() && s[at] == '"' {
        match string_body(s, at + 1) {
            Ok((body, end)) => if end < s.len() && s[end] == '"' {
                Ok((body, end + 1))
            } else {
                Err(ParseError::Error)
            },
            Err(e) => Err(e),
        }
    } else {
        Err(ParseError::Error)
    }
}

/// Whether the character `c` stands at `at`.
pub open spec fn stands(s: Seq<char>, at: int, c: char) -> bool {
    0 <= at < s.len() && s[at] == c
}

/// The place after whitespace is not before it, and not beyond the input.
pub proof fn lemma_after_spaces(s: Seq<char>, at: int)
    requires
        0 <= at <= s.len(),
    ensures
        at <= after_spaces(s, at) <= s.len(),
    decreases s.len() - at,
{
    if at < s.len() && whitespace(s[at]) {
        lemma_after_spaces(s, at + 1);
    }
}

/// The place after word characters is not before them, and not beyond the
/// input.
pub proof fn lemma_after_word(s: Seq<char>, at: int)
    requires
        0 <= at <= s.len(),
    ensures
        at <= after_word(s, at) <= s.len(),
    decreases s.len() - at,
{
    if at < s.len() && word_part(s[at]) {
        lemma_after_word(s, at + 1);
    }
}

/// The characters of a text, in order.
pub fn chars_of(s: &str) -> (v: Vec<char>)
    ensures
        v@ == s@,
{
    let mut v: Vec<char> = Vec::new();
    for c in it: s.chars()
        invariant
            v@ == it.seq().subrange(0, it.index() as int),
            it.seq() == s@,
    {
        v.push(c);
        assert(v@ =~= it.seq().subrange(0, it.index() + 1));
    }
    assert(v@ =~= s@);
    v
}

/// Skips whitespace.
pub fn parse_whitespace(input: &[char], at: usize) -> (end: usize)
    ensures
        end == after_spaces(input@, at as int),
        at <= end,
        at <= input@.len() ==> end <= input@.len(),
{
    let mut i: usize = at;
    while i < input.len() && input[i].is_whitespace()
        invariant
            at <= i,
            at <= input@.len() ==> i <= input@.len(),
            after_spaces(input@, at as int) == after_spaces(input@, i as int),
        decreases input@.len() - i,
    {
        i += 1;
    }
    i
}

/// Takes one decimal digit.
pub fn parse_digit(input: &[char], at: usize) -> (r: Result<(char, usize), ParseError>)
    ensures
        r == if at < input@.len() && digit(input@[at as int]) {
            Ok::<(char, usize), ParseError>((input@[at as int], (at + 1) as usize))
        } else {
            Err::<(char, usize), ParseError>(ParseError::Error)
        },
{
    if at < input.len() && '0' <= input[at] && input[at] <= '9' {
        Ok((input[at], at + 1))
    } else {
        Err(ParseError::Error)
    }
}

/// Takes a word.
pub fn parse_word(input: &[char], at: usize) -> (r: Result<(String, usize), ParseError>)
    ensures
        match word(input@, at as int) {
            Ok((text, end)) => r matches Ok((w, e)) && w@ == text && e == end && at < e <= input@.len(),
            Err(e) => r == Err::<(String, usize), ParseError>(e),
        },
{
    if !(at < input.len() && (input[at].is_alphabetic() || input[at] == '_')) {
        return Err(ParseError::Error);
    }
    let mut w = String::new();
    w.push(input[at]);
    let mut i: usize = at + 1;
    assert(w@ =~= input@.subrange(at as int, i as int));
    while i < input.len() && (input[i].is_alphabetic() || parse_digit(input, i).is_ok() || input[i] == '_')
        invariant
            at < i <= input@.len(),
            w@ == input@.subrange(at as int, i as int),
            after_word(input@, at + 1) == after_word(input@, i as int),
        decreases input@.len() - i,
    {
        w.push(input[i]);
        assert(w@ =~= input@.subrange(at as int, i + 1));
        i += 1;
    }
    Ok((w, i))
}

/// What the character after a backslash stands for.
fn parse_code(c: char) -> (r: Option<char>)
    ensures
        r == escape(c),
{
    if c == 'n' {
        Some('\n')
    } else if c == 'r' {
        Some('\r')
    } else if c == 't' {
        Some('\t')
    } else if c == '\\' {
        Some('\\')
    } else if c == '0' {
        Some('\0')
    } else if c == '"' {
        Some('"')
    } else {
        None
    }
}

/// Takes a string literal and gives the text that it stands for.
pub fn parse_string(input: &[char], at: usize) -> (r: Result<(String, usize), ParseError>)
    ensures
        match string(input@, at as int) {
            Ok((text, end)) => r matches Ok((w, e)) && w@ == text && e == end && at < e <= input@.len(),
            Err(e) => r == Err::<(String, usize), ParseError>(e),
        },
{
    if !(at < input.len() && input[at] == '"') {
        return Err(ParseError::Error);
    }
    let mut text = String::new();
    let mut i: usize = at + 1;
    let ghost start = i as int;
    assert(text@ + Seq::<char>::empty() =~= Seq::<char>::empty());
    loop
        invariant
            at < i <= input@.len(),
            start == at + 1,
            stands(input@, at as int, '"'),
            match string_body(input@, i as int) {
                Ok((rest, end)) => string_body(input@, start) == Ok::<(Seq<char>, int), ParseError>(
                    (text@ + rest, end),
                ),
                Err(e) => string_body(input@, start) == Err::<(Seq<char>, int), ParseError>(e),
            },
        decreases input@.len() - i,
    {
        if i >= input.len() {
            assert(text@ + Seq::<char>::empty() =~= text@);
            return Err(ParseError::Error);
        }
        let c = input[i];
        if c == '"' {
            assert(text@ + Seq::<char>::empty() =~= text@);
            return Ok((text, i + 1));
        }
        if c == '\\' {
            if i + 1 >= input.len() {
                return Err(ParseError::Fatal);
            }
            match parse_code(input[i + 1]) {
                Some(code) => {
                    proof {
                        if let Ok((rest, end)) = string_body(input@, i + 2) {
                            assert(text@.push(code) + rest =~= text@ + (seq![code] + rest));
                        }
                    }
                    text.push(code);
                    i += 2;
                },
                None => {
                    return Err(ParseError::Fatal);
                },
            }
        } else {
            proof {
                if let Ok((rest, end)) = string_body(input@, i + 1) {
                    assert(text@.push(c) + rest =~= text@ + (seq![c] + rest));
                }
            }
            text.push(c);
            i += 1;
        }
    }
}

} // verus!
