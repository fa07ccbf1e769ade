use tree_match::data::parse::parse;
use tree_match::data::{Data, SymStr};
use tree_match::parsing::{chars_of, parse_digit, parse_string, parse_whitespace, parse_word, ParseError};

fn symbol(name: &str) -> Data {
    Data::SymStr(SymStr::Symbol(name.into()))
}

fn string(text: &str) -> Data {
    Data::SymStr(SymStr::String(text.into()))
}

#[test]
fn should_parse_empty_string() {
    let input = chars_of("\"\"");
    let (output, _) = parse_string(&input, 0).unwrap();
    assert_eq!(*output, *"");
}

#[test]
fn should_parse_string() {
    let input = "\"blah \\t \\n \\r \\\\ \\0 \\\"  \"";
    let cs = chars_of(input);
    let (output, end) = parse_string(&cs, 0).unwrap();
    assert_eq!(*output, *"blah \t \n \r \\ \0 \"  ");
    assert_eq!(end, cs.len());
}

#[test]
fn should_parse_complex_data() {
    let input = " name  (  other ( one( :a, :b, num([:c, :d, :e, [:blarg]]) ) ) , :inner  )";
    let data = input.parse::<Data>().unwrap();
    let mut matched = false;
    if let Data::Cons { .. } = data {
        matched = true;
    }
    assert!(matched);
}

#[test]
fn should_parse_cons() {
    let input = " name  ( :first, :inner, :last )";
    let data = input.parse::<Data>().unwrap();

    let mut matched = false;
    if let Data::Cons { name, params } = data {
        if let [Data::SymStr(SymStr::Symbol(a)), Data::SymStr(SymStr::Symbol(b)), Data::SymStr(SymStr::Symbol(c))] =
            &params[..]
        {
            assert_eq!(*name, *"name");
            assert_eq!(**a, *"first");
            assert_eq!(**b, *"inner");
            assert_eq!(**c, *"last");
            matched = true;
        }
    }
    assert!(matched);
}

#[test]
fn should_parse_symbol() {
    let input = " :symbol_123 ";
    let data = input.parse::<Data>().unwrap();

    let mut matched = false;
    if let Data::SymStr(SymStr::Symbol(sym)) = data {
        assert_eq!(*sym, *"symbol_123");
        matched = true;
    }
    assert!(matched);
}

#[test]
fn should_parse_list() {
    let input = " [ [], [:a, :b], [:c , :d, :e], :f] ";
    let data = input.parse::<Data>().unwrap();

    let mut matched = false;
    if let Data::List(ref params) = data {
        if let [Data::List(first), Data::List(second), Data::List(third), Data::SymStr(SymStr::Symbol(last))] =
            &params[..]
        {
            assert_eq!(first.len(), 0);
            assert_eq!(second.len(), 2);
            assert_eq!(second[0], symbol("a"));
            assert_eq!(second[1], symbol("b"));
            assert_eq!(third.len(), 3);
            assert_eq!(third[0], symbol("c"));
            assert_eq!(third[1], symbol("d"));
            assert_eq!(third[2], symbol("e"));
            assert_eq!(**last, *"f");
            matched = true;
        }
    }

    assert!(matched);
}

#[test]
fn should_parse_string_data() {
    assert_eq!("\"a b\"".parse::<Data>().unwrap(), string("a b"));
    assert_eq!(" \"\" ".parse::<Data>().unwrap(), string(""));
    assert_eq!("\"line\\nbreak\"".parse::<Data>().unwrap(), string("line\nbreak"));
    assert_eq!("[\"a\", :a]".parse::<Data>().unwrap(), Data::List(vec![string("a"), symbol("a")]));
}

#[test]
fn should_accept_comma_after_last_item() {
    assert_eq!("[:a, :b,]".parse::<Data>().unwrap(), Data::List(vec![symbol("a"), symbol("b")]));
    assert_eq!(
        "cons(:a , )".parse::<Data>().unwrap(),
        Data::Cons { name: "cons".into(), params: vec![symbol("a")] }
    );
    assert_eq!("cons()".parse::<Data>().unwrap(), Data::Cons { name: "cons".into(), params: vec![] });
}

#[test]
fn should_reject_what_is_no_data() {
    assert!("".parse::<Data>().is_err());
    assert!("   ".parse::<Data>().is_err());
    assert!("[:a".parse::<Data>().is_err());
    assert!("[:a :b]".parse::<Data>().is_err());
    assert!("[,]".parse::<Data>().is_err());
    assert!("cons(:a]".parse::<Data>().is_err());
    assert!(":a :b".parse::<Data>().is_err());
    assert!(":1a".parse::<Data>().is_err());
    assert!("name".parse::<Data>().is_err());
    assert!("\"open".parse::<Data>().is_err());
    assert!("\"bad \\q escape\"".parse::<Data>().is_err());
    assert!("_".parse::<Data>().is_err());
    assert!("^".parse::<Data>().is_err());
}

#[test]
fn should_say_why_text_is_no_data() {
    let error = parse("[:a").unwrap_err();
    assert_eq!(error.message(), "Not Data");
}

#[test]
fn should_scan_whitespace_digits_and_words() {
    let input = chars_of(" \t\n x_1y z 9");
    assert_eq!(parse_whitespace(&input, 0), 4);
    assert_eq!(parse_whitespace(&input, 4), 4);
    assert_eq!(parse_word(&input, 4).unwrap(), ("x_1y".to_string(), 8));
    assert_eq!(parse_word(&input, 5).unwrap(), ("_1y".to_string(), 8));
    assert_eq!(parse_word(&input, 6), Err(ParseError::Error));
    assert_eq!(parse_word(&input, input.len()), Err(ParseError::Error));
    assert_eq!(parse_digit(&input, 6), Ok(('1', 7)));
    assert_eq!(parse_digit(&input, 4), Err(ParseError::Error));
    assert_eq!(parse_whitespace(&input, input.len()), input.len());
}

#[test]
fn should_tell_unfinished_escape_from_missing_quote() {
    let open = chars_of("\"abc");
    assert_eq!(parse_string(&open, 0), Err(ParseError::Error));
    let bad = chars_of("\"a\\qc\"");
    assert_eq!(parse_string(&bad, 0), Err(ParseError::Fatal));
    let cut = chars_of("\"a\\");
    assert_eq!(parse_string(&cut, 0), Err(ParseError::Fatal));
    let none = chars_of("abc");
    assert_eq!(parse_string(&none, 0), Err(ParseError::Error));
}

#[test]
fn should_read_unicode_letters_and_spaces() {
    assert_eq!("\u{a0}:\u{e9}t\u{e9}\u{2003}".parse::<Data>().unwrap(), symbol("\u{e9}t\u{e9}"));
}

#[test]
fn should_take_exactly_the_white_space_characters_as_whitespace() {
    fn listed(c: char) -> bool {
        matches!(
            c,
            '\u{9}'..='\u{d}'
                | ' '
                | '\u{85}'
                | '\u{a0}'
                | '\u{1680}'
                | '\u{2000}'..='\u{200a}'
                | '\u{2028}'
                | '\u{2029}'
                | '\u{202f}'
                | '\u{205f}'
                | '\u{3000}'
        )
    }
    let mut count = 0;
    for code in 0..=0x10ffffu32 {
        if let Some(c) = char::from_u32(code) {
            let skipped = parse_whitespace(&[c], 0) == 1;
            assert_eq!(skipped, listed(c), "U+{:04X}", code);
            if skipped {
                count += 1;
            }
        }
    }
    assert_eq!(count, 25);
}

#[test]
fn should_take_exactly_the_letters_as_ascii_word_starts() {
    for code in 0..=0x7fu32 {
        let c = char::from_u32(code).unwrap();
        let starts = parse_word(&[c], 0).is_ok();
        assert_eq!(starts, c.is_ascii_alphabetic() || c == '_', "U+{:04X}", code);
    }
    assert!(parse_word(&['\u{e9}'], 0).is_ok());
    assert!(parse_word(&['\u{4eac}'], 0).is_ok());
    assert!(parse_word(&['\u{1f49d}'], 0).is_err());
    assert!(parse_word(&['\u{d7}'], 0).is_err());
}
