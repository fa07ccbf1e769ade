use tree_match::data::{Data, SymStr};
use tree_match::pattern::{MatchKind, Matchable, Pattern};

fn data(input: &str) -> Data {
    input.parse().expect(input)
}

#[test]
fn should_show_values_as_they_are_written() {
    for text in [":a", "\"some text\"", "[]", "[:a]", "[:a, \"b\", []]", "cons(:a, other([:b], \"c\"), [])", "cons()"] {
        assert_eq!(data(text).to_text(), text);
    }
    assert_eq!(data("  cons ( :a ,[ :b,:c , ] ) ").to_text(), "cons(:a, [:b, :c])");
}

#[test]
fn should_show_characters_of_a_string_unescaped() {
    assert_eq!(data("\"a\\nb\"").to_text(), "\"a\nb\"");
    assert_eq!(data("\"a\\\"b\"").to_text(), "\"a\"b\"");
}

#[test]
fn should_read_back_what_it_shows() {
    for text in [":a", "\"some text\"", "[[], [[]]]", "cons(:a, other([:b], \"c\"), [])"] {
        let value = data(text);
        assert_eq!(data(&value.to_text()), value);
    }
}

#[test]
fn should_tell_symbol_from_string() {
    assert_eq!(SymStr::Symbol("a".into()), SymStr::Symbol("a".into()));
    assert_eq!(SymStr::String("a".into()), SymStr::String("a".into()));
    assert_ne!(SymStr::Symbol("a".into()), SymStr::String("a".into()));
    assert_ne!(SymStr::Symbol("a".into()), SymStr::Symbol("b".into()));
    assert_eq!(SymStr::Symbol("a".into()).clone(), SymStr::Symbol("a".into()));
}

#[test]
fn should_make_string_values_from_text() {
    assert_eq!(Data::from("text"), Data::SymStr(SymStr::String("text".into())));
    assert_eq!(Data::from("text".to_string()), Data::SymStr(SymStr::String("text".into())));
}

#[test]
fn should_classify_values() {
    assert!(matches!(data(":a").kind(), MatchKind::Atom(SymStr::Symbol(s)) if s == "a"));
    assert!(matches!(data("\"a\"").kind(), MatchKind::Atom(SymStr::String(s)) if s == "a"));
    assert!(matches!(data("cons(:a, :b)").kind(), MatchKind::Cons("cons", params) if params.len() == 2));
    assert!(matches!(data("[:a, :b, :c]").kind(), MatchKind::List(members) if members.len() == 3));
}

#[test]
fn should_make_the_literal_pattern_of_a_value() {
    match data("cons(:a, [\"b\"])").to_pattern() {
        Pattern::Cons { name, params } => {
            assert_eq!(name, "cons");
            assert!(matches!(&params[0], Pattern::Atom(SymStr::Symbol(s)) if s == "a"));
            match &params[1] {
                Pattern::ExactList(members) => {
                    assert!(matches!(&members[0], Pattern::Atom(SymStr::String(s)) if s == "b"));
                },
                other => panic!("unexpected {:?}", other),
            }
        },
        other => panic!("unexpected {:?}", other),
    }
}

#[test]
fn should_clone_patterns() {
    let text = "cons(a, [| %a, _ |], {| [^], :b.and(\"c\").or(x) |})";
    let pattern: Pattern<SymStr> = text.parse().unwrap();
    let copy = pattern.clone();
    assert_eq!(format!("{:?}", copy), format!("{:?}", pattern));
}

#[test]
fn should_tell_which_values_read_back() {
    for text in [":a", "\"some text, with marks: ()[]\"", "[]", "cons(:a, other([:b], \"c\"), [])", "cons()"] {
        let value = data(text);
        assert!(value.is_writable(), "{text}");
        assert!(value.reads_back(), "{text}");
        assert_eq!(data(&value.to_text()), value);
    }
}

#[test]
fn should_tell_which_values_do_not_read_back() {
    let quote = data("\"a\\\"b\"");
    assert!(!quote.is_writable());
    assert!(!quote.reads_back());
    assert!(quote.to_text().parse::<Data>().is_err());

    let slash = data("[\"a\\\\b\"]");
    assert!(!slash.reads_back());

    let odd_name = Data::SymStr(SymStr::Symbol("two words".into()));
    assert!(!odd_name.reads_back());
    assert!(odd_name.to_text().parse::<Data>().is_err());

    let digit_first = Data::Cons { name: "1st".into(), params: vec![] };
    assert!(!digit_first.reads_back());

    let no_name = Data::List(vec![Data::SymStr(SymStr::Symbol("".into()))]);
    assert!(!no_name.reads_back());
}

#[test]
fn should_make_values_from_boxed_text_and_from_lists() {
    let boxed: Box<str> = "text".into();
    assert_eq!(Data::from(boxed), Data::SymStr(SymStr::String("text".into())));
    assert_eq!(
        Data::from(vec!["a", "b"]),
        Data::List(vec![Data::SymStr(SymStr::String("a".into())), Data::SymStr(SymStr::String("b".into()))])
    );
    assert_eq!(
        Data::from(vec![vec!["a".to_string()], vec![]]),
        Data::List(vec![Data::List(vec![Data::SymStr(SymStr::String("a".into()))]), Data::List(vec![])])
    );
    assert_eq!(Data::from(Vec::<Data>::new()), Data::List(vec![]));
    assert_eq!(Data::from(vec![data(":a")]), Data::List(vec![data(":a")]));
}
