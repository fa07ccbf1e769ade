use tree_match::data::SymStr;
use tree_match::pattern::parse::parse;
use tree_match::pattern::Pattern;

fn is_symbol(p: &Pattern<SymStr>) -> bool {
    matches!(p, Pattern::Atom(SymStr::Symbol(_)))
}

fn is_string(p: &Pattern<SymStr>) -> bool {
    matches!(p, Pattern::Atom(SymStr::String(_)))
}

#[test]
fn should_parse_template() {
    let input = "cons(%a, [%b, %c, d, :e] )";
    let pattern = input.parse::<Pattern<SymStr>>().unwrap();
    let mut matched = false;
    if let Pattern::Cons { .. } = pattern {
        matched = true;
    }
    assert!(matched);
}

#[test]
fn should_parse_nested_ends() {
    let input = "[] . and( :c . or ( \"e\" . or( \"1.0\" ) ) )";
    let pattern = input.parse::<Pattern<SymStr>>().unwrap();
    let mut matched = false;
    if let Pattern::And(a, b) = pattern {
        if let Pattern::Or(c, d) = *b {
            if let Pattern::Or(e, f) = *d {
                assert!(matches!(*a, Pattern::ExactList(_)));
                assert!(is_symbol(&c));
                assert!(is_string(&e));
                assert!(is_string(&f));
                matched = true;
            }
        }
    }
    assert!(matched);
}

#[test]
fn should_parse_multiple_alternating_ends() {
    let input = "[] . or ( \"1.0\" ) . and ( :b ) . or ( \"c\" )";
    let pattern = input.parse::<Pattern<SymStr>>().unwrap();
    let mut matched = false;
    if let Pattern::Or(a, b) = pattern {
        if let Pattern::And(c, d) = *a {
            if let Pattern::Or(e, f) = *c {
                assert!(is_string(&b));
                assert!(is_symbol(&d));
                assert!(matches!(*e, Pattern::ExactList(_)));
                assert!(is_string(&f));
                matched = true;
            }
        }
    }
    assert!(matched);
}

#[test]
fn should_parse_or() {
    let input = ":a . or ( \"1.0\" )";
    let pattern = input.parse::<Pattern<SymStr>>().unwrap();
    let mut matched = false;
    if let Pattern::Or(a, b) = pattern {
        assert!(is_symbol(&a));
        assert!(is_string(&b));
        matched = true;
    }
    assert!(matched);
}

#[test]
fn should_parse_and() {
    let input = ":a . and ( \"1.0\" )";
    let pattern = input.parse::<Pattern<SymStr>>().unwrap();
    let mut matched = false;
    if let Pattern::And(a, b) = pattern {
        assert!(is_symbol(&a));
        assert!(is_string(&b));
        matched = true;
    }
    assert!(matched);
}

#[test]
fn should_parse_path() {
    let input = "{| a, b, c |}";
    let pattern = input.parse::<Pattern<SymStr>>().unwrap();
    assert!(matches!(pattern, Pattern::Path(_)));
}

#[test]
fn should_parse_list_path() {
    let input = "[| a, b, c |]";
    let pattern = input.parse::<Pattern<SymStr>>().unwrap();
    assert!(matches!(pattern, Pattern::ListPath(_)));
}

#[test]
fn should_parse_complex_pattern() {
    let input = " name ( other ( one( :a, :b, num([:c, :d, :e, [:blarg]]) ) ) , :inner  )";
    let pattern = input.parse::<Pattern<SymStr>>().unwrap();
    let mut matched = false;
    if let Pattern::Cons { .. } = pattern {
        matched = true;
    }
    assert!(matched);
}

#[test]
fn parse_should_parse_cons() {
    let input = " name  ( :first, :inner, \"5.5\" )";
    let pattern = input.parse::<Pattern<SymStr>>().unwrap();

    let mut matched = false;
    if let Pattern::Cons { name, params } = pattern {
        if let [Pattern::Atom(SymStr::Symbol(a)), Pattern::Atom(SymStr::Symbol(b)), Pattern::Atom(SymStr::String(c))] =
            &params[..]
        {
            assert_eq!(*name, *"name");
            assert_eq!(**a, *"first");
            assert_eq!(**b, *"inner");
            assert_eq!(**c, *"5.5");
            matched = true;
        }
    }
    assert!(matched);
}

#[test]
fn should_parse_capture_var() {
    let input = " symbol_123 ";
    let pattern = input.parse::<Pattern<SymStr>>().unwrap();

    let mut matched = false;
    if let Pattern::CaptureVar(sym) = pattern {
        assert_eq!(*sym, *"symbol_123");
        matched = true;
    }
    assert!(matched);
}

#[test]
fn parse_should_parse_symbol() {
    let input = " :symbol_123 ";
    let pattern = input.parse::<Pattern<SymStr>>().unwrap();

    let mut matched = false;
    if let Pattern::Atom(SymStr::Symbol(sym)) = pattern {
        assert_eq!(*sym, *"symbol_123");
        matched = true;
    }
    assert!(matched);
}

#[test]
fn should_parse_wild() {
    let input = " _ ";
    let pattern = input.parse::<Pattern<SymStr>>().unwrap();

    let mut matched = false;
    if let Pattern::Wild = pattern {
        matched = true;
    }
    assert!(matched);
}

#[test]
fn should_parse_exact_list() {
    fn extract<'a>(p: &'a Pattern<SymStr>) -> &'a str {
        match p {
            Pattern::Atom(SymStr::Symbol(x)) => x,
            _ => panic!("extraction failure"),
        }
    }

    let input = " [ [], [:a, :b], [:c , :d, :e], :f] ";
    let pattern = input.parse::<Pattern<SymStr>>().unwrap();

    let mut matched = false;
    if let Pattern::ExactList(ref params) = pattern {
        if let [Pattern::ExactList(first), Pattern::ExactList(second), Pattern::ExactList(third), Pattern::Atom(SymStr::Symbol(f))] =
            &params[..]
        {
            assert_eq!(**f, *"f");
            assert_eq!(first.len(), 0);
            assert_eq!(second.len(), 2);
            assert_eq!(extract(&second[0]), "a");
            assert_eq!(extract(&second[1]), "b");
            assert_eq!(third.len(), 3);
            assert_eq!(extract(&third[0]), "c");
            assert_eq!(extract(&third[1]), "d");
            assert_eq!(extract(&third[2]), "e");
            matched = true;
        }
    }

    assert!(matched);
}

#[test]
fn should_parse_path_marker_and_template_variable() {
    assert!(matches!("^".parse::<Pattern<SymStr>>().unwrap(), Pattern::PathNext));
    match " %name_1 ".parse::<Pattern<SymStr>>().unwrap() {
        Pattern::TemplateVar(name) => assert_eq!(name, "name_1"),
        other => panic!("unexpected {:?}", other),
    }
}

#[test]
fn should_take_word_that_starts_with_underscore_as_capture() {
    match "_x".parse::<Pattern<SymStr>>().unwrap() {
        Pattern::CaptureVar(name) => assert_eq!(name, "_x"),
        other => panic!("unexpected {:?}", other),
    }
    match "and".parse::<Pattern<SymStr>>().unwrap() {
        Pattern::CaptureVar(name) => assert_eq!(name, "and"),
        other => panic!("unexpected {:?}", other),
    }
}

#[test]
fn should_parse_empty_brackets() {
    assert!(matches!("[| |]".parse::<Pattern<SymStr>>().unwrap(), Pattern::ListPath(ps) if ps.is_empty()));
    assert!(matches!("{| |}".parse::<Pattern<SymStr>>().unwrap(), Pattern::Path(ps) if ps.is_empty()));
    assert!(matches!("[]".parse::<Pattern<SymStr>>().unwrap(), Pattern::ExactList(ps) if ps.is_empty()));
    assert!(matches!("cons()".parse::<Pattern<SymStr>>().unwrap(), Pattern::Cons { params, .. } if params.is_empty()));
}

#[test]
fn should_bind_combinators_to_the_left() {
    match "a.and(b).or(c)".parse::<Pattern<SymStr>>().unwrap() {
        Pattern::Or(left, right) => {
            assert!(matches!(*left, Pattern::And(_, _)));
            assert!(matches!(*right, Pattern::CaptureVar(_)));
        },
        other => panic!("unexpected {:?}", other),
    }
}

#[test]
fn should_reject_what_is_no_pattern() {
    assert!("".parse::<Pattern<SymStr>>().is_err());
    assert!("[a".parse::<Pattern<SymStr>>().is_err());
    assert!("[| a ]".parse::<Pattern<SymStr>>().is_err());
    assert!("{| a }".parse::<Pattern<SymStr>>().is_err());
    assert!("cons(a".parse::<Pattern<SymStr>>().is_err());
    assert!("a b".parse::<Pattern<SymStr>>().is_err());
    assert!("a.and b".parse::<Pattern<SymStr>>().is_err());
    assert!("a.and(b".parse::<Pattern<SymStr>>().is_err());
    assert!("a.xor(b)".parse::<Pattern<SymStr>>().is_err());
    assert!("%".parse::<Pattern<SymStr>>().is_err());
    assert!("[%, a]".parse::<Pattern<SymStr>>().is_err());
    assert!(":".parse::<Pattern<SymStr>>().is_err());
}

#[test]
fn should_say_why_text_is_no_pattern() {
    let error = parse("[a").unwrap_err();
    assert_eq!(error.message(), "Not a Pattern");
}
