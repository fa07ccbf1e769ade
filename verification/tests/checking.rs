use tree_match::data::SymStr;
use tree_match::pattern::check::{
    check_cons_have_params, check_next_usage, check_pattern, check_template_usage, pattern_sig,
    pattern_sig_matches, TypeCheckError,
};
use tree_match::pattern::Pattern;

fn pattern(input: &str) -> Pattern<SymStr> {
    input.parse().expect(input)
}

fn names(list: &[&str]) -> Vec<String> {
    list.iter().map(|s| s.to_string()).collect()
}

#[test]
fn check_template_usage_should_pass() {
    fn t(input: &str) {
        let p: Pattern<SymStr> = input.parse().unwrap();
        let output = check_template_usage(&p);
        assert!(output.is_none(), "{input}");
    }

    t(":symbol");
    t("[:one, :two, :three]");
    t("[\"1\",:symbol, :three]");
    t("cons(:a, :b, :c)");
    t("cons(:a, [:a, :b], :c)");
    t("[| a, _, c |]");
    t("x");
    t("\"x\"");
    t("\"x\".and( :symbol )");
    t("\"x\".or( :symbol )");
    t("{| [ {| ^, :zero |}, ^], :four |}");
    t("[| a, b, c |]");

    t("[:one, :two, :three]");
    t("[a, b, [%a, %b], :three]");
    t("[a, b, %a, :three]");
    t("[a, b, [cons(%a, %b, c, %c)], :three]");
    t("{| [^, a], %a |}");
    t("[| a, b, [%a, %b] |]");
}

#[test]
fn check_template_usage_should_not_pass() {
    fn t(input: &str) {
        let p: Pattern<SymStr> = input.parse().unwrap();
        let output = check_template_usage(&p);
        assert!(output.is_some(), "{input}");
    }

    t("[%a]");
    t("cons(%a)");
    t("[|%a|]");
    t("{| ^, %a |}");
    t("[a, b, [%a, %c], :three]");
    t("[a, b, %c, :three]");
    t("[a, b, [cons(%a, %c, c, %c)], :three]");
    t("{| [^, a], %c |}");
    t("[| a, b, [%c, %b] |]");
}

#[test]
fn check_next_usage_should_pass() {
    fn t(input: &str) {
        let p: Pattern<SymStr> = input.parse().unwrap();
        let output = check_next_usage(&p);
        assert!(output, "{input}");
    }

    t(":symbol");
    t("[:one, :two, :three]");
    t("[\"1\",:symbol, :three]");
    t("cons(:a, :b, :c)");
    t("cons(:a, [:a, :b], :c)");
    t("[| a, _, c |]");
    t("x");
    t("\"x\"");
    t("\"x\".and( :symbol )");
    t("\"x\".or( :symbol )");

    t("{|  |}");
    t("{| x |}");
    t("{| [^, ^], :five |}");
    t("{| [cons( [:eight].and(^) ), :six], :five |}");
    t("{| [cons( [^].or(^) ), :six], :five |}");
    t("{| ^, cons(cons(^, ^)), a |}");
    t("{| [ {| ^, :zero |}, ^], :four |}");
}

#[test]
fn check_next_usage_should_fail() {
    fn t(input: &str) {
        let p: Pattern<SymStr> = input.parse().unwrap();
        let output = check_next_usage(&p);
        assert!(!output, "{input}");
    }

    t("{| [cons( [:eight].or(^) ), :six], :five |}");
    t("{| {| ^, :zero |}, :four |}");
    t("{| cons(^), ^ |}");
    t("cons(^)");
}

#[test]
fn next_usage_rejects_alternative_with_marker_on_one_side_only() {
    assert!(!check_next_usage(&pattern("{| [^, :x.or(^)], y |}")));
    assert!(!check_next_usage(&pattern("{| ^, [:eight].or(^) |}")));
    assert!(check_next_usage(&pattern("{| [^].or(cons(^, ^)), y |}")));
}

#[test]
fn next_usage_rejects_marker_in_last_step_and_step_without_marker() {
    assert!(!check_next_usage(&pattern("{| ^ |}")));
    assert!(!check_next_usage(&pattern("{| x, y |}")));
    assert!(!check_next_usage(&pattern("^")));
    assert!(!check_next_usage(&pattern("[^].and(x)")));
}

#[test]
fn cons_needs_at_least_one_param() {
    assert!(check_cons_have_params(&pattern("cons(x)")));
    assert!(check_cons_have_params(&pattern("[cons(x), other(y, z)]")));
    assert!(!check_cons_have_params(&pattern("cons()")));
    assert!(!check_cons_have_params(&pattern("[:a, {| [^], x.and(cons()) |}]")));
    assert!(matches!(check_pattern(pattern("[cons()]")), Err(TypeCheckError::ConsNeedsAtLeastOneParam)));
}

#[test]
fn template_check_reports_first_unknown_name() {
    match check_template_usage(&pattern("[a, %b, %c]")) {
        Some(TypeCheckError::TemplateReferencesUnknownCaptureVariable(name)) => assert_eq!(name, "b"),
        other => panic!("unexpected {:?}", other),
    }
    match check_pattern(pattern("[%a, a]")) {
        Err(TypeCheckError::TemplateReferencesUnknownCaptureVariable(name)) => assert_eq!(name, "a"),
        other => panic!("unexpected {:?}", other),
    }
}

#[test]
fn template_scope_follows_the_order_of_the_pattern_not_of_the_data() {
    assert!(check_template_usage(&pattern("[%a, a]")).is_some());
    assert!(check_template_usage(&pattern("[a, %a]")).is_none());
    assert!(check_template_usage(&pattern("[x, :a].or([%x, x])")).is_none());
    assert!(check_template_usage(&pattern("a.and(%a)")).is_none());
    assert!(check_template_usage(&pattern("%a.and(a)")).is_some());
}

#[test]
fn signature_is_the_set_of_captures() {
    assert_eq!(pattern_sig(&pattern("cons(b, [a, _], {| [^], c |})")).unwrap(), names(&["a", "b", "c"]));
    assert_eq!(pattern_sig(&pattern("[:a, \"b\", _, %x, ^]")).unwrap(), names(&[]));
    assert_eq!(pattern_sig(&pattern("x")).unwrap(), names(&["x"]));
    assert_eq!(pattern_sig(&pattern("[a, b].or([b, a])")).unwrap(), names(&["a", "b"]));
    assert_eq!(pattern_sig(&pattern("a.and([b, c])")).unwrap(), names(&["a", "b", "c"]));
}

#[test]
fn signature_reports_duplicate_slot() {
    assert!(matches!(pattern_sig(&pattern("[a, a]")), Err(TypeCheckError::DuplicateSlot)));
    assert!(matches!(pattern_sig(&pattern("cons(a, [b, a])")), Err(TypeCheckError::DuplicateSlot)));
    assert!(matches!(pattern_sig(&pattern("a.and(a)")), Err(TypeCheckError::DuplicateSlot)));
    assert!(matches!(pattern_sig(&pattern("{| [^, a], a |}")), Err(TypeCheckError::DuplicateSlot)));
    assert!(matches!(check_pattern(pattern("[| a, a |]")), Err(TypeCheckError::DuplicateSlot)));
}

#[test]
fn signature_reports_unequal_alternatives() {
    assert!(matches!(pattern_sig(&pattern("a.or(b)")), Err(TypeCheckError::OrPatternHasUnequalSig)));
    assert!(matches!(pattern_sig(&pattern("[a].or([a, b])")), Err(TypeCheckError::OrPatternHasUnequalSig)));
    assert!(matches!(check_pattern(pattern("[a].or(_)")), Err(TypeCheckError::OrPatternHasUnequalSig)));
}

#[test]
fn signature_reports_the_first_failing_part_before_a_duplicate() {
    assert!(matches!(pattern_sig(&pattern("[a, a, b.or(c)]")), Err(TypeCheckError::OrPatternHasUnequalSig)));
    assert!(matches!(pattern_sig(&pattern("[[x, x], a.or(b)]")), Err(TypeCheckError::DuplicateSlot)));
}

#[test]
fn check_runs_its_passes_in_order() {
    assert!(matches!(check_pattern(pattern("[^, cons(), %a, b, b]")), Err(TypeCheckError::IncorrectNextUsage)));
    assert!(matches!(check_pattern(pattern("[cons(), %a, b, b]")), Err(TypeCheckError::ConsNeedsAtLeastOneParam)));
    assert!(matches!(
        check_pattern(pattern("[%a, b, b]")),
        Err(TypeCheckError::TemplateReferencesUnknownCaptureVariable(_))
    ));
    assert!(matches!(check_pattern(pattern("[b, b]")), Err(TypeCheckError::DuplicateSlot)));
    assert!(check_pattern(pattern("[b, c]")).is_ok());
}

#[test]
fn checked_pattern_keeps_pattern_and_signature() {
    let checked = check_pattern(pattern("cons(x, [y])")).unwrap();
    assert!(matches!(checked.pattern(), Pattern::Cons { .. }));
    assert_eq!(checked.signature().clone(), names(&["x", "y"]));
}

#[test]
fn pattern_sig_matches_compares_sets_of_names() {
    let checked = check_pattern(pattern("cons(x, [y])")).unwrap();
    let matched = pattern_sig_matches(checked, names(&["y", "x"])).unwrap();
    assert_eq!(matched.checked().signature().clone(), names(&["x", "y"]));

    let checked = check_pattern(pattern("cons(x, [y])")).unwrap();
    match pattern_sig_matches(checked, names(&["x", "z"])) {
        Err(TypeCheckError::TypeDoesNotMatch { found, expected }) => {
            assert_eq!(found, names(&["x", "y"]));
            assert_eq!(expected, names(&["x", "z"]));
        },
        other => panic!("unexpected {:?}", other),
    }

    let checked = check_pattern(pattern("[:a]")).unwrap();
    assert!(pattern_sig_matches(checked, names(&[])).is_ok());
    let checked = check_pattern(pattern("[:a]")).unwrap();
    assert!(matches!(pattern_sig_matches(checked, names(&["a"])), Err(TypeCheckError::TypeDoesNotMatch { .. })));
}

#[test]
fn signature_stands_in_the_order_of_str() {
    assert_eq!(pattern_sig(&pattern("[c, [b, a]]")).unwrap(), names(&["a", "b", "c"]));
    assert_eq!(pattern_sig(&pattern("[a, _x, B, ab, \u{e9}, a1]")).unwrap(), names(&["B", "_x", "a", "a1", "ab", "\u{e9}"]));
    assert_eq!(pattern_sig(&pattern("[b, a].or([a, b])")).unwrap(), names(&["a", "b"]));
    let mut expected = names(&["zeta", "Alpha", "alpha", "_", "al"]);
    expected.sort();
    assert_eq!(pattern_sig(&pattern("cons(zeta, Alpha, alpha, _0, al)")).is_ok(), true);
    assert_eq!(pattern_sig(&pattern("cons(zeta, Alpha, alpha, al)")).unwrap(), names(&["Alpha", "al", "alpha", "zeta"]));
}
