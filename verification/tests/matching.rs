use std::collections::HashMap;

use tree_match::data::Data;
use tree_match::data::SymStr;
use tree_match::pattern::check::check_pattern;
use tree_match::pattern::matcher::pattern_match;
use tree_match::pattern::strict_matcher::strict_pattern_match;
use tree_match::pattern::Pattern;

/// Matches `pattern` against `data` and holds the results, in order, to
/// `expected`: one list of captures for each result.
fn expect(pattern: &str, data: &str, expected: &[&[(&str, &str)]]) {
    let pattern: Pattern<SymStr> = pattern.parse().expect(pattern);
    let data: Data = data.parse().expect(data);
    let type_checked_pattern = check_pattern(pattern).expect("pattern should pass the check");
    let mut results = pattern_match(&type_checked_pattern, &data).collect();
    assert_eq!(
        strict_pattern_match(type_checked_pattern.pattern(), &data),
        results,
        "the two matchers should agree"
    );
    for captures in expected {
        assert!(results.len() > 0, "fewer results than were tested");
        let r = results.remove(0);
        let r_len = r.len();
        let found = r.into_iter().collect::<HashMap<_, _>>();
        for (slot, value) in captures.iter() {
            let data = *found.get(&slot.to_string()).unwrap();
            assert_eq!(data, &value.parse::<Data>().unwrap(), "{} found incorrect result", slot);
        }
        assert_eq!(r_len, captures.len(), "more captures found than were tested");
    }
    assert_eq!(results.len(), 0, "more results than were tested");
}

#[test]
fn should_match_path_with_next_inside_list_path() {
    expect(
        "{| [| ^, :one |], cons(:a, a) |}",
        "[ cons(:a, :b), :one, cons(:a, :c), :one, cons(:a, :d), :two, cons(:x, :e), :one, cons(:a, :f), :one]",
        &[
            &[("a", ":b")],
            &[("a", ":c")],
            &[("a", ":f")],
        ],
    );
}

#[test]
fn should_match_or_with_path() {
    expect(
        "{| [^, ^], cons(a, :one) |}.or({| [^, ^], cons(a, :two) |})",
        "[cons(:zero, :two), cons(:nine, :two)]",
        &[
            &[("a", ":zero")],
            &[("a", ":nine")],
        ],
    );
}

#[test]
fn should_match_and_with_list_path() {
    expect(
        "[| a, b |].and( [| c, :five, d |] )",
        "[:one, :five, :two, :three, :five, :four]",
        &[
            &[("a", ":one"), ("b", ":five"), ("c", ":one"), ("d", ":two")],
            &[("a", ":one"), ("b", ":five"), ("c", ":three"), ("d", ":four")],
            &[("a", ":five"), ("b", ":two"), ("c", ":one"), ("d", ":two")],
            &[("a", ":five"), ("b", ":two"), ("c", ":three"), ("d", ":four")],
            &[("a", ":two"), ("b", ":three"), ("c", ":one"), ("d", ":two")],
            &[("a", ":two"), ("b", ":three"), ("c", ":three"), ("d", ":four")],
            &[("a", ":three"), ("b", ":five"), ("c", ":one"), ("d", ":two")],
            &[("a", ":three"), ("b", ":five"), ("c", ":three"), ("d", ":four")],
            &[("a", ":five"), ("b", ":four"), ("c", ":one"), ("d", ":two")],
            &[("a", ":five"), ("b", ":four"), ("c", ":three"), ("d", ":four")],
        ],
    );
}

#[test]
fn should_match_nested_or() {
    expect(
        "[x, :nine, :nine].or( [:zero, x, :two].or([:nine, :nine, x]) )",
        "[:zero, :one, :two]",
        &[
            &[("x", ":one")],
        ],
    );
}

#[test]
fn should_match_nested_and() {
    expect(
        "[x, :one, :two].and( [:zero, y, :two].and([:zero, :one, z]) )",
        "[:zero, :one, :two]",
        &[
            &[("x", ":zero"), ("y", ":one"), ("z", ":two")],
        ],
    );
}

#[test]
fn should_match_and() {
    expect(
        "[a].and(b)",
        "[:one]",
        &[
            &[("a", ":one"), ("b", "[:one]")],
        ],
    );
}

#[test]
fn should_match_chained_ands() {
    expect(
        "[a, _, _].and(b).and([_, :x, :y])",
        "[:one, :x, :y]",
        &[
            &[("a", ":one"), ("b", "[:one, :x, :y]")],
        ],
    );
}

#[test]
fn should_not_match_chained_ands() {
    expect(
        "[a, _, _].and(:seven).and([_, :x, :y])",
        "[:one, :x, :y]",
        &[],
    );
}

#[test]
fn should_match_or_with_first_passing() {
    expect(
        "[x].or(cons(x))",
        "[:one]",
        &[
            &[("x", ":one")],
        ],
    );
}

#[test]
fn should_match_or_with_second_passing() {
    expect(
        "[x].or(cons(x))",
        "cons(:one)",
        &[
            &[("x", ":one")],
        ],
    );
}

#[test]
fn should_match_or_both_passing() {
    expect(
        "cons(x).or(cons(x))",
        "cons(:one)",
        &[
            &[("x", ":one")],
            &[("x", ":one")],
        ],
    );
}

#[test]
fn should_match_chained_ors() {
    expect(
        "[x, :one].or([x, :two]).or([x, :three])",
        "[:zero, :three]",
        &[
            &[("x", ":zero")],
        ],
    );
}

#[test]
fn should_match_with_path_inside_of_list_path() {
    expect(
        "[| {| cons(^, ^), a |}, :target |]",
        "[ cons(:one, :two), :target, cons(:three, :four), :other ]",
        &[
            &[("a", ":one")],
            &[("a", ":two")],
        ],
    );
}

#[test]
fn should_match_list_path_in_list_path() {
    expect(
        "[| [| a, b |], [| c, d |] |]",
        "[ [:a, :b, :c], [:d, :e, :f], [:g, :h, :i] ]",
        &[
            &[("a", ":a"), ("b", ":b"), ("c", ":d"), ("d", ":e")],
            &[("a", ":a"), ("b", ":b"), ("c", ":e"), ("d", ":f")],
            &[("a", ":b"), ("b", ":c"), ("c", ":d"), ("d", ":e")],
            &[("a", ":b"), ("b", ":c"), ("c", ":e"), ("d", ":f")],
            &[("a", ":d"), ("b", ":e"), ("c", ":g"), ("d", ":h")],
            &[("a", ":d"), ("b", ":e"), ("c", ":h"), ("d", ":i")],
            &[("a", ":e"), ("b", ":f"), ("c", ":g"), ("d", ":h")],
            &[("a", ":e"), ("b", ":f"), ("c", ":h"), ("d", ":i")],
        ],
    );
}

#[test]
fn should_match_multiple_items_list_path() {
    expect(
        "[| a, b |]",
        "[:a, :b, :c, :d, :e]",
        &[
            &[("a", ":a"), ("b", ":b")],
            &[("a", ":b"), ("b", ":c")],
            &[("a", ":c"), ("b", ":d")],
            &[("a", ":d"), ("b", ":e")],
        ],
    );
}

#[test]
fn should_match_single_item_list_path() {
    expect(
        "[| a |]",
        "[:one, :two, :three, :four]",
        &[
            &[("a", ":one")],
            &[("a", ":two")],
            &[("a", ":three")],
            &[("a", ":four")],
        ],
    );
}

#[test]
fn should_not_match_empty_list_path_against_non_list() {
    expect(
        "[| |]",
        ":whatever",
        &[],
    );
}

#[test]
fn should_not_match_list_path_with_more_patterns_than_list() {
    expect(
        "[| :a, _ |]",
        "[:a]",
        &[],
    );
}

#[test]
fn should_match_multiple_paths_in_cons() {
    expect(
        "cons( {| cons(^, ^), [a, b] |}, {| cons(^, ^), [c, d] |} )",
        "cons( cons([:one, :two], [:three, :four]), cons([:five, :six,], [:seven, :eight]) )",
        &[
            &[("a", ":one"), ("b", ":two"), ("c", ":five"), ("d", ":six")],
            &[("a", ":one"), ("b", ":two"), ("c", ":seven"), ("d", ":eight")],
            &[("a", ":three"), ("b", ":four"), ("c", ":five"), ("d", ":six")],
            &[("a", ":three"), ("b", ":four"), ("c", ":seven"), ("d", ":eight")],
        ],
    );
}

#[test]
fn should_match_multiple_paths_in_list() {
    expect(
        "[ {| cons(^, ^), [a, b] |}, {| cons(^, ^), [c, d] |} ]",
        "[ cons([:one, :two], [:three, :four]), cons([:five, :six,], [:seven, :eight]) ]",
        &[
            &[("a", ":one"), ("b", ":two"), ("c", ":five"), ("d", ":six")],
            &[("a", ":one"), ("b", ":two"), ("c", ":seven"), ("d", ":eight")],
            &[("a", ":three"), ("b", ":four"), ("c", ":five"), ("d", ":six")],
            &[("a", ":three"), ("b", ":four"), ("c", ":seven"), ("d", ":eight")],
        ],
    );
}

#[test]
fn should_match_path_pattern_inside_of_path_pattern() {
    expect(
        "{| cons( {| inner(^, ^), inner(:one, a, b) |} , ^, ^), outer(:one, c, d) |}",
        "cons( inner(inner(:one, :a, :b), inner(:one, :c, :d)), outer(:one, :e, :f), outer(:one, :g, :h) )",
        &[
            &[("a", ":a"), ("b", ":b"), ("c", ":e"), ("d", ":f")],
            &[("a", ":a"), ("b", ":b"), ("c", ":g"), ("d", ":h")],
            &[("a", ":c"), ("b", ":d"), ("c", ":e"), ("d", ":f")],
            &[("a", ":c"), ("b", ":d"), ("c", ":g"), ("d", ":h")],
        ],
    );
}

#[test]
fn should_match_path_pattern_inside_of_path_pattern_and_ignore_failures() {
    expect(
        "{| cons( {| inner(^, ^), inner(:one, a, b) |} , ^, ^), outer(:one, c, d) |}",
        "cons( inner(inner(:two, :a, :b), inner(:one, :c, :d)), outer(:one, :e, :f), outer(:two, :g, :h) )",
        &[
            &[("a", ":c"), ("b", ":d"), ("c", ":e"), ("d", ":f")],
        ],
    );
}

#[test]
fn should_match_nested_nexts_in_path() {
    expect(
        "{| cons(cons(^, ^), ^), [^], x |}",
        "cons(cons([:a], [:b]), [:c])",
        &[
            &[("x", ":a")],
            &[("x", ":b")],
            &[("x", ":c")],
        ],
    );
}

#[test]
fn should_match_only_valid_paths() {
    expect(
        "{| cons(^, ^), [^], x |}",
        "cons([:a], :b)",
        &[
            &[("x", ":a")],
        ],
    );
}

#[test]
fn should_not_match_path() {
    expect(
        "{| cons(:whatever) |}",
        ":whatever",
        &[],
    );
}

#[test]
fn should_match_empty_path() {
    expect(
        "{| |}",
        ":whatever",
        &[
            &[],
        ],
    );
}

#[test]
fn should_match_multi_step_multi_next_path() {
    expect(
        "{| cons(^, ^), [^, ^], x |}",
        "cons( [:a, :b], [:c, :d] )",
        &[
            &[("x", ":a")],
            &[("x", ":b")],
            &[("x", ":c")],
            &[("x", ":d")],
        ],
    );
}

#[test]
fn should_match_path_and_path() {
    expect(
        "cons( {| cons(^, ^), [^], x |}, {| cons(^, ^), [^], y |} )",
        "cons( cons([:a], [:one]), cons([:b], [:two]) )",
        &[
            &[("x", ":a"), ("y", ":b")],
            &[("x", ":a"), ("y", ":two")],
            &[("x", ":one"), ("y", ":b")],
            &[("x", ":one"), ("y", ":two")],
        ],
    );
}

#[test]
fn should_match_path_and_capture_after() {
    expect(
        "cons( {| cons(^, ^), [^], x |}, outer )",
        "cons( cons([:a], [:one]), :outer )",
        &[
            &[("x", ":a"), ("outer", ":outer")],
            &[("x", ":one"), ("outer", ":outer")],
        ],
    );
}

#[test]
fn should_match_path_and_capture_before() {
    expect(
        "cons( outer, {| cons(^, ^), [^], x |} )",
        "cons( :outer, cons([:a], [:one]) )",
        &[
            &[("x", ":a"), ("outer", ":outer")],
            &[("x", ":one"), ("outer", ":outer")],
        ],
    );
}

#[test]
fn should_match_multiple_paths_with_cons_and_list() {
    expect(
        "{| cons(^, ^), [^], x |}",
        "cons([:a], [:one])",
        &[
            &[("x", ":a")],
            &[("x", ":one")],
        ],
    );
}

#[test]
fn should_match_path_with_capture_before() {
    expect(
        "{| cons(a, ^), [^], x |}",
        "cons(:one, [:a])",
        &[
            &[("a", ":one"), ("x", ":a")],
        ],
    );
}

#[test]
fn should_match_path_with_capture_after() {
    expect(
        "{| cons(^, a), [^], x |}",
        "cons([:a], :one)",
        &[
            &[("a", ":one"), ("x", ":a")],
        ],
    );
}

#[test]
fn should_match_path_with_cons_and_list() {
    expect(
        "{| cons(^, _), [^], x |}",
        "cons([:a], :one)",
        &[
            &[("x", ":a")],
        ],
    );
}

#[test]
fn should_match_wild() {
    expect(
        "_",
        "cons(:a, :b)",
        &[
            &[],
        ],
    );
}

#[test]
fn should_match_due_to_symbol() {
    expect(
        "cons(a, :b)",
        "cons(:a, :b)",
        &[
            &[("a", ":a")],
        ],
    );
}

#[test]
fn should_fail_match_due_to_symbol() {
    expect(
        "cons(a, :a)",
        "cons(:a, :b)",
        &[],
    );
}

#[test]
fn should_match_due_to_string() {
    expect(
        "cons(a, \"leta\")",
        "cons(:a, \"leta\")",
        &[
            &[("a", ":a")],
        ],
    );
}

#[test]
fn should_fail_match_due_to_string() {
    expect(
        "cons(a, \"leta\")",
        "cons(:a, \"letb\")",
        &[],
    );
}

#[test]
fn should_match_single_var() {
    expect(
        "x",
        "cons(:a)",
        &[
            &[("x", "cons(:a)")],
        ],
    );
}

#[test]
fn should_fail_match_due_to_nested_cons_internal_mismatch() {
    expect(
        "cons( :a, :b, :c, cons(:x) )",
        "cons(:a, :b, :c, cons(:a) )",
        &[],
    );
}

#[test]
fn should_fail_match_due_to_cons_internal_mismatch() {
    expect(
        "cons( :a, :b, :c, :x )",
        "cons(:a, :b, :c, :d)",
        &[],
    );
}

#[test]
fn should_fail_match_due_to_cons_name_mismatch() {
    expect(
        "other( x, y, z )",
        "cons(:a, :b, :c)",
        &[],
    );
}

#[test]
fn should_match_exact_list() {
    expect(
        "[:one, x, :a]",
        "[:one, :two, :a]",
        &[
            &[("x", ":two")],
        ],
    );
}

#[test]
fn should_match_empty_exact_list() {
    expect(
        "[]",
        "[]",
        &[
            &[],
        ],
    );
}

#[test]
fn should_fail_match_exact_list_due_to_length() {
    expect(
        "[:one, x, :a, :x]",
        "[:one, :two, :a]",
        &[],
    );
}

#[test]
fn should_fail_match_exact_list_due_to_value() {
    expect(
        "[:one, x, :a, :x]",
        "[:one, :two, :a, :y]",
        &[],
    );
}

#[test]
fn should_fail_match_exact_list_due_to_nested_list_mismatch() {
    expect(
        "[:one, x, :a, [:x, :x]]",
        "[:one, :two, :a, [:x, :y]]",
        &[],
    );
}

#[test]
fn should_fail_match_due_to_cons_length_mismatch() {
    expect(
        "cons( x, y, z )",
        "cons(:a, :b, :c, :d)",
        &[],
    );
}

#[test]
fn should_match_cons_with_vars() {
    expect(
        "cons( x, y, z )",
        "cons(:a, :b, :c)",
        &[
            &[("x", ":a"), ("y", ":b"), ("z", ":c")],
        ],
    );
}

#[test]
fn should_match_template_in_cons() {
    expect(
        "cons( a, %a )",
        "cons(:a, :a)",
        &[
            &[("a", ":a")],
        ],
    );
}

#[test]
fn should_not_match_template_in_cons() {
    expect(
        "cons( a, %a )",
        "cons(:a, :b)",
        &[],
    );
}

#[test]
fn should_match_template_in_exact_list() {
    expect(
        "[ a, %a ]",
        "[:a, :a]",
        &[
            &[("a", ":a")],
        ],
    );
}

#[test]
fn should_not_match_template_in_exact_list() {
    expect(
        "[ a, %a ]",
        "[:a, :b]",
        &[],
    );
}

#[test]
fn should_match_template_in_list_path() {
    expect(
        "[| a, %a |]",
        "[:a, :a, :b, :b, :c, :d, :d]",
        &[
            &[("a", ":a")],
            &[("a", ":b")],
            &[("a", ":d")],
        ],
    );
}

#[test]
fn should_match_template_in_path() {
    expect(
        "{| [^, ^, ^], cons(a, %a) |}",
        "[ cons(:a, :a), cons(:b, :b), cons(:c, :d)]",
        &[
            &[("a", ":a")],
            &[("a", ":b")],
        ],
    );
}

#[test]
fn should_match_template_in_and() {
    expect(
        "a.and( %a )",
        ":a",
        &[
            &[("a", ":a")],
        ],
    );
}

#[test]
fn should_not_match_template_in_and() {
    expect(
        "a.and( [%a] )",
        ":a",
        &[],
    );
}

#[test]
fn should_match_template_in_or() {
    expect(
        "cons(a, [%a]).or( cons(a, %a) )",
        "cons(:a, :a)",
        &[
            &[("a", ":a")],
        ],
    );
}

#[test]
fn should_not_match_template_in_or() {
    expect(
        "cons(a, %a).or( cons(a, %a) )",
        "cons(:a, :b)",
        &[],
    );
}

#[test]
fn should_match_template_with_template() {
    expect(
        "cons(a, [b, %a, %b ] )",
        "cons(:a, [:b, :a, :b])",
        &[
            &[("a", ":a"), ("b", ":b")],
        ],
    );
}

#[test]
fn should_not_match_template_with_template() {
    expect(
        "cons(a, [b, %a, %b] )",
        "cons(:a, [:b, :a, :c])",
        &[],
    );
}

#[test]
fn should_match_exact_list_nested_template() {
    expect(
        "[a, b, [[ %a, c ]], %c]",
        "[:a, :b, [[:a, :c]], :c]",
        &[
            &[("a", ":a"), ("b", ":b"), ("c", ":c")],
        ],
    );
}

#[test]
fn should_match_cons_nested_template() {
    expect(
        "cons(a, b, cons(cons( %a, c )), %c)",
        "cons(:a, :b, cons(cons( :a, :c)), :c)",
        &[
            &[("a", ":a"), ("b", ":b"), ("c", ":c")],
        ],
    );
}

#[test]
fn should_match_list_path_nested_template() {
    expect(
        "[a, b, [[| %a, c |]], %c]",
        "[:a, :b, [[:a, :c, :a, :c]], :c]",
        &[
            &[("a", ":a"), ("b", ":b"), ("c", ":c")],
            &[("a", ":a"), ("b", ":b"), ("c", ":c")],
        ],
    );
}

#[test]
fn should_match_path_nested_template() {
    expect(
        "[a, b, [{| [^, ^, %a], c |}], %c]",
        "[:a, :b, [[:x, :y, :a]], :x]",
        &[
            &[("a", ":a"), ("b", ":b"), ("c", ":x")],
        ],
    );
}

#[test]
fn should_match_and_nested_template() {
    expect(
        "[a, b.and( [%a, c] ), %c]",
        "[:a, [:a, :c], :c]",
        &[
            &[("a", ":a"), ("b", "[:a, :c]"), ("c", ":c")],
        ],
    );
}

#[test]
fn should_match_or_nested_template() {
    expect(
        "[a, [c].or( [%a, c] ), %c]",
        "[:a, [:a, :c], :c]",
        &[
            &[("a", ":a"), ("c", ":c")],
        ],
    );
}

#[test]
fn should_match_list_data_in_template() {
    expect(
        "[a, %a]",
        "[[:a], [:a]]",
        &[
            &[("a", "[:a]")],
        ],
    );
}

#[test]
fn should_match_cons_data_in_template() {
    expect(
        "[a, %a]",
        "[cons(:a), cons(:a)]",
        &[
            &[("a", "cons(:a)")],
        ],
    );
}

#[test]
fn should_match_string_data_in_template() {
    expect(
        "[a, %a]",
        "[\"a\", \"a\"]",
        &[
            &[("a", "\"a\"")],
        ],
    );
}

#[test]
fn should_match_empty_list_path() {
    expect("[| |]", "[:whatever]", &[&[], &[]]);
}

#[test]
fn should_match_empty_list_path_against_empty_list() {
    expect("[| |]", "[]", &[&[]]);
}

#[test]
fn should_match_atoms_of_the_same_kind_only() {
    expect("\"a\"", "\"a\"", &[&[]]);
    expect("\"a\"", ":a", &[]);
    expect(":a", "\"a\"", &[]);
    expect(":a", ":a", &[&[]]);
    expect(":a", ":b", &[]);
}

#[test]
fn should_keep_captures_in_the_order_they_were_made() {
    let pattern: Pattern<SymStr> = "cons(b, [a, c])".parse().unwrap();
    let data: Data = "cons(:one, [:two, :three])".parse().unwrap();
    let checked = check_pattern(pattern).unwrap();
    let results = pattern_match(&checked, &data).collect();
    assert_eq!(results.len(), 1);
    let names: Vec<&str> = results[0].iter().map(|(name, _)| name.as_str()).collect();
    assert_eq!(names, vec!["b", "a", "c"]);
}

#[test]
fn should_hand_out_results_one_at_a_time() {
    let pattern: Pattern<SymStr> = "[| a |]".parse().unwrap();
    let data: Data = "[:one, :two]".parse().unwrap();
    let checked = check_pattern(pattern).unwrap();
    let mut matches = pattern_match(&checked, &data);
    let first = matches.next().unwrap();
    assert_eq!(first[0].1, &":one".parse::<Data>().unwrap());
    let second = matches.next().unwrap();
    assert_eq!(second[0].1, &":two".parse::<Data>().unwrap());
    assert!(matches.next().is_none());
    assert!(matches.next().is_none());
}

#[test]
fn should_bind_references_into_the_value() {
    let pattern: Pattern<SymStr> = "cons(_, x)".parse().unwrap();
    let data: Data = "cons(:one, [:two])".parse().unwrap();
    let checked = check_pattern(pattern).unwrap();
    let results = pattern_match(&checked, &data).collect();
    let inner = match &data {
        Data::Cons { params, .. } => &params[1],
        _ => unreachable!(),
    };
    assert!(std::ptr::eq(results[0][0].1, inner));
}

#[test]
fn should_fail_template_that_nothing_is_bound_to_on_its_branch() {
    expect("[x, :a].or([%x, x])", "[:b, :b]", &[]);
    expect("[x, :a].or([%x, x])", "[:b, :a]", &[&[("x", ":b")]]);
}
