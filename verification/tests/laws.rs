use tree_match::data::{Data, SymStr};
use tree_match::pattern::check::{check_pattern, TypeCheckError};
use tree_match::pattern::matcher::pattern_match;
use tree_match::pattern::strict_matcher::strict_pattern_match;
use tree_match::pattern::{Matchable, Pattern};

fn pattern(input: &str) -> Pattern<SymStr> {
    input.parse().expect(input)
}

fn data(input: &str) -> Data {
    input.parse().expect(input)
}

/// The results of matching, each as a list of names and shown values.
fn results(p: &str, d: &str) -> Vec<Vec<(String, String)>> {
    let checked = check_pattern(pattern(p)).expect(p);
    let value = data(d);
    let found = pattern_match(&checked, &value).collect();
    found.into_iter().map(|r| r.into_iter().map(|(name, v)| (name, v.to_text())).collect()).collect()
}

fn cross(first: &[Vec<(String, String)>], second: &[Vec<(String, String)>]) -> Vec<Vec<(String, String)>> {
    let mut all = Vec::new();
    for a in first {
        for b in second {
            let mut both = a.clone();
            both.extend(b.iter().cloned());
            all.push(both);
        }
    }
    all
}

#[test]
fn no_match_is_started_on_a_pattern_that_fails_the_check() {
    for bad in ["cons(^)", "cons()", "[%a]", "[a, a]", "a.or(b)"] {
        assert!(check_pattern(pattern(bad)).is_err(), "{bad}");
    }
    assert!(matches!(check_pattern(pattern("{| ^ |}")), Err(TypeCheckError::IncorrectNextUsage)));
}

#[test]
fn exact_sequence_of_another_length_has_no_result() {
    assert_eq!(results("[a, b]", "[:one]").len(), 0);
    assert_eq!(results("[a, b]", "[:one, :two, :three]").len(), 0);
    assert_eq!(results("[]", "[:one]").len(), 0);
    assert_eq!(results("[a]", "[]").len(), 0);
    assert_eq!(results("[a]", "cons(:one)").len(), 0);
}

#[test]
fn exact_sequence_has_the_product_of_the_counts_at_its_positions() {
    let first = results("[| a |]", "[:one, :two]");
    let second = results("[| b, c |]", "[:x, :y, :z, :w]");
    let third = results("d.or(d)", ":k");
    assert_eq!((first.len(), second.len(), third.len()), (2, 3, 2));
    let all = results("[ [| a |], [| b, c |], d.or(d) ]", "[ [:one, :two], [:x, :y, :z, :w], :k ]");
    assert_eq!(all.len(), 2 * 3 * 2);
    assert_eq!(all, cross(&first, &cross(&second, &third)));
    assert_eq!(results("[ [| a |], :no ]", "[ [:one, :two], :k ]").len(), 2 * 0);
}

#[test]
fn list_path_has_one_result_for_each_offset() {
    for (n, k) in [(5, 2), (4, 1), (3, 3), (6, 0), (0, 0)] {
        let items = vec!["_"; k].join(", ");
        let values = vec![":v"; n].join(", ");
        let found = results(&format!("[| {} |]", items), &format!("[{}]", values));
        assert_eq!(found.len(), n - k + 1, "n = {n}, k = {k}");
    }
    assert_eq!(results("[| _, _, _ |]", "[:a, :b]").len(), 0);
}

#[test]
fn list_path_binds_within_its_window_only() {
    let found = results("[| a, b |]", "[:one, :two, :three]");
    let at = |offset: &str| results("[a, b]", offset);
    let mut windows = at("[:one, :two]");
    windows.extend(at("[:two, :three]"));
    assert_eq!(found, windows);
}

#[test]
fn alternative_gives_the_results_of_both_sides() {
    let left = results("[| x, _ |]", "[:a, :b, :c]");
    let right = results("[_, _, x]", "[:a, :b, :c]");
    assert_eq!((left.len(), right.len()), (2, 1));
    let mut both = left.clone();
    both.extend(right);
    assert_eq!(results("[| x, _ |].or([_, _, x])", "[:a, :b, :c]"), both);
}

#[test]
fn conjunction_gives_the_cross_combination_of_both_sides() {
    let left = results("[| a, _ |]", "[:one, :two, :three]");
    let right = results("[| _, b |]", "[:one, :two, :three]");
    assert_eq!((left.len(), right.len()), (2, 2));
    assert_eq!(results("[| a, _ |].and([| _, b |])", "[:one, :two, :three]"), cross(&left, &right));
    assert_eq!(results("[| a, _ |].and(:no)", "[:one, :two, :three]").len(), 0);
}

#[test]
fn conjunction_with_back_reference_is_no_cross_combination() {
    assert_eq!(results("a.and(%a)", ":x").len(), 1);
    assert_eq!(strict_pattern_match(&pattern("%a"), &data(":x")).len(), 0);
}

#[test]
fn literal_pattern_of_a_value_matches_it_once_and_binds_nothing() {
    for text in [":a", "\"text\"", "[]", "[:a, [\"b\", []]]", "cons(:a, other([:b], \"c\"), [])"] {
        let value = data(text);
        let checked = check_pattern(value.to_pattern()).expect(text);
        assert_eq!(checked.signature().len(), 0);
        let found = pattern_match(&checked, &value).collect();
        assert_eq!(found.len(), 1, "{text}");
        assert_eq!(found[0].len(), 0, "{text}");
    }
}

#[test]
fn literal_pattern_of_a_value_matches_no_other_value() {
    let value = data("cons(:a, [\"b\", :c])");
    let checked = check_pattern(value.to_pattern()).unwrap();
    for other in ["cons(:a, [\"b\", :d])", "cons(:a, [\"b\"])", "cons(:a, [:b, :c])", "other(:a, [\"b\", :c])", ":a"] {
        assert_eq!(pattern_match(&checked, &data(other)).collect().len(), 0, "{other}");
    }
}

#[test]
fn literal_pattern_of_constructor_without_children_fails_the_check() {
    let value = data("[cons()]");
    assert!(matches!(check_pattern(value.to_pattern()), Err(TypeCheckError::ConsNeedsAtLeastOneParam)));
    assert_eq!(strict_pattern_match(&value.to_pattern(), &value).len(), 1);
}

#[test]
fn scenario_exact_sequence_with_capture() {
    assert_eq!(
        results("[\"1\", x, :a]", "[\"1\", \"2\", :a]"),
        vec![vec![("x".to_string(), "\"2\"".to_string())]]
    );
}

#[test]
fn scenario_path_fans_out_in_traversal_order() {
    let found = results("{| cons(^,^), [^,^], x |}", "cons([:a,:b],[:c,:d])");
    let values: Vec<&str> = found.iter().map(|r| r[0].1.as_str()).collect();
    assert_eq!(values, vec![":a", ":b", ":c", ":d"]);
}

#[test]
fn same_inputs_give_the_same_results_in_the_same_order() {
    let p = "[| {| cons(^, ^), a |}, b.or(b) |]";
    let d = "[cons(:one, :two), :x, cons(:three, :four), :y]";
    assert_eq!(results(p, d), results(p, d));
    assert_eq!(results(p, d).len(), 8);
}

#[test]
fn every_result_binds_the_names_of_the_signature() {
    let cases = [
        ("[| a, {| cons(^, ^), b |} |]", "[:x, cons(:one, :two), :y, cons(:three, :four)]"),
        ("cons(a, b).or(cons(b, a))", "cons(:one, :two)"),
        ("[a, _, _].and(b).and([_, c, %c])", "[:one, :x, :x]"),
        ("{| [^, ^], cons(a, [| b |]) |}", "[cons(:k, [:one, :two]), cons(:l, [:three])]"),
        ("[:a, \"b\", _]", "[:a, \"b\", :c]"),
    ];
    for (p, d) in cases {
        let checked = check_pattern(pattern(p)).expect(p);
        let value = data(d);
        let found = pattern_match(&checked, &value).collect();
        assert!(found.len() > 0, "{p}");
        for result in found {
            let mut names: Vec<String> = result.into_iter().map(|(name, _)| name).collect();
            names.sort();
            assert_eq!(&names, checked.signature(), "{p}");
        }
    }
}

#[test]
fn every_result_binds_parts_of_the_value() {
    fn parts<'a>(value: &'a Data, into: &mut Vec<&'a Data>) {
        into.push(value);
        match value {
            Data::Cons { params, .. } => params.iter().for_each(|p| parts(p, into)),
            Data::List(members) => members.iter().for_each(|m| parts(m, into)),
            Data::SymStr(_) => {},
        }
    }
    let checked = check_pattern(pattern("[| a, {| cons(^, ^), b |} |]")).unwrap();
    let value = data("[:x, cons(:one, [:two]), :y, cons(:three, :four)]");
    let mut all = Vec::new();
    parts(&value, &mut all);
    let found = pattern_match(&checked, &value).collect();
    assert_eq!(found.len(), 4);
    for result in found {
        for (_, bound) in result {
            assert!(all.iter().any(|part| std::ptr::eq(*part, bound)));
        }
    }
}
