use tree_match::pattern::names::{compare, copy_names, has_name, includes, insert_name, same_names, Order};

fn names(list: &[&str]) -> Vec<String> {
    list.iter().map(|s| s.to_string()).collect()
}

fn order(a: &str, b: &str) -> std::cmp::Ordering {
    match compare(a, b) {
        Order::Before => std::cmp::Ordering::Less,
        Order::Same => std::cmp::Ordering::Equal,
        Order::After => std::cmp::Ordering::Greater,
    }
}

#[test]
fn should_compare_texts_as_str_does() {
    let texts = ["", "a", "A", "ab", "abc", "abd", "b", "_", "\u{e9}", "\u{1F600}", "z\u{e9}", "a\u{0}"];
    for a in texts {
        for b in texts {
            assert_eq!(order(a, b), a.cmp(b), "{a:?} against {b:?}");
        }
    }
}

#[test]
fn should_insert_names_in_rising_order() {
    let mut list = Vec::new();
    for name in ["m", "a", "z", "b", "ab", "B"] {
        assert!(insert_name(&mut list, &name.to_string()));
    }
    assert_eq!(list, names(&["B", "a", "ab", "b", "m", "z"]));
    assert!(!insert_name(&mut list, &"ab".to_string()));
    assert_eq!(list, names(&["B", "a", "ab", "b", "m", "z"]));
}

#[test]
fn should_compare_lists_of_names_as_sets() {
    let list = names(&["a", "b", "c"]);
    assert!(has_name(&list, &"b".to_string()));
    assert!(!has_name(&list, &"d".to_string()));
    assert!(includes(&list, &names(&["c", "a"])));
    assert!(includes(&list, &names(&[])));
    assert!(!includes(&list, &names(&["a", "d"])));
    assert!(same_names(&list, &names(&["c", "b", "a", "a"])));
    assert!(!same_names(&list, &names(&["a", "b"])));
    assert_eq!(copy_names(&list), list);
}
