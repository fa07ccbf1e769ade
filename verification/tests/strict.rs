use std::collections::HashMap;

use tree_match::data::Data;
use tree_match::pattern::matcher::MatchMap;
use tree_match::pattern::strict_matcher::{collapse, collapse_all, product};

fn map<'a>(entries: &[(&str, &'a Data)]) -> MatchMap<'a, Data> {
    entries.iter().map(|(name, data)| (name.to_string(), *data)).collect()
}

fn input<'a>(d1: &'a Data, d2: &'a Data) -> Vec<Vec<MatchMap<'a, Data>>> {
    vec![
        vec![map(&[("x", d1), ("y", d1)]), map(&[("x", d2), ("y", d2)])],
        vec![map(&[("z", d1), ("w", d1)]), map(&[("z", d2), ("w", d2)])],
    ]
}

#[test]
fn product_should_generate_hashmap_product() {
    let d1 = ":a".parse::<Data>().unwrap();
    let d2 = ":b".parse::<Data>().unwrap();
    let input: Vec<Vec<MatchMap<Data>>> = input(&d1, &d2);

    let output = product(input)
        .into_iter()
        .map(|x| x.into_iter().map(|y| y.into_iter().collect::<HashMap<_, _>>()).collect::<Vec<_>>())
        .collect::<Vec<_>>();

    assert_eq!(output.len(), 4);
    assert_eq!(output[0].len(), 2);
    assert_eq!(**output[0][0].get("x").unwrap(), d1);
    assert_eq!(**output[0][0].get("y").unwrap(), d1);
    assert_eq!(**output[0][1].get("z").unwrap(), d1);
    assert_eq!(**output[0][1].get("w").unwrap(), d1);

    assert_eq!(output[1].len(), 2);
    assert_eq!(**output[1][0].get("x").unwrap(), d2);
    assert_eq!(**output[1][0].get("y").unwrap(), d2);
    assert_eq!(**output[1][1].get("z").unwrap(), d1);
    assert_eq!(**output[1][1].get("w").unwrap(), d1);

    assert_eq!(output[2].len(), 2);
    assert_eq!(**output[2][0].get("x").unwrap(), d1);
    assert_eq!(**output[2][0].get("y").unwrap(), d1);
    assert_eq!(**output[2][1].get("z").unwrap(), d2);
    assert_eq!(**output[2][1].get("w").unwrap(), d2);

    assert_eq!(output[3].len(), 2);
    assert_eq!(**output[3][0].get("x").unwrap(), d2);
    assert_eq!(**output[3][0].get("y").unwrap(), d2);
    assert_eq!(**output[3][1].get("z").unwrap(), d2);
    assert_eq!(**output[3][1].get("w").unwrap(), d2);
}

#[test]
fn collapse_all_should_combine_hashmap_product() {
    let d1 = ":a".parse::<Data>().unwrap();
    let d2 = ":b".parse::<Data>().unwrap();
    let input: Vec<Vec<MatchMap<Data>>> = input(&d1, &d2);

    let output = collapse_all(product(input))
        .into_iter()
        .map(|x| x.into_iter().collect::<HashMap<_, _>>())
        .collect::<Vec<_>>();

    assert_eq!(output.len(), 4);
    assert_eq!(**output[0].get("x").unwrap(), d1);
    assert_eq!(**output[0].get("y").unwrap(), d1);
    assert_eq!(**output[0].get("z").unwrap(), d1);
    assert_eq!(**output[0].get("w").unwrap(), d1);

    assert_eq!(**output[1].get("x").unwrap(), d2);
    assert_eq!(**output[1].get("y").unwrap(), d2);
    assert_eq!(**output[1].get("z").unwrap(), d1);
    assert_eq!(**output[1].get("w").unwrap(), d1);

    assert_eq!(**output[2].get("x").unwrap(), d1);
    assert_eq!(**output[2].get("y").unwrap(), d1);
    assert_eq!(**output[2].get("z").unwrap(), d2);
    assert_eq!(**output[2].get("w").unwrap(), d2);

    assert_eq!(**output[3].get("x").unwrap(), d2);
    assert_eq!(**output[3].get("y").unwrap(), d2);
    assert_eq!(**output[3].get("z").unwrap(), d2);
    assert_eq!(**output[3].get("w").unwrap(), d2);
}

#[test]
fn product_should_take_one_of_each_list_with_the_first_list_fastest() {
    let (a, b, c) = (":a".parse::<Data>().unwrap(), ":b".parse::<Data>().unwrap(), ":c".parse::<Data>().unwrap());
    let lists = vec![
        vec![map(&[("p", &a)]), map(&[("p", &b)]), map(&[("p", &c)])],
        vec![map(&[("q", &a)]), map(&[("q", &b)])],
        vec![map(&[("r", &a)]), map(&[("r", &b)])],
    ];
    let output = product(lists.clone());
    assert_eq!(output.len(), 3 * 2 * 2);
    for (j, tuple) in output.iter().enumerate() {
        assert_eq!(tuple.len(), 3);
        assert_eq!(tuple[0], lists[0][j % 3]);
        assert_eq!(tuple[1], lists[1][(j / 3) % 2]);
        assert_eq!(tuple[2], lists[2][(j / 6) % 2]);
    }
}

#[test]
fn product_should_handle_few_and_empty_lists() {
    let a = ":a".parse::<Data>().unwrap();
    let none: Vec<Vec<MatchMap<Data>>> = vec![];
    assert_eq!(product(none).len(), 0);
    let one = vec![vec![map(&[("p", &a)]), map(&[])]];
    assert_eq!(product(one), vec![vec![map(&[("p", &a)])], vec![map(&[])]]);
    let with_empty = vec![vec![map(&[("p", &a)])], vec![]];
    assert_eq!(product(with_empty).len(), 0);
    let empty_first = vec![vec![], vec![map(&[("p", &a)])]];
    assert_eq!(product(empty_first).len(), 0);
}

#[test]
fn collapse_should_chain_bindings_in_order() {
    let (a, b) = (":a".parse::<Data>().unwrap(), ":b".parse::<Data>().unwrap());
    let joined = collapse(vec![map(&[("x", &a), ("y", &b)]), map(&[]), map(&[("z", &a)])]);
    assert_eq!(joined, map(&[("x", &a), ("y", &b), ("z", &a)]));
    assert_eq!(collapse(Vec::<MatchMap<Data>>::new()), map(&[]));
    let all = collapse_all(vec![vec![map(&[("x", &a)]), map(&[("y", &b)])], vec![], vec![map(&[("z", &b)])]]);
    assert_eq!(all, vec![map(&[("x", &a), ("y", &b)]), map(&[]), map(&[("z", &b)])]);
}
