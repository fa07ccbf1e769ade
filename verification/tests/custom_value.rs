use tree_match::pattern::check::check_pattern;
use tree_match::pattern::matcher::pattern_match;
use tree_match::pattern::strict_matcher::strict_pattern_match;
use tree_match::pattern::{MatchKind, Matchable, Pattern, ValueTree};

/// A value of a host's own: numbers as atoms, and handles that nothing can
/// look into.
#[derive(Debug, PartialEq)]
enum Value {
    Number(i64),
    Handle(Handle),
    Point(Vec<Value>),
    Row(Vec<Value>),
}

#[derive(Debug, PartialEq)]
struct Handle(u8);

impl Matchable for Value {
    type Atom = i64;
    type Object = Handle;

    // The two items below exist for proofs only; nothing calls them when
    // the program runs.
    fn tree(&self) -> ValueTree<i64> {
        unreachable!()
    }

    fn atoms_are_comparable() {}

    fn kind(&self) -> MatchKind<Self> {
        match self {
            Value::Number(n) => MatchKind::Atom(n),
            Value::Handle(h) => MatchKind::Object(h),
            Value::Point(coordinates) => MatchKind::Cons("point", coordinates),
            Value::Row(members) => MatchKind::List(members),
        }
    }

    fn to_pattern(&self) -> Pattern<i64> {
        match self {
            Value::Number(n) => Pattern::Atom(*n),
            Value::Handle(_) => Pattern::Fail,
            Value::Point(coordinates) => {
                Pattern::Cons { name: "point".into(), params: coordinates.iter().map(|c| c.to_pattern()).collect() }
            },
            Value::Row(members) => Pattern::ExactList(members.iter().map(|m| m.to_pattern()).collect()),
        }
    }
}

fn capture(name: &str) -> Pattern<i64> {
    Pattern::CaptureVar(name.into())
}

fn template(name: &str) -> Pattern<i64> {
    Pattern::TemplateVar(name.into())
}

#[test]
fn should_match_values_of_another_kind() {
    let value = Value::Row(vec![
        Value::Point(vec![Value::Number(1), Value::Number(2)]),
        Value::Point(vec![Value::Number(3), Value::Number(3)]),
        Value::Number(3),
    ]);
    let pattern = Pattern::ListPath(vec![
        Pattern::Cons { name: "point".into(), params: vec![capture("x"), template("x")] },
        template("x"),
    ]);
    let checked = check_pattern(pattern).unwrap();
    let found = pattern_match(&checked, &value).collect();
    assert_eq!(found.len(), 1);
    assert_eq!(found[0], vec![("x".to_string(), &Value::Number(3))]);
    assert_eq!(strict_pattern_match(checked.pattern(), &value), found);
}

#[test]
fn should_capture_opaque_leaf_but_never_equal_it() {
    let value = Value::Row(vec![Value::Handle(Handle(7)), Value::Handle(Handle(7))]);

    let both = check_pattern(Pattern::ExactList(vec![capture("a"), capture("b")])).unwrap();
    let found = pattern_match(&both, &value).collect();
    assert_eq!(found.len(), 1);
    assert_eq!(found[0][0].1, &Value::Handle(Handle(7)));

    let same = check_pattern(Pattern::ExactList(vec![capture("a"), template("a")])).unwrap();
    assert_eq!(pattern_match(&same, &value).collect().len(), 0);

    let wild = check_pattern(Pattern::ExactList(vec![Pattern::Wild, Pattern::Wild])).unwrap();
    assert_eq!(pattern_match(&wild, &value).collect().len(), 1);

    let atom = check_pattern(Pattern::ExactList(vec![Pattern::Atom(7), Pattern::Wild])).unwrap();
    assert_eq!(pattern_match(&atom, &value).collect().len(), 0);
}

#[test]
fn should_never_match_fail() {
    let checked = check_pattern(Pattern::<i64>::Fail).unwrap();
    assert_eq!(checked.signature().len(), 0);
    assert_eq!(pattern_match(&checked, &Value::Number(1)).collect().len(), 0);
    let either = check_pattern(Pattern::Or(Box::new(Pattern::Fail), Box::new(Pattern::Atom(1)))).unwrap();
    assert_eq!(pattern_match(&either, &Value::Number(1)).collect().len(), 1);
    let both = check_pattern(Pattern::And(Box::new(Pattern::Wild), Box::new(Pattern::Fail))).unwrap();
    assert_eq!(pattern_match(&both, &Value::Number(1)).collect().len(), 0);
}
