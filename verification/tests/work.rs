use tree_match::data::{Data, SymStr};
use tree_match::pattern::matcher::{Work, WorkPath, WorkQueue};
use tree_match::pattern::Pattern;

fn data(input: &str) -> Data {
    input.parse().expect(input)
}

fn pattern(input: &str) -> Pattern<SymStr> {
    input.parse().expect(input)
}

#[test]
fn work_queue_hands_out_the_latest_obligation_first() {
    let (a, b) = (pattern("a"), pattern("b"));
    let (x, y) = (data(":x"), data(":y"));
    let mut queue: WorkQueue<Data> = WorkQueue::new();
    assert!(queue.work_finished());
    assert!(queue.pop().is_none());
    queue.push((&a, &x));
    queue.push((&b, &y));
    assert!(!queue.work_finished());
    let copy = queue.clone();
    let (p, d) = queue.pop().unwrap();
    assert!(std::ptr::eq(p, &b) && std::ptr::eq(d, &y));
    let (p, d) = queue.pop().unwrap();
    assert!(std::ptr::eq(p, &a) && std::ptr::eq(d, &x));
    assert!(queue.work_finished());
    assert!(!copy.work_finished());
}

#[test]
fn work_path_starts_without_obligations() {
    let steps = vec![pattern("a"), pattern("b")];
    let x = data(":x");
    let mut none: WorkPath<Data> = WorkPath::empty();
    assert!(none.work_finished());
    assert!(none.pop().is_none());
    let mut scope: WorkPath<Data> = WorkPath::new(&steps);
    assert!(scope.work_finished());
    scope.push((&steps[0], &x));
    assert!(!scope.work_finished());
    assert!(!scope.clone().work_finished());
    let (p, d) = scope.pop().unwrap();
    assert!(std::ptr::eq(p, &steps[0]) && std::ptr::eq(d, &x));
    assert!(scope.work_finished());
}

#[test]
fn work_keeps_scopes_on_a_stack() {
    let steps = vec![pattern("[^]"), pattern("b")];
    let outer = pattern("_");
    let (x, y) = (data("[:x]"), data(":y"));
    let mut work: Work<Data> = Work::new();
    assert!(work.work_finished());
    assert!(work.pop().is_none());
    work.push((&outer, &y));
    assert!(!work.work_finished());
    work.path(&steps, &x);
    assert!(!work.work_finished());
    let (p, d) = work.pop().unwrap();
    assert!(std::ptr::eq(p, &steps[0]) && std::ptr::eq(d, &x));
    assert!(work.pop().is_none());
    work.next(&y);
    assert!(!work.work_finished());
    assert!(!work.clone().work_finished());
}
