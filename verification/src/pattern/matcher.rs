//! The matcher that finds one result after another.
//!
//! It keeps the branch of the search that it is on and a stack of branches
//! that it has put off. What is left of the search is `Matches::remaining`,
//! which starts as the solutions of the pattern and loses its first member
//! with every call of `next`.

use super::check::{verdict, CheckError, TypeChecked};
use super::data::{lemma_literal, literal, MatchKind, Matchable, Pattern, PatternTree, ValueTree};
use super::equivalence::{lemma_search_finds_solutions, lemma_search_item, start};
use super::search::{
    add_nexts, idle, join, pop_item, push_item, push_items, search, search_fan, search_windows, step_frame, tick, Frame, Item,
    Search,
};
use super::parts::{law_results_bind_parts_of_the_value, part_of};
use super::semantics::{lookup, same, solutions, Binding};
use super::soundness::{distinct_names, law_results_bind_the_signature, names_of};
use vstd::prelude::*;
use vstd::slice::slice_subrange;
use vstd::std_specs::cmp::PartialEqSpec;

verus! {

/// One match result: the captures in the order in which they were made,
/// each a name and the subtree that it stands for.
pub type MatchMap<'a, D> = Vec<(String, &'a D)>;

/// The trees of a run of values, in order.
pub open spec fn value_trees<D: Matchable>(ds: Seq<D>) -> Seq<ValueTree<D::Atom>> {
    Seq::new(ds.len(), |i: int| ds[i].tree())
}

/// The model of a match result.
pub open spec fn bindings<D: Matchable>(m: Seq<(String, &D)>) -> Seq<Binding<D::Atom>> {
    Seq::new(m.len(), |i: int| (m[i].0@, m[i].1.tree()))
}

/// Whether two texts hold the same characters.
pub(crate) fn same_text(a: &str, b: &str) -> (r: bool)
    ensures
        r == (a@ == b@),
{
    let x = a.as_bytes();
    let y = b.as_bytes();
    proof {
        vstd::utf8::encode_utf8_decode_utf8(a@);
        vstd::utf8::encode_utf8_decode_utf8(b@);
    }
    if x.len() != y.len() {
        return false;
    }
    let mut i: usize = 0;
    while i < x.len()
        invariant
            x@.len() == y@.len(),
            i <= x@.len(),
            forall|j: int| 0 <= j < i ==> x@[j] == y@[j],
            x@ == vstd::utf8::encode_utf8(a@),
            y@ == vstd::utf8::encode_utf8(b@),
            vstd::utf8::decode_utf8(x@) == a@,
            vstd::utf8::decode_utf8(y@) == b@,
        decreases x@.len() - i,
    {
        if x[i] != y[i] {
            return false;
        }
        i += 1;
    }
    assert(x@ =~= y@);
    true
}

/// The obligations of one path scope, the next one to take last.
pub struct WorkQueue<'p, 'a, D: Matchable> {
    queue: Vec<(&'p Pattern<D::Atom>, &'a D)>,
}

impl<'p, 'a, D: Matchable> View for WorkQueue<'p, 'a, D> {
    type V = Seq<Item<D::Atom>>;

    closed spec fn view(&self) -> Seq<Item<D::Atom>> {
        Seq::new(self.queue@.len(), |i: int| (self.queue@[i].0@, self.queue@[i].1.tree()))
    }
}

impl<'p, 'a, D: Matchable> Clone for WorkQueue<'p, 'a, D> {
    fn clone(&self) -> (r: Self)
        ensures
            r@ == self@,
    {
        let mut queue: Vec<(&'p Pattern<D::Atom>, &'a D)> = Vec::new();
        let mut i: usize = 0;
        while i < self.queue.len()
            invariant
                i <= self.queue@.len(),
                queue@ == self.queue@.subrange(0, i as int),
            decreases self.queue@.len() - i,
        {
            let item = self.queue[i];
            queue.push(item);
            assert(queue@ =~= self.queue@.subrange(0, i + 1));
            i += 1;
        }
        assert(queue@ =~= self.queue@);
        WorkQueue { queue }
    }
}

impl<'p, 'a, D: Matchable> WorkQueue<'p, 'a, D> {
    /// The empty queue.
    pub fn new() -> (r: Self)
        ensures
            r@ == Seq::<Item<D::Atom>>::empty(),
    {
        let r = WorkQueue { queue: Vec::new() };
        assert(r@ =~= Seq::empty());
        r
    }

    /// Adds an obligation, which is then the next one to take.
    pub fn push(&mut self, item: (&'p Pattern<D::Atom>, &'a D))
        ensures
            final(self)@ == old(self)@.push((item.0@, item.1.tree())),
    {
        self.queue.push(item);
        assert(self@ =~= old(self)@.push((item.0@, item.1.tree())));
    }

    /// Takes the next obligation, if there is one.
    pub fn pop(&mut self) -> (r: Option<(&'p Pattern<D::Atom>, &'a D)>)
        ensures
            match r {
                Some(item) => old(self)@.len() > 0 && final(self)@ == old(self)@.drop_last() && old(self)@.last() == (
                    item.0@,
                    item.1.tree(),
                ),
                None => old(self)@.len() == 0 && final(self)@ == old(self)@,
            },
    {
        let r = self.queue.pop();
        proof {
            if r is Some {
                assert(self@ =~= old(self)@.drop_last());
            } else {
                assert(self@ =~= old(self)@);
            }
        }
        r
    }

    /// Whether no obligation is left.
    pub fn work_finished(&self) -> (r: bool)
        ensures
            r == (self@.len() == 0),
    {
        self.queue.len() == 0
    }
}

/// The work of one path scope: its obligations, the steps of the path that
/// are still to run, and the continuation points that the running step has
/// collected.
pub struct WorkPath<'p, 'a, D: Matchable> {
    work: WorkQueue<'p, 'a, D>,
    path: &'p [Pattern<D::Atom>],
    nexts: Vec<&'a D>,
}

impl<'p, 'a, D: Matchable> View for WorkPath<'p, 'a, D> {
    type V = Frame<D::Atom>;

    closed spec fn view(&self) -> Frame<D::Atom> {
        Frame {
            queue: self.work@,
            steps: Pattern::trees(self.path@),
            nexts: Seq::new(self.nexts@.len(), |i: int| self.nexts@[i].tree()),
        }
    }
}

impl<'p, 'a, D: Matchable> Clone for WorkPath<'p, 'a, D> {
    fn clone(&self) -> (r: Self)
        ensures
            r@ == self@,
    {
        let mut nexts: Vec<&'a D> = Vec::new();
        let mut i: usize = 0;
        while i < self.nexts.len()
            invariant
                i <= self.nexts@.len(),
                nexts@ == self.nexts@.subrange(0, i as int),
            decreases self.nexts@.len() - i,
        {
            let next = self.nexts[i];
            nexts.push(next);
            assert(nexts@ =~= self.nexts@.subrange(0, i + 1));
            i += 1;
        }
        assert(nexts@ =~= self.nexts@);
        WorkPath { work: self.work.clone(), path: self.path, nexts }
    }
}

impl<'p, 'a, D: Matchable> WorkPath<'p, 'a, D> {
    /// A scope with nothing to do.
    pub fn empty() -> (r: Self)
        ensures
            r@ == (Frame::<D::Atom> { queue: Seq::empty(), steps: Seq::empty(), nexts: Seq::empty() }),
    {
        let none: &'p [Pattern<D::Atom>] = &[];
        assert(Pattern::trees(none@) =~= Seq::empty());
        Self::new(none)
    }

    /// A scope that has the steps `path` still to run.
    pub fn new(path: &'p [Pattern<D::Atom>]) -> (r: Self)
        ensures
            r@ == (Frame { queue: Seq::empty(), steps: Pattern::trees(path@), nexts: Seq::empty() }),
    {
        let r = WorkPath { work: WorkQueue::new(), path, nexts: Vec::new() };
        assert(r@.nexts =~= Seq::empty());
        r
    }

    /// Adds an obligation, which is then the next one to take.
    pub fn push(&mut self, item: (&'p Pattern<D::Atom>, &'a D))
        ensures
            final(self)@ == (Frame { queue: old(self)@.queue.push((item.0@, item.1.tree())), ..old(self)@ }),
    {
        self.work.push(item);
    }

    /// Takes the next obligation, if there is one.
    pub fn pop(&mut self) -> (r: Option<(&'p Pattern<D::Atom>, &'a D)>)
        ensures
            match r {
                Some(item) => old(self)@.queue.len() > 0 && final(self)@ == (Frame {
                    queue: old(self)@.queue.drop_last(),
                    ..old(self)@
                }) && old(self)@.queue.last() == (item.0@, item.1.tree()),
                None => old(self)@.queue.len() == 0 && final(self)@ == old(self)@,
            },
    {
        self.work.pop()
    }

    /// Whether no obligation is left.
    pub fn work_finished(&self) -> (r: bool)
        ensures
            r == (self@.queue.len() == 0),
    {
        self.work.work_finished()
    }
}

/// The work of one branch of the search: its path scopes, the innermost
/// last.
pub struct Work<'p, 'a, D: Matchable> {
    work: Vec<WorkPath<'p, 'a, D>>,
}

impl<'p, 'a, D: Matchable> View for Work<'p, 'a, D> {
    type V = Seq<Frame<D::Atom>>;

    closed spec fn view(&self) -> Seq<Frame<D::Atom>> {
        Seq::new(self.work@.len(), |i: int| self.work@[i]@)
    }
}

impl<'p, 'a, D: Matchable> Clone for Work<'p, 'a, D> {
    fn clone(&self) -> (r: Self)
        ensures
            r@ == self@,
    {
        let mut work: Vec<WorkPath<'p, 'a, D>> = Vec::new();
        let mut i: usize = 0;
        while i < self.work.len()
            invariant
                i <= self.work@.len(),
                work@.len() == i,
                forall|j: int| 0 <= j < i ==> (#[trigger] work@[j])@ == self.work@[j]@,
            decreases self.work@.len() - i,
        {
            let frame = self.work[i].clone();
            work.push(frame);
            i += 1;
        }
        let r = Work { work };
        assert(r@ =~= self@);
        r
    }
}

impl<'p, 'a, D: Matchable> Work<'p, 'a, D> {
    /// One scope with nothing to do.
    pub fn new() -> (r: Self)
        ensures
            r@ == seq![Frame::<D::Atom> { queue: Seq::empty(), steps: Seq::empty(), nexts: Seq::empty() }],
    {
        let mut work: Vec<WorkPath<'p, 'a, D>> = Vec::new();
        work.push(WorkPath::empty());
        let r = Work { work };
        assert(r@ =~= seq![Frame::<D::Atom> { queue: Seq::empty(), steps: Seq::empty(), nexts: Seq::empty() }]);
        r
    }

    /// Adds an obligation to the innermost scope.
    pub fn push(&mut self, item: (&'p Pattern<D::Atom>, &'a D))
        requires
            old(self)@.len() > 0,
        ensures
            final(self)@ == push_item(old(self)@, (item.0@, item.1.tree())),
    {
        let mut top = self.work.pop().unwrap();
        top.push(item);
        self.work.push(top);
        assert(self@ =~= push_item(old(self)@, (item.0@, item.1.tree())));
    }

    /// Takes the next obligation of the innermost scope, if it has one.
    pub fn pop(&mut self) -> (r: Option<(&'p Pattern<D::Atom>, &'a D)>)
        requires
            old(self)@.len() > 0,
        ensures
            match r {
                Some(item) => old(self)@.last().queue.len() > 0 && push_item(final(self)@, (item.0@, item.1.tree()))
                    == old(self)@ && final(self)@.len() > 0,
                None => old(self)@.last().queue.len() == 0 && final(self)@ == old(self)@,
            },
    {
        let mut top = self.work.pop().unwrap();
        let r = top.pop();
        self.work.push(top);
        proof {
            match r {
                Some(item) => {
                    let it = (item.0@, item.1.tree());
                    assert(old(self)@.last().queue.drop_last().push(it) =~= old(self)@.last().queue);
                    assert(push_item(self@, it) =~= old(self)@);
                },
                None => {
                    assert(self@ =~= old(self)@);
                },
            }
        }
        r
    }

    /// Whether only the outermost scope is left and has nothing to do.
    pub fn work_finished(&self) -> (r: bool)
        ensures
            r == (self@.len() == 1 && self@.last().queue.len() == 0),
    {
        self.work.len() == 1 && self.work[0].work_finished()
    }

    /// Opens a scope for a path: its first step becomes an obligation on
    /// `data`, the others wait.
    pub fn path(&mut self, patterns: &'p [Pattern<D::Atom>], data: &'a D)
        requires
            patterns@.len() > 0,
        ensures
            final(self)@ == old(self)@.push(step_frame(Pattern::trees(patterns@), data.tree())),
    {
        let rest = slice_subrange(patterns, 1, patterns.len());
        let mut frame = WorkPath::new(rest);
        frame.push((&patterns[0], data));
        self.work.push(frame);
        proof {
            let steps = Pattern::trees(patterns@);
            assert(Pattern::trees(rest@) =~= steps.drop_first());
            assert(frame@.queue =~= seq![(steps[0], data.tree())]);
            assert(self@ =~= old(self)@.push(step_frame(steps, data.tree())));
        }
    }

    /// Hands a continuation point to the innermost scope.
    pub fn next(&mut self, data: &'a D)
        requires
            old(self)@.len() > 0,
        ensures
            final(self)@ == add_nexts(old(self)@, seq![data.tree()]),
    {
        let mut top = self.work.pop().unwrap();
        top.nexts.push(data);
        self.work.push(top);
        proof {
            assert(top@.nexts =~= old(self)@.last().nexts + seq![data.tree()]);
            assert(self@ =~= add_nexts(old(self)@, seq![data.tree()]));
        }
    }

    /// Adds the obligations that pair `ps` with `ds` one for one; the first
    /// pair is the next one to take.
    fn push_all(&mut self, ps: &'p [Pattern<D::Atom>], ds: &'a [D])
        requires
            old(self)@.len() > 0,
            ps@.len() == ds@.len(),
        ensures
            final(self)@ == push_items(old(self)@, Pattern::trees(ps@), value_trees(ds@)),
    {
        let mut top = self.work.pop().unwrap();
        let ghost base = top@.queue;
        let ghost all = super::search::paired(Pattern::trees(ps@), value_trees(ds@));
        let n = ps.len();
        let mut i: usize = n;
        while i > 0
            invariant
                i <= n,
                n == ps@.len(),
                n == ds@.len(),
                all == super::search::paired(Pattern::trees(ps@), value_trees(ds@)),
                old(self)@.len() > 0,
                top@ == (Frame { queue: base + all.subrange(0, n - i), ..old(self)@.last() }),
            decreases i,
        {
            i -= 1;
            top.push((&ps[i], &ds[i]));
            proof {
                assert((base + all.subrange(0, n - i - 1)).push((ps@[i as int]@, ds@[i as int].tree())) =~= base
                    + all.subrange(0, n - i));
            }
        }
        self.work.push(top);
        proof {
            assert(all.subrange(0, n as int) =~= all);
            assert(self@ =~= push_items(old(self)@, Pattern::trees(ps@), value_trees(ds@)));
        }
    }
}

/// A copy of a match result.
pub(crate) fn copy_matches<'a, D: Matchable>(m: &MatchMap<'a, D>) -> (r: MatchMap<'a, D>)
    ensures
        r@ == m@,
{
    let mut out: MatchMap<'a, D> = Vec::new();
    let mut i: usize = 0;
    while i < m.len()
        invariant
            i <= m@.len(),
            out@ == m@.subrange(0, i as int),
        decreases m@.len() - i,
    {
        let name = m[i].0.clone();
        let data = m[i].1;
        out.push((name, data));
        assert(out@ =~= m@.subrange(0, i + 1));
        i += 1;
    }
    assert(out@ =~= m@);
    out
}

/// The value bound to `name`, the oldest binding first.
pub(crate) fn find<'a, D: Matchable>(m: &MatchMap<'a, D>, name: &String) -> (r: Option<&'a D>)
    ensures
        match lookup(bindings(m@), name@) {
            Some(t) => r matches Some(d) && d.tree() == t,
            None => r is None,
        },
{
    let ghost bs = bindings(m@);
    let mut i: usize = 0;
    assert(bs.subrange(0, bs.len() as int) =~= bs);
    while i < m.len()
        invariant
            i <= m@.len(),
            bs == bindings(m@),
            lookup(bs, name@) == lookup(bs.subrange(i as int, bs.len() as int), name@),
        decreases m@.len() - i,
    {
        let ghost here = bs.subrange(i as int, bs.len() as int);
        assert(here[0] == bs[i as int]);
        if m[i].0 == *name {
            return Some(m[i].1);
        }
        assert(here.drop_first() =~= bs.subrange(i + 1, bs.len() as int));
        i += 1;
    }
    assert(bs.subrange(i as int, bs.len() as int) =~= Seq::empty());
    None
}

/// Whether `data` is the value of which `lit` is the literal pattern.
pub(crate) fn equals<D: Matchable>(lit: &Pattern<D::Atom>, data: &D, Ghost(t): Ghost<ValueTree<D::Atom>>) -> (r: bool)
    requires
        lit@ == literal(t),
    ensures
        r == same(t, data.tree()),
    decreases lit,
{
    proof {
        lit.lemma_children();
        lemma_literal(t);
        D::atoms_are_comparable();
    }
    match lit {
        Pattern::Atom(a) => match data.kind() {
            MatchKind::Atom(b) => *a == *b,
            _ => false,
        },
        Pattern::Cons { name, params } => match data.kind() {
            MatchKind::Cons(dname, ds) => {
                if !same_text(name.as_str(), dname) || params.len() != ds.len() {
                    return false;
                }
                let ghost cs = t->Cons_1;
                let ghost vs = data.tree()->Cons_1;
                assert forall|j: int| 0 <= j < params@.len() implies (#[trigger] params@[j])@ == literal(
                    cs[j],
                ) by {
                    assert(Pattern::trees(params@)[j] == literal(cs[j]));
                }
                let mut i: usize = 0;
                while i < params.len()
                    invariant
                        i <= params@.len(),
                        params@.len() == ds@.len(),
                        *lit == (Pattern::Cons { name: *name, params: *params }),
                        t is Cons,
                        cs == t->Cons_1,
                        cs.len() == params@.len(),
                        forall|j: int| 0 <= j < params@.len() ==> (#[trigger] params@[j])@ == literal(cs[j]),
                        data.tree() is Cons,
                        data.tree()->Cons_0 == t->Cons_0,
                        vs == data.tree()->Cons_1,
                        vs.len() == ds@.len(),
                        forall|j: int| 0 <= j < ds@.len() ==> vs[j] == #[trigger] ds@[j].tree(),
                        forall|j: int| 0 <= j < i ==> same(cs[j], #[trigger] vs[j]),
                    decreases params@.len() - i,
                {
                    assert(decreases_to!(*lit => lit->params));
                    if !equals(&params[i], &ds[i], Ghost(cs[i as int])) {
                        assert(!same(cs[i as int], vs[i as int]));
                        return false;
                    }
                    i += 1;
                }
                true
            },
            _ => false,
        },
        Pattern::ExactList(ps) => match data.kind() {
            MatchKind::List(ds) => {
                if ps.len() != ds.len() {
                    return false;
                }
                let ghost cs = t->List_0;
                let ghost vs = data.tree()->List_0;
                assert forall|j: int| 0 <= j < ps@.len() implies (#[trigger] ps@[j])@ == literal(cs[j]) by {
                    assert(Pattern::trees(ps@)[j] == literal(cs[j]));
                }
                let mut i: usize = 0;
                while i < ps.len()
                    invariant
                        i <= ps@.len(),
                        ps@.len() == ds@.len(),
                        *lit == Pattern::ExactList(*ps),
                        t is List,
                        cs == t->List_0,
                        cs.len() == ps@.len(),
                        forall|j: int| 0 <= j < ps@.len() ==> (#[trigger] ps@[j])@ == literal(cs[j]),
                        data.tree() is List,
                        vs == data.tree()->List_0,
                        vs.len() == ds@.len(),
                        forall|j: int| 0 <= j < ds@.len() ==> vs[j] == #[trigger] ds@[j].tree(),
                        forall|j: int| 0 <= j < i ==> same(cs[j], #[trigger] vs[j]),
                    decreases ps@.len() - i,
                {
                    assert(decreases_to!(*lit => lit->ExactList_0));
                    if !equals(&ps[i], &ds[i], Ghost(cs[i as int])) {
                        assert(!same(cs[i as int], vs[i as int]));
                        return false;
                    }
                    i += 1;
                }
                true
            },
            _ => false,
        },
        _ => false,
    }
}

/// The stack without the scopes at its top that are done: those that have
/// no obligation left and either collected no continuation point or have
/// no step left to run on one.
pub open spec fn settled<A>(frames: Seq<Frame<A>>) -> Seq<Frame<A>>
    decreases frames.len(),
{
    if frames.len() > 0 && frames.last().queue.len() == 0 && (frames.last().nexts.len() == 0
        || frames.last().steps.len() == 0) {
        settled(frames.drop_last())
    } else {
        frames
    }
}

/// What the deferred branches find and take, the latest first.
pub open spec fn deferred<'p, 'a, D: Matchable>(future: Seq<(MatchMap<'a, D>, Work<'p, 'a, D>)>) -> Search<D::Atom>
    decreases future.len(),
{
    if future.len() == 0 {
        idle()
    } else {
        join(search(bindings(future.last().0@), future.last().1@), deferred(future.drop_last()))
    }
}

proof fn lemma_join_assoc<A>(a: Search<A>, b: Search<A>, c: Search<A>)
    ensures
        join(join(a, b), c) == join(a, join(b, c)),
{
    assert((a.found + b.found) + c.found =~= a.found + (b.found + c.found));
}

proof fn lemma_join_idle<A>(a: Search<A>)
    ensures
        join(idle(), a) == a,
        join(a, idle()) == a,
{
    assert(Seq::<Seq<Binding<A>>>::empty() + a.found =~= a.found);
    assert(a.found + Seq::<Seq<Binding<A>>>::empty() =~= a.found);
}

proof fn lemma_deferred_push<'p, 'a, D: Matchable>(
    future: Seq<(MatchMap<'a, D>, Work<'p, 'a, D>)>,
    branch: (MatchMap<'a, D>, Work<'p, 'a, D>),
)
    ensures
        deferred(future.push(branch)) == join(search(bindings(branch.0@), branch.1@), deferred(future)),
{
    assert(future.push(branch).drop_last() =~= future);
}

/// The results of a match, found one at a time.
///
/// The search keeps the branch it is on and, on a stack, the branches it
/// has put off; each holds the captures made so far and the work left.
pub struct Matches<'p, 'a, D: Matchable> {
    matches: MatchMap<'a, D>,
    current_work: Work<'p, 'a, D>,
    future_work: Vec<(MatchMap<'a, D>, Work<'p, 'a, D>)>,
    exhausted: bool,
}

impl<'p, 'a, D: Matchable> Matches<'p, 'a, D> {
    /// What is left of the search: what it will find and how long it takes.
    pub closed spec fn total(&self) -> Search<D::Atom> {
        if self.exhausted {
            idle()
        } else {
            join(search(bindings(self.matches@), self.current_work@), deferred(self.future_work@))
        }
    }

    /// What is left of the search when `item` is still to be met on the
    /// current branch.
    closed spec fn total_with(&self, item: Item<D::Atom>) -> Search<D::Atom> {
        join(search(bindings(self.matches@), push_item(self.current_work@, item)), deferred(self.future_work@))
    }

    /// The results that `next` has yet to hand out, in order.
    pub open spec fn remaining(&self) -> Seq<Seq<Binding<D::Atom>>> {
        self.total().found
    }

    /// This state is `before` gone on with its branch: the captures and the
    /// branches put off are as before, and the work is `frames`.
    closed spec fn went_on(self, before: Self, frames: Seq<Frame<D::Atom>>) -> bool {
        &&& !self.exhausted
        &&& self.matches@ == before.matches@
        &&& self.current_work@ == frames
        &&& self.future_work@ == before.future_work@
    }

    /// This state is `before` after its branch gave way: the latest branch
    /// put off is the current one, or the search is over where there was
    /// none.
    closed spec fn gave_way(self, before: Self) -> bool {
        if before.future_work@.len() > 0 {
            &&& !self.exhausted
            &&& self.matches == before.future_work@.last().0
            &&& self.current_work == before.future_work@.last().1
            &&& self.future_work@ == before.future_work@.drop_last()
        } else {
            &&& self.exhausted
            &&& self.future_work@ == before.future_work@
        }
    }

    /// This state is `before` with `ps` to be met on every window of `vs`:
    /// on the first window on the current branch, and on each other window
    /// on a branch put off, so that the branches are taken up again from
    /// the nearest window to the farthest.
    closed spec fn spread(self, before: Self, ps: Seq<PatternTree<D::Atom>>, vs: Seq<ValueTree<D::Atom>>) -> bool {
        let frames = before.current_work@;
        let held = before.future_work@;
        let more = vs.len() - ps.len();
        &&& !self.exhausted
        &&& self.matches@ == before.matches@
        &&& self.current_work@ == push_items(frames, ps, vs.subrange(0, ps.len() as int))
        &&& self.future_work@.len() == held.len() + more
        &&& self.future_work@.subrange(0, held.len() as int) == held
        &&& forall|i: int|
            1 <= i <= more ==> {
                let branch = #[trigger] self.future_work@[held.len() + more - i];
                &&& branch.0@ == before.matches@
                &&& branch.1@ == push_items(frames, ps, vs.subrange(i, i + ps.len()))
            }
    }

    /// Leaves the current branch for the latest one put off, if any.
    fn backtrack(&mut self)
        ensures
            final(self).gave_way(*old(self)),
            final(self).total() == deferred(old(self).future_work@),
    {
        match self.future_work.pop() {
            Some((matches, work)) => {
                self.matches = matches;
                self.current_work = work;
                self.exhausted = false;
                assert(self.future_work@ =~= old(self).future_work@.drop_last());
            },
            None => {
                self.exhausted = true;
            },
        }
    }

    /// Puts off a branch that has the captures of the current one.
    fn defer(&mut self, work: Work<'p, 'a, D>)
        ensures
            final(self).matches == old(self).matches,
            final(self).current_work == old(self).current_work,
            final(self).exhausted == old(self).exhausted,
            final(self).future_work@.len() == old(self).future_work@.len() + 1,
            final(self).future_work@.drop_last() == old(self).future_work@,
            final(self).future_work@.last().0@ == old(self).matches@,
            final(self).future_work@.last().1 == work,
            deferred(final(self).future_work@) == join(
                search(bindings(old(self).matches@), work@),
                deferred(old(self).future_work@),
            ),
    {
        let matches = copy_matches(&self.matches);
        proof {
            lemma_deferred_push(self.future_work@, (matches, work));
        }
        self.future_work.push((matches, work));
        assert(self.future_work@.drop_last() =~= old(self).future_work@);
    }

    /// Matches `ps` on every window of `ds`: the first window on the
    /// current branch, the others on branches put off, nearest window first.
    fn branch_windows(&mut self, ps: &'p [Pattern<D::Atom>], ds: &'a [D])
        requires
            !old(self).exhausted,
            old(self).current_work@.len() > 0,
            ps@.len() <= ds@.len(),
        ensures
            final(self).spread(*old(self), Pattern::trees(ps@), value_trees(ds@)),
            final(self).total() == join(
                search_windows(
                    bindings(old(self).matches@),
                    old(self).current_work@,
                    Pattern::trees(ps@),
                    value_trees(ds@),
                    0,
                ),
                deferred(old(self).future_work@),
            ),
    {
        let ghost bs = bindings(self.matches@);
        let ghost frames = self.current_work@;
        let ghost pats = Pattern::trees(ps@);
        let ghost vals = value_trees(ds@);
        let ghost held = self.future_work@;
        let ghost before = deferred(self.future_work@);
        let k = ps.len();
        let n = ds.len();
        let more = n - k;
        let mut i: usize = more;
        proof {
            lemma_join_idle(before);
            assert(self.future_work@.subrange(0, held.len() as int) =~= held);
        }
        while i > 0
            invariant
                k == ps@.len(),
                n == ds@.len(),
                more == n - k,
                i <= more,
                !self.exhausted,
                self.matches@ == old(self).matches@,
                bs == bindings(self.matches@),
                frames == self.current_work@,
                frames.len() > 0,
                pats == Pattern::trees(ps@),
                vals == value_trees(ds@),
                self.future_work@.len() == held.len() + more - i,
                self.future_work@.subrange(0, held.len() as int) == held,
                forall|j: int|
                    i < j <= more ==> {
                        let branch = #[trigger] self.future_work@[held.len() + more - j];
                        &&& branch.0@ == old(self).matches@
                        &&& branch.1@ == push_items(frames, pats, vals.subrange(j, j + k))
                    },
                deferred(self.future_work@) == join(search_windows(bs, frames, pats, vals, i + 1), before),
            decreases i,
        {
            let ghost so_far = self.future_work@;
            let window = slice_subrange(ds, i, i + k);
            let mut work = self.current_work.clone();
            work.push_all(ps, window);
            proof {
                assert(value_trees(window@) =~= vals.subrange(i as int, i + k));
                lemma_join_assoc(
                    search(bs, push_items(frames, pats, vals.subrange(i as int, i + k))),
                    search_windows(bs, frames, pats, vals, i + 1),
                    before,
                );
            }
            self.defer(work);
            proof {
                let now = self.future_work@;
                assert(now.drop_last() == so_far);
                assert(now.subrange(0, held.len() as int) =~= held) by {
                    assert forall|x: int| 0 <= x < held.len() implies now[x] == held[x] by {
                        assert(now.drop_last()[x] == so_far[x]);
                        assert(so_far.subrange(0, held.len() as int)[x] == held[x]);
                    }
                }
                assert forall|j: int| i <= j <= more implies ({
                    let branch = #[trigger] now[held.len() + more - j];
                    &&& branch.0@ == old(self).matches@
                    &&& branch.1@ == push_items(frames, pats, vals.subrange(j, j + k))
                }) by {
                    let at = held.len() + more - j;
                    if j > i {
                        assert(now.drop_last()[at] == so_far[at]);
                    } else {
                        assert(now[at] == now.last());
                    }
                }
            }
            i -= 1;
        }
        let window = slice_subrange(ds, 0, k);
        proof {
            assert(value_trees(window@) =~= vals.subrange(0, k as int));
            lemma_join_assoc(
                search(bs, push_items(frames, pats, vals.subrange(0, k as int))),
                search_windows(bs, frames, pats, vals, 1),
                before,
            );
        }
        self.current_work.push_all(ps, window);
    }

    /// Meets one obligation on the current branch.
    ///
    /// Where the pattern fits the value, the branch goes on: a capture is
    /// added to the captures, the parts of a constructor or a list become
    /// obligations, a continuation point is handed to the scope, a path
    /// opens a scope, a conjunction becomes two obligations, and a template
    /// variable asks nothing more. An alternative goes on with its first
    /// side and puts off a branch for its second; a list path goes on with
    /// its first window and puts off a branch for each other window. Where
    /// the pattern does not fit, the branch gives way to the latest one put
    /// off.
    fn fulfil(&mut self, pattern: &'p Pattern<D::Atom>, data: &'a D)
        requires
            !old(self).exhausted,
            old(self).current_work@.len() > 0,
        ensures
            ({
                let before = *old(self);
                let after = *final(self);
                let frames = before.current_work@;
                let v = data.tree();
                match pattern@ {
                    PatternTree::Atom(a) => if v matches ValueTree::Atom(b) && a.eq_spec(&b) {
                        after.went_on(before, frames)
                    } else {
                        after.gave_way(before)
                    },
                    PatternTree::Fail => after.gave_way(before),
                    PatternTree::Wild => after.went_on(before, frames),
                    PatternTree::CaptureVar(name) => {
                        &&& !after.exhausted
                        &&& after.matches@.len() == before.matches@.len() + 1
                        &&& after.matches@.drop_last() == before.matches@
                        &&& after.matches@.last().0@ == name
                        &&& after.matches@.last().1 == data
                        &&& after.current_work@ == frames
                        &&& after.future_work@ == before.future_work@
                    },
                    PatternTree::Cons(name, ps) => match v {
                        ValueTree::Cons(vname, vs) => if name == vname && ps.len() == vs.len() {
                            after.went_on(before, push_items(frames, ps, vs))
                        } else {
                            after.gave_way(before)
                        },
                        _ => after.gave_way(before),
                    },
                    PatternTree::ExactList(ps) => match v {
                        ValueTree::List(vs) => if ps.len() == vs.len() {
                            after.went_on(before, push_items(frames, ps, vs))
                        } else {
                            after.gave_way(before)
                        },
                        _ => after.gave_way(before),
                    },
                    PatternTree::ListPath(ps) => match v {
                        ValueTree::List(vs) => if ps.len() <= vs.len() {
                            after.spread(before, ps, vs)
                        } else {
                            after.gave_way(before)
                        },
                        _ => after.gave_way(before),
                    },
                    PatternTree::PathNext => after.went_on(before, add_nexts(frames, seq![v])),
                    PatternTree::Path(steps) => after.went_on(
                        before,
                        if steps.len() == 0 {
                            frames
                        } else {
                            frames.push(step_frame(steps, v))
                        },
                    ),
                    PatternTree::And(a, b) => after.went_on(before, push_item(push_item(frames, (*b, v)), (*a, v))),
                    PatternTree::Or(a, b) => {
                        &&& !after.exhausted
                        &&& after.matches@ == before.matches@
                        &&& after.current_work@ == push_item(frames, (*a, v))
                        &&& after.future_work@.len() == before.future_work@.len() + 1
                        &&& after.future_work@.drop_last() == before.future_work@
                        &&& after.future_work@.last().0@ == before.matches@
                        &&& after.future_work@.last().1@ == push_item(frames, (*b, v))
                    },
                    PatternTree::TemplateVar(name) => if lookup(bindings(before.matches@), name) matches Some(d)
                        && same(d, v) {
                        after.went_on(before, frames)
                    } else {
                        after.gave_way(before)
                    },
                }
            }),
            tick(final(self).total()) == old(self).total_with((pattern@, data.tree())),
    {
        let ghost bs = bindings(self.matches@);
        let ghost frames = self.current_work@;
        let ghost v = data.tree();
        let ghost later = deferred(self.future_work@);
        proof {
            pattern.lemma_children();
            D::atoms_are_comparable();
            lemma_search_item(bs, frames, (pattern@, v));
            lemma_join_idle(later);
        }
        match pattern {
            Pattern::Atom(a) => match data.kind() {
                MatchKind::Atom(b) => {
                    if !(*a == *b) {
                        self.backtrack();
                    }
                },
                _ => {
                    self.backtrack();
                },
            },
            Pattern::Fail => {
                self.backtrack();
            },
            Pattern::Wild => {},
            Pattern::CaptureVar(name) => {
                self.matches.push((name.clone(), data));
                assert(bindings(self.matches@) =~= bs.push((name@, v)));
            },
            Pattern::Cons { name, params } => match data.kind() {
                MatchKind::Cons(dname, ds) => {
                    if same_text(name.as_str(), dname) && params.len() == ds.len() {
                        assert(value_trees(ds@) =~= v->Cons_1);
                        self.current_work.push_all(params.as_slice(), ds);
                    } else {
                        self.backtrack();
                    }
                },
                _ => {
                    self.backtrack();
                },
            },
            Pattern::ExactList(ps) => match data.kind() {
                MatchKind::List(ds) => {
                    if ps.len() == ds.len() {
                        assert(value_trees(ds@) =~= v->List_0);
                        self.current_work.push_all(ps.as_slice(), ds);
                    } else {
                        self.backtrack();
                    }
                },
                _ => {
                    self.backtrack();
                },
            },
            Pattern::ListPath(ps) => match data.kind() {
                MatchKind::List(ds) => {
                    assert(value_trees(ds@) =~= v->List_0);
                    if ps.len() <= ds.len() {
                        self.branch_windows(ps.as_slice(), ds);
                    } else {
                        self.backtrack();
                    }
                },
                _ => {
                    self.backtrack();
                },
            },
            Pattern::PathNext => {
                self.current_work.next(data);
            },
            Pattern::Path(ps) => {
                if ps.len() > 0 {
                    self.current_work.path(ps.as_slice(), data);
                }
            },
            Pattern::And(a, b) => {
                self.current_work.push((&**b, data));
                self.current_work.push((&**a, data));
            },
            Pattern::Or(a, b) => {
                let mut work = self.current_work.clone();
                work.push((&**b, data));
                self.defer(work);
                self.current_work.push((&**a, data));
                proof {
                    lemma_join_assoc(
                        search(bs, push_item(frames, (a@, v))),
                        search(bs, push_item(frames, (b@, v))),
                        later,
                    );
                }
            },
            Pattern::TemplateVar(name) => match find(&self.matches, name) {
                Some(bound) => {
                    let lit = bound.to_pattern();
                    if !equals(&lit, data, Ghost(bound.tree())) {
                        self.backtrack();
                    }
                },
                None => {
                    self.backtrack();
                },
            },
        }
    }

    /// Takes the next obligation of the current branch.
    ///
    /// Scopes that are done are closed first. If no scope is left then, the
    /// captures of the branch are a result, and `None` says so. If the
    /// innermost scope has an obligation, the latest one is taken from it.
    /// Otherwise that scope has collected continuation points and has a
    /// step left: the step is taken off its path and becomes the
    /// obligation, on the first point here and on each other point on a
    /// branch put off, so that the branches are taken up again in the order
    /// in which the points were collected. The captures stay as they are.
    fn pop_current_work(&mut self) -> (r: Option<(&'p Pattern<D::Atom>, &'a D)>)
        requires
            !old(self).exhausted,
        ensures
            !final(self).exhausted,
            final(self).matches@ == old(self).matches@,
            ({
                let frames = settled(old(self).current_work@);
                let before = old(self).future_work@;
                let after = final(self).future_work@;
                if frames.len() == 0 {
                    &&& r is None
                    &&& final(self).current_work@ == frames
                    &&& after == before
                } else if frames.last().queue.len() > 0 {
                    &&& r matches Some(item) && (item.0@, item.1.tree()) == frames.last().queue.last()
                    &&& final(self).current_work@ == pop_item(frames)
                    &&& after == before
                } else {
                    let top = frames.last();
                    let below = frames.drop_last();
                    &&& r matches Some(item) && item.0@ == top.steps[0] && item.1.tree() == top.nexts[0]
                    &&& final(self).current_work@ == below.push(
                        Frame { queue: Seq::empty(), steps: top.steps.drop_first(), nexts: Seq::empty() },
                    )
                    &&& after.len() == before.len() + top.nexts.len() - 1
                    &&& after.subrange(0, before.len() as int) == before
                    &&& forall|j: int|
                        1 <= j < top.nexts.len() ==> {
                            let branch = #[trigger] after[before.len() + top.nexts.len() - 1 - j];
                            &&& branch.0@ == old(self).matches@
                            &&& branch.1@ == below.push(step_frame(top.steps, top.nexts[j]))
                        }
                }
            }),
            match r {
                Some(item) => {
                    &&& final(self).current_work@.len() > 0
                    &&& final(self).total_with((item.0@, item.1.tree())).found == old(self).total().found
                    &&& final(self).total_with((item.0@, item.1.tree())).steps <= old(self).total().steps
                },
                None => {
                    &&& final(self).current_work@.len() == 0
                    &&& final(self).total().found == old(self).total().found
                    &&& final(self).total().steps <= old(self).total().steps
                },
            },
        decreases old(self).current_work@.len(),
    {
        if self.current_work.work.len() == 0 {
            assert(self.current_work@ =~= Seq::empty());
            return None;
        }
        let ghost bs = bindings(self.matches@);
        let ghost frames = self.current_work@;
        let ghost before = self.future_work@;
        let ghost later = deferred(self.future_work@);
        let mut top = self.current_work.work.pop().unwrap();
        let ghost below = self.current_work@;
        assert(below =~= frames.drop_last());
        assert(top@ == frames.last());
        match top.pop() {
            Some(item) => {
                self.current_work.work.push(top);
                proof {
                    let it = (item.0@, item.1.tree());
                    assert(frames.last().queue.drop_last().push(it) =~= frames.last().queue);
                    assert(push_item(self.current_work@, it) =~= frames);
                    assert(self.current_work@ =~= pop_item(frames));
                    assert(self.total_with(it) == old(self).total());
                }
                Some(item)
            },
            None => {
                if top.nexts.len() == 0 || top.path.len() == 0 {
                    assert(tick(self.total()) == old(self).total());
                    assert(settled(frames) == settled(below));
                    self.pop_current_work()
                } else {
                    let ghost steps = Pattern::trees(top.path@);
                    let ghost nexts = top@.nexts;
                    let n = top.nexts.len();
                    let mut i: usize = n;
                    proof {
                        lemma_join_idle(later);
                        assert(nexts.subrange(i as int, nexts.len() as int) =~= Seq::empty());
                        assert(self.future_work@.subrange(0, before.len() as int) =~= before);
                    }
                    while i > 1
                        invariant
                            1 <= i <= n,
                            n == top.nexts@.len(),
                            !self.exhausted,
                            self.matches@ == old(self).matches@,
                            bs == bindings(self.matches@),
                            below == self.current_work@,
                            steps == Pattern::trees(top.path@),
                            steps.len() > 0,
                            nexts == top@.nexts,
                            nexts.len() == n,
                            self.future_work@.len() == before.len() + n - i,
                            self.future_work@.subrange(0, before.len() as int) == before,
                            forall|j: int|
                                i <= j < n ==> {
                                    let branch = #[trigger] self.future_work@[before.len() + n - 1 - j];
                                    &&& branch.0@ == old(self).matches@
                                    &&& branch.1@ == below.push(step_frame(steps, nexts[j]))
                                },
                            deferred(self.future_work@) == join(
                                search_fan(bs, below, steps, nexts.subrange(i as int, nexts.len() as int)),
                                later,
                            ),
                        decreases i,
                    {
                        i -= 1;
                        let ghost so_far = self.future_work@;
                        let mut work = self.current_work.clone();
                        work.path(top.path, top.nexts[i]);
                        proof {
                            let here = nexts.subrange(i as int, nexts.len() as int);
                            assert(here.drop_first() =~= nexts.subrange(i + 1, nexts.len() as int));
                            assert(here[0] == top.nexts@[i as int].tree());
                            lemma_join_assoc(
                                search(bs, below.push(step_frame(steps, here[0]))),
                                search_fan(bs, below, steps, here.drop_first()),
                                later,
                            );
                        }
                        self.defer(work);
                        proof {
                            let now = self.future_work@;
                            assert(now.drop_last() == so_far);
                            assert(now.subrange(0, before.len() as int) =~= before) by {
                                assert forall|k: int| 0 <= k < before.len() implies now[k] == before[k] by {
                                    assert(now.drop_last()[k] == so_far[k]);
                                    assert(so_far.subrange(0, before.len() as int)[k] == before[k]);
                                }
                            }
                            assert forall|j: int| i <= j < n implies ({
                                let branch = #[trigger] now[before.len() + n - 1 - j];
                                &&& branch.0@ == old(self).matches@
                                &&& branch.1@ == below.push(step_frame(steps, nexts[j]))
                            }) by {
                                let at = before.len() + n - 1 - j;
                                if j > i {
                                    assert(now.drop_last()[at] == so_far[at]);
                                } else {
                                    assert(now[at] == now.last());
                                }
                            }
                        }
                    }
                    let step = &top.path[0];
                    let first = top.nexts[0];
                    let rest = slice_subrange(top.path, 1, top.path.len());
                    self.current_work.work.push(WorkPath::new(rest));
                    proof {
                        let it = (step@, first.tree());
                        assert(nexts.subrange(1, nexts.len() as int) =~= nexts.drop_first());
                        assert(Pattern::trees(rest@) =~= steps.drop_first());
                        assert(self.current_work@.last().queue.push(it) =~= step_frame(steps, nexts[0]).queue);
                        assert(push_item(self.current_work@, it) =~= below.push(step_frame(steps, nexts[0])));
                        assert(self.current_work@ =~= below.push(
                            Frame { queue: Seq::empty(), steps: steps.drop_first(), nexts: Seq::empty() },
                        ));
                        lemma_join_assoc(
                            search(bs, below.push(step_frame(steps, nexts[0]))),
                            search_fan(bs, below, steps, nexts.drop_first()),
                            later,
                        );
                        assert(search(bs, frames) == tick(search_fan(bs, below, steps, nexts)));
                        assert(tick(self.total_with(it)) == old(self).total());
                    }
                    Some((step, first))
                }
            },
        }
    }

    /// The next result, or `None` when the search is over.
    ///
    /// The results come in a fixed order: the first window of a list
    /// before the later ones, the first side of an alternative before the
    /// second, the first continuation point of a path step before the later
    /// ones, an inner choice varying faster than an outer one.
    pub fn next(&mut self) -> (r: Option<MatchMap<'a, D>>)
        ensures
            old(self).remaining().len() == 0 ==> r is None && final(self).remaining().len() == 0,
            old(self).remaining().len() > 0 ==> (r matches Some(m) && bindings(m@) == old(self).remaining()[0]
                && final(self).remaining() == old(self).remaining().drop_first()),
    {
        loop
            invariant
                self.total().found == old(self).total().found,
            decreases self.total().steps,
        {
            if self.exhausted {
                return None;
            }
            match self.pop_current_work() {
                Some((pattern, data)) => {
                    self.fulfil(pattern, data);
                },
                None => {
                    let mut found: MatchMap<'a, D> = Vec::new();
                    core::mem::swap(&mut self.matches, &mut found);
                    proof {
                        let rest = deferred(self.future_work@).found;
                        assert(old(self).remaining() =~= seq![bindings(found@)] + rest);
                        assert(old(self).remaining().drop_first() =~= rest);
                    }
                    self.backtrack();
                    return Some(found);
                },
            }
        }
    }

    /// All the results that are left, in order.
    pub fn collect(self) -> (r: Vec<MatchMap<'a, D>>)
        ensures
            r@.len() == self.remaining().len(),
            forall|i: int| 0 <= i < r@.len() ==> bindings((#[trigger] r@[i])@) == self.remaining()[i],
    {
        let ghost all = self.remaining();
        let mut rest = self;
        let mut out: Vec<MatchMap<'a, D>> = Vec::new();
        assert(all.subrange(0, all.len() as int) =~= all);
        loop
            invariant
                all == self.remaining(),
                out@.len() + rest.remaining().len() == all.len(),
                rest.remaining() == all.subrange(out@.len() as int, all.len() as int),
                forall|i: int| 0 <= i < out@.len() ==> bindings((#[trigger] out@[i])@) == all[i],
            decreases rest.remaining().len(),
        {
            let ghost before = rest.remaining();
            match rest.next() {
                Some(m) => {
                    proof {
                        assert(before.drop_first() =~= all.subrange(out@.len() as int + 1, all.len() as int));
                    }
                    out.push(m);
                },
                None => {
                    return out;
                },
            }
        }
    }
}

/// Starts the search for every way in which a checked pattern matches a
/// value.
///
/// Only a pattern that passed the check can be handed in. Each result will
/// bind the names of its signature, each once, and no other name, to parts
/// of `data`.
pub fn pattern_match<'p, 'a, D: Matchable>(pattern: &'p TypeChecked<D::Atom>, data: &'a D) -> (m: Matches<
    'p,
    'a,
    D,
>)
    ensures
        verdict(pattern@.pattern) == Ok::<Set<Seq<char>>, CheckError>(pattern@.signature),
        m.remaining() == solutions(pattern@.pattern, data.tree()),
        forall|i: int|
            0 <= i < m.remaining().len() ==> distinct_names(#[trigger] m.remaining()[i]) && names_of(
                m.remaining()[i],
            ) == pattern@.signature,
        forall|i: int, k: int|
            0 <= i < m.remaining().len() && 0 <= k < m.remaining()[i].len() ==> part_of(
                (#[trigger] m.remaining()[i][k]).1,
                data.tree(),
            ),
{
    let p = pattern.pattern();
    proof {
        law_results_bind_the_signature(p@, data.tree(), pattern@.signature);
        law_results_bind_parts_of_the_value(p@, data.tree());
    }
    let mut current_work = Work::new();
    current_work.push((p, data));
    let m = Matches { matches: Vec::new(), current_work, future_work: Vec::new(), exhausted: false };
    proof {
        lemma_search_finds_solutions(p@, data.tree());
        assert(m.current_work@.last().queue =~= seq![(p@, data.tree())]);
        assert(m.current_work@ =~= start(p@, data.tree()));
        assert(bindings(m.matches@) =~= Seq::empty());
        lemma_join_idle(search(Seq::empty(), start(p@, data.tree())));
    }
    m
}

} // verus!
