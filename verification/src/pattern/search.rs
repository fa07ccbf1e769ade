//! The search that enumerates matches, as a function of its state.
//!
//! The state of one branch is the bindings made so far and a stack of
//! frames. `search` says what a branch finds and how many steps it takes;
//! it follows the moves of the matcher one for one.

use super::data::{PatternTree, ValueTree};
use super::semantics::{lookup, same, Binding};
use vstd::prelude::*;
use vstd::std_specs::cmp::PartialEqSpec;

verus! {

/// An obligation: a pattern and the value it has to match.
pub type Item<A> = (PatternTree<A>, ValueTree<A>);

/// The work of one path scope: the obligations still open, the next one to
/// take last; the steps of the path that are still to run; and the
/// continuation points that the running step has collected.
pub ghost struct Frame<A> {
    pub queue: Seq<Item<A>>,
    pub steps: Seq<PatternTree<A>>,
    pub nexts: Seq<ValueTree<A>>,
}

/// What a search gives: the binding sets it finds, in order, and the number
/// of steps it takes.
pub ghost struct Search<A> {
    pub found: Seq<Seq<Binding<A>>>,
    pub steps: nat,
}

/// One search after another.
pub open spec fn join<A>(first: Search<A>, second: Search<A>) -> Search<A> {
    Search { found: first.found + second.found, steps: first.steps + second.steps }
}

/// A search that took one step more.
pub open spec fn tick<A>(s: Search<A>) -> Search<A> {
    Search { found: s.found, steps: s.steps + 1 }
}

/// The search that does nothing.
pub open spec fn idle<A>() -> Search<A> {
    Search { found: Seq::empty(), steps: 0 }
}

/// The search that fails at once.
pub open spec fn dead<A>() -> Search<A> {
    Search { found: Seq::empty(), steps: 1 }
}

/// A bound on the work that a pattern can open.
pub open spec fn size<A>(p: PatternTree<A>) -> nat
    decreases p,
{
    match p {
        PatternTree::Cons(_, ps) => 1 + sizes(ps),
        PatternTree::ExactList(ps) => 1 + sizes(ps),
        PatternTree::ListPath(ps) => 1 + sizes(ps),
        PatternTree::Path(ps) => 1 + sizes(ps) + ps.len(),
        PatternTree::And(a, b) => 1 + size(*a) + size(*b),
        PatternTree::Or(a, b) => 1 + size(*a) + size(*b),
        _ => 1,
    }
}

/// The sizes of `ps` together.
pub open spec fn sizes<A>(ps: Seq<PatternTree<A>>) -> nat
    decreases ps,
{
    if ps.len() == 0 {
        0
    } else {
        size(ps[0]) + sizes(ps.drop_first())
    }
}

/// The sizes of the patterns in a queue together.
pub open spec fn queue_size<A>(queue: Seq<Item<A>>) -> nat
    decreases queue.len(),
{
    if queue.len() == 0 {
        0
    } else {
        queue_size(queue.drop_last()) + size(queue.last().0)
    }
}

/// A bound on the work that a frame holds.
pub open spec fn frame_weight<A>(f: Frame<A>) -> nat {
    1 + queue_size(f.queue) + sizes(f.steps) + f.steps.len()
}

/// A bound on the work that a stack of frames holds.
pub open spec fn weight<A>(frames: Seq<Frame<A>>) -> nat
    decreases frames.len(),
{
    if frames.len() == 0 {
        0
    } else {
        weight(frames.drop_last()) + frame_weight(frames.last())
    }
}

/// The obligations that pair `ps` with `vs` one for one, the first pair last.
pub open spec fn paired<A>(ps: Seq<PatternTree<A>>, vs: Seq<ValueTree<A>>) -> Seq<Item<A>> {
    Seq::new(ps.len(), |i: int| (ps[ps.len() - 1 - i], vs[ps.len() - 1 - i]))
}

/// The stack with the queue of its top frame replaced.
pub open spec fn with_queue<A>(frames: Seq<Frame<A>>, queue: Seq<Item<A>>) -> Seq<Frame<A>> {
    frames.update(frames.len() - 1, Frame { queue, ..frames.last() })
}

/// The stack with the continuation points of its top frame replaced.
pub open spec fn with_nexts<A>(frames: Seq<Frame<A>>, nexts: Seq<ValueTree<A>>) -> Seq<Frame<A>> {
    frames.update(frames.len() - 1, Frame { nexts, ..frames.last() })
}

/// The stack with one more obligation on its top frame.
pub open spec fn push_item<A>(frames: Seq<Frame<A>>, item: Item<A>) -> Seq<Frame<A>> {
    with_queue(frames, frames.last().queue.push(item))
}

/// The stack without the next obligation of its top frame.
pub open spec fn pop_item<A>(frames: Seq<Frame<A>>) -> Seq<Frame<A>> {
    with_queue(frames, frames.last().queue.drop_last())
}

/// The stack with `ps` paired to `vs` on its top frame, the first pair next.
pub open spec fn push_items<A>(
    frames: Seq<Frame<A>>,
    ps: Seq<PatternTree<A>>,
    vs: Seq<ValueTree<A>>,
) -> Seq<Frame<A>> {
    with_queue(frames, frames.last().queue + paired(ps, vs))
}

/// The stack with continuation points added to its top frame.
pub open spec fn add_nexts<A>(frames: Seq<Frame<A>>, nexts: Seq<ValueTree<A>>) -> Seq<Frame<A>> {
    with_nexts(frames, frames.last().nexts + nexts)
}

/// The frame that runs the first of `steps` on `v` and keeps the others.
pub open spec fn step_frame<A>(steps: Seq<PatternTree<A>>, v: ValueTree<A>) -> Frame<A> {
    Frame { queue: seq![(steps[0], v)], steps: steps.drop_first(), nexts: Seq::empty() }
}

pub proof fn lemma_queue_size_push<A>(queue: Seq<Item<A>>, item: Item<A>)
    ensures
        queue_size(queue.push(item)) == queue_size(queue) + size(item.0),
{
    assert(queue.push(item).drop_last() =~= queue);
}

pub proof fn lemma_queue_size_paired<A>(queue: Seq<Item<A>>, ps: Seq<PatternTree<A>>, vs: Seq<ValueTree<A>>)
    requires
        ps.len() == vs.len(),
    ensures
        queue_size(queue + paired(ps, vs)) == queue_size(queue) + sizes(ps),
    decreases ps.len(),
{
    if ps.len() == 0 {
        assert(queue + paired(ps, vs) =~= queue);
    } else {
        let all = queue + paired(ps, vs);
        let fewer = queue + paired(ps.drop_first(), vs.drop_first());
        assert(all.drop_last() =~= fewer);
        assert(all.last().0 == ps[0]);
        lemma_queue_size_paired(queue, ps.drop_first(), vs.drop_first());
    }
}

pub proof fn lemma_weight_push<A>(frames: Seq<Frame<A>>, f: Frame<A>)
    ensures
        weight(frames.push(f)) == weight(frames) + frame_weight(f),
{
    assert(frames.push(f).drop_last() =~= frames);
}

pub proof fn lemma_weight_update<A>(frames: Seq<Frame<A>>, f: Frame<A>)
    requires
        frames.len() > 0,
    ensures
        weight(frames.update(frames.len() - 1, f)) + frame_weight(frames.last()) == weight(frames) + frame_weight(
            f,
        ),
{
    assert(frames.update(frames.len() - 1, f).drop_last() =~= frames.drop_last());
}

/// How the bound changes with each move of the search.
pub proof fn lemma_weights<A>(frames: Seq<Frame<A>>)
    requires
        frames.len() > 0,
    ensures
        weight(frames) == weight(frames.drop_last()) + frame_weight(frames.last()),
        frames.last().queue.len() > 0 ==> weight(pop_item(frames)) + size(frames.last().queue.last().0) == weight(
            frames,
        ),
        forall|item: Item<A>| weight(#[trigger] push_item(frames, item)) == weight(frames) + size(item.0),
        forall|ps: Seq<PatternTree<A>>, vs: Seq<ValueTree<A>>|
            ps.len() == vs.len() ==> weight(#[trigger] push_items(frames, ps, vs)) == weight(frames) + sizes(ps),
        forall|nexts: Seq<ValueTree<A>>| weight(#[trigger] with_nexts(frames, nexts)) == weight(frames),
        forall|steps: Seq<PatternTree<A>>, v: ValueTree<A>|
            steps.len() > 0 ==> weight(frames.push(#[trigger] step_frame(steps, v))) == weight(frames) + sizes(
                steps,
            ) + steps.len(),
{
    let top = frames.last();
    if top.queue.len() > 0 {
        lemma_weight_update(frames, Frame { queue: top.queue.drop_last(), ..top });
    }
    assert forall|item: Item<A>| weight(#[trigger] push_item(frames, item)) == weight(frames) + size(
        item.0,
    ) by {
        lemma_weight_update(frames, Frame { queue: top.queue.push(item), ..top });
        lemma_queue_size_push(top.queue, item);
    }
    assert forall|ps: Seq<PatternTree<A>>, vs: Seq<ValueTree<A>>| ps.len() == vs.len() implies weight(
        #[trigger] push_items(frames, ps, vs),
    ) == weight(frames) + sizes(ps) by {
        lemma_weight_update(frames, Frame { queue: top.queue + paired(ps, vs), ..top });
        lemma_queue_size_paired(top.queue, ps, vs);
    }
    assert forall|nexts: Seq<ValueTree<A>>| weight(#[trigger] with_nexts(frames, nexts)) == weight(frames) by {
        lemma_weight_update(frames, Frame { nexts, ..top });
    }
    assert forall|steps: Seq<PatternTree<A>>, v: ValueTree<A>| steps.len() > 0 implies weight(
        frames.push(#[trigger] step_frame(steps, v)),
    ) == weight(frames) + sizes(steps) + steps.len() by {
        lemma_step_frame(frames, steps, v);
    }
}

pub proof fn lemma_step_frame<A>(frames: Seq<Frame<A>>, steps: Seq<PatternTree<A>>, v: ValueTree<A>)
    requires
        steps.len() > 0,
    ensures
        weight(frames.push(step_frame(steps, v))) == weight(frames) + sizes(steps) + steps.len(),
{
    let f = step_frame(steps, v);
    lemma_weight_push(frames, f);
    lemma_queue_size_push(Seq::empty(), (steps[0], v));
    assert(f.queue =~= Seq::<Item<A>>::empty().push((steps[0], v)));
}

/// The search from one state: the bindings made so far and a stack of
/// frames, the innermost path scope last.
///
/// The next obligation of the top frame is taken and met in every way that
/// its pattern allows, each way followed to its end before the next one is
/// tried. A frame whose queue is empty runs the next step of its path on
/// each continuation point it collected, in turn; where it collected none,
/// or no step is left, it is closed. When no frame is left the bindings are
/// one result.
pub open spec fn search<A: PartialEq>(bs: Seq<Binding<A>>, frames: Seq<Frame<A>>) -> Search<A>
    decreases weight(frames), 2int, 0int,
{
    if frames.len() == 0 {
        Search { found: seq![bs], steps: 1 }
    } else {
        let top = frames.last();
        if top.queue.len() == 0 {
            if top.nexts.len() == 0 || top.steps.len() == 0 {
                tick(search(bs, frames.drop_last()))
            } else {
                tick(search_fan(bs, frames.drop_last(), top.steps, top.nexts))
            }
        } else {
            proof {
                lemma_weights(frames);
            }
            meet(bs, pop_item(frames), top.queue.last().0, top.queue.last().1)
        }
    }
}

/// The search that first meets the obligation of `p` against `v` and then
/// goes on with `rest`, on whose top frame the obligation stood.
pub open spec fn meet<A: PartialEq>(
    bs: Seq<Binding<A>>,
    rest: Seq<Frame<A>>,
    p: PatternTree<A>,
    v: ValueTree<A>,
) -> Search<A>
    decreases weight(rest) + size(p), 1int, 0int,
{
    if rest.len() == 0 {
        dead()
    } else {
        proof {
            lemma_weights(rest);
        }
        match p {
            PatternTree::Atom(a) => match v {
                ValueTree::Atom(b) => if a.eq_spec(&b) {
                    tick(search(bs, rest))
                } else {
                    dead()
                },
                _ => dead(),
            },
            PatternTree::Fail => dead(),
            PatternTree::Wild => tick(search(bs, rest)),
            PatternTree::CaptureVar(name) => tick(search(bs.push((name, v)), rest)),
            PatternTree::Cons(name, ps) => match v {
                ValueTree::Cons(vname, vs) => if name == vname && ps.len() == vs.len() {
                    tick(search(bs, push_items(rest, ps, vs)))
                } else {
                    dead()
                },
                _ => dead(),
            },
            PatternTree::ExactList(ps) => match v {
                ValueTree::List(vs) => if ps.len() == vs.len() {
                    tick(search(bs, push_items(rest, ps, vs)))
                } else {
                    dead()
                },
                _ => dead(),
            },
            PatternTree::ListPath(ps) => match v {
                ValueTree::List(vs) => tick(search_windows(bs, rest, ps, vs, 0)),
                _ => dead(),
            },
            PatternTree::PathNext => tick(search(bs, add_nexts(rest, seq![v]))),
            PatternTree::Path(steps) => if steps.len() == 0 {
                tick(search(bs, rest))
            } else {
                tick(search(bs, rest.push(step_frame(steps, v))))
            },
            PatternTree::And(a, b) => {
                proof {
                    lemma_weights(push_item(rest, (*b, v)));
                }
                tick(search(bs, push_item(push_item(rest, (*b, v)), (*a, v))))
            },
            PatternTree::Or(a, b) => tick(
                join(search(bs, push_item(rest, (*a, v))), search(bs, push_item(rest, (*b, v)))),
            ),
            PatternTree::TemplateVar(name) => match lookup(bs, name) {
                Some(d) => if same(d, v) {
                    tick(search(bs, rest))
                } else {
                    dead()
                },
                None => dead(),
            },
        }
    }
}

/// The searches that meet `ps` on each window of `vs` that starts at `from`
/// or later, one after another.
pub open spec fn search_windows<A: PartialEq>(
    bs: Seq<Binding<A>>,
    rest: Seq<Frame<A>>,
    ps: Seq<PatternTree<A>>,
    vs: Seq<ValueTree<A>>,
    from: int,
) -> Search<A>
    decreases weight(rest) + sizes(ps) + 1, 0int, vs.len() - from + 1,
{
    if rest.len() == 0 || from < 0 || from + ps.len() > vs.len() {
        idle()
    } else {
        proof {
            lemma_weights(rest);
        }
        join(
            search(bs, push_items(rest, ps, vs.subrange(from, from + ps.len()))),
            search_windows(bs, rest, ps, vs, from + 1),
        )
    }
}

/// The searches that run the path `steps` from each of `nexts`, one after
/// another, above the frames `below`.
pub open spec fn search_fan<A: PartialEq>(
    bs: Seq<Binding<A>>,
    below: Seq<Frame<A>>,
    steps: Seq<PatternTree<A>>,
    nexts: Seq<ValueTree<A>>,
) -> Search<A>
    decreases weight(below) + 1 + sizes(steps) + steps.len(), 0int, nexts.len(),
{
    if nexts.len() == 0 || steps.len() == 0 {
        idle()
    } else {
        proof {
            lemma_step_frame(below, steps, nexts[0]);
        }
        join(
            search(bs, below.push(step_frame(steps, nexts[0]))),
            search_fan(bs, below, steps, nexts.drop_first()),
        )
    }
}

} // verus!
