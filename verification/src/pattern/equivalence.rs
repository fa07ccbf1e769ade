//! The search finds what the semantics says, in its order.

use super::data::{PatternTree, ValueTree};
use super::search::{
    add_nexts, meet, paired, pop_item, push_item, push_items, search, search_fan, search_windows, step_frame, Frame,
    Item,
};
use super::semantics::{
    binds_of, fan_out, outcomes, outcomes_path, outcomes_seq, outcomes_windows, solutions, then_one, then_path,
    then_seq, unchanged, with_nexts, Binding, Outcome,
};
use vstd::prelude::*;

verus! {

/// What the search finds when it goes on from each of `outs` with `frames`,
/// whose top frame takes the continuation points of the outcome.
pub open spec fn resume<A: PartialEq>(outs: Seq<Outcome<A>>, frames: Seq<Frame<A>>) -> Seq<Seq<Binding<A>>>
    decreases outs.len(),
{
    if outs.len() == 0 {
        Seq::empty()
    } else {
        search(outs[0].binds, add_nexts(frames, outs[0].nexts)).found + resume(outs.drop_first(), frames)
    }
}

/// What the search finds when it goes on from each of `outs` with `below`,
/// the continuation points of the outcome left aside.
pub open spec fn resume_below<A: PartialEq>(outs: Seq<Outcome<A>>, below: Seq<Frame<A>>) -> Seq<
    Seq<Binding<A>>,
>
    decreases outs.len(),
{
    if outs.len() == 0 {
        Seq::empty()
    } else {
        search(outs[0].binds, below).found + resume_below(outs.drop_first(), below)
    }
}

proof fn lemma_resume_concat<A: PartialEq>(a: Seq<Outcome<A>>, b: Seq<Outcome<A>>, frames: Seq<Frame<A>>)
    ensures
        resume(a + b, frames) == resume(a, frames) + resume(b, frames),
    decreases a.len(),
{
    if a.len() == 0 {
        assert(a + b =~= b);
        assert(resume(a, frames) + resume(b, frames) =~= resume(b, frames));
    } else {
        assert((a + b).drop_first() =~= a.drop_first() + b);
        lemma_resume_concat(a.drop_first(), b, frames);
        assert(resume(a + b, frames) =~= resume(a, frames) + resume(b, frames));
    }
}

proof fn lemma_resume_below_concat<A: PartialEq>(a: Seq<Outcome<A>>, b: Seq<Outcome<A>>, below: Seq<Frame<A>>)
    ensures
        resume_below(a + b, below) == resume_below(a, below) + resume_below(b, below),
    decreases a.len(),
{
    if a.len() == 0 {
        assert(a + b =~= b);
        assert(resume_below(a, below) + resume_below(b, below) =~= resume_below(b, below));
    } else {
        assert((a + b).drop_first() =~= a.drop_first() + b);
        lemma_resume_below_concat(a.drop_first(), b, below);
        assert(resume_below(a + b, below) =~= resume_below(a, below) + resume_below(b, below));
    }
}

proof fn lemma_add_no_nexts<A>(frames: Seq<Frame<A>>)
    requires
        frames.len() > 0,
    ensures
        add_nexts(frames, Seq::empty()) == frames,
{
    assert(frames.last().nexts + Seq::<ValueTree<A>>::empty() =~= frames.last().nexts);
    assert(add_nexts(frames, Seq::empty()) =~= frames);
}

proof fn lemma_add_nexts_twice<A>(frames: Seq<Frame<A>>, a: Seq<ValueTree<A>>, b: Seq<ValueTree<A>>)
    requires
        frames.len() > 0,
    ensures
        add_nexts(add_nexts(frames, a), b) == add_nexts(frames, a + b),
{
    assert((frames.last().nexts + a) + b =~= frames.last().nexts + (a + b));
    assert(add_nexts(add_nexts(frames, a), b) =~= add_nexts(frames, a + b));
}

proof fn lemma_resume_unchanged<A: PartialEq>(bs: Seq<Binding<A>>, frames: Seq<Frame<A>>)
    requires
        frames.len() > 0,
    ensures
        resume(unchanged(bs), frames) == search(bs, frames).found,
{
    lemma_add_no_nexts(frames);
    let outs = unchanged(bs);
    assert(outs.drop_first() =~= Seq::empty());
    assert(resume(outs.drop_first(), frames) =~= Seq::empty());
    assert(resume(outs, frames) =~= search(bs, frames).found);
}

proof fn lemma_resume_one<A: PartialEq>(o: Outcome<A>, frames: Seq<Frame<A>>)
    ensures
        resume(seq![o], frames) == search(o.binds, add_nexts(frames, o.nexts)).found,
{
    let outs = seq![o];
    assert(outs.drop_first() =~= Seq::empty());
    assert(resume(outs.drop_first(), frames) =~= Seq::empty());
    assert(resume(outs, frames) =~= search(o.binds, add_nexts(frames, o.nexts)).found);
}

proof fn lemma_resume_with_nexts<A: PartialEq>(
    prefix: Seq<ValueTree<A>>,
    outs: Seq<Outcome<A>>,
    frames: Seq<Frame<A>>,
)
    requires
        frames.len() > 0,
    ensures
        resume(with_nexts(prefix, outs), frames) == resume(outs, add_nexts(frames, prefix)),
    decreases outs.len(),
{
    let shifted = with_nexts(prefix, outs);
    if outs.len() > 0 {
        assert(shifted.drop_first() =~= with_nexts(prefix, outs.drop_first()));
        lemma_resume_with_nexts(prefix, outs.drop_first(), frames);
        lemma_add_nexts_twice(frames, prefix, outs[0].nexts);
    }
}

/// The search meets an obligation as `meet` says.
pub proof fn lemma_search_item<A: PartialEq>(bs: Seq<Binding<A>>, frames: Seq<Frame<A>>, item: Item<A>)
    requires
        frames.len() > 0,
    ensures
        search(bs, push_item(frames, item)) == meet(bs, frames, item.0, item.1),
{
    let pushed = push_item(frames, item);
    assert(pushed.last().queue.drop_last() =~= frames.last().queue);
    assert(pop_item(pushed) =~= frames);
}

proof fn lemma_push_items_first<A>(frames: Seq<Frame<A>>, ps: Seq<PatternTree<A>>, vs: Seq<ValueTree<A>>)
    requires
        frames.len() > 0,
        ps.len() == vs.len(),
        ps.len() > 0,
    ensures
        push_items(frames, ps, vs) == push_item(
            push_items(frames, ps.drop_first(), vs.drop_first()),
            (ps[0], vs[0]),
        ),
{
    let q = frames.last().queue;
    assert(q + paired(ps, vs) =~= (q + paired(ps.drop_first(), vs.drop_first())).push((ps[0], vs[0])));
    assert(push_items(frames, ps, vs) =~= push_item(
        push_items(frames, ps.drop_first(), vs.drop_first()),
        (ps[0], vs[0]),
    ));
}

proof fn lemma_push_no_items<A>(frames: Seq<Frame<A>>, ps: Seq<PatternTree<A>>, vs: Seq<ValueTree<A>>)
    requires
        frames.len() > 0,
        ps.len() == 0,
    ensures
        push_items(frames, ps, vs) == frames,
{
    assert(frames.last().queue + paired(ps, vs) =~= frames.last().queue);
    assert(push_items(frames, ps, vs) =~= frames);
}

proof fn lemma_add_nexts_push_item<A>(frames: Seq<Frame<A>>, nexts: Seq<ValueTree<A>>, item: Item<A>)
    requires
        frames.len() > 0,
    ensures
        add_nexts(push_item(frames, item), nexts) == push_item(add_nexts(frames, nexts), item),
{
    assert(add_nexts(push_item(frames, item), nexts) =~= push_item(add_nexts(frames, nexts), item));
}

proof fn lemma_add_nexts_push_items<A>(
    frames: Seq<Frame<A>>,
    nexts: Seq<ValueTree<A>>,
    ps: Seq<PatternTree<A>>,
    vs: Seq<ValueTree<A>>,
)
    requires
        frames.len() > 0,
    ensures
        add_nexts(push_items(frames, ps, vs), nexts) == push_items(add_nexts(frames, nexts), ps, vs),
{
    assert(add_nexts(push_items(frames, ps, vs), nexts) =~= push_items(add_nexts(frames, nexts), ps, vs));
}

/// None of the outcomes emits a continuation point.
pub open spec fn emit_nothing<A>(outs: Seq<Outcome<A>>) -> bool {
    forall|i: int| 0 <= i < outs.len() ==> (#[trigger] outs[i]).nexts == Seq::<ValueTree<A>>::empty()
}

proof fn lemma_emit_nothing_concat<A>(a: Seq<Outcome<A>>, b: Seq<Outcome<A>>)
    requires
        emit_nothing(a),
        emit_nothing(b),
    ensures
        emit_nothing(a + b),
{
    assert forall|i: int| 0 <= i < (a + b).len() implies (#[trigger] (a + b)[i]).nexts == Seq::<
        ValueTree<A>,
    >::empty() by {
        if i < a.len() {
            assert((a + b)[i] == a[i]);
        } else {
            assert((a + b)[i] == b[i - a.len()]);
        }
    }
}

/// A walk along a path emits no continuation point.
pub proof fn lemma_path_emits_nothing<A: PartialEq>(
    steps: Seq<PatternTree<A>>,
    v: ValueTree<A>,
    bs: Seq<Binding<A>>,
)
    ensures
        emit_nothing(outcomes_path(steps, v, bs)),
    decreases steps, 0int, 0int,
{
    if steps.len() > 0 {
        lemma_then_path_emits_nothing(outcomes(steps[0], v, bs), steps.drop_first());
    }
}

proof fn lemma_then_path_emits_nothing<A: PartialEq>(outs: Seq<Outcome<A>>, rest: Seq<PatternTree<A>>)
    ensures
        emit_nothing(then_path(outs, rest)),
    decreases rest, 2int, outs.len(),
{
    if outs.len() > 0 {
        lemma_then_path_emits_nothing(outs.drop_first(), rest);
        let first = if outs[0].nexts.len() == 0 || rest.len() == 0 {
            unchanged(outs[0].binds)
        } else {
            fan_out(outs[0].nexts, rest, outs[0].binds)
        };
        if !(outs[0].nexts.len() == 0 || rest.len() == 0) {
            lemma_fan_out_emits_nothing(outs[0].nexts, rest, outs[0].binds);
        }
        lemma_emit_nothing_concat(first, then_path(outs.drop_first(), rest));
    }
}

proof fn lemma_fan_out_emits_nothing<A: PartialEq>(
    nexts: Seq<ValueTree<A>>,
    rest: Seq<PatternTree<A>>,
    bs: Seq<Binding<A>>,
)
    ensures
        emit_nothing(fan_out(nexts, rest, bs)),
    decreases rest, 1int, nexts.len(),
{
    if nexts.len() > 0 {
        lemma_path_emits_nothing(rest, nexts[0], bs);
        lemma_fan_out_emits_nothing(nexts.drop_first(), rest, bs);
        lemma_emit_nothing_concat(outcomes_path(rest, nexts[0], bs), fan_out(nexts.drop_first(), rest, bs));
    }
}

proof fn lemma_resume_closed<A: PartialEq>(outs: Seq<Outcome<A>>, frames: Seq<Frame<A>>)
    requires
        frames.len() > 0,
        emit_nothing(outs),
    ensures
        resume(outs, frames) == resume_below(outs, frames),
    decreases outs.len(),
{
    if outs.len() > 0 {
        lemma_add_no_nexts(frames);
        assert forall|i: int| 0 <= i < outs.drop_first().len() implies (#[trigger] outs.drop_first()[i]).nexts
            == Seq::<ValueTree<A>>::empty() by {
            assert(outs.drop_first()[i] == outs[i + 1]);
        }
        lemma_resume_closed(outs.drop_first(), frames);
    }
}

proof fn lemma_resume_below_unchanged<A: PartialEq>(bs: Seq<Binding<A>>, below: Seq<Frame<A>>)
    ensures
        resume_below(unchanged(bs), below) == search(bs, below).found,
{
    let outs = unchanged(bs);
    assert(outs.drop_first() =~= Seq::empty());
    assert(resume_below(outs.drop_first(), below) =~= Seq::empty());
    assert(resume_below(outs, below) =~= search(bs, below).found);
}

/// The frame of a path that waits for its running step to finish.
pub open spec fn waiting_frame<A>(rest: Seq<PatternTree<A>>) -> Frame<A> {
    Frame { queue: Seq::empty(), steps: rest, nexts: Seq::empty() }
}

/// Meeting one obligation and going on finds what going on from each
/// outcome of the pattern finds.
pub proof fn lemma_meet<A: PartialEq>(
    p: PatternTree<A>,
    v: ValueTree<A>,
    bs: Seq<Binding<A>>,
    frames: Seq<Frame<A>>,
)
    requires
        frames.len() > 0,
    ensures
        meet(bs, frames, p, v).found == resume(outcomes(p, v, bs), frames),
    decreases p, 0int, 0int,
{
    lemma_resume_unchanged(bs, frames);
    match p {
        PatternTree::CaptureVar(name) => {
            let o = Outcome { binds: bs.push((name, v)), nexts: Seq::empty() };
            lemma_resume_one(o, frames);
            lemma_add_no_nexts(frames);
        },
        PatternTree::Cons(name, ps) => {
            if let ValueTree::Cons(vname, vs) = v {
                if name == vname && ps.len() == vs.len() {
                    lemma_meet_seq(ps, vs, bs, frames);
                }
            }
        },
        PatternTree::ExactList(ps) => {
            if let ValueTree::List(vs) = v {
                if ps.len() == vs.len() {
                    lemma_meet_seq(ps, vs, bs, frames);
                }
            }
        },
        PatternTree::ListPath(ps) => {
            if let ValueTree::List(vs) = v {
                lemma_meet_windows(ps, vs, 0, bs, frames);
            }
        },
        PatternTree::PathNext => {
            lemma_resume_one(Outcome { binds: bs, nexts: seq![v] }, frames);
        },
        PatternTree::Path(steps) => {
            if steps.len() > 0 {
                lemma_meet_path(steps, v, bs, frames);
                lemma_path_emits_nothing(steps, v, bs);
                lemma_resume_closed(outcomes_path(steps, v, bs), frames);
            } else {
                assert(outcomes_path(steps, v, bs) == unchanged(bs));
            }
        },
        PatternTree::And(a, b) => {
            let under = push_item(frames, (*b, v));
            lemma_search_item(bs, under, (*a, v));
            lemma_meet(*a, v, bs, under);
            lemma_then_one(outcomes(*a, v, bs), *b, v, frames);
        },
        PatternTree::Or(a, b) => {
            lemma_search_item(bs, frames, (*a, v));
            lemma_search_item(bs, frames, (*b, v));
            lemma_meet(*a, v, bs, frames);
            lemma_meet(*b, v, bs, frames);
            lemma_resume_concat(outcomes(*a, v, bs), outcomes(*b, v, bs), frames);
        },
        _ => {},
    }
}

proof fn lemma_then_one<A: PartialEq>(
    outs: Seq<Outcome<A>>,
    b: PatternTree<A>,
    v: ValueTree<A>,
    frames: Seq<Frame<A>>,
)
    requires
        frames.len() > 0,
    ensures
        resume(outs, push_item(frames, (b, v))) == resume(then_one(outs, b, v), frames),
    decreases b, 1int, outs.len(),
{
    if outs.len() > 0 {
        let o = outs[0];
        let onward = add_nexts(frames, o.nexts);
        lemma_add_nexts_push_item(frames, o.nexts, (b, v));
        lemma_search_item(o.binds, onward, (b, v));
        lemma_meet(b, v, o.binds, onward);
        lemma_resume_with_nexts(o.nexts, outcomes(b, v, o.binds), frames);
        lemma_then_one(outs.drop_first(), b, v, frames);
        lemma_resume_concat(with_nexts(o.nexts, outcomes(b, v, o.binds)), then_one(outs.drop_first(), b, v), frames);
    }
}

proof fn lemma_meet_seq<A: PartialEq>(
    ps: Seq<PatternTree<A>>,
    vs: Seq<ValueTree<A>>,
    bs: Seq<Binding<A>>,
    frames: Seq<Frame<A>>,
)
    requires
        frames.len() > 0,
        ps.len() == vs.len(),
    ensures
        search(bs, push_items(frames, ps, vs)).found == resume(outcomes_seq(ps, vs, bs), frames),
    decreases ps, 0int, 0int,
{
    if ps.len() == 0 {
        lemma_push_no_items(frames, ps, vs);
        lemma_resume_unchanged(bs, frames);
    } else {
        lemma_push_items_first(frames, ps, vs);
        let under = push_items(frames, ps.drop_first(), vs.drop_first());
        lemma_search_item(bs, under, (ps[0], vs[0]));
        lemma_meet(ps[0], vs[0], bs, under);
        lemma_then_seq(outcomes(ps[0], vs[0], bs), ps.drop_first(), vs.drop_first(), frames);
    }
}

proof fn lemma_then_seq<A: PartialEq>(
    outs: Seq<Outcome<A>>,
    ps: Seq<PatternTree<A>>,
    vs: Seq<ValueTree<A>>,
    frames: Seq<Frame<A>>,
)
    requires
        frames.len() > 0,
        ps.len() == vs.len(),
    ensures
        resume(outs, push_items(frames, ps, vs)) == resume(then_seq(outs, ps, vs), frames),
    decreases ps, 1int, outs.len(),
{
    if outs.len() > 0 {
        let o = outs[0];
        let onward = add_nexts(frames, o.nexts);
        lemma_add_nexts_push_items(frames, o.nexts, ps, vs);
        lemma_meet_seq(ps, vs, o.binds, onward);
        lemma_resume_with_nexts(o.nexts, outcomes_seq(ps, vs, o.binds), frames);
        lemma_then_seq(outs.drop_first(), ps, vs, frames);
        lemma_resume_concat(
            with_nexts(o.nexts, outcomes_seq(ps, vs, o.binds)),
            then_seq(outs.drop_first(), ps, vs),
            frames,
        );
    }
}

proof fn lemma_meet_windows<A: PartialEq>(
    ps: Seq<PatternTree<A>>,
    vs: Seq<ValueTree<A>>,
    from: int,
    bs: Seq<Binding<A>>,
    frames: Seq<Frame<A>>,
)
    requires
        frames.len() > 0,
    ensures
        search_windows(bs, frames, ps, vs, from).found == resume(outcomes_windows(ps, vs, from, bs), frames),
    decreases ps, 1int, vs.len() - from + 1,
{
    if !(from < 0 || from + ps.len() > vs.len()) {
        let window = vs.subrange(from, from + ps.len());
        lemma_meet_seq(ps, window, bs, frames);
        lemma_meet_windows(ps, vs, from + 1, bs, frames);
        lemma_resume_concat(outcomes_seq(ps, window, bs), outcomes_windows(ps, vs, from + 1, bs), frames);
    }
}

proof fn lemma_meet_path<A: PartialEq>(
    steps: Seq<PatternTree<A>>,
    v: ValueTree<A>,
    bs: Seq<Binding<A>>,
    below: Seq<Frame<A>>,
)
    requires
        steps.len() > 0,
    ensures
        search(bs, below.push(step_frame(steps, v))).found == resume_below(outcomes_path(steps, v, bs), below),
    decreases steps, 0int, 0int,
{
    let open = below.push(waiting_frame(steps.drop_first()));
    assert(open.last().queue.push((steps[0], v)) =~= step_frame(steps, v).queue);
    assert(below.push(step_frame(steps, v)) =~= push_item(open, (steps[0], v)));
    lemma_search_item(bs, open, (steps[0], v));
    lemma_meet(steps[0], v, bs, open);
    lemma_then_path(outcomes(steps[0], v, bs), steps.drop_first(), below);
}

proof fn lemma_then_path<A: PartialEq>(outs: Seq<Outcome<A>>, rest: Seq<PatternTree<A>>, below: Seq<Frame<A>>)
    ensures
        resume(outs, below.push(waiting_frame(rest))) == resume_below(then_path(outs, rest), below),
    decreases rest, 2int, outs.len(),
{
    if outs.len() > 0 {
        let o = outs[0];
        let open = below.push(waiting_frame(rest));
        let state = add_nexts(open, o.nexts);
        assert(state.drop_last() =~= below);
        assert(state.last().nexts =~= o.nexts);
        let first = if o.nexts.len() == 0 || rest.len() == 0 {
            unchanged(o.binds)
        } else {
            fan_out(o.nexts, rest, o.binds)
        };
        if o.nexts.len() == 0 || rest.len() == 0 {
            lemma_resume_below_unchanged(o.binds, below);
        } else {
            lemma_fan(o.nexts, rest, o.binds, below);
        }
        assert(search(o.binds, state).found == resume_below(first, below));
        lemma_then_path(outs.drop_first(), rest, below);
        lemma_resume_below_concat(first, then_path(outs.drop_first(), rest), below);
    }
}

proof fn lemma_fan<A: PartialEq>(
    nexts: Seq<ValueTree<A>>,
    steps: Seq<PatternTree<A>>,
    bs: Seq<Binding<A>>,
    below: Seq<Frame<A>>,
)
    requires
        steps.len() > 0,
    ensures
        search_fan(bs, below, steps, nexts).found == resume_below(fan_out(nexts, steps, bs), below),
    decreases steps, 1int, nexts.len(),
{
    if nexts.len() > 0 {
        lemma_meet_path(steps, nexts[0], bs, below);
        lemma_fan(nexts.drop_first(), steps, bs, below);
        lemma_resume_below_concat(outcomes_path(steps, nexts[0], bs), fan_out(nexts.drop_first(), steps, bs), below);
    }
}

proof fn lemma_resume_at_end<A: PartialEq>(outs: Seq<Outcome<A>>)
    ensures
        resume_below(then_path(outs, Seq::empty()), Seq::empty()) == binds_of(outs),
    decreases outs.len(),
{
    let none = Seq::<PatternTree<A>>::empty();
    let below = Seq::<Frame<A>>::empty();
    if outs.len() == 0 {
        assert(binds_of(outs) =~= Seq::empty());
    } else {
        lemma_resume_at_end(outs.drop_first());
        lemma_resume_below_unchanged(outs[0].binds, below);
        lemma_resume_below_concat(unchanged(outs[0].binds), then_path(outs.drop_first(), none), below);
        assert(binds_of(outs) =~= seq![outs[0].binds] + binds_of(outs.drop_first()));
    }
}

/// The state in which a search for `p` on `v` starts: one frame, one
/// obligation, nothing bound.
pub open spec fn start<A>(p: PatternTree<A>, v: ValueTree<A>) -> Seq<Frame<A>> {
    seq![Frame { queue: seq![(p, v)], steps: Seq::empty(), nexts: Seq::empty() }]
}

/// The search finds the solutions of the pattern, in their order.
pub proof fn lemma_search_finds_solutions<A: PartialEq>(p: PatternTree<A>, v: ValueTree<A>)
    ensures
        search(Seq::empty(), start(p, v)).found == solutions(p, v),
{
    let steps = seq![p];
    let below = Seq::<Frame<A>>::empty();
    let bs = Seq::<Binding<A>>::empty();
    assert(steps.drop_first() =~= Seq::empty());
    assert(below.push(step_frame(steps, v)) =~= start(p, v));
    lemma_meet_path(steps, v, bs, below);
    lemma_resume_at_end(outcomes(p, v, bs));
}

} // verus!
