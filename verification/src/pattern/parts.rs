//! What a match binds is a part of the value that was matched.

use super::data::{PatternTree, ValueTree};
use super::semantics::{
    fan_out, outcomes, outcomes_path, outcomes_seq, outcomes_windows, solutions, then_one, then_path, then_seq,
    unchanged, with_nexts, Binding, Outcome,
};
use vstd::prelude::*;

verus! {

/// `t` is `v` or stands somewhere inside it.
pub open spec fn part_of<A>(t: ValueTree<A>, v: ValueTree<A>) -> bool
    decreases v,
{
    t == v || match v {
        ValueTree::Cons(_, cs) => exists|i: int| 0 <= i < cs.len() && part_of(t, #[trigger] cs[i]),
        ValueTree::List(cs) => exists|i: int| 0 <= i < cs.len() && part_of(t, #[trigger] cs[i]),
        _ => false,
    }
}

/// `t` is a part of one of `vs`.
pub open spec fn part_of_any<A>(t: ValueTree<A>, vs: Seq<ValueTree<A>>) -> bool {
    exists|i: int| 0 <= i < vs.len() && part_of(t, #[trigger] vs[i])
}

/// `o` has the bindings `bs` and then only parts of `vs`, and emits only
/// parts of `vs`.
pub open spec fn takes_from<A>(bs: Seq<Binding<A>>, o: Outcome<A>, vs: Seq<ValueTree<A>>) -> bool {
    &&& bs.len() <= o.binds.len()
    &&& o.binds.subrange(0, bs.len() as int) == bs
    &&& forall|k: int| bs.len() <= k < o.binds.len() ==> part_of_any((#[trigger] o.binds[k]).1, vs)
    &&& forall|k: int| 0 <= k < o.nexts.len() ==> part_of_any(#[trigger] o.nexts[k], vs)
}

/// `takes_from` holds of each outcome.
pub open spec fn all_take_from<A>(bs: Seq<Binding<A>>, outs: Seq<Outcome<A>>, vs: Seq<ValueTree<A>>) -> bool {
    forall|i: int| 0 <= i < outs.len() ==> takes_from(bs, #[trigger] outs[i], vs)
}

/// A part of a part is a part.
pub proof fn lemma_part_of_part<A>(t: ValueTree<A>, u: ValueTree<A>, v: ValueTree<A>)
    requires
        part_of(t, u),
        part_of(u, v),
    ensures
        part_of(t, v),
    decreases v,
{
    if u != v {
        match v {
            ValueTree::Cons(_, cs) => {
                let i = choose|i: int| 0 <= i < cs.len() && part_of(u, #[trigger] cs[i]);
                lemma_part_of_part(t, u, cs[i]);
            },
            ValueTree::List(cs) => {
                let i = choose|i: int| 0 <= i < cs.len() && part_of(u, #[trigger] cs[i]);
                lemma_part_of_part(t, u, cs[i]);
            },
            _ => {},
        }
    }
}

proof fn lemma_part_of_any_wider<A>(t: ValueTree<A>, vs: Seq<ValueTree<A>>, ws: Seq<ValueTree<A>>)
    requires
        part_of_any(t, vs),
        forall|i: int| 0 <= i < vs.len() ==> part_of_any(#[trigger] vs[i], ws),
    ensures
        part_of_any(t, ws),
{
    let i = choose|i: int| 0 <= i < vs.len() && part_of(t, #[trigger] vs[i]);
    let j = choose|j: int| 0 <= j < ws.len() && part_of(vs[i], #[trigger] ws[j]);
    lemma_part_of_part(t, vs[i], ws[j]);
}

proof fn lemma_takes_from_wider<A>(bs: Seq<Binding<A>>, outs: Seq<Outcome<A>>, vs: Seq<ValueTree<A>>, ws: Seq<ValueTree<A>>)
    requires
        all_take_from(bs, outs, vs),
        forall|i: int| 0 <= i < vs.len() ==> part_of_any(#[trigger] vs[i], ws),
    ensures
        all_take_from(bs, outs, ws),
{
    assert forall|i: int| 0 <= i < outs.len() implies takes_from(bs, #[trigger] outs[i], ws) by {
        let o = outs[i];
        assert(takes_from(bs, o, vs));
        assert forall|k: int| bs.len() <= k < o.binds.len() implies part_of_any((#[trigger] o.binds[k]).1, ws) by {
            lemma_part_of_any_wider(o.binds[k].1, vs, ws);
        }
        assert forall|k: int| 0 <= k < o.nexts.len() implies part_of_any(#[trigger] o.nexts[k], ws) by {
            lemma_part_of_any_wider(o.nexts[k], vs, ws);
        }
    }
}

proof fn lemma_takes_chain<A>(
    bs: Seq<Binding<A>>,
    mid: Outcome<A>,
    outs: Seq<Outcome<A>>,
    vs: Seq<ValueTree<A>>,
)
    requires
        takes_from(bs, mid, vs),
        all_take_from(mid.binds, outs, vs),
    ensures
        all_take_from(bs, with_nexts(mid.nexts, outs), vs),
{
    let shifted = with_nexts(mid.nexts, outs);
    assert forall|i: int| 0 <= i < shifted.len() implies takes_from(bs, #[trigger] shifted[i], vs) by {
        let o = outs[i];
        let s = shifted[i];
        assert(takes_from(mid.binds, o, vs));
        assert(s.binds == o.binds);
        assert(s.nexts == mid.nexts + o.nexts);
        assert(s.binds.subrange(0, bs.len() as int) =~= bs) by {
            assert forall|k: int| 0 <= k < bs.len() implies s.binds[k] == bs[k] by {
                assert(o.binds.subrange(0, mid.binds.len() as int)[k] == mid.binds[k]);
                assert(mid.binds.subrange(0, bs.len() as int)[k] == bs[k]);
            }
        }
        assert forall|k: int| bs.len() <= k < s.binds.len() implies part_of_any((#[trigger] s.binds[k]).1, vs) by {
            if k < mid.binds.len() {
                assert(o.binds.subrange(0, mid.binds.len() as int)[k] == mid.binds[k]);
            }
        }
        assert forall|k: int| 0 <= k < s.nexts.len() implies part_of_any(#[trigger] s.nexts[k], vs) by {
            if k >= mid.nexts.len() {
                assert(s.nexts[k] == o.nexts[k - mid.nexts.len()]);
            }
        }
    }
}

proof fn lemma_takes_concat<A>(bs: Seq<Binding<A>>, a: Seq<Outcome<A>>, b: Seq<Outcome<A>>, vs: Seq<ValueTree<A>>)
    requires
        all_take_from(bs, a, vs),
        all_take_from(bs, b, vs),
    ensures
        all_take_from(bs, a + b, vs),
{
    assert forall|i: int| 0 <= i < (a + b).len() implies takes_from(bs, #[trigger] (a + b)[i], vs) by {
        if i < a.len() {
            assert((a + b)[i] == a[i]);
        } else {
            assert((a + b)[i] == b[i - a.len()]);
        }
    }
}

proof fn lemma_takes_rest<A>(bs: Seq<Binding<A>>, outs: Seq<Outcome<A>>, vs: Seq<ValueTree<A>>)
    requires
        all_take_from(bs, outs, vs),
        outs.len() > 0,
    ensures
        all_take_from(bs, outs.drop_first(), vs),
        takes_from(bs, outs[0], vs),
{
    assert forall|i: int| 0 <= i < outs.drop_first().len() implies takes_from(
        bs,
        #[trigger] outs.drop_first()[i],
        vs,
    ) by {
        assert(outs.drop_first()[i] == outs[i + 1]);
    }
}

proof fn lemma_takes_nothing<A>(bs: Seq<Binding<A>>, vs: Seq<ValueTree<A>>)
    ensures
        all_take_from(bs, unchanged(bs), vs),
        all_take_from(bs, Seq::<Outcome<A>>::empty(), vs),
{
    assert(bs.subrange(0, bs.len() as int) =~= bs);
}

proof fn lemma_parts_of_itself<A>(v: ValueTree<A>)
    ensures
        part_of_any(v, seq![v]),
        v matches ValueTree::Cons(_, cs) ==> forall|i: int| 0 <= i < cs.len() ==> part_of_any(#[trigger] cs[i], seq![v]),
        v matches ValueTree::List(cs) ==> forall|i: int| 0 <= i < cs.len() ==> part_of_any(#[trigger] cs[i], seq![v]),
{
    let one = seq![v];
    assert(part_of(v, one[0]));
    match v {
        ValueTree::Cons(_, cs) => {
            assert forall|i: int| 0 <= i < cs.len() implies part_of_any(#[trigger] cs[i], one) by {
                assert(part_of(cs[i], cs[i]));
                assert(part_of(cs[i], one[0]));
            }
        },
        ValueTree::List(cs) => {
            assert forall|i: int| 0 <= i < cs.len() implies part_of_any(#[trigger] cs[i], one) by {
                assert(part_of(cs[i], cs[i]));
                assert(part_of(cs[i], one[0]));
            }
        },
        _ => {},
    }
}

/// What a pattern binds and emits when it matches a value is a part of
/// that value.
pub proof fn lemma_takes<A: PartialEq>(p: PatternTree<A>, v: ValueTree<A>, bs: Seq<Binding<A>>)
    ensures
        all_take_from(bs, outcomes(p, v, bs), seq![v]),
    decreases p, 0int, 0int,
{
    let one = seq![v];
    lemma_takes_nothing(bs, one);
    lemma_parts_of_itself(v);
    match p {
        PatternTree::CaptureVar(name) => {
            let o = Outcome { binds: bs.push((name, v)), nexts: Seq::<ValueTree<A>>::empty() };
            assert(o.binds.subrange(0, bs.len() as int) =~= bs);
            assert(takes_from(bs, o, one));
        },
        PatternTree::PathNext => {
            let o = Outcome { binds: bs, nexts: seq![v] };
            assert(o.binds.subrange(0, bs.len() as int) =~= bs);
            assert(takes_from(bs, o, one));
        },
        PatternTree::Cons(name, ps) => {
            if let ValueTree::Cons(vname, vs) = v {
                if name == vname && ps.len() == vs.len() {
                    lemma_takes_seq(ps, vs, bs);
                    lemma_takes_from_wider(bs, outcomes_seq(ps, vs, bs), vs, one);
                }
            }
        },
        PatternTree::ExactList(ps) => {
            if let ValueTree::List(vs) = v {
                if ps.len() == vs.len() {
                    lemma_takes_seq(ps, vs, bs);
                    lemma_takes_from_wider(bs, outcomes_seq(ps, vs, bs), vs, one);
                }
            }
        },
        PatternTree::ListPath(ps) => {
            if let ValueTree::List(vs) = v {
                lemma_takes_windows(ps, vs, 0, bs);
                lemma_takes_from_wider(bs, outcomes_windows(ps, vs, 0, bs), vs, one);
            }
        },
        PatternTree::Path(steps) => {
            lemma_takes_path(steps, v, bs);
        },
        PatternTree::And(a, b) => {
            lemma_takes(*a, v, bs);
            lemma_takes_then_one(outcomes(*a, v, bs), *b, v, bs);
        },
        PatternTree::Or(a, b) => {
            lemma_takes(*a, v, bs);
            lemma_takes(*b, v, bs);
            lemma_takes_concat(bs, outcomes(*a, v, bs), outcomes(*b, v, bs), one);
        },
        _ => {},
    }
}

proof fn lemma_takes_then_one<A: PartialEq>(
    outs: Seq<Outcome<A>>,
    b: PatternTree<A>,
    v: ValueTree<A>,
    bs: Seq<Binding<A>>,
)
    requires
        all_take_from(bs, outs, seq![v]),
    ensures
        all_take_from(bs, then_one(outs, b, v), seq![v]),
    decreases b, 1int, outs.len(),
{
    let one = seq![v];
    lemma_takes_nothing(bs, one);
    if outs.len() > 0 {
        let o = outs[0];
        lemma_takes_rest(bs, outs, one);
        lemma_takes(b, v, o.binds);
        lemma_takes_chain(bs, o, outcomes(b, v, o.binds), one);
        lemma_takes_then_one(outs.drop_first(), b, v, bs);
        lemma_takes_concat(bs, with_nexts(o.nexts, outcomes(b, v, o.binds)), then_one(outs.drop_first(), b, v), one);
    }
}

proof fn lemma_rest_is_within<A>(vs: Seq<ValueTree<A>>)
    requires
        vs.len() > 0,
    ensures
        part_of_any(vs[0], vs),
        forall|i: int| 0 <= i < vs.drop_first().len() ==> part_of_any(#[trigger] vs.drop_first()[i], vs),
        forall|i: int| 0 <= i < 1 ==> part_of_any(#[trigger] seq![vs[0]][i], vs),
{
    assert(part_of(vs[0], vs[0]));
    assert forall|i: int| 0 <= i < vs.drop_first().len() implies part_of_any(#[trigger] vs.drop_first()[i], vs) by {
        assert(part_of(vs[i + 1], vs[i + 1]));
    }
}

proof fn lemma_takes_seq<A: PartialEq>(ps: Seq<PatternTree<A>>, vs: Seq<ValueTree<A>>, bs: Seq<Binding<A>>)
    ensures
        all_take_from(bs, outcomes_seq(ps, vs, bs), vs),
    decreases ps, 0int, 0int,
{
    lemma_takes_nothing(bs, vs);
    if !(ps.len() == 0 || vs.len() == 0) {
        lemma_rest_is_within(vs);
        lemma_takes(ps[0], vs[0], bs);
        lemma_takes_from_wider(bs, outcomes(ps[0], vs[0], bs), seq![vs[0]], vs);
        lemma_takes_then_seq(outcomes(ps[0], vs[0], bs), ps.drop_first(), vs.drop_first(), bs, vs);
    }
}

proof fn lemma_takes_then_seq<A: PartialEq>(
    outs: Seq<Outcome<A>>,
    ps: Seq<PatternTree<A>>,
    vs: Seq<ValueTree<A>>,
    bs: Seq<Binding<A>>,
    all: Seq<ValueTree<A>>,
)
    requires
        all_take_from(bs, outs, all),
        forall|i: int| 0 <= i < vs.len() ==> part_of_any(#[trigger] vs[i], all),
    ensures
        all_take_from(bs, then_seq(outs, ps, vs), all),
    decreases ps, 1int, outs.len(),
{
    lemma_takes_nothing(bs, all);
    if outs.len() > 0 {
        let o = outs[0];
        lemma_takes_rest(bs, outs, all);
        lemma_takes_seq(ps, vs, o.binds);
        lemma_takes_from_wider(o.binds, outcomes_seq(ps, vs, o.binds), vs, all);
        lemma_takes_chain(bs, o, outcomes_seq(ps, vs, o.binds), all);
        lemma_takes_then_seq(outs.drop_first(), ps, vs, bs, all);
        lemma_takes_concat(
            bs,
            with_nexts(o.nexts, outcomes_seq(ps, vs, o.binds)),
            then_seq(outs.drop_first(), ps, vs),
            all,
        );
    }
}

proof fn lemma_takes_windows<A: PartialEq>(ps: Seq<PatternTree<A>>, vs: Seq<ValueTree<A>>, from: int, bs: Seq<Binding<A>>)
    ensures
        all_take_from(bs, outcomes_windows(ps, vs, from, bs), vs),
    decreases ps, 1int, vs.len() - from + 1,
{
    lemma_takes_nothing(bs, vs);
    if !(from < 0 || from + ps.len() > vs.len()) {
        let window = vs.subrange(from, from + ps.len());
        lemma_takes_seq(ps, window, bs);
        assert forall|i: int| 0 <= i < window.len() implies part_of_any(#[trigger] window[i], vs) by {
            assert(part_of(window[i], vs[from + i]));
        }
        lemma_takes_from_wider(bs, outcomes_seq(ps, window, bs), window, vs);
        lemma_takes_windows(ps, vs, from + 1, bs);
        lemma_takes_concat(bs, outcomes_seq(ps, window, bs), outcomes_windows(ps, vs, from + 1, bs), vs);
    }
}

proof fn lemma_takes_path<A: PartialEq>(steps: Seq<PatternTree<A>>, v: ValueTree<A>, bs: Seq<Binding<A>>)
    ensures
        all_take_from(bs, outcomes_path(steps, v, bs), seq![v]),
    decreases steps, 0int, 0int,
{
    lemma_takes_nothing(bs, seq![v]);
    if steps.len() > 0 {
        lemma_takes(steps[0], v, bs);
        lemma_takes_then_path(outcomes(steps[0], v, bs), steps.drop_first(), bs, v);
    }
}

proof fn lemma_takes_then_path<A: PartialEq>(
    outs: Seq<Outcome<A>>,
    rest: Seq<PatternTree<A>>,
    bs: Seq<Binding<A>>,
    v: ValueTree<A>,
)
    requires
        all_take_from(bs, outs, seq![v]),
    ensures
        all_take_from(bs, then_path(outs, rest), seq![v]),
    decreases rest, 2int, outs.len(),
{
    let one = seq![v];
    lemma_takes_nothing(bs, one);
    if outs.len() > 0 {
        let o = outs[0];
        lemma_takes_rest(bs, outs, one);
        let here = if o.nexts.len() == 0 || rest.len() == 0 {
            unchanged(o.binds)
        } else {
            fan_out(o.nexts, rest, o.binds)
        };
        if o.nexts.len() == 0 || rest.len() == 0 {
            lemma_takes_nothing(o.binds, one);
        } else {
            lemma_takes_fan_out(o.nexts, rest, o.binds, v);
        }
        let closed = Outcome { binds: o.binds, nexts: Seq::<ValueTree<A>>::empty() };
        assert(takes_from(bs, closed, one));
        lemma_takes_chain(bs, closed, here, one);
        assert(with_nexts(closed.nexts, here) =~= here) by {
            assert forall|i: int| 0 <= i < here.len() implies with_nexts(closed.nexts, here)[i] == here[i] by {
                assert(Seq::<ValueTree<A>>::empty() + here[i].nexts =~= here[i].nexts);
            }
        }
        lemma_takes_then_path(outs.drop_first(), rest, bs, v);
        lemma_takes_concat(bs, here, then_path(outs.drop_first(), rest), one);
    }
}

proof fn lemma_takes_fan_out<A: PartialEq>(
    nexts: Seq<ValueTree<A>>,
    rest: Seq<PatternTree<A>>,
    bs: Seq<Binding<A>>,
    v: ValueTree<A>,
)
    requires
        forall|k: int| 0 <= k < nexts.len() ==> part_of_any(#[trigger] nexts[k], seq![v]),
    ensures
        all_take_from(bs, fan_out(nexts, rest, bs), seq![v]),
    decreases rest, 1int, nexts.len(),
{
    let one = seq![v];
    lemma_takes_nothing(bs, one);
    if nexts.len() > 0 {
        lemma_takes_path(rest, nexts[0], bs);
        assert forall|i: int| 0 <= i < 1 implies part_of_any(#[trigger] seq![nexts[0]][i], one) by {}
        lemma_takes_from_wider(bs, outcomes_path(rest, nexts[0], bs), seq![nexts[0]], one);
        assert forall|k: int| 0 <= k < nexts.drop_first().len() implies part_of_any(
            #[trigger] nexts.drop_first()[k],
            one,
        ) by {
            assert(nexts.drop_first()[k] == nexts[k + 1]);
        }
        lemma_takes_fan_out(nexts.drop_first(), rest, bs, v);
        lemma_takes_concat(bs, outcomes_path(rest, nexts[0], bs), fan_out(nexts.drop_first(), rest, bs), one);
    }
}

/// Every result binds its names to parts of the value that was matched.
pub proof fn law_results_bind_parts_of_the_value<A: PartialEq>(p: PatternTree<A>, v: ValueTree<A>)
    ensures
        forall|i: int, k: int|
            0 <= i < solutions(p, v).len() && 0 <= k < solutions(p, v)[i].len() ==> part_of(
                (#[trigger] solutions(p, v)[i][k]).1,
                v,
            ),
{
    let none = Seq::<Binding<A>>::empty();
    lemma_takes(p, v, none);
    assert forall|i: int, k: int| 0 <= i < solutions(p, v).len() && 0 <= k < solutions(p, v)[i].len() implies part_of(
        (#[trigger] solutions(p, v)[i][k]).1,
        v,
    ) by {
        let o = outcomes(p, v, none)[i];
        assert(takes_from(none, o, seq![v]));
        assert(part_of_any(o.binds[k].1, seq![v]));
    }
}

} // verus!
