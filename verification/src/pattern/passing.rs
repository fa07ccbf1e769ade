//! Bindings that a pattern does not look at pass through its match
//! unchanged.

use super::data::{PatternTree, ValueTree};
use super::laws::recalls;
use super::semantics::{
    fan_out, lookup, outcomes, outcomes_path, outcomes_seq, outcomes_windows, then_one, then_path, then_seq,
    unchanged, with_nexts, Binding, Outcome,
};
use vstd::prelude::*;

verus! {

/// No template variable of `p` names something that `pre` binds.
pub open spec fn blind_to<A>(p: PatternTree<A>, pre: Seq<Binding<A>>) -> bool {
    forall|name: Seq<char>| recalls(p, name) ==> lookup(pre, name) is None
}

/// `blind_to` holds of each of `ps`.
pub open spec fn all_blind_to<A>(ps: Seq<PatternTree<A>>, pre: Seq<Binding<A>>) -> bool {
    forall|i: int| 0 <= i < ps.len() ==> blind_to(#[trigger] ps[i], pre)
}

/// The outcomes with the bindings `pre` put before their own.
pub open spec fn after<A>(pre: Seq<Binding<A>>, outs: Seq<Outcome<A>>) -> Seq<Outcome<A>> {
    Seq::new(outs.len(), |i: int| Outcome { binds: pre + outs[i].binds, nexts: outs[i].nexts })
}

proof fn lemma_lookup_after<A>(pre: Seq<Binding<A>>, bs: Seq<Binding<A>>, name: Seq<char>)
    requires
        lookup(pre, name) is None,
    ensures
        lookup(pre + bs, name) == lookup(bs, name),
    decreases pre.len(),
{
    if pre.len() == 0 {
        assert(pre + bs =~= bs);
    } else {
        assert((pre + bs).drop_first() =~= pre.drop_first() + bs);
        lemma_lookup_after(pre.drop_first(), bs, name);
    }
}

proof fn lemma_after_concat<A>(pre: Seq<Binding<A>>, a: Seq<Outcome<A>>, b: Seq<Outcome<A>>)
    ensures
        after(pre, a + b) == after(pre, a) + after(pre, b),
{
    assert(after(pre, a + b) =~= after(pre, a) + after(pre, b));
}

proof fn lemma_after_with_nexts<A>(pre: Seq<Binding<A>>, nexts: Seq<ValueTree<A>>, outs: Seq<Outcome<A>>)
    ensures
        after(pre, with_nexts(nexts, outs)) == with_nexts(nexts, after(pre, outs)),
{
    assert(after(pre, with_nexts(nexts, outs)) =~= with_nexts(nexts, after(pre, outs)));
}

proof fn lemma_after_unchanged<A>(pre: Seq<Binding<A>>, bs: Seq<Binding<A>>)
    ensures
        after(pre, unchanged(bs)) == unchanged(pre + bs),
{
    assert(after(pre, unchanged(bs)) =~= unchanged(pre + bs));
}

proof fn lemma_blind_children<A>(p: PatternTree<A>, pre: Seq<Binding<A>>)
    requires
        blind_to(p, pre),
    ensures
        p matches PatternTree::Cons(_, ps) ==> all_blind_to(ps, pre),
        p matches PatternTree::ExactList(ps) ==> all_blind_to(ps, pre),
        p matches PatternTree::ListPath(ps) ==> all_blind_to(ps, pre),
        p matches PatternTree::Path(ps) ==> all_blind_to(ps, pre),
        p matches PatternTree::And(a, b) ==> blind_to(*a, pre) && blind_to(*b, pre),
        p matches PatternTree::Or(a, b) ==> blind_to(*a, pre) && blind_to(*b, pre),
{
    match p {
        PatternTree::Cons(_, ps) => {
            assert forall|i: int| 0 <= i < ps.len() implies blind_to(#[trigger] ps[i], pre) by {
                assert forall|name: Seq<char>| recalls(ps[i], name) implies lookup(pre, name) is None by {
                    assert(recalls(p, name));
                }
            }
        },
        PatternTree::ExactList(ps) => {
            assert forall|i: int| 0 <= i < ps.len() implies blind_to(#[trigger] ps[i], pre) by {
                assert forall|name: Seq<char>| recalls(ps[i], name) implies lookup(pre, name) is None by {
                    assert(recalls(p, name));
                }
            }
        },
        PatternTree::ListPath(ps) => {
            assert forall|i: int| 0 <= i < ps.len() implies blind_to(#[trigger] ps[i], pre) by {
                assert forall|name: Seq<char>| recalls(ps[i], name) implies lookup(pre, name) is None by {
                    assert(recalls(p, name));
                }
            }
        },
        PatternTree::Path(ps) => {
            assert forall|i: int| 0 <= i < ps.len() implies blind_to(#[trigger] ps[i], pre) by {
                assert forall|name: Seq<char>| recalls(ps[i], name) implies lookup(pre, name) is None by {
                    assert(recalls(p, name));
                }
            }
        },
        PatternTree::And(a, b) => {
            assert forall|name: Seq<char>| recalls(*a, name) implies lookup(pre, name) is None by {
                assert(recalls(p, name));
            }
            assert forall|name: Seq<char>| recalls(*b, name) implies lookup(pre, name) is None by {
                assert(recalls(p, name));
            }
        },
        PatternTree::Or(a, b) => {
            assert forall|name: Seq<char>| recalls(*a, name) implies lookup(pre, name) is None by {
                assert(recalls(p, name));
            }
            assert forall|name: Seq<char>| recalls(*b, name) implies lookup(pre, name) is None by {
                assert(recalls(p, name));
            }
        },
        _ => {},
    }
}

proof fn lemma_blind_rest<A>(ps: Seq<PatternTree<A>>, pre: Seq<Binding<A>>)
    requires
        all_blind_to(ps, pre),
        ps.len() > 0,
    ensures
        blind_to(ps[0], pre),
        all_blind_to(ps.drop_first(), pre),
{
    assert forall|i: int| 0 <= i < ps.drop_first().len() implies blind_to(#[trigger] ps.drop_first()[i], pre) by {
        assert(ps.drop_first()[i] == ps[i + 1]);
    }
}

/// Bindings that a pattern does not look at pass through its match
/// unchanged: they stay in front of what it binds.
pub proof fn lemma_passes<A: PartialEq>(
    p: PatternTree<A>,
    v: ValueTree<A>,
    pre: Seq<Binding<A>>,
    bs: Seq<Binding<A>>,
)
    requires
        blind_to(p, pre),
    ensures
        outcomes(p, v, pre + bs) == after(pre, outcomes(p, v, bs)),
    decreases p, 0int, 0int,
{
    lemma_blind_children(p, pre);
    lemma_after_unchanged(pre, bs);
    assert(after(pre, Seq::<Outcome<A>>::empty()) =~= Seq::<Outcome<A>>::empty());
    match p {
        PatternTree::CaptureVar(name) => {
            assert((pre + bs).push((name, v)) =~= pre + bs.push((name, v)));
            assert(after(pre, outcomes(p, v, bs)) =~= outcomes(p, v, pre + bs));
        },
        PatternTree::Cons(name, ps) => {
            if let ValueTree::Cons(vname, vs) = v {
                lemma_passes_seq(ps, vs, pre, bs);
            }
        },
        PatternTree::ExactList(ps) => {
            if let ValueTree::List(vs) = v {
                lemma_passes_seq(ps, vs, pre, bs);
            }
        },
        PatternTree::ListPath(ps) => {
            if let ValueTree::List(vs) = v {
                lemma_passes_windows(ps, vs, 0, pre, bs);
            }
        },
        PatternTree::PathNext => {
            assert(after(pre, outcomes(p, v, bs)) =~= outcomes(p, v, pre + bs));
        },
        PatternTree::Path(steps) => {
            lemma_passes_path(steps, v, pre, bs);
        },
        PatternTree::And(a, b) => {
            lemma_passes(*a, v, pre, bs);
            lemma_passes_then_one(outcomes(*a, v, bs), *b, v, pre);
        },
        PatternTree::Or(a, b) => {
            lemma_passes(*a, v, pre, bs);
            lemma_passes(*b, v, pre, bs);
            lemma_after_concat(pre, outcomes(*a, v, bs), outcomes(*b, v, bs));
        },
        PatternTree::TemplateVar(name) => {
            assert(recalls(p, name));
            lemma_lookup_after(pre, bs, name);
        },
        _ => {},
    }
}

proof fn lemma_passes_then_one<A: PartialEq>(
    outs: Seq<Outcome<A>>,
    b: PatternTree<A>,
    v: ValueTree<A>,
    pre: Seq<Binding<A>>,
)
    requires
        blind_to(b, pre),
    ensures
        then_one(after(pre, outs), b, v) == after(pre, then_one(outs, b, v)),
    decreases b, 1int, outs.len(),
{
    if outs.len() == 0 {
        assert(after(pre, then_one(outs, b, v)) =~= Seq::<Outcome<A>>::empty());
    } else {
        let o = outs[0];
        assert(after(pre, outs).drop_first() =~= after(pre, outs.drop_first()));
        lemma_passes(b, v, pre, o.binds);
        lemma_after_with_nexts(pre, o.nexts, outcomes(b, v, o.binds));
        lemma_passes_then_one(outs.drop_first(), b, v, pre);
        lemma_after_concat(pre, with_nexts(o.nexts, outcomes(b, v, o.binds)), then_one(outs.drop_first(), b, v));
    }
}

pub proof fn lemma_passes_seq<A: PartialEq>(
    ps: Seq<PatternTree<A>>,
    vs: Seq<ValueTree<A>>,
    pre: Seq<Binding<A>>,
    bs: Seq<Binding<A>>,
)
    requires
        all_blind_to(ps, pre),
    ensures
        outcomes_seq(ps, vs, pre + bs) == after(pre, outcomes_seq(ps, vs, bs)),
    decreases ps, 0int, 0int,
{
    lemma_after_unchanged(pre, bs);
    if !(ps.len() == 0 || vs.len() == 0) {
        lemma_blind_rest(ps, pre);
        lemma_passes(ps[0], vs[0], pre, bs);
        lemma_passes_then_seq(outcomes(ps[0], vs[0], bs), ps.drop_first(), vs.drop_first(), pre);
    }
}

proof fn lemma_passes_then_seq<A: PartialEq>(
    outs: Seq<Outcome<A>>,
    ps: Seq<PatternTree<A>>,
    vs: Seq<ValueTree<A>>,
    pre: Seq<Binding<A>>,
)
    requires
        all_blind_to(ps, pre),
    ensures
        then_seq(after(pre, outs), ps, vs) == after(pre, then_seq(outs, ps, vs)),
    decreases ps, 1int, outs.len(),
{
    if outs.len() == 0 {
        assert(after(pre, then_seq(outs, ps, vs)) =~= Seq::<Outcome<A>>::empty());
    } else {
        let o = outs[0];
        assert(after(pre, outs).drop_first() =~= after(pre, outs.drop_first()));
        lemma_passes_seq(ps, vs, pre, o.binds);
        lemma_after_with_nexts(pre, o.nexts, outcomes_seq(ps, vs, o.binds));
        lemma_passes_then_seq(outs.drop_first(), ps, vs, pre);
        lemma_after_concat(
            pre,
            with_nexts(o.nexts, outcomes_seq(ps, vs, o.binds)),
            then_seq(outs.drop_first(), ps, vs),
        );
    }
}

proof fn lemma_passes_windows<A: PartialEq>(
    ps: Seq<PatternTree<A>>,
    vs: Seq<ValueTree<A>>,
    from: int,
    pre: Seq<Binding<A>>,
    bs: Seq<Binding<A>>,
)
    requires
        all_blind_to(ps, pre),
    ensures
        outcomes_windows(ps, vs, from, pre + bs) == after(pre, outcomes_windows(ps, vs, from, bs)),
    decreases ps, 1int, vs.len() - from + 1,
{
    if from < 0 || from + ps.len() > vs.len() {
        assert(after(pre, outcomes_windows(ps, vs, from, bs)) =~= Seq::<Outcome<A>>::empty());
    } else {
        let window = vs.subrange(from, from + ps.len());
        lemma_passes_seq(ps, window, pre, bs);
        lemma_passes_windows(ps, vs, from + 1, pre, bs);
        lemma_after_concat(pre, outcomes_seq(ps, window, bs), outcomes_windows(ps, vs, from + 1, bs));
    }
}

proof fn lemma_passes_path<A: PartialEq>(
    steps: Seq<PatternTree<A>>,
    v: ValueTree<A>,
    pre: Seq<Binding<A>>,
    bs: Seq<Binding<A>>,
)
    requires
        all_blind_to(steps, pre),
    ensures
        outcomes_path(steps, v, pre + bs) == after(pre, outcomes_path(steps, v, bs)),
    decreases steps, 0int, 0int,
{
    lemma_after_unchanged(pre, bs);
    if steps.len() > 0 {
        lemma_blind_rest(steps, pre);
        lemma_passes(steps[0], v, pre, bs);
        lemma_passes_then_path(outcomes(steps[0], v, bs), steps.drop_first(), pre);
    }
}

proof fn lemma_passes_then_path<A: PartialEq>(outs: Seq<Outcome<A>>, rest: Seq<PatternTree<A>>, pre: Seq<Binding<A>>)
    requires
        all_blind_to(rest, pre),
    ensures
        then_path(after(pre, outs), rest) == after(pre, then_path(outs, rest)),
    decreases rest, 2int, outs.len(),
{
    if outs.len() == 0 {
        assert(after(pre, then_path(outs, rest)) =~= Seq::<Outcome<A>>::empty());
    } else {
        let o = outs[0];
        assert(after(pre, outs).drop_first() =~= after(pre, outs.drop_first()));
        let first = if o.nexts.len() == 0 || rest.len() == 0 {
            unchanged(o.binds)
        } else {
            fan_out(o.nexts, rest, o.binds)
        };
        if o.nexts.len() == 0 || rest.len() == 0 {
            lemma_after_unchanged(pre, o.binds);
        } else {
            lemma_passes_fan_out(o.nexts, rest, pre, o.binds);
        }
        lemma_passes_then_path(outs.drop_first(), rest, pre);
        lemma_after_concat(pre, first, then_path(outs.drop_first(), rest));
    }
}

proof fn lemma_passes_fan_out<A: PartialEq>(
    nexts: Seq<ValueTree<A>>,
    rest: Seq<PatternTree<A>>,
    pre: Seq<Binding<A>>,
    bs: Seq<Binding<A>>,
)
    requires
        all_blind_to(rest, pre),
    ensures
        fan_out(nexts, rest, pre + bs) == after(pre, fan_out(nexts, rest, bs)),
    decreases rest, 1int, nexts.len(),
{
    if nexts.len() == 0 {
        assert(after(pre, fan_out(nexts, rest, bs)) =~= Seq::<Outcome<A>>::empty());
    } else {
        lemma_passes_path(rest, nexts[0], pre, bs);
        lemma_passes_fan_out(nexts.drop_first(), rest, pre, bs);
        lemma_after_concat(pre, outcomes_path(rest, nexts[0], bs), fan_out(nexts.drop_first(), rest, bs));
    }
}

} // verus!
