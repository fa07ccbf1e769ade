//! A match binds behind what was bound before, under names that the
//! pattern captures.

use super::data::{PatternTree, ValueTree};
use super::laws::captures;
use super::semantics::{
    fan_out, outcomes, outcomes_path, outcomes_seq, outcomes_windows, then_one, then_path, then_seq, unchanged,
    with_nexts, Binding, Outcome,
};
use vstd::prelude::*;

verus! {

/// The names that `p` captures somewhere.
pub open spec fn captured<A>(p: PatternTree<A>) -> Set<Seq<char>> {
    Set::new(|name: Seq<char>| captures(p, name))
}

/// The names that any of `ps` captures somewhere.
pub open spec fn captured_by_any<A>(ps: Seq<PatternTree<A>>) -> Set<Seq<char>> {
    Set::new(|name: Seq<char>| exists|i: int| 0 <= i < ps.len() && captures(#[trigger] ps[i], name))
}

/// `binds` is `bs` followed by bindings of names in `allowed`.
pub open spec fn extends<A>(bs: Seq<Binding<A>>, binds: Seq<Binding<A>>, allowed: Set<Seq<char>>) -> bool {
    &&& bs.len() <= binds.len()
    &&& binds.subrange(0, bs.len() as int) == bs
    &&& forall|k: int| bs.len() <= k < binds.len() ==> allowed.contains((#[trigger] binds[k]).0)
}

/// `extends` holds of the bindings of each outcome.
pub open spec fn all_extend<A>(bs: Seq<Binding<A>>, outs: Seq<Outcome<A>>, allowed: Set<Seq<char>>) -> bool {
    forall|i: int| 0 <= i < outs.len() ==> extends(bs, (#[trigger] outs[i]).binds, allowed)
}

proof fn lemma_extends_chain<A>(
    bs: Seq<Binding<A>>,
    mid: Seq<Binding<A>>,
    binds: Seq<Binding<A>>,
    first: Set<Seq<char>>,
    second: Set<Seq<char>>,
    allowed: Set<Seq<char>>,
)
    requires
        extends(bs, mid, first),
        extends(mid, binds, second),
        first.subset_of(allowed),
        second.subset_of(allowed),
    ensures
        extends(bs, binds, allowed),
{
    assert(binds.subrange(0, bs.len() as int) =~= mid.subrange(0, bs.len() as int)) by {
        assert(binds.subrange(0, mid.len() as int) == mid);
        assert forall|k: int| 0 <= k < bs.len() implies binds[k] == mid[k] by {
            assert(binds.subrange(0, mid.len() as int)[k] == mid[k]);
        }
    }
    assert forall|k: int| bs.len() <= k < binds.len() implies allowed.contains((#[trigger] binds[k]).0) by {
        if k < mid.len() {
            assert(binds.subrange(0, mid.len() as int)[k] == mid[k]);
        }
    }
}

proof fn lemma_all_extend_chain<A>(
    bs: Seq<Binding<A>>,
    mid: Seq<Binding<A>>,
    outs: Seq<Outcome<A>>,
    first: Set<Seq<char>>,
    second: Set<Seq<char>>,
    allowed: Set<Seq<char>>,
)
    requires
        extends(bs, mid, first),
        all_extend(mid, outs, second),
        first.subset_of(allowed),
        second.subset_of(allowed),
    ensures
        all_extend(bs, outs, allowed),
{
    assert forall|i: int| 0 <= i < outs.len() implies extends(bs, (#[trigger] outs[i]).binds, allowed) by {
        lemma_extends_chain(bs, mid, outs[i].binds, first, second, allowed);
    }
}

proof fn lemma_all_extend_concat<A>(
    bs: Seq<Binding<A>>,
    a: Seq<Outcome<A>>,
    b: Seq<Outcome<A>>,
    allowed: Set<Seq<char>>,
)
    requires
        all_extend(bs, a, allowed),
        all_extend(bs, b, allowed),
    ensures
        all_extend(bs, a + b, allowed),
{
    assert forall|i: int| 0 <= i < (a + b).len() implies extends(bs, (#[trigger] (a + b)[i]).binds, allowed) by {
        if i < a.len() {
            assert((a + b)[i] == a[i]);
        } else {
            assert((a + b)[i] == b[i - a.len()]);
        }
    }
}

proof fn lemma_all_extend_with_nexts<A>(
    bs: Seq<Binding<A>>,
    nexts: Seq<ValueTree<A>>,
    outs: Seq<Outcome<A>>,
    allowed: Set<Seq<char>>,
)
    requires
        all_extend(bs, outs, allowed),
    ensures
        all_extend(bs, with_nexts(nexts, outs), allowed),
{
    assert forall|i: int| 0 <= i < with_nexts(nexts, outs).len() implies extends(
        bs,
        (#[trigger] with_nexts(nexts, outs)[i]).binds,
        allowed,
    ) by {
        assert(with_nexts(nexts, outs)[i].binds == outs[i].binds);
    }
}

proof fn lemma_all_extend_unchanged<A>(bs: Seq<Binding<A>>, allowed: Set<Seq<char>>)
    ensures
        all_extend(bs, unchanged(bs), allowed),
        all_extend(bs, Seq::<Outcome<A>>::empty(), allowed),
        extends(bs, bs, allowed),
{
    assert(bs.subrange(0, bs.len() as int) =~= bs);
}

proof fn lemma_captured_parts<A>(p: PatternTree<A>)
    ensures
        p matches PatternTree::Cons(_, ps) ==> captured_by_any(ps) == captured(p),
        p matches PatternTree::ExactList(ps) ==> captured_by_any(ps) == captured(p),
        p matches PatternTree::ListPath(ps) ==> captured_by_any(ps) == captured(p),
        p matches PatternTree::Path(ps) ==> captured_by_any(ps) == captured(p),
        p matches PatternTree::And(a, b) ==> captured(*a).subset_of(captured(p)) && captured(*b).subset_of(
            captured(p),
        ),
        p matches PatternTree::Or(a, b) ==> captured(*a).subset_of(captured(p)) && captured(*b).subset_of(
            captured(p),
        ),
{
    match p {
        PatternTree::Cons(_, ps) => {
            assert(captured_by_any(ps) =~= captured(p));
        },
        PatternTree::ExactList(ps) => {
            assert(captured_by_any(ps) =~= captured(p));
        },
        PatternTree::ListPath(ps) => {
            assert(captured_by_any(ps) =~= captured(p));
        },
        PatternTree::Path(ps) => {
            assert(captured_by_any(ps) =~= captured(p));
        },
        _ => {},
    }
}

proof fn lemma_captured_rest<A>(ps: Seq<PatternTree<A>>)
    requires
        ps.len() > 0,
    ensures
        captured(ps[0]).subset_of(captured_by_any(ps)),
        captured_by_any(ps.drop_first()).subset_of(captured_by_any(ps)),
{
    assert forall|name: Seq<char>| captured_by_any(ps.drop_first()).contains(name) implies captured_by_any(
        ps,
    ).contains(name) by {
        let i = choose|i: int| 0 <= i < ps.drop_first().len() && captures(#[trigger] ps.drop_first()[i], name);
        assert(ps.drop_first()[i] == ps[i + 1]);
    }
}

/// What a match of `p` binds, it binds behind what was bound before, under
/// names that `p` captures.
pub proof fn lemma_binds<A: PartialEq>(p: PatternTree<A>, v: ValueTree<A>, bs: Seq<Binding<A>>)
    ensures
        all_extend(bs, outcomes(p, v, bs), captured(p)),
    decreases p, 0int, 0int,
{
    let allowed = captured(p);
    lemma_all_extend_unchanged(bs, allowed);
    lemma_captured_parts(p);
    match p {
        PatternTree::CaptureVar(name) => {
            let binds = bs.push((name, v));
            assert(binds.subrange(0, bs.len() as int) =~= bs);
            assert(captures(p, name));
        },
        PatternTree::Cons(name, ps) => {
            if let ValueTree::Cons(vname, vs) = v {
                lemma_binds_seq(ps, vs, bs);
            }
        },
        PatternTree::ExactList(ps) => {
            if let ValueTree::List(vs) = v {
                lemma_binds_seq(ps, vs, bs);
            }
        },
        PatternTree::ListPath(ps) => {
            if let ValueTree::List(vs) = v {
                lemma_binds_windows(ps, vs, 0, bs);
            }
        },
        PatternTree::Path(steps) => {
            lemma_binds_path(steps, v, bs);
        },
        PatternTree::And(a, b) => {
            lemma_binds(*a, v, bs);
            lemma_binds_then_one(outcomes(*a, v, bs), *b, v, bs, captured(*a), allowed);
        },
        PatternTree::Or(a, b) => {
            lemma_binds(*a, v, bs);
            lemma_binds(*b, v, bs);
            assert(all_extend(bs, outcomes(*a, v, bs), allowed)) by {
                assert forall|i: int| 0 <= i < outcomes(*a, v, bs).len() implies extends(
                    bs,
                    (#[trigger] outcomes(*a, v, bs)[i]).binds,
                    allowed,
                ) by {
                    lemma_all_extend_unchanged(outcomes(*a, v, bs)[i].binds, allowed);
                    lemma_extends_chain(
                        bs,
                        outcomes(*a, v, bs)[i].binds,
                        outcomes(*a, v, bs)[i].binds,
                        captured(*a),
                        allowed,
                        allowed,
                    );
                }
            }
            assert(all_extend(bs, outcomes(*b, v, bs), allowed)) by {
                assert forall|i: int| 0 <= i < outcomes(*b, v, bs).len() implies extends(
                    bs,
                    (#[trigger] outcomes(*b, v, bs)[i]).binds,
                    allowed,
                ) by {
                    lemma_all_extend_unchanged(outcomes(*b, v, bs)[i].binds, allowed);
                    lemma_extends_chain(
                        bs,
                        outcomes(*b, v, bs)[i].binds,
                        outcomes(*b, v, bs)[i].binds,
                        captured(*b),
                        allowed,
                        allowed,
                    );
                }
            }
            lemma_all_extend_concat(bs, outcomes(*a, v, bs), outcomes(*b, v, bs), allowed);
        },
        _ => {},
    }
}

proof fn lemma_binds_then_one<A: PartialEq>(
    outs: Seq<Outcome<A>>,
    b: PatternTree<A>,
    v: ValueTree<A>,
    bs: Seq<Binding<A>>,
    first: Set<Seq<char>>,
    allowed: Set<Seq<char>>,
)
    requires
        all_extend(bs, outs, first),
        first.subset_of(allowed),
        captured(b).subset_of(allowed),
    ensures
        all_extend(bs, then_one(outs, b, v), allowed),
    decreases b, 1int, outs.len(),
{
    lemma_all_extend_unchanged(bs, allowed);
    if outs.len() > 0 {
        let o = outs[0];
        lemma_binds(b, v, o.binds);
        lemma_all_extend_chain(bs, o.binds, outcomes(b, v, o.binds), first, captured(b), allowed);
        lemma_all_extend_with_nexts(bs, o.nexts, outcomes(b, v, o.binds), allowed);
        assert forall|i: int| 0 <= i < outs.drop_first().len() implies extends(
            bs,
            (#[trigger] outs.drop_first()[i]).binds,
            first,
        ) by {
            assert(outs.drop_first()[i] == outs[i + 1]);
        }
        lemma_binds_then_one(outs.drop_first(), b, v, bs, first, allowed);
        lemma_all_extend_concat(
            bs,
            with_nexts(o.nexts, outcomes(b, v, o.binds)),
            then_one(outs.drop_first(), b, v),
            allowed,
        );
    }
}

proof fn lemma_binds_seq<A: PartialEq>(ps: Seq<PatternTree<A>>, vs: Seq<ValueTree<A>>, bs: Seq<Binding<A>>)
    ensures
        all_extend(bs, outcomes_seq(ps, vs, bs), captured_by_any(ps)),
    decreases ps, 0int, 0int,
{
    let allowed = captured_by_any(ps);
    lemma_all_extend_unchanged(bs, allowed);
    if !(ps.len() == 0 || vs.len() == 0) {
        lemma_captured_rest(ps);
        lemma_binds(ps[0], vs[0], bs);
        lemma_binds_then_seq(
            outcomes(ps[0], vs[0], bs),
            ps.drop_first(),
            vs.drop_first(),
            bs,
            captured(ps[0]),
            allowed,
        );
    }
}

proof fn lemma_binds_then_seq<A: PartialEq>(
    outs: Seq<Outcome<A>>,
    ps: Seq<PatternTree<A>>,
    vs: Seq<ValueTree<A>>,
    bs: Seq<Binding<A>>,
    first: Set<Seq<char>>,
    allowed: Set<Seq<char>>,
)
    requires
        all_extend(bs, outs, first),
        first.subset_of(allowed),
        captured_by_any(ps).subset_of(allowed),
    ensures
        all_extend(bs, then_seq(outs, ps, vs), allowed),
    decreases ps, 1int, outs.len(),
{
    lemma_all_extend_unchanged(bs, allowed);
    if outs.len() > 0 {
        let o = outs[0];
        lemma_binds_seq(ps, vs, o.binds);
        lemma_all_extend_chain(bs, o.binds, outcomes_seq(ps, vs, o.binds), first, captured_by_any(ps), allowed);
        lemma_all_extend_with_nexts(bs, o.nexts, outcomes_seq(ps, vs, o.binds), allowed);
        assert forall|i: int| 0 <= i < outs.drop_first().len() implies extends(
            bs,
            (#[trigger] outs.drop_first()[i]).binds,
            first,
        ) by {
            assert(outs.drop_first()[i] == outs[i + 1]);
        }
        lemma_binds_then_seq(outs.drop_first(), ps, vs, bs, first, allowed);
        lemma_all_extend_concat(
            bs,
            with_nexts(o.nexts, outcomes_seq(ps, vs, o.binds)),
            then_seq(outs.drop_first(), ps, vs),
            allowed,
        );
    }
}

proof fn lemma_binds_windows<A: PartialEq>(
    ps: Seq<PatternTree<A>>,
    vs: Seq<ValueTree<A>>,
    from: int,
    bs: Seq<Binding<A>>,
)
    ensures
        all_extend(bs, outcomes_windows(ps, vs, from, bs), captured_by_any(ps)),
    decreases ps, 1int, vs.len() - from + 1,
{
    let allowed = captured_by_any(ps);
    lemma_all_extend_unchanged(bs, allowed);
    if !(from < 0 || from + ps.len() > vs.len()) {
        let window = vs.subrange(from, from + ps.len());
        lemma_binds_seq(ps, window, bs);
        lemma_binds_windows(ps, vs, from + 1, bs);
        lemma_all_extend_concat(bs, outcomes_seq(ps, window, bs), outcomes_windows(ps, vs, from + 1, bs), allowed);
    }
}

proof fn lemma_binds_path<A: PartialEq>(steps: Seq<PatternTree<A>>, v: ValueTree<A>, bs: Seq<Binding<A>>)
    ensures
        all_extend(bs, outcomes_path(steps, v, bs), captured_by_any(steps)),
    decreases steps, 0int, 0int,
{
    let allowed = captured_by_any(steps);
    lemma_all_extend_unchanged(bs, allowed);
    if steps.len() > 0 {
        lemma_captured_rest(steps);
        lemma_binds(steps[0], v, bs);
        lemma_binds_then_path(outcomes(steps[0], v, bs), steps.drop_first(), bs, captured(steps[0]), allowed);
    }
}

proof fn lemma_binds_then_path<A: PartialEq>(
    outs: Seq<Outcome<A>>,
    rest: Seq<PatternTree<A>>,
    bs: Seq<Binding<A>>,
    first: Set<Seq<char>>,
    allowed: Set<Seq<char>>,
)
    requires
        all_extend(bs, outs, first),
        first.subset_of(allowed),
        captured_by_any(rest).subset_of(allowed),
    ensures
        all_extend(bs, then_path(outs, rest), allowed),
    decreases rest, 2int, outs.len(),
{
    lemma_all_extend_unchanged(bs, allowed);
    if outs.len() > 0 {
        let o = outs[0];
        let here = if o.nexts.len() == 0 || rest.len() == 0 {
            unchanged(o.binds)
        } else {
            fan_out(o.nexts, rest, o.binds)
        };
        if o.nexts.len() == 0 || rest.len() == 0 {
            lemma_all_extend_unchanged(o.binds, captured_by_any(rest));
        } else {
            lemma_binds_fan_out(o.nexts, rest, o.binds);
        }
        lemma_all_extend_chain(bs, o.binds, here, first, captured_by_any(rest), allowed);
        assert forall|i: int| 0 <= i < outs.drop_first().len() implies extends(
            bs,
            (#[trigger] outs.drop_first()[i]).binds,
            first,
        ) by {
            assert(outs.drop_first()[i] == outs[i + 1]);
        }
        lemma_binds_then_path(outs.drop_first(), rest, bs, first, allowed);
        lemma_all_extend_concat(bs, here, then_path(outs.drop_first(), rest), allowed);
    }
}

proof fn lemma_binds_fan_out<A: PartialEq>(nexts: Seq<ValueTree<A>>, rest: Seq<PatternTree<A>>, bs: Seq<Binding<A>>)
    ensures
        all_extend(bs, fan_out(nexts, rest, bs), captured_by_any(rest)),
    decreases rest, 1int, nexts.len(),
{
    let allowed = captured_by_any(rest);
    lemma_all_extend_unchanged(bs, allowed);
    if nexts.len() > 0 {
        lemma_binds_path(rest, nexts[0], bs);
        lemma_binds_fan_out(nexts.drop_first(), rest, bs);
        lemma_all_extend_concat(bs, outcomes_path(rest, nexts[0], bs), fan_out(nexts.drop_first(), rest, bs), allowed);
    }
}

} // verus!
