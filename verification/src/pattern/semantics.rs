//! What matching means.
//!
//! `outcomes` gives every way in which a pattern matches a value, in order;
//! the other functions say the same of patterns in a row, of windows of a
//! list and of the steps of a path. `solutions` is what a caller gets.

use super::data::{PatternTree, ValueTree};
use vstd::prelude::*;
use vstd::std_specs::cmp::PartialEqSpec;

verus! {

/// One binding: a capture name and the subtree bound to it.
pub type Binding<A> = (Seq<char>, ValueTree<A>);

/// One way in which a pattern matched: the bindings made up to then, oldest
/// first, and the continuation points handed to the enclosing path step.
pub ghost struct Outcome<A> {
    pub binds: Seq<Binding<A>>,
    pub nexts: Seq<ValueTree<A>>,
}

/// The subtree bound to `name`: the oldest binding of that name wins.
pub open spec fn lookup<A>(bs: Seq<Binding<A>>, name: Seq<char>) -> Option<ValueTree<A>>
    decreases bs.len(),
{
    if bs.len() == 0 {
        None
    } else if bs[0].0 == name {
        Some(bs[0].1)
    } else {
        lookup(bs.drop_first(), name)
    }
}

/// Structural equality of two values. Atoms are compared with their own
/// `==`; an opaque leaf equals nothing.
pub open spec fn same<A: PartialEq>(d: ValueTree<A>, v: ValueTree<A>) -> bool
    decreases d,
{
    match (d, v) {
        (ValueTree::Atom(a), ValueTree::Atom(b)) => a.eq_spec(&b),
        (ValueTree::Cons(n, cs), ValueTree::Cons(m, ds)) => n == m && cs.len() == ds.len() && forall|i: int|
            0 <= i < cs.len() ==> same(cs[i], #[trigger] ds[i]),
        (ValueTree::List(cs), ValueTree::List(ds)) => cs.len() == ds.len() && forall|i: int|
            0 <= i < cs.len() ==> same(cs[i], #[trigger] ds[i]),
        _ => false,
    }
}

/// The outcome that binds and emits nothing new.
pub open spec fn unchanged<A>(bs: Seq<Binding<A>>) -> Seq<Outcome<A>> {
    seq![Outcome { binds: bs, nexts: Seq::empty() }]
}

/// Puts `prefix` in front of the continuation points of every outcome.
pub open spec fn with_nexts<A>(prefix: Seq<ValueTree<A>>, outs: Seq<Outcome<A>>) -> Seq<Outcome<A>> {
    Seq::new(outs.len(), |i: int| Outcome { binds: outs[i].binds, nexts: prefix + outs[i].nexts })
}

/// Every way in which `p` matches `v` when `bs` is already bound, in the
/// order in which the search finds them.
pub open spec fn outcomes<A: PartialEq>(p: PatternTree<A>, v: ValueTree<A>, bs: Seq<Binding<A>>) -> Seq<Outcome<A>>
    decreases p, 0int, 0int,
{
    match p {
        PatternTree::Atom(a) => match v {
            ValueTree::Atom(b) => if a.eq_spec(&b) {
                unchanged(bs)
            } else {
                Seq::empty()
            },
            _ => Seq::empty(),
        },
        PatternTree::Fail => Seq::empty(),
        PatternTree::Wild => unchanged(bs),
        PatternTree::CaptureVar(name) => seq![Outcome { binds: bs.push((name, v)), nexts: Seq::empty() }],
        PatternTree::Cons(name, ps) => match v {
            ValueTree::Cons(vname, vs) => if name == vname && ps.len() == vs.len() {
                outcomes_seq(ps, vs, bs)
            } else {
                Seq::empty()
            },
            _ => Seq::empty(),
        },
        PatternTree::ExactList(ps) => match v {
            ValueTree::List(vs) => if ps.len() == vs.len() {
                outcomes_seq(ps, vs, bs)
            } else {
                Seq::empty()
            },
            _ => Seq::empty(),
        },
        PatternTree::ListPath(ps) => match v {
            ValueTree::List(vs) => outcomes_windows(ps, vs, 0, bs),
            _ => Seq::empty(),
        },
        PatternTree::PathNext => seq![Outcome { binds: bs, nexts: seq![v] }],
        PatternTree::Path(steps) => outcomes_path(steps, v, bs),
        PatternTree::And(a, b) => then_one(outcomes(*a, v, bs), *b, v),
        PatternTree::Or(a, b) => outcomes(*a, v, bs) + outcomes(*b, v, bs),
        PatternTree::TemplateVar(name) => match lookup(bs, name) {
            Some(d) => if same(d, v) {
                unchanged(bs)
            } else {
                Seq::empty()
            },
            None => Seq::empty(),
        },
    }
}

/// Every way in which the patterns `ps` match the values `vs` one for one,
/// left to right, each position seeing what the earlier ones bound.
pub open spec fn outcomes_seq<A: PartialEq>(
    ps: Seq<PatternTree<A>>,
    vs: Seq<ValueTree<A>>,
    bs: Seq<Binding<A>>,
) -> Seq<Outcome<A>>
    decreases ps, 0int, 0int,
{
    if ps.len() == 0 || vs.len() == 0 {
        unchanged(bs)
    } else {
        then_seq(outcomes(ps[0], vs[0], bs), ps.drop_first(), vs.drop_first())
    }
}

/// Continues each of `outs` with the remaining positions.
pub open spec fn then_seq<A: PartialEq>(
    outs: Seq<Outcome<A>>,
    ps: Seq<PatternTree<A>>,
    vs: Seq<ValueTree<A>>,
) -> Seq<Outcome<A>>
    decreases ps, 1int, outs.len(),
{
    if outs.len() == 0 {
        Seq::empty()
    } else {
        with_nexts(outs[0].nexts, outcomes_seq(ps, vs, outs[0].binds)) + then_seq(outs.drop_first(), ps, vs)
    }
}

/// Continues each of `outs` with one more pattern on the same value.
pub open spec fn then_one<A: PartialEq>(outs: Seq<Outcome<A>>, p: PatternTree<A>, v: ValueTree<A>) -> Seq<
    Outcome<A>,
>
    decreases p, 1int, outs.len(),
{
    if outs.len() == 0 {
        Seq::empty()
    } else {
        with_nexts(outs[0].nexts, outcomes(p, v, outs[0].binds)) + then_one(outs.drop_first(), p, v)
    }
}

/// The matches of `ps` against each window of `vs` that starts at `from` or
/// later, nearest window first.
pub open spec fn outcomes_windows<A: PartialEq>(
    ps: Seq<PatternTree<A>>,
    vs: Seq<ValueTree<A>>,
    from: int,
    bs: Seq<Binding<A>>,
) -> Seq<Outcome<A>>
    decreases ps, 1int, vs.len() - from + 1,
{
    if from < 0 || from + ps.len() > vs.len() {
        Seq::empty()
    } else {
        outcomes_seq(ps, vs.subrange(from, from + ps.len()), bs) + outcomes_windows(ps, vs, from + 1, bs)
    }
}

/// Every way to walk the path `steps` from `v`: a step's continuation
/// points are the values on which the next step runs, each on its own. A
/// walk ends where a step leaves no continuation point or no step is left;
/// a walk emits nothing to an enclosing path.
pub open spec fn outcomes_path<A: PartialEq>(
    steps: Seq<PatternTree<A>>,
    v: ValueTree<A>,
    bs: Seq<Binding<A>>,
) -> Seq<Outcome<A>>
    decreases steps, 0int, 0int,
{
    if steps.len() == 0 {
        unchanged(bs)
    } else {
        then_path(outcomes(steps[0], v, bs), steps.drop_first())
    }
}

/// Continues each of `outs` with the remaining steps of a path.
pub open spec fn then_path<A: PartialEq>(outs: Seq<Outcome<A>>, rest: Seq<PatternTree<A>>) -> Seq<Outcome<A>>
    decreases rest, 2int, outs.len(),
{
    if outs.len() == 0 {
        Seq::empty()
    } else {
        let first = if outs[0].nexts.len() == 0 || rest.len() == 0 {
            unchanged(outs[0].binds)
        } else {
            fan_out(outs[0].nexts, rest, outs[0].binds)
        };
        first + then_path(outs.drop_first(), rest)
    }
}

/// Walks the remaining steps from each continuation point in turn.
pub open spec fn fan_out<A: PartialEq>(
    nexts: Seq<ValueTree<A>>,
    rest: Seq<PatternTree<A>>,
    bs: Seq<Binding<A>>,
) -> Seq<Outcome<A>>
    decreases rest, 1int, nexts.len(),
{
    if nexts.len() == 0 {
        Seq::empty()
    } else {
        outcomes_path(rest, nexts[0], bs) + fan_out(nexts.drop_first(), rest, bs)
    }
}

/// The bindings of each outcome, in order.
pub open spec fn binds_of<A>(outs: Seq<Outcome<A>>) -> Seq<Seq<Binding<A>>> {
    Seq::new(outs.len(), |i: int| outs[i].binds)
}

/// The result of matching `p` against `v`: one binding set for each way in
/// which the pattern is satisfied, in the order of the search.
pub open spec fn solutions<A: PartialEq>(p: PatternTree<A>, v: ValueTree<A>) -> Seq<Seq<Binding<A>>> {
    binds_of(outcomes(p, v, Seq::empty()))
}

} // verus!
