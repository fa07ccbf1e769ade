//! What holds of matching, whatever the pattern and the value.
//!
//! The laws here are about alternatives, conjunctions, exact sequences,
//! list paths, template variables and literal patterns. What the check
//! promises of the results stands in `soundness`, and that results bind
//! parts of the value in `parts`.

use super::binding::{all_extend, captured, extends, lemma_binds};
use super::check::{
    all_have_params, combined, conses_have_params, next_count, next_count_sum, scope, scope_seq, signature,
    signatures, union_all, verdict, CheckError,
};
use super::data::{literal, PatternTree, ValueTree};
use super::passing::{blind_to, lemma_passes, lemma_passes_seq};
use super::semantics::{
    binds_of, lookup, outcomes, outcomes_seq, outcomes_windows, same, solutions, then_one, then_seq, unchanged,
    with_nexts, Binding, Outcome,
};
use vstd::prelude::*;
use vstd::std_specs::cmp::PartialEqSpec;

verus! {

/// `p` holds a template variable of this name.
pub open spec fn recalls<A>(p: PatternTree<A>, name: Seq<char>) -> bool
    decreases p,
{
    match p {
        PatternTree::TemplateVar(n) => n == name,
        PatternTree::Cons(_, ps) => exists|i: int| 0 <= i < ps.len() && recalls(#[trigger] ps[i], name),
        PatternTree::ExactList(ps) => exists|i: int| 0 <= i < ps.len() && recalls(#[trigger] ps[i], name),
        PatternTree::ListPath(ps) => exists|i: int| 0 <= i < ps.len() && recalls(#[trigger] ps[i], name),
        PatternTree::Path(ps) => exists|i: int| 0 <= i < ps.len() && recalls(#[trigger] ps[i], name),
        PatternTree::And(a, b) => recalls(*a, name) || recalls(*b, name),
        PatternTree::Or(a, b) => recalls(*a, name) || recalls(*b, name),
        _ => false,
    }
}

/// `p` holds a capture of this name.
pub open spec fn captures<A>(p: PatternTree<A>, name: Seq<char>) -> bool
    decreases p,
{
    match p {
        PatternTree::CaptureVar(n) => n == name,
        PatternTree::Cons(_, ps) => exists|i: int| 0 <= i < ps.len() && captures(#[trigger] ps[i], name),
        PatternTree::ExactList(ps) => exists|i: int| 0 <= i < ps.len() && captures(#[trigger] ps[i], name),
        PatternTree::ListPath(ps) => exists|i: int| 0 <= i < ps.len() && captures(#[trigger] ps[i], name),
        PatternTree::Path(ps) => exists|i: int| 0 <= i < ps.len() && captures(#[trigger] ps[i], name),
        PatternTree::And(a, b) => captures(*a, name) || captures(*b, name),
        PatternTree::Or(a, b) => captures(*a, name) || captures(*b, name),
        _ => false,
    }
}

/// Every way to put one of `first` in front of one of `second`: the choice
/// from `first` varies slowest.
pub open spec fn cross<A>(first: Seq<Seq<Binding<A>>>, second: Seq<Seq<Binding<A>>>) -> Seq<Seq<Binding<A>>>
    decreases first.len(),
{
    if first.len() == 0 {
        Seq::empty()
    } else {
        Seq::new(second.len(), |j: int| first[0] + second[j]) + cross(first.drop_first(), second)
    }
}

/// Every way to take one of each of `parts` and join them in order: the
/// choice from the first part varies slowest.
pub open spec fn cross_all<A>(parts: Seq<Seq<Seq<Binding<A>>>>) -> Seq<Seq<Binding<A>>>
    decreases parts.len(),
{
    if parts.len() == 0 {
        seq![Seq::empty()]
    } else {
        cross(parts[0], cross_all(parts.drop_first()))
    }
}

/// The product of the lengths of `parts`.
pub open spec fn choices<A>(parts: Seq<Seq<Seq<Binding<A>>>>) -> nat
    decreases parts.len(),
{
    if parts.len() == 0 {
        1
    } else {
        parts[0].len() * choices(parts.drop_first())
    }
}

/// A cross combination has as many members as the two sides multiply to.
pub proof fn lemma_cross_len<A>(first: Seq<Seq<Binding<A>>>, second: Seq<Seq<Binding<A>>>)
    ensures
        cross(first, second).len() == first.len() * second.len(),
    decreases first.len(),
{
    if first.len() > 0 {
        lemma_cross_len(first.drop_first(), second);
        assert(first.len() * second.len() == second.len() + (first.len() - 1) * second.len())
            by (nonlinear_arith);
    }
}

/// A cross combination of all parts has as many members as the lengths of
/// the parts multiply to.
pub proof fn lemma_cross_all_len<A>(parts: Seq<Seq<Seq<Binding<A>>>>)
    ensures
        cross_all(parts).len() == choices(parts),
    decreases parts.len(),
{
    if parts.len() > 0 {
        lemma_cross_all_len(parts.drop_first());
        lemma_cross_len(parts[0], cross_all(parts.drop_first()));
    }
}

proof fn lemma_binds_of_concat<A>(a: Seq<Outcome<A>>, b: Seq<Outcome<A>>)
    ensures
        binds_of(a + b) == binds_of(a) + binds_of(b),
{
    assert(binds_of(a + b) =~= binds_of(a) + binds_of(b));
}

proof fn lemma_lookup_finds<A>(bs: Seq<Binding<A>>, name: Seq<char>)
    requires
        lookup(bs, name) is Some,
    ensures
        exists|k: int| 0 <= k < bs.len() && (#[trigger] bs[k]).0 == name,
    decreases bs.len(),
{
    if bs[0].0 != name {
        lemma_lookup_finds(bs.drop_first(), name);
        let k = choose|k: int| 0 <= k < bs.drop_first().len() && (#[trigger] bs.drop_first()[k]).0 == name;
        assert(bs[k + 1].0 == name);
    }
}

/// No capture of `a` is the name of a template variable of `b`.
pub open spec fn unrelated<A>(a: PatternTree<A>, b: PatternTree<A>) -> bool {
    forall|name: Seq<char>| !(captures(a, name) && recalls(b, name))
}

/// No capture of one of `ps` is the name of a template variable of a later
/// one.
pub open spec fn independent<A>(ps: Seq<PatternTree<A>>) -> bool {
    forall|i: int, j: int| 0 <= i < j < ps.len() ==> unrelated(#[trigger] ps[i], #[trigger] ps[j])
}

proof fn lemma_blind_after_binding<A>(binds: Seq<Binding<A>>, allowed: Set<Seq<char>>, b: PatternTree<A>)
    requires
        extends(Seq::empty(), binds, allowed),
        forall|name: Seq<char>| !(allowed.contains(name) && recalls(b, name)),
    ensures
        blind_to(b, binds),
{
    assert forall|name: Seq<char>| recalls(b, name) implies lookup(binds, name) is None by {
        if lookup(binds, name) is Some {
            lemma_lookup_finds(binds, name);
            let k = choose|k: int| 0 <= k < binds.len() && (#[trigger] binds[k]).0 == name;
            assert(allowed.contains(binds[k].0));
        }
    }
}

proof fn lemma_cross_then_one<A: PartialEq>(
    outs: Seq<Outcome<A>>,
    b: PatternTree<A>,
    v: ValueTree<A>,
    allowed: Set<Seq<char>>,
)
    requires
        all_extend(Seq::empty(), outs, allowed),
        forall|name: Seq<char>| !(allowed.contains(name) && recalls(b, name)),
    ensures
        binds_of(then_one(outs, b, v)) == cross(binds_of(outs), solutions(b, v)),
    decreases outs.len(),
{
    let none = Seq::<Binding<A>>::empty();
    if outs.len() == 0 {
        assert(binds_of(then_one(outs, b, v)) =~= Seq::empty());
    } else {
        let o = outs[0];
        lemma_blind_after_binding(o.binds, allowed, b);
        lemma_passes(b, v, o.binds, none);
        assert(o.binds + none =~= o.binds);
        let here = with_nexts(o.nexts, outcomes(b, v, o.binds));
        assert(binds_of(here) =~= Seq::new(solutions(b, v).len(), |j: int| o.binds + solutions(b, v)[j]));
        assert forall|i: int| 0 <= i < outs.drop_first().len() implies extends(
            none,
            (#[trigger] outs.drop_first()[i]).binds,
            allowed,
        ) by {
            assert(outs.drop_first()[i] == outs[i + 1]);
        }
        lemma_cross_then_one(outs.drop_first(), b, v, allowed);
        lemma_binds_of_concat(here, then_one(outs.drop_first(), b, v));
        assert(binds_of(outs).drop_first() =~= binds_of(outs.drop_first()));
    }
}

/// The results of a conjunction are the cross combination of the results
/// of its sides, each result keeping the bindings of both, where the second
/// side does not refer back to a capture of the first.
pub proof fn law_and_is_cross_combination<A: PartialEq>(a: PatternTree<A>, b: PatternTree<A>, v: ValueTree<A>)
    requires
        unrelated(a, b),
    ensures
        solutions(PatternTree::And(Box::new(a), Box::new(b)), v) == cross(solutions(a, v), solutions(b, v)),
        solutions(PatternTree::And(Box::new(a), Box::new(b)), v).len() == solutions(a, v).len() * solutions(
            b,
            v,
        ).len(),
{
    let none = Seq::<Binding<A>>::empty();
    lemma_binds(a, v, none);
    lemma_cross_then_one(outcomes(a, v, none), b, v, captured(a));
    lemma_cross_len(solutions(a, v), solutions(b, v));
}

/// The results of an alternative are those of its first side followed by
/// those of its second side: both sides contribute.
pub proof fn law_or_is_union<A: PartialEq>(a: PatternTree<A>, b: PatternTree<A>, v: ValueTree<A>)
    ensures
        solutions(PatternTree::Or(Box::new(a), Box::new(b)), v) == solutions(a, v) + solutions(b, v),
{
    let none = Seq::<Binding<A>>::empty();
    lemma_binds_of_concat(outcomes(a, v, none), outcomes(b, v, none));
}

/// The results of each of `ps` on the value at its position.
pub open spec fn solutions_each<A: PartialEq>(ps: Seq<PatternTree<A>>, vs: Seq<ValueTree<A>>) -> Seq<
    Seq<Seq<Binding<A>>>,
> {
    Seq::new(ps.len(), |i: int| solutions(ps[i], vs[i]))
}

proof fn lemma_cross_then_seq<A: PartialEq>(
    outs: Seq<Outcome<A>>,
    ps: Seq<PatternTree<A>>,
    vs: Seq<ValueTree<A>>,
    allowed: Set<Seq<char>>,
)
    requires
        all_extend(Seq::empty(), outs, allowed),
        forall|j: int, name: Seq<char>|
            0 <= j < ps.len() ==> !(allowed.contains(name) && #[trigger] recalls(ps[j], name)),
    ensures
        binds_of(then_seq(outs, ps, vs)) == cross(binds_of(outs), binds_of(outcomes_seq(ps, vs, Seq::empty()))),
    decreases outs.len(),
{
    let none = Seq::<Binding<A>>::empty();
    let rest = binds_of(outcomes_seq(ps, vs, none));
    if outs.len() == 0 {
        assert(binds_of(then_seq(outs, ps, vs)) =~= Seq::empty());
    } else {
        let o = outs[0];
        assert forall|j: int| 0 <= j < ps.len() implies blind_to(#[trigger] ps[j], o.binds) by {
            lemma_blind_after_binding(o.binds, allowed, ps[j]);
        }
        lemma_passes_seq(ps, vs, o.binds, none);
        assert(o.binds + none =~= o.binds);
        let here = with_nexts(o.nexts, outcomes_seq(ps, vs, o.binds));
        assert(binds_of(here) =~= Seq::new(rest.len(), |j: int| o.binds + rest[j]));
        assert forall|i: int| 0 <= i < outs.drop_first().len() implies extends(
            none,
            (#[trigger] outs.drop_first()[i]).binds,
            allowed,
        ) by {
            assert(outs.drop_first()[i] == outs[i + 1]);
        }
        lemma_cross_then_seq(outs.drop_first(), ps, vs, allowed);
        lemma_binds_of_concat(here, then_seq(outs.drop_first(), ps, vs));
        assert(binds_of(outs).drop_first() =~= binds_of(outs.drop_first()));
    }
}

proof fn lemma_seq_is_cross<A: PartialEq>(ps: Seq<PatternTree<A>>, vs: Seq<ValueTree<A>>)
    requires
        ps.len() == vs.len(),
        independent(ps),
    ensures
        binds_of(outcomes_seq(ps, vs, Seq::empty())) == cross_all(solutions_each(ps, vs)),
    decreases ps.len(),
{
    let none = Seq::<Binding<A>>::empty();
    if ps.len() == 0 {
        assert(binds_of(outcomes_seq(ps, vs, none)) =~= seq![none]);
    } else {
        let ps1 = ps.drop_first();
        let vs1 = vs.drop_first();
        assert forall|i: int, j: int| 0 <= i < j < ps1.len() implies unrelated(#[trigger] ps1[i], #[trigger] ps1[j]) by {
            assert(ps1[i] == ps[i + 1]);
            assert(ps1[j] == ps[j + 1]);
        }
        lemma_seq_is_cross(ps1, vs1);
        lemma_binds(ps[0], vs[0], none);
        assert forall|j: int, name: Seq<char>| 0 <= j < ps1.len() implies !(captured(ps[0]).contains(name)
            && #[trigger] recalls(ps1[j], name)) by {
            assert(ps1[j] == ps[j + 1]);
            assert(unrelated(ps[0], ps[j + 1]));
        }
        lemma_cross_then_seq(outcomes(ps[0], vs[0], none), ps1, vs1, captured(ps[0]));
        assert(solutions_each(ps, vs).drop_first() =~= solutions_each(ps1, vs1));
    }
}

/// An exact sequence has no result on a sequence of another length.
pub proof fn law_exact_sequence_needs_its_length<A: PartialEq>(ps: Seq<PatternTree<A>>, vs: Seq<ValueTree<A>>)
    requires
        ps.len() != vs.len(),
    ensures
        solutions(PatternTree::ExactList(ps), ValueTree::List(vs)).len() == 0,
{
}

/// On a sequence of its own length, the results of an exact sequence are
/// the cross combination of the results at each position, and so their
/// number is the product of the numbers at each position, where no position
/// refers back to a capture of an earlier one.
pub proof fn law_exact_sequence_is_cross_product<A: PartialEq>(ps: Seq<PatternTree<A>>, vs: Seq<ValueTree<A>>)
    requires
        ps.len() == vs.len(),
        independent(ps),
    ensures
        solutions(PatternTree::ExactList(ps), ValueTree::List(vs)) == cross_all(solutions_each(ps, vs)),
        solutions(PatternTree::ExactList(ps), ValueTree::List(vs)).len() == choices(solutions_each(ps, vs)),
{
    lemma_seq_is_cross(ps, vs);
    lemma_cross_all_len(solutions_each(ps, vs));
}

/// The results of an exact sequence on each window of `vs` that starts at
/// `from` or later, nearest window first.
pub open spec fn solutions_windows<A: PartialEq>(ps: Seq<PatternTree<A>>, vs: Seq<ValueTree<A>>, from: int) -> Seq<
    Seq<Binding<A>>,
>
    decreases vs.len() - from + 1,
{
    if from < 0 || from + ps.len() > vs.len() {
        Seq::empty()
    } else {
        solutions(PatternTree::ExactList(ps), ValueTree::List(vs.subrange(from, from + ps.len())))
            + solutions_windows(ps, vs, from + 1)
    }
}

proof fn lemma_windows<A: PartialEq>(ps: Seq<PatternTree<A>>, vs: Seq<ValueTree<A>>, from: int)
    ensures
        binds_of(outcomes_windows(ps, vs, from, Seq::empty())) == solutions_windows(ps, vs, from),
    decreases vs.len() - from + 1,
{
    let none = Seq::<Binding<A>>::empty();
    if from < 0 || from + ps.len() > vs.len() {
        assert(binds_of(outcomes_windows(ps, vs, from, none)) =~= Seq::empty());
    } else {
        let window = vs.subrange(from, from + ps.len());
        lemma_windows(ps, vs, from + 1);
        lemma_binds_of_concat(outcomes_seq(ps, window, none), outcomes_windows(ps, vs, from + 1, none));
    }
}

proof fn lemma_windows_count<A: PartialEq>(ps: Seq<PatternTree<A>>, vs: Seq<ValueTree<A>>, from: int)
    requires
        0 <= from,
        from + ps.len() <= vs.len() + 1,
        forall|at: int|
            from <= at && at + ps.len() <= vs.len() ==> (#[trigger] solutions(
                PatternTree::ExactList(ps),
                ValueTree::List(vs.subrange(at, at + ps.len())),
            )).len() == 1,
    ensures
        solutions_windows(ps, vs, from).len() == vs.len() - ps.len() + 1 - from,
    decreases vs.len() - from + 1,
{
    if from + ps.len() <= vs.len() {
        lemma_windows_count(ps, vs, from + 1);
    }
}

/// The results of a list path are those of the exact sequence on the first
/// window of the value, then on the second, and so on: each window is
/// matched by itself.
pub proof fn law_list_path_slides<A: PartialEq>(ps: Seq<PatternTree<A>>, vs: Seq<ValueTree<A>>)
    ensures
        solutions(PatternTree::ListPath(ps), ValueTree::List(vs)) == solutions_windows(ps, vs, 0),
{
    lemma_windows(ps, vs, 0);
}

/// A list path of `k` patterns on a sequence of `n >= k` values has
/// `n - k + 1` results, one for each offset, where each window is matched
/// in exactly one way.
pub proof fn law_list_path_one_result_per_offset<A: PartialEq>(ps: Seq<PatternTree<A>>, vs: Seq<ValueTree<A>>)
    requires
        ps.len() <= vs.len(),
        forall|at: int|
            0 <= at && at + ps.len() <= vs.len() ==> (#[trigger] solutions(
                PatternTree::ExactList(ps),
                ValueTree::List(vs.subrange(at, at + ps.len())),
            )).len() == 1,
    ensures
        solutions(PatternTree::ListPath(ps), ValueTree::List(vs)).len() == vs.len() - ps.len() + 1,
{
    lemma_windows(ps, vs, 0);
    lemma_windows_count(ps, vs, 0);
}

/// The literal patterns of a run of values, in order.
pub open spec fn literals<A>(cs: Seq<ValueTree<A>>) -> Seq<PatternTree<A>> {
    Seq::new(cs.len(), |i: int| literal(cs[i]))
}

proof fn lemma_literal_parts<A>(t: ValueTree<A>)
    ensures
        t matches ValueTree::Cons(name, cs) ==> literal(t) == PatternTree::Cons(name, literals(cs)),
        t matches ValueTree::List(cs) ==> literal(t) == PatternTree::ExactList(literals(cs)),
{
    match t {
        ValueTree::Cons(name, cs) => {
            assert(literal(t)->Cons_1 =~= literals(cs));
        },
        ValueTree::List(cs) => {
            assert(literal(t)->ExactList_0 =~= literals(cs));
        },
        _ => {},
    }
}

/// The values agree position by position.
pub open spec fn same_each<A: PartialEq>(cs: Seq<ValueTree<A>>, vs: Seq<ValueTree<A>>) -> bool {
    forall|i: int| 0 <= i < cs.len() ==> same(cs[i], #[trigger] vs[i])
}

/// The literal pattern of a value matches the values equal to it, in one
/// way, and binds nothing.
pub proof fn lemma_literal_matches_same<A: PartialEq>(d: ValueTree<A>, v: ValueTree<A>, bs: Seq<Binding<A>>)
    ensures
        outcomes(literal(d), v, bs) == if same(d, v) {
            unchanged(bs)
        } else {
            Seq::empty()
        },
    decreases d, 0int,
{
    lemma_literal_parts(d);
    match d {
        ValueTree::Cons(name, cs) => {
            if let ValueTree::Cons(vname, vs) = v {
                if name == vname && cs.len() == vs.len() {
                    lemma_literals_match_same(cs, vs, bs);
                }
            }
        },
        ValueTree::List(cs) => {
            if let ValueTree::List(vs) = v {
                if cs.len() == vs.len() {
                    lemma_literals_match_same(cs, vs, bs);
                }
            }
        },
        _ => {},
    }
}

proof fn lemma_literals_match_same<A: PartialEq>(cs: Seq<ValueTree<A>>, vs: Seq<ValueTree<A>>, bs: Seq<Binding<A>>)
    requires
        cs.len() == vs.len(),
    ensures
        outcomes_seq(literals(cs), vs, bs) == if same_each(cs, vs) {
            unchanged(bs)
        } else {
            Seq::empty()
        },
    decreases cs, 1int,
{
    if cs.len() > 0 {
        let cs1 = cs.drop_first();
        let vs1 = vs.drop_first();
        assert(literals(cs).drop_first() =~= literals(cs1));
        lemma_literal_matches_same(cs[0], vs[0], bs);
        lemma_literals_match_same(cs1, vs1, bs);
        let outs = outcomes(literal(cs[0]), vs[0], bs);
        if same(cs[0], vs[0]) {
            assert(outs.drop_first() =~= Seq::empty());
            let rest = outcomes_seq(literals(cs1), vs1, bs);
            assert(with_nexts(Seq::empty(), rest) =~= rest) by {
                assert forall|i: int| 0 <= i < rest.len() implies with_nexts(Seq::empty(), rest)[i] == rest[i] by {
                    assert(Seq::<ValueTree<A>>::empty() + rest[i].nexts =~= rest[i].nexts);
                }
            }
            assert(outs == unchanged(bs));
            assert(outs[0].binds == bs);
            assert(then_seq(outs.drop_first(), literals(cs1), vs1) =~= Seq::empty());
            assert(then_seq(outs, literals(cs1), vs1) =~= with_nexts(Seq::empty(), rest) + Seq::empty());
            assert(then_seq(outs, literals(cs1), vs1) =~= rest);
            if same_each(cs1, vs1) {
                assert forall|i: int| 0 <= i < cs.len() implies same(cs[i], #[trigger] vs[i]) by {
                    if i > 0 {
                        assert(cs1[i - 1] == cs[i]);
                        assert(same(cs1[i - 1], vs1[i - 1]));
                    }
                }
            } else {
                let i = choose|i: int| 0 <= i < cs1.len() && !same(cs1[i], #[trigger] vs1[i]);
                assert(!same(cs[i + 1], vs[i + 1]));
            }
        }
    }
}

/// A template variable stands for the literal pattern of the value bound
/// to its name, and fails where nothing is bound to it.
pub proof fn law_template_is_literal_of_capture<A: PartialEq>(
    name: Seq<char>,
    v: ValueTree<A>,
    bs: Seq<Binding<A>>,
)
    ensures
        outcomes(PatternTree::TemplateVar(name), v, bs) == match lookup(bs, name) {
            Some(d) => outcomes(literal(d), v, bs),
            None => Seq::empty(),
        },
{
    if let Some(d) = lookup(bs, name) {
        lemma_literal_matches_same(d, v, bs);
    }
}

/// A value without opaque leaves in which every atom equals itself and
/// every constructor has a child.
pub open spec fn plain<A: PartialEq>(v: ValueTree<A>) -> bool
    decreases v,
{
    match v {
        ValueTree::Atom(a) => a.eq_spec(&a),
        ValueTree::Object => false,
        ValueTree::Cons(_, cs) => cs.len() > 0 && forall|i: int| 0 <= i < cs.len() ==> plain(#[trigger] cs[i]),
        ValueTree::List(cs) => forall|i: int| 0 <= i < cs.len() ==> plain(#[trigger] cs[i]),
    }
}

proof fn lemma_plain_is_same<A: PartialEq>(v: ValueTree<A>)
    requires
        plain(v),
    ensures
        same(v, v),
    decreases v,
{
    match v {
        ValueTree::Cons(_, cs) => {
            assert forall|i: int| 0 <= i < cs.len() implies same(cs[i], #[trigger] cs[i]) by {
                lemma_plain_is_same(cs[i]);
            }
        },
        ValueTree::List(cs) => {
            assert forall|i: int| 0 <= i < cs.len() implies same(cs[i], #[trigger] cs[i]) by {
                lemma_plain_is_same(cs[i]);
            }
        },
        _ => {},
    }
}

proof fn lemma_literal_checks<A: PartialEq>(v: ValueTree<A>, in_path: bool, seen: Set<Seq<char>>)
    requires
        plain(v),
    ensures
        next_count(literal(v), in_path) == Some(0nat),
        conses_have_params(literal(v)),
        scope(literal(v), seen) == Ok::<Set<Seq<char>>, Seq<char>>(seen),
        signature(literal(v)) == Ok::<Set<Seq<char>>, CheckError>(Set::empty()),
    decreases v, 0int,
{
    lemma_literal_parts(v);
    match v {
        ValueTree::Cons(_, cs) => {
            lemma_literals_check(cs, in_path, seen);
        },
        ValueTree::List(cs) => {
            lemma_literals_check(cs, in_path, seen);
        },
        _ => {},
    }
}

proof fn lemma_literals_check<A: PartialEq>(cs: Seq<ValueTree<A>>, in_path: bool, seen: Set<Seq<char>>)
    requires
        forall|i: int| 0 <= i < cs.len() ==> plain(#[trigger] cs[i]),
    ensures
        next_count_sum(literals(cs), in_path) == Some(0nat),
        all_have_params(literals(cs)),
        scope_seq(literals(cs), seen) == Ok::<Set<Seq<char>>, Seq<char>>(seen),
        signatures(literals(cs)) matches Ok(ss) && ss.len() == cs.len() && (forall|i: int|
            0 <= i < ss.len() ==> #[trigger] ss[i] == Set::<Seq<char>>::empty()),
        combined(signatures(literals(cs))) == Ok::<Set<Seq<char>>, CheckError>(Set::empty()),
    decreases cs, 1int,
{
    assert forall|i: int| 0 <= i < cs.len() implies conses_have_params(#[trigger] literals(cs)[i]) by {
        lemma_literal_checks(cs[i], in_path, seen);
    }
    if cs.len() > 0 {
        let fewer = cs.drop_last();
        assert(literals(cs).drop_last() =~= literals(fewer));
        assert forall|i: int| 0 <= i < fewer.len() implies plain(#[trigger] fewer[i]) by {
            assert(fewer[i] == cs[i]);
        }
        lemma_literals_check(fewer, in_path, seen);
        lemma_literal_checks(cs.last(), in_path, seen);
    }
    let ss = signatures(literals(cs))->Ok_0;
    assert(union_all(ss) =~= Set::empty());
}

/// The literal pattern of a plain value passes the check with an empty
/// signature, and matching it against the value gives exactly one result,
/// which binds nothing.
pub proof fn law_round_trip<A: PartialEq>(v: ValueTree<A>)
    requires
        plain(v),
    ensures
        verdict(literal(v)) == Ok::<Set<Seq<char>>, CheckError>(Set::empty()),
        solutions(literal(v), v) == seq![Seq::<Binding<A>>::empty()],
{
    lemma_literal_checks(v, false, Set::empty());
    lemma_plain_is_same(v);
    lemma_literal_matches_same(v, v, Seq::empty());
    assert(solutions(literal(v), v) =~= seq![Seq::<Binding<A>>::empty()]);
}

} // verus!
