//! What the check promises of the matches: continuation points where it
//! counted them, and bindings for the names of the signature.

use super::check::{
    hands_on, next_count, next_count_sum, pairwise_disjoint, signature, signatures, union_all, verdict, CheckError,
};
use super::data::{PatternTree, ValueTree};
use super::semantics::{
    fan_out, outcomes, outcomes_path, outcomes_seq, outcomes_windows, solutions, then_one, then_path, then_seq,
    unchanged, with_nexts, Binding, Outcome,
};
use vstd::prelude::*;

verus! {

/// Each of `ps` uses the path marker well, inside a path or outside.
pub open spec fn all_counted<A>(ps: Seq<PatternTree<A>>, in_path: bool) -> bool {
    forall|i: int| 0 <= i < ps.len() ==> next_count(#[trigger] ps[i], in_path) is Some
}

/// None of `ps` hands on a continuation point.
pub open spec fn none_hands_on<A>(ps: Seq<PatternTree<A>>, in_path: bool) -> bool {
    forall|i: int| 0 <= i < ps.len() ==> next_count(#[trigger] ps[i], in_path) == Some(0nat)
}

/// A sum of counts is there where each of them is, and is zero where each
/// of them is.
pub proof fn lemma_count_sum<A>(ps: Seq<PatternTree<A>>, in_path: bool)
    ensures
        next_count_sum(ps, in_path) is Some <==> all_counted(ps, in_path),
        next_count_sum(ps, in_path) == Some(0nat) <==> none_hands_on(ps, in_path),
    decreases ps.len(),
{
    if ps.len() > 0 {
        let fewer = ps.drop_last();
        lemma_count_sum(fewer, in_path);
        if all_counted(ps, in_path) {
            assert forall|i: int| 0 <= i < fewer.len() implies next_count(#[trigger] fewer[i], in_path) is Some by {
                assert(fewer[i] == ps[i]);
            }
            assert(next_count(ps[ps.len() - 1], in_path) is Some);
        }
        if none_hands_on(ps, in_path) {
            assert forall|i: int| 0 <= i < fewer.len() implies next_count(#[trigger] fewer[i], in_path) == Some(
                0nat,
            ) by {
                assert(fewer[i] == ps[i]);
            }
            assert(next_count(ps[ps.len() - 1], in_path) == Some(0nat));
        }
        if next_count_sum(ps, in_path) is Some {
            assert forall|i: int| 0 <= i < ps.len() implies next_count(#[trigger] ps[i], in_path) is Some by {
                if i < fewer.len() {
                    assert(fewer[i] == ps[i]);
                }
            }
        }
        if next_count_sum(ps, in_path) == Some(0nat) {
            assert forall|i: int| 0 <= i < ps.len() implies next_count(#[trigger] ps[i], in_path) == Some(0nat) by {
                if i < fewer.len() {
                    assert(fewer[i] == ps[i]);
                }
            }
        }
    }
}

/// Every outcome emits a continuation point, or none does, as `some` says.
pub open spec fn emits<A>(outs: Seq<Outcome<A>>, some: bool) -> bool {
    forall|i: int| 0 <= i < outs.len() ==> ((#[trigger] outs[i]).nexts.len() > 0) == some
}

proof fn lemma_emits_concat<A>(a: Seq<Outcome<A>>, b: Seq<Outcome<A>>, some: bool)
    requires
        emits(a, some),
        emits(b, some),
    ensures
        emits(a + b, some),
{
    assert forall|i: int| 0 <= i < (a + b).len() implies ((#[trigger] (a + b)[i]).nexts.len() > 0) == some by {
        if i < a.len() {
            assert((a + b)[i] == a[i]);
        } else {
            assert((a + b)[i] == b[i - a.len()]);
        }
    }
}

proof fn lemma_emits_with_nexts<A>(prefix: Seq<ValueTree<A>>, outs: Seq<Outcome<A>>, some: bool)
    requires
        emits(outs, some),
    ensures
        emits(with_nexts(prefix, outs), some || prefix.len() > 0),
{
    assert forall|i: int| 0 <= i < with_nexts(prefix, outs).len() implies ((#[trigger] with_nexts(
        prefix,
        outs,
    )[i]).nexts.len() > 0) == (some || prefix.len() > 0) by {
        assert(with_nexts(prefix, outs)[i].nexts == prefix + outs[i].nexts);
        assert((outs[i].nexts.len() > 0) == some);
    }
}

proof fn lemma_emits_rest<A>(outs: Seq<Outcome<A>>, some: bool)
    requires
        emits(outs, some),
        outs.len() > 0,
    ensures
        emits(outs.drop_first(), some),
        (outs[0].nexts.len() > 0) == some,
{
    assert forall|i: int| 0 <= i < outs.drop_first().len() implies ((#[trigger] outs.drop_first()[i]).nexts.len()
        > 0) == some by {
        assert(outs.drop_first()[i] == outs[i + 1]);
    }
}

/// Whether a count is positive; `false` where there is none.
pub open spec fn positive(count: Option<nat>) -> bool {
    count matches Some(k) && k > 0
}

/// Whether any of `ps` hands on a continuation point.
pub open spec fn any_hands_on<A>(ps: Seq<PatternTree<A>>, in_path: bool) -> bool {
    exists|i: int| 0 <= i < ps.len() && positive(next_count(#[trigger] ps[i], in_path))
}

proof fn lemma_any_hands_on<A>(ps: Seq<PatternTree<A>>, in_path: bool)
    requires
        all_counted(ps, in_path),
    ensures
        any_hands_on(ps, in_path) == positive(next_count_sum(ps, in_path)),
        ps.len() > 0 ==> all_counted(ps.drop_first(), in_path) && (any_hands_on(ps, in_path) == (positive(
            next_count(ps[0], in_path),
        ) || any_hands_on(ps.drop_first(), in_path))),
{
    lemma_count_sum(ps, in_path);
    if any_hands_on(ps, in_path) {
        let i = choose|i: int| 0 <= i < ps.len() && positive(next_count(#[trigger] ps[i], in_path));
        assert(!none_hands_on(ps, in_path));
    } else {
        assert forall|i: int| 0 <= i < ps.len() implies next_count(#[trigger] ps[i], in_path) == Some(0nat) by {
            assert(!positive(next_count(ps[i], in_path)));
        }
    }
    if ps.len() > 0 {
        let rest = ps.drop_first();
        assert forall|i: int| 0 <= i < rest.len() implies next_count(#[trigger] rest[i], in_path) is Some by {
            assert(rest[i] == ps[i + 1]);
        }
        if any_hands_on(ps, in_path) {
            let i = choose|i: int| 0 <= i < ps.len() && positive(next_count(#[trigger] ps[i], in_path));
            if i > 0 {
                assert(rest[i - 1] == ps[i]);
            }
        }
        if any_hands_on(rest, in_path) {
            let i = choose|i: int| 0 <= i < rest.len() && positive(next_count(#[trigger] rest[i], in_path));
            assert(rest[i] == ps[i + 1]);
        }
    }
}

/// A pattern that uses the path marker well emits a continuation point in
/// every match where its count is positive, and in none where it is zero.
pub proof fn lemma_emits<A: PartialEq>(p: PatternTree<A>, in_path: bool, v: ValueTree<A>, bs: Seq<Binding<A>>)
    requires
        next_count(p, in_path) is Some,
    ensures
        emits(outcomes(p, v, bs), positive(next_count(p, in_path))),
    decreases p, 0int, 0int,
{
    let some = positive(next_count(p, in_path));
    match p {
        PatternTree::Cons(name, ps) => {
            lemma_count_sum(ps, in_path);
            lemma_any_hands_on(ps, in_path);
            if let ValueTree::Cons(vname, vs) = v {
                if name == vname && ps.len() == vs.len() {
                    lemma_emits_seq(ps, in_path, vs, bs);
                }
            }
        },
        PatternTree::ExactList(ps) => {
            lemma_count_sum(ps, in_path);
            lemma_any_hands_on(ps, in_path);
            if let ValueTree::List(vs) = v {
                if ps.len() == vs.len() {
                    lemma_emits_seq(ps, in_path, vs, bs);
                }
            }
        },
        PatternTree::ListPath(ps) => {
            lemma_count_sum(ps, in_path);
            lemma_any_hands_on(ps, in_path);
            if let ValueTree::List(vs) = v {
                lemma_emits_windows(ps, in_path, vs, 0, bs);
            }
        },
        PatternTree::Path(steps) => {
            super::equivalence::lemma_path_emits_nothing(steps, v, bs);
        },
        PatternTree::And(a, b) => {
            lemma_emits(*a, in_path, v, bs);
            lemma_emits_then_one(outcomes(*a, v, bs), positive(next_count(*a, in_path)), *b, in_path, v);
        },
        PatternTree::Or(a, b) => {
            lemma_emits(*a, in_path, v, bs);
            lemma_emits(*b, in_path, v, bs);
            lemma_emits_concat(outcomes(*a, v, bs), outcomes(*b, v, bs), some);
        },
        _ => {},
    }
}

proof fn lemma_emits_then_one<A: PartialEq>(
    outs: Seq<Outcome<A>>,
    before: bool,
    b: PatternTree<A>,
    in_path: bool,
    v: ValueTree<A>,
)
    requires
        emits(outs, before),
        next_count(b, in_path) is Some,
    ensures
        emits(then_one(outs, b, v), before || positive(next_count(b, in_path))),
    decreases b, 1int, outs.len(),
{
    if outs.len() > 0 {
        lemma_emits_rest(outs, before);
        lemma_emits(b, in_path, v, outs[0].binds);
        lemma_emits_with_nexts(outs[0].nexts, outcomes(b, v, outs[0].binds), positive(next_count(b, in_path)));
        lemma_emits_then_one(outs.drop_first(), before, b, in_path, v);
        lemma_emits_concat(
            with_nexts(outs[0].nexts, outcomes(b, v, outs[0].binds)),
            then_one(outs.drop_first(), b, v),
            before || positive(next_count(b, in_path)),
        );
    }
}

proof fn lemma_emits_seq<A: PartialEq>(
    ps: Seq<PatternTree<A>>,
    in_path: bool,
    vs: Seq<ValueTree<A>>,
    bs: Seq<Binding<A>>,
)
    requires
        all_counted(ps, in_path),
        ps.len() == vs.len(),
    ensures
        emits(outcomes_seq(ps, vs, bs), any_hands_on(ps, in_path)),
    decreases ps, 0int, 0int,
{
    lemma_any_hands_on(ps, in_path);
    if ps.len() > 0 {
        lemma_emits(ps[0], in_path, vs[0], bs);
        lemma_emits_then_seq(
            outcomes(ps[0], vs[0], bs),
            positive(next_count(ps[0], in_path)),
            ps.drop_first(),
            in_path,
            vs.drop_first(),
        );
    }
}

proof fn lemma_emits_then_seq<A: PartialEq>(
    outs: Seq<Outcome<A>>,
    before: bool,
    ps: Seq<PatternTree<A>>,
    in_path: bool,
    vs: Seq<ValueTree<A>>,
)
    requires
        emits(outs, before),
        all_counted(ps, in_path),
        ps.len() == vs.len(),
    ensures
        emits(then_seq(outs, ps, vs), before || any_hands_on(ps, in_path)),
    decreases ps, 1int, outs.len(),
{
    if outs.len() > 0 {
        lemma_emits_rest(outs, before);
        lemma_emits_seq(ps, in_path, vs, outs[0].binds);
        lemma_emits_with_nexts(outs[0].nexts, outcomes_seq(ps, vs, outs[0].binds), any_hands_on(ps, in_path));
        lemma_emits_then_seq(outs.drop_first(), before, ps, in_path, vs);
        lemma_emits_concat(
            with_nexts(outs[0].nexts, outcomes_seq(ps, vs, outs[0].binds)),
            then_seq(outs.drop_first(), ps, vs),
            before || any_hands_on(ps, in_path),
        );
    }
}

proof fn lemma_emits_windows<A: PartialEq>(
    ps: Seq<PatternTree<A>>,
    in_path: bool,
    vs: Seq<ValueTree<A>>,
    from: int,
    bs: Seq<Binding<A>>,
)
    requires
        all_counted(ps, in_path),
    ensures
        emits(outcomes_windows(ps, vs, from, bs), any_hands_on(ps, in_path)),
    decreases ps, 1int, vs.len() - from + 1,
{
    if !(from < 0 || from + ps.len() > vs.len()) {
        let window = vs.subrange(from, from + ps.len());
        lemma_emits_seq(ps, in_path, window, bs);
        lemma_emits_windows(ps, in_path, vs, from + 1, bs);
        lemma_emits_concat(
            outcomes_seq(ps, window, bs),
            outcomes_windows(ps, vs, from + 1, bs),
            any_hands_on(ps, in_path),
        );
    }
}

/// A pattern that passes the check leaves no continuation point behind.
pub proof fn law_checked_pattern_emits_nothing<A: PartialEq>(p: PatternTree<A>, v: ValueTree<A>)
    requires
        verdict(p) is Ok,
    ensures
        emits(outcomes(p, v, Seq::empty()), false),
{
    lemma_emits(p, false, v, Seq::empty());
}

/// The names that the bindings bind.
pub open spec fn names_of<A>(bs: Seq<Binding<A>>) -> Set<Seq<char>> {
    Set::new(|name: Seq<char>| exists|k: int| 0 <= k < bs.len() && (#[trigger] bs[k]).0 == name)
}

/// No name is bound twice.
pub open spec fn distinct_names<A>(bs: Seq<Binding<A>>) -> bool {
    forall|i: int, j: int| 0 <= i < j < bs.len() ==> (#[trigger] bs[i]).0 != (#[trigger] bs[j]).0
}

/// `binds` is `bs` followed by one binding for each of `names`.
pub open spec fn adds<A>(bs: Seq<Binding<A>>, binds: Seq<Binding<A>>, names: Set<Seq<char>>) -> bool {
    &&& bs.len() <= binds.len()
    &&& binds.subrange(0, bs.len() as int) == bs
    &&& distinct_names(binds.subrange(bs.len() as int, binds.len() as int))
    &&& names_of(binds.subrange(bs.len() as int, binds.len() as int)) == names
}

/// `adds` holds of the bindings of each outcome.
pub open spec fn all_add<A>(bs: Seq<Binding<A>>, outs: Seq<Outcome<A>>, names: Set<Seq<char>>) -> bool {
    forall|i: int| 0 <= i < outs.len() ==> adds(bs, (#[trigger] outs[i]).binds, names)
}

proof fn lemma_adds_chain<A>(
    bs: Seq<Binding<A>>,
    mid: Seq<Binding<A>>,
    binds: Seq<Binding<A>>,
    first: Set<Seq<char>>,
    second: Set<Seq<char>>,
)
    requires
        adds(bs, mid, first),
        adds(mid, binds, second),
        first.disjoint(second),
    ensures
        adds(bs, binds, first.union(second)),
{
    let a = bs.len() as int;
    let b = mid.len() as int;
    let c = binds.len() as int;
    let new = binds.subrange(a, c);
    let early = mid.subrange(a, b);
    let late = binds.subrange(b, c);
    assert(binds.subrange(0, a) =~= bs) by {
        assert forall|k: int| 0 <= k < a implies binds[k] == bs[k] by {
            assert(binds.subrange(0, b)[k] == mid[k]);
            assert(mid.subrange(0, a)[k] == bs[k]);
        }
    }
    assert forall|k: int| 0 <= k < b - a implies new[k] == early[k] by {
        assert(binds.subrange(0, b)[k + a] == mid[k + a]);
    }
    assert forall|k: int| b - a <= k < c - a implies new[k] == late[k - (b - a)] by {}
    assert forall|i: int, j: int| 0 <= i < j < new.len() implies (#[trigger] new[i]).0 != (#[trigger] new[j]).0 by {
        if j < b - a {
            assert(early[i].0 != early[j].0);
        } else if i >= b - a {
            assert(late[i - (b - a)].0 != late[j - (b - a)].0);
        } else {
            assert(names_of(early).contains(early[i].0));
            assert(names_of(late).contains(late[j - (b - a)].0));
        }
    }
    assert forall|name: Seq<char>| names_of(new).contains(name) <==> first.union(second).contains(name) by {
        if names_of(new).contains(name) {
            let k = choose|k: int| 0 <= k < new.len() && (#[trigger] new[k]).0 == name;
            if k < b - a {
                assert(early[k].0 == name);
                assert(names_of(early).contains(name));
            } else {
                assert(late[k - (b - a)].0 == name);
                assert(names_of(late).contains(name));
            }
        }
        if first.contains(name) {
            assert(names_of(early).contains(name));
            let k = choose|k: int| 0 <= k < early.len() && (#[trigger] early[k]).0 == name;
            assert(new[k].0 == name);
        }
        if second.contains(name) {
            assert(names_of(late).contains(name));
            let k = choose|k: int| 0 <= k < late.len() && (#[trigger] late[k]).0 == name;
            assert(new[k + (b - a)].0 == name);
        }
    }
    assert(names_of(new) =~= first.union(second));
}

proof fn lemma_all_add_chain<A>(
    bs: Seq<Binding<A>>,
    mid: Seq<Binding<A>>,
    outs: Seq<Outcome<A>>,
    first: Set<Seq<char>>,
    second: Set<Seq<char>>,
)
    requires
        adds(bs, mid, first),
        all_add(mid, outs, second),
        first.disjoint(second),
    ensures
        all_add(bs, outs, first.union(second)),
{
    assert forall|i: int| 0 <= i < outs.len() implies adds(bs, (#[trigger] outs[i]).binds, first.union(second)) by {
        lemma_adds_chain(bs, mid, outs[i].binds, first, second);
    }
}

proof fn lemma_all_add_concat<A>(bs: Seq<Binding<A>>, a: Seq<Outcome<A>>, b: Seq<Outcome<A>>, names: Set<Seq<char>>)
    requires
        all_add(bs, a, names),
        all_add(bs, b, names),
    ensures
        all_add(bs, a + b, names),
{
    assert forall|i: int| 0 <= i < (a + b).len() implies adds(bs, (#[trigger] (a + b)[i]).binds, names) by {
        if i < a.len() {
            assert((a + b)[i] == a[i]);
        } else {
            assert((a + b)[i] == b[i - a.len()]);
        }
    }
}

proof fn lemma_all_add_with_nexts<A>(
    bs: Seq<Binding<A>>,
    prefix: Seq<ValueTree<A>>,
    outs: Seq<Outcome<A>>,
    names: Set<Seq<char>>,
)
    requires
        all_add(bs, outs, names),
    ensures
        all_add(bs, with_nexts(prefix, outs), names),
{
    assert forall|i: int| 0 <= i < with_nexts(prefix, outs).len() implies adds(
        bs,
        (#[trigger] with_nexts(prefix, outs)[i]).binds,
        names,
    ) by {
        assert(with_nexts(prefix, outs)[i].binds == outs[i].binds);
    }
}

proof fn lemma_all_add_rest<A>(bs: Seq<Binding<A>>, outs: Seq<Outcome<A>>, names: Set<Seq<char>>)
    requires
        all_add(bs, outs, names),
        outs.len() > 0,
    ensures
        all_add(bs, outs.drop_first(), names),
        adds(bs, outs[0].binds, names),
{
    assert forall|i: int| 0 <= i < outs.drop_first().len() implies adds(
        bs,
        (#[trigger] outs.drop_first()[i]).binds,
        names,
    ) by {
        assert(outs.drop_first()[i] == outs[i + 1]);
    }
}

proof fn lemma_adds_nothing<A>(bs: Seq<Binding<A>>)
    ensures
        adds(bs, bs, Set::empty()),
        all_add(bs, unchanged(bs), Set::empty()),
        all_add(bs, Seq::<Outcome<A>>::empty(), Set::empty()),
{
    assert(bs.subrange(0, bs.len() as int) =~= bs);
    assert(names_of(bs.subrange(bs.len() as int, bs.len() as int)) =~= Set::empty());
}

/// The signatures of a run of patterns are those of its members.
pub proof fn lemma_signatures<A>(ps: Seq<PatternTree<A>>)
    ensures
        signatures(ps) matches Ok(ss) ==> ss.len() == ps.len() && forall|i: int|
            0 <= i < ps.len() ==> signature(#[trigger] ps[i]) == Ok::<Set<Seq<char>>, CheckError>(ss[i]),
    decreases ps.len(),
{
    if ps.len() > 0 {
        lemma_signatures(ps.drop_last());
        if let Ok(ss) = signatures(ps) {
            let fewer = signatures(ps.drop_last())->Ok_0;
            assert forall|i: int| 0 <= i < ps.len() implies signature(#[trigger] ps[i]) == Ok::<
                Set<Seq<char>>,
                CheckError,
            >(ss[i]) by {
                if i < ps.len() - 1 {
                    assert(ps.drop_last()[i] == ps[i]);
                    assert(ss[i] == fewer[i]);
                }
            }
        }
    }
}

/// Each of `ps` has the signature at its place in `ss`.
pub open spec fn signed<A>(ps: Seq<PatternTree<A>>, ss: Seq<Set<Seq<char>>>) -> bool {
    &&& ss.len() == ps.len()
    &&& forall|i: int| 0 <= i < ps.len() ==> signature(#[trigger] ps[i]) == Ok::<Set<Seq<char>>, CheckError>(ss[i])
}

proof fn lemma_signed_rest<A>(ps: Seq<PatternTree<A>>, ss: Seq<Set<Seq<char>>>)
    requires
        signed(ps, ss),
        pairwise_disjoint(ss),
        ps.len() > 0,
    ensures
        signed(ps.drop_first(), ss.drop_first()),
        pairwise_disjoint(ss.drop_first()),
        ss[0].disjoint(union_all(ss.drop_first())),
        union_all(ss) == ss[0].union(union_all(ss.drop_first())),
{
    let ps1 = ps.drop_first();
    let ss1 = ss.drop_first();
    assert forall|i: int| 0 <= i < ps1.len() implies signature(#[trigger] ps1[i]) == Ok::<
        Set<Seq<char>>,
        CheckError,
    >(ss1[i]) by {
        assert(ps1[i] == ps[i + 1]);
    }
    assert forall|i: int, j: int| 0 <= i < j < ss1.len() implies (#[trigger] ss1[i]).disjoint(#[trigger] ss1[j]) by {
        assert(ss[i + 1].disjoint(ss[j + 1]));
    }
    assert forall|name: Seq<char>| ss[0].contains(name) implies !union_all(ss1).contains(name) by {
        if union_all(ss1).contains(name) {
            let i = choose|i: int| 0 <= i < ss1.len() && (#[trigger] ss1[i]).contains(name);
            assert(ss[0].disjoint(ss[i + 1]));
        }
    }
    assert forall|name: Seq<char>| union_all(ss).contains(name) <==> ss[0].union(union_all(ss1)).contains(name) by {
        if union_all(ss).contains(name) {
            let i = choose|i: int| 0 <= i < ss.len() && (#[trigger] ss[i]).contains(name);
            if i > 0 {
                assert(ss1[i - 1].contains(name));
            }
        }
        if union_all(ss1).contains(name) {
            let i = choose|i: int| 0 <= i < ss1.len() && (#[trigger] ss1[i]).contains(name);
            assert(ss[i + 1].contains(name));
        }
        if ss[0].contains(name) {
            assert(ss[0].contains(name));
        }
    }
    assert(union_all(ss) =~= ss[0].union(union_all(ss1)));
}

proof fn lemma_no_signatures(ss: Seq<Set<Seq<char>>>)
    requires
        ss.len() == 0,
    ensures
        union_all(ss) == Set::<Seq<char>>::empty(),
{
    assert(union_all(ss) =~= Set::empty());
}

/// The steps can be walked as a path: each but the last hands on a
/// continuation point, the last none.
pub open spec fn walkable<A>(steps: Seq<PatternTree<A>>) -> bool {
    steps.len() == 0 || (next_count(steps.last(), true) == Some(0nat) && forall|i: int|
        0 <= i < steps.len() - 1 ==> hands_on(#[trigger] steps[i]))
}

proof fn lemma_walkable_rest<A>(steps: Seq<PatternTree<A>>)
    requires
        walkable(steps),
        steps.len() > 0,
    ensures
        walkable(steps.drop_first()),
        next_count(steps[0], true) is Some,
        positive(next_count(steps[0], true)) == (steps.len() > 1),
{
    let rest = steps.drop_first();
    if rest.len() > 0 {
        assert(rest.last() == steps.last());
        assert forall|i: int| 0 <= i < rest.len() - 1 implies hands_on(#[trigger] rest[i]) by {
            assert(rest[i] == steps[i + 1]);
        }
        assert(hands_on(steps[0]));
    }
}

/// Every match of a well-formed pattern adds exactly one binding for each
/// name of its signature.
pub proof fn lemma_adds<A: PartialEq>(
    p: PatternTree<A>,
    in_path: bool,
    v: ValueTree<A>,
    bs: Seq<Binding<A>>,
    names: Set<Seq<char>>,
)
    requires
        next_count(p, in_path) is Some,
        signature(p) == Ok::<Set<Seq<char>>, CheckError>(names),
    ensures
        all_add(bs, outcomes(p, v, bs), names),
    decreases p, 0int, 0int,
{
    lemma_adds_nothing(bs);
    match p {
        PatternTree::CaptureVar(name) => {
            let binds = bs.push((name, v));
            let new = binds.subrange(bs.len() as int, binds.len() as int);
            assert(binds.subrange(0, bs.len() as int) =~= bs);
            assert(new[0].0 == name);
            assert(names_of(new) =~= set![name]);
        },
        PatternTree::Cons(name, ps) => {
            lemma_signatures(ps);
            lemma_count_sum(ps, in_path);
            let ss = signatures(ps)->Ok_0;
            if let ValueTree::Cons(vname, vs) = v {
                if name == vname && ps.len() == vs.len() {
                    lemma_adds_seq(ps, in_path, vs, bs, ss);
                }
            }
        },
        PatternTree::ExactList(ps) => {
            lemma_signatures(ps);
            lemma_count_sum(ps, in_path);
            let ss = signatures(ps)->Ok_0;
            if let ValueTree::List(vs) = v {
                if ps.len() == vs.len() {
                    lemma_adds_seq(ps, in_path, vs, bs, ss);
                }
            }
        },
        PatternTree::ListPath(ps) => {
            lemma_signatures(ps);
            lemma_count_sum(ps, in_path);
            let ss = signatures(ps)->Ok_0;
            if let ValueTree::List(vs) = v {
                lemma_adds_windows(ps, in_path, vs, 0, bs, ss);
            }
        },
        PatternTree::Path(steps) => {
            lemma_signatures(steps);
            let ss = signatures(steps)->Ok_0;
            lemma_adds_path(steps, v, bs, ss);
        },
        PatternTree::And(a, b) => {
            let x = signature(*a)->Ok_0;
            let y = signature(*b)->Ok_0;
            let ss = seq![x, y];
            assert(x.disjoint(y)) by {
                assert(ss[0].disjoint(ss[1]));
            }
            assert(union_all(ss) =~= x.union(y)) by {
                assert forall|name: Seq<char>| union_all(ss).contains(name) <==> x.union(y).contains(name) by {
                    if x.contains(name) {
                        assert(ss[0].contains(name));
                    }
                    if y.contains(name) {
                        assert(ss[1].contains(name));
                    }
                }
            }
            lemma_adds(*a, in_path, v, bs, x);
            lemma_adds_then_one(outcomes(*a, v, bs), bs, x, *b, in_path, v, y);
        },
        PatternTree::Or(a, b) => {
            lemma_adds(*a, in_path, v, bs, names);
            lemma_adds(*b, in_path, v, bs, names);
            lemma_all_add_concat(bs, outcomes(*a, v, bs), outcomes(*b, v, bs), names);
        },
        _ => {},
    }
}

proof fn lemma_adds_then_one<A: PartialEq>(
    outs: Seq<Outcome<A>>,
    bs: Seq<Binding<A>>,
    first: Set<Seq<char>>,
    b: PatternTree<A>,
    in_path: bool,
    v: ValueTree<A>,
    second: Set<Seq<char>>,
)
    requires
        all_add(bs, outs, first),
        next_count(b, in_path) is Some,
        signature(b) == Ok::<Set<Seq<char>>, CheckError>(second),
        first.disjoint(second),
    ensures
        all_add(bs, then_one(outs, b, v), first.union(second)),
    decreases b, 1int, outs.len(),
{
    if outs.len() > 0 {
        let o = outs[0];
        lemma_all_add_rest(bs, outs, first);
        lemma_adds(b, in_path, v, o.binds, second);
        lemma_all_add_chain(bs, o.binds, outcomes(b, v, o.binds), first, second);
        lemma_all_add_with_nexts(bs, o.nexts, outcomes(b, v, o.binds), first.union(second));
        lemma_adds_then_one(outs.drop_first(), bs, first, b, in_path, v, second);
        lemma_all_add_concat(
            bs,
            with_nexts(o.nexts, outcomes(b, v, o.binds)),
            then_one(outs.drop_first(), b, v),
            first.union(second),
        );
    }
}

proof fn lemma_adds_seq<A: PartialEq>(
    ps: Seq<PatternTree<A>>,
    in_path: bool,
    vs: Seq<ValueTree<A>>,
    bs: Seq<Binding<A>>,
    ss: Seq<Set<Seq<char>>>,
)
    requires
        all_counted(ps, in_path),
        signed(ps, ss),
        pairwise_disjoint(ss),
        ps.len() == vs.len(),
    ensures
        all_add(bs, outcomes_seq(ps, vs, bs), union_all(ss)),
    decreases ps, 0int, 0int,
{
    lemma_adds_nothing(bs);
    if ps.len() == 0 {
        lemma_no_signatures(ss);
    } else {
        lemma_signed_rest(ps, ss);
        lemma_any_hands_on(ps, in_path);
        lemma_adds(ps[0], in_path, vs[0], bs, ss[0]);
        lemma_adds_then_seq(
            outcomes(ps[0], vs[0], bs),
            bs,
            ss[0],
            ps.drop_first(),
            in_path,
            vs.drop_first(),
            ss.drop_first(),
        );
    }
}

proof fn lemma_adds_then_seq<A: PartialEq>(
    outs: Seq<Outcome<A>>,
    bs: Seq<Binding<A>>,
    first: Set<Seq<char>>,
    ps: Seq<PatternTree<A>>,
    in_path: bool,
    vs: Seq<ValueTree<A>>,
    ss: Seq<Set<Seq<char>>>,
)
    requires
        all_add(bs, outs, first),
        all_counted(ps, in_path),
        signed(ps, ss),
        pairwise_disjoint(ss),
        ps.len() == vs.len(),
        first.disjoint(union_all(ss)),
    ensures
        all_add(bs, then_seq(outs, ps, vs), first.union(union_all(ss))),
    decreases ps, 1int, outs.len(),
{
    let all = first.union(union_all(ss));
    if outs.len() > 0 {
        let o = outs[0];
        lemma_all_add_rest(bs, outs, first);
        lemma_adds_seq(ps, in_path, vs, o.binds, ss);
        lemma_all_add_chain(bs, o.binds, outcomes_seq(ps, vs, o.binds), first, union_all(ss));
        lemma_all_add_with_nexts(bs, o.nexts, outcomes_seq(ps, vs, o.binds), all);
        lemma_adds_then_seq(outs.drop_first(), bs, first, ps, in_path, vs, ss);
        lemma_all_add_concat(
            bs,
            with_nexts(o.nexts, outcomes_seq(ps, vs, o.binds)),
            then_seq(outs.drop_first(), ps, vs),
            all,
        );
    }
}

proof fn lemma_adds_windows<A: PartialEq>(
    ps: Seq<PatternTree<A>>,
    in_path: bool,
    vs: Seq<ValueTree<A>>,
    from: int,
    bs: Seq<Binding<A>>,
    ss: Seq<Set<Seq<char>>>,
)
    requires
        all_counted(ps, in_path),
        signed(ps, ss),
        pairwise_disjoint(ss),
    ensures
        all_add(bs, outcomes_windows(ps, vs, from, bs), union_all(ss)),
    decreases ps, 1int, vs.len() - from + 1,
{
    if !(from < 0 || from + ps.len() > vs.len()) {
        let window = vs.subrange(from, from + ps.len());
        lemma_adds_seq(ps, in_path, window, bs, ss);
        lemma_adds_windows(ps, in_path, vs, from + 1, bs, ss);
        lemma_all_add_concat(bs, outcomes_seq(ps, window, bs), outcomes_windows(ps, vs, from + 1, bs), union_all(ss));
    }
}

proof fn lemma_adds_path<A: PartialEq>(
    steps: Seq<PatternTree<A>>,
    v: ValueTree<A>,
    bs: Seq<Binding<A>>,
    ss: Seq<Set<Seq<char>>>,
)
    requires
        walkable(steps),
        signed(steps, ss),
        pairwise_disjoint(ss),
    ensures
        all_add(bs, outcomes_path(steps, v, bs), union_all(ss)),
    decreases steps, 0int, 0int,
{
    lemma_adds_nothing(bs);
    if steps.len() == 0 {
        lemma_no_signatures(ss);
    } else {
        lemma_signed_rest(steps, ss);
        lemma_walkable_rest(steps);
        lemma_adds(steps[0], true, v, bs, ss[0]);
        lemma_emits(steps[0], true, v, bs);
        lemma_adds_then_path(outcomes(steps[0], v, bs), bs, ss[0], steps.drop_first(), ss.drop_first());
    }
}

proof fn lemma_adds_then_path<A: PartialEq>(
    outs: Seq<Outcome<A>>,
    bs: Seq<Binding<A>>,
    first: Set<Seq<char>>,
    rest: Seq<PatternTree<A>>,
    ss: Seq<Set<Seq<char>>>,
)
    requires
        all_add(bs, outs, first),
        emits(outs, rest.len() > 0),
        walkable(rest),
        signed(rest, ss),
        pairwise_disjoint(ss),
        first.disjoint(union_all(ss)),
    ensures
        all_add(bs, then_path(outs, rest), first.union(union_all(ss))),
    decreases rest, 2int, outs.len(),
{
    let all = first.union(union_all(ss));
    if outs.len() > 0 {
        let o = outs[0];
        lemma_all_add_rest(bs, outs, first);
        lemma_emits_rest(outs, rest.len() > 0);
        let here = if o.nexts.len() == 0 || rest.len() == 0 {
            unchanged(o.binds)
        } else {
            fan_out(o.nexts, rest, o.binds)
        };
        if rest.len() == 0 {
            lemma_no_signatures(ss);
            lemma_adds_nothing(o.binds);
        } else {
            lemma_adds_fan_out(o.nexts, rest, o.binds, ss);
        }
        lemma_all_add_chain(bs, o.binds, here, first, union_all(ss));
        lemma_adds_then_path(outs.drop_first(), bs, first, rest, ss);
        lemma_all_add_concat(bs, here, then_path(outs.drop_first(), rest), all);
    }
}

proof fn lemma_adds_fan_out<A: PartialEq>(
    nexts: Seq<ValueTree<A>>,
    rest: Seq<PatternTree<A>>,
    bs: Seq<Binding<A>>,
    ss: Seq<Set<Seq<char>>>,
)
    requires
        walkable(rest),
        signed(rest, ss),
        pairwise_disjoint(ss),
    ensures
        all_add(bs, fan_out(nexts, rest, bs), union_all(ss)),
    decreases rest, 1int, nexts.len(),
{
    if nexts.len() > 0 {
        lemma_adds_path(rest, nexts[0], bs, ss);
        lemma_adds_fan_out(nexts.drop_first(), rest, bs, ss);
        lemma_all_add_concat(bs, outcomes_path(rest, nexts[0], bs), fan_out(nexts.drop_first(), rest, bs), union_all(ss));
    }
}

/// Every result of a pattern that passes the check binds the names of its
/// signature, each once, and no other name.
pub proof fn law_results_bind_the_signature<A: PartialEq>(p: PatternTree<A>, v: ValueTree<A>, names: Set<Seq<char>>)
    requires
        verdict(p) == Ok::<Set<Seq<char>>, CheckError>(names),
    ensures
        forall|i: int|
            0 <= i < solutions(p, v).len() ==> distinct_names(#[trigger] solutions(p, v)[i]) && names_of(
                solutions(p, v)[i],
            ) == names,
{
    let none = Seq::<Binding<A>>::empty();
    lemma_adds(p, false, v, none, names);
    assert forall|i: int| 0 <= i < solutions(p, v).len() implies distinct_names(#[trigger] solutions(p, v)[i])
        && names_of(solutions(p, v)[i]) == names by {
        let binds = outcomes(p, v, none)[i].binds;
        assert(adds(none, binds, names));
        assert(binds.subrange(0, binds.len() as int) =~= binds);
    }
}

} // verus!
