//! The matcher that finds all results at once, by following the
//! semantics; and the cross product of lists of results, with the joining
//! of results into one.

use super::data::{MatchKind, Matchable, Pattern, ValueTree};
use super::matcher::{bindings, copy_matches, equals, find, same_text, value_trees, MatchMap};
use super::semantics::{
    fan_out, outcomes, outcomes_path, outcomes_seq, outcomes_windows, solutions, then_one, then_path, then_seq,
    unchanged, with_nexts, Outcome,
};
use vstd::prelude::*;
use vstd::slice::slice_subrange;

verus! {

/// One way in which a pattern matched: the captures and the continuation
/// points.
pub type Found<'a, D> = (MatchMap<'a, D>, Vec<&'a D>);

/// The trees of a run of borrowed values, in order.
pub open spec fn trees_of<D: Matchable>(ds: Seq<&D>) -> Seq<ValueTree<D::Atom>> {
    Seq::new(ds.len(), |i: int| ds[i].tree())
}

/// The model of a run of `Found`.
pub open spec fn outcomes_of<D: Matchable>(found: Seq<Found<D>>) -> Seq<Outcome<D::Atom>> {
    Seq::new(found.len(), |i: int| Outcome { binds: bindings(found[i].0@), nexts: trees_of(found[i].1@) })
}

proof fn lemma_outcomes_of_push<D: Matchable>(found: Seq<Found<D>>, one: Found<D>)
    ensures
        outcomes_of(found.push(one)) == outcomes_of(found).push(
            Outcome { binds: bindings(one.0@), nexts: trees_of(one.1@) },
        ),
{
    assert(outcomes_of(found.push(one)) =~= outcomes_of(found).push(
        Outcome { binds: bindings(one.0@), nexts: trees_of(one.1@) },
    ));
}

/// The one outcome that binds and emits nothing new.
fn pass<'a, D: Matchable>(bs: &MatchMap<'a, D>) -> (r: Vec<Found<'a, D>>)
    ensures
        outcomes_of(r@) == unchanged(bindings(bs@)),
{
    let mut r: Vec<Found<'a, D>> = Vec::new();
    let nexts: Vec<&'a D> = Vec::new();
    r.push((copy_matches(bs), nexts));
    assert(trees_of(nexts@) =~= Seq::empty());
    assert(outcomes_of(r@) =~= unchanged(bindings(bs@)));
    r
}

/// No outcome.
fn fail<'a, D: Matchable>() -> (r: Vec<Found<'a, D>>)
    ensures
        outcomes_of(r@) == Seq::<Outcome<D::Atom>>::empty(),
{
    let r: Vec<Found<'a, D>> = Vec::new();
    assert(outcomes_of(r@) =~= Seq::empty());
    r
}

/// `prefix` followed by `nexts`.
fn joined<'a, D: Matchable>(prefix: &Vec<&'a D>, nexts: &Vec<&'a D>) -> (r: Vec<&'a D>)
    ensures
        r@ == prefix@ + nexts@,
        trees_of(r@) == trees_of(prefix@) + trees_of(nexts@),
{
    let mut r: Vec<&'a D> = Vec::new();
    let mut i: usize = 0;
    while i < prefix.len()
        invariant
            i <= prefix@.len(),
            r@ == prefix@.subrange(0, i as int),
        decreases prefix@.len() - i,
    {
        r.push(prefix[i]);
        assert(r@ =~= prefix@.subrange(0, i + 1));
        i += 1;
    }
    assert(r@ =~= prefix@);
    let mut j: usize = 0;
    while j < nexts.len()
        invariant
            j <= nexts@.len(),
            r@ == prefix@ + nexts@.subrange(0, j as int),
        decreases nexts@.len() - j,
    {
        r.push(nexts[j]);
        assert(r@ =~= prefix@ + nexts@.subrange(0, j + 1));
        j += 1;
    }
    assert(nexts@.subrange(0, j as int) =~= nexts@);
    assert(trees_of(r@) =~= trees_of(prefix@) + trees_of(nexts@));
    r
}

/// Adds to `out` each of `more` with `prefix` in front of its continuation
/// points.
fn extend_with_nexts<'a, D: Matchable>(out: &mut Vec<Found<'a, D>>, prefix: &Vec<&'a D>, more: Vec<Found<'a, D>>)
    ensures
        outcomes_of(final(out)@) == outcomes_of(old(out)@) + with_nexts(trees_of(prefix@), outcomes_of(more@)),
{
    let ghost before = outcomes_of(out@);
    let ghost added = with_nexts(trees_of(prefix@), outcomes_of(more@));
    assert(before + added.subrange(0, 0) =~= before);
    for one in it: more
        invariant
            it.seq() == more@,
            added == with_nexts(trees_of(prefix@), outcomes_of(more@)),
            outcomes_of(out@) == before + added.subrange(0, it.index() as int),
    {
        let (binds, nexts) = one;
        let all = joined(prefix, &nexts);
        proof {
            let at = it.index() as int;
            lemma_outcomes_of_push(out@, (binds, all));
            assert((before + added.subrange(0, at)).push(added[at]) =~= before + added.subrange(0, at + 1));
        }
        out.push((binds, all));
    }
    assert(added.subrange(0, more@.len() as int) =~= added);
}

/// Adds each of `more` to `out`.
fn extend<'a, D: Matchable>(out: &mut Vec<Found<'a, D>>, more: Vec<Found<'a, D>>)
    ensures
        outcomes_of(final(out)@) == outcomes_of(old(out)@) + outcomes_of(more@),
{
    let none: Vec<&'a D> = Vec::new();
    proof {
        let outs = outcomes_of(more@);
        assert(trees_of(none@) =~= Seq::empty());
        assert forall|i: int| 0 <= i < outs.len() implies with_nexts(Seq::empty(), outs)[i] == outs[i] by {
            assert(Seq::<ValueTree<D::Atom>>::empty() + outs[i].nexts =~= outs[i].nexts);
        }
        assert(with_nexts(Seq::empty(), outs) =~= outs);
    }
    extend_with_nexts(out, &none, more);
}

/// Every way in which `p` matches `data` when `bs` is already bound.
fn eval<'a, D: Matchable>(p: &Pattern<D::Atom>, data: &'a D, bs: &MatchMap<'a, D>) -> (r: Vec<Found<'a, D>>)
    ensures
        outcomes_of(r@) == outcomes(p@, data.tree(), bindings(bs@)),
    decreases p, 0int, 0int,
{
    proof {
        p.lemma_children();
        D::atoms_are_comparable();
    }
    match p {
        Pattern::Atom(a) => match data.kind() {
            MatchKind::Atom(b) => if *a == *b {
                pass(bs)
            } else {
                fail()
            },
            _ => fail(),
        },
        Pattern::Fail => fail(),
        Pattern::Wild => pass(bs),
        Pattern::CaptureVar(name) => {
            let mut binds = copy_matches(bs);
            binds.push((name.clone(), data));
            let nexts: Vec<&'a D> = Vec::new();
            let mut r: Vec<Found<'a, D>> = Vec::new();
            r.push((binds, nexts));
            proof {
                assert(bindings(binds@) =~= bindings(bs@).push((name@, data.tree())));
                assert(trees_of(nexts@) =~= Seq::empty());
                assert(outcomes_of(r@) =~= outcomes(p@, data.tree(), bindings(bs@)));
            }
            r
        },
        Pattern::Cons { name, params } => match data.kind() {
            MatchKind::Cons(dname, ds) => {
                if same_text(name.as_str(), dname) && params.len() == ds.len() {
                    assert(value_trees(ds@) =~= data.tree()->Cons_1);
                    assert(decreases_to!(*p => p->params));
                    eval_seq(params.as_slice(), ds, bs)
                } else {
                    fail()
                }
            },
            _ => fail(),
        },
        Pattern::ExactList(ps) => match data.kind() {
            MatchKind::List(ds) => {
                if ps.len() == ds.len() {
                    assert(value_trees(ds@) =~= data.tree()->List_0);
                    assert(decreases_to!(*p => p->ExactList_0));
                    eval_seq(ps.as_slice(), ds, bs)
                } else {
                    fail()
                }
            },
            _ => fail(),
        },
        Pattern::ListPath(ps) => match data.kind() {
            MatchKind::List(ds) => {
                assert(value_trees(ds@) =~= data.tree()->List_0);
                assert(decreases_to!(*p => p->ListPath_0));
                eval_windows(ps.as_slice(), ds, bs)
            },
            _ => fail(),
        },
        Pattern::PathNext => {
            let mut nexts: Vec<&'a D> = Vec::new();
            nexts.push(data);
            let mut r: Vec<Found<'a, D>> = Vec::new();
            r.push((copy_matches(bs), nexts));
            proof {
                assert(trees_of(nexts@) =~= seq![data.tree()]);
                assert(outcomes_of(r@) =~= outcomes(p@, data.tree(), bindings(bs@)));
            }
            r
        },
        Pattern::Path(ps) => {
            assert(decreases_to!(*p => p->Path_0));
            eval_path(ps.as_slice(), data, bs)
        },
        Pattern::And(a, b) => {
            let first = eval(a, data, bs);
            let mut out: Vec<Found<'a, D>> = fail();
            let ghost all = outcomes_of(first@);
            assert(all.subrange(0, all.len() as int) =~= all);
            for one in it: first
                invariant
                    it.seq() == first@,
                    all == outcomes_of(first@),
                    *p == Pattern::And(*a, *b),
                    then_one(all, b@, data.tree()) == outcomes_of(out@) + then_one(
                        all.subrange(it.index() as int, all.len() as int),
                        b@,
                        data.tree(),
                    ),
            {
                let (binds, nexts) = one;
                let ghost here = all.subrange(it.index() as int, all.len() as int);
                let ghost done = outcomes_of(out@);
                assert(decreases_to!(*p => p->And_1));
                let more = eval(b, data, &binds);
                extend_with_nexts(&mut out, &nexts, more);
                proof {
                    assert(here.drop_first() =~= all.subrange(it.index() + 1, all.len() as int));
                    let step = with_nexts(here[0].nexts, outcomes(b@, data.tree(), here[0].binds));
                    assert((done + step) + then_one(here.drop_first(), b@, data.tree()) =~= done + (step + then_one(
                        here.drop_first(),
                        b@,
                        data.tree(),
                    )));
                }
            }
            assert(outcomes_of(out@) + Seq::<Outcome<D::Atom>>::empty() =~= outcomes_of(out@));
            out
        },
        Pattern::Or(a, b) => {
            let mut out = eval(a, data, bs);
            let second = eval(b, data, bs);
            extend(&mut out, second);
            out
        },
        Pattern::TemplateVar(name) => match find(bs, name) {
            Some(bound) => {
                let lit = bound.to_pattern();
                if equals(&lit, data, Ghost(bound.tree())) {
                    pass(bs)
                } else {
                    fail()
                }
            },
            None => fail(),
        },
    }
}

/// Every way in which `ps` match `ds` one for one, left to right.
fn eval_seq<'a, D: Matchable>(ps: &[Pattern<D::Atom>], ds: &'a [D], bs: &MatchMap<'a, D>) -> (r: Vec<Found<'a, D>>)
    ensures
        outcomes_of(r@) == outcomes_seq(Pattern::trees(ps@), value_trees(ds@), bindings(bs@)),
    decreases ps@, 0int, 0int,
{
    if ps.len() == 0 || ds.len() == 0 {
        return pass(bs);
    }
    let rest_ps = slice_subrange(ps, 1, ps.len());
    let rest_ds = slice_subrange(ds, 1, ds.len());
    let ghost pats = Pattern::trees(rest_ps@);
    let ghost vals = value_trees(rest_ds@);
    proof {
        assert(pats =~= Pattern::trees(ps@).drop_first());
        assert(vals =~= value_trees(ds@).drop_first());
    }
    let first = eval(&ps[0], &ds[0], bs);
    let mut out: Vec<Found<'a, D>> = fail();
    let ghost all = outcomes_of(first@);
    assert(all.subrange(0, all.len() as int) =~= all);
    for one in it: first
        invariant
            it.seq() == first@,
            all == outcomes_of(first@),
            pats == Pattern::trees(rest_ps@),
            vals == value_trees(rest_ds@),
            rest_ps@ == ps@.subrange(1, ps@.len() as int),
            ps@.len() > 0,
            then_seq(all, pats, vals) == outcomes_of(out@) + then_seq(
                all.subrange(it.index() as int, all.len() as int),
                pats,
                vals,
            ),
    {
        let (binds, nexts) = one;
        let ghost here = all.subrange(it.index() as int, all.len() as int);
        let ghost done = outcomes_of(out@);
        let more = eval_seq(rest_ps, rest_ds, &binds);
        extend_with_nexts(&mut out, &nexts, more);
        proof {
            assert(here.drop_first() =~= all.subrange(it.index() + 1, all.len() as int));
            let step = with_nexts(here[0].nexts, outcomes_seq(pats, vals, here[0].binds));
            assert((done + step) + then_seq(here.drop_first(), pats, vals) =~= done + (step + then_seq(
                here.drop_first(),
                pats,
                vals,
            )));
        }
    }
    assert(outcomes_of(out@) + Seq::<Outcome<D::Atom>>::empty() =~= outcomes_of(out@));
    out
}

/// The matches of `ps` on each window of `ds`, nearest window first.
fn eval_windows<'a, D: Matchable>(ps: &[Pattern<D::Atom>], ds: &'a [D], bs: &MatchMap<'a, D>) -> (r: Vec<
    Found<'a, D>,
>)
    ensures
        outcomes_of(r@) == outcomes_windows(Pattern::trees(ps@), value_trees(ds@), 0, bindings(bs@)),
    decreases ps@, 1int, 0int,
{
    let mut out: Vec<Found<'a, D>> = fail();
    let k = ps.len();
    let n = ds.len();
    if k > n {
        return out;
    }
    let ghost pats = Pattern::trees(ps@);
    let ghost vals = value_trees(ds@);
    let last = n - k;
    let mut i: usize = 0;
    assert(Seq::<Outcome<D::Atom>>::empty() + outcomes_windows(pats, vals, 0, bindings(bs@)) =~= outcomes_windows(
        pats,
        vals,
        0,
        bindings(bs@),
    ));
    loop
        invariant
            k == ps@.len(),
            n == ds@.len(),
            last == n - k,
            i <= last,
            pats == Pattern::trees(ps@),
            vals == value_trees(ds@),
            outcomes_windows(pats, vals, 0, bindings(bs@)) == outcomes_of(out@) + outcomes_windows(
                pats,
                vals,
                i as int,
                bindings(bs@),
            ),
        decreases last - i,
    {
        let window = slice_subrange(ds, i, i + k);
        let ghost done = outcomes_of(out@);
        let more = eval_seq(ps, window, bs);
        proof {
            assert(value_trees(window@) =~= vals.subrange(i as int, i + k));
            let later = outcomes_windows(pats, vals, i + 1, bindings(bs@));
            assert((done + outcomes_of(more@)) + later =~= done + (outcomes_of(more@) + later));
        }
        extend(&mut out, more);
        if i == last {
            assert(outcomes_of(out@) + Seq::<Outcome<D::Atom>>::empty() =~= outcomes_of(out@));
            return out;
        }
        i += 1;
    }
}

/// Every way to walk the path `steps` from `data`.
fn eval_path<'a, D: Matchable>(steps: &[Pattern<D::Atom>], data: &'a D, bs: &MatchMap<'a, D>) -> (r: Vec<
    Found<'a, D>,
>)
    ensures
        outcomes_of(r@) == outcomes_path(Pattern::trees(steps@), data.tree(), bindings(bs@)),
    decreases steps@, 0int, 0int,
{
    if steps.len() == 0 {
        return pass(bs);
    }
    let rest = slice_subrange(steps, 1, steps.len());
    let ghost pats = Pattern::trees(rest@);
    proof {
        assert(pats =~= Pattern::trees(steps@).drop_first());
    }
    let first = eval(&steps[0], data, bs);
    let mut out: Vec<Found<'a, D>> = fail();
    let ghost all = outcomes_of(first@);
    assert(all.subrange(0, all.len() as int) =~= all);
    for one in it: first
        invariant
            it.seq() == first@,
            all == outcomes_of(first@),
            pats == Pattern::trees(rest@),
            rest@ == steps@.subrange(1, steps@.len() as int),
            steps@.len() > 0,
            then_path(all, pats) == outcomes_of(out@) + then_path(
                all.subrange(it.index() as int, all.len() as int),
                pats,
            ),
    {
        let (binds, nexts) = one;
        let ghost here = all.subrange(it.index() as int, all.len() as int);
        let ghost done = outcomes_of(out@);
        let more = if nexts.len() == 0 || rest.len() == 0 {
            pass(&binds)
        } else {
            fan(&nexts, rest, &binds)
        };
        proof {
            assert(here.drop_first() =~= all.subrange(it.index() + 1, all.len() as int));
            assert((done + outcomes_of(more@)) + then_path(here.drop_first(), pats) =~= done + (outcomes_of(more@)
                + then_path(here.drop_first(), pats)));
        }
        extend(&mut out, more);
    }
    assert(outcomes_of(out@) + Seq::<Outcome<D::Atom>>::empty() =~= outcomes_of(out@));
    out
}

/// Walks the steps `rest` from each of `nexts` in turn.
fn fan<'a, D: Matchable>(nexts: &Vec<&'a D>, rest: &[Pattern<D::Atom>], bs: &MatchMap<'a, D>) -> (r: Vec<
    Found<'a, D>,
>)
    ensures
        outcomes_of(r@) == fan_out(trees_of(nexts@), Pattern::trees(rest@), bindings(bs@)),
    decreases rest@, 1int, 0int,
{
    let mut out: Vec<Found<'a, D>> = fail();
    let ghost points = trees_of(nexts@);
    let ghost pats = Pattern::trees(rest@);
    let mut i: usize = 0;
    assert(points.subrange(0, points.len() as int) =~= points);
    assert(Seq::<Outcome<D::Atom>>::empty() + fan_out(points, pats, bindings(bs@)) =~= fan_out(
        points,
        pats,
        bindings(bs@),
    ));
    while i < nexts.len()
        invariant
            i <= nexts@.len(),
            points == trees_of(nexts@),
            pats == Pattern::trees(rest@),
            fan_out(points, pats, bindings(bs@)) == outcomes_of(out@) + fan_out(
                points.subrange(i as int, points.len() as int),
                pats,
                bindings(bs@),
            ),
        decreases nexts@.len() - i,
    {
        let ghost here = points.subrange(i as int, points.len() as int);
        let ghost done = outcomes_of(out@);
        let more = eval_path(rest, nexts[i], bs);
        proof {
            assert(here.drop_first() =~= points.subrange(i + 1, points.len() as int));
            let later = fan_out(here.drop_first(), pats, bindings(bs@));
            assert((done + outcomes_of(more@)) + later =~= done + (outcomes_of(more@) + later));
        }
        extend(&mut out, more);
        i += 1;
    }
    assert(outcomes_of(out@) + Seq::<Outcome<D::Atom>>::empty() =~= outcomes_of(out@));
    out
}

/// Finds at once every way in which a pattern matches a value.
///
/// The results are those that the step-by-step search hands out, in the
/// same order.
pub fn strict_pattern_match<'a, D: Matchable>(pattern: &Pattern<D::Atom>, data: &'a D) -> (r: Vec<MatchMap<'a, D>>)
    ensures
        r@.len() == solutions(pattern@, data.tree()).len(),
        forall|i: int| 0 <= i < r@.len() ==> bindings((#[trigger] r@[i])@) == solutions(pattern@, data.tree())[i],
{
    let none: MatchMap<'a, D> = Vec::new();
    assert(bindings(none@) =~= Seq::empty());
    let found = eval(pattern, data, &none);
    let mut out: Vec<MatchMap<'a, D>> = Vec::new();
    for one in it: found
        invariant
            it.seq() == found@,
            out@.len() == it.index(),
            forall|i: int| 0 <= i < out@.len() ==> (#[trigger] out@[i])@ == found@[i].0@,
    {
        let (binds, _) = one;
        out.push(binds);
    }
    out
}

/// The match results of a list, as their models.
pub open spec fn maps_of<D>(v: Seq<Vec<(String, &D)>>) -> Seq<Seq<(String, &D)>> {
    Seq::new(v.len(), |k: int| v[k]@)
}

/// The match results of lists, as their models.
pub open spec fn lists_of<D>(v: Seq<Vec<Vec<(String, &D)>>>) -> Seq<Seq<Seq<(String, &D)>>> {
    Seq::new(v.len(), |i: int| maps_of(v[i]@))
}

/// Every way to take one member of each list, in the order of the lists.
/// The choice from the first list varies fastest. No list gives no way.
pub open spec fn tuples<T>(lists: Seq<Seq<T>>) -> Seq<Seq<T>>
    decreases lists.len(),
{
    if lists.len() == 0 {
        Seq::empty()
    } else if lists.len() == 1 {
        Seq::new(lists[0].len(), |j: int| seq![lists[0][j]])
    } else {
        let fewer = tuples(lists.drop_last());
        let last = lists.last();
        Seq::new(fewer.len() * last.len(), |j: int| fewer[j % (fewer.len() as int)].push(last[j / (fewer.len() as int)]))
    }
}

/// The number of ways to take one member of each list: the product of
/// their lengths.
pub open spec fn ways<T>(lists: Seq<Seq<T>>) -> nat
    decreases lists.len(),
{
    if lists.len() == 0 {
        1
    } else {
        ways(lists.drop_last()) * lists.last().len()
    }
}

/// The product of the lengths of the lists from the one at `from` on.
pub open spec fn ways_from<T>(lists: Seq<Seq<T>>, from: int) -> nat
    decreases lists.len(),
{
    if lists.len() <= from || lists.len() == 0 {
        1
    } else {
        ways_from(lists.drop_last(), from) * lists.last().len()
    }
}

proof fn lemma_ways_split<T>(lists: Seq<Seq<T>>, at: int)
    requires
        0 <= at <= lists.len(),
    ensures
        ways(lists) == ways(lists.subrange(0, at)) * ways_from(lists, at),
    decreases lists.len(),
{
    if at == lists.len() {
        assert(lists.subrange(0, at) =~= lists);
        assert(ways(lists) * 1 == ways(lists)) by (nonlinear_arith);
    } else {
        let fewer = lists.drop_last();
        lemma_ways_split(fewer, at);
        assert(fewer.subrange(0, at) =~= lists.subrange(0, at));
        let a = ways(lists.subrange(0, at)) as int;
        let b = ways_from(fewer, at) as int;
        let c = lists.last().len() as int;
        assert((a * b) * c == a * (b * c)) by (nonlinear_arith);
    }
}

/// The digit of `j` at the place worth `s` in a base of `l` stays when `j`
/// is cut down to the places below `s * l * r`.
proof fn lemma_digit(j: int, s: int, l: int, r: int)
    requires
        0 <= j,
        0 < s,
        0 < l,
        0 < r,
    ensures
        0 < s * l * r,
        ((j % (s * l * r)) / s) % l == (j / s) % l,
{
    let m = s * l;
    assert(0 < m) by (nonlinear_arith)
        requires
            0 < s,
            0 < l,
            m == s * l,
    ;
    assert(0 < m * r) by (nonlinear_arith)
        requires
            0 < m,
            0 < r,
    ;
    let x = j % (m * r);
    vstd::arithmetic::div_mod::lemma_mod_bound(j, m * r);
    vstd::arithmetic::div_mod::lemma_mod_mod(j, m, r);
    vstd::arithmetic::div_mod::lemma_breakdown(x, s, l);
    vstd::arithmetic::div_mod::lemma_breakdown(j, s, l);
    vstd::arithmetic::div_mod::lemma_mod_mod(x, s, l);
    vstd::arithmetic::div_mod::lemma_mod_mod(j, s, l);
    let p = (x / s) % l;
    let q = (j / s) % l;
    assert(x % m == j % m);
    assert(x % s == j % s);
    assert(s * p == s * q);
    assert(p == q) by (nonlinear_arith)
        requires
            s * p == s * q,
            0 < s,
    ;
}

/// Which member of the list at `i` the way at `j` takes: the digit of `j`
/// at that place, the first list being the lowest place and each list's
/// length the base at its place.
pub open spec fn place<T>(lists: Seq<Seq<T>>, j: int, i: int) -> int {
    (j / (ways(lists.subrange(0, i)) as int)) % (lists[i].len() as int)
}

proof fn lemma_ways<T>(lists: Seq<Seq<T>>)
    requires
        lists.len() > 0,
    ensures
        tuples(lists).len() == ways(lists),
        forall|j: int| 0 <= j < ways(lists) ==> (#[trigger] tuples(lists)[j]).len() == lists.len(),
    decreases lists.len(),
{
    if lists.len() == 1 {
        assert(lists.drop_last() =~= Seq::empty());
        assert(ways(lists.drop_last()) == 1);
        assert(1 * lists[0].len() == lists[0].len()) by (nonlinear_arith);
    } else {
        let fewer = lists.drop_last();
        lemma_ways(fewer);
        let width = ways(fewer) as int;
        let len = lists.last().len() as int;
        assert forall|j: int| 0 <= j < ways(lists) implies (#[trigger] tuples(lists)[j]).len() == lists.len() by {
            assert(0 < width) by (nonlinear_arith)
                requires
                    0 <= j < width * len,
                    0 <= width,
            ;
            vstd::arithmetic::div_mod::lemma_mod_bound(j, width);
        }
    }
}

proof fn lemma_member<T>(lists: Seq<Seq<T>>, j: int, i: int)
    requires
        lists.len() > 0,
        0 <= j < ways(lists),
        0 <= i < lists.len(),
    ensures
        0 <= place(lists, j, i) < lists[i].len(),
        tuples(lists)[j][i] == lists[i][place(lists, j, i)],
    decreases lists.len(),
{
    let n = lists.len() as int;
    if n == 1 {
        assert(lists.drop_last() =~= Seq::empty());
        assert(ways(lists.drop_last()) == 1);
        assert(1 * lists[0].len() == lists[0].len()) by (nonlinear_arith);
        assert(lists.subrange(0, 0) =~= Seq::empty());
        assert(ways(lists.subrange(0, 0)) == 1);
        assert(j / 1 == j);
        vstd::arithmetic::div_mod::lemma_small_mod(j as nat, lists[0].len());
        assert(place(lists, j, 0) == j);
        assert(tuples(lists)[j] == seq![lists[0][j]]);
    } else {
        let fewer = lists.drop_last();
        let last = lists.last();
        lemma_ways(fewer);
        let width = ways(fewer) as int;
        let len = last.len() as int;
        assert(lists.subrange(0, n - 1) =~= fewer);
        assert(0 < width && 0 < len) by (nonlinear_arith)
            requires
                0 <= j < width * len,
                0 <= width,
                0 <= len,
        ;
        let low = j % width;
        let high = j / width;
        vstd::arithmetic::div_mod::lemma_mod_bound(j, width);
        vstd::arithmetic::div_mod::lemma_div_pos_is_pos(j, width);
        vstd::arithmetic::div_mod::lemma_multiply_divide_lt(j, width, len);
        assert(tuples(lists)[j] == tuples(fewer)[low].push(last[high]));
        assert(tuples(fewer)[low].len() == n - 1);
        if i == n - 1 {
            vstd::arithmetic::div_mod::lemma_small_mod(high as nat, len as nat);
            assert(place(lists, j, i) == high);
        } else {
            lemma_member(fewer, low, i);
            assert(fewer.subrange(0, i) =~= lists.subrange(0, i));
            assert(fewer[i] == lists[i]);
            let below = ways(lists.subrange(0, i)) as int;
            let here = lists[i].len() as int;
            let above = ways_from(fewer, i + 1) as int;
            lemma_ways_split(fewer, i + 1);
            assert(fewer.subrange(0, i + 1).drop_last() =~= lists.subrange(0, i));
            assert(fewer.subrange(0, i + 1).last() == lists[i]);
            assert(width == below * here * above);
            assert(0 < below && 0 < here && 0 < above) by (nonlinear_arith)
                requires
                    0 < width,
                    width == below * here * above,
                    0 <= below,
                    0 <= here,
                    0 <= above,
            ;
            lemma_digit(j, below, here, above);
            assert(place(fewer, low, i) == (low / below) % here);
            assert(place(lists, j, i) == (j / below) % here);
        }
    }
}

/// The ways to take one member of each list, counted and told apart: there
/// are as many as the lengths multiply to, and the way at `j` takes from
/// each list the member at its `place`.
pub proof fn lemma_tuples<T>(lists: Seq<Seq<T>>)
    requires
        lists.len() > 0,
    ensures
        tuples(lists).len() == ways(lists),
        forall|j: int| 0 <= j < ways(lists) ==> (#[trigger] tuples(lists)[j]).len() == lists.len(),
        forall|j: int, i: int|
            0 <= j < ways(lists) && 0 <= i < lists.len() ==> 0 <= #[trigger] place(lists, j, i) < lists[i].len(),
        forall|j: int, i: int|
            0 <= j < ways(lists) && 0 <= i < lists.len() ==> #[trigger] tuples(lists)[j][i] == lists[i][place(
                lists,
                j,
                i,
            )],
{
    lemma_ways(lists);
    assert forall|j: int, i: int| 0 <= j < ways(lists) && 0 <= i < lists.len() implies 0 <= #[trigger] place(
        lists,
        j,
        i,
    ) < lists[i].len() by {
        lemma_member(lists, j, i);
    }
    assert forall|j: int, i: int| 0 <= j < ways(lists) && 0 <= i < lists.len() implies #[trigger] tuples(
        lists,
    )[j][i] == lists[i][place(lists, j, i)] by {
        lemma_member(lists, j, i);
    }
}

/// The members of all the lists, one list after another.
pub open spec fn chained<T>(lists: Seq<Seq<T>>) -> Seq<T>
    decreases lists.len(),
{
    if lists.len() == 0 {
        Seq::empty()
    } else {
        chained(lists.drop_last()) + lists.last()
    }
}

/// A copy of a list of match results.
fn copy_maps<'a, D: Matchable>(v: &Vec<MatchMap<'a, D>>) -> (r: Vec<MatchMap<'a, D>>)
    ensures
        maps_of(r@) == maps_of(v@),
{
    let mut out: Vec<MatchMap<'a, D>> = Vec::new();
    let mut i: usize = 0;
    while i < v.len()
        invariant
            i <= v@.len(),
            out@.len() == i,
            forall|k: int| 0 <= k < i ==> (#[trigger] out@[k])@ == v@[k]@,
        decreases v@.len() - i,
    {
        out.push(copy_matches(&v[i]));
        i += 1;
    }
    assert(maps_of(out@) =~= maps_of(v@));
    out
}

/// Every way to take one match result from each list: the cross product
/// of the lists, the choice from the first list varying fastest.
///
/// There are as many ways as the lengths of the lists multiply to, and the
/// way at `j` takes from the list at `i` the result at `place(.., j, i)`.
/// No list gives no way.
pub fn product<'a, D: Matchable>(input: Vec<Vec<MatchMap<'a, D>>>) -> (r: Vec<Vec<MatchMap<'a, D>>>)
    ensures
        lists_of(r@) == tuples(lists_of(input@)),
        input@.len() == 0 ==> r@.len() == 0,
        input@.len() > 0 ==> r@.len() == ways(lists_of(input@)),
        forall|j: int, i: int|
            0 <= j < r@.len() && 0 <= i < input@.len() ==> ((#[trigger] r@[j])@.len() == input@.len()
                && r@[j]@[i]@ == (#[trigger] input@[i])@[place(lists_of(input@), j, i)]@),
{
    let ghost all = lists_of(input@);
    let r = take_each(input);
    proof {
        assert(lists_of(r@).len() == r@.len());
        if all.len() > 0 {
            lemma_ways(all);
            assert forall|j: int, i: int| 0 <= j < r@.len() && 0 <= i < all.len() implies ((#[trigger] r@[j])@.len()
                == all.len() && r@[j]@[i]@ == (#[trigger] input@[i])@[place(all, j, i)]@) by {
                lemma_member(all, j, i);
                assert(lists_of(r@)[j] == tuples(all)[j]);
                assert(lists_of(r@)[j].len() == r@[j]@.len());
                assert(lists_of(r@)[j][i] == r@[j]@[i]@);
                assert(all[i][place(all, j, i)] == input@[i]@[place(all, j, i)]@);
            }
        }
    }
    r
}

/// The cross product, made list by list from the last one down.
fn take_each<'a, D: Matchable>(input: Vec<Vec<MatchMap<'a, D>>>) -> (r: Vec<Vec<MatchMap<'a, D>>>)
    ensures
        lists_of(r@) == tuples(lists_of(input@)),
    decreases input@.len(),
{
    let mut input = input;
    let ghost all = lists_of(input@);
    if input.len() == 1 {
        let only = input.pop().unwrap();
        let mut ret: Vec<Vec<MatchMap<'a, D>>> = Vec::new();
        assert(maps_of(only@) == all[0]);
        for x in it: only
            invariant
                it.seq() == only@,
                ret@.len() == it.index(),
                forall|j: int| 0 <= j < ret@.len() ==> maps_of((#[trigger] ret@[j])@) == seq![only@[j]@],
        {
            let mut one: Vec<MatchMap<'a, D>> = Vec::new();
            one.push(x);
            assert(maps_of(one@) =~= seq![x@]);
            ret.push(one);
        }
        assert(lists_of(ret@) =~= tuples(all));
        return ret;
    }
    match input.pop() {
        None => {
            let ret: Vec<Vec<MatchMap<'a, D>>> = Vec::new();
            assert(lists_of(ret@) =~= tuples(all));
            ret
        },
        Some(results) => {
            assert(lists_of(input@) =~= all.drop_last());
            assert(maps_of(results@) == all.last());
            let sub = take_each(input);
            let ghost fewer = lists_of(sub@);
            let ghost last = maps_of(results@);
            let ghost width = sub@.len() as int;
            let mut ret: Vec<Vec<MatchMap<'a, D>>> = Vec::new();
            let mut b: usize = 0;
            while b < results.len()
                invariant
                    b <= results@.len(),
                    fewer == lists_of(sub@),
                    last == maps_of(results@),
                    width == sub@.len(),
                    ret@.len() == b * width,
                    forall|j: int|
                        0 <= j < ret@.len() ==> maps_of((#[trigger] ret@[j])@) == fewer[j % width].push(
                            last[j / width],
                        ),
                decreases results@.len() - b,
            {
                let mut a: usize = 0;
                while a < sub.len()
                    invariant
                        b < results@.len(),
                        a <= sub@.len(),
                        fewer == lists_of(sub@),
                        last == maps_of(results@),
                        width == sub@.len(),
                        ret@.len() == b * width + a,
                        forall|j: int|
                            0 <= j < ret@.len() ==> maps_of((#[trigger] ret@[j])@) == fewer[j % width].push(
                                last[j / width],
                            ),
                    decreases sub@.len() - a,
                {
                    let mut s = copy_maps(&sub[a]);
                    let ghost before = maps_of(s@);
                    let result = copy_matches(&results[b]);
                    s.push(result);
                    proof {
                        assert(maps_of(s@) =~= before.push(result@));
                        vstd::arithmetic::div_mod::lemma_fundamental_div_mod_converse(
                            b * width + a,
                            width,
                            b as int,
                            a as int,
                        );
                    }
                    ret.push(s);
                    a += 1;
                }
                assert(b * width + width == (b + 1) * width) by (nonlinear_arith);
                b += 1;
            }
            proof {
                assert(results@.len() * width == width * results@.len()) by (nonlinear_arith);
                assert(lists_of(ret@) =~= tuples(all));
            }
            ret
        },
    }
}

/// The bindings of all the match results, one result after another.
pub fn collapse<'a, D: Matchable>(input: Vec<MatchMap<'a, D>>) -> (r: MatchMap<'a, D>)
    ensures
        r@ == chained(maps_of(input@)),
{
    let ghost all = maps_of(input@);
    let mut out: MatchMap<'a, D> = Vec::new();
    assert(all.subrange(0, 0) =~= Seq::empty());
    for map in it: input
        invariant
            it.seq() == input@,
            all == maps_of(input@),
            out@ == chained(all.subrange(0, it.index() as int)),
    {
        let ghost upto = all.subrange(0, it.index() + 1);
        let ghost so_far = out@;
        assert(upto.drop_last() =~= all.subrange(0, it.index() as int));
        assert(upto.last() == map@);
        for binding in at: map
            invariant
                at.seq() == map@,
                out@ == so_far + map@.subrange(0, at.index() as int),
        {
            out.push(binding);
            assert(out@ =~= so_far + map@.subrange(0, at.index() + 1));
        }
        assert(map@.subrange(0, map@.len() as int) =~= map@);
    }
    assert(all.subrange(0, all.len() as int) =~= all);
    out
}

/// Each list of match results made into one, in the order of the lists.
pub fn collapse_all<'a, D: Matchable>(input: Vec<Vec<MatchMap<'a, D>>>) -> (r: Vec<MatchMap<'a, D>>)
    ensures
        r@.len() == input@.len(),
        forall|i: int| 0 <= i < input@.len() ==> (#[trigger] r@[i])@ == chained(lists_of(input@)[i]),
{
    let mut out: Vec<MatchMap<'a, D>> = Vec::new();
    for maps in it: input
        invariant
            it.seq() == input@,
            out@.len() == it.index(),
            forall|i: int| 0 <= i < out@.len() ==> (#[trigger] out@[i])@ == chained(lists_of(input@)[i]),
    {
        out.push(collapse(maps));
    }
    out
}

} // verus!
