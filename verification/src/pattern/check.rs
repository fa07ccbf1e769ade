//! The check of a pattern, which looks at no value.
//!
//! Each of its four passes is said by a function on the model of a pattern
//! and done by a function on the pattern; the verdict is the first failure
//! in the order of the passes, or the signature.

use super::data::{Pattern, PatternTree};
use super::names::{
    copy_names, distinct, has_name, insert_name, lemma_names_push, lemma_ordered_is_distinct, names, ordered,
    same_names, texts,
};
use vstd::prelude::*;

verus! {

/// The capture names that a pattern binds. Where the library makes one,
/// the names stand in the order of `str`, each once.
pub type PatternSig = Vec<String>;

/// Why a pattern was refused.
#[derive(Debug)]
pub enum TypeCheckError {
    DuplicateSlot,
    OrPatternHasUnequalSig,
    IncorrectNextUsage,
    ConsNeedsAtLeastOneParam,
    TypeDoesNotMatch { found: PatternSig, expected: PatternSig },
    TemplateReferencesUnknownCaptureVariable(String),
}

/// The model of a `TypeCheckError`.
pub ghost enum CheckError {
    DuplicateSlot,
    OrPatternHasUnequalSig,
    IncorrectNextUsage,
    ConsNeedsAtLeastOneParam,
    TypeDoesNotMatch { found: Seq<Seq<char>>, expected: Seq<Seq<char>> },
    TemplateReferencesUnknownCaptureVariable(Seq<char>),
}

impl View for TypeCheckError {
    type V = CheckError;

    open spec fn view(&self) -> CheckError {
        match self {
            TypeCheckError::DuplicateSlot => CheckError::DuplicateSlot,
            TypeCheckError::OrPatternHasUnequalSig => CheckError::OrPatternHasUnequalSig,
            TypeCheckError::IncorrectNextUsage => CheckError::IncorrectNextUsage,
            TypeCheckError::ConsNeedsAtLeastOneParam => CheckError::ConsNeedsAtLeastOneParam,
            TypeCheckError::TypeDoesNotMatch { found, expected } => CheckError::TypeDoesNotMatch {
                found: texts(found@),
                expected: texts(expected@),
            },
            TypeCheckError::TemplateReferencesUnknownCaptureVariable(name) =>
                CheckError::TemplateReferencesUnknownCaptureVariable(name@),
        }
    }
}

/// How many continuation points one match of `p` hands to the path step it
/// stands in, or `None` where `p` misuses the marker.
///
/// The marker counts only inside a path. Every step of a path but the last
/// must hand on at least one point and the last none; the path itself hands
/// on nothing. The two sides of an alternative must agree on whether they
/// hand on any.
pub open spec fn next_count<A>(p: PatternTree<A>, in_path: bool) -> Option<nat>
    decreases p, 0int,
{
    match p {
        PatternTree::Atom(_) => Some(0),
        PatternTree::Fail => Some(0),
        PatternTree::Wild => Some(0),
        PatternTree::CaptureVar(_) => Some(0),
        PatternTree::Cons(_, ps) => next_count_sum(ps, in_path),
        PatternTree::ExactList(ps) => next_count_sum(ps, in_path),
        PatternTree::ListPath(ps) => next_count_sum(ps, in_path),
        PatternTree::PathNext => if in_path {
            Some(1)
        } else {
            None
        },
        PatternTree::Path(steps) => if steps.len() == 0 {
            Some(0)
        } else if next_count(steps.last(), true) == Some(0nat) && forall|i: int|
            0 <= i < steps.len() - 1 ==> hands_on(#[trigger] steps[i])
        {
            Some(0)
        } else {
            None
        },
        PatternTree::And(a, b) => match (next_count(*a, in_path), next_count(*b, in_path)) {
            (Some(x), Some(y)) => Some(x + y),
            _ => None,
        },
        PatternTree::Or(a, b) => match (next_count(*a, in_path), next_count(*b, in_path)) {
            (Some(x), Some(y)) => if x == 0 && y == 0 {
                Some(0)
            } else if x > 0 && y > 0 {
                Some(1)
            } else {
                None
            },
            _ => None,
        },
        PatternTree::TemplateVar(_) => Some(0),
    }
}

/// As a step of a path, `p` is well formed and hands on at least one point.
pub open spec fn hands_on<A>(p: PatternTree<A>) -> bool
    decreases p, 1int,
{
    match next_count(p, true) {
        Some(k) => k > 0,
        None => false,
    }
}

/// The sum of `next_count` over `ps`, `None` if any of them is.
pub open spec fn next_count_sum<A>(ps: Seq<PatternTree<A>>, in_path: bool) -> Option<nat>
    decreases ps, 0int,
{
    if ps.len() == 0 {
        Some(0)
    } else {
        match (next_count_sum(ps.drop_last(), in_path), next_count(ps.last(), in_path)) {
            (Some(x), Some(y)) => Some(x + y),
            _ => None,
        }
    }
}

/// Every constructor pattern in `p` has at least one parameter.
pub open spec fn conses_have_params<A>(p: PatternTree<A>) -> bool
    decreases p, 0int,
{
    match p {
        PatternTree::Cons(_, ps) => ps.len() > 0 && all_have_params(ps),
        PatternTree::ExactList(ps) => all_have_params(ps),
        PatternTree::ListPath(ps) => all_have_params(ps),
        PatternTree::Path(ps) => all_have_params(ps),
        PatternTree::And(a, b) => conses_have_params(*a) && conses_have_params(*b),
        PatternTree::Or(a, b) => conses_have_params(*a) && conses_have_params(*b),
        _ => true,
    }
}

/// `conses_have_params` holds of each of `ps`.
pub open spec fn all_have_params<A>(ps: Seq<PatternTree<A>>) -> bool
    decreases ps, 1int,
{
    forall|i: int| 0 <= i < ps.len() ==> conses_have_params(#[trigger] ps[i])
}

/// Walks `p` left to right and depth first with the names captured so far.
/// Gives the names captured after `p`, or the first template variable that
/// names no capture met before it.
pub open spec fn scope<A>(p: PatternTree<A>, seen: Set<Seq<char>>) -> Result<Set<Seq<char>>, Seq<char>>
    decreases p,
{
    match p {
        PatternTree::CaptureVar(name) => Ok(seen.insert(name)),
        PatternTree::TemplateVar(name) => if seen.contains(name) {
            Ok(seen)
        } else {
            Err(name)
        },
        PatternTree::Cons(_, ps) => scope_seq(ps, seen),
        PatternTree::ExactList(ps) => scope_seq(ps, seen),
        PatternTree::ListPath(ps) => scope_seq(ps, seen),
        PatternTree::Path(ps) => scope_seq(ps, seen),
        PatternTree::And(a, b) => match scope(*a, seen) {
            Ok(after) => scope(*b, after),
            Err(name) => Err(name),
        },
        PatternTree::Or(a, b) => match scope(*a, seen) {
            Ok(after) => scope(*b, after),
            Err(name) => Err(name),
        },
        _ => Ok(seen),
    }
}

/// `scope` over a run of patterns, each seeing what the earlier ones captured.
pub open spec fn scope_seq<A>(ps: Seq<PatternTree<A>>, seen: Set<Seq<char>>) -> Result<
    Set<Seq<char>>,
    Seq<char>,
>
    decreases ps,
{
    if ps.len() == 0 {
        Ok(seen)
    } else {
        match scope_seq(ps.drop_last(), seen) {
            Ok(after) => scope(ps.last(), after),
            Err(name) => Err(name),
        }
    }
}

/// No two of the sets share a name.
pub open spec fn pairwise_disjoint(ss: Seq<Set<Seq<char>>>) -> bool {
    forall|i: int, j: int| 0 <= i < j < ss.len() ==> (#[trigger] ss[i]).disjoint(#[trigger] ss[j])
}

/// The names that any of the sets holds.
pub open spec fn union_all(ss: Seq<Set<Seq<char>>>) -> Set<Seq<char>> {
    Set::new(|n: Seq<char>| exists|i: int| 0 <= i < ss.len() && (#[trigger] ss[i]).contains(n))
}

/// The set of capture names that every match of `p` binds, or why `p` has
/// none: a name captured by two parts that match together, or an
/// alternative whose sides capture different names.
pub open spec fn signature<A>(p: PatternTree<A>) -> Result<Set<Seq<char>>, CheckError>
    decreases p, 1int,
{
    match p {
        PatternTree::CaptureVar(name) => Ok(set![name]),
        PatternTree::Cons(_, ps) => combined(signatures(ps)),
        PatternTree::ExactList(ps) => combined(signatures(ps)),
        PatternTree::ListPath(ps) => combined(signatures(ps)),
        PatternTree::Path(ps) => combined(signatures(ps)),
        PatternTree::And(a, b) => match signature(*a) {
            Ok(x) => match signature(*b) {
                Ok(y) => combined(Ok(seq![x, y])),
                Err(e) => Err(e),
            },
            Err(e) => Err(e),
        },
        PatternTree::Or(a, b) => match signature(*a) {
            Ok(x) => match signature(*b) {
                Ok(y) => if x == y {
                    Ok(x)
                } else {
                    Err(CheckError::OrPatternHasUnequalSig)
                },
                Err(e) => Err(e),
            },
            Err(e) => Err(e),
        },
        _ => Ok(Set::empty()),
    }
}

/// The signatures of `ps` in order, or the first failure among them.
pub open spec fn signatures<A>(ps: Seq<PatternTree<A>>) -> Result<Seq<Set<Seq<char>>>, CheckError>
    decreases ps, 0int,
{
    if ps.len() == 0 {
        Ok(Seq::empty())
    } else {
        match signatures(ps.drop_last()) {
            Ok(ss) => match signature(ps.last()) {
                Ok(s) => Ok(ss.push(s)),
                Err(e) => Err(e),
            },
            Err(e) => Err(e),
        }
    }
}

/// The signature of parts that match together: their union, if no two of
/// them share a name.
pub open spec fn combined(parts: Result<Seq<Set<Seq<char>>>, CheckError>) -> Result<Set<Seq<char>>, CheckError> {
    match parts {
        Ok(ss) => if pairwise_disjoint(ss) {
            Ok(union_all(ss))
        } else {
            Err(CheckError::DuplicateSlot)
        },
        Err(e) => Err(e),
    }
}

/// The verdict on `p`: its signature, or the first failure of four passes in
/// this order: use of the path marker, arity of constructors, scope of
/// template variables, signature.
pub open spec fn verdict<A>(p: PatternTree<A>) -> Result<Set<Seq<char>>, CheckError> {
    if next_count(p, false) != Some(0nat) {
        Err(CheckError::IncorrectNextUsage)
    } else if !conses_have_params(p) {
        Err(CheckError::ConsNeedsAtLeastOneParam)
    } else {
        match scope(p, Set::empty()) {
            Err(name) => Err(CheckError::TemplateReferencesUnknownCaptureVariable(name)),
            Ok(_) => signature(p),
        }
    }
}

/// Whether a count is positive, where there is one.
pub open spec fn positive(count: Option<nat>) -> Option<bool> {
    match count {
        Some(k) => Some(k > 0),
        None => None,
    }
}

/// A misuse among the first patterns of a run is a misuse in the run.
proof fn lemma_count_sum_none<A>(ps: Seq<PatternTree<A>>, in_path: bool, k: int)
    requires
        0 <= k <= ps.len(),
        next_count_sum(ps.subrange(0, k), in_path) is None,
    ensures
        next_count_sum(ps, in_path) is None,
    decreases ps.len(),
{
    if k == ps.len() {
        assert(ps.subrange(0, k) =~= ps);
    } else {
        assert(ps.drop_last().subrange(0, k) =~= ps.subrange(0, k));
        lemma_count_sum_none(ps.drop_last(), in_path, k);
    }
}

/// Outside a path a well-formed pattern hands on nothing.
pub proof fn lemma_count_outside_path<A>(p: PatternTree<A>)
    ensures
        next_count(p, false) is Some ==> next_count(p, false) == Some(0nat),
    decreases p, 0int,
{
    match p {
        PatternTree::Cons(_, ps) => lemma_count_sum_outside_path(ps),
        PatternTree::ExactList(ps) => lemma_count_sum_outside_path(ps),
        PatternTree::ListPath(ps) => lemma_count_sum_outside_path(ps),
        PatternTree::And(a, b) => {
            lemma_count_outside_path(*a);
            lemma_count_outside_path(*b);
        },
        PatternTree::Or(a, b) => {
            lemma_count_outside_path(*a);
            lemma_count_outside_path(*b);
        },
        _ => {},
    }
}

proof fn lemma_count_sum_outside_path<A>(ps: Seq<PatternTree<A>>)
    ensures
        next_count_sum(ps, false) is Some ==> next_count_sum(ps, false) == Some(0nat),
    decreases ps, 0int,
{
    if ps.len() > 0 {
        lemma_count_sum_outside_path(ps.drop_last());
        lemma_count_outside_path(ps.last());
    }
}

fn next_usage<T: Clone>(p: &Pattern<T>, in_path: bool) -> (r: Option<bool>)
    ensures
        r == positive(next_count(p@, in_path)),
    decreases p,
{
    proof {
        p.lemma_children();
    }
    match p {
        Pattern::Atom(_) => Some(false),
        Pattern::Fail => Some(false),
        Pattern::Wild => Some(false),
        Pattern::CaptureVar(_) => Some(false),
        Pattern::Cons { params, .. } => next_usage_sum(params, in_path),
        Pattern::ExactList(ps) => next_usage_sum(ps, in_path),
        Pattern::ListPath(ps) => next_usage_sum(ps, in_path),
        Pattern::PathNext => if in_path {
            Some(true)
        } else {
            None
        },
        Pattern::Path(ps) => {
            if ps.len() == 0 {
                return Some(false);
            }
            let ghost steps = Pattern::trees(ps@);
            let last = ps.len() - 1;
            match next_usage(&ps[last], true) {
                Some(false) => {},
                _ => {
                    return None;
                },
            }
            let mut i: usize = 0;
            while i < last
                invariant
                    last == ps@.len() - 1,
                    i <= last,
                    *p == Pattern::Path(*ps),
                    p@ == PatternTree::Path(steps),
                    steps == Pattern::trees(ps@),
                    next_count(steps.last(), true) == Some(0nat),
                    forall|j: int| 0 <= j < i ==> hands_on(#[trigger] steps[j]),
                decreases last - i,
            {
                match next_usage(&ps[i], true) {
                    Some(true) => {},
                    _ => {
                        assert(!hands_on(steps[i as int]));
                        return None;
                    },
                }
                i += 1;
            }
            Some(false)
        },
        Pattern::And(a, b) => match (next_usage(a, in_path), next_usage(b, in_path)) {
            (Some(x), Some(y)) => Some(x || y),
            _ => None,
        },
        Pattern::Or(a, b) => match (next_usage(a, in_path), next_usage(b, in_path)) {
            (Some(x), Some(y)) => if x == y {
                Some(x)
            } else {
                None
            },
            _ => None,
        },
        Pattern::TemplateVar(_) => Some(false),
    }
}

fn next_usage_sum<T: Clone>(ps: &Vec<Pattern<T>>, in_path: bool) -> (r: Option<bool>)
    ensures
        r == positive(next_count_sum(Pattern::trees(ps@), in_path)),
    decreases ps,
{
    let ghost all = Pattern::trees(ps@);
    let mut any: bool = false;
    let mut i: usize = 0;
    while i < ps.len()
        invariant
            i <= ps@.len(),
            all == Pattern::trees(ps@),
            positive(next_count_sum(all.subrange(0, i as int), in_path)) == Some(any),
        decreases ps@.len() - i,
    {
        let one = next_usage(&ps[i], in_path);
        proof {
            let upto = all.subrange(0, i + 1);
            assert(upto.drop_last() =~= all.subrange(0, i as int));
            assert(upto.last() == ps@[i as int]@);
        }
        match one {
            Some(x) => {
                any = any || x;
            },
            None => {
                proof {
                    lemma_count_sum_none(all, in_path, i + 1);
                }
                return None;
            },
        }
        i += 1;
    }
    assert(all.subrange(0, i as int) =~= all);
    Some(any)
}

/// Accepts a pattern that uses the path marker only inside paths, in every
/// step of a path but the last, and in both sides of an alternative or in
/// neither.
pub fn check_next_usage<T: Clone>(pattern: &Pattern<T>) -> (r: bool)
    ensures
        r == (next_count(pattern@, false) == Some(0nat)),
{
    proof {
        lemma_count_outside_path(pattern@);
    }
    next_usage(pattern, false).is_some()
}

/// Accepts a pattern in which every constructor has at least one parameter.
pub fn check_cons_have_params<T: Clone>(pattern: &Pattern<T>) -> (r: bool)
    ensures
        r == conses_have_params(pattern@),
    decreases pattern,
{
    proof {
        pattern.lemma_children();
    }
    match pattern {
        Pattern::Cons { params, .. } => params.len() > 0 && check_all_have_params(params),
        Pattern::ExactList(ps) => check_all_have_params(ps),
        Pattern::ListPath(ps) => check_all_have_params(ps),
        Pattern::Path(ps) => check_all_have_params(ps),
        Pattern::And(a, b) => check_cons_have_params(a) && check_cons_have_params(b),
        Pattern::Or(a, b) => check_cons_have_params(a) && check_cons_have_params(b),
        _ => true,
    }
}

fn check_all_have_params<T: Clone>(ps: &Vec<Pattern<T>>) -> (r: bool)
    ensures
        r == all_have_params(Pattern::trees(ps@)),
    decreases ps,
{
    let ghost all = Pattern::trees(ps@);
    let mut i: usize = 0;
    while i < ps.len()
        invariant
            i <= ps@.len(),
            all == Pattern::trees(ps@),
            forall|j: int| 0 <= j < i ==> conses_have_params(#[trigger] all[j]),
        decreases ps@.len() - i,
    {
        if !check_cons_have_params(&ps[i]) {
            assert(!conses_have_params(all[i as int]));
            return false;
        }
        i += 1;
    }
    true
}

fn template_scope<T: Clone>(p: &Pattern<T>, available: &mut Vec<String>) -> (r: Option<TypeCheckError>)
    ensures
        match scope(p@, names(old(available)@)) {
            Ok(after) => r is None && names(final(available)@) == after,
            Err(name) => r matches Some(TypeCheckError::TemplateReferencesUnknownCaptureVariable(s)) && s@ == name,
        },
    decreases p,
{
    proof {
        p.lemma_children();
    }
    match p {
        Pattern::CaptureVar(var) => {
            proof {
                lemma_names_push(available@, *var);
            }
            available.push(var.clone());
            None
        },
        Pattern::Cons { params, .. } => template_scope_seq(params, available),
        Pattern::ExactList(ps) => template_scope_seq(ps, available),
        Pattern::ListPath(ps) => template_scope_seq(ps, available),
        Pattern::Path(ps) => template_scope_seq(ps, available),
        Pattern::And(a, b) => match template_scope(a, available) {
            Some(e) => Some(e),
            None => template_scope(b, available),
        },
        Pattern::Or(a, b) => match template_scope(a, available) {
            Some(e) => Some(e),
            None => template_scope(b, available),
        },
        Pattern::TemplateVar(var) => if has_name(available, var) {
            None
        } else {
            Some(TypeCheckError::TemplateReferencesUnknownCaptureVariable(var.clone()))
        },
        _ => None,
    }
}

fn template_scope_seq<T: Clone>(ps: &Vec<Pattern<T>>, available: &mut Vec<String>) -> (r: Option<
    TypeCheckError,
>)
    ensures
        match scope_seq(Pattern::trees(ps@), names(old(available)@)) {
            Ok(after) => r is None && names(final(available)@) == after,
            Err(name) => r matches Some(TypeCheckError::TemplateReferencesUnknownCaptureVariable(s)) && s@ == name,
        },
    decreases ps,
{
    let ghost all = Pattern::trees(ps@);
    let ghost seen = names(available@);
    let mut i: usize = 0;
    while i < ps.len()
        invariant
            i <= ps@.len(),
            all == Pattern::trees(ps@),
            seen == names(old(available)@),
            scope_seq(all.subrange(0, i as int), seen) == Ok::<Set<Seq<char>>, Seq<char>>(names(available@)),
        decreases ps@.len() - i,
    {
        let ghost before = names(available@);
        let ghost upto = all.subrange(0, i + 1);
        proof {
            assert(all.len() == ps@.len());
            assert(upto.drop_last() =~= all.subrange(0, i as int));
            assert(upto.last() == ps@[i as int]@);
            assert(scope_seq(upto, seen) == scope(upto.last(), before));
        }
        match template_scope(&ps[i], available) {
            Some(e) => {
                proof {
                    lemma_scope_seq_err(all, seen, i + 1);
                }
                return Some(e);
            },
            None => {},
        }
        i += 1;
    }
    assert(all.subrange(0, i as int) =~= all);
    None
}

/// An unknown template variable among the first patterns of a run is the
/// one that the run reports.
proof fn lemma_scope_seq_err<A>(ps: Seq<PatternTree<A>>, seen: Set<Seq<char>>, k: int)
    requires
        0 <= k <= ps.len(),
        scope_seq(ps.subrange(0, k), seen) is Err,
    ensures
        scope_seq(ps, seen) == scope_seq(ps.subrange(0, k), seen),
    decreases ps.len(),
{
    if k == ps.len() {
        assert(ps.subrange(0, k) =~= ps);
    } else {
        assert(ps.drop_last().subrange(0, k) =~= ps.subrange(0, k));
        lemma_scope_seq_err(ps.drop_last(), seen, k);
    }
}

/// Accepts a pattern in which every template variable names a capture that
/// stands before it, in the order left to right and depth first. Otherwise
/// reports the first template variable that does not.
pub fn check_template_usage<T: Clone>(pattern: &Pattern<T>) -> (r: Option<TypeCheckError>)
    ensures
        match scope(pattern@, Set::empty()) {
            Ok(_) => r is None,
            Err(name) => r matches Some(TypeCheckError::TemplateReferencesUnknownCaptureVariable(s)) && s@ == name,
        },
{
    let mut available: Vec<String> = Vec::new();
    assert(names(available@) =~= Set::empty());
    template_scope(pattern, &mut available)
}

/// The name sets of a run of name lists, in order.
pub open spec fn name_sets(parts: Seq<Vec<String>>) -> Seq<Set<Seq<char>>> {
    Seq::new(parts.len(), |i: int| names(parts[i]@))
}

/// Merges name lists that have to be disjoint, into rising order.
fn combine(parts: &Vec<Vec<String>>) -> (r: Result<PatternSig, TypeCheckError>)
    requires
        forall|i: int| 0 <= i < parts@.len() ==> distinct((#[trigger] parts@[i])@),
    ensures
        match combined(Ok(name_sets(parts@))) {
            Ok(sig) => r matches Ok(v) && names(v@) == sig && ordered(v@),
            Err(e) => r matches Err(x) && x@ == e,
        },
{
    let ghost sets = name_sets(parts@);
    let mut acc: Vec<String> = Vec::new();
    let mut i: usize = 0;
    assert(names(acc@) =~= union_all(sets.subrange(0, 0)));
    while i < parts.len()
        invariant
            i <= parts@.len(),
            sets == name_sets(parts@),
            forall|k: int| 0 <= k < parts@.len() ==> distinct((#[trigger] parts@[k])@),
            ordered(acc@),
            names(acc@) == union_all(sets.subrange(0, i as int)),
            pairwise_disjoint(sets.subrange(0, i as int)),
        decreases parts@.len() - i,
    {
        let part = &parts[i];
        let ghost earlier = union_all(sets.subrange(0, i as int));
        let mut j: usize = 0;
        assert(earlier.union(names(part@.subrange(0, 0))) =~= earlier);
        while j < part.len()
            invariant
                i < parts@.len(),
                part == &parts@[i as int],
                j <= part@.len(),
                sets == name_sets(parts@),
                distinct(part@),
                ordered(acc@),
                earlier == union_all(sets.subrange(0, i as int)),
                names(acc@) == earlier.union(names(part@.subrange(0, j as int))),
                forall|k: int| 0 <= k < j ==> !earlier.contains((#[trigger] part@[k])@),
            decreases part@.len() - j,
        {
            let name = &part[j];
            let ghost so_far = part@.subrange(0, j as int);
            if !insert_name(&mut acc, name) {
                proof {
                    if names(so_far).contains(name@) {
                        let k = choose|k: int| 0 <= k < j && (#[trigger] so_far[k])@ == name@;
                        assert(part@[k]@ == part@[j as int]@);
                        assert(false);
                    }
                    assert(earlier.contains(name@));
                    let before = sets.subrange(0, i as int);
                    let k = choose|k: int| 0 <= k < before.len() && (#[trigger] before[k]).contains(name@);
                    assert(sets[k].contains(name@));
                    assert(sets[i as int].contains(name@));
                    assert(!sets[k].disjoint(sets[i as int]));
                }
                return Err(TypeCheckError::DuplicateSlot);
            }
            proof {
                lemma_names_push(so_far, *name);
                assert(so_far.push(*name) =~= part@.subrange(0, j + 1));
                assert(names(acc@) =~= earlier.union(names(part@.subrange(0, j + 1))));
            }
            j += 1;
        }
        proof {
            assert(part@.subrange(0, j as int) =~= part@);
            let now = sets.subrange(0, i + 1);
            let before = sets.subrange(0, i as int);
            assert forall|n: Seq<char>| union_all(now).contains(n) <==> earlier.union(names(part@)).contains(
                n,
            ) by {
                if union_all(now).contains(n) {
                    let k = choose|k: int| 0 <= k < now.len() && (#[trigger] now[k]).contains(n);
                    if k < i {
                        assert(before[k].contains(n));
                    }
                }
                if earlier.contains(n) {
                    let k = choose|k: int| 0 <= k < before.len() && (#[trigger] before[k]).contains(n);
                    assert(now[k].contains(n));
                }
                if names(part@).contains(n) {
                    assert(now[i as int].contains(n));
                }
            }
            assert(names(acc@) =~= union_all(now));
            assert forall|a: int, b: int| 0 <= a < b < now.len() implies (#[trigger] now[a]).disjoint(
                #[trigger] now[b],
            ) by {
                if b < i {
                    assert(before[a].disjoint(before[b]));
                } else {
                    assert forall|n: Seq<char>| now[a].contains(n) implies !now[b].contains(n) by {
                        if now[b].contains(n) {
                            assert(before[a].contains(n));
                            assert(earlier.contains(n));
                            let k = choose|k: int| 0 <= k < part@.len() && (#[trigger] part@[k])@ == n;
                            assert(!earlier.contains(part@[k]@));
                        }
                    }
                }
            }
        }
        i += 1;
    }
    assert(sets.subrange(0, i as int) =~= sets);
    Ok(acc)
}

fn child_sigs<T: Clone>(ps: &Vec<Pattern<T>>) -> (r: Result<Vec<Vec<String>>, TypeCheckError>)
    ensures
        match signatures(Pattern::trees(ps@)) {
            Ok(ss) => r matches Ok(parts) && name_sets(parts@) == ss && forall|i: int|
                0 <= i < parts@.len() ==> distinct((#[trigger] parts@[i])@),
            Err(e) => r matches Err(x) && x@ == e,
        },
    decreases ps, 0int,
{
    let ghost all = Pattern::trees(ps@);
    let mut parts: Vec<Vec<String>> = Vec::new();
    let mut i: usize = 0;
    assert(name_sets(parts@) =~= Seq::empty());
    while i < ps.len()
        invariant
            i <= ps@.len(),
            all == Pattern::trees(ps@),
            signatures(all.subrange(0, i as int)) == Ok::<Seq<Set<Seq<char>>>, CheckError>(name_sets(parts@)),
            forall|k: int| 0 <= k < parts@.len() ==> distinct((#[trigger] parts@[k])@),
        decreases ps@.len() - i,
    {
        let ghost upto = all.subrange(0, i + 1);
        proof {
            assert(upto.drop_last() =~= all.subrange(0, i as int));
            assert(upto.last() == ps@[i as int]@);
        }
        match pattern_sig(&ps[i]) {
            Ok(sig) => {
                proof {
                    lemma_ordered_is_distinct(sig@);
                    assert(name_sets(parts@.push(sig)) =~= name_sets(parts@).push(names(sig@)));
                }
                parts.push(sig);
            },
            Err(e) => {
                proof {
                    lemma_signatures_err(all, i + 1);
                }
                return Err(e);
            },
        }
        i += 1;
    }
    assert(all.subrange(0, i as int) =~= all);
    Ok(parts)
}

/// A failure among the first patterns of a run is the one that the run
/// reports.
proof fn lemma_signatures_err<A>(ps: Seq<PatternTree<A>>, k: int)
    requires
        0 <= k <= ps.len(),
        signatures(ps.subrange(0, k)) is Err,
    ensures
        signatures(ps) == signatures(ps.subrange(0, k)),
    decreases ps.len(),
{
    if k == ps.len() {
        assert(ps.subrange(0, k) =~= ps);
    } else {
        assert(ps.drop_last().subrange(0, k) =~= ps.subrange(0, k));
        lemma_signatures_err(ps.drop_last(), k);
    }
}

/// Computes the capture names that every match of the pattern binds.
///
/// Parts that match together must capture different names, else
/// `DuplicateSlot`; the two sides of an alternative must capture the same
/// names, else `OrPatternHasUnequalSig`. Where several parts fail, the first
/// of them in the order of the pattern is reported.
pub fn pattern_sig<T: Clone>(pattern: &Pattern<T>) -> (r: Result<PatternSig, TypeCheckError>)
    ensures
        match signature(pattern@) {
            Ok(sig) => r matches Ok(v) && names(v@) == sig && ordered(v@),
            Err(e) => r matches Err(x) && x@ == e,
        },
    decreases pattern, 0int,
{
    proof {
        pattern.lemma_children();
    }
    match pattern {
        Pattern::CaptureVar(v) => {
            let mut sig: Vec<String> = Vec::new();
            proof {
                lemma_names_push(sig@, *v);
                assert(names(sig@) =~= Set::empty());
                assert(Set::<Seq<char>>::empty().insert(v@) =~= set![v@]);
            }
            sig.push(v.clone());
            Ok(sig)
        },
        Pattern::Cons { params, .. } => star(params),
        Pattern::ExactList(ps) => star(ps),
        Pattern::ListPath(ps) => star(ps),
        Pattern::Path(ps) => star(ps),
        Pattern::And(a, b) => {
            let a_sig = match pattern_sig(a) {
                Ok(sig) => sig,
                Err(e) => {
                    return Err(e);
                },
            };
            let b_sig = match pattern_sig(b) {
                Ok(sig) => sig,
                Err(e) => {
                    return Err(e);
                },
            };
            let mut parts: Vec<Vec<String>> = Vec::new();
            proof {
                lemma_ordered_is_distinct(a_sig@);
                lemma_ordered_is_distinct(b_sig@);
                assert(name_sets(parts@.push(a_sig).push(b_sig)) =~= seq![names(a_sig@), names(b_sig@)]);
            }
            parts.push(a_sig);
            parts.push(b_sig);
            combine(&parts)
        },
        Pattern::Or(a, b) => {
            let a_sig = match pattern_sig(a) {
                Ok(sig) => sig,
                Err(e) => {
                    return Err(e);
                },
            };
            let b_sig = match pattern_sig(b) {
                Ok(sig) => sig,
                Err(e) => {
                    return Err(e);
                },
            };
            if same_names(&a_sig, &b_sig) {
                Ok(a_sig)
            } else {
                Err(TypeCheckError::OrPatternHasUnequalSig)
            }
        },
        _ => {
            let sig: Vec<String> = Vec::new();
            assert(names(sig@) =~= Set::empty());
            Ok(sig)
        },
    }
}

fn star<T: Clone>(ps: &Vec<Pattern<T>>) -> (r: Result<PatternSig, TypeCheckError>)
    ensures
        match combined(signatures(Pattern::trees(ps@))) {
            Ok(sig) => r matches Ok(v) && names(v@) == sig && ordered(v@),
            Err(e) => r matches Err(x) && x@ == e,
        },
    decreases ps, 1int,
{
    match child_sigs(ps) {
        Ok(parts) => combine(&parts),
        Err(e) => Err(e),
    }
}

/// The model of a `TypeChecked`: a pattern and its signature.
pub ghost struct Checked<A> {
    pub pattern: PatternTree<A>,
    pub signature: Set<Seq<char>>,
}

/// A pattern that passed the check, with its signature. There is no other
/// way to make one than `check_pattern`.
#[derive(Debug)]
pub struct TypeChecked<T: Clone>(Pattern<T>, PatternSig);

impl<T: Clone> View for TypeChecked<T> {
    type V = Checked<T>;

    closed spec fn view(&self) -> Checked<T> {
        Checked { pattern: self.0@, signature: names(self.1@) }
    }
}

impl<T: Clone> TypeChecked<T> {
    #[verifier::type_invariant]
    spec fn well_formed(self) -> bool {
        &&& verdict(self.0@) == Ok::<Set<Seq<char>>, CheckError>(names(self.1@))
        &&& ordered(self.1@)
    }

    /// The pattern, which the check accepted with this signature.
    pub fn pattern<'a>(&'a self) -> (p: &'a Pattern<T>)
        ensures
            p@ == self@.pattern,
            verdict(p@) == Ok::<Set<Seq<char>>, CheckError>(self@.signature),
    {
        proof {
            use_type_invariant(self);
        }
        &self.0
    }

    /// The capture names that every match binds, in rising order.
    pub fn signature<'a>(&'a self) -> (sig: &'a PatternSig)
        ensures
            names(sig@) == self@.signature,
            ordered(sig@),
            verdict(self@.pattern) == Ok::<Set<Seq<char>>, CheckError>(self@.signature),
    {
        proof {
            use_type_invariant(self);
        }
        &self.1
    }
}

/// A checked pattern whose signature is the one that was asked for.
#[derive(Debug)]
pub struct TypeMatches<T: Clone>(TypeChecked<T>);

impl<T: Clone> View for TypeMatches<T> {
    type V = Checked<T>;

    closed spec fn view(&self) -> Checked<T> {
        self.0@
    }
}

impl<T: Clone> TypeMatches<T> {
    /// The checked pattern.
    pub fn checked<'a>(&'a self) -> (c: &'a TypeChecked<T>)
        ensures
            c@ == self@,
    {
        &self.0
    }
}

/// Checks a pattern before any value is looked at.
///
/// Four passes run in a fixed order and the first failure is returned: use of
/// the path marker (`IncorrectNextUsage`), arity of constructors
/// (`ConsNeedsAtLeastOneParam`), scope of template variables
/// (`TemplateReferencesUnknownCaptureVariable`), signature (`DuplicateSlot`,
/// `OrPatternHasUnequalSig`).
pub fn check_pattern<T: Clone>(pattern: Pattern<T>) -> (r: Result<TypeChecked<T>, TypeCheckError>)
    ensures
        match verdict(pattern@) {
            Ok(sig) => r matches Ok(c) && c@ == (Checked { pattern: pattern@, signature: sig }),
            Err(e) => r matches Err(x) && x@ == e,
        },
{
    if !check_next_usage(&pattern) {
        return Err(TypeCheckError::IncorrectNextUsage);
    }
    if !check_cons_have_params(&pattern) {
        return Err(TypeCheckError::ConsNeedsAtLeastOneParam);
    }
    if let Some(error) = check_template_usage(&pattern) {
        return Err(error);
    }
    match pattern_sig(&pattern) {
        Ok(sig) => Ok(TypeChecked(pattern, sig)),
        Err(e) => Err(e),
    }
}

/// Holds a checked pattern to a signature that is required of it.
///
/// Succeeds where the pattern binds exactly the names of `sig`, in whatever
/// order `sig` lists them. Otherwise `TypeDoesNotMatch` carries the
/// pattern's own names and `sig`.
pub fn pattern_sig_matches<T: Clone>(pattern: TypeChecked<T>, sig: PatternSig) -> (r: Result<
    TypeMatches<T>,
    TypeCheckError,
>)
    ensures
        pattern@.signature == names(sig@) ==> (r matches Ok(m) && m@ == pattern@),
        pattern@.signature != names(sig@) ==> (r matches Err(
            TypeCheckError::TypeDoesNotMatch { found, expected },
        ) && names(found@) == pattern@.signature && ordered(found@) && expected@ == sig@),
{
    if same_names(pattern.signature(), &sig) {
        Ok(TypeMatches(pattern))
    } else {
        let found = copy_names(pattern.signature());
        Err(TypeCheckError::TypeDoesNotMatch { found, expected: sig })
    }
}

} // verus!
