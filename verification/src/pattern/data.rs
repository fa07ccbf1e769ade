//! Patterns and the values they match, with their mathematical models.

use crate::data::{Data, SymStr};
use vstd::prelude::*;
use vstd::std_specs::cmp::PartialEqSpec;

verus! {

/// The mathematical model of a value: what a `Matchable` is to the matcher.
pub ghost enum ValueTree<A> {
    /// An indivisible leaf.
    Atom(A),
    /// An opaque leaf that equals nothing, not even itself.
    Object,
    /// A named constructor with its children in order.
    Cons(Seq<char>, Seq<ValueTree<A>>),
    /// A sequence.
    List(Seq<ValueTree<A>>),
}

/// The mathematical model of a `Pattern`.
pub ghost enum PatternTree<A> {
    Atom(A),
    Fail,
    Wild,
    CaptureVar(Seq<char>),
    Cons(Seq<char>, Seq<PatternTree<A>>),
    ExactList(Seq<PatternTree<A>>),
    ListPath(Seq<PatternTree<A>>),
    PathNext,
    Path(Seq<PatternTree<A>>),
    And(Box<PatternTree<A>>, Box<PatternTree<A>>),
    Or(Box<PatternTree<A>>, Box<PatternTree<A>>),
    TemplateVar(Seq<char>),
}

/// The pattern that a value itself stands for: it has the value's shape, no
/// capture and no alternative. An opaque leaf has none, so it gives `Fail`.
pub open spec fn literal<A>(t: ValueTree<A>) -> PatternTree<A>
    decreases t,
{
    match t {
        ValueTree::Atom(a) => PatternTree::Atom(a),
        ValueTree::Object => PatternTree::Fail,
        ValueTree::Cons(name, cs) => PatternTree::Cons(
            name,
            Seq::new(cs.len(), |i: int| if 0 <= i < cs.len() { literal(cs[i]) } else { PatternTree::Fail }),
        ),
        ValueTree::List(cs) => PatternTree::ExactList(
            Seq::new(cs.len(), |i: int| if 0 <= i < cs.len() { literal(cs[i]) } else { PatternTree::Fail }),
        ),
    }
}

/// The literal pattern of a value has the value's shape.
pub proof fn lemma_literal<A>(t: ValueTree<A>)
    ensures
        t matches ValueTree::Atom(a) ==> literal(t) == PatternTree::Atom(a),
        t is Object ==> literal(t) == PatternTree::<A>::Fail,
        t matches ValueTree::Cons(name, cs) ==> (literal(t) matches PatternTree::Cons(n, ps) && n == name
            && ps.len() == cs.len() && forall|i: int| 0 <= i < cs.len() ==> #[trigger] ps[i] == literal(cs[i])),
        t matches ValueTree::List(cs) ==> (literal(t) matches PatternTree::ExactList(ps) && ps.len() == cs.len()
            && forall|i: int| 0 <= i < cs.len() ==> #[trigger] ps[i] == literal(cs[i])),
{
}

/// What one node of a value is, with borrowed access to its parts.
pub enum MatchKind<'a, TMatchable: Matchable> {
    Atom(&'a TMatchable::Atom),
    Object(&'a TMatchable::Object),
    Cons(&'a str, &'a [TMatchable]),
    List(&'a [TMatchable]),
}

/// A value representation that the matcher can walk.
pub trait Matchable: Sized {
    type Atom: Clone + PartialEq;

    type Object;

    /// The tree that this value is.
    spec fn tree(&self) -> ValueTree<Self::Atom>;

    /// `==` on atoms computes what contracts call `eq_spec`.
    proof fn atoms_are_comparable()
        ensures
            Self::Atom::obeys_eq_spec(),
    ;

    /// Classifies the root node and hands out its parts.
    fn kind(&self) -> (k: MatchKind<Self>)
        ensures
            k matches MatchKind::Atom(a) ==> self.tree() == ValueTree::Atom(*a),
            k is Object ==> self.tree() == ValueTree::<Self::Atom>::Object,
            k matches MatchKind::Cons(name, ds) ==> (self.tree() matches ValueTree::Cons(n, cs) && n == name@
                && cs.len() == ds@.len() && forall|i: int|
                0 <= i < ds@.len() ==> cs[i] == #[trigger] ds@[i].tree()),
            k matches MatchKind::List(ds) ==> (self.tree() matches ValueTree::List(cs) && cs.len() == ds@.len()
                && forall|i: int| 0 <= i < ds@.len() ==> cs[i] == #[trigger] ds@[i].tree()),
    ;

    /// The pattern that matches exactly the values equal to this one.
    fn to_pattern(&self) -> (p: Pattern<Self::Atom>)
        ensures
            p@ == literal(self.tree()),
    ;
}

/// A structural description of the values it matches.
#[derive(Debug)]
pub enum Pattern<TAtom: Clone> {
    Atom(TAtom),
    Fail,
    Wild,
    CaptureVar(String),
    Cons { name: String, params: Vec<Pattern<TAtom>> },
    ExactList(Vec<Pattern<TAtom>>),
    ListPath(Vec<Pattern<TAtom>>),
    PathNext,
    Path(Vec<Pattern<TAtom>>),
    And(Box<Pattern<TAtom>>, Box<Pattern<TAtom>>),
    Or(Box<Pattern<TAtom>>, Box<Pattern<TAtom>>),
    TemplateVar(String),
}

impl<T: Clone> Pattern<T> {
    /// The model of this pattern.
    pub open spec fn tree(self) -> PatternTree<T>
        decreases self,
    {
        match self {
            Pattern::Atom(a) => PatternTree::Atom(a),
            Pattern::Fail => PatternTree::Fail,
            Pattern::Wild => PatternTree::Wild,
            Pattern::CaptureVar(name) => PatternTree::CaptureVar(name@),
            Pattern::Cons { name, params } => PatternTree::Cons(
                name@,
                Seq::new(
                    params@.len(),
                    |i: int| if 0 <= i < params@.len() { params@[i].tree() } else { PatternTree::Fail },
                ),
            ),
            Pattern::ExactList(ps) => PatternTree::ExactList(
                Seq::new(ps@.len(), |i: int| if 0 <= i < ps@.len() { ps@[i].tree() } else { PatternTree::Fail }),
            ),
            Pattern::ListPath(ps) => PatternTree::ListPath(
                Seq::new(ps@.len(), |i: int| if 0 <= i < ps@.len() { ps@[i].tree() } else { PatternTree::Fail }),
            ),
            Pattern::PathNext => PatternTree::PathNext,
            Pattern::Path(ps) => PatternTree::Path(
                Seq::new(ps@.len(), |i: int| if 0 <= i < ps@.len() { ps@[i].tree() } else { PatternTree::Fail }),
            ),
            Pattern::And(a, b) => PatternTree::And(Box::new((*a).tree()), Box::new((*b).tree())),
            Pattern::Or(a, b) => PatternTree::Or(Box::new((*a).tree()), Box::new((*b).tree())),
            Pattern::TemplateVar(name) => PatternTree::TemplateVar(name@),
        }
    }

    /// The models of a run of patterns, in order.
    pub open spec fn trees(ps: Seq<Pattern<T>>) -> Seq<PatternTree<T>> {
        Seq::new(ps.len(), |i: int| ps[i].tree())
    }

    /// The children of a compound pattern are modelled one for one.
    pub proof fn lemma_children(self)
        ensures
            self matches Pattern::Cons { name, params } ==> self@ == PatternTree::Cons(name@, Self::trees(params@)),
            self matches Pattern::ExactList(ps) ==> self@ == PatternTree::ExactList(Self::trees(ps@)),
            self matches Pattern::ListPath(ps) ==> self@ == PatternTree::ListPath(Self::trees(ps@)),
            self matches Pattern::Path(ps) ==> self@ == PatternTree::Path(Self::trees(ps@)),
    {
        match self {
            Pattern::Cons { name, params } => {
                assert(self@->Cons_1 =~= Self::trees(params@));
            },
            Pattern::ExactList(ps) => {
                assert(self@->ExactList_0 =~= Self::trees(ps@));
            },
            Pattern::ListPath(ps) => {
                assert(self@->ListPath_0 =~= Self::trees(ps@));
            },
            Pattern::Path(ps) => {
                assert(self@->Path_0 =~= Self::trees(ps@));
            },
            _ => {},
        }
    }
}

impl<T: Clone> View for Pattern<T> {
    type V = PatternTree<T>;

    open spec fn view(&self) -> PatternTree<T> {
        self.tree()
    }
}

impl Data {
    /// The tree that this value is to the matcher: its leaves are the leaves
    /// themselves, which the matcher compares with `==`. (The view of a
    /// value, `@`, is the same tree with each leaf spelled out in
    /// characters.)
    pub open spec fn as_tree(self) -> ValueTree<SymStr>
        decreases self,
    {
        match self {
            Data::SymStr(s) => ValueTree::Atom(s),
            Data::Cons { name, params } => ValueTree::Cons(
                name@,
                Seq::new(
                    params@.len(),
                    |i: int| if 0 <= i < params@.len() { params@[i].as_tree() } else { ValueTree::Object },
                ),
            ),
            Data::List(ds) => ValueTree::List(
                Seq::new(ds@.len(), |i: int| if 0 <= i < ds@.len() { ds@[i].as_tree() } else { ValueTree::Object }),
            ),
        }
    }

    /// The pattern that matches exactly the values equal to this one.
    pub fn literal_pattern(&self) -> (p: Pattern<SymStr>)
        ensures
            p@ == literal(self.as_tree()),
        decreases self,
    {
        match self {
            Data::SymStr(s) => Pattern::Atom(s.clone()),
            Data::Cons { name, params } => {
                let ps = Self::literal_patterns(params);
                let p = Pattern::Cons { name: name.clone(), params: ps };
                proof {
                    assert(p@->Cons_1 =~= literal(self.as_tree())->Cons_1);
                }
                p
            },
            Data::List(ds) => {
                let ps = Self::literal_patterns(ds);
                let p = Pattern::ExactList(ps);
                proof {
                    assert(p@->ExactList_0 =~= literal(self.as_tree())->ExactList_0);
                }
                p
            },
        }
    }

    fn literal_patterns(ds: &Vec<Data>) -> (ps: Vec<Pattern<SymStr>>)
        ensures
            ps@.len() == ds@.len(),
            forall|i: int| 0 <= i < ds@.len() ==> (#[trigger] ps@[i]).tree() == literal(ds@[i].as_tree()),
        decreases ds,
    {
        let mut ps: Vec<Pattern<SymStr>> = Vec::new();
        let mut i: usize = 0;
        while i < ds.len()
            invariant
                i <= ds@.len(),
                ps@.len() == i,
                forall|j: int| 0 <= j < i ==> (#[trigger] ps@[j]).tree() == literal(ds@[j].as_tree()),
            decreases ds@.len() - i,
        {
            let p = ds[i].literal_pattern();
            ps.push(p);
            i += 1;
        }
        ps
    }
}

impl Matchable for Data {
    type Atom = SymStr;

    type Object = ();

    open spec fn tree(&self) -> ValueTree<SymStr> {
        self.as_tree()
    }

    proof fn atoms_are_comparable() {
    }

    fn kind(&self) -> (k: MatchKind<Self>) {
        match self {
            Data::SymStr(s) => MatchKind::Atom(s),
            Data::Cons { name, params } => MatchKind::Cons(name.as_str(), params.as_slice()),
            Data::List(ds) => MatchKind::List(ds.as_slice()),
        }
    }

    fn to_pattern(&self) -> (p: Pattern<SymStr>) {
        self.literal_pattern()
    }
}

/// `b` has the shape and the names of `a`, and each of its atoms is a clone
/// of the atom at the same place in `a`.
pub open spec fn mirrors<T: Clone>(a: PatternTree<T>, b: PatternTree<T>) -> bool
    decreases a,
{
    match (a, b) {
        (PatternTree::Atom(x), PatternTree::Atom(y)) => cloned(x, y),
        (PatternTree::Fail, PatternTree::Fail) => true,
        (PatternTree::Wild, PatternTree::Wild) => true,
        (PatternTree::CaptureVar(n), PatternTree::CaptureVar(m)) => n == m,
        (PatternTree::Cons(n, ps), PatternTree::Cons(m, qs)) => n == m && ps.len() == qs.len() && forall|i: int|
            0 <= i < ps.len() ==> mirrors(ps[i], #[trigger] qs[i]),
        (PatternTree::ExactList(ps), PatternTree::ExactList(qs)) => ps.len() == qs.len() && forall|i: int|
            0 <= i < ps.len() ==> mirrors(ps[i], #[trigger] qs[i]),
        (PatternTree::ListPath(ps), PatternTree::ListPath(qs)) => ps.len() == qs.len() && forall|i: int|
            0 <= i < ps.len() ==> mirrors(ps[i], #[trigger] qs[i]),
        (PatternTree::PathNext, PatternTree::PathNext) => true,
        (PatternTree::Path(ps), PatternTree::Path(qs)) => ps.len() == qs.len() && forall|i: int|
            0 <= i < ps.len() ==> mirrors(ps[i], #[trigger] qs[i]),
        (PatternTree::And(p, q), PatternTree::And(r, s)) => mirrors(*p, *r) && mirrors(*q, *s),
        (PatternTree::Or(p, q), PatternTree::Or(r, s)) => mirrors(*p, *r) && mirrors(*q, *s),
        (PatternTree::TemplateVar(n), PatternTree::TemplateVar(m)) => n == m,
        _ => false,
    }
}

impl<T: Clone> Clone for Pattern<T> {
    fn clone(&self) -> (r: Self)
        ensures
            mirrors(self@, r@),
        decreases self,
    {
        match self {
            Pattern::Atom(a) => Pattern::Atom(a.clone()),
            Pattern::Fail => Pattern::Fail,
            Pattern::Wild => Pattern::Wild,
            Pattern::CaptureVar(name) => Pattern::CaptureVar(name.clone()),
            Pattern::Cons { name, params } => {
                let r = Pattern::Cons { name: name.clone(), params: clone_all(params) };
                proof {
                    self.lemma_children();
                    r.lemma_children();
                }
                r
            },
            Pattern::ExactList(ps) => {
                let r = Pattern::ExactList(clone_all(ps));
                proof {
                    self.lemma_children();
                    r.lemma_children();
                }
                r
            },
            Pattern::ListPath(ps) => {
                let r = Pattern::ListPath(clone_all(ps));
                proof {
                    self.lemma_children();
                    r.lemma_children();
                }
                r
            },
            Pattern::PathNext => Pattern::PathNext,
            Pattern::Path(ps) => {
                let r = Pattern::Path(clone_all(ps));
                proof {
                    self.lemma_children();
                    r.lemma_children();
                }
                r
            },
            Pattern::And(a, b) => {
                let x = (&**a).clone();
                let y = (&**b).clone();
                Pattern::And(Box::new(x), Box::new(y))
            },
            Pattern::Or(a, b) => {
                let x = (&**a).clone();
                let y = (&**b).clone();
                Pattern::Or(Box::new(x), Box::new(y))
            },
            Pattern::TemplateVar(name) => Pattern::TemplateVar(name.clone()),
        }
    }
}

fn clone_all<T: Clone>(ps: &Vec<Pattern<T>>) -> (r: Vec<Pattern<T>>)
    ensures
        r@.len() == ps@.len(),
        forall|i: int| 0 <= i < ps@.len() ==> mirrors(Pattern::trees(ps@)[i], #[trigger] Pattern::trees(r@)[i]),
    decreases ps,
{
    let mut out: Vec<Pattern<T>> = Vec::new();
    let mut i: usize = 0;
    while i < ps.len()
        invariant
            i <= ps@.len(),
            out@.len() == i,
            forall|j: int| 0 <= j < i ==> mirrors(ps@[j].tree(), #[trigger] out@[j].tree()),
        decreases ps@.len() - i,
    {
        out.push(ps[i].clone());
        i += 1;
    }
    assert forall|i: int| 0 <= i < ps@.len() implies mirrors(
        Pattern::trees(ps@)[i],
        #[trigger] Pattern::trees(out@)[i],
    ) by {
        assert(mirrors(ps@[i].tree(), out@[i].tree()));
    }
    out
}

} // verus!
