//! The values, and the text that shows them.

use crate::pattern::ValueTree;
use vstd::prelude::*;
use vstd::string::StringExecFns;
use vstd::std_specs::cmp::PartialEqSpecImpl;
use vstd::std_specs::convert::FromSpecImpl;
use vstd::std_specs::convert::IntoSpec;

verus! {

/// An indivisible leaf value: a bare symbol or a quoted string.
///
/// A symbol and a string are never equal, whatever their text.
#[derive(Debug)]
pub enum SymStr {
    Symbol(String),
    String(String),
}

/// The model of a leaf: its kind and its characters.
pub ghost enum Leaf {
    Symbol(Seq<char>),
    Text(Seq<char>),
}

impl View for SymStr {
    type V = Leaf;

    open spec fn view(&self) -> Leaf {
        match self {
            SymStr::Symbol(s) => Leaf::Symbol(s@),
            SymStr::String(s) => Leaf::Text(s@),
        }
    }
}

impl Clone for SymStr {
    fn clone(&self) -> (r: Self)
        ensures
            r == *self,
    {
        match self {
            SymStr::Symbol(s) => SymStr::Symbol(s.clone()),
            SymStr::String(s) => SymStr::String(s.clone()),
        }
    }
}

impl PartialEq for SymStr {
    fn eq(&self, other: &SymStr) -> (r: bool) {
        match (self, other) {
            (SymStr::Symbol(a), SymStr::Symbol(b)) => *a == *b,
            (SymStr::String(a), SymStr::String(b)) => *a == *b,
            _ => false,
        }
    }
}

impl PartialEqSpecImpl for SymStr {
    open spec fn obeys_eq_spec() -> bool {
        true
    }

    open spec fn eq_spec(&self, other: &SymStr) -> bool {
        match (self, other) {
            (SymStr::Symbol(a), SymStr::Symbol(b)) => a@ == b@,
            (SymStr::String(a), SymStr::String(b)) => a@ == b@,
            _ => false,
        }
    }
}

/// A value to match against: a leaf, a named constructor with ordered
/// children, or a sequence.
#[derive(Debug, PartialEq)]
pub enum Data {
    SymStr(SymStr),
    Cons { name: String, params: Vec<Data> },
    List(Vec<Data>),
}

impl View for Data {
    type V = ValueTree<Leaf>;

    /// The value as a tree of characters.
    open spec fn view(&self) -> ValueTree<Leaf> {
        self.text_tree()
    }
}

impl Data {
    /// The value as a tree of characters: what it is to the notation, which
    /// writes and reads it.
    pub open spec fn text_tree(self) -> ValueTree<Leaf>
        decreases self,
    {
        match self {
            Data::SymStr(s) => ValueTree::Atom(s@),
            Data::Cons { name, params } => ValueTree::Cons(name@, Self::text_trees(params@)),
            Data::List(ds) => ValueTree::List(Self::text_trees(ds@)),
        }
    }

    /// The values as trees of characters, in order.
    pub open spec fn text_trees(ds: Seq<Data>) -> Seq<ValueTree<Leaf>>
        decreases ds,
    {
        if ds.len() == 0 {
            Seq::empty()
        } else {
            Self::text_trees(ds.drop_last()).push(ds.last().text_tree())
        }
    }
}

/// The text that shows a value: `:name` for a symbol, the characters
/// between quotes for a string, `name(a, b)` for a constructor and `[a, b]`
/// for a list. The characters of a string are shown as they are.
pub open spec fn shown(t: ValueTree<Leaf>) -> Seq<char>
    decreases t, 0int,
{
    match t {
        ValueTree::Atom(Leaf::Symbol(name)) => seq![':'] + name,
        ValueTree::Atom(Leaf::Text(text)) => seq!['"'] + text + seq!['"'],
        ValueTree::Object => Seq::empty(),
        ValueTree::Cons(name, cs) => name + seq!['('] + shown_all(cs) + seq![')'],
        ValueTree::List(cs) => seq!['['] + shown_all(cs) + seq![']'],
    }
}

/// The texts that show `ts`, with a comma and a space between them.
pub open spec fn shown_all(ts: Seq<ValueTree<Leaf>>) -> Seq<char>
    decreases ts, 1int,
{
    if ts.len() == 0 {
        Seq::empty()
    } else if ts.len() == 1 {
        shown(ts[0])
    } else {
        shown_all(ts.drop_last()) + seq![',', ' '] + shown(ts.last())
    }
}

impl Data {
    /// The text that shows this value.
    pub fn to_text(&self) -> (text: String)
        ensures
            text@ == shown(self@),
    {
        let mut text = String::new();
        self.write(&mut text);
        assert(Seq::<char>::empty() + shown(self@) =~= shown(self@));
        text
    }

    /// Adds the text that shows this value to `out`.
    fn write(&self, out: &mut String)
        ensures
            final(out)@ == old(out)@ + shown(self@),
        decreases self, 0int,
    {
        let ghost before = out@;
        match self {
            Data::SymStr(SymStr::Symbol(name)) => {
                out.push(':');
                out.append(name.as_str());
                assert(out@ =~= before + (seq![':'] + name@));
            },
            Data::SymStr(SymStr::String(body)) => {
                out.push('"');
                out.append(body.as_str());
                out.push('"');
                assert(out@ =~= before + (seq!['"'] + body@ + seq!['"']));
            },
            Data::Cons { name, params } => {
                out.append(name.as_str());
                out.push('(');
                Self::write_all(params, out);
                out.push(')');
                assert(out@ =~= before + (name@ + seq!['('] + shown_all(Self::text_trees(params@)) + seq![')']));
            },
            Data::List(ds) => {
                out.push('[');
                Self::write_all(ds, out);
                out.push(']');
                assert(out@ =~= before + (seq!['['] + shown_all(Self::text_trees(ds@)) + seq![']']));
            },
        }
    }

    /// Adds the texts that show `ds` to `out`, with a comma and a space
    /// between them.
    fn write_all(ds: &Vec<Data>, out: &mut String)
        ensures
            final(out)@ == old(out)@ + shown_all(Self::text_trees(ds@)),
        decreases ds, 1int,
    {
        let ghost before = out@;
        let mut i: usize = 0;
        assert(before + shown_all(Self::text_trees(ds@.subrange(0, 0))) =~= before);
        while i < ds.len()
            invariant
                i <= ds@.len(),
                out@ == before + shown_all(Self::text_trees(ds@.subrange(0, i as int))),
            decreases ds@.len() - i,
        {
            let ghost so_far = Self::text_trees(ds@.subrange(0, i as int));
            let ghost now = Self::text_trees(ds@.subrange(0, i + 1));
            proof {
                assert(ds@.subrange(0, i + 1).drop_last() =~= ds@.subrange(0, i as int));
                assert(now == so_far.push(ds@[i as int]@));
                assert(now.drop_last() =~= so_far);
                Self::lemma_text_trees(ds@.subrange(0, i as int));
            }
            if i > 0 {
                out.push(',');
                out.push(' ');
            }
            ds[i].write(out);
            proof {
                if i > 0 {
                    assert(out@ =~= before + (shown_all(so_far) + seq![',', ' '] + shown(ds@[i as int]@)));
                } else {
                    assert(so_far =~= Seq::empty());
                    assert(out@ =~= before + shown(ds@[i as int]@));
                }
            }
            i += 1;
        }
        assert(ds@.subrange(0, i as int) =~= ds@);
    }

    /// The trees of values are the trees of each.
    pub proof fn lemma_text_trees(ds: Seq<Data>)
        ensures
            Self::text_trees(ds).len() == ds.len(),
            forall|i: int| 0 <= i < ds.len() ==> #[trigger] Self::text_trees(ds)[i] == ds[i]@,
        decreases ds.len(),
    {
        if ds.len() > 0 {
            Self::lemma_text_trees(ds.drop_last());
            assert forall|i: int| 0 <= i < ds.len() implies #[trigger] Self::text_trees(ds)[i] == ds[i]@ by {
                if i < ds.len() - 1 {
                    assert(ds.drop_last()[i] == ds[i]);
                }
            }
        }
    }
}

impl From<String> for Data {
    fn from(item: String) -> (r: Data) {
        Data::SymStr(SymStr::String(item))
    }
}

impl FromSpecImpl<String> for Data {
    open spec fn obeys_from_spec() -> bool {
        true
    }

    open spec fn from_spec(item: String) -> Data {
        Data::SymStr(SymStr::String(item))
    }
}

impl<'a> From<&'a str> for Data {
    fn from(item: &'a str) -> (r: Data)
        ensures
            r matches Data::SymStr(SymStr::String(s)) && s@ == item@,
    {
        Data::SymStr(SymStr::String(item.to_owned()))
    }
}

/// The conversion from borrowed text allocates, so its result is fixed only
/// up to the characters it holds; the postcondition of `from` states those.
impl<'a> FromSpecImpl<&'a str> for Data {
    open spec fn obeys_from_spec() -> bool {
        false
    }

    open spec fn from_spec(item: &'a str) -> Data {
        arbitrary()
    }
}

impl From<Box<str>> for Data {
    fn from(item: Box<str>) -> (r: Data)
        ensures
            r matches Data::SymStr(SymStr::String(s)) && s@ == item@,
    {
        let text: &str = &*item;
        Data::SymStr(SymStr::String(text.to_owned()))
    }
}

/// As for borrowed text: the postcondition of `from` states the characters.
impl FromSpecImpl<Box<str>> for Data {
    open spec fn obeys_from_spec() -> bool {
        false
    }

    open spec fn from_spec(item: Box<str>) -> Data {
        arbitrary()
    }
}

impl<T: Into<Data>> From<Vec<T>> for Data {
    fn from(item: Vec<T>) -> (r: Data)
        ensures
            r matches Data::List(ds) && ds@.len() == item@.len() && (T::obeys_into_spec() ==> forall|i: int|
                0 <= i < item@.len() ==> #[trigger] ds@[i] == item@[i].into_spec()),
    {
        let mut members: Vec<Data> = Vec::new();
        for x in it: item
            invariant
                it.seq() == item@,
                members@.len() == it.index(),
                T::obeys_into_spec() ==> forall|i: int|
                    0 <= i < members@.len() ==> #[trigger] members@[i] == item@[i].into_spec(),
        {
            let member: Data = x.into();
            members.push(member);
        }
        Data::List(members)
    }
}

/// The conversion of a list goes through the conversions of its members,
/// so its result is fixed only as far as theirs are; the postcondition of
/// `from` states that.
impl<T: Into<Data>> FromSpecImpl<Vec<T>> for Data {
    open spec fn obeys_from_spec() -> bool {
        false
    }

    open spec fn from_spec(item: Vec<T>) -> Data {
        arbitrary()
    }
}

} // verus!
