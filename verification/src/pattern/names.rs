//! Lists of names: what set they hold, and their order.

use vstd::prelude::*;
use vstd::utf8::encode_utf8;

verus! {

/// The texts of a run of names, in order.
pub open spec fn texts(v: Seq<String>) -> Seq<Seq<char>> {
    Seq::new(v.len(), |i: int| v[i]@)
}

/// The set of names that a run of names holds.
pub open spec fn names(v: Seq<String>) -> Set<Seq<char>> {
    Set::new(|n: Seq<char>| exists|i: int| 0 <= i < v.len() && (#[trigger] v[i])@ == n)
}

/// No name occurs twice.
pub open spec fn distinct(v: Seq<String>) -> bool {
    forall|i: int, j: int| 0 <= i < j < v.len() ==> (#[trigger] v[i])@ != (#[trigger] v[j])@
}

/// `a` comes before `b` where they first differ, or is a proper beginning
/// of it.
pub open spec fn bytes_before(a: Seq<u8>, b: Seq<u8>) -> bool
    decreases a.len(),
{
    if b.len() == 0 {
        false
    } else if a.len() == 0 {
        true
    } else {
        a[0] < b[0] || (a[0] == b[0] && bytes_before(a.drop_first(), b.drop_first()))
    }
}

/// The order of texts: that of their bytes in UTF-8, which is the order
/// that `str` has.
pub open spec fn text_before(a: Seq<char>, b: Seq<char>) -> bool {
    bytes_before(encode_utf8(a), encode_utf8(b))
}

/// The names stand in rising order, so none occurs twice.
pub open spec fn ordered(v: Seq<String>) -> bool {
    forall|i: int, j: int| 0 <= i < j < v.len() ==> text_before((#[trigger] v[i])@, (#[trigger] v[j])@)
}

proof fn lemma_bytes_before_is_strict(a: Seq<u8>)
    ensures
        !bytes_before(a, a),
    decreases a.len(),
{
    if a.len() > 0 {
        lemma_bytes_before_is_strict(a.drop_first());
    }
}

proof fn lemma_bytes_before_chains(a: Seq<u8>, b: Seq<u8>, c: Seq<u8>)
    requires
        bytes_before(a, b),
        bytes_before(b, c),
    ensures
        bytes_before(a, c),
    decreases a.len(),
{
    if a.len() > 0 && a[0] == b[0] && b[0] == c[0] {
        lemma_bytes_before_chains(a.drop_first(), b.drop_first(), c.drop_first());
    }
}

/// A text does not come before itself.
pub proof fn lemma_text_before_is_strict(a: Seq<char>, b: Seq<char>)
    requires
        text_before(a, b),
    ensures
        a != b,
{
    lemma_bytes_before_is_strict(encode_utf8(a));
}

/// What comes before a text comes before what that text comes before.
pub proof fn lemma_text_before_chains(a: Seq<char>, b: Seq<char>, c: Seq<char>)
    requires
        text_before(a, b),
        text_before(b, c),
    ensures
        text_before(a, c),
{
    lemma_bytes_before_chains(encode_utf8(a), encode_utf8(b), encode_utf8(c));
}

/// Names in rising order are distinct.
pub proof fn lemma_ordered_is_distinct(v: Seq<String>)
    requires
        ordered(v),
    ensures
        distinct(v),
{
    assert forall|i: int, j: int| 0 <= i < j < v.len() implies (#[trigger] v[i])@ != (#[trigger] v[j])@ by {
        lemma_text_before_is_strict(v[i]@, v[j]@);
    }
}

/// There is one way only to list a set of names in rising order.
pub proof fn lemma_ordered_names_are_one_list(a: Seq<String>, b: Seq<String>)
    requires
        ordered(a),
        ordered(b),
        names(a) == names(b),
    ensures
        texts(a) == texts(b),
    decreases a.len(),
{
    if a.len() == 0 {
        if b.len() > 0 {
            assert(names(b).contains(b[0]@));
            let i = choose|i: int| 0 <= i < a.len() && (#[trigger] a[i])@ == b[0]@;
        }
        assert(texts(a) =~= texts(b));
    } else {
        assert(names(a).contains(a[0]@));
        let k = choose|k: int| 0 <= k < b.len() && (#[trigger] b[k])@ == a[0]@;
        assert(names(b).contains(b[0]@));
        let m = choose|m: int| 0 <= m < a.len() && (#[trigger] a[m])@ == b[0]@;
        if k > 0 {
            if m > 0 {
                lemma_text_before_chains(b[0]@, b[k]@, a[m]@);
                lemma_text_before_is_strict(b[0]@, a[m]@);
            } else {
                lemma_text_before_is_strict(b[0]@, b[k]@);
            }
        }
        assert(a[0]@ == b[0]@);
        let a1 = a.drop_first();
        let b1 = b.drop_first();
        assert forall|i: int, j: int| 0 <= i < j < a1.len() implies text_before(
            (#[trigger] a1[i])@,
            (#[trigger] a1[j])@,
        ) by {
            assert(text_before(a[i + 1]@, a[j + 1]@));
        }
        assert forall|i: int, j: int| 0 <= i < j < b1.len() implies text_before(
            (#[trigger] b1[i])@,
            (#[trigger] b1[j])@,
        ) by {
            assert(text_before(b[i + 1]@, b[j + 1]@));
        }
        assert forall|n: Seq<char>| names(a1).contains(n) <==> names(b1).contains(n) by {
            if names(a1).contains(n) {
                let i = choose|i: int| 0 <= i < a1.len() && (#[trigger] a1[i])@ == n;
                assert(a[i + 1]@ == n);
                lemma_text_before_is_strict(a[0]@, a[i + 1]@);
                assert(names(a).contains(n));
                let j = choose|j: int| 0 <= j < b.len() && (#[trigger] b[j])@ == n;
                assert(j > 0);
                assert(b1[j - 1]@ == n);
            }
            if names(b1).contains(n) {
                let i = choose|i: int| 0 <= i < b1.len() && (#[trigger] b1[i])@ == n;
                assert(b[i + 1]@ == n);
                lemma_text_before_is_strict(b[0]@, b[i + 1]@);
                assert(names(b).contains(n));
                let j = choose|j: int| 0 <= j < a.len() && (#[trigger] a[j])@ == n;
                assert(j > 0);
                assert(a1[j - 1]@ == n);
            }
        }
        assert(names(a1) =~= names(b1));
        lemma_ordered_names_are_one_list(a1, b1);
        assert(texts(a) =~= texts(b)) by {
            assert(texts(a).len() == texts(b).len()) by {
                assert(texts(a1).len() == texts(b1).len());
            }
            assert forall|i: int| 0 <= i < a.len() implies texts(a)[i] == texts(b)[i] by {
                if i > 0 {
                    assert(texts(a1)[i - 1] == texts(b1)[i - 1]);
                }
            }
        }
    }
}

/// Pushing a name adds it to the set of names.
pub proof fn lemma_names_push(v: Seq<String>, s: String)
    ensures
        names(v.push(s)) == names(v).insert(s@),
{
    let w = v.push(s);
    assert forall|n: Seq<char>| names(w).contains(n) <==> names(v).insert(s@).contains(n) by {
        if names(w).contains(n) {
            let i = choose|i: int| 0 <= i < w.len() && (#[trigger] w[i])@ == n;
            if i < v.len() {
                assert(v[i]@ == n);
            }
        }
        if names(v).contains(n) {
            let i = choose|i: int| 0 <= i < v.len() && (#[trigger] v[i])@ == n;
            assert(w[i]@ == n);
        }
        if n == s@ {
            assert(w[v.len() as int]@ == n);
        }
    }
    assert(names(w) =~= names(v).insert(s@));
}

/// Inserting a name anywhere adds it to the set of names.
pub proof fn lemma_names_insert(v: Seq<String>, at: int, s: String)
    requires
        0 <= at <= v.len(),
    ensures
        names(v.insert(at, s)) == names(v).insert(s@),
{
    let w = v.insert(at, s);
    v.insert_ensures(at, s);
    assert forall|n: Seq<char>| names(w).contains(n) <==> names(v).insert(s@).contains(n) by {
        if names(w).contains(n) {
            let i = choose|i: int| 0 <= i < w.len() && (#[trigger] w[i])@ == n;
            if i < at {
                assert(v[i]@ == n);
            } else if i > at {
                assert(w[(i - 1) + 1] == v[i - 1]);
                assert(v[i - 1]@ == n);
            }
        }
        if names(v).contains(n) {
            let i = choose|i: int| 0 <= i < v.len() && (#[trigger] v[i])@ == n;
            if i < at {
                assert(w[i]@ == n);
            } else {
                assert(w[i + 1]@ == n);
            }
        }
        if n == s@ {
            assert(w[at]@ == n);
        }
    }
    assert(names(w) =~= names(v).insert(s@));
}

/// How one text stands to another in the order of texts.
pub enum Order {
    Before,
    Same,
    After,
}

/// Compares two texts as `str` orders them: byte by byte.
pub fn compare(a: &str, b: &str) -> (r: Order)
    ensures
        r is Before <==> text_before(a@, b@),
        r is Same <==> a@ == b@,
        r is After <==> text_before(b@, a@),
{
    let x = a.as_bytes();
    let y = b.as_bytes();
    proof {
        vstd::utf8::encode_utf8_decode_utf8(a@);
        vstd::utf8::encode_utf8_decode_utf8(b@);
        lemma_bytes_before_is_strict(x@);
        assert(x@.subrange(0, x@.len() as int) =~= x@);
        assert(y@.subrange(0, y@.len() as int) =~= y@);
    }
    let mut i: usize = 0;
    loop
        invariant
            i <= x@.len(),
            i <= y@.len(),
            x@ == encode_utf8(a@),
            y@ == encode_utf8(b@),
            vstd::utf8::decode_utf8(x@) == a@,
            vstd::utf8::decode_utf8(y@) == b@,
            forall|j: int| 0 <= j < i ==> x@[j] == y@[j],
            bytes_before(x@, y@) == bytes_before(
                x@.subrange(i as int, x@.len() as int),
                y@.subrange(i as int, y@.len() as int),
            ),
            bytes_before(y@, x@) == bytes_before(
                y@.subrange(i as int, y@.len() as int),
                x@.subrange(i as int, x@.len() as int),
            ),
        decreases x@.len() - i,
    {
        let ghost xs = x@.subrange(i as int, x@.len() as int);
        let ghost ys = y@.subrange(i as int, y@.len() as int);
        if i == x.len() {
            if i == y.len() {
                assert(x@ =~= y@);
                return Order::Same;
            }
            assert(x@.len() != y@.len());
            return Order::Before;
        }
        if i == y.len() {
            assert(x@.len() != y@.len());
            return Order::After;
        }
        assert(xs[0] == x@[i as int] && ys[0] == y@[i as int]);
        if x[i] < y[i] {
            assert(x@[i as int] != y@[i as int]);
            return Order::Before;
        }
        if x[i] > y[i] {
            assert(x@[i as int] != y@[i as int]);
            return Order::After;
        }
        assert(xs.drop_first() =~= x@.subrange(i + 1, x@.len() as int));
        assert(ys.drop_first() =~= y@.subrange(i + 1, y@.len() as int));
        i += 1;
    }
}

/// Whether `name` is among `v`.
pub fn has_name(v: &Vec<String>, name: &String) -> (r: bool)
    ensures
        r == names(v@).contains(name@),
{
    let mut i: usize = 0;
    while i < v.len()
        invariant
            i <= v@.len(),
            forall|j: int| 0 <= j < i ==> (#[trigger] v@[j])@ != name@,
        decreases v@.len() - i,
    {
        if v[i] == *name {
            return true;
        }
        i += 1;
    }
    false
}

/// Whether every name of `b` is among `a`.
pub fn includes(a: &Vec<String>, b: &Vec<String>) -> (r: bool)
    ensures
        r == names(b@).subset_of(names(a@)),
{
    let mut i: usize = 0;
    while i < b.len()
        invariant
            i <= b@.len(),
            forall|j: int| 0 <= j < i ==> names(a@).contains((#[trigger] b@[j])@),
        decreases b@.len() - i,
    {
        if !has_name(a, &b[i]) {
            assert(names(b@).contains(b@[i as int]@));
            return false;
        }
        i += 1;
    }
    true
}

/// Whether `a` and `b` hold the same names.
pub fn same_names(a: &Vec<String>, b: &Vec<String>) -> (r: bool)
    ensures
        r == (names(a@) == names(b@)),
{
    let r = includes(a, b) && includes(b, a);
    proof {
        if r {
            assert(names(a@) =~= names(b@));
        }
    }
    r
}

/// A copy of a list of names.
pub fn copy_names(v: &Vec<String>) -> (r: Vec<String>)
    ensures
        r@ == v@,
{
    let mut out: Vec<String> = Vec::new();
    let mut i: usize = 0;
    while i < v.len()
        invariant
            i <= v@.len(),
            out@ == v@.subrange(0, i as int),
        decreases v@.len() - i,
    {
        out.push(v[i].clone());
        assert(out@ =~= v@.subrange(0, i + 1));
        i += 1;
    }
    assert(out@ =~= v@);
    out
}

/// Puts `name` at its place among names in rising order, unless it is one
/// of them already.
pub fn insert_name(v: &mut Vec<String>, name: &String) -> (added: bool)
    requires
        ordered(old(v)@),
    ensures
        added == !names(old(v)@).contains(name@),
        added ==> ordered(final(v)@) && names(final(v)@) == names(old(v)@).insert(name@),
        !added ==> final(v)@ == old(v)@,
{
    let mut i: usize = 0;
    while i < v.len()
        invariant
            i <= v@.len(),
            v@ == old(v)@,
            ordered(v@),
            forall|j: int| 0 <= j < i ==> text_before((#[trigger] v@[j])@, name@),
        ensures
            i <= v@.len(),
            v@ == old(v)@,
            ordered(v@),
            forall|j: int| 0 <= j < i ==> text_before((#[trigger] v@[j])@, name@),
            i < v@.len() ==> text_before(name@, v@[i as int]@),
        decreases v@.len() - i,
    {
        match compare(v[i].as_str(), name.as_str()) {
            Order::Before => {},
            Order::Same => {
                return false;
            },
            Order::After => {
                break ;
            },
        }
        i += 1;
    }
    proof {
        let before = v@;
        let after = before.insert(i as int, *name);
        before.insert_ensures(i as int, *name);
        lemma_names_insert(before, i as int, *name);
        assert forall|j: int| i <= j < before.len() implies text_before(name@, (#[trigger] before[j])@) by {
            if j > i {
                lemma_text_before_chains(name@, before[i as int]@, before[j]@);
            }
        }
        assert forall|j: int| 0 <= j < before.len() implies (#[trigger] before[j])@ != name@ by {
            if j < i {
                lemma_text_before_is_strict(before[j]@, name@);
            } else {
                lemma_text_before_is_strict(name@, before[j]@);
            }
        }
        assert forall|a: int, b: int| 0 <= a < b < after.len() implies text_before(
            (#[trigger] after[a])@,
            (#[trigger] after[b])@,
        ) by {
            let x = if a < i {
                a
            } else {
                a - 1
            };
            let y = if b < i {
                b
            } else {
                b - 1
            };
            if a != i {
                assert(after[a] == before[x]) by {
                    if a > i {
                        assert(after[(a - 1) + 1] == before[a - 1]);
                    }
                }
            }
            if b != i {
                assert(after[b] == before[y]) by {
                    if b > i {
                        assert(after[(b - 1) + 1] == before[b - 1]);
                    }
                }
            }
            if a != i && b != i {
                assert(text_before(before[x]@, before[y]@));
            }
        }
    }
    v.insert(i, name.clone());
    true
}

} // verus!
