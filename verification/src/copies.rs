//! Values up to cloning.
//!
//! What `Clone` makes of a value is the value type's own business: the copy need
//! not equal what it was made from. So where values are cloned any number of
//! times on their way, the contracts say what they descend from. For a type
//! whose clones are equal, which is nearly every one, descending is being equal.

use vstd::prelude::*;

use crate::bytes;
use crate::entries;
use crate::entries::Entries;
use crate::shape;
use crate::shape::{Bound, Shape};

verus! {

/// Each value of the line is a clone of the one before it.
spec fn line<V: Clone>(c: Seq<V>) -> bool {
    &&& c.len() > 0
    &&& forall|i: int| 0 <= i < c.len() - 1 ==> #[trigger] next(c, i)
}

spec fn next<V: Clone>(c: Seq<V>, i: int) -> bool {
    cloned(c[i], c[i + 1])
}

/// `b` is what is left of `a` after any number of clones.
pub closed spec fn descends<V: Clone>(a: V, b: V) -> bool {
    exists|c: Seq<V>| #[trigger] line(c) && c[0] == a && c.last() == b
}

/// A clone of any value equals it.
pub open spec fn faithful<V: Clone>() -> bool {
    forall|a: V, b: V| #[trigger] cloned(a, b) ==> a == b
}

pub proof fn lemma_same<V: Clone>(a: V)
    ensures
        descends(a, a),
{
    assert(line(seq![a]));
}

pub proof fn lemma_clone<V: Clone>(a: V, b: V)
    requires
        cloned(a, b),
    ensures
        descends(a, b),
{
    let c = seq![a, b];
    assert(next(c, 0));
    assert(line(c));
}

pub proof fn lemma_chain<V: Clone>(a: V, b: V, c: V)
    requires
        descends(a, b),
        descends(b, c),
    ensures
        descends(a, c),
{
    let x = choose|x: Seq<V>| #[trigger] line(x) && x[0] == a && x.last() == b;
    let y = choose|y: Seq<V>| #[trigger] line(y) && y[0] == b && y.last() == c;
    let z = x + y.subrange(1, y.len() as int);
    assert forall|i: int| 0 <= i < z.len() - 1 implies #[trigger] next(z, i) by {
        if i < x.len() - 1 {
            assert(next(x, i));
        } else {
            assert(next(y, i - (x.len() - 1)));
        }
    }
    assert(line(z));
}

/// Where clones are equal, so is everything that descends from a value.
pub proof fn lemma_faithful<V: Clone>(a: V, b: V)
    requires
        faithful::<V>(),
        descends(a, b),
    ensures
        a == b,
{
    let c = choose|c: Seq<V>| #[trigger] line(c) && c[0] == a && c.last() == b;
    lemma_line(c, c.len() - 1);
}

proof fn lemma_line<V: Clone>(c: Seq<V>, i: int)
    requires
        faithful::<V>(),
        line(c),
        0 <= i < c.len(),
    ensures
        c[i] == c[0],
    decreases i,
{
    if i > 0 {
        lemma_line(c, i - 1);
        assert(next(c, i - 1));
    }
}

/// What descends from a value has what cloning keeps of it.
pub proof fn lemma_descends_keep<V: Clone>(a: V, b: V, f: spec_fn(V) -> bool)
    requires
        descends(a, b),
        forall|x: V, y: V| #[trigger] cloned(x, y) && f(x) ==> f(y),
        f(a),
    ensures
        f(b),
{
    let c = choose|c: Seq<V>| #[trigger] line(c) && c[0] == a && c.last() == b;
    lemma_line_keeps(c, c.len() - 1, f);
}

proof fn lemma_line_keeps<V: Clone>(c: Seq<V>, i: int, f: spec_fn(V) -> bool)
    requires
        line(c),
        0 <= i < c.len(),
        forall|x: V, y: V| #[trigger] cloned(x, y) && f(x) ==> f(y),
        f(c[0]),
    ensures
        f(c[i]),
    decreases i,
{
    if i > 0 {
        lemma_line_keeps(c, i - 1, f);
        assert(next(c, i - 1));
        assert(cloned(c[i - 1], c[i]));
    }
}

// ------------------------------------------------------------------- entries

/// The same keys, each with a value that descends from the one it had.
pub open spec fn near<V: Clone>(a: Entries<V>, b: Entries<V>) -> bool {
    &&& a.len() == b.len()
    &&& forall|i: int|
        #![trigger a[i]]
        #![trigger b[i]]
        0 <= i < a.len() ==> a[i].0 == b[i].0 && descends(a[i].1, b[i].1)
}

/// Both are there and the second descends from the first, or neither is there.
pub open spec fn near_value<V: Clone>(a: Option<V>, b: Option<V>) -> bool {
    match a {
        Some(v) => b is Some && descends(v, b->0),
        None => b is None,
    }
}

pub proof fn lemma_near_same<V: Clone>(a: Entries<V>)
    ensures
        near(a, a),
{
    assert forall|i: int| 0 <= i < a.len() implies descends((#[trigger] a[i]).1, a[i].1) by {
        lemma_same(a[i].1);
    }
}

pub proof fn lemma_near_copied<V: Clone>(a: Entries<V>, b: Entries<V>)
    requires
        entries::copied(a, b),
    ensures
        near(a, b),
{
    assert forall|i: int| 0 <= i < a.len() implies a[i].0 == b[i].0 && descends(
        (#[trigger] a[i]).1,
        b[i].1,
    ) by {
        lemma_clone(a[i].1, b[i].1);
    }
}

pub proof fn lemma_near_chain<V: Clone>(a: Entries<V>, b: Entries<V>, c: Entries<V>)
    requires
        near(a, b),
        near(b, c),
    ensures
        near(a, c),
{
    assert forall|i: int| 0 <= i < a.len() implies a[i].0 == c[i].0 && descends(
        (#[trigger] a[i]).1,
        c[i].1,
    ) by {
        assert(b[i].0 == c[i].0);
        lemma_chain(a[i].1, b[i].1, c[i].1);
    }
}

pub proof fn lemma_near_concat<V: Clone>(
    a: Entries<V>,
    b: Entries<V>,
    c: Entries<V>,
    d: Entries<V>,
)
    requires
        near(a, b),
        near(c, d),
    ensures
        near(a + c, b + d),
{
    let x = a + c;
    let y = b + d;
    assert forall|i: int| 0 <= i < x.len() implies x[i].0 == y[i].0 && descends(
        (#[trigger] x[i]).1,
        y[i].1,
    ) by {
        if i < a.len() {
            assert(x[i] == a[i] && y[i] == b[i]);
        } else {
            assert(x[i] == c[i - a.len()] && y[i] == d[i - a.len()]);
        }
    }
}

/// The middle of a run may change for what descends from it.
pub proof fn lemma_near_middle<V: Clone>(
    a: Entries<V>,
    c: Entries<V>,
    d: Entries<V>,
    b: Entries<V>,
)
    requires
        near(c, d),
    ensures
        near(a + c + b, a + d + b),
{
    lemma_near_same(a);
    lemma_near_same(b);
    lemma_near_concat(a, a, c, d);
    lemma_near_concat(a + c, a + d, b, b);
}

/// Keys sort as they did, and are found where they were.
pub proof fn lemma_near_slots<V: Clone>(a: Entries<V>, b: Entries<V>)
    requires
        near(a, b),
        entries::sorted(a),
    ensures
        entries::sorted(b),
        forall|k: Seq<u8>| #[trigger] entries::slot(a, k) == entries::slot(b, k),
        forall|k: Seq<u8>| near_value(#[trigger] entries::get(a, k), entries::get(b, k)),
{
    assert forall|i: int, j: int| 0 <= i < j < b.len() implies bytes::lt(
        (#[trigger] b[i]).0,
        (#[trigger] b[j]).0,
    ) by {
        assert(a[i].0 == b[i].0 && a[j].0 == b[j].0);
    }
    assert forall|k: Seq<u8>| #[trigger] entries::slot(a, k) == entries::slot(b, k) by {
        entries::lemma_slot_exists(a, k);
        let s = entries::slot(a, k);
        assert forall|j: int| 0 <= j < s implies bytes::lt((#[trigger] b[j]).0, k) by {
            assert(a[j].0 == b[j].0);
        }
        assert forall|j: int| s <= j < b.len() implies !bytes::lt((#[trigger] b[j]).0, k) by {
            assert(a[j].0 == b[j].0);
        }
        entries::lemma_slot(b, k, s);
    }
    assert forall|k: Seq<u8>| near_value(#[trigger] entries::get(a, k), entries::get(b, k)) by {
        let s = entries::slot(a, k);
        assert(s == entries::slot(b, k));
    }
}

pub proof fn lemma_near_put<V: Clone>(a: Entries<V>, b: Entries<V>, k: Seq<u8>, v: V)
    requires
        near(a, b),
        entries::sorted(a),
    ensures
        near(entries::put(a, k, v), entries::put(b, k, v)),
{
    lemma_near_slots(a, b);
    entries::lemma_slot_exists(a, k);
    lemma_same(v);
    let s = entries::slot(a, k);
    assert(s == entries::slot(b, k));
    let x = entries::put(a, k, v);
    let y = entries::put(b, k, v);
    let there = s < a.len() && a[s].0 == k;
    assert(there == (s < b.len() && b[s].0 == k));
    assert forall|i: int| 0 <= i < x.len() implies x[i].0 == y[i].0 && descends(
        (#[trigger] x[i]).1,
        y[i].1,
    ) by {
        let j = if there || i < s { i } else { i - 1 };
        if i != s {
            assert(x[i] == a[j] && y[i] == b[j]);
        }
    }
}

pub proof fn lemma_near_del<V: Clone>(a: Entries<V>, b: Entries<V>, k: Seq<u8>)
    requires
        near(a, b),
        entries::sorted(a),
    ensures
        near(entries::del(a, k), entries::del(b, k)),
{
    lemma_near_slots(a, b);
    entries::lemma_slot_exists(a, k);
    let s = entries::slot(a, k);
    assert(s == entries::slot(b, k));
    let x = entries::del(a, k);
    let y = entries::del(b, k);
    let there = s < a.len() && a[s].0 == k;
    assert(there == (s < b.len() && b[s].0 == k));
    assert forall|i: int| 0 <= i < x.len() implies x[i].0 == y[i].0 && descends(
        (#[trigger] x[i]).1,
        y[i].1,
    ) by {
        let j = if !there || i < s { i } else { i + 1 };
        assert(x[i] == a[j] && y[i] == b[j]);
    }
}

/// Where clones are equal, near entries are the same entries.
pub proof fn lemma_near_faithful<V: Clone>(a: Entries<V>, b: Entries<V>)
    requires
        faithful::<V>(),
        near(a, b),
    ensures
        a == b,
{
    assert forall|i: int| 0 <= i < a.len() implies #[trigger] a[i] == b[i] by {
        lemma_faithful(a[i].1, b[i].1);
    }
    assert(a =~= b);
}

// -------------------------------------------------------------------- shapes

/// The same node, with its own values cloned if it is a leaf.
pub open spec fn alike<V: Clone>(a: Shape<V>, b: Shape<V>) -> bool {
    ||| a == b
    ||| a is Leaf && b is Leaf && near(a.entries(), b.entries())
}

pub proof fn lemma_alike<V: Clone>(a: Shape<V>, b: Shape<V>)
    requires
        alike(a, b),
    ensures
        a is Leaf <==> b is Leaf,
        a.height() == b.height(),
        a.len() == b.len(),
        near(a.entries(), b.entries()),
        forall|lo: Bound, hi: Bound, min: nat, max: nat| #[trigger]
            a.wf(lo, hi, min, max) ==> b.wf(lo, hi, min, max),
{
    if a == b {
        lemma_near_same(a.entries());
    } else {
        let x = a.entries();
        let y = b.entries();
        assert forall|lo: Bound, hi: Bound, min: nat, max: nat| #[trigger]
            a.wf(lo, hi, min, max) implies b.wf(lo, hi, min, max) by {
            lemma_near_slots(x, y);
            assert forall|i: int| 0 <= i < y.len() implies shape::within(
                (#[trigger] y[i]).0,
                lo,
                hi,
            ) by {
                assert(x[i].0 == y[i].0);
            }
        }
    }
}

pub proof fn lemma_alike_chain<V: Clone>(a: Shape<V>, b: Shape<V>, c: Shape<V>)
    requires
        alike(a, b),
        alike(b, c),
    ensures
        alike(a, c),
{
    if a != b && b != c {
        lemma_near_chain(a.entries(), b.entries(), c.entries());
    }
}

/// A child may be put in place of one it is alike to.
pub proof fn lemma_alike_kid<V: Clone>(
    seps: Seq<Seq<u8>>,
    kids: Seq<Shape<V>>,
    lo: Bound,
    hi: Bound,
    low: int,
    at: int,
    kid: Shape<V>,
)
    requires
        shape::fenced(seps, kids, lo, hi, low),
        0 <= at < kids.len(),
        alike(kids[at], kid),
    ensures
        shape::fenced(seps, kids.update(at, kid), lo, hi, low),
        near(shape::all(kids), shape::all(kids.update(at, kid))),
{
    let next = kids.update(at, kid);
    lemma_alike(kids[at], kid);
    assert forall|i: int| 0 <= i < next.len() implies (#[trigger] next[i]).height()
        == next[0].height() by {
        assert(kids[i].height() == kids[0].height());
        assert(kids[at].height() == kids[0].height());
    }
    assert forall|i: int| 0 <= i < next.len() implies (#[trigger] next[i]).wf(
        shape::lower(seps, lo, i),
        shape::upper(seps, hi, i),
        shape::least(i, low),
        shape::ORDER as nat,
    ) by {
        assert(kids[i].wf(
            shape::lower(seps, lo, i),
            shape::upper(seps, hi, i),
            shape::least(i, low),
            shape::ORDER as nat,
        ));
    }
    shape::lemma_all_around(kids, at);
    shape::lemma_all_around(next, at);
    assert(next.subrange(0, at) =~= kids.subrange(0, at));
    assert(next.subrange(at + 1, next.len() as int) =~= kids.subrange(at + 1, kids.len() as int));
    lemma_near_middle(
        shape::all(kids.subrange(0, at)),
        kids[at].entries(),
        kid.entries(),
        shape::all(kids.subrange(at + 1, kids.len() as int)),
    );
}

} // verus!
