//! What holds of both trees, call by call.
//!
//! The contracts of the trees speak of sorted entries and of what a call makes
//! of them. Each law here says what that comes to for a caller: which keys are
//! there afterwards, with which values, and in which order they come out.

use vstd::prelude::*;

use crate::bytes;
use crate::copies;
use crate::entries;
use crate::entries::Entries;
use crate::tree;

verus! {

// --------------------------------------------------------------------- order

/// The order is the lexicographic one, byte by byte: one key sorts before
/// another if it ends first or holds the smaller byte where they first part.
pub proof fn order_is_lexicographic(a: Seq<u8>, b: Seq<u8>)
    ensures
        bytes::lt(a, b) <==> exists|i: int|
            {
                &&& 0 <= i <= a.len()
                &&& i < b.len()
                &&& forall|j: int| 0 <= j < i ==> #[trigger] a[j] == b[j]
                &&& i == a.len() || #[trigger] a[i] < b[i]
            },
{
    bytes::lemma_common(a, b);
    let c = bytes::common(a, b) as int;
    bytes::lemma_lt_at(a, b);
    if bytes::lt(a, b) {
        assert(c == a.len() || a[c] < b[c]);
    }
    if exists|i: int|
        {
            &&& 0 <= i <= a.len()
            &&& i < b.len()
            &&& forall|j: int| 0 <= j < i ==> #[trigger] a[j] == b[j]
            &&& i == a.len() || #[trigger] a[i] < b[i]
        } {
        let i = choose|i: int|
            {
                &&& 0 <= i <= a.len()
                &&& i < b.len()
                &&& forall|j: int| 0 <= j < i ==> #[trigger] a[j] == b[j]
                &&& i == a.len() || #[trigger] a[i] < b[i]
            };
        bytes::lemma_parts_at(a, b, i as nat);
    }
}

/// A key starts with a prefix if it is at least as long and agrees with it in
/// every byte of it.
pub proof fn prefix_is_bytewise(key: Seq<u8>, p: Seq<u8>)
    ensures
        bytes::begins(key, p) <==> {
            &&& p.len() <= key.len()
            &&& forall|j: int| 0 <= j < p.len() ==> #[trigger] key[j] == p[j]
        },
{
    if bytes::begins(key, p) {
        assert forall|j: int| 0 <= j < p.len() implies #[trigger] key[j] == p[j] by {
            assert(key.subrange(0, p.len() as int)[j] == key[j]);
        }
    }
    if p.len() <= key.len() && forall|j: int| 0 <= j < p.len() ==> #[trigger] key[j] == p[j] {
        assert(key.subrange(0, p.len() as int) =~= p);
    }
}

/// What a tree holds comes in the order of its keys, each key once.
pub proof fn entries_come_in_order<V>(e: Entries<V>, i: int, j: int)
    requires
        entries::sorted(e),
        0 <= i < j < e.len(),
    ensures
        bytes::lt(e[i].0, e[j].0),
        e[i].0 != e[j].0,
{
    broadcast use crate::bytes::group_order;

}

// -------------------------------------------------------------------- copies

/// What is left of a value after any number of clones has every property that
/// cloning keeps.
pub proof fn copies_keep_what_cloning_keeps<V: Clone>(a: V, b: V, f: spec_fn(V) -> bool)
    requires
        copies::descends(a, b),
        forall|x: V, y: V| #[trigger] cloned(x, y) && f(x) ==> f(y),
        f(a),
    ensures
        f(b),
{
    copies::lemma_descends_keep(a, b, f);
}

/// Entries up to cloning are entries of the same keys in the same order, each
/// with a value cloned from the one at its key.
pub proof fn copies_keep_their_keys<V: Clone>(a: Entries<V>, b: Entries<V>)
    requires
        copies::near(a, b),
    ensures
        a.len() == b.len(),
        forall|i: int|
            0 <= i < a.len() ==> (#[trigger] a[i]).0 == b[i].0 && copies::descends(a[i].1, b[i].1),
{
}

/// A value up to cloning is there exactly if the value is.
pub proof fn copies_are_there_with_the_value<V: Clone>(a: Option<V>, b: Option<V>)
    requires
        copies::near_value(a, b),
    ensures
        a is Some <==> b is Some,
        a is Some ==> copies::descends(a->0, b->0),
{
}

// --------------------------------------------------------------------- calls

/// A lookup finds the value that is stored at the key, and nothing if the key
/// is not there.
pub proof fn lookup_finds_what_is_stored<V>(e: Entries<V>, k: Seq<u8>)
    requires
        entries::sorted(e),
    ensures
        forall|v: V| entries::get(e, k) == Some(v) <==> #[trigger] e.contains((k, v)),
        entries::get(e, k) is None <==> forall|i: int| 0 <= i < e.len() ==> (#[trigger] e[i]).0 != k,
{
    assert forall|v: V| entries::get(e, k) == Some(v) <==> #[trigger] e.contains((k, v)) by {
        if entries::get(e, k) == Some(v) {
            let i = entries::lemma_get_index(e, k);
            assert(e[i] == (k, v));
        }
        if e.contains((k, v)) {
            let i = choose|i: int| 0 <= i < e.len() && e[i] == (k, v);
            entries::lemma_found(e, i);
        }
    }
    if entries::get(e, k) is Some {
        let i = entries::lemma_get_index(e, k);
        assert(e[i].0 == k);
    } else {
        assert forall|i: int| 0 <= i < e.len() implies (#[trigger] e[i]).0 != k by {
            if e[i].0 == k {
                entries::lemma_found(e, i);
            }
        }
    }
}

/// The map a tree stands for holds the pairs that are stored, and no other.
pub proof fn the_map_is_what_is_stored<V>(e: Entries<V>, k: Seq<u8>, v: V)
    requires
        entries::sorted(e),
    ensures
        entries::to_map(e).dom().contains(k) && entries::to_map(e)[k] == v <==> e.contains((k, v)),
{
    lookup_finds_what_is_stored(e, k);
    assert((entries::get(e, k) == Some(v)) == e.contains((k, v)));
}

/// A write leaves its value at its key, in place of the one there, every other
/// key as it was, and the keys in order.
pub proof fn write_touches_one_key<V>(e: Entries<V>, k: Seq<u8>, v: V)
    requires
        entries::sorted(e),
    ensures
        ({
            let n = entries::put(e, k, v);
            &&& forall|i: int, j: int|
                0 <= i < j < n.len() ==> bytes::lt((#[trigger] n[i]).0, (#[trigger] n[j]).0)
            &&& forall|o: Seq<u8>, w: V| #[trigger]
                n.contains((o, w)) <==> (if o == k {
                    w == v
                } else {
                    e.contains((o, w))
                })
        }),
{
    let n = entries::put(e, k, v);
    entries::lemma_put(e, k, v);
    assert forall|o: Seq<u8>, w: V| #[trigger]
        n.contains((o, w)) <==> (if o == k {
            w == v
        } else {
            e.contains((o, w))
        }) by {
        lookup_finds_what_is_stored(n, o);
        lookup_finds_what_is_stored(e, o);
        assert(entries::get(n, o) == (if o == k {
            Some(v)
        } else {
            entries::get(e, o)
        }));
        assert((entries::get(n, o) == Some(w)) == n.contains((o, w)));
        assert((entries::get(e, o) == Some(w)) == e.contains((o, w)));
    }
}

/// A removal leaves nothing at its key, every other key as it was, and the keys
/// in order.
pub proof fn removal_takes_one_key<V>(e: Entries<V>, k: Seq<u8>)
    requires
        entries::sorted(e),
    ensures
        ({
            let n = entries::del(e, k);
            &&& forall|i: int, j: int|
                0 <= i < j < n.len() ==> bytes::lt((#[trigger] n[i]).0, (#[trigger] n[j]).0)
            &&& forall|o: Seq<u8>, w: V| #[trigger]
                n.contains((o, w)) <==> o != k && e.contains((o, w))
        }),
{
    let n = entries::del(e, k);
    entries::lemma_del(e, k);
    assert forall|o: Seq<u8>, w: V| #[trigger]
        n.contains((o, w)) <==> o != k && e.contains((o, w)) by {
        lookup_finds_what_is_stored(n, o);
        lookup_finds_what_is_stored(e, o);
        assert(entries::get(n, o) == (if o == k {
            None
        } else {
            entries::get(e, o)
        }));
        assert((entries::get(n, o) == Some(w)) == n.contains((o, w)));
        assert((entries::get(e, o) == Some(w)) == e.contains((o, w)));
    }
}

/// A run from a key holds every entry at or after the key, in order, and no
/// other: what a lower bound walks, and what is left when everything below the
/// key is removed.
pub proof fn lower_bound_is_every_key_from_there<V>(e: Entries<V>, k: Seq<u8>)
    requires
        entries::sorted(e),
    ensures
        ({
            let r = entries::run_from(e, k);
            &&& forall|i: int, j: int|
                0 <= i < j < r.len() ==> bytes::lt((#[trigger] r[i]).0, (#[trigger] r[j]).0)
            &&& forall|o: Seq<u8>, w: V| #[trigger]
                r.contains((o, w)) <==> e.contains((o, w)) && !bytes::lt(o, k)
        }),
{
    let r = entries::run_from(e, k);
    entries::lemma_run(e, k);
    assert forall|o: Seq<u8>, w: V| #[trigger]
        r.contains((o, w)) <==> e.contains((o, w)) && !bytes::lt(o, k) by {
        lookup_finds_what_is_stored(r, o);
        lookup_finds_what_is_stored(e, o);
        assert((entries::get(r, o) == Some(w)) == r.contains((o, w)));
        assert((entries::get(e, o) == Some(w)) == e.contains((o, w)));
        if r.contains((o, w)) {
            let i = choose|i: int| 0 <= i < r.len() && r[i] == (o, w);
            assert(!bytes::lt(r[i].0, k));
        }
        if !bytes::lt(o, k) {
            assert(entries::get(r, o) == entries::get(e, o));
        }
    }
}

/// A prefix search holds every entry whose key agrees with the prefix in every
/// byte of it, in order, and no other.
pub proof fn prefix_is_every_key_under_it<V>(e: Entries<V>, p: Seq<u8>)
    requires
        entries::sorted(e),
    ensures
        ({
            let r = entries::under(e, p);
            &&& forall|i: int, j: int|
                0 <= i < j < r.len() ==> bytes::lt((#[trigger] r[i]).0, (#[trigger] r[j]).0)
            &&& forall|o: Seq<u8>, w: V| #[trigger]
                r.contains((o, w)) <==> {
                    &&& e.contains((o, w))
                    &&& p.len() <= o.len()
                    &&& forall|j: int| 0 <= j < p.len() ==> #[trigger] o[j] == p[j]
                }
        }),
    decreases e.len(),
{
    reveal(Seq::filter);
    let r = entries::under(e, p);
    let f = |x: (Seq<u8>, V)| bytes::begins(x.0, p);
    if e.len() > 0 {
        let d = e.drop_last();
        let last = e.last();
        let n = e.len() - 1;
        assert forall|i: int, j: int| 0 <= i < j < d.len() implies bytes::lt(
            (#[trigger] d[i]).0,
            (#[trigger] d[j]).0,
        ) by {
            assert(bytes::lt(e[i].0, e[j].0));
        }
        prefix_is_every_key_under_it(d, p);
        prefix_is_bytewise(last.0, p);
        let s = entries::under(d, p);
        assert(r == (if f(last) {
            s.push(last)
        } else {
            s
        }));
        assert forall|i: int, j: int| 0 <= i < j < r.len() implies bytes::lt(
            (#[trigger] r[i]).0,
            (#[trigger] r[j]).0,
        ) by {
            assert(r[i] == s[i]);
            if j < s.len() {
                assert(r[j] == s[j]);
            } else {
                assert(s.contains((s[i].0, s[i].1)));
                assert(d.contains((s[i].0, s[i].1)));
                let x = choose|x: int| 0 <= x < d.len() && d[x] == s[i];
                assert(bytes::lt(e[x].0, e[n].0));
            }
        }
        assert forall|o: Seq<u8>, w: V| #[trigger]
            r.contains((o, w)) <==> {
                &&& e.contains((o, w))
                &&& p.len() <= o.len()
                &&& forall|j: int| 0 <= j < p.len() ==> #[trigger] o[j] == p[j]
            } by {
            assert(s.contains((o, w)) <==> {
                &&& d.contains((o, w))
                &&& p.len() <= o.len()
                &&& forall|j: int| 0 <= j < p.len() ==> #[trigger] o[j] == p[j]
            });
            if d.contains((o, w)) {
                let x = choose|x: int| 0 <= x < d.len() && d[x] == (o, w);
                assert(e[x] == (o, w));
            }
            if s.contains((o, w)) {
                let x = choose|x: int| 0 <= x < s.len() && s[x] == (o, w);
                assert(r[x] == (o, w));
            }
            if e.contains((o, w)) && !d.contains((o, w)) {
                let x = choose|x: int| 0 <= x < e.len() && e[x] == (o, w);
                if x < n {
                    assert(d[x] == (o, w));
                }
                assert(last == (o, w));
            }
            if f(last) {
                assert(r[s.len() as int] == last);
                assert(e[n] == last);
            }
            if r.contains((o, w)) && !s.contains((o, w)) {
                let x = choose|x: int| 0 <= x < r.len() && r[x] == (o, w);
                if x < s.len() {
                    assert(s[x] == (o, w));
                }
            }
        }
    }
}

/// A step of a walk that holds nothing taken hands out the first entry at or
/// after where the walk seeks, with its value cloned, and ends the walk only if
/// there is none. A step of a walk that holds entries hands out the first of
/// them, whatever was done to the tree since.
pub proof fn a_step_hands_out_the_next_entry<V: Clone>(
    old: tree::Iter<V>,
    e: Entries<V>,
    entry: Option<(Vec<u8>, V)>,
    new: tree::Iter<V>,
)
    requires
        entries::sorted(e),
        tree::stepped(old, e, tree::plain(entry), new),
    ensures
        old.pending().len() > 0 ==> (entry matches Some((key, value)) && old.pending()[0] == (
            key@,
            value,
        ) && new.pending() == old.pending().subrange(1, old.pending().len() as int) && new.seek()
            == old.seek()),
        old.pending().len() == 0 ==> match entry {
            Some((key, value)) => {
                &&& old.seek() matches Some(f) && !bytes::lt(key@, f) && forall|o: Seq<u8>, w: V|
                    #[trigger] e.contains((o, w)) && !bytes::lt(o, f) ==> !bytes::lt(o, key@)
                &&& exists|v: V| #[trigger] e.contains((key@, v)) && cloned(v, value)
            },
            None => old.seek() matches Some(f) ==> forall|o: Seq<u8>, w: V| #[trigger]
                e.contains((o, w)) ==> bytes::lt(o, f),
        },
{
    broadcast use crate::bytes::group_order;

    if old.pending().len() == 0 && old.seek() is Some {
        let f = old.seek()->0;
        let r = entries::run_from(e, f);
        lower_bound_is_every_key_from_there(e, f);
        match entry {
            Some((key, value)) => {
                let n = 1 + new.pending().len() as int;
                let taken = seq![(key@, value)] + new.pending();
                assert(taken[0] == (key@, value));
                assert(r.subrange(0, n)[0] == r[0]);
                assert(r[0].0 == key@ && cloned(r[0].1, value));
                assert(r.contains((r[0].0, r[0].1)));
                assert(e.contains((key@, r[0].1)));
                assert forall|o: Seq<u8>, w: V| #[trigger]
                    e.contains((o, w)) && !bytes::lt(o, f) implies !bytes::lt(o, key@) by {
                    assert(r.contains((o, w)));
                    let i = choose|i: int| 0 <= i < r.len() && r[i] == (o, w);
                    if i > 0 {
                        assert(bytes::lt(r[0].0, r[i].0));
                    }
                }
            },
            None => {
                assert forall|o: Seq<u8>, w: V| #[trigger] e.contains((o, w)) implies bytes::lt(
                    o,
                    f,
                ) by {
                    if !bytes::lt(o, f) {
                        assert(r.contains((o, w)));
                    }
                }
            },
        }
    }
}

/// A walk from a key over a tree that stays as it is hands out, in order, a
/// clone of every entry at or after the key, and nothing else.
pub proof fn walk_hands_out_every_key_from_there<V: Clone>(
    walk: tree::Iter<V>,
    e: Entries<V>,
    k: Seq<u8>,
    list: Seq<(Vec<u8>, V)>,
)
    requires
        entries::sorted(e),
        walk.pending().len() == 0,
        walk.seek() == Some(k),
        entries::copied(walk.rest(e), entries::listed(list)),
    ensures
        forall|i: int, j: int|
            0 <= i < j < list.len() ==> bytes::lt((#[trigger] list[i]).0@, (#[trigger] list[j]).0@),
        forall|i: int|
            0 <= i < list.len() ==> {
                &&& !bytes::lt((#[trigger] list[i]).0@, k)
                &&& exists|v: V| #[trigger] e.contains((list[i].0@, v)) && cloned(v, list[i].1)
            },
        forall|o: Seq<u8>, v: V| #[trigger]
            e.contains((o, v)) && !bytes::lt(o, k) ==> exists|i: int|
                0 <= i < list.len() && (#[trigger] list[i]).0@ == o && cloned(v, list[i].1),
{
    let r = entries::run_from(e, k);
    let l = entries::listed(list);
    assert(walk.rest(e) =~= r);
    lower_bound_is_every_key_from_there(e, k);
    assert forall|i: int, j: int| 0 <= i < j < list.len() implies bytes::lt(
        (#[trigger] list[i]).0@,
        (#[trigger] list[j]).0@,
    ) by {
        assert(r[i].0 == l[i].0 && r[j].0 == l[j].0);
    }
    assert forall|i: int| 0 <= i < list.len() implies {
        &&& !bytes::lt((#[trigger] list[i]).0@, k)
        &&& exists|v: V| #[trigger] e.contains((list[i].0@, v)) && cloned(v, list[i].1)
    } by {
        assert(r[i].0 == l[i].0 && cloned(r[i].1, l[i].1));
        assert(r.contains((r[i].0, r[i].1)));
        assert(e.contains((list[i].0@, r[i].1)));
    }
    assert forall|o: Seq<u8>, v: V| #[trigger]
        e.contains((o, v)) && !bytes::lt(o, k) implies exists|i: int|
        0 <= i < list.len() && (#[trigger] list[i]).0@ == o && cloned(v, list[i].1) by {
        assert(r.contains((o, v)));
        let i = choose|i: int| 0 <= i < r.len() && r[i] == (o, v);
        assert(r[i].0 == l[i].0 && cloned(r[i].1, l[i].1));
        assert(list[i].0@ == o);
    }
}

} // verus!
