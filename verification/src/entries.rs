//! Keyed entries in ascending key order, as the trees are specified over.

use vstd::prelude::*;

use crate::bytes;

verus! {

/// What a tree holds, in the order a walk hands it out.
pub type Entries<V> = Seq<(Seq<u8>, V)>;

/// Every key sorts before the ones that follow it.
pub open spec fn sorted<V>(e: Entries<V>) -> bool {
    forall|i: int, j: int| #![trigger e[i], e[j]] 0 <= i < j < e.len() ==> bytes::lt(e[i].0, e[j].0)
}

/// Everything before `i` sorts before `k` and nothing from `i` on does.
pub open spec fn place<V>(e: Entries<V>, k: Seq<u8>, i: int) -> bool {
    &&& 0 <= i <= e.len()
    &&& forall|j: int| 0 <= j < i ==> bytes::lt((#[trigger] e[j]).0, k)
    &&& forall|j: int| i <= j < e.len() ==> !bytes::lt((#[trigger] e[j]).0, k)
}

/// Where `k` sits, or where it would go.
pub open spec fn slot<V>(e: Entries<V>, k: Seq<u8>) -> int {
    choose|i: int| place(e, k, i)
}

/// The value at `k`.
pub open spec fn get<V>(e: Entries<V>, k: Seq<u8>) -> Option<V> {
    let i = slot(e, k);
    if 0 <= i < e.len() && e[i].0 == k {
        Some(e[i].1)
    } else {
        None
    }
}

/// The entries with `v` at `k`.
pub open spec fn put<V>(e: Entries<V>, k: Seq<u8>, v: V) -> Entries<V> {
    let i = slot(e, k);
    if 0 <= i < e.len() && e[i].0 == k {
        e.update(i, (k, v))
    } else {
        e.insert(i, (k, v))
    }
}

/// The entries without `k`.
pub open spec fn del<V>(e: Entries<V>, k: Seq<u8>) -> Entries<V> {
    let i = slot(e, k);
    if 0 <= i < e.len() && e[i].0 == k {
        e.remove(i)
    } else {
        e
    }
}

/// The entries as a map.
pub open spec fn to_map<V>(e: Entries<V>) -> Map<Seq<u8>, V> {
    Map::new(|k: Seq<u8>| get(e, k) is Some, |k: Seq<u8>| get(e, k)->0)
}

/// The entries from the first one at or after `k`.
pub open spec fn run_from<V>(e: Entries<V>, k: Seq<u8>) -> Entries<V> {
    e.subrange(slot(e, k), e.len() as int)
}

/// The entries whose keys start with `p`.
pub open spec fn under<V>(e: Entries<V>, p: Seq<u8>) -> Entries<V> {
    e.filter(|x: (Seq<u8>, V)| bytes::begins(x.0, p))
}

/// The entries up to the first one whose key does not start with `p`.
pub open spec fn lead<V>(e: Entries<V>, p: Seq<u8>) -> Entries<V>
    decreases e.len(),
{
    if e.len() == 0 || !bytes::begins(e[0].0, p) {
        Seq::empty()
    } else {
        seq![e[0]] + lead(e.subrange(1, e.len() as int), p)
    }
}

/// The entries of a list of keys and values.
pub open spec fn listed<V>(list: Seq<(Vec<u8>, V)>) -> Entries<V> {
    Seq::new(list.len(), |i: int| (list[i].0@, list[i].1))
}

/// `k` is one of the keys.
pub open spec fn among(keys: Seq<Vec<u8>>, k: Seq<u8>) -> bool {
    exists|i: int| 0 <= i < keys.len() && (#[trigger] keys[i])@ == k
}

/// `b` is `a` with every value cloned.
pub open spec fn copied<V: Clone>(a: Entries<V>, b: Entries<V>) -> bool {
    &&& a.len() == b.len()
    &&& forall|i: int|
        #![trigger a[i]]
        #![trigger b[i]]
        0 <= i < a.len() ==> a[i].0 == b[i].0 && cloned(a[i].1, b[i].1)
}

pub proof fn lemma_among_push(keys: Seq<Vec<u8>>, key: Vec<u8>, k: Seq<u8>)
    ensures
        among(keys.push(key), k) == (among(keys, k) || key@ == k),
{
    let more = keys.push(key);
    if among(keys, k) {
        let i = choose|i: int| 0 <= i < keys.len() && (#[trigger] keys[i])@ == k;
        assert(more[i]@ == k);
    }
    if key@ == k {
        assert(more[keys.len() as int]@ == k);
    }
    if among(more, k) {
        let i = choose|i: int| 0 <= i < more.len() && (#[trigger] more[i])@ == k;
        if i < keys.len() {
            assert(keys[i]@ == k);
        }
    }
}

pub proof fn lemma_slot<V>(e: Entries<V>, k: Seq<u8>, i: int)
    requires
        place(e, k, i),
    ensures
        slot(e, k) == i,
{
    let s = slot(e, k);
    assert(place(e, k, s));
    if s < i {
        assert(bytes::lt(e[s].0, k));
    }
    if i < s {
        assert(bytes::lt(e[i].0, k));
    }
}

/// Sorted entries have a slot for every key.
pub proof fn lemma_slot_exists<V>(e: Entries<V>, k: Seq<u8>)
    requires
        sorted(e),
    ensures
        place(e, k, slot(e, k)),
    decreases e.len(),
{
    broadcast use crate::bytes::group_order;

    if e.len() == 0 {
        assert(place(e, k, 0));
    } else {
        let p = e.drop_last();
        lemma_slot_exists(p, k);
        let i = slot(p, k);
        if bytes::lt(e.last().0, k) {
            assert forall|j: int| 0 <= j < e.len() implies bytes::lt((#[trigger] e[j]).0, k) by {
                if j < e.len() - 1 {
                    assert(bytes::lt(e[j].0, e[e.len() - 1].0));
                }
            }
            assert(place(e, k, e.len() as int));
        } else {
            assert forall|j: int| 0 <= j < i implies bytes::lt((#[trigger] e[j]).0, k) by {
                assert(p[j] == e[j]);
            }
            assert forall|j: int| i <= j < e.len() implies !bytes::lt((#[trigger] e[j]).0, k) by {
                if j < e.len() - 1 {
                    assert(p[j] == e[j]);
                }
            }
            assert(place(e, k, i));
        }
    }
}

/// A key that is there is found where it is.
pub proof fn lemma_found<V>(e: Entries<V>, i: int)
    requires
        sorted(e),
        0 <= i < e.len(),
    ensures
        slot(e, e[i].0) == i,
        get(e, e[i].0) == Some(e[i].1),
{
    broadcast use crate::bytes::group_order;

    let k = e[i].0;
    assert forall|j: int| 0 <= j < i implies bytes::lt((#[trigger] e[j]).0, k) by {
        assert(bytes::lt(e[j].0, e[i].0));
    }
    assert forall|j: int| i <= j < e.len() implies !bytes::lt((#[trigger] e[j]).0, k) by {
        if j > i {
            assert(bytes::lt(e[i].0, e[j].0));
        }
    }
    lemma_slot(e, k, i);
}

/// A key that is nowhere is not found.
pub proof fn lemma_missing<V>(e: Entries<V>, k: Seq<u8>)
    requires
        forall|j: int| 0 <= j < e.len() ==> (#[trigger] e[j]).0 != k,
    ensures
        get(e, k) is None,
{
}

/// A key that is found is somewhere.
pub proof fn lemma_get_index<V>(e: Entries<V>, k: Seq<u8>) -> (i: int)
    requires
        get(e, k) is Some,
    ensures
        0 <= i < e.len(),
        e[i] == (k, get(e, k)->0),
        i == slot(e, k),
{
    slot(e, k)
}

/// Writing one key leaves the rest as they were.
pub proof fn lemma_put<V>(e: Entries<V>, k: Seq<u8>, v: V)
    requires
        sorted(e),
    ensures
        sorted(put(e, k, v)),
        to_map(put(e, k, v)) == to_map(e).insert(k, v),
        forall|o: Seq<u8>| #[trigger]
            get(put(e, k, v), o) == (if o == k {
                Some(v)
            } else {
                get(e, o)
            }),
{
    broadcast use crate::bytes::group_order;

    lemma_slot_exists(e, k);
    let i = slot(e, k);
    let n = put(e, k, v);
    let there = i < e.len() && e[i].0 == k;
    assert forall|a: int, b: int| 0 <= a < b < n.len() implies bytes::lt(
        (#[trigger] n[a]).0,
        (#[trigger] n[b]).0,
    ) by {
        if there {
            assert(bytes::lt(e[a].0, e[b].0));
        } else {
            let x = if a < i { a } else { a - 1 };
            let y = if b < i { b } else { b - 1 };
            if a != i && b != i {
                assert(bytes::lt(e[x].0, e[y].0));
            } else if a == i {
                assert(!bytes::lt(e[y].0, k));
                assert(e[y].0 != k) by {
                    if y > i {
                        assert(bytes::lt(e[i].0, e[y].0));
                    }
                }
            } else {
                assert(bytes::lt(e[x].0, k));
            }
        }
    }
    assert forall|o: Seq<u8>| #[trigger]
        get(n, o) == (if o == k {
            Some(v)
        } else {
            get(e, o)
        }) by {
        if o == k {
            assert(n[i] == (k, v));
            lemma_found(n, i);
        } else {
            if get(e, o) is Some {
                let j = lemma_get_index(e, o);
                let m = if there || j < i { j } else { j + 1 };
                assert(n[m] == e[j]);
                lemma_found(n, m);
            } else if get(n, o) is Some {
                let m = lemma_get_index(n, o);
                let j = if there || m < i { m } else { m - 1 };
                assert(n[m] == e[j]);
                lemma_found(e, j);
            }
        }
    }
    assert(to_map(n) =~= to_map(e).insert(k, v));
}

/// Removing one key leaves the rest as they were.
pub proof fn lemma_del<V>(e: Entries<V>, k: Seq<u8>)
    requires
        sorted(e),
    ensures
        sorted(del(e, k)),
        to_map(del(e, k)) == to_map(e).remove(k),
        forall|o: Seq<u8>| #[trigger]
            get(del(e, k), o) == (if o == k {
                None
            } else {
                get(e, o)
            }),
{
    broadcast use crate::bytes::group_order;

    lemma_slot_exists(e, k);
    let i = slot(e, k);
    let n = del(e, k);
    let there = i < e.len() && e[i].0 == k;
    assert forall|a: int, b: int| 0 <= a < b < n.len() implies bytes::lt(
        (#[trigger] n[a]).0,
        (#[trigger] n[b]).0,
    ) by {
        if there {
            let x = if a < i { a } else { a + 1 };
            let y = if b < i { b } else { b + 1 };
            assert(bytes::lt(e[x].0, e[y].0));
        } else {
            assert(bytes::lt(e[a].0, e[b].0));
        }
    }
    assert forall|o: Seq<u8>| #[trigger]
        get(n, o) == (if o == k {
            None
        } else {
            get(e, o)
        }) by {
        if o == k {
            if get(n, o) is Some {
                let m = lemma_get_index(n, o);
                if there {
                    let j = if m < i { m } else { m + 1 };
                    assert(n[m] == e[j]);
                    lemma_found(e, j);
                }
            }
        } else {
            if get(e, o) is Some {
                let j = lemma_get_index(e, o);
                let m = if !there || j < i { j } else { j - 1 };
                assert(n[m] == e[j]);
                lemma_found(n, m);
            } else if get(n, o) is Some {
                let m = lemma_get_index(n, o);
                let j = if !there || m < i { m } else { m + 1 };
                assert(n[m] == e[j]);
                lemma_found(e, j);
            }
        }
    }
    assert(to_map(n) =~= to_map(e).remove(k));
}

/// The slot of a key is in the run that everything else sorts away from it of.
proof fn lemma_middle_slot<V>(a: Entries<V>, c: Entries<V>, b: Entries<V>, k: Seq<u8>)
    requires
        sorted(c),
        forall|i: int| 0 <= i < a.len() ==> bytes::lt((#[trigger] a[i]).0, k),
        forall|i: int| 0 <= i < b.len() ==> bytes::lt(k, (#[trigger] b[i]).0),
    ensures
        0 <= slot(c, k) <= c.len(),
        slot(a + c + b, k) == a.len() + slot(c, k),
{
    broadcast use crate::bytes::group_order;

    lemma_slot_exists(c, k);
    let e = a + c + b;
    let s = a.len() + slot(c, k);
    assert forall|j: int| 0 <= j < s implies bytes::lt((#[trigger] e[j]).0, k) by {
        if j < a.len() {
            assert(e[j] == a[j]);
        } else {
            assert(e[j] == c[j - a.len()]);
        }
    }
    assert forall|j: int| s <= j < e.len() implies !bytes::lt((#[trigger] e[j]).0, k) by {
        if j < a.len() + c.len() {
            assert(e[j] == c[j - a.len()]);
        } else {
            assert(e[j] == b[j - a.len() - c.len()]);
        }
    }
    lemma_slot(e, k, s);
}

/// A run that everything else sorts away from `k` of is the only one a read or
/// a write of `k` touches.
pub proof fn lemma_middle<V>(a: Entries<V>, c: Entries<V>, b: Entries<V>, k: Seq<u8>)
    requires
        sorted(c),
        forall|i: int| 0 <= i < a.len() ==> bytes::lt((#[trigger] a[i]).0, k),
        forall|i: int| 0 <= i < b.len() ==> bytes::lt(k, (#[trigger] b[i]).0),
    ensures
        slot(a + c + b, k) == a.len() + slot(c, k),
        get(a + c + b, k) == get(c, k),
        del(a + c + b, k) == a + del(c, k) + b,
        forall|v: V| #[trigger] put(a + c + b, k, v) == a + put(c, k, v) + b,
{
    lemma_middle_slot(a, c, b, k);
    let i = slot(c, k);
    let e = a + c + b;
    let s = a.len() + i;
    let there = i < c.len() && c[i].0 == k;
    assert((s < e.len() && e[s].0 == k) == there) by {
        broadcast use crate::bytes::group_order;

        if i < c.len() {
            assert(e[s] == c[i]);
        } else if b.len() > 0 {
            assert(e[s] == b[0]);
            assert(b[0].0 != k);
        }
    }
    if there {
        assert(e[s] == c[i]);
        assert(e.remove(s) =~= a + c.remove(i) + b);
    }
    assert forall|v: V| #[trigger] put(e, k, v) == a + put(c, k, v) + b by {
        if there {
            assert(e.update(s, (k, v)) =~= a + c.update(i, (k, v)) + b);
        } else {
            assert(e.insert(s, (k, v)) =~= a + c.insert(i, (k, v)) + b);
        }
    }
}

/// The run from `k` on starts in the middle.
pub proof fn lemma_middle_run<V>(a: Entries<V>, c: Entries<V>, b: Entries<V>, k: Seq<u8>)
    requires
        sorted(c),
        forall|i: int| 0 <= i < a.len() ==> bytes::lt((#[trigger] a[i]).0, k),
        forall|i: int| 0 <= i < b.len() ==> bytes::lt(k, (#[trigger] b[i]).0),
    ensures
        run_from(a + c + b, k) == run_from(c, k) + b,
{
    lemma_middle(a, c, b, k);
    lemma_slot_exists(c, k);
    assert(run_from(a + c + b, k) =~= run_from(c, k) + b);
}

/// What a run from `k` on holds: the entries at or after `k`, sorted.
pub proof fn lemma_run<V>(e: Entries<V>, k: Seq<u8>)
    requires
        sorted(e),
    ensures
        place(e, k, slot(e, k)),
        sorted(run_from(e, k)),
        forall|i: int| 0 <= i < run_from(e, k).len() ==> !bytes::lt((#[trigger] run_from(e, k)[i]).0, k),
        forall|o: Seq<u8>| !bytes::lt(o, k) ==> #[trigger] get(run_from(e, k), o) == get(e, o),
{
    broadcast use crate::bytes::group_order;

    lemma_slot_exists(e, k);
    let s = slot(e, k);
    let r = run_from(e, k);
    assert forall|i: int, j: int| 0 <= i < j < r.len() implies bytes::lt(
        (#[trigger] r[i]).0,
        (#[trigger] r[j]).0,
    ) by {
        assert(r[i] == e[s + i] && r[j] == e[s + j]);
    }
    assert forall|i: int| 0 <= i < r.len() implies !bytes::lt((#[trigger] r[i]).0, k) by {
        assert(r[i] == e[s + i]);
    }
    assert forall|o: Seq<u8>| !bytes::lt(o, k) implies #[trigger] get(r, o) == get(e, o) by {
        if get(e, o) is Some {
            let i = lemma_get_index(e, o);
            assert(i >= s);
            assert(r[i - s] == e[i]);
            lemma_found(r, i - s);
        } else if get(r, o) is Some {
            let i = lemma_get_index(r, o);
            assert(r[i] == e[s + i]);
            lemma_found(e, s + i);
        }
    }
}

pub proof fn lemma_filter_none<T>(e: Seq<T>, f: spec_fn(T) -> bool)
    requires
        forall|i: int| 0 <= i < e.len() ==> !f(#[trigger] e[i]),
    ensures
        e.filter(f) == Seq::<T>::empty(),
    decreases e.len(),
{
    reveal(Seq::filter);
    if e.len() > 0 {
        lemma_filter_none(e.drop_last(), f);
        assert(!f(e[e.len() - 1]));
    }
}

pub proof fn lemma_filter_all<T>(e: Seq<T>, f: spec_fn(T) -> bool)
    requires
        forall|i: int| 0 <= i < e.len() ==> f(#[trigger] e[i]),
    ensures
        e.filter(f) == e,
    decreases e.len(),
{
    reveal(Seq::filter);
    if e.len() > 0 {
        lemma_filter_all(e.drop_last(), f);
        assert(f(e[e.len() - 1]));
        assert(e =~= e.drop_last().push(e.last()));
    }
}

proof fn lemma_lead<V>(e: Entries<V>, p: Seq<u8>) -> (n: int)
    ensures
        0 <= n <= e.len(),
        lead(e, p) == e.subrange(0, n),
        forall|i: int| 0 <= i < n ==> bytes::begins((#[trigger] e[i]).0, p),
        n < e.len() ==> !bytes::begins(e[n].0, p),
    decreases e.len(),
{
    if e.len() == 0 || !bytes::begins(e[0].0, p) {
        assert(e.subrange(0, 0) =~= Seq::empty());
        0
    } else {
        let t = e.subrange(1, e.len() as int);
        let n = lemma_lead(t, p);
        assert forall|i: int| 0 <= i < n + 1 implies bytes::begins((#[trigger] e[i]).0, p) by {
            if i > 0 {
                assert(t[i - 1] == e[i]);
            }
        }
        assert(lead(e, p) =~= e.subrange(0, n + 1));
        n + 1
    }
}

/// Nothing before the place of `p` starts with it.
proof fn lemma_none_before<V>(e: Entries<V>, p: Seq<u8>, i: int)
    requires
        bytes::lt(e[i].0, p),
    ensures
        !bytes::begins(e[i].0, p),
{
    if bytes::begins(e[i].0, p) {
        bytes::lemma_begins_le(p, e[i].0);
    }
}

/// The entries under a prefix are one run: the one that leads what is at or
/// after the prefix.
pub proof fn lemma_under<V>(e: Entries<V>, p: Seq<u8>)
    requires
        sorted(e),
    ensures
        under(e, p) == lead(run_from(e, p), p),
{
    lemma_slot_exists(e, p);
    let s = slot(e, p);
    let r = e.subrange(s, e.len() as int);
    let n = lemma_lead(r, p);
    lemma_under_at(e, p, s, n);
}

proof fn lemma_under_at<V>(e: Entries<V>, p: Seq<u8>, s: int, n: int)
    requires
        sorted(e),
        place(e, p, s),
        0 <= n <= e.len() - s,
        forall|i: int|
            0 <= i < n ==> bytes::begins((#[trigger] e.subrange(s, e.len() as int)[i]).0, p),
        n < e.len() - s ==> !bytes::begins(e.subrange(s, e.len() as int)[n].0, p),
    ensures
        under(e, p) == e.subrange(s, e.len() as int).subrange(0, n),
{
    let f = |x: (Seq<u8>, V)| bytes::begins(x.0, p);
    let r = e.subrange(s, e.len() as int);
    let a = e.subrange(0, s);
    let b = r.subrange(0, n);
    let c = e.subrange(s + n, e.len() as int);
    assert forall|i: int| 0 <= i < a.len() implies !f(#[trigger] a[i]) by {
        assert(a[i] == e[i]);
        lemma_none_before(e, p, i);
    }
    assert forall|i: int| 0 <= i < b.len() implies f(#[trigger] b[i]) by {
        assert(b[i] == r[i]);
    }
    assert forall|i: int| 0 <= i < c.len() implies !f(#[trigger] c[i]) by {
        assert(c[i] == e[s + n + i]);
        assert(r[n] == e[s + n]);
        lemma_lead_ends(e, p, s + n, s + n + i);
    }
    assert(e =~= a + b + c);
    lemma_filter_middle(a, b, c, f);
}

/// Past the first key at or after `p` that does not start with it no other
/// does.
pub proof fn lemma_lead_ends<V>(r: Entries<V>, p: Seq<u8>, n: int, i: int)
    requires
        sorted(r),
        0 <= n <= i < r.len(),
        !bytes::lt(r[n].0, p),
        !bytes::begins(r[n].0, p),
    ensures
        !bytes::begins(r[i].0, p),
{
    broadcast use crate::bytes::group_order;

    if bytes::begins(r[i].0, p) {
        assert(i > n);
        assert(bytes::lt(r[n].0, r[i].0));
        bytes::lemma_begins_run(p, r[n].0, r[i].0);
    }
}

/// A filter that only a run in the middle passes leaves that run.
pub proof fn lemma_filter_middle<T>(
    a: Seq<T>,
    b: Seq<T>,
    c: Seq<T>,
    f: spec_fn(T) -> bool,
)
    requires
        forall|i: int| 0 <= i < a.len() ==> !f(#[trigger] a[i]),
        forall|i: int| 0 <= i < b.len() ==> f(#[trigger] b[i]),
        forall|i: int| 0 <= i < c.len() ==> !f(#[trigger] c[i]),
    ensures
        (a + b + c).filter(f) == b,
{
    lemma_filter_none(a, f);
    lemma_filter_all(b, f);
    lemma_filter_none(c, f);
    Seq::filter_distributes_over_add(a, b, f);
    Seq::filter_distributes_over_add(a + b, c, f);
    assert((a + b + c).filter(f) =~= b);
}

/// The length of the map is the number of entries.
pub proof fn lemma_map_len<V>(e: Entries<V>)
    requires
        sorted(e),
    ensures
        to_map(e).dom().finite(),
        to_map(e).dom().len() == e.len(),
    decreases e.len(),
{
    if e.len() == 0 {
        assert(to_map(e).dom() =~= Set::empty());
    } else {
        let i = e.len() - 1;
        lemma_found(e, i);
        let k = e[i].0;
        lemma_del(e, k);
        lemma_map_len(del(e, k));
        assert(to_map(e).dom() =~= to_map(del(e, k)).dom().insert(k));
    }
}

/// Sorted entries are determined by the map they make.
pub proof fn lemma_same_map<V>(a: Entries<V>, b: Entries<V>)
    requires
        sorted(a),
        sorted(b),
        to_map(a) == to_map(b),
    ensures
        a == b,
    decreases a.len(),
{
    broadcast use crate::bytes::group_order;

    lemma_map_len(a);
    lemma_map_len(b);
    if a.len() > 0 {
        let i = a.len() - 1;
        let k = a[i].0;
        lemma_found(a, i);
        assert(to_map(b).contains_key(k));
        let j = lemma_get_index(b, k);
        if j < b.len() - 1 {
            let m = b.len() - 1;
            let last = b[m].0;
            lemma_found(b, m);
            assert(to_map(a).contains_key(last));
            let n = lemma_get_index(a, last);
            assert(bytes::lt(b[j].0, b[m].0));
            if n < i {
                assert(bytes::lt(a[n].0, a[i].0));
            }
            assert(false);
        }
        assert(to_map(a)[k] == to_map(b)[k]);
        assert(a[i] == (k, to_map(a)[k]));
        assert(b[j] == (k, to_map(b)[k]));
        lemma_del(a, k);
        lemma_del(b, k);
        lemma_same_map(del(a, k), del(b, k));
        assert(a =~= del(a, k).push(a[i]));
        assert(b =~= del(b, k).push(b[j]));
    } else {
        assert(a =~= b);
    }
}

} // verus!
