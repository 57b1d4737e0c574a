//! Secondary indexes: which keys a value is listed under, and the entries that
//! say so.

use std::sync::Arc;

use vstd::prelude::*;
use vstd::slice::slice_subrange;

use crate::bytes;
use crate::bytes::{compare, owned, starts_with, Side};
use crate::db::index;
use crate::db::index::{index_entry, index_prefix};
use crate::db::row;
use crate::db::row::{History, Row, Version};
use crate::db::rows;
use crate::db::rows::{swept, write_row};
use crate::db::{Key, Revision};
use crate::entries;
use crate::entries::Entries;
use crate::tree;
use crate::tree::Tree;

verus! {

/// A secondary index: a name and the index keys one value is listed under.
///
/// Non-unique. A value may yield zero, one, or several keys, and several values
/// may share a key. `keys` must be a pure function of the value: a replaced
/// value's entries are removed by calling it again on the old value.
pub struct Index<X> {
    pub name: &'static str,
    pub keys: X,
}

impl<X: Copy> Clone for Index<X> {
    fn clone(&self) -> (index: Self)
        ensures
            index == *self,
    {
        *self
    }
}

impl<X: Copy> Copy for Index<X> {

}

/// `keys` lists `value` under `k`.
pub open spec fn lists<V, X: Fn(&V) -> Vec<Key>>(keys: X, value: V, k: Seq<u8>) -> bool {
    exists|ks: Vec<Key>| #[trigger] call_ensures(keys, (&value,), ks) && entries::among(ks@, k)
}

/// The same for a value that may not be there.
pub open spec fn lists_held<V, X: Fn(&V) -> Vec<Key>>(
    keys: X,
    value: Option<Arc<V>>,
    k: Seq<u8>,
) -> bool {
    value is Some && lists(keys, *value->0, k)
}

/// One value is listed under a key that the other is not listed under.
pub open spec fn loses<V, X: Fn(&V) -> Vec<Key>>(
    keys: X,
    had: Option<Arc<V>>,
    is: Option<Arc<V>>,
) -> bool {
    exists|k: Seq<u8>| #[trigger] lists_held(keys, had, k) && !lists_held(keys, is, k)
}

/// `keys` takes every value, says the same of it every time, and yields no key
/// of 4 GiB or more.
pub open spec fn pure<V, X: Fn(&V) -> Vec<Key>>(keys: X) -> bool {
    &&& forall|value: &V| #[trigger] call_requires(keys, (value,))
    &&& forall|value: &V, a: Vec<Key>, b: Vec<Key>, k: Seq<u8>|
        #![trigger call_ensures(keys, (value,), a), call_ensures(keys, (value,), b), entries::among(a@, k)]
        call_ensures(keys, (value,), a) && call_ensures(keys, (value,), b) && entries::among(a@, k)
            ==> entries::among(b@, k)
    &&& forall|value: &V, a: Vec<Key>, k: Seq<u8>|
        #![trigger call_ensures(keys, (value,), a), entries::among(a@, k)]
        call_ensures(keys, (value,), a) && entries::among(a@, k) ==> k.len() <= u32::MAX
}

/// What a call of `keys` returns is what it lists the value under.
proof fn lemma_lists<V, X: Fn(&V) -> Vec<Key>>(keys: X, value: &V, ks: Vec<Key>)
    requires
        pure::<V, X>(keys),
        call_ensures(keys, (value,), ks),
    ensures
        forall|k: Seq<u8>| #[trigger] entries::among(ks@, k) == lists(keys, *value, k),
{
    assert forall|k: Seq<u8>| #[trigger] entries::among(ks@, k) == lists(keys, *value, k) by {
        if lists(keys, *value, k) {
            let other = choose|other: Vec<Key>| #[trigger]
                call_ensures(keys, (value,), other) && entries::among(other@, k);
            assert(entries::among(other@, k));
        }
    }
}

// -------------------------------------------------------------- sorted keys

/// The keys of a list.
pub open spec fn views(keys: Seq<Key>) -> Seq<Seq<u8>> {
    Seq::new(keys.len(), |i: int| keys[i]@)
}

/// Where `key` sits in `keys`, or where it would go.
fn search(keys: &Vec<Key>, key: &[u8]) -> (place: Result<usize, usize>)
    requires
        bytes::ascending(views(keys@)),
    ensures
        match place {
            Ok(at) => at < keys@.len() && keys@[at as int]@ == key@,
            Err(at) => {
                &&& at <= keys@.len()
                &&& !entries::among(keys@, key@)
                &&& forall|i: int| 0 <= i < at ==> bytes::lt(#[trigger] views(keys@)[i], key@)
                &&& forall|i: int|
                    at <= i < keys@.len() ==> bytes::lt(key@, #[trigger] views(keys@)[i])
            },
        },
{
    broadcast use crate::bytes::group_order;

    let mut low: usize = 0;
    let mut high: usize = keys.len();
    while low < high
        invariant
            low <= high <= keys@.len(),
            bytes::ascending(views(keys@)),
            forall|i: int| 0 <= i < low ==> bytes::lt(#[trigger] views(keys@)[i], key@),
            forall|i: int| high <= i < keys@.len() ==> bytes::lt(key@, #[trigger] views(keys@)[i]),
        decreases high - low,
    {
        broadcast use crate::bytes::group_order;

        let mid = low + (high - low) / 2;
        let ghost v = views(keys@);
        assert(v[mid as int] == keys@[mid as int]@);
        match compare(keys[mid].as_slice(), key) {
            Side::Before => {
                assert forall|i: int| 0 <= i < mid + 1 implies bytes::lt(
                    #[trigger] v[i],
                    key@,
                ) by {
                    if i < mid {
                        assert(bytes::lt(v[i], v[mid as int]));
                    }
                }
                low = mid + 1;
            },
            Side::After => {
                assert forall|i: int| mid <= i < keys@.len() implies bytes::lt(
                    key@,
                    #[trigger] v[i],
                ) by {
                    if i > mid {
                        assert(bytes::lt(v[mid as int], v[i]));
                    }
                }
                high = mid;
            },
            Side::Same => {
                return Ok(mid);
            },
        }
    }
    proof {
        if entries::among(keys@, key@) {
            let i = choose|i: int| 0 <= i < keys@.len() && (#[trigger] keys@[i])@ == key@;
            assert(views(keys@)[i] == key@);
        }
    }
    Err(low)
}

/// Whether `key` is one of the sorted `keys`.
fn holds(keys: &Vec<Key>, key: &[u8]) -> (there: bool)
    requires
        bytes::ascending(views(keys@)),
    ensures
        there == entries::among(keys@, key@),
{
    match search(keys, key) {
        Ok(_) => true,
        Err(_) => false,
    }
}

/// One value's index keys, each once and in order.
pub fn sorted(keys: &Vec<Key>) -> (list: Vec<Key>)
    ensures
        bytes::ascending(views(list@)),
        forall|k: Seq<u8>| #[trigger] entries::among(list@, k) == entries::among(keys@, k),
{
    let mut list: Vec<Key> = Vec::new();
    let n = keys.len();
    for at in 0..n
        invariant
            n == keys@.len(),
            bytes::ascending(views(list@)),
            forall|k: Seq<u8>| #[trigger]
                entries::among(list@, k) == entries::among(keys@.subrange(0, at as int), k),
    {
        broadcast use crate::bytes::group_order;

        let ghost was = list@;
        let ghost a = keys@.subrange(0, at as int);
        let ghost b = keys@.subrange(0, at + 1);
        let key = owned(keys[at].as_slice());
        let ghost view = key@;
        if let Err(place) = search(&list, key.as_slice()) {
            list.insert(place, key);
            proof {
                let v = views(was);
                let n = views(list@);
                assert forall|i: int, j: int| 0 <= i < j < n.len() implies bytes::lt(
                    #[trigger] n[i],
                    #[trigger] n[j],
                ) by {
                    let x = if i < place { i } else { i - 1 };
                    let y = if j < place { j } else { j - 1 };
                    if i != place {
                        assert(n[i] == v[x]);
                    }
                    if j != place {
                        assert(n[j] == v[y]);
                    }
                }
                assert forall|k: Seq<u8>| #[trigger]
                    entries::among(list@, k) == entries::among(b, k) by {
                    lemma_among_insert(was, place as int, key, k);
                    entries::lemma_among_push(a, keys@[at as int], k);
                    assert(b =~= a.push(keys@[at as int]));
                }
            }
        } else {
            proof {
                assert forall|k: Seq<u8>| #[trigger]
                    entries::among(list@, k) == entries::among(b, k) by {
                    entries::lemma_among_push(a, keys@[at as int], k);
                    assert(b =~= a.push(keys@[at as int]));
                    assert(entries::among(list@, view));
                }
            }
        }
    }
    assert(keys@.subrange(0, n as int) =~= keys@);
    list
}

proof fn lemma_among_insert(keys: Seq<Key>, at: int, key: Key, k: Seq<u8>)
    requires
        0 <= at <= keys.len(),
    ensures
        entries::among(keys.insert(at, key), k) == (entries::among(keys, k) || key@ == k),
{
    let more = keys.insert(at, key);
    if entries::among(keys, k) {
        let i = choose|i: int| 0 <= i < keys.len() && (#[trigger] keys[i])@ == k;
        assert(more[if i < at { i } else { i + 1 }]@ == k);
    }
    if key@ == k {
        assert(more[at]@ == k);
    }
    if entries::among(more, k) {
        let i = choose|i: int| 0 <= i < more.len() && (#[trigger] more[i])@ == k;
        if i < at {
            assert(keys[i]@ == k);
        } else if i > at {
            assert(keys[i - 1]@ == k);
        }
    }
}

// ------------------------------------------------------------------ listings

/// The version an index entry takes. An entry says only that its primary key
/// was listed at that revision; the value it resolves to is in the row.
fn listed(revision: Revision, deleted: bool) -> (version: Version<()>)
    ensures
        version == mark(revision, deleted),
{
    Version { revision, value: Arc::new(()), deleted }
}

/// The same, as the contracts speak of it.
pub open spec fn mark(revision: Revision, deleted: bool) -> Version<()> {
    Version { revision, value: arbitrary(), deleted }
}

/// What becomes of an entry's history when its primary key goes from being
/// listed, or not (`had`), to being listed, or not (`is`).
pub open spec fn relisted(
    was: History<()>,
    had: bool,
    is: bool,
    revision: Revision,
    compacted: Revision,
) -> History<()> {
    if had == is {
        was
    } else {
        row::grown(was, mark(revision, had), compacted)
    }
}

/// One index: what it is, and its entries. The key of an entry is
/// `entry_key(index key, primary key)` and there is no value.
pub struct Listing<X> {
    def: Index<X>,
    tree: Tree<Row<()>>,
}

impl<X> Listing<X> {
    /// The history of the entry for `p` under `k`.
    pub closed spec fn at(&self, k: Seq<u8>, p: Seq<u8>) -> History<()> {
        rows::history(self.tree.entries(), index::entry_key(k, p))
    }

    pub closed spec fn name(&self) -> Seq<char> {
        self.def.name@
    }

    pub closed spec fn keys(&self) -> X {
        self.def.keys
    }

    /// Every entry is for an index key and a primary key.
    pub closed spec fn wf(&self) -> bool {
        &&& rows::rows_wf(&self.tree)
        &&& forall|o: Seq<u8>| #[trigger]
            entries::get(self.tree.entries(), o) is Some ==> exists|k: Seq<u8>, p: Seq<u8>|
                k.len() <= u32::MAX && o == #[trigger] index::entry_key(k, p)
    }

    pub fn new(def: Index<X>) -> (listing: Self)
        ensures
            listing.wf(),
            listing.name() == def.name@,
            listing.keys() == def.keys,
            forall|k: Seq<u8>, p: Seq<u8>| #[trigger] listing.at(k, p).len() == 0,
    {
        Listing { def, tree: Tree::new() }
    }

    /// Whether this is the index called `name`.
    pub fn called(&self, name: &str) -> (yes: bool)
        ensures
            yes == (self.name() == name@),
    {
        same_name(self.def.name, name)
    }

    /// The index keys of a value, each once and in order.
    fn keys_of<V>(&self, value: &Option<Arc<V>>) -> (list: Vec<Key>)
        where
            X: Fn(&V) -> Vec<Key>,
        requires
            pure::<V, X>(self.keys()),
        ensures
            bytes::ascending(views(list@)),
            forall|k: Seq<u8>| #[trigger]
                entries::among(list@, k) == lists_held(self.keys(), *value, k),
            forall|k: Seq<u8>| #[trigger] entries::among(list@, k) ==> k.len() <= u32::MAX,
    {
        match value {
            Some(value) => {
                let keys = (self.def.keys)(&**value);
                proof {
                    lemma_lists(self.def.keys, &**value, keys);
                }
                sorted(&keys)
            },
            None => Vec::new(),
        }
    }

    /// Moves `key`'s entries from the value its row held to the one it holds
    /// now, at `revision`. An entry both values are listed under is left alone.
    /// Returns whether an entry was tombstoned.
    pub fn reindex<V>(
        &mut self,
        key: &[u8],
        had: &Option<Arc<V>>,
        is: &Option<Arc<V>>,
        revision: Revision,
        compacted: Revision,
    ) -> (tombstoned: bool)
        where
            X: Fn(&V) -> Vec<Key>,
        requires
            old(self).wf(),
            pure::<V, X>(old(self).keys()),
        ensures
            final(self).wf(),
            final(self).name() == old(self).name(),
            final(self).keys() == old(self).keys(),
            forall|k: Seq<u8>|
                k.len() <= u32::MAX ==> #[trigger] final(self).at(k, key@) == relisted(
                    old(self).at(k, key@),
                    lists_held(old(self).keys(), *had, k),
                    lists_held(old(self).keys(), *is, k),
                    revision,
                    compacted,
                ),
            forall|k: Seq<u8>, p: Seq<u8>|
                k.len() <= u32::MAX && p != key@ ==> #[trigger] final(self).at(k, p) == old(
                    self,
                ).at(k, p),
            tombstoned == loses(old(self).keys(), *had, *is),
    {
        let old_keys = self.keys_of(had);
        let new_keys = self.keys_of(is);
        let gone = self.mark(key, &old_keys, &new_keys, true, revision, compacted);
        let ghost mid = *self;
        let came = self.mark(key, &new_keys, &old_keys, false, revision, compacted);
        proof {
            assert forall|k: Seq<u8>| k.len() <= u32::MAX implies #[trigger] self.at(k, key@)
                == relisted(
                old(self).at(k, key@),
                lists_held(old(self).keys(), *had, k),
                lists_held(old(self).keys(), *is, k),
                revision,
                compacted,
            ) by {
                assert(entries::among(old_keys@, k) == lists_held(old(self).keys(), *had, k));
                assert(entries::among(new_keys@, k) == lists_held(old(self).keys(), *is, k));
                assert(mid.at(k, key@) == marked(
                    old(self).at(k, key@),
                    entries::among(old_keys@, k) && !entries::among(new_keys@, k),
                    true,
                    revision,
                    compacted,
                ));
            }
            assert forall|k: Seq<u8>, p: Seq<u8>|
                k.len() <= u32::MAX && p != key@ implies #[trigger] self.at(k, p) == old(self).at(
                k,
                p,
            ) by {
                assert(mid.at(k, p) == old(self).at(k, p));
            }
            if beyond(old_keys@, new_keys@) {
                let k = choose|k: Seq<u8>| #[trigger]
                    entries::among(old_keys@, k) && !entries::among(new_keys@, k);
                assert(entries::among(new_keys@, k) == lists_held(old(self).keys(), *is, k));
                assert(lists_held(old(self).keys(), *had, k));
            }
            if loses(old(self).keys(), *had, *is) {
                let k = choose|k: Seq<u8>| #[trigger]
                    lists_held(old(self).keys(), *had, k) && !lists_held(old(self).keys(), *is, k);
                assert(entries::among(new_keys@, k) == lists_held(old(self).keys(), *is, k));
                assert(entries::among(old_keys@, k));
            }
        }
        gone
    }

    /// Puts a version at the head of `key`'s entry under each of `keys` that is
    /// not one of `others`. Returns whether there was one.
    fn mark(
        &mut self,
        key: &[u8],
        keys: &Vec<Key>,
        others: &Vec<Key>,
        deleted: bool,
        revision: Revision,
        compacted: Revision,
    ) -> (any: bool)
        requires
            old(self).wf(),
            bytes::ascending(views(keys@)),
            bytes::ascending(views(others@)),
            forall|k: Seq<u8>| #[trigger] entries::among(keys@, k) ==> k.len() <= u32::MAX,
        ensures
            final(self).wf(),
            final(self).def == old(self).def,
            forall|k: Seq<u8>|
                k.len() <= u32::MAX ==> #[trigger] final(self).at(k, key@) == marked(
                    old(self).at(k, key@),
                    entries::among(keys@, k) && !entries::among(others@, k),
                    deleted,
                    revision,
                    compacted,
                ),
            forall|k: Seq<u8>, p: Seq<u8>|
                k.len() <= u32::MAX && p != key@ ==> #[trigger] final(self).at(k, p) == old(
                    self,
                ).at(k, p),
            any == beyond(keys@, others@),
    {
        let ghost was = *self;
        let mut any = false;
        let n = keys.len();
        for at in 0..n
            invariant
                n == keys@.len(),
                self.wf(),
                self.def == was.def,
                bytes::ascending(views(keys@)),
                bytes::ascending(views(others@)),
                forall|k: Seq<u8>| #[trigger] entries::among(keys@, k) ==> k.len() <= u32::MAX,
                forall|k: Seq<u8>|
                    k.len() <= u32::MAX ==> #[trigger] self.at(k, key@) == marked(
                        was.at(k, key@),
                        entries::among(keys@.subrange(0, at as int), k) && !entries::among(
                            others@,
                            k,
                        ),
                        deleted,
                        revision,
                        compacted,
                    ),
                forall|k: Seq<u8>, p: Seq<u8>|
                    k.len() <= u32::MAX && p != key@ ==> #[trigger] self.at(k, p) == was.at(k, p),
                any == beyond(keys@.subrange(0, at as int), others@),
        {
            let ghost mid = *self;
            let ghost index_key = keys@[at as int]@;
            let ghost a = keys@.subrange(0, at as int);
            let ghost b = keys@.subrange(0, at + 1);
            proof {
                assert(b =~= a.push(keys@[at as int]));
                assert(keys@[at as int]@ == index_key);
                assert(entries::among(keys@, index_key));
                if entries::among(a, index_key) {
                    broadcast use crate::bytes::group_order;

                    let i = choose|i: int| 0 <= i < a.len() && (#[trigger] a[i])@ == index_key;
                    assert(bytes::lt(views(keys@)[i], views(keys@)[at as int]));
                    assert(false);
                }
            }
            if !holds(others, keys[at].as_slice()) {
                let entry = index_entry(keys[at].as_slice(), key);
                let version = listed(revision, deleted);
                write_row(&mut self.tree, entry.as_slice(), version, compacted);
                any = true;
                proof {
                    self.lemma_marked(
                        mid,
                        index_key,
                        key@,
                        version,
                        compacted,
                    );
                    assert forall|k: Seq<u8>| k.len() <= u32::MAX implies #[trigger] self.at(
                        k,
                        key@,
                    ) == marked(
                        was.at(k, key@),
                        entries::among(b, k) && !entries::among(others@, k),
                        deleted,
                        revision,
                        compacted,
                    ) by {
                        entries::lemma_among_push(a, keys@[at as int], k);
                        assert(mid.at(k, key@) == marked(
                            was.at(k, key@),
                            entries::among(a, k) && !entries::among(others@, k),
                            deleted,
                            revision,
                            compacted,
                        ));
                    }
                    assert forall|k: Seq<u8>, p: Seq<u8>|
                        k.len() <= u32::MAX && p != key@ implies #[trigger] self.at(k, p)
                        == was.at(k, p) by {
                        assert(mid.at(k, p) == was.at(k, p));
                    }
                    entries::lemma_among_push(a, keys@[at as int], index_key);
                    assert(entries::among(b, index_key));
                }
            } else {
                proof {
                    assert forall|k: Seq<u8>| k.len() <= u32::MAX implies #[trigger] self.at(
                        k,
                        key@,
                    ) == marked(
                        was.at(k, key@),
                        entries::among(b, k) && !entries::among(others@, k),
                        deleted,
                        revision,
                        compacted,
                    ) by {
                        entries::lemma_among_push(a, keys@[at as int], k);
                    }
                    if any {
                        let k = choose|k: Seq<u8>| #[trigger]
                            entries::among(a, k) && !entries::among(others@, k);
                        entries::lemma_among_push(a, keys@[at as int], k);
                        assert(entries::among(b, k));
                    }
                    if beyond(b, others@) {
                        let k = choose|k: Seq<u8>| #[trigger]
                            entries::among(b, k) && !entries::among(others@, k);
                        entries::lemma_among_push(a, keys@[at as int], k);
                        assert(entries::among(a, k));
                    }
                }
            }
        }
        assert(keys@.subrange(0, n as int) =~= keys@);
        any
    }

    /// A version written under one entry key changes that entry alone.
    proof fn lemma_marked(
        &self,
        was: Self,
        k: Seq<u8>,
        p: Seq<u8>,
        version: Version<()>,
        compacted: Revision,
    )
        requires
            was.wf(),
            k.len() <= u32::MAX,
            rows::rows_wf(&self.tree),
            forall|o: Seq<u8>| #[trigger]
                rows::history(self.tree.entries(), o) == (if o == index::entry_key(k, p) {
                    row::grown(rows::history(was.tree.entries(), o), version, compacted)
                } else {
                    rows::history(was.tree.entries(), o)
                }),
            forall|o: Seq<u8>|
                entries::get(self.tree.entries(), o) is Some ==> o == index::entry_key(k, p)
                    || #[trigger] entries::get(was.tree.entries(), o) is Some,
        ensures
            self.wf(),
            self.at(k, p) == row::grown(was.at(k, p), version, compacted),
            forall|k2: Seq<u8>, p2: Seq<u8>|
                k2.len() <= u32::MAX && (k2 != k || p2 != p) ==> #[trigger] self.at(k2, p2)
                    == was.at(k2, p2),
    {
        assert forall|k2: Seq<u8>, p2: Seq<u8>|
            k2.len() <= u32::MAX && (k2 != k || p2 != p) implies #[trigger] self.at(k2, p2)
            == was.at(k2, p2) by {
            if index::entry_key(k2, p2) == index::entry_key(k, p) {
                index::lemma_entry(k2, p2, k, p);
            }
        }
        assert forall|o: Seq<u8>| #[trigger]
            entries::get(self.tree.entries(), o) is Some implies exists|k2: Seq<u8>, p2: Seq<u8>|
            k2.len() <= u32::MAX && o == #[trigger] index::entry_key(k2, p2) by {
            if o != index::entry_key(k, p) {
                assert(entries::get(was.tree.entries(), o) is Some);
            }
        }
    }

    /// Removes the entries a tombstone at or below `rev` ended and returns the
    /// lowest tombstone revision that is left.
    pub fn sweep(&mut self, rev: Revision) -> (buried: Revision)
        requires
            old(self).wf(),
        ensures
            final(self).wf(),
            final(self).name() == old(self).name(),
            final(self).keys() == old(self).keys(),
            forall|k: Seq<u8>, p: Seq<u8>| #[trigger]
                final(self).at(k, p) == (if row::buried_by(old(self).at(k, p), rev) {
                    Seq::empty()
                } else {
                    old(self).at(k, p)
                }),
            forall|k: Seq<u8>, p: Seq<u8>, r: Revision|
                #![trigger row::buried_by(final(self).at(k, p), r)]
                row::buried_by(final(self).at(k, p), r) ==> buried <= r,
            buried < u64::MAX ==> exists|k: Seq<u8>, p: Seq<u8>|
                #![trigger final(self).at(k, p)]
                k.len() <= u32::MAX && row::buried_by(final(self).at(k, p), buried),
    {
        let ghost was = *self;
        let buried = swept(&mut self.tree, rev);
        proof {
            assert forall|o: Seq<u8>| #[trigger]
                entries::get(self.tree.entries(), o) is Some implies exists|
                k: Seq<u8>,
                p: Seq<u8>,
            | k.len() <= u32::MAX && o == #[trigger] index::entry_key(k, p) by {
                assert(entries::get(was.tree.entries(), o) is Some);
            }
            if buried < u64::MAX {
                let o = choose|o: Seq<u8>|
                    #![trigger rows::history(self.tree.entries(), o)]
                    row::buried_by(rows::history(self.tree.entries(), o), buried);
                assert(rows::history(self.tree.entries(), o).len() > 0);
                assert(entries::get(self.tree.entries(), o) is Some);
                let (k, p) = choose|k: Seq<u8>, p: Seq<u8>|
                    k.len() <= u32::MAX && o == #[trigger] index::entry_key(k, p);
                assert(row::buried_by(self.at(k, p), buried));
            }
        }
        buried
    }

    /// The primary keys listed under `key` for a reader at `at`, in order.
    pub fn hits(&self, key: &[u8], at: Revision) -> (list: Vec<Key>)
        requires
            self.wf(),
            key@.len() <= u32::MAX,
        ensures
            bytes::ascending(views(list@)),
            forall|p: Seq<u8>| #[trigger]
                entries::among(list@, p) == (row::alive(
                    row::version_at(self.at(key@, p), at),
                ) is Some),
    {
        let prefix = index_prefix(key);
        let ghost e = self.tree.entries();
        let ghost s = entries::slot(e, prefix@);
        let ghost mut done: int = s;
        let mut list: Vec<Key> = Vec::new();
        let mut walk = self.tree.range_from(prefix.as_slice());
        proof {
            self.tree.lemma_sorted();
            entries::lemma_slot_exists(e, prefix@);
            assert(walk.rest(e) =~= e.subrange(s, e.len() as int));
        }
        loop
            invariant_except_break
                walk.rest(e) == e.subrange(done, e.len() as int),
            invariant
                self.wf(),
                walk.wf(),
                e == self.tree.entries(),
                entries::sorted(e),
                entries::place(e, prefix@, s),
                s <= done <= e.len(),
                gathered(e, prefix@, at, s, done, list@),
            ensures
                done < e.len() ==> !bytes::begins(e[done].0, prefix@),
            decreases e.len() - done,
        {
            let ghost was = walk;
            let next = walk.next(&self.tree);
            proof {
                rows::lemma_walk_step(was, e, tree::plain(next), walk, done);
            }
            match next {
                Some((entry, listing)) => {
                    assert(e[done] == (entry@, listing));
                    if !starts_with(entry.as_slice(), prefix.as_slice()) {
                        break;
                    }
                    let shown = match listing.at(at) {
                        Some(version) => !version.deleted,
                        None => false,
                    };
                    let ghost before = list@;
                    if shown {
                        let primary = owned(
                            slice_subrange(entry.as_slice(), prefix.len(), entry.len()),
                        );
                        list.push(primary);
                    }
                    proof {
                        lemma_gathered(e, prefix@, at, s, done, before, list@);
                        done = done + 1;
                    }
                },
                None => {
                    break;
                },
            }
        }
        proof {
            assert forall|p: Seq<u8>| #[trigger]
                entries::among(list@, p) == (row::alive(
                    row::version_at(self.at(key@, p), at),
                ) is Some) by {
                lemma_gathered_all(e, prefix@, at, s, done, list@, p);
                assert(index::entry_key(key@, p) == prefix@ + p);
            }
        }
        list
    }
}

/// Entry `i` is one a search for `prefix` at `at` finds.
spec fn hit(e: Entries<Row<()>>, prefix: Seq<u8>, at: Revision, i: int) -> bool {
    &&& bytes::begins(e[i].0, prefix)
    &&& row::alive(row::version_at(e[i].1@, at)) is Some
}

/// What follows the first `n` bytes.
spec fn after_prefix(k: Seq<u8>, n: nat) -> Seq<u8> {
    k.subrange(n as int, k.len() as int)
}

/// `list` holds the primary keys of the entries from `s` to `done` that a
/// search finds, in order.
spec fn gathered(
    e: Entries<Row<()>>,
    prefix: Seq<u8>,
    at: Revision,
    s: int,
    done: int,
    list: Seq<Key>,
) -> bool {
    &&& bytes::ascending(views(list))
    &&& forall|i: int| s <= i < done ==> bytes::begins((#[trigger] e[i]).0, prefix)
    &&& forall|i: int|
        s <= i < done && hit(e, prefix, at, i) ==> entries::among(
            list,
            after_prefix((#[trigger] e[i]).0, prefix.len()),
        )
    &&& forall|p: Seq<u8>| #[trigger]
        entries::among(list, p) ==> exists|i: int|
            s <= i < done && (#[trigger] e[i]).0 == prefix + p && hit(e, prefix, at, i)
}

proof fn lemma_gathered(
    e: Entries<Row<()>>,
    prefix: Seq<u8>,
    at: Revision,
    s: int,
    done: int,
    before: Seq<Key>,
    list: Seq<Key>,
)
    requires
        entries::sorted(e),
        0 <= s <= done < e.len(),
        gathered(e, prefix, at, s, done, before),
        bytes::begins(e[done].0, prefix),
        if hit(e, prefix, at, done) {
            &&& list.len() == before.len() + 1
            &&& list.last()@ == after_prefix(e[done].0, prefix.len())
            &&& list == before.push(list.last())
        } else {
            list == before
        },
    ensures
        gathered(e, prefix, at, s, done + 1, list),
{
    let p = after_prefix(e[done].0, prefix.len());
    assert(e[done].0 =~= prefix + p);
    if hit(e, prefix, at, done) {
        let v = views(before);
        let n = views(list);
        assert forall|i: int, j: int| 0 <= i < j < n.len() implies bytes::lt(
            #[trigger] n[i],
            #[trigger] n[j],
        ) by {
            assert(n[i] == v[i]);
            if j < v.len() {
                assert(n[j] == v[j]);
            } else {
                assert(before[i]@ == n[i]);
                assert(entries::among(before, n[i]));
                let x = choose|x: int|
                    s <= x < done && (#[trigger] e[x]).0 == prefix + n[i] && hit(
                        e,
                        prefix,
                        at,
                        x,
                    );
                assert(bytes::lt(e[x].0, e[done].0));
                bytes::lemma_lt_under_prefix(prefix, n[i], p);
            }
        }
        assert forall|i: int| s <= i < done + 1 && hit(e, prefix, at, i) implies entries::among(
            list,
            after_prefix((#[trigger] e[i]).0, prefix.len()),
        ) by {
            entries::lemma_among_push(before, list.last(), after_prefix(e[i].0, prefix.len()));
        }
        assert forall|q: Seq<u8>| #[trigger] entries::among(list, q) implies exists|i: int|
            s <= i < done + 1 && (#[trigger] e[i]).0 == prefix + q && hit(e, prefix, at, i) by {
            entries::lemma_among_push(before, list.last(), q);
            if q == p {
                assert(e[done].0 == prefix + q);
            } else {
                assert(entries::among(before, q));
            }
        }
    }
}

proof fn lemma_gathered_all(
    e: Entries<Row<()>>,
    prefix: Seq<u8>,
    at: Revision,
    s: int,
    done: int,
    list: Seq<Key>,
    p: Seq<u8>,
)
    requires
        entries::sorted(e),
        entries::place(e, prefix, s),
        s <= done <= e.len(),
        gathered(e, prefix, at, s, done, list),
        done < e.len() ==> !bytes::begins(e[done].0, prefix),
    ensures
        entries::among(list, p) == (row::alive(
            row::version_at(rows::history(e, prefix + p), at),
        ) is Some),
{
    let k = prefix + p;
    assert(k.subrange(0, prefix.len() as int) =~= prefix);
    assert(after_prefix(k, prefix.len()) =~= p);
    if entries::among(list, p) {
        let i = choose|i: int|
            s <= i < done && (#[trigger] e[i]).0 == prefix + p && hit(e, prefix, at, i);
        entries::lemma_found(e, i);
    }
    if row::alive(row::version_at(rows::history(e, k), at)) is Some {
        let i = entries::lemma_get_index(e, k);
        bytes::lemma_begins_le(prefix, k);
        if i < s {
            assert(bytes::lt(e[i].0, prefix));
        }
        if i >= done {
            entries::lemma_lead_ends(e, prefix, done, i);
        }
        assert(hit(e, prefix, at, i));
        assert(entries::among(list, after_prefix(e[i].0, prefix.len())));
    }
}

/// Whether two names are the same.
pub fn same_name(a: &str, b: &str) -> (same: bool)
    ensures
        same == (a@ == b@),
{
    proof {
        vstd::utf8::encode_utf8_decode_utf8(a@);
        vstd::utf8::encode_utf8_decode_utf8(b@);
    }
    match compare(a.as_bytes(), b.as_bytes()) {
        Side::Same => true,
        _ => false,
    }
}

/// No two indexes have the same name.
pub open spec fn named_apart<X>(indexes: Seq<Index<X>>) -> bool {
    forall|i: int, j: int|
        #![trigger indexes[i], indexes[j]]
        0 <= i < j < indexes.len() ==> indexes[i].name@ != indexes[j].name@
}

/// The first index that has the name of one before it.
pub fn repeated<X>(indexes: &[Index<X>]) -> (found: Option<usize>)
    ensures
        match found {
            Some(at) => {
                &&& at < indexes@.len()
                &&& named_apart(indexes@.subrange(0, at as int))
                &&& exists|i: int|
                    0 <= i < at && (#[trigger] indexes@[i]).name@ == indexes@[at as int].name@
            },
            None => named_apart(indexes@),
        },
{
    let n = indexes.len();
    for at in 0..n
        invariant
            n == indexes@.len(),
            forall|i: int, j: int|
                #![trigger indexes@[i], indexes@[j]]
                0 <= i < j < at ==> indexes@[i].name@ != indexes@[j].name@,
    {
        for other in 0..at
            invariant
                at < n,
                n == indexes@.len(),
                forall|i: int, j: int|
                    #![trigger indexes@[i], indexes@[j]]
                    0 <= i < j < at ==> indexes@[i].name@ != indexes@[j].name@,
                forall|i: int|
                    0 <= i < other ==> (#[trigger] indexes@[i]).name@ != indexes@[at as int].name@,
        {
            if same_name(indexes[other].name, indexes[at].name) {
                proof {
                    let before = indexes@.subrange(0, at as int);
                    assert forall|i: int, j: int| 0 <= i < j < before.len() implies (
                    #[trigger] before[i]).name@ != (#[trigger] before[j]).name@ by {
                        assert(indexes@[i].name@ != indexes@[j].name@);
                    }
                }
                return Some(at);
            }
        }
    }
    None
}

/// One of `keys` is none of `others`.
spec fn beyond(keys: Seq<Key>, others: Seq<Key>) -> bool {
    exists|k: Seq<u8>| #[trigger] entries::among(keys, k) && !entries::among(others, k)
}

/// What becomes of an entry's history when a version is put on top of it, or
/// is not.
spec fn marked(
    was: History<()>,
    touched: bool,
    deleted: bool,
    revision: Revision,
    compacted: Revision,
) -> History<()> {
    if touched {
        row::grown(was, mark(revision, deleted), compacted)
    } else {
        was
    }
}

} // verus!
