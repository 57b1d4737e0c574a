//! One table: the rows, the index entries, and the counters.

use std::sync::Arc;

use vstd::prelude::*;

use crate::bytes;
use crate::bytes::owned;
use crate::db::listing;
use crate::db::listing::{Index, Listing};
use crate::db::pending;
use crate::db::pending::{Buffer, Pending, Write};
use crate::db::record;
use crate::db::record::{stream_key, Record};
use crate::db::row;
use crate::db::row::{History, Row, Version};
use crate::db::rows;
use crate::db::rows::swept;
use crate::db::scan;
use crate::db::scan::merged;
use crate::db::{Key, Revision};
use crate::entries;
use crate::entries::Entries;
use crate::tree::Tree;

verus! {

/// What a reader of one table reads of it besides its rows.
pub struct State {
    /// Revision of the last commit that changed this table.
    pub revision: Revision,
    /// Highest record revision a compaction dropped. A reader that has observed
    /// less than this has lost a change.
    pub lost: Revision,
    /// Lowest revision a tombstone in this table sits at, or `Revision::MAX`
    /// when it holds none. A compaction that reaches it sweeps the rows those
    /// tombstones ended.
    pub buried: Revision,
}

/// One table: the rows, the index entries, and the counters.
pub struct TableEntry<V, P, X> {
    state: State,
    primary: Tree<Row<V>>,
    /// One listing per registered index, in registration order.
    indexes: Vec<Listing<X>>,
    primary_key: P,
}

/// The value of a version, unless it is a tombstone.
pub open spec fn held_of<V>(version: Version<V>) -> Option<Arc<V>> {
    if version.deleted {
        None
    } else {
        Some(version.value)
    }
}

/// The value a reader sees, without its revision.
pub open spec fn value_of<V>(found: Option<(Arc<V>, Revision)>) -> Option<Arc<V>> {
    match found {
        Some((value, _)) => Some(value),
        None => None,
    }
}

/// What becomes of the entry for a primary key under `k` when `w` lands on its
/// row: a load moves it to what was loaded, a write moves it on from there.
pub open spec fn relanded<V, X: Fn(&V) -> Vec<Key>>(
    l: History<()>,
    keys: X,
    k: Seq<u8>,
    h: History<V>,
    w: Write<V>,
    revision: Revision,
    compacted: Revision,
) -> History<()> {
    let mid = match w.loaded {
        Some(loaded) => listing::relisted(
            l,
            listing::lists_held(keys, row::held(h), k),
            listing::lists_held(keys, row::held(loaded), k),
            loaded.last().revision,
            compacted,
        ),
        None => l,
    };
    match w.wrote {
        Some(version) => listing::relisted(
            mid,
            listing::lists_held(keys, row::held(w.base(h)), k),
            listing::lists_held(keys, held_of(version), k),
            revision,
            compacted,
        ),
        None => mid,
    }
}

/// The lower of two revisions.
pub open spec fn lower(a: Revision, b: Revision) -> Revision {
    if b < a {
        b
    } else {
        a
    }
}

/// The function takes every value.
pub open spec fn total<V, P: Fn(&V) -> Key>(key: P) -> bool {
    forall|value: &V| #[trigger] call_requires(key, (value,))
}

impl<V, P, X> TableEntry<V, P, X> where P: Fn(&V) -> Key, X: Fn(&V) -> Vec<Key> {
    /// The counters.
    pub closed spec fn counters(&self) -> State {
        self.state
    }

    /// The versions of the row at `k`, oldest first; none if there is no row.
    pub closed spec fn history(&self, k: Seq<u8>) -> History<V> {
        rows::history(self.primary.entries(), k)
    }

    /// How many indexes the table has.
    pub closed spec fn count(&self) -> nat {
        self.indexes@.len()
    }

    /// The versions of the entry for primary key `p` under `k` in index `i`.
    pub closed spec fn listing(&self, i: int, k: Seq<u8>, p: Seq<u8>) -> History<()> {
        self.indexes@[i].at(k, p)
    }

    /// The name of index `i`.
    pub closed spec fn name(&self, i: int) -> Seq<char> {
        self.indexes@[i].name()
    }

    /// What index `i` lists a value under.
    pub closed spec fn keys(&self, i: int) -> X {
        self.indexes@[i].keys()
    }

    /// The primary key of a value.
    pub closed spec fn key(&self) -> P {
        self.primary_key
    }

    /// The trees are sound, the functions can be called, and the indexes can be
    /// told apart.
    pub closed spec fn wf(&self) -> bool {
        &&& rows::rows_wf(&self.primary)
        &&& total::<V, P>(self.primary_key)
        &&& forall|i: int| 0 <= i < self.indexes@.len() ==> (#[trigger] self.indexes@[i]).wf()
        &&& forall|i: int|
            0 <= i < self.indexes@.len() ==> listing::pure::<V, X>(
                (#[trigger] self.indexes@[i]).keys(),
            )
        &&& forall|i: int, j: int|
            #![trigger self.indexes@[i], self.indexes@[j]]
            0 <= i < j < self.indexes@.len() ==> self.indexes@[i].name() != self.indexes@[j].name()
    }

    /// The same functions under the same names.
    pub open spec fn same_schema(&self, other: &Self) -> bool {
        &&& self.count() == other.count()
        &&& self.key() == other.key()
        &&& forall|i: int|
            0 <= i < self.count() ==> #[trigger] self.name(i) == other.name(i) && self.keys(i)
                == other.keys(i)
    }

    /// `after` is this table with `w` landed on it.
    pub open spec fn lands(
        &self,
        after: &Self,
        w: Write<V>,
        revision: Revision,
        compacted: Revision,
    ) -> bool {
        &&& after.same_schema(self)
        &&& forall|k: Seq<u8>| #[trigger]
            after.history(k) == (if k == w.key {
                w.landed(self.history(k), compacted)
            } else {
                self.history(k)
            })
        &&& forall|i: int, k: Seq<u8>, p: Seq<u8>|
            0 <= i < self.count() && k.len() <= u32::MAX ==> #[trigger] after.listing(i, k, p) == (
            if p == w.key {
                relanded(
                    self.listing(i, k, p),
                    self.keys(i),
                    k,
                    self.history(p),
                    w,
                    revision,
                    compacted,
                )
            } else {
                self.listing(i, k, p)
            })
    }

    /// `after` is this table with every one of `ws` landed on it.
    pub open spec fn takes(
        &self,
        after: &Self,
        ws: Seq<Write<V>>,
        revision: Revision,
        compacted: Revision,
    ) -> bool {
        &&& after.same_schema(self)
        &&& forall|k: Seq<u8>| #[trigger]
            after.history(k) == (match pending::written(ws, k) {
                Some(w) => w.landed(self.history(k), compacted),
                None => self.history(k),
            })
        &&& forall|i: int, k: Seq<u8>, p: Seq<u8>|
            0 <= i < self.count() && k.len() <= u32::MAX ==> #[trigger] after.listing(i, k, p) == (
            match pending::written(ws, p) {
                Some(w) => relanded(
                    self.listing(i, k, p),
                    self.keys(i),
                    k,
                    self.history(p),
                    w,
                    revision,
                    compacted,
                ),
                None => self.listing(i, k, p),
            })
    }

    /// `after` is this table without what a tombstone at or below `rev` ended.
    pub open spec fn sweeps(&self, after: &Self, rev: Revision) -> bool {
        &&& after.same_schema(self)
        &&& forall|k: Seq<u8>| #[trigger]
            after.history(k) == (if row::buried_by(self.history(k), rev) {
                Seq::empty()
            } else {
                self.history(k)
            })
        &&& forall|i: int, k: Seq<u8>, p: Seq<u8>|
            0 <= i < self.count() && k.len() <= u32::MAX ==> #[trigger] after.listing(i, k, p) == (
            if row::buried_by(self.listing(i, k, p), rev) {
                Seq::empty()
            } else {
                self.listing(i, k, p)
            })
    }

    /// For a reader at `r`, primary key `p` is listed under `k` in index `i` if
    /// the index lists the value the reader sees there.
    pub open spec fn agrees(&self, i: int, k: Seq<u8>, p: Seq<u8>, r: Revision) -> bool {
        (row::alive(row::version_at(self.listing(i, k, p), r)) is Some) == listing::lists_held(
            self.keys(i),
            value_of(row::live(self.history(p), r)),
            k,
        )
    }

    /// An index drops an entry of a key whose value goes from `had` to `is`.
    pub open spec fn drops_entry(&self, had: Option<Arc<V>>, is: Option<Arc<V>>) -> bool {
        exists|i: int|
            0 <= i < self.count() && listing::loses(#[trigger] self.keys(i), had, is)
    }

    /// The lowest revision `w` puts a tombstone at, on the row or on one of its
    /// entries, where the row holds `h`; `u64::MAX` if it puts down none.
    pub open spec fn digs(&self, w: Write<V>, h: History<V>, revision: Revision) -> Revision {
        let load = match w.loaded {
            Some(loaded) => if loaded.last().deleted || self.drops_entry(
                row::held(h),
                row::held(loaded),
            ) {
                loaded.last().revision
            } else {
                u64::MAX
            },
            None => u64::MAX,
        };
        let write = match w.wrote {
            Some(version) => if version.deleted || self.drops_entry(
                row::held(w.base(h)),
                held_of(version),
            ) {
                revision
            } else {
                u64::MAX
            },
            None => u64::MAX,
        };
        lower(load, write)
    }

    /// The lowest revision any of `ws` puts a tombstone at, or `u64::MAX`.
    pub open spec fn lowest_dug(&self, ws: Seq<Write<V>>, revision: Revision) -> Revision
        decreases ws.len(),
    {
        if ws.len() == 0 {
            u64::MAX
        } else {
            lower(
                self.lowest_dug(ws.drop_last(), revision),
                self.digs(ws.last(), self.history(ws.last().key), revision),
            )
        }
    }

    /// A row, or an entry of one of the first `n` indexes, ends with a tombstone
    /// at or below `low`.
    pub open spec fn some_buried(&self, n: int, low: Revision) -> bool {
        ||| exists|k: Seq<u8>| #[trigger] row::buried_by(self.history(k), low)
        ||| exists|i: int, k: Seq<u8>, p: Seq<u8>|
            0 <= i < n && k.len() <= u32::MAX && #[trigger] row::buried_by(
                self.listing(i, k, p),
                low,
            )
    }

    /// Every tombstone is at or above `low`.
    pub open spec fn buried_above(&self, low: Revision) -> bool {
        &&& forall|k: Seq<u8>, r: Revision| #[trigger]
            row::buried_by(self.history(k), r) ==> low <= r
        &&& forall|i: int, k: Seq<u8>, p: Seq<u8>, r: Revision|
            #![trigger row::buried_by(self.listing(i, k, p), r)]
            0 <= i < self.count() && k.len() <= u32::MAX && row::buried_by(
                self.listing(i, k, p),
                r,
            ) ==> low <= r
    }

    /// The rows are in order and at or below `revision`, and the indexes follow
    /// them for every reader at or above `floor`.
    pub open spec fn sound(&self, revision: Revision, floor: Revision) -> bool {
        &&& forall|k: Seq<u8>|
            row::ordered(#[trigger] self.history(k)) && row::capped(self.history(k), revision)
        &&& forall|i: int, k: Seq<u8>, p: Seq<u8>|
            0 <= i < self.count() && k.len() <= u32::MAX ==> row::capped(
                #[trigger] self.listing(i, k, p),
                revision,
            )
        &&& forall|i: int, k: Seq<u8>, p: Seq<u8>, r: Revision|
            0 <= i < self.count() && k.len() <= u32::MAX && floor <= r ==> #[trigger] self.agrees(
                i,
                k,
                p,
                r,
            )
    }

    pub proof fn lemma_wf(&self)
        requires
            self.wf(),
        ensures
            total::<V, P>(self.key()),
            forall|i: int|
                0 <= i < self.count() ==> #[trigger] listing::pure::<V, X>(self.keys(i)),
            forall|i: int, j: int|
                #![trigger self.name(i), self.name(j)]
                0 <= i < j < self.count() ==> self.name(i) != self.name(j),
    {
        assert forall|i: int| 0 <= i < self.count() implies #[trigger] listing::pure::<V, X>(
            self.keys(i),
        ) by {
            assert(self.indexes@[i].keys() == self.keys(i));
        }
        assert forall|i: int, j: int| 0 <= i < j < self.count() implies #[trigger] self.name(i)
            != #[trigger] self.name(j) by {
            assert(self.indexes@[i].name() != self.indexes@[j].name());
        }
    }

    pub fn new(primary_key: P, indexes: &[Index<X>]) -> (entry: Self)
        where
            X: Copy,
        requires
            total::<V, P>(primary_key),
            listing::named_apart(indexes@),
            forall|i: int|
                0 <= i < indexes@.len() ==> listing::pure::<V, X>((#[trigger] indexes@[i]).keys),
        ensures
            entry.wf(),
            entry.key() == primary_key,
            entry.count() == indexes@.len(),
            forall|i: int|
                0 <= i < indexes@.len() ==> #[trigger] entry.name(i) == indexes@[i].name@
                    && entry.keys(i) == indexes@[i].keys,
            forall|k: Seq<u8>| #[trigger] entry.history(k).len() == 0,
            forall|i: int, k: Seq<u8>, p: Seq<u8>|
                0 <= i < indexes@.len() ==> #[trigger] entry.listing(i, k, p).len() == 0,
            entry.counters() == (State { revision: 0, lost: 0, buried: u64::MAX }),
    {
        let mut listings: Vec<Listing<X>> = Vec::with_capacity(indexes.len());
        let n = indexes.len();
        for at in 0..n
            invariant
                n == indexes@.len(),
                listings@.len() == at,
                forall|i: int|
                    0 <= i < at ==> {
                        let l = #[trigger] listings@[i];
                        &&& l.wf()
                        &&& l.name() == indexes@[i].name@
                        &&& l.keys() == indexes@[i].keys
                        &&& forall|k: Seq<u8>, p: Seq<u8>| #[trigger] l.at(k, p).len() == 0
                    },
        {
            listings.push(Listing::new(indexes[at]));
        }
        let entry = TableEntry {
            state: State { revision: 0, lost: 0, buried: u64::MAX },
            primary: Tree::new(),
            indexes: listings,
            primary_key,
        };
        proof {
            assert forall|i: int, j: int| 0 <= i < j < entry.indexes@.len() implies (
            #[trigger] entry.indexes@[i]).name() != (#[trigger] entry.indexes@[j]).name() by {
                assert(indexes@[i].name@ != indexes@[j].name@);
            }
            assert forall|i: int| 0 <= i < entry.indexes@.len() implies listing::pure::<V, X>(
                (#[trigger] entry.indexes@[i]).keys(),
            ) by {
                assert(listing::pure::<V, X>(indexes@[i].keys));
            }
        }
        entry
    }

    /// Moves `key`'s entries in every index from the value the row held to the
    /// one it holds now, at `revision`. Returns whether one was tombstoned.
    fn reindex(
        &mut self,
        key: &[u8],
        had: &Option<Arc<V>>,
        is: &Option<Arc<V>>,
        revision: Revision,
        compacted: Revision,
    ) -> (tombstoned: bool)
        requires
            old(self).wf(),
        ensures
            final(self).wf(),
            final(self).same_schema(old(self)),
            final(self).state == old(self).state,
            final(self).primary == old(self).primary,
            forall|i: int, k: Seq<u8>, p: Seq<u8>|
                0 <= i < old(self).count() && k.len() <= u32::MAX ==> #[trigger] final(self).listing(i, k, p) == (
                if p == key@ {
                    listing::relisted(
                        old(self).listing(i, k, p),
                        listing::lists_held(old(self).keys(i), *had, k),
                        listing::lists_held(old(self).keys(i), *is, k),
                        revision,
                        compacted,
                    )
                } else {
                    old(self).listing(i, k, p)
                }),
            tombstoned == old(self).drops_entry(*had, *is),
    {
        let ghost was = *self;
        let mut tombstoned = false;
        let n = self.indexes.len();
        for at in 0..n
            invariant
                n == was.indexes@.len(),
                n == self.indexes@.len(),
                was == *old(self),
                was.wf(),
                self.state == was.state,
                self.primary == was.primary,
                self.primary_key == was.primary_key,
                forall|i: int|
                    0 <= i < n ==> {
                        let l = #[trigger] self.indexes@[i];
                        &&& l.wf()
                        &&& l.name() == was.name(i)
                        &&& l.keys() == was.keys(i)
                    },
                forall|i: int| at <= i < n ==> #[trigger] self.indexes@[i] == was.indexes@[i],
                forall|i: int, k: Seq<u8>, p: Seq<u8>|
                    0 <= i < at && k.len() <= u32::MAX ==> #[trigger] self.listing(i, k, p) == (
                    if p == key@ {
                        listing::relisted(
                            was.listing(i, k, p),
                            listing::lists_held(was.keys(i), *had, k),
                            listing::lists_held(was.keys(i), *is, k),
                            revision,
                            compacted,
                        )
                    } else {
                        was.listing(i, k, p)
                    }),
                tombstoned == exists|i: int|
                    0 <= i < at && listing::loses(#[trigger] was.keys(i), *had, *is),
        {
            let ghost mid = *self;
            assert(was.indexes@[at as int] == self.indexes@[at as int]);
            assert(listing::pure::<V, X>(was.indexes@[at as int].keys()));
            let listing = &mut self.indexes[at];
            let lost = listing.reindex(key, had, is, revision, compacted);
            proof {
                assert forall|i: int| 0 <= i < n implies {
                    let l = #[trigger] self.indexes@[i];
                    &&& l.wf()
                    &&& l.name() == was.name(i)
                    &&& l.keys() == was.keys(i)
                } by {
                    if i != at {
                        assert(self.indexes@[i] == mid.indexes@[i]);
                    }
                }
                assert forall|i: int, k: Seq<u8>, p: Seq<u8>|
                    0 <= i < at + 1 && k.len() <= u32::MAX implies #[trigger] self.listing(i, k, p)
                    == (if p == key@ {
                    listing::relisted(
                        was.listing(i, k, p),
                        listing::lists_held(was.keys(i), *had, k),
                        listing::lists_held(was.keys(i), *is, k),
                        revision,
                        compacted,
                    )
                } else {
                    was.listing(i, k, p)
                }) by {
                    if i < at {
                        assert(self.indexes@[i] == mid.indexes@[i]);
                        assert(self.listing(i, k, p) == mid.listing(i, k, p));
                    }
                }
                if lost {
                    assert(listing::loses(was.keys(at as int), *had, *is));
                }
            }
            if lost {
                tombstoned = true;
            }
        }
        proof {
            assert forall|i: int| 0 <= i < self.count() implies #[trigger] self.name(i)
                == was.name(i) && self.keys(i) == was.keys(i) by {
                assert(self.indexes@[i].name() == was.name(i));
            }
            assert forall|i: int, j: int| 0 <= i < j < self.indexes@.len() implies (
            #[trigger] self.indexes@[i]).name() != (#[trigger] self.indexes@[j]).name() by {
                assert(was.indexes@[i].name() != was.indexes@[j].name());
            }
            assert forall|i: int| 0 <= i < self.indexes@.len() implies listing::pure::<V, X>(
                (#[trigger] self.indexes@[i]).keys(),
            ) by {
                assert(listing::pure::<V, X>(was.indexes@[i].keys()));
            }
        }
        tombstoned
    }

    /// The same indexes drop the same entries.
    proof fn lemma_same_drops(&self, other: &Self)
        requires
            self.same_schema(other),
        ensures
            forall|had: Option<Arc<V>>, is: Option<Arc<V>>| #[trigger]
                self.drops_entry(had, is) == other.drops_entry(had, is),
    {
        assert forall|had: Option<Arc<V>>, is: Option<Arc<V>>| #[trigger]
            self.drops_entry(had, is) == other.drops_entry(had, is) by {
            if self.drops_entry(had, is) {
                let i = choose|i: int|
                    0 <= i < self.count() && listing::loses(#[trigger] self.keys(i), had, is);
                assert(self.name(i) == other.name(i));
                assert(listing::loses(other.keys(i), had, is));
            }
            if other.drops_entry(had, is) {
                let i = choose|i: int|
                    0 <= i < other.count() && listing::loses(#[trigger] other.keys(i), had, is);
                assert(self.name(i) == other.name(i));
                assert(listing::loses(self.keys(i), had, is));
            }
        }
    }

    /// Writes what a transaction leaves at one key, at `revision`: the row, and
    /// the index entries that follow it. Returns the lowest revision this put a
    /// tombstone at, or `Revision::MAX`.
    fn land(&mut self, pending: &Pending<V>, revision: Revision, compacted: Revision) -> (buried:
        Revision)
        requires
            old(self).wf(),
            pending@.wf(),
            pending@.wrote matches Some(v) ==> v.revision == revision,
        ensures
            final(self).wf(),
            final(self).counters() == old(self).counters(),
            old(self).lands(final(self), pending@, revision, compacted),
            buried == old(self).digs(pending@, old(self).history(pending@.key), revision),
            forall|r: Revision|
                #![trigger row::buried_by(final(self).history(pending@.key), r)]
                row::buried_by(final(self).history(pending@.key), r) ==> buried <= r,
            forall|i: int, k: Seq<u8>, r: Revision|
                #![trigger row::buried_by(final(self).listing(i, k, pending@.key), r)]
                0 <= i < old(self).count() && k.len() <= u32::MAX && row::buried_by(
                    final(self).listing(i, k, pending@.key),
                    r,
                ) ==> buried <= r || row::buried_by(old(self).listing(i, k, pending@.key), r),
    {
        let ghost was = *self;
        let ghost w = pending@;
        let ghost h = self.history(w.key);
        let key = &pending.key;
        let mut buried: Revision = u64::MAX;
        proof {
            rows::lemma_row_wf(self.primary.entries(), key@);
        }
        let mut row: Option<Row<V>> = self.primary.get(key.as_slice());
        assert(chain_of(row) == h);
        if let Some(versions) = &pending.loaded {
            let had = held(&row);
            let put = Row::loaded(versions);
            let newest = put.newest().revision;
            if put.tombstoned().is_some() {
                buried = newest;
            }
            let is = put.held();
            if self.reindex(key.as_slice(), &had, &is, newest, compacted) {
                buried = newest;
            }
            row = Some(put);
        }
        let ghost mid = *self;
        let ghost low = buried;
        proof {
            mid.lemma_same_drops(&was);
            assert(chain_of(row) == w.base(h));
            if w.loaded is Some {
                assert forall|i: int, k: Seq<u8>, r: Revision|
                    #![trigger row::buried_by(mid.listing(i, k, key@), r)]
                    0 <= i < was.count() && k.len() <= u32::MAX && row::buried_by(
                        mid.listing(i, k, key@),
                        r,
                    ) implies low <= r || row::buried_by(was.listing(i, k, key@), r) by {
                    lemma_relisted_buried(
                        was.listing(i, k, key@),
                        was.keys(i),
                        k,
                        row::held(h),
                        row::held(w.loaded->0),
                        (w.loaded->0).last().revision,
                        compacted,
                        r,
                    );
                }
            }
        }
        if let Some(version) = &pending.wrote {
            let had = held(&row);
            let is = if version.deleted {
                None
            } else {
                Some(version.value.clone())
            };
            if version.deleted && revision < buried {
                buried = revision;
            }
            if self.reindex(key.as_slice(), &had, &is, revision, compacted) && revision < buried {
                buried = revision;
            }
            row = Some(Row::written(row, version.clone(), compacted));
        }
        proof {
            assert(chain_of(row) == w.landed(h, compacted));
            if w.wrote is Some {
                assert forall|i: int, k: Seq<u8>, r: Revision|
                    #![trigger row::buried_by(self.listing(i, k, key@), r)]
                    0 <= i < was.count() && k.len() <= u32::MAX && row::buried_by(
                        self.listing(i, k, key@),
                        r,
                    ) implies buried <= r || row::buried_by(was.listing(i, k, key@), r) by {
                    lemma_relisted_buried(
                        mid.listing(i, k, key@),
                        was.keys(i),
                        k,
                        row::held(w.base(h)),
                        held_of(w.wrote->0),
                        revision,
                        compacted,
                        r,
                    );
                    assert(row::buried_by(mid.listing(i, k, key@), r) ==> low <= r
                        || row::buried_by(was.listing(i, k, key@), r));
                }
            }
        }
        let ghost turned = *self;
        let row = row.unwrap();
        proof {
            self.primary.lemma_sorted();
            rows::lemma_put_row(self.primary.entries(), key@, row);
        }
        self.primary.insert(key.as_slice(), row);
        proof {
            assert forall|i: int, k: Seq<u8>, p: Seq<u8>|
                0 <= i < was.count() && k.len() <= u32::MAX implies #[trigger] self.listing(i, k, p)
                == (if p == w.key {
                relanded(was.listing(i, k, p), was.keys(i), k, h, w, revision, compacted)
            } else {
                was.listing(i, k, p)
            }) by {
                assert(self.listing(i, k, p) == turned.listing(i, k, p));
                assert(mid.name(i) == was.name(i));
                assert(turned.name(i) == mid.name(i));
                assert(mid.keys(i) == was.keys(i));
                assert(mid.listing(i, k, p) == mid.listing(i, k, p));
            }
            assert forall|i: int, k: Seq<u8>, r: Revision|
                #![trigger row::buried_by(self.listing(i, k, w.key), r)]
                0 <= i < was.count() && k.len() <= u32::MAX && row::buried_by(
                    self.listing(i, k, w.key),
                    r,
                ) implies buried <= r || row::buried_by(was.listing(i, k, w.key), r) by {
                assert(self.listing(i, k, w.key) == turned.listing(i, k, w.key));
                assert(row::buried_by(turned.listing(i, k, key@), r));
                if w.wrote is None {
                    assert(row::buried_by(mid.listing(i, k, key@), r));
                }
            }
            assert forall|i: int| 0 <= i < self.count() implies #[trigger] self.name(i)
                == was.name(i) && self.keys(i) == was.keys(i) by {
                assert(turned.name(i) == was.name(i));
            }
        }
        buried
    }
}

/// The records a list of writes leaves, in order: one for each key written, and
/// none for a key that was only loaded.
pub open spec fn fresh<V>(ws: Seq<Write<V>>, revision: Revision) -> Seq<Record>
    decreases ws.len(),
{
    if ws.len() == 0 {
        Seq::empty()
    } else if ws.last().wrote is Some {
        fresh(ws.drop_last(), revision).push(
            Record { revision: revision as nat, key: ws.last().key },
        )
    } else {
        fresh(ws.drop_last(), revision)
    }
}

/// No list of writes leaves more records than it holds writes.
pub proof fn lemma_fresh_len<V>(ws: Seq<Write<V>>, revision: Revision)
    ensures
        fresh(ws, revision).len() <= ws.len(),
    decreases ws.len(),
{
    if ws.len() > 0 {
        lemma_fresh_len(ws.drop_last(), revision);
    }
}

/// A record a list of writes leaves is that of one of them.
pub proof fn lemma_fresh_from<V>(ws: Seq<Write<V>>, revision: Revision, j: int) -> (i: int)
    requires
        0 <= j < fresh(ws, revision).len(),
    ensures
        0 <= i < ws.len(),
        ws[i].wrote is Some,
        fresh(ws, revision)[j] == (Record { revision: revision as nat, key: ws[i].key }),
    decreases ws.len(),
{
    if ws.last().wrote is Some && j == fresh(ws, revision).len() - 1 {
        ws.len() - 1
    } else {
        lemma_fresh_from(ws.drop_last(), revision, j)
    }
}

/// The records one list of writes leaves are of different keys.
pub proof fn lemma_fresh_apart<V>(ws: Seq<Write<V>>, revision: Revision)
    requires
        pending::distinct(ws),
    ensures
        record::apart(fresh(ws, revision)),
    decreases ws.len(),
{
    let rs = fresh(ws, revision);
    if ws.len() > 0 {
        let p = ws.drop_last();
        let n = ws.len() - 1;
        assert(pending::distinct(p)) by {
            assert forall|i: int, j: int| 0 <= i < j < p.len() implies (#[trigger] p[i]).key != (
            #[trigger] p[j]).key by {
                assert(ws[i].key != ws[j].key);
            }
            assert forall|i: int| 0 <= i < p.len() implies (#[trigger] p[i]).wf() by {
                assert(ws[i].wf());
            }
        }
        lemma_fresh_apart(p, revision);
        let before = fresh(p, revision);
        assert forall|i: int, j: int| 0 <= i < j < rs.len() implies (#[trigger] rs[i]).revision != (
        #[trigger] rs[j]).revision || rs[i].key != rs[j].key by {
            assert(rs[i] == before[i]);
            if j < before.len() {
                assert(rs[j] == before[j]);
            } else {
                let x = lemma_fresh_from(p, revision, i);
                assert(ws[x].key != ws[n].key);
            }
        }
    }
}

/// What a write may hold when a transaction at `revision` commits it.
pub open spec fn timely<V>(w: Write<V>, revision: Revision) -> bool {
    &&& w.wf()
    &&& w.wrote matches Some(v) ==> v.revision == revision
    &&& w.loaded matches Some(h) ==> row::ascending(h) && h.last().revision <= revision
}

proof fn lemma_relisted_ends(
    l: History<()>,
    had: bool,
    is: bool,
    revision: Revision,
    compacted: Revision,
    cap: Revision,
)
    requires
        revision <= cap,
        row::capped(l, cap),
        (row::alive(row::newest(l)) is Some) == had,
    ensures
        row::capped(listing::relisted(l, had, is, revision, compacted), cap),
        (row::alive(row::newest(listing::relisted(l, had, is, revision, compacted))) is Some)
            == is,
{
    let n = listing::relisted(l, had, is, revision, compacted);
    if had != is {
        let t = row::trim(l, compacted);
        row::lemma_trim_keeps(l, compacted);
        assert(row::capped(t, cap));
        assert(n.last() == listing::mark(revision, had));
        assert forall|i: int| 0 <= i < n.len() implies (#[trigger] n[i]).revision <= cap by {
            if i < t.len() {
                assert(n[i] == t[i]);
            }
        }
    }
}

impl<V, P, X> TableEntry<V, P, X> where P: Fn(&V) -> Key, X: Fn(&V) -> Vec<Key> {
    /// A write that lands leaves the table sound, at the revision it is made at
    /// and for the readers that may still read there.
    proof fn lemma_lands(
        &self,
        after: &Self,
        w: Write<V>,
        revision: Revision,
        compacted: Revision,
        floor: Revision,
    )
        requires
            self.sound(revision, floor),
            self.lands(after, w, revision, compacted),
            timely(w, revision),
            w.loaded is Some ==> floor >= revision,
            floor < revision ==> compacted <= floor,
        ensures
            after.sound(revision, floor),
    {
        let h = self.history(w.key);
        let base = w.base(h);
        let n = w.landed(h, compacted);
        assert(row::ordered(h) && row::capped(h, revision));
        assert(row::ordered(base) && row::capped(base, revision)) by {
            if w.loaded is Some {
                let l = w.loaded->0;
                assert forall|i: int| 0 <= i < l.len() implies (#[trigger] l[i]).revision
                    <= revision by {
                    if i < l.len() - 1 {
                        assert(l[i].revision < l[l.len() - 1].revision);
                    }
                }
            }
        }
        if w.wrote is Some {
            row::lemma_grown_ordered(base, w.wrote->0, compacted);
        }
        assert forall|k: Seq<u8>|
            row::ordered(#[trigger] after.history(k)) && row::capped(after.history(k), revision) by {
            assert(row::ordered(self.history(k)));
        }
        assert forall|i: int, k: Seq<u8>, p: Seq<u8>|
            0 <= i < self.count() && k.len() <= u32::MAX implies row::capped(
            #[trigger] after.listing(i, k, p),
            revision,
        ) by {
            assert(row::capped(self.listing(i, k, p), revision));
            if p == w.key {
                self.lemma_relanded(w, revision, compacted, floor, i, k);
            }
        }
        assert forall|i: int, k: Seq<u8>, p: Seq<u8>, r: Revision|
            0 <= i < self.count() && k.len() <= u32::MAX && floor <= r implies #[trigger] after.agrees(
            i,
            k,
            p,
            r,
        ) by {
            assert(self.agrees(i, k, p, r));
            assert(after.name(i) == self.name(i));
            assert(after.listing(i, k, p) == after.listing(i, k, p));
            assert(after.history(p) == after.history(p));
            if p == w.key {
                self.lemma_relanded(w, revision, compacted, floor, i, k);
                if r >= revision {
                    row::lemma_capped(after.listing(i, k, p), r);
                    row::lemma_capped(n, r);
                    lemma_top(h, w, compacted);
                } else {
                    let v = w.wrote->0;
                    row::lemma_grown(h, v, compacted, r);
                    let l = self.listing(i, k, p);
                    let had = listing::lists_held(self.keys(i), row::held(h), k);
                    row::lemma_grown(l, listing::mark(revision, had), compacted, r);
                }
            }
        }
    }

    /// The entries of a key that a write lands on are at or below its revision,
    /// and list the value it leaves.
    proof fn lemma_relanded(
        &self,
        w: Write<V>,
        revision: Revision,
        compacted: Revision,
        floor: Revision,
        i: int,
        k: Seq<u8>,
    )
        requires
            self.sound(revision, floor),
            timely(w, revision),
            0 <= i < self.count(),
            k.len() <= u32::MAX,
        ensures
            ({
                let l = relanded(
                    self.listing(i, k, w.key),
                    self.keys(i),
                    k,
                    self.history(w.key),
                    w,
                    revision,
                    compacted,
                );
                &&& row::capped(l, revision)
                &&& (row::alive(row::newest(l)) is Some) == listing::lists_held(
                    self.keys(i),
                    held_of(w.top()),
                    k,
                )
            }),
    {
        let h = self.history(w.key);
        let l = self.listing(i, k, w.key);
        let keys = self.keys(i);
        assert(self.agrees(i, k, w.key, u64::MAX));
        assert(row::capped(h, revision));
        assert(row::capped(l, revision));
        assert(row::capped(h, u64::MAX));
        assert(row::capped(l, u64::MAX));
        row::lemma_capped(h, u64::MAX);
        row::lemma_capped(l, u64::MAX);
        let mid = match w.loaded {
            Some(loaded) => {
                lemma_relisted_ends(
                    l,
                    listing::lists_held(keys, row::held(h), k),
                    listing::lists_held(keys, row::held(loaded), k),
                    loaded.last().revision,
                    compacted,
                    revision,
                );
                listing::relisted(
                    l,
                    listing::lists_held(keys, row::held(h), k),
                    listing::lists_held(keys, row::held(loaded), k),
                    loaded.last().revision,
                    compacted,
                )
            },
            None => l,
        };
        if w.wrote is Some {
            lemma_relisted_ends(
                mid,
                listing::lists_held(keys, row::held(w.base(h)), k),
                listing::lists_held(keys, held_of(w.wrote->0), k),
                revision,
                compacted,
                revision,
            );
        }
    }
}

/// What a write leaves ends with its top version.
proof fn lemma_top<V>(h: History<V>, w: Write<V>, compacted: Revision)
    requires
        w.wf(),
    ensures
        row::newest(w.landed(h, compacted)) == Some(w.top()),
{
    if w.wrote is Some {
        row::lemma_grown(w.base(h), w.wrote->0, compacted, 0);
    }
}

/// Every record of the table is before the one a commit at `revision` leaves at
/// place `seq`.
pub open spec fn past_records(
    e: Entries<Key>,
    table: nat,
    revision: Revision,
    seq: nat,
) -> bool {
    forall|i: int|
        0 <= i < e.len() && record::table_at((#[trigger] e[i]).0) == table ==> {
            ||| record::revision_at(e[i].0) < revision
            ||| record::revision_at(e[i].0) == revision && record::seq_at(e[i].0) < seq
        }
}

/// The next record is past the one just written.
proof fn lemma_past_put(
    e: Entries<Key>,
    k: Seq<u8>,
    v: Key,
    table: nat,
    revision: Revision,
    seq: nat,
)
    requires
        entries::sorted(e),
        past_records(e, table, revision, seq),
        record::table_at(k) == table,
        record::revision_at(k) == revision,
        record::seq_at(k) == seq,
    ensures
        past_records(entries::put(e, k, v), table, revision, seq + 1),
{
    let n = entries::put(e, k, v);
    entries::lemma_put(e, k, v);
    assert forall|i: int|
        0 <= i < n.len() && record::table_at((#[trigger] n[i]).0) == table implies {
        ||| record::revision_at(n[i].0) < revision
        ||| record::revision_at(n[i].0) == revision && record::seq_at(n[i].0) < seq + 1
    } by {
        let o = n[i].0;
        entries::lemma_found(n, i);
        if o != k {
            assert(entries::get(e, o) is Some);
            let j = entries::lemma_get_index(e, o);
            assert(e[j].0 == o);
        }
    }
}

impl<V, P, X> TableEntry<V, P, X> where P: Fn(&V) -> Key, X: Fn(&V) -> Vec<Key> {
    /// Nothing written leaves the table as it is.
    pub proof fn lemma_takes_none(&self, revision: Revision, compacted: Revision)
        ensures
            self.takes(self, Seq::empty(), revision, compacted),
    {
        let none = Seq::<Write<V>>::empty();
        assert forall|k: Seq<u8>| #[trigger] pending::written(none, k) is None by {}
    }

    /// One more write landed.
    proof fn lemma_takes_more(
        &self,
        mid: &Self,
        after: &Self,
        ws: Seq<Write<V>>,
        at: int,
        revision: Revision,
        compacted: Revision,
    )
        requires
            pending::distinct(ws),
            0 <= at < ws.len(),
            self.takes(mid, ws.subrange(0, at), revision, compacted),
            mid.lands(after, ws[at], revision, compacted),
        ensures
            self.takes(after, ws.subrange(0, at + 1), revision, compacted),
    {
        let w = ws[at];
        let done = ws.subrange(0, at);
        let more = ws.subrange(0, at + 1);
        assert(w.wf());
        assert(pending::distinct(done)) by {
            assert forall|i: int, j: int| 0 <= i < j < done.len() implies (#[trigger] done[i]).key
                != (#[trigger] done[j]).key by {
                assert(ws[i].key != ws[j].key);
            }
            assert forall|i: int| 0 <= i < done.len() implies (#[trigger] done[i]).wf() by {
                assert(ws[i].wf());
            }
        }
        if pending::place_of(done, w.key) >= 0 {
            let i = pending::place_of(done, w.key);
            assert(done[i].key == w.key);
            assert(ws[i].key != ws[at].key);
        }
        assert(pending::with(done, w) =~= more);
        pending::lemma_with(done, w);
        assert forall|i: int| 0 <= i < self.count() implies #[trigger] after.name(i)
            == self.name(i) && after.keys(i) == self.keys(i) by {
            assert(mid.name(i) == self.name(i));
        }
        assert forall|k: Seq<u8>| #[trigger]
            after.history(k) == (match pending::written(more, k) {
                Some(w) => w.landed(self.history(k), compacted),
                None => self.history(k),
            }) by {
            assert(pending::written(more, k) == (if k == w.key {
                Some(w)
            } else {
                pending::written(done, k)
            }));
            assert(mid.history(k) == mid.history(k));
        }
        assert forall|i: int, k: Seq<u8>, p: Seq<u8>|
            0 <= i < self.count() && k.len() <= u32::MAX implies #[trigger] after.listing(i, k, p)
            == (match pending::written(more, p) {
            Some(w) => relanded(
                self.listing(i, k, p),
                self.keys(i),
                k,
                self.history(p),
                w,
                revision,
                compacted,
            ),
            None => self.listing(i, k, p),
        }) by {
            assert(pending::written(more, p) == (if p == w.key {
                Some(w)
            } else {
                pending::written(done, p)
            }));
            assert(mid.listing(i, k, p) == mid.listing(i, k, p));
            assert(mid.history(p) == mid.history(p));
            assert(mid.name(i) == self.name(i));
        }
    }

    /// What the writes before it landed does not change what a write digs.
    proof fn lemma_dug(
        &self,
        mid: &Self,
        ws: Seq<Write<V>>,
        at: int,
        revision: Revision,
        compacted: Revision,
    )
        requires
            pending::distinct(ws),
            0 <= at < ws.len(),
            self.takes(mid, ws.subrange(0, at), revision, compacted),
        ensures
            mid.digs(ws[at], mid.history(ws[at].key), revision) == self.digs(
                ws[at],
                self.history(ws[at].key),
                revision,
            ),
            self.lowest_dug(ws.subrange(0, at + 1), revision) == lower(
                self.lowest_dug(ws.subrange(0, at), revision),
                self.digs(ws[at], self.history(ws[at].key), revision),
            ),
    {
        let w = ws[at];
        let done = ws.subrange(0, at);
        let more = ws.subrange(0, at + 1);
        assert(more.drop_last() =~= done);
        assert(more.last() == w);
        if pending::place_of(done, w.key) >= 0 {
            let i = pending::place_of(done, w.key);
            assert(done[i].key == w.key);
            assert(ws[i].key != ws[at].key);
        }
        assert(mid.history(w.key) == self.history(w.key));
        mid.lemma_same_drops(self);
    }

    /// The tombstones a write leaves are the ones it put there and the ones
    /// that were there.
    proof fn lemma_buried(
        &self,
        after: &Self,
        w: Write<V>,
        revision: Revision,
        compacted: Revision,
        low: Revision,
        bound: Revision,
    )
        requires
            self.buried_above(bound),
            self.lands(after, w, revision, compacted),
            forall|r: Revision|
                #![trigger row::buried_by(after.history(w.key), r)]
                row::buried_by(after.history(w.key), r) ==> low <= r,
            forall|i: int, k: Seq<u8>, r: Revision|
                #![trigger row::buried_by(after.listing(i, k, w.key), r)]
                0 <= i < self.count() && k.len() <= u32::MAX && row::buried_by(
                    after.listing(i, k, w.key),
                    r,
                ) ==> low <= r || row::buried_by(self.listing(i, k, w.key), r),
        ensures
            after.buried_above(if low < bound {
                low
            } else {
                bound
            }),
    {
        assert forall|k: Seq<u8>, r: Revision| #[trigger]
            row::buried_by(after.history(k), r) implies (if low < bound {
            low
        } else {
            bound
        }) <= r by {
            if k != w.key {
                assert(row::buried_by(self.history(k), r));
            }
        }
        assert forall|i: int, k: Seq<u8>, p: Seq<u8>, r: Revision|
            #![trigger row::buried_by(after.listing(i, k, p), r)]
            0 <= i < after.count() && k.len() <= u32::MAX && row::buried_by(
                after.listing(i, k, p),
                r,
            ) implies (if low < bound {
            low
        } else {
            bound
        }) <= r by {
            if p != w.key {
                assert(row::buried_by(self.listing(i, k, p), r));
            } else {
                assert(low <= r || row::buried_by(self.listing(i, k, w.key), r));
            }
        }
    }

    /// The counters say nothing about the rows.
    proof fn lemma_same(&self, other: &Self)
        requires
            self.primary == other.primary,
            self.indexes == other.indexes,
            self.primary_key == other.primary_key,
        ensures
            self.wf() == other.wf(),
            forall|k: Seq<u8>| #[trigger] self.history(k) == other.history(k),
            forall|i: int, k: Seq<u8>, p: Seq<u8>| #[trigger]
                self.listing(i, k, p) == other.listing(i, k, p),
            self.same_schema(other),
            forall|revision: Revision, floor: Revision|
                other.sound(revision, floor) ==> #[trigger] self.sound(revision, floor),
            forall|low: Revision| other.buried_above(low) ==> #[trigger] self.buried_above(low),
            forall|was: &Self, ws: Seq<Write<V>>, revision: Revision, compacted: Revision|
                was.takes(other, ws, revision, compacted) ==> #[trigger] was.takes(
                    self,
                    ws,
                    revision,
                    compacted,
                ),
            forall|was: &Self, rev: Revision|
                was.sweeps(other, rev) ==> #[trigger] was.sweeps(self, rev),
    {
        assert forall|revision: Revision, floor: Revision|
            other.sound(revision, floor) implies #[trigger] self.sound(revision, floor) by {
            assert forall|k: Seq<u8>|
                row::ordered(#[trigger] self.history(k)) && row::capped(
                    self.history(k),
                    revision,
                ) by {
                assert(row::ordered(other.history(k)));
            }
            assert forall|i: int, k: Seq<u8>, p: Seq<u8>|
                0 <= i < self.count() && k.len() <= u32::MAX implies row::capped(
                #[trigger] self.listing(i, k, p),
                revision,
            ) by {
                assert(row::capped(other.listing(i, k, p), revision));
            }
            assert forall|i: int, k: Seq<u8>, p: Seq<u8>, r: Revision|
                0 <= i < self.count() && k.len() <= u32::MAX && floor
                    <= r implies #[trigger] self.agrees(i, k, p, r) by {
                assert(other.agrees(i, k, p, r));
            }
        }
        assert forall|low: Revision| other.buried_above(low) implies #[trigger] self.buried_above(
            low,
        ) by {
            assert forall|k: Seq<u8>, r: Revision| #[trigger]
                row::buried_by(self.history(k), r) implies low <= r by {
                assert(row::buried_by(other.history(k), r));
            }
            assert forall|i: int, k: Seq<u8>, p: Seq<u8>, r: Revision|
                #![trigger row::buried_by(self.listing(i, k, p), r)]
                0 <= i < self.count() && k.len() <= u32::MAX && row::buried_by(
                    self.listing(i, k, p),
                    r,
                ) implies low <= r by {
                assert(row::buried_by(other.listing(i, k, p), r));
            }
        }
        assert forall|was: &Self, ws: Seq<Write<V>>, revision: Revision, compacted: Revision|
            was.takes(other, ws, revision, compacted) implies #[trigger] was.takes(
            self,
            ws,
            revision,
            compacted,
        ) by {
            assert forall|i: int| 0 <= i < self.count() implies #[trigger] self.name(i)
                == was.name(i) && self.keys(i) == was.keys(i) by {
                assert(other.name(i) == was.name(i));
            }
            assert forall|k: Seq<u8>| #[trigger] self.history(k) == other.history(k) by {}
            assert forall|i: int, k: Seq<u8>, p: Seq<u8>| #[trigger] self.listing(i, k, p)
                == other.listing(i, k, p) by {}
        }
        assert forall|was: &Self, rev: Revision|
            was.sweeps(other, rev) implies #[trigger] was.sweeps(self, rev) by {
            assert forall|i: int| 0 <= i < self.count() implies #[trigger] self.name(i)
                == was.name(i) && self.keys(i) == was.keys(i) by {
                assert(other.name(i) == was.name(i));
            }
            assert forall|k: Seq<u8>| #[trigger] self.history(k) == other.history(k) by {}
            assert forall|i: int, k: Seq<u8>, p: Seq<u8>| #[trigger] self.listing(i, k, p)
                == other.listing(i, k, p) by {}
        }
    }
}

impl<V, P, X> TableEntry<V, P, X> where P: Fn(&V) -> Key, X: Fn(&V) -> Vec<Key> {
    /// Writes everything the buffer holds, in order, and a change record for
    /// every key written. Returns the place the next record takes.
    pub fn apply(
        &mut self,
        buffer: Buffer<V>,
        revision: Revision,
        compacted: Revision,
        pos: usize,
        seq: u32,
        changes: &mut Tree<Key>,
        Ghost(floor): Ghost<Revision>,
    ) -> (next: u32)
        requires
            old(self).wf(),
            buffer.wf(),
            forall|i: int| 0 <= i < buffer@.len() ==> timely(#[trigger] buffer@[i], revision),
            old(self).sound(revision, floor),
            forall|i: int|
                0 <= i < buffer@.len() && (#[trigger] buffer@[i]).loaded is Some ==> floor
                    >= revision,
            floor < revision ==> compacted <= floor,
            old(self).buried_above(old(self).counters().buried),
            pos <= u32::MAX,
            seq + buffer@.len() <= u32::MAX,
            old(changes).wf(),
            record::all_records(old(changes).entries()),
            past_records(old(changes).entries(), pos as nat, revision, seq as nat),
        ensures
            final(self).wf(),
            old(self).takes(final(self), buffer@, revision, compacted),
            final(self).sound(revision, floor),
            final(self).buried_above(final(self).counters().buried),
            final(self).counters().revision == revision,
            final(self).counters().lost == old(self).counters().lost,
            final(self).counters().buried == lower(
                old(self).counters().buried,
                old(self).lowest_dug(buffer@, revision),
            ),
            next == seq + fresh(buffer@, revision).len(),
            final(changes).wf(),
            record::filed(
                old(changes).entries(),
                final(changes).entries(),
                pos as nat,
                revision as nat,
                seq as nat,
                fresh(buffer@, revision),
            ),
            record::all_records(final(changes).entries()),
            forall|t: nat| #[trigger]
                record::records(final(changes).entries(), t) == (if t == pos {
                    record::records(old(changes).entries(), t) + fresh(buffer@, revision)
                } else {
                    record::records(old(changes).entries(), t)
                }),
    {
        let ghost was = *self;
        let ghost ws = buffer@;
        let ghost e = changes.entries();
        let mut buried: Revision = u64::MAX;
        let mut place: u32 = seq;
        proof {
            buffer.lemma_distinct();
            assert(ws.subrange(0, 0) =~= Seq::empty());
            self.lemma_takes_none(revision, compacted);
            assert forall|t: nat| #[trigger]
                record::records(e, t) == (if t == pos {
                    record::records(e, t) + fresh(ws.subrange(0, 0), revision)
                } else {
                    record::records(e, t)
                }) by {
                assert(record::records(e, t) + fresh(ws.subrange(0, 0), revision)
                    =~= record::records(e, t));
            }
        }
        let n = buffer.len();
        for at in 0..n
            invariant
                n == ws.len(),
                ws == buffer@,
                buffer.wf(),
                pending::distinct(ws),
                was == *old(self),
                self.wf(),
                self.counters() == was.counters(),
                forall|i: int| 0 <= i < ws.len() ==> timely(#[trigger] ws[i], revision),
                forall|i: int|
                    0 <= i < ws.len() && (#[trigger] ws[i]).loaded is Some ==> floor >= revision,
                floor < revision ==> compacted <= floor,
                self.sound(revision, floor),
                was.takes(self, ws.subrange(0, at as int), revision, compacted),
                self.buried_above(lower(was.counters().buried, buried)),
                buried == was.lowest_dug(ws.subrange(0, at as int), revision),
                pos <= u32::MAX,
                place == seq + fresh(ws.subrange(0, at as int), revision).len(),
                record::filed(
                    e,
                    changes.entries(),
                    pos as nat,
                    revision as nat,
                    seq as nat,
                    fresh(ws.subrange(0, at as int), revision),
                ),
                seq + n <= u32::MAX,
                changes.wf(),
                record::all_records(changes.entries()),
                past_records(changes.entries(), pos as nat, revision, place as nat),
                forall|t: nat| #[trigger]
                    record::records(changes.entries(), t) == (if t == pos {
                        record::records(e, t) + fresh(ws.subrange(0, at as int), revision)
                    } else {
                        record::records(e, t)
                    }),
        {
            let ghost mid = *self;
            let ghost done = ws.subrange(0, at as int);
            let ghost more = ws.subrange(0, at + 1);
            proof {
                lemma_fresh_len(done, revision);
            }
            let pending = buffer.pending(at);
            let low = self.land(pending, revision, compacted);
            proof {
                let w = ws[at as int];
                assert(more.drop_last() =~= done);
                assert(more.last() == w);
                mid.lemma_lands(self, w, revision, compacted, floor);
                was.lemma_takes_more(&mid, self, ws, at as int, revision, compacted);
                mid.lemma_buried(
                    self,
                    w,
                    revision,
                    compacted,
                    low,
                    lower(was.counters().buried, buried),
                );
                was.lemma_dug(&mid, ws, at as int, revision, compacted);
            }
            if low < buried {
                buried = low;
            }
            if pending.wrote.is_some() {
                let record = stream_key(pos, revision, place);
                let ghost k = record@;
                let ghost now = changes.entries();
                proof {
                    changes.lemma_sorted();
                    record::lemma_record(pos as nat, revision as nat, place as nat);
                    assert forall|i: int|
                        0 <= i < now.len() && record::table_at((#[trigger] now[i]).0)
                            == record::table_at(k) implies record::earlier(now[i].0, k) by {}
                }
                let key = owned(pending.key.as_slice());
                proof {
                    assert forall|t: nat| #[trigger]
                        record::records(entries::put(now, k, key), t) == (if t == pos {
                            record::records(e, t) + fresh(more, revision)
                        } else {
                            record::records(e, t)
                        }) by {
                        record::lemma_record_put(now, k, key, t);
                        assert(record::records(now, t) == record::records(now, t));
                        if t == pos {
                            assert(record::records(entries::put(now, k, key), t)
                                =~= record::records(e, t) + fresh(more, revision));
                        }
                    }
                    record::lemma_record_put(now, k, key, pos as nat);
                    record::lemma_filed(
                        e,
                        now,
                        pos as nat,
                        revision as nat,
                        seq as nat,
                        fresh(done, revision),
                        Record { revision: revision as nat, key: ws[at as int].key },
                        key,
                    );
                    lemma_past_put(now, k, key, pos as nat, revision, place as nat);
                }
                changes.insert(record.as_slice(), key);
                place += 1;
            }
        }
        proof {
            assert(ws.subrange(0, n as int) =~= ws);
        }
        let ghost turned = *self;
        self.state.revision = revision;
        if buried < self.state.buried {
            self.state.buried = buried;
        }
        proof {
            self.lemma_same(&turned);
            assert(was.takes(self, ws, revision, compacted));
            assert(self.sound(revision, floor));
        }
        place
    }
}

impl<V, P, X> TableEntry<V, P, X> where P: Fn(&V) -> Key, X: Fn(&V) -> Vec<Key> {
    /// Removes the rows and index entries a tombstone at or below `rev` ended,
    /// and leaves `buried` at the lowest tombstone that survives.
    pub fn sweep(&mut self, rev: Revision)
        requires
            old(self).wf(),
        ensures
            final(self).wf(),
            old(self).sweeps(final(self), rev),
            final(self).buried_above(final(self).counters().buried),
            final(self).counters().buried < u64::MAX ==> final(self).some_buried(
                final(self).count() as int,
                final(self).counters().buried,
            ),
            final(self).counters().revision == old(self).counters().revision,
            final(self).counters().lost == old(self).counters().lost,
    {
        let ghost was = *self;
        let mut buried = swept(&mut self.primary, rev);
        proof {
            if buried < u64::MAX {
                let k = choose|k: Seq<u8>|
                    #![trigger rows::history(self.primary.entries(), k)]
                    row::buried_by(rows::history(self.primary.entries(), k), buried);
                assert(row::buried_by(self.history(k), buried));
            }
        }
        let n = self.indexes.len();
        for at in 0..n
            invariant
                n == was.indexes@.len(),
                n == self.indexes@.len(),
                was == *old(self),
                was.wf(),
                rows::rows_wf(&self.primary),
                self.state == was.state,
                self.primary_key == was.primary_key,
                forall|k: Seq<u8>| #[trigger]
                    self.history(k) == (if row::buried_by(was.history(k), rev) {
                        Seq::empty()
                    } else {
                        was.history(k)
                    }),
                forall|k: Seq<u8>, r: Revision| #[trigger]
                    row::buried_by(self.history(k), r) ==> buried <= r,
                forall|i: int|
                    0 <= i < n ==> {
                        let l = #[trigger] self.indexes@[i];
                        &&& l.wf()
                        &&& l.name() == was.name(i)
                        &&& l.keys() == was.keys(i)
                    },
                forall|i: int| at <= i < n ==> #[trigger] self.indexes@[i] == was.indexes@[i],
                forall|i: int, k: Seq<u8>, p: Seq<u8>|
                    0 <= i < at ==> #[trigger] self.listing(i, k, p) == (if row::buried_by(
                        was.listing(i, k, p),
                        rev,
                    ) {
                        Seq::empty()
                    } else {
                        was.listing(i, k, p)
                    }),
                forall|i: int, k: Seq<u8>, p: Seq<u8>, r: Revision|
                    #![trigger row::buried_by(self.listing(i, k, p), r)]
                    0 <= i < at && row::buried_by(self.listing(i, k, p), r) ==> buried <= r,
                buried < u64::MAX ==> self.some_buried(at as int, buried),
        {
            let ghost mid = *self;
            assert(was.indexes@[at as int] == self.indexes@[at as int]);
            let listing = &mut self.indexes[at];
            let low = listing.sweep(rev);
            proof {
                assert forall|k: Seq<u8>| #[trigger] self.history(k) == mid.history(k) by {}
                assert forall|i: int| 0 <= i < n implies {
                    let l = #[trigger] self.indexes@[i];
                    &&& l.wf()
                    &&& l.name() == was.name(i)
                    &&& l.keys() == was.keys(i)
                } by {
                    if i != at {
                        assert(self.indexes@[i] == mid.indexes@[i]);
                    }
                }
                assert forall|i: int, k: Seq<u8>, p: Seq<u8>|
                    0 <= i < at + 1 implies #[trigger] self.listing(i, k, p) == (
                if row::buried_by(was.listing(i, k, p), rev) {
                    Seq::empty()
                } else {
                    was.listing(i, k, p)
                }) by {
                    if i < at {
                        assert(self.listing(i, k, p) == mid.listing(i, k, p));
                    }
                }
                assert forall|i: int, k: Seq<u8>, p: Seq<u8>, r: Revision|
                    #![trigger row::buried_by(self.listing(i, k, p), r)]
                    0 <= i < at + 1 && row::buried_by(self.listing(i, k, p), r) implies (if low
                    < buried {
                    low
                } else {
                    buried
                }) <= r by {
                    if i < at {
                        assert(self.listing(i, k, p) == mid.listing(i, k, p));
                        assert(row::buried_by(mid.listing(i, k, p), r));
                    }
                }
                assert forall|k: Seq<u8>, r: Revision| #[trigger]
                    row::buried_by(self.history(k), r) implies (if low < buried {
                    low
                } else {
                    buried
                }) <= r by {
                    assert(row::buried_by(mid.history(k), r));
                }
                if low < buried {
                    let (k, p) = choose|k: Seq<u8>, p: Seq<u8>|
                        #![trigger self.indexes@[at as int].at(k, p)]
                        k.len() <= u32::MAX && row::buried_by(
                            self.indexes@[at as int].at(k, p),
                            low,
                        );
                    assert(row::buried_by(self.listing(at as int, k, p), low));
                } else if buried < u64::MAX {
                    mid.lemma_still_buried(self, at as int, at + 1, buried);
                }
            }
            if low < buried {
                buried = low;
            }
        }
        let ghost turned = *self;
        self.state.buried = buried;
        proof {
            assert forall|i: int| 0 <= i < turned.count() implies #[trigger] turned.name(i)
                == was.name(i) && turned.keys(i) == was.keys(i) by {
                assert(turned.indexes@[i].name() == was.name(i));
            }
            assert forall|i: int, j: int| 0 <= i < j < turned.indexes@.len() implies (
            #[trigger] turned.indexes@[i]).name() != (#[trigger] turned.indexes@[j]).name() by {
                assert(was.indexes@[i].name() != was.indexes@[j].name());
            }
            assert forall|i: int| 0 <= i < turned.indexes@.len() implies listing::pure::<V, X>(
                (#[trigger] turned.indexes@[i]).keys(),
            ) by {
                assert(listing::pure::<V, X>(was.indexes@[i].keys()));
            }
            assert(turned.wf());
            assert(was.sweeps(&turned, rev));
            assert(turned.buried_above(buried));
            self.lemma_same(&turned);
            if buried < u64::MAX {
                turned.lemma_still_buried(self, n as int, n as int, buried);
            }
        }
    }

    /// A tombstone that stays where it was is still there.
    proof fn lemma_still_buried(&self, after: &Self, n: int, more: int, low: Revision)
        requires
            self.some_buried(n, low),
            n <= more,
            forall|k: Seq<u8>| #[trigger] after.history(k) == self.history(k),
            forall|i: int, k: Seq<u8>, p: Seq<u8>|
                0 <= i < n ==> #[trigger] after.listing(i, k, p) == self.listing(i, k, p),
        ensures
            after.some_buried(more, low),
    {
        if exists|k: Seq<u8>| #[trigger] row::buried_by(self.history(k), low) {
            let k = choose|k: Seq<u8>| #[trigger] row::buried_by(self.history(k), low);
            assert(row::buried_by(after.history(k), low));
        } else {
            let (i, k, p) = choose|i: int, k: Seq<u8>, p: Seq<u8>|
                0 <= i < n && k.len() <= u32::MAX && #[trigger] row::buried_by(
                    self.listing(i, k, p),
                    low,
                );
            assert(row::buried_by(after.listing(i, k, p), low));
        }
    }

    /// An empty table is sound.
    pub proof fn lemma_fresh(&self, revision: Revision, floor: Revision)
        requires
            forall|k: Seq<u8>| #[trigger] self.history(k).len() == 0,
            forall|i: int, k: Seq<u8>, p: Seq<u8>|
                0 <= i < self.count() ==> #[trigger] self.listing(i, k, p).len() == 0,
        ensures
            self.sound(revision, floor),
            self.buried_above(u64::MAX),
    {
        assert forall|k: Seq<u8>|
            row::ordered(#[trigger] self.history(k)) && row::capped(self.history(k), revision) by {
            assert(self.history(k).len() == 0);
        }
        assert forall|i: int, k: Seq<u8>, p: Seq<u8>, r: Revision|
            0 <= i < self.count() && k.len() <= u32::MAX && floor <= r implies #[trigger] self.agrees(
            i,
            k,
            p,
            r,
        ) by {
            assert(self.history(p).len() == 0);
            assert(self.listing(i, k, p).len() == 0);
        }
    }

    /// Sweeping a table that holds the same is sweeping this one.
    pub proof fn lemma_sweeps_alike(&self, noted: &Self, after: &Self, rev: Revision)
        requires
            noted.sweeps(after, rev),
            noted.same_schema(self),
            forall|k: Seq<u8>| #[trigger] noted.history(k) == self.history(k),
            forall|i: int, k: Seq<u8>, p: Seq<u8>| #[trigger]
                noted.listing(i, k, p) == self.listing(i, k, p),
        ensures
            self.sweeps(after, rev),
    {
        assert forall|i: int| 0 <= i < self.count() implies #[trigger] after.name(i)
            == self.name(i) && after.keys(i) == self.keys(i) by {
            assert(after.name(i) == noted.name(i));
            assert(after.keys(i) == noted.keys(i));
            assert(noted.name(i) == self.name(i));
            assert(noted.keys(i) == self.keys(i));
        }
        assert forall|k: Seq<u8>| #[trigger] after.history(k) == (if row::buried_by(
            self.history(k),
            rev,
        ) {
            Seq::empty()
        } else {
            self.history(k)
        }) by {
            assert(noted.history(k) == self.history(k));
        }
        assert forall|i: int, k: Seq<u8>, p: Seq<u8>|
            0 <= i < self.count() && k.len() <= u32::MAX implies #[trigger] after.listing(i, k, p)
            == (if row::buried_by(self.listing(i, k, p), rev) {
            Seq::empty()
        } else {
            self.listing(i, k, p)
        }) by {
            assert(noted.listing(i, k, p) == self.listing(i, k, p));
        }
    }

    /// A table that is sound is so for fewer readers and at a later revision.
    pub proof fn lemma_later(
        &self,
        revision: Revision,
        floor: Revision,
        later: Revision,
        higher: Revision,
    )
        requires
            self.sound(revision, floor),
            revision <= later,
            floor <= higher,
        ensures
            self.sound(later, higher),
    {
        assert forall|k: Seq<u8>|
            row::ordered(#[trigger] self.history(k)) && row::capped(self.history(k), later) by {
            assert(row::capped(self.history(k), revision));
        }
        assert forall|i: int, k: Seq<u8>, p: Seq<u8>|
            0 <= i < self.count() && k.len() <= u32::MAX implies row::capped(
            #[trigger] self.listing(i, k, p),
            later,
        ) by {
            assert(row::capped(self.listing(i, k, p), revision));
        }
    }

    /// A table that holds no tombstone so low has nothing to sweep.
    pub proof fn lemma_nothing_to_sweep(&self, rev: Revision)
        requires
            self.buried_above(self.counters().buried),
            rev < self.counters().buried,
        ensures
            self.sweeps(self, rev),
    {
        assert forall|k: Seq<u8>| !#[trigger] row::buried_by(self.history(k), rev) by {}
        assert forall|i: int, k: Seq<u8>, p: Seq<u8>|
            0 <= i < self.count() && k.len() <= u32::MAX implies !#[trigger] row::buried_by(
            self.listing(i, k, p),
            rev,
        ) by {}
    }

    /// Sweeping leaves the table sound for the readers at or above the bound,
    /// and for the one at the revision the table stands at.
    pub proof fn lemma_sweeps(
        &self,
        after: &Self,
        rev: Revision,
        revision: Revision,
        floor: Revision,
        next: Revision,
    )
        requires
            self.sound(revision, floor),
            self.sweeps(after, rev),
            floor <= next,
            rev <= next || revision <= next,
        ensures
            after.sound(revision, next),
    {
        assert forall|k: Seq<u8>|
            row::ordered(#[trigger] after.history(k)) && row::capped(after.history(k), revision) by {
            assert(row::ordered(self.history(k)));
        }
        assert forall|i: int, k: Seq<u8>, p: Seq<u8>|
            0 <= i < after.count() && k.len() <= u32::MAX implies row::capped(
            #[trigger] after.listing(i, k, p),
            revision,
        ) by {
            assert(row::capped(self.listing(i, k, p), revision));
        }
        assert forall|i: int, k: Seq<u8>, p: Seq<u8>, r: Revision|
            0 <= i < after.count() && k.len() <= u32::MAX && next <= r implies #[trigger] after.agrees(
            i,
            k,
            p,
            r,
        ) by {
            assert(self.agrees(i, k, p, r));
            assert(after.name(i) == self.name(i));
            let h = self.history(p);
            let l = self.listing(i, k, p);
            assert(row::capped(h, revision));
            assert(row::capped(l, revision));
            assert(after.listing(i, k, p) == after.listing(i, k, p));
            assert(after.history(p) == after.history(p));
            if row::buried_by(h, rev) {
                assert(h[h.len() - 1].revision <= r);
            }
            if row::buried_by(l, rev) {
                assert(l[l.len() - 1].revision <= r);
            }
        }
    }

    /// The counters.
    pub fn state(&self) -> (state: &State)
        ensures
            *state == self.counters(),
    {
        &self.state
    }

    /// Notes that records up to `lost` were dropped.
    pub fn lose(&mut self, lost: Revision)
        ensures
            final(self).wf() == old(self).wf(),
            final(self).counters() == (State {
                lost: if lost > old(self).counters().lost {
                    lost
                } else {
                    old(self).counters().lost
                },
                ..old(self).counters()
            }),
            forall|k: Seq<u8>| #[trigger] final(self).history(k) == old(self).history(k),
            forall|i: int, k: Seq<u8>, p: Seq<u8>| #[trigger]
                final(self).listing(i, k, p) == old(self).listing(i, k, p),
            final(self).same_schema(old(self)),
            forall|revision: Revision, floor: Revision|
                old(self).sound(revision, floor) ==> #[trigger] final(self).sound(revision, floor),
            forall|low: Revision|
                old(self).buried_above(low) ==> #[trigger] final(self).buried_above(low),
    {
        let ghost was = *self;
        if lost > self.state.lost {
            self.state.lost = lost;
        }
        proof {
            self.lemma_same(&was);
        }
    }

    /// The value a reader at `at` sees at `key`.
    pub fn live(&self, key: &[u8], at: Revision) -> (found: Option<(Arc<V>, Revision)>)
        requires
            self.wf(),
        ensures
            found == row::live(self.history(key@), at),
    {
        match self.primary.find(key) {
            Some(row) => row.live(at),
            None => None,
        }
    }

    /// The versions a reader at `at` sees at `key`, oldest first.
    pub fn versions(&self, key: &[u8], at: Revision) -> (versions: Vec<Version<V>>)
        requires
            self.wf(),
        ensures
            versions@ == row::upto(self.history(key@), at),
    {
        match self.primary.find(key) {
            Some(row) => row.versions(at),
            None => {
                let none = Vec::new();
                assert(none@ =~= row::upto(self.history(key@), at));
                none
            },
        }
    }

    /// The version one commit left at `key`, if the row still holds it.
    pub fn exactly(&self, key: &[u8], revision: Revision) -> (version: Option<Version<V>>)
        requires
            self.wf(),
        ensures
            version == row::exactly(self.history(key@), revision),
    {
        match self.primary.find(key) {
            Some(row) => match row.exactly(revision) {
                Some(version) => Some(version.clone()),
                None => None,
            },
            None => None,
        }
    }

    /// The entries with a key at or after `from` and under a prefix, in order.
    pub fn scan(
        &self,
        buffer: Option<&Buffer<V>>,
        at: Revision,
        from: &[u8],
        under: Option<&[u8]>,
    ) -> (list: Vec<(Key, Arc<V>, Revision)>)
        requires
            self.wf(),
            buffer matches Some(b) ==> b.wf(),
            under matches Some(p) ==> p@ == from@,
        ensures
            entries::sorted(scan::shown(list@)),
            forall|k: Seq<u8>| #[trigger]
                entries::get(scan::shown(list@), k) == (if scan::wanted(
                    k,
                    from@,
                    scan::prefix_of(under),
                ) {
                    scan::visible(
                        self.history(k),
                        pending::written(scan::buffered(buffer), k),
                        at,
                    )
                } else {
                    None
                }),
    {
        merged(&self.primary, buffer, at, from, under)
    }

    /// The primary key of a value.
    pub fn key_of(&self, value: &V) -> (key: Key)
        requires
            self.wf(),
        ensures
            call_ensures(self.key(), (value,), key),
    {
        (self.primary_key)(value)
    }

    /// The place of the index called `name`.
    pub fn index(&self, name: &str) -> (found: Option<usize>)
        requires
            self.wf(),
        ensures
            match found {
                Some(i) => i < self.count() && self.name(i as int) == name@,
                None => forall|i: int| 0 <= i < self.count() ==> #[trigger] self.name(i) != name@,
            },
    {
        let n = self.indexes.len();
        for at in 0..n
            invariant
                n == self.indexes@.len(),
                forall|i: int| 0 <= i < at ==> #[trigger] self.name(i) != name@,
        {
            if self.indexes[at].called(name) {
                return Some(at);
            }
        }
        None
    }

    /// Primary key `p` is listed under `k` in index `i` for a reader at `at`,
    /// and the reader sees its row.
    pub open spec fn listed_at(&self, i: int, k: Seq<u8>, p: Seq<u8>, at: Revision) -> bool {
        &&& row::alive(row::version_at(self.listing(i, k, p), at)) is Some
        &&& row::live(self.history(p), at) is Some
    }

    /// `out` is every value listed under `k` in index `i`, in the order of the
    /// primary keys.
    pub open spec fn answers(
        &self,
        i: int,
        k: Seq<u8>,
        at: Revision,
        out: Seq<(Arc<V>, Revision)>,
    ) -> bool {
        exists|ps: Seq<Seq<u8>>|
            {
                &&& #[trigger] bytes::ascending(ps)
                &&& ps.len() == out.len()
                &&& forall|p: Seq<u8>| ps.contains(p) <==> #[trigger] self.listed_at(i, k, p, at)
                &&& forall|j: int|
                    0 <= j < ps.len() ==> row::live(self.history(#[trigger] ps[j]), at) == Some(
                        out[j],
                    )
            }
    }

    /// Every value listed under `key` in index `i`, in primary key order,
    /// resolved through the row each entry names.
    pub fn by_index(&self, i: usize, key: &[u8], at: Revision) -> (out: Vec<(Arc<V>, Revision)>)
        requires
            self.wf(),
            i < self.count(),
            key@.len() <= u32::MAX,
        ensures
            self.answers(i as int, key@, at, out@),
    {
        let hits = self.indexes[i].hits(key, at);
        let mut out: Vec<(Arc<V>, Revision)> = Vec::new();
        let ghost mut ps: Seq<Seq<u8>> = Seq::empty();
        let n = hits.len();
        for x in 0..n
            invariant
                self.wf(),
                i < self.indexes@.len(),
                n == hits@.len(),
                bytes::ascending(listing::views(hits@)),
                ps.len() == out@.len(),
                resolved(listing::views(hits@), x as int, ps),
                forall|j: int| 0 <= j < x ==> {
                    let p = #[trigger] listing::views(hits@)[j];
                    row::live(self.history(p), at) is Some ==> ps.contains(p)
                },
                forall|j: int|
                    0 <= j < ps.len() ==> row::live(self.history(#[trigger] ps[j]), at) == Some(
                        out@[j],
                    ),
        {
            let ghost before = ps;
            let ghost v = listing::views(hits@);
            if let Some(found) = self.live(hits[x].as_slice(), at) {
                out.push(found);
                proof {
                    ps = ps.push(v[x as int]);
                    lemma_resolved(v, x as int, before, ps);
                }
            } else {
                proof {
                    lemma_resolved_none(v, x as int, ps);
                }
            }
            proof {
                assert forall|j: int| 0 <= j < x + 1 implies {
                    let p = #[trigger] v[j];
                    row::live(self.history(p), at) is Some ==> ps.contains(p)
                } by {
                    let p = v[j];
                    if row::live(self.history(p), at) is Some {
                        if j < x {
                            assert(before.contains(p));
                            let y = choose|y: int| 0 <= y < before.len() && before[y] == p;
                            assert(ps[y] == p);
                        } else {
                            assert(ps[ps.len() - 1] == p);
                        }
                    }
                }
            }
        }
        proof {
            let v = listing::views(hits@);
            assert forall|p: Seq<u8>| ps.contains(p) <==> #[trigger] self.listed_at(
                i as int,
                key@,
                p,
                at,
            ) by {
                assert(entries::among(hits@, p) == (row::alive(
                    row::version_at(self.indexes@[i as int].at(key@, p), at),
                ) is Some));
                if ps.contains(p) {
                    let y = choose|y: int| 0 <= y < ps.len() && ps[y] == p;
                    assert(drawn(v, n as int, ps[y]));
                    let x = choose|x: int| 0 <= x < n && #[trigger] v[x] == ps[y];
                    assert(hits@[x]@ == p);
                    assert(row::live(self.history(ps[y]), at) == Some(out@[y]));
                }
                if self.listed_at(i as int, key@, p, at) {
                    let x = choose|x: int| 0 <= x < hits@.len() && (#[trigger] hits@[x])@ == p;
                    assert(v[x] == p);
                }
            }
        }
        out
    }
}

/// `p` is one of the first `n` of `v`.
spec fn drawn(v: Seq<Seq<u8>>, n: int, p: Seq<u8>) -> bool {
    exists|x: int| 0 <= x < n && #[trigger] v[x] == p
}

/// `ps` holds some of the first `n` of `v`, in their order.
spec fn resolved(v: Seq<Seq<u8>>, n: int, ps: Seq<Seq<u8>>) -> bool {
    &&& bytes::ascending(ps)
    &&& forall|y: int| 0 <= y < ps.len() ==> drawn(v, n, #[trigger] ps[y])
}

proof fn lemma_resolved(v: Seq<Seq<u8>>, n: int, before: Seq<Seq<u8>>, ps: Seq<Seq<u8>>)
    requires
        bytes::ascending(v),
        0 <= n < v.len(),
        resolved(v, n, before),
        ps == before.push(v[n]),
    ensures
        resolved(v, n + 1, ps),
{
    assert forall|a: int, b: int| 0 <= a < b < ps.len() implies bytes::lt(
        #[trigger] ps[a],
        #[trigger] ps[b],
    ) by {
        assert(ps[a] == before[a]);
        if b < before.len() {
            assert(ps[b] == before[b]);
        } else {
            assert(drawn(v, n, before[a]));
            let x = choose|x: int| 0 <= x < n && #[trigger] v[x] == before[a];
            assert(bytes::lt(v[x], v[n]));
        }
    }
    assert forall|y: int| 0 <= y < ps.len() implies drawn(v, n + 1, #[trigger] ps[y]) by {
        if y < before.len() {
            assert(drawn(v, n, before[y]));
        } else {
            assert(v[n] == ps[y]);
        }
    }
}

proof fn lemma_resolved_none(v: Seq<Seq<u8>>, n: int, ps: Seq<Seq<u8>>)
    requires
        resolved(v, n, ps),
    ensures
        resolved(v, n + 1, ps),
{
    assert forall|y: int| 0 <= y < ps.len() implies drawn(v, n + 1, #[trigger] ps[y]) by {
        assert(drawn(v, n, ps[y]));
    }
}

/// The versions of a row that may not be there.
spec fn chain_of<V>(row: Option<Row<V>>) -> History<V> {
    match row {
        Some(row) => row@,
        None => Seq::empty(),
    }
}

/// The value a row that may not be there holds.
fn held<V>(row: &Option<Row<V>>) -> (value: Option<Arc<V>>)
    ensures
        value == row::held(chain_of(*row)),
{
    match row {
        Some(row) => row.held(),
        None => None,
    }
}

/// An entry that ends with a tombstone ended with it before, or lost its value
/// just now.
proof fn lemma_relisted_buried<V, X: Fn(&V) -> Vec<Key>>(
    l: History<()>,
    keys: X,
    k: Seq<u8>,
    had: Option<Arc<V>>,
    is: Option<Arc<V>>,
    revision: Revision,
    compacted: Revision,
    r: Revision,
)
    ensures
        row::buried_by(
            listing::relisted(
                l,
                listing::lists_held(keys, had, k),
                listing::lists_held(keys, is, k),
                revision,
                compacted,
            ),
            r,
        ) ==> row::buried_by(l, r) || (listing::loses(keys, had, is) && revision <= r),
{
}

} // verus!
