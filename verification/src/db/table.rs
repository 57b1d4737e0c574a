//! A table through its handle: what a reader reads of it, and what a writer
//! buffers for it.

use std::sync::Arc;

use vstd::prelude::*;

use crate::bytes;
use crate::bytes::owned;
use crate::db::entry;
use crate::db::entry::TableEntry;
use crate::db::pending;
use crate::db::pending::Write;
use crate::db::record;
use crate::db::record::{stream_key, table_of};
use crate::db::row;
use crate::db::row::{ascends, History, Version};
use crate::db::scan;
use crate::db::txn::{ReadTxn, Snapshot, WriteTxn};
use crate::db::{Db, Key, Revision, Table};
use crate::entries;
use crate::tree;

verus! {

/// The versions a reader at `at` sees of a key whose row holds `h` and for which
/// `w` is buffered: what was loaded, or what the row holds, and then the write.
pub open spec fn chronicle<V>(h: History<V>, w: Option<Write<V>>, at: Revision) -> History<V> {
    match w {
        Some(w) => pending::topped(w.base(row::upto(h, at)), w.wrote),
        None => row::upto(h, at),
    }
}

/// Why a row cannot be loaded.
#[derive(Debug, Clone, Copy, PartialEq, Eq, Structural)]
pub enum Refusal {
    /// There is no version to load.
    Empty,
    /// The table holds change records a loaded row would strand.
    Recorded,
    /// The newest version is past the transaction's revision.
    Ahead,
    /// The versions are not in ascending revision order.
    Unordered,
}

/// What stands in the way of loading `versions` in a transaction at `revision`
/// into a table that holds change records, or does not.
pub open spec fn refusal<V>(
    recorded: bool,
    revision: Revision,
    versions: History<V>,
) -> Option<Refusal> {
    if versions.len() == 0 {
        Some(Refusal::Empty)
    } else if recorded {
        Some(Refusal::Recorded)
    } else if versions.last().revision > revision {
        Some(Refusal::Ahead)
    } else if !row::ascending(versions) {
        Some(Refusal::Unordered)
    } else {
        None
    }
}

/// `after` is the transaction with `ws` buffered for one table.
pub open spec fn rewrites<V>(
    before: &WriteTxn<V>,
    after: &WriteTxn<V>,
    pos: int,
    ws: Seq<Write<V>>,
) -> bool {
    &&& after.ok()
    &&& after.source() == before.source()
    &&& after.opened_at() == before.opened_at()
    &&& after.writes_at() == before.writes_at()
    &&& after.width() == before.width()
    &&& after.size() <= before.size() + 1
    &&& forall|p: int| #[trigger]
        after.pending(p) == (if p == pos {
            ws
        } else {
            before.pending(p)
        })
}

impl<V, P, X> Db<V, P, X> where P: Fn(&V) -> Key, X: Fn(&V) -> Vec<Key> {
    /// The snapshot belongs to this database, and so does the table.
    pub open spec fn serves<S: Snapshot<V>>(&self, table: &Table<V>, txn: &S) -> bool {
        &&& self.owns(table)
        &&& txn.db() == self.tag()
        &&& txn.wf()
    }

    /// The value a snapshot sees at a key of a table, and its revision.
    pub open spec fn sees<S: Snapshot<V>>(&self, table: &Table<V>, txn: &S, k: Seq<u8>) -> Option<
        (Arc<V>, Revision),
    > {
        scan::visible(
            self.entry(table.at()).history(k),
            pending::written(txn.writes(table.at()), k),
            txn.reads_at(),
        )
    }

    /// The versions a snapshot sees of a key of a table, oldest first.
    pub open spec fn recounts<S: Snapshot<V>>(
        &self,
        table: &Table<V>,
        txn: &S,
        k: Seq<u8>,
    ) -> History<V> {
        chronicle(
            self.entry(table.at()).history(k),
            pending::written(txn.writes(table.at()), k),
            txn.reads_at(),
        )
    }

    /// `list` is every entry of the table a snapshot sees with a key at or after
    /// `from` and under a prefix, if one is given, in key order.
    pub open spec fn lists<S: Snapshot<V>>(
        &self,
        table: &Table<V>,
        txn: &S,
        from: Seq<u8>,
        under: Option<Seq<u8>>,
        list: Seq<(Key, Arc<V>, Revision)>,
    ) -> bool {
        &&& entries::sorted(scan::shown(list))
        &&& forall|k: Seq<u8>| #[trigger]
            entries::get(scan::shown(list), k) == (if scan::wanted(k, from, under) {
                self.sees(table, txn, k)
            } else {
                None
            })
    }

    /// The table has an index of that name.
    pub open spec fn indexed(&self, table: &Table<V>, index: Seq<char>) -> bool {
        exists|i: int|
            0 <= i < self.entry(table.at()).count() && #[trigger] self.entry(table.at()).name(i)
                == index
    }

    /// The transaction can write to the table.
    pub open spec fn takes_writes(&self, table: &Table<V>, txn: &WriteTxn<V>) -> bool {
        &&& self.owns(table)
        &&& txn.source() == self.tag()
        &&& txn.ok()
        &&& table.at() < txn.width()
    }

    /// Whether the change stream holds a record of one table.
    pub(crate) fn recorded(&self, pos: usize) -> (yes: bool)
        requires
            self.readable(),
            pos < self.count(),
        ensures
            yes == (self.records(pos as int).len() > 0),
    {
        let ghost e = self.changes.entries();
        let ghost table = pos as nat;
        let start = stream_key(pos, 0, 0);
        let mut walk = self.changes.range_from(start.as_slice());
        let ghost was = walk;
        let first = walk.next(&self.changes);
        proof {
            self.changes.lemma_sorted();
            entries::lemma_slot_exists(e, start@);
            record::lemma_record(table, 0, 0);
            let s = entries::slot(e, start@);
            assert(was.rest(e) =~= e.subrange(s, e.len() as int));
            tree::lemma_walk_rest(was, e, tree::plain(first), walk);
            if s < e.len() {
                assert(e[s].0.len() == 16);
                if record::table_at(e[s].0) == table {
                    let j = record::lemma_records_to(e, table, s);
                }
            }
            if self.records(pos as int).len() > 0 {
                let i = record::lemma_records_from(e, table, 0);
                record::lemma_record_order(e[i].0, start@);
                assert(i >= s);
                record::lemma_record_order(e[s].0, start@);
                if s < i {
                    assert(bytes::lt(e[s].0, e[i].0));
                    record::lemma_record_order(e[s].0, e[i].0);
                }
            }
        }
        match first {
            Some((key, _)) => table_of(key.as_slice()) == pos,
            None => false,
        }
    }
}

impl<V> Table<V> {
    /// This table among those of its database.
    fn entry<'a, P, X>(&self, db: &'a Db<V, P, X>) -> (entry: &'a TableEntry<V, P, X>)
        where
            P: Fn(&V) -> Key,
            X: Fn(&V) -> Vec<Key>,
        requires
            db.readable(),
            db.owns(self),
        ensures
            *entry == db.entry(self.at()),
            entry.wf(),
    {
        proof {
            db.lemma_readable();
        }
        &db.tables[self.pos]
    }

    /// The revision of the last commit that changed this table. The table
    /// holds where it stands, not a revision per reader, so a reader that has
    /// fallen behind is told of a commit past its own revision.
    pub fn revision<P, X>(&self, db: &Db<V, P, X>, txn: &ReadTxn) -> (revision: Revision)
        where
            P: Fn(&V) -> Key,
            X: Fn(&V) -> Vec<Key>,
        requires
            db.owns(self),
            txn.db() == db.tag(),
        ensures
            revision == db.entry(self.at()).counters().revision,
    {
        db.tables[self.pos].state().revision
    }

    /// The value at `key` and the revision of the commit that wrote it, unless
    /// the version this reader sees is a tombstone.
    ///
    /// `txn` is a [`ReadTxn`], or a [`WriteTxn`], which also sees its own
    /// writes.
    pub fn get<P, X, S: Snapshot<V>>(&self, db: &Db<V, P, X>, txn: &S, key: &[u8]) -> (found:
        Option<(Arc<V>, Revision)>)
        where
            P: Fn(&V) -> Key,
            X: Fn(&V) -> Vec<Key>,
        requires
            db.readable(),
            db.serves(self, txn),
        ensures
            found == db.sees(self, txn, key@),
    {
        if let Some(buffer) = txn.buffer(self.pos) {
            if let Some(pending) = buffer.written(key) {
                let version = pending.newest();
                return if version.deleted {
                    None
                } else {
                    Some((version.value.clone(), version.revision))
                };
            }
        }
        self.entry(db).live(key, txn.at())
    }

    /// Every version of `key` this reader can see, oldest first, ending with a
    /// tombstone if the key was deleted. Empty if the key was never written, or
    /// if its row has been swept.
    ///
    /// `txn` is a [`ReadTxn`], or a [`WriteTxn`], which also sees its own
    /// writes.
    pub fn versions<P, X, S: Snapshot<V>>(&self, db: &Db<V, P, X>, txn: &S, key: &[u8]) -> (versions:
        Vec<Version<V>>)
        where
            P: Fn(&V) -> Key,
            X: Fn(&V) -> Vec<Key>,
        requires
            db.readable(),
            db.serves(self, txn),
        ensures
            versions@ == chronicle(
                db.entry(self.at()).history(key@),
                pending::written(txn.writes(self.at()), key@),
                txn.reads_at(),
            ),
            versions@ == db.recounts(self, txn, key@),
    {
        if let Some(buffer) = txn.buffer(self.pos) {
            if let Some(pending) = buffer.written(key) {
                let entry = self.entry(db);
                let at = txn.at();
                let stored = || -> (stored: Vec<Version<V>>)
                    requires
                        entry.wf(),
                    ensures
                        stored@ == row::upto(entry.history(key@), at),
                    { entry.versions(key, at) };
                return pending.versions(stored);
            }
        }
        self.entry(db).versions(key, txn.at())
    }

    /// Every entry with a key `>= key`, in order.
    ///
    /// `txn` is a [`ReadTxn`], or a [`WriteTxn`], which also sees its own
    /// writes.
    pub fn lower_bound<P, X, S: Snapshot<V>>(&self, db: &Db<V, P, X>, txn: &S, key: &[u8]) -> (list:
        Vec<(Key, Arc<V>, Revision)>)
        where
            P: Fn(&V) -> Key,
            X: Fn(&V) -> Vec<Key>,
        requires
            db.readable(),
            db.serves(self, txn),
        ensures
            db.lists(self, txn, key@, None, list@),
    {
        self.scan(db, txn, key, None)
    }

    /// Every entry whose key starts with `prefix`, in order.
    ///
    /// `txn` is a [`ReadTxn`], or a [`WriteTxn`], which also sees its own
    /// writes.
    pub fn prefix<P, X, S: Snapshot<V>>(&self, db: &Db<V, P, X>, txn: &S, prefix: &[u8]) -> (list:
        Vec<(Key, Arc<V>, Revision)>)
        where
            P: Fn(&V) -> Key,
            X: Fn(&V) -> Vec<Key>,
        requires
            db.readable(),
            db.serves(self, txn),
        ensures
            db.lists(self, txn, prefix@, Some(prefix@), list@),
    {
        self.scan(db, txn, prefix, Some(prefix))
    }

    /// Every entry, in key order.
    ///
    /// `txn` is a [`ReadTxn`], or a [`WriteTxn`], which also sees its own
    /// writes.
    pub fn all<P, X, S: Snapshot<V>>(&self, db: &Db<V, P, X>, txn: &S) -> (list: Vec<
        (Key, Arc<V>, Revision),
    >)
        where
            P: Fn(&V) -> Key,
            X: Fn(&V) -> Vec<Key>,
        requires
            db.readable(),
            db.serves(self, txn),
        ensures
            db.lists(self, txn, Seq::empty(), None, list@),
    {
        let start: Vec<u8> = Vec::new();
        assert(start@ =~= Seq::empty());
        self.scan(db, txn, start.as_slice(), None)
    }

    fn scan<P, X, S: Snapshot<V>>(
        &self,
        db: &Db<V, P, X>,
        txn: &S,
        from: &[u8],
        under: Option<&[u8]>,
    ) -> (list: Vec<(Key, Arc<V>, Revision)>)
        where
            P: Fn(&V) -> Key,
            X: Fn(&V) -> Vec<Key>,
        requires
            db.readable(),
            db.serves(self, txn),
            under matches Some(p) ==> p@ == from@,
        ensures
            db.lists(self, txn, from@, scan::prefix_of(under), list@),
    {
        let buffer = txn.buffer(self.pos);
        assert(scan::buffered(buffer) == txn.writes(self.at()));
        self.entry(db).scan(buffer, txn.at(), from, under)
    }

    /// Whether the table has an index called `index`.
    pub fn has_index<P, X>(&self, db: &Db<V, P, X>, index: &str) -> (yes: bool)
        where
            P: Fn(&V) -> Key,
            X: Fn(&V) -> Vec<Key>,
        requires
            db.readable(),
            db.owns(self),
        ensures
            yes == db.indexed(self, index@),
    {
        self.entry(db).index(index).is_some()
    }

    /// Every value listed under `key` in the named index, in primary key order,
    /// resolved through the row each entry names.
    pub fn by_index<P, X>(&self, db: &Db<V, P, X>, txn: &ReadTxn, index: &str, key: &[u8]) -> (out:
        Vec<(Arc<V>, Revision)>)
        where
            P: Fn(&V) -> Key,
            X: Fn(&V) -> Vec<Key>,
        requires
            db.readable(),
            db.owns(self),
            txn.db() == db.tag(),
            db.indexed(self, index@),
            key@.len() <= u32::MAX,
        ensures
            forall|i: int|
                0 <= i < db.entry(self.at()).count() && #[trigger] db.entry(self.at()).name(i)
                    == index@ ==> db.entry(self.at()).answers(i, key@, txn.at(), out@),
    {
        let entry = self.entry(db);
        let i = entry.index(index).unwrap();
        proof {
            entry.lemma_wf();
        }
        entry.by_index(i, key, txn.revision())
    }

    /// Whether the change stream holds a record of this table.
    pub fn recorded<P, X>(&self, db: &Db<V, P, X>) -> (yes: bool)
        where
            P: Fn(&V) -> Key,
            X: Fn(&V) -> Vec<Key>,
        requires
            db.readable(),
            db.owns(self),
        ensures
            yes == (db.records(self.at()).len() > 0),
    {
        db.recorded(self.pos)
    }

    /// Writes `value` under its primary key and returns what it replaced.
    pub fn insert<P, X>(&self, db: &Db<V, P, X>, txn: &mut WriteTxn<V>, value: V) -> (was: Option<
        Arc<V>,
    >)
        where
            P: Fn(&V) -> Key,
            X: Fn(&V) -> Vec<Key>,
        requires
            db.readable(),
            db.takes_writes(self, old(txn)),
        ensures
            exists|key: Key, version: Version<V>|
                {
                    &&& #[trigger] call_ensures(db.entry(self.at()).key(), (&value,), key)
                    &&& version.revision == old(txn).writes_at()
                    &&& *version.value == value
                    &&& !version.deleted
                    &&& was == entry::value_of(db.sees(self, old(txn), key@))
                    &&& #[trigger] rewrites(
                        old(txn),
                        final(txn),
                        self.at(),
                        pending::with_write(old(txn).pending(self.at()), key@, version),
                    )
                },
    {
        let ghost given = value;
        let value = Arc::new(value);
        let key = self.entry(db).key_of(&*value);
        let ghost k = key;
        let was = match self.get(db, txn, key.as_slice()) {
            Some((value, _)) => Some(value),
            None => None,
        };
        let version = Version { revision: txn.revision(), value, deleted: false };
        txn.put_write(self.pos, key, version);
        assert(call_ensures(db.entry(self.at()).key(), (&given,), k));
        assert(rewrites(
            old(txn),
            txn,
            self.at(),
            pending::with_write(old(txn).pending(self.at()), k@, version),
        ));
        was
    }

    /// Ends the row with a tombstone that keeps the value, and returns it. The
    /// key reads as absent from here on; the row stays until it is swept.
    pub fn delete<P, X>(&self, db: &Db<V, P, X>, txn: &mut WriteTxn<V>, key: &[u8]) -> (was: Option<
        Arc<V>,
    >)
        where
            P: Fn(&V) -> Key,
            X: Fn(&V) -> Vec<Key>,
        requires
            db.readable(),
            db.takes_writes(self, old(txn)),
        ensures
            was == entry::value_of(db.sees(self, old(txn), key@)),
            match was {
                Some(value) => rewrites(
                    old(txn),
                    final(txn),
                    self.at(),
                    pending::with_write(
                        old(txn).pending(self.at()),
                        key@,
                        (Version { revision: old(txn).writes_at(), value, deleted: true }),
                    ),
                ),
                None => *final(txn) == *old(txn),
            },
    {
        let value = match self.get(db, txn, key) {
            Some((value, _)) => value,
            None => {
                return None;
            },
        };
        let version = Version { revision: txn.revision(), value: value.clone(), deleted: true };
        txn.put_write(self.pos, owned(key), version);
        Some(value)
    }

    /// What stands in the way of loading `versions`, if anything does.
    pub fn refuses<P, X>(
        &self,
        db: &Db<V, P, X>,
        txn: &WriteTxn<V>,
        versions: &Vec<Version<V>>,
    ) -> (why: Option<Refusal>)
        where
            P: Fn(&V) -> Key,
            X: Fn(&V) -> Vec<Key>,
        requires
            db.readable(),
            db.owns(self),
        ensures
            why == refusal(db.records(self.at()).len() > 0, txn.writes_at(), versions@),
    {
        if versions.len() == 0 {
            Some(Refusal::Empty)
        } else if self.recorded(db) {
            Some(Refusal::Recorded)
        } else if versions[versions.len() - 1].revision > txn.revision() {
            Some(Refusal::Ahead)
        } else if !ascends(versions) {
            Some(Refusal::Unordered)
        } else {
            None
        }
    }

    /// Puts `versions` at `key`, in place of whatever is there, and leaves no
    /// change record: this is how a table is rebuilt from what was persisted,
    /// not a write for readers to follow. In place of whatever is there covers
    /// a write this transaction has already made at `key`; an `insert` or a
    /// `delete` after this one goes on the end of the history loaded here.
    ///
    /// The indexes follow the newest version, so a row loaded as deleted is
    /// listed nowhere.
    ///
    /// A rebuild runs with no reader open. The loaded versions keep the
    /// revisions they were written at, which are at or below what an open
    /// reader reads, so such a reader would see the rows this call puts back.
    ///
    /// The table must hold no change record. A record is resolved through the
    /// row it names, and the loaded versions need not hold the revision it was
    /// written at; a table being rebuilt is one no reader has fallen behind on.
    pub fn load<P, X>(
        &self,
        db: &Db<V, P, X>,
        txn: &mut WriteTxn<V>,
        key: &[u8],
        versions: Vec<Version<V>>,
    )
        where
            P: Fn(&V) -> Key,
            X: Fn(&V) -> Vec<Key>,
        requires
            db.takes_writes(self, old(txn)),
            refusal(db.records(self.at()).len() > 0, old(txn).writes_at(), versions@) is None,
        ensures
            rewrites(
                old(txn),
                final(txn),
                self.at(),
                pending::with_load(old(txn).pending(self.at()), key@, versions@),
            ),
    {
        txn.put_load(self.pos, owned(key), versions);
    }
}

} // verus!
