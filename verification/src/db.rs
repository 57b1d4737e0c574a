//! The database: tables, versioned rows, single-writer transactions.
//!
//! One revision counter covers the whole `Db`, and a commit that changes
//! anything writes it last. A row is a chain of versions, newest first, so a
//! reader takes the revision the counter holds and follows each chain to the
//! first version at or below it: what a later commit adds carries a higher
//! revision and is passed over until the counter says otherwise. A link is
//! never written again, so a reader that has hold of one keeps what it says.
//!
//! A write transaction buffers its writes per table in the order they were
//! made and applies them in one go, so dropping it touches no tree and no
//! half-applied commit is ever visible.
//!
//! The database is a plain value: a read takes it by reference next to the
//! transaction it reads at, a commit by exclusive reference. Whoever shares it
//! puts the locks around it.

pub mod calls;
pub mod entry;
pub mod index;
pub mod laws;
pub mod listing;
pub mod pending;
pub mod record;
pub mod row;
pub mod rows;
pub mod scan;
pub mod stream;
pub mod table;
pub mod txn;

use tokio::sync::watch::{Receiver, Sender};
use vstd::prelude::*;

use crate::tree::Tree;
use crate::watch::{channel, Covers, Watch};

use crate::db::entry::TableEntry;
use crate::db::record::{drop_records, Record};

pub use crate::db::listing::Index;
pub use crate::db::row::Version;
pub use crate::db::stream::{Change, ChangeIterator, Compacted};
pub use crate::db::table::Refusal;
pub use crate::db::txn::{ReadTxn, Snapshot, WriteTxn};

verus! {

pub type Revision = u64;

pub type Key = Vec<u8>;

/// The database: its tables, and the counters every reader goes by.
///
/// `V` is what its rows hold, `P` the type of the functions that give a value
/// its primary key, and `X` the type of those that give it its index keys.
pub struct Db<V, P, X> {
    /// Identifies the `Db`; a [`Table`] handle carries the same id.
    id: u64,
    /// The revision every read runs at: written last by a commit, so a reader
    /// that has it sees everything that commit wrote.
    revision: Revision,
    /// History at or below this revision is gone; see [`Db::compact`].
    compacted: Revision,
    /// The revision a commit panicked partway through, or 0. See [`Db::wedged`].
    wedged: Revision,
    /// The revision of the last commit that loaded a row.
    rebuilt: Ghost<Revision>,
    /// Registered tables, in registration order. Only [`Db::table`] adds to it,
    /// and only at the end, so a handle keeps its position for good.
    tables: Vec<TableEntry<V, P, X>>,
    /// Every table's change records, one run per table. A record is the primary
    /// key that was written: the value is in the row.
    changes: Tree<Key>,
    /// The one sender on the revision channel, so dropping or closing the
    /// database closes the channel and releases every watch parked on it.
    sender: Option<Sender<Revision>>,
    revisions: Receiver<Revision>,
}

/// A handle to a registered table. Cheap to copy; valid only for the `Db` that
/// returned it.
pub struct Table<V> {
    db: u64,
    pos: usize,
    name: &'static str,
    _v: core::marker::PhantomData<V>,
}

impl<V> Clone for Table<V> {
    fn clone(&self) -> (table: Self)
        ensures
            table == *self,
    {
        *self
    }
}

impl<V> Copy for Table<V> {

}

impl<V> Table<V> {
    /// The database the table belongs to.
    pub closed spec fn db(&self) -> u64 {
        self.db
    }

    /// The table's place among the tables of its database.
    pub closed spec fn at(&self) -> int {
        self.pos as int
    }

    pub closed spec fn title(&self) -> Seq<char> {
        self.name@
    }

    pub fn name(&self) -> (name: &'static str)
        ensures
            name@ == self.title(),
    {
        self.name
    }
}

impl<V, P, X> Db<V, P, X> where P: Fn(&V) -> Key, X: Fn(&V) -> Vec<Key> {
    /// Identifies the database.
    pub closed spec fn tag(&self) -> u64 {
        self.id
    }

    /// The revision of the last commit.
    pub closed spec fn head(&self) -> Revision {
        self.revision
    }

    /// History at or below this revision may be gone.
    pub closed spec fn bound(&self) -> Revision {
        self.compacted
    }

    /// The revision a commit panicked partway through, or 0.
    pub closed spec fn stuck(&self) -> Revision {
        self.wedged
    }

    /// The revision of the last commit that loaded a row.
    pub closed spec fn loaded_at(&self) -> Revision {
        self.rebuilt@
    }

    /// How many tables there are.
    pub closed spec fn count(&self) -> nat {
        self.tables@.len()
    }

    /// One of the tables.
    pub closed spec fn entry(&self, pos: int) -> TableEntry<V, P, X> {
        self.tables@[pos]
    }

    /// One table's change records, in the order they were written.
    pub closed spec fn records(&self, pos: int) -> Seq<Record> {
        record::records(self.changes.entries(), pos as nat)
    }

    /// The revision last announced to the watches, unless the database is
    /// closed.
    pub closed spec fn told(&self) -> Option<Revision> {
        match self.sender {
            Some(sender) => Some(crate::watch::announced(sender)),
            None => None,
        }
    }

    /// The channel the revisions are announced on.
    pub closed spec fn line(&self) -> int {
        crate::watch::heard_on(self.revisions)
    }

    /// The lowest revision whose readers are promised what they read: the
    /// compaction bound, or the last revision if the bound is past it, and no
    /// lower than the last load, which puts rows back at older revisions.
    pub open spec fn floor(&self) -> Revision {
        let low = if self.bound() < self.head() {
            self.bound()
        } else {
            self.head()
        };
        if self.loaded_at() > low {
            self.loaded_at()
        } else {
            low
        }
    }

    /// The table is one of this database's.
    pub open spec fn owns(&self, table: &Table<V>) -> bool {
        table.db() == self.tag() && 0 <= table.at() < self.count()
    }

    /// A record past the compaction bound names a version its row still holds.
    pub open spec fn resolves(&self, pos: int, j: int) -> bool {
        let r = self.records(pos)[j];
        r.revision > self.bound() ==> row::exactly(
            self.entry(pos).history(r.key),
            r.revision as Revision,
        ) is Some
    }

    /// The database can be read: its trees are sound, every entry of the change
    /// stream is a record, and what it announces goes to the watches it gives.
    /// Every step of a commit keeps this, so a commit that panicked partway
    /// through leaves it.
    pub closed spec fn readable(&self) -> bool {
        &&& self.tables@.len() <= u32::MAX
        &&& self.sender matches Some(sender) ==> crate::watch::sent_on(sender)
            == crate::watch::heard_on(self.revisions)
        &&& forall|pos: int| 0 <= pos < self.tables@.len() ==> (#[trigger] self.tables@[pos]).wf()
        &&& self.changes.wf()
        &&& record::all_records(self.changes.entries())
    }

    /// The tables hold what the commits up to the last revision left, and the
    /// change stream names what they hold.
    pub closed spec fn settled(&self) -> bool {
        &&& self.rebuilt@ <= self.revision
        &&& forall|pos: int|
            0 <= pos < self.tables@.len() ==> {
                let t = #[trigger] self.tables@[pos];
                &&& t.sound(self.revision, self.floor())
                &&& t.buried_above(t.counters().buried)
                &&& t.counters().revision <= self.revision
                &&& t.counters().lost <= self.compacted
                &&& t.counters().lost <= t.counters().revision
            }
        &&& forall|i: int|
            0 <= i < self.changes.entries().len() ==> record::table_at(
                (#[trigger] self.changes.entries()[i]).0,
            ) < self.tables@.len()
        &&& forall|pos: int, j: int|
            0 <= pos < self.tables@.len() && 0 <= j < self.records(pos).len() ==> (
            #[trigger] self.records(pos)[j]).revision <= self.tables@[pos].counters().revision
                && self.resolves(pos, j)
        &&& forall|pos: int|
            0 <= pos < self.tables@.len() ==> record::apart(#[trigger] self.records(pos))
    }

    /// The database is sound: it can be read, and no commit is partway through.
    pub open spec fn wf(&self) -> bool {
        self.readable() && self.settled()
    }

    /// What a database that can be read promises.
    pub proof fn lemma_readable(&self)
        requires
            self.readable(),
        ensures
            self.count() <= u32::MAX,
            forall|pos: int| 0 <= pos < self.count() ==> (#[trigger] self.entry(pos)).wf(),
    {
        assert forall|pos: int| 0 <= pos < self.count() implies (#[trigger] self.entry(
            pos,
        )).wf() by {
            assert(self.tables@[pos] == self.entry(pos));
        }
    }

    /// A database that holds what a sound one holds is sound.
    proof fn lemma_alike(&self, other: &Self)
        requires
            self.wf(),
            other.readable(),
            other.revision == self.revision,
            other.compacted == self.compacted,
            other.rebuilt == self.rebuilt,
            other.tables == self.tables,
            other.changes == self.changes,
        ensures
            other.wf(),
    {
        assert forall|pos: int, j: int|
            0 <= pos < other.tables@.len() && 0 <= j < other.records(pos).len() implies (
        #[trigger] other.records(pos)[j]).revision <= other.tables@[pos].counters().revision
            && other.resolves(pos, j) by {
            assert(self.records(pos)[j].revision <= self.tables@[pos].counters().revision
                && self.resolves(pos, j));
        }
        assert forall|pos: int| 0 <= pos < other.tables@.len() implies record::apart(
            #[trigger] other.records(pos),
        ) by {
            assert(record::apart(self.records(pos)));
        }
    }

    /// What a sound database promises.
    pub proof fn lemma_wf(&self)
        requires
            self.wf(),
        ensures
            self.count() <= u32::MAX,
            self.floor() <= self.head(),
            forall|pos: int|
                0 <= pos < self.count() ==> {
                    let t = #[trigger] self.entry(pos);
                    &&& t.wf()
                    &&& t.sound(self.head(), self.floor())
                    &&& t.buried_above(t.counters().buried)
                    &&& t.counters().revision <= self.head()
                    &&& t.counters().lost <= self.bound()
                    &&& t.counters().lost <= t.counters().revision
                },
            forall|pos: int, j: int|
                0 <= pos < self.count() && 0 <= j < self.records(pos).len() ==> {
                    let r = #[trigger] self.records(pos)[j];
                    &&& r.revision <= self.entry(pos).counters().revision
                    &&& r.revision <= self.head()
                    &&& self.resolves(pos, j)
                },
            forall|pos: int|
                0 <= pos < self.count() ==> record::apart(#[trigger] self.records(pos)),
    {
        assert forall|pos: int| 0 <= pos < self.count() implies {
            let t = #[trigger] self.entry(pos);
            &&& t.wf()
            &&& t.sound(self.head(), self.floor())
            &&& t.buried_above(t.counters().buried)
            &&& t.counters().revision <= self.head()
            &&& t.counters().lost <= self.bound()
            &&& t.counters().lost <= t.counters().revision
        } by {
            assert(self.tables@[pos] == self.entry(pos));
        }
    }

    /// One table's records are in the order of their revisions.
    pub proof fn lemma_records_in_order(&self, pos: int)
        requires
            self.wf(),
            0 <= pos < self.count(),
        ensures
            laws::in_order(self.records(pos)),
    {
        self.changes.lemma_sorted();
        record::lemma_in_order(self.changes.entries(), pos as nat);
    }

    /// An empty database. `id` tells it from every other: no two that are alive
    /// at once may have the same.
    pub fn new(id: u64) -> (db: Self)
        ensures
            db.wf(),
            db.tag() == id,
            db.head() == 0,
            db.bound() == 0,
            db.stuck() == 0,
            db.loaded_at() == 0,
            db.count() == 0,
            db.told() == Some(0u64),
    {
        let (sender, revisions) = channel(0);
        Db {
            id,
            revision: 0,
            compacted: 0,
            wedged: 0,
            rebuilt: Ghost(0),
            tables: Vec::new(),
            changes: Tree::new(),
            sender: Some(sender),
            revisions,
        }
    }

    /// The revision a commit panicked partway through, or 0.
    ///
    /// Such a commit left the writes it had applied in the trees, under a
    /// revision it never published. There is no undo: the next commit would
    /// take that revision and publish those writes along with its own, so
    /// nothing may be written to the database any more. A read runs on, at the
    /// last revision a commit did publish: it asks for no more than
    /// [`Db::readable`].
    pub fn wedged(&self) -> (revision: Revision)
        ensures
            revision == self.stuck(),
    {
        self.wedged
    }

    /// The revision of the last commit.
    pub fn revision(&self) -> (revision: Revision)
        ensures
            revision == self.head(),
    {
        self.revision
    }

    /// How many tables there are.
    pub fn tables(&self) -> (n: usize)
        ensures
            n == self.count(),
    {
        self.tables.len()
    }

    /// What tells this database from every other.
    pub fn id(&self) -> (id: u64)
        ensures
            id == self.tag(),
    {
        self.id
    }

    /// Whether the table was registered here.
    pub fn holds(&self, table: &Table<V>) -> (yes: bool)
        ensures
            yes == self.owns(table),
    {
        table.db == self.id && table.pos < self.tables.len()
    }

    /// Completes on the next commit that bumps the revision. A reader that
    /// persists the change stream waits on this and scans what it finds.
    pub fn watch(&self) -> (watch: Watch)
        ensures
            watch.since() == self.head(),
            watch.scope() == Covers::Db,
            watch.line() == self.line(),
    {
        Watch::new(self.revision, Covers::Db, &self.revisions)
    }

    /// The revision a watch on `covers` goes by: the last commit's, or that of
    /// the last commit that changed the table.
    pub open spec fn stands(&self, covers: Covers) -> Revision {
        match covers {
            Covers::Db => self.head(),
            Covers::Table(pos) => {
                let own = self.entry(pos as int).counters().revision;
                if own < self.head() {
                    own
                } else {
                    self.head()
                }
            },
        }
    }

    /// Where what the watch covers stands, or nothing if the watch covers no
    /// table of this database.
    ///
    /// Both covers compare a revision, which only rises, so a watch reports
    /// every commit to what it covers and never has to read the data.
    pub fn covered(&self, watch: &Watch) -> (now: Option<Revision>)
        ensures
            match now {
                Some(now) => {
                    &&& now == self.stands(watch.scope())
                    &&& watch.scope() matches Covers::Table(pos) ==> pos < self.count()
                },
                None => watch.scope() matches Covers::Table(pos) && pos >= self.count(),
            },
    {
        match watch.covers() {
            Covers::Db => Some(self.revision),
            Covers::Table(pos) => if pos < self.tables.len() {
                let own = self.tables[pos].state().revision;
                if own < self.revision {
                    Some(own)
                } else {
                    Some(self.revision)
                }
            } else {
                None
            },
        }
    }

    /// Whether there is nothing left for the watch to wait for: what it covers
    /// was written since it was taken, or no revision will be announced to it.
    pub fn closed(&self, watch: &Watch) -> (closed: bool)
        requires
            self.readable(),
        ensures
            (watch.scope() matches Covers::Table(pos) ==> pos < self.count()) ==> {
                &&& watch.behind(self.stands(watch.scope())) ==> closed
                &&& self.told() is Some && watch.line() == self.line() ==> closed == watch.behind(
                    self.stands(watch.scope()),
                )
            },
    {
        watch.is_closed_beside(self.covered(watch), self.sender.as_ref())
    }

    /// Lets go of the watches: the channel closes, and nothing is announced any
    /// more. Readers read on.
    pub fn close(&mut self)
        requires
            old(self).readable(),
        ensures
            final(self).readable(),
            old(self).wf() ==> final(self).wf(),
            final(self).told() is None,
            final(self).tag() == old(self).tag(),
            final(self).line() == old(self).line(),
            final(self).head() == old(self).head(),
            final(self).bound() == old(self).bound(),
            final(self).stuck() == old(self).stuck(),
            final(self).loaded_at() == old(self).loaded_at(),
            final(self).count() == old(self).count(),
            forall|pos: int| #[trigger] final(self).entry(pos) == old(self).entry(pos),
            forall|pos: int| #[trigger] final(self).records(pos) == old(self).records(pos),
    {
        let ghost was = *self;
        self.sender = None;
        proof {
            if was.wf() {
                was.lemma_alike(self);
            }
        }
    }

    /// A reader at the revision the last commit left.
    pub fn read(&self) -> (txn: ReadTxn)
        ensures
            txn.db() == self.tag(),
            txn.at() == self.head(),
    {
        ReadTxn::new(self.id, self.revision)
    }

    /// Opens the write transaction at the revision after the visible one.
    pub fn write(&self) -> (txn: WriteTxn<V>)
        requires
            self.stuck() == 0,
            self.head() < u64::MAX,
        ensures
            txn.ok(),
            txn.source() == self.tag(),
            txn.opened_at() == self.head(),
            txn.writes_at() == self.head() + 1,
            txn.width() == self.count(),
            txn.size() == 0,
            forall|pos: int| (#[trigger] txn.pending(pos)).len() == 0,
    {
        self.open(self.revision + 1)
    }

    /// The same, at the revision the caller names: what this transaction writes
    /// carries `rev`, and its commit leaves the database there.
    pub fn write_at(&self, rev: Revision) -> (txn: WriteTxn<V>)
        requires
            self.stuck() == 0,
            self.head() < rev,
        ensures
            txn.ok(),
            txn.source() == self.tag(),
            txn.opened_at() == self.head(),
            txn.writes_at() == rev,
            txn.width() == self.count(),
            txn.size() == 0,
            forall|pos: int| (#[trigger] txn.pending(pos)).len() == 0,
    {
        self.open(rev)
    }

    fn open(&self, revision: Revision) -> (txn: WriteTxn<V>)
        requires
            self.head() < revision,
        ensures
            txn.ok(),
            txn.source() == self.tag(),
            txn.opened_at() == self.head(),
            txn.writes_at() == revision,
            txn.width() == self.count(),
            txn.size() == 0,
            forall|pos: int| (#[trigger] txn.pending(pos)).len() == 0,
    {
        WriteTxn::new(self.id, self.revision, revision, self.tables.len())
    }

    /// Registers a table. Does not bump the revision.
    pub fn table(&mut self, name: &'static str, primary_key: P, indexes: &[Index<X>]) -> (table:
        Table<V>)
        where
            X: Copy,
        requires
            old(self).wf(),
            old(self).stuck() == 0,
            old(self).count() < u32::MAX,
            entry::total::<V, P>(primary_key),
            listing::named_apart(indexes@),
            forall|i: int|
                0 <= i < indexes@.len() ==> listing::pure::<V, X>((#[trigger] indexes@[i]).keys),
        ensures
            final(self).wf(),
            final(self).same_counters(old(self)),
            final(self).bound() == old(self).bound(),
            final(self).head() == old(self).head(),
            final(self).count() == old(self).count() + 1,
            forall|pos: int|
                0 <= pos < old(self).count() ==> #[trigger] final(self).entry(pos) == old(
                    self,
                ).entry(pos),
            forall|pos: int|
                0 <= pos < old(self).count() ==> #[trigger] final(self).records(pos) == old(
                    self,
                ).records(pos),
            final(self).owns(&table),
            table.at() == old(self).count(),
            table.title() == name@,
            final(self).records(table.at()).len() == 0,
            ({
                let t = final(self).entry(table.at());
                &&& t.key() == primary_key
                &&& t.count() == indexes@.len()
                &&& t.counters().revision == 0
                &&& t.counters().lost == 0
                &&& forall|i: int|
                    0 <= i < indexes@.len() ==> #[trigger] t.name(i) == indexes@[i].name@
                        && t.keys(i) == indexes@[i].keys
                &&& forall|k: Seq<u8>| (#[trigger] t.history(k)).len() == 0
                &&& forall|i: int, k: Seq<u8>, p: Seq<u8>|
                    0 <= i < indexes@.len() ==> (#[trigger] t.listing(i, k, p)).len() == 0
            }),
    {
        let ghost was = *self;
        let pos = self.tables.len();
        let entry = TableEntry::new(primary_key, indexes);
        proof {
            entry.lemma_fresh(self.revision, self.floor());
            record::lemma_records_none(self.changes.entries(), pos as nat);
        }
        self.tables.push(entry);
        proof {
            assert forall|pos: int, j: int|
                0 <= pos < self.tables@.len() && 0 <= j < self.records(pos).len() implies (
            #[trigger] self.records(pos)[j]).revision <= self.tables@[pos].counters().revision
                && self.resolves(pos, j) by {
                assert(self.records(pos) == was.records(pos));
                if pos < was.tables@.len() {
                    assert(self.tables@[pos] == was.tables@[pos]);
                    assert(was.records(pos)[j].revision <= was.tables@[pos].counters().revision
                        && was.resolves(pos, j));
                }
            }
            assert forall|pos: int| 0 <= pos < self.tables@.len() implies record::apart(
                #[trigger] self.records(pos),
            ) by {
                assert(self.records(pos) == was.records(pos));
            }
        }
        Table { db: self.id, pos, name, _v: core::marker::PhantomData }
    }

    /// What neither a registration nor a compaction touches.
    pub open spec fn same_counters(&self, other: &Self) -> bool {
        &&& self.tag() == other.tag()
        &&& self.stuck() == other.stuck()
        &&& self.loaded_at() == other.loaded_at()
        &&& self.told() == other.told()
        &&& self.line() == other.line()
    }

    /// What a compaction at `bound` makes of one table: the rows a tombstone
    /// ended by then are gone, and so are the records up to the bound, the
    /// highest of which is what a reader may have lost.
    pub open spec fn compacts(&self, after: &Self, pos: int, bound: Revision) -> bool {
        let (t, u) = (self.entry(pos), after.entry(pos));
        &&& t.sweeps(&u, bound)
        &&& u.counters().revision == t.counters().revision
        &&& after.records(pos) == record::kept(self.records(pos), bound)
        &&& exists|lost: Revision|
            {
                &&& #[trigger] record::highest_dropped(self.records(pos), bound, lost)
                &&& u.counters().lost == (if lost > t.counters().lost {
                    lost
                } else {
                    t.counters().lost
                })
            }
    }

    /// What a compaction at `rev` makes of the database: the bound rises to it,
    /// and every table lets go of what is at or below the bound.
    pub open spec fn releases(&self, after: &Self, rev: Revision) -> bool {
        &&& after.same_counters(self)
        &&& after.head() == self.head()
        &&& after.count() == self.count()
        &&& after.bound() == (if rev > self.bound() {
            rev
        } else {
            self.bound()
        })
        &&& forall|pos: int|
            0 <= pos < self.count() ==> #[trigger] self.compacts(after, pos, after.bound())
    }

    /// Releases the history at or below `rev`: the versions the next write of
    /// each row drops, and the change records the readers of the change stream
    /// then fail on with [`Compacted`].
    ///
    /// This is not history: it does not bump the revision.
    pub fn compact(&mut self, rev: Revision)
        requires
            old(self).wf(),
            old(self).stuck() == 0,
        ensures
            final(self).wf(),
            old(self).releases(final(self), rev),
    {
        let ghost was = *self;
        if rev > self.compacted {
            self.compacted = rev;
        }
        let compacted = self.compacted;
        let n = self.tables.len();
        for pos in 0..n
            invariant
                was == *old(self),
                was.wf(),
                n == was.tables@.len(),
                n == self.tables@.len(),
                self.same_counters(&was),
                self.revision == was.revision,
                self.id == was.id,
                self.rebuilt == was.rebuilt,
                self.revisions == was.revisions,
                self.sender == was.sender,
                self.compacted == compacted,
                compacted >= was.compacted,
                self.changes.wf(),
                record::all_records(self.changes.entries()),
                forall|i: int|
                    0 <= i < self.changes.entries().len() ==> record::table_at(
                        (#[trigger] self.changes.entries()[i]).0,
                    ) < n,
                forall|p: int|
                    0 <= p < n ==> {
                        let t = #[trigger] self.tables@[p];
                        &&& t.wf()
                        &&& t.buried_above(t.counters().buried)
                        &&& t.counters().revision <= self.revision
                        &&& t.counters().lost <= compacted
                        &&& t.counters().lost <= t.counters().revision
                    },
                forall|p: int| 0 <= p < pos ==> #[trigger] was.compacts(self, p, compacted),
                forall|p: int| pos <= p < n ==> #[trigger] self.tables@[p] == was.tables@[p],
                forall|p: int|
                    pos <= p < n ==> #[trigger] self.records(p) == was.records(p),
        {
            let ghost mid = *self;
            let ghost t = was.tables@[pos as int];
            assert(self.tables@[pos as int] == t);
            let lost = drop_records(&mut self.changes, pos, compacted);
            let entry = &mut self.tables[pos];
            entry.lose(lost);
            let ghost noted = *entry;
            if entry.state().buried <= compacted {
                entry.sweep(compacted);
            } else {
                proof {
                    noted.lemma_nothing_to_sweep(compacted);
                }
            }
            proof {
                let u = self.tables@[pos as int];
                assert(noted.sweeps(&u, compacted));
                t.lemma_sweeps_alike(&noted, &u, compacted);
                assert(mid.records(pos as int) == was.records(pos as int));
                assert(record::highest_dropped(was.records(pos as int), compacted, lost));
                if lost > 0 {
                    let j = choose|j: int|
                        0 <= j < was.records(pos as int).len() && (#[trigger] was.records(
                            pos as int,
                        )[j]).revision == lost;
                    assert(was.records(pos as int)[j].revision <= t.counters().revision);
                }
                assert(was.compacts(self, pos as int, compacted));
                assert forall|p: int| 0 <= p < pos implies #[trigger] was.compacts(
                    self,
                    p,
                    compacted,
                ) by {
                    assert(was.compacts(&mid, p, compacted));
                    assert(self.tables@[p] == mid.tables@[p]);
                    assert(self.records(p) == mid.records(p));
                }
                assert forall|i: int|
                    0 <= i < self.changes.entries().len() implies record::table_at(
                    (#[trigger] self.changes.entries()[i]).0,
                ) < n by {
                    let e = self.changes.entries();
                    let table = record::table_at(e[i].0);
                    let j = record::lemma_records_to(e, table, i);
                    if table == pos {
                    } else {
                        assert(record::records(e, table) == record::records(
                            mid.changes.entries(),
                            table,
                        ));
                        let x = record::lemma_records_from(mid.changes.entries(), table, j);
                        assert(record::table_at(mid.changes.entries()[x].0) < n);
                    }
                }
                assert forall|p: int| 0 <= p < n implies {
                    let t = #[trigger] self.tables@[p];
                    &&& t.wf()
                    &&& t.buried_above(t.counters().buried)
                    &&& t.counters().revision <= self.revision
                    &&& t.counters().lost <= compacted
                    &&& t.counters().lost <= t.counters().revision
                } by {
                    if p != pos {
                        assert(self.tables@[p] == mid.tables@[p]);
                    }
                }
                assert forall|p: int| pos + 1 <= p < n implies #[trigger] self.tables@[p]
                    == was.tables@[p] by {
                    assert(self.tables@[p] == mid.tables@[p]);
                }
                assert forall|p: int| pos + 1 <= p < n implies #[trigger] self.records(p)
                    == was.records(p) by {
                    assert(mid.records(p) == was.records(p));
                }
            }
        }
        proof {
            was.lemma_compacted(self);
        }
    }

    /// A compaction leaves the database sound.
    proof fn lemma_compacted(&self, after: &Self)
        requires
            self.wf(),
            after.tables@.len() == self.tables@.len(),
            after.same_counters(self),
            after.revision == self.revision,
            after.revisions == self.revisions,
            after.sender == self.sender,
            after.compacted >= self.compacted,
            after.changes.wf(),
            record::all_records(after.changes.entries()),
            forall|i: int|
                0 <= i < after.changes.entries().len() ==> record::table_at(
                    (#[trigger] after.changes.entries()[i]).0,
                ) < self.tables@.len(),
            forall|p: int|
                0 <= p < self.tables@.len() ==> {
                    let t = #[trigger] after.tables@[p];
                    &&& t.wf()
                    &&& t.buried_above(t.counters().buried)
                    &&& t.counters().revision <= self.revision
                    &&& t.counters().lost <= after.compacted
                    &&& t.counters().lost <= t.counters().revision
                },
            forall|p: int|
                0 <= p < self.tables@.len() ==> #[trigger] self.compacts(
                    after,
                    p,
                    after.compacted,
                ),
        ensures
            after.wf(),
    {
        assert forall|pos: int| 0 <= pos < after.tables@.len() implies {
            let t = #[trigger] after.tables@[pos];
            &&& t.wf()
            &&& t.sound(after.revision, after.floor())
            &&& t.buried_above(t.counters().buried)
            &&& t.counters().revision <= after.revision
            &&& t.counters().lost <= after.compacted
            &&& t.counters().lost <= t.counters().revision
        } by {
            let t = self.tables@[pos];
            assert(self.compacts(after, pos, after.compacted));
            t.lemma_sweeps(
                &after.tables@[pos],
                after.compacted,
                self.revision,
                self.floor(),
                after.floor(),
            );
        }
        assert forall|pos: int, j: int|
            0 <= pos < after.tables@.len() && 0 <= j < after.records(pos).len() implies (
        #[trigger] after.records(pos)[j]).revision <= after.tables@[pos].counters().revision
            && after.resolves(pos, j) by {
            assert(self.compacts(after, pos, after.compacted));
            let r = after.records(pos)[j];
            let x = lemma_kept_from(self.records(pos), after.compacted, j);
            assert(self.records(pos)[x] == r);
            assert(self.resolves(pos, x));
            let h = self.entry(pos).history(r.key);
            assert(self.tables@[pos].sound(self.revision, self.floor()));
            assert(after.entry(pos).history(r.key) == after.entry(pos).history(r.key));
            if r.revision > after.compacted {
                row::lemma_exactly_last(h, r.revision as Revision);
            }
        }
        assert forall|pos: int| 0 <= pos < after.tables@.len() implies record::apart(
            #[trigger] after.records(pos),
        ) by {
            assert(self.compacts(after, pos, after.compacted));
            assert(record::apart(self.records(pos)));
            record::lemma_apart_kept(self.records(pos), after.compacted);
        }
    }
}

/// A record a compaction leaves is one that was there.
pub(crate) proof fn lemma_kept_from(rs: Seq<Record>, compacted: Revision, j: int) -> (x: int)
    requires
        0 <= j < record::kept(rs, compacted).len(),
    ensures
        0 <= x < rs.len(),
        rs[x] == record::kept(rs, compacted)[j],
        rs[x].revision > compacted,
{
    let f = |r: Record| r.revision > compacted;
    let r = rs.filter(f)[j];
    rs.lemma_filter_pred(f, j);
    rs.lemma_filter_contains_rev(f, r);
    choose|x: int| 0 <= x < rs.len() && rs[x] == r
}

} // verus!
