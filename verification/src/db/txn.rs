//! Transactions: what a reader reads at, and what a writer has buffered.

pub mod commit;

use vstd::prelude::*;

use crate::db::entry;
use crate::db::pending;
use crate::db::pending::{Buffer, Write};
use crate::db::row;
use crate::db::row::Version;
use crate::db::{Key, Revision};

verus! {

/// What a read runs against: the revision it reads at and, through an open
/// transaction, the writes that transaction has buffered over it.
pub trait Snapshot<V> {
    /// The database it belongs to.
    spec fn db(&self) -> u64;

    /// The revision the trees are read at.
    spec fn reads_at(&self) -> Revision;

    /// What it has buffered for one table, in the order it was written.
    spec fn writes(&self, pos: int) -> Seq<Write<V>>;

    /// What it holds is sound.
    spec fn wf(&self) -> bool;

    fn id(&self) -> (id: u64)
        ensures
            id == self.db(),
    ;

    fn at(&self) -> (at: Revision)
        ensures
            at == self.reads_at(),
    ;

    /// The buffer of one table, if it has been written.
    fn buffer(&self, pos: usize) -> (buffer: Option<&Buffer<V>>)
        requires
            self.wf(),
        ensures
            match buffer {
                Some(b) => b.wf() && b@ == self.writes(pos as int),
                None => self.writes(pos as int) == Seq::<Write<V>>::empty(),
            },
    ;
}

/// A reader: one revision. Holding one keeps nothing alive and blocks nothing.
#[derive(Clone, Copy)]
pub struct ReadTxn {
    db: u64,
    revision: Revision,
}

impl ReadTxn {
    pub closed spec fn db(&self) -> u64 {
        self.db
    }

    pub closed spec fn at(&self) -> Revision {
        self.revision
    }

    /// The reader of a database at a revision, as the proofs speak of it.
    pub closed spec fn at_revision(db: u64, revision: Revision) -> Self {
        ReadTxn { db, revision }
    }

    pub proof fn lemma_at_revision(db: u64, revision: Revision)
        ensures
            ReadTxn::at_revision(db, revision).at() == revision,
    {
    }

    pub(crate) fn new(db: u64, revision: Revision) -> (txn: Self)
        ensures
            txn.db() == db,
            txn.at() == revision,
    {
        ReadTxn { db, revision }
    }

    /// The revision this reader reads at.
    pub fn revision(&self) -> (revision: Revision)
        ensures
            revision == self.at(),
    {
        self.revision
    }

    /// The database this reader belongs to.
    pub fn id(&self) -> (id: u64)
        ensures
            id == self.db(),
    {
        self.db
    }
}

impl<V> Snapshot<V> for ReadTxn {
    open spec fn db(&self) -> u64 {
        ReadTxn::db(self)
    }

    open spec fn reads_at(&self) -> Revision {
        ReadTxn::at(self)
    }

    open spec fn writes(&self, pos: int) -> Seq<Write<V>> {
        Seq::empty()
    }

    open spec fn wf(&self) -> bool {
        true
    }

    fn id(&self) -> (id: u64) {
        self.db
    }

    fn at(&self) -> (at: Revision) {
        self.revision
    }

    fn buffer(&self, pos: usize) -> (buffer: Option<&Buffer<V>>) {
        None
    }
}

/// The write transaction. Dropping it aborts: the buffer goes and no tree was
/// ever touched.
pub struct WriteTxn<V> {
    db: u64,
    /// The revision the data was at when this transaction opened: what its own
    /// reads see under the buffer.
    visible: Revision,
    /// The revision this transaction writes at, and the one its commit leaves
    /// the database at.
    revision: Revision,
    /// One slot per table, `Some` once the table is written.
    buffers: Vec<Option<Buffer<V>>>,
    dirty: bool,
}

/// The writes of a slot.
pub open spec fn slot_writes<V>(slot: Option<Buffer<V>>) -> Seq<Write<V>> {
    match slot {
        Some(buffer) => buffer@,
        None => Seq::empty(),
    }
}

/// How many writes the first `n` tables have buffered.
pub open spec fn weight<V>(txn: &WriteTxn<V>, n: int) -> nat
    decreases n,
{
    if n <= 0 {
        0
    } else {
        weight(txn, n - 1) + txn.pending(n - 1).len()
    }
}

proof fn lemma_weightless<V>(txn: &WriteTxn<V>, n: int)
    requires
        forall|pos: int| (#[trigger] txn.pending(pos)).len() == 0,
    ensures
        weight(txn, n) == 0,
    decreases n,
{
    if n > 0 {
        lemma_weightless(txn, n - 1);
        assert(txn.pending(n - 1).len() == 0);
    }
}

/// One slot more by one weighs one more.
proof fn lemma_weight_put<V>(txn: &WriteTxn<V>, after: &WriteTxn<V>, pos: int, n: int)
    requires
        forall|p: int| p != pos ==> #[trigger] after.pending(p) == txn.pending(p),
        after.pending(pos).len() <= txn.pending(pos).len() + 1,
    ensures
        weight(after, n) <= weight(txn, n) + 1,
        n <= pos ==> weight(after, n) == weight(txn, n),
    decreases n,
{
    if n > 0 {
        lemma_weight_put(txn, after, pos, n - 1);
        if n - 1 != pos {
            assert(after.pending(n - 1) == txn.pending(n - 1));
        }
    }
}

impl<V> WriteTxn<V> {
    pub closed spec fn source(&self) -> u64 {
        self.db
    }

    /// The revision the data was at when this transaction opened.
    pub closed spec fn opened_at(&self) -> Revision {
        self.visible
    }

    /// The revision this transaction writes at.
    pub closed spec fn writes_at(&self) -> Revision {
        self.revision
    }

    /// How many tables it has a slot for.
    pub closed spec fn width(&self) -> nat {
        self.buffers@.len()
    }

    /// What it has buffered for one table, in the order it was written.
    pub closed spec fn pending(&self, pos: int) -> Seq<Write<V>> {
        if 0 <= pos < self.buffers@.len() {
            slot_writes(self.buffers@[pos])
        } else {
            Seq::empty()
        }
    }

    /// How many writes it has buffered.
    pub open spec fn size(&self) -> nat {
        weight(self, self.width() as int)
    }

    /// It has buffered something.
    pub open spec fn wrote(&self) -> bool {
        exists|pos: int| 0 <= pos < self.width() && (#[trigger] self.pending(pos)).len() > 0
    }

    /// One of the tables was loaded.
    pub open spec fn loads(&self, pos: int) -> bool {
        exists|i: int|
            0 <= i < self.pending(pos).len() && (#[trigger] self.pending(pos)[i]).loaded is Some
    }

    /// The buffers are sound, and every write is one for this transaction.
    pub closed spec fn ok(&self) -> bool {
        &&& self.visible < self.revision
        &&& self.dirty == self.wrote()
        &&& forall|pos: int|
            #![trigger self.buffers@[pos]]
            0 <= pos < self.buffers@.len() ==> {
                match self.buffers@[pos] {
                    Some(buffer) => buffer.wf() && buffer@.len() > 0,
                    None => true,
                }
            }
        &&& forall|pos: int, i: int|
            0 <= pos < self.buffers@.len() && 0 <= i < self.pending(pos).len() ==> entry::timely(
                #[trigger] self.pending(pos)[i],
                self.revision,
            )
    }

    pub proof fn lemma_ok(&self)
        requires
            self.ok(),
        ensures
            self.opened_at() < self.writes_at(),
            forall|pos: int| pending::distinct(#[trigger] self.pending(pos)),
            forall|pos: int, i: int|
                0 <= i < self.pending(pos).len() ==> entry::timely(
                    #[trigger] self.pending(pos)[i],
                    self.writes_at(),
                ),
            forall|pos: int|
                !(0 <= pos < self.width()) ==> #[trigger] self.pending(pos) == Seq::<
                    Write<V>,
                >::empty(),
    {
        assert forall|pos: int| pending::distinct(#[trigger] self.pending(pos)) by {
            if 0 <= pos < self.buffers@.len() {
                if let Some(buffer) = self.buffers@[pos] {
                    buffer.lemma_distinct();
                }
            }
        }
    }

    /// An empty transaction at `revision` over the data at `visible`.
    pub(crate) fn new(db: u64, visible: Revision, revision: Revision, tables: usize) -> (txn: Self)
        requires
            visible < revision,
        ensures
            txn.ok(),
            txn.source() == db,
            txn.opened_at() == visible,
            txn.writes_at() == revision,
            txn.width() == tables,
            txn.size() == 0,
            forall|pos: int| #[trigger] txn.pending(pos) == Seq::<Write<V>>::empty(),
    {
        let mut buffers: Vec<Option<Buffer<V>>> = Vec::with_capacity(tables);
        for at in 0..tables
            invariant
                buffers@.len() == at,
                forall|i: int| 0 <= i < at ==> #[trigger] buffers@[i] is None,
        {
            buffers.push(None);
        }
        let txn = WriteTxn { db, visible, revision, buffers, dirty: false };
        proof {
            lemma_weightless(&txn, tables as int);
        }
        txn
    }

    /// The revision this transaction writes at.
    pub fn revision(&self) -> (revision: Revision)
        ensures
            revision == self.writes_at(),
    {
        self.revision
    }

    /// Puts `version` on top of the row at `key` of one table.
    pub(crate) fn put_write(&mut self, pos: usize, key: Key, version: Version<V>)
        requires
            old(self).ok(),
            pos < old(self).width(),
            version.revision == old(self).writes_at(),
        ensures
            final(self).ok(),
            final(self).source() == old(self).source(),
            final(self).opened_at() == old(self).opened_at(),
            final(self).writes_at() == old(self).writes_at(),
            final(self).width() == old(self).width(),
            final(self).size() <= old(self).size() + 1,
            forall|p: int| #[trigger]
                final(self).pending(p) == (if p == pos {
                    pending::with_write(old(self).pending(p), key@, version)
                } else {
                    old(self).pending(p)
                }),
    {
        let ghost was = *self;
        proof {
            self.lemma_ok();
        }
        let mut slot: Option<Buffer<V>> = None;
        core::mem::swap(&mut slot, &mut self.buffers[pos]);
        let mut buffer = match slot {
            Some(buffer) => buffer,
            None => Buffer::new(),
        };
        let ghost before = buffer@;
        assert(before == was.pending(pos as int));
        let ghost k = key@;
        buffer.wrote(key, version);
        let ghost after = buffer@;
        self.buffers.set(pos, Some(buffer));
        self.dirty = true;
        proof {
            let loaded = pending::loaded_at(before, k);
            if pending::place_of(before, k) >= 0 {
                let i = pending::place_of(before, k);
                assert(before[i].key == k);
                assert(entry::timely(was.pending(pos as int)[i], was.revision));
            }
            let w = Write { key: k, loaded, wrote: Some(version) };
            assert(entry::timely(w, was.revision));
            was.lemma_put(self, pos as int, w);
        }
    }

    /// Puts `versions` in place of the row at `key` of one table.
    pub(crate) fn put_load(&mut self, pos: usize, key: Key, versions: Vec<Version<V>>)
        requires
            old(self).ok(),
            pos < old(self).width(),
            versions@.len() > 0,
            row::ascending(versions@),
            versions@.last().revision <= old(self).writes_at(),
        ensures
            final(self).ok(),
            final(self).source() == old(self).source(),
            final(self).opened_at() == old(self).opened_at(),
            final(self).writes_at() == old(self).writes_at(),
            final(self).width() == old(self).width(),
            final(self).size() <= old(self).size() + 1,
            forall|p: int| #[trigger]
                final(self).pending(p) == (if p == pos {
                    pending::with_load(old(self).pending(p), key@, versions@)
                } else {
                    old(self).pending(p)
                }),
    {
        let ghost was = *self;
        proof {
            self.lemma_ok();
        }
        let mut slot: Option<Buffer<V>> = None;
        core::mem::swap(&mut slot, &mut self.buffers[pos]);
        let mut buffer = match slot {
            Some(buffer) => buffer,
            None => Buffer::new(),
        };
        assert(buffer@ == was.pending(pos as int));
        let ghost k = key@;
        let ghost h = versions@;
        buffer.loaded(key, versions);
        self.buffers.set(pos, Some(buffer));
        self.dirty = true;
        proof {
            was.lemma_put(self, pos as int, Write { key: k, loaded: Some(h), wrote: None });
        }
    }

    /// One more write in one slot leaves the transaction sound.
    proof fn lemma_put(&self, after: &Self, pos: int, w: Write<V>)
        requires
            self.ok(),
            0 <= pos < self.buffers@.len(),
            entry::timely(w, self.revision),
            after.db == self.db,
            after.visible == self.visible,
            after.revision == self.revision,
            after.dirty,
            after.buffers@.len() == self.buffers@.len(),
            after.buffers@[pos] matches Some(b) && b.wf() && b@ == pending::with(
                self.pending(pos),
                w,
            ),
            forall|p: int|
                0 <= p < self.buffers@.len() && p != pos ==> after.buffers@[p] == self.buffers@[p],
        ensures
            after.ok(),
            after.size() <= self.size() + 1,
            forall|p: int| #[trigger]
                after.pending(p) == (if p == pos {
                    pending::with(self.pending(p), w)
                } else {
                    self.pending(p)
                }),
    {
        self.lemma_ok();
        let ws = self.pending(pos);
        assert(pending::distinct(ws));
        pending::lemma_with(ws, w);
        let n = pending::with(ws, w);
        assert(n.len() > 0) by {
            assert(pending::written(n, w.key) == Some(w));
        }
        assert(after.pending(pos).len() > 0);
        lemma_weight_put(self, after, pos, self.buffers@.len() as int);
        assert forall|p: int, i: int|
            0 <= p < after.buffers@.len() && 0 <= i < after.pending(p).len() implies entry::timely(
            #[trigger] after.pending(p)[i],
            after.revision,
        ) by {
            if p == pos {
                pending::lemma_place(n, i);
                let k = n[i].key;
                if k != w.key {
                    assert(pending::written(ws, k) == Some(n[i]));
                    let j = pending::place_of(ws, k);
                    assert(self.pending(pos)[j] == n[i]);
                }
            } else {
                assert(after.pending(p) == self.pending(p));
                assert(entry::timely(self.pending(p)[i], self.revision));
            }
        }
    }

    /// The buffer of one table, if it has been written.
    pub(crate) fn slot(&self, pos: usize) -> (buffer: Option<&Buffer<V>>)
        requires
            self.ok(),
        ensures
            match buffer {
                Some(b) => b.wf() && b@ == self.pending(pos as int),
                None => self.pending(pos as int) == Seq::<Write<V>>::empty(),
            },
    {
        if pos < self.buffers.len() {
            match &self.buffers[pos] {
                Some(buffer) => Some(buffer),
                None => None,
            }
        } else {
            None
        }
    }
}

/// A transaction reads its own writes: the buffer first, then the trees at the
/// revision it opened on.
impl<V> Snapshot<V> for WriteTxn<V> {
    open spec fn db(&self) -> u64 {
        self.source()
    }

    open spec fn reads_at(&self) -> Revision {
        self.opened_at()
    }

    open spec fn writes(&self, pos: int) -> Seq<Write<V>> {
        self.pending(pos)
    }

    open spec fn wf(&self) -> bool {
        self.ok()
    }

    fn id(&self) -> (id: u64) {
        self.db
    }

    fn at(&self) -> (at: Revision) {
        self.visible
    }

    fn buffer(&self, pos: usize) -> (buffer: Option<&Buffer<V>>) {
        self.slot(pos)
    }
}

} // verus!
