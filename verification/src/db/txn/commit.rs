//! The commit: what a transaction buffered, written to the trees.

use vstd::prelude::*;

use crate::db::entry;
use crate::db::pending;
use crate::db::pending::{Buffer, Write};
use crate::db::record;
use crate::db::row;
use crate::db::txn;
use crate::db::txn::WriteTxn;
use crate::db::{Db, Key, Revision};
use crate::watch::announce;

verus! {

/// Some table of the transaction was loaded.
pub open spec fn any_load<V>(txn: &WriteTxn<V>) -> bool {
    exists|pos: int| 0 <= pos < txn.width() && #[trigger] txn.loads(pos)
}

/// The more tables, the more writes.
proof fn lemma_weight<V>(txn: &WriteTxn<V>, a: int, b: int)
    requires
        0 <= a <= b,
    ensures
        txn::weight(txn, a) <= txn::weight(txn, b),
    decreases b - a,
{
    if a < b {
        lemma_weight(txn, a, b - 1);
    }
}

impl<V, P, X> Db<V, P, X> where P: Fn(&V) -> Key, X: Fn(&V) -> Vec<Key> {
    /// The transaction can be committed here: it was opened on this database,
    /// nothing was committed since, its writes can be counted, and no record
    /// names a row it loads.
    pub open spec fn admits(&self, txn: &WriteTxn<V>) -> bool {
        &&& txn.ok()
        &&& txn.source() == self.tag()
        &&& txn.opened_at() == self.head()
        &&& txn.width() <= self.count()
        &&& txn.size() <= u32::MAX
        &&& forall|pos: int|
            0 <= pos < txn.width() && #[trigger] txn.loads(pos) ==> self.records(pos).len() == 0
    }

    /// What a commit of `ws` at `revision` makes of one table: every row and
    /// every index entry takes its write, and every key written leaves one
    /// record.
    pub open spec fn commits(
        &self,
        after: &Self,
        pos: int,
        ws: Seq<Write<V>>,
        revision: Revision,
    ) -> bool {
        let (t, u) = (self.entry(pos), after.entry(pos));
        &&& t.takes(&u, ws, revision, self.bound())
        &&& after.records(pos) == self.records(pos) + entry::fresh(ws, revision)
        &&& u.counters().lost == t.counters().lost
        &&& u.counters().revision == (if ws.len() > 0 {
            revision
        } else {
            t.counters().revision
        })
    }

    /// What a commit of the transaction makes of the database: every table
    /// takes what is buffered for it, and the revision is the transaction's.
    pub open spec fn publishes(&self, after: &Self, txn: &WriteTxn<V>) -> bool {
        &&& after.head() == txn.writes_at()
        &&& after.told() == (match self.told() {
            Some(_) => Some(txn.writes_at()),
            None => None,
        })
        &&& after.tag() == self.tag()
        &&& after.line() == self.line()
        &&& after.bound() == self.bound()
        &&& after.stuck() == 0
        &&& after.count() == self.count()
        &&& after.loaded_at() == (if any_load(txn) {
            txn.writes_at()
        } else {
            self.loaded_at()
        })
        &&& forall|pos: int|
            0 <= pos < self.count() ==> #[trigger] self.commits(
                after,
                pos,
                txn.pending(pos),
                txn.writes_at(),
            )
    }

    /// One table has taken the first `n` of `ws`, with their records.
    pub open spec fn took(
        &self,
        after: &Self,
        pos: int,
        ws: Seq<Write<V>>,
        revision: Revision,
        n: int,
    ) -> bool {
        let (t, u) = (self.entry(pos), after.entry(pos));
        let taken = ws.subrange(0, n);
        &&& 0 <= n <= ws.len()
        &&& t.takes(&u, taken, revision, self.bound())
        &&& after.records(pos) == self.records(pos) + entry::fresh(taken, revision)
        &&& u.counters().lost == t.counters().lost
        &&& u.counters().revision == t.counters().revision || u.counters().revision == revision
    }

    /// One table has taken the first of `ws`.
    pub open spec fn took_some(
        &self,
        after: &Self,
        pos: int,
        ws: Seq<Write<V>>,
        revision: Revision,
    ) -> bool {
        exists|n: int| #[trigger] self.took(after, pos, ws, revision, n)
    }

    /// A commit of the transaction partway through: its revision is marked as
    /// the one a commit is in the middle of, every table has taken the first of
    /// what is buffered for it, and nothing is published.
    pub open spec fn begins(&self, after: &Self, txn: &WriteTxn<V>) -> bool {
        &&& after.stuck() == txn.writes_at()
        &&& after.head() == self.head()
        &&& after.told() == self.told()
        &&& after.tag() == self.tag()
        &&& after.line() == self.line()
        &&& after.bound() == self.bound()
        &&& after.loaded_at() == self.loaded_at()
        &&& after.count() == self.count()
        &&& forall|pos: int|
            0 <= pos < self.count() ==> #[trigger] self.took_some(
                after,
                pos,
                txn.pending(pos),
                txn.writes_at(),
            )
    }

    /// Whether the transaction can be committed here.
    pub fn accepts(&self, txn: &WriteTxn<V>) -> (yes: bool)
        requires
            self.readable(),
            txn.ok(),
        ensures
            yes == self.admits(txn),
    {
        let n = txn.buffers.len();
        if txn.db != self.id || txn.visible != self.revision || n > self.tables.len() {
            return false;
        }
        let mut total: usize = 0;
        for pos in 0..n
            invariant
                self.readable(),
                txn.ok(),
                n == txn.buffers@.len(),
                n <= self.tables@.len(),
                total == txn::weight(txn, pos as int),
                total <= u32::MAX,
                forall|p: int|
                    0 <= p < pos && #[trigger] txn.loads(p) ==> self.records(p).len() == 0,
        {
            proof {
                lemma_weight(txn, pos as int + 1, n as int);
            }
            if let Some(buffer) = txn.slot(pos) {
                if buffer.len() > u32::MAX as usize - total {
                    return false;
                }
                total += buffer.len();
                if buffer.rebuilds() && self.recorded(pos) {
                    assert(txn.loads(pos as int)) by {
                        let i = choose|i: int|
                            0 <= i < buffer@.len() && (#[trigger] buffer@[i]).loaded is Some;
                        assert(txn.pending(pos as int)[i].loaded is Some);
                    }
                    return false;
                }
                proof {
                    if txn.loads(pos as int) {
                        let i = choose|i: int|
                            0 <= i < txn.pending(pos as int).len() && (#[trigger] txn.pending(
                                pos as int,
                            )[i]).loaded is Some;
                        assert(buffer@[i].loaded is Some);
                    }
                }
            }
        }
        true
    }

    /// What the tables are while a commit at `revision` runs.
    spec fn underway(&self, was: &Self, revision: Revision, floor: Revision) -> bool {
        &&& self.tables@.len() == was.tables@.len()
        &&& self.id == was.id
        &&& self.compacted == was.compacted
        &&& self.sender == was.sender
        &&& self.revisions == was.revisions
        &&& self.changes.wf()
        &&& record::all_records(self.changes.entries())
        &&& forall|t: nat|
            t >= was.tables@.len() ==> #[trigger] record::records(self.changes.entries(), t)
                == record::records(was.changes.entries(), t)
        &&& forall|p: int|
            0 <= p < was.tables@.len() ==> {
                let t = #[trigger] self.tables@[p];
                &&& t.wf()
                &&& t.sound(revision, floor)
                &&& t.buried_above(t.counters().buried)
                &&& t.counters().revision <= revision
                &&& t.counters().lost <= was.compacted
                &&& t.counters().lost <= t.counters().revision
            }
    }

    /// A table no write is for takes nothing.
    proof fn lemma_commits_none(&self, after: &Self, pos: int, revision: Revision)
        requires
            after.entry(pos) == self.entry(pos),
            after.records(pos) == self.records(pos),
        ensures
            self.commits(after, pos, Seq::empty(), revision),
    {
        let none = Seq::<Write<V>>::empty();
        self.entry(pos).lemma_takes_none(revision, self.bound());
        assert(entry::fresh(none, revision) =~= Seq::empty());
        assert(self.records(pos) + entry::fresh(none, revision) =~= self.records(pos));
    }

    /// Every record is before those of a commit past the last revision.
    proof fn lemma_past(&self, was: &Self, pos: int, revision: Revision, seq: nat)
        requires
            was.wf(),
            was.revision < revision,
            0 <= pos < was.tables@.len(),
            self.records(pos) == was.records(pos),
        ensures
            entry::past_records(self.changes.entries(), pos as nat, revision, seq),
    {
        let e = self.changes.entries();
        assert forall|i: int|
            0 <= i < e.len() && record::table_at((#[trigger] e[i]).0) == pos as nat implies {
            ||| record::revision_at(e[i].0) < revision
            ||| record::revision_at(e[i].0) == revision && record::seq_at(e[i].0) < seq
        } by {
            let j = record::lemma_records_to(e, pos as nat, i);
            assert(was.records(pos)[j].revision <= was.tables@[pos].counters().revision);
        }
    }

    /// A commit leaves the database sound.
    proof fn lemma_committed(&self, after: &Self, txn: &WriteTxn<V>, floor: Revision)
        requires
            self.wf(),
            self.admits(txn),
            after.underway(self, txn.writes_at(), floor),
            after.revision == txn.writes_at(),
            after.rebuilt@ <= after.revision,
            after.floor() == floor,
            forall|p: int|
                0 <= p < self.tables@.len() ==> #[trigger] self.commits(
                    after,
                    p,
                    txn.pending(p),
                    txn.writes_at(),
                ),
        ensures
            forall|i: int|
                0 <= i < after.changes.entries().len() ==> record::table_at(
                    (#[trigger] after.changes.entries()[i]).0,
                ) < after.tables@.len(),
            forall|pos: int, j: int|
                0 <= pos < after.tables@.len() && 0 <= j < after.records(pos).len() ==> (
                #[trigger] after.records(pos)[j]).revision
                    <= after.tables@[pos].counters().revision && after.resolves(pos, j),
            forall|pos: int|
                0 <= pos < after.tables@.len() ==> record::apart(#[trigger] after.records(pos)),
    {
        let e = after.changes.entries();
        let revision = txn.writes_at();
        txn.lemma_ok();
        assert forall|i: int| 0 <= i < e.len() implies record::table_at((#[trigger] e[i]).0)
            < after.tables@.len() by {
            let t = record::table_at(e[i].0);
            if t >= after.tables@.len() {
                let j = record::lemma_records_to(e, t, i);
                assert(record::records(e, t) == record::records(self.changes.entries(), t));
                let x = record::lemma_records_from(self.changes.entries(), t, j);
                assert(record::table_at(self.changes.entries()[x].0) < self.tables@.len());
            }
        }
        assert forall|pos: int, j: int|
            0 <= pos < after.tables@.len() && 0 <= j < after.records(pos).len() implies (
        #[trigger] after.records(pos)[j]).revision <= after.tables@[pos].counters().revision
            && after.resolves(pos, j) by {
            let ws = txn.pending(pos);
            assert(self.commits(after, pos, ws, revision));
            let r = after.records(pos)[j];
            let h = self.entry(pos).history(r.key);
            assert(after.entry(pos).history(r.key) == after.entry(pos).history(r.key));
            let n = self.records(pos).len();
            if j < n {
                assert(self.records(pos)[j] == r);
                assert(self.resolves(pos, j));
                let t = self.tables@[pos];
                assert(t.sound(self.revision, self.floor()));
                assert(t.counters().revision <= self.revision);
                assert(row::ordered(h));
                if let Some(w) = pending::written(ws, r.key) {
                    let i = pending::place_of(ws, r.key);
                    assert(entry::timely(txn.pending(pos)[i], revision));
                    if w.loaded is Some {
                        assert(txn.pending(pos)[i].loaded is Some);
                        assert(txn.loads(pos));
                    }
                    if r.revision > self.bound() {
                        row::lemma_exactly_grown(
                            h,
                            w.wrote->0,
                            self.bound(),
                            r.revision as Revision,
                        );
                    }
                }
            } else {
                let i = entry::lemma_fresh_from(ws, revision, j - n);
                pending::lemma_place(ws, i);
                let w = ws[i];
                assert(entry::timely(txn.pending(pos)[i], revision));
                row::lemma_grown(w.base(h), w.wrote->0, self.bound(), revision);
            }
        }
        assert forall|pos: int| 0 <= pos < after.tables@.len() implies record::apart(
            #[trigger] after.records(pos),
        ) by {
            let ws = txn.pending(pos);
            assert(self.commits(after, pos, ws, revision));
            let (a, b) = (self.records(pos), entry::fresh(ws, revision));
            assert(record::apart(a));
            entry::lemma_fresh_apart(ws, revision);
            assert forall|i: int, j: int| 0 <= i < j < (a + b).len() implies (#[trigger] (a
                + b)[i]).revision != (#[trigger] (a + b)[j]).revision || (a + b)[i].key != (a
                + b)[j].key by {
                if j < a.len() {
                    assert((a + b)[i] == a[i] && (a + b)[j] == a[j]);
                } else if i < a.len() {
                    assert((a + b)[i] == self.records(pos)[i]);
                    assert(self.tables@[pos].counters().revision <= self.revision);
                    let x = entry::lemma_fresh_from(ws, revision, j - a.len());
                    assert((a + b)[j] == b[j - a.len()]);
                } else {
                    assert((a + b)[i] == b[i - a.len()] && (a + b)[j] == b[j - a.len()]);
                }
            }
        }
    }
}

impl<V, P, X> Db<V, P, X> where P: Fn(&V) -> Key, X: Fn(&V) -> Vec<Key> {
    /// Writes what is buffered for one table to its trees, and the records to
    /// the change stream, numbered from `seq` on. Returns the next number.
    ///
    /// No table is written but under the mark of the revision.
    fn apply_to(
        &mut self,
        pos: usize,
        buffer: Buffer<V>,
        revision: Revision,
        seq: u32,
        Ghost(was): Ghost<Self>,
        Ghost(floor): Ghost<Revision>,
    ) -> (next: u32)
        requires
            old(self).stuck() == revision,
            was.wf(),
            was.head() < revision,
            old(self).underway(&was, revision, floor),
            pos < was.count(),
            old(self).entry(pos as int) == was.entry(pos as int),
            old(self).records(pos as int) == was.records(pos as int),
            buffer.wf(),
            buffer@.len() > 0,
            forall|i: int|
                0 <= i < buffer@.len() ==> entry::timely(#[trigger] buffer@[i], revision),
            forall|i: int|
                0 <= i < buffer@.len() && (#[trigger] buffer@[i]).loaded is Some ==> floor
                    >= revision,
            floor < revision ==> was.bound() <= floor,
            seq + buffer@.len() <= u32::MAX,
        ensures
            final(self).readable(),
            final(self).stuck() == revision,
            final(self).head() == old(self).head(),
            final(self).loaded_at() == old(self).loaded_at(),
            final(self).underway(&was, revision, floor),
            was.commits(final(self), pos as int, buffer@, revision),
            next == seq + entry::fresh(buffer@, revision).len(),
            record::filed(
                old(self).changes.entries(),
                final(self).changes.entries(),
                pos as nat,
                revision as nat,
                seq as nat,
                entry::fresh(buffer@, revision),
            ),
            forall|p: int|
                0 <= p < was.count() && p != pos ==> #[trigger] final(self).entry(p) == old(
                    self,
                ).entry(p),
            forall|p: int|
                0 <= p < was.count() && p != pos ==> #[trigger] final(self).records(p) == old(
                    self,
                ).records(p),
    {
        let ghost mid = *self;
        let ghost ws = buffer@;
        let compacted = self.compacted;
        proof {
            self.lemma_past(&was, pos as int, revision, seq as nat);
            assert(self.tables@[pos as int] == was.tables@[pos as int]);
        }
        let table = &mut self.tables[pos];
        let next = table.apply(
            buffer,
            revision,
            compacted,
            pos,
            seq,
            &mut self.changes,
            Ghost(floor),
        );
        proof {
            assert(self.records(pos as int) == was.records(pos as int) + entry::fresh(
                ws,
                revision,
            ));
            assert forall|p: int| 0 <= p < was.tables@.len() && p != pos implies self.tables@[p]
                == #[trigger] mid.tables@[p] by {}
            assert forall|p: int| 0 <= p < was.tables@.len() && p != pos implies #[trigger] self.entry(
                p,
            ) == mid.entry(p) by {
                assert(self.tables@[p] == mid.tables@[p]);
            }
            assert forall|p: int| 0 <= p < was.tables@.len() implies {
                let t = #[trigger] self.tables@[p];
                &&& t.wf()
                &&& t.sound(revision, floor)
                &&& t.buried_above(t.counters().buried)
                &&& t.counters().revision <= revision
                &&& t.counters().lost <= was.compacted
                &&& t.counters().lost <= t.counters().revision
            } by {
                if p != pos {
                    assert(self.tables@[p] == mid.tables@[p]);
                }
            }
            assert forall|t: nat| t >= was.tables@.len() implies #[trigger] record::records(
                self.changes.entries(),
                t,
            ) == record::records(was.changes.entries(), t) by {
                assert(record::records(mid.changes.entries(), t) == record::records(
                    was.changes.entries(),
                    t,
                ));
            }
        }
        next
    }

    /// A table that took everything took the first of it, and one that took
    /// nothing too.
    proof fn lemma_took(&self, after: &Self, pos: int, ws: Seq<Write<V>>, revision: Revision)
        requires
            self.commits(after, pos, ws, revision) || (after.entry(pos) == self.entry(pos)
                && after.records(pos) == self.records(pos)),
        ensures
            self.took_some(after, pos, ws, revision),
    {
        if self.commits(after, pos, ws, revision) {
            assert(ws.subrange(0, ws.len() as int) =~= ws);
            assert(self.took(after, pos, ws, revision, ws.len() as int));
        } else {
            self.lemma_commits_none(after, pos, revision);
            assert(ws.subrange(0, 0) =~= Seq::empty());
            assert(self.took(after, pos, ws, revision, 0));
        }
    }

    /// Writes what is buffered for every table to the trees, at `revision`,
    /// under the mark of that revision.
    fn apply(
        &mut self,
        buffers: Vec<Option<Buffer<V>>>,
        revision: Revision,
        Ghost(txn): Ghost<WriteTxn<V>>,
        Ghost(floor): Ghost<Revision>,
    )
        requires
            old(self).stuck() == revision,
            old(self).wf(),
            old(self).admits(&txn),
            txn.revision == revision,
            txn.buffers == buffers,
            old(self).floor() <= floor,
            any_load(&txn) ==> floor >= revision,
            floor < revision ==> old(self).bound() <= floor,
        ensures
            final(self).readable(),
            final(self).underway(old(self), revision, floor),
            old(self).begins(final(self), &txn),
            forall|p: int|
                0 <= p < old(self).count() ==> #[trigger] old(self).commits(
                    final(self),
                    p,
                    txn.pending(p),
                    revision,
                ),
    {
        let ghost was = *self;
        proof {
            txn.lemma_ok();
            assert forall|p: int| 0 <= p < was.tables@.len() implies {
                let t = #[trigger] self.tables@[p];
                &&& t.wf()
                &&& t.sound(revision, floor)
                &&& t.buried_above(t.counters().buried)
                &&& t.counters().revision <= revision
                &&& t.counters().lost <= was.compacted
                &&& t.counters().lost <= t.counters().revision
            } by {
                let t = was.tables@[p];
                t.lemma_later(was.revision, was.floor(), revision, floor);
            }
            assert forall|p: int| 0 <= p < was.count() implies #[trigger] was.took_some(
                self,
                p,
                txn.pending(p),
                revision,
            ) by {
                was.lemma_took(self, p, txn.pending(p), revision);
            }
        }
        let mut buffers = buffers;
        let mut seq: u32 = 0;
        let n = buffers.len();
        for pos in 0..n
            invariant
                was == *old(self),
                was.wf(),
                was.admits(&txn),
                was.head() < revision,
                txn.ok(),
                txn.revision == revision,
                n == txn.buffers@.len(),
                n == buffers@.len(),
                n <= was.tables@.len() <= u32::MAX,
                self.readable(),
                self.underway(&was, revision, floor),
                was.begins(self, &txn),
                any_load(&txn) ==> floor >= revision,
                floor < revision ==> was.bound() <= floor,
                seq <= txn::weight(&txn, pos as int),
                forall|p: int| pos <= p < n ==> #[trigger] buffers@[p] == txn.buffers@[p],
                forall|p: int|
                    0 <= p < pos ==> #[trigger] was.commits(self, p, txn.pending(p), revision),
                forall|p: int|
                    pos <= p < was.count() ==> #[trigger] self.entry(p) == was.entry(p),
                forall|p: int|
                    pos <= p < was.count() ==> #[trigger] self.records(p) == was.records(p),
        {
            let ghost mid = *self;
            let ghost ws = txn.pending(pos as int);
            proof {
                txn.lemma_ok();
                assert(buffers@[pos as int] == txn.buffers@[pos as int]);
                assert(self.records(pos as int) == was.records(pos as int));
                assert(self.entry(pos as int) == was.entry(pos as int));
                lemma_weight(&txn, pos as int + 1, n as int);
            }
            let mut slot: Option<Buffer<V>> = None;
            core::mem::swap(&mut slot, &mut buffers[pos]);
            if let Some(buffer) = slot {
                assert(buffer@ == ws);
                assert forall|i: int| 0 <= i < buffer@.len() implies entry::timely(
                    #[trigger] buffer@[i],
                    revision,
                ) by {
                    assert(entry::timely(txn.pending(pos as int)[i], revision));
                }
                assert forall|i: int|
                    0 <= i < buffer@.len() && (#[trigger] buffer@[i]).loaded is Some implies floor
                    >= revision by {
                    assert(txn.pending(pos as int)[i].loaded is Some);
                    assert(txn.loads(pos as int));
                }
                seq = self.apply_to(pos, buffer, revision, seq, Ghost(was), Ghost(floor));
                proof {
                    entry::lemma_fresh_len(ws, revision);
                }
            } else {
                proof {
                    was.lemma_commits_none(self, pos as int, revision);
                }
            }
            proof {
                was.lemma_step(&mid, self, &txn, pos as int);
            }
        }
        proof {
            assert forall|p: int| 0 <= p < was.count() implies #[trigger] was.commits(
                self,
                p,
                txn.pending(p),
                revision,
            ) by {
                if p >= n {
                    assert(self.entry(p) == was.entry(p));
                    assert(self.records(p) == was.records(p));
                    txn.lemma_ok();
                    was.lemma_commits_none(self, p, revision);
                }
            }
        }
    }

    /// One table more takes what is buffered for it.
    proof fn lemma_step(&self, mid: &Self, after: &Self, txn: &WriteTxn<V>, pos: int)
        requires
            self.begins(mid, txn),
            0 <= pos < self.count(),
            after.stuck() == mid.stuck(),
            after.head() == mid.head(),
            after.told() == mid.told(),
            after.tag() == mid.tag(),
            after.line() == mid.line(),
            after.bound() == mid.bound(),
            after.loaded_at() == mid.loaded_at(),
            after.count() == mid.count(),
            self.commits(after, pos, txn.pending(pos), txn.writes_at()),
            forall|p: int|
                0 <= p < pos ==> #[trigger] self.commits(
                    mid,
                    p,
                    txn.pending(p),
                    txn.writes_at(),
                ),
            forall|p: int|
                pos <= p < self.count() ==> #[trigger] mid.entry(p) == self.entry(p),
            forall|p: int|
                pos <= p < self.count() ==> #[trigger] mid.records(p) == self.records(p),
            forall|p: int|
                0 <= p < self.count() && p != pos ==> #[trigger] after.entry(p) == mid.entry(p),
            forall|p: int|
                0 <= p < self.count() && p != pos ==> #[trigger] after.records(p) == mid.records(
                    p,
                ),
        ensures
            self.begins(after, txn),
            forall|p: int|
                0 <= p < pos + 1 ==> #[trigger] self.commits(
                    after,
                    p,
                    txn.pending(p),
                    txn.writes_at(),
                ),
            forall|p: int|
                pos + 1 <= p < self.count() ==> #[trigger] after.entry(p) == self.entry(p),
            forall|p: int|
                pos + 1 <= p < self.count() ==> #[trigger] after.records(p) == self.records(p),
    {
        let revision = txn.writes_at();
        assert forall|p: int| 0 <= p < pos + 1 implies #[trigger] self.commits(
            after,
            p,
            txn.pending(p),
            revision,
        ) by {
            if p < pos {
                assert(self.commits(mid, p, txn.pending(p), revision));
                assert(after.entry(p) == mid.entry(p));
                assert(after.records(p) == mid.records(p));
            }
        }
        assert forall|p: int| pos + 1 <= p < self.count() implies #[trigger] after.entry(p)
            == self.entry(p) by {
            assert(mid.entry(p) == self.entry(p));
        }
        assert forall|p: int| pos + 1 <= p < self.count() implies #[trigger] after.records(p)
            == self.records(p) by {
            assert(mid.records(p) == self.records(p));
        }
        assert forall|p: int| 0 <= p < self.count() implies #[trigger] self.took_some(
            after,
            p,
            txn.pending(p),
            revision,
        ) by {
            self.lemma_took(after, p, txn.pending(p), revision);
        }
    }
}

impl<V> WriteTxn<V> {
    /// Writes the buffer to the trees, publishes the revision and wakes the
    /// watches. Returns the new revision, which is the previous one if nothing
    /// was written.
    pub fn commit<P, X>(self, db: &mut Db<V, P, X>) -> (revision: Revision)
        where
            P: Fn(&V) -> Key,
            X: Fn(&V) -> Vec<Key>,
        requires
            old(db).wf(),
            old(db).stuck() == 0,
            old(db).admits(&self),
        ensures
            final(db).wf(),
            !self.wrote() ==> revision == self.opened_at() && *final(db) == *old(db),
            self.wrote() ==> revision == self.writes_at() && old(db).publishes(final(db), &self),
    {
        let ghost txn = self;
        let ghost was = *db;
        let WriteTxn { db: _, visible, revision, buffers, dirty } = self;
        if !dirty {
            return visible;
        }
        // Cleared once everything is applied: a panic on the way leaves it set.
        db.wedged = revision;
        let ghost rebuilt: Revision = if any_load(&txn) {
            revision
        } else {
            was.rebuilt@
        };
        let ghost low: Revision = if was.compacted < revision {
            was.compacted
        } else {
            revision
        };
        let ghost floor: Revision = if rebuilt > low {
            rebuilt
        } else {
            low
        };
        let ghost marked = *db;
        proof {
            txn.lemma_ok();
            was.lemma_alike(db);
            assert forall|p: int|
                0 <= p < txn.width() && #[trigger] txn.loads(p) implies marked.records(p).len()
                == 0 by {
                assert(was.records(p).len() == 0);
            }
        }
        db.apply(buffers, revision, Ghost(txn), Ghost(floor));
        proof {
            assert forall|p: int| 0 <= p < was.tables@.len() implies #[trigger] was.commits(
                db,
                p,
                txn.pending(p),
                revision,
            ) by {
                assert(marked.commits(db, p, txn.pending(p), revision));
                assert(marked.records(p) == was.records(p));
            }
            assert(db.underway(&was, revision, floor)) by {
                assert(db.underway(&marked, revision, floor));
            }
        }
        let ghost applied = *db;
        db.wedged = 0;
        db.rebuilt = Ghost(rebuilt);
        // The revision comes last: a reader that has it has everything this
        // commit wrote, and one that read the revision before it passes over
        // every version this commit left.
        db.revision = revision;
        proof {
            assert forall|p: int| 0 <= p < was.tables@.len() implies #[trigger] was.commits(
                db,
                p,
                txn.pending(p),
                revision,
            ) by {
                assert(was.commits(&applied, p, txn.pending(p), revision));
                assert(db.records(p) == applied.records(p));
            }
            assert(db.underway(&was, revision, floor));
            was.lemma_committed(db, &txn, floor);
        }
        let ghost turned = *db;
        match &mut db.sender {
            Some(sender) => announce(sender, revision),
            None => {},
        }
        proof {
            assert forall|pos: int, j: int|
                0 <= pos < db.tables@.len() && 0 <= j < db.records(pos).len() implies (
            #[trigger] db.records(pos)[j]).revision <= db.tables@[pos].counters().revision
                && db.resolves(pos, j) by {
                assert(turned.records(pos)[j].revision <= turned.tables@[pos].counters().revision
                    && turned.resolves(pos, j));
            }
            assert forall|pos: int| 0 <= pos < db.tables@.len() implies record::apart(
                #[trigger] db.records(pos),
            ) by {
                assert(db.records(pos) == turned.records(pos));
            }
            assert forall|p: int| 0 <= p < was.tables@.len() implies #[trigger] was.commits(
                db,
                p,
                txn.pending(p),
                revision,
            ) by {
                assert(was.commits(&turned, p, txn.pending(p), revision));
                assert(db.records(p) == turned.records(p));
            }
        }
        revision
    }
}

} // verus!
