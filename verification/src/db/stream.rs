//! A reader of one table's changes.

use std::sync::Arc;

use vstd::prelude::*;

use crate::bytes;
use crate::db::entry::TableEntry;
use crate::db::record;
use crate::db::record::{revision_of, stream_key, table_of, Record};
use crate::db::row;
use crate::db::txn::{ReadTxn, WriteTxn};
use crate::db::{Db, Key, Revision, Table};
use crate::entries;
use crate::entries::Entries;
use crate::tree;
use crate::watch::{Covers, Watch};

verus! {

/// One committed write, as seen by a [`ChangeIterator`].
pub struct Change<V> {
    pub key: Key,
    pub value: Arc<V>,
    pub revision: Revision,
    pub deleted: bool,
}

/// A change, as the contracts speak of it.
#[verifier::ext_equal]
pub struct Told<V> {
    pub key: Seq<u8>,
    pub value: Arc<V>,
    pub revision: Revision,
    pub deleted: bool,
}

impl<V> View for Change<V> {
    type V = Told<V>;

    open spec fn view(&self) -> Told<V> {
        Told {
            key: self.key@,
            value: self.value,
            revision: self.revision,
            deleted: self.deleted,
        }
    }
}

/// The changes of a list.
pub open spec fn told<V>(list: Seq<Change<V>>) -> Seq<Told<V>> {
    Seq::new(list.len(), |i: int| list[i]@)
}

/// The history the reader still needed was dropped by [`Db::compact`].
#[derive(Debug, Clone, Copy, PartialEq, Eq, Structural)]
pub struct Compacted {
    pub at: Revision,
}

/// A reader of one table's changes. It holds the revision it has read up to and
/// nothing else: the records wait in the change stream until a compaction drops
/// them, whether or not anyone has read them.
pub struct ChangeIterator<V> {
    table: Table<V>,
    observed: Revision,
}

/// What one record tells a reader that has read up to `observed` and reads at
/// `at`: the version it names, if it is for this reader and the row still holds
/// it.
pub open spec fn tells<V, P, X>(
    t: &TableEntry<V, P, X>,
    r: Record,
    observed: Revision,
    at: Revision,
) -> Option<Told<V>> where P: Fn(&V) -> Key, X: Fn(&V) -> Vec<Key> {
    if observed < r.revision <= at {
        match row::exactly(t.history(r.key), r.revision as Revision) {
            Some(v) => Some(
                Told {
                    key: r.key,
                    value: v.value,
                    revision: r.revision as Revision,
                    deleted: v.deleted,
                },
            ),
            None => None,
        }
    } else {
        None
    }
}

/// What a list of records tells, in order.
pub open spec fn reported<V, P, X>(
    t: &TableEntry<V, P, X>,
    rs: Seq<Record>,
    observed: Revision,
    at: Revision,
) -> Seq<Told<V>> where P: Fn(&V) -> Key, X: Fn(&V) -> Vec<Key>
    decreases rs.len(),
{
    if rs.len() == 0 {
        Seq::empty()
    } else {
        let before = reported(t, rs.drop_last(), observed, at);
        match tells(t, rs.last(), observed, at) {
            Some(change) => before.push(change),
            None => before,
        }
    }
}

pub proof fn lemma_reported_concat<V, P, X>(
    t: &TableEntry<V, P, X>,
    a: Seq<Record>,
    b: Seq<Record>,
    observed: Revision,
    at: Revision,
) where P: Fn(&V) -> Key, X: Fn(&V) -> Vec<Key>
    ensures
        reported(t, a + b, observed, at) == reported(t, a, observed, at) + reported(
            t,
            b,
            observed,
            at,
        ),
    decreases b.len(),
{
    if b.len() == 0 {
        assert(a + b =~= a);
    } else {
        assert((a + b).drop_last() =~= a + b.drop_last());
        lemma_reported_concat(t, a, b.drop_last(), observed, at);
    }
}

/// Records that tell nothing report nothing.
pub proof fn lemma_reported_none<V, P, X>(
    t: &TableEntry<V, P, X>,
    rs: Seq<Record>,
    observed: Revision,
    at: Revision,
) where P: Fn(&V) -> Key, X: Fn(&V) -> Vec<Key>
    requires
        forall|j: int| 0 <= j < rs.len() ==> tells(t, #[trigger] rs[j], observed, at) is None,
    ensures
        reported(t, rs, observed, at).len() == 0,
    decreases rs.len(),
{
    if rs.len() > 0 {
        lemma_reported_none(t, rs.drop_last(), observed, at);
        assert(tells(t, rs[rs.len() - 1], observed, at) is None);
    }
}

/// The same keys, with values that read the same.
spec fn read_alike(a: Entries<Key>, b: Entries<Key>) -> bool {
    &&& a.len() == b.len()
    &&& forall|i: int| 0 <= i < a.len() ==> #[trigger] a[i].0 == b[i].0 && a[i].1@ == b[i].1@
}

proof fn lemma_cloned_key(a: Key, b: Key)
    requires
        cloned(a, b),
    ensures
        a@ == b@,
{
    assert(a@ =~= b@);
}

impl<V> ChangeIterator<V> {
    /// The table whose changes this reads.
    pub closed spec fn source(&self) -> Table<V> {
        self.table
    }

    /// The revision it has read up to.
    pub closed spec fn upto(&self) -> Revision {
        self.observed
    }

    /// The changes between the last observed revision and `txn`, in revision
    /// order, plus a watch that fires on the next change to the table.
    ///
    /// The revision counts as observed as soon as this returns. A reader handed
    /// an older revision than one it has already read reads nothing and keeps
    /// the revision it had. Fails with [`Compacted`] if [`Db::compact`] dropped
    /// changes this reader had not seen.
    pub fn next<P, X>(&mut self, db: &Db<V, P, X>, txn: &ReadTxn) -> (out: Result<
        (Vec<Change<V>>, Watch),
        Compacted,
    >)
        where
            P: Fn(&V) -> Key,
            X: Fn(&V) -> Vec<Key>,
        requires
            db.readable(),
            db.owns(&old(self).source()),
            txn.db() == db.tag(),
        ensures
            ({
                let pos = old(self).source().at();
                let t = db.entry(pos);
                let lost = t.counters().lost;
                let own = t.counters().revision;
                &&& final(self).source() == old(self).source()
                &&& match out {
                    Err(compacted) => {
                        &&& old(self).upto() < lost
                        &&& compacted.at == lost
                        &&& final(self).upto() == old(self).upto()
                    },
                    Ok((list, watch)) => {
                        &&& old(self).upto() >= lost
                        &&& told(list@) == reported(
                            &t,
                            db.records(pos),
                            old(self).upto(),
                            txn.at(),
                        )
                        &&& final(self).upto() == (if old(self).upto() > txn.at() {
                            old(self).upto()
                        } else {
                            txn.at()
                        })
                        &&& watch.since() == (if own < txn.at() {
                            own
                        } else {
                            txn.at()
                        })
                        &&& watch.scope() == Covers::Table(pos as usize)
                        &&& watch.line() == db.line()
                    },
                }
            }),
    {
        let at = txn.revision();
        let pos = self.table.pos;
        let observed = self.observed;
        proof {
            db.lemma_readable();
        }
        let entry = &db.tables[pos];
        let state = entry.state();
        let list = changes_between(db, entry, pos, observed, at);
        if observed < state.lost {
            return Err(Compacted { at: state.lost });
        }
        if observed < at {
            self.observed = at;
        }
        let taken = if state.revision < at {
            state.revision
        } else {
            at
        };
        Ok((list, Watch::new(taken, Covers::Table(pos), &db.revisions)))
    }
}

/// Entries of one table that are not for the reader tell it nothing.
proof fn lemma_not_for<V, P, X>(
    t: &TableEntry<V, P, X>,
    e: Entries<Key>,
    table: nat,
    observed: Revision,
    at: Revision,
) where P: Fn(&V) -> Key, X: Fn(&V) -> Vec<Key>
    requires
        forall|i: int|
            0 <= i < e.len() && record::table_at((#[trigger] e[i]).0) == table
                ==> record::revision_at(e[i].0) <= observed || record::revision_at(e[i].0) > at,
    ensures
        reported(t, record::records(e, table), observed, at).len() == 0,
{
    let rs = record::records(e, table);
    assert forall|j: int| 0 <= j < rs.len() implies tells(
        t,
        #[trigger] rs[j],
        observed,
        at,
    ) is None by {
        let i = record::lemma_records_from(e, table, j);
    }
    lemma_reported_none(t, rs, observed, at);
}

/// What the stream holds for a reader is what it holds from `s` to `d`: before
/// that the reader has read it, and after that it is past the reader or another
/// table's.
proof fn lemma_window<V, P, X>(
    t: &TableEntry<V, P, X>,
    e: Entries<Key>,
    table: nat,
    observed: Revision,
    at: Revision,
    s: int,
    d: int,
) where P: Fn(&V) -> Key, X: Fn(&V) -> Vec<Key>
    requires
        entries::sorted(e),
        record::all_records(e),
        table <= u32::MAX,
        ({
            let next = if observed < u64::MAX {
                (observed + 1) as nat
            } else {
                u64::MAX as nat
            };
            entries::place(e, record::record_key(table, next, 0), s)
        }),
        s <= d <= e.len(),
        d < e.len() ==> record::table_at(e[d].0) != table || record::revision_at(e[d].0) > at,
    ensures
        reported(t, record::records(e, table), observed, at) == reported(
            t,
            record::records(e.subrange(s, d), table),
            observed,
            at,
        ),
{
    let next = if observed < u64::MAX {
        (observed + 1) as nat
    } else {
        u64::MAX as nat
    };
    let key = record::record_key(table, next, 0);
    record::lemma_record(table, next, 0);
    let a = e.subrange(0, s);
    let b = e.subrange(s, d);
    let c = e.subrange(d, e.len() as int);
    assert(e =~= a + b + c);
    record::lemma_records_concat(a, b, table);
    record::lemma_records_concat(a + b, c, table);
    let (ra, rb, rc) = (
        record::records(a, table),
        record::records(b, table),
        record::records(c, table),
    );
    lemma_reported_concat(t, ra, rb, observed, at);
    lemma_reported_concat(t, ra + rb, rc, observed, at);
    assert forall|i: int|
        0 <= i < a.len() && record::table_at((#[trigger] a[i]).0)
            == table implies record::revision_at(a[i].0) <= observed || record::revision_at(a[i].0)
        > at by {
        assert(a[i] == e[i]);
        record::lemma_record_order(e[i].0, key);
        assert(bytes::lt(e[i].0, key));
    }
    lemma_not_for(t, a, table, observed, at);
    assert forall|i: int|
        0 <= i < c.len() && record::table_at((#[trigger] c[i]).0)
            == table implies record::revision_at(c[i].0) <= observed || record::revision_at(c[i].0)
        > at by {
        assert(c[i] == e[d + i]);
        assert(!bytes::lt(e[d].0, key));
        record::lemma_record_order(e[d].0, key);
        if i > 0 {
            assert(bytes::lt(e[d].0, e[d + i].0));
            record::lemma_record_order(e[d].0, e[d + i].0);
        }
    }
    lemma_not_for(t, c, table, observed, at);
    assert(reported(t, record::records(e, table), observed, at) =~= reported(t, rb, observed, at));
}

/// The changes of one table past `observed` and up to `at`, in the order they
/// were written, each resolved through the row it names.
fn changes_between<V, P, X>(
    db: &Db<V, P, X>,
    entry: &TableEntry<V, P, X>,
    pos: usize,
    observed: Revision,
    at: Revision,
) -> (list: Vec<Change<V>>) where P: Fn(&V) -> Key, X: Fn(&V) -> Vec<Key>
    requires
        db.readable(),
        pos < db.count(),
        *entry == db.entry(pos as int),
        entry.wf(),
    ensures
        told(list@) == reported(entry, db.records(pos as int), observed, at),
{
    let ghost e = db.changes.entries();
    let ghost table = pos as nat;
    let next = if observed < u64::MAX {
        observed + 1
    } else {
        observed
    };
    let start = stream_key(pos, next, 0);
    let ghost s = entries::slot(e, start@);
    let ghost mut d: int = s;
    let mut list: Vec<Change<V>> = Vec::new();
    let mut walk = db.changes.range_from(start.as_slice());
    proof {
        db.changes.lemma_sorted();
        entries::lemma_slot_exists(e, start@);
        assert(walk.rest(e) =~= e.subrange(s, e.len() as int));
        assert(e.subrange(s, s) =~= Seq::empty());
        record::lemma_records_none(e.subrange(s, s), table);
        assert(told(list@) =~= Seq::empty());
    }
    loop
        invariant_except_break
            read_alike(walk.rest(e), e.subrange(d, e.len() as int)),
        invariant
            db.readable(),
            db.changes.wf(),
            entry.wf(),
            walk.wf(),
            e == db.changes.entries(),
            table == pos,
            entries::sorted(e),
            record::all_records(e),
            entries::place(e, start@, s),
            s <= d <= e.len(),
            told(list@) == reported(
                entry,
                record::records(e.subrange(s, d), table),
                observed,
                at,
            ),
        ensures
            d < e.len() ==> record::table_at(e[d].0) != table || record::revision_at(e[d].0) > at,
        decreases e.len() - d,
    {
        let ghost was = walk;
        let next = walk.next(&db.changes);
        proof {
            tree::lemma_walk_rest(was, e, tree::plain(next), walk);
        }
        match next {
            Some((name, key)) => {
                proof {
                    let r = was.rest(e);
                    assert(r[0].0 == e.subrange(d, e.len() as int)[0].0);
                    assert(e.subrange(d, e.len() as int)[0] == e[d]);
                    lemma_cloned_key(r[0].1, key);
                    assert(e[d].0.len() == 16);
                }
                if table_of(name.as_slice()) != pos {
                    break;
                }
                let revision = revision_of(name.as_slice());
                if revision > at {
                    break;
                }
                let ghost before = told(list@);
                let ghost r = record::record(e[d]);
                let ghost k = key@;
                if revision > observed {
                    if let Some(version) = entry.exactly(key.as_slice(), revision) {
                        list.push(
                            Change {
                                key,
                                value: version.value,
                                revision,
                                deleted: version.deleted,
                            },
                        );
                    }
                }
                proof {
                    lemma_one_more(entry, e, table, s, d, observed, at);
                    match tells(entry, r, observed, at) {
                        Some(change) => {
                            assert(told(list@) =~= before.push(change));
                        },
                        None => {
                            assert(told(list@) =~= before);
                        },
                    }
                    let rest = was.rest(e);
                    let q = walk.rest(e);
                    let t = e.subrange(d + 1, e.len() as int);
                    assert forall|i: int| 0 <= i < q.len() implies #[trigger] q[i].0 == t[i].0
                        && q[i].1@ == t[i].1@ by {
                        let x = rest.subrange(1, rest.len() as int);
                        assert(x[i] == rest[i + 1]);
                        assert(x[i].0 == q[i].0 && cloned(x[i].1, q[i].1));
                        lemma_cloned_key(x[i].1, q[i].1);
                        assert(rest[i + 1].0 == e.subrange(d, e.len() as int)[i + 1].0);
                        assert(e.subrange(d, e.len() as int)[i + 1] == t[i]);
                    }
                    d = d + 1;
                }
            },
            None => {
                break;
            },
        }
    }
    proof {
        lemma_window(entry, e, table, observed, at, s, d);
    }
    list
}

/// One more entry of the table is one more record.
proof fn lemma_one_more<V, P, X>(
    t: &TableEntry<V, P, X>,
    e: Entries<Key>,
    table: nat,
    s: int,
    d: int,
    observed: Revision,
    at: Revision,
) where P: Fn(&V) -> Key, X: Fn(&V) -> Vec<Key>
    requires
        0 <= s <= d < e.len(),
        record::table_at(e[d].0) == table,
    ensures
        reported(t, record::records(e.subrange(s, d + 1), table), observed, at) == (match tells(
            t,
            record::record(e[d]),
            observed,
            at,
        ) {
            Some(change) => reported(
                t,
                record::records(e.subrange(s, d), table),
                observed,
                at,
            ).push(change),
            None => reported(t, record::records(e.subrange(s, d), table), observed, at),
        }),
{
    let b = e.subrange(s, d);
    let more = e.subrange(s, d + 1);
    assert(more =~= b + seq![e[d]]);
    record::lemma_records_concat(b, seq![e[d]], table);
    record::lemma_records_one(e[d], table);
    let rs = record::records(more, table);
    assert(rs.drop_last() =~= record::records(b, table));
    assert(rs.last() == record::record(e[d]));
}

impl<V> Table<V> {
    /// A reader of this table's changes, observing it from where it stands now:
    /// what this transaction and every later one write is reported.
    pub fn changes<P, X>(&self, db: &Db<V, P, X>, txn: &mut WriteTxn<V>) -> (reader: ChangeIterator<
        V,
    >)
        where
            P: Fn(&V) -> Key,
            X: Fn(&V) -> Vec<Key>,
        requires
            db.owns(self),
            old(txn).source() == db.tag(),
        ensures
            reader.source() == *self,
            reader.upto() == db.entry(self.at()).counters().revision,
            *final(txn) == *old(txn),
    {
        ChangeIterator { table: *self, observed: db.tables[self.pos].state().revision }
    }
}

} // verus!
