//! What holds of the database as a whole.
//!
//! Each law relates states before and after the operations of [`Db`],
//! [`WriteTxn`] and [`ChangeIterator`](crate::db::ChangeIterator) by what their
//! contracts say of them.

use std::sync::Arc;

use vstd::prelude::*;

use crate::db::entry;
use crate::db::entry::TableEntry;
use crate::db::listing;
use crate::db::pending;
use crate::db::pending::Write;
use crate::db::record;
use crate::db::record::Record;
use crate::db::row;
use crate::db::stream;
use crate::db::stream::Told;
use crate::db::txn::commit;
use crate::db::txn::{ReadTxn, WriteTxn};
use crate::db::{Db, Key, Revision, Table};
use crate::watch::{Covers, Watch};

verus! {

// ----------------------------------------------------------------- snapshots

/// What a write lands on a row is not seen below its revision, down to the
/// compaction bound.
proof fn lemma_landed_below<V>(
    h: row::History<V>,
    w: Write<V>,
    revision: Revision,
    compacted: Revision,
    at: Revision,
)
    requires
        entry::timely(w, revision),
        w.loaded is None,
        compacted <= at < revision,
    ensures
        row::version_at(w.landed(h, compacted), at) == row::version_at(h, at),
{
    row::lemma_grown(h, w.wrote->0, compacted, at);
}

/// Writes that load nothing change nothing a reader below them sees of a table
/// or finds in its indexes, down to the compaction bound.
proof fn lemma_unseen_below<V, P, X>(
    t: &TableEntry<V, P, X>,
    u: &TableEntry<V, P, X>,
    ws: Seq<Write<V>>,
    revision: Revision,
    compacted: Revision,
    at: Revision,
) where P: Fn(&V) -> Key, X: Fn(&V) -> Vec<Key>
    requires
        t.takes(u, ws, revision, compacted),
        forall|i: int|
            0 <= i < ws.len() ==> entry::timely(#[trigger] ws[i], revision) && ws[i].loaded is None,
        compacted <= at < revision,
    ensures
        forall|k: Seq<u8>|
            row::live(#[trigger] u.history(k), at) == row::live(t.history(k), at),
        forall|i: int, k: Seq<u8>, out: Seq<(Arc<V>, Revision)>|
            0 <= i < t.count() && k.len() <= u32::MAX && t.answers(i, k, at, out)
                ==> #[trigger] u.answers(i, k, at, out),
{
    assert forall|k: Seq<u8>| #[trigger]
        row::version_at(u.history(k), at) == row::version_at(t.history(k), at) by {
        if let Some(w) = pending::written(ws, k) {
            let i = pending::place_of(ws, k);
            assert(entry::timely(ws[i], revision) && ws[i].loaded is None);
            lemma_landed_below(t.history(k), w, revision, compacted, at);
        }
    }
    assert forall|k: Seq<u8>|
        row::live(#[trigger] u.history(k), at) == row::live(t.history(k), at) by {
        assert(row::version_at(u.history(k), at) == row::version_at(t.history(k), at));
    }
    assert forall|i: int, k: Seq<u8>, out: Seq<(Arc<V>, Revision)>|
        0 <= i < t.count() && k.len() <= u32::MAX && t.answers(
            i,
            k,
            at,
            out,
        ) implies #[trigger] u.answers(i, k, at, out) by {
        assert forall|p: Seq<u8>| #[trigger] u.listed_at(i, k, p, at) == t.listed_at(i, k, p, at) by {
            assert(row::version_at(u.history(p), at) == row::version_at(t.history(p), at));
            let l = t.listing(i, k, p);
            assert(u.listing(i, k, p) == u.listing(i, k, p));
            if let Some(w) = pending::written(ws, p) {
                let x = pending::place_of(ws, p);
                assert(entry::timely(ws[x], revision) && ws[x].loaded is None);
                let had = listing::lists_held(t.keys(i), row::held(w.base(t.history(p))), k);
                row::lemma_grown(l, listing::mark(revision, had), compacted, at);
            }
        }
        lemma_answers_alike(t, u, i, k, at, out);
    }
}

/// A snapshot holds: a commit that loads nothing changes nothing a reader that
/// was open before it reads, as long as the reader is not below the compaction
/// bound.
pub proof fn snapshots_hold<V, P, X>(
    before: &Db<V, P, X>,
    after: &Db<V, P, X>,
    txn: &WriteTxn<V>,
    table: &Table<V>,
    reader: &ReadTxn,
) where P: Fn(&V) -> Key, X: Fn(&V) -> Vec<Key>
    requires
        before.wf(),
        before.admits(txn),
        before.publishes(after, txn),
        !commit::any_load(txn),
        before.owns(table),
        before.bound() <= reader.at() <= before.head(),
    ensures
        forall|k: Seq<u8>| #[trigger]
            after.sees(table, reader, k) == before.sees(table, reader, k),
        forall|from: Seq<u8>, under: Option<Seq<u8>>, list: Seq<(Key, Arc<V>, Revision)>|
            before.lists(table, reader, from, under, list) ==> #[trigger] after.lists(
                table,
                reader,
                from,
                under,
                list,
            ),
        forall|i: int, k: Seq<u8>, out: Seq<(Arc<V>, Revision)>|
            0 <= i < before.entry(table.at()).count() && k.len() <= u32::MAX && before.entry(
                table.at(),
            ).answers(i, k, reader.at(), out) ==> #[trigger] after.entry(table.at()).answers(
                i,
                k,
                reader.at(),
                out,
            ),
{
    let pos = table.at();
    let at = reader.at();
    let ws = txn.pending(pos);
    let (t, u) = (before.entry(pos), after.entry(pos));
    let revision = txn.writes_at();
    txn.lemma_ok();
    assert(before.commits(after, pos, ws, revision));
    assert forall|i: int| 0 <= i < ws.len() implies entry::timely(#[trigger] ws[i], revision)
        && ws[i].loaded is None by {
        assert(entry::timely(txn.pending(pos)[i], revision));
        lemma_not_loaded(txn, pos, i);
    }
    lemma_unseen_below(&t, &u, ws, revision, before.bound(), at);
    assert forall|k: Seq<u8>| #[trigger]
        after.sees(table, reader, k) == before.sees(table, reader, k) by {
        assert(row::live(u.history(k), at) == row::live(t.history(k), at));
    }
}

/// A half-applied commit is not seen: while a commit that loads nothing is
/// partway through, or for good if it panicked there, a reader that was open
/// before it, or that opens on what the last commit published, reads what it
/// read before, as long as it is not below the compaction bound.
pub proof fn half_a_commit_is_not_seen<V, P, X>(
    before: &Db<V, P, X>,
    after: &Db<V, P, X>,
    txn: &WriteTxn<V>,
    table: &Table<V>,
    reader: &ReadTxn,
) where P: Fn(&V) -> Key, X: Fn(&V) -> Vec<Key>
    requires
        before.wf(),
        before.admits(txn),
        before.begins(after, txn),
        !commit::any_load(txn),
        before.owns(table),
        before.bound() <= reader.at() <= before.head(),
    ensures
        forall|k: Seq<u8>| #[trigger]
            after.sees(table, reader, k) == before.sees(table, reader, k),
        forall|from: Seq<u8>, under: Option<Seq<u8>>, list: Seq<(Key, Arc<V>, Revision)>|
            before.lists(table, reader, from, under, list) ==> #[trigger] after.lists(
                table,
                reader,
                from,
                under,
                list,
            ),
        forall|i: int, k: Seq<u8>, out: Seq<(Arc<V>, Revision)>|
            0 <= i < before.entry(table.at()).count() && k.len() <= u32::MAX && before.entry(
                table.at(),
            ).answers(i, k, reader.at(), out) ==> #[trigger] after.entry(table.at()).answers(
                i,
                k,
                reader.at(),
                out,
            ),
{
    let pos = table.at();
    let at = reader.at();
    let ws = txn.pending(pos);
    let (t, u) = (before.entry(pos), after.entry(pos));
    let revision = txn.writes_at();
    txn.lemma_ok();
    assert(before.took_some(after, pos, ws, revision));
    let n = choose|n: int| #[trigger] before.took(after, pos, ws, revision, n);
    let taken = ws.subrange(0, n);
    assert forall|i: int| 0 <= i < taken.len() implies entry::timely(#[trigger] taken[i], revision)
        && taken[i].loaded is None by {
        assert(entry::timely(txn.pending(pos)[i], revision));
        lemma_not_loaded(txn, pos, i);
    }
    lemma_unseen_below(&t, &u, taken, revision, before.bound(), at);
    assert forall|k: Seq<u8>| #[trigger]
        after.sees(table, reader, k) == before.sees(table, reader, k) by {
        assert(row::live(u.history(k), at) == row::live(t.history(k), at));
    }
}

/// Tables that list and show the same answer the same.
proof fn lemma_answers_alike<V, P, X>(
    t: &TableEntry<V, P, X>,
    u: &TableEntry<V, P, X>,
    i: int,
    k: Seq<u8>,
    at: Revision,
    out: Seq<(Arc<V>, Revision)>,
) where P: Fn(&V) -> Key, X: Fn(&V) -> Vec<Key>
    requires
        t.answers(i, k, at, out),
        forall|p: Seq<u8>| #[trigger] u.listed_at(i, k, p, at) == t.listed_at(i, k, p, at),
        forall|p: Seq<u8>|
            row::live(#[trigger] u.history(p), at) == row::live(t.history(p), at),
    ensures
        u.answers(i, k, at, out),
{
    let ps = choose|ps: Seq<Seq<u8>>|
        {
            &&& #[trigger] crate::bytes::ascending(ps)
            &&& ps.len() == out.len()
            &&& forall|p: Seq<u8>| ps.contains(p) <==> #[trigger] t.listed_at(i, k, p, at)
            &&& forall|j: int|
                0 <= j < ps.len() ==> row::live(t.history(#[trigger] ps[j]), at) == Some(out[j])
        };
    assert(crate::bytes::ascending(ps));
    assert forall|p: Seq<u8>| ps.contains(p) <==> #[trigger] u.listed_at(i, k, p, at) by {
        assert(u.listed_at(i, k, p, at) == t.listed_at(i, k, p, at));
    }
    assert forall|j: int| 0 <= j < ps.len() implies row::live(u.history(#[trigger] ps[j]), at)
        == Some(out[j]) by {
        assert(row::live(u.history(ps[j]), at) == row::live(t.history(ps[j]), at));
    }
}

pub(crate) proof fn lemma_not_loaded<V>(txn: &WriteTxn<V>, pos: int, i: int)
    requires
        txn.ok(),
        !commit::any_load(txn),
        0 <= i < txn.pending(pos).len(),
    ensures
        txn.pending(pos)[i].loaded is None,
{
    txn.lemma_ok();
    if txn.pending(pos)[i].loaded is Some {
        assert(txn.loads(pos));
        assert(0 <= pos < txn.width());
    }
}

/// A compaction holds too: it changes nothing that a reader at or above the new
/// bound reads, nor one that reads at the last revision.
pub proof fn compaction_spares_readers<V, P, X>(
    before: &Db<V, P, X>,
    after: &Db<V, P, X>,
    rev: Revision,
    table: &Table<V>,
    reader: &ReadTxn,
) where P: Fn(&V) -> Key, X: Fn(&V) -> Vec<Key>
    requires
        before.wf(),
        before.releases(after, rev),
        before.owns(table),
        after.bound() <= reader.at() || before.head() <= reader.at(),
    ensures
        forall|k: Seq<u8>| #[trigger]
            after.sees(table, reader, k) == before.sees(table, reader, k),
        forall|from: Seq<u8>, under: Option<Seq<u8>>, list: Seq<(Key, Arc<V>, Revision)>|
            before.lists(table, reader, from, under, list) ==> #[trigger] after.lists(
                table,
                reader,
                from,
                under,
                list,
            ),
        forall|i: int, k: Seq<u8>, out: Seq<(Arc<V>, Revision)>|
            0 <= i < before.entry(table.at()).count() && k.len() <= u32::MAX && before.entry(
                table.at(),
            ).answers(i, k, reader.at(), out) ==> #[trigger] after.entry(table.at()).answers(
                i,
                k,
                reader.at(),
                out,
            ),
{
    let pos = table.at();
    let at = reader.at();
    let (t, u) = (before.entry(pos), after.entry(pos));
    before.lemma_wf();
    assert(before.compacts(after, pos, after.bound()));
    assert forall|k: Seq<u8>|
        row::live(#[trigger] u.history(k), at) == row::live(t.history(k), at) by {
        let h = t.history(k);
        assert(row::capped(h, before.head()));
        if row::buried_by(h, after.bound()) {
            assert(h[h.len() - 1].revision <= at);
        }
    }
    assert forall|k: Seq<u8>| #[trigger]
        after.sees(table, reader, k) == before.sees(table, reader, k) by {
        assert(row::live(u.history(k), at) == row::live(t.history(k), at));
    }
    assert forall|i: int, k: Seq<u8>, out: Seq<(Arc<V>, Revision)>|
        0 <= i < t.count() && k.len() <= u32::MAX && t.answers(
            i,
            k,
            at,
            out,
        ) implies #[trigger] u.answers(i, k, at, out) by {
        assert forall|p: Seq<u8>| #[trigger] u.listed_at(i, k, p, at) == t.listed_at(i, k, p, at) by {
            assert(row::live(u.history(p), at) == row::live(t.history(p), at));
            let l = t.listing(i, k, p);
            assert(row::capped(l, before.head()));
            assert(u.listing(i, k, p) == u.listing(i, k, p));
            if row::buried_by(l, after.bound()) {
                assert(l[l.len() - 1].revision <= at);
            }
        }
        lemma_answers_alike(&t, &u, i, k, at, out);
    }
}

/// A commit publishes what its transaction saw: a reader that opens after it
/// sees, at every key, what the transaction read there before it committed.
pub proof fn commit_publishes_what_it_read<V, P, X>(
    before: &Db<V, P, X>,
    after: &Db<V, P, X>,
    txn: &WriteTxn<V>,
    table: &Table<V>,
    reader: &ReadTxn,
) where P: Fn(&V) -> Key, X: Fn(&V) -> Vec<Key>
    requires
        before.wf(),
        before.admits(txn),
        before.publishes(after, txn),
        before.owns(table),
        reader.at() == after.head(),
    ensures
        forall|k: Seq<u8>| #[trigger]
            after.sees(table, reader, k) == before.sees(table, txn, k),
{
    let pos = table.at();
    let ws = txn.pending(pos);
    let (t, u) = (before.entry(pos), after.entry(pos));
    let revision = txn.writes_at();
    txn.lemma_ok();
    before.lemma_wf();
    assert(before.commits(after, pos, ws, revision));
    assert forall|k: Seq<u8>| #[trigger] after.sees(table, reader, k) == before.sees(
        table,
        txn,
        k,
    ) by {
        let h = t.history(k);
        assert(u.history(k) == u.history(k));
        match pending::written(ws, k) {
            Some(w) => {
                let i = pending::place_of(ws, k);
                assert(entry::timely(txn.pending(pos)[i], revision));
                if w.wrote is Some {
                    row::lemma_grown(w.base(h), w.wrote->0, before.bound(), revision);
                } else {
                    assert((w.loaded->0).last().revision <= revision);
                }
            },
            None => {
                assert(row::capped(h, before.head()));
                row::lemma_capped(h, before.head());
                assert(row::capped(h, revision));
                row::lemma_capped(h, revision);
            },
        }
    }
}

/// A transaction reads its own writes: after a write of `version` at `key`, it
/// sees that version there and every other key as before.
pub proof fn writes_are_read_back<V, P, X>(
    db: &Db<V, P, X>,
    before: &WriteTxn<V>,
    after: &WriteTxn<V>,
    table: &Table<V>,
    key: Seq<u8>,
    version: row::Version<V>,
) where P: Fn(&V) -> Key, X: Fn(&V) -> Vec<Key>
    requires
        db.takes_writes(table, before),
        crate::db::table::rewrites(
            before,
            after,
            table.at(),
            pending::with_write(before.pending(table.at()), key, version),
        ),
    ensures
        db.sees(table, after, key) == row::alive(Some(version)),
        forall|k: Seq<u8>|
            k != key ==> #[trigger] db.sees(table, after, k) == db.sees(table, before, k),
{
    let ws = before.pending(table.at());
    before.lemma_ok();
    let w = Write { key, loaded: pending::loaded_at(ws, key), wrote: Some(version) };
    assert(pending::distinct(ws));
    if pending::place_of(ws, key) >= 0 {
        let i = pending::place_of(ws, key);
        assert(ws[i].wf());
    }
    pending::lemma_with(ws, w);
}

/// The revision only rises: every commit that writes leaves it higher, and no
/// table's lower.
pub proof fn revisions_rise<V, P, X>(
    before: &Db<V, P, X>,
    after: &Db<V, P, X>,
    txn: &WriteTxn<V>,
) where P: Fn(&V) -> Key, X: Fn(&V) -> Vec<Key>
    requires
        before.wf(),
        before.admits(txn),
        before.publishes(after, txn),
    ensures
        before.head() < after.head(),
        forall|pos: int|
            0 <= pos < before.count() ==> before.entry(pos).counters().revision
                <= #[trigger] after.entry(pos).counters().revision,
{
    txn.lemma_ok();
    before.lemma_wf();
    assert forall|pos: int| 0 <= pos < before.count() implies before.entry(pos).counters().revision
        <= #[trigger] after.entry(pos).counters().revision by {
        assert(before.commits(after, pos, txn.pending(pos), txn.writes_at()));
        assert(before.entry(pos).wf());
    }
}

// ------------------------------------------------------------------- indexes

/// An index lists what its reader can see: from the floor up, a primary key is
/// listed under `k` exactly if the reader sees a value there that the index
/// lists under `k`.
pub proof fn index_lists_what_is_seen<V, P, X>(
    db: &Db<V, P, X>,
    table: &Table<V>,
    reader: &ReadTxn,
    i: int,
    k: Seq<u8>,
    p: Seq<u8>,
) where P: Fn(&V) -> Key, X: Fn(&V) -> Vec<Key>
    requires
        db.wf(),
        db.owns(table),
        db.floor() <= reader.at(),
        0 <= i < db.entry(table.at()).count(),
        k.len() <= u32::MAX,
    ensures
        db.entry(table.at()).listed_at(i, k, p, reader.at()) == (match db.sees(table, reader, p) {
            Some((value, _)) => listing::lists(db.entry(table.at()).keys(i), *value, k),
            None => false,
        }),
{
    db.lemma_wf();
    assert(db.entry(table.at()).agrees(i, k, p, reader.at()));
}

// ------------------------------------------------------------- change stream

/// One commit leaves one record for each key it writes, and none for a key it
/// only loads or does not touch.
pub proof fn one_record_per_key<V>(ws: Seq<Write<V>>, revision: Revision, k: Seq<u8>)
    requires
        pending::distinct(ws),
    ensures
        ({
            let rs = entry::fresh(ws, revision);
            &&& forall|i: int, j: int|
                #![trigger rs[i], rs[j]]
                0 <= i < j < rs.len() ==> rs[i].key != rs[j].key
            &&& forall|j: int| 0 <= j < rs.len() ==> (#[trigger] rs[j]).revision == revision
            &&& (exists|j: int| 0 <= j < rs.len() && (#[trigger] rs[j]).key == k) <==> (
            pending::written(ws, k) matches Some(w) && w.wrote is Some)
        }),
    decreases ws.len(),
{
    let rs = entry::fresh(ws, revision);
    if ws.len() > 0 {
        let p = ws.drop_last();
        let w = ws.last();
        assert(pending::distinct(p)) by {
            assert forall|i: int, j: int| 0 <= i < j < p.len() implies (#[trigger] p[i]).key != (
            #[trigger] p[j]).key by {
                assert(ws[i].key != ws[j].key);
            }
            assert forall|i: int| 0 <= i < p.len() implies (#[trigger] p[i]).wf() by {
                assert(ws[i].wf());
            }
        }
        one_record_per_key(p, revision, k);
        one_record_per_key(p, revision, w.key);
        let n = ws.len() - 1;
        assert(pending::written(p, w.key) is None) by {
            let i = pending::place_of(p, w.key);
            if i >= 0 {
                assert(p[i].key == w.key);
                assert(ws[i].key != ws[n].key);
            }
        }
        assert(pending::with(p, w) =~= ws);
        assert(ws[n].wf());
        pending::lemma_with(p, w);
        assert(pending::written(ws, k) == (if k == w.key {
            Some(w)
        } else {
            pending::written(p, k)
        }));
        let before = entry::fresh(p, revision);
        if w.wrote is Some {
            assert(rs == before.push(Record { revision: revision as nat, key: w.key }));
            assert(rs[before.len() as int].key == w.key);
            assert forall|i: int, j: int| 0 <= i < j < rs.len() implies (#[trigger] rs[i]).key != (
            #[trigger] rs[j]).key by {
                assert(rs[i] == before[i]);
                if j < before.len() {
                    assert(rs[j] == before[j]);
                }
            }
            assert forall|j: int| 0 <= j < rs.len() implies (#[trigger] rs[j]).revision
                == revision by {
                if j < before.len() {
                    assert(rs[j] == before[j]);
                }
            }
            if exists|j: int| 0 <= j < before.len() && (#[trigger] before[j]).key == k {
                let j = choose|j: int| 0 <= j < before.len() && (#[trigger] before[j]).key == k;
                assert(rs[j].key == k);
            }
            if exists|j: int| 0 <= j < rs.len() && (#[trigger] rs[j]).key == k {
                let j = choose|j: int| 0 <= j < rs.len() && (#[trigger] rs[j]).key == k;
                if j < before.len() {
                    assert(before[j].key == k);
                }
            }
        } else {
            assert(rs == before);
        }
    } else {
        assert(pending::place_of(ws, k) < 0);
    }
}

/// A record is for a reader only between what it has read and where it reads.
proof fn lemma_tells_between<V, P, X>(
    t: &TableEntry<V, P, X>,
    rs: Seq<Record>,
    observed: Revision,
    at: Revision,
) where P: Fn(&V) -> Key, X: Fn(&V) -> Vec<Key>
    requires
        at <= observed,
    ensures
        stream::reported(t, rs, observed, at) == Seq::<Told<V>>::empty(),
    decreases rs.len(),
{
    if rs.len() > 0 {
        lemma_tells_between(t, rs.drop_last(), observed, at);
    }
}

/// A stale snapshot does not rewind a reader: one that reads at or below what
/// it has already read is told nothing.
pub proof fn stale_reader_is_told_nothing<V, P, X>(
    db: &Db<V, P, X>,
    pos: int,
    observed: Revision,
    at: Revision,
) where P: Fn(&V) -> Key, X: Fn(&V) -> Vec<Key>
    requires
        at <= observed,
    ensures
        stream::reported(&db.entry(pos), db.records(pos), observed, at).len() == 0,
{
    lemma_tells_between(&db.entry(pos), db.records(pos), observed, at);
}

/// What one commit tells a reader that was up to date: each key it wrote, with
/// the value and the kind of write it left, in the order they were written.
pub open spec fn news<V>(ws: Seq<Write<V>>, revision: Revision) -> Seq<Told<V>>
    decreases ws.len(),
{
    if ws.len() == 0 {
        Seq::empty()
    } else {
        match ws.last().wrote {
            Some(v) => news(ws.drop_last(), revision).push(
                Told { key: ws.last().key, value: v.value, revision, deleted: v.deleted },
            ),
            None => news(ws.drop_last(), revision),
        }
    }
}

proof fn lemma_news<V, P, X>(
    u: &TableEntry<V, P, X>,
    ws: Seq<Write<V>>,
    n: int,
    revision: Revision,
    observed: Revision,
) where P: Fn(&V) -> Key, X: Fn(&V) -> Vec<Key>
    requires
        observed < revision,
        0 <= n <= ws.len(),
        forall|i: int|
            0 <= i < ws.len() && (#[trigger] ws[i]).wrote is Some ==> row::exactly(
                u.history(ws[i].key),
                revision,
            ) == ws[i].wrote,
    ensures
        stream::reported(
            u,
            entry::fresh(ws.subrange(0, n), revision),
            observed,
            revision,
        ) == news(ws.subrange(0, n), revision),
    decreases n,
{
    if n > 0 {
        let p = ws.subrange(0, n);
        assert(p.drop_last() =~= ws.subrange(0, n - 1));
        assert(p.last() == ws[n - 1]);
        lemma_news(u, ws, n - 1, revision, observed);
        let rs = entry::fresh(p, revision);
        if ws[n - 1].wrote is Some {
            assert(rs.drop_last() =~= entry::fresh(p.drop_last(), revision));
            assert(rs.last().key == ws[n - 1].key);
        }
    }
}

/// Records at or below what a reader has read tell it nothing.
proof fn lemma_read_already<V, P, X>(
    t: &TableEntry<V, P, X>,
    rs: Seq<Record>,
    observed: Revision,
    at: Revision,
) where P: Fn(&V) -> Key, X: Fn(&V) -> Vec<Key>
    requires
        forall|j: int| 0 <= j < rs.len() ==> (#[trigger] rs[j]).revision <= observed,
    ensures
        stream::reported(t, rs, observed, at) == Seq::<Told<V>>::empty(),
    decreases rs.len(),
{
    if rs.len() > 0 {
        assert(rs[rs.len() - 1].revision <= observed);
        lemma_read_already(t, rs.drop_last(), observed, at);
    }
}

/// Every change is told: a reader that has read up to where its table stood
/// before a commit, or further, and reads at the commit's revision is told of
/// exactly what the commit wrote to the table, one change for each key, in
/// order, with the values it left. A reader of [`Table::changes`] starts where
/// its table stands.
pub proof fn reader_is_told_of_a_commit<V, P, X>(
    before: &Db<V, P, X>,
    after: &Db<V, P, X>,
    txn: &WriteTxn<V>,
    pos: int,
    observed: Revision,
) where P: Fn(&V) -> Key, X: Fn(&V) -> Vec<Key>
    requires
        before.wf(),
        before.admits(txn),
        before.publishes(after, txn),
        0 <= pos < before.count(),
        before.entry(pos).counters().revision <= observed <= before.head(),
    ensures
        stream::reported(&after.entry(pos), after.records(pos), observed, after.head())
            == news(txn.pending(pos), txn.writes_at()),
{
    let ws = txn.pending(pos);
    let revision = txn.writes_at();
    let u = after.entry(pos);
    let rs = before.records(pos);
    let fresh = entry::fresh(ws, revision);
    txn.lemma_ok();
    before.lemma_wf();
    assert(before.commits(after, pos, ws, revision));
    assert forall|i: int| 0 <= i < ws.len() && (#[trigger] ws[i]).wrote is Some implies row::exactly(
        u.history(ws[i].key),
        revision,
    ) == ws[i].wrote by {
        pending::lemma_place(ws, i);
        assert(entry::timely(txn.pending(pos)[i], revision));
        let h = before.entry(pos).history(ws[i].key);
        row::lemma_grown(ws[i].base(h), ws[i].wrote->0, before.bound(), revision);
        assert(u.history(ws[i].key) == ws[i].landed(h, before.bound()));
    }
    assert(ws.subrange(0, ws.len() as int) =~= ws);
    lemma_news(&u, ws, ws.len() as int, revision, observed);
    assert forall|j: int| 0 <= j < rs.len() implies (#[trigger] rs[j]).revision <= observed by {
        assert(before.records(pos)[j].revision <= before.entry(pos).counters().revision);
    }
    lemma_read_already(&u, rs, observed, revision);
    stream::lemma_reported_concat(&u, rs, fresh, observed, revision);
    assert(stream::reported(&u, rs + fresh, observed, revision) =~= news(ws, revision));
}

/// Writes past a reader tell it nothing and leave what it is told, as long as
/// every record it has not read is past the compaction bound.
proof fn lemma_untold_below<V, P, X>(
    t: &TableEntry<V, P, X>,
    u: &TableEntry<V, P, X>,
    rs: Seq<Record>,
    ws: Seq<Write<V>>,
    revision: Revision,
    compacted: Revision,
    observed: Revision,
    at: Revision,
) where P: Fn(&V) -> Key, X: Fn(&V) -> Vec<Key>
    requires
        t.takes(u, ws, revision, compacted),
        forall|k: Seq<u8>| row::ordered(#[trigger] t.history(k)),
        forall|i: int| 0 <= i < ws.len() ==> entry::timely(#[trigger] ws[i], revision),
        rs.len() > 0 ==> forall|i: int|
            0 <= i < ws.len() ==> (#[trigger] ws[i]).loaded is None,
        forall|j: int| 0 <= j < rs.len() ==> (#[trigger] rs[j]).revision < revision,
        forall|j: int|
            0 <= j < rs.len() && observed < (#[trigger] rs[j]).revision ==> compacted
                < rs[j].revision,
        at < revision,
    ensures
        stream::reported(u, rs + entry::fresh(ws, revision), observed, at) == stream::reported(
            t,
            rs,
            observed,
            at,
        ),
{
    let fresh = entry::fresh(ws, revision);
    assert forall|j: int| 0 <= j < rs.len() implies stream::tells(
        u,
        #[trigger] rs[j],
        observed,
        at,
    ) == stream::tells(t, rs[j], observed, at) by {
        let r = rs[j];
        let h = t.history(r.key);
        assert(row::ordered(h));
        assert(u.history(r.key) == u.history(r.key));
        if let Some(w) = pending::written(ws, r.key) {
            let i = pending::place_of(ws, r.key);
            assert(entry::timely(ws[i], revision) && ws[i].loaded is None);
            if r.revision > observed {
                row::lemma_exactly_grown(h, w.wrote->0, compacted, r.revision as Revision);
            }
        }
    }
    lemma_reported_alike(t, u, rs, observed, at);
    assert forall|j: int| 0 <= j < fresh.len() implies stream::tells(
        u,
        #[trigger] fresh[j],
        observed,
        at,
    ) is None by {
        let i = entry::lemma_fresh_from(ws, revision, j);
    }
    stream::lemma_reported_none(u, fresh, observed, at);
    stream::lemma_reported_concat(u, rs, fresh, observed, at);
    assert(stream::reported(u, rs + fresh, observed, at) =~= stream::reported(
        u,
        rs,
        observed,
        at,
    ));
}

/// A commit takes nothing back: what the stream held for a reader before it, up
/// to the last revision, it tells as before, as long as every record the reader
/// has not read is past the compaction bound.
pub proof fn commits_take_nothing_back<V, P, X>(
    before: &Db<V, P, X>,
    after: &Db<V, P, X>,
    txn: &WriteTxn<V>,
    pos: int,
    observed: Revision,
    at: Revision,
) where P: Fn(&V) -> Key, X: Fn(&V) -> Vec<Key>
    requires
        before.wf(),
        before.admits(txn),
        before.publishes(after, txn),
        0 <= pos < before.count(),
        forall|j: int|
            0 <= j < before.records(pos).len() && observed < (#[trigger] before.records(
                pos,
            )[j]).revision ==> before.bound() < before.records(pos)[j].revision,
        at <= before.head(),
    ensures
        stream::reported(&after.entry(pos), after.records(pos), observed, at) == stream::reported(
            &before.entry(pos),
            before.records(pos),
            observed,
            at,
        ),
{
    let ws = txn.pending(pos);
    let revision = txn.writes_at();
    let (t, u) = (before.entry(pos), after.entry(pos));
    let rs = before.records(pos);
    txn.lemma_ok();
    before.lemma_wf();
    assert(before.commits(after, pos, ws, revision));
    assert forall|i: int| 0 <= i < ws.len() && rs.len() > 0 implies (#[trigger] ws[i]).loaded is None by {
        if txn.pending(pos)[i].loaded is Some {
            assert(txn.loads(pos));
            assert(0 <= pos < txn.width());
        }
    }
    assert forall|i: int| 0 <= i < ws.len() implies entry::timely(#[trigger] ws[i], revision) by {
        assert(entry::timely(txn.pending(pos)[i], revision));
    }
    assert forall|j: int| 0 <= j < rs.len() implies (#[trigger] rs[j]).revision < revision by {
        assert(before.records(pos)[j].revision <= before.head());
    }
    assert forall|j: int|
        0 <= j < rs.len() && observed < (#[trigger] rs[j]).revision implies before.bound()
        < rs[j].revision by {
        assert(before.records(pos)[j].revision == rs[j].revision);
    }
    assert(t.sound(before.head(), before.floor()));
    lemma_untold_below(&t, &u, rs, ws, revision, before.bound(), observed, at);
}

/// A half-applied commit is not told: while a commit is partway through, or for
/// good if it panicked there, a reader of the change stream up to the last
/// revision is told what it was told before and failed where it was failed
/// before, as long as every record it has not read is past the compaction bound.
pub proof fn half_a_commit_is_not_told<V, P, X>(
    before: &Db<V, P, X>,
    after: &Db<V, P, X>,
    txn: &WriteTxn<V>,
    pos: int,
    observed: Revision,
    at: Revision,
) where P: Fn(&V) -> Key, X: Fn(&V) -> Vec<Key>
    requires
        before.wf(),
        before.admits(txn),
        before.begins(after, txn),
        0 <= pos < before.count(),
        forall|j: int|
            0 <= j < before.records(pos).len() && observed < (#[trigger] before.records(
                pos,
            )[j]).revision ==> before.bound() < before.records(pos)[j].revision,
        at <= before.head(),
    ensures
        after.entry(pos).counters().lost == before.entry(pos).counters().lost,
        stream::reported(&after.entry(pos), after.records(pos), observed, at) == stream::reported(
            &before.entry(pos),
            before.records(pos),
            observed,
            at,
        ),
{
    let ws = txn.pending(pos);
    let revision = txn.writes_at();
    let (t, u) = (before.entry(pos), after.entry(pos));
    let rs = before.records(pos);
    txn.lemma_ok();
    before.lemma_wf();
    assert(before.took_some(after, pos, ws, revision));
    let n = choose|n: int| #[trigger] before.took(after, pos, ws, revision, n);
    let taken = ws.subrange(0, n);
    assert forall|i: int| 0 <= i < taken.len() && rs.len() > 0 implies (#[trigger] taken[i]).loaded is None by {
        if txn.pending(pos)[i].loaded is Some {
            assert(txn.loads(pos));
            assert(0 <= pos < txn.width());
        }
    }
    assert forall|i: int| 0 <= i < taken.len() implies entry::timely(#[trigger] taken[i], revision) by {
        assert(entry::timely(txn.pending(pos)[i], revision));
    }
    assert forall|j: int| 0 <= j < rs.len() implies (#[trigger] rs[j]).revision < revision by {
        assert(before.records(pos)[j].revision <= before.head());
    }
    assert forall|j: int|
        0 <= j < rs.len() && observed < (#[trigger] rs[j]).revision implies before.bound()
        < rs[j].revision by {
        assert(before.records(pos)[j].revision == rs[j].revision);
    }
    assert(t.sound(before.head(), before.floor()));
    lemma_untold_below(&t, &u, rs, taken, revision, before.bound(), observed, at);
}

/// Records that tell the same report the same.
proof fn lemma_reported_alike<V, P, X>(
    t: &TableEntry<V, P, X>,
    u: &TableEntry<V, P, X>,
    rs: Seq<Record>,
    observed: Revision,
    at: Revision,
) where P: Fn(&V) -> Key, X: Fn(&V) -> Vec<Key>
    requires
        forall|j: int|
            0 <= j < rs.len() ==> stream::tells(u, #[trigger] rs[j], observed, at)
                == stream::tells(t, rs[j], observed, at),
    ensures
        stream::reported(u, rs, observed, at) == stream::reported(t, rs, observed, at),
    decreases rs.len(),
{
    if rs.len() > 0 {
        let p = rs.drop_last();
        assert forall|j: int| 0 <= j < p.len() implies stream::tells(
            u,
            #[trigger] p[j],
            observed,
            at,
        ) == stream::tells(t, p[j], observed, at) by {
            assert(p[j] == rs[j]);
        }
        lemma_reported_alike(t, u, p, observed, at);
        assert(stream::tells(u, rs[rs.len() - 1], observed, at) == stream::tells(
            t,
            rs[rs.len() - 1],
            observed,
            at,
        ));
    }
}

/// Dropping records that tell nothing changes nothing that is told.
proof fn lemma_reported_kept<V, P, X>(
    t: &TableEntry<V, P, X>,
    rs: Seq<Record>,
    bound: Revision,
    observed: Revision,
    at: Revision,
) where P: Fn(&V) -> Key, X: Fn(&V) -> Vec<Key>
    requires
        forall|j: int|
            0 <= j < rs.len() && (#[trigger] rs[j]).revision <= bound ==> rs[j].revision
                <= observed,
    ensures
        stream::reported(t, record::kept(rs, bound), observed, at) == stream::reported(
            t,
            rs,
            observed,
            at,
        ),
    decreases rs.len(),
{
    reveal_with_fuel(Seq::filter, 1);
    if rs.len() > 0 {
        let p = rs.drop_last();
        let r = rs.last();
        assert forall|j: int| 0 <= j < p.len() && (#[trigger] p[j]).revision
            <= bound implies p[j].revision <= observed by {
            assert(p[j] == rs[j]);
        }
        lemma_reported_kept(t, p, bound, observed, at);
        assert(rs[rs.len() - 1] == r);
        let kept = record::kept(rs, bound);
        if r.revision > bound {
            assert(kept =~= record::kept(p, bound).push(r));
            assert(kept.drop_last() =~= record::kept(p, bound));
        } else {
            assert(kept =~= record::kept(p, bound));
        }
    }
}

/// A compaction spares a reader that lost nothing: one that it does not fail is
/// told what it would have been told without it.
pub proof fn compaction_spares_a_reader_that_lost_nothing<V, P, X>(
    before: &Db<V, P, X>,
    after: &Db<V, P, X>,
    rev: Revision,
    pos: int,
    observed: Revision,
    at: Revision,
) where P: Fn(&V) -> Key, X: Fn(&V) -> Vec<Key>
    requires
        before.wf(),
        before.releases(after, rev),
        0 <= pos < before.count(),
        after.entry(pos).counters().lost <= observed,
    ensures
        stream::reported(&after.entry(pos), after.records(pos), observed, at) == stream::reported(
            &before.entry(pos),
            before.records(pos),
            observed,
            at,
        ),
{
    let bound = after.bound();
    let (t, u) = (before.entry(pos), after.entry(pos));
    let rs = before.records(pos);
    assert(before.compacts(after, pos, bound));
    let lost = choose|lost: Revision|
        {
            &&& #[trigger] record::highest_dropped(rs, bound, lost)
            &&& u.counters().lost == (if lost > t.counters().lost {
                lost
            } else {
                t.counters().lost
            })
        };
    assert(record::highest_dropped(rs, bound, lost));
    lemma_reported_kept(&u, rs, bound, observed, at);
    assert forall|j: int| 0 <= j < rs.len() implies stream::tells(
        &u,
        #[trigger] rs[j],
        observed,
        at,
    ) == stream::tells(&t, rs[j], observed, at) by {
        let r = rs[j];
        let h = t.history(r.key);
        assert(u.history(r.key) == u.history(r.key));
        if r.revision <= bound {
            assert(r.revision <= lost);
        }
    }
    lemma_reported_alike(&t, &u, rs, observed, at);
}

/// A compaction fails a reader only for a reason: if the reader had lost nothing
/// before and is failed now, a change it had not read is gone.
pub proof fn compaction_fails_a_reader_that_lost_a_change<V, P, X>(
    before: &Db<V, P, X>,
    after: &Db<V, P, X>,
    rev: Revision,
    pos: int,
    observed: Revision,
) where P: Fn(&V) -> Key, X: Fn(&V) -> Vec<Key>
    requires
        before.wf(),
        before.releases(after, rev),
        0 <= pos < before.count(),
        before.entry(pos).counters().lost <= observed < after.entry(pos).counters().lost,
    ensures
        exists|j: int|
            {
                &&& 0 <= j < before.records(pos).len()
                &&& observed < (#[trigger] before.records(pos)[j]).revision <= after.bound()
            },
        forall|j: int|
            0 <= j < after.records(pos).len() ==> (#[trigger] after.records(pos)[j]).revision
                > after.bound(),
{
    let bound = after.bound();
    let rs = before.records(pos);
    assert(before.compacts(after, pos, bound));
    assert forall|j: int| 0 <= j < after.records(pos).len() implies (#[trigger] after.records(
        pos,
    )[j]).revision > bound by {
        let x = crate::db::lemma_kept_from(rs, bound, j);
    }
}

/// The records of a table are in the order of their revisions.
pub open spec fn in_order(rs: Seq<Record>) -> bool {
    forall|i: int, j: int|
        #![trigger rs[i], rs[j]]
        0 <= i < j < rs.len() ==> rs[i].revision <= rs[j].revision
}

/// Nothing is told twice and nothing is passed over: reading up to `mid` and
/// then up to `at` tells what reading up to `at` at once would have told.
pub proof fn reads_add_up<V, P, X>(
    db: &Db<V, P, X>,
    pos: int,
    observed: Revision,
    mid: Revision,
    at: Revision,
) where P: Fn(&V) -> Key, X: Fn(&V) -> Vec<Key>
    requires
        db.wf(),
        0 <= pos < db.count(),
        observed <= mid <= at,
    ensures
        stream::reported(&db.entry(pos), db.records(pos), observed, mid) + stream::reported(
            &db.entry(pos),
            db.records(pos),
            mid,
            at,
        ) == stream::reported(&db.entry(pos), db.records(pos), observed, at),
{
    db.lemma_records_in_order(pos);
    lemma_adds_up(&db.entry(pos), db.records(pos), observed, mid, at);
}

proof fn lemma_adds_up<V, P, X>(
    t: &TableEntry<V, P, X>,
    rs: Seq<Record>,
    observed: Revision,
    mid: Revision,
    at: Revision,
) where P: Fn(&V) -> Key, X: Fn(&V) -> Vec<Key>
    requires
        in_order(rs),
        observed <= mid <= at,
    ensures
        stream::reported(t, rs, observed, mid) + stream::reported(t, rs, mid, at)
            == stream::reported(t, rs, observed, at),
    decreases rs.len(),
{
    if rs.len() > 0 {
        let p = rs.drop_last();
        let r = rs.last();
        let n = rs.len() - 1;
        assert(in_order(p)) by {
            assert forall|i: int, j: int| 0 <= i < j < p.len() implies (#[trigger] p[i]).revision
                <= (#[trigger] p[j]).revision by {
                assert(rs[i].revision <= rs[j].revision);
            }
        }
        lemma_adds_up(t, p, observed, mid, at);
        if r.revision <= mid {
            assert forall|j: int| 0 <= j < rs.len() implies (#[trigger] rs[j]).revision <= mid by {
                if j < n {
                    assert(rs[j].revision <= rs[n].revision);
                }
            }
            lemma_read_already(t, rs, mid, at);
            assert forall|j: int| 0 <= j < p.len() implies (#[trigger] p[j]).revision <= mid by {
                assert(p[j] == rs[j]);
            }
            lemma_read_already(t, p, mid, at);
        }
        assert(stream::reported(t, rs, observed, mid) + stream::reported(t, rs, mid, at)
            =~= stream::reported(t, rs, observed, at));
    }
}

/// What is told comes in order: the revisions of one reading never fall, are past
/// what the reader had read and no later than where it reads, and no key comes
/// twice at one revision.
pub proof fn told_in_order<V, P, X>(
    db: &Db<V, P, X>,
    pos: int,
    observed: Revision,
    at: Revision,
) where P: Fn(&V) -> Key, X: Fn(&V) -> Vec<Key>
    requires
        db.wf(),
        0 <= pos < db.count(),
    ensures
        ({
            let told = stream::reported(&db.entry(pos), db.records(pos), observed, at);
            &&& forall|j: int|
                0 <= j < told.len() ==> observed < (#[trigger] told[j]).revision <= at
            &&& forall|i: int, j: int|
                #![trigger told[i], told[j]]
                0 <= i < j < told.len() ==> {
                    &&& told[i].revision <= told[j].revision
                    &&& told[i].revision != told[j].revision || told[i].key != told[j].key
                }
        }),
{
    db.lemma_wf();
    db.lemma_records_in_order(pos);
    assert(record::apart(db.records(pos)));
    lemma_told_in_order(&db.entry(pos), db.records(pos), observed, at);
}

proof fn lemma_told_in_order<V, P, X>(
    t: &TableEntry<V, P, X>,
    rs: Seq<Record>,
    observed: Revision,
    at: Revision,
) where P: Fn(&V) -> Key, X: Fn(&V) -> Vec<Key>
    requires
        in_order(rs),
        record::apart(rs),
    ensures
        ({
            let told = stream::reported(t, rs, observed, at);
            &&& forall|j: int|
                0 <= j < told.len() ==> observed < (#[trigger] told[j]).revision <= at
            &&& forall|j: int| 0 <= j < told.len() ==> recorded(rs, #[trigger] told[j])
            &&& forall|i: int, j: int|
                #![trigger told[i], told[j]]
                0 <= i < j < told.len() ==> {
                    &&& told[i].revision <= told[j].revision
                    &&& told[i].revision != told[j].revision || told[i].key != told[j].key
                }
        }),
    decreases rs.len(),
{
    let told = stream::reported(t, rs, observed, at);
    if rs.len() > 0 {
        let p = rs.drop_last();
        let r = rs.last();
        let n = rs.len() - 1;
        assert forall|i: int, j: int| 0 <= i < j < p.len() implies (#[trigger] p[i]).revision <= (
        #[trigger] p[j]).revision && (p[i].revision != p[j].revision || p[i].key != p[j].key) by {
            assert(p[i] == rs[i] && p[j] == rs[j]);
        }
        lemma_told_in_order(t, p, observed, at);
        let before = stream::reported(t, p, observed, at);
        assert(rs[n] == r);
        assert forall|j: int| 0 <= j < told.len() implies recorded(rs, #[trigger] told[j]) by {
            if j < before.len() {
                assert(told[j] == before[j]);
                let x = choose|x: int|
                    0 <= x < p.len() && (#[trigger] p[x]).revision == before[j].revision
                        && p[x].key == before[j].key;
                assert(rs[x] == p[x]);
            } else {
                assert(rs[n].revision == told[j].revision && rs[n].key == told[j].key);
            }
        }
        assert forall|i: int, j: int| 0 <= i < j < told.len() implies {
            &&& (#[trigger] told[i]).revision <= (#[trigger] told[j]).revision
            &&& told[i].revision != told[j].revision || told[i].key != told[j].key
        } by {
            assert(told[i] == before[i]);
            if j < before.len() {
                assert(told[j] == before[j]);
            } else {
                assert(recorded(p, before[i]));
                let x = choose|x: int|
                    0 <= x < p.len() && (#[trigger] p[x]).revision == before[i].revision
                        && p[x].key == before[i].key;
                assert(rs[x] == p[x]);
                assert(rs[x].revision <= rs[n].revision);
            }
        }
    }
}

/// The change is that of one of the records.
spec fn recorded<V>(rs: Seq<Record>, change: Told<V>) -> bool {
    exists|x: int|
        0 <= x < rs.len() && (#[trigger] rs[x]).revision == change.revision && rs[x].key
            == change.key
}

// ------------------------------------------------------------------- replay

/// A map with a list of changes applied to it in order: a deletion removes its
/// key, any other change puts its value there.
pub open spec fn replayed<V>(m: Map<Seq<u8>, Arc<V>>, told: Seq<Told<V>>) -> Map<Seq<u8>, Arc<V>>
    decreases told.len(),
{
    if told.len() == 0 {
        m
    } else {
        let before = replayed(m, told.drop_last());
        let change = told.last();
        if change.deleted {
            before.remove(change.key)
        } else {
            before.insert(change.key, change.value)
        }
    }
}

/// What a map holds at `k`.
pub open spec fn held_at<V>(m: Map<Seq<u8>, Arc<V>>, k: Seq<u8>) -> Option<Arc<V>> {
    if m.dom().contains(k) {
        Some(m[k])
    } else {
        None
    }
}

/// The map holds what a reader sees of the table, key by key.
pub open spec fn mirrors<V, P, X>(
    db: &Db<V, P, X>,
    table: &Table<V>,
    reader: &ReadTxn,
    m: Map<Seq<u8>, Arc<V>>,
) -> bool where P: Fn(&V) -> Key, X: Fn(&V) -> Vec<Key> {
    forall|k: Seq<u8>| #[trigger]
        held_at(m, k) == entry::value_of(db.sees(table, reader, k))
}

/// Applying one list and then another is applying both.
proof fn lemma_replayed_concat<V>(m: Map<Seq<u8>, Arc<V>>, a: Seq<Told<V>>, b: Seq<Told<V>>)
    ensures
        replayed(m, a + b) == replayed(replayed(m, a), b),
    decreases b.len(),
{
    if b.len() == 0 {
        assert(a + b =~= a);
    } else {
        assert((a + b).drop_last() =~= a + b.drop_last());
        lemma_replayed_concat(m, a, b.drop_last());
    }
}

/// Applying what a list of writes tells leaves each key written as it was
/// written, and every other as it was.
proof fn lemma_replayed_news<V>(
    m: Map<Seq<u8>, Arc<V>>,
    ws: Seq<Write<V>>,
    revision: Revision,
    k: Seq<u8>,
)
    requires
        pending::distinct(ws),
        forall|i: int| 0 <= i < ws.len() ==> (#[trigger] ws[i]).wrote is Some,
    ensures
        held_at(replayed(m, news(ws, revision)), k) == (match pending::written(ws, k) {
            Some(w) => entry::held_of(w.wrote->0),
            None => held_at(m, k),
        }),
    decreases ws.len(),
{
    if ws.len() == 0 {
        assert(pending::place_of(ws, k) < 0);
    } else {
        let p = ws.drop_last();
        let w = ws.last();
        let n = ws.len() - 1;
        assert(ws[n].wrote is Some && ws[n].wf());
        assert(pending::distinct(p)) by {
            assert forall|i: int, j: int| 0 <= i < j < p.len() implies (#[trigger] p[i]).key != (
            #[trigger] p[j]).key by {
                assert(ws[i].key != ws[j].key);
            }
            assert forall|i: int| 0 <= i < p.len() implies (#[trigger] p[i]).wf() by {
                assert(ws[i].wf());
            }
        }
        assert forall|i: int| 0 <= i < p.len() implies (#[trigger] p[i]).wrote is Some by {
            assert(ws[i].wrote is Some);
        }
        lemma_replayed_news(m, p, revision, k);
        assert(pending::place_of(p, w.key) < 0) by {
            let i = pending::place_of(p, w.key);
            if i >= 0 {
                assert(p[i].key == w.key);
                assert(ws[i].key != ws[n].key);
            }
        }
        assert(pending::with(p, w) =~= ws);
        pending::lemma_with(p, w);
        assert(pending::written(ws, k) == (if k == w.key {
            Some(w)
        } else {
            pending::written(p, k)
        }));
        assert(news(ws, revision).drop_last() =~= news(p, revision));
    }
}

/// The changes alone rebuild the table: if a map holds what a reader saw before
/// a commit, then with the changes the commit tells applied to it, deletions
/// included, it holds what a reader sees after the commit.
pub proof fn changes_replay_a_commit<V, P, X>(
    before: &Db<V, P, X>,
    after: &Db<V, P, X>,
    txn: &WriteTxn<V>,
    table: &Table<V>,
    observed: Revision,
    earlier: &ReadTxn,
    later: &ReadTxn,
    m: Map<Seq<u8>, Arc<V>>,
) where P: Fn(&V) -> Key, X: Fn(&V) -> Vec<Key>
    requires
        before.wf(),
        before.admits(txn),
        before.publishes(after, txn),
        !commit::any_load(txn),
        before.owns(table),
        before.entry(table.at()).counters().revision <= observed <= before.head(),
        earlier.at() == before.head(),
        later.at() == after.head(),
        mirrors(before, table, earlier, m),
    ensures
        mirrors(
            after,
            table,
            later,
            replayed(
                m,
                stream::reported(
                    &after.entry(table.at()),
                    after.records(table.at()),
                    observed,
                    after.head(),
                ),
            ),
        ),
{
    let pos = table.at();
    let ws = txn.pending(pos);
    let revision = txn.writes_at();
    txn.lemma_ok();
    reader_is_told_of_a_commit(before, after, txn, pos, observed);
    commit_publishes_what_it_read(before, after, txn, table, later);
    let n = replayed(m, news(ws, revision));
    assert(pending::distinct(ws));
    assert forall|i: int| 0 <= i < ws.len() implies (#[trigger] ws[i]).wrote is Some by {
        lemma_not_loaded(txn, pos, i);
        assert(ws[i].wf());
    }
    assert forall|k: Seq<u8>| #[trigger] held_at(n, k) == entry::value_of(
        after.sees(table, later, k),
    ) by {
        lemma_replayed_news(m, ws, revision, k);
        assert(after.sees(table, later, k) == before.sees(table, txn, k));
        assert(held_at(m, k) == entry::value_of(before.sees(table, earlier, k)));
        assert(before.sees(table, earlier, k) == row::live(
            before.entry(pos).history(k),
            before.head(),
        ));
        if let Some(w) = pending::written(ws, k) {
            assert(w == ws[pending::place_of(ws, k)]);
            assert(w.wrote is Some);
        }
    }
}

/// One database follows another for a reader that was up to date at `low`: by a
/// commit that loads nothing, or by a compaction at or below `low`.
pub open spec fn follows<V, P, X>(a: &Db<V, P, X>, b: &Db<V, P, X>, low: Revision) -> bool where
    P: Fn(&V) -> Key,
    X: Fn(&V) -> Vec<Key>,
 {
    ||| exists|txn: WriteTxn<V>|
        #![trigger a.publishes(b, &txn)]
        a.admits(&txn) && a.publishes(b, &txn) && !commit::any_load(&txn)
    ||| b.bound() <= low && exists|rev: Revision| #[trigger] a.releases(b, rev)
}

/// The changes alone rebuild the table for a reader that reads when it likes:
/// whatever commits and compactions passed since it was up to date, what the
/// stream then tells it, applied to what it had, gives what a reader sees there.
pub proof fn changes_replay_the_table<V, P, X>(
    dbs: Seq<Db<V, P, X>>,
    table: &Table<V>,
    observed: Revision,
    earlier: &ReadTxn,
    later: &ReadTxn,
    m: Map<Seq<u8>, Arc<V>>,
) where P: Fn(&V) -> Key, X: Fn(&V) -> Vec<Key>
    requires
        dbs.len() > 0,
        forall|i: int| 0 <= i < dbs.len() ==> (#[trigger] dbs[i]).wf(),
        forall|i: int|
            #![trigger dbs[i]]
            0 <= i < dbs.len() - 1 ==> follows(&dbs[i], &dbs[i + 1], dbs[0].head()),
        dbs[0].owns(table),
        dbs[0].bound() <= dbs[0].head(),
        dbs[0].entry(table.at()).counters().revision <= observed <= dbs[0].head(),
        earlier.at() == dbs[0].head(),
        later.at() == dbs.last().head(),
        mirrors(&dbs[0], table, earlier, m),
    ensures
        dbs.last().entry(table.at()).counters().lost <= observed,
        mirrors(
            &dbs.last(),
            table,
            later,
            replayed(
                m,
                stream::reported(
                    &dbs.last().entry(table.at()),
                    dbs.last().records(table.at()),
                    observed,
                    dbs.last().head(),
                ),
            ),
        ),
{
    lemma_kept_up(dbs, table, observed, earlier, later, m);
}

/// The same, with what the induction over the databases needs besides.
proof fn lemma_kept_up<V, P, X>(
    dbs: Seq<Db<V, P, X>>,
    table: &Table<V>,
    observed: Revision,
    earlier: &ReadTxn,
    later: &ReadTxn,
    m: Map<Seq<u8>, Arc<V>>,
) where P: Fn(&V) -> Key, X: Fn(&V) -> Vec<Key>
    requires
        dbs.len() > 0,
        forall|i: int| 0 <= i < dbs.len() ==> (#[trigger] dbs[i]).wf(),
        forall|i: int|
            #![trigger dbs[i]]
            0 <= i < dbs.len() - 1 ==> follows(&dbs[i], &dbs[i + 1], dbs[0].head()),
        dbs[0].owns(table),
        dbs[0].bound() <= dbs[0].head(),
        dbs[0].entry(table.at()).counters().revision <= observed <= dbs[0].head(),
        earlier.at() == dbs[0].head(),
        later.at() == dbs.last().head(),
        mirrors(&dbs[0], table, earlier, m),
    ensures
        ({
            let db = dbs.last();
            let pos = table.at();
            let low = dbs[0].head();
            &&& db.owns(table)
            &&& db.bound() <= low <= db.head()
            &&& db.entry(pos).counters().lost <= observed
            &&& past(db.records(pos), observed, low)
            &&& mirrors(
                &db,
                table,
                later,
                replayed(
                    m,
                    stream::reported(&db.entry(pos), db.records(pos), observed, db.head()),
                ),
            )
        }),
    decreases dbs.len(),
{
    let pos = table.at();
    let low = dbs[0].head();
    let n = dbs.len() - 1;
    if n == 0 {
        let db = dbs[0];
        let rs = db.records(pos);
        db.lemma_wf();
        assert(db.entry(pos).wf());
        assert forall|j: int| 0 <= j < rs.len() implies (#[trigger] rs[j]).revision
            <= observed by {
            assert(db.records(pos)[j].revision <= db.entry(pos).counters().revision);
        }
        lemma_read_already(&db.entry(pos), rs, observed, db.head());
        assert forall|k: Seq<u8>| #[trigger] held_at(m, k) == entry::value_of(
            db.sees(table, later, k),
        ) by {
            assert(held_at(m, k) == entry::value_of(db.sees(table, earlier, k)));
        }
    } else {
        let init = dbs.drop_last();
        let a = dbs[n - 1];
        let b = dbs[n];
        let mid = ReadTxn::at_revision(a.tag(), a.head());
        ReadTxn::lemma_at_revision(a.tag(), a.head());
        assert(init.last() == a);
        assert forall|i: int| 0 <= i < init.len() implies (#[trigger] init[i]).wf() by {
            assert(dbs[i].wf());
        }
        assert forall|i: int| #![trigger init[i]] 0 <= i < init.len() - 1 implies follows(
            &init[i],
            &init[i + 1],
            init[0].head(),
        ) by {
            assert(dbs[i] == init[i]);
        }
        lemma_kept_up(init, table, observed, earlier, &mid, m);
        assert(dbs[n - 1].wf() && dbs[n].wf());
        assert(follows(&a, &b, low)) by {
            assert(dbs[n - 1] == a);
        }
        a.lemma_wf();
        b.lemma_wf();
        let told = stream::reported(&a.entry(pos), a.records(pos), observed, a.head());
        let had = replayed(m, told);
        if exists|txn: WriteTxn<V>|
            #![trigger a.publishes(&b, &txn)]
            a.admits(&txn) && a.publishes(&b, &txn) && !commit::any_load(&txn) {
            let txn = choose|txn: WriteTxn<V>|
                #![trigger a.publishes(&b, &txn)]
                a.admits(&txn) && a.publishes(&b, &txn) && !commit::any_load(&txn);
            lemma_keeps_up_with_a_commit(&a, &b, &txn, table, observed, low, &mid, later, m);
        } else {
            let rev = choose|rev: Revision| #[trigger] a.releases(&b, rev);
            lemma_keeps_up_with_a_compaction(&a, &b, rev, table, observed, low, &mid, later, m);
        }
    }
}

/// Every record past `observed` is past `low`.
spec fn past(rs: Seq<Record>, observed: Revision, low: Revision) -> bool {
    forall|j: int|
        0 <= j < rs.len() && observed < (#[trigger] rs[j]).revision ==> low < rs[j].revision
}

proof fn lemma_keeps_up_with_a_commit<V, P, X>(
    a: &Db<V, P, X>,
    b: &Db<V, P, X>,
    txn: &WriteTxn<V>,
    table: &Table<V>,
    observed: Revision,
    low: Revision,
    earlier: &ReadTxn,
    later: &ReadTxn,
    m: Map<Seq<u8>, Arc<V>>,
) where P: Fn(&V) -> Key, X: Fn(&V) -> Vec<Key>
    requires
        a.wf(),
        b.wf(),
        a.admits(txn),
        a.publishes(b, txn),
        !commit::any_load(txn),
        a.owns(table),
        observed <= low,
        a.bound() <= low <= a.head(),
        a.entry(table.at()).counters().lost <= observed,
        past(a.records(table.at()), observed, low),
        earlier.at() == a.head(),
        later.at() == b.head(),
        mirrors(
            a,
            table,
            earlier,
            replayed(
                m,
                stream::reported(
                    &a.entry(table.at()),
                    a.records(table.at()),
                    observed,
                    a.head(),
                ),
            ),
        ),
    ensures
        b.owns(table),
        b.bound() <= low <= b.head(),
        b.entry(table.at()).counters().lost <= observed,
        past(b.records(table.at()), observed, low),
        mirrors(
            b,
            table,
            later,
            replayed(
                m,
                stream::reported(
                    &b.entry(table.at()),
                    b.records(table.at()),
                    observed,
                    b.head(),
                ),
            ),
        ),
{
    let pos = table.at();
    let told = stream::reported(&a.entry(pos), a.records(pos), observed, a.head());
    let more = stream::reported(&b.entry(pos), b.records(pos), a.head(), b.head());
    txn.lemma_ok();
    a.lemma_wf();
    assert(a.entry(pos).wf());
    assert(a.commits(b, pos, txn.pending(pos), txn.writes_at()));
    let ws = txn.pending(pos);
    let (rs, fresh) = (a.records(pos), entry::fresh(ws, txn.writes_at()));
    assert forall|j: int|
        0 <= j < b.records(pos).len() && observed < (#[trigger] b.records(
            pos,
        )[j]).revision implies low < b.records(pos)[j].revision by {
        if j < rs.len() {
            assert(b.records(pos)[j] == rs[j]);
        } else {
            let i = entry::lemma_fresh_from(ws, txn.writes_at(), j - rs.len());
        }
    }
    commits_take_nothing_back(a, b, txn, pos, observed, a.head());
    reads_add_up(b, pos, observed, a.head(), b.head());
    lemma_replayed_concat(m, told, more);
    changes_replay_a_commit(a, b, txn, table, a.head(), earlier, later, replayed(m, told));
}

proof fn lemma_keeps_up_with_a_compaction<V, P, X>(
    a: &Db<V, P, X>,
    b: &Db<V, P, X>,
    rev: Revision,
    table: &Table<V>,
    observed: Revision,
    low: Revision,
    earlier: &ReadTxn,
    later: &ReadTxn,
    m: Map<Seq<u8>, Arc<V>>,
) where P: Fn(&V) -> Key, X: Fn(&V) -> Vec<Key>
    requires
        a.wf(),
        b.wf(),
        a.releases(b, rev),
        b.bound() <= low,
        a.owns(table),
        low <= a.head(),
        a.entry(table.at()).counters().lost <= observed,
        past(a.records(table.at()), observed, low),
        earlier.at() == a.head(),
        later.at() == b.head(),
        mirrors(
            a,
            table,
            earlier,
            replayed(
                m,
                stream::reported(
                    &a.entry(table.at()),
                    a.records(table.at()),
                    observed,
                    a.head(),
                ),
            ),
        ),
    ensures
        b.owns(table),
        low <= b.head(),
        b.entry(table.at()).counters().lost <= observed,
        past(b.records(table.at()), observed, low),
        mirrors(
            b,
            table,
            later,
            replayed(
                m,
                stream::reported(
                    &b.entry(table.at()),
                    b.records(table.at()),
                    observed,
                    b.head(),
                ),
            ),
        ),
{
    let pos = table.at();
    let rs = a.records(pos);
    let bound = b.bound();
    assert(a.compacts(b, pos, bound));
    let lost = choose|lost: Revision|
        {
            &&& #[trigger] record::highest_dropped(rs, bound, lost)
            &&& b.entry(pos).counters().lost == (if lost > a.entry(pos).counters().lost {
                lost
            } else {
                a.entry(pos).counters().lost
            })
        };
    assert(record::highest_dropped(rs, bound, lost));
    if lost > 0 {
        let j = choose|j: int| 0 <= j < rs.len() && (#[trigger] rs[j]).revision == lost;
        assert(rs[j].revision <= bound);
    }
    record::lemma_kept_in(rs, bound);
    assert forall|j: int|
        0 <= j < b.records(pos).len() && observed < (#[trigger] b.records(
            pos,
        )[j]).revision implies low < b.records(pos)[j].revision by {
        let r = record::kept(rs, bound)[j];
        let x = choose|x: int| 0 <= x < rs.len() && rs[x] == r;
        assert(observed < rs[x].revision);
    }
    compaction_spares_a_reader_that_lost_nothing(a, b, rev, pos, observed, a.head());
    compaction_spares_readers(a, b, rev, table, later);
    let n = replayed(
        m,
        stream::reported(&b.entry(pos), b.records(pos), observed, b.head()),
    );
    assert forall|k: Seq<u8>| #[trigger] held_at(n, k) == entry::value_of(
        b.sees(table, later, k),
    ) by {
        assert(held_at(n, k) == entry::value_of(a.sees(table, earlier, k)));
        assert(b.sees(table, later, k) == a.sees(table, later, k));
    }
}

// ------------------------------------------------------------------- watches

/// A watch on the database reports every commit that writes.
pub proof fn db_watch_reports_a_commit<V, P, X>(
    before: &Db<V, P, X>,
    after: &Db<V, P, X>,
    txn: &WriteTxn<V>,
    watch: &Watch,
) where P: Fn(&V) -> Key, X: Fn(&V) -> Vec<Key>
    requires
        before.admits(txn),
        before.publishes(after, txn),
        watch.scope() == Covers::Db,
        watch.since() <= before.head(),
    ensures
        watch.behind(after.stands(watch.scope())),
{
    txn.lemma_ok();
}

/// A watch on a table that is up to date reports a commit exactly if the commit
/// wrote to the table.
pub proof fn table_watch_reports_its_own_commits<V, P, X>(
    before: &Db<V, P, X>,
    after: &Db<V, P, X>,
    txn: &WriteTxn<V>,
    pos: usize,
    watch: &Watch,
) where P: Fn(&V) -> Key, X: Fn(&V) -> Vec<Key>
    requires
        before.wf(),
        before.admits(txn),
        before.publishes(after, txn),
        pos < before.count(),
        watch.scope() == Covers::Table(pos),
        watch.since() == before.stands(watch.scope()),
    ensures
        watch.behind(after.stands(watch.scope())) == (txn.pending(pos as int).len() > 0),
{
    txn.lemma_ok();
    before.lemma_wf();
    assert(before.entry(pos as int).wf());
    assert(before.commits(after, pos as int, txn.pending(pos as int), txn.writes_at()));
}

/// A watch taken on a snapshot the table has moved past reports the change it
/// missed at once.
pub proof fn stale_watch_reports_at_once<V, P, X>(
    db: &Db<V, P, X>,
    pos: usize,
    at: Revision,
    watch: &Watch,
) where P: Fn(&V) -> Key, X: Fn(&V) -> Vec<Key>
    requires
        db.wf(),
        pos < db.count(),
        at < db.entry(pos as int).counters().revision,
        watch.scope() == Covers::Table(pos),
        watch.since() == at,
    ensures
        watch.behind(db.stands(watch.scope())),
{
    db.lemma_wf();
    assert(db.entry(pos as int).wf());
}

/// A compaction is not a commit: it wakes no watch and announces nothing.
pub proof fn compaction_wakes_no_watch<V, P, X>(
    before: &Db<V, P, X>,
    after: &Db<V, P, X>,
    rev: Revision,
    watch: &Watch,
) where P: Fn(&V) -> Key, X: Fn(&V) -> Vec<Key>
    requires
        before.releases(after, rev),
        watch.scope() matches Covers::Table(pos) ==> pos < before.count(),
    ensures
        watch.behind(after.stands(watch.scope())) == watch.behind(before.stands(watch.scope())),
        after.told() == before.told(),
{
    if let Covers::Table(pos) = watch.scope() {
        assert(before.compacts(after, pos as int, after.bound()));
    }
}

// -------------------------------------------------------------- what is kept

/// A reader keeps the versions it could see, down to the compaction bound: a
/// commit that loads nothing takes from the front of what it sees of a row, and
/// takes only versions at or below the bound.
pub proof fn versions_go_only_when_released<V, P, X>(
    before: &Db<V, P, X>,
    after: &Db<V, P, X>,
    txn: &WriteTxn<V>,
    pos: int,
    k: Seq<u8>,
    at: Revision,
) -> (gone: int) where P: Fn(&V) -> Key, X: Fn(&V) -> Vec<Key>
    requires
        before.wf(),
        before.admits(txn),
        before.publishes(after, txn),
        !commit::any_load(txn),
        0 <= pos < before.count(),
        before.bound() <= at <= before.head(),
    ensures
        ({
            let (was, is) = (
                row::upto(before.entry(pos).history(k), at),
                row::upto(after.entry(pos).history(k), at),
            );
            &&& 0 <= gone <= was.len()
            &&& is == was.subrange(gone, was.len() as int)
            &&& forall|i: int| 0 <= i < gone ==> (#[trigger] was[i]).revision <= before.bound()
        }),
{
    let ws = txn.pending(pos);
    let bound = before.bound();
    txn.lemma_ok();
    before.lemma_wf();
    assert(before.commits(after, pos, ws, txn.writes_at()));
    let h = before.entry(pos).history(k);
    let n = after.entry(pos).history(k);
    let was = row::upto(h, at);
    let is = row::upto(n, at);
    row::lemma_seen(h, at);
    match pending::written(ws, k) {
        None => {
            assert(is =~= was.subrange(0, was.len() as int));
            0
        },
        Some(w) => {
            let x = pending::place_of(ws, k);
            lemma_not_loaded(txn, pos, x);
            assert(entry::timely(txn.pending(pos)[x], txn.writes_at()));
            assert(row::ordered(h));
            let t = row::trim(h, bound);
            assert(n == t.push(w.wrote->0));
            row::lemma_seen(h, bound);
            row::lemma_seen(n, at);
            let s = if h.len() == 0 || h[0].revision > bound {
                0
            } else {
                row::seen(h, bound)
            };
            if s < 0 {
                assert(h[0].revision > bound);
            }
            assert(t =~= h.subrange(s, h.len() as int));
            let e = row::seen(h, at);
            if e < s && s > 0 {
                assert(h[s].revision > at);
            }
            let gone = if s <= e + 1 { s } else { 0 };
            assert forall|j: int| e - s < j < n.len() implies (#[trigger] n[j]).revision > at by {
                if j < t.len() {
                    assert(n[j] == h[s + j]);
                } else {
                    assert(n[j] == w.wrote->0);
                }
            }
            if e >= s {
                assert(n[e - s] == h[e]);
            }
            row::lemma_seen_is(n, at, e - s);
            assert(is =~= was.subrange(gone, was.len() as int));
            assert forall|i: int| 0 <= i < gone implies (#[trigger] was[i]).revision
                <= bound by {
                assert(was[i] == h[i]);
                assert(h[i].revision <= h[s].revision);
            }
            gone
        },
    }
}

/// A load is read back: a commit that loads a row and writes nothing over it
/// leaves the row as it was loaded, and a reader that opens after it sees every
/// version.
pub proof fn load_is_read_back<V, P, X>(
    before: &Db<V, P, X>,
    after: &Db<V, P, X>,
    txn: &WriteTxn<V>,
    pos: int,
    k: Seq<u8>,
) where P: Fn(&V) -> Key, X: Fn(&V) -> Vec<Key>
    requires
        before.wf(),
        before.admits(txn),
        before.publishes(after, txn),
        0 <= pos < before.count(),
        pending::written(txn.pending(pos), k) matches Some(w) && w.loaded is Some && w.wrote
            is None,
    ensures
        row::upto(after.entry(pos).history(k), after.head()) == (pending::written(
            txn.pending(pos),
            k,
        )->0).loaded->0,
{
    let ws = txn.pending(pos);
    txn.lemma_ok();
    assert(before.commits(after, pos, ws, txn.writes_at()));
    let x = pending::place_of(ws, k);
    assert(entry::timely(txn.pending(pos)[x], txn.writes_at()));
    let h = after.entry(pos).history(k);
    let w = pending::written(ws, k)->0;
    assert(h == w.loaded->0);
    assert(row::upto(h, after.head()) =~= h);
}

/// A write trims the versions a compaction released: of what was below the
/// write, one version at most is at or below the bound.
pub proof fn write_trims_what_was_released<V, P, X>(
    before: &Db<V, P, X>,
    after: &Db<V, P, X>,
    txn: &WriteTxn<V>,
    pos: int,
    k: Seq<u8>,
) where P: Fn(&V) -> Key, X: Fn(&V) -> Vec<Key>
    requires
        before.wf(),
        before.admits(txn),
        before.publishes(after, txn),
        0 <= pos < before.count(),
        pending::written(txn.pending(pos), k) matches Some(w) && w.wrote is Some,
    ensures
        ({
            let h = after.entry(pos).history(k);
            &&& h.len() > 0
            &&& h.last().revision == after.head()
            &&& forall|i: int| 0 < i < h.len() - 1 ==> (#[trigger] h[i]).revision > before.bound()
        }),
{
    let ws = txn.pending(pos);
    let bound = before.bound();
    txn.lemma_ok();
    before.lemma_wf();
    assert(before.commits(after, pos, ws, txn.writes_at()));
    let w = pending::written(ws, k)->0;
    let x = pending::place_of(ws, k);
    assert(entry::timely(txn.pending(pos)[x], txn.writes_at()));
    let base = w.base(before.entry(pos).history(k));
    assert(row::ordered(before.entry(pos).history(k)));
    let h = after.entry(pos).history(k);
    let t = row::trim(base, bound);
    assert(h == t.push(w.wrote->0));
    row::lemma_seen(base, bound);
    let s = row::seen(base, bound);
    assert forall|i: int| 0 < i < h.len() - 1 implies (#[trigger] h[i]).revision > bound by {
        assert(h[i] == t[i]);
        if base.len() == 0 || base[0].revision > bound {
            assert(base[0].revision <= base[i].revision);
        } else {
            if s < 0 {
                assert(base[0].revision > bound);
            }
            assert(t[i] == base[s + i]);
        }
    }
}

/// A compaction sweeps what it ended: no row is left that a tombstone at or
/// below the bound ends.
pub proof fn compaction_sweeps_deletions<V, P, X>(
    before: &Db<V, P, X>,
    after: &Db<V, P, X>,
    rev: Revision,
    pos: int,
    k: Seq<u8>,
) where P: Fn(&V) -> Key, X: Fn(&V) -> Vec<Key>
    requires
        before.releases(after, rev),
        0 <= pos < before.count(),
    ensures
        !row::buried_by(after.entry(pos).history(k), after.bound()),
        !row::buried_by(before.entry(pos).history(k), after.bound()) ==> after.entry(pos).history(k)
            == before.entry(pos).history(k),
{
    assert(before.compacts(after, pos, after.bound()));
    assert(after.entry(pos).history(k) == after.entry(pos).history(k));
}

/// Nothing a compaction at the bound would take is there: no row and no entry
/// ends with a tombstone at or below it, and no record is that old.
pub open spec fn released<V, P, X>(db: &Db<V, P, X>) -> bool where
    P: Fn(&V) -> Key,
    X: Fn(&V) -> Vec<Key>,
 {
    forall|pos: int| 0 <= pos < db.count() ==> #[trigger] released_at(db, pos)
}

/// The same for one table.
pub open spec fn released_at<V, P, X>(db: &Db<V, P, X>, pos: int) -> bool where
    P: Fn(&V) -> Key,
    X: Fn(&V) -> Vec<Key>,
 {
    &&& forall|k: Seq<u8>| !row::buried_by(#[trigger] db.entry(pos).history(k), db.bound())
    &&& forall|i: int, k: Seq<u8>, p: Seq<u8>|
        0 <= i < db.entry(pos).count() && k.len() <= u32::MAX ==> !row::buried_by(
            #[trigger] db.entry(pos).listing(i, k, p),
            db.bound(),
        )
    &&& forall|j: int|
        0 <= j < db.records(pos).len() ==> (#[trigger] db.records(pos)[j]).revision > db.bound()
}

/// A table reads the same, tells the same and has lost the same.
pub open spec fn unchanged<V, P, X>(before: &Db<V, P, X>, after: &Db<V, P, X>, pos: int) -> bool where
    P: Fn(&V) -> Key,
    X: Fn(&V) -> Vec<Key>,
 {
    let (t, u) = (before.entry(pos), after.entry(pos));
    &&& u.same_schema(&t)
    &&& u.counters().revision == t.counters().revision
    &&& u.counters().lost == t.counters().lost
    &&& after.records(pos) == before.records(pos)
    &&& forall|k: Seq<u8>| #[trigger] u.history(k) == t.history(k)
    &&& forall|i: int, k: Seq<u8>, p: Seq<u8>|
        0 <= i < t.count() && k.len() <= u32::MAX ==> #[trigger] u.listing(i, k, p) == t.listing(
            i,
            k,
            p,
        )
}

/// A compaction leaves nothing at or below its bound to take.
pub proof fn compaction_takes_everything<V, P, X>(
    before: &Db<V, P, X>,
    after: &Db<V, P, X>,
    rev: Revision,
) where P: Fn(&V) -> Key, X: Fn(&V) -> Vec<Key>
    requires
        before.releases(after, rev),
    ensures
        released(after),
{
    let bound = after.bound();
    assert forall|pos: int| 0 <= pos < after.count() implies #[trigger] released_at(after, pos) by {
        assert(before.compacts(after, pos, bound));
        let (t, u) = (before.entry(pos), after.entry(pos));
        assert forall|i: int, k: Seq<u8>, p: Seq<u8>|
            0 <= i < u.count() && k.len() <= u32::MAX implies !row::buried_by(
            #[trigger] u.listing(i, k, p),
            bound,
        ) by {}
        record::lemma_kept_in(before.records(pos), bound);
        assert forall|j: int| 0 <= j < after.records(pos).len() implies (#[trigger] after.records(
            pos,
        )[j]).revision > bound by {
            assert(record::kept(before.records(pos), bound)[j].revision > bound);
        }
    }
}

/// A compaction at or below an earlier bound changes nothing, where that bound
/// has left nothing to take: right after it, and for as long as
/// [`commits_leave_nothing_to_take`].
pub proof fn compaction_below_the_bound_changes_nothing<V, P, X>(
    before: &Db<V, P, X>,
    after: &Db<V, P, X>,
    rev: Revision,
) where P: Fn(&V) -> Key, X: Fn(&V) -> Vec<Key>
    requires
        released(before),
        rev <= before.bound(),
        before.releases(after, rev),
    ensures
        after.bound() == before.bound(),
        after.head() == before.head(),
        after.count() == before.count(),
        after.same_counters(before),
        forall|pos: int| 0 <= pos < before.count() ==> #[trigger] unchanged(before, after, pos),
{
    let bound = before.bound();
    assert forall|pos: int| 0 <= pos < before.count() implies #[trigger] unchanged(
        before,
        after,
        pos,
    ) by {
        assert(before.compacts(after, pos, bound));
        assert(released_at(before, pos));
        let (t, u) = (before.entry(pos), after.entry(pos));
        let rs = before.records(pos);
        let f = |r: Record| r.revision > bound;
        assert forall|j: int| 0 <= j < rs.len() implies f(#[trigger] rs[j]) by {
            assert(before.records(pos)[j].revision > bound);
        }
        crate::entries::lemma_filter_all(rs, f);
        assert(record::kept(rs, bound) =~= rs);
        let lost = choose|lost: Revision|
            {
                &&& #[trigger] record::highest_dropped(rs, bound, lost)
                &&& u.counters().lost == (if lost > t.counters().lost {
                    lost
                } else {
                    t.counters().lost
                })
            };
        assert(record::highest_dropped(rs, bound, lost));
        if lost > 0 {
            let j = choose|j: int| 0 <= j < rs.len() && (#[trigger] rs[j]).revision == lost;
            assert(before.records(pos)[j].revision > bound);
        }
        assert forall|k: Seq<u8>| #[trigger] u.history(k) == t.history(k) by {
            assert(!row::buried_by(t.history(k), bound));
        }
        assert forall|i: int, k: Seq<u8>, p: Seq<u8>|
            0 <= i < t.count() && k.len() <= u32::MAX implies #[trigger] u.listing(i, k, p)
            == t.listing(i, k, p) by {
            assert(!row::buried_by(t.listing(i, k, p), bound));
        }
    }
}

/// Two compactions in a row at or below one bound are one.
pub proof fn compacting_again_changes_nothing<V, P, X>(
    before: &Db<V, P, X>,
    mid: &Db<V, P, X>,
    after: &Db<V, P, X>,
    rev: Revision,
    again: Revision,
) where P: Fn(&V) -> Key, X: Fn(&V) -> Vec<Key>
    requires
        before.releases(mid, rev),
        mid.releases(after, again),
        again <= rev,
    ensures
        after.bound() == mid.bound(),
        after.head() == mid.head(),
        forall|pos: int| 0 <= pos < mid.count() ==> #[trigger] unchanged(mid, after, pos),
{
    compaction_takes_everything(before, mid, rev);
    compaction_below_the_bound_changes_nothing(mid, after, again);
}

/// A commit that loads nothing leaves a compaction at the bound nothing to take,
/// as long as the bound is not past the revision it was made at: what it writes
/// is past the bound.
pub proof fn commits_leave_nothing_to_take<V, P, X>(
    before: &Db<V, P, X>,
    after: &Db<V, P, X>,
    txn: &WriteTxn<V>,
) where P: Fn(&V) -> Key, X: Fn(&V) -> Vec<Key>
    requires
        before.wf(),
        before.admits(txn),
        before.publishes(after, txn),
        !commit::any_load(txn),
        before.bound() <= before.head(),
        released(before),
    ensures
        released(after),
{
    let bound = before.bound();
    let revision = txn.writes_at();
    txn.lemma_ok();
    assert forall|pos: int| 0 <= pos < after.count() implies #[trigger] released_at(after, pos) by {
        let ws = txn.pending(pos);
        assert(before.commits(after, pos, ws, revision));
        assert(released_at(before, pos));
        let (t, u) = (before.entry(pos), after.entry(pos));
        assert forall|k: Seq<u8>| !row::buried_by(#[trigger] u.history(k), bound) by {
            assert(!row::buried_by(t.history(k), bound));
            if let Some(w) = pending::written(ws, k) {
                let x = pending::place_of(ws, k);
                lemma_not_loaded(txn, pos, x);
                assert(entry::timely(txn.pending(pos)[x], revision));
                row::lemma_grown(w.base(t.history(k)), w.wrote->0, bound, revision);
            }
        }
        assert forall|i: int, k: Seq<u8>, p: Seq<u8>|
            0 <= i < u.count() && k.len() <= u32::MAX implies !row::buried_by(
            #[trigger] u.listing(i, k, p),
            bound,
        ) by {
            let l = t.listing(i, k, p);
            assert(!row::buried_by(l, bound));
            if let Some(w) = pending::written(ws, p) {
                let x = pending::place_of(ws, p);
                lemma_not_loaded(txn, pos, x);
                assert(entry::timely(txn.pending(pos)[x], revision));
                let had = listing::lists_held(t.keys(i), row::held(w.base(t.history(p))), k);
                row::lemma_grown(l, listing::mark(revision, had), bound, revision);
            }
        }
        let rs = before.records(pos);
        assert forall|j: int| 0 <= j < after.records(pos).len() implies (#[trigger] after.records(
            pos,
        )[j]).revision > bound by {
            if j < rs.len() {
                assert(after.records(pos)[j] == rs[j]);
                assert(before.records(pos)[j].revision > bound);
            } else {
                let i = entry::lemma_fresh_from(ws, revision, j - rs.len());
            }
        }
    }
}

/// A record and the version it names go together: every record past the bound
/// names a version its row still holds.
pub proof fn records_resolve<V, P, X>(db: &Db<V, P, X>, pos: int, j: int) where
    P: Fn(&V) -> Key,
    X: Fn(&V) -> Vec<Key>,

    requires
        db.wf(),
        0 <= pos < db.count(),
        0 <= j < db.records(pos).len(),
        db.records(pos)[j].revision > db.bound(),
    ensures
        row::exactly(
            db.entry(pos).history(db.records(pos)[j].key),
            db.records(pos)[j].revision as Revision,
        ) is Some,
{
    db.lemma_wf();
    assert(db.resolves(pos, j));
}

} // verus!
