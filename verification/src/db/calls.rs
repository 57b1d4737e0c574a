//! What goes into the calls of the database and what comes out of them.
//!
//! Each law relates what one call was given or gave back to what another one
//! gives back: a value that is written to the value that is read, a list of
//! versions to the one it follows, a search to the keys it is for.

use std::sync::Arc;

use vstd::prelude::*;

use crate::bytes;
use crate::db::entry;
use crate::db::laws;
use crate::db::listing;
use crate::db::pending;
use crate::db::pending::Write;
use crate::db::record;
use crate::db::row;
use crate::db::row::{History, Version};
use crate::db::stream;
use crate::db::stream::Change;
use crate::db::table::{refusal, rewrites, Refusal};
use crate::db::txn::commit;
use crate::db::txn::{ReadTxn, Snapshot, WriteTxn};
use crate::db::{Db, Key, Revision, Table};
use crate::entries;
use crate::tree_laws;
use crate::watch::{Covers, Watch};

verus! {

// ------------------------------------------------------------------ one reader

/// A reader is handed the versions of a key that were there at its revision, in
/// the order of their revisions, and what it gets of the key is the last of
/// them, unless that is a tombstone.
pub proof fn a_reader_gets_the_last_version_it_sees<V, P, X>(
    db: &Db<V, P, X>,
    table: &Table<V>,
    reader: &ReadTxn,
    k: Seq<u8>,
) where P: Fn(&V) -> Key, X: Fn(&V) -> Vec<Key>
    requires
        db.wf(),
        db.owns(table),
    ensures
        ({
            let vs = db.recounts(table, reader, k);
            &&& forall|i: int| 0 <= i < vs.len() ==> (#[trigger] vs[i]).revision <= reader.at()
            &&& forall|i: int, j: int|
                0 <= i < j < vs.len() ==> (#[trigger] vs[i]).revision <= (
                #[trigger] vs[j]).revision
            &&& db.sees(table, reader, k) == (if vs.len() == 0 || vs[vs.len() - 1].deleted {
                None
            } else {
                Some((vs[vs.len() - 1].value, vs[vs.len() - 1].revision))
            })
        }),
{
    db.lemma_wf();
    let t = db.entry(table.at());
    let h = t.history(k);
    let at = reader.at();
    assert(t.sound(db.head(), db.floor()));
    assert(row::ordered(h));
    row::lemma_seen(h, at);
    let vs = db.recounts(table, reader, k);
    let s = row::seen(h, at);
    assert(vs =~= h.subrange(0, s + 1));
    assert forall|i: int| 0 <= i < vs.len() implies (#[trigger] vs[i]).revision <= at by {
        if i < s {
            assert(h[i].revision <= h[s].revision);
        }
    }
    assert forall|i: int, j: int| 0 <= i < j < vs.len() implies (#[trigger] vs[i]).revision <= (
    #[trigger] vs[j]).revision by {
        assert(h[i].revision <= h[j].revision);
    }
}

/// Of two readers of one database the later one is handed what the earlier one
/// is, and after that only versions past the earlier one's revision.
pub proof fn a_later_reader_sees_more<V, P, X>(
    db: &Db<V, P, X>,
    table: &Table<V>,
    earlier: &ReadTxn,
    later: &ReadTxn,
    k: Seq<u8>,
) where P: Fn(&V) -> Key, X: Fn(&V) -> Vec<Key>
    requires
        db.wf(),
        db.owns(table),
        earlier.at() <= later.at(),
    ensures
        ({
            let (few, all) = (db.recounts(table, earlier, k), db.recounts(table, later, k));
            &&& few.len() <= all.len()
            &&& few == all.subrange(0, few.len() as int)
            &&& forall|i: int|
                few.len() <= i < all.len() ==> (#[trigger] all[i]).revision > earlier.at()
        }),
{
    let h = db.entry(table.at()).history(k);
    row::lemma_seen(h, earlier.at());
    row::lemma_seen(h, later.at());
    let (few, all) = (db.recounts(table, earlier, k), db.recounts(table, later, k));
    let (s, e) = (row::seen(h, earlier.at()), row::seen(h, later.at()));
    if e < s {
        assert(h[s].revision > later.at());
    }
    assert(few =~= all.subrange(0, few.len() as int));
    assert forall|i: int| few.len() <= i < all.len() implies (#[trigger] all[i]).revision
        > earlier.at() by {
        assert(all[i] == h[i]);
    }
}

/// A table that was just registered is empty: nothing is got, no version is
/// handed out and a scan lists nothing.
pub proof fn a_new_table_is_empty<V, P, X>(
    db: &Db<V, P, X>,
    table: &Table<V>,
    reader: &ReadTxn,
    from: Seq<u8>,
    under: Option<Seq<u8>>,
    list: Seq<(Key, Arc<V>, Revision)>,
) where P: Fn(&V) -> Key, X: Fn(&V) -> Vec<Key>
    requires
        forall|k: Seq<u8>| (#[trigger] db.entry(table.at()).history(k)).len() == 0,
        db.lists(table, reader, from, under, list),
    ensures
        forall|k: Seq<u8>| #[trigger] db.sees(table, reader, k) is None,
        forall|k: Seq<u8>| (#[trigger] db.recounts(table, reader, k)).len() == 0,
        list.len() == 0,
{
    assert forall|k: Seq<u8>| (#[trigger] db.recounts(table, reader, k)).len() == 0 by {
        assert(db.entry(table.at()).history(k).len() == 0);
    }
    assert forall|k: Seq<u8>| #[trigger] db.sees(table, reader, k) is None by {
        assert(db.entry(table.at()).history(k).len() == 0);
    }
    if list.len() > 0 {
        let e = crate::db::scan::shown(list);
        entries::lemma_found(e, 0);
        assert(db.sees(table, reader, e[0].0) is None);
    }
}

// ------------------------------------------------------------- one transaction

/// A transaction that has buffered nothing for a table reads it as a reader at
/// the revision it opened on does.
pub proof fn a_new_transaction_reads_as_a_reader<V, P, X>(
    db: &Db<V, P, X>,
    table: &Table<V>,
    txn: &WriteTxn<V>,
    reader: &ReadTxn,
    k: Seq<u8>,
) where P: Fn(&V) -> Key, X: Fn(&V) -> Vec<Key>
    requires
        txn.pending(table.at()).len() == 0,
        reader.at() == txn.opened_at(),
    ensures
        db.sees(table, txn, k) == db.sees(table, reader, k),
        db.recounts(table, txn, k) == db.recounts(table, reader, k),
{
    assert(txn.pending(table.at()) =~= Seq::empty());
}

/// A transaction that has buffered nothing at all has nothing to commit, and
/// has loaded nothing.
pub proof fn a_new_transaction_has_written_nothing<V>(txn: &WriteTxn<V>)
    requires
        forall|pos: int| (#[trigger] txn.pending(pos)).len() == 0,
    ensures
        !txn.wrote(),
        !commit::any_load(txn),
{
    if commit::any_load(txn) {
        let pos = choose|pos: int| 0 <= pos < txn.width() && #[trigger] txn.loads(pos);
        assert(txn.pending(pos).len() == 0);
    }
}

/// What a transaction gets of a key is the last version it is handed of it,
/// unless that is a tombstone.
pub proof fn a_transaction_gets_the_last_version_it_sees<V, P, X>(
    db: &Db<V, P, X>,
    table: &Table<V>,
    txn: &WriteTxn<V>,
    k: Seq<u8>,
) where P: Fn(&V) -> Key, X: Fn(&V) -> Vec<Key>
    requires
        db.takes_writes(table, txn),
    ensures
        ({
            let vs = db.recounts(table, txn, k);
            db.sees(table, txn, k) == (if vs.len() == 0 || vs[vs.len() - 1].deleted {
                None
            } else {
                Some((vs[vs.len() - 1].value, vs[vs.len() - 1].revision))
            })
        }),
{
    txn.lemma_ok();
    let ws = txn.pending(table.at());
    assert(pending::distinct(ws));
    let h = db.entry(table.at()).history(k);
    row::lemma_seen(h, txn.opened_at());
    if let Some(w) = pending::written(ws, k) {
        let i = pending::place_of(ws, k);
        assert(ws[i].wf());
    }
}

/// A transaction reads its own writes: after an insert or a delete of `key` that
/// left `version`, it gets that version and is handed it after the versions it
/// was handed before, in place of an earlier write of its own. Every other key
/// and every other table it reads as before. It then has something to commit,
/// and has loaded no more than before.
pub proof fn a_write_is_read_back<V, P, X>(
    db: &Db<V, P, X>,
    before: &WriteTxn<V>,
    after: &WriteTxn<V>,
    table: &Table<V>,
    key: Seq<u8>,
    version: Version<V>,
) where P: Fn(&V) -> Key, X: Fn(&V) -> Vec<Key>
    requires
        db.takes_writes(table, before),
        rewrites(
            before,
            after,
            table.at(),
            pending::with_write(before.pending(table.at()), key, version),
        ),
    ensures
        db.sees(table, after, key) == (if version.deleted {
            None
        } else {
            Some((version.value, version.revision))
        }),
        ({
            let was = db.recounts(table, before, key);
            let is = db.recounts(table, after, key);
            let own = pending::written(before.pending(table.at()), key) matches Some(w)
                && w.wrote is Some;
            &&& own ==> was.len() > 0 && is == was.subrange(0, was.len() - 1).push(version)
            &&& !own ==> is == was.push(version)
        }),
        forall|k: Seq<u8>|
            k != key ==> #[trigger] db.sees(table, after, k) == db.sees(table, before, k),
        forall|k: Seq<u8>|
            k != key ==> #[trigger] db.recounts(table, after, k) == db.recounts(table, before, k),
        forall|other: &Table<V>, k: Seq<u8>|
            other.at() != table.at() ==> #[trigger] db.sees(other, after, k) == db.sees(
                other,
                before,
                k,
            ),
        forall|other: &Table<V>, k: Seq<u8>|
            other.at() != table.at() ==> #[trigger] db.recounts(other, after, k) == db.recounts(
                other,
                before,
                k,
            ),
        pending::written(after.pending(table.at()), key) matches Some(w) && w.wrote == Some(
            version,
        ),
        forall|k: Seq<u8>|
            k != key ==> #[trigger] pending::written(after.pending(table.at()), k)
                == pending::written(before.pending(table.at()), k),
        after.wrote(),
        commit::any_load(after) ==> commit::any_load(before),
{
    let pos = table.at();
    let ws = before.pending(pos);
    before.lemma_ok();
    let w = Write { key, loaded: pending::loaded_at(ws, key), wrote: Some(version) };
    assert(pending::distinct(ws));
    if pending::place_of(ws, key) >= 0 {
        let i = pending::place_of(ws, key);
        assert(ws[i].wf());
    }
    pending::lemma_with(ws, w);
    let n = pending::with(ws, w);
    assert(after.pending(pos) == n);
    assert(pending::written(n, key) == Some(w));
    let h = db.entry(pos).history(key);
    row::lemma_seen(h, before.opened_at());
    let was = db.recounts(table, before, key);
    let is = db.recounts(table, after, key);
    match pending::written(ws, key) {
        Some(o) => {
            if o.wrote is Some {
                assert(was.drop_last() =~= o.base(row::upto(h, before.opened_at())));
                assert(was.subrange(0, was.len() - 1) =~= was.drop_last());
            }
            assert(is == o.base(row::upto(h, before.opened_at())).push(version));
        },
        None => {},
    }
    assert(n.len() > 0) by {
        assert(pending::place_of(n, key) >= 0);
    }
    assert(0 <= pos < after.width() && after.pending(pos).len() > 0);
    assert forall|other: &Table<V>, k: Seq<u8>| other.at() != table.at() implies #[trigger] db.sees(
        other,
        after,
        k,
    ) == db.sees(other, before, k) by {
        assert(after.pending(other.at()) == before.pending(other.at()));
    }
    assert forall|other: &Table<V>, k: Seq<u8>|
        other.at() != table.at() implies #[trigger] db.recounts(other, after, k) == db.recounts(
        other,
        before,
        k,
    ) by {
        assert(after.pending(other.at()) == before.pending(other.at()));
    }
    if commit::any_load(after) {
        let p = choose|p: int| 0 <= p < after.width() && #[trigger] after.loads(p);
        let i = choose|i: int|
            0 <= i < after.pending(p).len() && (#[trigger] after.pending(p)[i]).loaded is Some;
        if p != pos {
            assert(before.pending(p)[i].loaded is Some);
        } else {
            pending::lemma_place(n, i);
            let k = n[i].key;
            let j = pending::place_of(ws, k);
            assert(before.pending(p)[j].loaded is Some);
        }
        assert(before.loads(p));
    }
}

/// A load is read back version for version: the transaction is then handed
/// exactly the versions that were loaded, and every other key and table as
/// before.
pub proof fn a_load_is_read_back<V, P, X>(
    db: &Db<V, P, X>,
    before: &WriteTxn<V>,
    after: &WriteTxn<V>,
    table: &Table<V>,
    key: Seq<u8>,
    versions: Seq<Version<V>>,
) where P: Fn(&V) -> Key, X: Fn(&V) -> Vec<Key>
    requires
        db.takes_writes(table, before),
        versions.len() > 0,
        rewrites(
            before,
            after,
            table.at(),
            pending::with_load(before.pending(table.at()), key, versions),
        ),
    ensures
        db.recounts(table, after, key) == versions,
        db.sees(table, after, key) == (if versions[versions.len() - 1].deleted {
            None
        } else {
            Some((versions[versions.len() - 1].value, versions[versions.len() - 1].revision))
        }),
        forall|k: Seq<u8>|
            k != key ==> #[trigger] db.sees(table, after, k) == db.sees(table, before, k),
        forall|k: Seq<u8>|
            k != key ==> #[trigger] db.recounts(table, after, k) == db.recounts(table, before, k),
        forall|other: &Table<V>, k: Seq<u8>|
            other.at() != table.at() ==> #[trigger] db.sees(other, after, k) == db.sees(
                other,
                before,
                k,
            ),
        forall|other: &Table<V>, k: Seq<u8>|
            other.at() != table.at() ==> #[trigger] db.recounts(other, after, k) == db.recounts(
                other,
                before,
                k,
            ),
        pending::written(after.pending(table.at()), key) matches Some(w) && w.wrote is None,
        forall|k: Seq<u8>|
            k != key ==> #[trigger] pending::written(after.pending(table.at()), k)
                == pending::written(before.pending(table.at()), k),
        after.wrote(),
{
    let pos = table.at();
    let ws = before.pending(pos);
    before.lemma_ok();
    let w = Write { key, loaded: Some(versions), wrote: None };
    assert(pending::distinct(ws));
    pending::lemma_with(ws, w);
    let n = pending::with(ws, w);
    assert(after.pending(pos) == n);
    assert(pending::written(n, key) == Some(w));
    assert(pending::place_of(n, key) >= 0);
    assert(0 <= pos < after.width() && after.pending(pos).len() > 0);
    assert forall|other: &Table<V>, k: Seq<u8>| other.at() != table.at() implies #[trigger] db.sees(
        other,
        after,
        k,
    ) == db.sees(other, before, k) by {
        assert(after.pending(other.at()) == before.pending(other.at()));
    }
    assert forall|other: &Table<V>, k: Seq<u8>|
        other.at() != table.at() implies #[trigger] db.recounts(other, after, k) == db.recounts(
        other,
        before,
        k,
    ) by {
        assert(after.pending(other.at()) == before.pending(other.at()));
    }
}

// ------------------------------------------------------------------- a commit

/// A commit publishes the versions its transaction was handed: a reader that
/// opens after it is handed the same ones, but for those a write of the key let
/// go of, which are the oldest and all at or below the compaction bound. Of what
/// is then below the write, only the oldest may be that old. A key that was only
/// loaded, or not touched, loses none.
pub proof fn a_commit_publishes_its_versions<V, P, X>(
    before: &Db<V, P, X>,
    after: &Db<V, P, X>,
    txn: &WriteTxn<V>,
    table: &Table<V>,
    reader: &ReadTxn,
    k: Seq<u8>,
) -> (gone: int) where P: Fn(&V) -> Key, X: Fn(&V) -> Vec<Key>
    requires
        before.wf(),
        before.admits(txn),
        before.publishes(after, txn),
        before.owns(table),
        reader.at() == after.head(),
    ensures
        ({
            let was = before.recounts(table, txn, k);
            let is = after.recounts(table, reader, k);
            let wrote = pending::written(txn.pending(table.at()), k) matches Some(w)
                && w.wrote is Some;
            &&& 0 <= gone <= was.len()
            &&& is == was.subrange(gone, was.len() as int)
            &&& forall|i: int| 0 <= i < gone ==> (#[trigger] was[i]).revision <= before.bound()
            &&& gone > 0 ==> gone < was.len() - 1 && was[gone].revision <= before.bound()
            &&& wrote ==> is.len() > 0 && forall|i: int|
                0 < i < is.len() - 1 ==> (#[trigger] is[i]).revision > before.bound()
            &&& !wrote ==> gone == 0
        }),
{
    let pos = table.at();
    let ws = txn.pending(pos);
    let bound = before.bound();
    let revision = txn.writes_at();
    txn.lemma_ok();
    before.lemma_wf();
    assert(before.commits(after, pos, ws, revision));
    let t = before.entry(pos);
    assert(t.sound(before.head(), before.floor()));
    let h = t.history(k);
    let n = after.entry(pos).history(k);
    assert(row::ordered(h) && row::capped(h, before.head()));
    let was = before.recounts(table, txn, k);
    let is = after.recounts(table, reader, k);
    lemma_whole(h, before.head());
    match pending::written(ws, k) {
        None => {
            assert(n == h);
            assert(row::capped(h, revision));
            lemma_whole(h, revision);
            assert(is =~= was.subrange(0, was.len() as int));
            0
        },
        Some(w) => {
            let x = pending::place_of(ws, k);
            assert(entry::timely(txn.pending(pos)[x], revision));
            let base = w.base(h);
            assert(n == w.landed(h, bound));
            assert(row::ordered(base));
            if w.loaded is Some {
                let last = base.len() - 1;
                assert forall|i: int| 0 <= i < base.len() implies (#[trigger] base[i]).revision
                    <= revision by {
                    if i < last {
                        assert(base[i].revision < base[last].revision);
                    }
                }
            }
            assert(row::capped(base, revision));
            match w.wrote {
                None => {
                    lemma_whole(base, revision);
                    assert(is =~= was.subrange(0, was.len() as int));
                    0
                },
                Some(version) => {
                    let g = row::trim(base, bound);
                    row::lemma_seen(base, bound);
                    row::lemma_grown_ordered(base, version, bound);
                    lemma_whole(n, revision);
                    let s = if base.len() == 0 || base[0].revision > bound {
                        0
                    } else {
                        row::seen(base, bound)
                    };
                    if s < 0 {
                        assert(base[0].revision > bound);
                    }
                    assert(g =~= base.subrange(s, base.len() as int));
                    assert(was == base.push(version));
                    assert(is == g.push(version));
                    assert(is =~= was.subrange(s, was.len() as int));
                    assert forall|i: int| 0 <= i < s implies (#[trigger] was[i]).revision
                        <= bound by {
                        assert(base[i].revision <= base[s].revision);
                    }
                    assert forall|i: int| 0 < i < is.len() - 1 implies (#[trigger] is[i]).revision
                        > bound by {
                        assert(is[i] == base[s + i]);
                        if base[0].revision > bound {
                            assert(base[0].revision <= base[i].revision);
                        }
                    }
                    s
                },
            }
        },
    }
}

/// A reader at or above every version sees all of them.
proof fn lemma_whole<V>(h: History<V>, at: Revision)
    requires
        row::capped(h, at),
    ensures
        row::upto(h, at) == h,
{
    row::lemma_seen(h, at);
    if h.len() > 0 {
        assert(h[h.len() - 1].revision <= at);
    }
    row::lemma_seen_is(h, at, h.len() - 1);
    assert(row::upto(h, at) =~= h);
}

/// What is written is read: once a transaction that wrote `version` at `key`
/// last is committed, a new reader gets that version there, with its revision,
/// and of every other key what the transaction got before the write.
pub proof fn what_is_written_is_read<V, P, X>(
    before: &Db<V, P, X>,
    after: &Db<V, P, X>,
    opened: &WriteTxn<V>,
    txn: &WriteTxn<V>,
    table: &Table<V>,
    key: Seq<u8>,
    version: Version<V>,
    reader: &ReadTxn,
) where P: Fn(&V) -> Key, X: Fn(&V) -> Vec<Key>
    requires
        before.wf(),
        before.takes_writes(table, opened),
        rewrites(
            opened,
            txn,
            table.at(),
            pending::with_write(opened.pending(table.at()), key, version),
        ),
        before.admits(txn),
        before.publishes(after, txn),
        reader.at() == after.head(),
    ensures
        after.head() == txn.writes_at(),
        after.sees(table, reader, key) == (if version.deleted {
            None
        } else {
            Some((version.value, version.revision))
        }),
        ({
            let vs = after.recounts(table, reader, key);
            vs.len() > 0 && vs[vs.len() - 1] == version
        }),
        forall|k: Seq<u8>|
            k != key ==> #[trigger] after.sees(table, reader, k) == before.sees(table, opened, k),
{
    a_write_is_read_back(before, opened, txn, table, key, version);
    laws::commit_publishes_what_it_read(before, after, txn, table, reader);
    assert(after.sees(table, reader, key) == before.sees(table, txn, key));
    let gone = a_commit_publishes_its_versions(before, after, txn, table, reader, key);
    let was = before.recounts(table, txn, key);
    assert(was[was.len() - 1] == version);
    assert forall|k: Seq<u8>| k != key implies #[trigger] after.sees(table, reader, k)
        == before.sees(table, opened, k) by {
        assert(after.sees(table, reader, k) == before.sees(table, txn, k));
        assert(before.sees(table, txn, k) == before.sees(table, opened, k));
    }
}

/// What is loaded is read: once a transaction that loaded `versions` at `key`
/// last is committed, a new reader is handed exactly those versions.
pub proof fn what_is_loaded_is_read<V, P, X>(
    before: &Db<V, P, X>,
    after: &Db<V, P, X>,
    opened: &WriteTxn<V>,
    txn: &WriteTxn<V>,
    table: &Table<V>,
    key: Seq<u8>,
    versions: Seq<Version<V>>,
    reader: &ReadTxn,
) where P: Fn(&V) -> Key, X: Fn(&V) -> Vec<Key>
    requires
        before.wf(),
        before.takes_writes(table, opened),
        versions.len() > 0,
        rewrites(
            opened,
            txn,
            table.at(),
            pending::with_load(opened.pending(table.at()), key, versions),
        ),
        before.admits(txn),
        before.publishes(after, txn),
        reader.at() == after.head(),
    ensures
        after.recounts(table, reader, key) == versions,
        after.sees(table, reader, key) == (if versions[versions.len() - 1].deleted {
            None
        } else {
            Some((versions[versions.len() - 1].value, versions[versions.len() - 1].revision))
        }),
        forall|k: Seq<u8>|
            k != key ==> #[trigger] after.sees(table, reader, k) == before.sees(table, opened, k),
{
    a_load_is_read_back(before, opened, txn, table, key, versions);
    laws::commit_publishes_what_it_read(before, after, txn, table, reader);
    assert(after.sees(table, reader, key) == before.sees(table, txn, key));
    let gone = a_commit_publishes_its_versions(before, after, txn, table, reader, key);
    assert(versions.subrange(0, versions.len() as int) =~= versions);
    assert forall|k: Seq<u8>| k != key implies #[trigger] after.sees(table, reader, k)
        == before.sees(table, opened, k) by {
        assert(after.sees(table, reader, k) == before.sees(table, txn, k));
        assert(before.sees(table, txn, k) == before.sees(table, opened, k));
    }
}

/// A commit publishes the transaction's revision, which is past the last one. A
/// table it wrote to stands at that revision, any other where it stood, and no
/// reader of changes loses anything. The last load is the transaction's if it
/// loaded, and the compaction bound stays.
pub proof fn a_commit_moves_the_revisions<V, P, X>(
    before: &Db<V, P, X>,
    after: &Db<V, P, X>,
    txn: &WriteTxn<V>,
    pos: int,
) where P: Fn(&V) -> Key, X: Fn(&V) -> Vec<Key>
    requires
        before.admits(txn),
        before.publishes(after, txn),
        0 <= pos < before.count(),
    ensures
        after.head() == txn.writes_at(),
        before.head() < after.head(),
        after.bound() == before.bound(),
        after.tag() == before.tag(),
        after.line() == before.line(),
        after.stuck() == 0,
        after.count() == before.count(),
        before.told() is Some ==> after.told() == Some(after.head()),
        before.told() is None ==> after.told() is None,
        !commit::any_load(txn) ==> after.loaded_at() == before.loaded_at(),
        commit::any_load(txn) ==> after.loaded_at() == after.head(),
        after.entry(pos).counters().revision == (if txn.pending(pos).len() > 0 {
            after.head()
        } else {
            before.entry(pos).counters().revision
        }),
        after.entry(pos).counters().lost == before.entry(pos).counters().lost,
        after.entry(pos).key() == before.entry(pos).key(),
        after.entry(pos).count() == before.entry(pos).count(),
        forall|i: int|
            0 <= i < before.entry(pos).count() ==> {
                &&& #[trigger] after.entry(pos).name(i) == before.entry(pos).name(i)
                &&& after.entry(pos).keys(i) == before.entry(pos).keys(i)
            },
{
    txn.lemma_ok();
    assert(before.commits(after, pos, txn.pending(pos), txn.writes_at()));
    assert forall|i: int| 0 <= i < before.entry(pos).count() implies {
        &&& #[trigger] after.entry(pos).name(i) == before.entry(pos).name(i)
        &&& after.entry(pos).keys(i) == before.entry(pos).keys(i)
    } by {
        assert(after.entry(pos).name(i) == before.entry(pos).name(i));
    }
}

/// A reader keeps its versions: a commit that loads nothing takes from what an
/// open reader is handed only versions at or below the compaction bound, the
/// oldest ones, and adds none.
pub proof fn a_reader_keeps_its_versions<V, P, X>(
    before: &Db<V, P, X>,
    after: &Db<V, P, X>,
    txn: &WriteTxn<V>,
    table: &Table<V>,
    reader: &ReadTxn,
    k: Seq<u8>,
) -> (gone: int) where P: Fn(&V) -> Key, X: Fn(&V) -> Vec<Key>
    requires
        before.wf(),
        before.admits(txn),
        before.publishes(after, txn),
        !commit::any_load(txn),
        before.owns(table),
        before.bound() <= reader.at() <= before.head(),
    ensures
        ({
            let was = before.recounts(table, reader, k);
            let is = after.recounts(table, reader, k);
            &&& 0 <= gone <= was.len()
            &&& is == was.subrange(gone, was.len() as int)
            &&& forall|i: int| 0 <= i < gone ==> (#[trigger] was[i]).revision <= before.bound()
            &&& was.len() > 0 ==> gone < was.len()
        }),
        after.sees(table, reader, k) == before.sees(table, reader, k),
{
    let gone = laws::versions_go_only_when_released(
        before,
        after,
        txn,
        table.at(),
        k,
        reader.at(),
    );
    laws::snapshots_hold(before, after, txn, table, reader);
    let was = before.recounts(table, reader, k);
    let is = after.recounts(table, reader, k);
    if was.len() > 0 && gone >= was.len() {
        let pos = table.at();
        let ws = txn.pending(pos);
        let h = before.entry(pos).history(k);
        txn.lemma_ok();
        assert(before.commits(after, pos, ws, txn.writes_at()));
        row::lemma_seen(h, reader.at());
        row::lemma_seen(after.entry(pos).history(k), reader.at());
        if let Some(w) = pending::written(ws, k) {
            let i = pending::place_of(ws, k);
            assert(entry::timely(txn.pending(pos)[i], txn.writes_at()));
            laws::lemma_not_loaded(txn, pos, i);
            row::lemma_grown(h, w.wrote->0, before.bound(), reader.at());
        }
        assert(row::version_at(after.entry(pos).history(k), reader.at()) == row::version_at(
            h,
            reader.at(),
        ));
        assert(row::version_at(h, reader.at()) is Some);
        assert(is.len() > 0);
    }
    gone
}

/// A commit leaves what the readers of a key it does not touch are handed, at
/// whatever revision, as it was.
pub proof fn an_untouched_key_keeps_its_versions<V, P, X>(
    before: &Db<V, P, X>,
    after: &Db<V, P, X>,
    txn: &WriteTxn<V>,
    table: &Table<V>,
    reader: &ReadTxn,
    k: Seq<u8>,
) where P: Fn(&V) -> Key, X: Fn(&V) -> Vec<Key>
    requires
        before.publishes(after, txn),
        before.owns(table),
        pending::written(txn.pending(table.at()), k) is None,
    ensures
        after.recounts(table, reader, k) == before.recounts(table, reader, k),
        after.sees(table, reader, k) == before.sees(table, reader, k),
{
    assert(before.commits(after, table.at(), txn.pending(table.at()), txn.writes_at()));
    assert(after.entry(table.at()).history(k) == before.entry(table.at()).history(k));
}

// --------------------------------------------------------------- a compaction

/// A compaction raises the bound to the revision it is given, never lowers it,
/// and moves no other revision.
pub proof fn a_compaction_raises_the_bound<V, P, X>(
    before: &Db<V, P, X>,
    after: &Db<V, P, X>,
    rev: Revision,
    pos: int,
) where P: Fn(&V) -> Key, X: Fn(&V) -> Vec<Key>
    requires
        before.releases(after, rev),
        0 <= pos < before.count(),
    ensures
        after.bound() >= rev,
        after.bound() >= before.bound(),
        after.bound() == rev || after.bound() == before.bound(),
        after.head() == before.head(),
        after.loaded_at() == before.loaded_at(),
        after.tag() == before.tag(),
        after.line() == before.line(),
        after.told() == before.told(),
        after.stuck() == before.stuck(),
        after.count() == before.count(),
        after.entry(pos).counters().revision == before.entry(pos).counters().revision,
        after.entry(pos).key() == before.entry(pos).key(),
        after.entry(pos).count() == before.entry(pos).count(),
        forall|i: int|
            0 <= i < before.entry(pos).count() ==> {
                &&& #[trigger] after.entry(pos).name(i) == before.entry(pos).name(i)
                &&& after.entry(pos).keys(i) == before.entry(pos).keys(i)
            },
{
    assert(before.compacts(after, pos, after.bound()));
    assert forall|i: int| 0 <= i < before.entry(pos).count() implies {
        &&& #[trigger] after.entry(pos).name(i) == before.entry(pos).name(i)
        &&& after.entry(pos).keys(i) == before.entry(pos).keys(i)
    } by {
        assert(after.entry(pos).name(i) == before.entry(pos).name(i));
    }
}

/// A compaction takes a key's versions all or none: it takes them where the last
/// one is a tombstone at or below the bound, and leaves them everywhere else.
pub proof fn a_compaction_takes_what_is_deleted<V, P, X>(
    before: &Db<V, P, X>,
    after: &Db<V, P, X>,
    rev: Revision,
    table: &Table<V>,
    reader: &ReadTxn,
    k: Seq<u8>,
) where P: Fn(&V) -> Key, X: Fn(&V) -> Vec<Key>
    requires
        before.wf(),
        before.releases(after, rev),
        before.owns(table),
        before.head() <= reader.at(),
    ensures
        ({
            let was = before.recounts(table, reader, k);
            let is = after.recounts(table, reader, k);
            if was.len() > 0 && was[was.len() - 1].deleted && was[was.len() - 1].revision
                <= after.bound() {
                is.len() == 0
            } else {
                is == was
            }
        }),
        after.sees(table, reader, k) == before.sees(table, reader, k),
{
    let pos = table.at();
    before.lemma_wf();
    assert(before.compacts(after, pos, after.bound()));
    let t = before.entry(pos);
    assert(t.sound(before.head(), before.floor()));
    let h = t.history(k);
    assert(row::capped(h, before.head()));
    assert(row::capped(h, reader.at()));
    lemma_whole(h, reader.at());
    assert(after.entry(pos).history(k) == after.entry(pos).history(k));
    laws::compaction_spares_readers(before, after, rev, table, reader);
}

/// A reader at or above the new bound keeps its versions through a compaction,
/// unless the last of them is a tombstone at or below the bound.
pub proof fn a_compaction_spares_a_readers_versions<V, P, X>(
    before: &Db<V, P, X>,
    after: &Db<V, P, X>,
    rev: Revision,
    table: &Table<V>,
    reader: &ReadTxn,
    k: Seq<u8>,
) where P: Fn(&V) -> Key, X: Fn(&V) -> Vec<Key>
    requires
        before.wf(),
        before.releases(after, rev),
        before.owns(table),
        after.bound() <= reader.at(),
    ensures
        ({
            let was = before.recounts(table, reader, k);
            let is = after.recounts(table, reader, k);
            ||| is == was
            ||| {
                &&& is.len() == 0
                &&& was.len() > 0
                &&& was[was.len() - 1].deleted
                &&& was[was.len() - 1].revision <= after.bound()
            }
        }),
        after.sees(table, reader, k) == before.sees(table, reader, k),
{
    let pos = table.at();
    before.lemma_wf();
    assert(before.compacts(after, pos, after.bound()));
    let t = before.entry(pos);
    assert(t.sound(before.head(), before.floor()));
    let h = t.history(k);
    assert(after.entry(pos).history(k) == after.entry(pos).history(k));
    row::lemma_seen(h, reader.at());
    if row::buried_by(h, after.bound()) {
        assert forall|j: int| h.len() - 1 < j < h.len() implies (#[trigger] h[j]).revision
            > reader.at() by {}
        row::lemma_seen_is(h, reader.at(), h.len() - 1);
    }
    laws::compaction_spares_readers(before, after, rev, table, reader);
}

// ---------------------------------------------------------------------- scans

/// A list of what a snapshot sees, as it is handed out: in the order of the keys,
/// every entry is what a get of its key gives, and is one the scan is for, and
/// every key the scan is for that a get finds is listed.
proof fn lemma_scan<V, P, X, S: Snapshot<V>>(
    db: &Db<V, P, X>,
    table: &Table<V>,
    txn: &S,
    from: Seq<u8>,
    under: Option<Seq<u8>>,
    list: Seq<(Key, Arc<V>, Revision)>,
) where P: Fn(&V) -> Key, X: Fn(&V) -> Vec<Key>
    requires
        db.lists(table, txn, from, under, list),
    ensures
        forall|i: int, j: int|
            0 <= i < j < list.len() ==> bytes::lt((#[trigger] list[i]).0@, (#[trigger] list[j]).0@),
        forall|i: int|
            0 <= i < list.len() ==> {
                let (key, value, revision) = #[trigger] list[i];
                &&& db.sees(table, txn, key@) == Some((value, revision))
                &&& crate::db::scan::wanted(key@, from, under)
            },
        forall|k: Seq<u8>|
            #[trigger] db.sees(table, txn, k) is Some && crate::db::scan::wanted(k, from, under)
                ==> exists|i: int| 0 <= i < list.len() && (#[trigger] list[i]).0@ == k,
{
    let e = crate::db::scan::shown(list);
    assert forall|i: int, j: int| 0 <= i < j < list.len() implies bytes::lt(
        (#[trigger] list[i]).0@,
        (#[trigger] list[j]).0@,
    ) by {
        assert(bytes::lt(e[i].0, e[j].0));
    }
    assert forall|i: int| 0 <= i < list.len() implies {
        let (key, value, revision) = #[trigger] list[i];
        &&& db.sees(table, txn, key@) == Some((value, revision))
        &&& crate::db::scan::wanted(key@, from, under)
    } by {
        entries::lemma_found(e, i);
        assert(e[i].0 == list[i].0@);
    }
    assert forall|k: Seq<u8>|
        #[trigger] db.sees(table, txn, k) is Some && crate::db::scan::wanted(
            k,
            from,
            under,
        ) implies exists|i: int| 0 <= i < list.len() && (#[trigger] list[i]).0@ == k by {
        assert(entries::get(e, k) is Some);
        let i = entries::lemma_get_index(e, k);
        assert(list[i].0@ == k);
    }
}

/// A lower bound lists, in the order of the keys, every key at or after it that
/// the snapshot has something at, with what a get of the key gives, and no other.
pub proof fn a_lower_bound_lists_every_key_from_there<V, P, X, S: Snapshot<V>>(
    db: &Db<V, P, X>,
    table: &Table<V>,
    txn: &S,
    from: Seq<u8>,
    list: Seq<(Key, Arc<V>, Revision)>,
) where P: Fn(&V) -> Key, X: Fn(&V) -> Vec<Key>
    requires
        db.lists(table, txn, from, None, list),
    ensures
        forall|i: int, j: int|
            0 <= i < j < list.len() ==> bytes::lt((#[trigger] list[i]).0@, (#[trigger] list[j]).0@),
        forall|i: int|
            0 <= i < list.len() ==> {
                let (key, value, revision) = #[trigger] list[i];
                &&& !bytes::lt(key@, from)
                &&& db.sees(table, txn, key@) == Some((value, revision))
            },
        forall|k: Seq<u8>|
            #[trigger] db.sees(table, txn, k) is Some && !bytes::lt(k, from) ==> exists|i: int|
                0 <= i < list.len() && (#[trigger] list[i]).0@ == k,
{
    lemma_scan(db, table, txn, from, None, list);
}

/// A prefix search lists, in the order of the keys, every key that is at least
/// as long as the prefix, agrees with it in each of its bytes and has something
/// the snapshot sees at it, with what a get of the key gives, and no other.
pub proof fn a_prefix_lists_every_key_under_it<V, P, X, S: Snapshot<V>>(
    db: &Db<V, P, X>,
    table: &Table<V>,
    txn: &S,
    prefix: Seq<u8>,
    list: Seq<(Key, Arc<V>, Revision)>,
) where P: Fn(&V) -> Key, X: Fn(&V) -> Vec<Key>
    requires
        db.lists(table, txn, prefix, Some(prefix), list),
    ensures
        forall|i: int, j: int|
            0 <= i < j < list.len() ==> bytes::lt((#[trigger] list[i]).0@, (#[trigger] list[j]).0@),
        forall|i: int|
            0 <= i < list.len() ==> {
                let (key, value, revision) = #[trigger] list[i];
                &&& prefix.len() <= key@.len()
                &&& forall|x: int| 0 <= x < prefix.len() ==> #[trigger] key@[x] == prefix[x]
                &&& db.sees(table, txn, key@) == Some((value, revision))
            },
        forall|k: Seq<u8>|
            #[trigger] db.sees(table, txn, k) is Some && prefix.len() <= k.len() && (forall|x: int|
                0 <= x < prefix.len() ==> #[trigger] k[x] == prefix[x]) ==> exists|i: int|
                0 <= i < list.len() && (#[trigger] list[i]).0@ == k,
{
    lemma_scan(db, table, txn, prefix, Some(prefix), list);
    assert forall|i: int| 0 <= i < list.len() implies {
        let (key, value, revision) = #[trigger] list[i];
        &&& prefix.len() <= key@.len()
        &&& forall|x: int| 0 <= x < prefix.len() ==> #[trigger] key@[x] == prefix[x]
        &&& db.sees(table, txn, key@) == Some((value, revision))
    } by {
        tree_laws::prefix_is_bytewise(list[i].0@, prefix);
    }
    assert forall|k: Seq<u8>|
        #[trigger] db.sees(table, txn, k) is Some && prefix.len() <= k.len() && (forall|x: int|
            0 <= x < prefix.len() ==> #[trigger] k[x] == prefix[x]) implies exists|i: int|
        0 <= i < list.len() && (#[trigger] list[i]).0@ == k by {
        tree_laws::prefix_is_bytewise(k, prefix);
        bytes::lemma_begins_le(prefix, k);
    }
}

/// A whole scan lists, in the order of the keys, every key the snapshot has
/// something at, with what a get of the key gives, and no other.
pub proof fn a_whole_scan_lists_every_key<V, P, X, S: Snapshot<V>>(
    db: &Db<V, P, X>,
    table: &Table<V>,
    txn: &S,
    list: Seq<(Key, Arc<V>, Revision)>,
) where P: Fn(&V) -> Key, X: Fn(&V) -> Vec<Key>
    requires
        db.lists(table, txn, Seq::empty(), None, list),
    ensures
        forall|i: int, j: int|
            0 <= i < j < list.len() ==> bytes::lt((#[trigger] list[i]).0@, (#[trigger] list[j]).0@),
        forall|i: int|
            0 <= i < list.len() ==> {
                let (key, value, revision) = #[trigger] list[i];
                db.sees(table, txn, key@) == Some((value, revision))
            },
        forall|k: Seq<u8>| #[trigger]
            db.sees(table, txn, k) is Some ==> exists|i: int|
                0 <= i < list.len() && (#[trigger] list[i]).0@ == k,
{
    lemma_scan(db, table, txn, Seq::empty(), None, list);
    assert forall|k: Seq<u8>| #[trigger] db.sees(table, txn, k) is Some implies exists|i: int|
        0 <= i < list.len() && (#[trigger] list[i]).0@ == k by {
        bytes::lemma_empty_first(k);
    }
}

// -------------------------------------------------------------------- indexes

/// An index search finds what is there: for a key of any length, a reader that
/// is not below the compaction bound nor the last load is handed, in the order
/// of the primary keys, exactly one entry for each primary key at which it gets
/// a value that the index function yields the key for, and the entry is that
/// value with its revision.
pub proof fn an_index_search_finds_every_value<V, P, X>(
    db: &Db<V, P, X>,
    table: &Table<V>,
    reader: &ReadTxn,
    i: int,
    k: Seq<u8>,
    out: Seq<(Arc<V>, Revision)>,
) -> (ps: Seq<Seq<u8>>) where P: Fn(&V) -> Key, X: Fn(&V) -> Vec<Key>
    requires
        db.wf(),
        db.owns(table),
        db.bound() <= reader.at() || db.head() <= reader.at(),
        db.loaded_at() <= reader.at(),
        0 <= i < db.entry(table.at()).count(),
        k.len() <= u32::MAX,
        db.entry(table.at()).answers(i, k, reader.at(), out),
    ensures
        ps.len() == out.len(),
        forall|a: int, b: int|
            0 <= a < b < ps.len() ==> bytes::lt(#[trigger] ps[a], #[trigger] ps[b]),
        forall|a: int|
            0 <= a < ps.len() ==> db.sees(table, reader, #[trigger] ps[a]) == Some(out[a]),
        forall|p: Seq<u8>| #[trigger]
            ps.contains(p) <==> (db.sees(table, reader, p) matches Some((value, _)) && exists|
                ks: Vec<Key>,
            | #[trigger]
                call_ensures(db.entry(table.at()).keys(i), (&*value,), ks) && exists|x: int|
                    0 <= x < ks@.len() && (#[trigger] ks@[x])@ == k),
{
    let t = db.entry(table.at());
    let at = reader.at();
    let ps = choose|ps: Seq<Seq<u8>>|
        {
            &&& #[trigger] bytes::ascending(ps)
            &&& ps.len() == out.len()
            &&& forall|p: Seq<u8>| ps.contains(p) <==> #[trigger] t.listed_at(i, k, p, at)
            &&& forall|j: int|
                0 <= j < ps.len() ==> row::live(t.history(#[trigger] ps[j]), at) == Some(out[j])
        };
    assert(bytes::ascending(ps));
    assert(db.floor() <= at);
    assert forall|p: Seq<u8>| #[trigger] ps.contains(p) <==> (db.sees(table, reader, p) matches Some(
        (value, _),
    ) && exists|ks: Vec<Key>| #[trigger]
        call_ensures(t.keys(i), (&*value,), ks) && exists|x: int|
            0 <= x < ks@.len() && (#[trigger] ks@[x])@ == k) by {
        laws::index_lists_what_is_seen(db, table, reader, i, k, p);
        assert(ps.contains(p) <==> t.listed_at(i, k, p, at));
        if let Some((value, r)) = db.sees(table, reader, p) {
            if listing::lists(t.keys(i), *value, k) {
                let ks = choose|ks: Vec<Key>| #[trigger]
                    call_ensures(t.keys(i), (&*value,), ks) && entries::among(ks@, k);
                let x = choose|x: int| 0 <= x < ks@.len() && (#[trigger] ks@[x])@ == k;
                assert(ks@[x]@ == k);
            }
            if exists|ks: Vec<Key>| #[trigger]
                call_ensures(t.keys(i), (&*value,), ks) && exists|x: int|
                    0 <= x < ks@.len() && (#[trigger] ks@[x])@ == k {
                let ks = choose|ks: Vec<Key>| #[trigger]
                    call_ensures(t.keys(i), (&*value,), ks) && exists|x: int|
                        0 <= x < ks@.len() && (#[trigger] ks@[x])@ == k;
                assert(entries::among(ks@, k));
            }
        }
    }
    ps
}

// -------------------------------------------------------------------- changes

/// A transaction keeps its writes in the order the keys were first written: a
/// key it writes for the first time comes after the rest, and one it writes
/// again keeps its place.
pub proof fn writes_keep_their_order<V>(
    before: &WriteTxn<V>,
    after: &WriteTxn<V>,
    pos: int,
    key: Seq<u8>,
    version: Version<V>,
)
    requires
        before.ok(),
        rewrites(before, after, pos, pending::with_write(before.pending(pos), key, version)),
    ensures
        ({
            let (ws, ns) = (before.pending(pos), after.pending(pos));
            &&& forall|k: Seq<u8>|
                k != key ==> #[trigger] pending::place_of(ns, k) == pending::place_of(ws, k)
            &&& pending::written(ws, key) is Some ==> ns.len() == ws.len() && pending::place_of(
                ns,
                key,
            ) == pending::place_of(ws, key)
            &&& pending::written(ws, key) is None ==> ns.len() == ws.len() + 1
                && pending::place_of(ns, key) == ws.len()
        }),
{
    before.lemma_ok();
    let ws = before.pending(pos);
    assert(pending::distinct(ws));
    let w = Write { key, loaded: pending::loaded_at(ws, key), wrote: Some(version) };
    if pending::place_of(ws, key) >= 0 {
        let i = pending::place_of(ws, key);
        assert(ws[i].wf());
        pending::lemma_same_places(ws, w);
    } else {
        pending::lemma_one_more(ws, w);
    }
}

/// Where each change of a list of writes comes from.
proof fn lemma_news_from<V>(ws: Seq<Write<V>>, revision: Revision) -> (at: Seq<int>)
    ensures
        at.len() == laws::news(ws, revision).len(),
        forall|j: int|
            #![trigger at[j]]
            0 <= j < at.len() ==> {
                let told = laws::news(ws, revision)[j];
                &&& 0 <= at[j] < ws.len()
                &&& ws[at[j]].wrote matches Some(v) && told.key == ws[at[j]].key && told.value
                    == v.value && told.deleted == v.deleted && told.revision == revision
            },
        forall|i: int, j: int|
            #![trigger at[i], at[j]]
            0 <= i < j < at.len() ==> at[i] < at[j],
        forall|x: int|
            0 <= x < ws.len() && (#[trigger] ws[x]).wrote is Some ==> at.contains(x),
    decreases ws.len(),
{
    if ws.len() == 0 {
        Seq::empty()
    } else {
        let p = ws.drop_last();
        let n = ws.len() - 1;
        let before = lemma_news_from(p, revision);
        let told = laws::news(p, revision);
        assert forall|j: int| 0 <= j < before.len() implies ws[#[trigger] before[j]]
            == p[before[j]] by {}
        if ws[n].wrote is Some {
            let at = before.push(n);
            assert(laws::news(ws, revision).drop_last() =~= told);
            assert forall|j: int| 0 <= j < before.len() implies laws::news(ws, revision)[j]
                == #[trigger] told[j] by {}
            assert forall|j: int|
                #![trigger at[j]]
                0 <= j < at.len() implies {
                let told = laws::news(ws, revision)[j];
                &&& 0 <= at[j] < ws.len()
                &&& ws[at[j]].wrote matches Some(v) && told.key == ws[at[j]].key && told.value
                    == v.value && told.deleted == v.deleted && told.revision == revision
            } by {
                if j < before.len() {
                    assert(at[j] == before[j]);
                    assert(laws::news(ws, revision)[j] == told[j]);
                }
            }
            assert forall|x: int|
                0 <= x < ws.len() && (#[trigger] ws[x]).wrote is Some implies at.contains(x) by {
                if x < n {
                    assert(p[x] == ws[x]);
                    assert(before.contains(x));
                    let y = choose|y: int| 0 <= y < before.len() && before[y] == x;
                    assert(at[y] == x);
                } else {
                    assert(at[before.len() as int] == x);
                }
            }
            at
        } else {
            assert forall|x: int|
                0 <= x < ws.len() && (#[trigger] ws[x]).wrote is Some implies before.contains(
                x,
            ) by {
                assert(p[x] == ws[x]);
            }
            before
        }
    }
}

/// A commit is told as it was written: a reader that was up to date is told of
/// each key the transaction inserted or deleted, once and in the order they were
/// first written, with the last version the transaction was handed there: its
/// value, its revision, and whether it is a deletion. It is told of no other.
pub proof fn a_commit_is_told_as_it_was_written<V, P, X>(
    before: &Db<V, P, X>,
    after: &Db<V, P, X>,
    txn: &WriteTxn<V>,
    table: &Table<V>,
    observed: Revision,
    list: Seq<Change<V>>,
) where P: Fn(&V) -> Key, X: Fn(&V) -> Vec<Key>
    requires
        before.wf(),
        before.admits(txn),
        before.publishes(after, txn),
        before.owns(table),
        before.entry(table.at()).counters().revision <= observed <= before.head(),
        stream::told(list) == stream::reported(
            &after.entry(table.at()),
            after.records(table.at()),
            observed,
            after.head(),
        ),
    ensures
        forall|i: int|
            0 <= i < list.len() ==> {
                let change = #[trigger] list[i];
                let vs = before.recounts(table, txn, change.key@);
                &&& change.revision == txn.writes_at()
                &&& vs.len() > 0
                &&& vs[vs.len() - 1].revision == change.revision
                &&& vs[vs.len() - 1].value == change.value
                &&& vs[vs.len() - 1].deleted == change.deleted
                &&& pending::written(txn.pending(table.at()), change.key@) matches Some(w)
                    && w.wrote is Some
            },
        forall|k: Seq<u8>|
            (#[trigger] pending::written(txn.pending(table.at()), k) matches Some(w) && w.wrote
                is Some) ==> exists|i: int| 0 <= i < list.len() && (#[trigger] list[i]).key@ == k,
        forall|i: int, j: int|
            0 <= i < j < list.len() ==> {
                &&& (#[trigger] list[i]).key@ != (#[trigger] list[j]).key@
                &&& pending::place_of(txn.pending(table.at()), list[i].key@) < pending::place_of(
                    txn.pending(table.at()),
                    list[j].key@,
                )
            },
{
    let pos = table.at();
    let ws = txn.pending(pos);
    let revision = txn.writes_at();
    txn.lemma_ok();
    laws::reader_is_told_of_a_commit(before, after, txn, pos, observed);
    let news = laws::news(ws, revision);
    let at = lemma_news_from(ws, revision);
    assert(stream::told(list) == news);
    assert(list.len() == news.len());
    assert forall|i: int| 0 <= i < list.len() implies (#[trigger] list[i])@ == news[i] by {
        assert(stream::told(list)[i] == list[i]@);
    }
    assert(pending::distinct(ws));
    assert forall|i: int| 0 <= i < list.len() implies {
        let change = #[trigger] list[i];
        &&& pending::place_of(ws, change.key@) == at[i]
        &&& pending::written(ws, change.key@) == Some(ws[at[i]])
    } by {
        assert(list[i]@ == news[i]);
        pending::lemma_place(ws, at[i]);
    }
    assert forall|i: int| 0 <= i < list.len() implies {
        let change = #[trigger] list[i];
        let vs = before.recounts(table, txn, change.key@);
        &&& change.revision == txn.writes_at()
        &&& vs.len() > 0
        &&& vs[vs.len() - 1].revision == change.revision
        &&& vs[vs.len() - 1].value == change.value
        &&& vs[vs.len() - 1].deleted == change.deleted
        &&& pending::written(txn.pending(table.at()), change.key@) matches Some(w) && w.wrote
            is Some
    } by {
        assert(list[i]@ == news[i]);
        assert(entry::timely(txn.pending(pos)[at[i]], revision));
        assert(ws[at[i]].wrote is Some);
    }
    assert forall|k: Seq<u8>|
        (#[trigger] pending::written(txn.pending(table.at()), k) matches Some(w) && w.wrote
            is Some) implies exists|i: int|
        0 <= i < list.len() && (#[trigger] list[i]).key@ == k by {
        let x = pending::place_of(ws, k);
        assert(ws[x].wrote is Some && ws[x].key == k);
        assert(at.contains(x));
        let i = choose|i: int| 0 <= i < at.len() && at[i] == x;
        assert(list[i]@ == news[i]);
        assert(list[i].key@ == k);
    }
    assert forall|i: int, j: int| 0 <= i < j < list.len() implies {
        &&& (#[trigger] list[i]).key@ != (#[trigger] list[j]).key@
        &&& pending::place_of(ws, list[i].key@) < pending::place_of(ws, list[j].key@)
    } by {
        assert(at[i] < at[j]);
    }
}

/// One write is told once: if a transaction's one write to a table left
/// `version` at `key`, a reader that was up to date is told exactly that.
pub proof fn one_write_is_told_once<V, P, X>(
    before: &Db<V, P, X>,
    after: &Db<V, P, X>,
    opened: &WriteTxn<V>,
    txn: &WriteTxn<V>,
    table: &Table<V>,
    key: Seq<u8>,
    version: Version<V>,
    observed: Revision,
    list: Seq<Change<V>>,
) where P: Fn(&V) -> Key, X: Fn(&V) -> Vec<Key>
    requires
        before.wf(),
        before.takes_writes(table, opened),
        opened.pending(table.at()).len() == 0,
        rewrites(
            opened,
            txn,
            table.at(),
            pending::with_write(opened.pending(table.at()), key, version),
        ),
        before.admits(txn),
        before.publishes(after, txn),
        before.entry(table.at()).counters().revision <= observed <= before.head(),
        stream::told(list) == stream::reported(
            &after.entry(table.at()),
            after.records(table.at()),
            observed,
            after.head(),
        ),
    ensures
        list.len() == 1,
        list[0].key@ == key,
        list[0].value == version.value,
        list[0].revision == version.revision,
        list[0].deleted == version.deleted,
{
    a_write_is_read_back(before, opened, txn, table, key, version);
    a_commit_is_told_as_it_was_written(before, after, txn, table, observed, list);
    let ws = opened.pending(table.at());
    assert(pending::written(txn.pending(table.at()), key) is Some);
    let i = choose|i: int| 0 <= i < list.len() && (#[trigger] list[i]).key@ == key;
    assert forall|j: int| 0 <= j < list.len() implies (#[trigger] list[j]).key@ == key by {
        if list[j].key@ != key {
            assert(pending::written(txn.pending(table.at()), list[j].key@) == pending::written(
                ws,
                list[j].key@,
            ));
            assert(pending::place_of(ws, list[j].key@) < 0);
        }
    }
    if list.len() > 1 {
        assert(list[0].key@ != list[1].key@);
    }
    let vs = before.recounts(table, txn, key);
    assert(vs[vs.len() - 1] == version);
}

/// The record a change comes from.
proof fn lemma_reported_from<V, P, X>(
    t: &entry::TableEntry<V, P, X>,
    rs: Seq<record::Record>,
    observed: Revision,
    at: Revision,
    j: int,
) -> (x: int) where P: Fn(&V) -> Key, X: Fn(&V) -> Vec<Key>
    requires
        0 <= j < stream::reported(t, rs, observed, at).len(),
    ensures
        0 <= x < rs.len(),
        stream::tells(t, rs[x], observed, at) == Some(stream::reported(t, rs, observed, at)[j]),
    decreases rs.len(),
{
    let p = rs.drop_last();
    let n = rs.len() - 1;
    if j < stream::reported(t, p, observed, at).len() {
        let x = lemma_reported_from(t, p, observed, at, j);
        assert(p[x] == rs[x]);
        x
    } else {
        n
    }
}

/// A record that tells something tells it.
proof fn lemma_reported_to<V, P, X>(
    t: &entry::TableEntry<V, P, X>,
    rs: Seq<record::Record>,
    observed: Revision,
    at: Revision,
    x: int,
) -> (j: int) where P: Fn(&V) -> Key, X: Fn(&V) -> Vec<Key>
    requires
        0 <= x < rs.len(),
        stream::tells(t, rs[x], observed, at) is Some,
    ensures
        0 <= j < stream::reported(t, rs, observed, at).len(),
        stream::tells(t, rs[x], observed, at) == Some(stream::reported(t, rs, observed, at)[j]),
    decreases rs.len(),
{
    let p = rs.drop_last();
    let n = rs.len() - 1;
    if x < n {
        assert(p[x] == rs[x]);
        lemma_reported_to(t, p, observed, at, x)
    } else {
        stream::reported(t, p, observed, at).len() as int
    }
}

/// The version of one commit is one of the versions, at that revision.
proof fn lemma_exactly_index<V>(h: History<V>, revision: Revision) -> (i: int)
    requires
        row::exactly(h, revision) is Some,
    ensures
        0 <= i < h.len(),
        row::exactly(h, revision) == Some(h[i]),
        h[i].revision == revision,
    decreases h.len(),
{
    if h.last().revision == revision {
        h.len() - 1
    } else {
        lemma_exactly_index(h.drop_last(), revision)
    }
}

/// What is told was written: every change a reader is told is a version its key
/// has, past what the reader had read and no later than where it reads, and is
/// among the versions a reader there is handed. The changes come in the order of
/// their revisions, and no key comes twice at one.
pub proof fn what_is_told_was_written<V, P, X>(
    db: &Db<V, P, X>,
    table: &Table<V>,
    observed: Revision,
    reader: &ReadTxn,
    list: Seq<Change<V>>,
) where P: Fn(&V) -> Key, X: Fn(&V) -> Vec<Key>
    requires
        db.wf(),
        db.owns(table),
        stream::told(list) == stream::reported(
            &db.entry(table.at()),
            db.records(table.at()),
            observed,
            reader.at(),
        ),
    ensures
        forall|i: int|
            0 <= i < list.len() ==> {
                let change = #[trigger] list[i];
                let vs = db.recounts(table, reader, change.key@);
                &&& observed < change.revision <= reader.at()
                &&& exists|x: int|
                    {
                        &&& 0 <= x < vs.len()
                        &&& (#[trigger] vs[x]).revision == change.revision
                        &&& vs[x].value == change.value
                        &&& vs[x].deleted == change.deleted
                    }
            },
        forall|i: int, j: int|
            0 <= i < j < list.len() ==> {
                &&& (#[trigger] list[i]).revision <= (#[trigger] list[j]).revision
                &&& list[i].revision != list[j].revision || list[i].key@ != list[j].key@
            },
{
    let pos = table.at();
    let t = db.entry(pos);
    let rs = db.records(pos);
    let told = stream::reported(&t, rs, observed, reader.at());
    laws::told_in_order(db, pos, observed, reader.at());
    assert forall|i: int| 0 <= i < list.len() implies (#[trigger] list[i])@ == told[i] by {
        assert(stream::told(list)[i] == list[i]@);
    }
    assert(list.len() == told.len());
    assert forall|i: int| 0 <= i < list.len() implies {
        let change = #[trigger] list[i];
        let vs = db.recounts(table, reader, change.key@);
        &&& observed < change.revision <= reader.at()
        &&& exists|x: int|
            {
                &&& 0 <= x < vs.len()
                &&& (#[trigger] vs[x]).revision == change.revision
                &&& vs[x].value == change.value
                &&& vs[x].deleted == change.deleted
            }
    } by {
        assert(list[i]@ == told[i]);
        let x = lemma_reported_from(&t, rs, observed, reader.at(), i);
        let r = rs[x];
        let h = t.history(r.key);
        let y = lemma_exactly_index(h, r.revision as Revision);
        row::lemma_seen(h, reader.at());
        let vs = db.recounts(table, reader, list[i].key@);
        assert(vs =~= row::upto(h, reader.at()));
        assert(vs[y] == h[y]);
    }
    assert forall|i: int, j: int| 0 <= i < j < list.len() implies {
        &&& (#[trigger] list[i]).revision <= (#[trigger] list[j]).revision
        &&& list[i].revision != list[j].revision || list[i].key@ != list[j].key@
    } by {
        assert(list[i]@ == told[i] && list[j]@ == told[j]);
    }
}

/// Reading in two steps tells what reading at once does, change for change.
pub proof fn two_readings_are_one<V, P, X>(
    db: &Db<V, P, X>,
    pos: int,
    observed: Revision,
    mid: Revision,
    at: Revision,
    first: Seq<Change<V>>,
    second: Seq<Change<V>>,
    whole: Seq<Change<V>>,
) where P: Fn(&V) -> Key, X: Fn(&V) -> Vec<Key>
    requires
        db.wf(),
        0 <= pos < db.count(),
        observed <= mid <= at,
        stream::told(first) == stream::reported(&db.entry(pos), db.records(pos), observed, mid),
        stream::told(second) == stream::reported(&db.entry(pos), db.records(pos), mid, at),
        stream::told(whole) == stream::reported(&db.entry(pos), db.records(pos), observed, at),
    ensures
        whole.len() == first.len() + second.len(),
        forall|i: int|
            0 <= i < whole.len() ==> {
                let change = #[trigger] whole[i];
                let step = if i < first.len() {
                    first[i]
                } else {
                    second[i - first.len()]
                };
                &&& change.key@ == step.key@
                &&& change.value == step.value
                &&& change.revision == step.revision
                &&& change.deleted == step.deleted
            },
{
    laws::reads_add_up(db, pos, observed, mid, at);
    let (a, b, c) = (stream::told(first), stream::told(second), stream::told(whole));
    assert(c == a + b);
    assert(a.len() == first.len() && b.len() == second.len() && c.len() == whole.len());
    assert forall|i: int| 0 <= i < whole.len() implies {
        let change = #[trigger] whole[i];
        let step = if i < first.len() {
            first[i]
        } else {
            second[i - first.len()]
        };
        &&& change.key@ == step.key@
        &&& change.value == step.value
        &&& change.revision == step.revision
        &&& change.deleted == step.deleted
    } by {
        assert(c[i] == whole[i]@);
        if i < first.len() {
            assert(a[i] == first[i]@);
        } else {
            assert(b[i - first.len()] == second[i - first.len()]@);
        }
    }
}

/// A compaction fails the readers whose changes it takes: one that would have
/// been told a change at or below the new bound is failed from then on.
pub proof fn a_compaction_fails_who_it_takes_from<V, P, X>(
    before: &Db<V, P, X>,
    after: &Db<V, P, X>,
    rev: Revision,
    pos: int,
    observed: Revision,
    at: Revision,
    list: Seq<Change<V>>,
    i: int,
) where P: Fn(&V) -> Key, X: Fn(&V) -> Vec<Key>
    requires
        before.releases(after, rev),
        0 <= pos < before.count(),
        stream::told(list) == stream::reported(
            &before.entry(pos),
            before.records(pos),
            observed,
            at,
        ),
        0 <= i < list.len(),
        list[i].revision <= after.bound(),
    ensures
        observed < list[i].revision <= after.entry(pos).counters().lost,
{
    let bound = after.bound();
    let rs = before.records(pos);
    assert(before.compacts(after, pos, bound));
    let (t, u) = (before.entry(pos), after.entry(pos));
    let lost = choose|lost: Revision|
        {
            &&& #[trigger] record::highest_dropped(rs, bound, lost)
            &&& u.counters().lost == (if lost > t.counters().lost {
                lost
            } else {
                t.counters().lost
            })
        };
    assert(record::highest_dropped(rs, bound, lost));
    assert(stream::told(list)[i] == list[i]@);
    let x = lemma_reported_from(&t, rs, observed, at, i);
    assert(rs[x].revision <= lost);
}

/// A compaction fails no one else: a reader that was not failed before and is
/// after would have been told the very change it is failed for, which is at or
/// below the new bound.
pub proof fn a_compaction_fails_no_one_else<V, P, X>(
    before: &Db<V, P, X>,
    after: &Db<V, P, X>,
    rev: Revision,
    pos: int,
    observed: Revision,
    at: Revision,
    list: Seq<Change<V>>,
) where P: Fn(&V) -> Key, X: Fn(&V) -> Vec<Key>
    requires
        before.wf(),
        before.releases(after, rev),
        0 <= pos < before.count(),
        before.bound() <= observed,
        before.head() <= at,
        stream::told(list) == stream::reported(
            &before.entry(pos),
            before.records(pos),
            observed,
            at,
        ),
        before.entry(pos).counters().lost <= observed < after.entry(pos).counters().lost,
    ensures
        exists|i: int|
            {
                &&& 0 <= i < list.len()
                &&& (#[trigger] list[i]).revision == after.entry(pos).counters().lost
                &&& list[i].revision <= after.bound()
            },
{
    let bound = after.bound();
    let rs = before.records(pos);
    before.lemma_wf();
    assert(before.compacts(after, pos, bound));
    let (t, u) = (before.entry(pos), after.entry(pos));
    let lost = choose|lost: Revision|
        {
            &&& #[trigger] record::highest_dropped(rs, bound, lost)
            &&& u.counters().lost == (if lost > t.counters().lost {
                lost
            } else {
                t.counters().lost
            })
        };
    assert(record::highest_dropped(rs, bound, lost));
    let x = choose|x: int| 0 <= x < rs.len() && (#[trigger] rs[x]).revision == lost;
    assert(before.records(pos)[x].revision <= before.head());
    assert(before.resolves(pos, x));
    assert(stream::tells(&t, rs[x], observed, at) is Some);
    let i = lemma_reported_to(&t, rs, observed, at, x);
    assert(stream::told(list)[i] == list[i]@);
    assert(list[i].revision == lost);
}

/// A table holds change records from the first write to it until they are all
/// released: a commit that inserts or deletes leaves some, one that does not
/// leaves as many as there were, and a compaction at or past the last revision
/// leaves none.
pub proof fn a_table_holds_records_while_it_has_news<V, P, X>(
    before: &Db<V, P, X>,
    after: &Db<V, P, X>,
    txn: &WriteTxn<V>,
    pos: int,
) where P: Fn(&V) -> Key, X: Fn(&V) -> Vec<Key>
    requires
        before.admits(txn),
        before.publishes(after, txn),
        0 <= pos < before.count(),
    ensures
        after.records(pos).len() >= before.records(pos).len(),
        (exists|k: Seq<u8>|
            (#[trigger] pending::written(txn.pending(pos), k)) matches Some(w) && w.wrote is Some)
            <==> after.records(pos).len() > before.records(pos).len(),
{
    let ws = txn.pending(pos);
    let revision = txn.writes_at();
    txn.lemma_ok();
    assert(pending::distinct(ws));
    assert(before.commits(after, pos, ws, revision));
    let fresh = entry::fresh(ws, revision);
    if exists|k: Seq<u8>|
        (#[trigger] pending::written(ws, k)) matches Some(w) && w.wrote is Some {
        let k = choose|k: Seq<u8>|
            (#[trigger] pending::written(ws, k)) matches Some(w) && w.wrote is Some;
        laws::one_record_per_key(ws, revision, k);
    }
    if fresh.len() > 0 {
        let k = fresh[0].key;
        laws::one_record_per_key(ws, revision, k);
        assert(fresh[0].key == k);
        assert(pending::written(ws, k) matches Some(w) && w.wrote is Some);
    }
}

/// A compaction at or past the last revision leaves no change record, and a
/// table without one is told of nothing.
pub proof fn a_full_compaction_leaves_no_records<V, P, X>(
    before: &Db<V, P, X>,
    after: &Db<V, P, X>,
    rev: Revision,
    pos: int,
    observed: Revision,
    at: Revision,
) where P: Fn(&V) -> Key, X: Fn(&V) -> Vec<Key>
    requires
        before.wf(),
        before.releases(after, rev),
        0 <= pos < before.count(),
        before.head() <= after.bound(),
    ensures
        after.records(pos).len() == 0,
        stream::reported(&after.entry(pos), after.records(pos), observed, at).len() == 0,
{
    before.lemma_wf();
    laws::compaction_takes_everything(before, after, rev);
    assert(laws::released_at(after, pos));
    assert(before.compacts(after, pos, after.bound()));
    let rs = after.records(pos);
    if rs.len() > 0 {
        let x = crate::db::lemma_kept_from(before.records(pos), after.bound(), 0);
        assert(before.records(pos)[x].revision <= before.head());
    }
}

// -------------------------------------------------------------------- watches

/// A watch reports exactly what is past the revision it was taken at: one taken
/// where what it covers stands reports nothing yet.
pub proof fn a_watch_reports_what_is_past_it<V, P, X>(
    db: &Db<V, P, X>,
    watch: &Watch,
    now: Revision,
) where P: Fn(&V) -> Key, X: Fn(&V) -> Vec<Key>
    ensures
        watch.behind(now) <==> now > watch.since(),
        watch.since() == db.stands(watch.scope()) ==> !watch.behind(db.stands(watch.scope())),
        db.stands(Covers::Db) == db.head(),
{
}

/// What a watch on a table goes by is the revision of the last commit that
/// changed the table.
pub proof fn a_table_watch_goes_by_the_table<V, P, X>(db: &Db<V, P, X>, pos: usize) where
    P: Fn(&V) -> Key,
    X: Fn(&V) -> Vec<Key>,

    requires
        db.wf(),
        pos < db.count(),
    ensures
        db.stands(Covers::Table(pos)) == db.entry(pos as int).counters().revision,
{
    db.lemma_wf();
    let t = db.entry(pos as int);
    assert(t.counters().revision <= db.head());
}

// ------------------------------------------------------- what a call asks for

/// A read asks for a table and a reader of the database it reads, and for
/// nothing else.
pub proof fn what_a_read_asks_for<V, P, X>(db: &Db<V, P, X>, table: &Table<V>, reader: &ReadTxn) where
    P: Fn(&V) -> Key,
    X: Fn(&V) -> Vec<Key>,

    ensures
        db.wf() ==> db.readable(),
        db.owns(table) <==> table.db() == db.tag() && 0 <= table.at() < db.count(),
        db.serves(table, reader) <==> {
            &&& table.db() == db.tag()
            &&& 0 <= table.at() < db.count()
            &&& reader.db() == db.tag()
        },
{
}

/// A write asks for a table of the database the transaction was opened on, which
/// was there by then, and for nothing else. A read through the transaction asks
/// for a table of that database.
pub proof fn what_a_write_asks_for<V, P, X>(
    db: &Db<V, P, X>,
    table: &Table<V>,
    txn: &WriteTxn<V>,
) where P: Fn(&V) -> Key, X: Fn(&V) -> Vec<Key>
    requires
        txn.ok(),
    ensures
        db.takes_writes(table, txn) <==> {
            &&& table.db() == db.tag()
            &&& 0 <= table.at() < db.count()
            &&& table.at() < txn.width()
            &&& txn.source() == db.tag()
        },
        db.serves(table, txn) <==> {
            &&& table.db() == db.tag()
            &&& 0 <= table.at() < db.count()
            &&& txn.source() == db.tag()
        },
{
}

/// A commit asks for a transaction of this database that nothing was committed
/// since, whose writes can be counted, and that loads nothing into a table that
/// holds change records, and for nothing else.
pub proof fn what_a_commit_asks_for<V, P, X>(db: &Db<V, P, X>, txn: &WriteTxn<V>) where
    P: Fn(&V) -> Key,
    X: Fn(&V) -> Vec<Key>,

    ensures
        db.admits(txn) <==> {
            &&& txn.ok()
            &&& txn.source() == db.tag()
            &&& txn.opened_at() == db.head()
            &&& txn.width() <= db.count()
            &&& txn.size() <= u32::MAX
            &&& forall|pos: int, i: int|
                0 <= pos < txn.width() && 0 <= i < txn.pending(pos).len() && (
                #[trigger] txn.pending(pos)[i]).loaded is Some ==> db.records(pos).len() == 0
        },
{
    if forall|pos: int, i: int|
        0 <= pos < txn.width() && 0 <= i < txn.pending(pos).len() && (#[trigger] txn.pending(
            pos,
        )[i]).loaded is Some ==> db.records(pos).len() == 0 {
        assert forall|pos: int|
            0 <= pos < txn.width() && #[trigger] txn.loads(pos) implies db.records(pos).len()
            == 0 by {
            let i = choose|i: int|
                0 <= i < txn.pending(pos).len() && (#[trigger] txn.pending(pos)[i]).loaded is Some;
            assert(txn.pending(pos)[i].loaded is Some);
        }
    }
    if db.admits(txn) {
        assert forall|pos: int, i: int|
            0 <= pos < txn.width() && 0 <= i < txn.pending(pos).len() && (#[trigger] txn.pending(
                pos,
            )[i]).loaded is Some implies db.records(pos).len() == 0 by {
            assert(txn.loads(pos));
        }
    }
}

/// Every write a transaction has buffered counts.
pub proof fn every_write_counts<V>(txn: &WriteTxn<V>, pos: int)
    requires
        0 <= pos < txn.width(),
    ensures
        txn.pending(pos).len() <= txn.size(),
        (forall|p: int| (#[trigger] txn.pending(p)).len() == 0) ==> txn.size() == 0,
{
    lemma_counts(txn, pos, txn.width() as int);
    if forall|p: int| (#[trigger] txn.pending(p)).len() == 0 {
        lemma_counts_none(txn, txn.width() as int);
    }
}

proof fn lemma_counts<V>(txn: &WriteTxn<V>, pos: int, n: int)
    requires
        0 <= pos < n,
    ensures
        txn.pending(pos).len() <= crate::db::txn::weight(txn, n),
    decreases n,
{
    if pos < n - 1 {
        lemma_counts(txn, pos, n - 1);
    }
}

proof fn lemma_counts_none<V>(txn: &WriteTxn<V>, n: int)
    requires
        forall|p: int| (#[trigger] txn.pending(p)).len() == 0,
    ensures
        crate::db::txn::weight(txn, n) == 0,
    decreases n,
{
    if n > 0 {
        lemma_counts_none(txn, n - 1);
        assert(txn.pending(n - 1).len() == 0);
    }
}

/// A registration asks for indexes of different names and for a primary key
/// function that takes every value.
pub proof fn what_a_registration_asks_for<V, P, X>(
    primary_key: P,
    indexes: Seq<listing::Index<X>>,
) where P: Fn(&V) -> Key
    ensures
        entry::total::<V, P>(primary_key) <==> forall|value: &V| #[trigger]
            call_requires(primary_key, (value,)),
        listing::named_apart(indexes) <==> forall|i: int, j: int|
            0 <= i < j < indexes.len() ==> (#[trigger] indexes[i]).name@ != (
            #[trigger] indexes[j]).name@,
{
}

/// An index function will do if it takes every value and yields the keys `f`
/// gives it, however many, none of 4 GiB or more.
pub proof fn what_an_index_asks_for<V, X>(keys: X, f: spec_fn(V) -> Seq<Seq<u8>>) where
    X: Fn(&V) -> Vec<Key>,

    requires
        forall|value: &V| #[trigger] call_requires(keys, (value,)),
        forall|value: &V, ks: Vec<Key>| #[trigger]
            call_ensures(keys, (value,), ks) ==> listing::views(ks@) == f(*value),
        forall|value: V, x: int|
            0 <= x < f(value).len() ==> (#[trigger] f(value)[x]).len() <= u32::MAX,
    ensures
        listing::pure::<V, X>(keys),
{
    assert forall|value: &V, a: Vec<Key>, b: Vec<Key>, k: Seq<u8>|
        #![trigger call_ensures(keys, (value,), a), call_ensures(keys, (value,), b), entries::among(a@, k)]
        call_ensures(keys, (value,), a) && call_ensures(keys, (value,), b) && entries::among(
            a@,
            k,
        ) implies entries::among(b@, k) by {
        let x = choose|x: int| 0 <= x < a@.len() && (#[trigger] a@[x])@ == k;
        assert(listing::views(a@)[x] == k);
        assert(listing::views(b@)[x] == k);
        assert(b@[x]@ == k);
    }
    assert forall|value: &V, a: Vec<Key>, k: Seq<u8>|
        #![trigger call_ensures(keys, (value,), a), entries::among(a@, k)]
        call_ensures(keys, (value,), a) && entries::among(a@, k) implies k.len() <= u32::MAX by {
        let x = choose|x: int| 0 <= x < a@.len() && (#[trigger] a@[x])@ == k;
        assert(listing::views(a@)[x] == k);
        assert(f(*value)[x].len() <= u32::MAX);
    }
}

/// A load is refused for exactly one of four reasons, looked for in this order:
/// there is nothing to load, the table holds change records, the last version is
/// past the transaction's revision, or a version is not past the one before it.
pub proof fn what_a_load_asks_for<V>(
    recorded: bool,
    revision: Revision,
    versions: Seq<Version<V>>,
)
    ensures
        ({
            let why = refusal(recorded, revision, versions);
            let ahead = versions.len() > 0 && versions[versions.len() - 1].revision > revision;
            let rising = forall|i: int, j: int|
                0 <= i < j < versions.len() ==> (#[trigger] versions[i]).revision < (
                #[trigger] versions[j]).revision;
            &&& why == Some(Refusal::Empty) <==> versions.len() == 0
            &&& why == Some(Refusal::Recorded) <==> versions.len() > 0 && recorded
            &&& why == Some(Refusal::Ahead) <==> versions.len() > 0 && !recorded && ahead
            &&& why == Some(Refusal::Unordered) <==> versions.len() > 0 && !recorded && !ahead
                && !rising
            &&& why is None <==> versions.len() > 0 && !recorded && !ahead && rising
        }),
{
}

/// The value a write hands back is the one that was got before it.
pub proof fn a_write_hands_back_what_was_got<V>(found: Option<(Arc<V>, Revision)>)
    ensures
        match found {
            Some((value, _)) => entry::value_of(found) == Some(value),
            None => entry::value_of(found) is None,
        },
{
}

/// A table has an index of a name if one was registered with it under the name.
pub proof fn an_index_goes_by_its_name<V, P, X>(
    db: &Db<V, P, X>,
    table: &Table<V>,
    i: int,
) where P: Fn(&V) -> Key, X: Fn(&V) -> Vec<Key>
    requires
        0 <= i < db.entry(table.at()).count(),
    ensures
        db.indexed(table, db.entry(table.at()).name(i)),
{
}

} // verus!
