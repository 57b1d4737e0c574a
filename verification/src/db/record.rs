//! The keys of the change stream, and the order they put it in.

use vstd::prelude::*;

use crate::big_endian;
use crate::big_endian::{push_be, read_be};
use crate::bytes;
use crate::db::{Key, Revision};
use crate::entries;
use crate::entries::Entries;
use crate::tree;
use crate::tree::Tree;

verus! {

/// Key of a change record: the table, the revision of the commit, and the place
/// the record took in it, each big-endian.
///
/// The table comes first, so one table's records are a run of their own that a
/// reader scans and a compaction drops the front of. The revision comes next,
/// so that run is in commit order; the sequence number keeps the records of one
/// commit apart and in the order they were written.
pub open spec fn record_key(table: nat, revision: nat, seq: nat) -> Seq<u8> {
    big_endian::be(table, 4) + big_endian::be(revision, 8) + big_endian::be(seq, 4)
}

/// The table a record belongs to.
pub open spec fn table_at(k: Seq<u8>) -> nat {
    big_endian::value(k.subrange(0, 4))
}

/// The revision of the commit that left a record.
pub open spec fn revision_at(k: Seq<u8>) -> nat {
    big_endian::value(k.subrange(4, 12))
}

/// The place a record took in its commit.
pub open spec fn seq_at(k: Seq<u8>) -> nat {
    big_endian::value(k.subrange(12, 16))
}

/// One record sorts before another: by table, by revision, by place.
pub open spec fn earlier(a: Seq<u8>, b: Seq<u8>) -> bool {
    ||| table_at(a) < table_at(b)
    ||| table_at(a) == table_at(b) && revision_at(a) < revision_at(b)
    ||| table_at(a) == table_at(b) && revision_at(a) == revision_at(b) && seq_at(a) < seq_at(b)
}

pub proof fn lemma_record(table: nat, revision: nat, seq: nat)
    requires
        table <= u32::MAX,
        revision <= u64::MAX,
        seq <= u32::MAX,
    ensures
        record_key(table, revision, seq).len() == 16,
        table_at(record_key(table, revision, seq)) == table,
        revision_at(record_key(table, revision, seq)) == revision,
        seq_at(record_key(table, revision, seq)) == seq,
{
    big_endian::lemma_spans();
    big_endian::lemma_be(table, 4);
    big_endian::lemma_be(revision, 8);
    big_endian::lemma_be(seq, 4);
    let k = record_key(table, revision, seq);
    assert(k.subrange(0, 4) =~= big_endian::be(table, 4));
    assert(k.subrange(4, 12) =~= big_endian::be(revision, 8));
    assert(k.subrange(12, 16) =~= big_endian::be(seq, 4));
}

/// Records sort by table, then by revision, then by place.
pub proof fn lemma_record_order(a: Seq<u8>, b: Seq<u8>)
    requires
        a.len() == 16,
        b.len() == 16,
    ensures
        bytes::lt(a, b) == earlier(a, b),
{
    let (a1, a2, a3) = (a.subrange(0, 4), a.subrange(4, 12), a.subrange(12, 16));
    let (b1, b2, b3) = (b.subrange(0, 4), b.subrange(4, 12), b.subrange(12, 16));
    big_endian::lemma_order(a1, b1);
    big_endian::lemma_order(a2, b2);
    big_endian::lemma_order(a3, b3);
    bytes::lemma_lt_concat(a2, a3, b2, b3);
    bytes::lemma_lt_concat(a1, a2 + a3, b1, b2 + b3);
    assert(a =~= a1 + (a2 + a3));
    assert(b =~= b1 + (b2 + b3));
}

pub fn stream_key(table: usize, revision: Revision, seq: u32) -> (key: Key)
    requires
        table <= u32::MAX,
    ensures
        key@ == record_key(table as nat, revision as nat, seq as nat),
{
    let mut key: Vec<u8> = Vec::with_capacity(16);
    push_be(&mut key, table as u64, 4);
    push_be(&mut key, revision, 8);
    push_be(&mut key, seq as u64, 4);
    assert(key@ =~= record_key(table as nat, revision as nat, seq as nat));
    key
}

pub fn table_of(key: &[u8]) -> (table: usize)
    requires
        key@.len() == 16,
    ensures
        table == table_at(key@),
{
    proof {
        big_endian::lemma_value_bound(key@.subrange(0, 4));
        big_endian::lemma_spans();
    }
    read_be(key, 0, 4) as usize
}

pub fn revision_of(key: &[u8]) -> (revision: Revision)
    requires
        key@.len() == 16,
    ensures
        revision == revision_at(key@),
{
    read_be(key, 4, 8)
}

/// `k` is the key of one of `n` records of a commit, from place `seq` on.
pub open spec fn numbered(k: Seq<u8>, table: nat, revision: nat, seq: nat, n: nat) -> bool {
    exists|i: nat| i < n && k == #[trigger] record_key(table, revision, seq + i)
}

// ------------------------------------------------------------------- records

/// What the change stream says: the revision of a commit, and the key it wrote.
pub struct Record {
    pub revision: nat,
    pub key: Seq<u8>,
}

/// An entry of the stream as a record.
pub open spec fn record(x: (Seq<u8>, Key)) -> Record {
    Record { revision: revision_at(x.0), key: x.1@ }
}

/// An entry of the stream belongs to a table.
pub open spec fn of_table(table: nat) -> spec_fn((Seq<u8>, Key)) -> bool {
    |x: (Seq<u8>, Key)| table_at(x.0) == table
}

/// One table's records, in the order they were written.
pub open spec fn records(e: Entries<Key>, table: nat) -> Seq<Record> {
    e.filter(of_table(table)).map_values(|x: (Seq<u8>, Key)| record(x))
}

/// Every key of the stream is a record's.
pub open spec fn all_records(e: Entries<Key>) -> bool {
    forall|i: int| 0 <= i < e.len() ==> (#[trigger] e[i]).0.len() == 16
}

/// `n` is the stream `e` with the records `rs` of one commit in it, from place
/// `seq` on, and nothing else changed.
pub open spec fn filed(
    e: Entries<Key>,
    n: Entries<Key>,
    table: nat,
    revision: nat,
    seq: nat,
    rs: Seq<Record>,
) -> bool {
    &&& forall|i: nat|
        i < rs.len() ==> {
            &&& entries::get(n, #[trigger] record_key(table, revision, seq + i)) is Some
            &&& (entries::get(n, record_key(table, revision, seq + i))->0)@ == rs[i as int].key
        }
    &&& forall|k: Seq<u8>|
        !numbered(k, table, revision, seq, rs.len()) ==> #[trigger] entries::get(n, k)
            == entries::get(e, k)
}

/// One more record filed.
pub proof fn lemma_filed(
    e: Entries<Key>,
    now: Entries<Key>,
    table: nat,
    revision: nat,
    seq: nat,
    rs: Seq<Record>,
    r: Record,
    key: Key,
)
    requires
        entries::sorted(now),
        table <= u32::MAX,
        revision <= u64::MAX,
        seq + rs.len() <= u32::MAX,
        filed(e, now, table, revision, seq, rs),
        key@ == r.key,
    ensures
        filed(
            e,
            entries::put(now, record_key(table, revision, seq + rs.len()), key),
            table,
            revision,
            seq,
            rs.push(r),
        ),
{
    let last = record_key(table, revision, seq + rs.len());
    let n = entries::put(now, last, key);
    let more = rs.push(r);
    entries::lemma_put(now, last, key);
    lemma_record(table, revision, seq + rs.len());
    assert forall|i: nat| i < more.len() implies {
        &&& entries::get(n, #[trigger] record_key(table, revision, seq + i)) is Some
        &&& (entries::get(n, record_key(table, revision, seq + i))->0)@ == more[i as int].key
    } by {
        let k = record_key(table, revision, seq + i);
        lemma_record(table, revision, seq + i);
        if i < rs.len() {
            assert(k != last);
            assert(entries::get(now, k) is Some);
        }
    }
    assert forall|k: Seq<u8>|
        !numbered(k, table, revision, seq, more.len()) implies #[trigger] entries::get(n, k)
        == entries::get(e, k) by {
        assert(k != last);
        assert(!numbered(k, table, revision, seq, rs.len())) by {
            if numbered(k, table, revision, seq, rs.len()) {
                let i = choose|i: nat|
                    i < rs.len() && k == #[trigger] record_key(table, revision, seq + i);
                assert(i < more.len());
            }
        }
        assert(entries::get(now, k) == entries::get(e, k));
    }
}

pub proof fn lemma_records_concat(a: Entries<Key>, b: Entries<Key>, table: nat)
    ensures
        records(a + b, table) == records(a, table) + records(b, table),
{
    Seq::filter_distributes_over_add(a, b, of_table(table));
    let f = |x: (Seq<u8>, Key)| record(x);
    assert(records(a + b, table) =~= records(a, table) + records(b, table));
}

pub proof fn lemma_records_one(x: (Seq<u8>, Key), table: nat)
    ensures
        records(seq![x], table) == (if table_at(x.0) == table {
            seq![record(x)]
        } else {
            Seq::empty()
        }),
{
    let f = of_table(table);
    reveal_with_fuel(Seq::filter, 2);
    assert(seq![x].drop_last() =~= Seq::empty());
    assert(seq![x].last() == x);
    assert(seq![x].filter(f) =~= (if f(x) {
        seq![x]
    } else {
        Seq::empty()
    }));
    assert(records(seq![x], table) =~= (if table_at(x.0) == table {
        seq![record(x)]
    } else {
        Seq::empty()
    }));
}

/// Entries of other tables leave no record in this one.
pub proof fn lemma_records_none(e: Entries<Key>, table: nat)
    requires
        forall|i: int| 0 <= i < e.len() ==> table_at((#[trigger] e[i]).0) != table,
    ensures
        records(e, table) == Seq::<Record>::empty(),
    decreases e.len(),
{
    if e.len() > 0 {
        let p = e.drop_last();
        lemma_records_none(p, table);
        lemma_records_concat(p, seq![e.last()], table);
        lemma_records_one(e.last(), table);
        assert(e =~= p + seq![e.last()]);
        assert(table_at(e[e.len() - 1].0) != table);
    }
    assert(records(e, table) =~= Seq::<Record>::empty());
}

/// A record that sorts after all of its table's is the last of them, and
/// changes nothing for the other tables.
pub proof fn lemma_record_put(e: Entries<Key>, k: Seq<u8>, v: Key, table: nat)
    requires
        entries::sorted(e),
        all_records(e),
        k.len() == 16,
        forall|i: int|
            0 <= i < e.len() && table_at((#[trigger] e[i]).0) == table_at(k) ==> earlier(e[i].0, k),
    ensures
        all_records(entries::put(e, k, v)),
        records(entries::put(e, k, v), table) == (if table_at(k) == table {
            records(e, table).push(Record { revision: revision_at(k), key: v@ })
        } else {
            records(e, table)
        }),
{
    entries::lemma_slot_exists(e, k);
    let s = entries::slot(e, k);
    if s < e.len() && e[s].0 == k {
        assert(earlier(k, k));
        assert(false);
    }
    let a = e.subrange(0, s);
    let b = e.subrange(s, e.len() as int);
    let x = (k, v);
    let n = entries::put(e, k, v);
    assert(n =~= a + seq![x] + b);
    assert(e =~= a + b);
    lemma_records_concat(a, b, table);
    lemma_records_concat(a, seq![x], table);
    lemma_records_concat(a + seq![x], b, table);
    lemma_records_one(x, table);
    if table_at(k) == table {
        assert forall|i: int| 0 <= i < b.len() implies table_at((#[trigger] b[i]).0) != table by {
            assert(b[i] == e[s + i]);
            assert(!bytes::lt(e[s + i].0, k));
            lemma_record_order(e[s + i].0, k);
        }
        lemma_records_none(b, table);
        assert(records(n, table) =~= records(e, table).push(
            Record { revision: revision_at(k), key: v@ },
        ));
    } else {
        assert(records(n, table) =~= records(e, table));
    }
    assert forall|i: int| 0 <= i < n.len() implies (#[trigger] n[i]).0.len() == 16 by {
        if i < s {
            assert(n[i] == e[i]);
        } else if i > s {
            assert(n[i] == e[i - 1]);
        }
    }
}

/// The records a compaction at `compacted` leaves.
pub open spec fn kept(rs: Seq<Record>, compacted: Revision) -> Seq<Record> {
    rs.filter(|r: Record| r.revision > compacted)
}

/// No two records are of one key and one commit.
pub open spec fn apart(rs: Seq<Record>) -> bool {
    forall|i: int, j: int|
        #![trigger rs[i], rs[j]]
        0 <= i < j < rs.len() ==> rs[i].revision != rs[j].revision || rs[i].key != rs[j].key
}

/// A record that is left was there.
pub proof fn lemma_kept_in(rs: Seq<Record>, compacted: Revision)
    ensures
        forall|j: int|
            0 <= j < kept(rs, compacted).len() ==> rs.contains(#[trigger] kept(rs, compacted)[j])
                && kept(rs, compacted)[j].revision > compacted,
{
    let f = |r: Record| r.revision > compacted;
    let k = kept(rs, compacted);
    assert forall|j: int| 0 <= j < k.len() implies rs.contains(#[trigger] k[j])
        && k[j].revision > compacted by {
        rs.lemma_filter_pred(f, j);
        rs.lemma_filter_contains_rev(f, k[j]);
    }
}

/// What a compaction leaves stays apart.
pub proof fn lemma_apart_kept(rs: Seq<Record>, compacted: Revision)
    requires
        apart(rs),
    ensures
        apart(kept(rs, compacted)),
    decreases rs.len(),
{
    reveal_with_fuel(Seq::filter, 1);
    if rs.len() > 0 {
        let p = rs.drop_last();
        let r = rs.last();
        assert(apart(p)) by {
            assert forall|i: int, j: int| 0 <= i < j < p.len() implies (#[trigger] p[i]).revision
                != (#[trigger] p[j]).revision || p[i].key != p[j].key by {
                assert(p[i] == rs[i] && p[j] == rs[j]);
            }
        }
        lemma_apart_kept(p, compacted);
        let before = kept(p, compacted);
        let k = kept(rs, compacted);
        lemma_kept_in(p, compacted);
        if r.revision > compacted {
            assert(k =~= before.push(r));
            assert forall|i: int, j: int| 0 <= i < j < k.len() implies (#[trigger] k[i]).revision
                != (#[trigger] k[j]).revision || k[i].key != k[j].key by {
                assert(k[i] == before[i]);
                if j < before.len() {
                    assert(k[j] == before[j]);
                } else {
                    let x = choose|x: int| 0 <= x < p.len() && p[x] == before[i];
                    assert(rs[x] == p[x]);
                    assert(rs[rs.len() - 1] == r);
                }
            }
        } else {
            assert(k =~= before);
        }
    }
}

/// `lost` is the highest revision a compaction at `compacted` drops, or 0 if it
/// drops nothing.
pub open spec fn highest_dropped(rs: Seq<Record>, compacted: Revision, lost: Revision) -> bool {
    &&& forall|j: int|
        0 <= j < rs.len() && (#[trigger] rs[j]).revision <= compacted ==> rs[j].revision <= lost
    &&& lost > 0 ==> exists|j: int| 0 <= j < rs.len() && (#[trigger] rs[j]).revision == lost
    &&& lost <= compacted
}

/// A record comes from an entry of its table.
pub proof fn lemma_records_from(e: Entries<Key>, table: nat, j: int) -> (i: int)
    requires
        0 <= j < records(e, table).len(),
    ensures
        0 <= i < e.len(),
        table_at(e[i].0) == table,
        record(e[i]) == records(e, table)[j],
    decreases e.len(),
{
    if e.len() == 0 {
        lemma_records_none(e, table);
        0
    } else {
        let p = e.drop_last();
        lemma_records_concat(p, seq![e.last()], table);
        lemma_records_one(e.last(), table);
        assert(e =~= p + seq![e.last()]);
        if j < records(p, table).len() {
            lemma_records_from(p, table, j)
        } else {
            e.len() - 1
        }
    }
}

/// An entry of a table is one of its records.
pub proof fn lemma_records_to(e: Entries<Key>, table: nat, i: int) -> (j: int)
    requires
        0 <= i < e.len(),
        table_at(e[i].0) == table,
    ensures
        0 <= j < records(e, table).len(),
        record(e[i]) == records(e, table)[j],
    decreases e.len(),
{
    let p = e.drop_last();
    lemma_records_concat(p, seq![e.last()], table);
    lemma_records_one(e.last(), table);
    assert(e =~= p + seq![e.last()]);
    if i < p.len() {
        lemma_records_to(p, table, i)
    } else {
        records(p, table).len() as int
    }
}

/// One table's records are in the order of their revisions.
pub proof fn lemma_in_order(e: Entries<Key>, table: nat)
    requires
        entries::sorted(e),
        all_records(e),
    ensures
        forall|i: int, j: int|
            #![trigger records(e, table)[i], records(e, table)[j]]
            0 <= i < j < records(e, table).len() ==> records(e, table)[i].revision <= records(
                e,
                table,
            )[j].revision,
    decreases e.len(),
{
    if e.len() > 0 {
        let p = e.drop_last();
        let n = e.len() - 1;
        let rs = records(e, table);
        lemma_in_order(p, table);
        lemma_records_concat(p, seq![e.last()], table);
        lemma_records_one(e.last(), table);
        assert(e =~= p + seq![e.last()]);
        assert forall|i: int, j: int| 0 <= i < j < rs.len() implies (#[trigger] rs[i]).revision <= (
        #[trigger] rs[j]).revision by {
            let before = records(p, table);
            assert(rs[i] == before[i]);
            if j < before.len() {
                assert(rs[j] == before[j]);
            } else {
                let x = lemma_records_from(p, table, i);
                assert(p[x] == e[x]);
                assert(bytes::lt(e[x].0, e[n].0));
                lemma_record_order(e[x].0, e[n].0);
            }
        }
    }
}

/// The entries from `s` to `d` are the ones of `table` at or below `compacted`.
pub open spec fn drops(e: Entries<Key>, s: int, d: int, table: nat, compacted: Revision) -> bool {
    &&& entries::place(e, record_key(table, 0, 0), s)
    &&& s <= d <= e.len()
    &&& forall|i: int|
        s <= i < d ==> table_at((#[trigger] e[i]).0) == table && revision_at(e[i].0) <= compacted
    &&& d < e.len() ==> table_at(e[d].0) != table || revision_at(e[d].0) > compacted
}

/// Dropping them leaves the records past the bound, and those of the other
/// tables.
proof fn lemma_drop(e: Entries<Key>, s: int, d: int, table: nat, compacted: Revision, t: nat)
    requires
        entries::sorted(e),
        all_records(e),
        table <= u32::MAX,
        drops(e, s, d, table, compacted),
    ensures
        records(e.subrange(0, s) + e.subrange(d, e.len() as int), t) == (if t == table {
            kept(records(e, t), compacted)
        } else {
            records(e, t)
        }),
{
    let a = e.subrange(0, s);
    let b = e.subrange(s, d);
    let c = e.subrange(d, e.len() as int);
    assert(e =~= a + b + c);
    lemma_records_concat(a, b, t);
    lemma_records_concat(a + b, c, t);
    lemma_records_concat(a, c, t);
    if t == table {
        assert forall|i: int| 0 <= i < a.len() implies table_at((#[trigger] a[i]).0) != t by {
            assert(a[i] == e[i]);
            lemma_record(table, 0, 0);
            lemma_record_order(e[i].0, record_key(table, 0, 0));
        }
        lemma_records_none(a, t);
        let f = |r: Record| r.revision > compacted;
        let (rb, rc) = (records(b, t), records(c, t));
        assert forall|j: int| 0 <= j < rb.len() implies !f(#[trigger] rb[j]) by {
            let i = lemma_records_from(b, t, j);
            assert(b[i] == e[s + i]);
        }
        assert forall|j: int| 0 <= j < rc.len() implies f(#[trigger] rc[j]) by {
            let i = lemma_records_from(c, t, j);
            assert(c[i] == e[d + i]);
            assert(entries::place(e, record_key(table, 0, 0), s));
            if i > 0 {
                assert(bytes::lt(e[d].0, e[d + i].0));
                lemma_record_order(e[d].0, e[d + i].0);
                lemma_record(table, 0, 0);
                lemma_record_order(e[d].0, record_key(table, 0, 0));
                assert(!bytes::lt(e[d].0, record_key(table, 0, 0)));
            }
        }
        entries::lemma_filter_none(rb, f);
        entries::lemma_filter_all(rc, f);
        Seq::filter_distributes_over_add(rb, rc, f);
        assert(records(e, t) =~= rb + rc);
        assert(records(a + c, t) =~= rc);
        assert(kept(records(e, t), compacted) =~= rc);
    } else {
        lemma_records_none(b, t);
        assert(records(e, t) =~= records(a + c, t));
    }
}

/// Drops one table's change records at or below `compacted` and returns the
/// highest of them, which is what a reader that had not read them lost, or 0.
pub fn drop_records(changes: &mut Tree<Key>, pos: usize, compacted: Revision) -> (lost: Revision)
    requires
        old(changes).wf(),
        all_records(old(changes).entries()),
        pos <= u32::MAX,
    ensures
        final(changes).wf(),
        all_records(final(changes).entries()),
        forall|t: nat| #[trigger]
            records(final(changes).entries(), t) == (if t == pos {
                kept(records(old(changes).entries(), t), compacted)
            } else {
                records(old(changes).entries(), t)
            }),
        highest_dropped(records(old(changes).entries(), pos as nat), compacted, lost),
{
    let ghost e = changes.entries();
    let start = stream_key(pos, 0, 0);
    let ghost s = entries::slot(e, start@);
    let ghost mut d: int = s;
    let mut lost: Revision = 0;
    let mut doomed: Vec<Vec<u8>> = Vec::new();
    let mut walk = changes.range_from(start.as_slice());
    proof {
        changes.lemma_sorted();
        entries::lemma_slot_exists(e, start@);
        assert(walk.rest(e) =~= e.subrange(s, e.len() as int));
        assert(tree::same_keys(walk.rest(e), e.subrange(s, e.len() as int)));
    }
    loop
        invariant_except_break
            tree::same_keys(walk.rest(e), e.subrange(d, e.len() as int)),
        invariant
            changes.wf(),
            walk.wf(),
            e == changes.entries(),
            entries::sorted(e),
            all_records(e),
            entries::place(e, record_key(pos as nat, 0, 0), s),
            s <= d <= e.len(),
            forall|i: int|
                s <= i < d ==> table_at((#[trigger] e[i]).0) == pos && revision_at(e[i].0)
                    <= compacted,
            doomed@.len() == d - s,
            forall|j: int| 0 <= j < doomed@.len() ==> (#[trigger] doomed@[j])@ == e[s + j].0,
            d == s ==> lost == 0,
            d > s ==> lost == revision_at(e[d - 1].0),
        ensures
            drops(e, s, d, pos as nat, compacted),
        decreases e.len() - d,
    {
        let ghost was = walk;
        let next = walk.next(changes);
        proof {
            tree::lemma_walk_rest(was, e, tree::plain(next), walk);
        }
        match next {
            Some((key, _)) => {
                proof {
                    let r = was.rest(e);
                    assert(r[0].0 == e.subrange(d, e.len() as int)[0].0);
                    assert(key@ == e[d].0);
                    assert(e[d].0.len() == 16);
                }
                if table_of(key.as_slice()) != pos || revision_of(key.as_slice()) > compacted {
                    break;
                }
                lost = revision_of(key.as_slice());
                doomed.push(key);
                proof {
                    let r = was.rest(e);
                    let q = walk.rest(e);
                    let t = e.subrange(d + 1, e.len() as int);
                    assert forall|i: int| 0 <= i < q.len() implies q[i].0 == t[i].0 by {
                        assert(r.subrange(1, r.len() as int)[i] == r[i + 1]);
                        assert(r[i + 1].0 == e.subrange(d, e.len() as int)[i + 1].0);
                    }
                    d = d + 1;
                }
            },
            None => {
                break;
            },
        }
    }
    changes.remove_all(&doomed);
    proof {
        let n = changes.entries();
        changes.lemma_sorted();
        lemma_removed(e, n, s, d, doomed@);
        assert forall|i: int| 0 <= i < n.len() implies (#[trigger] n[i]).0.len() == 16 by {
            if i < s {
                assert(n[i] == e[i]);
            } else {
                assert(n[i] == e[i - s + d]);
            }
        }
        assert forall|t: nat| #[trigger]
            records(n, t) == (if t == pos {
                kept(records(e, t), compacted)
            } else {
                records(e, t)
            }) by {
            lemma_drop(e, s, d, pos as nat, compacted, t);
        }
        lemma_lost(e, s, d, pos as nat, compacted, lost);
    }
    lost
}

/// Taking a run of keys out leaves what is on either side.
proof fn lemma_removed(
    e: Entries<Key>,
    n: Entries<Key>,
    s: int,
    d: int,
    doomed: Seq<Vec<u8>>,
)
    requires
        entries::sorted(e),
        entries::sorted(n),
        0 <= s <= d <= e.len(),
        doomed.len() == d - s,
        forall|j: int| 0 <= j < doomed.len() ==> (#[trigger] doomed[j])@ == e[s + j].0,
        forall|o: Seq<u8>| #[trigger]
            entries::get(n, o) == (if entries::among(doomed, o) {
                None
            } else {
                entries::get(e, o)
            }),
    ensures
        n == e.subrange(0, s) + e.subrange(d, e.len() as int),
{
    let m = e.subrange(0, s) + e.subrange(d, e.len() as int);
    assert forall|i: int, j: int| 0 <= i < j < m.len() implies bytes::lt(
        (#[trigger] m[i]).0,
        (#[trigger] m[j]).0,
    ) by {
        let x = if i < s { i } else { i - s + d };
        let y = if j < s { j } else { j - s + d };
        assert(m[i] == e[x] && m[j] == e[y]);
    }
    assert forall|o: Seq<u8>| entries::get(m, o) == #[trigger] entries::get(n, o) by {
        if entries::get(m, o) is Some {
            let i = entries::lemma_get_index(m, o);
            let x = if i < s { i } else { i - s + d };
            assert(m[i] == e[x]);
            entries::lemma_found(e, x);
            if entries::among(doomed, o) {
                let j = choose|j: int| 0 <= j < doomed.len() && (#[trigger] doomed[j])@ == o;
                entries::lemma_found(e, s + j);
            }
        } else if entries::get(n, o) is Some {
            let x = entries::lemma_get_index(e, o);
            if s <= x < d {
                assert(doomed[x - s]@ == o);
            } else {
                let i = if x < s { x } else { x - d + s };
                assert(m[i] == e[x]);
                entries::lemma_found(m, i);
            }
        }
    }
    assert(entries::to_map(m) =~= entries::to_map(n));
    entries::lemma_same_map(m, n);
}

proof fn lemma_lost(
    e: Entries<Key>,
    s: int,
    d: int,
    table: nat,
    compacted: Revision,
    lost: Revision,
)
    requires
        entries::sorted(e),
        all_records(e),
        table <= u32::MAX,
        drops(e, s, d, table, compacted),
        d == s ==> lost == 0,
        d > s ==> lost == revision_at(e[d - 1].0),
    ensures
        highest_dropped(records(e, table), compacted, lost),
{
    let rs = records(e, table);
    assert forall|j: int| 0 <= j < rs.len() && (#[trigger] rs[j]).revision <= compacted implies rs[j].revision
        <= lost by {
        let i = lemma_records_from(e, table, j);
        lemma_record(table, 0, 0);
        if i < s {
            lemma_record_order(e[i].0, record_key(table, 0, 0));
        } else if i >= d {
            lemma_record_order(e[d].0, record_key(table, 0, 0));
            assert(!bytes::lt(e[d].0, record_key(table, 0, 0)));
            if i > d {
                assert(bytes::lt(e[d].0, e[i].0));
                lemma_record_order(e[d].0, e[i].0);
            }
        } else if i < d - 1 {
            assert(bytes::lt(e[i].0, e[d - 1].0));
            lemma_record_order(e[i].0, e[d - 1].0);
        }
    }
    if lost > 0 {
        let j = lemma_records_to(e, table, d - 1);
        assert(rs[j].revision == lost);
    }
}

} // verus!
