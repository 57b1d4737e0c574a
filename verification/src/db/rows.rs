//! Trees of rows.

use vstd::prelude::*;

use crate::db::row;
use crate::db::row::{History, Row, Version};
use crate::db::Revision;
use crate::entries;
use crate::entries::Entries;
use crate::tree;
use crate::tree::{Iter, Tree};

verus! {

/// What a tree of rows holds at `k`: nothing, if there is no row.
pub open spec fn history<V>(e: Entries<Row<V>>, k: Seq<u8>) -> History<V> {
    match entries::get(e, k) {
        Some(row) => row@,
        None => Seq::empty(),
    }
}

/// Every row of the tree is sound.
pub open spec fn all_wf<V>(e: Entries<Row<V>>) -> bool {
    forall|i: int| 0 <= i < e.len() ==> (#[trigger] e[i]).1.wf()
}

/// A tree of rows, sound down to its chains.
pub open spec fn rows_wf<V>(tree: &Tree<Row<V>>) -> bool {
    tree.wf() && all_wf(tree.entries())
}

/// A copy of a row is the row.
pub proof fn lemma_row_copies<V>(a: Entries<Row<V>>, b: Entries<Row<V>>)
    requires
        entries::copied(a, b),
    ensures
        a == b,
{
    assert forall|i: int| 0 <= i < a.len() implies #[trigger] a[i] == b[i] by {
        assert(cloned(a[i].1, b[i].1));
    }
    assert(a =~= b);
}

/// There is a row where there is a version.
pub proof fn lemma_history<V>(e: Entries<Row<V>>, k: Seq<u8>)
    ensures
        entries::get(e, k) is Some <==> history(e, k).len() > 0,
{
    if entries::get(e, k) is Some {
        (entries::get(e, k)->0).lemma_holds();
    }
}

/// The row at `k`, if there is one, is sound.
pub proof fn lemma_row_wf<V>(e: Entries<Row<V>>, k: Seq<u8>)
    requires
        all_wf(e),
    ensures
        entries::get(e, k) matches Some(row) ==> row.wf(),
{
    if entries::get(e, k) is Some {
        let i = entries::lemma_get_index(e, k);
        assert(e[i].1.wf());
    }
}

/// A sound row may be put anywhere in a sound tree.
pub proof fn lemma_put_row<V>(e: Entries<Row<V>>, k: Seq<u8>, row: Row<V>)
    requires
        entries::sorted(e),
        all_wf(e),
        row.wf(),
    ensures
        all_wf(entries::put(e, k, row)),
        forall|o: Seq<u8>| #[trigger]
            history(entries::put(e, k, row), o) == (if o == k {
                row@
            } else {
                history(e, o)
            }),
{
    entries::lemma_put(e, k, row);
    let n = entries::put(e, k, row);
    assert forall|i: int| 0 <= i < n.len() implies (#[trigger] n[i]).1.wf() by {
        entries::lemma_found(n, i);
        let o = n[i].0;
        assert(entries::get(n, o) == Some(n[i].1));
        if o != k {
            lemma_row_wf(e, o);
        }
    }
}

/// Puts `version` at the head of `key`'s chain in `tree`.
pub fn write_row<V>(tree: &mut Tree<Row<V>>, key: &[u8], version: Version<V>, compacted: Revision)
    requires
        rows_wf(old(tree)),
    ensures
        rows_wf(final(tree)),
        forall|o: Seq<u8>| #[trigger]
            history(final(tree).entries(), o) == (if o == key@ {
                row::grown(history(old(tree).entries(), o), version, compacted)
            } else {
                history(old(tree).entries(), o)
            }),
        forall|o: Seq<u8>|
            entries::get(final(tree).entries(), o) is Some ==> o == key@ || #[trigger] entries::get(
                old(tree).entries(),
                o,
            ) is Some,
{
    let ghost e = tree.entries();
    proof {
        tree.lemma_sorted();
        lemma_row_wf(e, key@);
    }
    let row = Row::written(tree.get(key), version, compacted);
    proof {
        lemma_put_row(e, key@, row);
        entries::lemma_put(e, key@, row);
        assert forall|o: Seq<u8>|
            entries::get(entries::put(e, key@, row), o) is Some implies o == key@
            || #[trigger] entries::get(e, o) is Some by {
            assert(entries::get(entries::put(e, key@, row), o) == (if o == key@ {
                Some(row)
            } else {
                entries::get(e, o)
            }));
        }
    }
    tree.insert(key, row);
}

/// Removes every row a tombstone at or below `rev` ended and returns the lowest
/// tombstone revision the tree is left with. Their deletion is below the
/// compaction bound, so nothing may ask for the key or its versions again.
pub fn swept<V>(tree: &mut Tree<Row<V>>, rev: Revision) -> (buried: Revision)
    requires
        rows_wf(old(tree)),
    ensures
        rows_wf(final(tree)),
        forall|o: Seq<u8>| #[trigger]
            history(final(tree).entries(), o) == (if row::buried_by(
                history(old(tree).entries(), o),
                rev,
            ) {
                Seq::empty()
            } else {
                history(old(tree).entries(), o)
            }),
        forall|o: Seq<u8>|
            entries::get(final(tree).entries(), o) is Some ==> #[trigger] entries::get(
                old(tree).entries(),
                o,
            ) is Some,
        forall|o: Seq<u8>, r: Revision|
            #![trigger row::buried_by(history(final(tree).entries(), o), r)]
            row::buried_by(history(final(tree).entries(), o), r) ==> buried <= r,
        buried < u64::MAX ==> exists|o: Seq<u8>|
            #![trigger history(final(tree).entries(), o)]
            row::buried_by(history(final(tree).entries(), o), buried),
{
    let ghost e = tree.entries();
    let mut buried: Revision = u64::MAX;
    let mut doomed: Vec<Vec<u8>> = Vec::new();
    let mut walk = tree.range_from(&[]);
    let ghost mut done: int = 0;
    proof {
        tree.lemma_sorted();
        tree::lemma_from_start(e);
        assert(walk.seek()->0 =~= Seq::empty());
        assert(walk.rest(e) =~= e.subrange(0, e.len() as int));
    }
    loop
        invariant_except_break
            walk.rest(e) == e.subrange(done, e.len() as int),
        invariant
            rows_wf(tree),
            walk.wf(),
            e == tree.entries(),
            entries::sorted(e),
            0 <= done <= e.len(),
            sorted_out(e, done, rev, doomed@, buried),
        ensures
            done == e.len(),
        decreases e.len() - done,
    {
        let ghost was = walk;
        let next = walk.next(tree);
        proof {
            lemma_walk_step(was, e, tree::plain(next), walk, done);
        }
        match next {
            Some((key, row)) => {
                proof {
                    row.lemma_holds();
                    assert(e[done] == (key@, row));
                }
                let ghost (d, b) = (doomed@, buried);
                if let Some(revision) = row.tombstoned() {
                    if revision <= rev {
                        doomed.push(key);
                        assert(doomed@.drop_last() =~= d);
                    } else if revision < buried {
                        buried = revision;
                    }
                }
                proof {
                    lemma_sorted_out(e, done, rev, d, b, doomed@, buried);
                    done = done + 1;
                }
            },
            None => {
                break;
            },
        }
    }
    tree.remove_all(&doomed);
    proof {
        tree.lemma_sorted();
        lemma_swept(e, tree.entries(), rev, doomed@, buried);
    }
    buried
}

/// The first `done` rows were sorted into the ones to go and the ones whose
/// tombstones stay.
spec fn sorted_out<V>(
    e: Entries<Row<V>>,
    done: int,
    rev: Revision,
    doomed: Seq<Vec<u8>>,
    buried: Revision,
) -> bool {
    &&& forall|o: Seq<u8>| #[trigger]
        entries::among(doomed, o) ==> exists|i: int|
            0 <= i < done && #[trigger] e[i].0 == o && row::buried_by(e[i].1@, rev)
    &&& forall|i: int|
        0 <= i < done && row::buried_by((#[trigger] e[i]).1@, rev) ==> entries::among(doomed, e[i].0)
    &&& forall|i: int|
        0 <= i < done && !row::buried_by((#[trigger] e[i]).1@, rev) && e[i].1@.last().deleted ==> buried
            <= e[i].1@.last().revision
    &&& buried < u64::MAX ==> exists|i: int|
        0 <= i < done && !row::buried_by((#[trigger] e[i]).1@, rev) && row::buried_by(e[i].1@, buried)
}

proof fn lemma_sorted_out<V>(
    e: Entries<Row<V>>,
    done: int,
    rev: Revision,
    d: Seq<Vec<u8>>,
    b: Revision,
    doomed: Seq<Vec<u8>>,
    buried: Revision,
)
    requires
        0 <= done < e.len(),
        sorted_out(e, done, rev, d, b),
        e[done].1@.len() > 0,
        ({
            let newest = e[done].1@.last();
            if newest.deleted && newest.revision <= rev {
                &&& buried == b
                &&& doomed.len() == d.len() + 1
                &&& doomed.last()@ == e[done].0
                &&& doomed.drop_last() == d
            } else {
                &&& doomed == d
                &&& buried == (if newest.deleted && newest.revision < b {
                    newest.revision
                } else {
                    b
                })
            }
        }),
    ensures
        sorted_out(e, done + 1, rev, doomed, buried),
{
    let newest = e[done].1@.last();
    if newest.deleted && newest.revision <= rev {
        assert(doomed =~= d.push(doomed.last()));
        assert forall|o: Seq<u8>| #[trigger] entries::among(doomed, o) implies exists|i: int|
            0 <= i < done + 1 && #[trigger] e[i].0 == o && row::buried_by(e[i].1@, rev) by {
            entries::lemma_among_push(d, doomed.last(), o);
            if o == e[done].0 {
                assert(row::buried_by(e[done].1@, rev));
            } else {
                assert(entries::among(d, o));
            }
        }
        assert forall|i: int|
            0 <= i < done + 1 && row::buried_by((#[trigger] e[i]).1@, rev) implies entries::among(
            doomed,
            e[i].0,
        ) by {
            entries::lemma_among_push(d, doomed.last(), e[i].0);
        }
    } else {
        assert(!row::buried_by(e[done].1@, rev));
        if buried < u64::MAX && buried != b {
            assert(row::buried_by(e[done].1@, buried));
        }
    }
}

proof fn lemma_swept<V>(
    e: Entries<Row<V>>,
    n: Entries<Row<V>>,
    rev: Revision,
    doomed: Seq<Vec<u8>>,
    buried: Revision,
)
    requires
        entries::sorted(e),
        entries::sorted(n),
        all_wf(e),
        sorted_out(e, e.len() as int, rev, doomed, buried),
        forall|o: Seq<u8>| #[trigger]
            entries::get(n, o) == (if entries::among(doomed, o) {
                None
            } else {
                entries::get(e, o)
            }),
    ensures
        all_wf(n),
        forall|o: Seq<u8>| #[trigger]
            history(n, o) == (if row::buried_by(history(e, o), rev) {
                Seq::empty()
            } else {
                history(e, o)
            }),
        forall|o: Seq<u8>|
            entries::get(n, o) is Some ==> #[trigger] entries::get(e, o) is Some,
        forall|o: Seq<u8>, r: Revision|
            #![trigger row::buried_by(history(n, o), r)]
            row::buried_by(history(n, o), r) ==> buried <= r,
        buried < u64::MAX ==> exists|o: Seq<u8>|
            #![trigger history(n, o)]
            row::buried_by(history(n, o), buried),
{
    assert forall|i: int| 0 <= i < n.len() implies (#[trigger] n[i]).1.wf() by {
        entries::lemma_found(n, i);
        lemma_row_wf(e, n[i].0);
    }
    assert forall|o: Seq<u8>| #[trigger]
        history(n, o) == (if row::buried_by(history(e, o), rev) {
            Seq::empty()
        } else {
            history(e, o)
        }) by {
        lemma_doomed(e, rev, doomed, buried, o);
    }
    assert forall|o: Seq<u8>, r: Revision|
        #![trigger row::buried_by(history(n, o), r)]
        row::buried_by(history(n, o), r) implies buried <= r by {
        assert(history(n, o) == history(e, o));
        let i = entries::lemma_get_index(e, o);
        assert(e[i].1@.last().deleted);
    }
    if buried < u64::MAX {
        let i = choose|i: int|
            0 <= i < e.len() && !row::buried_by((#[trigger] e[i]).1@, rev) && row::buried_by(
                e[i].1@,
                buried,
            );
        let o = e[i].0;
        entries::lemma_found(e, i);
        assert(history(n, o) == history(e, o));
        assert(row::buried_by(history(n, o), buried));
    }
}

proof fn lemma_doomed<V>(
    e: Entries<Row<V>>,
    rev: Revision,
    doomed: Seq<Vec<u8>>,
    buried: Revision,
    o: Seq<u8>,
)
    requires
        entries::sorted(e),
        sorted_out(e, e.len() as int, rev, doomed, buried),
    ensures
        entries::among(doomed, o) == row::buried_by(history(e, o), rev),
{
    if entries::among(doomed, o) {
        let i = choose|i: int|
            0 <= i < e.len() && #[trigger] e[i].0 == o && row::buried_by(e[i].1@, rev);
        entries::lemma_found(e, i);
    }
    if row::buried_by(history(e, o), rev) {
        let i = entries::lemma_get_index(e, o);
        assert(e[i].1@ == history(e, o));
    }
}

/// A walk over rows hands out the row at its place.
pub proof fn lemma_walk_step<V>(
    old: Iter<Row<V>>,
    e: Entries<Row<V>>,
    entry: Option<(Seq<u8>, Row<V>)>,
    new: Iter<Row<V>>,
    done: int,
)
    requires
        entries::sorted(e),
        0 <= done <= e.len(),
        old.rest(e) == e.subrange(done, e.len() as int),
        tree::stepped(old, e, entry, new),
    ensures
        entry is None <==> done == e.len(),
        entry is Some ==> entry->0 == e[done] && new.rest(e) == e.subrange(
            done + 1,
            e.len() as int,
        ),
{
    tree::lemma_walk_rest(old, e, entry, new);
    if entry is Some {
        let r = old.rest(e);
        assert(r[0] == e[done]);
        assert(cloned(r[0].1, (entry->0).1));
        lemma_row_copies(r.subrange(1, r.len() as int), new.rest(e));
        assert(r.subrange(1, r.len() as int) =~= e.subrange(done + 1, e.len() as int));
    }
}

} // verus!
