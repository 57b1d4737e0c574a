//! What holds of the database and the trees as a whole, on concrete values.

use std::collections::{BTreeMap, BTreeSet};
use std::sync::Arc;

use sloppy::db::listing::repeated;
use sloppy::db::{Compacted, Db, Index, Key, Refusal, Revision, Table, Version};
use sloppy::tree::Tree;
use sloppy::watch::{Covers, Heard};

#[derive(Debug)]
struct Rec {
    key: Key,
    tenant: &'static str,
    n: u64,
}

type Keys = fn(&Rec) -> Vec<Key>;

type Recs = Db<Rec, fn(&Rec) -> Key, Keys>;

fn rec_key(r: &Rec) -> Key {
    r.key.clone()
}

fn rec_tenant(r: &Rec) -> Vec<Key> {
    vec![r.tenant.as_bytes().into()]
}

const BY_TENANT: Index<Keys> = Index {
    name: "tenant",
    keys: rec_tenant,
};

const TENANTS: [&str; 4] = ["red", "green", "blue", "violet"];

fn rec(key: &[u8], tenant: &'static str, n: u64) -> Rec {
    Rec {
        key: key.to_vec(),
        tenant,
        n,
    }
}

fn open() -> (Recs, Table<Rec>) {
    let mut db = Recs::new(7);
    let recs = db.table("recs", rec_key, &[BY_TENANT]);
    (db, recs)
}

fn put(db: &mut Recs, recs: Table<Rec>, key: &[u8], n: u64) -> Revision {
    let mut w = db.write();
    recs.insert(db, &mut w, rec(key, "red", n));
    w.commit(db)
}

fn take(db: &mut Recs, recs: Table<Rec>, key: &[u8]) -> Revision {
    let mut w = db.write();
    recs.delete(db, &mut w, key);
    w.commit(db)
}

fn version(revision: Revision, key: &[u8], tenant: &'static str, deleted: bool) -> Version<Rec> {
    Version {
        revision,
        value: Arc::new(rec(key, tenant, revision)),
        deleted,
    }
}

/// Numerical Recipes LCG. Fixed seed, so a failure repeats.
struct Lcg(u64);

impl Lcg {
    fn below(&mut self, n: u64) -> u64 {
        self.0 = self
            .0
            .wrapping_mul(6_364_136_223_846_793_005)
            .wrapping_add(1_442_695_040_888_963_407);
        (self.0 >> 11) % n
    }
}

/// The changes alone rebuild the table, deletions included, every index listing
/// is what a scan would find, and every open reader keeps what it read.
#[test]
fn changes_rebuild_the_table_and_indexes_follow_it() {
    let (mut db, recs) = open();
    let mut w = db.write();
    let mut differ = recs.changes(&db, &mut w);
    w.commit(&mut db);

    let mut rng = Lcg(0x2026_0904);
    let mut map: BTreeMap<Key, u64> = BTreeMap::new();
    let mut open_readers = Vec::new();
    for round in 0..600u64 {
        let mut w = db.write();
        for _ in 0..=rng.below(4) {
            let key = format!("k/{:04}", rng.below(80)).into_bytes();
            if rng.below(4) == 0 {
                recs.delete(&db, &mut w, &key);
            } else {
                let tenant = TENANTS[rng.below(4) as usize];
                recs.insert(&db, &mut w, rec(&key, tenant, round));
            }
        }
        let seen: Vec<(Key, u64)> = recs
            .all(&db, &w)
            .into_iter()
            .map(|(k, v, _)| (k, v.n))
            .collect();
        assert!(db.accepts(&w));
        w.commit(&mut db);

        // A reader that opens after the commit sees what its transaction saw.
        let r = db.read();
        let live: Vec<(Key, u64)> = recs
            .all(&db, &r)
            .into_iter()
            .map(|(k, v, _)| (k, v.n))
            .collect();
        assert_eq!(live, seen);

        for c in differ.next(&db, &r).unwrap().0 {
            if c.deleted {
                map.remove(&c.key);
            } else {
                map.insert(c.key, c.value.n);
            }
        }
        assert_eq!(map.clone().into_iter().collect::<Vec<_>>(), live);

        for tenant in TENANTS {
            let want: Vec<Key> = recs
                .all(&db, &r)
                .into_iter()
                .filter(|(_, v, _)| v.tenant == tenant)
                .map(|(k, _, _)| k)
                .collect();
            let listed: Vec<Key> = recs
                .by_index(&db, &r, "tenant", tenant.as_bytes())
                .into_iter()
                .map(|(v, _)| v.key.clone())
                .collect();
            assert_eq!(listed, want);
        }
        if round % 50 == 0 {
            open_readers.push((db.read(), live));
        }
        if round == 300 {
            db.compact(200);
            open_readers.retain(|(r, _)| r.revision() >= 200);
        }
    }
    for (r, held) in &open_readers {
        let now: Vec<(Key, u64)> = recs
            .all(&db, r)
            .into_iter()
            .map(|(k, v, _)| (k, v.n))
            .collect();
        assert_eq!(now, *held);
        let listed: BTreeSet<Key> = recs
            .by_index(&db, r, "tenant", b"red")
            .into_iter()
            .map(|(v, _)| v.key.clone())
            .collect();
        let want: BTreeSet<Key> = recs
            .all(&db, r)
            .into_iter()
            .filter(|(_, v, _)| v.tenant == "red")
            .map(|(k, _, _)| k)
            .collect();
        assert_eq!(listed, want);
    }
    assert!(!open_readers.is_empty());
}

/// Reading in two steps tells what reading in one would have told.
#[test]
fn reads_of_the_stream_add_up() {
    let (mut db, recs) = open();
    let mut w = db.write();
    let mut twice = recs.changes(&db, &mut w);
    let mut once = recs.changes(&db, &mut w);
    drop(w);
    for n in 1..=3 {
        put(&mut db, recs, b"a", n);
    }
    let mid = db.read();
    for n in 4..=5 {
        put(&mut db, recs, b"b", n);
    }
    let mut told: Vec<(Key, Revision)> = Vec::new();
    for r in [&mid, &db.read()] {
        let (list, _) = twice.next(&db, r).unwrap();
        told.extend(list.into_iter().map(|c| (c.key, c.revision)));
    }
    let all: Vec<(Key, Revision)> = once
        .next(&db, &db.read())
        .unwrap()
        .0
        .into_iter()
        .map(|c| (c.key, c.revision))
        .collect();
    assert_eq!(told, all);
    assert_eq!(all.len(), 5);
}

/// The bound may be past the last revision. A reader at the last revision reads
/// on, and the next commits are written as ever.
#[test]
fn a_compaction_past_the_last_revision_spares_the_newest_values() {
    let (mut db, recs) = open();
    put(&mut db, recs, b"a", 1);
    put(&mut db, recs, b"b", 2);
    take(&mut db, recs, b"b");
    db.compact(100);
    let r = db.read();
    assert_eq!(r.revision(), 3);
    assert_eq!(recs.get(&db, &r, b"a").map(|(v, rev)| (v.n, rev)), Some((1, 1)));
    assert!(recs.versions(&db, &r, b"b").is_empty());
    assert!(!recs.recorded(&db));

    put(&mut db, recs, b"a", 4);
    put(&mut db, recs, b"a", 5);
    let r = db.read();
    assert_eq!(recs.get(&db, &r, b"a").map(|(v, rev)| (v.n, rev)), Some((5, 5)));
    assert_eq!(recs.versions(&db, &r, b"a").len(), 2);
    // A lower bound does not bring back what is gone.
    db.compact(1);
    assert!(!recs.recorded(&db));
}

/// A compaction at or below an earlier bound takes nothing more.
#[test]
fn compacting_again_changes_nothing() {
    let (mut db, recs) = open();
    let mut w = db.write();
    let mut reader = recs.changes(&db, &mut w);
    drop(w);
    put(&mut db, recs, b"a", 1);
    put(&mut db, recs, b"b", 2);
    take(&mut db, recs, b"b");
    put(&mut db, recs, b"c", 4);
    db.compact(3);
    put(&mut db, recs, b"a", 5);
    take(&mut db, recs, b"c");
    let r = db.read();
    let held = |db: &Recs| {
        (
            [b"a", b"b", b"c"].map(|k| {
                recs.versions(db, &r, k)
                    .iter()
                    .map(|v| (v.revision, v.deleted))
                    .collect::<Vec<_>>()
            }),
            recs.by_index(db, &r, "tenant", b"red").len(),
            recs.recorded(db),
        )
    };
    let before = held(&db);
    assert_eq!(
        before.0,
        [
            vec![(1, false), (5, false)],
            vec![],
            vec![(4, false), (6, true)]
        ]
    );
    for rev in [0, 1, 3] {
        db.compact(rev);
        assert_eq!(held(&db), before);
        assert_eq!(db.read().revision(), 6);
        assert_eq!(reader.next(&db, &r).err(), Some(Compacted { at: 3 }));
    }
}

/// What one reading tells comes in order, past what was read, each key once per
/// revision.
#[test]
fn one_reading_is_in_order() {
    let (mut db, recs) = open();
    let mut w = db.write();
    let mut reader = recs.changes(&db, &mut w);
    drop(w);
    for n in 1..=5 {
        let mut w = db.write();
        for key in [b"b", b"a", b"b"] {
            recs.insert(&db, &mut w, rec(key, "red", n));
        }
        w.commit(&mut db);
    }
    let told: Vec<(Revision, Key)> = reader
        .next(&db, &db.read())
        .unwrap()
        .0
        .into_iter()
        .map(|c| (c.revision, c.key))
        .collect();
    let want: Vec<(Revision, Key)> = (1..=5)
        .flat_map(|n| [(n, b"b".to_vec()), (n, b"a".to_vec())])
        .collect();
    assert_eq!(told, want);
}

#[test]
fn the_error_names_the_last_revision_lost() {
    let (mut db, recs) = open();
    let mut w = db.write();
    let mut reader = recs.changes(&db, &mut w);
    drop(w);
    for n in 1..=4 {
        put(&mut db, recs, b"a", n);
    }
    db.compact(2);
    let failed = reader.next(&db, &db.read()).err();
    assert_eq!(failed, Some(Compacted { at: 2 }));
    // It stays lost until the reader is taken anew.
    assert_eq!(reader.next(&db, &db.read()).err(), Some(Compacted { at: 2 }));
    let mut w = db.write();
    let mut reader = recs.changes(&db, &mut w);
    drop(w);
    assert_eq!(reader.next(&db, &db.read()).unwrap().0.len(), 0);
}

/// A change at the highest revision there is is told once.
#[test]
fn the_highest_revision_is_told_once() {
    let (mut db, recs) = open();
    let mut w = db.write();
    let mut reader = recs.changes(&db, &mut w);
    drop(w);
    let mut w = db.write_at(u64::MAX);
    recs.insert(&db, &mut w, rec(b"a", "red", 1));
    assert_eq!(w.commit(&mut db), u64::MAX);
    let r = db.read();
    assert_eq!(reader.next(&db, &r).unwrap().0.len(), 1);
    assert_eq!(reader.next(&db, &r).unwrap().0.len(), 0);
}

#[test]
fn empty_keys_are_keys() {
    let (mut db, recs) = open();
    let mut w = db.write();
    recs.insert(&db, &mut w, rec(b"", "", 1));
    recs.insert(&db, &mut w, rec(b"a", "", 2));
    w.commit(&mut db);
    let r = db.read();
    assert_eq!(recs.get(&db, &r, b"").unwrap().0.n, 1);
    assert_eq!(recs.prefix(&db, &r, b"").len(), 2);
    assert_eq!(recs.lower_bound(&db, &r, b"\0").len(), 1);
    assert_eq!(recs.by_index(&db, &r, "tenant", b"").len(), 2);
    assert!(recs.by_index(&db, &r, "tenant", b"\0").is_empty());
}

/// What a transaction reads of a key it loaded and wrote, and what its commit
/// leaves there, record included.
#[test]
fn a_load_takes_the_place_of_what_was_written() {
    let (mut db, recs) = open();
    let mut w = db.write_at(9);
    recs.insert(&db, &mut w, rec(b"a", "red", 1));
    recs.load(
        &db,
        &mut w,
        b"a",
        vec![version(3, b"a", "blue", false), version(5, b"a", "green", false)],
    );
    assert_eq!(recs.get(&db, &w, b"a").map(|(v, r)| (v.n, r)), Some((5, 5)));
    assert!(recs.delete(&db, &mut w, b"a").is_some());
    assert!(recs.get(&db, &w, b"a").is_none());
    assert_eq!(
        recs.versions(&db, &w, b"a")
            .iter()
            .map(|v| (v.revision, v.deleted))
            .collect::<Vec<_>>(),
        [(3, false), (5, false), (9, true)]
    );
    assert!(recs.delete(&db, &mut w, b"a").is_none());
    w.commit(&mut db);
    assert!(recs.recorded(&db));
    assert!(recs.by_index(&db, &db.read(), "tenant", b"green").is_empty());
    db.compact(9);
    assert!(recs.versions(&db, &db.read(), b"a").is_empty());
}

#[test]
fn a_load_is_refused_for_a_reason() {
    let (mut db, recs) = open();
    let w = db.write_at(5);
    let fine = vec![version(3, b"a", "red", false), version(5, b"a", "red", true)];
    assert_eq!(recs.refuses(&db, &w, &fine), None);
    assert_eq!(recs.refuses(&db, &w, &vec![]), Some(Refusal::Empty));
    let ahead = vec![version(6, b"a", "red", false)];
    assert_eq!(recs.refuses(&db, &w, &ahead), Some(Refusal::Ahead));
    let twice = vec![version(3, b"a", "red", false), version(3, b"a", "red", true)];
    assert_eq!(recs.refuses(&db, &w, &twice), Some(Refusal::Unordered));
    drop(w);
    put(&mut db, recs, b"b", 1);
    let w = db.write_at(5);
    assert_eq!(recs.refuses(&db, &w, &fine), Some(Refusal::Recorded));
}

#[test]
fn a_repeated_index_name_is_found() {
    let other = Index {
        name: "other",
        keys: rec_tenant as Keys,
    };
    assert_eq!(repeated::<Keys>(&[]), None);
    assert_eq!(repeated(&[BY_TENANT, other]), None);
    assert_eq!(repeated(&[BY_TENANT, other, BY_TENANT, other]), Some(2));
}

#[test]
fn a_transaction_is_accepted_only_where_it_was_opened() {
    let (mut db, recs) = open();
    let (other, _) = {
        let mut db = Recs::new(8);
        let recs = db.table("recs", rec_key, &[]);
        (db, recs)
    };
    let mut w = db.write();
    recs.insert(&db, &mut w, rec(b"a", "red", 1));
    assert!(db.accepts(&w));
    assert!(!other.accepts(&w));
    // Another commit came first.
    put(&mut db, recs, b"b", 1);
    assert!(!db.accepts(&w));

    // A record came between the load and its commit.
    let (mut db, recs) = open();
    let mut w = db.write();
    recs.load(&db, &mut w, b"a", vec![version(1, b"a", "red", false)]);
    assert!(db.accepts(&w));
    put(&mut db, recs, b"b", 1);
    let mut late = db.write();
    assert!(db.accepts(&late));
    recs.insert(&db, &mut late, rec(b"c", "red", 1));
    assert!(db.accepts(&late));
    assert!(!db.accepts(&w));
}

#[test]
fn a_database_knows_its_own_tables_and_indexes() {
    let (mut db, recs) = open();
    let late = db.table("late", rec_key, &[]);
    let other = Recs::new(8);
    assert_eq!((db.id(), other.id()), (7, 8));
    assert_eq!((recs.name(), late.name()), ("recs", "late"));
    assert!(db.holds(&recs) && db.holds(&late));
    assert!(!other.holds(&recs));
    assert!(recs.has_index(&db, "tenant"));
    assert!(!recs.has_index(&db, "colour"));
    assert!(!late.has_index(&db, "tenant"));
    assert_eq!(db.wedged(), 0);
    assert_eq!(db.tables(), 2);
}

/// A watch goes by the revision of what it covers: it is silent about commits
/// before it, to other tables and without writes, and speaks after its own.
#[test]
fn a_watch_covers_one_table_or_all() {
    let (mut db, recs) = open();
    let late = db.table("late", rec_key, &[]);
    put(&mut db, recs, b"a", 1);

    let mut whole = db.watch();
    assert_eq!(whole.covers(), Covers::Db);
    assert_eq!(whole.at(), 1);
    // What was sent before the watch was taken counts as seen.
    assert_eq!(whole.revisions().has_changed().ok(), Some(false));

    let mut w = db.write();
    let mut reader = recs.changes(&db, &mut w);
    drop(w);
    let (_, mut own) = reader.next(&db, &db.read()).unwrap();
    assert_eq!(own.covers(), Covers::Table(0));
    assert_eq!(own.at(), 1);

    put(&mut db, late, b"x", 1);
    db.compact(1);
    assert_eq!(db.covered(&whole), Some(2));
    assert_eq!(db.covered(&own), Some(1));
    assert!(!whole.waits(2, Heard::Revision));
    assert!(own.waits(1, Heard::Revision));
    assert!(!own.waits(1, Heard::Closed));
    assert!(whole.is_closed(db.covered(&whole)));
    assert!(!own.is_closed(db.covered(&own)));
    assert!(own.settled(Some(1), true) && !own.settled(Some(1), false));
    assert!(own.settled(Some(2), false) && !own.settled(None, false));

    put(&mut db, recs, b"a", 2);
    assert_eq!(db.covered(&own), Some(3));
    // Both hear the channel the commit was announced on.
    let mut copy = own.clone();
    assert_eq!(own.revisions().has_changed().ok(), Some(true));
    assert_eq!(*own.revisions().borrow(), 3);
    assert_eq!(*copy.revisions().borrow(), 3);
    assert_eq!((copy.at(), copy.covers()), (own.at(), own.covers()));

    // A database without the table has nothing to say about it.
    let other = Recs::new(8);
    assert_eq!(other.covered(&own), None);

    assert!(db.closed(&own) && db.closed(&whole));
    let fresh = db.watch();
    assert!(!db.closed(&fresh));
    // A closed database reads on and lets its watches go.
    db.close();
    assert!(db.closed(&fresh) && fresh.is_closed(None));
    assert_eq!(recs.get(&db, &db.read(), b"a").unwrap().0.n, 2);
    put(&mut db, recs, b"a", 3);
    assert_eq!(db.read().revision(), 4);
    assert_eq!(*own.revisions().borrow(), 3);

    drop(db);
    assert!(copy.is_closed(None));
    assert_eq!(copy.revisions().has_changed().ok(), None);
}

/// A walk hands out keys in ascending order and misses none that stays, while
/// the tree is reshaped between its steps.
#[test]
fn a_walk_survives_a_tree_that_is_reshaped_under_it() {
    let mut tree: Tree<u64> = Tree::new();
    let mut stays: BTreeSet<Vec<u8>> = BTreeSet::new();
    for i in 0..=255u8 {
        tree.insert(&[i, 0], u64::from(i));
        stays.insert(vec![i, 0]);
        tree.insert(&[i, 1], 0);
    }
    let mut rng = Lcg(0x2026_0907);
    let mut walk = tree.range_from(&[]);
    let mut last: Option<Vec<u8>> = None;
    let mut seen: BTreeSet<Vec<u8>> = BTreeSet::new();
    while let Some((key, _)) = walk.next(&tree) {
        assert!(last.as_ref().map_or(true, |last| *last < key));
        seen.insert(key.clone());
        last = Some(key);
        for _ in 0..3 {
            let i = rng.below(256) as u8;
            if rng.below(2) == 0 {
                tree.remove(&[i, 1]);
            } else {
                tree.insert(&[i, 2 + rng.below(9) as u8], 1);
            }
        }
        assert!(tree.assert_invariants());
    }
    assert!(seen.is_superset(&stays));
}

#[test]
fn a_tree_drops_everything_below_a_key() {
    let mut tree: Tree<u64> = Tree::default();
    for i in 0..=255u8 {
        tree.insert(&[i], u64::from(i));
    }
    assert!(tree.contains(&[9]));
    assert_eq!(tree.find(&[9]), Some(&9));
    tree.remove_below(&[200]);
    assert!(tree.assert_invariants());
    let left = tree.range_from(&[]).collect(&tree);
    assert_eq!(left.len(), 56);
    assert_eq!(left[0], (vec![200], 200));
    assert!(!tree.contains(&[9]));
    tree.remove_all(&vec![vec![200], vec![7], vec![255]]);
    assert_eq!(tree.range_from(&[]).collect(&tree).len(), 54);
    tree.remove_below(&[255, 255]);
    assert_eq!(tree.range_from(&[]).collect(&tree).len(), 0);
    assert!(tree.assert_invariants());
}
