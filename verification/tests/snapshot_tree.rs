//! The snapshot tree against a `BTreeMap`, and its snapshots against each other.

use std::collections::BTreeMap;

use sloppy::snapshot_tree::{Iter, Tree, Txn};

/// Fixed seed, so a failure repeats.
struct Lcg(u64);

impl Lcg {
    fn below(&mut self, n: u64) -> u64 {
        self.0 = self
            .0
            .wrapping_mul(6_364_136_223_846_793_005)
            .wrapping_add(1_442_695_040_888_963_407);
        (self.0 >> 11) % n
    }

    /// A key of length 0..6 over a three-letter alphabet, so prefixes collide.
    fn key(&mut self) -> Vec<u8> {
        let len = self.below(6);
        (0..len).map(|_| b"abc"[self.below(3) as usize]).collect()
    }
}

fn walked(mut iter: Iter<'_, u64>) -> Vec<(Vec<u8>, u64)> {
    let mut list = Vec::new();
    while let Some(value) = iter.next() {
        list.push((iter.key().to_vec(), *value));
    }
    list
}

fn model(it: &BTreeMap<Vec<u8>, u64>) -> Vec<(Vec<u8>, u64)> {
    it.iter().map(|(k, v)| (k.clone(), *v)).collect()
}

fn under(it: &BTreeMap<Vec<u8>, u64>, p: &[u8]) -> Vec<(Vec<u8>, u64)> {
    it.iter()
        .filter(|(k, _)| k.starts_with(p))
        .map(|(k, v)| (k.clone(), *v))
        .collect()
}

fn from(it: &BTreeMap<Vec<u8>, u64>, key: &[u8]) -> Vec<(Vec<u8>, u64)> {
    it.iter()
        .filter(|(k, _)| k.as_slice() >= key)
        .map(|(k, v)| (k.clone(), *v))
        .collect()
}

#[test]
fn a_snapshot_tree_matches_a_btreemap() {
    let mut rng = Lcg(0x2026_0904);
    let mut tree: Tree<u64> = Tree::new();
    let mut want: BTreeMap<Vec<u8>, u64> = BTreeMap::new();
    let mut kept: Vec<(Tree<u64>, Vec<(Vec<u8>, u64)>)> = Vec::new();
    let mut stamp = 0;
    for round in 0..400 {
        let mut txn: Txn<u64> = tree.txn();
        for _ in 0..rng.below(24) {
            let key = rng.key();
            if rng.below(3) == 0 {
                assert_eq!(txn.delete(&key), want.remove(&key));
            } else {
                stamp += 1;
                assert_eq!(txn.insert(&key, stamp), want.insert(key.clone(), stamp));
            }
            assert_eq!(txn.get(&key), want.get(&key));
        }
        let probe = rng.key();
        assert_eq!(walked(txn.iter()), model(&want));
        assert_eq!(walked(txn.prefix(&probe)), under(&want, &probe));
        assert_eq!(walked(txn.lower_bound(&probe)), from(&want, &probe));
        tree = txn.commit();
        assert_eq!(walked(tree.iter()), model(&want));
        assert_eq!(walked(tree.prefix(&probe)), under(&want, &probe));
        assert_eq!(walked(tree.lower_bound(&probe)), from(&want, &probe));
        assert_eq!(tree.get(&probe), want.get(&probe));
        if round % 40 == 0 {
            kept.push((tree.clone(), model(&want)));
        }
    }
    // Every snapshot still holds what it held when it was taken.
    for (tree, held) in &kept {
        assert_eq!(walked(tree.iter()), *held);
    }
    assert!(want.len() > 100);
}

#[test]
fn a_transaction_leaves_the_snapshot_it_opened_on() {
    let mut txn = Tree::new().txn();
    for i in 0..=255u8 {
        assert_eq!(txn.insert(&[i], u64::from(i)), None);
    }
    let before = txn.commit();
    let held = walked(before.iter());

    let mut txn = before.txn();
    assert_eq!(txn.insert(&[7], 1000), Some(7));
    for i in 128..=255u8 {
        assert_eq!(txn.delete(&[i]), Some(u64::from(i)));
    }
    assert_eq!(txn.delete(&[200]), None);
    assert_eq!(walked(before.iter()), held);
    let after = txn.commit();

    assert_eq!(before.get(&[7]), Some(&7));
    assert_eq!(before.get(&[200]), Some(&200));
    assert_eq!(walked(before.iter()), held);
    assert_eq!(after.get(&[7]), Some(&1000));
    assert_eq!(after.get(&[200]), None);
    assert_eq!(walked(after.iter()).len(), 128);
}

#[test]
fn a_dropped_transaction_leaves_nothing() {
    let mut txn = Tree::new().txn();
    txn.insert(b"a", 1);
    let tree: Tree<u64> = txn.commit();
    let mut txn = tree.txn();
    txn.insert(b"a", 2);
    txn.insert(b"b", 2);
    drop(txn);
    assert_eq!(walked(tree.iter()), vec![(b"a".to_vec(), 1)]);
}

#[test]
fn the_empty_key_sorts_first() {
    let mut txn = Tree::default().txn();
    txn.insert(b"a", 2);
    txn.insert(b"", 1);
    txn.insert(b"a\0", 3);
    let tree: Tree<u64> = txn.commit();
    assert_eq!(
        walked(tree.iter()),
        vec![(b"".to_vec(), 1), (b"a".to_vec(), 2), (b"a\0".to_vec(), 3)]
    );
    assert_eq!(
        walked(tree.prefix(b"a")),
        vec![(b"a".to_vec(), 2), (b"a\0".to_vec(), 3)]
    );
    assert_eq!(walked(tree.lower_bound(b"a\0")), vec![(b"a\0".to_vec(), 3)]);
    assert_eq!(walked(Tree::<u64>::new().iter()), vec![]);
}
