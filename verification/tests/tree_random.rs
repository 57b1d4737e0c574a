//! The tree against a `BTreeMap` over a fixed-seed random operation stream.

use std::collections::BTreeMap;

use sloppy::tree::Tree;

/// Numerical Recipes LCG. Fixed seed, so a failure repeats.
struct Lcg(u64);

impl Lcg {
    fn step(&mut self) -> u64 {
        self.0 = self
            .0
            .wrapping_mul(6_364_136_223_846_793_005)
            .wrapping_add(1_442_695_040_888_963_407);
        self.0 >> 11
    }

    fn below(&mut self, n: u64) -> u64 {
        self.step() % n
    }

    /// A key of length 0..8 over a three-letter alphabet, so prefixes collide.
    fn key(&mut self) -> Vec<u8> {
        let len = self.below(9);
        (0..len)
            .map(|_| b'a' + u8::try_from(self.below(3)).unwrap())
            .collect()
    }
}

/// What a walk from `key` hands out, one step at a time.
fn walked(tree: &Tree<u64>, key: &[u8]) -> Vec<(Vec<u8>, u64)> {
    let mut walk = tree.range_from(key);
    let mut list = Vec::new();
    while let Some(entry) = walk.next(tree) {
        list.push(entry);
    }
    list
}

fn entries(tree: &Tree<u64>) -> Vec<(Vec<u8>, u64)> {
    walked(tree, &[])
}

fn model_entries<'a>(it: impl Iterator<Item = (&'a Vec<u8>, &'a u64)>) -> Vec<(Vec<u8>, u64)> {
    it.map(|(k, v)| (k.clone(), *v)).collect()
}

#[test]
fn matches_btreemap() {
    let mut rng = Lcg(0x2026_0904);
    let mut tree: Tree<u64> = Tree::new();
    let mut model: BTreeMap<Vec<u8>, u64> = BTreeMap::new();
    let mut ops = 0;
    let mut stamp = 0;
    let mut hit_deletes = 0;

    while ops < 20_000 {
        let batch = 1 + rng.below(16);
        for _ in 0..batch {
            let key = rng.key();
            match rng.below(6) {
                0 | 1 => {
                    let gone = tree.remove(&key);
                    assert_eq!(gone, model.remove(&key), "remove {key:?}");
                    hit_deletes += usize::from(gone.is_some());
                }
                2 => {
                    tree.update(&key, |value| *value += 1_000_000);
                    if let Some(value) = model.get_mut(&key) {
                        *value += 1_000_000;
                    }
                }
                _ => {
                    stamp += 1;
                    assert_eq!(
                        tree.insert(&key, stamp),
                        model.insert(key.clone(), stamp),
                        "insert {key:?}"
                    );
                }
            }
            assert_eq!(
                tree.get(&key),
                model.get(&key).copied(),
                "read back {key:?}"
            );
            ops += 1;
        }

        assert!(tree.assert_invariants());
        assert_eq!(entries(&tree), model_entries(model.iter()));

        for _ in 0..4 {
            let key = rng.key();
            assert_eq!(tree.get(&key), model.get(&key).copied(), "get {key:?}");
        }
        for _ in 0..2 {
            let key = rng.key();
            let want = model_entries(model.range(key.clone()..));
            assert_eq!(walked(&tree, &key), want, "range_from {key:?}");
        }
    }
    assert!(!entries(&tree).is_empty());
    // The stream has to exercise removal and merging, not just misses.
    assert!(hit_deletes > 1_000, "only {hit_deletes} deletes hit");
}

/// 257 keys under one prefix and back down to two, which drives the leaves
/// through split, borrow and merge, checked against the model after every
/// single write.
#[test]
fn a_node_grows_and_shrinks_through_every_split_and_merge() {
    let mut tree: Tree<u64> = Tree::new();
    let mut model: BTreeMap<Vec<u8>, u64> = BTreeMap::new();

    let mut keys = vec![b"k".to_vec()];
    keys.extend((0..=255u8).map(|byte| vec![b'k', byte]));

    for (i, key) in keys.iter().enumerate() {
        let stamp = u64::try_from(i).unwrap();
        assert_eq!(tree.insert(key, stamp), None);
        model.insert(key.clone(), stamp);
        assert!(tree.assert_invariants());
        assert_eq!(entries(&tree), model_entries(model.iter()));
    }
    assert_eq!(entries(&tree).len(), 257, "every key is there");

    // Back down to two, from the middle outwards so the removals do not all
    // fall at one end.
    let mut order: Vec<&Vec<u8>> = keys[1..].iter().collect();
    order.sort_by_key(|key| key[1].wrapping_sub(128));
    for key in order.iter().take(255) {
        assert!(tree.remove(key).is_some());
        model.remove(*key);
        assert!(tree.assert_invariants());
        assert_eq!(entries(&tree), model_entries(model.iter()));
    }
    assert_eq!(
        entries(&tree).len(),
        2,
        "the prefix and the last key under it"
    );
}

#[test]
fn a_walk_keeps_keys_that_extend_the_last_one_with_zero_bytes() {
    // The walk seeks the next leaf at `last ++ 0x00`, so a key that is exactly
    // that, or extends it, must still come out. Enough keys to cross leaves.
    let mut tree: Tree<u64> = Tree::new();
    let mut model = BTreeMap::new();
    for i in 0..=255u8 {
        for key in [
            vec![i],
            vec![i, 0],
            vec![i, 0, 0],
            vec![i, 0, 1],
            vec![i, 1],
        ] {
            tree.insert(&key, u64::from(i));
            model.insert(key, u64::from(i));
        }
    }
    assert_eq!(entries(&tree), model_entries(model.iter()));
}
