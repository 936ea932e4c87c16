use std::collections::BTreeMap;

use latebra::mem::MemStore;
use latebra::smt::{empty_root, prune, reachable_nodes, verify, Smt};
use latebra::store::{Column, KVStore};

fn k(bytes: &[u8]) -> [u8; 32] {
    let mut key = [0u8; 32];
    key[..bytes.len().min(32)].copy_from_slice(&bytes[..bytes.len().min(32)]);
    key
}

// Tiny deterministic PRNG so tests need no rand dependency.
struct Rng(u64);

impl Rng {
    fn next(&mut self) -> u64 {
        self.0 ^= self.0 << 13;
        self.0 ^= self.0 >> 7;
        self.0 ^= self.0 << 17;
        self.0
    }
    fn key(&mut self) -> [u8; 32] {
        let mut key = [0u8; 32];
        for chunk in key.chunks_mut(8) {
            let n = chunk.len();
            chunk.copy_from_slice(&self.next().to_le_bytes()[..n]);
        }
        key
    }
}

/// Number of nodes physically present in Column::State.
fn node_count(s: &MemStore) -> usize {
    s.scan_prefix(Column::State, b"").len()
}

#[test]
fn empty_tree() {
    let mut s = MemStore::new();
    let t = Smt::new(&mut s);
    assert!(t.is_empty());
    assert_eq!(t.root(), empty_root());
    assert!(t.get(&k(b"absent")).is_none());
    // Non-membership proof against the empty root.
    let p = t.prove(&k(b"absent"));
    assert!(verify(&t.root(), &k(b"absent"), None, &p));
}

#[test]
fn insert_get_and_membership_proof() {
    let mut s = MemStore::new();
    let mut t = Smt::new(&mut s);
    let key = k(b"alice");
    t.update(&key, b"100");
    assert_eq!(t.get(&key), Some(b"100".to_vec()));
    assert!(!t.is_empty());

    let p = t.prove(&key);
    assert!(verify(&t.root(), &key, Some(b"100"), &p));
    // Wrong value must not verify as inclusion.
    assert!(!verify(&t.root(), &key, Some(b"999"), &p));
}

#[test]
fn two_keys_diverging_early_and_late() {
    let mut s = MemStore::new();
    let mut t = Smt::new(&mut s);
    // Diverge in the very first bit.
    let a = {
        let mut x = [0u8; 32];
        x[0] = 0x00;
        x
    };
    let b = {
        let mut x = [0u8; 32];
        x[0] = 0x80;
        x
    };
    // Diverge only in the very last bit.
    let c = [0x11u8; 32];
    let mut d = [0x11u8; 32];
    d[31] ^= 0x01;

    for (key, val) in [(a, "a"), (b, "b"), (c, "c"), (d, "d")] {
        t.update(&key, val.as_bytes());
    }
    for (key, val) in [(a, "a"), (b, "b"), (c, "c"), (d, "d")] {
        assert_eq!(t.get(&key), Some(val.as_bytes().to_vec()));
        assert!(verify(&t.root(), &key, Some(val.as_bytes()), &t.prove(&key)));
    }
}

#[test]
fn root_is_insertion_order_independent() {
    let pairs = [(k(b"x"), b"1".as_ref()), (k(b"yy"), b"2"), (k(b"zzz"), b"3"), (k(b"w"), b"4")];

    let mut s1 = MemStore::new();
    let mut t1 = Smt::new(&mut s1);
    for (key, v) in pairs.iter() {
        t1.update(key, v);
    }

    let mut s2 = MemStore::new();
    let mut t2 = Smt::new(&mut s2);
    for (key, v) in pairs.iter().rev() {
        t2.update(key, v);
    }
    assert_eq!(t1.root(), t2.root(), "same set, same root regardless of order");
}

#[test]
fn update_changes_then_reproduces_root() {
    let mut s = MemStore::new();
    let mut t = Smt::new(&mut s);
    let key = k(b"acct");
    t.update(&key, b"10");
    let r1 = t.root();
    t.update(&key, b"20");
    assert_ne!(t.root(), r1);
    assert_eq!(t.get(&key), Some(b"20".to_vec()));
    t.update(&key, b"10");
    assert_eq!(t.root(), r1, "reverting the value reverts the root");
}

#[test]
fn delete_is_canonical() {
    let mut s = MemStore::new();
    let mut t = Smt::new(&mut s);
    let a = k(b"aaa");
    let b = k(b"bbb");

    t.update(&a, b"1");
    let only_a = t.root();
    t.update(&b, b"2");
    t.remove(&b);
    assert_eq!(t.root(), only_a, "insert+delete leaves the tree unchanged");
    assert_eq!(t.get(&a), Some(b"1".to_vec()));
    assert!(t.get(&b).is_none());

    t.remove(&a);
    assert!(t.is_empty(), "deleting the last key empties the tree");
    assert_eq!(t.root(), empty_root());
}

#[test]
fn non_membership_and_tamper_resistance() {
    let mut s = MemStore::new();
    let mut t = Smt::new(&mut s);
    t.update(&k(b"present"), b"v");

    let absent = k(b"absent");
    let p = t.prove(&absent);
    assert!(verify(&t.root(), &absent, None, &p), "genuine non-membership verifies");

    // Tamper: flip a sibling (or fabricate one), must fail.
    let mut bad = p.clone();
    bad.siblings.push([9u8; 32]);
    assert!(!verify(&t.root(), &absent, None, &bad));

    // A membership claim for an absent key must fail.
    assert!(!verify(&t.root(), &absent, Some(b"v"), &t.prove(&absent)));
}

#[test]
fn persists_and_reopens_by_root() {
    let mut s = MemStore::new();
    let root = {
        let mut t = Smt::new(&mut s);
        t.update(&k(b"a"), b"1");
        t.update(&k(b"b"), b"2");
        t.root()
    };
    // Reopen against the same store from just the root hash.
    let t = Smt::from_root(&mut s, root);
    assert_eq!(t.get(&k(b"a")), Some(b"1".to_vec()));
    assert_eq!(t.get(&k(b"b")), Some(b"2".to_vec()));
    assert!(verify(&t.root(), &k(b"a"), Some(b"1"), &t.prove(&k(b"a"))));
}

#[test]
fn prune_drops_garbage_keeps_current_root_fully_readable() {
    let mut s = MemStore::new();
    let mut t = Smt::new(&mut s);
    let mut rng = Rng(42);
    let mut keys = Vec::new();
    // Churn: every overwrite strands the old path's nodes as garbage.
    for i in 0..64u32 {
        let key = rng.key();
        t.update(&key, &i.to_le_bytes());
        keys.push((key, i));
    }
    for round in 1..=5u32 {
        for (key, i) in &keys {
            t.update(key, &(i + round * 1000).to_le_bytes());
        }
    }
    let root = t.root();
    let before = node_count(&s);
    let stats = prune(&mut s, &[root]);
    let after = node_count(&s);
    assert!(stats.dropped > 0, "churn must have created garbage");
    assert_eq!(after, stats.kept, "sweep leaves exactly the marked set");
    assert_eq!(before, stats.kept + stats.dropped);

    // The retained root is fully intact: reads and proofs for every key.
    let t = Smt::from_root(&mut s, root);
    for (key, i) in &keys {
        let val = (i + 5000).to_le_bytes();
        assert_eq!(t.get(key), Some(val.to_vec()));
        assert!(verify(&t.root(), key, Some(&val), &t.prove(key)));
    }
    // Pruning an already-pruned store is a no-op.
    let again = prune(&mut s, &[root]);
    assert_eq!(again.dropped, 0);
    assert_eq!(again.kept, stats.kept);
}

#[test]
fn prune_retains_historical_roots_on_request() {
    let mut s = MemStore::new();
    let mut t = Smt::new(&mut s);
    t.update(&k(b"alice"), b"10");
    t.update(&k(b"bob"), b"20");
    let old_root = t.root();
    t.update(&k(b"alice"), b"99");
    t.update(&k(b"carol"), b"5");
    let new_root = t.root();

    // Retaining both roots keeps the old state queryable (archive window).
    prune(&mut s, &[new_root, old_root]);
    let old = Smt::from_root(&mut s, old_root);
    assert_eq!(old.get(&k(b"alice")), Some(b"10".to_vec()));
    assert!(verify(&old_root, &k(b"alice"), Some(b"10"), &old.prove(&k(b"alice"))));
    let new = Smt::from_root(&mut s, new_root);
    assert_eq!(new.get(&k(b"alice")), Some(b"99".to_vec()));

    // Dropping the old root from the retain set garbage-collects what only
    // it referenced, while the current root stays whole.
    let stats = prune(&mut s, &[new_root]);
    assert!(stats.dropped > 0, "old-root-only nodes must go");
    let new = Smt::from_root(&mut s, new_root);
    assert_eq!(new.get(&k(b"alice")), Some(b"99".to_vec()));
    assert_eq!(new.get(&k(b"bob")), Some(b"20".to_vec()));
    assert_eq!(new.get(&k(b"carol")), Some(b"5".to_vec()));
    assert!(verify(&new_root, &k(b"bob"), Some(b"20"), &new.prove(&k(b"bob"))));
}

#[test]
fn pruned_store_reproduces_a_fresh_rebuild() {
    // Oracle: after churn + prune, the surviving node set is exactly what a
    // from-scratch build of the final key/value set produces.
    let mut rng = Rng(7);
    let mut s = MemStore::new();
    let mut t = Smt::new(&mut s);
    let mut model = BTreeMap::new();
    let mut keys: Vec<[u8; 32]> = Vec::new();
    for i in 0..300u32 {
        if rng.next() % 10 < 7 || keys.is_empty() {
            let key = rng.key();
            t.update(&key, &i.to_le_bytes());
            model.insert(key, i.to_le_bytes().to_vec());
            keys.push(key);
        } else {
            let key = keys.swap_remove((rng.next() as usize) % keys.len());
            t.remove(&key);
            model.remove(&key);
        }
    }
    let root = t.root();
    prune(&mut s, &[root]);

    let mut s2 = MemStore::new();
    let mut fresh = Smt::new(&mut s2);
    for (key, val) in &model {
        fresh.update(key, val);
    }
    assert_eq!(root, fresh.root());
    // Exactly the reachable set survives. (Counts are NOT comparable across
    // stores: a leaf at depth d shares its content-address with the internal
    // node (leaf@d+1, empty), so a churned store may hold a deeper, equally
    // valid, materialization than a fresh build.)
    assert_eq!(node_count(&s), reachable_nodes(&s, &[root]).len());
    let t = Smt::from_root(&mut s, root);
    for (key, val) in &model {
        assert_eq!(t.get(key).as_ref(), Some(val));
        assert!(verify(&t.root(), key, Some(val), &t.prove(key)));
    }
}

#[test]
fn matches_reference_over_random_workload() {
    let mut rng = Rng(0x9E3779B97F4A7C15);
    let mut s = MemStore::new();
    let mut t = Smt::new(&mut s);
    let mut model: BTreeMap<[u8; 32], Vec<u8>> = BTreeMap::new();

    // Mixed inserts, updates and deletes.
    let mut keys: Vec<[u8; 32]> = Vec::new();
    for i in 0..400u32 {
        let op = rng.next() % 10;
        if op < 7 || keys.is_empty() {
            let key = rng.key();
            let val = i.to_le_bytes().to_vec();
            t.update(&key, &val);
            model.insert(key, val);
            keys.push(key);
        } else {
            let idx = (rng.next() as usize) % keys.len();
            let key = keys.swap_remove(idx);
            t.remove(&key);
            model.remove(&key);
        }
    }

    // Every model entry reads back and proves; absent keys prove absence.
    for (key, val) in &model {
        assert_eq!(t.get(key).as_ref(), Some(val));
        assert!(verify(&t.root(), key, Some(val), &t.prove(key)));
    }
    for _ in 0..50 {
        let key = rng.key();
        if !model.contains_key(&key) {
            assert!(t.get(&key).is_none());
            assert!(verify(&t.root(), &key, None, &t.prove(&key)));
        }
    }

    // Order independence: replaying the final model set fresh reproduces root.
    let mut s2 = MemStore::new();
    let mut t2 = Smt::new(&mut s2);
    for (key, val) in &model {
        t2.update(key, val);
    }
    assert_eq!(t.root(), t2.root(), "root depends only on final key/value set");
}

#[test]
fn a_lost_node_is_noticed() {
    let mut s = MemStore::new();
    let mut t = Smt::new(&mut s);
    t.update(&k(b"a"), b"1");
    t.update(&k(b"b"), b"2");
    let root = t.root();
    s.delete(Column::State, root.to_vec());
    let mut t = Smt::from_root(&mut s, root);
    assert!(!t.path_intact(&k(b"a")));
    assert!(t.try_prove(&k(b"a")).is_none());
    assert!(t.try_update(&k(b"a"), b"3").is_none());
    assert!(t.try_remove(&k(b"a")).is_none());
    assert_eq!(t.root(), root);
}

#[test]
fn a_lost_subtree_leaves_the_other_paths_whole() {
    // Three leaves: one under the left child of the root, two under the right one.
    let (a, b, c) = ([0x00u8; 32], [0x80u8; 32], [0xC0u8; 32]);
    let mut s = MemStore::new();
    let mut t = Smt::new(&mut s);
    t.update(&a, b"1");
    t.update(&b, b"2");
    t.update(&c, b"3");
    let root = t.root();
    let right = t.prove(&a).siblings[0];
    let whole = {
        let mut other = MemStore::new();
        let mut t = Smt::new(&mut other);
        t.update(&a, b"4");
        t.update(&b, b"2");
        t.update(&c, b"3");
        t.root()
    };
    s.delete(Column::State, right.to_vec());
    let mut t = Smt::from_root(&mut s, root);
    // What stood under the lost node reads as absent; the rest reads, proves and changes as
    // in a whole tree.
    assert_eq!(t.get(&a), Some(b"1".to_vec()));
    assert_eq!(t.get(&b), None);
    assert_eq!(t.get(&c), None);
    assert!(verify(&root, &a, Some(b"1"), &t.prove(&a)));
    assert!(t.path_intact(&a));
    assert!(!t.path_intact(&b));
    assert_eq!(t.update(&a, b"4"), whole);
    assert_eq!(t.get(&a), Some(b"4".to_vec()));
    assert_eq!(t.get(&b), None);
}

#[test]
fn old_roots_stay_readable_until_pruned() {
    let mut s = MemStore::new();
    let (old, now) = {
        let mut t = Smt::new(&mut s);
        for n in 0..20u8 {
            t.update(&k(&[n]), &[n]);
        }
        let old = t.root();
        for n in 0..20u8 {
            if n % 3 == 0 {
                t.remove(&k(&[n]));
            } else {
                t.update(&k(&[n]), b"new");
            }
        }
        (old, t.root())
    };
    for n in 0..20u8 {
        assert_eq!(Smt::from_root(&mut s, old).get(&k(&[n])), Some(vec![n]));
    }
    let first = prune(&mut s, &[now]);
    assert!(first.dropped > 0);
    let second = prune(&mut s, &[now]);
    assert_eq!((second.kept, second.dropped), (first.kept, 0));
    assert_eq!(Smt::from_root(&mut s, now).get(&k(&[1])), Some(b"new".to_vec()));
}
