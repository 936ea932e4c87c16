use latebra::ledger::Ledger;
use latebra::mem::MemStore;
use latebra::overlay::OverlayStore;
use latebra::smt::{verify, Smt};
use latebra::store::{Column, Contents, KVStore, WriteBatch, WriteCount};

fn base_with(pairs: &[(&[u8], &[u8])]) -> MemStore {
    let mut b = MemStore::new();
    for (k, v) in pairs {
        b.put(Column::State, k.to_vec(), v.to_vec());
    }
    b
}

#[test]
fn reads_fall_through_and_top_overrides() {
    let base = base_with(&[(b"a", b"base-a"), (b"b", b"base-b")]);
    let mut ov = OverlayStore::new(base);
    assert_eq!(ov.get(Column::State, b"a"), Some(b"base-a".to_vec()));
    ov.put(Column::State, b"a".to_vec(), b"top-a".to_vec());
    assert_eq!(ov.get(Column::State, b"a"), Some(b"top-a".to_vec()), "top wins");
    assert_eq!(ov.get(Column::State, b"b"), Some(b"base-b".to_vec()), "still falls through");
}

#[test]
fn delete_tombstones_base_key() {
    let base = base_with(&[(b"a", b"base-a")]);
    let mut ov = OverlayStore::new(base);
    ov.delete(Column::State, b"a".to_vec());
    assert!(ov.get(Column::State, b"a").is_none(), "hidden in overlay");
    assert_eq!(ov.base().get(Column::State, b"a"), Some(b"base-a".to_vec()), "base untouched");
    // Re-putting clears the tombstone.
    ov.put(Column::State, b"a".to_vec(), b"new".to_vec());
    assert_eq!(ov.get(Column::State, b"a"), Some(b"new".to_vec()));
}

#[test]
fn clone_is_independent_of_original_and_base() {
    let base = base_with(&[(b"a", b"base")]);
    let mut ov = OverlayStore::new(base);
    ov.put(Column::State, b"x".to_vec(), b"1".to_vec());

    let mut clone = ov.clone();
    clone.put(Column::State, b"x".to_vec(), b"2".to_vec());
    clone.put(Column::State, b"y".to_vec(), b"clone-only".to_vec());

    // Original unaffected by clone's writes.
    assert_eq!(ov.get(Column::State, b"x"), Some(b"1".to_vec()));
    assert!(ov.get(Column::State, b"y").is_none());
    // Clone sees its own writes plus the shared base.
    assert_eq!(clone.get(Column::State, b"x"), Some(b"2".to_vec()));
    assert_eq!(clone.get(Column::State, b"a"), Some(b"base".to_vec()));
}

#[test]
fn scan_prefix_merges_overrides_and_tombstones() {
    let base = base_with(&[(b"ap", b"1"), (b"apple", b"2"), (b"apply", b"3"), (b"b", b"4")]);
    let mut ov = OverlayStore::new(base);
    ov.put(Column::State, b"apple".to_vec(), b"OVERRIDE".to_vec());
    ov.put(Column::State, b"apron".to_vec(), b"NEW".to_vec());
    ov.delete(Column::State, b"apply".to_vec());

    let got: Vec<(Vec<u8>, Vec<u8>)> = ov.scan_prefix(Column::State, b"ap");
    let keys: Vec<&[u8]> = got.iter().map(|(k, _)| k.as_slice()).collect();
    assert_eq!(keys, vec![b"ap".as_ref(), b"apple", b"apron"], "ordered, deleted gone");
    assert_eq!(got[1].1, b"OVERRIDE".to_vec(), "top override present");
}

#[test]
fn flush_folds_top_into_base() {
    let base = base_with(&[(b"keep", b"base")]);
    let mut ov = OverlayStore::new(base);
    ov.put(Column::State, b"new".to_vec(), b"top".to_vec());
    ov.flush();
    // A fresh overlay over the same base now sees the flushed write.
    let ov2 = OverlayStore::new(ov.into_base());
    assert_eq!(ov2.get(Column::State, b"new"), Some(b"top".to_vec()));
    assert_eq!(ov2.get(Column::State, b"keep"), Some(b"base".to_vec()));
}

#[test]
fn state_trie_works_over_overlay_and_persists_on_flush() {
    // Build a trie through the overlay, flush to base, then rebuild the trie
    // from the base alone (fresh overlay): the overlay is transparent to the
    // authenticated state layer.
    let mut keys = Vec::new();
    let mut store = OverlayStore::new(MemStore::new());
    let root = {
        let mut trie = Smt::new(&mut store);
        for i in 0u32..50 {
            let mut k = [0u8; 32];
            k[..4].copy_from_slice(&i.to_le_bytes());
            trie.update(&k, &i.to_le_bytes());
            keys.push((k, i));
        }
        trie.root()
    };
    store.flush();
    // Nothing left in a new overlay's top; all nodes came from the base.
    let mut store2 = OverlayStore::new(store.into_base());
    let trie = Smt::from_root(&mut store2, root);
    for (k, i) in &keys {
        assert_eq!(trie.get(k), Some(i.to_le_bytes().to_vec()));
        assert!(verify(&root, k, Some(&i.to_le_bytes()), &trie.prove(k)));
    }
}

#[test]
fn unflushed_writes_are_lost_with_the_overlay() {
    let mut ov = OverlayStore::in_memory();
    ov.put(Column::Meta, vec![1], vec![2]);
    assert!(ov.into_base().get(Column::Meta, &[1]).is_none());
}

/// A store that counts the batches it takes.
#[derive(Clone, Default)]
struct Counting {
    inner: MemStore,
    batches: usize,
}

impl KVStore for Counting {
    fn holds(&self) -> Contents {
        unreachable!("not a run-time value")
    }

    fn writes(&self) -> WriteCount {
        unreachable!("not a run-time value")
    }

    type Under = ();

    fn under(&self) {}

    fn holds_finitely(&self) {}

    fn get(&self, col: Column, key: &[u8]) -> Option<Vec<u8>> {
        self.inner.get(col, key)
    }

    fn write(&mut self, batch: WriteBatch) {
        self.batches += 1;
        self.inner.write(batch);
    }

    fn scan_prefix(&self, col: Column, prefix: &[u8]) -> Vec<(Vec<u8>, Vec<u8>)> {
        self.inner.scan_prefix(col, prefix)
    }
}

#[test]
fn flush_writes_one_batch_or_none() {
    let mut ov = OverlayStore::new(Counting::default());
    ov.flush();
    assert_eq!(ov.base().batches, 0, "nothing waits");
    ov.put(Column::State, b"a".to_vec(), b"1".to_vec());
    ov.put(Column::Meta, b"b".to_vec(), b"2".to_vec());
    ov.delete(Column::State, b"c".to_vec());
    assert_eq!(ov.base().batches, 0, "writes stay in the layer");
    ov.flush();
    assert_eq!(ov.base().batches, 1);
    ov.flush();
    assert_eq!(ov.base().batches, 1);
    // A delete alone is a batch too.
    ov.delete(Column::State, b"a".to_vec());
    ov.flush();
    assert_eq!(ov.base().batches, 2);
    assert!(ov.base().get(Column::State, b"a").is_none());
}

#[test]
fn a_trie_writes_one_batch_for_each_change() {
    let mut store = Counting::default();
    let mut trie = Smt::new(&mut store);
    trie.update(&[1u8; 32], b"x");
    trie.update(&[2u8; 32], b"");
    trie.remove(&[1u8; 32]);
    trie.remove(&[9u8; 32]);
    assert_eq!(store.batches, 4);
}

#[test]
fn a_copy_has_what_waits_and_writes_nothing() {
    let mut ov = OverlayStore::new(Counting::default());
    ov.put(Column::State, b"a".to_vec(), b"1".to_vec());
    let copy = ov.clone();
    assert_eq!(copy.get(Column::State, b"a"), Some(b"1".to_vec()));
    assert_eq!(copy.base().batches, 0);
    assert_eq!(copy.base().get(Column::State, b"a"), None);
    assert_eq!(ov.base().batches, 0);

    let mut l = Ledger::with_base(Counting::default(), [0u8; 64]);
    l.register([1u8; 32]).unwrap();
    let copy = l.clone();
    assert!(copy.is_registered(&[1u8; 32]));
    assert_eq!(copy.store.base().batches, 0);
    assert_eq!(l.store.base().batches, 0);
}

#[test]
fn a_new_ledger_wipes_stale_records_in_one_batch_or_writes_none() {
    let l = Ledger::with_base(Counting::default(), [0u8; 64]);
    assert_eq!(l.store.base().batches, 0);
    let mut base = Counting::default();
    base.inner.put(Column::Objects, b"one".to_vec(), b"x".to_vec());
    base.inner.put(Column::Objects, b"two".to_vec(), b"y".to_vec());
    base.inner.put(Column::Meta, b"kept".to_vec(), b"z".to_vec());
    let l = Ledger::with_base(base, [0u8; 64]);
    assert_eq!(l.store.base().batches, 1);
    assert!(l.store.base().scan_prefix(Column::Objects, b"").is_empty());
    assert_eq!(l.store.base().get(Column::Meta, b"kept"), Some(b"z".to_vec()));
}

#[test]
fn the_base_changes_at_a_flush_alone() {
    let mut l = Ledger::with_base(Counting::default(), [0u8; 64]);
    l.register([1u8; 32]).unwrap();
    l.credit_public(&[1u8; 32], 0, 5);
    let root = l.state_root().unwrap();
    l.account_proof(&[1u8; 32]).unwrap();
    assert_eq!(l.store.base().batches, 0);
    l.flush();
    assert_eq!(l.store.base().batches, 1);

    let base = l.store.into_base();
    let mut booted = Ledger::from_records(base, [0u8; 64], &[]).expect("records boot");
    assert_eq!(booted.state_root(), Some(root));
    assert_eq!(booted.store.base().batches, 1, "booting writes nothing through");
}

#[test]
fn rehome_is_one_batch() {
    let mut base = Counting::default();
    base.inner.put(Column::Objects, b"stale".to_vec(), b"x".to_vec());
    base.inner.put(Column::State, vec![9u8; 32], b"stale node".to_vec());
    base.inner.put(Column::Meta, b"kept".to_vec(), b"z".to_vec());
    let mut l: Ledger<MemStore> = Ledger::new([0u8; 64]);
    l.register([1u8; 32]).unwrap();
    let root = l.state_root().unwrap();
    l.flush();
    let nodes = l.state_node_count();
    let staged = vec![(b"tip".to_vec(), vec![3u8])];
    let mut moved = l.rehome(base, staged).expect("every node is there");
    assert_eq!(moved.store.base().batches, 1);
    assert_eq!(moved.state_root(), Some(root));
    let base = moved.store.base();
    assert_eq!(base.get(Column::Meta, b"tip"), Some(vec![3u8]));
    assert_eq!(base.get(Column::Meta, b"kept"), Some(b"z".to_vec()));
    assert_eq!(base.get(Column::Objects, b"stale"), None);
    assert_eq!(base.get(Column::State, &[9u8; 32]), None);
    assert_eq!(moved.state_node_count(), nodes);
}
