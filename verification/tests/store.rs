use latebra::mem::MemStore;
use latebra::store::{Column, KVStore, WriteBatch};

#[test]
fn lib_put_get_contains_delete() {
    let mut s = MemStore::new();
    assert!(s.get(Column::State, b"a").is_none());
    assert!(!s.contains(Column::State, b"a"));

    s.put(Column::State, b"a".to_vec(), b"1".to_vec());
    assert_eq!(s.get(Column::State, b"a"), Some(b"1".to_vec()));
    assert!(s.contains(Column::State, b"a"));

    s.delete(Column::State, b"a".to_vec());
    assert!(s.get(Column::State, b"a").is_none());
}

#[test]
fn lib_columns_are_isolated() {
    let mut s = MemStore::new();
    s.put(Column::State, b"k".to_vec(), b"state".to_vec());
    s.put(Column::Blocks, b"k".to_vec(), b"block".to_vec());
    assert_eq!(s.get(Column::State, b"k"), Some(b"state".to_vec()));
    assert_eq!(s.get(Column::Blocks, b"k"), Some(b"block".to_vec()));
    assert!(s.get(Column::TxIndex, b"k").is_none());
}

#[test]
fn batch_applies_all_ops_in_order() {
    let mut s = MemStore::new();
    s.put(Column::State, b"keep".to_vec(), b"old".to_vec());

    let mut b = WriteBatch::new();
    b.put(Column::State, b"x".to_vec(), b"1".to_vec())
        .put(Column::State, b"x".to_vec(), b"2".to_vec()) // last-writer-wins
        .put(Column::Blocks, b"y".to_vec(), b"3".to_vec())
        .delete(Column::State, b"keep".to_vec());
    assert_eq!(b.len(), 4);
    s.write(b);

    assert_eq!(s.get(Column::State, b"x"), Some(b"2".to_vec()));
    assert_eq!(s.get(Column::Blocks, b"y"), Some(b"3".to_vec()));
    assert!(s.get(Column::State, b"keep").is_none());
}

#[test]
fn lib_scan_prefix_is_ordered_and_bounded() {
    let mut s = MemStore::new();
    for k in ["ap", "apple", "applet", "apply", "banana", "b"] {
        s.put(Column::State, k.as_bytes().to_vec(), b"v".to_vec());
    }
    let keys: Vec<Vec<u8>> =
        s.scan_prefix(Column::State, b"app").into_iter().map(|(k, _)| k).collect();
    assert_eq!(
        keys,
        vec![b"apple".to_vec(), b"applet".to_vec(), b"apply".to_vec()],
        "only 'app'-prefixed keys, ascending"
    );

    // Empty prefix scans the whole column, still ordered.
    let all: Vec<Vec<u8>> =
        s.scan_prefix(Column::State, b"").into_iter().map(|(k, _)| k).collect();
    assert_eq!(all.first(), Some(&b"ap".to_vec()));
    assert_eq!(all.last(), Some(&b"banana".to_vec()));
}

#[test]
fn empty_batch_is_a_noop() {
    let mut s = MemStore::new();
    s.put(Column::State, b"a".to_vec(), b"1".to_vec());
    s.write(WriteBatch::new());
    assert_eq!(s.len(), 1);
    assert_eq!(s.get(Column::State, b"a"), Some(b"1".to_vec()));
}

#[test]
fn column_ids_are_stable_and_unique() {
    let ids: Vec<u8> = Column::ALL.iter().map(|c| c.id()).collect();
    assert_eq!(ids, vec![0, 1, 2, 3, 4], "on-disk column ids must not drift");
}

#[test]
fn batch_lists_its_writes() {
    let mut b = WriteBatch::new();
    assert!(b.is_empty());
    b.put(Column::Meta, vec![1], vec![2]).delete(Column::State, vec![3]);
    let ops = b.ops();
    assert_eq!(ops.len(), 2);
    assert_eq!(ops[0].0, Column::Meta);
    assert_eq!(ops[0].1, &[1u8][..]);
    assert_eq!(ops[0].2, Some(&[2u8][..]));
    assert_eq!(ops[1].0, Column::State);
    assert_eq!(ops[1].2, None);
}

#[test]
fn clear_empties_every_column() {
    let mut s = MemStore::new();
    assert!(s.is_empty());
    s.put(Column::Meta, vec![1], vec![2]);
    s.put(Column::Objects, vec![1], vec![2]);
    assert_eq!(s.len(), 2);
    s.clear();
    assert!(s.is_empty());
    assert!(s.get(Column::Meta, &[1]).is_none());
}

#[test]
fn length_counts_distinct_keys_of_all_columns() {
    let mut s = MemStore::new();
    assert_eq!(s.len(), 0);
    s.put(Column::State, b"a".to_vec(), b"1".to_vec());
    s.put(Column::Blocks, b"a".to_vec(), b"1".to_vec());
    assert_eq!(s.len(), 2);
    // Overwriting adds nothing, and deleting what is not there takes nothing.
    s.put(Column::State, b"a".to_vec(), b"2".to_vec());
    s.delete(Column::State, b"b".to_vec());
    s.delete(Column::Meta, b"a".to_vec());
    assert_eq!(s.len(), 2);
    s.delete(Column::State, b"a".to_vec());
    assert_eq!(s.len(), 1);
    assert!(!s.is_empty());
    s.delete(Column::Blocks, b"a".to_vec());
    assert_eq!(s.len(), 0);
    assert!(s.is_empty());
}
