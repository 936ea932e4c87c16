//! An in-memory [`KVStore`].

use vstd::prelude::*;

use crate::byte_map;
use crate::byte_map::ByteMap;
use crate::store;
use crate::store::{Column, KVStore, Op, WriteBatch};

verus! {

/// A store that lives in memory: one ordered map per column.
pub struct MemStore {
    state: ByteMap,
    blocks: ByteMap,
    tx_index: ByteMap,
    meta: ByteMap,
    objects: ByteMap,
    count: Ghost<nat>,
}

impl MemStore {
    /// The map of one column.
    pub closed spec fn col(&self, c: Column) -> ByteMap {
        match c {
            Column::State => self.state,
            Column::Blocks => self.blocks,
            Column::TxIndex => self.tx_index,
            Column::Meta => self.meta,
            Column::Objects => self.objects,
        }
    }

    pub fn new() -> (r: Self)
        ensures
            r.holds() == Map::<(Column, Seq<u8>), Seq<u8>>::empty(),
            r.writes() == 0,
    {
        let r = MemStore {
            state: ByteMap::new(),
            blocks: ByteMap::new(),
            tx_index: ByteMap::new(),
            meta: ByteMap::new(),
            objects: ByteMap::new(),
            count: Ghost(0),
        };
        assert(r.holds() =~= Map::empty());
        r
    }

    fn column_ref(&self, c: Column) -> (r: &ByteMap)
        ensures
            *r == self.col(c),
    {
        match c {
            Column::State => &self.state,
            Column::Blocks => &self.blocks,
            Column::TxIndex => &self.tx_index,
            Column::Meta => &self.meta,
            Column::Objects => &self.objects,
        }
    }

    /// How many pairs the store holds, over all columns. The number must fit in a
    /// `usize`.
    pub fn len(&self) -> (n: usize)
        requires
            self.holds().dom().len() <= usize::MAX,
        ensures
            n == self.holds().dom().len(),
    {
        let n0 = self.state.len();
        let n1 = self.blocks.len();
        let n2 = self.tx_index.len();
        let n3 = self.meta.len();
        let n4 = self.objects.len();
        proof {
            self.lemma_len();
        }
        n0 + n1 + n2 + n3 + n4
    }

    /// Drop everything.
    pub fn clear(&mut self)
        ensures
            final(self).holds() == Map::<(Column, Seq<u8>), Seq<u8>>::empty(),
            final(self).writes() == old(self).writes(),
    {
        self.state = ByteMap::new();
        self.blocks = ByteMap::new();
        self.tx_index = ByteMap::new();
        self.meta = ByteMap::new();
        self.objects = ByteMap::new();
        assert(self.holds() =~= Map::empty());
    }

    /// Whether the store holds nothing.
    pub fn is_empty(&self) -> (r: bool)
        ensures
            r == (self.holds().dom().len() == 0),
            r == (self.holds() == Map::<(Column, Seq<u8>), Seq<u8>>::empty()),
    {
        let n0 = self.state.len();
        let n1 = self.blocks.len();
        let n2 = self.tx_index.len();
        let n3 = self.meta.len();
        let n4 = self.objects.len();
        let r = n0 == 0 && n1 == 0 && n2 == 0 && n3 == 0 && n4 == 0;
        proof {
            self.lemma_column(Column::State, n0 as nat);
            self.lemma_column(Column::Blocks, n1 as nat);
            self.lemma_column(Column::TxIndex, n2 as nat);
            self.lemma_column(Column::Meta, n3 as nat);
            self.lemma_column(Column::Objects, n4 as nat);
            if r {
                assert forall|x: (Column, Seq<u8>)| !self.holds().dom().contains(x) by {
                    assert(!self.col(x.0)@.contains_key(x.1));
                }
                assert(self.holds() =~= Map::empty());
                assert(self.holds().dom() =~= Set::empty());
            }
            self.lemma_len();
        }
        r
    }

    /// A column with no keys is one whose map has size zero.
    proof fn lemma_column(&self, c: Column, n: nat)
        requires
            self.col(c)@.dom().finite(),
            self.col(c)@.dom().len() == n,
        ensures
            n == 0 ==> forall|k: Seq<u8>| !self.col(c)@.contains_key(k),
            n > 0 ==> self.holds() != Map::<(Column, Seq<u8>), Seq<u8>>::empty(),
    {
        let d = self.col(c)@.dom();
        if n == 0 {
            assert(d =~= Set::empty());
        } else {
            let k = d.choose();
            assert(d.contains(k));
            assert(self.holds().dom().contains((c, k)));
        }
    }

    spec fn keys_of(&self, c: Column) -> Set<(Column, Seq<u8>)> {
        self.col(c)@.dom().map(|k: Seq<u8>| (c, k))
    }

    proof fn lemma_keys_finite(&self, c: Column)
        ensures
            self.keys_of(c).finite(),
    {
        byte_map::lemma_finite(&self.col(c));
        self.col(c)@.dom().lemma_map_finite(|k: Seq<u8>| (c, k));
    }

    proof fn lemma_keys_len(&self, c: Column)
        ensures
            self.keys_of(c).finite(),
            self.keys_of(c).len() == self.col(c)@.dom().len(),
    {
        byte_map::lemma_finite(&self.col(c));
        vstd::set_lib::lemma_map_size(
            self.col(c)@.dom(),
            self.keys_of(c),
            |k: Seq<u8>| (c, k),
        );
    }

    proof fn lemma_key_of(&self, c: Column, x: (Column, Seq<u8>))
        ensures
            self.keys_of(c).contains(x) == (x.0 == c && self.holds().dom().contains(x)),
    {
        if x.0 == c && self.holds().dom().contains(x) {
            assert(self.col(c)@.dom().contains(x.1));
        }
    }

    /// The pairs of a store are those of its columns.
    proof fn lemma_len(&self)
        ensures
            self.holds().dom().len() == self.col(Column::State)@.dom().len() + self.col(
                Column::Blocks,
            )@.dom().len() + self.col(Column::TxIndex)@.dom().len() + self.col(
                Column::Meta,
            )@.dom().len() + self.col(Column::Objects)@.dom().len(),
    {
        self.lemma_keys_len(Column::State);
        self.lemma_keys_len(Column::Blocks);
        self.lemma_keys_len(Column::TxIndex);
        self.lemma_keys_len(Column::Meta);
        self.lemma_keys_len(Column::Objects);
        assert forall|c: Column, x: (Column, Seq<u8>)| #[trigger]
            self.keys_of(c).contains(x) == (x.0 == c && self.holds().dom().contains(x)) by {
            self.lemma_key_of(c, x);
        }
        let a = self.keys_of(Column::State).union(self.keys_of(Column::Blocks));
        let b = a.union(self.keys_of(Column::TxIndex));
        let c = b.union(self.keys_of(Column::Meta));
        let d = c.union(self.keys_of(Column::Objects));
        vstd::set_lib::lemma_set_disjoint_lens(
            self.keys_of(Column::State),
            self.keys_of(Column::Blocks),
        );
        vstd::set_lib::lemma_set_disjoint_lens(a, self.keys_of(Column::TxIndex));
        vstd::set_lib::lemma_set_disjoint_lens(b, self.keys_of(Column::Meta));
        vstd::set_lib::lemma_set_disjoint_lens(c, self.keys_of(Column::Objects));
        assert(self.holds().dom() =~= d);
    }

    fn put_one(&mut self, c: Column, key: Vec<u8>, value: Vec<u8>)
        ensures
            final(self).holds() == old(self).holds().insert((c, key@), value@),
            final(self).writes() == old(self).writes(),
    {
        let ghost k = key@;
        let ghost v = value@;
        match c {
            Column::State => self.state.insert(key, value),
            Column::Blocks => self.blocks.insert(key, value),
            Column::TxIndex => self.tx_index.insert(key, value),
            Column::Meta => self.meta.insert(key, value),
            Column::Objects => self.objects.insert(key, value),
        }
        assert(self.holds() =~= old(self).holds().insert((c, k), v));
    }

    fn delete_one(&mut self, c: Column, key: &[u8])
        ensures
            final(self).holds() == old(self).holds().remove((c, key@)),
            final(self).writes() == old(self).writes(),
    {
        match c {
            Column::State => self.state.remove(key),
            Column::Blocks => self.blocks.remove(key),
            Column::TxIndex => self.tx_index.remove(key),
            Column::Meta => self.meta.remove(key),
            Column::Objects => self.objects.remove(key),
        }
        assert(self.holds() =~= old(self).holds().remove((c, key@)));
    }
}

impl KVStore for MemStore {
    closed spec fn holds(&self) -> store::Contents {
        Map::new(
            |x: (Column, Seq<u8>)| self.col(x.0)@.contains_key(x.1),
            |x: (Column, Seq<u8>)| self.col(x.0)@[x.1],
        )
    }

    closed spec fn writes(&self) -> store::WriteCount {
        self.count@
    }

    type Under = ();

    open spec fn under(&self) -> () {
        ()
    }

    proof fn holds_finitely(&self) {
        let all = self.keys_of(Column::State).union(self.keys_of(Column::Blocks)).union(
            self.keys_of(Column::TxIndex),
        ).union(self.keys_of(Column::Meta)).union(self.keys_of(Column::Objects));
        self.lemma_keys_finite(Column::State);
        self.lemma_keys_finite(Column::Blocks);
        self.lemma_keys_finite(Column::TxIndex);
        self.lemma_keys_finite(Column::Meta);
        self.lemma_keys_finite(Column::Objects);
        assert(self.holds().dom().subset_of(all)) by {
            assert forall|x: (Column, Seq<u8>)| self.holds().dom().contains(
                x,
            ) implies all.contains(x) by {
                assert(self.col(x.0)@.dom().contains(x.1));
                assert(self.keys_of(x.0).contains(x));
            }
        }
        vstd::set_lib::lemma_set_subset_finite(all, self.holds().dom());
    }

    fn get(&self, col: Column, key: &[u8]) -> (r: Option<Vec<u8>>) {
        self.column_ref(col).get(key)
    }

    fn contains(&self, col: Column, key: &[u8]) -> (r: bool) {
        self.column_ref(col).contains(key)
    }

    fn write(&mut self, batch: WriteBatch) {
        let ghost m0 = self.holds();
        let ghost ws = batch@;
        self.count = Ghost(self.count@ + 1);
        assert(self.holds() =~= m0);
        let mut ops = batch.into_ops();
        let mut i: usize = 0;
        let n = ops.len();
        let mut rest: Vec<(Column, Vec<u8>, Op)> = Vec::new();
        assert(ws.take(0) =~= Seq::empty());
        // Reverse once, so that each write is taken from the end in its order.
        while ops.len() > 0
            invariant
                ops@.len() + rest@.len() == n,
                n == ws.len(),
                forall|j: int| 0 <= j < ops@.len() ==> store::write_of(#[trigger] ops@[j]) == ws[j],
                forall|j: int|
                    0 <= j < rest@.len() ==> store::write_of(#[trigger] rest@[j]) == ws[n - 1 - j],
            decreases ops@.len(),
        {
            if let Some(op) = ops.pop() {
                rest.push(op);
            }
        }
        while i < n
            invariant
                i <= n,
                n == ws.len(),
                rest@.len() == n - i,
                forall|j: int|
                    0 <= j < rest@.len() ==> store::write_of(#[trigger] rest@[j]) == ws[n - 1 - j],
                self.holds() == store::written(m0, ws.take(i as int)),
                self.count@ == old(self).count@ + 1,
            decreases n - i,
        {
            let ghost before = ws.take(i as int);
            if let Some((col, key, op)) = rest.pop() {
                proof {
                    let w: store::Write = (col, key@, op@);
                    assert(w == ws[i as int]);
                    assert(ws.take(i + 1) =~= before.push(w));
                    store::lemma_written_push(m0, before, w);
                }
                match op {
                    Op::Put(v) => self.put_one(col, key, v),
                    Op::Delete => self.delete_one(col, key.as_slice()),
                }
            }
            i += 1;
        }
        assert(ws.take(n as int) =~= ws);
    }

    fn scan_prefix(&self, col: Column, prefix: &[u8]) -> (r: Vec<(Vec<u8>, Vec<u8>)>) {
        assert(store::column(self.holds(), col) =~= self.col(col)@);
        self.column_ref(col).scan(prefix)
    }
}

impl Clone for MemStore {
    fn clone(&self) -> (r: Self)
        ensures
            r.holds() == self.holds(),
            r.writes() == self.writes(),
    {
        let r = MemStore {
            state: self.state.clone(),
            blocks: self.blocks.clone(),
            tx_index: self.tx_index.clone(),
            meta: self.meta.clone(),
            objects: self.objects.clone(),
            count: Ghost(self.count@),
        };
        proof {
            assert forall|c: Column| #[trigger] r.col(c)@ == self.col(c)@ by {}
            assert(r.holds() =~= self.holds());
        }
        r
    }
}

impl Default for MemStore {
    fn default() -> (r: Self)
        ensures
            r.holds() == Map::<(Column, Seq<u8>), Seq<u8>>::empty(),
    {
        MemStore::new()
    }
}

} // verus!
