//! A copy-on-write overlay over another [`KVStore`].
//!
//! An [`OverlayStore`] layers an in-memory write top over a base. Reads fall
//! through to the base unless the top has a newer value, or a tombstone hides
//! the base's key; writes only ever touch the top. That gives cheap speculative
//! execution (try a block on a throwaway layer) and deferred durability: a
//! [`OverlayStore::flush`] folds the top into the base in one write.

use vstd::prelude::*;

use crate::byte_map;
use crate::byte_map::ByteMap;
use crate::mem::MemStore;
use crate::store;
use crate::store::{Column, KVStore, WriteBatch};

verus! {

/// A key/value store that buffers writes over a base.
pub struct OverlayStore<B: KVStore> {
    /// Committed state. Only [`OverlayStore::flush`] writes it.
    base: B,
    /// Uncommitted writes.
    layer: Layer,
    count: Ghost<nat>,
}

/// Uncommitted writes: values to put and keys to drop, never both for one key.
struct Layer {
    top: MemStore,
    /// Keys deleted in the overlay: they read as absent even where the base
    /// still holds them.
    tombstones: MemStore,
}

impl Layer {
    #[verifier::type_invariant]
    spec fn inv(self) -> bool {
        forall|x: (Column, Seq<u8>)|
            self.top.holds().dom().contains(x)
                ==> !#[trigger] self.tombstones.holds().dom().contains(
                x,
            )
    }

    spec fn is_empty(&self) -> bool {
        &&& self.top.holds() == Map::<(Column, Seq<u8>), Seq<u8>>::empty()
        &&& self.tombstones.holds() == Map::<(Column, Seq<u8>), Seq<u8>>::empty()
    }

    fn new() -> (r: Self)
        ensures
            r.is_empty(),
    {
        Layer { top: MemStore::new(), tombstones: MemStore::new() }
    }

    fn copy(&self) -> (r: Self)
        ensures
            r.top.holds() == self.top.holds(),
            r.tombstones.holds() == self.tombstones.holds(),
    {
        proof {
            use_type_invariant(self);
        }
        Layer { top: self.top.clone(), tombstones: self.tombstones.clone() }
    }
}

/// What is read through a layer of writes and tombstones over a base.
pub open spec fn layered(
    base: store::Contents,
    top: store::Contents,
    tombstones: store::Contents,
) -> store::Contents {
    Map::new(
        |x: (Column, Seq<u8>)|
            top.contains_key(x) || (!tombstones.contains_key(x) && base.contains_key(x)),
        |x: (Column, Seq<u8>)|
            if top.contains_key(x) {
                top[x]
            } else {
                base[x]
            },
    )
}

impl<B: KVStore> OverlayStore<B> {
    /// What the base holds.
    pub closed spec fn base_holds(&self) -> store::Contents {
        self.base.holds()
    }

    /// Whether nothing waits to be flushed.
    pub closed spec fn is_flushed(&self) -> bool {
        self.layer.is_empty()
    }

    /// A new overlay over `base`, with an empty write layer.
    pub fn new(base: B) -> (r: Self)
        ensures
            r.holds() == base.holds(),
            r.base_holds() == base.holds(),
            r.base_value() == base,
            r.is_flushed(),
            r.writes() == 0,
    {
        let r = OverlayStore { base, layer: Layer::new(), count: Ghost(0) };
        assert(r.holds() =~= base.holds());
        r
    }

    /// The base, e.g. to read what is committed.
    pub fn base(&self) -> (r: &B)
        ensures
            *r == self.base_value(),
            r.holds() == self.base_holds(),
    {
        &self.base
    }

    /// The base, to be changed in place. The write layer stays over it.
    pub fn base_mut(&mut self) -> (r: &mut B)
        ensures
            *r == old(self).base_value(),
            *final(r) == final(self).base_value(),
            r.holds() == old(self).base_holds(),
            final(self).base_holds() == final(r).holds(),
            old(self).is_flushed() ==> final(self).is_flushed() && final(self).holds()
                == final(r).holds(),
    {
        proof {
            if self.is_flushed() {
                lemma_empty_layer::<B>(self.layer);
            }
        }
        &mut self.base
    }

    /// The base, given up by the overlay. What was not flushed is lost.
    pub fn into_base(self) -> (r: B)
        ensures
            r == self.base_value(),
            r.holds() == self.base_holds(),
    {
        self.base
    }

    /// Fold the write layer into the base in a single batch (puts for written
    /// keys, deletes for tombstoned ones), then clear the top. A read returns
    /// the same value before and after: flushing never changes committed state,
    /// only where it lives. Where nothing waits, nothing is written.
    pub fn flush(&mut self)
        ensures
            final(self).holds() == old(self).holds(),
            final(self).base_holds() == old(self).holds(),
            final(self).is_flushed(),
            old(self).is_flushed() ==> *final(self) == *old(self),
            !old(self).is_flushed() ==> final(self).base_value().writes()
                == old(self).base_value().writes() + 1,
    {
        proof {
            use_type_invariant(&self.layer);
        }
        if self.layer.top.is_empty() && self.layer.tombstones.is_empty() {
            proof {
                lemma_empty_layer::<B>(self.layer);
            }
            return;
        }
        let ghost m0 = self.base.holds();
        let ghost top = self.layer.top.holds();
        let ghost tomb = self.layer.tombstones.holds();
        let ghost goal = self.holds();
        let mut batch = WriteBatch::new();
        queue_puts(&self.layer.top, &mut batch, Ghost(m0));
        let ghost m1 = store::written(m0, batch@);
        queue_deletes(&self.layer.tombstones, &mut batch, Ghost(m0));
        proof {
            let m2 = store::written(m0, batch@);
            assert forall|x: (Column, Seq<u8>)| {
                &&& (#[trigger] m2.dom().contains(x)) == goal.dom().contains(x)
                &&& m2.dom().contains(x) ==> m2[x] == goal[x]
            } by {
                assert(m1.dom().contains(x) == (top.dom().contains(x) || m0.dom().contains(x)));
                assert(m2.dom().contains(x) == (m1.dom().contains(x) && !tomb.dom().contains(x)));
                if top.dom().contains(x) {
                    assert(!tomb.dom().contains(x));
                }
            }
            assert(m2 =~= goal);
        }
        self.base.write(batch);
        self.layer = Layer::new();
        assert(self.holds() =~= goal);
    }
}

/// An empty layer shows its base.
proof fn lemma_empty_layer<B: KVStore>(layer: Layer)
    requires
        layer.is_empty(),
    ensures
        forall|b: B| #[trigger]
            layered(b.holds(), layer.top.holds(), layer.tombstones.holds()) == b.holds(),
{
    assert forall|b: B| #[trigger]
        layered(b.holds(), layer.top.holds(), layer.tombstones.holds()) == b.holds() by {
        assert(layered(b.holds(), layer.top.holds(), layer.tombstones.holds()) =~= b.holds());
    }
}

impl OverlayStore<MemStore> {
    /// An overlay over a fresh, empty in-memory base.
    pub fn in_memory() -> (r: Self)
        ensures
            r.holds() == Map::<(Column, Seq<u8>), Seq<u8>>::empty(),
            r.base_holds() == Map::<(Column, Seq<u8>), Seq<u8>>::empty(),
            r.is_flushed(),
    {
        OverlayStore::new(MemStore::new())
    }
}

/// What a base holds with everything of `from` written over it.
spec fn over(m: store::Contents, from: store::Contents, upto: int) -> store::Contents {
    Map::new(
        |x: (Column, Seq<u8>)| m.contains_key(x) || (from.contains_key(x) && x.0.number() < upto),
        |x: (Column, Seq<u8>)|
            if from.contains_key(x) && x.0.number() < upto {
                from[x]
            } else {
                m[x]
            },
    )
}

/// What a base holds with every key of `from` dropped.
spec fn without(m: store::Contents, from: store::Contents, upto: int) -> store::Contents {
    Map::new(
        |x: (Column, Seq<u8>)| m.contains_key(x) && !(from.contains_key(x) && x.0.number() < upto),
        |x: (Column, Seq<u8>)| m[x],
    )
}

/// Queue a put for everything `top` holds.
fn queue_puts(top: &MemStore, batch: &mut WriteBatch, base: Ghost<store::Contents>)
    requires
        old(batch)@.len() == 0,
    ensures
        forall|x: (Column, Seq<u8>)| {
            &&& (#[trigger] store::written(base@, final(batch)@).dom().contains(x)) == (
            top.holds().dom().contains(x) || base@.dom().contains(x))
            &&& top.holds().dom().contains(x) ==> store::written(base@, final(batch)@)[x]
                == top.holds()[x]
            &&& !top.holds().dom().contains(x) && base@.dom().contains(x) ==> store::written(
                base@,
                final(batch)@,
            )[x] == base@[x]
        },
{
    let mut c: usize = 0;
    assert(batch@ =~= Seq::empty());
    assert(over(base@, top.holds(), 0) =~= base@);
    while c < 5
        invariant
            c <= 5,
            store::written(base@, batch@) == over(base@, top.holds(), c as int),
        decreases 5 - c,
    {
        let col = Column::ALL[c];
        assert(col.number() == c);
        let every: [u8; 0] = [];
        assert(every@ =~= Seq::empty());
        let mut pairs = top.scan_prefix(col, every.as_slice());
        let ghost all = pairs@;
        let ghost before = batch@;
        proof {
            lemma_whole_column(top.holds(), col, all);
        }
        while pairs.len() > 0
            invariant
                pairs@.len() <= all.len(),
                pairs@ == all.take(pairs@.len() as int),
                byte_map::ascending(all),
                col.number() == c,
                c < 5,
                byte_map::as_map(all) == store::column(top.holds(), col),
                store::written(base@, before) == over(base@, top.holds(), c as int),
                forall|x: (Column,
                    Seq<u8>)| #![trigger store::written(base@, batch@).dom().contains(x)] {
                    let w = store::written(base@, batch@);
                    let o = store::written(base@, before);
                    let done = x.0 == col && byte_map::has_key(all.skip(pairs@.len() as int), x.1);
                    &&& w.dom().contains(x) == (done || o.dom().contains(x))
                    &&& w.dom().contains(x) ==> w[x] == if done {
                        top.holds()[x]
                    } else {
                        o[x]
                    }
                },
            decreases pairs@.len(),
        {
            let ghost was = batch@;
            let ghost n = pairs@.len() as int;
            if let Some((key, value)) = pairs.pop() {
                proof {
                    assert(all[n - 1] == (key, value));
                    byte_map::lemma_entry(all, n - 1);
                    store::lemma_written_push(base@, was, (col, key@, Some(value@)));
                    byte_map::lemma_skip_one(all, n);
                    assert(pairs@ =~= all.take(n - 1));
                    assert(top.holds()[(col, key@)] == value@) by {
                        assert(store::column(top.holds(), col)[key@] == value@);
                    }
                }
                batch.put(col, key, value);
            }
        }
        proof {
            let w = store::written(base@, batch@);
            assert(all.skip(0) =~= all);
            assert forall|x: (Column, Seq<u8>)| {
                &&& (#[trigger] w.dom().contains(x)) == over(
                    base@,
                    top.holds(),
                    c + 1,
                ).dom().contains(x)
                &&& w.dom().contains(x) ==> w[x] == over(base@, top.holds(), c + 1)[x]
            } by {
                store::law_column_ids_unique(x.0, col);
                assert(byte_map::has_key(all, x.1) == byte_map::as_map(all).contains_key(x.1));
            }
            assert(w =~= over(base@, top.holds(), c + 1));
        }
        c += 1;
    }
    proof {
        assert forall|x: (Column, Seq<u8>)| #[trigger]
            store::written(base@, batch@).dom().contains(x) == over(
                base@,
                top.holds(),
                5,
            ).dom().contains(x) by {}
    }
}

/// Queue a delete for every key `tomb` holds.
fn queue_deletes(tomb: &MemStore, batch: &mut WriteBatch, base: Ghost<store::Contents>)
    ensures
        forall|x: (Column, Seq<u8>)| #![trigger store::written(base@,
            final(batch)@).dom().contains(x)] {
            let o = store::written(base@, old(batch)@);
            let w = store::written(base@, final(batch)@);
            &&& w.dom().contains(x) == (o.dom().contains(x)
                && !tomb.holds().dom().contains(x))
            &&& w.dom().contains(x) ==> w[x] == o[x]
        },
{
    let ghost start = store::written(base@, batch@);
    let mut c: usize = 0;
    assert(without(start, tomb.holds(), 0) =~= start);
    while c < 5
        invariant
            c <= 5,
            store::written(base@, batch@) == without(start, tomb.holds(), c as int),
        decreases 5 - c,
    {
        let col = Column::ALL[c];
        assert(col.number() == c);
        let every: [u8; 0] = [];
        assert(every@ =~= Seq::empty());
        let mut pairs = tomb.scan_prefix(col, every.as_slice());
        let ghost all = pairs@;
        let ghost before = batch@;
        proof {
            lemma_whole_column(tomb.holds(), col, all);
        }
        while pairs.len() > 0
            invariant
                pairs@.len() <= all.len(),
                pairs@ == all.take(pairs@.len() as int),
                byte_map::ascending(all),
                col.number() == c,
                c < 5,
                forall|x: (Column,
                    Seq<u8>)| #![trigger store::written(base@, batch@).dom().contains(x)] {
                    let w = store::written(base@, batch@);
                    let o = store::written(base@, before);
                    let done = x.0 == col && byte_map::has_key(all.skip(pairs@.len() as int), x.1);
                    &&& w.dom().contains(x) == (!done && o.dom().contains(x))
                    &&& w.dom().contains(x) ==> w[x] == o[x]
                },
            decreases pairs@.len(),
        {
            let ghost was = batch@;
            let ghost n = pairs@.len() as int;
            if let Some((key, _value)) = pairs.pop() {
                proof {
                    assert(all[n - 1].0 == key);
                    store::lemma_written_push(base@, was, (col, key@, None));
                    byte_map::lemma_skip_one(all, n);
                    assert(pairs@ =~= all.take(n - 1));
                }
                batch.delete(col, key);
            }
        }
        proof {
            let w = store::written(base@, batch@);
            assert(all.skip(0) =~= all);
            assert forall|x: (Column, Seq<u8>)| {
                &&& (#[trigger] w.dom().contains(x)) == without(
                    start,
                    tomb.holds(),
                    c + 1,
                ).dom().contains(x)
                &&& w.dom().contains(x) ==> w[x] == without(start, tomb.holds(), c + 1)[x]
            } by {
                store::law_column_ids_unique(x.0, col);
                assert(byte_map::has_key(all, x.1) == byte_map::as_map(all).contains_key(x.1));
                assert(store::written(base@, before).dom().contains(x) == without(
                    start,
                    tomb.holds(),
                    c as int,
                ).dom().contains(x));
            }
            assert(w =~= without(start, tomb.holds(), c + 1));
        }
        c += 1;
    }
    proof {
        assert forall|x: (Column, Seq<u8>)| #[trigger]
            store::written(base@, batch@).dom().contains(x) == without(
                start,
                tomb.holds(),
                5,
            ).dom().contains(x) by {}
    }
}

/// A scan without a prefix is the whole column.
proof fn lemma_whole_column(m: store::Contents, col: Column, all: Seq<(Vec<u8>, Vec<u8>)>)
    requires
        byte_map::as_map(all) == byte_map::prefixed(store::column(m, col), Seq::empty()),
    ensures
        byte_map::as_map(all) == store::column(m, col),
{
    assert forall|k: Seq<u8>| crate::bytes::has_prefix(k, Seq::empty()) by {
        assert(k.subrange(0, 0) =~= Seq::empty());
    }
    assert(byte_map::prefixed(store::column(m, col), Seq::empty()) =~= store::column(m, col));
}

impl<B: KVStore> KVStore for OverlayStore<B> {
    closed spec fn holds(&self) -> store::Contents {
        layered(self.base.holds(), self.layer.top.holds(), self.layer.tombstones.holds())
    }

    closed spec fn writes(&self) -> store::WriteCount {
        self.count@
    }

    type Under = B;

    /// A layer has its base under it.
    open spec fn under(&self) -> B {
        self.base_value()
    }

    proof fn holds_finitely(&self) {
        self.base.holds_finitely();
        self.layer.top.holds_finitely();
        let all = self.base.holds().dom().union(self.layer.top.holds().dom());
        assert(self.holds().dom().subset_of(all));
        vstd::set_lib::lemma_set_subset_finite(all, self.holds().dom());
    }

    fn get(&self, col: Column, key: &[u8]) -> (r: Option<Vec<u8>>) {
        match self.layer.top.get(col, key) {
            Some(v) => Some(v),
            None => {
                if self.layer.tombstones.contains(col, key) {
                    None
                } else {
                    self.base.get(col, key)
                }
            },
        }
    }

    /// Writes go to the layer alone: the base is as it was, and they wait to be flushed.
    fn write(&mut self, batch: WriteBatch)
        ensures
            final(self).base_value() == old(self).base_value(),
            final(self).is_flushed() == (old(self).is_flushed() && batch@.len() == 0),
    {
        proof {
            use_type_invariant(&self.layer);
        }
        let ghost base = self.base.holds();
        let ghost m0 = self.holds();
        let ghost ws = batch@;
        let mut top = MemStore::new();
        let mut tomb = MemStore::new();
        std::mem::swap(&mut top, &mut self.layer.top);
        std::mem::swap(&mut tomb, &mut self.layer.tombstones);
        let ops = batch.ops();
        let mut i: usize = 0;
        assert(ws.take(0) =~= Seq::empty());
        while i < ops.len()
            invariant
                i <= ops@.len(),
                ops@.len() == ws.len(),
                ws == batch@,
                forall|j: int|
                    0 <= j < ops@.len() ==> {
                        &&& (#[trigger] ops@[j]).0 == ws[j].0
                        &&& ops@[j].1@ == ws[j].1
                        &&& match ops@[j].2 {
                            Some(v) => ws[j].2 == Some(v@),
                            None => ws[j].2 is None,
                        }
                    },
                layered(base, top.holds(), tomb.holds()) == store::written(m0, ws.take(i as int)),
                forall|x: (Column, Seq<u8>)|
                    top.holds().dom().contains(x) ==> !#[trigger] tomb.holds().dom().contains(x),
                i == 0 ==> top.holds() == old(self).layer.top.holds() && tomb.holds() == old(
                    self,
                ).layer.tombstones.holds(),
                i > 0 ==> {
                    let x = (ws[i - 1].0, ws[i - 1].1);
                    top.holds().dom().contains(x) || tomb.holds().dom().contains(x)
                },
            decreases ops@.len() - i,
        {
            let ghost before = layered(base, top.holds(), tomb.holds());
            let (col, key, value) = ops[i];
            proof {
                assert(ops@[i as int].0 == ws[i as int].0);
                assert(ws.take(i + 1) =~= ws.take(i as int).push(ws[i as int]));
                store::lemma_written_push(m0, ws.take(i as int), ws[i as int]);
            }
            match value {
                Some(v) => {
                    top.put(col, crate::bytes::copy_bytes(key), crate::bytes::copy_bytes(v));
                    tomb.delete(col, crate::bytes::copy_bytes(key));
                    assert(layered(base, top.holds(), tomb.holds()) =~= before.insert(
                        (col, key@),
                        v@,
                    ));
                },
                None => {
                    top.delete(col, crate::bytes::copy_bytes(key));
                    tomb.put(col, crate::bytes::copy_bytes(key), Vec::new());
                    assert(layered(base, top.holds(), tomb.holds()) =~= before.remove(
                        (col, key@),
                    ));
                },
            }
            i += 1;
        }
        assert(ws.take(ws.len() as int) =~= ws);
        self.layer = Layer { top, tombstones: tomb };
        self.count = Ghost(self.count@ + 1);
    }

    fn put(&mut self, col: Column, key: Vec<u8>, value: Vec<u8>)
        ensures
            final(self).base_value() == old(self).base_value(),
            !final(self).is_flushed(),
    {
        let ghost w: store::Write = (col, key@, Some(value@));
        let mut b = WriteBatch::new();
        b.put(col, key, value);
        proof {
            store::lemma_written_push(self.holds(), Seq::empty(), w);
            assert(store::written(self.holds(), Seq::empty()) == self.holds());
        }
        self.write(b);
    }

    fn delete(&mut self, col: Column, key: Vec<u8>)
        ensures
            final(self).base_value() == old(self).base_value(),
            !final(self).is_flushed(),
    {
        let ghost w: store::Write = (col, key@, None);
        let mut b = WriteBatch::new();
        b.delete(col, key);
        proof {
            store::lemma_written_push(self.holds(), Seq::empty(), w);
            assert(store::written(self.holds(), Seq::empty()) == self.holds());
        }
        self.write(b);
    }

    fn scan_prefix(&self, col: Column, prefix: &[u8]) -> (r: Vec<(Vec<u8>, Vec<u8>)>) {
        proof {
            use_type_invariant(&self.layer);
        }
        let ghost goal = byte_map::prefixed(store::column(self.holds(), col), prefix@);
        let ghost in_base = byte_map::prefixed(store::column(self.base.holds(), col), prefix@);
        let ghost in_top = byte_map::prefixed(store::column(self.layer.top.holds(), col), prefix@);
        // Base first, then the top overrides; tombstoned keys are left out.
        let mut merged = ByteMap::new();
        let mut pairs = self.base.scan_prefix(col, prefix);
        let ghost all = pairs@;
        let tomb = &self.layer.tombstones;
        assert(all.skip(all.len() as int) =~= Seq::empty());
        while pairs.len() > 0
            invariant
                pairs@.len() <= all.len(),
                pairs@ == all.take(pairs@.len() as int),
                byte_map::ascending(all),
                byte_map::as_map(all) == in_base,
                forall|k: Seq<u8>| {
                    let done = byte_map::has_key(all.skip(pairs@.len() as int), k)
                        && !tomb.holds().dom().contains((col, k));
                    &&& (#[trigger] merged@.dom().contains(k)) == done
                    &&& done ==> merged@[k] == in_base[k]
                },
            decreases pairs@.len(),
        {
            let ghost n = pairs@.len() as int;
            if let Some((key, value)) = pairs.pop() {
                proof {
                    assert(all[n - 1] == (key, value));
                    byte_map::lemma_entry(all, n - 1);
                    byte_map::lemma_skip_one(all, n);
                    assert(pairs@ =~= all.take(n - 1));
                }
                if !tomb.contains(col, key.as_slice()) {
                    merged.insert(key, value);
                }
            }
        }
        assert(all.skip(0) =~= all);
        let ghost lower = merged@;
        assert forall|k: Seq<u8>| {
            let done = in_base.dom().contains(k) && !tomb.holds().dom().contains((col, k));
            &&& (#[trigger] lower.dom().contains(k)) == done
            &&& done ==> lower[k] == in_base[k]
        } by {
            assert(byte_map::has_key(all, k) == byte_map::as_map(all).dom().contains(k));
        }
        let mut pairs = self.layer.top.scan_prefix(col, prefix);
        let ghost all = pairs@;
        assert(all.skip(all.len() as int) =~= Seq::empty());
        while pairs.len() > 0
            invariant
                pairs@.len() <= all.len(),
                pairs@ == all.take(pairs@.len() as int),
                byte_map::ascending(all),
                byte_map::as_map(all) == in_top,
                forall|k: Seq<u8>| {
                    let done = byte_map::has_key(all.skip(pairs@.len() as int), k);
                    &&& (#[trigger] merged@.dom().contains(k)) == (done || lower.dom().contains(k))
                    &&& merged@.dom().contains(k) ==> merged@[k] == if done {
                        in_top[k]
                    } else {
                        lower[k]
                    }
                },
            decreases pairs@.len(),
        {
            let ghost n = pairs@.len() as int;
            if let Some((key, value)) = pairs.pop() {
                proof {
                    assert(all[n - 1] == (key, value));
                    byte_map::lemma_entry(all, n - 1);
                    byte_map::lemma_skip_one(all, n);
                    assert(pairs@ =~= all.take(n - 1));
                }
                merged.insert(key, value);
            }
        }
        assert(all.skip(0) =~= all);
        proof {
            assert forall|k: Seq<u8>| {
                &&& (#[trigger] merged@.dom().contains(k)) == goal.dom().contains(k)
                &&& merged@.dom().contains(k) ==> merged@[k] == goal[k]
            } by {
                assert(byte_map::has_key(all, k) == byte_map::as_map(all).dom().contains(k));
                assert(lower.dom().contains(k) == (in_base.dom().contains(k)
                    && !tomb.holds().dom().contains((col, k))));
                if self.layer.top.holds().dom().contains((col, k)) {
                    assert(!tomb.holds().dom().contains((col, k)));
                }
            }
            assert(merged@ =~= goal);
            assert(byte_map::prefixed(merged@, Seq::empty()) =~= merged@) by {
                assert forall|k: Seq<u8>| crate::bytes::has_prefix(k, Seq::empty()) by {
                    assert(k.subrange(0, 0) =~= Seq::empty());
                }
            }
        }
        let every: [u8; 0] = [];
        assert(every@ =~= Seq::empty());
        merged.scan(every.as_slice())
    }
}

impl<B: KVStore + Clone> Clone for OverlayStore<B> {
    /// Copies the base and the write layer, and writes to neither. What the copy of the
    /// base holds is up to the base's own `clone`.
    fn clone(&self) -> (r: Self)
        ensures
            cloned::<B>(self.base_value(), r.base_value()),
            r.holds() == self.holds_over(r.base_value()),
            r.is_flushed() == self.is_flushed(),
    {
        let base = self.base.clone();
        assert(cloned::<B>(self.base_value(), base));
        OverlayStore { base, layer: self.layer.copy(), count: Ghost(self.count@) }
    }
}

impl<B: KVStore> OverlayStore<B> {
    /// The base itself.
    pub closed spec fn base_value(&self) -> B {
        self.base
    }

    /// What the overlay's write layer shows over another base.
    pub closed spec fn holds_over(&self, b: B) -> store::Contents {
        layered(b.holds(), self.layer.top.holds(), self.layer.tombstones.holds())
    }
}

/// Over an in-memory base a clone holds what its source holds, and the two
/// are independent values from then on.
pub proof fn law_clone_of_base(ov: OverlayStore<MemStore>, b: MemStore)
    requires
        cloned::<MemStore>(ov.base_value(), b),
    ensures
        ov.holds_over(b) == ov.holds(),
{
}

/// A flush is invisible to readers: the layer over the base reads as the base
/// that the layer was folded into.
pub proof fn law_layer_reads(
    base: store::Contents,
    top: store::Contents,
    tombstones: store::Contents,
    x: (Column, Seq<u8>),
)
    ensures
        top.contains_key(x) ==> layered(base, top, tombstones).contains_key(x) && layered(
            base,
            top,
            tombstones,
        )[x] == top[x],
        !top.contains_key(x) && tombstones.contains_key(x) ==> !layered(
            base,
            top,
            tombstones,
        ).contains_key(x),
        !top.contains_key(x) && !tombstones.contains_key(x) ==> {
            &&& layered(base, top, tombstones).contains_key(x) == base.contains_key(x)
            &&& base.contains_key(x) ==> layered(base, top, tombstones)[x] == base[x]
        },
{
}

} // verus!
