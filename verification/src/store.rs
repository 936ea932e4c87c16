//! The pluggable key/value store under the chain state: logical columns, atomic
//! write batches, and the interface a backend offers.

use vstd::prelude::*;

use crate::byte_map;

verus! {

/// A logical column: an isolated key space within one store.
#[derive(Debug, Clone, Copy, PartialEq, Eq, PartialOrd, Ord, Hash, Structural)]
pub enum Column {
    /// Authenticated state-trie nodes.
    State,
    /// Encoded blocks, by block id.
    Blocks,
    /// Transaction lookup records.
    TxIndex,
    /// Chain metadata (tip, state root, counters).
    Meta,
    /// Full ledger records, by record key.
    Objects,
}

impl Column {
    /// Every column, in id order.
    pub const ALL: [Column; 5] = [
        Column::State,
        Column::Blocks,
        Column::TxIndex,
        Column::Meta,
        Column::Objects,
    ];

    /// The column's id.
    pub open spec fn number(self) -> u8 {
        match self {
            Column::State => 0,
            Column::Blocks => 1,
            Column::TxIndex => 2,
            Column::Meta => 3,
            Column::Objects => 4,
        }
    }

    /// Stable one-byte column id, as backends write it.
    pub fn id(self) -> (r: u8)
        ensures
            r == self.number(),
    {
        match self {
            Column::State => 0,
            Column::Blocks => 1,
            Column::TxIndex => 2,
            Column::Meta => 3,
            Column::Objects => 4,
        }
    }
}

/// No two columns share an id.
pub proof fn law_column_ids_unique(a: Column, b: Column)
    ensures
        a.number() == b.number() ==> a == b,
{
}

/// One write: a put, or a delete.
#[derive(Debug, Clone)]
pub enum Op {
    Put(Vec<u8>),
    Delete,
}

/// One write as a mathematical value: the column, the key, and the value to put
/// or `None` to delete.
pub type Write = (Column, Seq<u8>, Option<Seq<u8>>);

/// What a store holds.
pub type Contents = Map<(Column, Seq<u8>), Seq<u8>>;

impl View for Op {
    type V = Option<Seq<u8>>;

    open spec fn view(&self) -> Option<Seq<u8>> {
        match self {
            Op::Put(v) => Some(v@),
            Op::Delete => None,
        }
    }
}

/// An ordered set of writes that a store applies as one. Later writes to a key
/// win.
#[derive(Debug, Clone, Default)]
pub struct WriteBatch {
    ops: Vec<(Column, Vec<u8>, Op)>,
}

/// What `m` holds after one write.
pub open spec fn wrote(m: Contents, w: Write) -> Contents {
    match w.2 {
        Some(v) => m.insert((w.0, w.1), v),
        None => m.remove((w.0, w.1)),
    }
}

/// What `m` holds after the writes `ws`, in order.
pub open spec fn written(m: Contents, ws: Seq<Write>) -> Contents
    decreases ws.len(),
{
    if ws.len() == 0 {
        m
    } else {
        wrote(written(m, ws.drop_last()), ws.last())
    }
}

/// Writes `ws` and then `w`.
pub proof fn lemma_written_push(m: Contents, ws: Seq<Write>, w: Write)
    ensures
        written(m, ws.push(w)) == wrote(written(m, ws), w),
{
    assert(ws.push(w).drop_last() =~= ws);
}

/// The last write to a key decides what the store holds there; without one the
/// key is as it was.
pub proof fn law_last_write_wins(m: Contents, ws: Seq<Write>, c: Column, k: Seq<u8>)
    ensures
        (forall|i: int| 0 <= i < ws.len() ==> !((#[trigger] ws[i]).0 == c && ws[i].1 == k)) ==> {
            &&& written(m, ws).contains_key((c, k)) == m.contains_key((c, k))
            &&& m.contains_key((c, k)) ==> written(m, ws)[(c, k)] == m[(c, k)]
        },
        forall|i: int|
            0 <= i < ws.len() && (#[trigger] ws[i]).0 == c && ws[i].1 == k && (forall|j: int|
                i < j < ws.len() ==> !((#[trigger] ws[j]).0 == c && ws[j].1 == k)) ==> {
                &&& written(m, ws).contains_key((c, k)) == ws[i].2 is Some
                &&& ws[i].2 is Some ==> written(m, ws)[(c, k)] == ws[i].2->0
            },
    decreases ws.len(),
{
    if ws.len() > 0 {
        let h = ws.drop_last();
        law_last_write_wins(m, h, c, k);
        assert forall|i: int|
            0 <= i < ws.len() && (#[trigger] ws[i]).0 == c && ws[i].1 == k && (forall|j: int|
                i < j < ws.len() ==> !((#[trigger] ws[j]).0 == c && ws[j].1 == k)) implies {
            &&& written(m, ws).contains_key((c, k)) == ws[i].2 is Some
            &&& ws[i].2 is Some ==> written(m, ws)[(c, k)] == ws[i].2->0
        } by {
            if i < h.len() {
                assert(h[i] == ws[i]);
                assert forall|j: int| i < j < h.len() implies !((#[trigger] h[j]).0 == c && h[j].1
                    == k) by {
                    assert(h[j] == ws[j]);
                }
                assert(!(ws[ws.len() - 1].0 == c && ws[ws.len() - 1].1 == k));
            }
        }
        if forall|i: int| 0 <= i < ws.len() ==> !((#[trigger] ws[i]).0 == c && ws[i].1 == k) {
            assert forall|i: int| 0 <= i < h.len() implies !((#[trigger] h[i]).0 == c && h[i].1
                == k) by {
                assert(h[i] == ws[i]);
            }
            assert(!(ws[ws.len() - 1].0 == c && ws[ws.len() - 1].1 == k));
        }
    }
}

/// A write to one column leaves every other column as it was.
pub proof fn law_columns_isolated(m: Contents, w: Write, c: Column, k: Seq<u8>)
    requires
        w.0 != c,
    ensures
        wrote(m, w).contains_key((c, k)) == m.contains_key((c, k)),
        m.contains_key((c, k)) ==> wrote(m, w)[(c, k)] == m[(c, k)],
{
}

/// One write as a mathematical value.
pub open spec fn write_of(op: (Column, Vec<u8>, Op)) -> Write {
    (op.0, op.1@, op.2@)
}

impl View for WriteBatch {
    type V = Seq<Write>;

    closed spec fn view(&self) -> Seq<Write> {
        self.ops@.map_values(|op: (Column, Vec<u8>, Op)| write_of(op))
    }
}

impl WriteBatch {
    pub fn new() -> (r: Self)
        ensures
            r@ == Seq::<Write>::empty(),
    {
        let r = WriteBatch { ops: Vec::new() };
        assert(r@ =~= Seq::empty());
        r
    }

    /// Queue a put.
    pub fn put(&mut self, col: Column, key: Vec<u8>, value: Vec<u8>) -> (r: &mut Self)
        ensures
            r@ == old(self)@.push((col, key@, Some(value@))),
            *final(self) == *final(r),
    {
        self.ops.push((col, key, Op::Put(value)));
        assert(self@ =~= old(self)@.push((col, key@, Some(value@))));
        self
    }

    /// Queue a delete.
    pub fn delete(&mut self, col: Column, key: Vec<u8>) -> (r: &mut Self)
        ensures
            r@ == old(self)@.push((col, key@, None)),
            *final(self) == *final(r),
    {
        self.ops.push((col, key, Op::Delete));
        assert(self@ =~= old(self)@.push((col, key@, None)));
        self
    }

    /// The queued writes in order: column, key, and the value or `None` for a
    /// delete.
    pub fn ops(&self) -> (r: Vec<(Column, &[u8], Option<&[u8]>)>)
        ensures
            r@.len() == self@.len(),
            forall|i: int|
                0 <= i < r@.len() ==> {
                    &&& (#[trigger] r@[i]).0 == self@[i].0
                    &&& r@[i].1@ == self@[i].1
                    &&& match r@[i].2 {
                        Some(v) => self@[i].2 == Some(v@),
                        None => self@[i].2 is None,
                    }
                },
    {
        let mut r: Vec<(Column, &[u8], Option<&[u8]>)> = Vec::new();
        let mut i: usize = 0;
        while i < self.ops.len()
            invariant
                i <= self.ops@.len(),
                r@.len() == i,
                forall|j: int|
                    0 <= j < i ==> {
                        &&& (#[trigger] r@[j]).0 == self@[j].0
                        &&& r@[j].1@ == self@[j].1
                        &&& match r@[j].2 {
                            Some(v) => self@[j].2 == Some(v@),
                            None => self@[j].2 is None,
                        }
                    },
            decreases self.ops@.len() - i,
        {
            let value = match &self.ops[i].2 {
                Op::Put(v) => Some(v.as_slice()),
                Op::Delete => None,
            };
            r.push((self.ops[i].0, self.ops[i].1.as_slice(), value));
            i += 1;
        }
        r
    }

    /// The queued writes themselves.
    pub(crate) fn into_ops(self) -> (r: Vec<(Column, Vec<u8>, Op)>)
        ensures
            r@.len() == self@.len(),
            forall|i: int| 0 <= i < r@.len() ==> write_of(#[trigger] r@[i]) == self@[i],
    {
        self.ops
    }

    /// How many writes are queued.
    pub fn len(&self) -> (n: usize)
        ensures
            n == self@.len(),
    {
        self.ops.len()
    }

    /// Whether nothing is queued.
    pub fn is_empty(&self) -> (r: bool)
        ensures
            r == (self@.len() == 0),
    {
        self.ops.is_empty()
    }
}

/// One column of a store.
pub open spec fn column(m: Contents, col: Column) -> Map<Seq<u8>, Seq<u8>> {
    Map::new(|k: Seq<u8>| m.contains_key((col, k)), |k: Seq<u8>| m[(col, k)])
}

/// How many batches a store has taken.
pub type WriteCount = nat;

/// A byte-oriented key/value backend. Keys and values are plain bytes; each
/// column is its own key space.
pub trait KVStore: Sized {
    /// What the store holds.
    spec fn holds(&self) -> Contents;

    /// How many batches were written to the store.
    spec fn writes(&self) -> WriteCount;

    /// What a store may have under it, as a layer has its base.
    type Under;

    /// What is under the store. No write to the store changes it.
    spec fn under(&self) -> Self::Under;

    /// A store holds finitely many pairs.
    proof fn holds_finitely(&self)
        ensures
            self.holds().dom().finite(),
    ;

    /// The value at `key`, or `None`.
    fn get(&self, col: Column, key: &[u8]) -> (r: Option<Vec<u8>>)
        ensures
            match r {
                Some(v) => self.holds().contains_key((col, key@)) && self.holds()[(col, key@)]
                    == v@,
                None => !self.holds().contains_key((col, key@)),
            },
    ;

    /// Whether `key` is present.
    fn contains(&self, col: Column, key: &[u8]) -> (r: bool)
        ensures
            r == self.holds().contains_key((col, key@)),
    {
        self.get(col, key).is_some()
    }

    /// Apply every write of `batch`, in order.
    fn write(&mut self, batch: WriteBatch)
        ensures
            final(self).holds() == written(old(self).holds(), batch@),
            final(self).writes() == old(self).writes() + 1,
            final(self).under() == old(self).under(),
    ;

    /// All pairs of a column whose key starts with `prefix`, in ascending key
    /// order.
    fn scan_prefix(&self, col: Column, prefix: &[u8]) -> (r: Vec<(Vec<u8>, Vec<u8>)>)
        ensures
            byte_map::ascending(r@),
            byte_map::as_map(r@) == byte_map::prefixed(column(self.holds(), col), prefix@),
    ;

    /// Put one pair.
    fn put(&mut self, col: Column, key: Vec<u8>, value: Vec<u8>)
        ensures
            final(self).holds() == old(self).holds().insert((col, key@), value@),
            final(self).writes() == old(self).writes() + 1,
            final(self).under() == old(self).under(),
    {
        let ghost w: Write = (col, key@, Some(value@));
        let mut b = WriteBatch::new();
        b.put(col, key, value);
        proof {
            lemma_written_push(self.holds(), Seq::empty(), w);
            assert(written(self.holds(), Seq::empty()) == self.holds());
        }
        self.write(b);
    }

    /// Delete one key.
    fn delete(&mut self, col: Column, key: Vec<u8>)
        ensures
            final(self).holds() == old(self).holds().remove((col, key@)),
            final(self).writes() == old(self).writes() + 1,
            final(self).under() == old(self).under(),
    {
        let ghost w: Write = (col, key@, None);
        let mut b = WriteBatch::new();
        b.delete(col, key);
        proof {
            lemma_written_push(self.holds(), Seq::empty(), w);
            assert(written(self.holds(), Seq::empty()) == self.holds());
        }
        self.write(b);
    }
}

} // verus!
