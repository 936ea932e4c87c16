//! An ordered map from byte strings to byte strings.

use vstd::prelude::*;

use crate::bytes;
use crate::bytes::{before, copy_bytes, same_bytes, starts_with};

verus! {

/// A map from byte strings to byte strings that hands its entries out in
/// ascending key order. No key occurs twice.
pub struct ByteMap {
    entries: Vec<(Vec<u8>, Vec<u8>)>,
}

/// Whether keys stand in strictly ascending order.
pub open spec fn ascending(e: Seq<(Vec<u8>, Vec<u8>)>) -> bool {
    forall|i: int, j: int|
        0 <= i < j < e.len() ==> bytes::bytes_lt(#[trigger] e[i].0@, #[trigger] e[j].0@)
}

/// The map that a run of entries stands for.
pub open spec fn as_map(e: Seq<(Vec<u8>, Vec<u8>)>) -> Map<Seq<u8>, Seq<u8>> {
    Map::new(|k: Seq<u8>| has_key(e, k), |k: Seq<u8>| e[index_of(e, k)].1@)
}

/// Whether some entry has key `k`.
pub open spec fn has_key(e: Seq<(Vec<u8>, Vec<u8>)>, k: Seq<u8>) -> bool {
    exists|i: int| 0 <= i < e.len() && #[trigger] e[i].0@ == k
}

/// Where key `k` stands.
pub open spec fn index_of(e: Seq<(Vec<u8>, Vec<u8>)>, k: Seq<u8>) -> int {
    choose|i: int| 0 <= i < e.len() && #[trigger] e[i].0@ == k
}

/// The part of `m` whose keys start with `prefix`.
pub open spec fn prefixed(m: Map<Seq<u8>, Seq<u8>>, prefix: Seq<u8>) -> Map<Seq<u8>, Seq<u8>> {
    Map::new(|k: Seq<u8>| m.contains_key(k) && bytes::has_prefix(k, prefix), |k: Seq<u8>| m[k])
}

/// An entry's key is where the map has its value.
pub proof fn lemma_entry(e: Seq<(Vec<u8>, Vec<u8>)>, i: int)
    requires
        ascending(e),
        0 <= i < e.len(),
    ensures
        index_of(e, e[i].0@) == i,
        as_map(e).contains_key(e[i].0@),
        as_map(e)[e[i].0@] == e[i].1@,
{
    let k = e[i].0@;
    assert(has_key(e, k));
    let j = index_of(e, k);
    assert(0 <= j < e.len() && e[j].0@ == k);
    bytes::lemma_bytes_lt_total(k, k);
    if i < j {
        assert(bytes::bytes_lt(e[i].0@, e[j].0@));
    } else if j < i {
        assert(bytes::bytes_lt(e[j].0@, e[i].0@));
    }
}

/// Every key below `i` comes before `k`, the one at `i` and all above after it
/// or at it.
pub open spec fn splits(e: Seq<(Vec<u8>, Vec<u8>)>, k: Seq<u8>, i: int) -> bool {
    &&& 0 <= i <= e.len()
    &&& forall|j: int| 0 <= j < i ==> bytes::bytes_lt(#[trigger] e[j].0@, k)
    &&& forall|j: int| i <= j < e.len() ==> !bytes::bytes_lt(#[trigger] e[j].0@, k)
}

impl View for ByteMap {
    type V = Map<Seq<u8>, Seq<u8>>;

    closed spec fn view(&self) -> Map<Seq<u8>, Seq<u8>> {
        as_map(self.entries@)
    }
}

impl ByteMap {
    #[verifier::type_invariant]
    spec fn inv(self) -> bool {
        ascending(self.entries@)
    }

    /// How many keys the map holds.
    pub closed spec fn size(&self) -> nat {
        self.entries@.len()
    }

    pub fn new() -> (r: Self)
        ensures
            r@ == Map::<Seq<u8>, Seq<u8>>::empty(),
            r.size() == 0,
    {
        let r = ByteMap { entries: Vec::new() };
        assert(r@ =~= Map::empty());
        r
    }

    /// Where `key` stands or belongs.
    fn position(entries: &Vec<(Vec<u8>, Vec<u8>)>, key: &[u8]) -> (at: usize)
        requires
            ascending(entries@),
        ensures
            splits(entries@, key@, at as int),
    {
        let mut lo: usize = 0;
        let mut hi: usize = entries.len();
        while lo < hi
            invariant
                lo <= hi <= entries@.len(),
                ascending(entries@),
                forall|j: int| 0 <= j < lo ==> bytes::bytes_lt(#[trigger] entries@[j].0@, key@),
                forall|j: int|
                    hi <= j < entries@.len() ==> !bytes::bytes_lt(#[trigger] entries@[j].0@, key@),
            decreases hi - lo,
        {
            let mid = lo + (hi - lo) / 2;
            if before(entries[mid].0.as_slice(), key) {
                proof {
                    assert forall|j: int| 0 <= j < mid + 1 implies bytes::bytes_lt(
                        #[trigger] entries@[j].0@,
                        key@,
                    ) by {
                        if j < mid {
                            bytes::lemma_bytes_lt_trans(
                                entries@[j].0@,
                                entries@[mid as int].0@,
                                key@,
                            );
                        }
                    }
                }
                lo = mid + 1;
            } else {
                proof {
                    assert forall|j: int| mid <= j < entries@.len() implies !bytes::bytes_lt(
                        #[trigger] entries@[j].0@,
                        key@,
                    ) by {
                        if j > mid && bytes::bytes_lt(entries@[j].0@, key@) {
                            bytes::lemma_bytes_lt_trans(
                                entries@[mid as int].0@,
                                entries@[j].0@,
                                key@,
                            );
                        }
                    }
                }
                hi = mid;
            }
        }
        lo
    }

    /// What a split says of a lookup.
    proof fn lemma_split(e: Seq<(Vec<u8>, Vec<u8>)>, k: Seq<u8>, i: int)
        requires
            ascending(e),
            splits(e, k, i),
        ensures
            has_key(e, k) == (i < e.len() && e[i].0@ == k),
            i < e.len() && e[i].0@ != k ==> bytes::bytes_lt(k, e[i].0@),
    {
        bytes::lemma_bytes_lt_total(k, k);
        if has_key(e, k) {
            let j = index_of(e, k);
            assert(e[j].0@ == k);
            if j > i {
                assert(bytes::bytes_lt(e[i].0@, e[j].0@));
            }
        }
        if i < e.len() {
            bytes::lemma_bytes_lt_total(k, e[i].0@);
        }
    }

    /// The value of `key`, copied.
    pub fn get(&self, key: &[u8]) -> (r: Option<Vec<u8>>)
        ensures
            match r {
                Some(v) => self@.contains_key(key@) && self@[key@] == v@,
                None => !self@.contains_key(key@),
            },
    {
        proof {
            use_type_invariant(self);
        }
        let at = Self::position(&self.entries, key);
        proof {
            Self::lemma_split(self.entries@, key@, at as int);
        }
        if at < self.entries.len() && same_bytes(self.entries[at].0.as_slice(), key) {
            proof {
                lemma_entry(self.entries@, at as int);
            }
            Some(copy_bytes(self.entries[at].1.as_slice()))
        } else {
            None
        }
    }

    /// Whether `key` is there.
    pub fn contains(&self, key: &[u8]) -> (r: bool)
        ensures
            r == self@.contains_key(key@),
    {
        proof {
            use_type_invariant(self);
        }
        let at = Self::position(&self.entries, key);
        proof {
            Self::lemma_split(self.entries@, key@, at as int);
        }
        at < self.entries.len() && same_bytes(self.entries[at].0.as_slice(), key)
    }

    /// Set `key` to `value`.
    pub fn insert(&mut self, key: Vec<u8>, value: Vec<u8>)
        ensures
            final(self)@ == old(self)@.insert(key@, value@),
    {
        proof {
            use_type_invariant(&*self);
        }
        let mut entries: Vec<(Vec<u8>, Vec<u8>)> = Vec::new();
        std::mem::swap(&mut entries, &mut self.entries);
        let ghost e = entries@;
        let ghost k = key@;
        let ghost v = value@;
        let at = Self::position(&entries, key.as_slice());
        proof {
            Self::lemma_split(e, k, at as int);
        }
        if at < entries.len() && same_bytes(entries[at].0.as_slice(), key.as_slice()) {
            entries[at] = (key, value);
            proof {
                assert(entries@ == e.update(at as int, (key, value)));
                assert(ascending(entries@)) by {
                    assert forall|i: int, j: int| 0 <= i < j < entries@.len()
                        implies bytes::bytes_lt(
                        #[trigger] entries@[i].0@,
                        #[trigger] entries@[j].0@,
                    ) by {
                        assert(bytes::bytes_lt(e[i].0@, e[j].0@));
                    }
                }
            }
        } else {
            entries.insert(at, (key, value));
            proof {
                let n = entries@;
                assert(n == e.insert(at as int, (key, value)));
                assert forall|i: int, j: int| 0 <= i < j < n.len() implies bytes::bytes_lt(
                    #[trigger] n[i].0@,
                    #[trigger] n[j].0@,
                ) by {
                    let oi = if i < at { i } else { i - 1 };
                    let oj = if j < at { j } else { j - 1 };
                    if i == at {
                        assert(n[j] == e[oj]);
                        if oj > at {
                            assert(bytes::bytes_lt(e[at as int].0@, e[oj].0@));
                            bytes::lemma_bytes_lt_trans(k, e[at as int].0@, e[oj].0@);
                        }
                    } else if j == at {
                        assert(n[i] == e[i]);
                    } else {
                        assert(n[i] == e[oi] && n[j] == e[oj]);
                        assert(bytes::bytes_lt(e[oi].0@, e[oj].0@));
                    }
                }
            }
        }
        proof {
            let n = entries@;
            assert(n[at as int].0@ == k && n[at as int].1@ == v);
            assert(as_map(n) =~= as_map(e).insert(k, v)) by {
                lemma_entry(n, at as int);
                let grown = n.len() > e.len();
                assert forall|x: Seq<u8>| x != k implies {
                    &&& (#[trigger] as_map(n).dom().contains(x)) == as_map(e).dom().contains(x)
                    &&& as_map(e).dom().contains(x) ==> as_map(n)[x] == as_map(e)[x]
                } by {
                    if has_key(e, x) {
                        let i = index_of(e, x);
                        let j = if grown && i >= at { i + 1 } else { i };
                        assert(n[j] == e[i]);
                        lemma_entry(n, j);
                    }
                    if has_key(n, x) {
                        let j = index_of(n, x);
                        let i = if grown && j > at { j - 1 } else { j };
                        assert(n[j] == e[i]);
                        assert(e[i].0@ == x);
                    }
                }
            }
        }
        self.entries = entries;
    }

    /// Drop `key`, if it is there.
    pub fn remove(&mut self, key: &[u8])
        ensures
            final(self)@ == old(self)@.remove(key@),
    {
        proof {
            use_type_invariant(&*self);
        }
        let mut entries: Vec<(Vec<u8>, Vec<u8>)> = Vec::new();
        std::mem::swap(&mut entries, &mut self.entries);
        let ghost e = entries@;
        let ghost k = key@;
        let at = Self::position(&entries, key);
        proof {
            Self::lemma_split(e, k, at as int);
        }
        if at < entries.len() && same_bytes(entries[at].0.as_slice(), key) {
            entries.remove(at);
            proof {
                let n = entries@;
                assert(n == e.remove(at as int));
                assert forall|i: int, j: int| 0 <= i < j < n.len() implies bytes::bytes_lt(
                    #[trigger] n[i].0@,
                    #[trigger] n[j].0@,
                ) by {
                    let oi = if i < at { i } else { i + 1 };
                    let oj = if j < at { j } else { j + 1 };
                    assert(n[i] == e[oi] && n[j] == e[oj]);
                    assert(bytes::bytes_lt(e[oi].0@, e[oj].0@));
                }
                assert(as_map(n) =~= as_map(e).remove(k)) by {
                    assert(!has_key(n, k)) by {
                        if has_key(n, k) {
                            let j = index_of(n, k);
                            let i = if j < at { j } else { j + 1 };
                            assert(n[j] == e[i]);
                            lemma_entry(e, i);
                            lemma_entry(e, at as int);
                        }
                    }
                    assert forall|x: Seq<u8>| x != k implies {
                        &&& (#[trigger] as_map(n).dom().contains(x)) == as_map(e).dom().contains(x)
                        &&& as_map(e).dom().contains(x) ==> as_map(n)[x] == as_map(e)[x]
                    } by {
                        if has_key(e, x) {
                            let i = index_of(e, x);
                            let j = if i < at { i } else { i - 1 };
                            assert(n[j] == e[i]);
                            lemma_entry(n, j);
                        }
                        if has_key(n, x) {
                            let j = index_of(n, x);
                            let i = if j < at { j } else { j + 1 };
                            assert(n[j] == e[i]);
                            assert(e[i].0@ == x);
                        }
                    }
                }
            }
        } else {
            assert(as_map(e) =~= as_map(e).remove(k));
        }
        self.entries = entries;
    }

    /// How many keys there are.
    pub fn len(&self) -> (n: usize)
        ensures
            n == self.size(),
            self@.dom().finite(),
            n == self@.dom().len(),
    {
        proof {
            use_type_invariant(self);
            lemma_size(self.entries@);
        }
        self.entries.len()
    }

    /// The entries whose key starts with `prefix`, in ascending key order.
    pub fn scan(&self, prefix: &[u8]) -> (r: Vec<(Vec<u8>, Vec<u8>)>)
        ensures
            ascending(r@),
            as_map(r@) == prefixed(self@, prefix@),
    {
        proof {
            use_type_invariant(self);
        }
        let ghost e = self.entries@;
        let mut r: Vec<(Vec<u8>, Vec<u8>)> = Vec::new();
        let mut from: Ghost<Seq<int>> = Ghost(Seq::empty());
        let mut i: usize = 0;
        while i < self.entries.len()
            invariant
                e == self.entries@,
                i <= e.len(),
                from@.len() == r@.len(),
                forall|x: int|
                    0 <= x < r@.len() ==> {
                        &&& 0 <= #[trigger] from@[x] < i
                        &&& r@[x].0@ == e[from@[x]].0@
                        &&& r@[x].1@ == e[from@[x]].1@
                        &&& bytes::has_prefix(r@[x].0@, prefix@)
                    },
                forall|x: int, y: int|
                    0 <= x < y < r@.len() ==> #[trigger] from@[x] < #[trigger] from@[y],
                forall|j: int|
                    0 <= j < i && bytes::has_prefix(#[trigger] e[j].0@, prefix@) ==> exists|x: int|
                        0 <= x < r@.len() && #[trigger] from@[x] == j,
            decreases e.len() - i,
        {
            if starts_with(self.entries[i].0.as_slice(), prefix) {
                let ghost was = from@;
                r.push(
                    (
                        copy_bytes(self.entries[i].0.as_slice()),
                        copy_bytes(self.entries[i].1.as_slice()),
                    ),
                );
                proof {
                    from@ = from@.push(i as int);
                    assert forall|j: int|
                        0 <= j < i + 1 && bytes::has_prefix(
                            #[trigger] e[j].0@,
                            prefix@,
                        ) implies exists|x: int|
                        0 <= x < r@.len() && #[trigger] from@[x] == j by {
                        if j == i {
                            assert(from@[was.len() as int] == j);
                        } else {
                            let x = choose|x: int| 0 <= x < was.len() && #[trigger] was[x] == j;
                            assert(from@[x] == j);
                        }
                    }
                }
            }
            i += 1;
        }
        proof {
            assert forall|x: int, y: int| 0 <= x < y < r@.len() implies bytes::bytes_lt(
                #[trigger] r@[x].0@,
                #[trigger] r@[y].0@,
            ) by {
                assert(from@[x] < from@[y]);
                assert(bytes::bytes_lt(e[from@[x]].0@, e[from@[y]].0@));
            }
            assert forall|k: Seq<u8>| {
                &&& (#[trigger] as_map(r@).dom().contains(k)) == prefixed(
                    self@,
                    prefix@,
                ).dom().contains(k)
                &&& as_map(r@).dom().contains(k) ==> as_map(r@)[k] == self@[k]
            } by {
                if has_key(r@, k) {
                    let x = index_of(r@, k);
                    assert(r@[x].0@ == k);
                    assert(0 <= from@[x] < e.len());
                    lemma_entry(e, from@[x]);
                    lemma_entry(r@, x);
                }
                if has_key(e, k) && bytes::has_prefix(k, prefix@) {
                    let j = index_of(e, k);
                    assert(e[j].0@ == k);
                    let x = choose|x: int| 0 <= x < r@.len() && #[trigger] from@[x] == j;
                    lemma_entry(r@, x);
                }
            }
            assert(as_map(r@) =~= prefixed(self@, prefix@));
        }
        r
    }
}

impl Clone for ByteMap {
    fn clone(&self) -> (r: Self)
        ensures
            r@ == self@,
            r.size() == self.size(),
    {
        proof {
            use_type_invariant(self);
        }
        let mut entries: Vec<(Vec<u8>, Vec<u8>)> = Vec::new();
        let mut i: usize = 0;
        while i < self.entries.len()
            invariant
                i <= self.entries@.len(),
                entries@.len() == i,
                forall|j: int|
                    0 <= j < i ==> (#[trigger] entries@[j]).0@ == self.entries@[j].0@
                        && entries@[j].1@ == self.entries@[j].1@,
            decreases self.entries@.len() - i,
        {
            entries.push(
                (
                    copy_bytes(self.entries[i].0.as_slice()),
                    copy_bytes(self.entries[i].1.as_slice()),
                ),
            );
            i += 1;
        }
        proof {
            let e = self.entries@;
            let n = entries@;
            assert(ascending(n)) by {
                assert forall|i: int, j: int| 0 <= i < j < n.len() implies bytes::bytes_lt(
                    #[trigger] n[i].0@,
                    #[trigger] n[j].0@,
                ) by {
                    assert(bytes::bytes_lt(e[i].0@, e[j].0@));
                }
            }
            lemma_same_entries(n, e);
        }
        ByteMap { entries }
    }
}

/// A map holds finitely many keys.
pub proof fn lemma_finite(m: &ByteMap)
    ensures
        m@.dom().finite(),
{
    let keys = m.entries@.map_values(|p: (Vec<u8>, Vec<u8>)| p.0@);
    vstd::seq_lib::seq_to_set_is_finite(keys);
    assert(m@.dom().subset_of(keys.to_set())) by {
        assert forall|k: Seq<u8>| m@.dom().contains(k) implies keys.to_set().contains(k) by {
            let i = index_of(m.entries@, k);
            assert(m.entries@[i].0@ == k);
            assert(keys[i] == k);
        }
    }
    vstd::set_lib::lemma_set_subset_finite(keys.to_set(), m@.dom());
}

/// Entries with the same bytes stand for the same map.
pub proof fn lemma_same_entries(a: Seq<(Vec<u8>, Vec<u8>)>, b: Seq<(Vec<u8>, Vec<u8>)>)
    requires
        ascending(a),
        ascending(b),
        a.len() == b.len(),
        forall|i: int| 0 <= i < a.len() ==> (#[trigger] a[i]).0@ == b[i].0@ && a[i].1@ == b[i].1@,
    ensures
        as_map(a) == as_map(b),
{
    assert forall|k: Seq<u8>| {
        &&& (#[trigger] as_map(a).dom().contains(k)) == as_map(b).dom().contains(k)
        &&& as_map(a).dom().contains(k) ==> as_map(a)[k] == as_map(b)[k]
    } by {
        if has_key(a, k) {
            let i = index_of(a, k);
            assert(a[i].0@ == k);
            lemma_entry(a, i);
            lemma_entry(b, i);
        }
        if has_key(b, k) {
            let i = index_of(b, k);
            assert(b[i].0@ == k);
            assert(a[i].0@ == b[i].0@);
            lemma_entry(a, i);
        }
    }
    assert(as_map(a) =~= as_map(b));
}

/// A run of entries has as many keys as entries.
pub proof fn lemma_size(e: Seq<(Vec<u8>, Vec<u8>)>)
    requires
        ascending(e),
    ensures
        as_map(e).dom().finite(),
        as_map(e).dom().len() == e.len(),
    decreases e.len(),
{
    if e.len() == 0 {
        assert(as_map(e).dom() =~= Set::empty());
    } else {
        let f = e.drop_last();
        let k = e.last().0@;
        assert(ascending(f)) by {
            assert forall|i: int, j: int| 0 <= i < j < f.len() implies bytes::bytes_lt(
                #[trigger] f[i].0@,
                #[trigger] f[j].0@,
            ) by {
                assert(bytes::bytes_lt(e[i].0@, e[j].0@));
            }
        }
        lemma_size(f);
        assert(!has_key(f, k)) by {
            if has_key(f, k) {
                let i = index_of(f, k);
                assert(f[i].0@ == k);
                assert(bytes::bytes_lt(e[i].0@, e[e.len() - 1].0@));
                bytes::lemma_bytes_lt_total(k, k);
            }
        }
        assert(as_map(e).dom() =~= as_map(f).dom().insert(k)) by {
            assert forall|x: Seq<u8>| has_key(e, x) == (has_key(f, x) || x == k) by {
                if has_key(f, x) {
                    let i = index_of(f, x);
                    assert(e[i].0@ == x);
                }
                if has_key(e, x) {
                    let i = index_of(e, x);
                    assert(e[i].0@ == x);
                    if i < f.len() {
                        assert(f[i].0@ == x);
                    }
                }
                assert(e[e.len() - 1].0@ == k);
            }
        }
    }
}

/// Skipping one entry less adds its key.
pub proof fn lemma_skip_one(all: Seq<(Vec<u8>, Vec<u8>)>, n: int)
    requires
        0 < n <= all.len(),
    ensures
        forall|k: Seq<u8>| #[trigger]
            has_key(all.skip(n - 1), k) == (has_key(all.skip(n), k) || k
                == all[n - 1].0@),
{
    let a = all.skip(n - 1);
    let b = all.skip(n);
    assert forall|k: Seq<u8>| #[trigger]
        has_key(a, k) == (has_key(b, k) || k == all[n - 1].0@) by {
        if has_key(a, k) {
            let i = index_of(a, k);
            assert(a[i].0@ == k);
            if i > 0 {
                assert(b[i - 1] == a[i]);
                assert(b[i - 1].0@ == k);
            }
        }
        if has_key(b, k) {
            let i = index_of(b, k);
            assert(a[i + 1] == b[i]);
            assert(a[i + 1].0@ == k);
        }
        assert(a[0].0@ == all[n - 1].0@);
    }
}

} // verus!
