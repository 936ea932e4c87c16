//! Counted tables of fixed-width rows, as the ledger's records hold them: a
//! four-byte count, then the rows in ascending key order.

use std::collections::HashMap;

use vstd::prelude::*;
use vstd::std_specs::hash::*;

use crate::bytes;
use crate::bytes::{push_bytes, push_u32, push_u64};
use crate::ordered;
use crate::ordered::{keys_32, keys_64};
use crate::reader;
use crate::reader::Reader;

verus! {

broadcast use group_hash_axioms;

// --- ciphertexts by token ---

/// The map in the first `n` rows of `s`; a later row for a key wins.
pub open spec fn cts_in(s: Seq<u8>, n: nat) -> Map<u32, [u8; 64]>
    decreases n,
{
    if n == 0 {
        Map::empty()
    } else {
        let at = 68 * (n - 1);
        cts_in(s, (n - 1) as nat).insert(
            bytes::of_le4(s.subrange(at, at + 4)),
            bytes::array_of::<64>(s.subrange(at + 4, at + 68)),
        )
    }
}

/// A counted table of ciphertexts by token at the front of `s`, and what follows it.
pub open spec fn read_cts(s: Seq<u8>) -> Option<(Map<u32, [u8; 64]>, Seq<u8>)> {
    if s.len() < 4 {
        None
    } else {
        let n = bytes::of_le4(reader::head(s, 4)) as nat;
        let t = reader::tail(s, 4);
        if t.len() < 68 * n {
            None
        } else {
            Some((cts_in(t, n), reader::tail(t, 68 * n as int)))
        }
    }
}

/// The rows for the keys `ks`.
pub open spec fn cts_rows(m: Map<u32, [u8; 64]>, ks: Seq<u32>) -> Seq<u8>
    decreases ks.len(),
{
    if ks.len() == 0 {
        Seq::empty()
    } else {
        cts_rows(m, ks.drop_last()) + (bytes::le4(ks.last()) + m[ks.last()]@)
    }
}

/// A table of ciphertexts by token: the number of rows, then the rows in ascending key order.
pub open spec fn cts_bytes(m: Map<u32, [u8; 64]>) -> Seq<u8> {
    bytes::le4(m.dom().len() as u32) + cts_rows(m, ordered::order_32(m.dom()))
}

proof fn lemma_cts_rows_len(m: Map<u32, [u8; 64]>, ks: Seq<u32>)
    ensures
        cts_rows(m, ks).len() == 68 * ks.len(),
    decreases ks.len(),
{
    broadcast use bytes::group_le;

    if ks.len() > 0 {
        lemma_cts_rows_len(m, ks.drop_last());
    }
}

proof fn lemma_cts_more(s: Seq<u8>, t: Seq<u8>, n: nat)
    requires
        68 * n <= s.len(),
    ensures
        cts_in(s + t, n) == cts_in(s, n),
    decreases n,
{
    if n > 0 {
        let at = 68 * (n - 1);
        lemma_cts_more(s, t, (n - 1) as nat);
        assert((s + t).subrange(at, at + 4) =~= s.subrange(at, at + 4));
        assert((s + t).subrange(at + 4, at + 68) =~= s.subrange(at + 4, at + 68));
    }
}

proof fn lemma_cts_in_rows(m: Map<u32, [u8; 64]>, ks: Seq<u32>)
    ensures
        forall|k: u32| {
            let r = cts_in(cts_rows(m, ks), ks.len());
            &&& (#[trigger] cts_in(cts_rows(m, ks), ks.len()).dom().contains(k)) == ks.contains(k)
            &&& ks.contains(k) ==> r[k] == m[k]
        },
    decreases ks.len(),
{
    broadcast use {bytes::group_le, bytes::lemma_array_of};

    let all = cts_rows(m, ks);
    if ks.len() > 0 {
        let h = ks.drop_last();
        let front = cts_rows(m, h);
        let last = ks.last();
        let row = bytes::le4(last) + m[last]@;
        lemma_cts_in_rows(m, h);
        lemma_cts_rows_len(m, h);
        lemma_cts_more(front, row, h.len());
        let at = 68 * (ks.len() - 1);
        assert(all.subrange(at, at + 4) =~= bytes::le4(last));
        assert(all.subrange(at + 4, at + 68) =~= m[last]@);
        assert forall|k: u32| {
            let r = cts_in(all, ks.len());
            &&& (#[trigger] cts_in(all, ks.len()).dom().contains(k)) == ks.contains(k)
            &&& ks.contains(k) ==> r[k] == m[k]
        } by {
            assert(cts_in(front, h.len()).dom().contains(k) == h.contains(k));
            if ks.contains(k) {
                let i = choose|i: int| 0 <= i < ks.len() && ks[i] == k;
                if i < h.len() {
                    assert(h[i] == k);
                }
            }
            if h.contains(k) {
                let i = choose|i: int| 0 <= i < h.len() && h[i] == k;
                assert(ks[i] == k);
            }
            assert(ks[ks.len() - 1] == last);
        }
    }
}

/// What is written as a table is read back.
pub proof fn lemma_read_cts(m: Map<u32, [u8; 64]>, t: Seq<u8>)
    requires
        m.dom().finite(),
        m.dom().len() <= u32::MAX,
    ensures
        read_cts(cts_bytes(m) + t) == Some((m, t)),
{
    broadcast use bytes::group_le;

    ordered::lemma_listed_32(m.dom());
    let ks = ordered::order_32(m.dom());
    let rows = cts_rows(m, ks);
    lemma_cts_rows_len(m, ks);
    lemma_cts_in_rows(m, ks);
    lemma_cts_more(rows, t, ks.len());
    let count = bytes::le4(m.dom().len() as u32);
    let s = cts_bytes(m) + t;
    assert(reader::head(s, 4) =~= count);
    assert(reader::tail(s, 4) =~= rows + t);
    assert(reader::tail(rows + t, 68 * ks.len() as int) =~= t);
    assert forall|k: u32| {
        &&& (#[trigger] cts_in(rows, ks.len()).dom().contains(k)) == m.dom().contains(k)
        &&& m.dom().contains(k) ==> cts_in(rows, ks.len())[k] == m[k]
    } by {
        assert(m.dom().contains(k) == ks.contains(k));
    }
    assert(cts_in(rows, ks.len()) =~= m);
}

/// A table read once is read the same with more behind it, and has at most as
/// many keys as its count can say.
pub proof fn lemma_cts_stable(s: Seq<u8>, t: Seq<u8>)
    ensures
        match read_cts(s) {
            Some((m, rest)) => {
                &&& read_cts(s + t) == Some((m, rest + t))
                &&& m.dom().finite()
                &&& m.dom().len() <= u32::MAX
            },
            None => true,
        },
{
    if let Some((m, rest)) = read_cts(s) {
        let n = bytes::of_le4(reader::head(s, 4)) as nat;
        let u = reader::tail(s, 4);
        reader::lemma_more(s, t, 4);
        reader::lemma_more(u, t, 68 * n as int);
        lemma_cts_more(u, t, n);
        lemma_cts_size(u, n);
    }
}

proof fn lemma_cts_size(s: Seq<u8>, n: nat)
    ensures
        cts_in(s, n).dom().finite(),
        cts_in(s, n).dom().len() <= n,
    decreases n,
{
    if n > 0 {
        lemma_cts_size(s, (n - 1) as nat);
    }
}

/// Append a table of ciphertexts by token.
pub fn push_cts(out: &mut Vec<u8>, m: &HashMap<u32, [u8; 64]>)
    requires
        m@.dom().len() <= u32::MAX,
    ensures
        final(out)@ == old(out)@ + cts_bytes(m@),
{
    let ks = keys_32(m);
    let ghost order = ks@;
    push_u32(out, ks.len() as u32);
    let ghost start = out@;
    let mut i: usize = 0;
    assert(order.take(0) =~= Seq::empty());
    assert(start + Seq::<u8>::empty() =~= start);
    while i < ks.len()
        invariant
            i <= ks@.len(),
            ks@ == order,
            ordered::lists_32(ks@, m@.dom()),
            out@ == start + cts_rows(m@, order.take(i as int)),
        decreases ks@.len() - i,
    {
        let k = ks[i];
        proof {
            assert(ks@.contains(k));
            assert(m@.dom().contains(k));
            assert(order.take(i + 1).drop_last() =~= order.take(i as int));
        }
        let ghost before = out@;
        push_u32(out, k);
        if let Some(v) = m.get(&k) {
            push_bytes(out, v.as_slice());
        }
        i += 1;
        assert(out@ =~= start + cts_rows(m@, order.take(i as int)));
    }
    assert(order.take(i as int) =~= order);
    assert(out@ =~= old(out)@ + cts_bytes(m@));
}

/// Read a table of ciphertexts by token.
pub fn take_cts(r: &mut Reader) -> (m: Option<HashMap<u32, [u8; 64]>>)
    requires
        old(r).ok(),
    ensures
        final(r).ok(),
        match m {
            Some(m) => read_cts(old(r).rest()) == Some((m@, final(r).rest())),
            None => read_cts(old(r).rest()) is None,
        },
{
    broadcast use bytes::lemma_array_of;

    let n = match r.u32() {
        Some(n) => n,
        None => {
            return None;
        },
    };
    let ghost t = r.rest();
    let mut m: HashMap<u32, [u8; 64]> = HashMap::new();
    assert(m@ =~= cts_in(t, 0));
    assert(reader::tail(t, 0) =~= t);
    let mut i: u32 = 0;
    while i < n
        invariant
            r.ok(),
            i <= n,
            68 * i <= t.len(),
            r.rest() == reader::tail(t, 68 * i),
            m@ == cts_in(t, i as nat),
            t == reader::tail(old(r).rest(), 4),
            old(r).rest().len() >= 4,
            n == bytes::of_le4(reader::head(old(r).rest(), 4)),
        decreases n - i,
    {
        let ghost at = 68 * i;
        let k = match r.u32() {
            Some(k) => k,
            None => {
                return None;
            },
        };
        let v = match r.array::<64>() {
            Some(v) => v,
            None => {
                return None;
            },
        };
        proof {
            assert(reader::head(reader::tail(t, at), 4) =~= t.subrange(at, at + 4));
            assert(reader::head(reader::tail(reader::tail(t, at), 4), 64) =~= t.subrange(at + 4, at
                + 68));
            assert(reader::tail(reader::tail(reader::tail(t, at), 4), 64) =~= reader::tail(t, at
                + 68));
        }
        assert(bytes::array_of::<64>(v@) == v);
        m.insert(k, v);
        i += 1;
        assert(m@ =~= cts_in(t, i as nat));
    }
    Some(m)
}

/// The ciphertexts in the first `n` rows of `s`, one for each row.
pub open spec fn ct_fields(s: Seq<u8>, n: nat) -> Seq<[u8; 64]>
    decreases n,
{
    if n == 0 {
        Seq::empty()
    } else {
        let at = 68 * (n - 1);
        ct_fields(s, (n - 1) as nat).push(bytes::array_of::<64>(s.subrange(at + 4, at + 68)))
    }
}

/// The ciphertexts in the counted table at the front of `s`.
pub open spec fn listed_cts(s: Seq<u8>) -> Seq<[u8; 64]> {
    ct_fields(reader::tail(s, 4), bytes::of_le4(reader::head(s, 4)) as nat)
}

/// Every ciphertext that a table gives a token is among those in its rows.
pub proof fn lemma_cts_listed(s: Seq<u8>)
    requires
        read_cts(s) is Some,
    ensures
        forall|k: u32|
            #![trigger (read_cts(s)->0).0[k]]
            (read_cts(s)->0).0.contains_key(k) ==> listed_cts(s).contains((read_cts(s)->0).0[k]),
{
    let n = bytes::of_le4(reader::head(s, 4)) as nat;
    lemma_cts_in_fields(reader::tail(s, 4), n);
}

proof fn lemma_cts_in_fields(s: Seq<u8>, n: nat)
    ensures
        forall|k: u32|
            #![trigger cts_in(s, n)[k]]
            cts_in(s, n).contains_key(k) ==> ct_fields(s, n).contains(cts_in(s, n)[k]),
    decreases n,
{
    if n > 0 {
        let m = (n - 1) as nat;
        lemma_cts_in_fields(s, m);
        assert forall|k: u32|
            #![trigger cts_in(s, n)[k]]
            cts_in(s, n).contains_key(k) implies ct_fields(s, n).contains(cts_in(s, n)[k]) by {
            let at = 68 * (n - 1);
            if k == bytes::of_le4(s.subrange(at, at + 4)) {
                assert(ct_fields(s, n).last() == cts_in(s, n)[k]);
            } else {
                let i = choose|i: int|
                    0 <= i < ct_fields(s, m).len() && ct_fields(s, m)[i] == cts_in(s, m)[k];
                assert(ct_fields(s, n)[i] == cts_in(s, n)[k]);
            }
        }
    }
}

/// Read past a table of ciphertexts by token, and list its ciphertexts.
pub fn list_cts(r: &mut Reader, out: &mut Vec<[u8; 64]>) -> (ok: bool)
    requires
        old(r).ok(),
    ensures
        final(r).ok(),
        ok == (read_cts(old(r).rest()) is Some),
        ok ==> final(r).rest() == (read_cts(old(r).rest())->0).1,
        ok ==> final(out)@ == old(out)@ + listed_cts(old(r).rest()),
{
    broadcast use bytes::lemma_array_of;

    let n = match r.u32() {
        Some(n) => n,
        None => {
            return false;
        },
    };
    let ghost t = r.rest();
    let ghost had = out@;
    assert(out@ =~= had + ct_fields(t, 0));
    assert(reader::tail(t, 0) =~= t);
    let mut i: u32 = 0;
    while i < n
        invariant
            r.ok(),
            i <= n,
            68 * i <= t.len(),
            r.rest() == reader::tail(t, 68 * i),
            out@ == had + ct_fields(t, i as nat),
            t == reader::tail(old(r).rest(), 4),
            old(r).rest().len() >= 4,
            n == bytes::of_le4(reader::head(old(r).rest(), 4)),
        decreases n - i,
    {
        let ghost at = 68 * i;
        if r.u32().is_none() {
            return false;
        }
        let v = match r.array::<64>() {
            Some(v) => v,
            None => {
                return false;
            },
        };
        proof {
            assert(reader::head(reader::tail(reader::tail(t, at), 4), 64) =~= t.subrange(at + 4, at
                + 68));
            assert(reader::tail(reader::tail(reader::tail(t, at), 4), 64) =~= reader::tail(t, at
                + 68));
        }
        assert(bytes::array_of::<64>(v@) == v);
        out.push(v);
        i += 1;
        assert(out@ =~= had + ct_fields(t, i as nat));
    }
    true
}

// --- amounts by token ---

/// The map in the first `n` rows of `s`; a later row for a key wins.
pub open spec fn sums_in(s: Seq<u8>, n: nat) -> Map<u32, u64>
    decreases n,
{
    if n == 0 {
        Map::empty()
    } else {
        let at = 12 * (n - 1);
        sums_in(s, (n - 1) as nat).insert(
            bytes::of_le4(s.subrange(at, at + 4)),
            bytes::of_le8(s.subrange(at + 4, at + 12)),
        )
    }
}

/// A counted table of amounts by token at the front of `s`, and what follows it.
pub open spec fn read_sums(s: Seq<u8>) -> Option<(Map<u32, u64>, Seq<u8>)> {
    if s.len() < 4 {
        None
    } else {
        let n = bytes::of_le4(reader::head(s, 4)) as nat;
        let t = reader::tail(s, 4);
        if t.len() < 12 * n {
            None
        } else {
            Some((sums_in(t, n), reader::tail(t, 12 * n as int)))
        }
    }
}

/// The rows for the keys `ks`.
pub open spec fn sums_rows(m: Map<u32, u64>, ks: Seq<u32>) -> Seq<u8>
    decreases ks.len(),
{
    if ks.len() == 0 {
        Seq::empty()
    } else {
        sums_rows(m, ks.drop_last()) + (bytes::le4(ks.last()) + bytes::le8(m[ks.last()]))
    }
}

/// A table of amounts by token: the number of rows, then the rows in ascending key order.
pub open spec fn sums_bytes(m: Map<u32, u64>) -> Seq<u8> {
    bytes::le4(m.dom().len() as u32) + sums_rows(m, ordered::order_32(m.dom()))
}

proof fn lemma_sums_rows_len(m: Map<u32, u64>, ks: Seq<u32>)
    ensures
        sums_rows(m, ks).len() == 12 * ks.len(),
    decreases ks.len(),
{
    broadcast use bytes::group_le;

    if ks.len() > 0 {
        lemma_sums_rows_len(m, ks.drop_last());
    }
}

proof fn lemma_sums_more(s: Seq<u8>, t: Seq<u8>, n: nat)
    requires
        12 * n <= s.len(),
    ensures
        sums_in(s + t, n) == sums_in(s, n),
    decreases n,
{
    if n > 0 {
        let at = 12 * (n - 1);
        lemma_sums_more(s, t, (n - 1) as nat);
        assert((s + t).subrange(at, at + 4) =~= s.subrange(at, at + 4));
        assert((s + t).subrange(at + 4, at + 12) =~= s.subrange(at + 4, at + 12));
    }
}

proof fn lemma_sums_in_rows(m: Map<u32, u64>, ks: Seq<u32>)
    ensures
        forall|k: u32| {
            let r = sums_in(sums_rows(m, ks), ks.len());
            &&& (#[trigger] sums_in(sums_rows(m, ks), ks.len()).dom().contains(k)) == ks.contains(k)
            &&& ks.contains(k) ==> r[k] == m[k]
        },
    decreases ks.len(),
{
    broadcast use {bytes::group_le, bytes::lemma_array_of};

    let all = sums_rows(m, ks);
    if ks.len() > 0 {
        let h = ks.drop_last();
        let front = sums_rows(m, h);
        let last = ks.last();
        let row = bytes::le4(last) + bytes::le8(m[last]);
        lemma_sums_in_rows(m, h);
        lemma_sums_rows_len(m, h);
        lemma_sums_more(front, row, h.len());
        let at = 12 * (ks.len() - 1);
        assert(all.subrange(at, at + 4) =~= bytes::le4(last));
        assert(all.subrange(at + 4, at + 12) =~= bytes::le8(m[last]));
        assert forall|k: u32| {
            let r = sums_in(all, ks.len());
            &&& (#[trigger] sums_in(all, ks.len()).dom().contains(k)) == ks.contains(k)
            &&& ks.contains(k) ==> r[k] == m[k]
        } by {
            assert(sums_in(front, h.len()).dom().contains(k) == h.contains(k));
            if ks.contains(k) {
                let i = choose|i: int| 0 <= i < ks.len() && ks[i] == k;
                if i < h.len() {
                    assert(h[i] == k);
                }
            }
            if h.contains(k) {
                let i = choose|i: int| 0 <= i < h.len() && h[i] == k;
                assert(ks[i] == k);
            }
            assert(ks[ks.len() - 1] == last);
        }
    }
}

/// What is written as a table is read back.
pub proof fn lemma_read_sums(m: Map<u32, u64>, t: Seq<u8>)
    requires
        m.dom().finite(),
        m.dom().len() <= u32::MAX,
    ensures
        read_sums(sums_bytes(m) + t) == Some((m, t)),
{
    broadcast use bytes::group_le;

    ordered::lemma_listed_32(m.dom());
    let ks = ordered::order_32(m.dom());
    let rows = sums_rows(m, ks);
    lemma_sums_rows_len(m, ks);
    lemma_sums_in_rows(m, ks);
    lemma_sums_more(rows, t, ks.len());
    let count = bytes::le4(m.dom().len() as u32);
    let s = sums_bytes(m) + t;
    assert(reader::head(s, 4) =~= count);
    assert(reader::tail(s, 4) =~= rows + t);
    assert(reader::tail(rows + t, 12 * ks.len() as int) =~= t);
    assert forall|k: u32| {
        &&& (#[trigger] sums_in(rows, ks.len()).dom().contains(k)) == m.dom().contains(k)
        &&& m.dom().contains(k) ==> sums_in(rows, ks.len())[k] == m[k]
    } by {
        assert(m.dom().contains(k) == ks.contains(k));
    }
    assert(sums_in(rows, ks.len()) =~= m);
}

/// A table read once is read the same with more behind it, and has at most as
/// many keys as its count can say.
pub proof fn lemma_sums_stable(s: Seq<u8>, t: Seq<u8>)
    ensures
        match read_sums(s) {
            Some((m, rest)) => {
                &&& read_sums(s + t) == Some((m, rest + t))
                &&& m.dom().finite()
                &&& m.dom().len() <= u32::MAX
            },
            None => true,
        },
{
    if let Some((m, rest)) = read_sums(s) {
        let n = bytes::of_le4(reader::head(s, 4)) as nat;
        let u = reader::tail(s, 4);
        reader::lemma_more(s, t, 4);
        reader::lemma_more(u, t, 12 * n as int);
        lemma_sums_more(u, t, n);
        lemma_sums_size(u, n);
    }
}

proof fn lemma_sums_size(s: Seq<u8>, n: nat)
    ensures
        sums_in(s, n).dom().finite(),
        sums_in(s, n).dom().len() <= n,
    decreases n,
{
    if n > 0 {
        lemma_sums_size(s, (n - 1) as nat);
    }
}

/// Append a table of amounts by token.
pub fn push_sums(out: &mut Vec<u8>, m: &HashMap<u32, u64>)
    requires
        m@.dom().len() <= u32::MAX,
    ensures
        final(out)@ == old(out)@ + sums_bytes(m@),
{
    let ks = keys_32(m);
    let ghost order = ks@;
    push_u32(out, ks.len() as u32);
    let ghost start = out@;
    let mut i: usize = 0;
    assert(order.take(0) =~= Seq::empty());
    assert(start + Seq::<u8>::empty() =~= start);
    while i < ks.len()
        invariant
            i <= ks@.len(),
            ks@ == order,
            ordered::lists_32(ks@, m@.dom()),
            out@ == start + sums_rows(m@, order.take(i as int)),
        decreases ks@.len() - i,
    {
        let k = ks[i];
        proof {
            assert(ks@.contains(k));
            assert(m@.dom().contains(k));
            assert(order.take(i + 1).drop_last() =~= order.take(i as int));
        }
        let ghost before = out@;
        push_u32(out, k);
        if let Some(v) = m.get(&k) {
            push_u64(out, *v);
        }
        i += 1;
        assert(out@ =~= start + sums_rows(m@, order.take(i as int)));
    }
    assert(order.take(i as int) =~= order);
    assert(out@ =~= old(out)@ + sums_bytes(m@));
}

/// Read a table of amounts by token.
pub fn take_sums(r: &mut Reader) -> (m: Option<HashMap<u32, u64>>)
    requires
        old(r).ok(),
    ensures
        final(r).ok(),
        match m {
            Some(m) => read_sums(old(r).rest()) == Some((m@, final(r).rest())),
            None => read_sums(old(r).rest()) is None,
        },
{
    broadcast use bytes::lemma_array_of;

    let n = match r.u32() {
        Some(n) => n,
        None => {
            return None;
        },
    };
    let ghost t = r.rest();
    let mut m: HashMap<u32, u64> = HashMap::new();
    assert(m@ =~= sums_in(t, 0));
    assert(reader::tail(t, 0) =~= t);
    let mut i: u32 = 0;
    while i < n
        invariant
            r.ok(),
            i <= n,
            12 * i <= t.len(),
            r.rest() == reader::tail(t, 12 * i),
            m@ == sums_in(t, i as nat),
            t == reader::tail(old(r).rest(), 4),
            old(r).rest().len() >= 4,
            n == bytes::of_le4(reader::head(old(r).rest(), 4)),
        decreases n - i,
    {
        let ghost at = 12 * i;
        let k = match r.u32() {
            Some(k) => k,
            None => {
                return None;
            },
        };
        let v = match r.u64() {
            Some(v) => v,
            None => {
                return None;
            },
        };
        proof {
            assert(reader::head(reader::tail(t, at), 4) =~= t.subrange(at, at + 4));
            assert(reader::head(reader::tail(reader::tail(t, at), 4), 8) =~= t.subrange(at + 4, at
                + 12));
            assert(reader::tail(reader::tail(reader::tail(t, at), 4), 8) =~= reader::tail(t, at
                + 12));
        }
        m.insert(k, v);
        i += 1;
        assert(m@ =~= sums_in(t, i as nat));
    }
    Some(m)
}

// --- storage slots ---

/// The map in the first `n` rows of `s`; a later row for a key wins.
pub open spec fn slots_in(s: Seq<u8>, n: nat) -> Map<u64, u64>
    decreases n,
{
    if n == 0 {
        Map::empty()
    } else {
        let at = 16 * (n - 1);
        slots_in(s, (n - 1) as nat).insert(
            bytes::of_le8(s.subrange(at, at + 8)),
            bytes::of_le8(s.subrange(at + 8, at + 16)),
        )
    }
}

/// A counted table of storage slots at the front of `s`, and what follows it.
pub open spec fn read_slots(s: Seq<u8>) -> Option<(Map<u64, u64>, Seq<u8>)> {
    if s.len() < 4 {
        None
    } else {
        let n = bytes::of_le4(reader::head(s, 4)) as nat;
        let t = reader::tail(s, 4);
        if t.len() < 16 * n {
            None
        } else {
            Some((slots_in(t, n), reader::tail(t, 16 * n as int)))
        }
    }
}

/// The rows for the keys `ks`.
pub open spec fn slots_rows(m: Map<u64, u64>, ks: Seq<u64>) -> Seq<u8>
    decreases ks.len(),
{
    if ks.len() == 0 {
        Seq::empty()
    } else {
        slots_rows(m, ks.drop_last()) + (bytes::le8(ks.last()) + bytes::le8(m[ks.last()]))
    }
}

/// A table of storage slots: the number of rows, then the rows in ascending key order.
pub open spec fn slots_bytes(m: Map<u64, u64>) -> Seq<u8> {
    bytes::le4(m.dom().len() as u32) + slots_rows(m, ordered::order_64(m.dom()))
}

proof fn lemma_slots_rows_len(m: Map<u64, u64>, ks: Seq<u64>)
    ensures
        slots_rows(m, ks).len() == 16 * ks.len(),
    decreases ks.len(),
{
    broadcast use bytes::group_le;

    if ks.len() > 0 {
        lemma_slots_rows_len(m, ks.drop_last());
    }
}

proof fn lemma_slots_more(s: Seq<u8>, t: Seq<u8>, n: nat)
    requires
        16 * n <= s.len(),
    ensures
        slots_in(s + t, n) == slots_in(s, n),
    decreases n,
{
    if n > 0 {
        let at = 16 * (n - 1);
        lemma_slots_more(s, t, (n - 1) as nat);
        assert((s + t).subrange(at, at + 8) =~= s.subrange(at, at + 8));
        assert((s + t).subrange(at + 8, at + 16) =~= s.subrange(at + 8, at + 16));
    }
}

proof fn lemma_slots_in_rows(m: Map<u64, u64>, ks: Seq<u64>)
    ensures
        forall|k: u64| {
            let r = slots_in(slots_rows(m, ks), ks.len());
            &&& (#[trigger] slots_in(slots_rows(m, ks), ks.len()).dom().contains(k))
                == ks.contains(k)
            &&& ks.contains(k) ==> r[k] == m[k]
        },
    decreases ks.len(),
{
    broadcast use {bytes::group_le, bytes::lemma_array_of};

    let all = slots_rows(m, ks);
    if ks.len() > 0 {
        let h = ks.drop_last();
        let front = slots_rows(m, h);
        let last = ks.last();
        let row = bytes::le8(last) + bytes::le8(m[last]);
        lemma_slots_in_rows(m, h);
        lemma_slots_rows_len(m, h);
        lemma_slots_more(front, row, h.len());
        let at = 16 * (ks.len() - 1);
        assert(all.subrange(at, at + 8) =~= bytes::le8(last));
        assert(all.subrange(at + 8, at + 16) =~= bytes::le8(m[last]));
        assert forall|k: u64| {
            let r = slots_in(all, ks.len());
            &&& (#[trigger] slots_in(all, ks.len()).dom().contains(k)) == ks.contains(k)
            &&& ks.contains(k) ==> r[k] == m[k]
        } by {
            assert(slots_in(front, h.len()).dom().contains(k) == h.contains(k));
            if ks.contains(k) {
                let i = choose|i: int| 0 <= i < ks.len() && ks[i] == k;
                if i < h.len() {
                    assert(h[i] == k);
                }
            }
            if h.contains(k) {
                let i = choose|i: int| 0 <= i < h.len() && h[i] == k;
                assert(ks[i] == k);
            }
            assert(ks[ks.len() - 1] == last);
        }
    }
}

/// What is written as a table is read back.
pub proof fn lemma_read_slots(m: Map<u64, u64>, t: Seq<u8>)
    requires
        m.dom().finite(),
        m.dom().len() <= u32::MAX,
    ensures
        read_slots(slots_bytes(m) + t) == Some((m, t)),
{
    broadcast use bytes::group_le;

    ordered::lemma_listed_64(m.dom());
    let ks = ordered::order_64(m.dom());
    let rows = slots_rows(m, ks);
    lemma_slots_rows_len(m, ks);
    lemma_slots_in_rows(m, ks);
    lemma_slots_more(rows, t, ks.len());
    let count = bytes::le4(m.dom().len() as u32);
    let s = slots_bytes(m) + t;
    assert(reader::head(s, 4) =~= count);
    assert(reader::tail(s, 4) =~= rows + t);
    assert(reader::tail(rows + t, 16 * ks.len() as int) =~= t);
    assert forall|k: u64| {
        &&& (#[trigger] slots_in(rows, ks.len()).dom().contains(k)) == m.dom().contains(k)
        &&& m.dom().contains(k) ==> slots_in(rows, ks.len())[k] == m[k]
    } by {
        assert(m.dom().contains(k) == ks.contains(k));
    }
    assert(slots_in(rows, ks.len()) =~= m);
}

/// A table read once is read the same with more behind it, and has at most as
/// many keys as its count can say.
pub proof fn lemma_slots_stable(s: Seq<u8>, t: Seq<u8>)
    ensures
        match read_slots(s) {
            Some((m, rest)) => {
                &&& read_slots(s + t) == Some((m, rest + t))
                &&& m.dom().finite()
                &&& m.dom().len() <= u32::MAX
            },
            None => true,
        },
{
    if let Some((m, rest)) = read_slots(s) {
        let n = bytes::of_le4(reader::head(s, 4)) as nat;
        let u = reader::tail(s, 4);
        reader::lemma_more(s, t, 4);
        reader::lemma_more(u, t, 16 * n as int);
        lemma_slots_more(u, t, n);
        lemma_slots_size(u, n);
    }
}

proof fn lemma_slots_size(s: Seq<u8>, n: nat)
    ensures
        slots_in(s, n).dom().finite(),
        slots_in(s, n).dom().len() <= n,
    decreases n,
{
    if n > 0 {
        lemma_slots_size(s, (n - 1) as nat);
    }
}

/// Append a table of storage slots.
pub fn push_slots(out: &mut Vec<u8>, m: &HashMap<u64, u64>)
    requires
        m@.dom().len() <= u32::MAX,
    ensures
        final(out)@ == old(out)@ + slots_bytes(m@),
{
    let ks = keys_64(m);
    let ghost order = ks@;
    push_u32(out, ks.len() as u32);
    let ghost start = out@;
    let mut i: usize = 0;
    assert(order.take(0) =~= Seq::empty());
    assert(start + Seq::<u8>::empty() =~= start);
    while i < ks.len()
        invariant
            i <= ks@.len(),
            ks@ == order,
            ordered::lists_64(ks@, m@.dom()),
            out@ == start + slots_rows(m@, order.take(i as int)),
        decreases ks@.len() - i,
    {
        let k = ks[i];
        proof {
            assert(ks@.contains(k));
            assert(m@.dom().contains(k));
            assert(order.take(i + 1).drop_last() =~= order.take(i as int));
        }
        let ghost before = out@;
        push_u64(out, k);
        if let Some(v) = m.get(&k) {
            push_u64(out, *v);
        }
        i += 1;
        assert(out@ =~= start + slots_rows(m@, order.take(i as int)));
    }
    assert(order.take(i as int) =~= order);
    assert(out@ =~= old(out)@ + slots_bytes(m@));
}

/// Read a table of storage slots.
pub fn take_slots(r: &mut Reader) -> (m: Option<HashMap<u64, u64>>)
    requires
        old(r).ok(),
    ensures
        final(r).ok(),
        match m {
            Some(m) => read_slots(old(r).rest()) == Some((m@, final(r).rest())),
            None => read_slots(old(r).rest()) is None,
        },
{
    broadcast use bytes::lemma_array_of;

    let n = match r.u32() {
        Some(n) => n,
        None => {
            return None;
        },
    };
    let ghost t = r.rest();
    let mut m: HashMap<u64, u64> = HashMap::new();
    assert(m@ =~= slots_in(t, 0));
    assert(reader::tail(t, 0) =~= t);
    let mut i: u32 = 0;
    while i < n
        invariant
            r.ok(),
            i <= n,
            16 * i <= t.len(),
            r.rest() == reader::tail(t, 16 * i),
            m@ == slots_in(t, i as nat),
            t == reader::tail(old(r).rest(), 4),
            old(r).rest().len() >= 4,
            n == bytes::of_le4(reader::head(old(r).rest(), 4)),
        decreases n - i,
    {
        let ghost at = 16 * i;
        let k = match r.u64() {
            Some(k) => k,
            None => {
                return None;
            },
        };
        let v = match r.u64() {
            Some(v) => v,
            None => {
                return None;
            },
        };
        proof {
            assert(reader::head(reader::tail(t, at), 8) =~= t.subrange(at, at + 8));
            assert(reader::head(reader::tail(reader::tail(t, at), 8), 8) =~= t.subrange(at + 8, at
                + 16));
            assert(reader::tail(reader::tail(reader::tail(t, at), 8), 8) =~= reader::tail(t, at
                + 16));
        }
        m.insert(k, v);
        i += 1;
        assert(m@ =~= slots_in(t, i as nat));
    }
    Some(m)
}

} // verus!
