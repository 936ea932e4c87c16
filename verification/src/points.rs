//! The ciphertexts in bytes that come from outside. Whether 64 bytes are a
//! ciphertext is for the cryptography layer to say: these functions list what it
//! is asked, and a snapshot or a run of records is adopted only where it took
//! every one of them.

use vstd::prelude::*;

use crate::boot;
use crate::bytes;
use crate::ledger;
use crate::ledger::Ledger;
use crate::mem::MemStore;
use crate::reader;
use crate::reader::Reader;
use crate::records;
use crate::records::{list_account_cts, REC_ACCOUNT};
use crate::rules::State;
use crate::snapshot;
use crate::snapshot::Built;
use crate::store::{Column, KVStore};

verus! {

/// Whether each of the ciphertexts was taken for one: an answer for each, and
/// every answer a yes.
pub open spec fn taken(cts: Seq<[u8; 64]>, answers: Seq<bool>) -> bool {
    &&& answers.len() == cts.len()
    &&& forall|i: int| 0 <= i < answers.len() ==> answers[i]
}

/// Whether every ciphertext that an account of a state holds is among `cts`.
pub open spec fn all_listed(st: State, cts: Seq<[u8; 64]>) -> bool {
    forall|id: Seq<u8>, ct: [u8; 64]|
        st.accounts.contains_key(id) && #[trigger] records::holds_ct(st.accounts[id], ct)
            ==> cts.contains(ct)
}

/// One refused ciphertext is enough to refuse them all, and so is one without an answer or
/// an answer too many; where there is a yes for each, they are taken.
pub proof fn law_one_refusal_refuses_all(cts: Seq<[u8; 64]>, answers: Seq<bool>, i: int)
    ensures
        0 <= i < answers.len() && answers[i] == false ==> !taken(cts, answers),
        answers.len() < cts.len() ==> !taken(cts, answers),
        answers.len() > cts.len() ==> !taken(cts, answers),
        answers == Seq::new(cts.len(), |k: int| true) ==> taken(cts, answers),
{
}

/// Whether each of the ciphertexts was taken for one.
pub fn all_taken(cts: &Vec<[u8; 64]>, answers: &[bool]) -> (ok: bool)
    ensures
        ok == taken(cts@, answers@),
{
    if answers.len() != cts.len() {
        return false;
    }
    let mut i: usize = 0;
    while i < answers.len()
        invariant
            i <= answers@.len(),
            forall|j: int| 0 <= j < i ==> answers@[j],
        decreases answers@.len() - i,
    {
        if !answers[i] {
            return false;
        }
        i += 1;
    }
    true
}

// --- in a snapshot --------------------------------------------------------------

/// The ciphertexts in `n` account rows at the front of `s`, up to the first that is
/// malformed.
pub open spec fn rows_cts(s: Seq<u8>, n: nat) -> Seq<[u8; 64]>
    decreases n,
{
    let t = reader::tail(s, 32);
    if n == 0 || s.len() < 32 || records::read_account(t) is None {
        Seq::empty()
    } else {
        records::account_cts(t) + rows_cts((records::read_account(t)->0).1, (n - 1) as nat)
    }
}

/// The ciphertexts in a snapshot, in the order in which they stand there: behind
/// the tag, the next token id and the count of accounts.
pub open spec fn snapshot_cts(b: Seq<u8>) -> Seq<[u8; 64]> {
    if b.len() < 16 {
        Seq::empty()
    } else {
        rows_cts(
            reader::tail(reader::tail(b, 12), 4),
            bytes::of_le4(reader::head(reader::tail(b, 12), 4)) as nat,
        )
    }
}

/// The ciphertexts in a snapshot.
pub fn in_snapshot(b: &[u8]) -> (r: Vec<[u8; 64]>)
    ensures
        r@ == snapshot_cts(b@),
{
    let mut out: Vec<[u8; 64]> = Vec::new();
    let mut r = Reader::new(b);
    if r.take(12).is_none() {
        return out;
    }
    let n = match r.u32() {
        Some(n) => n,
        None => {
            return out;
        },
    };
    let ghost s = r.rest();
    assert(out@ + rows_cts(s, n as nat) =~= rows_cts(s, n as nat));
    let mut i: u32 = 0;
    while i < n
        invariant
            r.ok(),
            i <= n,
            out@ + rows_cts(r.rest(), (n - i) as nat) == rows_cts(s, n as nat),
            rows_cts(s, n as nat) == snapshot_cts(b@),
        decreases n - i,
    {
        let ghost had = out@;
        let ghost rest = r.rest();
        let mut some: Vec<[u8; 64]> = Vec::new();
        if r.take(32).is_none() || !list_account_cts(&mut r, &mut some) {
            assert(had + rows_cts(rest, (n - i) as nat) =~= had);
            return out;
        }
        let ghost these = some@;
        proof {
            let t = reader::tail(rest, 32);
            assert(these =~= records::account_cts(t));
            let more = rows_cts((records::read_account(t)->0).1, (n - i - 1) as nat);
            assert(had + (these + more) =~= (had + these) + more);
        }
        out.append(&mut some);
        i += 1;
    }
    assert(out@ + rows_cts(r.rest(), 0) =~= out@);
    out
}

proof fn lemma_rows_listed(s: Seq<u8>, n: nat, b: Built, id: Seq<u8>, ct: [u8; 64])
    requires
        snapshot::read_rows(REC_ACCOUNT, s, n, b) is Some,
        ({
            let now = (snapshot::read_rows(REC_ACCOUNT, s, n, b)->0).0.st;
            &&& now.accounts.contains_key(id)
            &&& records::holds_ct(now.accounts[id], ct)
        }),
        b.st.accounts.contains_key(id) ==> !records::holds_ct(b.st.accounts[id], ct),
    ensures
        rows_cts(s, n).contains(ct),
    decreases n,
{
    if n > 0 {
        let t = reader::tail(s, 32);
        let (a, rest) = records::read_account(t)->0;
        let b1 = b.account(reader::head(s, 32), a);
        let x = records::account_cts(t);
        let y = rows_cts(rest, (n - 1) as nat);
        if id == reader::head(s, 32) && records::holds_ct(a, ct) {
            records::lemma_account_cts(t, ct);
            let i = choose|i: int| 0 <= i < x.len() && x[i] == ct;
            assert((x + y)[i] == ct);
        } else {
            lemma_rows_listed(rest, (n - 1) as nat, b1, id, ct);
            let i = choose|i: int| 0 <= i < y.len() && y[i] == ct;
            assert((x + y)[x.len() + i] == ct);
        }
    }
}

proof fn lemma_rows_keep_accounts(tag: u8, s: Seq<u8>, n: nat, b: Built)
    requires
        tag != REC_ACCOUNT,
        snapshot::read_rows(tag, s, n, b) is Some,
    ensures
        (snapshot::read_rows(tag, s, n, b)->0).0.st.accounts == b.st.accounts,
    decreases n,
{
    if n > 0 {
        let (b1, rest) = snapshot::read_row(tag, s, b)->0;
        lemma_rows_keep_accounts(tag, rest, (n - 1) as nat, b1);
    }
}

proof fn lemma_part_keeps_accounts(tag: u8, r: Option<(Built, Seq<u8>)>)
    requires
        tag != REC_ACCOUNT,
        snapshot::and_part(tag, r) is Some,
    ensures
        r is Some,
        (snapshot::and_part(tag, r)->0).0.st.accounts == (r->0).0.st.accounts,
{
    let (b, s) = r->0;
    lemma_rows_keep_accounts(
        tag,
        reader::tail(s, 4),
        bytes::of_le4(reader::head(s, 4)) as nat,
        b,
    );
}

/// No ciphertext enters a ledger unasked: each that an account of a decoded ledger
/// holds is among those that stand in the snapshot.
pub proof fn law_snapshot_ciphertexts_are_listed(b: Seq<u8>, l: Ledger<MemStore>)
    requires
        snapshot::decodes(b, l.zero, Some(l)),
    ensures
        all_listed(l.state(), snapshot_cts(b)),
{
    let u = reader::tail(b, 8);
    let start = snapshot::unread(bytes::of_le4(reader::head(u, 4)), l.zero);
    let s = reader::tail(u, 4);
    assert(s =~= reader::tail(b, 12));
    let p0 = snapshot::read_part(REC_ACCOUNT, s, start);
    let p1 = snapshot::and_part(records::REC_TOKEN, p0);
    let p2 = snapshot::and_part(records::REC_CONTRACT, p1);
    let p3 = snapshot::and_part(records::REC_NULLIFIER, p2);
    lemma_part_keeps_accounts(records::REC_VALIDATOR, p3);
    lemma_part_keeps_accounts(records::REC_NULLIFIER, p2);
    lemma_part_keeps_accounts(records::REC_CONTRACT, p1);
    lemma_part_keeps_accounts(records::REC_TOKEN, p0);
    let st = l.state();
    assert forall|id: Seq<u8>, ct: [u8; 64]|
        st.accounts.contains_key(id) && #[trigger] records::holds_ct(
            st.accounts[id],
            ct,
        ) implies snapshot_cts(b).contains(ct) by {
        lemma_rows_listed(
            reader::tail(s, 4),
            bytes::of_le4(reader::head(s, 4)) as nat,
            start,
            id,
            ct,
        );
    }
}

// --- in object records ----------------------------------------------------------

/// The ciphertexts in account records, the malformed ones left out.
pub open spec fn bodies_cts(e: Seq<(Seq<u8>, Seq<u8>)>) -> Seq<[u8; 64]>
    decreases e.len(),
{
    if e.len() == 0 {
        Seq::empty()
    } else if records::read_account(e.last().1) is Some {
        bodies_cts(e.drop_last()) + records::account_cts(e.last().1)
    } else {
        bodies_cts(e.drop_last())
    }
}

/// The ciphertexts in object records, in ascending key order.
pub open spec fn record_cts(o: Map<Seq<u8>, Seq<u8>>) -> Seq<[u8; 64]> {
    bodies_cts(snapshot::listing(snapshot::kind(o, REC_ACCOUNT)))
}

/// The ciphertexts in the object records that a store holds.
pub fn in_records<B: KVStore>(base: &B) -> (r: Vec<[u8; 64]>)
    ensures
        r@ == record_cts(ledger::objects_of(base.holds())),
        ({
            let m = snapshot::kind(ledger::objects_of(base.holds()), REC_ACCOUNT);
            snapshot::lists(snapshot::listing(m), m)
        }),
{
    let prefix: [u8; 1] = [REC_ACCOUNT];
    assert(prefix@ =~= seq![REC_ACCOUNT]);
    let all = base.scan_prefix(Column::Objects, prefix.as_slice());
    proof {
        snapshot::lemma_listing(all@);
    }
    let ghost e = snapshot::plain(all@);
    let mut out: Vec<[u8; 64]> = Vec::new();
    assert(e.take(0) =~= Seq::empty());
    let mut i: usize = 0;
    while i < all.len()
        invariant
            i <= all@.len(),
            e == snapshot::plain(all@),
            out@ == bodies_cts(e.take(i as int)),
        decreases all@.len() - i,
    {
        let mut r = Reader::new(all[i].1.as_slice());
        let mut some: Vec<[u8; 64]> = Vec::new();
        proof {
            assert(e[i as int] == (all@[i as int].0@, all@[i as int].1@));
            assert(e.take(i + 1).drop_last() =~= e.take(i as int));
            assert(e.take(i + 1).last() == e[i as int]);
        }
        if list_account_cts(&mut r, &mut some) {
            assert(some@ =~= records::account_cts(all@[i as int].1@));
            out.append(&mut some);
        }
        i += 1;
    }
    assert(e.take(i as int) =~= e);
    out
}

proof fn lemma_body_listed(e: Seq<(Seq<u8>, Seq<u8>)>, i: int, ct: [u8; 64])
    requires
        0 <= i < e.len(),
        records::read_account(e[i].1) is Some,
        records::account_cts(e[i].1).contains(ct),
    ensures
        bodies_cts(e).contains(ct),
    decreases e.len(),
{
    let x = bodies_cts(e.drop_last());
    let y = records::account_cts(e.last().1);
    if i == e.len() - 1 {
        let j = choose|j: int| 0 <= j < y.len() && y[j] == ct;
        assert((x + y)[x.len() + j] == ct);
    } else {
        lemma_body_listed(e.drop_last(), i, ct);
        let j = choose|j: int| 0 <= j < x.len() && x[j] == ct;
        assert((x + y)[j] == ct);
    }
}

/// Every ciphertext that an account of a booted state holds stands in the records.
pub proof fn lemma_records_listed(o: Map<Seq<u8>, Seq<u8>>, zero: [u8; 64])
    requires
        boot::bootable(o),
        snapshot::lists(
            snapshot::listing(snapshot::kind(o, REC_ACCOUNT)),
            snapshot::kind(o, REC_ACCOUNT),
        ),
    ensures
        all_listed(boot::booted(o, zero), record_cts(o)),
{
    let st = boot::booted(o, zero);
    let m = snapshot::kind(o, REC_ACCOUNT);
    let e = snapshot::listing(m);
    assert forall|id: Seq<u8>, ct: [u8; 64]|
        st.accounts.contains_key(id) && #[trigger] records::holds_ct(
            st.accounts[id],
            ct,
        ) implies record_cts(o).contains(ct) by {
        broadcast use records::lemma_key_of;

        let k = records::key_of(REC_ACCOUNT, id);
        assert(o.contains_key(k));
        snapshot::lemma_kind(o, REC_ACCOUNT, k);
        let i = choose|i: int| 0 <= i < e.len() && (#[trigger] e[i]).0 == k;
        assert(m.contains_key(e[i].0));
        records::lemma_account_cts(e[i].1, ct);
        lemma_body_listed(e, i, ct);
    }
}

} // verus!
