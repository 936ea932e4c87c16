//! What holds of snapshots as a whole.

use vstd::prelude::*;

use crate::bytes;
use crate::ledger;
use crate::ledger::Ledger;
use crate::mem::MemStore;
use crate::reader;
use crate::records;
use crate::records::{
    REC_ACCOUNT, REC_CONTRACT, REC_NULLIFIER, REC_TOKEN, REC_VALIDATOR,
};
use crate::rules_laws;
use crate::snapshot;
use crate::snapshot::Built;
use crate::store::KVStore;

verus! {

// --- encoding again --------------------------------------------------------------------

/// Records in their one form are told by the state: two runs of them that say the same hold
/// the same of each kind.
proof fn lemma_same_kind(
    a: Map<Seq<u8>, Seq<u8>>,
    b: Map<Seq<u8>, Seq<u8>>,
    n: u32,
    z: [u8; 64],
    tag: u8,
    k: Seq<u8>,
)
    requires
        ledger::records_ok(a),
        ledger::records_ok(b),
        ledger::records_tidy(a),
        ledger::records_tidy(b),
        ledger::state_of(a, n, z) == ledger::state_of(b, n, z),
        tag == REC_ACCOUNT || tag == REC_TOKEN || tag == REC_CONTRACT || tag == REC_NULLIFIER || tag
            == REC_VALIDATOR,
        snapshot::kind(a, tag).contains_key(k),
    ensures
        snapshot::kind(b, tag).contains_key(k),
        snapshot::kind(b, tag)[k] == snapshot::kind(a, tag)[k],
{
    broadcast use records::lemma_key_of;

    let s = ledger::state_of(a, n, z);
    let t = ledger::state_of(b, n, z);
    snapshot::lemma_kind(a, tag, k);
    snapshot::lemma_kind(b, tag, k);
    let id = reader::tail(k, 1);
    assert(a.contains_key(k));
    assert(ledger::record_ok(k, a[k]) && ledger::record_tidy(k, a[k]));
    if tag == REC_ACCOUNT {
        assert(s.accounts.contains_key(id));
        assert(t.accounts.contains_key(id));
        assert(s.accounts[id] == records::whole(records::read_account(a[k]))->0);
        assert(t.accounts[id] == records::whole(records::read_account(b[k]))->0);
    } else if tag == REC_TOKEN {
        let x = (records::whole(records::read_token(a[k]))->0).id;
        assert(s.tokens.contains_key(x));
        assert(t.tokens.contains_key(x));
        assert(s.tokens[x] == records::whole(records::read_token(a[k]))->0);
        assert(t.tokens[x] == records::whole(records::read_token(b[k]))->0);
    } else if tag == REC_CONTRACT {
        assert(s.contracts.contains_key(id));
        assert(t.contracts.contains_key(id));
        assert(s.contracts[id] == records::whole(records::read_contract(a[k]))->0);
        assert(t.contracts[id] == records::whole(records::read_contract(b[k]))->0);
    } else if tag == REC_NULLIFIER {
        assert(s.nullifiers.contains(id));
        assert(t.nullifiers.contains(id));
    } else {
        assert(s.validators.contains_key(id));
        assert(t.validators.contains_key(id));
        assert(s.validators[id] == records::whole(records::read_validator(a[k]))->0);
        assert(t.validators[id] == records::whole(records::read_validator(b[k]))->0);
    }
    assert(b.contains_key(k));
    assert(ledger::record_ok(k, b[k]) && ledger::record_tidy(k, b[k]));
}

proof fn lemma_same_part(
    a: Map<Seq<u8>, Seq<u8>>,
    b: Map<Seq<u8>, Seq<u8>>,
    n: u32,
    z: [u8; 64],
    tag: u8,
)
    requires
        ledger::records_ok(a),
        ledger::records_ok(b),
        ledger::records_tidy(a),
        ledger::records_tidy(b),
        ledger::state_of(a, n, z) == ledger::state_of(b, n, z),
        tag == REC_ACCOUNT || tag == REC_TOKEN || tag == REC_CONTRACT || tag == REC_NULLIFIER || tag
            == REC_VALIDATOR,
    ensures
        snapshot::kind(a, tag) == snapshot::kind(b, tag),
{
    let x = snapshot::kind(a, tag);
    let y = snapshot::kind(b, tag);
    assert forall|k: Seq<u8>| {
        &&& (#[trigger] x.dom().contains(k)) == y.dom().contains(k)
        &&& x.dom().contains(k) ==> x[k] == y[k]
    } by {
        if x.contains_key(k) {
            lemma_same_kind(a, b, n, z, tag, k);
        }
        if y.contains_key(k) {
            lemma_same_kind(b, a, n, z, tag, k);
        }
    }
    assert(x =~= y);
}

/// A snapshot depends on the state alone: two ledgers of one state, whose records have the
/// one form they are written in, have the same.
pub proof fn law_snapshot_is_canonical<B: KVStore, C: KVStore>(a: Ledger<B>, b: Ledger<C>)
    requires
        a.wf(),
        b.wf(),
        a.tidy(),
        b.tidy(),
        a.state() == b.state(),
    ensures
        snapshot::countable(a.objects()) == snapshot::countable(b.objects()),
        snapshot::snapshot(a.objects(), a.next_token_id) == snapshot::snapshot(
            b.objects(),
            b.next_token_id,
        ),
{
    let n = a.next_token_id;
    let z = a.zero;
    assert(b.state().next_token == n && b.state().zero == z);
    lemma_same_part(a.objects(), b.objects(), n, z, REC_ACCOUNT);
    lemma_same_part(a.objects(), b.objects(), n, z, REC_TOKEN);
    lemma_same_part(a.objects(), b.objects(), n, z, REC_CONTRACT);
    lemma_same_part(a.objects(), b.objects(), n, z, REC_NULLIFIER);
    lemma_same_part(a.objects(), b.objects(), n, z, REC_VALIDATOR);
}

/// A ledger decoded from a snapshot has the state it was taken from, and encodes to the
/// same bytes again.
pub proof fn law_snapshot_encodes_again<B: KVStore>(l: Ledger<B>, d: Ledger<MemStore>)
    requires
        l.wf(),
        l.tidy(),
        rules_laws::registry_sound(l.state()),
        rules_laws::validators_sound(l.state()),
        snapshot::countable(l.objects()),
        snapshot::decodes(
            snapshot::snapshot(l.objects(), l.next_token_id),
            l.zero,
            Some(d),
        ),
    ensures
        d.state() == l.state(),
        snapshot::countable(d.objects()),
        snapshot::snapshot(d.objects(), d.next_token_id) == snapshot::snapshot(
            l.objects(),
            l.next_token_id,
        ),
{
    ledger::lemma_objects_finite(l);
    snapshot::law_snapshot_restores(l.objects(), l.next_token_id, l.zero);
    law_snapshot_is_canonical(l, d);
}

// --- what is no snapshot ---------------------------------------------------------------

proof fn lemma_row_more(tag: u8, s: Seq<u8>, t: Seq<u8>, b: Built)
    requires
        snapshot::read_row(tag, s, b) is Some,
    ensures
        snapshot::read_row(tag, s + t, b) == Some(
            ((snapshot::read_row(tag, s, b)->0).0, (snapshot::read_row(tag, s, b)->0).1 + t),
        ),
{
    if tag == REC_TOKEN {
        records::lemma_token_stable(s, t);
    } else {
        reader::lemma_more(s, t, 32);
        let u = reader::tail(s, 32);
        if tag == REC_ACCOUNT {
            records::lemma_account_stable(u, t);
        } else if tag == REC_CONTRACT {
            records::lemma_contract_stable(u, t);
        } else if tag != REC_NULLIFIER {
            records::lemma_validator_stable(u, t);
        }
    }
}

proof fn lemma_rows_more(tag: u8, s: Seq<u8>, t: Seq<u8>, n: nat, b: Built)
    requires
        snapshot::read_rows(tag, s, n, b) is Some,
    ensures
        snapshot::read_rows(tag, s + t, n, b) == Some(
            (
                (snapshot::read_rows(tag, s, n, b)->0).0,
                (snapshot::read_rows(tag, s, n, b)->0).1 + t,
            ),
        ),
    decreases n,
{
    if n > 0 {
        lemma_row_more(tag, s, t, b);
        let (b1, rest) = snapshot::read_row(tag, s, b)->0;
        lemma_rows_more(tag, rest, t, (n - 1) as nat, b1);
    }
}

proof fn lemma_part_more(tag: u8, s: Seq<u8>, t: Seq<u8>, b: Built)
    requires
        snapshot::read_part(tag, s, b) is Some,
    ensures
        snapshot::read_part(tag, s + t, b) == Some(
            ((snapshot::read_part(tag, s, b)->0).0, (snapshot::read_part(tag, s, b)->0).1 + t),
        ),
{
    reader::lemma_more(s, t, 4);
    lemma_rows_more(
        tag,
        reader::tail(s, 4),
        t,
        bytes::of_le4(reader::head(s, 4)) as nat,
        b,
    );
}

proof fn lemma_parts_more(s: Seq<u8>, t: Seq<u8>, b: Built)
    requires
        snapshot::all_parts(s, b) is Some,
    ensures
        snapshot::all_parts(s + t, b) == Some(
            ((snapshot::all_parts(s, b)->0).0, (snapshot::all_parts(s, b)->0).1 + t),
        ),
{
    lemma_part_more(REC_ACCOUNT, s, t, b);
    let (b1, s1) = snapshot::read_part(REC_ACCOUNT, s, b)->0;
    lemma_part_more(REC_TOKEN, s1, t, b1);
    let (b2, s2) = snapshot::read_part(REC_TOKEN, s1, b1)->0;
    lemma_part_more(REC_CONTRACT, s2, t, b2);
    let (b3, s3) = snapshot::read_part(REC_CONTRACT, s2, b2)->0;
    lemma_part_more(REC_NULLIFIER, s3, t, b3);
    let (b4, s4) = snapshot::read_part(REC_NULLIFIER, s3, b3)->0;
    lemma_part_more(REC_VALIDATOR, s4, t, b4);
}

/// A snapshot ends where it ends: with anything behind it, it is none.
pub proof fn law_padded_snapshot_refused(b: Seq<u8>, t: Seq<u8>, zero: [u8; 64])
    requires
        snapshot::parsed(b, zero) is Some,
        t.len() > 0,
    ensures
        snapshot::parsed(b + t, zero) is None,
{
    reader::lemma_more(b, t, 8);
    let s = reader::tail(b, 8);
    reader::lemma_more(s, t, 4);
    let start = snapshot::unread(bytes::of_le4(reader::head(s, 4)), zero);
    let u = reader::tail(s, 4);
    lemma_parts_more(u, t, start);
    assert(((snapshot::all_parts(u, start)->0).1 + t).len() > 0);
}

/// A snapshot that is cut short is none.
pub proof fn law_cut_snapshot_refused(b: Seq<u8>, n: int, zero: [u8; 64])
    requires
        snapshot::parsed(b, zero) is Some,
        0 <= n < b.len(),
    ensures
        snapshot::parsed(b.take(n), zero) is None,
{
    if snapshot::parsed(b.take(n), zero) is Some {
        law_padded_snapshot_refused(b.take(n), b.skip(n), zero);
        assert(b.take(n) + b.skip(n) =~= b);
    }
}

/// Bytes without the snapshot tag at their head are none.
pub proof fn law_untagged_snapshot_refused(b: Seq<u8>, zero: [u8; 64])
    requires
        b.len() < 8 || b.take(8) != snapshot::magic(),
    ensures
        snapshot::parsed(b, zero) is None,
{
    if b.len() >= 8 {
        assert(reader::head(b, 8) =~= b.take(8));
    }
}

} // verus!
