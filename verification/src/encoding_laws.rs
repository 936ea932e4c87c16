//! What the bytes that are signed, hashed and committed to bind: which values can be
//! told from them.

use vstd::prelude::*;

use crate::bytes;
use crate::commitment;
use crate::ledger::DirtyKey;
use crate::records;
use crate::rules::{Check, State};
use crate::rules;
use crate::transaction;
use crate::transaction::Transaction;
use crate::vm;
use crate::wallet;

verus! {

// --- what is signed ------------------------------------------------------------------

/// A signature binds everything it is made for: two transactions with the same signed
/// bytes are the same in every field, but for the signature itself.
pub proof fn law_signed_bytes_bind(t: Transaction, u: Transaction, s: [u8; 64])
    requires
        t.fits(),
        u.fits(),
        t.signature() == Some(s@),
        u.signature() is Some,
        t.body() == u.body(),
    ensures
        t.same(&wallet::signed_as(u, s)),
{
    let v = wallet::signed_as(u, s);
    wallet::law_signing_keeps_the_body(u, s);
    assert(v.wire() == u.body() + s@);
    assert(v.fits());
    transaction::law_encoding_unique(t, v);
}

/// A vote is no transaction, and binds its block and its height: no two votes on
/// different blocks or heights sign the same bytes.
pub proof fn law_votes_bind(a: Seq<u8>, h: u64, b: Seq<u8>, k: u64, t: Transaction)
    requires
        a.len() == 32,
        b.len() == 32,
    ensures
        transaction::vote_bytes(a, h) == transaction::vote_bytes(b, k) ==> a == b && h == k,
        transaction::vote_bytes(a, h) != t.body(),
{
    broadcast use crate::bytes::group_le;

    let tag = seq![76u8, 65, 84, 45, 102, 105, 110, 97, 108, 105, 116, 121, 45, 118, 49, 0];
    let x = transaction::vote_bytes(a, h);
    let y = transaction::vote_bytes(b, k);
    assert(x[0] == 76);
    assert(t.body()[0] == t.tag());
    assert(t.tag() < 76);
    if x == y {
        assert(x.subrange(16, 48) =~= a);
        assert(y.subrange(16, 48) =~= b);
        assert(x.subrange(48, 56) =~= bytes::le8(h));
        assert(y.subrange(48, 56) =~= bytes::le8(k));
        assert(bytes::of_le8(bytes::le8(h)) == bytes::of_le8(bytes::le8(k)));
    }
}

/// Evidence against a validator is two of its votes at one height: what is checked are
/// both signatures, each over the vote for its block at the height that the evidence
/// names.
pub proof fn law_evidence_is_two_votes(
    validator: [u8; 32],
    height: u64,
    block_a: [u8; 32],
    sig_a: [u8; 64],
    block_b: [u8; 32],
    sig_b: [u8; 64],
    beneficiary: [u8; 32],
)
    ensures
        rules::checks(
            Transaction::SlashEvidence {
                validator,
                height,
                block_a,
                sig_a,
                block_b,
                sig_b,
                beneficiary,
            },
        ) == seq![
            Check {
                key: validator@,
                message: transaction::vote_bytes(block_a@, height),
                sig: sig_a@,
            },
            Check {
                key: validator@,
                message: transaction::vote_bytes(block_b@, height),
                sig: sig_b@,
            },
        ],
{
}

// --- what is hashed -------------------------------------------------------------------

/// The hashed form of a lock tells every field of it: two locks that differ in one are
/// hashed from different bytes.
pub proof fn law_lock_id_binds(
    token: u32,
    from: Seq<u8>,
    to: Seq<u8>,
    amount: u64,
    hashlock: Seq<u8>,
    expiry: u64,
    nonce: u64,
    token2: u32,
    from2: Seq<u8>,
    to2: Seq<u8>,
    amount2: u64,
    hashlock2: Seq<u8>,
    expiry2: u64,
    nonce2: u64,
)
    requires
        from.len() == 32 && to.len() == 32 && hashlock.len() == 32,
        from2.len() == 32 && to2.len() == 32 && hashlock2.len() == 32,
        transaction::htlc_preimage(token, from, to, amount, hashlock, expiry, nonce)
            == transaction::htlc_preimage(token2, from2, to2, amount2, hashlock2, expiry2, nonce2),
    ensures
        token == token2,
        from == from2,
        to == to2,
        amount == amount2,
        hashlock == hashlock2,
        expiry == expiry2,
        nonce == nonce2,
{
    broadcast use crate::bytes::group_le;

    let x = transaction::htlc_preimage(token, from, to, amount, hashlock, expiry, nonce);
    let y = transaction::htlc_preimage(token2, from2, to2, amount2, hashlock2, expiry2, nonce2);
    assert(x.subrange(11, 15) =~= bytes::le4(token));
    assert(y.subrange(11, 15) =~= bytes::le4(token2));
    assert(x.subrange(15, 47) =~= from);
    assert(y.subrange(15, 47) =~= from2);
    assert(x.subrange(47, 79) =~= to);
    assert(y.subrange(47, 79) =~= to2);
    assert(x.subrange(79, 87) =~= bytes::le8(amount));
    assert(y.subrange(79, 87) =~= bytes::le8(amount2));
    assert(x.subrange(87, 119) =~= hashlock);
    assert(y.subrange(87, 119) =~= hashlock2);
    assert(x.subrange(119, 127) =~= bytes::le8(expiry));
    assert(y.subrange(119, 127) =~= bytes::le8(expiry2));
    assert(x.subrange(127, 135) =~= bytes::le8(nonce));
    assert(y.subrange(127, 135) =~= bytes::le8(nonce2));
    assert(bytes::of_le4(bytes::le4(token)) == bytes::of_le4(bytes::le4(token2)));
    assert(bytes::of_le8(bytes::le8(amount)) == bytes::of_le8(bytes::le8(amount2)));
    assert(bytes::of_le8(bytes::le8(expiry)) == bytes::of_le8(bytes::le8(expiry2)));
    assert(bytes::of_le8(bytes::le8(nonce)) == bytes::of_le8(bytes::le8(nonce2)));
}

/// A contract's address is hashed from its deployer and its code, and from nothing that
/// another deployer or code gives.
pub proof fn law_contract_address_binds(d: Seq<u8>, code: Seq<u8>, e: Seq<u8>, other: Seq<u8>)
    requires
        d.len() == 32,
        e.len() == 32,
        vm::contract_preimage(d, code) == vm::contract_preimage(e, other),
    ensures
        d == e,
        code == other,
{
    let x = vm::contract_preimage(d, code);
    let y = vm::contract_preimage(e, other);
    assert(x.subrange(12, 44) =~= d);
    assert(y.subrange(12, 44) =~= e);
    assert(x.subrange(44, x.len() as int) =~= code);
    assert(y.subrange(44, y.len() as int) =~= other);
}

// --- what is committed to ----------------------------------------------------------------

proof fn lemma_behind(p: Seq<u8>, a: Seq<u8>, b: Seq<u8>)
    requires
        p + a == p + b,
    ensures
        a == b,
{
    assert((p + a).subrange(p.len() as int, (p + a).len() as int) =~= a);
    assert((p + b).subrange(p.len() as int, (p + b).len() as int) =~= b);
}

/// A leaf of the commitment tells the whole of its entry: two states with the same leaf
/// for an entry say the same of it. An account's every balance and its nonce, a token's
/// every field, a contract's code and storage, a validator's stake, unbonding funds and
/// tombstone, and the next token id are all covered.
pub proof fn law_leaf_binds_its_entry(a: State, b: State, k: DirtyKey)
    requires
        commitment::leaf(a, k) == commitment::leaf(b, k),
        k matches DirtyKey::Account(id) ==> a.accounts[id@].fits() && b.accounts[id@].fits(),
        k matches DirtyKey::Token(id) ==> a.tokens[id].fits() && b.tokens[id].fits(),
        k matches DirtyKey::Contract(id) ==> a.contracts[id@].fits() && b.contracts[id@].fits(),
        k matches DirtyKey::Validator(id) ==> a.validators[id@].fits() && b.validators[id@].fits(),
    ensures
        match k {
            DirtyKey::Account(id) => a.accounts.contains_key(id@) == b.accounts.contains_key(id@)
                && (a.accounts.contains_key(id@) ==> a.accounts[id@] == b.accounts[id@]),
            DirtyKey::Token(id) => a.tokens.contains_key(id) == b.tokens.contains_key(id) && (
            a.tokens.contains_key(id) ==> a.tokens[id] == b.tokens[id]),
            DirtyKey::Contract(id) => a.contracts.contains_key(id@) == b.contracts.contains_key(id@)
                && (a.contracts.contains_key(id@) ==> a.contracts[id@] == b.contracts[id@]),
            DirtyKey::Nullifier(nf) => a.nullifiers.contains(nf@) == b.nullifiers.contains(nf@),
            DirtyKey::Validator(id) => a.validators.contains_key(id@)
                == b.validators.contains_key(id@) && (a.validators.contains_key(id@)
                ==> a.validators[id@] == b.validators[id@]),
            DirtyKey::Meta => a.next_token == b.next_token,
        },
{
    broadcast use crate::bytes::group_le;

    match k {
        DirtyKey::Account(id) => {
            if a.accounts.contains_key(id@) && b.accounts.contains_key(id@) {
                let (x, y) = (a.accounts[id@], b.accounts[id@]);
                let p = seq![76u8, 65, 84, 45, 115, 116, 97, 116, 101, 45, 97, 99, 99, 116] + id@;
                lemma_behind(p, records::account_bytes(x), records::account_bytes(y));
                records::lemma_account_bytes(x, Seq::empty());
                records::lemma_account_bytes(y, Seq::empty());
            }
        },
        DirtyKey::Token(id) => {
            if a.tokens.contains_key(id) && b.tokens.contains_key(id) {
                let (x, y) = (a.tokens[id], b.tokens[id]);
                let p = seq![76u8, 65, 84, 45, 115, 116, 97, 116, 101, 45, 116, 111, 107, 101, 110];
                lemma_behind(p, records::token_bytes(x), records::token_bytes(y));
                records::lemma_token_bytes(x, Seq::empty());
                records::lemma_token_bytes(y, Seq::empty());
            }
        },
        DirtyKey::Contract(id) => {
            if a.contracts.contains_key(id@) && b.contracts.contains_key(id@) {
                let (x, y) = (a.contracts[id@], b.contracts[id@]);
                let p = seq![76u8, 65, 84, 45, 115, 116, 97, 116, 101, 45, 99, 111, 110, 116, 114,
                    97, 99, 116] + id@;
                lemma_behind(p, records::contract_bytes(x), records::contract_bytes(y));
                records::lemma_contract_bytes(x, Seq::empty());
                records::lemma_contract_bytes(y, Seq::empty());
            }
        },
        DirtyKey::Validator(id) => {
            if a.validators.contains_key(id@) && b.validators.contains_key(id@) {
                let (x, y) = (a.validators[id@], b.validators[id@]);
                let p = seq![76u8, 65, 84, 45, 115, 116, 97, 116, 101, 45, 118, 97, 108] + id@;
                lemma_behind(p, records::validator_bytes(x), records::validator_bytes(y));
                records::lemma_validator_bytes(x, Seq::empty());
                records::lemma_validator_bytes(y, Seq::empty());
            }
        },
        DirtyKey::Meta => {
            assert(bytes::of_le4(bytes::le4(a.next_token)) == bytes::of_le4(
                bytes::le4(b.next_token),
            ));
        },
        _ => {},
    }
}

/// A number for each kind of entry, out of its tag.
spec fn kind_mark(k: DirtyKey) -> int {
    match k {
        DirtyKey::Account(_) => 97 + 256int * 99,
        DirtyKey::Token(_) => 116 + 256int * 111,
        DirtyKey::Contract(_) => 99 + 256int * 116,
        DirtyKey::Nullifier(_) => 110 + 256int * 117,
        DirtyKey::Validator(_) => 118 + 256int * 97,
        DirtyKey::Meta => 109 + 256int * 101,
    }
}

proof fn lemma_kind_mark(k: DirtyKey)
    ensures
        commitment::entry_string(k).len() >= 12,
        commitment::entry_string(k)[9] + 256 * commitment::entry_string(k)[10] == kind_mark(k),
{
}

/// Different entries are hashed to their places from different bytes: no account stands
/// where a token, a contract, a nullifier or a validator does.
pub proof fn law_entries_stand_apart(j: DirtyKey, k: DirtyKey)
    requires
        commitment::entry_string(j) == commitment::entry_string(k),
    ensures
        match (j, k) {
            (DirtyKey::Account(a), DirtyKey::Account(b)) => a@ == b@,
            (DirtyKey::Token(a), DirtyKey::Token(b)) => a == b,
            (DirtyKey::Contract(a), DirtyKey::Contract(b)) => a@ == b@,
            (DirtyKey::Nullifier(a), DirtyKey::Nullifier(b)) => a@ == b@,
            (DirtyKey::Validator(a), DirtyKey::Validator(b)) => a@ == b@,
            (DirtyKey::Meta, DirtyKey::Meta) => true,
            _ => false,
        },
{
    broadcast use crate::bytes::group_le;

    let x = commitment::entry_string(j);
    let y = commitment::entry_string(k);
    lemma_kind_mark(j);
    lemma_kind_mark(k);
    assert(kind_mark(j) == kind_mark(k));
    assert(x.subrange(13, x.len() as int) == y.subrange(13, y.len() as int));
    assert(x.subrange(12, x.len() as int) == y.subrange(12, y.len() as int));
    match (j, k) {
        (DirtyKey::Account(a), DirtyKey::Account(b)) => {
            assert(x.subrange(13, x.len() as int) =~= a@);
            assert(y.subrange(13, y.len() as int) =~= b@);
        },
        (DirtyKey::Token(a), DirtyKey::Token(b)) => {
            assert(x.subrange(13, x.len() as int) =~= bytes::le4(a));
            assert(y.subrange(13, y.len() as int) =~= bytes::le4(b));
            assert(bytes::of_le4(bytes::le4(a)) == bytes::of_le4(bytes::le4(b)));
        },
        (DirtyKey::Contract(a), DirtyKey::Contract(b)) => {
            assert(x.subrange(13, x.len() as int) =~= a@);
            assert(y.subrange(13, y.len() as int) =~= b@);
        },
        (DirtyKey::Nullifier(a), DirtyKey::Nullifier(b)) => {
            assert(x.subrange(13, x.len() as int) =~= a@);
            assert(y.subrange(13, y.len() as int) =~= b@);
        },
        (DirtyKey::Validator(a), DirtyKey::Validator(b)) => {
            assert(x.subrange(12, x.len() as int) =~= a@);
            assert(y.subrange(12, y.len() as int) =~= b@);
        },
        _ => {},
    }
}

} // verus!
