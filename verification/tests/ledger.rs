use latebra::address::{Address, Network};
use latebra::apply::{covered, reusable, signature_checks, ProofPass};
use latebra::bytecode::{push, ADD, SLOAD, SSTORE, STOP};
use latebra::commitment::{trie_key, verify_account_proof};
use latebra::ledger::{DirtyKey, Ledger};
use latebra::mem::MemStore;
use latebra::parallel::{
    block_stages, chunk_len, evidence, first_error, schedule_waves, share, MIN_PARALLEL,
};
use latebra::points::{in_records, in_snapshot};
use latebra::records::{decode_account, encode_account, REC_ACCOUNT};
use latebra::rules::{
    epoch_of, CryptoReply, LedgerError, Term, DEFAULT_MAX_VALIDATORS, EPOCH_BLOCKS, LAT_TOKEN,
    MIN_VALIDATOR_STAKE, SLASH_FRACTION_BPS, SLASH_REWARD_BPS, UNBONDING_BLOCKS,
};
use latebra::smt::{Smt, Terminal};
use latebra::store::{Column, KVStore};
use latebra::transaction::{
    finality_vote_signing_bytes, AnonTransfer, Opened, SolventTransfer, Transaction,
};
use latebra::vm::contract_id;
use latebra::wallet::{scan_stealth, with_signature, StealthReceipt, Wallet};

// --- a stand-in for the cryptography layer: a ciphertext is its amount in the
// --- clear, a signature is a digest under the signer's id

type Store = Ledger<MemStore>;

#[derive(Clone)]
struct Key {
    id: [u8; 32],
}

fn key(n: u8) -> Key {
    let mut id = [n; 32];
    id[0] = 200;
    Key { id }
}

fn ct(amount: u64) -> [u8; 64] {
    let mut c = [0u8; 64];
    c[..8].copy_from_slice(&amount.to_le_bytes());
    c
}

fn amount(c: &[u8; 64]) -> u64 {
    let mut b = [0u8; 8];
    b.copy_from_slice(&c[..8]);
    u64::from_le_bytes(b)
}

const VIEW_KEY: [u8; 32] = [0xEE; 32];

impl Key {
    fn sign(&self, message: &[u8]) -> [u8; 64] {
        let mut m = self.id.to_vec();
        m.extend_from_slice(message);
        let mut sig = [0u8; 64];
        sig[..32].copy_from_slice(blake3::hash(&m).as_bytes());
        m.push(1);
        sig[32..].copy_from_slice(blake3::hash(&m).as_bytes());
        sig
    }
}

fn signed(tx: Transaction, k: &Key) -> Transaction {
    let sig = k.sign(&tx.signing_bytes());
    with_signature(tx, sig)
}

/// A transfer whose proof is bound to the balance `bound`, said to hold `claimed`.
fn solvent(
    from: &Key,
    to: [u8; 32],
    value: u64,
    fee: u64,
    claimed: u64,
    bound: &[u8; 64],
    nonce: u64,
) -> SolventTransfer {
    let mut bytes = bound.to_vec();
    bytes.extend_from_slice(&claimed.to_le_bytes());
    SolventTransfer {
        sender: from.id,
        receiver: to,
        fee,
        nonce,
        sender_ct: ct(value),
        receiver_ct: ct(value),
        bytes,
    }
}

fn proven(xfer: &SolventTransfer, balance: &Option<[u8; 64]>) -> bool {
    match balance {
        Some(b) => {
            xfer.bytes[..64] == b[..]
                && amount(&xfer.sender_ct) + xfer.fee <= amount(b)
        }
        None => false,
    }
}

fn one_time(receiver: &Key) -> [u8; 32] {
    *blake3::hash(&receiver.id).as_bytes()
}

fn compute(t: &Term) -> [u8; 64] {
    match t {
        Term::Sum { a, b } => ct(amount(a) + amount(b)),
        Term::Mint { a, amount: n } => ct(amount(a) + n),
        Term::Less { a, b, fee } => ct(amount(a).wrapping_sub(amount(b)).wrapping_sub(*fee)),
    }
}

fn reply_to(l: &Store, tx: &Transaction) -> CryptoReply {
    let signatures =
        signature_checks(tx).iter().all(|c| Key { id: c.key }.sign(&c.message) == c.sig);
    let bound = l.bound_balance(tx);
    let (is_proven, view_key, reveals) = match tx {
        Transaction::SolventTransfer { xfer, .. } => (proven(xfer, &bound), false, false),
        Transaction::Unshield { xfer, amount: n, .. } => (
            proven(xfer, &bound),
            xfer.receiver == VIEW_KEY,
            amount(&xfer.receiver_ct) == *n,
        ),
        Transaction::AnonTransfer { xfer, .. } => (xfer.bytes == b"proof", false, false),
        _ => (true, false, false),
    };
    CryptoReply {
        signatures,
        proven: is_proven,
        view_key,
        reveals,
        terms: l.terms(tx).iter().map(compute).collect(),
    }
}

fn apply_at(l: &mut Store, tx: &Transaction, height: u64) -> Result<(), LedgerError> {
    assert!(l.within_limits(tx, height));
    let reply = reply_to(l, tx);
    l.apply_at(tx, height, &reply)
}

fn apply(l: &mut Store, tx: &Transaction) -> Result<(), LedgerError> {
    assert!(l.within_limits(tx, 0));
    let reply = reply_to(l, tx);
    l.apply(tx, &reply)
}

fn ledger() -> Store {
    Ledger::new(ct(0))
}

/// Whether 64 bytes are a ciphertext: nothing stands behind the amount.
fn is_ciphertext(c: &[u8; 64]) -> bool {
    c[8..].iter().all(|b| *b == 0)
}

/// A snapshot's ledger, each of its ciphertexts tested.
fn decode(b: &[u8]) -> Option<Store> {
    let answers: Vec<bool> = in_snapshot(b).iter().map(is_ciphertext).collect();
    Ledger::decode(b, ct(0), &answers)
}

/// The ledger that a store's records say, each of its ciphertexts tested.
fn boot<B: KVStore>(base: B) -> Option<Ledger<B>> {
    let answers: Vec<bool> = in_records(&base).iter().map(is_ciphertext).collect();
    Ledger::from_records(base, ct(0), &answers)
}

fn credit_genesis(l: &mut Store, id: &[u8; 32], n: u64) -> Result<(), LedgerError> {
    let sum = compute(&l.reward_term(id, LAT_TOKEN, n));
    l.credit_genesis(id, sum)
}

fn root(l: &mut Store) -> [u8; 32] {
    l.state_root().expect("every node is there")
}

fn ledger_with_ring(n: u8, funds: u64) -> (Store, Vec<Key>, Vec<[u8; 32]>) {
    let keys: Vec<Key> = (0..n).map(|i| key(i + 1)).collect();
    let ids: Vec<[u8; 32]> = keys.iter().map(|k| k.id).collect();
    let mut l = ledger();
    for id in &ids {
        l.register(*id).unwrap();
        credit_genesis(&mut l, id, funds).unwrap();
    }
    (l, keys, ids)
}

fn anon(
    l: &Store,
    ids: &[[u8; 32]],
    sender: usize,
    receiver: &Key,
    value: u64,
    fee: u64,
    height: u64,
) -> AnonTransfer {
    let epoch = epoch_of(height);
    let mut seed = ids[sender].to_vec();
    seed.extend_from_slice(&epoch.to_le_bytes());
    AnonTransfer {
        ring: ids.to_vec(),
        balances: ids.iter().map(|id| l.balance(id, LAT_TOKEN).unwrap()).collect(),
        enc: (0..ids.len()).map(|i| ct(if i == sender { value + fee } else { 0 })).collect(),
        credit: ct(value),
        ephemeral: [3u8; 32],
        one_time: one_time(receiver),
        nullifier: *blake3::hash(&seed).as_bytes(),
        epoch,
        fee,
        bytes: b"proof".to_vec(),
    }
}

fn anon_tx(
    l: &Store,
    ids: &[[u8; 32]],
    sender: usize,
    receiver: &Key,
    value: u64,
    fee: u64,
    height: u64,
) -> Transaction {
    Transaction::AnonTransfer {
        token: LAT_TOKEN,
        xfer: anon(l, ids, sender, receiver, value, fee, height),
    }
}

fn spendable(l: &Store, id: &[u8; 32]) -> u64 {
    amount(&l.balance(id, LAT_TOKEN).unwrap())
}

fn waiting(l: &Store, id: &[u8; 32]) -> u64 {
    amount(&l.pending(id, LAT_TOKEN).unwrap())
}

// --- anonymous transfers ---------------------------------------------------------

#[test]
fn anon_transfer_debits_hidden_sender_and_credits_stealth_receiver() {
    let (mut l, _keys, ids) = ledger_with_ring(4, 100_000);
    let receiver = key(90);
    let height = 42;

    let xfer = anon(&l, &ids, 1, &receiver, 5_000, 1_000, height);
    let nullifier = xfer.nullifier;
    let tx = Transaction::AnonTransfer { token: LAT_TOKEN, xfer };
    apply_at(&mut l, &tx, height).unwrap();

    assert_eq!(spendable(&l, &ids[1]), 94_000);
    for i in [0, 2, 3] {
        assert_eq!(spendable(&l, &ids[i]), 100_000);
    }
    assert_eq!(waiting(&l, &one_time(&receiver)), 5_000);

    // The nullifier is recorded; replaying the exact tx is rejected on it.
    assert!(l.nullifier_seen(&nullifier));
    assert_eq!(apply_at(&mut l, &tx, height), Err(LedgerError::NullifierSeen));
}

#[test]
fn anon_transfer_conserves_total_supply_no_inflation() {
    let (mut l, _keys, ids) = ledger_with_ring(5, 100_000);
    let receiver = key(90);
    let height = 3 * EPOCH_BLOCKS;
    let before: u64 = ids.iter().map(|id| spendable(&l, id)).sum();

    let value = 12_345;
    let fee = 1_000;
    let tx = anon_tx(&l, &ids, 2, &receiver, value, fee, height);
    apply_at(&mut l, &tx, height).unwrap();

    let after: u64 = ids.iter().map(|id| spendable(&l, id)).sum();
    let received = waiting(&l, &one_time(&receiver));
    assert_eq!(before - after, value + fee, "debit total = amount + fee");
    assert_eq!(received, value, "receiver credited exactly the hidden amount");
    assert_eq!(before, after + received + fee, "no supply created or destroyed");
}

#[test]
fn anon_transfer_second_spend_same_epoch_is_rejected() {
    let (mut l, _keys, ids) = ledger_with_ring(3, 100_000);
    let receiver = key(90);
    let height = 5;

    let tx = anon_tx(&l, &ids, 0, &receiver, 2_000, 1_000, height);
    apply_at(&mut l, &tx, height).unwrap();

    let again = anon_tx(&l, &ids, 0, &receiver, 1_000, 1_000, height + 1);
    assert_eq!(apply_at(&mut l, &again, height + 1), Err(LedgerError::NullifierSeen));

    // In the NEXT epoch the same sender can spend again.
    let next_epoch_height = height + EPOCH_BLOCKS;
    let next = anon_tx(&l, &ids, 0, &receiver, 1_000, 1_000, next_epoch_height);
    apply_at(&mut l, &next, next_epoch_height).unwrap();
}

#[test]
fn anon_transfer_wrong_epoch_stale_balance_and_bad_ring_are_rejected() {
    let (mut l, _keys, ids) = ledger_with_ring(3, 100_000);
    let receiver = key(90);

    // Built for epoch 2, presented in a block of epoch 0.
    let tx = anon_tx(&l, &ids, 0, &receiver, 2_000, 1_000, 2 * EPOCH_BLOCKS);
    assert_eq!(apply_at(&mut l, &tx, 1), Err(LedgerError::WrongEpoch));

    // Proof bound to balances that are no longer current.
    let stale = anon_tx(&l, &ids, 1, &receiver, 2_000, 1_000, 1);
    apply_at(&mut l, &tx, 2 * EPOCH_BLOCKS).unwrap();
    assert_eq!(apply_at(&mut l, &stale, 1), Err(LedgerError::StaleRingBalance));

    // A ring naming an unregistered account is rejected outright.
    let mut xfer = anon(&l, &ids, 1, &receiver, 1_000, 1_000, 45);
    xfer.ring[2] = key(77).id;
    xfer.balances[2] = ct(50_000);
    assert_eq!(
        apply_at(&mut l, &Transaction::AnonTransfer { token: LAT_TOKEN, xfer }, 45),
        Err(LedgerError::BadRing)
    );
}

#[test]
fn anon_transfer_nullifiers_are_committed_and_snapshot_roundtrips() {
    let (mut l, _keys, ids) = ledger_with_ring(3, 100_000);
    let receiver = key(90);

    let before = root(&mut l);
    let xfer = anon(&l, &ids, 2, &receiver, 2_000, 1_000, 7);
    let nullifier = xfer.nullifier;
    apply_at(&mut l, &Transaction::AnonTransfer { token: LAT_TOKEN, xfer }, 7).unwrap();
    assert_ne!(root(&mut l), before, "nullifier + balances change the root");

    let mut decoded = decode(&l.encode()).expect("snapshot decodes");
    assert_eq!(root(&mut decoded), root(&mut l));
    assert!(decoded.nullifier_seen(&nullifier));
}

#[test]
fn an_anonymous_proof_that_fails_or_a_ragged_ring_is_refused() {
    let (mut l, _keys, ids) = ledger_with_ring(3, 100_000);
    let receiver = key(90);
    let mut xfer = anon(&l, &ids, 0, &receiver, 10, 1, 5);
    xfer.bytes = b"forged".to_vec();
    let tx = Transaction::AnonTransfer { token: LAT_TOKEN, xfer };
    assert_eq!(apply_at(&mut l, &tx, 5), Err(LedgerError::InvalidProof));

    let mut xfer = anon(&l, &ids, 0, &receiver, 10, 1, 5);
    xfer.balances.pop();
    let tx = Transaction::AnonTransfer { token: LAT_TOKEN, xfer };
    assert_eq!(apply_at(&mut l, &tx, 5), Err(LedgerError::BadRing));
}

// --- moves between the public and the private side ---------------------------------

#[test]
fn shield_stealth_credits_hidden_one_time_account() {
    let sender_key = key(1);
    let sender = sender_key.id;
    let recipient = key(2);
    let mut l = ledger();
    l.register(sender).unwrap();
    l.credit_public(&sender, LAT_TOKEN, 1_000);

    let tx = signed(
        Transaction::ShieldStealth {
            token: LAT_TOKEN,
            from: sender,
            ephemeral: [3u8; 32],
            one_time: one_time(&recipient),
            amount: 400,
            fee: 100,
            nonce: 0,
            sig: [0u8; 64],
        },
        &sender_key,
    );
    apply(&mut l, &tx).unwrap();

    assert_eq!(l.public_balance(&sender, LAT_TOKEN), Some(500));
    assert_eq!(waiting(&l, &one_time(&recipient)), 400);
}

#[test]
fn shield_moves_public_to_private() {
    let user_key = key(1);
    let user = user_key.id;
    let mut l = ledger();
    l.register(user).unwrap();
    l.credit_public(&user, LAT_TOKEN, 1_000);

    let tx = signed(
        Transaction::Shield {
            token: LAT_TOKEN, from: user, to: user, amount: 400, fee: 100, nonce: 0, sig: [0u8; 64],
        },
        &user_key,
    );
    apply(&mut l, &tx).unwrap();

    assert_eq!(l.public_balance(&user, LAT_TOKEN), Some(500));
    assert_eq!(waiting(&l, &user), 400);
    assert_eq!(l.nonce(&user), Some(1));
}

#[test]
fn unshield_moves_private_to_public() {
    let user_key = key(1);
    let user = user_key.id;
    let dest = key(2).id;
    let mut l = ledger();
    l.register(user).unwrap();
    l.register(dest).unwrap();
    credit_genesis(&mut l, &user, 1_000).unwrap();

    let bal = l.balance(&user, LAT_TOKEN).unwrap();
    let xfer = solvent(&user_key, VIEW_KEY, 400, 10, 1_000, &bal, 0);
    let tx = signed(
        Transaction::Unshield { token: LAT_TOKEN, to: dest, amount: 400, xfer, sig: [0u8; 64] },
        &user_key,
    );
    apply(&mut l, &tx).unwrap();

    assert_eq!(spendable(&l, &user), 590);
    assert_eq!(l.public_balance(&dest, LAT_TOKEN), Some(400));
    assert_eq!(l.nonce(&user), Some(1));
}

#[test]
fn unshield_amount_mismatch_and_wrong_receiver_rejected() {
    let user_key = key(1);
    let user = user_key.id;
    let dest = key(2).id;
    let mut l = ledger();
    l.register(user).unwrap();
    l.register(dest).unwrap();
    credit_genesis(&mut l, &user, 1_000).unwrap();

    // Honest confidential spend of 400, but the tx DECLARES 401 → mismatch.
    let bal = l.balance(&user, LAT_TOKEN).unwrap();
    let xfer = solvent(&user_key, VIEW_KEY, 400, 10, 1_000, &bal, 0);
    let bad_amt = signed(
        Transaction::Unshield { token: LAT_TOKEN, to: dest, amount: 401, xfer, sig: [0u8; 64] },
        &user_key,
    );
    assert_eq!(apply(&mut l, &bad_amt), Err(LedgerError::UnshieldAmountMismatch));

    // Confidential receiver is NOT the view key → can't be soundly revealed.
    let wrong = solvent(&user_key, dest, 400, 10, 1_000, &bal, 0);
    let bad_recv = signed(
        Transaction::Unshield { token: LAT_TOKEN, to: dest, amount: 400, xfer: wrong, sig: [0u8; 64] },
        &user_key,
    );
    assert_eq!(apply(&mut l, &bad_recv), Err(LedgerError::WrongUnshieldReceiver));

    // Both rejected before any state change.
    assert_eq!(l.public_balance(&dest, LAT_TOKEN), Some(0));
    assert_eq!(l.nonce(&user), Some(0));
}

#[test]
fn tampering_unshield_destination_is_rejected() {
    let user_key = key(1);
    let user = user_key.id;
    let dest = key(2).id;
    let attacker = key(3).id;
    let mut l = ledger();
    l.register(user).unwrap();
    l.register(dest).unwrap();
    l.register(attacker).unwrap();
    credit_genesis(&mut l, &user, 1_000).unwrap();

    let bal = l.balance(&user, LAT_TOKEN).unwrap();
    let xfer = solvent(&user_key, VIEW_KEY, 400, 10, 1_000, &bal, 0);
    let mut tx = signed(
        Transaction::Unshield { token: LAT_TOKEN, to: dest, amount: 400, xfer, sig: [0u8; 64] },
        &user_key,
    );
    if let Transaction::Unshield { to, .. } = &mut tx {
        *to = attacker;
    }
    assert_eq!(apply(&mut l, &tx), Err(LedgerError::BadSignature));
    assert_eq!(l.public_balance(&attacker, LAT_TOKEN), Some(0), "no funds stolen");
}

// --- public transfers ----------------------------------------------------------------

#[test]
fn cannot_spend_another_accounts_public_balance() {
    let alice = key(1).id;
    let mallory_key = key(2);
    let mallory = mallory_key.id;
    let mut l = ledger();
    l.register(alice).unwrap();
    l.register(mallory).unwrap();
    l.credit_public(&alice, LAT_TOKEN, 1_000);

    let tx = signed(
        Transaction::PublicTransfer {
            token: LAT_TOKEN, from: alice, to: mallory, amount: 900, fee: 100, nonce: 0, sig: [0u8; 64],
        },
        &mallory_key,
    );
    assert_eq!(apply(&mut l, &tx), Err(LedgerError::BadSignature));
    assert_eq!(l.public_balance(&alice, LAT_TOKEN), Some(1_000), "Alice's funds untouched");
}

#[test]
fn public_transfer_moves_plaintext_value() {
    let sender_key = key(1);
    let sender = sender_key.id;
    let receiver = key(2).id;
    let mut l = ledger();
    l.register(sender).unwrap();
    l.register(receiver).unwrap();
    l.credit_public(&sender, LAT_TOKEN, 1_000);

    let tx = signed(
        Transaction::PublicTransfer {
            token: LAT_TOKEN, from: sender, to: receiver, amount: 400, fee: 100, nonce: 0, sig: [0u8; 64],
        },
        &sender_key,
    );
    apply(&mut l, &tx).unwrap();

    assert_eq!(l.public_balance(&sender, LAT_TOKEN), Some(500));
    assert_eq!(l.public_balance(&receiver, LAT_TOKEN), Some(400));
    assert_eq!(l.nonce(&sender), Some(1));
    assert_eq!(spendable(&l, &receiver), 0);
}

#[test]
fn public_transfer_insufficient_balance_rejected() {
    let sender_key = key(1);
    let sender = sender_key.id;
    let receiver = key(2).id;
    let mut l = ledger();
    l.register(sender).unwrap();
    l.register(receiver).unwrap();
    l.credit_public(&sender, LAT_TOKEN, 500);

    let tx = signed(
        Transaction::PublicTransfer {
            token: LAT_TOKEN, from: sender, to: receiver, amount: 500, fee: 1, nonce: 0, sig: [0u8; 64],
        },
        &sender_key,
    );
    assert_eq!(apply(&mut l, &tx), Err(LedgerError::InsufficientPublicBalance));
    assert_eq!(l.public_balance(&sender, LAT_TOKEN), Some(500));
    assert_eq!(l.public_balance(&receiver, LAT_TOKEN), Some(0));
    assert_eq!(l.nonce(&sender), Some(0));
}

#[test]
fn public_transfer_bad_signature_and_nonce_rejected() {
    let sender_key = key(1);
    let mallory_key = key(2);
    let sender = sender_key.id;
    let receiver = key(3).id;
    let mut l = ledger();
    l.register(sender).unwrap();
    l.register(receiver).unwrap();
    l.credit_public(&sender, LAT_TOKEN, 1_000);

    let forged = signed(
        Transaction::PublicTransfer {
            token: LAT_TOKEN, from: sender, to: receiver, amount: 10, fee: 1, nonce: 0, sig: [0u8; 64],
        },
        &mallory_key,
    );
    assert_eq!(apply(&mut l, &forged), Err(LedgerError::BadSignature));

    let stale = signed(
        Transaction::PublicTransfer {
            token: LAT_TOKEN, from: sender, to: receiver, amount: 10, fee: 1, nonce: 5, sig: [0u8; 64],
        },
        &sender_key,
    );
    assert_eq!(apply(&mut l, &stale), Err(LedgerError::BadNonce));

    let no_recv = signed(
        Transaction::PublicTransfer {
            token: LAT_TOKEN, from: sender, to: [9u8; 32], amount: 10, fee: 1, nonce: 0, sig: [0u8; 64],
        },
        &sender_key,
    );
    assert_eq!(apply(&mut l, &no_recv), Err(LedgerError::ReceiverNotRegistered));

    assert_eq!(l.public_balance(&sender, LAT_TOKEN), Some(1_000));
    assert_eq!(l.nonce(&sender), Some(0));
}

// --- tokens ----------------------------------------------------------------------------

fn create(ticker: &str, creator: [u8; 32], supply: u64, k: &Key) -> Transaction {
    signed(
        Transaction::CreateToken { ticker: ticker.to_string(), creator, supply, sig: [0u8; 64] },
        k,
    )
}

#[test]
fn unique_ticker_is_enforced() {
    let alice_key = key(1);
    let bob_key = key(2);
    let (alice, bob) = (alice_key.id, bob_key.id);
    let mut l = ledger();
    l.register(alice).unwrap();
    l.register(bob).unwrap();

    apply(&mut l, &create("$doge", alice, 1_000_000, &alice_key)).unwrap();
    assert_eq!(l.token_count(), 1);
    assert_eq!(l.token("DOGE").unwrap().creator, alice);

    assert_eq!(apply(&mut l, &create("DOGE", bob, 5, &bob_key)), Err(LedgerError::TickerTaken));
    assert_eq!(l.token_count(), 1);

    let doge = l.token("DOGE").unwrap().id;
    assert_eq!(amount(&l.balance(&alice, doge).unwrap()), 1_000_000);
}

#[test]
fn invalid_ticker_rejected() {
    let alice_key = key(1);
    let mut l = ledger();
    l.register(alice_key.id).unwrap();
    assert_eq!(
        apply(&mut l, &create("way too long ticker!!", alice_key.id, 1, &alice_key)),
        Err(LedgerError::InvalidTicker)
    );
}

#[test]
fn spoofed_creator_or_forced_rollover_rejected() {
    let alice_key = key(1);
    let mallory_key = key(2);
    let alice = alice_key.id;
    let mut l = ledger();
    l.register(alice).unwrap();
    l.register(mallory_key.id).unwrap();

    assert_eq!(
        apply(&mut l, &create("EVIL", alice, 1, &mallory_key)),
        Err(LedgerError::BadSignature)
    );
    let unsigned = Transaction::CreateToken {
        ticker: "EVIL".to_string(),
        creator: alice,
        supply: 1,
        sig: [0u8; 64],
    };
    assert_eq!(apply(&mut l, &unsigned), Err(LedgerError::BadSignature));
    let forced = signed(
        Transaction::Rollover { account: alice, nonce: 0, sig: [0u8; 64] },
        &mallory_key,
    );
    assert_eq!(apply(&mut l, &forced), Err(LedgerError::BadSignature));
    let own = signed(Transaction::Rollover { account: alice, nonce: 0, sig: [0u8; 64] }, &alice_key);
    apply(&mut l, &own).unwrap();
    // ...and a replay of that rollover is refused (nonce advanced to 1).
    assert_eq!(apply(&mut l, &own), Err(LedgerError::BadNonce));
}

#[test]
fn a_token_needs_a_registered_creator() {
    let ghost = key(9);
    let mut l = ledger();
    assert_eq!(
        apply(&mut l, &create("GHOST", ghost.id, 1, &ghost)),
        Err(LedgerError::CreatorNotRegistered)
    );
}

// --- confidential transfers ----------------------------------------------------------

#[test]
fn rejects_transfer_from_unregistered_sender() {
    let sender = key(1);
    let receiver = key(2).id;
    let mut l = ledger();
    l.register(receiver).unwrap();
    let xfer = solvent(&sender, receiver, 1, 0, 1_000, &ct(1_000), 0);
    assert_eq!(
        apply(&mut l, &Transaction::SolventTransfer { token: LAT_TOKEN, xfer }),
        Err(LedgerError::SenderNotRegistered)
    );
}

#[test]
fn solvent_transfer_uses_nonce_and_pending() {
    let sender_key = key(1);
    let receiver_key = key(2);
    let (sender, receiver) = (sender_key.id, receiver_key.id);
    let mut l = ledger();
    l.register(sender).unwrap();
    l.register(receiver).unwrap();
    credit_genesis(&mut l, &sender, 1_000).unwrap();

    let bal = l.balance(&sender, LAT_TOKEN).unwrap();
    let xfer = solvent(&sender_key, receiver, 400, 0, 1_000, &bal, 0);
    let tx = Transaction::SolventTransfer { token: LAT_TOKEN, xfer: xfer.clone() };
    let tx_bytes = tx.encode();
    apply(&mut l, &tx).unwrap();

    assert_eq!(spendable(&l, &sender), 600);
    assert_eq!(l.nonce(&sender), Some(1));
    assert_eq!(spendable(&l, &receiver), 0);
    assert_eq!(waiting(&l, &receiver), 400);

    // Replay the exact same tx -> rejected (nonce is now 1, the tx used 0).
    let replay = Transaction::decode(&tx_bytes, Opened::Solvent(xfer)).unwrap();
    assert_eq!(apply(&mut l, &replay), Err(LedgerError::BadNonce));

    let roll = signed(
        Transaction::Rollover { account: receiver, nonce: 0, sig: [0u8; 64] },
        &receiver_key,
    );
    apply(&mut l, &roll).unwrap();
    assert_eq!(spendable(&l, &receiver), 400);
    assert_eq!(waiting(&l, &receiver), 0);
}

#[test]
fn cheating_balance_rejected_at_matching_nonce() {
    let sender_key = key(1);
    let (sender, receiver) = (sender_key.id, key(2).id);
    let mut l = ledger();
    l.register(sender).unwrap();
    l.register(receiver).unwrap();
    credit_genesis(&mut l, &sender, 1_000).unwrap();

    let cheat = solvent(&sender_key, receiver, 900, 0, 1_000_000, &ct(1_000_000), 0);
    assert_eq!(
        apply(&mut l, &Transaction::SolventTransfer { token: LAT_TOKEN, xfer: cheat }),
        Err(LedgerError::InvalidProof)
    );
}

// --- contracts ---------------------------------------------------------------------------

fn counter() -> Vec<u8> {
    let mut code = push(0);
    code.extend(push(0));
    code.push(SLOAD);
    code.extend(push(1));
    code.push(ADD);
    code.push(SSTORE);
    code.push(STOP);
    code
}

fn call(contract: [u8; 32], k: &Key, nonce: u64) -> Transaction {
    signed(
        Transaction::CallContract { contract, caller: k.id, input: 0, nonce, sig: [0u8; 64] },
        k,
    )
}

#[test]
fn deploy_and_call_counter_contract() {
    let code = counter();
    let deployer_key = key(1);
    let deployer = deployer_key.id;
    let id = contract_id(&deployer, &code);

    let mut l = ledger();
    l.register(deployer).unwrap();
    let deploy = signed(Transaction::DeployContract { deployer, code, sig: [0u8; 64] }, &deployer_key);
    apply(&mut l, &deploy).unwrap();
    assert!(l.has_contract(&id));
    assert_eq!(apply(&mut l, &deploy), Err(LedgerError::ContractExists));

    for nonce in 0..3 {
        apply(&mut l, &call(id, &deployer_key, nonce)).unwrap();
    }
    assert_eq!(l.contract_storage(&id, 0), 3);

    // Replaying the first call (nonce 0) is refused — calls can't be re-run.
    assert_eq!(apply(&mut l, &call(id, &deployer_key, 0)), Err(LedgerError::BadNonce));
}

#[test]
fn calling_missing_contract_rejected() {
    let caller_key = key(1);
    let mut l = ledger();
    l.register(caller_key.id).unwrap();
    assert_eq!(
        apply(&mut l, &call([9u8; 32], &caller_key, 0)),
        Err(LedgerError::NoSuchContract)
    );
}

#[test]
fn a_contract_that_fails_changes_nothing() {
    // An unknown opcode after a store: the call is refused and the slot stays unset.
    let mut code = push(7);
    code.extend(push(0));
    code.push(SSTORE);
    code.push(0xFE);
    let k = key(1);
    let id = contract_id(&k.id, &code);
    let mut l = ledger();
    l.register(k.id).unwrap();
    let deploy = signed(
        Transaction::DeployContract { deployer: k.id, code, sig: [0u8; 64] },
        &k,
    );
    apply(&mut l, &deploy).unwrap();
    let before = root(&mut l);
    assert_eq!(apply(&mut l, &call(id, &k, 0)), Err(LedgerError::ContractFailed));
    assert_eq!(l.contract_storage(&id, 0), 0);
    assert_eq!(l.nonce(&k.id), Some(0));
    assert_eq!(root(&mut l), before);
}

#[test]
fn double_registration_rejected() {
    let id = key(1).id;
    let mut l = ledger();
    l.register(id).unwrap();
    assert_eq!(l.register(id), Err(LedgerError::AlreadyRegistered));
    let again = Transaction::Register { pubkey: id, pow_nonce: 3 };
    assert_eq!(apply(&mut l, &again), Err(LedgerError::AlreadyRegistered));
}

// --- the commitment ------------------------------------------------------------------------

#[test]
fn state_root_commits_and_proves_accounts() {
    let a = key(1).id;
    let b = key(2).id;
    let mut l = ledger();
    let empty = root(&mut l);
    assert_ne!(empty, [0u8; 32]);

    l.register(a).unwrap();
    l.credit_public(&a, LAT_TOKEN, 1_000);
    let r1 = root(&mut l);
    assert_ne!(r1, empty, "registering + funding must change the root");

    l.register(b).unwrap();
    let r2 = root(&mut l);
    assert_ne!(r2, r1);
    assert_eq!(root(&mut l), r2, "recomputation is deterministic");

    let proof = l.account_proof(&a).expect("A is registered");
    assert_eq!(proof.account_id(), Some(a));
    assert!(verify_account_proof(&r2, &proof));

    assert!(!verify_account_proof(&r1, &proof), "stale root must not verify");
    let pb = l.account_proof(&b).unwrap();
    assert!(verify_account_proof(&r2, &pb));
    assert_ne!(proof.preimage, pb.preimage);

    // A forged proof (swap in B's leaf, keep A's path) fails to verify.
    let mut forged = proof.clone();
    forged.preimage = pb.preimage.clone();
    assert!(!verify_account_proof(&r2, &forged));

    assert!(l.account_proof(&[7u8; 32]).is_none());
}

#[test]
fn ledger_snapshot_roundtrip_preserves_state_root() {
    let alice_key = key(1);
    let bob_key = key(2);
    let (alice, bob) = (alice_key.id, bob_key.id);
    let mut l = ledger();
    l.register(alice).unwrap();
    l.register(bob).unwrap();
    credit_genesis(&mut l, &alice, 1_000_000).unwrap();
    l.credit_public(&alice, LAT_TOKEN, 5_000);
    apply(&mut l, &create("DOGE", alice, 42, &alice_key)).unwrap();
    let bal = l.balance(&alice, LAT_TOKEN).unwrap();
    let xfer = solvent(&alice_key, bob, 400, 0, 1_000_000, &bal, 0);
    apply(&mut l, &Transaction::SolventTransfer { token: LAT_TOKEN, xfer }).unwrap();
    let deploy = signed(
        Transaction::DeployContract { deployer: bob, code: vec![STOP], sig: [0u8; 64] },
        &bob_key,
    );
    apply(&mut l, &deploy).unwrap();

    let bytes = l.encode();
    let mut decoded = decode(&bytes).expect("decodes");
    assert_eq!(root(&mut decoded), root(&mut l));
    assert_eq!(decoded.encode(), bytes);
    assert_eq!(decoded.nonce(&alice), Some(1));
    assert_eq!(decoded.public_balance(&alice, LAT_TOKEN), Some(5_000));
    assert_eq!(waiting(&decoded, &bob), 400);
    assert_eq!(decoded.token("DOGE").unwrap().supply, 42);
}

#[test]
fn ledger_snapshot_rejects_hostile_input() {
    let mut l = ledger();
    l.register([1u8; 32]).unwrap();
    l.credit_public(&[1u8; 32], LAT_TOKEN, 7);
    let good = l.encode();
    assert!(decode(&good).is_some());

    for n in 0..good.len() {
        assert!(decode(&good[..n]).is_none(), "truncation at {n} must fail");
    }
    let mut padded = good.clone();
    padded.push(0);
    assert!(decode(&padded).is_none());
    let mut bad = good.clone();
    bad[0] ^= 0xff;
    assert!(decode(&bad).is_none());
    // A hostile count must not exhaust memory: claim u32::MAX accounts.
    let mut huge = good.clone();
    huge[12..16].copy_from_slice(&u32::MAX.to_le_bytes());
    assert!(decode(&huge).is_none());
}

#[test]
fn bytes_that_are_no_ciphertext_are_refused() {
    let mut l = Ledger::with_base(MemStore::new(), ct(0));
    l.register(key(1).id).unwrap();
    l.register(key(2).id).unwrap();
    credit_genesis(&mut l, &key(1).id, 1_000).unwrap();
    let good = l.encode();
    assert_eq!(in_snapshot(&good), vec![ct(1_000)]);
    assert!(decode(&good).is_some());
    // The one ciphertext in it: 16 bytes of header, the id, the nonce, the count, the token.
    let at = 16 + 32 + 8 + 4 + 4;
    assert_eq!(&good[at..at + 64], &ct(1_000)[..]);
    let mut bad = good.clone();
    bad[at + 63] = 1;
    assert!(decode(&bad).is_none());
    // Without an answer for each there is no ledger either.
    assert!(Ledger::decode(&good, ct(0), &[]).is_none());
    assert!(Ledger::decode(&good, ct(0), &[false]).is_none());
    assert!(Ledger::decode(&good, ct(0), &[true]).is_some());
    assert!(Ledger::decode(&good, ct(0), &[true, true]).is_none());

    root(&mut l);
    l.flush();
    let base = l.store.into_base();
    assert_eq!(in_records(&base), vec![ct(1_000)]);
    assert!(boot(base.clone()).is_some());
    assert!(Ledger::from_records(base.clone(), ct(0), &[false]).is_none());
    let mut tampered = base.clone();
    for (record, mut body) in base.scan_prefix(Column::Objects, &[REC_ACCOUNT]) {
        if body.len() > 64 {
            body[8 + 4 + 4 + 63] = 1;
            tampered.put(Column::Objects, record, body);
        }
    }
    assert!(boot(tampered).is_none());

    let (_, body) = base
        .scan_prefix(Column::Objects, &[REC_ACCOUNT])
        .into_iter()
        .find(|(_, body)| body.len() > 64)
        .unwrap();
    let account = decode_account(&body, &[true]).expect("it is well-formed");
    assert_eq!(encode_account(&account), body);
    assert!(decode_account(&body, &[false]).is_none());
    assert!(decode_account(&body, &[]).is_none());
    assert!(decode_account(&body[1..], &[true]).is_none());
}

#[test]
fn every_field_is_tested_also_one_that_a_later_row_overrides() {
    // One account with two rows for one token: the first is no ciphertext.
    let mut b = b"LATLEDG4".to_vec();
    b.extend_from_slice(&1u32.to_le_bytes());
    b.extend_from_slice(&1u32.to_le_bytes());
    b.extend_from_slice(&key(1).id);
    b.extend_from_slice(&0u64.to_le_bytes());
    b.extend_from_slice(&2u32.to_le_bytes());
    b.extend_from_slice(&0u32.to_le_bytes());
    b.extend_from_slice(&[7u8; 64]);
    b.extend_from_slice(&0u32.to_le_bytes());
    b.extend_from_slice(&ct(5));
    // No pending and no public balances; no tokens, contracts, nullifiers or validators.
    b.extend_from_slice(&[0u8; 4 * 6]);
    assert_eq!(in_snapshot(&b), vec![[7u8; 64], ct(5)]);
    let l = Ledger::decode(&b, ct(0), &[true, true]).expect("it is well-formed");
    assert_eq!(l.balance(&key(1).id, LAT_TOKEN), Some(ct(5)));
    assert!(decode(&b).is_none());
}

#[test]
fn foreign_nodes_do_not_change_a_booted_root() {
    let mut l = Ledger::with_base(MemStore::new(), ct(0));
    l.register(key(1).id).unwrap();
    l.credit_public(&key(1).id, LAT_TOKEN, 5);
    let r = root(&mut l);
    l.flush();
    let mut base = l.store.into_base();
    base.put(Column::State, vec![3u8; 32], b"no node at all".to_vec());
    base.put(Column::State, b"short".to_vec(), vec![]);
    let mut booted = boot(base).expect("records boot");
    assert_eq!(root(&mut booted), r);
    assert_eq!(booted.public_balance(&key(1).id, LAT_TOKEN), Some(5));
}

#[test]
fn a_refused_transaction_leaves_the_ledger_as_it_was() {
    let mut l = ledger();
    let alice = key(1);
    l.register(alice.id).unwrap();
    apply(&mut l, &create("GOLD", alice.id, 10, &alice)).unwrap();
    let before = l.encode();
    let r = root(&mut l);
    let again = create("gold", alice.id, 99, &alice);
    assert_eq!(apply(&mut l, &again), Err(LedgerError::TickerTaken));
    assert_eq!(l.encode(), before);
    assert_eq!(root(&mut l), r);
    assert_eq!(l.token("GOLD").unwrap().supply, 10);
}

#[test]
fn from_records_boots_the_exact_state_and_rejects_tampering() {
    let ids: Vec<[u8; 32]> = (1..7).map(|n| key(n).id).collect();
    let mut l = Ledger::with_base(MemStore::new(), ct(0));
    for id in &ids {
        l.register(*id).unwrap();
        l.credit_public(id, LAT_TOKEN, 777);
        credit_genesis(&mut l, id, 1_000).unwrap();
    }
    // Wrong key — just proves the apply path is live.
    assert!(apply(&mut l, &create("BOOT", ids[0], 500, &key(66))).is_err());
    let mut spend = anon(&l, &ids, 0, &key(90), 0, 0, 1);
    spend.nullifier = [5u8; 32];
    apply_at(&mut l, &Transaction::AnonTransfer { token: LAT_TOKEN, xfer: spend }, 1).unwrap();
    let r = root(&mut l);
    l.flush();
    let base = l.store.into_base();

    // Boot from the records alone: identical root, identical reads.
    let mut booted = boot(base.clone()).expect("records boot");
    assert_eq!(root(&mut booted), r);
    assert_eq!(booted.public_balance(&ids[0], LAT_TOKEN), Some(777));
    assert!(booted.nullifier_seen(&[5u8; 32]));
    booted.credit_public(&ids[1], LAT_TOKEN, 1);
    assert_ne!(root(&mut booted), r);

    // Tamper one account record: the boot fails to decode or commits another root.
    let (record, mut body) =
        base.scan_prefix(Column::Objects, &[REC_ACCOUNT]).into_iter().next().unwrap();
    let last = body.len() - 1;
    body[last] ^= 0xff;
    let mut tampered = base.clone();
    tampered.put(Column::Objects, record, body);
    match boot(tampered) {
        None => {}
        Some(mut t) => assert_ne!(root(&mut t), r, "tampering must change the root"),
    }

    // A base with no meta record is not bootable state at all.
    assert!(boot(MemStore::new()).is_none());
}

#[test]
fn rehome_atomically_replaces_the_base_state() {
    let old_id = key(1).id;
    let new_id = key(2).id;

    let mut old = Ledger::with_base(MemStore::new(), ct(0));
    old.register(old_id).unwrap();
    old.credit_public(&old_id, LAT_TOKEN, 111);
    root(&mut old);
    old.flush();
    let base = old.store.into_base();

    let mut fresh = ledger();
    fresh.set_max_validators(7);
    fresh.register(new_id).unwrap();
    fresh.credit_public(&new_id, LAT_TOKEN, 222);
    let r = root(&mut fresh);
    let mut moved = fresh
        .rehome(base, vec![(b"anchor-test".to_vec(), vec![7u8])])
        .expect("every node is there");

    assert_eq!(root(&mut moved), r, "the logical state survives the move");
    assert_eq!(moved.public_balance(&new_id, LAT_TOKEN), Some(222));
    assert!(!moved.is_registered(&old_id), "the old base state is gone");
    assert_eq!(moved.max_validators(), 7);
    let base = moved.store.into_base();
    assert_eq!(base.get(Column::Meta, b"anchor-test"), Some(vec![7u8]));
    let mut booted = boot(base).expect("records boot after rehome");
    assert_eq!(root(&mut booted), r);
    assert!(!booted.is_registered(&old_id));
}

#[test]
fn staged_metadata_commits_with_the_flush() {
    let mut l = Ledger::with_base(MemStore::new(), ct(0));
    let r = root(&mut l);
    l.stage_meta(b"height".to_vec(), vec![9]);
    assert_eq!(root(&mut l), r, "metadata is not part of the state");
    assert_eq!(l.store.base().get(Column::Meta, b"height"), None);
    l.flush();
    assert_eq!(l.store.base().get(Column::Meta, b"height"), Some(vec![9]));
}

#[test]
fn a_copy_changes_on_its_own() {
    let id = key(1).id;
    let mut l = ledger();
    l.register(id).unwrap();
    l.credit_public(&id, LAT_TOKEN, 5);
    let mut copy = l.clone();
    assert_eq!(root(&mut copy), root(&mut l));
    copy.credit_public(&id, LAT_TOKEN, 1);
    assert_eq!(l.public_balance(&id, LAT_TOKEN), Some(5));
    assert_ne!(root(&mut copy), root(&mut l));
}

#[test]
fn an_account_holds_each_token_apart() {
    let id = key(1).id;
    let mut l = ledger();
    l.register(id).unwrap();
    l.credit_public(&id, 3, 7);
    assert_eq!(l.public_balance(&id, 3), Some(7));
    assert_eq!(l.public_balance(&id, LAT_TOKEN), Some(0));
    assert_eq!(l.public_balance(&key(2).id, 3), None);
    assert!(l.token("NONE").is_none());
    assert_eq!(l.token_count(), 0);
}

// --- staking -----------------------------------------------------------------------------

fn stake_tx(k: &Key, n: u64, nonce: u64) -> Transaction {
    signed(Transaction::Stake { validator: k.id, amount: n, nonce, sig: [0u8; 64] }, k)
}

fn unstake_tx(k: &Key, n: u64, nonce: u64) -> Transaction {
    signed(Transaction::Unstake { validator: k.id, amount: n, nonce, sig: [0u8; 64] }, k)
}

#[test]
fn stake_unstake_lifecycle_with_unbonding_window() {
    let k = key(1);
    let id = k.id;
    let mut l = ledger();
    l.register(id).unwrap();
    l.credit_public(&id, LAT_TOKEN, 3 * MIN_VALIDATOR_STAKE);

    let r0 = root(&mut l);
    apply_at(&mut l, &stake_tx(&k, 2 * MIN_VALIDATOR_STAKE, 0), 10).unwrap();
    assert_eq!(l.staked(&id), 2 * MIN_VALIDATOR_STAKE);
    assert_eq!(l.public_balance(&id, LAT_TOKEN), Some(MIN_VALIDATOR_STAKE));
    assert_eq!(l.validator_set(), vec![(id, 2 * MIN_VALIDATOR_STAKE)]);
    assert_ne!(root(&mut l), r0, "staking is committed state");

    apply_at(&mut l, &unstake_tx(&k, MIN_VALIDATOR_STAKE, 1), 20).unwrap();
    assert_eq!(l.staked(&id), MIN_VALIDATOR_STAKE);
    assert_eq!(l.unbonding(&id), vec![(MIN_VALIDATOR_STAKE, 20 + UNBONDING_BLOCKS)]);
    assert_eq!(
        l.public_balance(&id, LAT_TOKEN),
        Some(MIN_VALIDATOR_STAKE),
        "nothing released before the window"
    );

    apply_at(&mut l, &stake_tx(&k, 0, 2), 20 + UNBONDING_BLOCKS - 1).unwrap();
    assert_eq!(l.public_balance(&id, LAT_TOKEN), Some(MIN_VALIDATOR_STAKE));
    apply_at(&mut l, &stake_tx(&k, 0, 3), 20 + UNBONDING_BLOCKS).unwrap();
    assert_eq!(l.public_balance(&id, LAT_TOKEN), Some(2 * MIN_VALIDATOR_STAKE));
    assert!(l.unbonding(&id).is_empty());

    assert_eq!(
        apply_at(&mut l, &unstake_tx(&k, 2 * MIN_VALIDATOR_STAKE, 4), 300),
        Err(LedgerError::InsufficientStake)
    );
    assert_eq!(
        apply_at(&mut l, &stake_tx(&k, u64::MAX - MIN_VALIDATOR_STAKE, 4), 300),
        Err(LedgerError::InsufficientPublicBalance)
    );
    // Draining everything deletes the record — canonical empty state.
    apply_at(&mut l, &unstake_tx(&k, MIN_VALIDATOR_STAKE, 4), 300).unwrap();
    apply_at(&mut l, &stake_tx(&k, 0, 5), 300 + UNBONDING_BLOCKS).unwrap();
    assert_eq!(l.staked(&id), 0);
    assert!(l.validator_set().is_empty());
    assert_eq!(l.public_balance(&id, LAT_TOKEN), Some(3 * MIN_VALIDATOR_STAKE));
}

fn evidence_by(k: &Key, beneficiary: [u8; 32]) -> Transaction {
    Transaction::SlashEvidence {
        validator: k.id,
        beneficiary,
        height: 9,
        block_a: [1u8; 32],
        sig_a: k.sign(&finality_vote_signing_bytes(&[1u8; 32], 9)),
        block_b: [2u8; 32],
        sig_b: k.sign(&finality_vote_signing_bytes(&[2u8; 32], 9)),
    }
}

#[test]
fn slash_evidence_partial_slash_reward_and_tombstone() {
    let k = key(1);
    let id = k.id;
    let wb = key(2).id;
    let mut l = ledger();
    l.register(id).unwrap();
    l.register(wb).unwrap();
    l.credit_public(&id, LAT_TOKEN, 4 * MIN_VALIDATOR_STAKE);
    apply_at(&mut l, &stake_tx(&k, 2 * MIN_VALIDATOR_STAKE, 0), 5).unwrap();
    apply_at(&mut l, &unstake_tx(&k, MIN_VALIDATOR_STAKE, 1), 6).unwrap();
    assert_eq!(l.staked(&id), MIN_VALIDATOR_STAKE);
    assert_eq!(l.unbonding(&id).len(), 1);
    let total = 2 * MIN_VALIDATOR_STAKE;

    let evidence = evidence_by(&k, wb);

    // Fabrications are rejected before anything is slashed.
    let mut same_block = evidence.clone();
    if let Transaction::SlashEvidence { block_b, sig_b, .. } = &mut same_block {
        *block_b = [1u8; 32];
        *sig_b = k.sign(&finality_vote_signing_bytes(&[1u8; 32], 9));
    }
    assert_eq!(apply_at(&mut l, &same_block, 10), Err(LedgerError::BadEvidence));
    let mut bad_sig = evidence.clone();
    if let Transaction::SlashEvidence { sig_b, .. } = &mut bad_sig {
        sig_b[0] ^= 1;
    }
    assert_eq!(apply_at(&mut l, &bad_sig, 10), Err(LedgerError::BadEvidence));

    let slashed = total * SLASH_FRACTION_BPS / 10_000;
    let reward = slashed * SLASH_REWARD_BPS / 10_000;
    let before = root(&mut l);
    apply_at(&mut l, &evidence, 10).unwrap();
    assert_eq!(
        l.staked(&id) + l.unbonding(&id).iter().map(|(a, _)| *a).sum::<u64>(),
        total - slashed
    );
    assert!(l.validator_set().is_empty(), "tombstoned validator is out of the set");
    assert_eq!(l.public_balance(&wb, LAT_TOKEN), Some(reward), "whistleblower rewarded");
    assert_ne!(root(&mut l), before, "slashing is committed state");

    // Even though residual stake remains, the tombstone blocks a re-slash.
    assert_eq!(apply_at(&mut l, &evidence, 11), Err(LedgerError::NothingToSlash));
    // A never-bonded bystander can't be slashed by valid-looking votes.
    assert_eq!(apply_at(&mut l, &evidence_by(&key(3), wb), 11), Err(LedgerError::NothingToSlash));
}

#[test]
fn a_slashed_validator_stays_out_after_withdrawing_and_staking_again() {
    let k = key(1);
    let id = k.id;
    let wb = key(2).id;
    let mut l = ledger();
    l.register(id).unwrap();
    l.register(wb).unwrap();
    l.credit_public(&id, LAT_TOKEN, 4 * MIN_VALIDATOR_STAKE);
    apply_at(&mut l, &stake_tx(&k, 2 * MIN_VALIDATOR_STAKE, 0), 5).unwrap();
    apply_at(&mut l, &evidence_by(&k, wb), 10).unwrap();

    // Everything that is left is unbonded, and claimed once its window is over.
    let left = l.staked(&id);
    let penalty = 2 * MIN_VALIDATOR_STAKE * SLASH_FRACTION_BPS / 10_000;
    assert_eq!(left, 2 * MIN_VALIDATOR_STAKE - penalty);
    apply_at(&mut l, &unstake_tx(&k, left, 1), 11).unwrap();
    let later = 11 + UNBONDING_BLOCKS;
    apply_at(&mut l, &stake_tx(&k, 0, 2), later).unwrap();
    assert_eq!(l.staked(&id), 0);
    assert!(l.unbonding(&id).is_empty());
    assert_eq!(l.public_balance(&id, LAT_TOKEN), Some(4 * MIN_VALIDATOR_STAKE - penalty));

    // A new stake is taken, and counts for nothing.
    apply_at(&mut l, &stake_tx(&k, 2 * MIN_VALIDATOR_STAKE, 3), later + 1).unwrap();
    assert_eq!(l.staked(&id), 2 * MIN_VALIDATOR_STAKE);
    assert!(l.validator_set().is_empty(), "the tombstone is permanent");
    assert_eq!(
        apply_at(&mut l, &evidence_by(&k, wb), later + 2),
        Err(LedgerError::NothingToSlash),
        "nor is the same offence slashed again"
    );

    // The tombstone is part of the committed state, and of every copy of it.
    let mut decoded = decode(&l.encode()).expect("snapshot decodes");
    assert_eq!(root(&mut decoded), root(&mut l));
    assert!(decoded.validator_set().is_empty());
}

#[test]
fn a_withdrawn_tombstone_survives_a_snapshot_and_a_restart() {
    let k = key(1);
    let mut l = ledger();
    l.register(k.id).unwrap();
    l.credit_public(&k.id, LAT_TOKEN, MIN_VALIDATOR_STAKE);
    apply_at(&mut l, &stake_tx(&k, MIN_VALIDATOR_STAKE, 0), 5).unwrap();
    apply_at(&mut l, &evidence_by(&k, key(2).id), 6).unwrap();
    let left = l.staked(&k.id);
    apply_at(&mut l, &unstake_tx(&k, left, 1), 7).unwrap();
    apply_at(&mut l, &stake_tx(&k, 0, 2), 7 + UNBONDING_BLOCKS).unwrap();
    l.credit_public(&k.id, LAT_TOKEN, MIN_VALIDATOR_STAKE);
    let mut decoded = decode(&l.encode()).expect("snapshot decodes");
    apply_at(&mut decoded, &stake_tx(&k, MIN_VALIDATOR_STAKE, 3), 8 + UNBONDING_BLOCKS).unwrap();
    assert!(decoded.validator_set().is_empty());

    l.flush();
    let mut booted = boot(l.store.into_base()).expect("records boot");
    apply_at(&mut booted, &stake_tx(&k, MIN_VALIDATOR_STAKE, 3), 8 + UNBONDING_BLOCKS).unwrap();
    assert!(booted.validator_set().is_empty());
}

fn create_tx(k: &Key, ticker: &str, supply: u64) -> Transaction {
    signed(
        Transaction::CreateToken {
            ticker: ticker.to_string(),
            creator: k.id,
            supply,
            sig: [0u8; 64],
        },
        k,
    )
}

#[test]
fn a_refused_transaction_leaves_every_record() {
    let k = key(1);
    let mut l = ledger();
    l.register(k.id).unwrap();
    l.credit_public(&k.id, LAT_TOKEN, 10);
    apply(&mut l, &create_tx(&k, "ONE", 5)).unwrap();
    let records = l.object_records();
    let snapshot = l.encode();
    for (tx, why) in [
        (Transaction::Register { pubkey: k.id, pow_nonce: 0 }, LedgerError::AlreadyRegistered),
        (create_tx(&k, "one", 7), LedgerError::TickerTaken),
        (stake_tx(&k, 11, 0), LedgerError::InsufficientPublicBalance),
        (unstake_tx(&k, 1, 0), LedgerError::InsufficientStake),
        (stake_tx(&k, 1, 9), LedgerError::BadNonce),
        (evidence_by(&k, k.id), LedgerError::NothingToSlash),
    ] {
        assert_eq!(apply_at(&mut l, &tx, 3), Err(why));
        assert_eq!(l.object_records(), records);
        assert_eq!(l.encode(), snapshot);
    }
}

#[test]
fn the_next_token_id_survives_a_restart() {
    let k = key(1);
    let mut l = ledger();
    l.register(k.id).unwrap();
    apply(&mut l, &create_tx(&k, "ONE", 5)).unwrap();
    apply(&mut l, &create_tx(&k, "TWO", 6)).unwrap();
    assert_eq!(apply(&mut l, &create_tx(&k, "two", 6)), Err(LedgerError::TickerTaken));
    let want = root(&mut l);
    let snapshot = l.encode();
    l.flush();
    let mut booted = boot(l.store.into_base()).expect("records boot");
    assert_eq!(root(&mut booted), want);
    assert_eq!(booted.encode(), snapshot);
    apply(&mut booted, &create_tx(&k, "THREE", 7)).unwrap();
    assert_eq!(booted.token("THREE").expect("it was made").id, 3);
    assert_eq!(booted.token("TWO").expect("it was made").id, 2);
}

#[test]
fn a_snapshot_encodes_again_and_nothing_else_decodes() {
    let k = key(1);
    let mut l = ledger();
    l.register(k.id).unwrap();
    l.credit_public(&k.id, LAT_TOKEN, 2 * MIN_VALIDATOR_STAKE);
    apply(&mut l, &create_tx(&k, "ONE", 5)).unwrap();
    apply_at(&mut l, &stake_tx(&k, MIN_VALIDATOR_STAKE, 0), 1).unwrap();
    let b = l.encode();
    assert_eq!(decode(&b).expect("snapshot decodes").encode(), b);
    for n in 0..b.len() {
        assert!(decode(&b[..n]).is_none(), "cut at {n}");
    }
    let mut padded = b.clone();
    padded.push(0);
    assert!(decode(&padded).is_none());
    let mut headed = b;
    headed[0] ^= 1;
    assert!(decode(&headed).is_none());
}

#[test]
fn a_second_prune_drops_nothing() {
    let mut l = ledger();
    let id = key(1).id;
    l.register(id).unwrap();
    let mut roots = Vec::new();
    for n in 1..6u64 {
        l.credit_public(&id, LAT_TOKEN, n);
        roots.push(root(&mut l));
    }
    let kept = [roots[2]];
    let first = l.prune_history(&kept).expect("every node is there");
    assert!(first.dropped > 0);
    let second = l.prune_history(&kept).expect("every node is there");
    assert_eq!(second.dropped, 0);
    assert_eq!(second.kept, first.kept);
    // The retained root reads as it did; the others are gone.
    let mut base = l.store.base().clone();
    let path = trie_key(&DirtyKey::Account(id));
    assert!(Smt::from_root(&mut base, roots[2]).get(&path).is_some());
    assert!(Smt::from_root(&mut base, roots[1]).get(&path).is_none());
}

#[test]
fn a_used_up_transaction_stays_refused() {
    let k = key(1);
    let wb = key(2).id;
    let mut l = ledger();
    l.register(k.id).unwrap();
    l.register(wb).unwrap();
    l.credit_public(&k.id, LAT_TOKEN, 4 * MIN_VALIDATOR_STAKE);
    let stake = stake_tx(&k, 2 * MIN_VALIDATOR_STAKE, 0);
    let token = create_tx(&k, "ONE", 5);
    apply_at(&mut l, &stake, 1).unwrap();
    apply_at(&mut l, &token, 1).unwrap();
    apply_at(&mut l, &evidence_by(&k, wb), 2).unwrap();
    for n in 1..4 {
        apply_at(&mut l, &stake_tx(&k, 1, n), 2 + n).unwrap();
        assert_eq!(apply_at(&mut l, &stake, 9), Err(LedgerError::BadNonce));
        assert_eq!(apply_at(&mut l, &token, 9), Err(LedgerError::TickerTaken));
        assert_eq!(apply_at(&mut l, &evidence_by(&k, wb), 9), Err(LedgerError::NothingToSlash));
    }
}

#[test]
fn rules_cover_what_the_ledger_applies() {
    let k = key(1);
    assert!(covered(&stake_tx(&k, 1, 0)));
    let swap = Transaction::HtlcRefund { id: [0u8; 32] };
    assert!(!covered(&swap));
    assert!(!ledger().within_limits(&swap, 0));
}

#[test]
fn a_slash_commits_the_reward_too() {
    // The live root after a slash is that of a rebuild from the records.
    let k = key(1);
    let wb = key(2).id;
    let mut l = ledger();
    l.register(k.id).unwrap();
    l.register(wb).unwrap();
    l.credit_public(&k.id, LAT_TOKEN, 4 * MIN_VALIDATOR_STAKE);
    apply_at(&mut l, &stake_tx(&k, 2 * MIN_VALIDATOR_STAKE, 0), 5).unwrap();
    root(&mut l);
    apply_at(&mut l, &evidence_by(&k, wb), 10).unwrap();
    let mut rebuilt = decode(&l.encode()).unwrap();
    assert_eq!(root(&mut l), root(&mut rebuilt));
}

#[test]
fn validator_cap_is_configurable() {
    let keys: Vec<Key> = (1..4).map(key).collect();
    let mut l = ledger();
    assert_eq!(l.max_validators(), DEFAULT_MAX_VALIDATORS);
    l.set_max_validators(2);
    for (i, k) in keys.iter().enumerate() {
        l.register(k.id).unwrap();
        l.credit_public(&k.id, LAT_TOKEN, 10 * MIN_VALIDATOR_STAKE);
        apply_at(&mut l, &stake_tx(k, (i as u64 + 1) * MIN_VALIDATOR_STAKE, 0), 5).unwrap();
    }
    let set = l.validator_set();
    assert_eq!(set.len(), 2, "cap of 2 keeps only the top two by stake");
    assert_eq!(set[0].1, 3 * MIN_VALIDATOR_STAKE);
    assert_eq!(set[1].1, 2 * MIN_VALIDATOR_STAKE);
}

#[test]
fn validator_set_is_deterministic_ordered_and_thresholded() {
    let keys: Vec<Key> = (1..5).map(key).collect();
    let ids: Vec<[u8; 32]> = keys.iter().map(|k| k.id).collect();
    let mut l = ledger();
    for id in &ids {
        l.register(*id).unwrap();
        l.credit_public(id, LAT_TOKEN, 10 * MIN_VALIDATOR_STAKE);
    }
    apply_at(&mut l, &stake_tx(&keys[0], 3 * MIN_VALIDATOR_STAKE, 0), 1).unwrap();
    apply_at(&mut l, &stake_tx(&keys[1], 5 * MIN_VALIDATOR_STAKE, 0), 1).unwrap();
    apply_at(&mut l, &stake_tx(&keys[2], 5 * MIN_VALIDATOR_STAKE, 0), 1).unwrap();
    apply_at(&mut l, &stake_tx(&keys[3], MIN_VALIDATOR_STAKE - 1, 0), 1).unwrap();

    let set = l.validator_set();
    assert_eq!(set.len(), 3, "below-threshold stake is not a validator");
    assert_eq!(set[0].1, 5 * MIN_VALIDATOR_STAKE);
    assert_eq!(set[1].1, 5 * MIN_VALIDATOR_STAKE);
    assert!(set[0].0 < set[1].0, "ties order by id");
    assert_eq!(set[2], (ids[0], 3 * MIN_VALIDATOR_STAKE));

    let mut decoded = decode(&l.encode()).expect("snapshot decodes");
    assert_eq!(decoded.validator_set(), set);
    assert_eq!(root(&mut decoded), root(&mut l));

    let r = root(&mut l);
    l.flush();
    let mut booted = boot(l.store.into_base()).expect("records boot");
    assert_eq!(booted.validator_set(), set);
    assert_eq!(root(&mut booted), r);
}

#[test]
fn prune_history_shrinks_trie_and_keeps_state_intact() {
    let mut l = ledger();
    let ids: Vec<[u8; 32]> = (1..13).map(|n| key(n).id).collect();
    for id in &ids {
        l.register(*id).unwrap();
        l.credit_public(id, LAT_TOKEN, 1_000);
    }
    root(&mut l);
    l.flush();

    let mut roots = Vec::new();
    for round in 1..=20u64 {
        for id in &ids {
            l.credit_public(id, LAT_TOKEN, round);
        }
        roots.push(root(&mut l));
        l.flush();
    }
    let before = l.state_node_count();
    let root_before = root(&mut l);

    let window = &roots[roots.len() - 4..];
    let stats = l.prune_history(window).expect("every node is there");
    assert!(stats.dropped > 0, "churn must leave prunable garbage");
    let after = l.state_node_count();
    assert_eq!(after, before - stats.dropped);
    assert_eq!(after, stats.kept);

    assert_eq!(root(&mut l), root_before);
    let proof = l.account_proof(&ids[0]).unwrap();
    assert!(verify_account_proof(&root_before, &proof));
    assert_eq!(l.public_balance(&ids[0], LAT_TOKEN), Some(1_000 + (1..=20).sum::<u64>()));

    // A retained historical root still serves trie reads (archive window)…
    let mut base = l.store.base().clone();
    let old_trie = Smt::from_root(&mut base, window[0]);
    let old = old_trie.try_prove(&trie_key(&DirtyKey::Account(ids[0]))).unwrap();
    assert!(matches!(old.terminal, Terminal::Leaf { .. }));

    // …and the ledger keeps working normally after the sweep.
    l.credit_public(&ids[1], LAT_TOKEN, 5);
    assert_ne!(root(&mut l), root_before);
    let mut rebuilt = decode(&l.encode()).expect("snapshot decodes");
    assert_eq!(root(&mut rebuilt), root(&mut l), "roundtrip after prune");
}

fn check(l: &mut Store) {
    let mut rebuilt = decode(&l.encode()).expect("snapshot decodes");
    assert_eq!(root(l), root(&mut rebuilt), "incremental root diverged from full rebuild");
}

#[test]
fn incremental_root_matches_full_rebuild_over_random_workload() {
    let mut l = ledger();
    let keys: Vec<Key> = (1..9).map(key).collect();
    let ids: Vec<[u8; 32]> = keys.iter().map(|k| k.id).collect();
    for id in &ids {
        l.register(*id).unwrap();
        l.credit_public(id, LAT_TOKEN, 1_000_000);
        credit_genesis(&mut l, id, 1_000_000).unwrap();
    }
    check(&mut l);

    apply(&mut l, &create("TEST", ids[0], 500, &keys[0])).unwrap();
    check(&mut l);

    let code = counter();
    let cid = contract_id(&ids[1], &code);
    let deploy = signed(
        Transaction::DeployContract { deployer: ids[1], code, sig: [0u8; 64] },
        &keys[1],
    );
    apply(&mut l, &deploy).unwrap();
    check(&mut l);

    for i in 0..40u64 {
        let from = (i as usize) % ids.len();
        let to = (i as usize + 1) % ids.len();
        let nonce = l.nonce(&ids[from]).unwrap();
        let tx = signed(
            Transaction::PublicTransfer {
                token: LAT_TOKEN,
                from: ids[from],
                to: ids[to],
                amount: 1,
                fee: 0,
                nonce,
                sig: [0u8; 64],
            },
            &keys[from],
        );
        apply(&mut l, &tx).unwrap();
        let cnonce = l.nonce(&ids[1]).unwrap();
        apply(&mut l, &call(cid, &keys[1], cnonce)).unwrap();
        check(&mut l);
    }
}

#[test]
fn state_root_is_insertion_order_independent() {
    let ids: Vec<[u8; 32]> = (1..7).map(|n| key(n).id).collect();
    let mut l1 = ledger();
    for id in ids.iter() {
        l1.register(*id).unwrap();
        l1.credit_public(id, LAT_TOKEN, 10);
    }
    let mut l2 = ledger();
    for id in ids.iter().rev() {
        l2.register(*id).unwrap();
        l2.credit_public(id, LAT_TOKEN, 10);
    }
    assert_eq!(root(&mut l1), root(&mut l2));
}

#[test]
fn miners_are_paid_and_registered_on_the_way() {
    let miner = key(5).id;
    let mut l = ledger();
    assert_eq!(l.credit_genesis(&miner, ct(1)), Err(LedgerError::ReceiverNotRegistered));
    let sum = compute(&l.reward_term(&miner, LAT_TOKEN, 50));
    l.reward_miner(&miner, LAT_TOKEN, 50, sum);
    assert!(l.is_registered(&miner));
    assert_eq!(spendable(&l, &miner), 50);
    l.reward_miner(&miner, LAT_TOKEN, 0, ct(9));
    assert_eq!(spendable(&l, &miner), 50);
    assert_eq!(l.ring_candidates(LAT_TOKEN), vec![(miner, ct(50))]);
    assert_eq!(in_snapshot(&l.encode()), vec![ct(50)]);
    l.flush();
    assert_eq!(in_records(&l.store.into_base()), vec![ct(50)]);
}

// --- wallets over the ledger -----------------------------------------------------------

const FEE: u64 = 1_000;

struct Holder {
    key: Key,
    wallet: Wallet,
}

fn holder(n: u8) -> Holder {
    let key = key(n);
    let wallet = Wallet::from_seed(Network::Testnet, [n; 32], key.id);
    Holder { key, wallet }
}

impl Holder {
    fn of_key(key: Key) -> Holder {
        let wallet = Wallet::from_secret(Network::Testnet, key.id);
        Holder { key, wallet }
    }

    fn id(&self) -> [u8; 32] {
        self.wallet.id()
    }

    fn address(&self) -> Address {
        self.wallet.address()
    }

    fn sign(&self, tx: Transaction) -> Transaction {
        signed(tx, &self.key)
    }

    fn roll_over(&self, l: &mut Store) {
        let tx = self.sign(self.wallet.rollover_tx(l.nonce(&self.id()).unwrap()));
        apply(l, &tx).unwrap();
    }

    /// What the amounts in the confidential transfers are, for who may know.
    fn received(&self, txs: &[Transaction]) -> Vec<(u32, u64)> {
        let opened: Vec<Option<u64>> = txs
            .iter()
            .map(|t| match t {
                Transaction::SolventTransfer { xfer, .. } => Some(amount(&xfer.receiver_ct)),
                _ => None,
            })
            .collect();
        self.wallet.scan_received(txs, &opened)
    }

    fn stealth(&self, txs: &[Transaction]) -> Vec<StealthReceipt> {
        let mut mine = Vec::new();
        let mut opened = Vec::new();
        for t in txs {
            let (to, credit) = match t {
                Transaction::ShieldStealth { one_time, .. } => (Some(*one_time), None),
                Transaction::AnonTransfer { xfer, .. } => {
                    (Some(xfer.one_time), Some(amount(&xfer.credit)))
                }
                _ => (None, None),
            };
            mine.push(to == Some(one_time(&self.key)));
            opened.push(credit);
        }
        scan_stealth(txs, &mine, &opened)
    }

    /// Build an anonymous transfer for the block at `height`.
    fn anon(&self, l: &Store, to: &Holder, value: u64, size: usize, height: u64) -> Option<Transaction> {
        let balance = l.balance(&self.id(), LAT_TOKEN)?;
        let draws: Vec<u64> = (0..16).map(|i| 7 * i + 3).collect();
        let (ring, at) = self.wallet.anon_ring(
            Some(amount(&balance)),
            value,
            FEE,
            balance,
            &l.ring_candidates(LAT_TOKEN),
            size,
            16,
            &draws,
        )?;
        let ids: Vec<[u8; 32]> = ring.iter().map(|m| m.0).collect();
        let xfer = anon(l, &ids, at, &to.key, value, FEE, height);
        Some(Wallet::build_anon_transfer(LAT_TOKEN, xfer))
    }
}

#[test]
fn full_wallet_flow_over_the_chain() {
    let genesis = holder(7);
    let receiver = holder(8);
    let mut l = ledger();
    l.register(genesis.id()).unwrap();
    credit_genesis(&mut l, &genesis.id(), 1_000_000).unwrap();
    assert_eq!(spendable(&l, &genesis.id()), 1_000_000);

    let block1 = vec![receiver.wallet.registration_tx(0)];
    apply(&mut l, &block1[0]).unwrap();

    // Genesis sends 250,000 with a solvency proof. It lands in the receiver's
    // pending pool; the genesis wallet is debited the amount plus the fee.
    let bal = l.balance(&genesis.id(), LAT_TOKEN).unwrap();
    let xfer = solvent(&genesis.key, receiver.id(), 250_000, FEE, 1_000_000, &bal, 0);
    let block2 = vec![Wallet::build_transfer(LAT_TOKEN, xfer)];
    apply(&mut l, &block2[0]).unwrap();
    assert_eq!(spendable(&l, &genesis.id()), 750_000 - FEE);
    assert_eq!(waiting(&l, &receiver.id()), 250_000);

    // The receiver discovers the incoming amount by scanning the block...
    assert_eq!(receiver.received(&block2), vec![(LAT_TOKEN, 250_000)]);
    assert_eq!(genesis.received(&block1), Vec::<(u32, u64)>::new());

    // ...then rolls it over into a spendable balance (at their nonce).
    receiver.roll_over(&mut l);
    assert_eq!(spendable(&l, &receiver.id()), 250_000);
}

#[test]
fn public_transfer_flow_over_the_chain() {
    let genesis = holder(7);
    let receiver = holder(8);
    let mut l = ledger();
    l.register(genesis.id()).unwrap();
    l.credit_public(&genesis.id(), LAT_TOKEN, 1_000_000);
    apply(&mut l, &receiver.wallet.registration_tx(0)).unwrap();

    let create = |l: &Store, value| {
        let id = genesis.id();
        genesis.wallet.create_public_transfer(
            l.nonce(&id),
            l.public_balance(&id, LAT_TOKEN),
            &receiver.address(),
            LAT_TOKEN,
            value,
            FEE,
        )
    };
    let block2 = vec![genesis.sign(create(&l, 250_000).unwrap())];
    apply(&mut l, &block2[0]).unwrap();

    assert_eq!(
        l.public_balance(&genesis.id(), LAT_TOKEN),
        Some(1_000_000 - 250_000 - FEE)
    );
    assert_eq!(l.public_balance(&receiver.id(), LAT_TOKEN), Some(250_000));
    // Unlike a confidential transfer, the amount is immediately spendable and
    // in the clear — the receiver reads it as a plaintext receipt.
    assert_eq!(receiver.received(&block2), vec![(LAT_TOKEN, 250_000)]);

    // Overspending yields no transaction.
    assert!(create(&l, u64::MAX).is_none());
}

#[test]
fn shield_then_unshield_round_trip() {
    let user = holder(11);
    let dest = holder(12);
    let mut l = ledger();
    l.register(user.id()).unwrap();
    l.credit_public(&user.id(), LAT_TOKEN, 1_000_000);
    apply(&mut l, &dest.wallet.registration_tx(0)).unwrap();

    // SHIELD 300,000 into the user's OWN private balance ("make my LAT private").
    let shield = user
        .wallet
        .create_shield(
            l.nonce(&user.id()),
            l.public_balance(&user.id(), LAT_TOKEN),
            &user.address(),
            LAT_TOKEN,
            300_000,
            FEE,
        )
        .unwrap();
    apply(&mut l, &user.sign(shield)).unwrap();
    assert_eq!(l.public_balance(&user.id(), LAT_TOKEN), Some(1_000_000 - 300_000 - FEE));
    assert_eq!(waiting(&l, &user.id()), 300_000);

    // Roll pending → spendable, then UNSHIELD 100,000 to dest's public balance.
    user.roll_over(&mut l);
    assert_eq!(spendable(&l, &user.id()), 300_000);

    let bal = l.balance(&user.id(), LAT_TOKEN).unwrap();
    let nonce = l.nonce(&user.id()).unwrap();
    let xfer = solvent(&user.key, VIEW_KEY, 100_000, FEE, 300_000, &bal, nonce);
    let block4 =
        vec![user.sign(user.wallet.build_unshield(&dest.address(), LAT_TOKEN, 100_000, xfer))];
    apply(&mut l, &block4[0]).unwrap();

    assert_eq!(l.public_balance(&dest.id(), LAT_TOKEN), Some(100_000));
    assert_eq!(spendable(&l, &user.id()), 300_000 - 100_000 - FEE);
    // dest reads the unshield as a plaintext receipt when scanning the block.
    assert_eq!(dest.received(&block4), vec![(LAT_TOKEN, 100_000)]);
}

#[test]
fn anonymous_transfer_full_wallet_flow() {
    // Five funded wallets form the decoy pool; wallet 2 will spend.
    let wallets: Vec<Holder> = (1..6).map(holder).collect();
    let alice = holder(9); // receiver
    let funded = |who: &[Holder]| {
        let mut l = ledger();
        for w in who {
            l.register(w.id()).unwrap();
            credit_genesis(&mut l, &w.id(), 1_000_000).unwrap();
        }
        l
    };
    let mut l = funded(&wallets);
    let height = 1;

    // Not enough decoys → no transaction (a ring of 1 hides nobody).
    let lonely = funded(&wallets[..1]);
    assert!(wallets[0].anon(&lonely, &alice, 1_000, 4, height).is_none());

    // Overspend → no transaction (no valid solvency proof exists).
    assert!(wallets[2].anon(&l, &alice, u64::MAX - FEE, 4, height).is_none());

    // Wallet 2 sends 50,000 anonymously, hiding among 3 decoys.
    let tx = wallets[2].anon(&l, &alice, 50_000, 4, height).expect("builds");
    if let Transaction::AnonTransfer { xfer, .. } = &tx {
        assert_eq!(xfer.ring.len(), 4, "self + 3 decoys");
        assert_eq!(xfer.epoch, epoch_of(height));
    } else {
        panic!("wrong variant");
    }
    let block = vec![tx];
    apply_at(&mut l, &block[0], height).unwrap();

    // The spender lost amount + fee; every other wallet is untouched.
    assert_eq!(spendable(&l, &wallets[2].id()), 1_000_000 - 50_000 - FEE);
    for w in [&wallets[0], &wallets[1], &wallets[3], &wallets[4]] {
        assert_eq!(spendable(&l, &w.id()), 1_000_000);
    }

    // Nobody but Alice detects the payment; she scans, claims the one-time
    // account, rolls it over, and can spend.
    assert!(wallets[0].stealth(&block).is_empty());
    let receipts = alice.stealth(&block);
    assert_eq!(receipts.len(), 1);
    assert_eq!(receipts[0].amount, 50_000);
    let claimed = Holder::of_key(Key { id: receipts[0].one_time });
    assert_eq!(claimed.id(), receipts[0].one_time);
    claimed.roll_over(&mut l);
    assert_eq!(spendable(&l, &claimed.id()), 50_000);

    // A second anonymous spend by the same wallet in the same epoch can be
    // BUILT (the wallet doesn't know its nullifier is burned) but is rejected.
    let again = wallets[2]
        .anon(&l, &alice, 1_000, 4, height)
        .expect("builds against current balances");
    assert_eq!(
        apply_at(&mut l, &again, height),
        Err(LedgerError::NullifierSeen),
        "same-epoch respend filtered"
    );
}

#[test]
fn stealth_shield_hides_recipient_yet_recipient_can_claim() {
    let bob = holder(21); // holds public LAT
    let alice = holder(22);
    let carol = holder(23); // unrelated observer
    let mut l = ledger();
    l.register(bob.id()).unwrap();
    l.credit_public(&bob.id(), LAT_TOKEN, 1_000_000);

    // Bob stealth-shields 300,000 to Alice — the tx never names Alice.
    let tx = bob
        .wallet
        .create_shield_stealth(
            l.nonce(&bob.id()),
            l.public_balance(&bob.id(), LAT_TOKEN),
            [3u8; 32],
            one_time(&alice.key),
            LAT_TOKEN,
            300_000,
            FEE,
        )
        .unwrap();
    let block1 = vec![bob.sign(tx)];
    apply(&mut l, &block1[0]).unwrap();
    assert_eq!(l.public_balance(&bob.id(), LAT_TOKEN), Some(1_000_000 - 300_000 - FEE));

    // An unrelated observer scanning the block finds nothing addressed to them.
    assert!(carol.stealth(&block1).is_empty(), "recipient must be unlinkable");

    // Alice scans, detects her stealth output, and derives its one-time key.
    let receipts = alice.stealth(&block1);
    assert_eq!(receipts.len(), 1);
    assert_eq!(receipts[0].amount, 300_000);

    // Alice controls the one-time account and claims it (roll pending → spendable).
    let claimed = Holder::of_key(Key { id: receipts[0].one_time });
    assert_eq!(claimed.id(), receipts[0].one_time, "derived key opens the account");
    claimed.roll_over(&mut l);
    assert_eq!(spendable(&l, &claimed.id()), 300_000);
}

// --- running a block in parallel ---------------------------------------------------------

fn funded(n: u8) -> (Store, Vec<Key>, Vec<[u8; 32]>) {
    let keys: Vec<Key> = (0..n).map(|i| key(i + 1)).collect();
    let ids: Vec<[u8; 32]> = keys.iter().map(|k| k.id).collect();
    let mut l = ledger();
    for id in &ids {
        l.register(*id).unwrap();
        l.credit_public(id, LAT_TOKEN, 10_000);
    }
    root(&mut l);
    l.flush();
    (l, keys, ids)
}

fn transfer(
    keys: &[Key],
    ids: &[[u8; 32]],
    from: usize,
    to: usize,
    value: u64,
    nonce: u64,
) -> Transaction {
    signed(
        Transaction::PublicTransfer {
            token: LAT_TOKEN,
            from: ids[from],
            to: ids[to],
            amount: value,
            fee: 1,
            nonce,
            sig: [0u8; 64],
        },
        &keys[from],
    )
}

fn verify_job(txs: &[Transaction], job: &(usize, Option<[u8; 64]>)) -> bool {
    match &txs[job.0] {
        Transaction::AnonTransfer { xfer, .. } => xfer.bytes == b"proof",
        Transaction::SolventTransfer { xfer, .. } => proven(xfer, &job.1),
        Transaction::Unshield { xfer, .. } => proven(xfer, &job.1),
        _ => false,
    }
}

/// Run a block stage by stage, each wave on copies of the ledger for four workers.
fn apply_block(l: &mut Store, txs: &[Transaction], height: u64) -> Result<(), LedgerError> {
    let jobs = l.preverify_jobs(txs);
    let mut passes: Vec<Option<ProofPass>> = (0..txs.len()).map(|_| None).collect();
    for job in &jobs {
        passes[job.0] = evidence(job, verify_job(txs, job));
    }
    let sets: Vec<Vec<[u8; 32]>> = txs
        .iter()
        .map(|t| latebra::parallel::access_set(t).unwrap_or_default())
        .collect();
    for stage in block_stages(txs) {
        if latebra::parallel::access_set(&txs[stage[0]]).is_none() {
            let i = stage[0];
            let mut reply = reply_to(l, &txs[i]);
            if reusable(&passes[i], &txs[i], &l.bound_balance(&txs[i])) {
                reply.proven = false; // not verified again
            }
            l.apply_at_with(&txs[i], height, &reply, &passes[i])?;
            continue;
        }
        let n = chunk_len(stage.len(), 4);
        let mut failed = Vec::new();
        let mut written = Vec::new();
        for chunk in stage.chunks(n) {
            let mut view = l.clone();
            let mut bad = None;
            for &k in chunk {
                if let Err(e) = apply_at(&mut view, &txs[k], height) {
                    bad = Some((k, e));
                    break;
                }
            }
            match bad {
                Some(b) => failed.push(b),
                None => written.push(view.written_records(&sets, chunk)),
            }
        }
        if let Some(e) = first_error(&failed) {
            return Err(e);
        }
        for records in written {
            for (id, bytes) in records {
                l.adopt_account_record(&id, bytes);
            }
        }
    }
    Ok(())
}

fn apply_in_order(l: &mut Store, txs: &[Transaction], height: u64) -> Result<(), LedgerError> {
    for tx in txs {
        apply_at(l, tx, height)?;
    }
    Ok(())
}

#[test]
fn waves_pack_disjoint_and_serialize_conflicts() {
    let a = [1u8; 32];
    let b = [2u8; 32];
    let c = [3u8; 32];
    let d = [4u8; 32];
    // tx0 {a,b}, tx1 {c,d} disjoint → wave 0. tx2 {b,c} conflicts with both
    // → wave 1. tx3 {a,d} conflicts only with wave-0 txs → wave 1 too.
    // tx4 {a,c} conflicts with wave-1 → wave 2.
    let sets = vec![vec![a, b], vec![c, d], vec![b, c], vec![a, d], vec![a, c]];
    assert_eq!(schedule_waves(&sets), vec![vec![0, 1], vec![2, 3], vec![4]]);
}

#[test]
fn parallel_matches_sequential_over_random_transparent_workload() {
    let n = 64;
    let (l, keys, ids) = funded(n as u8);
    let mut seq = l.clone();
    let mut par = l;

    let mut nonces = vec![0u64; n];
    let mut txs = Vec::new();
    for round in 0..4 {
        for i in 0..n / 2 {
            let (from, to) = match round {
                0 => (i, n / 2 + i),         // disjoint pairs
                1 => (i, (i + 1) % (n / 2)), // chained ring
                2 => (n / 2 + i, 0),         // hot receiver
                _ => (i, i),                 // self-transfers
            };
            txs.push(transfer(&keys, &ids, from, to, 10 + round as u64, nonces[from]));
            nonces[from] += 1;
        }
    }
    // A registration inside the run and a barrier in the middle.
    txs.insert(40, Transaction::Register { pubkey: key(99).id, pow_nonce: 0 });
    txs.insert(70, create("PARA", ids[0], 9, &keys[0]));

    apply_in_order(&mut seq, &txs, 1).unwrap();
    apply_block(&mut par, &txs, 1).unwrap();

    assert_eq!(root(&mut par), root(&mut seq), "parallel diverged from sequential");
    for (i, id) in ids.iter().enumerate() {
        assert_eq!(
            par.public_balance(id, LAT_TOKEN),
            seq.public_balance(id, LAT_TOKEN),
            "balance {i}"
        );
    }
}

#[test]
fn parallel_rejects_exactly_when_sequential_rejects() {
    let n = 32;
    let (l, keys, ids) = funded(n as u8);
    let mut seq = l.clone();
    let mut par = l;

    // A big disjoint wave with one bad-nonce transaction buried in it.
    let mut txs: Vec<Transaction> =
        (0..n / 2).map(|i| transfer(&keys, &ids, i, n / 2 + i, 5, 0)).collect();
    txs[9] = transfer(&keys, &ids, 9, n / 2 + 9, 5, 77); // wrong nonce

    assert_eq!(apply_in_order(&mut seq, &txs, 1), Err(LedgerError::BadNonce));
    assert_eq!(
        apply_block(&mut par, &txs, 1),
        Err(LedgerError::BadNonce),
        "same block-level verdict"
    );

    // And an all-valid version of the same wave passes both.
    let (l2, keys2, ids2) = funded(n as u8);
    let mut seq2 = l2.clone();
    let mut par2 = l2;
    let txs: Vec<Transaction> =
        (0..n / 2).map(|i| transfer(&keys2, &ids2, i, n / 2 + i, 5, 0)).collect();
    apply_in_order(&mut seq2, &txs, 1).unwrap();
    apply_block(&mut par2, &txs, 1).unwrap();
    assert_eq!(root(&mut par2), root(&mut seq2));
}

#[test]
fn confidential_preverify_matches_sequential_on_a_mixed_block() {
    let (mut l, keys, ids) = ledger_with_ring(8, 100_000);
    for id in &ids {
        l.credit_public(id, LAT_TOKEN, 10_000);
    }
    root(&mut l);
    l.flush();
    let height = 45;

    let bal0 = l.balance(&ids[0], LAT_TOKEN).unwrap();
    let s0 = Transaction::SolventTransfer {
        token: LAT_TOKEN,
        xfer: solvent(&keys[0], ids[1], 5_000, 100, 100_000, &bal0, 0),
    };
    let bal2 = l.balance(&ids[2], LAT_TOKEN).unwrap();
    let s2 = Transaction::SolventTransfer {
        token: LAT_TOKEN,
        xfer: solvent(&keys[2], ids[3], 700, 100, 100_000, &bal2, 0),
    };
    let mut scratch = l.clone();
    apply_at(&mut scratch, &s0, height).unwrap();
    apply_at(&mut scratch, &s2, height).unwrap();
    let hidden = anon_tx(&scratch, &ids, 4, &keys[5], 2_000, 1_000, height);
    apply_at(&mut scratch, &hidden, height).unwrap();
    let bal6 = scratch.balance(&ids[6], LAT_TOKEN).unwrap();
    let s6 = Transaction::SolventTransfer {
        token: LAT_TOKEN,
        xfer: solvent(&keys[6], ids[7], 300, 100, 100_000, &bal6, 0),
    };

    let mut txs = vec![s0, s2, hidden, s6];
    for (i, nonce) in [(0usize, 1u64), (1, 0), (2, 1), (3, 0)] {
        txs.push(transfer(&keys, &ids, i, 7 - i, 50, nonce));
    }
    // Three proofs are worth verifying ahead: the fourth's sender is in the ring.
    let ahead: Vec<usize> = l.preverify_jobs(&txs).iter().map(|j| j.0).collect();
    assert_eq!(ahead, vec![0, 1, 2]);

    let mut seq = l.clone();
    let mut par = l;
    apply_in_order(&mut seq, &txs, height).unwrap();
    apply_block(&mut par, &txs, height).unwrap();
    assert_eq!(root(&mut par), root(&mut seq), "mixed confidential block diverged");
}

#[test]
fn tampered_confidential_proof_rejected_with_and_without_prepass() {
    let (l, keys, ids) = ledger_with_ring(4, 50_000);
    let mut seq = l.clone();
    let mut par = l.clone();

    let bad = Transaction::SolventTransfer {
        token: LAT_TOKEN,
        xfer: solvent(&keys[0], ids[1], 60_000, 0, 999_999, &ct(999_999), 0),
    };
    let bal2 = l.balance(&ids[2], LAT_TOKEN).unwrap();
    let good = Transaction::SolventTransfer {
        token: LAT_TOKEN,
        xfer: solvent(&keys[2], ids[3], 100, 0, 50_000, &bal2, 0),
    };
    let txs = vec![good, bad];

    assert_eq!(apply_in_order(&mut seq, &txs, 1), Err(LedgerError::InvalidProof));
    assert_eq!(
        apply_block(&mut par, &txs, 1),
        Err(LedgerError::InvalidProof),
        "pre-pass must not launder a bad proof"
    );
}

#[test]
fn shield_joins_the_parallel_lane() {
    let n = 32;
    let (l, keys, ids) = funded(n as u8);
    let mut seq = l.clone();
    let mut par = l;
    let txs: Vec<Transaction> = (0..n / 2)
        .map(|i| {
            signed(
                Transaction::Shield {
                    token: LAT_TOKEN,
                    from: ids[i],
                    to: ids[n / 2 + i],
                    amount: 100,
                    fee: 1,
                    nonce: 0,
                    sig: [0u8; 64],
                },
                &keys[i],
            )
        })
        .collect();
    apply_in_order(&mut seq, &txs, 1).unwrap();
    apply_block(&mut par, &txs, 1).unwrap();
    assert_eq!(root(&mut par), root(&mut seq));
}

#[test]
fn barriers_stand_alone_between_waves() {
    let (_l, keys, ids) = funded(6);
    let txs = vec![
        transfer(&keys, &ids, 0, 1, 1, 0),
        transfer(&keys, &ids, 2, 3, 1, 0),
        create("WALL", ids[4], 9, &keys[4]),
        transfer(&keys, &ids, 4, 5, 1, 0),
        transfer(&keys, &ids, 5, 0, 1, 0),
    ];
    assert_eq!(block_stages(&txs), vec![vec![0, 1], vec![2], vec![3], vec![4]]);
}

#[test]
fn work_is_shared_out_evenly() {
    assert_eq!(chunk_len(MIN_PARALLEL - 1, 4), MIN_PARALLEL - 1);
    assert_eq!(chunk_len(9, 1), 9);
    assert_eq!(chunk_len(9, 4), 3);
    assert_eq!(chunk_len(10, 4), 3);
    assert_eq!(chunk_len(9, 20), 1);
    assert_eq!(share(5, 2), 3);
    assert_eq!(share(2, 8), 1);
    assert_eq!(
        first_error(&[(7, LedgerError::BadNonce), (3, LedgerError::BadSignature)]),
        Some(LedgerError::BadSignature)
    );
    assert_eq!(first_error(&[]), None);
}
