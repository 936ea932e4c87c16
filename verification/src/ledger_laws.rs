//! What holds over any run of calls on a ledger.

use vstd::prelude::*;
use vstd::utf8::*;

use crate::apply;
use crate::boot;
use crate::bytes;
use crate::commitment;
use crate::ledger;
use crate::ledger::{DirtyKey, Ledger};
use crate::mem::MemStore;
use crate::records;
use crate::rules;
use crate::rules::{LedgerError, Reply, State};
use crate::rules_laws;
use crate::run_laws;
use crate::smt::PruneStats;
use crate::smt_model;
use crate::snapshot;
use crate::snapshot_laws;
use crate::store;
use crate::store::{Column, KVStore};
use crate::ticker;
use crate::transaction::{SolventTransfer, Transaction};

verus! {

/// Whether `now` is the ledger `was` after one call: a registration, a credit, a reward, a
/// transaction, a flush, or, where the hash does not collide, the computation of its root
/// or a prune.
pub open spec fn called<B: KVStore>(was: Ledger<B>, now: Ledger<B>) -> bool {
    &&& now.wf()
    &&& {
        ||| exists|tx: Transaction, height: u64, r: Reply, res: Result<(), LedgerError>|
            rules::within_limits(was.state(), tx, height) && #[trigger] apply::applied(
                was,
                now,
                tx,
                height,
                r,
                res,
            )
        ||| exists|id: [u8; 32], r: Result<(), LedgerError>| #[trigger]
            apply::registered(was, now, id, r)
        ||| exists|id: [u8; 32], token: u32, amount: u64| #[trigger]
            apply::public_credited(was, now, id, token, amount)
        ||| exists|id: [u8; 32], sum: [u8; 64], r: Result<(), LedgerError>| #[trigger]
            apply::genesis_credited(was, now, id, sum, r)
        ||| exists|id: [u8; 32], token: u32, amount: u64, sum: [u8; 64]| #[trigger]
            apply::rewarded(was, now, id, token, amount, sum)
        ||| ledger::flushed(was, now)
        ||| was.hash_safe() && exists|r: Option<[u8; 32]>| #[trigger]
            commitment::rooted(was, now, r)
        ||| was.hash_safe() && exists|retain: Seq<[u8; 32]>, r: Option<PruneStats>| #[trigger]
            commitment::pruned(was, now, retain, r)
    }
}

/// Whether a ledger is in order: its records are well-formed and in their one form, its
/// tree is right but for what is flagged, the next token id is told by the records, and its
/// registry and validators are sound.
pub open spec fn in_order<B: KVStore>(l: Ledger<B>) -> bool {
    &&& l.wf()
    &&& l.tidy()
    &&& l.synced()
    &&& l.next_known()
    &&& rules_laws::registry_sound(l.state())
    &&& rules_laws::validators_sound(l.state())
}

/// Whether a run of calls starts at a new ledger.
pub open spec fn from_new<B: KVStore>(run: Seq<Ledger<B>>, zero: [u8; 64]) -> bool {
    &&& run.len() > 0
    &&& ledger::fresh(run[0], zero)
    &&& run[0].objects() == Map::<Seq<u8>, Seq<u8>>::empty()
    &&& smt_model::addressed(run[0].nodes())
    &&& forall|i: int| 0 <= i < run.len() - 1 ==> #[trigger] called(run[i], run[i + 1])
}

/// A call that changes one account and flags it keeps a ledger in order.
proof fn lemma_one_account<B: KVStore>(was: Ledger<B>, now: Ledger<B>, id: [u8; 32])
    requires
        in_order(was),
        now.wf(),
        apply::same_but_dirty(was, now),
        now.state() == was.state() && now.dirty@ == was.dirty@ || (exists|a: records::AccountView|
            now.state() == #[trigger] was.state().with_account(id@, a) && now.dirty@
                == was.dirty@.push(DirtyKey::Account(id))),
    ensures
        in_order(now),
{
    assert(now.nodes() == was.nodes());
    assert(now.next_token_id == now.state().next_token);
    let more = now.dirty@;
    assert forall|k: DirtyKey| was.dirty@.contains(k) implies more.contains(k) by {
        let i = choose|i: int| 0 <= i < was.dirty@.len() && was.dirty@[i] == k;
        assert(more[i] == k);
    }
    assert forall|k: DirtyKey| !more.contains(k) implies #[trigger] commitment::leaf(
        now.state(),
        k,
    ) == commitment::leaf(was.state(), k) by {
        if now.dirty@ != was.dirty@ {
            assert(more[was.dirty@.len() as int] == DirtyKey::Account(id));
            if let DirtyKey::Account(x) = k {
                if x@ == id@ {
                    bytes::lemma_array_eq(x, id);
                }
            }
        }
    }
    commitment::law_marking_keeps_synced(was, now);
}

proof fn lemma_applied<B: KVStore>(
    was: Ledger<B>,
    now: Ledger<B>,
    tx: Transaction,
    height: u64,
    r: Reply,
    res: Result<(), LedgerError>,
)
    requires
        in_order(was),
        now.wf(),
        rules::within_limits(was.state(), tx, height),
        apply::applied(was, now, tx, height, r, res),
    ensures
        in_order(now),
{
    rules_laws::law_apply_keeps_synced(was, now, tx, height, r, res);
    assert(now.next_token_id == now.state().next_token);
    if res is Ok {
        rules_laws::law_registry_stays_sound(was.state(), tx, height, r);
        rules_laws::law_drained_validators_leave(was.state(), tx, height, r);
        if !(tx is CreateToken) {
            rules_laws::lemma_next_token_stays(was.state(), tx, height, r);
        }
    }
}

/// Every call keeps a ledger in order.
pub proof fn law_calls_keep_order<B: KVStore>(was: Ledger<B>, now: Ledger<B>)
    requires
        in_order(was),
        called(was, now),
    ensures
        in_order(now),
{
    if exists|tx: Transaction, height: u64, r: Reply, res: Result<(), LedgerError>|
        rules::within_limits(was.state(), tx, height) && #[trigger] apply::applied(
            was,
            now,
            tx,
            height,
            r,
            res,
        ) {
        let (tx, height, r, res) = choose|
            tx: Transaction,
            height: u64,
            r: Reply,
            res: Result<(), LedgerError>,
        |
            rules::within_limits(was.state(), tx, height) && #[trigger] apply::applied(
                was,
                now,
                tx,
                height,
                r,
                res,
            );
        lemma_applied(was, now, tx, height, r, res);
    } else if exists|id: [u8; 32], r: Result<(), LedgerError>| #[trigger]
        apply::registered(was, now, id, r) {
        let (id, r) = choose|id: [u8; 32], r: Result<(), LedgerError>| #[trigger]
            apply::registered(was, now, id, r);
        lemma_one_account(was, now, id);
    } else if exists|id: [u8; 32], token: u32, amount: u64| #[trigger]
        apply::public_credited(was, now, id, token, amount) {
        let (id, token, amount) = choose|id: [u8; 32], token: u32, amount: u64| #[trigger]
            apply::public_credited(was, now, id, token, amount);
        lemma_one_account(was, now, id);
    } else if exists|id: [u8; 32], sum: [u8; 64], r: Result<(), LedgerError>| #[trigger]
        apply::genesis_credited(was, now, id, sum, r) {
        let (id, sum, r) = choose|id: [u8; 32], sum: [u8; 64], r: Result<(), LedgerError>|
            #[trigger]
            apply::genesis_credited(was, now, id, sum, r);
        lemma_one_account(was, now, id);
    } else if exists|id: [u8; 32], token: u32, amount: u64, sum: [u8; 64]| #[trigger]
        apply::rewarded(was, now, id, token, amount, sum) {
        let (id, token, amount, sum) = choose|
            id: [u8; 32],
            token: u32,
            amount: u64,
            sum: [u8; 64],
        | #[trigger]
            apply::rewarded(was, now, id, token, amount, sum);
        lemma_one_account(was, now, id);
    } else if !ledger::flushed(was, now) {
        assert(now.objects() == was.objects());
    }
}

/// A ledger that any run of calls leads to from a new one is in order.
pub proof fn law_ledger_stays_in_order<B: KVStore>(run: Seq<Ledger<B>>, zero: [u8; 64])
    requires
        from_new(run, zero),
    ensures
        in_order(run.last()),
    decreases run.len(),
{
    if run.len() == 1 {
        let l = run[0];
        commitment::law_fresh_synced(l, zero);
        assert(l.next_token_id == l.state().next_token);
    } else {
        let h = run.drop_last();
        assert forall|i: int| 0 <= i < h.len() - 1 implies #[trigger] called(h[i], h[i + 1]) by {
            assert(called(run[i], run[i + 1]));
        }
        law_ledger_stays_in_order(h, zero);
        let i = run.len() - 2;
        assert(called(run[i], run[i + 1]));
        law_calls_keep_order(run[i], run[i + 1]);
    }
}

/// The incremental root is that of a full rebuild: after any run of calls the root commits
/// to the state alone, and a ledger decoded from the snapshot has the same one. Computing
/// it again gives the same root and changes no record. All this holds unless the hash
/// collides on what is hashed for those roots.
pub proof fn law_root_matches_rebuild<B: KVStore>(
    run: Seq<Ledger<B>>,
    zero: [u8; 64],
    now: Ledger<B>,
    r: Option<[u8; 32]>,
    then: Ledger<B>,
    again: Option<[u8; 32]>,
    d: Ledger<MemStore>,
)
    requires
        from_new(run, zero),
        run.last().hash_safe(),
        commitment::rooted(run.last(), now, r),
        now.hash_safe(),
        commitment::rooted(now, then, again),
        snapshot::countable(run.last().objects()),
        snapshot::decodes(
            snapshot::snapshot(run.last().objects(), run.last().next_token_id),
            run.last().zero,
            Some(d),
        ),
        snapshot::rebuilt_safely(
            snapshot::parsed(
                snapshot::snapshot(run.last().objects(), run.last().next_token_id),
                run.last().zero,
            )->0,
        ),
    ensures
        r is Some,
        (r->0)@ == smt_model::root_of(commitment::committed(run.last().state())),
        d.state() == run.last().state(),
        d.root@ == (r->0)@,
        again is Some,
        (again->0)@ == (r->0)@,
        now.objects() == run.last().objects(),
        then.objects() == run.last().objects(),
{
    law_ledger_stays_in_order(run, zero);
    snapshot_laws::law_snapshot_encodes_again(run.last(), d);
}

/// A restart gives back what was there: after any run of calls the records boot the state
/// of the ledger that wrote them.
pub proof fn law_restart_restores<B: KVStore>(run: Seq<Ledger<B>>, zero: [u8; 64])
    requires
        from_new(run, zero),
    ensures
        boot::booted(run.last().objects(), run.last().zero) == run.last().state(),
        run.last().objects().dom().len() > 0 ==> boot::bootable(run.last().objects()),
{
    law_ledger_stays_in_order(run, zero);
    boot::law_records_restore(run.last());
}

// --- one transaction -------------------------------------------------------------------

/// A refused transaction changes nothing: every pair of the store, the next token id, the
/// root, the flagged entries and the base are as they were.
pub proof fn law_refusal_changes_nothing<B: KVStore>(
    was: Ledger<B>,
    now: Ledger<B>,
    tx: Transaction,
    height: u64,
    r: Reply,
    e: LedgerError,
)
    requires
        apply::applied(was, now, tx, height, r, Err(e)),
    ensures
        now.state() == was.state(),
        now.store.holds() == was.store.holds(),
        now.store.base_value() == was.store.base_value(),
        now.next_token_id == was.next_token_id,
        now.root == was.root,
        now.dirty@ == was.dirty@,
        now.max_validators == was.max_validators,
        now.zero == was.zero,
{
    let (a, b) = (was.store.holds(), now.store.holds());
    assert forall|p: (Column, Seq<u8>)| {
        &&& #[trigger] b.contains_key(p) == a.contains_key(p)
        &&& a.contains_key(p) ==> b[p] == a[p]
    } by {
        let (c, k) = p;
        assert(store::column(b, c) == store::column(a, c));
        assert(store::column(a, c).contains_key(k) == a.contains_key(p));
        assert(store::column(b, c).contains_key(k) == b.contains_key(p));
        if a.contains_key(p) {
            assert(store::column(a, c)[k] == a[p]);
            assert(store::column(b, c)[k] == b[p]);
        }
    }
    assert(b =~= a);
}

/// A solvent transfer that a ledger applied: the sender's nonce was the transfer's and
/// rises by one, its spendable balance becomes the first sum that the cryptography layer
/// gave, the receiver's pending balance the second. Nobody else's account changes, and the
/// ledger then refuses the transfer for its nonce, at whatever height.
pub proof fn law_solvent_transfer_moves<B: KVStore>(
    was: Ledger<B>,
    now: Ledger<B>,
    token: u32,
    xfer: SolventTransfer,
    height: u64,
    r: Reply,
    other: Seq<u8>,
)
    requires
        apply::applied(
            was,
            now,
            Transaction::SolventTransfer { token, xfer },
            height,
            r,
            Ok(()),
        ),
        xfer.sender@ != xfer.receiver@,
        was.state().account(xfer.sender@).nonce < u64::MAX,
        other != xfer.sender@,
        other != xfer.receiver@,
    ensures
        ({
            let (st, new) = (was.state(), now.state());
            let (from, to) = (xfer.sender@, xfer.receiver@);
            &&& xfer.nonce == st.account(from).nonce
            &&& new.account(from) == st.account(from).with_balance(token, r.terms[0]).spent()
            &&& new.account(from).nonce == xfer.nonce + 1
            &&& new.account(from).balance(token, st.zero) == r.terms[0]
            &&& new.account(to) == st.account(to).with_pending(token, r.terms[1])
            &&& new.account(to).pending_of(token, st.zero) == r.terms[1]
            &&& new.account(to).balances == st.account(to).balances
            &&& new.account(to).nonce == st.account(to).nonce
            &&& new.account(other) == st.account(other)
            &&& new.registered(other) == st.registered(other)
            &&& new == (State { accounts: new.accounts, ..st })
        }),
        forall|end: Ledger<B>, later: u64, again: Reply, res: Result<(), LedgerError>| #[trigger]
            apply::applied(
                now,
                end,
                Transaction::SolventTransfer { token, xfer },
                later,
                again,
                res,
            ) ==> res == Err::<(), LedgerError>(LedgerError::BadNonce),
{
    rules_laws::law_solvent_transfer(was.state(), token, xfer, r, other, r);
    assert forall|end: Ledger<B>, later: u64, again: Reply, res: Result<(), LedgerError>|
        #[trigger] apply::applied(
            now,
            end,
            Transaction::SolventTransfer { token, xfer },
            later,
            again,
            res,
        ) implies res == Err::<(), LedgerError>(LedgerError::BadNonce) by {
        rules_laws::law_solvent_transfer(was.state(), token, xfer, r, other, again);
    }
}

// --- tickers over a run of calls -------------------------------------------------------

/// Whether two states give a ticker to the same token, as it was made.
pub open spec fn same_token(st: State, now: State, t: Seq<u8>) -> bool {
    &&& now.tickers.contains_key(t)
    &&& now.tickers[t] == st.tickers[t]
    &&& now.tokens.contains_key(st.tickers[t])
    &&& now.tokens[st.tickers[t]] == st.tokens[st.tickers[t]]
}

proof fn lemma_step_keeps_token(st: State, tx: Transaction, height: u64, r: Reply, t: Seq<u8>)
    requires
        rules_laws::registry_sound(st),
        st.tickers.contains_key(t),
        rules::within_limits(st, tx, height),
        rules::step(st, tx, height, r) is Ok,
    ensures
        same_token(st, rules::step(st, tx, height, r)->Ok_0, t),
{
    let one: Seq<run_laws::Try> = seq![(tx, height, r)];
    assert(one.drop_last() =~= Seq::empty());
    assert(run_laws::after(st, one.drop_last()) == st);
    assert(run_laws::within_limits(st, one.drop_last()));
    run_laws::lemma_token_run(st, one, t);
    assert(run_laws::after(st, one) == rules::step(st, tx, height, r)->Ok_0);
}

proof fn lemma_call_keeps_token<B: KVStore>(was: Ledger<B>, now: Ledger<B>, t: Seq<u8>)
    requires
        in_order(was),
        called(was, now),
        was.state().tickers.contains_key(t),
    ensures
        same_token(was.state(), now.state(), t),
{
    if exists|tx: Transaction, height: u64, r: Reply, res: Result<(), LedgerError>|
        rules::within_limits(was.state(), tx, height) && #[trigger] apply::applied(
            was,
            now,
            tx,
            height,
            r,
            res,
        ) {
        let (tx, height, r, res) = choose|
            tx: Transaction,
            height: u64,
            r: Reply,
            res: Result<(), LedgerError>,
        |
            rules::within_limits(was.state(), tx, height) && #[trigger] apply::applied(
                was,
                now,
                tx,
                height,
                r,
                res,
            );
        if res is Ok {
            lemma_step_keeps_token(was.state(), tx, height, r, t);
        }
    } else {
        assert(now.state().tickers == was.state().tickers);
        assert(now.state().tokens == was.state().tokens);
    }
}

proof fn lemma_next_keeps_token<B: KVStore>(
    first: Ledger<B>,
    was: Ledger<B>,
    now: Ledger<B>,
    t: Seq<u8>,
)
    requires
        in_order(was),
        called(was, now),
        same_token(first.state(), was.state(), t),
    ensures
        in_order(now),
        same_token(first.state(), now.state(), t),
{
    law_calls_keep_order(was, now);
    lemma_call_keeps_token(was, now, t);
}

/// One ticker, ever: over any run of calls a ticker leads to the token that first took it,
/// as it was made, and a ledger refuses to create another under any spelling that means
/// it, whoever asks, and stays as it is.
pub proof fn law_ticker_stays_taken<B: KVStore>(
    run: Seq<Ledger<B>>,
    t: Seq<u8>,
    end: Ledger<B>,
    tx: Transaction,
    height: u64,
    r: Reply,
    res: Result<(), LedgerError>,
)
    requires
        run.len() > 0,
        in_order(run[0]),
        forall|i: int| 0 <= i < run.len() - 1 ==> #[trigger] called(run[i], run[i + 1]),
        run[0].state().tickers.contains_key(t),
        apply::applied(run.last(), end, tx, height, r, res),
    ensures
        same_token(run[0].state(), run.last().state(), t),
        tx matches Transaction::CreateToken { ticker, .. } && r.signatures && ticker::normal(
            ticker@,
        ) is Some && encode_utf8(ticker::normal(ticker@)->0) == t ==> {
            &&& res == Err::<(), LedgerError>(LedgerError::TickerTaken)
            &&& end.state() == run.last().state()
        },
{
    lemma_run_keeps_token(run, t);
}

proof fn lemma_run_keeps_token<B: KVStore>(run: Seq<Ledger<B>>, t: Seq<u8>)
    requires
        run.len() > 0,
        in_order(run[0]),
        forall|i: int| 0 <= i < run.len() - 1 ==> #[trigger] called(run[i], run[i + 1]),
        run[0].state().tickers.contains_key(t),
    ensures
        in_order(run.last()),
        same_token(run[0].state(), run.last().state(), t),
    decreases run.len(),
{
    if run.len() > 1 {
        let h = run.drop_last();
        assert forall|i: int| 0 <= i < h.len() - 1 implies #[trigger] called(h[i], h[i + 1]) by {
            assert(called(run[i], run[i + 1]));
        }
        lemma_run_keeps_token(h, t);
        let i = run.len() - 2;
        lemma_next_keeps_token(run[0], run[i], run[i + 1], t);
    }
}

} // verus!
