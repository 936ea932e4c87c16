//! What holds of the ledger's rules as a whole.

use vstd::prelude::*;
use vstd::utf8::*;

use crate::apply;
use crate::bytes;
use crate::commitment;
use crate::hashing;
use crate::ledger::{DirtyKey, Ledger};
use crate::queries;
use crate::records::{AccountView, ValidatorView};
use crate::rules;
use crate::rules::{LedgerError, Reply, State, Term};
use crate::store::KVStore;
use crate::ticker;
use crate::transaction::{SolventTransfer, Transaction};
use crate::vm;

verus! {

// --- replay -------------------------------------------------------------------

/// A transaction that was just applied is refused, at whatever height and whatever the
/// cryptography layer says of it then.
pub proof fn law_no_replay(
    st: State,
    tx: Transaction,
    height: u64,
    r: Reply,
    later: u64,
    again: Reply,
)
    requires
        rules::within_limits(st, tx, height),
        rules::step(st, tx, height, r) is Ok,
    ensures
        rules::step(rules::step(st, tx, height, r)->Ok_0, tx, later, again) is Err,
{
    let st2 = rules::step(st, tx, height, r)->Ok_0;
    match tx {
        Transaction::SlashEvidence { validator, beneficiary, .. } => {
            assert(st2.validator(validator@) == rules::slashed(st.validator(validator@)));
        },
        Transaction::Stake { validator, .. } => {
            assert(st2.account(validator@).nonce == st.account(validator@).nonce + 1);
        },
        Transaction::Unstake { validator, .. } => {
            assert(st2.account(validator@).nonce == st.account(validator@).nonce + 1);
        },
        Transaction::SolventTransfer { xfer, .. } => {
            assert(st2.account(xfer.sender@).nonce == st.account(xfer.sender@).nonce + 1);
        },
        Transaction::Unshield { xfer, .. } => {
            assert(st2.account(xfer.sender@).nonce == st.account(xfer.sender@).nonce + 1);
        },
        Transaction::Rollover { account, .. } => {
            let a = st.account(account@);
            let ks = crate::ordered::order_32(a.pending.dom());
            lemma_rolled_nonce(a, ks, r.terms, st.zero, ks.len());
            assert(st2.account(account@).nonce == a.nonce + 1);
        },
        _ => {},
    }
}

pub proof fn lemma_rolled_nonce(
    a: AccountView,
    ks: Seq<u32>,
    sums: Seq<[u8; 64]>,
    zero: [u8; 64],
    n: nat,
)
    ensures
        rules::rolled(a, ks, sums, zero, n).nonce == a.nonce,
        rules::rolled(a, ks, sums, zero, n).public == a.public,
    decreases n,
{
    if n > 0 {
        lemma_rolled_nonce(a, ks, sums, zero, (n - 1) as nat);
    }
}

pub proof fn lemma_debited_rest(
    st: State,
    token: u32,
    ring: Seq<[u8; 32]>,
    left: Seq<[u8; 64]>,
    n: nat,
    x: Seq<u8>,
)
    requires
        n <= ring.len(),
    ensures
        ({
            let d = rules::debited(st, token, ring, left, n);
            &&& d.account(x).nonce == st.account(x).nonce
            &&& d.account(x).public == st.account(x).public
            &&& d.account(x).pending == st.account(x).pending
            &&& (forall|j: int| 0 <= j < n ==> #[trigger] ring[j]@ != x) ==> {
                &&& d.account(x) == st.account(x)
                &&& d.registered(x) == st.registered(x)
            }
            &&& d == (State { accounts: d.accounts, ..st })
        }),
    decreases n,
{
    if n > 0 {
        lemma_debited_rest(st, token, ring, left, (n - 1) as nat, x);
        assert(ring[n - 1]@ == ring[n - 1]@);
    }
}

/// A nonce never falls, and rises by at most one per transaction.
pub proof fn law_nonces_only_rise(st: State, tx: Transaction, height: u64, r: Reply, id: Seq<u8>)
    requires
        rules::within_limits(st, tx, height),
        rules::step(st, tx, height, r) is Ok,
    ensures
        ({
            let now = rules::step(st, tx, height, r)->Ok_0.account(id).nonce;
            now == st.account(id).nonce || now == st.account(id).nonce + 1
        }),
{
    match tx {
        Transaction::Rollover { account, .. } => {
            let a = st.account(account@);
            let ks = crate::ordered::order_32(a.pending.dom());
            lemma_rolled_nonce(a, ks, r.terms, st.zero, ks.len());
        },
        Transaction::AnonTransfer { token, xfer } => {
            lemma_debited_rest(st, token, xfer.ring@, r.terms, xfer.ring@.len(), id);
            lemma_debited_rest(st, token, xfer.ring@, r.terms, xfer.ring@.len(), xfer.one_time@);
        },
        _ => {},
    }
}

// --- tickers --------------------------------------------------------------------

/// Whether the registry is in order: each token stands under its id, below the
/// next one, its ticker leads to it, and every ticker leads to a token of that
/// ticker.
pub open spec fn registry_sound(st: State) -> bool {
    &&& forall|id: u32| #[trigger]
        st.tokens.contains_key(id) ==> {
            &&& st.tokens[id].id == id
            &&& id < st.next_token
            &&& st.tickers.contains_key(st.tokens[id].ticker)
            &&& st.tickers[st.tokens[id].ticker] == id
        }
    &&& forall|t: Seq<u8>| #[trigger]
        st.tickers.contains_key(t) ==> {
            &&& st.tokens.contains_key(st.tickers[t])
            &&& st.tokens[st.tickers[t]].ticker == t
        }
}

/// A new token keeps the registry in order.
pub proof fn lemma_created_sound(
    st: State,
    ticker: Seq<char>,
    creator: Seq<u8>,
    supply: u64,
    r: Reply,
)
    requires
        registry_sound(st),
        st.next_token < u32::MAX,
        rules::step_create_token(st, ticker, creator, supply, r) is Ok,
    ensures
        registry_sound(rules::step_create_token(st, ticker, creator, supply, r)->Ok_0),
{
    let now = rules::step_create_token(st, ticker, creator, supply, r)->Ok_0;
    let t = encode_utf8(ticker::normal(ticker)->0);
    let id = st.next_token;
    assert(!st.tokens.contains_key(id));
    assert forall|x: u32| #[trigger] now.tokens.contains_key(x) implies {
        &&& now.tokens[x].id == x
        &&& x < now.next_token
        &&& now.tickers.contains_key(now.tokens[x].ticker)
        &&& now.tickers[now.tokens[x].ticker] == x
    } by {
        if x != id {
            assert(st.tokens.contains_key(x));
            assert(st.tokens[x].ticker != t);
        }
    }
    assert forall|x: Seq<u8>| #[trigger] now.tickers.contains_key(x) implies {
        &&& now.tokens.contains_key(now.tickers[x])
        &&& now.tokens[now.tickers[x]].ticker == x
    } by {
        if x != t {
            assert(st.tickers.contains_key(x));
            assert(st.tickers[x] != id);
        }
    }
}

/// No transaction brings the registry out of order.
pub proof fn law_registry_stays_sound(st: State, tx: Transaction, height: u64, r: Reply)
    requires
        registry_sound(st),
        rules::within_limits(st, tx, height),
        rules::step(st, tx, height, r) is Ok,
    ensures
        registry_sound(rules::step(st, tx, height, r)->Ok_0),
{
    let now = rules::step(st, tx, height, r)->Ok_0;
    match tx {
        Transaction::CreateToken { ticker, creator, supply, .. } => {
            lemma_created_sound(st, ticker@, creator@, supply, r);
        },
        Transaction::AnonTransfer { token, xfer } => {
            lemma_debited_rest(st, token, xfer.ring@, r.terms, xfer.ring@.len(), xfer.one_time@);
            assert(now.tokens == st.tokens && now.tickers == st.tickers && now.next_token
                == st.next_token);
        },
        _ => {
            assert(now.tokens == st.tokens && now.tickers == st.tickers && now.next_token
                == st.next_token);
        },
    }
}

/// Only a created token takes the next id.
pub proof fn lemma_next_token_stays(st: State, tx: Transaction, height: u64, r: Reply)
    requires
        !(tx is CreateToken),
        rules::step(st, tx, height, r) is Ok,
    ensures
        rules::step(st, tx, height, r)->Ok_0.next_token == st.next_token,
{
    if let Transaction::AnonTransfer { token, xfer } = tx {
        lemma_debited_rest(st, token, xfer.ring@, r.terms, xfer.ring@.len(), xfer.one_time@);
    }
}

/// Two tokens of one ticker are one.
pub proof fn law_tickers_unique(st: State, a: u32, b: u32)
    requires
        registry_sound(st),
        st.tokens.contains_key(a),
        st.tokens.contains_key(b),
        st.tokens[a].ticker == st.tokens[b].ticker,
    ensures
        a == b,
{
}

/// A ticker that some token has is refused in every spelling that means it.
pub proof fn law_taken_ticker_refused(
    st: State,
    id: u32,
    spelling: Seq<char>,
    creator: Seq<u8>,
    supply: u64,
    r: Reply,
)
    requires
        registry_sound(st),
        st.tokens.contains_key(id),
        ticker::normal(spelling) is Some,
        encode_utf8(ticker::normal(spelling)->0) == st.tokens[id].ticker,
        r.signatures,
    ensures
        rules::step_create_token(st, spelling, creator, supply, r) == Err::<State, LedgerError>(
            LedgerError::TickerTaken,
        ),
{
}

// --- value ------------------------------------------------------------------------

/// A transparent transfer moves value and makes none: the sender loses amount
/// and fee, the receiver gains the amount, nobody else's public balance changes.
pub proof fn law_public_transfer_conserves(
    st: State,
    token: u32,
    from: Seq<u8>,
    to: Seq<u8>,
    amount: u64,
    fee: u64,
    nonce: u64,
    r: Reply,
    other: Seq<u8>,
    t: u32,
)
    requires
        rules::step_public(st, token, from, to, amount, fee, nonce, r) is Ok,
        from != to ==> st.account(to).public_of(token) + amount <= u64::MAX,
        other != from,
        other != to,
    ensures
        ({
            let now = rules::step_public(st, token, from, to, amount, fee, nonce, r)->Ok_0;
            &&& from != to ==> {
                &&& now.account(from).public_of(token) == st.account(from).public_of(token) - amount
                    - fee
                &&& now.account(to).public_of(token) == st.account(to).public_of(token) + amount
            }
            &&& from == to ==> now.account(from).public_of(token) == st.account(from).public_of(
                token,
            ) - fee
            &&& now.account(other) == st.account(other)
            &&& t != token ==> {
                &&& now.account(from).public_of(t) == st.account(from).public_of(t)
                &&& now.account(to).public_of(t) == st.account(to).public_of(t)
            }
        }),
{
}

/// A shield takes amount and fee out of the sender's public balance, and leaves
/// the receiver's public and spendable balances alone.
pub proof fn law_shield_debits(
    st: State,
    token: u32,
    from: Seq<u8>,
    to: Seq<u8>,
    amount: u64,
    fee: u64,
    nonce: u64,
    r: Reply,
)
    requires
        rules::step_shield(st, token, from, to, amount, fee, nonce, r) is Ok,
    ensures
        ({
            let now = rules::step_shield(st, token, from, to, amount, fee, nonce, r)->Ok_0;
            &&& now.account(from).public_of(token) == st.account(from).public_of(token) - amount
                - fee
            &&& now.account(to).balances == st.account(to).balances
            &&& from != to ==> now.account(to).public == st.account(to).public
            &&& now.account(to).pending_of(token, st.zero) == r.terms[0]
        }),
{
}

/// A solvent transfer between two accounts: the sender's nonce rises by one and its
/// spendable balance becomes what the cryptography layer was asked for, the balance less
/// the sent amount and the fee. The receiver's pending balance becomes the sum that was
/// asked for; its spendable balance and its nonce stay. Nothing else changes, and a second
/// application is refused for its nonce.
pub proof fn law_solvent_transfer(
    st: State,
    token: u32,
    xfer: SolventTransfer,
    r: Reply,
    other: Seq<u8>,
    again: Reply,
)
    requires
        rules::step_solvent(st, token, xfer, r) is Ok,
        xfer.sender@ != xfer.receiver@,
        st.account(xfer.sender@).nonce < u64::MAX,
        other != xfer.sender@,
        other != xfer.receiver@,
    ensures
        rules::terms(st, Transaction::SolventTransfer { token, xfer }) == seq![
            Term::Less {
                a: st.account(xfer.sender@).balance(token, st.zero),
                b: xfer.sender_ct,
                fee: xfer.fee,
            },
            Term::Sum {
                a: st.account(xfer.receiver@).pending_of(token, st.zero),
                b: xfer.receiver_ct,
            },
        ],
        ({
            let now = rules::step_solvent(st, token, xfer, r)->Ok_0;
            let (from, to) = (xfer.sender@, xfer.receiver@);
            &&& xfer.nonce == st.account(from).nonce
            &&& now.account(from) == st.account(from).with_balance(token, r.terms[0]).spent()
            &&& now.account(from).nonce == xfer.nonce + 1
            &&& now.account(from).balance(token, st.zero) == r.terms[0]
            &&& now.account(to) == st.account(to).with_pending(token, r.terms[1])
            &&& now.account(to).pending_of(token, st.zero) == r.terms[1]
            &&& now.account(to).balances == st.account(to).balances
            &&& now.account(to).nonce == st.account(to).nonce
            &&& now.account(other) == st.account(other)
            &&& now.registered(other) == st.registered(other)
            &&& now == (State { accounts: now.accounts, ..st })
            &&& rules::step_solvent(now, token, xfer, again) == Err::<State, LedgerError>(
                LedgerError::BadNonce,
            )
        }),
{
}

/// Whose spendable balance a transaction may change: the one who spends.
pub open spec fn spends(tx: Transaction, id: Seq<u8>) -> bool {
    match tx {
        Transaction::CreateToken { creator, .. } => creator@ == id,
        Transaction::SolventTransfer { xfer, .. } => xfer.sender@ == id,
        Transaction::Rollover { account, .. } => account@ == id,
        Transaction::Unshield { xfer, .. } => xfer.sender@ == id,
        Transaction::AnonTransfer { xfer, .. } => exists|i: int|
            0 <= i < xfer.ring@.len() && #[trigger] xfer.ring@[i]@ == id,
        _ => false,
    }
}

/// What comes in lands in the pending pool: a transaction never changes the
/// spendable balance of an account that does not spend in it, so the proof of an
/// outgoing transfer in flight stays good.
pub proof fn law_incoming_keeps_spendable(
    st: State,
    tx: Transaction,
    height: u64,
    r: Reply,
    id: Seq<u8>,
)
    requires
        rules::step(st, tx, height, r) is Ok,
        !spends(tx, id),
    ensures
        rules::step(st, tx, height, r)->Ok_0.account(id).balances == st.account(id).balances,
{
    match tx {
        Transaction::AnonTransfer { token, xfer } => {
            let n = xfer.ring@.len();
            lemma_debited_rest(st, token, xfer.ring@, r.terms, n, id);
            lemma_debited_rest(st, token, xfer.ring@, r.terms, n, xfer.one_time@);
        },
        _ => {},
    }
}

// --- staking ------------------------------------------------------------------------

proof fn lemma_matured_total(u: Seq<(u64, u64)>, height: u64)
    ensures
        rules::total(rules::matured(u, height)) + rules::total(rules::waiting(u, height))
            == rules::total(u),
    decreases u.len(),
{
    if u.len() > 0 {
        lemma_matured_total(u.drop_last(), height);
        let m = rules::matured(u.drop_last(), height);
        let w = rules::waiting(u.drop_last(), height);
        assert(m.push(u.last()).drop_last() =~= m);
        assert(w.push(u.last()).drop_last() =~= w);
    }
}

/// Everything an account holds in public LAT, bonded or not.
pub open spec fn lat_worth(st: State, id: Seq<u8>) -> int {
    st.account(id).public_of(rules::LAT_TOKEN) + st.validator(id).staked + rules::total(
        st.validator(id).unbonding,
    )
}

/// Bonding moves LAT and makes none: what an account holds in public, bonded and
/// unbonding LAT together stays the same.
pub proof fn law_stake_conserves(
    st: State,
    id: Seq<u8>,
    amount: u64,
    nonce: u64,
    height: u64,
    r: Reply,
)
    requires
        rules::step_stake(st, id, amount, nonce, height, r) is Ok,
        lat_worth(st, id) <= u64::MAX,
    ensures
        lat_worth(rules::step_stake(st, id, amount, nonce, height, r)->Ok_0, id) == lat_worth(
            st,
            id,
        ),
{
    let v = st.validator(id);
    lemma_matured_total(v.unbonding, height);
    let w = ValidatorView {
        staked: rules::sat(v.staked as int, amount as int),
        unbonding: rules::waiting(v.unbonding, height),
        tombstoned: v.tombstoned,
    };
    let now = rules::step_stake(st, id, amount, nonce, height, r)->Ok_0;
    if w.drained() {
        assert(now.validator(id) == ValidatorView::empty());
    } else {
        assert(now.validator(id) == w);
    }
}

/// Unbonding moves LAT and makes none either.
pub proof fn law_unstake_conserves(
    st: State,
    id: Seq<u8>,
    amount: u64,
    nonce: u64,
    height: u64,
    r: Reply,
)
    requires
        rules::step_unstake(st, id, amount, nonce, height, r) is Ok,
        lat_worth(st, id) <= u64::MAX,
    ensures
        lat_worth(rules::step_unstake(st, id, amount, nonce, height, r)->Ok_0, id) == lat_worth(
            st,
            id,
        ),
{
    let v = st.validator(id);
    lemma_matured_total(v.unbonding, height);
    let left = rules::waiting(v.unbonding, height);
    let entry = (amount, (height + rules::UNBONDING_BLOCKS) as u64);
    assert(left.push(entry).drop_last() =~= left);
    let w = ValidatorView {
        staked: (v.staked - amount) as u64,
        unbonding: if amount > 0 {
            left.push(entry)
        } else {
            left
        },
        tombstoned: v.tombstoned,
    };
    let now = rules::step_unstake(st, id, amount, nonce, height, r)->Ok_0;
    if w.drained() {
        assert(now.validator(id) == ValidatorView::empty());
    } else {
        assert(now.validator(id) == w);
    }
}

/// Whether every validator with a record has something in it.
pub open spec fn validators_sound(st: State) -> bool {
    forall|id: Seq<u8>| #[trigger]
        st.validators.contains_key(id) ==> !st.validators[id].drained()
}

/// A validator that holds nothing has no record, whatever is applied: one that is left
/// without stake, unbonding funds and tombstone goes.
pub proof fn law_drained_validators_leave(st: State, tx: Transaction, height: u64, r: Reply)
    requires
        validators_sound(st),
        rules::step(st, tx, height, r) is Ok,
    ensures
        validators_sound(rules::step(st, tx, height, r)->Ok_0),
{
    let now = rules::step(st, tx, height, r)->Ok_0;
    if let Transaction::AnonTransfer { token, xfer } = tx {
        lemma_debit_keeps(st, token, xfer.ring@, r.terms, xfer.ring@.len(), Seq::empty());
    }
    assert forall|id: Seq<u8>| #[trigger]
        now.validators.contains_key(id) implies !now.validators[id].drained() by {
        if st.validators.contains_key(id) {
            assert(!st.validators[id].drained());
        }
    }
}

/// Debiting ring members removes no account and leaves the rest of the state alone.
proof fn lemma_debit_keeps(
    st: State,
    token: u32,
    ring: Seq<[u8; 32]>,
    left: Seq<[u8; 64]>,
    n: nat,
    id: Seq<u8>,
)
    ensures
        st.registered(id) ==> rules::debited(st, token, ring, left, n).registered(id),
        rules::debited(st, token, ring, left, n).nullifiers == st.nullifiers,
        rules::debited(st, token, ring, left, n).validators == st.validators,
    decreases n,
{
    if n > 0 {
        lemma_debit_keeps(st, token, ring, left, (n - 1) as nat, id);
    }
}

/// A nullifier is never forgotten: an anonymous spend stays spent.
pub proof fn law_nullifiers_stay(
    st: State,
    tx: Transaction,
    height: u64,
    r: Reply,
    nullifier: Seq<u8>,
)
    requires
        st.nullifiers.contains(nullifier),
        rules::step(st, tx, height, r) is Ok,
    ensures
        rules::step(st, tx, height, r)->Ok_0.nullifiers.contains(nullifier),
{
    if let Transaction::AnonTransfer { token, xfer } = tx {
        lemma_debit_keeps(st, token, xfer.ring@, r.terms, xfer.ring@.len(), Seq::empty());
    }
}

/// An account that is registered stays registered.
pub proof fn law_accounts_stay(st: State, tx: Transaction, height: u64, r: Reply, id: Seq<u8>)
    requires
        st.registered(id),
        rules::step(st, tx, height, r) is Ok,
    ensures
        rules::step(st, tx, height, r)->Ok_0.registered(id),
{
    if let Transaction::AnonTransfer { token, xfer } = tx {
        lemma_debit_keeps(st, token, xfer.ring@, r.terms, xfer.ring@.len(), id);
    }
}

/// Funds do not leave their delay window early: an entry is released only by a
/// transaction in a block at its release height or later.
pub proof fn law_release_waits(u: Seq<(u64, u64)>, height: u64, i: int)
    requires
        0 <= i < rules::matured(u, height).len(),
    ensures
        rules::matured(u, height)[i].1 <= height,
        u.contains(rules::matured(u, height)[i]),
    decreases u.len(),
{
    let h = u.drop_last();
    let m = rules::matured(h, height);
    if u.len() > 0 {
        if i < m.len() {
            law_release_waits(h, height, i);
            let x = choose|x: int| 0 <= x < h.len() && h[x] == m[i];
            assert(u[x] == m[i]);
        } else {
            assert(u[u.len() - 1] == u.last());
        }
    }
}

pub proof fn lemma_positive_total(u: Seq<(u64, u64)>)
    ensures
        rules::total(rules::positive(u)) == rules::total(u),
    decreases u.len(),
{
    if u.len() > 0 {
        lemma_positive_total(u.drop_last());
        let p = rules::positive(u.drop_last());
        assert(p.push(u.last()).drop_last() =~= p);
    }
}

proof fn lemma_reduced_total(u: Seq<(u64, u64)>, rest: int, n: int)
    requires
        0 <= rest,
        0 <= n <= u.len(),
    ensures
        rules::total(rules::reduced(u, rest).take(n)) == if rest <= rules::total(u.take(n)) {
            rules::total(u.take(n)) - rest
        } else {
            0
        },
    decreases n,
{
    let d = rules::reduced(u, rest);
    if n > 0 {
        lemma_reduced_total(u, rest, n - 1);
        assert(d.take(n).drop_last() =~= d.take(n - 1));
        assert(u.take(n).drop_last() =~= u.take(n - 1));
    }
}

/// A slash takes the penalty, a tenth of the stake and at least one unit, out of
/// bonded and unbonding stake together; it never takes more than there is, and
/// the submitter's reward is at most a twentieth of it.
pub proof fn law_slash_takes_the_penalty(v: ValidatorView)
    requires
        v.staked + rules::total(v.unbonding) <= u64::MAX,
        rules::at_stake(v) > 0,
    ensures
        1 <= rules::penalty(v) <= rules::at_stake(v),
        rules::slashed(v).staked + rules::total(rules::slashed(v).unbonding) == v.staked
            + rules::total(v.unbonding) - rules::penalty(v),
        rules::slashed(v).tombstoned,
        rules::reward(v) * 20 <= rules::penalty(v),
{
    let bonded = if rules::penalty(v) < v.staked {
        rules::penalty(v)
    } else {
        v.staked
    };
    let rest = rules::penalty(v) - bonded;
    lemma_reduced_total(v.unbonding, rest, v.unbonding.len() as int);
    assert(v.unbonding.take(v.unbonding.len() as int) =~= v.unbonding);
    let d = rules::reduced(v.unbonding, rest);
    assert(d.take(d.len() as int) =~= d);
    lemma_positive_total(d);
}

/// A tombstone is permanent: no transaction takes it away, neither a withdrawal of all
/// that is left nor a new stake.
pub proof fn law_tombstone_is_permanent(
    st: State,
    tx: Transaction,
    height: u64,
    r: Reply,
    id: Seq<u8>,
)
    requires
        st.validator(id).tombstoned,
        rules::step(st, tx, height, r) is Ok,
    ensures
        rules::step(st, tx, height, r)->Ok_0.validator(id).tombstoned,
{
    if let Transaction::AnonTransfer { token, xfer } = tx {
        lemma_debit_keeps(st, token, xfer.ring@, r.terms, xfer.ring@.len(), Seq::empty());
    }
}

/// A tombstoned validator is never slashed again, whatever it holds, and is in no
/// validator set.
pub proof fn law_tombstone_bars_a_second_slash(
    st: State,
    id: Seq<u8>,
    beneficiary: Seq<u8>,
    block_a: Seq<u8>,
    block_b: Seq<u8>,
    r: Reply,
)
    requires
        st.validator(id).tombstoned,
    ensures
        rules::step_slash(st, id, beneficiary, block_a, block_b, r) is Err,
        block_a != block_b && r.signatures ==> rules::step_slash(
            st,
            id,
            beneficiary,
            block_a,
            block_b,
            r,
        ) == Err::<State, LedgerError>(LedgerError::NothingToSlash),
        forall|stake: u64| !queries::eligible(st, id, stake),
{
}

// --- what a transaction can touch -------------------------------------------------

proof fn lemma_account_leaf_same(a: State, b: State, id: [u8; 32])
    requires
        a.registered(id@) == b.registered(id@),
        a.registered(id@) ==> a.accounts[id@] == b.accounts[id@],
    ensures
        commitment::leaf(a, DirtyKey::Account(id)) == commitment::leaf(b, DirtyKey::Account(id)),
{
}

/// A transaction changes no entry but those it flags: nothing that the state
/// root must take in is ever missed.
pub proof fn law_changes_are_flagged(st: State, tx: Transaction, height: u64, r: Reply, k: DirtyKey)
    requires
        rules::within_limits(st, tx, height),
        rules::step(st, tx, height, r) is Ok,
        !apply::touched(rules::step(st, tx, height, r)->Ok_0.next_token, tx).contains(k),
    ensures
        commitment::leaf(rules::step(st, tx, height, r)->Ok_0, k) == commitment::leaf(st, k),
{
    let now = rules::step(st, tx, height, r)->Ok_0;
    let keys = apply::touched(now.next_token, tx);
    assert forall|i: int| 0 <= i < keys.len() implies #[trigger] keys[i] != k by {
        if keys[i] == k {
            assert(keys.contains(k));
        }
    }
    match k {
        DirtyKey::Account(id) => {
            assert forall|x: [u8; 32]| #[trigger] x@ == id@ implies x == id by {
                bytes::lemma_array_eq(x, id);
            }
            match tx {
                Transaction::Register { pubkey, .. } => {
                    assert(keys[0] == DirtyKey::Account(pubkey));
                },
                Transaction::CreateToken { creator, .. } => {
                    assert(keys[0] == DirtyKey::Account(creator));
                },
                Transaction::SolventTransfer { xfer, .. } => {
                    assert(keys[0] == DirtyKey::Account(xfer.sender));
                    assert(keys[1] == DirtyKey::Account(xfer.receiver));
                },
                Transaction::Rollover { account, .. } => {
                    assert(keys[0] == DirtyKey::Account(account));
                },
                Transaction::DeployContract { deployer, .. } => {
                    assert(keys[1] == DirtyKey::Account(deployer));
                },
                Transaction::CallContract { caller, .. } => {
                    assert(keys[1] == DirtyKey::Account(caller));
                },
                Transaction::PublicTransfer { from, to, .. } => {
                    assert(keys[0] == DirtyKey::Account(from));
                    assert(keys[1] == DirtyKey::Account(to));
                },
                Transaction::Shield { from, to, .. } => {
                    assert(keys[0] == DirtyKey::Account(from));
                    assert(keys[1] == DirtyKey::Account(to));
                },
                Transaction::Unshield { to, xfer, .. } => {
                    assert(keys[0] == DirtyKey::Account(xfer.sender));
                    assert(keys[1] == DirtyKey::Account(to));
                },
                Transaction::ShieldStealth { from, one_time, .. } => {
                    assert(keys[0] == DirtyKey::Account(from));
                    assert(keys[1] == DirtyKey::Account(one_time));
                },
                Transaction::AnonTransfer { token, xfer } => {
                    let n = xfer.ring@.len();
                    assert forall|j: int| 0 <= j < n implies #[trigger] xfer.ring@[j]@ != id@ by {
                        assert(keys[j] == DirtyKey::Account(xfer.ring@[j]));
                    }
                    assert(keys[n as int] == DirtyKey::Account(xfer.one_time));
                    lemma_debited_rest(st, token, xfer.ring@, r.terms, n, id@);
                    assert(xfer.one_time@ != id@);
                    let d = rules::debited(st, token, xfer.ring@, r.terms, n);
                    assert(now.registered(id@) == d.registered(id@));
                    assert(d.account(id@) == st.account(id@));
                    lemma_account_leaf_same(now, st, id);
                },
                Transaction::Stake { validator, .. } => {
                    assert(keys[0] == DirtyKey::Account(validator));
                },
                Transaction::Unstake { validator, .. } => {
                    assert(keys[0] == DirtyKey::Account(validator));
                },
                Transaction::SlashEvidence { beneficiary, .. } => {
                    assert(keys[1] == DirtyKey::Account(beneficiary));
                },
                _ => {},
            }
        },
        DirtyKey::Token(id) => {
            match tx {
                Transaction::CreateToken { .. } => {
                    assert(keys[1] == DirtyKey::Token(st.next_token));
                },
                Transaction::AnonTransfer { token, xfer } => {
                    lemma_debited_rest(
                        st,
                        token,
                        xfer.ring@,
                        r.terms,
                        xfer.ring@.len(),
                        xfer.one_time@,
                    );
                },
                _ => {},
            }
        },
        DirtyKey::Contract(id) => {
            assert forall|x: [u8; 32]| #[trigger] x@ == id@ implies x == id by {
                bytes::lemma_array_eq(x, id);
            }
            match tx {
                Transaction::DeployContract { deployer, code, .. } => {
                    let at = hashing::blake3_digest(vm::contract_preimage(deployer@, code@));
                    assert(keys[0] == DirtyKey::Contract(at));
                    assert(at@ != id@);
                },
                Transaction::CallContract { contract, .. } => {
                    assert(keys[0] == DirtyKey::Contract(contract));
                    assert(contract@ != id@);
                },
                Transaction::AnonTransfer { token, xfer } => {
                    lemma_debited_rest(
                        st,
                        token,
                        xfer.ring@,
                        r.terms,
                        xfer.ring@.len(),
                        xfer.one_time@,
                    );
                },
                _ => {},
            }
        },
        DirtyKey::Nullifier(nf) => {
            match tx {
                Transaction::AnonTransfer { token, xfer } => {
                    let n = xfer.ring@.len();
                    assert(keys[(n + 1) as int] == DirtyKey::Nullifier(xfer.nullifier));
                    if xfer.nullifier@ == nf@ {
                        bytes::lemma_array_eq(xfer.nullifier, nf);
                    }
                    lemma_debited_rest(st, token, xfer.ring@, r.terms, n, xfer.one_time@);
                },
                _ => {},
            }
        },
        DirtyKey::Validator(id) => {
            assert forall|x: [u8; 32]| #[trigger] x@ == id@ implies x == id by {
                bytes::lemma_array_eq(x, id);
            }
            match tx {
                Transaction::Stake { validator, .. } => {
                    assert(keys[1] == DirtyKey::Validator(validator));
                    assert(validator@ != id@);
                },
                Transaction::Unstake { validator, .. } => {
                    assert(keys[1] == DirtyKey::Validator(validator));
                    assert(validator@ != id@);
                },
                Transaction::SlashEvidence { validator, .. } => {
                    assert(keys[0] == DirtyKey::Validator(validator));
                    assert(validator@ != id@);
                },
                Transaction::AnonTransfer { token, xfer } => {
                    lemma_debited_rest(
                        st,
                        token,
                        xfer.ring@,
                        r.terms,
                        xfer.ring@.len(),
                        xfer.one_time@,
                    );
                },
                _ => {},
            }
        },
        DirtyKey::Meta => {
            match tx {
                Transaction::CreateToken { .. } => {
                    assert(keys[2] == DirtyKey::Meta);
                },
                Transaction::AnonTransfer { token, xfer } => {
                    lemma_debited_rest(
                        st,
                        token,
                        xfer.ring@,
                        r.terms,
                        xfer.ring@.len(),
                        xfer.one_time@,
                    );
                },
                _ => {},
            }
        },
    }
}

/// Applying a transaction keeps the stored tree right but for what is flagged:
/// the next state root commits to the state that came out.
pub proof fn law_apply_keeps_synced<B: KVStore>(
    was: Ledger<B>,
    now: Ledger<B>,
    tx: Transaction,
    height: u64,
    r: Reply,
    res: Result<(), LedgerError>,
)
    requires
        was.synced(),
        rules::within_limits(was.state(), tx, height),
        apply::applied(was, now, tx, height, r, res),
    ensures
        now.synced(),
{
    assert(now.nodes() == was.nodes());
    let more = now.dirty@;
    assert forall|k: DirtyKey| was.dirty@.contains(k) implies more.contains(k) by {
        let i = choose|i: int| 0 <= i < was.dirty@.len() && was.dirty@[i] == k;
        assert(more[i] == k);
    }
    assert forall|k: DirtyKey| !more.contains(k) implies #[trigger] commitment::leaf(now.state(), k)
        == commitment::leaf(was.state(), k) by {
        if res is Ok {
            let keys = apply::touched(now.next_token_id, tx);
            assert(!keys.contains(k)) by {
                if keys.contains(k) {
                    let i = choose|i: int| 0 <= i < keys.len() && keys[i] == k;
                    assert(more[was.dirty@.len() + i] == k);
                }
            }
            law_changes_are_flagged(was.state(), tx, height, r, k);
        }
    }
    commitment::law_marking_keeps_synced(was, now);
}

} // verus!
