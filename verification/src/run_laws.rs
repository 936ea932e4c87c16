//! What holds over any run of transactions.

use vstd::prelude::*;
use vstd::utf8::*;

use crate::queries;
use crate::rules;
use crate::rules::{LedgerError, Reply, State};
use crate::rules_laws;
use crate::ticker;
use crate::transaction::Transaction;

verus! {

/// A transaction, the height of its block, and what the cryptography layer says of it.
pub type Try = (Transaction, u64, Reply);

/// The state after a run of transactions: one that is refused changes nothing.
pub open spec fn after(st: State, run: Seq<Try>) -> State
    decreases run.len(),
{
    if run.len() == 0 {
        st
    } else {
        let was = after(st, run.drop_last());
        match rules::step(was, run.last().0, run.last().1, run.last().2) {
            Ok(now) => now,
            Err(_) => was,
        }
    }
}

/// Whether no counter runs over its type in a run.
pub open spec fn within_limits(st: State, run: Seq<Try>) -> bool
    decreases run.len(),
{
    run.len() > 0 ==> {
        &&& within_limits(st, run.drop_last())
        &&& rules::within_limits(after(st, run.drop_last()), run.last().0, run.last().1)
    }
}

// --- replay -------------------------------------------------------------------------

/// Whether what makes a transaction unique is used up: its nonce, the account or ticker or
/// contract it makes, its nullifier, or the one slash a validator can suffer.
pub open spec fn used_up(st: State, tx: Transaction) -> bool {
    match tx {
        Transaction::Register { pubkey, .. } => st.registered(pubkey@),
        Transaction::CreateToken { ticker, .. } => {
            &&& ticker::normal(ticker@) is Some
            &&& st.tickers.contains_key(encode_utf8(ticker::normal(ticker@)->0))
        },
        Transaction::SolventTransfer { xfer, .. } => st.account(xfer.sender@).nonce > xfer.nonce,
        Transaction::Rollover { account, nonce, .. } => st.account(account@).nonce > nonce,
        Transaction::DeployContract { deployer, code, .. } => st.contracts.contains_key(
            rules::contract_address(deployer@, code@),
        ),
        Transaction::CallContract { caller, nonce, .. } => st.account(caller@).nonce > nonce,
        Transaction::PublicTransfer { from, nonce, .. } => st.account(from@).nonce > nonce,
        Transaction::Shield { from, nonce, .. } => st.account(from@).nonce > nonce,
        Transaction::Unshield { xfer, .. } => st.account(xfer.sender@).nonce > xfer.nonce,
        Transaction::ShieldStealth { from, nonce, .. } => st.account(from@).nonce > nonce,
        Transaction::AnonTransfer { xfer, .. } => st.nullifiers.contains(xfer.nullifier@),
        Transaction::Stake { validator, nonce, .. } => st.account(validator@).nonce > nonce,
        Transaction::Unstake { validator, nonce, .. } => st.account(validator@).nonce > nonce,
        Transaction::SlashEvidence { validator, .. } => st.validator(validator@).tombstoned,
        _ => false,
    }
}

proof fn lemma_uses_up(st: State, tx: Transaction, height: u64, r: Reply)
    requires
        rules::within_limits(st, tx, height),
        rules::step(st, tx, height, r) is Ok,
    ensures
        used_up(rules::step(st, tx, height, r)->Ok_0, tx),
{
    if let Transaction::Rollover { account, .. } = tx {
        let a = st.account(account@);
        let ks = crate::ordered::order_32(a.pending.dom());
        rules_laws::lemma_rolled_nonce(a, ks, r.terms, st.zero, ks.len());
    }
}

proof fn lemma_used_up_refused(st: State, tx: Transaction, height: u64, r: Reply)
    requires
        used_up(st, tx),
    ensures
        rules::step(st, tx, height, r) is Err,
{
}

/// Tickers, contracts and tokens are never given up or changed.
proof fn lemma_taken_stays(st: State, tx: Transaction, height: u64, r: Reply)
    requires
        rules::step(st, tx, height, r) is Ok,
    ensures
        ({
            let now = rules::step(st, tx, height, r)->Ok_0;
            &&& forall|t: Seq<u8>| #[trigger]
                st.tickers.contains_key(t) ==> now.tickers.contains_key(t) && now.tickers[t]
                    == st.tickers[t]
            &&& forall|id: Seq<u8>| #[trigger]
                st.contracts.contains_key(id) ==> now.contracts.contains_key(id)
        }),
{
    if let Transaction::AnonTransfer { token, xfer } = tx {
        rules_laws::lemma_debited_rest(
            st,
            token,
            xfer.ring@,
            r.terms,
            xfer.ring@.len(),
            xfer.one_time@,
        );
    }
}

proof fn lemma_used_up_stays(st: State, tx: Transaction, height: u64, r: Reply, gone: Transaction)
    requires
        used_up(st, gone),
        rules::within_limits(st, tx, height),
        rules::step(st, tx, height, r) is Ok,
    ensures
        used_up(rules::step(st, tx, height, r)->Ok_0, gone),
{
    lemma_taken_stays(st, tx, height, r);
    match gone {
        Transaction::Register { pubkey, .. } => {
            rules_laws::law_accounts_stay(st, tx, height, r, pubkey@);
        },
        Transaction::SolventTransfer { xfer, .. } => {
            rules_laws::law_nonces_only_rise(st, tx, height, r, xfer.sender@);
        },
        Transaction::Rollover { account, .. } => {
            rules_laws::law_nonces_only_rise(st, tx, height, r, account@);
        },
        Transaction::CallContract { caller, .. } => {
            rules_laws::law_nonces_only_rise(st, tx, height, r, caller@);
        },
        Transaction::PublicTransfer { from, .. } => {
            rules_laws::law_nonces_only_rise(st, tx, height, r, from@);
        },
        Transaction::Shield { from, .. } => {
            rules_laws::law_nonces_only_rise(st, tx, height, r, from@);
        },
        Transaction::Unshield { xfer, .. } => {
            rules_laws::law_nonces_only_rise(st, tx, height, r, xfer.sender@);
        },
        Transaction::ShieldStealth { from, .. } => {
            rules_laws::law_nonces_only_rise(st, tx, height, r, from@);
        },
        Transaction::AnonTransfer { xfer, .. } => {
            rules_laws::law_nullifiers_stay(st, tx, height, r, xfer.nullifier@);
        },
        Transaction::Stake { validator, .. } => {
            rules_laws::law_nonces_only_rise(st, tx, height, r, validator@);
        },
        Transaction::Unstake { validator, .. } => {
            rules_laws::law_nonces_only_rise(st, tx, height, r, validator@);
        },
        Transaction::SlashEvidence { validator, .. } => {
            rules_laws::law_tombstone_is_permanent(st, tx, height, r, validator@);
        },
        _ => {},
    }
}

proof fn lemma_used_up_run(st: State, run: Seq<Try>, gone: Transaction)
    requires
        used_up(st, gone),
        within_limits(st, run),
    ensures
        used_up(after(st, run), gone),
    decreases run.len(),
{
    if run.len() > 0 {
        lemma_used_up_run(st, run.drop_last(), gone);
        let was = after(st, run.drop_last());
        let (tx, height, r) = run.last();
        if rules::step(was, tx, height, r) is Ok {
            lemma_used_up_stays(was, tx, height, r, gone);
        }
    }
}

/// No transaction applies twice: once it has, the same one is refused whenever it comes
/// again, whatever was applied since without a counter running over, at whatever height
/// and whatever the cryptography layer says of it then.
pub proof fn law_never_replayed(
    st: State,
    tx: Transaction,
    height: u64,
    r: Reply,
    run: Seq<Try>,
    later: u64,
    again: Reply,
)
    requires
        rules::within_limits(st, tx, height),
        rules::step(st, tx, height, r) is Ok,
        within_limits(rules::step(st, tx, height, r)->Ok_0, run),
    ensures
        rules::step(after(rules::step(st, tx, height, r)->Ok_0, run), tx, later, again) is Err,
{
    let now = rules::step(st, tx, height, r)->Ok_0;
    lemma_uses_up(st, tx, height, r);
    lemma_used_up_run(now, run, tx);
    lemma_used_up_refused(after(now, run), tx, later, again);
}

// --- what lasts -----------------------------------------------------------------------

/// A validator that was slashed is out for good: whatever is applied later, withdrawals
/// and new stakes among it, it is in no validator set and is not slashed again.
pub proof fn law_slashed_for_good(
    st: State,
    run: Seq<Try>,
    id: Seq<u8>,
    beneficiary: Seq<u8>,
    block_a: Seq<u8>,
    block_b: Seq<u8>,
    r: Reply,
)
    requires
        st.validator(id).tombstoned,
        block_a != block_b,
        r.signatures,
    ensures
        after(st, run).validator(id).tombstoned,
        forall|stake: u64| !queries::eligible(after(st, run), id, stake),
        rules::step_slash(after(st, run), id, beneficiary, block_a, block_b, r) == Err::<
            State,
            LedgerError,
        >(LedgerError::NothingToSlash),
    decreases run.len(),
{
    if run.len() > 0 {
        law_slashed_for_good(st, run.drop_last(), id, beneficiary, block_a, block_b, r);
        let was = after(st, run.drop_last());
        let t = run.last();
        if rules::step(was, t.0, t.1, t.2) is Ok {
            rules_laws::law_tombstone_is_permanent(was, t.0, t.1, t.2, id);
        }
    }
}

/// Over a run a ticker leads to the token that took it, as it was made.
pub proof fn lemma_token_run(st: State, run: Seq<Try>, t: Seq<u8>)
    requires
        rules_laws::registry_sound(st),
        st.tickers.contains_key(t),
        within_limits(st, run),
    ensures
        rules_laws::registry_sound(after(st, run)),
        after(st, run).tickers.contains_key(t),
        after(st, run).tickers[t] == st.tickers[t],
        after(st, run).tokens[st.tickers[t]] == st.tokens[st.tickers[t]],
    decreases run.len(),
{
    if run.len() > 0 {
        lemma_token_run(st, run.drop_last(), t);
        let was = after(st, run.drop_last());
        let (tx, height, r) = run.last();
        if rules::step(was, tx, height, r) is Ok {
            rules_laws::law_registry_stays_sound(was, tx, height, r);
            lemma_taken_stays(was, tx, height, r);
            let id = was.tickers[t];
            assert(was.tokens.contains_key(id) && id < was.next_token);
            if let Transaction::AnonTransfer { token, xfer } = tx {
                rules_laws::lemma_debited_rest(
                    was,
                    token,
                    xfer.ring@,
                    r.terms,
                    xfer.ring@.len(),
                    xfer.one_time@,
                );
            }
        }
    }
}

/// One ticker, ever: once a token is created, its ticker is refused in every spelling that
/// means it, to whoever asks and whenever, and leads to the first token as it was made.
pub proof fn law_ticker_taken_for_good(
    st: State,
    ticker: Seq<char>,
    creator: Seq<u8>,
    supply: u64,
    r: Reply,
    run: Seq<Try>,
    spelling: Seq<char>,
    other: Seq<u8>,
    more: u64,
    again: Reply,
)
    requires
        rules_laws::registry_sound(st),
        st.next_token < u32::MAX,
        rules::step_create_token(st, ticker, creator, supply, r) is Ok,
        within_limits(rules::step_create_token(st, ticker, creator, supply, r)->Ok_0, run),
        ticker::normal(spelling) == ticker::normal(ticker),
        again.signatures,
    ensures
        ({
            let made = rules::step_create_token(st, ticker, creator, supply, r)->Ok_0;
            let now = after(made, run);
            let t = encode_utf8(ticker::normal(ticker)->0);
            &&& rules::step_create_token(now, spelling, other, more, again) == Err::<
                State,
                LedgerError,
            >(LedgerError::TickerTaken)
            &&& now.tickers.contains_key(t)
            &&& now.tickers[t] == st.next_token
            &&& now.tokens[st.next_token].creator == creator
            &&& now.tokens[st.next_token].supply == supply
            &&& now.tokens[st.next_token].ticker == t
        }),
{
    let made = rules::step_create_token(st, ticker, creator, supply, r)->Ok_0;
    let t = encode_utf8(ticker::normal(ticker)->0);
    assert(rules_laws::registry_sound(made)) by {
        rules_laws::lemma_created_sound(st, ticker, creator, supply, r);
    }
    lemma_token_run(made, run, t);
}

} // verus!
