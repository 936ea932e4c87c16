//! The ledger's transition rules, as mathematics: what a transaction does to the
//! state, and with which error it is refused.
//!
//! Signatures, zero-knowledge proofs and the arithmetic on ciphertexts belong to
//! the cryptography layer. The rules say what it is asked ([`checks`],
//! [`bound_balance`], [`terms`]) and what follows from each answer ([`step`]).

use vstd::prelude::*;
use vstd::utf8::*;

use crate::hashing;
use crate::ordered;
use crate::records::{AccountView, ContractView, TokenView, ValidatorView};
use crate::ticker;
use crate::transaction;
use crate::transaction::{AnonTransfer, SolventTransfer, Transaction};
use crate::vm;

verus! {

/// The native coin LAT is token id 0.
pub const LAT_TOKEN: u32 = 0;

/// Blocks per anonymity epoch. An anonymous spend's nullifier is scoped to one
/// epoch, and a proof built in an epoch is valid only in a block of that epoch.
pub const EPOCH_BLOCKS: u64 = 20;

/// Minimum bonded stake for the validator set: 1,000 LAT at five decimals.
pub const MIN_VALIDATOR_STAKE: u64 = 100_000_000;

/// Blocks between an unstake and the funds' release to the public balance.
pub const UNBONDING_BLOCKS: u64 = 240;

/// Default upper bound on the validator set.
pub const DEFAULT_MAX_VALIDATORS: usize = 64;

/// The same bound under the name older callers read.
pub const MAX_VALIDATORS: usize = 64;

/// Slashing penalty on the offender's total stake, in basis points.
pub const SLASH_FRACTION_BPS: u64 = 1000;

/// The part of a slash paid to whoever submitted the evidence, in basis points.
pub const SLASH_REWARD_BPS: u64 = 500;

/// The anonymity epoch a block at `height` belongs to.
pub fn epoch_of(height: u64) -> (e: u64)
    ensures
        e == height / EPOCH_BLOCKS,
{
    height / EPOCH_BLOCKS
}

/// Why a transaction is refused.
#[derive(Debug, Clone, Copy, PartialEq, Eq, Structural)]
pub enum LedgerError {
    AlreadyRegistered,
    SenderNotRegistered,
    ReceiverNotRegistered,
    CreatorNotRegistered,
    InvalidProof,
    InvalidTicker,
    TickerTaken,
    /// The nonce is not the sender's current one (stale or replayed).
    BadNonce,
    /// A contract already exists at the derived address.
    ContractExists,
    /// No contract is deployed at the given address.
    NoSuchContract,
    /// The contract's execution failed.
    ContractFailed,
    /// A signature is missing or invalid, or the named key is no key.
    BadSignature,
    /// The spend exceeds the sender's transparent balance.
    InsufficientPublicBalance,
    /// An unshield's confidential receiver is not the public view key.
    WrongUnshieldReceiver,
    /// An unshield's declared amount is not the one its proof encrypts.
    UnshieldAmountMismatch,
    /// An anonymous transfer of another epoch.
    WrongEpoch,
    /// An anonymous transfer's nullifier was already spent.
    NullifierSeen,
    /// A ring member is not registered, or appears twice.
    BadRing,
    /// A ring member's claimed balance is not its current one.
    StaleRingBalance,
    /// An unstake of more than the bonded stake.
    InsufficientStake,
    /// Slash evidence that proves no equivocation.
    BadEvidence,
    /// The named validator has nothing at stake, or was slashed already.
    NothingToSlash,
}

/// The ledger's state.
#[verifier::ext_equal]
pub struct State {
    pub accounts: Map<Seq<u8>, AccountView>,
    pub tokens: Map<u32, TokenView>,
    /// Ticker (in UTF-8) to token id.
    pub tickers: Map<Seq<u8>, u32>,
    pub contracts: Map<Seq<u8>, ContractView>,
    pub nullifiers: Set<Seq<u8>>,
    pub validators: Map<Seq<u8>, ValidatorView>,
    pub next_token: u32,
    /// The ciphertext of an account that holds nothing of a token.
    pub zero: [u8; 64],
}

impl State {
    pub open spec fn registered(self, id: Seq<u8>) -> bool {
        self.accounts.contains_key(id)
    }

    /// The account, a fresh one where `id` is not registered.
    pub open spec fn account(self, id: Seq<u8>) -> AccountView {
        if self.accounts.contains_key(id) {
            self.accounts[id]
        } else {
            AccountView::empty()
        }
    }

    pub open spec fn validator(self, id: Seq<u8>) -> ValidatorView {
        if self.validators.contains_key(id) {
            self.validators[id]
        } else {
            ValidatorView::empty()
        }
    }

    pub open spec fn with_account(self, id: Seq<u8>, a: AccountView) -> State {
        State { accounts: self.accounts.insert(id, a), ..self }
    }

    pub open spec fn with_contract(self, id: Seq<u8>, c: ContractView) -> State {
        State { contracts: self.contracts.insert(id, c), ..self }
    }

    /// A drained validator leaves no record: the state is that of a chain on
    /// which it never staked. One with a tombstone is never drained.
    pub open spec fn with_validator(self, id: Seq<u8>, v: ValidatorView) -> State {
        if v.drained() {
            State { validators: self.validators.remove(id), ..self }
        } else {
            State { validators: self.validators.insert(id, v), ..self }
        }
    }

    /// A token, its ticker's index entry, and the next id.
    pub open spec fn with_token(self, t: TokenView, next: u32) -> State {
        State {
            tokens: self.tokens.insert(t.id, t),
            tickers: self.tickers.insert(t.ticker, t.id),
            next_token: next,
            ..self
        }
    }

    pub open spec fn with_nullifier(self, nf: Seq<u8>) -> State {
        State { nullifiers: self.nullifiers.insert(nf), ..self }
    }
}

/// A ciphertext the cryptography layer is asked to compute.
#[derive(Clone, Copy, Debug)]
pub enum Term {
    /// `a` plus `b`.
    Sum { a: [u8; 64], b: [u8; 64] },
    /// `a` plus an encryption of the public `amount`.
    Mint { a: [u8; 64], amount: u64 },
    /// `a` less `b` and, where `fee` is positive, less an encryption of it.
    Less { a: [u8; 64], b: [u8; 64], fee: u64 },
}

/// The cryptography layer's answers about one transaction.
#[derive(Clone, Debug)]
pub struct CryptoReply {
    /// Every signature in [`checks`] is by its key over its message.
    pub signatures: bool,
    /// The zero-knowledge proof holds: for a solvent transfer against
    /// [`bound_balance`], for an anonymous one on its own.
    pub proven: bool,
    /// The confidential receiver is the unshield view key.
    pub view_key: bool,
    /// The receiver's ciphertext reveals the declared amount.
    pub reveals: bool,
    /// The ciphertexts asked for in [`terms`].
    pub terms: Vec<[u8; 64]>,
}

/// A reply as a mathematical value.
pub struct Reply {
    pub signatures: bool,
    pub proven: bool,
    pub view_key: bool,
    pub reveals: bool,
    pub terms: Seq<[u8; 64]>,
}

impl View for CryptoReply {
    type V = Reply;

    open spec fn view(&self) -> Reply {
        Reply {
            signatures: self.signatures,
            proven: self.proven,
            view_key: self.view_key,
            reveals: self.reveals,
            terms: self.terms@,
        }
    }
}

/// A signature to check: by which key, over which bytes.
pub struct SignatureCheck {
    pub key: [u8; 32],
    pub message: Vec<u8>,
    pub sig: [u8; 64],
}

/// A signature check as a mathematical value.
pub struct Check {
    pub key: Seq<u8>,
    pub message: Seq<u8>,
    pub sig: Seq<u8>,
}

impl View for SignatureCheck {
    type V = Check;

    open spec fn view(&self) -> Check {
        Check { key: self.key@, message: self.message@, sig: self.sig@ }
    }
}

/// The key whose signature a transparent transaction carries.
pub open spec fn signer(tx: Transaction) -> Option<[u8; 32]> {
    match tx {
        Transaction::CreateToken { creator, .. } => Some(creator),
        Transaction::Rollover { account, .. } => Some(account),
        Transaction::DeployContract { deployer, .. } => Some(deployer),
        Transaction::CallContract { caller, .. } => Some(caller),
        Transaction::PublicTransfer { from, .. } => Some(from),
        Transaction::Shield { from, .. } => Some(from),
        Transaction::Unshield { xfer, .. } => Some(xfer.sender),
        Transaction::ShieldStealth { from, .. } => Some(from),
        Transaction::Stake { validator, .. } => Some(validator),
        Transaction::Unstake { validator, .. } => Some(validator),
        _ => None,
    }
}

/// The signatures a transaction's rules ask for: its own, or those of the two
/// conflicting votes.
pub open spec fn checks(tx: Transaction) -> Seq<Check> {
    match tx {
        Transaction::SlashEvidence { validator, height, block_a, sig_a, block_b, sig_b, .. } =>
            seq![
            Check {
                key: validator@,
                message: transaction::vote_bytes(block_a@, height),
                sig: sig_a@,
            },
            Check {
                key: validator@,
                message: transaction::vote_bytes(block_b@, height),
                sig: sig_b@,
            },
        ],
        _ => match signer(tx) {
            Some(key) => seq![
                Check { key: key@, message: tx.body(), sig: tx.signature()->0 },
            ],
            None => seq![],
        },
    }
}

/// The balance a solvency proof must hold against.
pub open spec fn bound_balance(st: State, tx: Transaction) -> Option<[u8; 64]> {
    match tx {
        Transaction::SolventTransfer { token, xfer } => sender_balance(st, token, xfer),
        Transaction::Unshield { token, xfer, .. } => sender_balance(st, token, xfer),
        _ => None,
    }
}

/// The transfer's sender's spendable balance.
pub open spec fn sender_balance(st: State, token: u32, xfer: SolventTransfer) -> Option<[u8; 64]> {
    if st.registered(xfer.sender@) {
        Some(st.account(xfer.sender@).balance(token, st.zero))
    } else {
        None
    }
}

/// The sender's balance less the amount and the fee.
pub open spec fn debit_term(st: State, token: u32, xfer: SolventTransfer) -> Term {
    Term::Less {
        a: st.account(xfer.sender@).balance(token, st.zero),
        b: xfer.sender_ct,
        fee: xfer.fee,
    }
}

/// Each pending balance on top of the spendable one, in ascending token order.
pub open spec fn rollover_terms(a: AccountView, zero: [u8; 64]) -> Seq<Term> {
    ordered::order_32(a.pending.dom()).map_values(
        |t: u32| Term::Sum { a: a.balance(t, zero), b: a.pending_of(t, zero) },
    )
}

/// Each ring member's balance less its debit, then the receiver's credit.
pub open spec fn anon_terms(st: State, token: u32, xfer: AnonTransfer) -> Seq<Term> {
    if xfer.ring@.len() == xfer.enc@.len() {
        Seq::new(
            xfer.ring@.len(),
            |i: int|
                Term::Less {
                    a: st.account(xfer.ring@[i]@).balance(token, st.zero),
                    b: xfer.enc@[i],
                    fee: 0,
                },
        ).push(
            Term::Sum {
                a: st.account(xfer.one_time@).pending_of(token, st.zero),
                b: xfer.credit,
            },
        )
    } else {
        seq![]
    }
}

/// The ciphertexts that applying `tx` needs, in order.
pub open spec fn terms(st: State, tx: Transaction) -> Seq<Term> {
    match tx {
        Transaction::CreateToken { creator, supply, .. } => seq![
            Term::Mint {
                a: st.account(creator@).balance(st.next_token, st.zero),
                amount: supply,
            },
        ],
        Transaction::SolventTransfer { token, xfer } => seq![
            debit_term(st, token, xfer),
            Term::Sum {
                a: st.account(xfer.receiver@).pending_of(token, st.zero),
                b: xfer.receiver_ct,
            },
        ],
        Transaction::Rollover { account, .. } => rollover_terms(st.account(account@), st.zero),
        Transaction::Shield { token, to, amount, .. } => seq![
            Term::Mint { a: st.account(to@).pending_of(token, st.zero), amount },
        ],
        Transaction::Unshield { token, xfer, .. } => seq![debit_term(st, token, xfer)],
        Transaction::ShieldStealth { token, one_time, amount, .. } => seq![
            Term::Mint { a: st.account(one_time@).pending_of(token, st.zero), amount },
        ],
        Transaction::AnonTransfer { token, xfer } => anon_terms(st, token, xfer),
        _ => seq![],
    }
}

/// The sum of two amounts, at most the largest amount there is.
pub open spec fn sat(a: int, b: int) -> u64 {
    if a + b > u64::MAX {
        u64::MAX
    } else {
        (a + b) as u64
    }
}

// --- the rules, one by one --------------------------------------------------

pub open spec fn step_register(st: State, id: Seq<u8>) -> Result<State, LedgerError> {
    if st.registered(id) {
        Err(LedgerError::AlreadyRegistered)
    } else {
        Ok(st.with_account(id, AccountView::empty()))
    }
}

pub open spec fn step_create_token(
    st: State,
    input: Seq<char>,
    creator: Seq<u8>,
    supply: u64,
    r: Reply,
) -> Result<State, LedgerError> {
    if !r.signatures {
        Err(LedgerError::BadSignature)
    } else {
        match ticker::normal(input) {
            None => Err(LedgerError::InvalidTicker),
            Some(norm) => if st.tickers.contains_key(encode_utf8(norm)) {
                Err(LedgerError::TickerTaken)
            } else if !st.registered(creator) {
                Err(LedgerError::CreatorNotRegistered)
            } else {
                let id = st.next_token;
                Ok(
                    st.with_token(
                        TokenView { id, ticker: encode_utf8(norm), creator, supply },
                        (id + 1) as u32,
                    ).with_account(creator, st.account(creator).with_balance(id, r.terms[0])),
                )
            },
        }
    }
}

pub open spec fn step_solvent(
    st: State,
    token: u32,
    xfer: SolventTransfer,
    r: Reply,
) -> Result<State, LedgerError> {
    let from = xfer.sender@;
    let to = xfer.receiver@;
    if !st.registered(from) {
        Err(LedgerError::SenderNotRegistered)
    } else if xfer.nonce != st.account(from).nonce {
        Err(LedgerError::BadNonce)
    } else if !r.proven {
        Err(LedgerError::InvalidProof)
    } else if !st.registered(to) {
        Err(LedgerError::ReceiverNotRegistered)
    } else {
        let paid = st.with_account(from, st.account(from).with_balance(token, r.terms[0]).spent());
        Ok(paid.with_account(to, paid.account(to).with_pending(token, r.terms[1])))
    }
}

/// An account with the pending balances of the first `n` tokens in `ks` merged.
pub open spec fn rolled(
    a: AccountView,
    ks: Seq<u32>,
    sums: Seq<[u8; 64]>,
    zero: [u8; 64],
    n: nat,
) -> AccountView
    decreases n,
{
    if n == 0 {
        a
    } else {
        rolled(a, ks, sums, zero, (n - 1) as nat).with_balance(ks[n - 1], sums[n - 1]).with_pending(
            ks[n - 1],
            zero,
        )
    }
}

pub open spec fn step_rollover(
    st: State,
    id: Seq<u8>,
    nonce: u64,
    r: Reply,
) -> Result<State, LedgerError> {
    let a = st.account(id);
    if !r.signatures {
        Err(LedgerError::BadSignature)
    } else if !st.registered(id) {
        Err(LedgerError::SenderNotRegistered)
    } else if nonce != a.nonce {
        Err(LedgerError::BadNonce)
    } else {
        let ks = ordered::order_32(a.pending.dom());
        Ok(st.with_account(id, rolled(a, ks, r.terms, st.zero, ks.len()).spent()))
    }
}

/// The address that `deployer`'s `code` is deployed at.
pub open spec fn contract_address(deployer: Seq<u8>, code: Seq<u8>) -> Seq<u8> {
    hashing::digest(vm::contract_preimage(deployer, code))
}

pub open spec fn step_deploy(
    st: State,
    deployer: Seq<u8>,
    code: Seq<u8>,
    r: Reply,
) -> Result<State, LedgerError> {
    let id = contract_address(deployer, code);
    if !r.signatures {
        Err(LedgerError::BadSignature)
    } else if !st.registered(deployer) {
        Err(LedgerError::SenderNotRegistered)
    } else if st.contracts.contains_key(id) {
        Err(LedgerError::ContractExists)
    } else {
        Ok(st.with_contract(id, ContractView { code, storage: Map::empty() }))
    }
}

pub open spec fn step_call(
    st: State,
    contract: Seq<u8>,
    caller: Seq<u8>,
    input: u64,
    nonce: u64,
    r: Reply,
) -> Result<State, LedgerError> {
    if !r.signatures {
        Err(LedgerError::BadSignature)
    } else if !st.registered(caller) {
        Err(LedgerError::SenderNotRegistered)
    } else if nonce != st.account(caller).nonce {
        Err(LedgerError::BadNonce)
    } else if !st.contracts.contains_key(contract) {
        Err(LedgerError::NoSuchContract)
    } else {
        let c = st.contracts[contract];
        let ran = vm::run(c.code, caller, input, vm::start(c.storage), vm::DEFAULT_GAS as nat);
        match ran.0 {
            Err(_) => Err(LedgerError::ContractFailed),
            Ok(_) => Ok(
                st.with_contract(
                    contract,
                    ContractView { code: c.code, storage: ran.1 },
                ).with_account(caller, st.account(caller).spent()),
            ),
        }
    }
}

/// Why a transparent spend of `amount` and `fee` by `from` is refused, if it is.
pub open spec fn spend_refused(
    st: State,
    token: u32,
    from: Seq<u8>,
    to: Option<Seq<u8>>,
    amount: u64,
    fee: u64,
    nonce: u64,
    r: Reply,
) -> Option<LedgerError> {
    if !r.signatures {
        Some(LedgerError::BadSignature)
    } else if !st.registered(from) {
        Some(LedgerError::SenderNotRegistered)
    } else if nonce != st.account(from).nonce {
        Some(LedgerError::BadNonce)
    } else if to matches Some(to) && !st.registered(to) {
        Some(LedgerError::ReceiverNotRegistered)
    } else if amount + fee > st.account(from).public_of(token) {
        Some(LedgerError::InsufficientPublicBalance)
    } else {
        None
    }
}

/// `from` has paid `amount` and `fee` out of its transparent balance.
pub open spec fn paid(st: State, token: u32, from: Seq<u8>, amount: u64, fee: u64) -> State {
    let a = st.account(from);
    st.with_account(
        from,
        a.with_public(token, (a.public_of(token) - amount - fee) as u64).spent(),
    )
}

pub open spec fn step_public(
    st: State,
    token: u32,
    from: Seq<u8>,
    to: Seq<u8>,
    amount: u64,
    fee: u64,
    nonce: u64,
    r: Reply,
) -> Result<State, LedgerError> {
    match spend_refused(st, token, from, Some(to), amount, fee, nonce, r) {
        Some(e) => Err(e),
        None => {
            let p = paid(st, token, from, amount, fee);
            let a = p.account(to);
            Ok(
                p.with_account(
                    to,
                    a.with_public(token, sat(a.public_of(token) as int, amount as int)),
                ),
            )
        },
    }
}

pub open spec fn step_shield(
    st: State,
    token: u32,
    from: Seq<u8>,
    to: Seq<u8>,
    amount: u64,
    fee: u64,
    nonce: u64,
    r: Reply,
) -> Result<State, LedgerError> {
    match spend_refused(st, token, from, Some(to), amount, fee, nonce, r) {
        Some(e) => Err(e),
        None => {
            let p = paid(st, token, from, amount, fee);
            Ok(p.with_account(to, p.account(to).with_pending(token, r.terms[0])))
        },
    }
}

pub open spec fn step_shield_stealth(
    st: State,
    token: u32,
    from: Seq<u8>,
    one_time: Seq<u8>,
    amount: u64,
    fee: u64,
    nonce: u64,
    r: Reply,
) -> Result<State, LedgerError> {
    match spend_refused(st, token, from, None, amount, fee, nonce, r) {
        Some(e) => Err(e),
        None => {
            let p = paid(st, token, from, amount, fee);
            Ok(p.with_account(one_time, p.account(one_time).with_pending(token, r.terms[0])))
        },
    }
}

/// `amount` of `token` on top of `id`'s transparent balance, registering it if
/// needed. Nothing happens for an amount of zero.
pub open spec fn credited(st: State, id: Seq<u8>, token: u32, amount: u64) -> State {
    if amount == 0 {
        st
    } else {
        let a = st.account(id);
        st.with_account(id, a.with_public(token, sat(a.public_of(token) as int, amount as int)))
    }
}

pub open spec fn step_unshield(
    st: State,
    token: u32,
    to: Seq<u8>,
    amount: u64,
    xfer: SolventTransfer,
    r: Reply,
) -> Result<State, LedgerError> {
    let from = xfer.sender@;
    if !r.signatures {
        Err(LedgerError::BadSignature)
    } else if !r.view_key {
        Err(LedgerError::WrongUnshieldReceiver)
    } else if !st.registered(from) {
        Err(LedgerError::SenderNotRegistered)
    } else if xfer.nonce != st.account(from).nonce {
        Err(LedgerError::BadNonce)
    } else if !r.proven {
        Err(LedgerError::InvalidProof)
    } else if !r.reveals {
        Err(LedgerError::UnshieldAmountMismatch)
    } else if !st.registered(to) {
        Err(LedgerError::ReceiverNotRegistered)
    } else {
        let p = st.with_account(from, st.account(from).with_balance(token, r.terms[0]).spent());
        Ok(credited(p, to, token, amount))
    }
}

/// Whether ring member `i` stands in the ring before.
pub open spec fn repeated(ring: Seq<[u8; 32]>, i: int) -> bool {
    exists|j: int| 0 <= j < i && #[trigger] ring[j]@ == ring[i]@
}

/// Why the ring members from `i` on are refused, if they are.
pub open spec fn ring_refused(
    st: State,
    token: u32,
    ring: Seq<[u8; 32]>,
    balances: Seq<[u8; 64]>,
    i: int,
) -> Option<LedgerError>
    decreases ring.len() - i,
{
    if i >= ring.len() {
        None
    } else if repeated(ring, i) || !st.registered(ring[i]@) {
        Some(LedgerError::BadRing)
    } else if st.account(ring[i]@).balance(token, st.zero) != balances[i] {
        Some(LedgerError::StaleRingBalance)
    } else {
        ring_refused(st, token, ring, balances, i + 1)
    }
}

/// The state with the first `n` ring members debited.
pub open spec fn debited(
    st: State,
    token: u32,
    ring: Seq<[u8; 32]>,
    left: Seq<[u8; 64]>,
    n: nat,
) -> State
    decreases n,
{
    if n == 0 {
        st
    } else {
        let s = debited(st, token, ring, left, (n - 1) as nat);
        let id = ring[n - 1]@;
        s.with_account(id, s.account(id).with_balance(token, left[n - 1]))
    }
}

pub open spec fn step_anon(
    st: State,
    token: u32,
    xfer: AnonTransfer,
    height: u64,
    r: Reply,
) -> Result<State, LedgerError> {
    let n = xfer.ring@.len();
    if xfer.epoch != height / EPOCH_BLOCKS {
        Err(LedgerError::WrongEpoch)
    } else if st.nullifiers.contains(xfer.nullifier@) {
        Err(LedgerError::NullifierSeen)
    } else if xfer.balances@.len() != n || xfer.enc@.len() != n {
        Err(LedgerError::BadRing)
    } else {
        match ring_refused(st, token, xfer.ring@, xfer.balances@, 0) {
            Some(e) => Err(e),
            None => if !r.proven {
                Err(LedgerError::InvalidProof)
            } else {
                let d = debited(st, token, xfer.ring@, r.terms, n);
                let to = xfer.one_time@;
                Ok(
                    d.with_account(
                        to,
                        d.account(to).with_pending(token, r.terms[n as int]),
                    ).with_nullifier(xfer.nullifier@),
                )
            },
        }
    }
}

/// The sum of the entries' amounts.
pub open spec fn total(u: Seq<(u64, u64)>) -> nat
    decreases u.len(),
{
    if u.len() == 0 {
        0
    } else {
        total(u.drop_last()) + u.last().0 as nat
    }
}

/// The entries whose release height has passed at `height`.
pub open spec fn matured(u: Seq<(u64, u64)>, height: u64) -> Seq<(u64, u64)>
    decreases u.len(),
{
    if u.len() == 0 {
        u
    } else if u.last().1 <= height {
        matured(u.drop_last(), height).push(u.last())
    } else {
        matured(u.drop_last(), height)
    }
}

/// The entries still in their delay window at `height`.
pub open spec fn waiting(u: Seq<(u64, u64)>, height: u64) -> Seq<(u64, u64)>
    decreases u.len(),
{
    if u.len() == 0 {
        u
    } else if u.last().1 <= height {
        waiting(u.drop_last(), height)
    } else {
        waiting(u.drop_last(), height).push(u.last())
    }
}

/// Why a staking transaction is refused by its sender's account, if it is.
pub open spec fn staking_refused(st: State, id: Seq<u8>, nonce: u64, r: Reply) -> Option<
    LedgerError,
> {
    if !r.signatures {
        Some(LedgerError::BadSignature)
    } else if !st.registered(id) {
        Some(LedgerError::SenderNotRegistered)
    } else if nonce != st.account(id).nonce {
        Some(LedgerError::BadNonce)
    } else {
        None
    }
}

pub open spec fn step_stake(
    st: State,
    id: Seq<u8>,
    amount: u64,
    nonce: u64,
    height: u64,
    r: Reply,
) -> Result<State, LedgerError> {
    match staking_refused(st, id, nonce, r) {
        Some(e) => Err(e),
        None => {
            let a = st.account(id);
            let v = st.validator(id);
            let available = sat(
                a.public_of(LAT_TOKEN) as int,
                total(matured(v.unbonding, height)) as int,
            );
            if available < amount {
                Err(LedgerError::InsufficientPublicBalance)
            } else {
                Ok(
                    st.with_account(
                        id,
                        a.with_public(LAT_TOKEN, (available - amount) as u64).spent(),
                    ).with_validator(
                        id,
                        ValidatorView {
                            staked: sat(v.staked as int, amount as int),
                            unbonding: waiting(v.unbonding, height),
                            tombstoned: v.tombstoned,
                        },
                    ),
                )
            }
        },
    }
}

pub open spec fn step_unstake(
    st: State,
    id: Seq<u8>,
    amount: u64,
    nonce: u64,
    height: u64,
    r: Reply,
) -> Result<State, LedgerError> {
    match staking_refused(st, id, nonce, r) {
        Some(e) => Err(e),
        None => {
            let a = st.account(id);
            let v = st.validator(id);
            if v.staked < amount {
                Err(LedgerError::InsufficientStake)
            } else {
                let left = waiting(v.unbonding, height);
                let back = sat(
                    a.public_of(LAT_TOKEN) as int,
                    total(matured(v.unbonding, height)) as int,
                );
                Ok(
                    st.with_account(id, a.with_public(LAT_TOKEN, back).spent()).with_validator(
                        id,
                        ValidatorView {
                            staked: (v.staked - amount) as u64,
                            unbonding: if amount > 0 {
                                left.push((amount, (height + UNBONDING_BLOCKS) as u64))
                            } else {
                                left
                            },
                            tombstoned: v.tombstoned,
                        },
                    ),
                )
            }
        },
    }
}

/// What the rest of a slash takes from entry `i`: entries before it give first.
pub open spec fn taken_at(u: Seq<(u64, u64)>, rest: int, i: int) -> int {
    let left = rest - total(u.take(i));
    if left <= 0 {
        0
    } else if left <= u[i].0 {
        left
    } else {
        u[i].0 as int
    }
}

/// The entries after `rest` was taken from them, oldest first.
pub open spec fn reduced(u: Seq<(u64, u64)>, rest: int) -> Seq<(u64, u64)> {
    Seq::new(u.len(), |i: int| ((u[i].0 - taken_at(u, rest, i)) as u64, u[i].1))
}

/// The entries of a positive amount.
pub open spec fn positive(u: Seq<(u64, u64)>) -> Seq<(u64, u64)>
    decreases u.len(),
{
    if u.len() == 0 {
        u
    } else if u.last().0 > 0 {
        positive(u.drop_last()).push(u.last())
    } else {
        positive(u.drop_last())
    }
}

/// Everything a validator has at stake.
pub open spec fn at_stake(v: ValidatorView) -> u64 {
    sat(v.staked as int, total(v.unbonding) as int)
}

/// What an equivocation costs: a tenth of the stake, and at least one unit.
pub open spec fn penalty(v: ValidatorView) -> u64 {
    let cut = (at_stake(v) * SLASH_FRACTION_BPS / 10_000) as u64;
    if cut < 1 {
        1
    } else {
        cut
    }
}

/// The validator after a penalty: bonded stake gives first, then the unbonding
/// entries, and the key is barred for good.
pub open spec fn slashed(v: ValidatorView) -> ValidatorView {
    let bonded = if penalty(v) < v.staked {
        penalty(v)
    } else {
        v.staked
    };
    ValidatorView {
        staked: (v.staked - bonded) as u64,
        unbonding: positive(reduced(v.unbonding, penalty(v) - bonded)),
        tombstoned: true,
    }
}

/// The part of a penalty that the evidence's submitter earns; the rest is burned.
pub open spec fn reward(v: ValidatorView) -> u64 {
    (penalty(v) * SLASH_REWARD_BPS / 10_000) as u64
}

pub open spec fn step_slash(
    st: State,
    id: Seq<u8>,
    beneficiary: Seq<u8>,
    block_a: Seq<u8>,
    block_b: Seq<u8>,
    r: Reply,
) -> Result<State, LedgerError> {
    let v = st.validator(id);
    if block_a == block_b || !r.signatures {
        Err(LedgerError::BadEvidence)
    } else if v.tombstoned || at_stake(v) == 0 {
        Err(LedgerError::NothingToSlash)
    } else {
        let s = st.with_validator(id, slashed(v));
        if st.registered(beneficiary) {
            Ok(credited(s, beneficiary, LAT_TOKEN, reward(v)))
        } else {
            Ok(s)
        }
    }
}

/// What `tx` does in a block at `height`, given the cryptography layer's
/// answers: the new state, or why it is refused.
pub open spec fn step(st: State, tx: Transaction, height: u64, r: Reply) -> Result<
    State,
    LedgerError,
> {
    match tx {
        Transaction::Register { pubkey, .. } => step_register(st, pubkey@),
        Transaction::CreateToken { ticker, creator, supply, .. } => step_create_token(
            st,
            ticker@,
            creator@,
            supply,
            r,
        ),
        Transaction::SolventTransfer { token, xfer } => step_solvent(st, token, xfer, r),
        Transaction::Rollover { account, nonce, .. } => step_rollover(st, account@, nonce, r),
        Transaction::DeployContract { deployer, code, .. } => step_deploy(st, deployer@, code@, r),
        Transaction::CallContract { contract, caller, input, nonce, .. } => step_call(
            st,
            contract@,
            caller@,
            input,
            nonce,
            r,
        ),
        Transaction::PublicTransfer { token, from, to, amount, fee, nonce, .. } => step_public(
            st,
            token,
            from@,
            to@,
            amount,
            fee,
            nonce,
            r,
        ),
        Transaction::Shield { token, from, to, amount, fee, nonce, .. } => step_shield(
            st,
            token,
            from@,
            to@,
            amount,
            fee,
            nonce,
            r,
        ),
        Transaction::Unshield { token, to, amount, xfer, .. } => step_unshield(
            st,
            token,
            to@,
            amount,
            xfer,
            r,
        ),
        Transaction::ShieldStealth { token, from, one_time, amount, fee, nonce, .. } =>
            step_shield_stealth(st, token, from@, one_time@, amount, fee, nonce, r),
        Transaction::AnonTransfer { token, xfer } => step_anon(st, token, xfer, height, r),
        Transaction::Stake { validator, amount, nonce, .. } => step_stake(
            st,
            validator@,
            amount,
            nonce,
            height,
            r,
        ),
        Transaction::Unstake { validator, amount, nonce, .. } => step_unstake(
            st,
            validator@,
            amount,
            nonce,
            height,
            r,
        ),
        Transaction::SlashEvidence { validator, beneficiary, block_a, block_b, .. } => step_slash(
            st,
            validator@,
            beneficiary@,
            block_a@,
            block_b@,
            r,
        ),
        _ => Ok(st),
    }
}

// --- machine limits ---------------------------------------------------------

/// Whether these rules cover a transaction: those of a pool, a curve or a hash lock have
/// rules of their own.
pub open spec fn covers(tx: Transaction) -> bool {
    match tx {
        Transaction::AddLiquidity { .. } => false,
        Transaction::RemoveLiquidity { .. } => false,
        Transaction::Swap { .. } => false,
        Transaction::HtlcLock { .. } => false,
        Transaction::HtlcClaim { .. } => false,
        Transaction::HtlcRefund { .. } => false,
        Transaction::CurveTrade { .. } => false,
        _ => true,
    }
}

/// Whether one more entry fits each table of the account's record.
pub open spec fn roomy(a: AccountView) -> bool {
    &&& a.balances.dom().len() < u32::MAX
    &&& a.pending.dom().len() < u32::MAX
    &&& a.public.dom().len() < u32::MAX
}

/// Whether the account has room, and its nonce can advance.
pub open spec fn can_spend(a: AccountView) -> bool {
    roomy(a) && a.nonce < u64::MAX
}

/// Whether these rules cover `tx`, and every counter, sum and table it touches
/// stays within its machine type.
pub open spec fn within_limits(st: State, tx: Transaction, height: u64) -> bool {
    match tx {
        Transaction::Register { .. } => true,
        Transaction::CreateToken { creator, .. } => st.next_token < u32::MAX && roomy(
            st.account(creator@),
        ),
        Transaction::SolventTransfer { xfer, .. } => can_spend(st.account(xfer.sender@)) && roomy(
            st.account(xfer.receiver@),
        ),
        Transaction::Rollover { account, .. } => {
            let a = st.account(account@);
            a.balances.dom().len() + a.pending.dom().len() <= u32::MAX && a.nonce < u64::MAX
        },
        Transaction::DeployContract { code, .. } => code@.len() <= u32::MAX,
        Transaction::CallContract { contract, caller, .. } => {
            &&& st.account(caller@).nonce < u64::MAX
            &&& st.contracts.contains_key(contract@) ==> st.contracts[contract@].storage.dom().len()
                + vm::DEFAULT_GAS <= u32::MAX
        },
        Transaction::PublicTransfer { from, to, .. } => can_spend(st.account(from@)) && roomy(
            st.account(to@),
        ),
        Transaction::Shield { from, to, .. } => can_spend(st.account(from@)) && roomy(
            st.account(to@),
        ),
        Transaction::Unshield { to, xfer, .. } => can_spend(st.account(xfer.sender@)) && roomy(
            st.account(to@),
        ),
        Transaction::ShieldStealth { from, one_time, .. } => can_spend(st.account(from@)) && roomy(
            st.account(one_time@),
        ),
        Transaction::AnonTransfer { xfer, .. } => {
            &&& forall|i: int|
                0 <= i < xfer.ring@.len() ==> roomy(#[trigger] st.account(xfer.ring@[i]@))
            &&& roomy(st.account(xfer.one_time@))
        },
        Transaction::Stake { validator, .. } => {
            &&& can_spend(st.account(validator@))
            &&& total(matured(st.validator(validator@).unbonding, height)) <= u64::MAX
        },
        Transaction::Unstake { validator, .. } => {
            &&& can_spend(st.account(validator@))
            &&& total(matured(st.validator(validator@).unbonding, height)) <= u64::MAX
            &&& st.validator(validator@).unbonding.len() < u32::MAX
            &&& height + UNBONDING_BLOCKS <= u64::MAX
        },
        Transaction::SlashEvidence { validator, beneficiary, .. } => {
            &&& total(st.validator(validator@).unbonding) <= u64::MAX
            &&& roomy(st.account(beneficiary@))
        },
        _ => false,
    }
}

} // verus!
