//! The ledger's objects (accounts, tokens, contracts, validators) and the
//! records that hold them.
//!
//! One record per object, keyed by a one-byte kind tag and the object's id, so
//! that each kind occupies a contiguous, ordered key range. Token ids stand in
//! big-endian form in keys: key order is then id order.

use std::collections::HashMap;

use vstd::prelude::*;
use vstd::std_specs::hash::*;
use vstd::utf8::*;

use crate::bytes;
use crate::bytes::{be_bytes, push_bytes, push_u32, push_u64};
use crate::points;
use crate::reader;
use crate::reader::Reader;
use crate::tables;
use crate::tables::{list_cts, push_cts, push_slots, push_sums, take_cts, take_slots, take_sums};
use crate::text;
use crate::text::{utf8_of, utf8_string};
use crate::vm::Storage;

verus! {

broadcast use group_hash_axioms;

pub const REC_ACCOUNT: u8 = 97;

pub const REC_TOKEN: u8 = 116;

/// Ticker to token id: the uniqueness guarantee lives on this key range.
pub const REC_TICKER: u8 = 117;

pub const REC_CONTRACT: u8 = 99;

pub const REC_NULLIFIER: u8 = 110;

pub const REC_VALIDATOR: u8 = 118;

/// The single record of the next token id.
pub const REC_META: u8 = 109;

// --- the objects ------------------------------------------------------------

/// One account's state.
///
/// Confidential value is split into `balances` (spendable now) and `pending`
/// (received but not yet rolled in). Incoming transfers land in `pending`, so
/// they never change the balance an in-flight outgoing proof was built against.
/// `nonce` versions outgoing spends to prevent replay.
pub struct Account {
    pub balances: HashMap<u32, [u8; 64]>,
    pub pending: HashMap<u32, [u8; 64]>,
    /// The transparent balance per token.
    pub public: HashMap<u32, u64>,
    pub nonce: u64,
}

/// An account as a mathematical value.
#[verifier::ext_equal]
pub struct AccountView {
    pub balances: Map<u32, [u8; 64]>,
    pub pending: Map<u32, [u8; 64]>,
    pub public: Map<u32, u64>,
    pub nonce: u64,
}

/// What is recorded of a created token.
#[derive(Clone, Debug)]
pub struct TokenMeta {
    pub id: u32,
    pub ticker: String,
    pub creator: [u8; 32],
    pub supply: u64,
}

/// A token as a mathematical value; the ticker by its UTF-8 form.
#[verifier::ext_equal]
pub struct TokenView {
    pub id: u32,
    pub ticker: Seq<u8>,
    pub creator: Seq<u8>,
    pub supply: u64,
}

/// A deployed contract: its bytecode and persistent storage.
pub struct Contract {
    pub code: Vec<u8>,
    pub storage: Storage,
}

/// A contract as a mathematical value.
#[verifier::ext_equal]
pub struct ContractView {
    pub code: Seq<u8>,
    pub storage: Map<u64, u64>,
}

/// A validator's staking state: the bonded weight that the validator set is
/// derived from, and unbonding entries still in their delay window.
#[derive(Clone, Debug)]
pub struct Validator {
    /// Bonded stake in public LAT.
    pub staked: u64,
    /// Unbonding entries as `(amount, release_height)`, oldest first.
    pub unbonding: Vec<(u64, u64)>,
    /// Slashed for equivocation. A slash leaves residual stake, so this is what
    /// stops a second slash and bars re-entry to the validator set.
    pub tombstoned: bool,
}

/// A validator as a mathematical value.
#[verifier::ext_equal]
pub struct ValidatorView {
    pub staked: u64,
    pub unbonding: Seq<(u64, u64)>,
    pub tombstoned: bool,
}

impl View for Account {
    type V = AccountView;

    open spec fn view(&self) -> AccountView {
        AccountView {
            balances: self.balances@,
            pending: self.pending@,
            public: self.public@,
            nonce: self.nonce,
        }
    }
}

impl View for TokenMeta {
    type V = TokenView;

    open spec fn view(&self) -> TokenView {
        TokenView {
            id: self.id,
            ticker: encode_utf8(self.ticker@),
            creator: self.creator@,
            supply: self.supply,
        }
    }
}

impl View for Contract {
    type V = ContractView;

    open spec fn view(&self) -> ContractView {
        ContractView { code: self.code@, storage: self.storage@ }
    }
}

impl View for Validator {
    type V = ValidatorView;

    open spec fn view(&self) -> ValidatorView {
        ValidatorView {
            staked: self.staked,
            unbonding: self.unbonding@,
            tombstoned: self.tombstoned,
        }
    }
}

impl AccountView {
    /// A fresh account.
    pub open spec fn empty() -> AccountView {
        AccountView {
            balances: Map::empty(),
            pending: Map::empty(),
            public: Map::empty(),
            nonce: 0,
        }
    }

    /// Whether a record can hold the account: its tables' counts are four bytes.
    pub open spec fn fits(self) -> bool {
        &&& self.balances.dom().finite()
        &&& self.balances.dom().len() <= u32::MAX
        &&& self.pending.dom().finite()
        &&& self.pending.dom().len() <= u32::MAX
        &&& self.public.dom().finite()
        &&& self.public.dom().len() <= u32::MAX
    }

    /// The spendable balance of `token`, `zero` where there is none.
    pub open spec fn balance(self, token: u32, zero: [u8; 64]) -> [u8; 64] {
        if self.balances.contains_key(token) {
            self.balances[token]
        } else {
            zero
        }
    }

    /// The pending balance of `token`, `zero` where there is none.
    pub open spec fn pending_of(self, token: u32, zero: [u8; 64]) -> [u8; 64] {
        if self.pending.contains_key(token) {
            self.pending[token]
        } else {
            zero
        }
    }

    /// The transparent balance of `token`.
    pub open spec fn public_of(self, token: u32) -> u64 {
        if self.public.contains_key(token) {
            self.public[token]
        } else {
            0
        }
    }

    pub open spec fn with_balance(self, token: u32, ct: [u8; 64]) -> AccountView {
        AccountView { balances: self.balances.insert(token, ct), ..self }
    }

    pub open spec fn with_pending(self, token: u32, ct: [u8; 64]) -> AccountView {
        AccountView { pending: self.pending.insert(token, ct), ..self }
    }

    pub open spec fn with_public(self, token: u32, amount: u64) -> AccountView {
        AccountView { public: self.public.insert(token, amount), ..self }
    }

    /// One spend later.
    pub open spec fn spent(self) -> AccountView {
        AccountView { nonce: (self.nonce + 1) as u64, ..self }
    }
}

impl ContractView {
    /// Whether a record can hold the contract.
    pub open spec fn fits(self) -> bool {
        &&& self.code.len() <= u32::MAX
        &&& self.storage.dom().finite()
        &&& self.storage.dom().len() <= u32::MAX
    }
}

impl TokenView {
    /// Whether a record can hold the token.
    pub open spec fn fits(self) -> bool {
        &&& self.ticker.len() <= u32::MAX
        &&& valid_utf8(self.ticker)
        &&& self.creator.len() == 32
    }
}

impl ValidatorView {
    /// A key that never staked.
    pub open spec fn empty() -> ValidatorView {
        ValidatorView { staked: 0, unbonding: Seq::empty(), tombstoned: false }
    }

    /// Whether a record can hold the validator.
    pub open spec fn fits(self) -> bool {
        self.unbonding.len() <= u32::MAX
    }

    /// Whether nothing is left to record: no stake, and no tombstone, which is kept
    /// for good.
    pub open spec fn drained(self) -> bool {
        self.staked == 0 && self.unbonding.len() == 0 && !self.tombstoned
    }
}

impl Account {
    /// A fresh account.
    pub fn new() -> (a: Account)
        ensures
            a@ == AccountView::empty(),
    {
        let a = Account {
            balances: HashMap::new(),
            pending: HashMap::new(),
            public: HashMap::new(),
            nonce: 0,
        };
        assert(a@ =~= AccountView::empty());
        a
    }

    pub fn balance(&self, token: u32, zero: &[u8; 64]) -> (r: [u8; 64])
        ensures
            r == self@.balance(token, *zero),
    {
        match self.balances.get(&token) {
            Some(ct) => *ct,
            None => *zero,
        }
    }

    pub fn pending(&self, token: u32, zero: &[u8; 64]) -> (r: [u8; 64])
        ensures
            r == self@.pending_of(token, *zero),
    {
        match self.pending.get(&token) {
            Some(ct) => *ct,
            None => *zero,
        }
    }

    pub fn public(&self, token: u32) -> (r: u64)
        ensures
            r == self@.public_of(token),
    {
        match self.public.get(&token) {
            Some(v) => *v,
            None => 0,
        }
    }

    pub fn set(&mut self, token: u32, ct: [u8; 64])
        ensures
            final(self)@ == old(self)@.with_balance(token, ct),
    {
        self.balances.insert(token, ct);
        assert(self@ =~= old(self)@.with_balance(token, ct));
    }

    pub fn set_pending(&mut self, token: u32, ct: [u8; 64])
        ensures
            final(self)@ == old(self)@.with_pending(token, ct),
    {
        self.pending.insert(token, ct);
        assert(self@ =~= old(self)@.with_pending(token, ct));
    }

    pub fn set_public(&mut self, token: u32, amount: u64)
        ensures
            final(self)@ == old(self)@.with_public(token, amount),
    {
        self.public.insert(token, amount);
        assert(self@ =~= old(self)@.with_public(token, amount));
    }
}

impl Default for Account {
    fn default() -> (a: Account)
        ensures
            a@ == AccountView::empty(),
    {
        Account::new()
    }
}

impl Validator {
    /// A key that never staked.
    pub fn new() -> (v: Validator)
        ensures
            v@ == ValidatorView::empty(),
    {
        let v = Validator { staked: 0, unbonding: Vec::new(), tombstoned: false };
        assert(v@ =~= ValidatorView::empty());
        v
    }
}

impl Default for Validator {
    fn default() -> (v: Validator)
        ensures
            v@ == ValidatorView::empty(),
    {
        Validator::new()
    }
}

// --- record bodies ----------------------------------------------------------

/// An account's record body.
pub open spec fn account_bytes(a: AccountView) -> Seq<u8> {
    bytes::le8(a.nonce) + (tables::cts_bytes(a.balances) + (tables::cts_bytes(a.pending)
        + tables::sums_bytes(a.public)))
}

/// An account at the front of `s`, and what follows it.
pub open spec fn read_account(s: Seq<u8>) -> Option<(AccountView, Seq<u8>)> {
    if s.len() < 8 {
        None
    } else {
        let nonce = bytes::of_le8(reader::head(s, 8));
        match tables::read_cts(reader::tail(s, 8)) {
            None => None,
            Some((balances, s1)) => match tables::read_cts(s1) {
                None => None,
                Some((pending, s2)) => match tables::read_sums(s2) {
                    None => None,
                    Some((public, s3)) => Some(
                        (AccountView { balances, pending, public, nonce }, s3),
                    ),
                },
            },
        }
    }
}

/// The ciphertexts in the account at the front of `s`, each field of its two tables.
pub open spec fn account_cts(s: Seq<u8>) -> Seq<[u8; 64]> {
    let s1 = (tables::read_cts(reader::tail(s, 8))->0).1;
    tables::listed_cts(reader::tail(s, 8)) + tables::listed_cts(s1)
}

/// Whether an account holds a ciphertext, as a balance or a pending one.
pub open spec fn holds_ct(a: AccountView, ct: [u8; 64]) -> bool {
    ||| exists|t: u32| a.balances.contains_key(t) && #[trigger] a.balances[t] == ct
    ||| exists|t: u32| a.pending.contains_key(t) && #[trigger] a.pending[t] == ct
}

/// Every ciphertext that an account holds is among those in its bytes.
pub proof fn lemma_account_cts(s: Seq<u8>, ct: [u8; 64])
    requires
        read_account(s) is Some,
        holds_ct((read_account(s)->0).0, ct),
    ensures
        account_cts(s).contains(ct),
{
    let a = (read_account(s)->0).0;
    let x = tables::listed_cts(reader::tail(s, 8));
    let s1 = (tables::read_cts(reader::tail(s, 8))->0).1;
    let y = tables::listed_cts(s1);
    tables::lemma_cts_listed(reader::tail(s, 8));
    tables::lemma_cts_listed(s1);
    if exists|t: u32| a.balances.contains_key(t) && #[trigger] a.balances[t] == ct {
        let t = choose|t: u32| a.balances.contains_key(t) && #[trigger] a.balances[t] == ct;
        let i = choose|i: int| 0 <= i < x.len() && x[i] == ct;
        assert((x + y)[i] == ct);
    } else {
        let t = choose|t: u32| a.pending.contains_key(t) && #[trigger] a.pending[t] == ct;
        let i = choose|i: int| 0 <= i < y.len() && y[i] == ct;
        assert((x + y)[x.len() + i] == ct);
    }
}

/// A token's record body.
pub open spec fn token_bytes(t: TokenView) -> Seq<u8> {
    bytes::le4(t.id) + (bytes::le4(t.ticker.len() as u32) + (t.ticker + (t.creator + bytes::le8(
        t.supply,
    ))))
}

/// A token at the front of `s`, and what follows it.
pub open spec fn read_token(s: Seq<u8>) -> Option<(TokenView, Seq<u8>)> {
    if s.len() < 8 {
        None
    } else {
        let id = bytes::of_le4(reader::head(s, 4));
        let n = bytes::of_le4(reader::head(reader::tail(s, 4), 4)) as int;
        let s1 = reader::tail(reader::tail(s, 4), 4);
        if s1.len() < n {
            None
        } else {
            let ticker = reader::head(s1, n);
            let s2 = reader::tail(s1, n);
            if !valid_utf8(ticker) || s2.len() < 40 {
                None
            } else {
                let s3 = reader::tail(s2, 32);
                Some(
                    (
                        TokenView {
                            id,
                            ticker,
                            creator: reader::head(s2, 32),
                            supply: bytes::of_le8(reader::head(s3, 8)),
                        },
                        reader::tail(s3, 8),
                    ),
                )
            }
        }
    }
}

/// A contract's record body.
pub open spec fn contract_bytes(c: ContractView) -> Seq<u8> {
    bytes::le4(c.code.len() as u32) + (c.code + tables::slots_bytes(c.storage))
}

/// A contract at the front of `s`, and what follows it.
pub open spec fn read_contract(s: Seq<u8>) -> Option<(ContractView, Seq<u8>)> {
    if s.len() < 4 {
        None
    } else {
        let n = bytes::of_le4(reader::head(s, 4)) as int;
        let s1 = reader::tail(s, 4);
        if s1.len() < n {
            None
        } else {
            match tables::read_slots(reader::tail(s1, n)) {
                None => None,
                Some((storage, s2)) => Some(
                    (ContractView { code: reader::head(s1, n), storage }, s2),
                ),
            }
        }
    }
}

/// Unbonding entries, one after the other.
pub open spec fn unbonding_rows(u: Seq<(u64, u64)>) -> Seq<u8>
    decreases u.len(),
{
    if u.len() == 0 {
        Seq::empty()
    } else {
        unbonding_rows(u.drop_last()) + (bytes::le8(u.last().0) + bytes::le8(u.last().1))
    }
}

/// The first `n` unbonding entries of `s`.
pub open spec fn unbonding_in(s: Seq<u8>, n: nat) -> Seq<(u64, u64)> {
    Seq::new(
        n,
        |i: int|
            (
                bytes::of_le8(s.subrange(16 * i, 16 * i + 8)),
                bytes::of_le8(s.subrange(16 * i + 8, 16 * i + 16)),
            ),
    )
}

/// A validator's record body.
pub open spec fn validator_bytes(v: ValidatorView) -> Seq<u8> {
    bytes::le8(v.staked) + (bytes::le4(v.unbonding.len() as u32) + (unbonding_rows(v.unbonding)
        + seq![if v.tombstoned { 1u8 } else { 0u8 }]))
}

/// A validator at the front of `s`, and what follows it.
pub open spec fn read_validator(s: Seq<u8>) -> Option<(ValidatorView, Seq<u8>)> {
    if s.len() < 12 {
        None
    } else {
        let staked = bytes::of_le8(reader::head(s, 8));
        let n = bytes::of_le4(reader::head(reader::tail(s, 8), 4)) as nat;
        let s1 = reader::tail(reader::tail(s, 8), 4);
        if s1.len() < 16 * n + 1 {
            None
        } else {
            let s2 = reader::tail(s1, 16 * n as int);
            Some(
                (
                    ValidatorView {
                        staked,
                        unbonding: unbonding_in(s1, n),
                        tombstoned: s2[0] != 0,
                    },
                    reader::tail(s2, 1),
                ),
            )
        }
    }
}

/// The object that a whole record body stands for.
pub open spec fn whole<T>(r: Option<(T, Seq<u8>)>) -> Option<T> {
    match r {
        Some((v, rest)) => if rest.len() == 0 {
            Some(v)
        } else {
            None
        },
        None => None,
    }
}

/// What is written for an account is read back.
pub proof fn lemma_account_bytes(a: AccountView, t: Seq<u8>)
    requires
        a.fits(),
    ensures
        read_account(account_bytes(a) + t) == Some((a, t)),
        whole(read_account(account_bytes(a))) == Some(a),
{
    broadcast use bytes::group_le;

    let b = tables::cts_bytes(a.balances);
    let p = tables::cts_bytes(a.pending);
    let u = tables::sums_bytes(a.public);
    assert forall|t: Seq<u8>| read_account(#[trigger] (account_bytes(a) + t)) == Some((a, t)) by {
        let s = account_bytes(a) + t;
        assert(reader::head(s, 8) =~= bytes::le8(a.nonce));
        assert(reader::tail(s, 8) =~= b + (p + (u + t)));
        tables::lemma_read_cts(a.balances, p + (u + t));
        tables::lemma_read_cts(a.pending, u + t);
        tables::lemma_read_sums(a.public, t);
    }
    assert(account_bytes(a) + Seq::<u8>::empty() =~= account_bytes(a));
}

/// An account read once is read the same with more behind it.
pub proof fn lemma_account_stable(s: Seq<u8>, t: Seq<u8>)
    ensures
        match read_account(s) {
            Some((a, rest)) => a.fits() && read_account(s + t) == Some((a, rest + t)),
            None => true,
        },
{
    if let Some((a, rest)) = read_account(s) {
        reader::lemma_more(s, t, 8);
        let s0 = reader::tail(s, 8);
        tables::lemma_cts_stable(s0, t);
        let s1 = (tables::read_cts(s0)->0).1;
        tables::lemma_cts_stable(s1, t);
        let s2 = (tables::read_cts(s1)->0).1;
        tables::lemma_sums_stable(s2, t);
    }
}

/// What is written for a token is read back.
pub proof fn lemma_token_bytes(k: TokenView, t: Seq<u8>)
    requires
        k.fits(),
    ensures
        read_token(token_bytes(k) + t) == Some((k, t)),
        whole(read_token(token_bytes(k))) == Some(k),
{
    broadcast use bytes::group_le;

    let n = k.ticker.len() as int;
    assert forall|t: Seq<u8>| read_token(#[trigger] (token_bytes(k) + t)) == Some((k, t)) by {
        let s = token_bytes(k) + t;
        assert(reader::head(s, 4) =~= bytes::le4(k.id));
        let s0 = reader::tail(s, 4);
        assert(reader::head(s0, 4) =~= bytes::le4(n as u32));
        let s1 = reader::tail(s0, 4);
        assert(s1 =~= k.ticker + (k.creator + (bytes::le8(k.supply) + t)));
        assert(reader::head(s1, n) =~= k.ticker);
        let s2 = reader::tail(s1, n);
        assert(s2 =~= k.creator + (bytes::le8(k.supply) + t));
        assert(reader::head(s2, 32) =~= k.creator);
        let s3 = reader::tail(s2, 32);
        assert(reader::head(s3, 8) =~= bytes::le8(k.supply));
        assert(reader::tail(s3, 8) =~= t);
    }
    assert(token_bytes(k) + Seq::<u8>::empty() =~= token_bytes(k));
}

/// A token read once is read the same with more behind it.
pub proof fn lemma_token_stable(s: Seq<u8>, t: Seq<u8>)
    ensures
        match read_token(s) {
            Some((k, rest)) => k.fits() && read_token(s + t) == Some((k, rest + t)),
            None => true,
        },
{
    if let Some((k, rest)) = read_token(s) {
        reader::lemma_more(s, t, 4);
        let s0 = reader::tail(s, 4);
        reader::lemma_more(s0, t, 4);
        let s1 = reader::tail(s0, 4);
        let n = bytes::of_le4(reader::head(s0, 4)) as int;
        reader::lemma_more(s1, t, n);
        let s2 = reader::tail(s1, n);
        reader::lemma_more(s2, t, 32);
        reader::lemma_more(reader::tail(s2, 32), t, 8);
    }
}

/// What is written for a contract is read back.
pub proof fn lemma_contract_bytes(c: ContractView, t: Seq<u8>)
    requires
        c.fits(),
    ensures
        read_contract(contract_bytes(c) + t) == Some((c, t)),
        whole(read_contract(contract_bytes(c))) == Some(c),
{
    broadcast use bytes::group_le;

    let n = c.code.len() as int;
    assert forall|t: Seq<u8>| read_contract(#[trigger] (contract_bytes(c) + t)) == Some((c, t)) by {
        let s = contract_bytes(c) + t;
        assert(reader::head(s, 4) =~= bytes::le4(n as u32));
        let s1 = reader::tail(s, 4);
        assert(reader::head(s1, n) =~= c.code);
        assert(reader::tail(s1, n) =~= tables::slots_bytes(c.storage) + t);
        tables::lemma_read_slots(c.storage, t);
    }
    assert(contract_bytes(c) + Seq::<u8>::empty() =~= contract_bytes(c));
}

/// A contract read once is read the same with more behind it.
pub proof fn lemma_contract_stable(s: Seq<u8>, t: Seq<u8>)
    ensures
        match read_contract(s) {
            Some((c, rest)) => c.fits() && read_contract(s + t) == Some((c, rest + t)),
            None => true,
        },
{
    if let Some((c, rest)) = read_contract(s) {
        reader::lemma_more(s, t, 4);
        let s1 = reader::tail(s, 4);
        let n = bytes::of_le4(reader::head(s, 4)) as int;
        reader::lemma_more(s1, t, n);
        tables::lemma_slots_stable(reader::tail(s1, n), t);
    }
}

proof fn lemma_unbonding_rows(u: Seq<(u64, u64)>, t: Seq<u8>)
    ensures
        unbonding_rows(u).len() == 16 * u.len(),
        unbonding_in(unbonding_rows(u) + t, u.len()) == u,
    decreases u.len(),
{
    broadcast use bytes::group_le;

    if u.len() > 0 {
        let h = u.drop_last();
        let row = bytes::le8(u.last().0) + bytes::le8(u.last().1);
        lemma_unbonding_rows(h, row + t);
        let s = unbonding_rows(u) + t;
        assert(s =~= unbonding_rows(h) + (row + t));
        let got = unbonding_in(s, u.len());
        let at = 16 * (u.len() - 1);
        assert forall|i: int| 0 <= i < u.len() implies got[i] == u[i] by {
            if i < h.len() {
                assert(unbonding_in(s, h.len())[i] == h[i]);
            } else {
                assert(s.subrange(at, at + 8) =~= bytes::le8(u.last().0));
                assert(s.subrange(at + 8, at + 16) =~= bytes::le8(u.last().1));
            }
        }
        assert(got =~= u);
    } else {
        assert(unbonding_in(unbonding_rows(u) + t, 0) =~= u);
    }
}

/// What is written for a validator is read back.
pub proof fn lemma_validator_bytes(v: ValidatorView, t: Seq<u8>)
    requires
        v.fits(),
    ensures
        read_validator(validator_bytes(v) + t) == Some((v, t)),
        whole(read_validator(validator_bytes(v))) == Some(v),
{
    broadcast use bytes::group_le;

    let n = v.unbonding.len();
    let flag = seq![if v.tombstoned { 1u8 } else { 0u8 }];
    assert forall|t: Seq<u8>| read_validator(#[trigger] (validator_bytes(v) + t))
        == Some((v, t)) by {
        let s = validator_bytes(v) + t;
        assert(reader::head(s, 8) =~= bytes::le8(v.staked));
        let s0 = reader::tail(s, 8);
        assert(reader::head(s0, 4) =~= bytes::le4(n as u32));
        let s1 = reader::tail(s0, 4);
        assert(s1 =~= unbonding_rows(v.unbonding) + (flag + t));
        lemma_unbonding_rows(v.unbonding, flag + t);
        let s2 = reader::tail(s1, 16 * n as int);
        assert(s2 =~= flag + t);
        assert(reader::tail(s2, 1) =~= t);
    }
    assert(validator_bytes(v) + Seq::<u8>::empty() =~= validator_bytes(v));
}

/// A validator read once is read the same with more behind it.
pub proof fn lemma_validator_stable(s: Seq<u8>, t: Seq<u8>)
    ensures
        match read_validator(s) {
            Some((v, rest)) => v.fits() && read_validator(s + t) == Some((v, rest + t)),
            None => true,
        },
{
    if let Some((v, rest)) = read_validator(s) {
        reader::lemma_more(s, t, 8);
        let s0 = reader::tail(s, 8);
        reader::lemma_more(s0, t, 4);
        let s1 = reader::tail(s0, 4);
        let n = bytes::of_le4(reader::head(s0, 4)) as nat;
        reader::lemma_more(s1, t, 16 * n as int);
        let s2 = reader::tail(s1, 16 * n as int);
        reader::lemma_more(s2, t, 1);
        let a = unbonding_in(s1, n);
        let b = unbonding_in(s1 + t, n);
        assert forall|i: int| 0 <= i < n implies a[i] == b[i] by {
            assert((s1 + t).subrange(16 * i, 16 * i + 8) =~= s1.subrange(16 * i, 16 * i + 8));
            assert((s1 + t).subrange(16 * i + 8, 16 * i + 16) =~= s1.subrange(
                16 * i + 8,
                16 * i + 16,
            ));
        }
        assert(a =~= b);
    }
}

/// Append an account's record body.
pub fn push_account(out: &mut Vec<u8>, a: &Account)
    requires
        a@.fits(),
    ensures
        final(out)@ == old(out)@ + account_bytes(a@),
{
    push_u64(out, a.nonce);
    push_cts(out, &a.balances);
    push_cts(out, &a.pending);
    push_sums(out, &a.public);
    assert(out@ =~= old(out)@ + account_bytes(a@));
}

/// Read an account's record body.
pub fn take_account(r: &mut Reader) -> (a: Option<Account>)
    requires
        old(r).ok(),
    ensures
        final(r).ok(),
        match a {
            Some(a) => read_account(old(r).rest()) == Some((a@, final(r).rest())),
            None => read_account(old(r).rest()) is None,
        },
{
    let nonce = r.u64()?;
    let balances = take_cts(r)?;
    let pending = take_cts(r)?;
    let public = take_sums(r)?;
    Some(Account { balances, pending, public, nonce })
}

/// Read past an account's record body, and list its ciphertexts.
pub fn list_account_cts(r: &mut Reader, out: &mut Vec<[u8; 64]>) -> (ok: bool)
    requires
        old(r).ok(),
    ensures
        final(r).ok(),
        ok == (read_account(old(r).rest()) is Some),
        ok ==> final(r).rest() == (read_account(old(r).rest())->0).1,
        ok ==> final(out)@ == old(out)@ + account_cts(old(r).rest()),
{
    if r.u64().is_none() || !list_cts(r, out) || !list_cts(r, out) || take_sums(r).is_none() {
        return false;
    }
    assert(out@ =~= old(out)@ + account_cts(old(r).rest()));
    true
}

pub fn encode_account(a: &Account) -> (b: Vec<u8>)
    requires
        a@.fits(),
    ensures
        b@ == account_bytes(a@),
{
    let mut v: Vec<u8> = Vec::new();
    push_account(&mut v, a);
    assert(v@ =~= account_bytes(a@));
    v
}

/// The account of a record's body that the ledger already holds: its ciphertexts
/// were taken for such when it came in.
pub(crate) fn account_in(b: &[u8]) -> (r: Option<Account>)
    ensures
        match r {
            Some(a) => whole(read_account(b@)) == Some(a@),
            None => whole(read_account(b@)) is None,
        },
{
    let mut r = Reader::new(b);
    let a = take_account(&mut r)?;
    if r.left() == 0 {
        Some(a)
    } else {
        None
    }
}

/// The account of a record's body. `answers` says of each ciphertext in it, in the
/// order in which they stand there, whether the cryptography layer takes it for one.
pub fn decode_account(b: &[u8], answers: &[bool]) -> (r: Option<Account>)
    ensures
        match r {
            Some(a) => whole(read_account(b@)) == Some(a@) && points::taken(
                account_cts(b@),
                answers@,
            ),
            None => whole(read_account(b@)) is None || !points::taken(account_cts(b@), answers@),
        },
{
    let a = account_in(b)?;
    let mut r = Reader::new(b);
    let mut asked: Vec<[u8; 64]> = Vec::new();
    let listed = list_account_cts(&mut r, &mut asked);
    assert(listed && asked@ =~= account_cts(b@));
    if points::all_taken(&asked, answers) {
        Some(a)
    } else {
        None
    }
}

/// Append a token's record body.
pub fn push_token(out: &mut Vec<u8>, t: &TokenMeta)
    requires
        t@.fits(),
    ensures
        final(out)@ == old(out)@ + token_bytes(t@),
{
    let ticker = utf8_of(t.ticker.as_str());
    push_u32(out, t.id);
    push_u32(out, ticker.len() as u32);
    push_bytes(out, ticker.as_slice());
    push_bytes(out, t.creator.as_slice());
    push_u64(out, t.supply);
    assert(out@ =~= old(out)@ + token_bytes(t@));
}

/// Read a token's record body.
pub fn take_token(r: &mut Reader) -> (t: Option<TokenMeta>)
    requires
        old(r).ok(),
    ensures
        final(r).ok(),
        match t {
            Some(t) => read_token(old(r).rest()) == Some((t@, final(r).rest())),
            None => read_token(old(r).rest()) is None,
        },
{
    let id = r.u32()?;
    let n = r.u32()?;
    let raw = r.take(n as usize)?;
    let ghost bytes = raw@;
    let ticker = utf8_string(raw)?;
    proof {
        text::lemma_utf8_bytes(bytes);
    }
    let creator = r.array::<32>()?;
    let supply = r.u64()?;
    Some(TokenMeta { id, ticker, creator, supply })
}

pub fn encode_token(t: &TokenMeta) -> (b: Vec<u8>)
    requires
        t@.fits(),
    ensures
        b@ == token_bytes(t@),
{
    let mut v: Vec<u8> = Vec::new();
    push_token(&mut v, t);
    assert(v@ =~= token_bytes(t@));
    v
}

pub fn decode_token(b: &[u8]) -> (r: Option<TokenMeta>)
    ensures
        match r {
            Some(t) => whole(read_token(b@)) == Some(t@),
            None => whole(read_token(b@)) is None,
        },
{
    let mut r = Reader::new(b);
    let t = take_token(&mut r)?;
    if r.left() == 0 {
        Some(t)
    } else {
        None
    }
}

/// Append a contract's record body.
pub fn push_contract(out: &mut Vec<u8>, c: &Contract)
    requires
        c@.fits(),
    ensures
        final(out)@ == old(out)@ + contract_bytes(c@),
{
    push_u32(out, c.code.len() as u32);
    push_bytes(out, c.code.as_slice());
    push_slots(out, &c.storage);
    assert(out@ =~= old(out)@ + contract_bytes(c@));
}

/// Read a contract's record body.
pub fn take_contract(r: &mut Reader) -> (c: Option<Contract>)
    requires
        old(r).ok(),
    ensures
        final(r).ok(),
        match c {
            Some(c) => read_contract(old(r).rest()) == Some((c@, final(r).rest())),
            None => read_contract(old(r).rest()) is None,
        },
{
    let n = r.u32()?;
    let code = r.take(n as usize)?;
    let storage = take_slots(r)?;
    Some(Contract { code, storage })
}

pub fn encode_contract(c: &Contract) -> (b: Vec<u8>)
    requires
        c@.fits(),
    ensures
        b@ == contract_bytes(c@),
{
    let mut v: Vec<u8> = Vec::new();
    push_contract(&mut v, c);
    assert(v@ =~= contract_bytes(c@));
    v
}

pub fn decode_contract(b: &[u8]) -> (r: Option<Contract>)
    ensures
        match r {
            Some(c) => whole(read_contract(b@)) == Some(c@),
            None => whole(read_contract(b@)) is None,
        },
{
    let mut r = Reader::new(b);
    let c = take_contract(&mut r)?;
    if r.left() == 0 {
        Some(c)
    } else {
        None
    }
}

/// Append a validator's record body.
pub fn push_validator(out: &mut Vec<u8>, v: &Validator)
    requires
        v@.fits(),
    ensures
        final(out)@ == old(out)@ + validator_bytes(v@),
{
    push_u64(out, v.staked);
    push_u32(out, v.unbonding.len() as u32);
    let ghost start = out@;
    let ghost u = v.unbonding@;
    let mut i: usize = 0;
    assert(u.take(0) =~= Seq::empty());
    assert(start + Seq::<u8>::empty() =~= start);
    while i < v.unbonding.len()
        invariant
            i <= u.len(),
            u == v.unbonding@,
            out@ == start + unbonding_rows(u.take(i as int)),
        decreases u.len() - i,
    {
        let (amount, release) = v.unbonding[i];
        push_u64(out, amount);
        push_u64(out, release);
        i += 1;
        proof {
            assert(u.take(i as int).drop_last() =~= u.take(i - 1));
            assert(out@ =~= start + unbonding_rows(u.take(i as int)));
        }
    }
    assert(u.take(i as int) =~= u);
    out.push(if v.tombstoned { 1 } else { 0 });
    assert(out@ =~= old(out)@ + validator_bytes(v@));
}

/// Read a validator's record body.
pub fn take_validator(r: &mut Reader) -> (v: Option<Validator>)
    requires
        old(r).ok(),
    ensures
        final(r).ok(),
        match v {
            Some(v) => read_validator(old(r).rest()) == Some((v@, final(r).rest())),
            None => read_validator(old(r).rest()) is None,
        },
{
    let staked = r.u64()?;
    let n = r.u32()?;
    let ghost t = r.rest();
    let mut unbonding: Vec<(u64, u64)> = Vec::new();
    let mut i: u32 = 0;
    assert(reader::tail(t, 0) =~= t);
    while i < n
        invariant
            r.ok(),
            i <= n,
            16 * i <= t.len(),
            r.rest() == reader::tail(t, 16 * i),
            unbonding@ =~= unbonding_in(t, i as nat),
            old(r).rest().len() >= 12,
            t == reader::tail(reader::tail(old(r).rest(), 8), 4),
            n == bytes::of_le4(reader::head(reader::tail(old(r).rest(), 8), 4)),
        decreases n - i,
    {
        let ghost at = 16 * i;
        let amount = r.u64()?;
        let release = r.u64()?;
        proof {
            assert(reader::head(reader::tail(t, at), 8) =~= t.subrange(at, at + 8));
            assert(reader::head(reader::tail(reader::tail(t, at), 8), 8) =~= t.subrange(
                at + 8,
                at + 16,
            ));
            assert(reader::tail(reader::tail(reader::tail(t, at), 8), 8) =~= reader::tail(
                t,
                at + 16,
            ));
        }
        unbonding.push((amount, release));
        i += 1;
    }
    let flag = r.u8()?;
    Some(Validator { staked, unbonding, tombstoned: flag != 0 })
}

pub fn encode_validator(v: &Validator) -> (b: Vec<u8>)
    requires
        v@.fits(),
    ensures
        b@ == validator_bytes(v@),
{
    let mut out: Vec<u8> = Vec::new();
    push_validator(&mut out, v);
    assert(out@ =~= validator_bytes(v@));
    out
}

pub fn decode_validator(b: &[u8]) -> (r: Option<Validator>)
    ensures
        match r {
            Some(v) => whole(read_validator(b@)) == Some(v@),
            None => whole(read_validator(b@)) is None,
        },
{
    let mut r = Reader::new(b);
    let v = take_validator(&mut r)?;
    if r.left() == 0 {
        Some(v)
    } else {
        None
    }
}

// --- keys -------------------------------------------------------------------

/// The key of a record.
pub open spec fn key_of(tag: u8, body: Seq<u8>) -> Seq<u8> {
    seq![tag] + body
}

/// Records of different kinds, or of different ids, have different keys.
pub broadcast proof fn lemma_key_of(tag: u8, body: Seq<u8>)
    ensures
        (#[trigger] key_of(tag, body)).len() == body.len() + 1,
        key_of(tag, body)[0] == tag,
        reader::tail(key_of(tag, body), 1) == body,
{
    assert(reader::tail(key_of(tag, body), 1) =~= body);
}

/// The key of a record.
pub fn rec_key(tag: u8, body: &[u8]) -> (k: Vec<u8>)
    ensures
        k@ == key_of(tag, body@),
{
    let mut k: Vec<u8> = vec![tag];
    push_bytes(&mut k, body);
    assert(k@ =~= key_of(tag, body@));
    k
}

/// The key of a token's record.
pub fn token_key(id: u32) -> (k: Vec<u8>)
    ensures
        k@ == key_of(REC_TOKEN, bytes::be4(id)),
{
    let b = be_bytes(id);
    rec_key(REC_TOKEN, b.as_slice())
}

} // verus!
