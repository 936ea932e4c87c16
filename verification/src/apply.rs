//! Applying transactions to the ledger.
//!
//! The caller asks the cryptography layer what [`Ledger::terms`],
//! [`Ledger::bound_balance`] and [`signature_checks`] name, and hands its
//! answers in with the transaction.

use vstd::prelude::*;
use vstd::utf8::*;

use crate::bytes;
use crate::bytes::{copy_bytes, same_array, same_hash};
use crate::hashing;
use crate::ledger;
use crate::ledger::{DirtyKey, Ledger};
use crate::ordered;
use crate::ordered::keys_32;
use crate::records::{
    Account, AccountView, Contract, ContractView, TokenMeta, Validator, ValidatorView,
};
use crate::rules;
use crate::rules::{
    CryptoReply, LedgerError, Reply, SignatureCheck, State, Term, LAT_TOKEN, SLASH_FRACTION_BPS,
    SLASH_REWARD_BPS, UNBONDING_BLOCKS,
};
use crate::store::KVStore;
use crate::text;
use crate::ticker;
use crate::ticker::normalize_ticker;
use crate::transaction::{
    finality_vote_signing_bytes,
    AnonTransfer,
    SolventTransfer,
    Transaction,
};
use crate::vm;
use crate::vm::{contract_id, execute, Storage, DEFAULT_GAS};

verus! {

/// Whether a rule's outcome `want` is what came out: the new state, or an error
/// and every record as it was.
pub open spec fn outcome<B: KVStore>(
    r: Result<(), LedgerError>,
    was: Ledger<B>,
    now: Ledger<B>,
    want: Result<State, LedgerError>,
) -> bool {
    match r {
        Ok(_) => want == Ok::<State, LedgerError>(now.state()),
        Err(e) => {
            &&& want == Err::<State, LedgerError>(e)
            &&& now.objects() == was.objects()
            &&& now.next_token_id == was.next_token_id
            &&& now.state() == was.state()
        },
    }
}

/// Evidence that a confidential transaction's proof was verified ahead of its
/// turn. It is a hint, never an authority.
pub enum ProofPass {
    /// An anonymous transfer's proof holds. It is a matter of the transfer
    /// alone, so this can always be reused.
    Anon,
    /// A solvency proof holds against just this balance. It can be reused only
    /// where the live balance is bit for bit the same.
    AgainstBalance([u8; 64]),
}

/// Whether evidence settles a transaction's proof, given the live balance that
/// a solvency proof must hold against.
pub open spec fn settles(pre: Option<ProofPass>, tx: Transaction, live: Option<[u8; 64]>) -> bool {
    match tx {
        Transaction::AnonTransfer { .. } => pre matches Some(ProofPass::Anon),
        Transaction::SolventTransfer { .. } => pre matches Some(ProofPass::AgainstBalance(b))
            && live == Some(b),
        Transaction::Unshield { .. } => pre matches Some(ProofPass::AgainstBalance(b)) && live
            == Some(b),
        _ => false,
    }
}

/// A reply whose proof is settled by evidence or holds by itself.
pub open spec fn settled(r: Reply, yes: bool) -> Reply {
    Reply { proven: r.proven || yes, ..r }
}

/// Evidence decides nothing by itself: where it says what verification would
/// have said of the balance it names, a transaction fares as without it.
pub proof fn law_evidence_changes_nothing(
    pre: Option<ProofPass>,
    st: State,
    tx: Transaction,
    height: u64,
    r: Reply,
    holds: spec_fn(Option<[u8; 64]>) -> bool,
)
    requires
        r.proven == holds(rules::bound_balance(st, tx)),
        match pre {
            Some(ProofPass::Anon) => tx is AnonTransfer ==> holds(None),
            Some(ProofPass::AgainstBalance(b)) => holds(Some(b)),
            None => true,
        },
    ensures
        rules::step(
            st,
            tx,
            height,
            settled(r, settles(pre, tx, rules::bound_balance(st, tx))),
        ) == rules::step(st, tx, height, r),
{
    let s = settles(pre, tx, rules::bound_balance(st, tx));
    assert(settled(r, s) == r);
}

/// The entries that applying `tx` may change: never too few.
pub open spec fn touched(next_token: u32, tx: Transaction) -> Seq<DirtyKey> {
    match tx {
        Transaction::Register { pubkey, .. } => seq![DirtyKey::Account(pubkey)],
        Transaction::CreateToken { creator, .. } => seq![
            DirtyKey::Account(creator),
            DirtyKey::Token(
                if next_token == 0 {
                    0
                } else {
                    (next_token - 1) as u32
                },
            ),
            DirtyKey::Meta,
        ],
        Transaction::SolventTransfer { xfer, .. } => seq![
            DirtyKey::Account(xfer.sender),
            DirtyKey::Account(xfer.receiver),
        ],
        Transaction::Rollover { account, .. } => seq![DirtyKey::Account(account)],
        Transaction::DeployContract { deployer, code, .. } => seq![
            DirtyKey::Contract(hashing::blake3_digest(vm::contract_preimage(deployer@, code@))),
            DirtyKey::Account(deployer),
        ],
        Transaction::CallContract { contract, caller, .. } => seq![
            DirtyKey::Contract(contract),
            DirtyKey::Account(caller),
        ],
        Transaction::PublicTransfer { from, to, .. } => seq![
            DirtyKey::Account(from),
            DirtyKey::Account(to),
        ],
        Transaction::Shield { from, to, .. } => seq![
            DirtyKey::Account(from),
            DirtyKey::Account(to),
        ],
        Transaction::Unshield { to, xfer, .. } => seq![
            DirtyKey::Account(xfer.sender),
            DirtyKey::Account(to),
        ],
        Transaction::ShieldStealth { from, one_time, .. } => seq![
            DirtyKey::Account(from),
            DirtyKey::Account(one_time),
        ],
        Transaction::AnonTransfer { xfer, .. } => xfer.ring@.map_values(
            |m: [u8; 32]| DirtyKey::Account(m),
        ).push(DirtyKey::Account(xfer.one_time)).push(DirtyKey::Nullifier(xfer.nullifier)),
        Transaction::Stake { validator, .. } => seq![
            DirtyKey::Account(validator),
            DirtyKey::Validator(validator),
        ],
        Transaction::Unstake { validator, .. } => seq![
            DirtyKey::Account(validator),
            DirtyKey::Validator(validator),
        ],
        Transaction::SlashEvidence { validator, beneficiary, .. } => seq![
            DirtyKey::Validator(validator),
            DirtyKey::Account(beneficiary),
        ],
        _ => seq![],
    }
}

/// The signatures to check before `tx` is applied.
pub fn signature_checks(tx: &Transaction) -> (r: Vec<SignatureCheck>)
    ensures
        r@.len() == rules::checks(*tx).len(),
        forall|i: int| 0 <= i < r@.len() ==> (#[trigger] r@[i])@ == rules::checks(*tx)[i],
{
    let mut r: Vec<SignatureCheck> = Vec::new();
    let (key, sig) = match tx {
        Transaction::SlashEvidence { validator, height, block_a, sig_a, block_b, sig_b, .. } => {
            let a = finality_vote_signing_bytes(block_a, *height);
            let b = finality_vote_signing_bytes(block_b, *height);
            r.push(SignatureCheck { key: *validator, message: a, sig: *sig_a });
            r.push(SignatureCheck { key: *validator, message: b, sig: *sig_b });
            return r;
        },
        Transaction::CreateToken { creator, sig, .. } => (*creator, *sig),
        Transaction::Rollover { account, sig, .. } => (*account, *sig),
        Transaction::DeployContract { deployer, sig, .. } => (*deployer, *sig),
        Transaction::CallContract { caller, sig, .. } => (*caller, *sig),
        Transaction::PublicTransfer { from, sig, .. } => (*from, *sig),
        Transaction::Shield { from, sig, .. } => (*from, *sig),
        Transaction::Unshield { xfer, sig, .. } => (xfer.sender, *sig),
        Transaction::ShieldStealth { from, sig, .. } => (*from, *sig),
        Transaction::Stake { validator, sig, .. } => (*validator, *sig),
        Transaction::Unstake { validator, sig, .. } => (*validator, *sig),
        _ => {
            return r;
        },
    };
    let message = tx.signing_bytes();
    r.push(SignatureCheck { key, message, sig });
    r
}

// --- sums over unbonding entries ---------------------------------------------

proof fn lemma_total_take(u: Seq<(u64, u64)>, i: int)
    requires
        0 <= i <= u.len(),
    ensures
        rules::total(u.take(i)) <= rules::total(u),
    decreases u.len(),
{
    if i < u.len() {
        assert(u.drop_last().take(i) =~= u.take(i));
        lemma_total_take(u.drop_last(), i);
    } else {
        assert(u.take(i) =~= u);
    }
}

proof fn lemma_matured_split(u: Seq<(u64, u64)>, height: u64)
    ensures
        rules::matured(u, height).len() + rules::waiting(u, height).len() == u.len(),
        rules::total(rules::matured(u, height)) + rules::total(rules::waiting(u, height))
            == rules::total(u),
    decreases u.len(),
{
    if u.len() > 0 {
        lemma_matured_split(u.drop_last(), height);
        let m = rules::matured(u.drop_last(), height);
        let w = rules::waiting(u.drop_last(), height);
        assert(m.push(u.last()).drop_last() =~= m);
        assert(w.push(u.last()).drop_last() =~= w);
    }
}

proof fn lemma_matured_take(u: Seq<(u64, u64)>, height: u64, i: int)
    requires
        0 <= i <= u.len(),
    ensures
        rules::total(rules::matured(u.take(i), height)) <= rules::total(rules::matured(u, height)),
    decreases u.len(),
{
    if i < u.len() {
        assert(u.drop_last().take(i) =~= u.take(i));
        lemma_matured_take(u.drop_last(), height, i);
        let m = rules::matured(u.drop_last(), height);
        assert(m.push(u.last()).drop_last() =~= m);
    } else {
        assert(u.take(i) =~= u);
    }
}

proof fn lemma_take_step(u: Seq<(u64, u64)>, i: int)
    requires
        0 <= i < u.len(),
    ensures
        u.take(i + 1).drop_last() == u.take(i),
        u.take(i + 1).last() == u[i],
{
    assert(u.take(i + 1).drop_last() =~= u.take(i));
}

/// Drain every unbonding entry whose release height has passed; returns the
/// total released.
fn release_matured(v: &mut Validator, height: u64) -> (released: u64)
    requires
        rules::total(rules::matured(old(v)@.unbonding, height)) <= u64::MAX,
    ensures
        released == rules::total(rules::matured(old(v)@.unbonding, height)),
        final(v)@ == (ValidatorView {
            unbonding: rules::waiting(old(v)@.unbonding, height),
            ..old(v)@
        }),
        final(v).unbonding@.len() <= old(v).unbonding@.len(),
{
    let ghost u = v.unbonding@;
    let mut left: Vec<(u64, u64)> = Vec::new();
    let mut released: u64 = 0;
    let mut i: usize = 0;
    assert(u.take(0) =~= Seq::empty());
    assert(left@ =~= rules::waiting(u.take(0), height));
    while i < v.unbonding.len()
        invariant
            i <= u.len(),
            v.unbonding@ == u,
            *v == *old(v),
            u == old(v).unbonding@,
            released == rules::total(rules::matured(u.take(i as int), height)),
            left@ == rules::waiting(u.take(i as int), height),
            rules::total(rules::matured(u, height)) <= u64::MAX,
        decreases u.len() - i,
    {
        let (amount, release) = v.unbonding[i];
        proof {
            lemma_take_step(u, i as int);
            lemma_matured_take(u, height, i + 1);
            let m = rules::matured(u.take(i as int), height);
            assert(m.push(u[i as int]).drop_last() =~= m);
        }
        if release <= height {
            released += amount;
        } else {
            left.push((amount, release));
        }
        i += 1;
    }
    proof {
        assert(u.take(i as int) =~= u);
        lemma_matured_split(u, height);
    }
    v.unbonding = left;
    released
}

/// The sum of the entries' amounts, where it fits.
fn sum_amounts(u: &Vec<(u64, u64)>) -> (r: Option<u64>)
    requires
        u@.len() <= u32::MAX,
    ensures
        match r {
            Some(x) => x == rules::total(u@),
            None => rules::total(u@) > u64::MAX,
        },
{
    let mut sum: u128 = 0;
    let mut i: usize = 0;
    assert(u@.take(0) =~= Seq::empty());
    while i < u.len()
        invariant
            i <= u@.len(),
            u@.len() <= u32::MAX,
            sum == rules::total(u@.take(i as int)),
            sum <= i * (u64::MAX as nat),
        decreases u@.len() - i,
    {
        proof {
            lemma_take_step(u@, i as int);
            let n = i as int;
            let m = u64::MAX as int;
            assert((n + 1) * m == n * m + m) by (nonlinear_arith);
            assert((n + 1) * m <= 0x1_0000_0000 * m) by (nonlinear_arith)
                requires
                    n + 1 <= 0x1_0000_0000,
                    m >= 0,
            ;
        }
        sum += u[i].0 as u128;
        i += 1;
    }
    assert(u@.take(i as int) =~= u@);
    if sum <= u64::MAX as u128 {
        Some(sum as u64)
    } else {
        None
    }
}

/// The sum of the amounts that are released at `height`, where it fits.
fn sum_matured(u: &Vec<(u64, u64)>, height: u64) -> (r: Option<u64>)
    requires
        u@.len() <= u32::MAX,
    ensures
        match r {
            Some(x) => x == rules::total(rules::matured(u@, height)),
            None => rules::total(rules::matured(u@, height)) > u64::MAX,
        },
{
    let mut out: Vec<(u64, u64)> = Vec::new();
    let mut i: usize = 0;
    assert(u@.take(0) =~= Seq::empty());
    assert(out@ =~= rules::matured(u@.take(0), height));
    while i < u.len()
        invariant
            i <= u@.len(),
            out@ == rules::matured(u@.take(i as int), height),
            out@.len() <= i,
        decreases u@.len() - i,
    {
        let (amount, release) = u[i];
        proof {
            lemma_take_step(u@, i as int);
        }
        if release <= height {
            out.push((amount, release));
        }
        i += 1;
    }
    assert(u@.take(i as int) =~= u@);
    sum_amounts(&out)
}

/// Take `rest` from the entries, oldest first.
fn reduce_entries(u: &mut Vec<(u64, u64)>, rest: u64)
    requires
        rules::total(old(u)@) <= u64::MAX,
    ensures
        final(u)@ == rules::reduced(old(u)@, rest as int),
{
    let ghost was = u@;
    let mut remaining: u64 = rest;
    let mut i: usize = 0;
    assert(was.take(0) =~= Seq::empty());
    while remaining > 0 && i < u.len()
        invariant
            i <= u@.len(),
            u@.len() == was.len(),
            rules::total(was) <= u64::MAX,
            remaining == if rest <= rules::total(was.take(i as int)) {
                0
            } else {
                rest - rules::total(was.take(i as int))
            },
            forall|j: int| 0 <= j < i ==> #[trigger] u@[j] == rules::reduced(was, rest as int)[j],
            forall|j: int| i <= j < u@.len() ==> #[trigger] u@[j] == was[j],
        decreases u@.len() - i,
    {
        let (amount, release) = u[i];
        let take = if remaining < amount {
            remaining
        } else {
            amount
        };
        proof {
            lemma_take_step(was, i as int);
        }
        u.set(i, (amount - take, release));
        remaining -= take;
        i += 1;
    }
    proof {
        assert forall|j: int| 0 <= j < u@.len() implies #[trigger] u@[j] == rules::reduced(
            was,
            rest as int,
        )[j] by {
            if j >= i {
                assert(remaining == 0);
                assert(was.take(j).take(i as int) =~= was.take(i as int));
                lemma_total_take(was.take(j), i as int);
            }
        }
        assert(u@ =~= rules::reduced(was, rest as int));
    }
}

/// Keep the entries of a positive amount.
fn keep_positive(u: &Vec<(u64, u64)>) -> (r: Vec<(u64, u64)>)
    ensures
        r@ == rules::positive(u@),
        r@.len() <= u@.len(),
{
    let mut r: Vec<(u64, u64)> = Vec::new();
    let mut i: usize = 0;
    assert(u@.take(0) =~= Seq::empty());
    assert(r@ =~= rules::positive(u@.take(0)));
    while i < u.len()
        invariant
            i <= u@.len(),
            r@ == rules::positive(u@.take(i as int)),
            r@.len() <= i,
        decreases u@.len() - i,
    {
        proof {
            lemma_take_step(u@, i as int);
        }
        let e = u[i];
        if e.0 > 0 {
            r.push(e);
        }
        i += 1;
    }
    assert(u@.take(i as int) =~= u@);
    r
}

// --- facts for the rules that loop ---------------------------------------------

proof fn lemma_rolled(
    a: AccountView,
    ks: Seq<u32>,
    sums: Seq<[u8; 64]>,
    zero: [u8; 64],
    n: nat,
)
    requires
        n <= ks.len(),
        forall|i: int| 0 <= i < ks.len() ==> a.pending.contains_key(#[trigger] ks[i]),
    ensures
        ({
            let r = rules::rolled(a, ks, sums, zero, n);
            &&& r.nonce == a.nonce
            &&& r.public == a.public
            &&& r.pending.dom() == a.pending.dom()
            &&& r.balances.dom().subset_of(a.balances.dom().union(a.pending.dom()))
        }),
    decreases n,
{
    if n > 0 {
        lemma_rolled(a, ks, sums, zero, (n - 1) as nat);
        let p = rules::rolled(a, ks, sums, zero, (n - 1) as nat);
        assert(p.pending.dom().insert(ks[n - 1]) =~= a.pending.dom());
    }
}

proof fn lemma_debited(
    st: State,
    token: u32,
    ring: Seq<[u8; 32]>,
    left: Seq<[u8; 64]>,
    n: nat,
    x: Seq<u8>,
)
    requires
        n <= ring.len(),
    ensures
        ({
            let d = rules::debited(st, token, ring, left, n);
            &&& d.account(x).pending == st.account(x).pending
            &&& st.registered(x) ==> d.registered(x)
            &&& (forall|j: int| 0 <= j < n ==> #[trigger] ring[j]@ != x) ==> d.account(x)
                == st.account(x)
            &&& d.zero == st.zero
            &&& d.nullifiers == st.nullifiers
        }),
    decreases n,
{
    if n > 0 {
        lemma_debited(st, token, ring, left, (n - 1) as nat, x);
        assert(ring[n - 1]@ == ring[n - 1]@);
    }
}

proof fn lemma_ring(
    st: State,
    token: u32,
    ring: Seq<[u8; 32]>,
    balances: Seq<[u8; 64]>,
    i: int,
    j: int,
)
    requires
        0 <= i <= j < ring.len(),
        rules::ring_refused(st, token, ring, balances, i) is None,
    ensures
        st.registered(ring[j]@),
        !rules::repeated(ring, j),
    decreases j - i,
{
    if i < j {
        lemma_ring(st, token, ring, balances, i + 1, j);
    }
}

impl<B: KVStore> Ledger<B> {
    /// Flag entries for re-commitment at the next state root.
    pub(crate) fn mark_all(&mut self, keys: Vec<DirtyKey>)
        ensures
            final(self).dirty@ == old(self).dirty@ + keys@,
            final(self).next_token_id == old(self).next_token_id,
            final(self).store == old(self).store,
            final(self).root == old(self).root,
            final(self).max_validators == old(self).max_validators,
            final(self).zero == old(self).zero,
    {
        let mut keys = keys;
        self.dirty.append(&mut keys);
    }

    /// The entries that a successfully applied `tx` may have changed.
    pub(crate) fn dirty_keys_for(&self, tx: &Transaction) -> (r: Vec<DirtyKey>)
        ensures
            r@ == touched(self.next_token_id, *tx),
    {
        let mut r: Vec<DirtyKey> = Vec::new();
        match tx {
            Transaction::Register { pubkey, .. } => {
                r.push(DirtyKey::Account(*pubkey));
            },
            Transaction::CreateToken { creator, .. } => {
                r.push(DirtyKey::Account(*creator));
                // The token just created got the id before the next one.
                r.push(DirtyKey::Token(self.next_token_id.saturating_sub(1)));
                r.push(DirtyKey::Meta);
            },
            Transaction::SolventTransfer { xfer, .. } => {
                r.push(DirtyKey::Account(xfer.sender));
                r.push(DirtyKey::Account(xfer.receiver));
            },
            Transaction::Rollover { account, .. } => {
                r.push(DirtyKey::Account(*account));
            },
            Transaction::DeployContract { deployer, code, .. } => {
                let id = contract_id(deployer, code.as_slice());
                proof {
                    bytes::lemma_array_eq(
                        id,
                        hashing::blake3_digest(vm::contract_preimage(deployer@, code@)),
                    );
                }
                r.push(DirtyKey::Contract(id));
                r.push(DirtyKey::Account(*deployer));
            },
            Transaction::CallContract { contract, caller, .. } => {
                r.push(DirtyKey::Contract(*contract));
                r.push(DirtyKey::Account(*caller));
            },
            Transaction::PublicTransfer { from, to, .. } => {
                r.push(DirtyKey::Account(*from));
                r.push(DirtyKey::Account(*to));
            },
            Transaction::Shield { from, to, .. } => {
                r.push(DirtyKey::Account(*from));
                r.push(DirtyKey::Account(*to));
            },
            Transaction::Unshield { to, xfer, .. } => {
                r.push(DirtyKey::Account(xfer.sender));
                r.push(DirtyKey::Account(*to));
            },
            Transaction::ShieldStealth { from, one_time, .. } => {
                r.push(DirtyKey::Account(*from));
                r.push(DirtyKey::Account(*one_time));
            },
            Transaction::AnonTransfer { xfer, .. } => {
                let ghost ring = xfer.ring@;
                let mut i: usize = 0;
                while i < xfer.ring.len()
                    invariant
                        i <= xfer.ring@.len(),
                        ring == xfer.ring@,
                        r@ =~= ring.take(i as int).map_values(|m: [u8; 32]| DirtyKey::Account(m)),
                    decreases xfer.ring@.len() - i,
                {
                    r.push(DirtyKey::Account(xfer.ring[i]));
                    i += 1;
                }
                assert(ring.take(i as int) =~= ring);
                r.push(DirtyKey::Account(xfer.one_time));
                r.push(DirtyKey::Nullifier(xfer.nullifier));
            },
            Transaction::Stake { validator, .. } => {
                r.push(DirtyKey::Account(*validator));
                r.push(DirtyKey::Validator(*validator));
            },
            Transaction::Unstake { validator, .. } => {
                r.push(DirtyKey::Account(*validator));
                r.push(DirtyKey::Validator(*validator));
            },
            Transaction::SlashEvidence { validator, beneficiary, .. } => {
                r.push(DirtyKey::Validator(*validator));
                r.push(DirtyKey::Account(*beneficiary));
            },
            _ => {},
        }
        assert(r@ =~= touched(self.next_token_id, *tx));
        r
    }

    /// The account, a fresh one where `id` is not registered.
    pub(crate) fn account_or_new(&self, id: &[u8; 32]) -> (a: Account)
        requires
            self.wf(),
        ensures
            a@ == self.state().account(id@),
            a@.fits(),
    {
        match self.account(id) {
            Some(a) => a,
            None => Account::new(),
        }
    }

    /// The validator, an empty one where `id` never staked.
    pub(crate) fn validator_or_new(&self, id: &[u8; 32]) -> (v: Validator)
        requires
            self.wf(),
        ensures
            v@ == self.state().validator(id@),
            v@.fits(),
    {
        match self.validator(id) {
            Some(v) => v,
            None => Validator::new(),
        }
    }

    /// The balance that a solvency proof must hold against.
    pub fn bound_balance(&self, tx: &Transaction) -> (r: Option<[u8; 64]>)
        requires
            self.wf(),
        ensures
            r == rules::bound_balance(self.state(), *tx),
    {
        match tx {
            Transaction::SolventTransfer { token, xfer } => self.balance(&xfer.sender, *token),
            Transaction::Unshield { token, xfer, .. } => self.balance(&xfer.sender, *token),
            _ => None,
        }
    }

    /// The ciphertexts that applying `tx` needs, in order.
    pub fn terms(&self, tx: &Transaction) -> (r: Vec<Term>)
        requires
            self.wf(),
        ensures
            r@ == rules::terms(self.state(), *tx),
    {
        let mut r: Vec<Term> = Vec::new();
        match tx {
            Transaction::CreateToken { creator, supply, .. } => {
                let a = self.account_or_new(creator).balance(self.next_token_id, &self.zero);
                r.push(Term::Mint { a, amount: *supply });
            },
            Transaction::SolventTransfer { token, xfer } => {
                let a = self.account_or_new(&xfer.sender).balance(*token, &self.zero);
                r.push(Term::Less { a, b: xfer.sender_ct, fee: xfer.fee });
                let a = self.account_or_new(&xfer.receiver).pending(*token, &self.zero);
                r.push(Term::Sum { a, b: xfer.receiver_ct });
            },
            Transaction::Rollover { account, .. } => {
                let a = self.account_or_new(account);
                let ks = keys_32(&a.pending);
                let ghost av = a@;
                let ghost zero = self.zero;
                let mut i: usize = 0;
                while i < ks.len()
                    invariant
                        i <= ks@.len(),
                        av == a@,
                        zero == self.zero,
                        r@ =~= ks@.take(i as int).map_values(
                            |t: u32|
                                Term::Sum { a: av.balance(t, zero), b: av.pending_of(t, zero) },
                        ),
                    decreases ks@.len() - i,
                {
                    let t = ks[i];
                    r.push(
                        Term::Sum { a: a.balance(t, &self.zero), b: a.pending(t, &self.zero) },
                    );
                    i += 1;
                }
                assert(ks@.take(i as int) =~= ks@);
                assert(r@ =~= rules::rollover_terms(av, zero));
            },
            Transaction::Shield { token, to, amount, .. } => {
                let a = self.account_or_new(to).pending(*token, &self.zero);
                r.push(Term::Mint { a, amount: *amount });
            },
            Transaction::Unshield { token, xfer, .. } => {
                let a = self.account_or_new(&xfer.sender).balance(*token, &self.zero);
                r.push(Term::Less { a, b: xfer.sender_ct, fee: xfer.fee });
            },
            Transaction::ShieldStealth { token, one_time, amount, .. } => {
                let a = self.account_or_new(one_time).pending(*token, &self.zero);
                r.push(Term::Mint { a, amount: *amount });
            },
            Transaction::AnonTransfer { token, xfer } => {
                if xfer.ring.len() == xfer.enc.len() {
                    let ghost want = rules::anon_terms(self.state(), *token, *xfer);
                    let mut i: usize = 0;
                    while i < xfer.ring.len()
                        invariant
                            self.wf(),
                            i <= xfer.ring@.len(),
                            xfer.ring@.len() == xfer.enc@.len(),
                            want == rules::anon_terms(self.state(), *token, *xfer),
                            r@ =~= want.take(i as int),
                        decreases xfer.ring@.len() - i,
                    {
                        let a = self.account_or_new(&xfer.ring[i]).balance(*token, &self.zero);
                        r.push(Term::Less { a, b: xfer.enc[i], fee: 0 });
                        assert(r@[i as int] == want[i as int]);
                        i += 1;
                    }
                    let a = self.account_or_new(&xfer.one_time).pending(*token, &self.zero);
                    r.push(Term::Sum { a, b: xfer.credit });
                    assert(r@ =~= want);
                }
            },
            _ => {},
        }
        assert(r@ =~= rules::terms(self.state(), *tx));
        r
    }

    /// Whether these rules cover `tx`, and every counter, sum and table it
    /// touches stays within its machine type.
    pub fn within_limits(&self, tx: &Transaction, height: u64) -> (r: bool)
        requires
            self.wf(),
        ensures
            r == rules::within_limits(self.state(), *tx, height),
    {
        match tx {
            Transaction::Register { .. } => true,
            Transaction::CreateToken { creator, .. } => self.next_token_id < u32::MAX
                && self.has_room(creator),
            Transaction::SolventTransfer { xfer, .. } => self.can_spend(&xfer.sender)
                && self.has_room(&xfer.receiver),
            Transaction::Rollover { account, .. } => {
                let a = self.account_or_new(account);
                let b = keys_32(&a.balances);
                let p = keys_32(&a.pending);
                (b.len() as u128) + (p.len() as u128) <= u32::MAX as u128 && a.nonce < u64::MAX
            },
            Transaction::DeployContract { code, .. } => code.len() as u64 <= u32::MAX as u64,
            Transaction::CallContract { contract, caller, .. } => {
                let nonce = self.account_or_new(caller).nonce;
                let room = match self.contract(contract) {
                    Some(c) => {
                        let n = crate::ordered::keys_64(&c.storage).len();
                        (n as u128) + (DEFAULT_GAS as u128) <= u32::MAX as u128
                    },
                    None => true,
                };
                nonce < u64::MAX && room
            },
            Transaction::PublicTransfer { from, to, .. } => self.can_spend(from) && self.has_room(
                to,
            ),
            Transaction::Shield { from, to, .. } => self.can_spend(from) && self.has_room(to),
            Transaction::Unshield { to, xfer, .. } => self.can_spend(&xfer.sender)
                && self.has_room(to),
            Transaction::ShieldStealth { from, one_time, .. } => self.can_spend(from)
                && self.has_room(one_time),
            Transaction::AnonTransfer { xfer, .. } => {
                let mut i: usize = 0;
                while i < xfer.ring.len()
                    invariant
                        self.wf(),
                        *tx matches Transaction::AnonTransfer { xfer: x, .. } && x == *xfer,
                        i <= xfer.ring@.len(),
                        forall|j: int|
                            0 <= j < i ==> rules::roomy(
                                #[trigger] self.state().account(xfer.ring@[j]@),
                            ),
                    decreases xfer.ring@.len() - i,
                {
                    if !self.has_room(&xfer.ring[i]) {
                        assert(!rules::roomy(self.state().account(xfer.ring@[i as int]@)));
                        return false;
                    }
                    i += 1;
                }
                self.has_room(&xfer.one_time)
            },
            Transaction::Stake { validator, .. } => {
                let v = self.validator_or_new(validator);
                self.can_spend(validator) && sum_matured(&v.unbonding, height).is_some()
            },
            Transaction::Unstake { validator, .. } => {
                let v = self.validator_or_new(validator);
                self.can_spend(validator) && sum_matured(&v.unbonding, height).is_some() && (
                v.unbonding.len() as u64) < u32::MAX as u64 && height <= u64::MAX
                    - UNBONDING_BLOCKS
            },
            Transaction::SlashEvidence { validator, beneficiary, .. } => {
                let v = self.validator_or_new(validator);
                sum_amounts(&v.unbonding).is_some() && self.has_room(beneficiary)
            },
            _ => false,
        }
    }

    /// Whether one more entry fits each table of the account's record.
    fn has_room(&self, id: &[u8; 32]) -> (r: bool)
        requires
            self.wf(),
        ensures
            r == rules::roomy(self.state().account(id@)),
    {
        let a = self.account_or_new(id);
        let b = keys_32(&a.balances);
        let p = keys_32(&a.pending);
        let u = keys_32(&a.public);
        (b.len() as u64) < u32::MAX as u64 && (p.len() as u64) < u32::MAX as u64 && (u.len() as u64)
            < u32::MAX as u64
    }

    /// Whether the account has room, and its nonce can advance.
    fn can_spend(&self, id: &[u8; 32]) -> (r: bool)
        requires
            self.wf(),
        ensures
            r == rules::can_spend(self.state().account(id@)),
    {
        self.has_room(id) && self.account_or_new(id).nonce < u64::MAX
    }

    /// Register a new account.
    pub fn register(&mut self, id: [u8; 32]) -> (r: Result<(), LedgerError>)
        requires
            old(self).wf(),
        ensures
            final(self).wf(),
            registered(*old(self), *final(self), id, r),
    {
        let r = self.add_account(&id);
        if r.is_ok() {
            self.dirty.push(DirtyKey::Account(id));
        }
        r
    }

    fn add_account(&mut self, id: &[u8; 32]) -> (r: Result<(), LedgerError>)
        requires
            old(self).wf(),
        ensures
            final(self).wf(),
            outcome(
                r,
                *old(self),
                *final(self),
                rules::step_register(old(self).state(), id@),
            ),
            old(self).same_frame(final(self)),
    {
        if self.is_registered(id) {
            return Err(LedgerError::AlreadyRegistered);
        }
        let a = Account::new();
        self.put_account(id, &a);
        Ok(())
    }

    /// Credit `amount` of `token` to `id`'s transparent balance, registering the
    /// account if needed. Saturating, so that it can never overflow.
    pub fn credit_public(&mut self, id: &[u8; 32], token: u32, amount: u64)
        requires
            old(self).wf(),
            rules::roomy(old(self).state().account(id@)),
        ensures
            final(self).wf(),
            public_credited(*old(self), *final(self), *id, token, amount),
    {
        if amount == 0 {
            return;
        }
        self.add_public(id, token, amount);
        self.dirty.push(DirtyKey::Account(*id));
    }

    fn add_public(&mut self, id: &[u8; 32], token: u32, amount: u64)
        requires
            old(self).wf(),
            old(self).state().account(id@).public.dom().len() < u32::MAX,
        ensures
            final(self).wf(),
            final(self).state() == rules::credited(old(self).state(), id@, token, amount),
            old(self).same_frame(final(self)),
    {
        if amount == 0 {
            return;
        }
        let mut a = self.account_or_new(id);
        let new = a.public(token).saturating_add(amount);
        a.set_public(token, new);
        self.put_account(id, &a);
    }

    /// The ciphertext that [`Ledger::reward_miner`] and [`Ledger::credit_genesis`]
    /// need: the balance of `token` plus the public `amount`.
    pub fn reward_term(&self, id: &[u8; 32], token: u32, amount: u64) -> (t: Term)
        requires
            self.wf(),
        ensures
            t == (Term::Mint { a: self.state().account(id@).balance(token, self.zero), amount }),
    {
        let a = self.account_or_new(id).balance(token, &self.zero);
        Term::Mint { a, amount }
    }

    /// Credit a miner a coinbase reward or a collected fee of `token`, registering
    /// the account if needed. `sum` is what [`Ledger::reward_term`] asks for.
    pub fn reward_miner(&mut self, miner: &[u8; 32], token: u32, amount: u64, sum: [u8; 64])
        requires
            old(self).wf(),
            rules::roomy(old(self).state().account(miner@)),
        ensures
            final(self).wf(),
            rewarded(*old(self), *final(self), *miner, token, amount, sum),
    {
        if amount == 0 {
            return;
        }
        let mut a = self.account_or_new(miner);
        a.set(token, sum);
        self.put_account(miner, &a);
        self.dirty.push(DirtyKey::Account(*miner));
    }

    /// Genesis premine of native LAT to a registered account. `sum` is what
    /// [`Ledger::reward_term`] asks for.
    pub fn credit_genesis(&mut self, id: &[u8; 32], sum: [u8; 64]) -> (r: Result<(), LedgerError>)
        requires
            old(self).wf(),
            rules::roomy(old(self).state().account(id@)),
        ensures
            final(self).wf(),
            genesis_credited(*old(self), *final(self), *id, sum, r),
    {
        match self.account(id) {
            None => Err(LedgerError::ReceiverNotRegistered),
            Some(a) => {
                let mut a = a;
                a.set(LAT_TOKEN, sum);
                self.put_account(id, &a);
                self.dirty.push(DirtyKey::Account(*id));
                Ok(())
            },
        }
    }

    // --- one rule each ----------------------------------------------------------

    fn apply_create_token(
        &mut self,
        input: &String,
        creator: &[u8; 32],
        supply: u64,
        r: &CryptoReply,
    ) -> (res: Result<(), LedgerError>)
        requires
            old(self).wf(),
            old(self).next_token_id < u32::MAX,
            rules::roomy(old(self).state().account(creator@)),
            r.terms@.len() >= 1,
        ensures
            final(self).wf(),
            outcome(
                res,
                *old(self),
                *final(self),
                rules::step_create_token(old(self).state(), input@, creator@, supply, r@),
            ),
            other_records(*old(self), *final(self), res is Ok),
            final(self).dirty@ == old(self).dirty@,
            old(self).same_home(final(self)),
    {
        if !r.signatures {
            return Err(LedgerError::BadSignature);
        }
        let norm = match normalize_ticker(input.as_str()) {
            Some(norm) => norm,
            None => {
                return Err(LedgerError::InvalidTicker);
            },
        };
        // One ticker, ever.
        if self.ticker_taken(norm.as_str()) {
            return Err(LedgerError::TickerTaken);
        }
        let mut acct = match self.account(creator) {
            Some(a) => a,
            None => {
                return Err(LedgerError::CreatorNotRegistered);
            },
        };
        let ghost st = self.state();
        let ghost name = norm@;
        let id = self.next_token_id;
        let t = TokenMeta { id, ticker: norm, creator: *creator, supply };
        proof {
            lemma_ticker_fits(input@);
            text::lemma_utf8_chars(name);
        }
        self.next_token_id = id + 1;
        proof {
            assert(self.state() =~= (State { next_token: (id + 1) as u32, ..st }));
        }
        self.put_token(&t);
        acct.set(id, r.terms[0]);
        self.put_account(creator, &acct);
        proof {
            let want = st.with_token(t@, (id + 1) as u32).with_account(
                creator@,
                st.account(creator@).with_balance(id, r.terms@[0]),
            );
            assert(self.state() =~= want);
        }
        Ok(())
    }

    fn apply_solvent(&mut self, token: u32, xfer: &SolventTransfer,
        r: &CryptoReply) -> (res: Result<
        (),
        LedgerError,
    >)
        requires
            old(self).wf(),
            rules::can_spend(old(self).state().account(xfer.sender@)),
            rules::roomy(old(self).state().account(xfer.receiver@)),
            r.terms@.len() >= 2,
        ensures
            final(self).wf(),
            outcome(
                res,
                *old(self),
                *final(self),
                rules::step_solvent(old(self).state(), token, *xfer, r@),
            ),
            old(self).same_frame(final(self)),
    {
        let mut s = match self.account(&xfer.sender) {
            Some(a) => a,
            None => {
                return Err(LedgerError::SenderNotRegistered);
            },
        };
        // Replay protection: the spend must use the account's current nonce.
        if xfer.nonce != s.nonce {
            return Err(LedgerError::BadNonce);
        }
        if !r.proven {
            return Err(LedgerError::InvalidProof);
        }
        if !self.is_registered(&xfer.receiver) {
            return Err(LedgerError::ReceiverNotRegistered);
        }
        let ghost st = self.state();
        // Debit the sender, and write it back before the receiver is read: the
        // two may be one account.
        s.set(token, r.terms[0]);
        s.nonce = s.nonce + 1;
        assert(s@ =~= st.account(xfer.sender@).with_balance(token, r.terms@[0]).spent());
        self.put_account(&xfer.sender, &s);
        let mut to = self.account_or_new(&xfer.receiver);
        to.set_pending(token, r.terms[1]);
        self.put_account(&xfer.receiver, &to);
        Ok(())
    }

    fn apply_rollover(&mut self, id: &[u8; 32], nonce: u64, r: &CryptoReply) -> (res: Result<
        (),
        LedgerError,
    >)
        requires
            old(self).wf(),
            old(self).state().account(id@).balances.dom().len() + old(self).state().account(
                id@,
            ).pending.dom().len() <= u32::MAX,
            old(self).state().account(id@).nonce < u64::MAX,
            r.terms@.len() >= ordered::order_32(
                old(self).state().account(id@).pending.dom(),
            ).len(),
        ensures
            final(self).wf(),
            outcome(
                res,
                *old(self),
                *final(self),
                rules::step_rollover(old(self).state(), id@, nonce, r@),
            ),
            old(self).same_frame(final(self)),
    {
        // Only the owner may roll over: it changes the balance that the owner's
        // in-flight proofs are bound to.
        if !r.signatures {
            return Err(LedgerError::BadSignature);
        }
        let mut acct = match self.account(id) {
            Some(a) => a,
            None => {
                return Err(LedgerError::SenderNotRegistered);
            },
        };
        if nonce != acct.nonce {
            return Err(LedgerError::BadNonce);
        }
        let ks = keys_32(&acct.pending);
        let ghost a0 = acct@;
        let ghost order = ks@;
        let ghost zero = self.zero;
        proof {
            assert forall|i: int| 0 <= i < order.len() implies a0.pending.contains_key(
                #[trigger] order[i],
            ) by {
                assert(order.contains(order[i]));
                assert(a0.pending.dom().contains(order[i]));
            }
        }
        let mut i: usize = 0;
        while i < ks.len()
            invariant
                i <= ks@.len(),
                ks@ == order,
                zero == self.zero,
                r.terms@.len() >= order.len(),
                acct@ == rules::rolled(a0, order, r.terms@, zero, i as nat),
            decreases ks@.len() - i,
        {
            acct.set(ks[i], r.terms[i]);
            acct.set_pending(ks[i], self.zero);
            i += 1;
        }
        proof {
            lemma_rolled(a0, order, r.terms@, zero, order.len());
            vstd::set_lib::lemma_len_union(a0.balances.dom(), a0.pending.dom());
            vstd::set_lib::lemma_len_subset(
                acct@.balances.dom(),
                a0.balances.dom().union(a0.pending.dom()),
            );
            vstd::set_lib::lemma_set_subset_finite(
                a0.balances.dom().union(a0.pending.dom()),
                acct@.balances.dom(),
            );
        }
        let ghost merged = acct@;
        acct.nonce = acct.nonce + 1;
        assert(acct@ =~= merged.spent());
        self.put_account(id, &acct);
        Ok(())
    }

    fn apply_deploy(&mut self, deployer: &[u8; 32], code: &Vec<u8>,
        r: &CryptoReply) -> (res: Result<
        (),
        LedgerError,
    >)
        requires
            old(self).wf(),
            code@.len() <= u32::MAX,
        ensures
            final(self).wf(),
            outcome(
                res,
                *old(self),
                *final(self),
                rules::step_deploy(old(self).state(), deployer@, code@, r@),
            ),
            old(self).same_frame(final(self)),
    {
        if !r.signatures {
            return Err(LedgerError::BadSignature);
        }
        if !self.is_registered(deployer) {
            return Err(LedgerError::SenderNotRegistered);
        }
        let id = contract_id(deployer, code.as_slice());
        if self.has_contract(&id) {
            return Err(LedgerError::ContractExists);
        }
        let c = Contract { code: copy_bytes(code.as_slice()), storage: Storage::new() };
        assert(c@ =~= ContractView { code: code@, storage: Map::empty() });
        self.put_contract(&id, &c);
        Ok(())
    }

    fn apply_call(
        &mut self,
        contract: &[u8; 32],
        caller: &[u8; 32],
        input: u64,
        nonce: u64,
        r: &CryptoReply,
    ) -> (res: Result<(), LedgerError>)
        requires
            old(self).wf(),
            old(self).state().account(caller@).nonce < u64::MAX,
            old(self).state().contracts.contains_key(contract@) ==> old(
                self,
            ).state().contracts[contract@].storage.dom().len() + DEFAULT_GAS <= u32::MAX,
        ensures
            final(self).wf(),
            outcome(
                res,
                *old(self),
                *final(self),
                rules::step_call(old(self).state(), contract@, caller@, input, nonce, r@),
            ),
            old(self).same_frame(final(self)),
    {
        // The code sees its caller, so the caller must be unforgeable, and a
        // signed call must run once.
        if !r.signatures {
            return Err(LedgerError::BadSignature);
        }
        let mut acct = match self.account(caller) {
            Some(a) => a,
            None => {
                return Err(LedgerError::SenderNotRegistered);
            },
        };
        if nonce != acct.nonce {
            return Err(LedgerError::BadNonce);
        }
        let mut c = match self.contract(contract) {
            Some(c) => c,
            None => {
                return Err(LedgerError::NoSuchContract);
            },
        };
        let ghost st = self.state();
        proof {
            vm::lemma_storage_grows(
                c.code@,
                caller@,
                input,
                vm::start(c.storage@),
                DEFAULT_GAS as nat,
            );
        }
        let ghost before = c@;
        // Run on our copy of the storage; write it back only on success.
        let ran = execute(c.code.as_slice(), &mut c.storage, caller, input, DEFAULT_GAS);
        if ran.is_err() {
            return Err(LedgerError::ContractFailed);
        }
        self.put_contract(contract, &c);
        acct.nonce = acct.nonce + 1;
        assert(acct@ =~= st.account(caller@).spent());
        self.put_account(caller, &acct);
        Ok(())
    }

    /// The checks of a transparent spend, and its debit.
    fn pay(
        &mut self,
        token: u32,
        from: &[u8; 32],
        to: Option<&[u8; 32]>,
        amount: u64,
        fee: u64,
        nonce: u64,
        r: &CryptoReply,
    ) -> (res: Result<(), LedgerError>)
        requires
            old(self).wf(),
            rules::can_spend(old(self).state().account(from@)),
        ensures
            final(self).wf(),
            old(self).same_frame(final(self)),
            final(self).next_token_id == old(self).next_token_id,
            match res {
                Ok(_) => {
                    &&& rules::spend_refused(
                        old(self).state(),
                        token,
                        from@,
                        key_view(to),
                        amount,
                        fee,
                        nonce,
                        r@,
                    ) is None
                    &&& final(self).state() == rules::paid(
                        old(self).state(),
                        token,
                        from@,
                        amount,
                        fee,
                    )
                },
                Err(e) => {
                    &&& rules::spend_refused(
                        old(self).state(),
                        token,
                        from@,
                        key_view(to),
                        amount,
                        fee,
                        nonce,
                        r@,
                    ) == Some(e)
                    &&& final(self).objects() == old(self).objects()
                },
            },
    {
        if !r.signatures {
            return Err(LedgerError::BadSignature);
        }
        let mut s = match self.account(from) {
            Some(a) => a,
            None => {
                return Err(LedgerError::SenderNotRegistered);
            },
        };
        if nonce != s.nonce {
            return Err(LedgerError::BadNonce);
        }
        if let Some(to) = to {
            if !self.is_registered(to) {
                return Err(LedgerError::ReceiverNotRegistered);
            }
        }
        let have = s.public(token);
        // A crafted overflow reads as insufficient.
        let total = match amount.checked_add(fee) {
            Some(t) => t,
            None => {
                return Err(LedgerError::InsufficientPublicBalance);
            },
        };
        if have < total {
            return Err(LedgerError::InsufficientPublicBalance);
        }
        let ghost st = self.state();
        s.set_public(token, have - total);
        s.nonce = s.nonce + 1;
        assert(s@ =~= st.account(from@).with_public(
            token,
            (st.account(from@).public_of(token) - amount - fee) as u64,
        ).spent());
        self.put_account(from, &s);
        Ok(())
    }

    fn apply_public(
        &mut self,
        token: u32,
        from: &[u8; 32],
        to: &[u8; 32],
        amount: u64,
        fee: u64,
        nonce: u64,
        r: &CryptoReply,
    ) -> (res: Result<(), LedgerError>)
        requires
            old(self).wf(),
            rules::can_spend(old(self).state().account(from@)),
            rules::roomy(old(self).state().account(to@)),
        ensures
            final(self).wf(),
            outcome(
                res,
                *old(self),
                *final(self),
                rules::step_public(
                    old(self).state(),
                    token,
                    from@,
                    to@,
                    amount,
                    fee,
                    nonce,
                    r@,
                ),
            ),
            old(self).same_frame(final(self)),
    {
        match self.pay(token, from, Some(to), amount, fee, nonce, r) {
            Err(e) => Err(e),
            Ok(_) => {
                let mut a = self.account_or_new(to);
                let new = a.public(token).saturating_add(amount);
                a.set_public(token, new);
                self.put_account(to, &a);
                Ok(())
            },
        }
    }

    fn apply_shield(
        &mut self,
        token: u32,
        from: &[u8; 32],
        to: &[u8; 32],
        amount: u64,
        fee: u64,
        nonce: u64,
        r: &CryptoReply,
    ) -> (res: Result<(), LedgerError>)
        requires
            old(self).wf(),
            rules::can_spend(old(self).state().account(from@)),
            rules::roomy(old(self).state().account(to@)),
            r.terms@.len() >= 1,
        ensures
            final(self).wf(),
            outcome(
                res,
                *old(self),
                *final(self),
                rules::step_shield(
                    old(self).state(),
                    token,
                    from@,
                    to@,
                    amount,
                    fee,
                    nonce,
                    r@,
                ),
            ),
            old(self).same_frame(final(self)),
    {
        match self.pay(token, from, Some(to), amount, fee, nonce, r) {
            Err(e) => Err(e),
            Ok(_) => {
                let mut a = self.account_or_new(to);
                a.set_pending(token, r.terms[0]);
                self.put_account(to, &a);
                Ok(())
            },
        }
    }

    fn apply_shield_stealth(
        &mut self,
        token: u32,
        from: &[u8; 32],
        one_time: &[u8; 32],
        amount: u64,
        fee: u64,
        nonce: u64,
        r: &CryptoReply,
    ) -> (res: Result<(), LedgerError>)
        requires
            old(self).wf(),
            rules::can_spend(old(self).state().account(from@)),
            rules::roomy(old(self).state().account(one_time@)),
            r.terms@.len() >= 1,
        ensures
            final(self).wf(),
            outcome(
                res,
                *old(self),
                *final(self),
                rules::step_shield_stealth(
                    old(self).state(),
                    token,
                    from@,
                    one_time@,
                    amount,
                    fee,
                    nonce,
                    r@,
                ),
            ),
            old(self).same_frame(final(self)),
    {
        match self.pay(token, from, None, amount, fee, nonce, r) {
            Err(e) => Err(e),
            Ok(_) => {
                let mut a = self.account_or_new(one_time);
                a.set_pending(token, r.terms[0]);
                self.put_account(one_time, &a);
                Ok(())
            },
        }
    }

    fn apply_unshield(
        &mut self,
        token: u32,
        to: &[u8; 32],
        amount: u64,
        xfer: &SolventTransfer,
        r: &CryptoReply,
    ) -> (res: Result<(), LedgerError>)
        requires
            old(self).wf(),
            rules::can_spend(old(self).state().account(xfer.sender@)),
            rules::roomy(old(self).state().account(to@)),
            r.terms@.len() >= 1,
        ensures
            final(self).wf(),
            outcome(
                res,
                *old(self),
                *final(self),
                rules::step_unshield(old(self).state(), token, to@, amount, *xfer, r@),
            ),
            old(self).same_frame(final(self)),
    {
        if !r.signatures {
            return Err(LedgerError::BadSignature);
        }
        if !r.view_key {
            return Err(LedgerError::WrongUnshieldReceiver);
        }
        let mut s = match self.account(&xfer.sender) {
            Some(a) => a,
            None => {
                return Err(LedgerError::SenderNotRegistered);
            },
        };
        if xfer.nonce != s.nonce {
            return Err(LedgerError::BadNonce);
        }
        if !r.proven {
            return Err(LedgerError::InvalidProof);
        }
        // The hidden amount must be the declared one.
        if !r.reveals {
            return Err(LedgerError::UnshieldAmountMismatch);
        }
        if !self.is_registered(to) {
            return Err(LedgerError::ReceiverNotRegistered);
        }
        let ghost st = self.state();
        s.set(token, r.terms[0]);
        s.nonce = s.nonce + 1;
        assert(s@ =~= st.account(xfer.sender@).with_balance(token, r.terms@[0]).spent());
        self.put_account(&xfer.sender, &s);
        self.add_public(to, token, amount);
        Ok(())
    }

    /// Whether every ring member is a distinct account with the claimed balance.
    fn check_ring(&self, token: u32, xfer: &AnonTransfer) -> (r: Result<(), LedgerError>)
        requires
            self.wf(),
            xfer.ring@.len() == xfer.balances@.len(),
        ensures
            match r {
                Ok(_) => rules::ring_refused(
                    self.state(),
                    token,
                    xfer.ring@,
                    xfer.balances@,
                    0,
                ) is None,
                Err(e) => rules::ring_refused(
                    self.state(),
                    token,
                    xfer.ring@,
                    xfer.balances@,
                    0,
                ) == Some(e),
            },
    {
        let ghost st = self.state();
        let ghost want = rules::ring_refused(st, token, xfer.ring@, xfer.balances@, 0);
        let mut i: usize = 0;
        while i < xfer.ring.len()
            invariant
                self.wf(),
                st == self.state(),
                i <= xfer.ring@.len(),
                xfer.ring@.len() == xfer.balances@.len(),
                want == rules::ring_refused(st, token, xfer.ring@, xfer.balances@, 0),
                want == rules::ring_refused(st, token, xfer.ring@, xfer.balances@, i as int),
            decreases xfer.ring@.len() - i,
        {
            let mut j: usize = 0;
            while j < i
                invariant
                    j <= i < xfer.ring@.len(),
                    want == rules::ring_refused(st, token, xfer.ring@, xfer.balances@, 0),
                    want == rules::ring_refused(st, token, xfer.ring@, xfer.balances@, i as int),
                    st == self.state(),
                    forall|k: int| 0 <= k < j
                        ==> #[trigger] xfer.ring@[k]@ != xfer.ring@[i as int]@,
                decreases i - j,
            {
                if same_hash(&xfer.ring[j], &xfer.ring[i]) {
                    assert(xfer.ring@[j as int]@ == xfer.ring@[i as int]@);
                    return Err(LedgerError::BadRing);
                }
                j += 1;
            }
            match self.account(&xfer.ring[i]) {
                None => {
                    return Err(LedgerError::BadRing);
                },
                Some(a) => {
                    let live = a.balance(token, &self.zero);
                    if !same_array(&live, &xfer.balances[i]) {
                        return Err(LedgerError::StaleRingBalance);
                    }
                },
            }
            i += 1;
        }
        Ok(())
    }

    fn apply_anon(&mut self, token: u32, xfer: &AnonTransfer, height: u64, r: &CryptoReply) -> (res:
        Result<(), LedgerError>)
        requires
            old(self).wf(),
            forall|i: int|
                0 <= i < xfer.ring@.len() ==> rules::roomy(
                    #[trigger] old(self).state().account(xfer.ring@[i]@),
                ),
            rules::roomy(old(self).state().account(xfer.one_time@)),
            xfer.ring@.len() == xfer.enc@.len() ==> r.terms@.len() >= xfer.ring@.len() + 1,
        ensures
            final(self).wf(),
            outcome(
                res,
                *old(self),
                *final(self),
                rules::step_anon(old(self).state(), token, *xfer, height, r@),
            ),
            old(self).same_frame(final(self)),
    {
        // A proof is good only in the epoch it was built for: that is what
        // scopes its nullifier.
        if xfer.epoch != rules::epoch_of(height) {
            return Err(LedgerError::WrongEpoch);
        }
        if self.nullifier_seen(&xfer.nullifier) {
            return Err(LedgerError::NullifierSeen);
        }
        let n = xfer.ring.len();
        if xfer.balances.len() != n || xfer.enc.len() != n {
            return Err(LedgerError::BadRing);
        }
        match self.check_ring(token, xfer) {
            Err(e) => {
                return Err(e);
            },
            Ok(_) => {},
        }
        if !r.proven {
            return Err(LedgerError::InvalidProof);
        }
        let ghost st = self.state();
        // Debit every ring member: which balance really moved stays hidden. No
        // nonce advances, or the spender would be named.
        let mut i: usize = 0;
        while i < n
            invariant
                self.wf(),
                i <= n,
                n == xfer.ring@.len(),
                r.terms@.len() >= n + 1,
                st == old(self).state(),
                rules::ring_refused(st, token, xfer.ring@, xfer.balances@, 0) is None,
                forall|j: int|
                    0 <= j < xfer.ring@.len() ==> rules::roomy(
                        #[trigger] st.account(xfer.ring@[j]@),
                    ),
                self.state() == rules::debited(st, token, xfer.ring@, r.terms@, i as nat),
                old(self).same_frame(self),
            decreases n - i,
        {
            proof {
                let id = xfer.ring@[i as int]@;
                lemma_ring(st, token, xfer.ring@, xfer.balances@, 0, i as int);
                lemma_debited(st, token, xfer.ring@, r.terms@, i as nat, id);
                assert forall|j: int| 0 <= j < i implies #[trigger] xfer.ring@[j]@ != id by {
                    if xfer.ring@[j]@ == id {
                        assert(rules::repeated(xfer.ring@, i as int));
                    }
                }
                assert(rules::roomy(st.account(xfer.ring@[i as int]@)));
            }
            let mut a = self.account_or_new(&xfer.ring[i]);
            a.set(token, r.terms[i]);
            self.put_account(&xfer.ring[i], &a);
            i += 1;
        }
        proof {
            lemma_debited(st, token, xfer.ring@, r.terms@, n as nat, xfer.one_time@);
        }
        // Read after the debits: the one-time account may be a ring member.
        let mut to = self.account_or_new(&xfer.one_time);
        to.set_pending(token, r.terms[n]);
        self.put_account(&xfer.one_time, &to);
        self.insert_nullifier(&xfer.nullifier);
        Ok(())
    }

    fn apply_stake(
        &mut self,
        id: &[u8; 32],
        amount: u64,
        nonce: u64,
        height: u64,
        r: &CryptoReply,
    ) -> (res: Result<(), LedgerError>)
        requires
            old(self).wf(),
            rules::can_spend(old(self).state().account(id@)),
            rules::total(rules::matured(old(self).state().validator(id@).unbonding, height))
                <= u64::MAX,
        ensures
            final(self).wf(),
            outcome(
                res,
                *old(self),
                *final(self),
                rules::step_stake(old(self).state(), id@, amount, nonce, height, r@),
            ),
            old(self).same_frame(final(self)),
    {
        if !r.signatures {
            return Err(LedgerError::BadSignature);
        }
        let mut acct = match self.account(id) {
            Some(a) => a,
            None => {
                return Err(LedgerError::SenderNotRegistered);
            },
        };
        if nonce != acct.nonce {
            return Err(LedgerError::BadNonce);
        }
        let ghost st = self.state();
        let mut val = self.validator_or_new(id);
        let released = release_matured(&mut val, height);
        let available = acct.public(LAT_TOKEN).saturating_add(released);
        if available < amount {
            return Err(LedgerError::InsufficientPublicBalance);
        }
        acct.set_public(LAT_TOKEN, available - amount);
        acct.nonce = acct.nonce + 1;
        assert(acct@ =~= st.account(id@).with_public(
            LAT_TOKEN,
            (available - amount) as u64,
        ).spent());
        val.staked = val.staked.saturating_add(amount);
        self.put_account(id, &acct);
        self.put_validator(id, &val);
        Ok(())
    }

    fn apply_unstake(
        &mut self,
        id: &[u8; 32],
        amount: u64,
        nonce: u64,
        height: u64,
        r: &CryptoReply,
    ) -> (res: Result<(), LedgerError>)
        requires
            old(self).wf(),
            rules::can_spend(old(self).state().account(id@)),
            rules::total(rules::matured(old(self).state().validator(id@).unbonding, height))
                <= u64::MAX,
            old(self).state().validator(id@).unbonding.len() < u32::MAX,
            height + UNBONDING_BLOCKS <= u64::MAX,
        ensures
            final(self).wf(),
            outcome(
                res,
                *old(self),
                *final(self),
                rules::step_unstake(old(self).state(), id@, amount, nonce, height, r@),
            ),
            old(self).same_frame(final(self)),
    {
        if !r.signatures {
            return Err(LedgerError::BadSignature);
        }
        let mut acct = match self.account(id) {
            Some(a) => a,
            None => {
                return Err(LedgerError::SenderNotRegistered);
            },
        };
        if nonce != acct.nonce {
            return Err(LedgerError::BadNonce);
        }
        let ghost st = self.state();
        let mut val = self.validator_or_new(id);
        let released = release_matured(&mut val, height);
        if val.staked < amount {
            return Err(LedgerError::InsufficientStake);
        }
        val.staked = val.staked - amount;
        if amount > 0 {
            val.unbonding.push((amount, height + UNBONDING_BLOCKS));
        }
        let back = acct.public(LAT_TOKEN).saturating_add(released);
        acct.set_public(LAT_TOKEN, back);
        acct.nonce = acct.nonce + 1;
        assert(acct@ =~= st.account(id@).with_public(LAT_TOKEN, back).spent());
        self.put_account(id, &acct);
        self.put_validator(id, &val);
        Ok(())
    }

    fn apply_slash(
        &mut self,
        id: &[u8; 32],
        beneficiary: &[u8; 32],
        block_a: &[u8; 32],
        block_b: &[u8; 32],
        r: &CryptoReply,
    ) -> (res: Result<(), LedgerError>)
        requires
            old(self).wf(),
            rules::total(old(self).state().validator(id@).unbonding) <= u64::MAX,
            rules::roomy(old(self).state().account(beneficiary@)),
        ensures
            final(self).wf(),
            outcome(
                res,
                *old(self),
                *final(self),
                rules::step_slash(
                    old(self).state(),
                    id@,
                    beneficiary@,
                    block_a@,
                    block_b@,
                    r@,
                ),
            ),
            old(self).same_frame(final(self)),
    {
        if same_hash(block_a, block_b) {
            return Err(LedgerError::BadEvidence);
        }
        if !r.signatures {
            return Err(LedgerError::BadEvidence);
        }
        let ghost st = self.state();
        let mut val = self.validator_or_new(id);
        let ghost v = val@;
        // Already slashed: a slash leaves residual stake, so the tombstone is
        // what guards against a second one.
        if val.tombstoned {
            return Err(LedgerError::NothingToSlash);
        }
        let waiting = match sum_amounts(&val.unbonding) {
            Some(x) => x,
            None => {
                assert(false);
                0
            },
        };
        let total = val.staked.saturating_add(waiting);
        if total == 0 {
            return Err(LedgerError::NothingToSlash);
        }
        // At least one unit, so that no equivocation is free.
        let cut = (total as u128 * SLASH_FRACTION_BPS as u128 / 10_000) as u64;
        let slashed = if cut < 1 {
            1
        } else {
            cut
        };
        assert(total == rules::at_stake(v));
        assert(slashed == rules::penalty(v));
        // Bonded stake gives first, then the unbonding entries.
        let bonded = if slashed < val.staked {
            slashed
        } else {
            val.staked
        };
        val.staked = val.staked - bonded;
        reduce_entries(&mut val.unbonding, slashed - bonded);
        let left = keep_positive(&val.unbonding);
        val.unbonding = left;
        val.tombstoned = true;
        assert(val@ =~= rules::slashed(v));
        self.put_validator(id, &val);
        // The submitter's reward; the rest is burned by not being credited.
        let reward = (slashed as u128 * SLASH_REWARD_BPS as u128 / 10_000) as u64;
        assert(reward == rules::reward(v));
        if self.is_registered(beneficiary) {
            self.add_public(beneficiary, LAT_TOKEN, reward);
        }
        Ok(())
    }

    fn apply_inner(&mut self, tx: &Transaction, height: u64, r: &CryptoReply) -> (res: Result<
        (),
        LedgerError,
    >)
        requires
            old(self).wf(),
            rules::within_limits(old(self).state(), *tx, height),
            r.terms@.len() == rules::terms(old(self).state(), *tx).len(),
        ensures
            final(self).wf(),
            outcome(
                res,
                *old(self),
                *final(self),
                rules::step(old(self).state(), *tx, height, r@),
            ),
            other_records(*old(self), *final(self), res is Ok && tx is CreateToken),
            final(self).dirty@ == old(self).dirty@,
            old(self).same_home(final(self)),
    {
        match tx {
            Transaction::Register { pubkey, .. } => self.add_account(pubkey),
            Transaction::CreateToken { ticker, creator, supply, .. } => self.apply_create_token(
                ticker,
                creator,
                *supply,
                r,
            ),
            Transaction::SolventTransfer { token, xfer } => self.apply_solvent(*token, xfer, r),
            Transaction::Rollover { account, nonce, .. } => self.apply_rollover(account, *nonce, r),
            Transaction::DeployContract { deployer, code, .. } => self.apply_deploy(
                deployer,
                code,
                r,
            ),
            Transaction::CallContract { contract, caller, input, nonce, .. } => self.apply_call(
                contract,
                caller,
                *input,
                *nonce,
                r,
            ),
            Transaction::PublicTransfer { token, from, to, amount, fee, nonce, .. } =>
                self.apply_public(*token, from, to, *amount, *fee, *nonce, r),
            Transaction::Shield { token, from, to, amount, fee, nonce, .. } => self.apply_shield(
                *token,
                from,
                to,
                *amount,
                *fee,
                *nonce,
                r,
            ),
            Transaction::Unshield { token, to, amount, xfer, .. } => self.apply_unshield(
                *token,
                to,
                *amount,
                xfer,
                r,
            ),
            Transaction::ShieldStealth { token, from, one_time, amount, fee, nonce, .. } =>
                self.apply_shield_stealth(*token, from, one_time, *amount, *fee, *nonce, r),
            Transaction::AnonTransfer { token, xfer } => self.apply_anon(*token, xfer, height, r),
            Transaction::Stake { validator, amount, nonce, .. } => self.apply_stake(
                validator,
                *amount,
                *nonce,
                height,
                r,
            ),
            Transaction::Unstake { validator, amount, nonce, .. } => self.apply_unstake(
                validator,
                *amount,
                *nonce,
                height,
                r,
            ),
            Transaction::SlashEvidence { validator, beneficiary, block_a, block_b, .. } =>
                self.apply_slash(validator, beneficiary, block_a, block_b, r),
            _ => Ok(()),
        }
    }

    /// Apply a transaction with no block context (height 0). Only right for the
    /// types whose rules do not look at the height.
    pub fn apply(&mut self, tx: &Transaction, r: &CryptoReply) -> (res: Result<(), LedgerError>)
        requires
            old(self).wf(),
            rules::within_limits(old(self).state(), *tx, 0),
            r.terms@.len() == rules::terms(old(self).state(), *tx).len(),
        ensures
            final(self).wf(),
            applied(*old(self), *final(self), *tx, 0, r@, res),
    {
        self.apply_at(tx, 0, r)
    }

    /// Apply a transaction in the block at `height`. On success the entries it
    /// touched are flagged for re-commitment.
    pub fn apply_at(&mut self, tx: &Transaction, height: u64, r: &CryptoReply) -> (res: Result<
        (),
        LedgerError,
    >)
        requires
            old(self).wf(),
            rules::within_limits(old(self).state(), *tx, height),
            r.terms@.len() == rules::terms(old(self).state(), *tx).len(),
        ensures
            final(self).wf(),
            applied(*old(self), *final(self), *tx, height, r@, res),
    {
        let res = self.apply_inner(tx, height, r);
        if res.is_ok() {
            let keys = self.dirty_keys_for(tx);
            self.mark_all(keys);
        }
        res
    }

    /// Like [`Ledger::apply_at`], with evidence that the transaction's proof was
    /// verified ahead of its turn. Every other check still runs.
    pub fn apply_at_with(
        &mut self,
        tx: &Transaction,
        height: u64,
        r: &CryptoReply,
        pre: &Option<ProofPass>,
    ) -> (res: Result<(), LedgerError>)
        requires
            old(self).wf(),
            rules::within_limits(old(self).state(), *tx, height),
            r.terms@.len() == rules::terms(old(self).state(), *tx).len(),
        ensures
            final(self).wf(),
            applied(
                *old(self),
                *final(self),
                *tx,
                height,
                settled(
                    r@,
                    settles(*pre, *tx, rules::bound_balance(old(self).state(), *tx)),
                ),
                res,
            ),
    {
        let live = self.bound_balance(tx);
        let yes = reusable(pre, tx, &live);
        let mut terms: Vec<[u8; 64]> = Vec::new();
        let mut i: usize = 0;
        while i < r.terms.len()
            invariant
                i <= r.terms@.len(),
                terms@ =~= r.terms@.take(i as int),
            decreases r.terms@.len() - i,
        {
            terms.push(r.terms[i]);
            i += 1;
        }
        assert(terms@ =~= r.terms@);
        let reply = CryptoReply {
            signatures: r.signatures,
            proven: r.proven || yes,
            view_key: r.view_key,
            reveals: r.reveals,
            terms,
        };
        assert(reply@ == settled(r@, yes));
        self.apply_at(tx, height, &reply)
    }
}

/// Whether the ledger's rules cover a transaction. One they do not cover is within no
/// limits either.
pub fn covered(tx: &Transaction) -> (r: bool)
    ensures
        r == rules::covers(*tx),
        !r ==> forall|st: State, height: u64| !rules::within_limits(st, *tx, height),
{
    match tx {
        Transaction::AddLiquidity { .. } => false,
        Transaction::RemoveLiquidity { .. } => false,
        Transaction::Swap { .. } => false,
        Transaction::HtlcLock { .. } => false,
        Transaction::HtlcClaim { .. } => false,
        Transaction::HtlcRefund { .. } => false,
        Transaction::CurveTrade { .. } => false,
        _ => true,
    }
}

/// Whether evidence settles a transaction's proof: then it need not be verified
/// again.
pub fn reusable(pre: &Option<ProofPass>, tx: &Transaction, live: &Option<[u8; 64]>) -> (r: bool)
    ensures
        r == settles(*pre, *tx, *live),
{
    match tx {
        Transaction::AnonTransfer { .. } => match pre {
            Some(ProofPass::Anon) => true,
            _ => false,
        },
        Transaction::SolventTransfer { .. } | Transaction::Unshield { .. } => match (pre, live) {
            (Some(ProofPass::AgainstBalance(b)), Some(l)) => same_array(b, l),
            _ => false,
        },
        _ => false,
    }
}

/// An optional key by its bytes.
pub open spec fn key_view(k: Option<&[u8; 32]>) -> Option<Seq<u8>> {
    match k {
        Some(k) => Some(k@),
        None => None,
    }
}

/// Whether two ledgers differ in the entries of the state and the flagged ones alone.
pub open spec fn same_but_dirty<B: KVStore>(was: Ledger<B>, now: Ledger<B>) -> bool {
    was.same_home(&now) && other_records(was, now, false)
}

/// What becomes of the records besides the entries: a created token writes the next
/// id, and nothing else touches one. The entries keep the one form they are written in.
pub open spec fn other_records<B: KVStore>(was: Ledger<B>, now: Ledger<B>, created: bool) -> bool {
    &&& was.tidy() ==> now.tidy()
    &&& ledger::rest_in(now.objects()) == if created {
        ledger::rest_in(was.objects()).insert(
            seq![crate::records::REC_META],
            bytes::le4(now.next_token_id),
        )
    } else {
        ledger::rest_in(was.objects())
    }
}

/// What registering an account does to a ledger.
pub open spec fn registered<B: KVStore>(
    was: Ledger<B>,
    now: Ledger<B>,
    id: [u8; 32],
    r: Result<(), LedgerError>,
) -> bool {
    &&& outcome(r, was, now, rules::step_register(was.state(), id@))
    &&& now.dirty@ == if r is Ok {
        was.dirty@.push(DirtyKey::Account(id))
    } else {
        was.dirty@
    }
    &&& same_but_dirty(was, now)
}

/// What a credit to a transparent balance does to a ledger.
pub open spec fn public_credited<B: KVStore>(
    was: Ledger<B>,
    now: Ledger<B>,
    id: [u8; 32],
    token: u32,
    amount: u64,
) -> bool {
    &&& now.state() == rules::credited(was.state(), id@, token, amount)
    &&& now.dirty@ == if amount == 0 {
        was.dirty@
    } else {
        was.dirty@.push(DirtyKey::Account(id))
    }
    &&& same_but_dirty(was, now)
}

/// What a miner's reward does to a ledger.
pub open spec fn rewarded<B: KVStore>(
    was: Ledger<B>,
    now: Ledger<B>,
    miner: [u8; 32],
    token: u32,
    amount: u64,
    sum: [u8; 64],
) -> bool {
    &&& now.state() == if amount == 0 {
        was.state()
    } else {
        was.state().with_account(
            miner@,
            was.state().account(miner@).with_balance(token, sum),
        )
    }
    &&& now.dirty@ == if amount == 0 {
        was.dirty@
    } else {
        was.dirty@.push(DirtyKey::Account(miner))
    }
    &&& same_but_dirty(was, now)
}

/// What a premine does to a ledger.
pub open spec fn genesis_credited<B: KVStore>(
    was: Ledger<B>,
    now: Ledger<B>,
    id: [u8; 32],
    sum: [u8; 64],
    r: Result<(), LedgerError>,
) -> bool {
    &&& outcome(
        r,
        was,
        now,
        if was.state().registered(id@) {
            Ok::<State, LedgerError>(
                was.state().with_account(
                    id@,
                    was.state().account(id@).with_balance(LAT_TOKEN, sum),
                ),
            )
        } else {
            Err::<State, LedgerError>(LedgerError::ReceiverNotRegistered)
        },
    )
    &&& now.dirty@ == if r is Ok {
        was.dirty@.push(DirtyKey::Account(id))
    } else {
        was.dirty@
    }
    &&& same_but_dirty(was, now)
}

/// What applying `tx` does to a ledger.
pub open spec fn applied<B: KVStore>(
    was: Ledger<B>,
    now: Ledger<B>,
    tx: Transaction,
    height: u64,
    r: Reply,
    res: Result<(), LedgerError>,
) -> bool {
    &&& outcome(res, was, now, rules::step(was.state(), tx, height, r))
    &&& other_records(was, now, res is Ok && tx is CreateToken)
    &&& now.dirty@ == if res is Ok {
        was.dirty@ + touched(now.next_token_id, tx)
    } else {
        was.dirty@
    }
    &&& was.same_home(&now)
}

/// A normalized ticker is short.
proof fn lemma_ticker_fits(input: Seq<char>)
    requires
        ticker::normal(input) is Some,
    ensures
        encode_utf8(ticker::normal(input)->0).len() <= 10,
{
    let t = ticker::normal(input)->0;
    assert(is_ascii_chars(t));
    is_ascii_chars_encode_utf8(t);
}

} // verus!
