//! What each transaction does, account by account and token by token: which balance
//! it debits and which it credits, what the cryptography layer is asked for, and that
//! nothing else moves. All of it is said of the state's own tables.

use vstd::prelude::*;
use vstd::utf8::*;

use crate::apply;
use crate::apply::ProofPass;
use crate::hashing;
use crate::ledger::Ledger;
use crate::ordered;
use crate::records::{AccountView, ContractView, TokenView, ValidatorView};
use crate::rules;
use crate::rules::{Check, CryptoReply, LedgerError, Reply, State, Term};
use crate::rules_laws;
use crate::store::KVStore;
use crate::ticker;
use crate::transaction::{AnonTransfer, SolventTransfer, Transaction};
use crate::vm;

verus! {

// --- the state's tables ------------------------------------------------------------

/// What a state says of `id`: no balances and nonce zero where it says nothing.
pub open spec fn of(st: State, id: Seq<u8>) -> AccountView {
    if st.accounts.contains_key(id) {
        st.accounts[id]
    } else {
        AccountView {
            balances: Map::empty(),
            pending: Map::empty(),
            public: Map::empty(),
            nonce: 0,
        }
    }
}

/// The ciphertext a table gives a token, `zero` where it gives none.
pub open spec fn ct(m: Map<u32, [u8; 64]>, t: u32, zero: [u8; 64]) -> [u8; 64] {
    if m.contains_key(t) {
        m[t]
    } else {
        zero
    }
}

/// The amount a table gives a token, nothing where it gives none.
pub open spec fn amount_of(m: Map<u32, u64>, t: u32) -> int {
    if m.contains_key(t) {
        m[t] as int
    } else {
        0
    }
}

/// What a state says of the validator `id`: no stake where it says nothing.
pub open spec fn bonded(st: State, id: Seq<u8>) -> ValidatorView {
    if st.validators.contains_key(id) {
        st.validators[id]
    } else {
        ValidatorView { staked: 0, unbonding: Seq::empty(), tombstoned: false }
    }
}

/// `a` and `b` together, at most what an amount can say.
pub open spec fn capped(a: int, b: int) -> int {
    if a + b <= 0xFFFF_FFFF_FFFF_FFFF {
        a + b
    } else {
        0xFFFF_FFFF_FFFF_FFFF
    }
}

/// Whether nothing but the accounts differs.
pub open spec fn accounts_alone(st: State, now: State) -> bool {
    &&& now.tokens == st.tokens
    &&& now.tickers == st.tickers
    &&& now.contracts == st.contracts
    &&& now.nullifiers == st.nullifiers
    &&& now.validators == st.validators
    &&& now.next_token == st.next_token
    &&& now.zero == st.zero
}

/// A balance that is read is the one that the account's table for it gives the token:
/// spendable, pending and transparent balances are never taken for one another.
pub proof fn law_reads_are_of_their_table(st: State, id: Seq<u8>, t: u32)
    ensures
        st.registered(id) == st.accounts.contains_key(id),
        st.account(id) == of(st, id),
        st.validator(id) == bonded(st, id),
        of(st, id).balance(t, st.zero) == ct(of(st, id).balances, t, st.zero),
        of(st, id).pending_of(t, st.zero) == ct(of(st, id).pending, t, st.zero),
        of(st, id).public_of(t) == amount_of(of(st, id).public, t),
{
}

// --- moving value ------------------------------------------------------------------

/// A registration makes an account that holds nothing, and nothing else.
pub proof fn law_register_effect(
    st: State,
    pubkey: [u8; 32],
    pow_nonce: u64,
    height: u64,
    r: Reply,
    id: Seq<u8>,
)
    requires
        rules::step(st, Transaction::Register { pubkey, pow_nonce }, height, r) is Ok,
    ensures
        ({
            let now = rules::step(st, Transaction::Register { pubkey, pow_nonce }, height, r)->Ok_0;
            &&& !st.accounts.contains_key(pubkey@)
            &&& now.accounts.contains_key(id) == (st.accounts.contains_key(id) || id == pubkey@)
            &&& of(now, id) == of(st, id)
            &&& accounts_alone(st, now)
        }),
{
}

/// A transparent transfer takes amount and fee of the token from the sender, adds the
/// amount to the receiver, and advances the sender's nonce. No other amount and no
/// ciphertext changes.
pub proof fn law_public_transfer_effect(
    st: State,
    token: u32,
    from: [u8; 32],
    to: [u8; 32],
    amount: u64,
    fee: u64,
    nonce: u64,
    sig: [u8; 64],
    height: u64,
    r: Reply,
    id: Seq<u8>,
    t: u32,
)
    requires
        rules::step(
            st,
            Transaction::PublicTransfer { token, from, to, amount, fee, nonce, sig },
            height,
            r,
        ) is Ok,
        nonce < u64::MAX,
    ensures
        ({
            let tx = Transaction::PublicTransfer { token, from, to, amount, fee, nonce, sig };
            let now = rules::step(st, tx, height, r)->Ok_0;
            let had = amount_of(of(st, id).public, t);
            let left = if id == from@ && t == token {
                had - amount - fee
            } else {
                had
            };
            &&& left >= 0
            &&& amount_of(of(now, id).public, t) == if id == to@ && t == token {
                capped(left, amount as int)
            } else {
                left
            }
            &&& of(now, id).balances == of(st, id).balances
            &&& of(now, id).pending == of(st, id).pending
            &&& of(now, id).nonce == of(st, id).nonce + if id == from@ {
                1int
            } else {
                0
            }
            &&& nonce == of(st, from@).nonce
            &&& now.accounts.contains_key(id) == st.accounts.contains_key(id)
            &&& accounts_alone(st, now)
            &&& rules::terms(st, tx).len() == 0
        }),
{
}

/// A shield takes amount and fee of the token out of the sender's transparent balance
/// and advances its nonce. The receiver's pending balance of the token becomes the
/// ciphertext that was asked for, which is that balance and the amount. Nothing else
/// changes.
pub proof fn law_shield_effect(
    st: State,
    token: u32,
    from: [u8; 32],
    to: [u8; 32],
    amount: u64,
    fee: u64,
    nonce: u64,
    sig: [u8; 64],
    height: u64,
    r: Reply,
    id: Seq<u8>,
    t: u32,
)
    requires
        rules::step(
            st,
            Transaction::Shield { token, from, to, amount, fee, nonce, sig },
            height,
            r,
        ) is Ok,
        nonce < u64::MAX,
    ensures
        ({
            let tx = Transaction::Shield { token, from, to, amount, fee, nonce, sig };
            let now = rules::step(st, tx, height, r)->Ok_0;
            let had = amount_of(of(st, id).public, t);
            &&& amount_of(of(now, id).public, t) == if id == from@ && t == token {
                had - amount - fee
            } else {
                had
            }
            &&& of(now, id).pending == if id == to@ {
                of(st, id).pending.insert(token, r.terms[0])
            } else {
                of(st, id).pending
            }
            &&& of(now, id).balances == of(st, id).balances
            &&& of(now, id).nonce == of(st, id).nonce + if id == from@ {
                1int
            } else {
                0
            }
            &&& nonce == of(st, from@).nonce
            &&& now.accounts.contains_key(id) == st.accounts.contains_key(id)
            &&& accounts_alone(st, now)
            &&& rules::terms(st, tx) == seq![
                Term::Mint { a: ct(of(st, to@).pending, token, st.zero), amount },
            ]
        }),
{
}

/// A stealth shield does the same for a one-time account, which need not exist before.
pub proof fn law_shield_stealth_effect(
    st: State,
    token: u32,
    from: [u8; 32],
    ephemeral: [u8; 32],
    one_time: [u8; 32],
    amount: u64,
    fee: u64,
    nonce: u64,
    sig: [u8; 64],
    height: u64,
    r: Reply,
    id: Seq<u8>,
    t: u32,
)
    requires
        rules::step(
            st,
            Transaction::ShieldStealth {
                token,
                from,
                ephemeral,
                one_time,
                amount,
                fee,
                nonce,
                sig,
            },
            height,
            r,
        ) is Ok,
        nonce < u64::MAX,
    ensures
        ({
            let tx = Transaction::ShieldStealth {
                token,
                from,
                ephemeral,
                one_time,
                amount,
                fee,
                nonce,
                sig,
            };
            let now = rules::step(st, tx, height, r)->Ok_0;
            let had = amount_of(of(st, id).public, t);
            &&& amount_of(of(now, id).public, t) == if id == from@ && t == token {
                had - amount - fee
            } else {
                had
            }
            &&& of(now, id).pending == if id == one_time@ {
                of(st, id).pending.insert(token, r.terms[0])
            } else {
                of(st, id).pending
            }
            &&& of(now, id).balances == of(st, id).balances
            &&& of(now, id).nonce == of(st, id).nonce + if id == from@ {
                1int
            } else {
                0
            }
            &&& nonce == of(st, from@).nonce
            &&& now.accounts.contains_key(id) == (st.accounts.contains_key(id) || id == one_time@)
            &&& accounts_alone(st, now)
            &&& rules::terms(st, tx) == seq![
                Term::Mint { a: ct(of(st, one_time@).pending, token, st.zero), amount },
            ]
        }),
{
}

/// A solvent transfer sets the sender's spendable balance of the token to the first
/// ciphertext that was asked for, its balance less the sent amount and the fee, and
/// advances its nonce. The receiver's pending balance of the token becomes the second,
/// that balance and the received amount. Nothing else changes.
pub proof fn law_solvent_transfer_effect(
    st: State,
    token: u32,
    xfer: SolventTransfer,
    height: u64,
    r: Reply,
    id: Seq<u8>,
)
    requires
        rules::step(st, Transaction::SolventTransfer { token, xfer }, height, r) is Ok,
        xfer.nonce < u64::MAX,
    ensures
        ({
            let tx = Transaction::SolventTransfer { token, xfer };
            let now = rules::step(st, tx, height, r)->Ok_0;
            &&& of(now, id).balances == if id == xfer.sender@ {
                of(st, id).balances.insert(token, r.terms[0])
            } else {
                of(st, id).balances
            }
            &&& of(now, id).pending == if id == xfer.receiver@ {
                of(st, id).pending.insert(token, r.terms[1])
            } else {
                of(st, id).pending
            }
            &&& of(now, id).public == of(st, id).public
            &&& of(now, id).nonce == of(st, id).nonce + if id == xfer.sender@ {
                1int
            } else {
                0
            }
            &&& xfer.nonce == of(st, xfer.sender@).nonce
            &&& now.accounts.contains_key(id) == st.accounts.contains_key(id)
            &&& accounts_alone(st, now)
            &&& rules::bound_balance(st, tx) == Some(
                ct(of(st, xfer.sender@).balances, token, st.zero),
            )
            &&& rules::terms(st, tx) == seq![
                Term::Less {
                    a: ct(of(st, xfer.sender@).balances, token, st.zero),
                    b: xfer.sender_ct,
                    fee: xfer.fee,
                },
                Term::Sum {
                    a: ct(of(st, xfer.receiver@).pending, token, st.zero),
                    b: xfer.receiver_ct,
                },
            ]
        }),
{
}

/// An unshield sets the sender's spendable balance of the token to the ciphertext that
/// was asked for, its balance less the sent amount and the fee, and advances its nonce.
/// The receiver's transparent balance of the same token rises by the declared amount.
/// Nothing else changes: no other token's balance, and nobody else's.
pub proof fn law_unshield_effect(
    st: State,
    token: u32,
    to: [u8; 32],
    amount: u64,
    xfer: SolventTransfer,
    sig: [u8; 64],
    height: u64,
    r: Reply,
    id: Seq<u8>,
    t: u32,
)
    requires
        rules::step(st, Transaction::Unshield { token, to, amount, xfer, sig }, height, r) is Ok,
        xfer.nonce < u64::MAX,
    ensures
        ({
            let tx = Transaction::Unshield { token, to, amount, xfer, sig };
            let now = rules::step(st, tx, height, r)->Ok_0;
            let had = amount_of(of(st, id).public, t);
            &&& amount_of(of(now, id).public, t) == if id == to@ && t == token {
                capped(had, amount as int)
            } else {
                had
            }
            &&& of(now, id).balances == if id == xfer.sender@ {
                of(st, id).balances.insert(token, r.terms[0])
            } else {
                of(st, id).balances
            }
            &&& of(now, id).pending == of(st, id).pending
            &&& of(now, id).nonce == of(st, id).nonce + if id == xfer.sender@ {
                1int
            } else {
                0
            }
            &&& xfer.nonce == of(st, xfer.sender@).nonce
            &&& now.accounts.contains_key(id) == st.accounts.contains_key(id)
            &&& accounts_alone(st, now)
            &&& rules::bound_balance(st, tx) == Some(
                ct(of(st, xfer.sender@).balances, token, st.zero),
            )
            &&& rules::terms(st, tx) == seq![
                Term::Less {
                    a: ct(of(st, xfer.sender@).balances, token, st.zero),
                    b: xfer.sender_ct,
                    fee: xfer.fee,
                },
            ]
        }),
{
}

/// Whether a list of tokens is in ascending order and lists just those that a table
/// names.
pub open spec fn names(ks: Seq<u32>, m: Map<u32, [u8; 64]>) -> bool {
    &&& forall|i: int, j: int| 0 <= i < j < ks.len() ==> #[trigger] ks[i] < #[trigger] ks[j]
    &&& forall|t: u32| #[trigger]
        m.contains_key(t) == (exists|i: int| 0 <= i < ks.len() && #[trigger] ks[i] == t)
}

/// What a rollover makes of an account, where `ks` lists its pending tokens: each of
/// them has the sum that was asked for it to spend, and nothing pending; no other
/// token's balance moves, and nothing transparent does.
pub open spec fn merged(
    a: AccountView,
    b: AccountView,
    ks: Seq<u32>,
    sums: Seq<[u8; 64]>,
    zero: [u8; 64],
) -> bool {
    &&& forall|i: int| 0 <= i < ks.len() ==> ct(b.balances, #[trigger] ks[i], zero) == sums[i]
    &&& forall|t: u32|
        !a.pending.contains_key(t) ==> #[trigger] ct(b.balances, t, zero) == ct(
            a.balances,
            t,
            zero,
        )
    &&& forall|t: u32| #[trigger] ct(b.pending, t, zero) == zero
    &&& b.public == a.public
}

proof fn lemma_rolled(a: AccountView, ks: Seq<u32>, sums: Seq<[u8; 64]>, zero: [u8; 64], n: nat)
    requires
        names(ks, a.pending),
        n <= ks.len(),
    ensures
        ({
            let b = rules::rolled(a, ks, sums, zero, n);
            &&& forall|i: int|
                0 <= i < n ==> b.balances.contains_key(#[trigger] ks[i]) && b.balances[ks[i]]
                    == sums[i] && b.pending.contains_key(ks[i]) && b.pending[ks[i]] == zero
            &&& forall|t: u32|
                (forall|i: int| 0 <= i < n ==> #[trigger] ks[i] != t) ==> {
                    &&& #[trigger] b.balances.contains_key(t) == a.balances.contains_key(t)
                    &&& b.balances.contains_key(t) ==> b.balances[t] == a.balances[t]
                    &&& b.pending.contains_key(t) == a.pending.contains_key(t)
                }
            &&& b.public == a.public
            &&& b.nonce == a.nonce
        }),
    decreases n,
{
    if n > 0 {
        let m = (n - 1) as nat;
        lemma_rolled(a, ks, sums, zero, m);
        let p = rules::rolled(a, ks, sums, zero, m);
        let b = rules::rolled(a, ks, sums, zero, n);
        let k = ks[n - 1];
        assert(b.balances == p.balances.insert(k, sums[n - 1]));
        assert(b.pending == p.pending.insert(k, zero));
        assert forall|i: int| 0 <= i < n implies b.balances.contains_key(#[trigger] ks[i])
            && b.balances[ks[i]] == sums[i] && b.pending.contains_key(ks[i]) && b.pending[ks[i]]
            == zero by {
            if i < m {
                assert(ks[i] < ks[n - 1]);
            }
        }
        assert forall|t: u32| (forall|i: int| 0 <= i < n ==> #[trigger] ks[i] != t) implies {
            &&& #[trigger] b.balances.contains_key(t) == a.balances.contains_key(t)
            &&& b.balances.contains_key(t) ==> b.balances[t] == a.balances[t]
            &&& b.pending.contains_key(t) == a.pending.contains_key(t)
        } by {
            assert(ks[n - 1] != t);
            assert(p.balances.contains_key(t) == a.balances.contains_key(t));
        }
    }
}

/// A rollover leaves nothing pending. For each token that was pending, in ascending
/// order, the sum of its spendable and its pending balance is asked for, and is then
/// its spendable balance. The nonce advances, and nothing else changes: what was
/// received is spendable once.
pub proof fn law_rollover_effect(
    st: State,
    account: [u8; 32],
    nonce: u64,
    sig: [u8; 64],
    height: u64,
    r: Reply,
    id: Seq<u8>,
) -> (ks: Seq<u32>)
    requires
        rules::step(st, Transaction::Rollover { account, nonce, sig }, height, r) is Ok,
        nonce < u64::MAX,
        of(st, account@).pending.dom().finite(),
    ensures
        names(ks, of(st, account@).pending),
        ({
            let tx = Transaction::Rollover { account, nonce, sig };
            let now = rules::step(st, tx, height, r)->Ok_0;
            let a = of(st, account@);
            &&& merged(a, of(now, account@), ks, r.terms, st.zero)
            &&& of(now, account@).nonce == a.nonce + 1
            &&& nonce == a.nonce
            &&& id != account@ ==> of(now, id) == of(st, id)
            &&& now.accounts.contains_key(id) == st.accounts.contains_key(id)
            &&& accounts_alone(st, now)
            &&& rules::terms(st, tx).len() == ks.len()
            &&& forall|i: int|
                0 <= i < ks.len() ==> #[trigger] rules::terms(st, tx)[i] == (Term::Sum {
                    a: ct(a.balances, ks[i], st.zero),
                    b: ct(a.pending, ks[i], st.zero),
                })
        }),
{
    let a = of(st, account@);
    let d = a.pending.dom();
    ordered::lemma_listed_32(d);
    let ks = ordered::order_32(d);
    assert forall|t: u32| #[trigger] a.pending.contains_key(t) == (exists|i: int|
        0 <= i < ks.len() && #[trigger] ks[i] == t) by {
        assert(d.contains(t) == ks.contains(t));
    }
    lemma_rolled(a, ks, r.terms, st.zero, ks.len());
    let tx = Transaction::Rollover { account, nonce, sig };
    let now = rules::step(st, tx, height, r)->Ok_0;
    let b = of(now, account@);
    assert forall|t: u32| !a.pending.contains_key(t) implies #[trigger] ct(b.balances, t, st.zero)
        == ct(a.balances, t, st.zero) by {
        assert(b.balances.contains_key(t) == a.balances.contains_key(t));
    }
    assert forall|t: u32| #[trigger] ct(b.pending, t, st.zero) == st.zero by {
        if a.pending.contains_key(t) {
            let i = choose|i: int| 0 <= i < ks.len() && #[trigger] ks[i] == t;
            assert(b.pending[ks[i]] == st.zero);
        } else {
            assert(b.balances.contains_key(t) == a.balances.contains_key(t));
        }
    }
    ks
}

/// Whether `id` is in a ring, and where.
pub open spec fn in_ring(ring: Seq<[u8; 32]>, id: Seq<u8>) -> bool {
    exists|i: int| 0 <= i < ring.len() && #[trigger] ring[i]@ == id
}

proof fn lemma_debited(
    st: State,
    token: u32,
    ring: Seq<[u8; 32]>,
    left: Seq<[u8; 64]>,
    n: nat,
    id: Seq<u8>,
)
    requires
        n <= ring.len(),
        forall|i: int, j: int|
            0 <= i < j < ring.len() ==> #[trigger] ring[i]@ != #[trigger] ring[j]@,
        forall|i: int| 0 <= i < ring.len() ==> st.accounts.contains_key(#[trigger] ring[i]@),
    ensures
        ({
            let d = rules::debited(st, token, ring, left, n);
            &&& forall|i: int|
                0 <= i < n && #[trigger] ring[i]@ == id ==> of(d, id).balances == of(
                    st,
                    id,
                ).balances.insert(token, left[i])
            &&& (forall|i: int| 0 <= i < n ==> #[trigger] ring[i]@ != id) ==> of(d, id) == of(
                st,
                id,
            )
            &&& of(d, id).pending == of(st, id).pending
            &&& of(d, id).public == of(st, id).public
            &&& of(d, id).nonce == of(st, id).nonce
            &&& d.accounts.contains_key(id) == st.accounts.contains_key(id)
            &&& accounts_alone(st, d)
        }),
    decreases n,
{
    if n > 0 {
        let m = (n - 1) as nat;
        lemma_debited(st, token, ring, left, m, id);
        assert(st.accounts.contains_key(ring[n - 1]@));
        if ring[n - 1]@ == id {
            assert forall|i: int| 0 <= i < m implies #[trigger] ring[i]@ != id by {
                assert(ring[i]@ != ring[n - 1]@);
            }
        }
    }
}

proof fn lemma_ring_good(
    st: State,
    token: u32,
    ring: Seq<[u8; 32]>,
    balances: Seq<[u8; 64]>,
    from: int,
)
    requires
        0 <= from <= ring.len(),
    ensures
        match rules::ring_refused(st, token, ring, balances, from) {
            None => forall|i: int|
                from <= i < ring.len() ==> !ring_bad(st, ring, i) && !ring_stale(
                    st,
                    token,
                    #[trigger] ring[i],
                    balances[i],
                ),
            Some(e) => exists|i: int| #[trigger] ring_fault(st, token, ring, balances, from, i, e),
        },
    decreases ring.len() - from,
{
    if from < ring.len() {
        lemma_ring_good(st, token, ring, balances, from + 1);
        assert(rules::repeated(ring, from) == exists|j: int|
            0 <= j < from && #[trigger] ring[j]@ == ring[from]@);
        match rules::ring_refused(st, token, ring, balances, from) {
            None => {},
            Some(e) => {
                if ring_bad(st, ring, from) || ring_stale(st, token, ring[from], balances[from]) {
                    assert(ring_fault(st, token, ring, balances, from, from, e));
                } else {
                    let next = from + 1;
                    let i = choose|i: int| #[trigger]
                        ring_fault(st, token, ring, balances, next, i, e);
                    assert(ring_fault(st, token, ring, balances, from, i, e));
                }
            },
        }
    }
}

/// Whether the ring's member at `i` is unknown, or stands before `i` too.
pub open spec fn ring_bad(st: State, ring: Seq<[u8; 32]>, i: int) -> bool {
    ||| !st.accounts.contains_key(ring[i]@)
    ||| exists|j: int| 0 <= j < i && #[trigger] ring[j]@ == ring[i]@
}

/// Whether a ring member's balance of the token is not the one claimed for it.
pub open spec fn ring_stale(st: State, token: u32, member: [u8; 32], claimed: [u8; 64]) -> bool {
    ct(of(st, member@).balances, token, st.zero) != claimed
}

/// Whether something is wrong with a ring member.
pub open spec fn ring_fails(
    st: State,
    token: u32,
    ring: Seq<[u8; 32]>,
    balances: Seq<[u8; 64]>,
) -> bool {
    exists|i: int|
        0 <= i < ring.len() && (ring_bad(st, ring, i) || ring_stale(
            st,
            token,
            #[trigger] ring[i],
            balances[i],
        ))
}

/// Whether the member at `i` is the first from `from` on that something is wrong with,
/// and `e` says what.
pub open spec fn ring_fault(
    st: State,
    token: u32,
    ring: Seq<[u8; 32]>,
    balances: Seq<[u8; 64]>,
    from: int,
    i: int,
    e: LedgerError,
) -> bool {
    &&& from <= i < ring.len()
    &&& forall|j: int|
        from <= j < i ==> !ring_bad(st, ring, j) && !ring_stale(
            st,
            token,
            #[trigger] ring[j],
            balances[j],
        )
    &&& if ring_bad(st, ring, i) {
        e == LedgerError::BadRing
    } else {
        ring_stale(st, token, ring[i], balances[i]) && e == LedgerError::StaleRingBalance
    }
}

/// An anonymous transfer sets each ring member's spendable balance of the token to the
/// ciphertext asked for at its place, that balance less the member's debit. The one-time
/// account's pending balance of the same token becomes the ciphertext asked for last,
/// that balance and the credit. The nullifier is spent. Nothing else changes: no other
/// token's balance, nothing transparent, no nonce, and nobody else's account.
pub proof fn law_anon_transfer_effect(
    st: State,
    token: u32,
    xfer: AnonTransfer,
    height: u64,
    r: Reply,
    id: Seq<u8>,
)
    requires
        rules::step(st, Transaction::AnonTransfer { token, xfer }, height, r) is Ok,
    ensures
        ({
            let tx = Transaction::AnonTransfer { token, xfer };
            let now = rules::step(st, tx, height, r)->Ok_0;
            let n = xfer.ring@.len() as int;
            &&& of(now, id).pending == if id == xfer.one_time@ {
                of(st, id).pending.insert(token, r.terms[n])
            } else {
                of(st, id).pending
            }
            &&& forall|i: int|
                0 <= i < n && #[trigger] xfer.ring@[i]@ == id ==> of(now, id).balances == of(
                    st,
                    id,
                ).balances.insert(token, r.terms[i])
            &&& !in_ring(xfer.ring@, id) ==> of(now, id).balances == of(st, id).balances
            &&& of(now, id).public == of(st, id).public
            &&& of(now, id).nonce == of(st, id).nonce
            &&& now.accounts.contains_key(id) == (st.accounts.contains_key(id) || id
                == xfer.one_time@)
            &&& now.nullifiers == st.nullifiers.insert(xfer.nullifier@)
            &&& !st.nullifiers.contains(xfer.nullifier@)
            &&& accounts_alone(st, State { nullifiers: st.nullifiers, ..now })
            &&& rules::terms(st, tx).len() == n + 1
            &&& forall|i: int|
                0 <= i < n ==> #[trigger] rules::terms(st, tx)[i] == (Term::Less {
                    a: ct(of(st, xfer.ring@[i]@).balances, token, st.zero),
                    b: xfer.enc@[i],
                    fee: 0,
                })
            &&& rules::terms(st, tx)[n] == (Term::Sum {
                a: ct(of(st, xfer.one_time@).pending, token, st.zero),
                b: xfer.credit,
            })
        }),
{
    let ring = xfer.ring@;
    lemma_ring_good(st, token, ring, xfer.balances@, 0);
    assert forall|i: int| 0 <= i < ring.len() implies st.accounts.contains_key(
        #[trigger] ring[i]@,
    ) by {
        assert(!ring_bad(st, ring, i) && !ring_stale(st, token, ring[i], xfer.balances@[i]));
    }
    assert forall|i: int, j: int| 0 <= i < j < ring.len() implies #[trigger] ring[i]@
        != #[trigger] ring[j]@ by {
        assert(!ring_bad(st, ring, j) && !ring_stale(st, token, ring[j], xfer.balances@[j]));
    }
    lemma_debited(st, token, ring, r.terms, ring.len(), id);
    lemma_debited(st, token, ring, r.terms, ring.len(), xfer.one_time@);
}

// --- tokens and contracts ----------------------------------------------------------

/// A created token takes the next id under its canonical ticker, with its creator and
/// supply, and the creator's spendable balance of it becomes the ciphertext that was
/// asked for: that balance and the supply. The next id rises by one. Nothing else
/// changes.
pub proof fn law_create_token_effect(
    st: State,
    ticker: String,
    creator: [u8; 32],
    supply: u64,
    sig: [u8; 64],
    height: u64,
    r: Reply,
    id: Seq<u8>,
)
    requires
        rules::step(st, Transaction::CreateToken { ticker, creator, supply, sig }, height, r) is Ok,
        st.next_token < u32::MAX,
    ensures
        ({
            let tx = Transaction::CreateToken { ticker, creator, supply, sig };
            let now = rules::step(st, tx, height, r)->Ok_0;
            let n = st.next_token;
            let t = encode_utf8(ticker::normal(ticker@)->0);
            &&& ticker::normal(ticker@) is Some
            &&& !st.tickers.contains_key(t)
            &&& now.tokens == st.tokens.insert(
                n,
                TokenView { id: n, ticker: t, creator: creator@, supply },
            )
            &&& now.tickers == st.tickers.insert(t, n)
            &&& now.next_token == n + 1
            &&& of(now, id).balances == if id == creator@ {
                of(st, id).balances.insert(n, r.terms[0])
            } else {
                of(st, id).balances
            }
            &&& of(now, id).pending == of(st, id).pending
            &&& of(now, id).public == of(st, id).public
            &&& of(now, id).nonce == of(st, id).nonce
            &&& now.accounts.contains_key(id) == st.accounts.contains_key(id)
            &&& now.contracts == st.contracts
            &&& now.nullifiers == st.nullifiers
            &&& now.validators == st.validators
            &&& now.zero == st.zero
            &&& rules::terms(st, tx) == seq![
                Term::Mint { a: ct(of(st, creator@).balances, n, st.zero), amount: supply },
            ]
        }),
{
}

/// A deployment puts the code with empty storage at the address that the deployer and
/// the code give, where nothing stood. Nothing else changes.
pub proof fn law_deploy_effect(
    st: State,
    deployer: [u8; 32],
    code: Vec<u8>,
    sig: [u8; 64],
    height: u64,
    r: Reply,
)
    requires
        rules::step(st, Transaction::DeployContract { deployer, code, sig }, height, r) is Ok,
    ensures
        ({
            let tx = Transaction::DeployContract { deployer, code, sig };
            let now = rules::step(st, tx, height, r)->Ok_0;
            let id = hashing::digest(encode_utf8("LAT-contract"@) + deployer@ + code@);
            &&& !st.contracts.contains_key(id)
            &&& now == (State {
                contracts: st.contracts.insert(
                    id,
                    ContractView { code: code@, storage: Map::empty() },
                ),
                ..st
            })
            &&& rules::terms(st, tx).len() == 0
        }),
{
    lemma_contract_tag();
    let id = hashing::digest(encode_utf8("LAT-contract"@) + deployer@ + code@);
    assert(vm::contract_preimage(deployer@, code@) =~= encode_utf8("LAT-contract"@) + deployer@
        + code@);
}

proof fn lemma_contract_tag()
    ensures
        encode_utf8("LAT-contract"@) == seq![
            76u8,
            65,
            84,
            45,
            99,
            111,
            110,
            116,
            114,
            97,
            99,
            116,
        ],
{
    reveal_strlit("LAT-contract");
    let s = "LAT-contract"@;
    assert(is_ascii_chars(s));
    is_ascii_chars_encode_utf8(s);
    assert(encode_utf8(s) =~= seq![
        76u8,
        65,
        84,
        45,
        99,
        111,
        110,
        116,
        114,
        97,
        99,
        116,
    ]);
}

/// A call runs the contract's code from its start, on its storage and with an empty
/// stack, for the caller and the input, within 100,000 steps. The storage it leaves is
/// the contract's, the code stays, the caller's nonce advances, and nothing else
/// changes.
pub proof fn law_call_effect(
    st: State,
    contract: [u8; 32],
    caller: [u8; 32],
    input: u64,
    nonce: u64,
    sig: [u8; 64],
    height: u64,
    r: Reply,
    id: Seq<u8>,
)
    requires
        rules::step(
            st,
            Transaction::CallContract { contract, caller, input, nonce, sig },
            height,
            r,
        ) is Ok,
        nonce < u64::MAX,
    ensures
        ({
            let tx = Transaction::CallContract { contract, caller, input, nonce, sig };
            let now = rules::step(st, tx, height, r)->Ok_0;
            let c = st.contracts[contract@];
            let ran = vm::run(
                c.code,
                caller@,
                input,
                vm::Machine { stack: Seq::empty(), pc: 0, storage: c.storage },
                100_000,
            );
            &&& st.contracts.contains_key(contract@)
            &&& ran.0 is Ok
            &&& now.contracts == st.contracts.insert(
                contract@,
                ContractView { code: c.code, storage: ran.1 },
            )
            &&& of(now, id) == if id == caller@ {
                AccountView { nonce: (nonce + 1) as u64, ..of(st, id) }
            } else {
                of(st, id)
            }
            &&& nonce == of(st, caller@).nonce
            &&& now.accounts.contains_key(id) == st.accounts.contains_key(id)
            &&& accounts_alone(st, State { contracts: st.contracts, ..now })
            &&& rules::terms(st, tx).len() == 0
        }),
{
}

// --- staking -------------------------------------------------------------------------

/// Sums of amounts add up.
pub proof fn law_total_adds(a: Seq<(u64, u64)>, b: Seq<(u64, u64)>, x: (u64, u64))
    ensures
        rules::total(Seq::<(u64, u64)>::empty()) == 0,
        rules::total(seq![x]) == x.0,
        rules::total(a + b) == rules::total(a) + rules::total(b),
    decreases b.len(),
{
    assert(seq![x].drop_last() =~= Seq::empty());
    assert(rules::total(seq![x].drop_last()) == 0);
    if b.len() == 0 {
        assert(a + b =~= a);
    } else {
        law_total_adds(a, b.drop_last(), x);
        assert((a + b).drop_last() =~= a + b.drop_last());
    }
}

/// Unbonding funds come free at their release height: at `height` those entries are due
/// whose height is not past it, the others wait, and both keep their order.
pub proof fn law_due_at_release(u: Seq<(u64, u64)>, height: u64)
    ensures
        rules::matured(u, height) == u.filter(|x: (u64, u64)| x.1 <= height),
        rules::waiting(u, height) == u.filter(|x: (u64, u64)| x.1 > height),
    decreases u.len(),
{
    reveal(Seq::filter);
    if u.len() > 0 {
        law_due_at_release(u.drop_last(), height);
    }
}

/// Whether a validator has nothing left that a record would have to say.
pub open spec fn nothing_left(v: ValidatorView) -> bool {
    v.staked == 0 && v.unbonding.len() == 0 && !v.tombstoned
}

/// A stake first releases what is due to the sender's transparent LAT, then moves the
/// amount from there into its bonded stake. What is not due waits on. The nonce
/// advances, and nothing else changes.
pub proof fn law_stake_effect(
    st: State,
    validator: [u8; 32],
    amount: u64,
    nonce: u64,
    sig: [u8; 64],
    height: u64,
    r: Reply,
    id: Seq<u8>,
    t: u32,
)
    requires
        rules::step(st, Transaction::Stake { validator, amount, nonce, sig }, height, r) is Ok,
        nonce < u64::MAX,
    ensures
        ({
            let tx = Transaction::Stake { validator, amount, nonce, sig };
            let now = rules::step(st, tx, height, r)->Ok_0;
            let v = bonded(st, validator@);
            let w = bonded(now, validator@);
            let due = rules::total(v.unbonding.filter(|x: (u64, u64)| x.1 <= height));
            let had = amount_of(of(st, id).public, t);
            &&& amount_of(of(now, id).public, t) == if id == validator@ && t == 0 {
                capped(had, due as int) - amount
            } else {
                had
            }
            &&& amount <= capped(amount_of(of(st, validator@).public, 0), due as int)
            &&& of(now, id).balances == of(st, id).balances
            &&& of(now, id).pending == of(st, id).pending
            &&& of(now, id).nonce == of(st, id).nonce + if id == validator@ {
                1int
            } else {
                0
            }
            &&& nonce == of(st, validator@).nonce
            &&& now.accounts.contains_key(id) == st.accounts.contains_key(id)
            &&& w.staked == capped(v.staked as int, amount as int)
            &&& w.unbonding == v.unbonding.filter(|x: (u64, u64)| x.1 > height)
            &&& w.tombstoned == v.tombstoned
            &&& now.validators.contains_key(validator@) == !nothing_left(w)
            &&& id != validator@ ==> bonded(now, id) == bonded(st, id)
                && now.validators.contains_key(id) == st.validators.contains_key(id)
            &&& accounts_alone(st, State { validators: st.validators, ..now })
            &&& rules::terms(st, tx).len() == 0
        }),
{
    let v = bonded(st, validator@);
    law_due_at_release(v.unbonding, height);
    let w = ValidatorView {
        staked: rules::sat(v.staked as int, amount as int),
        unbonding: rules::waiting(v.unbonding, height),
        tombstoned: v.tombstoned,
    };
    assert(w.drained() == nothing_left(w));
    if w.drained() {
        assert(w.unbonding =~= Seq::empty());
    }
}

/// An unstake releases what is due in the same way, and moves the amount from the
/// bonded stake into an unbonding entry that comes free 240 blocks later. The nonce
/// advances, and nothing else changes.
pub proof fn law_unstake_effect(
    st: State,
    validator: [u8; 32],
    amount: u64,
    nonce: u64,
    sig: [u8; 64],
    height: u64,
    r: Reply,
    id: Seq<u8>,
    t: u32,
)
    requires
        rules::step(st, Transaction::Unstake { validator, amount, nonce, sig }, height, r) is Ok,
        nonce < u64::MAX,
        height + 240 <= u64::MAX,
    ensures
        ({
            let tx = Transaction::Unstake { validator, amount, nonce, sig };
            let now = rules::step(st, tx, height, r)->Ok_0;
            let v = bonded(st, validator@);
            let w = bonded(now, validator@);
            let due = rules::total(v.unbonding.filter(|x: (u64, u64)| x.1 <= height));
            let left = v.unbonding.filter(|x: (u64, u64)| x.1 > height);
            let had = amount_of(of(st, id).public, t);
            &&& amount_of(of(now, id).public, t) == if id == validator@ && t == 0 {
                capped(had, due as int)
            } else {
                had
            }
            &&& of(now, id).balances == of(st, id).balances
            &&& of(now, id).pending == of(st, id).pending
            &&& of(now, id).nonce == of(st, id).nonce + if id == validator@ {
                1int
            } else {
                0
            }
            &&& nonce == of(st, validator@).nonce
            &&& now.accounts.contains_key(id) == st.accounts.contains_key(id)
            &&& w.staked == v.staked - amount
            &&& amount == 0 ==> w.unbonding == left
            &&& amount > 0 ==> w.unbonding.len() == left.len() + 1 && w.unbonding.drop_last()
                == left && w.unbonding.last().0 == amount && w.unbonding.last().1 == height + 240
            &&& w.tombstoned == v.tombstoned
            &&& now.validators.contains_key(validator@) == !nothing_left(w)
            &&& id != validator@ ==> bonded(now, id) == bonded(st, id)
                && now.validators.contains_key(id) == st.validators.contains_key(id)
            &&& accounts_alone(st, State { validators: st.validators, ..now })
            &&& rules::terms(st, tx).len() == 0
        }),
{
    let v = bonded(st, validator@);
    law_due_at_release(v.unbonding, height);
    let left = rules::waiting(v.unbonding, height);
    let entry = (amount, (height + 240) as u64);
    assert(left.push(entry).drop_last() =~= left);
    let w = ValidatorView {
        staked: (v.staked - amount) as u64,
        unbonding: if amount > 0 {
            left.push(entry)
        } else {
            left
        },
        tombstoned: v.tombstoned,
    };
    assert(w.drained() == nothing_left(w));
    if w.drained() {
        assert(w.unbonding =~= Seq::empty());
    }
}

/// Whether `d` is what is left of unbonding entries from which something was taken,
/// oldest first: each keeps its place and its release height, none grows, and one that
/// keeps something shields all behind it.
pub open spec fn taken_oldest_first(u: Seq<(u64, u64)>, d: Seq<(u64, u64)>) -> bool {
    &&& d.len() == u.len()
    &&& forall|i: int| 0 <= i < u.len() ==> (#[trigger] d[i]).1 == u[i].1 && d[i].0 <= u[i].0
    &&& forall|i: int, j: int|
        0 <= i < j < u.len() && (#[trigger] d[i]).0 > 0 ==> #[trigger] d[j] == u[j]
}

proof fn lemma_total_prefix(u: Seq<(u64, u64)>, i: int, j: int)
    requires
        0 <= i <= j <= u.len(),
    ensures
        rules::total(u.take(i)) <= rules::total(u.take(j)),
        i < j ==> rules::total(u.take(i)) + u[i].0 <= rules::total(u.take(j)),
    decreases j,
{
    if i < j {
        assert(u.take(j).drop_last() =~= u.take(j - 1));
        lemma_total_prefix(u, i, j - 1);
    }
}

proof fn lemma_reduced_oldest_first(u: Seq<(u64, u64)>, rest: int)
    requires
        rest >= 0,
    ensures
        taken_oldest_first(u, rules::reduced(u, rest)),
        rest == 0 ==> rules::reduced(u, rest) == u,
{
    let d = rules::reduced(u, rest);
    assert forall|i: int, j: int| 0 <= i < j < u.len() && (#[trigger] d[i]).0 > 0 implies
        #[trigger] d[j] == u[j] by {
        lemma_total_prefix(u, i, j);
    }
    if rest == 0 {
        assert(d =~= u);
    }
}

proof fn lemma_positive_is_filter(u: Seq<(u64, u64)>)
    ensures
        rules::positive(u) == u.filter(|x: (u64, u64)| x.0 > 0),
    decreases u.len(),
{
    reveal(Seq::filter);
    if u.len() > 0 {
        lemma_positive_is_filter(u.drop_last());
    }
}

/// What an equivocation costs and earns: a tenth of all that is at stake, rounded down
/// and at least one unit, and of that a twentieth, rounded down, for who reports it.
pub open spec fn penalised(stake: int, penalty: int, reward: int) -> bool {
    &&& stake >= 10 ==> 10 * penalty <= stake < 10 * penalty + 10
    &&& stake < 10 ==> penalty == 1
    &&& 20 * reward <= penalty < 20 * reward + 20
}

/// Proven equivocation costs the validator a tenth of its stake, taken from what is
/// bonded and then from the unbonding entries, oldest first. Its key is barred. A
/// registered beneficiary's transparent LAT rises by a twentieth of the penalty; the
/// rest is gone. Nothing else changes.
pub proof fn law_slash_effect(
    st: State,
    validator: [u8; 32],
    at: u64,
    block_a: [u8; 32],
    sig_a: [u8; 64],
    block_b: [u8; 32],
    sig_b: [u8; 64],
    beneficiary: [u8; 32],
    height: u64,
    r: Reply,
    id: Seq<u8>,
    t: u32,
) -> (out: (int, int, Seq<(u64, u64)>))
    requires
        rules::step(
            st,
            Transaction::SlashEvidence {
                validator,
                height: at,
                block_a,
                sig_a,
                block_b,
                sig_b,
                beneficiary,
            },
            height,
            r,
        ) is Ok,
        bonded(st, validator@).staked + rules::total(bonded(st, validator@).unbonding) <= u64::MAX,
    ensures
        ({
            let tx = Transaction::SlashEvidence {
                validator,
                height: at,
                block_a,
                sig_a,
                block_b,
                sig_b,
                beneficiary,
            };
            let now = rules::step(st, tx, height, r)->Ok_0;
            let (penalty, reward, d) = out;
            let v = bonded(st, validator@);
            let w = bonded(now, validator@);
            let stake = v.staked + rules::total(v.unbonding);
            let had = amount_of(of(st, id).public, t);
            &&& penalised(stake, penalty, reward)
            &&& w.staked == if penalty < v.staked {
                v.staked - penalty
            } else {
                0
            }
            &&& w.staked + rules::total(d) == stake - penalty
            &&& taken_oldest_first(v.unbonding, d)
            &&& w.unbonding == d.filter(|x: (u64, u64)| x.0 > 0)
            &&& w.tombstoned
            &&& !v.tombstoned
            &&& amount_of(of(now, id).public, t) == if id == beneficiary@ && t == 0
                && st.accounts.contains_key(id) {
                capped(had, reward)
            } else {
                had
            }
            &&& of(now, id).balances == of(st, id).balances
            &&& of(now, id).pending == of(st, id).pending
            &&& of(now, id).nonce == of(st, id).nonce
            &&& now.accounts.contains_key(id) == st.accounts.contains_key(id)
            &&& id != validator@ ==> bonded(now, id) == bonded(st, id)
                && now.validators.contains_key(id) == st.validators.contains_key(id)
            &&& accounts_alone(st, State { validators: st.validators, ..now })
            &&& rules::terms(st, tx).len() == 0
        }),
{
    let v = bonded(st, validator@);
    assert(st.validator(validator@) == v);
    rules_laws::law_slash_takes_the_penalty(v);
    let penalty = rules::penalty(v) as int;
    let reward = rules::reward(v) as int;
    let first = if penalty < v.staked {
        penalty
    } else {
        v.staked as int
    };
    let d = rules::reduced(v.unbonding, penalty - first);
    lemma_reduced_oldest_first(v.unbonding, penalty - first);
    lemma_positive_is_filter(d);
    rules_laws::lemma_positive_total(d);
    assert(penalised(v.staked + rules::total(v.unbonding), penalty, reward));
    (penalty, reward, d)
}

// --- credits outside transactions ----------------------------------------------------

/// A credit raises one account's transparent balance of one token by the amount, and
/// registers the account if need be; of nothing it does nothing.
pub proof fn law_public_credit_effect<B: KVStore>(
    was: Ledger<B>,
    now: Ledger<B>,
    account: [u8; 32],
    token: u32,
    amount: u64,
    id: Seq<u8>,
    t: u32,
)
    requires
        apply::public_credited(was, now, account, token, amount),
    ensures
        ({
            let (st, new) = (was.state(), now.state());
            let had = amount_of(of(st, id).public, t);
            &&& amount_of(of(new, id).public, t) == if id == account@ && t == token {
                capped(had, amount as int)
            } else {
                had
            }
            &&& of(new, id).balances == of(st, id).balances
            &&& of(new, id).pending == of(st, id).pending
            &&& of(new, id).nonce == of(st, id).nonce
            &&& new.accounts.contains_key(id) == (st.accounts.contains_key(id) || id == account@
                && amount > 0)
            &&& accounts_alone(st, new)
        }),
{
}

/// A reward sets the miner's spendable balance of the token to the given sum, and
/// registers the miner if need be; of nothing it does nothing.
pub proof fn law_reward_effect<B: KVStore>(
    was: Ledger<B>,
    now: Ledger<B>,
    miner: [u8; 32],
    token: u32,
    amount: u64,
    sum: [u8; 64],
    id: Seq<u8>,
)
    requires
        apply::rewarded(was, now, miner, token, amount, sum),
    ensures
        ({
            let (st, new) = (was.state(), now.state());
            &&& of(new, id).balances == if id == miner@ && amount > 0 {
                of(st, id).balances.insert(token, sum)
            } else {
                of(st, id).balances
            }
            &&& of(new, id).pending == of(st, id).pending
            &&& of(new, id).public == of(st, id).public
            &&& of(new, id).nonce == of(st, id).nonce
            &&& new.accounts.contains_key(id) == (st.accounts.contains_key(id) || id == miner@
                && amount > 0)
            &&& accounts_alone(st, new)
        }),
{
}

/// A premine sets a registered account's spendable LAT to the given sum, and is refused
/// for any other account.
pub proof fn law_genesis_effect<B: KVStore>(
    was: Ledger<B>,
    now: Ledger<B>,
    account: [u8; 32],
    sum: [u8; 64],
    res: Result<(), LedgerError>,
    id: Seq<u8>,
)
    requires
        apply::genesis_credited(was, now, account, sum, res),
    ensures
        ({
            let (st, new) = (was.state(), now.state());
            &&& st.accounts.contains_key(account@) ==> res is Ok
            &&& !st.accounts.contains_key(account@) ==> res == Err::<(), LedgerError>(
                LedgerError::ReceiverNotRegistered,
            )
            &&& of(new, id).balances == if id == account@ && res is Ok {
                of(st, id).balances.insert(0, sum)
            } else {
                of(st, id).balances
            }
            &&& of(new, id).pending == of(st, id).pending
            &&& of(new, id).public == of(st, id).public
            &&& of(new, id).nonce == of(st, id).nonce
            &&& new.accounts.contains_key(id) == st.accounts.contains_key(id)
            &&& accounts_alone(st, new)
        }),
{
    let (st, new) = (was.state(), now.state());
    match res {
        Ok(_) => {
            assert(st.accounts.contains_key(account@));
            assert(new.accounts == st.accounts.insert(
                account@,
                of(st, account@).with_balance(0, sum),
            ));
        },
        Err(_) => {
            assert(!st.accounts.contains_key(account@));
        },
    }
}

// --- what is refused -----------------------------------------------------------------

/// The first of the reasons from `i` on that holds.
pub open spec fn first(reasons: Seq<(bool, LedgerError)>, i: int) -> Option<LedgerError>
    decreases reasons.len() - i,
{
    if i >= reasons.len() {
        None
    } else if reasons[i].0 {
        Some(reasons[i].1)
    } else {
        first(reasons, i + 1)
    }
}

/// Whether `id` may spend once more: what its signature, its account and its nonce have
/// against it.
pub open spec fn spender(st: State, id: Seq<u8>, nonce: u64, r: Reply) -> Seq<(bool, LedgerError)> {
    seq![
        (!r.signatures, LedgerError::BadSignature),
        (!st.accounts.contains_key(id), LedgerError::SenderNotRegistered),
        (nonce != of(st, id).nonce, LedgerError::BadNonce),
    ]
}

/// What a validator has at stake, in all.
pub open spec fn stake_in(st: State, id: Seq<u8>) -> int {
    bonded(st, id).staked + rules::total(bonded(st, id).unbonding)
}

/// Everything that a transaction can be refused for, in the order in which it is asked.
pub open spec fn reasons(st: State, tx: Transaction, height: u64, r: Reply) -> Seq<
    (bool, LedgerError),
> {
    match tx {
        Transaction::Register { pubkey, .. } => seq![
            (st.accounts.contains_key(pubkey@), LedgerError::AlreadyRegistered),
        ],
        Transaction::CreateToken { ticker, creator, .. } => {
            let t = ticker::normal(ticker@);
            seq![
                (!r.signatures, LedgerError::BadSignature),
                (t is None, LedgerError::InvalidTicker),
                (st.tickers.contains_key(encode_utf8(t->0)), LedgerError::TickerTaken),
                (!st.accounts.contains_key(creator@), LedgerError::CreatorNotRegistered),
            ]
        },
        Transaction::SolventTransfer { xfer, .. } => seq![
            (!st.accounts.contains_key(xfer.sender@), LedgerError::SenderNotRegistered),
            (xfer.nonce != of(st, xfer.sender@).nonce, LedgerError::BadNonce),
            (!r.proven, LedgerError::InvalidProof),
            (!st.accounts.contains_key(xfer.receiver@), LedgerError::ReceiverNotRegistered),
        ],
        Transaction::Rollover { account, nonce, .. } => spender(st, account@, nonce, r),
        Transaction::DeployContract { deployer, code, .. } => seq![
            (!r.signatures, LedgerError::BadSignature),
            (!st.accounts.contains_key(deployer@), LedgerError::SenderNotRegistered),
            (
                st.contracts.contains_key(
                    hashing::digest(encode_utf8("LAT-contract"@) + deployer@ + code@),
                ),
                LedgerError::ContractExists,
            ),
        ],
        Transaction::CallContract { contract, caller, input, nonce, .. } => {
            let c = st.contracts[contract@];
            let m = vm::Machine { stack: Seq::empty(), pc: 0, storage: c.storage };
            spender(st, caller@, nonce, r) + seq![
                (!st.contracts.contains_key(contract@), LedgerError::NoSuchContract),
                (
                    vm::run(c.code, caller@, input, m, 100_000).0 is Err,
                    LedgerError::ContractFailed,
                ),
            ]
        },
        Transaction::PublicTransfer { token, from, to, amount, fee, nonce, .. } => spender(
            st,
            from@,
            nonce,
            r,
        ) + seq![
            (!st.accounts.contains_key(to@), LedgerError::ReceiverNotRegistered),
            (
                amount_of(of(st, from@).public, token) < amount + fee,
                LedgerError::InsufficientPublicBalance,
            ),
        ],
        Transaction::Shield { token, from, to, amount, fee, nonce, .. } => spender(
            st,
            from@,
            nonce,
            r,
        ) + seq![
            (!st.accounts.contains_key(to@), LedgerError::ReceiverNotRegistered),
            (
                amount_of(of(st, from@).public, token) < amount + fee,
                LedgerError::InsufficientPublicBalance,
            ),
        ],
        Transaction::ShieldStealth { token, from, amount, fee, nonce, .. } => spender(
            st,
            from@,
            nonce,
            r,
        ) + seq![
            (
                amount_of(of(st, from@).public, token) < amount + fee,
                LedgerError::InsufficientPublicBalance,
            ),
        ],
        Transaction::Unshield { to, xfer, .. } => seq![
            (!r.signatures, LedgerError::BadSignature),
            (!r.view_key, LedgerError::WrongUnshieldReceiver),
            (!st.accounts.contains_key(xfer.sender@), LedgerError::SenderNotRegistered),
            (xfer.nonce != of(st, xfer.sender@).nonce, LedgerError::BadNonce),
            (!r.proven, LedgerError::InvalidProof),
            (!r.reveals, LedgerError::UnshieldAmountMismatch),
            (!st.accounts.contains_key(to@), LedgerError::ReceiverNotRegistered),
        ],
        Transaction::Stake { validator, amount, nonce, .. } => {
            let u = bonded(st, validator@).unbonding;
            let due = rules::total(u.filter(|x: (u64, u64)| x.1 <= height));
            spender(st, validator@, nonce, r) + seq![
                (
                    capped(amount_of(of(st, validator@).public, 0), due as int) < amount,
                    LedgerError::InsufficientPublicBalance,
                ),
            ]
        },
        Transaction::Unstake { validator, amount, nonce, .. } => spender(
            st,
            validator@,
            nonce,
            r,
        ) + seq![(bonded(st, validator@).staked < amount, LedgerError::InsufficientStake)],
        Transaction::SlashEvidence { validator, block_a, block_b, .. } => seq![
            (block_a@ == block_b@, LedgerError::BadEvidence),
            (!r.signatures, LedgerError::BadEvidence),
            (bonded(st, validator@).tombstoned, LedgerError::NothingToSlash),
            (stake_in(st, validator@) == 0, LedgerError::NothingToSlash),
        ],
        _ => seq![],
    }
}

/// Whether a transaction is refused for the first reason that holds against it, and
/// applied where none does.
pub open spec fn answered(st: State, tx: Transaction, height: u64, r: Reply) -> bool {
    match first(reasons(st, tx, height, r), 0) {
        Some(e) => rules::step(st, tx, height, r) == Err::<State, LedgerError>(e),
        None => rules::step(st, tx, height, r) is Ok,
    }
}

proof fn lemma_register_answered(st: State, tx: Transaction, height: u64, r: Reply)
    requires
        tx is Register,
    ensures
        answered(st, tx, height, r),
{
    reveal_with_fuel(first, 8);
}

proof fn lemma_create_answered(st: State, tx: Transaction, height: u64, r: Reply)
    requires
        tx is CreateToken,
    ensures
        answered(st, tx, height, r),
{
    reveal_with_fuel(first, 8);
}

proof fn lemma_solvent_answered(st: State, tx: Transaction, height: u64, r: Reply)
    requires
        tx is SolventTransfer,
    ensures
        answered(st, tx, height, r),
{
    reveal_with_fuel(first, 8);
}

proof fn lemma_rollover_answered(st: State, tx: Transaction, height: u64, r: Reply)
    requires
        tx is Rollover,
    ensures
        answered(st, tx, height, r),
{
    reveal_with_fuel(first, 8);
}

proof fn lemma_deploy_answered(st: State, tx: Transaction, height: u64, r: Reply)
    requires
        tx is DeployContract,
    ensures
        answered(st, tx, height, r),
{
    reveal_with_fuel(first, 8);
    if let Transaction::DeployContract { deployer, code, .. } = tx {
        lemma_contract_tag();
        assert(vm::contract_preimage(deployer@, code@) =~= encode_utf8("LAT-contract"@)
            + deployer@ + code@);
    }
}

proof fn lemma_call_answered(st: State, tx: Transaction, height: u64, r: Reply)
    requires
        tx is CallContract,
    ensures
        answered(st, tx, height, r),
{
    reveal_with_fuel(first, 8);
    if let Transaction::CallContract { contract, .. } = tx {
        let c = st.contracts[contract@];
        let m = vm::Machine { stack: Seq::empty(), pc: 0, storage: c.storage };
        assert(vm::start(c.storage) == m);
    }
}

proof fn lemma_public_answered(st: State, tx: Transaction, height: u64, r: Reply)
    requires
        tx is PublicTransfer,
    ensures
        answered(st, tx, height, r),
{
    reveal_with_fuel(first, 8);
}

proof fn lemma_shield_answered(st: State, tx: Transaction, height: u64, r: Reply)
    requires
        tx is Shield,
    ensures
        answered(st, tx, height, r),
{
    reveal_with_fuel(first, 8);
}

proof fn lemma_stealth_answered(st: State, tx: Transaction, height: u64, r: Reply)
    requires
        tx is ShieldStealth,
    ensures
        answered(st, tx, height, r),
{
    reveal_with_fuel(first, 8);
}

proof fn lemma_unshield_answered(st: State, tx: Transaction, height: u64, r: Reply)
    requires
        tx is Unshield,
    ensures
        answered(st, tx, height, r),
{
    reveal_with_fuel(first, 8);
}

proof fn lemma_stake_answered(st: State, tx: Transaction, height: u64, r: Reply)
    requires
        tx is Stake,
    ensures
        answered(st, tx, height, r),
{
    reveal_with_fuel(first, 8);
    if let Transaction::Stake { validator, .. } = tx {
        law_due_at_release(bonded(st, validator@).unbonding, height);
    }
}

proof fn lemma_unstake_answered(st: State, tx: Transaction, height: u64, r: Reply)
    requires
        tx is Unstake,
    ensures
        answered(st, tx, height, r),
{
    reveal_with_fuel(first, 8);
}

proof fn lemma_slash_answered(st: State, tx: Transaction, height: u64, r: Reply)
    requires
        tx is SlashEvidence,
    ensures
        answered(st, tx, height, r),
{
    reveal_with_fuel(first, 8);
}

/// A transaction is refused for the first reason that holds against it, and applied
/// where none does.
pub proof fn law_refused_for_the_first_reason(st: State, tx: Transaction, height: u64, r: Reply)
    requires
        rules::covers(tx),
        !(tx is AnonTransfer),
    ensures
        answered(st, tx, height, r),
{
    match tx {
        Transaction::Register { .. } => {
            lemma_register_answered(st, tx, height, r);
        },
        Transaction::CreateToken { .. } => {
            lemma_create_answered(st, tx, height, r);
        },
        Transaction::SolventTransfer { .. } => {
            lemma_solvent_answered(st, tx, height, r);
        },
        Transaction::Rollover { .. } => {
            lemma_rollover_answered(st, tx, height, r);
        },
        Transaction::DeployContract { .. } => {
            lemma_deploy_answered(st, tx, height, r);
        },
        Transaction::CallContract { .. } => {
            lemma_call_answered(st, tx, height, r);
        },
        Transaction::PublicTransfer { .. } => {
            lemma_public_answered(st, tx, height, r);
        },
        Transaction::Shield { .. } => {
            lemma_shield_answered(st, tx, height, r);
        },
        Transaction::ShieldStealth { .. } => {
            lemma_stealth_answered(st, tx, height, r);
        },
        Transaction::Unshield { .. } => {
            lemma_unshield_answered(st, tx, height, r);
        },
        Transaction::Stake { .. } => {
            lemma_stake_answered(st, tx, height, r);
        },
        Transaction::Unstake { .. } => {
            lemma_unstake_answered(st, tx, height, r);
        },
        Transaction::SlashEvidence { .. } => {
            lemma_slash_answered(st, tx, height, r);
        },
        _ => {},
    }
}

/// An anonymous transfer is refused for another epoch than the block's, of which 20
/// blocks make one; then for a spent nullifier; then for lists of unlike length; then
/// for the first ring member that is unknown, repeated or of another balance; then for
/// its proof. Where none of this holds, it is applied.
pub proof fn law_anon_transfer_refused(
    st: State,
    token: u32,
    xfer: AnonTransfer,
    height: u64,
    r: Reply,
)
    ensures
        ({
            let res = rules::step(st, Transaction::AnonTransfer { token, xfer }, height, r);
            let (ring, claims) = (xfer.ring@, xfer.balances@);
            let whole = ring.len() == claims.len() && ring.len() == xfer.enc@.len();
            if !(20 * xfer.epoch <= height < 20 * xfer.epoch + 20) {
                res == Err::<State, LedgerError>(LedgerError::WrongEpoch)
            } else if st.nullifiers.contains(xfer.nullifier@) {
                res == Err::<State, LedgerError>(LedgerError::NullifierSeen)
            } else if !whole {
                res == Err::<State, LedgerError>(LedgerError::BadRing)
            } else if ring_fails(st, token, ring, claims) {
                res is Err && exists|i: int| #[trigger]
                    ring_fault(st, token, ring, claims, 0, i, res->Err_0)
            } else if !r.proven {
                res == Err::<State, LedgerError>(LedgerError::InvalidProof)
            } else {
                res is Ok
            }
        }),
{
    let (ring, claims) = (xfer.ring@, xfer.balances@);
    lemma_ring_good(st, token, ring, claims, 0);
    let res = rules::step(st, Transaction::AnonTransfer { token, xfer }, height, r);
    assert((xfer.epoch == height / 20) == (20 * xfer.epoch <= height < 20 * xfer.epoch + 20));
    if ring.len() == claims.len() && ring.len() == xfer.enc@.len() {
        match rules::ring_refused(st, token, ring, claims, 0) {
            None => {
                assert(!ring_fails(st, token, ring, claims));
            },
            Some(e) => {
                let i = choose|i: int| #[trigger] ring_fault(st, token, ring, claims, 0, i, e);
                assert(ring_bad(st, ring, i) || ring_stale(st, token, ring[i], claims[i]));
                assert(ring_fails(st, token, ring, claims));
                if xfer.epoch == height / 20 && !st.nullifiers.contains(xfer.nullifier@) {
                    assert(res == Err::<State, LedgerError>(e));
                    assert(ring_fault(st, token, ring, claims, 0, i, res->Err_0));
                }
            },
        }
    }
}

// --- what is asked of the cryptography layer -------------------------------------------

/// Who pays, signs: the signature that a transaction is checked for is by the account
/// that it spends from or speaks for, over the transaction's own body. Transfers that
/// carry a proof, and registrations, ask for none.
pub proof fn law_the_spender_signs(tx: Transaction)
    ensures
        match tx {
            Transaction::CreateToken { creator, sig, .. } => signed_by(tx, creator, sig),
            Transaction::Rollover { account, sig, .. } => signed_by(tx, account, sig),
            Transaction::DeployContract { deployer, sig, .. } => signed_by(tx, deployer, sig),
            Transaction::CallContract { caller, sig, .. } => signed_by(tx, caller, sig),
            Transaction::PublicTransfer { from, sig, .. } => signed_by(tx, from, sig),
            Transaction::Shield { from, sig, .. } => signed_by(tx, from, sig),
            Transaction::ShieldStealth { from, sig, .. } => signed_by(tx, from, sig),
            Transaction::Unshield { xfer, sig, .. } => signed_by(tx, xfer.sender, sig),
            Transaction::Stake { validator, sig, .. } => signed_by(tx, validator, sig),
            Transaction::Unstake { validator, sig, .. } => signed_by(tx, validator, sig),
            Transaction::Register { .. } => rules::checks(tx).len() == 0,
            Transaction::SolventTransfer { .. } => rules::checks(tx).len() == 0,
            Transaction::AnonTransfer { .. } => rules::checks(tx).len() == 0,
            _ => true,
        },
{
}

/// A solvency proof is held against the sender's present balance of the token that it
/// spends, whatever else is wrong with the transaction; there is none for a sender that is
/// not registered, and none for other transactions.
pub proof fn law_proofs_are_bound_to_the_balance(st: State, tx: Transaction)
    ensures
        rules::bound_balance(st, tx) == match tx {
            Transaction::SolventTransfer { token, xfer } => if st.accounts.contains_key(
                xfer.sender@,
            ) {
                Some(ct(st.accounts[xfer.sender@].balances, token, st.zero))
            } else {
                None
            },
            Transaction::Unshield { token, xfer, .. } => if st.accounts.contains_key(xfer.sender@) {
                Some(ct(st.accounts[xfer.sender@].balances, token, st.zero))
            } else {
                None
            },
            _ => None,
        },
{
}

/// Whether a transaction asks for one signature, by `key` over its body.
pub open spec fn signed_by(tx: Transaction, key: [u8; 32], sig: [u8; 64]) -> bool {
    rules::checks(tx) == seq![Check { key: key@, message: tx.body(), sig: sig@ }]
}

// --- from replies to the ledger --------------------------------------------------------

/// A reply is read as it is given, each answer in its place.
pub proof fn law_replies_are_read_as_given(r: CryptoReply)
    ensures
        r@.signatures == r.signatures,
        r@.proven == r.proven,
        r@.view_key == r.view_key,
        r@.reveals == r.reveals,
        r@.terms == r.terms@,
{
}

/// A ledger does what the rules say, neither more nor less: a transaction that is applied
/// leaves the state that the rules give, one that is refused is refused for what the rules
/// give, and the state stays.
pub proof fn law_ledger_follows_the_rules<B: KVStore>(
    was: Ledger<B>,
    now: Ledger<B>,
    tx: Transaction,
    height: u64,
    r: Reply,
    res: Result<(), LedgerError>,
)
    requires
        apply::applied(was, now, tx, height, r, res),
    ensures
        res is Ok ==> rules::step(was.state(), tx, height, r) == Ok::<State, LedgerError>(
            now.state(),
        ),
        res matches Err(e) ==> rules::step(was.state(), tx, height, r) == Err::<State, LedgerError>(
            e,
        ) && now.state() == was.state(),
{
}

/// Registering makes an account that holds nothing, once.
pub proof fn law_registration_effect<B: KVStore>(
    was: Ledger<B>,
    now: Ledger<B>,
    account: [u8; 32],
    res: Result<(), LedgerError>,
    id: Seq<u8>,
)
    requires
        apply::registered(was, now, account, res),
    ensures
        ({
            let (st, new) = (was.state(), now.state());
            &&& !st.accounts.contains_key(account@) ==> res is Ok
            &&& st.accounts.contains_key(account@) ==> res == Err::<(), LedgerError>(
                LedgerError::AlreadyRegistered,
            )
            &&& of(new, id) == of(st, id)
            &&& new.accounts.contains_key(id) == (st.accounts.contains_key(id) || id == account@)
            &&& accounts_alone(st, new)
        }),
{
    let (st, new) = (was.state(), now.state());
    match res {
        Ok(_) => {
            assert(new.accounts == st.accounts.insert(account@, AccountView::empty()));
        },
        Err(_) => {},
    }
}

/// Evidence is no more than a proof that was verified before: it stands for the proof of
/// its own kind of transaction, one that is bound to a balance only against just that
/// balance, and for no other answer.
pub proof fn law_evidence_stands_for_the_proof(
    pre: Option<ProofPass>,
    tx: Transaction,
    live: Option<[u8; 64]>,
    r: Reply,
    b: bool,
)
    ensures
        apply::settles(pre, tx, live) ==> match pre {
            Some(ProofPass::Anon) => tx is AnonTransfer,
            Some(ProofPass::AgainstBalance(x)) => (tx is SolventTransfer || tx is Unshield) && live
                == Some(x),
            None => false,
        },
        tx is AnonTransfer && pre == Some(ProofPass::Anon) ==> apply::settles(pre, tx, live),
        (tx is SolventTransfer || tx is Unshield) && live is Some && pre == Some(
            ProofPass::AgainstBalance(live->0),
        ) ==> apply::settles(pre, tx, live),
        apply::settled(r, b).proven == (r.proven || b),
        apply::settled(r, b).signatures == r.signatures,
        apply::settled(r, b).view_key == r.view_key,
        apply::settled(r, b).reveals == r.reveals,
        apply::settled(r, b).terms == r.terms,
{
}

} // verus!
