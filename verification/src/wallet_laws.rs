//! What a wallet's reading of a block has to do with what the ledger does with it, and
//! what holds of the ring that an anonymous sender draws.

use vstd::prelude::*;

use crate::effect_laws;
use crate::effect_laws::{amount_of, capped, ct, of};
use crate::rules;
use crate::rules::{LedgerError, Reply, State, Term};
use crate::transaction::Transaction;
use crate::wallet;
use crate::wallet::StealthReceipt;

verus! {

// --- what a block brings ---------------------------------------------------------------

/// What a scan reports of a block that holds one transaction.
pub open spec fn scan_of(me: Seq<u8>, tx: Transaction, opened: Option<u64>) -> Seq<(u32, u64)> {
    wallet::received(me, seq![tx], seq![opened], 1)
}

/// A payment is the receiver's: a transparent transfer, a shield and an unshield are
/// reported, with their token and amount, to the account they credit and to nobody
/// else; a confidential transfer to its receiver, with what the receiver's key
/// decrypts. No other transaction is reported.
pub proof fn law_scan_reports_to_the_receiver(me: Seq<u8>, tx: Transaction, opened: Option<u64>)
    ensures
        match tx {
            Transaction::PublicTransfer { token, to, amount, .. } => scan_of(me, tx, opened)
                == one_if(to@ == me, (token, amount)),
            Transaction::Shield { token, to, amount, .. } => scan_of(me, tx, opened) == one_if(
                to@ == me,
                (token, amount),
            ),
            Transaction::Unshield { token, to, amount, .. } => scan_of(me, tx, opened) == one_if(
                to@ == me,
                (token, amount),
            ),
            Transaction::SolventTransfer { token, xfer } => scan_of(me, tx, opened) == one_if(
                xfer.receiver@ == me && opened is Some,
                (token, opened->0),
            ),
            _ => scan_of(me, tx, opened).len() == 0,
        },
{
    reveal_with_fuel(wallet::received, 2);
    let s = scan_of(me, tx, opened);
    match wallet::receipt(me, tx, opened) {
        Some(x) => {
            assert(s =~= seq![x]);
        },
        None => {
            assert(s =~= Seq::empty());
        },
    }
}

/// One entry, or none.
pub open spec fn one_if(yes: bool, x: (u32, u64)) -> Seq<(u32, u64)> {
    if yes {
        seq![x]
    } else {
        Seq::empty()
    }
}

/// A scan goes through a block in order: what it reports of two runs of transactions is
/// what it reports of the first and then of the second.
pub proof fn law_scan_adds_up(
    me: Seq<u8>,
    a: Seq<Transaction>,
    x: Seq<Option<u64>>,
    b: Seq<Transaction>,
    y: Seq<Option<u64>>,
)
    requires
        a.len() == x.len(),
        b.len() == y.len(),
    ensures
        wallet::received(me, a + b, x + y, a.len() + b.len()) == wallet::received(me, a, x, a.len())
            + wallet::received(me, b, y, b.len()),
    decreases b.len(),
{
    let n = a.len();
    if b.len() == 0 {
        lemma_received_prefix(me, a, x, a + b, x + y, n);
        assert(wallet::received(me, a, x, n) + wallet::received(me, b, y, 0) =~= wallet::received(
            me,
            a,
            x,
            n,
        ));
    } else {
        let k = (b.len() - 1) as nat;
        let (c, z) = (b.drop_last(), y.drop_last());
        law_scan_adds_up(me, a, x, c, z);
        lemma_received_prefix(me, a + c, x + z, a + b, x + y, n + k);
        lemma_received_prefix(me, c, z, b, y, k);
        assert((a + b)[(n + b.len()) - 1] == b[b.len() - 1]);
        assert((x + y)[(n + b.len()) - 1] == y[b.len() - 1]);
        assert(wallet::received(me, a + b, x + y, n + b.len()) =~= wallet::received(me, a, x, n)
            + wallet::received(me, b, y, b.len()));
    }
}

proof fn lemma_received_prefix(
    me: Seq<u8>,
    a: Seq<Transaction>,
    x: Seq<Option<u64>>,
    b: Seq<Transaction>,
    y: Seq<Option<u64>>,
    n: nat,
)
    requires
        n <= a.len(),
        n <= x.len(),
        n <= b.len(),
        n <= y.len(),
        forall|i: int| 0 <= i < n ==> #[trigger] a[i] == b[i],
        forall|i: int| 0 <= i < n ==> #[trigger] x[i] == y[i],
    ensures
        wallet::received(me, a, x, n) == wallet::received(me, b, y, n),
    decreases n,
{
    if n > 0 {
        lemma_received_prefix(me, a, x, b, y, (n - 1) as nat);
        assert(a[n - 1] == b[n - 1]);
        assert(x[n - 1] == y[n - 1]);
    }
}

/// What is reported is what the ledger credits. Whoever does not spend in a transparent
/// transfer or an unshield has just the reported amount of the reported token more in
/// public, and nothing more where nothing is reported.
pub proof fn law_scan_matches_the_public_credit(
    st: State,
    tx: Transaction,
    height: u64,
    r: Reply,
    me: Seq<u8>,
    t: u32,
)
    requires
        tx is PublicTransfer || tx is Unshield,
        tx matches Transaction::PublicTransfer { from, nonce, .. } ==> from@ != me && nonce
            < u64::MAX,
        tx matches Transaction::Unshield { xfer, .. } ==> xfer.sender@ != me && xfer.nonce
            < u64::MAX,
        rules::step(st, tx, height, r) is Ok,
    ensures
        ({
            let now = rules::step(st, tx, height, r)->Ok_0;
            let had = amount_of(of(st, me).public, t);
            let has = amount_of(of(now, me).public, t);
            let seen = scan_of(me, tx, None);
            &&& seen.len() <= 1
            &&& has == if seen.len() == 1 && seen[0].0 == t {
                capped(had, seen[0].1 as int)
            } else {
                had
            }
        }),
{
    law_scan_reports_to_the_receiver(me, tx, None);
    match tx {
        Transaction::PublicTransfer { token, from, to, amount, fee, nonce, sig } => {
            effect_laws::law_public_transfer_effect(
                st,
                token,
                from,
                to,
                amount,
                fee,
                nonce,
                sig,
                height,
                r,
                me,
                t,
            );
        },
        Transaction::Unshield { token, to, amount, xfer, sig } => {
            effect_laws::law_unshield_effect(
                st,
                token,
                to,
                amount,
                xfer,
                sig,
                height,
                r,
                me,
                t,
            );
        },
        _ => {},
    }
}

/// Of a shield just the account is told whose pending balance the ledger sets: the
/// reported amount is the one that is minted on top of its pending balance of the
/// reported token.
pub proof fn law_scan_matches_the_shield(
    st: State,
    tx: Transaction,
    height: u64,
    r: Reply,
    me: Seq<u8>,
)
    requires
        tx matches Transaction::Shield { nonce, .. } && nonce < u64::MAX,
        rules::step(st, tx, height, r) is Ok,
    ensures
        ({
            let now = rules::step(st, tx, height, r)->Ok_0;
            let seen = scan_of(me, tx, None);
            &&& seen.len() <= 1
            &&& seen.len() == 0 ==> of(now, me).pending == of(st, me).pending
            &&& seen.len() == 1 ==> {
                &&& of(now, me).pending == of(st, me).pending.insert(seen[0].0, r.terms[0])
                &&& rules::terms(st, tx) == seq![
                    Term::Mint {
                        a: ct(of(st, me).pending, seen[0].0, st.zero),
                        amount: seen[0].1,
                    },
                ]
            }
        }),
{
    law_scan_reports_to_the_receiver(me, tx, None);
    if let Transaction::Shield { token, from, to, amount, fee, nonce, sig } = tx {
        effect_laws::law_shield_effect(
            st,
            token,
            from,
            to,
            amount,
            fee,
            nonce,
            sig,
            height,
            r,
            me,
            token,
        );
    }
}

/// Whether a receipt is of the transaction at its index: a stealth shield by what it
/// says, an anonymous transfer by its one-time account, its token, and what was
/// decrypted, zero where nothing was.
pub open spec fn is_receipt_of(x: StealthReceipt, tx: Transaction, opened: Option<u64>) -> bool {
    ||| tx matches Transaction::ShieldStealth { token, one_time, amount, .. } && x.token == token
        && x.one_time == one_time && x.amount == amount
    ||| tx matches Transaction::AnonTransfer { token, xfer } && x.token == token && x.one_time
        == xfer.one_time && x.amount == match opened {
        Some(a) => a,
        None => 0,
    }
}

/// A stealth scan finds just the wallet's own payments: each receipt is of the
/// transaction at its index, which is the wallet's; each stealth shield or anonymous
/// transfer that is the wallet's has one; and they come in the block's order.
pub proof fn law_stealth_scan_finds_its_own(
    txs: Seq<Transaction>,
    mine: Seq<bool>,
    opened: Seq<Option<u64>>,
    n: nat,
)
    requires
        n <= txs.len() <= usize::MAX,
        mine.len() == txs.len(),
        opened.len() == txs.len(),
    ensures
        ({
            let s = wallet::stealths(txs, mine, opened, n);
            &&& forall|k: int|
                0 <= k < s.len() ==> (#[trigger] s[k]).index < n && mine[s[k].index as int]
                    && is_receipt_of(s[k], txs[s[k].index as int], opened[s[k].index as int])
            &&& forall|i: int|
                0 <= i < n && #[trigger] mine[i] && (txs[i] is ShieldStealth
                    || txs[i] is AnonTransfer) ==> exists|k: int|
                    0 <= k < s.len() && (#[trigger] s[k]).index == i
            &&& forall|j: int, k: int|
                0 <= j < k < s.len() ==> (#[trigger] s[j]).index < (#[trigger] s[k]).index
        }),
    decreases n,
{
    if n > 0 {
        let m = (n - 1) as nat;
        law_stealth_scan_finds_its_own(txs, mine, opened, m);
        let p = wallet::stealths(txs, mine, opened, m);
        let s = wallet::stealths(txs, mine, opened, n);
        assert forall|k: int| 0 <= k < s.len() implies (#[trigger] s[k]).index < n
            && mine[s[k].index as int] && is_receipt_of(
            s[k],
            txs[s[k].index as int],
            opened[s[k].index as int],
        ) by {
            if k < p.len() {
                assert(s[k] == p[k]);
            }
        }
        assert forall|i: int|
            0 <= i < n && #[trigger] mine[i] && (txs[i] is ShieldStealth
                || txs[i] is AnonTransfer) implies exists|k: int|
            0 <= k < s.len() && (#[trigger] s[k]).index == i by {
            if i < m {
                let k = choose|k: int| 0 <= k < p.len() && (#[trigger] p[k]).index == i;
                assert(s[k].index == i);
            } else {
                assert(s[s.len() - 1].index == i);
            }
        }
        assert forall|j: int, k: int| 0 <= j < k < s.len() implies (#[trigger] s[j]).index < (
        #[trigger] s[k]).index by {
            assert(s[j] == p[j]);
            if k < p.len() {
                assert(s[k] == p[k]);
            }
        }
    }
}

/// A stealth receipt names the account and the token that the ledger credits: the
/// one-time account's pending balance of that token is what changes.
pub proof fn law_stealth_receipt_matches_the_credit(
    st: State,
    tx: Transaction,
    height: u64,
    r: Reply,
    opened: Option<u64>,
    x: StealthReceipt,
)
    requires
        is_receipt_of(x, tx, opened),
        tx matches Transaction::ShieldStealth { nonce, .. } ==> nonce < u64::MAX,
        rules::step(st, tx, height, r) is Ok,
    ensures
        ({
            let now = rules::step(st, tx, height, r)->Ok_0;
            let id = x.one_time@;
            let last = rules::terms(st, tx).len() - 1;
            &&& of(now, id).pending == of(st, id).pending.insert(x.token, r.terms[last])
            &&& tx is ShieldStealth ==> rules::terms(st, tx)[last] == (Term::Mint {
                a: ct(of(st, id).pending, x.token, st.zero),
                amount: x.amount,
            })
        }),
{
    match tx {
        Transaction::ShieldStealth {
            token,
            from,
            ephemeral,
            one_time,
            amount,
            fee,
            nonce,
            sig,
        } => {
            effect_laws::law_shield_stealth_effect(
                st,
                token,
                from,
                ephemeral,
                one_time,
                amount,
                fee,
                nonce,
                sig,
                height,
                r,
                x.one_time@,
                token,
            );
        },
        Transaction::AnonTransfer { token, xfer } => {
            effect_laws::law_anon_transfer_effect(st, token, xfer, height, r, x.one_time@);
        },
        _ => {},
    }
}

// --- what a wallet can afford -------------------------------------------------------------

/// What the wallet finds affordable, the ledger does: a signed transparent transfer
/// between registered accounts at the right nonce is applied just where the sender's
/// balance covers it, and refused for the balance otherwise.
pub proof fn law_affordable_is_applied(
    st: State,
    token: u32,
    from: [u8; 32],
    to: [u8; 32],
    amount: u64,
    fee: u64,
    sig: [u8; 64],
    height: u64,
    r: Reply,
    balance: u64,
)
    requires
        r.signatures,
        st.accounts.contains_key(from@),
        st.accounts.contains_key(to@),
        balance == amount_of(of(st, from@).public, token),
    ensures
        ({
            let nonce = of(st, from@).nonce;
            let tx = Transaction::PublicTransfer { token, from, to, amount, fee, nonce, sig };
            let res = rules::step(st, tx, height, r);
            &&& res is Ok == wallet::covers(balance, amount, fee)
            &&& res is Err ==> res == Err::<State, LedgerError>(
                LedgerError::InsufficientPublicBalance,
            )
        }),
        wallet::covers(balance, amount, fee) == (balance - fee >= amount),
{
}

// --- the ring ---------------------------------------------------------------------------------

/// A ring is as large as was wished, within two and the limit, as far as there are
/// others to hide among.
pub proof fn law_ring_size(
    candidates: Seq<([u8; 32], [u8; 64])>,
    me: ([u8; 32], [u8; 64]),
    ring_size: int,
    max_ring: int,
    draws: Seq<u64>,
)
    requires
        max_ring >= 2,
        wallet::distinct(candidates),
    ensures
        ({
            let ring = wallet::ring_of(candidates, me, ring_size, max_ring, draws);
            let pool = candidates.filter(|x: ([u8; 32], [u8; 64])| x.0@ != me.0@);
            &&& 2 <= ring_size <= max_ring && ring_size <= pool.len() + 1 ==> ring.len()
                == ring_size
            &&& ring_size > max_ring && max_ring <= pool.len() + 1 ==> ring.len() == max_ring
            &&& ring_size < 2 && pool.len() > 0 ==> ring.len() == 2
            &&& ring_size > pool.len() + 1 && max_ring > pool.len() + 1 && ring_size >= 2
                ==> ring.len() == pool.len() + 1
        }),
{
    wallet::law_ring_hides_among_others(candidates, me, ring_size, max_ring, draws);
}

/// Nobody is beyond a draw's reach: at each place every candidate that is not placed yet
/// can be drawn, and the sender can stand at every place.
pub proof fn law_draws_reach_everyone(i: int, j: int, n: int, at: int, take: int)
    requires
        0 <= i <= j < n <= u32::MAX,
        0 <= at <= take <= u32::MAX,
    ensures
        wallet::picked((j - i) as u64, i, n) == j,
        wallet::place_of(at as u64, take) == at,
{
    vstd::arithmetic::div_mod::lemma_small_mod((j - i) as nat, (n - i) as nat);
    vstd::arithmetic::div_mod::lemma_small_mod(at as nat, (take + 1) as nat);
}

/// Each place gets the candidate that its draw picks among those not placed yet, and
/// keeps it: the draws, and nothing else, say who hides the sender.
pub proof fn law_each_place_is_drawn(
    pool: Seq<([u8; 32], [u8; 64])>,
    draws: Seq<u64>,
    k: int,
    n: nat,
)
    requires
        0 <= k < n <= pool.len(),
    ensures
        ({
            let j = k + (draws[k] as usize) as int % (pool.len() - k);
            &&& k <= j < pool.len()
            &&& wallet::shuffled(pool, draws, n)[k] == wallet::shuffled(pool, draws, k as nat)[j]
            &&& wallet::shuffled(pool, draws, 0) == pool
            &&& wallet::shuffled(pool, draws, n).len() == pool.len()
        }),
    decreases n,
{
    lemma_shuffled_len(pool, draws, n);
    lemma_shuffled_len(pool, draws, k as nat);
    let d = (draws[k] as usize) as int;
    vstd::arithmetic::div_mod::lemma_mod_bound(d, pool.len() - k);
    let m = (n - 1) as nat;
    lemma_shuffled_len(pool, draws, m);
    let e = (draws[m as int] as usize) as int;
    vstd::arithmetic::div_mod::lemma_mod_bound(e, pool.len() - m);
    if k < m {
        law_each_place_is_drawn(pool, draws, k, m);
    }
}

proof fn lemma_shuffled_len(pool: Seq<([u8; 32], [u8; 64])>, draws: Seq<u64>, n: nat)
    requires
        n <= pool.len(),
    ensures
        wallet::shuffled(pool, draws, n).len() == pool.len(),
    decreases n,
{
    if n > 0 {
        lemma_shuffled_len(pool, draws, (n - 1) as nat);
        let d = (draws[n - 1] as usize) as int;
        vstd::arithmetic::div_mod::lemma_mod_bound(d, pool.len() - (n - 1));
    }
}

/// A ring is the drawn decoys in their order, with the sender put among them at the drawn
/// place.
pub proof fn law_ring_is_decoys_and_sender(
    candidates: Seq<([u8; 32], [u8; 64])>,
    me: ([u8; 32], [u8; 64]),
    ring_size: int,
    max_ring: int,
    draws: Seq<u64>,
    k: int,
)
    requires
        max_ring >= 2,
        wallet::distinct(candidates),
        0 <= k < wallet::ring_of(candidates, me, ring_size, max_ring, draws).len(),
    ensures
        ({
            let ring = wallet::ring_of(candidates, me, ring_size, max_ring, draws);
            let pool = candidates.filter(|x: ([u8; 32], [u8; 64])| x.0@ != me.0@);
            let n = ring.len() - 1;
            let at = (draws[n] as usize) as int % (n + 1);
            let drawn = wallet::shuffled(pool, draws, n as nat);
            &&& 0 <= at <= n
            &&& ring[at] == me
            &&& k < at ==> ring[k] == drawn[k]
            &&& k > at ==> ring[k] == drawn[k - 1]
        }),
{
    wallet::law_ring_hides_among_others(candidates, me, ring_size, max_ring, draws);
    let ring = wallet::ring_of(candidates, me, ring_size, max_ring, draws);
    let n = ring.len() - 1;
    let pool = wallet::others(candidates, me.0@);
    lemma_shuffled_len(pool, draws, n as nat);
    vstd::arithmetic::div_mod::lemma_mod_bound((draws[n] as usize) as int, n + 1);
}

} // verus!
