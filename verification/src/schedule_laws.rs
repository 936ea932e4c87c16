//! What holds of how a block's transactions are shared out.

use vstd::prelude::*;

use crate::apply;
use crate::effect_laws::{ct, of};
use crate::ledger::DirtyKey;
use crate::parallel;
use crate::rules::State;
use crate::transaction::Transaction;

verus! {

/// No transaction waits longer than it must: one in the first wave waits for nobody, and
/// any other has a conflict with an earlier one in the wave just before its own.
pub proof fn law_waves_are_early(sets: Seq<Option<Seq<[u8; 32]>>>, k: int)
    requires
        0 <= k < sets.len(),
    ensures
        parallel::wave_of(sets, k) >= 0,
        parallel::wave_of(sets, k) > 0 ==> exists|j: int|
            0 <= j < k && #[trigger] parallel::wave_of(sets, j) + 1 == parallel::wave_of(sets, k)
                && parallel::clash(sets[j], sets[k]),
{
    lemma_earliest_is_due(sets, k, k);
}

proof fn lemma_earliest_is_due(sets: Seq<Option<Seq<[u8; 32]>>>, k: int, n: int)
    requires
        0 <= k < sets.len(),
        0 <= n <= k,
    ensures
        parallel::earliest(sets, k, n) >= 0,
        parallel::earliest(sets, k, n) > 0 ==> exists|j: int|
            0 <= j < n && #[trigger] parallel::wave_of(sets, j) + 1 == parallel::earliest(
                sets,
                k,
                n,
            ) && parallel::clash(sets[j], sets[k]),
    decreases n,
{
    if n > 0 {
        lemma_earliest_is_due(sets, k, n - 1);
        let before = parallel::earliest(sets, k, n - 1);
        let now = parallel::earliest(sets, k, n);
        if now == before {
            if now > 0 {
                let j = choose|j: int|
                    0 <= j < n - 1 && #[trigger] parallel::wave_of(sets, j) + 1 == before
                        && parallel::clash(sets[j], sets[k]);
                assert(parallel::wave_of(sets, j) + 1 == now);
            }
        } else {
            assert(parallel::wave_of(sets, n - 1) + 1 == now);
        }
    }
}

/// Two transactions are in each other's way where they name an account in common, and
/// where it is not known what one of them touches.
pub proof fn law_what_clashes(a: Seq<[u8; 32]>, b: Seq<[u8; 32]>)
    ensures
        parallel::clash(None, Some(b)),
        parallel::clash(Some(a), None),
        parallel::clash(None, None),
        parallel::clash(Some(a), Some(b)) == !(forall|i: int, j: int|
            0 <= i < a.len() && 0 <= j < b.len() ==> (#[trigger] a[i])@ != (#[trigger] b[j])@),
{
}

/// A transaction of which it is known what it touches names every account that it may
/// change, and no other: so it is with a registration, a public transfer and a shield,
/// and with no other transaction.
pub proof fn law_lanes_name_what_they_change(st: State, tx: Transaction, id: Seq<u8>)
    ensures
        parallel::accesses(tx) is Some <==> tx is Register || tx is PublicTransfer || tx is Shield,
        parallel::accesses(tx) matches Some(a) ==> (changes(st, tx, id) <==> exists|i: int|
            0 <= i < a.len() && (#[trigger] a[i])@ == id),
{
    if let Some(a) = parallel::accesses(tx) {
        let t = apply::touched(st.next_token, tx);
        assert(t.len() == a.len());
        assert forall|i: int| 0 <= i < a.len() implies (#[trigger] t[i]) == DirtyKey::Account(
            a[i],
        ) by {}
        if changes(st, tx, id) {
            let k = choose|k: int|
                0 <= k < t.len() && ((#[trigger] t[k]) matches DirtyKey::Account(x) && x@ == id);
            assert(a[k]@ == id);
        }
        if exists|i: int| 0 <= i < a.len() && (#[trigger] a[i])@ == id {
            let i = choose|i: int| 0 <= i < a.len() && (#[trigger] a[i])@ == id;
            assert(t[i] matches DirtyKey::Account(x) && x@ == id);
        }
    }
}

/// Whether an earlier transaction than `i` may change the account `id`.
pub open spec fn changed_before(st: State, txs: Seq<Transaction>, i: int, id: Seq<u8>) -> bool {
    exists|j: int| 0 <= j < i && #[trigger] changes(st, txs[j], id)
}

/// Whether a transaction may change the account `id`.
pub open spec fn changes(st: State, tx: Transaction, id: Seq<u8>) -> bool {
    exists|k: int|
        0 <= k < apply::touched(st.next_token, tx).len() && ((#[trigger] apply::touched(
            st.next_token,
            tx,
        )[k]) matches DirtyKey::Account(a) && a@ == id)
}

proof fn lemma_written(st: State, txs: Seq<Transaction>, n: int, id: Seq<u8>)
    requires
        0 <= n <= txs.len(),
    ensures
        parallel::written_by(st, txs, n, id) == changed_before(st, txs, n, id),
    decreases n,
{
    if n > 0 {
        lemma_written(st, txs, n - 1, id);
        let t = apply::touched(st.next_token, txs[n - 1]);
        assert(changes(st, txs[n - 1], id) == exists|j: int|
            0 <= j < t.len() && parallel::names(#[trigger] t[j], id)) by {
            if changes(st, txs[n - 1], id) {
                let k = choose|k: int|
                    0 <= k < t.len() && ((#[trigger] t[k]) matches DirtyKey::Account(a) && a@
                        == id);
                assert(parallel::names(t[k], id));
            }
            if exists|j: int| 0 <= j < t.len() && parallel::names(#[trigger] t[j], id) {
                let j = choose|j: int| 0 <= j < t.len() && parallel::names(#[trigger] t[j], id);
                assert(t[j] matches DirtyKey::Account(a) && a@ == id);
            }
        }
        if changed_before(st, txs, n - 1, id) {
            let j = choose|j: int| 0 <= j < n - 1 && #[trigger] changes(st, txs[j], id);
            assert(changes(st, txs[j], id));
        }
    }
}

/// Whether a job is the right one for a transaction: an anonymous transfer's proof is
/// verified on its own, a solvency proof against the sender's balance of the token, and
/// only where no earlier transaction may change the sender.
pub open spec fn is_job(st: State, txs: Seq<Transaction>, job: (usize, Option<[u8; 64]>)) -> bool {
    let i = job.0 as int;
    match txs[i] {
        Transaction::AnonTransfer { .. } => job.1 is None,
        Transaction::SolventTransfer { token, xfer } => st.accounts.contains_key(xfer.sender@)
            && !changed_before(st, txs, i, xfer.sender@) && job.1 == Some(
            ct(of(st, xfer.sender@).balances, token, st.zero),
        ),
        Transaction::Unshield { token, xfer, .. } => st.accounts.contains_key(xfer.sender@)
            && !changed_before(st, txs, i, xfer.sender@) && job.1 == Some(
            ct(of(st, xfer.sender@).balances, token, st.zero),
        ),
        _ => false,
    }
}

/// Whether a transaction has a proof that can be verified ahead of its turn.
pub open spec fn has_job(st: State, txs: Seq<Transaction>, i: int) -> bool {
    match txs[i] {
        Transaction::AnonTransfer { .. } => true,
        Transaction::SolventTransfer { xfer, .. } => st.accounts.contains_key(xfer.sender@)
            && !changed_before(st, txs, i, xfer.sender@),
        Transaction::Unshield { xfer, .. } => st.accounts.contains_key(xfer.sender@)
            && !changed_before(st, txs, i, xfer.sender@),
        _ => false,
    }
}

/// Just the proofs that can be verified ahead are, each against what it must hold
/// against, and in the block's order.
pub proof fn law_jobs_are_the_proofs_ahead(st: State, txs: Seq<Transaction>, n: nat)
    requires
        n <= txs.len() <= usize::MAX,
    ensures
        ({
            let s = parallel::jobs(st, txs, n);
            &&& forall|k: int|
                0 <= k < s.len() ==> (#[trigger] s[k]).0 < n && is_job(st, txs, s[k])
            &&& forall|i: int|
                0 <= i < n && #[trigger] has_job(st, txs, i) ==> exists|k: int|
                    0 <= k < s.len() && (#[trigger] s[k]).0 == i
            &&& forall|j: int, k: int|
                0 <= j < k < s.len() ==> (#[trigger] s[j]).0 < (#[trigger] s[k]).0
        }),
    decreases n,
{
    if n > 0 {
        let m = (n - 1) as nat;
        law_jobs_are_the_proofs_ahead(st, txs, m);
        match txs[n - 1] {
            Transaction::SolventTransfer { xfer, .. } => {
                lemma_written(st, txs, n - 1, xfer.sender@);
            },
            Transaction::Unshield { xfer, .. } => {
                lemma_written(st, txs, n - 1, xfer.sender@);
            },
            _ => {},
        }
        let p = parallel::jobs(st, txs, m);
        let s = parallel::jobs(st, txs, n);
        assert forall|k: int| 0 <= k < s.len() implies (#[trigger] s[k]).0 < n && is_job(
            st,
            txs,
            s[k],
        ) by {
            if k < p.len() {
                assert(s[k] == p[k]);
            }
        }
        assert forall|i: int| 0 <= i < n && #[trigger] has_job(st, txs, i) implies exists|k: int|
            0 <= k < s.len() && (#[trigger] s[k]).0 == i by {
            if i < m {
                let k = choose|k: int| 0 <= k < p.len() && (#[trigger] p[k]).0 == i;
                assert(s[k].0 == i);
            } else {
                assert(s[s.len() - 1].0 == i);
            }
        }
        assert forall|j: int, k: int| 0 <= j < k < s.len() implies (#[trigger] s[j]).0 < (
        #[trigger] s[k]).0 by {
            assert(s[j] == p[j]);
            if k < p.len() {
                assert(s[k] == p[k]);
            }
        }
    }
}

} // verus!
