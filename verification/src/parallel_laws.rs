//! Why running a block stage by stage, each stage spread over copies of the
//! ledger, gives what running it in order gives.

use vstd::prelude::*;

use crate::parallel;
use crate::rules;
use crate::rules::{Reply, State, Term};
use crate::transaction::Transaction;

verus! {

/// A transaction at its turn, with the cryptography layer answering as `f` says
/// from the transaction, the balance its proof is held against and the
/// ciphertexts asked for: the new state, or `None` where it is refused.
pub open spec fn turn(
    st: State,
    tx: Transaction,
    height: u64,
    f: spec_fn(Transaction, Option<[u8; 64]>, Seq<Term>) -> Reply,
) -> Option<State> {
    match rules::step(st, tx, height, f(tx, rules::bound_balance(st, tx), rules::terms(st, tx))) {
        Ok(s) => Some(s),
        Err(_) => None,
    }
}

/// Transactions in order; `None` where one is refused.
pub open spec fn in_turn(
    st: State,
    txs: Seq<Transaction>,
    height: u64,
    f: spec_fn(Transaction, Option<[u8; 64]>, Seq<Term>) -> Reply,
) -> Option<State>
    decreases txs.len(),
{
    if txs.len() == 0 {
        Some(st)
    } else {
        match turn(st, txs[0], height, f) {
            Some(s) => in_turn(s, txs.skip(1), height, f),
            None => None,
        }
    }
}

/// Whether `id` is in the access set of `tx`.
pub open spec fn touches(tx: Transaction, id: Seq<u8>) -> bool {
    match parallel::accesses(tx) {
        Some(s) => exists|i: int| 0 <= i < s.len() && (#[trigger] s[i])@ == id,
        None => true,
    }
}

/// Whether two states say the same of account `id`.
pub open spec fn same_account(a: State, b: State, id: Seq<u8>) -> bool {
    a.registered(id) == b.registered(id) && a.account(id) == b.account(id)
}

/// A transaction of the transparent lane leaves everything but its accounts
/// alone, and what it does to those depends on them alone.
pub proof fn law_lane_is_local(
    a: State,
    b: State,
    tx: Transaction,
    height: u64,
    f: spec_fn(Transaction, Option<[u8; 64]>, Seq<Term>) -> Reply,
)
    requires
        parallel::accesses(tx) is Some,
        a.zero == b.zero,
        forall|id: Seq<u8>| touches(tx, id) ==> #[trigger] same_account(a, b, id),
    ensures
        turn(a, tx, height, f) is Some == turn(b, tx, height, f) is Some,
        turn(a, tx, height, f) is Some ==> {
            let x = turn(a, tx, height, f)->0;
            let y = turn(b, tx, height, f)->0;
            &&& x == (State { accounts: x.accounts, ..a })
            &&& forall|id: Seq<u8>| !touches(tx, id) ==> #[trigger] same_account(x, a, id)
            &&& forall|id: Seq<u8>| touches(tx, id) ==> #[trigger] same_account(x, y, id)
        },
{
    let s = parallel::accesses(tx)->0;
    assert forall|i: int| 0 <= i < s.len() implies same_account(a, b, (#[trigger] s[i])@) by {
        assert(touches(tx, s[i]@));
    }
    match tx {
        Transaction::Register { pubkey, .. } => {
            assert(s[0] == pubkey);
            assert(touches(tx, pubkey@));
        },
        Transaction::PublicTransfer { from, to, .. } => {
            assert(s[0] == from && s[1] == to);
            assert(touches(tx, from@) && touches(tx, to@));
        },
        Transaction::Shield { from, to, .. } => {
            assert(s[0] == from && s[1] == to);
            assert(touches(tx, from@) && touches(tx, to@));
            assert(rules::terms(a, tx) =~= rules::terms(b, tx));
        },
        _ => {},
    }
    assert(rules::terms(a, tx) == rules::terms(b, tx));
    if turn(a, tx, height, f) is Some {
        let x = turn(a, tx, height, f)->0;
        let y = turn(b, tx, height, f)->0;
        assert forall|id: Seq<u8>| touches(tx, id) implies #[trigger] same_account(x, y, id) by {
            let i = choose|i: int| 0 <= i < s.len() && (#[trigger] s[i])@ == id;
            assert(same_account(a, b, s[i]@));
        }
    }
}

/// Transactions of the transparent lane without a common account can change
/// places: both orders are refused, or both give the same state.
pub proof fn law_disjoint_commute(
    st: State,
    t: Transaction,
    u: Transaction,
    height: u64,
    f: spec_fn(Transaction, Option<[u8; 64]>, Seq<Term>) -> Reply,
)
    requires
        parallel::accesses(t) is Some,
        parallel::accesses(u) is Some,
        !parallel::conflict(parallel::accesses(t)->0, parallel::accesses(u)->0),
    ensures
        in_turn(st, seq![t, u], height, f) == in_turn(st, seq![u, t], height, f),
{
    let a = parallel::accesses(t)->0;
    let b = parallel::accesses(u)->0;
    assert forall|id: Seq<u8>| !(touches(t, id) && touches(u, id)) by {
        if touches(t, id) && touches(u, id) {
            let i = choose|i: int| 0 <= i < a.len() && (#[trigger] a[i])@ == id;
            let j = choose|j: int| 0 <= j < b.len() && (#[trigger] b[j])@ == id;
            assert(a[i]@ == b[j]@);
            assert(parallel::conflict(a, b));
        }
    }
    lemma_two(st, t, u, height, f);
    lemma_two(st, u, t, height, f);
    law_lane_is_local(st, st, t, height, f);
    law_lane_is_local(st, st, u, height, f);
    if turn(st, t, height, f) is Some {
        let s1 = turn(st, t, height, f)->0;
        assert forall|id: Seq<u8>| touches(u, id) implies #[trigger] same_account(st, s1, id) by {
            assert(same_account(s1, st, id));
        }
        law_lane_is_local(st, s1, u, height, f);
        law_lane_is_local(s1, st, u, height, f);
    }
    if turn(st, u, height, f) is Some {
        let s2 = turn(st, u, height, f)->0;
        assert forall|id: Seq<u8>| touches(t, id) implies #[trigger] same_account(st, s2, id) by {
            assert(same_account(s2, st, id));
        }
        law_lane_is_local(st, s2, t, height, f);
        law_lane_is_local(s2, st, t, height, f);
    }
    if turn(st, t, height, f) is Some && turn(st, u, height, f) is Some {
        let s1 = turn(st, t, height, f)->0;
        let s2 = turn(st, u, height, f)->0;
        let x = turn(s1, u, height, f)->0;
        let y = turn(s2, t, height, f)->0;
        assert forall|id: Seq<u8>| {
            &&& (#[trigger] x.accounts.dom().contains(id)) == y.accounts.dom().contains(id)
            &&& x.accounts.dom().contains(id) ==> x.accounts[id] == y.accounts[id]
        } by {
            if touches(u, id) {
                assert(same_account(s2, x, id));
                assert(same_account(y, s2, id));
            } else if touches(t, id) {
                assert(same_account(s1, y, id));
                assert(same_account(x, s1, id));
            } else {
                assert(same_account(x, s1, id));
                assert(same_account(s1, st, id));
                assert(same_account(y, s2, id));
                assert(same_account(s2, st, id));
            }
        }
        assert(x.accounts =~= y.accounts);
        assert(x =~= y);
    }
}

proof fn lemma_two(
    st: State,
    t: Transaction,
    u: Transaction,
    height: u64,
    f: spec_fn(Transaction, Option<[u8; 64]>, Seq<Term>) -> Reply,
)
    ensures
        in_turn(st, seq![t, u], height, f) == match turn(st, t, height, f) {
            Some(s) => turn(s, u, height, f),
            None => None,
        },
{
    let both = seq![t, u];
    assert(both.skip(1) =~= seq![u]);
    assert(seq![u].skip(1) =~= Seq::<Transaction>::empty());
    if let Some(s) = turn(st, t, height, f) {
        assert(in_turn(s, seq![u], height, f) == match turn(s, u, height, f) {
            Some(x) => in_turn(x, seq![u].skip(1), height, f),
            None => None,
        });
    }
}

/// A transaction moves to the front past those it shares no account with.
proof fn lemma_move_front(
    st: State,
    a: Seq<Transaction>,
    x: Transaction,
    b: Seq<Transaction>,
    height: u64,
    f: spec_fn(Transaction, Option<[u8; 64]>, Seq<Term>) -> Reply,
)
    requires
        forall|i: int| 0 <= i < a.len()
            ==> !parallel::clash(parallel::accesses(#[trigger] a[i]), parallel::accesses(x)),
    ensures
        in_turn(st, a + (seq![x] + b), height, f) == in_turn(st, seq![x] + (a + b), height, f),
    decreases a.len(),
{
    if a.len() == 0 {
        assert(a + (seq![x] + b) =~= seq![x] + (a + b));
    } else {
        let h = a[0];
        let rest = a.skip(1);
        let left = a + (seq![x] + b);
        assert(left.skip(1) =~= rest + (seq![x] + b));
        assert(left[0] == h);
        assert forall|i: int| 0 <= i < rest.len() implies !parallel::clash(
            parallel::accesses(#[trigger] rest[i]),
            parallel::accesses(x),
        ) by {
            assert(rest[i] == a[i + 1]);
        }
        // h, then x and the rest, by moving x past the rest.
        let tail = rest + b;
        if let Some(s) = turn(st, h, height, f) {
            lemma_move_front(s, rest, x, b, height, f);
        }
        // Swap h and x.
        law_disjoint_commute(st, h, x, height, f);
        lemma_two(st, h, x, height, f);
        lemma_two(st, x, h, height, f);
        let right = seq![x] + (a + b);
        assert(right[0] == x);
        assert(right.skip(1) =~= a + b);
        assert((a + b)[0] == h);
        assert((a + b).skip(1) =~= tail);
        let mid = seq![x] + tail;
        assert(mid[0] == x);
        assert(mid.skip(1) =~= tail);
        assert(in_turn(st, left, height, f) == match turn(st, h, height, f) {
            Some(s) => in_turn(s, mid, height, f),
            None => None,
        });
        if let Some(s) = turn(st, h, height, f) {
            assert(in_turn(s, mid, height, f) == match turn(s, x, height, f) {
                Some(t) => in_turn(t, tail, height, f),
                None => None,
            });
        }
        if let Some(s) = turn(st, x, height, f) {
            assert(in_turn(s, a + b, height, f) == match turn(s, h, height, f) {
                Some(t) => in_turn(t, tail, height, f),
                None => None,
            });
        }
    }
}

/// Whether `order` lists the numbers below `n`, each once.
pub open spec fn lists_all(order: Seq<int>, n: int) -> bool {
    &&& forall|i: int, j: int|
        0 <= i < j < order.len() ==> (#[trigger] order[i]) != (#[trigger] order[j])
    &&& forall|k: int| #[trigger] order.contains(k) == (0 <= k < n)
}

/// The transactions of a block in another order.
pub open spec fn arranged(txs: Seq<Transaction>, order: Seq<int>) -> Seq<Transaction> {
    order.map_values(|k: int| txs[k])
}

/// Whether two arrangements list the same numbers, each once.
spec fn same_numbers(p: Seq<int>, q: Seq<int>) -> bool {
    &&& forall|i: int, j: int| 0 <= i < j < p.len() ==> (#[trigger] p[i]) != (#[trigger] p[j])
    &&& forall|i: int, j: int| 0 <= i < j < q.len() ==> (#[trigger] q[i]) != (#[trigger] q[j])
    &&& forall|k: int| #[trigger] p.contains(k) == q.contains(k)
}

/// Whether `p` has every pair of clashing transactions in the order of `q`.
spec fn keeps_conflicts(txs: Seq<Transaction>, p: Seq<int>, q: Seq<int>) -> bool {
    forall|i: int, j: int, x: int, y: int|
        #![trigger p[i], p[j], q[x], q[y]]
        0 <= i < j < p.len() && 0 <= x < q.len() && 0 <= y < q.len() && p[i] == q[x] && p[j] == q[y]
            && parallel::clash(parallel::accesses(txs[p[i]]), parallel::accesses(txs[p[j]]))
                ==> x < y
}

proof fn lemma_reorder(
    st: State,
    txs: Seq<Transaction>,
    p: Seq<int>,
    q: Seq<int>,
    height: u64,
    f: spec_fn(Transaction, Option<[u8; 64]>, Seq<Term>) -> Reply,
)
    requires
        same_numbers(p, q),
        forall|k: int| p.contains(k) ==> 0 <= k < txs.len(),
        keeps_conflicts(txs, p, q),
    ensures
        in_turn(st, arranged(txs, p), height, f) == in_turn(st, arranged(txs, q), height, f),
    decreases p.len(),
{
    if q.len() == 0 {
        if p.len() > 0 {
            assert(p.contains(p[0]));
            assert(q.contains(p[0]));
        }
        assert(arranged(txs, p) =~= arranged(txs, q));
    } else {
        let x = q[0];
        assert(q.contains(q[0]));
        assert(p.contains(x));
        let n = choose|n: int| 0 <= n < p.len() && p[n] == x;
        let a = p.take(n);
        let b = p.skip(n + 1);
        let rest = a + b;
        let tail = q.skip(1);
        let ta = arranged(txs, a);
        let tb = arranged(txs, b);
        assert(0 <= x < txs.len());
        assert(arranged(txs, p) =~= ta + (seq![txs[x]] + tb));
        assert forall|i: int| 0 <= i < ta.len() implies !parallel::clash(
            parallel::accesses(#[trigger] ta[i]),
            parallel::accesses(txs[x]),
        ) by {
            let k = p[i];
            assert(p.contains(k));
            assert(ta[i] == txs[k]);
            if parallel::clash(parallel::accesses(txs[k]), parallel::accesses(txs[x])) {
                assert(q.contains(k));
                let m = choose|m: int| 0 <= m < q.len() && q[m] == k;
                assert(p[i] == q[m] && p[n] == q[0]);
                assert(m < 0);
            }
        }
        lemma_move_front(st, ta, txs[x], tb, height, f);
        assert(arranged(txs, rest) =~= ta + tb);
        let front = seq![txs[x]] + (ta + tb);
        assert(front[0] == txs[x]);
        assert(front.skip(1) =~= ta + tb);
        let other = arranged(txs, q);
        assert(other[0] == txs[x]);
        assert(other.skip(1) =~= arranged(txs, tail));
        lemma_without(p, q, n);
        lemma_keeps(txs, p, q, n);
        if let Some(s) = turn(st, txs[x], height, f) {
            lemma_reorder(s, txs, rest, tail, height, f);
        }
    }
}

/// An index into the arrangement without position `n`, in the full one.
spec fn back(n: int, i: int) -> int {
    if i < n {
        i
    } else {
        i + 1
    }
}

proof fn lemma_without(p: Seq<int>, q: Seq<int>, n: int)
    requires
        same_numbers(p, q),
        q.len() > 0,
        0 <= n < p.len(),
        p[n] == q[0],
    ensures
        ({
            let rest = p.take(n) + p.skip(n + 1);
            let tail = q.skip(1);
            &&& same_numbers(rest, tail)
            &&& forall|i: int| 0 <= i < rest.len() ==> #[trigger] rest[i] == p[back(n, i)]
            &&& forall|k: int| rest.contains(k) ==> p.contains(k)
            &&& rest.len() == p.len() - 1
        }),
{
    let rest = p.take(n) + p.skip(n + 1);
    let tail = q.skip(1);
    assert forall|i: int| 0 <= i < rest.len() implies #[trigger] rest[i] == p[back(n, i)] by {}
    assert forall|i: int, j: int| 0 <= i < j < rest.len() implies (#[trigger] rest[i]) != (
    #[trigger] rest[j]) by {
        assert(p[back(n, i)] != p[back(n, j)]);
    }
    assert forall|i: int, j: int| 0 <= i < j < tail.len() implies (#[trigger] tail[i]) != (
    #[trigger] tail[j]) by {
        assert(q[i + 1] != q[j + 1]);
    }
    assert forall|k: int| #[trigger] rest.contains(k) == tail.contains(k) by {
        if rest.contains(k) {
            let i = choose|i: int| 0 <= i < rest.len() && rest[i] == k;
            let m = back(n, i);
            assert(p[m] == k);
            assert(p.contains(k));
            assert(q.contains(k));
            let y = choose|y: int| 0 <= y < q.len() && q[y] == k;
            if y == 0 {
                assert(p[m] == p[n]);
                if m < n {
                    assert(p[m] != p[n]);
                } else {
                    assert(p[n] != p[m]);
                }
            }
            assert(tail[y - 1] == k);
        }
        if tail.contains(k) {
            let y = choose|y: int| 0 <= y < tail.len() && tail[y] == k;
            assert(q[y + 1] == k);
            assert(q.contains(k));
            assert(p.contains(k));
            let m = choose|m: int| 0 <= m < p.len() && p[m] == k;
            if m == n {
                assert(q[0] == q[y + 1]);
                assert(q[0] != q[y + 1]);
            }
            if m < n {
                assert(rest[m] == k);
            } else {
                assert(rest[m - 1] == k);
            }
        }
    }
    assert forall|k: int| rest.contains(k) implies p.contains(k) by {
        let i = choose|i: int| 0 <= i < rest.len() && rest[i] == k;
        assert(p[back(n, i)] == k);
    }
}

proof fn lemma_keeps(txs: Seq<Transaction>, p: Seq<int>, q: Seq<int>, n: int)
    requires
        keeps_conflicts(txs, p, q),
        q.len() > 0,
        0 <= n < p.len(),
    ensures
        keeps_conflicts(txs, p.take(n) + p.skip(n + 1), q.skip(1)),
{
    let rest = p.take(n) + p.skip(n + 1);
    let tail = q.skip(1);
    assert forall|i: int, j: int, x: int, y: int|
        #![trigger rest[i], rest[j], tail[x], tail[y]]
        0 <= i < j < rest.len() && 0 <= x < tail.len() && 0 <= y < tail.len() && rest[i] == tail[x]
            && rest[j] == tail[y] && parallel::clash(
            parallel::accesses(txs[rest[i]]),
            parallel::accesses(txs[rest[j]]),
        ) implies x < y by {
        assert(rest[i] == p[back(n, i)]);
        assert(rest[j] == p[back(n, j)]);
        assert(tail[x] == q[x + 1]);
        assert(tail[y] == q[y + 1]);
    }
}

/// Whether `order` goes through the stages of a block one after the other.
pub open spec fn stage_order(txs: Seq<Transaction>, order: Seq<int>) -> bool {
    &&& lists_all(order, txs.len() as int)
    &&& forall|i: int, j: int|
        0 <= i < j < order.len() ==> parallel::wave_of(
            parallel::block_sets(txs),
            #[trigger] order[i],
        ) <= parallel::wave_of(parallel::block_sets(txs), #[trigger] order[j])
}

/// A block comes out the same stage by stage as in block order, whatever the
/// order within a stage: it is refused in one just if it is in the other, and
/// the state that comes out is the same.
pub proof fn law_stages_match_block_order(
    st: State,
    txs: Seq<Transaction>,
    order: Seq<int>,
    height: u64,
    f: spec_fn(Transaction, Option<[u8; 64]>, Seq<Term>) -> Reply,
)
    requires
        stage_order(txs, order),
    ensures
        in_turn(st, arranged(txs, order), height, f) == in_turn(st, txs, height, f),
{
    let n = txs.len() as int;
    let block = Seq::new(txs.len(), |i: int| i);
    let sets = parallel::block_sets(txs);
    assert(arranged(txs, block) =~= txs);
    assert forall|k: int| #[trigger] block.contains(k) == order.contains(k) by {
        if 0 <= k < n {
            assert(block[k] == k);
        }
    }
    assert forall|i: int, j: int, x: int, y: int|
        #![trigger block[i], block[j], order[x], order[y]]
        0 <= i < j < block.len() && 0 <= x < order.len() && 0 <= y < order.len() && block[i]
            == order[x] && block[j] == order[y] && parallel::clash(
            parallel::accesses(txs[block[i]]),
            parallel::accesses(txs[block[j]]),
        ) implies x < y by {
        assert(sets[i] == parallel::accesses(txs[i]));
        assert(sets[j] == parallel::accesses(txs[j]));
        parallel::law_conflicts_keep_order(sets, i, j);
        if y < x {
            assert(parallel::wave_of(sets, order[y]) <= parallel::wave_of(sets, order[x]));
        } else if x == y {
            assert(i == j);
        }
    }
    lemma_reorder(st, txs, block, order, height, f);
}

/// Whether some transaction among `txs` touches the account `id`.
pub open spec fn touched_by(txs: Seq<Transaction>, id: Seq<u8>) -> bool {
    exists|i: int| 0 <= i < txs.len() && touches(#[trigger] txs[i], id)
}

/// Whether every transaction is of the transparent lane.
pub open spec fn all_lane(txs: Seq<Transaction>) -> bool {
    forall|i: int| 0 <= i < txs.len() ==> parallel::accesses(#[trigger] txs[i]) is Some
}

/// `s` with the records that `t` has of the accounts `txs` touches.
pub open spec fn merged(s: State, t: State, txs: Seq<Transaction>) -> State {
    State {
        accounts: Map::new(
            |id: Seq<u8>|
                s.accounts.contains_key(id) || (touched_by(txs, id) && t.accounts.contains_key(id)),
            |id: Seq<u8>|
                if touched_by(txs, id) && t.accounts.contains_key(id) {
                    t.accounts[id]
                } else {
                    s.accounts[id]
                },
        ),
        ..s
    }
}

/// What holds of one transaction of the lane holds of several in a row.
proof fn lemma_lane_run_is_local(
    a: State,
    b: State,
    txs: Seq<Transaction>,
    height: u64,
    f: spec_fn(Transaction, Option<[u8; 64]>, Seq<Term>) -> Reply,
)
    requires
        all_lane(txs),
        a.zero == b.zero,
        forall|id: Seq<u8>| touched_by(txs, id) ==> #[trigger] same_account(a, b, id),
    ensures
        in_turn(a, txs, height, f) is Some == in_turn(b, txs, height, f) is Some,
        in_turn(a, txs, height, f) is Some ==> {
            let x = in_turn(a, txs, height, f)->0;
            let y = in_turn(b, txs, height, f)->0;
            &&& x == (State { accounts: x.accounts, ..a })
            &&& forall|id: Seq<u8>| !touched_by(txs, id) ==> #[trigger] same_account(x, a, id)
            &&& forall|id: Seq<u8>| touched_by(txs, id) ==> #[trigger] same_account(x, y, id)
            &&& forall|id: Seq<u8>| a.registered(id) ==> #[trigger] x.registered(id)
        },
    decreases txs.len(),
{
    if txs.len() > 0 {
        let t = txs[0];
        let rest = txs.skip(1);
        assert forall|id: Seq<u8>| touches(t, id) implies #[trigger] same_account(a, b, id) by {
            assert(touched_by(txs, id));
        }
        law_lane_is_local(a, b, t, height, f);
        assert forall|id: Seq<u8>| touches(t, id) implies #[trigger] same_account(b, a, id) by {
            assert(same_account(a, b, id));
        }
        law_lane_is_local(b, a, t, height, f);
        assert forall|i: int| 0 <= i < rest.len()
            implies parallel::accesses(#[trigger] rest[i]) is Some by {
            assert(rest[i] == txs[i + 1]);
        }
        if turn(a, t, height, f) is Some {
            let p = turn(a, t, height, f)->0;
            let q = turn(b, t, height, f)->0;
            assert forall|id: Seq<u8>| touched_by(rest, id) implies #[trigger] same_account(
                p,
                q,
                id,
            ) by {
                let i = choose|i: int| 0 <= i < rest.len() && touches(#[trigger] rest[i], id);
                assert(touches(txs[i + 1], id));
                assert(touched_by(txs, id));
                assert(same_account(a, b, id));
                if !touches(t, id) {
                    assert(same_account(p, a, id));
                    assert(same_account(q, b, id));
                }
            }
            lemma_lane_run_is_local(p, q, rest, height, f);
            if in_turn(p, rest, height, f) is Some {
                let x = in_turn(p, rest, height, f)->0;
                let y = in_turn(q, rest, height, f)->0;
                assert forall|id: Seq<u8>| touched_by(rest, id) implies #[trigger] same_account(
                    q,
                    p,
                    id,
                ) by {
                    assert(same_account(p, q, id));
                }
                lemma_lane_run_is_local(q, p, rest, height, f);
                assert forall|id: Seq<u8>| !touched_by(txs, id) implies #[trigger] same_account(
                    x,
                    a,
                    id,
                ) by {
                    assert(!touches(t, id)) by {
                        if touches(t, id) {
                            assert(touches(txs[0], id));
                        }
                    }
                    assert(!touched_by(rest, id)) by {
                        if touched_by(rest, id) {
                            let i = choose|i: int|
                                0 <= i < rest.len() && touches(#[trigger] rest[i], id);
                            assert(touches(txs[i + 1], id));
                        }
                    }
                    assert(same_account(x, p, id));
                    assert(same_account(p, a, id));
                }
                assert forall|id: Seq<u8>| touched_by(txs, id) implies #[trigger] same_account(
                    x,
                    y,
                    id,
                ) by {
                    assert(same_account(a, b, id));
                    if !touched_by(rest, id) {
                        assert(same_account(x, p, id));
                        assert(same_account(y, q, id));
                        if !touches(t, id) {
                            assert(same_account(p, a, id));
                            assert(same_account(q, b, id));
                        } else {
                            assert(same_account(p, q, id));
                        }
                    }
                }
                assert forall|id: Seq<u8>| a.registered(id) implies #[trigger] x.registered(id) by {
                    lemma_stays_registered(a, t, height, f, id);
                    assert(p.registered(id));
                }
            }
        }
    }
}

proof fn lemma_stays_registered(
    a: State,
    t: Transaction,
    height: u64,
    f: spec_fn(Transaction, Option<[u8; 64]>, Seq<Term>) -> Reply,
    id: Seq<u8>,
)
    requires
        parallel::accesses(t) is Some,
        turn(a, t, height, f) is Some,
        a.registered(id),
    ensures
        (turn(a, t, height, f)->0).registered(id),
{
}

proof fn lemma_concat(
    st: State,
    a: Seq<Transaction>,
    b: Seq<Transaction>,
    height: u64,
    f: spec_fn(Transaction, Option<[u8; 64]>, Seq<Term>) -> Reply,
)
    ensures
        in_turn(st, a + b, height, f) == match in_turn(st, a, height, f) {
            Some(s) => in_turn(s, b, height, f),
            None => None,
        },
    decreases a.len(),
{
    if a.len() == 0 {
        assert(a + b =~= b);
    } else {
        assert((a + b).skip(1) =~= a.skip(1) + b);
        if let Some(s) = turn(st, a[0], height, f) {
            lemma_concat(s, a.skip(1), b, height, f);
        }
    }
}

/// Two chunks of the transparent lane without a common account, each run on a
/// copy of the ledger, are both accepted just if they are in a row, and the
/// first copy with the second one's records is the state that comes out.
pub proof fn law_chunks_merge(
    st: State,
    a: Seq<Transaction>,
    b: Seq<Transaction>,
    height: u64,
    f: spec_fn(Transaction, Option<[u8; 64]>, Seq<Term>) -> Reply,
)
    requires
        all_lane(a),
        all_lane(b),
        forall|id: Seq<u8>| !(#[trigger] touched_by(a, id) && touched_by(b, id)),
    ensures
        in_turn(st, a + b, height, f) == match (
            in_turn(st, a, height, f),
            in_turn(st, b, height, f),
        ) {
            (Some(s), Some(t)) => Some(merged(s, t, b)),
            _ => None,
        },
{
    lemma_concat(st, a, b, height, f);
    lemma_lane_run_is_local(st, st, a, height, f);
    lemma_lane_run_is_local(st, st, b, height, f);
    if let Some(s) = in_turn(st, a, height, f) {
        assert forall|id: Seq<u8>| touched_by(b, id) implies #[trigger] same_account(s, st, id) by {
            assert(!touched_by(a, id));
        }
        lemma_lane_run_is_local(s, st, b, height, f);
        if let Some(x) = in_turn(s, b, height, f) {
            let t = in_turn(st, b, height, f)->0;
            let m = merged(s, t, b);
            assert forall|id: Seq<u8>| {
                &&& (#[trigger] x.accounts.dom().contains(id)) == m.accounts.dom().contains(id)
                &&& x.accounts.dom().contains(id) ==> x.accounts[id] == m.accounts[id]
            } by {
                if touched_by(b, id) {
                    assert(same_account(x, t, id));
                    assert(same_account(s, st, id));
                    if s.registered(id) {
                        assert(t.registered(id));
                    }
                } else {
                    assert(same_account(x, s, id));
                }
            }
            assert(x.accounts =~= m.accounts);
        }
    }
}

// --- a whole block -----------------------------------------------------------------------

/// The first `n` of `txs`, or all where there are no more.
pub open spec fn first_chunk(txs: Seq<Transaction>, n: nat) -> Seq<Transaction> {
    if n < txs.len() {
        txs.take(n as int)
    } else {
        txs
    }
}

/// A stage spread over copies of the ledger `base`: each chunk of `n` transactions is run on
/// a copy of its own, and the records of its accounts are taken over into `s`, one chunk
/// after the other. `None` where a transaction is refused.
pub open spec fn spread(
    base: State,
    s: State,
    stage: Seq<Transaction>,
    n: nat,
    height: u64,
    f: spec_fn(Transaction, Option<[u8; 64]>, Seq<Term>) -> Reply,
) -> Option<State>
    decreases stage.len(),
{
    if stage.len() == 0 || n == 0 {
        Some(s)
    } else {
        let c = first_chunk(stage, n);
        match in_turn(base, c, height, f) {
            None => None,
            Some(t) => spread(
                base,
                merged(s, t, c),
                stage.skip(c.len() as int),
                n,
                height,
                f,
            ),
        }
    }
}

/// A stage with chunks of `n`: in place where there is one chunk, spread where there are
/// more.
pub open spec fn stage_run(
    st: State,
    stage: Seq<Transaction>,
    n: nat,
    height: u64,
    f: spec_fn(Transaction, Option<[u8; 64]>, Seq<Term>) -> Reply,
) -> Option<State> {
    if n >= stage.len() {
        in_turn(st, stage, height, f)
    } else {
        spread(st, st, stage, n, height, f)
    }
}

/// A stage by its transactions.
pub open spec fn stage_txs(txs: Seq<Transaction>, stage: Seq<usize>) -> Seq<Transaction> {
    stage.map_values(|k: usize| txs[k as int])
}

/// The first `w` stages of a block, one after the other, with chunks as `cuts` says.
pub open spec fn staged_run(
    st: State,
    txs: Seq<Transaction>,
    stages: Seq<Seq<usize>>,
    cuts: Seq<nat>,
    w: nat,
    height: u64,
    f: spec_fn(Transaction, Option<[u8; 64]>, Seq<Term>) -> Reply,
) -> Option<State>
    decreases w,
{
    if w == 0 {
        Some(st)
    } else {
        match staged_run(st, txs, stages, cuts, (w - 1) as nat, height, f) {
            None => None,
            Some(s) => stage_run(s, stage_txs(txs, stages[w - 1]), cuts[w - 1], height, f),
        }
    }
}

/// Whether no two transactions touch a common account.
spec fn apart(txs: Seq<Transaction>) -> bool {
    forall|i: int, j: int, id: Seq<u8>|
        0 <= i < j < txs.len() ==> !(#[trigger] touches(txs[i], id) && #[trigger] touches(
            txs[j],
            id,
        ))
}

/// A stage spread over copies comes to what it comes to in a row.
proof fn lemma_spread(
    base: State,
    done: Seq<Transaction>,
    stage: Seq<Transaction>,
    n: nat,
    height: u64,
    f: spec_fn(Transaction, Option<[u8; 64]>, Seq<Term>) -> Reply,
)
    requires
        n > 0,
        all_lane(done + stage),
        apart(done + stage),
        in_turn(base, done, height, f) is Some,
    ensures
        spread(base, in_turn(base, done, height, f)->0, stage, n, height, f) == in_turn(
            in_turn(base, done, height, f)->0,
            stage,
            height,
            f,
        ),
    decreases stage.len(),
{
    let s = in_turn(base, done, height, f)->0;
    if stage.len() > 0 {
        let all = done + stage;
        let c = first_chunk(stage, n);
        let rest = stage.skip(c.len() as int);
        assert(stage =~= c + rest);
        assert forall|i: int| 0 <= i < done.len() implies parallel::accesses(
            #[trigger] done[i],
        ) is Some by {
            assert(all[i] == done[i]);
        }
        assert forall|i: int| 0 <= i < c.len() implies parallel::accesses(
            #[trigger] c[i],
        ) is Some by {
            assert(all[done.len() + i] == c[i]);
        }
        assert forall|id: Seq<u8>| !(#[trigger] touched_by(done, id) && touched_by(c, id)) by {
            if touched_by(done, id) && touched_by(c, id) {
                let i = choose|i: int| 0 <= i < done.len() && touches(#[trigger] done[i], id);
                let j = choose|j: int| 0 <= j < c.len() && touches(#[trigger] c[j], id);
                assert(all[i] == done[i]);
                assert(all[done.len() + j] == c[j]);
                assert(touches(all[i], id) && touches(all[done.len() + j], id));
            }
        }
        law_chunks_merge(base, done, c, height, f);
        lemma_concat(base, done, c, height, f);
        lemma_concat(s, c, rest, height, f);
        if in_turn(base, c, height, f) is Some {
            assert((done + c) + rest =~= all);
            lemma_spread(base, done + c, rest, n, height, f);
        }
    }
}

/// The numbers of the first `w` stages, one stage after the other.
spec fn order_of(stages: Seq<Seq<usize>>, w: nat) -> Seq<int>
    decreases w,
{
    if w == 0 {
        Seq::empty()
    } else {
        order_of(stages, (w - 1) as nat) + stages[w - 1].map_values(|k: usize| k as int)
    }
}

proof fn lemma_order(txs: Seq<Transaction>, stages: Seq<Seq<usize>>, w: nat)
    requires
        txs.len() <= usize::MAX,
        parallel::scheduled(stages, parallel::block_sets(txs), txs.len() as int),
        w <= stages.len(),
    ensures
        ({
            let order = order_of(stages, w);
            let sets = parallel::block_sets(txs);
            &&& forall|i: int|
                0 <= i < order.len() ==> 0 <= #[trigger] order[i] < txs.len()
                    && parallel::wave_of(sets, order[i]) < w
            &&& forall|i: int, j: int|
                0 <= i < j < order.len() ==> (#[trigger] order[i]) != (#[trigger] order[j])
                    && parallel::wave_of(sets, order[i]) <= parallel::wave_of(sets, order[j])
            &&& forall|k: int|
                0 <= k < txs.len() && parallel::wave_of(sets, k) < w ==> #[trigger] order.contains(
                    k,
                )
        }),
    decreases w,
{
    let sets = parallel::block_sets(txs);
    let order = order_of(stages, w);
    if w > 0 {
        lemma_order(txs, stages, (w - 1) as nat);
        let h = order_of(stages, (w - 1) as nat);
        let stage = stages[w - 1];
        assert forall|i: int| 0 <= i < stage.len() implies (#[trigger] stage[i]) < txs.len()
            && parallel::wave_of(sets, stage[i] as int) == w - 1 by {
            assert(stages[w - 1].contains(stage[i]));
        }
        assert forall|i: int| 0 <= i < order.len() implies 0 <= #[trigger] order[i] < txs.len()
            && parallel::wave_of(sets, order[i]) < w by {
            if i < h.len() {
                assert(order[i] == h[i]);
            } else {
                assert(order[i] == stage[i - h.len()]);
            }
        }
        assert forall|i: int, j: int| 0 <= i < j < order.len() implies (#[trigger] order[i]) != (
        #[trigger] order[j]) && parallel::wave_of(sets, order[i]) <= parallel::wave_of(
            sets,
            order[j],
        ) by {
            if j < h.len() {
                assert(order[i] == h[i] && order[j] == h[j]);
            } else {
                assert(order[j] == stage[j - h.len()]);
                if i < h.len() {
                    assert(order[i] == h[i]);
                } else {
                    assert(order[i] == stage[i - h.len()]);
                    assert(stages[w - 1][i - h.len()] < stages[w - 1][j - h.len()]);
                }
            }
        }
        assert forall|k: int|
            0 <= k < txs.len() && parallel::wave_of(sets, k) < w implies #[trigger] order.contains(
            k,
        ) by {
            if parallel::wave_of(sets, k) < w - 1 {
                assert(h.contains(k));
                let i = choose|i: int| 0 <= i < h.len() && h[i] == k;
                assert(order[i] == k);
            } else {
                assert(stages[w - 1].contains(k as usize));
                let i = choose|i: int| 0 <= i < stage.len() && stage[i] == k as usize;
                assert(order[h.len() + i] == k);
            }
        }
    }
}

/// The transactions of one stage touch no common account, and are all of the transparent
/// lane where there are more than one.
proof fn lemma_stage_apart(txs: Seq<Transaction>, stages: Seq<Seq<usize>>, w: int)
    requires
        parallel::scheduled(stages, parallel::block_sets(txs), txs.len() as int),
        0 <= w < stages.len(),
        stages[w].len() > 1,
    ensures
        apart(stage_txs(txs, stages[w])),
        all_lane(stage_txs(txs, stages[w])),
{
    let sets = parallel::block_sets(txs);
    let stage = stages[w];
    let these = stage_txs(txs, stage);
    assert forall|i: int, j: int| 0 <= i < stage.len() && 0 <= j < stage.len() && i != j implies {
        &&& !parallel::clash(
            parallel::accesses(#[trigger] these[i]),
            parallel::accesses(#[trigger] these[j]),
        )
    } by {
        assert(stages[w].contains(stage[i]) && stages[w].contains(stage[j]));
        if i < j {
            assert(stages[w][i] < stages[w][j]);
        } else {
            assert(stages[w][j] < stages[w][i]);
        }
        parallel::law_wave_is_disjoint(sets, stage[i] as int, stage[j] as int);
        assert(sets[stage[i] as int] == parallel::accesses(these[i]));
        assert(sets[stage[j] as int] == parallel::accesses(these[j]));
    }
    assert forall|i: int| 0 <= i < these.len() implies parallel::accesses(
        #[trigger] these[i],
    ) is Some by {
        let j: int = if i == 0 {
            1
        } else {
            0
        };
        assert(!parallel::clash(parallel::accesses(these[i]), parallel::accesses(these[j])));
    }
    assert forall|i: int, j: int, id: Seq<u8>| 0 <= i < j < these.len() implies !(
    #[trigger] touches(these[i], id) && #[trigger] touches(these[j], id)) by {
        assert(!parallel::clash(parallel::accesses(these[i]), parallel::accesses(these[j])));
        if touches(these[i], id) && touches(these[j], id) {
            let a = parallel::accesses(these[i])->0;
            let b = parallel::accesses(these[j])->0;
            let x = choose|x: int| 0 <= x < a.len() && (#[trigger] a[x])@ == id;
            let y = choose|y: int| 0 <= y < b.len() && (#[trigger] b[y])@ == id;
            assert(a[x]@ == b[y]@);
        }
    }
}

proof fn lemma_staged(
    st: State,
    txs: Seq<Transaction>,
    stages: Seq<Seq<usize>>,
    cuts: Seq<nat>,
    w: nat,
    height: u64,
    f: spec_fn(Transaction, Option<[u8; 64]>, Seq<Term>) -> Reply,
)
    requires
        parallel::scheduled(stages, parallel::block_sets(txs), txs.len() as int),
        cuts.len() == stages.len(),
        forall|i: int| 0 <= i < cuts.len() ==> #[trigger] cuts[i] > 0,
        w <= stages.len(),
    ensures
        staged_run(st, txs, stages, cuts, w, height, f) == in_turn(
            st,
            arranged(txs, order_of(stages, w)),
            height,
            f,
        ),
    decreases w,
{
    let order = order_of(stages, w);
    if w == 0 {
        assert(arranged(txs, order) =~= Seq::empty());
    } else {
        lemma_staged(st, txs, stages, cuts, (w - 1) as nat, height, f);
        let h = order_of(stages, (w - 1) as nat);
        let stage = stage_txs(txs, stages[w - 1]);
        assert(arranged(txs, order) =~= arranged(txs, h) + stage);
        lemma_concat(st, arranged(txs, h), stage, height, f);
        if let Some(s) = in_turn(st, arranged(txs, h), height, f) {
            if cuts[w - 1] < stage.len() {
                lemma_stage_apart(txs, stages, w - 1);
                let none = Seq::<Transaction>::empty();
                assert(none + stage =~= stage);
                lemma_spread(s, none, stage, cuts[w - 1], height, f);
            }
        }
    }
}

/// Running a block on all cores comes to what applying it in order comes to: its stages one
/// after the other, each cut into chunks of any size that are run on copies of the ledger
/// and merged, are refused just if the block in order is, and give the same state.
pub proof fn law_parallel_matches_block_order(
    st: State,
    txs: Seq<Transaction>,
    stages: Seq<Seq<usize>>,
    cuts: Seq<nat>,
    height: u64,
    f: spec_fn(Transaction, Option<[u8; 64]>, Seq<Term>) -> Reply,
)
    requires
        txs.len() <= usize::MAX,
        parallel::scheduled(stages, parallel::block_sets(txs), txs.len() as int),
        cuts.len() == stages.len(),
        forall|i: int| 0 <= i < cuts.len() ==> #[trigger] cuts[i] > 0,
    ensures
        staged_run(st, txs, stages, cuts, stages.len(), height, f) == in_turn(
            st,
            txs,
            height,
            f,
        ),
{
    let order = order_of(stages, stages.len());
    lemma_order(txs, stages, stages.len());
    assert forall|k: int| #[trigger] order.contains(k) == (0 <= k < txs.len()) by {
        if 0 <= k < txs.len() {
            assert(parallel::wave_of(parallel::block_sets(txs), k) < stages.len());
        }
    }
    assert(stage_order(txs, order));
    law_stages_match_block_order(st, txs, order, height, f);
    lemma_staged(st, txs, stages, cuts, stages.len(), height, f);
}

} // verus!
