//! Deterministic parallel execution of a block's transparent lane.
//!
//! A transparent transaction's accesses are known from the transaction alone: a
//! public transfer or a shield touches its two accounts, a registration one. So
//! a run of such transactions can be scheduled into waves without conflicts, and
//! a wave's transactions can run on copies of the ledger whose written records
//! are merged back. Everything else is a barrier: a stage of its own, after all
//! that comes before it and before all that follows.
//!
//! Why the result is that of applying the block in order: conflicting
//! transactions keep their order across waves ([`law_conflicts_keep_order`]),
//! those of one wave do not conflict ([`law_wave_is_disjoint`]), and, as
//! [`crate::parallel_laws`] shows, a transaction reads and writes its own accounts
//! only, those that do not conflict can change places, and the copies' records
//! put together are what one ledger would hold.

use vstd::prelude::*;

use crate::apply;
use crate::apply::ProofPass;
use crate::byte_map::ByteMap;
use crate::bytes::{copy_bytes, same_hash};
use crate::ledger;
use crate::ledger::{DirtyKey, Ledger};
use crate::records;
use crate::records::{rec_key, REC_ACCOUNT};
use crate::rules;
use crate::rules::{LedgerError, State};
use crate::store::{Column, KVStore};
use crate::transaction::Transaction;

verus! {

/// Below this many transactions in a wave, threads cost more than they save.
pub const MIN_PARALLEL: usize = 8;

// --- accesses ------------------------------------------------------------------

/// The accounts a transaction of the transparent lane may read or write; `None`
/// for a barrier.
pub open spec fn accesses(tx: Transaction) -> Option<Seq<[u8; 32]>> {
    match tx {
        Transaction::Register { pubkey, .. } => Some(seq![pubkey]),
        Transaction::PublicTransfer { from, to, .. } => Some(seq![from, to]),
        Transaction::Shield { from, to, .. } => Some(seq![from, to]),
        _ => None,
    }
}

/// The accounts `tx` may read or write, or `None` if its access is dynamic or
/// global: a barrier, applied serially.
pub fn access_set(tx: &Transaction) -> (r: Option<Vec<[u8; 32]>>)
    ensures
        match r {
            Some(v) => accesses(*tx) == Some(v@),
            None => accesses(*tx) is None,
        },
{
    match tx {
        Transaction::Register { pubkey, .. } => {
            let v: Vec<[u8; 32]> = vec![*pubkey];
            assert(v@ =~= seq![*pubkey]);
            Some(v)
        },
        Transaction::PublicTransfer { from, to, .. } => {
            let v: Vec<[u8; 32]> = vec![*from, *to];
            assert(v@ =~= seq![*from, *to]);
            Some(v)
        },
        Transaction::Shield { from, to, .. } => {
            let v: Vec<[u8; 32]> = vec![*from, *to];
            assert(v@ =~= seq![*from, *to]);
            Some(v)
        },
        _ => None,
    }
}

/// Whether two access sets share an account.
pub open spec fn conflict(a: Seq<[u8; 32]>, b: Seq<[u8; 32]>) -> bool {
    exists|i: int, j: int|
        0 <= i < a.len() && 0 <= j < b.len() && (#[trigger] a[i])@ == (#[trigger] b[j])@
}

fn conflicts(a: &Vec<[u8; 32]>, b: &Vec<[u8; 32]>) -> (r: bool)
    ensures
        r == conflict(a@, b@),
{
    let mut i: usize = 0;
    while i < a.len()
        invariant
            i <= a@.len(),
            forall|x: int, y: int|
                0 <= x < i && 0 <= y < b@.len() ==> (#[trigger] a@[x])@ != (#[trigger] b@[y])@,
        decreases a@.len() - i,
    {
        let mut j: usize = 0;
        while j < b.len()
            invariant
                i < a@.len(),
                j <= b@.len(),
                forall|x: int, y: int|
                    0 <= x < i && 0 <= y < b@.len() ==> (#[trigger] a@[x])@ != (#[trigger] b@[y])@,
                forall|y: int| 0 <= y < j ==> a@[i as int]@ != (#[trigger] b@[y])@,
            decreases b@.len() - j,
        {
            if same_hash(&a[i], &b[j]) {
                assert(a@[i as int]@ == b@[j as int]@);
                return true;
            }
            j += 1;
        }
        i += 1;
    }
    false
}

// --- waves ---------------------------------------------------------------------

/// The sets by their contents.
pub open spec fn contents(sets: Seq<Vec<[u8; 32]>>) -> Seq<Option<Seq<[u8; 32]>>> {
    sets.map_values(|v: Vec<[u8; 32]>| Some(v@))
}

/// The access sets of a block, a barrier having none.
pub open spec fn block_sets(txs: Seq<Transaction>) -> Seq<Option<Seq<[u8; 32]>>> {
    txs.map_values(|t: Transaction| accesses(t))
}

/// Whether two transactions with these access sets must keep their order: they
/// share an account, or one is a barrier.
pub open spec fn clash(a: Option<Seq<[u8; 32]>>, b: Option<Seq<[u8; 32]>>) -> bool {
    match (a, b) {
        (Some(x), Some(y)) => conflict(x, y),
        _ => true,
    }
}

/// The first wave that `k` may use after those among the first `n` it conflicts
/// with.
pub open spec fn earliest(sets: Seq<Option<Seq<[u8; 32]>>>, k: int, n: int) -> int
    decreases k, n,
{
    if n <= 0 || k < 0 {
        0
    } else {
        let before = earliest(sets, k, n - 1);
        if n - 1 < k && clash(sets[n - 1], sets[k]) {
            let w = wave_of(sets, n - 1) + 1;
            if w > before {
                w
            } else {
                before
            }
        } else {
            before
        }
    }
}

/// The wave of transaction `k`: the first one after every earlier transaction
/// that it conflicts with.
pub open spec fn wave_of(sets: Seq<Option<Seq<[u8; 32]>>>, k: int) -> int
    decreases k, k + 1,
{
    if k < 0 {
        0
    } else {
        earliest(sets, k, k)
    }
}

proof fn lemma_earliest(sets: Seq<Option<Seq<[u8; 32]>>>, k: int, n: int, j: int)
    requires
        0 <= j < n <= k,
    ensures
        0 <= earliest(sets, k, n),
        clash(sets[j], sets[k]) ==> wave_of(sets, j) < earliest(sets, k, n),
    decreases n,
{
    lemma_wave_nonneg(sets, k, n);
    if j < n - 1 {
        lemma_earliest(sets, k, n - 1, j);
    }
}

proof fn lemma_wave_nonneg(sets: Seq<Option<Seq<[u8; 32]>>>, k: int, n: int)
    ensures
        0 <= earliest(sets, k, n),
    decreases n,
{
    if n > 0 && k >= 0 {
        lemma_wave_nonneg(sets, k, n - 1);
    }
}

/// Conflicting transactions keep their order: the earlier one is in an earlier
/// wave.
pub proof fn law_conflicts_keep_order(sets: Seq<Option<Seq<[u8; 32]>>>, j: int, k: int)
    requires
        0 <= j < k < sets.len(),
        clash(sets[j], sets[k]),
    ensures
        wave_of(sets, j) < wave_of(sets, k),
{
    lemma_earliest(sets, k, k, j);
}

/// Transactions of one wave share no account.
pub proof fn law_wave_is_disjoint(sets: Seq<Option<Seq<[u8; 32]>>>, j: int, k: int)
    requires
        0 <= j < sets.len(),
        0 <= k < sets.len(),
        j != k,
        wave_of(sets, j) == wave_of(sets, k),
    ensures
        !clash(sets[j], sets[k]),
{
    if clash(sets[j], sets[k]) {
        if j < k {
            law_conflicts_keep_order(sets, j, k);
        } else {
            if let (Some(a), Some(b)) = (sets[j], sets[k]) {
                let (x, y) = choose|x: int, y: int|
                    0 <= x < a.len() && 0 <= y < b.len() && (#[trigger] a[x])@ == (
                    #[trigger] b[y])@;
                assert(b[y]@ == a[x]@);
            }
            assert(clash(sets[k], sets[j]));
            law_conflicts_keep_order(sets, k, j);
        }
    }
}

/// Whether `waves` holds each of the first `n` transactions in its wave, in
/// block order, and nothing else.
pub open spec fn scheduled(waves: Seq<Seq<usize>>, sets: Seq<Option<Seq<[u8; 32]>>>,
    n: int) -> bool {
    &&& forall|w: int, k: usize| #![trigger waves[w].contains(k)]
        0 <= w < waves.len() ==> (waves[w].contains(k) == (k < n && wave_of(sets, k as int) == w))
    &&& forall|w: int, i: int, j: int|
        0 <= w < waves.len() && 0 <= i < j < waves[w].len() ==> (#[trigger] waves[w][i]) < (
        #[trigger] waves[w][j])
    &&& forall|k: int| 0 <= k < n ==> 0 <= #[trigger] wave_of(sets, k) < waves.len()
    &&& forall|w: int| 0 <= w < waves.len() ==> (#[trigger] waves[w]).len() > 0
}

/// The waves by their contents.
pub open spec fn wave_contents(waves: Seq<Vec<usize>>) -> Seq<Seq<usize>> {
    waves.map_values(|v: Vec<usize>| v@)
}

/// Earliest-wave list scheduling: transaction `k` goes into the first wave after
/// the last one that touched any account in its set.
pub fn schedule_waves(sets: &[Vec<[u8; 32]>]) -> (waves: Vec<Vec<usize>>)
    ensures
        scheduled(wave_contents(waves@), contents(sets@), sets@.len() as int),
{
    let mut known: Vec<Option<&Vec<[u8; 32]>>> = Vec::new();
    let mut i: usize = 0;
    while i < sets.len()
        invariant
            i <= sets@.len(),
            known@.len() == i,
            forall|j: int|
                0 <= j < i ==> (#[trigger] known@[j]) is Some && known@[j]->0@ == sets@[j]@,
        decreases sets@.len() - i,
    {
        known.push(Some(&sets[i]));
        i += 1;
    }
    assert(borrowed(known@) =~= contents(sets@));
    schedule(&known)
}

/// The stages of a block: each barrier alone, and between barriers the waves of
/// the transparent lane.
pub fn block_stages(txs: &[Transaction]) -> (stages: Vec<Vec<usize>>)
    ensures
        scheduled(wave_contents(stages@), block_sets(txs@), txs@.len() as int),
{
    let mut sets: Vec<Option<Vec<[u8; 32]>>> = Vec::new();
    let mut i: usize = 0;
    while i < txs.len()
        invariant
            i <= txs@.len(),
            sets@.len() == i,
            forall|j: int|
                0 <= j < i ==> match #[trigger] sets@[j] {
                    Some(v) => accesses(txs@[j]) == Some(v@),
                    None => accesses(txs@[j]) is None,
                },
        decreases txs@.len() - i,
    {
        sets.push(access_set(&txs[i]));
        i += 1;
    }
    let mut known: Vec<Option<&Vec<[u8; 32]>>> = Vec::new();
    let mut k: usize = 0;
    while k < sets.len()
        invariant
            k <= sets@.len(),
            known@.len() == k,
            forall|j: int|
                0 <= j < k ==> match #[trigger] known@[j] {
                    Some(v) => sets@[j] is Some && v@ == sets@[j]->0@,
                    None => sets@[j] is None,
                },
        decreases sets@.len() - k,
    {
        match &sets[k] {
            Some(v) => known.push(Some(v)),
            None => known.push(None),
        }
        k += 1;
    }
    proof {
        assert forall|j: int| 0 <= j < txs@.len() implies #[trigger] borrowed(known@)[j]
            == block_sets(txs@)[j] by {
            assert(known@[j] is Some == sets@[j] is Some);
        }
        assert(borrowed(known@) =~= block_sets(txs@));
    }
    schedule(&known)
}

/// Borrowed sets by their contents.
spec fn borrowed(sets: Seq<Option<&Vec<[u8; 32]>>>) -> Seq<Option<Seq<[u8; 32]>>> {
    sets.map_values(
        |v: Option<&Vec<[u8; 32]>>|
            match v {
                Some(x) => Some(x@),
                None => None,
            },
    )
}

fn clashes(a: &Option<&Vec<[u8; 32]>>, b: &Option<&Vec<[u8; 32]>>) -> (r: bool)
    ensures
        r == match (*a, *b) {
            (Some(x), Some(y)) => conflict(x@, y@),
            _ => true,
        },
{
    match (a, b) {
        (Some(x), Some(y)) => conflicts(x, y),
        _ => true,
    }
}

fn schedule(sets: &Vec<Option<&Vec<[u8; 32]>>>) -> (waves: Vec<Vec<usize>>)
    ensures
        scheduled(wave_contents(waves@), borrowed(sets@), sets@.len() as int),
{
    let ghost s = borrowed(sets@);
    let mut level: Vec<usize> = Vec::new();
    let mut waves: Vec<Vec<usize>> = Vec::new();
    let mut k: usize = 0;
    while k < sets.len()
        invariant
            k <= sets@.len(),
            s == borrowed(sets@),
            level@.len() == k,
            forall|j: int| 0 <= j < k ==> #[trigger] level@[j] == wave_of(s, j),
            waves@.len() <= k,
            scheduled(wave_contents(waves@), s, k as int),
        decreases sets@.len() - k,
    {
        let mut w: usize = 0;
        let mut j: usize = 0;
        while j < k
            invariant
                j <= k < sets@.len(),
                s == borrowed(sets@),
                level@.len() == k,
                forall|j: int| 0 <= j < k ==> #[trigger] level@[j] == wave_of(s, j),
                forall|j: int| 0 <= j < k ==> #[trigger] wave_of(s, j) < waves@.len(),
                waves@.len() <= k,
                w == earliest(s, k as int, j as int),
                w <= waves@.len(),
            decreases k - j,
        {
            if clashes(&sets[j], &sets[k]) {
                assert(level@[j as int] == wave_of(s, j as int));
                if level[j] + 1 > w {
                    w = level[j] + 1;
                }
            }
            j += 1;
        }
        let ghost before = wave_contents(waves@);
        if w == waves.len() {
            waves.push(Vec::new());
        }
        let ghost grown = wave_contents(waves@);
        // Take the wave out, add the transaction, and put it back.
        let mut wave: Vec<usize> = Vec::new();
        std::mem::swap(&mut wave, &mut waves[w]);
        let ghost had = wave@;
        wave.push(k);
        std::mem::swap(&mut wave, &mut waves[w]);
        level.push(w);
        proof {
            let now = wave_contents(waves@);
            assert(now[w as int] =~= had.push(k));
            assert(had =~= grown[w as int]);
            assert(wave_of(s, k as int) == w);
            lemma_scheduled_push(before, now, s, k as int, w as int);
        }
        k += 1;
    }
    waves
}

proof fn lemma_scheduled_push(
    before: Seq<Seq<usize>>,
    now: Seq<Seq<usize>>,
    s: Seq<Option<Seq<[u8; 32]>>>,
    k: int,
    w: int,
)
    requires
        scheduled(before, s, k),
        0 <= k < usize::MAX,
        wave_of(s, k) == w,
        0 <= w <= before.len(),
        now.len() == before.len() + (if w == before.len() {
            1int
        } else {
            0
        }),
        forall|x: int| 0 <= x < before.len() && x != w ==> #[trigger] now[x] == before[x],
        now[w] == (if w < before.len() {
            before[w]
        } else {
            Seq::<usize>::empty()
        }).push(k as usize),
    ensures
        scheduled(now, s, k + 1),
{
    let old_w = if w < before.len() {
        before[w]
    } else {
        Seq::<usize>::empty()
    };
    assert forall|x: int, y: usize| #![trigger now[x].contains(y)] 0 <= x < now.len()
        implies now[x].contains(
        y,
    ) == (y < k + 1 && wave_of(s, y as int) == x) by {
        if x == w {
            assert(now[w][old_w.len() as int] == k as usize);
            if w < before.len() {
                assert(before[w].contains(y) == (y < k && wave_of(s, y as int) == w));
            } else {
                assert(!old_w.contains(y));
                if y < k {
                    assert(wave_of(s, y as int) < before.len());
                }
            }
            if old_w.contains(y) {
                let i = choose|i: int| 0 <= i < old_w.len() && old_w[i] == y;
                assert(now[w][i] == y);
            }
            if now[w].contains(y) && y != k {
                let i = choose|i: int| 0 <= i < now[w].len() && now[w][i] == y;
                assert(old_w[i] == y);
            }
        } else {
            assert(before[x].contains(y) == (y < k && wave_of(s, y as int) == x));
        }
    }
    assert forall|x: int, i: int, j: int| 0 <= x < now.len() && 0 <= i < j < now[x].len() implies (
    #[trigger] now[x][i]) < (#[trigger] now[x][j]) by {
        if x == w {
            if j == old_w.len() {
                assert(before[w].contains(before[w][i]));
            } else {
                assert(before[w][i] < before[w][j]);
            }
        } else {
            assert(before[x][i] < before[x][j]);
        }
    }
    assert forall|x: int| 0 <= x < now.len() implies (#[trigger] now[x]).len() > 0 by {
        if x != w {
            assert(before[x].len() > 0);
        }
    }
    assert forall|y: int| 0 <= y < k + 1 implies 0 <= #[trigger] wave_of(s, y) < now.len() by {
        if y < k {
            assert(wave_of(s, y) < before.len());
        }
    }
}

// --- workers -----------------------------------------------------------------------

/// How many of `len` jobs each of `workers` threads gets, none being idle.
pub fn share(len: usize, workers: usize) -> (n: usize)
    requires
        len > 0,
        workers > 0,
    ensures
        workers <= len ==> n == (len + workers - 1) / (workers as int),
        workers > len ==> n == 1,
        1 <= n <= len,
        (n - 1) * workers < len <= n * workers,
{
    let w = if workers < len {
        workers
    } else {
        len
    };
    proof {
        lemma_div_ceil(len as int, w as int);
    }
    let n: usize = if len % w == 0 {
        len / w
    } else {
        len / w + 1
    };
    proof {
        let q = (len + w - 1) / (w as int);
        assert(n == q);
        assert((q - 1) * w < len <= q * w);
        if workers > len {
            assert(n == 1);
            assert((n - 1) * workers == 0 && n * workers == workers) by (nonlinear_arith)
                requires
                    n == 1,
            ;
        } else {
            assert(w == workers);
        }
    }
    n
}

/// How many transactions of a wave each of `workers` threads gets: all to one
/// where the wave is small or there is one worker.
pub fn chunk_len(len: usize, workers: usize) -> (n: usize)
    requires
        len > 0,
    ensures
        len < MIN_PARALLEL || workers < 2 ==> n == len,
        len >= MIN_PARALLEL && 2 <= workers <= len ==> n == (len + workers - 1) / (
        workers as int),
        len >= MIN_PARALLEL && workers > len ==> n == 1,
        1 <= n <= len,
        workers >= 2 && n < len ==> (n - 1) * workers < len <= n * workers,
{
    if len < MIN_PARALLEL || workers < 2 {
        return len;
    }
    share(len, workers)
}

proof fn lemma_div_ceil(l: int, w: int)
    requires
        1 <= w <= l,
    ensures
        l / w + (if l % w == 0 { 0int } else { 1 }) == (l + w - 1) / w,
        1 <= (l + w - 1) / w <= l,
        w == l ==> (l + w - 1) / w == 1,
        l / w + 1 <= l + 1,
        w >= 2 ==> l / w + 1 <= l,
        ((l + w - 1) / w - 1) * w < l <= (l + w - 1) / w * w,
{
    let q = l / w;
    let r = l % w;
    assert(l == q * w + r && 0 <= r < w) by (nonlinear_arith)
        requires
            w >= 1,
            q == l / w,
            r == l % w,
    ;
    if r == 0 {
        assert((l + w - 1) / w == q) by (nonlinear_arith)
            requires
                l == q * w,
                w >= 1,
        ;
        assert((q - 1) * w < q * w) by (nonlinear_arith)
            requires
                w >= 1,
        ;
    } else {
        assert((l + w - 1) / w == q + 1) by (nonlinear_arith)
            requires
                l == q * w + r,
                1 <= r < w,
        ;
        assert((q + 1) * w == q * w + w) by (nonlinear_arith);
    }
    assert(1 <= q <= l) by (nonlinear_arith)
        requires
            l == q * w + r,
            0 <= r < w,
            1 <= w <= l,
    ;
    if w >= 2 {
        assert(q + 1 <= l) by (nonlinear_arith)
            requires
                l == q * w + r,
                0 <= r < w,
                2 <= w <= l,
                q >= 1,
        ;
    }
    if w == l {
        assert(q == 1 && r == 0) by (nonlinear_arith)
            requires
                l == q * l + r,
                0 <= r < l,
        ;
    }
}

/// The failure at the lowest block index, for a deterministic report.
pub fn first_error(failed: &[(usize, LedgerError)]) -> (r: Option<LedgerError>)
    ensures
        match r {
            None => failed@.len() == 0,
            Some(e) => exists|i: int|
                0 <= i < failed@.len() && #[trigger] failed@[i].1 == e && (forall|j: int|
                    0 <= j < i ==> failed@[i].0 < (#[trigger] failed@[j]).0) && (forall|j: int|
                    i < j < failed@.len() ==> failed@[i].0 <= (#[trigger] failed@[j]).0),
        },
{
    if failed.len() == 0 {
        return None;
    }
    let mut best: usize = 0;
    let mut i: usize = 1;
    while i < failed.len()
        invariant
            best < i <= failed@.len(),
            forall|j: int| 0 <= j < best ==> failed@[best as int].0 < (#[trigger] failed@[j]).0,
            forall|j: int| best < j < i ==> failed@[best as int].0 <= (#[trigger] failed@[j]).0,
        decreases failed@.len() - i,
    {
        if failed[i].0 < failed[best].0 {
            best = i;
        }
        i += 1;
    }
    assert(failed@[best as int].1 == failed@[best as int].1);
    Some(failed[best].1)
}

impl<B: KVStore> Ledger<B> {
    /// An account's record, as a worker's copy of the ledger hands it over.
    pub fn account_record(&self, id: &[u8; 32]) -> (r: Option<Vec<u8>>)
        ensures
            match r {
                Some(b) => self.objects().contains_key(records::key_of(REC_ACCOUNT, id@))
                    && self.objects()[records::key_of(REC_ACCOUNT, id@)] == b@,
                None => !self.state().registered(id@),
            },
    {
        let key = rec_key(REC_ACCOUNT, id.as_slice());
        let r = self.store.get(Column::Objects, key.as_slice());
        assert(r is Some == self.objects().contains_key(key@));
        r
    }

    /// The records of the accounts that a worker's chunk of transactions may have
    /// written, each once.
    pub fn written_records(&self, sets: &[Vec<[u8; 32]>], chunk: &[usize]) -> (r: Vec<
        ([u8; 32], Vec<u8>),
    >)
        requires
            forall|i: int| 0 <= i < chunk@.len() ==> (#[trigger] chunk@[i]) < sets@.len(),
        ensures
            forall|i: int|
                0 <= i < r@.len() ==> {
                    &&& in_chunk(sets@, chunk@, (#[trigger] r@[i]).0@)
                    &&& self.objects().contains_key(records::key_of(REC_ACCOUNT, r@[i].0@))
                    &&& self.objects()[records::key_of(REC_ACCOUNT, r@[i].0@)] == r@[i].1@
                },
            forall|i: int, j: int|
                0 <= i < j < r@.len() ==> (#[trigger] r@[i]).0@ != (#[trigger] r@[j]).0@,
            forall|id: Seq<u8>|
                in_chunk(sets@, chunk@, id) && self.state().registered(id) ==> exported(r@, id),
    {
        let mut r: Vec<([u8; 32], Vec<u8>)> = Vec::new();
        let mut c: usize = 0;
        while c < chunk.len()
            invariant
                c <= chunk@.len(),
                forall|i: int| 0 <= i < chunk@.len() ==> (#[trigger] chunk@[i]) < sets@.len(),
                forall|i: int|
                    0 <= i < r@.len() ==> {
                        &&& in_chunk(sets@, chunk@, (#[trigger] r@[i]).0@)
                        &&& self.objects().contains_key(records::key_of(REC_ACCOUNT, r@[i].0@))
                        &&& self.objects()[records::key_of(REC_ACCOUNT, r@[i].0@)] == r@[i].1@
                    },
                forall|i: int, j: int|
                    0 <= i < j < r@.len() ==> (#[trigger] r@[i]).0@ != (#[trigger] r@[j]).0@,
                forall|x: int, y: int|
                    0 <= x < c && 0 <= y < sets@[chunk@[x] as int]@.len()
                        && self.state().registered(
                        (#[trigger] sets@[chunk@[x] as int]@[y])@,
                    ) ==> exported(r@, sets@[chunk@[x] as int]@[y]@),
            decreases chunk@.len() - c,
        {
            let set = &sets[chunk[c]];
            let mut k: usize = 0;
            while k < set.len()
                invariant
                    c < chunk@.len(),
                    chunk@[c as int] < sets@.len(),
                    *set == sets@[chunk@[c as int] as int],
                    k <= set@.len(),
                    forall|i: int|
                        0 <= i < r@.len() ==> {
                            &&& in_chunk(sets@, chunk@, (#[trigger] r@[i]).0@)
                            &&& self.objects().contains_key(
                                records::key_of(REC_ACCOUNT, r@[i].0@),
                            )
                            &&& self.objects()[records::key_of(REC_ACCOUNT, r@[i].0@)] == r@[i].1@
                        },
                    forall|i: int, j: int|
                        0 <= i < j < r@.len() ==> (#[trigger] r@[i]).0@ != (#[trigger] r@[j]).0@,
                    forall|x: int, y: int|
                        0 <= x < c && 0 <= y < sets@[chunk@[x] as int]@.len()
                            && self.state().registered(
                            (#[trigger] sets@[chunk@[x] as int]@[y])@,
                        ) ==> exported(r@, sets@[chunk@[x] as int]@[y]@),
                    forall|y: int|
                        0 <= y < k && self.state().registered((#[trigger] set@[y])@) ==> exported(
                            r@,
                            set@[y]@,
                        ),
                decreases set@.len() - k,
            {
                let id = set[k];
                let mut seen = false;
                let mut i: usize = 0;
                while i < r.len()
                    invariant
                        i <= r@.len(),
                        seen ==> exported(r@, id@),
                        !seen ==> forall|j: int| 0 <= j < i ==> (#[trigger] r@[j]).0@ != id@,
                    decreases r@.len() - i,
                {
                    if same_hash(&r[i].0, &id) {
                        assert(r@[i as int].0@ == id@);
                        seen = true;
                    }
                    i += 1;
                }
                let ghost before = r@;
                if !seen {
                    if let Some(bytes) = self.account_record(&id) {
                        r.push((id, bytes));
                        proof {
                            assert(sets@[chunk@[c as int] as int]@[k as int]@ == id@);
                            assert(in_chunk(sets@, chunk@, id@));
                            assert(r@[before.len() as int].0@ == id@);
                        }
                    }
                }
                proof {
                    assert forall|x: Seq<u8>| exported(before, x) implies exported(r@, x) by {
                        let i = choose|i: int| 0 <= i < before.len()
                            && (#[trigger] before[i]).0@ == x;
                        assert(r@[i].0@ == x);
                    }
                }
                k += 1;
            }
            c += 1;
        }
        proof {
            assert forall|id: Seq<u8>|
                in_chunk(sets@, chunk@, id) && self.state().registered(id) implies exported(
                r@,
                id,
            ) by {
                let (x, y) = choose|x: int, y: int|
                    0 <= x < chunk@.len() && 0 <= y < sets@[chunk@[x] as int]@.len() && (
                    #[trigger] sets@[chunk@[x] as int]@[y])@ == id;
                assert(exported(r@, sets@[chunk@[x] as int]@[y]@));
            }
        }
        r
    }

    /// Adopt an account record that a worker's copy of the ledger produced.
    pub fn adopt_account_record(&mut self, id: &[u8; 32], bytes: Vec<u8>)
        requires
            old(self).wf(),
            records::whole(records::read_account(bytes@)) is Some,
        ensures
            final(self).wf(),
            final(self).state() == old(self).state().with_account(
                id@,
                records::whole(records::read_account(bytes@))->0,
            ),
            final(self).dirty@ == old(self).dirty@.push(DirtyKey::Account(*id)),
            final(self).next_token_id == old(self).next_token_id,
            ledger::rest_in(final(self).objects()) == ledger::rest_in(old(self).objects()),
            old(self).tidy() && bytes@ == records::account_bytes(
                records::whole(records::read_account(bytes@))->0,
            ) ==> final(self).tidy(),
            old(self).same_home(final(self)),
    {
        let key = rec_key(REC_ACCOUNT, id.as_slice());
        proof {
            broadcast use records::lemma_key_of;

            ledger::lemma_column_insert(self.store.holds(), key@, bytes@);
            lemma_adopt(self.objects(), self.next_token_id, self.zero, id@, bytes@);
            ledger::lemma_rest_stays(self.objects(), key@, bytes@);
            ledger::lemma_tidy_stays(self.objects(), key@, bytes@);
        }
        self.store.put(Column::Objects, key, bytes);
        self.dirty.push(DirtyKey::Account(*id));
    }

    /// The proofs worth verifying ahead of their turn, each with the balance it
    /// is to be held against: every anonymous transfer's, and each solvency proof
    /// whose sender no earlier transaction of the block may write. One proof
    /// alone gains nothing, so then there are none.
    pub fn preverify_jobs(&self, txs: &[Transaction]) -> (r: Vec<(usize, Option<[u8; 64]>)>)
        requires
            self.wf(),
        ensures
            r@ == if jobs(self.state(), txs@, txs@.len()).len() < 2 {
                Seq::<(usize, Option<[u8; 64]>)>::empty()
            } else {
                jobs(self.state(), txs@, txs@.len())
            },
    {
        let ghost st = self.state();
        let mut r: Vec<(usize, Option<[u8; 64]>)> = Vec::new();
        let mut written = ByteMap::new();
        let mut i: usize = 0;
        while i < txs.len()
            invariant
                self.wf(),
                st == self.state(),
                i <= txs@.len(),
                r@ == jobs(st, txs@, i as nat),
                forall|id: Seq<u8>| #[trigger]
                    written@.contains_key(id) == written_by(st, txs@, i as int, id),
            decreases txs@.len() - i,
        {
            let tx = &txs[i];
            match tx {
                Transaction::AnonTransfer { .. } => {
                    r.push((i, None));
                },
                Transaction::SolventTransfer { token, xfer } => {
                    if !written.contains(xfer.sender.as_slice()) {
                        if let Some(b) = self.balance(&xfer.sender, *token) {
                            r.push((i, Some(b)));
                        }
                    }
                },
                Transaction::Unshield { token, xfer, .. } => {
                    if !written.contains(xfer.sender.as_slice()) {
                        if let Some(b) = self.balance(&xfer.sender, *token) {
                            r.push((i, Some(b)));
                        }
                    }
                },
                _ => {},
            }
            assert(r@ =~= jobs(st, txs@, (i + 1) as nat));
            let keys = self.dirty_keys_for(tx);
            let ghost had = written@;
            let mut k: usize = 0;
            while k < keys.len()
                invariant
                    k <= keys@.len(),
                    forall|id: Seq<u8>| #[trigger]
                        written@.contains_key(id) == (had.contains_key(id) || (exists|j: int|
                            0 <= j < k && names(#[trigger] keys@[j], id))),
                decreases keys@.len() - k,
            {
                let ghost now = written@;
                if let DirtyKey::Account(id) = keys[k] {
                    written.insert(copy_bytes(id.as_slice()), Vec::new());
                }
                proof {
                    assert forall|id: Seq<u8>| #[trigger]
                        written@.contains_key(id) == (had.contains_key(id) || (exists|j: int|
                            0 <= j < k + 1 && names(#[trigger] keys@[j], id))) by {
                        assert(written@.contains_key(id) == (now.contains_key(id) || names(
                            keys@[k as int],
                            id,
                        )));
                        if exists|j: int| 0 <= j < k && names(#[trigger] keys@[j], id) {
                            let j = choose|j: int| 0 <= j < k && names(#[trigger] keys@[j], id);
                            assert(names(keys@[j], id));
                        }
                    }
                }
                k += 1;
            }
            proof {
                assert forall|id: Seq<u8>| #[trigger]
                    written@.contains_key(id) == written_by(st, txs@, i + 1, id) by {
                    assert(had.contains_key(id) == written_by(st, txs@, i as int, id));
                    assert(keys@ == apply::touched(st.next_token, txs@[i as int]));
                }
            }
            i += 1;
        }
        if r.len() < 2 {
            let none: Vec<(usize, Option<[u8; 64]>)> = Vec::new();
            assert(none@ =~= Seq::empty());
            return none;
        }
        r
    }
}

/// Whether an entry is the account `id`.
pub open spec fn names(k: DirtyKey, id: Seq<u8>) -> bool {
    k matches DirtyKey::Account(a) && a@ == id
}

/// Whether one of the first `n` transactions may write the account `id`.
pub open spec fn written_by(st: State, txs: Seq<Transaction>, n: int, id: Seq<u8>) -> bool
    decreases n,
{
    n > 0 && (written_by(st, txs, n - 1, id) || (exists|j: int|
        0 <= j < apply::touched(st.next_token, txs[n - 1]).len() && names(
            #[trigger] apply::touched(st.next_token, txs[n - 1])[j],
            id,
        )))
}

/// The verification jobs among the first `n` transactions.
pub open spec fn jobs(st: State, txs: Seq<Transaction>, n: nat) -> Seq<(usize, Option<[u8; 64]>)>
    decreases n,
{
    if n == 0 {
        Seq::empty()
    } else {
        let i = n - 1;
        let before = jobs(st, txs, (n - 1) as nat);
        match txs[i] {
            Transaction::AnonTransfer { .. } => before.push((i as usize, None)),
            Transaction::SolventTransfer { xfer, .. } => if !written_by(st, txs, i, xfer.sender@)
                && rules::bound_balance(st, txs[i]) is Some {
                before.push((i as usize, rules::bound_balance(st, txs[i])))
            } else {
                before
            },
            Transaction::Unshield { xfer, .. } => if !written_by(st, txs, i, xfer.sender@)
                && rules::bound_balance(st, txs[i]) is Some {
                before.push((i as usize, rules::bound_balance(st, txs[i])))
            } else {
                before
            },
            _ => before,
        }
    }
}

/// The evidence that a verified job yields. One that failed yields none, and its
/// proof is verified again at its turn.
pub fn evidence(job: &(usize, Option<[u8; 64]>), verified: bool) -> (r: Option<ProofPass>)
    ensures
        r == if !verified {
            None::<ProofPass>
        } else {
            match job.1 {
                None => Some(ProofPass::Anon),
                Some(b) => Some(ProofPass::AgainstBalance(b)),
            }
        },
{
    if !verified {
        return None;
    }
    match job.1 {
        None => Some(ProofPass::Anon),
        Some(b) => Some(ProofPass::AgainstBalance(b)),
    }
}

/// Whether `id` is in the access set of some transaction in the chunk.
pub open spec fn in_chunk(sets: Seq<Vec<[u8; 32]>>, chunk: Seq<usize>, id: Seq<u8>) -> bool {
    exists|x: int, y: int|
        0 <= x < chunk.len() && 0 <= y < sets[chunk[x] as int]@.len() && (
        #[trigger] sets[chunk[x] as int]@[y])@ == id
}

/// Whether `id`'s record is among those handed over.
pub open spec fn exported(r: Seq<([u8; 32], Vec<u8>)>, id: Seq<u8>) -> bool {
    exists|i: int| 0 <= i < r.len() && (#[trigger] r[i]).0@ == id
}

proof fn lemma_adopt(
    o: Map<Seq<u8>, Seq<u8>>,
    n: u32,
    z: [u8; 64],
    id: Seq<u8>,
    v: Seq<u8>,
)
    requires
        ledger::records_ok(o),
        id.len() == 32,
        records::whole(records::read_account(v)) is Some,
    ensures
        ({
            let p = o.insert(records::key_of(REC_ACCOUNT, id), v);
            &&& ledger::records_ok(p)
            &&& ledger::state_of(p, n, z) == ledger::state_of(o, n, z).with_account(
                id,
                records::whole(records::read_account(v))->0,
            )
        }),
{
    broadcast use records::lemma_key_of;

    let k = records::key_of(REC_ACCOUNT, id);
    let p = o.insert(k, v);
    let a = records::whole(records::read_account(v))->0;
    let s = ledger::state_of(o, n, z);
    let t = ledger::state_of(p, n, z);
    assert forall|x: Seq<u8>| #[trigger] records::key_of(REC_ACCOUNT, x) == k implies x == id by {
        ledger::lemma_keys(REC_ACCOUNT, x, REC_ACCOUNT, id);
    }
    assert(t.accounts =~= s.accounts.insert(id, a));
    assert(t.tokens =~= s.tokens);
    assert(t.tickers =~= s.tickers);
    assert(t.contracts =~= s.contracts);
    assert(t.nullifiers =~= s.nullifiers);
    assert(t.validators =~= s.validators);
}

} // verus!
