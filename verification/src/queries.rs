//! Questions about the whole ledger: the validator set, the decoy pool, and the
//! ciphertexts it holds.

use vstd::prelude::*;

use crate::byte_map;
use crate::bytes;
use crate::bytes::{array_at, before};
use crate::ledger;
use crate::ledger::Ledger;
use crate::reader;
use crate::records;
use crate::records::{account_in, decode_validator, REC_ACCOUNT, REC_VALIDATOR};
use crate::rules::{State, MIN_VALIDATOR_STAKE};
use crate::snapshot;
use crate::store::KVStore;

verus! {

// --- the validator set ------------------------------------------------------------

/// Whether `id` is a validator of weight `stake`: bonded enough, and never
/// slashed for equivocation.
pub open spec fn eligible(st: State, id: Seq<u8>, stake: u64) -> bool {
    &&& st.validators.contains_key(id)
    &&& !st.validators[id].tombstoned
    &&& st.validators[id].staked >= MIN_VALIDATOR_STAKE
    &&& st.validators[id].staked == stake
}

/// Whether `a` stands before `b` in the set: more stake first, then by id.
pub open spec fn outranks(a: ([u8; 32], u64), b: ([u8; 32], u64)) -> bool {
    a.1 > b.1 || (a.1 == b.1 && bytes::bytes_lt(a.0@, b.0@))
}

/// Whether `s` lists just the eligible validators, in order of rank.
pub open spec fn ranks(s: Seq<([u8; 32], u64)>, st: State) -> bool {
    &&& forall|i: int, j: int| 0 <= i < j < s.len() ==> outranks(#[trigger] s[i], #[trigger] s[j])
    &&& forall|p: ([u8; 32], u64)| #[trigger] s.contains(p) == eligible(st, p.0@, p.1)
}

/// The eligible validators in order of rank.
pub open spec fn ranking(st: State) -> Seq<([u8; 32], u64)> {
    choose|s: Seq<([u8; 32], u64)>| ranks(s, st)
}

proof fn lemma_outranks(a: ([u8; 32], u64), b: ([u8; 32], u64))
    ensures
        outranks(a, b) ==> !outranks(b, a) && a != b,
        !outranks(a, b) && !outranks(b, a) ==> a == b,
{
    bytes::lemma_bytes_lt_total(a.0@, b.0@);
    if a.0@ == b.0@ {
        bytes::lemma_array_eq(a.0, b.0);
    }
}

/// Whether `s` is strictly in order of rank.
spec fn in_order(s: Seq<([u8; 32], u64)>) -> bool {
    forall|i: int, j: int| 0 <= i < j < s.len() ==> outranks(#[trigger] s[i], #[trigger] s[j])
}

proof fn lemma_same_ranking(s: Seq<([u8; 32], u64)>, t: Seq<([u8; 32], u64)>)
    requires
        in_order(s),
        in_order(t),
        forall|p: ([u8; 32], u64)| #[trigger] s.contains(p) == t.contains(p),
    ensures
        s == t,
    decreases s.len(),
{
    if s.len() == 0 {
        if t.len() > 0 {
            assert(t.contains(t[0]));
            assert(s.contains(t[0]));
        }
        assert(s =~= t);
    } else {
        let a = s.last();
        assert(s.contains(s[s.len() - 1]));
        assert(t.contains(a));
        let i = choose|i: int| 0 <= i < t.len() && t[i] == a;
        let b = t.last();
        assert(t.contains(t[t.len() - 1]));
        assert(s.contains(b));
        let j = choose|j: int| 0 <= j < s.len() && s[j] == b;
        lemma_outranks(a, b);
        if i < t.len() - 1 {
            assert(outranks(t[i], t[t.len() - 1]));
        }
        if j < s.len() - 1 {
            assert(outranks(s[j], s[s.len() - 1]));
        }
        assert(a == b);
        let s1 = s.drop_last();
        let t1 = t.drop_last();
        assert forall|p: ([u8; 32], u64)| #[trigger] s1.contains(p) == t1.contains(p) by {
            if s1.contains(p) {
                let x = choose|x: int| 0 <= x < s1.len() && s1[x] == p;
                assert(s[x] == p);
                assert(outranks(s[x], s[s.len() - 1]));
                lemma_outranks(p, a);
                assert(s.contains(s[x]));
                assert(s.contains(p) == t.contains(p));
                let y = choose|y: int| 0 <= y < t.len() && t[y] == p;
                assert(t1[y] == p);
            }
            if t1.contains(p) {
                let x = choose|x: int| 0 <= x < t1.len() && t1[x] == p;
                assert(t[x] == p);
                assert(outranks(t[x], t[t.len() - 1]));
                lemma_outranks(p, a);
                assert(t.contains(t[x]));
                assert(s.contains(p) == t.contains(p));
                let y = choose|y: int| 0 <= y < s.len() && s[y] == p;
                assert(s1[y] == p);
            }
        }
        lemma_same_ranking(s1, t1);
        assert(s =~= s1.push(a));
        assert(t =~= t1.push(a));
    }
}

/// The eligible validators can be ranked in one way only, so every node that
/// holds the same state derives the same set.
pub proof fn law_ranking_unique(s: Seq<([u8; 32], u64)>, st: State)
    requires
        ranks(s, st),
    ensures
        ranking(st) == s,
{
    let t = ranking(st);
    assert(ranks(t, st));
    lemma_same_ranking(s, t);
}

/// Put a validator where it belongs in a list in order of rank.
fn place(s: &mut Vec<([u8; 32], u64)>, e: ([u8; 32], u64))
    requires
        in_order(old(s)@),
        !old(s)@.contains(e),
    ensures
        in_order(final(s)@),
        forall|p: ([u8; 32], u64)| #[trigger]
            final(s)@.contains(p) == (old(s)@.contains(p) || p == e),
{
    let mut at: usize = s.len();
    while at > 0 && comes_first(&e, &s[at - 1])
        invariant
            at <= s@.len(),
            s@ == old(s)@,
            forall|i: int| at <= i < s@.len() ==> outranks(e, #[trigger] s@[i]),
        decreases at,
    {
        at -= 1;
    }
    let ghost was = s@;
    s.insert(at, e);
    proof {
        let now = was.insert(at as int, e);
        assert(s@ == now);
        assert forall|i: int| 0 <= i < at implies outranks(#[trigger] was[i], e) by {
            let l = at - 1;
            assert(was.contains(was[l]));
            lemma_outranks(was[l], e);
            if i < l {
                assert(outranks(was[i], was[l]));
                if was[i].1 == was[l].1 && was[l].1 == e.1 {
                    bytes::lemma_bytes_lt_trans(was[i].0@, was[l].0@, e.0@);
                }
            }
        }
        assert forall|i: int, j: int| 0 <= i < j < now.len() implies outranks(
            #[trigger] now[i],
            #[trigger] now[j],
        ) by {
            let a = if i < at { i } else { i - 1 };
            let b = if j < at { j } else { j - 1 };
            if i != at && j != at {
                assert(now[i] == was[a] && now[j] == was[b]);
            } else if i == at {
                assert(now[j] == was[b] && b >= at);
            } else {
                assert(now[i] == was[i]);
            }
        }
        assert forall|p: ([u8; 32], u64)| #[trigger]
            now.contains(p) == (was.contains(p) || p == e) by {
            if was.contains(p) {
                let i = choose|i: int| 0 <= i < was.len() && was[i] == p;
                if i < at {
                    assert(now[i] == p);
                } else {
                    assert(now[i + 1] == p);
                }
            }
            if p == e {
                assert(now[at as int] == p);
            }
            if now.contains(p) && p != e {
                let i = choose|i: int| 0 <= i < now.len() && now[i] == p;
                if i < at {
                    assert(was[i] == p);
                } else {
                    assert(was[i - 1] == p);
                }
            }
        }
    }
}

fn comes_first(a: &([u8; 32], u64), b: &([u8; 32], u64)) -> (r: bool)
    ensures
        r == outranks(*a, *b),
{
    a.1 > b.1 || (a.1 == b.1 && before(a.0.as_slice(), b.0.as_slice()))
}

impl<B: KVStore> Ledger<B> {
    /// The deterministic validator set: every account with enough stake bonded
    /// that was never slashed for equivocation, by stake descending and then by
    /// id, capped. It depends on the state alone.
    pub fn validator_set(&self) -> (r: Vec<([u8; 32], u64)>)
        requires
            self.wf(),
        ensures
            ranks(ranking(self.state()), self.state()),
            r@ == if ranking(self.state()).len() <= self.max_validators {
                ranking(self.state())
            } else {
                ranking(self.state()).take(self.max_validators as int)
            },
    {
        let ghost o = self.objects();
        let ghost st = self.state();
        let all = self.scan_kind(REC_VALIDATOR);
        let ghost e = snapshot::plain(all@);
        let mut set: Vec<([u8; 32], u64)> = Vec::new();
        let mut i: usize = 0;
        while i < all.len()
            invariant
                i <= all@.len(),
                e == snapshot::plain(all@),
                byte_map::ascending(all@),
                snapshot::lists(e, snapshot::kind(o, REC_VALIDATOR)),
                ledger::records_ok(o),
                o == self.objects(),
                st == self.state(),
                in_order(set@),
                forall|p: ([u8; 32], u64)| #[trigger]
                    set@.contains(p) == (eligible(st, p.0@, p.1) && listed(e, i as int, p.0@)),
            decreases all@.len() - i,
        {
            let ghost k = all@[i as int].0@;
            proof {
                assert(e[i as int] == (k, all@[i as int].1@));
                snapshot::lemma_kind(o, REC_VALIDATOR, k);
                ledger::lemma_record(o, k);
            }
            let id = array_at::<32>(all[i].0.as_slice(), 1);
            assert(id@ =~= reader::tail(k, 1));
            assert(st.validators.contains_key(id@));
            match decode_validator(all[i].1.as_slice()) {
                None => {
                    assert(false);
                },
                Some(v) => {
                    assert(v@ == st.validators[id@]);
                    proof {
                        lemma_listed_once(all@, e, i as int, id@);
                    }
                    if !v.tombstoned && v.staked >= MIN_VALIDATOR_STAKE {
                        place(&mut set, (id, v.staked));
                    }
                    proof {
                        assert forall|p: ([u8; 32], u64)| #[trigger]
                            set@.contains(p) == (eligible(st, p.0@, p.1) && listed(
                                e,
                                i + 1,
                                p.0@,
                            )) by {
                            if p.0@ == id@ {
                                bytes::lemma_array_eq(p.0, id);
                            }
                            assert(listed(e, i + 1, p.0@) == (listed(e, i as int, p.0@) || p.0@
                                == id@));
                        }
                    }
                },
            }
            i += 1;
        }
        proof {
            assert forall|p: ([u8; 32], u64)| #[trigger] set@.contains(p) == eligible(
                st,
                p.0@,
                p.1,
            ) by {
                if eligible(st, p.0@, p.1) {
                    let k = records::key_of(REC_VALIDATOR, p.0@);
                    assert(k[0] == REC_VALIDATOR);
                    snapshot::lemma_kind(o, REC_VALIDATOR, k);
                    let j = choose|j: int| 0 <= j < e.len() && (#[trigger] e[j]).0 == k;
                    assert(listed(e, e.len() as int, p.0@));
                }
            }
            law_ranking_unique(set@, st);
        }
        let n = self.max_validators();
        set.truncate(n);
        set
    }

    /// The decoy pool for anonymous transfers: every account with a confidential
    /// balance of `token`, even one that encrypts nothing, with that balance, by
    /// ascending account id.
    pub fn ring_candidates(&self, token: u32) -> (r: Vec<([u8; 32], [u8; 64])>)
        requires
            self.wf(),
        ensures
            forall|i: int, j: int|
                0 <= i < j < r@.len() ==> bytes::bytes_lt(
                    (#[trigger] r@[i]).0@,
                    (#[trigger] r@[j]).0@,
                ),
            forall|id: [u8; 32], ct: [u8; 64]| #[trigger]
                r@.contains((id, ct)) == (self.state().registered(id@) && self.state().account(
                    id@,
                ).balances.contains_key(token) && self.state().account(id@).balances[token] == ct),
    {
        let ghost o = self.objects();
        let ghost st = self.state();
        let all = self.scan_kind(REC_ACCOUNT);
        let ghost e = snapshot::plain(all@);
        let mut r: Vec<([u8; 32], [u8; 64])> = Vec::new();
        let mut i: usize = 0;
        while i < all.len()
            invariant
                i <= all@.len(),
                e == snapshot::plain(all@),
                byte_map::ascending(all@),
                snapshot::lists(e, snapshot::kind(o, REC_ACCOUNT)),
                ledger::records_ok(o),
                o == self.objects(),
                st == self.state(),
                forall|a: int, b: int|
                    0 <= a < b < r@.len() ==> bytes::bytes_lt(
                        (#[trigger] r@[a]).0@,
                        (#[trigger] r@[b]).0@,
                    ),
                forall|a: int|
                    0 <= a < r@.len()
                        ==> at_before(e, REC_ACCOUNT, (#[trigger] r@[a]).0@, i as int),
                forall|id: [u8; 32], ct: [u8; 64]| #[trigger]
                    r@.contains((id, ct)) == (holds_of(st, id@, token, ct) && at_before(
                        e,
                        REC_ACCOUNT,
                        id@,
                        i as int,
                    )),
            decreases all@.len() - i,
        {
            let ghost k = all@[i as int].0@;
            proof {
                assert(e[i as int] == (k, all@[i as int].1@));
                snapshot::lemma_kind(o, REC_ACCOUNT, k);
                ledger::lemma_record(o, k);
            }
            let id = array_at::<32>(all[i].0.as_slice(), 1);
            assert(id@ =~= reader::tail(k, 1));
            assert(st.registered(id@));
            let ghost before = r@;
            match account_in(all[i].1.as_slice()) {
                None => {
                    assert(false);
                },
                Some(a) => {
                    assert(a@ == st.accounts[id@]);
                    if let Some(ct) = a.balances.get(&token) {
                        r.push((id, *ct));
                        assert(holds_of(st, id@, token, *ct));
                    }
                },
            }
            proof {
                lemma_at_before(e, REC_ACCOUNT, id@, i as int);
                assert forall|a: int, b: int| 0 <= a < b < r@.len() implies bytes::bytes_lt(
                    (#[trigger] r@[a]).0@,
                    (#[trigger] r@[b]).0@,
                ) by {
                    if b == before.len() {
                        let x = r@[a].0@;
                        assert(at_before(e, REC_ACCOUNT, x, i as int));
                        let j = choose|j: int|
                            0 <= j < i && (#[trigger] e[j]).0 == records::key_of(REC_ACCOUNT, x);
                        assert(bytes::bytes_lt(e[j].0, e[i as int].0));
                        lemma_key_order(REC_ACCOUNT, x, id@);
                    }
                }
                assert forall|x: [u8; 32], ct: [u8; 64]| #[trigger]
                    r@.contains((x, ct)) == (holds_of(st, x@, token, ct) && at_before(
                        e,
                        REC_ACCOUNT,
                        x@,
                        i + 1,
                    )) by {
                    if x@ == id@ {
                        bytes::lemma_array_eq(x, id);
                    }
                    assert(at_before(e, REC_ACCOUNT, x@, i + 1) == (at_before(
                        e,
                        REC_ACCOUNT,
                        x@,
                        i as int,
                    ) || x@ == id@));
                    if before.contains((x, ct)) {
                        let j = choose|j: int| 0 <= j < before.len() && before[j] == (x, ct);
                        assert(r@[j] == (x, ct));
                    }
                    if r@.len() > before.len() {
                        assert(r@[before.len() as int].0 == id);
                        if r@.contains((x, ct)) && x != id {
                            let j = choose|j: int| 0 <= j < r@.len() && r@[j] == (x, ct);
                            assert(before[j] == (x, ct));
                        }
                        if r@.contains((x, ct)) && x == id {
                            let j = choose|j: int| 0 <= j < r@.len() && r@[j] == (x, ct);
                            if j < before.len() {
                                assert(before.contains((x, ct)));
                            }
                        }
                    }
                }
            }
            i += 1;
        }
        proof {
            assert forall|id: [u8; 32], ct: [u8; 64]| #[trigger]
                r@.contains((id, ct)) == holds_of(st, id@, token, ct) by {
                if holds_of(st, id@, token, ct) {
                    let k = records::key_of(REC_ACCOUNT, id@);
                    assert(k[0] == REC_ACCOUNT);
                    snapshot::lemma_kind(o, REC_ACCOUNT, k);
                    let j = choose|j: int| 0 <= j < e.len() && (#[trigger] e[j]).0 == k;
                    assert(at_before(e, REC_ACCOUNT, id@, e.len() as int));
                }
            }
        }
        r
    }
}

/// Whether `id`'s record stands among the first `n` entries.
pub open spec fn at_before(e: Seq<(Seq<u8>, Seq<u8>)>, tag: u8, id: Seq<u8>, n: int) -> bool {
    exists|j: int| 0 <= j < n && (#[trigger] e[j]).0 == records::key_of(tag, id)
}

/// Whether the validator `id` stands among the first `n` entries.
spec fn listed(e: Seq<(Seq<u8>, Seq<u8>)>, n: int, id: Seq<u8>) -> bool {
    at_before(e, REC_VALIDATOR, id, n)
}

proof fn lemma_at_before(e: Seq<(Seq<u8>, Seq<u8>)>, tag: u8, id: Seq<u8>, i: int)
    requires
        0 <= i < e.len(),
        e[i].0 == records::key_of(tag, id),
    ensures
        forall|x: Seq<u8>| #[trigger]
            at_before(e, tag, x, i + 1) == (at_before(e, tag, x, i) || x == id),
{
    assert forall|x: Seq<u8>| #[trigger]
        at_before(e, tag, x, i + 1) == (at_before(e, tag, x, i) || x == id) by {
        if at_before(e, tag, x, i + 1) {
            let j = choose|j: int| 0 <= j < i + 1 && (#[trigger] e[j]).0 == records::key_of(tag, x);
            if j == i {
                ledger::lemma_keys(tag, x, tag, id);
            } else {
                assert(e[j].0 == records::key_of(tag, x));
            }
        }
        if at_before(e, tag, x, i) {
            let j = choose|j: int| 0 <= j < i && (#[trigger] e[j]).0 == records::key_of(tag, x);
            assert(e[j].0 == records::key_of(tag, x));
        }
        if x == id {
            assert(e[i].0 == records::key_of(tag, x));
        }
    }
}

proof fn lemma_listed_once(
    all: Seq<(Vec<u8>, Vec<u8>)>,
    e: Seq<(Seq<u8>, Seq<u8>)>,
    i: int,
    id: Seq<u8>,
)
    requires
        byte_map::ascending(all),
        e == snapshot::plain(all),
        0 <= i < e.len(),
        e[i].0 == records::key_of(REC_VALIDATOR, id),
    ensures
        !listed(e, i, id),
        forall|x: Seq<u8>| #[trigger] listed(e, i + 1, x) == (listed(e, i, x) || x == id),
{
    lemma_at_before(e, REC_VALIDATOR, id, i);
    assert forall|x: Seq<u8>| #[trigger] listed(e, i + 1, x) == (listed(e, i, x) || x == id) by {
        assert(at_before(e, REC_VALIDATOR, x, i + 1) == (at_before(e, REC_VALIDATOR, x, i) || x
            == id));
    }
    if listed(e, i, id) {
        let j = choose|j: int|
            0 <= j < i && (#[trigger] e[j]).0 == records::key_of(REC_VALIDATOR, id);
        assert(bytes::bytes_lt(all[j].0@, all[i].0@));
        assert(e[j].0 == all[j].0@ && e[i].0 == all[i].0@);
        bytes::lemma_bytes_lt_total(e[i].0, e[i].0);
    }
}

/// Ids are in the order of their keys.
proof fn lemma_key_order(tag: u8, a: Seq<u8>, b: Seq<u8>)
    ensures
        bytes::bytes_lt(records::key_of(tag, a), records::key_of(tag, b)) == bytes::bytes_lt(a, b),
{
    let x = records::key_of(tag, a);
    let y = records::key_of(tag, b);
    assert(x[0] == tag && y[0] == tag);
    assert(x.subrange(1, x.len() as int) =~= a);
    assert(y.subrange(1, y.len() as int) =~= b);
}

/// Whether `id` holds the confidential balance `ct` of `token`.
pub open spec fn holds_of(st: State, id: Seq<u8>, token: u32, ct: [u8; 64]) -> bool {
    st.registered(id) && st.account(id).balances.contains_key(token) && st.account(
        id,
    ).balances[token] == ct
}

} // verus!
