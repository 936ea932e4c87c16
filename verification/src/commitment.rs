//! The ledger's authenticated state commitment.
//!
//! The state root is that of a sparse Merkle tree over every account, token,
//! contract, validator and spent nullifier, and the next token id. Updates are
//! incremental: only the entries flagged since the last computation are hashed
//! again. A light client can be handed a proof for a single account.

use vstd::prelude::*;

use crate::bytes;
use crate::bytes::{array_at, push_bytes, push_u32};
use crate::hashing;
use crate::hashing::blake3_hash;
use crate::ledger;
use crate::ledger::{DirtyKey, Ledger};
use crate::records;
use crate::records::{push_account, push_contract, push_token, push_validator};
use crate::rules::State;
use crate::smt;
use crate::smt::{prune, verify, Proof, PruneStats, Smt};
use crate::smt_model;
use crate::store;
use crate::store::{Column, KVStore};

verus! {

// --- entries, paths and leaves ----------------------------------------------

/// The bytes hashed for an entry's path, each kind under a tag of its own.
pub open spec fn entry_string(k: DirtyKey) -> Seq<u8> {
    seq![76u8, 65, 84, 45, 116, 114, 105, 101, 47] + match k {
        DirtyKey::Account(id) => seq![97u8, 99, 99, 116] + id@,
        DirtyKey::Token(id) => seq![116u8, 111, 107, 110] + bytes::le4(id),
        DirtyKey::Contract(id) => seq![99u8, 116, 114, 116] + id@,
        DirtyKey::Nullifier(nf) => seq![110u8, 117, 108, 108] + nf@,
        DirtyKey::Validator(id) => seq![118u8, 97, 108] + id@,
        DirtyKey::Meta => seq![109u8, 101, 116, 97],
    }
}

/// An entry's path in the tree.
pub open spec fn entry_path(k: DirtyKey) -> Seq<u8> {
    hashing::digest(entry_string(k))
}

/// An account's leaf: a tag and the id, so that a verifier can read whom it is
/// about, and then the record.
pub open spec fn account_leaf(id: Seq<u8>, st: State) -> Seq<u8> {
    seq![76u8, 65, 84, 45, 115, 116, 97, 116, 101, 45, 97, 99, 99, 116] + id
        + records::account_bytes(st.accounts[id])
}

/// The leaf of an entry, `None` where the entry does not exist.
pub open spec fn leaf(st: State, k: DirtyKey) -> Option<Seq<u8>> {
    match k {
        DirtyKey::Account(id) => if st.accounts.contains_key(id@) {
            Some(account_leaf(id@, st))
        } else {
            None
        },
        DirtyKey::Token(id) => if st.tokens.contains_key(id) {
            Some(seq![76u8, 65, 84, 45, 115, 116, 97, 116, 101, 45, 116, 111, 107, 101, 110]
                + records::token_bytes(st.tokens[id]))
        } else {
            None
        },
        DirtyKey::Contract(id) => if st.contracts.contains_key(id@) {
            Some(seq![76u8, 65, 84, 45, 115, 116, 97, 116, 101, 45, 99, 111, 110, 116, 114, 97, 99,
                116] + id@ + records::contract_bytes(st.contracts[id@]))
        } else {
            None
        },
        DirtyKey::Nullifier(nf) => if st.nullifiers.contains(nf@) {
            Some(seq![1u8])
        } else {
            None
        },
        DirtyKey::Validator(id) => if st.validators.contains_key(id@) {
            Some(seq![76u8, 65, 84, 45, 115, 116, 97, 116, 101, 45, 118, 97, 108] + id@
                + records::validator_bytes(st.validators[id@]))
        } else {
            None
        },
        DirtyKey::Meta => Some(bytes::le4(st.next_token)),
    }
}

/// Whether entry `k` exists and has the path `p`.
pub open spec fn stands_at(st: State, k: DirtyKey, p: Seq<u8>) -> bool {
    leaf(st, k) is Some && entry_path(k) == p
}

/// The pairs that the state's root commits to.
pub open spec fn committed(st: State) -> smt_model::Pairs {
    Map::new(
        |p: Seq<u8>| exists|k: DirtyKey| stands_at(st, k, p),
        |p: Seq<u8>| leaf(st, choose|k: DirtyKey| stands_at(st, k, p))->0,
    )
}

/// The first three bytes of an entry's tag.
spec fn tag(k: DirtyKey) -> (u8, u8, u8) {
    match k {
        DirtyKey::Account(_) => (97, 99, 99),
        DirtyKey::Token(_) => (116, 111, 107),
        DirtyKey::Contract(_) => (99, 116, 114),
        DirtyKey::Nullifier(_) => (110, 117, 108),
        DirtyKey::Validator(_) => (118, 97, 108),
        DirtyKey::Meta => (109, 101, 116),
    }
}

proof fn lemma_entry_tag(k: DirtyKey)
    ensures
        entry_string(k).len() >= 12,
        (entry_string(k)[9], entry_string(k)[10], entry_string(k)[11]) == tag(k),
{
}

/// Different entries have different strings.
pub proof fn lemma_entry_string(a: DirtyKey, b: DirtyKey)
    requires
        entry_string(a) == entry_string(b),
    ensures
        a == b,
{
    broadcast use bytes::group_le;

    let s = entry_string(a);
    lemma_entry_tag(a);
    lemma_entry_tag(b);
    assert(tag(a) == tag(b));
    match (a, b) {
        (DirtyKey::Account(x), DirtyKey::Account(y)) => {
            assert(x@ =~= s.subrange(13, 45));
            assert(y@ =~= s.subrange(13, 45));
            bytes::lemma_array_eq(x, y);
        },
        (DirtyKey::Contract(x), DirtyKey::Contract(y)) => {
            assert(x@ =~= s.subrange(13, 45));
            assert(y@ =~= s.subrange(13, 45));
            bytes::lemma_array_eq(x, y);
        },
        (DirtyKey::Nullifier(x), DirtyKey::Nullifier(y)) => {
            assert(x@ =~= s.subrange(13, 45));
            assert(y@ =~= s.subrange(13, 45));
            bytes::lemma_array_eq(x, y);
        },
        (DirtyKey::Validator(x), DirtyKey::Validator(y)) => {
            assert(x@ =~= s.subrange(12, 44));
            assert(y@ =~= s.subrange(12, 44));
            bytes::lemma_array_eq(x, y);
        },
        (DirtyKey::Token(x), DirtyKey::Token(y)) => {
            assert(bytes::le4(x) =~= s.subrange(13, 17));
            assert(bytes::le4(y) =~= s.subrange(13, 17));
            assert(bytes::of_le4(bytes::le4(x)) == x);
            assert(bytes::of_le4(bytes::le4(y)) == y);
        },
        (DirtyKey::Meta, DirtyKey::Meta) => {},
        _ => {
            assert(false);
        },
    }
}

// --- what the tree must hold ------------------------------------------------

/// The pairs of the tree at `root`.
pub open spec fn tree(nodes: Map<Seq<u8>, Seq<u8>>, root: Seq<u8>) -> smt_model::Pairs {
    choose|m: smt_model::Pairs| smt_model::stands_for(nodes, root, 0, m)
}

/// Whether entry `k` has the path `p` and is there, or is flagged.
pub open spec fn accounts_for(st: State, dirty: Seq<DirtyKey>, k: DirtyKey, p: Seq<u8>) -> bool {
    entry_path(k) == p && (leaf(st, k) is Some || dirty.contains(k))
}

/// Whether the pairs are right for the state, but for the entries in `dirty`.
pub open spec fn right_but_for(m: smt_model::Pairs, st: State, dirty: Seq<DirtyKey>) -> bool {
    &&& forall|k: DirtyKey|
        #![trigger entry_path(k)]
        leaf(st, k) is Some && !dirty.contains(k) ==> m.contains_key(entry_path(k))
            && m[entry_path(k)] == leaf(st, k)->0
    &&& forall|p: Seq<u8>| #[trigger]
        m.contains_key(p) ==> exists|k: DirtyKey| accounts_for(st, dirty, k, p)
}

/// Whether each path has in `m` what it has in one of the two others.
pub open spec fn mixes(m: smt_model::Pairs, a: smt_model::Pairs, b: smt_model::Pairs) -> bool {
    forall|p: Seq<u8>| #![trigger m.contains_key(p)] same_at(m, a, p) || same_at(m, b, p)
}

/// Whether two sets of pairs are the same at a path.
pub open spec fn same_at(m: smt_model::Pairs, a: smt_model::Pairs, p: Seq<u8>) -> bool {
    m.contains_key(p) == a.contains_key(p) && (m.contains_key(p) ==> m[p] == a[p])
}

/// Every string that is hashed on the way from the tree `a` to the tree of the
/// state: for the entries' paths, for the trees between, for stored leaves.
pub open spec fn hashed(
    nodes: Map<Seq<u8>, Seq<u8>>,
    a: smt_model::Pairs,
    st: State,
    dirty: Seq<DirtyKey>,
) -> Set<Seq<u8>> {
    Set::new(
        |x: Seq<u8>|
            {
                ||| exists|k: DirtyKey|
                    (leaf(st, k) is Some || dirty.contains(k)) && x == #[trigger] entry_string(k)
                ||| exists|m: smt_model::Pairs| #[trigger]
                    mixes(m, a, committed(st)) && smt_model::strings(m, 0).contains(x)
                ||| smt_model::leaf_strings(nodes).contains(x)
                ||| smt_model::strings(Map::empty(), 0).contains(x)
            },
    )
}

impl<B: KVStore> Ledger<B> {
    /// Whether the stored tree is right, but for the flagged entries.
    pub open spec fn synced(&self) -> bool {
        &&& smt_model::addressed(self.nodes())
        &&& exists|m: smt_model::Pairs| smt_model::stands_for(self.nodes(), self.root@, 0, m)
        &&& right_but_for(tree(self.nodes(), self.root@), self.state(), self.dirty@)
    }

    /// Whether the hash does not collide on the strings that computing the root
    /// hashes.
    pub open spec fn hash_safe(&self) -> bool {
        smt_model::collision_free(
            hashed(self.nodes(), tree(self.nodes(), self.root@), self.state(), self.dirty@),
        )
    }

    /// Whether it does not collide on those and the strings of another tree either.
    pub open spec fn hash_safe_with(&self, m: smt_model::Pairs) -> bool {
        smt_model::collision_free(
            hashed(
                self.nodes(),
                tree(self.nodes(), self.root@),
                self.state(),
                self.dirty@,
            ).union(smt_model::strings(m, 0)),
        )
    }
}

/// A new ledger's tree is right.
pub proof fn law_fresh_synced<B: KVStore>(l: Ledger<B>, zero: [u8; 64])
    requires
        ledger::fresh(l, zero),
        smt_model::addressed(l.nodes()),
    ensures
        l.synced(),
{
    smt_model::lemma_empty_tree(0);
    let none = Map::<Seq<u8>, Seq<u8>>::empty();
    assert(smt_model::stands_for(l.nodes(), l.root@, 0, none));
    smt_model::lemma_stands_unique(l.nodes(), l.root@, 0, none, tree(l.nodes(), l.root@));
    let st = l.state();
    assert(l.dirty@[0] == DirtyKey::Meta);
    assert forall|k: DirtyKey|
        #![trigger entry_path(k)]
        leaf(st, k) is Some && !l.dirty@.contains(k) implies false by {
        match k {
            DirtyKey::Meta => {
                assert(l.dirty@.contains(DirtyKey::Meta));
            },
            _ => {},
        }
    }
}

/// Flagging whatever changed keeps the tree right but for what is flagged.
pub proof fn law_marking_keeps_synced<B: KVStore>(was: Ledger<B>, now: Ledger<B>)
    requires
        was.synced(),
        now.root == was.root,
        now.nodes() == was.nodes(),
        forall|k: DirtyKey| was.dirty@.contains(k) ==> now.dirty@.contains(k),
        forall|k: DirtyKey|
            !now.dirty@.contains(k) ==> #[trigger] leaf(now.state(), k) == leaf(was.state(), k),
    ensures
        now.synced(),
{
    let m = tree(was.nodes(), was.root@);
    assert forall|k: DirtyKey|
        #![trigger entry_path(k)]
        leaf(now.state(), k) is Some && !now.dirty@.contains(k) implies m.contains_key(
        entry_path(k),
    ) && m[entry_path(k)] == leaf(now.state(), k)->0 by {
        assert(leaf(now.state(), k) == leaf(was.state(), k));
        assert(!was.dirty@.contains(k));
    }
    assert forall|p: Seq<u8>| #[trigger] m.contains_key(p) implies exists|k: DirtyKey|
        accounts_for(now.state(), now.dirty@, k, p) by {
        let k = choose|k: DirtyKey| accounts_for(was.state(), was.dirty@, k, p);
        assert(leaf(now.state(), k) == leaf(was.state(), k) || now.dirty@.contains(k));
        assert(accounts_for(now.state(), now.dirty@, k, p));
    }
}

/// Paths that are accounted for tell their entries apart.
proof fn lemma_paths(s: Set<Seq<u8>>, a: DirtyKey, b: DirtyKey)
    requires
        smt_model::collision_free(s),
        s.contains(entry_string(a)),
        s.contains(entry_string(b)),
        entry_path(a) == entry_path(b),
    ensures
        a == b,
{
    lemma_entry_string(a, b);
}

/// The pairs are the state's once nothing is flagged.
proof fn lemma_all_right(m: smt_model::Pairs, st: State, s: Set<Seq<u8>>)
    requires
        right_but_for(m, st, Seq::empty()),
        smt_model::collision_free(s),
        forall|k: DirtyKey| leaf(st, k) is Some ==> s.contains(#[trigger] entry_string(k)),
    ensures
        m == committed(st),
{
    let q = committed(st);
    assert forall|p: Seq<u8>| {
        &&& (#[trigger] m.dom().contains(p)) == q.dom().contains(p)
        &&& m.dom().contains(p) ==> m[p] == q[p]
    } by {
        if m.contains_key(p) {
            let k = choose|k: DirtyKey| accounts_for(st, Seq::empty(), k, p);
            assert(stands_at(st, k, p));
        }
        if q.contains_key(p) {
            let k = choose|k: DirtyKey| stands_at(st, k, p);
            assert(entry_path(k) == p);
            assert(m.contains_key(entry_path(k)) && m[entry_path(k)] == leaf(st, k)->0);
        }
    }
    assert(m =~= q);
}

/// What setting entry `k` right does to the pairs.
proof fn lemma_set_right(
    m: smt_model::Pairs,
    a: smt_model::Pairs,
    st: State,
    k: DirtyKey,
    rest: Seq<DirtyKey>,
    s: Set<Seq<u8>>,
)
    requires
        right_but_for(m, st, seq![k] + rest),
        mixes(m, a, committed(st)),
        smt_model::collision_free(s),
        s.contains(entry_string(k)),
        forall|j: DirtyKey| leaf(st, j) is Some ==> s.contains(#[trigger] entry_string(j)),
        forall|j: DirtyKey| rest.contains(j) ==> s.contains(#[trigger] entry_string(j)),
    ensures
        ({
            let n = match leaf(st, k) {
                Some(v) => m.insert(entry_path(k), v),
                None => m.remove(entry_path(k)),
            };
            right_but_for(n, st, rest) && mixes(n, a, committed(st))
        }),
{
    let p = entry_path(k);
    let q = committed(st);
    let n = match leaf(st, k) {
        Some(v) => m.insert(p, v),
        None => m.remove(p),
    };
    let dirty = seq![k] + rest;
    assert forall|j: DirtyKey| #[trigger] dirty.contains(j) == (j == k || rest.contains(j)) by {
        if rest.contains(j) {
            let i = choose|i: int| 0 <= i < rest.len() && rest[i] == j;
            assert(dirty[i + 1] == j);
        }
        if j == k {
            assert(dirty[0] == j);
        }
        if dirty.contains(j) {
            let i = choose|i: int| 0 <= i < dirty.len() && dirty[i] == j;
            if i > 0 {
                assert(rest[i - 1] == j);
            }
        }
    }
    assert forall|j: DirtyKey|
        #![trigger entry_path(j)]
        leaf(st, j) is Some && !rest.contains(j) implies n.contains_key(entry_path(j))
        && n[entry_path(j)] == leaf(st, j)->0 by {
        if j != k {
            assert(!dirty.contains(j));
            if entry_path(j) == p {
                lemma_paths(s, j, k);
            }
        }
    }
    assert forall|x: Seq<u8>| #[trigger] n.contains_key(x) implies exists|j: DirtyKey|
        accounts_for(st, rest, j, x) by {
        if x == p {
            assert(accounts_for(st, rest, k, x));
        } else {
            assert(m.contains_key(x));
            let j = choose|j: DirtyKey| accounts_for(st, dirty, j, x);
            assert(j != k);
            assert(dirty.contains(j) == rest.contains(j));
            assert(accounts_for(st, rest, j, x));
        }
    }
    assert forall|x: Seq<u8>| #![trigger n.contains_key(x)] same_at(n, a, x)
        || same_at(n, q, x) by {
        if x == p {
            if leaf(st, k) is Some {
                assert(stands_at(st, k, p));
                let j = choose|j: DirtyKey| stands_at(st, j, p);
                lemma_paths(s, j, k);
            } else if q.contains_key(p) {
                let j = choose|j: DirtyKey| stands_at(st, j, p);
                lemma_paths(s, j, k);
            }
            assert(same_at(n, q, x));
        } else {
            assert(m.contains_key(x) == n.contains_key(x));
        }
    }
}

proof fn lemma_subset_free(a: Set<Seq<u8>>, b: Set<Seq<u8>>)
    requires
        a.subset_of(b),
        smt_model::collision_free(b),
    ensures
        smt_model::collision_free(a),
{
}

// --- computing ---------------------------------------------------------------

/// An entry's path: the hash of its tag and id.
pub fn trie_key(k: &DirtyKey) -> (p: [u8; 32])
    ensures
        p@ == entry_path(*k),
{
    let mut b: Vec<u8> = vec![76u8, 65, 84, 45, 116, 114, 105, 101, 47];
    match k {
        DirtyKey::Account(id) => {
            let t: [u8; 4] = [97u8, 99, 99, 116];
            push_bytes(&mut b, t.as_slice());
            push_bytes(&mut b, id.as_slice());
        },
        DirtyKey::Token(id) => {
            let t: [u8; 4] = [116u8, 111, 107, 110];
            push_bytes(&mut b, t.as_slice());
            push_u32(&mut b, *id);
        },
        DirtyKey::Contract(id) => {
            let t: [u8; 4] = [99u8, 116, 114, 116];
            push_bytes(&mut b, t.as_slice());
            push_bytes(&mut b, id.as_slice());
        },
        DirtyKey::Nullifier(nf) => {
            let t: [u8; 4] = [110u8, 117, 108, 108];
            push_bytes(&mut b, t.as_slice());
            push_bytes(&mut b, nf.as_slice());
        },
        DirtyKey::Validator(id) => {
            let t: [u8; 3] = [118u8, 97, 108];
            push_bytes(&mut b, t.as_slice());
            push_bytes(&mut b, id.as_slice());
        },
        DirtyKey::Meta => {
            let t: [u8; 4] = [109u8, 101, 116, 97];
            push_bytes(&mut b, t.as_slice());
        },
    }
    assert(b@ =~= entry_string(*k));
    blake3_hash(&b)
}

/// An optional value by its bytes.
pub open spec fn bytes_view(v: Option<Vec<u8>>) -> Option<Seq<u8>> {
    match v {
        Some(v) => Some(v@),
        None => None,
    }
}

/// Whether the tree at `root` is right but for flagged entries that all exist, and the hash
/// does not collide on the trees between it and that of the state. Other stored nodes do
/// not matter then: nothing is removed.
pub open spec fn all_set(
    nodes: Map<Seq<u8>, Seq<u8>>,
    root: Seq<u8>,
    st: State,
    dirty: Seq<DirtyKey>,
) -> bool {
    let a = tree(nodes, root);
    &&& exists|m: smt_model::Pairs| smt_model::stands_for(nodes, root, 0, m)
    &&& right_but_for(a, st, dirty)
    &&& forall|k: DirtyKey| dirty.contains(k) ==> #[trigger] leaf(st, k) is Some
    &&& smt_model::collision_free(hashed(Map::empty(), a, st, dirty))
}

/// Set the tree at `root` right, one entry after the other. `None` where a node
/// on some path is missing.
#[verifier::rlimit(40)]
fn reconcile<S: KVStore>(
    store: &mut S,
    root: [u8; 32],
    updates: &Vec<([u8; 32], Option<Vec<u8>>)>,
    st: Ghost<State>,
    dirty: Ghost<Seq<DirtyKey>>,
) -> (r: Option<[u8; 32]>)
    requires
        updates@.len() == dirty@.len(),
        forall|i: int|
            0 <= i < updates@.len() ==> (#[trigger] updates@[i]).0@ == entry_path(dirty@[i])
                && bytes_view(updates@[i].1) == leaf(st@, dirty@[i]),
    ensures
        smt::same_elsewhere(old(store).holds(), final(store).holds()),
        final(store).under() == old(store).under(),
        smt::none_lost(
            smt::nodes_of(old(store).holds()),
            smt::nodes_of(final(store).holds()),
        ),
        ({
            let nodes = smt::nodes_of(old(store).holds());
            let after = smt::nodes_of(final(store).holds());
            let a = tree(nodes, root@);
            (smt_model::addressed(nodes) && (exists|m: smt_model::Pairs|
                smt_model::stands_for(nodes, root@, 0, m)) && right_but_for(a, st@, dirty@)
                && smt_model::collision_free(hashed(nodes, a, st@, dirty@))) ==> {
                &&& r is Some
                &&& (r->0)@ == smt_model::root_of(committed(st@))
                &&& smt_model::addressed(after)
                &&& smt_model::stands_for(after, (r->0)@, 0, committed(st@))
                &&& smt_model::leaf_strings(after).subset_of(hashed(nodes, a, st@, dirty@))
                &&& forall|h: Seq<u8>, m: smt_model::Pairs|
                    smt_model::stands_for(nodes, h, 0, m) && smt_model::collision_free(
                        hashed(nodes, a, st@, dirty@).union(smt_model::strings(m, 0)),
                    ) ==> #[trigger] smt_model::stands_for(after, h, 0, m)
            }
        }),
        ({
            let nodes = smt::nodes_of(old(store).holds());
            let after = smt::nodes_of(final(store).holds());
            all_set(nodes, root@, st@, dirty@) ==> {
                &&& r is Some
                &&& (r->0)@ == smt_model::root_of(committed(st@))
                &&& smt_model::stands_for(after, (r->0)@, 0, committed(st@))
                &&& smt_model::addressed(nodes) ==> smt_model::addressed(after)
            }
        }),
{
    let ghost held = store.holds();
    let ghost nodes = smt::nodes_of(held);
    let ghost a = tree(nodes, root@);
    let ghost s = hashed(nodes, a, st@, dirty@);
    let ghost good = smt_model::addressed(nodes) && (exists|m: smt_model::Pairs|
        smt_model::stands_for(nodes, root@, 0, m)) && right_but_for(a, st@, dirty@)
        && smt_model::collision_free(s);
    let ghost few = hashed(Map::empty(), a, st@, dirty@);
    let ghost plain = all_set(nodes, root@, st@, dirty@);
    let mut trie = Smt::from_root(store, root);
    let ghost last = *final(trie.store);
    let mut ok = true;
    let mut i: usize = 0;
    proof {
        assert(dirty@.skip(0) =~= dirty@);
        assert(mixes(a, a, committed(st@)));
        lemma_hashed(nodes, a, st@, dirty@);
        lemma_hashed(Map::empty(), a, st@, dirty@);
        if plain {
            assert(trie.nodes() == nodes);
            assert(trie.whole());
            assert(trie.pairs() == a);
        }
        if good {
            assert(trie.nodes() == nodes);
            assert(trie.valid());
            assert(trie.pairs() == a);
        }
    }
    while ok && i < updates.len()
        invariant
            i <= updates@.len(),
            updates@.len() == dirty@.len(),
            forall|i: int|
                0 <= i < updates@.len() ==> (#[trigger] updates@[i]).0@ == entry_path(dirty@[i])
                    && bytes_view(updates@[i].1) == leaf(st@, dirty@[i]),
            *final(trie.store) == last,
            smt::same_elsewhere(held, trie.store.holds()),
            trie.store.under() == old(store).under(),
            smt::none_lost(nodes, trie.nodes()),
            s == hashed(nodes, a, st@, dirty@),
            few == hashed(Map::empty(), a, st@, dirty@),
            plain == all_set(nodes, root@, st@, dirty@),
            a == tree(nodes, root@),
            smt_model::addressed(nodes) ==> smt_model::addressed(trie.nodes()),
            plain ==> {
                &&& ok
                &&& trie.whole()
                &&& right_but_for(trie.pairs(), st@, dirty@.skip(i as int))
                &&& mixes(trie.pairs(), a, committed(st@))
            },
            good ==> {
                &&& smt_model::collision_free(s)
                &&& ok
                &&& trie.valid()
                &&& right_but_for(trie.pairs(), st@, dirty@.skip(i as int))
                &&& mixes(trie.pairs(), a, committed(st@))
                &&& smt_model::leaf_strings(trie.nodes()).subset_of(s)
                &&& forall|h: Seq<u8>, m: smt_model::Pairs|
                    smt_model::stands_for(nodes, h, 0, m) && smt_model::collision_free(
                        s.union(smt_model::strings(m, 0)),
                    ) ==> #[trigger] smt_model::stands_for(trie.nodes(), h, 0, m)
            },
        decreases updates@.len() - i + (if ok { 1int } else { 0 }),
    {
        let ghost k = dirty@[i as int];
        let ghost rest = dirty@.skip(i + 1);
        let ghost before = trie;
        let ghost m = trie.pairs();
        let ghost n = match leaf(st@, k) {
            Some(v) => m.insert(entry_path(k), v),
            None => m.remove(entry_path(k)),
        };
        proof {
            assert(updates@[i as int].0@ == entry_path(k));
            if plain {
                assert(dirty@.skip(i as int) =~= seq![k] + rest);
                lemma_hashed(Map::empty(), a, st@, dirty@);
                assert(dirty@.contains(k));
                assert(leaf(st@, k) is Some);
                assert forall|j: DirtyKey| rest.contains(j) implies few.contains(
                    #[trigger] entry_string(j),
                ) by {
                    let x = choose|x: int| 0 <= x < rest.len() && rest[x] == j;
                    assert(dirty@[i + 1 + x] == j);
                    assert(dirty@.contains(j));
                }
                lemma_set_right(m, a, st@, k, rest, few);
                lemma_mixed(Map::empty(), a, st@, dirty@, m);
                lemma_mixed(Map::empty(), a, st@, dirty@, n);
                lemma_subset_free(
                    smt_model::strings(m, 0).union(smt_model::strings(n, 0)).union(
                        smt_model::strings(Map::empty(), 0),
                    ),
                    few,
                );
                smt_model::lemma_path_ok(trie.nodes(), trie.root@, 0, entry_path(k), m);
            }
            if good {
                assert(dirty@.skip(i as int) =~= seq![k] + rest);
                lemma_hashed(nodes, a, st@, dirty@);
                assert(dirty@.contains(k));
                assert forall|j: DirtyKey| rest.contains(j) implies s.contains(
                    #[trigger] entry_string(j),
                ) by {
                    let x = choose|x: int| 0 <= x < rest.len() && rest[x] == j;
                    assert(dirty@[i + 1 + x] == j);
                    assert(dirty@.contains(j));
                }
                lemma_set_right(m, a, st@, k, rest, s);
                lemma_mixed(nodes, a, st@, dirty@, m);
                lemma_mixed(nodes, a, st@, dirty@, n);
                let few = smt_model::strings(m, 0).union(smt_model::strings(n, 0)).union(
                    smt_model::strings(Map::empty(), 0),
                );
                lemma_subset_free(few, s);
                let more = few.union(smt_model::leaf_strings(trie.nodes()));
                lemma_subset_free(more, s);
            }
        }
        match &updates[i].1 {
            Some(v) => {
                match trie.try_update(&updates[i].0, v.as_slice()) {
                    Some(_) => {},
                    None => {
                        ok = false;
                    },
                }
            },
            None => {
                match trie.try_remove(&updates[i].0) {
                    Some(_) => {},
                    None => {
                        ok = false;
                    },
                }
            },
        }
        proof {
            lemma_elsewhere(held, before.store.holds(), trie.store.holds());
            if good {
                assert forall|h: Seq<u8>, o: smt_model::Pairs|
                    smt_model::stands_for(nodes, h, 0, o) && smt_model::collision_free(
                        s.union(smt_model::strings(o, 0)),
                    ) implies #[trigger] smt_model::stands_for(trie.nodes(), h, 0, o) by {
                    assert(smt_model::stands_for(before.nodes(), h, 0, o));
                    let few = smt_model::strings(o, 0).union(smt_model::strings(n, 0)).union(
                        smt_model::strings(Map::empty(), 0),
                    );
                    lemma_mixed(nodes, a, st@, dirty@, n);
                    lemma_subset_free(few, s.union(smt_model::strings(o, 0)));
                    lemma_subset_free(
                        few.union(smt_model::leaf_strings(before.nodes())),
                        s.union(smt_model::strings(o, 0)),
                    );
                }
            }
        }
        i += 1;
    }
    proof {
        if plain {
            assert(dirty@.skip(i as int) =~= Seq::empty());
            lemma_all_right(trie.pairs(), st@, few);
            smt_model::lemma_stands_hash(trie.nodes(), trie.root@, 0, trie.pairs());
        }
        if good {
            assert(dirty@.skip(i as int) =~= Seq::empty());
            lemma_all_right(trie.pairs(), st@, s);
            smt_model::lemma_stands_hash(trie.nodes(), trie.root@, 0, trie.pairs());
        }
    }
    if ok {
        Some(trie.root)
    } else {
        None
    }
}

proof fn lemma_elsewhere(a: store::Contents, b: store::Contents, c: store::Contents)
    requires
        smt::same_elsewhere(a, b),
        smt::same_elsewhere(b, c) || c == b,
    ensures
        smt::same_elsewhere(a, c),
{
    assert forall|col: Column, k: Seq<u8>|
        #![trigger c.contains_key((col, k))]
        col != Column::State implies c.contains_key((col, k)) == a.contains_key((col, k)) && (
    a.contains_key((col, k)) ==> c[(col, k)] == a[(col, k)]) by {
        assert(b.contains_key((col, k)) == a.contains_key((col, k)));
        assert(c.contains_key((col, k)) == b.contains_key((col, k)));
    }
}

/// The strings of the entries and of stored leaves are among those hashed.
proof fn lemma_hashed(
    nodes: Map<Seq<u8>, Seq<u8>>,
    a: smt_model::Pairs,
    st: State,
    dirty: Seq<DirtyKey>,
)
    ensures
        forall|k: DirtyKey|
            leaf(st, k) is Some || dirty.contains(k) ==> hashed(nodes, a, st, dirty).contains(
                #[trigger] entry_string(k),
            ),
        smt_model::leaf_strings(nodes).subset_of(hashed(nodes, a, st, dirty)),
        smt_model::strings(Map::empty(), 0).subset_of(hashed(nodes, a, st, dirty)),
{
}

/// The strings of a tree between are among those hashed.
proof fn lemma_mixed(
    nodes: Map<Seq<u8>, Seq<u8>>,
    a: smt_model::Pairs,
    st: State,
    dirty: Seq<DirtyKey>,
    m: smt_model::Pairs,
)
    requires
        mixes(m, a, committed(st)),
    ensures
        smt_model::strings(m, 0).subset_of(hashed(nodes, a, st, dirty)),
{
}

/// Outside the trie's column nothing changed, so neither did the records.
proof fn lemma_objects_kept(a: store::Contents, b: store::Contents)
    requires
        smt::same_elsewhere(a, b),
    ensures
        forall|c: Column|
            c != Column::State ==> #[trigger] store::column(b, c) == store::column(a, c),
{
    assert forall|c: Column| c != Column::State implies #[trigger] store::column(b, c)
        == store::column(a, c) by {
        assert forall|k: Seq<u8>| {
            &&& (#[trigger] store::column(b, c).dom().contains(k)) == store::column(
                a,
                c,
            ).dom().contains(k)
            &&& store::column(b, c).dom().contains(k) ==> store::column(b, c)[k] == store::column(
                a,
                c,
            )[k]
        } by {
            assert(b.contains_key((c, k)) == a.contains_key((c, k)));
        }
        assert(store::column(b, c) =~= store::column(a, c));
    }
}

/// Whether two ledgers are the same but for the tree, its root and its flags.
pub open spec fn same_state<B: KVStore>(was: Ledger<B>, now: Ledger<B>) -> bool {
    &&& now.next_token_id == was.next_token_id
    &&& now.max_validators == was.max_validators
    &&& now.zero == was.zero
    &&& forall|c: Column|
        c != Column::State ==> #[trigger] store::column(now.store.holds(), c) == store::column(
            was.store.holds(),
            c,
        )
    &&& now.state() == was.state()
}

/// What computing the state root does to a ledger: it brings the flagged entries into the
/// tree, and changes nothing else, the base least of all. No node goes, and every root that
/// could be read still can.
pub open spec fn rooted<B: KVStore>(was: Ledger<B>, now: Ledger<B>, r: Option<[u8; 32]>) -> bool {
    &&& same_state(was, now)
    &&& now.store.base_value() == was.store.base_value()
    &&& smt::none_lost(was.nodes(), now.nodes())
    &&& match r {
        Some(root) => now.root == root && now.dirty@.len() == 0,
        None => now.root == was.root && now.dirty@ == was.dirty@,
    }
    &&& all_set(was.nodes(), was.root@, was.state(), was.dirty@) ==> {
        &&& r is Some
        &&& (r->0)@ == smt_model::root_of(committed(was.state()))
        &&& smt_model::stands_for(now.nodes(), now.root@, 0, committed(was.state()))
        &&& tree(now.nodes(), now.root@) == committed(was.state())
        &&& smt_model::addressed(was.nodes()) ==> now.synced()
    }
    &&& was.synced() && was.hash_safe() ==> {
        &&& r is Some
        &&& (r->0)@ == smt_model::root_of(committed(was.state()))
        &&& now.synced()
        &&& tree(now.nodes(), now.root@) == committed(was.state())
        &&& forall|h: Seq<u8>, m: smt_model::Pairs|
            smt_model::stands_for(was.nodes(), h, 0, m) && was.hash_safe_with(m)
                ==> #[trigger] smt_model::stands_for(now.nodes(), h, 0, m)
    }
}

/// What a sweep leaves of a ledger's tree: the nodes under its root and the retained
/// ones, and their count beside that of the nodes that went.
pub open spec fn swept<B: KVStore>(
    was: Ledger<B>,
    now: Ledger<B>,
    retain: Seq<[u8; 32]>,
    stats: PruneStats,
) -> bool {
    &&& now.store.holds() == smt::pruned(was.store.holds(), seq![was.root] + retain)
    &&& was.nodes().dom().finite()
    &&& stats.kept == now.nodes().dom().len()
    &&& stats.dropped == was.nodes().dom().len() - stats.kept
    &&& forall|i: int, m: smt_model::Pairs|
        0 <= i < retain.len() && smt_model::stands_for(was.nodes(), retain[i]@, 0, m)
            ==> #[trigger] smt_model::stands_for(now.nodes(), retain[i]@, 0, m)
}

/// What pruning does to a ledger: its root is computed, then the tree is swept.
pub open spec fn rooted_and_swept<B: KVStore>(
    was: Ledger<B>,
    now: Ledger<B>,
    retain: Seq<[u8; 32]>,
    stats: PruneStats,
) -> bool {
    exists|mid: Ledger<B>|
        rooted(was, mid, Some(now.root)) && #[trigger] swept(mid, now, retain, stats)
}

/// What pruning does to a ledger. Where the tree is whole, its root and every retained one
/// read as they did.
pub open spec fn pruned<B: KVStore>(
    was: Ledger<B>,
    now: Ledger<B>,
    retain: Seq<[u8; 32]>,
    r: Option<PruneStats>,
) -> bool {
    &&& same_state(was, now)
    &&& match r {
        Some(stats) => {
            &&& now.dirty@.len() == 0
            &&& now.store.is_flushed()
            &&& rooted_and_swept(was, now, retain, stats)
        },
        None => rooted(was, now, None),
    }
    &&& was.synced() && was.hash_safe() ==> {
        &&& r is Some
        &&& now.synced()
        &&& now.root@ == smt_model::root_of(committed(was.state()))
        &&& forall|i: int, m: smt_model::Pairs|
            0 <= i < retain.len() && smt_model::stands_for(was.nodes(), retain[i]@, 0, m)
                && was.hash_safe_with(m) ==> #[trigger] smt_model::stands_for(
                now.nodes(),
                retain[i]@,
                0,
                m,
            )
    }
}

impl<B: KVStore> Ledger<B> {
    /// An entry's leaf, or `None` where the entry no longer exists.
    fn trie_leaf(&self, k: &DirtyKey) -> (r: Option<Vec<u8>>)
        requires
            self.wf(),
        ensures
            bytes_view(r) == leaf(self.state(), *k),
    {
        let ghost st = self.state();
        match k {
            DirtyKey::Account(id) => {
                let a = self.account(id)?;
                let mut b: Vec<u8> = vec![76u8, 65, 84, 45, 115, 116, 97, 116, 101, 45, 97, 99, 99,
                    116];
                push_bytes(&mut b, id.as_slice());
                push_account(&mut b, &a);
                assert(b@ =~= account_leaf(id@, st));
                Some(b)
            },
            DirtyKey::Token(id) => {
                let t = self.token_by_id(*id)?;
                let mut b: Vec<u8> = vec![76u8, 65, 84, 45, 115, 116, 97, 116, 101, 45, 116, 111,
                    107, 101, 110];
                push_token(&mut b, &t);
                assert(b@ =~= seq![76u8, 65, 84, 45, 115, 116, 97, 116, 101, 45, 116, 111, 107, 101,
                    110] + records::token_bytes(st.tokens[*id]));
                Some(b)
            },
            DirtyKey::Contract(id) => {
                let c = self.contract(id)?;
                let mut b: Vec<u8> = vec![76u8, 65, 84, 45, 115, 116, 97, 116, 101, 45, 99, 111,
                    110, 116, 114, 97, 99, 116];
                push_bytes(&mut b, id.as_slice());
                push_contract(&mut b, &c);
                assert(b@ =~= seq![76u8, 65, 84, 45, 115, 116, 97, 116, 101, 45, 99, 111, 110, 116,
                    114, 97, 99, 116] + id@ + records::contract_bytes(st.contracts[id@]));
                Some(b)
            },
            DirtyKey::Nullifier(nf) => {
                if self.nullifier_seen(nf) {
                    let b: Vec<u8> = vec![1u8];
                    assert(b@ =~= seq![1u8]);
                    Some(b)
                } else {
                    None
                }
            },
            DirtyKey::Validator(id) => {
                let v = self.validator(id)?;
                let mut b: Vec<u8> = vec![76u8, 65, 84, 45, 115, 116, 97, 116, 101, 45, 118, 97,
                    108];
                push_bytes(&mut b, id.as_slice());
                push_validator(&mut b, &v);
                assert(b@ =~= seq![76u8, 65, 84, 45, 115, 116, 97, 116, 101, 45, 118, 97, 108] + id@
                    + records::validator_bytes(st.validators[id@]));
                Some(b)
            },
            DirtyKey::Meta => {
                let mut b: Vec<u8> = Vec::new();
                push_u32(&mut b, self.next_token_id);
                assert(b@ =~= bytes::le4(self.next_token_id));
                Some(b)
            },
        }
    }

    /// The canonical, deterministic state root: it depends on the state alone.
    /// Brings the flagged entries into the tree first. `None` where the store
    /// lost a node of the tree.
    pub fn state_root(&mut self) -> (r: Option<[u8; 32]>)
        requires
            old(self).wf(),
        ensures
            final(self).wf(),
            rooted(*old(self), *final(self), r),
    {
        let ghost st = self.state();
        let ghost dirty = self.dirty@;
        let ghost held = self.store.holds();
        let mut updates: Vec<([u8; 32], Option<Vec<u8>>)> = Vec::new();
        let mut i: usize = 0;
        while i < self.dirty.len()
            invariant
                self.wf(),
                *self == *old(self),
                st == self.state(),
                dirty == self.dirty@,
                i <= dirty.len(),
                updates@.len() == i,
                forall|j: int|
                    0 <= j < i ==> (#[trigger] updates@[j]).0@ == entry_path(dirty[j])
                        && bytes_view(updates@[j].1) == leaf(st, dirty[j]),
            decreases dirty.len() - i,
        {
            let p = trie_key(&self.dirty[i]);
            let v = self.trie_leaf(&self.dirty[i]);
            updates.push((p, v));
            i += 1;
        }
        let root = self.root;
        let r = reconcile(&mut self.store, root, &updates, Ghost(st), Ghost(dirty));
        proof {
            lemma_objects_kept(held, self.store.holds());
        }
        match r {
            Some(root) => {
                self.root = root;
                self.dirty = Vec::new();
                proof {
                    if all_set(old(self).nodes(), old(self).root@, st, dirty) {
                        let m = committed(st);
                        let nodes = self.nodes();
                        smt_model::lemma_stands_unique(nodes, root@, 0, m, tree(nodes, root@));
                        lemma_committed_right(
                            Map::empty(),
                            tree(old(self).nodes(), old(self).root@),
                            st,
                            dirty,
                        );
                        assert(self.dirty@ =~= Seq::empty());
                    }
                    if old(self).synced() && old(self).hash_safe() {
                        let m = committed(st);
                        let nodes = self.nodes();
                        smt_model::lemma_stands_unique(nodes, root@, 0, m, tree(nodes, root@));
                        lemma_committed_right(
                            old(self).nodes(),
                            tree(old(self).nodes(), old(self).root@),
                            st,
                            dirty,
                        );
                        assert(self.dirty@ =~= Seq::empty());
                    }
                }
                Some(root)
            },
            None => None,
        }
    }

    /// A proof that `id`'s account is committed by the current state root. `None`
    /// if it is not registered (or the store lost a node of the tree).
    #[verifier::rlimit(40)]
    pub fn account_proof(&mut self, id: &[u8; 32]) -> (r: Option<AccountProof>)
        requires
            old(self).wf(),
        ensures
            final(self).wf(),
            same_state(*old(self), *final(self)),
            final(self).store.base_value() == old(self).store.base_value(),
            !old(self).state().registered(id@) ==> r is None,
            match r {
                Some(p) => p.preimage@ == account_leaf(id@, old(self).state()),
                None => true,
            },
            old(self).synced() && old(self).hash_safe() ==> {
                &&& final(self).synced()
                &&& r is Some == old(self).state().registered(id@)
                &&& r is Some ==> proves_account(
                    smt_model::root_of(committed(old(self).state())),
                    r->0,
                )
            },
    {
        let ghost st = self.state();
        let key = DirtyKey::Account(*id);
        let preimage = match self.trie_leaf(&key) {
            Some(p) => p,
            None => {
                self.state_root();
                return None;
            },
        };
        let root = match self.state_root() {
            Some(root) => root,
            None => {
                return None;
            },
        };
        let path = trie_key(&key);
        let ghost held = self.store.holds();
        let ghost nodes = self.nodes();
        let trie = Smt::from_root(&mut self.store, root);
        let found = trie.try_prove(&path);
        proof {
            if old(self).synced() && old(self).hash_safe() {
                assert(trie.valid());
                let m = trie.pairs();
                assert(m == tree(nodes, root@));
                assert(entry_path(key) == path@);
                lemma_committed_right(
                    old(self).nodes(),
                    tree(old(self).nodes(), old(self).root@),
                    st,
                    old(self).dirty@,
                );
                assert(m.contains_key(entry_path(key)) && m[entry_path(key)] == leaf(st, key)->0);
                assert(preimage@.subrange(14, 46) =~= id@);
            }
        }
        match found {
            Some(found) => Some(AccountProof { preimage, found }),
            None => None,
        }
    }

    /// Drop from the committed base every tree node that is unreachable from the
    /// current state root and from the `retain` roots. Nothing changes for the
    /// current state and the retained roots; other roots become unreadable.
    /// `None`, with nothing dropped, where the store lost a node of the tree.
    pub fn prune_history(&mut self, retain: &[[u8; 32]]) -> (r: Option<PruneStats>)
        requires
            old(self).wf(),
        ensures
            final(self).wf(),
            pruned(*old(self), *final(self), retain@, r),
    {
        let root = match self.state_root() {
            Some(root) => root,
            None => {
                return None;
            },
        };
        let mut roots: Vec<[u8; 32]> = vec![root];
        let mut i: usize = 0;
        while i < retain.len()
            invariant
                i <= retain@.len(),
                roots@ == seq![root] + retain@.take(i as int),
            decreases retain@.len() - i,
        {
            roots.push(retain[i]);
            assert(roots@ =~= seq![root] + retain@.take(i + 1));
            i += 1;
        }
        assert(retain@.take(i as int) =~= retain@);
        let ghost mid = *self;
        self.flush();
        let ghost held = self.store.holds();
        let ghost nodes = self.nodes();
        let stats = prune(self.store.base_mut(), roots.as_slice());
        proof {
            let now = self.store.holds();
            assert(now == smt::pruned(held, roots@));
            assert forall|i: int, m: smt_model::Pairs|
                0 <= i < retain@.len() && smt_model::stands_for(
                    nodes,
                    retain@[i]@,
                    0,
                    m,
                ) implies #[trigger] smt_model::stands_for(self.nodes(), retain@[i]@, 0, m) by {
                assert(roots@[i + 1] == retain@[i]);
                assert(smt_model::stands_for(self.nodes(), roots@[i + 1]@, 0, m));
            }
            assert(swept(mid, *self, retain@, stats));
            assert forall|c: Column| c != Column::State implies #[trigger] store::column(now, c)
                == store::column(held, c) by {
                assert(store::column(now, c) =~= store::column(held, c));
            }
            assert(roots@[0] == root);
            if old(self).synced() && old(self).hash_safe() {
                let m = tree(nodes, root@);
                assert(smt_model::stands_for(self.nodes(), roots@[0]@, 0, m));
                smt_model::lemma_stands_unique(
                    self.nodes(),
                    root@,
                    0,
                    m,
                    tree(self.nodes(), root@),
                );
                assert forall|h: Seq<u8>| #[trigger] self.nodes().contains_key(h)
                    implies nodes.contains_key(h)
                    && nodes[h] == self.nodes()[h] by {}
            }
        }
        assert(rooted_and_swept(*old(self), *self, retain@, stats));
        Some(stats)
    }
}

/// The state's own pairs are right for it.
proof fn lemma_committed_right(
    nodes: Map<Seq<u8>, Seq<u8>>,
    a: smt_model::Pairs,
    st: State,
    dirty: Seq<DirtyKey>,
)
    requires
        smt_model::collision_free(hashed(nodes, a, st, dirty)),
    ensures
        right_but_for(committed(st), st, Seq::empty()),
{
    let s = hashed(nodes, a, st, dirty);
    let q = committed(st);
    lemma_hashed(nodes, a, st, dirty);
    assert forall|k: DirtyKey|
        #![trigger entry_path(k)]
        leaf(st, k) is Some implies q.contains_key(entry_path(k)) && q[entry_path(k)] == leaf(
        st,
        k,
    )->0 by {
        assert(stands_at(st, k, entry_path(k)));
        let j = choose|j: DirtyKey| stands_at(st, j, entry_path(k));
        lemma_paths(s, j, k);
    }
    assert forall|p: Seq<u8>| #[trigger] q.contains_key(p) implies exists|k: DirtyKey|
        accounts_for(st, Seq::empty(), k, p) by {
        let k = choose|k: DirtyKey| stands_at(st, k, p);
        assert(accounts_for(st, Seq::empty(), k, p));
    }
}

// --- light clients -------------------------------------------------------------

/// A light client's inclusion proof for one account.
#[derive(Debug, Clone)]
pub struct AccountProof {
    /// The bytes the account's leaf commits to: a tag, the account id, and the
    /// record.
    pub preimage: Vec<u8>,
    /// The path to the root.
    pub found: Proof,
}

/// Whether a proof shows against `root` that its account is committed.
pub open spec fn proves_account(root: Seq<u8>, p: AccountProof) -> bool {
    &&& p.preimage@.len() >= 46
    &&& smt::accepts(
        root,
        hashing::digest(seq![76u8, 65, 84, 45, 116, 114, 105, 101, 47]
            + (seq![97u8, 99, 99, 116] + p.preimage@.subrange(14, 46))),
        Some(p.preimage@),
        p.found,
    )
}

impl AccountProof {
    /// The account id this proof is about: the 32 bytes after the tag.
    pub fn account_id(&self) -> (r: Option<[u8; 32]>)
        ensures
            match r {
                Some(id) => self.preimage@.len() >= 46 && id@ == self.preimage@.subrange(14, 46),
                None => self.preimage@.len() < 46,
            },
    {
        if self.preimage.len() < 46 {
            return None;
        }
        Some(array_at::<32>(self.preimage.as_slice(), 14))
    }
}

/// Verify a proof against a claimed state root: that the path of the account it
/// names commits to just these bytes.
pub fn verify_account_proof(root: &[u8; 32], p: &AccountProof) -> (r: bool)
    ensures
        r == proves_account(root@, *p),
{
    match p.account_id() {
        None => false,
        Some(id) => {
            let key = DirtyKey::Account(id);
            let path = trie_key(&key);
            assert(entry_string(key) == seq![76u8, 65, 84, 45, 116, 114, 105, 101, 47]
                + (seq![97u8, 99, 99, 116] + id@));
            verify(root, &path, Some(p.preimage.as_slice()), &p.found)
        },
    }
}

/// An accepted account proof tells the truth: the account is registered in the
/// state behind the root, and the bytes are its leaf; unless the hash collides
/// on the strings of the state's tree, of its entries and of the proof.
pub proof fn law_account_proof_sound(st: State, p: AccountProof, s: Set<Seq<u8>>)
    requires
        proves_account(smt_model::root_of(committed(st)), p),
        smt_model::collision_free(s),
        smt_model::strings(committed(st), 0).subset_of(s),
        p.found.hashed_strings(
            hashing::digest(seq![76u8, 65, 84, 45, 116, 114, 105, 101, 47]
                + (seq![97u8, 99, 99, 116] + p.preimage@.subrange(14, 46))),
        ).subset_of(s),
        s.contains(seq![76u8, 65, 84, 45, 116, 114, 105, 101, 47]
            + (seq![97u8, 99, 99, 116] + p.preimage@.subrange(14, 46))),
        forall|k: DirtyKey| leaf(st, k) is Some ==> s.contains(#[trigger] entry_string(k)),
    ensures
        st.registered(p.preimage@.subrange(14, 46)),
        p.preimage@ == account_leaf(p.preimage@.subrange(14, 46), st),
{
    let id = p.preimage@.subrange(14, 46);
    let x = seq![76u8, 65, 84, 45, 116, 114, 105, 101, 47] + (seq![97u8, 99, 99, 116] + id);
    let path = hashing::digest(x);
    let m = committed(st);
    assert(smt_model::keyed(m)) by {
        assert forall|q: Seq<u8>| #[trigger] m.contains_key(q) implies q.len() == 32 by {
            let k = choose|k: DirtyKey| stands_at(st, k, q);
            assert(entry_path(k) == q);
        }
    }
    smt::law_proofs_sound(m, path, Some(p.preimage@), p.found, s);
    let k = choose|k: DirtyKey| stands_at(st, k, path);
    assert(entry_string(k) == x);
    let y = entry_string(k);
    assert(y[9] == 97 && y[10] == 99 && y.len() == 45);
    match k {
        DirtyKey::Account(a) => {
            assert(y.subrange(13, 45) =~= a@);
            assert(x.subrange(13, 45) =~= id);
        },
        _ => {
            broadcast use bytes::group_le;

        },
    }
}

} // verus!
