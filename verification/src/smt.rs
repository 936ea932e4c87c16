//! Authenticated state trie: a compact sparse Merkle tree kept in a
//! [`KVStore`].
//!
//! Changing one key rehashes only the nodes on that key's path; unchanged
//! subtrees are reused straight from storage. The tree yields succinct proofs
//! of presence and of absence.
//!
//! Keys are 256-bit paths, bit 0 the most significant bit of byte 0. The tree is
//! a full binary tree of depth 256 whose empty subtrees collapse to precomputed
//! default hashes. Only nodes that matter are stored: a leaf, for a single pair
//! in an otherwise empty subtree, and an internal node with two children. A
//! node's storage key is its own hash, so stored nodes never change.
//!
//! ```text
//! leaf(key, value)      = H(0x00 | key | H(value))
//! internal(left, right) = H(0x01 | left | right)
//! empty subtree @ 256   = H("LAT-smt-v1/empty")
//! empty subtree @ d<256 = internal(empty@d+1, empty@d+1)
//! ```

use vstd::prelude::*;

use crate::byte_map;
use crate::byte_map::ByteMap;
use crate::bytes::{array_at, copy_bytes, copy_range, push_bytes, same_bytes, same_hash};
use crate::hashing;
use crate::hashing::blake3_hash;
use crate::smt_model;
use crate::store;
use crate::store::{Column, KVStore, WriteBatch};

verus! {

/// Number of bits in a key path (the tree's depth).
pub const KEY_BITS: usize = 256;

/// A 32-byte node or subtree hash.
pub type Hash = [u8; 32];

// --- hashing primitives -----------------------------------------------------

fn hash_leaf(key: &[u8; 32], value: &[u8]) -> (h: [u8; 32])
    ensures
        h@ == smt_model::leaf_hash(key@, value@),
{
    let mut b: Vec<u8> = vec![0x00u8];
    push_bytes(&mut b, key.as_slice());
    push_bytes(&mut b, blake3_hash(value).as_slice());
    assert(b@ =~= smt_model::leaf_string(key@, value@));
    blake3_hash(&b)
}

fn hash_internal(left: &[u8; 32], right: &[u8; 32]) -> (h: [u8; 32])
    ensures
        h@ == smt_model::internal_hash(left@, right@),
{
    let mut b: Vec<u8> = vec![0x01u8];
    push_bytes(&mut b, left.as_slice());
    push_bytes(&mut b, right.as_slice());
    assert(b@ =~= smt_model::internal_string(left@, right@));
    blake3_hash(&b)
}

/// The default (empty-subtree) hash for every depth from 0 to 256.
pub struct Defaults {
    hashes: Vec<[u8; 32]>,
}

impl Defaults {
    #[verifier::type_invariant]
    spec fn inv(self) -> bool {
        &&& self.hashes@.len() == 257
        &&& forall|d: int|
            0 <= d <= 256 ==> (#[trigger] self.hashes@[d])@ == smt_model::empty_hash(d)
    }

    /// The default hash at depth `d`.
    fn at(&self, d: usize) -> (h: [u8; 32])
        requires
            d <= 256,
        ensures
            h@ == smt_model::empty_hash(d as int),
    {
        proof {
            use_type_invariant(self);
        }
        self.hashes[d]
    }
}

/// The default (empty-subtree) hashes.
fn defaults() -> (r: Defaults)
    ensures
        r.hashes@.len() == KEY_BITS + 1,
        forall|d: int|
            0 <= d <= KEY_BITS ==> (#[trigger] r.hashes@[d])@ == smt_model::empty_hash(d),
{
    let empty: [u8; 16] = [
        76,
        65,
        84,
        45,
        115,
        109,
        116,
        45,
        118,
        49,
        47,
        101,
        109,
        112,
        116,
        121,
    ];
    assert(empty@ =~= smt_model::empty_string());
    let mut rev: Vec<[u8; 32]> = Vec::new();
    rev.push(blake3_hash(empty.as_slice()));
    while rev.len() < 257
        invariant
            1 <= rev@.len() <= 257,
            forall|i: int|
                0 <= i < rev@.len() ==> (#[trigger] rev@[i])@ == smt_model::empty_hash(256 - i),
        decreases 257 - rev@.len(),
    {
        let last = rev[rev.len() - 1];
        let h = hash_internal(&last, &last);
        rev.push(h);
    }
    let mut hashes: Vec<[u8; 32]> = Vec::new();
    while hashes.len() < 257
        invariant
            rev@.len() == 257,
            hashes@.len() <= 257,
            forall|i: int|
                0 <= i < rev@.len() ==> (#[trigger] rev@[i])@ == smt_model::empty_hash(256 - i),
            forall|d: int|
                0 <= d < hashes@.len() ==> (#[trigger] hashes@[d])@ == smt_model::empty_hash(d),
        decreases 257 - hashes@.len(),
    {
        let d = hashes.len();
        assert(rev@[256 - d]@ == smt_model::empty_hash(d as int));
        hashes.push(rev[256 - d]);
    }
    Defaults { hashes }
}

/// The root of an empty tree: the state root of a ledger with no entries.
pub fn empty_root() -> (h: [u8; 32])
    ensures
        h@ == smt_model::root_of(Map::empty()),
{
    proof {
        smt_model::lemma_empty_tree(0);
    }
    defaults().at(0)
}

/// The i-th bit of `key` from the most significant end.
fn bit(key: &[u8; 32], i: usize) -> (b: bool)
    requires
        i < 256,
    ensures
        b == smt_model::bit(key@, i as int),
{
    (key[i / 8] >> ((7 - i % 8) as u8)) & 1u8 == 1u8
}

/// A branching with `this` on the side that `b` names.
fn join(b: bool, this: &[u8; 32], other: &[u8; 32]) -> (h: [u8; 32])
    ensures
        h@ == smt_model::join(b, this@, other@),
{
    if b {
        hash_internal(other, this)
    } else {
        hash_internal(this, other)
    }
}

/// Root hash of the subtree at `depth` that holds exactly one pair: the leaf's
/// hash folded up from the bottom, with the default hash on the empty side at
/// each level.
fn single_leaf_subtree_hash(defs: &Defaults, depth: usize, key: &[u8; 32], value: &[u8]) -> (h: [u8;
    32])
    requires
        depth <= 256,
    ensures
        h@ == smt_model::leaf_at(key@, value@, depth as int),
{
    let mut cur = hash_leaf(key, value);
    let mut d: usize = 256;
    while d > depth
        invariant
            depth <= d <= 256,
            cur@ == smt_model::leaf_at(key@, value@, d as int),
        decreases d,
    {
        d -= 1;
        let sib = defs.at(d + 1);
        cur = join(bit(key, d), &cur, &sib);
    }
    cur
}

// --- node encoding ----------------------------------------------------------

enum Node {
    Leaf { key: [u8; 32], value: Vec<u8> },
    Internal { left: [u8; 32], right: [u8; 32] },
}

impl Node {
    spec fn deep(&self) -> smt_model::NodeView {
        match self {
            Node::Leaf { key, value } => smt_model::NodeView::Leaf { key: key@, value: value@ },
            Node::Internal { left, right } => smt_model::NodeView::Internal {
                left: left@,
                right: right@,
            },
        }
    }

    fn encode(&self) -> (b: Vec<u8>)
        ensures
            b@ == smt_model::encoded(self.deep()),
    {
        match self {
            Node::Leaf { key, value } => {
                let mut v: Vec<u8> = vec![0x00u8];
                push_bytes(&mut v, key.as_slice());
                push_bytes(&mut v, value.as_slice());
                assert(v@ =~= smt_model::encoded(self.deep()));
                v
            },
            Node::Internal { left, right } => {
                let mut v: Vec<u8> = vec![0x01u8];
                push_bytes(&mut v, left.as_slice());
                push_bytes(&mut v, right.as_slice());
                assert(v@ =~= smt_model::encoded(self.deep()));
                v
            },
        }
    }

    fn decode(b: &[u8]) -> (r: Option<Node>)
        ensures
            match r {
                Some(n) => smt_model::decoded(b@) == Some(n.deep()),
                None => smt_model::decoded(b@) is None,
            },
    {
        if b.len() >= 33 && b[0] == 0x00 {
            Some(Node::Leaf { key: array_at::<32>(b, 1), value: copy_range(b, 33, b.len()) })
        } else if b.len() >= 65 && b[0] == 0x01 {
            Some(Node::Internal { left: array_at::<32>(b, 1), right: array_at::<32>(b, 33) })
        } else {
            None
        }
    }
}

// --- proofs -----------------------------------------------------------------

/// What sits at the end of a proof path.
#[derive(Debug, Clone, PartialEq, Eq)]
pub enum Terminal {
    /// The queried subtree is empty (basis for a non-membership proof).
    Empty,
    /// A leaf occupies the queried subtree. If `key` equals the queried key this
    /// is an inclusion proof; if it differs it is a non-membership proof (a
    /// different key already owns that path prefix).
    Leaf { key: [u8; 32], value: Vec<u8> },
}

/// A Merkle proof: the sibling hash at each descended level (top-down) plus the
/// terminal node. Checked against a root with [`verify`].
#[derive(Debug, Clone, PartialEq, Eq)]
pub struct Proof {
    /// Sibling hashes from the root downward; their number is the depth at which
    /// descent stopped.
    pub siblings: Vec<[u8; 32]>,
    pub terminal: Terminal,
}

/// The hash of the subtree at depth `d` that a terminal stands for.
pub open spec fn terminal_hash(t: Terminal, d: int) -> Seq<u8> {
    match t {
        Terminal::Empty => smt_model::empty_hash(d),
        Terminal::Leaf { key, value } => smt_model::leaf_at(key@, value@, d),
    }
}

/// The pairs a terminal shows to be in its subtree.
pub open spec fn terminal_pairs(t: Terminal) -> smt_model::Pairs {
    match t {
        Terminal::Empty => Map::empty(),
        Terminal::Leaf { key, value } => smt_model::one(key@, value@),
    }
}

/// The hash at depth `d` on the path of `key`, from the siblings below and the
/// hash the path ends in.
pub open spec fn path_hash(siblings: Seq<[u8; 32]>, end: Seq<u8>, key: Seq<u8>, d: int) -> Seq<u8>
    decreases siblings.len() - d,
{
    if d >= siblings.len() {
        end
    } else {
        smt_model::join(
            smt_model::bit(key, d),
            path_hash(siblings, end, key, d + 1),
            siblings[d]@,
        )
    }
}

/// The strings hashed on the path of `key` from depth `d` down to its end.
pub open spec fn path_strings(
    siblings: Seq<[u8; 32]>,
    end: Seq<u8>,
    key: Seq<u8>,
    d: int,
) -> Set<Seq<u8>>
    decreases siblings.len() - d,
{
    if d >= siblings.len() {
        Set::empty()
    } else {
        let below = path_hash(siblings, end, key, d + 1);
        path_strings(siblings, end, key, d + 1).insert(
            if smt_model::bit(key, d) {
                smt_model::internal_string(siblings[d]@, below)
            } else {
                smt_model::internal_string(below, siblings[d]@)
            },
        )
    }
}

/// Whether a terminal is what a path shows when the key has the value
/// `expected`, or is absent.
pub open spec fn shows(t: Terminal, key: Seq<u8>, expected: Option<Seq<u8>>) -> bool {
    match (expected, t) {
        (Some(v), Terminal::Leaf { key: k, value }) => k@ == key && value@ == v,
        (Some(_), Terminal::Empty) => false,
        (None, Terminal::Empty) => true,
        (None, Terminal::Leaf { key: k, .. }) => k@ != key,
    }
}

impl Proof {
    /// The root this proof implies for `key`.
    pub open spec fn implied_root(&self, key: Seq<u8>) -> Seq<u8> {
        path_hash(
            self.siblings@,
            terminal_hash(self.terminal, self.siblings@.len() as int),
            key,
            0,
        )
    }

    /// Every string hashed to check this proof for `key`.
    pub open spec fn hashed_strings(&self, key: Seq<u8>) -> Set<Seq<u8>> {
        let n = self.siblings@.len() as int;
        path_strings(self.siblings@, terminal_hash(self.terminal, n), key, 0).union(
            smt_model::strings(terminal_pairs(self.terminal), n),
        )
    }

    /// Recompute the root this proof implies for `key`. Compare it to a trusted
    /// root to accept or reject the proof. A path has 256 levels at most.
    pub fn compute_root(&self, key: &[u8; 32]) -> (h: [u8; 32])
        requires
            self.siblings@.len() <= 256,
        ensures
            h@ == self.implied_root(key@),
    {
        let depth = self.siblings.len();
        let defs = defaults();
        let mut cur = match &self.terminal {
            Terminal::Empty => defs.at(depth),
            Terminal::Leaf { key: k, value } => single_leaf_subtree_hash(
                &defs,
                depth,
                k,
                value.as_slice(),
            ),
        };
        let ghost end = terminal_hash(self.terminal, depth as int);
        let mut d: usize = depth;
        while d > 0
            invariant
                depth == self.siblings@.len(),
                d <= depth <= 256,
                cur@ == path_hash(self.siblings@, end, key@, d as int),
            decreases d,
        {
            d -= 1;
            let sib = self.siblings[d];
            cur = join(bit(key, d), &cur, &sib);
        }
        cur
    }
}

/// Whether `proof` shows against `root` that `key` has the value `expected`, or
/// is absent.
pub open spec fn accepts(
    root: Seq<u8>,
    key: Seq<u8>,
    expected: Option<Seq<u8>>,
    proof_: Proof,
) -> bool {
    &&& proof_.siblings@.len() <= 256
    &&& proof_.implied_root(key) == root
    &&& shows(proof_.terminal, key, expected)
}

/// What an optional value holds.
pub open spec fn value_of(v: Option<&[u8]>) -> Option<Seq<u8>> {
    match v {
        Some(v) => Some(v@),
        None => None,
    }
}

/// Check `proof` for `key` against `root`.
///
/// * `expected = Some(v)`: inclusion, the proof must show that `key` maps to `v`.
/// * `expected = None`: exclusion, the proof must show that `key` is absent (an
///   empty slot, or a different key occupying the path).
pub fn verify(root: &[u8; 32], key: &[u8; 32], expected: Option<&[u8]>, proof_: &Proof) -> (r: bool)
    ensures
        r == accepts(root@, key@, value_of(expected), *proof_),
{
    if proof_.siblings.len() > KEY_BITS || !same_hash(&proof_.compute_root(key), root) {
        return false;
    }
    match (expected, &proof_.terminal) {
        (Some(v), Terminal::Leaf { key: k, value }) => same_hash(k, key) && same_bytes(
            value.as_slice(),
            v,
        ),
        (Some(_), Terminal::Empty) => false,
        (None, Terminal::Empty) => true,
        (None, Terminal::Leaf { key: k, .. }) => !same_hash(k, key),
    }
}

// --- the tree ---------------------------------------------------------------

/// A sparse Merkle tree over a [`KVStore`]. Nodes live in [`Column::State`]; the
/// current root is held in memory (callers persist it under their own meta key).
pub struct Smt<'a, S: KVStore> {
    pub store: &'a mut S,
    pub root: [u8; 32],
    pub defs: Defaults,
}

/// The trie nodes of a store.
pub open spec fn nodes_of(m: store::Contents) -> Map<Seq<u8>, Seq<u8>> {
    store::column(m, Column::State)
}

/// The queued writes are the puts, one for one.
spec fn lockstep(ws: Seq<store::Write>, puts: Seq<smt_model::Put>) -> bool {
    &&& ws.len() == puts.len()
    &&& forall|i: int|
        0 <= i < ws.len() ==> #[trigger] ws[i] == (
            Column::State,
            puts[i].hash,
            Some(smt_model::encoded(puts[i].node)),
        )
}

/// Whether two stores hold the same outside the trie's column.
pub open spec fn same_elsewhere(a: store::Contents, b: store::Contents) -> bool {
    forall|c: Column, k: Seq<u8>|
        #![trigger b.contains_key((c, k))]
        c != Column::State ==> b.contains_key((c, k)) == a.contains_key((c, k)) && (a.contains_key(
            (c, k),
        ) ==> b[(c, k)] == a[(c, k)])
}

/// Whether no two strings hashed for the trees `a` and `b` collide.
pub open spec fn no_collision(a: smt_model::Pairs, b: smt_model::Pairs) -> bool {
    smt_model::collision_free(
        smt_model::strings(a, 0).union(smt_model::strings(b, 0)).union(
            smt_model::strings(Map::empty(), 0),
        ),
    )
}

/// Whether no two strings hashed for the trees `a` and `b` and for the leaves
/// in `nodes` collide.
pub open spec fn no_collision_with(
    nodes: Map<Seq<u8>, Seq<u8>>,
    a: smt_model::Pairs,
    b: smt_model::Pairs,
) -> bool {
    smt_model::collision_free(
        smt_model::strings(a, 0).union(smt_model::strings(b, 0)).union(
            smt_model::strings(Map::empty(), 0),
        ).union(smt_model::leaf_strings(nodes)),
    )
}

/// What storing a lockstep batch does to the nodes.
proof fn lemma_stored(m: store::Contents, ws: Seq<store::Write>, puts: Seq<smt_model::Put>)
    requires
        lockstep(ws, puts),
    ensures
        smt_model::stored(nodes_of(m), puts, nodes_of(store::written(m, ws))),
        same_elsewhere(m, store::written(m, ws)),
    decreases ws.len(),
{
    if ws.len() > 0 {
        let f = ws.drop_last();
        let g = puts.drop_last();
        assert(lockstep(f, g)) by {
            assert forall|i: int| 0 <= i < f.len() implies #[trigger] f[i] == (
                Column::State,
                g[i].hash,
                Some(smt_model::encoded(g[i].node)),
            ) by {
                assert(f[i] == ws[i]);
            }
        }
        lemma_stored(m, f, g);
        let before = store::written(m, f);
        let after = store::written(m, ws);
        assert(ws[ws.len() - 1] == ws.last());
        assert forall|h: Seq<u8>| #![trigger nodes_of(after).contains_key(h)] {
            match smt_model::last_put(puts, h) {
                Some(p) => nodes_of(after).contains_key(h) && nodes_of(after)[h]
                    == smt_model::encoded(p.node),
                None => nodes_of(after).contains_key(h) == nodes_of(m).contains_key(h) && (nodes_of(
                    m,
                ).contains_key(h) ==> nodes_of(after)[h] == nodes_of(m)[h]),
            }
        } by {
            assert(nodes_of(before).contains_key(h) == before.contains_key((Column::State, h)));
        }
        assert forall|c: Column, k: Seq<u8>| #![trigger after.contains_key((c, k))]
            c != Column::State implies after.contains_key((c, k)) == m.contains_key((c, k)) && (
        m.contains_key((c, k)) ==> after[(c, k)] == m[(c, k)]) by {
            assert(before.contains_key((c, k)) == m.contains_key((c, k)));
        }
    } else {
        assert(puts.len() == 0);
    }
}

/// A batch of well-placed nodes keeps every leaf under a hash of its own.
proof fn lemma_addressed(
    nodes: Map<Seq<u8>, Seq<u8>>,
    puts: Seq<smt_model::Put>,
    after: Map<Seq<u8>, Seq<u8>>,
)
    requires
        smt_model::addressed(nodes),
        smt_model::all_placed(puts),
        smt_model::stored(nodes, puts, after),
    ensures
        smt_model::addressed(after),
{
    assert forall|h: Seq<u8>| #[trigger] after.contains_key(h) implies match smt_model::decoded(
        after[h],
    ) {
        Some(smt_model::NodeView::Leaf { key, value }) => exists|d: int|
            0 <= d <= 256 && h == #[trigger] smt_model::leaf_at(key, value, d),
        _ => true,
    } by {
        smt_model::lemma_last_put(puts, h);
        match smt_model::last_put(puts, h) {
            Some(p) => {
                let i = choose|i: int| 0 <= i < puts.len() && #[trigger] puts[i] == p
                    && p.hash == h;
                assert(smt_model::well_placed(puts[i]));
                smt_model::lemma_decode_encoded(p.node);
                match p.node {
                    smt_model::NodeView::Leaf { key, value } => {
                        assert(h == smt_model::leaf_at(key, value, p.depth));
                    },
                    _ => {},
                }
            },
            None => {
                assert(nodes.contains_key(h));
            },
        }
    }
}

// --- what a walk along a key's path finds and writes ------------------------------

/// The child that `key`'s path goes on to from a branching at depth `d`.
pub open spec fn toward(key: Seq<u8>, d: int, left: Seq<u8>, right: Seq<u8>) -> Seq<u8> {
    if smt_model::bit(key, d) {
        right
    } else {
        left
    }
}

/// What is found for `key` from `h` at depth `d` down: the value of a leaf of that key at
/// the end of the path. A path that breaks off ends in nothing.
pub open spec fn found(
    nodes: Map<Seq<u8>, Seq<u8>>,
    h: Seq<u8>,
    d: int,
    key: Seq<u8>,
) -> Option<Seq<u8>>
    decreases 256 - d,
{
    if h == smt_model::empty_hash(d) || !nodes.contains_key(h) {
        None
    } else {
        match smt_model::decoded(nodes[h]) {
            Some(smt_model::NodeView::Leaf { key: k, value }) => if k == key {
                Some(value)
            } else {
                None
            },
            Some(smt_model::NodeView::Internal { left, right }) => if d >= 256 {
                None
            } else {
                found(nodes, toward(key, d, left, right), d + 1, key)
            },
            None => None,
        }
    }
}

/// Whether the nodes on `key`'s path from `h` at depth `d` down are all stored.
pub open spec fn path_stored(
    nodes: Map<Seq<u8>, Seq<u8>>,
    h: Seq<u8>,
    d: int,
    key: Seq<u8>,
) -> bool
    decreases 256 - d,
{
    h == smt_model::empty_hash(d) || (nodes.contains_key(h) && match smt_model::decoded(
        nodes[h],
    ) {
        Some(smt_model::NodeView::Leaf { .. }) => true,
        Some(smt_model::NodeView::Internal { left, right }) => d < 256 && path_stored(
            nodes,
            toward(key, d, left, right),
            d + 1,
            key,
        ),
        None => false,
    })
}

pub proof fn lemma_path_stored(
    nodes: Map<Seq<u8>, Seq<u8>>,
    h: Seq<u8>,
    d: int,
    key: Seq<u8>,
)
    requires
        smt_model::path_ok(nodes, h, d, key),
    ensures
        path_stored(nodes, h, d, key),
    decreases 256 - d,
{
    if h != smt_model::empty_hash(d) {
        if let Some(smt_model::NodeView::Internal { left, right }) = smt_model::decoded(nodes[h]) {
            lemma_path_stored(nodes, toward(key, d, left, right), d + 1, key);
        }
    }
}

/// Whether `siblings` from depth `d` on are what stands beside `key`'s path from `h` down,
/// and `t` is what stands at its end.
pub open spec fn walked(
    nodes: Map<Seq<u8>, Seq<u8>>,
    h: Seq<u8>,
    d: int,
    key: Seq<u8>,
    siblings: Seq<[u8; 32]>,
    t: Terminal,
) -> bool
    decreases 256 - d,
{
    if h == smt_model::empty_hash(d) {
        siblings.len() == d && t is Empty
    } else {
        match smt_model::decoded(nodes[h]) {
            Some(smt_model::NodeView::Leaf { key: k, value }) => {
                &&& siblings.len() == d
                &&& t matches Terminal::Leaf { key: tk, value: tv } && tk@ == k && tv@ == value
            },
            Some(smt_model::NodeView::Internal { left, right }) => {
                &&& d < 256
                &&& siblings.len() > d
                &&& siblings[d]@ == toward(key, d, right, left)
                &&& walked(nodes, toward(key, d, left, right), d + 1, key, siblings, t)
            },
            None => false,
        }
    }
}

/// A subtree that was rewritten: its hash, and the nodes written for it.
pub type Rewrite = (Seq<u8>, Seq<store::Write>);

/// The write of a leaf that is alone in the subtree at depth `d`.
pub open spec fn leaf_put(key: Seq<u8>, value: Seq<u8>, d: int) -> store::Write {
    (
        Column::State,
        smt_model::leaf_at(key, value, d),
        Some(smt_model::encoded(smt_model::NodeView::Leaf { key, value })),
    )
}

/// The write of a branching.
pub open spec fn branch_put(left: Seq<u8>, right: Seq<u8>) -> store::Write {
    (
        Column::State,
        smt_model::internal_hash(left, right),
        Some(smt_model::encoded(smt_model::NodeView::Internal { left, right })),
    )
}

/// A branching at depth `d` with `this` on the side of `key`'s path, after the writes of
/// that side.
pub open spec fn branched(
    key: Seq<u8>,
    d: int,
    this: Rewrite,
    other: Seq<u8>,
) -> Rewrite {
    let (left, right) = if smt_model::bit(key, d) {
        (other, this.0)
    } else {
        (this.0, other)
    };
    (smt_model::internal_hash(left, right), this.1.push(branch_put(left, right)))
}

/// The subtree at depth `d` that holds just two keys.
pub open spec fn split_at(
    ka: Seq<u8>,
    va: Seq<u8>,
    kb: Seq<u8>,
    vb: Seq<u8>,
    d: int,
) -> Rewrite
    decreases 256 - d,
{
    if d >= 256 {
        (Seq::empty(), Seq::empty())
    } else if smt_model::bit(ka, d) != smt_model::bit(kb, d) {
        let both = seq![leaf_put(ka, va, d + 1), leaf_put(kb, vb, d + 1)];
        branched(
            ka,
            d,
            (smt_model::leaf_at(ka, va, d + 1), both),
            smt_model::leaf_at(kb, vb, d + 1),
        )
    } else {
        branched(ka, d, split_at(ka, va, kb, vb, d + 1), smt_model::empty_hash(d + 1))
    }
}

/// The subtree at `h` with `key` set.
pub open spec fn set_at(
    nodes: Map<Seq<u8>, Seq<u8>>,
    h: Seq<u8>,
    d: int,
    key: Seq<u8>,
    value: Seq<u8>,
) -> Rewrite
    decreases 256 - d,
{
    let alone = (smt_model::leaf_at(key, value, d), seq![leaf_put(key, value, d)]);
    if h == smt_model::empty_hash(d) {
        alone
    } else {
        match smt_model::decoded(nodes[h]) {
            Some(smt_model::NodeView::Leaf { key: k, value: v }) => if k == key {
                alone
            } else {
                split_at(key, value, k, v, d)
            },
            Some(smt_model::NodeView::Internal { left, right }) => if d >= 256 {
                (h, Seq::empty())
            } else {
                branched(
                    key,
                    d,
                    set_at(nodes, toward(key, d, left, right), d + 1, key, value),
                    toward(key, d, right, left),
                )
            },
            None => (h, Seq::empty()),
        }
    }
}

/// The branching of `left` and `right` at depth `d`, made compact: nothing where both are
/// empty, and a lone stored leaf pulled up.
pub open spec fn compacted(
    nodes: Map<Seq<u8>, Seq<u8>>,
    left: Seq<u8>,
    right: Seq<u8>,
    d: int,
) -> Rewrite {
    let empty = smt_model::empty_hash(d + 1);
    let child = if left == empty {
        right
    } else {
        left
    };
    let branch = (smt_model::internal_hash(left, right), seq![branch_put(left, right)]);
    if left == empty && right == empty {
        (smt_model::empty_hash(d), Seq::empty())
    } else if (left == empty || right == empty) && nodes.contains_key(child) {
        match smt_model::decoded(nodes[child]) {
            Some(smt_model::NodeView::Leaf { key: k, value: v }) => (
                smt_model::leaf_at(k, v, d),
                seq![leaf_put(k, v, d)],
            ),
            _ => branch,
        }
    } else {
        branch
    }
}

/// The subtree at `h` without `key`.
pub open spec fn drop_at(
    nodes: Map<Seq<u8>, Seq<u8>>,
    h: Seq<u8>,
    d: int,
    key: Seq<u8>,
) -> Rewrite
    decreases 256 - d,
{
    if h == smt_model::empty_hash(d) {
        (h, Seq::empty())
    } else {
        match smt_model::decoded(nodes[h]) {
            Some(smt_model::NodeView::Leaf { key: k, .. }) => (
                if k == key {
                    smt_model::empty_hash(d)
                } else {
                    h
                },
                Seq::empty(),
            ),
            Some(smt_model::NodeView::Internal { left, right }) => if d >= 256 {
                (h, Seq::empty())
            } else {
                let (c, w) = drop_at(nodes, toward(key, d, left, right), d + 1, key);
                let (h2, w2) = if smt_model::bit(key, d) {
                    compacted(nodes, left, c, d)
                } else {
                    compacted(nodes, c, right, d)
                };
                (h2, w + w2)
            },
            None => (h, Seq::empty()),
        }
    }
}

impl<'a, S: KVStore> Smt<'a, S> {
    /// The trie nodes in the store.
    pub open spec fn nodes(&self) -> Map<Seq<u8>, Seq<u8>> {
        nodes_of(self.store.holds())
    }

    /// Whether the nodes under the root are all there and make up a tree.
    pub open spec fn whole(&self) -> bool {
        exists|m: smt_model::Pairs| smt_model::stands_for(self.nodes(), self.root@, 0, m)
    }

    /// Whether the nodes under the root make up a tree, and every stored leaf, in the tree
    /// or not, stands under a hash of its own.
    pub open spec fn valid(&self) -> bool {
        smt_model::addressed(self.nodes()) && self.whole()
    }

    /// The pairs the tree holds.
    pub open spec fn pairs(&self) -> smt_model::Pairs {
        choose|m: smt_model::Pairs| smt_model::stands_for(self.nodes(), self.root@, 0, m)
    }

    /// An empty tree over `store`.
    pub fn new(store: &'a mut S) -> (r: Self)
        ensures
            *r.store == *old(store),
            *final(r.store) == *final(store),
            r.root@ == smt_model::root_of(Map::empty()),
            smt_model::addressed(nodes_of(old(store).holds())) ==> r.valid() && r.pairs()
                == Map::<Seq<u8>, Seq<u8>>::empty(),
    {
        let defs = defaults();
        let root = defs.at(0);
        proof {
            smt_model::lemma_empty_tree(0);
            let nodes = nodes_of(store.holds());
            let none = Map::<Seq<u8>, Seq<u8>>::empty();
            assert(smt_model::stands_for(nodes, root@, 0, none));
            let m = choose|m: smt_model::Pairs| smt_model::stands_for(nodes, root@, 0, m);
            smt_model::lemma_stands_unique(nodes, root@, 0, none, m);
        }
        Smt { store, root, defs }
    }

    /// Reopen an existing tree at `root` (e.g. loaded from chain metadata).
    pub fn from_root(store: &'a mut S, root: [u8; 32]) -> (r: Self)
        ensures
            *r.store == *old(store),
            *final(r.store) == *final(store),
            r.root == root,
    {
        Smt { store, root, defs: defaults() }
    }

    /// The current state root. Equal to the empty-tree default when no keys are
    /// present.
    pub fn root(&self) -> (h: [u8; 32])
        ensures
            h == self.root,
            self.valid() ==> h@ == smt_model::root_of(self.pairs()),
    {
        proof {
            if self.valid() {
                smt_model::lemma_stands_hash(self.nodes(), self.root@, 0, self.pairs());
            }
        }
        self.root
    }

    /// Whether the tree holds no keys.
    pub fn is_empty(&self) -> (r: bool)
        ensures
            r == (self.root@ == smt_model::root_of(Map::empty())),
            self.valid() && r ==> self.pairs() == Map::<Seq<u8>, Seq<u8>>::empty(),
            self.valid() && self.pairs() == Map::<Seq<u8>, Seq<u8>>::empty() ==> r,
    {
        proof {
            smt_model::lemma_empty_tree(0);
            if self.valid() {
                smt_model::lemma_stands_hash(self.nodes(), self.root@, 0, self.pairs());
            }
        }
        same_hash(&self.root, &self.defs.at(0))
    }

    fn node(&self, hash: &[u8; 32]) -> (r: Option<Node>)
        ensures
            match r {
                Some(n) => self.nodes().contains_key(hash@) && smt_model::decoded(
                    self.nodes()[hash@],
                ) == Some(n.deep()),
                None => !self.nodes().contains_key(hash@) || smt_model::decoded(
                    self.nodes()[hash@],
                ) is None,
            },
    {
        match self.store.get(Column::State, hash.as_slice()) {
            Some(b) => Node::decode(b.as_slice()),
            None => None,
        }
    }

    /// Value at `key`, or `None`. Where a node on the path is missing, there is none.
    pub fn get(&self, key: &[u8; 32]) -> (r: Option<Vec<u8>>)
        ensures
            match r {
                Some(v) => found(self.nodes(), self.root@, 0, key@) == Some(v@),
                None => found(self.nodes(), self.root@, 0, key@) is None,
            },
            self.valid() ==> match r {
                Some(v) => self.pairs().contains_key(key@) && self.pairs()[key@] == v@,
                None => !self.pairs().contains_key(key@),
            },
    {
        let ghost all = self.pairs();
        let ghost mut m = all;
        let mut cur = self.root;
        let mut depth: usize = 0;
        while depth <= 256
            invariant
                depth <= 257,
                self.valid() ==> {
                    &&& depth <= 256
                    &&& smt_model::stands_for(self.nodes(), cur@, depth as int, m)
                    &&& m.contains_key(key@) == all.contains_key(key@)
                    &&& m.contains_key(key@) ==> m[key@] == all[key@]
                },
                all == self.pairs(),
                found(self.nodes(), self.root@, 0, key@) == if depth <= 256 {
                    found(self.nodes(), cur@, depth as int, key@)
                } else {
                    None
                },
            decreases 257 - depth,
        {
            if same_hash(&cur, &self.defs.at(depth)) {
                return None;
            }
            match self.node(&cur) {
                None => {
                    return None;
                },
                Some(Node::Leaf { key: k, value }) => {
                    return if same_hash(&k, key) {
                        Some(value)
                    } else {
                        None
                    };
                },
                Some(Node::Internal { left, right }) => {
                    if depth == 256 {
                        return None;
                    }
                    let b = bit(key, depth);
                    proof {
                        m = smt_model::side(m, depth as int, b);
                    }
                    cur = if b {
                        right
                    } else {
                        left
                    };
                    depth += 1;
                },
            }
        }
        None
    }

    /// Whether the nodes on `key`'s path are all there. In a valid tree they are.
    pub fn path_intact(&self, key: &[u8; 32]) -> (r: bool)
        ensures
            r == smt_model::path_ok(self.nodes(), self.root@, 0, key@),
            self.valid() ==> r,
    {
        proof {
            if self.valid() {
                smt_model::lemma_path_ok(self.nodes(), self.root@, 0, key@, self.pairs());
            }
        }
        let mut cur = self.root;
        let mut depth: usize = 0;
        while depth <= 256
            invariant
                depth <= 257,
                self.valid() ==> smt_model::path_ok(self.nodes(), self.root@, 0, key@),
                smt_model::path_ok(self.nodes(), self.root@, 0, key@) == (depth <= 256
                    && smt_model::path_ok(self.nodes(), cur@, depth as int, key@)),
            decreases 257 - depth,
        {
            if same_hash(&cur, &self.defs.at(depth)) {
                return true;
            }
            match self.node(&cur) {
                None => {
                    return false;
                },
                Some(Node::Leaf { key: k, value: _ }) => {
                    let mut i: usize = 0;
                    while i < depth
                        invariant
                            i <= depth <= 256,
                            self.valid() ==> smt_model::path_ok(self.nodes(), self.root@, 0, key@),
                            smt_model::bits_agree(k@, key@, i as int),
                            smt_model::path_ok(self.nodes(), self.root@, 0, key@)
                                == smt_model::bits_agree(k@, key@, depth as int),
                        decreases depth - i,
                    {
                        if bit(&k, i) != bit(key, i) {
                            return false;
                        }
                        i += 1;
                    }
                    return true;
                },
                Some(Node::Internal { left, right }) => {
                    if depth == 256 {
                        return false;
                    }
                    cur = if bit(key, depth) {
                        right
                    } else {
                        left
                    };
                    depth += 1;
                },
            }
        }
        false
    }

    /// Like [`Smt::prove`], or `None` where a node on the path is missing.
    pub fn try_prove(&self, key: &[u8; 32]) -> (p: Option<Proof>)
        ensures
            p is Some == smt_model::path_ok(self.nodes(), self.root@, 0, key@),
            p is Some ==> walked(
                self.nodes(),
                self.root@,
                0,
                key@,
                (p->0).siblings@,
                (p->0).terminal,
            ),
            self.valid() ==> p is Some && accepts(
                self.root@,
                key@,
                if self.pairs().contains_key(key@) {
                    Some(self.pairs()[key@])
                } else {
                    None
                },
                p->0,
            ),
    {
        if self.path_intact(key) {
            proof {
                lemma_path_stored(self.nodes(), self.root@, 0, key@);
            }
            Some(self.prove(key))
        } else {
            None
        }
    }

    /// A proof of `key`'s presence or absence against the current root. The
    /// nodes on its path must be stored.
    pub fn prove(&self, key: &[u8; 32]) -> (p: Proof)
        requires
            path_stored(self.nodes(), self.root@, 0, key@),
        ensures
            walked(self.nodes(), self.root@, 0, key@, p.siblings@, p.terminal),
            self.valid() ==> accepts(
                self.root@,
                key@,
                if self.pairs().contains_key(key@) {
                    Some(self.pairs()[key@])
                } else {
                    None
                },
                p,
            ),
    {
        let ghost all = self.pairs();
        let ghost mut m = all;
        let mut siblings: Vec<[u8; 32]> = Vec::new();
        let mut cur = self.root;
        let mut depth: usize = 0;
        loop
            invariant
                depth <= 256,
                depth == siblings@.len(),
                path_stored(self.nodes(), cur@, depth as int, key@),
                forall|all: Seq<[u8; 32]>, t: Terminal|
                    all.len() >= depth && all.take(depth as int) == siblings@ && #[trigger] walked(
                        self.nodes(),
                        cur@,
                        depth as int,
                        key@,
                        all,
                        t,
                    ) ==> walked(self.nodes(), self.root@, 0, key@, all, t),
                self.valid() ==> {
                    &&& smt_model::stands_for(self.nodes(), cur@, depth as int, m)
                    &&& m.contains_key(key@) == all.contains_key(key@)
                    &&& m.contains_key(key@) ==> m[key@] == all[key@]
                    &&& path_hash(siblings@, cur@, key@, 0) == self.root@
                },
                all == self.pairs(),
            decreases 256 - depth,
        {
            assert(siblings@.take(depth as int) =~= siblings@);
            if same_hash(&cur, &self.defs.at(depth)) {
                assert(walked(
                    self.nodes(),
                    cur@,
                    depth as int,
                    key@,
                    siblings@,
                    Terminal::Empty,
                ));
                return Proof { siblings, terminal: Terminal::Empty };
            }
            match self.node(&cur) {
                None => {
                    assert(false);
                },
                Some(Node::Leaf { key: k, value }) => {
                    let terminal = Terminal::Leaf { key: k, value };
                    assert(walked(
                        self.nodes(),
                        cur@,
                        depth as int,
                        key@,
                        siblings@,
                        terminal,
                    ));
                    return Proof { siblings, terminal };
                },
                Some(Node::Internal { left, right }) => {
                    let b = bit(key, depth);
                    let (next, sib) = if b {
                        (right, left)
                    } else {
                        (left, right)
                    };
                    proof {
                        m = smt_model::side(m, depth as int, b);
                        lemma_path_push(siblings@, next@, sib, key@, 0);
                        assert forall|all: Seq<[u8; 32]>, t: Terminal|
                            all.len() >= depth + 1 && all.take(depth + 1) == siblings@.push(sib)
                                && #[trigger] walked(
                                self.nodes(),
                                next@,
                                depth + 1,
                                key@,
                                all,
                                t,
                            ) implies walked(self.nodes(), self.root@, 0, key@, all, t) by {
                            assert(all.take(depth as int) =~= siblings@) by {
                                assert(all.take(depth as int) =~= all.take(depth + 1).take(
                                    depth as int,
                                ));
                            }
                            assert(all[depth as int] == all.take(depth + 1)[depth as int]);
                            assert(walked(self.nodes(), cur@, depth as int, key@, all, t));
                        }
                    }
                    siblings.push(sib);
                    cur = next;
                    depth += 1;
                },
            }
        }
    }

    /// Store a leaf as the sole occupant of the subtree at `depth`; its hash is
    /// that subtree's.
    fn place_leaf(
        &self,
        batch: &mut WriteBatch,
        puts: Ghost<Seq<smt_model::Put>>,
        depth: usize,
        key: &[u8; 32],
        value: &[u8],
    ) -> (r: ([u8; 32], Ghost<Seq<smt_model::Put>>))
        requires
            depth <= 256,
            lockstep(old(batch)@, puts@),
            smt_model::all_placed(puts@),
        ensures
            r.0@ == smt_model::leaf_at(key@, value@, depth as int),
            final(batch)@ == old(batch)@.push(leaf_put(key@, value@, depth as int)),
            r.1@ == puts@.push(
                (smt_model::Put {
                    hash: r.0@,
                    depth: depth as int,
                    pairs: smt_model::one(key@, value@),
                    node: smt_model::NodeView::Leaf { key: key@, value: value@ },
                }),
            ),
            lockstep(final(batch)@, r.1@),
            smt_model::all_placed(r.1@),
    {
        let hash = single_leaf_subtree_hash(&self.defs, depth, key, value);
        let node = Node::Leaf { key: *key, value: copy_bytes(value) };
        let ghost next = puts@.push(
            smt_model::Put {
                hash: hash@,
                depth: depth as int,
                pairs: smt_model::one(key@, value@),
                node: node.deep(),
            },
        );
        let bytes = node.encode();
        batch.put(Column::State, copy_bytes(hash.as_slice()), bytes);
        (hash, Ghost(next))
    }

    /// Store an internal node.
    fn store_internal(
        &self,
        batch: &mut WriteBatch,
        puts: Ghost<Seq<smt_model::Put>>,
        left: [u8; 32],
        right: [u8; 32],
        depth: Ghost<int>,
        pairs: Ghost<smt_model::Pairs>,
    ) -> (r: ([u8; 32], Ghost<Seq<smt_model::Put>>))
        requires
            0 <= depth@ <= 256,
            lockstep(old(batch)@, puts@),
            smt_model::all_placed(puts@),
        ensures
            r.0@ == smt_model::internal_hash(left@, right@),
            final(batch)@ == old(batch)@.push(branch_put(left@, right@)),
            r.1@ == puts@.push(
                (smt_model::Put {
                    hash: r.0@,
                    depth: depth@,
                    pairs: pairs@,
                    node: smt_model::NodeView::Internal { left: left@, right: right@ },
                }),
            ),
            lockstep(final(batch)@, r.1@),
            smt_model::all_placed(r.1@),
    {
        let hash = hash_internal(&left, &right);
        let node = Node::Internal { left, right };
        let ghost next = puts@.push(
            smt_model::Put { hash: hash@, depth: depth@, pairs: pairs@, node: node.deep() },
        );
        let bytes = node.encode();
        batch.put(Column::State, copy_bytes(hash.as_slice()), bytes);
        (hash, Ghost(next))
    }

    /// Rewrite the path of `key` in the subtree at `depth`. Never re-reads nodes
    /// written earlier in the same batch: parents are built from returned
    /// hashes.
    fn upsert(
        &self,
        batch: &mut WriteBatch,
        puts: Ghost<Seq<smt_model::Put>>,
        node: [u8; 32],
        depth: usize,
        key: &[u8; 32],
        value: &[u8],
        sound: Ghost<bool>,
        m: Ghost<smt_model::Pairs>,
        s: Ghost<Set<Seq<u8>>>,
    ) -> (r: ([u8; 32], Ghost<Seq<smt_model::Put>>))
        requires
            depth <= 256,
            lockstep(old(batch)@, puts@),
            smt_model::all_placed(puts@),
            smt_model::path_ok(self.nodes(), node@, depth as int, key@),
            sound@ ==> {
                &&& smt_model::all_backed(self.nodes(), puts@)
                &&& smt_model::all_covered(puts@, s@)
                &&& smt_model::stands_for(self.nodes(), node@, depth as int, m@)
                &&& smt_model::under(m@, key@, depth as int)
                &&& smt_model::strings(m@.insert(key@, value@), depth as int).subset_of(s@)
            },
        ensures
            ({
                let want = set_at(self.nodes(), node@, depth as int, key@, value@);
                r.0@ == want.0 && final(batch)@ == old(batch)@ + want.1
            }),
            lockstep(final(batch)@, r.1@),
            smt_model::all_placed(r.1@),
            sound@ ==> {
                &&& smt_model::all_backed(self.nodes(), r.1@)
                &&& smt_model::all_covered(r.1@, s@)
                &&& smt_model::backed(
                    self.nodes(),
                    r.1@,
                    r.0@,
                    depth as int,
                    m@.insert(key@, value@),
                )
            },
        decreases 256 - depth,
    {
        let ghost nodes = self.nodes();
        let ghost d = depth as int;
        let ghost goal = m@.insert(key@, value@);
        let ghost start = batch@;
        proof {
            if sound@ {
                smt_model::lemma_stands_hash(nodes, node@, d, m@);
                lemma_insert_under(m@, key@, value@, d);
            }
        }
        if same_hash(&node, &self.defs.at(depth)) {
            let r = self.place_leaf(batch, puts, depth, key, value);
            assert(batch@ =~= start + seq![leaf_put(key@, value@, d)]);
            proof {
                if sound@ {
                    assert(goal =~= smt_model::one(key@, value@));
                    smt_model::lemma_all_backed_push(nodes, puts@, r.1@.last());
                    lemma_covered_push(puts@, r.1@.last(), s@);
                    assert(r.1@ =~= puts@.push(r.1@.last()));
                }
            }
            return r;
        }
        match self.node(&node) {
            None => {
                assert(false);
                (node, puts)
            },
            Some(Node::Leaf { key: k, value: v }) => {
                if same_hash(&k, key) {
                    let r = self.place_leaf(batch, puts, depth, key, value);
                    assert(batch@ =~= start + seq![leaf_put(key@, value@, d)]);
                    proof {
                        if sound@ {
                            assert(goal =~= smt_model::one(key@, value@));
                            smt_model::lemma_all_backed_push(nodes, puts@, r.1@.last());
                            lemma_covered_push(puts@, r.1@.last(), s@);
                            assert(r.1@ =~= puts@.push(r.1@.last()));
                        }
                    }
                    r
                } else {
                    proof {
                        if sound@ {
                            assert(goal =~= two(key@, value@, k@, v@));
                        }
                    }
                    self.split(batch, puts, depth, key, value, &k, v.as_slice(), sound, s)
                }
            },
            Some(Node::Internal { left, right }) => {
                let b = bit(key, depth);
                let ghost inner = smt_model::side(m@, d, b);
                proof {
                    lemma_insert_sides(m@, key@, value@, d);
                    if sound@ {
                        assert(smt_model::under(inner, key@, d + 1));
                    }
                    assert(smt_model::strings(smt_model::side(goal, d, b), d + 1).subset_of(
                        smt_model::strings(goal, d),
                    ));
                }
                if !b {
                    let (left, puts) = self.upsert(
                        batch,
                        puts,
                        left,
                        depth + 1,
                        key,
                        value,
                        sound,
                        Ghost(inner),
                        s,
                    );
                    let ghost below = batch@;
                    let r = self.store_internal(batch, puts, left, right, Ghost(d), Ghost(goal));
                    assert(batch@ =~= start + (below.skip(start.len() as int)).push(
                        branch_put(left@, right@),
                    ));
                    proof {
                        if sound@ {
                            smt_model::lemma_all_backed_push(nodes, puts@, r.1@.last());
                            lemma_covered_push(puts@, r.1@.last(), s@);
                            assert(r.1@ =~= puts@.push(r.1@.last()));
                        }
                    }
                    r
                } else {
                    let (right, puts) = self.upsert(
                        batch,
                        puts,
                        right,
                        depth + 1,
                        key,
                        value,
                        sound,
                        Ghost(inner),
                        s,
                    );
                    let ghost below = batch@;
                    let r = self.store_internal(batch, puts, left, right, Ghost(d), Ghost(goal));
                    assert(batch@ =~= start + (below.skip(start.len() as int)).push(
                        branch_put(left@, right@),
                    ));
                    proof {
                        if sound@ {
                            smt_model::lemma_all_backed_push(nodes, puts@, r.1@.last());
                            lemma_covered_push(puts@, r.1@.last(), s@);
                            assert(r.1@ =~= puts@.push(r.1@.last()));
                        }
                    }
                    r
                }
            },
        }
    }

    /// Two distinct keys meet in the subtree at `depth`: build the internal
    /// spine down to the bit where they diverge, with a single-leaf subtree on
    /// each side below the split.
    fn split(
        &self,
        batch: &mut WriteBatch,
        puts: Ghost<Seq<smt_model::Put>>,
        depth: usize,
        key_a: &[u8; 32],
        val_a: &[u8],
        key_b: &[u8; 32],
        val_b: &[u8],
        sound: Ghost<bool>,
        s: Ghost<Set<Seq<u8>>>,
    ) -> (r: ([u8; 32], Ghost<Seq<smt_model::Put>>))
        requires
            depth <= 256,
            key_a@ != key_b@,
            smt_model::bits_agree(key_b@, key_a@, depth as int),
            lockstep(old(batch)@, puts@),
            smt_model::all_placed(puts@),
            sound@ ==> {
                &&& smt_model::all_backed(self.nodes(), puts@)
                &&& smt_model::all_covered(puts@, s@)
                &&& smt_model::strings(
                    two(key_a@, val_a@, key_b@, val_b@),
                    depth as int,
                ).subset_of(s@)
            },
        ensures
            ({
                let want = split_at(key_a@, val_a@, key_b@, val_b@, depth as int);
                r.0@ == want.0 && final(batch)@ == old(batch)@ + want.1
            }),
            lockstep(final(batch)@, r.1@),
            smt_model::all_placed(r.1@),
            sound@ ==> {
                &&& smt_model::all_backed(self.nodes(), r.1@)
                &&& smt_model::all_covered(r.1@, s@)
                &&& smt_model::backed(
                    self.nodes(),
                    r.1@,
                    r.0@,
                    depth as int,
                    two(key_a@, val_a@, key_b@, val_b@),
                )
            },
    {
        let ghost nodes = self.nodes();
        let ghost both = two(key_a@, val_a@, key_b@, val_b@);
        let ghost start = batch@;
        let mut m: usize = depth;
        while m < KEY_BITS && bit(key_a, m) == bit(key_b, m)
            invariant
                depth <= m <= 256,
                forall|i: int|
                    0 <= i < m ==> smt_model::bit(key_b@, i) == smt_model::bit(key_a@, i),
            decreases 256 - m,
        {
            m += 1;
        }
        proof {
            if m == 256 {
                smt_model::lemma_bits_decide(key_b@, key_a@);
            }
            lemma_two(key_a@, val_a@, key_b@, val_b@, m as int);
            if sound@ {
                lemma_two_strings(key_a@, val_a@, key_b@, val_b@, depth as int, m as int, s@);
            }
            assert(smt_model::strings(smt_model::side(both, m as int, false), m + 1).subset_of(
                smt_model::strings(both, m as int),
            ));
            assert(smt_model::strings(smt_model::side(both, m as int, true), m + 1).subset_of(
                smt_model::strings(both, m as int),
            ));
        }
        let ghost p0 = puts@;
        let (ha, puts) = self.place_leaf(batch, puts, m + 1, key_a, val_a);
        proof {
            if sound@ {
                smt_model::lemma_all_backed_push(nodes, p0, puts@.last());
                lemma_covered_push(p0, puts@.last(), s@);
                assert(puts@ =~= p0.push(puts@.last()));
            }
        }
        let ghost p1 = puts@;
        let (hb, puts) = self.place_leaf(batch, puts, m + 1, key_b, val_b);
        proof {
            if sound@ {
                smt_model::lemma_all_backed_push(nodes, p1, puts@.last());
                smt_model::lemma_backed_push(
                    nodes,
                    p1,
                    puts@.last(),
                    ha@,
                    m + 1,
                    smt_model::one(key_a@, val_a@),
                );
                lemma_covered_push(p1, puts@.last(), s@);
                assert(puts@ =~= p1.push(puts@.last()));
            }
        }
        let ghost p2 = puts@;
        let (first, second) = if bit(key_a, m) {
            (hb, ha)
        } else {
            (ha, hb)
        };
        let (top, puts) = self.store_internal(
            batch,
            puts,
            first,
            second,
            Ghost(m as int),
            Ghost(both),
        );
        proof {
            if sound@ {
                smt_model::lemma_all_backed_push(nodes, p2, puts@.last());
                lemma_covered_push(p2, puts@.last(), s@);
                assert(puts@ =~= p2.push(puts@.last()));
            }
        }
        proof {
            let want = split_at(key_a@, val_a@, key_b@, val_b@, m as int);
            assert(batch@ =~= start + want.1);
        }
        let mut cur = top;
        let mut puts = puts;
        let mut d: usize = m;
        while d > depth
            invariant
                depth <= d <= m < 256,
                nodes == self.nodes(),
                both == two(key_a@, val_a@, key_b@, val_b@),
                key_a@ != key_b@,
                forall|i: int|
                    0 <= i < m ==> smt_model::bit(key_b@, i) == smt_model::bit(key_a@, i),
                lockstep(batch@, puts@),
                smt_model::all_placed(puts@),
                cur@ == split_at(key_a@, val_a@, key_b@, val_b@, d as int).0,
                batch@ == start + split_at(key_a@, val_a@, key_b@, val_b@, d as int).1,
                sound@ ==> {
                    &&& smt_model::strings(both, depth as int).subset_of(s@)
                    &&& smt_model::all_backed(nodes, puts@)
                    &&& smt_model::all_covered(puts@, s@)
                    &&& smt_model::backed(nodes, puts@, cur@, d as int, both)
                },
            decreases d,
        {
            d -= 1;
            let sib = self.defs.at(d + 1);
            let b = bit(key_a, d);
            let (left, right) = if b {
                (sib, cur)
            } else {
                (cur, sib)
            };
            let ghost before = puts@;
            let ghost below = split_at(key_a@, val_a@, key_b@, val_b@, d + 1).1;
            let (h, grown) = self.store_internal(
                batch,
                puts,
                left,
                right,
                Ghost(d as int),
                Ghost(both),
            );
            proof {
                assert(smt_model::bit(key_b@, d as int) == smt_model::bit(key_a@, d as int));
                assert(batch@ =~= start + below.push(branch_put(left@, right@)));
                if sound@ {
                    lemma_two_same_side(key_a@, val_a@, key_b@, val_b@, d as int);
                    lemma_two_strings(key_a@, val_a@, key_b@, val_b@, depth as int, d as int, s@);
                    lemma_two(key_a@, val_a@, key_b@, val_b@, d as int);
                    assert(smt_model::stands_for(
                        nodes,
                        sib@,
                        d + 1,
                        Map::<Seq<u8>, Seq<u8>>::empty(),
                    ));
                    smt_model::lemma_all_backed_push(nodes, before, grown@.last());
                    lemma_covered_push(before, grown@.last(), s@);
                    assert(grown@ =~= before.push(grown@.last()));
                }
            }
            cur = h;
            puts = grown;
        }
        (cur, puts)
    }

    /// Insert or overwrite `key`, returning the new root. The nodes on the key's
    /// path must be stored.
    ///
    /// In a valid tree the new root commits to the old pairs with this one set.
    /// Unless the hash collides on strings of the trees concerned, the tree then
    /// holds just those pairs, and every other root that could be read before
    /// can still be read.
    pub fn update(&mut self, key: &[u8; 32], value: &[u8]) -> (r: [u8; 32])
        requires
            smt_model::path_ok(old(self).nodes(), old(self).root@, 0, key@),
        ensures
            r == final(self).root,
            updated(*old(self), *final(self), key@, value@),
            *final(final(self).store) == *final(old(self).store),
    {
        let ghost sound = self.whole();
        let ghost m = self.pairs();
        let ghost goal = m.insert(key@, value@);
        let ghost nodes = self.nodes();
        let ghost held = self.store.holds();
        let mut batch = WriteBatch::new();
        let ghost s = smt_model::strings(goal, 0);
        let (root, puts) = self.upsert(
            &mut batch,
            Ghost(Seq::empty()),
            self.root,
            0,
            key,
            value,
            Ghost(sound),
            Ghost(m),
            Ghost(s),
        );
        proof {
            lemma_stored(held, batch@, puts@);
            if smt_model::addressed(nodes) {
                lemma_addressed(nodes, puts@, nodes_of(store::written(held, batch@)));
            }
            if sound {
                smt_model::lemma_backed_hash(nodes, puts@, root@, 0, goal);
                smt_model::lemma_stands_hash(nodes, self.root@, 0, m);
            }
        }
        self.root = root;
        self.store.write(batch);
        proof {
            let after = self.nodes();
            if sound {
                assert(smt_model::keyed(goal));
                smt_model::lemma_leaf_strings(nodes, puts@, after, s);
                if no_collision(m, goal) {
                    lemma_commit_root(nodes, puts@, after, root@, goal, s, goal, m);
                    smt_model::lemma_stands_unique(after, root@, 0, goal, self.pairs());
                }
                assert forall|r0: Seq<u8>, m0: smt_model::Pairs|
                    smt_model::stands_for(nodes, r0, 0, m0) && no_collision(
                        m0,
                        goal,
                    ) implies #[trigger] smt_model::stands_for(after, r0, 0, m0) by {
                    smt_model::lemma_stands_hash(nodes, r0, 0, m0);
                    lemma_commit_root(nodes, puts@, after, r0, m0, s, goal, m0);
                }
            }
        }
        root
    }

    /// Like [`Smt::update`], or `None` with nothing changed where a node on the
    /// key's path is missing.
    pub fn try_update(&mut self, key: &[u8; 32], value: &[u8]) -> (r: Option<[u8; 32]>)
        ensures
            r is Some == smt_model::path_ok(old(self).nodes(), old(self).root@, 0, key@),
            old(self).valid() ==> r is Some,
            match r {
                Some(h) => h == final(self).root && updated(
                    *old(self),
                    *final(self),
                    key@,
                    value@,
                ),
                None => {
                    &&& final(self).root == old(self).root
                    &&& *final(self).store == *old(self).store
                },
            },
            *final(final(self).store) == *final(old(self).store),
    {
        if self.path_intact(key) {
            Some(self.update(key, value))
        } else {
            None
        }
    }

    /// Rebuild the internal node at `depth` after a child changed. If one side is
    /// now empty and the other is a lone leaf, that leaf is pulled up to
    /// `depth`, so the tree stays compact.
    fn collapse(
        &self,
        batch: &mut WriteBatch,
        puts: Ghost<Seq<smt_model::Put>>,
        depth: usize,
        left: [u8; 32],
        right: [u8; 32],
        sound: Ghost<bool>,
        m: Ghost<smt_model::Pairs>,
        s: Ghost<Set<Seq<u8>>>,
    ) -> (r: ([u8; 32], Ghost<Seq<smt_model::Put>>))
        requires
            depth < 256,
            lockstep(old(batch)@, puts@),
            smt_model::all_placed(puts@),
            sound@ ==> {
                &&& smt_model::collision_free(s@)
                &&& smt_model::addressed(self.nodes())
                &&& smt_model::keyed(m@)
                &&& smt_model::agree(m@, depth as int)
                &&& smt_model::strings(m@, depth as int).subset_of(s@)
                &&& smt_model::strings(Map::empty(), 0).subset_of(s@)
                &&& smt_model::leaf_strings(self.nodes()).subset_of(s@)
                &&& smt_model::all_backed(self.nodes(), puts@)
                &&& smt_model::all_covered(puts@, s@)
                &&& smt_model::backed(
                    self.nodes(),
                    puts@,
                    left@,
                    depth + 1,
                    smt_model::side(m@, depth as int, false),
                )
                &&& smt_model::backed(
                    self.nodes(),
                    puts@,
                    right@,
                    depth + 1,
                    smt_model::side(m@, depth as int, true),
                )
            },
        ensures
            ({
                let want = compacted(self.nodes(), left@, right@, depth as int);
                r.0@ == want.0 && final(batch)@ == old(batch)@ + want.1
            }),
            lockstep(final(batch)@, r.1@),
            smt_model::all_placed(r.1@),
            sound@ ==> {
                &&& smt_model::all_backed(self.nodes(), r.1@)
                &&& smt_model::all_covered(r.1@, s@)
                &&& smt_model::backed(self.nodes(), r.1@, r.0@, depth as int, m@)
            },
    {
        let ghost nodes = self.nodes();
        let ghost start = batch@;
        let ghost d = depth as int;
        let ghost cf = sound@;
        let ghost l = smt_model::side(m@, d, false);
        let ghost r = smt_model::side(m@, d, true);
        let ghost none = Map::<Seq<u8>, Seq<u8>>::empty();
        let empty = self.defs.at(depth + 1);
        let left_empty = same_hash(&left, &empty);
        let right_empty = same_hash(&right, &empty);
        proof {
            smt_model::lemma_empty_tree(d + 1);
            if cf {
                smt_model::lemma_side_agree(m@, d, false);
                smt_model::lemma_side_agree(m@, d, true);
                assert(smt_model::strings(l, d + 1).subset_of(smt_model::strings(m@, d)));
                assert(smt_model::strings(r, d + 1).subset_of(smt_model::strings(m@, d)));
                smt_model::lemma_empty_strings(d + 1, s@);
                smt_model::lemma_backed_hash(nodes, puts@, left@, d + 1, l);
                smt_model::lemma_backed_hash(nodes, puts@, right@, d + 1, r);
                if left_empty {
                    smt_model::law_root_binds(l, d + 1, none, d + 1, s@);
                }
                if right_empty {
                    smt_model::law_root_binds(r, d + 1, none, d + 1, s@);
                }
            }
        }
        if left_empty && right_empty {
            proof {
                if cf {
                    smt_model::lemma_empty_tree(d);
                    smt_model::lemma_sides_decide(m@, none, d);
                }
            }
            assert(batch@ =~= start + Seq::<store::Write>::empty());
            return (self.defs.at(depth), puts);
        }
        if left_empty != right_empty {
            let child = if left_empty {
                right
            } else {
                left
            };
            if let Some(Node::Leaf { key: k, value: v }) = self.node(&child) {
                let out = self.place_leaf(batch, puts, depth, &k, v.as_slice());
                assert(batch@ =~= start + seq![leaf_put(k@, v@, d)]);
                proof {
                    if cf {
                        let side = if left_empty { r } else { l };
                        let lone = smt_model::one(k@, v@);
                        let some = choose|at: int|
                            0 <= at <= 256 && child@ == #[trigger] smt_model::leaf_at(k@, v@, at);
                        let at = smt_model::lemma_deepest(child@, k@, v@, some);
                        smt_model::lemma_one_tree(k@, v@, at);
                        smt_model::lemma_one_keyed(k@, v@, at);
                        assert(smt_model::strings(lone, at).subset_of(s@)) by {
                            assert forall|x: Seq<u8>| smt_model::strings(lone, at).contains(
                                x,
                            ) implies s@.contains(x) by {
                                assert(nodes.contains_key(child@));
                                assert(smt_model::hashed_at(nodes[child@], child@, at, x));
                                assert(smt_model::leaf_strings(nodes).contains(x));
                            }
                        }
                        smt_model::law_root_binds(lone, at, side, d + 1, s@);
                        assert(m@ =~= lone) by {
                            smt_model::lemma_one_sides(k@, v@, d);
                            assert(side.contains_key(k@));
                            smt_model::lemma_sides_decide(m@, lone, d);
                        }
                        smt_model::lemma_all_backed_push(nodes, puts@, out.1@.last());
                        lemma_covered_push(puts@, out.1@.last(), s@);
                        assert(out.1@ =~= puts@.push(out.1@.last()));
                    }
                }
                return out;
            }
        }
        let out = self.store_internal(batch, puts, left, right, Ghost(d), m);
        assert(batch@ =~= start + seq![branch_put(left@, right@)]);
        proof {
            if cf {
                smt_model::lemma_all_backed_push(nodes, puts@, out.1@.last());
                lemma_covered_push(puts@, out.1@.last(), s@);
                assert(out.1@ =~= puts@.push(out.1@.last()));
            }
        }
        out
    }

    /// Drop `key` from the subtree at `depth`, collapsing on the way up.
    fn delete(
        &self,
        batch: &mut WriteBatch,
        puts: Ghost<Seq<smt_model::Put>>,
        node: [u8; 32],
        depth: usize,
        key: &[u8; 32],
        sound: Ghost<bool>,
        m: Ghost<smt_model::Pairs>,
        s: Ghost<Set<Seq<u8>>>,
    ) -> (r: ([u8; 32], Ghost<Seq<smt_model::Put>>))
        requires
            depth <= 256,
            lockstep(old(batch)@, puts@),
            smt_model::all_placed(puts@),
            path_stored(self.nodes(), node@, depth as int, key@),
            sound@ ==> {
                &&& smt_model::collision_free(s@)
                &&& smt_model::addressed(self.nodes())
                &&& smt_model::stands_for(self.nodes(), node@, depth as int, m@)
                &&& smt_model::agree(m@, depth as int)
                &&& smt_model::strings(m@.remove(key@), depth as int).subset_of(s@)
                &&& smt_model::strings(Map::empty(), 0).subset_of(s@)
                &&& smt_model::leaf_strings(self.nodes()).subset_of(s@)
                &&& smt_model::all_backed(self.nodes(), puts@)
                &&& smt_model::all_covered(puts@, s@)
            },
        ensures
            ({
                let want = drop_at(self.nodes(), node@, depth as int, key@);
                r.0@ == want.0 && final(batch)@ == old(batch)@ + want.1
            }),
            lockstep(final(batch)@, r.1@),
            smt_model::all_placed(r.1@),
            sound@ ==> {
                &&& smt_model::all_backed(self.nodes(), r.1@)
                &&& smt_model::all_covered(r.1@, s@)
                &&& smt_model::backed(
                    self.nodes(),
                    r.1@,
                    r.0@,
                    depth as int,
                    m@.remove(key@),
                )
            },
        decreases 256 - depth,
    {
        let ghost nodes = self.nodes();
        let ghost d = depth as int;
        let ghost goal = m@.remove(key@);
        let ghost start = batch@;
        assert(start + Seq::<store::Write>::empty() =~= start);
        proof {
            if sound@ {
                smt_model::lemma_stands_hash(nodes, node@, d, m@);
            }
        }
        if same_hash(&node, &self.defs.at(depth)) {
            proof {
                if sound@ {
                    assert(goal =~= m@);
                }
            }
            return (node, puts);
        }
        match self.node(&node) {
            None => {
                assert(false);
                (node, puts)
            },
            Some(Node::Leaf { key: k, value: _ }) => {
                if same_hash(&k, key) {
                    proof {
                        if sound@ {
                            assert(goal =~= Map::<Seq<u8>, Seq<u8>>::empty());
                        }
                    }
                    (self.defs.at(depth), puts)
                } else {
                    proof {
                        if sound@ {
                            assert(goal =~= m@);
                        }
                    }
                    (node, puts)
                }
            },
            Some(Node::Internal { left, right }) => {
                let b = bit(key, depth);
                let ghost was_left = left;
                let ghost was_right = right;
                let ghost inner = smt_model::side(m@, d, b);
                proof {
                    lemma_remove_sides(m@, key@, d);
                    assert(smt_model::strings(smt_model::side(goal, d, b), d + 1).subset_of(
                        smt_model::strings(goal, d),
                    ));
                    if sound@ {
                        smt_model::lemma_side_agree(m@, d, b);
                        assert(smt_model::agree(goal, d));
                    }
                }
                if !b {
                    let (left, puts) = self.delete(
                        batch,
                        puts,
                        left,
                        depth + 1,
                        key,
                        sound,
                        Ghost(inner),
                        s,
                    );
                    let ghost below = batch@;
                    let r = self.collapse(batch, puts, depth, left, right, sound, Ghost(goal), s);
                    proof {
                        let w = compacted(nodes, left@, right@, d).1;
                        assert(below + w =~= start + (below.skip(start.len() as int) + w));
                        assert(below.skip(start.len() as int) =~= drop_at(
                            nodes,
                            if b { was_right@ } else { was_left@ },
                            d + 1,
                            key@,
                        ).1);
                    }
                    r
                } else {
                    let (right, puts) = self.delete(
                        batch,
                        puts,
                        right,
                        depth + 1,
                        key,
                        sound,
                        Ghost(inner),
                        s,
                    );
                    let ghost below = batch@;
                    let r = self.collapse(batch, puts, depth, left, right, sound, Ghost(goal), s);
                    proof {
                        let w = compacted(nodes, left@, right@, d).1;
                        assert(below + w =~= start + (below.skip(start.len() as int) + w));
                        assert(below.skip(start.len() as int) =~= drop_at(
                            nodes,
                            if b { was_right@ } else { was_left@ },
                            d + 1,
                            key@,
                        ).1);
                    }
                    r
                }
            },
        }
    }

    /// Remove `key` (a no-op if absent), returning the new root. The nodes on the
    /// key's path must be stored.
    ///
    /// In a valid tree, and unless the hash collides on strings of the trees
    /// concerned or of stored leaves, the root is the one of the tree in which
    /// the key was never inserted, the tree holds just the remaining pairs, and
    /// every other root that could be read before can still be read.
    pub fn remove(&mut self, key: &[u8; 32]) -> (r: [u8; 32])
        requires
            path_stored(old(self).nodes(), old(self).root@, 0, key@),
        ensures
            r == final(self).root,
            removed(*old(self), *final(self), key@),
            *final(final(self).store) == *final(old(self).store),
    {
        let ghost valid = self.valid();
        let ghost m = self.pairs();
        let ghost goal = m.remove(key@);
        let ghost nodes = self.nodes();
        let ghost held = self.store.holds();
        let mut batch = WriteBatch::new();
        let ghost s = smt_model::strings(goal, 0).union(
            smt_model::strings(Map::empty(), 0),
        ).union(smt_model::leaf_strings(nodes));
        let ghost sound = valid && smt_model::collision_free(s);
        let (root, puts) = self.delete(
            &mut batch,
            Ghost(Seq::empty()),
            self.root,
            0,
            key,
            Ghost(sound),
            Ghost(m),
            Ghost(s),
        );
        proof {
            lemma_stored(held, batch@, puts@);
            if smt_model::addressed(nodes) {
                lemma_addressed(nodes, puts@, nodes_of(store::written(held, batch@)));
            }
            if valid {
                smt_model::lemma_stands_hash(nodes, self.root@, 0, m);
            }
        }
        self.root = root;
        self.store.write(batch);
        proof {
            let after = self.nodes();
            if valid {
                assert(smt_model::keyed(goal));
                if no_collision_with(nodes, m, goal) {
                    let big = smt_model::strings(m, 0).union(smt_model::strings(goal, 0)).union(
                        smt_model::strings(Map::empty(), 0),
                    ).union(smt_model::leaf_strings(nodes));
                    lemma_smaller_set(s, big);
                    smt_model::lemma_leaf_strings(nodes, puts@, after, s);
                    smt_model::lemma_backed_hash(nodes, puts@, root@, 0, goal);
                    lemma_commit_big(nodes, puts@, after, root@, goal, s, big);
                    smt_model::lemma_stands_unique(after, root@, 0, goal, self.pairs());
                }
                assert forall|r0: Seq<u8>, m0: smt_model::Pairs|
                    smt_model::stands_for(nodes, r0, 0, m0) && no_collision_with(
                        nodes,
                        m0,
                        goal,
                    ) implies #[trigger] smt_model::stands_for(after, r0, 0, m0) by {
                    let big = smt_model::strings(m0, 0).union(smt_model::strings(goal, 0)).union(
                        smt_model::strings(Map::empty(), 0),
                    ).union(smt_model::leaf_strings(nodes));
                    lemma_smaller_set(s, big);
                    smt_model::lemma_stands_hash(nodes, r0, 0, m0);
                    lemma_commit_big(nodes, puts@, after, r0, m0, s, big);
                }
            }
        }
        root
    }

    /// Like [`Smt::remove`], or `None` with nothing changed where a node on the
    /// key's path is missing.
    pub fn try_remove(&mut self, key: &[u8; 32]) -> (r: Option<[u8; 32]>)
        ensures
            r is Some == smt_model::path_ok(old(self).nodes(), old(self).root@, 0, key@),
            old(self).valid() ==> r is Some,
            match r {
                Some(h) => h == final(self).root && removed(*old(self), *final(self), key@),
                None => {
                    &&& final(self).root == old(self).root
                    &&& *final(self).store == *old(self).store
                },
            },
            *final(final(self).store) == *final(old(self).store),
    {
        if self.path_intact(key) {
            proof {
                lemma_path_stored(self.nodes(), self.root@, 0, key@);
            }
            Some(self.remove(key))
        } else {
            None
        }
    }
}

/// Whether every stored node is still stored.
pub open spec fn none_lost(a: Map<Seq<u8>, Seq<u8>>, b: Map<Seq<u8>, Seq<u8>>) -> bool {
    forall|h: Seq<u8>| a.contains_key(h) ==> #[trigger] b.contains_key(h)
}

/// What setting `key` to `value` does to a tree, in one batch.
pub open spec fn updated<S: KVStore>(
    before: Smt<S>,
    after: Smt<S>,
    key: Seq<u8>,
    value: Seq<u8>,
) -> bool {
    let goal = before.pairs().insert(key, value);
    &&& same_elsewhere(before.store.holds(), after.store.holds())
    &&& after.store.writes() == before.store.writes() + 1
    &&& after.store.under() == before.store.under()
    &&& none_lost(before.nodes(), after.nodes())
    &&& ({
        let want = set_at(before.nodes(), before.root@, 0, key, value);
        &&& after.root@ == want.0
        &&& after.store.holds() == store::written(before.store.holds(), want.1)
    })
    &&& smt_model::addressed(before.nodes()) ==> smt_model::addressed(after.nodes())
    &&& before.whole() ==> {
        &&& after.root@ == smt_model::root_of(goal)
        &&& smt_model::leaf_strings(after.nodes()).subset_of(
            smt_model::leaf_strings(before.nodes()).union(smt_model::strings(goal, 0)),
        )
        &&& no_collision(before.pairs(), goal) ==> after.whole() && after.pairs() == goal
        &&& forall|root: Seq<u8>, m: smt_model::Pairs|
            smt_model::stands_for(before.nodes(), root, 0, m) && no_collision(m, goal)
                ==> #[trigger] smt_model::stands_for(after.nodes(), root, 0, m)
    }
}

/// What removing `key` does to a tree, in one batch.
pub open spec fn removed<S: KVStore>(before: Smt<S>, after: Smt<S>, key: Seq<u8>) -> bool {
    let goal = before.pairs().remove(key);
    &&& same_elsewhere(before.store.holds(), after.store.holds())
    &&& after.store.writes() == before.store.writes() + 1
    &&& after.store.under() == before.store.under()
    &&& none_lost(before.nodes(), after.nodes())
    &&& ({
        let want = drop_at(before.nodes(), before.root@, 0, key);
        &&& after.root@ == want.0
        &&& after.store.holds() == store::written(before.store.holds(), want.1)
    })
    &&& smt_model::addressed(before.nodes()) ==> smt_model::addressed(after.nodes())
    &&& before.valid() ==> {
        &&& no_collision_with(before.nodes(), before.pairs(), goal) ==> {
            &&& after.root@ == smt_model::root_of(goal)
            &&& after.valid()
            &&& after.pairs() == goal
            &&& smt_model::leaf_strings(after.nodes()).subset_of(
                smt_model::leaf_strings(before.nodes()).union(smt_model::strings(goal, 0)).union(
                    smt_model::strings(Map::empty(), 0),
                ),
            )
        }
        &&& forall|root: Seq<u8>, m: smt_model::Pairs|
            smt_model::stands_for(before.nodes(), root, 0, m) && no_collision_with(
                before.nodes(),
                m,
                goal,
            ) ==> #[trigger] smt_model::stands_for(after.nodes(), root, 0, m)
    }
}

/// Whether `after` is the tree `before` with one key set or removed, where the hash does
/// not collide on the trees concerned, nor on that of `m`.
pub open spec fn changed<S: KVStore>(before: Smt<S>, after: Smt<S>, m: smt_model::Pairs) -> bool {
    ||| exists|key: Seq<u8>, value: Seq<u8>| #[trigger]
        updated(before, after, key, value) && no_collision(
            before.pairs(),
            before.pairs().insert(key, value),
        ) && no_collision(m, before.pairs().insert(key, value))
    ||| exists|key: Seq<u8>| #[trigger]
        removed(before, after, key) && no_collision_with(
            before.nodes(),
            before.pairs(),
            before.pairs().remove(key),
        ) && no_collision_with(before.nodes(), m, before.pairs().remove(key))
}

/// Old roots stay readable: over any run of updates and removes, a root that stood for
/// some pairs still stands for them, and the tree stays whole, unless the hash collides.
pub proof fn law_old_roots_stay<S: KVStore>(
    run: Seq<Smt<S>>,
    root: Seq<u8>,
    m: smt_model::Pairs,
)
    requires
        run.len() > 0,
        run[0].valid(),
        smt_model::stands_for(run[0].nodes(), root, 0, m),
        forall|i: int|
            0 <= i < run.len() - 1 ==> #[trigger] changed(run[i], run[i + 1], m),
    ensures
        run.last().valid(),
        smt_model::stands_for(run.last().nodes(), root, 0, m),
    decreases run.len(),
{
    if run.len() > 1 {
        let h = run.drop_last();
        assert forall|i: int| 0 <= i < h.len() - 1 implies #[trigger] changed(
            h[i],
            h[i + 1],
            m,
        ) by {
            assert(changed(run[i], run[i + 1], m));
        }
        law_old_roots_stay(h, root, m);
        let i = run.len() - 2;
        assert(changed(run[i], run[i + 1], m));
    }
}

/// A set of two pairs.
pub open spec fn two(ka: Seq<u8>, va: Seq<u8>, kb: Seq<u8>, vb: Seq<u8>) -> smt_model::Pairs {
    Map::<Seq<u8>, Seq<u8>>::empty().insert(kb, vb).insert(ka, va)
}

proof fn lemma_two(ka: Seq<u8>, va: Seq<u8>, kb: Seq<u8>, vb: Seq<u8>, m: int)
    requires
        ka.len() == 32,
        kb.len() == 32,
        ka != kb,
        forall|i: int| 0 <= i < m ==> smt_model::bit(kb, i) == smt_model::bit(ka, i),
    ensures
        smt_model::keyed(two(ka, va, kb, vb)),
        smt_model::agree(two(ka, va, kb, vb), m),
        smt_model::bit(ka, m) != smt_model::bit(kb, m) ==> {
            &&& smt_model::side(two(ka, va, kb, vb), m, smt_model::bit(ka, m)) == smt_model::one(
                ka,
                va,
            )
            &&& smt_model::side(two(ka, va, kb, vb), m, smt_model::bit(kb, m)) == smt_model::one(
                kb,
                vb,
            )
        },
{
    let t = two(ka, va, kb, vb);
    if smt_model::bit(ka, m) != smt_model::bit(kb, m) {
        assert(smt_model::side(t, m, smt_model::bit(ka, m)) =~= smt_model::one(ka, va));
        assert(smt_model::side(t, m, smt_model::bit(kb, m)) =~= smt_model::one(kb, vb));
    }
}

proof fn lemma_two_same_side(ka: Seq<u8>, va: Seq<u8>, kb: Seq<u8>, vb: Seq<u8>, d: int)
    requires
        smt_model::bit(kb, d) == smt_model::bit(ka, d),
    ensures
        smt_model::side(two(ka, va, kb, vb), d, smt_model::bit(ka, d)) == two(ka, va, kb, vb),
        smt_model::side(two(ka, va, kb, vb), d, !smt_model::bit(ka, d)) == Map::<
            Seq<u8>,
            Seq<u8>,
        >::empty(),
{
    let t = two(ka, va, kb, vb);
    assert(smt_model::side(t, d, smt_model::bit(ka, d)) =~= t);
    assert(smt_model::side(t, d, !smt_model::bit(ka, d)) =~= Map::<Seq<u8>, Seq<u8>>::empty());
}

proof fn lemma_two_strings(
    ka: Seq<u8>,
    va: Seq<u8>,
    kb: Seq<u8>,
    vb: Seq<u8>,
    from: int,
    to: int,
    s: Set<Seq<u8>>,
)
    requires
        0 <= from <= to <= 256,
        forall|i: int| 0 <= i < to ==> smt_model::bit(kb, i) == smt_model::bit(ka, i),
        smt_model::strings(two(ka, va, kb, vb), from).subset_of(s),
    ensures
        smt_model::strings(two(ka, va, kb, vb), to).subset_of(s),
    decreases to - from,
{
    if from < to {
        let t = two(ka, va, kb, vb);
        assert(smt_model::bit(kb, from) == smt_model::bit(ka, from));
        lemma_two_same_side(ka, va, kb, vb, from);
        assert(smt_model::strings(t, from + 1).subset_of(smt_model::strings(t, from)));
        lemma_two_strings(ka, va, kb, vb, from + 1, to, s);
    }
}

proof fn lemma_insert_under(m: smt_model::Pairs, k: Seq<u8>, v: Seq<u8>, d: int)
    requires
        smt_model::keyed(m),
        smt_model::under(m, k, d),
        k.len() == 32,
    ensures
        smt_model::keyed(m.insert(k, v)),
        smt_model::agree(m.insert(k, v), d),
{
    let g = m.insert(k, v);
    assert forall|a: Seq<u8>, b: Seq<u8>, i: int|
        g.contains_key(a) && g.contains_key(b) && 0 <= i < d implies #[trigger] smt_model::bit(a, i)
        == #[trigger] smt_model::bit(b, i) by {
        if a != k {
            assert(m.contains_key(a));
        }
        if b != k {
            assert(m.contains_key(b));
        }
    }
}

proof fn lemma_insert_sides(m: smt_model::Pairs, k: Seq<u8>, v: Seq<u8>, d: int)
    ensures
        smt_model::side(m.insert(k, v), d, smt_model::bit(k, d)) == smt_model::side(
            m,
            d,
            smt_model::bit(k, d),
        ).insert(k, v),
        smt_model::side(m.insert(k, v), d, !smt_model::bit(k, d)) == smt_model::side(
            m,
            d,
            !smt_model::bit(k, d),
        ),
{
    let b = smt_model::bit(k, d);
    assert(smt_model::side(m.insert(k, v), d, b) =~= smt_model::side(m, d, b).insert(k, v));
    assert(smt_model::side(m.insert(k, v), d, !b) =~= smt_model::side(m, d, !b));
}

proof fn lemma_remove_sides(m: smt_model::Pairs, k: Seq<u8>, d: int)
    ensures
        smt_model::side(m.remove(k), d, smt_model::bit(k, d)) == smt_model::side(
            m,
            d,
            smt_model::bit(k, d),
        ).remove(k),
        smt_model::side(m.remove(k), d, !smt_model::bit(k, d)) == smt_model::side(
            m,
            d,
            !smt_model::bit(k, d),
        ),
{
    let b = smt_model::bit(k, d);
    assert(smt_model::side(m.remove(k), d, b) =~= smt_model::side(m, d, b).remove(k));
    assert(smt_model::side(m.remove(k), d, !b) =~= smt_model::side(m, d, !b));
}

proof fn lemma_covered_push(puts: Seq<smt_model::Put>, p: smt_model::Put, s: Set<Seq<u8>>)
    requires
        smt_model::all_covered(puts, s),
        smt_model::covered(p, s),
    ensures
        smt_model::all_covered(puts.push(p), s),
{
    let q = puts.push(p);
    assert forall|i: int| 0 <= i < q.len() implies smt_model::covered(#[trigger] q[i], s) by {
        if i < puts.len() {
            assert(q[i] == puts[i]);
        }
    }
}

proof fn lemma_smaller_set(s: Set<Seq<u8>>, big: Set<Seq<u8>>)
    requires
        s.subset_of(big),
        smt_model::collision_free(big),
    ensures
        smt_model::collision_free(s),
{
}

/// Committing a batch keeps a root readable, over any collision-free set that
/// covers what is hashed.
proof fn lemma_commit_big(
    nodes: Map<Seq<u8>, Seq<u8>>,
    puts: Seq<smt_model::Put>,
    after: Map<Seq<u8>, Seq<u8>>,
    root: Seq<u8>,
    m: smt_model::Pairs,
    s: Set<Seq<u8>>,
    big: Set<Seq<u8>>,
)
    requires
        smt_model::stored(nodes, puts, after),
        smt_model::all_placed(puts),
        smt_model::all_backed(nodes, puts),
        smt_model::all_covered(puts, s),
        s.subset_of(big),
        smt_model::collision_free(big),
        smt_model::strings(m, 0).subset_of(big),
        smt_model::strings(Map::empty(), 0).subset_of(big),
        smt_model::keyed(m),
        smt_model::backed(nodes, puts, root, 0, m),
    ensures
        smt_model::stands_for(after, root, 0, m),
{
    assert(smt_model::all_covered(puts, big)) by {
        assert forall|i: int| 0 <= i < puts.len() implies smt_model::covered(
            #[trigger] puts[i],
            big,
        ) by {
            assert(smt_model::covered(puts[i], s));
        }
    }
    smt_model::lemma_backed_hash(nodes, puts, root, 0, m);
    smt_model::lemma_empty_tree(0);
    if root == smt_model::empty_hash(0) {
        smt_model::law_root_binds(m, 0, Map::empty(), 0, big);
    }
    smt_model::lemma_commit(nodes, puts, after, root, 0, m, big);
}

proof fn lemma_commit_root(
    nodes: Map<Seq<u8>, Seq<u8>>,
    puts: Seq<smt_model::Put>,
    after: Map<Seq<u8>, Seq<u8>>,
    root: Seq<u8>,
    m: smt_model::Pairs,
    s: Set<Seq<u8>>,
    goal: smt_model::Pairs,
    other: smt_model::Pairs,
)
    requires
        smt_model::stored(nodes, puts, after),
        smt_model::all_placed(puts),
        smt_model::all_backed(nodes, puts),
        smt_model::all_covered(puts, s),
        s == smt_model::strings(goal, 0),
        no_collision(other, goal),
        m == other || m == goal,
        smt_model::keyed(m),
        smt_model::backed(nodes, puts, root, 0, m),
    ensures
        smt_model::stands_for(after, root, 0, m),
{
    let big = smt_model::strings(other, 0).union(smt_model::strings(goal, 0)).union(
        smt_model::strings(Map::empty(), 0),
    );
    lemma_commit_big(nodes, puts, after, root, m, s, big);
}

/// A longer path ends one level further down.
proof fn lemma_path_push(
    siblings: Seq<[u8; 32]>,
    end: Seq<u8>,
    sib: [u8; 32],
    key: Seq<u8>,
    d: int,
)
    requires
        0 <= d <= siblings.len(),
    ensures
        path_hash(siblings.push(sib), end, key, d) == path_hash(
            siblings,
            smt_model::join(smt_model::bit(key, siblings.len() as int), end, sib@),
            key,
            d,
        ),
    decreases siblings.len() - d,
{
    if d < siblings.len() {
        lemma_path_push(siblings, end, sib, key, d + 1);
        assert(siblings.push(sib)[d] == siblings[d]);
    } else {
        assert(siblings.push(sib)[d] == sib);
        assert(path_hash(siblings.push(sib), end, key, d + 1) == end);
    }
}

// --- laws -------------------------------------------------------------------

/// The root does not depend on the order in which two keys were set.
pub proof fn law_order_independent(
    m: smt_model::Pairs,
    k1: Seq<u8>,
    v1: Seq<u8>,
    k2: Seq<u8>,
    v2: Seq<u8>,
)
    requires
        k1 != k2,
    ensures
        smt_model::root_of(m.insert(k1, v1).insert(k2, v2)) == smt_model::root_of(
            m.insert(k2, v2).insert(k1, v1),
        ),
{
    assert(m.insert(k1, v1).insert(k2, v2) =~= m.insert(k2, v2).insert(k1, v1));
}

/// Removing a key that was not there before its insertion gives the root back,
/// as if it had never been inserted.
pub proof fn law_remove_restores(m: smt_model::Pairs, k: Seq<u8>, v: Seq<u8>)
    requires
        !m.contains_key(k),
    ensures
        smt_model::root_of(m.insert(k, v).remove(k)) == smt_model::root_of(m),
{
    assert(m.insert(k, v).remove(k) =~= m);
}

proof fn lemma_drop_absent(
    nodes: Map<Seq<u8>, Seq<u8>>,
    h: Seq<u8>,
    d: int,
    key: Seq<u8>,
    m: smt_model::Pairs,
)
    requires
        0 <= d <= 256,
        smt_model::stands_for(nodes, h, d, m),
        !m.contains_key(key),
    ensures
        drop_at(nodes, h, d, key).0 == h,
    decreases 256 - d,
{
    reveal_with_fuel(smt_model::stands_for, 2);
    if h != smt_model::empty_hash(d) {
        if let Some(smt_model::NodeView::Internal { left, right }) = smt_model::decoded(nodes[h]) {
            let b = smt_model::bit(key, d);
            lemma_drop_absent(
                nodes,
                toward(key, d, left, right),
                d + 1,
                key,
                smt_model::side(m, d, b),
            );
            let empty = smt_model::empty_hash(d + 1);
            if left == empty && right != empty {
                let r = smt_model::side(m, d, true);
                if let Some(smt_model::NodeView::Leaf { key: k, value: v }) = smt_model::decoded(
                    nodes[right],
                ) {
                    assert(r.contains_key(k));
                    assert(smt_model::bit(k, d));
                }
            } else if right == empty && left != empty {
                let l = smt_model::side(m, d, false);
                if let Some(smt_model::NodeView::Leaf { key: k, value: v }) = smt_model::decoded(
                    nodes[left],
                ) {
                    assert(l.contains_key(k));
                    assert(!smt_model::bit(k, d));
                }
            }
        }
    }
}

/// Removing a key that the tree does not hold gives the same root, and the same pairs
/// unless the hash collides.
pub proof fn law_absent_remove_keeps<S: KVStore>(before: Smt<S>, after: Smt<S>, key: Seq<u8>)
    requires
        before.whole(),
        !before.pairs().contains_key(key),
        removed(before, after, key),
    ensures
        after.root@ == before.root@,
        before.valid() && no_collision_with(before.nodes(), before.pairs(), before.pairs()) ==> {
            &&& after.valid()
            &&& after.pairs() == before.pairs()
        },
{
    assert(before.pairs().remove(key) =~= before.pairs());
    lemma_drop_absent(before.nodes(), before.root@, 0, key, before.pairs());
}

/// A key that is set and removed again leaves the tree as if it had never been there: the
/// same root and the same pairs, and the empty root where it was the only key, unless the
/// hash collides.
pub proof fn law_remove_undoes_update<S: KVStore>(
    before: Smt<S>,
    with: Smt<S>,
    after: Smt<S>,
    key: Seq<u8>,
    value: Seq<u8>,
)
    requires
        before.valid(),
        !before.pairs().contains_key(key),
        updated(before, with, key, value),
        no_collision(before.pairs(), before.pairs().insert(key, value)),
        removed(with, after, key),
        no_collision_with(with.nodes(), with.pairs(), before.pairs()),
    ensures
        after.root@ == before.root@,
        after.valid(),
        after.pairs() == before.pairs(),
        before.pairs() == Map::<Seq<u8>, Seq<u8>>::empty() ==> after.root@ == smt_model::root_of(
            Map::empty(),
        ),
{
    assert(before.pairs().insert(key, value).remove(key) =~= before.pairs());
    smt_model::lemma_stands_hash(before.nodes(), before.root@, 0, before.pairs());
}

/// Setting a value back to what it was gives the root back.
pub proof fn law_update_restores(m: smt_model::Pairs, k: Seq<u8>, v: Seq<u8>)
    requires
        m.contains_key(k),
    ensures
        smt_model::root_of(m.insert(k, v).insert(k, m[k])) == smt_model::root_of(m),
{
    assert(m.insert(k, v).insert(k, m[k]) =~= m);
}

/// An accepted proof tells the truth about the tree behind the root: the key
/// has the value shown, or is absent if absence is shown, unless the hash
/// collides among the strings of the tree and of the proof.
pub proof fn law_proofs_sound(
    m: smt_model::Pairs,
    key: Seq<u8>,
    expected: Option<Seq<u8>>,
    p: Proof,
    s: Set<Seq<u8>>,
)
    requires
        smt_model::keyed(m),
        key.len() == 32,
        accepts(smt_model::root_of(m), key, expected, p),
        smt_model::strings(m, 0).subset_of(s),
        p.hashed_strings(key).subset_of(s),
        smt_model::collision_free(s),
    ensures
        expected == if m.contains_key(key) {
            Some(m[key])
        } else {
            None
        },
{
    let n = p.siblings@.len() as int;
    let end = terminal_hash(p.terminal, n);
    assert(path_strings(p.siblings@, end, key, 0).subset_of(s)) by {
        assert(path_strings(p.siblings@, end, key, 0).subset_of(p.hashed_strings(key)));
    }
    assert(smt_model::strings(terminal_pairs(p.terminal), n).subset_of(s)) by {
        assert(smt_model::strings(terminal_pairs(p.terminal), n).subset_of(p.hashed_strings(key)));
    }
    lemma_descend(m, m, key, p, 0, s);
}

/// Walking down an accepted path: at depth `d` it meets the pairs of the tree
/// that lie there.
proof fn lemma_descend(
    all: smt_model::Pairs,
    m: smt_model::Pairs,
    key: Seq<u8>,
    p: Proof,
    d: int,
    s: Set<Seq<u8>>,
)
    requires
        0 <= d <= p.siblings@.len() <= 256,
        key.len() == 32,
        smt_model::keyed(m),
        smt_model::agree(m, d),
        m.contains_key(key) == all.contains_key(key),
        m.contains_key(key) ==> m[key] == all[key],
        smt_model::strings(m, d).subset_of(s),
        path_hash(
            p.siblings@,
            terminal_hash(p.terminal, p.siblings@.len() as int),
            key,
            d,
        ) == smt_model::tree_hash(m, d),
        path_strings(
            p.siblings@,
            terminal_hash(p.terminal, p.siblings@.len() as int),
            key,
            d,
        ).subset_of(s),
        smt_model::strings(terminal_pairs(p.terminal), p.siblings@.len() as int).subset_of(s),
        smt_model::collision_free(s),
    ensures
        terminal_pairs(p.terminal).contains_key(key) == all.contains_key(key),
        all.contains_key(key) ==> terminal_pairs(p.terminal)[key] == all[key],
    decreases p.siblings@.len() - d,
{
    let n = p.siblings@.len() as int;
    let end = terminal_hash(p.terminal, n);
    if d == n {
        let t = terminal_pairs(p.terminal);
        match p.terminal {
            Terminal::Empty => {
                smt_model::lemma_empty_tree(d);
            },
            Terminal::Leaf { key: k, value } => {
                smt_model::lemma_one_tree(k@, value@, d);
                smt_model::lemma_one_keyed(k@, value@, d);
            },
        }
        smt_model::law_root_binds(t, d, m, d, s);
    } else {
        let b = smt_model::bit(key, d);
        let below = path_hash(p.siblings@, end, key, d + 1);
        let sib = p.siblings@[d]@;
        let (l, r) = (smt_model::side(m, d, false), smt_model::side(m, d, true));
        let (hl, hr) = (smt_model::tree_hash(l, d + 1), smt_model::tree_hash(r, d + 1));
        let x = if b {
            smt_model::internal_string(sib, below)
        } else {
            smt_model::internal_string(below, sib)
        };
        let y = smt_model::internal_string(hl, hr);
        assert(path_strings(p.siblings@, end, key, d).contains(x));
        assert(smt_model::strings(m, d).contains(y));
        assert(hashing::digest(x) == hashing::digest(y));
        lemma_path_len(p, key, d + 1);
        if b {
            smt_model::lemma_internal_injective(sib, below, hl, hr);
        } else {
            smt_model::lemma_internal_injective(below, sib, hl, hr);
        }
        let inner = smt_model::side(m, d, b);
        smt_model::lemma_side_agree(m, d, b);
        assert(smt_model::strings(inner, d + 1).subset_of(smt_model::strings(m, d)));
        assert(path_strings(p.siblings@, end, key, d + 1).subset_of(
            path_strings(p.siblings@, end, key, d),
        ));
        lemma_descend(all, inner, key, p, d + 1, s);
    }
}

proof fn lemma_path_len(p: Proof, key: Seq<u8>, d: int)
    requires
        0 <= d <= p.siblings@.len() <= 256,
    ensures
        path_hash(
            p.siblings@,
            terminal_hash(p.terminal, p.siblings@.len() as int),
            key,
            d,
        ).len() == 32,
{
}

// --- pruning ----------------------------------------------------------------

/// Result of a [`prune`] sweep over [`Column::State`].
#[derive(Debug, Clone, Copy, PartialEq, Eq)]
pub struct PruneStats {
    /// Nodes reachable from a retained root (left in place).
    pub kept: usize,
    /// Unreachable nodes deleted by the sweep.
    pub dropped: usize,
}

/// Whether `h` is one of the `roots`.
pub open spec fn is_root(roots: Seq<[u8; 32]>, h: Seq<u8>) -> bool {
    exists|i: int| 0 <= i < roots.len() && (#[trigger] roots[i])@ == h
}

/// Whether the node at `parent` has `h` as a child.
pub open spec fn is_child(nodes: Map<Seq<u8>, Seq<u8>>, parent: Seq<u8>, h: Seq<u8>) -> bool {
    match smt_model::decoded(nodes[parent]) {
        Some(smt_model::NodeView::Internal { left, right }) => h == left || h == right,
        _ => false,
    }
}

/// Whether a stored node can be reached from a root in at most `n` steps.
pub open spec fn reachable_in(
    nodes: Map<Seq<u8>, Seq<u8>>,
    roots: Seq<[u8; 32]>,
    h: Seq<u8>,
    n: nat,
) -> bool
    decreases n,
{
    &&& nodes.contains_key(h)
    &&& is_root(roots, h) || (n > 0 && exists|p: Seq<u8>|
        reachable_in(nodes, roots, p, (n - 1) as nat) && #[trigger] is_child(nodes, p, h))
}

/// Whether a stored node can be reached from a root.
pub open spec fn reachable(
    nodes: Map<Seq<u8>, Seq<u8>>,
    roots: Seq<[u8; 32]>,
    h: Seq<u8>,
) -> bool {
    exists|n: nat| #[trigger] reachable_in(nodes, roots, h, n)
}

/// Whether `h` may be looked at: it is a root or the child of a node reached.
spec fn due(nodes: Map<Seq<u8>, Seq<u8>>, roots: Seq<[u8; 32]>, h: Seq<u8>) -> bool {
    is_root(roots, h) || exists|p: Seq<u8>|
        #[trigger] reachable(nodes, roots, p) && is_child(nodes, p, h)
}

proof fn lemma_due(nodes: Map<Seq<u8>, Seq<u8>>, roots: Seq<[u8; 32]>, h: Seq<u8>)
    requires
        due(nodes, roots, h),
        nodes.contains_key(h),
    ensures
        reachable(nodes, roots, h),
{
    if is_root(roots, h) {
        assert(reachable_in(nodes, roots, h, 0));
    } else {
        let p = choose|p: Seq<u8>| #[trigger]
            reachable(nodes, roots, p) && is_child(nodes, p, h);
        let n = choose|n: nat| #[trigger] reachable_in(nodes, roots, p, n);
        assert(reachable_in(nodes, roots, h, n + 1));
    }
}

/// A set that holds the stored roots and is closed under children holds every
/// reachable node.
proof fn lemma_closed(
    nodes: Map<Seq<u8>, Seq<u8>>,
    roots: Seq<[u8; 32]>,
    live: Set<Seq<u8>>,
    h: Seq<u8>,
    n: nat,
)
    requires
        forall|x: Seq<u8>|
            #![trigger live.contains(x)]
            is_root(roots, x) && nodes.contains_key(x) ==> live.contains(x),
        forall|p: Seq<u8>, x: Seq<u8>|
            #![trigger live.contains(p), is_child(nodes, p, x)]
            live.contains(p) && is_child(nodes, p, x) && nodes.contains_key(x) ==> live.contains(x),
        reachable_in(nodes, roots, h, n),
    ensures
        live.contains(h),
    decreases n,
{
    if !is_root(roots, h) {
        let p = choose|p: Seq<u8>|
            reachable_in(nodes, roots, p, (n - 1) as nat) && #[trigger] is_child(nodes, p, h);
        lemma_closed(nodes, roots, live, p, (n - 1) as nat);
    }
}

/// Every node hash reachable from any of `roots` (the mark phase), as the keys
/// of the result. Default (empty-subtree) hashes are never stored, so a child
/// that does not resolve is skipped; subtrees shared between roots are visited
/// once.
pub fn reachable_nodes<S: KVStore>(store: &S, roots: &[[u8; 32]]) -> (live: ByteMap)
    ensures
        forall|h: Seq<u8>| #[trigger]
            live@.dom().contains(h) == reachable(nodes_of(store.holds()), roots@, h),
{
    let ghost nodes = nodes_of(store.holds());
    let mut live = ByteMap::new();
    let mut stack: Vec<[u8; 32]> = Vec::new();
    let mut i: usize = 0;
    while i < roots.len()
        invariant
            i <= roots@.len(),
            stack@.len() == i,
            forall|j: int| 0 <= j < i ==> stack@[j] == roots@[j],
        decreases roots@.len() - i,
    {
        stack.push(roots[i]);
        i += 1;
    }
    proof {
        assert forall|j: int| 0 <= j < stack@.len() implies due(
            nodes,
            roots@,
            (#[trigger] stack@[j])@,
        ) by {
            assert(roots@[j]@ == stack@[j]@);
        }
        assert forall|x: Seq<u8>| is_root(roots@, x) implies waits(stack@, x) by {
            let j = choose|j: int| 0 <= j < roots@.len() && (#[trigger] roots@[j])@ == x;
            assert(stack@[j]@ == x);
        }
        store.holds_finitely();
        lemma_nodes_finite(store.holds());
        assert(live@.dom() =~= Set::empty());
    }
    while stack.len() > 0
        invariant
            nodes == nodes_of(store.holds()),
            nodes.dom().finite(),
            live@.dom().finite(),
            live@.dom().subset_of(nodes.dom()),
            forall|h: Seq<u8>| #[trigger]
                live@.dom().contains(h) ==> reachable(nodes, roots@, h),
            forall|j: int| 0 <= j < stack@.len() ==> due(nodes, roots@, (#[trigger] stack@[j])@),
            forall|x: Seq<u8>|
                is_root(roots@, x) && nodes.contains_key(x) ==> live@.dom().contains(x) || waits(
                    stack@,
                    x,
                ),
            forall|p: Seq<u8>, x: Seq<u8>|
                #![trigger live@.dom().contains(p), is_child(nodes, p, x)]
                live@.dom().contains(p) && is_child(nodes, p, x) && nodes.contains_key(x)
                    ==> live@.dom().contains(x) || waits(stack@, x),
        decreases nodes.dom().len() - live@.dom().len(), stack@.len(),
    {
        let ghost was = stack@;
        let ghost seen = live@.dom();
        proof {
            vstd::set_lib::lemma_len_subset(seen, nodes.dom());
        }
        if let Some(hash) = stack.pop() {
            proof {
                assert(was[was.len() - 1] == hash);
                assert forall|x: Seq<u8>| waits(was, x) implies x == hash@ || waits(stack@, x) by {
                    let j = choose|j: int| 0 <= j < was.len() && (#[trigger] was[j])@ == x;
                    if j < stack@.len() {
                        assert(stack@[j]@ == x);
                    }
                }
                assert forall|j: int| 0 <= j < stack@.len() implies due(
                    nodes,
                    roots@,
                    (#[trigger] stack@[j])@,
                ) by {
                    assert(stack@[j] == was[j]);
                }
            }
            if !live.contains(hash.as_slice()) {
                if let Some(bytes) = store.get(Column::State, hash.as_slice()) {
                    proof {
                        lemma_due(nodes, roots@, hash@);
                    }
                    live.insert(copy_bytes(hash.as_slice()), Vec::new());
                    proof {
                        assert(live@.dom() =~= seen.insert(hash@));
                        vstd::set_lib::lemma_len_subset(live@.dom(), nodes.dom());
                    }
                    let ghost mid = stack@;
                    if let Some(Node::Internal { left, right }) = Node::decode(bytes.as_slice()) {
                        stack.push(left);
                        stack.push(right);
                        proof {
                            assert(is_child(nodes, hash@, left@));
                            assert(is_child(nodes, hash@, right@));
                            assert(stack@[mid.len() as int] == left);
                            assert(stack@[mid.len() as int + 1] == right);
                            assert(waits(stack@, left@) && waits(stack@, right@));
                            assert forall|x: Seq<u8>| waits(mid, x) implies waits(stack@, x) by {
                                let j = choose|j: int|
                                    0 <= j < mid.len() && (#[trigger] mid[j])@ == x;
                                assert(stack@[j]@ == x);
                            }
                            assert forall|j: int| 0 <= j < stack@.len() implies due(
                                nodes,
                                roots@,
                                (#[trigger] stack@[j])@,
                            ) by {
                                if j < mid.len() {
                                    assert(stack@[j] == mid[j]);
                                }
                            }
                        }
                    }
                }
            }
        }
    }
    proof {
        assert forall|x: Seq<u8>| !waits(stack@, x) by {}
        assert forall|h: Seq<u8>| #[trigger] live@.dom().contains(h) == reachable(
            nodes,
            roots@,
            h,
        ) by {
            if reachable(nodes, roots@, h) {
                let n = choose|n: nat| #[trigger] reachable_in(nodes, roots@, h, n);
                lemma_closed(nodes, roots@, live@.dom(), h, n);
            }
        }
    }
    live
}

/// Whether `h` is still to be looked at.
spec fn waits(stack: Seq<[u8; 32]>, h: Seq<u8>) -> bool {
    exists|j: int| 0 <= j < stack.len() && (#[trigger] stack[j])@ == h
}

proof fn lemma_nodes_finite(m: store::Contents)
    requires
        m.dom().finite(),
    ensures
        nodes_of(m).dom().finite(),
{
    let keys = m.dom().map(|x: (Column, Seq<u8>)| x.1);
    m.dom().lemma_map_finite(|x: (Column, Seq<u8>)| x.1);
    assert(nodes_of(m).dom().subset_of(keys)) by {
        assert forall|k: Seq<u8>| nodes_of(m).dom().contains(k) implies keys.contains(k) by {
            assert(m.dom().contains((Column::State, k)));
        }
    }
    vstd::set_lib::lemma_set_subset_finite(keys, nodes_of(m).dom());
}

/// What a store holds once only reachable nodes are left in the trie's column.
pub open spec fn pruned(m: store::Contents, retain: Seq<[u8; 32]>) -> store::Contents {
    Map::new(
        |x: (Column, Seq<u8>)|
            m.contains_key(x) && (x.0 == Column::State ==> reachable(nodes_of(m), retain, x.1)),
        |x: (Column, Seq<u8>)| m[x],
    )
}

/// Mark-and-sweep prune of the state trie: delete every node in
/// [`Column::State`] not reachable from one of the `retain` roots. Stored nodes
/// never change, so anything unreachable can never be referenced again, and
/// every retained root remains fully readable and provable.
pub fn prune<S: KVStore>(store: &mut S, retain: &[[u8; 32]]) -> (r: PruneStats)
    ensures
        final(store).holds() == pruned(old(store).holds(), retain@),
        nodes_of(old(store).holds()).dom().finite(),
        r.kept == nodes_of(pruned(old(store).holds(), retain@)).dom().len(),
        r.kept + r.dropped == nodes_of(old(store).holds()).dom().len(),
        r.dropped == 0 ==> *final(store) == *old(store),
        r.dropped > 0 ==> final(store).writes() == old(store).writes() + 1,
        final(store).under() == old(store).under(),
        forall|i: int, m: smt_model::Pairs|
            #![trigger smt_model::stands_for(nodes_of(final(store).holds()), retain@[i]@, 0, m)]
            0 <= i < retain@.len() && smt_model::stands_for(
                nodes_of(old(store).holds()),
                retain@[i]@,
                0,
                m,
            ) ==> smt_model::stands_for(nodes_of(final(store).holds()), retain@[i]@, 0, m),
{
    let ghost held = store.holds();
    let ghost nodes = nodes_of(held);
    let live = reachable_nodes(&*store, retain);
    let every: [u8; 0] = [];
    let mut pairs = store.scan_prefix(Column::State, every.as_slice());
    let ghost all = pairs@;
    proof {
        assert(every@ =~= Seq::empty());
        assert(byte_map::prefixed(nodes, Seq::empty()) =~= nodes) by {
            assert forall|k: Seq<u8>| crate::bytes::has_prefix(k, Seq::empty()) by {
                assert(k.subrange(0, 0) =~= Seq::empty());
            }
        }
        byte_map::lemma_size(all);
    }
    let kept = live.len();
    let total = pairs.len();
    let mut batch = WriteBatch::new();
    let mut dropped: usize = 0;
    let mut i: usize = 0;
    let ghost mut gone: Set<Seq<u8>> = Set::empty();
    while i < pairs.len()
        invariant
            pairs@ == all,
            i <= all.len(),
            byte_map::ascending(all),
            byte_map::as_map(all) == nodes,
            nodes == nodes_of(held),
            dropped <= i,
            gone.finite(),
            gone.len() == dropped,
            forall|h: Seq<u8>| #[trigger]
                live@.dom().contains(h) == reachable(nodes, retain@, h),
            forall|k: Seq<u8>|
                gone.contains(k) <==> !reachable(nodes, retain@, k) && exists|j: int|
                    0 <= j < i && #[trigger] all[j].0@ == k,
            store::written(held, batch@) == held.remove_keys(
                gone.map(|k: Seq<u8>| (Column::State, k)),
            ),
            dropped == batch@.len(),
        decreases all.len() - i,
    {
        let ghost was = gone;
        let ghost k = all[i as int].0@;
        proof {
            byte_map::lemma_entry(all, i as int);
            assert(!was.contains(k)) by {
                if exists|j: int| 0 <= j < i && #[trigger] all[j].0@ == k {
                    let j = choose|j: int| 0 <= j < i && #[trigger] all[j].0@ == k;
                    byte_map::lemma_entry(all, j);
                }
            }
        }
        if !live.contains(pairs[i].0.as_slice()) {
            let ghost before = batch@;
            batch.delete(Column::State, copy_bytes(pairs[i].0.as_slice()));
            dropped += 1;
            proof {
                gone = gone.insert(k);
                store::lemma_written_push(held, before, (Column::State, k, None));
                lemma_gone(held, was, k);
            }
        }
        proof {
            assert forall|x: Seq<u8>| gone.contains(x) <==> !reachable(nodes, retain@, x)
                && exists|j: int| 0 <= j < i + 1 && #[trigger] all[j].0@ == x by {
                if exists|j: int| 0 <= j < i + 1 && #[trigger] all[j].0@ == x {
                    let j = choose|j: int| 0 <= j < i + 1 && #[trigger] all[j].0@ == x;
                    if j < i {
                        assert(exists|j: int| 0 <= j < i && #[trigger] all[j].0@ == x);
                    }
                }
                if exists|j: int| 0 <= j < i && #[trigger] all[j].0@ == x {
                    let j = choose|j: int| 0 <= j < i && #[trigger] all[j].0@ == x;
                    assert(0 <= j < i + 1 && all[j].0@ == x);
                }
                assert(all[i as int].0@ == k);
            }
        }
        i += 1;
    }
    let ghost left = held.remove_keys(gone.map(|k: Seq<u8>| (Column::State, k)));
    proof {
        assert forall|k: Seq<u8>| #[trigger] gone.contains(k) == (nodes.dom().contains(k)
            && !reachable(nodes, retain@, k)) by {
            assert(byte_map::as_map(all).dom().contains(k) == byte_map::has_key(all, k));
            if byte_map::has_key(all, k) {
                let j = byte_map::index_of(all, k);
                assert(all[j].0@ == k);
            }
        }
        lemma_left(held, retain@, gone);
        assert forall|h: Seq<u8>| #[trigger] live@.dom().contains(h) == nodes_of(
            pruned(held, retain@),
        ).dom().contains(h) by {
            if reachable(nodes, retain@, h) {
                let n = choose|n: nat| #[trigger] reachable_in(nodes, retain@, h, n);
                assert(nodes.contains_key(h));
            }
        }
        assert(live@.dom() =~= nodes_of(pruned(held, retain@)).dom());
        assert(live@.dom().union(gone) =~= nodes.dom());
        assert(live@.dom().intersect(gone) =~= Set::empty());
        vstd::set_lib::lemma_set_disjoint_lens(live@.dom(), gone);
    }
    if dropped > 0 {
        store.write(batch);
    } else {
        assert(batch@ =~= Seq::empty());
    }
    proof {
        let after = nodes_of(store.holds());
        assert forall|i: int, m: smt_model::Pairs|
            #![trigger smt_model::stands_for(after, retain@[i]@, 0, m)]
            0 <= i < retain@.len() && smt_model::stands_for(
                nodes,
                retain@[i]@,
                0,
                m,
            ) implies smt_model::stands_for(after, retain@[i]@, 0, m) by {
            assert(is_root(retain@, retain@[i]@));
            lemma_retained(held, retain@, retain@[i]@, 0, m);
        }
    }
    PruneStats { kept, dropped }
}

/// A node that is kept is still reached once the others are gone.
proof fn lemma_still_reachable(m: store::Contents, retain: Seq<[u8; 32]>, h: Seq<u8>, n: nat)
    requires
        reachable_in(nodes_of(m), retain, h, n),
    ensures
        reachable_in(nodes_of(pruned(m, retain)), retain, h, n),
    decreases n,
{
    let nodes = nodes_of(m);
    let left = nodes_of(pruned(m, retain));
    assert(reachable(nodes, retain, h));
    assert(m.contains_key((Column::State, h)));
    assert(left.contains_key(h));
    if !is_root(retain, h) {
        let p = choose|p: Seq<u8>|
            reachable_in(nodes, retain, p, (n - 1) as nat) && #[trigger] is_child(nodes, p, h);
        lemma_still_reachable(m, retain, p, (n - 1) as nat);
        assert(left[p] == nodes[p]);
        assert(is_child(left, p, h));
    }
}

/// A second prune with the same roots finds nothing to drop: it leaves every store as
/// the first one left it.
pub proof fn law_pruned_once(m: store::Contents, retain: Seq<[u8; 32]>)
    ensures
        pruned(pruned(m, retain), retain) == pruned(m, retain),
{
    let once = pruned(m, retain);
    assert forall|h: Seq<u8>| once.contains_key((Column::State, h)) implies #[trigger] reachable(
        nodes_of(once),
        retain,
        h,
    ) by {
        assert(reachable(nodes_of(m), retain, h));
        let n = choose|n: nat| #[trigger] reachable_in(nodes_of(m), retain, h, n);
        lemma_still_reachable(m, retain, h, n);
        assert(reachable_in(nodes_of(once), retain, h, n));
    }
    assert(pruned(once, retain) =~= once);
}

proof fn lemma_gone(held: store::Contents, was: Set<Seq<u8>>, k: Seq<u8>)
    ensures
        held.remove_keys(was.map(|k: Seq<u8>| (Column::State, k))).remove((Column::State, k))
            == held.remove_keys(was.insert(k).map(|k: Seq<u8>| (Column::State, k))),
{
    let f = |k: Seq<u8>| (Column::State, k);
    assert forall|x: (Column, Seq<u8>)| #[trigger] was.insert(k).map(f).contains(x) == (was.map(
        f,
    ).contains(x) || x == (Column::State, k)) by {
        if was.map(f).contains(x) {
            let y = choose|y: Seq<u8>| was.contains(y) && f(y) == x;
            assert(was.insert(k).contains(y));
        }
        if was.insert(k).map(f).contains(x) {
            let y = choose|y: Seq<u8>| was.insert(k).contains(y) && f(y) == x;
            if y != k {
                assert(was.contains(y));
            }
        }
        assert(was.insert(k).contains(k) && f(k) == (Column::State, k));
    }
    assert(held.remove_keys(was.map(f)).remove((Column::State, k)) =~= held.remove_keys(
        was.insert(k).map(f),
    ));
}

proof fn lemma_left(held: store::Contents, retain: Seq<[u8; 32]>, gone: Set<Seq<u8>>)
    requires
        forall|k: Seq<u8>| #[trigger]
            gone.contains(k) == (nodes_of(held).dom().contains(k) && !reachable(
                nodes_of(held),
                retain,
                k,
            )),
    ensures
        held.remove_keys(gone.map(|k: Seq<u8>| (Column::State, k))) == pruned(held, retain),
{
    let f = |k: Seq<u8>| (Column::State, k);
    assert forall|x: (Column, Seq<u8>)| #[trigger] gone.map(f).contains(x) == (x.0 == Column::State
        && gone.contains(x.1)) by {
        if x.0 == Column::State && gone.contains(x.1) {
            assert(f(x.1) == x);
        }
    }
    assert(held.remove_keys(gone.map(f)) =~= pruned(held, retain));
}

/// A subtree that can be reached from a retained root survives the sweep.
proof fn lemma_retained(
    held: store::Contents,
    retain: Seq<[u8; 32]>,
    h: Seq<u8>,
    d: int,
    m: smt_model::Pairs,
)
    requires
        0 <= d <= 256,
        due(nodes_of(held), retain, h),
        smt_model::stands_for(nodes_of(held), h, d, m),
    ensures
        smt_model::stands_for(nodes_of(pruned(held, retain)), h, d, m),
    decreases 256 - d,
{
    let nodes = nodes_of(held);
    let after = nodes_of(pruned(held, retain));
    if h != smt_model::empty_hash(d) {
        lemma_due(nodes, retain, h);
        assert(held.contains_key((Column::State, h)));
        assert(after.contains_key(h) && after[h] == nodes[h]);
        match smt_model::decoded(nodes[h]) {
            Some(smt_model::NodeView::Internal { left, right }) => {
                assert(is_child(nodes, h, left) && is_child(nodes, h, right));
                lemma_retained(held, retain, left, d + 1, smt_model::side(m, d, false));
                lemma_retained(held, retain, right, d + 1, smt_model::side(m, d, true));
            },
            _ => {},
        }
    }
}

} // verus!
