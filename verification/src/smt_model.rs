//! The sparse Merkle tree as mathematics: what its root commits to, how nodes
//! in a store stand for a set of pairs, and why that is binding.
//!
//! The tree is a full binary tree of depth 256 over 32-byte keys, read from the
//! most significant bit of the first byte. Its hash is defined here on the set
//! of pairs alone, so the root cannot depend on the order of insertion.

use vstd::prelude::*;

use crate::hashing;

verus! {

/// A set of key/value pairs.
pub type Pairs = Map<Seq<u8>, Seq<u8>>;

/// The string hashed for the pair at the end of a path.
pub open spec fn leaf_string(key: Seq<u8>, value: Seq<u8>) -> Seq<u8> {
    seq![0u8] + key + hashing::digest(value)
}

/// The string hashed for a branching of two subtrees.
pub open spec fn internal_string(left: Seq<u8>, right: Seq<u8>) -> Seq<u8> {
    seq![1u8] + left + right
}

/// The string hashed for an empty place at the bottom of the tree.
pub open spec fn empty_string() -> Seq<u8> {
    seq![76u8, 65, 84, 45, 115, 109, 116, 45, 118, 49, 47, 101, 109, 112, 116, 121]
}

pub open spec fn leaf_hash(key: Seq<u8>, value: Seq<u8>) -> Seq<u8> {
    hashing::digest(leaf_string(key, value))
}

pub open spec fn internal_hash(left: Seq<u8>, right: Seq<u8>) -> Seq<u8> {
    hashing::digest(internal_string(left, right))
}

/// Bit `i` of `key`, counted from the most significant end.
pub open spec fn bit(key: Seq<u8>, i: int) -> bool {
    (key[i / 8] >> ((7 - i % 8) as u8)) & 1u8 == 1u8
}

/// A branching with `this` on the side that `b` names.
pub open spec fn join(b: bool, this: Seq<u8>, other: Seq<u8>) -> Seq<u8> {
    if b {
        internal_hash(other, this)
    } else {
        internal_hash(this, other)
    }
}

/// The hash of an empty subtree at depth `d`.
pub open spec fn empty_hash(d: int) -> Seq<u8>
    decreases 256 - d,
{
    if d >= 256 {
        hashing::digest(empty_string())
    } else {
        internal_hash(empty_hash(d + 1), empty_hash(d + 1))
    }
}

/// The hash of the subtree at depth `d` that holds one pair only.
pub open spec fn leaf_at(key: Seq<u8>, value: Seq<u8>, d: int) -> Seq<u8>
    decreases 256 - d,
{
    if d >= 256 {
        leaf_hash(key, value)
    } else {
        join(bit(key, d), leaf_at(key, value, d + 1), empty_hash(d + 1))
    }
}

/// The pairs of `m` whose key has `b` as bit `d`.
pub open spec fn side(m: Pairs, d: int, b: bool) -> Pairs {
    Map::new(|k: Seq<u8>| m.contains_key(k) && bit(k, d) == b, |k: Seq<u8>| m[k])
}

/// The hash of the subtree at depth `d` that holds the pairs `m`.
pub open spec fn tree_hash(m: Pairs, d: int) -> Seq<u8>
    decreases 256 - d,
{
    if d >= 256 {
        if m == Map::<Seq<u8>, Seq<u8>>::empty() {
            hashing::digest(empty_string())
        } else {
            let k = choose|k: Seq<u8>| m.contains_key(k);
            leaf_hash(k, m[k])
        }
    } else {
        internal_hash(tree_hash(side(m, d, false), d + 1), tree_hash(side(m, d, true), d + 1))
    }
}

/// The state root that commits to `m`.
pub open spec fn root_of(m: Pairs) -> Seq<u8> {
    tree_hash(m, 0)
}

/// Every string that is hashed on the way to `tree_hash(m, d)`.
pub open spec fn strings(m: Pairs, d: int) -> Set<Seq<u8>>
    decreases 256 - d,
{
    if d >= 256 {
        if m == Map::<Seq<u8>, Seq<u8>>::empty() {
            set![empty_string()]
        } else {
            let k = choose|k: Seq<u8>| m.contains_key(k);
            set![leaf_string(k, m[k]), m[k]]
        }
    } else {
        strings(side(m, d, false), d + 1).union(strings(side(m, d, true), d + 1)).insert(
            internal_string(
                tree_hash(side(m, d, false), d + 1),
                tree_hash(side(m, d, true), d + 1),
            ),
        )
    }
}

/// Whether no two strings of `s` have the same hash.
pub open spec fn collision_free(s: Set<Seq<u8>>) -> bool {
    forall|a: Seq<u8>, b: Seq<u8>|
        #![trigger hashing::digest(a), hashing::digest(b)]
        s.contains(a) && s.contains(b) && hashing::digest(a) == hashing::digest(b) ==> a == b
}

/// Whether every key has 32 bytes.
pub open spec fn keyed(m: Pairs) -> bool {
    forall|k: Seq<u8>| #[trigger] m.contains_key(k) ==> k.len() == 32
}

/// Whether all keys of `m` agree on their first `d` bits.
pub open spec fn agree(m: Pairs, d: int) -> bool {
    forall|a: Seq<u8>, b: Seq<u8>, i: int|
        m.contains_key(a) && m.contains_key(b) && 0 <= i < d ==> #[trigger] bit(a, i)
            == #[trigger] bit(b, i)
}

/// Whether all keys of `m` agree with `key` on their first `d` bits.
pub open spec fn under(m: Pairs, key: Seq<u8>, d: int) -> bool {
    forall|a: Seq<u8>, i: int|
        #![trigger m.contains_key(a), bit(a, i)]
        m.contains_key(a) && 0 <= i < d ==> bit(a, i) == bit(key, i)
}

/// A node as it is stored.
pub enum NodeView {
    Leaf { key: Seq<u8>, value: Seq<u8> },
    Internal { left: Seq<u8>, right: Seq<u8> },
}

/// The stored form of a node.
pub open spec fn encoded(n: NodeView) -> Seq<u8> {
    match n {
        NodeView::Leaf { key, value } => seq![0u8] + key + value,
        NodeView::Internal { left, right } => seq![1u8] + left + right,
    }
}

/// What stored bytes say. A branching may be followed by further bytes.
pub open spec fn decoded(b: Seq<u8>) -> Option<NodeView> {
    if b.len() >= 33 && b[0] == 0 {
        Some(
            NodeView::Leaf { key: b.subrange(1, 33), value: b.subrange(33, b.len() as int) },
        )
    } else if b.len() >= 65 && b[0] == 1 {
        Some(NodeView::Internal { left: b.subrange(1, 33), right: b.subrange(33, 65) })
    } else {
        None
    }
}

/// Whether the nodes, entered at `h`, stand for the subtree at depth `d` that
/// holds the pairs `m`.
pub open spec fn stands_for(nodes: Map<Seq<u8>, Seq<u8>>, h: Seq<u8>, d: int, m: Pairs) -> bool
    decreases 256 - d,
{
    if h == empty_hash(d) {
        m == Map::<Seq<u8>, Seq<u8>>::empty()
    } else {
        &&& nodes.contains_key(h)
        &&& match decoded(nodes[h]) {
            Some(NodeView::Leaf { key, value }) => {
                &&& m == Map::<Seq<u8>, Seq<u8>>::empty().insert(key, value)
                &&& h == leaf_at(key, value, d)
            },
            Some(NodeView::Internal { left, right }) => {
                &&& d < 256
                &&& h == internal_hash(left, right)
                &&& stands_for(nodes, left, d + 1, side(m, d, false))
                &&& stands_for(nodes, right, d + 1, side(m, d, true))
            },
            None => false,
        }
    }
}

/// Whether every stored leaf stands under the hash of a subtree that holds just
/// that leaf.
pub open spec fn addressed(nodes: Map<Seq<u8>, Seq<u8>>) -> bool {
    forall|h: Seq<u8>|
        #[trigger] nodes.contains_key(h) ==> match decoded(nodes[h]) {
            Some(NodeView::Leaf { key, value }) => exists|d: int|
                0 <= d <= 256 && h == #[trigger] leaf_at(key, value, d),
            _ => true,
        }
}

/// Whether `d` is the greatest depth at which `h` is the hash of the subtree that
/// holds just this pair. (There is one such depth, unless the hash collides.)
pub open spec fn deepest(h: Seq<u8>, key: Seq<u8>, value: Seq<u8>, d: int) -> bool {
    &&& 0 <= d <= 256
    &&& h == leaf_at(key, value, d)
    &&& forall|e: int| d < e <= 256 ==> h != #[trigger] leaf_at(key, value, e)
}

/// Every string hashed for a leaf that the nodes hold.
pub open spec fn leaf_strings(nodes: Map<Seq<u8>, Seq<u8>>) -> Set<Seq<u8>> {
    Set::new(
        |x: Seq<u8>|
            exists|h: Seq<u8>, d: int| #[trigger] nodes.contains_key(h)
                && #[trigger] hashed_at(nodes[h], h, d, x),
    )
}

/// Whether stored bytes are a leaf, stand under `h` for the depth `d`, and have
/// `x` hashed for them.
pub open spec fn hashed_at(b: Seq<u8>, h: Seq<u8>, d: int, x: Seq<u8>) -> bool {
    match decoded(b) {
        Some(NodeView::Leaf { key, value }) => deepest(h, key, value, d) && strings(
            one(key, value),
            d,
        ).contains(x),
        _ => false,
    }
}

// --- facts about the hash ---------------------------------------------------

pub proof fn lemma_internal_injective(a: Seq<u8>, b: Seq<u8>, c: Seq<u8>, d: Seq<u8>)
    requires
        a.len() == c.len(),
        internal_string(a, b) == internal_string(c, d),
    ensures
        a == c,
        b == d,
{
    let s = internal_string(a, b);
    let t = internal_string(c, d);
    assert(s.len() == t.len());
    assert(a =~= c) by {
        assert forall|i: int| 0 <= i < a.len() implies a[i] == c[i] by {
            assert(s[1 + i] == a[i] && t[1 + i] == c[i]);
        }
    }
    assert(b =~= d) by {
        assert forall|i: int| 0 <= i < b.len() implies b[i] == d[i] by {
            assert(s[1 + a.len() + i] == b[i] && t[1 + a.len() + i] == d[i]);
        }
    }
}

pub proof fn lemma_leaf_injective(a: Seq<u8>, v: Seq<u8>, b: Seq<u8>, w: Seq<u8>)
    requires
        a.len() == b.len(),
        leaf_string(a, v) == leaf_string(b, w),
    ensures
        a == b,
        hashing::digest(v) == hashing::digest(w),
{
    let s = leaf_string(a, v);
    let t = leaf_string(b, w);
    assert(a =~= b) by {
        assert forall|i: int| 0 <= i < a.len() implies a[i] == b[i] by {
            assert(s[1 + i] == a[i] && t[1 + i] == b[i]);
        }
    }
    assert(hashing::digest(v) =~= hashing::digest(w)) by {
        assert forall|i: int| 0 <= i < 32
            implies hashing::digest(v)[i] == hashing::digest(w)[i] by {
            assert(s[1 + a.len() + i] == hashing::digest(v)[i]);
            assert(t[1 + a.len() + i] == hashing::digest(w)[i]);
        }
    }
}

/// Keys with the same 256 bits are the same.
pub proof fn lemma_bits_decide(a: Seq<u8>, b: Seq<u8>)
    requires
        a.len() == 32,
        b.len() == 32,
        forall|i: int| 0 <= i < 256 ==> #[trigger] bit(a, i) == bit(b, i),
    ensures
        a == b,
{
    assert forall|j: int| 0 <= j < 32 implies a[j] == b[j] by {
        let x = a[j];
        let y = b[j];
        assert(bit(a, 8 * j) == bit(b, 8 * j));
        assert(bit(a, 8 * j + 1) == bit(b, 8 * j + 1));
        assert(bit(a, 8 * j + 2) == bit(b, 8 * j + 2));
        assert(bit(a, 8 * j + 3) == bit(b, 8 * j + 3));
        assert(bit(a, 8 * j + 4) == bit(b, 8 * j + 4));
        assert(bit(a, 8 * j + 5) == bit(b, 8 * j + 5));
        assert(bit(a, 8 * j + 6) == bit(b, 8 * j + 6));
        assert(bit(a, 8 * j + 7) == bit(b, 8 * j + 7));
        assert(x == y) by (bit_vector)
            requires
                ((x >> 7u8) & 1u8 == 1u8) == ((y >> 7u8) & 1u8 == 1u8),
                ((x >> 6u8) & 1u8 == 1u8) == ((y >> 6u8) & 1u8 == 1u8),
                ((x >> 5u8) & 1u8 == 1u8) == ((y >> 5u8) & 1u8 == 1u8),
                ((x >> 4u8) & 1u8 == 1u8) == ((y >> 4u8) & 1u8 == 1u8),
                ((x >> 3u8) & 1u8 == 1u8) == ((y >> 3u8) & 1u8 == 1u8),
                ((x >> 2u8) & 1u8 == 1u8) == ((y >> 2u8) & 1u8 == 1u8),
                ((x >> 1u8) & 1u8 == 1u8) == ((y >> 1u8) & 1u8 == 1u8),
                ((x >> 0u8) & 1u8 == 1u8) == ((y >> 0u8) & 1u8 == 1u8),
        ;
    }
    assert(a =~= b);
}

// --- facts about the tree ---------------------------------------------------

pub proof fn lemma_side_agree(m: Pairs, d: int, b: bool)
    requires
        agree(m, d),
        keyed(m),
    ensures
        agree(side(m, d, b), d + 1),
        keyed(side(m, d, b)),
{
    let s = side(m, d, b);
    assert forall|x: Seq<u8>, y: Seq<u8>, i: int|
        s.contains_key(x) && s.contains_key(y) && 0 <= i < d + 1 implies #[trigger] bit(x, i)
        == #[trigger] bit(y, i) by {
        assert(m.contains_key(x) && m.contains_key(y));
    }
}

/// The two sides together decide a set of pairs.
pub proof fn lemma_sides_decide(a: Pairs, b: Pairs, d: int)
    requires
        side(a, d, false) == side(b, d, false),
        side(a, d, true) == side(b, d, true),
    ensures
        a == b,
{
    assert forall|k: Seq<u8>| {
        &&& (#[trigger] a.dom().contains(k)) == b.dom().contains(k)
        &&& a.dom().contains(k) ==> a[k] == b[k]
    } by {
        let s = bit(k, d);
        assert(side(a, d, s).dom().contains(k) == a.dom().contains(k));
        assert(side(b, d, s).dom().contains(k) == b.dom().contains(k));
        if a.dom().contains(k) {
            assert(side(a, d, s)[k] == a[k]);
            assert(side(b, d, s)[k] == b[k]);
        }
    }
    assert(a =~= b);
}

/// At the bottom a path holds one pair at most.
pub proof fn lemma_bottom(m: Pairs, k: Seq<u8>)
    requires
        agree(m, 256),
        keyed(m),
        m.contains_key(k),
    ensures
        m == Map::<Seq<u8>, Seq<u8>>::empty().insert(k, m[k]),
{
    assert forall|x: Seq<u8>| #[trigger] m.dom().contains(x) == (x == k) by {
        if m.contains_key(x) {
            lemma_bits_decide(x, k);
        }
    }
    assert(m =~= Map::<Seq<u8>, Seq<u8>>::empty().insert(k, m[k]));
}

pub proof fn lemma_empty_tree(d: int)
    requires
        0 <= d <= 256,
    ensures
        tree_hash(Map::empty(), d) == empty_hash(d),
        forall|b: bool| side(Map::empty(), d, b) == Map::<Seq<u8>, Seq<u8>>::empty(),
    decreases 256 - d,
{
    assert forall|b: bool| side(Map::empty(), d, b) == Map::<Seq<u8>, Seq<u8>>::empty() by {
        assert(side(Map::empty(), d, b) =~= Map::empty());
    }
    if d < 256 {
        lemma_empty_tree(d + 1);
    }
}

pub open spec fn one(k: Seq<u8>, v: Seq<u8>) -> Pairs {
    Map::<Seq<u8>, Seq<u8>>::empty().insert(k, v)
}

pub proof fn lemma_one_sides(k: Seq<u8>, v: Seq<u8>, d: int)
    ensures
        side(one(k, v), d, bit(k, d)) == one(k, v),
        side(one(k, v), d, !bit(k, d)) == Map::<Seq<u8>, Seq<u8>>::empty(),
{
    assert(side(one(k, v), d, bit(k, d)) =~= one(k, v));
    assert(side(one(k, v), d, !bit(k, d)) =~= Map::<Seq<u8>, Seq<u8>>::empty());
}

pub proof fn lemma_one_tree(k: Seq<u8>, v: Seq<u8>, d: int)
    requires
        0 <= d <= 256,
    ensures
        tree_hash(one(k, v), d) == leaf_at(k, v, d),
    decreases 256 - d,
{
    let m = one(k, v);
    if d == 256 {
        assert(m.contains_key(k));
        let x = choose|x: Seq<u8>| m.contains_key(x);
        assert(x == k);
    } else {
        lemma_one_sides(k, v, d);
        lemma_one_tree(k, v, d + 1);
        lemma_empty_tree(d + 1);
    }
}

pub proof fn lemma_one_keyed(k: Seq<u8>, v: Seq<u8>, d: int)
    requires
        k.len() == 32,
    ensures
        keyed(one(k, v)),
        agree(one(k, v), d),
{
}

/// There is a greatest depth for a leaf's hash.
pub proof fn lemma_deepest(h: Seq<u8>, k: Seq<u8>, v: Seq<u8>, d: int) -> (e: int)
    requires
        0 <= d <= 256,
        h == leaf_at(k, v, d),
    ensures
        d <= e <= 256,
        deepest(h, k, v, e),
    decreases 256 - d,
{
    if exists|e: int| d < e <= 256 && h == #[trigger] leaf_at(k, v, e) {
        let e = choose|e: int| d < e <= 256 && h == #[trigger] leaf_at(k, v, e);
        lemma_deepest(h, k, v, e)
    } else {
        d
    }
}

/// Deeper down, fewer strings are hashed for a leaf.
pub proof fn lemma_one_strings(k: Seq<u8>, v: Seq<u8>, d: int, e: int)
    requires
        0 <= d <= e <= 256,
    ensures
        strings(one(k, v), e).subset_of(strings(one(k, v), d)),
    decreases e - d,
{
    if d < e {
        lemma_one_sides(k, v, d);
        lemma_one_strings(k, v, d + 1, e);
        assert(strings(one(k, v), d + 1).subset_of(strings(one(k, v), d)));
    }
}

/// Nodes that stand for a set of pairs are entered at its hash.
pub proof fn lemma_stands_hash(nodes: Map<Seq<u8>, Seq<u8>>, h: Seq<u8>, d: int, m: Pairs)
    requires
        0 <= d <= 256,
        stands_for(nodes, h, d, m),
    ensures
        h == tree_hash(m, d),
        keyed(m),
    decreases 256 - d,
{
    lemma_empty_tree(d);
    if h != empty_hash(d) {
        match decoded(nodes[h]) {
            Some(NodeView::Leaf { key, value }) => {
                lemma_one_tree(key, value, d);
            },
            Some(NodeView::Internal { left, right }) => {
                lemma_stands_hash(nodes, left, d + 1, side(m, d, false));
                lemma_stands_hash(nodes, right, d + 1, side(m, d, true));
                assert forall|k: Seq<u8>| #[trigger] m.contains_key(k) implies k.len() == 32 by {
                    assert(side(m, d, bit(k, d)).contains_key(k));
                }
            },
            None => {},
        }
    }
}

/// Nodes stand for one set of pairs only.
pub proof fn lemma_stands_unique(
    nodes: Map<Seq<u8>, Seq<u8>>,
    h: Seq<u8>,
    d: int,
    m1: Pairs,
    m2: Pairs,
)
    requires
        0 <= d <= 256,
        stands_for(nodes, h, d, m1),
        stands_for(nodes, h, d, m2),
    ensures
        m1 == m2,
    decreases 256 - d,
{
    if h != empty_hash(d) {
        match decoded(nodes[h]) {
            Some(NodeView::Internal { left, right }) => {
                lemma_stands_unique(nodes, left, d + 1, side(m1, d, false), side(m2, d, false));
                lemma_stands_unique(nodes, right, d + 1, side(m1, d, true), side(m2, d, true));
                lemma_sides_decide(m1, m2, d);
            },
            _ => {},
        }
    }
}

/// The root binds: two sets of pairs with the same root are the same, unless
/// the hash has a collision among the strings hashed for them. This holds of
/// subtrees too, whatever depths they stand at.
pub proof fn law_root_binds(m1: Pairs, d1: int, m2: Pairs, d2: int, s: Set<Seq<u8>>)
    requires
        0 <= d1 <= 256,
        0 <= d2 <= 256,
        keyed(m1),
        keyed(m2),
        agree(m1, d1),
        agree(m2, d2),
        strings(m1, d1).subset_of(s),
        strings(m2, d2).subset_of(s),
        collision_free(s),
        tree_hash(m1, d1) == tree_hash(m2, d2),
    ensures
        d1 == d2,
        m1 == m2,
    decreases 256 - d1,
{
    let none = Map::<Seq<u8>, Seq<u8>>::empty();
    if d1 < 256 && d2 < 256 {
        let (l1, r1) = (side(m1, d1, false), side(m1, d1, true));
        let (l2, r2) = (side(m2, d2, false), side(m2, d2, true));
        let x = internal_string(tree_hash(l1, d1 + 1), tree_hash(r1, d1 + 1));
        let y = internal_string(tree_hash(l2, d2 + 1), tree_hash(r2, d2 + 1));
        assert(strings(m1, d1).contains(x));
        assert(strings(m2, d2).contains(y));
        assert(hashing::digest(x) == hashing::digest(y));
        lemma_hash_len(l1, d1 + 1);
        lemma_hash_len(l2, d2 + 1);
        lemma_internal_injective(
            tree_hash(l1, d1 + 1),
            tree_hash(r1, d1 + 1),
            tree_hash(l2, d2 + 1),
            tree_hash(r2, d2 + 1),
        );
        lemma_side_agree(m1, d1, false);
        lemma_side_agree(m1, d1, true);
        lemma_side_agree(m2, d2, false);
        lemma_side_agree(m2, d2, true);
        assert(strings(l1, d1 + 1).subset_of(s)) by {
            assert(strings(l1, d1 + 1).subset_of(strings(m1, d1)));
        }
        assert(strings(r1, d1 + 1).subset_of(s)) by {
            assert(strings(r1, d1 + 1).subset_of(strings(m1, d1)));
        }
        assert(strings(l2, d2 + 1).subset_of(s)) by {
            assert(strings(l2, d2 + 1).subset_of(strings(m2, d2)));
        }
        assert(strings(r2, d2 + 1).subset_of(s)) by {
            assert(strings(r2, d2 + 1).subset_of(strings(m2, d2)));
        }
        law_root_binds(l1, d1 + 1, l2, d2 + 1, s);
        law_root_binds(r1, d1 + 1, r2, d2 + 1, s);
        lemma_sides_decide(m1, m2, d1);
    } else if d1 < 256 {
        lemma_levels_differ(m2, m1, d1, s);
    } else if d2 < 256 {
        lemma_levels_differ(m1, m2, d2, s);
    } else {
        if m1 == none && m2 == none {
        } else if m1 == none || m2 == none {
            let m = if m1 == none { m2 } else { m1 };
            assert(exists|k: Seq<u8>| m.contains_key(k)) by {
                if forall|k: Seq<u8>| !m.contains_key(k) {
                    assert(m =~= none);
                }
            }
            let k = choose|k: Seq<u8>| m.contains_key(k);
            assert(s.contains(leaf_string(k, m[k])));
            assert(s.contains(empty_string()));
            assert(leaf_string(k, m[k])[0] == 0);
            assert(hashing::digest(leaf_string(k, m[k])) == hashing::digest(empty_string()));
        } else {
            assert(exists|k: Seq<u8>| m1.contains_key(k)) by {
                if forall|k: Seq<u8>| !m1.contains_key(k) {
                    assert(m1 =~= none);
                }
            }
            assert(exists|k: Seq<u8>| m2.contains_key(k)) by {
                if forall|k: Seq<u8>| !m2.contains_key(k) {
                    assert(m2 =~= none);
                }
            }
            let k1 = choose|k: Seq<u8>| m1.contains_key(k);
            let k2 = choose|k: Seq<u8>| m2.contains_key(k);
            assert(s.contains(leaf_string(k1, m1[k1])) && s.contains(m1[k1]));
            assert(s.contains(leaf_string(k2, m2[k2])) && s.contains(m2[k2]));
            assert(hashing::digest(leaf_string(k1, m1[k1])) == hashing::digest(
                leaf_string(k2, m2[k2]),
            ));
            lemma_leaf_injective(k1, m1[k1], k2, m2[k2]);
            lemma_bottom(m1, k1);
            lemma_bottom(m2, k2);
        }
    }
}

/// A subtree at the bottom never has the hash of one above it.
proof fn lemma_levels_differ(bottom: Pairs, m: Pairs, d: int, s: Set<Seq<u8>>)
    requires
        0 <= d < 256,
        strings(bottom, 256).subset_of(s),
        strings(m, d).subset_of(s),
        collision_free(s),
    ensures
        tree_hash(bottom, 256) != tree_hash(m, d),
{
    let y = internal_string(
        tree_hash(side(m, d, false), d + 1),
        tree_hash(side(m, d, true), d + 1),
    );
    assert(strings(m, d).contains(y));
    assert(y[0] == 1);
    if bottom == Map::<Seq<u8>, Seq<u8>>::empty() {
        assert(strings(bottom, 256).contains(empty_string()));
        assert(empty_string()[0] == 76);
        assert(hashing::digest(empty_string()) == tree_hash(bottom, 256));
    } else {
        let k = choose|k: Seq<u8>| bottom.contains_key(k);
        let x = leaf_string(k, bottom[k]);
        assert(strings(bottom, 256).contains(x));
        assert(x[0] == 0);
        assert(hashing::digest(x) == tree_hash(bottom, 256));
    }
    assert(hashing::digest(y) == tree_hash(m, d));
}

pub proof fn lemma_hash_len(m: Pairs, d: int)
    requires
        0 <= d <= 256,
    ensures
        tree_hash(m, d).len() == 32,
{
}

pub proof fn lemma_decode_encoded(n: NodeView)
    requires
        n matches NodeView::Leaf { key, .. } ==> key.len() == 32,
        n matches NodeView::Internal { left, right } ==> left.len() == 32 && right.len() == 32,
    ensures
        decoded(encoded(n)) == Some(n),
{
    let b = encoded(n);
    match n {
        NodeView::Leaf { key, value } => {
            assert(b[0] == 0);
            assert(b.subrange(1, 33) =~= key);
            assert(b.subrange(33, b.len() as int) =~= value);
        },
        NodeView::Internal { left, right } => {
            assert(b[0] == 1);
            assert(b.subrange(1, 33) =~= left);
            assert(b.subrange(33, 65) =~= right);
        },
    }
}

// --- what a batch of node writes amounts to ----------------------------------

/// A node about to be stored: where, and which subtree it is the top of.
pub struct Put {
    pub hash: Seq<u8>,
    pub depth: int,
    pub pairs: Pairs,
    pub node: NodeView,
}

/// Whether some put is the top of the subtree at depth `d` holding `m`.
pub open spec fn among(puts: Seq<Put>, h: Seq<u8>, d: int, m: Pairs) -> bool {
    exists|i: int|
        0 <= i < puts.len() && (#[trigger] puts[i]).hash == h && puts[i].depth == d && puts[i].pairs
            == m
}

/// Whether the subtree is already stored or about to be.
pub open spec fn backed(
    nodes: Map<Seq<u8>, Seq<u8>>,
    puts: Seq<Put>,
    h: Seq<u8>,
    d: int,
    m: Pairs,
) -> bool {
    stands_for(nodes, h, d, m) || among(puts, h, d, m)
}

/// Whether a put's node is stored under the right hash.
pub open spec fn well_placed(p: Put) -> bool {
    &&& 0 <= p.depth <= 256
    &&& p.hash.len() == 32
    &&& match p.node {
        NodeView::Leaf { key, value } => key.len() == 32 && p.hash == leaf_at(key, value, p.depth),
        NodeView::Internal { left, right } => left.len() == 32 && right.len() == 32 && p.hash
            == internal_hash(left, right),
    }
}

/// Whether a put's node is the top of its subtree, and what hangs below it is
/// backed.
pub open spec fn well_backed(nodes: Map<Seq<u8>, Seq<u8>>, puts: Seq<Put>, p: Put) -> bool {
    match p.node {
        NodeView::Leaf { key, value } => p.pairs == one(key, value),
        NodeView::Internal { left, right } => {
            &&& p.depth < 256
            &&& backed(nodes, puts, left, p.depth + 1, side(p.pairs, p.depth, false))
            &&& backed(nodes, puts, right, p.depth + 1, side(p.pairs, p.depth, true))
        },
    }
}

/// Whether the strings hashed for a put's subtree all lie in `s`.
pub open spec fn covered(p: Put, s: Set<Seq<u8>>) -> bool {
    &&& strings(p.pairs, p.depth).subset_of(s)
    &&& keyed(p.pairs)
    &&& agree(p.pairs, p.depth)
}

pub open spec fn all_placed(puts: Seq<Put>) -> bool {
    forall|i: int| 0 <= i < puts.len() ==> well_placed(#[trigger] puts[i])
}

pub open spec fn all_backed(nodes: Map<Seq<u8>, Seq<u8>>, puts: Seq<Put>) -> bool {
    forall|i: int| 0 <= i < puts.len() ==> well_backed(nodes, puts, #[trigger] puts[i])
}

pub open spec fn all_covered(puts: Seq<Put>, s: Set<Seq<u8>>) -> bool {
    forall|i: int| 0 <= i < puts.len() ==> covered(#[trigger] puts[i], s)
}

/// More puts back no less.
pub proof fn lemma_backed_push(
    nodes: Map<Seq<u8>, Seq<u8>>,
    puts: Seq<Put>,
    p: Put,
    h: Seq<u8>,
    d: int,
    m: Pairs,
)
    requires
        backed(nodes, puts, h, d, m),
    ensures
        backed(nodes, puts.push(p), h, d, m),
{
    if among(puts, h, d, m) {
        let i = choose|i: int|
            0 <= i < puts.len() && (#[trigger] puts[i]).hash == h && puts[i].depth == d
                && puts[i].pairs == m;
        assert(puts.push(p)[i] == puts[i]);
    }
}

/// A further put whose subtree is backed keeps the whole batch backed.
pub proof fn lemma_all_backed_push(nodes: Map<Seq<u8>, Seq<u8>>, puts: Seq<Put>, p: Put)
    requires
        all_backed(nodes, puts),
        well_backed(nodes, puts, p),
    ensures
        all_backed(nodes, puts.push(p)),
        backed(nodes, puts.push(p), p.hash, p.depth, p.pairs),
{
    let q = puts.push(p);
    assert(q[puts.len() as int] == p);
    assert forall|i: int| 0 <= i < q.len() implies well_backed(nodes, q, #[trigger] q[i]) by {
        let x = q[i];
        match x.node {
            NodeView::Leaf { .. } => {
                if i < puts.len() {
                    assert(x == puts[i]);
                }
            },
            NodeView::Internal { left, right } => {
                if i < puts.len() {
                    assert(x == puts[i]);
                    assert(well_backed(nodes, puts, puts[i]));
                }
                lemma_backed_push(nodes, puts, p, left, x.depth + 1, side(x.pairs, x.depth, false));
                lemma_backed_push(nodes, puts, p, right, x.depth + 1, side(x.pairs, x.depth, true));
            },
        }
    }
}

/// A backed subtree is entered at its hash.
pub proof fn lemma_backed_hash(
    nodes: Map<Seq<u8>, Seq<u8>>,
    puts: Seq<Put>,
    h: Seq<u8>,
    d: int,
    m: Pairs,
)
    requires
        0 <= d <= 256,
        all_placed(puts),
        all_backed(nodes, puts),
        backed(nodes, puts, h, d, m),
    ensures
        h == tree_hash(m, d),
    decreases 256 - d,
{
    if stands_for(nodes, h, d, m) {
        lemma_stands_hash(nodes, h, d, m);
    } else {
        let i = choose|i: int|
            0 <= i < puts.len() && (#[trigger] puts[i]).hash == h && puts[i].depth == d
                && puts[i].pairs == m;
        let p = puts[i];
        assert(well_placed(p) && well_backed(nodes, puts, p));
        match p.node {
            NodeView::Leaf { key, value } => {
                lemma_one_tree(key, value, d);
            },
            NodeView::Internal { left, right } => {
                lemma_backed_hash(nodes, puts, left, d + 1, side(m, d, false));
                lemma_backed_hash(nodes, puts, right, d + 1, side(m, d, true));
            },
        }
    }
}

/// The last put at `h`.
pub open spec fn last_put(puts: Seq<Put>, h: Seq<u8>) -> Option<Put>
    decreases puts.len(),
{
    if puts.len() == 0 {
        None
    } else if puts.last().hash == h {
        Some(puts.last())
    } else {
        last_put(puts.drop_last(), h)
    }
}

pub proof fn lemma_last_put(puts: Seq<Put>, h: Seq<u8>)
    ensures
        match last_put(puts, h) {
            Some(p) => exists|i: int| 0 <= i < puts.len() && #[trigger] puts[i] == p && p.hash == h,
            None => forall|i: int| 0 <= i < puts.len() ==> (#[trigger] puts[i]).hash != h,
        },
    decreases puts.len(),
{
    if puts.len() > 0 {
        let f = puts.drop_last();
        lemma_last_put(f, h);
        if puts.last().hash == h {
            assert(puts[puts.len() - 1] == puts.last());
        } else {
            match last_put(f, h) {
                Some(p) => {
                    let i = choose|i: int|
                        0 <= i < f.len() && #[trigger] f[i] == p && p.hash == h;
                    assert(puts[i] == p);
                },
                None => {
                    assert forall|i: int| 0 <= i < puts.len() implies (#[trigger] puts[i]).hash
                        != h by {
                        if i < f.len() {
                            assert(f[i].hash != h);
                        }
                    }
                },
            }
        }
    }
}

/// Whether `after` is `nodes` with the puts stored.
pub open spec fn stored(
    nodes: Map<Seq<u8>, Seq<u8>>,
    puts: Seq<Put>,
    after: Map<Seq<u8>, Seq<u8>>,
) -> bool {
    forall|h: Seq<u8>|
        #![trigger after.contains_key(h)]
        match last_put(puts, h) {
            Some(p) => after.contains_key(h) && after[h] == encoded(p.node),
            None => after.contains_key(h) == nodes.contains_key(h) && (nodes.contains_key(h)
                ==> after[h] == nodes[h]),
        }
}

/// Storing a batch keeps every subtree that was backed, unless the hash has a
/// collision among the strings involved.
pub proof fn lemma_commit(
    nodes: Map<Seq<u8>, Seq<u8>>,
    puts: Seq<Put>,
    after: Map<Seq<u8>, Seq<u8>>,
    h: Seq<u8>,
    d: int,
    m: Pairs,
    s: Set<Seq<u8>>,
)
    requires
        0 <= d <= 256,
        stored(nodes, puts, after),
        all_placed(puts),
        all_backed(nodes, puts),
        all_covered(puts, s),
        collision_free(s),
        strings(m, d).subset_of(s),
        keyed(m),
        agree(m, d),
        backed(nodes, puts, h, d, m),
        h == empty_hash(d) ==> m == Map::<Seq<u8>, Seq<u8>>::empty(),
        strings(Map::empty(), 0).subset_of(s),
    ensures
        stands_for(after, h, d, m),
    decreases 256 - d,
{
    lemma_backed_hash(nodes, puts, h, d, m);
    if h != empty_hash(d) {
        lemma_last_put(puts, h);
        match last_put(puts, h) {
            Some(p) => {
                let i = choose|i: int| 0 <= i < puts.len() && #[trigger] puts[i] == p
                    && p.hash == h;
                assert(well_placed(puts[i]) && well_backed(nodes, puts, puts[i]) && covered(
                    puts[i],
                    s,
                ));
                assert(among(puts, p.hash, p.depth, p.pairs));
                lemma_backed_hash(nodes, puts, p.hash, p.depth, p.pairs);
                law_root_binds(p.pairs, p.depth, m, d, s);
                assert(after.contains_key(h));
                lemma_decode_encoded(p.node);
                match p.node {
                    NodeView::Leaf { key, value } => {},
                    NodeView::Internal { left, right } => {
                        lemma_commit_sides(nodes, puts, after, left, right, d, m, s);
                    },
                }
            },
            None => {
                assert(!among(puts, h, d, m));
                assert(after.contains_key(h));
                match decoded(nodes[h]) {
                    Some(NodeView::Internal { left, right }) => {
                        lemma_commit_sides(nodes, puts, after, left, right, d, m, s);
                    },
                    _ => {},
                }
            },
        }
    }
}

proof fn lemma_commit_sides(
    nodes: Map<Seq<u8>, Seq<u8>>,
    puts: Seq<Put>,
    after: Map<Seq<u8>, Seq<u8>>,
    left: Seq<u8>,
    right: Seq<u8>,
    d: int,
    m: Pairs,
    s: Set<Seq<u8>>,
)
    requires
        0 <= d < 256,
        stored(nodes, puts, after),
        all_placed(puts),
        all_backed(nodes, puts),
        all_covered(puts, s),
        collision_free(s),
        strings(m, d).subset_of(s),
        keyed(m),
        agree(m, d),
        strings(Map::empty(), 0).subset_of(s),
        backed(nodes, puts, left, d + 1, side(m, d, false)),
        backed(nodes, puts, right, d + 1, side(m, d, true)),
    ensures
        stands_for(after, left, d + 1, side(m, d, false)),
        stands_for(after, right, d + 1, side(m, d, true)),
    decreases 256 - d, 0int,
{
    let (l, r) = (side(m, d, false), side(m, d, true));
    lemma_side_agree(m, d, false);
    lemma_side_agree(m, d, true);
    assert(strings(l, d + 1).subset_of(s)) by {
        assert(strings(l, d + 1).subset_of(strings(m, d)));
    }
    assert(strings(r, d + 1).subset_of(s)) by {
        assert(strings(r, d + 1).subset_of(strings(m, d)));
    }
    lemma_backed_hash(nodes, puts, left, d + 1, l);
    lemma_backed_hash(nodes, puts, right, d + 1, r);
    lemma_empty_strings(d + 1, s);
    lemma_empty_tree(d + 1);
    if left == empty_hash(d + 1) {
        law_root_binds(l, d + 1, Map::empty(), d + 1, s);
    }
    if right == empty_hash(d + 1) {
        law_root_binds(r, d + 1, Map::empty(), d + 1, s);
    }
    lemma_commit(nodes, puts, after, left, d + 1, l, s);
    lemma_commit(nodes, puts, after, right, d + 1, r, s);
}

/// The strings of an empty subtree are among those of the empty tree.
pub proof fn lemma_empty_strings(d: int, s: Set<Seq<u8>>)
    requires
        0 <= d <= 256,
        strings(Map::empty(), 0).subset_of(s),
    ensures
        strings(Map::empty(), d).subset_of(s),
    decreases d,
{
    if d > 0 {
        lemma_empty_strings(d - 1, s);
        lemma_empty_tree(d - 1);
        assert(strings(Map::empty(), d).subset_of(strings(Map::empty(), d - 1)));
    }
}

/// Storing a batch brings in no leaf strings but those of the batch.
pub proof fn lemma_leaf_strings(
    nodes: Map<Seq<u8>, Seq<u8>>,
    puts: Seq<Put>,
    after: Map<Seq<u8>, Seq<u8>>,
    s: Set<Seq<u8>>,
)
    requires
        stored(nodes, puts, after),
        all_placed(puts),
        all_backed(nodes, puts),
        all_covered(puts, s),
    ensures
        leaf_strings(after).subset_of(leaf_strings(nodes).union(s)),
{
    assert forall|x: Seq<u8>| leaf_strings(after).contains(x) implies leaf_strings(nodes).union(
        s,
    ).contains(x) by {
        let (h, d) = choose|h: Seq<u8>, d: int|
            #[trigger] after.contains_key(h) && #[trigger] hashed_at(after[h], h, d, x);
        lemma_last_put(puts, h);
        match last_put(puts, h) {
            Some(p) => {
                let i = choose|i: int| 0 <= i < puts.len() && #[trigger] puts[i] == p
                    && p.hash == h;
                assert(well_placed(puts[i]) && well_backed(nodes, puts, puts[i]) && covered(
                    puts[i],
                    s,
                ));
                lemma_decode_encoded(p.node);
                match p.node {
                    NodeView::Leaf { key, value } => {
                        assert(h == leaf_at(key, value, p.depth));
                        lemma_one_strings(key, value, p.depth, d);
                    },
                    _ => {},
                }
            },
            None => {
                assert(nodes.contains_key(h) && nodes[h] == after[h]);
                assert(hashed_at(nodes[h], h, d, x));
            },
        }
    }
}

// --- paths ------------------------------------------------------------------

/// Whether the first `d` bits of two keys are the same.
pub open spec fn bits_agree(a: Seq<u8>, b: Seq<u8>, d: int) -> bool {
    forall|i: int| 0 <= i < d ==> #[trigger] bit(a, i) == bit(b, i)
}

/// Whether the path of `key` from `h` at depth `d` can be walked to its end: its
/// nodes are stored, and a leaf at its end lies on the path.
pub open spec fn path_ok(nodes: Map<Seq<u8>, Seq<u8>>, h: Seq<u8>, d: int, key: Seq<u8>) -> bool
    decreases 256 - d,
{
    h == empty_hash(d) || (nodes.contains_key(h) && match decoded(nodes[h]) {
        Some(NodeView::Leaf { key: k, .. }) => bits_agree(k, key, d),
        Some(NodeView::Internal { left, right }) => d < 256 && path_ok(
            nodes,
            if bit(key, d) {
                right
            } else {
                left
            },
            d + 1,
            key,
        ),
        None => false,
    })
}

/// In a tree every path can be walked.
pub proof fn lemma_path_ok(
    nodes: Map<Seq<u8>, Seq<u8>>,
    h: Seq<u8>,
    d: int,
    key: Seq<u8>,
    m: Pairs,
)
    requires
        0 <= d <= 256,
        stands_for(nodes, h, d, m),
        under(m, key, d),
    ensures
        path_ok(nodes, h, d, key),
    decreases 256 - d,
{
    if h != empty_hash(d) {
        match decoded(nodes[h]) {
            Some(NodeView::Leaf { key: k, value }) => {
                assert(m.contains_key(k));
            },
            Some(NodeView::Internal { left, right }) => {
                let b = bit(key, d);
                let inner = side(m, d, b);
                assert(under(inner, key, d + 1)) by {
                    assert forall|a: Seq<u8>, i: int|
                        #![trigger inner.contains_key(a), bit(a, i)]
                        inner.contains_key(a) && 0 <= i < d + 1 implies bit(a, i) == bit(
                        key,
                        i,
                    ) by {
                        assert(m.contains_key(a));
                    }
                }
                lemma_path_ok(nodes, if b { right } else { left }, d + 1, key, inner);
            },
            None => {},
        }
    }
}

} // verus!
