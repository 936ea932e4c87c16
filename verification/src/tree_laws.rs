//! What holds of the shape of the state tree.

use vstd::prelude::*;

use crate::bytes;
use crate::hashing;
use crate::smt_model;
use crate::smt_model::Pairs;

verus! {

/// The tree stands in the order of its keys: a tree of keys that agree in their first
/// `d` bits is two trees, of which the one with the smaller keys is hashed first.
pub proof fn law_tree_is_in_key_order(m: Pairs, d: int) -> (parts: (Pairs, Pairs))
    requires
        0 <= d < 256,
        smt_model::keyed(m),
        smt_model::agree(m, d),
    ensures
        smt_model::tree_hash(m, d) == hashing::digest(
            seq![1u8] + smt_model::tree_hash(parts.0, d + 1) + smt_model::tree_hash(
                parts.1,
                d + 1,
            ),
        ),
        parts.0.union_prefer_right(parts.1) == m,
        forall|a: Seq<u8>, b: Seq<u8>|
            #![trigger parts.0.contains_key(a), parts.1.contains_key(b)]
            parts.0.contains_key(a) && parts.1.contains_key(b) ==> bytes::bytes_lt(a, b),
{
    let low = smt_model::side(m, d, false);
    let high = smt_model::side(m, d, true);
    assert(low.union_prefer_right(high) =~= m);
    assert forall|a: Seq<u8>, b: Seq<u8>|
        #![trigger low.contains_key(a), high.contains_key(b)]
        low.contains_key(a) && high.contains_key(b) implies bytes::bytes_lt(a, b) by {
        assert(m.contains_key(a) && m.contains_key(b));
        assert forall|i: int| 0 <= i < d implies #[trigger] smt_model::bit(a, i) == smt_model::bit(
            b,
            i,
        ) by {}
        lemma_bits_order(a, b, d);
    }
    (low, high)
}

/// A leaf is its key and the hash of its value.
pub proof fn law_leaf_is_key_and_value(k: Seq<u8>, v: Seq<u8>)
    ensures
        smt_model::tree_hash(Map::<Seq<u8>, Seq<u8>>::empty().insert(k, v), 256)
            == hashing::digest(seq![0u8] + k + hashing::digest(v)),
{
    let m = Map::<Seq<u8>, Seq<u8>>::empty().insert(k, v);
    assert(m.contains_key(k));
    assert(m != Map::<Seq<u8>, Seq<u8>>::empty());
}

proof fn lemma_bits_order(a: Seq<u8>, b: Seq<u8>, d: int)
    requires
        a.len() == 32,
        b.len() == 32,
        0 <= d < 256,
        forall|i: int| 0 <= i < d ==> #[trigger] smt_model::bit(a, i) == smt_model::bit(b, i),
        !smt_model::bit(a, d),
        smt_model::bit(b, d),
    ensures
        bytes::bytes_lt(a, b),
{
    let j = d / 8;
    assert forall|k: int| 0 <= k < j implies a[k] == b[k] by {
        lemma_byte_bits(a, b, d, k, 8);
    }
    lemma_byte_bits(a, b, d, j, (d % 8) as u8);
    bytes::lemma_bytes_lt_at(a, b, j);
}

proof fn lemma_byte_bits(a: Seq<u8>, b: Seq<u8>, d: int, k: int, t: u8)
    requires
        a.len() == 32,
        b.len() == 32,
        0 <= k < 32,
        t <= 8,
        8 * k + t <= d < 256,
        t < 8 ==> d == 8 * k + t,
        forall|i: int| 0 <= i < d ==> #[trigger] smt_model::bit(a, i) == smt_model::bit(b, i),
        !smt_model::bit(a, d),
        smt_model::bit(b, d),
    ensures
        t == 8 ==> a[k] == b[k],
        t < 8 ==> a[k] < b[k],
{
    let x = a[k];
    let y = b[k];
    let i = 8 * k;
    assert(0 < t ==> smt_model::bit(a, i) == smt_model::bit(b, i));
    assert(1 < t ==> smt_model::bit(a, i + 1) == smt_model::bit(b, i + 1));
    assert(2 < t ==> smt_model::bit(a, i + 2) == smt_model::bit(b, i + 2));
    assert(3 < t ==> smt_model::bit(a, i + 3) == smt_model::bit(b, i + 3));
    assert(4 < t ==> smt_model::bit(a, i + 4) == smt_model::bit(b, i + 4));
    assert(5 < t ==> smt_model::bit(a, i + 5) == smt_model::bit(b, i + 5));
    assert(6 < t ==> smt_model::bit(a, i + 6) == smt_model::bit(b, i + 6));
    assert(7 < t ==> smt_model::bit(a, i + 7) == smt_model::bit(b, i + 7));
    assert((t == 8 ==> x == y) && (t < 8 ==> x < y)) by (bit_vector)
        requires
            t <= 8,
            0 < t ==> ((x >> 7u8) & 1u8 == 1u8) == ((y >> 7u8) & 1u8 == 1u8),
            1 < t ==> ((x >> 6u8) & 1u8 == 1u8) == ((y >> 6u8) & 1u8 == 1u8),
            2 < t ==> ((x >> 5u8) & 1u8 == 1u8) == ((y >> 5u8) & 1u8 == 1u8),
            3 < t ==> ((x >> 4u8) & 1u8 == 1u8) == ((y >> 4u8) & 1u8 == 1u8),
            4 < t ==> ((x >> 3u8) & 1u8 == 1u8) == ((y >> 3u8) & 1u8 == 1u8),
            5 < t ==> ((x >> 2u8) & 1u8 == 1u8) == ((y >> 2u8) & 1u8 == 1u8),
            6 < t ==> ((x >> 1u8) & 1u8 == 1u8) == ((y >> 1u8) & 1u8 == 1u8),
            7 < t ==> ((x >> 0u8) & 1u8 == 1u8) == ((y >> 0u8) & 1u8 == 1u8),
            t == 0 ==> !((x >> 7u8) & 1u8 == 1u8) && ((y >> 7u8) & 1u8 == 1u8),
            t == 1 ==> !((x >> 6u8) & 1u8 == 1u8) && ((y >> 6u8) & 1u8 == 1u8),
            t == 2 ==> !((x >> 5u8) & 1u8 == 1u8) && ((y >> 5u8) & 1u8 == 1u8),
            t == 3 ==> !((x >> 4u8) & 1u8 == 1u8) && ((y >> 4u8) & 1u8 == 1u8),
            t == 4 ==> !((x >> 3u8) & 1u8 == 1u8) && ((y >> 3u8) & 1u8 == 1u8),
            t == 5 ==> !((x >> 2u8) & 1u8 == 1u8) && ((y >> 2u8) & 1u8 == 1u8),
            t == 6 ==> !((x >> 1u8) & 1u8 == 1u8) && ((y >> 1u8) & 1u8 == 1u8),
            t == 7 ==> !((x >> 0u8) & 1u8 == 1u8) && ((y >> 0u8) & 1u8 == 1u8),
    ;
}

} // verus!
