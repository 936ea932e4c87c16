//! Byte-level building blocks: little-endian integers, slices, comparison.

use vstd::bytes::*;
use vstd::prelude::*;
use vstd::slice::*;

verus! {

/// The two-byte little-endian form of `x`.
pub open spec fn le2(x: u16) -> Seq<u8> {
    spec_u16_to_le_bytes(x)
}

/// The four-byte little-endian form of `x`.
pub open spec fn le4(x: u32) -> Seq<u8> {
    spec_u32_to_le_bytes(x)
}

/// The eight-byte little-endian form of `x`.
pub open spec fn le8(x: u64) -> Seq<u8> {
    spec_u64_to_le_bytes(x)
}

/// The integer whose little-endian form is the two bytes `s`.
pub open spec fn of_le2(s: Seq<u8>) -> u16 {
    spec_u16_from_le_bytes(s)
}

/// The integer whose little-endian form is the four bytes `s`.
pub open spec fn of_le4(s: Seq<u8>) -> u32 {
    spec_u32_from_le_bytes(s)
}

/// The integer whose little-endian form is the eight bytes `s`.
pub open spec fn of_le8(s: Seq<u8>) -> u64 {
    spec_u64_from_le_bytes(s)
}

pub broadcast proof fn lemma_le2(x: u16)
    ensures
        (#[trigger] le2(x)).len() == 2,
        of_le2(le2(x)) == x,
{
    lemma_auto_spec_u16_to_from_le_bytes();
    assert(spec_u16_to_le_bytes(x).len() == 2);
}

pub broadcast proof fn lemma_le4(x: u32)
    ensures
        (#[trigger] le4(x)).len() == 4,
        of_le4(le4(x)) == x,
{
    lemma_auto_spec_u32_to_from_le_bytes();
    assert(spec_u32_to_le_bytes(x).len() == 4);
}

pub broadcast proof fn lemma_le8(x: u64)
    ensures
        (#[trigger] le8(x)).len() == 8,
        of_le8(le8(x)) == x,
{
    lemma_auto_spec_u64_to_from_le_bytes();
}

pub broadcast proof fn lemma_of_le2(s: Seq<u8>)
    requires
        s.len() == 2,
    ensures
        le2(#[trigger] of_le2(s)) == s,
{
    lemma_auto_spec_u16_to_from_le_bytes();
}

pub broadcast proof fn lemma_of_le4(s: Seq<u8>)
    requires
        s.len() == 4,
    ensures
        le4(#[trigger] of_le4(s)) == s,
{
    lemma_auto_spec_u32_to_from_le_bytes();
}

pub broadcast proof fn lemma_of_le8(s: Seq<u8>)
    requires
        s.len() == 8,
    ensures
        le8(#[trigger] of_le8(s)) == s,
{
    lemma_auto_spec_u64_to_from_le_bytes();
}

pub broadcast group group_le {
    lemma_le2,
    lemma_le4,
    lemma_le8,
    lemma_of_le2,
    lemma_of_le4,
    lemma_of_le8,
}

/// What is read back at the front and the back of a concatenation.
pub broadcast proof fn lemma_concat_parts(a: Seq<u8>, b: Seq<u8>)
    ensures
        #[trigger] (a + b).len() == a.len() + b.len(),
        (a + b).subrange(0, a.len() as int) == a,
        (a + b).subrange(a.len() as int, (a + b).len() as int) == b,
{
    assert((a + b).subrange(0, a.len() as int) =~= a);
    assert((a + b).subrange(a.len() as int, (a + b).len() as int) =~= b);
}

/// Adjacent parts make up the whole.
pub broadcast proof fn lemma_adjacent(b: Seq<u8>, i: int, j: int, k: int)
    requires
        0 <= i <= j <= k <= b.len(),
    ensures
        #[trigger] (b.subrange(i, j) + b.subrange(j, k)) == b.subrange(i, k),
{
    assert(b.subrange(i, j) + b.subrange(j, k) =~= b.subrange(i, k));
}

/// Append a `u16`.
pub fn push_u16(out: &mut Vec<u8>, x: u16)
    ensures
        final(out)@ == old(out)@ + le2(x),
{
    let mut b = u16_to_le_bytes(x);
    out.append(&mut b);
}

/// Append a `u32`.
pub fn push_u32(out: &mut Vec<u8>, x: u32)
    ensures
        final(out)@ == old(out)@ + le4(x),
{
    let mut b = u32_to_le_bytes(x);
    out.append(&mut b);
}

/// Append a `u64`.
pub fn push_u64(out: &mut Vec<u8>, x: u64)
    ensures
        final(out)@ == old(out)@ + le8(x),
{
    let mut b = u64_to_le_bytes(x);
    out.append(&mut b);
}

/// Append a run of bytes.
pub fn push_bytes(out: &mut Vec<u8>, b: &[u8])
    ensures
        final(out)@ == old(out)@ + b@,
{
    out.extend_from_slice(b);
    assert(out@ =~= old(out)@ + b@);
}

/// The `u16` at `at`.
pub fn u16_at(b: &[u8], at: usize) -> (x: u16)
    requires
        at + 2 <= b.len(),
    ensures
        x == of_le2(b@.subrange(at as int, at + 2)),
        le2(x) == b@.subrange(at as int, at + 2),
{
    broadcast use group_le;

    u16_from_le_bytes(slice_subrange(b, at, at + 2))
}

/// The `u32` at `at`.
pub fn u32_at(b: &[u8], at: usize) -> (x: u32)
    requires
        at + 4 <= b.len(),
    ensures
        x == of_le4(b@.subrange(at as int, at + 4)),
        le4(x) == b@.subrange(at as int, at + 4),
{
    broadcast use group_le;

    u32_from_le_bytes(slice_subrange(b, at, at + 4))
}

/// The `u64` at `at`.
pub fn u64_at(b: &[u8], at: usize) -> (x: u64)
    requires
        at + 8 <= b.len(),
    ensures
        x == of_le8(b@.subrange(at as int, at + 8)),
        le8(x) == b@.subrange(at as int, at + 8),
{
    broadcast use group_le;

    u64_from_le_bytes(slice_subrange(b, at, at + 8))
}

/// The `N` bytes at `at`, as an array.
pub fn array_at<const N: usize>(b: &[u8], at: usize) -> (r: [u8; N])
    requires
        at + N <= b.len(),
    ensures
        r@ == b@.subrange(at as int, at + N),
{
    let mut a: [u8; N] = [0u8; N];
    let mut i: usize = 0;
    while i < N
        invariant
            i <= N,
            at + N <= b.len(),
            forall|j: int| 0 <= j < i ==> a@[j] == b@[at + j],
        decreases N - i,
    {
        a[i] = b[at + i];
        i += 1;
    }
    assert(a@ =~= b@.subrange(at as int, at + N));
    a
}

/// The bytes of `b` in `[from, to)`, copied.
pub fn copy_range(b: &[u8], from: usize, to: usize) -> (r: Vec<u8>)
    requires
        from <= to <= b@.len(),
    ensures
        r@ == b@.subrange(from as int, to as int),
{
    slice_to_vec(slice_subrange(b, from, to))
}

/// An independent copy of `b`.
pub fn copy_bytes(b: &[u8]) -> (r: Vec<u8>)
    ensures
        r@ == b@,
{
    slice_to_vec(b)
}

/// Whether two runs of bytes are the same.
pub fn same_bytes(a: &[u8], b: &[u8]) -> (r: bool)
    ensures
        r == (a@ == b@),
{
    if a.len() != b.len() {
        return false;
    }
    let mut i: usize = 0;
    while i < a.len()
        invariant
            i <= a@.len(),
            a@.len() == b@.len(),
            forall|j: int| 0 <= j < i ==> a@[j] == b@[j],
        decreases a@.len() - i,
    {
        if a[i] != b[i] {
            return false;
        }
        i += 1;
    }
    assert(a@ =~= b@);
    true
}

/// Whether two 32-byte values are the same.
pub fn same_hash(a: &[u8; 32], b: &[u8; 32]) -> (r: bool)
    ensures
        r == (a@ == b@),
        r == (*a == *b),
{
    let r = same_bytes(a.as_slice(), b.as_slice());
    proof {
        if a@ == b@ {
            assert forall|i: int| 0 <= i < 32 implies a[i] == b[i] by {
                assert(a[i] == a@[i] && b[i] == b@[i]);
            }
            assert(*a =~= *b);
        }
    }
    r
}

/// Two byte arrays with the same bytes are the same array.
pub proof fn lemma_array_eq<const N: usize>(a: [u8; N], b: [u8; N])
    requires
        a@ == b@,
    ensures
        a == b,
{
    assert forall|i: int| 0 <= i < N implies a[i] == b[i] by {
        assert(a[i] == a@[i] && b[i] == b@[i]);
    }
    assert(a =~= b);
}

/// The array whose bytes are `s`.
pub open spec fn array_of<const N: usize>(s: Seq<u8>) -> [u8; N] {
    choose|a: [u8; N]| a@ == s
}

/// An array is the one with its bytes.
pub broadcast proof fn lemma_array_of<const N: usize>(a: [u8; N])
    ensures
        #[trigger] array_of::<N>(a@) == a,
{
    let b = array_of::<N>(a@);
    assert(b@ == a@);
    lemma_array_eq(b, a);
}

/// The four-byte big-endian form of `x`.
pub open spec fn be4(x: u32) -> Seq<u8> {
    seq![le4(x)[3], le4(x)[2], le4(x)[1], le4(x)[0]]
}

/// Different numbers have different big-endian forms.
pub proof fn lemma_be4(x: u32, y: u32)
    requires
        be4(x) == be4(y),
    ensures
        x == y,
{
    broadcast use group_le;

    assert(be4(x)[0] == be4(y)[0] && be4(x)[1] == be4(y)[1] && be4(x)[2] == be4(y)[2] && be4(x)[3]
        == be4(y)[3]);
    assert(le4(x) =~= le4(y));
}

/// The four-byte big-endian form of `x`.
pub fn be_bytes(x: u32) -> (r: Vec<u8>)
    ensures
        r@ == be4(x),
{
    broadcast use group_le;

    let b = u32_to_le_bytes(x);
    let r = vec![b[3], b[2], b[1], b[0]];
    assert(r@ =~= be4(x));
    r
}

/// Whether two 64-byte values are the same.
pub fn same_array<const N: usize>(a: &[u8; N], b: &[u8; N]) -> (r: bool)
    ensures
        r == (a@ == b@),
        r == (*a == *b),
{
    let r = same_bytes(a.as_slice(), b.as_slice());
    proof {
        if a@ == b@ {
            lemma_array_eq(*a, *b);
        }
    }
    r
}

/// Whether two strings are the same.
pub fn same_str(a: &str, b: &str) -> (r: bool)
    ensures
        r == (a@ == b@),
{
    let r = same_bytes(a.as_bytes(), b.as_bytes());
    proof {
        vstd::utf8::encode_utf8_decode_utf8(a@);
        vstd::utf8::encode_utf8_decode_utf8(b@);
    }
    r
}

/// Lexicographic order on byte strings.
pub open spec fn bytes_lt(a: Seq<u8>, b: Seq<u8>) -> bool
    decreases a.len(),
{
    if b.len() == 0 {
        false
    } else if a.len() == 0 {
        true
    } else if a[0] != b[0] {
        a[0] < b[0]
    } else {
        bytes_lt(a.subrange(1, a.len() as int), b.subrange(1, b.len() as int))
    }
}

/// Where two byte strings first differ decides their order.
pub proof fn lemma_bytes_lt_at(a: Seq<u8>, b: Seq<u8>, i: int)
    requires
        0 <= i <= a.len(),
        i <= b.len(),
        forall|j: int| 0 <= j < i ==> a[j] == b[j],
        i == a.len() || i == b.len() || a[i] != b[i],
    ensures
        bytes_lt(a, b) == (i < b.len() && (i == a.len() || a[i] < b[i])),
    decreases i,
{
    if i > 0 {
        let ta = a.subrange(1, a.len() as int);
        let tb = b.subrange(1, b.len() as int);
        assert(a[0] == b[0]);
        assert forall|j: int| 0 <= j < i - 1 implies ta[j] == tb[j] by {
            assert(a[j + 1] == b[j + 1]);
        }
        lemma_bytes_lt_at(ta, tb, i - 1);
    }
}

/// The first place where two byte strings differ.
pub open spec fn first_difference(a: Seq<u8>, b: Seq<u8>) -> int
    decreases a.len(),
{
    if a.len() == 0 || b.len() == 0 || a[0] != b[0] {
        0
    } else {
        1 + first_difference(a.subrange(1, a.len() as int), b.subrange(1, b.len() as int))
    }
}

pub proof fn lemma_first_difference(a: Seq<u8>, b: Seq<u8>)
    ensures
        ({
            let i = first_difference(a, b);
            &&& 0 <= i <= a.len()
            &&& i <= b.len()
            &&& forall|j: int| 0 <= j < i ==> a[j] == b[j]
            &&& i == a.len() || i == b.len() || a[i] != b[i]
        }),
    decreases a.len(),
{
    if !(a.len() == 0 || b.len() == 0 || a[0] != b[0]) {
        let ta = a.subrange(1, a.len() as int);
        let tb = b.subrange(1, b.len() as int);
        lemma_first_difference(ta, tb);
        let i = first_difference(a, b);
        assert forall|j: int| 0 <= j < i implies a[j] == b[j] by {
            if j > 0 {
                assert(ta[j - 1] == tb[j - 1]);
            }
        }
    }
}

/// Lexicographic order is a strict total order.
pub proof fn lemma_bytes_lt_total(a: Seq<u8>, b: Seq<u8>)
    ensures
        bytes_lt(a, b) ==> !bytes_lt(b, a) && a != b,
        !bytes_lt(a, b) && !bytes_lt(b, a) ==> a == b,
        !bytes_lt(a, a),
{
    lemma_first_difference(a, b);
    let i = first_difference(a, b);
    lemma_bytes_lt_at(a, b, i);
    lemma_bytes_lt_at(b, a, i);
    lemma_bytes_lt_at(a, a, a.len() as int);
    if !bytes_lt(a, b) && !bytes_lt(b, a) {
        assert(a =~= b);
    }
}

pub proof fn lemma_bytes_lt_trans(a: Seq<u8>, b: Seq<u8>, c: Seq<u8>)
    requires
        bytes_lt(a, b),
        bytes_lt(b, c),
    ensures
        bytes_lt(a, c),
{
    lemma_first_difference(a, b);
    lemma_first_difference(b, c);
    let i = first_difference(a, b);
    let j = first_difference(b, c);
    lemma_bytes_lt_at(a, b, i);
    lemma_bytes_lt_at(b, c, j);
    let k = if i <= j { i } else { j };
    assert(forall|x: int| 0 <= x < k ==> a[x] == b[x] && b[x] == c[x]);
    lemma_bytes_lt_at(a, c, k);
}

/// Whether `a` comes before `b` in lexicographic order.
pub fn before(a: &[u8], b: &[u8]) -> (r: bool)
    ensures
        r == bytes_lt(a@, b@),
{
    let mut i: usize = 0;
    while i < a.len() && i < b.len() && a[i] == b[i]
        invariant
            i <= a@.len(),
            i <= b@.len(),
            forall|j: int| 0 <= j < i ==> a@[j] == b@[j],
        decreases a@.len() - i,
    {
        i += 1;
    }
    proof {
        lemma_bytes_lt_at(a@, b@, i as int);
    }
    if i >= b.len() {
        false
    } else if i >= a.len() {
        true
    } else {
        a[i] < b[i]
    }
}

/// Whether `b` starts with `prefix`.
pub open spec fn has_prefix(b: Seq<u8>, prefix: Seq<u8>) -> bool {
    prefix.len() <= b.len() && b.subrange(0, prefix.len() as int) == prefix
}

/// Whether `b` starts with `prefix`.
pub fn starts_with(b: &[u8], prefix: &[u8]) -> (r: bool)
    ensures
        r == has_prefix(b@, prefix@),
{
    if prefix.len() > b.len() {
        return false;
    }
    same_bytes(slice_subrange(b, 0, prefix.len()), prefix)
}

} // verus!
