//! What holds of the wire form of messages: whatever is encoded can be read
//! back, and bytes can be read in one way only.

use vstd::prelude::*;
use vstd::utf8::*;

use crate::bytes;
use crate::text;
use crate::wire;
use crate::wire::Msg;

verus! {

proof fn lemma_cut(a: Seq<u8>, b: Seq<u8>, c: Seq<u8>, d: Seq<u8>)
    requires
        a + b == c + d,
        a.len() == c.len(),
    ensures
        a == c,
        b == d,
{
    bytes::lemma_concat_parts(a, b);
    bytes::lemma_concat_parts(c, d);
}

/// The first part of a run, and the rest.
proof fn lemma_joined_front(parts: Seq<Seq<u8>>)
    requires
        parts.len() > 0,
    ensures
        wire::joined(parts) == parts[0] + wire::joined(parts.skip(1)),
    decreases parts.len(),
{
    if parts.len() == 1 {
        assert(parts.drop_last() =~= Seq::empty());
        assert(parts.skip(1) =~= Seq::empty());
        assert(wire::joined(parts) =~= parts[0] + wire::joined(parts.skip(1)));
    } else {
        let f = parts.drop_last();
        lemma_joined_front(f);
        assert(f.skip(1) =~= parts.skip(1).drop_last());
        assert(parts.skip(1).last() == parts.last());
        assert(f[0] == parts[0]);
        assert(wire::joined(parts) =~= parts[0] + wire::joined(parts.skip(1)));
    }
}

/// Parts of one size make up a run of that size times their number.
proof fn lemma_joined_len(parts: Seq<Seq<u8>>, size: nat)
    requires
        forall|i: int| 0 <= i < parts.len() ==> (#[trigger] parts[i]).len() == size,
    ensures
        wire::joined(parts).len() == size * parts.len(),
    decreases parts.len(),
{
    if parts.len() > 0 {
        lemma_joined_len(parts.drop_last(), size);
        assert(parts.last() == parts[parts.len() - 1]);
        assert(size * parts.len() == size * (parts.len() - 1) + size) by (nonlinear_arith)
            requires
                parts.len() > 0,
        ;
    } else {
        assert(size * 0 == 0) by (nonlinear_arith);
    }
}

/// Runs of as many parts of one size are the same only part by part.
proof fn lemma_joined_same(a: Seq<Seq<u8>>, b: Seq<Seq<u8>>, size: nat)
    requires
        a.len() == b.len(),
        forall|i: int| 0 <= i < a.len() ==> (#[trigger] a[i]).len() == size,
        forall|i: int| 0 <= i < b.len() ==> (#[trigger] b[i]).len() == size,
        wire::joined(a) == wire::joined(b),
    ensures
        a == b,
    decreases a.len(),
{
    if a.len() > 0 {
        let (f, g) = (a.drop_last(), b.drop_last());
        lemma_joined_len(f, size);
        lemma_joined_len(g, size);
        lemma_cut(wire::joined(f), a.last(), wire::joined(g), b.last());
        lemma_joined_same(f, g, size);
        assert(a =~= f.push(a.last()));
        assert(b =~= g.push(b.last()));
    } else {
        assert(a =~= b);
    }
}

/// Addresses that fit are read back at the front of what is left.
proof fn lemma_peers_readable(b: Seq<u8>, at: int, list: Seq<String>)
    requires
        0 <= at <= b.len(),
        list.len() <= 64,
        forall|i: int| 0 <= i < list.len() ==> encode_utf8((#[trigger] list[i])@).len() <= 128,
        bytes::has_prefix(b.subrange(at, b.len() as int), wire::joined(wire::peer_parts(list))),
    ensures
        wire::peers_readable(b, at, list.len() as int),
    decreases list.len(),
{
    if list.len() > 0 {
        let parts = wire::peer_parts(list);
        let rest = list.skip(1);
        let raw = encode_utf8(list[0]@);
        lemma_joined_front(parts);
        assert(wire::peer_parts(rest) =~= parts.skip(1));
        assert(wire::clipped(raw, 128) =~= raw);
        let first = wire::address_bytes(list[0]@);
        assert(first == parts[0]);
        let tail = b.subrange(at, b.len() as int);
        let all = wire::joined(parts);
        assert forall|i: int| 0 <= i < first.len() implies b[at + i] == first[i] by {
            assert(tail.subrange(0, all.len() as int)[i] == all[i]);
            assert(all[i] == first[i]);
        }
        assert(b[at] == first[0]);
        let next = at + 1 + b[at];
        assert(b.subrange(at + 1, next) =~= raw) by {
            assert forall|i: int| 0 <= i < raw.len() implies b[at + 1 + i] == raw[i] by {
                assert(b[at + (1 + i)] == first[1 + i]);
            }
        }
        text::lemma_utf8_chars(list[0]@);
        let more = wire::joined(parts.skip(1));
        let tail2 = b.subrange(next, b.len() as int);
        assert(tail2.subrange(0, more.len() as int) =~= more) by {
            assert forall|i: int| 0 <= i < more.len() implies tail2[i] == more[i] by {
                assert(tail.subrange(0, all.len() as int)[first.len() + i] == all[first.len() + i]);
            }
        }
        assert forall|i: int| 0 <= i < rest.len() implies encode_utf8(
            (#[trigger] rest[i])@,
        ).len() <= 128 by {
            assert(rest[i] == list[i + 1]);
        }
        lemma_peers_readable(b, next, rest);
    }
}

/// The same bytes hold the same addresses.
proof fn lemma_peers_same(b: Seq<u8>, l1: Seq<String>, l2: Seq<String>)
    requires
        l1.len() == l2.len() <= 64,
        forall|i: int| 0 <= i < l1.len() ==> encode_utf8((#[trigger] l1[i])@).len() <= 128,
        forall|i: int| 0 <= i < l2.len() ==> encode_utf8((#[trigger] l2[i])@).len() <= 128,
        bytes::has_prefix(b, wire::joined(wire::peer_parts(l1))),
        bytes::has_prefix(b, wire::joined(wire::peer_parts(l2))),
    ensures
        forall|i: int| 0 <= i < l1.len() ==> (#[trigger] l1[i])@ == l2[i]@,
    decreases l1.len(),
{
    if l1.len() > 0 {
        let (p1, p2) = (wire::peer_parts(l1), wire::peer_parts(l2));
        lemma_joined_front(p1);
        lemma_joined_front(p2);
        let (r1, r2) = (l1.skip(1), l2.skip(1));
        assert(wire::peer_parts(r1) =~= p1.skip(1));
        assert(wire::peer_parts(r2) =~= p2.skip(1));
        let (u1, u2) = (encode_utf8(l1[0]@), encode_utf8(l2[0]@));
        assert(wire::clipped(u1, 128) =~= u1);
        assert(wire::clipped(u2, 128) =~= u2);
        let (f1, f2) = (p1[0], p2[0]);
        let (j1, j2) = (wire::joined(p1), wire::joined(p2));
        assert(b.subrange(0, j1.len() as int)[0] == j1[0]);
        assert(b.subrange(0, j2.len() as int)[0] == j2[0]);
        assert(j1[0] == f1[0] && j2[0] == f2[0]);
        assert(f1.len() == f2.len());
        assert(f1 =~= f2) by {
            assert forall|i: int| 0 <= i < f1.len() implies f1[i] == f2[i] by {
                assert(b.subrange(0, j1.len() as int)[i] == j1[i]);
                assert(b.subrange(0, j2.len() as int)[i] == j2[i]);
            }
        }
        assert(u1 =~= u2) by {
            assert forall|i: int| 0 <= i < u1.len() implies u1[i] == u2[i] by {
                assert(f1[1 + i] == u1[i] && f2[1 + i] == u2[i]);
            }
        }
        text::lemma_utf8_chars(l1[0]@);
        text::lemma_utf8_chars(l2[0]@);
        let n = f1.len() as int;
        let c = b.subrange(n, b.len() as int);
        let (m1, m2) = (wire::joined(p1.skip(1)), wire::joined(p2.skip(1)));
        assert(c.subrange(0, m1.len() as int) =~= m1) by {
            assert forall|i: int| 0 <= i < m1.len() implies c[i] == m1[i] by {
                assert(b.subrange(0, j1.len() as int)[n + i] == j1[n + i]);
            }
        }
        assert(c.subrange(0, m2.len() as int) =~= m2) by {
            assert forall|i: int| 0 <= i < m2.len() implies c[i] == m2[i] by {
                assert(b.subrange(0, j2.len() as int)[n + i] == j2[n + i]);
            }
        }
        assert forall|i: int| 0 <= i < r1.len() implies encode_utf8((#[trigger] r1[i])@).len()
            <= 128 by {
            assert(r1[i] == l1[i + 1]);
        }
        assert forall|i: int| 0 <= i < r2.len() implies encode_utf8((#[trigger] r2[i])@).len()
            <= 128 by {
            assert(r2[i] == l2[i + 1]);
        }
        lemma_peers_same(c, r1, r2);
        assert forall|i: int| 0 <= i < l1.len() implies (#[trigger] l1[i])@ == l2[i]@ by {
            if i > 0 {
                assert(r1[i - 1]@ == r2[i - 1]@);
            }
        }
    }
}

proof fn lemma_records_readable(b: Seq<u8>, at: int, list: Seq<(Vec<u8>, Vec<u8>)>)
    requires
        0 <= at <= b.len(),
        forall|i: int|
            0 <= i < list.len() ==> (#[trigger] list[i]).0@.len() <= u32::MAX && list[i].1@.len()
                <= u32::MAX,
        b.subrange(at, b.len() as int) == wire::joined(wire::record_parts(list)),
    ensures
        wire::records_readable(b, at, list.len() as int),
    decreases list.len(),
{
    broadcast use crate::bytes::group_le;

    let parts = wire::record_parts(list);
    if list.len() > 0 {
        let rest = list.skip(1);
        lemma_joined_front(parts);
        assert(wire::record_parts(rest) =~= parts.skip(1));
        let (key, value) = (list[0].0@, list[0].1@);
        let first = wire::record_bytes(key, value);
        assert(first == parts[0]);
        let tail = b.subrange(at, b.len() as int);
        let (k, v) = (key.len() as int, value.len() as int);
        assert(tail.subrange(0, 4) =~= bytes::le4(k as u32));
        assert(b.subrange(at, at + 4) =~= tail.subrange(0, 4));
        assert(tail.subrange(4 + k, 8 + k) =~= bytes::le4(v as u32));
        assert(b.subrange(at + 4 + k, at + 8 + k) =~= tail.subrange(4 + k, 8 + k));
        let next = at + 8 + k + v;
        assert(b.subrange(next, b.len() as int) =~= wire::joined(parts.skip(1))) by {
            bytes::lemma_concat_parts(first, wire::joined(parts.skip(1)));
            assert(b.subrange(next, b.len() as int) =~= tail.subrange(
                first.len() as int,
                tail.len() as int,
            ));
        }
        assert forall|i: int| 0 <= i < rest.len() implies (#[trigger] rest[i]).0@.len() <= u32::MAX
            && rest[i].1@.len() <= u32::MAX by {
            assert(rest[i] == list[i + 1]);
        }
        lemma_records_readable(b, next, rest);
    } else {
        assert(b.subrange(at, b.len() as int).len() == 0);
    }
}

proof fn lemma_records_same(l1: Seq<(Vec<u8>, Vec<u8>)>, l2: Seq<(Vec<u8>, Vec<u8>)>)
    requires
        l1.len() == l2.len(),
        forall|i: int|
            0 <= i < l1.len() ==> (#[trigger] l1[i]).0@.len() <= u32::MAX && l1[i].1@.len()
                <= u32::MAX,
        forall|i: int|
            0 <= i < l2.len() ==> (#[trigger] l2[i]).0@.len() <= u32::MAX && l2[i].1@.len()
                <= u32::MAX,
        wire::joined(wire::record_parts(l1)) == wire::joined(wire::record_parts(l2)),
    ensures
        forall|i: int|
            0 <= i < l1.len() ==> (#[trigger] l1[i]).0@ == l2[i].0@ && l1[i].1@ == l2[i].1@,
    decreases l1.len(),
{
    broadcast use crate::bytes::group_le;

    if l1.len() > 0 {
        let (p1, p2) = (wire::record_parts(l1), wire::record_parts(l2));
        lemma_joined_front(p1);
        lemma_joined_front(p2);
        let (r1, r2) = (l1.skip(1), l2.skip(1));
        assert(wire::record_parts(r1) =~= p1.skip(1));
        assert(wire::record_parts(r2) =~= p2.skip(1));
        let (k1, v1) = (l1[0].0@, l1[0].1@);
        let (k2, v2) = (l2[0].0@, l2[0].1@);
        let (j1, j2) = (wire::joined(p1), wire::joined(p2));
        assert(j1.subrange(0, 4) =~= bytes::le4(k1.len() as u32));
        assert(j2.subrange(0, 4) =~= bytes::le4(k2.len() as u32));
        let k = k1.len() as int;
        assert(j1.subrange(4 + k, 8 + k) =~= bytes::le4(v1.len() as u32));
        assert(j2.subrange(4 + k, 8 + k) =~= bytes::le4(v2.len() as u32));
        lemma_cut(p1[0], wire::joined(p1.skip(1)), p2[0], wire::joined(p2.skip(1)));
        let a1 = bytes::le4(k1.len() as u32);
        let a2 = bytes::le4(k2.len() as u32);
        lemma_cut(a1 + k1 + bytes::le4(v1.len() as u32), v1, a2 + k2 + bytes::le4(v2.len() as u32),
            v2);
        lemma_cut(a1 + k1, bytes::le4(v1.len() as u32), a2 + k2, bytes::le4(v2.len() as u32));
        lemma_cut(a1, k1, a2, k2);
        assert forall|i: int| 0 <= i < r1.len() implies (#[trigger] r1[i]).0@.len() <= u32::MAX
            && r1[i].1@.len() <= u32::MAX by {
            assert(r1[i] == l1[i + 1]);
        }
        assert forall|i: int| 0 <= i < r2.len() implies (#[trigger] r2[i]).0@.len() <= u32::MAX
            && r2[i].1@.len() <= u32::MAX by {
            assert(r2[i] == l2[i + 1]);
        }
        lemma_records_same(r1, r2);
        assert forall|i: int| 0 <= i < l1.len() implies (#[trigger] l1[i]).0@ == l2[i].0@
            && l1[i].1@ == l2[i].1@ by {
            if i > 0 {
                assert(r1[i - 1].0@ == r2[i - 1].0@);
            }
        }
    }
}

/// What a message's encoding says is that message.
pub proof fn law_encoding_says(m: Msg)
    requires
        m.within(),
    ensures
        wire::says(m.wire(), m),
{
    broadcast use crate::bytes::group_le;

    let w = m.wire();
    assert(w.subrange(0, w.len() as int) =~= w);
    match m {
        Msg::Ack(ok) => {
            assert(w[0] == 5 && w[1] == wire::flag(ok)[0]);
        },
        Msg::HandshakeAck { version, genesis, accepted } => {
            let head = seq![22u8] + bytes::le4(version) + genesis@;
            assert(w.subrange(0, 37) =~= head);
            assert(w[37] == wire::flag(accepted)[0]);
        },
        _ => {},
    }
}

/// Bytes that say a message are accepted. With [`law_encoding_says`], whatever is
/// encoded within its limits is accepted.
#[verifier::rlimit(100)]
pub proof fn law_said_is_readable(b: Seq<u8>, m: Msg)
    requires
        wire::says(b, m),
    ensures
        wire::readable(b),
{
    broadcast use crate::bytes::group_le;

    let w = m.wire();
    match m {
        Msg::Ack(_) => {},
        Msg::HandshakeAck { version, genesis, .. } => {
            assert(b.subrange(0, 37)[0] == b[0]);
        },
        _ => {
            assert(w[0] == m.tag());
            assert(bytes::has_prefix(b, w)) by {
                assert(w.subrange(0, w.len() as int) =~= w);
            }
            assert forall|i: int| 0 <= i < w.len() implies b[i] == w[i] by {
                assert(b.subrange(0, w.len() as int)[i] == b[i]);
            }
            assert(b[0] == w[0]);
            match m {
                Msg::Hello(addr) => {
                    assert(b.subrange(1, b.len() as int) =~= encode_utf8(addr@));
                    text::lemma_utf8_chars(addr@);
                },
                Msg::Peers(list) => {
                    let parts = wire::joined(wire::peer_parts(list@));
                    assert(b[1] == w[1]);
                    let tail = b.subrange(2, b.len() as int);
                    assert(tail.subrange(0, parts.len() as int) =~= parts) by {
                        assert forall|i: int| 0 <= i < parts.len() implies tail[i] == parts[i] by {
                            assert(b[2 + i] == w[2 + i]);
                        }
                    }
                    lemma_peers_readable(b, 2, list@);
                },
                Msg::FindCommon(ids) => {
                    assert(b[1] == w[1]);
                    lemma_joined_len(wire::id_parts(ids@), 32);
                },
                Msg::RingCandidates(list) => {
                    assert(b.subrange(1, 5) =~= bytes::le4(list@.len() as u32));
                    lemma_joined_len(wire::candidate_parts(list@), 96);
                },
                Msg::Handshake { version, genesis, addr } => {
                    let raw = encode_utf8(addr@);
                    assert(wire::clipped(raw, 128) =~= raw);
                    let head = seq![21u8] + bytes::le4(version) + genesis@;
                    assert(w == head + wire::address_bytes(addr@));
                    assert(w[37] == raw.len() as u8);
                    assert(b.subrange(38, 38 + b[37]) =~= raw) by {
                        assert forall|i: int| 0 <= i < raw.len() implies b[38 + i] == raw[i] by {
                            assert(b[38 + i] == w[38 + i]);
                        }
                    }
                    text::lemma_utf8_chars(addr@);
                },
                Msg::StakeReply(staked, list) => {
                    assert(b.subrange(9, 13) =~= bytes::le4(list@.len() as u32));
                    lemma_joined_len(wire::unbonding_parts(list@), 16);
                },
                Msg::StateChunk(list) => {
                    assert(b.subrange(1, 5) =~= bytes::le4(list@.len() as u32));
                    assert(b.subrange(5, b.len() as int) =~= wire::joined(
                        wire::record_parts(list@),
                    ));
                    lemma_records_readable(b, 5, list@);
                },
                Msg::HtlcsReply(list) => {
                    assert(b.subrange(1, 5) =~= bytes::le4(list@.len() as u32));
                    lemma_joined_len(wire::lock_parts(list@), 148);
                },
                Msg::NonceReply(Some(n)) => { assert(b[1] == w[1]); },
                Msg::NonceReply(None) => { assert(b[1] == w[1]); },
                Msg::PublicBalanceReply(Some(n)) => { assert(b[1] == w[1]); },
                Msg::PublicBalanceReply(None) => { assert(b[1] == w[1]); },
                Msg::FinalizedReply(Some((h, id))) => { assert(b[1] == w[1]); },
                Msg::FinalizedReply(None) => { assert(b[1] == w[1]); },
                Msg::PoolReply(Some((lat, tok, lp))) => { assert(b[1] == w[1]); },
                Msg::PoolReply(None) => { assert(b[1] == w[1]); },
                Msg::HtlcReply(Some((token, from, to, amount, hashlock, expiry))) =>
                    { assert(b[1] == w[1]); },
                Msg::HtlcReply(None) => { assert(b[1] == w[1]); },
                Msg::CurveReply(Some((vlat, vtok, real_lat, graduated))) =>
                    { assert(b[1] == w[1]); assert(b[26] == wire::flag(graduated)[0]); },
                Msg::CurveReply(None) => { assert(b[1] == w[1]); },
                Msg::Block(_) => { assert(b[1] == w[1]); },
                Msg::BalanceReply(_) => { assert(b[1] == w[1]); },
                _ => {},
            }
        },
    }
}

/// Bytes say one message only.
#[verifier::rlimit(100)]
pub proof fn law_says_one_message(b: Seq<u8>, m: Msg, o: Msg)
    requires
        wire::says(b, m),
        wire::says(b, o),
    ensures
        m.same(&o),
{
    lemma_same_tag(b, m);
    lemma_same_tag(b, o);
    match (m, o) {
        (Msg::Tip(h), Msg::Tip(o_h)) => {
            broadcast use crate::bytes::group_le;

            lemma_prefixes(b, m, o);
            let a0 = seq![1u8];
            let b0 = seq![1u8];
            let a1 = a0 + bytes::le8(h);
            let b1 = b0 + bytes::le8(o_h);
            lemma_cut(a0, bytes::le8(h), b0, bytes::le8(o_h));
        },
        (Msg::GetBlock(h), Msg::GetBlock(o_h)) => {
            broadcast use crate::bytes::group_le;

            lemma_prefixes(b, m, o);
            let a0 = seq![2u8];
            let b0 = seq![2u8];
            let a1 = a0 + bytes::le8(h);
            let b1 = b0 + bytes::le8(o_h);
            lemma_cut(a0, bytes::le8(h), b0, bytes::le8(o_h));
        },
        (Msg::GetBalance { id, token }, Msg::GetBalance { id: o_id, token: o_token }) => {
            broadcast use crate::bytes::group_le;

            lemma_prefixes(b, m, o);
            let a0 = seq![7u8];
            let b0 = seq![7u8];
            let a1 = a0 + id@;
            let b1 = b0 + o_id@;
            let a2 = a1 + bytes::le4(token);
            let b2 = b1 + bytes::le4(o_token);
            lemma_cut(a1, bytes::le4(token), b1, bytes::le4(o_token));
            lemma_cut(a0, id@, b0, o_id@);
            bytes::lemma_array_eq(id, o_id);
        },
        (Msg::GetNonce(id), Msg::GetNonce(o_id)) => {
            broadcast use crate::bytes::group_le;

            lemma_prefixes(b, m, o);
            let a0 = seq![9u8];
            let b0 = seq![9u8];
            let a1 = a0 + id@;
            let b1 = b0 + o_id@;
            lemma_cut(a0, id@, b0, o_id@);
            bytes::lemma_array_eq(id, o_id);
        },
        (Msg::GetPending { id, token }, Msg::GetPending { id: o_id, token: o_token }) => {
            broadcast use crate::bytes::group_le;

            lemma_prefixes(b, m, o);
            let a0 = seq![11u8];
            let b0 = seq![11u8];
            let a1 = a0 + id@;
            let b1 = b0 + o_id@;
            let a2 = a1 + bytes::le4(token);
            let b2 = b1 + bytes::le4(o_token);
            lemma_cut(a1, bytes::le4(token), b1, bytes::le4(o_token));
            lemma_cut(a0, id@, b0, o_id@);
            bytes::lemma_array_eq(id, o_id);
        },
        (Msg::CommonHeight(h), Msg::CommonHeight(o_h)) => {
            broadcast use crate::bytes::group_le;

            lemma_prefixes(b, m, o);
            let a0 = seq![16u8];
            let b0 = seq![16u8];
            let a1 = a0 + bytes::le8(h);
            let b1 = b0 + bytes::le8(o_h);
            lemma_cut(a0, bytes::le8(h), b0, bytes::le8(o_h));
        },
        (Msg::GetPublicBalance { id, token }, Msg::GetPublicBalance { id: o_id, token: o_token }) =>
            {
            broadcast use crate::bytes::group_le;

            lemma_prefixes(b, m, o);
            let a0 = seq![17u8];
            let b0 = seq![17u8];
            let a1 = a0 + id@;
            let b1 = b0 + o_id@;
            let a2 = a1 + bytes::le4(token);
            let b2 = b1 + bytes::le4(o_token);
            lemma_cut(a1, bytes::le4(token), b1, bytes::le4(o_token));
            lemma_cut(a0, id@, b0, o_id@);
            bytes::lemma_array_eq(id, o_id);
        },
        (Msg::GetRingCandidates { token, max },
            Msg::GetRingCandidates { token: o_token, max: o_max }) => {
            broadcast use crate::bytes::group_le;

            lemma_prefixes(b, m, o);
            let a0 = seq![19u8];
            let b0 = seq![19u8];
            let a1 = a0 + bytes::le4(token);
            let b1 = b0 + bytes::le4(o_token);
            let a2 = a1 + bytes::le4(max);
            let b2 = b1 + bytes::le4(o_max);
            lemma_cut(a1, bytes::le4(max), b1, bytes::le4(o_max));
            lemma_cut(a0, bytes::le4(token), b0, bytes::le4(o_token));
        },
        (Msg::GetContractStorage { contract, key },
            Msg::GetContractStorage { contract: o_contract, key: o_key }) => {
            broadcast use crate::bytes::group_le;

            lemma_prefixes(b, m, o);
            let a0 = seq![23u8];
            let b0 = seq![23u8];
            let a1 = a0 + contract@;
            let b1 = b0 + o_contract@;
            let a2 = a1 + bytes::le8(key);
            let b2 = b1 + bytes::le8(o_key);
            lemma_cut(a1, bytes::le8(key), b1, bytes::le8(o_key));
            lemma_cut(a0, contract@, b0, o_contract@);
            bytes::lemma_array_eq(contract, o_contract);
        },
        (Msg::ContractStorageReply(val), Msg::ContractStorageReply(o_val)) => {
            broadcast use crate::bytes::group_le;

            lemma_prefixes(b, m, o);
            let a0 = seq![24u8];
            let b0 = seq![24u8];
            let a1 = a0 + bytes::le8(val);
            let b1 = b0 + bytes::le8(o_val);
            lemma_cut(a0, bytes::le8(val), b0, bytes::le8(o_val));
        },
        (Msg::HasContract(id), Msg::HasContract(o_id)) => {
            broadcast use crate::bytes::group_le;

            lemma_prefixes(b, m, o);
            let a0 = seq![25u8];
            let b0 = seq![25u8];
            let a1 = a0 + id@;
            let b1 = b0 + o_id@;
            lemma_cut(a0, id@, b0, o_id@);
            bytes::lemma_array_eq(id, o_id);
        },
        (Msg::GetStake(id), Msg::GetStake(o_id)) => {
            broadcast use crate::bytes::group_le;

            lemma_prefixes(b, m, o);
            let a0 = seq![30u8];
            let b0 = seq![30u8];
            let a1 = a0 + id@;
            let b1 = b0 + o_id@;
            lemma_cut(a0, id@, b0, o_id@);
            bytes::lemma_array_eq(id, o_id);
        },
        (Msg::BlockAnnounce { id, height }, Msg::BlockAnnounce { id: o_id, height: o_height }) => {
            broadcast use crate::bytes::group_le;

            lemma_prefixes(b, m, o);
            let a0 = seq![33u8];
            let b0 = seq![33u8];
            let a1 = a0 + id@;
            let b1 = b0 + o_id@;
            let a2 = a1 + bytes::le8(height);
            let b2 = b1 + bytes::le8(o_height);
            lemma_cut(a1, bytes::le8(height), b1, bytes::le8(o_height));
            lemma_cut(a0, id@, b0, o_id@);
            bytes::lemma_array_eq(id, o_id);
        },
        (Msg::StateManifest { anchor_height, anchor_id, record_count, chunk_count },
            Msg::StateManifest { anchor_height: o_anchor_height, anchor_id: o_anchor_id,
            record_count: o_record_count, chunk_count: o_chunk_count }) => {
            broadcast use crate::bytes::group_le;

            lemma_prefixes(b, m, o);
            let a0 = seq![35u8];
            let b0 = seq![35u8];
            let a1 = a0 + bytes::le8(anchor_height);
            let b1 = b0 + bytes::le8(o_anchor_height);
            let a2 = a1 + anchor_id@;
            let b2 = b1 + o_anchor_id@;
            let a3 = a2 + bytes::le8(record_count);
            let b3 = b2 + bytes::le8(o_record_count);
            let a4 = a3 + bytes::le4(chunk_count);
            let b4 = b3 + bytes::le4(o_chunk_count);
            lemma_cut(a3, bytes::le4(chunk_count), b3, bytes::le4(o_chunk_count));
            lemma_cut(a2, bytes::le8(record_count), b2, bytes::le8(o_record_count));
            lemma_cut(a1, anchor_id@, b1, o_anchor_id@);
            lemma_cut(a0, bytes::le8(anchor_height), b0, bytes::le8(o_anchor_height));
            bytes::lemma_array_eq(anchor_id, o_anchor_id);
        },
        (Msg::GetStateChunk(n), Msg::GetStateChunk(o_n)) => {
            broadcast use crate::bytes::group_le;

            lemma_prefixes(b, m, o);
            let a0 = seq![36u8];
            let b0 = seq![36u8];
            let a1 = a0 + bytes::le4(n);
            let b1 = b0 + bytes::le4(o_n);
            lemma_cut(a0, bytes::le4(n), b0, bytes::le4(o_n));
        },
        (Msg::GetPool(token), Msg::GetPool(o_token)) => {
            broadcast use crate::bytes::group_le;

            lemma_prefixes(b, m, o);
            let a0 = seq![38u8];
            let b0 = seq![38u8];
            let a1 = a0 + bytes::le4(token);
            let b1 = b0 + bytes::le4(o_token);
            lemma_cut(a0, bytes::le4(token), b0, bytes::le4(o_token));
        },
        (Msg::GetLpShares { token, id }, Msg::GetLpShares { token: o_token, id: o_id }) => {
            broadcast use crate::bytes::group_le;

            lemma_prefixes(b, m, o);
            let a0 = seq![40u8];
            let b0 = seq![40u8];
            let a1 = a0 + bytes::le4(token);
            let b1 = b0 + bytes::le4(o_token);
            let a2 = a1 + id@;
            let b2 = b1 + o_id@;
            lemma_cut(a1, id@, b1, o_id@);
            lemma_cut(a0, bytes::le4(token), b0, bytes::le4(o_token));
            bytes::lemma_array_eq(id, o_id);
        },
        (Msg::GetHtlc(id), Msg::GetHtlc(o_id)) => {
            broadcast use crate::bytes::group_le;

            lemma_prefixes(b, m, o);
            let a0 = seq![41u8];
            let b0 = seq![41u8];
            let a1 = a0 + id@;
            let b1 = b0 + o_id@;
            lemma_cut(a0, id@, b0, o_id@);
            bytes::lemma_array_eq(id, o_id);
        },
        (Msg::GetCurve(token), Msg::GetCurve(o_token)) => {
            broadcast use crate::bytes::group_le;

            lemma_prefixes(b, m, o);
            let a0 = seq![45u8];
            let b0 = seq![45u8];
            let a1 = a0 + bytes::le4(token);
            let b1 = b0 + bytes::le4(o_token);
            lemma_cut(a0, bytes::le4(token), b0, bytes::le4(o_token));
        },
        (Msg::NonceReply(x), Msg::NonceReply(y)) => {
            broadcast use crate::bytes::group_le;

            lemma_second(b, m);
            lemma_second(b, o);
            assert(m.wire()[1] == if x is Some { 1u8 } else { 0u8 });
            assert(o.wire()[1] == if y is Some { 1u8 } else { 0u8 });
            if let (Some(n), Some(o_n)) = (x, y) {
                lemma_prefixes(b, m, o);
                let a0 = seq![10u8, 1u8];
                let b0 = seq![10u8, 1u8];
                let a1 = a0 + bytes::le8(n);
                let b1 = b0 + bytes::le8(o_n);
                lemma_cut(a0, bytes::le8(n), b0, bytes::le8(o_n));
            }
        },
        (Msg::PublicBalanceReply(x), Msg::PublicBalanceReply(y)) => {
            broadcast use crate::bytes::group_le;

            lemma_second(b, m);
            lemma_second(b, o);
            assert(m.wire()[1] == if x is Some { 1u8 } else { 0u8 });
            assert(o.wire()[1] == if y is Some { 1u8 } else { 0u8 });
            if let (Some(n), Some(o_n)) = (x, y) {
                lemma_prefixes(b, m, o);
                let a0 = seq![18u8, 1u8];
                let b0 = seq![18u8, 1u8];
                let a1 = a0 + bytes::le8(n);
                let b1 = b0 + bytes::le8(o_n);
                lemma_cut(a0, bytes::le8(n), b0, bytes::le8(o_n));
            }
        },
        (Msg::FinalizedReply(x), Msg::FinalizedReply(y)) => {
            broadcast use crate::bytes::group_le;

            lemma_second(b, m);
            lemma_second(b, o);
            assert(m.wire()[1] == if x is Some { 1u8 } else { 0u8 });
            assert(o.wire()[1] == if y is Some { 1u8 } else { 0u8 });
            if let (Some((h, id)), Some((o_h, o_id))) = (x, y) {
                lemma_prefixes(b, m, o);
                let a0 = seq![29u8, 1u8];
                let b0 = seq![29u8, 1u8];
                let a1 = a0 + bytes::le8(h);
                let b1 = b0 + bytes::le8(o_h);
                let a2 = a1 + id@;
                let b2 = b1 + o_id@;
                lemma_cut(a1, id@, b1, o_id@);
                lemma_cut(a0, bytes::le8(h), b0, bytes::le8(o_h));
                bytes::lemma_array_eq(id, o_id);
            }
        },
        (Msg::PoolReply(x), Msg::PoolReply(y)) => {
            broadcast use crate::bytes::group_le;

            lemma_second(b, m);
            lemma_second(b, o);
            assert(m.wire()[1] == if x is Some { 1u8 } else { 0u8 });
            assert(o.wire()[1] == if y is Some { 1u8 } else { 0u8 });
            if let (Some((lat, tok, lp)), Some((o_lat, o_tok, o_lp))) = (x, y) {
                lemma_prefixes(b, m, o);
                let a0 = seq![39u8, 1u8];
                let b0 = seq![39u8, 1u8];
                let a1 = a0 + bytes::le8(lat);
                let b1 = b0 + bytes::le8(o_lat);
                let a2 = a1 + bytes::le8(tok);
                let b2 = b1 + bytes::le8(o_tok);
                let a3 = a2 + bytes::le8(lp);
                let b3 = b2 + bytes::le8(o_lp);
                lemma_cut(a2, bytes::le8(lp), b2, bytes::le8(o_lp));
                lemma_cut(a1, bytes::le8(tok), b1, bytes::le8(o_tok));
                lemma_cut(a0, bytes::le8(lat), b0, bytes::le8(o_lat));
            }
        },
        (Msg::HtlcReply(x), Msg::HtlcReply(y)) => {
            broadcast use crate::bytes::group_le;

            lemma_second(b, m);
            lemma_second(b, o);
            assert(m.wire()[1] == if x is Some { 1u8 } else { 0u8 });
            assert(o.wire()[1] == if y is Some { 1u8 } else { 0u8 });
            if let (Some((token, from, to, amount, hashlock, expiry)),
                Some((o_token, o_from, o_to, o_amount, o_hashlock, o_expiry))) = (x, y) {
                lemma_prefixes(b, m, o);
                let a0 = seq![42u8, 1u8];
                let b0 = seq![42u8, 1u8];
                let a1 = a0 + bytes::le4(token);
                let b1 = b0 + bytes::le4(o_token);
                let a2 = a1 + from@;
                let b2 = b1 + o_from@;
                let a3 = a2 + to@;
                let b3 = b2 + o_to@;
                let a4 = a3 + bytes::le8(amount);
                let b4 = b3 + bytes::le8(o_amount);
                let a5 = a4 + hashlock@;
                let b5 = b4 + o_hashlock@;
                let a6 = a5 + bytes::le8(expiry);
                let b6 = b5 + bytes::le8(o_expiry);
                lemma_cut(a5, bytes::le8(expiry), b5, bytes::le8(o_expiry));
                lemma_cut(a4, hashlock@, b4, o_hashlock@);
                lemma_cut(a3, bytes::le8(amount), b3, bytes::le8(o_amount));
                lemma_cut(a2, to@, b2, o_to@);
                lemma_cut(a1, from@, b1, o_from@);
                lemma_cut(a0, bytes::le4(token), b0, bytes::le4(o_token));
                bytes::lemma_array_eq(from, o_from);
                bytes::lemma_array_eq(to, o_to);
                bytes::lemma_array_eq(hashlock, o_hashlock);
            }
        },
        (Msg::CurveReply(x), Msg::CurveReply(y)) => {
            broadcast use crate::bytes::group_le;

            lemma_second(b, m);
            lemma_second(b, o);
            assert(m.wire()[1] == if x is Some { 1u8 } else { 0u8 });
            assert(o.wire()[1] == if y is Some { 1u8 } else { 0u8 });
            if let (Some((vlat, vtok, real_lat, graduated)),
                Some((o_vlat, o_vtok, o_real_lat, o_graduated))) = (x, y) {
                lemma_prefixes(b, m, o);
                let a0 = seq![46u8, 1u8];
                let b0 = seq![46u8, 1u8];
                let a1 = a0 + bytes::le8(vlat);
                let b1 = b0 + bytes::le8(o_vlat);
                let a2 = a1 + bytes::le8(vtok);
                let b2 = b1 + bytes::le8(o_vtok);
                let a3 = a2 + bytes::le8(real_lat);
                let b3 = b2 + bytes::le8(o_real_lat);
                let a4 = a3 + wire::flag(graduated);
                let b4 = b3 + wire::flag(o_graduated);
                lemma_cut(a3, wire::flag(graduated), b3, wire::flag(o_graduated));
                lemma_cut(a2, bytes::le8(real_lat), b2, bytes::le8(o_real_lat));
                lemma_cut(a1, bytes::le8(vtok), b1, bytes::le8(o_vtok));
                lemma_cut(a0, bytes::le8(vlat), b0, bytes::le8(o_vlat));
                assert(wire::flag(graduated)[0] == wire::flag(o_graduated)[0]);
            }
        },
        (Msg::NewBlock(x), Msg::NewBlock(y)) => {
            lemma_cut(seq![4u8], x@, seq![4u8], y@);
        },
        (Msg::SubmitTx(x), Msg::SubmitTx(y)) => {
            lemma_cut(seq![6u8], x@, seq![6u8], y@);
        },
        (Msg::FinalityVote(x), Msg::FinalityVote(y)) => {
            lemma_cut(seq![26u8], x@, seq![26u8], y@);
        },
        (Msg::FinalityCert(x), Msg::FinalityCert(y)) => {
            lemma_cut(seq![27u8], x@, seq![27u8], y@);
        },
        (Msg::NewTx(x), Msg::NewTx(y)) => {
            lemma_cut(seq![32u8], x@, seq![32u8], y@);
        },
        (Msg::Block(x), Msg::Block(y)) => {
            lemma_second(b, m);
            lemma_second(b, o);
            assert(m.wire()[1] == if x is Some { 1u8 } else { 0u8 });
            assert(o.wire()[1] == if y is Some { 1u8 } else { 0u8 });
            if let (Some(p), Some(q)) = (x, y) {
                lemma_cut(seq![3u8, 1u8], p@, seq![3u8, 1u8], q@);
            }
        },
        (Msg::BalanceReply(x), Msg::BalanceReply(y)) => {
            lemma_second(b, m);
            lemma_second(b, o);
            assert(m.wire()[1] == if x is Some { 1u8 } else { 0u8 });
            assert(o.wire()[1] == if y is Some { 1u8 } else { 0u8 });
            if let (Some(p), Some(q)) = (x, y) {
                lemma_cut(seq![8u8, 1u8], p@, seq![8u8, 1u8], q@);
            }
        },
        (Msg::Hello(x), Msg::Hello(y)) => {
            lemma_cut(seq![12u8], encode_utf8(x@), seq![12u8], encode_utf8(y@));
            text::lemma_utf8_chars(x@);
            text::lemma_utf8_chars(y@);
        },
        (Msg::Peers(x), Msg::Peers(y)) => {
            lemma_second(b, m);
            lemma_second(b, o);
            assert(m.wire()[1] == x@.len() as u8);
            assert(o.wire()[1] == y@.len() as u8);
            let c = b.subrange(2, b.len() as int);
            let (j1, j2) = (
                wire::joined(wire::peer_parts(x@)),
                wire::joined(wire::peer_parts(y@)),
            );
            assert(c.subrange(0, j1.len() as int) =~= j1) by {
                assert forall|i: int| 0 <= i < j1.len() implies c[i] == j1[i] by {
                    assert(b.subrange(0, m.wire().len() as int)[2 + i] == m.wire()[2 + i]);
                }
            }
            assert(c.subrange(0, j2.len() as int) =~= j2) by {
                assert forall|i: int| 0 <= i < j2.len() implies c[i] == j2[i] by {
                    assert(b.subrange(0, o.wire().len() as int)[2 + i] == o.wire()[2 + i]);
                }
            }
            lemma_peers_same(c, x@, y@);
        },
        (Msg::FindCommon(x), Msg::FindCommon(y)) => {
            lemma_second(b, m);
            lemma_second(b, o);
            assert(m.wire()[1] == x@.len() as u8);
            assert(o.wire()[1] == y@.len() as u8);
            let (p, q) = (wire::id_parts(x@), wire::id_parts(y@));
            lemma_joined_len(p, 32);
            lemma_joined_len(q, 32);
            lemma_prefixes(b, m, o);
            let h = seq![15u8, x@.len() as u8];
            lemma_cut(h, wire::joined(p), h, wire::joined(q));
            lemma_joined_same(p, q, 32);
            assert forall|i: int| 0 <= i < x@.len() implies x@[i] == y@[i] by {
                assert(p[i] == q[i]);
                bytes::lemma_array_eq(x@[i], y@[i]);
            }
            assert(x@ =~= y@);
        },
        (Msg::RingCandidates(x), Msg::RingCandidates(y)) => {
            broadcast use crate::bytes::group_le;

            let (p, q) = (wire::candidate_parts(x@), wire::candidate_parts(y@));
            lemma_at(b, m, 1, 5);
            lemma_at(b, o, 1, 5);
            assert(m.wire().subrange(1, 5) =~= bytes::le4(x@.len() as u32));
            assert(o.wire().subrange(1, 5) =~= bytes::le4(y@.len() as u32));
            lemma_joined_len(p, 96);
            lemma_joined_len(q, 96);
            lemma_prefixes(b, m, o);
            let h = seq![20u8] + bytes::le4(x@.len() as u32);
            lemma_cut(h, wire::joined(p), h, wire::joined(q));
            lemma_joined_same(p, q, 96);
            assert forall|i: int| 0 <= i < x@.len() implies x@[i] == y@[i] by {
                assert(p[i] == q[i]);
                lemma_cut(x@[i].0@, x@[i].1@, y@[i].0@, y@[i].1@);
                bytes::lemma_array_eq(x@[i].0, y@[i].0);
                bytes::lemma_array_eq(x@[i].1, y@[i].1);
            }
            assert(x@ =~= y@);
        },
        (
            Msg::Handshake { version, genesis, addr },
            Msg::Handshake { version: o_version, genesis: o_genesis, addr: o_addr },
        ) => {
            broadcast use crate::bytes::group_le;

            let (u1, u2) = (encode_utf8(addr@), encode_utf8(o_addr@));
            assert(wire::clipped(u1, 128) =~= u1);
            assert(wire::clipped(u2, 128) =~= u2);
            let h1 = seq![21u8] + bytes::le4(version) + genesis@;
            let h2 = seq![21u8] + bytes::le4(o_version) + o_genesis@;
            assert(m.wire()[37] == u1.len() as u8);
            assert(o.wire()[37] == u2.len() as u8);
            lemma_at(b, m, 37, 38);
            lemma_at(b, o, 37, 38);
            assert(b.subrange(37, 38)[0] == m.wire().subrange(37, 38)[0]);
            assert(b.subrange(37, 38)[0] == o.wire().subrange(37, 38)[0]);
            lemma_prefixes(b, m, o);
            lemma_cut(h1, wire::address_bytes(addr@), h2, wire::address_bytes(o_addr@));
            lemma_cut(seq![u1.len() as u8], u1, seq![u2.len() as u8], u2);
            text::lemma_utf8_chars(addr@);
            text::lemma_utf8_chars(o_addr@);
            lemma_cut(
                seq![21u8] + bytes::le4(version),
                genesis@,
                seq![21u8] + bytes::le4(o_version),
                o_genesis@,
            );
            lemma_cut(seq![21u8], bytes::le4(version), seq![21u8], bytes::le4(o_version));
            bytes::lemma_array_eq(genesis, o_genesis);
        },
        (
            Msg::HandshakeAck { version, genesis, accepted },
            Msg::HandshakeAck { version: o_version, genesis: o_genesis, accepted: o_accepted },
        ) => {
            broadcast use crate::bytes::group_le;

            lemma_cut(
                seq![22u8] + bytes::le4(version),
                genesis@,
                seq![22u8] + bytes::le4(o_version),
                o_genesis@,
            );
            lemma_cut(seq![22u8], bytes::le4(version), seq![22u8], bytes::le4(o_version));
            bytes::lemma_array_eq(genesis, o_genesis);
        },
        (Msg::StakeReply(s1, x), Msg::StakeReply(s2, y)) => {
            broadcast use crate::bytes::group_le;

            let (p, q) = (wire::unbonding_parts(x@), wire::unbonding_parts(y@));
            assert(m.wire().subrange(9, 13) =~= bytes::le4(x@.len() as u32));
            assert(o.wire().subrange(9, 13) =~= bytes::le4(y@.len() as u32));
            lemma_joined_len(p, 16);
            lemma_joined_len(q, 16);
            let n = bytes::le4(x@.len() as u32);
            let h1 = seq![31u8] + bytes::le8(s1);
            let h2 = seq![31u8] + bytes::le8(s2);
            lemma_cut(h1 + n, wire::joined(p), h2 + n, wire::joined(q));
            lemma_cut(h1, n, h2, n);
            lemma_cut(seq![31u8], bytes::le8(s1), seq![31u8], bytes::le8(s2));
            lemma_joined_same(p, q, 16);
            assert forall|i: int| 0 <= i < x@.len() implies x@[i] == y@[i] by {
                assert(p[i] == q[i]);
                lemma_cut(
                    bytes::le8(x@[i].0),
                    bytes::le8(x@[i].1),
                    bytes::le8(y@[i].0),
                    bytes::le8(y@[i].1),
                );
            }
            assert(x@ =~= y@);
        },
        (Msg::StateChunk(x), Msg::StateChunk(y)) => {
            broadcast use crate::bytes::group_le;

            assert(m.wire().subrange(1, 5) =~= bytes::le4(x@.len() as u32));
            assert(o.wire().subrange(1, 5) =~= bytes::le4(y@.len() as u32));
            let h = seq![37u8] + bytes::le4(x@.len() as u32);
            lemma_cut(
                h,
                wire::joined(wire::record_parts(x@)),
                h,
                wire::joined(wire::record_parts(y@)),
            );
            lemma_records_same(x@, y@);
        },
        (Msg::HtlcsReply(x), Msg::HtlcsReply(y)) => {
            broadcast use crate::bytes::group_le;

            let (p, q) = (wire::lock_parts(x@), wire::lock_parts(y@));
            assert(m.wire().subrange(1, 5) =~= bytes::le4(x@.len() as u32));
            assert(o.wire().subrange(1, 5) =~= bytes::le4(y@.len() as u32));
            let h = seq![44u8] + bytes::le4(x@.len() as u32);
            lemma_cut(h, wire::joined(p), h, wire::joined(q));
            lemma_joined_same(p, q, 148);
            assert forall|i: int| 0 <= i < x@.len() implies x@[i] == y@[i] by {
                assert(p[i] == q[i]);
                lemma_lock_same(x@[i], y@[i]);
            }
            assert(x@ =~= y@);
        },
        _ => {},
    }
}

proof fn lemma_lock_same(
    x: ([u8; 32], u32, [u8; 32], [u8; 32], u64, [u8; 32], u64),
    y: ([u8; 32], u32, [u8; 32], [u8; 32], u64, [u8; 32], u64),
)
    requires
        wire::lock_bytes(x) == wire::lock_bytes(y),
    ensures
        x == y,
{
    broadcast use crate::bytes::group_le;

    let a1 = x.0@;
    let a2 = a1 + bytes::le4(x.1);
    let a3 = a2 + x.2@;
    let a4 = a3 + x.3@;
    let a5 = a4 + bytes::le8(x.4);
    let a6 = a5 + x.5@;
    let b1 = y.0@;
    let b2 = b1 + bytes::le4(y.1);
    let b3 = b2 + y.2@;
    let b4 = b3 + y.3@;
    let b5 = b4 + bytes::le8(y.4);
    let b6 = b5 + y.5@;
    lemma_cut(a6, bytes::le8(x.6), b6, bytes::le8(y.6));
    lemma_cut(a5, x.5@, b5, y.5@);
    lemma_cut(a4, bytes::le8(x.4), b4, bytes::le8(y.4));
    lemma_cut(a3, x.3@, b3, y.3@);
    lemma_cut(a2, x.2@, b2, y.2@);
    lemma_cut(a1, bytes::le4(x.1), b1, bytes::le4(y.1));
    bytes::lemma_array_eq(x.0, y.0);
    bytes::lemma_array_eq(x.2, y.2);
    bytes::lemma_array_eq(x.3, y.3);
    bytes::lemma_array_eq(x.5, y.5);
}

proof fn lemma_same_tag(b: Seq<u8>, m: Msg)
    requires
        wire::says(b, m),
    ensures
        b.len() > 0,
        b[0] == m.tag(),
        !(m is Ack || m is HandshakeAck) ==> bytes::has_prefix(b, m.wire()),
{
    let w = m.wire();
    assert(w.subrange(0, w.len() as int) =~= w);
    match m {
        Msg::Ack(_) => {},
        Msg::HandshakeAck { version, genesis, .. } => {
            assert(b.subrange(0, 37)[0] == b[0]);
        },
        _ => {
            assert(w[0] == m.tag());
            assert(b.subrange(0, w.len() as int)[0] == b[0]);
        },
    }
}

proof fn lemma_prefixes(b: Seq<u8>, m: Msg, o: Msg)
    requires
        wire::says(b, m),
        wire::says(b, o),
        !(m is Ack || m is HandshakeAck),
        !(o is Ack || o is HandshakeAck),
        m.wire().len() == o.wire().len(),
    ensures
        m.wire() == o.wire(),
{
    lemma_same_tag(b, m);
    lemma_same_tag(b, o);
}

proof fn lemma_second(b: Seq<u8>, m: Msg)
    requires
        wire::says(b, m),
        !(m is Ack || m is HandshakeAck),
        m.wire().len() >= 2,
    ensures
        b[1] == m.wire()[1],
{
    lemma_same_tag(b, m);
    assert(b.subrange(0, m.wire().len() as int)[1] == b[1]);
}

proof fn lemma_at(b: Seq<u8>, m: Msg, i: int, j: int)
    requires
        wire::says(b, m),
        !(m is Ack || m is HandshakeAck),
        0 <= i <= j <= m.wire().len(),
    ensures
        b.subrange(i, j) == m.wire().subrange(i, j),
{
    lemma_same_tag(b, m);
    let w = m.wire();
    assert(b.subrange(i, j) =~= w.subrange(i, j)) by {
        assert forall|k: int| i <= k < j implies b[k] == w[k] by {
            assert(b.subrange(0, w.len() as int)[k] == b[k]);
        }
    }
}

} // verus!
