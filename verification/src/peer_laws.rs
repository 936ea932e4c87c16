//! What holds of the validator set, of votes and peers, and of what a node answers.

use vstd::prelude::*;
use vstd::utf8::*;

use crate::bytes;
use crate::node;
use crate::node::{PeerView, Vote};
use crate::queries;
use crate::rules::State;
use crate::serve;
use crate::serve::{Found, Gossip, Lookup};
use crate::sync;
use crate::sync::{FastStep, FastSync, Stage};
use crate::text;
use crate::wire::Msg;

verus! {

// --- the validator set ------------------------------------------------------------------

/// Whether `a` is below `b` byte by byte: at the first place where they differ, or by
/// being its beginning.
pub open spec fn below(a: Seq<u8>, b: Seq<u8>) -> bool {
    exists|k: int| #[trigger] differ_at(a, b, k)
}

/// Whether `a` and `b` are alike before `k`, and `a` is lower there or ends there.
pub open spec fn differ_at(a: Seq<u8>, b: Seq<u8>, k: int) -> bool {
    &&& 0 <= k <= a.len()
    &&& k < b.len()
    &&& a.take(k) == b.take(k)
    &&& k == a.len() || a[k] < b[k]
}

/// Byte strings are in the order of the first byte in which they differ.
pub proof fn law_byte_order(a: Seq<u8>, b: Seq<u8>)
    ensures
        bytes::bytes_lt(a, b) == below(a, b),
    decreases a.len(),
{
    if b.len() > 0 {
        if a.len() == 0 {
            assert(a.take(0) =~= b.take(0));
            assert(differ_at(a, b, 0));
        } else if a[0] != b[0] {
            if a[0] < b[0] {
                assert(a.take(0) =~= b.take(0));
                assert(differ_at(a, b, 0));
            } else if below(a, b) {
                let k = choose|k: int| #[trigger] differ_at(a, b, k);
                if k > 0 {
                    assert(a.take(k)[0] == a[0]);
                    assert(b.take(k)[0] == b[0]);
                }
            }
        } else {
            let x = a.subrange(1, a.len() as int);
            let y = b.subrange(1, b.len() as int);
            law_byte_order(x, y);
            if below(x, y) {
                let k = choose|k: int| #[trigger] differ_at(x, y, k);
                assert forall|i: int| 0 <= i < k + 1 implies #[trigger] a[i] == b[i] by {
                    if i > 0 {
                        assert(x.take(k)[i - 1] == y.take(k)[i - 1]);
                    }
                }
                assert(a.take(k + 1) =~= b.take(k + 1));
                assert(differ_at(a, b, k + 1));
            }
            if below(a, b) {
                let k = choose|k: int| #[trigger] differ_at(a, b, k);
                assert(k > 0);
                assert forall|i: int| 0 <= i < k - 1 implies #[trigger] x[i] == y[i] by {
                    assert(a.take(k)[i + 1] == b.take(k)[i + 1]);
                }
                assert(x.take(k - 1) =~= y.take(k - 1));
                assert(differ_at(x, y, k - 1));
            }
        }
    }
}

/// The set holds just those that have at least 1,000 LAT bonded and were never slashed,
/// each with its stake; more stake stands first, and of equal stakes the lower id.
pub proof fn law_validator_set(
    s: Seq<([u8; 32], u64)>,
    st: State,
    p: ([u8; 32], u64),
    i: int,
    j: int,
)
    requires
        queries::ranks(s, st),
    ensures
        s.contains(p) == (st.validators.contains_key(p.0@) && !st.validators[p.0@].tombstoned
            && st.validators[p.0@].staked >= 100_000_000 && st.validators[p.0@].staked == p.1),
        0 <= i < j < s.len() ==> s[i].1 >= s[j].1,
        0 <= i < j < s.len() && s[i].1 == s[j].1 ==> below(s[i].0@, s[j].0@),
{
    assert(s.contains(p) == queries::eligible(st, p.0@, p.1));
    if 0 <= i < j < s.len() {
        assert(queries::outranks(s[i], s[j]));
        law_byte_order(s[i].0@, s[j].0@);
    }
}

// --- votes --------------------------------------------------------------------------------

/// Stake adds up member by member: each counts with its stake where it is meant, and with
/// nothing otherwise.
pub proof fn law_stake_adds(
    a: Seq<([u8; 32], u64)>,
    b: Seq<([u8; 32], u64)>,
    x: ([u8; 32], u64),
    who: spec_fn(Seq<u8>) -> bool,
)
    ensures
        node::stake_of(Seq::empty(), who) == 0,
        node::stake_of(seq![x], who) == if who(x.0@) {
            x.1 as int
        } else {
            0
        },
        node::stake_of(a + b, who) == node::stake_of(a, who) + node::stake_of(b, who),
    decreases b.len(),
{
    assert(seq![x].drop_last() =~= Seq::empty());
    assert(node::stake_of(seq![x].drop_last(), who) == 0);
    if b.len() == 0 {
        assert(a + b =~= a);
    } else {
        law_stake_adds(a, b.drop_last(), x, who);
        assert((a + b).drop_last() =~= a + b.drop_last());
    }
}

/// A block is final just when those who voted for it at its height hold more than two
/// thirds of all stake.
pub proof fn law_quorum_is_two_thirds(
    set: Seq<([u8; 32], u64)>,
    pool: Seq<Vote>,
    height: u64,
    block: Seq<u8>,
)
    ensures
        ({
            let yes = node::stake_of(
                set,
                |id: Seq<u8>|
                    exists|i: int|
                        0 <= i < pool.len() && (#[trigger] pool[i]).height == height
                            && pool[i].block_id@ == block && pool[i].validator@ == id,
            );
            let all = node::stake_of(set, |id: Seq<u8>| true);
            node::quorum(set, pool, height, block) == (yes + yes + yes > all + all)
        }),
{
    let f = |id: Seq<u8>| node::seated(pool, height, block, id);
    let g = |id: Seq<u8>|
        exists|i: int|
            0 <= i < pool.len() && (#[trigger] pool[i]).height == height && pool[i].block_id@
                == block && pool[i].validator@ == id;
    lemma_same_stake(set, f, g);
}

proof fn lemma_same_stake(
    set: Seq<([u8; 32], u64)>,
    f: spec_fn(Seq<u8>) -> bool,
    g: spec_fn(Seq<u8>) -> bool,
)
    requires
        forall|id: Seq<u8>| #[trigger] f(id) == g(id),
    ensures
        node::stake_of(set, f) == node::stake_of(set, g),
    decreases set.len(),
{
    if set.len() > 0 {
        lemma_same_stake(set.drop_last(), f, g);
        assert(f(set.last().0@) == g(set.last().0@));
    }
}

/// A vote counts where it is signed, above what is final, for the block that is active at
/// its height, by a member of the set that has no vote for the block yet, and nowhere
/// else.
pub proof fn law_votes_that_count(
    pool: Seq<Vote>,
    vote: Vote,
    finalized: Option<u64>,
    active: Option<[u8; 32]>,
    set: Option<Seq<([u8; 32], u64)>>,
    signed: bool,
)
    ensures
        node::admissible(pool, vote, finalized, active, set, signed) == ({
            &&& signed
            &&& match finalized {
                Some(h) => vote.height > h,
                None => true,
            }
            &&& match active {
                Some(b) => b@ == vote.block_id@,
                None => false,
            }
            &&& match set {
                Some(s) => exists|i: int|
                    0 <= i < s.len() && (#[trigger] s[i]).0@ == vote.validator@,
                None => false,
            }
            &&& forall|i: int|
                0 <= i < pool.len() && (#[trigger] pool[i]).height == vote.height
                    && pool[i].block_id@ == vote.block_id@ ==> pool[i].validator@
                    != vote.validator@
        }),
{
    if let Some(s) = set {
        assert(node::member(s, vote.validator@) == exists|i: int|
            0 <= i < s.len() && (#[trigger] s[i]).0@ == vote.validator@);
    }
}

// --- peers ----------------------------------------------------------------------------------

/// An address is recorded where it is not empty, at most 128 bytes long, not the node's
/// own, not known, and fewer than 64 are.
pub proof fn law_recorded_peers(peers: Seq<PeerView>, own: Option<Seq<char>>, addr: Seq<char>)
    ensures
        node::recordable(peers, own, addr) == ({
            &&& addr.len() != 0
            &&& encode_utf8(addr).len() <= 128
            &&& match own {
                Some(o) => o != addr,
                None => true,
            }
            &&& peers.len() < 64
            &&& forall|i: int| 0 <= i < peers.len() ==> (#[trigger] peers[i]).addr != addr
        }),
{
}

/// A failed or a successful contact is counted for the peer it was with, and for no
/// other; forgetting a peer forgets no other, and keeps the rest in order.
pub proof fn law_contacts_are_counted(peers: Seq<PeerView>, addr: Seq<char>, n: u32, i: int)
    requires
        node::good_peers(peers),
        0 <= i < peers.len(),
    ensures
        node::counted(peers, addr, n).len() == peers.len(),
        node::counted(peers, addr, n)[i].addr == peers[i].addr,
        node::counted(peers, addr, n)[i].failures == if peers[i].addr == addr {
            n
        } else {
            peers[i].failures
        },
        peers[i].addr == addr ==> node::failures_of(peers, addr) == peers[i].failures,
        !node::knows(node::forgotten(peers, addr), addr),
        peers[i].addr != addr ==> node::forgotten(peers, addr).contains(peers[i]),
        node::good_peer(peers[i]) ==> peers[i].failures < 5,
{
    let f = |p: PeerView| p.addr != addr;
    let kept = peers.filter(f);
    if peers[i].addr != addr {
        peers.lemma_filter_contains(f, i);
    }
    assert forall|j: int| 0 <= j < kept.len() implies (#[trigger] kept[j]).addr != addr by {
        peers.lemma_filter_pred(f, j);
    }
    if peers[i].addr == addr {
        let k = choose|k: int| 0 <= k < peers.len() && (#[trigger] peers[k]).addr == addr;
        assert(peers[k].addr == addr);
        if k < i {
            assert(peers[k].addr != peers[i].addr);
        } else if i < k {
            assert(peers[i].addr != peers[k].addr);
        }
    }
}

// --- answers ------------------------------------------------------------------------------------

/// The highest of some heights: none is above it, and it is one of them; none is zero.
pub proof fn law_highest(h: Seq<u64>, i: int)
    ensures
        0 <= i < h.len() ==> h[i] <= serve::highest(h),
        h.len() == 0 ==> serve::highest(h) == 0,
        h.len() > 0 ==> h.contains(serve::highest(h)) || serve::highest(h) == 0,
    decreases h.len(),
{
    if h.len() > 0 {
        let d = h.drop_last();
        law_highest(d, i);
        let m = serve::highest(d);
        assert(h[h.len() - 1] == h.last());
        if d.contains(m) {
            let k = choose|k: int| 0 <= k < d.len() && d[k] == m;
            assert(h[k] == m);
        }
    }
}

/// What a ring reply picks: as many candidates as were asked for, at most 64 and at most
/// all, spread evenly over the list, the first among them.
pub proof fn law_ring_reply_is_spread(all: Seq<([u8; 32], [u8; 64])>, max: u32, i: int)
    requires
        0 <= i < serve::strided(all, max).len(),
    ensures
        ({
            let s = serve::strided(all, max);
            let cap = s.len() as int;
            let n = all.len() as int;
            &&& cap <= max && cap <= 64 && cap <= n
            &&& cap == max || cap == 64 || cap == n
            &&& exists|k: int|
                0 <= k < n && s[i] == all[k] && #[trigger] (k * cap) <= i * n && i * n < k * cap
                    + cap
            &&& s[0] == all[0]
        }),
{
    let s = serve::strided(all, max);
    let cap = s.len() as int;
    let n = all.len() as int;
    let k = i * n / cap;
    vstd::arithmetic::div_mod::lemma_fundamental_div_mod(i * n, cap);
    vstd::arithmetic::div_mod::lemma_mod_bound(i * n, cap);
    assert(cap * k == k * cap) by (nonlinear_arith);
    assert(0 <= i * n) by (nonlinear_arith)
        requires
            0 <= i,
            0 <= n,
    ;
    assert(0 <= k) by (nonlinear_arith)
        requires
            k == i * n / cap,
            0 <= i * n,
            cap > 0,
    ;
    assert(k < n) by (nonlinear_arith)
        requires
            k * cap <= i * n,
            i < cap,
            n > 0,
            cap > 0,
            0 <= i,
    ;
    assert(0int * n / cap == 0) by {
        assert(0int * n == 0);
        vstd::arithmetic::div_mod::lemma_div_basics(cap);
    }
    assert(k * cap <= i * n);
}

/// A question and its answer are about the same: what is looked up is what was asked for,
/// and what is found is what is told.
pub proof fn law_answers_are_to_the_question(m: Msg, f: Found, reply: Msg)
    requires
        serve::asked(m) is Some,
        serve::fits(serve::asked(m)->0, f),
        serve::answers(serve::asked(m)->0, f, reply),
    ensures
        match m {
            Msg::GetTip => f matches Found::Height(h) && reply == Msg::Tip(h),
            Msg::GetBlock(h) => serve::asked(m) == Some(Lookup::BlockAt(h)) && (f matches
                Found::Block(b) && reply == Msg::Block(b)),
            Msg::GetNonce(id) => serve::asked(m) == Some(Lookup::Nonce(id)) && (f matches
                Found::Amount(n) && reply == Msg::NonceReply(n)),
            Msg::GetPublicBalance { id, token } => serve::asked(m) == Some(
                Lookup::PublicBalance { id, token },
            ) && (f matches Found::Amount(n) && reply == Msg::PublicBalanceReply(n)),
            Msg::GetBalance { id, token } => serve::asked(m) == Some(Lookup::Balance { id, token })
                && tells(f, reply),
            Msg::GetPending { id, token } => serve::asked(m) == Some(Lookup::Pending { id, token })
                && tells(f, reply),
            Msg::GetStake(id) => serve::asked(m) == Some(Lookup::Stake(id)) && (f matches
                Found::Stake(s, u) && reply == Msg::StakeReply(s, u)),
            Msg::GetFinalized => f matches Found::Finalized(x) && reply == Msg::FinalizedReply(x),
            Msg::GetContractStorage { contract, key } => serve::asked(m) == Some(
                Lookup::ContractStorage { contract, key },
            ) && (f matches Found::Slot(v) && reply == Msg::ContractStorageReply(v)),
            Msg::HasContract(id) => serve::asked(m) == Some(Lookup::HasContract(id)) && (f matches
                Found::Flag(has) && reply == Msg::Ack(has)),
            Msg::GetPool(t) => serve::asked(m) == Some(Lookup::Pool(t)) && (f matches Found::Pool(p)
                && reply == Msg::PoolReply(p)),
            Msg::GetCurve(t) => serve::asked(m) == Some(Lookup::Curve(t)) && (f matches
                Found::Curve(c) && reply == Msg::CurveReply(c)),
            Msg::GetLpShares { token, id } => serve::asked(m) == Some(
                Lookup::LpShares { token, id },
            ) && (f matches Found::Shares(n) && reply == Msg::PublicBalanceReply(Some(n))),
            Msg::GetHtlc(id) => serve::asked(m) == Some(Lookup::Htlc(id)) && (f matches
                Found::Htlc(h) && reply == Msg::HtlcReply(h)),
            Msg::GetHtlcs => f matches Found::Htlcs(l) && reply == Msg::HtlcsReply(l),
            Msg::GetRingCandidates { token, max } => serve::asked(m) == Some(
                Lookup::RingCandidates { token, max },
            ),
            Msg::NewTx(b) => serve::asked(m) == Some(Lookup::Submit(b)) && (f matches
                Found::Flag(added) && reply == Msg::Ack(added)),
            Msg::SubmitTx(b) => serve::asked(m) == Some(Lookup::Submit(b)) && (f matches
                Found::Flag(added) && reply == Msg::Ack(added)),
            Msg::NewBlock(b) => serve::asked(m) == Some(Lookup::Offer(b)) && (f matches
                Found::Offered { taken, .. } && reply == Msg::Ack(taken)),
            Msg::BlockAnnounce { id, .. } => serve::asked(m) == Some(Lookup::HasBlock(id)) && (
            f matches Found::Flag(has) && reply == Msg::Ack(!has)),
            Msg::FinalityVote(b) => serve::asked(m) == Some(Lookup::Vote(b)) && (f matches
                Found::Voted { pooled, .. } && reply == Msg::Ack(pooled)),
            Msg::FinalityCert(b) => serve::asked(m) == Some(Lookup::Certificate(b)) && (f matches
                Found::Flag(advanced) && reply == Msg::Ack(advanced)),
            Msg::FindCommon(ids) => serve::asked(m) == Some(Lookup::HeightsOf(ids)) && (f matches
                Found::Heights(h) && (reply matches Msg::CommonHeight(x) && forall|i: int|
                0 <= i < h@.len() ==> #[trigger] h@[i] <= x)),
            Msg::Handshake { version, genesis, addr } => serve::asked(m) == Some(
                Lookup::Genesis { version, genesis, addr },
            ) && (f matches Found::Genesis(ours) && (reply matches Msg::HandshakeAck {
                version: v,
                genesis: g,
                accepted,
            } && v == 3 && g == ours && accepted == (version == 3 && genesis@ == ours@))),
            Msg::GetStateManifest => serve::asked(m) == Some(Lookup::StateRecords),
            _ => false,
        },
{
    if let (Msg::FindCommon(ids), Found::Heights(h)) = (m, f) {
        assert forall|i: int| 0 <= i < h@.len() implies #[trigger] h@[i] <= serve::highest(h@) by {
            law_highest(h@, i);
        }
    }
}

/// Whether a reply tells the ciphertext that was found, or that there is none.
pub open spec fn tells(f: Found, reply: Msg) -> bool {
    f matches Found::Ciphertext(c) && (reply matches Msg::BalanceReply(b) && match (c, b) {
        (Some(ct), Some(v)) => v@ == ct@,
        (None, None) => true,
        _ => false,
    })
}

/// What is passed on is what came in: a block under the id and height of its header, a
/// vote with the certificate it completed, a certificate, or a transaction.
pub proof fn law_gossip_is_what_came(l: Lookup, f: Found)
    requires
        serve::fits(l, f),
    ensures
        match serve::passed_on(l, f) {
            Gossip::Block { id, height, bytes } => l == Lookup::Offer(bytes) && (f matches
                Found::Offered { header: Some(h), known, taken } && h.0 == id && h.1 == height
                && taken && !known),
            Gossip::Vote { bytes, certificate } => l == Lookup::Vote(bytes) && f == (Found::Voted {
                pooled: true,
                certificate,
            }),
            Gossip::Certificate(bytes) => l == Lookup::Certificate(bytes) && f == Found::Flag(true),
            Gossip::Tx(bytes) => l == Lookup::Submit(bytes) && f == Found::Flag(true),
            Gossip::Nothing => true,
        },
{
}

/// A peer is met only where it speaks the same protocol on the same chain.
pub proof fn law_strangers_are_not_recorded(
    peers: Seq<PeerView>,
    own: Option<Seq<char>>,
    l: Lookup,
    f: Found,
)
    requires
        serve::peers_after(peers, own, l, f) != peers,
    ensures
        l matches Lookup::Genesis { version, genesis, addr } && version == 3 && (f matches
            Found::Genesis(ours) && ours@ == genesis@ && serve::peers_after(peers, own, l, f)
            == peers.push(PeerView { addr: text::trimmed(addr@), failures: 0 })),
{
}

/// What records cost adds up, key and value byte by byte.
pub proof fn law_cost_adds(
    a: Seq<(Seq<u8>, Seq<u8>)>,
    b: Seq<(Seq<u8>, Seq<u8>)>,
    x: (Seq<u8>, Seq<u8>),
)
    ensures
        serve::cost(Seq::empty()) == 0,
        serve::cost(seq![x]) == x.0.len() + x.1.len(),
        serve::cost(a + b) == serve::cost(a) + serve::cost(b),
    decreases b.len(),
{
    assert(seq![x].drop_last() =~= Seq::empty());
    assert(serve::cost(seq![x].drop_last()) == 0);
    if b.len() == 0 {
        assert(a + b =~= a);
    } else {
        law_cost_adds(a, b.drop_last(), x);
        assert((a + b).drop_last() =~= a + b.drop_last());
    }
}

// --- fast sync ------------------------------------------------------------------------------

/// Fast sync asks for the chunks one by one, then for the tip, then for the blocks from
/// the first to the tip one by one. It gives up where the peer has no state, a chunk is
/// empty, the tip is below the anchor or a block is missing, and adopts only behind the
/// last block.
pub proof fn law_fast_sync_order(a: FastSync, m: Msg, b: FastSync, r: FastStep)
    requires
        a.wf(),
        sync::follows(a, m, b, r),
    ensures
        r matches FastStep::Send(q) ==> match q {
            Msg::GetStateChunk(n) => b.stage == (Stage::Chunks { next: n }) && n < b.chunk_count
                && match a.stage {
                Stage::Manifest => n == 0,
                Stage::Chunks { next } => n == next + 1,
                _ => false,
            },
            Msg::GetTip => a.stage matches Stage::Chunks { next } && next + 1 == a.chunk_count,
            Msg::GetBlock(n) => match a.stage {
                Stage::Tip => n == 1,
                Stage::Blocks { next, last } => n == next + 1 && n <= last,
                _ => false,
            },
            _ => false,
        },
        r is Adopt ==> match a.stage {
            Stage::Tip => m == Msg::Tip(0) && a.anchor_height == 0,
            Stage::Blocks { next, last } => next == last && b.blocks@.len() == last,
            _ => false,
        },
        (a.stage is Tip && (m matches Msg::Tip(h) && h < a.anchor_height)) ==> r is GiveUp,
        b.stage is Blocks && a.stage is Tip ==> (m matches Msg::Tip(h) && b.stage == (
        Stage::Blocks { next: 1, last: h })),
{
}

} // verus!
