//! How a node answers what peers and clients ask of it.
//!
//! Each request either has its answer in the node's own state, or names something
//! to look up on the chain; what was found there decides the reply, and what is
//! passed on to other peers.

use vstd::prelude::*;

use crate::bytes::{copy_bytes, same_hash};
use crate::node;
use crate::node::{NodeState, PROTOCOL_VERSION};
use crate::snapshot;
use crate::text;
use crate::wire::{Msg, MAX_RING_CANDIDATES};

verus! {

/// How many bytes of keys and values one chunk of a state snapshot holds at most.
pub const STATE_CHUNK_BYTES: usize = 1_048_576;

/// Something to look up on the chain, or to hand to it.
pub enum Lookup {
    /// Its height.
    Height,
    /// The encoded block at a height of the active chain.
    BlockAt(u64),
    /// Offer it a block.
    Offer(Vec<u8>),
    /// Pool a finality vote.
    Vote(Vec<u8>),
    /// Adopt a finality certificate.
    Certificate(Vec<u8>),
    /// The finalized block.
    Finalized,
    /// A validator's bonded stake and unbonding entries.
    Stake([u8; 32]),
    /// The genesis id, for a peer that introduced itself.
    Genesis { version: u32, genesis: [u8; 32], addr: String },
    /// The heights of those of these blocks that are on the active chain.
    HeightsOf(Vec<[u8; 32]>),
    /// Offer the mempool a transaction.
    Submit(Vec<u8>),
    /// Whether a block is known.
    HasBlock([u8; 32]),
    /// The tip and every object record of its state.
    StateRecords,
    /// An account's encrypted spendable balance.
    Balance { id: [u8; 32], token: u32 },
    /// An account's encrypted pending balance.
    Pending { id: [u8; 32], token: u32 },
    /// An account's nonce.
    Nonce([u8; 32]),
    /// An account's public balance.
    PublicBalance { id: [u8; 32], token: u32 },
    /// A pool's reserves and share supply.
    Pool(u32),
    /// An account's shares in a pool.
    LpShares { token: u32, id: [u8; 32] },
    /// An open lock.
    Htlc([u8; 32]),
    /// Every open lock.
    Htlcs,
    /// A bonding curve.
    Curve(u32),
    /// Every account with a spendable balance of the token, by ascending id.
    RingCandidates { token: u32, max: u32 },
    /// A contract's storage slot.
    ContractStorage { contract: [u8; 32], key: u64 },
    /// Whether a contract is deployed.
    HasContract([u8; 32]),
}

/// What was found.
pub enum Found {
    Height(u64),
    Block(Option<Vec<u8>>),
    /// The offered block's id and height, where it could be read; whether it was
    /// known before; and whether it was taken.
    Offered { header: Option<([u8; 32], u64)>, known: bool, taken: bool },
    /// Whether the vote was newly pooled, and the certificate it completed.
    Voted { pooled: bool, certificate: Option<Vec<u8>> },
    Finalized(Option<(u64, [u8; 32])>),
    Stake(u64, Vec<(u64, u64)>),
    Genesis([u8; 32]),
    Heights(Vec<u64>),
    /// The tip's height and id with the records, or `None` on a fresh chain.
    Records(Option<(u64, [u8; 32], Vec<(Vec<u8>, Vec<u8>)>)>),
    Ciphertext(Option<[u8; 64]>),
    Amount(Option<u64>),
    Pool(Option<(u64, u64, u64)>),
    Shares(u64),
    Htlc(Option<(u32, [u8; 32], [u8; 32], u64, [u8; 32], u64)>),
    Htlcs(Vec<([u8; 32], u32, [u8; 32], [u8; 32], u64, [u8; 32], u64)>),
    Curve(Option<(u64, u64, u64, bool)>),
    Candidates(Vec<([u8; 32], [u8; 64])>),
    Slot(u64),
    Flag(bool),
}

/// Whether `f` is what the lookup `l` finds.
pub open spec fn fits(l: Lookup, f: Found) -> bool {
    match (l, f) {
        (Lookup::Height, Found::Height(_)) => true,
        (Lookup::BlockAt(_), Found::Block(_)) => true,
        (Lookup::Vote(_), Found::Voted { .. }) => true,
        (Lookup::Certificate(_), Found::Flag(_)) => true,
        (Lookup::Finalized, Found::Finalized(_)) => true,
        (Lookup::Stake(_), Found::Stake(_, _)) => true,
        (Lookup::Genesis { .. }, Found::Genesis(_)) => true,
        (Lookup::HeightsOf(_), Found::Heights(_)) => true,
        (Lookup::Submit(_), Found::Flag(_)) => true,
        (Lookup::HasBlock(_), Found::Flag(_)) => true,
        (Lookup::StateRecords, Found::Records(_)) => true,
        (Lookup::Balance { .. }, Found::Ciphertext(_)) => true,
        (Lookup::Pending { .. }, Found::Ciphertext(_)) => true,
        (Lookup::Nonce(_), Found::Amount(_)) => true,
        (Lookup::PublicBalance { .. }, Found::Amount(_)) => true,
        (Lookup::Pool(_), Found::Pool(_)) => true,
        (Lookup::LpShares { .. }, Found::Shares(_)) => true,
        (Lookup::Htlc(_), Found::Htlc(_)) => true,
        (Lookup::Htlcs, Found::Htlcs(_)) => true,
        (Lookup::Curve(_), Found::Curve(_)) => true,
        (Lookup::RingCandidates { .. }, Found::Candidates(_)) => true,
        (Lookup::ContractStorage { .. }, Found::Slot(_)) => true,
        (Lookup::HasContract(_), Found::Flag(_)) => true,
        (Lookup::Offer(_), Found::Offered { header, taken, .. }) => taken ==> header is Some,
        _ => false,
    }
}

/// What to tell other peers.
pub enum Gossip {
    Nothing,
    /// A block that is new here, and this node's vote for it.
    Block { id: [u8; 32], height: u64, bytes: Vec<u8> },
    /// A vote that is new here, and the certificate it completed.
    Vote { bytes: Vec<u8>, certificate: Option<Vec<u8>> },
    /// A certificate that advanced the finalized height.
    Certificate(Vec<u8>),
    /// A transaction that is new here.
    Tx(Vec<u8>),
}

/// What to do about a message.
pub enum Step {
    /// Nothing: it is no request.
    Ignore,
    Reply(Msg),
    Ask(Lookup),
}

/// What a connection keeps: the state snapshot captured on it, in chunks.
pub struct Session {
    pub chunks: Option<Vec<Vec<(Vec<u8>, Vec<u8>)>>>,
}

/// The records of a snapshot's chunks.
pub open spec fn chunk_views(chunks: Seq<Vec<(Vec<u8>, Vec<u8>)>>) -> Seq<
    Seq<(Seq<u8>, Seq<u8>)>,
> {
    chunks.map_values(|c: Vec<(Vec<u8>, Vec<u8>)>| snapshot::plain(c@))
}

impl Session {
    /// The captured chunks, if there are any.
    pub open spec fn captured(&self) -> Option<Seq<Seq<(Seq<u8>, Seq<u8>)>>> {
        match self.chunks {
            Some(c) => Some(chunk_views(c@)),
            None => None,
        }
    }

    /// Chunk `n`, or nothing where there is none.
    pub open spec fn chunk(&self, n: int) -> Seq<(Seq<u8>, Seq<u8>)> {
        match self.captured() {
            Some(c) => if 0 <= n < c.len() {
                c[n]
            } else {
                Seq::empty()
            },
            None => Seq::empty(),
        }
    }

    pub fn new() -> (r: Self)
        ensures
            r.captured() is None,
    {
        Session { chunks: None }
    }
}

/// The lookup that a request needs, if it needs one.
pub open spec fn asked(m: Msg) -> Option<Lookup> {
    match m {
        Msg::GetTip => Some(Lookup::Height),
        Msg::GetBlock(h) => Some(Lookup::BlockAt(h)),
        Msg::NewBlock(bytes) => Some(Lookup::Offer(bytes)),
        Msg::FinalityVote(bytes) => Some(Lookup::Vote(bytes)),
        Msg::FinalityCert(bytes) => Some(Lookup::Certificate(bytes)),
        Msg::GetFinalized => Some(Lookup::Finalized),
        Msg::GetStake(id) => Some(Lookup::Stake(id)),
        Msg::Handshake { version, genesis, addr } =>
            Some(Lookup::Genesis { version, genesis, addr }),
        Msg::FindCommon(ids) => Some(Lookup::HeightsOf(ids)),
        Msg::NewTx(bytes) => Some(Lookup::Submit(bytes)),
        Msg::BlockAnnounce { id, height: _ } => Some(Lookup::HasBlock(id)),
        Msg::GetStateManifest => Some(Lookup::StateRecords),
        Msg::SubmitTx(bytes) => Some(Lookup::Submit(bytes)),
        Msg::GetBalance { id, token } => Some(Lookup::Balance { id, token }),
        Msg::GetNonce(id) => Some(Lookup::Nonce(id)),
        Msg::GetPublicBalance { id, token } => Some(Lookup::PublicBalance { id, token }),
        Msg::GetPool(token) => Some(Lookup::Pool(token)),
        Msg::GetLpShares { token, id } => Some(Lookup::LpShares { token, id }),
        Msg::GetHtlc(id) => Some(Lookup::Htlc(id)),
        Msg::GetHtlcs => Some(Lookup::Htlcs),
        Msg::GetCurve(token) => Some(Lookup::Curve(token)),
        Msg::GetPending { id, token } => Some(Lookup::Pending { id, token }),
        Msg::GetRingCandidates { token, max } => Some(Lookup::RingCandidates { token, max }),
        Msg::GetContractStorage { contract, key } =>
            Some(Lookup::ContractStorage { contract, key }),
        Msg::HasContract(id) => Some(Lookup::HasContract(id)),
        _ => None,
    }
}

/// Take up a message. Peers and clients only send requests; a reply out of turn
/// is ignored.
pub fn request(state: &mut NodeState, session: &Session, m: Msg) -> (r: Step)
    requires
        old(state).wf(),
    ensures
        final(state).wf(),
        final(state).own() == old(state).own(),
        final(state).pool() == old(state).pool(),
        final(state).miner == old(state).miner,
        !(m is Hello) ==> final(state).known() == old(state).known(),
        match m {
            Msg::Hello(addr) => {
                let news = node::recordable(
                    old(state).known(),
                    old(state).own(),
                    text::trimmed(addr@),
                );
                &&& r == Step::Reply(Msg::Ack(news))
                &&& final(state).known() == if news {
                    old(state).known().push(
                        node::PeerView { addr: text::trimmed(addr@), failures: 0 },
                    )
                } else {
                    old(state).known()
                }
            },
            Msg::GetPeers => r matches Step::Reply(Msg::Peers(list)) && list@.map_values(
                |s: String| s@,
            ) == node::addresses(old(state).known()),
            Msg::GetStateChunk(n) => r matches Step::Reply(Msg::StateChunk(list))
                && snapshot::plain(list@) == session.chunk(n as int),
            _ => r == match asked(m) {
                Some(l) => Step::Ask(l),
                None => Step::Ignore,
            },
        },
{
    match m {
        Msg::Hello(addr) => {
            let news = state.add_peer(addr.as_str());
            Step::Reply(Msg::Ack(news))
        },
        Msg::GetPeers => {
            let list = state.peers();
            assert(list@.map_values(|s: String| s@) =~= node::addresses(state.known()));
            Step::Reply(Msg::Peers(list))
        },
        Msg::GetStateChunk(n) => {
            let none: Vec<(Vec<u8>, Vec<u8>)> = Vec::new();
            assert(snapshot::plain(none@) =~= Seq::empty());
            match &session.chunks {
                None => Step::Reply(Msg::StateChunk(none)),
                Some(c) => {
                    let i: usize = n as usize;
                    if i < c.len() {
                        assert(session.chunk(n as int) == snapshot::plain(c@[i as int]@));
                        return Step::Reply(Msg::StateChunk(copy_records(&c[i])));
                    }
                    Step::Reply(Msg::StateChunk(none))
                },
            }
        },
        Msg::GetTip => Step::Ask(Lookup::Height),
        Msg::GetBlock(h) => Step::Ask(Lookup::BlockAt(h)),
        Msg::NewBlock(bytes) => Step::Ask(Lookup::Offer(bytes)),
        Msg::FinalityVote(bytes) => Step::Ask(Lookup::Vote(bytes)),
        Msg::FinalityCert(bytes) => Step::Ask(Lookup::Certificate(bytes)),
        Msg::GetFinalized => Step::Ask(Lookup::Finalized),
        Msg::GetStake(id) => Step::Ask(Lookup::Stake(id)),
        Msg::Handshake { version, genesis, addr } =>
            Step::Ask(Lookup::Genesis { version, genesis, addr }),
        Msg::FindCommon(ids) => Step::Ask(Lookup::HeightsOf(ids)),
        Msg::NewTx(bytes) => Step::Ask(Lookup::Submit(bytes)),
        Msg::BlockAnnounce { id, height: _ } => Step::Ask(Lookup::HasBlock(id)),
        Msg::GetStateManifest => Step::Ask(Lookup::StateRecords),
        Msg::SubmitTx(bytes) => Step::Ask(Lookup::Submit(bytes)),
        Msg::GetBalance { id, token } => Step::Ask(Lookup::Balance { id, token }),
        Msg::GetNonce(id) => Step::Ask(Lookup::Nonce(id)),
        Msg::GetPublicBalance { id, token } => Step::Ask(Lookup::PublicBalance { id, token }),
        Msg::GetPool(token) => Step::Ask(Lookup::Pool(token)),
        Msg::GetLpShares { token, id } => Step::Ask(Lookup::LpShares { token, id }),
        Msg::GetHtlc(id) => Step::Ask(Lookup::Htlc(id)),
        Msg::GetHtlcs => Step::Ask(Lookup::Htlcs),
        Msg::GetCurve(token) => Step::Ask(Lookup::Curve(token)),
        Msg::GetPending { id, token } => Step::Ask(Lookup::Pending { id, token }),
        Msg::GetRingCandidates { token, max } => Step::Ask(Lookup::RingCandidates { token, max }),
        Msg::GetContractStorage { contract, key } =>
            Step::Ask(Lookup::ContractStorage { contract, key }),
        Msg::HasContract(id) => Step::Ask(Lookup::HasContract(id)),
        _ => Step::Ignore,
    }
}

fn copy_records(list: &Vec<(Vec<u8>, Vec<u8>)>) -> (r: Vec<(Vec<u8>, Vec<u8>)>)
    ensures
        snapshot::plain(r@) == snapshot::plain(list@),
{
    let mut r: Vec<(Vec<u8>, Vec<u8>)> = Vec::new();
    let mut i: usize = 0;
    while i < list.len()
        invariant
            i <= list@.len(),
            r@.len() == i,
            forall|j: int|
                0 <= j < i ==> (#[trigger] r@[j]).0@ == list@[j].0@ && r@[j].1@ == list@[j].1@,
        decreases list@.len() - i,
    {
        r.push((copy_bytes(list[i].0.as_slice()), copy_bytes(list[i].1.as_slice())));
        i += 1;
    }
    assert(snapshot::plain(r@) =~= snapshot::plain(list@));
    r
}

/// The greatest of some heights, or zero.
pub open spec fn highest(h: Seq<u64>) -> u64
    decreases h.len(),
{
    if h.len() == 0 {
        0
    } else {
        let before = highest(h.drop_last());
        if h.last() > before {
            h.last()
        } else {
            before
        }
    }
}

fn highest_of(h: &Vec<u64>) -> (r: u64)
    ensures
        r == highest(h@),
{
    let mut best: u64 = 0;
    let mut i: usize = 0;
    assert(h@.take(0) =~= Seq::empty());
    while i < h.len()
        invariant
            i <= h@.len(),
            best == highest(h@.take(i as int)),
        decreases h@.len() - i,
    {
        assert(h@.take(i + 1).drop_last() =~= h@.take(i as int));
        if h[i] > best {
            best = h[i];
        }
        i += 1;
    }
    assert(h@.take(h@.len() as int) =~= h@);
    best
}

/// How many ring candidates a reply to a request for `max` of `n` holds.
pub open spec fn ring_cap(max: u32, n: nat) -> int {
    let m = if max < MAX_RING_CANDIDATES {
        max as int
    } else {
        MAX_RING_CANDIDATES as int
    };
    if m < n {
        m
    } else {
        n as int
    }
}

/// Evenly spaced candidates out of all, so that a reply spans the whole of them.
pub open spec fn strided(all: Seq<([u8; 32], [u8; 64])>, max: u32) -> Seq<([u8; 32], [u8; 64])> {
    let cap = ring_cap(max, all.len());
    Seq::new(cap as nat, |i: int| all[i * all.len() as int / cap])
}

fn strided_of(all: &Vec<([u8; 32], [u8; 64])>, max: u32) -> (r: Vec<([u8; 32], [u8; 64])>)
    ensures
        r@ == strided(all@, max),
{
    let mut cap: usize = if (max as usize) < MAX_RING_CANDIDATES {
        max as usize
    } else {
        MAX_RING_CANDIDATES
    };
    if all.len() < cap {
        cap = all.len();
    }
    assert(cap == ring_cap(max, all@.len()));
    let n: usize = all.len();
    let mut r: Vec<([u8; 32], [u8; 64])> = Vec::new();
    let mut i: usize = 0;
    while i < cap
        invariant
            n == all@.len(),
            i <= cap <= MAX_RING_CANDIDATES,
            cap <= all@.len(),
            cap == ring_cap(max, all@.len()),
            r@.len() == i,
            forall|j: int| 0 <= j < i ==> #[trigger] r@[j] == strided(all@, max)[j],
        decreases cap - i,
    {
        proof {
            lemma_stride(i as int, n as int, cap as int);
            assert(i * n <= 64 * 0xFFFF_FFFF_FFFF_FFFF) by (nonlinear_arith)
                requires
                    i <= 64,
                    n <= 0xFFFF_FFFF_FFFF_FFFF,
            ;
        }
        let at: u128 = (i as u128) * (n as u128) / (cap as u128);
        r.push(all[at as usize]);
        i += 1;
    }
    assert(r@ =~= strided(all@, max));
    r
}

proof fn lemma_stride(i: int, n: int, cap: int)
    requires
        0 <= i < cap <= n,
    ensures
        0 <= i * n / cap < n,
        i * n / cap < (i + 1) * n / cap,
{
    let q = i * n / cap;
    assert(0 <= i * n) by (nonlinear_arith)
        requires
            0 <= i,
            0 <= n,
    ;
    assert(0 <= q && q * cap <= i * n < q * cap + cap) by (nonlinear_arith)
        requires
            cap > 0,
            0 <= i * n,
            q == i * n / cap,
    ;
    assert(q < n) by (nonlinear_arith)
        requires
            q * cap <= i * n,
            i < cap,
            n > 0,
            cap > 0,
    ;
    assert((q + 1) * cap <= (i + 1) * n) by (nonlinear_arith)
        requires
            q * cap <= i * n,
            cap <= n,
    ;
    let m = (i + 1) * n;
    assert(m / cap >= q + 1) by (nonlinear_arith)
        requires
            (q + 1) * cap <= m,
            cap > 0,
    ;
}

/// No candidate is in a reply twice.
pub proof fn law_ring_reply_is_distinct(all: Seq<([u8; 32], [u8; 64])>, max: u32, i: int, j: int)
    requires
        forall|x: int, y: int|
            0 <= x < y < all.len() ==> (#[trigger] all[x]).0@ != (#[trigger] all[y]).0@,
        0 <= i < j < strided(all, max).len(),
    ensures
        strided(all, max)[i].0@ != strided(all, max)[j].0@,
{
    let n = all.len() as int;
    let cap = ring_cap(max, all.len());
    lemma_stride_apart(i, j, n, cap);
    lemma_stride(j, n, cap);
    lemma_stride(i, n, cap);
    assert(all[i * n / cap].0@ != all[j * n / cap].0@);
}

proof fn lemma_stride_apart(i: int, j: int, n: int, cap: int)
    requires
        0 <= i < j < cap <= n,
    ensures
        i * n / cap < j * n / cap,
    decreases j - i,
{
    lemma_stride(i, n, cap);
    if i + 1 < j {
        lemma_stride_apart(i + 1, j, n, cap);
    }
}

// --- state snapshots in chunks -------------------------------------------------

/// The bytes of a record's key and value.
pub open spec fn record_cost(r: (Seq<u8>, Seq<u8>)) -> int {
    (r.0.len() + r.1.len()) as int
}

/// The bytes of the keys and values of some records.
pub open spec fn cost(c: Seq<(Seq<u8>, Seq<u8>)>) -> int
    decreases c.len(),
{
    if c.len() == 0 {
        0
    } else {
        cost(c.drop_last()) + record_cost(c.last())
    }
}

/// The records of chunks, one after the other.
pub open spec fn flat(chunks: Seq<Seq<(Seq<u8>, Seq<u8>)>>) -> Seq<(Seq<u8>, Seq<u8>)>
    decreases chunks.len(),
{
    if chunks.len() == 0 {
        Seq::empty()
    } else {
        flat(chunks.drop_last()) + chunks.last()
    }
}

/// Whether `chunks` is the split of `records`: all of them in order, each chunk
/// as full as the budget allows. A record over the budget has a chunk of its own,
/// and without records there is one empty chunk.
pub open spec fn split(
    chunks: Seq<Seq<(Seq<u8>, Seq<u8>)>>,
    records: Seq<(Seq<u8>, Seq<u8>)>,
) -> bool {
    &&& flat(chunks) == records
    &&& chunks.len() > 0
    &&& records.len() > 0 ==> forall|i: int| 0 <= i < chunks.len()
        ==> (#[trigger] chunks[i]).len() > 0
    &&& forall|i: int|
        0 <= i < chunks.len() ==> (#[trigger] chunks[i]).len() <= 1 || cost(chunks[i])
            <= STATE_CHUNK_BYTES
    &&& forall|i: int, j: int|
        #![trigger chunks[i], chunks[j]]
        0 <= i && j == i + 1 && j < chunks.len() ==> cost(chunks[i]) + record_cost(chunks[j][0])
            > STATE_CHUNK_BYTES
}

fn split_records(records: Vec<(Vec<u8>, Vec<u8>)>) -> (r: Vec<Vec<(Vec<u8>, Vec<u8>)>>)
    ensures
        split(chunk_views(r@), snapshot::plain(records@)),
{
    let ghost all = snapshot::plain(records@);
    let mut done: Vec<Vec<(Vec<u8>, Vec<u8>)>> = Vec::new();
    let mut filling: Vec<(Vec<u8>, Vec<u8>)> = Vec::new();
    let mut used: u128 = 0;
    let mut i: usize = 0;
    proof {
        assert(chunk_views(done@) =~= Seq::empty());
        assert(snapshot::plain(filling@) =~= Seq::empty());
        assert(flat(chunk_views(done@)) + snapshot::plain(filling@) =~= all.take(0));
    }
    while i < records.len()
        invariant
            i <= records@.len(),
            all == snapshot::plain(records@),
            flat(chunk_views(done@)) + snapshot::plain(filling@) == all.take(i as int),
            i > 0 ==> filling@.len() > 0,
            i == 0 ==> filling@.len() == 0 && done@.len() == 0,
            used == cost(snapshot::plain(filling@)),
            filling@.len() <= 1 || used <= STATE_CHUNK_BYTES,
            used <= 0x2_0000_0000_0000_0000,
            forall|x: int| 0 <= x < done@.len() ==> (#[trigger] chunk_views(done@)[x]).len() > 0,
            forall|x: int|
                0 <= x < done@.len() ==> (#[trigger] chunk_views(done@)[x]).len() <= 1 || cost(
                    chunk_views(done@)[x],
                ) <= STATE_CHUNK_BYTES,
            forall|x: int, y: int|
                #![trigger chunk_views(done@)[x], chunk_views(done@)[y]]
                0 <= x && y == x + 1 && y < done@.len() ==> cost(chunk_views(done@)[x])
                    + record_cost(chunk_views(done@)[y][0]) > STATE_CHUNK_BYTES,
            filling@.len() > 0 && done@.len() > 0 ==> cost(chunk_views(done@)[done@.len() - 1])
                + record_cost(snapshot::plain(filling@)[0]) > STATE_CHUNK_BYTES,
        decreases records@.len() - i,
    {
        let key = copy_bytes(records[i].0.as_slice());
        let value = copy_bytes(records[i].1.as_slice());
        let n: u128 = key.len() as u128 + value.len() as u128;
        let ghost rec = all[i as int];
        assert(rec == (key@, value@));
        assert(all.take(i + 1) =~= all.take(i as int).push(rec));
        if used + n > STATE_CHUNK_BYTES as u128 && filling.len() > 0 {
            let ghost was = chunk_views(done@);
            let ghost full = snapshot::plain(filling@);
            done.push(filling);
            filling = Vec::new();
            used = 0;
            proof {
                let now = chunk_views(done@);
                assert(now =~= was.push(full));
                assert(now.drop_last() =~= was);
                assert(snapshot::plain(filling@) =~= Seq::empty());
                assert(flat(now) + snapshot::plain(filling@) =~= all.take(i as int));
                assert forall|x: int| 0 <= x < now.len() implies (#[trigger] now[x]).len() > 0 by {
                    if x < was.len() {
                        assert(was[x].len() > 0);
                    }
                }
                assert forall|x: int| 0 <= x < now.len() implies (#[trigger] now[x]).len() <= 1
                    || cost(now[x]) <= STATE_CHUNK_BYTES by {
                    if x < was.len() {
                        assert(was[x].len() <= 1 || cost(was[x]) <= STATE_CHUNK_BYTES);
                    }
                }
                assert forall|x: int, y: int|
                    #![trigger now[x], now[y]]
                    0 <= x && y == x + 1 && y < now.len() implies cost(now[x]) + record_cost(
                    now[y][0],
                ) > STATE_CHUNK_BYTES by {
                    if y < was.len() {
                        assert(cost(was[x]) + record_cost(was[y][0]) > STATE_CHUNK_BYTES);
                    }
                }
                assert(cost(full) + record_cost(rec) > STATE_CHUNK_BYTES);
            }
        }
        let ghost part = snapshot::plain(filling@);
        used = used + n;
        filling.push((key, value));
        proof {
            let now = snapshot::plain(filling@);
            assert(now =~= part.push(rec));
            assert(now.drop_last() =~= part);
            assert(now.last() == rec);
            assert(cost(now) == cost(part) + record_cost(rec));
            assert(flat(chunk_views(done@)) + now =~= all.take(i + 1));
            if part.len() > 0 {
                assert(now[0] == part[0]);
            }
        }
        i += 1;
    }
    let ghost was = chunk_views(done@);
    let ghost last = snapshot::plain(filling@);
    done.push(filling);
    proof {
        let now = chunk_views(done@);
        assert(now =~= was.push(last));
        assert(now.drop_last() =~= was);
        assert(all.take(all.len() as int) =~= all);
        assert forall|x: int| 0 <= x < now.len() implies (#[trigger] now[x]).len() <= 1 || cost(
            now[x],
        ) <= STATE_CHUNK_BYTES by {
            if x < was.len() {
                assert(was[x].len() <= 1 || cost(was[x]) <= STATE_CHUNK_BYTES);
            }
        }
        assert forall|x: int| 0 <= x < was.len() implies (#[trigger] now[x]).len() > 0 by {
            assert(was[x].len() > 0);
        }
        assert forall|x: int, y: int|
            #![trigger now[x], now[y]]
            0 <= x && y == x + 1 && y < now.len() implies cost(now[x]) + record_cost(now[y][0])
            > STATE_CHUNK_BYTES by {
            if y < was.len() {
                assert(cost(was[x]) + record_cost(was[y][0]) > STATE_CHUNK_BYTES);
            }
        }
    }
    done
}

// --- replies --------------------------------------------------------------------

/// Whether a peer that introduced itself speaks this protocol on this chain.
pub open spec fn compatible(version: u32, genesis: [u8; 32], ours: [u8; 32]) -> bool {
    version == PROTOCOL_VERSION && genesis@ == ours@
}

/// Whether `m` is the reply to what was looked up.
pub open spec fn answers(l: Lookup, f: Found, m: Msg) -> bool {
    match (l, f) {
        (Lookup::Height, Found::Height(h)) => m == Msg::Tip(h),
        (Lookup::BlockAt(_), Found::Block(b)) => m == Msg::Block(b),
        (Lookup::Offer(_), Found::Offered { taken, .. }) => m == Msg::Ack(taken),
        (Lookup::Vote(_), Found::Voted { pooled, .. }) => m == Msg::Ack(pooled),
        (Lookup::Certificate(_), Found::Flag(advanced)) => m == Msg::Ack(advanced),
        (Lookup::Finalized, Found::Finalized(x)) => m == Msg::FinalizedReply(x),
        (Lookup::Stake(_), Found::Stake(s, u)) => m == Msg::StakeReply(s, u),
        (Lookup::Genesis { version, genesis, .. }, Found::Genesis(ours)) => m
            == Msg::HandshakeAck {
            version: PROTOCOL_VERSION,
            genesis: ours,
            accepted: compatible(version, genesis, ours),
        },
        (Lookup::HeightsOf(_), Found::Heights(h)) => m == Msg::CommonHeight(highest(h@)),
        (Lookup::Submit(_), Found::Flag(added)) => m == Msg::Ack(added),
        (Lookup::HasBlock(_), Found::Flag(has)) => m == Msg::Ack(!has),
        (Lookup::StateRecords, Found::Records(Some((height, id, list)))) =>
            m matches Msg::StateManifest {
            anchor_height,
            anchor_id,
            record_count,
            chunk_count: _,
        } && anchor_height == height && anchor_id == id && record_count == list@.len() as u64,
        (Lookup::StateRecords, Found::Records(None)) => m matches Msg::StateManifest {
            anchor_height,
            anchor_id,
            record_count,
            chunk_count,
        } && anchor_height == 0 && anchor_id@ == Seq::new(32, |i: int| 0u8) && record_count == 0
            && chunk_count == 0,
        (Lookup::Balance { .. }, Found::Ciphertext(c)) => shown(c, m),
        (Lookup::Pending { .. }, Found::Ciphertext(c)) => shown(c, m),
        (Lookup::Nonce(_), Found::Amount(n)) => m == Msg::NonceReply(n),
        (Lookup::PublicBalance { .. }, Found::Amount(n)) => m == Msg::PublicBalanceReply(n),
        (Lookup::Pool(_), Found::Pool(p)) => m == Msg::PoolReply(p),
        (Lookup::LpShares { .. }, Found::Shares(n)) => m == Msg::PublicBalanceReply(Some(n)),
        (Lookup::Htlc(_), Found::Htlc(h)) => m == Msg::HtlcReply(h),
        (Lookup::Htlcs, Found::Htlcs(list)) => m == Msg::HtlcsReply(list),
        (Lookup::Curve(_), Found::Curve(c)) => m == Msg::CurveReply(c),
        (Lookup::RingCandidates { max, .. }, Found::Candidates(all)) => m
            matches Msg::RingCandidates(list) && list@ == strided(all@, max),
        (Lookup::ContractStorage { .. }, Found::Slot(v)) => m == Msg::ContractStorageReply(v),
        (Lookup::HasContract(_), Found::Flag(has)) => m == Msg::Ack(has),
        _ => false,
    }
}

/// Whether `m` shows a ciphertext, or that there is none.
pub open spec fn shown(c: Option<[u8; 64]>, m: Msg) -> bool {
    match c {
        Some(ct) => m matches Msg::BalanceReply(Some(b)) && b@ == ct@,
        None => m == Msg::BalanceReply(None),
    }
}

/// What is passed on: whatever is new here, and nothing else.
pub open spec fn passed_on(l: Lookup, f: Found) -> Gossip {
    match (l, f) {
        (Lookup::Offer(bytes), Found::Offered { header, known, taken }) => if taken && !known {
            Gossip::Block { id: (header->0).0, height: (header->0).1, bytes }
        } else {
            Gossip::Nothing
        },
        (Lookup::Vote(bytes), Found::Voted { pooled, certificate }) => if pooled {
            Gossip::Vote { bytes, certificate }
        } else {
            Gossip::Nothing
        },
        (Lookup::Certificate(bytes), Found::Flag(advanced)) => if advanced {
            Gossip::Certificate(bytes)
        } else {
            Gossip::Nothing
        },
        (Lookup::Submit(bytes), Found::Flag(added)) => if added {
            Gossip::Tx(bytes)
        } else {
            Gossip::Nothing
        },
        _ => Gossip::Nothing,
    }
}

/// The peers after a lookup: a compatible peer that introduced itself is recorded.
pub open spec fn peers_after(
    peers: Seq<node::PeerView>,
    own: Option<Seq<char>>,
    l: Lookup,
    f: Found,
) -> Seq<node::PeerView> {
    match (l, f) {
        (Lookup::Genesis { version, genesis, addr }, Found::Genesis(ours)) => {
            let a = text::trimmed(addr@);
            if compatible(version, genesis, ours) && node::recordable(peers, own, a) {
                peers.push(node::PeerView { addr: a, failures: 0 })
            } else {
                peers
            }
        },
        _ => peers,
    }
}

/// Conclude a request from what was looked up: the reply, and what to pass on.
pub fn conclude(state: &mut NodeState, session: &mut Session, l: Lookup, f: Found) -> (r: (
    Msg,
    Gossip,
))
    requires
        old(state).wf(),
        fits(l, f),
    ensures
        final(state).wf(),
        final(state).own() == old(state).own(),
        final(state).pool() == old(state).pool(),
        final(state).miner == old(state).miner,
        final(state).known() == peers_after(old(state).known(), old(state).own(), l, f),
        answers(l, f, r.0),
        r.1 == passed_on(l, f),
        match (l, f) {
            (Lookup::StateRecords, Found::Records(Some((_, _, list)))) => {
                &&& final(session).captured() is Some
                &&& split(final(session).captured()->0, snapshot::plain(list@))
                &&& r.0 matches Msg::StateManifest { chunk_count, .. } && chunk_count
                    == (final(session).captured()->0).len() as u32
            },
            _ => *final(session) == *old(session),
        },
{
    match (l, f) {
        (Lookup::Height, Found::Height(h)) => (Msg::Tip(h), Gossip::Nothing),
        (Lookup::BlockAt(_), Found::Block(b)) => (Msg::Block(b), Gossip::Nothing),
        (Lookup::Offer(bytes), Found::Offered { header, known, taken }) => {
            if taken && !known {
                if let Some((id, height)) = header {
                    return (Msg::Ack(taken), Gossip::Block { id, height, bytes });
                }
            }
            (Msg::Ack(taken), Gossip::Nothing)
        },
        (Lookup::Vote(bytes), Found::Voted { pooled, certificate }) => {
            if pooled {
                return (Msg::Ack(true), Gossip::Vote { bytes, certificate });
            }
            (Msg::Ack(false), Gossip::Nothing)
        },
        (Lookup::Certificate(bytes), Found::Flag(advanced)) => {
            if advanced {
                return (Msg::Ack(true), Gossip::Certificate(bytes));
            }
            (Msg::Ack(false), Gossip::Nothing)
        },
        (Lookup::Finalized, Found::Finalized(x)) => (Msg::FinalizedReply(x), Gossip::Nothing),
        (Lookup::Stake(_), Found::Stake(s, u)) => (Msg::StakeReply(s, u), Gossip::Nothing),
        (Lookup::Genesis { version, genesis, addr }, Found::Genesis(ours)) => {
            let accepted = version == PROTOCOL_VERSION && same_hash(&genesis, &ours);
            if accepted {
                let news = state.add_peer(addr.as_str());
            }
            (
                Msg::HandshakeAck { version: PROTOCOL_VERSION, genesis: ours, accepted },
                Gossip::Nothing,
            )
        },
        (Lookup::HeightsOf(_), Found::Heights(h)) => (
            Msg::CommonHeight(highest_of(&h)),
            Gossip::Nothing,
        ),
        (Lookup::Submit(bytes), Found::Flag(added)) => {
            if added {
                return (Msg::Ack(true), Gossip::Tx(bytes));
            }
            (Msg::Ack(false), Gossip::Nothing)
        },
        (Lookup::HasBlock(_), Found::Flag(has)) => (Msg::Ack(!has), Gossip::Nothing),
        (Lookup::StateRecords, Found::Records(Some((anchor_height, anchor_id, list)))) => {
            let record_count: u64 = list.len() as u64;
            let chunks = split_records(list);
            let chunk_count: u32 = chunks.len() as u32;
            session.chunks = Some(chunks);
            (
                Msg::StateManifest { anchor_height, anchor_id, record_count, chunk_count },
                Gossip::Nothing,
            )
        },
        (Lookup::StateRecords, Found::Records(None)) => {
            let anchor_id = [0u8; 32];
            assert(anchor_id@ =~= Seq::new(32, |i: int| 0u8));
            (
                Msg::StateManifest { anchor_height: 0, anchor_id, record_count: 0, chunk_count: 0 },
                Gossip::Nothing,
            )
        },
        (Lookup::Balance { .. }, Found::Ciphertext(c)) => (show(c), Gossip::Nothing),
        (Lookup::Pending { .. }, Found::Ciphertext(c)) => (show(c), Gossip::Nothing),
        (Lookup::Nonce(_), Found::Amount(n)) => (Msg::NonceReply(n), Gossip::Nothing),
        (Lookup::PublicBalance { .. }, Found::Amount(n)) => (
            Msg::PublicBalanceReply(n),
            Gossip::Nothing,
        ),
        (Lookup::Pool(_), Found::Pool(p)) => (Msg::PoolReply(p), Gossip::Nothing),
        (Lookup::LpShares { .. }, Found::Shares(n)) => (
            Msg::PublicBalanceReply(Some(n)),
            Gossip::Nothing,
        ),
        (Lookup::Htlc(_), Found::Htlc(h)) => (Msg::HtlcReply(h), Gossip::Nothing),
        (Lookup::Htlcs, Found::Htlcs(list)) => (Msg::HtlcsReply(list), Gossip::Nothing),
        (Lookup::Curve(_), Found::Curve(c)) => (Msg::CurveReply(c), Gossip::Nothing),
        (Lookup::RingCandidates { max, .. }, Found::Candidates(all)) => (
            Msg::RingCandidates(strided_of(&all, max)),
            Gossip::Nothing,
        ),
        (Lookup::ContractStorage { .. }, Found::Slot(v)) => (
            Msg::ContractStorageReply(v),
            Gossip::Nothing,
        ),
        (Lookup::HasContract(_), Found::Flag(has)) => (Msg::Ack(has), Gossip::Nothing),
        _ => {
            assert(false);
            (Msg::Ack(false), Gossip::Nothing)
        },
    }
}

fn show(c: Option<[u8; 64]>) -> (m: Msg)
    ensures
        shown(c, m),
{
    match c {
        Some(ct) => Msg::BalanceReply(Some(copy_bytes(ct.as_slice()))),
        None => Msg::BalanceReply(None),
    }
}

/// Only news travels: a block, vote, certificate or transaction that was known
/// here, or that was not taken, is passed on to nobody.
pub proof fn law_only_news_travels(l: Lookup, f: Found)
    requires
        fits(l, f),
    ensures
        passed_on(l, f) is Nothing <==> !news(l, f),
{
}

/// Whether a lookup brought something that is new here.
pub open spec fn news(l: Lookup, f: Found) -> bool {
    match (l, f) {
        (Lookup::Offer(_), Found::Offered { known, taken, .. }) => taken && !known,
        (Lookup::Vote(_), Found::Voted { pooled, .. }) => pooled,
        (Lookup::Certificate(_), Found::Flag(advanced)) => advanced,
        (Lookup::Submit(_), Found::Flag(added)) => added,
        _ => false,
    }
}

} // verus!
