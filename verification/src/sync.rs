//! Framing, the client's side of the peer protocol, and catching up with a peer.

use vstd::prelude::*;

use crate::bytes;
use crate::bytes::{push_bytes, push_u32, same_hash, u32_at};
use crate::node::PROTOCOL_VERSION;
use crate::serve;
use crate::snapshot;
use crate::wire::{Msg, MAX_MSG_BYTES};

verus! {

// --- framing ----------------------------------------------------------------------

/// A message on a stream: its length, then its encoding.
pub open spec fn framed(m: Msg) -> Seq<u8> {
    bytes::le4(m.wire().len() as u32) + m.wire()
}

/// A message as it is written to a stream.
pub fn frame(m: &Msg) -> (v: Vec<u8>)
    ensures
        v@ == framed(*m),
{
    let body = m.encode();
    let mut v: Vec<u8> = Vec::new();
    push_u32(&mut v, body.len() as u32);
    push_bytes(&mut v, body.as_slice());
    assert(v@ =~= framed(*m));
    v
}

/// How many bytes follow a length prefix. The peer decides what it says, so one
/// over the limit is refused with `None`.
pub fn body_len(prefix: &[u8; 4]) -> (r: Option<usize>)
    ensures
        match r {
            Some(n) => bytes::le4(n as u32) == prefix@ && n <= MAX_MSG_BYTES,
            None => exists|n: u32| n > MAX_MSG_BYTES && #[trigger] bytes::le4(n) == prefix@,
        },
{
    broadcast use crate::bytes::group_le;

    let n: u32 = u32_at(prefix.as_slice(), 0);
    assert(prefix@.subrange(0, 4) =~= prefix@);
    if n as usize > MAX_MSG_BYTES {
        assert(bytes::le4(n) == prefix@);
        return None;
    }
    Some(n as usize)
}

/// What a frame says is read back: its prefix gives the length of what follows,
/// and what follows is the message's encoding. Messages over the limit are not
/// readable.
pub proof fn law_frame_reads_back(m: Msg, prefix: [u8; 4], n: usize)
    requires
        m.wire().len() <= MAX_MSG_BYTES,
        framed(m).subrange(0, 4) == prefix@,
        bytes::le4(n as u32) == prefix@,
        n <= MAX_MSG_BYTES,
    ensures
        n == m.wire().len(),
        framed(m).subrange(4, framed(m).len() as int) == m.wire(),
{
    broadcast use crate::bytes::group_le;

    let k = m.wire().len() as u32;
    assert(framed(m).subrange(0, 4) =~= bytes::le4(k));
    assert(bytes::of_le4(bytes::le4(k)) == k);
    assert(bytes::of_le4(bytes::le4(n as u32)) == n as u32);
    assert(framed(m).subrange(4, framed(m).len() as int) =~= m.wire());
}

// --- what a client makes of a reply ------------------------------------------------

/// A reply that says the peer's height. `None`: the reply says something else.
pub fn tip_reply(m: Msg) -> (r: Option<u64>)
    ensures
        r == match m {
            Msg::Tip(x) => Some(x),
            _ => None,
        },
{
    match m {
        Msg::Tip(x) => Some(x),
        _ => None,
    }
}

/// A reply that says an encoded block, or none. `None`: the reply says something else.
pub fn block_reply(m: Msg) -> (r: Option<Option<Vec<u8>>>)
    ensures
        r == match m {
            Msg::Block(x) => Some(x),
            _ => None,
        },
{
    match m {
        Msg::Block(x) => Some(x),
        _ => None,
    }
}

/// A reply that says whether a pushed block, vote, certificate or transaction was
/// accepted. `None`: the reply says something else.
pub fn ack_reply(m: Msg) -> (r: Option<bool>)
    ensures
        r == match m {
            Msg::Ack(x) => Some(x),
            _ => None,
        },
{
    match m {
        Msg::Ack(x) => Some(x),
        _ => None,
    }
}

/// A reply that says an account's nonce. `None`: the reply says something else.
pub fn nonce_reply(m: Msg) -> (r: Option<Option<u64>>)
    ensures
        r == match m {
            Msg::NonceReply(x) => Some(x),
            _ => None,
        },
{
    match m {
        Msg::NonceReply(x) => Some(x),
        _ => None,
    }
}

/// A reply that says an account's public balance. `None`: the reply says something else.
pub fn public_balance_reply(m: Msg) -> (r: Option<Option<u64>>)
    ensures
        r == match m {
            Msg::PublicBalanceReply(x) => Some(x),
            _ => None,
        },
{
    match m {
        Msg::PublicBalanceReply(x) => Some(x),
        _ => None,
    }
}

/// A reply that says the peers a node knows. `None`: the reply says something else.
pub fn peers_reply(m: Msg) -> (r: Option<Vec<String>>)
    ensures
        r == match m {
            Msg::Peers(x) => Some(x),
            _ => None,
        },
{
    match m {
        Msg::Peers(x) => Some(x),
        _ => None,
    }
}

/// A reply that says ring candidates. `None`: the reply says something else.
pub fn ring_reply(m: Msg) -> (r: Option<Vec<([u8; 32], [u8; 64])>>)
    ensures
        r == match m {
            Msg::RingCandidates(x) => Some(x),
            _ => None,
        },
{
    match m {
        Msg::RingCandidates(x) => Some(x),
        _ => None,
    }
}

/// A reply that says a contract's storage slot. `None`: the reply says something else.
pub fn slot_reply(m: Msg) -> (r: Option<u64>)
    ensures
        r == match m {
            Msg::ContractStorageReply(x) => Some(x),
            _ => None,
        },
{
    match m {
        Msg::ContractStorageReply(x) => Some(x),
        _ => None,
    }
}

/// A reply that says a pool. `None`: the reply says something else.
pub fn pool_reply(m: Msg) -> (r: Option<Option<(u64, u64, u64)>>)
    ensures
        r == match m {
            Msg::PoolReply(x) => Some(x),
            _ => None,
        },
{
    match m {
        Msg::PoolReply(x) => Some(x),
        _ => None,
    }
}

/// A reply that says a bonding curve. `None`: the reply says something else.
pub fn curve_reply(m: Msg) -> (r: Option<Option<(u64, u64, u64, bool)>>)
    ensures
        r == match m {
            Msg::CurveReply(x) => Some(x),
            _ => None,
        },
{
    match m {
        Msg::CurveReply(x) => Some(x),
        _ => None,
    }
}

/// A reply that says a lock. `None`: the reply says something else.
pub fn htlc_reply(m: Msg) -> (r: Option<Option<(u32, [u8; 32], [u8; 32], u64, [u8; 32], u64)>>)
    ensures
        r == match m {
            Msg::HtlcReply(x) => Some(x),
            _ => None,
        },
{
    match m {
        Msg::HtlcReply(x) => Some(x),
        _ => None,
    }
}

/// A reply that says every open lock. `None`: the reply says something else.
pub fn htlcs_reply(m: Msg) -> (r: Option<Vec<([u8; 32], u32, [u8; 32], [u8; 32], u64, [u8; 32],
    u64)>>)
    ensures
        r == match m {
            Msg::HtlcsReply(x) => Some(x),
            _ => None,
        },
{
    match m {
        Msg::HtlcsReply(x) => Some(x),
        _ => None,
    }
}

/// A reply that says the finalized block. `None`: the reply says something else.
pub fn finalized_reply(m: Msg) -> (r: Option<Option<(u64, [u8; 32])>>)
    ensures
        r == match m {
            Msg::FinalizedReply(x) => Some(x),
            _ => None,
        },
{
    match m {
        Msg::FinalizedReply(x) => Some(x),
        _ => None,
    }
}

/// A reply that says a validator's stake and unbonding entries. `None`: the reply says
/// something else.
pub fn stake_reply(m: Msg) -> (r: Option<(u64, Vec<(u64, u64)>)>)
    ensures
        r == match m {
            Msg::StakeReply(a, b) => Some((a, b)),
            _ => None,
        },
{
    match m {
        Msg::StakeReply(a, b) => Some((a, b)),
        _ => None,
    }
}

/// A reply that says the height of the best shared block. `None`: the reply says something else.
pub fn common_reply(m: Msg) -> (r: Option<u64>)
    ensures
        r == match m {
            Msg::CommonHeight(x) => Some(x),
            _ => None,
        },
{
    match m {
        Msg::CommonHeight(x) => Some(x),
        _ => None,
    }
}

/// A reply that says an encrypted balance. `None`: the reply says something else.
/// One of the wrong length counts as none.
pub fn balance_reply(m: Msg) -> (r: Option<Option<[u8; 64]>>)
    ensures
        match m {
            Msg::BalanceReply(Some(b)) => if b@.len() == 64 {
                r matches Some(Some(ct)) && ct@ == b@
            } else {
                r == Some(None::<[u8; 64]>)
            },
            Msg::BalanceReply(None) => r == Some(None::<[u8; 64]>),
            _ => r is None,
        },
{
    match m {
        Msg::BalanceReply(Some(b)) => {
            if b.len() == 64 {
                let ct: [u8; 64] = bytes::array_at::<64>(b.as_slice(), 0);
                assert(b@.subrange(0, 64) =~= b@);
                return Some(Some(ct));
            }
            Some(None)
        },
        Msg::BalanceReply(None) => Some(None),
        _ => None,
    }
}

/// A reply that says an account's pool shares, none being zero. `None`: the reply
/// says something else.
pub fn shares_reply(m: Msg) -> (r: Option<u64>)
    ensures
        r == match m {
            Msg::PublicBalanceReply(Some(n)) => Some(n),
            Msg::PublicBalanceReply(None) => Some(0u64),
            _ => None,
        },
{
    match m {
        Msg::PublicBalanceReply(Some(n)) => Some(n),
        Msg::PublicBalanceReply(None) => Some(0),
        _ => None,
    }
}

/// Whether a peer that answered a handshake is compatible: it accepted us, and
/// its version and genesis are ours. `None`: the reply says something else.
pub fn handshake_reply(m: Msg, my_genesis: &[u8; 32]) -> (r: Option<bool>)
    ensures
        r == match m {
            Msg::HandshakeAck { version, genesis, accepted } => Some(
                accepted && serve::compatible(version, genesis, *my_genesis),
            ),
            _ => None,
        },
{
    match m {
        Msg::HandshakeAck { version, genesis, accepted } => Some(
            accepted && version == PROTOCOL_VERSION && same_hash(&genesis, my_genesis),
        ),
        _ => None,
    }
}

/// Two nodes that shake hands agree: the one that asks finds the other compatible
/// just if the other recorded it as such.
pub proof fn law_handshake_agrees(mine: [u8; 32], theirs: [u8; 32], addr: String, reply: Msg)
    requires
        serve::answers(
            serve::Lookup::Genesis { version: PROTOCOL_VERSION, genesis: mine, addr },
            serve::Found::Genesis(theirs),
            reply,
        ),
    ensures
        (match reply {
            Msg::HandshakeAck { version, genesis, accepted } => accepted && serve::compatible(
                version,
                genesis,
                mine,
            ),
            _ => false,
        }) == serve::compatible(PROTOCOL_VERSION, mine, theirs),
{
}

// --- catching up --------------------------------------------------------------------

/// What a reply to a request for a block means for a sync.
pub enum BlockReply {
    Got(Vec<u8>),
    /// The peer cannot serve it: it reorganized, or lied about its height.
    Stop,
    /// The peer broke the protocol.
    Bad,
}

/// Sort out a reply to a request for a block.
pub fn sort_block_reply(m: Msg) -> (r: BlockReply)
    ensures
        r == match m {
            Msg::Block(Some(b)) => BlockReply::Got(b),
            Msg::Block(None) => BlockReply::Stop,
            _ => BlockReply::Bad,
        },
{
    match m {
        Msg::Block(Some(b)) => BlockReply::Got(b),
        Msg::Block(None) => BlockReply::Stop,
        _ => BlockReply::Bad,
    }
}

/// The block that a chain at `height` asks a peer at `peer_height` for next.
pub fn next_block(height: u64, peer_height: u64) -> (r: Option<u64>)
    ensures
        r == if height < peer_height {
            Some((height + 1) as u64)
        } else {
            None
        },
        forall|h: u64| r == Some(h) <==> height < h <= peer_height && h - 1 <= height,
{
    if height < peer_height {
        Some(height + 1)
    } else {
        None
    }
}

/// A sync of a shared node: which block to ask for next, up to which, and how many
/// new ones were adopted.
pub struct Sync {
    /// The height asked for next, `None` when there is nothing left to ask for.
    pub next: Option<u64>,
    pub last: u64,
    pub adopted: u64,
}

impl Sync {
    /// What always holds: no block above the last is asked for, and not more were
    /// adopted than were asked for.
    pub open spec fn wf(&self) -> bool {
        &&& self.next is Some ==> self.next->0 <= self.last && self.adopted < self.next->0
        &&& self.adopted <= self.last
    }

    /// Start above the best block that both chains share.
    pub fn start(common: u64, peer_height: u64) -> (r: Sync)
        ensures
            r.wf(),
            r.next == if common < peer_height {
                Some((common + 1) as u64)
            } else {
                None
            },
            r.last == peer_height,
            r.adopted == 0,
            r.next is None <==> peer_height <= common,
            r.next is Some ==> common < r.next->0 <= peer_height,
    {
        if common < peer_height {
            Sync { next: Some(common + 1), last: peer_height, adopted: 0 }
        } else {
            Sync { next: None, last: peer_height, adopted: 0 }
        }
    }

    /// Note what came of the block asked for: whether the chain took it, and
    /// whether it knew it before. A block that is not taken ends the sync: a peer
    /// that sends invalid data is not asked for more.
    pub fn took(&mut self, taken: bool, known: bool)
        requires
            old(self).wf(),
            old(self).next is Some,
        ensures
            final(self).wf(),
            final(self).last == old(self).last,
            final(self).adopted == old(self).adopted + (if taken && !known {
                1int
            } else {
                0
            }),
            final(self).next == if taken && old(self).next->0 < old(self).last {
                Some((old(self).next->0 + 1) as u64)
            } else {
                None
            },
            final(self).next is Some ==> taken && old(self).next->0 < final(self).next->0,
            taken && final(self).next is None ==> old(self).next->0 >= old(self).last,
    {
        if taken && !known {
            self.adopted = self.adopted + 1;
        }
        match self.next {
            Some(h) => {
                if taken && h < self.last {
                    self.next = Some(h + 1);
                } else {
                    self.next = None;
                }
            },
            None => {},
        }
    }

    /// The peer could not serve the block asked for.
    pub fn stop(&mut self)
        requires
            old(self).wf(),
        ensures
            final(self).wf(),
            final(self).next is None,
            final(self).last == old(self).last,
            final(self).adopted == old(self).adopted,
    {
        self.next = None;
    }
}

// --- fast sync ------------------------------------------------------------------------

/// Where a fast sync stands.
#[derive(Clone, Copy, Debug, PartialEq, Eq)]
pub enum Stage {
    /// The manifest was asked for.
    Manifest,
    /// Chunk `next` was asked for.
    Chunks { next: u32 },
    /// The peer's height was asked for.
    Tip,
    /// The block at `next` was asked for, the peer's height being `last`.
    Blocks { next: u64, last: u64 },
    /// Nothing more is asked for.
    Done,
}

/// What a fast sync does next.
pub enum FastStep {
    Send(Msg),
    /// Fast sync does not apply: the peer cannot serve it, or lost its snapshot
    /// or its chain meanwhile. The ordinary sync is left.
    GiveUp,
    /// The peer broke the protocol.
    Bad,
    /// Everything is here: the chain checks and adopts it.
    Adopt,
}

/// A fast sync: a fresh node downloads the peer's state records and all its
/// blocks, to be checked against each other.
pub struct FastSync {
    pub stage: Stage,
    pub anchor_height: u64,
    pub anchor_id: [u8; 32],
    pub chunk_count: u32,
    pub records: Vec<(Vec<u8>, Vec<u8>)>,
    pub blocks: Vec<Vec<u8>>,
}

impl FastSync {
    pub open spec fn wf(&self) -> bool {
        match self.stage {
            Stage::Chunks { next } => next < self.chunk_count && self.blocks@.len() == 0,
            Stage::Blocks { next, last } => 1 <= next <= last && self.blocks@.len() == next - 1,
            Stage::Done => true,
            _ => self.blocks@.len() == 0,
        }
    }

    /// Begin, with the first request. Only a node at height zero can.
    pub fn start(height: u64) -> (r: Option<(FastSync, Msg)>)
        ensures
            match r {
                Some((f, m)) => {
                    &&& height == 0
                    &&& f.wf()
                    &&& f.stage == Stage::Manifest
                    &&& f.records@.len() == 0
                    &&& f.blocks@.len() == 0
                    &&& m == Msg::GetStateManifest
                },
                None => height != 0,
            },
    {
        if height != 0 {
            return None;
        }
        let f = FastSync {
            stage: Stage::Manifest,
            anchor_height: 0,
            anchor_id: [0u8; 32],
            chunk_count: 0,
            records: Vec::new(),
            blocks: Vec::new(),
        };
        Some((f, Msg::GetStateManifest))
    }

    /// Take a reply up and say what to do next.
    pub fn step(&mut self, m: Msg) -> (r: FastStep)
        requires
            old(self).wf(),
        ensures
            final(self).wf(),
            follows(*old(self), m, *final(self), r),
    {
        match self.stage {
            Stage::Manifest => match m {
                Msg::StateManifest { anchor_height, anchor_id, record_count: _, chunk_count } => {
                    if chunk_count == 0 {
                        self.stage = Stage::Done;
                        return FastStep::GiveUp;
                    }
                    self.anchor_height = anchor_height;
                    self.anchor_id = anchor_id;
                    self.chunk_count = chunk_count;
                    self.stage = Stage::Chunks { next: 0 };
                    FastStep::Send(Msg::GetStateChunk(0))
                },
                _ => {
                    self.stage = Stage::Done;
                    FastStep::Bad
                },
            },
            Stage::Chunks { next } => match m {
                Msg::StateChunk(part) => {
                    if part.len() == 0 {
                        self.stage = Stage::Done;
                        return FastStep::GiveUp;
                    }
                    let mut p = part;
                    let ghost had = self.records@;
                    self.records.append(&mut p);
                    proof {
                        assert(snapshot::plain(self.records@) =~= snapshot::plain(had)
                            + snapshot::plain(part@));
                    }
                    if next + 1 < self.chunk_count {
                        self.stage = Stage::Chunks { next: next + 1 };
                        return FastStep::Send(Msg::GetStateChunk(next + 1));
                    }
                    self.stage = Stage::Tip;
                    FastStep::Send(Msg::GetTip)
                },
                _ => {
                    self.stage = Stage::Done;
                    FastStep::Bad
                },
            },
            Stage::Tip => match m {
                Msg::Tip(last) => {
                    if last < self.anchor_height {
                        self.stage = Stage::Done;
                        return FastStep::GiveUp;
                    }
                    if last == 0 {
                        self.stage = Stage::Done;
                        return FastStep::Adopt;
                    }
                    self.stage = Stage::Blocks { next: 1, last };
                    FastStep::Send(Msg::GetBlock(1))
                },
                _ => {
                    self.stage = Stage::Done;
                    FastStep::Bad
                },
            },
            Stage::Blocks { next, last } => match m {
                Msg::Block(Some(b)) => {
                    self.blocks.push(b);
                    if next < last {
                        self.stage = Stage::Blocks { next: next + 1, last };
                        return FastStep::Send(Msg::GetBlock(next + 1));
                    }
                    self.stage = Stage::Done;
                    FastStep::Adopt
                },
                Msg::Block(None) => {
                    self.stage = Stage::Done;
                    FastStep::GiveUp
                },
                _ => {
                    self.stage = Stage::Done;
                    FastStep::Bad
                },
            },
            Stage::Done => FastStep::Bad,
        }
    }
}

/// Whether a fast sync ends here, with what it has unchanged.
pub open spec fn ends(a: FastSync, b: FastSync) -> bool {
    &&& b.stage is Done
    &&& b.records@ == a.records@
    &&& b.blocks@ == a.blocks@
    &&& b.anchor_height == a.anchor_height
    &&& b.anchor_id == a.anchor_id
}

/// Whether `b` and the step `r` follow on the reply `m` at `a`.
pub open spec fn follows(a: FastSync, m: Msg, b: FastSync, r: FastStep) -> bool {
    match (a.stage, m) {
        (
            Stage::Manifest,
            Msg::StateManifest { anchor_height, anchor_id, record_count: _, chunk_count },
        ) => if chunk_count == 0 {
            r is GiveUp && ends(a, b)
        } else {
            &&& r == FastStep::Send(Msg::GetStateChunk(0))
            &&& b.stage == (Stage::Chunks { next: 0 })
            &&& b.anchor_height == anchor_height
            &&& b.anchor_id == anchor_id
            &&& b.chunk_count == chunk_count
            &&& b.records@ == a.records@
            &&& b.blocks@ == a.blocks@
        },
        (Stage::Chunks { next }, Msg::StateChunk(part)) => if part@.len() == 0 {
            r is GiveUp && ends(a, b)
        } else {
            &&& snapshot::plain(b.records@) == snapshot::plain(a.records@) + snapshot::plain(part@)
            &&& b.blocks@ == a.blocks@
            &&& b.anchor_height == a.anchor_height
            &&& b.anchor_id == a.anchor_id
            &&& b.chunk_count == a.chunk_count
            &&& if next + 1 < a.chunk_count {
                b.stage == (Stage::Chunks { next: (next + 1) as u32 }) && r == FastStep::Send(
                    Msg::GetStateChunk((next + 1) as u32),
                )
            } else {
                b.stage == Stage::Tip && r == FastStep::Send(Msg::GetTip)
            }
        },
        (Stage::Tip, Msg::Tip(last)) => if last < a.anchor_height {
            r is GiveUp && ends(a, b)
        } else if last == 0 {
            r is Adopt && ends(a, b)
        } else {
            &&& r == FastStep::Send(Msg::GetBlock(1))
            &&& b.stage == (Stage::Blocks { next: 1, last })
            &&& b.records@ == a.records@
            &&& b.blocks@ == a.blocks@
            &&& b.anchor_height == a.anchor_height
            &&& b.anchor_id == a.anchor_id
        },
        (Stage::Blocks { next, last }, Msg::Block(Some(x))) => {
            &&& b.blocks@ == a.blocks@.push(x)
            &&& b.records@ == a.records@
            &&& b.anchor_height == a.anchor_height
            &&& b.anchor_id == a.anchor_id
            &&& if next < last {
                b.stage == (Stage::Blocks { next: (next + 1) as u64, last }) && r
                    == FastStep::Send(Msg::GetBlock((next + 1) as u64))
            } else {
                b.stage is Done && r is Adopt
            }
        },
        (Stage::Blocks { .. }, Msg::Block(None)) => r is GiveUp && ends(a, b),
        _ => r is Bad && ends(a, b),
    }
}

/// A run of a fast sync over the chunks that a peer captured: the states after
/// each chunk.
pub open spec fn fetches(
    states: Seq<FastSync>,
    replies: Seq<Msg>,
    steps: Seq<FastStep>,
    chunks: Seq<Seq<(Seq<u8>, Seq<u8>)>>,
) -> bool {
    &&& states.len() == chunks.len() + 1
    &&& replies.len() == chunks.len()
    &&& steps.len() == chunks.len()
    &&& forall|i: int|
        0 <= i < chunks.len() ==> {
            &&& (#[trigger] replies[i]) matches Msg::StateChunk(p) && snapshot::plain(p@)
                == chunks[i]
        }
    &&& forall|i: int, j: int|
        #![trigger states[i], states[j]]
        0 <= i && j == i + 1 && j < states.len() ==> follows(
            states[i],
            replies[i],
            states[j],
            steps[i],
        )
}

/// A node that asks a peer for every chunk of the snapshot it captured ends up
/// with the records that the peer has, in order.
pub proof fn law_fast_sync_gathers_all(
    states: Seq<FastSync>,
    replies: Seq<Msg>,
    steps: Seq<FastStep>,
    chunks: Seq<Seq<(Seq<u8>, Seq<u8>)>>,
    records: Seq<(Seq<u8>, Seq<u8>)>,
)
    requires
        serve::split(chunks, records),
        records.len() > 0,
        chunks.len() <= u32::MAX,
        fetches(states, replies, steps, chunks),
        states[0].stage == (Stage::Chunks { next: 0 }),
        states[0].chunk_count == chunks.len(),
        states[0].records@.len() == 0,
    ensures
        snapshot::plain(states.last().records@) == records,
        states.last().stage == Stage::Tip,
{
    lemma_gathers(states, replies, steps, chunks, chunks.len());
    assert(chunks.take(chunks.len() as int) =~= chunks);
}

proof fn lemma_gathers(
    states: Seq<FastSync>,
    replies: Seq<Msg>,
    steps: Seq<FastStep>,
    chunks: Seq<Seq<(Seq<u8>, Seq<u8>)>>,
    n: nat,
)
    requires
        fetches(states, replies, steps, chunks),
        forall|i: int| 0 <= i < chunks.len() ==> (#[trigger] chunks[i]).len() > 0,
        0 < chunks.len() <= u32::MAX,
        n <= chunks.len(),
        states[0].stage == (Stage::Chunks { next: 0 }),
        states[0].chunk_count == chunks.len(),
        states[0].records@.len() == 0,
    ensures
        snapshot::plain(states[n as int].records@) == serve::flat(chunks.take(n as int)),
        n < chunks.len() ==> states[n as int].chunk_count == chunks.len()
            && states[n as int].stage == (Stage::Chunks { next: n as u32 }),
        n == chunks.len() ==> states[n as int].stage == Stage::Tip,
    decreases n,
{
    if n == 0 {
        assert(snapshot::plain(states[0].records@) =~= Seq::empty());
        assert(chunks.take(0) =~= Seq::empty());
    } else {
        let k = n - 1;
        lemma_gathers(states, replies, steps, chunks, k as nat);
        assert(follows(states[k], replies[k], states[k + 1], steps[k]));
        assert(chunks[k].len() > 0);
        assert(replies[k] is StateChunk);
        let part = replies[k]->StateChunk_0;
        assert(snapshot::plain(part@) == chunks[k]);
        assert(snapshot::plain(part@).len() == part@.len());
        let now = chunks.take(n as int);
        assert(now.drop_last() =~= chunks.take(k));
        assert(now.last() == chunks[k]);
    }
}

} // verus!
