//! The messages peers exchange, and their wire form.

use vstd::prelude::*;
use vstd::utf8::*;

use crate::bytes;
use crate::bytes::{
    array_at,
    copy_range,
    push_bytes,
    push_u32,
    push_u64,
    u32_at,
    u64_at,
};
use crate::text;
use crate::text::utf8_string;
use crate::transaction;

verus! {

/// Largest message a peer may send.
pub const MAX_MSG_BYTES: usize = 4_194_304;

/// Most peer addresses in one message, and most a node keeps.
pub const MAX_PEERS: usize = 64;

/// Longest peer address.
pub const MAX_PEER_ADDR_LEN: usize = 128;

/// Most ids in one block locator.
pub const MAX_LOCATOR_IDS: usize = 64;

/// Most unbonding entries in one reply.
pub const MAX_UNBONDING_ENTRIES: usize = 1024;

/// Most ring candidates in one reply.
pub const MAX_RING_CANDIDATES: usize = 64;

/// A message between peers.
#[derive(Debug, PartialEq, Eq)]
pub enum Msg {
    /// Ask for the peer's current height.
    GetTip,
    /// Reply: current height.
    Tip(u64),
    /// Ask for the encoded block at a height.
    GetBlock(u64),
    /// Reply: encoded block bytes, or `None` if the peer does not have it.
    Block(Option<Vec<u8>>),
    /// Push a newly mined block to a peer (gossip).
    NewBlock(Vec<u8>),
    /// Whether a pushed block or transaction was accepted.
    Ack(bool),
    /// Submit an encoded transaction to the node's mempool.
    SubmitTx(Vec<u8>),
    /// Ask for an account's encrypted balance of a token.
    GetBalance { id: [u8; 32], token: u32 },
    /// Reply: the encrypted balance, or `None` if not registered.
    BalanceReply(Option<Vec<u8>>),
    /// Ask for an account's current spend nonce.
    GetNonce([u8; 32]),
    /// Reply: the nonce, or `None` if not registered.
    NonceReply(Option<u64>),
    /// Ask for an account's pending (received, not rolled over) balance.
    GetPending { id: [u8; 32], token: u32 },
    /// "I am a node too; here is the address I listen on."
    Hello(String),
    /// Ask for the peer's known node addresses.
    GetPeers,
    /// Reply: known node addresses.
    Peers(Vec<String>),
    /// Fork sync: a block locator (active-chain ids, newest first).
    FindCommon(Vec<[u8; 32]>),
    /// Reply to `FindCommon`: the height of the best shared active block.
    CommonHeight(u64),
    /// Ask for an account's public balance.
    GetPublicBalance { id: [u8; 32], token: u32 },
    /// Reply: the public balance, or `None` if the account is not registered.
    PublicBalanceReply(Option<u64>),
    /// Ask for up to `max` ring candidates for `token`.
    GetRingCandidates { token: u32, max: u32 },
    /// Reply: account ids with their encrypted balances.
    RingCandidates(Vec<([u8; 32], [u8; 64])>),
    /// "I speak protocol `version`, my chain's genesis is `genesis`, reach me at
    /// `addr`."
    Handshake { version: u32, genesis: [u8; 32], addr: String },
    /// Reply to `Handshake`: the responder's version and genesis, and whether it
    /// accepted the peer.
    HandshakeAck { version: u32, genesis: [u8; 32], accepted: bool },
    /// Read a deployed contract's storage slot.
    GetContractStorage { contract: [u8; 32], key: u64 },
    /// Reply: the slot value (0 if the contract or slot is unset).
    ContractStorageReply(u64),
    /// Ask whether a contract is deployed at `id`. Answered with `Ack`.
    HasContract([u8; 32]),
    /// Finality gossip: an encoded vote.
    FinalityVote(Vec<u8>),
    /// Finality gossip: an encoded certificate.
    FinalityCert(Vec<u8>),
    /// Ask for the node's finality watermark.
    GetFinalized,
    /// Reply: the finalized height and block id, or `None` if there is none yet.
    FinalizedReply(Option<(u64, [u8; 32])>),
    /// Ask for an account's staking state.
    GetStake([u8; 32]),
    /// Reply: bonded stake, and unbonding entries as amount and release height.
    StakeReply(u64, Vec<(u64, u64)>),
    /// Transaction gossip: an encoded transaction.
    NewTx(Vec<u8>),
    /// Announce a block. `Ack(true)` asks for it to be sent.
    BlockAnnounce { id: [u8; 32], height: u64 },
    /// Ask for the peer's state-sync manifest.
    GetStateManifest,
    /// Reply: the block the records describe, how many records there are, and in
    /// how many chunks. No chunks means that fast sync cannot be served.
    StateManifest { anchor_height: u64, anchor_id: [u8; 32], record_count: u64, chunk_count: u32 },
    /// Ask for one chunk of the manifest captured on this connection.
    GetStateChunk(u32),
    /// Reply: a chunk's records, as key and value. Empty if out of range or if no
    /// manifest was captured on this connection.
    StateChunk(Vec<(Vec<u8>, Vec<u8>)>),
    /// Ask for the pool of `token`.
    GetPool(u32),
    /// Reply: LAT reserve, token reserve and share supply, or `None`.
    PoolReply(Option<(u64, u64, u64)>),
    /// Ask for an account's shares in the pool of `token`.
    GetLpShares { token: u32, id: [u8; 32] },
    /// Ask for the open lock with this id.
    GetHtlc([u8; 32]),
    /// Reply: token, from, to, amount, hashlock and expiry, or `None`.
    HtlcReply(Option<(u32, [u8; 32], [u8; 32], u64, [u8; 32], u64)>),
    /// Ask for every open lock.
    GetHtlcs,
    /// Reply: id, token, from, to, amount, hashlock and expiry of each lock.
    HtlcsReply(Vec<([u8; 32], u32, [u8; 32], [u8; 32], u64, [u8; 32], u64)>),
    /// Ask for `token`'s bonding curve.
    GetCurve(u32),
    /// Reply: the curve's two virtual reserves, its real LAT and whether it has
    /// graduated, or `None`.
    CurveReply(Option<(u64, u64, u64, bool)>),
}

/// A truth value on the wire.
pub open spec fn flag(b: bool) -> Seq<u8> {
    transaction::flag(b)
}

fn push_flag(v: &mut Vec<u8>, b: bool)
    ensures
        final(v)@ == old(v)@ + flag(b),
{
    v.push(if b { 1 } else { 0 });
    assert(v@ =~= old(v)@ + flag(b));
}

/// Byte strings one after the other.
pub open spec fn joined(parts: Seq<Seq<u8>>) -> Seq<u8>
    decreases parts.len(),
{
    if parts.len() == 0 {
        Seq::empty()
    } else {
        joined(parts.drop_last()) + parts.last()
    }
}

pub proof fn lemma_joined_push(parts: Seq<Seq<u8>>, p: Seq<u8>)
    ensures
        joined(parts.push(p)) == joined(parts) + p,
{
    assert(parts.push(p).drop_last() =~= parts);
}

proof fn lemma_joined_take(parts: Seq<Seq<u8>>, i: int)
    requires
        0 <= i < parts.len(),
    ensures
        joined(parts.take(i + 1)) == joined(parts.take(i)) + parts[i],
{
    assert(parts.take(i + 1) =~= parts.take(i).push(parts[i]));
    lemma_joined_push(parts.take(i), parts[i]);
}

/// The smaller of two lengths.
pub open spec fn at_most(n: nat, cap: int) -> int {
    if n < cap {
        n as int
    } else {
        cap
    }
}

/// At most `cap` first bytes of `b`.
pub open spec fn clipped(b: Seq<u8>, cap: int) -> Seq<u8> {
    b.subrange(0, at_most(b.len(), cap))
}

/// A peer address on the wire: a length byte and at most 128 bytes.
pub open spec fn address_bytes(s: Seq<char>) -> Seq<u8> {
    seq![at_most(encode_utf8(s).len(), 128) as u8] + clipped(encode_utf8(s), 128)
}

pub open spec fn peer_parts(list: Seq<String>) -> Seq<Seq<u8>> {
    Seq::new(at_most(list.len(), 64) as nat, |i: int| address_bytes(list[i]@))
}

pub open spec fn id_parts(ids: Seq<[u8; 32]>) -> Seq<Seq<u8>> {
    Seq::new(at_most(ids.len(), 64) as nat, |i: int| ids[i]@)
}

pub open spec fn candidate_parts(list: Seq<([u8; 32], [u8; 64])>) -> Seq<Seq<u8>> {
    Seq::new(at_most(list.len(), 64) as nat, |i: int| list[i].0@ + list[i].1@)
}

pub open spec fn unbonding_parts(list: Seq<(u64, u64)>) -> Seq<Seq<u8>> {
    Seq::new(list.len(), |i: int| bytes::le8(list[i].0) + bytes::le8(list[i].1))
}

/// A record on the wire: key and value, each behind its length.
pub open spec fn record_bytes(key: Seq<u8>, value: Seq<u8>) -> Seq<u8> {
    bytes::le4(key.len() as u32) + key + bytes::le4(value.len() as u32) + value
}

pub open spec fn record_parts(list: Seq<(Vec<u8>, Vec<u8>)>) -> Seq<Seq<u8>> {
    Seq::new(list.len(), |i: int| record_bytes(list[i].0@, list[i].1@))
}

pub open spec fn lock_bytes(
    l: ([u8; 32], u32, [u8; 32], [u8; 32], u64, [u8; 32], u64),
) -> Seq<u8> {
    l.0@ + bytes::le4(l.1) + l.2@ + l.3@ + bytes::le8(l.4) + l.5@ + bytes::le8(l.6)
}

pub open spec fn lock_parts(
    list: Seq<([u8; 32], u32, [u8; 32], [u8; 32], u64, [u8; 32], u64)>,
) -> Seq<Seq<u8>> {
    Seq::new(list.len(), |i: int| lock_bytes(list[i]))
}

impl Msg {
    /// The leading byte that tells the variants apart.
    pub open spec fn tag(&self) -> u8 {
        match self {
            Msg::GetTip => 0,
            Msg::Tip(..) => 1,
            Msg::GetBlock(..) => 2,
            Msg::Block(..) => 3,
            Msg::NewBlock(..) => 4,
            Msg::Ack(..) => 5,
            Msg::SubmitTx(..) => 6,
            Msg::GetBalance { .. } => 7,
            Msg::BalanceReply(..) => 8,
            Msg::GetNonce(..) => 9,
            Msg::NonceReply(..) => 10,
            Msg::GetPending { .. } => 11,
            Msg::Hello(..) => 12,
            Msg::GetPeers => 13,
            Msg::Peers(..) => 14,
            Msg::FindCommon(..) => 15,
            Msg::CommonHeight(..) => 16,
            Msg::GetPublicBalance { .. } => 17,
            Msg::PublicBalanceReply(..) => 18,
            Msg::GetRingCandidates { .. } => 19,
            Msg::RingCandidates(..) => 20,
            Msg::Handshake { .. } => 21,
            Msg::HandshakeAck { .. } => 22,
            Msg::GetContractStorage { .. } => 23,
            Msg::ContractStorageReply(..) => 24,
            Msg::HasContract(..) => 25,
            Msg::FinalityVote(..) => 26,
            Msg::FinalityCert(..) => 27,
            Msg::GetFinalized => 28,
            Msg::FinalizedReply(..) => 29,
            Msg::GetStake(..) => 30,
            Msg::StakeReply(..) => 31,
            Msg::NewTx(..) => 32,
            Msg::BlockAnnounce { .. } => 33,
            Msg::GetStateManifest => 34,
            Msg::StateManifest { .. } => 35,
            Msg::GetStateChunk(..) => 36,
            Msg::StateChunk(..) => 37,
            Msg::GetPool(..) => 38,
            Msg::PoolReply(..) => 39,
            Msg::GetLpShares { .. } => 40,
            Msg::GetHtlc(..) => 41,
            Msg::HtlcReply(..) => 42,
            Msg::GetHtlcs => 43,
            Msg::HtlcsReply(..) => 44,
            Msg::GetCurve(..) => 45,
            Msg::CurveReply(..) => 46,
        }
    }

    /// The encoding.
    pub open spec fn wire(&self) -> Seq<u8> {
        match self {
            Msg::GetTip => seq![0u8],
            Msg::Tip(h) => seq![1u8] + bytes::le8(*h),
            Msg::GetBlock(h) => seq![2u8] + bytes::le8(*h),
            Msg::GetBalance { id, token } => seq![7u8] + id@ + bytes::le4(*token),
            Msg::GetNonce(id) => seq![9u8] + id@,
            Msg::GetPending { id, token } => seq![11u8] + id@ + bytes::le4(*token),
            Msg::GetPeers => seq![13u8],
            Msg::CommonHeight(h) => seq![16u8] + bytes::le8(*h),
            Msg::GetPublicBalance { id, token } => seq![17u8] + id@ + bytes::le4(*token),
            Msg::GetRingCandidates { token, max } => seq![19u8] + bytes::le4(*token)
                + bytes::le4(*max),
            Msg::GetContractStorage { contract, key } => seq![23u8] + contract@ + bytes::le8(*key),
            Msg::ContractStorageReply(val) => seq![24u8] + bytes::le8(*val),
            Msg::HasContract(id) => seq![25u8] + id@,
            Msg::GetFinalized => seq![28u8],
            Msg::GetStake(id) => seq![30u8] + id@,
            Msg::BlockAnnounce { id, height } => seq![33u8] + id@ + bytes::le8(*height),
            Msg::GetStateManifest => seq![34u8],
            Msg::StateManifest { anchor_height, anchor_id, record_count, chunk_count } => seq![35u8]
                + bytes::le8(*anchor_height) + anchor_id@ + bytes::le8(*record_count)
                + bytes::le4(*chunk_count),
            Msg::GetStateChunk(n) => seq![36u8] + bytes::le4(*n),
            Msg::GetPool(token) => seq![38u8] + bytes::le4(*token),
            Msg::GetLpShares { token, id } => seq![40u8] + bytes::le4(*token) + id@,
            Msg::GetHtlc(id) => seq![41u8] + id@,
            Msg::GetHtlcs => seq![43u8],
            Msg::GetCurve(token) => seq![45u8] + bytes::le4(*token),
            Msg::NonceReply(Some(n)) => seq![10u8, 1u8] + bytes::le8(*n),
            Msg::NonceReply(None) => seq![10u8, 0u8],
            Msg::PublicBalanceReply(Some(n)) => seq![18u8, 1u8] + bytes::le8(*n),
            Msg::PublicBalanceReply(None) => seq![18u8, 0u8],
            Msg::FinalizedReply(Some((h, id))) => seq![29u8, 1u8] + bytes::le8(*h) + id@,
            Msg::FinalizedReply(None) => seq![29u8, 0u8],
            Msg::PoolReply(Some((lat, tok, lp))) => seq![39u8, 1u8] + bytes::le8(*lat)
                + bytes::le8(*tok) + bytes::le8(*lp),
            Msg::PoolReply(None) => seq![39u8, 0u8],
            Msg::HtlcReply(Some((token, from, to, amount, hashlock, expiry))) => seq![42u8, 1u8]
                + bytes::le4(*token) + from@ + to@ + bytes::le8(*amount) + hashlock@
                + bytes::le8(*expiry),
            Msg::HtlcReply(None) => seq![42u8, 0u8],
            Msg::CurveReply(Some((vlat, vtok, real_lat, graduated))) => seq![46u8, 1u8]
                + bytes::le8(*vlat) + bytes::le8(*vtok) + bytes::le8(*real_lat) + flag(*graduated),
            Msg::CurveReply(None) => seq![46u8, 0u8],
            Msg::NewBlock(b) => seq![4u8] + b@,
            Msg::SubmitTx(b) => seq![6u8] + b@,
            Msg::FinalityVote(b) => seq![26u8] + b@,
            Msg::FinalityCert(b) => seq![27u8] + b@,
            Msg::NewTx(b) => seq![32u8] + b@,
            Msg::Block(Some(b)) => seq![3u8, 1u8] + b@,
            Msg::Block(None) => seq![3u8, 0u8],
            Msg::BalanceReply(Some(b)) => seq![8u8, 1u8] + b@,
            Msg::BalanceReply(None) => seq![8u8, 0u8],
            Msg::Ack(ok) => seq![5u8] + flag(*ok),
            Msg::Hello(addr) => seq![12u8] + encode_utf8(addr@),
            Msg::Peers(list) => seq![14u8, at_most(list@.len(), 64) as u8] + joined(
                peer_parts(list@),
            ),
            Msg::FindCommon(ids) => seq![15u8, at_most(ids@.len(), 64) as u8] + joined(
                id_parts(ids@),
            ),
            Msg::RingCandidates(list) => seq![20u8] + bytes::le4(
                at_most(list@.len(), 64) as u32,
            ) + joined(candidate_parts(list@)),
            Msg::Handshake { version, genesis, addr } => seq![21u8] + bytes::le4(*version)
                + genesis@ + address_bytes(addr@),
            Msg::HandshakeAck { version, genesis, accepted } => seq![22u8] + bytes::le4(*version)
                + genesis@ + flag(*accepted),
            Msg::StakeReply(staked, unbonding) => seq![31u8] + bytes::le8(*staked) + bytes::le4(
                unbonding@.len() as u32,
            ) + joined(unbonding_parts(unbonding@)),
            Msg::StateChunk(records) => seq![37u8] + bytes::le4(records@.len() as u32) + joined(
                record_parts(records@),
            ),
            Msg::HtlcsReply(locks) => seq![44u8] + bytes::le4(locks@.len() as u32) + joined(
                lock_parts(locks@),
            ),
        }
    }

    /// Whether the message stays within the limits on its parts, so that its
    /// encoding leaves nothing out.
    pub open spec fn within(&self) -> bool {
        match self {
            Msg::Hello(addr) => encode_utf8(addr@).len() <= 128,
            Msg::Peers(list) => list@.len() <= 64 && forall|i: int|
                0 <= i < list@.len() ==> encode_utf8((#[trigger] list@[i])@).len() <= 128,
            Msg::FindCommon(ids) => ids@.len() <= 64,
            Msg::RingCandidates(list) => list@.len() <= 64,
            Msg::Handshake { addr, .. } => encode_utf8(addr@).len() <= 128,
            Msg::StakeReply(_, unbonding) => unbonding@.len() <= 1024,
            Msg::StateChunk(records) => records@.len() <= u32::MAX && forall|i: int|
                0 <= i < records@.len() ==> (#[trigger] records@[i]).0@.len() <= u32::MAX
                    && records@[i].1@.len() <= u32::MAX,
            Msg::HtlcsReply(locks) => locks@.len() <= u32::MAX,
            _ => true,
        }
    }

    /// Whether nothing may follow the message. Otherwise further bytes are
    /// ignored.
    pub open spec fn is_whole(&self) -> bool {
        match self {
            Msg::BlockAnnounce { .. } => true,
            Msg::StateManifest { .. } => true,
            Msg::NewBlock(_) => true,
            Msg::SubmitTx(_) => true,
            Msg::FinalityVote(_) => true,
            Msg::FinalityCert(_) => true,
            Msg::NewTx(_) => true,
            Msg::Block(Some(_)) => true,
            Msg::BalanceReply(Some(_)) => true,
            Msg::Hello(_) => true,
            Msg::StakeReply(..) => true,
            Msg::StateChunk(_) => true,
            Msg::HtlcsReply(_) => true,
            _ => false,
        }
    }

    /// Whether the two say the same.
    pub open spec fn same(&self, other: &Msg) -> bool {
        match (self, other) {
            (Msg::GetTip, Msg::GetTip) => true,
            (Msg::Tip(h), Msg::Tip(o_h)) => h == o_h,
            (Msg::GetBlock(h), Msg::GetBlock(o_h)) => h == o_h,
            (Msg::GetBalance { id, token }, Msg::GetBalance { id: o_id, token: o_token }) =>
                id == o_id && token == o_token,
            (Msg::GetNonce(id), Msg::GetNonce(o_id)) => id == o_id,
            (Msg::GetPending { id, token }, Msg::GetPending { id: o_id, token: o_token }) =>
                id == o_id && token == o_token,
            (Msg::GetPeers, Msg::GetPeers) => true,
            (Msg::CommonHeight(h), Msg::CommonHeight(o_h)) => h == o_h,
            (Msg::GetPublicBalance { id, token },
                Msg::GetPublicBalance { id: o_id, token: o_token }) => id == o_id
                && token == o_token,
            (Msg::GetRingCandidates { token, max },
                Msg::GetRingCandidates { token: o_token, max: o_max }) => token == o_token
                && max == o_max,
            (Msg::GetContractStorage { contract, key },
                Msg::GetContractStorage { contract: o_contract, key: o_key }) =>
                contract == o_contract && key == o_key,
            (Msg::ContractStorageReply(val), Msg::ContractStorageReply(o_val)) => val == o_val,
            (Msg::HasContract(id), Msg::HasContract(o_id)) => id == o_id,
            (Msg::GetFinalized, Msg::GetFinalized) => true,
            (Msg::GetStake(id), Msg::GetStake(o_id)) => id == o_id,
            (Msg::BlockAnnounce { id, height },
                Msg::BlockAnnounce { id: o_id, height: o_height }) => id == o_id
                && height == o_height,
            (Msg::GetStateManifest, Msg::GetStateManifest) => true,
            (Msg::StateManifest { anchor_height, anchor_id, record_count, chunk_count },
                Msg::StateManifest { anchor_height: o_anchor_height, anchor_id: o_anchor_id,
                record_count: o_record_count, chunk_count: o_chunk_count }) =>
                anchor_height == o_anchor_height && anchor_id == o_anchor_id
                && record_count == o_record_count && chunk_count == o_chunk_count,
            (Msg::GetStateChunk(n), Msg::GetStateChunk(o_n)) => n == o_n,
            (Msg::GetPool(token), Msg::GetPool(o_token)) => token == o_token,
            (Msg::GetLpShares { token, id }, Msg::GetLpShares { token: o_token, id: o_id }) =>
                token == o_token && id == o_id,
            (Msg::GetHtlc(id), Msg::GetHtlc(o_id)) => id == o_id,
            (Msg::GetHtlcs, Msg::GetHtlcs) => true,
            (Msg::GetCurve(token), Msg::GetCurve(o_token)) => token == o_token,
            (Msg::NonceReply(a), Msg::NonceReply(b)) => a == b,
            (Msg::PublicBalanceReply(a), Msg::PublicBalanceReply(b)) => a == b,
            (Msg::FinalizedReply(a), Msg::FinalizedReply(b)) => a == b,
            (Msg::PoolReply(a), Msg::PoolReply(b)) => a == b,
            (Msg::HtlcReply(a), Msg::HtlcReply(b)) => a == b,
            (Msg::CurveReply(a), Msg::CurveReply(b)) => a == b,
            (Msg::NewBlock(a), Msg::NewBlock(b)) => a@ == b@,
            (Msg::SubmitTx(a), Msg::SubmitTx(b)) => a@ == b@,
            (Msg::FinalityVote(a), Msg::FinalityVote(b)) => a@ == b@,
            (Msg::FinalityCert(a), Msg::FinalityCert(b)) => a@ == b@,
            (Msg::NewTx(a), Msg::NewTx(b)) => a@ == b@,
            (Msg::Block(Some(a)), Msg::Block(Some(b))) => a@ == b@,
            (Msg::Block(None), Msg::Block(None)) => true,
            (Msg::BalanceReply(Some(a)), Msg::BalanceReply(Some(b))) => a@ == b@,
            (Msg::BalanceReply(None), Msg::BalanceReply(None)) => true,
            (Msg::Ack(a), Msg::Ack(b)) => a == b,
            (Msg::Hello(a), Msg::Hello(b)) => a@ == b@,
            (Msg::Peers(a), Msg::Peers(b)) => a@.len() == b@.len() && forall|i: int|
                0 <= i < a@.len() ==> (#[trigger] a@[i])@ == b@[i]@,
            (Msg::FindCommon(a), Msg::FindCommon(b)) => a@ == b@,
            (Msg::RingCandidates(a), Msg::RingCandidates(b)) => a@ == b@,
            (
                Msg::Handshake { version, genesis, addr },
                Msg::Handshake { version: o_version, genesis: o_genesis, addr: o_addr },
            ) => version == o_version && genesis == o_genesis && addr@ == o_addr@,
            (
                Msg::HandshakeAck { version, genesis, accepted },
                Msg::HandshakeAck { version: o_version, genesis: o_genesis, accepted: o_accepted },
            ) => version == o_version && genesis == o_genesis && accepted == o_accepted,
            (Msg::StakeReply(a, u), Msg::StakeReply(b, v)) => a == b && u@ == v@,
            (Msg::StateChunk(a), Msg::StateChunk(b)) => a@.len() == b@.len() && forall|i: int|
                0 <= i < a@.len() ==> (#[trigger] a@[i]).0@ == b@[i].0@ && a@[i].1@ == b@[i].1@,
            (Msg::HtlcsReply(a), Msg::HtlcsReply(b)) => a@ == b@,
            _ => false,
        }
    }
}

/// Whether the bytes `b` say the message `m`. A truth value other than 0 reads as
/// true in the two acknowledgements.
pub open spec fn says(b: Seq<u8>, m: Msg) -> bool {
    &&& m.within()
    &&& match m {
        Msg::Ack(ok) => b.len() >= 2 && b[0] == 5 && ok == (b[1] != 0),
        Msg::HandshakeAck { version, genesis, accepted } => b.len() >= 38 && b.subrange(0, 37)
            == seq![22u8] + bytes::le4(version) + genesis@ && accepted == (b[37] != 0),
        _ => if m.is_whole() {
            b == m.wire()
        } else {
            bytes::has_prefix(b, m.wire())
        },
    }
}

/// Whether `n` peer addresses stand at `at`.
pub open spec fn peers_readable(b: Seq<u8>, at: int, n: int) -> bool
    decreases n,
{
    n <= 0 || {
        &&& at < b.len()
        &&& b[at] <= 128
        &&& at + 1 + b[at] <= b.len()
        &&& valid_utf8(b.subrange(at + 1, at + 1 + b[at]))
        &&& peers_readable(b, at + 1 + b[at], n - 1)
    }
}

/// Whether `n` records stand at `at`, and nothing behind them.
pub open spec fn records_readable(b: Seq<u8>, at: int, n: int) -> bool
    decreases n,
{
    if n <= 0 {
        at == b.len()
    } else {
        at + 4 <= b.len() && {
            let k = bytes::of_le4(b.subrange(at, at + 4)) as int;
            at + 8 + k <= b.len() && {
                let v = bytes::of_le4(b.subrange(at + 4 + k, at + 8 + k)) as int;
                at + 8 + k + v <= b.len() && records_readable(b, at + 8 + k + v, n - 1)
            }
        }
    }
}

/// Whether the bytes `b` say some message.
pub open spec fn readable(b: Seq<u8>) -> bool {
    if b.len() == 0 {
        false
    } else if b[0] == 5 {
        b.len() >= 2
    } else if b[0] == 12 {
        b.len() <= 129 && valid_utf8(b.subrange(1, b.len() as int))
    } else if b[0] == 14 {
        b.len() >= 2 && b[1] <= 64 && peers_readable(b, 2, b[1] as int)
    } else if b[0] == 15 {
        b.len() >= 2 && b[1] <= 64 && b.len() >= 2 + 32 * b[1]
    } else if b[0] == 20 {
        b.len() >= 5 && ({
            let n = bytes::of_le4(b.subrange(1, 5)) as int;
            n <= 64 && b.len() >= 5 + 96 * n
        })
    } else if b[0] == 21 {
        b.len() >= 38 && b[37] <= 128 && b.len() >= 38 + b[37] && valid_utf8(
            b.subrange(38, 38 + b[37]),
        )
    } else if b[0] == 22 {
        b.len() >= 38
    } else if b[0] == 31 {
        b.len() >= 13 && ({
            let n = bytes::of_le4(b.subrange(9, 13)) as int;
            n <= 1024 && b.len() == 13 + 16 * n
        })
    } else if b[0] == 37 {
        b.len() >= 5 && records_readable(b, 5, bytes::of_le4(b.subrange(1, 5)) as int)
    } else if b[0] == 44 {
        b.len() >= 5 && b.len() == 5 + 148 * bytes::of_le4(b.subrange(1, 5))
    } else if b[0] == 3 {
        b.len() >= 2 && b[1] <= 1
    } else if b[0] == 8 {
        b.len() >= 2 && b[1] <= 1
    } else if b[0] == 4 {
        true
    } else if b[0] == 6 {
        true
    } else if b[0] == 26 {
        true
    } else if b[0] == 27 {
        true
    } else if b[0] == 32 {
        true
    } else if b[0] == 10 {
        b.len() >= 2 && (b[1] == 0 || (b[1] == 1 && b.len() >= 10))
    } else if b[0] == 18 {
        b.len() >= 2 && (b[1] == 0 || (b[1] == 1 && b.len() >= 10))
    } else if b[0] == 29 {
        b.len() >= 2 && (b[1] == 0 || (b[1] == 1 && b.len() >= 42))
    } else if b[0] == 39 {
        b.len() >= 2 && (b[1] == 0 || (b[1] == 1 && b.len() >= 26))
    } else if b[0] == 42 {
        b.len() >= 2 && (b[1] == 0 || (b[1] == 1 && b.len() >= 118))
    } else if b[0] == 46 {
        b.len() >= 2 && (b[1] == 0 || (b[1] == 1 && b.len() >= 27 && b[26] <= 1))
    } else if b[0] == 0 {
        b.len() >= 1
    } else if b[0] == 1 {
        b.len() >= 9
    } else if b[0] == 2 {
        b.len() >= 9
    } else if b[0] == 7 {
        b.len() >= 37
    } else if b[0] == 9 {
        b.len() >= 33
    } else if b[0] == 11 {
        b.len() >= 37
    } else if b[0] == 13 {
        b.len() >= 1
    } else if b[0] == 16 {
        b.len() >= 9
    } else if b[0] == 17 {
        b.len() >= 37
    } else if b[0] == 19 {
        b.len() >= 9
    } else if b[0] == 23 {
        b.len() >= 41
    } else if b[0] == 24 {
        b.len() >= 9
    } else if b[0] == 25 {
        b.len() >= 33
    } else if b[0] == 28 {
        b.len() >= 1
    } else if b[0] == 30 {
        b.len() >= 33
    } else if b[0] == 33 {
        b.len() == 41
    } else if b[0] == 34 {
        b.len() >= 1
    } else if b[0] == 35 {
        b.len() == 53
    } else if b[0] == 36 {
        b.len() >= 5
    } else if b[0] == 38 {
        b.len() >= 5
    } else if b[0] == 40 {
        b.len() >= 37
    } else if b[0] == 41 {
        b.len() >= 33
    } else if b[0] == 43 {
        b.len() >= 1
    } else if b[0] == 45 {
        b.len() >= 5
    } else {
        false
    }
}

/// Append a peer address: a length byte and at most 128 bytes.
fn push_address(v: &mut Vec<u8>, s: &str)
    ensures
        final(v)@ == old(v)@ + address_bytes(s@),
{
    let b = s.as_bytes();
    let n: usize = if b.len() < MAX_PEER_ADDR_LEN {
        b.len()
    } else {
        MAX_PEER_ADDR_LEN
    };
    v.push(n as u8);
    push_bytes(v, vstd::slice::slice_subrange(b, 0, n));
    assert(v@ =~= old(v)@ + address_bytes(s@));
}

fn push_peers(v: &mut Vec<u8>, list: &Vec<String>)
    ensures
        final(v)@ == old(v)@ + joined(peer_parts(list@)),
{
    let n: usize = if list.len() < 64 {
        list.len()
    } else {
        64
    };
    let ghost parts = peer_parts(list@);
    let ghost start = v@;
    let mut i: usize = 0;
    assert(parts.take(0) =~= Seq::empty());
    assert(start =~= start + joined(parts.take(0)));
    while i < n
        invariant
            i <= n <= list@.len(),
            parts == peer_parts(list@),
            n == parts.len(),
            v@ == start + joined(parts.take(i as int)),
        decreases n - i,
    {
        push_address(v, list[i].as_str());
        proof {
            lemma_joined_take(parts, i as int);
            assert(v@ =~= start + joined(parts.take(i + 1)));
        }
        i += 1;
    }
    assert(parts.take(n as int) =~= parts);
}

fn push_ids(v: &mut Vec<u8>, ids: &Vec<[u8; 32]>)
    ensures
        final(v)@ == old(v)@ + joined(id_parts(ids@)),
{
    let n: usize = if ids.len() < 64 {
        ids.len()
    } else {
        64
    };
    let ghost parts = id_parts(ids@);
    let ghost start = v@;
    let mut i: usize = 0;
    assert(parts.take(0) =~= Seq::empty());
    assert(start =~= start + joined(parts.take(0)));
    while i < n
        invariant
            i <= n <= ids@.len(),
            parts == id_parts(ids@),
            n == parts.len(),
            v@ == start + joined(parts.take(i as int)),
        decreases n - i,
    {
        push_bytes(v, ids[i].as_slice());
        proof {
            lemma_joined_take(parts, i as int);
            assert(v@ =~= start + joined(parts.take(i + 1)));
        }
        i += 1;
    }
    assert(parts.take(n as int) =~= parts);
}

fn push_candidates(v: &mut Vec<u8>, list: &Vec<([u8; 32], [u8; 64])>)
    ensures
        final(v)@ == old(v)@ + joined(candidate_parts(list@)),
{
    let n: usize = if list.len() < 64 {
        list.len()
    } else {
        64
    };
    let ghost parts = candidate_parts(list@);
    let ghost start = v@;
    let mut i: usize = 0;
    assert(parts.take(0) =~= Seq::empty());
    assert(start =~= start + joined(parts.take(0)));
    while i < n
        invariant
            i <= n <= list@.len(),
            parts == candidate_parts(list@),
            n == parts.len(),
            v@ == start + joined(parts.take(i as int)),
        decreases n - i,
    {
        push_bytes(v, list[i].0.as_slice());
        push_bytes(v, list[i].1.as_slice());
        proof {
            lemma_joined_take(parts, i as int);
            assert(v@ =~= start + joined(parts.take(i + 1)));
        }
        i += 1;
    }
    assert(parts.take(n as int) =~= parts);
}

fn push_unbonding(v: &mut Vec<u8>, list: &Vec<(u64, u64)>)
    ensures
        final(v)@ == old(v)@ + joined(unbonding_parts(list@)),
{
    let ghost parts = unbonding_parts(list@);
    let ghost start = v@;
    let mut i: usize = 0;
    assert(parts.take(0) =~= Seq::empty());
    assert(start =~= start + joined(parts.take(0)));
    while i < list.len()
        invariant
            i <= list@.len(),
            parts == unbonding_parts(list@),
            v@ == start + joined(parts.take(i as int)),
        decreases list@.len() - i,
    {
        push_u64(v, list[i].0);
        push_u64(v, list[i].1);
        proof {
            lemma_joined_take(parts, i as int);
            assert(v@ =~= start + joined(parts.take(i + 1)));
        }
        i += 1;
    }
    assert(parts.take(list@.len() as int) =~= parts);
}

fn push_records(v: &mut Vec<u8>, list: &Vec<(Vec<u8>, Vec<u8>)>)
    ensures
        final(v)@ == old(v)@ + joined(record_parts(list@)),
{
    let ghost parts = record_parts(list@);
    let ghost start = v@;
    let mut i: usize = 0;
    assert(parts.take(0) =~= Seq::empty());
    assert(start =~= start + joined(parts.take(0)));
    while i < list.len()
        invariant
            i <= list@.len(),
            parts == record_parts(list@),
            v@ == start + joined(parts.take(i as int)),
        decreases list@.len() - i,
    {
        push_u32(v, list[i].0.len() as u32);
        push_bytes(v, list[i].0.as_slice());
        push_u32(v, list[i].1.len() as u32);
        push_bytes(v, list[i].1.as_slice());
        proof {
            lemma_joined_take(parts, i as int);
            assert(v@ =~= start + joined(parts.take(i + 1)));
        }
        i += 1;
    }
    assert(parts.take(list@.len() as int) =~= parts);
}

fn push_locks(
    v: &mut Vec<u8>,
    list: &Vec<([u8; 32], u32, [u8; 32], [u8; 32], u64, [u8; 32], u64)>,
)
    ensures
        final(v)@ == old(v)@ + joined(lock_parts(list@)),
{
    let ghost parts = lock_parts(list@);
    let ghost start = v@;
    let mut i: usize = 0;
    assert(parts.take(0) =~= Seq::empty());
    assert(start =~= start + joined(parts.take(0)));
    while i < list.len()
        invariant
            i <= list@.len(),
            parts == lock_parts(list@),
            v@ == start + joined(parts.take(i as int)),
        decreases list@.len() - i,
    {
        push_bytes(v, list[i].0.as_slice());
        push_u32(v, list[i].1);
        push_bytes(v, list[i].2.as_slice());
        push_bytes(v, list[i].3.as_slice());
        push_u64(v, list[i].4);
        push_bytes(v, list[i].5.as_slice());
        push_u64(v, list[i].6);
        proof {
            lemma_joined_take(parts, i as int);
            assert(v@ =~= start + joined(parts.take(i + 1)));
        }
        i += 1;
    }
    assert(parts.take(list@.len() as int) =~= parts);
}

impl Msg {
    /// The encoding. Lists and addresses beyond their limits are cut short.
    #[verifier::rlimit(40)]
    pub fn encode(&self) -> (v: Vec<u8>)
        ensures
            v@ == self.wire(),
    {
        let mut v: Vec<u8> = Vec::new();
        match self {
            Msg::GetTip => {
                v.push(0);
                assert(v@ =~= seq![0u8]);
            },
            Msg::Tip(h) => {
                v.push(1);
                assert(v@ =~= seq![1u8]);
                push_u64(&mut v, *h);
            },
            Msg::GetBlock(h) => {
                v.push(2);
                assert(v@ =~= seq![2u8]);
                push_u64(&mut v, *h);
            },
            Msg::GetBalance { id, token } => {
                v.push(7);
                assert(v@ =~= seq![7u8]);
                push_bytes(&mut v, id.as_slice());
                push_u32(&mut v, *token);
            },
            Msg::GetNonce(id) => {
                v.push(9);
                assert(v@ =~= seq![9u8]);
                push_bytes(&mut v, id.as_slice());
            },
            Msg::GetPending { id, token } => {
                v.push(11);
                assert(v@ =~= seq![11u8]);
                push_bytes(&mut v, id.as_slice());
                push_u32(&mut v, *token);
            },
            Msg::GetPeers => {
                v.push(13);
                assert(v@ =~= seq![13u8]);
            },
            Msg::CommonHeight(h) => {
                v.push(16);
                assert(v@ =~= seq![16u8]);
                push_u64(&mut v, *h);
            },
            Msg::GetPublicBalance { id, token } => {
                v.push(17);
                assert(v@ =~= seq![17u8]);
                push_bytes(&mut v, id.as_slice());
                push_u32(&mut v, *token);
            },
            Msg::GetRingCandidates { token, max } => {
                v.push(19);
                assert(v@ =~= seq![19u8]);
                push_u32(&mut v, *token);
                push_u32(&mut v, *max);
            },
            Msg::GetContractStorage { contract, key } => {
                v.push(23);
                assert(v@ =~= seq![23u8]);
                push_bytes(&mut v, contract.as_slice());
                push_u64(&mut v, *key);
            },
            Msg::ContractStorageReply(val) => {
                v.push(24);
                assert(v@ =~= seq![24u8]);
                push_u64(&mut v, *val);
            },
            Msg::HasContract(id) => {
                v.push(25);
                assert(v@ =~= seq![25u8]);
                push_bytes(&mut v, id.as_slice());
            },
            Msg::GetFinalized => {
                v.push(28);
                assert(v@ =~= seq![28u8]);
            },
            Msg::GetStake(id) => {
                v.push(30);
                assert(v@ =~= seq![30u8]);
                push_bytes(&mut v, id.as_slice());
            },
            Msg::BlockAnnounce { id, height } => {
                v.push(33);
                assert(v@ =~= seq![33u8]);
                push_bytes(&mut v, id.as_slice());
                push_u64(&mut v, *height);
            },
            Msg::GetStateManifest => {
                v.push(34);
                assert(v@ =~= seq![34u8]);
            },
            Msg::StateManifest { anchor_height, anchor_id, record_count, chunk_count } => {
                v.push(35);
                assert(v@ =~= seq![35u8]);
                push_u64(&mut v, *anchor_height);
                push_bytes(&mut v, anchor_id.as_slice());
                push_u64(&mut v, *record_count);
                push_u32(&mut v, *chunk_count);
            },
            Msg::GetStateChunk(n) => {
                v.push(36);
                assert(v@ =~= seq![36u8]);
                push_u32(&mut v, *n);
            },
            Msg::GetPool(token) => {
                v.push(38);
                assert(v@ =~= seq![38u8]);
                push_u32(&mut v, *token);
            },
            Msg::GetLpShares { token, id } => {
                v.push(40);
                assert(v@ =~= seq![40u8]);
                push_u32(&mut v, *token);
                push_bytes(&mut v, id.as_slice());
            },
            Msg::GetHtlc(id) => {
                v.push(41);
                assert(v@ =~= seq![41u8]);
                push_bytes(&mut v, id.as_slice());
            },
            Msg::GetHtlcs => {
                v.push(43);
                assert(v@ =~= seq![43u8]);
            },
            Msg::GetCurve(token) => {
                v.push(45);
                assert(v@ =~= seq![45u8]);
                push_u32(&mut v, *token);
            },
            Msg::NonceReply(Some(n)) => {
                v.push(10);
                v.push(1);
                assert(v@ =~= seq![10u8, 1u8]);
                push_u64(&mut v, *n);
            },
            Msg::NonceReply(None) => {
                v.push(10);
                v.push(0);
                assert(v@ =~= seq![10u8, 0u8]);
            },
            Msg::PublicBalanceReply(Some(n)) => {
                v.push(18);
                v.push(1);
                assert(v@ =~= seq![18u8, 1u8]);
                push_u64(&mut v, *n);
            },
            Msg::PublicBalanceReply(None) => {
                v.push(18);
                v.push(0);
                assert(v@ =~= seq![18u8, 0u8]);
            },
            Msg::FinalizedReply(Some((h, id))) => {
                v.push(29);
                v.push(1);
                assert(v@ =~= seq![29u8, 1u8]);
                push_u64(&mut v, *h);
                push_bytes(&mut v, id.as_slice());
            },
            Msg::FinalizedReply(None) => {
                v.push(29);
                v.push(0);
                assert(v@ =~= seq![29u8, 0u8]);
            },
            Msg::PoolReply(Some((lat, tok, lp))) => {
                v.push(39);
                v.push(1);
                assert(v@ =~= seq![39u8, 1u8]);
                push_u64(&mut v, *lat);
                push_u64(&mut v, *tok);
                push_u64(&mut v, *lp);
            },
            Msg::PoolReply(None) => {
                v.push(39);
                v.push(0);
                assert(v@ =~= seq![39u8, 0u8]);
            },
            Msg::HtlcReply(Some((token, from, to, amount, hashlock, expiry))) => {
                v.push(42);
                v.push(1);
                assert(v@ =~= seq![42u8, 1u8]);
                push_u32(&mut v, *token);
                push_bytes(&mut v, from.as_slice());
                push_bytes(&mut v, to.as_slice());
                push_u64(&mut v, *amount);
                push_bytes(&mut v, hashlock.as_slice());
                push_u64(&mut v, *expiry);
            },
            Msg::HtlcReply(None) => {
                v.push(42);
                v.push(0);
                assert(v@ =~= seq![42u8, 0u8]);
            },
            Msg::CurveReply(Some((vlat, vtok, real_lat, graduated))) => {
                v.push(46);
                v.push(1);
                assert(v@ =~= seq![46u8, 1u8]);
                push_u64(&mut v, *vlat);
                push_u64(&mut v, *vtok);
                push_u64(&mut v, *real_lat);
                push_flag(&mut v, *graduated);
            },
            Msg::CurveReply(None) => {
                v.push(46);
                v.push(0);
                assert(v@ =~= seq![46u8, 0u8]);
            },
            Msg::NewBlock(b) => {
                v.push(4);
                assert(v@ =~= seq![4u8]);
                push_bytes(&mut v, b.as_slice());
            },
            Msg::SubmitTx(b) => {
                v.push(6);
                assert(v@ =~= seq![6u8]);
                push_bytes(&mut v, b.as_slice());
            },
            Msg::FinalityVote(b) => {
                v.push(26);
                assert(v@ =~= seq![26u8]);
                push_bytes(&mut v, b.as_slice());
            },
            Msg::FinalityCert(b) => {
                v.push(27);
                assert(v@ =~= seq![27u8]);
                push_bytes(&mut v, b.as_slice());
            },
            Msg::NewTx(b) => {
                v.push(32);
                assert(v@ =~= seq![32u8]);
                push_bytes(&mut v, b.as_slice());
            },
            Msg::Block(Some(b)) => {
                v.push(3);
                v.push(1);
                assert(v@ =~= seq![3u8, 1u8]);
                push_bytes(&mut v, b.as_slice());
            },
            Msg::Block(None) => {
                v.push(3);
                v.push(0);
                assert(v@ =~= seq![3u8, 0u8]);
            },
            Msg::BalanceReply(Some(b)) => {
                v.push(8);
                v.push(1);
                assert(v@ =~= seq![8u8, 1u8]);
                push_bytes(&mut v, b.as_slice());
            },
            Msg::BalanceReply(None) => {
                v.push(8);
                v.push(0);
                assert(v@ =~= seq![8u8, 0u8]);
            },
            Msg::Ack(ok) => {
                v.push(5);
                assert(v@ =~= seq![5u8]);
                push_flag(&mut v, *ok);
            },
            Msg::Hello(addr) => {
                v.push(12);
                assert(v@ =~= seq![12u8]);
                push_bytes(&mut v, addr.as_str().as_bytes());
            },
            Msg::Peers(list) => {
                let n: usize = if list.len() < MAX_PEERS {
                    list.len()
                } else {
                    MAX_PEERS
                };
                v.push(14);
                v.push(n as u8);
                assert(v@ =~= seq![14u8, n as u8]);
                push_peers(&mut v, list);
            },
            Msg::FindCommon(ids) => {
                let n: usize = if ids.len() < MAX_LOCATOR_IDS {
                    ids.len()
                } else {
                    MAX_LOCATOR_IDS
                };
                v.push(15);
                v.push(n as u8);
                assert(v@ =~= seq![15u8, n as u8]);
                push_ids(&mut v, ids);
            },
            Msg::RingCandidates(list) => {
                let n: usize = if list.len() < MAX_RING_CANDIDATES {
                    list.len()
                } else {
                    MAX_RING_CANDIDATES
                };
                v.push(20);
                assert(v@ =~= seq![20u8]);
                push_u32(&mut v, n as u32);
                push_candidates(&mut v, list);
            },
            Msg::Handshake { version, genesis, addr } => {
                v.push(21);
                assert(v@ =~= seq![21u8]);
                push_u32(&mut v, *version);
                push_bytes(&mut v, genesis.as_slice());
                push_address(&mut v, addr.as_str());
            },
            Msg::HandshakeAck { version, genesis, accepted } => {
                v.push(22);
                assert(v@ =~= seq![22u8]);
                push_u32(&mut v, *version);
                push_bytes(&mut v, genesis.as_slice());
                push_flag(&mut v, *accepted);
            },
            Msg::StakeReply(staked, unbonding) => {
                v.push(31);
                assert(v@ =~= seq![31u8]);
                push_u64(&mut v, *staked);
                push_u32(&mut v, unbonding.len() as u32);
                push_unbonding(&mut v, unbonding);
            },
            Msg::StateChunk(records) => {
                v.push(37);
                assert(v@ =~= seq![37u8]);
                push_u32(&mut v, records.len() as u32);
                push_records(&mut v, records);
            },
            Msg::HtlcsReply(locks) => {
                v.push(44);
                assert(v@ =~= seq![44u8]);
                push_u32(&mut v, locks.len() as u32);
                push_locks(&mut v, locks);
            },
        }
        v
    }
}

/// Read `n` peer addresses at `at`.
fn read_peers(b: &[u8], n: usize) -> (r: Option<Vec<String>>)
    requires
        n <= 64,
        2 <= b@.len(),
    ensures
        match r {
            Some(list) => {
                &&& peers_readable(b@, 2, n as int)
                &&& list@.len() == n
                &&& forall|i: int| 0 <= i < n ==> encode_utf8((#[trigger] list@[i])@).len() <= 128
                &&& bytes::has_prefix(b@, b@.subrange(0, 2) + joined(peer_parts(list@)))
            },
            None => !peers_readable(b@, 2, n as int),
        },
{
    broadcast use crate::bytes::lemma_adjacent;

    let mut list: Vec<String> = Vec::new();
    let mut at: usize = 2;
    let mut i: usize = 0;
    assert(peer_parts(list@) =~= Seq::empty());
    assert(b@.subrange(2, 2) =~= Seq::empty());
    while i < n
        invariant
            i <= n <= 64,
            2 <= at <= b@.len(),
            list@.len() == i,
            peers_readable(b@, 2, n as int) == peers_readable(b@, at as int, n - i),
            forall|j: int| 0 <= j < i ==> encode_utf8((#[trigger] list@[j])@).len() <= 128,
            b@.subrange(2, at as int) == joined(peer_parts(list@)),
        decreases n - i,
    {
        if at >= b.len() {
            return None;
        }
        let len = b[at] as usize;
        if len > MAX_PEER_ADDR_LEN || b.len() - at - 1 < len {
            return None;
        }
        let ghost raw = b@.subrange(at + 1, at + 1 + len);
        match utf8_string(copy_range(b, at + 1, at + 1 + len)) {
            None => {
                return None;
            },
            Some(s) => {
                proof {
                    text::lemma_utf8_bytes(raw);
                    assert(clipped(raw, 128) =~= raw);
                    assert(address_bytes(s@) =~= b@.subrange(at as int, at + 1 + len));
                    let next = list@.push(s);
                    assert(peer_parts(next) =~= peer_parts(list@).push(address_bytes(s@)));
                    lemma_joined_push(peer_parts(list@), address_bytes(s@));
                    assert(b@.subrange(2, at as int) + b@.subrange(at as int, at + 1 + len)
                        == b@.subrange(2, at + 1 + len));
                }
                list.push(s);
            },
        }
        at = at + 1 + len;
        i += 1;
    }
    proof {
        assert(b@.subrange(0, 2) + b@.subrange(2, at as int) == b@.subrange(0, at as int));
    }
    Some(list)
}

fn read_ids(b: &[u8], n: usize) -> (r: Vec<[u8; 32]>)
    requires
        n <= 64,
        2 + 32 * n <= b.len(),
    ensures
        r@.len() == n,
        bytes::has_prefix(b@, b@.subrange(0, 2) + joined(id_parts(r@))),
{
    broadcast use crate::bytes::lemma_adjacent;

    let mut ids: Vec<[u8; 32]> = Vec::new();
    let mut i: usize = 0;
    assert(id_parts(ids@) =~= Seq::empty());
    assert(b@.subrange(2, 2) =~= Seq::empty());
    while i < n
        invariant
            i <= n <= 64,
            2 + 32 * n <= b.len(),
            ids@.len() == i,
            b@.subrange(2, 2 + 32 * i) == joined(id_parts(ids@)),
        decreases n - i,
    {
        let at = 2 + 32 * i;
        let id = array_at::<32>(b, at);
        proof {
            assert(id_parts(ids@.push(id)) =~= id_parts(ids@).push(id@));
            lemma_joined_push(id_parts(ids@), id@);
            assert(b@.subrange(2, at as int) + b@.subrange(at as int, at + 32) == b@.subrange(
                2,
                at + 32,
            ));
        }
        ids.push(id);
        i += 1;
    }
    proof {
        assert(b@.subrange(0, 2) + b@.subrange(2, 2 + 32 * n) == b@.subrange(0, 2 + 32 * n));
    }
    ids
}

fn read_candidates(b: &[u8], n: usize) -> (r: Vec<([u8; 32], [u8; 64])>)
    requires
        n <= 64,
        5 + 96 * n <= b.len(),
    ensures
        r@.len() == n,
        bytes::has_prefix(b@, b@.subrange(0, 5) + joined(candidate_parts(r@))),
{
    broadcast use crate::bytes::lemma_adjacent;

    let mut list: Vec<([u8; 32], [u8; 64])> = Vec::new();
    let mut i: usize = 0;
    assert(candidate_parts(list@) =~= Seq::empty());
    assert(b@.subrange(5, 5) =~= Seq::empty());
    while i < n
        invariant
            i <= n <= 64,
            5 + 96 * n <= b.len(),
            list@.len() == i,
            b@.subrange(5, 5 + 96 * i) == joined(candidate_parts(list@)),
        decreases n - i,
    {
        let at = 5 + 96 * i;
        let id = array_at::<32>(b, at);
        let ct = array_at::<64>(b, at + 32);
        proof {
            assert(candidate_parts(list@.push((id, ct))) =~= candidate_parts(list@).push(id@
                + ct@));
            lemma_joined_push(candidate_parts(list@), id@ + ct@);
            assert(id@ + ct@ == b@.subrange(at as int, at + 96));
            assert(b@.subrange(5, at as int) + b@.subrange(at as int, at + 96) == b@.subrange(
                5,
                at + 96,
            ));
        }
        list.push((id, ct));
        i += 1;
    }
    proof {
        assert(b@.subrange(0, 5) + b@.subrange(5, 5 + 96 * n) == b@.subrange(0, 5 + 96 * n));
    }
    list
}

fn read_unbonding(b: &[u8], n: usize) -> (r: Vec<(u64, u64)>)
    requires
        n <= 1024,
        13 + 16 * n == b.len(),
    ensures
        r@.len() == n,
        b@ == b@.subrange(0, 13) + joined(unbonding_parts(r@)),
{
    broadcast use crate::bytes::lemma_adjacent;

    let mut list: Vec<(u64, u64)> = Vec::new();
    let mut i: usize = 0;
    assert(unbonding_parts(list@) =~= Seq::empty());
    assert(b@.subrange(13, 13) =~= Seq::empty());
    while i < n
        invariant
            i <= n <= 1024,
            13 + 16 * n == b.len(),
            list@.len() == i,
            b@.subrange(13, 13 + 16 * i) == joined(unbonding_parts(list@)),
        decreases n - i,
    {
        let at = 13 + 16 * i;
        let a = u64_at(b, at);
        let r = u64_at(b, at + 8);
        proof {
            let p = bytes::le8(a) + bytes::le8(r);
            assert(unbonding_parts(list@.push((a, r))) =~= unbonding_parts(list@).push(p));
            lemma_joined_push(unbonding_parts(list@), p);
            assert(p == b@.subrange(at as int, at + 16));
            assert(b@.subrange(13, at as int) + b@.subrange(at as int, at + 16) == b@.subrange(
                13,
                at + 16,
            ));
        }
        list.push((a, r));
        i += 1;
    }
    proof {
        assert(b@.subrange(0, 13) + b@.subrange(13, 13 + 16 * n) == b@.subrange(0, 13 + 16 * n));
        assert(b@.subrange(0, b@.len() as int) =~= b@);
    }
    list
}

fn read_locks(b: &[u8], n: usize) -> (r: Vec<
    ([u8; 32], u32, [u8; 32], [u8; 32], u64, [u8; 32], u64),
>)
    requires
        5 + 148 * n == b.len(),
    ensures
        r@.len() == n,
        b@ == b@.subrange(0, 5) + joined(lock_parts(r@)),
{
    broadcast use crate::bytes::lemma_adjacent;

    let mut list: Vec<([u8; 32], u32, [u8; 32], [u8; 32], u64, [u8; 32], u64)> = Vec::new();
    let mut i: usize = 0;
    assert(lock_parts(list@) =~= Seq::empty());
    assert(b@.subrange(5, 5) =~= Seq::empty());
    while i < n
        invariant
            i <= n,
            5 + 148 * n == b.len(),
            list@.len() == i,
            b@.subrange(5, 5 + 148 * i) == joined(lock_parts(list@)),
        decreases n - i,
    {
        assert(148 * i + 148 <= 148 * n);
        let at = 5 + 148 * i;
        let l = (
            array_at::<32>(b, at),
            u32_at(b, at + 32),
            array_at::<32>(b, at + 36),
            array_at::<32>(b, at + 68),
            u64_at(b, at + 100),
            array_at::<32>(b, at + 108),
            u64_at(b, at + 140),
        );
        proof {
            assert(lock_parts(list@.push(l)) =~= lock_parts(list@).push(lock_bytes(l)));
            lemma_joined_push(lock_parts(list@), lock_bytes(l));
            assert(lock_bytes(l) == b@.subrange(at as int, at + 148));
            assert(b@.subrange(5, at as int) + b@.subrange(at as int, at + 148) == b@.subrange(
                5,
                at + 148,
            ));
        }
        list.push(l);
        i += 1;
    }
    proof {
        assert(b@.subrange(0, 5) + b@.subrange(5, 5 + 148 * n) == b@.subrange(0, 5 + 148 * n));
        assert(b@.subrange(0, b@.len() as int) =~= b@);
    }
    list
}

fn read_records(b: &[u8], n: usize) -> (r: Option<Vec<(Vec<u8>, Vec<u8>)>>)
    requires
        5 <= b@.len(),
    ensures
        match r {
            Some(list) => {
                &&& records_readable(b@, 5, n as int)
                &&& list@.len() == n
                &&& forall|i: int|
                    0 <= i < n ==> (#[trigger] list@[i]).0@.len() <= u32::MAX && list@[i].1@.len()
                        <= u32::MAX
                &&& b@ == b@.subrange(0, 5) + joined(record_parts(list@))
            },
            None => !records_readable(b@, 5, n as int),
        },
{
    broadcast use crate::bytes::lemma_adjacent;

    let mut list: Vec<(Vec<u8>, Vec<u8>)> = Vec::new();
    let mut at: usize = 5;
    let mut i: usize = 0;
    assert(record_parts(list@) =~= Seq::empty());
    assert(b@.subrange(5, 5) =~= Seq::empty());
    while i < n
        invariant
            i <= n,
            5 <= at <= b@.len(),
            list@.len() == i,
            records_readable(b@, 5, n as int) == records_readable(b@, at as int, n - i),
            forall|j: int|
                0 <= j < i ==> (#[trigger] list@[j]).0@.len() <= u32::MAX && list@[j].1@.len()
                    <= u32::MAX,
            b@.subrange(5, at as int) == joined(record_parts(list@)),
        decreases n - i,
    {
        if b.len() - at < 8 {
            return None;
        }
        let klen = u32_at(b, at) as usize;
        if b.len() - at - 8 < klen {
            return None;
        }
        let mid = at + 4 + klen;
        let vlen = u32_at(b, mid) as usize;
        if b.len() - mid - 4 < vlen {
            return None;
        }
        let end = mid + 4 + vlen;
        let key = copy_range(b, at + 4, mid);
        let value = copy_range(b, mid + 4, end);
        proof {
            let p = record_bytes(key@, value@);
            assert(p == b@.subrange(at as int, end as int));
            assert(record_parts(list@.push((key, value))) =~= record_parts(list@).push(p));
            lemma_joined_push(record_parts(list@), p);
            assert(b@.subrange(5, at as int) + b@.subrange(at as int, end as int) == b@.subrange(
                5,
                end as int,
            ));
        }
        list.push((key, value));
        at = end;
        i += 1;
    }
    if at != b.len() {
        return None;
    }
    proof {
        assert(b@.subrange(0, 5) + b@.subrange(5, at as int) == b@.subrange(0, at as int));
        assert(b@.subrange(0, b@.len() as int) =~= b@);
    }
    Some(list)
}

impl Msg {
    /// Read a message. `None` where the bytes say none.
    #[verifier::rlimit(100)]
    pub fn decode(b: &[u8]) -> (r: Option<Msg>)
        ensures
            match r {
                Some(m) => readable(b@) && says(b@, m),
                None => !readable(b@),
            },
    {
        broadcast use crate::bytes::lemma_adjacent;

        if b.len() == 0 {
            return None;
        }
        let tag = b[0];
        assert(b@.subrange(0, b@.len() as int) =~= b@);
        assert(seq![tag] =~= b@.subrange(0, 1));
        match tag {
            0 => {
                let m = Msg::GetTip;
                assert(m.wire() == b@.subrange(0, 1));
                Some(m)
            },
            1 => {
                if b.len() < 9 {
                    return None;
                }
                let m = Msg::Tip(u64_at(b, 1));
                assert(m.wire() == b@.subrange(0, 9));
                Some(m)
            },
            2 => {
                if b.len() < 9 {
                    return None;
                }
                let m = Msg::GetBlock(u64_at(b, 1));
                assert(m.wire() == b@.subrange(0, 9));
                Some(m)
            },
            7 => {
                if b.len() < 37 {
                    return None;
                }
                let m = Msg::GetBalance { id: array_at::<32>(b, 1), token: u32_at(b, 33) };
                assert(m.wire() == b@.subrange(0, 37));
                Some(m)
            },
            9 => {
                if b.len() < 33 {
                    return None;
                }
                let m = Msg::GetNonce(array_at::<32>(b, 1));
                assert(m.wire() == b@.subrange(0, 33));
                Some(m)
            },
            11 => {
                if b.len() < 37 {
                    return None;
                }
                let m = Msg::GetPending { id: array_at::<32>(b, 1), token: u32_at(b, 33) };
                assert(m.wire() == b@.subrange(0, 37));
                Some(m)
            },
            13 => {
                let m = Msg::GetPeers;
                assert(m.wire() == b@.subrange(0, 1));
                Some(m)
            },
            16 => {
                if b.len() < 9 {
                    return None;
                }
                let m = Msg::CommonHeight(u64_at(b, 1));
                assert(m.wire() == b@.subrange(0, 9));
                Some(m)
            },
            17 => {
                if b.len() < 37 {
                    return None;
                }
                let m = Msg::GetPublicBalance { id: array_at::<32>(b, 1), token: u32_at(b, 33) };
                assert(m.wire() == b@.subrange(0, 37));
                Some(m)
            },
            19 => {
                if b.len() < 9 {
                    return None;
                }
                let m = Msg::GetRingCandidates { token: u32_at(b, 1), max: u32_at(b, 5) };
                assert(m.wire() == b@.subrange(0, 9));
                Some(m)
            },
            23 => {
                if b.len() < 41 {
                    return None;
                }
                let m = Msg::GetContractStorage { contract: array_at::<32>(b, 1),
                    key: u64_at(b, 33) };
                assert(m.wire() == b@.subrange(0, 41));
                Some(m)
            },
            24 => {
                if b.len() < 9 {
                    return None;
                }
                let m = Msg::ContractStorageReply(u64_at(b, 1));
                assert(m.wire() == b@.subrange(0, 9));
                Some(m)
            },
            25 => {
                if b.len() < 33 {
                    return None;
                }
                let m = Msg::HasContract(array_at::<32>(b, 1));
                assert(m.wire() == b@.subrange(0, 33));
                Some(m)
            },
            28 => {
                let m = Msg::GetFinalized;
                assert(m.wire() == b@.subrange(0, 1));
                Some(m)
            },
            30 => {
                if b.len() < 33 {
                    return None;
                }
                let m = Msg::GetStake(array_at::<32>(b, 1));
                assert(m.wire() == b@.subrange(0, 33));
                Some(m)
            },
            33 => {
                if b.len() != 41 {
                    return None;
                }
                let m = Msg::BlockAnnounce { id: array_at::<32>(b, 1), height: u64_at(b, 33) };
                assert(m.wire() == b@.subrange(0, 41));
                Some(m)
            },
            34 => {
                let m = Msg::GetStateManifest;
                assert(m.wire() == b@.subrange(0, 1));
                Some(m)
            },
            35 => {
                if b.len() != 53 {
                    return None;
                }
                let m = Msg::StateManifest { anchor_height: u64_at(b, 1),
                    anchor_id: array_at::<32>(b, 9), record_count: u64_at(b, 41),
                    chunk_count: u32_at(b, 49) };
                assert(m.wire() == b@.subrange(0, 53));
                Some(m)
            },
            36 => {
                if b.len() < 5 {
                    return None;
                }
                let m = Msg::GetStateChunk(u32_at(b, 1));
                assert(m.wire() == b@.subrange(0, 5));
                Some(m)
            },
            38 => {
                if b.len() < 5 {
                    return None;
                }
                let m = Msg::GetPool(u32_at(b, 1));
                assert(m.wire() == b@.subrange(0, 5));
                Some(m)
            },
            40 => {
                if b.len() < 37 {
                    return None;
                }
                let m = Msg::GetLpShares { token: u32_at(b, 1), id: array_at::<32>(b, 5) };
                assert(m.wire() == b@.subrange(0, 37));
                Some(m)
            },
            41 => {
                if b.len() < 33 {
                    return None;
                }
                let m = Msg::GetHtlc(array_at::<32>(b, 1));
                assert(m.wire() == b@.subrange(0, 33));
                Some(m)
            },
            43 => {
                let m = Msg::GetHtlcs;
                assert(m.wire() == b@.subrange(0, 1));
                Some(m)
            },
            45 => {
                if b.len() < 5 {
                    return None;
                }
                let m = Msg::GetCurve(u32_at(b, 1));
                assert(m.wire() == b@.subrange(0, 5));
                Some(m)
            },
            10 => {
                if b.len() < 2 || b[1] > 1 {
                    return None;
                }
                let some = b[1];
                assert(seq![tag, some] =~= b@.subrange(0, 2));
                if some == 0 {
                    let m = Msg::NonceReply(None);
                    assert(m.wire() == b@.subrange(0, 2));
                    return Some(m);
                }
                if b.len() < 10 {
                    return None;
                }
                let m = Msg::NonceReply(Some(u64_at(b, 2)));
                assert(m.wire() == b@.subrange(0, 10));
                Some(m)
            },
            18 => {
                if b.len() < 2 || b[1] > 1 {
                    return None;
                }
                let some = b[1];
                assert(seq![tag, some] =~= b@.subrange(0, 2));
                if some == 0 {
                    let m = Msg::PublicBalanceReply(None);
                    assert(m.wire() == b@.subrange(0, 2));
                    return Some(m);
                }
                if b.len() < 10 {
                    return None;
                }
                let m = Msg::PublicBalanceReply(Some(u64_at(b, 2)));
                assert(m.wire() == b@.subrange(0, 10));
                Some(m)
            },
            29 => {
                if b.len() < 2 || b[1] > 1 {
                    return None;
                }
                let some = b[1];
                assert(seq![tag, some] =~= b@.subrange(0, 2));
                if some == 0 {
                    let m = Msg::FinalizedReply(None);
                    assert(m.wire() == b@.subrange(0, 2));
                    return Some(m);
                }
                if b.len() < 42 {
                    return None;
                }
                let m = Msg::FinalizedReply(Some((u64_at(b, 2), array_at::<32>(b, 10))));
                assert(m.wire() == b@.subrange(0, 42));
                Some(m)
            },
            39 => {
                if b.len() < 2 || b[1] > 1 {
                    return None;
                }
                let some = b[1];
                assert(seq![tag, some] =~= b@.subrange(0, 2));
                if some == 0 {
                    let m = Msg::PoolReply(None);
                    assert(m.wire() == b@.subrange(0, 2));
                    return Some(m);
                }
                if b.len() < 26 {
                    return None;
                }
                let m = Msg::PoolReply(Some((u64_at(b, 2), u64_at(b, 10), u64_at(b, 18))));
                assert(m.wire() == b@.subrange(0, 26));
                Some(m)
            },
            42 => {
                if b.len() < 2 || b[1] > 1 {
                    return None;
                }
                let some = b[1];
                assert(seq![tag, some] =~= b@.subrange(0, 2));
                if some == 0 {
                    let m = Msg::HtlcReply(None);
                    assert(m.wire() == b@.subrange(0, 2));
                    return Some(m);
                }
                if b.len() < 118 {
                    return None;
                }
                let m = Msg::HtlcReply(Some((u32_at(b, 2), array_at::<32>(b, 6),
                    array_at::<32>(b, 38), u64_at(b, 70), array_at::<32>(b, 78), u64_at(b, 110))));
                assert(m.wire() == b@.subrange(0, 118));
                Some(m)
            },
            46 => {
                if b.len() < 2 || b[1] > 1 {
                    return None;
                }
                let some = b[1];
                assert(seq![tag, some] =~= b@.subrange(0, 2));
                if some == 0 {
                    let m = Msg::CurveReply(None);
                    assert(m.wire() == b@.subrange(0, 2));
                    return Some(m);
                }
                if b.len() < 27 {
                    return None;
                }
                if b[26] > 1 {
                    return None;
                }
                assert(flag(b@[26] == 1) =~= b@.subrange(26, 27));
                let m = Msg::CurveReply(Some((u64_at(b, 2), u64_at(b, 10), u64_at(b, 18),
                    b[26] == 1)));
                assert(m.wire() == b@.subrange(0, 27));
                Some(m)
            },
            4 => {
                let m = Msg::NewBlock(copy_range(b, 1, b.len()));
                assert(m.wire() == b@);
                Some(m)
            },
            6 => {
                let m = Msg::SubmitTx(copy_range(b, 1, b.len()));
                assert(m.wire() == b@);
                Some(m)
            },
            26 => {
                let m = Msg::FinalityVote(copy_range(b, 1, b.len()));
                assert(m.wire() == b@);
                Some(m)
            },
            27 => {
                let m = Msg::FinalityCert(copy_range(b, 1, b.len()));
                assert(m.wire() == b@);
                Some(m)
            },
            32 => {
                let m = Msg::NewTx(copy_range(b, 1, b.len()));
                assert(m.wire() == b@);
                Some(m)
            },
            3 => {
                if b.len() < 2 || b[1] > 1 {
                    return None;
                }
                let some = b[1];
                assert(seq![tag, some] =~= b@.subrange(0, 2));
                if some == 0 {
                    let m = Msg::Block(None);
                    assert(m.wire() == b@.subrange(0, 2));
                    return Some(m);
                }
                let m = Msg::Block(Some(copy_range(b, 2, b.len())));
                assert(m.wire() == b@);
                Some(m)
            },
            8 => {
                if b.len() < 2 || b[1] > 1 {
                    return None;
                }
                let some = b[1];
                assert(seq![tag, some] =~= b@.subrange(0, 2));
                if some == 0 {
                    let m = Msg::BalanceReply(None);
                    assert(m.wire() == b@.subrange(0, 2));
                    return Some(m);
                }
                let m = Msg::BalanceReply(Some(copy_range(b, 2, b.len())));
                assert(m.wire() == b@);
                Some(m)
            },
            5 => {
                if b.len() < 2 {
                    return None;
                }
                Some(Msg::Ack(b[1] != 0))
            },
            12 => {
                if b.len() > 129 {
                    return None;
                }
                let ghost raw = b@.subrange(1, b@.len() as int);
                match utf8_string(copy_range(b, 1, b.len())) {
                    None => None,
                    Some(s) => {
                        proof {
                            text::lemma_utf8_bytes(raw);
                        }
                        let m = Msg::Hello(s);
                        assert(m.wire() == b@);
                        Some(m)
                    },
                }
            },
            14 => {
                if b.len() < 2 || b[1] > 64 {
                    return None;
                }
                let n = b[1];
                match read_peers(b, n as usize) {
                    None => None,
                    Some(list) => {
                        assert(seq![tag, n] =~= b@.subrange(0, 2));
                        Some(Msg::Peers(list))
                    },
                }
            },
            15 => {
                if b.len() < 2 || b[1] > 64 {
                    return None;
                }
                let n = b[1];
                if b.len() < 2 + 32 * (n as usize) {
                    return None;
                }
                assert(seq![tag, n] =~= b@.subrange(0, 2));
                Some(Msg::FindCommon(read_ids(b, n as usize)))
            },
            20 => {
                if b.len() < 5 {
                    return None;
                }
                let n = u32_at(b, 1);
                if n > 64 {
                    return None;
                }
                if b.len() < 5 + 96 * (n as usize) {
                    return None;
                }
                let m = Msg::RingCandidates(read_candidates(b, n as usize));
                assert(seq![tag] + bytes::le4(n) == b@.subrange(0, 5));
                Some(m)
            },
            21 => {
                if b.len() < 38 || b[37] > 128 {
                    return None;
                }
                let len = b[37] as usize;
                if b.len() - 38 < len {
                    return None;
                }
                let ghost raw = b@.subrange(38, 38 + len);
                match utf8_string(copy_range(b, 38, 38 + len)) {
                    None => None,
                    Some(addr) => {
                        proof {
                            text::lemma_utf8_bytes(raw);
                            assert(clipped(raw, 128) =~= raw);
                            assert(address_bytes(addr@) =~= b@.subrange(37, 38 + len));
                        }
                        let m = Msg::Handshake {
                            version: u32_at(b, 1),
                            genesis: array_at::<32>(b, 5),
                            addr,
                        };
                        assert(m.wire() == b@.subrange(0, 38 + len));
                        Some(m)
                    },
                }
            },
            22 => {
                if b.len() < 38 {
                    return None;
                }
                let version = u32_at(b, 1);
                let genesis = array_at::<32>(b, 5);
                assert(seq![tag] + bytes::le4(version) + genesis@ == b@.subrange(0, 37));
                Some(Msg::HandshakeAck { version, genesis, accepted: b[37] != 0 })
            },
            31 => {
                if b.len() < 13 {
                    return None;
                }
                let n = u32_at(b, 9);
                if n > 1024 {
                    return None;
                }
                if b.len() != 13 + 16 * (n as usize) {
                    return None;
                }
                let staked = u64_at(b, 1);
                let m = Msg::StakeReply(staked, read_unbonding(b, n as usize));
                assert(seq![tag] + bytes::le8(staked) + bytes::le4(n) == b@.subrange(0, 13));
                Some(m)
            },
            37 => {
                if b.len() < 5 {
                    return None;
                }
                let n = u32_at(b, 1);
                match read_records(b, n as usize) {
                    None => None,
                    Some(list) => {
                        assert(seq![tag] + bytes::le4(n) == b@.subrange(0, 5));
                        Some(Msg::StateChunk(list))
                    },
                }
            },
            44 => {
                if b.len() < 5 {
                    return None;
                }
                let n = u32_at(b, 1);
                let body = b.len() - 5;
                if body % 148 != 0 || body / 148 != n as usize {
                    return None;
                }
                let m = Msg::HtlcsReply(read_locks(b, n as usize));
                assert(seq![tag] + bytes::le4(n) == b@.subrange(0, 5));
                Some(m)
            },
            _ => None,
        }
    }
}

} // verus!
