use latebra::node::{
    admits, NodeState, Pooling, Vote, MAX_INBOUND_CONNS, MAX_PEER_FAILURES, PROTOCOL_VERSION,
};
use latebra::rules::MIN_VALIDATOR_STAKE;
use latebra::serve::{conclude, request, Found, Gossip, Lookup, Session, Step, STATE_CHUNK_BYTES};
use latebra::sync::{
    ack_reply, balance_reply, block_reply, body_len, common_reply, curve_reply, finalized_reply,
    frame, handshake_reply, htlc_reply, htlcs_reply, next_block, nonce_reply, peers_reply, pool_reply,
    public_balance_reply, ring_reply, shares_reply, slot_reply, sort_block_reply, stake_reply,
    tip_reply, BlockReply, FastStep, FastSync, Stage, Sync,
};
use latebra::wire::{Msg, MAX_MSG_BYTES};

// --- votes -------------------------------------------------------------------------------

fn vote(validator: [u8; 32], block_id: [u8; 32], height: u64) -> Vote {
    Vote { height, block_id, validator, sig: [validator[0]; 64] }
}

#[test]
fn votes_pool_into_a_certificate_and_finalize() {
    // Three validators staked whale/small/small: the whale alone holds
    // 5/7 of the stake (> 2/3), the two smalls together only 2/7.
    let ids = [[1u8; 32], [2u8; 32], [3u8; 32]];
    let set = Some(vec![
        (ids[0], 5 * MIN_VALIDATOR_STAKE),
        (ids[1], MIN_VALIDATOR_STAKE),
        (ids[2], MIN_VALIDATOR_STAKE),
    ]);
    let tip = [9u8; 32];
    let mut node = NodeState::new();

    // A small validator's vote pools but does not certify (1/7 of stake).
    let small = vote(ids[1], tip, 1);
    assert!(matches!(node.add_vote(&small, None, Some(tip), &set, true), Pooling::Pooled));
    // Re-sending it is not "new" — that's what kills the gossip loop.
    assert!(matches!(node.add_vote(&small, None, Some(tip), &set, true), Pooling::Refused));

    // The whale votes: 6/7 pooled → certificate forms, in the order of the ids.
    let whale = vote(ids[0], tip, 1);
    match node.add_vote(&whale, None, Some(tip), &set, true) {
        Pooling::Quorum(votes) => {
            assert_eq!(votes, vec![(ids[0], [1u8; 64]), (ids[1], [2u8; 64])]);
        }
        _ => panic!("whale's stake crosses 2/3"),
    }
    node.forget_votes(1);

    // Votes at or below the watermark are ignored (pool stays clean).
    let late = vote(ids[2], tip, 1);
    assert!(matches!(node.add_vote(&late, Some(1), Some(tip), &set, true), Pooling::Refused));

    // An unstaked key's vote is refused.
    let stranger = vote([8u8; 32], tip, 1);
    assert!(matches!(node.add_vote(&stranger, None, Some(tip), &set, true), Pooling::Refused));
}

#[test]
fn a_vote_counts_only_for_the_active_block_and_with_its_signature() {
    let set = Some(vec![([1u8; 32], 2), ([2u8; 32], 1)]);
    let tip = [9u8; 32];
    let v = vote([1u8; 32], tip, 4);
    let mut node = NodeState::new();
    assert!(matches!(node.add_vote(&v, None, Some([7u8; 32]), &set, true), Pooling::Refused));
    assert!(matches!(node.add_vote(&v, None, None, &set, true), Pooling::Refused));
    assert!(matches!(node.add_vote(&v, None, Some(tip), &None, true), Pooling::Refused));
    assert!(matches!(node.add_vote(&v, None, Some(tip), &set, false), Pooling::Refused));
    // Two of three is not more than two thirds.
    assert!(matches!(node.add_vote(&v, Some(3), Some(tip), &set, true), Pooling::Pooled));
    let w = vote([2u8; 32], tip, 4);
    assert!(matches!(node.add_vote(&w, Some(3), Some(tip), &set, true), Pooling::Quorum(_)));
}

// --- peers ---------------------------------------------------------------------------------

#[test]
fn peer_set_is_self_guarded_health_tracked_and_persistent() {
    let mut n = NodeState::new();
    n.set_self_addr("127.0.0.1:4040");

    assert!(!n.add_peer("127.0.0.1:4040"), "never add our own address");
    assert!(n.add_peer("10.0.0.1:4040"));
    assert!(n.add_peer("10.0.0.2:4040"));
    assert!(!n.add_peer("10.0.0.1:4040"), "dedup");
    assert_eq!(n.peer_count(), 2);

    // Health: a peer is evicted only after MAX_PEER_FAILURES in a row; a
    // success in between resets the count.
    for _ in 0..MAX_PEER_FAILURES - 1 {
        assert!(!n.record_peer_failure("10.0.0.1:4040"));
    }
    n.record_peer_ok("10.0.0.1:4040"); // reset
    for _ in 0..MAX_PEER_FAILURES - 1 {
        assert!(!n.record_peer_failure("10.0.0.1:4040"));
    }
    assert!(n.record_peer_failure("10.0.0.1:4040"), "evicted on the Nth straight failure");
    assert_eq!(n.peers(), vec!["10.0.0.2:4040".to_string()]);

    // Persistence: the saved text read into a fresh node reproduces the set.
    let body = n.peer_list();
    let mut m = NodeState::new();
    assert_eq!(m.load_peer_list(&body), 1);
    assert_eq!(m.peers(), vec!["10.0.0.2:4040".to_string()]);
}

#[test]
fn a_saved_peer_list_is_one_address_a_line() {
    let mut n = NodeState::with_miner([5u8; 32]);
    assert_eq!(n.miner, [5u8; 32]);
    assert!(n.add_peer(" a:1 "));
    assert!(n.add_peer("b:2"));
    assert_eq!(n.peer_list(), "a:1\nb:2");
    assert!(n.remove_peer("a:1"));
    assert!(!n.remove_peer("a:1"));
    let mut m = NodeState::new();
    assert_eq!(m.load_peer_list("a:1\n\n  b:2\na:1\n"), 2);
    assert_eq!(m.peers(), vec!["a:1".to_string(), "b:2".to_string()]);
    assert!(!m.record_peer_failure("nobody:9"));
}

#[test]
fn inbound_connections_are_limited() {
    assert!(admits(0));
    assert!(admits(MAX_INBOUND_CONNS - 1));
    assert!(!admits(MAX_INBOUND_CONNS));
}

// --- serving ---------------------------------------------------------------------------------

fn ask(n: &mut NodeState, s: &Session, m: Msg) -> Lookup {
    match request(n, s, m) {
        Step::Ask(l) => l,
        _ => panic!("a lookup was expected"),
    }
}

fn reply(n: &mut NodeState, s: &Session, m: Msg) -> Msg {
    match request(n, s, m) {
        Step::Reply(r) => r,
        _ => panic!("a reply was expected"),
    }
}

#[test]
fn peer_exchange_hello_and_get_peers() {
    let mut a = NodeState::new();
    let s = Session::new();
    let hello = |a: &mut NodeState, addr: &str| {
        // What arrives is what the message reads back as.
        let m = Msg::decode(&Msg::Hello(addr.to_string()).encode())?;
        ack_reply(reply(a, &Session::new(), m))
    };
    assert_eq!(hello(&mut a, "10.0.0.5:4040"), Some(true), "new peer recorded");
    assert_eq!(hello(&mut a, "10.0.0.5:4040"), Some(false), "duplicate ignored");
    assert_eq!(hello(&mut a, ""), Some(false), "empty address refused");
    assert_eq!(hello(&mut a, &"x".repeat(500)), None, "oversized address refused");
    assert_eq!(
        peers_reply(reply(&mut a, &s, Msg::GetPeers)),
        Some(vec!["10.0.0.5:4040".to_string()])
    );
}

fn handshake(server: &mut NodeState, version: u32, genesis: [u8; 32], ours: [u8; 32], addr: &str) -> bool {
    let mut s = Session::new();
    let m = Msg::Handshake { version, genesis, addr: addr.to_string() };
    let l = ask(server, &s, m);
    let (r, g) = conclude(server, &mut s, l, Found::Genesis(ours));
    assert!(matches!(g, Gossip::Nothing));
    handshake_reply(r, &genesis).expect("an ack")
}

#[test]
fn handshake_accepts_same_chain_and_records_peer() {
    let mut a = NodeState::new();
    let genesis = [4u8; 32];
    assert!(
        handshake(&mut a, PROTOCOL_VERSION, genesis, genesis, "10.0.0.7:4040"),
        "same-chain peer accepted"
    );
    // The compatible peer was recorded (one handshake = a two-way link).
    assert_eq!(a.peers(), vec!["10.0.0.7:4040".to_string()]);
}

#[test]
fn handshake_rejects_foreign_genesis_and_bad_version() {
    let mut server = NodeState::new();
    let real_genesis = [4u8; 32];
    let foreign_genesis = [5u8; 32];
    assert!(
        !handshake(&mut server, PROTOCOL_VERSION, foreign_genesis, real_genesis, "10.0.0.9:4040"),
        "foreign chain refused"
    );
    assert!(server.peers().is_empty(), "foreign peer not recorded");

    // A wrong protocol version is refused even on the right chain.
    assert!(
        !handshake(&mut server, PROTOCOL_VERSION + 1, real_genesis, real_genesis, "10.0.0.9:4040"),
        "version mismatch refused"
    );
    assert!(server.peers().is_empty(), "still no peer recorded");
}

#[test]
fn only_news_is_passed_on() {
    let mut n = NodeState::new();
    let mut s = Session::new();
    let header = Some(([1u8; 32], 5u64));

    let l = ask(&mut n, &s, Msg::NewBlock(vec![1, 2]));
    let (r, g) = conclude(&mut n, &mut s, l, Found::Offered { header, known: false, taken: true });
    assert_eq!(r, Msg::Ack(true));
    match g {
        Gossip::Block { id, height, bytes } => {
            assert_eq!((id, height, bytes), ([1u8; 32], 5, vec![1, 2]));
        }
        _ => panic!("a new block travels"),
    }
    let l = ask(&mut n, &s, Msg::NewBlock(vec![1, 2]));
    let (r, g) = conclude(&mut n, &mut s, l, Found::Offered { header, known: true, taken: true });
    assert_eq!(r, Msg::Ack(true));
    assert!(matches!(g, Gossip::Nothing), "a known block does not");
    let l = ask(&mut n, &s, Msg::NewBlock(vec![1]));
    let f = Found::Offered { header: None, known: false, taken: false };
    let (r, g) = conclude(&mut n, &mut s, l, f);
    assert_eq!(r, Msg::Ack(false));
    assert!(matches!(g, Gossip::Nothing));

    let l = ask(&mut n, &s, Msg::FinalityVote(vec![3]));
    let f = Found::Voted { pooled: true, certificate: Some(vec![4]) };
    let (r, g) = conclude(&mut n, &mut s, l, f);
    assert_eq!(r, Msg::Ack(true));
    assert!(matches!(g, Gossip::Vote { bytes, certificate } if bytes == [3] && certificate == Some(vec![4])));
    let l = ask(&mut n, &s, Msg::FinalityCert(vec![6]));
    let (r, g) = conclude(&mut n, &mut s, l, Found::Flag(true));
    assert_eq!(r, Msg::Ack(true));
    assert!(matches!(g, Gossip::Certificate(b) if b == [6]));
    let l = ask(&mut n, &s, Msg::SubmitTx(vec![7]));
    let (r, g) = conclude(&mut n, &mut s, l, Found::Flag(true));
    assert_eq!(r, Msg::Ack(true));
    assert!(matches!(g, Gossip::Tx(b) if b == [7]));
    let l = ask(&mut n, &s, Msg::NewTx(vec![7]));
    let (r, g) = conclude(&mut n, &mut s, l, Found::Flag(false));
    assert_eq!(r, Msg::Ack(false));
    assert!(matches!(g, Gossip::Nothing));
    // A block is asked for just if it is not here.
    for has in [true, false] {
        let l = ask(&mut n, &s, Msg::BlockAnnounce { id: [1u8; 32], height: 5 });
        let (r, _) = conclude(&mut n, &mut s, l, Found::Flag(has));
        assert_eq!(r, Msg::Ack(!has));
    }
}

#[test]
fn every_question_has_its_answer() {
    let mut n = NodeState::new();
    let mut s = Session::new();
    let id = [1u8; 32];
    let ct = [2u8; 64];
    let lock = (0u32, id, id, 5u64, id, 9u64);
    let listed = (id, 0u32, id, id, 5u64, id, 9u64);
    let cases = vec![
        (Msg::GetTip, Found::Height(7), Msg::Tip(7)),
        (Msg::GetBlock(3), Found::Block(None), Msg::Block(None)),
        (Msg::GetFinalized, Found::Finalized(Some((4, id))), Msg::FinalizedReply(Some((4, id)))),
        (Msg::GetStake(id), Found::Stake(5, vec![(1, 2)]), Msg::StakeReply(5, vec![(1, 2)])),
        (Msg::FindCommon(vec![id, id]), Found::Heights(vec![3, 9, 4]), Msg::CommonHeight(9)),
        (Msg::FindCommon(vec![id]), Found::Heights(vec![]), Msg::CommonHeight(0)),
        (
            Msg::GetBalance { id, token: 0 },
            Found::Ciphertext(Some(ct)),
            Msg::BalanceReply(Some(ct.to_vec())),
        ),
        (Msg::GetPending { id, token: 0 }, Found::Ciphertext(None), Msg::BalanceReply(None)),
        (Msg::GetNonce(id), Found::Amount(Some(3)), Msg::NonceReply(Some(3))),
        (
            Msg::GetPublicBalance { id, token: 0 },
            Found::Amount(None),
            Msg::PublicBalanceReply(None),
        ),
        (Msg::GetPool(2), Found::Pool(Some((1, 2, 3))), Msg::PoolReply(Some((1, 2, 3)))),
        (
            Msg::GetLpShares { token: 2, id },
            Found::Shares(8),
            Msg::PublicBalanceReply(Some(8)),
        ),
        (Msg::GetHtlc(id), Found::Htlc(Some(lock)), Msg::HtlcReply(Some(lock))),
        (Msg::GetHtlcs, Found::Htlcs(vec![listed]), Msg::HtlcsReply(vec![listed])),
        (
            Msg::GetCurve(2),
            Found::Curve(Some((1, 2, 3, true))),
            Msg::CurveReply(Some((1, 2, 3, true))),
        ),
        (
            Msg::GetContractStorage { contract: id, key: 5 },
            Found::Slot(6),
            Msg::ContractStorageReply(6),
        ),
        (Msg::HasContract(id), Found::Flag(true), Msg::Ack(true)),
    ];
    for (m, f, expected) in cases {
        let l = ask(&mut n, &s, m);
        let (r, g) = conclude(&mut n, &mut s, l, f);
        assert_eq!(r, expected);
        assert!(matches!(g, Gossip::Nothing));
    }
    // A reply out of turn is ignored.
    assert!(matches!(request(&mut n, &s, Msg::Tip(9)), Step::Ignore));
    assert!(matches!(request(&mut n, &s, Msg::Ack(true)), Step::Ignore));
}

#[test]
fn a_ring_is_drawn_from_the_whole_chain() {
    let all: Vec<([u8; 32], [u8; 64])> = (0..10u8).map(|i| ([i; 32], [i; 64])).collect();
    let mut n = NodeState::new();
    let mut s = Session::new();
    let ids = |n: &mut NodeState, s: &mut Session, max: u32| -> Vec<u8> {
        let l = ask(n, s, Msg::GetRingCandidates { token: 0, max });
        let (r, _) = conclude(n, s, l, Found::Candidates(all.clone()));
        ring_reply(r).unwrap().iter().map(|c| c.0[0]).collect()
    };
    assert_eq!(ids(&mut n, &mut s, 64), (0..10).collect::<Vec<u8>>());
    let few = ids(&mut n, &mut s, 4);
    assert_eq!(few, vec![0, 2, 5, 7]);
}

#[test]
fn a_snapshot_is_served_in_chunks() {
    let mut n = NodeState::new();
    let mut s = Session::new();
    let records: Vec<(Vec<u8>, Vec<u8>)> =
        (0..5u8).map(|i| (vec![i; 33], vec![i; STATE_CHUNK_BYTES / 2 - 100])).collect();
    let none = reply(&mut n, &s, Msg::GetStateChunk(0));
    assert_eq!(none, Msg::StateChunk(vec![]), "nothing captured yet");

    let l = ask(&mut n, &s, Msg::GetStateManifest);
    let f = Found::Records(Some((42, [3u8; 32], records.clone())));
    let (r, _) = conclude(&mut n, &mut s, l, f);
    assert_eq!(
        r,
        Msg::StateManifest { anchor_height: 42, anchor_id: [3u8; 32], record_count: 5, chunk_count: 3 }
    );
    let mut got = Vec::new();
    for i in 0..3 {
        match reply(&mut n, &s, Msg::GetStateChunk(i)) {
            Msg::StateChunk(part) => got.extend(part),
            _ => panic!("a chunk was expected"),
        }
    }
    assert_eq!(got, records);
    assert_eq!(reply(&mut n, &s, Msg::GetStateChunk(3)), Msg::StateChunk(vec![]));

    // A chain that was just begun has nothing to serve.
    let l = ask(&mut n, &s, Msg::GetStateManifest);
    let (r, _) = conclude(&mut n, &mut s, l, Found::Records(None));
    assert_eq!(
        r,
        Msg::StateManifest { anchor_height: 0, anchor_id: [0u8; 32], record_count: 0, chunk_count: 0 }
    );
}

// --- framing and replies ---------------------------------------------------------------------

#[test]
fn frames_read_back() {
    let m = Msg::Hello("a:1".to_string());
    let f = frame(&m);
    let mut prefix = [0u8; 4];
    prefix.copy_from_slice(&f[..4]);
    assert_eq!(body_len(&prefix), Some(f.len() - 4));
    assert_eq!(Msg::decode(&f[4..]), Some(m));
    assert_eq!(body_len(&(MAX_MSG_BYTES as u32).to_le_bytes()), Some(MAX_MSG_BYTES));
    assert_eq!(body_len(&(MAX_MSG_BYTES as u32 + 1).to_le_bytes()), None);
}

#[test]
fn a_reply_is_taken_for_what_it_is() {
    let id = [1u8; 32];
    let lock = (0u32, id, id, 5u64, id, 9u64);
    let listed = (id, 0u32, id, id, 5u64, id, 9u64);
    assert_eq!(tip_reply(Msg::Tip(3)), Some(3));
    assert_eq!(tip_reply(Msg::GetTip), None);
    assert_eq!(block_reply(Msg::Block(Some(vec![1]))), Some(Some(vec![1])));
    assert_eq!(block_reply(Msg::Tip(1)), None);
    assert_eq!(ack_reply(Msg::Ack(true)), Some(true));
    assert_eq!(ack_reply(Msg::Tip(1)), None);
    assert_eq!(nonce_reply(Msg::NonceReply(Some(2))), Some(Some(2)));
    assert_eq!(nonce_reply(Msg::Tip(2)), None);
    assert_eq!(public_balance_reply(Msg::PublicBalanceReply(None)), Some(None));
    assert_eq!(public_balance_reply(Msg::Tip(2)), None);
    assert_eq!(peers_reply(Msg::Tip(2)), None);
    assert_eq!(ring_reply(Msg::RingCandidates(vec![(id, [2u8; 64])])), Some(vec![(id, [2u8; 64])]));
    assert_eq!(ring_reply(Msg::Tip(2)), None);
    assert_eq!(slot_reply(Msg::ContractStorageReply(7)), Some(7));
    assert_eq!(slot_reply(Msg::Tip(2)), None);
    assert_eq!(pool_reply(Msg::PoolReply(Some((1, 2, 3)))), Some(Some((1, 2, 3))));
    assert_eq!(pool_reply(Msg::Tip(2)), None);
    assert_eq!(curve_reply(Msg::CurveReply(None)), Some(None));
    assert_eq!(curve_reply(Msg::Tip(2)), None);
    assert_eq!(htlc_reply(Msg::HtlcReply(Some(lock))), Some(Some(lock)));
    assert_eq!(htlc_reply(Msg::Tip(2)), None);
    assert_eq!(htlcs_reply(Msg::HtlcsReply(vec![listed])), Some(vec![listed]));
    assert_eq!(htlcs_reply(Msg::Tip(2)), None);
    assert_eq!(finalized_reply(Msg::FinalizedReply(Some((3, id)))), Some(Some((3, id))));
    assert_eq!(finalized_reply(Msg::Tip(2)), None);
    assert_eq!(stake_reply(Msg::StakeReply(4, vec![(1, 2)])), Some((4, vec![(1, 2)])));
    assert_eq!(stake_reply(Msg::Tip(2)), None);
    assert_eq!(common_reply(Msg::CommonHeight(6)), Some(6));
    assert_eq!(common_reply(Msg::Tip(2)), None);
    // A balance that is not 64 bytes counts as none.
    assert_eq!(balance_reply(Msg::BalanceReply(Some(vec![5; 64]))), Some(Some([5u8; 64])));
    assert_eq!(balance_reply(Msg::BalanceReply(Some(vec![5; 63]))), Some(None));
    assert_eq!(balance_reply(Msg::Tip(2)), None);
    assert_eq!(shares_reply(Msg::PublicBalanceReply(Some(8))), Some(8));
    assert_eq!(shares_reply(Msg::PublicBalanceReply(None)), Some(0));
    assert_eq!(shares_reply(Msg::Tip(2)), None);
    assert_eq!(handshake_reply(Msg::Tip(2), &id), None);
    // A peer that says it is on another chain is not compatible, whatever it accepts.
    let ack = Msg::HandshakeAck { version: PROTOCOL_VERSION, genesis: [2u8; 32], accepted: true };
    assert_eq!(handshake_reply(ack, &id), Some(false));
}

// --- catching up ---------------------------------------------------------------------------------

#[test]
fn a_sync_asks_for_each_block_above_the_common_one() {
    let mut s = Sync::start(3, 6);
    let mut asked = Vec::new();
    while let Some(h) = s.next {
        asked.push(h);
        s.took(true, h == 5);
    }
    assert_eq!(asked, vec![4, 5, 6]);
    assert_eq!(s.adopted, 2, "a known block is not adopted again");

    let mut s = Sync::start(0, 9);
    s.took(true, false);
    s.took(false, false);
    assert_eq!((s.next, s.adopted), (None, 1), "a refused block ends it");
    let mut s = Sync::start(0, 9);
    s.stop();
    assert_eq!(s.next, None);
    assert_eq!(Sync::start(9, 9).next, None);
    assert_eq!((next_block(3, 6), next_block(6, 6)), (Some(4), None));

    assert!(matches!(sort_block_reply(Msg::Block(Some(vec![1]))), BlockReply::Got(b) if b == [1]));
    assert!(matches!(sort_block_reply(Msg::Block(None)), BlockReply::Stop));
    assert!(matches!(sort_block_reply(Msg::Tip(1)), BlockReply::Bad));
}

fn sent(s: FastStep) -> Msg {
    match s {
        FastStep::Send(m) => m,
        _ => panic!("a request was expected"),
    }
}

fn manifest(chunk_count: u32) -> Msg {
    Msg::StateManifest { anchor_height: 2, anchor_id: [3u8; 32], record_count: 3, chunk_count }
}

#[test]
fn a_fast_sync_gathers_records_and_blocks() {
    assert!(FastSync::start(1).is_none(), "only a fresh node");
    let (mut f, first) = FastSync::start(0).unwrap();
    assert_eq!(first, Msg::GetStateManifest);
    assert_eq!(sent(f.step(manifest(2))), Msg::GetStateChunk(0));
    let a = vec![(vec![1u8], vec![2u8])];
    let b = vec![(vec![3u8], vec![4u8]), (vec![5u8], vec![])];
    assert_eq!(sent(f.step(Msg::StateChunk(a.clone()))), Msg::GetStateChunk(1));
    assert_eq!(sent(f.step(Msg::StateChunk(b.clone()))), Msg::GetTip);
    assert_eq!(sent(f.step(Msg::Tip(3))), Msg::GetBlock(1));
    assert_eq!(sent(f.step(Msg::Block(Some(vec![1])))), Msg::GetBlock(2));
    assert_eq!(sent(f.step(Msg::Block(Some(vec![2])))), Msg::GetBlock(3));
    assert!(matches!(f.step(Msg::Block(Some(vec![3]))), FastStep::Adopt));
    assert_eq!(f.stage, Stage::Done);
    assert_eq!(f.records, [a, b].concat());
    assert_eq!(f.blocks, vec![vec![1u8], vec![2], vec![3]]);
    assert_eq!((f.anchor_height, f.anchor_id), (2, [3u8; 32]));
    assert!(matches!(f.step(Msg::Tip(3)), FastStep::Bad), "nothing more is asked for");
}

#[test]
fn a_fast_sync_gives_up_where_the_peer_cannot_serve_it() {
    let fresh = || FastSync::start(0).unwrap().0;
    let mut f = fresh();
    assert!(matches!(f.step(manifest(0)), FastStep::GiveUp));
    let mut f = fresh();
    f.step(manifest(1));
    assert!(matches!(f.step(Msg::StateChunk(vec![])), FastStep::GiveUp));
    let mut f = fresh();
    f.step(manifest(1));
    f.step(Msg::StateChunk(vec![(vec![1], vec![])]));
    assert!(matches!(f.step(Msg::Tip(1)), FastStep::GiveUp), "the peer lost its chain");
    let mut f = fresh();
    f.step(manifest(1));
    f.step(Msg::StateChunk(vec![(vec![1], vec![])]));
    f.step(Msg::Tip(2));
    assert!(matches!(f.step(Msg::Block(None)), FastStep::GiveUp));
    let mut f = fresh();
    assert!(matches!(f.step(Msg::Ack(true)), FastStep::Bad));
}
