use latebra::address::{Address, AddressError, Network};
use latebra::transaction::{
    finality_vote_signing_bytes, htlc_id, AnonTransfer, Opened, SolventTransfer, Transaction,
};
use latebra::wallet::{seed_from_hex, Wallet, WalletError};
use latebra::wire::Msg;

fn plain(b: &[u8]) -> Option<Transaction> {
    Transaction::decode(b, Opened::Nothing)
}

/// `n` pseudo-random bytes.
fn some_key(n: u8) -> [u8; 32] {
    *blake3::hash(&[n]).as_bytes()
}

// --- addresses -----------------------------------------------------------------------

#[test]
fn address_roundtrip_testnet() {
    let addr = Address::new(Network::Testnet, some_key(1));
    let s = addr.encode();
    assert!(s.starts_with("latt1"), "got {s}");
    assert_eq!(Address::parse(&s, true), Ok(addr));
}

#[test]
fn address_roundtrip_mainnet() {
    let addr = Address::new(Network::Mainnet, some_key(2));
    let s = addr.encode();
    assert!(s.starts_with("lat1"), "got {s}");
    assert_eq!(Address::parse(&s, true), Ok(addr));
}

#[test]
fn rejects_garbage() {
    assert!(Address::parse("not-an-address", true).is_err());
}

#[test]
fn each_address_error_has_its_input() {
    assert_eq!(Address::parse("not-an-address", true), Err(AddressError::Bech32));
    let addr = Address::new(Network::Mainnet, some_key(3));
    let mut damaged = addr.encode().into_bytes();
    let last = damaged.len() - 1;
    damaged[last] = if damaged[last] == b'q' { b'p' } else { b'q' };
    let damaged = String::from_utf8(damaged).unwrap();
    assert_eq!(Address::parse(&damaged, true), Err(AddressError::Bech32));
    assert_eq!(Address::from_decoded("btc", &[7u8; 32], true), Err(AddressError::UnknownPrefix));
    assert_eq!(Address::from_decoded("lat", &[7u8; 31], false), Err(AddressError::BadLength));
    assert_eq!(Address::parse(&addr.encode(), false), Err(AddressError::BadKey));
    assert_eq!(Address::parse(&addr.encode(), true), Ok(addr));
    assert_eq!(Address::key_in(&addr.encode()), Some(addr.id()));
    assert_eq!(Address::key_in(&damaged), None);
}

#[test]
fn the_two_networks_have_their_prefixes() {
    assert_eq!(Network::Mainnet.hrp(), "lat");
    assert_eq!(Network::Testnet.hrp(), "latt");
    assert_eq!(Network::from_hrp("lat"), Some(Network::Mainnet));
    assert_eq!(Network::from_hrp("latt"), Some(Network::Testnet));
    assert_eq!(Network::from_hrp("la"), None);
    assert_eq!(Address::new(Network::Mainnet, [9u8; 32]).id(), [9u8; 32]);
}

// --- the wallet's backup ---------------------------------------------------------------

#[test]
fn seed_backup_restores_same_address() {
    let seed = some_key(4);
    let account = some_key(5);
    let w = Wallet::from_seed(Network::Testnet, seed, account);
    let restored = seed_from_hex(&w.seed_hex()).unwrap();
    assert_eq!(restored, seed);
    let restored = Wallet::from_seed(Network::Testnet, restored, account);
    assert_eq!(w.address(), restored.address());
    assert_eq!(w.address_string(), restored.address_string());
}

#[test]
fn address_has_network_prefix() {
    let main = Wallet::from_seed(Network::Mainnet, some_key(6), some_key(7));
    let test = Wallet::from_seed(Network::Testnet, some_key(8), some_key(9));
    assert!(main.address_string().starts_with("lat1"));
    assert!(test.address_string().starts_with("latt1"));
}

#[test]
fn a_backup_is_64_hex_digits() {
    let w = Wallet::from_seed(Network::Mainnet, [0xab; 32], some_key(7));
    assert_eq!(w.seed_hex(), "ab".repeat(32));
    assert_eq!(seed_from_hex(&format!("  {}\n", "AB".repeat(32))), Ok([0xab; 32]));
    assert_eq!(seed_from_hex(&"ab".repeat(31)), Err(WalletError::BadSeedHex));
    assert_eq!(seed_from_hex(&"zz".repeat(32)), Err(WalletError::BadSeedHex));
}

// --- transactions ------------------------------------------------------------------------

#[test]
fn public_transfer_encoding_roundtrips() {
    let tx = Transaction::PublicTransfer {
        token: 7,
        from: [1u8; 32],
        to: [2u8; 32],
        amount: 12_345,
        fee: 1_000,
        nonce: 9,
        sig: [3u8; 64],
    };
    let bytes = tx.encode();
    assert_eq!(bytes[0], 0x07, "tag byte");
    assert_eq!(bytes.len(), 1 + 4 + 32 + 32 + 8 + 8 + 8 + 64);
    // decode(encode(tx)) reproduces the same canonical bytes.
    let decoded = plain(&bytes).expect("decodes");
    assert_eq!(decoded.encode(), bytes, "roundtrip");
    // The signature covers everything but the trailing 64-byte sig.
    assert_eq!(tx.signing_bytes(), bytes[..bytes.len() - 64].to_vec());
    // Decoding is total: trailing garbage and truncation are both rejected.
    let mut extra = bytes.clone();
    extra.push(0);
    assert!(plain(&extra).is_none(), "trailing garbage rejected");
    assert!(plain(&bytes[..bytes.len() - 1]).is_none(), "truncation rejected");
}

#[test]
fn stake_and_unstake_encoding_roundtrip() {
    for (tag, tx) in [
        (0x0Cu8, Transaction::Stake { validator: [5u8; 32], amount: 777, nonce: 3, sig: [9u8; 64] }),
        (0x0D, Transaction::Unstake { validator: [5u8; 32], amount: 777, nonce: 3, sig: [9u8; 64] }),
    ] {
        let bytes = tx.encode();
        assert_eq!(bytes[0], tag, "tag byte");
        assert_eq!(bytes.len(), 1 + 32 + 8 + 8 + 64);
        let decoded = plain(&bytes).expect("decodes");
        assert_eq!(decoded.encode(), bytes, "roundtrip");
        assert_eq!(tx.signing_bytes(), bytes[..bytes.len() - 64].to_vec());
        let mut extra = bytes.clone();
        extra.push(0);
        assert!(plain(&extra).is_none(), "trailing garbage rejected");
        assert!(plain(&bytes[..bytes.len() - 1]).is_none(), "truncation rejected");
    }
}

fn solvent() -> SolventTransfer {
    SolventTransfer {
        sender: [1u8; 32],
        receiver: [2u8; 32],
        fee: 100,
        nonce: 0,
        sender_ct: [4u8; 64],
        receiver_ct: [5u8; 64],
        bytes: vec![6u8; 300],
    }
}

#[test]
fn shield_and_unshield_encoding_roundtrip() {
    // Shield shares PublicTransfer's fixed layout (tag 0x08).
    let shield = Transaction::Shield {
        token: 3, from: [1u8; 32], to: [2u8; 32], amount: 9, fee: 1_000, nonce: 4, sig: [7u8; 64],
    };
    let sb = shield.encode();
    assert_eq!(sb[0], 0x08);
    assert_eq!(plain(&sb).unwrap().encode(), sb, "shield roundtrips");
    assert_eq!(shield.signing_bytes(), sb[..sb.len() - 64].to_vec());

    // Unshield carries a variable-length transfer (tag 0x09).
    let unshield =
        Transaction::Unshield { token: 0, to: [5u8; 32], amount: 400, xfer: solvent(), sig: [9u8; 64] };
    let ub = unshield.encode();
    assert_eq!(ub[0], 0x09);
    assert_eq!(Transaction::embedded(&ub), Some(vec![6u8; 300]));
    let decoded = Transaction::decode(&ub, Opened::Solvent(solvent())).expect("decodes");
    assert_eq!(decoded.encode(), ub, "unshield roundtrips");
    assert_eq!(unshield.signing_bytes(), ub[..ub.len() - 64].to_vec());
    let mut extra = ub.clone();
    extra.push(0);
    assert!(
        Transaction::decode(&extra, Opened::Solvent(solvent())).is_none(),
        "trailing garbage rejected"
    );
    assert!(plain(&ub).is_none(), "a transfer that does not open is no transaction");
}

#[test]
fn anon_transfer_encoding_roundtrip() {
    let xfer = AnonTransfer {
        ring: vec![[1u8; 32], [2u8; 32], [3u8; 32]],
        balances: vec![[4u8; 64]; 3],
        enc: vec![[5u8; 64]; 3],
        credit: [6u8; 64],
        ephemeral: [7u8; 32],
        one_time: [8u8; 32],
        nullifier: [9u8; 32],
        epoch: 3,
        fee: 100,
        bytes: vec![10u8; 500],
    };
    let tx = Transaction::AnonTransfer { token: 0, xfer: xfer.clone() };
    let bytes = tx.encode();
    assert_eq!(bytes[0], 0x0B, "tag byte");
    let open = || Opened::Anon(xfer.clone());
    let decoded = Transaction::decode(&bytes, open()).expect("decodes");
    assert_eq!(decoded.encode(), bytes, "roundtrip");
    // No signature field: the proof itself authenticates, so signing bytes
    // are the full encoding.
    assert_eq!(tx.signing_bytes(), bytes);
    if let (Transaction::AnonTransfer { xfer: a, .. }, Transaction::AnonTransfer { xfer: b, .. }) =
        (&tx, &decoded)
    {
        assert_eq!(a.nullifier, b.nullifier);
    } else {
        panic!("decoded to a different variant");
    }
    let mut extra = bytes.clone();
    extra.push(0);
    assert!(Transaction::decode(&extra, open()).is_none(), "trailing garbage rejected");
    assert!(
        Transaction::decode(&bytes[..bytes.len() - 1], open()).is_none(),
        "truncation rejected"
    );
}

#[test]
fn dex_and_htlc_encoding_roundtrip() {
    let signed: Vec<(u8, Transaction)> = vec![
        (0x0F, Transaction::AddLiquidity { token: 2, provider: [1u8; 32], lat_amount: 5_000, tok_amount: 7_000, fee: 1_000, nonce: 3, sig: [8u8; 64] }),
        (0x10, Transaction::RemoveLiquidity { token: 2, provider: [1u8; 32], lp_amount: 4_242, fee: 1_000, nonce: 4, sig: [8u8; 64] }),
        (0x11, Transaction::Swap { token: 2, trader: [1u8; 32], lat_in: true, amount_in: 9_999, min_out: 1, fee: 1_000, nonce: 5, sig: [8u8; 64] }),
        (0x12, Transaction::HtlcLock { token: 0, from: [1u8; 32], to: [2u8; 32], amount: 777, hashlock: [3u8; 32], expiry: 1_000, fee: 1_000, nonce: 6, sig: [8u8; 64] }),
        (0x15, Transaction::CurveTrade { token: 2, trader: [1u8; 32], is_buy: true, amount: 9_999, min_out: 1, fee: 1_000, nonce: 7, sig: [8u8; 64] }),
    ];
    for (tag, tx) in &signed {
        let b = tx.encode();
        assert_eq!(b[0], *tag, "tag byte");
        assert_eq!(plain(&b).expect("decodes").encode(), b, "roundtrip");
        assert_eq!(tx.signing_bytes(), b[..b.len() - 64].to_vec(), "sig covers all but sig");
        let mut extra = b.clone();
        extra.push(0);
        assert!(plain(&extra).is_none(), "trailing garbage rejected");
        assert!(plain(&b[..b.len() - 1]).is_none(), "truncation rejected");
    }
    // Claim/refund are self-authenticating: no signature, full encoding signed.
    for (tag, tx) in [
        (0x13u8, Transaction::HtlcClaim { id: [7u8; 32], preimage: [9u8; 32] }),
        (0x14, Transaction::HtlcRefund { id: [7u8; 32] }),
    ] {
        let b = tx.encode();
        assert_eq!(b[0], tag);
        assert_eq!(plain(&b).expect("decodes").encode(), b);
        assert_eq!(tx.signing_bytes(), b);
        let mut extra = b.clone();
        extra.push(0);
        assert!(plain(&extra).is_none());
    }
    // A Swap direction byte other than 0/1 is a malleable second encoding.
    let mut b = signed[2].1.encode();
    b[1 + 36] = 2;
    assert!(plain(&b).is_none(), "non-canonical bool rejected");
}

#[test]
fn shield_stealth_encoding_roundtrip() {
    let tx = Transaction::ShieldStealth {
        token: 2,
        from: [1u8; 32],
        ephemeral: [2u8; 32],
        one_time: [3u8; 32],
        amount: 55_555,
        fee: 1_000,
        nonce: 6,
        sig: [4u8; 64],
    };
    let b = tx.encode();
    assert_eq!(b[0], 0x0A);
    assert_eq!(b.len(), 1 + 4 + 32 + 32 + 32 + 8 + 8 + 8 + 64);
    assert_eq!(plain(&b).unwrap().encode(), b, "roundtrips");
    assert_eq!(tx.signing_bytes(), b[..b.len() - 64].to_vec());
    let mut extra = b.clone();
    extra.push(0);
    assert!(plain(&extra).is_none(), "trailing garbage rejected");
}

#[test]
fn the_other_transactions_roundtrip() {
    let txs = vec![
        (0x00u8, 0usize, Transaction::Register { pubkey: [1u8; 32], pow_nonce: 77 }),
        (0x02, 64, Transaction::CreateToken {
            ticker: "DOGE".to_string(), creator: [1u8; 32], supply: 5, sig: [2u8; 64],
        }),
        (0x04, 64, Transaction::Rollover { account: [1u8; 32], nonce: 9, sig: [2u8; 64] }),
        (0x05, 64, Transaction::DeployContract {
            deployer: [1u8; 32], code: vec![1, 2, 3], sig: [2u8; 64],
        }),
        (0x06, 64, Transaction::CallContract {
            contract: [1u8; 32], caller: [3u8; 32], input: 4, nonce: 5, sig: [2u8; 64],
        }),
        (0x0E, 0, Transaction::SlashEvidence {
            validator: [1u8; 32],
            beneficiary: [2u8; 32],
            height: 3,
            block_a: [4u8; 32],
            sig_a: [5u8; 64],
            block_b: [6u8; 32],
            sig_b: [7u8; 64],
        }),
    ];
    for (tag, sig, tx) in txs {
        let b = tx.encode();
        assert_eq!(b[0], tag);
        assert_eq!(plain(&b).expect("decodes").encode(), b);
        assert_eq!(tx.signing_bytes(), b[..b.len() - sig].to_vec());
        let mut extra = b.clone();
        extra.push(0);
        assert!(plain(&extra).is_none());
        for n in 0..b.len() {
            assert!(plain(&b[..n]).is_none());
        }
    }
    // The retired tag, and one that never was.
    assert!(plain(&[0x01; 200]).is_none());
    assert!(plain(&[0x16; 200]).is_none());
    assert!(plain(&[]).is_none());
    // A ticker that is not UTF-8.
    let mut b = Transaction::CreateToken {
        ticker: "DOGE".to_string(), creator: [1u8; 32], supply: 5, sig: [2u8; 64],
    }
    .encode();
    let at = b.windows(4).position(|w| w == b"DOGE").unwrap();
    b[at] = 0xFF;
    assert!(plain(&b).is_none());
}

#[test]
fn ids_and_vote_bytes_are_as_the_network_has_them() {
    let mut b = b"LAT-finality-v1\0".to_vec();
    b.extend_from_slice(&[7u8; 32]);
    b.extend_from_slice(&9u64.to_le_bytes());
    assert_eq!(finality_vote_signing_bytes(&[7u8; 32], 9), b);

    let mut b = b"LAT-htlc-v1".to_vec();
    b.extend_from_slice(&3u32.to_le_bytes());
    b.extend_from_slice(&[1u8; 32]);
    b.extend_from_slice(&[2u8; 32]);
    b.extend_from_slice(&500u64.to_le_bytes());
    b.extend_from_slice(&[4u8; 32]);
    b.extend_from_slice(&77u64.to_le_bytes());
    b.extend_from_slice(&6u64.to_le_bytes());
    assert_eq!(
        htlc_id(3, &[1u8; 32], &[2u8; 32], 500, &[4u8; 32], 77, 6),
        *blake3::hash(&b).as_bytes()
    );
}

// --- messages ------------------------------------------------------------------------------

// A message is all a peer can hand in: its decoder must take any bytes, and every
// encoding must read back. A fixed sequence, so that a failure shows again.

struct XorShift(u64);

impl XorShift {
    fn next(&mut self) -> u64 {
        let mut x = self.0;
        x ^= x << 13;
        x ^= x >> 7;
        x ^= x << 17;
        self.0 = x;
        x
    }

    fn below(&mut self, n: usize) -> usize {
        (self.next() % n.max(1) as u64) as usize
    }
}

/// One instance of every message (keep in step with `Msg`).
fn representative_msgs() -> Vec<Msg> {
    vec![
        Msg::GetTip,
        Msg::Tip(7),
        Msg::GetBlock(3),
        Msg::Block(None),
        Msg::Block(Some(vec![1, 2, 3])),
        Msg::NewBlock(vec![4; 60]),
        Msg::Ack(true),
        Msg::SubmitTx(vec![9; 40]),
        Msg::GetBalance { id: [1; 32], token: 2 },
        Msg::BalanceReply(None),
        Msg::BalanceReply(Some(vec![5; 64])),
        Msg::GetNonce([2; 32]),
        Msg::NonceReply(Some(11)),
        Msg::NonceReply(None),
        Msg::GetPending { id: [3; 32], token: 0 },
        Msg::Hello("10.0.0.1:4040".into()),
        Msg::GetPeers,
        Msg::Peers(vec!["a:1".into(), "b:2".into()]),
        Msg::FindCommon(vec![[4; 32], [5; 32]]),
        Msg::CommonHeight(9),
        Msg::GetPublicBalance { id: [6; 32], token: 1 },
        Msg::PublicBalanceReply(Some(1000)),
        Msg::PublicBalanceReply(None),
        Msg::GetRingCandidates { token: 0, max: 8 },
        Msg::RingCandidates(vec![([7; 32], [8; 64])]),
        Msg::Handshake { version: 2, genesis: [9; 32], addr: "x:1".into() },
        Msg::HandshakeAck { version: 2, genesis: [9; 32], accepted: true },
        Msg::GetContractStorage { contract: [10; 32], key: 5 },
        Msg::ContractStorageReply(77),
        Msg::GetPool(3),
        Msg::PoolReply(Some((1_000, 2_000, 1_414))),
        Msg::PoolReply(None),
        Msg::GetLpShares { token: 3, id: [11; 32] },
        Msg::GetHtlc([12; 32]),
        Msg::HtlcReply(Some((0, [1; 32], [2; 32], 777, [13; 32], 99))),
        Msg::HtlcReply(None),
        Msg::GetHtlcs,
        Msg::HtlcsReply(vec![([12; 32], 0, [1; 32], [2; 32], 777, [13; 32], 99)]),
        Msg::GetCurve(7),
        Msg::CurveReply(Some((3_000_000, 1_000_000_000, 500_000, false))),
        Msg::CurveReply(None),
        Msg::HasContract([11; 32]),
        Msg::FinalityVote(vec![12; 80]),
        Msg::FinalityCert(vec![13; 120]),
        Msg::GetFinalized,
        Msg::FinalizedReply(Some((4, [14; 32]))),
        Msg::FinalizedReply(None),
        Msg::GetStake([15; 32]),
        Msg::StakeReply(500, vec![(10, 20), (30, 40)]),
        Msg::NewTx(vec![16; 30]),
        Msg::BlockAnnounce { id: [17; 32], height: 6 },
        Msg::GetStateManifest,
        Msg::StateManifest {
            anchor_height: 42,
            anchor_id: [18; 32],
            record_count: 1000,
            chunk_count: 3,
        },
        Msg::GetStateChunk(2),
        Msg::StateChunk(vec![(vec![b'a'; 33], vec![1; 90]), (vec![b'n'; 33], vec![])]),
    ]
}

#[test]
fn every_msg_variant_round_trips() {
    for msg in representative_msgs() {
        let bytes = msg.encode();
        assert_eq!(Msg::decode(&bytes).as_ref(), Some(&msg), "round-trip failed: {msg:?}");
    }
}

#[test]
fn msg_decode_survives_random_and_mutated_input() {
    let mut rng = XorShift(0x1a7e_b12a_5eed_0001);

    // Pure random buffers across every tag byte and length regime.
    for i in 0..20_000usize {
        let len = rng.below(300) + usize::from(i % 100 == 0) * rng.below(4096);
        let mut buf = vec![0u8; len];
        for b in buf.iter_mut() {
            *b = rng.next() as u8;
        }
        if !buf.is_empty() {
            buf[0] = (i % 256) as u8; // sweep tags incl. undefined ones
        }
        let _ = Msg::decode(&buf); // must not panic
    }

    // Valid encodings, damaged: byte flips, truncations, extensions.
    let originals: Vec<Vec<u8>> = representative_msgs().iter().map(Msg::encode).collect();
    for _ in 0..20_000 {
        let mut buf = originals[rng.below(originals.len())].clone();
        match rng.below(3) {
            0 if !buf.is_empty() => {
                let i = rng.below(buf.len());
                buf[i] ^= (rng.next() as u8) | 1;
            }
            1 => {
                let cut = rng.below(buf.len() + 1);
                buf.truncate(cut);
            }
            _ => {
                for _ in 0..rng.below(16) + 1 {
                    buf.push(rng.next() as u8);
                }
            }
        }
        if let Some(decoded) = Msg::decode(&buf) {
            // Whatever decoded must itself re-encode decodably.
            assert_eq!(Msg::decode(&decoded.encode()), Some(decoded));
        }
    }
}

#[test]
fn a_message_is_read_from_its_first_bytes() {
    assert_eq!(Msg::decode(&[]), None);
    let mut b = Msg::Tip(7).encode();
    assert_eq!(b, vec![1, 7, 0, 0, 0, 0, 0, 0, 0]);
    b.push(0);
    assert_eq!(Msg::decode(&b), Some(Msg::Tip(7)));
    assert_eq!(Msg::decode(&b[..8]), None);
    // A flag that is not zero is set.
    let mut b = Msg::Ack(true).encode();
    b[1] = 2;
    assert_eq!(Msg::decode(&b), Some(Msg::Ack(true)));
    // An address of 500 bytes is refused.
    assert_eq!(Msg::decode(&Msg::Hello("x".repeat(500)).encode()), None);
}
