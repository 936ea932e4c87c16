use latebra::address::{Address, Network};
use latebra::amounts::{amount_string, parse_amount, UNITS};
use latebra::bridge::{self, BridgeError, Chain};
use latebra::chain_index::{activity_json, Direction, Event, Index, MAX_ROWS};
use latebra::cli::{self, Command, FlagError};
use latebra::desk::{self, Action, DeskSwap, Event as DeskEvent, SwapError, USDC_SUPPLY};
use latebra::market::{
    curve_open, least_out, no_pool_json, pool_json, pool_swap, quote, sides, swaps_lat, QuoteError,
};
use latebra::numbers::{decimal_string, parse_u64};
use latebra::params::Params;
use latebra::ticker::normalize_ticker;
use latebra::transaction::{htlc_id, AnonTransfer, SolventTransfer, Transaction};
use latebra::wallet::{
    affordable, choose_ring, scan_stealth, with_signature, StealthReceipt, Wallet, BALANCE_BITS,
    DEFAULT_RING_SIZE,
};
use latebra::web::{self, RequestError, Route};
use sha2::Digest;

fn wallet() -> Wallet {
    Wallet::from_seed(Network::Testnet, [7u8; 32], [1u8; 32])
}

fn address(n: u8) -> Address {
    Address::new(Network::Testnet, [n; 32])
}

fn params(pairs: &[(&str, &str)]) -> Params {
    let mut p = Params::new();
    for (k, v) in pairs {
        p.insert(k.to_string(), v.to_string());
    }
    p
}

// --- numbers -------------------------------------------------------------------------------

#[test]
fn numbers_are_written_and_read() {
    for n in [0u64, 7, 10, 1_234_567, u64::MAX] {
        assert_eq!(decimal_string(n), n.to_string());
        assert_eq!(parse_u64(&decimal_string(n)), Some(n));
    }
    assert_eq!(parse_u64("+12"), Some(12));
    assert_eq!(parse_u64("007"), Some(7));
    assert_eq!(parse_u64(""), None);
    assert_eq!(parse_u64("+"), None);
    assert_eq!(parse_u64("-1"), None);
    assert_eq!(parse_u64("1 "), None);
    assert_eq!(parse_u64("18446744073709551616"), None);
}

#[test]
fn amounts_are_written_and_read() {
    assert_eq!(amount_string(0), "0.00000");
    assert_eq!(amount_string(123_456), "1.23456");
    assert_eq!(amount_string(7), "0.00007");
    assert_eq!(parse_amount("1.5"), Some(150_000));
    assert_eq!(parse_amount("1"), Some(UNITS));
    assert_eq!(parse_amount("0.00001"), Some(1));
    assert_eq!(parse_amount("1.999999"), Some(199_999), "further decimals are ignored");
    assert_eq!(parse_amount("1.2.3"), None);
    assert_eq!(parse_amount("x"), None);
    for n in [0u64, 1, 99_999, 100_000, 250_000_000, u64::MAX] {
        assert_eq!(parse_amount(&amount_string(n)), Some(n));
    }
}

#[test]
fn tickers_are_normalized() {
    assert_eq!(normalize_ticker(" $doge "), Some("DOGE".to_string()));
    assert_eq!(normalize_ticker("lat2"), Some("LAT2".to_string()));
    assert_eq!(normalize_ticker("$"), None);
    assert_eq!(normalize_ticker("a b"), None);
    assert_eq!(normalize_ticker("elevenchars"), None);
}

// --- the wallet ------------------------------------------------------------------------------

#[test]
fn what_the_wallet_builds_names_its_account() {
    let w = wallet();
    let to = address(2);
    let tx = w.build_public_transfer(&to, 3, 500, 9, 4);
    match &tx {
        Transaction::PublicTransfer { token, from, to, amount, fee, nonce, sig } => {
            assert_eq!((*token, *amount, *fee, *nonce), (3, 500, 9, 4));
            assert_eq!((*from, *to, *sig), ([1u8; 32], [2u8; 32], [0u8; 64]));
        }
        _ => panic!("a public transfer was expected"),
    }
    let body = tx.signing_bytes();
    let signed = with_signature(tx, [5u8; 64]);
    assert_eq!(signed.signing_bytes(), body, "a signature is not part of what is signed");
    assert_eq!(signed.encode()[body.len()..], [5u8; 64]);
}

#[test]
fn a_transfer_is_made_only_where_it_is_covered() {
    let w = wallet();
    assert!(affordable(10, 9, 1));
    assert!(!affordable(10, 10, 1));
    assert!(!affordable(u64::MAX, u64::MAX, 1));
    assert!(w.create_public_transfer(Some(0), Some(10), &address(2), 0, 9, 1).is_some());
    assert!(w.create_public_transfer(Some(0), Some(10), &address(2), 0, 10, 1).is_none());
    assert!(w.create_public_transfer(None, Some(10), &address(2), 0, 1, 1).is_none());
    assert!(w.create_shield(Some(0), None, &address(2), 0, 1, 1).is_none());
    assert!(matches!(
        w.create_shield(Some(8), Some(10), &address(2), 0, 1, 1),
        Some(Transaction::Shield { nonce: 8, .. })
    ));
    assert!(matches!(
        w.create_shield_stealth(Some(8), Some(10), [3u8; 32], [4u8; 32], 0, 1, 1),
        Some(Transaction::ShieldStealth { one_time, .. }) if one_time == [4u8; 32]
    ));
}

#[test]
fn a_one_time_key_has_a_wallet_without_a_backup() {
    let w = Wallet::from_secret(Network::Mainnet, [4u8; 32]);
    assert_eq!((w.id(), w.seed), ([4u8; 32], [0u8; 32]));
    assert!(matches!(
        w.registration_tx(9),
        Transaction::Register { pubkey, pow_nonce: 9 } if pubkey == [4u8; 32]
    ));
}

#[test]
fn an_anonymous_spend_needs_funds_and_company() {
    let w = wallet();
    let candidates: Vec<([u8; 32], [u8; 64])> = (0..6u8).map(|i| ([i; 32], [i; 64])).collect();
    let draws = vec![3u64; 16];
    let ring = |balance, others: &[([u8; 32], [u8; 64])]| {
        w.anon_ring(balance, 90, 10, [9u8; 64], others, 4, 16, &draws)
    };
    let (members, at) = ring(Some(100), &candidates).unwrap();
    assert_eq!(members.len(), 4);
    assert_eq!(members[at], ([1u8; 32], [9u8; 64]));
    assert!(ring(Some(99), &candidates).is_none());
    assert!(ring(None, &candidates).is_none());
    assert!(ring(Some(100), &[]).is_none());
    assert!(ring(Some(100), &[([1u8; 32], [1u8; 64])]).is_none(), "only itself");
    assert!(cli::weakly_hidden(4) && !cli::weakly_hidden(5));
}

#[test]
fn a_drawn_ring_holds_the_sender_whatever_is_drawn() {
    let w = wallet();
    let candidates: Vec<([u8; 32], [u8; 64])> = (0..20u8).map(|i| ([i; 32], [i; 64])).collect();
    let mut places = [0usize; 8];
    for _ in 0..100 {
        let (ring, at) =
            w.draw_ring(Some(100), 90, 10, [9u8; 64], &candidates, 8, 16).unwrap().unwrap();
        assert_eq!(ring.len(), 8);
        assert_eq!(ring[at], ([1u8; 32], [9u8; 64]));
        for i in 0..ring.len() {
            for j in 0..i {
                assert_ne!(ring[i].0, ring[j].0);
            }
        }
        places[at] += 1;
    }
    assert!(places.iter().filter(|n| **n > 0).count() > 1, "the place is drawn");
    assert_eq!(w.draw_ring(Some(99), 90, 10, [9u8; 64], &candidates, 8, 16), Ok(None));
    assert_eq!(w.draw_ring(Some(100), 90, 10, [9u8; 64], &[], 8, 16), Ok(None));
}

#[test]
fn a_fresh_lock_is_under_its_secret() {
    assert_eq!(bridge::fresh_lock(Some([4u8; 32])), Ok(([4u8; 32], None)));
    let (lock, secret) = bridge::fresh_lock(None).unwrap();
    let secret = secret.unwrap();
    assert_eq!(lock, cli::hashlock(&secret));
    let (_, other) = bridge::fresh_lock(None).unwrap();
    assert_ne!(other, Some(secret));
    assert_eq!(bridge::lock_under(None, [5u8; 32]), (cli::hashlock(&[5u8; 32]), Some([5u8; 32])));

    let given = params(&[("secret", &"06".repeat(32))]);
    assert_eq!(cli::secret_from(&given), Ok([6u8; 32]));
    assert_eq!(cli::secret_from(&params(&[("secret", "06")])), Err(FlagError::BadLength));
    assert_ne!(cli::secret_from(&Params::new()), cli::secret_from(&Params::new()));
}

#[test]
fn a_lock_comes_with_its_id() {
    let (tx, id) = wallet().htlc_lock(0, &address(2), 500, [3u8; 32], 77, 9, 4);
    assert!(matches!(tx, Transaction::HtlcLock { expiry: 77, nonce: 4, .. }));
    assert_eq!(id, htlc_id(0, &[1u8; 32], &[2u8; 32], 500, &[3u8; 32], 77, 4));
}

fn solvent(to: [u8; 32]) -> Transaction {
    Transaction::SolventTransfer {
        token: 1,
        xfer: SolventTransfer {
            sender: [9u8; 32],
            receiver: to,
            fee: 0,
            nonce: 0,
            sender_ct: [0u8; 64],
            receiver_ct: [0u8; 64],
            bytes: vec![],
        },
    }
}

fn anon(one_time: [u8; 32]) -> Transaction {
    Transaction::AnonTransfer {
        token: 2,
        xfer: AnonTransfer {
            ring: vec![],
            balances: vec![],
            enc: vec![],
            credit: [0u8; 64],
            ephemeral: [0u8; 32],
            one_time,
            nullifier: [0u8; 32],
            epoch: 0,
            fee: 0,
            bytes: vec![],
        },
    }
}

#[test]
fn a_block_is_scanned_for_payments() {
    let w = wallet();
    let public = |to: [u8; 32], amount| Transaction::PublicTransfer {
        token: 0, from: [9u8; 32], to, amount, fee: 1, nonce: 0, sig: [0u8; 64],
    };
    let txs = vec![
        public([1u8; 32], 10),
        public([2u8; 32], 20),
        solvent([1u8; 32]),
        solvent([1u8; 32]),
        anon([6u8; 32]),
    ];
    let opened = vec![None, None, Some(33), None, Some(44)];
    assert_eq!(w.scan_received(&txs, &opened), vec![(0, 10), (1, 33)]);

    let mine = vec![false, false, false, false, true];
    let receipt = StealthReceipt { index: 4, one_time: [6u8; 32], token: 2, amount: 44 };
    assert_eq!(scan_stealth(&txs, &mine, &opened), vec![receipt]);
    let none = vec![None; 5];
    let empty = StealthReceipt { amount: 0, ..receipt };
    assert_eq!(scan_stealth(&txs, &mine, &none), vec![empty]);
}

#[test]
fn a_ring_holds_the_sender_and_distinct_decoys() {
    let me = ([1u8; 32], [1u8; 64]);
    let candidates: Vec<([u8; 32], [u8; 64])> = (0..10u8).map(|i| ([i; 32], [i; 64])).collect();
    let draws = vec![5u64, 123, 7, 99, 1_000_003, 4, 8, 15, 16, 23];
    let (ring, at) = choose_ring(&candidates, me, 4, 16, &draws).unwrap();
    assert_eq!(ring.len(), 4, "self + 3 decoys");
    assert_eq!(ring[at], me);
    for i in 0..ring.len() {
        for j in 0..i {
            assert_ne!(ring[i].0, ring[j].0);
        }
    }
    // The whole pool, at most.
    let (ring, _) = choose_ring(&candidates, me, 64, 64, &draws).unwrap();
    assert_eq!(ring.len(), 10);
    // A ring has at least two members, and is none where nobody else is there.
    let (ring, _) = choose_ring(&candidates, me, 0, 16, &draws).unwrap();
    assert_eq!(ring.len(), 2);
    assert!(choose_ring(&[me], me, 4, 16, &draws).is_none());
}

// --- the command line ----------------------------------------------------------------------------

#[test]
fn commands_have_names() {
    assert_eq!(cli::command("new"), Command::New);
    assert_eq!(cli::command("anon-send"), Command::AnonSend);
    assert_eq!(cli::command("call-contract"), Command::CallContract);
    assert_eq!(cli::command("launch"), Command::Help);
}

#[test]
fn flags_are_pairs() {
    let args: Vec<String> =
        ["send", "--to", "x", "--fee", "1", "--to", "y", "--last"].iter().map(|s| s.to_string()).collect();
    let p = cli::parse_flags(&args);
    assert_eq!(p.get("to"), Some(&"y".to_string()));
    assert_eq!(p.get("fee"), Some(&"1".to_string()));
    assert_eq!(p.get("last"), None);
    assert_eq!(p.get("send"), None);
}

#[test]
fn every_flag_error_has_its_input() {
    let p = params(&[
        ("amount", "1.5"),
        ("fee", "0.00001"),
        ("token", "x"),
        ("supply", "0"),
        ("in", "gold"),
        ("code", ""),
        ("id", "zz"),
        ("short", "abcd"),
        ("bad", "1.2.3"),
        ("network", "mainnet"),
    ]);
    assert_eq!(cli::require_amount(&p), Ok(150_000));
    assert_eq!(cli::require_lat(&p, "none"), Err(FlagError::Missing));
    assert_eq!(cli::require_lat(&p, "bad"), Err(FlagError::BadAmount));
    assert_eq!(cli::parse_lat("1,5"), Err(FlagError::BadAmount));
    assert_eq!(cli::fee_from(&p, 1_000), Err(FlagError::FeeTooLow));
    assert_eq!(cli::fee_from(&p, 1), Ok(1));
    assert_eq!(cli::fee_from(&Params::new(), 1_000), Ok(1_000));
    assert_eq!(cli::require_token(&p), Err(FlagError::BadNumber));
    assert_eq!(cli::token_or_lat(&p), 0);
    assert_eq!(cli::supply_from(&p), Err(FlagError::NoSupply));
    assert_eq!(cli::pays_lat(&p), Err(FlagError::BadSide));
    assert_eq!(cli::pays_lat(&params(&[("in", "token")])), Ok(false));
    assert_eq!(cli::code_from(&p), Err(FlagError::NoCode));
    assert_eq!(cli::code_from(&params(&[("code", "0102ff")])), Ok(vec![1, 2, 255]));
    assert_eq!(cli::require_hex32(&p, "id"), Err(FlagError::BadHex));
    assert_eq!(cli::require_hex32(&p, "short"), Err(FlagError::BadLength));
    assert_eq!(cli::network_from(&p), Network::Mainnet);
    assert_eq!(cli::network_from(&Params::new()), Network::Testnet);
    assert_eq!(cli::ring_size_from(&Params::new()), Ok(DEFAULT_RING_SIZE));
    assert_eq!(cli::ring_size_from(&params(&[("ring", "x")])), Err(FlagError::BadNumber));
    assert_eq!(cli::input_from(&Params::new()), Ok(0));
    assert_eq!(cli::units_or(&Params::new(), "min-out", 3), 3);
    assert_eq!(cli::amount_from(&params(&[("amount", "2")]), true), Ok(2 * UNITS));
    assert_eq!(cli::amount_from(&params(&[("amount", "2")]), false), Ok(2));
}

#[test]
fn shown_values_read_back() {
    assert_eq!(cli::lat(150_000), "1.50000 LAT");
    let b = [0xabu8; 32];
    assert_eq!(cli::hex32(&b), "ab".repeat(32));
    assert_eq!(cli::parse_hex32(&cli::hex32(&b)), Ok(b));
    assert_eq!(cli::lock_expiry(10, 5), Some(15));
    assert_eq!(cli::lock_expiry(u64::MAX, 1), None);
}

#[test]
fn a_hashlock_is_the_sha256_of_its_secret() {
    let expected: [u8; 32] = sha2::Sha256::digest([4u8; 32]).into();
    assert_eq!(cli::hashlock(&[4u8; 32]), expected);
    assert_eq!(
        cli::hex32(&cli::hashlock(&[0u8; 32])),
        "66687aadf862bd776c8fc18b8e9f8e20089714856ee233b3902a591d0d5f2925"
    );
}

// --- the browser wallet ------------------------------------------------------------------------------

#[test]
fn requests_are_taken_apart() {
    assert_eq!(web::request_target("GET /api/new?net=mainnet HTTP/1.1"), "/api/new?net=mainnet");
    assert_eq!(web::request_target("GET"), "/");
    let (path, p) = web::parse_target("/api/send?to=lat1x&amount=1%2E5&memo=a+b&flag&to=lat1y");
    assert_eq!(web::route(&path), Route::Send);
    assert_eq!(p.get("to"), Some(&"lat1y".to_string()));
    assert_eq!(p.get("amount"), Some(&"1.5".to_string()));
    assert_eq!(p.get("memo"), Some(&"a b".to_string()));
    assert_eq!(web::lat_param(&p, "amount"), Some(150_000));
    assert_eq!(web::route("/"), Route::Page);
    assert_eq!(web::route("/api/dex/swap"), Route::DexSwap);
    assert_eq!(web::route("/etc"), Route::NotFound);
    assert_eq!(web::network(&params(&[("net", "mainnet")])), Network::Mainnet);
    assert_eq!(web::network(&p), Network::Testnet);
    assert_eq!(web::node(&p), "127.0.0.1:4040");
    assert_eq!(web::node(&params(&[("node", "h:1")])), "h:1");
}

#[test]
fn quoted_text_is_decoded() {
    assert_eq!(web::url_decode("a%20b+c"), "a b c");
    assert_eq!(web::url_decode("%C3%A9"), "é");
    assert_eq!(web::url_decode("100%"), "100%");
    assert_eq!(web::url_decode("%zz"), "%zz");
    assert_eq!(web::url_decode("%FF"), "\u{FFFD}", "what is no text is replaced");
}

#[test]
fn every_request_error_has_its_input() {
    let seed = "07".repeat(32);
    let good = params(&[("seed", &seed), ("amount", " 2 ")]);
    assert_eq!(web::seed_and_amount(&good), Ok(([7u8; 32], 2 * UNITS)));
    assert_eq!(web::seed_param(&good), Some([7u8; 32]));
    let p = params(&[("seed", "07"), ("amount", "2")]);
    assert_eq!(web::seed_and_amount(&p), Err(RequestError::InvalidSeed));
    let p = params(&[("seed", &seed), ("amount", "two")]);
    assert_eq!(web::seed_and_amount(&p), Err(RequestError::InvalidAmount));
    assert_eq!(web::shares_param(&params(&[("lp", " 5 ")])), Some(5));
    assert_eq!(web::shares_param(&params(&[("lp", "0")])), None);
    assert_eq!(web::parse_lat(" 1.5 "), Some(150_000));
    assert_eq!(web::parse_lat("184467440737096"), None, "too many units");
}

#[test]
fn replies_are_json() {
    assert_eq!(web::esc("a\"b\\c"), "a\\\"b\\\\c");
    assert_eq!(web::ok("done"), "{\"ok\":true,\"msg\":\"done\"}");
    assert_eq!(web::err("no \"x\""), "{\"ok\":false,\"error\":\"no \\\"x\\\"\"}");
    assert_eq!(
        web::balance_json("lat1x", 150_000, 1, 50_000, 0),
        "{\"registered\":true,\"address\":\"lat1x\",\"spendable\":\"1.50000\",\"pending\":\"0.00001\",\
         \"public\":\"0.50000\",\"total\":\"2.00000\",\"usdc\":\"0.00000\"}"
    );
    assert_eq!(
        web::http_response("text/plain", "é"),
        "HTTP/1.1 200 OK\r\nContent-Type: text/plain\r\nConnection: close\r\nContent-Length: 2\r\n\r\né"
    );
}

// --- the chain's index -----------------------------------------------------------------------------------

#[test]
fn the_index_follows_the_chain() {
    let creator = [1u8; 32];
    let other = [2u8; 32];
    let mut index = Index::new();
    let create = Transaction::CreateToken {
        ticker: "$usdc".to_string(), creator, supply: 1_000, sig: [0u8; 64],
    };
    let pay = |amount, from, to| Transaction::PublicTransfer {
        token: 1, from, to, amount, fee: 0, nonce: 0, sig: [0u8; 64],
    };
    index.index_block(100, &[0u8; 32], 50, &[create]);
    index.index_block(200, &other, 50, &[pay(400, creator, other), pay(100, other, creator)]);
    assert_eq!(index.next, 2);
    assert_eq!(index.token_named("USDC"), Some(1));
    assert_eq!(index.token_by_ticker("usdc"), Some(1));
    assert_eq!(index.token_by_ticker("lat"), Some(0));
    assert_eq!(index.token_by_ticker("none"), None);
    assert_eq!(index.ticker_of(0), "LAT");
    assert_eq!(index.ticker_of(1), "USDC");
    assert_eq!(index.entries[1].event, Event::Mined);

    let rows = index.activity(&other);
    let labels: Vec<&str> = rows.iter().map(|r| r.label).collect();
    assert_eq!(labels, vec!["Sent", "Received", "Mined"], "newest first");
    assert_eq!(rows[0].direction, Direction::Outgoing);
    assert_eq!(rows[0].other, Some(creator));
    assert_eq!(
        index.row_json(&rows[0], "lat1x"),
        "{\"label\":\"Sent\",\"dir\":\"out\",\"amount\":\"0.00100\",\"token\":\"USDC\",\
         \"other\":\"lat1x\",\"h\":1,\"ts\":200}"
    );
    assert_eq!(
        activity_json(&vec!["{1}".to_string(), "{2}".to_string()]),
        "{\"ok\":true,\"txs\":[{1},{2}]}"
    );
}

#[test]
fn activity_shows_the_newest_rows() {
    let mut index = Index::new();
    let txs: Vec<Transaction> = (0..60u64)
        .map(|i| Transaction::PublicTransfer {
            token: 0, from: [1u8; 32], to: [2u8; 32], amount: i, fee: 0, nonce: i, sig: [0u8; 64],
        })
        .collect();
    index.index_block(1, &[0u8; 32], 0, &txs);
    let rows = index.activity(&[1u8; 32]);
    assert_eq!(rows.len(), MAX_ROWS);
    assert_eq!(rows[0].amount, Some(59));
    assert_eq!(rows[MAX_ROWS - 1].amount, Some(10));
    // What a private transfer moves is not shown.
    index.index_block(2, &[0u8; 32], 0, &[solvent([3u8; 32])]);
    let rows = index.activity(&[3u8; 32]);
    assert_eq!((rows[0].label, rows[0].amount), ("Private receive", None));
    assert!(index.row_json(&rows[0], "").contains("\"amount\":null"));
}

#[test]
fn an_issuer_sells_what_it_holds() {
    let issuer = [1u8; 32];
    let mut index = Index::new();
    let create = Transaction::CreateToken {
        ticker: "USDC".to_string(), creator: issuer, supply: 1_000, sig: [0u8; 64],
    };
    let unshield = Transaction::Unshield {
        token: 1,
        to: [2u8; 32],
        amount: 300,
        xfer: SolventTransfer {
            sender: issuer,
            receiver: [9u8; 32],
            fee: 10,
            nonce: 0,
            sender_ct: [0u8; 64],
            receiver_ct: [0u8; 64],
            bytes: vec![],
        },
        sig: [0u8; 64],
    };
    index.index_block(1, &[0u8; 32], 0, &[create]);
    assert_eq!(index.inventory(1, &issuer), 1_000);
    index.index_block(2, &[0u8; 32], 0, &[unshield]);
    assert_eq!(index.inventory(1, &issuer), 690);
    assert_eq!(index.inventory(1, &[5u8; 32]), 0);
}

// --- swaps ----------------------------------------------------------------------------------------------

#[test]
fn a_quote_keeps_the_pool() {
    // 1000 * 9970 * 1_000_000 / (1_000_000 * 10_000 + 1000 * 9970)
    assert_eq!(quote(1_000, 1_000_000, 1_000_000), Some(996));
    assert_eq!(quote(0, 10, 10), Some(0));
    assert_eq!(quote(0, 0, 0), None);
    let out = quote(12_345, 777_777, 888_888).unwrap();
    assert!((777_777u128 + 12_345) * (888_888 - out as u128) >= 777_777 * 888_888);
    assert_eq!(least_out(996, None), 987);
    assert_eq!(least_out(996, Some(5)), 5);
    assert_eq!(sides(true, 1, 2), (1, 2));
    assert_eq!(sides(false, 1, 2), (2, 1));
}

#[test]
fn a_pool_swap_is_quoted_with_its_slippage() {
    assert_eq!(pool_swap(true, 1_000, 1_000_000, 1_000_000, None), Ok((996, 987)));
    assert_eq!(pool_swap(false, 1_000, 1_000_000, 2_000_000, Some(3)), Ok((498, 3)));
    assert_eq!(pool_swap(true, 1, 1_000_000, 10, None), Err(QuoteError::TooSmall));
    assert_eq!(
        pool_swap(true, u64::MAX, 1, u64::MAX, None),
        Err(QuoteError::TooLarge)
    );
    assert!(swaps_lat(&params(&[("from", "lat")]), "usdc"));
    assert!(!swaps_lat(&params(&[("from", "usdc")]), "USDC"));
    assert!(swaps_lat(&Params::new(), "USDC"));
    assert!(curve_open(&None));
    assert!(curve_open(&Some((1, 2, 3, false))));
    assert!(!curve_open(&Some((1, 2, 3, true))));
    assert_eq!(
        pool_json(3, 150_000, 100_000, 5, 2, "1.500000"),
        "{\"ok\":true,\"exists\":true,\"token\":3,\"lat\":\"1.50000\",\"tok\":\"1.00000\",\
         \"lp\":5,\"myLp\":2,\"price\":1.500000}"
    );
    assert_eq!(no_pool_json(3), "{\"ok\":true,\"exists\":false,\"token\":3,\"myLp\":0}");
}

fn at_the_desk(pays_lat: bool, events: Vec<DeskEvent>) -> (DeskSwap, Action) {
    let (mut s, mut a) = DeskSwap::start(pays_lat, 100, 1);
    for e in events {
        a = s.step(e);
    }
    (s, a)
}

fn fails_with(pays_lat: bool, events: Vec<DeskEvent>) -> SwapError {
    match at_the_desk(pays_lat, events).1 {
        Action::Fail(e) => e,
        _ => panic!("a failure was expected"),
    }
}

#[test]
fn the_desk_pays_after_both_sides_were_found_solvent() {
    let (mut s, a) = DeskSwap::start(true, 100, 1);
    assert!(matches!(a, Action::FindToken));
    assert!(matches!(s.step(DeskEvent::Token(Some(3))), Action::FindPrice));
    assert!(matches!(s.step(DeskEvent::Price(240)), Action::FindBalance(0)));
    assert!(matches!(s.step(DeskEvent::Balance(Some(101))), Action::FindNonce));
    assert!(matches!(s.step(DeskEvent::Nonce(Some(7))), Action::FindDeskNonce));
    assert!(matches!(s.step(DeskEvent::DeskNonce(Some(8))), Action::FindHoldings));
    assert!(matches!(s.step(DeskEvent::Holdings(Some(241))), Action::Prove));
    assert!(matches!(s.step(DeskEvent::Proven(true)), Action::SendPayment));
    assert!(matches!(s.step(DeskEvent::Sent(true)), Action::SendPayout));
    assert!(matches!(s.step(DeskEvent::Sent(true)), Action::Finish));
    assert_eq!((s.usdc, s.received, s.nonce, s.desk_nonce), (3, 240, 7, 8));

    // LAT is paid out in public: there is nothing to prove.
    let (s, a) = at_the_desk(false, vec![
        DeskEvent::Token(Some(3)),
        DeskEvent::Price(42),
        DeskEvent::Balance(Some(101)),
        DeskEvent::Nonce(Some(7)),
        DeskEvent::DeskNonce(Some(8)),
        DeskEvent::Holdings(Some(43)),
    ]);
    assert!(matches!(a, Action::SendPayment));
    assert_eq!(s.pays_with(), 3);
}

#[test]
fn every_swap_error_has_its_run() {
    let to_holdings = || vec![
        DeskEvent::Token(Some(3)),
        DeskEvent::Price(42),
        DeskEvent::Balance(Some(101)),
        DeskEvent::Nonce(Some(7)),
        DeskEvent::DeskNonce(Some(8)),
    ];
    let then = |mut v: Vec<DeskEvent>, more: Vec<DeskEvent>| {
        v.extend(more);
        v
    };
    assert_eq!(fails_with(true, vec![DeskEvent::Token(None)]), SwapError::Opening);
    let price = |n| vec![DeskEvent::Token(Some(3)), DeskEvent::Price(n)];
    assert_eq!(fails_with(true, price(0)), SwapError::TooSmall);
    for b in [None, Some(100)] {
        assert_eq!(fails_with(true, then(price(5), vec![DeskEvent::Balance(b)])), SwapError::Insufficient);
    }
    let funded = then(price(5), vec![DeskEvent::Balance(Some(101)), DeskEvent::Nonce(None)]);
    assert_eq!(fails_with(true, funded), SwapError::NotRegistered);
    let known = |e| then(price(5), vec![DeskEvent::Balance(Some(101)), DeskEvent::Nonce(Some(1)), e]);
    assert_eq!(fails_with(true, known(DeskEvent::DeskNonce(None))), SwapError::NoDesk);
    assert_eq!(fails_with(true, known(DeskEvent::Unreachable)), SwapError::NoDesk);
    let held = |h| then(to_holdings(), vec![DeskEvent::Holdings(h)]);
    assert_eq!(fails_with(true, held(None)), SwapError::NoDesk);
    assert_eq!(fails_with(true, held(Some(42))), SwapError::OutOfUsdc);
    assert_eq!(fails_with(false, held(Some(42))), SwapError::OutOfLat);
    assert_eq!(fails_with(false, held(None)), SwapError::OutOfLat);
    assert_eq!(
        fails_with(true, then(to_holdings(), vec![DeskEvent::Unreadable])),
        SwapError::BadDeskData
    );
    assert_eq!(
        fails_with(true, then(held(Some(43)), vec![DeskEvent::Proven(false)])),
        SwapError::Unproven
    );
    assert_eq!(
        fails_with(false, then(held(Some(43)), vec![DeskEvent::Sent(false)])),
        SwapError::Rejected
    );
    assert_eq!(
        fails_with(false, then(held(Some(43)), vec![DeskEvent::Sent(true), DeskEvent::Sent(false)])),
        SwapError::DeskLeg
    );
    assert_eq!(
        fails_with(false, then(held(Some(43)), vec![DeskEvent::Sent(true), DeskEvent::Unreachable])),
        SwapError::DeskLeg
    );
    assert_eq!(fails_with(true, vec![DeskEvent::Unreachable]), SwapError::Unreachable);
    assert_eq!(desk::tell(SwapError::Unreachable, "LAT", "h:1"), "cannot reach node at h:1");
    assert_eq!(
        desk::tell(SwapError::Insufficient, "LAT", "h:1"),
        "insufficient public LAT balance (amount + fee) — swaps use your PUBLIC balance"
    );
}

#[test]
fn the_desk_is_on_the_test_network() {
    assert!(desk::desk_open(Network::Testnet));
    assert!(!desk::desk_open(Network::Mainnet));
    assert_eq!(desk::desk_seed(), [42u8; 32]);
    assert_eq!(desk::FAUCET_LAT, 100 * UNITS);
    assert!(USDC_SUPPLY < 1u64 << BALANCE_BITS, "a balance proof can show it");
    assert_eq!(desk::side(&params(&[("from", "lat")])), Some(true));
    assert_eq!(desk::side(&params(&[("from", "Usdc")])), Some(false));
    assert_eq!(desk::side(&params(&[("from", "btc")])), None);
    assert_eq!(desk::side(&Params::new()), None);
}

#[test]
fn the_other_leg_is_shown() {
    let leg = bridge::Leg {
        ticker: "BTC".to_string(),
        deposit: "bc1\"x".to_string(),
        script: "a820".to_string(),
        instructions: "send".to_string(),
        claim: "reveal".to_string(),
        refund: "wait".to_string(),
    };
    assert_eq!(
        bridge::quote_json(&leg, &[1u8; 32], &None, 9),
        format!(
            "{{\"ok\":true,\"chain\":\"BTC\",\"hashlock\":\"{}\",\"preimage\":\"\",\
             \"deposit\":\"bc1\\\"x\",\"scriptHex\":\"a820\",\"instructions\":\"send\",\
             \"claim\":\"reveal\",\"refund\":\"wait\",\"timelock\":9}}",
            "01".repeat(32)
        )
    );
    assert_eq!(web::wallet_json("s", "a"), "{\"seed\":\"s\",\"address\":\"a\"}");
    assert_eq!(web::address_json("a"), "{\"address\":\"a\"}");
    assert_eq!(web::unregistered_json("a"), "{\"registered\":false,\"address\":\"a\"}");
}

#[test]
fn every_bridge_error_has_its_input() {
    let terms = |pairs: &[(&str, &str)]| bridge::bridge_terms(&params(pairs), Network::Testnet);
    let fails = |pairs: &[(&str, &str)]| terms(pairs).err();
    assert_eq!(fails(&[("chain", "btc")]), Some(BridgeError::Amount));
    assert_eq!(fails(&[("chain", "btc"), ("amount", "0")]), Some(BridgeError::Amount));
    assert_eq!(
        fails(&[("chain", "btc"), ("amount", "5"), ("hashlock", "abcd")]),
        Some(BridgeError::Hashlock)
    );
    assert_eq!(fails(&[("amount", "5")]), Some(BridgeError::Chain));
    assert_eq!(fails(&[("chain", "doge"), ("amount", "5")]), Some(BridgeError::Chain));
    assert_eq!(
        fails(&[("chain", "eth"), ("amount", "5"), ("recipient", "ab")]),
        Some(BridgeError::Recipient)
    );
    assert_eq!(
        fails(&[("chain", "eth"), ("amount", "5"), ("refund", "ab")]),
        Some(BridgeError::Refund)
    );

    let t = terms(&[("chain", "ETH"), ("amount", " 5 "), ("recipient", &"ab".repeat(20))]).unwrap();
    assert_eq!(t.chain, Chain::Evm);
    assert_eq!((t.amount, t.hashlock, t.timelock), (5, None, 1_900_000_000));
    assert_eq!(t.recipient, vec![0xab; 20]);
    assert_eq!(t.refund, vec![0x03; 20]);
    assert_eq!((t.holder, t.chain_id), (vec![0x11; 20], 11_155_111));
    let t = terms(&[("chain", "Btc"), ("amount", "7"), ("timelock", "9"), ("hashlock", &"04".repeat(32))])
        .unwrap();
    assert_eq!((t.chain, t.timelock, t.hashlock), (Chain::Bitcoin, 9, Some([4u8; 32])));
    assert!(t.holder.is_empty());
    let t = terms(&[("chain", "sol"), ("amount", "7")]).unwrap();
    assert_eq!((t.chain, t.holder), (Chain::Solana, vec![0x05; 32]));
}

#[test]
fn locks_are_shown() {
    assert_eq!(bridge::lock_expiry(&Params::new(), 100), Some(340));
    assert_eq!(bridge::lock_expiry(&params(&[("blocks", "1")]), 100), Some(110));
    assert_eq!(bridge::lock_expiry(&params(&[("blocks", "999999")]), 0), Some(100_000));
    assert_eq!(bridge::lock_expiry(&Params::new(), u64::MAX), None);
    assert_eq!(bridge::id_param(&params(&[("id", &"0a".repeat(32))]), "id"), Some([10u8; 32]));
    assert_eq!(bridge::id_param(&params(&[("id", "0a")]), "id"), None);
    assert_eq!(bridge::lock_hashlock(&Params::new()), Ok(None));
    assert!(bridge::lists(&[1u8; 32], &[2u8; 32], &[2u8; 32]));
    assert!(!bridge::lists(&[1u8; 32], &[2u8; 32], &[3u8; 32]));
    let row = bridge::lock_json(&[10u8; 32], true, 0, "a", "b", 150_000, 9, 9);
    assert_eq!(
        row,
        format!(
            "{{\"id\":\"{}\",\"role\":\"outgoing\",\"token\":0,\"from\":\"a\",\"to\":\"b\",\
             \"amount\":\"1.50000\",\"expiry\":9,\"expired\":true}}",
            "0a".repeat(32)
        )
    );
    assert_eq!(
        bridge::locks_json(9, &vec![]),
        "{\"ok\":true,\"height\":9,\"locks\":[]}"
    );
    let shown = bridge::locked_json(&[1u8; 32], &[2u8; 32], &Some([3u8; 32]), 40);
    assert!(shown.contains(&format!("\"preimage\":\"{}\"", "03".repeat(32))));
    assert!(shown.ends_with("\"expiry\":40}"));
}
