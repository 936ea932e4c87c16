//! Locks that settle a swap with another chain: what a request for one says, and how
//! open locks are listed.

use vstd::prelude::*;
use vstd::string::*;
use vstd::utf8::*;

use crate::address::Network;
use crate::amounts;
use crate::amounts::amount_string;
use crate::bytes;
use crate::bytes::same_hash;
use crate::chain_index;
use crate::chain_index::append_list;
use crate::hashing;
use crate::hashing::sha256_hash;
use crate::numbers;
use crate::numbers::{decimal_string, hex_decode, hex_encode, parse_u128, parse_u64};
use crate::params::Params;
use crate::random::{random_bytes, NoRandomness};
use crate::text;
use crate::text::{chars_of, trim, trim_str};
use crate::web;
use crate::web::esc;

verus! {

/// The other chain.
#[derive(Clone, Copy, Debug, PartialEq, Eq, Structural)]
pub enum Chain {
    Bitcoin,
    Evm,
    Solana,
}

/// Why a request for the other leg of a swap does not do.
#[derive(Clone, Copy, Debug, PartialEq, Eq)]
pub enum BridgeError {
    /// No amount above zero, in the chain's smallest unit.
    Amount,
    /// A hashlock that is not 32 bytes.
    Hashlock,
    /// No such chain.
    Chain,
    /// A recipient that is not of the chain's key length.
    Recipient,
    /// A refund key that is not of the chain's key length.
    Refund,
}

/// The other leg of a swap.
pub struct BridgeTerms {
    pub chain: Chain,
    pub amount: u128,
    /// `None`: a fresh secret is to be made.
    pub hashlock: Option<[u8; 32]>,
    pub recipient: Vec<u8>,
    pub refund: Vec<u8>,
    pub timelock: u64,
    /// The contract or program that holds the lock, where the chain has one.
    pub holder: Vec<u8>,
    /// The chain's number, where it has one.
    pub chain_id: u64,
}

/// Whether `c` is `x`, or the upper-case form of the lower-case letter `x`.
pub open spec fn same_letter(c: char, x: char) -> bool {
    c == x || (65 <= c as u32 <= 90 && c as u32 + 32 == x as u32)
}

/// Whether `s` is the lower-case name `t` in any case.
pub open spec fn spells(s: Seq<char>, t: Seq<char>) -> bool {
    s.len() == t.len() && forall|i: int| 0 <= i < s.len() ==> same_letter(#[trigger] s[i], t[i])
}

/// The chain with a name in any case.
pub open spec fn chain_named(s: Seq<char>) -> Option<Chain> {
    if spells(s, "btc"@) {
        Some(Chain::Bitcoin)
    } else if spells(s, "eth"@) || spells(s, "evm"@) {
        Some(Chain::Evm)
    } else if spells(s, "sol"@) {
        Some(Chain::Solana)
    } else {
        None
    }
}

fn same_letters(c: &Vec<char>, name: &str) -> (r: bool)
    ensures
        r == spells(c@, name@),
{
    let n = chars_of(name);
    if c.len() != n.len() {
        return false;
    }
    let mut i: usize = 0;
    while i < c.len()
        invariant
            i <= c@.len(),
            c@.len() == n@.len(),
            n@ == name@,
            forall|j: int| 0 <= j < i ==> same_letter(#[trigger] c@[j], n@[j]),
        decreases c@.len() - i,
    {
        let x: u32 = c[i] as u32;
        if !(c[i] == n[i] || (65 <= x && x <= 90 && x + 32 == n[i] as u32)) {
            assert(!same_letter(c@[i as int], n@[i as int]));
            return false;
        }
        i += 1;
    }
    true
}

/// The chain with a name in any case.
pub fn chain_of(s: &str) -> (r: Option<Chain>)
    ensures
        r == chain_named(s@),
{
    let c = chars_of(s);
    if same_letters(&c, "btc") {
        Some(Chain::Bitcoin)
    } else if same_letters(&c, "eth") || same_letters(&c, "evm") {
        Some(Chain::Evm)
    } else if same_letters(&c, "sol") {
        Some(Chain::Solana)
    } else {
        None
    }
}

/// How long a chain's keys are.
pub open spec fn key_len(c: Chain) -> nat {
    match c {
        Chain::Bitcoin => 33,
        Chain::Evm => 20,
        Chain::Solana => 32,
    }
}

/// When a lock on a chain expires where the request does not say: a height on
/// Bitcoin, a time elsewhere.
pub open spec fn usual_timelock(c: Chain) -> u64 {
    match c {
        Chain::Bitcoin => 800_000,
        _ => 1_900_000_000,
    }
}

/// `n` bytes with one value.
pub open spec fn filled(n: nat, x: u8) -> Seq<u8> {
    Seq::new(n, |i: int| x)
}

fn filled_with(n: usize, x: u8) -> (r: Vec<u8>)
    ensures
        r@ == filled(n as nat, x),
{
    let mut r: Vec<u8> = Vec::new();
    let mut i: usize = 0;
    while i < n
        invariant
            i <= n,
            r@ == filled(i as nat, x),
        decreases n - i,
    {
        r.push(x);
        i += 1;
        assert(r@ =~= filled(i as nat, x));
    }
    r
}

/// A key that a request gives in hexadecimal: `None` where it has not the right
/// length, a placeholder where the request gives none.
pub open spec fn key_in(
    p: Map<Seq<char>, Seq<char>>,
    key: Seq<char>,
    n: nat,
    fill: u8,
) -> Option<Seq<u8>> {
    if p.contains_key(key) && text::trimmed(p[key]).len() > 0 {
        match numbers::unhex(encode_utf8(text::trimmed(p[key]))) {
            Some(b) => if b.len() == n {
                Some(b)
            } else {
                None
            },
            None => None,
        }
    } else {
        Some(filled(n, fill))
    }
}

/// A key that a request gives in hexadecimal.
pub fn key_field(p: &Params, key: &str, n: usize, fill: u8) -> (r: Option<Vec<u8>>)
    ensures
        match r {
            Some(v) => key_in(p@, key@, n as nat, fill) == Some(v@),
            None => key_in(p@, key@, n as nat, fill) is None,
        },
{
    match p.get(key) {
        Some(s) => {
            let t = trim_str(s.as_str());
            if t.is_empty() {
                return Some(filled_with(n, fill));
            }
            match hex_decode(t) {
                Some(v) => {
                    if v.len() == n {
                        Some(v)
                    } else {
                        None
                    }
                },
                None => None,
            }
        },
        None => Some(filled_with(n, fill)),
    }
}

/// The bytes that a request gives for a name, with the white space around cut off,
/// where they are hexadecimal.
pub open spec fn hex_param(p: Map<Seq<char>, Seq<char>>, key: Seq<char>) -> Option<Seq<u8>> {
    if p.contains_key(key) {
        numbers::unhex(encode_utf8(text::trimmed(p[key])))
    } else {
        None
    }
}

/// The whole number that a request gives for a name, `default` where it gives none.
pub open spec fn count_in(p: Map<Seq<char>, Seq<char>>, key: Seq<char>, default: u64) -> u64 {
    if p.contains_key(key) {
        match numbers::number(text::trimmed(p[key])) {
            Some(n) => if n <= u64::MAX {
                n as u64
            } else {
                default
            },
            None => default,
        }
    } else {
        default
    }
}

/// The whole number that a request gives for a name, `default` where it gives none.
pub fn count_param(p: &Params, key: &str, default: u64) -> (r: u64)
    ensures
        r == count_in(p@, key@, default),
{
    match p.get(key) {
        Some(s) => match parse_u64(trim_str(s.as_str())) {
            Some(n) => n,
            None => default,
        },
        None => default,
    }
}

/// The amount that a request gives, in the chain's smallest unit.
pub open spec fn amount_in(p: Map<Seq<char>, Seq<char>>) -> Option<u128> {
    if p.contains_key("amount"@) {
        match numbers::number(text::trimmed(p["amount"@])) {
            Some(n) => if 0 < n <= u128::MAX {
                Some(n as u128)
            } else {
                None
            },
            None => None,
        }
    } else {
        None
    }
}

fn amount_param(p: &Params) -> (r: Option<u128>)
    ensures
        r == amount_in(p@),
{
    match p.get("amount") {
        Some(s) => {
            let c = chars_of(s.as_str());
            let t = trim(&c);
            match parse_u128(&t) {
                Some(n) => {
                    if n > 0 {
                        Some(n)
                    } else {
                        None
                    }
                },
                None => None,
            }
        },
        None => None,
    }
}

/// The contract or program that a request names to hold the lock: a placeholder where
/// it names none or a bad one.
pub open spec fn holder_in(p: Map<Seq<char>, Seq<char>>, c: Chain) -> Seq<u8> {
    match c {
        Chain::Bitcoin => Seq::empty(),
        Chain::Evm => match key_in(p, "contract"@, 20, 0x11) {
            Some(b) => b,
            None => filled(20, 0x11),
        },
        Chain::Solana => match key_in(p, "program"@, 32, 0x05) {
            Some(b) => b,
            None => filled(32, 0x05),
        },
    }
}

/// The number of an EVM chain that a request does not give: the main network's or the
/// test network's.
pub open spec fn usual_chain_id(n: Network) -> u64 {
    match n {
        Network::Mainnet => 1,
        Network::Testnet => 11_155_111,
    }
}

/// The chain that a request names.
pub open spec fn chain_in(p: Map<Seq<char>, Seq<char>>) -> Option<Chain> {
    if p.contains_key("chain"@) {
        chain_named(p["chain"@])
    } else {
        None
    }
}

/// The first reason why a request for the other leg does not do.
pub open spec fn fault(p: Map<Seq<char>, Seq<char>>) -> Option<BridgeError> {
    if amount_in(p) is None {
        Some(BridgeError::Amount)
    } else if hex_param(p, "hashlock"@) is Some && (hex_param(p, "hashlock"@)->0).len() != 32 {
        Some(BridgeError::Hashlock)
    } else {
        match chain_in(p) {
            None => Some(BridgeError::Chain),
            Some(c) => if key_in(p, "recipient"@, key_len(c), 0x02) is None {
                Some(BridgeError::Recipient)
            } else if key_in(p, "refund"@, key_len(c), 0x03) is None {
                Some(BridgeError::Refund)
            } else {
                None
            },
        }
    }
}

/// Whether `t` is the other leg that a request asks for.
pub open spec fn asks_for(p: Map<Seq<char>, Seq<char>>, network: Network, t: BridgeTerms) -> bool {
    &&& chain_in(p) == Some(t.chain)
    &&& amount_in(p) == Some(t.amount)
    &&& match t.hashlock {
        Some(h) => hex_param(p, "hashlock"@) == Some(h@),
        None => hex_param(p, "hashlock"@) is None,
    }
    &&& key_in(p, "recipient"@, key_len(t.chain), 0x02) == Some(t.recipient@)
    &&& key_in(p, "refund"@, key_len(t.chain), 0x03) == Some(t.refund@)
    &&& t.timelock == count_in(p, "timelock"@, usual_timelock(t.chain))
    &&& t.holder@ == holder_in(p, t.chain)
    &&& t.chain_id == if t.chain == Chain::Evm {
        count_in(p, "chainid"@, usual_chain_id(network))
    } else {
        0
    }
}

/// Whether `r` is the hashlock that bytes say: none where there are none, an error where
/// they are not 32.
pub open spec fn hashlock_in(
    b: Option<Seq<u8>>,
    r: Result<Option<[u8; 32]>, BridgeError>,
) -> bool {
    match r {
        Ok(Some(h)) => b == Some(h@),
        Ok(None) => b is None,
        Err(e) => e == BridgeError::Hashlock && b is Some && (b->0).len() != 32,
    }
}

fn read_hashlock(s: &str) -> (r: Result<Option<[u8; 32]>, BridgeError>)
    ensures
        hashlock_in(numbers::unhex(encode_utf8(s@)), r),
{
    match hex_decode(s) {
        Some(v) => {
            if v.len() != 32 {
                return Err(BridgeError::Hashlock);
            }
            let h: [u8; 32] = bytes::array_at::<32>(v.as_slice(), 0);
            assert(v@.subrange(0, 32) =~= v@);
            Ok(Some(h))
        },
        None => Ok(None),
    }
}

/// The hashlock that a request for the other leg gives, white space around it cut off.
pub fn hashlock_param(p: &Params) -> (r: Result<Option<[u8; 32]>, BridgeError>)
    ensures
        hashlock_in(hex_param(p@, "hashlock"@), r),
{
    match p.get("hashlock") {
        Some(s) => read_hashlock(trim_str(s.as_str())),
        None => Ok(None),
    }
}

/// The hashlock that a request for a lock on this chain gives.
pub fn lock_hashlock(p: &Params) -> (r: Result<Option<[u8; 32]>, BridgeError>)
    ensures
        hashlock_in(
            if p@.contains_key("hashlock"@) {
                numbers::unhex(encode_utf8(p@["hashlock"@]))
            } else {
                None
            },
            r,
        ),
{
    match p.get("hashlock") {
        Some(s) => read_hashlock(s.as_str()),
        None => Ok(None),
    }
}

/// What a lock is under, and the secret to hand back: the hashlock that was given, whose
/// secret someone else has, or that of `secret`.
pub fn lock_under(given: Option<[u8; 32]>, secret: [u8; 32]) -> (r: ([u8; 32], Option<[u8; 32]>))
    ensures
        r == match given {
            Some(h) => (h, None::<[u8; 32]>),
            None => (hashing::sha256_digest(secret@), Some(secret)),
        },
{
    match given {
        Some(h) => (h, None),
        None => (sha256_hash(secret.as_slice()), Some(secret)),
    }
}

/// [`lock_under`] with a fresh secret, where one is needed.
pub fn fresh_lock(given: Option<[u8; 32]>) -> (r: Result<([u8; 32], Option<[u8; 32]>), NoRandomness>)
    ensures
        match given {
            Some(h) => r == Ok::<([u8; 32], Option<[u8; 32]>), NoRandomness>((h, None)),
            None => match r {
                Ok((h, secret)) => secret is Some && h == hashing::sha256_digest((secret->0)@),
                Err(_) => true,
            },
        },
{
    match given {
        Some(h) => Ok((h, None)),
        None => match random_bytes() {
            Some(secret) => Ok(lock_under(given, secret)),
            None => Err(NoRandomness),
        },
    }
}

/// What a request for the other leg of a swap asks for.
pub fn bridge_terms(p: &Params, network: Network) -> (r: Result<BridgeTerms, BridgeError>)
    ensures
        match r {
            Ok(t) => fault(p@) is None && asks_for(p@, network, t),
            Err(e) => fault(p@) == Some(e),
        },
{
    let amount: u128 = match amount_param(p) {
        Some(n) => n,
        None => {
            return Err(BridgeError::Amount);
        },
    };
    let hashlock = match hashlock_param(p) {
        Ok(h) => h,
        Err(e) => {
            return Err(e);
        },
    };
    let chain = match p.get("chain") {
        Some(s) => match chain_of(s.as_str()) {
            Some(c) => c,
            None => {
                return Err(BridgeError::Chain);
            },
        },
        None => {
            return Err(BridgeError::Chain);
        },
    };
    let (n, usual): (usize, u64) = match chain {
        Chain::Bitcoin => (33, 800_000),
        Chain::Evm => (20, 1_900_000_000),
        Chain::Solana => (32, 1_900_000_000),
    };
    let recipient = match key_field(p, "recipient", n, 0x02) {
        Some(v) => v,
        None => {
            return Err(BridgeError::Recipient);
        },
    };
    let refund = match key_field(p, "refund", n, 0x03) {
        Some(v) => v,
        None => {
            return Err(BridgeError::Refund);
        },
    };
    let timelock: u64 = count_param(p, "timelock", usual);
    let mut chain_id: u64 = 0;
    let holder = match chain {
        Chain::Bitcoin => {
            let none: Vec<u8> = Vec::new();
            assert(none@ =~= Seq::empty());
            none
        },
        Chain::Evm => {
            let usual_id: u64 = match network {
                Network::Mainnet => 1,
                Network::Testnet => 11_155_111,
            };
            chain_id = count_param(p, "chainid", usual_id);
            match key_field(p, "contract", 20, 0x11) {
                Some(v) => v,
                None => filled_with(20, 0x11),
            }
        },
        Chain::Solana => match key_field(p, "program", 32, 0x05) {
            Some(v) => v,
            None => filled_with(32, 0x05),
        },
    };
    Ok(
        BridgeTerms {
            chain,
            amount,
            hashlock,
            recipient,
            refund,
            timelock,
            holder,
            chain_id,
        },
    )
}

/// What the other chain's side says of a leg, as text.
pub struct Leg {
    /// The chain's ticker.
    pub ticker: String,
    pub deposit: String,
    /// The script in hexadecimal.
    pub script: String,
    pub instructions: String,
    /// How it is claimed.
    pub claim: String,
    /// How it is refunded.
    pub refund: String,
}

/// The reply with the other leg of a swap. `preimage` is the secret, where it was made
/// here.
pub fn quote_json(
    leg: &Leg,
    hashlock: &[u8; 32],
    preimage: &Option<[u8; 32]>,
    timelock: u64,
) -> (r: String)
    ensures
        r@ == "{\"ok\":true,\"chain\":\""@ + leg.ticker@ + "\",\"hashlock\":\""@
            + numbers::hex_text(hashlock@) + "\",\"preimage\":\""@ + (match *preimage {
            Some(s) => numbers::hex_text(s@),
            None => Seq::empty(),
        }) + "\",\"deposit\":\""@ + web::escaped(leg.deposit@) + "\",\"scriptHex\":\""@
            + leg.script@ + "\",\"instructions\":\""@ + web::escaped(leg.instructions@)
            + "\",\"claim\":\""@ + web::escaped(leg.claim@) + "\",\"refund\":\""@
            + web::escaped(leg.refund@) + "\",\"timelock\":"@ + numbers::decimal(timelock as nat)
            + "}"@,
{
    let mut r = "{\"ok\":true,\"chain\":\"".to_owned();
    r.append(leg.ticker.as_str());
    r.append("\",\"hashlock\":\"");
    r.append(hex_encode(hashlock.as_slice()).as_str());
    r.append("\",\"preimage\":\"");
    let ghost had = r@;
    if let Some(s) = preimage {
        r.append(hex_encode(s.as_slice()).as_str());
    }
    assert(r@ =~= had + (match *preimage {
        Some(s) => numbers::hex_text(s@),
        None => Seq::empty(),
    }));
    r.append("\",\"deposit\":\"");
    r.append(esc(leg.deposit.as_str()).as_str());
    r.append("\",\"scriptHex\":\"");
    r.append(leg.script.as_str());
    r.append("\",\"instructions\":\"");
    r.append(esc(leg.instructions.as_str()).as_str());
    r.append("\",\"claim\":\"");
    r.append(esc(leg.claim.as_str()).as_str());
    r.append("\",\"refund\":\"");
    r.append(esc(leg.refund.as_str()).as_str());
    r.append("\",\"timelock\":");
    r.append(decimal_string(timelock).as_str());
    r.append("}");
    r
}

// --- this chain's locks -----------------------------------------------------------------

/// How many blocks a lock stays open where the request does not say.
pub const USUAL_LOCK_BLOCKS: u64 = 240;

/// The height at which a lock made now expires: after the blocks that the request
/// gives, but at least 10 and at most 100,000 of them. `None`: there is no such height.
pub fn lock_expiry(p: &Params, height: u64) -> (r: Option<u64>)
    ensures
        ({
            let n = count_in(p@, "blocks"@, USUAL_LOCK_BLOCKS);
            let blocks: int = if n < 10 {
                10
            } else if n > 100_000 {
                100_000
            } else {
                n as int
            };
            r == if height + blocks <= u64::MAX {
                Some((height + blocks) as u64)
            } else {
                None
            }
        }),
        r matches Some(h) ==> height + 10 <= h <= height + 100_000,
        r is None ==> height + 100_000 > u64::MAX,
{
    let n: u64 = count_param(p, "blocks", USUAL_LOCK_BLOCKS);
    let blocks: u64 = if n < 10 {
        10
    } else if n > 100_000 {
        100_000
    } else {
        n
    };
    height.checked_add(blocks)
}

/// The 32 bytes that a request gives for a name in hexadecimal.
pub fn id_param(p: &Params, key: &str) -> (r: Option<[u8; 32]>)
    ensures
        match r {
            Some(b) => p@.contains_key(key@) && numbers::unhex(encode_utf8(p@[key@])) == Some(b@),
            None => p@.contains_key(key@) ==> {
                let b = numbers::unhex(encode_utf8(p@[key@]));
                b is None || (b->0).len() != 32
            },
        },
{
    match p.get(key) {
        Some(s) => match hex_decode(s.as_str()) {
            Some(v) => {
                if v.len() != 32 {
                    return None;
                }
                let b: [u8; 32] = bytes::array_at::<32>(v.as_slice(), 0);
                assert(v@.subrange(0, 32) =~= v@);
                Some(b)
            },
            None => None,
        },
        None => None,
    }
}

/// The reply that a lock was submitted.
pub fn locked_json(id: &[u8; 32], hashlock: &[u8; 32], preimage: &Option<[u8; 32]>,
    expiry: u64) -> (
    r: String)
    ensures
        r@ == "{\"ok\":true,\"msg\":\"locked — claimable before block "@ + numbers::decimal(
            expiry as nat,
        ) + "\",\"htlcId\":\""@ + numbers::hex_text(id@) + "\",\"hashlock\":\""@
            + numbers::hex_text(hashlock@) + "\",\"preimage\":\""@ + (match *preimage {
            Some(s) => numbers::hex_text(s@),
            None => Seq::empty(),
        }) + "\",\"expiry\":"@ + numbers::decimal(expiry as nat) + "}"@,
{
    let mut r = "{\"ok\":true,\"msg\":\"locked — claimable before block ".to_owned();
    r.append(decimal_string(expiry).as_str());
    r.append("\",\"htlcId\":\"");
    r.append(hex_encode(id.as_slice()).as_str());
    r.append("\",\"hashlock\":\"");
    r.append(hex_encode(hashlock.as_slice()).as_str());
    r.append("\",\"preimage\":\"");
    let ghost had = r@;
    if let Some(s) = preimage {
        r.append(hex_encode(s.as_slice()).as_str());
    }
    assert(r@ =~= had + (match *preimage {
        Some(s) => numbers::hex_text(s@),
        None => Seq::empty(),
    }));
    r.append("\",\"expiry\":");
    r.append(decimal_string(expiry).as_str());
    r.append("}");
    r
}

/// Whether a lock is listed for an account: it sent it or is to get it.
pub fn lists(from: &[u8; 32], to: &[u8; 32], me: &[u8; 32]) -> (r: bool)
    ensures
        r == (from@ == me@ || to@ == me@),
{
    same_hash(from, me) || same_hash(to, me)
}

/// A lock as JSON, the two accounts as addresses.
pub fn lock_json(
    id: &[u8; 32],
    outgoing: bool,
    token: u32,
    from: &str,
    to: &str,
    amount: u64,
    expiry: u64,
    height: u64,
) -> (r: String)
    ensures
        r@ == "{\"id\":\""@ + numbers::hex_text(id@) + "\",\"role\":\""@ + (if outgoing {
            "outgoing"@
        } else {
            "incoming"@
        }) + "\",\"token\":"@ + numbers::decimal(token as nat) + ",\"from\":\""@ + from@
            + "\",\"to\":\""@ + to@ + "\",\"amount\":\""@ + amounts::amount_text(amount)
            + "\",\"expiry\":"@ + numbers::decimal(expiry as nat) + ",\"expired\":"@ + (if height
            >= expiry {
            "true"@
        } else {
            "false"@
        }) + "}"@,
{
    let mut r = "{\"id\":\"".to_owned();
    r.append(hex_encode(id.as_slice()).as_str());
    r.append("\",\"role\":\"");
    r.append(
        if outgoing {
            "outgoing"
        } else {
            "incoming"
        },
    );
    r.append("\",\"token\":");
    r.append(decimal_string(token as u64).as_str());
    r.append(",\"from\":\"");
    r.append(from);
    r.append("\",\"to\":\"");
    r.append(to);
    r.append("\",\"amount\":\"");
    r.append(amount_string(amount).as_str());
    r.append("\",\"expiry\":");
    r.append(decimal_string(expiry).as_str());
    r.append(",\"expired\":");
    r.append(
        if height >= expiry {
            "true"
        } else {
            "false"
        },
    );
    r.append("}");
    r
}

/// The reply with the open locks.
pub fn locks_json(height: u64, rows: &Vec<String>) -> (r: String)
    ensures
        r@ == "{\"ok\":true,\"height\":"@ + numbers::decimal(height as nat) + ",\"locks\":["@
            + chain_index::comma_list(rows@.map_values(|s: String| s@)) + "]}"@,
{
    let mut r = "{\"ok\":true,\"height\":".to_owned();
    r.append(decimal_string(height).as_str());
    r.append(",\"locks\":[");
    append_list(&mut r, rows);
    r.append("]}");
    r
}

} // verus!
