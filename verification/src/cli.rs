//! What the command line wallet makes of its arguments.

use vstd::prelude::*;
use vstd::string::*;
use vstd::utf8::*;

use crate::address::Network;
use crate::amounts;
use crate::amounts::{amount_string, parse_amount};
use crate::bytes;
use crate::bytes::same_str;
use crate::hashing;
use crate::hashing::sha256_hash;
use crate::numbers;
use crate::numbers::{hex_pairs_of, parse_u64};
use crate::params::Params;
use crate::random::random_bytes;
use crate::text::{ascii_string, chars_of};
use crate::wallet::DEFAULT_RING_SIZE;

verus! {

/// What the wallet is told to do.
#[derive(Clone, Copy, Debug, PartialEq, Eq)]
pub enum Command {
    New,
    Address,
    Balance,
    Register,
    Send,
    AnonSend,
    PublicSend,
    Shield,
    ShieldStealth,
    Unshield,
    ScanStealth,
    Rollover,
    Stake,
    Unstake,
    Staking,
    CreateToken,
    Market,
    CurveBuy,
    CurveSell,
    Swap,
    AddLiquidity,
    RemoveLiquidity,
    HtlcLock,
    HtlcClaim,
    HtlcRefund,
    DeployContract,
    CallContract,
    /// Show how the wallet is used.
    Help,
}

/// The command with a name. Any other name asks for help.
pub open spec fn named(s: Seq<char>) -> Command {
    if s == "new"@ {
        Command::New
    } else if s == "address"@ {
        Command::Address
    } else if s == "balance"@ {
        Command::Balance
    } else if s == "register"@ {
        Command::Register
    } else if s == "send"@ {
        Command::Send
    } else if s == "anon-send"@ {
        Command::AnonSend
    } else if s == "public-send"@ {
        Command::PublicSend
    } else if s == "shield"@ {
        Command::Shield
    } else if s == "shield-stealth"@ {
        Command::ShieldStealth
    } else if s == "unshield"@ {
        Command::Unshield
    } else if s == "scan-stealth"@ {
        Command::ScanStealth
    } else if s == "rollover"@ {
        Command::Rollover
    } else if s == "stake"@ {
        Command::Stake
    } else if s == "unstake"@ {
        Command::Unstake
    } else if s == "staking"@ {
        Command::Staking
    } else if s == "create-token"@ {
        Command::CreateToken
    } else if s == "market"@ {
        Command::Market
    } else if s == "curve-buy"@ {
        Command::CurveBuy
    } else if s == "curve-sell"@ {
        Command::CurveSell
    } else if s == "swap"@ {
        Command::Swap
    } else if s == "add-liquidity"@ {
        Command::AddLiquidity
    } else if s == "remove-liquidity"@ {
        Command::RemoveLiquidity
    } else if s == "htlc-lock"@ {
        Command::HtlcLock
    } else if s == "htlc-claim"@ {
        Command::HtlcClaim
    } else if s == "htlc-refund"@ {
        Command::HtlcRefund
    } else if s == "deploy-contract"@ {
        Command::DeployContract
    } else if s == "call-contract"@ {
        Command::CallContract
    } else {
        Command::Help
    }
}

/// The command with a name.
pub fn command(s: &str) -> (r: Command)
    ensures
        r == named(s@),
{
    if same_str(s, "new") {
        Command::New
    } else if same_str(s, "address") {
        Command::Address
    } else if same_str(s, "balance") {
        Command::Balance
    } else if same_str(s, "register") {
        Command::Register
    } else if same_str(s, "send") {
        Command::Send
    } else if same_str(s, "anon-send") {
        Command::AnonSend
    } else if same_str(s, "public-send") {
        Command::PublicSend
    } else if same_str(s, "shield") {
        Command::Shield
    } else if same_str(s, "shield-stealth") {
        Command::ShieldStealth
    } else if same_str(s, "unshield") {
        Command::Unshield
    } else if same_str(s, "scan-stealth") {
        Command::ScanStealth
    } else if same_str(s, "rollover") {
        Command::Rollover
    } else if same_str(s, "stake") {
        Command::Stake
    } else if same_str(s, "unstake") {
        Command::Unstake
    } else if same_str(s, "staking") {
        Command::Staking
    } else if same_str(s, "create-token") {
        Command::CreateToken
    } else if same_str(s, "market") {
        Command::Market
    } else if same_str(s, "curve-buy") {
        Command::CurveBuy
    } else if same_str(s, "curve-sell") {
        Command::CurveSell
    } else if same_str(s, "swap") {
        Command::Swap
    } else if same_str(s, "add-liquidity") {
        Command::AddLiquidity
    } else if same_str(s, "remove-liquidity") {
        Command::RemoveLiquidity
    } else if same_str(s, "htlc-lock") {
        Command::HtlcLock
    } else if same_str(s, "htlc-claim") {
        Command::HtlcClaim
    } else if same_str(s, "htlc-refund") {
        Command::HtlcRefund
    } else if same_str(s, "deploy-contract") {
        Command::DeployContract
    } else if same_str(s, "call-contract") {
        Command::CallContract
    } else {
        Command::Help
    }
}

/// Whether `s` names a flag.
pub open spec fn is_flag(s: Seq<char>) -> bool {
    s.len() >= 2 && s[0] == '-' && s[1] == '-'
}

/// The flags among `args` from place `i` on, on top of those in `m`: a flag's value
/// is the argument after it.
pub open spec fn flags(
    args: Seq<Seq<char>>,
    i: int,
    m: Map<Seq<char>, Seq<char>>,
) -> Map<Seq<char>, Seq<char>>
    decreases args.len() - i,
{
    if i < 0 || i >= args.len() {
        m
    } else if is_flag(args[i]) && i + 1 < args.len() {
        flags(args, i + 2, m.insert(args[i].subrange(2, args[i].len() as int), args[i + 1]))
    } else {
        flags(args, i + 1, m)
    }
}

/// The flags among the arguments.
pub fn parse_flags(args: &[String]) -> (r: Params)
    ensures
        r@ == flags(args@.map_values(|s: String| s@), 0, Map::empty()),
{
    let ghost all = args@.map_values(|s: String| s@);
    let mut m = Params::new();
    let mut i: usize = 0;
    while i < args.len()
        invariant
            i <= args@.len(),
            all == args@.map_values(|s: String| s@),
            flags(all, i as int, m@) == flags(all, 0, Map::empty()),
        decreases args@.len() - i,
    {
        let c = chars_of(args[i].as_str());
        assert(all[i as int] == c@);
        if c.len() >= 2 && c[0] == '-' && c[1] == '-' && args.len() - i > 1 {
            let key = args[i].as_str().substring_char(2, c.len()).to_owned();
            assert(all[i + 1] == args@[i + 1]@);
            m.insert(key, args[i + 1].clone());
            i += 2;
        } else {
            i += 1;
        }
    }
    m
}

/// Why the arguments do not do.
#[derive(Clone, Copy, Debug, PartialEq, Eq)]
pub enum FlagError {
    /// A flag that is needed is missing.
    Missing,
    /// An amount of LAT is none.
    BadAmount,
    /// The fee is below the network's minimum.
    FeeTooLow,
    /// A number is none, or too large.
    BadNumber,
    /// Hexadecimal text is none.
    BadHex,
    /// Hexadecimal text has the wrong length.
    BadLength,
    /// The side of a swap is neither `lat` nor `token`.
    BadSide,
    /// A token's supply is zero.
    NoSupply,
    /// A contract's code is empty.
    NoCode,
    /// The operating system gave no random bytes.
    NoRandomness,
}

/// The network that the flags name: the test network unless they say otherwise.
pub fn network_from(p: &Params) -> (r: Network)
    ensures
        r == if p@.contains_key("network"@) && p@["network"@] == "mainnet"@ {
            Network::Mainnet
        } else {
            Network::Testnet
        },
{
    match p.get("network") {
        Some(s) => {
            if same_str(s.as_str(), "mainnet") {
                Network::Mainnet
            } else {
                Network::Testnet
            }
        },
        None => Network::Testnet,
    }
}

/// An amount of LAT in a text, as base units.
pub open spec fn lat_in(s: Seq<char>) -> Result<u64, FlagError> {
    match amounts::amount_of(s) {
        Some(n) => if n <= u64::MAX {
            Ok(n as u64)
        } else {
            Err(FlagError::BadAmount)
        },
        None => Err(FlagError::BadAmount),
    }
}

/// Read an amount of LAT, as base units.
pub fn parse_lat(s: &str) -> (r: Result<u64, FlagError>)
    ensures
        r == lat_in(s@),
{
    match parse_amount(s) {
        Some(n) => Ok(n),
        None => Err(FlagError::BadAmount),
    }
}

/// An amount as it is shown.
pub fn lat(units: u64) -> (s: String)
    ensures
        s@ == amounts::amount_text(units) + " LAT"@,
{
    let mut s = amount_string(units);
    s.append(" LAT");
    s
}

/// An amount that is shown reads back.
pub proof fn law_shown_amount_reads_back(units: u64)
    ensures
        lat_in(amounts::amount_text(units) + " LAT"@) == Ok::<u64, FlagError>(units),
{
    amounts::law_amount_reads_back(units, " LAT"@);
}

/// The amount of LAT that a flag gives.
pub open spec fn lat_flag(p: Map<Seq<char>, Seq<char>>, key: Seq<char>) -> Result<u64, FlagError> {
    if p.contains_key(key) {
        lat_in(p[key])
    } else {
        Err(FlagError::Missing)
    }
}

/// The amount of LAT that a flag gives.
pub fn require_lat(p: &Params, key: &str) -> (r: Result<u64, FlagError>)
    ensures
        r == lat_flag(p@, key@),
{
    match p.get(key) {
        Some(s) => parse_lat(s.as_str()),
        None => Err(FlagError::Missing),
    }
}

/// The amount of LAT to move.
pub fn require_amount(p: &Params) -> (r: Result<u64, FlagError>)
    ensures
        r == lat_flag(p@, "amount"@),
{
    require_lat(p, "amount")
}

/// The fee that the flags give: the network's minimum where they give none, and no
/// less than that.
pub open spec fn fee_in(p: Map<Seq<char>, Seq<char>>, min_fee: u64) -> Result<u64, FlagError> {
    if p.contains_key("fee"@) {
        match lat_in(p["fee"@]) {
            Ok(f) => if f < min_fee {
                Err(FlagError::FeeTooLow)
            } else {
                Ok(f)
            },
            Err(e) => Err(e),
        }
    } else {
        Ok(min_fee)
    }
}

/// The miner fee.
pub fn fee_from(p: &Params, min_fee: u64) -> (r: Result<u64, FlagError>)
    ensures
        r == fee_in(p@, min_fee),
{
    match p.get("fee") {
        Some(s) => match parse_lat(s.as_str()) {
            Ok(f) => {
                if f < min_fee {
                    return Err(FlagError::FeeTooLow);
                }
                Ok(f)
            },
            Err(e) => Err(e),
        },
        None => Ok(min_fee),
    }
}

/// A whole number in a text, up to `max`.
pub open spec fn whole_in(s: Seq<char>, max: nat) -> Option<u64> {
    match numbers::number(s) {
        Some(n) => if n <= max && n <= u64::MAX {
            Some(n as u64)
        } else {
            None
        },
        None => None,
    }
}

/// The whole number that a flag gives.
pub open spec fn number_flag(
    p: Map<Seq<char>, Seq<char>>,
    key: Seq<char>,
    max: nat,
) -> Result<u64, FlagError> {
    if p.contains_key(key) {
        match whole_in(p[key], max) {
            Some(n) => Ok(n),
            None => Err(FlagError::BadNumber),
        }
    } else {
        Err(FlagError::Missing)
    }
}

/// The token id that the flags give.
pub fn require_token(p: &Params) -> (r: Result<u32, FlagError>)
    ensures
        match number_flag(p@, "token"@, u32::MAX as nat) {
            Ok(n) => r == Ok::<u32, FlagError>(n as u32),
            Err(e) => r == Err::<u32, FlagError>(e),
        },
{
    match p.get("token") {
        Some(s) => match parse_u64(s.as_str()) {
            Some(n) => {
                if n > u32::MAX as u64 {
                    return Err(FlagError::BadNumber);
                }
                Ok(n as u32)
            },
            None => Err(FlagError::BadNumber),
        },
        None => Err(FlagError::Missing),
    }
}

/// A whole count of token units: tokens are not scaled as LAT is.
pub fn require_units(p: &Params, flag: &str) -> (r: Result<u64, FlagError>)
    ensures
        r == number_flag(p@, flag@, u64::MAX as nat),
{
    match p.get(flag) {
        Some(s) => match parse_u64(s.as_str()) {
            Some(n) => Ok(n),
            None => Err(FlagError::BadNumber),
        },
        None => Err(FlagError::Missing),
    }
}

/// The whole number that a flag gives, `default` where it gives none.
pub open spec fn number_or(
    p: Map<Seq<char>, Seq<char>>,
    key: Seq<char>,
    max: nat,
    default: u64,
) -> u64 {
    match number_flag(p, key, max) {
        Ok(n) => n,
        Err(_) => default,
    }
}

/// The whole number that a flag gives, `default` where it gives none.
pub fn units_or(p: &Params, flag: &str, default: u64) -> (r: u64)
    ensures
        r == number_or(p@, flag@, u64::MAX as nat, default),
{
    match require_units(p, flag) {
        Ok(n) => n,
        Err(_) => default,
    }
}

/// The token id that the flags give, LAT where they give none.
pub fn token_or_lat(p: &Params) -> (r: u32)
    ensures
        r == number_or(p@, "token"@, u32::MAX as nat, 0),
{
    match require_token(p) {
        Ok(n) => n,
        Err(_) => 0,
    }
}

/// The whole number that a flag may give: `default` where the flag is missing, an
/// error where it gives none.
pub open spec fn optional_number(
    p: Map<Seq<char>, Seq<char>>,
    key: Seq<char>,
    max: nat,
    default: u64,
) -> Result<u64, FlagError> {
    match number_flag(p, key, max) {
        Ok(n) => Ok(n),
        Err(FlagError::Missing) => Ok(default),
        Err(e) => Err(e),
    }
}

/// The ring size that the flags wish for.
pub fn ring_size_from(p: &Params) -> (r: Result<usize, FlagError>)
    ensures
        match optional_number(p@, "ring"@, usize::MAX as nat, DEFAULT_RING_SIZE as u64) {
            Ok(n) => r == Ok::<usize, FlagError>(n as usize),
            Err(e) => r == Err::<usize, FlagError>(e),
        },
{
    match p.get("ring") {
        Some(s) => match parse_u64(s.as_str()) {
            Some(n) => {
                if n > usize::MAX as u64 {
                    return Err(FlagError::BadNumber);
                }
                Ok(n as usize)
            },
            None => Err(FlagError::BadNumber),
        },
        None => Ok(DEFAULT_RING_SIZE),
    }
}

/// The input word for a contract call.
pub fn input_from(p: &Params) -> (r: Result<u64, FlagError>)
    ensures
        r == optional_number(p@, "input"@, u64::MAX as nat, 0),
{
    match require_units(p, "input") {
        Ok(n) => Ok(n),
        Err(FlagError::Missing) => Ok(0),
        Err(e) => Err(e),
    }
}

/// The supply of a new token.
pub fn supply_from(p: &Params) -> (r: Result<u64, FlagError>)
    ensures
        r == match number_flag(p@, "supply"@, u64::MAX as nat) {
            Ok(n) => if n == 0 {
                Err(FlagError::NoSupply)
            } else {
                Ok(n)
            },
            Err(e) => Err(e),
        },
{
    match require_units(p, "supply") {
        Ok(n) => {
            if n == 0 {
                return Err(FlagError::NoSupply);
            }
            Ok(n)
        },
        Err(e) => Err(e),
    }
}

/// Whether a swap is paid in LAT: it is unless the flags say `token`.
pub fn pays_lat(p: &Params) -> (r: Result<bool, FlagError>)
    ensures
        r == if !p@.contains_key("in"@) || p@["in"@] == "lat"@ {
            Ok::<bool, FlagError>(true)
        } else if p@["in"@] == "token"@ {
            Ok(false)
        } else {
            Err(FlagError::BadSide)
        },
{
    match p.get("in") {
        None => Ok(true),
        Some(s) => {
            if same_str(s.as_str(), "lat") {
                Ok(true)
            } else if same_str(s.as_str(), "token") {
                Ok(false)
            } else {
                Err(FlagError::BadSide)
            }
        },
    }
}

/// The amount to pay: LAT, or whole token units.
pub fn amount_from(p: &Params, in_lat: bool) -> (r: Result<u64, FlagError>)
    ensures
        r == if in_lat {
            lat_flag(p@, "amount"@)
        } else {
            number_flag(p@, "amount"@, u64::MAX as nat)
        },
{
    if in_lat {
        require_amount(p)
    } else {
        require_units(p, "amount")
    }
}

/// The 32 bytes that a text says, two characters to a byte.
pub open spec fn hex32_in(s: Seq<char>) -> Result<Seq<u8>, FlagError> {
    match numbers::hex_pairs(encode_utf8(s)) {
        Some(b) => if b.len() == 32 {
            Ok(b)
        } else {
            Err(FlagError::BadLength)
        },
        None => Err(FlagError::BadHex),
    }
}

/// The 32 bytes that a text says in hexadecimal.
pub fn parse_hex32(s: &str) -> (r: Result<[u8; 32], FlagError>)
    ensures
        match r {
            Ok(b) => hex32_in(s@) == Ok::<Seq<u8>, FlagError>(b@),
            Err(e) => hex32_in(s@) == Err::<Seq<u8>, FlagError>(e),
        },
{
    match hex_pairs_of(s) {
        Some(v) => {
            if v.len() != 32 {
                return Err(FlagError::BadLength);
            }
            let b: [u8; 32] = bytes::array_at::<32>(v.as_slice(), 0);
            assert(v@.subrange(0, 32) =~= v@);
            Ok(b)
        },
        None => Err(FlagError::BadHex),
    }
}

/// The 32 bytes that a flag says in hexadecimal.
pub fn require_hex32(p: &Params, flag: &str) -> (r: Result<[u8; 32], FlagError>)
    ensures
        if p@.contains_key(flag@) {
            match r {
                Ok(b) => hex32_in(p@[flag@]) == Ok::<Seq<u8>, FlagError>(b@),
                Err(e) => hex32_in(p@[flag@]) == Err::<Seq<u8>, FlagError>(e),
            }
        } else {
            r == Err::<[u8; 32], FlagError>(FlagError::Missing)
        },
{
    match p.get(flag) {
        Some(s) => parse_hex32(s.as_str()),
        None => Err(FlagError::Missing),
    }
}

/// 32 bytes in lower-case hexadecimal.
pub fn hex32(b: &[u8; 32]) -> (s: String)
    ensures
        s@ == numbers::hex_text(b@),
{
    let mut v: Vec<u8> = Vec::new();
    let mut i: usize = 0;
    while i < 32
        invariant
            i <= 32,
            v@.len() == 2 * i,
            forall|j: int| 0 <= j < v@.len() ==> #[trigger] v@[j] == numbers::hex_of(b@)[j],
            forall|j: int| 0 <= j < v@.len() ==> #[trigger] v@[j] < 128,
        decreases 32 - i,
    {
        let hi: u8 = b[i] / 16;
        let lo: u8 = b[i] % 16;
        let ghost had = v@;
        v.push(if hi < 10 { 48 + hi } else { 87 + hi });
        v.push(if lo < 10 { 48 + lo } else { 87 + lo });
        proof {
            assert((2 * i) % 2 == 0 && (2 * i) / 2 == i);
            assert((2 * i + 1) % 2 == 1 && (2 * i + 1) / 2 == i);
            assert forall|j: int| 0 <= j < v@.len() implies #[trigger] v@[j] == numbers::hex_of(
                b@,
            )[j] && v@[j] < 128 by {
                if j < had.len() {
                    assert(had[j] == numbers::hex_of(b@)[j]);
                    assert(had[j] < 128);
                }
            }
        }
        i += 1;
    }
    assert(v@ =~= numbers::hex_of(b@));
    ascii_string(v)
}

/// What is shown of 32 bytes reads back.
pub proof fn law_shown_hex_reads_back(b: Seq<u8>)
    requires
        b.len() == 32,
    ensures
        hex32_in(numbers::hex_text(b)) == Ok::<Seq<u8>, FlagError>(b),
{
    numbers::law_hex_reads_back(b);
    lemma_pairs(b);
}

proof fn lemma_pairs(b: Seq<u8>)
    ensures
        numbers::hex_pairs(numbers::hex_of(b)) == Some(b),
    decreases b.len(),
{
    let h = numbers::hex_of(b);
    if b.len() > 0 {
        let front = b.drop_last();
        lemma_pairs(front);
        assert(h.drop_last().drop_last() =~= numbers::hex_of(front));
        let x = b.last() as int;
        let n = b.len() as int;
        assert((2 * n - 2) % 2 == 0 && (2 * n - 2) / 2 == n - 1);
        assert((2 * n - 1) % 2 == 1 && (2 * n - 1) / 2 == n - 1);
        assert(h[2 * n - 2] == numbers::hex_char(x / 16));
        assert(h[2 * n - 1] == numbers::hex_char(x % 16));
        assert(16 * (x / 16) + x % 16 == x);
        assert(numbers::hex_pair(h[2 * n - 2], h[2 * n - 1]) == Some(b.last()));
        assert(front.push(b.last()) =~= b);
    } else {
        assert(h =~= Seq::empty());
        assert(b =~= Seq::empty());
    }
}

/// The contract code that the flags give.
pub fn code_from(p: &Params) -> (r: Result<Vec<u8>, FlagError>)
    ensures
        if p@.contains_key("code"@) {
            match numbers::hex_pairs(encode_utf8(p@["code"@])) {
                Some(b) => if b.len() == 0 {
                    r == Err::<Vec<u8>, FlagError>(FlagError::NoCode)
                } else {
                    r matches Ok(v) && v@ == b
                },
                None => r == Err::<Vec<u8>, FlagError>(FlagError::BadHex),
            }
        } else {
            r == Err::<Vec<u8>, FlagError>(FlagError::Missing)
        },
{
    match p.get("code") {
        Some(s) => match hex_pairs_of(s.as_str()) {
            Some(v) => {
                if v.len() == 0 {
                    return Err(FlagError::NoCode);
                }
                Ok(v)
            },
            None => Err(FlagError::BadHex),
        },
        None => Err(FlagError::Missing),
    }
}

/// The hashlock of a secret: its SHA-256 digest. Whoever shows the secret may claim
/// what is locked.
pub fn hashlock(secret: &[u8; 32]) -> (h: [u8; 32])
    ensures
        h == hashing::sha256_digest(secret@),
{
    sha256_hash(secret.as_slice())
}

/// The secret of a lock: what the flags give, or a fresh one.
pub fn secret_from(p: &Params) -> (r: Result<[u8; 32], FlagError>)
    ensures
        if p@.contains_key("secret"@) {
            match r {
                Ok(b) => hex32_in(p@["secret"@]) == Ok::<Seq<u8>, FlagError>(b@),
                Err(e) => hex32_in(p@["secret"@]) == Err::<Seq<u8>, FlagError>(e),
            }
        } else {
            r is Ok || r == Err::<[u8; 32], FlagError>(FlagError::NoRandomness)
        },
{
    match p.get("secret") {
        Some(s) => parse_hex32(s.as_str()),
        None => match random_bytes() {
            Some(b) => Ok(b),
            None => Err(FlagError::NoRandomness),
        },
    }
}

/// Whether a ring is too small to hide in: an observer's guess at the sender is better
/// than one in five.
pub fn weakly_hidden(ring: usize) -> (r: bool)
    ensures
        r == (ring < 5),
{
    ring < 5
}

/// The height at which a lock expires. `None`: there is no such height.
pub fn lock_expiry(height: u64, blocks: u64) -> (r: Option<u64>)
    ensures
        r == if height + blocks <= u64::MAX {
            Some((height + blocks) as u64)
        } else {
            None
        },
{
    height.checked_add(blocks)
}

} // verus!
