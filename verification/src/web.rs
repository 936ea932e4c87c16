//! The web wallet's requests and replies.

use vstd::prelude::*;
use vstd::string::*;
use vstd::utf8::*;

use crate::address::Network;
use crate::amounts;
use crate::amounts::{amount_string, parse_amount};
use crate::bytes::same_str;
use crate::numbers;
use crate::numbers::{decimal_string, hex_pair_of};
use crate::params::Params;
use crate::text;
use crate::text::{chars_of, find_from, trim_str, word_from};
use crate::wallet;
use crate::wallet::seed_from_hex;

verus! {

/// What the browser asks for.
#[derive(Clone, Copy, Debug, PartialEq, Eq)]
pub enum Route {
    Page,
    New,
    Address,
    Balance,
    Register,
    Rollover,
    Send,
    PublicSend,
    Shield,
    Unshield,
    Faucet,
    Market,
    Activity,
    Swap,
    DexPool,
    DexAdd,
    DexRemove,
    DexSwap,
    BridgeQuote,
    BridgeLock,
    BridgeClaim,
    BridgeRefund,
    BridgeList,
    NotFound,
}

/// The route with a path.
pub open spec fn routed(s: Seq<char>) -> Route {
    if s == "/"@ {
        Route::Page
    } else if s == "/api/new"@ {
        Route::New
    } else if s == "/api/address"@ {
        Route::Address
    } else if s == "/api/balance"@ {
        Route::Balance
    } else if s == "/api/register"@ {
        Route::Register
    } else if s == "/api/rollover"@ {
        Route::Rollover
    } else if s == "/api/send"@ {
        Route::Send
    } else if s == "/api/public-send"@ {
        Route::PublicSend
    } else if s == "/api/shield"@ {
        Route::Shield
    } else if s == "/api/unshield"@ {
        Route::Unshield
    } else if s == "/api/faucet"@ {
        Route::Faucet
    } else if s == "/api/market"@ {
        Route::Market
    } else if s == "/api/activity"@ {
        Route::Activity
    } else if s == "/api/swap"@ {
        Route::Swap
    } else if s == "/api/dex/pool"@ {
        Route::DexPool
    } else if s == "/api/dex/add"@ {
        Route::DexAdd
    } else if s == "/api/dex/remove"@ {
        Route::DexRemove
    } else if s == "/api/dex/swap"@ {
        Route::DexSwap
    } else if s == "/api/bridge/quote"@ {
        Route::BridgeQuote
    } else if s == "/api/bridge/lock"@ {
        Route::BridgeLock
    } else if s == "/api/bridge/claim"@ {
        Route::BridgeClaim
    } else if s == "/api/bridge/refund"@ {
        Route::BridgeRefund
    } else if s == "/api/bridge/list"@ {
        Route::BridgeList
    } else {
        Route::NotFound
    }
}

/// The route with a path.
pub fn route(s: &str) -> (r: Route)
    ensures
        r == routed(s@),
{
    if same_str(s, "/") {
        Route::Page
    } else if same_str(s, "/api/new") {
        Route::New
    } else if same_str(s, "/api/address") {
        Route::Address
    } else if same_str(s, "/api/balance") {
        Route::Balance
    } else if same_str(s, "/api/register") {
        Route::Register
    } else if same_str(s, "/api/rollover") {
        Route::Rollover
    } else if same_str(s, "/api/send") {
        Route::Send
    } else if same_str(s, "/api/public-send") {
        Route::PublicSend
    } else if same_str(s, "/api/shield") {
        Route::Shield
    } else if same_str(s, "/api/unshield") {
        Route::Unshield
    } else if same_str(s, "/api/faucet") {
        Route::Faucet
    } else if same_str(s, "/api/market") {
        Route::Market
    } else if same_str(s, "/api/activity") {
        Route::Activity
    } else if same_str(s, "/api/swap") {
        Route::Swap
    } else if same_str(s, "/api/dex/pool") {
        Route::DexPool
    } else if same_str(s, "/api/dex/add") {
        Route::DexAdd
    } else if same_str(s, "/api/dex/remove") {
        Route::DexRemove
    } else if same_str(s, "/api/dex/swap") {
        Route::DexSwap
    } else if same_str(s, "/api/bridge/quote") {
        Route::BridgeQuote
    } else if same_str(s, "/api/bridge/lock") {
        Route::BridgeLock
    } else if same_str(s, "/api/bridge/claim") {
        Route::BridgeClaim
    } else if same_str(s, "/api/bridge/refund") {
        Route::BridgeRefund
    } else if same_str(s, "/api/bridge/list") {
        Route::BridgeList
    } else {
        Route::NotFound
    }
}

// --- requests ------------------------------------------------------------------------

/// The target in the first line of a request: its second word, or the page where it
/// has none.
pub open spec fn target_in(line: Seq<char>) -> Seq<char> {
    let second = text::first_word(text::after_word(line));
    if second.len() > 0 {
        second
    } else {
        "/"@
    }
}

/// The target in the first line of a request.
pub fn request_target(line: &str) -> (r: String)
    ensures
        r@ == target_in(line@),
{
    let c = chars_of(line);
    assert(c@.subrange(0, c@.len() as int) =~= c@);
    let (_lo, end) = word_from(&c, 0);
    let (from, to) = word_from(&c, end);
    if from == to {
        return "/".to_owned();
    }
    line.substring_char(from, to).to_owned()
}

/// The bytes that a text in a query stands for, from place `i` on: `%` and two
/// hexadecimal digits stand for a byte, a plus sign for a space.
pub open spec fn unquoted(b: Seq<u8>, i: int) -> Seq<u8>
    decreases b.len() - i,
{
    if i < 0 || i >= b.len() {
        Seq::empty()
    } else if b[i] == 37 && i + 2 < b.len() && numbers::hex_pair(b[i + 1], b[i + 2]) is Some {
        seq![numbers::hex_pair(b[i + 1], b[i + 2])->0] + unquoted(b, i + 3)
    } else if b[i] == 43 {
        seq![32u8] + unquoted(b, i + 1)
    } else {
        seq![b[i]] + unquoted(b, i + 1)
    }
}

/// The text that `String::from_utf8_lossy` makes of bytes.
pub uninterp spec fn lossy_text(b: Seq<u8>) -> Seq<char>;

/// `String::from_utf8_lossy`: the text with this UTF-8 form; where the bytes are not
/// UTF-8, what is not is replaced. The result is a function of the bytes.
#[verifier::external_body]
fn lossy_string(b: &[u8]) -> (s: String)
    ensures
        s@ == lossy_text(b@),
        valid_utf8(b@) ==> s@ == decode_utf8(b@),
{
    String::from_utf8_lossy(b).into_owned()
}

/// The bytes that a text in a query stands for.
pub fn unquote(s: &str) -> (v: Vec<u8>)
    ensures
        v@ == unquoted(encode_utf8(s@), 0),
{
    let b = s.as_bytes();
    let ghost all = encode_utf8(s@);
    let mut v: Vec<u8> = Vec::new();
    let mut i: usize = 0;
    assert(v@ + unquoted(all, 0) =~= unquoted(all, 0));
    while i < b.len()
        invariant
            i <= b@.len(),
            b@ == all,
            v@ + unquoted(all, i as int) == unquoted(all, 0),
        decreases b@.len() - i,
    {
        let ghost had = v@;
        if b[i] == 37 && b.len() - i > 2 {
            if let Some(x) = hex_pair_of(b[i + 1], b[i + 2]) {
                v.push(x);
                assert(v@ + unquoted(all, i + 3) =~= had + unquoted(all, i as int));
                i += 3;
                continue;
            }
        }
        if b[i] == 43 {
            v.push(32);
        } else {
            v.push(b[i]);
        }
        assert(v@ + unquoted(all, i + 1) =~= had + unquoted(all, i as int));
        i += 1;
    }
    assert(v@ + unquoted(all, i as int) =~= v@);
    v
}

/// A text in a query, decoded.
pub fn url_decode(s: &str) -> (r: String)
    ensures
        r@ == lossy_text(unquoted(encode_utf8(s@), 0)),
        valid_utf8(unquoted(encode_utf8(s@), 0)) ==> r@ == decode_utf8(
            unquoted(encode_utf8(s@), 0),
        ),
{
    let v = unquote(s);
    lossy_string(v.as_slice())
}

/// The values that pieces of a query give on top of those in `m`.
pub open spec fn query_values(
    parts: Seq<Seq<char>>,
    m: Map<Seq<char>, Seq<char>>,
) -> Map<Seq<char>, Seq<char>>
    decreases parts.len(),
{
    if parts.len() == 0 {
        m
    } else {
        let rest = parts.subrange(1, parts.len() as int);
        let p = parts[0];
        if text::find(p, '=') < p.len() {
            let (k, v) = text::halves(p, '=');
            query_values(rest, m.insert(k, lossy_text(unquoted(encode_utf8(v), 0))))
        } else {
            query_values(rest, m)
        }
    }
}

/// Split a target into its path and the values in its query. A piece of the query
/// without an equals sign is ignored.
pub fn parse_target(target: &str) -> (r: (String, Params))
    ensures
        r.0@ == text::halves(target@, '?').0,
        r.1@ == query_values(text::pieces(text::halves(target@, '?').1, '&'), Map::empty()),
{
    let c = chars_of(target);
    assert(c@.subrange(0, c@.len() as int) =~= c@);
    let mark = find_from(&c, 0, '?');
    let path = target.substring_char(0, mark).to_owned();
    proof {
        if mark == c@.len() {
            assert(c@.subrange(0, mark as int) =~= c@);
        }
    }
    let ghost query = text::halves(target@, '?').1;
    let ghost want = query_values(text::pieces(query, '&'), Map::empty());
    let mut params = Params::new();
    let mut at: usize = if mark < c.len() {
        mark + 1
    } else {
        mark
    };
    let mut more = true;
    assert(c@.subrange(at as int, c@.len() as int) =~= query);
    while more
        invariant
            at <= c@.len(),
            c@ == target@,
            more ==> query_values(
                text::pieces(c@.subrange(at as int, c@.len() as int), '&'),
                params@,
            ) == want,
            !more ==> params@ == want,
        decreases (if more { c@.len() - at + 1 } else { 0 }),
    {
        let ghost rest = c@.subrange(at as int, c@.len() as int);
        let ghost parts = text::pieces(rest, '&');
        let ghost had = params@;
        let end = find_from(&c, at, '&');
        let ghost piece = c@.subrange(at as int, end as int);
        proof {
            if end < c@.len() {
                assert(rest.subrange(0, end - at) =~= piece);
                assert(rest.subrange(end - at + 1, rest.len() as int) =~= c@.subrange(
                    end + 1,
                    c@.len() as int,
                ));
                assert(parts.subrange(1, parts.len() as int) =~= text::pieces(
                    c@.subrange(end + 1, c@.len() as int),
                    '&',
                ));
            } else {
                assert(piece =~= rest);
                assert(parts.subrange(1, parts.len() as int) =~= Seq::empty());
            }
            assert(parts[0] == piece);
        }
        let sign = find_from(&c, at, '=');
        proof {
            if sign < end {
                text::lemma_find(piece, '=', sign - at);
            } else {
                text::lemma_find(piece, '=', piece.len() as int);
            }
        }
        if sign < end {
            let key = target.substring_char(at, sign).to_owned();
            let value = url_decode(target.substring_char(sign + 1, end));
            proof {
                assert(piece.subrange(0, sign - at) =~= c@.subrange(at as int, sign as int));
                assert(piece.subrange(sign - at + 1, piece.len() as int) =~= c@.subrange(
                    sign + 1,
                    end as int,
                ));
            }
            params.insert(key, value);
        }
        if end < c.len() {
            at = end + 1;
        } else {
            more = false;
            assert(query_values(Seq::empty(), params@) == params@);
        }
    }
    (path, params)
}

// --- what a request gives ------------------------------------------------------------

/// The network that a request names: the test network unless it says otherwise.
pub fn network(p: &Params) -> (r: Network)
    ensures
        r == if p@.contains_key("net"@) && p@["net"@] == "mainnet"@ {
            Network::Mainnet
        } else {
            Network::Testnet
        },
{
    match p.get("net") {
        Some(s) => {
            if same_str(s.as_str(), "mainnet") {
                Network::Mainnet
            } else {
                Network::Testnet
            }
        },
        None => Network::Testnet,
    }
}

/// The node that a request names.
pub fn node(p: &Params) -> (r: String)
    ensures
        r@ == if p@.contains_key("node"@) {
            p@["node"@]
        } else {
            "127.0.0.1:4040"@
        },
{
    match p.get("node") {
        Some(s) => s.clone(),
        None => "127.0.0.1:4040".to_owned(),
    }
}

/// Why a request's values do not do.
#[derive(Clone, Copy, Debug, PartialEq, Eq)]
pub enum RequestError {
    InvalidSeed,
    InvalidAmount,
}

/// The base units that an amount of LAT in a request says.
pub open spec fn amount_in(s: Seq<char>) -> Option<u64> {
    match amounts::amount_of(text::trimmed(s)) {
        Some(n) => if n <= u64::MAX {
            Some(n as u64)
        } else {
            None
        },
        None => None,
    }
}

/// Read an amount of LAT, as base units.
pub fn parse_lat(s: &str) -> (r: Option<u64>)
    ensures
        r == amount_in(s@),
{
    parse_amount(trim_str(s))
}

/// An amount as it is shown.
pub fn lat(units: u64) -> (s: String)
    ensures
        s@ == amounts::amount_text(units),
{
    amount_string(units)
}

/// An amount that is shown reads back.
pub proof fn law_shown_amount_reads_back(units: u64)
    ensures
        amount_in(amounts::amount_text(units)) == Some(units),
{
    let t = amounts::amount_text(units);
    let none = Seq::<char>::empty();
    assert(t + none =~= t);
    amounts::law_amount_reads_back(units, none);
    numbers::lemma_dec((units / amounts::UNITS) as nat);
    assert(t[0] as u32 == amounts::amount_bytes(units)[0] as u32);
    assert(t.last() as u32 == amounts::amount_bytes(units).last() as u32);
    assert(!text::is_space(t[0]));
    assert(!text::is_space(t.last()));
    assert(text::trimmed(t) == t);
}

/// The value that a request gives for a name, as an amount of LAT.
pub open spec fn amount_param(p: Map<Seq<char>, Seq<char>>, key: Seq<char>) -> Option<u64> {
    if p.contains_key(key) {
        amount_in(p[key])
    } else {
        None
    }
}

/// The value that a request gives for a name, as an amount of LAT.
pub fn lat_param(p: &Params, key: &str) -> (r: Option<u64>)
    ensures
        r == amount_param(p@, key@),
{
    match p.get(key) {
        Some(s) => parse_lat(s.as_str()),
        None => None,
    }
}

/// The seed that a request gives.
pub fn seed_param(p: &Params) -> (r: Option<[u8; 32]>)
    ensures
        match r {
            Some(seed) => p@.contains_key("seed"@) && wallet::backed_up(p@["seed"@]) == Some(seed@),
            None => p@.contains_key("seed"@) ==> wallet::backed_up(p@["seed"@]) is None,
        },
{
    match p.get("seed") {
        Some(s) => match seed_from_hex(s.as_str()) {
            Ok(seed) => Some(seed),
            Err(_) => None,
        },
        None => None,
    }
}

/// What every request that moves value gives: the wallet's seed and the amount.
pub fn seed_and_amount(p: &Params) -> (r: Result<([u8; 32], u64), RequestError>)
    ensures
        ({
            let seeded = p@.contains_key("seed"@) && wallet::backed_up(p@["seed"@]) is Some;
            match r {
                Ok((seed, amount)) => seeded && wallet::backed_up(p@["seed"@]) == Some(seed@)
                    && amount_param(p@, "amount"@) == Some(amount),
                Err(RequestError::InvalidSeed) => !seeded,
                Err(RequestError::InvalidAmount) => seeded && amount_param(p@, "amount"@) is None,
            }
        }),
{
    match seed_param(p) {
        None => Err(RequestError::InvalidSeed),
        Some(seed) => match lat_param(p, "amount") {
            Some(amount) => Ok((seed, amount)),
            None => Err(RequestError::InvalidAmount),
        },
    }
}

/// The pool shares that a request gives: a whole number above zero.
pub fn shares_param(p: &Params) -> (r: Option<u64>)
    ensures
        match r {
            Some(n) => n > 0 && p@.contains_key("lp"@) && numbers::number(
                text::trimmed(p@["lp"@]),
            ) == Some(n as nat),
            None => p@.contains_key("lp"@) ==> {
                let n = numbers::number(text::trimmed(p@["lp"@]));
                n is None || n->0 == 0 || n->0 > u64::MAX
            },
        },
{
    match p.get("lp") {
        Some(s) => match numbers::parse_u64(trim_str(s.as_str())) {
            Some(n) => {
                if n > 0 {
                    Some(n)
                } else {
                    None
                }
            },
            None => None,
        },
        None => None,
    }
}

// --- replies ----------------------------------------------------------------------------

/// A character inside a JSON text.
pub open spec fn escaped_char(c: char) -> Seq<char> {
    if c == '\\' {
        seq!['\\', '\\']
    } else if c == '"' {
        seq!['\\', '"']
    } else {
        seq![c]
    }
}

/// A text inside a JSON text: backslashes and quotes have a backslash before them.
pub open spec fn escaped(s: Seq<char>) -> Seq<char>
    decreases s.len(),
{
    if s.len() == 0 {
        Seq::empty()
    } else {
        escaped(s.drop_last()) + escaped_char(s.last())
    }
}

/// A text inside a JSON text.
pub fn esc(s: &str) -> (r: String)
    ensures
        r@ == escaped(s@),
{
    let c = chars_of(s);
    let mut r = String::new();
    let mut i: usize = 0;
    assert(c@.take(0) =~= Seq::empty());
    while i < c.len()
        invariant
            i <= c@.len(),
            c@ == s@,
            r@ == escaped(c@.take(i as int)),
        decreases c@.len() - i,
    {
        let ghost now = c@.take(i + 1);
        let ghost had = r@;
        proof {
            assert(now.drop_last() =~= c@.take(i as int));
            assert(now.last() == c@[i as int]);
            reveal_strlit("\\\\");
            reveal_strlit("\\\"");
        }
        if c[i] == '\\' {
            r.append("\\\\");
        } else if c[i] == '"' {
            r.append("\\\"");
        } else {
            r.append(s.substring_char(i, i + 1));
        }
        assert(r@ =~= had + escaped_char(c@[i as int]));
        i += 1;
    }
    assert(c@.take(c@.len() as int) =~= c@);
    r
}

/// What a reader makes of an escaped text: a backslash stands for the character
/// after it.
pub open spec fn unescaped(s: Seq<char>, i: int) -> Seq<char>
    decreases s.len() - i,
{
    if i < 0 || i >= s.len() {
        Seq::empty()
    } else if s[i] == '\\' && i + 1 < s.len() {
        seq![s[i + 1]] + unescaped(s, i + 2)
    } else {
        seq![s[i]] + unescaped(s, i + 1)
    }
}

/// What was escaped reads back.
pub proof fn law_escaped_reads_back(s: Seq<char>)
    ensures
        unescaped(escaped(s), 0) == s,
{
    lemma_unescape(s, Seq::empty());
    assert(escaped(s) + Seq::<char>::empty() =~= escaped(s));
    assert(unescaped(Seq::<char>::empty(), 0) =~= Seq::empty());
    assert(s + Seq::<char>::empty() =~= s);
}

/// An escaped text in front is read as the text.
proof fn lemma_unescape(s: Seq<char>, more: Seq<char>)
    ensures
        unescaped(escaped(s) + more, 0) == s + unescaped(more, 0),
    decreases s.len(),
{
    if s.len() == 0 {
        assert(escaped(s) + more =~= more);
        assert(s + unescaped(more, 0) =~= unescaped(more, 0));
    } else {
        let front = s.drop_last();
        let e = escaped_char(s.last());
        lemma_unescape(front, e + more);
        assert(escaped(s) + more =~= escaped(front) + (e + more));
        let t = e + more;
        if e.len() == 2 {
            assert(t.subrange(2, t.len() as int) =~= more);
            lemma_shift(t, more, 2, 0);
            assert(unescaped(t, 0) =~= seq![s.last()] + unescaped(t, 2));
        } else {
            assert(t.subrange(1, t.len() as int) =~= more);
            lemma_shift(t, more, 1, 0);
            assert(t[0] == s.last());
            assert(unescaped(t, 0) =~= seq![s.last()] + unescaped(t, 1));
        }
        assert(front + (seq![s.last()] + unescaped(more, 0)) =~= s + unescaped(more, 0));
    }
}

proof fn lemma_shift(t: Seq<char>, more: Seq<char>, k: int, i: int)
    requires
        0 <= k <= t.len(),
        t.subrange(k, t.len() as int) == more,
        0 <= i <= more.len(),
    ensures
        unescaped(t, k + i) == unescaped(more, i),
    decreases more.len() - i,
{
    if i < more.len() {
        assert(t[k + i] == more[i]);
        if more[i] == '\\' && i + 1 < more.len() {
            assert(t[k + i + 1] == more[i + 1]);
            lemma_shift(t, more, k, i + 2);
        } else {
            lemma_shift(t, more, k, i + 1);
        }
    }
}

/// The reply that something was done.
pub fn ok(msg: &str) -> (r: String)
    ensures
        r@ == "{\"ok\":true,\"msg\":\""@ + escaped(msg@) + "\"}"@,
{
    let mut r = "{\"ok\":true,\"msg\":\"".to_owned();
    r.append(esc(msg).as_str());
    r.append("\"}");
    r
}

/// The reply that something was not done.
pub fn err(msg: &str) -> (r: String)
    ensures
        r@ == "{\"ok\":false,\"error\":\""@ + escaped(msg@) + "\"}"@,
{
    let mut r = "{\"ok\":false,\"error\":\"".to_owned();
    r.append(esc(msg).as_str());
    r.append("\"}");
    r
}

/// A new wallet.
pub fn wallet_json(seed: &str, address: &str) -> (r: String)
    ensures
        r@ == "{\"seed\":\""@ + seed@ + "\",\"address\":\""@ + address@ + "\"}"@,
{
    let mut r = "{\"seed\":\"".to_owned();
    r.append(seed);
    r.append("\",\"address\":\"");
    r.append(address);
    r.append("\"}");
    r
}

/// A wallet's address.
pub fn address_json(address: &str) -> (r: String)
    ensures
        r@ == "{\"address\":\""@ + address@ + "\"}"@,
{
    let mut r = "{\"address\":\"".to_owned();
    r.append(address);
    r.append("\"}");
    r
}

/// The reply for an account that is not registered.
pub fn unregistered_json(address: &str) -> (r: String)
    ensures
        r@ == "{\"registered\":false,\"address\":\""@ + address@ + "\"}"@,
{
    let mut r = "{\"registered\":false,\"address\":\"".to_owned();
    r.append(address);
    r.append("\"}");
    r
}

/// The sum of two amounts, at most the largest there is.
pub open spec fn capped_sum(a: u64, b: u64) -> u64 {
    if a + b > u64::MAX {
        u64::MAX
    } else {
        (a + b) as u64
    }
}

/// The balances of a registered account.
pub fn balance_json(address: &str, spendable: u64, pending: u64, public: u64, usdc: u64) -> (r:
    String)
    ensures
        r@ == "{\"registered\":true,\"address\":\""@ + address@ + "\",\"spendable\":\""@
            + amounts::amount_text(spendable) + "\",\"pending\":\""@ + amounts::amount_text(pending)
            + "\",\"public\":\""@ + amounts::amount_text(public) + "\",\"total\":\""@
            + amounts::amount_text(capped_sum(spendable, public)) + "\",\"usdc\":\""@
            + amounts::amount_text(usdc) + "\"}"@,
{
    let mut r = "{\"registered\":true,\"address\":\"".to_owned();
    r.append(address);
    r.append("\",\"spendable\":\"");
    r.append(lat(spendable).as_str());
    r.append("\",\"pending\":\"");
    r.append(lat(pending).as_str());
    r.append("\",\"public\":\"");
    r.append(lat(public).as_str());
    r.append("\",\"total\":\"");
    r.append(lat(spendable.saturating_add(public)).as_str());
    r.append("\",\"usdc\":\"");
    r.append(lat(usdc).as_str());
    r.append("\"}");
    r
}

/// A whole reply to a request: status line, headers and body.
pub fn http_response(content_type: &str, body: &str) -> (r: String)
    ensures
        r@ == "HTTP/1.1 200 OK\r\nContent-Type: "@ + content_type@
            + "\r\nConnection: close\r\nContent-Length: "@ + numbers::decimal(
            encode_utf8(body@).len(),
        ) + "\r\n\r\n"@ + body@,
{
    let n: usize = body.as_bytes().len();
    let mut r = "HTTP/1.1 200 OK\r\nContent-Type: ".to_owned();
    r.append(content_type);
    r.append("\r\nConnection: close\r\nContent-Length: ");
    r.append(decimal_string(n as u64).as_str());
    r.append("\r\n\r\n");
    r.append(body);
    r
}

} // verus!
