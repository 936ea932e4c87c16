//! Quotes for swaps against a token's pool.

use vstd::prelude::*;
use vstd::string::*;

use crate::amounts;
use crate::amounts::amount_string;
use crate::bytes::same_str;
use crate::numbers;
use crate::numbers::decimal_string;
use crate::params::Params;
use crate::text;
use crate::text::upper_string;

verus! {

/// What the pool pays out for `amount` paid in, with the 0.3% fee kept back: the
/// reserves' product never falls.
pub open spec fn swap_out(amount: int, r_in: int, r_out: int) -> int {
    amount * 9_970 * r_out / (r_in * 10_000 + amount * 9_970)
}

/// What the pool pays out for `amount` paid in. `None`: pool and amount are empty, or
/// the product is too large to compute with.
pub fn quote(amount: u64, r_in: u64, r_out: u64) -> (r: Option<u64>)
    ensures
        r is None <==> (r_in == 0 && amount == 0) || amount * 9_970 * r_out > u128::MAX,
        r is Some ==> r->0 == swap_out(amount as int, r_in as int, r_out as int) && r->0 <= r_out,
{
    let paid: u128 = (amount as u128) * 9_970;
    let total: u128 = (r_in as u128) * 10_000 + paid;
    if total == 0 {
        return None;
    }
    match paid.checked_mul(r_out as u128) {
        None => None,
        Some(n) => {
            proof {
                lemma_out_bound(amount as int, r_in as int, r_out as int);
            }
            Some((n / total) as u64)
        },
    }
}

proof fn lemma_out_bound(amount: int, r_in: int, r_out: int)
    requires
        amount >= 0,
        r_in >= 0,
        r_out >= 0,
        r_in * 10_000 + amount * 9_970 > 0,
    ensures
        0 <= swap_out(amount, r_in, r_out) <= r_out,
        swap_out(amount, r_in, r_out) * (r_in * 10_000 + amount * 9_970) <= amount * 9_970 * r_out,
        r_in > 0 && r_out > 0 ==> swap_out(amount, r_in, r_out) < r_out,
{
    let d = r_in * 10_000 + amount * 9_970;
    let p = amount * 9_970;
    let n = p * r_out;
    let q = n / d;
    assert(n >= 0) by (nonlinear_arith)
        requires
            p >= 0,
            r_out >= 0,
            n == p * r_out,
    ;
    assert(q >= 0 && q * d <= n) by (nonlinear_arith)
        requires
            d > 0,
            n >= 0,
            q == n / d,
    ;
    assert(n <= d * r_out) by (nonlinear_arith)
        requires
            0 <= p <= d,
            r_out >= 0,
            n == p * r_out,
    ;
    assert(q <= r_out) by (nonlinear_arith)
        requires
            q * d <= n,
            n <= d * r_out,
            d > 0,
    ;
    if r_in > 0 && r_out > 0 {
        assert(n < d * r_out) by (nonlinear_arith)
            requires
                0 <= p < d,
                r_out > 0,
                n == p * r_out,
        ;
        assert(q < r_out) by (nonlinear_arith)
            requires
                q * d <= n,
                n < d * r_out,
                d > 0,
        ;
    }
}

/// A swap never takes the last of a reserve, and never lowers the product of the
/// reserves.
pub proof fn law_swap_keeps_the_pool(amount: int, r_in: int, r_out: int)
    requires
        amount >= 0,
        r_in > 0,
        r_out > 0,
    ensures
        swap_out(amount, r_in, r_out) < r_out,
        (r_in + amount) * (r_out - swap_out(amount, r_in, r_out)) >= r_in * r_out,
{
    lemma_out_bound(amount, r_in, r_out);
    let q = swap_out(amount, r_in, r_out);
    assert(9_970 * (q * (r_in + amount)) <= q * (r_in * 10_000 + amount * 9_970))
        by (nonlinear_arith)
        requires
            q >= 0,
            r_in > 0,
            amount >= 0,
    ;
    assert(amount * 9_970 * r_out == 9_970 * (amount * r_out)) by (nonlinear_arith);
    assert(q * (r_in + amount) <= amount * r_out);
    assert((r_in + amount) * (r_out - q) == r_in * r_out + amount * r_out - q * (r_in + amount))
        by (nonlinear_arith);
}

/// The least that a swap is to pay out: what the caller says, or the quote less one
/// per cent.
pub fn least_out(quoted: u64, wished: Option<u64>) -> (r: u64)
    ensures
        r == match wished {
            Some(m) => m as int,
            None => quoted - quoted / 100,
        },
        wished is None ==> 99 * quoted <= 100 * r < 99 * quoted + 100,
{
    match wished {
        Some(m) => m,
        None => quoted - quoted / 100,
    }
}

/// The reserves as a swap sees them: the one paid into first.
pub fn sides(lat_in: bool, lat: u64, tok: u64) -> (r: (u64, u64))
    ensures
        r == if lat_in {
            (lat, tok)
        } else {
            (tok, lat)
        },
        r == (lat, tok) || r == (tok, lat),
        lat != tok ==> (lat_in <==> r.0 == lat),
{
    if lat_in {
        (lat, tok)
    } else {
        (tok, lat)
    }
}

/// Why a swap against a pool is not tried.
#[derive(Clone, Copy, Debug, PartialEq, Eq)]
pub enum QuoteError {
    /// It would pay nothing out.
    TooSmall,
    /// The quote is too large to compute.
    TooLarge,
}

/// Quote a swap against a pool with these reserves of LAT and of the token: what it
/// pays out, and the least that it is to pay out, which is what the caller wishes or
/// the quote less one per cent.
pub fn pool_swap(lat_in: bool, amount: u64, lat: u64, tok: u64, wished: Option<u64>) -> (r: Result<
    (u64, u64),
    QuoteError,
>)
    requires
        amount > 0 || lat_in && lat > 0 || !lat_in && tok > 0,
    ensures
        ({
            let (r_in, r_out) = if lat_in {
                (lat as int, tok as int)
            } else {
                (tok as int, lat as int)
            };
            let out = swap_out(amount as int, r_in, r_out);
            match r {
                Ok((quoted, least)) => {
                    &&& quoted == out
                    &&& out > 0
                    &&& least == match wished {
                        Some(m) => m as int,
                        None => out - out / 100,
                    }
                },
                Err(QuoteError::TooLarge) => amount * 9_970 * r_out > u128::MAX,
                Err(QuoteError::TooSmall) => amount * 9_970 * r_out <= u128::MAX && out == 0,
            }
        }),
        lat > 0 && tok > 0 && lat_in ==> (r matches Ok((quoted, _)) ==> (lat + amount) * (tok
            - quoted) >= lat * tok),
        lat > 0 && tok > 0 && !lat_in ==> (r matches Ok((quoted, _)) ==> (tok + amount) * (lat
            - quoted) >= lat * tok),
{
    let (r_in, r_out) = sides(lat_in, lat, tok);
    proof {
        if lat > 0 && tok > 0 {
            law_swap_keeps_the_pool(amount as int, r_in as int, r_out as int);
            vstd::arithmetic::mul::lemma_mul_is_commutative(lat as int, tok as int);
        }
    }
    match quote(amount, r_in, r_out) {
        None => Err(QuoteError::TooLarge),
        Some(quoted) => {
            if quoted == 0 {
                return Err(QuoteError::TooSmall);
            }
            Ok((quoted, least_out(quoted, wished)))
        },
    }
}

/// Whether a request swaps LAT for the token `ticker`: it does unless it says that it
/// pays with that token.
pub fn swaps_lat(p: &Params, ticker: &str) -> (r: bool)
    ensures
        r == !(p@.contains_key("from"@) && text::upper_text(p@["from"@]) == text::upper_text(
            ticker@,
        )),
{
    match p.get("from") {
        Some(s) => !same_str(upper_string(s.as_str()).as_str(), upper_string(ticker).as_str()),
        None => true,
    }
}

/// Whether a token's bonding curve takes trades: one that is not there yet opens with
/// the first buy, one that has graduated is locked.
pub fn curve_open(curve: &Option<(u64, u64, u64, bool)>) -> (r: bool)
    ensures
        r == match *curve {
            Some(c) => !c.3,
            None => true,
        },
{
    match curve {
        Some(c) => !c.3,
        None => true,
    }
}

/// A pool as JSON, with the account's shares and the price as it is shown.
pub fn pool_json(token: u32, lat: u64, tok: u64, shares: u64, own: u64, price: &str) -> (r: String)
    ensures
        r@ == "{\"ok\":true,\"exists\":true,\"token\":"@ + numbers::decimal(token as nat)
            + ",\"lat\":\""@ + amounts::amount_text(lat) + "\",\"tok\":\""@
            + amounts::amount_text(tok) + "\",\"lp\":"@ + numbers::decimal(shares as nat)
            + ",\"myLp\":"@ + numbers::decimal(own as nat) + ",\"price\":"@ + price@ + "}"@,
{
    let mut r = "{\"ok\":true,\"exists\":true,\"token\":".to_owned();
    r.append(decimal_string(token as u64).as_str());
    r.append(",\"lat\":\"");
    r.append(amount_string(lat).as_str());
    r.append("\",\"tok\":\"");
    r.append(amount_string(tok).as_str());
    r.append("\",\"lp\":");
    r.append(decimal_string(shares).as_str());
    r.append(",\"myLp\":");
    r.append(decimal_string(own).as_str());
    r.append(",\"price\":");
    r.append(price);
    r.append("}");
    r
}

/// The reply that a token has no pool yet.
pub fn no_pool_json(token: u32) -> (r: String)
    ensures
        r@ == "{\"ok\":true,\"exists\":false,\"token\":"@ + numbers::decimal(token as nat)
            + ",\"myLp\":0}"@,
{
    let mut r = "{\"ok\":true,\"exists\":false,\"token\":".to_owned();
    r.append(decimal_string(token as u64).as_str());
    r.append(",\"myLp\":0}");
    r
}

} // verus!
