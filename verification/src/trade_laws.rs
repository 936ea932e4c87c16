//! What holds of quotes, of swaps at the desk, and of the terms of a swap with another
//! chain.

use vstd::prelude::*;

use crate::address::Network;
use crate::amounts;
use crate::bridge;
use crate::bridge::{BridgeError, BridgeTerms, Chain};
use crate::cli;
use crate::cli::FlagError;
use crate::desk;
use crate::desk::{Action, DeskSwap, Event, Stage, SwapError};
use crate::market;
use crate::numbers;
use crate::text;

verus! {

// --- pools ----------------------------------------------------------------------------

/// A pool takes three tenths of a per cent and pays out what then keeps the reserves'
/// product, rounded down: the payout is the largest that leaves the product of the
/// reserves, with 997 thousandths of the payment counted, no smaller than it was.
pub proof fn law_swap_pays_the_most(amount: int, r_in: int, r_out: int, more: int)
    requires
        amount >= 0,
        r_in > 0,
        r_out > 0,
    ensures
        ({
            let out = market::swap_out(amount, r_in, r_out);
            let paid = 1_000 * r_in + 997 * amount;
            &&& 0 <= out < r_out
            &&& paid * (r_out - out) >= 1_000 * r_in * r_out
            &&& more > out ==> paid * (r_out - more) < 1_000 * r_in * r_out
        }),
{
    let out = market::swap_out(amount, r_in, r_out);
    let d = r_in * 10_000 + amount * 9_970;
    let n = amount * 9_970 * r_out;
    market::law_swap_keeps_the_pool(amount, r_in, r_out);
    let paid = 1_000 * r_in + 997 * amount;
    assert(d == 10 * paid);
    assert(n >= 0) by (nonlinear_arith)
        requires
            n == amount * 9_970 * r_out,
            amount >= 0,
            r_out > 0,
    ;
    vstd::arithmetic::div_mod::lemma_fundamental_div_mod(n, d);
    vstd::arithmetic::div_mod::lemma_mod_bound(n, d);
    assert(out == n / d);
    assert(0 <= out) by (nonlinear_arith)
        requires
            out == n / d,
            n >= 0,
            d > 0,
    ;
    assert(d * out <= n < d * out + d);
    let p = 997 * amount * r_out;
    assert(n == 10 * p) by (nonlinear_arith)
        requires
            n == amount * 9_970 * r_out,
            p == 997 * amount * r_out,
    ;
    assert(d * out == 10 * (paid * out)) by (nonlinear_arith)
        requires
            d == 10 * paid,
    ;
    assert(paid * out <= p && p < paid * out + paid);
    assert(paid * (r_out - out) == 1_000 * r_in * r_out + p - paid * out) by (nonlinear_arith)
        requires
            paid == 1_000 * r_in + 997 * amount,
            p == 997 * amount * r_out,
    ;
    if more > out {
        assert(paid * more >= paid * out + paid) by (nonlinear_arith)
            requires
                more >= out + 1,
                paid > 0,
        ;
        assert(paid * (r_out - more) == 1_000 * r_in * r_out + p - paid * more)
            by (nonlinear_arith)
            requires
                paid == 1_000 * r_in + 997 * amount,
                p == 997 * amount * r_out,
        ;
    }
}

/// Paying more never buys less.
pub proof fn law_more_buys_more(amount: int, more: int, r_in: int, r_out: int)
    requires
        0 <= amount <= more,
        r_in > 0,
        r_out > 0,
    ensures
        market::swap_out(amount, r_in, r_out) <= market::swap_out(more, r_in, r_out),
{
    let out = market::swap_out(amount, r_in, r_out);
    let big = market::swap_out(more, r_in, r_out);
    law_swap_pays_the_most(amount, r_in, r_out, out);
    law_swap_pays_the_most(more, r_in, r_out, out);
    if out > big {
        let a = 1_000 * r_in + 997 * amount;
        let b = 1_000 * r_in + 997 * more;
        assert(a * (r_out - out) <= b * (r_out - out)) by (nonlinear_arith)
            requires
                a <= b,
                r_out - out >= 0,
        ;
    }
}

// --- the desk -----------------------------------------------------------------------------

/// A swap at the desk remembers what it was told, in its place, and the customer's side,
/// amount and fee never change.
pub proof fn law_desk_remembers(s: DeskSwap, e: Event)
    requires
        desk::fits(s.stage, e),
    ensures
        ({
            let t = desk::after(s, e).0;
            &&& t.pays_lat == s.pays_lat && t.amount == s.amount && t.fee == s.fee
            &&& match e {
                Event::Token(Some(usdc)) => t.usdc == usdc,
                _ => t.usdc == s.usdc,
            }
            &&& match e {
                Event::Price(n) => n > 0 ==> t.received == n,
                _ => t.received == s.received,
            }
            &&& match e {
                Event::Nonce(Some(n)) => t.nonce == n,
                _ => t.nonce == s.nonce,
            }
            &&& match e {
                Event::DeskNonce(Some(n)) => t.desk_nonce == n,
                _ => t.desk_nonce == s.desk_nonce,
            }
        }),
{
}

/// The desk asks in turn: for the token, its price, the customer's balance of the token
/// that the customer pays with, both nonces and its own stock; it proves what it pays in
/// USDC; then come the payment and the payout.
pub proof fn law_desk_asks_in_turn(s: DeskSwap, e: Event)
    requires
        desk::fits(s.stage, e),
    ensures
        match desk::after(s, e).1 {
            Action::FindToken => false,
            Action::FindPrice => s.stage == Stage::Market && e is Token,
            Action::FindBalance(t) => s.stage == Stage::Price && e is Price && t == if s.pays_lat {
                0
            } else {
                s.usdc
            },
            Action::FindNonce => s.stage == Stage::Balance && (e matches Event::Balance(Some(b))
                && b - s.fee >= s.amount),
            Action::FindDeskNonce => s.stage == Stage::Nonce && e is Nonce,
            Action::FindHoldings => s.stage == Stage::DeskNonce && e is DeskNonce,
            Action::Prove => s.stage == Stage::Holdings && s.pays_lat && (e matches Event::Holdings(
                Some(h),
            ) && h - s.fee >= s.received),
            Action::SendPayment => s.stage == Stage::Proof && e == Event::Proven(true) || s.stage
                == Stage::Holdings && !s.pays_lat && (e matches Event::Holdings(Some(h)) && h
                - s.fee >= s.received),
            Action::SendPayout => s.stage == Stage::Payment && e == Event::Sent(true),
            Action::Finish => s.stage == Stage::Payout && e == Event::Sent(true),
            Action::Fail(_) => desk::after(s, e).0.stage == Stage::Done,
        },
{
}

/// Whether an error is the right one for what was found.
pub open spec fn caused(s: DeskSwap, e: Event, x: SwapError) -> bool {
    match x {
        SwapError::Opening => e == Event::Token(None),
        SwapError::TooSmall => e == Event::Price(0),
        SwapError::Insufficient => e matches Event::Balance(b) && match b {
            Some(n) => n - s.fee < s.amount,
            None => true,
        },
        SwapError::NotRegistered => e == Event::Nonce(None),
        SwapError::NoDesk => e == Event::DeskNonce(None) || s.stage == Stage::DeskNonce
            && e is Unreachable || s.pays_lat && e == Event::Holdings(None),
        SwapError::BadDeskData => e is Unreadable,
        SwapError::OutOfUsdc => s.pays_lat && (e matches Event::Holdings(Some(h)) && h - s.fee
            < s.received),
        SwapError::OutOfLat => !s.pays_lat && (e matches Event::Holdings(h) && match h {
            Some(n) => n - s.fee < s.received,
            None => true,
        }),
        SwapError::Unproven => e == Event::Proven(false),
        SwapError::Rejected => s.stage == Stage::Payment && e == Event::Sent(false),
        SwapError::DeskLeg => s.stage == Stage::Payout && (e == Event::Sent(false)
            || e is Unreachable),
        SwapError::Unreachable => e is Unreachable && s.stage != Stage::Payout && s.stage
            != Stage::DeskNonce,
    }
}

/// A swap fails for what it says it fails for, and wherever one of these is found.
pub proof fn law_desk_fails_for_its_cause(s: DeskSwap, e: Event, x: SwapError)
    requires
        desk::fits(s.stage, e),
    ensures
        (desk::after(s, e).1 == Action::Fail(x)) == caused(s, e, x),
{
}

/// What the customer pays with and what the desk pays out are the two sides of the
/// market: LAT has the id zero.
pub proof fn law_desk_side(s: DeskSwap)
    ensures
        s.pays_lat ==> s.token_paid() == 0,
        !s.pays_lat ==> s.token_paid() == s.usdc,
{
}

// --- the other chain ------------------------------------------------------------------------

/// What terms there are fit their chain: the amount is positive, both keys have the
/// chain's length (33 bytes on Bitcoin, 20 on an EVM chain, 32 on Solana), and a holder
/// and a chain number are named just where the chain has them. A hashlock has 32 bytes.
pub proof fn law_terms_fit_the_chain(
    p: Map<Seq<char>, Seq<char>>,
    network: Network,
    t: BridgeTerms,
)
    requires
        bridge::fault(p) is None,
        bridge::asks_for(p, network, t),
    ensures
        t.amount > 0,
        match t.chain {
            Chain::Bitcoin => t.recipient@.len() == 33 && t.refund@.len() == 33 && t.holder@.len()
                == 0 && t.chain_id == 0,
            Chain::Evm => t.recipient@.len() == 20 && t.refund@.len() == 20 && t.holder@.len()
                == 20,
            Chain::Solana => t.recipient@.len() == 32 && t.refund@.len() == 32 && t.holder@.len()
                == 32 && t.chain_id == 0,
        },
        !p.contains_key("timelock"@) ==> t.timelock == match t.chain {
            Chain::Bitcoin => 800_000,
            _ => 1_900_000_000u64,
        },
        t.chain is Evm && !p.contains_key("chainid"@) ==> t.chain_id == match network {
            Network::Mainnet => 1u64,
            Network::Testnet => 11_155_111,
        },
{
}

/// Terms that are refused are refused for the first thing that is wrong with them: the
/// amount, the hashlock, the chain, the recipient and the refund key, in that order.
pub proof fn law_terms_refused_for_their_cause(p: Map<Seq<char>, Seq<char>>)
    ensures
        ({
            let amount = bridge::amount_in(p) is Some;
            let lock = bridge::hex_param(p, "hashlock"@) matches Some(h) ==> h.len() == 32;
            let chain = bridge::chain_in(p) is Some;
            let n = bridge::key_len(bridge::chain_in(p)->0);
            let to = bridge::key_in(p, "recipient"@, n, 2) is Some;
            let back = bridge::key_in(p, "refund"@, n, 3) is Some;
            match bridge::fault(p) {
                None => amount && lock && chain && to && back,
                Some(BridgeError::Amount) => !amount,
                Some(BridgeError::Hashlock) => amount && !lock,
                Some(BridgeError::Chain) => amount && lock && !chain,
                Some(BridgeError::Recipient) => amount && lock && chain && !to,
                Some(BridgeError::Refund) => amount && lock && chain && to && !back,
            }
        }),
{
}

/// A chain's name is read in any letter case, and no name is two chains'.
pub proof fn law_chain_names(s: Seq<char>, t: Seq<char>)
    requires
        s.len() == t.len(),
        forall|i: int|
            0 <= i < s.len() ==> (#[trigger] s[i]) == t[i] || 97 <= s[i] as u32 <= 122
                && t[i] as u32 + 32 == s[i] as u32,
        forall|i: int| 0 <= i < s.len() ==> !(65 <= (#[trigger] s[i]) as u32 <= 90),
    ensures
        bridge::chain_named(s) == bridge::chain_named(t),
        bridge::chain_named(s) == Some(Chain::Bitcoin) ==> s == "btc"@,
        bridge::chain_named(s) == Some(Chain::Evm) ==> s == "eth"@ || s == "evm"@,
        bridge::chain_named(s) == Some(Chain::Solana) ==> s == "sol"@,
{
    reveal_strlit("btc");
    reveal_strlit("eth");
    reveal_strlit("evm");
    reveal_strlit("sol");
    lemma_spelt(s, t, "btc"@);
    lemma_spelt(s, t, "eth"@);
    lemma_spelt(s, t, "evm"@);
    lemma_spelt(s, t, "sol"@);
}

proof fn lemma_same_char(a: char, b: char)
    requires
        a as u32 == b as u32,
    ensures
        a == b,
{
}

proof fn lemma_spelt(s: Seq<char>, t: Seq<char>, name: Seq<char>)
    requires
        s.len() == t.len(),
        forall|i: int|
            0 <= i < s.len() ==> (#[trigger] s[i]) == t[i] || 97 <= s[i] as u32 <= 122
                && t[i] as u32 + 32 == s[i] as u32,
        forall|i: int| 0 <= i < s.len() ==> !(65 <= (#[trigger] s[i]) as u32 <= 90),
        forall|i: int| 0 <= i < name.len() ==> 97 <= (#[trigger] name[i]) as u32 <= 122,
    ensures
        bridge::spells(s, name) == bridge::spells(t, name),
        bridge::spells(s, name) == (s == name),
{
    if bridge::spells(s, name) {
        assert forall|i: int| 0 <= i < s.len() implies #[trigger] s[i] == name[i] by {
            assert(bridge::same_letter(s[i], name[i]));
        }
        assert(s =~= name);
        assert forall|i: int| 0 <= i < t.len() implies bridge::same_letter(
            #[trigger] t[i],
            name[i],
        ) by {
            assert(s[i] == t[i] || t[i] as u32 + 32 == s[i] as u32);
        }
    }
    if s == name {
        assert forall|i: int| 0 <= i < s.len() implies bridge::same_letter(
            #[trigger] s[i],
            name[i],
        ) by {}
    }
    if bridge::spells(t, name) {
        assert forall|i: int| 0 <= i < s.len() implies bridge::same_letter(
            #[trigger] s[i],
            name[i],
        ) by {
            assert(bridge::same_letter(t[i], name[i]));
            assert(s[i] == t[i] || 97 <= s[i] as u32 <= 122 && t[i] as u32 + 32 == s[i] as u32);
            assert(97 <= name[i] as u32 <= 122);
            if s[i] != t[i] {
                let (a, b, c) = (s[i] as u32, t[i] as u32, name[i] as u32);
                assert(b + 32 == a);
                assert(b == c || b + 32 == c);
                assert(a == c);
                lemma_same_char(s[i], name[i]);
            }
        }
    }
}

proof fn lemma_plain(t: Seq<char>)
    requires
        t.len() > 0,
        !text::is_space(t[0]),
        !text::is_space(t.last()),
    ensures
        text::trimmed(t) == t,
{
}

/// A number in a request is the number that was written there, and the usual one where
/// there is none.
pub proof fn law_numbers_in_requests(
    p: Map<Seq<char>, Seq<char>>,
    key: Seq<char>,
    n: u64,
    usual: u64,
    units: nat,
)
    ensures
        p.contains_key(key) && p[key] == numbers::decimal(n as nat) ==> bridge::count_in(
            p,
            key,
            usual,
        ) == n,
        !p.contains_key(key) ==> bridge::count_in(p, key, usual) == usual,
        p.contains_key("amount"@) && p["amount"@] == numbers::decimal(units) ==> match
            bridge::amount_in(p) {
            Some(m) => m == units && units > 0,
            None => units == 0 || units > u128::MAX,
        },
        !p.contains_key("amount"@) ==> bridge::amount_in(p) is None,
{
    let d = numbers::decimal(n as nat);
    numbers::lemma_decimal_value(n as nat);
    numbers::law_decimal_reads_back(n as nat);
    assert(numbers::is_digit(d[0]) && numbers::is_digit(d[d.len() - 1]));
    lemma_plain(d);
    let u = numbers::decimal(units);
    numbers::lemma_decimal_value(units);
    numbers::law_decimal_reads_back(units);
    assert(numbers::is_digit(u[0]) && numbers::is_digit(u[u.len() - 1]));
    lemma_plain(u);
}

/// A key in a request is the key that was written there, if it has the right length, and
/// a filler of that length where there is none.
pub proof fn law_keys_in_requests(
    p: Map<Seq<char>, Seq<char>>,
    key: Seq<char>,
    b: Seq<u8>,
    n: nat,
    fill: u8,
    i: int,
)
    requires
        b.len() > 0,
    ensures
        p.contains_key(key) && p[key] == numbers::hex_text(b) ==> {
            &&& bridge::hex_param(p, key) == Some(b)
            &&& b.len() == n ==> bridge::key_in(p, key, n, fill) == Some(b)
            &&& b.len() != n ==> bridge::key_in(p, key, n, fill) is None
        },
        !p.contains_key(key) ==> {
            &&& bridge::hex_param(p, key) is None
            &&& bridge::key_in(p, key, n, fill) is Some
            &&& (bridge::key_in(p, key, n, fill)->0).len() == n
            &&& 0 <= i < n ==> (bridge::key_in(p, key, n, fill)->0)[i] == fill
        },
{
    numbers::law_hex_reads_back(b);
    let t = numbers::hex_text(b);
    assert forall|k: int| 0 <= k < t.len() implies !text::is_space(#[trigger] t[k]) by {
        let x = b[k / 2] as int;
        assert(0 <= x / 16 < 16 && 0 <= x % 16 < 16);
        assert(t[k] as u32 == numbers::hex_of(b)[k] as u32);
    }
    assert(!text::is_space(t[0]) && !text::is_space(t[t.len() - 1]));
    lemma_plain(t);
}

/// A flag's number is the one that was written there, within its limit; its amount is the
/// one that is shown so.
pub proof fn law_numbers_in_flags(
    p: Map<Seq<char>, Seq<char>>,
    key: Seq<char>,
    n: nat,
    max: nat,
    usual: u64,
    units: u64,
)
    ensures
        p.contains_key(key) && p[key] == numbers::decimal(n) && n <= max && n <= u64::MAX ==> {
            &&& cli::number_flag(p, key, max) == Ok::<u64, FlagError>(n as u64)
            &&& cli::number_or(p, key, max, usual) == n
            &&& cli::optional_number(p, key, max, usual) == Ok::<u64, FlagError>(n as u64)
        },
        p.contains_key(key) && p[key] == numbers::decimal(n) && n > max ==> {
            &&& cli::number_flag(p, key, max) == Err::<u64, FlagError>(FlagError::BadNumber)
            &&& cli::number_or(p, key, max, usual) == usual
            &&& cli::optional_number(p, key, max, usual) == Err::<u64, FlagError>(
                FlagError::BadNumber,
            )
        },
        !p.contains_key(key) ==> {
            &&& cli::number_flag(p, key, max) == Err::<u64, FlagError>(FlagError::Missing)
            &&& cli::number_or(p, key, max, usual) == usual
            &&& cli::optional_number(p, key, max, usual) == Ok::<u64, FlagError>(usual)
            &&& cli::lat_flag(p, key) == Err::<u64, FlagError>(FlagError::Missing)
        },
        p.contains_key(key) && p[key] == amounts::amount_text(units) ==> cli::lat_flag(p, key)
            == Ok::<u64, FlagError>(units),
{
    numbers::law_decimal_reads_back(n);
    amounts::law_amount_reads_back(units, Seq::empty());
    assert(amounts::amount_text(units) + Seq::<char>::empty() =~= amounts::amount_text(units));
}

} // verus!
