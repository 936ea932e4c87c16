//! The test network's swap desk: one wallet that makes the market between LAT and
//! USDC. The customer pays it one token by a public transfer and it pays the other
//! back.

use vstd::prelude::*;
use vstd::string::*;

use crate::address::Network;
use crate::bytes::same_str;
use crate::params::Params;
use crate::rules::LAT_TOKEN;
use crate::text;
use crate::text::upper_string;
use crate::wallet;
use crate::wallet::affordable;

verus! {

/// What one request to the faucet gets, in base units.
pub const FAUCET_LAT: u64 = 10_000_000;

/// The desk's stock of USDC when the market opens, in base units. It stays below what
/// a balance proof can show.
pub const USDC_SUPPLY: u64 = 1_000_000_000_000;

/// The seed of the desk's wallet, which is the faucet too. It is well known: the test
/// network's coins are play money.
pub fn desk_seed() -> (r: [u8; 32])
    ensures
        r@ == Seq::new(32, |i: int| 42u8),
{
    let r = [42u8; 32];
    assert(r@ =~= Seq::new(32, |i: int| 42u8));
    r
}

/// Whether there is a desk and a faucet on a network.
pub fn desk_open(network: Network) -> (r: bool)
    ensures
        r == (network == Network::Testnet),
{
    match network {
        Network::Testnet => true,
        Network::Mainnet => false,
    }
}

/// Whether a request pays with LAT, rather than with USDC. `None`: it names neither.
pub open spec fn side_in(p: Map<Seq<char>, Seq<char>>) -> Option<bool> {
    if !p.contains_key("from"@) {
        None
    } else if text::upper_text(p["from"@]) == "LAT"@ {
        Some(true)
    } else if text::upper_text(p["from"@]) == "USDC"@ {
        Some(false)
    } else {
        None
    }
}

/// Whether a request pays with LAT, rather than with USDC.
pub fn side(p: &Params) -> (r: Option<bool>)
    ensures
        r == side_in(p@),
{
    match p.get("from") {
        Some(s) => {
            let u = upper_string(s.as_str());
            if same_str(u.as_str(), "LAT") {
                Some(true)
            } else if same_str(u.as_str(), "USDC") {
                Some(false)
            } else {
                None
            }
        },
        None => None,
    }
}

/// Where a swap at the desk stands: what was asked for last.
#[derive(Clone, Copy, Debug, PartialEq, Eq)]
pub enum Stage {
    Market,
    Price,
    Balance,
    Nonce,
    DeskNonce,
    Holdings,
    Proof,
    Payment,
    Payout,
    Done,
}

/// A swap at the desk.
pub struct DeskSwap {
    pub stage: Stage,
    /// Whether the customer pays with LAT.
    pub pays_lat: bool,
    pub amount: u64,
    /// The fee of each leg.
    pub fee: u64,
    /// The id of the USDC token.
    pub usdc: u32,
    /// What the customer receives.
    pub received: u64,
    pub nonce: u64,
    pub desk_nonce: u64,
}

/// What was found, or what came of a submission.
pub enum Event {
    /// The id of the USDC token, if the market is open.
    Token(Option<u32>),
    /// What the amount buys at the present price.
    Price(u64),
    /// The customer's public balance of the token paid.
    Balance(Option<u64>),
    /// The customer's nonce.
    Nonce(Option<u64>),
    /// The desk's nonce.
    DeskNonce(Option<u64>),
    /// What the desk holds of the token it pays out: its public LAT, or its private
    /// USDC.
    Holdings(Option<u64>),
    /// The desk's balance could not be read.
    Unreadable,
    /// Whether the desk could prove that its USDC covers the payout.
    Proven(bool),
    /// Whether the node took the transaction.
    Sent(bool),
    /// The node could not be reached.
    Unreachable,
}

/// What to do next.
pub enum Action {
    FindToken,
    FindPrice,
    /// Look the customer's public balance of a token up.
    FindBalance(u32),
    FindNonce,
    FindDeskNonce,
    FindHoldings,
    /// Prove the desk's payout of USDC.
    Prove,
    /// Submit the customer's leg.
    SendPayment,
    /// Submit the desk's leg.
    SendPayout,
    Finish,
    Fail(SwapError),
}

/// Why a swap does not come about.
#[derive(Clone, Copy, Debug, PartialEq, Eq)]
pub enum SwapError {
    /// The market is not open yet.
    Opening,
    TooSmall,
    /// The customer's balance does not cover amount and fee.
    Insufficient,
    NotRegistered,
    NoDesk,
    BadDeskData,
    OutOfUsdc,
    OutOfLat,
    /// The desk's payout could not be proven.
    Unproven,
    Rejected,
    /// The customer's leg was sent and the desk's was not.
    DeskLeg,
    Unreachable,
}

/// Whether an event answers what was asked for last.
pub open spec fn fits(stage: Stage, e: Event) -> bool {
    match (stage, e) {
        (Stage::Market, Event::Token(_)) => true,
        (Stage::Price, Event::Price(_)) => true,
        (Stage::Balance, Event::Balance(_)) => true,
        (Stage::Nonce, Event::Nonce(_)) => true,
        (Stage::DeskNonce, Event::DeskNonce(_)) => true,
        (Stage::Holdings, Event::Holdings(_)) => true,
        (Stage::Holdings, Event::Unreadable) => true,
        (Stage::Proof, Event::Proven(_)) => true,
        (Stage::Payment, Event::Sent(_)) => true,
        (Stage::Payout, Event::Sent(_)) => true,
        (Stage::Proof, Event::Unreachable) => false,
        (Stage::Done, _) => false,
        (_, Event::Unreachable) => true,
        _ => false,
    }
}

/// A swap that ends with an error.
pub open spec fn failed(s: DeskSwap, e: SwapError) -> (DeskSwap, Action) {
    (DeskSwap { stage: Stage::Done, ..s }, Action::Fail(e))
}

/// The swap after an event, and what to do next.
pub open spec fn after(s: DeskSwap, e: Event) -> (DeskSwap, Action) {
    match e {
        Event::Token(None) => failed(s, SwapError::Opening),
        Event::Token(Some(usdc)) => (
            DeskSwap { stage: Stage::Price, usdc, ..s },
            Action::FindPrice,
        ),
        Event::Price(received) => if received == 0 {
            failed(s, SwapError::TooSmall)
        } else {
            (
                DeskSwap { stage: Stage::Balance, received, ..s },
                Action::FindBalance(s.token_paid()),
            )
        },
        Event::Balance(b) => if b is Some && wallet::covers(b->0, s.amount, s.fee) {
            (DeskSwap { stage: Stage::Nonce, ..s }, Action::FindNonce)
        } else {
            failed(s, SwapError::Insufficient)
        },
        Event::Nonce(None) => failed(s, SwapError::NotRegistered),
        Event::Nonce(Some(nonce)) => (
            DeskSwap { stage: Stage::DeskNonce, nonce, ..s },
            Action::FindDeskNonce,
        ),
        Event::DeskNonce(None) => failed(s, SwapError::NoDesk),
        Event::DeskNonce(Some(desk_nonce)) => (
            DeskSwap { stage: Stage::Holdings, desk_nonce, ..s },
            Action::FindHoldings,
        ),
        Event::Holdings(h) => if h is None && s.pays_lat {
            failed(s, SwapError::NoDesk)
        } else if h is Some && wallet::covers(h->0, s.received, s.fee) {
            if s.pays_lat {
                (DeskSwap { stage: Stage::Proof, ..s }, Action::Prove)
            } else {
                (DeskSwap { stage: Stage::Payment, ..s }, Action::SendPayment)
            }
        } else if s.pays_lat {
            failed(s, SwapError::OutOfUsdc)
        } else {
            failed(s, SwapError::OutOfLat)
        },
        Event::Unreadable => failed(s, SwapError::BadDeskData),
        Event::Proven(true) => (
            DeskSwap { stage: Stage::Payment, ..s },
            Action::SendPayment,
        ),
        Event::Proven(false) => failed(s, SwapError::Unproven),
        Event::Sent(taken) => if s.stage == Stage::Payment {
            if taken {
                (DeskSwap { stage: Stage::Payout, ..s }, Action::SendPayout)
            } else {
                failed(s, SwapError::Rejected)
            }
        } else if taken {
            (DeskSwap { stage: Stage::Done, ..s }, Action::Finish)
        } else {
            failed(s, SwapError::DeskLeg)
        },
        Event::Unreachable => if s.stage == Stage::Payout {
            failed(s, SwapError::DeskLeg)
        } else if s.stage == Stage::DeskNonce {
            failed(s, SwapError::NoDesk)
        } else {
            failed(s, SwapError::Unreachable)
        },
    }
}

impl DeskSwap {
    /// The token the customer pays with.
    pub open spec fn token_paid(&self) -> u32 {
        if self.pays_lat {
            LAT_TOKEN
        } else {
            self.usdc
        }
    }

    /// The token the customer pays with.
    pub fn pays_with(&self) -> (r: u32)
        ensures
            r == self.token_paid(),
    {
        if self.pays_lat {
            LAT_TOKEN
        } else {
            self.usdc
        }
    }

    /// Begin a swap.
    pub fn start(pays_lat: bool, amount: u64, fee: u64) -> (r: (DeskSwap, Action))
        ensures
            started(r.0),
            r.0.pays_lat == pays_lat,
            r.0.amount == amount,
            r.0.fee == fee,
            r.1 == Action::FindToken,
    {
        let s = DeskSwap {
            stage: Stage::Market,
            pays_lat,
            amount,
            fee,
            usdc: 0,
            received: 0,
            nonce: 0,
            desk_nonce: 0,
        };
        (s, Action::FindToken)
    }

    fn fail(&mut self, e: SwapError) -> (r: Action)
        ensures
            (*final(self), r) == failed(*old(self), e),
    {
        self.stage = Stage::Done;
        Action::Fail(e)
    }

    /// Take an event up and say what to do next.
    pub fn step(&mut self, e: Event) -> (r: Action)
        requires
            fits(old(self).stage, e),
        ensures
            (*final(self), r) == after(*old(self), e),
    {
        match e {
            Event::Token(None) => self.fail(SwapError::Opening),
            Event::Token(Some(usdc)) => {
                self.usdc = usdc;
                self.stage = Stage::Price;
                Action::FindPrice
            },
            Event::Price(received) => {
                if received == 0 {
                    return self.fail(SwapError::TooSmall);
                }
                self.received = received;
                self.stage = Stage::Balance;
                Action::FindBalance(self.pays_with())
            },
            Event::Balance(b) => match b {
                Some(n) => {
                    if !affordable(n, self.amount, self.fee) {
                        return self.fail(SwapError::Insufficient);
                    }
                    self.stage = Stage::Nonce;
                    Action::FindNonce
                },
                None => self.fail(SwapError::Insufficient),
            },
            Event::Nonce(None) => self.fail(SwapError::NotRegistered),
            Event::Nonce(Some(nonce)) => {
                self.nonce = nonce;
                self.stage = Stage::DeskNonce;
                Action::FindDeskNonce
            },
            Event::DeskNonce(None) => self.fail(SwapError::NoDesk),
            Event::DeskNonce(Some(desk_nonce)) => {
                self.desk_nonce = desk_nonce;
                self.stage = Stage::Holdings;
                Action::FindHoldings
            },
            Event::Holdings(h) => match h {
                Some(n) => {
                    if !affordable(n, self.received, self.fee) {
                        if self.pays_lat {
                            return self.fail(SwapError::OutOfUsdc);
                        }
                        return self.fail(SwapError::OutOfLat);
                    }
                    if self.pays_lat {
                        self.stage = Stage::Proof;
                        return Action::Prove;
                    }
                    self.stage = Stage::Payment;
                    Action::SendPayment
                },
                None => {
                    if self.pays_lat {
                        return self.fail(SwapError::NoDesk);
                    }
                    self.fail(SwapError::OutOfLat)
                },
            },
            Event::Unreadable => self.fail(SwapError::BadDeskData),
            Event::Proven(proven) => {
                if !proven {
                    return self.fail(SwapError::Unproven);
                }
                self.stage = Stage::Payment;
                Action::SendPayment
            },
            Event::Sent(taken) => match self.stage {
                Stage::Payment => {
                    if !taken {
                        return self.fail(SwapError::Rejected);
                    }
                    self.stage = Stage::Payout;
                    Action::SendPayout
                },
                _ => {
                    if !taken {
                        return self.fail(SwapError::DeskLeg);
                    }
                    self.stage = Stage::Done;
                    Action::Finish
                },
            },
            Event::Unreachable => match self.stage {
                Stage::Payout => self.fail(SwapError::DeskLeg),
                Stage::DeskNonce => self.fail(SwapError::NoDesk),
                _ => self.fail(SwapError::Unreachable),
            },
        }
    }
}

/// Whether a swap was just begun.
pub open spec fn started(s: DeskSwap) -> bool {
    s.stage == Stage::Market
}

/// A swap after events, and what is done next.
pub open spec fn run(s: DeskSwap, es: Seq<Event>) -> (DeskSwap, Action)
    decreases es.len(),
{
    if es.len() == 0 {
        (s, Action::FindToken)
    } else {
        after(run(s, es.drop_last()).0, es.last())
    }
}

/// Whether each event answers what was asked for.
pub open spec fn in_order(s: DeskSwap, es: Seq<Event>) -> bool
    decreases es.len(),
{
    es.len() == 0 || (in_order(s, es.drop_last()) && fits(
        run(s, es.drop_last()).0.stage,
        es.last(),
    ))
}

/// Whether the customer was found to hold amount and fee.
pub open spec fn customer_solvent(es: Seq<Event>, amount: u64, fee: u64) -> bool {
    exists|i: int|
        0 <= i < es.len() && ((#[trigger] es[i]) matches Event::Balance(Some(b)) && wallet::covers(
            b,
            amount,
            fee,
        ))
}

/// Whether the desk was found to hold the payout and its fee.
pub open spec fn desk_solvent(es: Seq<Event>, received: u64, fee: u64) -> bool {
    exists|i: int|
        0 <= i < es.len() && ((#[trigger] es[i]) matches Event::Holdings(Some(h)) && wallet::covers(
            h,
            received,
            fee,
        ))
}

proof fn lemma_run(s: DeskSwap, es: Seq<Event>)
    requires
        started(s),
        in_order(s, es),
    ensures
        ({
            let t = run(s, es).0;
            let done = run(s, es).1 is Fail || run(s, es).1 is Finish;
            &&& t.amount == s.amount
            &&& t.fee == s.fee
            &&& t.pays_lat == s.pays_lat
            &&& match t.stage {
                Stage::Nonce | Stage::DeskNonce | Stage::Holdings => customer_solvent(
                    es,
                    s.amount,
                    s.fee,
                ),
                Stage::Proof | Stage::Payment | Stage::Payout => customer_solvent(
                    es,
                    s.amount,
                    s.fee,
                ) && desk_solvent(es, t.received, s.fee),
                Stage::Done => done,
                _ => true,
            }
        }),
    decreases es.len(),
{
    if es.len() > 0 {
        let had = es.drop_last();
        let before = run(s, had).0;
        lemma_run(s, had);
        let k = es.len() - 1;
        if customer_solvent(had, s.amount, s.fee) {
            let i = choose|i: int|
                0 <= i < had.len() && ((#[trigger] had[i]) matches Event::Balance(Some(b))
                    && wallet::covers(b, s.amount, s.fee));
            assert(es[i] == had[i]);
        }
        if desk_solvent(had, before.received, s.fee) {
            let i = choose|i: int|
                0 <= i < had.len() && ((#[trigger] had[i]) matches Event::Holdings(Some(h))
                    && wallet::covers(h, before.received, s.fee));
            assert(es[i] == had[i]);
        }
        assert(es[k] == es.last());
    }
}

/// Neither leg of a swap goes out before both sides were found solvent.
pub proof fn law_both_sides_are_solvent_first(s: DeskSwap, es: Seq<Event>)
    requires
        started(s),
        in_order(s, es),
        run(s, es).1 is SendPayment || run(s, es).1 is SendPayout,
    ensures
        customer_solvent(es, s.amount, s.fee),
        desk_solvent(es, run(s, es).0.received, s.fee),
{
    lemma_run(s, es);
}

/// The desk pays out only after the node took the customer's payment.
pub proof fn law_payout_follows_payment(s: DeskSwap, es: Seq<Event>)
    requires
        started(s),
        in_order(s, es),
        run(s, es).1 is SendPayout,
    ensures
        es.len() > 0,
        es.last() == Event::Sent(true),
        run(s, es.drop_last()).0.stage == Stage::Payment,
{
}

/// What the customer is told of an error.
pub open spec fn told(e: SwapError, from: Seq<char>, node: Seq<char>) -> Seq<char> {
    match e {
        SwapError::Opening => "the USDC market is opening — try again in a few seconds"@,
        SwapError::TooSmall => "amount too small to swap"@,
        SwapError::Insufficient => "insufficient public "@ + from
            + " balance (amount + fee) — swaps use your PUBLIC balance"@,
        SwapError::NotRegistered => "your account isn't registered yet"@,
        SwapError::NoDesk => "swap desk account not found on this chain"@,
        SwapError::BadDeskData => "bad desk balance data"@,
        SwapError::OutOfUsdc => "the swap desk is out of USDC inventory"@,
        SwapError::OutOfLat => "the swap desk is out of LAT inventory"@,
        SwapError::Unproven => "desk could not build the USDC payout"@,
        SwapError::Rejected => "swap rejected (duplicate or invalid)"@,
        SwapError::DeskLeg =>
            "desk leg failed — your payment may still confirm; ask the faucet"@,
        SwapError::Unreachable => "cannot reach node at "@ + node,
    }
}

/// What the customer is told of an error. `from` is the ticker they pay with.
pub fn tell(e: SwapError, from: &str, node: &str) -> (r: String)
    ensures
        r@ == told(e, from@, node@),
{
    match e {
        SwapError::Opening => "the USDC market is opening — try again in a few seconds".to_owned(),
        SwapError::TooSmall => "amount too small to swap".to_owned(),
        SwapError::Insufficient => {
            let mut r = "insufficient public ".to_owned();
            r.append(from);
            r.append(" balance (amount + fee) — swaps use your PUBLIC balance");
            r
        },
        SwapError::NotRegistered => "your account isn't registered yet".to_owned(),
        SwapError::NoDesk => "swap desk account not found on this chain".to_owned(),
        SwapError::BadDeskData => "bad desk balance data".to_owned(),
        SwapError::OutOfUsdc => "the swap desk is out of USDC inventory".to_owned(),
        SwapError::OutOfLat => "the swap desk is out of LAT inventory".to_owned(),
        SwapError::Unproven => "desk could not build the USDC payout".to_owned(),
        SwapError::Rejected => "swap rejected (duplicate or invalid)".to_owned(),
        SwapError::DeskLeg =>
            "desk leg failed — your payment may still confirm; ask the faucet".to_owned(),
        SwapError::Unreachable => {
            let mut r = "cannot reach node at ".to_owned();
            r.append(node);
            r
        },
    }
}

} // verus!
