//! The web wallet's index of a chain: the tokens created, and what happened to whom.

use vstd::prelude::*;
use vstd::string::*;

use crate::amounts;
use crate::amounts::amount_string;
use crate::bytes::{same_hash, same_str};
use crate::numbers;
use crate::numbers::decimal_string;
use crate::rules::LAT_TOKEN;
use crate::ticker;
use crate::ticker::normalize_ticker;
use crate::transaction::Transaction;
use crate::web;
use crate::web::esc;

verus! {

/// Most rows of activity that are shown.
pub const MAX_ROWS: usize = 50;

/// What happened.
#[derive(Clone, Copy, Debug, PartialEq, Eq, Structural)]
pub enum Event {
    Registered,
    TokenCreated,
    PrivateTransfer,
    RolledOver,
    PublicTransfer,
    Shielded,
    Unshielded,
    StealthShielded,
    Mined,
}

/// An entry of the index.
#[derive(Clone, Copy, Debug)]
pub struct Entry {
    pub height: u64,
    /// The block's timestamp.
    pub ts: u64,
    pub event: Event,
    pub token: u32,
    /// Who did it: all zeroes for nobody.
    pub a: [u8; 32],
    /// To whom: all zeroes for nobody.
    pub b: [u8; 32],
    /// Zero where the amount is hidden.
    pub amount: u64,
    pub fee: u64,
}

/// The index of one chain.
pub struct Index {
    /// The height of the next block to scan.
    pub next: u64,
    /// Ticker and id of each token, in the order of creation.
    pub tokens: Vec<(String, u32)>,
    pub entries: Vec<Entry>,
}

/// The tokens and entries of an index.
pub ghost struct IndexView {
    pub tokens: Seq<(Seq<char>, u32)>,
    pub entries: Seq<Entry>,
}

/// No account.
pub open spec fn nobody() -> Seq<u8> {
    Seq::new(32, |i: int| 0u8)
}

/// Whether `e` is the entry with these values.
pub open spec fn is_entry(
    e: Entry,
    height: u64,
    ts: u64,
    event: Event,
    token: u32,
    a: Seq<u8>,
    b: Seq<u8>,
    amount: u64,
    fee: u64,
) -> bool {
    &&& e.height == height
    &&& e.ts == ts
    &&& e.event == event
    &&& e.token == token
    &&& e.a@ == a
    &&& e.b@ == b
    &&& e.amount == amount
    &&& e.fee == fee
}

/// Whether `e` is what the index notes of a transaction, where `token` is the id that
/// a new token gets.
pub open spec fn notes(e: Entry, height: u64, ts: u64, tx: Transaction, token: u32) -> bool {
    match tx {
        Transaction::Register { pubkey, .. } => is_entry(
            e,
            height,
            ts,
            Event::Registered,
            0,
            pubkey@,
            nobody(),
            0,
            0,
        ),
        Transaction::CreateToken { creator, supply, .. } => is_entry(
            e,
            height,
            ts,
            Event::TokenCreated,
            token,
            creator@,
            nobody(),
            supply,
            0,
        ),
        Transaction::SolventTransfer { token, xfer } => is_entry(
            e,
            height,
            ts,
            Event::PrivateTransfer,
            token,
            xfer.sender@,
            xfer.receiver@,
            0,
            0,
        ),
        Transaction::Rollover { account, .. } => is_entry(
            e,
            height,
            ts,
            Event::RolledOver,
            0,
            account@,
            nobody(),
            0,
            0,
        ),
        Transaction::PublicTransfer { token, from, to, amount, .. } => is_entry(
            e,
            height,
            ts,
            Event::PublicTransfer,
            token,
            from@,
            to@,
            amount,
            0,
        ),
        Transaction::Shield { token, from, to, amount, .. } => is_entry(
            e,
            height,
            ts,
            Event::Shielded,
            token,
            from@,
            to@,
            amount,
            0,
        ),
        Transaction::Unshield { token, to, amount, xfer, .. } => is_entry(
            e,
            height,
            ts,
            Event::Unshielded,
            token,
            xfer.sender@,
            to@,
            amount,
            xfer.fee,
        ),
        Transaction::ShieldStealth { token, from, amount, .. } => is_entry(
            e,
            height,
            ts,
            Event::StealthShielded,
            token,
            from@,
            nobody(),
            amount,
            0,
        ),
        _ => false,
    }
}

/// Whether the index notes a transaction. Anonymous transfers and the rest leave
/// nothing to note.
pub open spec fn noted(tx: Transaction) -> bool {
    tx is Register || tx is CreateToken || tx is SolventTransfer || tx is Rollover
        || tx is PublicTransfer || tx is Shield || tx is Unshield || tx is ShieldStealth
}

/// A new token's ticker as the index keeps it.
pub open spec fn kept_ticker(t: Seq<char>) -> Seq<char> {
    match ticker::normal(t) {
        Some(n) => n,
        None => t,
    }
}

/// Whether `now` is the index `had` after a transaction. Ids are given out in order
/// from 1.
pub open spec fn after_tx(
    had: IndexView,
    now: IndexView,
    height: u64,
    ts: u64,
    tx: Transaction,
) -> bool {
    let id = (had.tokens.len() + 1) as u32;
    &&& now.tokens == match tx {
        Transaction::CreateToken { ticker, .. } => had.tokens.push((kept_ticker(ticker@), id)),
        _ => had.tokens,
    }
    &&& if noted(tx) {
        &&& now.entries.len() == had.entries.len() + 1
        &&& now.entries.drop_last() == had.entries
        &&& notes(now.entries.last(), height, ts, tx, id)
    } else {
        now.entries == had.entries
    }
}

/// Whether `now` is the index `had` after the coinbase of a block.
pub open spec fn after_coinbase(
    had: IndexView,
    now: IndexView,
    height: u64,
    ts: u64,
    miner: Seq<u8>,
    reward: u64,
) -> bool {
    &&& now.tokens == had.tokens
    &&& if miner == nobody() {
        now.entries == had.entries
    } else {
        &&& now.entries.len() == had.entries.len() + 1
        &&& now.entries.drop_last() == had.entries
        &&& is_entry(
            now.entries.last(),
            height,
            ts,
            Event::Mined,
            0,
            nobody(),
            miner,
            reward,
            0,
        )
    }
}

/// Whether `now` is the index `had` after the first `n` transactions of a block.
pub open spec fn after_txs(
    had: IndexView,
    now: IndexView,
    height: u64,
    ts: u64,
    txs: Seq<Transaction>,
    n: nat,
) -> bool
    decreases n,
{
    if n == 0 {
        now == had
    } else {
        exists|mid: IndexView|
            after_txs(had, mid, height, ts, txs, (n - 1) as nat) && #[trigger] after_tx(
                mid,
                now,
                height,
                ts,
                txs[n - 1],
            )
    }
}

fn zeroes() -> (z: [u8; 32])
    ensures
        z@ == nobody(),
{
    let z = [0u8; 32];
    assert(z@ =~= nobody());
    z
}

impl View for Index {
    type V = IndexView;

    open spec fn view(&self) -> IndexView {
        IndexView {
            tokens: self.tokens@.map_values(|t: (String, u32)| (t.0@, t.1)),
            entries: self.entries@,
        }
    }
}

impl Index {
    pub fn new() -> (r: Self)
        ensures
            r.next == 0,
            r@.tokens == Seq::<(Seq<char>, u32)>::empty(),
            r@.entries == Seq::<Entry>::empty(),
    {
        let r = Index { next: 0, tokens: Vec::new(), entries: Vec::new() };
        assert(r@.tokens =~= Seq::empty());
        r
    }

    fn note(
        &mut self,
        height: u64,
        ts: u64,
        event: Event,
        token: u32,
        a: &[u8; 32],
        b: &[u8; 32],
        amount: u64,
        fee: u64,
    )
        ensures
            final(self).next == old(self).next,
            final(self)@.tokens == old(self)@.tokens,
            final(self)@.entries.len() == old(self)@.entries.len() + 1,
            final(self)@.entries.drop_last() == old(self)@.entries,
            is_entry(
                final(self)@.entries.last(),
                height,
                ts,
                event,
                token,
                a@,
                b@,
                amount,
                fee,
            ),
    {
        let ghost had = self.entries@;
        self.entries.push(Entry { height, ts, event, token, a: *a, b: *b, amount, fee });
        assert(self.entries@.drop_last() =~= had);
    }

    fn note_tx(&mut self, height: u64, ts: u64, tx: &Transaction)
        requires
            old(self)@.tokens.len() < u32::MAX,
        ensures
            final(self).next == old(self).next,
            after_tx(old(self)@, final(self)@, height, ts, *tx),
    {
        let none = zeroes();
        match tx {
            Transaction::Register { pubkey, .. } => {
                self.note(height, ts, Event::Registered, 0, pubkey, &none, 0, 0);
            },
            Transaction::CreateToken { ticker, creator, supply, .. } => {
                let id: u32 = (self.tokens.len() + 1) as u32;
                let kept = match normalize_ticker(ticker.as_str()) {
                    Some(t) => t,
                    None => ticker.clone(),
                };
                let ghost had = self@.tokens;
                self.tokens.push((kept, id));
                assert(self@.tokens =~= had.push((kept_ticker(ticker@), id)));
                self.note(height, ts, Event::TokenCreated, id, creator, &none, *supply, 0);
            },
            Transaction::SolventTransfer { token, xfer } => {
                self.note(
                    height,
                    ts,
                    Event::PrivateTransfer,
                    *token,
                    &xfer.sender,
                    &xfer.receiver,
                    0,
                    0,
                );
            },
            Transaction::Rollover { account, .. } => {
                self.note(height, ts, Event::RolledOver, 0, account, &none, 0, 0);
            },
            Transaction::PublicTransfer { token, from, to, amount, .. } => {
                self.note(height, ts, Event::PublicTransfer, *token, from, to, *amount, 0);
            },
            Transaction::Shield { token, from, to, amount, .. } => {
                self.note(height, ts, Event::Shielded, *token, from, to, *amount, 0);
            },
            Transaction::Unshield { token, to, amount, xfer, .. } => {
                self.note(
                    height,
                    ts,
                    Event::Unshielded,
                    *token,
                    &xfer.sender,
                    to,
                    *amount,
                    xfer.fee,
                );
            },
            Transaction::ShieldStealth { token, from, amount, .. } => {
                self.note(height, ts, Event::StealthShielded, *token, from, &none, *amount, 0);
            },
            _ => {},
        }
    }

    /// Take up the next block: who mined it for what reward, and its transactions.
    pub fn index_block(&mut self, ts: u64, miner: &[u8; 32], reward: u64, txs: &[Transaction])
        requires
            old(self).next < u64::MAX,
            old(self)@.tokens.len() + txs@.len() < u32::MAX,
        ensures
            final(self).next == old(self).next + 1,
            exists|mid: IndexView| #[trigger]
                after_coinbase(old(self)@, mid, old(self).next, ts, miner@, reward) && after_txs(
                    mid,
                    final(self)@,
                    old(self).next,
                    ts,
                    txs@,
                    txs@.len(),
                ),
    {
        let height = self.next;
        let none = zeroes();
        let ghost start = self@;
        if !same_hash(miner, &none) {
            self.note(height, ts, Event::Mined, 0, &none, miner, reward, 0);
        }
        let ghost mid = self@;
        assert(after_coinbase(start, mid, height, ts, miner@, reward));
        let mut i: usize = 0;
        while i < txs.len()
            invariant
                i <= txs@.len(),
                self.next == height,
                mid.tokens.len() + txs@.len() < u32::MAX,
                self@.tokens.len() <= mid.tokens.len() + i,
                after_txs(mid, self@, height, ts, txs@, i as nat),
            decreases txs@.len() - i,
        {
            let ghost had = self@;
            self.note_tx(height, ts, &txs[i]);
            i += 1;
            proof {
                let n = i as nat;
                assert(after_txs(mid, had, height, ts, txs@, (n - 1) as nat));
                assert(after_tx(had, self@, height, ts, txs@[n - 1]));
                assert(after_txs(mid, self@, height, ts, txs@, n));
            }
        }
        self.next = height + 1;
    }

    /// The id of the first token with a ticker.
    pub fn token_named(&self, ticker: &str) -> (r: Option<u32>)
        ensures
            r == id_of(self@.tokens, ticker@),
    {
        let mut i: usize = 0;
        let ghost all = self@.tokens;
        assert(all.subrange(0, all.len() as int) =~= all);
        while i < self.tokens.len()
            invariant
                i <= self.tokens@.len(),
                all == self@.tokens,
                id_of(all, ticker@) == id_of(all.subrange(i as int, all.len() as int), ticker@),
            decreases self.tokens@.len() - i,
        {
            let ghost rest = all.subrange(i as int, all.len() as int);
            assert(rest[0] == (self.tokens@[i as int].0@, self.tokens@[i as int].1));
            if same_str(self.tokens[i].0.as_str(), ticker) {
                return Some(self.tokens[i].1);
            }
            assert(rest.subrange(1, rest.len() as int) =~= all.subrange(i + 1, all.len() as int));
            i += 1;
        }
        None
    }

    /// The id that a ticker in any spelling stands for.
    pub fn token_by_ticker(&self, name: &str) -> (r: Option<u32>)
        ensures
            r == match ticker::normal(name@) {
                None => None,
                Some(t) => if t == "LAT"@ {
                    Some(LAT_TOKEN)
                } else {
                    id_of(self@.tokens, t)
                },
            },
    {
        match normalize_ticker(name) {
            None => None,
            Some(t) => {
                if same_str(t.as_str(), "LAT") {
                    return Some(LAT_TOKEN);
                }
                self.token_named(t.as_str())
            },
        }
    }

    /// The ticker of a token as it is shown.
    pub fn ticker_of(&self, token: u32) -> (r: String)
        ensures
            r@ == shown_ticker(self@.tokens, token),
    {
        if token == LAT_TOKEN {
            return "LAT".to_owned();
        }
        let ghost all = self@.tokens;
        assert(all.subrange(0, all.len() as int) =~= all);
        let mut i: usize = 0;
        while i < self.tokens.len()
            invariant
                i <= self.tokens@.len(),
                all == self@.tokens,
                name_of(all, token) == name_of(all.subrange(i as int, all.len() as int), token),
                token != LAT_TOKEN,
            decreases self.tokens@.len() - i,
        {
            let ghost rest = all.subrange(i as int, all.len() as int);
            assert(rest[0] == (self.tokens@[i as int].0@, self.tokens@[i as int].1));
            if self.tokens[i].1 == token {
                return self.tokens[i].0.clone();
            }
            assert(rest.subrange(1, rest.len() as int) =~= all.subrange(i + 1, all.len() as int));
            i += 1;
        }
        let mut r = "TK".to_owned();
        r.append(decimal_string(token as u64).as_str());
        r
    }

    /// What an issuer still holds of a token it created: the supply less what it paid
    /// out of its private balance, fees included.
    pub fn inventory(&self, token: u32, issuer: &[u8; 32]) -> (r: u64)
        ensures
            r == held(self@.entries, token, issuer@),
    {
        let mut left: u64 = 0;
        let mut i: usize = 0;
        assert(self.entries@.take(0) =~= Seq::empty());
        while i < self.entries.len()
            invariant
                i <= self.entries@.len(),
                left == held(self.entries@.take(i as int), token, issuer@),
            decreases self.entries@.len() - i,
        {
            let e = self.entries[i];
            let ghost now = self.entries@.take(i + 1);
            assert(now.drop_last() =~= self.entries@.take(i as int));
            assert(now.last() == e);
            if e.token == token && same_hash(&e.a, issuer) {
                if e.event == Event::TokenCreated {
                    left = left.saturating_add(e.amount);
                } else if e.event == Event::Unshielded {
                    left = left.saturating_sub(e.amount).saturating_sub(e.fee);
                }
            }
            i += 1;
        }
        assert(self.entries@.take(self.entries@.len() as int) =~= self.entries@);
        left
    }
}

/// The id of the first token with a ticker.
pub open spec fn id_of(tokens: Seq<(Seq<char>, u32)>, t: Seq<char>) -> Option<u32>
    decreases tokens.len(),
{
    if tokens.len() == 0 {
        None
    } else if tokens[0].0 == t {
        Some(tokens[0].1)
    } else {
        id_of(tokens.subrange(1, tokens.len() as int), t)
    }
}

/// The ticker of the first token with an id.
pub open spec fn name_of(tokens: Seq<(Seq<char>, u32)>, id: u32) -> Option<Seq<char>>
    decreases tokens.len(),
{
    if tokens.len() == 0 {
        None
    } else if tokens[0].1 == id {
        Some(tokens[0].0)
    } else {
        name_of(tokens.subrange(1, tokens.len() as int), id)
    }
}

/// The ticker of a token as it is shown: one that is not known by its id.
pub open spec fn shown_ticker(tokens: Seq<(Seq<char>, u32)>, id: u32) -> Seq<char> {
    if id == LAT_TOKEN {
        "LAT"@
    } else {
        match name_of(tokens, id) {
            Some(t) => t,
            None => "TK"@ + numbers::decimal(id as nat),
        }
    }
}

/// What an issuer holds of a token after the entries.
pub open spec fn held(entries: Seq<Entry>, token: u32, issuer: Seq<u8>) -> u64
    decreases entries.len(),
{
    if entries.len() == 0 {
        0
    } else {
        let before = held(entries.drop_last(), token, issuer);
        let e = entries.last();
        if e.token != token || e.a@ != issuer {
            before
        } else {
            match e.event {
                Event::TokenCreated => web::capped_sum(before, e.amount),
                Event::Unshielded => if before < e.amount + e.fee {
                    0
                } else {
                    (before - (e.amount + e.fee)) as u64
                },
                _ => before,
            }
        }
    }
}

// --- activity ---------------------------------------------------------------------------

/// Which way value went, as the account's holder sees it.
#[derive(Clone, Copy, Debug, PartialEq, Eq, Structural)]
pub enum Direction {
    Incoming,
    Outgoing,
    Own,
}

/// How a direction is written.
pub open spec fn direction_text(d: Direction) -> Seq<char> {
    match d {
        Direction::Incoming => "in"@,
        Direction::Outgoing => "out"@,
        Direction::Own => "self"@,
    }
}

/// What an entry looks like to an account: what it is called, which way value went,
/// whether the amount is shown, and whether the other account is.
pub open spec fn shape(event: Event, sent: bool, got: bool) -> (Seq<char>, Direction, bool, bool) {
    match event {
        Event::Registered => ("Account activated"@, Direction::Own, false, false),
        Event::TokenCreated => ("Token created"@, Direction::Incoming, true, false),
        Event::RolledOver => ("Rolled over"@, Direction::Own, false, false),
        Event::Mined => ("Mined"@, Direction::Incoming, true, false),
        Event::PrivateTransfer => if sent && got {
            ("Private self-transfer"@, Direction::Own, false, false)
        } else if sent {
            ("Private send"@, Direction::Outgoing, false, true)
        } else {
            ("Private receive"@, Direction::Incoming, false, true)
        },
        Event::PublicTransfer => if sent {
            ("Sent"@, Direction::Outgoing, true, true)
        } else {
            ("Received"@, Direction::Incoming, true, true)
        },
        Event::Shielded => if sent && got {
            ("Shielded"@, Direction::Own, true, false)
        } else if sent {
            ("Shield sent"@, Direction::Outgoing, true, true)
        } else {
            ("Shield received"@, Direction::Incoming, true, true)
        },
        Event::Unshielded => if sent && got {
            ("Unshielded"@, Direction::Own, true, false)
        } else if sent {
            ("Unshield sent"@, Direction::Outgoing, true, true)
        } else {
            ("Unshield received"@, Direction::Incoming, true, true)
        },
        Event::StealthShielded => ("Stealth shield"@, Direction::Outgoing, true, false),
    }
}

fn shape_of(event: Event, sent: bool, got: bool) -> (r: (&'static str, Direction, bool, bool))
    ensures
        (r.0@, r.1, r.2, r.3) == shape(event, sent, got),
{
    match event {
        Event::Registered => ("Account activated", Direction::Own, false, false),
        Event::TokenCreated => ("Token created", Direction::Incoming, true, false),
        Event::RolledOver => ("Rolled over", Direction::Own, false, false),
        Event::Mined => ("Mined", Direction::Incoming, true, false),
        Event::PrivateTransfer => {
            if sent && got {
                ("Private self-transfer", Direction::Own, false, false)
            } else if sent {
                ("Private send", Direction::Outgoing, false, true)
            } else {
                ("Private receive", Direction::Incoming, false, true)
            }
        },
        Event::PublicTransfer => {
            if sent {
                ("Sent", Direction::Outgoing, true, true)
            } else {
                ("Received", Direction::Incoming, true, true)
            }
        },
        Event::Shielded => {
            if sent && got {
                ("Shielded", Direction::Own, true, false)
            } else if sent {
                ("Shield sent", Direction::Outgoing, true, true)
            } else {
                ("Shield received", Direction::Incoming, true, true)
            }
        },
        Event::Unshielded => {
            if sent && got {
                ("Unshielded", Direction::Own, true, false)
            } else if sent {
                ("Unshield sent", Direction::Outgoing, true, true)
            } else {
                ("Unshield received", Direction::Incoming, true, true)
            }
        },
        Event::StealthShielded => ("Stealth shield", Direction::Outgoing, true, false),
    }
}

/// A row of an account's activity.
pub struct Row {
    pub label: &'static str,
    pub direction: Direction,
    /// `None` where it is hidden.
    pub amount: Option<u64>,
    pub token: u32,
    /// The account on the other side, if it is shown.
    pub other: Option<[u8; 32]>,
    pub height: u64,
    pub ts: u64,
}

/// Whether `r` is the row of the entry `e` in the activity of `id`.
pub open spec fn is_row(r: Row, e: Entry, id: Seq<u8>) -> bool {
    let sent = e.a@ == id;
    let (label, direction, amount, other) = shape(e.event, sent, e.b@ == id);
    &&& r.label@ == label
    &&& r.direction == direction
    &&& r.amount == if amount {
        Some(e.amount)
    } else {
        None
    }
    &&& r.token == e.token
    &&& r.other == if !other {
        None::<[u8; 32]>
    } else if sent {
        Some(e.b)
    } else {
        Some(e.a)
    }
    &&& r.height == e.height
    &&& r.ts == e.ts
}

/// Whether an entry concerns the account `id`.
pub open spec fn concerns(e: Entry, id: Seq<u8>) -> bool {
    e.a@ == id || e.b@ == id
}

/// The entries that concern `id`, newest first, from those before place `n`.
pub open spec fn own_entries(entries: Seq<Entry>, id: Seq<u8>, n: nat) -> Seq<Entry>
    decreases n,
{
    if n == 0 {
        Seq::empty()
    } else if concerns(entries[n - 1], id) {
        seq![entries[n - 1]] + own_entries(entries, id, (n - 1) as nat)
    } else {
        own_entries(entries, id, (n - 1) as nat)
    }
}

/// Whether `rows` are the newest rows of the activity of `id`.
pub open spec fn is_activity(rows: Seq<Row>, entries: Seq<Entry>, id: Seq<u8>) -> bool {
    let own = own_entries(entries, id, entries.len());
    &&& rows.len() == if own.len() < MAX_ROWS {
        own.len() as int
    } else {
        MAX_ROWS as int
    }
    &&& forall|i: int| 0 <= i < rows.len() ==> is_row(#[trigger] rows[i], own[i], id)
}

impl Index {
    /// The newest rows of an account's activity, newest first.
    pub fn activity(&self, id: &[u8; 32]) -> (rows: Vec<Row>)
        ensures
            is_activity(rows@, self@.entries, id@),
    {
        let ghost all = self@.entries;
        let ghost own = own_entries(all, id@, all.len());
        let ghost mut kept: Seq<Entry> = Seq::empty();
        let mut rows: Vec<Row> = Vec::new();
        let mut i: usize = self.entries.len();
        assert(kept + own =~= own);
        while i > 0 && rows.len() < MAX_ROWS
            invariant
                i <= self.entries@.len(),
                all == self@.entries,
                own == own_entries(all, id@, all.len()),
                rows@.len() <= MAX_ROWS,
                kept.len() == rows@.len(),
                kept + own_entries(all, id@, i as nat) == own,
                forall|k: int| 0 <= k < rows@.len() ==> is_row(#[trigger] rows@[k], kept[k], id@),
            decreases i,
        {
            let e = self.entries[i - 1];
            let sent = same_hash(&e.a, id);
            let got = same_hash(&e.b, id);
            let ghost had = kept;
            let ghost was = rows@;
            if sent || got {
                let (label, direction, amount, other) = shape_of(e.event, sent, got);
                rows.push(
                    Row {
                        label,
                        direction,
                        amount: if amount {
                            Some(e.amount)
                        } else {
                            None
                        },
                        token: e.token,
                        other: if !other {
                            None
                        } else if sent {
                            Some(e.b)
                        } else {
                            Some(e.a)
                        },
                        height: e.height,
                        ts: e.ts,
                    },
                );
                proof {
                    kept = had.push(e);
                    assert(kept + own_entries(all, id@, (i - 1) as nat) =~= had + own_entries(
                        all,
                        id@,
                        i as nat,
                    ));
                    assert forall|k: int| 0 <= k < rows@.len() implies is_row(
                        #[trigger] rows@[k],
                        kept[k],
                        id@,
                    ) by {
                        if k < was.len() {
                            assert(is_row(was[k], had[k], id@));
                        }
                    }
                }
            }
            i -= 1;
        }
        proof {
            if i == 0 {
                assert(kept =~= own);
            }
            assert forall|k: int| 0 <= k < rows@.len() implies is_row(
                #[trigger] rows@[k],
                own[k],
                id@,
            ) by {
                assert(own[k] == kept[k]);
            }
        }
        rows
    }

    /// A row as JSON. `other` is the address of the other account, empty where none is
    /// shown.
    pub fn row_json(&self, row: &Row, other: &str) -> (r: String)
        ensures
            r@ == "{\"label\":\""@ + row.label@ + "\",\"dir\":\""@ + direction_text(row.direction)
                + "\",\"amount\":"@ + amount_json(row.amount) + ",\"token\":\""@ + shown_ticker(
                self@.tokens,
                row.token,
            ) + "\",\"other\":\""@ + web::escaped(other@) + "\",\"h\":"@ + numbers::decimal(
                row.height as nat,
            ) + ",\"ts\":"@ + numbers::decimal(row.ts as nat) + "}"@,
    {
        let mut r = "{\"label\":\"".to_owned();
        r.append(row.label);
        r.append("\",\"dir\":\"");
        r.append(
            match row.direction {
                Direction::Incoming => "in",
                Direction::Outgoing => "out",
                Direction::Own => "self",
            },
        );
        r.append("\",\"amount\":");
        let ghost had = r@;
        match row.amount {
            Some(a) => {
                r.append("\"");
                r.append(amount_string(a).as_str());
                r.append("\"");
            },
            None => {
                r.append("null");
            },
        }
        assert(r@ =~= had + amount_json(row.amount));
        r.append(",\"token\":\"");
        r.append(self.ticker_of(row.token).as_str());
        r.append("\",\"other\":\"");
        r.append(esc(other).as_str());
        r.append("\",\"h\":");
        r.append(decimal_string(row.height).as_str());
        r.append(",\"ts\":");
        r.append(decimal_string(row.ts).as_str());
        r.append("}");
        r
    }
}

/// An amount as JSON: a text, or null where it is hidden.
pub open spec fn amount_json(a: Option<u64>) -> Seq<char> {
    match a {
        Some(n) => "\""@ + amounts::amount_text(n) + "\""@,
        None => "null"@,
    }
}

/// Texts with commas between them.
pub open spec fn comma_list(parts: Seq<Seq<char>>) -> Seq<char>
    decreases parts.len(),
{
    if parts.len() == 0 {
        Seq::empty()
    } else if parts.len() == 1 {
        parts[0]
    } else {
        comma_list(parts.drop_last()) + ","@ + parts.last()
    }
}

/// Append texts with commas between them.
pub fn append_list(out: &mut String, parts: &Vec<String>)
    ensures
        final(out)@ == old(out)@ + comma_list(parts@.map_values(|s: String| s@)),
{
    let ghost all = parts@.map_values(|s: String| s@);
    let ghost start = out@;
    let mut i: usize = 0;
    assert(all.take(0) =~= Seq::empty());
    assert(out@ =~= start + comma_list(all.take(0)));
    while i < parts.len()
        invariant
            i <= parts@.len(),
            all == parts@.map_values(|s: String| s@),
            out@ == start + comma_list(all.take(i as int)),
        decreases parts@.len() - i,
    {
        let ghost now = all.take(i + 1);
        assert(now.drop_last() =~= all.take(i as int));
        assert(now.last() == parts@[i as int]@);
        if i > 0 {
            out.append(",");
        }
        out.append(parts[i].as_str());
        assert(out@ =~= start + comma_list(now));
        i += 1;
    }
    assert(all.take(all.len() as int) =~= all);
}

/// The activity reply.
pub fn activity_json(rows: &Vec<String>) -> (r: String)
    ensures
        r@ == "{\"ok\":true,\"txs\":["@ + comma_list(rows@.map_values(|s: String| s@)) + "]}"@,
{
    let mut r = "{\"ok\":true,\"txs\":[".to_owned();
    append_list(&mut r, rows);
    r.append("]}");
    r
}

/// A token's id is found by its ticker in any spelling, once it is in the index.
pub proof fn law_created_token_is_found(
    had: IndexView,
    now: IndexView,
    height: u64,
    ts: u64,
    tx: Transaction,
    other: Seq<char>,
)
    requires
        after_tx(had, now, height, ts, tx),
        tx is CreateToken,
        ticker::normal(tx->CreateToken_ticker@) is Some,
        ticker::normal(other) == ticker::normal(tx->CreateToken_ticker@),
        id_of(had.tokens, ticker::normal(other)->0) is None,
    ensures
        id_of(now.tokens, ticker::normal(other)->0) == Some((had.tokens.len() + 1) as u32),
{
    let t = ticker::normal(other)->0;
    let id = (had.tokens.len() + 1) as u32;
    assert(now.tokens == had.tokens.push((t, id)));
    lemma_found_last(had.tokens, t, id);
}

proof fn lemma_found_last(tokens: Seq<(Seq<char>, u32)>, t: Seq<char>, id: u32)
    requires
        id_of(tokens, t) is None,
    ensures
        id_of(tokens.push((t, id)), t) == Some(id),
    decreases tokens.len(),
{
    if tokens.len() > 0 {
        let rest = tokens.subrange(1, tokens.len() as int);
        let more = tokens.push((t, id));
        assert(more.subrange(1, more.len() as int) =~= rest.push((t, id)));
        lemma_found_last(rest, t, id);
    }
}

} // verus!
