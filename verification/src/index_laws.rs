//! What the explorer's index says, held against the ledger and against the blocks it was
//! made from.

use vstd::prelude::*;
use vstd::utf8::*;

use crate::chain_index;
use crate::chain_index::{Entry, Event, IndexView, Row};
use crate::effect_laws;
use crate::effect_laws::{amount_of, capped, ct, of};
use crate::rules;
use crate::rules::{Reply, State, Term};
use crate::transaction::Transaction;

verus! {

// --- tokens ---------------------------------------------------------------------------

/// The index counts tokens as the ledger does: where both have seen the same ones, a
/// created token gets the same id and ticker in both, and they agree on the next.
pub proof fn law_index_ids_are_the_ledgers(
    had: IndexView,
    now: IndexView,
    at: u64,
    ts: u64,
    st: State,
    tx: Transaction,
    height: u64,
    r: Reply,
)
    requires
        chain_index::after_tx(had, now, at, ts, tx),
        had.tokens.len() + 1 == st.next_token,
        st.next_token < u32::MAX,
        rules::step(st, tx, height, r) is Ok,
        tx is CreateToken,
    ensures
        ({
            let new = rules::step(st, tx, height, r)->Ok_0;
            let (name, id) = now.tokens.last();
            &&& now.tokens.len() == had.tokens.len() + 1
            &&& now.tokens.drop_last() == had.tokens
            &&& id == st.next_token
            &&& new.tokens.contains_key(id)
            &&& new.tokens[id].ticker == encode_utf8(name)
            &&& now.tokens.len() + 1 == new.next_token
        }),
{
    if let Transaction::CreateToken { ticker, creator, supply, sig } = tx {
        effect_laws::law_create_token_effect(
            st,
            ticker,
            creator,
            supply,
            sig,
            height,
            r,
            creator@,
        );
        let pair = now.tokens.last();
        assert(now.tokens.drop_last() =~= had.tokens);
    }
}

/// A ticker leads to the first token that took it, and an id to its first name.
pub proof fn law_first_match(tokens: Seq<(Seq<char>, u32)>, t: Seq<char>, id: u32)
    ensures
        match chain_index::id_of(tokens, t) {
            Some(x) => exists|i: int| #[trigger] first_named(tokens, i, t) && tokens[i].1 == x,
            None => forall|i: int| 0 <= i < tokens.len() ==> (#[trigger] tokens[i]).0 != t,
        },
        match chain_index::name_of(tokens, id) {
            Some(x) => exists|i: int| #[trigger] first_numbered(tokens, i, id) && tokens[i].0 == x,
            None => forall|i: int| 0 <= i < tokens.len() ==> (#[trigger] tokens[i]).1 != id,
        },
    decreases tokens.len(),
{
    if tokens.len() > 0 {
        let rest = tokens.subrange(1, tokens.len() as int);
        law_first_match(rest, t, id);
        assert forall|i: int| 0 < i < tokens.len() implies #[trigger] tokens[i] == rest[i - 1] by {}
        if tokens[0].0 == t {
            assert(first_named(tokens, 0, t));
        } else if chain_index::id_of(rest, t) is Some {
            let x = chain_index::id_of(rest, t)->0;
            let i = choose|i: int| #[trigger] first_named(rest, i, t) && rest[i].1 == x;
            assert(tokens[i + 1] == rest[i]);
            assert(first_named(tokens, i + 1, t));
        }
        if tokens[0].1 == id {
            assert(first_numbered(tokens, 0, id));
        } else if chain_index::name_of(rest, id) is Some {
            let x = chain_index::name_of(rest, id)->0;
            let i = choose|i: int| #[trigger] first_numbered(rest, i, id) && rest[i].0 == x;
            assert(tokens[i + 1] == rest[i]);
            assert(first_numbered(tokens, i + 1, id));
        }
    }
}

/// Whether the token at `i` is the first of a name.
pub open spec fn first_named(tokens: Seq<(Seq<char>, u32)>, i: int, t: Seq<char>) -> bool {
    0 <= i < tokens.len() && tokens[i].0 == t && forall|j: int|
        0 <= j < i ==> (#[trigger] tokens[j]).0 != t
}

/// Whether the token at `i` is the first of an id.
pub open spec fn first_numbered(tokens: Seq<(Seq<char>, u32)>, i: int, id: u32) -> bool {
    0 <= i < tokens.len() && tokens[i].1 == id && forall|j: int|
        0 <= j < i ==> (#[trigger] tokens[j]).1 != id
}

// --- entries ----------------------------------------------------------------------------

/// What is noted of a transfer in the open is what the ledger does: who pays stands
/// first and has its nonce advanced, who receives stands second, and the noted amount of
/// the noted token is what the receiver has more, in public or, for a shield, pending.
pub proof fn law_entry_is_what_the_ledger_did(
    had: IndexView,
    now: IndexView,
    at: u64,
    ts: u64,
    st: State,
    tx: Transaction,
    height: u64,
    r: Reply,
)
    requires
        chain_index::after_tx(had, now, at, ts, tx),
        rules::step(st, tx, height, r) is Ok,
        tx is PublicTransfer || tx is Unshield || tx is Shield,
        tx matches Transaction::PublicTransfer { nonce, .. } ==> nonce < u64::MAX,
        tx matches Transaction::Shield { nonce, .. } ==> nonce < u64::MAX,
        tx matches Transaction::Unshield { xfer, .. } ==> xfer.nonce < u64::MAX,
    ensures
        ({
            let new = rules::step(st, tx, height, r)->Ok_0;
            let e = now.entries.last();
            let (a, b) = (e.a@, e.b@);
            &&& now.entries.len() == had.entries.len() + 1
            &&& now.entries.drop_last() == had.entries
            &&& e.height == at && e.ts == ts
            &&& of(new, a).nonce == of(st, a).nonce + 1
            &&& (tx is PublicTransfer || tx is Unshield) && a != b ==> amount_of(
                of(new, b).public,
                e.token,
            ) == capped(amount_of(of(st, b).public, e.token), e.amount as int)
            &&& tx is Shield ==> of(new, b).pending == of(st, b).pending.insert(
                e.token,
                r.terms[0],
            ) && rules::terms(st, tx) == seq![
                Term::Mint { a: ct(of(st, b).pending, e.token, st.zero), amount: e.amount },
            ]
            &&& tx is PublicTransfer ==> e.event == Event::PublicTransfer
            &&& tx is Unshield ==> e.event == Event::Unshielded
            &&& tx is Shield ==> e.event == Event::Shielded
            &&& tx matches Transaction::Unshield { xfer, .. } ==> e.fee == xfer.fee
        }),
{
    let e = now.entries.last();
    match tx {
        Transaction::PublicTransfer { token, from, to, amount, fee, nonce, sig } => {
            effect_laws::law_public_transfer_effect(
                st,
                token,
                from,
                to,
                amount,
                fee,
                nonce,
                sig,
                height,
                r,
                to@,
                token,
            );
            effect_laws::law_public_transfer_effect(
                st,
                token,
                from,
                to,
                amount,
                fee,
                nonce,
                sig,
                height,
                r,
                from@,
                token,
            );
        },
        Transaction::Shield { token, from, to, amount, fee, nonce, sig } => {
            effect_laws::law_shield_effect(
                st,
                token,
                from,
                to,
                amount,
                fee,
                nonce,
                sig,
                height,
                r,
                to@,
                token,
            );
            effect_laws::law_shield_effect(
                st,
                token,
                from,
                to,
                amount,
                fee,
                nonce,
                sig,
                height,
                r,
                from@,
                token,
            );
        },
        Transaction::Unshield { token, to, amount, xfer, sig } => {
            effect_laws::law_unshield_effect(
                st,
                token,
                to,
                amount,
                xfer,
                sig,
                height,
                r,
                to@,
                token,
            );
            effect_laws::law_unshield_effect(
                st,
                token,
                to,
                amount,
                xfer,
                sig,
                height,
                r,
                xfer.sender@,
                token,
            );
        },
        _ => {},
    }
}

/// What is hidden stays hidden: of a confidential transfer the two accounts and the
/// token are noted and no amount; of a stealth shield not who receives; an anonymous
/// transfer, and whatever moves no value of an account, is not noted at all.
pub proof fn law_hidden_stays_hidden(
    had: IndexView,
    now: IndexView,
    at: u64,
    ts: u64,
    tx: Transaction,
)
    requires
        chain_index::after_tx(had, now, at, ts, tx),
    ensures
        tx is AnonTransfer || tx is DeployContract || tx is CallContract || tx is Stake
            || tx is Unstake || tx is SlashEvidence ==> now.entries == had.entries,
        tx matches Transaction::SolventTransfer { token, xfer } ==> {
            let e = now.entries.last();
            &&& now.entries.len() == had.entries.len() + 1
            &&& e.event == Event::PrivateTransfer && e.amount == 0 && e.fee == 0
            &&& e.a@ == xfer.sender@ && e.b@ == xfer.receiver@ && e.token == token
        },
        tx matches Transaction::ShieldStealth { token, from, amount, .. } ==> {
            let e = now.entries.last();
            &&& now.entries.len() == had.entries.len() + 1
            &&& e.event == Event::StealthShielded && e.amount == amount && e.token == token
            &&& e.a@ == from@ && forall|i: int| 0 <= i < 32 ==> #[trigger] e.b@[i] == 0
        },
        tx matches Transaction::Register { pubkey, .. } ==> {
            let e = now.entries.last();
            &&& now.entries.len() == had.entries.len() + 1
            &&& e.event == Event::Registered && e.a@ == pubkey@ && e.amount == 0
        },
        tx matches Transaction::CreateToken { creator, supply, .. } ==> {
            let e = now.entries.last();
            &&& now.entries.len() == had.entries.len() + 1
            &&& e.event == Event::TokenCreated && e.a@ == creator@ && e.amount == supply
            &&& e.token == now.tokens.last().1
        },
        tx matches Transaction::Rollover { account, .. } ==> {
            let e = now.entries.last();
            &&& now.entries.len() == had.entries.len() + 1
            &&& e.event == Event::RolledOver && e.a@ == account@ && e.amount == 0
        },
        !(tx is CreateToken) ==> now.tokens == had.tokens,
{
}

/// A block's reward is noted for its miner, in LAT, and not at all where nobody mined.
pub proof fn law_rewards_are_noted(
    had: IndexView,
    now: IndexView,
    at: u64,
    ts: u64,
    miner: Seq<u8>,
    reward: u64,
)
    requires
        chain_index::after_coinbase(had, now, at, ts, miner, reward),
        miner.len() == 32,
    ensures
        now.tokens == had.tokens,
        (forall|i: int| 0 <= i < 32 ==> #[trigger] miner[i] == 0) ==> now.entries == had.entries,
        (exists|i: int| 0 <= i < 32 && #[trigger] miner[i] != 0) ==> {
            let e = now.entries.last();
            &&& now.entries.len() == had.entries.len() + 1
            &&& now.entries.drop_last() == had.entries
            &&& e.event == Event::Mined && e.token == 0 && e.b@ == miner && e.amount == reward
            &&& e.height == at && e.ts == ts && e.fee == 0
        },
{
    if forall|i: int| 0 <= i < 32 ==> #[trigger] miner[i] == 0 {
        assert(miner =~= chain_index::nobody());
    }
    if exists|i: int| 0 <= i < 32 && #[trigger] miner[i] != 0 {
        let i = choose|i: int| 0 <= i < 32 && #[trigger] miner[i] != 0;
        assert(chain_index::nobody()[i] == 0);
    }
}

// --- an issuer's stock --------------------------------------------------------------------

/// What an issuer is taken to hold of its token in private: what was created for it, less
/// what it unshielded with the fees, never below nothing. Other entries count for nothing.
pub proof fn law_stock_follows_entries(entries: Seq<Entry>, e: Entry, token: u32, issuer: Seq<u8>)
    ensures
        ({
            let had = chain_index::held(entries, token, issuer) as int;
            let has = chain_index::held(entries.push(e), token, issuer) as int;
            let own = e.token == token && e.a@ == issuer;
            &&& chain_index::held(Seq::empty(), token, issuer) == 0
            &&& own && e.event is TokenCreated ==> has == capped(had, e.amount as int)
            &&& own && e.event is Unshielded && had >= e.amount + e.fee ==> has == had - e.amount
                - e.fee
            &&& own && e.event is Unshielded && had < e.amount + e.fee ==> has == 0
            &&& !own || !(e.event is TokenCreated || e.event is Unshielded) ==> has == had
        }),
{
    assert(entries.push(e).drop_last() =~= entries);
}

// --- an account's activity --------------------------------------------------------------------

proof fn lemma_own_entries(entries: Seq<Entry>, id: Seq<u8>, n: nat)
    requires
        n <= entries.len(),
    ensures
        ({
            let s = chain_index::own_entries(entries, id, n);
            &&& forall|k: int|
                0 <= k < s.len() ==> #[trigger] is_shown(entries, s, id, n as int, k)
            &&& forall|i: int|
                0 <= i < n && ((#[trigger] entries[i]).a@ == id || entries[i].b@ == id)
                    ==> s.contains(entries[i])
        }),
    decreases n,
{
    if n > 0 {
        let m = (n - 1) as nat;
        lemma_own_entries(entries, id, m);
        let p = chain_index::own_entries(entries, id, m);
        let s = chain_index::own_entries(entries, id, n);
        let own = chain_index::concerns(entries[n - 1], id);
        let d: int = if own {
            1
        } else {
            0
        };
        assert forall|k: int| 0 <= k < s.len() implies #[trigger] is_shown(
            entries,
            s,
            id,
            n as int,
            k,
        ) by {
            if own && k == 0 {
                assert(shows(entries, s, id, n as int, 0, n - 1));
            } else {
                let j = k - d;
                assert(is_shown(entries, p, id, m as int, j));
                let i = choose|i: int| #[trigger] shows(entries, p, id, m as int, j, i);
                assert(s[k] == p[k - d]);
                assert(shows(entries, s, id, n as int, k, i));
            }
        }
        assert forall|i: int|
            0 <= i < n && ((#[trigger] entries[i]).a@ == id || entries[i].b@
                == id) implies s.contains(entries[i]) by {
            if i == n - 1 {
                assert(s[0] == entries[i]);
            } else {
                assert(p.contains(entries[i]));
                let k = choose|k: int| 0 <= k < p.len() && p[k] == entries[i];
                assert(s[k + d] == entries[i]);
            }
        }
    }
}

/// Whether the shown entry `k` is entry `i`, one of the account's among the first `n`.
pub open spec fn shows(
    entries: Seq<Entry>,
    s: Seq<Entry>,
    id: Seq<u8>,
    n: int,
    k: int,
    i: int,
) -> bool {
    0 <= i < n && s[k] == entries[i] && (entries[i].a@ == id || entries[i].b@ == id)
}

/// Whether the shown entry `k` is one of the account's among the first `n`.
pub open spec fn is_shown(entries: Seq<Entry>, s: Seq<Entry>, id: Seq<u8>, n: int, k: int) -> bool {
    exists|i: int| #[trigger] shows(entries, s, id, n, k, i)
}

/// The latest of an account's entries come first: where the newest entry is the account's,
/// it leads the list, and where it is not, the list is that of the entries before.
pub proof fn law_newest_first(entries: Seq<Entry>, id: Seq<u8>)
    requires
        entries.len() > 0,
    ensures
        ({
            let s = chain_index::own_entries(entries, id, entries.len());
            let e = entries.last();
            let before = chain_index::own_entries(
                entries.drop_last(),
                id,
                (entries.len() - 1) as nat,
            );
            if e.a@ == id || e.b@ == id {
                s.len() == before.len() + 1 && s[0] == e && s.skip(1) == before
            } else {
                s == before
            }
        }),
{
    let d = entries.drop_last();
    let n = (entries.len() - 1) as nat;
    lemma_own_prefix(entries, d, id, n);
    let s = chain_index::own_entries(entries, id, entries.len());
    let before = chain_index::own_entries(d, id, n);
    if chain_index::concerns(entries.last(), id) {
        assert(s.skip(1) =~= before);
    }
}

proof fn lemma_own_prefix(a: Seq<Entry>, b: Seq<Entry>, id: Seq<u8>, n: nat)
    requires
        n <= a.len(),
        n <= b.len(),
        forall|i: int| 0 <= i < n ==> #[trigger] a[i] == b[i],
    ensures
        chain_index::own_entries(a, id, n) == chain_index::own_entries(b, id, n),
    decreases n,
{
    if n > 0 {
        lemma_own_prefix(a, b, id, (n - 1) as nat);
        assert(a[n - 1] == b[n - 1]);
    }
}

/// An account's activity is its own: each row is of an entry that names the account, of
/// at most 50; it says when, and which token; it is outgoing only where the account pays,
/// incoming only where the account does not pay, or makes a token; the other party is
/// the other of the two; and an amount that is shown is the entry's.
pub proof fn law_activity_is_the_accounts_own(
    rows: Seq<Row>,
    entries: Seq<Entry>,
    id: Seq<u8>,
    k: int,
)
    requires
        chain_index::is_activity(rows, entries, id),
        0 <= k < rows.len(),
    ensures
        rows.len() <= 50,
        exists|i: int|
            0 <= i < entries.len() && ({
                let e = #[trigger] entries[i];
                let r = rows[k];
                &&& e.a@ == id || e.b@ == id
                &&& r.height == e.height && r.ts == e.ts && r.token == e.token
                &&& r.direction is Outgoing ==> e.a@ == id || e.event is StealthShielded
                &&& r.direction is Incoming ==> e.a@ != id || e.event is TokenCreated
                    || e.event is Mined
                &&& r.amount is Some ==> r.amount == Some(e.amount)
                &&& r.amount is None ==> e.event is PrivateTransfer || e.event is Registered
                    || e.event is RolledOver
                &&& r.other matches Some(x) ==> if e.a@ == id {
                    x == e.b
                } else {
                    x == e.a
                }
            }),
{
    let n = entries.len();
    let s = chain_index::own_entries(entries, id, n);
    lemma_own_entries(entries, id, n);
    assert(is_shown(entries, s, id, n as int, k));
    let i = choose|i: int| #[trigger] shows(entries, s, id, n as int, k, i);
    assert(chain_index::is_row(rows[k], s[k], id));
    assert(shows(entries, s, id, n as int, k, i));
    assert(entries[i] == s[k]);
}

/// Nothing of an account's is left out while the list has room.
pub proof fn law_activity_is_complete(
    rows: Seq<Row>,
    entries: Seq<Entry>,
    id: Seq<u8>,
    i: int,
)
    requires
        chain_index::is_activity(rows, entries, id),
        rows.len() < 50,
        0 <= i < entries.len(),
        entries[i].a@ == id || entries[i].b@ == id,
    ensures
        exists|k: int|
            0 <= k < rows.len() && chain_index::is_row(#[trigger] rows[k], entries[i], id),
{
    let s = chain_index::own_entries(entries, id, entries.len());
    lemma_own_entries(entries, id, entries.len());
    assert(s.contains(entries[i]));
    let k = choose|k: int| 0 <= k < s.len() && s[k] == entries[i];
    assert(chain_index::is_row(rows[k], s[k], id));
}

/// A row is named for what the account did: who pays has sent, who does not has received,
/// and who does both has moved its own.
pub proof fn law_rows_are_named_for_the_account(r: Row, e: Entry, id: Seq<u8>)
    requires
        chain_index::is_row(r, e, id),
        e.a@ == id || e.b@ == id,
    ensures
        e.event is PublicTransfer ==> r.label@ == if e.a@ == id {
            "Sent"@
        } else {
            "Received"@
        },
        e.event is PrivateTransfer && e.a@ != e.b@ ==> r.label@ == if e.a@ == id {
            "Private send"@
        } else {
            "Private receive"@
        },
        e.event is Shielded && e.a@ != e.b@ ==> r.label@ == if e.a@ == id {
            "Shield sent"@
        } else {
            "Shield received"@
        },
        e.event is Unshielded && e.a@ != e.b@ ==> r.label@ == if e.a@ == id {
            "Unshield sent"@
        } else {
            "Unshield received"@
        },
        e.a@ == e.b@ && (e.event is PrivateTransfer || e.event is Shielded || e.event is Unshielded)
            ==> r.direction is Own && r.other is None,
        e.event is PublicTransfer || e.event is Shielded || e.event is Unshielded ==> r.amount
            == Some(e.amount),
        e.event is Mined ==> r.label@ == "Mined"@ && r.amount == Some(e.amount)
            && r.direction is Incoming,
        r.direction is Outgoing && !(e.event is StealthShielded) ==> r.other == Some(e.b),
{
}

/// The ticker that is shown for a token leads back to it, where no two have the same; LAT
/// is shown for the id zero alone.
pub proof fn law_shown_ticker_leads_back(tokens: Seq<(Seq<char>, u32)>, i: int)
    requires
        0 <= i < tokens.len(),
        forall|j: int, k: int|
            0 <= j < k < tokens.len() ==> (#[trigger] tokens[j]).0 != (#[trigger] tokens[k]).0
                && tokens[j].1 != tokens[k].1,
        tokens[i].1 != 0,
    ensures
        chain_index::shown_ticker(tokens, tokens[i].1) == tokens[i].0,
        chain_index::id_of(tokens, tokens[i].0) == Some(tokens[i].1),
        chain_index::shown_ticker(tokens, 0) == "LAT"@,
{
    law_first_match(tokens, tokens[i].0, tokens[i].1);
    let (t, id) = tokens[i];
    if chain_index::id_of(tokens, t) is Some {
        let x = chain_index::id_of(tokens, t)->0;
        let j = choose|j: int| #[trigger] first_named(tokens, j, t) && tokens[j].1 == x;
        if j < i {
            assert(tokens[j].0 != tokens[i].0);
        } else if i < j {
            assert(tokens[i].0 != tokens[j].0);
        }
    }
    if chain_index::name_of(tokens, id) is Some {
        let x = chain_index::name_of(tokens, id)->0;
        let j = choose|j: int| #[trigger] first_numbered(tokens, j, id) && tokens[j].0 == x;
        if j < i {
            assert(tokens[j].1 != tokens[i].1);
        } else if i < j {
            assert(tokens[i].1 != tokens[j].1);
        }
    }
}

} // verus!
