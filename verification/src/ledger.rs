//! The ledger: accounts, tokens, contracts, nullifiers and validators, each an
//! encoded record in a key/value store.
//!
//! The ledger holds, per account, a confidential balance for each token, and a
//! global token registry in which a ticker is unique: only one `$TICKER` can
//! ever exist. Writes stay in the store's overlay until [`Ledger::flush`] folds
//! them into its base, so a copy of a ledger can be tried and thrown away.

use vstd::prelude::*;
use vstd::std_specs::hash::*;
use vstd::utf8::*;

use crate::byte_map;
use crate::bytes;
use crate::bytes::be_bytes;
use crate::mem::MemStore;
use crate::overlay;
use crate::overlay::OverlayStore;
use crate::records;
use crate::records::{
    account_in,
    decode_contract,
    decode_token,
    decode_validator,
    encode_account,
    encode_contract,
    encode_token,
    encode_validator,
    rec_key,
    token_key,
    Account,
    AccountView,
    Contract,
    ContractView,
    TokenMeta,
    TokenView,
    Validator,
    ValidatorView,
    REC_ACCOUNT,
    REC_CONTRACT,
    REC_META,
    REC_NULLIFIER,
    REC_TICKER,
    REC_TOKEN,
    REC_VALIDATOR,
};
use crate::rules::{State, DEFAULT_MAX_VALIDATORS};
use crate::smt;
use crate::smt::empty_root;
use crate::smt_model;
use crate::store;
use crate::store::{Column, KVStore, WriteBatch};
use crate::text::utf8_of;
use crate::ticker;
use crate::ticker::normalize_ticker;

verus! {

broadcast use group_hash_axioms;

/// One state entry whose leaf in the commitment trie needs (re)computing.
#[derive(Clone, Copy, Debug)]
pub enum DirtyKey {
    Account([u8; 32]),
    Token(u32),
    Contract([u8; 32]),
    Nullifier([u8; 32]),
    Validator([u8; 32]),
    /// The next token id.
    Meta,
}

/// There are as many entries of the ticker index as tickers.
proof fn lemma_indexed_tickers(o: Map<Seq<u8>, Seq<u8>>, next_token: u32, zero: [u8; 64])
    requires
        byte_map::prefixed(o, seq![REC_TICKER]).dom().finite(),
    ensures
        byte_map::prefixed(o, seq![REC_TICKER]).dom().len() == state_of(
            o,
            next_token,
            zero,
        ).tickers.dom().len(),
{
    let x = byte_map::prefixed(o, seq![REC_TICKER]).dom();
    let y = state_of(o, next_token, zero).tickers.dom();
    let f = |k: Seq<u8>| k.subrange(1, k.len() as int);
    assert forall|k: Seq<u8>| #[trigger] x.contains(k) implies k == records::key_of(
        REC_TICKER,
        f(k),
    ) by {
        assert(bytes::has_prefix(k, seq![REC_TICKER]));
        assert(k[0] == seq![REC_TICKER][0]);
        assert(k =~= records::key_of(REC_TICKER, f(k)));
    }
    assert(vstd::relations::injective_on(f, x));
    assert forall|t: Seq<u8>| y.contains(t) implies #[trigger] x.map(f).contains(t) by {
        let k = records::key_of(REC_TICKER, t);
        assert(k.subrange(0, 1) =~= seq![REC_TICKER]);
        assert(bytes::has_prefix(k, seq![REC_TICKER]));
        assert(x.contains(k));
        assert(f(k) =~= t);
    }
    assert(x.map(f) =~= y);
    vstd::set_lib::lemma_map_size(x, y, f);
}

/// The full ledger over a store's base `B`.
pub struct Ledger<B: KVStore> {
    pub next_token_id: u32,
    /// Object records and trie nodes: reads fall through to the committed base,
    /// writes stay on top until a flush.
    pub store: OverlayStore<B>,
    /// The commitment's root when it was last computed.
    pub root: [u8; 32],
    /// Entries changed since then. One may be listed more than once.
    pub dirty: Vec<DirtyKey>,
    /// The validator-set cap: a consensus parameter, the same on every node.
    pub max_validators: usize,
    /// The ciphertext of an account that holds nothing of a token.
    pub zero: [u8; 64],
}

/// The four bytes of a ticker's index entry, as the token id they say.
pub open spec fn of_be4(b: Seq<u8>) -> u32 {
    choose|x: u32| bytes::be4(x) == b
}

pub proof fn lemma_of_be4(x: u32)
    ensures
        of_be4(bytes::be4(x)) == x,
{
    bytes::lemma_be4(of_be4(bytes::be4(x)), x);
}

/// The state that a set of records stands for.
pub open spec fn state_of(o: Map<Seq<u8>, Seq<u8>>, next_token: u32, zero: [u8; 64]) -> State {
    State {
        accounts: Map::new(
            |id: Seq<u8>| o.contains_key(records::key_of(REC_ACCOUNT, id)),
            |id: Seq<u8>|
                records::whole(records::read_account(o[records::key_of(REC_ACCOUNT, id)]))->0,
        ),
        tokens: Map::new(
            |id: u32| o.contains_key(records::key_of(REC_TOKEN, bytes::be4(id))),
            |id: u32|
                records::whole(
                    records::read_token(o[records::key_of(REC_TOKEN, bytes::be4(id))]),
                )->0,
        ),
        tickers: Map::new(
            |t: Seq<u8>| o.contains_key(records::key_of(REC_TICKER, t)),
            |t: Seq<u8>| of_be4(o[records::key_of(REC_TICKER, t)]),
        ),
        contracts: Map::new(
            |id: Seq<u8>| o.contains_key(records::key_of(REC_CONTRACT, id)),
            |id: Seq<u8>|
                records::whole(records::read_contract(o[records::key_of(REC_CONTRACT, id)]))->0,
        ),
        nullifiers: Set::new(|nf: Seq<u8>| o.contains_key(records::key_of(REC_NULLIFIER, nf))),
        validators: Map::new(
            |id: Seq<u8>| o.contains_key(records::key_of(REC_VALIDATOR, id)),
            |id: Seq<u8>|
                records::whole(records::read_validator(o[records::key_of(REC_VALIDATOR, id)]))->0,
        ),
        next_token,
        zero,
    }
}

/// Whether a record is well-formed for its kind.
pub open spec fn record_ok(k: Seq<u8>, v: Seq<u8>) -> bool {
    k.len() > 0 ==> {
        &&& k[0] == REC_ACCOUNT ==> k.len() == 33 && records::whole(records::read_account(v))
            is Some
        &&& k[0] == REC_TOKEN ==> {
            &&& records::whole(records::read_token(v)) is Some
            &&& k == records::key_of(
                REC_TOKEN,
                bytes::be4((records::whole(records::read_token(v))->0).id),
            )
        }
        &&& k[0] == REC_TICKER ==> exists|x: u32| v == #[trigger] bytes::be4(x)
        &&& k[0] == REC_CONTRACT ==> k.len() == 33 && records::whole(records::read_contract(v))
            is Some
        &&& k[0] == REC_NULLIFIER ==> k.len() == 33
        &&& k[0] == REC_VALIDATOR ==> k.len() == 33 && records::whole(records::read_validator(v))
            is Some
    }
}

/// Whether every record is well-formed.
pub open spec fn records_ok(o: Map<Seq<u8>, Seq<u8>>) -> bool {
    forall|k: Seq<u8>| #[trigger] o.contains_key(k) ==> record_ok(k, o[k])
}

/// Whether a record has the one form in which its entry is written.
pub open spec fn record_tidy(k: Seq<u8>, v: Seq<u8>) -> bool {
    k.len() > 0 ==> {
        &&& k[0] == REC_ACCOUNT ==> v == records::account_bytes(
            records::whole(records::read_account(v))->0,
        )
        &&& k[0] == REC_TOKEN ==> v == records::token_bytes(
            records::whole(records::read_token(v))->0,
        )
        &&& k[0] == REC_CONTRACT ==> v == records::contract_bytes(
            records::whole(records::read_contract(v))->0,
        )
        &&& k[0] == REC_NULLIFIER ==> v == seq![1u8]
        &&& k[0] == REC_VALIDATOR ==> v == records::validator_bytes(
            records::whole(records::read_validator(v))->0,
        )
    }
}

/// Whether every record has the one form in which its entry is written.
pub open spec fn records_tidy(o: Map<Seq<u8>, Seq<u8>>) -> bool {
    forall|k: Seq<u8>| #[trigger] o.contains_key(k) ==> record_tidy(k, o[k])
}

/// The object records in a store.
pub open spec fn objects_of(m: store::Contents) -> Map<Seq<u8>, Seq<u8>> {
    store::column(m, Column::Objects)
}

/// Whether a record's key is that of an entry of the state: an account, a token or its
/// ticker, a contract, a nullifier or a validator.
pub open spec fn entry_key(k: Seq<u8>) -> bool {
    k.len() > 0 && (k[0] == REC_ACCOUNT || k[0] == REC_TOKEN || k[0] == REC_TICKER || k[0]
        == REC_CONTRACT || k[0] == REC_NULLIFIER || k[0] == REC_VALIDATOR)
}

/// The records besides the entries: that of the next token id, and any of no known kind.
pub open spec fn rest_in(o: Map<Seq<u8>, Seq<u8>>) -> Map<Seq<u8>, Seq<u8>> {
    Map::new(|k: Seq<u8>| o.contains_key(k) && !entry_key(k), |k: Seq<u8>| o[k])
}

/// The record of the next token id, where there is one.
pub open spec fn meta_in(o: Map<Seq<u8>, Seq<u8>>) -> Option<Seq<u8>> {
    let rest = rest_in(o);
    if rest.contains_key(seq![REC_META]) {
        Some(rest[seq![REC_META]])
    } else {
        None
    }
}

/// Whether two stores hold the same outside the object records.
pub open spec fn same_columns(a: store::Contents, b: store::Contents) -> bool {
    forall|c: Column| c != Column::Objects ==> #[trigger] store::column(b, c) == store::column(a, c)
}

// --- how a record's write changes the state ---------------------------------

pub proof fn lemma_column_insert(m: store::Contents, k: Seq<u8>, v: Seq<u8>)
    ensures
        objects_of(m.insert((Column::Objects, k), v)) == objects_of(m).insert(k, v),
        same_columns(m, m.insert((Column::Objects, k), v)),
{
    let n = m.insert((Column::Objects, k), v);
    assert(objects_of(n) =~= objects_of(m).insert(k, v));
    assert forall|c: Column| c != Column::Objects implies #[trigger] store::column(n, c)
        == store::column(m, c) by {
        assert(store::column(n, c) =~= store::column(m, c));
    }
}

pub proof fn lemma_column_remove(m: store::Contents, k: Seq<u8>)
    ensures
        objects_of(m.remove((Column::Objects, k))) == objects_of(m).remove(k),
        same_columns(m, m.remove((Column::Objects, k))),
{
    let n = m.remove((Column::Objects, k));
    assert(objects_of(n) =~= objects_of(m).remove(k));
    assert forall|c: Column| c != Column::Objects implies #[trigger] store::column(n, c)
        == store::column(m, c) by {
        assert(store::column(n, c) =~= store::column(m, c));
    }
}

/// Keys of different kinds, or of different ids, differ.
pub proof fn lemma_keys(a: u8, x: Seq<u8>, b: u8, y: Seq<u8>)
    ensures
        records::key_of(a, x) == records::key_of(b, y) ==> a == b && x == y,
{
    broadcast use records::lemma_key_of;

}

pub proof fn lemma_put_account(
    o: Map<Seq<u8>, Seq<u8>>,
    n: u32,
    z: [u8; 64],
    id: Seq<u8>,
    a: AccountView,
)
    requires
        records_ok(o),
        a.fits(),
        id.len() == 32,
    ensures
        ({
            let p = o.insert(records::key_of(REC_ACCOUNT, id), records::account_bytes(a));
            records_ok(p) && state_of(p, n, z) == state_of(o, n, z).with_account(id, a)
        }),
{
    broadcast use records::lemma_key_of;

    let k = records::key_of(REC_ACCOUNT, id);
    let p = o.insert(k, records::account_bytes(a));
    records::lemma_account_bytes(a, Seq::empty());
    let s = state_of(o, n, z);
    let t = state_of(p, n, z);
    assert forall|x: Seq<u8>| #[trigger] records::key_of(REC_ACCOUNT, x) == k implies x == id by {
        lemma_keys(REC_ACCOUNT, x, REC_ACCOUNT, id);
    }
    assert(t.accounts =~= s.accounts.insert(id, a));
    assert(t.tokens =~= s.tokens);
    assert(t.tickers =~= s.tickers);
    assert(t.contracts =~= s.contracts);
    assert(t.nullifiers =~= s.nullifiers);
    assert(t.validators =~= s.validators);
}

pub proof fn lemma_put_contract(
    o: Map<Seq<u8>, Seq<u8>>,
    n: u32,
    z: [u8; 64],
    id: Seq<u8>,
    c: ContractView,
)
    requires
        records_ok(o),
        c.fits(),
        id.len() == 32,
    ensures
        ({
            let p = o.insert(records::key_of(REC_CONTRACT, id), records::contract_bytes(c));
            records_ok(p) && state_of(p, n, z) == state_of(o, n, z).with_contract(id, c)
        }),
{
    broadcast use records::lemma_key_of;

    let k = records::key_of(REC_CONTRACT, id);
    let p = o.insert(k, records::contract_bytes(c));
    records::lemma_contract_bytes(c, Seq::empty());
    let s = state_of(o, n, z);
    let t = state_of(p, n, z);
    assert forall|x: Seq<u8>| #[trigger] records::key_of(REC_CONTRACT, x) == k implies x == id by {
        lemma_keys(REC_CONTRACT, x, REC_CONTRACT, id);
    }
    assert(t.accounts =~= s.accounts);
    assert(t.tokens =~= s.tokens);
    assert(t.tickers =~= s.tickers);
    assert(t.contracts =~= s.contracts.insert(id, c));
    assert(t.nullifiers =~= s.nullifiers);
    assert(t.validators =~= s.validators);
}

pub proof fn lemma_put_validator(
    o: Map<Seq<u8>, Seq<u8>>,
    n: u32,
    z: [u8; 64],
    id: Seq<u8>,
    v: ValidatorView,
)
    requires
        records_ok(o),
        v.fits(),
        id.len() == 32,
    ensures
        ({
            let k = records::key_of(REC_VALIDATOR, id);
            let p = if v.drained() {
                o.remove(k)
            } else {
                o.insert(k, records::validator_bytes(v))
            };
            records_ok(p) && state_of(p, n, z) == state_of(o, n, z).with_validator(id, v)
        }),
{
    broadcast use records::lemma_key_of;

    let k = records::key_of(REC_VALIDATOR, id);
    let p = if v.drained() {
        o.remove(k)
    } else {
        o.insert(k, records::validator_bytes(v))
    };
    records::lemma_validator_bytes(v, Seq::empty());
    let s = state_of(o, n, z);
    let t = state_of(p, n, z);
    assert forall|x: Seq<u8>| #[trigger] records::key_of(REC_VALIDATOR, x) == k implies x == id by {
        lemma_keys(REC_VALIDATOR, x, REC_VALIDATOR, id);
    }
    assert(t.accounts =~= s.accounts);
    assert(t.tokens =~= s.tokens);
    assert(t.tickers =~= s.tickers);
    assert(t.contracts =~= s.contracts);
    assert(t.nullifiers =~= s.nullifiers);
    assert(t.validators =~= s.with_validator(id, v).validators);
}

pub proof fn lemma_put_nullifier(
    o: Map<Seq<u8>, Seq<u8>>,
    n: u32,
    z: [u8; 64],
    nf: Seq<u8>,
    v: Seq<u8>,
)
    requires
        records_ok(o),
        nf.len() == 32,
    ensures
        ({
            let p = o.insert(records::key_of(REC_NULLIFIER, nf), v);
            records_ok(p) && state_of(p, n, z) == state_of(o, n, z).with_nullifier(nf)
        }),
{
    broadcast use records::lemma_key_of;

    let k = records::key_of(REC_NULLIFIER, nf);
    let p = o.insert(k, v);
    let s = state_of(o, n, z);
    let t = state_of(p, n, z);
    assert forall|x: Seq<u8>| #[trigger] records::key_of(REC_NULLIFIER, x) == k implies x == nf by {
        lemma_keys(REC_NULLIFIER, x, REC_NULLIFIER, nf);
    }
    assert(t.accounts =~= s.accounts);
    assert(t.tokens =~= s.tokens);
    assert(t.tickers =~= s.tickers);
    assert(t.contracts =~= s.contracts);
    assert(t.nullifiers =~= s.nullifiers.insert(nf));
    assert(t.validators =~= s.validators);
}

pub proof fn lemma_put_meta(o: Map<Seq<u8>, Seq<u8>>, n: u32, z: [u8; 64], v: Seq<u8>)
    requires
        records_ok(o),
    ensures
        records_ok(o.insert(seq![REC_META], v)),
        state_of(o.insert(seq![REC_META], v), n, z) == state_of(o, n, z),
{
    broadcast use records::lemma_key_of;

    let p = o.insert(seq![REC_META], v);
    let s = state_of(o, n, z);
    let t = state_of(p, n, z);
    assert(seq![REC_META][0] == REC_META);
    assert(t.accounts =~= s.accounts);
    assert(t.tokens =~= s.tokens);
    assert(t.tickers =~= s.tickers);
    assert(t.contracts =~= s.contracts);
    assert(t.nullifiers =~= s.nullifiers);
    assert(t.validators =~= s.validators);
}

/// An entry's record is none of the others.
pub proof fn lemma_rest_stays(o: Map<Seq<u8>, Seq<u8>>, k: Seq<u8>, v: Seq<u8>)
    requires
        entry_key(k),
    ensures
        rest_in(o.insert(k, v)) == rest_in(o),
        rest_in(o.remove(k)) == rest_in(o),
{
    assert(rest_in(o.insert(k, v)) =~= rest_in(o));
    assert(rest_in(o.remove(k)) =~= rest_in(o));
}

/// A record in its one form keeps the others in theirs, and so does one that goes.
pub proof fn lemma_tidy_stays(o: Map<Seq<u8>, Seq<u8>>, k: Seq<u8>, v: Seq<u8>)
    ensures
        records_tidy(o) && record_tidy(k, v) ==> records_tidy(o.insert(k, v)),
        records_tidy(o) ==> records_tidy(o.remove(k)),
{
    if records_tidy(o) {
        assert forall|x: Seq<u8>| #[trigger] o.insert(k, v).contains_key(x) && record_tidy(
            k,
            v,
        ) implies record_tidy(x, o.insert(k, v)[x]) by {
            if x != k {
                assert(o.contains_key(x));
            }
        }
        assert forall|x: Seq<u8>| #[trigger] o.remove(k).contains_key(x) implies record_tidy(
            x,
            o.remove(k)[x],
        ) by {
            assert(o.contains_key(x));
        }
    }
}

/// The record of the next token id is one of the others.
pub proof fn lemma_rest_meta(o: Map<Seq<u8>, Seq<u8>>, v: Seq<u8>)
    ensures
        rest_in(o.insert(seq![REC_META], v)) == rest_in(o).insert(seq![REC_META], v),
{
    assert(seq![REC_META][0] == REC_META);
    assert(rest_in(o.insert(seq![REC_META], v)) =~= rest_in(o).insert(seq![REC_META], v));
}

pub proof fn lemma_put_token(
    o: Map<Seq<u8>, Seq<u8>>,
    n: u32,
    z: [u8; 64],
    tok: TokenView,
)
    requires
        records_ok(o),
        tok.fits(),
    ensures
        ({
            let p = o.insert(
                records::key_of(REC_TOKEN, bytes::be4(tok.id)),
                records::token_bytes(tok),
            ).insert(records::key_of(REC_TICKER, tok.ticker), bytes::be4(tok.id));
            records_ok(p) && state_of(p, n, z) == state_of(o, n, z).with_token(tok, n)
        }),
{
    broadcast use records::lemma_key_of;

    let k = records::key_of(REC_TOKEN, bytes::be4(tok.id));
    let u = records::key_of(REC_TICKER, tok.ticker);
    let p = o.insert(k, records::token_bytes(tok)).insert(u, bytes::be4(tok.id));
    records::lemma_token_bytes(tok, Seq::empty());
    let s = state_of(o, n, z);
    let t = state_of(p, n, z);
    assert(k != u) by {
        lemma_keys(REC_TOKEN, bytes::be4(tok.id), REC_TICKER, tok.ticker);
    }
    assert forall|x: u32| #[trigger] records::key_of(REC_TOKEN, bytes::be4(x)) == k implies x
        == tok.id by {
        lemma_keys(REC_TOKEN, bytes::be4(x), REC_TOKEN, bytes::be4(tok.id));
        bytes::lemma_be4(x, tok.id);
    }
    assert forall|x: Seq<u8>| #[trigger] records::key_of(REC_TICKER, x) == u implies x
        == tok.ticker by {
        lemma_keys(REC_TICKER, x, REC_TICKER, tok.ticker);
    }
    lemma_of_be4(tok.id);
    assert(t.accounts =~= s.accounts);
    assert(t.tokens =~= s.tokens.insert(tok.id, tok));
    assert(t.tickers =~= s.tickers.insert(tok.ticker, tok.id));
    assert(t.contracts =~= s.contracts);
    assert(t.nullifiers =~= s.nullifiers);
    assert(t.validators =~= s.validators);
    assert(records_ok(p)) by {
        assert forall|x: Seq<u8>| #[trigger] p.contains_key(x) implies record_ok(x, p[x]) by {
            if x == u {
            } else if x == k {
            } else {
                assert(o.contains_key(x));
            }
        }
    }
}

/// A ledger holds finitely many records.
pub proof fn lemma_objects_finite<B: KVStore>(l: Ledger<B>)
    ensures
        l.objects().dom().finite(),
{
    l.store.holds_finitely();
    let all = l.store.holds().dom();
    let keys = all.map(|x: (Column, Seq<u8>)| x.1);
    all.lemma_map_finite(|x: (Column, Seq<u8>)| x.1);
    assert forall|k: Seq<u8>| l.objects().dom().contains(k) implies keys.contains(k) by {
        assert(all.contains((Column::Objects, k)));
    }
    vstd::set_lib::lemma_set_subset_finite(keys, l.objects().dom());
}

/// What the state says of an object, the record's bytes say.
pub proof fn lemma_record(o: Map<Seq<u8>, Seq<u8>>, k: Seq<u8>)
    requires
        records_ok(o),
        o.contains_key(k),
    ensures
        record_ok(k, o[k]),
{
}

impl<B: KVStore> Ledger<B> {
    /// The object records.
    pub open spec fn objects(&self) -> Map<Seq<u8>, Seq<u8>> {
        objects_of(self.store.holds())
    }

    /// The commitment trie's nodes.
    pub open spec fn nodes(&self) -> Map<Seq<u8>, Seq<u8>> {
        smt::nodes_of(self.store.holds())
    }

    /// The ledger's state.
    pub open spec fn state(&self) -> State {
        state_of(self.objects(), self.next_token_id, self.zero)
    }

    /// Whether every record is well-formed.
    pub open spec fn wf(&self) -> bool {
        records_ok(self.objects())
    }

    /// Whether `now` differs from this ledger in the object records, the next token
    /// id and the flagged entries alone.
    pub open spec fn same_home(&self, now: &Ledger<B>) -> bool {
        &&& now.root == self.root
        &&& now.max_validators == self.max_validators
        &&& now.zero == self.zero
        &&& same_columns(self.store.holds(), now.store.holds())
        &&& now.store.base_value() == self.store.base_value()
    }

    /// Whether `now` differs from this ledger in the entries of the state alone.
    pub open spec fn same_frame(&self, now: &Ledger<B>) -> bool {
        &&& self.same_home(now)
        &&& now.dirty@ == self.dirty@
        &&& rest_in(now.objects()) == rest_in(self.objects())
        &&& self.tidy() ==> now.tidy()
    }

    /// Whether every record has the one form in which its entry is written.
    pub open spec fn tidy(&self) -> bool {
        records_tidy(self.objects())
    }

    /// Whether a record says what the next token id is.
    pub open spec fn next_recorded(&self) -> bool {
        meta_in(self.objects()) == Some(bytes::le4(self.next_token_id))
    }

    /// Whether the next token id can be told from the records: they say it, or none
    /// does and it is the first one.
    pub open spec fn next_known(&self) -> bool {
        self.next_recorded() || (meta_in(self.objects()) is None && self.next_token_id == 1)
    }

    /// An empty ledger over a store without object records. The next token id is
    /// committed from the start.
    pub(crate) fn with_store(store: OverlayStore<B>, zero: [u8; 64]) -> (r: Self)
        ensures
            r.store == store,
            r.next_token_id == 1,
            r.zero == zero,
            r.root@ == smt_model::root_of(Map::empty()),
            r.dirty@ == seq![DirtyKey::Meta],
            r.max_validators == DEFAULT_MAX_VALIDATORS,
    {
        let dirty: Vec<DirtyKey> = vec![DirtyKey::Meta];
        assert(dirty@ =~= seq![DirtyKey::Meta]);
        Ledger {
            next_token_id: 1,
            store,
            root: empty_root(),
            dirty,
            max_validators: DEFAULT_MAX_VALIDATORS,
            zero,
        }
    }

    /// A fresh, empty ledger over `base`. Object records that a previous run
    /// left there are wiped: a stale account would read back as live state.
    /// `zero` is the ciphertext of an account that holds nothing.
    pub fn with_base(base: B, zero: [u8; 64]) -> (r: Self)
        ensures
            r.wf(),
            r.objects() == Map::<Seq<u8>, Seq<u8>>::empty(),
            same_columns(base.holds(), r.store.holds()),
            r.store.base_holds() == r.store.holds(),
            objects_of(base.holds()) == Map::<Seq<u8>, Seq<u8>>::empty()
                ==> r.store.base_value() == base,
            objects_of(base.holds()) != Map::<Seq<u8>, Seq<u8>>::empty()
                ==> r.store.base_value().writes() == base.writes() + 1,
            fresh(r, zero),
    {
        let mut base = base;
        let ghost held = base.holds();
        wipe(&mut base, Column::Objects);
        let ghost left = base.holds();
        proof {
            assert(objects_of(left) =~= Map::empty());
            assert forall|c: Column| c != Column::Objects implies #[trigger] store::column(left, c)
                == store::column(held, c) by {
                assert(store::column(left, c) =~= store::column(held, c));
            }
        }
        let r = Ledger::with_store(OverlayStore::new(base), zero);
        proof {
            lemma_empty_state(zero);
        }
        r
    }

    // --- object records -----------------------------------------------------

    /// Read one account.
    pub(crate) fn account(&self, id: &[u8; 32]) -> (r: Option<Account>)
        requires
            self.wf(),
        ensures
            match r {
                Some(a) => {
                    &&& self.state().accounts.contains_key(id@)
                    &&& a@ == self.state().accounts[id@]
                    &&& a@.fits()
                },
                None => !self.state().accounts.contains_key(id@),
            },
    {
        let key = rec_key(REC_ACCOUNT, id.as_slice());
        match self.store.get(Column::Objects, key.as_slice()) {
            None => None,
            Some(body) => {
                proof {
                    broadcast use records::lemma_key_of;

                    assert(self.objects().contains_key(key@) && self.objects()[key@] == body@);
                    lemma_record(self.objects(), key@);
                    records::lemma_account_stable(body@, Seq::empty());
                }
                account_in(body.as_slice())
            },
        }
    }

    /// Write one account.
    pub(crate) fn put_account(&mut self, id: &[u8; 32], a: &Account)
        requires
            old(self).wf(),
            a@.fits(),
        ensures
            final(self).wf(),
            final(self).state() == old(self).state().with_account(id@, a@),
            final(self).next_token_id == old(self).next_token_id,
            old(self).same_frame(final(self)),
    {
        let key = rec_key(REC_ACCOUNT, id.as_slice());
        let body = encode_account(a);
        proof {
            broadcast use records::lemma_key_of;

            lemma_column_insert(self.store.holds(), key@, body@);
            records::lemma_account_bytes(a@, Seq::empty());
            lemma_put_account(self.objects(), self.next_token_id, self.zero, id@, a@);
            lemma_rest_stays(self.objects(), key@, body@);
            lemma_tidy_stays(self.objects(), key@, body@);
        }
        self.store.put(Column::Objects, key, body);
    }

    /// Read one token by id.
    pub(crate) fn token_by_id(&self, id: u32) -> (r: Option<TokenMeta>)
        requires
            self.wf(),
        ensures
            match r {
                Some(t) => {
                    &&& self.state().tokens.contains_key(id)
                    &&& t@ == self.state().tokens[id]
                    &&& t@.fits()
                    &&& t.id == id
                },
                None => !self.state().tokens.contains_key(id),
            },
    {
        let key = token_key(id);
        match self.store.get(Column::Objects, key.as_slice()) {
            None => None,
            Some(body) => {
                proof {
                    broadcast use records::lemma_key_of;

                    assert(self.objects().contains_key(key@) && self.objects()[key@] == body@);
                    lemma_record(self.objects(), key@);
                    records::lemma_token_stable(body@, Seq::empty());
                    let t = records::whole(records::read_token(body@))->0;
                    lemma_keys(REC_TOKEN, bytes::be4(t.id), REC_TOKEN, bytes::be4(id));
                    bytes::lemma_be4(t.id, id);
                }
                decode_token(body.as_slice())
            },
        }
    }

    /// Write one token, its ticker's index entry and the record of the next
    /// token id, in one batch: they must never disagree.
    pub(crate) fn put_token(&mut self, t: &TokenMeta)
        requires
            old(self).wf(),
            t@.fits(),
        ensures
            final(self).wf(),
            final(self).state() == old(self).state().with_token(t@, old(self).next_token_id),
            final(self).next_token_id == old(self).next_token_id,
            rest_in(final(self).objects()) == rest_in(old(self).objects()).insert(
                seq![REC_META],
                bytes::le4(old(self).next_token_id),
            ),
            old(self).tidy() ==> final(self).tidy(),
            final(self).dirty@ == old(self).dirty@,
            old(self).same_home(final(self)),
    {
        let ticker = utf8_of(t.ticker.as_str());
        let key = token_key(t.id);
        let body = encode_token(t);
        let index = rec_key(REC_TICKER, ticker.as_slice());
        let id = be_bytes(t.id);
        let meta: Vec<u8> = vec![REC_META];
        let mut next: Vec<u8> = Vec::new();
        crate::bytes::push_u32(&mut next, self.next_token_id);
        let ghost m0 = self.store.holds();
        let ghost m1 = m0.insert((Column::Objects, key@), body@);
        let ghost m2 = m1.insert((Column::Objects, index@), id@);
        let ghost m3 = m2.insert((Column::Objects, meta@), next@);
        let ghost w1: store::Write = (Column::Objects, key@, Some(body@));
        let ghost w2: store::Write = (Column::Objects, index@, Some(id@));
        let ghost w3: store::Write = (Column::Objects, meta@, Some(next@));
        proof {
            broadcast use records::lemma_key_of;

            assert(meta@ =~= seq![REC_META]);
            let none = Seq::<store::Write>::empty();
            store::lemma_written_push(m0, none, w1);
            store::lemma_written_push(m0, none.push(w1), w2);
            store::lemma_written_push(m0, none.push(w1).push(w2), w3);
            assert(store::written(m0, none) == m0);
            lemma_column_insert(m0, key@, body@);
            lemma_column_insert(m1, index@, id@);
            lemma_column_insert(m2, meta@, next@);
            lemma_put_token(self.objects(), self.next_token_id, self.zero, t@);
            lemma_put_meta(objects_of(m2), self.next_token_id, self.zero, next@);
            lemma_rest_stays(objects_of(m0), key@, body@);
            lemma_rest_stays(objects_of(m1), index@, id@);
            lemma_rest_meta(objects_of(m2), next@);
            records::lemma_token_bytes(t@, Seq::empty());
            assert(meta@[0] == REC_META);
            lemma_tidy_stays(objects_of(m0), key@, body@);
            lemma_tidy_stays(objects_of(m1), index@, id@);
            lemma_tidy_stays(objects_of(m2), meta@, next@);
        }
        let mut batch = WriteBatch::new();
        batch.put(Column::Objects, key, body);
        batch.put(Column::Objects, index, id);
        batch.put(Column::Objects, meta, next);
        self.store.write(batch);
        assert(self.store.holds() == m3);
    }

    /// Whether a (normalized) ticker is already registered.
    pub(crate) fn ticker_taken(&self, norm: &str) -> (r: bool)
        ensures
            r == self.state().tickers.contains_key(encode_utf8(norm@)),
    {
        let b = utf8_of(norm);
        let key = rec_key(REC_TICKER, b.as_slice());
        let r = self.store.contains(Column::Objects, key.as_slice());
        assert(r == self.objects().contains_key(key@));
        r
    }

    /// Read one contract.
    pub(crate) fn contract(&self, id: &[u8; 32]) -> (r: Option<Contract>)
        requires
            self.wf(),
        ensures
            match r {
                Some(c) => {
                    &&& self.state().contracts.contains_key(id@)
                    &&& c@ == self.state().contracts[id@]
                    &&& c@.fits()
                },
                None => !self.state().contracts.contains_key(id@),
            },
    {
        let key = rec_key(REC_CONTRACT, id.as_slice());
        match self.store.get(Column::Objects, key.as_slice()) {
            None => None,
            Some(body) => {
                proof {
                    broadcast use records::lemma_key_of;

                    assert(self.objects().contains_key(key@) && self.objects()[key@] == body@);
                    lemma_record(self.objects(), key@);
                    records::lemma_contract_stable(body@, Seq::empty());
                }
                decode_contract(body.as_slice())
            },
        }
    }

    /// Write one contract.
    pub(crate) fn put_contract(&mut self, id: &[u8; 32], c: &Contract)
        requires
            old(self).wf(),
            c@.fits(),
        ensures
            final(self).wf(),
            final(self).state() == old(self).state().with_contract(id@, c@),
            final(self).next_token_id == old(self).next_token_id,
            old(self).same_frame(final(self)),
    {
        let key = rec_key(REC_CONTRACT, id.as_slice());
        let body = encode_contract(c);
        proof {
            broadcast use records::lemma_key_of;

            lemma_column_insert(self.store.holds(), key@, body@);
            records::lemma_contract_bytes(c@, Seq::empty());
            lemma_put_contract(self.objects(), self.next_token_id, self.zero, id@, c@);
            lemma_rest_stays(self.objects(), key@, body@);
            lemma_tidy_stays(self.objects(), key@, body@);
        }
        self.store.put(Column::Objects, key, body);
    }

    /// Record an anonymous spend's nullifier as spent.
    pub(crate) fn insert_nullifier(&mut self, nf: &[u8; 32])
        requires
            old(self).wf(),
        ensures
            final(self).wf(),
            final(self).state() == old(self).state().with_nullifier(nf@),
            final(self).next_token_id == old(self).next_token_id,
            old(self).same_frame(final(self)),
    {
        let key = rec_key(REC_NULLIFIER, nf.as_slice());
        let body: Vec<u8> = vec![1u8];
        assert(body@ =~= seq![1u8]);
        proof {
            broadcast use records::lemma_key_of;

            lemma_column_insert(self.store.holds(), key@, body@);
            lemma_put_nullifier(self.objects(), self.next_token_id, self.zero, nf@, body@);
            lemma_rest_stays(self.objects(), key@, body@);
            lemma_tidy_stays(self.objects(), key@, body@);
        }
        self.store.put(Column::Objects, key, body);
    }

    /// Read one validator.
    pub(crate) fn validator(&self, id: &[u8; 32]) -> (r: Option<Validator>)
        requires
            self.wf(),
        ensures
            match r {
                Some(v) => {
                    &&& self.state().validators.contains_key(id@)
                    &&& v@ == self.state().validators[id@]
                    &&& v@.fits()
                },
                None => !self.state().validators.contains_key(id@),
            },
    {
        let key = rec_key(REC_VALIDATOR, id.as_slice());
        match self.store.get(Column::Objects, key.as_slice()) {
            None => None,
            Some(body) => {
                proof {
                    broadcast use records::lemma_key_of;

                    assert(self.objects().contains_key(key@) && self.objects()[key@] == body@);
                    lemma_record(self.objects(), key@);
                    records::lemma_validator_stable(body@, Seq::empty());
                }
                decode_validator(body.as_slice())
            },
        }
    }

    /// Write one validator. A drained one is deleted rather than stored empty,
    /// so the state is that of a chain where the account never staked. A tombstone
    /// is kept, whatever has been withdrawn.
    pub(crate) fn put_validator(&mut self, id: &[u8; 32], v: &Validator)
        requires
            old(self).wf(),
            v@.fits(),
        ensures
            final(self).wf(),
            final(self).state() == old(self).state().with_validator(id@, v@),
            final(self).next_token_id == old(self).next_token_id,
            old(self).same_frame(final(self)),
    {
        let key = rec_key(REC_VALIDATOR, id.as_slice());
        proof {
            broadcast use records::lemma_key_of;

            lemma_put_validator(self.objects(), self.next_token_id, self.zero, id@, v@);
            assert(entry_key(key@));
            records::lemma_validator_bytes(v@, Seq::empty());
        }
        if v.staked == 0 && v.unbonding.len() == 0 && !v.tombstoned {
            proof {
                lemma_column_remove(self.store.holds(), key@);
                lemma_rest_stays(self.objects(), key@, Seq::empty());
                lemma_tidy_stays(self.objects(), key@, Seq::empty());
            }
            self.store.delete(Column::Objects, key);
        } else {
            let body = encode_validator(v);
            proof {
                lemma_column_insert(self.store.holds(), key@, body@);
                lemma_rest_stays(self.objects(), key@, body@);
                lemma_tidy_stays(self.objects(), key@, body@);
            }
            self.store.put(Column::Objects, key, body);
        }
    }

    // --- queries --------------------------------------------------------------

    /// The validator's bonded stake (0 if it never staked).
    pub fn staked(&self, id: &[u8; 32]) -> (r: u64)
        requires
            self.wf(),
        ensures
            r == self.state().validator(id@).staked,
    {
        match self.validator(id) {
            Some(v) => v.staked,
            None => 0,
        }
    }

    /// The validator's unbonding entries as `(amount, release_height)`.
    pub fn unbonding(&self, id: &[u8; 32]) -> (r: Vec<(u64, u64)>)
        requires
            self.wf(),
        ensures
            r@ == self.state().validator(id@).unbonding,
    {
        match self.validator(id) {
            Some(v) => v.unbonding,
            None => {
                let r: Vec<(u64, u64)> = Vec::new();
                assert(r@ =~= Seq::empty());
                r
            },
        }
    }

    /// The effective cap on the validator set.
    pub fn max_validators(&self) -> (n: usize)
        ensures
            n == self.max_validators,
    {
        self.max_validators
    }

    /// Override the validator-set cap. It must be positive: an empty set can
    /// never finalize.
    pub fn set_max_validators(&mut self, n: usize)
        requires
            n > 0,
        ensures
            final(self).max_validators == n,
            final(self).next_token_id == old(self).next_token_id,
            final(self).store == old(self).store,
            final(self).root == old(self).root,
            final(self).dirty == old(self).dirty,
            final(self).zero == old(self).zero,
    {
        self.max_validators = n;
    }

    /// Whether an anonymous spend's nullifier has already been used.
    pub fn nullifier_seen(&self, nullifier: &[u8; 32]) -> (r: bool)
        ensures
            r == self.state().nullifiers.contains(nullifier@),
    {
        let key = rec_key(REC_NULLIFIER, nullifier.as_slice());
        let r = self.store.contains(Column::Objects, key.as_slice());
        assert(r == self.objects().contains_key(key@));
        r
    }

    pub fn is_registered(&self, id: &[u8; 32]) -> (r: bool)
        ensures
            r == self.state().registered(id@),
    {
        let key = rec_key(REC_ACCOUNT, id.as_slice());
        let r = self.store.contains(Column::Objects, key.as_slice());
        assert(r == self.objects().contains_key(key@));
        r
    }

    /// The spendable encrypted balance of `token` held by `id`, if registered.
    pub fn balance(&self, id: &[u8; 32], token: u32) -> (r: Option<[u8; 64]>)
        requires
            self.wf(),
        ensures
            r == if self.state().registered(id@) {
                Some(self.state().account(id@).balance(token, self.zero))
            } else {
                None::<[u8; 64]>
            },
    {
        match self.account(id) {
            Some(a) => Some(a.balance(token, &self.zero)),
            None => None,
        }
    }

    /// The pending (received, not yet rolled-over) encrypted balance of `token`.
    pub fn pending(&self, id: &[u8; 32], token: u32) -> (r: Option<[u8; 64]>)
        requires
            self.wf(),
        ensures
            r == if self.state().registered(id@) {
                Some(self.state().account(id@).pending_of(token, self.zero))
            } else {
                None::<[u8; 64]>
            },
    {
        match self.account(id) {
            Some(a) => Some(a.pending(token, &self.zero)),
            None => None,
        }
    }

    /// The account's spend nonce: the next outgoing transfer must use it.
    pub fn nonce(&self, id: &[u8; 32]) -> (r: Option<u64>)
        requires
            self.wf(),
        ensures
            r == if self.state().registered(id@) {
                Some(self.state().account(id@).nonce)
            } else {
                None::<u64>
            },
    {
        match self.account(id) {
            Some(a) => Some(a.nonce),
            None => None,
        }
    }

    /// The transparent balance of `token` held by `id`, if registered: 0 for an
    /// account that holds none.
    pub fn public_balance(&self, id: &[u8; 32], token: u32) -> (r: Option<u64>)
        requires
            self.wf(),
        ensures
            r == if self.state().registered(id@) {
                Some(self.state().account(id@).public_of(token))
            } else {
                None::<u64>
            },
    {
        match self.account(id) {
            Some(a) => Some(a.public(token)),
            None => None,
        }
    }

    /// Look up a token by ticker, in any spelling.
    pub fn token(&self, ticker: &str) -> (r: Option<TokenMeta>)
        requires
            self.wf(),
        ensures
            match r {
                Some(t) => {
                    &&& ticker::normal(ticker@) is Some
                    &&& self.state().tickers.contains_key(
                        encode_utf8(ticker::normal(ticker@)->0),
                    )
                    &&& self.state().tokens.contains_key(
                        self.state().tickers[encode_utf8(ticker::normal(ticker@)->0)],
                    )
                    &&& t@ == self.state().tokens[self.state().tickers[encode_utf8(
                        ticker::normal(ticker@)->0,
                    )]]
                },
                None => {
                    ||| ticker::normal(ticker@) is None
                    ||| !self.state().tickers.contains_key(
                        encode_utf8(ticker::normal(ticker@)->0),
                    )
                    ||| !self.state().tokens.contains_key(
                        self.state().tickers[encode_utf8(ticker::normal(ticker@)->0)],
                    )
                },
            },
    {
        let norm = normalize_ticker(ticker)?;
        let b = utf8_of(norm.as_str());
        let key = rec_key(REC_TICKER, b.as_slice());
        let index = match self.store.get(Column::Objects, key.as_slice()) {
            Some(index) => index,
            None => {
                assert(!self.objects().contains_key(key@));
                return None;
            },
        };
        proof {
            broadcast use {records::lemma_key_of, bytes::group_le};

            assert(self.objects().contains_key(key@) && self.objects()[key@] == index@);
            lemma_record(self.objects(), key@);
            let x = choose|x: u32| index@ == #[trigger] bytes::be4(x);
            lemma_of_be4(x);
            assert(index@.len() == 4);
            let back = seq![index@[3], index@[2], index@[1], index@[0]];
            assert(back =~= bytes::le4(x));
        }
        let le: [u8; 4] = [index[3], index[2], index[1], index[0]];
        let id = crate::bytes::u32_at(le.as_slice(), 0);
        proof {
            broadcast use bytes::group_le;

            let x = choose|x: u32| index@ == #[trigger] bytes::be4(x);
            assert(le@.subrange(0, 4) =~= bytes::le4(x));
        }
        self.token_by_id(id)
    }

    /// Read a slot of a contract's storage (0 if unset or there is no contract).
    pub fn contract_storage(&self, contract: &[u8; 32], key: u64) -> (r: u64)
        requires
            self.wf(),
        ensures
            r == if self.state().contracts.contains_key(contract@) {
                crate::vm::read(self.state().contracts[contract@].storage, key)
            } else {
                0
            },
    {
        match self.contract(contract) {
            Some(c) => match c.storage.get(&key) {
                Some(v) => *v,
                None => 0,
            },
            None => 0,
        }
    }

    /// Whether a contract is deployed at `id`.
    pub fn has_contract(&self, id: &[u8; 32]) -> (r: bool)
        ensures
            r == self.state().contracts.contains_key(id@),
    {
        let key = rec_key(REC_CONTRACT, id.as_slice());
        let r = self.store.contains(Column::Objects, key.as_slice());
        assert(r == self.objects().contains_key(key@));
        r
    }

    /// Every object record, in ascending key order: the full material state.
    pub fn object_records(&self) -> (r: Vec<(Vec<u8>, Vec<u8>)>)
        ensures
            byte_map::ascending(r@),
            byte_map::as_map(r@) == self.objects(),
    {
        let every: [u8; 0] = [];
        assert(every@ =~= Seq::empty());
        let r = self.store.scan_prefix(Column::Objects, every.as_slice());
        proof {
            lemma_no_prefix(self.objects());
        }
        r
    }

    /// How many tokens are registered, native LAT not counted.
    pub fn token_count(&self) -> (n: usize)
        ensures
            n == self.state().tickers.dom().len(),
    {
        let prefix: [u8; 1] = [REC_TICKER];
        assert(prefix@ =~= seq![REC_TICKER]);
        let all = self.store.scan_prefix(Column::Objects, prefix.as_slice());
        proof {
            byte_map::lemma_size(all@);
            lemma_indexed_tickers(self.objects(), self.next_token_id, self.zero);
        }
        all.len()
    }

    /// How many trie nodes the committed base holds. Nodes not yet flushed do not
    /// count.
    pub fn state_node_count(&self) -> (n: usize)
        ensures
            n == smt::nodes_of(self.store.base_holds()).dom().len(),
    {
        let every: [u8; 0] = [];
        assert(every@ =~= Seq::empty());
        let all = self.store.base().scan_prefix(Column::State, every.as_slice());
        proof {
            lemma_no_prefix(smt::nodes_of(self.store.base_holds()));
            byte_map::lemma_size(all@);
        }
        all.len()
    }

    /// Stage a chain-metadata write, so that it commits with the next flush.
    pub fn stage_meta(&mut self, key: Vec<u8>, value: Vec<u8>)
        ensures
            final(self).store.holds() == old(self).store.holds().insert(
                (Column::Meta, key@),
                value@,
            ),
            final(self).state() == old(self).state(),
            final(self).nodes() == old(self).nodes(),
            final(self).store.base_value() == old(self).store.base_value(),
            final(self).root == old(self).root,
            final(self).dirty@ == old(self).dirty@,
            final(self).max_validators == old(self).max_validators,
            old(self).wf() ==> final(self).wf(),
    {
        let ghost held = self.store.holds();
        self.store.put(Column::Meta, key, value);
        assert(objects_of(self.store.holds()) =~= objects_of(held));
        assert(smt::nodes_of(self.store.holds()) =~= smt::nodes_of(held));
    }

    /// Fold uncommitted writes into the store's base. The state is the same
    /// before and after; only where it lives changes.
    pub fn flush(&mut self)
        ensures
            flushed(*old(self), *final(self)),
            old(self).wf() ==> final(self).wf(),
    {
        self.store.flush();
    }
}

impl<B: KVStore + Clone> Clone for Ledger<B> {
    /// Copies the ledger. What the copy of the base holds is up to the base's own
    /// `clone`; where that keeps the base, the copy has the same state.
    fn clone(&self) -> (r: Self)
        ensures
            r.next_token_id == self.next_token_id,
            r.root == self.root,
            r.dirty@ == self.dirty@,
            r.max_validators == self.max_validators,
            r.zero == self.zero,
            cloned::<B>(self.store.base_value(), r.store.base_value()),
            r.store.holds() == self.store.holds_over(r.store.base_value()),
            r.store.is_flushed() == self.store.is_flushed(),
    {
        let mut dirty: Vec<DirtyKey> = Vec::new();
        let mut i: usize = 0;
        while i < self.dirty.len()
            invariant
                i <= self.dirty@.len(),
                dirty@ == self.dirty@.take(i as int),
            decreases self.dirty@.len() - i,
        {
            dirty.push(self.dirty[i]);
            i += 1;
            assert(dirty@ =~= self.dirty@.take(i as int));
        }
        assert(dirty@ =~= self.dirty@);
        Ledger {
            next_token_id: self.next_token_id,
            store: self.store.clone(),
            root: self.root,
            dirty,
            max_validators: self.max_validators,
            zero: self.zero,
        }
    }
}

/// A copy of a ledger over an in-memory base has its state.
pub proof fn law_copy_has_the_state(l: Ledger<MemStore>, c: Ledger<MemStore>)
    requires
        c.next_token_id == l.next_token_id,
        c.zero == l.zero,
        cloned::<MemStore>(l.store.base_value(), c.store.base_value()),
        c.store.holds() == l.store.holds_over(c.store.base_value()),
    ensures
        c.state() == l.state(),
        l.wf() ==> c.wf(),
{
    overlay::law_clone_of_base(l.store, c.store.base_value());
}

impl Ledger<MemStore> {
    /// An empty ledger in memory. `zero` is the ciphertext of an account that
    /// holds nothing.
    pub fn new(zero: [u8; 64]) -> (r: Self)
        ensures
            r.wf(),
            r.objects() == Map::<Seq<u8>, Seq<u8>>::empty(),
            r.store.holds() == Map::<(Column, Seq<u8>), Seq<u8>>::empty(),
            fresh(r, zero),
    {
        let r = Ledger::with_store(OverlayStore::in_memory(), zero);
        proof {
            assert(r.objects() =~= Map::empty());
            lemma_empty_state(zero);
        }
        r
    }
}

/// The state of an empty ledger.
pub open spec fn empty_state(zero: [u8; 64]) -> State {
    State {
        accounts: Map::empty(),
        tokens: Map::empty(),
        tickers: Map::empty(),
        contracts: Map::empty(),
        nullifiers: Set::empty(),
        validators: Map::empty(),
        next_token: 1,
        zero,
    }
}

/// What a flush does to a ledger: it holds what it held, and so does its base, which is
/// written in one batch, or not at all where nothing waits.
pub open spec fn flushed<B: KVStore>(was: Ledger<B>, now: Ledger<B>) -> bool {
    &&& now.store.holds() == was.store.holds()
    &&& now.store.base_holds() == was.store.holds()
    &&& now.store.is_flushed()
    &&& was.store.is_flushed() ==> now.store == was.store
    &&& !was.store.is_flushed() ==> now.store.base_value().writes()
        == was.store.base_value().writes() + 1
    &&& now.state() == was.state()
    &&& now.root == was.root
    &&& now.dirty@ == was.dirty@
    &&& now.next_token_id == was.next_token_id
    &&& now.max_validators == was.max_validators
    &&& now.zero == was.zero
}

/// Whether a ledger is a new one.
pub open spec fn fresh<B: KVStore>(r: Ledger<B>, zero: [u8; 64]) -> bool {
    &&& r.state() == empty_state(zero)
    &&& r.root@ == smt_model::root_of(Map::empty())
    &&& r.dirty@ == seq![DirtyKey::Meta]
    &&& r.max_validators == DEFAULT_MAX_VALIDATORS
}

proof fn lemma_empty_state(zero: [u8; 64])
    ensures
        state_of(Map::empty(), 1, zero) == empty_state(zero),
{
    let s = state_of(Map::empty(), 1, zero);
    let e = empty_state(zero);
    assert(s.accounts =~= e.accounts);
    assert(s.tokens =~= e.tokens);
    assert(s.tickers =~= e.tickers);
    assert(s.contracts =~= e.contracts);
    assert(s.nullifiers =~= e.nullifiers);
    assert(s.validators =~= e.validators);
}

/// Every key starts with nothing.
pub proof fn lemma_no_prefix(m: Map<Seq<u8>, Seq<u8>>)
    ensures
        byte_map::prefixed(m, Seq::empty()) == m,
{
    assert forall|k: Seq<u8>| bytes::has_prefix(k, Seq::empty()) by {
        assert(k.subrange(0, 0) =~= Seq::empty());
    }
    assert(byte_map::prefixed(m, Seq::empty()) =~= m);
}

/// What a store holds once a column is emptied.
pub open spec fn emptied(m: store::Contents, col: Column) -> store::Contents {
    Map::new(
        |x: (Column, Seq<u8>)| m.contains_key(x) && x.0 != col,
        |x: (Column, Seq<u8>)| m[x],
    )
}

/// Delete everything in one column, in one batch. An empty column is left alone.
pub(crate) fn wipe<S: KVStore>(s: &mut S, col: Column)
    ensures
        final(s).holds() == emptied(old(s).holds(), col),
        store::column(old(s).holds(), col) == Map::<Seq<u8>, Seq<u8>>::empty() ==> *final(s)
            == *old(s),
        store::column(old(s).holds(), col) != Map::<Seq<u8>, Seq<u8>>::empty()
            ==> final(s).writes() == old(s).writes() + 1,
{
    let ghost held = s.holds();
    let mut batch = WriteBatch::new();
    queue_wipe(&*s, col, &mut batch, Ghost(held));
    proof {
        assert(store::written(held, batch@) =~= emptied(held, col)) by {
            assert(store::written(held, Seq::empty()) == held);
        }
    }
    if !batch.is_empty() {
        s.write(batch);
    } else {
        assert(batch@ =~= Seq::empty());
    }
}

/// Queue a delete for everything `s` holds in one column.
pub(crate) fn queue_wipe<S: KVStore>(
    s: &S,
    col: Column,
    batch: &mut WriteBatch,
    base: Ghost<store::Contents>,
)
    ensures
        forall|x: (Column, Seq<u8>)| #![trigger store::written(base@,
            final(batch)@).dom().contains(x)] {
            let o = store::written(base@, old(batch)@);
            let w = store::written(base@, final(batch)@);
            let gone = x.0 == col && s.holds().contains_key(x);
            &&& w.dom().contains(x) == (o.dom().contains(x) && !gone)
            &&& w.dom().contains(x) ==> w[x] == o[x]
        },
        final(batch)@.len() >= old(batch)@.len(),
        (final(batch)@.len() == old(batch)@.len()) == (store::column(s.holds(), col) == Map::<
            Seq<u8>,
            Seq<u8>,
        >::empty()),
{
    let every: [u8; 0] = [];
    assert(every@ =~= Seq::empty());
    let mut pairs = s.scan_prefix(col, every.as_slice());
    let ghost all = pairs@;
    let ghost before = batch@;
    proof {
        lemma_no_prefix(store::column(s.holds(), col));
        if all.len() == 0 {
            assert(store::column(s.holds(), col) =~= Map::empty());
        } else {
            byte_map::lemma_entry(all, 0);
            assert(store::column(s.holds(), col).contains_key(all[0].0@));
        }
    }
    assert(all.skip(all.len() as int) =~= Seq::empty());
    while pairs.len() > 0
        invariant
            pairs@.len() <= all.len(),
            pairs@ == all.take(pairs@.len() as int),
            batch@.len() == before.len() + all.len() - pairs@.len(),
            forall|x: (Column, Seq<u8>)| #![trigger store::written(base@,
                batch@).dom().contains(x)] {
                let w = store::written(base@, batch@);
                let o = store::written(base@, before);
                let done = x.0 == col && byte_map::has_key(all.skip(pairs@.len() as int), x.1);
                &&& w.dom().contains(x) == (!done && o.dom().contains(x))
                &&& w.dom().contains(x) ==> w[x] == o[x]
            },
        decreases pairs@.len(),
    {
        let ghost was = batch@;
        let ghost n = pairs@.len() as int;
        if let Some((key, _value)) = pairs.pop() {
            proof {
                assert(all[n - 1].0 == key);
                store::lemma_written_push(base@, was, (col, key@, None));
                byte_map::lemma_skip_one(all, n);
                assert(pairs@ =~= all.take(n - 1));
            }
            batch.delete(col, key);
        }
    }
    proof {
        assert(all.skip(0) =~= all);
        assert forall|x: (Column,
            Seq<u8>)| #![trigger store::written(base@, batch@).dom().contains(x)] {
            let o = store::written(base@, before);
            let w = store::written(base@, batch@);
            let gone = x.0 == col && s.holds().contains_key(x);
            &&& w.dom().contains(x) == (o.dom().contains(x) && !gone)
            &&& w.dom().contains(x) ==> w[x] == o[x]
        } by {
            assert(byte_map::has_key(all, x.1) == byte_map::as_map(all).contains_key(x.1));
            assert(x == (x.0, x.1));
        }
    }
}

} // verus!
