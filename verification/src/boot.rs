//! Booting a ledger from the records a previous run committed, and moving one
//! onto another store.

use vstd::prelude::*;
use vstd::utf8::*;

use crate::byte_map;
use crate::bytes;
use crate::bytes::{array_at, be_bytes, copy_bytes, same_bytes, u32_at};
use crate::commitment;
use crate::commitment::leaf;
use crate::ledger;
use crate::ledger::{DirtyKey, Ledger};
use crate::overlay::OverlayStore;
use crate::points;
use crate::reader;
use crate::records;
use crate::records::{
    account_in, decode_contract, decode_token, decode_validator, rec_key, token_key,
    REC_ACCOUNT, REC_CONTRACT, REC_META, REC_NULLIFIER, REC_TICKER, REC_TOKEN, REC_VALIDATOR,
};
use crate::rules::State;
use crate::rules_laws;
use crate::smt;
use crate::smt_model;
use crate::snapshot;
use crate::snapshot::Built;
use crate::store;
use crate::store::{Column, KVStore, WriteBatch};
use crate::text::utf8_of;

verus! {

/// Whether a record belongs to the ticker index.
pub open spec fn is_index(k: Seq<u8>) -> bool {
    k.len() > 0 && k[0] == REC_TICKER
}

/// Whether a ledger can be booted from the records: there are some, all but the
/// ticker index are well-formed, and the next token id is four bytes.
pub open spec fn bootable(o: Map<Seq<u8>, Seq<u8>>) -> bool {
    &&& o.dom().len() > 0
    &&& forall|k: Seq<u8>| #[trigger]
        o.contains_key(k) ==> !is_index(k) ==> ledger::record_ok(k, o[k])
    &&& o.contains_key(seq![REC_META]) ==> o[seq![REC_META]].len() == 4
}

/// The next token id the records say: the first one where they say none.
pub open spec fn next_token_in(o: Map<Seq<u8>, Seq<u8>>) -> u32 {
    if o.contains_key(seq![REC_META]) {
        bytes::of_le4(o[seq![REC_META]])
    } else {
        1
    }
}

/// The ticker index that token records give.
pub open spec fn index_in(e: Seq<(Seq<u8>, Seq<u8>)>) -> Map<Seq<u8>, u32>
    decreases e.len(),
{
    if e.len() == 0 {
        Map::empty()
    } else {
        let t = records::whole(records::read_token(e.last().1))->0;
        index_in(e.drop_last()).insert(t.ticker, t.id)
    }
}

/// The state that is booted: what the records say, with a ticker index made from
/// the tokens.
pub open spec fn booted(o: Map<Seq<u8>, Seq<u8>>, zero: [u8; 64]) -> State {
    State {
        tickers: index_in(snapshot::listing(snapshot::kind(o, REC_TOKEN))),
        ..ledger::state_of(o, next_token_in(o), zero)
    }
}

/// The entry a record stands for, if the commitment covers it.
pub open spec fn entry_of(k: Seq<u8>) -> Option<DirtyKey> {
    if k.len() == 0 {
        None
    } else {
        let id = reader::tail(k, 1);
        if k[0] == REC_ACCOUNT {
            Some(DirtyKey::Account(bytes::array_of::<32>(id)))
        } else if k[0] == REC_TOKEN {
            Some(DirtyKey::Token(ledger::of_be4(id)))
        } else if k[0] == REC_CONTRACT {
            Some(DirtyKey::Contract(bytes::array_of::<32>(id)))
        } else if k[0] == REC_NULLIFIER {
            Some(DirtyKey::Nullifier(bytes::array_of::<32>(id)))
        } else if k[0] == REC_VALIDATOR {
            Some(DirtyKey::Validator(bytes::array_of::<32>(id)))
        } else {
            None
        }
    }
}

/// The key of an entry's record.
pub open spec fn record_of(k: DirtyKey) -> Seq<u8> {
    match k {
        DirtyKey::Account(id) => records::key_of(REC_ACCOUNT, id@),
        DirtyKey::Token(id) => records::key_of(REC_TOKEN, bytes::be4(id)),
        DirtyKey::Contract(id) => records::key_of(REC_CONTRACT, id@),
        DirtyKey::Nullifier(id) => records::key_of(REC_NULLIFIER, id@),
        DirtyKey::Validator(id) => records::key_of(REC_VALIDATOR, id@),
        DirtyKey::Meta => seq![REC_META],
    }
}

/// Whether each entry but the next token id has a record among `all`.
spec fn all_recorded(keys: Seq<DirtyKey>, all: Seq<(Vec<u8>, Vec<u8>)>) -> bool {
    forall|j: int|
        0 <= j < keys.len() ==> (#[trigger] keys[j]) is Meta || byte_map::has_key(
            all,
            record_of(keys[j]),
        )
}

/// The entries of a run of records, and the next token id.
pub open spec fn entries_in(e: Seq<(Seq<u8>, Seq<u8>)>) -> Seq<DirtyKey>
    decreases e.len(),
{
    if e.len() == 0 {
        seq![DirtyKey::Meta]
    } else {
        match entry_of(e.last().0) {
            Some(k) => entries_in(e.drop_last()).push(k),
            None => entries_in(e.drop_last()),
        }
    }
}

proof fn lemma_entries(e: Seq<(Seq<u8>, Seq<u8>)>, i: int)
    requires
        0 <= i < e.len(),
    ensures
        entry_of(e[i].0) matches Some(k) ==> entries_in(e).contains(k),
        entries_in(e).contains(DirtyKey::Meta),
    decreases e.len(),
{
    let h = e.drop_last();
    let all = entries_in(e);
    let some = entries_in(h);
    lemma_meta_entry(e);
    if let Some(k) = entry_of(e[i].0) {
        if i < h.len() {
            lemma_entries(h, i);
            let j = choose|j: int| 0 <= j < some.len() && some[j] == k;
            assert(all[j] == k);
        } else {
            assert(all[some.len() as int] == k);
        }
    }
}

proof fn lemma_meta_entry(e: Seq<(Seq<u8>, Seq<u8>)>)
    ensures
        entries_in(e).len() > 0,
        entries_in(e)[0] == DirtyKey::Meta,
    decreases e.len(),
{
    if e.len() > 0 {
        lemma_meta_entry(e.drop_last());
    }
}

/// Every entry of the state is among the records' entries.
proof fn lemma_booted_flags(o: Map<Seq<u8>, Seq<u8>>, next: u32, zero: [u8; 64],
    tickers: Map<Seq<u8>, u32>)
    requires
        snapshot::lists(snapshot::listing(o), o),
    ensures
        snapshot::all_flagged(
            (Built {
                st: State { tickers, ..ledger::state_of(o, next, zero) },
                flags: entries_in(snapshot::listing(o)),
            }),
        ),
{
    broadcast use {bytes::lemma_array_of, records::lemma_key_of};

    let e = snapshot::listing(o);
    let flags = entries_in(e);
    let st = State { tickers, ..ledger::state_of(o, next, zero) };
    assert forall|k: DirtyKey| #[trigger] leaf(st, k) is Some implies flags.contains(k) by {
        let key = record_of(k);
        match k {
            DirtyKey::Meta => {
                lemma_meta_entry(e);
                assert(flags[0] == DirtyKey::Meta);
            },
            _ => {
                assert(o.contains_key(key));
                let i = choose|i: int| 0 <= i < e.len() && (#[trigger] e[i]).0 == key;
                lemma_entries(e, i);
                match k {
                    DirtyKey::Account(id) => {
                        assert(bytes::array_of::<32>(id@) == id);
                    },
                    DirtyKey::Contract(id) => {
                        assert(bytes::array_of::<32>(id@) == id);
                    },
                    DirtyKey::Nullifier(id) => {
                        assert(bytes::array_of::<32>(id@) == id);
                    },
                    DirtyKey::Validator(id) => {
                        assert(bytes::array_of::<32>(id@) == id);
                    },
                    DirtyKey::Token(id) => {
                        ledger::lemma_of_be4(id);
                    },
                    DirtyKey::Meta => {},
                }
                assert(entry_of(key) == Some(k));
            },
        }
    }
}

/// Records without the ticker index.
pub open spec fn unindexed(o: Map<Seq<u8>, Seq<u8>>) -> Map<Seq<u8>, Seq<u8>> {
    Map::new(|k: Seq<u8>| o.contains_key(k) && !is_index(k), |k: Seq<u8>| o[k])
}

proof fn lemma_unindexed(o: Map<Seq<u8>, Seq<u8>>, n: u32, z: [u8; 64])
    requires
        bootable(o),
    ensures
        ledger::records_ok(unindexed(o)),
        ledger::state_of(unindexed(o), n, z) == (State {
            tickers: Map::empty(),
            ..ledger::state_of(o, n, z)
        }),
{
    broadcast use records::lemma_key_of;

    let p = unindexed(o);
    let s = ledger::state_of(o, n, z);
    let t = ledger::state_of(p, n, z);
    assert(t.accounts =~= s.accounts);
    assert(t.tokens =~= s.tokens);
    assert(t.tickers =~= Map::empty());
    assert(t.contracts =~= s.contracts);
    assert(t.nullifiers =~= s.nullifiers);
    assert(t.validators =~= s.validators);
}

proof fn lemma_put_index(
    o: Map<Seq<u8>, Seq<u8>>,
    n: u32,
    z: [u8; 64],
    ticker: Seq<u8>,
    id: u32,
)
    requires
        ledger::records_ok(o),
    ensures
        ({
            let p = o.insert(records::key_of(REC_TICKER, ticker), bytes::be4(id));
            &&& ledger::records_ok(p)
            &&& ledger::state_of(p, n, z) == (State {
                tickers: ledger::state_of(o, n, z).tickers.insert(ticker, id),
                ..ledger::state_of(o, n, z)
            })
        }),
{
    broadcast use records::lemma_key_of;

    let k = records::key_of(REC_TICKER, ticker);
    let p = o.insert(k, bytes::be4(id));
    let s = ledger::state_of(o, n, z);
    let t = ledger::state_of(p, n, z);
    ledger::lemma_of_be4(id);
    assert forall|x: Seq<u8>| #[trigger] records::key_of(REC_TICKER, x) == k implies x
        == ticker by {
        ledger::lemma_keys(REC_TICKER, x, REC_TICKER, ticker);
    }
    assert(t.accounts =~= s.accounts);
    assert(t.tokens =~= s.tokens);
    assert(t.tickers =~= s.tickers.insert(ticker, id));
    assert(t.contracts =~= s.contracts);
    assert(t.nullifiers =~= s.nullifiers);
    assert(t.validators =~= s.validators);
    assert forall|x: Seq<u8>| #[trigger] p.contains_key(x) implies ledger::record_ok(
        x,
        p[x],
    ) by {
        if x != k {
            assert(o.contains_key(x));
        }
    }
}

/// Check one record, unless it belongs to the ticker index, and list the entry
/// it stands for.
fn check_record(key: &Vec<u8>, body: &Vec<u8>, out: &mut Vec<DirtyKey>) -> (ok: bool)
    ensures
        ok == (is_index(key@) || ledger::record_ok(key@, body@)),
        ok ==> final(out)@ == match entry_of(key@) {
            Some(k) => old(out)@.push(k),
            None => old(out)@,
        },
        ok ==> match entry_of(key@) {
            Some(k) => record_of(k) == key@,
            None => true,
        },
{
    broadcast use {bytes::lemma_array_of, records::lemma_key_of};

    if key.len() == 0 {
        return true;
    }
    let tag = key[0];
    if tag == REC_TOKEN {
        match decode_token(body.as_slice()) {
            None => false,
            Some(t) => {
                // The record must stand under the token's own id.
                let want = token_key(t.id);
                if !same_bytes(want.as_slice(), key.as_slice()) {
                    return false;
                }
                proof {
                    ledger::lemma_of_be4(t.id);
                }
                out.push(DirtyKey::Token(t.id));
                true
            },
        }
    } else if tag == REC_ACCOUNT || tag == REC_CONTRACT || tag == REC_NULLIFIER || tag
        == REC_VALIDATOR {
        if key.len() != 33 {
            return false;
        }
        let id = array_at::<32>(key.as_slice(), 1);
        assert(id@ =~= reader::tail(key@, 1));
        assert(bytes::array_of::<32>(id@) == id);
        if tag == REC_ACCOUNT {
            out.push(DirtyKey::Account(id));
            account_in(body.as_slice()).is_some()
        } else if tag == REC_CONTRACT {
            out.push(DirtyKey::Contract(id));
            decode_contract(body.as_slice()).is_some()
        } else if tag == REC_NULLIFIER {
            out.push(DirtyKey::Nullifier(id));
            true
        } else {
            out.push(DirtyKey::Validator(id));
            decode_validator(body.as_slice()).is_some()
        }
    } else {
        true
    }
}

/// Check every record, and list the entries they stand for.
fn check_records(all: &Vec<(Vec<u8>, Vec<u8>)>) -> (r: Option<Vec<DirtyKey>>)
    ensures
        match r {
            Some(keys) => {
                &&& forall|i: int|
                    0 <= i < all@.len() ==> is_index((#[trigger] all@[i]).0@) || ledger::record_ok(
                        all@[i].0@,
                        all@[i].1@,
                    )
                &&& keys@ == entries_in(snapshot::plain(all@))
                &&& all_recorded(keys@, all@)
            },
            None => exists|i: int|
                0 <= i < all@.len() && !is_index((#[trigger] all@[i]).0@) && !ledger::record_ok(
                    all@[i].0@,
                    all@[i].1@,
                ),
        },
{
    let ghost e = snapshot::plain(all@);
    let mut keys: Vec<DirtyKey> = vec![DirtyKey::Meta];
    assert(e.take(0) =~= Seq::empty());
    assert(keys@ =~= entries_in(e.take(0)));
    let mut i: usize = 0;
    while i < all.len()
        invariant
            i <= all@.len(),
            e == snapshot::plain(all@),
            keys@ == entries_in(e.take(i as int)),
            all_recorded(keys@, all@),
            forall|j: int|
                0 <= j < i ==> is_index((#[trigger] all@[j]).0@) || ledger::record_ok(
                    all@[j].0@,
                    all@[j].1@,
                ),
        decreases all@.len() - i,
    {
        let ghost had = keys@;
        if !check_record(&all[i].0, &all[i].1, &mut keys) {
            assert(!is_index(all@[i as int].0@) && !ledger::record_ok(
                all@[i as int].0@,
                all@[i as int].1@,
            ));
            return None;
        }
        proof {
            assert(e[i as int] == (all@[i as int].0@, all@[i as int].1@));
            assert(e.take(i + 1).drop_last() =~= e.take(i as int));
            assert(e.take(i + 1).last() == e[i as int]);
            assert forall|j: int| 0 <= j < keys@.len() implies (#[trigger] keys@[j]) is Meta
                || byte_map::has_key(all@, record_of(keys@[j])) by {
                if j < had.len() {
                    assert(keys@[j] == had[j]);
                } else {
                    assert(all@[i as int].0@ == record_of(keys@[j]));
                }
            }
        }
        i += 1;
    }
    assert(e.take(i as int) =~= e);
    Some(keys)
}

impl<B: KVStore> Ledger<B> {
    /// Drop the ticker index.
    fn drop_index(&mut self)
        ensures
            final(self).objects() == unindexed(old(self).objects()),
            ledger::same_columns(old(self).store.holds(), final(self).store.holds()),
            final(self).next_token_id == old(self).next_token_id,
            final(self).zero == old(self).zero,
            final(self).root == old(self).root,
            final(self).max_validators == old(self).max_validators,
            final(self).store.base_value() == old(self).store.base_value(),
    {
        let ghost o = self.objects();
        let mut stale = self.scan_kind(REC_TICKER);
        let ghost all = stale@;
        assert(all.skip(all.len() as int) =~= Seq::empty());
        while stale.len() > 0
            invariant
                stale@.len() <= all.len(),
                stale@ == all.take(stale@.len() as int),
                forall|k: Seq<u8>| {
                    let done = byte_map::has_key(all.skip(stale@.len() as int), k);
                    &&& (#[trigger] self.objects().dom().contains(k)) == (o.dom().contains(k)
                        && !done)
                    &&& self.objects().dom().contains(k) ==> self.objects()[k] == o[k]
                },
                ledger::same_columns(old(self).store.holds(), self.store.holds()),
                self.next_token_id == old(self).next_token_id,
                self.zero == old(self).zero,
                self.root == old(self).root,
                self.max_validators == old(self).max_validators,
                self.store.base_value() == old(self).store.base_value(),
            decreases stale@.len(),
        {
            let ghost n = stale@.len() as int;
            if let Some((key, _value)) = stale.pop() {
                proof {
                    assert(all[n - 1].0 == key);
                    byte_map::lemma_skip_one(all, n);
                    assert(stale@ =~= all.take(n - 1));
                    ledger::lemma_column_remove(self.store.holds(), key@);
                }
                let ghost was = self.store.holds();
                let ghost had = self.objects();
                self.store.delete(Column::Objects, key);
                proof {
                    assert(self.objects() == had.remove(key@));
                    assert forall|k: Seq<u8>| {
                        let done = byte_map::has_key(all.skip(stale@.len() as int), k);
                        &&& (#[trigger] self.objects().dom().contains(k)) == (o.dom().contains(k)
                            && !done)
                        &&& self.objects().dom().contains(k) ==> self.objects()[k] == o[k]
                    } by {
                        assert(had.dom().contains(k) == (o.dom().contains(k) && !byte_map::has_key(
                            all.skip(n),
                            k,
                        )));
                    }
                    assert forall|c: Column| c != Column::Objects implies #[trigger] store::column(
                        self.store.holds(),
                        c,
                    ) == store::column(old(self).store.holds(), c) by {
                        assert(store::column(self.store.holds(), c) == store::column(was, c));
                    }
                }
            }
        }
        proof {
            assert(all.skip(0) =~= all);
            let goal = unindexed(o);
            assert forall|k: Seq<u8>| {
                &&& (#[trigger] self.objects().dom().contains(k)) == goal.dom().contains(k)
                &&& self.objects().dom().contains(k) ==> self.objects()[k] == goal[k]
            } by {
                assert(byte_map::has_key(all, k) == byte_map::as_map(all).contains_key(k));
                snapshot::lemma_kind(o, REC_TICKER, k);
            }
            assert(self.objects() =~= goal);
        }
    }

    /// Make the ticker index anew from the token records.
    fn rebuild_index(&mut self)
        requires
            old(self).wf(),
            old(self).state().tickers == Map::<Seq<u8>, u32>::empty(),
        ensures
            final(self).wf(),
            final(self).state() == (State {
                tickers: index_in(
                    snapshot::listing(snapshot::kind(old(self).objects(), REC_TOKEN)),
                ),
                ..old(self).state()
            }),
            ledger::rest_in(final(self).objects()) == ledger::rest_in(old(self).objects()),
            old(self).tidy() ==> final(self).tidy(),
            ledger::same_columns(old(self).store.holds(), final(self).store.holds()),
            final(self).next_token_id == old(self).next_token_id,
            final(self).zero == old(self).zero,
            final(self).root == old(self).root,
            final(self).max_validators == old(self).max_validators,
            final(self).store.base_value() == old(self).store.base_value(),
    {
        let ghost o = self.objects();
        let ghost st = self.state();
        let all = self.scan_kind(REC_TOKEN);
        let ghost e = snapshot::plain(all@);
        let mut i: usize = 0;
        assert(e.take(0) =~= Seq::empty());
        assert(self.state() =~= State { tickers: index_in(e.take(0)), ..st });
        while i < all.len()
            invariant
                i <= all@.len(),
                e == snapshot::plain(all@),
                snapshot::lists(e, snapshot::kind(o, REC_TOKEN)),
                ledger::records_ok(o),
                self.wf(),
                self.state() == (State { tickers: index_in(e.take(i as int)), ..st }),
                ledger::rest_in(self.objects()) == ledger::rest_in(o),
                old(self).tidy() ==> self.tidy(),
                ledger::same_columns(old(self).store.holds(), self.store.holds()),
                self.next_token_id == old(self).next_token_id,
                self.zero == old(self).zero,
                self.root == old(self).root,
                self.max_validators == old(self).max_validators,
                self.store.base_value() == old(self).store.base_value(),
            decreases all@.len() - i,
        {
            proof {
                let k = all@[i as int].0@;
                assert(e[i as int] == (k, all@[i as int].1@));
                snapshot::lemma_kind(o, REC_TOKEN, k);
                ledger::lemma_record(o, k);
                assert(e.take(i + 1).drop_last() =~= e.take(i as int));
                assert(e.take(i + 1).last() == e[i as int]);
            }
            match decode_token(all[i].1.as_slice()) {
                None => {
                    assert(false);
                },
                Some(t) => {
                    let ticker = utf8_of(t.ticker.as_str());
                    let key = rec_key(REC_TICKER, ticker.as_slice());
                    let id = be_bytes(t.id);
                    let ghost was = self.store.holds();
                    proof {
                        broadcast use records::lemma_key_of;

                        ledger::lemma_column_insert(was, key@, id@);
                        ledger::lemma_rest_stays(self.objects(), key@, id@);
                        ledger::lemma_tidy_stays(self.objects(), key@, id@);
                        lemma_put_index(
                            self.objects(),
                            self.next_token_id,
                            self.zero,
                            ticker@,
                            t.id,
                        );
                    }
                    self.store.put(Column::Objects, key, id);
                    proof {
                        assert forall|c: Column|
                            c != Column::Objects implies #[trigger] store::column(
                            self.store.holds(),
                            c,
                        ) == store::column(old(self).store.holds(), c) by {
                            assert(store::column(self.store.holds(), c) == store::column(was, c));
                        }
                    }
                },
            }
            i += 1;
        }
        assert(e.take(i as int) =~= e);
    }

    /// Boot a ledger from the object records that a previous run committed into
    /// `base`. Every record is decoded, and the commitment is rebuilt from
    /// scratch: the state root is derived from the records, never read. The
    /// caller must compare it with a trusted one before adopting the ledger.
    ///
    /// The ticker index is rebuilt from the tokens: the commitment does not cover
    /// it. `answers` says of each ciphertext that
    /// [`in_records`](crate::points::in_records) lists whether the cryptography
    /// layer takes it for one. `None` if there are no records, one is malformed, or
    /// a ciphertext was refused or has no answer.
    pub fn from_records(base: B, zero: [u8; 64], answers: &[bool]) -> (r: Option<Ledger<B>>)
        ensures
            match r {
                Some(l) => {
                    let o = ledger::objects_of(base.holds());
                    &&& bootable(o)
                    &&& points::taken(points::record_cts(o), answers@)
                    &&& points::all_listed(l.state(), points::record_cts(o))
                    &&& l.wf()
                    &&& l.state() == booted(o, zero)
                    &&& ledger::rest_in(l.objects()) == ledger::rest_in(o)
                    &&& l.next_known()
                    &&& ledger::records_tidy(o) ==> l.tidy()
                    &&& l.max_validators == crate::rules::DEFAULT_MAX_VALIDATORS
                    &&& l.store.base_value() == base
                    &&& smt_model::collision_free(
                        commitment::hashed(
                            Map::empty(),
                            Map::empty(),
                            l.state(),
                            entries_in(snapshot::listing(o)),
                        ),
                    ) ==> {
                        &&& l.root@ == smt_model::root_of(commitment::committed(l.state()))
                        &&& commitment::tree(l.nodes(), l.root@) == commitment::committed(
                            l.state(),
                        )
                        &&& l.dirty@.len() == 0
                        &&& smt_model::addressed(smt::nodes_of(base.holds())) ==> l.synced()
                    }
                },
                None => {
                    let o = ledger::objects_of(base.holds());
                    !bootable(o) || !points::taken(points::record_cts(o), answers@)
                },
            },
    {
        let ghost held = base.holds();
        let ghost o = ledger::objects_of(held);
        let ghost nodes = smt::nodes_of(held);
        let asked = points::in_records(&base);
        if !points::all_taken(&asked, answers) {
            return None;
        }
        let mut l = Ledger::with_store(OverlayStore::new(base), zero);
        assert(l.objects() == o);
        let all = l.object_records();
        proof {
            snapshot::lemma_listing(all@);
            byte_map::lemma_size(all@);
        }
        if all.len() == 0 {
            return None;
        }
        let meta: [u8; 1] = [REC_META];
        assert(meta@ =~= seq![REC_META]);
        let next = match l.store.get(Column::Objects, meta.as_slice()) {
            None => {
                assert(!o.contains_key(seq![REC_META]));
                1
            },
            Some(m) => {
                assert(o.contains_key(seq![REC_META]) && o[seq![REC_META]] == m@);
                if m.len() != 4 {
                    return None;
                }
                assert(m@.subrange(0, 4) =~= m@);
                u32_at(m.as_slice(), 0)
            },
        };
        let keys = match check_records(&all) {
            Some(keys) => keys,
            None => {
                proof {
                    let i = choose|i: int|
                        0 <= i < all@.len() && !is_index((#[trigger] all@[i]).0@)
                            && !ledger::record_ok(all@[i].0@, all@[i].1@);
                    byte_map::lemma_entry(all@, i);
                    assert(o.contains_key(all@[i].0@));
                }
                return None;
            },
        };
        proof {
            assert forall|k: Seq<u8>| #[trigger] o.contains_key(k) implies (!is_index(k)
                ==> ledger::record_ok(k, o[k])) by {
                let i = byte_map::index_of(all@, k);
                assert(all@[i].0@ == k);
                byte_map::lemma_entry(all@, i);
            }
            lemma_unindexed(o, next, zero);
            points::lemma_records_listed(o, zero);
        }
        l.next_token_id = next;
        l.drop_index();
        proof {
            lemma_kind_unindexed(o);
            assert(ledger::rest_in(l.objects()) =~= ledger::rest_in(o));
            assert forall|k: Seq<u8>|
                ledger::records_tidy(o) && #[trigger] l.objects().contains_key(
                    k,
                ) implies ledger::record_tidy(k, l.objects()[k]) by {
                assert(o.contains_key(k));
            }
            lemma_next_known(o, next);
            lemma_booted_flags(o, next, zero, booted(o, zero).tickers);
        }
        l.rebuild_index();
        l.dirty = keys;
        proof {
            assert(l.state() =~= booted(o, zero));
            assert(l.nodes() == nodes);
            snapshot::lemma_flagged_right(l);
            assert forall|k: DirtyKey| l.dirty@.contains(k) implies #[trigger] leaf(
                l.state(),
                k,
            ) is Some by {
                let j = choose|j: int| 0 <= j < keys@.len() && keys@[j] == k;
                if !(keys@[j] is Meta) {
                    assert(byte_map::has_key(all@, record_of(k)));
                    assert(o.contains_key(record_of(k)));
                }
            }
        }
        l.state_root();
        Some(l)
    }

    /// Move this ledger's state onto `base` in one write: `base`'s object records
    /// and trie nodes give way to this ledger's, and the `staged` chain metadata
    /// goes in with them, so the two can never disagree. Returns the same ledger,
    /// now over `base`. `None` where the store lost a node of the tree.
    pub fn rehome<C: KVStore>(self, base: C, staged: Vec<(Vec<u8>, Vec<u8>)>) -> (r: Option<
        Ledger<C>,
    >)
        requires
            self.wf(),
        ensures
            self.synced() && self.hash_safe() ==> r is Some,
            commitment::all_set(self.nodes(), self.root@, self.state(), self.dirty@) ==> {
                &&& r is Some
                &&& (r->0).root@ == smt_model::root_of(commitment::committed(self.state()))
            },
            match r {
                Some(l) => {
                    &&& l.wf()
                    &&& l.state() == self.state()
                    &&& l.next_token_id == self.next_token_id
                    &&& l.max_validators == self.max_validators
                    &&& l.dirty@.len() == 0
                    &&& l.store.is_flushed()
                    &&& l.store.base_value().writes() == base.writes() + 1
                    &&& smt::none_lost(self.nodes(), l.nodes())
                    &&& moved(base.holds(), self.store.holds(), staged@, l.store.holds())
                    &&& self.synced() && self.hash_safe() ==> {
                        &&& l.synced()
                        &&& l.root@ == smt_model::root_of(commitment::committed(self.state()))
                    }
                },
                None => true,
            },
    {
        let mut old_home = self;
        let root = match old_home.state_root() {
            Some(root) => root,
            None => {
                return None;
            },
        };
        // Fold what is not committed into this ledger's own base first.
        old_home.flush();
        let mut base = base;
        let ghost held = base.holds();
        let ghost ours = old_home.store.holds();
        let mut batch = WriteBatch::new();
        ledger::queue_wipe(&base, Column::Objects, &mut batch, Ghost(held));
        ledger::queue_wipe(&base, Column::State, &mut batch, Ghost(held));
        let ghost wiped = store::written(held, batch@);
        queue_column(&old_home.store, Column::Objects, &mut batch, Ghost(held));
        queue_column(&old_home.store, Column::State, &mut batch, Ghost(held));
        let ghost filled = store::written(held, batch@);
        proof {
            lemma_filled(held, ours, wiped, filled);
        }
        queue_meta(staged, &mut batch, Ghost(held));
        base.write(batch);
        let ghost now = base.holds();
        let mut fresh = Ledger::with_store(OverlayStore::new(base), old_home.zero);
        fresh.next_token_id = old_home.next_token_id;
        fresh.root = root;
        fresh.dirty = Vec::new();
        fresh.max_validators = old_home.max_validators;
        proof {
            assert(fresh.store.holds() == now);
            lemma_moved(held, ours, filled, staged@, now);
            assert(fresh.objects() == old_home.objects());
            assert(fresh.nodes() == old_home.nodes());
            assert(old_home.objects() == self.objects()) by {
                assert(store::column(old_home.store.holds(), Column::Objects) == store::column(
                    self.store.holds(),
                    Column::Objects,
                ));
            }
            assert(fresh.dirty@ =~= old_home.dirty@);
        }
        Some(fresh)
    }
}

/// A token's records are the same without the ticker index.
proof fn lemma_kind_unindexed(o: Map<Seq<u8>, Seq<u8>>)
    ensures
        snapshot::kind(unindexed(o), REC_TOKEN) == snapshot::kind(o, REC_TOKEN),
{
    let a = snapshot::kind(unindexed(o), REC_TOKEN);
    let b = snapshot::kind(o, REC_TOKEN);
    assert forall|k: Seq<u8>| {
        &&& (#[trigger] a.dom().contains(k)) == b.dom().contains(k)
        &&& a.dom().contains(k) ==> a[k] == b[k]
    } by {
        snapshot::lemma_kind(unindexed(o), REC_TOKEN, k);
        snapshot::lemma_kind(o, REC_TOKEN, k);
    }
    assert(a =~= b);
}

/// Queue a put for everything `s` holds in one column.
fn queue_column<S: KVStore>(
    s: &S,
    col: Column,
    batch: &mut WriteBatch,
    base: Ghost<store::Contents>,
)
    ensures
        forall|x: (Column, Seq<u8>)|
            #![trigger store::written(base@, final(batch)@).dom().contains(x)]
            {
                let o = store::written(base@, old(batch)@);
                let w = store::written(base@, final(batch)@);
                let put = x.0 == col && s.holds().contains_key(x);
                &&& w.dom().contains(x) == (put || o.dom().contains(x))
                &&& w.dom().contains(x) ==> w[x] == if put {
                    s.holds()[x]
                } else {
                    o[x]
                }
            },
{
    let every: [u8; 0] = [];
    assert(every@ =~= Seq::empty());
    let mut pairs = s.scan_prefix(col, every.as_slice());
    let ghost all = pairs@;
    let ghost before = batch@;
    proof {
        ledger::lemma_no_prefix(store::column(s.holds(), col));
    }
    assert(all.skip(all.len() as int) =~= Seq::empty());
    while pairs.len() > 0
        invariant
            pairs@.len() <= all.len(),
            pairs@ == all.take(pairs@.len() as int),
            byte_map::ascending(all),
            byte_map::as_map(all) == store::column(s.holds(), col),
            forall|x: (Column, Seq<u8>)|
                #![trigger store::written(base@, batch@).dom().contains(x)]
                {
                    let w = store::written(base@, batch@);
                    let o = store::written(base@, before);
                    let done = x.0 == col && byte_map::has_key(all.skip(pairs@.len() as int), x.1);
                    &&& w.dom().contains(x) == (done || o.dom().contains(x))
                    &&& w.dom().contains(x) ==> w[x] == if done {
                        s.holds()[x]
                    } else {
                        o[x]
                    }
                },
        decreases pairs@.len(),
    {
        let ghost was = batch@;
        let ghost n = pairs@.len() as int;
        if let Some((key, value)) = pairs.pop() {
            proof {
                assert(all[n - 1] == (key, value));
                byte_map::lemma_entry(all, n - 1);
                store::lemma_written_push(base@, was, (col, key@, Some(value@)));
                byte_map::lemma_skip_one(all, n);
                assert(pairs@ =~= all.take(n - 1));
                assert(s.holds()[(col, key@)] == value@) by {
                    assert(store::column(s.holds(), col)[key@] == value@);
                }
            }
            batch.put(col, key, value);
        }
    }
    proof {
        assert(all.skip(0) =~= all);
        assert forall|x: (Column, Seq<u8>)|
            #![trigger store::written(base@, batch@).dom().contains(x)]
            {
                let o = store::written(base@, before);
                let w = store::written(base@, batch@);
                let put = x.0 == col && s.holds().contains_key(x);
                &&& w.dom().contains(x) == (put || o.dom().contains(x))
                &&& w.dom().contains(x) ==> w[x] == if put {
                    s.holds()[x]
                } else {
                    o[x]
                }
            } by {
            assert(byte_map::has_key(all, x.1) == byte_map::as_map(all).contains_key(x.1));
            assert(x == (x.0, x.1));
        }
    }
}

/// Staged metadata as writes.
pub open spec fn meta_writes(staged: Seq<(Vec<u8>, Vec<u8>)>) -> Seq<store::Write> {
    staged.map_values(
        |p: (Vec<u8>, Vec<u8>)| (Column::Meta, p.0@, Some(p.1@)),
    )
}

/// Queue the staged metadata, in order.
fn queue_meta(staged: Vec<(Vec<u8>, Vec<u8>)>, batch: &mut WriteBatch, base: Ghost<store::Contents>)
    ensures
        store::written(base@, final(batch)@) == store::written(
            store::written(base@, old(batch)@),
            meta_writes(staged@),
        ),
{
    let ghost ws = meta_writes(staged@);
    let ghost start = store::written(base@, batch@);
    let mut i: usize = 0;
    assert(ws.take(0) =~= Seq::empty());
    while i < staged.len()
        invariant
            i <= staged@.len(),
            ws == meta_writes(staged@),
            store::written(base@, batch@) == store::written(start, ws.take(i as int)),
        decreases staged@.len() - i,
    {
        let key = copy_bytes(staged[i].0.as_slice());
        let value = copy_bytes(staged[i].1.as_slice());
        proof {
            let w = ws[i as int];
            assert(w == (Column::Meta, key@, Some(value@)));
            store::lemma_written_push(base@, batch@, w);
            store::lemma_written_push(start, ws.take(i as int), w);
            assert(ws.take(i + 1) =~= ws.take(i as int).push(w));
        }
        batch.put(Column::Meta, key, value);
        i += 1;
    }
    assert(ws.take(i as int) =~= ws);
}

/// What `base` holds once the records and nodes of `ours` took the place of its
/// own.
pub open spec fn replaced(base: store::Contents, ours: store::Contents) -> store::Contents {
    Map::new(
        |x: (Column, Seq<u8>)|
            if x.0 == Column::Objects || x.0 == Column::State {
                ours.contains_key(x)
            } else {
                base.contains_key(x)
            },
        |x: (Column, Seq<u8>)|
            if x.0 == Column::Objects || x.0 == Column::State {
                ours[x]
            } else {
                base[x]
            },
    )
}

/// What a store holds after a ledger moved onto it: the ledger's records, and the
/// staged metadata over what was there. Blocks and transaction lookups are as
/// they were.
pub open spec fn moved(
    base: store::Contents,
    ours: store::Contents,
    staged: Seq<(Vec<u8>, Vec<u8>)>,
    now: store::Contents,
) -> bool {
    &&& ledger::objects_of(now) == ledger::objects_of(ours)
    &&& store::column(now, Column::Meta) == store::column(
        store::written(base, meta_writes(staged)),
        Column::Meta,
    )
    &&& store::column(now, Column::Blocks) == store::column(base, Column::Blocks)
    &&& store::column(now, Column::TxIndex) == store::column(base, Column::TxIndex)
}

proof fn lemma_filled(
    base: store::Contents,
    ours: store::Contents,
    wiped: store::Contents,
    filled: store::Contents,
)
    requires
        forall|x: (Column, Seq<u8>)| {
            &&& (#[trigger] wiped.dom().contains(x)) == (base.dom().contains(x) && x.0
                != Column::Objects && x.0 != Column::State)
            &&& wiped.dom().contains(x) ==> wiped[x] == base[x]
        },
        forall|x: (Column, Seq<u8>)| {
            let put = (x.0 == Column::Objects || x.0 == Column::State) && ours.contains_key(x);
            &&& (#[trigger] filled.dom().contains(x)) == (put || wiped.dom().contains(x))
            &&& filled.dom().contains(x) ==> filled[x] == if put {
                ours[x]
            } else {
                wiped[x]
            }
        },
    ensures
        filled == replaced(base, ours),
{
    assert forall|x: (Column, Seq<u8>)| {
        &&& (#[trigger] filled.dom().contains(x)) == replaced(base, ours).dom().contains(x)
        &&& filled.dom().contains(x) ==> filled[x] == replaced(base, ours)[x]
    } by {
        assert(wiped.dom().contains(x) == (base.dom().contains(x) && x.0 != Column::Objects && x.0
            != Column::State));
    }
    assert(filled =~= replaced(base, ours));
}

/// Metadata writes leave every other column alone, and what they leave in theirs
/// depends on that column alone.
proof fn lemma_meta_written(a: store::Contents, b: store::Contents, ws: Seq<store::Write>)
    requires
        forall|i: int| 0 <= i < ws.len() ==> (#[trigger] ws[i]).0 == Column::Meta,
        store::column(a, Column::Meta) == store::column(b, Column::Meta),
    ensures
        forall|c: Column|
            c != Column::Meta ==> #[trigger] store::column(store::written(a, ws), c)
                == store::column(a, c),
        store::column(store::written(a, ws), Column::Meta) == store::column(
            store::written(b, ws),
            Column::Meta,
        ),
    decreases ws.len(),
{
    if ws.len() > 0 {
        let h = ws.drop_last();
        let w = ws.last();
        assert forall|i: int| 0 <= i < h.len() implies (#[trigger] h[i]).0 == Column::Meta by {
            assert(ws[i].0 == Column::Meta);
        }
        lemma_meta_written(a, b, h);
        assert(ws[ws.len() - 1].0 == Column::Meta);
        let x = store::written(a, h);
        let y = store::written(b, h);
        assert forall|c: Column| c != Column::Meta implies #[trigger] store::column(
            store::written(a, ws),
            c,
        ) == store::column(a, c) by {
            assert(store::column(store::wrote(x, w), c) =~= store::column(x, c));
        }
        assert(store::column(x, Column::Meta) == store::column(y, Column::Meta));
        match w.2 {
            Some(v) => {
                assert(store::column(store::wrote(x, w), Column::Meta) =~= store::column(
                    x,
                    Column::Meta,
                ).insert(w.1, v));
                assert(store::column(store::wrote(y, w), Column::Meta) =~= store::column(
                    y,
                    Column::Meta,
                ).insert(w.1, v));
            },
            None => {
                assert(store::column(store::wrote(x, w), Column::Meta) =~= store::column(
                    x,
                    Column::Meta,
                ).remove(w.1));
                assert(store::column(store::wrote(y, w), Column::Meta) =~= store::column(
                    y,
                    Column::Meta,
                ).remove(w.1));
            },
        }
    }
}

proof fn lemma_moved(
    base: store::Contents,
    ours: store::Contents,
    filled: store::Contents,
    staged: Seq<(Vec<u8>, Vec<u8>)>,
    now: store::Contents,
)
    requires
        filled == replaced(base, ours),
        now == store::written(filled, meta_writes(staged)),
    ensures
        moved(base, ours, staged, now),
        smt::nodes_of(now) == smt::nodes_of(ours),
{
    let ws = meta_writes(staged);
    assert(store::column(filled, Column::Meta) =~= store::column(base, Column::Meta));
    lemma_meta_written(filled, base, ws);
    assert(store::column(filled, Column::Objects) =~= store::column(ours, Column::Objects));
    assert(store::column(filled, Column::State) =~= store::column(ours, Column::State));
    assert(store::column(filled, Column::Blocks) =~= store::column(base, Column::Blocks));
    assert(store::column(filled, Column::TxIndex) =~= store::column(base, Column::TxIndex));
}

/// The next token id that records say is told by them.
proof fn lemma_next_known(o: Map<Seq<u8>, Seq<u8>>, next: u32)
    requires
        o.contains_key(seq![REC_META]) ==> o[seq![REC_META]].len() == 4,
        next == next_token_in(o),
    ensures
        ledger::meta_in(o) == Some(bytes::le4(next)) || (ledger::meta_in(o) is None && next == 1),
{
    broadcast use bytes::group_le;

    assert(seq![REC_META][0] == REC_META);
    assert(ledger::rest_in(o).contains_key(seq![REC_META]) == o.contains_key(seq![REC_META]));
}

// --- what is recorded is booted ------------------------------------------------------

/// A ticker in the index that token records give leads to a token of that ticker, and
/// every such token's ticker is there.
proof fn lemma_index_in(e: Seq<(Seq<u8>, Seq<u8>)>, i: int)
    requires
        0 <= i < e.len(),
    ensures
        index_in(e).contains_key((records::whole(records::read_token(e[i].1))->0).ticker),
    decreases e.len(),
{
    if i < e.len() - 1 {
        lemma_index_in(e.drop_last(), i);
        assert(e.drop_last()[i] == e[i]);
    }
}

proof fn lemma_index_from(e: Seq<(Seq<u8>, Seq<u8>)>, x: Seq<u8>) -> (i: int)
    requires
        index_in(e).contains_key(x),
    ensures
        0 <= i < e.len(),
        (records::whole(records::read_token(e[i].1))->0).ticker == x,
        (records::whole(records::read_token(e[i].1))->0).id == index_in(e)[x],
    decreases e.len(),
{
    let t = records::whole(records::read_token(e.last().1))->0;
    if t.ticker == x {
        e.len() - 1
    } else {
        let i = lemma_index_from(e.drop_last(), x);
        assert(e.drop_last()[i] == e[i]);
        i
    }
}

/// The records of a ledger boot the state they were written from: for every ledger whose
/// token registry is in order and whose next token id the records tell. An empty ledger
/// without a record is none to boot from.
pub proof fn law_records_restore<B: KVStore>(l: Ledger<B>)
    requires
        l.wf(),
        rules_laws::registry_sound(l.state()),
        l.next_known(),
    ensures
        booted(l.objects(), l.zero) == l.state(),
        l.objects().dom().len() > 0 ==> bootable(l.objects()),
{
    broadcast use {bytes::group_le, records::lemma_key_of};

    let o = l.objects();
    let st = l.state();
    ledger::lemma_objects_finite(l);
    assert(seq![REC_META][0] == REC_META);
    assert(ledger::rest_in(o).contains_key(seq![REC_META]) == o.contains_key(seq![REC_META]));
    assert(next_token_in(o) == l.next_token_id);
    snapshot::lemma_kind_ready(o, REC_TOKEN);
    let m = snapshot::kind(o, REC_TOKEN);
    let e = snapshot::listing(m);
    let index = index_in(e);
    assert forall|x: Seq<u8>| {
        &&& (#[trigger] index.dom().contains(x)) == st.tickers.dom().contains(x)
        &&& index.dom().contains(x) ==> index[x] == st.tickers[x]
    } by {
        if index.contains_key(x) {
            let i = lemma_index_from(e, x);
            let k = e[i].0;
            let t = records::whole(records::read_token(e[i].1))->0;
            assert(m.contains_key(k) && m[k] == e[i].1);
            snapshot::lemma_kind(o, REC_TOKEN, k);
            ledger::lemma_record(o, k);
            assert(k == records::key_of(REC_TOKEN, bytes::be4(t.id)));
            assert(st.tokens.contains_key(t.id) && st.tokens[t.id] == t);
        }
        if st.tickers.contains_key(x) {
            let id = st.tickers[x];
            let k = records::key_of(REC_TOKEN, bytes::be4(id));
            assert(st.tokens.contains_key(id));
            snapshot::lemma_kind(o, REC_TOKEN, k);
            assert(m.contains_key(k));
            let i = choose|i: int| 0 <= i < e.len() && (#[trigger] e[i]).0 == k;
            assert(e[i].1 == o[k]);
            lemma_index_in(e, i);
        }
    }
    assert(index =~= st.tickers);
    assert(booted(o, l.zero) =~= st);
}

} // verus!
