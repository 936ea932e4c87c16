//! Ledger snapshots: a canonical byte form of the whole ledger, so that a node
//! can boot from it instead of replaying every block.
//!
//! A snapshot is a concatenation of records in ascending key order, so the same
//! state has the same bytes. It is trusted only after its state root matches a
//! block header's.

use vstd::prelude::*;
use vstd::utf8::*;

use crate::apply;
use crate::byte_map;
use crate::bytes;
use crate::bytes::{push_bytes, push_u32, same_bytes};
use crate::commitment;
use crate::commitment::leaf;
use crate::ledger;
use crate::ledger::{DirtyKey, Ledger};
use crate::mem::MemStore;
use crate::points;
use crate::reader;
use crate::reader::Reader;
use crate::records;
use crate::records::{
    take_account, take_contract, take_token, take_validator, AccountView, ContractView, TokenView,
    ValidatorView, REC_ACCOUNT, REC_CONTRACT, REC_META, REC_NULLIFIER, REC_TOKEN, REC_VALIDATOR,
};
use crate::rules::State;
use crate::rules_laws;
use crate::smt_model;
use crate::store;
use crate::store::{Column, KVStore};

verus! {

// --- entries in ascending key order -------------------------------------------

/// Entries by their bytes.
pub open spec fn plain(e: Seq<(Vec<u8>, Vec<u8>)>) -> Seq<(Seq<u8>, Seq<u8>)> {
    e.map_values(|p: (Vec<u8>, Vec<u8>)| (p.0@, p.1@))
}

/// Whether `e` lists the map `m` in ascending key order.
pub open spec fn lists(e: Seq<(Seq<u8>, Seq<u8>)>, m: Map<Seq<u8>, Seq<u8>>) -> bool {
    &&& forall|i: int, j: int|
        0 <= i < j < e.len() ==> bytes::bytes_lt(#[trigger] e[i].0, #[trigger] e[j].0)
    &&& forall|i: int|
        0 <= i < e.len() ==> m.contains_key((#[trigger] e[i]).0) && m[e[i].0] == e[i].1
    &&& forall|k: Seq<u8>| #[trigger]
        m.contains_key(k) ==> exists|i: int| 0 <= i < e.len() && (#[trigger] e[i]).0 == k
}

/// The entries of `m` in ascending key order.
pub open spec fn listing(m: Map<Seq<u8>, Seq<u8>>) -> Seq<(Seq<u8>, Seq<u8>)> {
    choose|e: Seq<(Seq<u8>, Seq<u8>)>| lists(e, m)
}

proof fn lemma_same_lists(
    a: Seq<(Seq<u8>, Seq<u8>)>,
    b: Seq<(Seq<u8>, Seq<u8>)>,
    m: Map<Seq<u8>, Seq<u8>>,
)
    requires
        lists(a, m),
        lists(b, m),
    ensures
        a == b,
    decreases a.len(),
{
    if a.len() == 0 {
        if b.len() > 0 {
            assert(m.contains_key(b[0].0));
        }
        assert(a =~= b);
    } else {
        let n = a.len() - 1;
        let x = a[n].0;
        assert(m.contains_key(x));
        let i = choose|i: int| 0 <= i < b.len() && (#[trigger] b[i]).0 == x;
        let l = b.len() - 1;
        let y = b[l].0;
        assert(m.contains_key(y));
        let j = choose|j: int| 0 <= j < a.len() && (#[trigger] a[j]).0 == y;
        bytes::lemma_bytes_lt_total(x, y);
        if i < l {
            assert(bytes::bytes_lt(b[i].0, b[l].0));
        }
        if j < n {
            assert(bytes::bytes_lt(a[j].0, a[n].0));
        }
        assert(x == y);
        let a1 = a.drop_last();
        let b1 = b.drop_last();
        let m1 = m.remove(x);
        lemma_drop_last(a, m);
        lemma_drop_last(b, m);
        lemma_same_lists(a1, b1, m1);
        assert(a =~= a1.push(a[n]));
        assert(b =~= b1.push(b[l]));
        assert(a[n] == b[l]);
    }
}

proof fn lemma_drop_last(a: Seq<(Seq<u8>, Seq<u8>)>, m: Map<Seq<u8>, Seq<u8>>)
    requires
        a.len() > 0,
        lists(a, m),
    ensures
        lists(a.drop_last(), m.remove(a.last().0)),
{
    let n = a.len() - 1;
    let x = a[n].0;
    let a1 = a.drop_last();
    let m1 = m.remove(x);
    assert forall|i: int, j: int| 0 <= i < j < a1.len() implies bytes::bytes_lt(
        #[trigger] a1[i].0,
        #[trigger] a1[j].0,
    ) by {
        assert(bytes::bytes_lt(a[i].0, a[j].0));
    }
    assert forall|i: int| 0 <= i < a1.len() implies m1.contains_key((#[trigger] a1[i]).0)
        && m1[a1[i].0] == a1[i].1 by {
        assert(bytes::bytes_lt(a[i].0, a[n].0));
        bytes::lemma_bytes_lt_total(a[i].0, a[n].0);
        assert(m.contains_key(a[i].0));
    }
    assert forall|k: Seq<u8>| #[trigger] m1.contains_key(k) implies exists|i: int|
        0 <= i < a1.len() && (#[trigger] a1[i]).0 == k by {
        assert(m.contains_key(k));
        let i = choose|i: int| 0 <= i < a.len() && (#[trigger] a[i]).0 == k;
        assert(i < n);
        assert(a1[i].0 == k);
    }
}

/// What a scan returns is the listing.
pub proof fn lemma_listing(e: Seq<(Vec<u8>, Vec<u8>)>)
    requires
        byte_map::ascending(e),
    ensures
        listing(byte_map::as_map(e)) == plain(e),
        lists(plain(e), byte_map::as_map(e)),
{
    let m = byte_map::as_map(e);
    let p = plain(e);
    assert forall|i: int, j: int| 0 <= i < j < p.len() implies bytes::bytes_lt(
        #[trigger] p[i].0,
        #[trigger] p[j].0,
    ) by {
        assert(bytes::bytes_lt(e[i].0@, e[j].0@));
    }
    assert forall|i: int| 0 <= i < p.len() implies m.contains_key((#[trigger] p[i]).0) && m[p[i].0]
        == p[i].1 by {
        byte_map::lemma_entry(e, i);
    }
    assert forall|k: Seq<u8>| #[trigger] m.contains_key(k) implies exists|i: int|
        0 <= i < p.len() && (#[trigger] p[i]).0 == k by {
        let i = byte_map::index_of(e, k);
        assert(e[i].0@ == k);
        assert(p[i].0 == k);
    }
    assert(lists(p, m));
    lemma_same_lists(p, listing(m), m);
}

/// The records of one kind.
pub open spec fn kind(o: Map<Seq<u8>, Seq<u8>>, tag: u8) -> Map<Seq<u8>, Seq<u8>> {
    byte_map::prefixed(o, seq![tag])
}

pub proof fn lemma_kind(o: Map<Seq<u8>, Seq<u8>>, tag: u8, k: Seq<u8>)
    ensures
        kind(o, tag).contains_key(k) == (o.contains_key(k) && k.len() > 0 && k[0] == tag),
        kind(o, tag).contains_key(k) ==> kind(o, tag)[k] == o[k] && k == records::key_of(
            tag,
            reader::tail(k, 1),
        ),
{
    if k.len() > 0 {
        assert(k.subrange(0, 1) =~= seq![k[0]]);
        assert(seq![k[0]][0] == k[0]);
        assert(seq![tag][0] == tag);
        assert(records::key_of(k[0], reader::tail(k, 1)) =~= k);
    }
}

// --- writing ------------------------------------------------------------------

/// A record's row in a snapshot. A token's body holds its id already, and a
/// nullifier has no body.
pub open spec fn row(tag: u8, k: Seq<u8>, v: Seq<u8>) -> Seq<u8> {
    if tag == REC_TOKEN {
        v
    } else if tag == REC_NULLIFIER {
        reader::tail(k, 1)
    } else {
        reader::tail(k, 1) + v
    }
}

/// Rows one after the other.
pub open spec fn rows(tag: u8, e: Seq<(Seq<u8>, Seq<u8>)>) -> Seq<u8>
    decreases e.len(),
{
    if e.len() == 0 {
        Seq::empty()
    } else {
        row(tag, e[0].0, e[0].1) + rows(tag, e.skip(1))
    }
}

/// All records of one kind: their number, then their rows.
pub open spec fn part(o: Map<Seq<u8>, Seq<u8>>, tag: u8) -> Seq<u8> {
    bytes::le4(listing(kind(o, tag)).len() as u32) + rows(tag, listing(kind(o, tag)))
}

/// The version tag that heads every snapshot.
pub open spec fn magic() -> Seq<u8> {
    seq![76u8, 65, 84, 76, 69, 68, 71, 52]
}

/// A ledger's snapshot.
pub open spec fn snapshot(o: Map<Seq<u8>, Seq<u8>>, next_token: u32) -> Seq<u8> {
    magic() + (bytes::le4(next_token) + (part(o, REC_ACCOUNT) + (part(o, REC_TOKEN) + (part(
        o,
        REC_CONTRACT,
    ) + (part(o, REC_NULLIFIER) + part(o, REC_VALIDATOR))))))
}

/// Whether a snapshot can hold the records: each kind's number is four bytes.
pub open spec fn countable(o: Map<Seq<u8>, Seq<u8>>) -> bool {
    &&& listing(kind(o, REC_ACCOUNT)).len() <= u32::MAX
    &&& listing(kind(o, REC_TOKEN)).len() <= u32::MAX
    &&& listing(kind(o, REC_CONTRACT)).len() <= u32::MAX
    &&& listing(kind(o, REC_NULLIFIER)).len() <= u32::MAX
    &&& listing(kind(o, REC_VALIDATOR)).len() <= u32::MAX
}

impl<B: KVStore> Ledger<B> {
    /// The records of one kind, in ascending key order.
    pub(crate) fn scan_kind(&self, tag: u8) -> (r: Vec<(Vec<u8>, Vec<u8>)>)
        ensures
            byte_map::ascending(r@),
            byte_map::as_map(r@) == kind(self.objects(), tag),
            plain(r@) == listing(kind(self.objects(), tag)),
            lists(plain(r@), kind(self.objects(), tag)),
    {
        let prefix: [u8; 1] = [tag];
        assert(prefix@ =~= seq![tag]);
        let r = self.store.scan_prefix(Column::Objects, prefix.as_slice());
        proof {
            lemma_listing(r@);
        }
        r
    }

    /// Append all records of one kind.
    fn push_part(&self, out: &mut Vec<u8>, tag: u8)
        requires
            listing(kind(self.objects(), tag)).len() <= u32::MAX,
        ensures
            final(out)@ == old(out)@ + part(self.objects(), tag),
    {
        let all = self.scan_kind(tag);
        let ghost e = plain(all@);
        push_u32(out, all.len() as u32);
        let ghost start = out@;
        let mut i: usize = 0;
        assert(e.skip(0) =~= e);
        while i < all.len()
            invariant
                i <= all@.len(),
                e == plain(all@),
                lists(e, kind(self.objects(), tag)),
                out@ + rows(tag, e.skip(i as int)) == start + rows(tag, e),
            decreases all@.len() - i,
        {
            let (key, body) = &all[i];
            let ghost before = out@;
            proof {
                assert(e[i as int] == (key@, body@));
                lemma_kind(self.objects(), tag, key@);
                assert(e.skip(i as int)[0] == e[i as int]);
                assert(e.skip(i as int).skip(1) =~= e.skip(i + 1));
            }
            if tag != REC_TOKEN {
                push_bytes(out, vstd::slice::slice_subrange(key.as_slice(), 1, key.len()));
            }
            if tag != REC_NULLIFIER {
                push_bytes(out, body.as_slice());
            }
            i += 1;
            proof {
                let r = row(tag, key@, body@);
                assert(out@ =~= before + r);
                assert(before + (r + rows(tag, e.skip(i as int))) =~= out@ + rows(
                    tag,
                    e.skip(i as int),
                ));
            }
        }
        proof {
            assert(e.skip(i as int) =~= Seq::empty());
            assert(out@ + Seq::<u8>::empty() =~= out@);
            assert(out@ =~= old(out)@ + part(self.objects(), tag));
        }
    }

    /// The canonical snapshot of the full ledger.
    pub fn encode(&self) -> (v: Vec<u8>)
        requires
            countable(self.objects()),
        ensures
            v@ == snapshot(self.objects(), self.next_token_id),
    {
        let mut v: Vec<u8> = vec![76u8, 65, 84, 76, 69, 68, 71, 52];
        assert(v@ =~= magic());
        push_u32(&mut v, self.next_token_id);
        self.push_part(&mut v, REC_ACCOUNT);
        self.push_part(&mut v, REC_TOKEN);
        self.push_part(&mut v, REC_CONTRACT);
        self.push_part(&mut v, REC_NULLIFIER);
        self.push_part(&mut v, REC_VALIDATOR);
        assert(v@ =~= snapshot(self.objects(), self.next_token_id));
        v
    }
}

// --- reading ------------------------------------------------------------------

/// A state under construction, and the entries that are in it.
#[verifier::ext_equal]
pub struct Built {
    pub st: State,
    pub flags: Seq<DirtyKey>,
}

impl Built {
    pub open spec fn account(self, id: Seq<u8>, a: AccountView) -> Built {
        Built {
            st: self.st.with_account(id, a),
            flags: self.flags.push(DirtyKey::Account(bytes::array_of::<32>(id))),
        }
    }

    pub open spec fn token(self, t: TokenView) -> Built {
        Built {
            st: self.st.with_token(t, self.st.next_token),
            flags: self.flags.push(DirtyKey::Token(t.id)),
        }
    }

    pub open spec fn contract(self, id: Seq<u8>, c: ContractView) -> Built {
        Built {
            st: self.st.with_contract(id, c),
            flags: self.flags.push(DirtyKey::Contract(bytes::array_of::<32>(id))),
        }
    }

    pub open spec fn nullifier(self, nf: Seq<u8>) -> Built {
        Built {
            st: self.st.with_nullifier(nf),
            flags: self.flags.push(DirtyKey::Nullifier(bytes::array_of::<32>(nf))),
        }
    }

    pub open spec fn validator(self, id: Seq<u8>, v: ValidatorView) -> Built {
        Built {
            st: self.st.with_validator(id, v),
            flags: self.flags.push(DirtyKey::Validator(bytes::array_of::<32>(id))),
        }
    }
}

/// One row of a kind at the front of `s`: what it adds, and what follows it.
pub open spec fn read_row(tag: u8, s: Seq<u8>, b: Built) -> Option<(Built, Seq<u8>)> {
    if tag == REC_TOKEN {
        match records::read_token(s) {
            Some((t, rest)) => Some((b.token(t), rest)),
            None => None,
        }
    } else if s.len() < 32 {
        None
    } else {
        let id = reader::head(s, 32);
        let t = reader::tail(s, 32);
        if tag == REC_NULLIFIER {
            Some((b.nullifier(id), t))
        } else if tag == REC_ACCOUNT {
            match records::read_account(t) {
                Some((a, rest)) => Some((b.account(id, a), rest)),
                None => None,
            }
        } else if tag == REC_CONTRACT {
            match records::read_contract(t) {
                Some((c, rest)) => Some((b.contract(id, c), rest)),
                None => None,
            }
        } else {
            match records::read_validator(t) {
                Some((v, rest)) => Some((b.validator(id, v), rest)),
                None => None,
            }
        }
    }
}

/// `n` rows of a kind.
pub open spec fn read_rows(tag: u8, s: Seq<u8>, n: nat, b: Built) -> Option<(Built, Seq<u8>)>
    decreases n,
{
    if n == 0 {
        Some((b, s))
    } else {
        match read_row(tag, s, b) {
            Some((b1, rest)) => read_rows(tag, rest, (n - 1) as nat, b1),
            None => None,
        }
    }
}

/// A counted part of a kind.
pub open spec fn read_part(tag: u8, s: Seq<u8>, b: Built) -> Option<(Built, Seq<u8>)> {
    if s.len() < 4 {
        None
    } else {
        read_rows(tag, reader::tail(s, 4), bytes::of_le4(reader::head(s, 4)) as nat, b)
    }
}

/// A part, where what stands before it could be read.
pub open spec fn and_part(tag: u8, r: Option<(Built, Seq<u8>)>) -> Option<(Built, Seq<u8>)> {
    match r {
        Some((b, s)) => read_part(tag, s, b),
        None => None,
    }
}

/// What a ledger holds before anything is read into it.
pub open spec fn unread(next_token: u32, zero: [u8; 64]) -> Built {
    Built {
        st: State { next_token, ..ledger::empty_state(zero) },
        flags: seq![DirtyKey::Meta],
    }
}

/// What a snapshot says, if it is one: the right tag, every part whole, nothing
/// behind.
pub open spec fn parsed(b: Seq<u8>, zero: [u8; 64]) -> Option<Built> {
    if b.len() < 12 || reader::head(b, 8) != magic() {
        None
    } else {
        let s = reader::tail(b, 8);
        let start = unread(bytes::of_le4(reader::head(s, 4)), zero);
        records::whole(all_parts(reader::tail(s, 4), start))
    }
}

/// Every part of a snapshot, one after the other.
pub open spec fn all_parts(s: Seq<u8>, b: Built) -> Option<(Built, Seq<u8>)> {
    and_part(
        REC_VALIDATOR,
        and_part(
            REC_NULLIFIER,
            and_part(REC_CONTRACT, and_part(REC_TOKEN, read_part(REC_ACCOUNT, s, b))),
        ),
    )
}

/// What decoding a snapshot gives: a ledger with what it says, its root computed, or
/// nothing where it says nothing.
pub open spec fn decodes(b: Seq<u8>, zero: [u8; 64], r: Option<Ledger<MemStore>>) -> bool {
    match r {
        Some(l) => {
            &&& l.wf()
            &&& parsed(b, zero) is Some
            &&& l.state() == (parsed(b, zero)->0).st
            &&& l.next_recorded()
            &&& l.tidy()
            &&& l.max_validators == crate::rules::DEFAULT_MAX_VALIDATORS
            &&& rebuilt_safely(parsed(b, zero)->0) ==> {
                &&& l.root@ == smt_model::root_of(commitment::committed(l.state()))
                &&& l.synced()
                &&& l.dirty@.len() == 0
            }
        },
        None => parsed(b, zero) is None,
    }
}

/// Whether every entry of the state is flagged.
pub open spec fn all_flagged(b: Built) -> bool {
    forall|k: DirtyKey| #[trigger] leaf(b.st, k) is Some ==> b.flags.contains(k)
}

proof fn lemma_flag(was: Built, now: Built, k: DirtyKey)
    requires
        all_flagged(was),
        now.flags == was.flags.push(k),
        forall|j: DirtyKey| j != k ==> #[trigger] leaf(now.st, j) is Some
            ==> leaf(was.st, j) is Some,
    ensures
        all_flagged(now),
{
    assert forall|j: DirtyKey| #[trigger] leaf(now.st, j) is Some implies now.flags.contains(
        j,
    ) by {
        if j == k {
            assert(now.flags[was.flags.len() as int] == k);
        } else {
            assert(leaf(was.st, j) is Some);
            let i = choose|i: int| 0 <= i < was.flags.len() && was.flags[i] == j;
            assert(now.flags[i] == j);
        }
    }
}

/// A row flags what it adds.
proof fn lemma_row_flags(tag: u8, s: Seq<u8>, b: Built)
    requires
        all_flagged(b),
        read_row(tag, s, b) is Some,
    ensures
        all_flagged((read_row(tag, s, b)->0).0),
{
    broadcast use bytes::lemma_array_of;

    let now = (read_row(tag, s, b)->0).0;
    if tag == REC_TOKEN {
        let t = (records::read_token(s)->0).0;
        lemma_flag(b, now, DirtyKey::Token(t.id));
    } else {
        let id = reader::head(s, 32);
        let a = bytes::array_of::<32>(id);
        assert forall|x: [u8; 32]| #[trigger] x@ == id implies x == a by {
            assert(bytes::array_of::<32>(x@) == x);
        }
        if tag == REC_NULLIFIER {
            lemma_flag(b, now, DirtyKey::Nullifier(a));
        } else if tag == REC_ACCOUNT {
            lemma_flag(b, now, DirtyKey::Account(a));
        } else if tag == REC_CONTRACT {
            lemma_flag(b, now, DirtyKey::Contract(a));
        } else {
            lemma_flag(b, now, DirtyKey::Validator(a));
        }
    }
}

impl Ledger<MemStore> {
    /// What the ledger holds, and what is flagged in it.
    spec fn built(&self) -> Built {
        Built { st: self.state(), flags: self.dirty@ }
    }

    /// Read one row of a kind into the ledger.
    fn take_row(&mut self, r: &mut Reader, tag: u8) -> (ok: bool)
        requires
            old(self).wf(),
            old(r).ok(),
        ensures
            final(self).wf(),
            final(r).ok(),
            ok ==> read_row(tag, old(r).rest(), old(self).built()) == Some(
                (final(self).built(), final(r).rest()),
            ),
            !ok ==> read_row(tag, old(r).rest(), old(self).built()) is None,
            old(self).same_home(final(self)),
            final(self).next_token_id == old(self).next_token_id,
            old(self).next_recorded() ==> final(self).next_recorded(),
            old(self).tidy() ==> final(self).tidy(),
    {
        broadcast use bytes::lemma_array_of;

        let ghost was = self.built();
        let ghost s = r.rest();
        if tag == REC_TOKEN {
            return match take_token(r) {
                None => false,
                Some(t) => {
                    proof {
                        records::lemma_token_stable(s, Seq::empty());
                    }
                    self.put_token(&t);
                    self.dirty.push(DirtyKey::Token(t.id));
                    assert(self.built() =~= was.token(t@));
                    true
                },
            };
        }
        let id = match r.array::<32>() {
            Some(id) => id,
            None => {
                return false;
            },
        };
        assert(bytes::array_of::<32>(id@) == id);
        let ghost t = r.rest();
        if tag == REC_NULLIFIER {
            self.insert_nullifier(&id);
            self.dirty.push(DirtyKey::Nullifier(id));
            assert(self.built() =~= was.nullifier(id@));
            true
        } else if tag == REC_ACCOUNT {
            match take_account(r) {
                None => false,
                Some(a) => {
                    proof {
                        records::lemma_account_stable(t, Seq::empty());
                    }
                    self.put_account(&id, &a);
                    self.dirty.push(DirtyKey::Account(id));
                    assert(self.built() =~= was.account(id@, a@));
                    true
                },
            }
        } else if tag == REC_CONTRACT {
            match take_contract(r) {
                None => false,
                Some(c) => {
                    proof {
                        records::lemma_contract_stable(t, Seq::empty());
                    }
                    self.put_contract(&id, &c);
                    self.dirty.push(DirtyKey::Contract(id));
                    assert(self.built() =~= was.contract(id@, c@));
                    true
                },
            }
        } else {
            match take_validator(r) {
                None => false,
                Some(v) => {
                    proof {
                        records::lemma_validator_stable(t, Seq::empty());
                    }
                    self.put_validator(&id, &v);
                    self.dirty.push(DirtyKey::Validator(id));
                    assert(self.built() =~= was.validator(id@, v@));
                    true
                },
            }
        }
    }

    /// Read a counted part of a kind into the ledger.
    fn take_part(&mut self, r: &mut Reader, tag: u8) -> (ok: bool)
        requires
            old(self).wf(),
            old(r).ok(),
            all_flagged(old(self).built()),
        ensures
            final(self).wf(),
            final(r).ok(),
            ok ==> read_part(tag, old(r).rest(), old(self).built()) == Some(
                (final(self).built(), final(r).rest()),
            ) && all_flagged(final(self).built()),
            !ok ==> read_part(tag, old(r).rest(), old(self).built()) is None,
            old(self).same_home(final(self)),
            final(self).next_token_id == old(self).next_token_id,
            old(self).next_recorded() ==> final(self).next_recorded(),
            old(self).tidy() ==> final(self).tidy(),
    {
        let n = match r.u32() {
            Some(n) => n,
            None => {
                return false;
            },
        };
        let ghost s = r.rest();
        let ghost b = self.built();
        let mut i: u32 = 0;
        while i < n
            invariant
                self.wf(),
                r.ok(),
                i <= n,
                all_flagged(self.built()),
                read_rows(tag, s, n as nat, b) == read_rows(
                    tag,
                    r.rest(),
                    (n - i) as nat,
                    self.built(),
                ),
                read_part(tag, old(r).rest(), old(self).built()) == read_rows(tag, s, n as nat, b),
                old(self).same_home(self),
                self.next_token_id == old(self).next_token_id,
                old(self).next_recorded() ==> self.next_recorded(),
                old(self).tidy() ==> self.tidy(),
            decreases n - i,
        {
            let ghost now = self.built();
            let ghost rest = r.rest();
            if !self.take_row(r, tag) {
                return false;
            }
            proof {
                lemma_row_flags(tag, rest, now);
            }
            i += 1;
        }
        true
    }

    /// Rebuild a ledger from a snapshot. `None` on any malformed input: a wrong
    /// tag, truncation, bad text, or anything behind the end. No count in it is
    /// trusted. `answers` says of each ciphertext that
    /// [`in_snapshot`](crate::points::in_snapshot) lists whether the cryptography
    /// layer takes it for one: `None` also where it refused any, or where an answer
    /// is missing.
    pub fn decode(b: &[u8], zero: [u8; 64], answers: &[bool]) -> (r: Option<Ledger<MemStore>>)
        ensures
            points::taken(points::snapshot_cts(b@), answers@) ==> decodes(b@, zero, r),
            !points::taken(points::snapshot_cts(b@), answers@) ==> r is None,
    {
        let asked = points::in_snapshot(b);
        if !points::all_taken(&asked, answers) {
            return None;
        }
        let mut r = Reader::new(b);
        let tag = match r.take(8) {
            Some(t) => t,
            None => {
                return None;
            },
        };
        let want: Vec<u8> = vec![76u8, 65, 84, 76, 69, 68, 71, 52];
        assert(want@ =~= magic());
        if !same_bytes(tag.as_slice(), want.as_slice()) {
            return None;
        }
        let next = match r.u32() {
            Some(n) => n,
            None => {
                return None;
            },
        };
        let mut l = Ledger::start(next, zero);
        let ok = l.take_parts(&mut r);
        if !ok || r.left() != 0 {
            return None;
        }
        assert((parsed(b@, zero)->0) == l.built());
        Some(l.finish())
    }

    /// An empty ledger that a snapshot is read into.
    fn start(next: u32, zero: [u8; 64]) -> (l: Ledger<MemStore>)
        ensures
            l.wf(),
            l.built() == unread(next, zero),
            all_flagged(l.built()),
            l.next_recorded(),
            l.tidy(),
            l.nodes() == Map::<Seq<u8>, Seq<u8>>::empty(),
            l.root@ == smt_model::root_of(Map::empty()),
            l.max_validators == crate::rules::DEFAULT_MAX_VALIDATORS,
    {
        let mut l = Ledger::new(zero);
        proof {
            assert(l.nodes() =~= Map::empty());
        }
        l.next_token_id = next;
        let meta: Vec<u8> = vec![REC_META];
        assert(meta@ =~= seq![REC_META]);
        let mut body: Vec<u8> = Vec::new();
        push_u32(&mut body, next);
        l.put_meta(meta, body);
        proof {
            assert(l.built() =~= unread(next, zero));
            assert(l.dirty@[0] == DirtyKey::Meta);
            assert(l.dirty@.contains(DirtyKey::Meta));
            assert forall|k: DirtyKey| #[trigger] leaf(l.state(), k) is Some
                implies l.dirty@.contains(k) by {
                match k {
                    DirtyKey::Meta => {},
                    _ => {},
                }
            }
        }
        l
    }

    /// Compute the root of a ledger that was read from a snapshot.
    fn finish(self) -> (l: Ledger<MemStore>)
        requires
            self.wf(),
            all_flagged(self.built()),
            self.nodes() == Map::<Seq<u8>, Seq<u8>>::empty(),
            self.root@ == smt_model::root_of(Map::empty()),
        ensures
            l.wf(),
            l.state() == self.state(),
            self.next_recorded() ==> l.next_recorded(),
            self.tidy() ==> l.tidy(),
            l.max_validators == self.max_validators,
            rebuilt_safely(self.built()) ==> {
                &&& l.root@ == smt_model::root_of(commitment::committed(l.state()))
                &&& l.synced()
                &&& l.dirty@.len() == 0
            },
    {
        let mut l = self;
        proof {
            lemma_rebuilt_synced(l);
        }
        l.state_root();
        l
    }

    /// Read every part of a snapshot into the ledger.
    fn take_parts(&mut self, r: &mut Reader) -> (ok: bool)
        requires
            old(self).wf(),
            old(r).ok(),
            all_flagged(old(self).built()),
        ensures
            final(self).wf(),
            final(r).ok(),
            ok ==> all_parts(old(r).rest(), old(self).built()) == Some(
                (final(self).built(), final(r).rest()),
            ) && all_flagged(final(self).built()),
            !ok ==> all_parts(old(r).rest(), old(self).built()) is None,
            old(self).next_recorded() ==> final(self).next_recorded(),
            old(self).tidy() ==> final(self).tidy(),
            final(self).nodes() == old(self).nodes(),
            final(self).root == old(self).root,
            final(self).max_validators == old(self).max_validators,
    {
        if !self.take_part(r, REC_ACCOUNT) {
            return false;
        }
        if !self.take_part(r, REC_TOKEN) {
            return false;
        }
        if !self.take_part(r, REC_CONTRACT) {
            return false;
        }
        if !self.take_part(r, REC_NULLIFIER) {
            return false;
        }
        self.take_part(r, REC_VALIDATOR)
    }

    /// Write the record of the next token id.
    fn put_meta(&mut self, meta: Vec<u8>, body: Vec<u8>)
        requires
            old(self).wf(),
            meta@ == seq![REC_META],
        ensures
            final(self).wf(),
            final(self).objects() == old(self).objects().insert(meta@, body@),
            final(self).state() == old(self).state(),
            final(self).next_token_id == old(self).next_token_id,
            old(self).tidy() ==> final(self).tidy(),
            final(self).dirty@ == old(self).dirty@,
            old(self).same_home(final(self)),
    {
        proof {
            ledger::lemma_column_insert(self.store.holds(), meta@, body@);
            ledger::lemma_put_meta(self.objects(), self.next_token_id, self.zero, body@);
            assert(meta@[0] == REC_META);
            ledger::lemma_tidy_stays(self.objects(), meta@, body@);
        }
        self.store.put(Column::Objects, meta, body);
    }
}

/// Whether the hash does not collide on what rebuilding the tree hashes.
pub open spec fn rebuilt_safely(b: Built) -> bool {
    smt_model::collision_free(
        commitment::hashed(Map::empty(), Map::empty(), b.st, b.flags),
    )
}

/// A ledger over no nodes, with every entry flagged, is in order.
proof fn lemma_rebuilt_synced<B: KVStore>(l: Ledger<B>)
    requires
        l.nodes() == Map::<Seq<u8>, Seq<u8>>::empty(),
        l.root@ == smt_model::root_of(Map::empty()),
        all_flagged((Built { st: l.state(), flags: l.dirty@ })),
    ensures
        l.synced(),
        rebuilt_safely((Built { st: l.state(), flags: l.dirty@ })) ==> l.hash_safe(),
{
    lemma_flagged_right(l);
    assert(smt_model::addressed(l.nodes()));
}

/// A ledger with an empty tree and every entry flagged has a tree that is right but for
/// what is flagged.
pub proof fn lemma_flagged_right<B: KVStore>(l: Ledger<B>)
    requires
        l.root@ == smt_model::root_of(Map::empty()),
        all_flagged((Built { st: l.state(), flags: l.dirty@ })),
    ensures
        exists|m: smt_model::Pairs| smt_model::stands_for(l.nodes(), l.root@, 0, m),
        commitment::tree(l.nodes(), l.root@) == Map::<Seq<u8>, Seq<u8>>::empty(),
        commitment::right_but_for(
            commitment::tree(l.nodes(), l.root@),
            l.state(),
            l.dirty@,
        ),
{
    smt_model::lemma_empty_tree(0);
    let none = Map::<Seq<u8>, Seq<u8>>::empty();
    assert(smt_model::stands_for(l.nodes(), l.root@, 0, none));
    smt_model::lemma_stands_unique(
        l.nodes(),
        l.root@,
        0,
        none,
        commitment::tree(l.nodes(), l.root@),
    );
    let st = l.state();
    assert forall|k: DirtyKey|
        #![trigger commitment::entry_path(k)]
        leaf(st, k) is Some && !l.dirty@.contains(k) implies false by {
        assert(leaf((Built { st: l.state(), flags: l.dirty@ }).st, k) is Some);
    }
}

// --- what is written is read back ------------------------------------------------

/// What a run of entries adds.
pub open spec fn added(tag: u8, e: Seq<(Seq<u8>, Seq<u8>)>, b: Built) -> Built
    decreases e.len(),
{
    if e.len() == 0 {
        b
    } else {
        added(tag, e.skip(1), added_one(tag, e[0].0, e[0].1, b))
    }
}

/// What one entry adds.
pub open spec fn added_one(tag: u8, k: Seq<u8>, v: Seq<u8>, b: Built) -> Built {
    let id = reader::tail(k, 1);
    if tag == REC_TOKEN {
        b.token(records::whole(records::read_token(v))->0)
    } else if tag == REC_NULLIFIER {
        b.nullifier(id)
    } else if tag == REC_ACCOUNT {
        b.account(id, records::whole(records::read_account(v))->0)
    } else if tag == REC_CONTRACT {
        b.contract(id, records::whole(records::read_contract(v))->0)
    } else {
        b.validator(id, records::whole(records::read_validator(v))->0)
    }
}

/// Whether the entries are records of a kind.
pub open spec fn all_of(tag: u8, e: Seq<(Seq<u8>, Seq<u8>)>) -> bool {
    forall|i: int|
        0 <= i < e.len() ==> (#[trigger] e[i]).0.len() > 0 && e[i].0[0] == tag && ledger::record_ok(
            e[i].0,
            e[i].1,
        )
}

proof fn lemma_read_row(tag: u8, k: Seq<u8>, v: Seq<u8>, t: Seq<u8>, b: Built)
    requires
        k.len() > 0,
        k[0] == tag,
        ledger::record_ok(k, v),
        tag == REC_ACCOUNT || tag == REC_TOKEN || tag == REC_CONTRACT || tag == REC_NULLIFIER || tag
            == REC_VALIDATOR,
    ensures
        read_row(tag, row(tag, k, v) + t, b) == Some((added_one(tag, k, v, b), t)),
{
    let s = row(tag, k, v) + t;
    let id = reader::tail(k, 1);
    assert(Seq::<u8>::empty() + t =~= t);
    if tag == REC_TOKEN {
        records::lemma_token_stable(v, t);
        assert((records::read_token(v)->0).1 =~= Seq::<u8>::empty());
    } else {
        assert(id.len() == 32);
        assert(reader::head(s, 32) =~= id);
        if tag == REC_NULLIFIER {
            assert(reader::tail(s, 32) =~= t);
        } else {
            assert(reader::tail(s, 32) =~= v + t);
            if tag == REC_ACCOUNT {
                records::lemma_account_stable(v, t);
                assert((records::read_account(v)->0).1 =~= Seq::<u8>::empty());
            } else if tag == REC_CONTRACT {
                records::lemma_contract_stable(v, t);
                assert((records::read_contract(v)->0).1 =~= Seq::<u8>::empty());
            } else {
                records::lemma_validator_stable(v, t);
                assert((records::read_validator(v)->0).1 =~= Seq::<u8>::empty());
            }
        }
    }
}

proof fn lemma_read_rows(tag: u8, e: Seq<(Seq<u8>, Seq<u8>)>, t: Seq<u8>, b: Built)
    requires
        all_of(tag, e),
        tag == REC_ACCOUNT || tag == REC_TOKEN || tag == REC_CONTRACT || tag == REC_NULLIFIER || tag
            == REC_VALIDATOR,
    ensures
        read_rows(tag, rows(tag, e) + t, e.len(), b) == Some((added(tag, e, b), t)),
    decreases e.len(),
{
    if e.len() == 0 {
        assert(rows(tag, e) + t =~= t);
    } else {
        let more = rows(tag, e.skip(1)) + t;
        assert(rows(tag, e) + t =~= row(tag, e[0].0, e[0].1) + more);
        lemma_read_row(tag, e[0].0, e[0].1, more, b);
        assert(all_of(tag, e.skip(1))) by {
            assert forall|i: int| 0 <= i < e.skip(1).len() implies (#[trigger] e.skip(
                1,
            )[i]).0.len() > 0 && e.skip(1)[i].0[0] == tag && ledger::record_ok(
                e.skip(1)[i].0,
                e.skip(1)[i].1,
            ) by {
                assert(e.skip(1)[i] == e[i + 1]);
            }
        }
        lemma_read_rows(tag, e.skip(1), t, added_one(tag, e[0].0, e[0].1, b));
    }
}

proof fn lemma_read_part(o: Map<Seq<u8>, Seq<u8>>, tag: u8, t: Seq<u8>, b: Built)
    requires
        ledger::records_ok(o),
        o.dom().finite(),
        listing(kind(o, tag)).len() <= u32::MAX,
        lists(listing(kind(o, tag)), kind(o, tag)),
        tag == REC_ACCOUNT || tag == REC_TOKEN || tag == REC_CONTRACT || tag == REC_NULLIFIER || tag
            == REC_VALIDATOR,
    ensures
        read_part(tag, part(o, tag) + t, b) == Some((added(tag, listing(kind(o, tag)), b), t)),
{
    broadcast use bytes::group_le;

    let e = listing(kind(o, tag));
    let s = part(o, tag) + t;
    assert(reader::head(s, 4) =~= bytes::le4(e.len() as u32));
    assert(reader::tail(s, 4) =~= rows(tag, e) + t);
    assert forall|i: int| 0 <= i < e.len() implies (#[trigger] e[i]).0.len() > 0 && e[i].0[0] == tag
        && ledger::record_ok(e[i].0, e[i].1) by {
        assert(kind(o, tag).contains_key(e[i].0));
        lemma_kind(o, tag, e[i].0);
        assert(o.contains_key(e[i].0));
    }
    lemma_read_rows(tag, e, t, b);
}

proof fn lemma_skip_lists(e: Seq<(Seq<u8>, Seq<u8>)>, m: Map<Seq<u8>, Seq<u8>>)
    requires
        e.len() > 0,
        lists(e, m),
    ensures
        lists(e.skip(1), m.remove(e[0].0)),
{
    let f = e.skip(1);
    let n = m.remove(e[0].0);
    assert forall|i: int, j: int| 0 <= i < j < f.len() implies bytes::bytes_lt(
        #[trigger] f[i].0,
        #[trigger] f[j].0,
    ) by {
        assert(bytes::bytes_lt(e[i + 1].0, e[j + 1].0));
    }
    assert forall|i: int| 0 <= i < f.len() implies n.contains_key((#[trigger] f[i]).0) && n[f[i].0]
        == f[i].1 by {
        assert(bytes::bytes_lt(e[0].0, e[i + 1].0));
        bytes::lemma_bytes_lt_total(e[0].0, e[i + 1].0);
        assert(m.contains_key(e[i + 1].0));
    }
    assert forall|k: Seq<u8>| #[trigger] n.contains_key(k) implies exists|i: int|
        0 <= i < f.len() && (#[trigger] f[i]).0 == k by {
        assert(m.contains_key(k));
        let i = choose|i: int| 0 <= i < e.len() && (#[trigger] e[i]).0 == k;
        assert(f[i - 1].0 == k);
    }
}

proof fn lemma_added_accounts(e: Seq<(Seq<u8>, Seq<u8>)>, m: Map<Seq<u8>, Seq<u8>>, b: Built)
    requires
        lists(e, m),
        all_of(REC_ACCOUNT, e),
    ensures
        ({
            let now = added(REC_ACCOUNT, e, b).st;
            &&& now == (State { accounts: now.accounts, ..b.st })
            &&& forall|id: Seq<u8>| {
                let k = records::key_of(REC_ACCOUNT, id);
                &&& (#[trigger] now.accounts.contains_key(id)) == (m.contains_key(k)
                    || b.st.accounts.contains_key(id))
                &&& now.accounts.contains_key(id) ==> now.accounts[id] == if m.contains_key(k) {
                    records::whole(records::read_account(m[k]))->0
                } else {
                    b.st.accounts[id]
                }
            }
        }),
    decreases e.len(),
{
    broadcast use records::lemma_key_of;

    if e.len() > 0 {
        let k0 = e[0].0;
        let id0 = reader::tail(k0, 1);
        let b1 = added_one(REC_ACCOUNT, k0, e[0].1, b);
        let f = e.skip(1);
        lemma_skip_lists(e, m);
        assert(all_of(REC_ACCOUNT, f)) by {
            assert forall|i: int| 0 <= i < f.len() implies (#[trigger] f[i]).0.len() > 0
                && f[i].0[0]
                == REC_ACCOUNT && ledger::record_ok(f[i].0, f[i].1) by {
                assert(f[i] == e[i + 1]);
            }
        }
        lemma_added_accounts(f, m.remove(k0), b1);
        let now = added(REC_ACCOUNT, e, b).st;
        assert(records::key_of(REC_ACCOUNT, id0) =~= k0);
        assert(m.contains_key(k0) && m[k0] == e[0].1);
        assert forall|id: Seq<u8>| {
            let k = records::key_of(REC_ACCOUNT, id);
            &&& (#[trigger] now.accounts.contains_key(id)) == (m.contains_key(k)
                || b.st.accounts.contains_key(id))
            &&& now.accounts.contains_key(id) ==> now.accounts[id] == if m.contains_key(k) {
                records::whole(records::read_account(m[k]))->0
            } else {
                b.st.accounts[id]
            }
        } by {
            let k = records::key_of(REC_ACCOUNT, id);
            assert(now.accounts.contains_key(id) == (m.remove(k0).contains_key(k)
                || b1.st.accounts.contains_key(id)));
            if k == k0 {
                assert(id == id0);
            }
            if id == id0 {
                assert(k == k0);
            }
        }
    } else {
        assert forall|k: Seq<u8>| !m.contains_key(k) by {}
    }
}

proof fn lemma_added_contracts(e: Seq<(Seq<u8>, Seq<u8>)>, m: Map<Seq<u8>, Seq<u8>>, b: Built)
    requires
        lists(e, m),
        all_of(REC_CONTRACT, e),
    ensures
        ({
            let now = added(REC_CONTRACT, e, b).st;
            &&& now == (State { contracts: now.contracts, ..b.st })
            &&& forall|id: Seq<u8>| {
                let k = records::key_of(REC_CONTRACT, id);
                &&& (#[trigger] now.contracts.contains_key(id)) == (m.contains_key(k)
                    || b.st.contracts.contains_key(id))
                &&& now.contracts.contains_key(id) ==> now.contracts[id] == if m.contains_key(k) {
                    records::whole(records::read_contract(m[k]))->0
                } else {
                    b.st.contracts[id]
                }
            }
        }),
    decreases e.len(),
{
    broadcast use records::lemma_key_of;

    if e.len() > 0 {
        let k0 = e[0].0;
        let id0 = reader::tail(k0, 1);
        let b1 = added_one(REC_CONTRACT, k0, e[0].1, b);
        let f = e.skip(1);
        lemma_skip_lists(e, m);
        assert(all_of(REC_CONTRACT, f)) by {
            assert forall|i: int| 0 <= i < f.len() implies (#[trigger] f[i]).0.len() > 0
                && f[i].0[0]
                == REC_CONTRACT && ledger::record_ok(f[i].0, f[i].1) by {
                assert(f[i] == e[i + 1]);
            }
        }
        lemma_added_contracts(f, m.remove(k0), b1);
        let now = added(REC_CONTRACT, e, b).st;
        assert(records::key_of(REC_CONTRACT, id0) =~= k0);
        assert(m.contains_key(k0) && m[k0] == e[0].1);
        assert forall|id: Seq<u8>| {
            let k = records::key_of(REC_CONTRACT, id);
            &&& (#[trigger] now.contracts.contains_key(id)) == (m.contains_key(k)
                || b.st.contracts.contains_key(id))
            &&& now.contracts.contains_key(id) ==> now.contracts[id] == if m.contains_key(k) {
                records::whole(records::read_contract(m[k]))->0
            } else {
                b.st.contracts[id]
            }
        } by {
            let k = records::key_of(REC_CONTRACT, id);
            assert(now.contracts.contains_key(id) == (m.remove(k0).contains_key(k)
                || b1.st.contracts.contains_key(id)));
            if k == k0 {
                assert(id == id0);
            }
            if id == id0 {
                assert(k == k0);
            }
        }
    } else {
        assert forall|k: Seq<u8>| !m.contains_key(k) by {}
    }
}

proof fn lemma_added_validators(e: Seq<(Seq<u8>, Seq<u8>)>, m: Map<Seq<u8>, Seq<u8>>, b: Built)
    requires
        lists(e, m),
        all_of(REC_VALIDATOR, e),
        forall|i: int|
            0 <= i < e.len() ==> !(records::whole(
                records::read_validator((#[trigger] e[i]).1),
            )->0).drained(),
    ensures
        ({
            let now = added(REC_VALIDATOR, e, b).st;
            &&& now == (State { validators: now.validators, ..b.st })
            &&& forall|id: Seq<u8>| {
                let k = records::key_of(REC_VALIDATOR, id);
                &&& (#[trigger] now.validators.contains_key(id)) == (m.contains_key(k)
                    || b.st.validators.contains_key(id))
                &&& now.validators.contains_key(id) ==> now.validators[id] == if m.contains_key(k) {
                    records::whole(records::read_validator(m[k]))->0
                } else {
                    b.st.validators[id]
                }
            }
        }),
    decreases e.len(),
{
    broadcast use records::lemma_key_of;

    if e.len() > 0 {
        let k0 = e[0].0;
        let id0 = reader::tail(k0, 1);
        let b1 = added_one(REC_VALIDATOR, k0, e[0].1, b);
        let f = e.skip(1);
        lemma_skip_lists(e, m);
        assert forall|i: int| 0 <= i < f.len() implies (#[trigger] f[i]).0.len() > 0 && f[i].0[0]
            == REC_VALIDATOR && ledger::record_ok(f[i].0, f[i].1) by {
            assert(f[i] == e[i + 1]);
        }
        assert forall|i: int| 0 <= i < f.len() implies !(records::whole(
            records::read_validator((#[trigger] f[i]).1),
        )->0).drained() by {
            assert(f[i] == e[i + 1]);
        }
        lemma_added_validators(f, m.remove(k0), b1);
        let now = added(REC_VALIDATOR, e, b).st;
        assert(records::key_of(REC_VALIDATOR, id0) =~= k0);
        assert(m.contains_key(k0) && m[k0] == e[0].1);
        assert forall|id: Seq<u8>| {
            let k = records::key_of(REC_VALIDATOR, id);
            &&& (#[trigger] now.validators.contains_key(id)) == (m.contains_key(k)
                || b.st.validators.contains_key(id))
            &&& now.validators.contains_key(id) ==> now.validators[id] == if m.contains_key(k) {
                records::whole(records::read_validator(m[k]))->0
            } else {
                b.st.validators[id]
            }
        } by {
            let k = records::key_of(REC_VALIDATOR, id);
            assert(now.validators.contains_key(id) == (m.remove(k0).contains_key(k)
                || b1.st.validators.contains_key(id)));
            if k == k0 {
                assert(id == id0);
            }
            if id == id0 {
                assert(k == k0);
            }
        }
    } else {
        assert forall|k: Seq<u8>| !m.contains_key(k) by {}
    }
}

proof fn lemma_added_nullifiers(e: Seq<(Seq<u8>, Seq<u8>)>, m: Map<Seq<u8>, Seq<u8>>, b: Built)
    requires
        lists(e, m),
        all_of(REC_NULLIFIER, e),
    ensures
        ({
            let now = added(REC_NULLIFIER, e, b).st;
            &&& now == (State { nullifiers: now.nullifiers, ..b.st })
            &&& forall|id: Seq<u8>| #[trigger]
                now.nullifiers.contains(id) == (m.contains_key(records::key_of(REC_NULLIFIER, id))
                    || b.st.nullifiers.contains(id))
        }),
    decreases e.len(),
{
    broadcast use records::lemma_key_of;

    if e.len() > 0 {
        let k0 = e[0].0;
        let id0 = reader::tail(k0, 1);
        let b1 = added_one(REC_NULLIFIER, k0, e[0].1, b);
        let f = e.skip(1);
        lemma_skip_lists(e, m);
        assert forall|i: int| 0 <= i < f.len() implies (#[trigger] f[i]).0.len() > 0 && f[i].0[0]
            == REC_NULLIFIER && ledger::record_ok(f[i].0, f[i].1) by {
            assert(f[i] == e[i + 1]);
        }
        lemma_added_nullifiers(f, m.remove(k0), b1);
        let now = added(REC_NULLIFIER, e, b).st;
        assert(records::key_of(REC_NULLIFIER, id0) =~= k0);
        assert(m.contains_key(k0));
        assert forall|id: Seq<u8>| #[trigger]
            now.nullifiers.contains(id) == (m.contains_key(records::key_of(REC_NULLIFIER, id))
                || b.st.nullifiers.contains(id)) by {
            let k = records::key_of(REC_NULLIFIER, id);
            assert(now.nullifiers.contains(id) == (m.remove(k0).contains_key(k)
                || b1.st.nullifiers.contains(id)));
            if k == k0 {
                assert(id == id0);
            }
            if id == id0 {
                assert(k == k0);
            }
        }
    } else {
        assert forall|k: Seq<u8>| !m.contains_key(k) by {}
    }
}

/// The key of a token's record.
spec fn tkey(id: u32) -> Seq<u8> {
    records::key_of(REC_TOKEN, bytes::be4(id))
}

/// A token by its record.
spec fn tok(m: Map<Seq<u8>, Seq<u8>>, id: u32) -> TokenView {
    records::whole(records::read_token(m[tkey(id)]))->0
}

/// Whether ticker `x` leads to the token `id`, which has that ticker.
spec fn leads(m: Map<Seq<u8>, Seq<u8>>, now: State, x: Seq<u8>, id: u32) -> bool {
    m.contains_key(tkey(id)) && tok(m, id).ticker == x && now.tickers[x] == id
}

proof fn lemma_added_tokens(e: Seq<(Seq<u8>, Seq<u8>)>, m: Map<Seq<u8>, Seq<u8>>, b: Built)
    requires
        lists(e, m),
        all_of(REC_TOKEN, e),
    ensures
        ({
            let now = added(REC_TOKEN, e, b).st;
            &&& now == (State { tokens: now.tokens, tickers: now.tickers, ..b.st })
            &&& forall|id: u32| {
                &&& (#[trigger] now.tokens.contains_key(id)) == (m.contains_key(tkey(id))
                    || b.st.tokens.contains_key(id))
                &&& now.tokens.contains_key(id) ==> now.tokens[id] == if m.contains_key(tkey(id)) {
                    tok(m, id)
                } else {
                    b.st.tokens[id]
                }
            }
            &&& forall|id: u32|
                m.contains_key(#[trigger] tkey(id)) ==> now.tickers.contains_key(tok(m, id).ticker)
            &&& forall|x: Seq<u8>| b.st.tickers.contains_key(x) ==> now.tickers.contains_key(x)
            &&& forall|x: Seq<u8>| #[trigger]
                now.tickers.contains_key(x) ==> (exists|id: u32| leads(m, now, x, id)) || (
                b.st.tickers.contains_key(x) && now.tickers[x] == b.st.tickers[x])
        }),
    decreases e.len(),
{
    broadcast use records::lemma_key_of;

    if e.len() > 0 {
        let k0 = e[0].0;
        let v0 = e[0].1;
        let t0 = records::whole(records::read_token(v0))->0;
        let b1 = added_one(REC_TOKEN, k0, v0, b);
        let f = e.skip(1);
        let n = m.remove(k0);
        lemma_skip_lists(e, m);
        assert(ledger::record_ok(k0, v0));
        assert(k0 == tkey(t0.id));
        assert forall|i: int| 0 <= i < f.len() implies (#[trigger] f[i]).0.len() > 0 && f[i].0[0]
            == REC_TOKEN && ledger::record_ok(f[i].0, f[i].1) by {
            assert(f[i] == e[i + 1]);
        }
        lemma_added_tokens(f, n, b1);
        let now = added(REC_TOKEN, e, b).st;
        assert(m.contains_key(k0) && m[k0] == v0);
        assert forall|id: u32| #[trigger] tkey(id) == k0 implies id == t0.id by {
            ledger::lemma_keys(REC_TOKEN, bytes::be4(id), REC_TOKEN, bytes::be4(t0.id));
            bytes::lemma_be4(id, t0.id);
        }
        assert forall|id: u32| {
            &&& (#[trigger] now.tokens.contains_key(id)) == (m.contains_key(tkey(id))
                || b.st.tokens.contains_key(id))
            &&& now.tokens.contains_key(id) ==> now.tokens[id] == if m.contains_key(tkey(id)) {
                tok(m, id)
            } else {
                b.st.tokens[id]
            }
        } by {
            assert(now.tokens.contains_key(id) == (n.contains_key(tkey(id))
                || b1.st.tokens.contains_key(id)));
        }
        assert forall|id: u32| m.contains_key(#[trigger] tkey(id)) implies now.tickers.contains_key(
            tok(m, id).ticker,
        ) by {
            if id == t0.id {
                assert(b1.st.tickers.contains_key(t0.ticker));
            } else {
                assert(n.contains_key(tkey(id)));
            }
        }
        assert forall|x: Seq<u8>| b.st.tickers.contains_key(x) implies now.tickers.contains_key(
            x,
        ) by {
            assert(b1.st.tickers.contains_key(x));
        }
        assert forall|x: Seq<u8>| #[trigger] now.tickers.contains_key(x) implies (exists|id: u32|
            leads(m, now, x, id)) || (b.st.tickers.contains_key(x) && now.tickers[x]
            == b.st.tickers[x]) by {
            if exists|id: u32| leads(n, now, x, id) {
                let id = choose|id: u32| leads(n, now, x, id);
                assert(leads(m, now, x, id));
            } else if x == t0.ticker {
                assert(leads(m, now, x, t0.id));
            }
        }
    } else {
        assert forall|k: Seq<u8>| !m.contains_key(k) by {}
    }
}

proof fn lemma_greatest_key(d: Set<Seq<u8>>) -> (a: Seq<u8>)
    requires
        d.finite(),
        d.len() > 0,
    ensures
        d.contains(a),
        forall|k: Seq<u8>| #[trigger] d.contains(k) ==> k == a || bytes::bytes_lt(k, a),
    decreases d.len(),
{
    let x = d.choose();
    if d.len() == 1 {
        assert forall|k: Seq<u8>| #[trigger] d.contains(k) implies k == x || bytes::bytes_lt(
            k,
            x,
        ) by {
            if k != x {
                assert(d.remove(x).contains(k));
                assert(d.remove(x).len() == 0);
            }
        }
        x
    } else {
        let y = lemma_greatest_key(d.remove(x));
        bytes::lemma_bytes_lt_total(x, y);
        let a = if bytes::bytes_lt(x, y) {
            y
        } else {
            x
        };
        assert forall|k: Seq<u8>| #[trigger] d.contains(k) implies k == a || bytes::bytes_lt(
            k,
            a,
        ) by {
            if k != x {
                assert(d.remove(x).contains(k));
                if a == x && k != y {
                    bytes::lemma_bytes_lt_trans(k, y, x);
                }
            }
        }
        a
    }
}

/// A finite map can be listed.
pub proof fn lemma_listed(m: Map<Seq<u8>, Seq<u8>>)
    requires
        m.dom().finite(),
    ensures
        lists(listing(m), m),
    decreases m.dom().len(),
{
    if m.dom().len() == 0 {
        let e = Seq::<(Seq<u8>, Seq<u8>)>::empty();
        assert forall|k: Seq<u8>| #[trigger] m.contains_key(k) implies false by {
            assert(m.dom().contains(k));
        }
        assert(lists(e, m));
    } else {
        let a = lemma_greatest_key(m.dom());
        let r = m.remove(a);
        lemma_listed(r);
        let h = listing(r);
        let e = h.push((a, m[a]));
        assert forall|i: int, j: int| 0 <= i < j < e.len() implies bytes::bytes_lt(
            #[trigger] e[i].0,
            #[trigger] e[j].0,
        ) by {
            if j == h.len() {
                assert(r.contains_key(h[i].0));
                assert(m.dom().contains(h[i].0));
            } else {
                assert(bytes::bytes_lt(h[i].0, h[j].0));
            }
        }
        assert forall|i: int| 0 <= i < e.len() implies m.contains_key((#[trigger] e[i]).0)
            && m[e[i].0] == e[i].1 by {
            if i < h.len() {
                assert(r.contains_key(h[i].0));
            }
        }
        assert forall|k: Seq<u8>| #[trigger] m.contains_key(k) implies exists|i: int|
            0 <= i < e.len() && (#[trigger] e[i]).0 == k by {
            if k == a {
                assert(e[h.len() as int].0 == k);
            } else {
                assert(r.contains_key(k));
                let i = choose|i: int| 0 <= i < h.len() && (#[trigger] h[i]).0 == k;
                assert(e[i].0 == k);
            }
        }
        assert(lists(e, m));
    }
}

pub proof fn lemma_kind_ready(o: Map<Seq<u8>, Seq<u8>>, tag: u8)
    requires
        ledger::records_ok(o),
        o.dom().finite(),
    ensures
        lists(listing(kind(o, tag)), kind(o, tag)),
        all_of(tag, listing(kind(o, tag))),
{
    assert(kind(o, tag).dom().subset_of(o.dom()));
    vstd::set_lib::lemma_set_subset_finite(o.dom(), kind(o, tag).dom());
    lemma_listed(kind(o, tag));
    let e = listing(kind(o, tag));
    assert forall|i: int| 0 <= i < e.len() implies (#[trigger] e[i]).0.len() > 0 && e[i].0[0] == tag
        && ledger::record_ok(e[i].0, e[i].1) by {
        assert(kind(o, tag).contains_key(e[i].0));
        lemma_kind(o, tag, e[i].0);
        assert(o.contains_key(e[i].0));
    }
}

/// Reading a snapshot back gives the state that was written, for every sound
/// state: one whose token registry is in order and that keeps no record of a
/// drained validator.
pub proof fn law_snapshot_restores(o: Map<Seq<u8>, Seq<u8>>, next_token: u32, zero: [u8; 64])
    requires
        ledger::records_ok(o),
        o.dom().finite(),
        countable(o),
        rules_laws::registry_sound(ledger::state_of(o, next_token, zero)),
        forall|id: Seq<u8>| #[trigger]
            ledger::state_of(o, next_token, zero).validators.contains_key(id)
                ==> !ledger::state_of(o, next_token, zero).validators[id].drained(),
    ensures
        parsed(snapshot(o, next_token), zero) is Some,
        (parsed(snapshot(o, next_token), zero)->0).st == ledger::state_of(o, next_token, zero),
{
    broadcast use {bytes::group_le, records::lemma_key_of};

    let st = ledger::state_of(o, next_token, zero);
    let b0 = unread(next_token, zero);
    let pa = part(o, REC_ACCOUNT);
    let pt = part(o, REC_TOKEN);
    let pc = part(o, REC_CONTRACT);
    let pn = part(o, REC_NULLIFIER);
    let pv = part(o, REC_VALIDATOR);
    let s = snapshot(o, next_token);
    assert(reader::head(s, 8) =~= magic());
    let s1 = reader::tail(s, 8);
    assert(reader::head(s1, 4) =~= bytes::le4(next_token));
    let s2 = reader::tail(s1, 4);
    assert(s2 =~= pa + (pt + (pc + (pn + pv))));
    lemma_kind_ready(o, REC_ACCOUNT);
    lemma_kind_ready(o, REC_TOKEN);
    lemma_kind_ready(o, REC_CONTRACT);
    lemma_kind_ready(o, REC_NULLIFIER);
    lemma_kind_ready(o, REC_VALIDATOR);
    let ka = kind(o, REC_ACCOUNT);
    let kt = kind(o, REC_TOKEN);
    let kc = kind(o, REC_CONTRACT);
    let kn = kind(o, REC_NULLIFIER);
    let kv = kind(o, REC_VALIDATOR);
    lemma_read_part(o, REC_ACCOUNT, pt + (pc + (pn + pv)), b0);
    let b1 = added(REC_ACCOUNT, listing(ka), b0);
    lemma_read_part(o, REC_TOKEN, pc + (pn + pv), b1);
    let b2 = added(REC_TOKEN, listing(kt), b1);
    lemma_read_part(o, REC_CONTRACT, pn + pv, b2);
    let b3 = added(REC_CONTRACT, listing(kc), b2);
    lemma_read_part(o, REC_NULLIFIER, pv, b3);
    let b4 = added(REC_NULLIFIER, listing(kn), b3);
    assert(pv + Seq::<u8>::empty() =~= pv);
    lemma_read_part(o, REC_VALIDATOR, Seq::empty(), b4);
    let b5 = added(REC_VALIDATOR, listing(kv), b4);
    lemma_added_accounts(listing(ka), ka, b0);
    lemma_added_tokens(listing(kt), kt, b1);
    lemma_added_contracts(listing(kc), kc, b2);
    lemma_added_nullifiers(listing(kn), kn, b3);
    let ev = listing(kv);
    assert forall|i: int| 0 <= i < ev.len() implies !(records::whole(
        records::read_validator((#[trigger] ev[i]).1),
    )->0).drained() by {
        let k = ev[i].0;
        assert(kv.contains_key(k));
        lemma_kind(o, REC_VALIDATOR, k);
        assert(st.validators.contains_key(reader::tail(k, 1)));
    }
    lemma_added_validators(ev, kv, b4);
    let now = b5.st;
    assert forall|id: Seq<u8>| {
        &&& (#[trigger] now.accounts.dom().contains(id)) == st.accounts.dom().contains(id)
        &&& now.accounts.dom().contains(id) ==> now.accounts[id] == st.accounts[id]
    } by {
        lemma_kind(o, REC_ACCOUNT, records::key_of(REC_ACCOUNT, id));
        assert(b1.st.accounts.contains_key(id) == ka.contains_key(
            records::key_of(REC_ACCOUNT, id),
        ));
    }
    assert(now.accounts =~= st.accounts);
    assert forall|id: Seq<u8>| {
        &&& (#[trigger] now.contracts.dom().contains(id)) == st.contracts.dom().contains(id)
        &&& now.contracts.dom().contains(id) ==> now.contracts[id] == st.contracts[id]
    } by {
        lemma_kind(o, REC_CONTRACT, records::key_of(REC_CONTRACT, id));
        assert(b3.st.contracts.contains_key(id) == kc.contains_key(
            records::key_of(REC_CONTRACT, id),
        ));
    }
    assert(now.contracts =~= st.contracts);
    assert forall|id: Seq<u8>| #[trigger]
        now.nullifiers.contains(id) == st.nullifiers.contains(id) by {
        lemma_kind(o, REC_NULLIFIER, records::key_of(REC_NULLIFIER, id));
        assert(b4.st.nullifiers.contains(id) == kn.contains_key(
            records::key_of(REC_NULLIFIER, id),
        ));
    }
    assert(now.nullifiers =~= st.nullifiers);
    assert forall|id: Seq<u8>| {
        &&& (#[trigger] now.validators.dom().contains(id)) == st.validators.dom().contains(id)
        &&& now.validators.dom().contains(id) ==> now.validators[id] == st.validators[id]
    } by {
        lemma_kind(o, REC_VALIDATOR, records::key_of(REC_VALIDATOR, id));
        assert(now.validators.contains_key(id) == kv.contains_key(
            records::key_of(REC_VALIDATOR, id),
        ));
    }
    assert(now.validators =~= st.validators);
    assert forall|id: u32| {
        &&& (#[trigger] now.tokens.dom().contains(id)) == st.tokens.dom().contains(id)
        &&& now.tokens.dom().contains(id) ==> now.tokens[id] == st.tokens[id]
    } by {
        lemma_kind(o, REC_TOKEN, tkey(id));
        assert(b2.st.tokens.contains_key(id) == kt.contains_key(tkey(id)));
    }
    assert(now.tokens =~= st.tokens);
    assert forall|x: Seq<u8>| {
        &&& (#[trigger] now.tickers.dom().contains(x)) == st.tickers.dom().contains(x)
        &&& now.tickers.dom().contains(x) ==> now.tickers[x] == st.tickers[x]
    } by {
        if b2.st.tickers.contains_key(x) {
            let id = choose|id: u32| leads(kt, b2.st, x, id);
            lemma_kind(o, REC_TOKEN, tkey(id));
            assert(st.tokens.contains_key(id) && st.tokens[id].ticker == x);
        }
        if st.tickers.contains_key(x) {
            let id = st.tickers[x];
            assert(st.tokens.contains_key(id));
            lemma_kind(o, REC_TOKEN, tkey(id));
            assert(kt.contains_key(tkey(id)));
            assert(b2.st.tickers.contains_key(tok(kt, id).ticker));
        }
    }
    assert(now.tickers =~= st.tickers);
    assert(now =~= st);
}

} // verus!
