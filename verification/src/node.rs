//! A node's peers and its pool of finality votes.

use vstd::prelude::*;
use vstd::string::*;
use vstd::utf8::*;

use crate::bytes;
use crate::bytes::{before, same_hash, same_str};
use crate::text;
use crate::text::trim_str;
use crate::wire::{MAX_PEERS, MAX_PEER_ADDR_LEN};

verus! {

/// Version of the peer protocol. Nodes refuse to peer across a mismatch.
pub const PROTOCOL_VERSION: u32 = 3;

/// Consecutive contact failures before a peer is forgotten.
pub const MAX_PEER_FAILURES: u32 = 5;

/// Most inbound connections that are handled at a time.
pub const MAX_INBOUND_CONNS: usize = 128;

/// Whether one more inbound connection is handled.
pub fn admits(open_connections: usize) -> (r: bool)
    ensures
        r == (open_connections < MAX_INBOUND_CONNS),
{
    open_connections < MAX_INBOUND_CONNS
}

/// A known peer and its recent contact health.
pub struct Peer {
    pub addr: String,
    /// Consecutive failed contacts.
    pub failures: u32,
}

/// A peer's address and failure count.
pub ghost struct PeerView {
    pub addr: Seq<char>,
    pub failures: u32,
}

/// A finality vote: `validator` vouches for a block at a height.
#[derive(Clone, Copy, Debug, PartialEq, Eq)]
pub struct Vote {
    pub height: u64,
    pub block_id: [u8; 32],
    pub validator: [u8; 32],
    pub sig: [u8; 64],
}

/// A node's own state beside the chain: the account its mined blocks pay, the
/// peers it knows and the votes it has pooled.
pub struct NodeState {
    /// All zeroes: rewards are not claimed.
    pub miner: [u8; 32],
    pub peers: Vec<Peer>,
    /// The node's own address, if known: never recorded as a peer.
    pub self_addr: Option<String>,
    pub votes: Vec<Vote>,
}

/// Whether a peer with this address is kept.
pub open spec fn knows(peers: Seq<PeerView>, addr: Seq<char>) -> bool {
    exists|i: int| 0 <= i < peers.len() && (#[trigger] peers[i]).addr == addr
}

/// The peers without the one at `addr`.
pub open spec fn forgotten(peers: Seq<PeerView>, addr: Seq<char>) -> Seq<PeerView> {
    peers.filter(|p: PeerView| p.addr != addr)
}

/// The peers with the failure count of the one at `addr` set.
pub open spec fn counted(peers: Seq<PeerView>, addr: Seq<char>, n: u32) -> Seq<PeerView> {
    peers.map_values(
        |p: PeerView|
            if p.addr == addr {
                PeerView { addr: p.addr, failures: n }
            } else {
                p
            },
    )
}

/// The failure count of the peer at `addr`.
pub open spec fn failures_of(peers: Seq<PeerView>, addr: Seq<char>) -> u32 {
    peers[choose|i: int| 0 <= i < peers.len() && (#[trigger] peers[i]).addr == addr].failures
}

/// Whether `addr` is one that a node with these peers and this address of its
/// own records: not empty, not too long, not its own, not known yet, and the
/// list not full.
pub open spec fn recordable(
    peers: Seq<PeerView>,
    own: Option<Seq<char>>,
    addr: Seq<char>,
) -> bool {
    &&& addr.len() > 0
    &&& encode_utf8(addr).len() <= MAX_PEER_ADDR_LEN
    &&& own != Some(addr)
    &&& peers.len() < MAX_PEERS
    &&& !knows(peers, addr)
}

/// The addresses of peers.
pub open spec fn addresses(peers: Seq<PeerView>) -> Seq<Seq<char>> {
    peers.map_values(|p: PeerView| p.addr)
}

/// The peers after each line of a list was offered.
pub open spec fn offered(
    peers: Seq<PeerView>,
    own: Option<Seq<char>>,
    lines: Seq<Seq<char>>,
    n: nat,
) -> Seq<PeerView>
    decreases n,
{
    if n == 0 {
        peers
    } else {
        let before = offered(peers, own, lines, (n - 1) as nat);
        let addr = text::trimmed(lines[n - 1]);
        if recordable(before, own, addr) {
            before.push(PeerView { addr, failures: 0 })
        } else {
            before
        }
    }
}

/// What always holds of the peers: no address twice, none empty, too long or with
/// white space around it, not more than the list may hold, and each still given
/// a chance.
pub open spec fn good_peers(peers: Seq<PeerView>) -> bool {
    &&& peers.len() <= MAX_PEERS
    &&& forall|i: int| 0 <= i < peers.len() ==> good_peer(#[trigger] peers[i])
    &&& forall|i: int, j: int|
        0 <= i < j < peers.len() ==> (#[trigger] peers[i]).addr != (#[trigger] peers[j]).addr
}

pub open spec fn good_peer(p: PeerView) -> bool {
    &&& p.addr.len() > 0
    &&& text::trimmed(p.addr) == p.addr
    &&& encode_utf8(p.addr).len() <= MAX_PEER_ADDR_LEN
    &&& p.failures < MAX_PEER_FAILURES
}

/// What always holds of the votes: no validator has two for one block.
pub open spec fn good_votes(votes: Seq<Vote>) -> bool {
    forall|i: int, j: int|
        0 <= i < j < votes.len() ==> !same_seat(#[trigger] votes[i], #[trigger] votes[j])
}

impl NodeState {
    /// The peers, oldest first.
    pub open spec fn known(&self) -> Seq<PeerView> {
        self.peers@.map_values(|p: Peer| PeerView { addr: p.addr@, failures: p.failures })
    }

    /// The address the node goes by, if it is known.
    pub open spec fn own(&self) -> Option<Seq<char>> {
        match self.self_addr {
            Some(s) => Some(s@),
            None => None,
        }
    }

    /// The pooled votes, oldest first.
    pub open spec fn pool(&self) -> Seq<Vote> {
        self.votes@
    }

    /// What always holds of the peers and the votes.
    pub open spec fn wf(&self) -> bool {
        good_peers(self.known()) && good_votes(self.pool())
    }

    /// A node that knows no peers.
    pub fn new() -> (r: Self)
        ensures
            r.wf(),
            r.known() == Seq::<PeerView>::empty(),
            r.own() is None,
            r.pool() == Seq::<Vote>::empty(),
            forall|i: int| 0 <= i < 32 ==> #[trigger] r.miner@[i] == 0,
    {
        let r = NodeState {
            miner: [0u8; 32],
            peers: Vec::new(),
            self_addr: None,
            votes: Vec::new(),
        };
        assert(r.known() =~= Seq::empty());
        r
    }

    /// Like [`new`](Self::new), but mined blocks pay `miner`.
    pub fn with_miner(miner: [u8; 32]) -> (r: Self)
        ensures
            r.wf(),
            r.known() == Seq::<PeerView>::empty(),
            r.own() is None,
            r.pool() == Seq::<Vote>::empty(),
            r.miner == miner,
    {
        let mut r = NodeState::new();
        r.miner = miner;
        r
    }

    /// Record the node's own address, so it is never added as a peer.
    pub fn set_self_addr(&mut self, addr: &str)
        requires
            old(self).wf(),
        ensures
            final(self).wf(),
            final(self).own() == Some(text::trimmed(addr@)),
            final(self).known() == old(self).known(),
            final(self).pool() == old(self).pool(),
            final(self).miner == old(self).miner,
    {
        self.self_addr = Some(trim_str(addr).to_owned());
    }

    fn find(&self, addr: &str) -> (r: Option<usize>)
        ensures
            match r {
                Some(i) => i < self.known().len() && self.known()[i as int].addr == addr@,
                None => !knows(self.known(), addr@),
            },
    {
        let mut i: usize = 0;
        while i < self.peers.len()
            invariant
                i <= self.peers@.len(),
                forall|j: int| 0 <= j < i ==> (#[trigger] self.known()[j]).addr != addr@,
            decreases self.peers@.len() - i,
        {
            assert(self.known()[i as int].addr == self.peers@[i as int].addr@);
            if same_str(self.peers[i].addr.as_str(), addr) {
                return Some(i);
            }
            i += 1;
        }
        None
    }

    /// Record a peer address. Returns whether it was newly added.
    pub fn add_peer(&mut self, addr: &str) -> (added: bool)
        requires
            old(self).wf(),
        ensures
            final(self).wf(),
            added == recordable(old(self).known(), old(self).own(), text::trimmed(addr@)),
            added ==> final(self).known() == old(self).known().push(
                PeerView { addr: text::trimmed(addr@), failures: 0 },
            ),
            !added ==> final(self).known() == old(self).known(),
            final(self).own() == old(self).own(),
            final(self).pool() == old(self).pool(),
            final(self).miner == old(self).miner,
    {
        let a = trim_str(addr);
        if a.is_empty() {
            return false;
        }
        if a.as_bytes().len() > MAX_PEER_ADDR_LEN {
            return false;
        }
        if let Some(own) = &self.self_addr {
            if same_str(own.as_str(), a) {
                return false;
            }
        }
        if self.peers.len() >= MAX_PEERS {
            return false;
        }
        if self.find(a).is_some() {
            return false;
        }
        let ghost had = self.known();
        self.peers.push(Peer { addr: a.to_owned(), failures: 0 });
        proof {
            let now = self.known();
            assert(now =~= had.push(PeerView { addr: a@, failures: 0 }));
            text::lemma_trimmed_twice(addr@);
            assert forall|i: int, j: int| 0 <= i < j < now.len() implies (
            #[trigger] now[i]).addr != (#[trigger] now[j]).addr by {
                if j < had.len() {
                    assert(had[i].addr != had[j].addr);
                } else {
                    assert(had[i].addr != a@);
                }
            }
            assert forall|i: int| 0 <= i < now.len() implies good_peer(#[trigger] now[i]) by {
                if i < had.len() {
                    assert(good_peer(had[i]));
                }
            }
        }
        true
    }

    /// Forget a peer. Returns whether it was known.
    pub fn remove_peer(&mut self, addr: &str) -> (removed: bool)
        requires
            old(self).wf(),
        ensures
            final(self).wf(),
            removed == knows(old(self).known(), addr@),
            final(self).known() == forgotten(old(self).known(), addr@),
            final(self).own() == old(self).own(),
            final(self).pool() == old(self).pool(),
            final(self).miner == old(self).miner,
    {
        match self.find(addr) {
            None => {
                proof {
                    lemma_forget_stranger(self.known(), addr@);
                }
                false
            },
            Some(i) => {
                let ghost had = self.known();
                self.peers.remove(i);
                proof {
                    assert(self.known() =~= had.remove(i as int));
                    lemma_forget_one(had, i as int);
                    lemma_remove_keeps(had, i as int);
                }
                true
            },
        }
    }

    /// Mark a successful contact, clearing the peer's failure count.
    pub fn record_peer_ok(&mut self, addr: &str)
        requires
            old(self).wf(),
        ensures
            final(self).wf(),
            final(self).known() == counted(old(self).known(), addr@, 0),
            final(self).own() == old(self).own(),
            final(self).pool() == old(self).pool(),
            final(self).miner == old(self).miner,
    {
        match self.find(addr) {
            None => {
                assert(self.known() =~= counted(self.known(), addr@, 0));
            },
            Some(i) => {
                self.set_failures(i, 0);
            },
        }
    }

    fn set_failures(&mut self, i: usize, n: u32)
        requires
            old(self).wf(),
            i < old(self).known().len(),
            n < MAX_PEER_FAILURES,
        ensures
            final(self).wf(),
            final(self).known() == counted(old(self).known(), old(self).known()[i as int].addr, n),
            final(self).own() == old(self).own(),
            final(self).pool() == old(self).pool(),
            final(self).miner == old(self).miner,
    {
        let ghost had = self.known();
        let addr = self.peers[i].addr.clone();
        self.peers[i] = Peer { addr, failures: n };
        proof {
            let now = self.known();
            let a = had[i as int].addr;
            assert forall|j: int| 0 <= j < had.len() implies #[trigger] now[j] == counted(
                had,
                a,
                n,
            )[j] by {
                if j < i {
                    assert(had[j].addr != had[i as int].addr);
                } else if j > i {
                    assert(had[i as int].addr != had[j].addr);
                }
            }
            assert(now =~= counted(had, a, n));
            assert forall|x: int, y: int| 0 <= x < y < now.len() implies (
            #[trigger] now[x]).addr != (#[trigger] now[y]).addr by {
                assert(had[x].addr != had[y].addr);
            }
            assert forall|x: int| 0 <= x < now.len() implies good_peer(#[trigger] now[x]) by {
                assert(good_peer(had[x]));
            }
        }
    }

    /// Mark a failed contact. A peer that failed too often in a row is forgotten.
    /// Returns whether that happened.
    pub fn record_peer_failure(&mut self, addr: &str) -> (evicted: bool)
        requires
            old(self).wf(),
        ensures
            final(self).wf(),
            evicted == (knows(old(self).known(), addr@) && failures_of(old(self).known(), addr@) + 1
                >= MAX_PEER_FAILURES),
            evicted ==> final(self).known() == forgotten(old(self).known(), addr@),
            !evicted ==> final(self).known() == counted(
                old(self).known(),
                addr@,
                (failures_of(old(self).known(), addr@) + 1) as u32,
            ),
            final(self).own() == old(self).own(),
            final(self).pool() == old(self).pool(),
            final(self).miner == old(self).miner,
    {
        match self.find(addr) {
            None => {
                proof {
                    let n = (failures_of(self.known(), addr@) + 1) as u32;
                    assert(self.known() =~= counted(self.known(), addr@, n));
                }
                false
            },
            Some(i) => {
                proof {
                    lemma_failures(self.known(), i as int);
                }
                let n: u32 = self.peers[i].failures + 1;
                if n >= MAX_PEER_FAILURES {
                    let gone = self.remove_peer(addr);
                    return true;
                }
                self.set_failures(i, n);
                false
            },
        }
    }

    /// The addresses of the known peers, oldest first.
    pub fn peers(&self) -> (r: Vec<String>)
        ensures
            r@.len() == self.known().len(),
            forall|i: int| 0 <= i < r@.len() ==> (#[trigger] r@[i])@ == self.known()[i].addr,
    {
        let mut r: Vec<String> = Vec::new();
        let mut i: usize = 0;
        while i < self.peers.len()
            invariant
                i <= self.peers@.len(),
                r@.len() == i,
                forall|j: int| 0 <= j < i ==> (#[trigger] r@[j])@ == self.known()[j].addr,
            decreases self.peers@.len() - i,
        {
            r.push(self.peers[i].addr.clone());
            i += 1;
        }
        r
    }

    /// The list of the known peers' addresses, one to a line, as it is kept across
    /// restarts.
    pub fn peer_list(&self) -> (r: String)
        ensures
            r@ == text::joined_lines(addresses(self.known())),
    {
        let mut r = String::new();
        let mut i: usize = 0;
        let ghost all = addresses(self.known());
        assert(all.take(0) =~= Seq::empty());
        while i < self.peers.len()
            invariant
                i <= self.peers@.len(),
                all == addresses(self.known()),
                r@ == text::joined_lines(all.take(i as int)),
            decreases self.peers@.len() - i,
        {
            let ghost had = all.take(i as int);
            assert(all.take(i + 1) =~= had.push(self.peers@[i as int].addr@));
            if i > 0 {
                r.append("\n");
                proof {
                    reveal_strlit("\n");
                    assert("\n"@ =~= seq!['\n']);
                    text::lemma_joined_push(had, self.peers@[i as int].addr@);
                }
            }
            r.append(self.peers[i].addr.as_str());
            proof {
                if i == 0 {
                    assert(r@ =~= self.peers@[0].addr@);
                }
            }
            i += 1;
        }
        assert(all.take(all.len() as int) =~= all);
        r
    }

    /// Add each address of such a list, as [`add_peer`](Self::add_peer) would.
    /// Returns how many were newly added.
    pub fn load_peer_list(&mut self, body: &str) -> (n: usize)
        requires
            old(self).wf(),
        ensures
            final(self).wf(),
            final(self).known() == offered(
                old(self).known(),
                old(self).own(),
                text::lines(body@),
                text::lines(body@).len(),
            ),
            n == final(self).known().len() - old(self).known().len(),
            final(self).own() == old(self).own(),
            final(self).pool() == old(self).pool(),
            final(self).miner == old(self).miner,
    {
        let list = text::lines_of(body);
        let ghost all = text::lines(body@);
        let ghost start = self.known();
        let mut n: usize = 0;
        let mut i: usize = 0;
        while i < list.len()
            invariant
                i <= list@.len(),
                all == text::lines(body@),
                list@.map_values(|l: String| l@) == all,
                self.wf(),
                self.own() == old(self).own(),
                self.pool() == old(self).pool(),
                self.miner == old(self).miner,
                self.known() == offered(start, old(self).own(), all, i as nat),
                n == self.known().len() - start.len(),
            decreases list@.len() - i,
        {
            assert(all[i as int] == list@[i as int]@);
            if self.add_peer(list[i].as_str()) {
                n += 1;
            }
            i += 1;
        }
        assert(all.len() == list@.len());
        n
    }

    /// How many peers are known.
    pub fn peer_count(&self) -> (n: usize)
        ensures
            n == self.known().len(),
    {
        self.peers.len()
    }
}

proof fn lemma_forget_stranger(peers: Seq<PeerView>, addr: Seq<char>)
    requires
        !knows(peers, addr),
    ensures
        forgotten(peers, addr) == peers,
    decreases peers.len(),
{
    reveal(Seq::filter);
    if peers.len() > 0 {
        let front = peers.drop_last();
        assert forall|i: int| 0 <= i < front.len() implies (#[trigger] front[i]).addr != addr by {
            assert(peers[i].addr != addr);
        }
        assert(peers.last().addr != addr) by {
            assert(peers[peers.len() - 1].addr != addr);
        }
        lemma_forget_stranger(front, addr);
        assert(forgotten(peers, addr) =~= front.push(peers.last()));
        assert(front.push(peers.last()) =~= peers);
    }
}

proof fn lemma_forget_one(peers: Seq<PeerView>, i: int)
    requires
        0 <= i < peers.len(),
        forall|x: int, y: int|
            0 <= x < y < peers.len() ==> (#[trigger] peers[x]).addr != (#[trigger] peers[y]).addr,
    ensures
        forgotten(peers, peers[i].addr) == peers.remove(i),
    decreases peers.len(),
{
    reveal(Seq::filter);
    let addr = peers[i].addr;
    let front = peers.drop_last();
    if i == peers.len() - 1 {
        assert forall|x: int| 0 <= x < front.len() implies (#[trigger] front[x]).addr != addr by {
            assert(peers[x].addr != peers[i].addr);
        }
        lemma_forget_stranger(front, addr);
        assert(forgotten(peers, addr) =~= forgotten(front, addr));
        assert(peers.remove(i) =~= front);
    } else {
        assert(front[i] == peers[i]);
        lemma_forget_one(front, i);
        assert(peers[i].addr != peers[peers.len() - 1].addr);
        assert(forgotten(peers, addr) =~= front.remove(i).push(peers.last()));
        assert(peers.remove(i) =~= front.remove(i).push(peers.last()));
    }
}

proof fn lemma_remove_keeps(had: Seq<PeerView>, i: int)
    requires
        0 <= i < had.len(),
        had.len() <= MAX_PEERS,
        forall|x: int|
            0 <= x < had.len() ==> good_peer(#[trigger] had[x]),
        forall|x: int, y: int|
            0 <= x < y < had.len() ==> (#[trigger] had[x]).addr != (#[trigger] had[y]).addr,
    ensures
        ({
            let now = had.remove(i);
            &&& forall|x: int|
                0 <= x < now.len() ==> good_peer(#[trigger] now[x])
            &&& forall|x: int, y: int|
                0 <= x < y < now.len() ==> (#[trigger] now[x]).addr != (#[trigger] now[y]).addr
        }),
{
    let now = had.remove(i);
    assert forall|x: int, y: int| 0 <= x < y < now.len() implies (#[trigger] now[x]).addr != (
    #[trigger] now[y]).addr by {
        let p = if x < i {
            x
        } else {
            x + 1
        };
        let q = if y < i {
            y
        } else {
            y + 1
        };
        assert(had[p].addr != had[q].addr);
    }
    assert forall|x: int| 0 <= x < now.len() implies good_peer(#[trigger] now[x]) by {
        let p = if x < i {
            x
        } else {
            x + 1
        };
        assert(good_peer(had[p]));
    }
}

proof fn lemma_failures(peers: Seq<PeerView>, i: int)
    requires
        0 <= i < peers.len(),
        forall|x: int, y: int|
            0 <= x < y < peers.len() ==> (#[trigger] peers[x]).addr != (#[trigger] peers[y]).addr,
    ensures
        knows(peers, peers[i].addr),
        failures_of(peers, peers[i].addr) == peers[i].failures,
{
    let j = choose|j: int| 0 <= j < peers.len() && (#[trigger] peers[j]).addr == peers[i].addr;
    assert(peers[i].addr == peers[i].addr);
    if j < i {
        assert(peers[j].addr != peers[i].addr);
    } else if i < j {
        assert(peers[i].addr != peers[j].addr);
    }
}

/// Whether two votes are the same validator's for the same block.
pub open spec fn same_seat(a: Vote, b: Vote) -> bool {
    a.height == b.height && a.block_id@ == b.block_id@ && a.validator@ == b.validator@
}

/// A node without an address of its own that loads the list which a node kept
/// knows the same peers, all with a clean record. Addresses with a line feed in
/// them do not survive the list.
pub proof fn law_peer_list_restores(peers: Seq<PeerView>)
    requires
        good_peers(peers),
        forall|i: int| 0 <= i < peers.len() ==> !(#[trigger] peers[i]).addr.contains('\n'),
    ensures
        ({
            let list = text::lines(text::joined_lines(addresses(peers)));
            offered(Seq::empty(), None, list, list.len()) == peers.map_values(
                |p: PeerView| PeerView { addr: p.addr, failures: 0 },
            )
        }),
{
    let all = addresses(peers);
    assert forall|i: int| 0 <= i < all.len() implies text::plain_line(#[trigger] all[i]) by {
        assert(good_peer(peers[i]));
        assert(all[i] == peers[i].addr);
    }
    text::lemma_lines_of_joined(all);
    lemma_offered(peers, peers.len());
}

proof fn lemma_offered(peers: Seq<PeerView>, n: nat)
    requires
        good_peers(peers),
        n <= peers.len(),
    ensures
        offered(Seq::empty(), None, addresses(peers), n) == peers.take(n as int).map_values(
            |p: PeerView| PeerView { addr: p.addr, failures: 0 },
        ),
    decreases n,
{
    let clean = |p: PeerView| PeerView { addr: p.addr, failures: 0 };
    let now = offered(Seq::empty(), None, addresses(peers), n);
    if n == 0 {
        assert(now =~= peers.take(0).map_values(clean));
    } else {
        lemma_offered(peers, (n - 1) as nat);
        let had = offered(Seq::empty(), None, addresses(peers), (n - 1) as nat);
        let a = peers[n - 1].addr;
        assert(good_peer(peers[n - 1]));
        assert(addresses(peers)[n - 1] == a);
        assert forall|i: int| 0 <= i < had.len() implies (#[trigger] had[i]).addr != a by {
            assert(peers[i].addr != peers[n - 1].addr);
        }
        assert(recordable(had, None, a));
        assert(now =~= peers.take(n as int).map_values(clean));
    }
    assert(n == peers.len() ==> peers.take(n as int) =~= peers);
}

// --- finality votes -------------------------------------------------------------

/// What came of a vote.
pub enum Pooling {
    /// It is not counted: too old, for a block that is not on the active chain,
    /// by someone outside the validator set, badly signed, or counted before.
    Refused,
    /// It is counted.
    Pooled,
    /// It is counted, and the votes for the block hold more than two thirds of
    /// the stake. They are listed in the order of the validators' ids.
    Quorum(Vec<([u8; 32], [u8; 64])>),
}

/// Whether a validator's vote for a block is pooled.
pub open spec fn seated(pool: Seq<Vote>, height: u64, block: Seq<u8>, validator: Seq<u8>) -> bool {
    exists|i: int|
        0 <= i < pool.len() && (#[trigger] pool[i]).height == height && pool[i].block_id@ == block
            && pool[i].validator@ == validator
}

/// Whether `id` is in a validator set.
pub open spec fn member(set: Seq<([u8; 32], u64)>, id: Seq<u8>) -> bool {
    exists|i: int| 0 <= i < set.len() && (#[trigger] set[i]).0@ == id
}

/// The stake in a validator set of those that `who` picks.
pub open spec fn stake_of(set: Seq<([u8; 32], u64)>, who: spec_fn(Seq<u8>) -> bool) -> int
    decreases set.len(),
{
    if set.len() == 0 {
        0
    } else {
        stake_of(set.drop_last(), who) + (if who(set.last().0@) {
            set.last().1 as int
        } else {
            0
        })
    }
}

/// The stake behind a block.
pub open spec fn voted(
    set: Seq<([u8; 32], u64)>,
    pool: Seq<Vote>,
    height: u64,
    block: Seq<u8>,
) -> int {
    stake_of(set, |id: Seq<u8>| seated(pool, height, block, id))
}

/// The stake of a whole validator set.
pub open spec fn total(set: Seq<([u8; 32], u64)>) -> int {
    stake_of(set, |id: Seq<u8>| true)
}

/// Whether the pooled votes for a block hold more than two thirds of the stake.
pub open spec fn quorum(
    set: Seq<([u8; 32], u64)>,
    pool: Seq<Vote>,
    height: u64,
    block: Seq<u8>,
) -> bool {
    3 * voted(set, pool, height, block) > 2 * total(set)
}

/// Whether a vote counts: above the finalized height, for the block that is
/// active at its height, signed, by a member of that block's validator set, and
/// not counted yet.
pub open spec fn admissible(
    pool: Seq<Vote>,
    vote: Vote,
    finalized: Option<u64>,
    active: Option<[u8; 32]>,
    set: Option<Seq<([u8; 32], u64)>>,
    signed: bool,
) -> bool {
    &&& finalized is Some ==> vote.height > finalized->0
    &&& active is Some && active->0@ == vote.block_id@
    &&& set is Some && member(set->0, vote.validator@)
    &&& signed
    &&& !seated(pool, vote.height, vote.block_id@, vote.validator@)
}

/// Whether `r` lists the pooled votes for a block, each once, in the order of
/// the validators' ids.
pub open spec fn ballot(
    r: Seq<([u8; 32], [u8; 64])>,
    pool: Seq<Vote>,
    height: u64,
    block: Seq<u8>,
) -> bool {
    &&& forall|i: int, j: int|
        0 <= i < j < r.len() ==> bytes::bytes_lt((#[trigger] r[i]).0@, (#[trigger] r[j]).0@)
    &&& forall|i: int| 0 <= i < r.len() ==> cast(pool, height, block, #[trigger] r[i])
    &&& forall|i: int|
        0 <= i < pool.len() && (#[trigger] pool[i]).height == height && pool[i].block_id@ == block
            ==> r.contains((pool[i].validator, pool[i].sig))
}

/// Whether a validator's signature for a block is pooled.
pub open spec fn cast(
    pool: Seq<Vote>,
    height: u64,
    block: Seq<u8>,
    b: ([u8; 32], [u8; 64]),
) -> bool {
    exists|i: int|
        0 <= i < pool.len() && (#[trigger] pool[i]).height == height && pool[i].block_id@ == block
            && pool[i].validator == b.0 && pool[i].sig == b.1
}

impl NodeState {
    fn is_seated(&self, height: u64, block: &[u8; 32], validator: &[u8; 32]) -> (r: bool)
        ensures
            r == seated(self.pool(), height, block@, validator@),
    {
        let mut i: usize = 0;
        while i < self.votes.len()
            invariant
                i <= self.votes@.len(),
                forall|j: int|
                    0 <= j < i ==> !((#[trigger] self.pool()[j]).height == height
                        && self.pool()[j].block_id@ == block@ && self.pool()[j].validator@
                        == validator@),
            decreases self.votes@.len() - i,
        {
            let v = &self.votes[i];
            if v.height == height && same_hash(&v.block_id, block) && same_hash(
                &v.validator,
                validator,
            ) {
                assert(self.pool()[i as int].height == height);
                return true;
            }
            i += 1;
        }
        false
    }

    /// Pool a finality vote. The caller says, of the chain, the finalized height,
    /// the active block at the vote's height and its validator set, and whether
    /// the vote's signature holds.
    pub fn add_vote(
        &mut self,
        vote: &Vote,
        finalized: Option<u64>,
        active: Option<[u8; 32]>,
        set: &Option<Vec<([u8; 32], u64)>>,
        signed: bool,
    ) -> (r: Pooling)
        requires
            old(self).wf(),
            set is Some ==> set->0@.len() <= u32::MAX,
        ensures
            final(self).wf(),
            final(self).known() == old(self).known(),
            final(self).own() == old(self).own(),
            final(self).miner == old(self).miner,
            ({
                let s = match *set {
                    Some(v) => Some(v@),
                    None => None,
                };
                let counts = admissible(old(self).pool(), *vote, finalized, active, s, signed);
                let h = vote.height;
                let b = vote.block_id@;
                &&& final(self).pool() == if counts {
                    old(self).pool().push(*vote)
                } else {
                    old(self).pool()
                }
                &&& match r {
                    Pooling::Refused => !counts,
                    Pooling::Pooled => counts && !quorum(s->0, final(self).pool(), h, b),
                    Pooling::Quorum(v) => counts && quorum(s->0, final(self).pool(), h, b)
                        && ballot(v@, final(self).pool(), h, b),
                }
            }),
    {
        if let Some(fh) = finalized {
            if vote.height <= fh {
                return Pooling::Refused;
            }
        }
        match active {
            None => {
                return Pooling::Refused;
            },
            Some(id) => {
                if !same_hash(&id, &vote.block_id) {
                    return Pooling::Refused;
                }
            },
        }
        let validators = match set {
            None => {
                return Pooling::Refused;
            },
            Some(v) => v,
        };
        if !is_member(validators, &vote.validator) || !signed {
            return Pooling::Refused;
        }
        if self.is_seated(vote.height, &vote.block_id, &vote.validator) {
            return Pooling::Refused;
        }
        let ghost had = self.pool();
        self.votes.push(*vote);
        proof {
            assert(self.pool() =~= had.push(*vote));
            assert forall|i: int, j: int| 0 <= i < j < self.pool().len() implies !same_seat(
                #[trigger] self.pool()[i],
                #[trigger] self.pool()[j],
            ) by {
                if j < had.len() {
                    assert(!same_seat(had[i], had[j]));
                } else {
                    assert(had[i] == self.pool()[i]);
                }
            }
        }
        let (all, behind) = self.tally(validators, vote.height, &vote.block_id);
        if 3 * behind > 2 * all {
            return Pooling::Quorum(self.ballot_for(vote.height, &vote.block_id));
        }
        Pooling::Pooled
    }

    fn tally(&self, set: &Vec<([u8; 32], u64)>, height: u64, block: &[u8; 32]) -> (r: (u128, u128))
        requires
            set@.len() <= u32::MAX,
        ensures
            r.0 == total(set@),
            r.1 == voted(set@, self.pool(), height, block@),
            r.0 <= 0xFFFF_FFFF * 0xFFFF_FFFF_FFFF_FFFF,
            r.1 <= r.0,
    {
        let mut all: u128 = 0;
        let mut behind: u128 = 0;
        let mut i: usize = 0;
        while i < set.len()
            invariant
                i <= set@.len() <= u32::MAX,
                all == total(set@.take(i as int)),
                behind == voted(set@.take(i as int), self.pool(), height, block@),
                behind <= all <= i * 0xFFFF_FFFF_FFFF_FFFF,
            decreases set@.len() - i,
        {
            proof {
                let now = set@.take(i + 1);
                assert(now.drop_last() =~= set@.take(i as int));
                assert(now.last() == set@[i as int]);
            }
            assert((i + 1) * 0xFFFF_FFFF_FFFF_FFFF == i * 0xFFFF_FFFF_FFFF_FFFF
                + 0xFFFF_FFFF_FFFF_FFFF) by (nonlinear_arith);
            assert(i * 0xFFFF_FFFF_FFFF_FFFF <= 0xFFFF_FFFF * 0xFFFF_FFFF_FFFF_FFFF)
                by (nonlinear_arith)
                requires
                    i <= 0xFFFF_FFFF,
            ;
            let s: u128 = set[i].1 as u128;
            all = all + s;
            if self.is_seated(height, block, &set[i].0) {
                behind = behind + s;
            }
            i += 1;
        }
        assert(set@.take(set@.len() as int) =~= set@);
        assert(i * 0xFFFF_FFFF_FFFF_FFFF <= 0xFFFF_FFFF * 0xFFFF_FFFF_FFFF_FFFF)
            by (nonlinear_arith)
            requires
                i <= 0xFFFF_FFFF,
        ;
        (all, behind)
    }

    fn ballot_for(&self, height: u64, block: &[u8; 32]) -> (r: Vec<([u8; 32], [u8; 64])>)
        requires
            good_votes(self.pool()),
        ensures
            ballot(r@, self.pool(), height, block@),
    {
        let mut r: Vec<([u8; 32], [u8; 64])> = Vec::new();
        let mut i: usize = 0;
        assert(self.pool().take(0) =~= Seq::empty());
        while i < self.votes.len()
            invariant
                i <= self.votes@.len(),
                good_votes(self.pool()),
                ballot(r@, self.pool().take(i as int), height, block@),
            decreases self.votes@.len() - i,
        {
            let ghost had = self.pool().take(i as int);
            let ghost now = self.pool().take(i + 1);
            let v = self.votes[i];
            assert(now =~= had.push(v));
            if v.height == height && same_hash(&v.block_id, block) {
                let ghost before_r = r@;
                proof {
                    assert forall|j: int| 0 <= j < before_r.len() implies (
                    #[trigger] before_r[j]).0@ != v.validator@ by {
                        assert(cast(had, height, block@, before_r[j]));
                        let k = choose|k: int|
                            0 <= k < had.len() && (#[trigger] had[k]).height == height
                                && had[k].block_id@ == block@ && had[k].validator == before_r[j].0
                                && had[k].sig == before_r[j].1;
                        assert(self.pool()[k] == had[k]);
                        assert(!same_seat(self.pool()[k], self.pool()[i as int]));
                    }
                }
                insert_ballot(&mut r, (v.validator, v.sig));
                proof {
                    lemma_ballot_grows(before_r, r@, had, v, height, block@);
                }
            } else {
                proof {
                    lemma_ballot_same(r@, had, v, height, block@);
                }
            }
            i += 1;
        }
        assert(self.pool().take(self.pool().len() as int) =~= self.pool());
        r
    }

    /// Forget the votes for blocks up to a height that has been finalized.
    pub fn forget_votes(&mut self, height: u64)
        requires
            old(self).wf(),
        ensures
            final(self).wf(),
            final(self).pool() == old(self).pool().filter(|v: Vote| v.height > height),
            forall|v: Vote| #[trigger]
                final(self).pool().contains(v) <==> old(self).pool().contains(v) && height
                    < v.height,
            final(self).known() == old(self).known(),
            final(self).own() == old(self).own(),
            final(self).miner == old(self).miner,
    {
        let ghost had = self.pool();
        let ghost keep = |v: Vote| v.height > height;
        let mut kept: Vec<Vote> = Vec::new();
        let mut i: usize = 0;
        assert(had.take(0) =~= Seq::empty());
        proof {
            reveal(Seq::filter);
        }
        while i < self.votes.len()
            invariant
                i <= self.votes@.len(),
                had == self.pool(),
                good_votes(had),
                keep == (|v: Vote| v.height > height),
                kept@ == had.take(i as int).filter(keep),
                good_votes(kept@),
                forall|j: int| 0 <= j < kept@.len()
                    ==> had.take(i as int).contains(#[trigger] kept@[j]),
            decreases self.votes@.len() - i,
        {
            let v = self.votes[i];
            let ghost before = had.take(i as int);
            let ghost now = had.take(i + 1);
            let ghost was = kept@;
            proof {
                reveal(Seq::filter);
                assert(now =~= before.push(v));
                assert(now.drop_last() =~= before);
            }
            if v.height > height {
                kept.push(v);
            }
            proof {
                assert forall|j: int| 0 <= j < kept@.len() implies now.contains(
                    #[trigger] kept@[j],
                ) by {
                    if j < was.len() {
                        assert(before.contains(was[j]));
                        let k = choose|k: int| 0 <= k < before.len() && before[k] == was[j];
                        assert(now[k] == was[j]);
                    } else {
                        assert(now[i as int] == v);
                    }
                }
                assert forall|x: int, y: int| 0 <= x < y < kept@.len() implies !same_seat(
                    #[trigger] kept@[x],
                    #[trigger] kept@[y],
                ) by {
                    if y < was.len() {
                        assert(!same_seat(was[x], was[y]));
                    } else {
                        assert(before.contains(was[x]));
                        let k = choose|k: int| 0 <= k < before.len() && before[k] == was[x];
                        assert(had[k] == was[x]);
                        assert(!same_seat(had[k], had[i as int]));
                    }
                }
            }
            i += 1;
        }
        assert(had.take(had.len() as int) =~= had);
        self.votes = kept;
    }
}

fn is_member(set: &Vec<([u8; 32], u64)>, id: &[u8; 32]) -> (r: bool)
    ensures
        r == member(set@, id@),
{
    let mut i: usize = 0;
    while i < set.len()
        invariant
            i <= set@.len(),
            forall|j: int| 0 <= j < i ==> (#[trigger] set@[j]).0@ != id@,
        decreases set@.len() - i,
    {
        if same_hash(&set[i].0, id) {
            assert(set@[i as int].0@ == id@);
            return true;
        }
        i += 1;
    }
    false
}

/// Put a ballot in its place among ballots in the order of their ids.
fn insert_ballot(r: &mut Vec<([u8; 32], [u8; 64])>, b: ([u8; 32], [u8; 64]))
    requires
        forall|i: int, j: int|
            0 <= i < j < old(r)@.len() ==> bytes::bytes_lt(
                (#[trigger] old(r)@[i]).0@,
                (#[trigger] old(r)@[j]).0@,
            ),
        forall|i: int| 0 <= i < old(r)@.len() ==> (#[trigger] old(r)@[i]).0@ != b.0@,
    ensures
        forall|i: int, j: int|
            0 <= i < j < final(r)@.len() ==> bytes::bytes_lt(
                (#[trigger] final(r)@[i]).0@,
                (#[trigger] final(r)@[j]).0@,
            ),
        exists|k: int| 0 <= k <= old(r)@.len() && #[trigger] old(r)@.insert(k, b) == final(r)@,
{
    let ghost had = r@;
    let mut k: usize = 0;
    while k < r.len() && before(r[k].0.as_slice(), b.0.as_slice())
        invariant
            r@ == had,
            k <= had.len(),
            forall|j: int| 0 <= j < k ==> bytes::bytes_lt((#[trigger] had[j]).0@, b.0@),
        decreases had.len() - k,
    {
        k += 1;
    }
    r.insert(k, b);
    proof {
        let now = had.insert(k as int, b);
        assert(r@ =~= now);
        assert forall|i: int, j: int| 0 <= i < j < now.len() implies bytes::bytes_lt(
            (#[trigger] now[i]).0@,
            (#[trigger] now[j]).0@,
        ) by {
            if j < k {
                assert(bytes::bytes_lt(had[i].0@, had[j].0@));
            } else if j == k {
                assert(bytes::bytes_lt(had[i].0@, b.0@));
            } else {
                let y = j - 1;
                assert(had[k as int].0@ != b.0@);
                bytes::lemma_bytes_lt_total(had[k as int].0@, b.0@);
                if k < y {
                    assert(bytes::bytes_lt(had[k as int].0@, had[y].0@));
                    bytes::lemma_bytes_lt_trans(b.0@, had[k as int].0@, had[y].0@);
                }
                if i < k {
                    assert(bytes::bytes_lt(had[i].0@, had[y].0@));
                } else if i > k {
                    assert(bytes::bytes_lt(had[i - 1].0@, had[y].0@));
                }
            }
        }
    }
}

proof fn lemma_ballot_grows(
    r: Seq<([u8; 32], [u8; 64])>,
    now: Seq<([u8; 32], [u8; 64])>,
    pool: Seq<Vote>,
    v: Vote,
    height: u64,
    block: Seq<u8>,
)
    requires
        ballot(r, pool, height, block),
        v.height == height,
        v.block_id@ == block,
        exists|k: int| 0 <= k <= r.len() && #[trigger] r.insert(k, (v.validator, v.sig)) == now,
        forall|i: int, j: int|
            0 <= i < j < now.len()
                ==> bytes::bytes_lt((#[trigger] now[i]).0@, (#[trigger] now[j]).0@),
    ensures
        ballot(now, pool.push(v), height, block),
{
    let b = (v.validator, v.sig);
    let k = choose|k: int| 0 <= k <= r.len() && #[trigger] r.insert(k, b) == now;
    let p = pool.push(v);
    assert(p[pool.len() as int] == v);
    assert forall|i: int| 0 <= i < now.len() implies cast(p, height, block, #[trigger] now[i]) by {
        if i != k {
            let x = if i < k {
                i
            } else {
                i - 1
            };
            assert(now[i] == r[x]);
            assert(cast(pool, height, block, r[x]));
            let m = choose|m: int|
                0 <= m < pool.len() && (#[trigger] pool[m]).height == height && pool[m].block_id@
                    == block && pool[m].validator == r[x].0 && pool[m].sig == r[x].1;
            assert(p[m] == pool[m]);
        }
    }
    assert forall|i: int|
        0 <= i < p.len() && (#[trigger] p[i]).height == height && p[i].block_id@
            == block implies now.contains((p[i].validator, p[i].sig)) by {
        if i < pool.len() {
            assert(pool[i] == p[i]);
            assert(r.contains((pool[i].validator, pool[i].sig)));
            let x = choose|x: int| 0 <= x < r.len() && r[x] == (pool[i].validator, pool[i].sig);
            if x < k {
                assert(now[x] == r[x]);
            } else {
                assert(now[x + 1] == r[x]);
            }
        } else {
            assert(now[k] == b);
        }
    }
}

proof fn lemma_ballot_same(
    r: Seq<([u8; 32], [u8; 64])>,
    pool: Seq<Vote>,
    v: Vote,
    height: u64,
    block: Seq<u8>,
)
    requires
        ballot(r, pool, height, block),
        v.height != height || v.block_id@ != block,
    ensures
        ballot(r, pool.push(v), height, block),
{
    let p = pool.push(v);
    assert forall|i: int| 0 <= i < r.len() implies cast(p, height, block, #[trigger] r[i]) by {
        assert(cast(pool, height, block, r[i]));
        let m = choose|m: int|
            0 <= m < pool.len() && (#[trigger] pool[m]).height == height && pool[m].block_id@
                == block && pool[m].validator == r[i].0 && pool[m].sig == r[i].1;
        assert(p[m] == pool[m]);
    }
    assert forall|i: int|
        0 <= i < p.len() && (#[trigger] p[i]).height == height && p[i].block_id@
            == block implies r.contains((p[i].validator, p[i].sig)) by {
        assert(i < pool.len());
        assert(pool[i] == p[i]);
    }
}

proof fn lemma_stake_both(
    set: Seq<([u8; 32], u64)>,
    a: spec_fn(Seq<u8>) -> bool,
    b: spec_fn(Seq<u8>) -> bool,
)
    ensures
        stake_of(set, a) + stake_of(set, b) <= stake_of(set, |id: Seq<u8>| a(id) && b(id)) + total(
            set,
        ),
    decreases set.len(),
{
    if set.len() > 0 {
        lemma_stake_both(set.drop_last(), a, b);
    }
}

/// Two quorums of one validator set share validators with more than a third of
/// its stake: two blocks cannot both be finalized unless that much stake votes
/// for both.
pub proof fn law_quorums_overlap(
    set: Seq<([u8; 32], u64)>,
    pool: Seq<Vote>,
    height: u64,
    block: Seq<u8>,
    other_height: u64,
    other: Seq<u8>,
)
    requires
        quorum(set, pool, height, block),
        quorum(set, pool, other_height, other),
    ensures
        3 * stake_of(
            set,
            |id: Seq<u8>|
                seated(pool, height, block, id) && seated(pool, other_height, other, id),
        ) > total(set),
{
    let a = |id: Seq<u8>| seated(pool, height, block, id);
    let b = |id: Seq<u8>| seated(pool, other_height, other, id);
    lemma_stake_both(set, a, b);
    assert((|id: Seq<u8>| a(id) && b(id)) =~= (|id: Seq<u8>|
        seated(pool, height, block, id) && seated(pool, other_height, other, id)));
}

/// A vote that was counted is refused when it comes again.
pub proof fn law_vote_counts_once(
    pool: Seq<Vote>,
    vote: Vote,
    again: Vote,
    finalized: Option<u64>,
    active: Option<[u8; 32]>,
    set: Option<Seq<([u8; 32], u64)>>,
    signed: bool,
)
    requires
        same_seat(vote, again),
    ensures
        !admissible(pool.push(vote), again, finalized, active, set, signed),
{
    assert(pool.push(vote)[pool.len() as int] == vote);
}

} // verus!
