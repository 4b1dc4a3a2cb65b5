//! The registry of known peers.
//!
//! A registry is a list of peers in the order in which they were first
//! registered, with no endpoint in it twice. It has no clock of its own:
//! every operation that records or judges time is told what time it is, as
//! a count of seconds that the caller takes from a clock that does not run
//! backwards. The registry records the instants it is given and compares
//! them with each other, nothing more.

use vstd::prelude::*;

use crate::addr::PeerAddr;

pub mod discovery;
pub mod heartbeats;

verus! {

/// One remote node: where it is, what it calls itself, and when it was last
/// heard from.
#[derive(Debug, PartialEq, Eq)]
pub struct Peer {
    pub addr: PeerAddr,
    pub display_name: String,
    pub last_seen: u64,
}

/// What a `Peer` holds, as plain values.
pub struct PeerView {
    pub addr: PeerAddr,
    pub display_name: Seq<char>,
    pub last_seen: u64,
}

impl View for Peer {
    type V = PeerView;

    open spec fn view(&self) -> PeerView {
        PeerView { addr: self.addr, display_name: self.display_name@, last_seen: self.last_seen }
    }
}

impl Clone for Peer {
    fn clone(&self) -> (r: Peer)
        ensures
            r@ == self@,
    {
        Peer {
            addr: self.addr,
            display_name: self.display_name.clone(),
            last_seen: self.last_seen,
        }
    }
}

/// The views of a list of peers, in the same order.
pub open spec fn peer_views(peers: Seq<Peer>) -> Seq<PeerView> {
    peers.map_values(|p: Peer| p@)
}

/// No endpoint occurs twice.
pub open spec fn distinct_addrs(s: Seq<PeerView>) -> bool {
    forall|i: int, j: int| 0 <= i < j < s.len() ==> (#[trigger] s[i]).addr != (#[trigger] s[j]).addr
}

/// `addr` is registered.
pub open spec fn knows(s: Seq<PeerView>, addr: PeerAddr) -> bool {
    exists|i: int| 0 <= i < s.len() && (#[trigger] s[i]).addr == addr
}

/// A position at which `addr` is registered (the position, where no endpoint
/// occurs twice).
pub open spec fn slot(s: Seq<PeerView>, addr: PeerAddr) -> int {
    choose|i: int| 0 <= i < s.len() && (#[trigger] s[i]).addr == addr
}

/// What is recorded for `addr`.
pub open spec fn lookup(s: Seq<PeerView>, addr: PeerAddr) -> Option<PeerView> {
    if knows(s, addr) {
        Some(s[slot(s, addr)])
    } else {
        None
    }
}

/// The registry after `addr` was heard from at `now` under the name
/// `display_name`: its entry is replaced where it has one, and added at the
/// end where it has none.
pub open spec fn registered(
    s: Seq<PeerView>,
    addr: PeerAddr,
    display_name: Seq<char>,
    now: u64,
) -> Seq<PeerView> {
    let entry = PeerView { addr, display_name, last_seen: now };
    if knows(s, addr) {
        s.update(slot(s, addr), entry)
    } else {
        s.push(entry)
    }
}

/// The registry after `addr` was seen at `now` without a name: a known peer
/// is refreshed, an unknown one is not added.
pub open spec fn touched(s: Seq<PeerView>, addr: PeerAddr, now: u64) -> Seq<PeerView> {
    if knows(s, addr) {
        let i = slot(s, addr);
        s.update(i, PeerView { last_seen: now, ..s[i] })
    } else {
        s
    }
}

/// At `now`, the peer was last heard from more than `ttl` ago.
pub open spec fn is_stale(p: PeerView, now: u64, ttl: u64) -> bool {
    now - p.last_seen > ttl
}

/// The registry without the peers that are stale at `now`.
pub open spec fn pruned(s: Seq<PeerView>, now: u64, ttl: u64) -> Seq<PeerView> {
    s.filter(|p: PeerView| !is_stale(p, now, ttl))
}

/// The table of known peers.
pub struct PeerList {
    peers: Vec<Peer>,
}

impl View for PeerList {
    type V = Seq<PeerView>;

    closed spec fn view(&self) -> Seq<PeerView> {
        peer_views(self.peers@)
    }
}

impl PeerList {
    /// No endpoint is registered twice.
    #[verifier::type_invariant]
    pub open spec fn well_formed(self) -> bool {
        distinct_addrs(self@)
    }

    /// An empty registry.
    pub fn new() -> (r: PeerList)
        ensures
            r@ == Seq::<PeerView>::empty(),
    {
        let r = PeerList { peers: Vec::new() };
        assert(r@ =~= Seq::<PeerView>::empty());
        r
    }

    /// The number of registered peers.
    pub fn len(&self) -> (n: usize)
        ensures
            n == self@.len(),
    {
        self.peers.len()
    }

    /// Whether no peer is registered.
    pub fn is_empty(&self) -> (b: bool)
        ensures
            b == (self@.len() == 0),
    {
        self.peers.len() == 0
    }

    /// Whether `addr` is registered.
    pub fn contains(&self, addr: &PeerAddr) -> (b: bool)
        ensures
            b == knows(self@, *addr),
    {
        self.find(addr).is_some()
    }

    /// A copy of what is recorded for `addr`.
    pub fn get(&self, addr: &PeerAddr) -> (r: Option<Peer>)
        ensures
            match r {
                Some(p) => lookup(self@, *addr) == Some(p@),
                None => lookup(self@, *addr) is None,
            },
    {
        match self.find(addr) {
            Some(i) => Some(self.peers[i].clone()),
            None => None,
        }
    }

    /// The position of `addr`, where it is registered.
    fn find(&self, addr: &PeerAddr) -> (r: Option<usize>)
        ensures
            r is Some <==> knows(self@, *addr),
            r matches Some(i) ==> i < self.peers.len() && i == slot(self@, *addr),
    {
        proof {
            use_type_invariant(self);
        }
        let mut i: usize = 0;
        while i < self.peers.len()
            invariant
                i <= self.peers.len(),
                distinct_addrs(self@),
                forall|k: int| 0 <= k < i ==> (#[trigger] self@[k]).addr != *addr,
            decreases self.peers.len() - i,
        {
            if self.peers[i].addr == *addr {
                proof {
                    let k = slot(self@, *addr);
                    assert(self@[i as int].addr == *addr);
                    assert(self@[k].addr == *addr);
                }
                return Some(i);
            }
            i = i + 1;
        }
        None
    }

    /// Records that `addr` was heard from at `now` under the name
    /// `display_name`.
    pub fn add_or_update_peer(&mut self, addr: PeerAddr, display_name: String, now: u64)
        ensures
            final(self)@ == registered(old(self)@, addr, display_name@, now),
            distinct_addrs(final(self)@),
    {
        proof {
            use_type_invariant(&*self);
        }
        let found = self.find(&addr);
        let entry = Peer { addr, display_name, last_seen: now };
        let mut peers: Vec<Peer> = Vec::new();
        core::mem::swap(&mut self.peers, &mut peers);
        match found {
            Some(i) => {
                peers.set(i, entry);
            },
            None => {
                peers.push(entry);
            },
        }
        assert(peer_views(peers@) =~= registered(old(self)@, addr, display_name@, now));
        self.peers = peers;
    }

    /// Records that `addr` was seen at `now`, if it is registered, and says
    /// whether it is. An endpoint that is not registered is not added.
    pub fn update_last_seen(&mut self, addr: &PeerAddr, now: u64) -> (known: bool)
        ensures
            known == knows(old(self)@, *addr),
            final(self)@ == touched(old(self)@, *addr, now),
            distinct_addrs(final(self)@),
    {
        proof {
            use_type_invariant(&*self);
        }
        match self.find(addr) {
            Some(i) => {
                let mut peers: Vec<Peer> = Vec::new();
                core::mem::swap(&mut self.peers, &mut peers);
                let entry = Peer {
                    addr: peers[i].addr,
                    display_name: peers[i].display_name.clone(),
                    last_seen: now,
                };
                peers.set(i, entry);
                assert(peer_views(peers@) =~= touched(old(self)@, *addr, now));
                self.peers = peers;
                true
            },
            None => false,
        }
    }

    /// A copy of the peers, in the order of the registry.
    pub fn get_peers(&self) -> (r: Vec<Peer>)
        ensures
            peer_views(r@) == self@,
            distinct_addrs(self@),
    {
        proof {
            use_type_invariant(self);
        }
        let mut r: Vec<Peer> = Vec::new();
        let mut i: usize = 0;
        while i < self.peers.len()
            invariant
                i <= self.peers.len(),
                peer_views(r@) == self@.take(i as int),
            decreases self.peers.len() - i,
        {
            let ghost before = peer_views(r@);
            let p = self.peers[i].clone();
            assert(p@ == self@[i as int]);
            r.push(p);
            assert(peer_views(r@) =~= before.push(p@));
            assert(peer_views(r@) =~= self@.take(i + 1));
            i = i + 1;
        }
        assert(self@.take(i as int) =~= self@);
        r
    }

    /// Removes the peers that are stale at `now`: those last heard from more
    /// than `ttl` before `now`.
    pub fn prune_stale(&mut self, now: u64, ttl: u64)
        ensures
            final(self)@ == pruned(old(self)@, now, ttl),
            distinct_addrs(final(self)@),
    {
        proof {
            use_type_invariant(&*self);
        }
        let mut peers: Vec<Peer> = Vec::new();
        core::mem::swap(&mut self.peers, &mut peers);
        let ghost before = peer_views(peers@);
        let ghost fresh = |p: PeerView| !is_stale(p, now, ttl);
        let mut kept: Vec<Peer> = Vec::new();
        let mut i: usize = 0;
        proof {
            reveal(Seq::filter);
            assert(before.take(0).filter(fresh) =~= Seq::<PeerView>::empty());
        }
        while i < peers.len()
            invariant
                i <= peers.len(),
                before == peer_views(peers@),
                fresh == (|p: PeerView| !is_stale(p, now, ttl)),
                peer_views(kept@) == before.take(i as int).filter(fresh),
            decreases peers.len() - i,
        {
            let p = &peers[i];
            proof {
                reveal(Seq::filter);
                assert(before.take(i + 1).drop_last() =~= before.take(i as int));
                assert(before.take(i + 1).last() == p@);
            }
            if !(now > p.last_seen && now - p.last_seen > ttl) {
                kept.push(p.clone());
                assert(peer_views(kept@) =~= before.take(i as int).filter(fresh).push(p@));
            }
            i = i + 1;
        }
        proof {
            assert(before.take(i as int) =~= before);
            lemma_pruned_distinct(before, now, ttl);
        }
        self.peers = kept;
    }
}

/// The position in `s` from which the entry at position `i` of its filtered
/// form comes.
spec fn source(s: Seq<PeerView>, pred: spec_fn(PeerView) -> bool, i: int) -> int
    decreases s.len(),
{
    if s.len() == 0 {
        0
    } else if i < s.drop_last().filter(pred).len() {
        source(s.drop_last(), pred, i)
    } else {
        s.len() - 1
    }
}

/// Filtering keeps the order: each kept entry meets `pred` and comes from a
/// position of its own in `s`, later ones from later positions.
proof fn lemma_filter_source(s: Seq<PeerView>, pred: spec_fn(PeerView) -> bool, i: int, j: int)
    requires
        0 <= i <= j < s.filter(pred).len(),
    ensures
        0 <= source(s, pred, i) <= source(s, pred, j) < s.len(),
        i < j ==> source(s, pred, i) < source(s, pred, j),
        s[source(s, pred, i)] == s.filter(pred)[i],
        s[source(s, pred, j)] == s.filter(pred)[j],
        pred(s.filter(pred)[i]),
    decreases s.len(),
{
    reveal(Seq::filter);
    if s.len() > 0 {
        let rest = s.drop_last();
        let g = rest.filter(pred);
        if j < g.len() {
            lemma_filter_source(rest, pred, i, j);
        } else if i < g.len() {
            lemma_filter_source(rest, pred, i, i);
        }
    }
}

/// Filtering keeps every entry that meets `pred`: the result is a position
/// of the filtered form that holds the entry at position `a` of `s`.
proof fn lemma_filter_keeps(s: Seq<PeerView>, pred: spec_fn(PeerView) -> bool, a: int) -> (k: int)
    requires
        0 <= a < s.len(),
        pred(s[a]),
    ensures
        0 <= k < s.filter(pred).len(),
        s.filter(pred)[k] == s[a],
    decreases s.len(),
{
    reveal(Seq::filter);
    let rest = s.drop_last();
    if a < rest.len() {
        lemma_filter_keeps(rest, pred, a)
    } else {
        s.filter(pred).len() - 1
    }
}

/// Pruning leaves no endpoint twice where none was twice before.
pub proof fn lemma_pruned_distinct(s: Seq<PeerView>, now: u64, ttl: u64)
    requires
        distinct_addrs(s),
    ensures
        distinct_addrs(pruned(s, now, ttl)),
{
    let pred = |p: PeerView| !is_stale(p, now, ttl);
    let f = s.filter(pred);
    assert forall|i: int, j: int| 0 <= i < j < f.len() implies (#[trigger] f[i]).addr != (
    #[trigger] f[j]).addr by {
        lemma_filter_source(s, pred, i, j);
        assert(s[source(s, pred, i)].addr != s[source(s, pred, j)].addr);
    }
}

/// Where no endpoint occurs twice, an endpoint is found at the one position
/// that holds it.
pub proof fn lemma_slot(s: Seq<PeerView>, addr: PeerAddr, i: int)
    requires
        distinct_addrs(s),
        0 <= i < s.len(),
        s[i].addr == addr,
    ensures
        knows(s, addr),
        slot(s, addr) == i,
        lookup(s, addr) == Some(s[i]),
{
    let k = slot(s, addr);
    assert(s[k].addr == addr);
}

/// Registering keeps every endpoint in the registry once, records for
/// `addr` exactly what was given, and leaves what is recorded for every
/// other endpoint as it was.
pub proof fn lemma_registered(
    s: Seq<PeerView>,
    addr: PeerAddr,
    display_name: Seq<char>,
    now: u64,
    other: PeerAddr,
)
    requires
        distinct_addrs(s),
    ensures
        distinct_addrs(registered(s, addr, display_name, now)),
        lookup(registered(s, addr, display_name, now), addr) == Some(
            PeerView { addr, display_name, last_seen: now },
        ),
        other != addr ==> lookup(registered(s, addr, display_name, now), other) == lookup(s, other),
        registered(s, addr, display_name, now).len() == if knows(s, addr) {
            s.len()
        } else {
            s.len() + 1
        },
{
    let after = registered(s, addr, display_name, now);
    let at: int = if knows(s, addr) {
        slot(s, addr)
    } else {
        s.len() as int
    };
    assert(after[at].addr == addr);
    assert forall|i: int, j: int| 0 <= i < j < after.len() implies (#[trigger] after[i]).addr != (
    #[trigger] after[j]).addr by {
        if i != at && j != at {
            assert(after[i] == s[i] && after[j] == s[j]);
        } else if i == at {
            if knows(s, addr) {
                assert(after[j] == s[j] && s[i].addr == addr);
            }
        } else {
            assert(after[i] == s[i]);
            if knows(s, addr) {
                assert(s[j].addr == addr);
            }
        }
    }
    lemma_slot(after, addr, at);
    if other != addr {
        if knows(s, other) {
            let k = slot(s, other);
            assert(after[k] == s[k]);
            lemma_slot(after, other, k);
        }
        if knows(after, other) {
            let k = slot(after, other);
            assert(after[k].addr == other);
            assert(s[k] == after[k]);
            lemma_slot(s, other, k);
        }
    }
}

/// Refreshing changes the instant recorded for `addr`, where it is
/// registered, and nothing else: no entry comes or goes, and what is
/// recorded for every other endpoint stays as it was.
pub proof fn lemma_touched(s: Seq<PeerView>, addr: PeerAddr, now: u64, other: PeerAddr)
    requires
        distinct_addrs(s),
    ensures
        distinct_addrs(touched(s, addr, now)),
        touched(s, addr, now).len() == s.len(),
        knows(touched(s, addr, now), other) == knows(s, other),
        lookup(touched(s, addr, now), addr) == match lookup(s, addr) {
            Some(p) => Some(PeerView { last_seen: now, ..p }),
            None => None,
        },
        other != addr ==> lookup(touched(s, addr, now), other) == lookup(s, other),
{
    let after = touched(s, addr, now);
    if knows(s, addr) {
        let at = slot(s, addr);
        assert(s[at].addr == addr);
        assert(after == registered(s, addr, s[at].display_name, now));
        lemma_registered(s, addr, s[at].display_name, now, other);
    }
}

/// Registering the same endpoint under the same name twice in a row leaves
/// one entry for it, which holds that name and the second instant; the
/// registry is as if only the second registration had happened.
pub proof fn lemma_register_twice(
    s: Seq<PeerView>,
    addr: PeerAddr,
    display_name: Seq<char>,
    first: u64,
    second: u64,
)
    requires
        distinct_addrs(s),
    ensures
        ({
            let twice = registered(
                registered(s, addr, display_name, first),
                addr,
                display_name,
                second,
            );
            &&& twice == registered(s, addr, display_name, second)
            &&& distinct_addrs(twice)
            &&& lookup(twice, addr) == Some(PeerView { addr, display_name, last_seen: second })
            &&& forall|i: int, j: int|
                0 <= i < twice.len() && 0 <= j < twice.len() && (#[trigger] twice[i]).addr == addr
                    && (#[trigger] twice[j]).addr == addr ==> i == j
        }),
{
    let once = registered(s, addr, display_name, first);
    let twice = registered(once, addr, display_name, second);
    lemma_registered(s, addr, display_name, first, addr);
    lemma_registered(once, addr, display_name, second, addr);
    lemma_registered(s, addr, display_name, second, addr);
    let at: int = if knows(s, addr) {
        slot(s, addr)
    } else {
        s.len() as int
    };
    assert(once[at].addr == addr);
    lemma_slot(once, addr, at);
    assert(twice =~= registered(s, addr, display_name, second));
}

/// An endpoint is unknown to an empty registry, and refreshing it there
/// registers nothing. Once it has been registered it is known, and stays
/// known however often any endpoint is refreshed or registered.
pub proof fn lemma_new_or_known(
    s: Seq<PeerView>,
    addr: PeerAddr,
    display_name: Seq<char>,
    now: u64,
    other: PeerAddr,
)
    requires
        distinct_addrs(s),
    ensures
        !knows(Seq::<PeerView>::empty(), addr),
        touched(Seq::<PeerView>::empty(), addr, now) == Seq::<PeerView>::empty(),
        knows(registered(s, addr, display_name, now), addr),
        knows(s, addr) ==> knows(touched(s, other, now), addr),
        knows(s, addr) ==> knows(registered(s, other, display_name, now), addr),
{
    lemma_registered(s, addr, display_name, now, addr);
    lemma_touched(s, other, now, addr);
    lemma_registered(s, other, display_name, now, addr);
}

/// Pruning keeps the entries that are not stale, each as it was, and drops
/// the others.
pub proof fn lemma_pruned(s: Seq<PeerView>, now: u64, ttl: u64, addr: PeerAddr)
    requires
        distinct_addrs(s),
    ensures
        distinct_addrs(pruned(s, now, ttl)),
        lookup(pruned(s, now, ttl), addr) == match lookup(s, addr) {
            Some(p) => if is_stale(p, now, ttl) {
                None
            } else {
                Some(p)
            },
            None => None,
        },
{
    let pred = |p: PeerView| !is_stale(p, now, ttl);
    let f = pruned(s, now, ttl);
    lemma_pruned_distinct(s, now, ttl);
    if knows(f, addr) {
        let k = slot(f, addr);
        assert(f[k].addr == addr);
        lemma_filter_source(s, pred, k, k);
        lemma_slot(s, addr, source(s, pred, k));
    }
    if knows(s, addr) {
        let a = slot(s, addr);
        assert(s[a].addr == addr);
        if pred(s[a]) {
            let k = lemma_filter_keeps(s, pred, a);
            lemma_slot(f, addr, k);
        }
    }
}

/// What is recorded as the last time a peer was heard from never moves
/// back while the clock does not: after a registration or a refreshing at
/// an instant that is not before it, it is not earlier than it was.
pub proof fn lemma_last_seen_moves_on(
    s: Seq<PeerView>,
    addr: PeerAddr,
    display_name: Seq<char>,
    now: u64,
    other: PeerAddr,
)
    requires
        distinct_addrs(s),
        lookup(s, other) is Some,
        lookup(s, other)->0.last_seen <= now,
    ensures
        lookup(registered(s, addr, display_name, now), other) is Some,
        lookup(registered(s, addr, display_name, now), other)->0.last_seen >= lookup(
            s,
            other,
        )->0.last_seen,
        lookup(touched(s, addr, now), other) is Some,
        lookup(touched(s, addr, now), other)->0.last_seen >= lookup(s, other)->0.last_seen,
{
    lemma_registered(s, addr, display_name, now, other);
    lemma_touched(s, addr, now, other);
}

} // verus!
