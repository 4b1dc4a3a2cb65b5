//! The discovery rounds: announcing this node, answering announcements, and
//! following up on the peers that others tell of.
//!
//! Nothing here sends anything. Each function says which datagrams are to be
//! sent, in which order, and leaves the registry as it is once they were
//! decided on; the caller does the sending.

use vstd::prelude::*;

use crate::addr::{lemma_parse_text_of, parse_text, text_of, PeerAddr};
use crate::message::{string_views, Message, MessageView};
use crate::net::{outbound_views, Outbound, OutboundView};
use crate::peer::{
    distinct_addrs, knows, lemma_registered, lemma_touched, lookup, peer_views, registered, touched,
    PeerList, PeerView,
};

verus! {

/// Seconds between two announcements.
pub const DISCOVERY_INTERVAL: u64 = 30;

/// The endpoint that reaches every node of the segment that listens on `port`.
pub open spec fn broadcast_addr(port: u16) -> PeerAddr {
    PeerAddr { a: 255, b: 255, c: 255, d: 255, port }
}

/// The announcement of the node `local` under the name `name`.
pub open spec fn discovery_of(name: Seq<char>, local: PeerAddr) -> MessageView {
    MessageView::Discovery { sender_name: name, sender_addr: text_of(local) }
}

/// One round of announcements: the same announcement to the broadcast
/// endpoint of each port, in the order of the ports.
pub open spec fn announcement(name: Seq<char>, local: PeerAddr, ports: Seq<u16>) -> Seq<
    OutboundView,
> {
    Seq::new(
        ports.len(),
        |i: int|
            OutboundView { message: discovery_of(name, local), destination: broadcast_addr(ports[i]) },
    )
}

/// The text forms of the endpoints of a registry, in its order.
pub open spec fn addr_texts(s: Seq<PeerView>) -> Seq<Seq<char>> {
    s.map_values(|p: PeerView| text_of(p.addr))
}

/// The answer to an announcement from `sender`: this node's own
/// announcement, then the list of all the peers in `s`.
pub open spec fn discovery_reply(
    name: Seq<char>,
    local: PeerAddr,
    sender: PeerAddr,
    s: Seq<PeerView>,
) -> Seq<OutboundView> {
    seq![
        OutboundView { message: discovery_of(name, local), destination: sender },
        OutboundView {
            message: MessageView::PeerList {
                sender_name: name,
                peer_addrs: addr_texts(s),
                sender_addr: text_of(local),
            },
            destination: sender,
        },
    ]
}

/// The registry after the message `m` was heard at `now`: its sender is
/// registered under the name it gives, where the endpoint it gives can be
/// read; nothing changes where it cannot.
pub open spec fn heard(s: Seq<PeerView>, m: MessageView, now: u64) -> Seq<PeerView> {
    match parse_text(m.sender_addr()) {
        Some(sender) => registered(s, sender, m.sender_name(), now),
        None => s,
    }
}

/// What is owed to the sender of the announcement `m`, heard at `now` by
/// the node `local` with the registry `s`: the answer, where the endpoint
/// that `m` gives can be read, and nothing where it cannot.
pub open spec fn discovery_sends(
    s: Seq<PeerView>,
    m: MessageView,
    name: Seq<char>,
    local: PeerAddr,
    now: u64,
) -> Seq<OutboundView> {
    match parse_text(m.sender_addr()) {
        Some(sender) => discovery_reply(name, local, sender, heard(s, m, now)),
        None => Seq::empty(),
    }
}

/// The endpoint that an entry of a peer list stands for. Nothing stands for
/// an entry that is not the text of an endpoint, nor for one that names this
/// node itself.
pub open spec fn entry_addr(entry: Seq<char>, local: PeerAddr) -> Option<PeerAddr> {
    match parse_text(entry) {
        Some(a) => if a == local {
            None
        } else {
            Some(a)
        },
        None => None,
    }
}

/// The entry under which a peer is registered of which only the endpoint is
/// known: its text form stands in for the name.
pub open spec fn placeholder(addr: PeerAddr, now: u64) -> PeerView {
    PeerView { addr, display_name: text_of(addr), last_seen: now }
}

/// The registry after one entry of a peer list was taken in at `now`.
pub open spec fn absorb_entry(s: Seq<PeerView>, entry: Seq<char>, local: PeerAddr, now: u64) -> Seq<
    PeerView,
> {
    match entry_addr(entry, local) {
        Some(a) => if knows(s, a) {
            touched(s, a, now)
        } else {
            s.push(placeholder(a, now))
        },
        None => s,
    }
}

/// The registry after the entries of a peer list were taken in at `now`, one
/// after the other.
pub open spec fn absorb(s: Seq<PeerView>, entries: Seq<Seq<char>>, local: PeerAddr, now: u64) -> Seq<
    PeerView,
>
    decreases entries.len(),
{
    if entries.len() == 0 {
        s
    } else {
        absorb_entry(absorb(s, entries.drop_last(), local, now), entries.last(), local, now)
    }
}

/// The endpoints that a peer list tells of for the first time: those that
/// were not registered when their entry was taken in, in the order of the
/// entries.
pub open spec fn learned(s: Seq<PeerView>, entries: Seq<Seq<char>>, local: PeerAddr) -> Seq<
    PeerAddr,
>
    decreases entries.len(),
{
    if entries.len() == 0 {
        Seq::empty()
    } else {
        let rest = entries.drop_last();
        let before = learned(s, rest, local);
        match entry_addr(entries.last(), local) {
            Some(a) => if knows(s, a) || before.contains(a) {
                before
            } else {
                before.push(a)
            },
            None => before,
        }
    }
}

/// The follow-up on a peer list: this node's announcement to each endpoint
/// in `fresh`.
pub open spec fn follow_ups(name: Seq<char>, local: PeerAddr, fresh: Seq<PeerAddr>) -> Seq<
    OutboundView,
> {
    fresh.map_values(
        |a: PeerAddr| OutboundView { message: discovery_of(name, local), destination: a },
    )
}

/// The announcement of this node as a datagram for `destination`.
fn discovery_for(username: &str, local_addr: PeerAddr, destination: PeerAddr) -> (r: Outbound)
    ensures
        r@ == (OutboundView { message: discovery_of(username@, local_addr), destination }),
{
    Outbound { message: Message::new_discovery(username.to_owned(), local_addr), destination }
}

/// One round of announcements of this node, to every port in
/// `broadcast_ports`.
pub fn send_discovery_message(username: &str, local_addr: PeerAddr, broadcast_ports: &[u16]) -> (r:
    Vec<Outbound>)
    ensures
        outbound_views(r@) == announcement(username@, local_addr, broadcast_ports@),
{
    let mut r: Vec<Outbound> = Vec::new();
    let mut i: usize = 0;
    while i < broadcast_ports.len()
        invariant
            i <= broadcast_ports.len(),
            outbound_views(r@) == announcement(username@, local_addr, broadcast_ports@.take(i as int)),
        decreases broadcast_ports.len() - i,
    {
        let ghost before = outbound_views(r@);
        let destination = PeerAddr::new(255, 255, 255, 255, broadcast_ports[i]);
        let datagram = discovery_for(username, local_addr, destination);
        r.push(datagram);
        assert(outbound_views(r@) =~= before.push(datagram@));
        assert(outbound_views(r@) =~= announcement(
            username@,
            local_addr,
            broadcast_ports@.take(i + 1),
        ));
        i = i + 1;
    }
    assert(broadcast_ports@.take(i as int) =~= broadcast_ports@);
    r
}

/// The periodic announcing of this node, once it was started: who
/// announces, to which ports, and how many seconds lie between two rounds.
#[derive(Debug)]
pub struct Announcer {
    pub username: String,
    pub local_addr: PeerAddr,
    pub broadcast_ports: Vec<u16>,
    pub interval: u64,
}

impl Announcer {
    /// The datagrams of one round.
    pub open spec fn round_spec(&self) -> Seq<OutboundView> {
        announcement(self.username@, self.local_addr, self.broadcast_ports@)
    }

    /// The datagrams of the round that is due when `interval` seconds have
    /// passed since the last one.
    pub fn round(&self) -> (r: Vec<Outbound>)
        ensures
            outbound_views(r@) == self.round_spec(),
    {
        send_discovery_message(
            self.username.as_str(),
            self.local_addr,
            self.broadcast_ports.as_slice(),
        )
    }
}

/// Starts the announcing of this node: gives the first round, which is due
/// at once, and the announcer that gives the later ones, which are due every
/// `DISCOVERY_INTERVAL` seconds.
pub fn start_discovery(username: String, local_addr: PeerAddr, broadcast_ports: Vec<u16>) -> (r: (
    Announcer,
    Vec<Outbound>,
))
    ensures
        r.0.username@ == username@,
        r.0.local_addr == local_addr,
        r.0.broadcast_ports@ == broadcast_ports@,
        r.0.interval == DISCOVERY_INTERVAL,
        outbound_views(r.1@) == r.0.round_spec(),
{
    let announcer = Announcer {
        username,
        local_addr,
        broadcast_ports,
        interval: DISCOVERY_INTERVAL,
    };
    let first = announcer.round();
    (announcer, first)
}

/// The text forms of the endpoints of `peers`.
fn addr_strings(peers: &Vec<crate::peer::Peer>) -> (r: Vec<String>)
    ensures
        string_views(r@) == addr_texts(peer_views(peers@)),
{
    let mut r: Vec<String> = Vec::new();
    let mut i: usize = 0;
    while i < peers.len()
        invariant
            i <= peers.len(),
            string_views(r@) == addr_texts(peer_views(peers@.take(i as int))),
        decreases peers.len() - i,
    {
        let ghost before = string_views(r@);
        let text = peers[i].addr.to_text();
        r.push(text);
        assert(string_views(r@) =~= before.push(text@));
        assert(string_views(r@) =~= addr_texts(
            peer_views(peers@.take(i + 1)),
        ));
        i = i + 1;
    }
    assert(peers@.take(i as int) =~= peers@);
    r
}

/// Takes in an announcement received at `now`.
///
/// Where the message gives an endpoint for its sender, the sender is
/// registered under the name it gives, and is owed two datagrams: this
/// node's own announcement, and the list of all peers registered by then,
/// the sender among them. Where it gives none that can be read, nothing
/// changes and nothing is sent.
pub fn handle_discovery_message(
    msg: &Message,
    peer_list: &mut PeerList,
    username: &str,
    local_addr: PeerAddr,
    now: u64,
) -> (sends: Vec<Outbound>)
    ensures
        final(peer_list)@ == heard(old(peer_list)@, msg@, now),
        outbound_views(sends@) == discovery_sends(
            old(peer_list)@,
            msg@,
            username@,
            local_addr,
            now,
        ),
{
    let mut sends: Vec<Outbound> = Vec::new();
    match PeerAddr::parse(msg.sender_addr().as_str()) {
        Some(sender) => {
            peer_list.add_or_update_peer(sender, msg.sender_name().clone(), now);
            sends.push(discovery_for(username, local_addr, sender));
            let peers = peer_list.get_peers();
            if peers.len() > 0 {
                let list = Message::new_peer_list(
                    username.to_owned(),
                    addr_strings(&peers),
                    local_addr,
                );
                sends.push(Outbound { message: list, destination: sender });
            }
            assert(outbound_views(sends@) =~= discovery_reply(
                username@,
                local_addr,
                sender,
                peer_list@,
            ));
        },
        None => {
            assert(outbound_views(sends@) =~= Seq::<OutboundView>::empty());
        },
    }
    sends
}

/// What came of a peer list.
#[derive(Debug)]
pub struct GossipOutcome {
    /// This node's announcement, once for each peer that the list told of
    /// for the first time.
    pub sends: Vec<Outbound>,
    /// Whether the list told of any peer for the first time.
    pub new_peers: bool,
}

/// Takes in a peer list received at `now`.
///
/// Each entry that is the text of an endpoint other than this node's own is
/// taken in, in order: a registered peer is refreshed; an unknown one is
/// registered under its endpoint's text in place of a name, and is owed this
/// node's announcement, which will make it answer with its name. All other
/// entries are passed over.
pub fn handle_peer_list_message(
    msg: &Message,
    peer_list: &mut PeerList,
    username: &str,
    local_addr: PeerAddr,
    now: u64,
) -> (r: GossipOutcome)
    ensures
        final(peer_list)@ == absorb(old(peer_list)@, msg@.peer_entries(), local_addr, now),
        outbound_views(r.sends@) == follow_ups(
            username@,
            local_addr,
            learned(old(peer_list)@, msg@.peer_entries(), local_addr),
        ),
        r.new_peers == (learned(old(peer_list)@, msg@.peer_entries(), local_addr).len() > 0),
{
    let mut sends: Vec<Outbound> = Vec::new();
    match msg {
        Message::PeerList { peer_addrs, .. } => {
            let ghost entries = string_views(peer_addrs@);
            let ghost start = peer_list@;
            let mut i: usize = 0;
            while i < peer_addrs.len()
                invariant
                    i <= peer_addrs.len(),
                    entries == string_views(peer_addrs@),
                    peer_list@ == absorb(start, entries.take(i as int), local_addr, now),
                    outbound_views(sends@) == follow_ups(
                        username@,
                        local_addr,
                        learned(start, entries.take(i as int), local_addr),
                    ),
                decreases peer_addrs.len() - i,
            {
                proof {
                    assert(entries.take(i + 1).drop_last() =~= entries.take(i as int));
                    assert(entries.take(i + 1).last() == peer_addrs@[i as int]@);
                }
                let ghost before = outbound_views(sends@);
                let ghost fresh = learned(start, entries.take(i as int), local_addr);
                match PeerAddr::parse(peer_addrs[i].as_str()) {
                    Some(addr) => {
                        if addr != local_addr {
                            proof {
                                lemma_known_or_learned(
                                    start,
                                    entries.take(i as int),
                                    local_addr,
                                    now,
                                    addr,
                                );
                            }
                            let known = peer_list.update_last_seen(&addr, now);
                            if !known {
                                peer_list.add_or_update_peer(addr, addr.to_text(), now);
                                let follow_up = discovery_for(username, local_addr, addr);
                                sends.push(follow_up);
                                assert(outbound_views(sends@) =~= before.push(follow_up@));
                                assert(!knows(start, addr) && !fresh.contains(addr));
                                assert(follow_ups(username@, local_addr, fresh.push(addr))
                                    =~= before.push(follow_up@));
                            }
                        }
                    },
                    None => {},
                }
                assert(outbound_views(sends@) =~= follow_ups(
                    username@,
                    local_addr,
                    learned(start, entries.take(i + 1), local_addr),
                ));
                i = i + 1;
            }
            assert(entries.take(i as int) =~= entries);
        },
        _ => {},
    }
    let new_peers = sends.len() > 0;
    GossipOutcome { sends, new_peers }
}

/// While a peer list is taken in, the registered endpoints are those that
/// were registered before and those that the list has told of so far.
pub proof fn lemma_known_or_learned(
    s: Seq<PeerView>,
    entries: Seq<Seq<char>>,
    local: PeerAddr,
    now: u64,
    a: PeerAddr,
)
    ensures
        knows(absorb(s, entries, local, now), a) <==> knows(s, a) || learned(
            s,
            entries,
            local,
        ).contains(a),
    decreases entries.len(),
{
    if entries.len() > 0 {
        let rest = entries.drop_last();
        let before = absorb(s, rest, local, now);
        let fresh_before = learned(s, rest, local);
        let fresh = learned(s, entries, local);
        lemma_known_or_learned(s, rest, local, now, a);
        lemma_absorb_entry_knows(before, entries.last(), local, now, a);
        match entry_addr(entries.last(), local) {
            Some(e) => {
                lemma_known_or_learned(s, rest, local, now, e);
                if !(knows(s, e) || fresh_before.contains(e)) {
                    assert(fresh == fresh_before.push(e));
                    assert(fresh[fresh_before.len() as int] == e);
                    if fresh.contains(a) && a != e {
                        let k = choose|k: int| 0 <= k < fresh.len() && fresh[k] == a;
                        assert(fresh_before[k] == a);
                    }
                    if fresh_before.contains(a) {
                        let k = choose|k: int| 0 <= k < fresh_before.len() && fresh_before[k] == a;
                        assert(fresh[k] == a);
                    }
                }
            },
            None => {},
        }
    }
}

/// Taking in one entry registers the endpoint it stands for, and changes
/// nothing else about which endpoints are registered.
pub proof fn lemma_absorb_entry_knows(
    s: Seq<PeerView>,
    entry: Seq<char>,
    local: PeerAddr,
    now: u64,
    a: PeerAddr,
)
    ensures
        knows(absorb_entry(s, entry, local, now), a) <==> knows(s, a) || entry_addr(entry, local)
            == Some(a),
{
    let after = absorb_entry(s, entry, local, now);
    match entry_addr(entry, local) {
        Some(e) => {
            if knows(s, e) {
                let i = crate::peer::slot(s, e);
                assert(after.len() == s.len());
                assert forall|k: int| 0 <= k < s.len() implies (#[trigger] after[k]).addr
                    == s[k].addr by {}
                if knows(s, a) {
                    let k = choose|k: int| 0 <= k < s.len() && (#[trigger] s[k]).addr == a;
                    assert(after[k].addr == a);
                }
                if knows(after, a) {
                    let k = choose|k: int| 0 <= k < after.len() && (#[trigger] after[k]).addr == a;
                    assert(s[k].addr == a);
                }
            } else {
                assert(after[s.len() as int].addr == e);
                if knows(s, a) {
                    let k = choose|k: int| 0 <= k < s.len() && (#[trigger] s[k]).addr == a;
                    assert(after[k].addr == a);
                }
                if knows(after, a) && a != e {
                    let k = choose|k: int| 0 <= k < after.len() && (#[trigger] after[k]).addr == a;
                    assert(s[k].addr == a);
                }
            }
        },
        None => {},
    }
}

/// Some entry of the peer list stands for `addr`.
pub open spec fn mentions(entries: Seq<Seq<char>>, local: PeerAddr, addr: PeerAddr) -> bool {
    exists|i: int| 0 <= i < entries.len() && entry_addr(#[trigger] entries[i], local) == Some(addr)
}

/// A list with one more entry mentions what the shorter list mentions, and
/// what that entry stands for.
proof fn lemma_mentions_step(entries: Seq<Seq<char>>, local: PeerAddr, addr: PeerAddr)
    requires
        entries.len() > 0,
    ensures
        mentions(entries, local, addr) <==> mentions(entries.drop_last(), local, addr)
            || entry_addr(entries.last(), local) == Some(addr),
{
    let rest = entries.drop_last();
    if mentions(entries, local, addr) {
        let i = choose|i: int|
            0 <= i < entries.len() && entry_addr(#[trigger] entries[i], local) == Some(addr);
        if i < rest.len() {
            assert(entry_addr(rest[i], local) == Some(addr));
        }
    }
    if mentions(rest, local, addr) {
        let i = choose|i: int|
            0 <= i < rest.len() && entry_addr(#[trigger] rest[i], local) == Some(addr);
        assert(entry_addr(entries[i], local) == Some(addr));
    }
    if entry_addr(entries.last(), local) == Some(addr) {
        assert(entry_addr(entries[entries.len() - 1], local) == Some(addr));
    }
}

/// What a peer list does to the registry, endpoint by endpoint. An endpoint
/// that the list mentions is recorded as seen at `now`: under the name it
/// had, where it was registered, and under the text of its endpoint, where
/// it was not. What is recorded for any other endpoint stays as it was. No
/// endpoint is registered twice.
pub proof fn lemma_absorbed(
    s: Seq<PeerView>,
    entries: Seq<Seq<char>>,
    local: PeerAddr,
    now: u64,
    addr: PeerAddr,
)
    requires
        distinct_addrs(s),
    ensures
        distinct_addrs(absorb(s, entries, local, now)),
        lookup(absorb(s, entries, local, now), addr) == if mentions(entries, local, addr) {
            match lookup(s, addr) {
                Some(p) => Some(PeerView { last_seen: now, ..p }),
                None => Some(placeholder(addr, now)),
            }
        } else {
            lookup(s, addr)
        },
    decreases entries.len(),
{
    if entries.len() > 0 {
        let rest = entries.drop_last();
        let before = absorb(s, rest, local, now);
        lemma_absorbed(s, rest, local, now, addr);
        lemma_mentions_step(entries, local, addr);
        match entry_addr(entries.last(), local) {
            Some(e) => {
                lemma_absorbed(s, rest, local, now, e);
                lemma_touched(before, e, now, addr);
                lemma_registered(before, e, text_of(e), now, addr);
            },
            None => {},
        }
    }
}

/// What a peer list tells of for the first time: exactly the endpoints that
/// it mentions and that were not registered, each of them once.
pub proof fn lemma_learned(
    s: Seq<PeerView>,
    entries: Seq<Seq<char>>,
    local: PeerAddr,
    addr: PeerAddr,
)
    ensures
        learned(s, entries, local).contains(addr) <==> !knows(s, addr) && mentions(
            entries,
            local,
            addr,
        ),
        learned(s, entries, local).no_duplicates(),
    decreases entries.len(),
{
    let fresh = learned(s, entries, local);
    if entries.len() > 0 {
        let rest = entries.drop_last();
        let before = learned(s, rest, local);
        lemma_learned(s, rest, local, addr);
        lemma_mentions_step(entries, local, addr);
        match entry_addr(entries.last(), local) {
            Some(e) => {
                if !(knows(s, e) || before.contains(e)) {
                    assert(fresh[before.len() as int] == e);
                    assert forall|i: int| 0 <= i < before.len() implies fresh[i] == before[i] by {}
                    if before.contains(addr) {
                        let k = choose|k: int| 0 <= k < before.len() && before[k] == addr;
                        assert(fresh[k] == addr);
                    }
                    if fresh.contains(addr) && addr != e {
                        let k = choose|k: int| 0 <= k < fresh.len() && fresh[k] == addr;
                        assert(before[k] == addr);
                    }
                    assert forall|i: int, j: int|
                        0 <= i < fresh.len() && 0 <= j < fresh.len() && i != j implies fresh[i]
                        != fresh[j] by {
                        if i < before.len() && j < before.len() {
                        } else if i < before.len() {
                            assert(before.contains(before[i]));
                        } else {
                            assert(before.contains(before[j]));
                        }
                    }
                }
            },
            None => {},
        }
    }
}

/// A node never learns of itself: whatever a peer list holds, it leaves
/// what is recorded for this node's own endpoint as it was, registers it
/// where it was not registered, and calls for no announcement to it.
pub proof fn lemma_never_learns_itself(
    s: Seq<PeerView>,
    entries: Seq<Seq<char>>,
    local: PeerAddr,
    now: u64,
)
    requires
        distinct_addrs(s),
    ensures
        !mentions(entries, local, local),
        lookup(absorb(s, entries, local, now), local) == lookup(s, local),
        knows(absorb(s, entries, local, now), local) == knows(s, local),
        !learned(s, entries, local).contains(local),
{
    lemma_absorbed(s, entries, local, now, local);
    lemma_learned(s, entries, local, local);
}

/// Each endpoint that a peer list tells of for the first time is one that
/// the list mentions, that was not registered, and that is not this node's
/// own. It is registered under the text of its endpoint as seen at `now`,
/// and owed this node's announcement.
pub proof fn lemma_follow_up(
    s: Seq<PeerView>,
    entries: Seq<Seq<char>>,
    name: Seq<char>,
    local: PeerAddr,
    now: u64,
    i: int,
)
    requires
        distinct_addrs(s),
        0 <= i < learned(s, entries, local).len(),
    ensures
        ({
            let addr = learned(s, entries, local)[i];
            &&& addr != local
            &&& !knows(s, addr)
            &&& mentions(entries, local, addr)
            &&& lookup(absorb(s, entries, local, now), addr) == Some(placeholder(addr, now))
            &&& follow_ups(name, local, learned(s, entries, local))[i] == (OutboundView {
                message: discovery_of(name, local),
                destination: addr,
            })
        }),
{
    let addr = learned(s, entries, local)[i];
    assert(learned(s, entries, local).contains(addr));
    lemma_learned(s, entries, local, addr);
    lemma_absorbed(s, entries, local, now, addr);
}

/// A peer list tells of nothing for the first time when it comes again: no
/// peer is registered and no announcement is owed the second time.
pub proof fn lemma_nothing_new_twice(
    s: Seq<PeerView>,
    entries: Seq<Seq<char>>,
    local: PeerAddr,
    now: u64,
    later: u64,
)
    requires
        distinct_addrs(s),
    ensures
        learned(absorb(s, entries, local, now), entries, local).len() == 0,
        absorb(absorb(s, entries, local, now), entries, local, later).len() == absorb(
            s,
            entries,
            local,
            now,
        ).len(),
{
    let after = absorb(s, entries, local, now);
    let again = learned(after, entries, local);
    if again.len() > 0 {
        let addr = again[0];
        assert(again.contains(addr));
        lemma_learned(after, entries, local, addr);
        lemma_absorbed(s, entries, local, now, addr);
    }
    lemma_absorb_len(after, entries, local, later);
}

/// A peer list adds one entry to the registry for each endpoint that it
/// tells of for the first time, and removes none.
pub proof fn lemma_absorb_len(s: Seq<PeerView>, entries: Seq<Seq<char>>, local: PeerAddr, now: u64)
    ensures
        absorb(s, entries, local, now).len() == s.len() + learned(s, entries, local).len(),
    decreases entries.len(),
{
    if entries.len() > 0 {
        let rest = entries.drop_last();
        lemma_absorb_len(s, rest, local, now);
        match entry_addr(entries.last(), local) {
            Some(e) => {
                lemma_known_or_learned(s, rest, local, now, e);
            },
            None => {},
        }
    }
}

/// A peer list leaves the peers that were registered in their places, and
/// puts those that it tells of for the first time behind them, in the order
/// in which it tells of them.
pub proof fn lemma_absorb_order(
    s: Seq<PeerView>,
    entries: Seq<Seq<char>>,
    local: PeerAddr,
    now: u64,
    i: int,
)
    requires
        0 <= i < absorb(s, entries, local, now).len(),
    ensures
        absorb(s, entries, local, now).len() == s.len() + learned(s, entries, local).len(),
        absorb(s, entries, local, now)[i].addr == if i < s.len() {
            s[i].addr
        } else {
            learned(s, entries, local)[i - s.len()]
        },
    decreases entries.len(),
{
    lemma_absorb_len(s, entries, local, now);
    if entries.len() > 0 {
        let rest = entries.drop_last();
        let before = absorb(s, rest, local, now);
        lemma_absorb_len(s, rest, local, now);
        if i < before.len() {
            lemma_absorb_order(s, rest, local, now, i);
        }
        match entry_addr(entries.last(), local) {
            Some(e) => {
                lemma_known_or_learned(s, rest, local, now, e);
            },
            None => {},
        }
    }
}

/// Gossip carries: when a node takes in the list of another node's
/// registry `theirs`, every peer of that registry other than the node
/// itself is registered with it afterwards, and those that it did not know
/// are among the ones it follows up on.
pub proof fn lemma_gossip_carries(
    theirs: Seq<PeerView>,
    s: Seq<PeerView>,
    local: PeerAddr,
    now: u64,
    i: int,
)
    requires
        distinct_addrs(s),
        0 <= i < theirs.len(),
        theirs[i].addr != local,
    ensures
        knows(absorb(s, addr_texts(theirs), local, now), theirs[i].addr),
        !knows(s, theirs[i].addr) ==> learned(s, addr_texts(theirs), local).contains(
            theirs[i].addr,
        ),
{
    let addr = theirs[i].addr;
    let entries = addr_texts(theirs);
    lemma_parse_text_of(addr);
    assert(entry_addr(entries[i], local) == Some(addr));
    lemma_absorbed(s, entries, local, now, addr);
    lemma_learned(s, entries, local, addr);
}

} // verus!
