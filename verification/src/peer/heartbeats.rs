//! Heartbeats: saying that this node is alive, hearing that others are, and
//! forgetting those that have not been heard from for too long.
//!
//! A heartbeat refreshes the sender in the registry and calls for no answer,
//! so heartbeats can be frequent where announcements, which are answered
//! with whole peer lists, cannot.

use vstd::prelude::*;

use crate::addr::{parse_text, text_of, PeerAddr};
use crate::message::{Message, MessageView};
use crate::net::{outbound_views, Outbound, OutboundView};
use crate::peer::discovery::{broadcast_addr, heard};
use crate::peer::{
    distinct_addrs, lemma_pruned, lemma_registered, lookup, pruned, PeerList, PeerView,
};

verus! {

/// Seconds between two heartbeats.
pub const HEARTBEAT_INTERVAL: u64 = 10;

/// A peer is forgotten once it has been silent for longer than this many
/// heartbeat intervals.
pub const MISSED_BEATS: u64 = 3;

/// How long a peer may be silent before it is forgotten, where heartbeats
/// come every `interval` seconds.
pub open spec fn ttl_for(interval: u64) -> u64 {
    if MISSED_BEATS * interval <= u64::MAX {
        (MISSED_BEATS * interval) as u64
    } else {
        u64::MAX
    }
}

/// The heartbeat of the node `local` under the name `name`.
pub open spec fn heartbeat_of(name: Seq<char>, local: PeerAddr) -> MessageView {
    MessageView::Heartbeat { sender_name: name, sender_addr: text_of(local) }
}

/// One round of heartbeats: the same heartbeat to the broadcast endpoint of
/// each port, in the order of the ports.
pub open spec fn heartbeat_round(name: Seq<char>, local: PeerAddr, ports: Seq<u16>) -> Seq<
    OutboundView,
> {
    Seq::new(
        ports.len(),
        |i: int|
            OutboundView { message: heartbeat_of(name, local), destination: broadcast_addr(ports[i]) },
    )
}

/// How long a peer may be silent before it is forgotten, where heartbeats
/// come every `interval` seconds.
pub fn stale_ttl(interval: u64) -> (r: u64)
    ensures
        r == ttl_for(interval),
{
    if interval > u64::MAX / MISSED_BEATS {
        u64::MAX
    } else {
        MISSED_BEATS * interval
    }
}

/// One round of heartbeats of this node, to every port in `broadcast_ports`.
pub fn send_heartbeat_message(username: &str, local_addr: PeerAddr, broadcast_ports: &[u16]) -> (r:
    Vec<Outbound>)
    ensures
        outbound_views(r@) == heartbeat_round(username@, local_addr, broadcast_ports@),
{
    let mut r: Vec<Outbound> = Vec::new();
    let mut i: usize = 0;
    while i < broadcast_ports.len()
        invariant
            i <= broadcast_ports.len(),
            outbound_views(r@) == heartbeat_round(
                username@,
                local_addr,
                broadcast_ports@.take(i as int),
            ),
        decreases broadcast_ports.len() - i,
    {
        let ghost before = outbound_views(r@);
        let datagram = Outbound {
            message: Message::new_heartbeat(username.to_owned(), local_addr),
            destination: PeerAddr::new(255, 255, 255, 255, broadcast_ports[i]),
        };
        r.push(datagram);
        assert(outbound_views(r@) =~= before.push(datagram@));
        assert(outbound_views(r@) =~= heartbeat_round(
            username@,
            local_addr,
            broadcast_ports@.take(i + 1),
        ));
        i = i + 1;
    }
    assert(broadcast_ports@.take(i as int) =~= broadcast_ports@);
    r
}

/// Takes in a heartbeat received at `now`: its sender is registered, or
/// refreshed, under the name it gives. Nothing is sent in answer.
pub fn handle_heartbeat_message(msg: &Message, peer_list: &mut PeerList, now: u64)
    ensures
        final(peer_list)@ == heard(old(peer_list)@, msg@, now),
{
    match PeerAddr::parse(msg.sender_addr().as_str()) {
        Some(sender) => {
            peer_list.add_or_update_peer(sender, msg.sender_name().clone(), now);
        },
        None => {},
    }
}

/// The periodic heartbeat of this node, once it was started: who sends it,
/// to which ports, how many seconds lie between two beats, and after how
/// many seconds of silence a peer is forgotten.
#[derive(Debug)]
pub struct Heartbeater {
    pub username: String,
    pub local_addr: PeerAddr,
    pub broadcast_ports: Vec<u16>,
    pub interval: u64,
    pub ttl: u64,
}

impl Heartbeater {
    /// The datagrams of one beat.
    pub open spec fn round_spec(&self) -> Seq<OutboundView> {
        heartbeat_round(self.username@, self.local_addr, self.broadcast_ports@)
    }

    /// The beat that is due at `now`, when `interval` seconds have passed
    /// since the last one: the peers that have been silent for more than
    /// `ttl` seconds are forgotten, and the heartbeat goes out again.
    pub fn tick(&self, peer_list: &mut PeerList, now: u64) -> (r: Vec<Outbound>)
        ensures
            final(peer_list)@ == pruned(old(peer_list)@, now, self.ttl),
            outbound_views(r@) == self.round_spec(),
    {
        peer_list.prune_stale(now, self.ttl);
        send_heartbeat_message(
            self.username.as_str(),
            self.local_addr,
            self.broadcast_ports.as_slice(),
        )
    }
}

/// Starts the heartbeat of this node: gives the first beat, which is due at
/// once, and the heartbeater that gives the later ones, which are due every
/// `HEARTBEAT_INTERVAL` seconds.
pub fn start_heartbeat(username: String, local_addr: PeerAddr, broadcast_ports: Vec<u16>) -> (r: (
    Heartbeater,
    Vec<Outbound>,
))
    ensures
        r.0.username@ == username@,
        r.0.local_addr == local_addr,
        r.0.broadcast_ports@ == broadcast_ports@,
        r.0.interval == HEARTBEAT_INTERVAL,
        r.0.ttl == ttl_for(HEARTBEAT_INTERVAL),
        outbound_views(r.1@) == r.0.round_spec(),
{
    let heartbeater = Heartbeater {
        username,
        local_addr,
        broadcast_ports,
        interval: HEARTBEAT_INTERVAL,
        ttl: stale_ttl(HEARTBEAT_INTERVAL),
    };
    let first = send_heartbeat_message(
        heartbeater.username.as_str(),
        heartbeater.local_addr,
        heartbeater.broadcast_ports.as_slice(),
    );
    (heartbeater, first)
}

/// A peer that was heard from is not forgotten while it has been silent for
/// no more than `ttl`: pruning at any instant up to `ttl` after its message
/// leaves it registered, as the message left it.
pub proof fn lemma_heard_peer_stays(
    s: Seq<PeerView>,
    m: MessageView,
    heard_at: u64,
    now: u64,
    ttl: u64,
)
    requires
        distinct_addrs(s),
        parse_text(m.sender_addr()) is Some,
        now - heard_at <= ttl,
    ensures
        lookup(pruned(heard(s, m, heard_at), now, ttl), parse_text(m.sender_addr())->0) == Some(
            PeerView {
                addr: parse_text(m.sender_addr())->0,
                display_name: m.sender_name(),
                last_seen: heard_at,
            },
        ),
{
    let sender = parse_text(m.sender_addr())->0;
    lemma_registered(s, sender, m.sender_name(), heard_at, sender);
    lemma_pruned(heard(s, m, heard_at), now, ttl, sender);
}

} // verus!
