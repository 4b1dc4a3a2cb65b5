//! Sorting what arrives: each datagram is read and handed to the part of the
//! protocol that its kind belongs to.

use vstd::prelude::*;

use crate::addr::PeerAddr;
use crate::codec::{decode, spec_decode, DecodeError};
use crate::message::{Message, MessageView};
use crate::net::{outbound_views, Outbound, OutboundView};
use crate::peer::discovery::{
    absorb, discovery_sends, follow_ups, handle_discovery_message, handle_peer_list_message,
    heard, learned,
};
use crate::peer::heartbeats::handle_heartbeat_message;
use crate::peer::{PeerList, PeerView};

verus! {

/// What came of a datagram.
#[derive(Debug)]
pub enum Inbound {
    /// It was not the wire form of a message. It is dropped; the fault is
    /// there for the log.
    Malformed(DecodeError),
    /// It was a chat line, which is for whoever shows chat to the user.
    Chat(Message),
    /// It was a message of the protocol and has been taken in. `sends` are
    /// the datagrams owed in answer, and `new_peers` says whether it told of
    /// peers that were not known before.
    Handled { sends: Vec<Outbound>, new_peers: bool },
}

/// The registry after the bytes `datagram` arrived at `now`.
pub open spec fn received(s: Seq<PeerView>, datagram: Seq<u8>, local: PeerAddr, now: u64) -> Seq<
    PeerView,
> {
    match spec_decode(datagram) {
        Ok(m) => match m {
            MessageView::Chat { .. } => s,
            MessageView::Discovery { .. } => heard(s, m, now),
            MessageView::PeerList { .. } => absorb(s, m.peer_entries(), local, now),
            MessageView::Heartbeat { .. } => heard(s, m, now),
        },
        Err(_) => s,
    }
}

/// The datagrams owed after the message `m` arrived at `now`.
pub open spec fn answers(
    s: Seq<PeerView>,
    m: MessageView,
    name: Seq<char>,
    local: PeerAddr,
    now: u64,
) -> Seq<OutboundView> {
    match m {
        MessageView::Chat { .. } => Seq::empty(),
        MessageView::Discovery { .. } => discovery_sends(s, m, name, local, now),
        MessageView::PeerList { .. } => follow_ups(name, local, learned(s, m.peer_entries(), local)),
        MessageView::Heartbeat { .. } => Seq::empty(),
    }
}

/// Takes in one datagram received at `now`.
///
/// Bytes that are no message change nothing. A chat line changes nothing
/// either and is handed back. An announcement, a peer list or a heartbeat is
/// taken in by the handler of its kind.
pub fn dispatch(
    datagram: &[u8],
    peer_list: &mut PeerList,
    username: &str,
    local_addr: PeerAddr,
    now: u64,
) -> (r: Inbound)
    ensures
        final(peer_list)@ == received(old(peer_list)@, datagram@, local_addr, now),
        match spec_decode(datagram@) {
            Err(e) => r == Inbound::Malformed(e),
            Ok(m) => match m {
                MessageView::Chat { .. } => r matches Inbound::Chat(chat) && chat@ == m,
                _ => {
                    &&& r matches Inbound::Handled { sends, new_peers }
                    &&& outbound_views(sends@) == answers(
                        old(peer_list)@,
                        m,
                        username@,
                        local_addr,
                        now,
                    )
                    &&& new_peers == (m is PeerList && sends@.len() > 0)
                },
            },
        },
{
    let msg = match decode(datagram) {
        Ok(msg) => msg,
        Err(e) => { return Inbound::Malformed(e); },
    };
    match msg {
        Message::Chat { .. } => Inbound::Chat(msg),
        Message::Discovery { .. } => {
            let sends = handle_discovery_message(&msg, peer_list, username, local_addr, now);
            Inbound::Handled { sends, new_peers: false }
        },
        Message::PeerList { .. } => {
            let outcome = handle_peer_list_message(&msg, peer_list, username, local_addr, now);
            Inbound::Handled { sends: outcome.sends, new_peers: outcome.new_peers }
        },
        Message::Heartbeat { .. } => {
            handle_heartbeat_message(&msg, peer_list, now);
            let sends: Vec<Outbound> = Vec::new();
            assert(outbound_views(sends@) =~= Seq::<OutboundView>::empty());
            Inbound::Handled { sends, new_peers: false }
        },
    }
}

} // verus!
