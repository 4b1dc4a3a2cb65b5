//! The messages that nodes exchange.

use vstd::prelude::*;
use vstd::string::StringExecFns;

use crate::addr::{text_of, PeerAddr};

verus! {

/// One unit of wire communication.
///
/// Every message names the node it comes from and the endpoint at which that
/// node can be reached, as text: a receiver replies to that endpoint, not to
/// wherever the datagram seemed to come from.
#[derive(Debug, Clone, PartialEq, Eq)]
pub enum Message {
    /// A line of chat.
    Chat { sender_name: String, text: String, sender_addr: String },
    /// "I am here": sent to everybody in the rounds, and to one node in reply.
    Discovery { sender_name: String, sender_addr: String },
    /// The endpoints of the peers that the sender knows, as text.
    PeerList { sender_name: String, peer_addrs: Vec<String>, sender_addr: String },
    /// "I am still here."
    Heartbeat { sender_name: String, sender_addr: String },
}

/// What a `Message` holds, as plain values.
pub enum MessageView {
    Chat { sender_name: Seq<char>, text: Seq<char>, sender_addr: Seq<char> },
    Discovery { sender_name: Seq<char>, sender_addr: Seq<char> },
    PeerList { sender_name: Seq<char>, peer_addrs: Seq<Seq<char>>, sender_addr: Seq<char> },
    Heartbeat { sender_name: Seq<char>, sender_addr: Seq<char> },
}

/// The texts that a list of strings holds, in the same order.
pub open spec fn string_views(v: Seq<String>) -> Seq<Seq<char>> {
    v.map_values(|s: String| s@)
}

impl View for Message {
    type V = MessageView;

    open spec fn view(&self) -> MessageView {
        match *self {
            Message::Chat { sender_name, text, sender_addr } => MessageView::Chat {
                sender_name: sender_name@,
                text: text@,
                sender_addr: sender_addr@,
            },
            Message::Discovery { sender_name, sender_addr } => MessageView::Discovery {
                sender_name: sender_name@,
                sender_addr: sender_addr@,
            },
            Message::PeerList { sender_name, peer_addrs, sender_addr } => MessageView::PeerList {
                sender_name: sender_name@,
                peer_addrs: string_views(peer_addrs@),
                sender_addr: sender_addr@,
            },
            Message::Heartbeat { sender_name, sender_addr } => MessageView::Heartbeat {
                sender_name: sender_name@,
                sender_addr: sender_addr@,
            },
        }
    }
}

/// The texts of `entries` with a comma between each two.
pub open spec fn comma_joined(entries: Seq<Seq<char>>) -> Seq<char>
    decreases entries.len(),
{
    if entries.len() == 0 {
        Seq::empty()
    } else if entries.len() == 1 {
        entries[0]
    } else {
        comma_joined(entries.drop_last()) + seq![','] + entries.last()
    }
}

impl MessageView {
    /// What the message says: the line of a chat message, the entries of a
    /// peer list with commas between them, nothing for the other kinds.
    pub open spec fn content(self) -> Seq<char> {
        match self {
            MessageView::Chat { text, .. } => text,
            MessageView::PeerList { peer_addrs, .. } => comma_joined(peer_addrs),
            _ => Seq::empty(),
        }
    }

    /// The name that the sender gives itself.
    pub open spec fn sender_name(self) -> Seq<char> {
        match self {
            MessageView::Chat { sender_name, .. } => sender_name,
            MessageView::Discovery { sender_name, .. } => sender_name,
            MessageView::PeerList { sender_name, .. } => sender_name,
            MessageView::Heartbeat { sender_name, .. } => sender_name,
        }
    }

    /// The endpoint that the sender gives for itself, as text.
    pub open spec fn sender_addr(self) -> Seq<char> {
        match self {
            MessageView::Chat { sender_addr, .. } => sender_addr,
            MessageView::Discovery { sender_addr, .. } => sender_addr,
            MessageView::PeerList { sender_addr, .. } => sender_addr,
            MessageView::Heartbeat { sender_addr, .. } => sender_addr,
        }
    }

    /// The entries of a peer list; no entries for any other message.
    pub open spec fn peer_entries(self) -> Seq<Seq<char>> {
        match self {
            MessageView::PeerList { peer_addrs, .. } => peer_addrs,
            _ => Seq::empty(),
        }
    }
}

impl Message {
    /// A chat line from the node at `local_addr`.
    pub fn new_chat(sender_name: String, text: String, local_addr: PeerAddr) -> (r: Message)
        ensures
            r@ == (MessageView::Chat {
                sender_name: sender_name@,
                text: text@,
                sender_addr: text_of(local_addr),
            }),
    {
        Message::Chat { sender_name, text, sender_addr: local_addr.to_text() }
    }

    /// An announcement of the node at `local_addr`.
    pub fn new_discovery(sender_name: String, local_addr: PeerAddr) -> (r: Message)
        ensures
            r@ == (MessageView::Discovery {
                sender_name: sender_name@,
                sender_addr: text_of(local_addr),
            }),
    {
        Message::Discovery { sender_name, sender_addr: local_addr.to_text() }
    }

    /// A list of peers' endpoints from the node at `local_addr`.
    pub fn new_peer_list(sender_name: String, peer_addrs: Vec<String>, local_addr: PeerAddr) -> (r:
        Message)
        ensures
            r@ == (MessageView::PeerList {
                sender_name: sender_name@,
                peer_addrs: string_views(peer_addrs@),
                sender_addr: text_of(local_addr),
            }),
    {
        Message::PeerList { sender_name, peer_addrs, sender_addr: local_addr.to_text() }
    }

    /// A sign of life from the node at `local_addr`.
    pub fn new_heartbeat(sender_name: String, local_addr: PeerAddr) -> (r: Message)
        ensures
            r@ == (MessageView::Heartbeat {
                sender_name: sender_name@,
                sender_addr: text_of(local_addr),
            }),
    {
        Message::Heartbeat { sender_name, sender_addr: local_addr.to_text() }
    }

    /// The name that the sender gives itself.
    pub fn sender_name(&self) -> (r: &String)
        ensures
            r@ == self@.sender_name(),
    {
        match self {
            Message::Chat { sender_name, .. } => sender_name,
            Message::Discovery { sender_name, .. } => sender_name,
            Message::PeerList { sender_name, .. } => sender_name,
            Message::Heartbeat { sender_name, .. } => sender_name,
        }
    }

    /// The endpoint that the sender gives for itself, as text.
    pub fn sender_addr(&self) -> (r: &String)
        ensures
            r@ == self@.sender_addr(),
    {
        match self {
            Message::Chat { sender_addr, .. } => sender_addr,
            Message::Discovery { sender_addr, .. } => sender_addr,
            Message::PeerList { sender_addr, .. } => sender_addr,
            Message::Heartbeat { sender_addr, .. } => sender_addr,
        }
    }

    /// What the message says: the line of a chat message, the entries of a
    /// peer list with commas between them, nothing for the other kinds.
    pub fn content(&self) -> (r: String)
        ensures
            r@ == self@.content(),
    {
        match self {
            Message::Chat { text, .. } => text.clone(),
            Message::PeerList { peer_addrs, .. } => {
                let mut r = String::new();
                let ghost entries = string_views(peer_addrs@);
                let mut i: usize = 0;
                assert(entries.take(0) =~= Seq::<Seq<char>>::empty());
                while i < peer_addrs.len()
                    invariant
                        i <= peer_addrs.len(),
                        entries == string_views(peer_addrs@),
                        r@ == comma_joined(entries.take(i as int)),
                    decreases peer_addrs.len() - i,
                {
                    if i > 0 {
                        r.append(",");
                        proof {
                            reveal_strlit(",");
                            assert(","@ =~= seq![',']);
                        }
                    }
                    r.append(peer_addrs[i].as_str());
                    proof {
                        assert(entries.take(i + 1).drop_last() =~= entries.take(i as int));
                        assert(entries.take(i + 1).last() == peer_addrs@[i as int]@);
                        if i == 0 {
                            assert(r@ =~= entries.take(1)[0]);
                        }
                    }
                    i = i + 1;
                }
                assert(entries.take(i as int) =~= entries);
                r
            },
            _ => String::new(),
        }
    }
}

} // verus!
