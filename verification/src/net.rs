//! What goes out to the network and what comes in from it.

use vstd::prelude::*;

use crate::addr::PeerAddr;
use crate::message::{Message, MessageView};

pub mod listener;

verus! {

/// A datagram to send: the message and the endpoint it goes to.
#[derive(Debug, Clone, PartialEq, Eq)]
pub struct Outbound {
    pub message: Message,
    pub destination: PeerAddr,
}

/// What an `Outbound` holds, as plain values.
pub struct OutboundView {
    pub message: MessageView,
    pub destination: PeerAddr,
}

impl View for Outbound {
    type V = OutboundView;

    open spec fn view(&self) -> OutboundView {
        OutboundView { message: self.message@, destination: self.destination }
    }
}

/// The views of a list of datagrams, in the same order.
pub open spec fn outbound_views(v: Seq<Outbound>) -> Seq<OutboundView> {
    v.map_values(|o: Outbound| o@)
}

} // verus!
