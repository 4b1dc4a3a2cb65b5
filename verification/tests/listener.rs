use rossip::addr::PeerAddr;
use rossip::codec::{encode, DecodeError};
use rossip::message::Message;
use rossip::net::listener::{dispatch, Inbound};
use rossip::net::Outbound;
use rossip::peer::{Peer, PeerList};

fn local() -> PeerAddr {
    PeerAddr::new(10, 0, 0, 1, 8888)
}

fn alice() -> PeerAddr {
    PeerAddr::new(10, 0, 0, 2, 9487)
}

fn bob() -> PeerAddr {
    PeerAddr::new(10, 0, 0, 3, 9487)
}

fn peer(addr: PeerAddr, name: &str, last_seen: u64) -> Peer {
    Peer { addr, display_name: name.to_string(), last_seen }
}

fn handled(inbound: Inbound) -> (Vec<Outbound>, bool) {
    match inbound {
        Inbound::Handled { sends, new_peers } => (sends, new_peers),
        other => panic!("not handled: {:?}", other),
    }
}

#[test]
fn bytes_that_are_no_message_are_dropped() {
    let mut registry = PeerList::new();
    registry.add_or_update_peer(alice(), "alice".to_string(), 1);
    for (bytes, fault) in [
        (vec![], DecodeError::Empty),
        (vec![7, 7, 7], DecodeError::UnknownKind(7)),
        (vec![2, 0, 0], DecodeError::Truncated),
        (vec![2, 0, 0, 0, 0, 0, 0, 0, 1, 0xff], DecodeError::InvalidText),
    ] {
        match dispatch(&bytes, &mut registry, "me", local(), 9) {
            Inbound::Malformed(e) => assert_eq!(e, fault),
            other => panic!("not dropped: {:?}", other),
        }
        assert_eq!(registry.get_peers(), vec![peer(alice(), "alice", 1)]);
    }
    let mut long = encode(&Message::new_heartbeat("bob".to_string(), bob()));
    long.push(1);
    match dispatch(&long, &mut registry, "me", local(), 9) {
        Inbound::Malformed(e) => assert_eq!(e, DecodeError::TrailingBytes),
        other => panic!("not dropped: {:?}", other),
    }
    assert_eq!(registry.get_peers(), vec![peer(alice(), "alice", 1)]);
}

#[test]
fn a_chat_line_is_handed_on() {
    let mut registry = PeerList::new();
    let chat = Message::new_chat("alice".to_string(), "hello".to_string(), alice());
    match dispatch(&encode(&chat), &mut registry, "me", local(), 9) {
        Inbound::Chat(m) => assert_eq!(m, chat),
        other => panic!("not a chat line: {:?}", other),
    }
    assert!(registry.is_empty());
}

#[test]
fn an_announcement_is_registered_and_answered() {
    let mut registry = PeerList::new();
    let announcement = Message::new_discovery("alice".to_string(), alice());
    let (sends, new_peers) = handled(dispatch(&encode(&announcement), &mut registry, "me", local(), 9));
    assert!(!new_peers);
    assert_eq!(
        sends,
        vec![
            Outbound { message: Message::new_discovery("me".to_string(), local()), destination: alice() },
            Outbound {
                message: Message::new_peer_list(
                    "me".to_string(),
                    vec!["10.0.0.2:9487".to_string()],
                    local()
                ),
                destination: alice(),
            },
        ]
    );
    assert_eq!(registry.get_peers(), vec![peer(alice(), "alice", 9)]);
}

#[test]
fn a_peer_list_is_taken_in_and_followed_up() {
    let mut registry = PeerList::new();
    registry.add_or_update_peer(alice(), "alice".to_string(), 1);
    let list = Message::new_peer_list(
        "alice".to_string(),
        vec![alice().to_text(), bob().to_text(), local().to_text()],
        alice(),
    );
    let (sends, new_peers) = handled(dispatch(&encode(&list), &mut registry, "me", local(), 9));
    assert!(new_peers);
    assert_eq!(
        sends,
        vec![Outbound { message: Message::new_discovery("me".to_string(), local()), destination: bob() }]
    );
    assert_eq!(
        registry.get_peers(),
        vec![peer(alice(), "alice", 9), peer(bob(), "10.0.0.3:9487", 9)]
    );
    let (sends, new_peers) = handled(dispatch(&encode(&list), &mut registry, "me", local(), 10));
    assert!(!new_peers);
    assert_eq!(sends, vec![]);
}

#[test]
fn a_heartbeat_refreshes_and_is_not_answered() {
    let mut registry = PeerList::new();
    registry.add_or_update_peer(alice(), "alice".to_string(), 1);
    let beat = Message::new_heartbeat("alice".to_string(), alice());
    let (sends, new_peers) = handled(dispatch(&encode(&beat), &mut registry, "me", local(), 9));
    assert!(!new_peers);
    assert_eq!(sends, vec![]);
    assert_eq!(registry.get_peers(), vec![peer(alice(), "alice", 9)]);
    let stranger = Message::new_heartbeat("bob".to_string(), bob());
    let (sends, _) = handled(dispatch(&encode(&stranger), &mut registry, "me", local(), 10));
    assert_eq!(sends, vec![]);
    assert_eq!(registry.get_peers(), vec![peer(alice(), "alice", 9), peer(bob(), "bob", 10)]);
}

#[test]
fn two_nodes_find_a_third_through_each_other() {
    let x = local();
    let y = PeerAddr::new(10, 0, 0, 9, 8888);
    let mut at_x = PeerList::new();
    let mut at_y = PeerList::new();
    at_x.add_or_update_peer(alice(), "alice".to_string(), 1);

    let hello = encode(&Message::new_discovery("y".to_string(), y));
    let (from_x, _) = handled(dispatch(&hello, &mut at_x, "x", x, 2));
    assert!(from_x.iter().all(|o| o.destination == y));

    let mut from_y = vec![];
    for datagram in &from_x {
        let (sends, _) = handled(dispatch(&encode(&datagram.message), &mut at_y, "y", y, 3));
        from_y.extend(sends);
    }
    assert_eq!(at_y.get_peers(), vec![peer(x, "x", 3), peer(alice(), "10.0.0.2:9487", 3)]);
    let to_alice: Vec<&Outbound> = from_y.iter().filter(|o| o.destination == alice()).collect();
    assert_eq!(to_alice.len(), 1);
    assert_eq!(to_alice[0].message, Message::new_discovery("y".to_string(), y));
}
