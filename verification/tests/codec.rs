use rossip::addr::PeerAddr;
use rossip::codec::{decode, encode, DecodeError};
use rossip::message::Message;

fn local() -> PeerAddr {
    PeerAddr::new(10, 0, 0, 1, 8888)
}

fn length(n: u8) -> Vec<u8> {
    vec![0, 0, 0, 0, 0, 0, 0, n]
}

fn field(text: &str) -> Vec<u8> {
    let mut bytes = length(text.len() as u8);
    bytes.extend_from_slice(text.as_bytes());
    bytes
}

#[test]
fn round_trip_chat() {
    let m = Message::new_chat("alice".to_string(), "hello, world".to_string(), local());
    assert_eq!(decode(&encode(&m)), Ok(m));
}

#[test]
fn round_trip_discovery() {
    let m = Message::new_discovery("alice".to_string(), local());
    assert_eq!(decode(&encode(&m)), Ok(m));
}

#[test]
fn round_trip_peer_list() {
    let m = Message::new_peer_list(
        "alice".to_string(),
        vec!["10.0.0.2:9487".to_string(), "10.0.0.3:9487".to_string()],
        local(),
    );
    assert_eq!(decode(&encode(&m)), Ok(m));
}

#[test]
fn round_trip_heartbeat() {
    let m = Message::new_heartbeat("alice".to_string(), local());
    assert_eq!(decode(&encode(&m)), Ok(m));
}

#[test]
fn round_trip_keeps_odd_texts() {
    let odd = ["", ",", "a,b", "\u{0}", "h\u{e9}llo \u{2713} \u{1f600}", "10.0.0.2:9487,", " "];
    for name in odd {
        for text in odd {
            let chat = Message::Chat {
                sender_name: name.to_string(),
                text: text.to_string(),
                sender_addr: text.to_string(),
            };
            assert_eq!(decode(&encode(&chat)), Ok(chat));
        }
    }
    let empty_list = Message::new_peer_list(String::new(), vec![], local());
    assert_eq!(decode(&encode(&empty_list)), Ok(empty_list));
    let list = Message::PeerList {
        sender_name: "n".to_string(),
        peer_addrs: odd.iter().map(|s| s.to_string()).collect(),
        sender_addr: "not an endpoint".to_string(),
    };
    assert_eq!(decode(&encode(&list)), Ok(list));
    let one_empty = Message::new_peer_list("n".to_string(), vec![String::new()], local());
    assert_eq!(decode(&encode(&one_empty)), Ok(one_empty));
}

#[test]
fn round_trip_keeps_long_texts() {
    let long = "x".repeat(70_000);
    let m = Message::new_chat(long.clone(), long.clone(), local());
    let bytes = encode(&m);
    assert_eq!(bytes.len(), 1 + 8 + 70_000 + 8 + 13 + 8 + 70_000);
    assert_eq!(&bytes[1..9], &[0, 0, 0, 0, 0, 1, 0x11, 0x70]);
    assert_eq!(decode(&bytes), Ok(m));
}

#[test]
fn wire_form_of_a_discovery() {
    let m = Message::new_discovery("al".to_string(), PeerAddr::new(1, 2, 3, 4, 5));
    let mut expected = vec![2u8];
    expected.extend(length(2));
    expected.extend(b"al");
    expected.extend(length(9));
    expected.extend(b"1.2.3.4:5");
    assert_eq!(encode(&m), expected);
}

#[test]
fn wire_form_of_a_heartbeat() {
    let m = Message::new_heartbeat("\u{e9}".to_string(), PeerAddr::new(1, 2, 3, 4, 5));
    let mut expected = vec![4u8];
    expected.extend(length(2));
    expected.extend([0xc3, 0xa9]);
    expected.extend(field("1.2.3.4:5"));
    assert_eq!(encode(&m), expected);
}

#[test]
fn wire_form_of_a_chat() {
    let m = Message::new_chat("al".to_string(), "hi!".to_string(), PeerAddr::new(1, 2, 3, 4, 5));
    let mut expected = vec![1u8];
    expected.extend(field("al"));
    expected.extend(field("1.2.3.4:5"));
    expected.extend(field("hi!"));
    assert_eq!(encode(&m), expected);
}

#[test]
fn wire_form_of_a_peer_list() {
    let m = Message::new_peer_list(
        "al".to_string(),
        vec!["10.0.0.2:9487".to_string(), "x".to_string()],
        PeerAddr::new(1, 2, 3, 4, 5),
    );
    let mut expected = vec![3u8];
    expected.extend(field("al"));
    expected.extend(field("1.2.3.4:5"));
    expected.extend(length(2));
    expected.extend(field("10.0.0.2:9487"));
    expected.extend(field("x"));
    assert_eq!(encode(&m), expected);
}

#[test]
fn decode_reads_what_was_written_by_hand() {
    let mut bytes = vec![3u8];
    bytes.extend(field("bob"));
    bytes.extend(field("somewhere"));
    bytes.extend(length(3));
    bytes.extend(field("a"));
    bytes.extend(field(""));
    bytes.extend(field("\u{2713}"));
    assert_eq!(
        decode(&bytes),
        Ok(Message::PeerList {
            sender_name: "bob".to_string(),
            peer_addrs: vec!["a".to_string(), String::new(), "\u{2713}".to_string()],
            sender_addr: "somewhere".to_string(),
        })
    );
}

#[test]
fn decode_rejects_no_bytes() {
    assert_eq!(decode(&[]), Err(DecodeError::Empty));
}

#[test]
fn decode_rejects_unknown_kinds() {
    assert_eq!(decode(&[0]), Err(DecodeError::UnknownKind(0)));
    assert_eq!(decode(&[5]), Err(DecodeError::UnknownKind(5)));
    assert_eq!(decode(&[255, 1, 2, 3]), Err(DecodeError::UnknownKind(255)));
    let mut bytes = encode(&Message::new_discovery("alice".to_string(), local()));
    bytes[0] = 9;
    assert_eq!(decode(&bytes), Err(DecodeError::UnknownKind(9)));
    assert_eq!(decode(b"{\"kind\":\"Discovery\"}"), Err(DecodeError::UnknownKind(b'{')));
}

#[test]
fn decode_rejects_every_cut_message() {
    let messages = [
        Message::new_chat("alice".to_string(), "hello".to_string(), local()),
        Message::new_discovery("alice".to_string(), local()),
        Message::new_peer_list("alice".to_string(), vec!["a".to_string(), "b".to_string()], local()),
        Message::new_heartbeat("alice".to_string(), local()),
    ];
    for m in messages {
        let bytes = encode(&m);
        for cut in 1..bytes.len() {
            assert_eq!(decode(&bytes[..cut]), Err(DecodeError::Truncated), "{:?} cut at {}", m, cut);
        }
        assert_eq!(decode(&bytes[..0]), Err(DecodeError::Empty));
    }
}

#[test]
fn decode_rejects_a_length_beyond_the_end() {
    let mut bytes = vec![2u8];
    bytes.extend([0xff; 8]);
    bytes.extend(b"alice");
    assert_eq!(decode(&bytes), Err(DecodeError::Truncated));
    let mut list = vec![3u8];
    list.extend(field("a"));
    list.extend(field("b"));
    list.extend([0xff; 8]);
    list.extend(field("c"));
    assert_eq!(decode(&list), Err(DecodeError::Truncated));
}

#[test]
fn decode_rejects_text_that_is_not_utf8() {
    let mut bytes = vec![2u8];
    bytes.extend(length(2));
    bytes.extend([0xff, 0xfe]);
    bytes.extend(field("1.2.3.4:5"));
    assert_eq!(decode(&bytes), Err(DecodeError::InvalidText));
    let mut half = vec![4u8];
    half.extend(field("al"));
    half.extend(length(1));
    half.extend([0xc3]);
    assert_eq!(decode(&half), Err(DecodeError::InvalidText));
    let mut surrogate = vec![1u8];
    surrogate.extend(field("al"));
    surrogate.extend(field("x"));
    surrogate.extend(length(3));
    surrogate.extend([0xed, 0xa0, 0x80]);
    assert_eq!(decode(&surrogate), Err(DecodeError::InvalidText));
}

#[test]
fn decode_reports_the_first_fault() {
    let mut bytes = vec![2u8];
    bytes.extend(length(1));
    bytes.extend([0xff]);
    bytes.extend(length(9));
    assert_eq!(decode(&bytes), Err(DecodeError::InvalidText));
}

#[test]
fn decode_rejects_bytes_after_the_message() {
    for m in [
        Message::new_chat("alice".to_string(), "hello".to_string(), local()),
        Message::new_discovery("alice".to_string(), local()),
        Message::new_peer_list("alice".to_string(), vec!["a".to_string()], local()),
        Message::new_heartbeat("alice".to_string(), local()),
    ] {
        let mut bytes = encode(&m);
        bytes.push(0);
        assert_eq!(decode(&bytes), Err(DecodeError::TrailingBytes));
    }
}

#[test]
fn decoded_bytes_are_the_wire_form_of_what_was_read() {
    let mut bytes = vec![1u8];
    bytes.extend(field("n"));
    bytes.extend(field("a"));
    bytes.extend(field("t"));
    let m = decode(&bytes).unwrap();
    assert_eq!(encode(&m), bytes);
}

fn next_random(state: &mut u64) -> u64 {
    *state = state.wrapping_mul(6364136223846793005).wrapping_add(1442695040888963407);
    *state >> 33
}

#[test]
fn decode_takes_any_bytes() {
    let mut state = 7u64;
    let mut read = 0;
    let mut refused = 0;
    for _ in 0..20_000 {
        let text = |state: &mut u64| -> String {
            let len = next_random(state) % 4;
            (0..len).map(|_| ['a', ',', '\u{e9}', '1'][(next_random(state) % 4) as usize]).collect()
        };
        let name = text(&mut state);
        let m = match next_random(&mut state) % 4 {
            0 => Message::new_chat(name, text(&mut state), local()),
            1 => Message::new_discovery(name, local()),
            2 => {
                let count = next_random(&mut state) % 3;
                let entries = (0..count).map(|_| text(&mut state)).collect();
                Message::new_peer_list(name, entries, local())
            },
            _ => Message::new_heartbeat(name, local()),
        };
        let mut bytes = encode(&m);
        let at = (next_random(&mut state) as usize) % bytes.len();
        match next_random(&mut state) % 4 {
            0 => bytes[at] = (next_random(&mut state) % 256) as u8,
            1 => bytes.truncate(at),
            2 => bytes.insert(at, (next_random(&mut state) % 256) as u8),
            _ => {},
        }
        match decode(&bytes) {
            Ok(back) => {
                assert_eq!(encode(&back), bytes);
                read += 1;
            },
            Err(_) => refused += 1,
        }
    }
    assert!(read > 1000);
    assert!(refused > 1000);
}
