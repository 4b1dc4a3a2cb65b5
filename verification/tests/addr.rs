use rossip::addr::{parse_bytes, PeerAddr};

#[test]
fn parses_a_plain_endpoint() {
    assert_eq!(PeerAddr::parse("10.0.0.2:9487"), Some(PeerAddr::new(10, 0, 0, 2, 9487)));
    assert_eq!(PeerAddr::parse("0.0.0.0:0"), Some(PeerAddr::new(0, 0, 0, 0, 0)));
    assert_eq!(
        PeerAddr::parse("255.255.255.255:65535"),
        Some(PeerAddr::new(255, 255, 255, 255, 65535))
    );
}

#[test]
fn writes_the_shortest_form() {
    assert_eq!(PeerAddr::new(10, 0, 0, 2, 9487).to_text(), "10.0.0.2:9487");
    assert_eq!(PeerAddr::new(0, 0, 0, 0, 0).to_text(), "0.0.0.0:0");
    assert_eq!(PeerAddr::new(255, 255, 255, 255, 65535).to_text(), "255.255.255.255:65535");
    assert_eq!(PeerAddr::new(192, 168, 1, 100, 80).to_text(), "192.168.1.100:80");
    assert_eq!(PeerAddr::new(1, 20, 200, 9, 10000).to_bytes(), b"1.20.200.9:10000".to_vec());
}

#[test]
fn port_may_carry_zeros_in_front() {
    assert_eq!(PeerAddr::parse("1.2.3.4:0080"), Some(PeerAddr::new(1, 2, 3, 4, 80)));
    assert_eq!(PeerAddr::parse("1.2.3.4:000000000001"), Some(PeerAddr::new(1, 2, 3, 4, 1)));
    assert_eq!(PeerAddr::parse("1.2.3.4:00"), Some(PeerAddr::new(1, 2, 3, 4, 0)));
}

#[test]
fn octet_may_not_carry_zeros_in_front() {
    assert_eq!(PeerAddr::parse("01.2.3.4:80"), None);
    assert_eq!(PeerAddr::parse("1.2.3.04:80"), None);
    assert_eq!(PeerAddr::parse("1.00.3.4:80"), None);
    assert_eq!(PeerAddr::parse("1.0.3.4:80"), Some(PeerAddr::new(1, 0, 3, 4, 80)));
}

#[test]
fn rejects_numbers_out_of_range() {
    assert_eq!(PeerAddr::parse("256.1.1.1:80"), None);
    assert_eq!(PeerAddr::parse("1.1.1.999:80"), None);
    assert_eq!(PeerAddr::parse("1000.2.3.4:1"), None);
    assert_eq!(PeerAddr::parse("1.2.3.4:65536"), None);
    assert_eq!(PeerAddr::parse("1.2.3.4:99999999999999999999999"), None);
    assert_eq!(PeerAddr::parse("1.2.3.4:65535"), Some(PeerAddr::new(1, 2, 3, 4, 65535)));
}

#[test]
fn rejects_what_is_not_an_endpoint() {
    for text in [
        "",
        ":",
        "1.2.3.4",
        "1.2.3.4:",
        ":80",
        "1.2.3:80",
        "1.2.3.4.5:80",
        "1..3.4:80",
        ".1.2.3:80",
        "1.2.3.4:80 ",
        " 1.2.3.4:80",
        "1.2.3.4:+80",
        "1.2.3.4:-1",
        "1.2.3.4:8a",
        "a.b.c.d:80",
        "1.2.3.4:80:90",
        "1:2.3.4.5",
        "localhost:80",
        "[::1]:80",
        "1.2.3.4:8\u{e9}",
        "\u{665}.2.3.4:80",
        "10.0.0.2:9487,10.0.0.3:9487",
    ] {
        assert_eq!(PeerAddr::parse(text), None, "{:?}", text);
    }
}

#[test]
fn text_form_reads_back() {
    for addr in [
        PeerAddr::new(10, 0, 0, 2, 9487),
        PeerAddr::new(0, 0, 0, 0, 0),
        PeerAddr::new(255, 255, 255, 255, 65535),
        PeerAddr::new(9, 10, 99, 100, 9),
        PeerAddr::new(127, 0, 0, 1, 8888),
    ] {
        assert_eq!(PeerAddr::parse(&addr.to_text()), Some(addr));
        assert_eq!(parse_bytes(&addr.to_bytes()), Some(addr));
    }
}

#[test]
fn text_form_reads_back_for_every_octet_and_many_ports() {
    for octet in 0..=255u8 {
        let addr = PeerAddr::new(octet, 255 - octet, octet / 2, octet, 257 * octet as u16);
        assert_eq!(PeerAddr::parse(&addr.to_text()), Some(addr));
    }
}

fn digits(text: &str, most: usize, zeros_in_front: bool, limit: u32) -> Option<u32> {
    if text.is_empty() || text.len() > most || !text.bytes().all(|b| b.is_ascii_digit()) {
        return None;
    }
    if !zeros_in_front && text.len() > 1 && text.starts_with('0') {
        return None;
    }
    let value = text.trim_start_matches('0');
    if value.len() > 5 {
        return None;
    }
    let n: u32 = if value.is_empty() { 0 } else { value.parse().ok()? };
    if n > limit {
        None
    } else {
        Some(n)
    }
}

fn by_splitting(text: &str) -> Option<PeerAddr> {
    let (host, port) = text.split_once(':')?;
    let octets: Vec<&str> = host.split('.').collect();
    if octets.len() != 4 {
        return None;
    }
    Some(PeerAddr::new(
        digits(octets[0], 3, false, 255)? as u8,
        digits(octets[1], 3, false, 255)? as u8,
        digits(octets[2], 3, false, 255)? as u8,
        digits(octets[3], 3, false, 255)? as u8,
        digits(port, usize::MAX, true, 65535)? as u16,
    ))
}

#[test]
fn reads_as_splitting_at_the_separators_does() {
    let alphabet = b"0123456789..::0125";
    let mut state = 11u64;
    let mut read = 0;
    for round in 0..200_000u32 {
        state = state.wrapping_mul(6364136223846793005).wrapping_add(1442695040888963407);
        let mut bits = state >> 11;
        let text: String = if round % 4 == 0 {
            let pick = |bits: &mut u64, of: u64| {
                let v = *bits % of;
                *bits /= of;
                v
            };
            format!(
                "{}.{}.{}.{}:{}",
                pick(&mut bits, 300),
                pick(&mut bits, 12),
                pick(&mut bits, 260),
                pick(&mut bits, 2),
                pick(&mut bits, 70_000)
            )
        } else {
            let len = (bits % 16) as usize;
            bits /= 16;
            (0..len)
                .map(|_| {
                    let c = alphabet[(bits % alphabet.len() as u64) as usize];
                    bits /= alphabet.len() as u64;
                    c as char
                })
                .collect()
        };
        let expected = by_splitting(&text);
        assert_eq!(PeerAddr::parse(&text), expected, "{:?}", text);
        if expected.is_some() {
            read += 1;
        }
    }
    assert!(read > 1000);
}
