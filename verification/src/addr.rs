//! Network endpoints and their text form, `a.b.c.d:port`.
//!
//! The text form is what travels inside messages. Reading it is strict about
//! the host (each octet in decimal, without superfluous zeros) and lenient
//! about the port (any run of decimal digits whose value fits sixteen bits).
//! Writing it always gives the shortest form, and reading that form gives the
//! endpoint back.

use vstd::prelude::*;
use vstd::utf8::*;

use crate::text::{ascii_bytes, ascii_chars, string_from_ascii};

verus! {

/// An IPv4 endpoint: the four octets of the host and the port.
#[derive(Clone, Copy, Debug, PartialEq, Eq, Hash, Structural)]
pub struct PeerAddr {
    pub a: u8,
    pub b: u8,
    pub c: u8,
    pub d: u8,
    pub port: u16,
}

/// The byte `.`, which separates the octets.
pub const DOT: u8 = 46;

/// The byte `:`, which separates host and port.
pub const COLON: u8 = 58;

/// The byte `0`; the other digits follow it.
pub const ZERO: u8 = 48;

pub open spec fn is_digit(b: u8) -> bool {
    ZERO <= b <= ZERO + 9
}

pub open spec fn all_digits(t: Seq<u8>) -> bool {
    forall|i: int| 0 <= i < t.len() ==> is_digit(#[trigger] t[i])
}

/// The number that a run of decimal digits denotes.
pub open spec fn decimal_value(t: Seq<u8>) -> nat
    decreases t.len(),
{
    if t.len() == 0 {
        0
    } else {
        decimal_value(t.drop_last()) * 10 + (t.last() - ZERO) as nat
    }
}

/// One octet of the host: one to three digits, no zero in front of another
/// digit, at most 255.
pub open spec fn is_octet_text(t: Seq<u8>) -> bool {
    &&& 1 <= t.len() <= 3
    &&& all_digits(t)
    &&& (t.len() > 1 ==> t[0] != ZERO)
    &&& decimal_value(t) <= 255
}

/// The port: at least one digit, at most 65535; zeros in front are accepted.
pub open spec fn is_port_text(t: Seq<u8>) -> bool {
    &&& t.len() >= 1
    &&& all_digits(t)
    &&& decimal_value(t) <= 65535
}

/// The first position at or after `from` that holds `sep`; the length of `s`
/// where there is none.
pub open spec fn next_sep(s: Seq<u8>, from: int, sep: u8) -> int
    decreases s.len() - from,
{
    if from < 0 || from >= s.len() {
        s.len() as int
    } else if s[from] == sep {
        from
    } else {
        next_sep(s, from + 1, sep)
    }
}

/// The endpoint that the bytes `s` spell, if they spell one.
///
/// The host ends at the first `:` after its three dots; what follows is the
/// port, up to the end of `s`.
pub open spec fn parse_ascii(s: Seq<u8>) -> Option<PeerAddr> {
    let i1 = next_sep(s, 0, DOT);
    let i2 = next_sep(s, i1 + 1, DOT);
    let i3 = next_sep(s, i2 + 1, DOT);
    let i4 = next_sep(s, i3 + 1, COLON);
    let len = s.len() as int;
    if i4 < len && is_octet_text(s.subrange(0, i1)) && is_octet_text(s.subrange(i1 + 1, i2))
        && is_octet_text(s.subrange(i2 + 1, i3)) && is_octet_text(s.subrange(i3 + 1, i4))
        && is_port_text(s.subrange(i4 + 1, len)) {
        Some(
            PeerAddr {
                a: decimal_value(s.subrange(0, i1)) as u8,
                b: decimal_value(s.subrange(i1 + 1, i2)) as u8,
                c: decimal_value(s.subrange(i2 + 1, i3)) as u8,
                d: decimal_value(s.subrange(i3 + 1, i4)) as u8,
                port: decimal_value(s.subrange(i4 + 1, len)) as u16,
            },
        )
    } else {
        None
    }
}

/// The shortest run of decimal digits that denotes `n`.
pub open spec fn decimal_text(n: nat) -> Seq<u8>
    decreases n,
{
    if n < 10 {
        seq![(ZERO + n) as u8]
    } else {
        decimal_text(n / 10).push((ZERO + n % 10) as u8)
    }
}

/// The bytes of the text form of `a`.
pub open spec fn text_bytes(a: PeerAddr) -> Seq<u8> {
    decimal_text(a.a as nat) + seq![DOT] + decimal_text(a.b as nat) + seq![DOT] + decimal_text(
        a.c as nat,
    ) + seq![DOT] + decimal_text(a.d as nat) + seq![COLON] + decimal_text(a.port as nat)
}

/// The endpoint that the text `s` spells, if it spells one.
pub open spec fn parse_text(s: Seq<char>) -> Option<PeerAddr> {
    if is_ascii_chars(s) {
        parse_ascii(ascii_bytes(s))
    } else {
        None
    }
}

/// The text form of `a`.
pub open spec fn text_of(a: PeerAddr) -> Seq<char> {
    ascii_chars(text_bytes(a))
}

/// A run of digits denotes at least what any of its prefixes denotes.
proof fn lemma_decimal_value_grows(t: Seq<u8>, k: int)
    requires
        all_digits(t),
        0 <= k <= t.len(),
    ensures
        decimal_value(t.take(k)) <= decimal_value(t),
    decreases t.len() - k,
{
    if k == t.len() {
        assert(t.take(k) =~= t);
    } else {
        lemma_decimal_value_grows(t, k + 1);
        assert(t.take(k + 1).drop_last() =~= t.take(k));
        assert(is_digit(t[k]));
    }
}

/// Where `i` is the first position from `from` on that holds `sep`, it is
/// what `next_sep` finds.
proof fn lemma_next_sep_found(s: Seq<u8>, from: int, i: int, sep: u8)
    requires
        0 <= from <= i < s.len(),
        s[i] == sep,
        forall|k: int| from <= k < i ==> s[k] != sep,
    ensures
        next_sep(s, from, sep) == i,
    decreases i - from,
{
    if from < i {
        lemma_next_sep_found(s, from + 1, i, sep);
    }
}

fn find_sep(s: &[u8], from: usize, sep: u8) -> (r: usize)
    ensures
        r == next_sep(s@, from as int, sep),
        from <= r <= s.len() || (from > s.len() && r == s.len()),
{
    let mut i: usize = from;
    while i < s.len() && s[i] != sep
        invariant
            from <= i,
            next_sep(s@, from as int, sep) == next_sep(s@, i as int, sep),
        decreases s.len() - i,
    {
        i = i + 1;
    }
    if i < s.len() {
        i
    } else {
        s.len()
    }
}

/// The number that the digits in `s[from..to]` denote, where they are digits
/// and denote at most `limit`.
fn read_decimal(s: &[u8], from: usize, to: usize, limit: u32) -> (r: Option<u32>)
    requires
        from <= to <= s.len(),
        limit <= 65535,
    ensures
        r is Some <==> all_digits(s@.subrange(from as int, to as int)) && decimal_value(
            s@.subrange(from as int, to as int),
        ) <= limit,
        r matches Some(v) ==> v == decimal_value(s@.subrange(from as int, to as int)),
{
    let ghost t = s@.subrange(from as int, to as int);
    let mut value: u32 = 0;
    let mut i: usize = from;
    assert(t.take(0) =~= Seq::<u8>::empty());
    while i < to
        invariant
            from <= i <= to <= s.len(),
            limit <= 65535,
            t == s@.subrange(from as int, to as int),
            all_digits(t.take(i - from)),
            value == decimal_value(t.take(i - from)),
            value <= limit,
        decreases to - i,
    {
        let b: u8 = s[i];
        assert(t[i - from] == b);
        if b < ZERO || b > ZERO + 9 {
            assert(!is_digit(t[i - from]));
            return None;
        }
        let next: u32 = value * 10 + (b - ZERO) as u32;
        proof {
            assert(t.take(i - from + 1).drop_last() =~= t.take(i - from));
            assert(t.take(i - from + 1).last() == b);
            assert(next == decimal_value(t.take(i - from + 1)));
            assert forall|k: int| 0 <= k < i - from + 1 implies is_digit(
                #[trigger] t.take(i - from + 1)[k],
            ) by {
                if k < i - from {
                    assert(t.take(i - from)[k] == t[k]);
                }
            }
        }
        if next > limit {
            proof {
                if all_digits(t) {
                    lemma_decimal_value_grows(t, i - from + 1);
                }
            }
            return None;
        }
        value = next;
        i = i + 1;
    }
    assert(t.take(to - from) =~= t);
    Some(value)
}

/// The octet that `s[from..to]` spells, if it spells one.
fn read_octet(s: &[u8], from: usize, to: usize) -> (r: Option<u8>)
    requires
        from <= to <= s.len(),
    ensures
        r is Some <==> is_octet_text(s@.subrange(from as int, to as int)),
        r matches Some(v) ==> v == decimal_value(s@.subrange(from as int, to as int)),
{
    let ghost t = s@.subrange(from as int, to as int);
    if to - from < 1 || to - from > 3 {
        return None;
    }
    assert(t[0] == s@[from as int]);
    if to - from > 1 && s[from] == ZERO {
        return None;
    }
    match read_decimal(s, from, to, 255) {
        Some(v) => Some(v as u8),
        None => None,
    }
}

/// The port that `s[from..]` spells, if it spells one.
fn read_port(s: &[u8], from: usize) -> (r: Option<u16>)
    requires
        from <= s.len(),
    ensures
        r is Some <==> is_port_text(s@.subrange(from as int, s.len() as int)),
        r matches Some(v) ==> v == decimal_value(s@.subrange(from as int, s.len() as int)),
{
    if s.len() - from < 1 {
        return None;
    }
    match read_decimal(s, from, s.len(), 65535) {
        Some(v) => Some(v as u16),
        None => None,
    }
}

/// Reads an endpoint from the bytes of its text form.
pub fn parse_bytes(s: &[u8]) -> (r: Option<PeerAddr>)
    ensures
        r == parse_ascii(s@),
{
    let i1: usize = find_sep(s, 0, DOT);
    if i1 >= s.len() {
        return None;
    }
    let i2: usize = find_sep(s, i1 + 1, DOT);
    if i2 >= s.len() {
        return None;
    }
    let i3: usize = find_sep(s, i2 + 1, DOT);
    if i3 >= s.len() {
        return None;
    }
    let i4: usize = find_sep(s, i3 + 1, COLON);
    if i4 >= s.len() {
        return None;
    }
    let a: u8 = match read_octet(s, 0, i1) {
        Some(v) => v,
        None => { return None; },
    };
    let b: u8 = match read_octet(s, i1 + 1, i2) {
        Some(v) => v,
        None => { return None; },
    };
    let c: u8 = match read_octet(s, i2 + 1, i3) {
        Some(v) => v,
        None => { return None; },
    };
    let d: u8 = match read_octet(s, i3 + 1, i4) {
        Some(v) => v,
        None => { return None; },
    };
    let port: u16 = match read_port(s, i4 + 1) {
        Some(v) => v,
        None => { return None; },
    };
    Some(PeerAddr { a, b, c, d, port })
}

/// What `decimal_text` writes is read back as the number it was written for,
/// and is as short as the number allows.
pub proof fn lemma_decimal_text(n: nat)
    ensures
        decimal_text(n).len() >= 1,
        decimal_text(n).len() > 1 <==> n >= 10,
        all_digits(decimal_text(n)),
        decimal_value(decimal_text(n)) == n,
        decimal_text(n).len() > 1 ==> decimal_text(n)[0] != ZERO,
        n <= 255 ==> decimal_text(n).len() <= 3,
        n <= 65535 ==> decimal_text(n).len() <= 5,
    decreases n,
{
    let t = decimal_text(n);
    if n < 10 {
        assert(t.drop_last() =~= Seq::<u8>::empty());
        assert(decimal_value(t.drop_last()) == 0);
    } else {
        lemma_decimal_text(n / 10);
        assert(t.drop_last() =~= decimal_text(n / 10));
        assert(t[0] == decimal_text(n / 10)[0]);
        if n / 10 < 10 {
            assert(decimal_text(n / 10)[0] == (ZERO + n / 10) as u8);
        }
        lemma_decimal_text_short(n / 10);
    }
}

proof fn lemma_decimal_text_short(n: nat)
    ensures
        n < 10 ==> decimal_text(n).len() == 1,
        n < 100 ==> decimal_text(n).len() <= 2,
        n < 1000 ==> decimal_text(n).len() <= 3,
        n < 10000 ==> decimal_text(n).len() <= 4,
    decreases n,
{
    if n >= 10 {
        lemma_decimal_text_short(n / 10);
    }
}

/// Reading the text form of an endpoint gives the endpoint back.
pub proof fn lemma_parse_text_bytes(a: PeerAddr)
    ensures
        parse_ascii(text_bytes(a)) == Some(a),
        crate::text::is_ascii_bytes(text_bytes(a)),
{
    let ta = decimal_text(a.a as nat);
    let tb = decimal_text(a.b as nat);
    let tc = decimal_text(a.c as nat);
    let td = decimal_text(a.d as nat);
    let tp = decimal_text(a.port as nat);
    lemma_decimal_text(a.a as nat);
    lemma_decimal_text(a.b as nat);
    lemma_decimal_text(a.c as nat);
    lemma_decimal_text(a.d as nat);
    lemma_decimal_text(a.port as nat);
    let s = text_bytes(a);
    let i1 = ta.len() as int;
    let i2 = i1 + 1 + tb.len();
    let i3 = i2 + 1 + tc.len();
    let i4 = i3 + 1 + td.len();
    assert(s.len() == i4 + 1 + tp.len());
    assert(s[i1] == DOT && s[i2] == DOT && s[i3] == DOT && s[i4] == COLON);
    assert(s.subrange(0, i1) =~= ta);
    assert(s.subrange(i1 + 1, i2) =~= tb);
    assert(s.subrange(i2 + 1, i3) =~= tc);
    assert(s.subrange(i3 + 1, i4) =~= td);
    assert(s.subrange(i4 + 1, s.len() as int) =~= tp);
    assert forall|k: int| 0 <= k < i1 implies s[k] != DOT by {
        assert(is_digit(ta[k]));
    }
    assert forall|k: int| i1 + 1 <= k < i2 implies s[k] != DOT by {
        assert(is_digit(tb[k - i1 - 1]));
    }
    assert forall|k: int| i2 + 1 <= k < i3 implies s[k] != DOT by {
        assert(is_digit(tc[k - i2 - 1]));
    }
    assert forall|k: int| i3 + 1 <= k < i4 implies s[k] != COLON by {
        assert(is_digit(td[k - i3 - 1]));
    }
    lemma_next_sep_found(s, 0, i1, DOT);
    lemma_next_sep_found(s, i1 + 1, i2, DOT);
    lemma_next_sep_found(s, i2 + 1, i3, DOT);
    lemma_next_sep_found(s, i3 + 1, i4, COLON);
    assert forall|k: int| 0 <= k < s.len() implies #[trigger] s[k] < 128 by {
        if k < i1 {
            assert(is_digit(ta[k]));
        } else if i1 < k < i2 {
            assert(is_digit(tb[k - i1 - 1]));
        } else if i2 < k < i3 {
            assert(is_digit(tc[k - i2 - 1]));
        } else if i3 < k < i4 {
            assert(is_digit(td[k - i3 - 1]));
        } else if i4 < k {
            assert(is_digit(tp[k - i4 - 1]));
        }
    }
}

/// Reading the text form of an endpoint gives the endpoint back.
pub proof fn lemma_parse_text_of(a: PeerAddr)
    ensures
        parse_text(text_of(a)) == Some(a),
{
    lemma_parse_text_bytes(a);
    crate::text::lemma_ascii_bytes_are_utf8(text_bytes(a));
}

/// Two endpoints with the same text form are the same endpoint.
pub proof fn lemma_text_of_injective(a: PeerAddr, b: PeerAddr)
    requires
        text_of(a) == text_of(b),
    ensures
        a == b,
{
    lemma_parse_text_of(a);
    lemma_parse_text_of(b);
}

/// Appends the decimal digits of `n` to `out`.
fn push_decimal(out: &mut Vec<u8>, n: u16)
    ensures
        final(out)@ == old(out)@ + decimal_text(n as nat),
    decreases n,
{
    if n < 10 {
        out.push(ZERO + n as u8);
        assert(final(out)@ =~= old(out)@ + decimal_text(n as nat));
    } else {
        push_decimal(out, n / 10);
        out.push(ZERO + (n % 10) as u8);
        assert(final(out)@ =~= old(out)@ + decimal_text(n as nat));
    }
}

impl PeerAddr {
    pub fn new(a: u8, b: u8, c: u8, d: u8, port: u16) -> (r: PeerAddr)
        ensures
            r == (PeerAddr { a, b, c, d, port }),
    {
        PeerAddr { a, b, c, d, port }
    }

    /// Reads an endpoint from its text form; `None` where `s` is not the text
    /// form of any endpoint.
    pub fn parse(s: &str) -> (r: Option<PeerAddr>)
        ensures
            r == parse_text(s@),
    {
        if !s.is_ascii() {
            return None;
        }
        proof {
            vstd::string::is_ascii_spec_bytes(s);
        }
        parse_bytes(s.as_bytes())
    }

    /// The bytes of the text form.
    pub fn to_bytes(&self) -> (r: Vec<u8>)
        ensures
            r@ == text_bytes(*self),
    {
        let mut out: Vec<u8> = Vec::new();
        push_decimal(&mut out, self.a as u16);
        out.push(DOT);
        push_decimal(&mut out, self.b as u16);
        out.push(DOT);
        push_decimal(&mut out, self.c as u16);
        out.push(DOT);
        push_decimal(&mut out, self.d as u16);
        out.push(COLON);
        push_decimal(&mut out, self.port);
        assert(out@ =~= text_bytes(*self));
        out
    }

    /// The text form, `a.b.c.d:port`.
    pub fn to_text(&self) -> (r: String)
        ensures
            r@ == text_of(*self),
    {
        let bytes = self.to_bytes();
        proof {
            lemma_parse_text_bytes(*self);
        }
        string_from_ascii(bytes)
    }
}

} // verus!
