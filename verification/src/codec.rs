//! The wire form of messages.
//!
//! A message travels as one byte that says what kind it is, followed by its
//! fields. A text field is its length in bytes, as eight bytes with the most
//! significant first, and then its UTF-8 encoding. A peer list carries the
//! number of its entries in the same eight-byte form, and then each entry as
//! a text field. Nothing may follow the last field.

use vstd::prelude::*;
use vstd::slice::{slice_subrange, slice_to_vec};
use vstd::utf8::*;

use crate::message::{string_views, Message, MessageView};
use crate::text::string_from_utf8;

verus! {

/// Why bytes are not the wire form of a message.
#[derive(Debug, Clone, Copy, PartialEq, Eq, Structural)]
pub enum DecodeError {
    /// There are no bytes at all.
    Empty,
    /// The first byte is not the tag of any kind of message.
    UnknownKind(u8),
    /// The bytes end inside a field.
    Truncated,
    /// A text field is not UTF-8.
    InvalidText,
    /// Bytes follow the last field.
    TrailingBytes,
}

pub const TAG_CHAT: u8 = 1;

pub const TAG_DISCOVERY: u8 = 2;

pub const TAG_PEER_LIST: u8 = 3;

pub const TAG_HEARTBEAT: u8 = 4;

/// The last `width` digits of `n` in base 256, most significant first.
pub open spec fn be_bytes(n: nat, width: nat) -> Seq<u8>
    decreases width,
{
    if width == 0 {
        Seq::empty()
    } else {
        be_bytes(n / 256, (width - 1) as nat).push((n % 256) as u8)
    }
}

/// The number whose digits in base 256 are `b`, most significant first.
pub open spec fn be_value(b: Seq<u8>) -> nat
    decreases b.len(),
{
    if b.len() == 0 {
        0
    } else {
        be_value(b.drop_last()) * 256 + b.last() as nat
    }
}

/// The eight bytes that stand for `n`, most significant first.
pub open spec fn be_u64(n: nat) -> Seq<u8> {
    be_bytes(n, 8)
}

/// The number that eight bytes stand for, most significant first.
pub open spec fn from_be_u64(b: Seq<u8>) -> nat {
    be_value(b)
}

/// The wire form of one text field.
pub open spec fn encode_text(s: Seq<char>) -> Seq<u8> {
    be_u64(encode_utf8(s).len()) + encode_utf8(s)
}

/// The wire forms of text fields, one after the other.
pub open spec fn encode_texts(entries: Seq<Seq<char>>) -> Seq<u8>
    decreases entries.len(),
{
    if entries.len() == 0 {
        Seq::empty()
    } else {
        encode_texts(entries.drop_last()) + encode_text(entries.last())
    }
}

/// The wire form of a message.
pub open spec fn spec_encode(m: MessageView) -> Seq<u8> {
    match m {
        MessageView::Chat { sender_name, text, sender_addr } => seq![TAG_CHAT] + encode_text(
            sender_name,
        ) + encode_text(sender_addr) + encode_text(text),
        MessageView::Discovery { sender_name, sender_addr } => seq![TAG_DISCOVERY] + encode_text(
            sender_name,
        ) + encode_text(sender_addr),
        MessageView::PeerList { sender_name, peer_addrs, sender_addr } => seq![TAG_PEER_LIST]
            + encode_text(sender_name) + encode_text(sender_addr) + be_u64(peer_addrs.len())
            + encode_texts(peer_addrs),
        MessageView::Heartbeat { sender_name, sender_addr } => seq![TAG_HEARTBEAT] + encode_text(
            sender_name,
        ) + encode_text(sender_addr),
    }
}

/// A message whose wire form says all of it: each text, and the list of
/// entries, is short enough for its length to stand in eight bytes. Every
/// message that a program holds is.
pub open spec fn encodable(m: MessageView) -> bool {
    &&& encode_utf8(m.sender_name()).len() <= u64::MAX
    &&& encode_utf8(m.sender_addr()).len() <= u64::MAX
    &&& m matches MessageView::Chat { text, .. } ==> encode_utf8(text).len() <= u64::MAX
    &&& m matches MessageView::PeerList { peer_addrs, .. } ==> {
        &&& peer_addrs.len() <= u64::MAX
        &&& forall|i: int|
            0 <= i < peer_addrs.len() ==> encode_utf8(#[trigger] peer_addrs[i]).len() <= u64::MAX
    }
}

/// The number in the eight bytes at `pos`, and the position after them.
pub open spec fn take_u64(b: Seq<u8>, pos: int) -> Result<(nat, int), DecodeError> {
    if 0 <= pos && pos + 8 <= b.len() {
        Ok((from_be_u64(b.subrange(pos, pos + 8)), pos + 8))
    } else {
        Err(DecodeError::Truncated)
    }
}

/// The text field at `pos`, and the position after it.
pub open spec fn take_text(b: Seq<u8>, pos: int) -> Result<(Seq<char>, int), DecodeError> {
    match take_u64(b, pos) {
        Ok((n, start)) => {
            if start + n <= b.len() {
                let body = b.subrange(start, start + n);
                if valid_utf8(body) {
                    Ok((decode_utf8(body), start + n))
                } else {
                    Err(DecodeError::InvalidText)
                }
            } else {
                Err(DecodeError::Truncated)
            }
        },
        Err(e) => Err(e),
    }
}

/// The `count` text fields from `pos` on, and the position after them.
pub open spec fn take_texts(b: Seq<u8>, pos: int, count: nat) -> Result<
    (Seq<Seq<char>>, int),
    DecodeError,
>
    decreases count,
{
    if count == 0 {
        Ok((Seq::empty(), pos))
    } else {
        match take_texts(b, pos, (count - 1) as nat) {
            Ok((front, next)) => match take_text(b, next) {
                Ok((last, end)) => Ok((front.push(last), end)),
                Err(e) => Err(e),
            },
            Err(e) => Err(e),
        }
    }
}

/// The fields that follow the sender's name and endpoint, for the kind that
/// `tag` stands for, and the position after them.
pub open spec fn take_rest(
    b: Seq<u8>,
    tag: u8,
    sender_name: Seq<char>,
    sender_addr: Seq<char>,
    pos: int,
) -> Result<(MessageView, int), DecodeError> {
    if tag == TAG_CHAT {
        match take_text(b, pos) {
            Ok((text, end)) => Ok((MessageView::Chat { sender_name, text, sender_addr }, end)),
            Err(e) => Err(e),
        }
    } else if tag == TAG_PEER_LIST {
        match take_u64(b, pos) {
            Ok((count, start)) => match take_texts(b, start, count) {
                Ok((peer_addrs, end)) => Ok(
                    (MessageView::PeerList { sender_name, peer_addrs, sender_addr }, end),
                ),
                Err(e) => Err(e),
            },
            Err(e) => Err(e),
        }
    } else if tag == TAG_DISCOVERY {
        Ok((MessageView::Discovery { sender_name, sender_addr }, pos))
    } else {
        Ok((MessageView::Heartbeat { sender_name, sender_addr }, pos))
    }
}

/// The message that `b` is the wire form of, or what is wrong with `b`. The
/// bytes are read from the front, and the first fault found is the one
/// reported.
pub open spec fn spec_decode(b: Seq<u8>) -> Result<MessageView, DecodeError> {
    if b.len() == 0 {
        Err(DecodeError::Empty)
    } else if !(TAG_CHAT <= b[0] <= TAG_HEARTBEAT) {
        Err(DecodeError::UnknownKind(b[0]))
    } else {
        match take_text(b, 1) {
            Ok((sender_name, p1)) => match take_text(b, p1) {
                Ok((sender_addr, p2)) => match take_rest(b, b[0], sender_name, sender_addr, p2) {
                    Ok((m, end)) => if end == b.len() {
                        Ok(m)
                    } else {
                        Err(DecodeError::TrailingBytes)
                    },
                    Err(e) => Err(e),
                },
                Err(e) => Err(e),
            },
            Err(e) => Err(e),
        }
    }
}

/// 256 to the power of `width`.
pub open spec fn pow256(width: nat) -> nat
    decreases width,
{
    if width == 0 {
        1
    } else {
        256 * pow256((width - 1) as nat)
    }
}

/// The digits of a number that has no more than `width` of them stand for
/// that number.
pub proof fn lemma_be_bytes(n: nat, width: nat)
    requires
        n < pow256(width),
    ensures
        be_bytes(n, width).len() == width,
        be_value(be_bytes(n, width)) == n,
    decreases width,
{
    if width > 0 {
        lemma_be_bytes(n / 256, (width - 1) as nat);
        assert(be_bytes(n, width).drop_last() =~= be_bytes(n / 256, (width - 1) as nat));
    }
}

/// Digits are the digits of the number they stand for.
pub proof fn lemma_be_value(b: Seq<u8>)
    ensures
        be_value(b) < pow256(b.len()),
        be_bytes(be_value(b), b.len()) == b,
    decreases b.len(),
{
    if b.len() > 0 {
        lemma_be_value(b.drop_last());
        assert(be_bytes(be_value(b), b.len()) =~= b);
    }
}

/// Eight bytes stand for the number they were written for.
pub proof fn lemma_be_u64(n: nat)
    requires
        n <= u64::MAX,
    ensures
        be_u64(n).len() == 8,
        from_be_u64(be_u64(n)) == n,
{
    reveal_with_fuel(pow256, 9);
    lemma_be_bytes(n, 8);
}

/// Eight bytes are the form of the number they stand for.
pub proof fn lemma_from_be_u64(b: Seq<u8>)
    requires
        b.len() == 8,
    ensures
        from_be_u64(b) <= u64::MAX,
        be_u64(from_be_u64(b)) == b,
{
    reveal_with_fuel(pow256, 9);
    lemma_be_value(b);
}

fn push_be(out: &mut Vec<u8>, n: u64, width: u8)
    ensures
        final(out)@ == old(out)@ + be_bytes(n as nat, width as nat),
    decreases width,
{
    if width > 0 {
        push_be(out, n / 256, width - 1);
        out.push((n % 256) as u8);
    }
    assert(final(out)@ =~= old(out)@ + be_bytes(n as nat, width as nat));
}

fn push_u64(out: &mut Vec<u8>, n: u64)
    ensures
        final(out)@ == old(out)@ + be_u64(n as nat),
{
    push_be(out, n, 8);
}

fn push_text(out: &mut Vec<u8>, s: &str)
    ensures
        final(out)@ == old(out)@ + encode_text(s@),
        encode_utf8(s@).len() <= u64::MAX,
{
    let bytes = s.as_bytes();
    push_u64(out, bytes.len() as u64);
    let mut i: usize = 0;
    while i < bytes.len()
        invariant
            i <= bytes.len(),
            bytes@ == encode_utf8(s@),
            out@ == old(out)@ + be_u64(bytes@.len()) + bytes@.take(i as int),
        decreases bytes.len() - i,
    {
        out.push(bytes[i]);
        assert(bytes@.take(i + 1) =~= bytes@.take(i as int).push(bytes@[i as int]));
        assert(out@ =~= old(out)@ + be_u64(bytes@.len()) + bytes@.take(i + 1));
        i = i + 1;
    }
    assert(bytes@.take(i as int) =~= bytes@);
    assert(final(out)@ =~= old(out)@ + encode_text(s@));
}

/// The wire form of `msg`.
pub fn encode(msg: &Message) -> (r: Vec<u8>)
    ensures
        r@ == spec_encode(msg@),
        encodable(msg@),
        spec_decode(r@) == Ok::<MessageView, DecodeError>(msg@),
{
    let mut out: Vec<u8> = Vec::new();
    match msg {
        Message::Chat { sender_name, text, sender_addr } => {
            out.push(TAG_CHAT);
            push_text(&mut out, sender_name.as_str());
            push_text(&mut out, sender_addr.as_str());
            push_text(&mut out, text.as_str());
            assert(out@ =~= spec_encode(msg@));
        },
        Message::Discovery { sender_name, sender_addr } => {
            out.push(TAG_DISCOVERY);
            push_text(&mut out, sender_name.as_str());
            push_text(&mut out, sender_addr.as_str());
            assert(out@ =~= spec_encode(msg@));
        },
        Message::PeerList { sender_name, peer_addrs, sender_addr } => {
            out.push(TAG_PEER_LIST);
            push_text(&mut out, sender_name.as_str());
            push_text(&mut out, sender_addr.as_str());
            push_u64(&mut out, peer_addrs.len() as u64);
            let ghost head = out@;
            let ghost entries = string_views(peer_addrs@);
            let mut i: usize = 0;
            assert(entries.take(0) =~= Seq::<Seq<char>>::empty());
            while i < peer_addrs.len()
                invariant
                    i <= peer_addrs.len(),
                    entries == string_views(peer_addrs@),
                    out@ == head + encode_texts(entries.take(i as int)),
                    forall|k: int|
                        0 <= k < i ==> encode_utf8(#[trigger] entries[k]).len() <= u64::MAX,
                decreases peer_addrs.len() - i,
            {
                push_text(&mut out, peer_addrs[i].as_str());
                assert(entries.take(i + 1).drop_last() =~= entries.take(i as int));
                assert(entries.take(i + 1).last() == peer_addrs@[i as int]@);
                assert(out@ =~= head + encode_texts(entries.take(i + 1)));
                i = i + 1;
            }
            assert(entries.take(i as int) =~= entries);
            assert(out@ =~= spec_encode(msg@));
        },
        Message::Heartbeat { sender_name, sender_addr } => {
            out.push(TAG_HEARTBEAT);
            push_text(&mut out, sender_name.as_str());
            push_text(&mut out, sender_addr.as_str());
            assert(out@ =~= spec_encode(msg@));
        },
    }
    proof {
        lemma_decode_encode(msg@);
    }
    out
}

fn read_u64(b: &[u8], pos: usize) -> (r: Result<(u64, usize), DecodeError>)
    requires
        pos <= b.len(),
    ensures
        match (r, take_u64(b@, pos as int)) {
            (Ok((n, next)), Ok((sn, snext))) => n == sn && next == snext && next <= b.len(),
            (Err(e), Err(se)) => e == se,
            _ => false,
        },
{
    if b.len() - pos < 8 {
        return Err(DecodeError::Truncated);
    }
    let ghost w = b@.subrange(pos as int, pos + 8);
    let mut n: u64 = 0;
    let mut i: usize = 0;
    assert(w.take(0) =~= Seq::<u8>::empty());
    while i < 8
        invariant
            i <= 8,
            pos + 8 <= b.len(),
            w == b@.subrange(pos as int, pos + 8),
            n == be_value(w.take(i as int)),
        decreases 8 - i,
    {
        proof {
            reveal_with_fuel(pow256, 9);
            lemma_be_value(w.take(i as int));
            assert(w.take(i + 1).drop_last() =~= w.take(i as int));
            assert(w.take(i + 1).last() == b@[pos + i]);
        }
        n = n * 256 + b[pos + i] as u64;
        i = i + 1;
    }
    assert(w.take(8) =~= w);
    Ok((n, pos + 8))
}

fn read_text(b: &[u8], pos: usize) -> (r: Result<(String, usize), DecodeError>)
    requires
        pos <= b.len(),
    ensures
        match (r, take_text(b@, pos as int)) {
            (Ok((s, next)), Ok((ss, snext))) => s@ == ss && next == snext && next <= b.len(),
            (Err(e), Err(se)) => e == se,
            _ => false,
        },
{
    let (n, start) = match read_u64(b, pos) {
        Ok(x) => x,
        Err(e) => { return Err(e); },
    };
    if n > (b.len() - start) as u64 {
        return Err(DecodeError::Truncated);
    }
    let end: usize = start + n as usize;
    let body = slice_to_vec(slice_subrange(b, start, end));
    match string_from_utf8(body) {
        Some(s) => Ok((s, end)),
        None => Err(DecodeError::InvalidText),
    }
}

/// Once a text field cannot be read, reading more of them fails in the same
/// way.
proof fn lemma_take_texts_fails(b: Seq<u8>, pos: int, k: nat, count: nat, e: DecodeError)
    requires
        k <= count,
        take_texts(b, pos, k) == Err::<(Seq<Seq<char>>, int), DecodeError>(e),
    ensures
        take_texts(b, pos, count) == Err::<(Seq<Seq<char>>, int), DecodeError>(e),
    decreases count,
{
    if k < count {
        lemma_take_texts_fails(b, pos, k, (count - 1) as nat, e);
    }
}

fn read_texts(b: &[u8], pos: usize, count: u64) -> (r: Result<(Vec<String>, usize), DecodeError>)
    requires
        pos <= b.len(),
    ensures
        match (r, take_texts(b@, pos as int, count as nat)) {
            (Ok((v, next)), Ok((sv, snext))) => string_views(v@) == sv && next == snext && next
                <= b.len(),
            (Err(e), Err(se)) => e == se,
            _ => false,
        },
{
    let mut v: Vec<String> = Vec::new();
    let mut at: usize = pos;
    let mut k: u64 = 0;
    assert(string_views(v@) =~= Seq::<Seq<char>>::empty());
    while k < count
        invariant
            k <= count,
            at <= b.len(),
            take_texts(b@, pos as int, k as nat) == Ok::<(Seq<Seq<char>>, int), DecodeError>(
                (string_views(v@), at as int),
            ),
        decreases count - k,
    {
        let ghost before = string_views(v@);
        match read_text(b, at) {
            Ok((s, next)) => {
                v.push(s);
                assert(string_views(v@) =~= before.push(s@));
                at = next;
            },
            Err(e) => {
                proof {
                    lemma_take_texts_fails(b@, pos as int, (k + 1) as nat, count as nat, e);
                }
                return Err(e);
            },
        }
        k = k + 1;
    }
    Ok((v, at))
}

/// Reads a message from its wire form.
pub fn decode(b: &[u8]) -> (r: Result<Message, DecodeError>)
    ensures
        match (r, spec_decode(b@)) {
            (Ok(m), Ok(sm)) => m@ == sm,
            (Err(e), Err(se)) => e == se,
            _ => false,
        },
{
    if b.len() == 0 {
        return Err(DecodeError::Empty);
    }
    let tag: u8 = b[0];
    if tag < TAG_CHAT || tag > TAG_HEARTBEAT {
        return Err(DecodeError::UnknownKind(tag));
    }
    let (sender_name, p1) = match read_text(b, 1) {
        Ok(x) => x,
        Err(e) => { return Err(e); },
    };
    let (sender_addr, p2) = match read_text(b, p1) {
        Ok(x) => x,
        Err(e) => { return Err(e); },
    };
    let (msg, end) = if tag == TAG_CHAT {
        let (text, end) = match read_text(b, p2) {
            Ok(x) => x,
            Err(e) => { return Err(e); },
        };
        (Message::Chat { sender_name, text, sender_addr }, end)
    } else if tag == TAG_PEER_LIST {
        let (count, start) = match read_u64(b, p2) {
            Ok(x) => x,
            Err(e) => { return Err(e); },
        };
        let (peer_addrs, end) = match read_texts(b, start, count) {
            Ok(x) => x,
            Err(e) => { return Err(e); },
        };
        (Message::PeerList { sender_name, peer_addrs, sender_addr }, end)
    } else if tag == TAG_DISCOVERY {
        (Message::Discovery { sender_name, sender_addr }, p2)
    } else {
        (Message::Heartbeat { sender_name, sender_addr }, p2)
    };
    if end != b.len() {
        return Err(DecodeError::TrailingBytes);
    }
    Ok(msg)
}

/// Where the wire form of a text stands at `pos`, that text is read there.
pub proof fn lemma_take_encoded_text(b: Seq<u8>, pos: int, s: Seq<char>)
    requires
        encode_utf8(s).len() <= u64::MAX,
        0 <= pos,
        pos + encode_text(s).len() <= b.len(),
        b.subrange(pos, pos + encode_text(s).len()) == encode_text(s),
    ensures
        take_text(b, pos) == Ok::<(Seq<char>, int), DecodeError>(
            (s, pos + encode_text(s).len()),
        ),
{
    let body = encode_utf8(s);
    let field = encode_text(s);
    lemma_be_u64(body.len());
    assert(b.subrange(pos, pos + 8) =~= field.subrange(0, 8));
    assert(field.subrange(0, 8) =~= be_u64(body.len()));
    assert(b.subrange(pos + 8, pos + 8 + body.len()) =~= field.subrange(8, 8 + body.len() as int));
    assert(field.subrange(8, 8 + body.len() as int) =~= body);
    encode_utf8_valid_utf8(s);
    encode_utf8_decode_utf8(s);
}

/// Where the wire forms of texts stand one after the other from `pos` on,
/// those texts are read there.
pub proof fn lemma_take_encoded_texts(b: Seq<u8>, pos: int, entries: Seq<Seq<char>>)
    requires
        forall|i: int| 0 <= i < entries.len() ==> encode_utf8(#[trigger] entries[i]).len() <= u64::MAX,
        0 <= pos,
        pos + encode_texts(entries).len() <= b.len(),
        b.subrange(pos, pos + encode_texts(entries).len()) == encode_texts(entries),
    ensures
        take_texts(b, pos, entries.len()) == Ok::<(Seq<Seq<char>>, int), DecodeError>(
            (entries, pos + encode_texts(entries).len()),
        ),
    decreases entries.len(),
{
    if entries.len() == 0 {
        assert(entries =~= Seq::<Seq<char>>::empty());
    } else {
        let front = entries.drop_last();
        let all = encode_texts(entries);
        let mid: int = pos + encode_texts(front).len();
        assert(b.subrange(pos, mid) =~= all.subrange(0, encode_texts(front).len() as int));
        assert(all.subrange(0, encode_texts(front).len() as int) =~= encode_texts(front));
        lemma_take_encoded_texts(b, pos, front);
        assert(b.subrange(mid, mid + encode_text(entries.last()).len()) =~= all.subrange(
            encode_texts(front).len() as int,
            all.len() as int,
        ));
        assert(all.subrange(encode_texts(front).len() as int, all.len() as int) =~= encode_text(
            entries.last(),
        ));
        lemma_take_encoded_text(b, mid, entries.last());
        assert(front.push(entries.last()) =~= entries);
    }
}

/// Reading the wire form of a message gives the message back.
pub proof fn lemma_decode_encode(m: MessageView)
    requires
        encodable(m),
    ensures
        spec_decode(spec_encode(m)) == Ok::<MessageView, DecodeError>(m),
{
    let b = spec_encode(m);
    let name = encode_text(m.sender_name());
    let addr = encode_text(m.sender_addr());
    lemma_be_u64(encode_utf8(m.sender_name()).len());
    lemma_be_u64(encode_utf8(m.sender_addr()).len());
    let p1: int = 1 + name.len() as int;
    let p2: int = p1 + addr.len();
    assert(b.subrange(1, p1) =~= name);
    assert(b.subrange(p1, p2) =~= addr);
    lemma_take_encoded_text(b, 1, m.sender_name());
    lemma_take_encoded_text(b, p1, m.sender_addr());
    match m {
        MessageView::Chat { sender_name, text, sender_addr } => {
            lemma_be_u64(encode_utf8(text).len());
            assert(b.subrange(p2, p2 + encode_text(text).len()) =~= encode_text(text));
            lemma_take_encoded_text(b, p2, text);
        },
        MessageView::PeerList { sender_name, peer_addrs, sender_addr } => {
            lemma_be_u64(peer_addrs.len());
            assert(b.subrange(p2, p2 + 8) =~= be_u64(peer_addrs.len()));
            assert(b.subrange(p2 + 8, p2 + 8 + encode_texts(peer_addrs).len()) =~= encode_texts(
                peer_addrs,
            ));
            lemma_take_encoded_texts(b, p2 + 8, peer_addrs);
        },
        MessageView::Discovery { sender_name, sender_addr } => {},
        MessageView::Heartbeat { sender_name, sender_addr } => {},
    }
}

/// A text field that was read is the wire form of the text read from it.
pub proof fn lemma_taken_text(b: Seq<u8>, pos: int, s: Seq<char>, next: int)
    requires
        take_text(b, pos) == Ok::<(Seq<char>, int), DecodeError>((s, next)),
    ensures
        0 <= pos <= next <= b.len(),
        encode_utf8(s).len() <= u64::MAX,
        b.subrange(pos, next) == encode_text(s),
{
    let w = b.subrange(pos, pos + 8);
    let n = from_be_u64(w);
    let body = b.subrange(pos + 8, pos + 8 + n);
    lemma_from_be_u64(w);
    decode_utf8_encode_utf8(body);
    assert(b.subrange(pos, next) =~= w + body);
}

/// Text fields that were read are the wire forms of the texts read from
/// them.
pub proof fn lemma_taken_texts(
    b: Seq<u8>,
    pos: int,
    count: nat,
    entries: Seq<Seq<char>>,
    end: int,
)
    requires
        0 <= pos <= b.len(),
        take_texts(b, pos, count) == Ok::<(Seq<Seq<char>>, int), DecodeError>((entries, end)),
    ensures
        pos <= end <= b.len(),
        entries.len() == count,
        forall|i: int| 0 <= i < entries.len() ==> encode_utf8(#[trigger] entries[i]).len() <= u64::MAX,
        b.subrange(pos, end) == encode_texts(entries),
    decreases count,
{
    if count == 0 {
        assert(b.subrange(pos, end) =~= encode_texts(entries));
    } else {
        match take_texts(b, pos, (count - 1) as nat) {
            Ok((front, next)) => {
                lemma_taken_texts(b, pos, (count - 1) as nat, front, next);
                match take_text(b, next) {
                    Ok((last, e)) => {
                        lemma_taken_text(b, next, last, end);
                        assert(entries.drop_last() =~= front);
                        assert(b.subrange(pos, end) =~= b.subrange(pos, next) + b.subrange(
                            next,
                            end,
                        ));
                    },
                    Err(e) => {},
                }
            },
            Err(e) => {},
        }
    }
}

/// The fields that follow the sender's name and endpoint are the wire form
/// of what was read from them.
proof fn lemma_taken_rest(
    b: Seq<u8>,
    tag: u8,
    sender_name: Seq<char>,
    sender_addr: Seq<char>,
    pos: int,
    m: MessageView,
    end: int,
)
    requires
        TAG_CHAT <= tag <= TAG_HEARTBEAT,
        0 <= pos <= b.len(),
        encode_utf8(sender_name).len() <= u64::MAX,
        encode_utf8(sender_addr).len() <= u64::MAX,
        take_rest(b, tag, sender_name, sender_addr, pos) == Ok::<(MessageView, int), DecodeError>(
            (m, end),
        ),
    ensures
        pos <= end <= b.len(),
        encodable(m),
        spec_encode(m) == seq![tag] + encode_text(sender_name) + encode_text(sender_addr)
            + b.subrange(pos, end),
{
    let head = seq![tag] + encode_text(sender_name) + encode_text(sender_addr);
    if tag == TAG_CHAT {
        match take_text(b, pos) {
            Ok((text, e)) => {
                lemma_taken_text(b, pos, text, end);
            },
            Err(e) => {},
        }
    } else if tag == TAG_PEER_LIST {
        match take_u64(b, pos) {
            Ok((count, start)) => {
                lemma_from_be_u64(b.subrange(pos, pos + 8));
                match take_texts(b, start, count) {
                    Ok((peer_addrs, e)) => {
                        lemma_taken_texts(b, start, count, peer_addrs, end);
                        assert(b.subrange(pos, end) =~= b.subrange(pos, start) + b.subrange(
                            start,
                            end,
                        ));
                        assert(spec_encode(m) =~= head + b.subrange(pos, end));
                    },
                    Err(e) => {},
                }
            },
            Err(e) => {},
        }
    } else {
        assert(b.subrange(pos, end) =~= Seq::<u8>::empty());
        assert(spec_encode(m) =~= head + b.subrange(pos, end));
    }
}

/// Bytes that are read as a message are the wire form of that message: no
/// message has two wire forms.
pub proof fn lemma_encode_decode(b: Seq<u8>, m: MessageView)
    requires
        spec_decode(b) == Ok::<MessageView, DecodeError>(m),
    ensures
        encodable(m),
        spec_encode(m) == b,
{
    match take_text(b, 1) {
        Ok((sender_name, p1)) => {
            lemma_taken_text(b, 1, sender_name, p1);
            match take_text(b, p1) {
                Ok((sender_addr, p2)) => {
                    lemma_taken_text(b, p1, sender_addr, p2);
                    lemma_taken_rest(b, b[0], sender_name, sender_addr, p2, m, b.len() as int);
                    assert(b =~= seq![b[0]] + b.subrange(1, p1) + b.subrange(p1, p2) + b.subrange(
                        p2,
                        b.len() as int,
                    ));
                },
                Err(e) => {},
            }
        },
        Err(e) => {},
    }
}

} // verus!
