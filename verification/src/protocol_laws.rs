//! What holds of the wire format as a whole: every packet that is built is read back, and
//! nothing else is taken for a packet.

use crate::bytes;
use crate::protocol;
use crate::protocol::{Codec, Hello, PacketView};
use crate::protocol::{MAX_LISTED_SOUNDS, MAX_RECEIVER_NAME, MAX_SOUND_NAME};
use crate::text;
use vstd::prelude::*;

verus! {

/// The bytes of a number stand where it was appended, whatever follows.
proof fn lemma_number_at(s: Seq<u8>, off: int, x: u32)
    requires
        0 <= off,
        off + 4 <= s.len(),
        s.subrange(off, off + 4) == bytes::be32(x),
    ensures
        bytes::be32_at(s, off) == x,
{
    let w = s.subrange(off, off + 4);
    assert(w[0] == s[off] && w[1] == s[off + 1] && w[2] == s[off + 2] && w[3] == s[off + 3]);
    bytes::lemma_be32_roundtrip(Seq::empty(), x, Seq::empty());
    assert(Seq::<u8>::empty() + bytes::be32(x) + Seq::<u8>::empty() =~= w);
}

/// A header is recognised, and the body is what follows it.
proof fn lemma_header(kind: u8, body: Seq<u8>)
    ensures
        protocol::parse_spec(protocol::header_bytes(kind) + body) == protocol::body_spec(
            kind,
            body,
        ),
{
    let s = protocol::header_bytes(kind) + body;
    assert(s.skip(4) =~= body);
}

/// The parts of a body of one field of four bytes and a rest.
proof fn lemma_one_field(h: Seq<u8>, a: Seq<u8>, rest: Seq<u8>)
    requires
        a.len() == 4,
    ensures
        ({
            let body = a + rest;
            &&& body.len() == 4 + rest.len()
            &&& body.subrange(0, 4) == a
            &&& body.skip(4) == rest
            &&& h + a + rest == h + body
        }),
{
    let body = a + rest;
    assert(body.subrange(0, 4) =~= a);
    assert(body.skip(4) =~= rest);
    assert(h + a + rest =~= h + body);
}

/// The parts of a body of two fields of four bytes and a rest.
proof fn lemma_two_fields(h: Seq<u8>, a: Seq<u8>, b: Seq<u8>, rest: Seq<u8>)
    requires
        a.len() == 4,
        b.len() == 4,
    ensures
        ({
            let body = a + b + rest;
            &&& body.len() == 8 + rest.len()
            &&& body.subrange(0, 4) == a
            &&& body.subrange(4, 8) == b
            &&& body.skip(8) == rest
            &&& h + a + b + rest == h + body
        }),
{
    let body = a + b + rest;
    assert(body.subrange(0, 4) =~= a);
    assert(body.subrange(4, 8) =~= b);
    assert(body.skip(8) =~= rest);
    assert(h + a + b + rest =~= h + body);
}

/// The parts of a body of three fields of four bytes and a rest.
proof fn lemma_three_fields(h: Seq<u8>, a: Seq<u8>, b: Seq<u8>, c: Seq<u8>, rest: Seq<u8>)
    requires
        a.len() == 4,
        b.len() == 4,
        c.len() == 4,
    ensures
        ({
            let body = a + b + c + rest;
            &&& body.len() == 12 + rest.len()
            &&& body.subrange(0, 4) == a
            &&& body.subrange(4, 8) == b
            &&& body.subrange(8, 12) == c
            &&& body.skip(12) == rest
            &&& h + a + b + c + rest == h + body
        }),
{
    let body = a + b + c + rest;
    assert(body.subrange(0, 4) =~= a);
    assert(body.subrange(4, 8) =~= b);
    assert(body.subrange(8, 12) =~= c);
    assert(body.skip(12) =~= rest);
    assert(h + a + b + c + rest =~= h + body);
}

/// A search for receivers is read back.
pub proof fn lemma_discover_roundtrip(nonce: u32)
    ensures
        protocol::parse_spec(protocol::discover_bytes(nonce)) == Some(
            PacketView::Discover { nonce },
        ),
{
    let body = bytes::be32(nonce);
    assert(body.subrange(0, 4) =~= body);
    lemma_number_at(body, 0, nonce);
    lemma_header(1, body);
}

/// The body of a reply whose name has the bytes `all`.
spec fn reply_body(nonce: u32, port: u16, all: Seq<u8>) -> Seq<u8> {
    bytes::be32(nonce) + bytes::be16(port) + seq![all.len() as u8] + all
}

/// The body of a reply is read back, its name from the bytes that stand for it.
proof fn lemma_reply_body(nonce: u32, port: u16, all: Seq<u8>)
    requires
        all.len() <= 255,
    ensures
        protocol::body_spec(2, reply_body(nonce, port, all)) == Some(
            PacketView::DiscoverReply { nonce, port, name: text::text_of(all) },
        ),
{
    let body = reply_body(nonce, port, all);
    let rest = seq![all.len() as u8] + all;
    assert(bytes::be32_at(body, 0) == nonce) by {
        assert(body.subrange(0, 4) =~= bytes::be32(nonce));
        lemma_number_at(body, 0, nonce);
    }
    assert(bytes::be16_at(body, 4) == port) by {
        bytes::lemma_be16_roundtrip(bytes::be32(nonce), port, rest);
        assert(bytes::be32(nonce) + bytes::be16(port) + rest =~= body);
    }
    assert(body[6] == all.len());
    assert(body.subrange(7, 7 + body[6]) =~= all);
}

/// A request for a session is read back.
pub proof fn lemma_hello_roundtrip(h: Hello)
    ensures
        protocol::parse_spec(protocol::hello_bytes(h)) == Some(PacketView::Hello(h)),
{
    let rest = seq![h.channels, h.codec.number(), h.frame_ms];
    let a = bytes::be32(h.session);
    let b = bytes::be32(h.sample_rate);
    let body = a + b + rest;
    lemma_two_fields(protocol::header_bytes(3), a, b, rest);
    lemma_header(3, body);
    lemma_number_at(body, 0, h.session);
    lemma_number_at(body, 4, h.sample_rate);
    assert(body[8] == rest[0] && body[9] == rest[1] && body[10] == rest[2]);
    assert(Codec::from_number(h.codec.number()) == Some(h.codec));
}

/// A frame of audio is read back, whatever its payload.
pub proof fn lemma_audio_roundtrip(session: u32, seq: u32, timestamp: u32, payload: Seq<u8>)
    ensures
        protocol::parse_spec(protocol::audio_bytes(session, seq, timestamp, payload)) == Some(
            PacketView::Audio { session, seq, timestamp, payload },
        ),
{
    let a = bytes::be32(session);
    let b = bytes::be32(seq);
    let c = bytes::be32(timestamp);
    let body = a + b + c + payload;
    lemma_three_fields(protocol::header_bytes(5), a, b, c, payload);
    lemma_header(5, body);
    lemma_number_at(body, 0, session);
    lemma_number_at(body, 4, seq);
    lemma_number_at(body, 8, timestamp);
}

/// The packets that carry a session number alone are read back.
pub proof fn lemma_session_roundtrip(session: u32)
    ensures
        protocol::parse_spec(protocol::session_bytes(4, session)) == Some(
            PacketView::HelloAck { session },
        ),
        protocol::parse_spec(protocol::session_bytes(8, session)) == Some(
            PacketView::Bye { session },
        ),
        protocol::parse_spec(protocol::session_bytes(9, session)) == Some(
            PacketView::SoundListReq { session },
        ),
        protocol::parse_spec(protocol::session_bytes(12, session)) == Some(
            PacketView::SoundStop { session },
        ),
{
    let body = bytes::be32(session);
    assert(body.subrange(0, 4) =~= body);
    lemma_number_at(body, 0, session);
    lemma_header(4, body);
    lemma_header(8, body);
    lemma_header(9, body);
    lemma_header(12, body);
}

/// The body of a sign of life or of its answer is read back.
proof fn lemma_timed_body(kind: u8, session: u32, time_ms: u32)
    ensures
        ({
            let body = bytes::be32(session) + bytes::be32(time_ms);
            &&& body.len() == 8
            &&& bytes::be32_at(body, 0) == session
            &&& bytes::be32_at(body, 4) == time_ms
            &&& protocol::parse_spec(protocol::timed_bytes(kind, session, time_ms))
                == protocol::body_spec(kind, body)
        }),
{
    let h = protocol::header_bytes(kind);
    let a = bytes::be32(session);
    let b = bytes::be32(time_ms);
    let none = Seq::<u8>::empty();
    lemma_two_fields(h, a, b, none);
    assert(a + b + none =~= a + b);
    assert(h + a + b + none =~= h + a + b);
    lemma_header(kind, a + b);
    lemma_number_at(a + b, 0, session);
    lemma_number_at(a + b, 4, time_ms);
}

/// A sign of life and its answer are read back.
pub proof fn lemma_heartbeat_roundtrip(session: u32, time_ms: u32)
    ensures
        protocol::parse_spec(protocol::timed_bytes(6, session, time_ms)) == Some(
            PacketView::Heartbeat { session, time_ms },
        ),
        protocol::parse_spec(protocol::timed_bytes(7, session, time_ms)) == Some(
            PacketView::HeartbeatAck { session, time_ms },
        ),
{
    lemma_timed_body(6, session, time_ms);
    lemma_timed_body(7, session, time_ms);
}

/// A request to play a sound is read back.
pub proof fn lemma_sound_play_roundtrip(session: u32, id: u8)
    ensures
        protocol::parse_spec(protocol::sound_play_bytes(session, id)) == Some(
            PacketView::SoundPlay { session, id },
        ),
{
    let a = bytes::be32(session);
    let body = a + seq![id];
    lemma_one_field(protocol::header_bytes(11), a, seq![id]);
    lemma_header(11, body);
    lemma_number_at(body, 0, session);
    assert(body[4] == id);
}

/// The boundary that a name is cut at lies within it and is the largest one there.
proof fn lemma_boundary(b: Seq<u8>, n: int)
    requires
        vstd::utf8::valid_utf8(b),
        0 <= n,
    ensures
        0 <= protocol::boundary_at_most(b, n) <= n,
        protocol::boundary_at_most(b, n) <= b.len(),
        vstd::utf8::is_char_boundary(b, protocol::boundary_at_most(b, n)),
        forall|m: int|
            0 <= m <= n && m <= b.len() && #[trigger] vstd::utf8::is_char_boundary(b, m) ==> m
                <= protocol::boundary_at_most(b, n),
        b.len() <= n ==> protocol::boundary_at_most(b, n) == b.len(),
    decreases n,
{
    vstd::utf8::is_char_boundary_start_end_of_seq(b);
    if n > 0 && !(n <= b.len() && vstd::utf8::is_char_boundary(b, n)) {
        lemma_boundary(b, n - 1);
    }
}

/// The text of a name that is cut to `n` bytes: the name, as far as whole characters of it fit.
pub open spec fn cut_text(name: Seq<char>, n: int) -> Seq<char> {
    vstd::utf8::decode_utf8(protocol::cut_bytes(name, n))
}

/// A name that is cut is UTF-8, is the start of the full name, holds as many whole characters
/// as fit, and is the full name where that fits.
pub proof fn lemma_cut_name(name: Seq<char>, n: int)
    requires
        0 <= n,
    ensures
        protocol::cut_bytes(name, n).len() <= n,
        vstd::utf8::valid_utf8(protocol::cut_bytes(name, n)),
        protocol::cut_bytes(name, n).is_prefix_of(vstd::utf8::encode_utf8(name)),
        cut_text(name, n).is_prefix_of(name),
        forall|m: int|
            0 <= m <= n && m <= vstd::utf8::encode_utf8(name).len()
                && #[trigger] vstd::utf8::is_char_boundary(vstd::utf8::encode_utf8(name), m) ==> m
                <= protocol::cut_bytes(name, n).len(),
        vstd::utf8::encode_utf8(name).len() <= n ==> cut_text(name, n) == name,
{
    let all = vstd::utf8::encode_utf8(name);
    vstd::utf8::encode_utf8_valid_utf8(name);
    vstd::utf8::encode_utf8_decode_utf8(name);
    lemma_boundary(all, n);
    let cut = protocol::boundary_at_most(all, n);
    vstd::utf8::valid_utf8_split(all, cut);
    vstd::utf8::decode_utf8_split(all, cut);
    assert(all.subrange(0, cut) =~= all.take(cut));
    assert(all.len() <= n ==> all.take(cut) =~= all);
}

/// The name that a client reads in an announcement.
pub open spec fn announced(name: Seq<char>) -> Seq<char> {
    cut_text(name, MAX_RECEIVER_NAME as int)
}

/// A reply is read back, whatever the name. The name on the wire is UTF-8; what is read of it is
/// the start of the name, and all of it where it has at most 255 bytes.
pub proof fn lemma_discover_reply_roundtrip(nonce: u32, port: u16, name: Seq<char>)
    ensures
        protocol::parse_spec(protocol::discover_reply_bytes(nonce, port, name)) == Some(
            PacketView::DiscoverReply { nonce, port, name: announced(name) },
        ),
        vstd::utf8::valid_utf8(protocol::discover_reply_bytes(nonce, port, name).skip(11)),
        announced(name).is_prefix_of(name),
        vstd::utf8::encode_utf8(name).len() <= 255 ==> announced(name) == name,
{
    let cut = protocol::cut_bytes(name, MAX_RECEIVER_NAME as int);
    lemma_cut_name(name, MAX_RECEIVER_NAME as int);
    let body = reply_body(nonce, port, cut);
    let pkt = protocol::discover_reply_bytes(nonce, port, name);
    assert(pkt =~= protocol::header_bytes(2) + body);
    assert(pkt.skip(11) =~= cut);
    lemma_header(2, body);
    lemma_reply_body(nonce, port, cut);
}

/// The text of a listed name: the name, as far as whole characters of it fit.
pub open spec fn listed_text(name: Seq<char>) -> Seq<char> {
    cut_text(name, MAX_SOUND_NAME as int)
}

/// What a sound list says of the first `count` names.
pub open spec fn listed_sounds(names: Seq<Seq<char>>, count: int) -> Seq<(u8, Seq<char>)> {
    Seq::new(count as nat, |i: int| (i as u8, listed_text(names[i])))
}

/// Reading entries: one more entry at the end is one more entry read.
proof fn lemma_entries_append(b: Seq<u8>, count: nat, id: u8, name: Seq<u8>)
    requires
        name.len() <= 255,
        protocol::sound_entries(b, count) is Some,
        entries_exact(b, count),
    ensures
        ({
            let longer = b + seq![id, name.len() as u8] + name;
            &&& protocol::sound_entries(longer, count + 1) == Some(
                protocol::sound_entries(b, count).unwrap().push((id, text::text_of(name))),
            )
            &&& entries_exact(longer, count + 1)
        }),
    decreases count,
{
    let tail = seq![id, name.len() as u8] + name;
    let longer = b + seq![id, name.len() as u8] + name;
    assert(longer =~= b + tail);
    if count == 0 {
        assert(longer =~= tail);
        assert(longer.subrange(2, 2 + longer[1]) =~= name);
        assert(longer.skip(2 + longer[1]) =~= Seq::empty());
        let entry = (id, text::text_of(name));
        assert(protocol::sound_entries(longer.skip(2 + longer[1]), 0) == Some(
            Seq::<(u8, Seq<char>)>::empty(),
        ));
        assert(seq![entry] + Seq::<(u8, Seq<char>)>::empty() =~= Seq::<
            (u8, Seq<char>),
        >::empty().push(entry));
        assert(entries_exact(longer.skip(2 + longer[1]), 0));
    } else {
        let first = 2 + b[1];
        let rest = b.skip(first);
        lemma_entries_append(rest, (count - 1) as nat, id, name);
        assert(longer[0] == b[0] && longer[1] == b[1]);
        assert(longer.skip(first) =~= rest + seq![id, name.len() as u8] + name);
        assert(longer.subrange(2, first) =~= b.subrange(2, first));
        let head = seq![(b[0], text::text_of(b.subrange(2, first)))];
        let more = protocol::sound_entries(rest, (count - 1) as nat).unwrap();
        let entry = (id, text::text_of(name));
        assert(head + more.push(entry) =~= (head + more).push(entry));
    }
}

/// The bytes are `count` entries and nothing more.
spec fn entries_exact(b: Seq<u8>, count: nat) -> bool
    decreases count,
{
    if count == 0 {
        b.len() == 0
    } else {
        b.len() >= 2 && b.len() >= 2 + b[1] && entries_exact(b.skip(2 + b[1]), (count - 1) as nat)
    }
}

/// Built entries are read back.
proof fn lemma_entries_roundtrip(names: Seq<Seq<char>>, count: int)
    requires
        0 <= count <= names.len(),
        count <= 255,
    ensures
        protocol::sound_entries(protocol::sound_entry_bytes(names, count), count as nat) == Some(
            listed_sounds(names, count),
        ),
        entries_exact(protocol::sound_entry_bytes(names, count), count as nat),
    decreases count,
{
    if count == 0 {
        assert(listed_sounds(names, 0) =~= Seq::empty());
    } else {
        lemma_entries_roundtrip(names, count - 1);
        let name = protocol::listed_name(names[count - 1]);
        lemma_cut_name(names[count - 1], MAX_SOUND_NAME as int);
        lemma_entries_append(
            protocol::sound_entry_bytes(names, count - 1),
            (count - 1) as nat,
            (count - 1) as u8,
            name,
        );
        assert(listed_sounds(names, count) =~= listed_sounds(names, count - 1).push(
            ((count - 1) as u8, listed_text(names[count - 1])),
        ));
    }
}

/// A sound list is read back: the first 32 names, numbered from zero.
pub proof fn lemma_sound_list_roundtrip(names: Seq<Seq<char>>)
    ensures
        protocol::parse_spec(protocol::sound_list_bytes(names)) == Some(
            PacketView::SoundList {
                sounds: listed_sounds(
                    names,
                    if names.len() > MAX_LISTED_SOUNDS {
                        MAX_LISTED_SOUNDS as int
                    } else {
                        names.len() as int
                    },
                ),
            },
        ),
{
    let count = if names.len() > MAX_LISTED_SOUNDS {
        MAX_LISTED_SOUNDS as int
    } else {
        names.len() as int
    };
    let entries = protocol::sound_entry_bytes(names, count);
    let body = seq![count as u8] + entries;
    assert(protocol::sound_list_bytes(names) =~= protocol::header_bytes(10) + body);
    lemma_header(10, body);
    assert(body.skip(1) =~= entries);
    lemma_entries_roundtrip(names, count);
}

/// Bytes without the magic, of another version, or shorter than a header are no packet.
pub proof fn lemma_garbage_rejected(buf: Seq<u8>)
    requires
        buf.len() < 4 || buf[0] != 0x41 || buf[1] != 0x52 || buf[2] != 1,
    ensures
        protocol::parse_spec(buf) is None,
{
}

/// A type that the format does not know is ignored.
pub proof fn lemma_unknown_type_ignored(buf: Seq<u8>)
    requires
        buf.len() >= 4,
        buf[3] == 0 || buf[3] > 12,
    ensures
        protocol::parse_spec(buf) is None,
{
}

/// A body that is cut short of its fixed fields is no packet.
pub proof fn lemma_short_body_rejected(kind: u8, body: Seq<u8>)
    requires
        body.len() < fixed_len(kind),
    ensures
        protocol::parse_spec(protocol::header_bytes(kind) + body) is None,
{
    lemma_header(kind, body);
}

/// How many bytes the fixed fields of a body take.
pub open spec fn fixed_len(kind: u8) -> int {
    if kind == 2 {
        7
    } else if kind == 3 {
        11
    } else if kind == 5 {
        12
    } else if kind == 6 || kind == 7 {
        8
    } else if kind == 10 {
        1
    } else if kind == 11 {
        5
    } else {
        4
    }
}

/// A packet comes whole out of a stream: its length is what the first two bytes say, and it is
/// what follows them.
pub proof fn lemma_tcp_frame_roundtrip(pkt: Seq<u8>, rest: Seq<u8>)
    requires
        pkt.len() <= u16::MAX,
    ensures
        ({
            let stream = protocol::tcp_frame_bytes(pkt) + rest;
            let n = bytes::be16_at(stream, 0) as int;
            &&& n == pkt.len()
            &&& stream.subrange(2, 2 + n) == pkt
            &&& stream.skip(2 + n) == rest
        }),
{
    let stream = protocol::tcp_frame_bytes(pkt) + rest;
    bytes::lemma_be16_roundtrip(Seq::empty(), pkt.len() as u16, pkt + rest);
    assert(Seq::<u8>::empty() + bytes::be16(pkt.len() as u16) + (pkt + rest) =~= stream);
    assert(stream.subrange(2, 2 + pkt.len() as int) =~= pkt);
    assert(stream.skip(2 + pkt.len() as int) =~= rest);
}

} // verus!
