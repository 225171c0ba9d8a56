//! The wire format, byte by byte: where each field of each packet stands, for building and for
//! reading.

use crate::bytes;
use crate::decoder;
use crate::decoder::{PcmDec, PcmLevel};
use crate::jitter::{FrameCall, FrameDecoder};
use crate::protocol;
use crate::protocol::{Codec, Hello, Packet, PacketView};
use crate::protocol_laws;
use crate::text;
use vstd::prelude::*;

verus! {

/// The number in four bytes, most significant first.
pub open spec fn number32(b: Seq<u8>, at: int) -> int {
    b[at] * 0x100_0000 + b[at + 1] * 0x1_0000 + b[at + 2] * 0x100 + b[at + 3]
}

/// The number in two bytes, most significant first.
pub open spec fn number16(b: Seq<u8>, at: int) -> int {
    b[at] * 0x100 + b[at + 1]
}

/// The bytes start with the magic, the version and the type.
pub open spec fn starts_packet(b: Seq<u8>, kind: int) -> bool {
    b.len() >= 4 && b[0] == 0x41 && b[1] == 0x52 && b[2] == 1 && b[3] == kind
}

/// The number of a codec on the wire.
pub open spec fn codec_number(c: Codec) -> int {
    if c == Codec::Opus {
        1
    } else {
        0
    }
}

/// Codecs have the numbers 0 and 1, and frames of 480 and 960 samples.
pub proof fn lemma_codecs(v: u8, c: Option<Codec>, k: Codec, n: u8, f: usize)
    requires
        call_ensures(Codec::from_u8, (v,), c),
        call_ensures(Codec::to_u8, (k,), n),
        call_ensures(Codec::frame_samples, (k,), f),
    ensures
        v == 0 ==> c == Some(Codec::Pcm16),
        v == 1 ==> c == Some(Codec::Opus),
        v > 1 ==> c is None,
        n == codec_number(k),
        f == (if k == Codec::Opus {
            960usize
        } else {
            480usize
        }),
{
}

/// The four bytes of a number give the number.
proof fn lemma_be32(s: Seq<u8>, at: int, x: u32)
    requires
        0 <= at,
        at + 4 <= s.len(),
        s.subrange(at, at + 4) == bytes::be32(x),
    ensures
        number32(s, at) == x,
{
    let w = s.subrange(at, at + 4);
    assert(w[0] == s[at] && w[1] == s[at + 1] && w[2] == s[at + 2] && w[3] == s[at + 3]);
}

/// A search: type 1, the nonce.
pub proof fn lemma_discover_layout(nonce: u32, b: Vec<u8>)
    requires
        call_ensures(protocol::build_discover, (nonce,), b),
    ensures
        b@.len() == 8,
        starts_packet(b@, 1),
        number32(b@, 4) == nonce,
{
    assert(b@.subrange(4, 8) =~= bytes::be32(nonce));
    lemma_be32(b@, 4, nonce);
}

/// The answer to a search: type 2, the nonce, the port, the length of the name, the name in UTF-8.
pub proof fn lemma_discover_reply_layout(nonce: u32, port: u16, name: &str, b: Vec<u8>)
    requires
        call_ensures(protocol::build_discover_reply, (nonce, port, name), b),
    ensures
        b@.len() >= 11,
        starts_packet(b@, 2),
        number32(b@, 4) == nonce,
        number16(b@, 8) == port,
        b@.len() == 11 + b@[10],
        vstd::utf8::valid_utf8(b@.skip(11)),
        b@.skip(11).is_prefix_of(vstd::utf8::encode_utf8(name@)),
        vstd::utf8::encode_utf8(name@).len() <= 255 ==> b@.skip(11) == vstd::utf8::encode_utf8(
            name@,
        ),
{
    let cut = protocol::cut_bytes(name@, 255);
    protocol_laws::lemma_cut_name(name@, 255);
    vstd::utf8::encode_utf8_decode_utf8(name@);
    assert(b@.subrange(4, 8) =~= bytes::be32(nonce));
    lemma_be32(b@, 4, nonce);
    let p = bytes::be16(port);
    assert(b@[8] == p[0] && b@[9] == p[1]);
    assert(b@[10] == cut.len());
    assert(b@.skip(11) =~= cut);
    if vstd::utf8::encode_utf8(name@).len() <= 255 {
        vstd::utf8::encode_utf8_valid_utf8(name@);
        vstd::utf8::is_char_boundary_start_end_of_seq(vstd::utf8::encode_utf8(name@));
        let all = vstd::utf8::encode_utf8(name@);
        assert(vstd::utf8::is_char_boundary(all, all.len() as int));
        assert(cut =~= all);
    }
}

/// A request for a session: type 3, the session, the rate, the channels, the codec, the length of
/// a frame.
pub proof fn lemma_hello_layout(h: &Hello, b: Vec<u8>)
    requires
        call_ensures(protocol::build_hello, (h,), b),
    ensures
        b@.len() == 15,
        starts_packet(b@, 3),
        number32(b@, 4) == h.session,
        number32(b@, 8) == h.sample_rate,
        b@[12] == h.channels,
        b@[13] == codec_number(h.codec),
        b@[14] == h.frame_ms,
{
    assert(b@.subrange(4, 8) =~= bytes::be32(h.session));
    lemma_be32(b@, 4, h.session);
    assert(b@.subrange(8, 12) =~= bytes::be32(h.sample_rate));
    lemma_be32(b@, 8, h.sample_rate);
}

/// A frame of audio: type 5, the session, the number, the time stamp, the payload.
pub proof fn lemma_audio_layout(
    session: u32,
    seq: u32,
    timestamp: u32,
    payload: &[u8],
    b: Vec<u8>,
)
    requires
        call_ensures(protocol::build_audio, (session, seq, timestamp, payload), b),
    ensures
        b@.len() == 16 + payload@.len(),
        starts_packet(b@, 5),
        number32(b@, 4) == session,
        number32(b@, 8) == seq,
        number32(b@, 12) == timestamp,
        b@.skip(16) == payload@,
{
    assert(b@.subrange(4, 8) =~= bytes::be32(session));
    lemma_be32(b@, 4, session);
    assert(b@.subrange(8, 12) =~= bytes::be32(seq));
    lemma_be32(b@, 8, seq);
    assert(b@.subrange(12, 16) =~= bytes::be32(timestamp));
    lemma_be32(b@, 12, timestamp);
    assert(b@.skip(16) =~= payload@);
}

/// The packets that carry a session alone: types 4, 8, 9 and 12.
pub proof fn lemma_session_layouts(
    session: u32,
    ack: Vec<u8>,
    bye: Vec<u8>,
    list: Vec<u8>,
    stop: Vec<u8>,
)
    requires
        call_ensures(protocol::build_hello_ack, (session,), ack),
        call_ensures(protocol::build_bye, (session,), bye),
        call_ensures(protocol::build_sound_list_req, (session,), list),
        call_ensures(protocol::build_sound_stop, (session,), stop),
    ensures
        ack@.len() == 8 && starts_packet(ack@, 4) && number32(ack@, 4) == session,
        bye@.len() == 8 && starts_packet(bye@, 8) && number32(bye@, 4) == session,
        list@.len() == 8 && starts_packet(list@, 9) && number32(list@, 4) == session,
        stop@.len() == 8 && starts_packet(stop@, 12) && number32(stop@, 4) == session,
{
    assert(ack@.subrange(4, 8) =~= bytes::be32(session));
    assert(bye@.subrange(4, 8) =~= bytes::be32(session));
    assert(list@.subrange(4, 8) =~= bytes::be32(session));
    assert(stop@.subrange(4, 8) =~= bytes::be32(session));
    lemma_be32(ack@, 4, session);
    lemma_be32(bye@, 4, session);
    lemma_be32(list@, 4, session);
    lemma_be32(stop@, 4, session);
}

/// A sign of life and its answer: types 6 and 7, the session, the sender's time.
pub proof fn lemma_heartbeat_layouts(session: u32, time_ms: u32, beat: Vec<u8>, ack: Vec<u8>)
    requires
        call_ensures(protocol::build_heartbeat, (session, time_ms), beat),
        call_ensures(protocol::build_heartbeat_ack, (session, time_ms), ack),
    ensures
        beat@.len() == 12 && starts_packet(beat@, 6),
        number32(beat@, 4) == session && number32(beat@, 8) == time_ms,
        ack@.len() == 12 && starts_packet(ack@, 7),
        number32(ack@, 4) == session && number32(ack@, 8) == time_ms,
{
    assert(beat@.subrange(4, 8) =~= bytes::be32(session));
    assert(beat@.subrange(8, 12) =~= bytes::be32(time_ms));
    assert(ack@.subrange(4, 8) =~= bytes::be32(session));
    assert(ack@.subrange(8, 12) =~= bytes::be32(time_ms));
    lemma_be32(beat@, 4, session);
    lemma_be32(beat@, 8, time_ms);
    lemma_be32(ack@, 4, session);
    lemma_be32(ack@, 8, time_ms);
}

/// A request to play a sound: type 11, the session, the number of the sound.
pub proof fn lemma_sound_play_layout(session: u32, id: u8, b: Vec<u8>)
    requires
        call_ensures(protocol::build_sound_play, (session, id), b),
    ensures
        b@.len() == 9,
        starts_packet(b@, 11),
        number32(b@, 4) == session,
        b@[8] == id,
{
    assert(b@.subrange(4, 8) =~= bytes::be32(session));
    lemma_be32(b@, 4, session);
}

/// Where the entry `k` of a list of sounds starts: after the header, the count and the entries
/// before it, each of which has two bytes more than its name.
pub open spec fn entry_at(names: Seq<Seq<char>>, k: int) -> int
    decreases k,
{
    if k <= 0 {
        5
    } else {
        entry_at(names, k - 1) + 2 + protocol::listed_name(names[k - 1]).len()
    }
}

/// The list of sounds: type 10, how many there are, 32 at most, then each with its place, the
/// length of its name and the name, cut to 40 bytes.
pub proof fn lemma_sound_list_layout(names: &Vec<String>, b: Vec<u8>, k: int)
    requires
        call_ensures(protocol::build_sound_list, (names,), b),
    ensures
        starts_packet(b@, 10),
        b@.len() >= 5,
        b@[4] == (if names@.len() > 32 {
            32
        } else {
            names@.len()
        }),
        b@.len() == entry_at(protocol::texts(names@), b@[4] as int),
        0 <= k < b@[4] ==> ({
            let at = entry_at(protocol::texts(names@), k);
            let enc = vstd::utf8::encode_utf8(names@[k]@);
            &&& 5 <= at
            &&& at + 2 + b@[at + 1] <= b@.len()
            &&& b@[at] == k
            &&& b@[at + 1] <= 40
            &&& enc.len() <= 40 ==> b@[at + 1] == enc.len()
            &&& b@[at + 1] <= enc.len()
            &&& b@.subrange(at + 2, at + 2 + b@[at + 1]) == enc.take(b@[at + 1] as int)
            &&& vstd::utf8::valid_utf8(enc.take(b@[at + 1] as int))
        }),
{
    let all = protocol::texts(names@);
    let count = if all.len() > 32 {
        32
    } else {
        all.len() as int
    };
    let entries = protocol::sound_entry_bytes(all, count);
    let head = protocol::header_bytes(10) + seq![count as u8];
    assert(b@ =~= head + entries);
    lemma_entries_len(all, count);
    if 0 <= k < count {
        assert(all[k] == names@[k]@);
        lemma_entry(all, count, k);
        let at = entry_at(all, k);
        let name = protocol::listed_name(all[k]);
        let enc = vstd::utf8::encode_utf8(all[k]);
        protocol_laws::lemma_cut_name(all[k], 40);
        if enc.len() <= 40 {
            vstd::utf8::encode_utf8_valid_utf8(all[k]);
            vstd::utf8::is_char_boundary_start_end_of_seq(enc);
            assert(vstd::utf8::is_char_boundary(enc, enc.len() as int));
        }
        assert(b@[at] == entries[at - 5]);
        assert(b@[at + 1] == entries[at - 4]);
        assert(b@.subrange(at + 2, at + 2 + name.len()) =~= entries.subrange(
            at - 3,
            at - 3 + name.len(),
        ));
        assert(name =~= enc.take(name.len() as int));
    }
}

/// The entries end where the next one would start.
proof fn lemma_entries_len(names: Seq<Seq<char>>, count: int)
    requires
        0 <= count <= 32,
        count <= names.len(),
    ensures
        protocol::sound_entry_bytes(names, count).len() == entry_at(names, count) - 5,
        entry_at(names, count) >= 5,
    decreases count,
{
    if count > 0 {
        lemma_entries_len(names, count - 1);
    }
}

/// Every entry stands at its place.
proof fn lemma_entry(names: Seq<Seq<char>>, count: int, k: int)
    requires
        0 <= k < count <= 32,
        count <= names.len(),
    ensures
        ({
            let e = protocol::sound_entry_bytes(names, count);
            let at = entry_at(names, k) - 5;
            let name = protocol::listed_name(names[k]);
            &&& name.len() <= 40
            &&& 0 <= at
            &&& at + 2 + name.len() <= e.len()
            &&& e[at] == k
            &&& e[at + 1] == name.len()
            &&& e.subrange(at + 2, at + 2 + name.len()) == name
        }),
    decreases count,
{
    let e = protocol::sound_entry_bytes(names, count);
    let d = protocol::sound_entry_bytes(names, count - 1);
    let at = entry_at(names, k) - 5;
    let name = protocol::listed_name(names[k]);
    protocol_laws::lemma_cut_name(names[k], 40);
    lemma_entries_len(names, count - 1);
    lemma_entries_len(names, k);
    if k == count - 1 {
        assert(e[at] == k as u8);
        assert(e.subrange(at + 2, at + 2 + name.len()) =~= name);
    } else {
        lemma_entry(names, count - 1, k);
        assert(e[at] == d[at] && e[at + 1] == d[at + 1]);
        assert(e.subrange(at + 2, at + 2 + name.len()) =~= d.subrange(at + 2, at + 2 + name.len()));
    }
}

/// The bytes of a list of `count` sounds with the entries `entries`.
pub open spec fn list_packet(count: u8, entries: Seq<u8>) -> Seq<u8> {
    seq![0x41u8, 0x52, 1, 10, count] + entries
}

/// A list of sounds is read entry by entry: the first one from its place, and the rest as a list
/// that is shorter by one. A list of none has no entries.
pub proof fn lemma_reads_sound_list(count: u8, id: u8, name: Seq<u8>, rest: Seq<u8>)
    requires
        name.len() <= 255,
        count < 255,
    ensures
        protocol::parse_spec(list_packet(0, rest)) == Some(
            PacketView::SoundList { sounds: Seq::empty() },
        ),
        protocol::parse_spec(
            list_packet((count + 1) as u8, seq![id, name.len() as u8] + name + rest),
        ) == (match protocol::parse_spec(list_packet(count, rest)) {
            Some(PacketView::SoundList { sounds }) => Some(
                PacketView::SoundList { sounds: seq![(id, text::text_of(name))] + sounds },
            ),
            _ => None,
        }),
        count > 0 && rest.len() < 2 ==> protocol::parse_spec(list_packet(count, rest)) is None,
        count > 0 && rest.len() >= 2 && rest.len() < 2 + rest[1] ==> protocol::parse_spec(
            list_packet(count, rest),
        ) is None,
{
    let e = seq![id, name.len() as u8] + name + rest;
    let big = list_packet((count + 1) as u8, e);
    assert(big.skip(4).skip(1) =~= e);
    assert(big.skip(4)[0] == count + 1);
    let small = list_packet(count, rest);
    assert(small.skip(4).skip(1) =~= rest);
    assert(small.skip(4)[0] == count);
    let zero = list_packet(0, rest);
    assert(zero.skip(4).skip(1) =~= rest);
    assert(zero.skip(4)[0] == 0);
    assert(e[1] == name.len());
    assert(e.subrange(2, 2 + e[1]) =~= name);
    assert(e.skip(2 + e[1]) =~= rest);
    assert(protocol::sound_entries(rest, 0) == Some(Seq::<(u8, Seq<char>)>::empty()));
}

/// Reading gives what the bytes say.
pub proof fn lemma_parse_reads(buf: &[u8], r: Option<Packet<'_>>)
    requires
        call_ensures(protocol::parse, (buf,), r),
    ensures
        r matches Some(p) ==> protocol::parse_spec(buf@) == Some(p@),
        r is None <==> protocol::parse_spec(buf@) is None,
{
}

/// A packet in a stream: its length in two bytes, then the packet; a frame that does not fit is
/// refused.
pub proof fn lemma_stream_frame(pkt: &[u8], b: Vec<u8>, hdr: &[u8], capacity: usize, r: Option<usize>)
    requires
        pkt@.len() <= 0xffff,
        hdr@.len() == 2,
        call_ensures(protocol::tcp_frame, (pkt,), b),
        call_ensures(protocol::tcp_frame_len, (hdr, capacity), r),
    ensures
        b@.len() == 2 + pkt@.len(),
        number16(b@, 0) == pkt@.len(),
        b@.skip(2) == pkt@,
        number16(hdr@, 0) <= capacity ==> r == Some(number16(hdr@, 0) as usize),
        number16(hdr@, 0) > capacity ==> r is None,
{
    let n = bytes::be16(pkt@.len() as u16);
    assert(b@[0] == n[0] && b@[1] == n[1]);
    assert(b@.skip(2) =~= pkt@);
}

/// Nothing but bytes that start as a packet does is read as one.
pub proof fn lemma_reads_packets_only(buf: &[u8], r: Option<Packet<'_>>)
    requires
        call_ensures(protocol::parse, (buf,), r),
    ensures
        r is Some ==> exists|kind: int| 1 <= kind <= 12 && #[trigger] starts_packet(buf@, kind),
{
    if r is Some {
        assert(starts_packet(buf@, buf@[3] as int));
    }
}

/// Every field is read from its place: searches, their answers and requests for a session.
pub proof fn lemma_reads_setup(buf: &[u8], r: Option<Packet<'_>>)
    requires
        call_ensures(protocol::parse, (buf,), r),
    ensures
        starts_packet(buf@, 1) && buf@.len() >= 8 ==> (r matches Some(p) && p@ == (
        PacketView::Discover { nonce: number32(buf@, 4) as u32 })),
        starts_packet(buf@, 2) && buf@.len() >= 11 && buf@.len() >= 11 + buf@[10] ==> (r matches Some(
            p,
        ) && p@ == (PacketView::DiscoverReply {
            nonce: number32(buf@, 4) as u32,
            port: number16(buf@, 8) as u16,
            name: text::text_of(buf@.subrange(11, 11 + buf@[10])),
        })),
        starts_packet(buf@, 3) && buf@.len() >= 15 && buf@[13] <= 1 ==> (r matches Some(p) && (
        p@ matches PacketView::Hello(h) && h.session == number32(buf@, 4) && h.sample_rate
            == number32(buf@, 8) && h.channels == buf@[12] && codec_number(h.codec) == buf@[13]
            && h.frame_ms == buf@[14])),
        starts_packet(buf@, 4) && buf@.len() >= 8 ==> (r matches Some(p) && p@ == (
        PacketView::HelloAck { session: number32(buf@, 4) as u32 })),
        starts_packet(buf@, 8) && buf@.len() >= 8 ==> (r matches Some(p) && p@ == (
        PacketView::Bye { session: number32(buf@, 4) as u32 })),
        starts_packet(buf@, 1) && buf@.len() < 8 ==> r is None,
        starts_packet(buf@, 2) && (buf@.len() < 11 || buf@.len() < 11 + buf@[10]) ==> r is None,
        starts_packet(buf@, 3) && (buf@.len() < 15 || buf@[13] > 1) ==> r is None,
        starts_packet(buf@, 4) && buf@.len() < 8 ==> r is None,
        starts_packet(buf@, 8) && buf@.len() < 8 ==> r is None,
{
    let b = buf@.skip(4);
    if buf@.len() >= 11 && buf@.len() >= 11 + buf@[10] {
        assert(b.subrange(7, 7 + b[6]) =~= buf@.subrange(11, 11 + buf@[10]));
    }
}

/// Every field is read from its place: audio, signs of life and sounds.
pub proof fn lemma_reads_stream(buf: &[u8], r: Option<Packet<'_>>)
    requires
        call_ensures(protocol::parse, (buf,), r),
    ensures
        starts_packet(buf@, 5) && buf@.len() >= 16 ==> (r matches Some(p) && p@ == (
        PacketView::Audio {
            session: number32(buf@, 4) as u32,
            seq: number32(buf@, 8) as u32,
            timestamp: number32(buf@, 12) as u32,
            payload: buf@.skip(16),
        })),
        starts_packet(buf@, 6) && buf@.len() >= 12 ==> (r matches Some(p) && p@ == (
        PacketView::Heartbeat {
            session: number32(buf@, 4) as u32,
            time_ms: number32(buf@, 8) as u32,
        })),
        starts_packet(buf@, 7) && buf@.len() >= 12 ==> (r matches Some(p) && p@ == (
        PacketView::HeartbeatAck {
            session: number32(buf@, 4) as u32,
            time_ms: number32(buf@, 8) as u32,
        })),
        starts_packet(buf@, 9) && buf@.len() >= 8 ==> (r matches Some(p) && p@ == (
        PacketView::SoundListReq { session: number32(buf@, 4) as u32 })),
        starts_packet(buf@, 11) && buf@.len() >= 9 ==> (r matches Some(p) && p@ == (
        PacketView::SoundPlay { session: number32(buf@, 4) as u32, id: buf@[8] })),
        starts_packet(buf@, 12) && buf@.len() >= 8 ==> (r matches Some(p) && p@ == (
        PacketView::SoundStop { session: number32(buf@, 4) as u32 })),
        starts_packet(buf@, 5) && buf@.len() < 16 ==> r is None,
        starts_packet(buf@, 6) && buf@.len() < 12 ==> r is None,
        starts_packet(buf@, 7) && buf@.len() < 12 ==> r is None,
        starts_packet(buf@, 9) && buf@.len() < 8 ==> r is None,
        starts_packet(buf@, 11) && buf@.len() < 9 ==> r is None,
        starts_packet(buf@, 12) && buf@.len() < 8 ==> r is None,
{
    let b = buf@.skip(4);
    if buf@.len() >= 16 {
        assert(b.skip(12) =~= buf@.skip(16));
    }
}

/// The samples of a frame of PCM: each from two bytes, low byte first, in two's complement; what
/// is missing is silence.
pub proof fn lemma_pcm_samples(
    dec: &mut PcmDec,
    payload: &[u8],
    out: &mut [PcmLevel],
    i: int,
)
    requires
        call_ensures(<PcmDec as FrameDecoder<PcmLevel>>::decode, (dec, payload, out), ()),
        0 <= i < old(out)@.len(),
    ensures
        final(out)@.len() == old(out)@.len(),
        final(out)@[i].halvings == 0,
        2 * i + 1 >= payload@.len() ==> final(out)@[i].raw == 0,
        2 * i + 1 < payload@.len() ==> ({
            let u = payload@[2 * i] + 0x100 * payload@[2 * i + 1];
            final(out)@[i].raw == if u < 0x8000 {
                u
            } else {
                u - 0x1_0000
            }
        }),
        final(dec)@ == final(out)@,
{
}

/// A lost frame of PCM is the last one at half its level; where there is none of that length, it
/// is silence.
pub proof fn lemma_pcm_fades(dec: &mut PcmDec, out: &mut [PcmLevel], i: int)
    requires
        call_ensures(<PcmDec as FrameDecoder<PcmLevel>>::conceal, (dec, out), ()),
        0 <= i < old(out)@.len(),
    ensures
        final(out)@.len() == old(out)@.len(),
        old(dec)@.len() == old(out)@.len() ==> final(out)@[i].raw == old(dec)@[i].raw
            && final(dec)@ == final(out)@ && (old(dec)@[i].halvings < u32::MAX
            ==> final(out)@[i].halvings == old(dec)@[i].halvings + 1),
        old(dec)@.len() != old(out)@.len() ==> final(out)@[i].raw == 0 && final(dec)@ == old(
            dec,
        )@,
{
}

/// PCM has no redundancy: rebuilding a frame is concealing it.
pub proof fn lemma_pcm_rebuilds_by_fading(
    dec: &mut PcmDec,
    payload: &[u8],
    out: &mut [PcmLevel],
    i: int,
)
    requires
        call_ensures(<PcmDec as FrameDecoder<PcmLevel>>::decode_fec, (dec, payload, out), ()),
        0 <= i < old(out)@.len(),
    ensures
        old(dec)@.len() == old(out)@.len() ==> final(out)@[i].raw == old(dec)@[i].raw
            && final(dec)@ == final(out)@ && (old(dec)@[i].halvings < u32::MAX
            ==> final(out)@[i].halvings == old(dec)@[i].halvings + 1),
        old(dec)@.len() != old(out)@.len() ==> final(out)@[i].raw == 0 && final(dec)@ == old(
            dec,
        )@,
{
}

/// The payload of samples: two bytes for each, low byte first, in two's complement.
pub proof fn lemma_pcm_payload(samples: &[i16], b: Vec<u8>, i: int)
    requires
        call_ensures(decoder::pcm_payload, (samples,), b),
        0 <= i < samples@.len(),
    ensures
        b@.len() == 2 * samples@.len(),
        b@[2 * i] + 0x100 * b@[2 * i + 1] == (if samples@[i] >= 0 {
            samples@[i] as int
        } else {
            samples@[i] + 0x1_0000
        }),
{
    lemma_pcm_bytes_at(samples@, i);
}

/// The bytes of a sample stand at twice its place.
proof fn lemma_pcm_bytes_at(s: Seq<i16>, i: int)
    requires
        0 <= i < s.len(),
    ensures
        decoder::pcm_bytes(s).len() == 2 * s.len(),
        decoder::pcm_bytes(s)[2 * i] + 0x100 * decoder::pcm_bytes(s)[2 * i + 1] == (if s[i] >= 0 {
            s[i] as int
        } else {
            s[i] + 0x1_0000
        }),
    decreases s.len(),
{
    let t = s.drop_last();
    if t.len() > 0 {
        lemma_pcm_bytes_at(t, if i < t.len() {
            i
        } else {
            0
        });
    } else {
        assert(decoder::pcm_bytes(t).len() == 0);
    }
}

/// A new decoder has seen no frame, and silence is the level zero.
pub proof fn lemma_new_decoder(a: PcmDec, b: PcmDec, l: PcmLevel)
    requires
        call_ensures(PcmDec::new, (), a),
        call_ensures(<PcmDec as Default>::default, (), b),
        call_ensures(<PcmLevel as Default>::default, (), l),
    ensures
        a@.len() == 0,
        b@.len() == 0,
        l.raw == 0,
{
}

} // verus!
