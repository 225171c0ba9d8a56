//! The wire format.
//!
//! Every packet starts with the bytes "AR", a version and a type; the body follows. Header fields
//! are big-endian. Over a stream, each packet is preceded by its length.

use crate::bytes;
use crate::bytes::{push_all, push_be16, push_be32, u16_at, u32_at};
use crate::text;
use crate::text::decode_text;
use vstd::prelude::*;
use vstd::slice::slice_subrange;

verus! {

/// The first two bytes of every packet: "AR".
pub const MAGIC: [u8; 2] = [0x41, 0x52];

pub const VERSION: u8 = 1;

pub const DEFAULT_PORT: u16 = 48222;

pub const SAMPLE_RATE: u32 = 48000;

/// 20 ms.
pub const OPUS_FRAME_SAMPLES: usize = 960;

/// 10 ms.
pub const PCM_FRAME_SAMPLES: usize = 480;

/// A sound list names at most this many sounds.
pub const MAX_LISTED_SOUNDS: usize = 32;

/// The name in an announcement has at most this many bytes.
pub const MAX_RECEIVER_NAME: usize = 255;

/// A name in a sound list has at most this many bytes.
pub const MAX_SOUND_NAME: usize = 40;

/// How samples are coded.
#[derive(Debug, Clone, Copy, PartialEq, Eq, Structural)]
pub enum Codec {
    Pcm16,
    Opus,
}

impl Codec {
    /// The number of the codec on the wire.
    pub open spec fn number(self) -> u8 {
        match self {
            Codec::Pcm16 => 0,
            Codec::Opus => 1,
        }
    }

    /// How many samples a frame has.
    pub open spec fn samples_per_frame(self) -> usize {
        match self {
            Codec::Pcm16 => 480usize,
            Codec::Opus => 960usize,
        }
    }

    /// The codec with a given number.
    pub open spec fn from_number(v: u8) -> Option<Codec> {
        if v == 0 {
            Some(Codec::Pcm16)
        } else if v == 1 {
            Some(Codec::Opus)
        } else {
            None
        }
    }

    /// The codec with a given number, if there is one.
    pub fn from_u8(v: u8) -> (r: Option<Codec>)
        ensures
            r == Codec::from_number(v),
    {
        match v {
            0 => Some(Codec::Pcm16),
            1 => Some(Codec::Opus),
            _ => None,
        }
    }

    /// The number of the codec on the wire.
    pub fn to_u8(self) -> (r: u8)
        ensures
            r == self.number(),
    {
        match self {
            Codec::Pcm16 => 0,
            Codec::Opus => 1,
        }
    }

    /// How many samples one packet holds.
    pub fn frame_samples(self) -> (r: usize)
        ensures
            r == self.samples_per_frame(),
    {
        match self {
            Codec::Pcm16 => PCM_FRAME_SAMPLES,
            Codec::Opus => OPUS_FRAME_SAMPLES,
        }
    }
}

/// A client's request to open a session.
#[derive(Debug, Clone, Copy, PartialEq, Eq, Structural)]
pub struct Hello {
    pub session: u32,
    pub sample_rate: u32,
    pub channels: u8,
    pub codec: Codec,
    pub frame_ms: u8,
}

/// A sound that the receiver offers for remote playing.
#[derive(Debug)]
pub struct ListedSound {
    pub id: u8,
    pub name: String,
}

/// A packet that came in.
#[derive(Debug)]
pub enum Packet<'a> {
    Discover { nonce: u32 },
    DiscoverReply { nonce: u32, port: u16, name: String },
    Hello(Hello),
    HelloAck { session: u32 },
    Audio { session: u32, seq: u32, timestamp: u32, payload: &'a [u8] },
    Heartbeat { session: u32, time_ms: u32 },
    HeartbeatAck { session: u32, time_ms: u32 },
    Bye { session: u32 },
    SoundListReq { session: u32 },
    SoundList { sounds: Vec<ListedSound> },
    SoundPlay { session: u32, id: u8 },
    SoundStop { session: u32 },
}

/// What a packet says.
pub enum PacketView {
    Discover { nonce: u32 },
    DiscoverReply { nonce: u32, port: u16, name: Seq<char> },
    Hello(Hello),
    HelloAck { session: u32 },
    Audio { session: u32, seq: u32, timestamp: u32, payload: Seq<u8> },
    Heartbeat { session: u32, time_ms: u32 },
    HeartbeatAck { session: u32, time_ms: u32 },
    Bye { session: u32 },
    SoundListReq { session: u32 },
    SoundList { sounds: Seq<(u8, Seq<char>)> },
    SoundPlay { session: u32, id: u8 },
    SoundStop { session: u32 },
}

/// The ids and names of listed sounds.
pub open spec fn listed(sounds: Seq<ListedSound>) -> Seq<(u8, Seq<char>)> {
    sounds.map_values(|s: ListedSound| (s.id, s.name@))
}

impl<'a> View for Packet<'a> {
    type V = PacketView;

    open spec fn view(&self) -> PacketView {
        match *self {
            Packet::Discover { nonce } => PacketView::Discover { nonce },
            Packet::DiscoverReply { nonce, port, name } => PacketView::DiscoverReply {
                nonce,
                port,
                name: name@,
            },
            Packet::Hello(h) => PacketView::Hello(h),
            Packet::HelloAck { session } => PacketView::HelloAck { session },
            Packet::Audio { session, seq, timestamp, payload } => PacketView::Audio {
                session,
                seq,
                timestamp,
                payload: payload@,
            },
            Packet::Heartbeat { session, time_ms } => PacketView::Heartbeat { session, time_ms },
            Packet::HeartbeatAck { session, time_ms } => PacketView::HeartbeatAck {
                session,
                time_ms,
            },
            Packet::Bye { session } => PacketView::Bye { session },
            Packet::SoundListReq { session } => PacketView::SoundListReq { session },
            Packet::SoundList { sounds } => PacketView::SoundList { sounds: listed(sounds@) },
            Packet::SoundPlay { session, id } => PacketView::SoundPlay { session, id },
            Packet::SoundStop { session } => PacketView::SoundStop { session },
        }
    }
}

/// The first `count` entries of a sound list, if the bytes hold that many.
pub open spec fn sound_entries(b: Seq<u8>, count: nat) -> Option<Seq<(u8, Seq<char>)>>
    decreases count,
{
    if count == 0 {
        Some(Seq::empty())
    } else if b.len() < 2 || b.len() < 2 + b[1] {
        None
    } else {
        match sound_entries(b.skip(2 + b[1]), (count - 1) as nat) {
            None => None,
            Some(rest) => Some(seq![(b[0], text::text_of(b.subrange(2, 2 + b[1])))] + rest),
        }
    }
}

/// The packet with the type `kind` and the body `b`, if they make one.
pub open spec fn body_spec(kind: u8, b: Seq<u8>) -> Option<PacketView> {
    if kind == 1 && b.len() >= 4 {
        Some(PacketView::Discover { nonce: bytes::be32_at(b, 0) })
    } else if kind == 2 && b.len() >= 7 && b.len() >= 7 + b[6] {
        Some(
            PacketView::DiscoverReply {
                nonce: bytes::be32_at(b, 0),
                port: bytes::be16_at(b, 4),
                name: text::text_of(b.subrange(7, 7 + b[6])),
            },
        )
    } else if kind == 3 && b.len() >= 11 && Codec::from_number(b[9]) is Some {
        Some(
            PacketView::Hello(
                Hello {
                    session: bytes::be32_at(b, 0),
                    sample_rate: bytes::be32_at(b, 4),
                    channels: b[8],
                    codec: Codec::from_number(b[9]).unwrap(),
                    frame_ms: b[10],
                },
            ),
        )
    } else if kind == 4 && b.len() >= 4 {
        Some(PacketView::HelloAck { session: bytes::be32_at(b, 0) })
    } else if kind == 5 && b.len() >= 12 {
        Some(
            PacketView::Audio {
                session: bytes::be32_at(b, 0),
                seq: bytes::be32_at(b, 4),
                timestamp: bytes::be32_at(b, 8),
                payload: b.skip(12),
            },
        )
    } else if kind == 6 && b.len() >= 8 {
        Some(
            PacketView::Heartbeat {
                session: bytes::be32_at(b, 0),
                time_ms: bytes::be32_at(b, 4),
            },
        )
    } else if kind == 7 && b.len() >= 8 {
        Some(
            PacketView::HeartbeatAck {
                session: bytes::be32_at(b, 0),
                time_ms: bytes::be32_at(b, 4),
            },
        )
    } else if kind == 8 && b.len() >= 4 {
        Some(PacketView::Bye { session: bytes::be32_at(b, 0) })
    } else if kind == 9 && b.len() >= 4 {
        Some(PacketView::SoundListReq { session: bytes::be32_at(b, 0) })
    } else if kind == 10 && b.len() >= 1 {
        match sound_entries(b.skip(1), b[0] as nat) {
            None => None,
            Some(sounds) => Some(PacketView::SoundList { sounds }),
        }
    } else if kind == 11 && b.len() >= 5 {
        Some(PacketView::SoundPlay { session: bytes::be32_at(b, 0), id: b[4] })
    } else if kind == 12 && b.len() >= 4 {
        Some(PacketView::SoundStop { session: bytes::be32_at(b, 0) })
    } else {
        None
    }
}

/// The packet that the bytes make, if they make one.
pub open spec fn parse_spec(buf: Seq<u8>) -> Option<PacketView> {
    if buf.len() < 4 || buf[0] != 0x41 || buf[1] != 0x52 || buf[2] != 1 {
        None
    } else {
        body_spec(buf[3], buf.skip(4))
    }
}

/// Reads a packet. Anything that is not a packet of this version gives `None`.
pub fn parse(buf: &[u8]) -> (r: Option<Packet<'_>>)
    ensures
        match r {
            Some(p) => parse_spec(buf@) == Some(p@),
            None => parse_spec(buf@) is None,
        },
{
    if buf.len() < 4 || buf[0] != MAGIC[0] || buf[1] != MAGIC[1] || buf[2] != VERSION {
        return None;
    }
    let body = slice_subrange(buf, 4, buf.len());
    let n: usize = body.len();
    let ghost b = buf@.skip(4);
    assert(body@ =~= b);
    let kind: u8 = buf[3];
    match kind {
        1 if n >= 4 => Some(Packet::Discover { nonce: u32_at(body, 0) }),
        2 if n >= 7 => {
            let name_len: usize = body[6] as usize;
            if n < 7 + name_len {
                return None;
            }
            Some(
                Packet::DiscoverReply {
                    nonce: u32_at(body, 0),
                    port: u16_at(body, 4),
                    name: decode_text(slice_subrange(body, 7, 7 + name_len)),
                },
            )
        },
        3 if n >= 11 => match Codec::from_u8(body[9]) {
            Some(codec) => Some(
                Packet::Hello(
                    Hello {
                        session: u32_at(body, 0),
                        sample_rate: u32_at(body, 4),
                        channels: body[8],
                        codec,
                        frame_ms: body[10],
                    },
                ),
            ),
            None => None,
        },
        4 if n >= 4 => Some(Packet::HelloAck { session: u32_at(body, 0) }),
        5 if n >= 12 => {
            let payload = slice_subrange(body, 12, n);
            assert(payload@ =~= b.skip(12));
            Some(
                Packet::Audio {
                    session: u32_at(body, 0),
                    seq: u32_at(body, 4),
                    timestamp: u32_at(body, 8),
                    payload,
                },
            )
        },
        6 if n >= 8 => Some(
            Packet::Heartbeat { session: u32_at(body, 0), time_ms: u32_at(body, 4) },
        ),
        7 if n >= 8 => Some(
            Packet::HeartbeatAck { session: u32_at(body, 0), time_ms: u32_at(body, 4) },
        ),
        8 if n >= 4 => Some(Packet::Bye { session: u32_at(body, 0) }),
        9 if n >= 4 => Some(Packet::SoundListReq { session: u32_at(body, 0) }),
        10 if n >= 1 => {
            let rest = slice_subrange(body, 1, n);
            assert(rest@ =~= b.skip(1));
            match parse_sound_entries(rest, body[0]) {
                Some(sounds) => Some(Packet::SoundList { sounds }),
                None => None,
            }
        },
        11 if n >= 5 => Some(Packet::SoundPlay { session: u32_at(body, 0), id: body[4] }),
        12 if n >= 4 => Some(Packet::SoundStop { session: u32_at(body, 0) }),
        _ => None,
    }
}

/// Reads `count` entries of a sound list.
fn parse_sound_entries(b: &[u8], count: u8) -> (r: Option<Vec<ListedSound>>)
    ensures
        match r {
            Some(v) => sound_entries(b@, count as nat) == Some(listed(v@)),
            None => sound_entries(b@, count as nat) is None,
        },
{
    let mut out: Vec<ListedSound> = Vec::new();
    let mut left: u8 = count;
    let mut off: usize = 0;
    assert(b@.skip(0) =~= b@);
    assert(listed(out@) =~= Seq::empty());
    proof {
        if sound_entries(b@, count as nat) is Some {
            assert(Seq::<(u8, Seq<char>)>::empty() + sound_entries(b@, count as nat).unwrap()
                =~= sound_entries(b@, count as nat).unwrap());
        }
    }
    while left > 0
        invariant
            off <= b@.len(),
            match sound_entries(b@.skip(off as int), left as nat) {
                Some(rest) => sound_entries(b@, count as nat) == Some(listed(out@) + rest),
                None => sound_entries(b@, count as nat) is None,
            },
        decreases left,
    {
        let ghost here = b@.skip(off as int);
        if b.len() - off < 2 {
            return None;
        }
        let name_len: usize = b[off + 1] as usize;
        assert(here[1] == b@[off + 1]);
        if b.len() - off < 2 + name_len {
            return None;
        }
        let name = decode_text(slice_subrange(b, off + 2, off + 2 + name_len));
        assert(b@.subrange(off + 2, off + 2 + name_len) =~= here.subrange(2, 2 + name_len));
        let s = ListedSound { id: b[off], name };
        let ghost before = listed(out@);
        let ghost entry = (s.id, s.name@);
        out.push(s);
        assert(listed(out@) =~= before.push(entry));
        let ghost tail = sound_entries(here.skip(2 + name_len), (left - 1) as nat);
        assert(b@.skip(off + 2 + name_len) =~= here.skip(2 + name_len));
        proof {
            if tail is Some {
                assert(before + (seq![entry] + tail.unwrap()) =~= before.push(entry)
                    + tail.unwrap());
            }
        }
        off = off + 2 + name_len;
        left = left - 1;
    }
    assert(listed(out@) + Seq::<(u8, Seq<char>)>::empty() =~= listed(out@));
    Some(out)
}

/// The four bytes that a packet of the type `kind` starts with.
pub open spec fn header_bytes(kind: u8) -> Seq<u8> {
    seq![0x41, 0x52, 1, kind]
}

pub open spec fn discover_bytes(nonce: u32) -> Seq<u8> {
    header_bytes(1) + bytes::be32(nonce)
}

/// A reply holds as many whole characters of the name as fit.
pub open spec fn discover_reply_bytes(nonce: u32, port: u16, name: Seq<char>) -> Seq<u8> {
    let cut = cut_bytes(name, MAX_RECEIVER_NAME as int);
    header_bytes(2) + bytes::be32(nonce) + bytes::be16(port) + seq![cut.len() as u8] + cut
}

pub open spec fn hello_bytes(h: Hello) -> Seq<u8> {
    header_bytes(3) + bytes::be32(h.session) + bytes::be32(h.sample_rate) + seq![
        h.channels,
        h.codec.number(),
        h.frame_ms,
    ]
}

pub open spec fn audio_bytes(
    session: u32,
    seq: u32,
    timestamp: u32,
    payload: Seq<u8>,
) -> Seq<u8> {
    header_bytes(5) + bytes::be32(session) + bytes::be32(seq) + bytes::be32(timestamp) + payload
}

/// A packet of the type `kind` whose body is a session number.
pub open spec fn session_bytes(kind: u8, session: u32) -> Seq<u8> {
    header_bytes(kind) + bytes::be32(session)
}

/// A packet of the type `kind` whose body is a session number and a time.
pub open spec fn timed_bytes(kind: u8, session: u32, time_ms: u32) -> Seq<u8> {
    header_bytes(kind) + bytes::be32(session) + bytes::be32(time_ms)
}

pub open spec fn sound_play_bytes(session: u32, id: u8) -> Seq<u8> {
    header_bytes(11) + bytes::be32(session) + seq![id]
}

/// The largest character boundary in `b` that is at most `n`.
pub open spec fn boundary_at_most(b: Seq<u8>, n: int) -> int
    decreases n,
{
    if n <= 0 {
        0
    } else if n <= b.len() && vstd::utf8::is_char_boundary(b, n) {
        n
    } else {
        boundary_at_most(b, n - 1)
    }
}

/// The bytes of as many whole characters of a name as `n` bytes take.
pub open spec fn cut_bytes(name: Seq<char>, n: int) -> Seq<u8> {
    let all = vstd::utf8::encode_utf8(name);
    all.take(boundary_at_most(all, n))
}

/// The bytes of a name in a sound list: as many whole characters as fit.
pub open spec fn listed_name(name: Seq<char>) -> Seq<u8> {
    cut_bytes(name, MAX_SOUND_NAME as int)
}

/// The entries of the first `count` names, numbered from zero.
pub open spec fn sound_entry_bytes(names: Seq<Seq<char>>, count: int) -> Seq<u8>
    decreases count,
{
    if count <= 0 {
        Seq::empty()
    } else {
        let name = listed_name(names[count - 1]);
        sound_entry_bytes(names, count - 1) + seq![(count - 1) as u8, name.len() as u8] + name
    }
}

pub open spec fn sound_list_bytes(names: Seq<Seq<char>>) -> Seq<u8> {
    let count = if names.len() > MAX_LISTED_SOUNDS {
        MAX_LISTED_SOUNDS as int
    } else {
        names.len() as int
    };
    header_bytes(10) + seq![count as u8] + sound_entry_bytes(names, count)
}

/// The texts of strings.
pub open spec fn texts(names: Seq<String>) -> Seq<Seq<char>> {
    names.map_values(|s: String| s@)
}

/// A packet in a stream: its length in two bytes, then the packet.
pub open spec fn tcp_frame_bytes(pkt: Seq<u8>) -> Seq<u8> {
    bytes::be16(pkt.len() as u16) + pkt
}

fn header(kind: u8) -> (v: Vec<u8>)
    ensures
        v@ == header_bytes(kind),
{
    let mut v: Vec<u8> = Vec::new();
    v.push(MAGIC[0]);
    v.push(MAGIC[1]);
    v.push(VERSION);
    v.push(kind);
    assert(v@ =~= header_bytes(kind));
    v
}

fn session_packet(kind: u8, session: u32) -> (v: Vec<u8>)
    ensures
        v@ == session_bytes(kind, session),
{
    let mut v = header(kind);
    push_be32(&mut v, session);
    v
}

fn timed_packet(kind: u8, session: u32, time_ms: u32) -> (v: Vec<u8>)
    ensures
        v@ == timed_bytes(kind, session, time_ms),
{
    let mut v = header(kind);
    push_be32(&mut v, session);
    push_be32(&mut v, time_ms);
    v
}

/// A search for receivers.
pub fn build_discover(nonce: u32) -> (v: Vec<u8>)
    ensures
        v@ == discover_bytes(nonce),
{
    session_packet(1, nonce)
}

/// The answer to a search: the audio port and the receiver's name, which is cut to what the
/// format allows, at a whole character.
pub fn build_discover_reply(nonce: u32, port: u16, name: &str) -> (v: Vec<u8>)
    ensures
        v@ == discover_reply_bytes(nonce, port, name@),
{
    let cut = cut_name(name, MAX_RECEIVER_NAME);
    let mut v = header(2);
    push_be32(&mut v, nonce);
    push_be16(&mut v, port);
    let ghost before = v@;
    v.push(cut.len() as u8);
    assert(v@ =~= before + seq![cut@.len() as u8]);
    push_all(&mut v, cut);
    v
}

/// A request to open a session.
pub fn build_hello(h: &Hello) -> (v: Vec<u8>)
    ensures
        v@ == hello_bytes(*h),
{
    let mut v = header(3);
    push_be32(&mut v, h.session);
    push_be32(&mut v, h.sample_rate);
    let ghost before = v@;
    v.push(h.channels);
    v.push(h.codec.to_u8());
    v.push(h.frame_ms);
    assert(v@ =~= before + seq![h.channels, h.codec.number(), h.frame_ms]);
    v
}

/// The answer to a request for a session.
pub fn build_hello_ack(session: u32) -> (v: Vec<u8>)
    ensures
        v@ == session_bytes(4, session),
{
    session_packet(4, session)
}

/// A frame of audio.
pub fn build_audio(session: u32, seq: u32, timestamp: u32, payload: &[u8]) -> (v: Vec<u8>)
    ensures
        v@ == audio_bytes(session, seq, timestamp, payload@),
{
    let mut v = header(5);
    push_be32(&mut v, session);
    push_be32(&mut v, seq);
    push_be32(&mut v, timestamp);
    push_all(&mut v, payload);
    v
}

/// A sign of life, with the sender's clock.
pub fn build_heartbeat(session: u32, time_ms: u32) -> (v: Vec<u8>)
    ensures
        v@ == timed_bytes(6, session, time_ms),
{
    timed_packet(6, session, time_ms)
}

/// The answer to a sign of life, with the time that came in it.
pub fn build_heartbeat_ack(session: u32, time_ms: u32) -> (v: Vec<u8>)
    ensures
        v@ == timed_bytes(7, session, time_ms),
{
    timed_packet(7, session, time_ms)
}

/// The end of a session.
pub fn build_bye(session: u32) -> (v: Vec<u8>)
    ensures
        v@ == session_bytes(8, session),
{
    session_packet(8, session)
}

/// A request for the list of sounds.
pub fn build_sound_list_req(session: u32) -> (v: Vec<u8>)
    ensures
        v@ == session_bytes(9, session),
{
    session_packet(9, session)
}

/// The list of sounds. Names are cut to what the format allows, at a whole character.
pub fn build_sound_list(names: &Vec<String>) -> (v: Vec<u8>)
    ensures
        v@ == sound_list_bytes(texts(names@)),
{
    let count: usize = if names.len() > MAX_LISTED_SOUNDS {
        MAX_LISTED_SOUNDS
    } else {
        names.len()
    };
    let ghost all = texts(names@);
    let mut v = header(10);
    v.push(count as u8);
    assert(v@ =~= header_bytes(10) + seq![count as u8] + sound_entry_bytes(all, 0));
    let mut i: usize = 0;
    while i < count
        invariant
            i <= count <= names@.len(),
            count <= MAX_LISTED_SOUNDS,
            all == texts(names@),
            v@ == header_bytes(10) + seq![count as u8] + sound_entry_bytes(all, i as int),
        decreases count - i,
    {
        let name = cut_name(names[i].as_str(), MAX_SOUND_NAME);
        assert(all[i as int] == names@[i as int]@);
        let ghost before = v@;
        v.push(i as u8);
        v.push(name.len() as u8);
        push_all(&mut v, name);
        assert(v@ =~= header_bytes(10) + seq![count as u8] + sound_entry_bytes(all, i + 1));
        i = i + 1;
    }
    v
}

/// The bytes of as many whole characters of a name as `limit` bytes take.
fn cut_name(name: &str, limit: usize) -> (b: &[u8])
    ensures
        b@ == cut_bytes(name@, limit as int),
        b@.len() <= limit,
{
    let ghost all = vstd::utf8::encode_utf8(name@);
    proof {
        vstd::utf8::encode_utf8_valid_utf8(name@);
        vstd::utf8::is_char_boundary_start_end_of_seq(all);
    }
    let mut n: usize = limit;
    while n > 0 && !(n <= name.as_bytes().len() && name.is_char_boundary(n))
        invariant
            n <= limit,
            all == vstd::utf8::encode_utf8(name@),
            boundary_at_most(all, limit as int) == boundary_at_most(all, n as int),
        decreases n,
    {
        n = n - 1;
    }
    let b = slice_subrange(name.as_bytes(), 0, n);
    assert(b@ =~= all.take(n as int));
    b
}

/// A request to play the sound `id`.
pub fn build_sound_play(session: u32, id: u8) -> (v: Vec<u8>)
    ensures
        v@ == sound_play_bytes(session, id),
{
    let mut v = header(11);
    push_be32(&mut v, session);
    let ghost before = v@;
    v.push(id);
    assert(v@ =~= before + seq![id]);
    v
}

/// A request to stop all sounds.
pub fn build_sound_stop(session: u32) -> (v: Vec<u8>)
    ensures
        v@ == session_bytes(12, session),
{
    session_packet(12, session)
}

/// A packet as it goes over a stream.
pub fn tcp_frame(pkt: &[u8]) -> (v: Vec<u8>)
    requires
        pkt@.len() <= u16::MAX,
    ensures
        v@ == tcp_frame_bytes(pkt@),
{
    let mut v: Vec<u8> = Vec::new();
    push_be16(&mut v, pkt.len() as u16);
    push_all(&mut v, pkt);
    assert(v@ =~= tcp_frame_bytes(pkt@));
    v
}

/// The length of the packet that the two bytes `hdr` announce, unless it is longer than
/// `capacity`.
pub fn tcp_frame_len(hdr: &[u8], capacity: usize) -> (r: Option<usize>)
    requires
        hdr@.len() == 2,
    ensures
        r == if bytes::be16_at(hdr@, 0) <= capacity {
            Some(bytes::be16_at(hdr@, 0) as usize)
        } else {
            None
        },
{
    let len: usize = u16_at(hdr, 0) as usize;
    if len <= capacity {
        Some(len)
    } else {
        None
    }
}

} // verus!
