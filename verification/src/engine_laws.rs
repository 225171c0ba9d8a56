//! What holds of the engine over several packets.

use crate::engine;
use crate::engine::{EngineView, OutcomeView, Supervision};
use crate::protocol;
use crate::protocol::{Hello, PacketView};
use crate::protocol_laws;
use vstd::prelude::*;

verus! {

/// The session that a packet of a client belongs to. A request for a session belongs to none
/// yet.
pub open spec fn session_of(pkt: PacketView) -> Option<u32> {
    match pkt {
        PacketView::Audio { session, .. } => Some(session),
        PacketView::Heartbeat { session, .. } => Some(session),
        PacketView::Bye { session } => Some(session),
        PacketView::SoundListReq { session } => Some(session),
        PacketView::SoundPlay { session, .. } => Some(session),
        PacketView::SoundStop { session } => Some(session),
        _ => None,
    }
}

/// A session that was asked for again is only acknowledged again: it goes on undisturbed.
pub proof fn lemma_repeated_hello_only_acknowledged<A, S, D>(
    e: EngineView<A, S, D>,
    h: Hello,
    src: A,
    now: u64,
    port: u16,
    name: Seq<char>,
    sounds: Seq<Seq<char>>,
)
    requires
        e.knows(h.session),
    ensures
        e.after(PacketView::Hello(h), src, now) == e,
        e.outcome(PacketView::Hello(h), port, name, sounds) == OutcomeView::Reply(
            protocol::session_bytes(4, h.session),
        ),
{
}

/// An opened session is known from then on, so that asking for it again is only acknowledged.
pub proof fn lemma_opened_is_known<A, S, D>(
    e: EngineView<A, S, D>,
    h: Hello,
    src: A,
    dec: D,
    now: u64,
    target_ms: u32,
    silence: S,
)
    ensures
        e.opened(h, src, dec, now, target_ms, silence).knows(h.session),
{
}

/// A new client takes over: of the session before nothing is left.
pub proof fn lemma_new_client_takes_over<A, S, D>(
    e: EngineView<A, S, D>,
    other: EngineView<A, S, D>,
    h: Hello,
    src: A,
    dec: D,
    now: u64,
    target_ms: u32,
    silence: S,
)
    requires
        e.epoch_counter == other.epoch_counter,
    ensures
        e.opened(h, src, dec, now, target_ms, silence) == other.opened(
            h,
            src,
            dec,
            now,
            target_ms,
            silence,
        ),
        forall|id: u32|
            id != h.session ==> !(#[trigger] e.opened(
                h,
                src,
                dec,
                now,
                target_ms,
                silence,
            ).knows(id)),
{
}

/// A session never has the epoch of an earlier one, so that a consumer notices the change.
pub proof fn lemma_epochs_grow<A, S, D>(
    e: EngineView<A, S, D>,
    h: Hello,
    src: A,
    dec: D,
    now: u64,
    target_ms: u32,
    silence: S,
)
    requires
        e.wf(),
        e.epoch_counter < u64::MAX,
    ensures
        e.opened(h, src, dec, now, target_ms, silence).session.unwrap().epoch > e.epoch_counter,
        e.session matches Some(s) ==> e.opened(
            h,
            src,
            dec,
            now,
            target_ms,
            silence,
        ).session.unwrap().epoch > s.epoch,
{
}

/// Packets of other sessions change nothing and are not answered. A client whose session was
/// closed learns of it that way.
pub proof fn lemma_foreign_packet_ignored<A, S, D>(
    e: EngineView<A, S, D>,
    pkt: PacketView,
    src: A,
    now: u64,
    port: u16,
    name: Seq<char>,
    sounds: Seq<Seq<char>>,
)
    requires
        session_of(pkt) matches Some(id) && !e.knows(id),
    ensures
        e.after(pkt, src, now) == e,
        e.outcome(pkt, port, name, sounds) == OutcomeView::Ignored,
{
}

/// Every packet of the session but a farewell keeps it open for the whole time limit.
pub proof fn lemma_packet_keeps_session_open<A, S, D>(
    e: EngineView<A, S, D>,
    pkt: PacketView,
    src: A,
    now: u64,
    later: u64,
)
    requires
        session_of(pkt) matches Some(id) && e.knows(id),
        !(pkt is Bye),
        later <= now + engine::SESSION_TIMEOUT_NS,
    ensures
        e.after(pkt, src, now).supervised(later) == e.after(pkt, src, now),
        e.after(pkt, src, now).session matches Some(s) && s.id == session_of(pkt).unwrap(),
{
}

/// A session from which nothing comes is closed once the time limit is over. Then a heartbeat
/// stays unanswered, and the client can open the session anew under the same number.
pub proof fn lemma_silent_session_closed<A, S, D>(
    e: EngineView<A, S, D>,
    h: Hello,
    time_ms: u32,
    now: u64,
    port: u16,
    name: Seq<char>,
    sounds: Seq<Seq<char>>,
)
    requires
        e.session matches Some(s) && s.id == h.session && now > s.last_packet
            + engine::SESSION_TIMEOUT_NS,
        engine::supported(h),
    ensures
        e.finding(now) == Supervision::TimedOut,
        e.supervised(now).session is None,
        e.supervised(now).outcome(
            PacketView::Heartbeat { session: h.session, time_ms },
            port,
            name,
            sounds,
        ) == OutcomeView::Ignored,
        e.supervised(now).outcome(PacketView::Hello(h), port, name, sounds)
            == OutcomeView::NewSession(h),
{
}

/// A client that says farewell has no session left.
pub proof fn lemma_farewell_closes<A, S, D>(
    e: EngineView<A, S, D>,
    session: u32,
    src: A,
    now: u64,
)
    ensures
        !e.after(PacketView::Bye { session }, src, now).knows(session),
{
}

/// Audio of the session reaches its buffer, and replies go to where it came from.
pub proof fn lemma_audio_stored<A, S, D>(
    e: EngineView<A, S, D>,
    session: u32,
    seq: u32,
    timestamp: u32,
    payload: Seq<u8>,
    src: A,
    now: u64,
)
    requires
        e.knows(session),
    ensures
        ({
            let after = e.after(
                PacketView::Audio { session, seq, timestamp, payload },
                src,
                now,
            ).session.unwrap();
            &&& after.jb == e.session.unwrap().jb.pushed(seq, payload)
            &&& after.peer == src
            &&& after.dec == e.session.unwrap().dec
            &&& after.epoch == e.session.unwrap().epoch
        }),
{
}

/// The bytes of an audio packet, once read, put its payload into the buffer of its session.
pub proof fn lemma_audio_packet_arrives<A, S, D>(
    e: EngineView<A, S, D>,
    session: u32,
    seq: u32,
    timestamp: u32,
    payload: Seq<u8>,
    src: A,
    now: u64,
)
    requires
        e.knows(session),
    ensures
        protocol::parse_spec(
            protocol::audio_bytes(session, seq, timestamp, payload),
        ) matches Some(pkt) && e.after(pkt, src, now).session.unwrap().jb
            == e.session.unwrap().jb.pushed(seq, payload),
{
    protocol_laws::lemma_audio_roundtrip(session, seq, timestamp, payload);
}

/// What a client reads in the replies: its own session, the time of its own heartbeat, and the
/// nonce of its own search.
pub proof fn lemma_replies_echo_request<A, S, D>(
    e: EngineView<A, S, D>,
    pkt: PacketView,
    port: u16,
    name: Seq<char>,
    sounds: Seq<Seq<char>>,
)
    ensures
        e.outcome(pkt, port, name, sounds) matches OutcomeView::Announce(b) ==> {
            &&& pkt matches PacketView::Discover { nonce }
            &&& protocol::parse_spec(b) == Some(
                PacketView::DiscoverReply { nonce, port, name: protocol_laws::announced(name) },
            )
        },
        pkt is Discover ==> e.outcome(pkt, port, name, sounds) is Announce,
        e.outcome(pkt, port, name, sounds) matches OutcomeView::Reply(b) ==> match pkt {
            PacketView::Hello(h) => protocol::parse_spec(b) == Some(
                PacketView::HelloAck { session: h.session },
            ),
            PacketView::Heartbeat { session, time_ms } => protocol::parse_spec(b) == Some(
                PacketView::HeartbeatAck { session, time_ms },
            ),
            PacketView::SoundListReq { session } => protocol::parse_spec(b) == Some(
                PacketView::SoundList {
                    sounds: protocol_laws::listed_sounds(
                        sounds,
                        if sounds.len() > protocol::MAX_LISTED_SOUNDS {
                            protocol::MAX_LISTED_SOUNDS as int
                        } else {
                            sounds.len() as int
                        },
                    ),
                },
            ),
            _ => false,
        },
{
    match pkt {
        PacketView::Discover { nonce } => {
            protocol_laws::lemma_discover_reply_roundtrip(nonce, port, name);
        },
        PacketView::Hello(h) => {
            protocol_laws::lemma_session_roundtrip(h.session);
        },
        PacketView::Heartbeat { session, time_ms } => {
            protocol_laws::lemma_heartbeat_roundtrip(session, time_ms);
        },
        PacketView::SoundListReq { session } => {
            protocol_laws::lemma_sound_list_roundtrip(sounds);
        },
        _ => {},
    }
}

/// The servo is bounded, rests at the target, speeds playback up exactly while the buffer is
/// too full, and never answers a fuller buffer with a lower speed.
pub proof fn lemma_servo(fill: int, fuller: int, target: int)
    requires
        fill <= fuller,
    ensures
        -engine::MAX_SERVO_PPM <= engine::servo_ppm(fill, target) <= engine::MAX_SERVO_PPM,
        engine::servo_ppm(target, target) == 0,
        engine::servo_ppm(fill, target) > 0 <==> fill > target,
        engine::servo_ppm(fill, target) < 0 <==> fill < target,
        engine::servo_ppm(fill, target) <= engine::servo_ppm(fuller, target),
{
}

} // verus!
