//! What the engine does, operation by operation: for every packet that comes in, what is answered
//! and what becomes of the session.

use crate::engine;
use crate::engine::{Engine, EngineView, Outcome, OutcomeView, PullStart, SessionView, Snapshot};
use crate::engine::Supervision;
use crate::jitter;
use crate::jitter::{FrameDecoder, JitterStats, JitterView, PullInfo, State};
use crate::protocol;
use crate::protocol::{Codec, Hello, Packet, PacketView};
use crate::protocol_laws;
use vstd::prelude::*;

verus! {

/// The engine has a session, and this is its number.
pub open spec fn has_session<A, S, D>(e: EngineView<A, S, D>, id: u32) -> bool {
    match e.session {
        Some(s) => s.id == id,
        None => false,
    }
}

/// Only the time of the last packet changed.
pub open spec fn only_seen<A, S, D>(
    e: EngineView<A, S, D>,
    e2: EngineView<A, S, D>,
    now: u64,
) -> bool {
    match (e.session, e2.session) {
        (Some(s), Some(t)) => {
            &&& e2.epoch_counter == e.epoch_counter
            &&& t.last_packet == now
            &&& t.id == s.id
            &&& t.peer == s.peer
            &&& t.jb == s.jb
            &&& t.dec == s.dec
            &&& t.epoch == s.epoch
        },
        _ => false,
    }
}

/// The engine says whether it has a session of a number.
pub proof fn lemma_knows<A: Copy, S: Copy + Default, D>(
    e: &Engine<A, S, D>,
    session: u32,
    r: bool,
)
    requires
        call_ensures(Engine::<A, S, D>::knows, (e, session), r),
    ensures
        r == has_session(e@, session),
{
}

/// A search is answered with its nonce, the port and the name, and changes nothing.
pub proof fn lemma_search_answered<A: Copy, S: Copy + Default, D>(
    e: &mut Engine<A, S, D>,
    pkt: &Packet<'_>,
    src: A,
    now: u64,
    port: u16,
    name: &str,
    sounds: &Vec<String>,
    r: Outcome,
    nonce: u32,
)
    requires
        pkt@ == (PacketView::Discover { nonce }),
        call_ensures(Engine::<A, S, D>::handle, (e, pkt, src, now, port, name, sounds), r),
    ensures
        final(e)@ == old(e)@,
        r matches Outcome::Announce(b) && protocol::parse_spec(b@) == Some(
            PacketView::DiscoverReply { nonce, port, name: protocol_laws::announced(name@) },
        ),
{
    protocol_laws::lemma_discover_reply_roundtrip(nonce, port, name@);
}

/// A request for a session: one that is open is acknowledged; a new one is granted exactly where
/// it asks for 48 kHz and one channel, else what it asked for is reported. The request alone
/// changes nothing.
pub proof fn lemma_request_answered<A: Copy, S: Copy + Default, D>(
    e: &mut Engine<A, S, D>,
    pkt: &Packet<'_>,
    src: A,
    now: u64,
    port: u16,
    name: &str,
    sounds: &Vec<String>,
    r: Outcome,
    h: Hello,
)
    requires
        pkt@ == PacketView::Hello(h),
        call_ensures(Engine::<A, S, D>::handle, (e, pkt, src, now, port, name, sounds), r),
    ensures
        final(e)@ == old(e)@,
        has_session(old(e)@, h.session) ==> (r matches Outcome::Reply(b) && protocol::parse_spec(
            b@,
        ) == Some(PacketView::HelloAck { session: h.session })),
        !has_session(old(e)@, h.session) && h.sample_rate == 48000 && h.channels == 1 ==> r
            == Outcome::NewSession(h),
        !has_session(old(e)@, h.session) && !(h.sample_rate == 48000 && h.channels == 1) ==> r
            == (Outcome::Unsupported { sample_rate: h.sample_rate, channels: h.channels }),
{
    protocol_laws::lemma_session_roundtrip(h.session);
}

/// Audio of the open session goes to its buffer under its number; the session is seen, and its
/// client is where the packet came from. Audio of others is ignored.
pub proof fn lemma_audio_taken<A: Copy, S: Copy + Default, D>(
    e: &mut Engine<A, S, D>,
    pkt: &Packet<'_>,
    src: A,
    now: u64,
    port: u16,
    name: &str,
    sounds: &Vec<String>,
    r: Outcome,
    session: u32,
    seq: u32,
    timestamp: u32,
    payload: Seq<u8>,
)
    requires
        pkt@ == (PacketView::Audio { session, seq, timestamp, payload }),
        call_ensures(Engine::<A, S, D>::handle, (e, pkt, src, now, port, name, sounds), r),
    ensures
        has_session(old(e)@, session) ==> {
            &&& r is Stored
            &&& final(e)@.epoch_counter == old(e)@.epoch_counter
            &&& final(e)@.session matches Some(t)
            &&& t.id == session
            &&& t.peer == src
            &&& t.last_packet == now
            &&& t.jb == old(e)@.session.unwrap().jb.pushed(seq, payload)
            &&& t.dec == old(e)@.session.unwrap().dec
            &&& t.epoch == old(e)@.session.unwrap().epoch
        },
        !has_session(old(e)@, session) ==> r is Ignored && final(e)@ == old(e)@,
{
}

/// A heartbeat of the open session is answered with its own time and shows that the client is
/// there; one of another session is not answered.
pub proof fn lemma_heartbeat_answered<A: Copy, S: Copy + Default, D>(
    e: &mut Engine<A, S, D>,
    pkt: &Packet<'_>,
    src: A,
    now: u64,
    port: u16,
    name: &str,
    sounds: &Vec<String>,
    r: Outcome,
    session: u32,
    time_ms: u32,
)
    requires
        pkt@ == (PacketView::Heartbeat { session, time_ms }),
        call_ensures(Engine::<A, S, D>::handle, (e, pkt, src, now, port, name, sounds), r),
    ensures
        has_session(old(e)@, session) ==> (r matches Outcome::Reply(b) && protocol::parse_spec(b@)
            == Some(PacketView::HeartbeatAck { session, time_ms })) && only_seen(
            old(e)@,
            final(e)@,
            now,
        ),
        !has_session(old(e)@, session) ==> r is Ignored && final(e)@ == old(e)@,
{
    protocol_laws::lemma_heartbeat_roundtrip(session, time_ms);
}

/// A farewell closes its own session and no other.
pub proof fn lemma_farewell_taken<A: Copy, S: Copy + Default, D>(
    e: &mut Engine<A, S, D>,
    pkt: &Packet<'_>,
    src: A,
    now: u64,
    port: u16,
    name: &str,
    sounds: &Vec<String>,
    r: Outcome,
    session: u32,
)
    requires
        pkt@ == (PacketView::Bye { session }),
        call_ensures(Engine::<A, S, D>::handle, (e, pkt, src, now, port, name, sounds), r),
    ensures
        has_session(old(e)@, session) ==> r is Left && final(e)@.session is None
            && final(e)@.epoch_counter == old(e)@.epoch_counter,
        !has_session(old(e)@, session) ==> r is Ignored && final(e)@ == old(e)@,
{
}

/// The sounds that are listed are those at hand, each under its place in the list.
pub proof fn lemma_sounds_listed<A: Copy, S: Copy + Default, D>(
    e: &mut Engine<A, S, D>,
    pkt: &Packet<'_>,
    src: A,
    now: u64,
    port: u16,
    name: &str,
    sounds: &Vec<String>,
    r: Outcome,
    session: u32,
)
    requires
        pkt@ == (PacketView::SoundListReq { session }),
        call_ensures(Engine::<A, S, D>::handle, (e, pkt, src, now, port, name, sounds), r),
    ensures
        has_session(old(e)@, session) ==> {
            &&& only_seen(old(e)@, final(e)@, now)
            &&& r matches Outcome::Reply(b)
            &&& protocol::parse_spec(b@) matches Some(PacketView::SoundList { sounds: listed })
            &&& listed.len() == (if sounds@.len() > 32 {
                32
            } else {
                sounds@.len()
            })
            &&& forall|i: int|
                0 <= i < listed.len() ==> {
                    &&& (#[trigger] listed[i]).0 == i
                    &&& listed[i].1.is_prefix_of(sounds@[i]@)
                    &&& vstd::utf8::encode_utf8(sounds@[i]@).len() <= 40 ==> listed[i].1
                        == sounds@[i]@
                }
        },
        !has_session(old(e)@, session) ==> r is Ignored && final(e)@ == old(e)@,
{
    let names = protocol::texts(sounds@);
    protocol_laws::lemma_sound_list_roundtrip(names);
    if has_session(old(e)@, session) {
        let n = if names.len() > 32 {
            32
        } else {
            names.len() as int
        };
        let listed = protocol_laws::listed_sounds(names, n);
        assert forall|i: int| 0 <= i < listed.len() implies {
            &&& (#[trigger] listed[i]).0 == i
            &&& listed[i].1.is_prefix_of(sounds@[i]@)
            &&& vstd::utf8::encode_utf8(sounds@[i]@).len() <= 40 ==> listed[i].1 == sounds@[i]@
        } by {
            assert(names[i] == sounds@[i]@);
            protocol_laws::lemma_cut_name(names[i], 40);
        }
    }
}

/// The sound that is played is the one that was asked for, by its number, for the open session
/// alone.
pub proof fn lemma_sound_played<A: Copy, S: Copy + Default, D>(
    e: &mut Engine<A, S, D>,
    pkt: &Packet<'_>,
    src: A,
    now: u64,
    port: u16,
    name: &str,
    sounds: &Vec<String>,
    r: Outcome,
    session: u32,
    id: u8,
)
    requires
        pkt@ == (PacketView::SoundPlay { session, id }),
        call_ensures(Engine::<A, S, D>::handle, (e, pkt, src, now, port, name, sounds), r),
    ensures
        has_session(old(e)@, session) ==> r == Outcome::PlaySound(id) && only_seen(
            old(e)@,
            final(e)@,
            now,
        ),
        !has_session(old(e)@, session) ==> r is Ignored && final(e)@ == old(e)@,
{
}

/// A request to stop the sounds stops them, for the open session alone.
pub proof fn lemma_sounds_stopped<A: Copy, S: Copy + Default, D>(
    e: &mut Engine<A, S, D>,
    pkt: &Packet<'_>,
    src: A,
    now: u64,
    port: u16,
    name: &str,
    sounds: &Vec<String>,
    r: Outcome,
    session: u32,
)
    requires
        pkt@ == (PacketView::SoundStop { session }),
        call_ensures(Engine::<A, S, D>::handle, (e, pkt, src, now, port, name, sounds), r),
    ensures
        has_session(old(e)@, session) ==> r is StopSounds && only_seen(old(e)@, final(e)@, now),
        !has_session(old(e)@, session) ==> r is Ignored && final(e)@ == old(e)@,
{
}

/// Packets that only receivers send are ignored.
pub proof fn lemma_answers_ignored<A: Copy, S: Copy + Default, D>(
    e: &mut Engine<A, S, D>,
    pkt: &Packet<'_>,
    src: A,
    now: u64,
    port: u16,
    name: &str,
    sounds: &Vec<String>,
    r: Outcome,
)
    requires
        pkt@ is DiscoverReply || pkt@ is HelloAck || pkt@ is HeartbeatAck || pkt@ is SoundList,
        call_ensures(Engine::<A, S, D>::handle, (e, pkt, src, now, port, name, sounds), r),
    ensures
        r is Ignored,
        final(e)@ == old(e)@,
{
}

/// The number of a sound goes from the phone's packet to playing it, byte for byte.
pub proof fn lemma_sound_play_from_bytes<A, S, D>(
    e: EngineView<A, S, D>,
    session: u32,
    id: u8,
    port: u16,
    name: Seq<char>,
    sounds: Seq<Seq<char>>,
)
    requires
        has_session(e, session),
    ensures
        protocol::parse_spec(protocol::sound_play_bytes(session, id)) matches Some(pkt)
            && e.outcome(pkt, port, name, sounds) == OutcomeView::PlaySound(id),
        e.outcome(PacketView::SoundPlay { session, id }, port, name, sounds)
            == OutcomeView::PlaySound(id),
{
    protocol_laws::lemma_sound_play_roundtrip(session, id);
}

/// An opened session is the one that was asked for: its number, its client, its decoder, seen
/// now, under a new epoch, with an empty buffer for frames of its codec whose target delay is the
/// one asked for, kept between 30 and 300 ms. The client is told.
pub proof fn lemma_session_opened<A: Copy, S: Copy + Default, D>(
    e: &mut Engine<A, S, D>,
    h: &Hello,
    src: A,
    dec: D,
    now: u64,
    target_ms: u32,
    ack: Vec<u8>,
)
    requires
        old(e)@.epoch_counter < u64::MAX,
        call_ensures(Engine::<A, S, D>::open_session, (e, h, src, dec, now, target_ms), ack),
    ensures
        final(e)@.epoch_counter == old(e)@.epoch_counter + 1,
        ({
            &&& final(e)@.session matches Some(t)
            &&& t.id == h.session
            &&& t.peer == src
            &&& t.dec == dec
            &&& t.last_packet == now
            &&& t.epoch == old(e)@.epoch_counter + 1
            &&& t.jb.packets.is_empty()
            &&& t.jb.fifo.len() == 0
            &&& t.jb.next_seq is None
            &&& t.jb.state == State::Buffering
            &&& t.jb.target_ms == (if target_ms < 30 {
                30
            } else if target_ms > 300 {
                300
            } else {
                target_ms
            })
            &&& t.jb.cfg.frame_samples == (if h.codec == Codec::Opus {
                960usize
            } else {
                480usize
            })
            &&& t.jb.cfg.sample_rate == 48000
            &&& t.jb.cfg.min_target_ms == 30
            &&& t.jb.cfg.max_target_ms == 300
            &&& t.jb.cfg.plc_limit_frames == 6
            &&& t.jb.cfg.small_gap_frames == 3
            &&& t.jb.cfg.decrease_after_s == 10
            &&& t.jb.cfg.hard_cap_ms == 400
            &&& t.jb.cfg.resync_jump_frames == 500
            &&& t.jb.stats.pushed == 0
            &&& t.jb.stats.underruns == 0
            &&& t.jb.stats.pulled_samples == 0
        }),
        protocol::parse_spec(ack@) == Some(PacketView::HelloAck { session: h.session }),
{
    protocol_laws::lemma_session_roundtrip(h.session);
}

/// The session is closed exactly when nothing came for more than five seconds; else nothing
/// changes, and while it plays the speed is a tenth of a permille for every millisecond that the
/// buffer is off its target, three permille at most.
pub proof fn lemma_supervised<A: Copy, S: Copy + Default, D>(
    e: &mut Engine<A, S, D>,
    now: u64,
    r: Supervision,
)
    requires
        old(e)@.wf(),
        call_ensures(Engine::<A, S, D>::supervise, (e, now), r),
    ensures
        final(e)@.epoch_counter == old(e)@.epoch_counter,
        old(e)@.session is None ==> r == Supervision::Idle && final(e)@ == old(e)@,
        old(e)@.session matches Some(s) ==> {
            let late = now > s.last_packet + 5_000_000_000;
            let off = s.fill_ms() - s.jb.target_ms;
            &&& late ==> r == Supervision::TimedOut && final(e)@.session is None
            &&& !late ==> final(e)@ == old(e)@
            &&& !late && s.jb.state == State::Buffering ==> r == Supervision::Buffering
            &&& !late && s.jb.state == State::Playing ==> {
                &&& r matches Supervision::Playing { servo_ppm }
                &&& -30 <= off <= 30 ==> servo_ppm == 100 * off
                &&& off > 30 ==> servo_ppm == 3000
                &&& off < -30 ==> servo_ppm == -3000
            }
        },
{
}

/// The speed is a tenth of a permille for every millisecond that the buffer is off its target,
/// three permille at most.
pub proof fn lemma_servo_speed(fill_ms: u32, target_ms: u32, r: i64)
    requires
        call_ensures(engine::servo_speed, (fill_ms, target_ms), r),
    ensures
        -30 <= fill_ms - target_ms <= 30 ==> r == 100 * (fill_ms - target_ms),
        fill_ms - target_ms > 30 ==> r == 3000,
        fill_ms - target_ms < -30 ==> r == -3000,
{
}

/// How full a session's buffer is in milliseconds, rounded down.
pub proof fn lemma_session_fill<A, S, D>(s: SessionView<A, S, D>)
    requires
        s.jb.cfg.sample_rate > 0,
        0 <= s.jb.fill() * 1000 < 0x1_0000_0000 * s.jb.cfg.sample_rate,
    ensures
        s.fill_ms() * s.jb.cfg.sample_rate <= s.jb.fill() * 1000 < (s.fill_ms() + 1)
            * s.jb.cfg.sample_rate,
{
    let x = s.jb.fill() * 1000;
    let r = s.jb.cfg.sample_rate as int;
    vstd::arithmetic::div_mod::lemma_fundamental_div_mod(x, r);
    let q = x / r;
    assert(0 <= q < 0x1_0000_0000) by (nonlinear_arith)
        requires
            q == x / r,
            0 <= x < 0x1_0000_0000 * r,
            r > 0,
    ;
    assert((q + 1) * r == r * q + r && q * r == r * q) by (nonlinear_arith);
}

/// What is shown is the state of the session.
pub proof fn lemma_snapshot<A: Copy, S: Copy + Default, D>(
    e: &Engine<A, S, D>,
    r: Option<Snapshot<A>>,
)
    requires
        e@.wf(),
        call_ensures(Engine::<A, S, D>::snapshot, (e,), r),
    ensures
        r is Some <==> e@.session is Some,
        r matches Some(t) ==> {
            let s = e@.session.unwrap();
            &&& t.peer == s.peer
            &&& t.playing <==> s.jb.state == State::Playing
            &&& t.fill_ms == s.fill_ms()
            &&& t.target_ms == s.jb.target_ms
            &&& t.stats == s.jb.stats
        },
{
}

/// A consumer starts afresh exactly when the session is another one than it saw last.
pub proof fn lemma_consumer_told<A: Copy, S: Copy + Default, D>(
    e: &Engine<A, S, D>,
    last_epoch: &mut u64,
    r: PullStart,
)
    requires
        call_ensures(Engine::<A, S, D>::begin_pull, (e, last_epoch), r),
    ensures
        r == PullStart::NoSession <==> e@.session is None,
        e@.session is None ==> *final(last_epoch) == *old(last_epoch),
        e@.session matches Some(s) ==> *final(last_epoch) == s.epoch && (r == PullStart::Restarted
            <==> s.epoch != *old(last_epoch)) && (r == PullStart::Continuing <==> s.epoch == *old(
            last_epoch,
        )),
{
}

/// Samples come from the buffer of the session; without one nothing is written.
pub proof fn lemma_engine_pull<A: Copy, S: Copy + Default, D: FrameDecoder<S>>(
    e: &mut Engine<A, S, D>,
    out: &mut [S],
    r: Option<PullInfo>,
)
    requires
        call_ensures(Engine::<A, S, D>::pull, (e, out), r),
    ensures
        old(e)@.session is None ==> r is None && final(e)@ == old(e)@ && final(out)@ == old(out)@,
        old(e)@.session matches Some(s) ==> {
            &&& r matches Some(info)
            &&& final(e)@.epoch_counter == old(e)@.epoch_counter
            &&& final(e)@.session matches Some(t)
            &&& t.id == s.id && t.peer == s.peer && t.last_packet == s.last_packet && t.epoch
                == s.epoch
            &&& jitter::pulled(
                s.jb,
                s.dec,
                old(out)@.len() as int,
                final(out)@,
                info.silence_samples as int,
                t.jb,
                t.dec,
            )
        },
{
}

/// There is room where the buffer of the session has room, and always without a session.
pub proof fn lemma_engine_room<A: Copy, S: Copy + Default, D>(
    e: &Engine<A, S, D>,
    n: usize,
    r: bool,
)
    requires
        call_ensures(Engine::<A, S, D>::has_room, (e, n), r),
    ensures
        e@.session is None ==> r,
        e@.session matches Some(s) ==> (r <==> {
            &&& s.jb.seq_in_range()
            &&& s.jb.stats.pushed < u64::MAX
            &&& s.jb.stats.pulled_samples + n <= u64::MAX
        }),
{
}

/// A new engine has no session.
pub proof fn lemma_new_engine<A, S, D>(e: Engine<A, S, D>)
    requires
        call_ensures(<Engine<A, S, D> as Default>::default, (), e),
    ensures
        e@.session is None,
        e@.epoch_counter == 0,
{
}

} // verus!
