//! What the test sender does, operation by operation.

use crate::protocol;
use crate::protocol::{Codec, Hello, PacketView};
use crate::protocol_laws;
use crate::sender;
use crate::sender::{Handshake, HandshakeStep, SendQueue, Sender, SenderView};
use vstd::prelude::*;

verus! {

/// Codecs go by their names.
pub proof fn lemma_codec_names(name: &str, r: Option<Codec>)
    requires
        call_ensures(sender::codec_by_name, (name,), r),
    ensures
        r == Some(Codec::Opus) <==> name@ == "opus"@,
        r == Some(Codec::Pcm16) <==> name@ == "pcm"@,
{
    reveal_strlit("opus");
    reveal_strlit("pcm");
    if "opus"@ == "pcm"@ {
        assert("opus"@.len() == "pcm"@.len());
    }
}

/// The sender asks for its own session, in the one format that is played, with frames of the
/// length that its codec has.
pub proof fn lemma_request(session: u32, codec: Codec, h: Hello, f: usize)
    requires
        call_ensures(sender::request, (session, codec), h),
        call_ensures(Codec::frame_samples, (codec,), f),
    ensures
        h.session == session,
        h.sample_rate == 48000,
        h.channels == 1,
        h.codec == codec,
        h.frame_ms * 48 == f,
{
}

/// Asking for a session ends with the acknowledgement of that session, or with the tenth failure.
pub proof fn lemma_asking(h: &mut Handshake, reply: Option<&[u8]>, r: HandshakeStep, session: u32, fresh: Handshake)
    requires
        old(h).failures() < 10,
        call_ensures(Handshake::answer, (h, reply), r),
        call_ensures(Handshake::new, (session,), fresh),
    ensures
        fresh.failures() == 0,
        fresh.session() == session,
        final(h).session() == old(h).session(),
        ({
            let acked = reply matches Some(b) && protocol::parse_spec(b@) == Some(
                PacketView::HelloAck { session: old(h).session() },
            );
            &&& r == HandshakeStep::Connected <==> acked
            &&& r == HandshakeStep::GiveUp <==> !acked && old(h).failures() == 9
            &&& final(h).failures() == old(h).failures() + if acked {
                0int
            } else {
                1int
            }
        }),
{
}

/// The time of an acknowledged heartbeat of the own session is told, and nothing else.
pub proof fn lemma_beat_acknowledged(buf: &[u8], session: u32, r: Option<u32>, time_ms: u32)
    requires
        call_ensures(sender::heartbeat_ack_time, (buf, session), r),
    ensures
        r == Some(time_ms) <==> protocol::parse_spec(buf@) == Some(
            PacketView::HeartbeatAck { session, time_ms },
        ),
{
}

/// Waiting packets are in the order of their times: a new one goes behind all that go out no
/// later, and before all that go out later; the others stay as they are.
pub proof fn lemma_waiting(q: &mut SendQueue, when: u64, pkt: Vec<u8>)
    requires
        sender::in_order(old(q)@),
        call_ensures(SendQueue::push, (q, when, pkt), ()),
    ensures
        exists|at: int|
            {
                &&& 0 <= at < final(q)@.len()
                &&& #[trigger] final(q)@[at] == (when, pkt@)
                &&& final(q)@.remove(at) == old(q)@
                &&& forall|i: int| 0 <= i < at ==> (#[trigger] final(q)@[i]).0 <= when
                &&& forall|i: int| at < i < final(q)@.len() ==> (#[trigger] final(q)@[i]).0 > when
            },
{
    sender::lemma_queue_is_fair(old(q)@, when, pkt@);
    let at = sender::place(old(q)@, when);
    assert(final(q)@[at] == (when, pkt@));
}

/// The first packet goes out as soon as its time has come, and no other before it.
pub proof fn lemma_going_out(q: &mut SendQueue, now: u64, r: Option<Vec<u8>>)
    requires
        call_ensures(SendQueue::pop_due, (q, now), r),
    ensures
        r is Some <==> old(q)@.len() > 0 && old(q)@[0].0 <= now,
        r matches Some(pkt) ==> pkt@ == old(q)@[0].1 && final(q)@ == old(q)@.drop_first(),
        r is None ==> final(q)@ == old(q)@,
{
    if r is Some {
        assert(final(q)@ =~= old(q)@.drop_first());
    }
}

/// How many packets wait.
pub proof fn lemma_queue_length(q: &SendQueue, n: usize, none: bool, fresh: SendQueue)
    requires
        call_ensures(SendQueue::len, (q,), n),
        call_ensures(SendQueue::is_empty, (q,), none),
        call_ensures(SendQueue::new, (), fresh),
    ensures
        n == q@.len(),
        none <==> q@.len() == 0,
        fresh@.len() == 0,
{
}

/// A new run has made nothing.
pub proof fn lemma_new_run(session: u32, frame_samples: u32, interval: u64, n_frames: u32, r: Sender)
    requires
        call_ensures(Sender::new, (session, frame_samples, interval, n_frames), r),
    ensures
        r@.session == session,
        r@.frame_samples == frame_samples,
        r@.interval == interval,
        r@.n_frames == n_frames,
        r@.k == 0 && r@.sent == 0 && r@.dropped == 0,
        r@.queue.len() == 0,
        r@.last_heartbeat == 0,
{
}

/// The frame `k` is due from `k` intervals on, and not once all frames are made.
pub proof fn lemma_due(s: &Sender, now: u64, r: bool)
    requires
        call_ensures(Sender::frame_due, (s, now), r),
    ensures
        r <==> s@.k < s@.n_frames && now >= s@.k * s@.interval,
{
    let a = s@.k as int;
    let b = s@.interval as int;
    assert(a * b == b * a) by (nonlinear_arith);
}

/// A frame that is lost counts as lost and goes nowhere.
pub proof fn lemma_lost(s: &mut Sender)
    requires
        old(s)@.wf(),
        old(s)@.k < old(s)@.n_frames,
        call_ensures(Sender::lose_frame, (s,), ()),
    ensures
        final(s)@.k == old(s)@.k + 1,
        final(s)@.dropped == old(s)@.dropped + 1,
        final(s)@.sent == old(s)@.sent,
        final(s)@.queue == old(s)@.queue,
        final(s)@.session == old(s)@.session && final(s)@.frame_samples == old(s)@.frame_samples,
        final(s)@.interval == old(s)@.interval && final(s)@.n_frames == old(s)@.n_frames,
        final(s)@.last_heartbeat == old(s)@.last_heartbeat,
{
}

/// A frame that is not lost waits as an audio packet of the session, under its number, with the
/// samples before it as its time stamp, until its delay is over.
pub proof fn lemma_queued(s: &mut Sender, payload: &[u8], now: u64, delay: u64)
    requires
        old(s)@.wf(),
        old(s)@.k < old(s)@.n_frames,
        now + delay <= u64::MAX,
        call_ensures(Sender::queue_frame, (s, payload, now, delay), ()),
    ensures
        final(s)@.k == old(s)@.k + 1,
        final(s)@.dropped == old(s)@.dropped,
        final(s)@.sent == old(s)@.sent,
        final(s)@.session == old(s)@.session && final(s)@.frame_samples == old(s)@.frame_samples,
        final(s)@.interval == old(s)@.interval && final(s)@.n_frames == old(s)@.n_frames,
        final(s)@.last_heartbeat == old(s)@.last_heartbeat,
        exists|at: int|
            {
                &&& 0 <= at < final(s)@.queue.len()
                &&& final(s)@.queue.remove(at) == old(s)@.queue
                &&& (#[trigger] final(s)@.queue[at]).0 == now + delay
                &&& protocol::parse_spec(final(s)@.queue[at].1) == Some(
                    PacketView::Audio {
                        session: old(s)@.session,
                        seq: old(s)@.k,
                        timestamp: (old(s)@.k * old(s)@.frame_samples % 0x1_0000_0000) as u32,
                        payload: payload@,
                    },
                )
                &&& forall|i: int|
                    0 <= i < at ==> (#[trigger] final(s)@.queue[i]).0 <= now + delay
                &&& forall|i: int|
                    at < i < final(s)@.queue.len() ==> (#[trigger] final(s)@.queue[i]).0 > now
                        + delay
            },
{
    let when = (now + delay) as u64;
    let pkt = old(s)@.next_packet(payload@);
    sender::lemma_queue_is_fair(old(s)@.queue, when, pkt);
    sender::lemma_frame_understood(old(s)@, payload@);
    let at = sender::place(old(s)@.queue, when);
    assert(final(s)@.queue[at] == (when, pkt));
}

/// A heartbeat goes out exactly when half a second is over since the last one, with the time in
/// milliseconds.
pub proof fn lemma_beats(s: &mut Sender, now: u64, r: Option<Vec<u8>>)
    requires
        call_ensures(Sender::heartbeat, (s, now), r),
    ensures
        r is Some <==> now >= old(s)@.last_heartbeat + 500_000_000,
        r is None ==> final(s)@ == old(s)@,
        r matches Some(b) ==> {
            &&& protocol::parse_spec(b@) == Some(
                PacketView::Heartbeat {
                    session: old(s)@.session,
                    time_ms: (now / 1_000_000 % 0x1_0000_0000) as u32,
                },
            )
            &&& final(s)@ == (SenderView { last_heartbeat: now, ..old(s)@ })
        },
{
    protocol_laws::lemma_heartbeat_roundtrip(
        old(s)@.session,
        (now / 1_000_000 % 0x1_0000_0000) as u32,
    );
}

/// Packets that are due go out first to last, and are counted.
pub proof fn lemma_sent(s: &mut Sender, now: u64, r: Option<Vec<u8>>)
    requires
        old(s)@.wf(),
        call_ensures(Sender::pop_due, (s, now), r),
    ensures
        r is Some <==> old(s)@.queue.len() > 0 && old(s)@.queue[0].0 <= now,
        r is None ==> final(s)@ == old(s)@,
        r matches Some(b) ==> {
            &&& b@ == old(s)@.queue[0].1
            &&& final(s)@.queue == old(s)@.queue.drop_first()
            &&& final(s)@.sent == old(s)@.sent + 1
            &&& final(s)@ == (SenderView {
                sent: final(s)@.sent,
                queue: final(s)@.queue,
                ..old(s)@
            })
        },
{
    if r is Some {
        assert(final(s)@.queue =~= old(s)@.queue.drop_first());
    }
}

/// The run is over exactly when all frames are made and none waits; what it counted is told.
pub proof fn lemma_run_over(s: &Sender, over: bool, sent: u64, dropped: u64)
    requires
        s@.wf(),
        call_ensures(Sender::finished, (s,), over),
        call_ensures(Sender::sent, (s,), sent),
        call_ensures(Sender::dropped, (s,), dropped),
    ensures
        over <==> s@.k == s@.n_frames && s@.queue.len() == 0,
        sent == s@.sent,
        dropped == s@.dropped,
        over ==> sent + dropped == s@.n_frames,
{
}

} // verus!
