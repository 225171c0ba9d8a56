//! The test sender: a client that sends a tone over a simulated bad network.
//!
//! Each frame is made when it is due; then it is lost, or it waits for a delay of its own before
//! it goes out, which puts frames out of order. Times are nanoseconds since the sender started.

use crate::engine::{EngineView, OutcomeView};
use crate::protocol;
use crate::protocol::{parse, Codec, Hello, Packet, PacketView};
use crate::protocol_laws;
use crate::text::same_text;
use vstd::prelude::*;

verus! {

/// A session is asked for this many times.
pub const HELLO_ATTEMPTS: u32 = 10;

/// How long each answer is waited for (milliseconds).
pub const HELLO_TIMEOUT_MS: u64 = 300;

/// Heartbeats are this far apart (nanoseconds).
pub const HEARTBEAT_NS: u64 = 500_000_000;

/// A farewell is said this many times.
pub const BYE_COUNT: u32 = 3;

/// The codec of this name, if there is one.
pub fn codec_by_name(name: &str) -> (r: Option<Codec>)
    ensures
        r == if name@ == "opus"@ {
            Some(Codec::Opus)
        } else if name@ == "pcm"@ {
            Some(Codec::Pcm16)
        } else {
            None
        },
{
    if same_text(name, "opus") {
        Some(Codec::Opus)
    } else if same_text(name, "pcm") {
        Some(Codec::Pcm16)
    } else {
        None
    }
}

/// The session that the sender asks for.
pub open spec fn asked(session: u32, codec: Codec) -> Hello {
    Hello {
        session,
        sample_rate: protocol::SAMPLE_RATE,
        channels: 1,
        codec,
        frame_ms: match codec {
            Codec::Pcm16 => 10,
            Codec::Opus => 20,
        },
    }
}

/// A request for a session with frames of this codec.
pub fn request(session: u32, codec: Codec) -> (r: Hello)
    ensures
        r == asked(session, codec),
{
    assert(480usize * 1000 / 48000 == 10 && 960usize * 1000 / 48000 == 20);
    Hello {
        session,
        sample_rate: protocol::SAMPLE_RATE,
        channels: 1,
        codec,
        frame_ms: (codec.frame_samples() * 1000 / protocol::SAMPLE_RATE as usize) as u8,
    }
}

/// Asking for a session: the request is repeated until it is acknowledged, but not for ever.
#[derive(Debug, Clone, Copy)]
pub struct Handshake {
    session: u32,
    failed: u32,
}

/// What to do after an answer was waited for.
#[derive(Debug, Clone, Copy, PartialEq, Eq, Structural)]
pub enum HandshakeStep {
    /// The session is open.
    Connected,
    /// Ask again.
    AskAgain,
    /// Give up: nobody answers.
    GiveUp,
}

impl Handshake {
    /// The session that is asked for.
    pub closed spec fn session(self) -> u32 {
        self.session
    }

    /// How often no acknowledgement came.
    pub closed spec fn failures(self) -> int {
        self.failed as int
    }

    /// Nothing was asked yet.
    pub fn new(session: u32) -> (r: Self)
        ensures
            r.session() == session,
            r.failures() == 0,
    {
        Handshake { session, failed: 0 }
    }

    /// Takes in what came after the request, `None` where nothing came in time.
    pub fn answer(&mut self, reply: Option<&[u8]>) -> (r: HandshakeStep)
        requires
            old(self).failures() < HELLO_ATTEMPTS,
        ensures
            final(self).session() == old(self).session(),
            acknowledged(old(self).session(), reply) ==> r == HandshakeStep::Connected
                && final(self).failures() == old(self).failures(),
            !acknowledged(old(self).session(), reply) ==> final(self).failures() == old(
                self,
            ).failures() + 1 && r == (if old(self).failures() + 1 == HELLO_ATTEMPTS {
                HandshakeStep::GiveUp
            } else {
                HandshakeStep::AskAgain
            }),
    {
        let acked: bool = match reply {
            Some(buf) => match parse(buf) {
                Some(Packet::HelloAck { session }) => session == self.session,
                _ => false,
            },
            None => false,
        };
        if acked {
            HandshakeStep::Connected
        } else {
            self.failed = self.failed + 1;
            if self.failed == HELLO_ATTEMPTS {
                HandshakeStep::GiveUp
            } else {
                HandshakeStep::AskAgain
            }
        }
    }
}

/// The answer acknowledges the session.
pub open spec fn acknowledged(session: u32, reply: Option<&[u8]>) -> bool {
    reply matches Some(buf) && protocol::parse_spec(buf@) == Some(PacketView::HelloAck { session })
}

/// The time in the acknowledgement of a heartbeat of this session; `None` for anything else.
pub fn heartbeat_ack_time(buf: &[u8], session: u32) -> (r: Option<u32>)
    ensures
        r == match protocol::parse_spec(buf@) {
            Some(PacketView::HeartbeatAck { session: s, time_ms }) => if s == session {
                Some(time_ms)
            } else {
                None
            },
            _ => None,
        },
{
    match parse(buf) {
        Some(Packet::HeartbeatAck { session: s, time_ms }) => if s == session {
            Some(time_ms)
        } else {
            None
        },
        _ => None,
    }
}

/// A packet that waits for its time.
struct Queued {
    when: u64,
    pkt: Vec<u8>,
}

/// Packets in the order in which they go out: by time, and where the time is the same in the
/// order in which they came.
pub struct SendQueue {
    items: Vec<Queued>,
}

impl View for SendQueue {
    type V = Seq<(u64, Seq<u8>)>;

    closed spec fn view(&self) -> Seq<(u64, Seq<u8>)> {
        self.items@.map_values(|q: Queued| (q.when, q.pkt@))
    }
}

/// The packets are in the order of their times.
pub open spec fn in_order(q: Seq<(u64, Seq<u8>)>) -> bool {
    forall|i: int, j: int| 0 <= i <= j < q.len() ==> (#[trigger] q[i]).0 <= (#[trigger] q[j]).0
}

/// Where a packet for the time `when` goes: behind all that go out at that time or before.
pub open spec fn place(q: Seq<(u64, Seq<u8>)>, when: u64) -> int
    decreases q.len(),
{
    if q.len() == 0 || q.last().0 <= when {
        q.len() as int
    } else {
        place(q.drop_last(), when)
    }
}

/// The place lies within the queue.
proof fn lemma_place(q: Seq<(u64, Seq<u8>)>, when: u64)
    ensures
        0 <= place(q, when) <= q.len(),
        place(q, when) > 0 ==> q[place(q, when) - 1].0 <= when,
        forall|i: int| place(q, when) <= i < q.len() ==> (#[trigger] q[i]).0 > when,
    decreases q.len(),
{
    if q.len() > 0 && q.last().0 > when {
        lemma_place(q.drop_last(), when);
        assert forall|i: int| place(q, when) <= i < q.len() implies (#[trigger] q[i]).0 > when by {
            if i < q.len() - 1 {
                assert(q.drop_last()[i] == q[i]);
            }
        }
    }
}

/// A packet put in its place leaves the order intact.
proof fn lemma_insert_in_order(q: Seq<(u64, Seq<u8>)>, entry: (u64, Seq<u8>))
    requires
        in_order(q),
    ensures
        in_order(q.insert(place(q, entry.0), entry)),
{
    let at = place(q, entry.0);
    lemma_place(q, entry.0);
    let r = q.insert(at, entry);
    assert forall|i: int, j: int| 0 <= i <= j < r.len() implies (#[trigger] r[i]).0 <= (
    #[trigger] r[j]).0 by {
        if j < at {
            assert(q[i].0 <= q[j].0);
        } else if j == at {
            if i < at {
                assert(q[i].0 <= q[at - 1].0);
            }
        } else if i < at {
            assert(q[i].0 <= q[j - 1].0);
        } else if i == at {
            assert(q[j - 1].0 > entry.0);
        } else {
            assert(q[i - 1].0 <= q[j - 1].0);
        }
    }
}

impl SendQueue {
    /// An empty queue.
    pub fn new() -> (r: Self)
        ensures
            r@ == Seq::<(u64, Seq<u8>)>::empty(),
    {
        let r = SendQueue { items: Vec::new() };
        assert(r@ =~= Seq::empty());
        r
    }

    /// How many packets wait.
    pub fn len(&self) -> (r: usize)
        ensures
            r == self@.len(),
    {
        self.items.len()
    }

    /// Whether none waits.
    pub fn is_empty(&self) -> (r: bool)
        ensures
            r == (self@.len() == 0),
    {
        self.items.len() == 0
    }

    /// Adds a packet that is to go out at the time `when`.
    pub fn push(&mut self, when: u64, pkt: Vec<u8>)
        requires
            in_order(old(self)@),
        ensures
            final(self)@ == old(self)@.insert(place(old(self)@, when), (when, pkt@)),
            in_order(final(self)@),
    {
        let ghost q = self@;
        let ghost entry = (when, pkt@);
        let mut at: usize = self.items.len();
        assert(q.take(at as int) =~= q);
        while at > 0 && self.items[at - 1].when > when
            invariant
                at <= self.items@.len(),
                self@ == q,
                place(q, when) == place(q.take(at as int), when),
            decreases at,
        {
            assert(q[at - 1] == (self.items@[at - 1].when, self.items@[at - 1].pkt@));
            assert(q.take(at as int).drop_last() =~= q.take(at - 1));
            at = at - 1;
        }
        proof {
            if at > 0 {
                assert(q[at - 1] == (self.items@[at - 1].when, self.items@[at - 1].pkt@));
            }
            assert(place(q, when) == at);
        }
        self.items.insert(at, Queued { when, pkt });
        assert(self@ =~= q.insert(at as int, entry));
        proof {
            lemma_insert_in_order(q, entry);
        }
    }

    /// Takes the first packet, if its time has come.
    pub fn pop_due(&mut self, now: u64) -> (r: Option<Vec<u8>>)
        ensures
            r is Some <==> old(self)@.len() > 0 && old(self)@[0].0 <= now,
            r matches Some(pkt) ==> pkt@ == old(self)@[0].1 && final(self)@ == old(self)@.skip(1),
            r is None ==> final(self)@ == old(self)@,
            in_order(old(self)@) ==> in_order(final(self)@),
    {
        let ghost q = self@;
        if self.items.len() > 0 && self.items[0].when <= now {
            assert(q[0] == (self.items@[0].when, self.items@[0].pkt@));
            let first: Queued = self.items.remove(0);
            assert(self@ =~= q.skip(1));
            assert(in_order(q) ==> in_order(q.skip(1))) by {
                if in_order(q) {
                    assert forall|i: int, j: int| 0 <= i <= j < q.skip(1).len() implies (
                    #[trigger] q.skip(1)[i]).0 <= (#[trigger] q.skip(1)[j]).0 by {
                        assert(q.skip(1)[i] == q[i + 1]);
                        assert(q.skip(1)[j] == q[j + 1]);
                    }
                }
            }
            Some(first.pkt)
        } else {
            proof {
                if self.items@.len() > 0 {
                    assert(q[0] == (self.items@[0].when, self.items@[0].pkt@));
                }
            }
            None
        }
    }
}

/// A run of the sender.
pub struct Sender {
    session: u32,
    frame_samples: u32,
    interval: u64,
    n_frames: u32,
    k: u32,
    sent: u64,
    dropped: u64,
    last_heartbeat: u64,
    queue: SendQueue,
}

/// What a run holds.
#[verifier::ext_equal]
pub struct SenderView {
    pub session: u32,
    /// Samples of a frame.
    pub frame_samples: u32,
    /// From one frame to the next (nanoseconds).
    pub interval: u64,
    /// How many frames are to be made.
    pub n_frames: u32,
    /// How many are made.
    pub k: u32,
    /// How many went out.
    pub sent: u64,
    /// How many were lost on purpose.
    pub dropped: u64,
    /// When the last heartbeat went out.
    pub last_heartbeat: u64,
    pub queue: Seq<(u64, Seq<u8>)>,
}

impl View for Sender {
    type V = SenderView;

    closed spec fn view(&self) -> SenderView {
        SenderView {
            session: self.session,
            frame_samples: self.frame_samples,
            interval: self.interval,
            n_frames: self.n_frames,
            k: self.k,
            sent: self.sent,
            dropped: self.dropped,
            last_heartbeat: self.last_heartbeat,
            queue: self.queue@,
        }
    }
}

impl SenderView {
    /// The invariant of a run: every frame that was made went out, was lost, or waits.
    pub open spec fn wf(self) -> bool {
        &&& self.k <= self.n_frames
        &&& self.sent + self.dropped + self.queue.len() == self.k
        &&& in_order(self.queue)
    }

    /// The next frame is due.
    pub open spec fn frame_due(self, now: u64) -> bool {
        self.k < self.n_frames && self.interval * self.k <= now
    }

    /// The packet of the next frame: frames are numbered from zero, and the time stamp counts
    /// the samples before the frame.
    pub open spec fn next_packet(self, payload: Seq<u8>) -> Seq<u8> {
        protocol::audio_bytes(
            self.session,
            self.k,
            (self.k * self.frame_samples % 0x1_0000_0000) as u32,
            payload,
        )
    }

    /// The run after the next frame was lost.
    pub open spec fn frame_lost(self) -> Self {
        SenderView { k: (self.k + 1) as u32, dropped: (self.dropped + 1) as u64, ..self }
    }

    /// The run after the next frame was queued for the time `when`.
    pub open spec fn frame_queued(self, payload: Seq<u8>, when: u64) -> Self {
        SenderView {
            k: (self.k + 1) as u32,
            queue: self.queue.insert(
                place(self.queue, when),
                (when, self.next_packet(payload)),
            ),
            ..self
        }
    }

    /// All frames are made and none waits.
    pub open spec fn finished(self) -> bool {
        self.k == self.n_frames && self.queue.len() == 0
    }
}

impl Sender {
    /// A run of `n_frames` frames that are `interval` nanoseconds apart.
    pub fn new(session: u32, frame_samples: u32, interval: u64, n_frames: u32) -> (r: Self)
        ensures
            r@ == (SenderView {
                session,
                frame_samples,
                interval,
                n_frames,
                k: 0,
                sent: 0,
                dropped: 0,
                last_heartbeat: 0,
                queue: Seq::empty(),
            }),
            r@.wf(),
    {
        Sender {
            session,
            frame_samples,
            interval,
            n_frames,
            k: 0,
            sent: 0,
            dropped: 0,
            last_heartbeat: 0,
            queue: SendQueue::new(),
        }
    }

    /// Whether the next frame is to be made now.
    pub fn frame_due(&self, now: u64) -> (r: bool)
        ensures
            r == self@.frame_due(now),
    {
        proof {
            let a = self.interval;
            let b = self.k;
            assert(a * b <= 0xffff_ffff_ffff_ffff * 0xffff_ffff) by (nonlinear_arith)
                requires
                    a <= 0xffff_ffff_ffff_ffff,
                    b <= 0xffff_ffff,
            ;
        }
        let start: u128 = self.interval as u128 * self.k as u128;
        self.k < self.n_frames && start <= now as u128
    }

    /// Loses the next frame.
    pub fn lose_frame(&mut self)
        requires
            old(self)@.wf(),
            old(self)@.k < old(self)@.n_frames,
        ensures
            final(self)@ == old(self)@.frame_lost(),
            final(self)@.wf(),
    {
        self.k = self.k + 1;
        self.dropped = self.dropped + 1;
    }

    /// Queues the next frame; it goes out after the delay.
    pub fn queue_frame(&mut self, payload: &[u8], now: u64, delay: u64)
        requires
            old(self)@.wf(),
            old(self)@.k < old(self)@.n_frames,
            now + delay <= u64::MAX,
        ensures
            final(self)@ == old(self)@.frame_queued(payload@, (now + delay) as u64),
            final(self)@.wf(),
    {
        let ghost q = self@.queue;
        let timestamp: u32 = self.k.wrapping_mul(self.frame_samples);
        let pkt: Vec<u8> = protocol::build_audio(self.session, self.k, timestamp, payload);
        proof {
            lemma_place(q, (now + delay) as u64);
        }
        self.queue.push(now + delay, pkt);
        self.k = self.k + 1;
    }

    /// The heartbeat to send now, if one is due.
    pub fn heartbeat(&mut self, now: u64) -> (r: Option<Vec<u8>>)
        ensures
            r is Some <==> now - old(self)@.last_heartbeat >= HEARTBEAT_NS,
            r matches Some(pkt) ==> pkt@ == protocol::timed_bytes(
                6,
                old(self)@.session,
                (now / 1_000_000 % 0x1_0000_0000) as u32,
            ) && final(self)@ == (SenderView { last_heartbeat: now, ..old(self)@ }),
            r is None ==> final(self)@ == old(self)@,
            old(self)@.wf() ==> final(self)@.wf(),
    {
        if now >= self.last_heartbeat && now - self.last_heartbeat >= HEARTBEAT_NS {
            self.last_heartbeat = now;
            let ms: u32 = (now / 1_000_000 % 0x1_0000_0000) as u32;
            Some(protocol::build_heartbeat(self.session, ms))
        } else {
            None
        }
    }

    /// The packet to send now, if one is due.
    pub fn pop_due(&mut self, now: u64) -> (r: Option<Vec<u8>>)
        requires
            old(self)@.wf(),
        ensures
            r is Some <==> old(self)@.queue.len() > 0 && old(self)@.queue[0].0 <= now,
            r matches Some(pkt) ==> pkt@ == old(self)@.queue[0].1 && final(self)@ == (SenderView {
                sent: (old(self)@.sent + 1) as u64,
                queue: old(self)@.queue.skip(1),
                ..old(self)@
            }),
            r is None ==> final(self)@ == old(self)@,
            final(self)@.wf(),
    {
        match self.queue.pop_due(now) {
            Some(pkt) => {
                self.sent = self.sent + 1;
                Some(pkt)
            },
            None => None,
        }
    }

    /// Whether all frames are made and none waits.
    pub fn finished(&self) -> (r: bool)
        requires
            self@.wf(),
        ensures
            r == self@.finished(),
    {
        self.k >= self.n_frames && self.queue.is_empty()
    }

    /// How many packets went out.
    pub fn sent(&self) -> (r: u64)
        ensures
            r == self@.sent,
    {
        self.sent
    }

    /// How many frames were lost on purpose.
    pub fn dropped(&self) -> (r: u64)
        ensures
            r == self@.dropped,
    {
        self.dropped
    }
}

/// In the end every frame went out or was lost.
pub proof fn lemma_all_frames_accounted_for(v: SenderView)
    requires
        v.wf(),
        v.finished(),
    ensures
        v.sent + v.dropped == v.n_frames,
{
}

/// The packet that goes out first is never later than any that stays.
pub proof fn lemma_earliest_goes_first(q: Seq<(u64, Seq<u8>)>, i: int)
    requires
        in_order(q),
        0 <= i < q.len(),
    ensures
        q[0].0 <= q[i].0,
{
}

/// A packet goes behind all that go out at its time or before, and before all later ones; the
/// others keep their order.
pub proof fn lemma_queue_is_fair(q: Seq<(u64, Seq<u8>)>, when: u64, pkt: Seq<u8>)
    requires
        in_order(q),
    ensures
        ({
            let at = place(q, when);
            let r = q.insert(at, (when, pkt));
            &&& 0 <= at <= q.len()
            &&& in_order(r)
            &&& r[at] == (when, pkt)
            &&& r.remove(at) == q
            &&& forall|i: int| 0 <= i < at ==> (#[trigger] r[i]).0 <= when
            &&& forall|i: int| at < i < r.len() ==> (#[trigger] r[i]).0 > when
        }),
{
    let at = place(q, when);
    let r = q.insert(at, (when, pkt));
    lemma_place(q, when);
    lemma_insert_in_order(q, (when, pkt));
    assert(r.remove(at) =~= q);
    assert forall|i: int| 0 <= i < at implies (#[trigger] r[i]).0 <= when by {
        assert(r[i].0 <= r[at].0);
    }
    assert forall|i: int| at < i < r.len() implies (#[trigger] r[i]).0 > when by {
        assert(r[i] == q[i - 1]);
    }
}

/// Without jitter nothing is put out of order: a packet that goes out no earlier than the rest
/// goes to the end.
pub proof fn lemma_even_delay_keeps_order(q: Seq<(u64, Seq<u8>)>, when: u64, pkt: Seq<u8>)
    requires
        forall|i: int| 0 <= i < q.len() ==> (#[trigger] q[i]).0 <= when,
    ensures
        q.insert(place(q, when), (when, pkt)) == q.push((when, pkt)),
{
    assert(q.insert(q.len() as int, (when, pkt)) =~= q.push((when, pkt)));
}

/// What the sender asks for the engine grants.
pub proof fn lemma_request_granted<A, S, D>(
    e: EngineView<A, S, D>,
    session: u32,
    codec: Codec,
    port: u16,
    name: Seq<char>,
    sounds: Seq<Seq<char>>,
)
    requires
        !e.knows(session),
    ensures
        e.outcome(PacketView::Hello(asked(session, codec)), port, name, sounds)
            == OutcomeView::NewSession(asked(session, codec)),
{
}

/// The engine's acknowledgement ends the asking.
pub proof fn lemma_acknowledgement_understood(session: u32, reply: &[u8])
    requires
        reply@ == protocol::session_bytes(4, session),
    ensures
        acknowledged(session, Some(reply)),
{
    protocol_laws::lemma_session_roundtrip(session);
}

/// A frame arrives with its number, its time stamp and its payload.
pub proof fn lemma_frame_understood(v: SenderView, payload: Seq<u8>)
    ensures
        protocol::parse_spec(v.next_packet(payload)) == Some(
            PacketView::Audio {
                session: v.session,
                seq: v.k,
                timestamp: (v.k * v.frame_samples % 0x1_0000_0000) as u32,
                payload,
            },
        ),
{
    protocol_laws::lemma_audio_roundtrip(
        v.session,
        v.k,
        (v.k * v.frame_samples % 0x1_0000_0000) as u32,
        payload,
    );
}

} // verus!
