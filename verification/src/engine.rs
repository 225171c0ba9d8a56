//! The receiver's engine: one client's session, and what each packet does to it.
//!
//! The engine decides; sending replies, opening decoders and reading the clock are up to its
//! user. Times are nanoseconds of a clock that never runs backwards.

pub use crate::event_log::EventLog;
pub use crate::host::default_name;
use crate::jitter;
use crate::jitter::{FrameDecoder, JitterBuffer, JitterConfig, JitterStats, JitterView};
use crate::jitter::{PullInfo, State};
use crate::jitter_laws;
use crate::protocol;
use crate::protocol::{Hello, Packet, PacketView};
use vstd::prelude::*;
use vstd::slice::slice_to_vec;

verus! {

/// A session from which nothing came for longer than this is closed (nanoseconds).
pub const SESSION_TIMEOUT_NS: u64 = 5_000_000_000;

/// The servo never asks for more than this (parts per million).
pub const MAX_SERVO_PPM: i64 = 3000;

/// How much one millisecond too much in the buffer speeds playback up (parts per million).
pub const SERVO_PPM_PER_MS: i64 = 100;

/// A client's session. `A` is the type of addresses, `D` the type of decoders.
pub struct Session<A, S, D> {
    pub id: u32,
    pub peer: A,
    pub jb: JitterBuffer<S>,
    pub dec: D,
    pub last_packet: u64,
    pub epoch: u64,
}

/// The engine: at most one session at a time.
pub struct Engine<A, S, D> {
    pub session: Option<Session<A, S, D>>,
    pub epoch_counter: u64,
}

/// What a session holds.
#[verifier::ext_equal]
pub struct SessionView<A, S, D> {
    pub id: u32,
    pub peer: A,
    pub jb: JitterView<S>,
    pub dec: D,
    pub last_packet: u64,
    pub epoch: u64,
}

/// What an engine holds.
#[verifier::ext_equal]
pub struct EngineView<A, S, D> {
    pub session: Option<SessionView<A, S, D>>,
    pub epoch_counter: u64,
}

/// What is to be done about a packet.
pub enum Outcome {
    /// Nothing.
    Ignored,
    /// Send this back: someone looks for receivers.
    Announce(Vec<u8>),
    /// Send this back.
    Reply(Vec<u8>),
    /// A client wants a session in a format that is not played.
    Unsupported { sample_rate: u32, channels: u8 },
    /// A client wants a new session: make a decoder and open it.
    NewSession(Hello),
    /// The audio was stored.
    Stored,
    /// The client left.
    Left,
    /// Play the sound of this number.
    PlaySound(u8),
    /// Stop all sounds.
    StopSounds,
}

/// What an outcome says.
pub enum OutcomeView {
    Ignored,
    Announce(Seq<u8>),
    Reply(Seq<u8>),
    Unsupported { sample_rate: u32, channels: u8 },
    NewSession(Hello),
    Stored,
    Left,
    PlaySound(u8),
    StopSounds,
}

/// The state of a session, for display.
#[derive(Debug, Clone, Copy)]
pub struct Snapshot<A> {
    pub peer: A,
    pub playing: bool,
    pub fill_ms: u32,
    pub target_ms: u32,
    pub stats: JitterStats,
}

/// What the supervisor found.
#[derive(Debug, Clone, Copy, PartialEq, Eq, Structural)]
pub enum Supervision {
    /// There is no session.
    Idle,
    /// The session was silent for too long and is closed now.
    TimedOut,
    /// The session plays; the servo should tend to this speed.
    Playing { servo_ppm: i64 },
    /// The session fills its buffer.
    Buffering,
}

/// What a consumer of samples has to do before it pulls.
#[derive(Debug, Clone, Copy, PartialEq, Eq, Structural)]
pub enum PullStart {
    /// There is no session: play silence.
    NoSession,
    /// The session is another one than the consumer saw last: start afresh.
    Restarted,
    /// The session is the one that the consumer saw last.
    Continuing,
}

/// The speed that a buffer of `fill` ms calls for when `target` ms are wanted: faster while it
/// is too full, slower while it is too empty.
pub open spec fn servo_ppm(fill: int, target: int) -> int {
    let raw = (fill - target) * SERVO_PPM_PER_MS;
    if raw > MAX_SERVO_PPM {
        MAX_SERVO_PPM as int
    } else if raw < -MAX_SERVO_PPM {
        -MAX_SERVO_PPM
    } else {
        raw
    }
}

impl<A, S, D> View for Session<A, S, D> {
    type V = SessionView<A, S, D>;

    open spec fn view(&self) -> SessionView<A, S, D> {
        SessionView {
            id: self.id,
            peer: self.peer,
            jb: self.jb@,
            dec: self.dec,
            last_packet: self.last_packet,
            epoch: self.epoch,
        }
    }
}

impl<A, S, D> View for Engine<A, S, D> {
    type V = EngineView<A, S, D>;

    open spec fn view(&self) -> EngineView<A, S, D> {
        EngineView {
            session: match self.session {
                Some(s) => Some(s@),
                None => None,
            },
            epoch_counter: self.epoch_counter,
        }
    }
}

impl View for Outcome {
    type V = OutcomeView;

    open spec fn view(&self) -> OutcomeView {
        match *self {
            Outcome::Ignored => OutcomeView::Ignored,
            Outcome::Announce(b) => OutcomeView::Announce(b@),
            Outcome::Reply(b) => OutcomeView::Reply(b@),
            Outcome::Unsupported { sample_rate, channels } => OutcomeView::Unsupported {
                sample_rate,
                channels,
            },
            Outcome::NewSession(h) => OutcomeView::NewSession(h),
            Outcome::Stored => OutcomeView::Stored,
            Outcome::Left => OutcomeView::Left,
            Outcome::PlaySound(id) => OutcomeView::PlaySound(id),
            Outcome::StopSounds => OutcomeView::StopSounds,
        }
    }
}

/// Only this format is played.
pub open spec fn supported(h: Hello) -> bool {
    h.sample_rate == protocol::SAMPLE_RATE && h.channels == 1
}

impl<A, S, D> SessionView<A, S, D> {
    /// How full the buffer is, in milliseconds.
    pub open spec fn fill_ms(self) -> u32 {
        (self.jb.fill() * 1000 / self.jb.cfg.sample_rate as int) as u32
    }
}

impl<A, S, D> EngineView<A, S, D> {
    /// The invariant of an engine.
    pub open spec fn wf(self) -> bool {
        self.session matches Some(s) ==> {
            &&& s.jb.wf()
            &&& s.jb.cfg.sample_rate > 0
            &&& s.epoch <= self.epoch_counter
        }
    }

    /// There is a session, and this is its number.
    pub open spec fn knows(self, session: u32) -> bool {
        self.session matches Some(s) && s.id == session
    }

    /// Another packet can be stored, and `n` samples can be pulled.
    pub open spec fn has_room(self, n: int) -> bool {
        self.session matches Some(s) ==> {
            &&& s.jb.seq_in_range()
            &&& s.jb.stats.pushed < u64::MAX
            &&& s.jb.stats.pulled_samples + n <= u64::MAX
        }
    }

    /// The engine after a packet of its session that only shows that the client is there.
    pub open spec fn refreshed(self, now: u64) -> Self {
        EngineView {
            session: Some(SessionView { last_packet: now, ..self.session.unwrap() }),
            ..self
        }
    }

    /// The engine after the packet `pkt`, which came from `src` at the time `now`.
    pub open spec fn after(self, pkt: PacketView, src: A, now: u64) -> Self {
        match pkt {
            PacketView::Audio { session, seq, timestamp, payload } => if self.knows(session) {
                let s = self.session.unwrap();
                EngineView {
                    session: Some(
                        SessionView {
                            peer: src,
                            jb: s.jb.pushed(seq, payload),
                            last_packet: now,
                            ..s
                        },
                    ),
                    ..self
                }
            } else {
                self
            },
            PacketView::Heartbeat { session, time_ms } => if self.knows(session) {
                self.refreshed(now)
            } else {
                self
            },
            PacketView::Bye { session } => if self.knows(session) {
                EngineView { session: None, ..self }
            } else {
                self
            },
            PacketView::SoundListReq { session } => if self.knows(session) {
                self.refreshed(now)
            } else {
                self
            },
            PacketView::SoundPlay { session, id } => if self.knows(session) {
                self.refreshed(now)
            } else {
                self
            },
            PacketView::SoundStop { session } => if self.knows(session) {
                self.refreshed(now)
            } else {
                self
            },
            _ => self,
        }
    }

    /// What is to be done about the packet `pkt` by a receiver that listens on `port`, goes by
    /// the name `name` and offers the sounds `sounds`.
    pub open spec fn outcome(
        self,
        pkt: PacketView,
        port: u16,
        name: Seq<char>,
        sounds: Seq<Seq<char>>,
    ) -> OutcomeView {
        match pkt {
            PacketView::Discover { nonce } => OutcomeView::Announce(
                protocol::discover_reply_bytes(nonce, port, name),
            ),
            PacketView::Hello(h) => if self.knows(h.session) {
                OutcomeView::Reply(protocol::session_bytes(4, h.session))
            } else if !supported(h) {
                OutcomeView::Unsupported { sample_rate: h.sample_rate, channels: h.channels }
            } else {
                OutcomeView::NewSession(h)
            },
            PacketView::Audio { session, seq, timestamp, payload } => if self.knows(session) {
                OutcomeView::Stored
            } else {
                OutcomeView::Ignored
            },
            PacketView::Heartbeat { session, time_ms } => if self.knows(session) {
                OutcomeView::Reply(protocol::timed_bytes(7, session, time_ms))
            } else {
                OutcomeView::Ignored
            },
            PacketView::Bye { session } => if self.knows(session) {
                OutcomeView::Left
            } else {
                OutcomeView::Ignored
            },
            PacketView::SoundListReq { session } => if self.knows(session) {
                OutcomeView::Reply(protocol::sound_list_bytes(sounds))
            } else {
                OutcomeView::Ignored
            },
            PacketView::SoundPlay { session, id } => if self.knows(session) {
                OutcomeView::PlaySound(id)
            } else {
                OutcomeView::Ignored
            },
            PacketView::SoundStop { session } => if self.knows(session) {
                OutcomeView::StopSounds
            } else {
                OutcomeView::Ignored
            },
            _ => OutcomeView::Ignored,
        }
    }

    /// The engine after the session that `h` asks for is opened, whatever it held before.
    pub open spec fn opened(
        self,
        h: Hello,
        src: A,
        dec: D,
        now: u64,
        target_ms: u32,
        silence: S,
    ) -> Self {
        let epoch = (self.epoch_counter + 1) as u64;
        EngineView {
            session: Some(
                SessionView {
                    id: h.session,
                    peer: src,
                    jb: JitterView::initial(
                        JitterConfig::standard(h.codec.samples_per_frame(), target_ms),
                        silence,
                    ),
                    dec,
                    last_packet: now,
                    epoch,
                },
            ),
            epoch_counter: epoch,
        }
    }

    /// The session was silent for too long at the time `now`.
    pub open spec fn timed_out(self, now: u64) -> bool {
        self.session matches Some(s) && now - s.last_packet > SESSION_TIMEOUT_NS
    }

    /// The engine after the supervisor looked at it.
    pub open spec fn supervised(self, now: u64) -> Self {
        if self.timed_out(now) {
            EngineView { session: None, ..self }
        } else {
            self
        }
    }

    /// What the supervisor finds.
    pub open spec fn finding(self, now: u64) -> Supervision {
        match self.session {
            None => Supervision::Idle,
            Some(s) => if self.timed_out(now) {
                Supervision::TimedOut
            } else if s.jb.state == State::Playing {
                Supervision::Playing {
                    servo_ppm: servo_ppm(s.fill_ms() as int, s.jb.target_ms as int) as i64,
                }
            } else {
                Supervision::Buffering
            },
        }
    }
}

impl<A, S, D> Default for Engine<A, S, D> {
    /// An engine without a session.
    fn default() -> (r: Self)
        ensures
            r@ == (EngineView::<A, S, D> { session: None, epoch_counter: 0 }),
            r@.wf(),
    {
        Engine { session: None, epoch_counter: 0 }
    }
}

/// The speed that the servo should tend to.
pub fn servo_speed(fill_ms: u32, target_ms: u32) -> (r: i64)
    ensures
        r == servo_ppm(fill_ms as int, target_ms as int),
{
    let raw: i64 = (fill_ms as i64 - target_ms as i64) * SERVO_PPM_PER_MS;
    if raw > MAX_SERVO_PPM {
        MAX_SERVO_PPM
    } else if raw < -MAX_SERVO_PPM {
        -MAX_SERVO_PPM
    } else {
        raw
    }
}

impl<A: Copy, S: Copy + Default, D> Engine<A, S, D> {
    /// Whether there is a session of this number.
    pub fn knows(&self, session: u32) -> (r: bool)
        ensures
            r == self@.knows(session),
    {
        match &self.session {
            Some(s) => s.id == session,
            None => false,
        }
    }

    /// Whether another packet can be stored and `n` samples can be pulled. A session of any
    /// plausible length never runs out of room.
    pub fn has_room(&self, n: usize) -> (r: bool)
        ensures
            r == self@.has_room(n as int),
    {
        match &self.session {
            Some(s) => s.jb.has_room(n),
            None => true,
        }
    }

    /// Notes that the client is there.
    fn refresh(&mut self, now: u64)
        requires
            old(self).session is Some,
        ensures
            final(self)@ == old(self)@.refreshed(now),
    {
        match &mut self.session {
            Some(s) => {
                s.last_packet = now;
            },
            None => {},
        }
    }

    /// Takes in a packet. `port` and `name` are what the receiver announces, `sounds` are the
    /// names of the sounds that it offers.
    pub fn handle(
        &mut self,
        pkt: &Packet<'_>,
        src: A,
        now: u64,
        port: u16,
        name: &str,
        sounds: &Vec<String>,
    ) -> (r: Outcome)
        requires
            old(self)@.wf(),
            pkt@ matches PacketView::Audio { session, .. } && old(self)@.knows(session) ==> old(
                self,
            )@.has_room(0),
        ensures
            final(self)@ == old(self)@.after(pkt@, src, now),
            r@ == old(self)@.outcome(pkt@, port, name@, protocol::texts(sounds@)),
            final(self)@.wf(),
    {
        match pkt {
            Packet::Discover { nonce } => {
                Outcome::Announce(protocol::build_discover_reply(*nonce, port, name))
            },
            Packet::Hello(h) => {
                if self.knows(h.session) {
                    Outcome::Reply(protocol::build_hello_ack(h.session))
                } else if h.sample_rate != protocol::SAMPLE_RATE || h.channels != 1 {
                    Outcome::Unsupported { sample_rate: h.sample_rate, channels: h.channels }
                } else {
                    Outcome::NewSession(*h)
                }
            },
            Packet::Audio { session, seq, timestamp: _, payload } => {
                match &mut self.session {
                    Some(s) => {
                        if s.id == *session {
                            proof {
                                jitter::lemma_pushed_wf(s.jb@, *seq, payload@);
                            }
                            s.jb.push(*seq, slice_to_vec(payload));
                            s.last_packet = now;
                            s.peer = src;
                            Outcome::Stored
                        } else {
                            Outcome::Ignored
                        }
                    },
                    None => Outcome::Ignored,
                }
            },
            Packet::Heartbeat { session, time_ms } => {
                if self.knows(*session) {
                    self.refresh(now);
                    Outcome::Reply(protocol::build_heartbeat_ack(*session, *time_ms))
                } else {
                    Outcome::Ignored
                }
            },
            Packet::Bye { session } => {
                if self.knows(*session) {
                    self.session = None;
                    Outcome::Left
                } else {
                    Outcome::Ignored
                }
            },
            Packet::SoundListReq { session } => {
                if self.knows(*session) {
                    self.refresh(now);
                    Outcome::Reply(protocol::build_sound_list(sounds))
                } else {
                    Outcome::Ignored
                }
            },
            Packet::SoundPlay { session, id } => {
                if self.knows(*session) {
                    self.refresh(now);
                    Outcome::PlaySound(*id)
                } else {
                    Outcome::Ignored
                }
            },
            Packet::SoundStop { session } => {
                if self.knows(*session) {
                    self.refresh(now);
                    Outcome::StopSounds
                } else {
                    Outcome::Ignored
                }
            },
            Packet::DiscoverReply { .. } => Outcome::Ignored,
            Packet::HelloAck { .. } => Outcome::Ignored,
            Packet::HeartbeatAck { .. } => Outcome::Ignored,
            Packet::SoundList { .. } => Outcome::Ignored,
        }
    }

    /// Opens the session that `h` asks for, in place of any other. The acknowledgement that
    /// comes back is to be sent to the client.
    pub fn open_session(
        &mut self,
        h: &Hello,
        src: A,
        dec: D,
        now: u64,
        target_ms: u32,
    ) -> (ack: Vec<u8>)
        requires
            old(self).epoch_counter < u64::MAX,
        ensures
            exists|silence: S| #[trigger]
                call_ensures(S::default, (), silence) && final(self)@ == old(self)@.opened(
                    *h,
                    src,
                    dec,
                    now,
                    target_ms,
                    silence,
                ),
            ack@ == protocol::session_bytes(4, h.session),
            final(self)@.wf(),
            final(self)@.has_room(0),
    {
        let cfg = JitterConfig {
            frame_samples: h.codec.frame_samples(),
            start_target_ms: target_ms,
            ..JitterConfig::default()
        };
        proof {
            jitter_laws::lemma_standard_settings(h.codec, target_ms);
        }
        let jb: JitterBuffer<S> = JitterBuffer::new(cfg);
        let ghost silence = jb@.silence;
        self.epoch_counter = self.epoch_counter + 1;
        self.session = Some(
            Session {
                id: h.session,
                peer: src,
                jb,
                dec,
                last_packet: now,
                epoch: self.epoch_counter,
            },
        );
        assert(call_ensures(S::default, (), silence) && self@ == old(self)@.opened(
            *h,
            src,
            dec,
            now,
            target_ms,
            silence,
        ));
        protocol::build_hello_ack(h.session)
    }

    /// Looks at the session: closes it when it was silent for too long, else says what speed
    /// its buffer calls for. To be called about once a second.
    pub fn supervise(&mut self, now: u64) -> (r: Supervision)
        requires
            old(self)@.wf(),
        ensures
            final(self)@ == old(self)@.supervised(now),
            r == old(self)@.finding(now),
            final(self)@.wf(),
    {
        let r = match &self.session {
            Some(s) => {
                if now.saturating_sub(s.last_packet) > SESSION_TIMEOUT_NS {
                    Supervision::TimedOut
                } else if s.jb.state() == State::Playing {
                    Supervision::Playing {
                        servo_ppm: servo_speed(s.jb.fill_ms(), s.jb.target_ms()),
                    }
                } else {
                    Supervision::Buffering
                }
            },
            None => Supervision::Idle,
        };
        if r == Supervision::TimedOut {
            self.session = None;
        }
        r
    }

    /// The state of the session, if there is one.
    pub fn snapshot(&self) -> (r: Option<Snapshot<A>>)
        requires
            self@.wf(),
        ensures
            r == match self@.session {
                Some(s) => Some(
                    Snapshot {
                        peer: s.peer,
                        playing: s.jb.state == State::Playing,
                        fill_ms: s.fill_ms(),
                        target_ms: s.jb.target_ms,
                        stats: s.jb.stats,
                    },
                ),
                None => None,
            },
    {
        match &self.session {
            Some(s) => Some(
                Snapshot {
                    peer: s.peer,
                    playing: s.jb.state() == State::Playing,
                    fill_ms: s.jb.fill_ms(),
                    target_ms: s.jb.target_ms(),
                    stats: s.jb.stats(),
                },
            ),
            None => None,
        }
    }

    /// To be called before samples are pulled. `last_epoch` is what the consumer saw last: it
    /// is brought up to date, and a consumer of another session is told to start afresh.
    pub fn begin_pull(&self, last_epoch: &mut u64) -> (r: PullStart)
        ensures
            match self@.session {
                None => r == PullStart::NoSession && *final(last_epoch) == *old(last_epoch),
                Some(s) => *final(last_epoch) == s.epoch && r == (if s.epoch == *old(last_epoch) {
                    PullStart::Continuing
                } else {
                    PullStart::Restarted
                }),
            },
    {
        match &self.session {
            Some(s) => {
                if s.epoch != *last_epoch {
                    *last_epoch = s.epoch;
                    PullStart::Restarted
                } else {
                    PullStart::Continuing
                }
            },
            None => PullStart::NoSession,
        }
    }
}

impl<A: Copy, S: Copy + Default, D: FrameDecoder<S>> Engine<A, S, D> {
    /// Pulls samples from the session's buffer. Without a session nothing is written.
    pub fn pull(&mut self, out: &mut [S]) -> (r: Option<PullInfo>)
        requires
            old(self)@.wf(),
            old(self)@.has_room(old(out)@.len() as int),
        ensures
            final(out)@.len() == old(out)@.len(),
            final(self)@.epoch_counter == old(self)@.epoch_counter,
            match old(self)@.session {
                None => r is None && *final(self) == *old(self) && final(out)@ == old(out)@,
                Some(s) => {
                    &&& r matches Some(info)
                    &&& final(self)@.session matches Some(t)
                    &&& t == (SessionView { jb: t.jb, dec: t.dec, ..s })
                    &&& jitter::pulled(
                        s.jb,
                        s.dec,
                        old(out)@.len() as int,
                        final(out)@,
                        info.silence_samples as int,
                        t.jb,
                        t.dec,
                    )
                },
            },
            final(self)@.wf(),
    {
        match &mut self.session {
            Some(s) => Some(s.jb.pull(out, &mut s.dec)),
            None => None,
        }
    }
}

} // verus!
