//! The adaptive jitter buffer.
//!
//! Time is counted in samples pulled, never in wall-clock time, so that a run is reproducible.
//! Packets come in with `push`, in any order and with gaps; samples go out with `pull`. A single
//! lost packet is rebuilt from the redundancy inside the packet after it, a short gap is
//! concealed, a long one is skipped. Underruns raise the target delay, clean playback lowers it.

use crate::packets;
use crate::packets::PacketStore;
use std::collections::VecDeque;
use vstd::prelude::*;

verus! {

/// The largest extended sequence number that a packet is stored under.
pub const MAX_SEQ: u64 = 0x8000_0000_0000_0000;

/// Sequence numbers up to here leave room for further packets and concealed frames.
pub const SEQ_ROOM: u64 = 0x4000_0000_0000_0000;

/// How many numbers a 32-bit sequence number can take.
pub const SEQ_WRAP: u64 = 0x1_0000_0000;

/// Half of `SEQ_WRAP`: a number further away than this belongs to another round.
pub const SEQ_HALF: u64 = 0x8000_0000;

/// What a decoder is asked to do for one frame.
pub enum FrameCall {
    /// Decode this payload.
    Decode(Seq<u8>),
    /// Rebuild the frame before this payload from the payload's redundancy.
    DecodeFec(Seq<u8>),
    /// Make up a frame from nothing.
    Conceal,
}

/// Turns payloads into frames of samples of type `S`.
pub trait FrameDecoder<S>: Sized {
    /// Whether the call `call`, made in state `pre` on a buffer that holds `before`, may leave
    /// the state `post` and the buffer contents `after`. A decoder that says nothing of this may
    /// do anything.
    open spec fn step(
        pre: Self,
        call: FrameCall,
        before: Seq<S>,
        post: Self,
        after: Seq<S>,
    ) -> bool {
        true
    }

    /// Ordinary decoding. `out` is exactly one frame long.
    fn decode(&mut self, payload: &[u8], out: &mut [S])
        ensures
            Self::step(
                *old(self),
                FrameCall::Decode(payload@),
                old(out)@,
                *final(self),
                final(out)@,
            ),
            final(out)@.len() == old(out)@.len(),
    ;

    /// Rebuilds a lost frame from the redundancy in the packet that follows it.
    fn decode_fec(&mut self, next_payload: &[u8], out: &mut [S])
        ensures
            Self::step(
                *old(self),
                FrameCall::DecodeFec(next_payload@),
                old(out)@,
                *final(self),
                final(out)@,
            ),
            final(out)@.len() == old(out)@.len(),
    ;

    /// Makes up a frame where nothing is known of it.
    fn conceal(&mut self, out: &mut [S])
        ensures
            Self::step(*old(self), FrameCall::Conceal, old(out)@, *final(self), final(out)@),
            final(out)@.len() == old(out)@.len(),
    ;
}

/// The settings of a buffer.
#[derive(Debug, Clone, Copy)]
pub struct JitterConfig {
    pub sample_rate: u32,
    pub frame_samples: usize,
    pub start_target_ms: u32,
    pub min_target_ms: u32,
    pub max_target_ms: u32,
    /// A dry buffer is concealed for at most this many frames in a row, then it buffers again.
    pub plc_limit_frames: u32,
    /// Gaps up to this size are concealed; larger ones are skipped.
    pub small_gap_frames: u64,
    /// After this many seconds without trouble the target delay goes down.
    pub decrease_after_s: u32,
    /// A buffer that holds more than this drops its oldest data.
    pub hard_cap_ms: u32,
    /// A jump of the sequence number by more than this starts afresh at the new number.
    pub resync_jump_frames: u64,
}

impl JitterConfig {
    /// The delay bounds are in order, and sizes of what the buffer can hold fit the machine's
    /// integers.
    pub open spec fn valid(self) -> bool {
        &&& self.min_target_ms <= self.max_target_ms
        &&& (self.resync_jump_frames + 2) * self.frame_samples <= usize::MAX
        &&& (self.resync_jump_frames + 2) * self.frame_samples * 1000 <= u64::MAX
        &&& self.plc_limit_frames + self.small_gap_frames <= u32::MAX
    }

    /// The settings of the receiver for frames of `frame_samples` samples and a first target
    /// delay of `start_target_ms`.
    pub open spec fn standard(frame_samples: usize, start_target_ms: u32) -> Self {
        JitterConfig {
            sample_rate: 48000,
            frame_samples,
            start_target_ms,
            min_target_ms: 30,
            max_target_ms: 300,
            plc_limit_frames: 6,
            small_gap_frames: 3,
            decrease_after_s: 10,
            hard_cap_ms: 400,
            resync_jump_frames: 500,
        }
    }
}

impl Default for JitterConfig {
    /// Frames of 20 ms at 48 kHz; the delay starts at 60 ms and stays between 30 and 300 ms.
    fn default() -> (r: Self)
        ensures
            r == JitterConfig::standard(960, 60),
            r.valid(),
    {
        JitterConfig {
            sample_rate: 48000,
            frame_samples: 960,
            start_target_ms: 60,
            min_target_ms: 30,
            max_target_ms: 300,
            plc_limit_frames: 6,
            small_gap_frames: 3,
            decrease_after_s: 10,
            hard_cap_ms: 400,
            resync_jump_frames: 500,
        }
    }
}

/// Counters over the life of a buffer.
#[derive(Debug, Clone, Copy)]
pub struct JitterStats {
    pub pushed: u64,
    pub late: u64,
    pub fec_recovered: u64,
    pub plc_frames: u64,
    pub lost_skipped: u64,
    pub underruns: u64,
    pub resyncs: u64,
    pub pulled_samples: u64,
    pub silence_samples: u64,
}

impl JitterStats {
    /// All counters at zero.
    pub open spec fn zero() -> Self {
        JitterStats {
            pushed: 0,
            late: 0,
            fec_recovered: 0,
            plc_frames: 0,
            lost_skipped: 0,
            underruns: 0,
            resyncs: 0,
            pulled_samples: 0,
            silence_samples: 0,
        }
    }
}

impl Default for JitterStats {
    fn default() -> (r: Self)
        ensures
            r == JitterStats::zero(),
    {
        JitterStats {
            pushed: 0,
            late: 0,
            fec_recovered: 0,
            plc_frames: 0,
            lost_skipped: 0,
            underruns: 0,
            resyncs: 0,
            pulled_samples: 0,
            silence_samples: 0,
        }
    }
}

/// Whether the buffer waits to fill up or plays.
#[derive(Debug, Clone, Copy, PartialEq, Eq, Structural)]
pub enum State {
    Buffering,
    Playing,
}

/// What a pull reports.
pub struct PullInfo {
    /// How many of the samples are buffering silence.
    pub silence_samples: usize,
}

/// The extended number of the 32-bit number `seq` that comes after the extended number `last`:
/// of the numbers that agree with `seq` in their low 32 bits, the one nearest to `last`.
pub open spec fn extended(last: Option<u64>, seq: u32) -> int {
    match last {
        None => seq as int,
        Some(last) => {
            let same_round = last - last % SEQ_WRAP + seq;
            if same_round + SEQ_HALF < last {
                same_round + SEQ_WRAP
            } else if same_round > last + SEQ_HALF && same_round >= SEQ_WRAP {
                same_round - SEQ_WRAP
            } else {
                same_round
            }
        },
    }
}

/// `s` cut or filled up with `x` to the length `n`.
pub open spec fn resized<S>(s: Seq<S>, n: int, x: S) -> Seq<S> {
    Seq::new(
        n as nat,
        |i: int|
            if i < s.len() {
                s[i]
            } else {
                x
            },
    )
}

/// `n` times the sample `x`.
pub open spec fn repeated<S>(x: S, n: int) -> Seq<S> {
    Seq::new(n as nat, |i: int| x)
}

/// All waiting packets lie at `ns` or after it, by at most `jump` frames.
pub open spec fn ahead_of(packets: Map<u64, Seq<u8>>, ns: u64, jump: u64) -> bool {
    forall|k: u64| #[trigger]
        packets.contains_key(k) ==> ns <= k <= MAX_SEQ && k - ns <= jump
}

/// A run of `plc_run` concealed frames is within the limit, or a packet that waits ends it soon.
pub open spec fn plc_run_ends(
    cfg: JitterConfig,
    packets: Map<u64, Seq<u8>>,
    ns: u64,
    plc_run: u32,
) -> bool {
    plc_run <= cfg.plc_limit_frames || exists|k: u64|
        {
            &&& #[trigger] packets.contains_key(k)
            &&& plc_run + (k - ns) <= cfg.plc_limit_frames + cfg.small_gap_frames
        }
}

/// The contents of a buffer.
#[verifier::ext_equal]
pub struct JitterView<S> {
    pub cfg: JitterConfig,
    /// Waiting payloads by extended sequence number.
    pub packets: Map<u64, Seq<u8>>,
    /// The extended number of the packet that was pushed last.
    pub last_ext: Option<u64>,
    /// The extended number of the frame to play next.
    pub next_seq: Option<u64>,
    /// Decoded samples that are still to be pulled.
    pub fifo: Seq<S>,
    /// The frame that was decoded last.
    pub scratch: Seq<S>,
    /// The sample that stands for silence.
    pub silence: S,
    pub state: State,
    /// How many frames in a row were concealed.
    pub plc_run: u32,
    pub target_ms: u32,
    /// How many samples were pulled since the last trouble.
    pub clean_samples: u64,
    pub stats: JitterStats,
}

impl<S> JitterView<S> {
    /// A buffer before its first packet.
    pub open spec fn initial(cfg: JitterConfig, silence: S) -> Self {
        JitterView {
            cfg,
            packets: Map::empty(),
            last_ext: None,
            next_seq: None,
            fifo: Seq::empty(),
            scratch: Seq::empty(),
            silence,
            state: State::Buffering,
            plc_run: 0,
            target_ms: if cfg.start_target_ms < cfg.min_target_ms {
                cfg.min_target_ms
            } else if cfg.start_target_ms > cfg.max_target_ms {
                cfg.max_target_ms
            } else {
                cfg.start_target_ms
            },
            clean_samples: 0,
            stats: JitterStats::zero(),
        }
    }

    /// The target delay in samples.
    pub open spec fn target_samples(self) -> int {
        self.target_ms * self.cfg.sample_rate / 1000
    }

    /// The hard cap in samples.
    pub open spec fn cap_samples(self) -> int {
        self.cfg.hard_cap_ms * self.cfg.sample_rate / 1000
    }

    /// How many samples the buffer spans: the decoded ones, and a frame for every number from
    /// the next frame to the newest packet, whether that packet is there or not.
    pub open spec fn fill(self) -> int {
        (if self.next_seq is Some && !self.packets.is_empty() {
            (packets::last_key(self.packets) - self.next_seq.unwrap() + 1) * self.cfg.frame_samples
        } else {
            0
        }) + self.fifo.len()
    }

    /// How far the frame to play next lies before the oldest packet.
    pub open spec fn gap(self) -> int {
        if self.next_seq is Some && !self.packets.is_empty() {
            packets::first_key(self.packets) - self.next_seq.unwrap()
        } else {
            0
        }
    }

    /// How many more frames a dry buffer is concealed for.
    pub open spec fn plc_left(self) -> int {
        if self.plc_run < self.cfg.plc_limit_frames {
            self.cfg.plc_limit_frames - self.plc_run
        } else {
            0
        }
    }

    /// The parts of a buffer fit together.
    pub open spec fn wf(self) -> bool {
        &&& self.cfg.valid()
        &&& self.cfg.min_target_ms <= self.target_ms <= self.cfg.max_target_ms
        &&& self.packets.dom().finite()
        &&& self.fifo.len() <= self.cfg.frame_samples
        &&& self.stats.late <= self.stats.pushed
        &&& self.stats.silence_samples <= self.stats.pulled_samples
        &&& self.stats.underruns <= self.stats.pulled_samples
        &&& self.clean_samples <= self.stats.pulled_samples
        &&& self.last_ext is Some <==> self.next_seq is Some
        &&& match self.next_seq {
            None => {
                &&& self.packets.is_empty()
                &&& self.fifo.len() == 0
                &&& self.state == State::Buffering
                &&& self.plc_run == 0
                &&& self.stats.lost_skipped == 0
                &&& self.stats.resyncs == 0
                &&& self.stats.plc_frames == 0
                &&& self.stats.fec_recovered == 0
            },
            Some(ns) => {
                &&& ahead_of(self.packets, ns, self.cfg.resync_jump_frames)
                &&& self.stats.lost_skipped <= ns
                &&& self.stats.resyncs <= ns
                &&& self.stats.plc_frames <= ns
                &&& self.stats.fec_recovered <= ns
                &&& plc_run_ends(self.cfg, self.packets, ns, self.plc_run)
            },
        }
    }

    /// The sequence numbers are far from the end of their range.
    pub open spec fn seq_in_range(self) -> bool {
        &&& self.last_ext matches Some(e) ==> e <= SEQ_ROOM
        &&& self.next_seq matches Some(ns) ==> ns <= SEQ_ROOM
    }

    /// The furthest number that playback can reach with the packets at hand: it goes past the
    /// newest one by no more than the frames that a dry buffer is concealed for.
    pub open spec fn horizon(self) -> int {
        (if self.packets.is_empty() {
            self.next_seq.unwrap() as int
        } else {
            packets::last_key(self.packets) + 1
        }) + self.cfg.plc_limit_frames
    }

    /// A next frame can be planned: there is one, its number is in range, and there is a pulled
    /// sample that an underrun can be blamed on.
    pub open spec fn playable(self) -> bool {
        &&& self.next_seq matches Some(ns) && ns <= MAX_SEQ + 1 + self.plc_run
        &&& self.stats.underruns < self.stats.pulled_samples
    }

    /// The buffer after playback jumped ahead to the number `to`.
    pub open spec fn forwarded(self, to: u64) -> Self {
        let ns = self.next_seq.unwrap();
        JitterView {
            packets: packets::from_key(self.packets, to),
            next_seq: Some(to),
            fifo: Seq::empty(),
            plc_run: 0,
            stats: JitterStats {
                lost_skipped: (self.stats.lost_skipped + (to - ns) - packets::count_below(
                    self.packets,
                    to,
                )) as u64,
                resyncs: (self.stats.resyncs + 1) as u64,
                ..self.stats
            },
            ..self
        }
    }

    /// The number of frames that stay when the hard cap cuts in: as many as fill the target
    /// delay, but at least one.
    pub open spec fn keep_frames(self) -> int {
        let frames = self.target_samples() / self.cfg.frame_samples as int;
        if frames < 1 {
            1
        } else {
            frames
        }
    }

    /// The buffer after the hard cap was applied.
    pub open spec fn capped(self) -> Self {
        if self.fill() <= self.cap_samples() || self.packets.is_empty() {
            self
        } else {
            let to = packets::last_key(self.packets) - (self.keep_frames() - 1);
            if to > self.next_seq.unwrap() {
                self.forwarded(to as u64)
            } else {
                self
            }
        }
    }

    /// The buffer with a payload added under the number `ext`.
    pub open spec fn stored(self, ext: u64, payload: Seq<u8>) -> Self {
        JitterView { packets: self.packets.insert(ext, payload), ..self }
    }

    /// The buffer after `push(seq, payload)`.
    pub open spec fn pushed(self, seq: u32, payload: Seq<u8>) -> Self {
        let ext = extended(self.last_ext, seq) as u64;
        let v = JitterView {
            last_ext: Some(ext),
            stats: JitterStats { pushed: (self.stats.pushed + 1) as u64, ..self.stats },
            ..self
        };
        match self.next_seq {
            None => JitterView { next_seq: Some(ext), ..v }.stored(ext, payload),
            Some(ns) => if ext < ns {
                JitterView {
                    stats: JitterStats { late: (v.stats.late + 1) as u64, ..v.stats },
                    ..v
                }
            } else if self.state == State::Buffering && self.packets.is_empty() && self.fifo.len()
                == 0 && ext > ns {
                JitterView {
                    next_seq: Some(ext),
                    stats: JitterStats {
                        lost_skipped: (v.stats.lost_skipped + (ext - ns)) as u64,
                        ..v.stats
                    },
                    ..v
                }.stored(ext, payload)
            } else if ext - ns > self.cfg.resync_jump_frames {
                v.forwarded(ext).stored(ext, payload).capped()
            } else {
                v.stored(ext, payload).capped()
            },
        }
    }

    /// The buffer after trouble raised the target delay by `add_ms`.
    pub open spec fn raised(self, add_ms: u32) -> Self {
        JitterView {
            target_ms: if self.target_ms + add_ms > self.cfg.max_target_ms {
                self.cfg.max_target_ms
            } else {
                (self.target_ms + add_ms) as u32
            },
            clean_samples: 0,
            ..self
        }
    }

    /// The buffer after the decision to conceal the next frame.
    pub open spec fn concealed(self) -> Self {
        let v = JitterView {
            plc_run: (self.plc_run + 1) as u32,
            next_seq: Some((self.next_seq.unwrap() + 1) as u64),
            stats: JitterStats { plc_frames: (self.stats.plc_frames + 1) as u64, ..self.stats },
            ..self
        };
        if v.plc_run == 3 {
            v.raised(10)
        } else {
            v
        }
    }

    /// The buffer after it ran dry for good.
    pub open spec fn underrun(self) -> Self {
        JitterView {
            state: State::Buffering,
            plc_run: 0,
            stats: JitterStats { underruns: (self.stats.underruns + 1) as u64, ..self.stats },
            ..self
        }.raised(20)
    }

    /// What happens for the next frame: the buffer after the decision, and what the decoder is
    /// asked for, or `None` where the buffer ran dry.
    pub open spec fn plan(self) -> (Self, Option<FrameCall>) {
        let ns = self.next_seq.unwrap();
        if self.packets.contains_key(ns) {
            (
                JitterView {
                    packets: self.packets.remove(ns),
                    plc_run: 0,
                    next_seq: Some((ns + 1) as u64),
                    ..self
                },
                Some(FrameCall::Decode(self.packets[ns])),
            )
        } else if self.packets.contains_key((ns + 1) as u64) {
            (
                JitterView {
                    plc_run: 0,
                    next_seq: Some((ns + 1) as u64),
                    stats: JitterStats {
                        fec_recovered: (self.stats.fec_recovered + 1) as u64,
                        ..self.stats
                    },
                    ..self
                },
                Some(FrameCall::DecodeFec(self.packets[(ns + 1) as u64])),
            )
        } else if self.packets.is_empty() {
            if self.plc_run < self.cfg.plc_limit_frames {
                (self.concealed(), Some(FrameCall::Conceal))
            } else {
                (self.underrun(), None)
            }
        } else {
            let low = packets::first_key(self.packets);
            if low - ns <= self.cfg.small_gap_frames {
                (self.concealed(), Some(FrameCall::Conceal))
            } else {
                (
                    JitterView {
                        packets: self.packets.remove(low),
                        plc_run: 0,
                        next_seq: Some((low + 1) as u64),
                        stats: JitterStats {
                            lost_skipped: (self.stats.lost_skipped + (low - ns)) as u64,
                            resyncs: (self.stats.resyncs + 1) as u64,
                            ..self.stats
                        },
                        ..self
                    },
                    Some(FrameCall::Decode(self.packets[low])),
                )
            }
        }
    }

    /// The buffer after `n` samples were played without silence: a long enough run of them
    /// lowers the target delay.
    pub open spec fn settled(self, n: int) -> Self {
        let clean = self.clean_samples + n;
        if clean >= self.cfg.decrease_after_s * self.cfg.sample_rate && self.target_ms
            > self.cfg.min_target_ms && self.fill() >= self.target_samples() {
            JitterView {
                target_ms: if self.target_ms < self.cfg.min_target_ms + 10 {
                    self.cfg.min_target_ms
                } else {
                    (self.target_ms - 10) as u32
                },
                clean_samples: 0,
                ..self
            }
        } else {
            JitterView { clean_samples: clean as u64, ..self }
        }
    }
}

/// One frame of a run of decoder calls: what the buffer held after the call, and the decoder.
pub struct Produced<S, D> {
    pub frame: Seq<S>,
    pub dec: D,
}

/// The decoder after the calls of `run`, started from `d`.
pub open spec fn decoder_after<S, D>(d: D, run: Seq<Produced<S, D>>) -> D {
    if run.len() == 0 {
        d
    } else {
        run.last().dec
    }
}

/// The buffer `v` after the frames of `run` were planned, decoded and appended, with nothing
/// taken out meanwhile.
pub open spec fn after_frames<S, D>(v: JitterView<S>, run: Seq<Produced<S, D>>) -> JitterView<S>
    decreases run.len(),
{
    if run.len() == 0 {
        v
    } else {
        let u = after_frames(v, run.drop_last());
        JitterView {
            fifo: u.fifo + run.last().frame,
            scratch: run.last().frame,
            ..u.plan().0
        }
    }
}

/// Frame `i` of `run` was needed to reach `n` samples, was planned, and is one that the decoder
/// may give for that plan.
pub open spec fn frame_ok<S, D: FrameDecoder<S>>(
    v: JitterView<S>,
    d: D,
    run: Seq<Produced<S, D>>,
    n: int,
    i: int,
) -> bool {
    let u = after_frames(v, run.take(i));
    &&& u.fifo.len() < n
    &&& u.plan().1 is Some
    &&& run[i].frame.len() == v.cfg.frame_samples
    &&& D::step(
        decoder_after(d, run.take(i)),
        u.plan().1.unwrap(),
        resized(u.scratch, v.cfg.frame_samples as int, v.silence),
        run[i].dec,
        run[i].frame,
    )
}

/// The buffer may leave off buffering: packets came, and they span the target delay.
pub open spec fn may_start<S>(v: JitterView<S>) -> bool {
    v.next_seq is Some && v.fill() >= v.target_samples()
}

/// What a pull of `n` samples does to the buffer `v` and the decoder `d`: it leaves `w` and
/// `d2`, hands out `out`, and reports `silence` samples of silence. `run` holds the frames that
/// were decoded on the way, each one only when the samples at hand did not suffice.
pub open spec fn pull_outcome<S, D: FrameDecoder<S>>(
    v: JitterView<S>,
    d: D,
    n: int,
    run: Seq<Produced<S, D>>,
    out: Seq<S>,
    silence: int,
    w: JitterView<S>,
    d2: D,
) -> bool {
    let counted = JitterView {
        stats: JitterStats {
            pulled_samples: (v.stats.pulled_samples + n) as u64,
            ..v.stats
        },
        ..v
    };
    if v.state == State::Buffering && !may_start(v) {
        &&& run.len() == 0
        &&& d2 == d
        &&& silence == n
        &&& out == repeated(v.silence, n)
        &&& w == (JitterView {
            stats: JitterStats {
                silence_samples: (v.stats.silence_samples + n) as u64,
                ..counted.stats
            },
            ..counted
        })
    } else {
        let start = JitterView { state: State::Playing, ..counted };
        let end = after_frames(start, run);
        &&& forall|i: int| 0 <= i < run.len() ==> #[trigger] frame_ok(start, d, run, n, i)
        &&& d2 == decoder_after(d, run)
        &&& if end.fifo.len() >= n {
            &&& silence == 0
            &&& out == end.fifo.take(n)
            &&& w == (JitterView { fifo: end.fifo.skip(n), ..end }).settled(n)
        } else {
            &&& end.plan().1 is None
            &&& silence == n - end.fifo.len()
            &&& out == end.fifo + repeated(v.silence, silence)
            &&& w == (JitterView {
                fifo: Seq::empty(),
                clean_samples: 0,
                stats: JitterStats {
                    silence_samples: (v.stats.silence_samples + silence) as u64,
                    ..end.plan().0.stats
                },
                ..end.plan().0
            })
        }
    }
}

/// A pull of `n` samples from the buffer `v` with the decoder `d` may hand out `out` and report
/// `silence`, and leave `w` and `d2`.
pub open spec fn pulled<S, D: FrameDecoder<S>>(
    v: JitterView<S>,
    d: D,
    n: int,
    out: Seq<S>,
    silence: int,
    w: JitterView<S>,
    d2: D,
) -> bool {
    exists|run: Seq<Produced<S, D>>| #[trigger] pull_outcome(v, d, n, run, out, silence, w, d2)
}

/// The decision for the next frame, as the decoder gets it.
enum FrameSource {
    Payload(Vec<u8>),
    Redundancy(Vec<u8>),
    Concealment,
    Dry,
}

impl FrameSource {
    /// The call that the decision leads to.
    spec fn call(self) -> Option<FrameCall> {
        match self {
            FrameSource::Payload(p) => Some(FrameCall::Decode(p@)),
            FrameSource::Redundancy(p) => Some(FrameCall::DecodeFec(p@)),
            FrameSource::Concealment => Some(FrameCall::Conceal),
            FrameSource::Dry => None,
        }
    }
}

/// A jitter buffer for samples of type `S`, whose default value is silence.
pub struct JitterBuffer<S> {
    cfg: JitterConfig,
    packets: PacketStore,
    /// Extended to 64 bits, so that the 32-bit numbers on the wire may wrap around.
    last_ext: Option<u64>,
    next_seq: Option<u64>,
    fifo: VecDeque<S>,
    scratch: Vec<S>,
    silence: S,
    state: State,
    plc_run: u32,
    target_ms: u32,
    clean_samples: u64,
    pub stats: JitterStats,
}

impl<S> View for JitterBuffer<S> {
    type V = JitterView<S>;

    closed spec fn view(&self) -> JitterView<S> {
        JitterView {
            cfg: self.cfg,
            packets: self.packets@,
            last_ext: self.last_ext,
            next_seq: self.next_seq,
            fifo: self.fifo@,
            scratch: self.scratch@,
            silence: self.silence,
            state: self.state,
            plc_run: self.plc_run,
            target_ms: self.target_ms,
            clean_samples: self.clean_samples,
            stats: self.stats,
        }
    }
}

impl<S: Copy + Default> JitterBuffer<S> {
    /// An empty buffer.
    pub fn new(cfg: JitterConfig) -> (r: Self)
        requires
            cfg.valid(),
        ensures
            r@ == JitterView::initial(cfg, r@.silence),
            call_ensures(S::default, (), r@.silence),
            r@.wf(),
            r@.seq_in_range(),
    {
        let target_ms: u32 = if cfg.start_target_ms < cfg.min_target_ms {
            cfg.min_target_ms
        } else if cfg.start_target_ms > cfg.max_target_ms {
            cfg.max_target_ms
        } else {
            cfg.start_target_ms
        };
        JitterBuffer {
            cfg,
            packets: PacketStore::new(),
            last_ext: None,
            next_seq: None,
            fifo: VecDeque::new(),
            scratch: Vec::new(),
            silence: S::default(),
            state: State::Buffering,
            plc_run: 0,
            target_ms,
            clean_samples: 0,
            stats: JitterStats::default(),
        }
    }

    /// Whether the buffer plays.
    pub fn state(&self) -> (r: State)
        ensures
            r == self@.state,
    {
        self.state
    }

    /// What happened so far.
    pub fn stats(&self) -> (r: JitterStats)
        ensures
            r == self@.stats,
    {
        self.stats
    }

    /// The target delay in milliseconds.
    pub fn target_ms(&self) -> (r: u32)
        ensures
            r == self@.target_ms,
    {
        self.target_ms
    }

    fn target_samples(&self) -> (r: u64)
        ensures
            r == self@.target_samples(),
    {
        assert(self.target_ms * self.cfg.sample_rate <= 0xffff_ffff * 0xffff_ffff)
            by (nonlinear_arith);
        self.target_ms as u64 * self.cfg.sample_rate as u64 / 1000
    }

    /// How many samples the buffer spans, gaps included.
    pub fn fill_samples(&self) -> (r: usize)
        requires
            self@.wf(),
        ensures
            r == self@.fill(),
    {
        let waiting: usize = match (self.next_seq, self.packets.last()) {
            (Some(ns), Some(hi)) => {
                proof {
                    assert(self@.packets.contains_key(hi));
                    lemma_span_fits(self@.cfg, hi - ns);
                }
                let frames: u64 = hi - ns + 1;
                (frames * self.cfg.frame_samples as u64) as usize
            },
            _ => 0,
        };
        proof {
            lemma_span_fits(self@.cfg, self@.cfg.resync_jump_frames as int);
        }
        waiting + self.fifo.len()
    }

    /// How many milliseconds the buffer spans, gaps included.
    pub fn fill_ms(&self) -> (r: u32)
        requires
            self@.wf(),
            self@.cfg.sample_rate > 0,
        ensures
            r == (self@.fill() * 1000 / self@.cfg.sample_rate as int) as u32,
    {
        proof {
            lemma_fill_bound(self@);
        }
        #[verifier::truncate]
        let ms: u32 = (self.fill_samples() as u64 * 1000 / self.cfg.sample_rate as u64) as u32;
        ms
    }

    /// Whether sequence numbers and counters leave room for a push, and for a pull of `n`
    /// samples.
    pub fn has_room(&self, n: usize) -> (r: bool)
        ensures
            r == (self@.seq_in_range() && self@.stats.pushed < u64::MAX
                && self@.stats.pulled_samples + n <= u64::MAX),
    {
        let last_ok: bool = match self.last_ext {
            Some(e) => e <= SEQ_ROOM,
            None => true,
        };
        let next_ok: bool = match self.next_seq {
            Some(ns) => ns <= SEQ_ROOM,
            None => true,
        };
        last_ok && next_ok && self.stats.pushed < u64::MAX && n as u64 <= u64::MAX
            - self.stats.pulled_samples
    }

    fn extend_seq(&mut self, seq: u32) -> (ext: u64)
        requires
            old(self)@.seq_in_range(),
        ensures
            ext == extended(old(self)@.last_ext, seq),
            ext <= MAX_SEQ,
            final(self)@ == (JitterView { last_ext: Some(ext), ..old(self)@ }),
    {
        let ext: u64 = match self.last_ext {
            None => seq as u64,
            Some(last) => {
                let same_round: u64 = last - last % SEQ_WRAP + seq as u64;
                if same_round + SEQ_HALF < last {
                    same_round + SEQ_WRAP
                } else if same_round > last + SEQ_HALF && same_round >= SEQ_WRAP {
                    same_round - SEQ_WRAP
                } else {
                    same_round
                }
            },
        };
        self.last_ext = Some(ext);
        ext
    }

    fn fast_forward(&mut self, to: u64)
        requires
            old(self)@.wf(),
            old(self)@.next_seq matches Some(ns) && ns < to,
        ensures
            final(self)@ == old(self)@.forwarded(to),
    {
        let ns: u64 = match self.next_seq {
            Some(ns) => ns,
            None => to,
        };
        proof {
            packets::lemma_count_below_bound(self@.packets, ns, to);
        }
        let held: usize = self.packets.drop_below(to);
        self.stats.lost_skipped = self.stats.lost_skipped + ((to - ns) - held as u64);
        self.next_seq = Some(to);
        self.fifo.clear();
        self.plc_run = 0;
        self.stats.resyncs = self.stats.resyncs + 1;
    }

    fn enforce_hard_cap(&mut self)
        requires
            old(self)@.wf(),
        ensures
            final(self)@ == old(self)@.capped(),
    {
        assert(self.cfg.hard_cap_ms * self.cfg.sample_rate <= 0xffff_ffff * 0xffff_ffff)
            by (nonlinear_arith);
        let cap: u64 = self.cfg.hard_cap_ms as u64 * self.cfg.sample_rate as u64 / 1000;
        if self.fill_samples() as u64 <= cap {
            return ;
        }
        if let Some(hi) = self.packets.last() {
            proof {
                if self@.cfg.frame_samples == 0 {
                    assert((hi - self@.next_seq.unwrap() + 1) * self@.cfg.frame_samples == 0)
                        by (nonlinear_arith)
                        requires
                            self@.cfg.frame_samples == 0,
                    ;
                }
            }
            let frames: u64 = self.target_samples() / self.cfg.frame_samples as u64;
            let keep: u64 = if frames < 1 {
                1
            } else {
                frames
            };
            if let Some(ns) = self.next_seq {
                let to: u64 = hi.saturating_sub(keep - 1);
                if to > ns {
                    self.fast_forward(to);
                }
            }
        }
    }

    /// Takes in a packet. One whose frame was played already is late and is dropped; a dry
    /// buffer goes on at whatever number comes; a huge jump starts afresh.
    pub fn push(&mut self, seq: u32, payload: Vec<u8>)
        requires
            old(self)@.wf(),
            old(self)@.seq_in_range(),
            old(self)@.stats.pushed < u64::MAX,
        ensures
            final(self)@ == old(self)@.pushed(seq, payload@),
            final(self)@.wf(),
    {
        let ext: u64 = self.extend_seq(seq);
        self.stats.pushed = self.stats.pushed + 1;
        proof {
            lemma_pushed_wf(old(self)@, seq, payload@);
        }
        let ns: u64 = match self.next_seq {
            None => {
                self.next_seq = Some(ext);
                self.packets.insert(ext, payload);
                return ;
            },
            Some(ns) => ns,
        };
        if ext < ns {
            self.stats.late = self.stats.late + 1;
            return ;
        }
        if self.state == State::Buffering && self.packets.is_empty() && self.fifo.len() == 0
            && ext > ns {
            self.stats.lost_skipped = self.stats.lost_skipped + (ext - ns);
            self.next_seq = Some(ext);
            self.packets.insert(ext, payload);
            return ;
        }
        if ext - ns > self.cfg.resync_jump_frames {
            self.fast_forward(ext);
        }
        self.packets.insert(ext, payload);
        self.enforce_hard_cap();
    }

    fn bump_target(&mut self, add_ms: u32)
        ensures
            final(self)@ == old(self)@.raised(add_ms),
    {
        let sum: u32 = self.target_ms.saturating_add(add_ms);
        self.target_ms = if sum > self.cfg.max_target_ms {
            self.cfg.max_target_ms
        } else {
            sum
        };
        self.clean_samples = 0;
    }

    /// Decides where the next frame comes from.
    fn plan_frame(&mut self) -> (src: FrameSource)
        requires
            old(self)@.wf(),
            old(self)@.playable(),
        ensures
            src.call() == old(self)@.plan().1,
            final(self)@ == old(self)@.plan().0,
    {
        let ns: u64 = match self.next_seq {
            Some(ns) => ns,
            None => return FrameSource::Dry,
        };
        if let Some(p) = self.packets.take(ns) {
            self.plc_run = 0;
            self.next_seq = Some(ns + 1);
            return FrameSource::Payload(p);
        }
        if let Some(p) = self.packets.copy_of(ns + 1) {
            self.stats.fec_recovered = self.stats.fec_recovered + 1;
            self.plc_run = 0;
            self.next_seq = Some(ns + 1);
            return FrameSource::Redundancy(p);
        }
        match self.packets.first() {
            None => {
                if self.plc_run < self.cfg.plc_limit_frames {
                    self.conceal_next(ns);
                    FrameSource::Concealment
                } else {
                    self.state = State::Buffering;
                    self.stats.underruns = self.stats.underruns + 1;
                    self.plc_run = 0;
                    self.bump_target(20);
                    FrameSource::Dry
                }
            },
            Some(low) => {
                let gap: u64 = low - ns;
                if gap <= self.cfg.small_gap_frames {
                    self.conceal_next(ns);
                    FrameSource::Concealment
                } else {
                    self.stats.lost_skipped = self.stats.lost_skipped + gap;
                    self.stats.resyncs = self.stats.resyncs + 1;
                    self.plc_run = 0;
                    self.next_seq = Some(low + 1);
                    match self.packets.take(low) {
                        Some(p) => FrameSource::Payload(p),
                        None => FrameSource::Dry,
                    }
                }
            },
        }
    }

    fn conceal_next(&mut self, ns: u64)
        requires
            old(self)@.next_seq == Some(ns),
            ns < u64::MAX,
            old(self)@.plc_run < u32::MAX,
            old(self)@.stats.plc_frames < u64::MAX,
        ensures
            final(self)@ == old(self)@.concealed(),
    {
        self.plc_run = self.plc_run + 1;
        self.stats.plc_frames = self.stats.plc_frames + 1;
        self.next_seq = Some(ns + 1);
        if self.plc_run == 3 {
            self.bump_target(10);
        }
    }

    /// Brings the scratch frame to the length of a frame.
    fn resize_scratch(&mut self)
        ensures
            final(self)@ == (JitterView {
                scratch: resized(
                    old(self)@.scratch,
                    old(self)@.cfg.frame_samples as int,
                    old(self)@.silence,
                ),
                ..old(self)@
            }),
    {
        let f: usize = self.cfg.frame_samples;
        let mut frame: Vec<S> = Vec::new();
        let mut i: usize = 0;
        while i < f
            invariant
                i <= f,
                f == self.cfg.frame_samples,
                *self == *old(self),
                frame@ =~= resized(self.scratch@, i as int, self.silence),
            decreases f - i,
        {
            if i < self.scratch.len() {
                frame.push(self.scratch[i]);
            } else {
                frame.push(self.silence);
            }
            i = i + 1;
        }
        self.scratch = frame;
    }

    /// Decodes one frame and appends it to the decoded samples. Returns false where the buffer
    /// ran dry.
    fn produce_frame<D: FrameDecoder<S>>(&mut self, dec: &mut D) -> (ok: bool)
        requires
            old(self)@.wf(),
            old(self)@.playable(),
        ensures
            ok == (old(self)@.plan().1 is Some),
            !ok ==> final(self)@ == old(self)@.plan().0,
            !ok ==> *final(dec) == *old(dec),
            ok ==> {
                let frame = final(self)@.scratch;
                &&& final(self)@ == (JitterView {
                    fifo: old(self)@.fifo + frame,
                    scratch: frame,
                    ..old(self)@.plan().0
                })
                &&& frame.len() == old(self)@.cfg.frame_samples
                &&& D::step(
                    *old(dec),
                    old(self)@.plan().1.unwrap(),
                    resized(
                        old(self)@.scratch,
                        old(self)@.cfg.frame_samples as int,
                        old(self)@.silence,
                    ),
                    *final(dec),
                    frame,
                )
            },
    {
        let src = self.plan_frame();
        let ghost planned = self@;
        match src {
            FrameSource::Dry => {
                return false;
            },
            FrameSource::Payload(p) => {
                self.resize_scratch();
                dec.decode(p.as_slice(), self.scratch.as_mut_slice());
            },
            FrameSource::Redundancy(p) => {
                self.resize_scratch();
                dec.decode_fec(p.as_slice(), self.scratch.as_mut_slice());
            },
            FrameSource::Concealment => {
                self.resize_scratch();
                dec.conceal(self.scratch.as_mut_slice());
            },
        }
        let ghost frame = self.scratch@;
        assert(self@ == (JitterView { scratch: frame, ..planned }));
        let mut i: usize = 0;
        while i < self.scratch.len()
            invariant
                i <= self.scratch.len(),
                self.scratch@ == frame,
                self@ =~= (JitterView {
                    scratch: frame,
                    fifo: planned.fifo + frame.take(i as int),
                    ..planned
                }),
            decreases self.scratch.len() - i,
        {
            let x: S = self.scratch[i];
            self.fifo.push_back(x);
            assert(frame.take(i + 1) =~= frame.take(i as int).push(x));
            assert(planned.fifo + frame.take(i + 1) =~= (planned.fifo + frame.take(
                i as int,
            )).push(x));
            i = i + 1;
        }
        assert(frame.take(i as int) =~= frame);
        true
    }

    /// Counts `n` clean samples, and lowers the target delay after a long enough run of them.
    fn settle(&mut self, n: usize)
        requires
            old(self)@.wf(),
            old(self)@.clean_samples + n <= old(self)@.stats.pulled_samples,
        ensures
            final(self)@ == old(self)@.settled(n as int),
            final(self)@.wf(),
    {
        self.clean_samples = self.clean_samples + n as u64;
        assert(self.cfg.decrease_after_s * self.cfg.sample_rate <= 0xffff_ffff * 0xffff_ffff)
            by (nonlinear_arith);
        let need: u64 = self.cfg.decrease_after_s as u64 * self.cfg.sample_rate as u64;
        assert(self@.wf());
        if self.clean_samples >= need && self.target_ms > self.cfg.min_target_ms
            && self.fill_samples() as u64 >= self.target_samples() {
            let lower: u32 = self.target_ms.saturating_sub(10);
            self.target_ms = if lower < self.cfg.min_target_ms {
                self.cfg.min_target_ms
            } else {
                lower
            };
            self.clean_samples = 0;
        }
    }

    /// Fills `out` with the next samples. While the buffer fills up, and where it runs dry, the
    /// samples are silence.
    pub fn pull<D: FrameDecoder<S>>(&mut self, out: &mut [S], dec: &mut D) -> (info: PullInfo)
        requires
            old(self)@.wf(),
            old(self)@.seq_in_range(),
            old(self)@.stats.pulled_samples + old(out)@.len() <= u64::MAX,
        ensures
            pulled(
                old(self)@,
                *old(dec),
                old(out)@.len() as int,
                final(out)@,
                info.silence_samples as int,
                final(self)@,
                *final(dec),
            ),
            final(self)@.wf(),
            final(self)@.cfg == old(self)@.cfg,
            final(self)@.last_ext == old(self)@.last_ext,
            old(self)@.next_seq is None ==> final(self)@.next_seq is None,
            old(self)@.next_seq matches Some(a) ==> final(self)@.next_seq matches Some(b) && a <= b
                <= old(self)@.horizon(),
            final(out)@.len() == old(out)@.len(),
    {
        let n: usize = out.len();
        let ghost v = self@;
        let ghost d0 = *dec;
        proof {
            if !v.packets.is_empty() {
                packets::lemma_extreme_keys(v.packets);
                assert(v.packets.contains_key(packets::last_key(v.packets)));
            }
        }
        self.stats.pulled_samples = self.stats.pulled_samples + n as u64;
        let ghost mut run: Seq<Produced<S, D>> = Seq::empty();
        if self.state == State::Buffering {
            assert(self@.wf());
            if self.next_seq.is_some() && self.fill_samples() as u64 >= self.target_samples() {
                self.state = State::Playing;
            } else {
                let mut i: usize = 0;
                let ghost held = self@;
                while i < n
                    invariant
                        i <= n,
                        n == out@.len(),
                        self@ == held,
                        out@.take(i as int) =~= repeated(held.silence, i as int),
                    decreases n - i,
                {
                    let ghost before = out@;
                    out[i] = self.silence;
                    assert(out@.take(i + 1) =~= before.take(i as int).push(held.silence));
                    i = i + 1;
                }
                assert(out@.take(n as int) =~= out@);
                self.stats.silence_samples = self.stats.silence_samples + n as u64;
                assert(pull_outcome(v, d0, n as int, run, out@, n as int, self@, *dec));
                assert(pulled(v, d0, n as int, out@, n as int, self@, *dec));
                return PullInfo { silence_samples: n };
            }
        }
        let ghost start = self@;
        let ghost edge = v.horizon() - v.cfg.plc_limit_frames;
        assert(start == (JitterView {
            state: State::Playing,
            stats: JitterStats {
                pulled_samples: (v.stats.pulled_samples + n) as u64,
                ..v.stats
            },
            ..v
        }));
        let mut idx: usize = 0;
        proof {
            assert(start.fifo.skip(0) =~= start.fifo);
            assert(start.wf());
        }
        while idx < n
            invariant
                idx <= n,
                n == out@.len(),
                n as int == old(out)@.len(),
                v == old(self)@,
                d0 == *old(dec),
                v.wf(),
                v.stats.pulled_samples + n <= u64::MAX,
                start.state == State::Playing,
                start == (JitterView {
                    state: State::Playing,
                    stats: JitterStats {
                        pulled_samples: (v.stats.pulled_samples + n) as u64,
                        ..v.stats
                    },
                    ..v
                }),
                v.state == State::Buffering ==> may_start(v),
                idx <= after_frames(start, run).fifo.len(),
                self@ =~= (JitterView {
                    fifo: after_frames(start, run).fifo.skip(idx as int),
                    ..after_frames(start, run)
                }),
                out@.take(idx as int) =~= after_frames(start, run).fifo.take(idx as int),
                forall|i: int|
                    0 <= i < run.len() ==> #[trigger] frame_ok(start, d0, run, n as int, i),
                *dec == decoder_after(d0, run),
                self@.wf(),
                self@.cfg == v.cfg,
                self@.silence == v.silence,
                self@.stats.silence_samples == v.stats.silence_samples,
                self@.stats.pulled_samples == v.stats.pulled_samples + n,
                self@.clean_samples <= v.stats.pulled_samples,
                self@.stats.underruns <= v.stats.pulled_samples,
                self@.next_seq matches Some(ns) && ns <= MAX_SEQ + 1 + self@.plc_run,
                self@.last_ext == v.last_ext,
                self@.next_seq.unwrap() >= v.next_seq.unwrap(),
                self@.next_seq.unwrap() <= edge + if self@.packets.is_empty() {
                    self@.plc_run as int
                } else {
                    0
                },
                forall|k: u64| #[trigger] self@.packets.contains_key(k) ==> k < edge,
                edge == v.horizon() - v.cfg.plc_limit_frames,
            decreases
                    self@.packets.dom().len(),
                    self@.gap(),
                    self@.plc_left(),
                    n - idx,
        {
            let ghost e = after_frames(start, run);
            let ghost now = self@;
            if self.fifo.len() == 0 {
                proof {
                    lemma_plan(now);
                    lemma_plan_ignores_fifo(e, now.fifo);
                    assert(now == (JitterView { fifo: now.fifo, ..e }));
                }
                let ok: bool = self.produce_frame(dec);
                if !ok {
                    let silence: usize = n - idx;
                    let ghost filled = out@.take(idx as int);
                    let mut i: usize = idx;
                    let ghost dry = self@;
                    while i < n
                        invariant
                            idx <= i <= n,
                            n == out@.len(),
                            self@ == dry,
                            filled.len() == idx,
                            out@.take(i as int) =~= filled + repeated(dry.silence, i - idx),
                        decreases n - i,
                    {
                        let ghost before = out@;
                        out[i] = self.silence;
                        assert(out@.take(i + 1) =~= before.take(i as int).push(dry.silence));
                        i = i + 1;
                    }
                    assert(out@.take(n as int) =~= out@);
                    self.stats.silence_samples = self.stats.silence_samples + silence as u64;
                    self.clean_samples = 0;
                    proof {
                        assert(e.fifo.take(idx as int) =~= e.fifo);
                        assert(self@ =~= (JitterView {
                            fifo: Seq::empty(),
                            clean_samples: 0,
                            stats: JitterStats {
                                silence_samples: (v.stats.silence_samples + silence) as u64,
                                ..e.plan().0.stats
                            },
                            ..e.plan().0
                        }));
                        assert(pull_outcome(
                            v,
                            d0,
                            n as int,
                            run,
                            out@,
                            silence as int,
                            self@,
                            *dec,
                        ));
                        assert(pulled(v, d0, n as int, out@, silence as int, self@, *dec));
                    }
                    return PullInfo { silence_samples: silence };
                }
                proof {
                    let p = Produced { frame: self@.scratch, dec: *dec };
                    let longer = run.push(p);
                    assert(longer.drop_last() =~= run);
                    assert forall|i: int| 0 <= i < longer.len() implies #[trigger] frame_ok(
                        start,
                        d0,
                        longer,
                        n as int,
                        i,
                    ) by {
                        if i < run.len() {
                            assert(frame_ok(start, d0, run, n as int, i));
                            assert(longer.take(i) =~= run.take(i));
                        } else {
                            assert(longer.take(i) =~= run);
                        }
                    }
                    run = longer;
                    assert(e.fifo.take(idx as int) =~= e.fifo);
                    let e2 = after_frames(start, run);
                    assert(e2.fifo =~= e.fifo + p.frame);
                    assert(e2.fifo.skip(idx as int) =~= p.frame);
                    assert(e2.fifo.take(idx as int) =~= e.fifo);
                    assert(self@ =~= (JitterView { fifo: e2.fifo.skip(idx as int), ..e2 }));
                }
            }
            let ghost e2 = after_frames(start, run);
            let ghost before = self@;
            let ghost out_before = out@;
            if let Some(x) = self.fifo.pop_front() {
                out[idx] = x;
                idx = idx + 1;
                proof {
                    assert(e2.fifo.skip(idx as int) =~= before.fifo.skip(1));
                    assert(out@.take(idx as int) =~= out_before.take(idx - 1).push(x));
                    assert(e2.fifo.take(idx as int) =~= e2.fifo.take(idx - 1).push(x));
                }
            }
        }
        let ghost e = after_frames(start, run);
        assert(out@.take(n as int) =~= out@);
        self.settle(n);
        assert(pull_outcome(v, d0, n as int, run, out@, 0, self@, *dec));
        assert(pulled(v, d0, n as int, out@, 0, self@, *dec));
        PullInfo { silence_samples: 0 }
    }
}

/// Planning a frame keeps a buffer well-formed, touches nothing but what it decides on, and
/// makes progress.
pub proof fn lemma_plan<S>(v: JitterView<S>)
    requires
        v.wf(),
        v.playable(),
    ensures
        v.plan().0.wf(),
        v.plan().0.cfg == v.cfg,
        v.plan().0.silence == v.silence,
        v.plan().0.fifo == v.fifo,
        v.plan().0.scratch == v.scratch,
        v.plan().0.last_ext == v.last_ext,
        v.plan().0.clean_samples <= v.clean_samples,
        v.plan().0.stats.silence_samples == v.stats.silence_samples,
        v.plan().0.stats.pulled_samples == v.stats.pulled_samples,
        v.plan().0.next_seq matches Some(b) && v.next_seq.unwrap() <= b,
        v.plan().1 is None ==> v.plan().0.next_seq == v.next_seq,
        forall|k: u64| #[trigger]
            v.plan().0.packets.contains_key(k) ==> v.packets.contains_key(k),
        v.plan().0.packets.is_empty() && v.packets.is_empty() && v.plan().1 is Some ==> {
            &&& v.plan().0.next_seq.unwrap() == v.next_seq.unwrap() + 1
            &&& v.plan().0.plc_run == v.plc_run + 1
        },
        !v.packets.is_empty() ==> exists|k: u64|
            {
                &&& #[trigger] v.packets.contains_key(k)
                &&& v.plan().0.next_seq.unwrap() <= k + 1
            },
        v.plan().1 is Some ==> {
            let w = v.plan().0;
            &&& w.playable()
            &&& w.state == v.state
            &&& w.stats.underruns == v.stats.underruns
            &&& w.packets.dom().len() <= v.packets.dom().len()
            &&& w.packets.dom().len() == v.packets.dom().len() ==> {
                ||| 0 <= w.gap() < v.gap()
                ||| w.gap() == v.gap() && w.plc_left() < v.plc_left()
            }
        },
{
    let ns = v.next_seq.unwrap();
    let w = v.plan().0;
    if !v.packets.is_empty() {
        packets::lemma_extreme_keys(v.packets);
        assert(v.packets.contains_key(packets::first_key(v.packets)));
    }
    if !w.packets.is_empty() {
        packets::lemma_extreme_keys(w.packets);
        assert(w.packets.contains_key(packets::first_key(w.packets)));
    }
    if v.packets.contains_key(ns) {
        assert forall|k: u64| #[trigger] w.packets.contains_key(k) implies ns + 1 <= k <= MAX_SEQ
            && k - (ns + 1) <= w.cfg.resync_jump_frames by {
            assert(v.packets.contains_key(k));
        }
    } else if v.packets.contains_key((ns + 1) as u64) {
        assert forall|k: u64| #[trigger] w.packets.contains_key(k) implies ns + 1 <= k <= MAX_SEQ
            && k - (ns + 1) <= w.cfg.resync_jump_frames by {
            assert(v.packets.contains_key(k));
        }
    } else if v.packets.is_empty() {
    } else {
        let low = packets::first_key(v.packets);
        if low - ns <= v.cfg.small_gap_frames {
            assert(w.packets == v.packets);
            assert forall|k: u64| #[trigger] w.packets.contains_key(k) implies ns + 1 <= k
                <= MAX_SEQ && k - (ns + 1) <= w.cfg.resync_jump_frames by {
                assert(v.packets.contains_key(k));
            }
            if v.plc_run <= v.cfg.plc_limit_frames {
                assert(w.packets.contains_key(low));
                assert(w.plc_run + (low - (ns + 1)) <= w.cfg.plc_limit_frames
                    + w.cfg.small_gap_frames);
            } else {
                let k = choose|k: u64|
                    #![trigger v.packets.contains_key(k)]
                    v.packets.contains_key(k) && v.plc_run + (k - ns) <= v.cfg.plc_limit_frames
                        + v.cfg.small_gap_frames;
                assert(w.packets.contains_key(k));
            }
        } else {
            assert forall|k: u64| #[trigger] w.packets.contains_key(k) implies low + 1 <= k
                <= MAX_SEQ && k - (low + 1) <= w.cfg.resync_jump_frames by {
                assert(v.packets.contains_key(k));
            }
        }
    }
}

/// The decision for the next frame does not look at the decoded samples.
proof fn lemma_plan_ignores_fifo<S>(v: JitterView<S>, fifo: Seq<S>)
    ensures
        (JitterView { fifo, ..v }).plan().0 == (JitterView { fifo, ..v.plan().0 }),
        (JitterView { fifo, ..v }).plan().1 == v.plan().1,
{
}

/// The span of a well-formed buffer fits the machine's integers.
proof fn lemma_fill_bound<S>(v: JitterView<S>)
    requires
        v.wf(),
    ensures
        0 <= v.fill() <= usize::MAX,
        v.fill() * 1000 <= u64::MAX,
{
    lemma_span_fits(v.cfg, v.cfg.resync_jump_frames as int);
    if v.next_seq is Some && !v.packets.is_empty() {
        packets::lemma_extreme_keys(v.packets);
        assert(v.packets.contains_key(packets::last_key(v.packets)));
        lemma_span_fits(v.cfg, packets::last_key(v.packets) - v.next_seq.unwrap());
    }
}

/// Jumping ahead keeps a buffer well-formed.
proof fn lemma_forwarded_wf<S>(v: JitterView<S>, to: u64)
    requires
        v.wf(),
        v.next_seq matches Some(ns) && ns < to,
    ensures
        v.forwarded(to).wf(),
        v.forwarded(to).cfg == v.cfg,
{
    packets::lemma_count_below_bound(v.packets, v.next_seq.unwrap(), to);
    packets::lemma_count_split(v.packets, to);
    let w = v.forwarded(to);
    assert forall|k: u64| #[trigger] w.packets.contains_key(k) implies to <= k <= MAX_SEQ && k - to
        <= w.cfg.resync_jump_frames by {
        assert(v.packets.contains_key(k));
    }
}

/// Applying the hard cap keeps a buffer well-formed.
proof fn lemma_capped_wf<S>(v: JitterView<S>)
    requires
        v.wf(),
        v.next_seq is Some,
    ensures
        v.capped().wf(),
{
    if !v.packets.is_empty() {
        packets::lemma_extreme_keys(v.packets);
        assert(v.packets.contains_key(packets::last_key(v.packets)));
        let to = packets::last_key(v.packets) - (v.keep_frames() - 1);
        if to > v.next_seq.unwrap() {
            lemma_forwarded_wf(v, to as u64);
        }
    }
}

/// A push keeps a buffer well-formed.
pub proof fn lemma_pushed_wf<S>(v: JitterView<S>, seq: u32, payload: Seq<u8>)
    requires
        v.wf(),
        v.seq_in_range(),
        v.stats.pushed < u64::MAX,
    ensures
        v.pushed(seq, payload).wf(),
        v.next_seq matches Some(ns) ==> {
            let ext = extended(v.last_ext, seq) as u64;
            let u = JitterView {
                last_ext: Some(ext),
                stats: JitterStats { pushed: (v.stats.pushed + 1) as u64, ..v.stats },
                ..v
            };
            &&& u.wf()
            &&& ext >= ns && ext - ns <= v.cfg.resync_jump_frames ==> u.stored(ext, payload).wf()
            &&& ext >= ns && ext - ns > v.cfg.resync_jump_frames ==> u.forwarded(ext).stored(
                ext,
                payload,
            ).wf()
        },
{
    let ext = extended(v.last_ext, seq) as u64;
    assert(0 <= extended(v.last_ext, seq) <= MAX_SEQ);
    let u = JitterView {
        last_ext: Some(ext),
        stats: JitterStats { pushed: (v.stats.pushed + 1) as u64, ..v.stats },
        ..v
    };
    if let Some(ns) = v.next_seq {
        assert(u.wf());
        if ext < ns {
            assert(v.pushed(seq, payload).wf());
        } else if v.state == State::Buffering && v.packets.is_empty() && v.fifo.len() == 0 && ext
            > ns {
            let w = v.pushed(seq, payload);
            assert(w.packets =~= Map::empty().insert(ext, payload));
            assert(w.wf());
        }
        if ext >= ns {
            if ext - ns > v.cfg.resync_jump_frames {
                lemma_forwarded_wf(u, ext);
                let w = u.forwarded(ext).stored(ext, payload);
                assert(w.wf());
                lemma_capped_wf(w);
            } else {
                let w = u.stored(ext, payload);
                assert(w.wf()) by {
                    if u.plc_run > u.cfg.plc_limit_frames {
                        let k = choose|k: u64|
                            #![trigger u.packets.contains_key(k)]
                            u.packets.contains_key(k) && u.plc_run + (k - ns)
                                <= u.cfg.plc_limit_frames + u.cfg.small_gap_frames;
                        assert(w.packets.contains_key(k));
                    }
                }
                lemma_capped_wf(w);
            }
        }
    } else {
        let w = JitterView { next_seq: Some(ext), ..u }.stored(ext, payload);
        assert(w.wf());
    }
}

/// A span of frames that the buffer can hold fits a `usize`.
proof fn lemma_span_fits(cfg: JitterConfig, d: int)
    requires
        cfg.valid(),
        0 <= d <= cfg.resync_jump_frames,
    ensures
        (d + 1) * cfg.frame_samples + cfg.frame_samples <= usize::MAX,
        ((d + 1) * cfg.frame_samples + cfg.frame_samples) * 1000 <= u64::MAX,
        cfg.frame_samples > 0 ==> d + 1 <= usize::MAX,
        0 <= (d + 1) * cfg.frame_samples,
{
    let f = cfg.frame_samples as int;
    let j = cfg.resync_jump_frames as int;
    assert((d + 1) * f + f <= (j + 2) * f) by (nonlinear_arith)
        requires
            0 <= d <= j,
            f >= 0,
    ;
    assert(0 <= (d + 1) * f) by (nonlinear_arith)
        requires
            0 <= d,
            f >= 0,
    ;
    if f > 0 {
        assert(d + 1 <= (d + 1) * f) by (nonlinear_arith)
            requires
                0 <= d,
                f > 0,
        ;
    }
}

} // verus!
