//! What the jitter buffer does, operation by operation: for every packet that is pushed and every
//! portion that is pulled, what the buffer holds before and after.

use crate::jitter;
use crate::jitter::{FrameCall, FrameDecoder, JitterBuffer, JitterConfig, JitterStats, JitterView};
use crate::jitter::{PullInfo, State, MAX_SEQ, SEQ_ROOM};
use crate::jitter_laws;
use crate::packets;
use crate::pull_laws;
use crate::pull_laws::Pull;
use vstd::prelude::*;

verus! {

/// The span of a buffer: a frame for every number from the one to play next to the newest that
/// waits, whether that packet is there or not, and the decoded samples.
pub proof fn lemma_span<S>(v: JitterView<S>, newest: u64)
    requires
        v.wf(),
    ensures
        v.packets.contains_key(newest) && (forall|k: u64| #[trigger]
            v.packets.contains_key(k) ==> k <= newest) ==> v.fill() == (newest
            - v.next_seq.unwrap() + 1) * v.cfg.frame_samples + v.fifo.len(),
        v.packets.is_empty() ==> v.fill() == v.fifo.len(),
{
    if v.packets.contains_key(newest) && (forall|k: u64| #[trigger]
        v.packets.contains_key(k) ==> k <= newest) {
        packets::lemma_extreme_keys(v.packets);
        assert(v.packets.contains_key(packets::last_key(v.packets)));
    }
}

/// Delays in milliseconds become samples, rounded down.
pub proof fn lemma_delays_in_samples<S>(v: JitterView<S>)
    ensures
        v.target_samples() * 1000 <= v.target_ms * v.cfg.sample_rate < (v.target_samples() + 1)
            * 1000,
        v.cap_samples() * 1000 <= v.cfg.hard_cap_ms * v.cfg.sample_rate < (v.cap_samples() + 1)
            * 1000,
{
}

/// A new buffer is empty and buffers; its target delay is the one asked for, kept within its
/// bounds.
pub proof fn lemma_new_buffer<S: Copy + Default>(cfg: JitterConfig, r: JitterBuffer<S>)
    requires
        cfg.valid(),
        call_ensures(JitterBuffer::<S>::new, (cfg,), r),
    ensures
        r@.cfg == cfg,
        r@.packets.is_empty(),
        r@.fifo.len() == 0,
        r@.next_seq is None,
        r@.last_ext is None,
        r@.state == State::Buffering,
        r@.plc_run == 0,
        r@.clean_samples == 0,
        call_ensures(S::default, (), r@.silence),
        cfg.min_target_ms <= r@.target_ms <= cfg.max_target_ms,
        cfg.min_target_ms <= cfg.start_target_ms <= cfg.max_target_ms ==> r@.target_ms
            == cfg.start_target_ms,
        cfg.start_target_ms < cfg.min_target_ms ==> r@.target_ms == cfg.min_target_ms,
        cfg.start_target_ms > cfg.max_target_ms ==> r@.target_ms == cfg.max_target_ms,
        r@.stats.pushed == 0 && r@.stats.late == 0 && r@.stats.fec_recovered == 0,
        r@.stats.plc_frames == 0 && r@.stats.lost_skipped == 0 && r@.stats.underruns == 0,
        r@.stats.resyncs == 0 && r@.stats.pulled_samples == 0 && r@.stats.silence_samples == 0,
{
}

/// Settings by default: 20 ms frames at 48 kHz, a target delay from 30 to 300 ms that starts at
/// 60 ms, and the limits of playback. Counters start at zero.
pub proof fn lemma_default_settings(r: JitterConfig, z: JitterStats)
    requires
        call_ensures(<JitterConfig as Default>::default, (), r),
        call_ensures(<JitterStats as Default>::default, (), z),
    ensures
        r.sample_rate == 48000,
        r.frame_samples * 1000 == 20 * 48000,
        r.start_target_ms == 60,
        r.min_target_ms == 30,
        r.max_target_ms == 300,
        r.plc_limit_frames == 6,
        r.small_gap_frames == 3,
        r.decrease_after_s == 10,
        r.hard_cap_ms == 400,
        r.resync_jump_frames == 500,
        z.pushed == 0 && z.late == 0 && z.fec_recovered == 0,
        z.plc_frames == 0 && z.lost_skipped == 0 && z.underruns == 0,
        z.resyncs == 0 && z.pulled_samples == 0 && z.silence_samples == 0,
{
}

/// What the buffer shows of itself.
pub proof fn lemma_getters<S: Copy + Default>(
    jb: &JitterBuffer<S>,
    state: State,
    target: u32,
    samples: usize,
    ms: u32,
    stats: JitterStats,
)
    requires
        jb@.wf(),
        jb@.cfg.sample_rate > 0,
        call_ensures(JitterBuffer::<S>::state, (jb,), state),
        call_ensures(JitterBuffer::<S>::target_ms, (jb,), target),
        call_ensures(JitterBuffer::<S>::fill_samples, (jb,), samples),
        call_ensures(JitterBuffer::<S>::fill_ms, (jb,), ms),
        call_ensures(JitterBuffer::<S>::stats, (jb,), stats),
    ensures
        state == jb@.state,
        target == jb@.target_ms,
        samples == jb@.fill(),
        jb@.fill() * 1000 < 0x1_0000_0000 * jb@.cfg.sample_rate ==> ms * jb@.cfg.sample_rate
            <= jb@.fill() * 1000 < (ms + 1) * jb@.cfg.sample_rate,
        stats == jb@.stats,
{
    let x = jb@.fill() * 1000;
    let r = jb@.cfg.sample_rate as int;
    assert(0 <= jb@.fill()) by {
        if jb@.next_seq is Some && !jb@.packets.is_empty() {
            packets::lemma_extreme_keys(jb@.packets);
            let hi = packets::last_key(jb@.packets);
            assert(jb@.packets.contains_key(hi));
            let span = hi - jb@.next_seq.unwrap() + 1;
            let f = jb@.cfg.frame_samples;
            assert(span * f >= 0) by (nonlinear_arith)
                requires
                    span >= 0,
                    f >= 0,
            ;
        }
    }
    if x < 0x1_0000_0000 * r {
        vstd::arithmetic::div_mod::lemma_fundamental_div_mod(x, r);
        let q = x / r;
        assert(0 <= q < 0x1_0000_0000) by (nonlinear_arith)
            requires
                q == x / r,
                0 <= x < 0x1_0000_0000 * r,
                r > 0,
        ;
        assert((q + 1) * r == r * q + r && q * r == r * q) by (nonlinear_arith);
    }
}

/// There is room while the numbers lie in the lower half of their range and no counter overflows.
pub proof fn lemma_room<S: Copy + Default>(jb: &JitterBuffer<S>, n: usize, r: bool)
    requires
        call_ensures(JitterBuffer::<S>::has_room, (jb, n), r),
    ensures
        r <==> {
            &&& jb@.last_ext is Some ==> jb@.last_ext.unwrap() <= 0x4000_0000_0000_0000
            &&& jb@.next_seq is Some ==> jb@.next_seq.unwrap() <= 0x4000_0000_0000_0000
            &&& jb@.stats.pushed < u64::MAX
            &&& jb@.stats.pulled_samples + n <= u64::MAX
        },
{
}

// ---------------------------------------------------------------------------------------------
// Pushing.

/// `ext` is the extended number of the number `seq` on the wire: the same in its low 32 bits, and
/// less than half a round away from the last number. At exactly half a round it is the one of the
/// same round; and there is none before the first round.
pub open spec fn numbered(last: Option<u64>, seq: u32, ext: u64) -> bool {
    match last {
        None => ext == seq,
        Some(l) => {
            &&& l <= MAX_SEQ
            &&& ext % 0x1_0000_0000 == seq
            &&& {
                ||| -0x8000_0000 < ext - l < 0x8000_0000
                ||| (ext - l == 0x8000_0000 || ext - l == -0x8000_0000) && ext / 0x1_0000_0000 == l
                    / 0x1_0000_0000
                ||| ext == seq && ext - l > 0x8000_0000
            }
        },
    }
}

/// Every number on the wire has an extended number, and one only.
pub proof fn lemma_numbered_once(last: Option<u64>, seq: u32)
    requires
        last matches Some(l) ==> l <= SEQ_ROOM,
    ensures
        exists|e: u64| numbered(last, seq, e),
        forall|a: u64, b: u64| #[trigger]
            numbered(last, seq, a) && #[trigger] numbered(last, seq, b) ==> a == b,
{
    assert(numbered(last, seq, jitter::extended(last, seq) as u64));
    assert forall|a: u64, b: u64| #[trigger]
        numbered(last, seq, a) && #[trigger] numbered(last, seq, b) implies a == b by {
        lemma_numbered(last, seq, a);
        lemma_numbered(last, seq, b);
    }
}

/// The buffer finds the extended number.
proof fn lemma_numbered(last: Option<u64>, seq: u32, ext: u64)
    requires
        numbered(last, seq, ext),
    ensures
        jitter::extended(last, seq) == ext,
{
    if last is Some {
        let l = last.unwrap();
        if -0x8000_0000 < ext - l < 0x8000_0000 {
            jitter_laws::lemma_extended_recovers(l, ext);
        }
    }
}

/// The buffer can take a packet.
pub open spec fn can_push<S>(v: JitterView<S>) -> bool {
    v.wf() && v.seq_in_range() && v.stats.pushed < u64::MAX
}

/// Every push is counted, remembers the number, and leaves alone what playback decides: the
/// settings, the target delay, the state, and the counters of playback.
pub proof fn lemma_push_counts<S: Copy + Default>(
    jb: &mut JitterBuffer<S>,
    seq: u32,
    payload: Vec<u8>,
    ext: u64,
)
    requires
        can_push(old(jb)@),
        numbered(old(jb)@.last_ext, seq, ext),
        call_ensures(JitterBuffer::<S>::push, (jb, seq, payload), ()),
    ensures
        final(jb)@.last_ext == Some(ext),
        final(jb)@.stats.pushed == old(jb)@.stats.pushed + 1,
        final(jb)@.cfg == old(jb)@.cfg,
        final(jb)@.target_ms == old(jb)@.target_ms,
        final(jb)@.clean_samples == old(jb)@.clean_samples,
        final(jb)@.state == old(jb)@.state,
        final(jb)@.silence == old(jb)@.silence,
        final(jb)@.scratch == old(jb)@.scratch,
        final(jb)@.stats.fec_recovered == old(jb)@.stats.fec_recovered,
        final(jb)@.stats.plc_frames == old(jb)@.stats.plc_frames,
        final(jb)@.stats.underruns == old(jb)@.stats.underruns,
        final(jb)@.stats.pulled_samples == old(jb)@.stats.pulled_samples,
        final(jb)@.stats.silence_samples == old(jb)@.stats.silence_samples,
{
    lemma_numbered(old(jb)@.last_ext, seq, ext);
}

/// The first packet is stored and plays next.
pub proof fn lemma_push_first<S: Copy + Default>(
    jb: &mut JitterBuffer<S>,
    seq: u32,
    payload: Vec<u8>,
)
    requires
        can_push(old(jb)@),
        old(jb)@.next_seq is None,
        call_ensures(JitterBuffer::<S>::push, (jb, seq, payload), ()),
    ensures
        final(jb)@.next_seq == Some(seq as u64),
        final(jb)@.last_ext == Some(seq as u64),
        final(jb)@.packets == map![seq as u64 => payload@],
        final(jb)@.fifo == old(jb)@.fifo,
        final(jb)@.plc_run == old(jb)@.plc_run,
        final(jb)@.stats == (JitterStats {
            pushed: (old(jb)@.stats.pushed + 1) as u64,
            ..old(jb)@.stats
        }),
{
    assert(final(jb)@.packets =~= map![seq as u64 => payload@]);
}

/// A packet whose turn is over is counted as late and dropped.
pub proof fn lemma_push_late<S: Copy + Default>(
    jb: &mut JitterBuffer<S>,
    seq: u32,
    payload: Vec<u8>,
    ext: u64,
)
    requires
        can_push(old(jb)@),
        numbered(old(jb)@.last_ext, seq, ext),
        old(jb)@.next_seq matches Some(ns) && ext < ns,
        call_ensures(JitterBuffer::<S>::push, (jb, seq, payload), ()),
    ensures
        final(jb)@.packets == old(jb)@.packets,
        final(jb)@.next_seq == old(jb)@.next_seq,
        final(jb)@.fifo == old(jb)@.fifo,
        final(jb)@.plc_run == old(jb)@.plc_run,
        final(jb)@.stats == (JitterStats {
            pushed: (old(jb)@.stats.pushed + 1) as u64,
            late: (old(jb)@.stats.late + 1) as u64,
            ..old(jb)@.stats
        }),
{
    lemma_numbered(old(jb)@.last_ext, seq, ext);
}

/// A buffer that buffers and holds nothing goes on where the stream goes on: the packet plays
/// next, and what lies before it counts as lost.
pub proof fn lemma_push_resumes<S: Copy + Default>(
    jb: &mut JitterBuffer<S>,
    seq: u32,
    payload: Vec<u8>,
    ext: u64,
)
    requires
        can_push(old(jb)@),
        numbered(old(jb)@.last_ext, seq, ext),
        old(jb)@.state == State::Buffering,
        old(jb)@.packets.is_empty(),
        old(jb)@.fifo.len() == 0,
        old(jb)@.next_seq matches Some(ns) && ns <= ext,
        call_ensures(JitterBuffer::<S>::push, (jb, seq, payload), ()),
    ensures
        final(jb)@.next_seq == Some(ext),
        final(jb)@.packets == map![ext => payload@],
        final(jb)@.fifo.len() == 0,
        final(jb)@.plc_run == old(jb)@.plc_run,
        final(jb)@.stats == (JitterStats {
            pushed: (old(jb)@.stats.pushed + 1) as u64,
            lost_skipped: (old(jb)@.stats.lost_skipped + (ext - old(jb)@.next_seq.unwrap()))
                as u64,
            ..old(jb)@.stats
        }),
{
    let v = old(jb)@;
    let ns = v.next_seq.unwrap();
    lemma_numbered(v.last_ext, seq, ext);
    assert(v.packets =~= Map::empty());
    assert(v.packets.insert(ext, payload@) =~= map![ext => payload@]);
    if ext == ns {
        let m = v.packets.insert(ext, payload@);
        packets::lemma_extreme_keys(m);
        assert(m.contains_key(packets::last_key(m)));
        assert(m.contains_key(ext));
    }
}

/// `top` is the newest number among those that wait and `ext`.
pub open spec fn newest_with(packets: Map<u64, Seq<u8>>, ext: u64, top: u64) -> bool {
    &&& ext <= top
    &&& top == ext || packets.contains_key(top)
    &&& forall|k: u64| #[trigger] packets.contains_key(k) ==> k <= top
}

/// The buffer is amid a stream: it plays, or it holds something.
pub open spec fn amid_stream<S>(v: JitterView<S>) -> bool {
    v.state == State::Playing || !v.packets.is_empty() || v.fifo.len() > 0
}

/// A packet that is neither late nor far ahead is stored under its number; as long as the span
/// stays within the hard cap, nothing else changes.
pub proof fn lemma_push_stores<S: Copy + Default>(
    jb: &mut JitterBuffer<S>,
    seq: u32,
    payload: Vec<u8>,
    ext: u64,
    top: u64,
)
    requires
        can_push(old(jb)@),
        numbered(old(jb)@.last_ext, seq, ext),
        amid_stream(old(jb)@),
        old(jb)@.next_seq matches Some(ns) && ns <= ext <= ns + old(jb)@.cfg.resync_jump_frames,
        newest_with(old(jb)@.packets, ext, top),
        (top - old(jb)@.next_seq.unwrap() + 1) * old(jb)@.cfg.frame_samples + old(jb)@.fifo.len()
            <= old(jb)@.cfg.hard_cap_ms * old(jb)@.cfg.sample_rate / 1000,
        call_ensures(JitterBuffer::<S>::push, (jb, seq, payload), ()),
    ensures
        final(jb)@.packets == old(jb)@.packets.insert(ext, payload@),
        final(jb)@.next_seq == old(jb)@.next_seq,
        final(jb)@.fifo == old(jb)@.fifo,
        final(jb)@.plc_run == old(jb)@.plc_run,
        final(jb)@.stats == (JitterStats {
            pushed: (old(jb)@.stats.pushed + 1) as u64,
            ..old(jb)@.stats
        }),
{
    let v = old(jb)@;
    lemma_numbered(v.last_ext, seq, ext);
    lemma_top(v.packets, ext, payload@, top);
}

/// The newest number of a store with one more packet.
proof fn lemma_top(m: Map<u64, Seq<u8>>, ext: u64, payload: Seq<u8>, top: u64)
    requires
        m.dom().finite(),
        newest_with(m, ext, top),
    ensures
        !m.insert(ext, payload).is_empty(),
        packets::last_key(m.insert(ext, payload)) == top,
{
    let w = m.insert(ext, payload);
    assert(w.contains_key(ext));
    assert(w.contains_key(top));
    packets::lemma_extreme_keys(w);
    assert(w.contains_key(packets::last_key(w)));
}

/// When a packet brings the span over the hard cap, playback jumps ahead to the live edge, no
/// further than it must: exactly the newest numbers stay that fill the target delay, one at
/// least, and of the packets at hand all those stay that are among them. Numbers that are passed
/// over without a packet count as lost. A span that is no longer than that is left as it is.
pub proof fn lemma_push_over_cap<S: Copy + Default>(
    jb: &mut JitterBuffer<S>,
    seq: u32,
    payload: Vec<u8>,
    ext: u64,
    top: u64,
    keep: int,
)
    requires
        can_push(old(jb)@),
        numbered(old(jb)@.last_ext, seq, ext),
        amid_stream(old(jb)@),
        old(jb)@.cfg.frame_samples > 0,
        old(jb)@.next_seq matches Some(ns) && ns <= ext <= ns + old(jb)@.cfg.resync_jump_frames,
        newest_with(old(jb)@.packets, ext, top),
        (top - old(jb)@.next_seq.unwrap() + 1) * old(jb)@.cfg.frame_samples + old(jb)@.fifo.len()
            > old(jb)@.cfg.hard_cap_ms * old(jb)@.cfg.sample_rate / 1000,
        keep >= 1,
        keep == 1 || keep * old(jb)@.cfg.frame_samples <= old(jb)@.target_ms
            * old(jb)@.cfg.sample_rate / 1000,
        (keep + 1) * old(jb)@.cfg.frame_samples > old(jb)@.target_ms * old(jb)@.cfg.sample_rate
            / 1000,
        call_ensures(JitterBuffer::<S>::push, (jb, seq, payload), ()),
    ensures
        ({
            let v = old(jb)@;
            let w = final(jb)@;
            let ns = v.next_seq.unwrap();
            let all = v.packets.insert(ext, payload@);
            if top - ns + 1 > keep {
                let to = (top - keep + 1) as u64;
                &&& w.next_seq == Some(to)
                &&& forall|k: u64| #[trigger]
                    w.packets.contains_key(k) <==> to <= k && all.contains_key(k)
                &&& forall|k: u64| #[trigger]
                    w.packets.contains_key(k) ==> w.packets[k] == all[k]
                &&& w.fifo.len() == 0
                &&& w.plc_run == 0
                &&& w.fill() == keep * v.cfg.frame_samples
                &&& w.stats.resyncs == v.stats.resyncs + 1
                &&& w.stats.lost_skipped == v.stats.lost_skipped + (to - ns) - (all.dom().len()
                    - w.packets.dom().len())
                &&& w.stats.late == v.stats.late
            } else {
                &&& w.packets == all
                &&& w.next_seq == v.next_seq
                &&& w.fifo == v.fifo
                &&& w.plc_run == v.plc_run
                &&& w.stats == (JitterStats { pushed: (v.stats.pushed + 1) as u64, ..v.stats })
            }
        }),
{
    let v = old(jb)@;
    let w = final(jb)@;
    let ns = v.next_seq.unwrap();
    let f = v.cfg.frame_samples as int;
    let t = v.target_samples();
    let all = v.packets.insert(ext, payload@);
    lemma_numbered(v.last_ext, seq, ext);
    lemma_top(v.packets, ext, payload@, top);
    assert(v.keep_frames() == keep) by {
        let q = t / f;
        assert(q * f <= t < (q + 1) * f) by (nonlinear_arith)
            requires
                q == t / f,
                f > 0,
                t >= 0,
        ;
        if keep > 1 {
            assert(q == keep) by (nonlinear_arith)
                requires
                    q * f <= t < (q + 1) * f,
                    keep * f <= t < (keep + 1) * f,
                    f > 0,
            ;
        } else {
            assert(q <= 1) by (nonlinear_arith)
                requires
                    q * f <= t < (keep + 1) * f,
                    keep == 1,
                    f > 0,
            ;
        }
    }
    if top - ns + 1 > keep {
        let to = (top - keep + 1) as u64;
        packets::lemma_count_split(all, to);
        assert(w.packets == packets::from_key(all, to));
        lemma_span(w, top);
        assert(w.packets.contains_key(top));
        packets::lemma_count_below_bound(all, ns, to);
        lemma_push_room(v, ext, payload@, to);
    }
}

/// What a jump ahead passes over can be counted.
proof fn lemma_push_room<S>(v: JitterView<S>, ext: u64, payload: Seq<u8>, to: u64)
    requires
        v.wf(),
        v.next_seq matches Some(ns) && ns <= ext && ns < to,
        v.packets.insert(ext, payload).dom().finite(),
        ext <= MAX_SEQ,
        to <= MAX_SEQ,
    ensures
        ({
            let all = v.packets.insert(ext, payload);
            let ns = v.next_seq.unwrap();
            &&& packets::count_below(all, to) <= to - ns
            &&& v.stats.lost_skipped + (to - ns) - packets::count_below(all, to) <= u64::MAX
            &&& v.stats.resyncs < u64::MAX
        }),
{
    let all = v.packets.insert(ext, payload);
    let ns = v.next_seq.unwrap();
    packets::lemma_count_below_bound(all, ns, to);
}

/// A jump of the stream by more than the limit starts afresh: only the new packet stays, and it
/// plays next.
pub proof fn lemma_push_far_ahead<S: Copy + Default>(
    jb: &mut JitterBuffer<S>,
    seq: u32,
    payload: Vec<u8>,
    ext: u64,
)
    requires
        can_push(old(jb)@),
        numbered(old(jb)@.last_ext, seq, ext),
        amid_stream(old(jb)@),
        old(jb)@.next_seq matches Some(ns) && ext > ns + old(jb)@.cfg.resync_jump_frames,
        call_ensures(JitterBuffer::<S>::push, (jb, seq, payload), ()),
    ensures
        final(jb)@.next_seq == Some(ext),
        final(jb)@.packets == map![ext => payload@],
        final(jb)@.fifo.len() == 0,
        final(jb)@.plc_run == 0,
        final(jb)@.stats.resyncs == old(jb)@.stats.resyncs + 1,
        final(jb)@.stats.lost_skipped == old(jb)@.stats.lost_skipped + (ext
            - old(jb)@.next_seq.unwrap()) - old(jb)@.packets.dom().len(),
        final(jb)@.stats.late == old(jb)@.stats.late,
{
    let v = old(jb)@;
    let ns = v.next_seq.unwrap();
    lemma_numbered(v.last_ext, seq, ext);
    jitter_laws::lemma_huge_jump_goes_to_live_edge(v, seq, payload@);
    assert(final(jb)@.packets =~= map![ext => payload@]);
    packets::lemma_count_split(v.packets, ext);
    assert(packets::from_key(v.packets, ext) =~= Map::empty());
    assert(packets::from_key(v.packets, ext).dom() =~= Set::empty());
    packets::lemma_count_below_bound(v.packets, ns, ext);
    lemma_push_stats_far(v, seq, payload@, ext);
}

/// After a far jump the hard cap has nothing to do.
proof fn lemma_push_stats_far<S>(v: JitterView<S>, seq: u32, payload: Seq<u8>, ext: u64)
    requires
        v.wf(),
        v.seq_in_range(),
        v.stats.pushed < u64::MAX,
        amid_stream(v),
        jitter::extended(v.last_ext, seq) == ext,
        v.next_seq matches Some(ns) && ext > ns + v.cfg.resync_jump_frames,
    ensures
        v.pushed(seq, payload).stats.resyncs == (v.stats.resyncs + 1) as u64,
        v.pushed(seq, payload).plc_run == 0,
        v.pushed(seq, payload).stats.late == v.stats.late,
        v.pushed(seq, payload).stats.lost_skipped == (v.stats.lost_skipped + (ext
            - v.next_seq.unwrap()) - packets::count_below(v.packets, ext)) as u64,
{
    let m = packets::from_key(v.packets, ext).insert(ext, payload);
    assert(m =~= Map::<u64, Seq<u8>>::empty().insert(ext, payload));
    packets::lemma_extreme_keys(m);
    assert(m.contains_key(packets::last_key(m)));
}

// ---------------------------------------------------------------------------------------------
// Deciding on the next frame.

/// `low` is the oldest number that waits.
pub open spec fn is_oldest(packets: Map<u64, Seq<u8>>, low: u64) -> bool {
    packets.contains_key(low) && forall|k: u64| #[trigger] packets.contains_key(k) ==> low <= k
}

/// The oldest number is the one that the buffer finds.
proof fn lemma_oldest<S>(v: JitterView<S>, low: u64)
    requires
        v.wf(),
        is_oldest(v.packets, low),
    ensures
        packets::first_key(v.packets) == low,
        !v.packets.is_empty(),
{
    packets::lemma_extreme_keys(v.packets);
    assert(v.packets.contains_key(packets::first_key(v.packets)));
}

/// What the decoder is asked for next: the packet whose turn it is; where that is missing, its
/// frame from the redundancy of the one after it; where both are missing, concealment of a short
/// gap, and the oldest packet after a long one; and where nothing waits, concealment as often as
/// the limit allows.
pub proof fn lemma_next_call<S>(v: JitterView<S>, low: u64)
    requires
        v.wf(),
        v.playable(),
    ensures
        ({
            let ns = v.next_seq.unwrap();
            let next = (ns + 1) as u64;
            let call = v.plan().1;
            &&& v.packets.contains_key(ns) ==> call == Some(FrameCall::Decode(v.packets[ns]))
            &&& !v.packets.contains_key(ns) && v.packets.contains_key(next) ==> call == Some(
                FrameCall::DecodeFec(v.packets[next]),
            )
            &&& is_oldest(v.packets, low) && low > next && low - ns <= v.cfg.small_gap_frames
                ==> call == Some(FrameCall::Conceal)
            &&& is_oldest(v.packets, low) && low > next && low - ns > v.cfg.small_gap_frames
                ==> call == Some(FrameCall::Decode(v.packets[low]))
            &&& v.packets.is_empty() && v.plc_run < v.cfg.plc_limit_frames ==> call == Some(
                FrameCall::Conceal,
            )
            &&& v.packets.is_empty() && v.plc_run >= v.cfg.plc_limit_frames ==> call is None
        }),
{
    if is_oldest(v.packets, low) {
        lemma_oldest(v, low);
    }
}

/// The number that plays after the next frame: the following one, or the one after the packet
/// that a long gap was skipped to. What lies before it is gone, all the rest still waits.
pub proof fn lemma_next_number<S>(v: JitterView<S>, low: u64)
    requires
        v.wf(),
        v.playable(),
    ensures
        ({
            let ns = v.next_seq.unwrap();
            let w = v.plan().0;
            let skips = is_oldest(v.packets, low) && low > ns + 1 && low - ns
                > v.cfg.small_gap_frames;
            &&& skips ==> w.next_seq == Some((low + 1) as u64)
            &&& (v.packets.contains_key(ns) || v.packets.contains_key((ns + 1) as u64)
                || is_oldest(v.packets, low) && low - ns <= v.cfg.small_gap_frames
                || v.packets.is_empty() && v.plc_run < v.cfg.plc_limit_frames) ==> w.next_seq
                == Some((ns + 1) as u64)
            &&& v.packets.is_empty() && v.plc_run >= v.cfg.plc_limit_frames ==> w.next_seq
                == Some(ns)
            &&& forall|k: u64| #[trigger]
                w.packets.contains_key(k) <==> v.packets.contains_key(k) && k
                    >= w.next_seq.unwrap()
            &&& forall|k: u64| #[trigger]
                w.packets.contains_key(k) ==> w.packets[k] == v.packets[k]
        }),
{
    let ns = v.next_seq.unwrap();
    if is_oldest(v.packets, low) {
        lemma_oldest(v, low);
    }
    if !v.packets.is_empty() {
        packets::lemma_extreme_keys(v.packets);
        assert(v.packets.contains_key(packets::first_key(v.packets)));
    }
}

/// Every decision is counted where it belongs and nowhere else.
pub proof fn lemma_next_frame_counted<S>(v: JitterView<S>)
    requires
        v.wf(),
        v.playable(),
    ensures
        ({
            let ns = v.next_seq.unwrap();
            let w = v.plan().0;
            let a = v.stats;
            let b = w.stats;
            &&& v.plan().1 matches Some(FrameCall::DecodeFec(_)) ==> b == (JitterStats {
                fec_recovered: (a.fec_recovered + 1) as u64,
                ..a
            }) && w.plc_run == 0
            &&& v.plan().1 matches Some(FrameCall::Conceal) ==> b == (JitterStats {
                plc_frames: (a.plc_frames + 1) as u64,
                ..a
            }) && w.plc_run == v.plc_run + 1
            &&& v.plan().1 matches Some(FrameCall::Decode(_)) ==> w.plc_run == 0 && if w.next_seq
                == Some((ns + 1) as u64) {
                b == a
            } else {
                b == (JitterStats {
                    lost_skipped: (a.lost_skipped + (w.next_seq.unwrap() - 1 - ns)) as u64,
                    resyncs: (a.resyncs + 1) as u64,
                    ..a
                })
            }
            &&& v.plan().1 is None ==> b == (JitterStats {
                underruns: (a.underruns + 1) as u64,
                ..a
            }) && w.plc_run == 0
        }),
{
    if !v.packets.is_empty() {
        packets::lemma_extreme_keys(v.packets);
        assert(v.packets.contains_key(packets::first_key(v.packets)));
    }
}

/// The target delay goes up by 10 ms with the third concealed frame in a row and by 20 ms when
/// the buffer runs dry, up to its maximum, and the count of clean samples starts over; no other
/// decision touches them. Only running dry ends playback.
pub proof fn lemma_trouble_raises_target<S>(v: JitterView<S>)
    requires
        v.wf(),
        v.playable(),
    ensures
        ({
            let w = v.plan().0;
            let third = v.plan().1 == Some(FrameCall::Conceal) && v.plc_run == 2;
            let dry = v.plan().1 is None;
            let max = v.cfg.max_target_ms;
            &&& third ==> w.clean_samples == 0 && w.target_ms == (if v.target_ms + 10 > max {
                max as int
            } else {
                v.target_ms + 10
            })
            &&& dry ==> w.clean_samples == 0 && w.target_ms == (if v.target_ms + 20 > max {
                max as int
            } else {
                v.target_ms + 20
            })
            &&& !third && !dry ==> w.clean_samples == v.clean_samples && w.target_ms
                == v.target_ms
            &&& w.state == if dry {
                State::Buffering
            } else {
                v.state
            }
        }),
{
    if !v.packets.is_empty() {
        packets::lemma_extreme_keys(v.packets);
        assert(v.packets.contains_key(packets::first_key(v.packets)));
    }
}

/// A clean portion of `n` samples counts towards the time after which the target delay goes
/// down. Once it is reached, and the buffer spans the target delay, the target goes down by 10 ms,
/// not below its minimum, and the count starts over. Nothing else changes.
pub proof fn lemma_clean_run<S>(v: JitterView<S>, n: int)
    requires
        v.wf(),
        n >= 0,
        v.clean_samples + n <= u64::MAX,
    ensures
        ({
            let w = v.settled(n);
            let reached = v.clean_samples + n >= v.cfg.decrease_after_s * v.cfg.sample_rate
                && v.target_ms > v.cfg.min_target_ms && v.fill() * 1000 > v.target_ms
                * v.cfg.sample_rate - 1000;
            &&& reached ==> w.clean_samples == 0 && w.target_ms == (if v.target_ms - 10
                < v.cfg.min_target_ms {
                v.cfg.min_target_ms as int
            } else {
                v.target_ms - 10
            })
            &&& !reached ==> w.target_ms == v.target_ms && w.clean_samples == v.clean_samples + n
            &&& w.target_ms < v.target_ms ==> w.clean_samples == 0
            &&& w == (JitterView {
                target_ms: w.target_ms,
                clean_samples: w.clean_samples,
                ..v
            })
        }),
{
    lemma_delays_in_samples(v);
}

// ---------------------------------------------------------------------------------------------
// Pulling.

/// The buffer spans its target delay, stated in samples over its newest number.
pub open spec fn spans_target<S>(v: JitterView<S>, newest: u64) -> bool {
    &&& v.packets.contains_key(newest)
    &&& forall|k: u64| #[trigger] v.packets.contains_key(k) ==> k <= newest
    &&& (newest - v.next_seq.unwrap() + 1) * v.cfg.frame_samples + v.fifo.len() >= v.target_ms
        * v.cfg.sample_rate / 1000
}

/// The buffer plays: it does already, or it spans its target delay.
pub open spec fn plays<S>(v: JitterView<S>) -> bool {
    &&& v.next_seq is Some
    &&& v.state == State::Playing || v.fill() * 1000 > v.target_ms * v.cfg.sample_rate - 1000
}

/// The buffer can be pulled from.
pub open spec fn can_pull<S>(v: JitterView<S>, n: int) -> bool {
    v.wf() && v.seq_in_range() && v.stats.pulled_samples + n <= u64::MAX
}

/// While it buffers and does not span its target delay, a buffer hands out silence, does not
/// touch the decoder, and keeps everything but the counters.
pub proof fn lemma_pull_waits<S: Copy + Default, D: FrameDecoder<S>>(
    jb: &mut JitterBuffer<S>,
    out: &mut [S],
    dec: &mut D,
    info: PullInfo,
)
    requires
        can_pull(old(jb)@, old(out)@.len() as int),
        old(jb)@.state == State::Buffering,
        old(jb)@.next_seq is None || old(jb)@.fill() * 1000 <= old(jb)@.target_ms
            * old(jb)@.cfg.sample_rate - 1000,
        call_ensures(JitterBuffer::<S>::pull::<D>, (jb, out, dec), info),
    ensures
        info.silence_samples == old(out)@.len(),
        final(out)@.len() == old(out)@.len(),
        forall|i: int| 0 <= i < final(out)@.len() ==> final(out)@[i] == old(jb)@.silence,
        *final(dec) == *old(dec),
        final(jb)@ == (JitterView {
            stats: JitterStats {
                pulled_samples: (old(jb)@.stats.pulled_samples + old(out)@.len()) as u64,
                silence_samples: (old(jb)@.stats.silence_samples + old(out)@.len()) as u64,
                ..old(jb)@.stats
            },
            ..old(jb)@
        }),
{
    lemma_delays_in_samples(old(jb)@);
}

/// Samples that are decoded already go out first: where they suffice, nothing is decoded, and the
/// rest of them stays. The portion counts as clean.
pub proof fn lemma_pull_leftovers<S: Copy + Default, D: FrameDecoder<S>>(
    jb: &mut JitterBuffer<S>,
    out: &mut [S],
    dec: &mut D,
    info: PullInfo,
)
    requires
        can_pull(old(jb)@, old(out)@.len() as int),
        plays(old(jb)@),
        old(out)@.len() <= old(jb)@.fifo.len(),
        call_ensures(JitterBuffer::<S>::pull::<D>, (jb, out, dec), info),
    ensures
        info.silence_samples == 0,
        final(out)@ == old(jb)@.fifo.take(old(out)@.len() as int),
        *final(dec) == *old(dec),
        final(jb)@ == (JitterView {
            state: State::Playing,
            fifo: old(jb)@.fifo.skip(old(out)@.len() as int),
            stats: JitterStats {
                pulled_samples: (old(jb)@.stats.pulled_samples + old(out)@.len()) as u64,
                ..old(jb)@.stats
            },
            ..old(jb)@
        }).settled(old(out)@.len() as int),
{
    let v = old(jb)@;
    let n = old(out)@.len() as int;
    lemma_delays_in_samples(v);
    let run = choose|run: Seq<jitter::Produced<S, D>>| #[trigger]
        jitter::pull_outcome(
            v,
            *old(dec),
            n,
            run,
            final(out)@,
            info.silence_samples as int,
            final(jb)@,
            *final(dec),
        );
    if run.len() > 0 {
        assert(jitter::frame_ok(pull_laws::set_out(v, n), *old(dec), run, n, 0));
        assert(run.take(0) =~= Seq::empty());
    }
}

/// A portion of at most one frame from a buffer that plays and has no samples left over: one frame is
/// decoded, as was decided; its start goes out and its rest stays. The portion counts as clean.
pub proof fn lemma_pull_one_frame<S: Copy + Default, D: FrameDecoder<S>>(
    jb: &mut JitterBuffer<S>,
    out: &mut [S],
    dec: &mut D,
    info: PullInfo,
)
    requires
        can_pull(old(jb)@, old(out)@.len() as int),
        plays(old(jb)@),
        old(jb)@.fifo.len() == 0,
        0 < old(out)@.len() <= old(jb)@.cfg.frame_samples,
        counted(old(jb)@, old(out)@.len() as int).plan().1 is Some,
        call_ensures(JitterBuffer::<S>::pull::<D>, (jb, out, dec), info),
    ensures
        info.silence_samples == 0,
        decoded_one(
            old(jb)@,
            *old(dec),
            counted(old(jb)@, old(out)@.len() as int).plan().1.unwrap(),
            old(out)@.len() as int,
            final(out)@,
            final(jb)@,
            *final(dec),
        ),
{
    let v = old(jb)@;
    let n = old(out)@.len() as int;
    lemma_delays_in_samples(v);
    let start = pull_laws::set_out(v, n);
    assert(start == counted(v, n));
    let run = choose|run: Seq<jitter::Produced<S, D>>| #[trigger]
        jitter::pull_outcome(
            v,
            *old(dec),
            n,
            run,
            final(out)@,
            info.silence_samples as int,
            final(jb)@,
            *final(dec),
        );
    let none = Seq::<jitter::Produced<S, D>>::empty();
    if run.len() == 0 {
        assert(jitter::after_frames(start, run) == start);
        assert(false);
    }
    assert(jitter::frame_ok(start, *old(dec), run, n, 0));
    assert(run.take(0) =~= none);
    assert(jitter::after_frames(start, none) == start);
    let one = run.take(1);
    assert(one.drop_last() =~= none);
    assert(one.last() == run[0]);
    let u = jitter::after_frames(start, one);
    assert(u.fifo =~= run[0].frame);
    if run.len() > 1 {
        assert(jitter::frame_ok(start, *old(dec), run, n, 1));
        assert(false);
    }
    assert(one =~= run);
    assert(is_one_frame(
        v,
        *old(dec),
        start.plan().1.unwrap(),
        n,
        final(out)@,
        final(jb)@,
        *final(dec),
        run[0].frame,
    ));
}

/// The buffer set to play, with `n` more samples counted as pulled.
pub open spec fn counted<S>(v: JitterView<S>, n: int) -> JitterView<S> {
    JitterView {
        state: State::Playing,
        stats: JitterStats {
            pulled_samples: (v.stats.pulled_samples + n) as u64,
            ..v.stats
        },
        ..v
    }
}

/// `frame` is a frame that the decoder may give for the call; `out` is its start, and the buffer
/// keeps its rest.
pub open spec fn is_one_frame<S, D: FrameDecoder<S>>(
    v: JitterView<S>,
    d: D,
    call: FrameCall,
    n: int,
    out: Seq<S>,
    w: JitterView<S>,
    d2: D,
    frame: Seq<S>,
) -> bool {
    &&& frame.len() == v.cfg.frame_samples
    &&& D::step(
        d,
        call,
        jitter::resized(v.scratch, v.cfg.frame_samples as int, v.silence),
        d2,
        frame,
    )
    &&& out == frame.take(n)
    &&& w == (JitterView {
        fifo: frame.skip(n),
        scratch: frame,
        ..counted(v, n).plan().0
    }).settled(n)
}

/// One frame was decoded for the portion `out`.
pub open spec fn decoded_one<S, D: FrameDecoder<S>>(
    v: JitterView<S>,
    d: D,
    call: FrameCall,
    n: int,
    out: Seq<S>,
    w: JitterView<S>,
    d2: D,
) -> bool {
    exists|frame: Seq<S>| #[trigger] is_one_frame(v, d, call, n, out, w, d2, frame)
}

/// A buffer that plays, has no samples left and was concealed as long as allowed runs dry: the
/// portion is silence, and the buffer buffers again with a higher target delay.
pub proof fn lemma_pull_runs_dry<S: Copy + Default, D: FrameDecoder<S>>(
    jb: &mut JitterBuffer<S>,
    out: &mut [S],
    dec: &mut D,
    info: PullInfo,
)
    requires
        can_pull(old(jb)@, old(out)@.len() as int),
        plays(old(jb)@),
        old(jb)@.fifo.len() == 0,
        old(jb)@.packets.is_empty(),
        old(jb)@.plc_run >= old(jb)@.cfg.plc_limit_frames,
        old(out)@.len() > 0,
        call_ensures(JitterBuffer::<S>::pull::<D>, (jb, out, dec), info),
    ensures
        info.silence_samples == old(out)@.len(),
        forall|i: int| 0 <= i < final(out)@.len() ==> final(out)@[i] == old(jb)@.silence,
        *final(dec) == *old(dec),
        final(jb)@.state == State::Buffering,
        final(jb)@.fifo.len() == 0,
        final(jb)@.packets.is_empty(),
        final(jb)@.next_seq == old(jb)@.next_seq,
        final(jb)@.plc_run == 0,
        final(jb)@.clean_samples == 0,
        final(jb)@.target_ms == (if old(jb)@.target_ms + 20 > old(jb)@.cfg.max_target_ms {
            old(jb)@.cfg.max_target_ms as int
        } else {
            old(jb)@.target_ms + 20
        }),
        final(jb)@.stats == (JitterStats {
            underruns: (old(jb)@.stats.underruns + 1) as u64,
            pulled_samples: (old(jb)@.stats.pulled_samples + old(out)@.len()) as u64,
            silence_samples: (old(jb)@.stats.silence_samples + old(out)@.len()) as u64,
            ..old(jb)@.stats
        }),
{
    let v = old(jb)@;
    let n = old(out)@.len() as int;
    lemma_delays_in_samples(v);
    let start = pull_laws::set_out(v, n);
    let run = choose|run: Seq<jitter::Produced<S, D>>| #[trigger]
        jitter::pull_outcome(
            v,
            *old(dec),
            n,
            run,
            final(out)@,
            info.silence_samples as int,
            final(jb)@,
            *final(dec),
        );
    let none = Seq::<jitter::Produced<S, D>>::empty();
    assert(v.packets =~= Map::empty());
    assert(jitter::after_frames(start, none) == start);
    if run.len() > 0 {
        assert(jitter::frame_ok(start, *old(dec), run, n, 0));
        assert(run.take(0) =~= none);
        assert(false);
    }
    assert(run =~= none);
}

/// Buffering ends: a buffer that buffers, spans its target delay and has the next packet at hand
/// plays, whatever happened to it before. The samples left over go out first, then the frame of
/// that packet; up to there is no silence, and a portion that ends there leaves it playing.
pub proof fn lemma_buffering_ends<S: Copy + Default, D: FrameDecoder<S>>(
    jb: &mut JitterBuffer<S>,
    out: &mut [S],
    dec: &mut D,
    info: PullInfo,
    newest: u64,
)
    requires
        can_pull(old(jb)@, old(out)@.len() as int),
        old(out)@.len() > 0,
        old(jb)@.cfg.frame_samples > 0,
        old(jb)@.next_seq is Some,
        old(jb)@.state == State::Playing || spans_target(old(jb)@, newest),
        old(jb)@.packets.contains_key(old(jb)@.next_seq.unwrap()),
        call_ensures(JitterBuffer::<S>::pull::<D>, (jb, out, dec), info),
    ensures
        info.silence_samples == 0 || info.silence_samples + old(jb)@.fifo.len()
            + old(jb)@.cfg.frame_samples <= old(out)@.len(),
        old(out)@.len() <= old(jb)@.fifo.len() + old(jb)@.cfg.frame_samples
            ==> info.silence_samples == 0 && final(jb)@.state == State::Playing,
        old(out)@.len() <= old(jb)@.fifo.len() ==> final(out)@ == old(jb)@.fifo.take(
            old(out)@.len() as int,
        ),
        old(out)@.len() > old(jb)@.fifo.len() ==> begins_with_packet(
            old(jb)@,
            *old(dec),
            final(out)@,
        ),
{
    let v = old(jb)@;
    let n = old(out)@.len() as int;
    let f = v.cfg.frame_samples;
    let ns = v.next_seq.unwrap();
    if v.state == State::Buffering {
        lemma_span(v, newest);
    }
    let start = pull_laws::set_out(v, n);
    let run = choose|run: Seq<jitter::Produced<S, D>>| #[trigger]
        jitter::pull_outcome(
            v,
            *old(dec),
            n,
            run,
            final(out)@,
            info.silence_samples as int,
            final(jb)@,
            *final(dec),
        );
    let none = Seq::<jitter::Produced<S, D>>::empty();
    assert(jitter::after_frames(start, none) == start);
    let end = jitter::after_frames(start, run);
    lemma_run_extends(start, *old(dec), run, n);
    if n <= v.fifo.len() {
        if run.len() > 0 {
            assert(jitter::frame_ok(start, *old(dec), run, n, 0));
            assert(run.take(0) =~= none);
            assert(false);
        }
        assert(run =~= none);
    } else {
        if run.len() == 0 {
            assert(run =~= none);
            assert(false);
        }
        assert(jitter::frame_ok(start, *old(dec), run, n, 0));
        assert(run.take(0) =~= none);
        let frame = run[0].frame;
        lemma_run_first(start, *old(dec), run, n);
        assert(final(out)@.len() == n);
        let m = if n < v.fifo.len() + f {
            n
        } else {
            v.fifo.len() + f
        };
        assert(final(out)@.take(m) =~= (v.fifo + frame).take(m));
        assert(D::step(
            *old(dec),
            FrameCall::Decode(v.packets[ns]),
            jitter::resized(v.scratch, f as int, v.silence),
            run[0].dec,
            frame,
        ));
        assert(is_beginning(v, *old(dec), final(out)@, frame, run[0].dec));
    }
}

/// `out` begins with the samples left over and then the frame of the packet whose turn it is, as
/// far as it reaches.
pub open spec fn is_beginning<S, D: FrameDecoder<S>>(
    v: JitterView<S>,
    d: D,
    out: Seq<S>,
    frame: Seq<S>,
    d1: D,
) -> bool {
    let m = if out.len() < v.fifo.len() + v.cfg.frame_samples {
        out.len() as int
    } else {
        (v.fifo.len() + v.cfg.frame_samples) as int
    };
    &&& frame.len() == v.cfg.frame_samples
    &&& D::step(
        d,
        FrameCall::Decode(v.packets[v.next_seq.unwrap()]),
        jitter::resized(v.scratch, v.cfg.frame_samples as int, v.silence),
        d1,
        frame,
    )
    &&& out.take(m) == (v.fifo + frame).take(m)
}

/// `out` begins with what is left over and the frame of the packet whose turn it is.
pub open spec fn begins_with_packet<S, D: FrameDecoder<S>>(
    v: JitterView<S>,
    d: D,
    out: Seq<S>,
) -> bool {
    exists|frame: Seq<S>, d1: D| #[trigger] is_beginning(v, d, out, frame, d1)
}

/// Frames are appended to the samples at hand; playback goes on.
proof fn lemma_run_extends<S, D: FrameDecoder<S>>(
    v: JitterView<S>,
    d: D,
    run: Seq<jitter::Produced<S, D>>,
    n: int,
)
    requires
        forall|i: int| 0 <= i < run.len() ==> #[trigger] jitter::frame_ok(v, d, run, n, i),
    ensures
        jitter::after_frames(v, run).state == v.state,
        jitter::after_frames(v, run).fifo.len() == v.fifo.len() + run.len() * v.cfg.frame_samples,
        v.fifo == jitter::after_frames(v, run).fifo.take(v.fifo.len() as int),
    decreases run.len(),
{
    if run.len() > 0 {
        let k = run.len() - 1;
        let shorter = run.drop_last();
        assert forall|i: int| 0 <= i < shorter.len() implies #[trigger] jitter::frame_ok(
            v,
            d,
            shorter,
            n,
            i,
        ) by {
            assert(jitter::frame_ok(v, d, run, n, i));
            assert(shorter.take(i) =~= run.take(i));
        }
        lemma_run_extends(v, d, shorter, n);
        assert(jitter::frame_ok(v, d, run, n, k as int));
        assert(run.take(k as int) =~= shorter);
        let f = v.cfg.frame_samples;
        assert(run.len() * f == k * f + f) by (nonlinear_arith)
            requires
                run.len() == k + 1,
        ;
        assert(v.fifo =~= jitter::after_frames(v, run).fifo.take(v.fifo.len() as int));
    } else {
        assert(v.fifo =~= v.fifo.take(v.fifo.len() as int));
        assert(run.len() * v.cfg.frame_samples == 0) by (nonlinear_arith)
            requires
                run.len() == 0,
        ;
    }
}

/// The first frame of a run comes right after the samples at hand.
proof fn lemma_run_first<S, D: FrameDecoder<S>>(
    v: JitterView<S>,
    d: D,
    run: Seq<jitter::Produced<S, D>>,
    n: int,
)
    requires
        run.len() > 0,
        forall|i: int| 0 <= i < run.len() ==> #[trigger] jitter::frame_ok(v, d, run, n, i),
    ensures
        jitter::after_frames(v, run).fifo.len() >= v.fifo.len() + v.cfg.frame_samples,
        v.fifo + run[0].frame == jitter::after_frames(v, run).fifo.take(
            v.fifo.len() + v.cfg.frame_samples,
        ),
    decreases run.len(),
{
    let none = Seq::<jitter::Produced<S, D>>::empty();
    assert(jitter::frame_ok(v, d, run, n, 0));
    assert(run.take(0) =~= none);
    assert(jitter::after_frames(v, none) == v);
    if run.len() == 1 {
        assert(run.drop_last() =~= none);
        assert(v.fifo + run[0].frame =~= jitter::after_frames(v, run).fifo.take(
            v.fifo.len() + v.cfg.frame_samples,
        ));
    } else {
        let shorter = run.drop_last();
        assert forall|i: int| 0 <= i < shorter.len() implies #[trigger] jitter::frame_ok(
            v,
            d,
            shorter,
            n,
            i,
        ) by {
            assert(jitter::frame_ok(v, d, run, n, i));
            assert(shorter.take(i) =~= run.take(i));
        }
        lemma_run_first(v, d, shorter, n);
        assert(jitter::after_frames(v, run).fifo.take(v.fifo.len() + v.cfg.frame_samples)
            =~= jitter::after_frames(v, shorter).fifo.take(v.fifo.len() + v.cfg.frame_samples));
    }
}

/// A decoder gets the frame that was decoded before, cut or filled up with silence to the length
/// of a frame.
pub proof fn lemma_frame_given<S>(s: Seq<S>, n: int, x: S)
    requires
        n >= 0,
    ensures
        jitter::resized(s, n, x).len() == n,
        forall|i: int|
            0 <= i < n && i < s.len() ==> #[trigger] jitter::resized(s, n, x)[i] == s[i],
        forall|i: int| s.len() <= i < n ==> #[trigger] jitter::resized(s, n, x)[i] == x,
        jitter::repeated(x, n).len() == n,
        forall|i: int| 0 <= i < n ==> #[trigger] jitter::repeated(x, n)[i] == x,
{
}

// ---------------------------------------------------------------------------------------------
// The target delay over time.

/// Decoded frames do not lower the target delay, and add nothing to the count of clean samples.
proof fn lemma_frames_target<S, D>(v: JitterView<S>, run: Seq<jitter::Produced<S, D>>)
    requires
        v.target_ms <= v.cfg.max_target_ms,
    ensures
        ({
            let u = jitter::after_frames(v, run);
            &&& u.cfg == v.cfg
            &&& v.target_ms <= u.target_ms <= v.cfg.max_target_ms
            &&& u.clean_samples <= v.clean_samples
        }),
    decreases run.len(),
{
    if run.len() > 0 {
        lemma_frames_target(v, run.drop_last());
    }
}

/// A pull of `n` samples either leaves the target delay where it is or higher, or it reaches the
/// end of the clean run, lowers the target by 10 ms at most, and starts the run over.
proof fn lemma_pull_target<S, D: FrameDecoder<S>>(v: JitterView<S>, d: D, p: Pull<S, D>)
    requires
        v.wf(),
        0 <= p.n,
        v.stats.pulled_samples + p.n <= u64::MAX,
        p.n < v.cfg.decrease_after_s * v.cfg.sample_rate,
        jitter::pull_outcome(v, d, p.n, p.run, p.out, p.silence, p.after, p.dec),
    ensures
        p.after.cfg == v.cfg,
        p.after.stats.pulled_samples == v.stats.pulled_samples + p.n,
        ({
            ||| p.after.target_ms >= v.target_ms && p.after.clean_samples <= v.clean_samples + p.n
            ||| p.after.target_ms >= v.target_ms - 10 && p.after.clean_samples == 0
                && v.clean_samples + p.n >= v.cfg.decrease_after_s * v.cfg.sample_rate
        }),
{
    if v.state == State::Buffering && !jitter::may_start(v) {
    } else {
        let start = pull_laws::set_out(v, p.n);
        let end = jitter::after_frames(start, p.run);
        lemma_frames_target(start, p.run);
        lemma_pulled_count(start, d, p.run, p.n);
    }
}

/// Decoded frames do not touch the count of pulled samples.
proof fn lemma_pulled_count<S, D: FrameDecoder<S>>(
    v: JitterView<S>,
    d: D,
    run: Seq<jitter::Produced<S, D>>,
    n: int,
)
    ensures
        jitter::after_frames(v, run).stats.pulled_samples == v.stats.pulled_samples,
    decreases run.len(),
{
    if run.len() > 0 {
        lemma_pulled_count(v, d, run.drop_last(), n);
    }
}

/// The target delay goes down in steps of 10 ms, and a step takes its time: between two of them
/// at least the configured time is played. Pulls that take less than that in all lower it by one
/// step at most; where that time is not over since the last trouble or the last step, not at all.
pub proof fn lemma_target_takes_its_time<S, D: FrameDecoder<S>>(
    v: JitterView<S>,
    d: D,
    pulls: Seq<Pull<S, D>>,
)
    requires
        v.wf(),
        pulls.len() > 0,
        pull_laws::in_turn(v, d, pulls),
        v.stats.pulled_samples + pull_laws::total(pulls) <= u64::MAX,
        pull_laws::total(pulls) < v.cfg.decrease_after_s * v.cfg.sample_rate,
    ensures
        pulls.last().after.target_ms >= v.target_ms - 10,
        v.clean_samples + pull_laws::total(pulls) < v.cfg.decrease_after_s * v.cfg.sample_rate
            ==> pulls.last().after.target_ms >= v.target_ms,
    decreases pulls.len(),
{
    let p = pulls[0];
    let rest = pulls.drop_first();
    lemma_total_nonneg(p.after, p.dec, rest);
    lemma_pull_target(v, d, p);
    if rest.len() > 0 {
        assert(rest.last() == pulls.last());
        lemma_target_takes_its_time(p.after, p.dec, rest);
    }
}

/// The sizes of pulls are not negative.
proof fn lemma_total_nonneg<S, D: FrameDecoder<S>>(v: JitterView<S>, d: D, pulls: Seq<Pull<S, D>>)
    requires
        pull_laws::in_turn(v, d, pulls),
    ensures
        pull_laws::total(pulls) >= 0,
    decreases pulls.len(),
{
    if pulls.len() > 0 {
        lemma_total_nonneg(pulls[0].after, pulls[0].dec, pulls.drop_first());
    }
}

} // verus!
