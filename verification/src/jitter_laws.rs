//! What holds of the jitter buffer over several operations.

use crate::jitter;
use crate::jitter::{FrameCall, FrameDecoder, JitterConfig, JitterStats, JitterView, Produced, State};
use crate::jitter::{MAX_SEQ, SEQ_HALF, SEQ_ROOM, SEQ_WRAP};
use crate::packets;
use crate::protocol::Codec;
use vstd::prelude::*;

verus! {

/// An extended number agrees with the number on the wire in its low 32 bits.
pub proof fn lemma_extended_agrees(last: Option<u64>, seq: u32)
    ensures
        extended_low(jitter::extended(last, seq)) == seq,
        jitter::extended(last, seq) >= 0,
{
}

/// The low 32 bits of an extended number.
pub open spec fn extended_low(ext: int) -> int {
    ext % (SEQ_WRAP as int)
}

/// An extended number is the one nearest to the last number seen, of all numbers that agree with
/// the number on the wire. It is at most half a round away, unless that number would be
/// negative: there it is the number on the wire itself.
pub proof fn lemma_extended_nearest(last: u64, seq: u32)
    requires
        last <= MAX_SEQ,
    ensures
        ({
            let e = jitter::extended(Some(last), seq);
            &&& e >= 0
            &&& extended_low(e) == seq
            &&& -SEQ_HALF <= e - last <= SEQ_HALF || e == seq && seq - last > SEQ_HALF
            &&& forall|k: int|
                k >= 0 && #[trigger] extended_low(k) == seq ==> {
                    ||| e - last <= k - last && last - e <= k - last
                    ||| e - last <= last - k && last - e <= last - k
                }
        }),
        jitter::extended(None, seq) == seq,
{
}

/// Wrap-around survives: a number less than half a round away from the last one, before or
/// after, is recognised from its low 32 bits.
pub proof fn lemma_extended_recovers(last: u64, ext: u64)
    requires
        last <= MAX_SEQ,
        -SEQ_HALF < ext - last < SEQ_HALF,
    ensures
        jitter::extended(Some(last), (ext % SEQ_WRAP) as u32) == ext,
{
}

/// Consecutive packets get consecutive numbers, also where the number on the wire wraps.
pub proof fn lemma_extended_successor(last: u64, seq: u32)
    requires
        last <= MAX_SEQ,
        last % SEQ_WRAP == seq,
    ensures
        jitter::extended(Some(last), if seq == u32::MAX { 0 } else { (seq + 1) as u32 }) == last
            + 1,
{
}

/// A late packet changes nothing but the counters and the last number seen.
pub proof fn lemma_late_packet_dropped<S>(v: JitterView<S>, seq: u32, payload: Seq<u8>)
    requires
        v.wf(),
        v.seq_in_range(),
        v.stats.pushed < u64::MAX,
        v.next_seq matches Some(ns) && jitter::extended(v.last_ext, seq) < ns,
    ensures
        v.pushed(seq, payload) == (JitterView {
            last_ext: Some(jitter::extended(v.last_ext, seq) as u64),
            stats: JitterStats {
                pushed: (v.stats.pushed + 1) as u64,
                late: (v.stats.late + 1) as u64,
                ..v.stats
            },
            ..v
        }),
{
}

/// The hard cap leaves room: it is not smaller than the largest target delay, or a single frame,
/// and another frame.
pub open spec fn cap_is_roomy(cfg: JitterConfig) -> bool {
    let cap = cfg.hard_cap_ms * cfg.sample_rate / 1000;
    &&& cfg.max_target_ms * cfg.sample_rate / 1000 + cfg.frame_samples <= cap
    &&& 2 * cfg.frame_samples <= cap
}

/// The receiver's settings are valid for both codecs, and their hard cap leaves room.
pub proof fn lemma_standard_settings(codec: Codec, start_target_ms: u32)
    ensures
        JitterConfig::standard(codec.samples_per_frame(), start_target_ms).valid(),
        cap_is_roomy(JitterConfig::standard(codec.samples_per_frame(), start_target_ms)),
{
    let f = codec.samples_per_frame();
    assert((500 + 2) * f <= 0x10_0000 && (500 + 2) * f * 1000 <= 0x4000_0000);
}

/// A jump ahead to within `keep` frames of the newest packet leaves a span of `keep` frames.
proof fn lemma_forwarded_fill<S>(v: JitterView<S>, to: u64)
    requires
        v.wf(),
        v.next_seq matches Some(ns) && ns < to,
        !v.packets.is_empty(),
        to <= packets::last_key(v.packets),
    ensures
        v.forwarded(to).fill() == (packets::last_key(v.packets) - to + 1) * v.cfg.frame_samples,
        !v.forwarded(to).packets.is_empty(),
        packets::last_key(v.forwarded(to).packets) == packets::last_key(v.packets),
{
    packets::lemma_extreme_keys(v.packets);
    let hi = packets::last_key(v.packets);
    let rest = v.forwarded(to).packets;
    assert(rest.contains_key(hi));
    assert(packets::is_last_key(rest, hi));
    assert(rest.dom().subset_of(v.packets.dom()));
    packets::lemma_count_split(v.packets, to);
    packets::lemma_extreme_keys(rest);
}

/// Applying the hard cap brings the span under it.
proof fn lemma_capped_fill<S>(v: JitterView<S>)
    requires
        v.wf(),
        v.next_seq is Some,
        cap_is_roomy(v.cfg),
    ensures
        v.capped().fill() <= v.cap_samples(),
{
    let f = v.cfg.frame_samples as int;
    if v.fill() > v.cap_samples() && !v.packets.is_empty() {
        packets::lemma_extreme_keys(v.packets);
        let hi = packets::last_key(v.packets);
        let ns = v.next_seq.unwrap();
        assert(v.packets.contains_key(hi));
        let keep = v.keep_frames();
        let target = v.target_samples();
        assert(f > 0) by {
            if f == 0 {
                assert((hi - ns + 1) * f == 0) by (nonlinear_arith)
                    requires
                        f == 0,
                ;
            }
        }
        assert(target <= v.cfg.max_target_ms * v.cfg.sample_rate / 1000) by {
            assert(v.target_ms * v.cfg.sample_rate <= v.cfg.max_target_ms * v.cfg.sample_rate)
                by (nonlinear_arith)
                requires
                    v.target_ms <= v.cfg.max_target_ms,
            ;
        }
        assert(0 <= target) by {
            assert(0 <= v.target_ms * v.cfg.sample_rate) by (nonlinear_arith);
        }
        assert(keep * f <= target || keep * f <= f) by (nonlinear_arith)
            requires
                f > 0,
                target >= 0,
                keep == (if target / f < 1 {
                    1int
                } else {
                    target / f
                }),
        ;
        let to = hi - (keep - 1);
        if to > ns {
            lemma_forwarded_fill(v, to as u64);
            assert((hi - to + 1) == keep);
        } else {
            assert((hi - ns + 1) * f <= keep * f) by (nonlinear_arith)
                requires
                    hi - ns + 1 <= keep,
                    f > 0,
            ;
        }
    }
}

/// The buffer never holds more than its hard cap: a push keeps the span under it, whatever
/// arrives.
pub proof fn lemma_push_keeps_hard_cap<S>(v: JitterView<S>, seq: u32, payload: Seq<u8>)
    requires
        v.wf(),
        v.seq_in_range(),
        v.stats.pushed < u64::MAX,
        cap_is_roomy(v.cfg),
        v.fill() <= v.cap_samples(),
    ensures
        v.pushed(seq, payload).fill() <= v.cap_samples(),
{
    jitter::lemma_pushed_wf(v, seq, payload);
    let ext = jitter::extended(v.last_ext, seq) as u64;
    let u = JitterView {
        last_ext: Some(ext),
        stats: JitterStats { pushed: (v.stats.pushed + 1) as u64, ..v.stats },
        ..v
    };
    match v.next_seq {
        None => {
            let w = v.pushed(seq, payload);
            assert(w.packets =~= Map::<u64, Seq<u8>>::empty().insert(ext, payload));
            lemma_single_packet_fill(w, ext, payload);
        },
        Some(ns) => {
            if ext < ns {
                assert(v.pushed(seq, payload).fill() == v.fill());
            } else if v.state == State::Buffering && v.packets.is_empty() && v.fifo.len() == 0
                && ext > ns {
                let w = v.pushed(seq, payload);
                assert(w.packets =~= Map::<u64, Seq<u8>>::empty().insert(ext, payload));
                lemma_single_packet_fill(w, ext, payload);
            } else if ext - ns > v.cfg.resync_jump_frames {
                lemma_capped_fill(u.forwarded(ext).stored(ext, payload));
            } else {
                lemma_capped_fill(u.stored(ext, payload));
            }
        },
    }
}

/// A buffer with nothing but the packet to play next spans one frame.
proof fn lemma_single_packet_fill<S>(w: JitterView<S>, ext: u64, payload: Seq<u8>)
    requires
        w.next_seq == Some(ext),
        w.packets == Map::<u64, Seq<u8>>::empty().insert(ext, payload),
        w.fifo.len() == 0,
    ensures
        w.fill() == w.cfg.frame_samples,
{
    assert(w.packets.contains_key(ext));
    assert(!w.packets.is_empty());
    assert(packets::is_last_key(w.packets, ext));
    assert(packets::last_key(w.packets) == ext);
    assert((packets::last_key(w.packets) - ext + 1) * w.cfg.frame_samples == w.cfg.frame_samples)
        by (nonlinear_arith)
        requires
            packets::last_key(w.packets) == ext,
    ;
}

/// A jump of the sequence number by more than the limit starts afresh at the live edge: only the
/// new packet is kept, and it plays next.
pub proof fn lemma_huge_jump_goes_to_live_edge<S>(v: JitterView<S>, seq: u32, payload: Seq<u8>)
    requires
        v.wf(),
        v.seq_in_range(),
        v.stats.pushed < u64::MAX,
        v.next_seq matches Some(ns) && jitter::extended(v.last_ext, seq) - ns
            > v.cfg.resync_jump_frames,
    ensures
        ({
            let ext = jitter::extended(v.last_ext, seq) as u64;
            let w = v.pushed(seq, payload);
            &&& w.next_seq == Some(ext)
            &&& w.packets == Map::<u64, Seq<u8>>::empty().insert(ext, payload)
            &&& w.fifo.len() == 0
            &&& w.fill() == v.cfg.frame_samples
        }),
{
    let ext = jitter::extended(v.last_ext, seq) as u64;
    let ns = v.next_seq.unwrap();
    let u = JitterView {
        last_ext: Some(ext),
        stats: JitterStats { pushed: (v.stats.pushed + 1) as u64, ..v.stats },
        ..v
    };
    let w = v.pushed(seq, payload);
    assert(Map::<u64, Seq<u8>>::empty().insert(ext, payload).contains_key(ext));
    if v.state == State::Buffering && v.packets.is_empty() && v.fifo.len() == 0 {
        assert(w.packets =~= Map::<u64, Seq<u8>>::empty().insert(ext, payload));
    } else {
        let x = u.forwarded(ext).stored(ext, payload);
        assert forall|k: u64| #[trigger] packets::from_key(v.packets, ext).contains_key(k)
            implies false by {
            assert(v.packets.contains_key(k));
        }
        assert(x.packets =~= Map::<u64, Seq<u8>>::empty().insert(ext, payload));
        lemma_single_packet_fill(x, ext, payload);
        assert(packets::is_last_key(x.packets, ext));
        assert(x.keep_frames() >= 1);
        assert(x.capped() == x);
    }
    lemma_single_packet_fill(w, ext, payload);
}

/// A gap of one packet is recovered: the lost frame is rebuilt from the packet after it, and
/// that packet then plays in its own turn.
pub proof fn lemma_single_loss_recovered<S>(v: JitterView<S>, fifo: Seq<S>, scratch: Seq<S>)
    requires
        v.wf(),
        v.playable(),
        ({
            let ns = v.next_seq.unwrap();
            !v.packets.contains_key(ns) && v.packets.contains_key((ns + 1) as u64)
        }),
    ensures
        ({
            let ns = v.next_seq.unwrap();
            let p = v.packets[(ns + 1) as u64];
            let w = JitterView { fifo, scratch, ..v.plan().0 };
            &&& v.plan().1 == Some(FrameCall::DecodeFec(p))
            &&& w.stats.fec_recovered == v.stats.fec_recovered + 1
            &&& w.stats.plc_frames == v.stats.plc_frames
            &&& w.plan().1 == Some(FrameCall::Decode(p))
            &&& w.plan().0.next_seq == Some((ns + 2) as u64)
        }),
{
}

/// A long gap is skipped at once: the oldest packet plays next, and the gap counts as lost.
pub proof fn lemma_long_gap_skipped<S>(v: JitterView<S>)
    requires
        v.wf(),
        v.playable(),
        !v.packets.is_empty(),
        v.gap() > v.cfg.small_gap_frames,
        v.gap() > 1,
    ensures
        ({
            let low = packets::first_key(v.packets);
            let w = v.plan().0;
            &&& v.plan().1 == Some(FrameCall::Decode(v.packets[low]))
            &&& w.next_seq == Some((low + 1) as u64)
            &&& w.stats.lost_skipped == v.stats.lost_skipped + v.gap()
            &&& w.stats.resyncs == v.stats.resyncs + 1
            &&& w.stats.plc_frames == v.stats.plc_frames
        }),
{
    packets::lemma_extreme_keys(v.packets);
    let low = packets::first_key(v.packets);
    let ns = v.next_seq.unwrap();
    assert(v.packets.contains_key(low));
    assert(!v.packets.contains_key(ns));
    assert(!v.packets.contains_key((ns + 1) as u64));
}

/// A short gap is concealed: the next frame is made up, and nothing is dropped.
pub proof fn lemma_short_gap_concealed<S>(v: JitterView<S>)
    requires
        v.wf(),
        v.playable(),
        !v.packets.is_empty(),
        1 < v.gap() <= v.cfg.small_gap_frames,
    ensures
        v.plan().1 == Some(FrameCall::Conceal),
        v.plan().0.packets == v.packets,
        v.plan().0.gap() == v.gap() - 1,
        v.plan().0.stats.plc_frames == v.stats.plc_frames + 1,
        v.plan().0.stats.resyncs == v.stats.resyncs,
        v.plan().0.stats.lost_skipped == v.stats.lost_skipped,
{
    packets::lemma_extreme_keys(v.packets);
    jitter::lemma_plan(v);
    let low = packets::first_key(v.packets);
    let ns = v.next_seq.unwrap();
    assert(v.packets.contains_key(low));
    assert(!v.packets.contains_key(ns));
    assert(!v.packets.contains_key((ns + 1) as u64));
}

/// A dry buffer is concealed only up to the limit; then it buffers again with a higher target.
pub proof fn lemma_dry_buffer<S>(v: JitterView<S>)
    requires
        v.wf(),
        v.playable(),
        v.packets.is_empty(),
    ensures
        v.plc_run < v.cfg.plc_limit_frames ==> {
            &&& v.plan().1 == Some(FrameCall::Conceal)
            &&& v.plan().0.plc_run == v.plc_run + 1
            &&& v.plan().0.packets.is_empty()
        },
        v.plc_run >= v.cfg.plc_limit_frames ==> {
            &&& v.plan().1 is None
            &&& v.plan().0.state == State::Buffering
            &&& v.plan().0.stats.underruns == v.stats.underruns + 1
            &&& v.plan().0.target_ms == if v.target_ms + 20 > v.cfg.max_target_ms {
                v.cfg.max_target_ms as int
            } else {
                v.target_ms + 20
            }
        },
{
    assert(!v.packets.contains_key(v.next_seq.unwrap()));
    assert(!v.packets.contains_key((v.next_seq.unwrap() + 1) as u64));
}

/// `m` packets in a row wait, the first of them to be played next.
pub open spec fn in_a_row<S>(v: JitterView<S>, m: int) -> bool {
    v.next_seq matches Some(ns) && forall|j: int|
        0 <= j < m ==> #[trigger] v.packets.contains_key((ns + j) as u64)
}

/// Packets in a row play in order: each frame is decoded from its own packet, and no counter of
/// trouble moves.
pub proof fn lemma_in_order_playback<S, D: FrameDecoder<S>>(
    v: JitterView<S>,
    d: D,
    run: Seq<Produced<S, D>>,
    n: int,
    m: int,
)
    requires
        v.wf(),
        v.next_seq matches Some(ns) && ns + m <= MAX_SEQ,
        in_a_row(v, m),
        run.len() < m,
        forall|i: int| 0 <= i < run.len() ==> #[trigger] jitter::frame_ok(v, d, run, n, i),
    ensures
        ({
            let ns = v.next_seq.unwrap();
            let u = jitter::after_frames(v, run);
            &&& u.plan().1 == Some(FrameCall::Decode(v.packets[(ns + run.len()) as u64]))
            &&& u.next_seq == Some((ns + run.len()) as u64)
            &&& u.packets == packets::from_key(v.packets, (ns + run.len()) as u64)
            &&& u.stats == v.stats
            &&& u.target_ms == v.target_ms
            &&& u.state == v.state
        }),
    decreases run.len(),
{
    let ns = v.next_seq.unwrap();
    let u = jitter::after_frames(v, run);
    if run.len() == 0 {
        assert(v.packets.contains_key((ns + 0) as u64));
        assert(packets::from_key(v.packets, ns) =~= v.packets) by {
            assert forall|k: u64| v.packets.contains_key(k) implies #[trigger] packets::from_key(
                v.packets,
                ns,
            ).contains_key(k) by {}
        }
    } else {
        let shorter = run.drop_last();
        assert forall|i: int| 0 <= i < shorter.len() implies #[trigger] jitter::frame_ok(
            v,
            d,
            shorter,
            n,
            i,
        ) by {
            assert(jitter::frame_ok(v, d, run, n, i));
            assert(shorter.take(i) =~= run.take(i));
        }
        lemma_in_order_playback(v, d, shorter, n, m);
        let at = (ns + run.len() - 1) as u64;
        assert(v.packets.contains_key((ns + (run.len() - 1)) as u64));
        assert(v.packets.contains_key((ns + run.len()) as u64));
        assert(packets::from_key(v.packets, at).remove(at) =~= packets::from_key(
            v.packets,
            (at + 1) as u64,
        ));
    }
}

/// While the buffer fills up, a pull hands out silence and does not touch the decoder.
pub proof fn lemma_buffering_is_silent<S, D: FrameDecoder<S>>(
    v: JitterView<S>,
    d: D,
    n: int,
    out: Seq<S>,
    silence: int,
    w: JitterView<S>,
    d2: D,
)
    requires
        v.wf(),
        v.state == State::Buffering,
        v.next_seq is None || v.fill() < v.target_samples(),
        jitter::pulled(v, d, n, out, silence, w, d2),
    ensures
        silence == n,
        out == jitter::repeated(v.silence, n),
        d2 == d,
        w.state == State::Buffering,
        w.packets == v.packets,
        w.fifo == v.fifo,
        w.target_ms == v.target_ms,
{
}

/// A pull that ends in silence leaves the buffer buffering; one without silence leaves it
/// playing.
pub proof fn lemma_silence_means_buffering<S, D: FrameDecoder<S>>(
    v: JitterView<S>,
    d: D,
    n: int,
    out: Seq<S>,
    silence: int,
    w: JitterView<S>,
    d2: D,
)
    requires
        v.wf(),
        v.seq_in_range(),
        n > 0,
        v.stats.pulled_samples + n <= u64::MAX,
        jitter::pulled(v, d, n, out, silence, w, d2),
    ensures
        0 <= silence <= n,
        out.len() == n,
        silence > 0 <==> w.state == State::Buffering,
        w.stats.pulled_samples == v.stats.pulled_samples + n,
        w.stats.silence_samples == v.stats.silence_samples + silence,
{
    let run = choose|run: Seq<Produced<S, D>>| #[trigger]
        jitter::pull_outcome(v, d, n, run, out, silence, w, d2);
    assert(jitter::pull_outcome(v, d, n, run, out, silence, w, d2));
    if !(v.state == State::Buffering && !jitter::may_start(v)) {
        let start = JitterView {
            state: State::Playing,
            stats: JitterStats {
                pulled_samples: (v.stats.pulled_samples + n) as u64,
                ..v.stats
            },
            ..v
        };
        lemma_frames_keep_playing(start, d, run, n);
        if silence > 0 {
            lemma_dry_is_underrun(jitter::after_frames(start, run));
        }
    }
}

/// Where the plan is to stop, the buffer is left buffering.
proof fn lemma_dry_is_underrun<S>(v: JitterView<S>)
    requires
        v.plan().1 is None,
    ensures
        v.plan().0 == v.underrun(),
{
}

/// Decoded frames leave the buffer playing, and do not touch the counters of samples.
proof fn lemma_frames_keep_playing<S, D: FrameDecoder<S>>(
    v: JitterView<S>,
    d: D,
    run: Seq<Produced<S, D>>,
    n: int,
)
    requires
        forall|i: int| 0 <= i < run.len() ==> #[trigger] jitter::frame_ok(v, d, run, n, i),
    ensures
        ({
            let u = jitter::after_frames(v, run);
            &&& u.state == v.state
            &&& u.stats.pulled_samples == v.stats.pulled_samples
            &&& u.stats.silence_samples == v.stats.silence_samples
        }),
    decreases run.len(),
{
    if run.len() > 0 {
        let shorter = run.drop_last();
        assert forall|i: int| 0 <= i < shorter.len() implies #[trigger] jitter::frame_ok(
            v,
            d,
            shorter,
            n,
            i,
        ) by {
            assert(jitter::frame_ok(v, d, run, n, i));
            assert(shorter.take(i) =~= run.take(i));
        }
        lemma_frames_keep_playing(v, d, shorter, n);
        assert(jitter::frame_ok(v, d, run, n, run.len() - 1));
        assert(run.take(run.len() - 1) =~= shorter);
    }
}

/// Clean playback lowers the target by 10 ms at most, not below the minimum, and only after the
/// configured time.
pub proof fn lemma_target_lowered_gently<S>(v: JitterView<S>, n: int)
    requires
        v.wf(),
        0 <= n,
        v.clean_samples + n <= u64::MAX,
    ensures
        v.settled(n).target_ms <= v.target_ms,
        v.settled(n).target_ms >= v.target_ms - 10,
        v.settled(n).target_ms >= v.cfg.min_target_ms,
        v.clean_samples + n < v.cfg.decrease_after_s * v.cfg.sample_rate ==> v.settled(n).target_ms
            == v.target_ms,
        v.clean_samples + n >= v.cfg.decrease_after_s * v.cfg.sample_rate && v.target_ms
            > v.cfg.min_target_ms && v.fill() >= v.target_samples() ==> v.settled(n).target_ms
            < v.target_ms,
{
}

/// Reordering does not matter: two packets that are neither late nor far ahead leave the same
/// buffer in either order of arrival, but for the number that was seen last.
pub proof fn lemma_reordering_absorbed<S>(
    v: JitterView<S>,
    a: u64,
    pa: Seq<u8>,
    b: u64,
    pb: Seq<u8>,
)
    requires
        v.wf(),
        v.seq_in_range(),
        v.stats.pushed + 1 < u64::MAX,
        !v.packets.is_empty() || v.fifo.len() > 0 || v.state == State::Playing,
        v.next_seq matches Some(ns) && ns <= a && ns <= b && a - ns <= v.cfg.resync_jump_frames
            && b - ns <= v.cfg.resync_jump_frames,
        v.last_ext matches Some(e) && -SEQ_HALF < a - e < SEQ_HALF && -SEQ_HALF < b - e < SEQ_HALF,
        a != b,
        -SEQ_HALF < a - b < SEQ_HALF,
        v.stored(a, pa).stored(b, pb).fill() <= v.cap_samples(),
        v.stored(a, pa).fill() <= v.cap_samples(),
        v.stored(b, pb).fill() <= v.cap_samples(),
    ensures
        ({
            let sa = (a % SEQ_WRAP) as u32;
            let sb = (b % SEQ_WRAP) as u32;
            let ab = v.pushed(sa, pa).pushed(sb, pb);
            let ba = v.pushed(sb, pb).pushed(sa, pa);
            &&& ab == (JitterView { last_ext: ab.last_ext, ..ba })
            &&& ab.packets == v.packets.insert(a, pa).insert(b, pb)
        }),
{
    let e = v.last_ext.unwrap();
    lemma_extended_recovers(e, a);
    lemma_extended_recovers(e, b);
    lemma_extended_recovers(a, b);
    lemma_extended_recovers(b, a);
    assert(v.packets.insert(a, pa).insert(b, pb) =~= v.packets.insert(b, pb).insert(a, pa));
    assert(v.packets.insert(a, pa).contains_key(a));
    assert(v.packets.insert(b, pb).contains_key(b));
    let va = v.pushed((a % SEQ_WRAP) as u32, pa);
    let vb = v.pushed((b % SEQ_WRAP) as u32, pb);
    assert(va.fill() == v.stored(a, pa).fill());
    assert(vb.fill() == v.stored(b, pb).fill());
    assert(va.packets == v.packets.insert(a, pa));
    assert(vb.packets == v.packets.insert(b, pb));
}

} // verus!
