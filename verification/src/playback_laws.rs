//! What is heard: how the samples that are pulled relate to the packets that were pushed.

use crate::decoder;
use crate::decoder::{PcmDec, PcmLevel};
use crate::jitter;
use crate::jitter::{FrameCall, FrameDecoder, JitterStats, JitterView, Produced, State, MAX_SEQ};
use crate::jitter_laws;
use crate::packets;
use vstd::prelude::*;

verus! {

/// The decoder makes of every payload the frame of `f` samples that `g` gives for it, whatever
/// came before.
pub open spec fn decodes_by<S, D: FrameDecoder<S>>(g: spec_fn(Seq<u8>) -> Seq<S>, f: int) -> bool {
    forall|pre: D, p: Seq<u8>, before: Seq<S>, post: D, after: Seq<S>| #[trigger]
        D::step(pre, FrameCall::Decode(p), before, post, after) && before.len() == f ==> after
            == g(p)
}

/// The frames of `k` packets in a row from the number `ns` on, one after another.
pub open spec fn frames_of<S>(
    packets: Map<u64, Seq<u8>>,
    ns: u64,
    g: spec_fn(Seq<u8>) -> Seq<S>,
    k: int,
) -> Seq<S>
    decreases k,
{
    if k <= 0 {
        Seq::empty()
    } else {
        frames_of(packets, ns, g, k - 1) + g(packets[(ns + (k - 1)) as u64])
    }
}

/// Fewer frames are the start of more frames.
proof fn lemma_frames_prefix<S>(
    packets: Map<u64, Seq<u8>>,
    ns: u64,
    g: spec_fn(Seq<u8>) -> Seq<S>,
    k: int,
    m: int,
)
    requires
        0 <= k <= m,
    ensures
        frames_of(packets, ns, g, k).len() <= frames_of(packets, ns, g, m).len(),
        frames_of(packets, ns, g, k) == frames_of(packets, ns, g, m).take(
            frames_of(packets, ns, g, k).len() as int,
        ),
    decreases m - k,
{
    let a = frames_of(packets, ns, g, k);
    let b = frames_of(packets, ns, g, m);
    if k < m {
        lemma_frames_prefix(packets, ns, g, k, m - 1);
        let c = frames_of(packets, ns, g, m - 1);
        assert(b.take(a.len() as int) =~= c.take(a.len() as int));
    } else {
        assert(b.take(b.len() as int) =~= b);
    }
}

/// A run of packets in a row appends their frames one after another.
proof fn lemma_run_appends<S, D: FrameDecoder<S>>(
    v: JitterView<S>,
    d: D,
    run: Seq<Produced<S, D>>,
    n: int,
    m: int,
    g: spec_fn(Seq<u8>) -> Seq<S>,
)
    requires
        v.wf(),
        v.next_seq matches Some(ns) && ns + m <= MAX_SEQ,
        jitter_laws::in_a_row(v, m),
        decodes_by::<S, D>(g, v.cfg.frame_samples as int),
        run.len() <= m,
        forall|i: int| 0 <= i < run.len() ==> #[trigger] jitter::frame_ok(v, d, run, n, i),
    ensures
        ({
            let u = jitter::after_frames(v, run);
            let heard = frames_of(v.packets, v.next_seq.unwrap(), g, run.len() as int);
            &&& u.fifo == v.fifo + heard
            &&& heard.len() == run.len() * v.cfg.frame_samples
            &&& u.stats == v.stats
            &&& u.state == v.state
        }),
    decreases run.len(),
{
    let ns = v.next_seq.unwrap();
    let k = run.len() as int;
    let f = v.cfg.frame_samples;
    if k == 0 {
        assert(v.fifo + frames_of(v.packets, ns, g, 0) =~= v.fifo);
    } else {
        let shorter = run.drop_last();
        assert forall|i: int| 0 <= i < shorter.len() implies #[trigger] jitter::frame_ok(
            v,
            d,
            shorter,
            n,
            i,
        ) by {
            assert(jitter::frame_ok(v, d, run, n, i));
            assert(shorter.take(i) =~= run.take(i));
        }
        lemma_run_appends(v, d, shorter, n, m, g);
        jitter_laws::lemma_in_order_playback(v, d, shorter, n, m);
        assert(jitter::frame_ok(v, d, run, n, k - 1));
        assert(run.take(k - 1) =~= shorter);
        let u = jitter::after_frames(v, shorter);
        let p = v.packets[(ns + (k - 1)) as u64];
        assert(u.plan().1 == Some(FrameCall::Decode(p)));
        assert(u.packets.contains_key(u.next_seq.unwrap())) by {
            assert(v.packets.contains_key((ns + (k - 1)) as u64));
        }
        assert(run[k - 1].frame == g(p));
        assert(u.fifo + g(p) =~= v.fifo + frames_of(v.packets, ns, g, k));
        assert(k * f == (k - 1) * f + f) by (nonlinear_arith);
    }
}

/// What is sent is heard: from a buffer that plays, with the next packets in a row at hand, a
/// pull gives the samples that were left over and then the frames of the packets, in order, with
/// nothing left out, nothing put in and no silence.
pub proof fn lemma_heard_as_sent<S, D: FrameDecoder<S>>(
    v: JitterView<S>,
    d: D,
    n: int,
    out: Seq<S>,
    silence: int,
    w: JitterView<S>,
    d2: D,
    m: int,
    g: spec_fn(Seq<u8>) -> Seq<S>,
)
    requires
        v.wf(),
        v.state == State::Playing || jitter::may_start(v),
        v.next_seq matches Some(ns) && ns + m <= MAX_SEQ,
        0 <= m,
        jitter_laws::in_a_row(v, m),
        decodes_by::<S, D>(g, v.cfg.frame_samples as int),
        0 <= n <= v.fifo.len() + m * v.cfg.frame_samples,
        v.stats.pulled_samples + n <= u64::MAX,
        jitter::pulled(v, d, n, out, silence, w, d2),
    ensures
        silence == 0,
        out == (v.fifo + frames_of(v.packets, v.next_seq.unwrap(), g, m)).take(n),
        w.state == State::Playing,
        w.stats == (JitterStats {
            pulled_samples: (v.stats.pulled_samples + n) as u64,
            ..v.stats
        }),
{
    let ns = v.next_seq.unwrap();
    let f = v.cfg.frame_samples;
    let run = choose|run: Seq<Produced<S, D>>| #[trigger]
        jitter::pull_outcome(v, d, n, run, out, silence, w, d2);
    let start = JitterView {
        state: State::Playing,
        stats: JitterStats {
            pulled_samples: (v.stats.pulled_samples + n) as u64,
            ..v.stats
        },
        ..v
    };
    assert(start.wf());
    if run.len() > m {
        let first = run.take(m);
        assert forall|i: int| 0 <= i < first.len() implies #[trigger] jitter::frame_ok(
            start,
            d,
            first,
            n,
            i,
        ) by {
            assert(jitter::frame_ok(start, d, run, n, i));
            assert(first.take(i) =~= run.take(i));
        }
        lemma_run_appends(start, d, first, n, m, g);
        assert(jitter::frame_ok(start, d, run, n, m));
    }
    lemma_run_appends(start, d, run, n, m, g);
    if run.len() < m {
        jitter_laws::lemma_in_order_playback(start, d, run, n, m);
    }
    let end = jitter::after_frames(start, run);
    assert(end.fifo.len() >= n);
    lemma_frames_prefix(v.packets, ns, g, run.len() as int, m);
    assert(out =~= (v.fifo + frames_of(v.packets, ns, g, m)).take(n));
}

/// The frame that PCM gives for a payload.
pub open spec fn pcm_frames(f: int) -> spec_fn(Seq<u8>) -> Seq<PcmLevel> {
    |p: Seq<u8>| decoder::pcm_frame(p, f)
}

/// PCM decodes each payload by itself, so that what is sent as PCM is heard as it was sent.
pub proof fn lemma_pcm_decodes_by_itself(f: int)
    ensures
        decodes_by::<PcmLevel, PcmDec>(pcm_frames(f), f),
{
}

/// The levels of `k` frames of samples, one after another.
pub open spec fn levels_of(sent: Seq<Seq<i16>>, k: int) -> Seq<PcmLevel>
    decreases k,
{
    if k <= 0 {
        Seq::empty()
    } else {
        levels_of(sent, k - 1) + sent[k - 1].map_values(|s: i16| PcmLevel::of(s))
    }
}

/// The packets from the number `ns` on hold these frames of samples as PCM.
pub open spec fn holds_pcm(packets: Map<u64, Seq<u8>>, ns: u64, sent: Seq<Seq<i16>>) -> bool {
    forall|j: int|
        0 <= j < sent.len() ==> packets.contains_key((ns + j) as u64) && packets[(ns + j) as u64]
            == decoder::pcm_bytes(#[trigger] sent[j])
}

/// The frames of packets that hold samples are these samples.
proof fn lemma_pcm_frames_are_levels(
    packets: Map<u64, Seq<u8>>,
    ns: u64,
    sent: Seq<Seq<i16>>,
    f: int,
    k: int,
)
    requires
        holds_pcm(packets, ns, sent),
        forall|j: int| 0 <= j < sent.len() ==> (#[trigger] sent[j]).len() == f,
        0 <= k <= sent.len(),
    ensures
        frames_of(packets, ns, pcm_frames(f), k) == levels_of(sent, k),
    decreases k,
{
    if k > 0 {
        lemma_pcm_frames_are_levels(packets, ns, sent, f, k - 1);
        assert(sent[k - 1].len() == f);
        decoder::lemma_pcm_roundtrip(sent[k - 1]);
    }
}

/// Samples that were sent as PCM, and whose packets are at hand in a row, are heard sample by
/// sample as they were sent.
pub proof fn lemma_pcm_heard_as_sent(
    v: JitterView<PcmLevel>,
    d: PcmDec,
    out: Seq<PcmLevel>,
    silence: int,
    w: JitterView<PcmLevel>,
    d2: PcmDec,
    sent: Seq<Seq<i16>>,
)
    requires
        v.wf(),
        v.state == State::Playing || jitter::may_start(v),
        v.fifo.len() == 0,
        v.next_seq matches Some(ns) && ns + sent.len() <= MAX_SEQ && holds_pcm(
            v.packets,
            ns,
            sent,
        ),
        forall|j: int| 0 <= j < sent.len() ==> (#[trigger] sent[j]).len() == v.cfg.frame_samples,
        v.stats.pulled_samples + sent.len() * v.cfg.frame_samples <= u64::MAX,
        jitter::pulled(v, d, sent.len() * v.cfg.frame_samples, out, silence, w, d2),
    ensures
        silence == 0,
        out == levels_of(sent, sent.len() as int),
{
    let ns = v.next_seq.unwrap();
    let m = sent.len() as int;
    let f = v.cfg.frame_samples as int;
    let g = pcm_frames(f);
    assert(jitter_laws::in_a_row(v, m)) by {
        assert forall|j: int| 0 <= j < m implies #[trigger] v.packets.contains_key(
            (ns + j) as u64,
        ) by {
            assert(sent[j].len() == f);
        }
    }
    lemma_pcm_decodes_by_itself(f);
    assert(0 <= m * f) by (nonlinear_arith)
        requires
            0 <= m,
            0 <= f,
    ;
    lemma_heard_as_sent(v, d, m * f, out, silence, w, d2, m, g);
    lemma_pcm_frames_are_levels(v.packets, ns, sent, f, m);
    lemma_levels_len(sent, f, m);
    assert((v.fifo + levels_of(sent, m)).take(m * f) =~= levels_of(sent, m));
}

/// Frames of the same length add up.
proof fn lemma_levels_len(sent: Seq<Seq<i16>>, f: int, k: int)
    requires
        forall|j: int| 0 <= j < sent.len() ==> (#[trigger] sent[j]).len() == f,
        0 <= k <= sent.len(),
    ensures
        levels_of(sent, k).len() == k * f,
    decreases k,
{
    if k > 0 {
        lemma_levels_len(sent, f, k - 1);
        assert(sent[k - 1].len() == f);
        assert(k * f == (k - 1) * f + f) by (nonlinear_arith);
    } else {
        assert(k * f == 0) by (nonlinear_arith)
            requires
                k == 0,
        ;
    }
}

/// A packet is played at most once: it leaves the buffer when it is played, and playback goes on
/// behind it, so that a copy that comes later is late.
pub proof fn lemma_played_once<S>(v: JitterView<S>, p: Seq<u8>)
    requires
        v.wf(),
        v.playable(),
        v.plan().1 == Some(FrameCall::Decode(p)),
    ensures
        exists|k: u64|
            {
                &&& #[trigger] v.packets.contains_key(k)
                &&& v.packets[k] == p
                &&& v.next_seq.unwrap() <= k
                &&& v.plan().0.packets == v.packets.remove(k)
                &&& v.plan().0.next_seq == Some((k + 1) as u64)
            },
{
    let ns = v.next_seq.unwrap();
    if v.packets.contains_key(ns) {
        assert(v.packets[ns] == p);
    } else {
        packets::lemma_extreme_keys(v.packets);
        let low = packets::first_key(v.packets);
        assert(v.packets.contains_key(low));
    }
}

/// Playback never goes back: every frame moves it on.
pub proof fn lemma_playback_moves_on<S>(v: JitterView<S>)
    requires
        v.wf(),
        v.playable(),
        v.plan().1 is Some,
    ensures
        v.plan().0.next_seq.unwrap() > v.next_seq.unwrap(),
{
    if !v.packets.is_empty() {
        packets::lemma_extreme_keys(v.packets);
        assert(v.packets.contains_key(packets::first_key(v.packets)));
    }
}

/// Appending a planned frame to a buffer that still holds packets does not make it any fuller.
proof fn lemma_plan_fill<S>(v: JitterView<S>, frame: Seq<S>)
    requires
        v.wf(),
        v.playable(),
        v.plan().1 is Some,
        frame.len() == v.cfg.frame_samples,
    ensures
        ({
            let w = JitterView { fifo: v.fifo + frame, scratch: frame, ..v.plan().0 };
            &&& !w.packets.is_empty() ==> !v.packets.is_empty() && w.fill() <= v.fill()
            &&& w.packets.is_empty() ==> w.fill() == w.fifo.len()
        }),
{
    jitter::lemma_plan(v);
    let w = JitterView { fifo: v.fifo + frame, scratch: frame, ..v.plan().0 };
    let f = v.cfg.frame_samples as int;
    let ns = v.next_seq.unwrap();
    if !w.packets.is_empty() {
        packets::lemma_extreme_keys(w.packets);
        let hi2 = packets::last_key(w.packets);
        assert(w.packets.contains_key(hi2));
        assert(v.packets.contains_key(hi2));
        packets::lemma_extreme_keys(v.packets);
        let hi = packets::last_key(v.packets);
        assert(hi2 <= hi);
        lemma_playback_moves_on(v);
        let ns2 = w.next_seq.unwrap();
        assert((hi2 - ns2 + 1) * f + f <= (hi - ns + 1) * f) by (nonlinear_arith)
            requires
                hi2 <= hi,
                ns2 >= ns + 1,
                f >= 0,
        ;
    }
}

/// A run of frames leaves a playable buffer that is no fuller than before, or one without
/// packets.
proof fn lemma_run_fill<S, D: FrameDecoder<S>>(
    v: JitterView<S>,
    d: D,
    run: Seq<Produced<S, D>>,
    n: int,
)
    requires
        v.wf(),
        v.playable(),
        v.fifo.len() <= n + v.cfg.frame_samples,
        forall|i: int| 0 <= i < run.len() ==> #[trigger] jitter::frame_ok(v, d, run, n, i),
    ensures
        ({
            let u = jitter::after_frames(v, run);
            &&& (JitterView { fifo: Seq::empty(), ..u }).wf()
            &&& u.playable()
            &&& u.cfg == v.cfg
            &&& !u.packets.is_empty() ==> u.fill() <= v.fill()
            &&& u.packets.is_empty() ==> u.fill() == u.fifo.len()
            &&& u.fifo.len() <= n + v.cfg.frame_samples
            &&& u.next_seq is Some
        }),
    decreases run.len(),
{
    if run.len() == 0 {
        assert((JitterView { fifo: Seq::empty(), ..v }).wf());
    } else {
        let k = run.len() - 1;
        let shorter = run.drop_last();
        assert forall|i: int| 0 <= i < shorter.len() implies #[trigger] jitter::frame_ok(
            v,
            d,
            shorter,
            n,
            i,
        ) by {
            assert(jitter::frame_ok(v, d, run, n, i));
            assert(shorter.take(i) =~= run.take(i));
        }
        lemma_run_fill(v, d, shorter, n);
        assert(jitter::frame_ok(v, d, run, n, k as int));
        assert(run.take(k as int) =~= shorter);
        let u = jitter::after_frames(v, shorter);
        let bare = JitterView { fifo: Seq::empty(), ..u };
        lemma_plan_fill(bare, run.last().frame);
        jitter::lemma_plan(bare);
    }
}

/// Delay does not pile up: a pull leaves a buffer that was under its hard cap under it.
pub proof fn lemma_pull_keeps_hard_cap<S, D: FrameDecoder<S>>(
    v: JitterView<S>,
    d: D,
    n: int,
    out: Seq<S>,
    silence: int,
    w: JitterView<S>,
    d2: D,
)
    requires
        v.wf(),
        v.seq_in_range(),
        n >= 0,
        v.stats.pulled_samples + n <= u64::MAX,
        v.fill() <= v.cap_samples(),
        v.cfg.frame_samples <= v.cap_samples(),
        jitter::pulled(v, d, n, out, silence, w, d2),
    ensures
        w.fill() <= w.cap_samples(),
        w.cap_samples() == v.cap_samples(),
{
    let run = choose|run: Seq<Produced<S, D>>| #[trigger]
        jitter::pull_outcome(v, d, n, run, out, silence, w, d2);
    if v.state == State::Buffering && !jitter::may_start(v) {
    } else {
        let start = JitterView {
            state: State::Playing,
            stats: JitterStats {
                pulled_samples: (v.stats.pulled_samples + n) as u64,
                ..v.stats
            },
            ..v
        };
        if n > 0 {
            lemma_run_fill(start, d, run, n);
        } else if run.len() > 0 {
            assert(jitter::frame_ok(start, d, run, n, 0));
        }
        let end = jitter::after_frames(start, run);
        if end.fifo.len() < n {
            jitter::lemma_plan(JitterView { fifo: Seq::empty(), ..end });
        }
    }
}

} // verus!
