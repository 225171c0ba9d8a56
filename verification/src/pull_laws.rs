//! Time is the number of samples pulled: how they are cut into calls does not matter.

use crate::decoder::{PcmDec, PcmLevel};
use crate::jitter;
use crate::jitter::{FrameCall, FrameDecoder, JitterStats, JitterView, Produced, State};
use vstd::prelude::*;

verus! {

/// The buffer as a pull of `n` samples that does not find it buffering sets out with it.
pub open spec fn set_out<S>(v: JitterView<S>, n: int) -> JitterView<S> {
    JitterView {
        state: State::Playing,
        stats: JitterStats {
            pulled_samples: (v.stats.pulled_samples + n) as u64,
            ..v.stats
        },
        ..v
    }
}

/// What the decoder is asked for in a pull of `n` samples, call by call.
pub open spec fn pull_calls<S, D>(
    v: JitterView<S>,
    n: int,
    run: Seq<Produced<S, D>>,
) -> Seq<FrameCall> {
    Seq::new(run.len(), |i: int| call_at(set_out(v, n), run, i))
}

/// What the decoder is asked for at the frame `i` of a run.
pub open spec fn call_at<S, D>(
    start: JitterView<S>,
    run: Seq<Produced<S, D>>,
    i: int,
) -> FrameCall {
    jitter::after_frames(start, run.take(i)).plan().1.unwrap()
}

/// The buffers are the same but for the target delay and the count of clean samples towards its
/// next change.
pub open spec fn same_but_target<S>(u: JitterView<S>, w: JitterView<S>) -> bool {
    u == (JitterView { target_ms: u.target_ms, clean_samples: u.clean_samples, ..w })
}

/// The buffers lead to the same decisions: they differ in nothing that these rest on.
spec fn alike<S>(u: JitterView<S>, w: JitterView<S>) -> bool {
    &&& u == (JitterView {
        fifo: u.fifo,
        target_ms: u.target_ms,
        clean_samples: u.clean_samples,
        stats: u.stats,
        ..w
    })
    &&& u.stats == (JitterStats {
        pulled_samples: u.stats.pulled_samples,
        silence_samples: u.stats.silence_samples,
        ..w.stats
    })
}

/// Buffers that are alike decide alike and stay alike.
proof fn lemma_plan_alike<S>(u: JitterView<S>, w: JitterView<S>)
    requires
        alike(u, w),
    ensures
        u.plan().1 == w.plan().1,
        alike(u.plan().0, w.plan().0),
        u.plan().0.fifo == u.fifo,
        w.plan().0.fifo == w.fifo,
        u.plan().0.stats.pulled_samples == u.stats.pulled_samples,
        u.plan().0.stats.silence_samples == u.stats.silence_samples,
{
}

/// The same frames leave buffers that are alike alike.
proof fn lemma_frames_alike<S, D>(
    u: JitterView<S>,
    w: JitterView<S>,
    pre: Seq<S>,
    run: Seq<Produced<S, D>>,
)
    requires
        alike(u, w),
        u.fifo == pre + w.fifo,
    ensures
        alike(jitter::after_frames(u, run), jitter::after_frames(w, run)),
        jitter::after_frames(u, run).fifo == pre + jitter::after_frames(w, run).fifo,
    decreases run.len(),
{
    if run.len() > 0 {
        let shorter = run.drop_last();
        lemma_frames_alike(u, w, pre, shorter);
        let a = jitter::after_frames(u, shorter);
        let b = jitter::after_frames(w, shorter);
        lemma_plan_alike(a, b);
        assert(pre + b.fifo + run.last().frame =~= pre + (b.fifo + run.last().frame));
    }
}

/// Frames can be appended in two goes.
proof fn lemma_frames_in_two_goes<S, D>(
    v: JitterView<S>,
    first: Seq<Produced<S, D>>,
    second: Seq<Produced<S, D>>,
)
    ensures
        jitter::after_frames(v, first + second) == jitter::after_frames(
            jitter::after_frames(v, first),
            second,
        ),
    decreases second.len(),
{
    if second.len() == 0 {
        assert(first + second =~= first);
    } else {
        assert((first + second).drop_last() =~= first + second.drop_last());
        lemma_frames_in_two_goes(v, first, second.drop_last());
    }
}

/// Decoded frames change neither the settings nor the state, and do not touch the counters of
/// samples.
proof fn lemma_frames_keep<S, D: FrameDecoder<S>>(
    v: JitterView<S>,
    d: D,
    run: Seq<Produced<S, D>>,
    n: int,
)
    requires
        forall|i: int| 0 <= i < run.len() ==> #[trigger] jitter::frame_ok(v, d, run, n, i),
    ensures
        ({
            let u = jitter::after_frames(v, run);
            &&& u.cfg == v.cfg
            &&& u.silence == v.silence
            &&& u.state == v.state
            &&& u.stats.pulled_samples == v.stats.pulled_samples
            &&& u.stats.silence_samples == v.stats.silence_samples
        }),
    decreases run.len(),
{
    if run.len() > 0 {
        let shorter = run.drop_last();
        assert forall|i: int| 0 <= i < shorter.len() implies #[trigger] jitter::frame_ok(
            v,
            d,
            shorter,
            n,
            i,
        ) by {
            assert(jitter::frame_ok(v, d, run, n, i));
            assert(shorter.take(i) =~= run.take(i));
        }
        lemma_frames_keep(v, d, shorter, n);
        assert(jitter::frame_ok(v, d, run, n, run.len() - 1));
        assert(run.take(run.len() - 1) =~= shorter);
    }
}

/// A pull counts its samples and leaves the settings alone.
proof fn lemma_outcome_keeps<S, D: FrameDecoder<S>>(
    v: JitterView<S>,
    d: D,
    n: int,
    run: Seq<Produced<S, D>>,
    out: Seq<S>,
    silence: int,
    w: JitterView<S>,
    d2: D,
)
    requires
        jitter::pull_outcome(v, d, n, run, out, silence, w, d2),
    ensures
        w.cfg == v.cfg,
        w.silence == v.silence,
        w.stats.pulled_samples == (v.stats.pulled_samples + n) as u64,
{
    if v.state == State::Buffering && !jitter::may_start(v) {
    } else {
        lemma_frames_keep(set_out(v, n), d, run, n);
    }
}

/// A frame that was in order for a buffer is in order for one that is alike and has `pre` more
/// samples at hand, where those are the more that are asked for.
proof fn lemma_same_frame<S, D: FrameDecoder<S>>(
    u: JitterView<S>,
    w: JitterView<S>,
    pre: Seq<S>,
    d: D,
    run: Seq<Produced<S, D>>,
    n: int,
    m: int,
    i: int,
)
    requires
        alike(u, w),
        u.fifo == pre + w.fifo,
        pre.len() + n <= m,
        jitter::frame_ok(w, d, run, n, i),
    ensures
        jitter::frame_ok(u, d, run, m, i),
{
    lemma_frames_alike(u, w, pre, run.take(i));
    lemma_plan_alike(
        jitter::after_frames(u, run.take(i)),
        jitter::after_frames(w, run.take(i)),
    );
}

/// The frames of two pulls are those of one pull of both sizes, up to the sample counts.
proof fn lemma_frames_join<S, D: FrameDecoder<S>>(
    v: JitterView<S>,
    d: D,
    a: int,
    first: Seq<Produced<S, D>>,
    mid: JitterView<S>,
    b: int,
    second: Seq<Produced<S, D>>,
)
    requires
        0 <= a,
        0 <= b,
        forall|i: int|
            0 <= i < first.len() ==> #[trigger] jitter::frame_ok(set_out(v, a), d, first, a, i),
        jitter::after_frames(set_out(v, a), first).fifo.len() >= a,
        alike(mid, jitter::after_frames(set_out(v, a), first)),
        mid.fifo == jitter::after_frames(set_out(v, a), first).fifo.skip(a),
        forall|i: int|
            0 <= i < second.len() ==> #[trigger] jitter::frame_ok(
                set_out(mid, b),
                jitter::decoder_after(d, first),
                second,
                b,
                i,
            ),
        mid.state == State::Playing,
    ensures
        ({
            let all = first + second;
            let pre = jitter::after_frames(set_out(v, a), first).fifo.take(a);
            let one = jitter::after_frames(set_out(v, a + b), all);
            let two = jitter::after_frames(set_out(mid, b), second);
            &&& forall|i: int|
                0 <= i < all.len() ==> #[trigger] jitter::frame_ok(
                    set_out(v, a + b),
                    d,
                    all,
                    a + b,
                    i,
                )
            &&& alike(one, two)
            &&& one.fifo == pre + two.fifo
            &&& pull_calls(v, a + b, all) == pull_calls(v, a, first) + pull_calls(mid, b, second)
        }),
{
    let all = first + second;
    let start = set_out(v, a);
    let whole = set_out(v, a + b);
    let rest = set_out(mid, b);
    let end1 = jitter::after_frames(start, first);
    let pre = end1.fifo.take(a);
    let none = Seq::<S>::empty();
    assert(whole.fifo =~= none + start.fifo);
    lemma_frames_alike(whole, start, none, first);
    let reached = jitter::after_frames(whole, first);
    assert(none + end1.fifo =~= end1.fifo);
    assert(reached.fifo =~= pre + rest.fifo);
    assert(alike(reached, rest));
    lemma_frames_in_two_goes(whole, first, second);
    lemma_frames_alike(reached, rest, pre, second);
    let d1 = jitter::decoder_after(d, first);
    lemma_frames_keep(start, d, first, a);
    assert forall|i: int| 0 <= i < all.len() implies #[trigger] jitter::frame_ok(
        whole,
        d,
        all,
        a + b,
        i,
    ) by {
        if i < first.len() {
            assert(jitter::frame_ok(start, d, first, a, i));
            assert(all.take(i) =~= first.take(i));
            lemma_same_frame(whole, start, none, d, first, a, a + b, i);
            assert(all[i] == first[i]);
        } else {
            let j = i - first.len();
            assert(jitter::frame_ok(rest, d1, second, b, j));
            assert(all.take(i) =~= first + second.take(j));
            lemma_frames_in_two_goes(whole, first, second.take(j));
            lemma_same_frame(reached, rest, pre, d1, second, b, a + b, j);
            assert(all[i] == second[j]);
            assert(jitter::decoder_after(d, all.take(i)) == jitter::decoder_after(
                d1,
                second.take(j),
            ));
        }
    }
    let calls = pull_calls(v, a + b, all);
    let calls1 = pull_calls(v, a, first);
    let calls2 = pull_calls(mid, b, second);
    assert forall|i: int| 0 <= i < all.len() implies #[trigger] calls[i] == (calls1
        + calls2)[i] by {
        if i < first.len() {
            assert(all.take(i) =~= first.take(i));
            lemma_frames_alike(whole, start, none, first.take(i));
            lemma_plan_alike(
                jitter::after_frames(whole, first.take(i)),
                jitter::after_frames(start, first.take(i)),
            );
        } else {
            let j = i - first.len();
            assert(all.take(i) =~= first + second.take(j));
            lemma_frames_in_two_goes(whole, first, second.take(j));
            lemma_frames_alike(reached, rest, pre, second.take(j));
            lemma_plan_alike(
                jitter::after_frames(reached, second.take(j)),
                jitter::after_frames(rest, second.take(j)),
            );
        }
    }
    assert(calls =~= calls1 + calls2);
}

/// A pull that does not find the buffer buffering, and has samples enough, is joined with the
/// next one.
proof fn lemma_join_sounding<S, D: FrameDecoder<S>>(
    v: JitterView<S>,
    d: D,
    a: int,
    run1: Seq<Produced<S, D>>,
    out1: Seq<S>,
    w1: JitterView<S>,
    d1: D,
    b: int,
    run2: Seq<Produced<S, D>>,
    out2: Seq<S>,
    silence2: int,
    w2: JitterView<S>,
    d2: D,
) -> (w: JitterView<S>)
    requires
        !(v.state == State::Buffering && !jitter::may_start(v)),
        jitter::after_frames(set_out(v, a), run1).fifo.len() >= a,
        0 <= a,
        0 <= b,
        v.stats.pulled_samples + a + b <= u64::MAX,
        jitter::pull_outcome(v, d, a, run1, out1, 0, w1, d1),
        jitter::pull_outcome(w1, d1, b, run2, out2, silence2, w2, d2),
    ensures
        jitter::pull_outcome(
            v,
            d,
            a + b,
            run1 + run2,
            out1 + out2,
            silence2,
            w,
            d2,
        ),
        same_but_target(w, w2),
        pull_calls(v, a + b, run1 + run2) == pull_calls(v, a, run1) + pull_calls(w1, b, run2),
{
    let run = run1 + run2;
    let out = out1 + out2;
    let whole = set_out(v, a + b);
    let start = set_out(v, a);
    let end1 = jitter::after_frames(start, run1);
    lemma_frames_keep(start, d, run1, a);
    assert(alike(w1, end1));
    lemma_frames_join(v, d, a, run1, w1, b, run2);
    let rest = set_out(w1, b);
    lemma_frames_keep(rest, d1, run2, b);
    lemma_frames_keep(whole, d, run, a + b);
    let end2 = jitter::after_frames(rest, run2);
    let end = jitter::after_frames(whole, run);
    let pre = end1.fifo.take(a);
    assert(jitter::decoder_after(d, run) == d2);
    lemma_plan_alike(end, end2);
    lemma_plan_alike(end2, end2);
    if end2.fifo.len() >= b {
        let w = (JitterView { fifo: end.fifo.skip(a + b), ..end }).settled(a + b);
        assert(end.fifo.take(a + b) =~= pre + end2.fifo.take(b));
        assert(end.fifo.skip(a + b) =~= end2.fifo.skip(b));
        assert(same_but_target(w, w2));
        w
    } else {
        let w = JitterView {
            fifo: Seq::empty(),
            clean_samples: 0,
            stats: JitterStats {
                silence_samples: (v.stats.silence_samples + silence2) as u64,
                ..end.plan().0.stats
            },
            ..end.plan().0
        };
        assert(out =~= end.fifo + jitter::repeated(v.silence, silence2));
        assert(same_but_target(w, w2));
        w
    }
}

/// A pull in which the buffer runs dry is joined with the next one, which is silence.
proof fn lemma_join_dry<S, D: FrameDecoder<S>>(
    v: JitterView<S>,
    d: D,
    a: int,
    run1: Seq<Produced<S, D>>,
    out1: Seq<S>,
    silence1: int,
    w1: JitterView<S>,
    d1: D,
    b: int,
    run2: Seq<Produced<S, D>>,
    out2: Seq<S>,
    silence2: int,
    w2: JitterView<S>,
    d2: D,
) -> (w: JitterView<S>)
    requires
        v.wf(),
        w1.wf(),
        v.cfg.min_target_ms * v.cfg.sample_rate >= 1000,
        !(v.state == State::Buffering && !jitter::may_start(v)),
        jitter::after_frames(set_out(v, a), run1).fifo.len() < a,
        0 <= a,
        0 <= b,
        v.stats.pulled_samples + a + b <= u64::MAX,
        jitter::pull_outcome(v, d, a, run1, out1, silence1, w1, d1),
        jitter::pull_outcome(w1, d1, b, run2, out2, silence2, w2, d2),
    ensures
        jitter::pull_outcome(
            v,
            d,
            a + b,
            run1 + run2,
            out1 + out2,
            silence1 + silence2,
            w,
            d2,
        ),
        same_but_target(w, w2),
        pull_calls(v, a + b, run1 + run2) == pull_calls(v, a, run1) + pull_calls(w1, b, run2),
{
    let run = run1 + run2;
    let out = out1 + out2;
    let silence = silence1 + silence2;
    let whole = set_out(v, a + b);
    let start = set_out(v, a);
    let end1 = jitter::after_frames(start, run1);
    lemma_frames_keep(start, d, run1, a);
    let none = Seq::<S>::empty();
    assert(whole.fifo =~= none + start.fifo);
    lemma_frames_alike(whole, start, none, run1);
    let end = jitter::after_frames(whole, run1);
    assert(none + end1.fifo =~= end1.fifo);
    lemma_plan_alike(end, end1);
    lemma_plan_alike(end1, end1);
    assert(w1.cfg == v.cfg);
    assert(!jitter::may_start(w1)) by {
        let m = w1.cfg.min_target_ms;
        let t = w1.target_ms;
        let s = w1.cfg.sample_rate;
        assert(t * s >= 1000) by (nonlinear_arith)
            requires
                t >= m,
                m * s >= 1000,
        ;
        assert(w1.fill() == 0);
    }
    assert(run =~= run1);
    assert forall|i: int| 0 <= i < run1.len() implies #[trigger] jitter::frame_ok(
        whole,
        d,
        run1,
        a + b,
        i,
    ) by {
        assert(jitter::frame_ok(start, d, run1, a, i));
        lemma_same_frame(whole, start, none, d, run1, a, a + b, i);
    }
    lemma_frames_keep(whole, d, run1, a + b);
    let calls = pull_calls(v, a + b, run1);
    let calls1 = pull_calls(v, a, run1);
    assert forall|i: int| 0 <= i < run1.len() implies #[trigger] calls[i] == calls1[i] by {
        lemma_frames_alike(whole, start, none, run1.take(i));
        lemma_plan_alike(
            jitter::after_frames(whole, run1.take(i)),
            jitter::after_frames(start, run1.take(i)),
        );
    }
    assert(run2.len() == 0);
    assert(calls =~= calls1 + pull_calls(w1, b, run2));
    let w = JitterView {
        fifo: Seq::empty(),
        clean_samples: 0,
        stats: JitterStats {
            silence_samples: (v.stats.silence_samples + silence) as u64,
            ..end.plan().0.stats
        },
        ..end.plan().0
    };
    assert(out =~= end.fifo + jitter::repeated(v.silence, silence));
    assert(same_but_target(w, w2));
    w
}

/// Two pulls, one after the other, are one pull of both sizes: the same samples, the same
/// decoder calls, the same silence in all, and the same buffer but for the target delay.
pub proof fn lemma_two_pulls_are_one<S, D: FrameDecoder<S>>(
    v: JitterView<S>,
    d: D,
    a: int,
    run1: Seq<Produced<S, D>>,
    out1: Seq<S>,
    silence1: int,
    w1: JitterView<S>,
    d1: D,
    b: int,
    run2: Seq<Produced<S, D>>,
    out2: Seq<S>,
    silence2: int,
    w2: JitterView<S>,
    d2: D,
) -> (w: JitterView<S>)
    requires
        v.wf(),
        w1.wf(),
        v.cfg.min_target_ms * v.cfg.sample_rate >= 1000,
        0 <= a,
        0 <= b,
        v.stats.pulled_samples + a + b <= u64::MAX,
        jitter::pull_outcome(v, d, a, run1, out1, silence1, w1, d1),
        jitter::pull_outcome(w1, d1, b, run2, out2, silence2, w2, d2),
    ensures
        jitter::pull_outcome(
            v,
            d,
            a + b,
            run1 + run2,
            out1 + out2,
            silence1 + silence2,
            w,
            d2,
        ),
        same_but_target(w, w2),
        w.state == w2.state,
        w.fill() == w2.fill(),
        pull_calls(v, a + b, run1 + run2) == pull_calls(v, a, run1) + pull_calls(w1, b, run2),
{
    let run = run1 + run2;
    let out = out1 + out2;
    lemma_outcome_keeps(v, d, a, run1, out1, silence1, w1, d1);
    if v.state == State::Buffering && !jitter::may_start(v) {
        let w = w2;
        assert(out =~= jitter::repeated(v.silence, a + b));
        assert(pull_calls(v, a + b, run) =~= pull_calls(v, a, run1) + pull_calls(w1, b, run2));
        w
    } else {
        if jitter::after_frames(set_out(v, a), run1).fifo.len() >= a {
            lemma_join_sounding(v, d, a, run1, out1, w1, d1, b, run2, out2, silence2, w2, d2)
        } else {
            lemma_join_dry(v, d, a, run1, out1, silence1, w1, d1, b, run2, out2, silence2, w2, d2)
        }
    }
}

/// A pull: its size, the frames that were decoded for it, what it handed out, and what it left.
pub struct Pull<S, D> {
    pub n: int,
    pub run: Seq<Produced<S, D>>,
    pub out: Seq<S>,
    pub silence: int,
    pub after: JitterView<S>,
    pub dec: D,
}

/// The pulls are made one after another, with no push in between.
pub open spec fn in_turn<S, D: FrameDecoder<S>>(
    v: JitterView<S>,
    d: D,
    pulls: Seq<Pull<S, D>>,
) -> bool
    decreases pulls.len(),
{
    pulls.len() > 0 ==> {
        let p = pulls[0];
        &&& 0 <= p.n
        &&& p.after.wf()
        &&& jitter::pull_outcome(v, d, p.n, p.run, p.out, p.silence, p.after, p.dec)
        &&& in_turn(p.after, p.dec, pulls.drop_first())
    }
}

/// How many samples the pulls take in all.
pub open spec fn total<S, D>(pulls: Seq<Pull<S, D>>) -> int
    decreases pulls.len(),
{
    if pulls.len() == 0 {
        0
    } else {
        pulls[0].n + total(pulls.drop_first())
    }
}

/// How much silence the pulls report in all.
pub open spec fn total_silence<S, D>(pulls: Seq<Pull<S, D>>) -> int
    decreases pulls.len(),
{
    if pulls.len() == 0 {
        0
    } else {
        pulls[0].silence + total_silence(pulls.drop_first())
    }
}

/// The samples of all pulls, in order.
pub open spec fn all_samples<S, D>(pulls: Seq<Pull<S, D>>) -> Seq<S>
    decreases pulls.len(),
{
    if pulls.len() == 0 {
        Seq::empty()
    } else {
        pulls[0].out + all_samples(pulls.drop_first())
    }
}

/// The frames of all pulls, in order.
pub open spec fn all_frames<S, D>(pulls: Seq<Pull<S, D>>) -> Seq<Produced<S, D>>
    decreases pulls.len(),
{
    if pulls.len() == 0 {
        Seq::empty()
    } else {
        pulls[0].run + all_frames(pulls.drop_first())
    }
}

/// The decoder calls of all pulls, in order.
pub open spec fn all_calls<S, D>(v: JitterView<S>, pulls: Seq<Pull<S, D>>) -> Seq<FrameCall>
    decreases pulls.len(),
{
    if pulls.len() == 0 {
        Seq::empty()
    } else {
        pull_calls(v, pulls[0].n, pulls[0].run) + all_calls(pulls[0].after, pulls.drop_first())
    }
}

/// The sizes of pulls are not negative.
proof fn lemma_total_bound<S, D: FrameDecoder<S>>(v: JitterView<S>, d: D, pulls: Seq<Pull<S, D>>)
    requires
        in_turn(v, d, pulls),
    ensures
        total(pulls) >= 0,
    decreases pulls.len(),
{
    if pulls.len() > 0 {
        lemma_total_bound(pulls[0].after, pulls[0].dec, pulls.drop_first());
    }
}

/// Any number of pulls, one after another, are one pull of all their sizes.
pub proof fn lemma_pulls_add_up<S, D: FrameDecoder<S>>(
    v: JitterView<S>,
    d: D,
    pulls: Seq<Pull<S, D>>,
) -> (w: JitterView<S>)
    requires
        pulls.len() > 0,
        v.wf(),
        v.cfg.min_target_ms * v.cfg.sample_rate >= 1000,
        in_turn(v, d, pulls),
        v.stats.pulled_samples + total(pulls) <= u64::MAX,
    ensures
        jitter::pull_outcome(
            v,
            d,
            total(pulls),
            all_frames(pulls),
            all_samples(pulls),
            total_silence(pulls),
            w,
            pulls.last().dec,
        ),
        same_but_target(w, pulls.last().after),
        pull_calls(v, total(pulls), all_frames(pulls)) == all_calls(v, pulls),
    decreases pulls.len(),
{
    let p = pulls[0];
    let rest = pulls.drop_first();
    lemma_total_bound(p.after, p.dec, rest);
    if rest.len() == 0 {
        assert(all_frames(rest) =~= Seq::empty() && all_samples(rest) =~= Seq::empty());
        assert(total(rest) == 0 && total_silence(rest) == 0);
        assert(all_calls(p.after, rest) =~= Seq::empty());
        assert(all_frames(pulls) =~= p.run);
        assert(all_samples(pulls) =~= p.out);
        assert(all_calls(v, pulls) =~= pull_calls(v, p.n, p.run));
        p.after
    } else {
        lemma_outcome_keeps(v, d, p.n, p.run, p.out, p.silence, p.after, p.dec);
        let c = lemma_pulls_add_up(p.after, p.dec, rest);
        assert(rest.last() == pulls.last());
        lemma_two_pulls_are_one(
            v,
            d,
            p.n,
            p.run,
            p.out,
            p.silence,
            p.after,
            p.dec,
            total(rest),
            all_frames(rest),
            all_samples(rest),
            total_silence(rest),
            c,
            rest.last().dec,
        )
    }
}

/// The decoder is deterministic: decoders that are the same to `same` give the same samples for
/// the same call, and stay the same.
pub open spec fn determined<S, D: FrameDecoder<S>>(same: spec_fn(D, D) -> bool) -> bool {
    forall|p1: D, p2: D, call: FrameCall, before: Seq<S>, q1: D, a1: Seq<S>, q2: D, a2: Seq<S>|
        same(p1, p2) && #[trigger] D::step(p1, call, before, q1, a1) && #[trigger] D::step(
            p2,
            call,
            before,
            q2,
            a2,
        ) ==> a1 == a2 && same(q1, q2)
}

/// PCM decoders that hold the same last frame are the same.
pub open spec fn same_pcm() -> spec_fn(PcmDec, PcmDec) -> bool {
    |x: PcmDec, y: PcmDec| x@ == y@
}

/// The PCM decoder is deterministic.
pub proof fn lemma_pcm_determined()
    ensures
        determined::<PcmLevel, PcmDec>(same_pcm()),
{
}

/// The first `k` frames of two runs of the same decoder are the same.
proof fn lemma_runs_agree<S, D: FrameDecoder<S>>(
    v: JitterView<S>,
    d: D,
    e: D,
    n: int,
    run1: Seq<Produced<S, D>>,
    run2: Seq<Produced<S, D>>,
    k: int,
    same: spec_fn(D, D) -> bool,
)
    requires
        determined::<S, D>(same),
        same(d, e),
        0 <= k <= run1.len(),
        k <= run2.len(),
        forall|i: int| 0 <= i < run1.len() ==> #[trigger] jitter::frame_ok(v, d, run1, n, i),
        forall|i: int| 0 <= i < run2.len() ==> #[trigger] jitter::frame_ok(v, e, run2, n, i),
    ensures
        jitter::after_frames(v, run1.take(k)) == jitter::after_frames(v, run2.take(k)),
        same(jitter::decoder_after(d, run1.take(k)), jitter::decoder_after(e, run2.take(k))),
    decreases k,
{
    if k > 0 {
        lemma_runs_agree(v, d, e, n, run1, run2, k - 1, same);
        assert(jitter::frame_ok(v, d, run1, n, k - 1));
        assert(jitter::frame_ok(v, e, run2, n, k - 1));
        assert(run1.take(k).drop_last() =~= run1.take(k - 1));
        assert(run2.take(k).drop_last() =~= run2.take(k - 1));
        assert(run1.take(k).last() == run1[k - 1]);
        assert(run2.take(k).last() == run2[k - 1]);
    }
}

/// With a deterministic decoder a pull can come out in one way only.
pub proof fn lemma_pull_determined<S, D: FrameDecoder<S>>(
    v: JitterView<S>,
    d: D,
    e: D,
    n: int,
    run1: Seq<Produced<S, D>>,
    out1: Seq<S>,
    silence1: int,
    w1: JitterView<S>,
    d1: D,
    run2: Seq<Produced<S, D>>,
    out2: Seq<S>,
    silence2: int,
    w2: JitterView<S>,
    e2: D,
    same: spec_fn(D, D) -> bool,
)
    requires
        determined::<S, D>(same),
        same(d, e),
        jitter::pull_outcome(v, d, n, run1, out1, silence1, w1, d1),
        jitter::pull_outcome(v, e, n, run2, out2, silence2, w2, e2),
    ensures
        out1 == out2,
        silence1 == silence2,
        w1 == w2,
        same(d1, e2),
        pull_calls(v, n, run1) == pull_calls(v, n, run2),
{
    if v.state == State::Buffering && !jitter::may_start(v) {
        assert(pull_calls(v, n, run1) =~= pull_calls(v, n, run2));
    } else {
        let start = set_out(v, n);
        let k = if run1.len() <= run2.len() {
            run1.len() as int
        } else {
            run2.len() as int
        };
        lemma_runs_agree(start, d, e, n, run1, run2, k, same);
        if run1.len() > k {
            assert(jitter::frame_ok(start, d, run1, n, k));
            assert(run2.take(k) =~= run2);
        }
        if run2.len() > k {
            assert(jitter::frame_ok(start, e, run2, n, k));
            assert(run1.take(k) =~= run1);
        }
        assert(run1.take(k) =~= run1);
        assert(run2.take(k) =~= run2);
        assert forall|i: int| 0 <= i < k implies pull_calls(v, n, run1)[i] == pull_calls(
            v,
            n,
            run2,
        )[i] by {
            lemma_runs_agree(start, d, e, n, run1, run2, i, same);
        }
        assert(pull_calls(v, n, run1) =~= pull_calls(v, n, run2));
    }
}

/// Time is the number of samples pulled: of two equal buffers with equal decoders, one that is
/// pulled from once and one that is pulled from in any portions of the same size in all, with no
/// push in between, give the same samples in the same order, make the same decoder calls in the
/// same order, report the same silence in all, and end in the same state and as full. The target
/// delay may differ: it is looked at once per pull.
pub proof fn lemma_time_is_samples_pulled<S, D: FrameDecoder<S>>(
    v: JitterView<S>,
    d: D,
    e: D,
    run: Seq<Produced<S, D>>,
    out: Seq<S>,
    silence: int,
    w: JitterView<S>,
    d2: D,
    pulls: Seq<Pull<S, D>>,
    same: spec_fn(D, D) -> bool,
)
    requires
        v.wf(),
        v.cfg.min_target_ms * v.cfg.sample_rate >= 1000,
        determined::<S, D>(same),
        same(d, e),
        pulls.len() > 0,
        in_turn(v, e, pulls),
        v.stats.pulled_samples + total(pulls) <= u64::MAX,
        jitter::pull_outcome(v, d, total(pulls), run, out, silence, w, d2),
    ensures
        out == all_samples(pulls),
        pull_calls(v, total(pulls), run) == all_calls(v, pulls),
        silence == total_silence(pulls),
        same_but_target(w, pulls.last().after),
        w.state == pulls.last().after.state,
        w.fill() == pulls.last().after.fill(),
        same(d2, pulls.last().dec),
{
    let c = lemma_pulls_add_up(v, e, pulls);
    lemma_pull_determined(
        v,
        d,
        e,
        total(pulls),
        run,
        out,
        silence,
        w,
        d2,
        all_frames(pulls),
        all_samples(pulls),
        total_silence(pulls),
        c,
        pulls.last().dec,
        same,
    );
}

/// The buffer with a frame more: the next one, as it was decided on.
pub open spec fn with_frame<S>(v: JitterView<S>, frame: Seq<S>) -> JitterView<S> {
    JitterView {
        state: State::Playing,
        fifo: v.fifo + frame,
        scratch: frame,
        ..v.plan().0
    }
}

/// The rest of a pull, once the first frame is there.
pub open spec fn goes_on_with<S, D: FrameDecoder<S>>(
    v: JitterView<S>,
    d: D,
    n: int,
    out: Seq<S>,
    silence: int,
    w: JitterView<S>,
    d2: D,
    frame: Seq<S>,
    d1: D,
) -> bool {
    &&& frame.len() == v.cfg.frame_samples
    &&& D::step(
        d,
        v.plan().1.unwrap(),
        jitter::resized(v.scratch, v.cfg.frame_samples as int, v.silence),
        d1,
        frame,
    )
    &&& jitter::pulled(with_frame(v, frame), d1, n, out, silence, w, d2)
}

/// Samples that are at hand go out first. Where they suffice, nothing is decoded; the others stay,
/// and the portion counts as clean.
pub proof fn lemma_pull_at_hand<S, D: FrameDecoder<S>>(
    v: JitterView<S>,
    d: D,
    n: int,
    out: Seq<S>,
    silence: int,
    w: JitterView<S>,
    d2: D,
)
    requires
        v.next_seq is Some,
        v.state == State::Playing || v.fill() * 1000 > v.target_ms * v.cfg.sample_rate - 1000,
        0 <= n <= v.fifo.len(),
        jitter::pulled(v, d, n, out, silence, w, d2),
    ensures
        silence == 0,
        out == v.fifo.take(n),
        d2 == d,
        w == (JitterView {
            state: State::Playing,
            fifo: v.fifo.skip(n),
            stats: JitterStats {
                pulled_samples: (v.stats.pulled_samples + n) as u64,
                ..v.stats
            },
            ..v
        }).settled(n),
{
    let run = choose|run: Seq<Produced<S, D>>| #[trigger]
        jitter::pull_outcome(v, d, n, run, out, silence, w, d2);
    if run.len() > 0 {
        assert(jitter::frame_ok(set_out(v, n), d, run, n, 0));
        assert(run.take(0) =~= Seq::empty());
    }
}

/// A pull goes frame by frame. Where the samples at hand do not suffice and a frame can be had, it
/// is decoded and appended, and the pull goes on from there as any pull does. Where none can be
/// had, the samples at hand go out, silence fills the rest, and the buffer is left as running dry
/// leaves it.
pub proof fn lemma_pull_frame_by_frame<S, D: FrameDecoder<S>>(
    v: JitterView<S>,
    d: D,
    n: int,
    out: Seq<S>,
    silence: int,
    w: JitterView<S>,
    d2: D,
)
    requires
        v.next_seq is Some,
        v.state == State::Playing || v.fill() * 1000 > v.target_ms * v.cfg.sample_rate - 1000,
        n > v.fifo.len(),
        v.stats.pulled_samples + n <= u64::MAX,
        jitter::pulled(v, d, n, out, silence, w, d2),
    ensures
        v.plan().1 is Some ==> exists|frame: Seq<S>, d1: D| #[trigger]
            goes_on_with(v, d, n, out, silence, w, d2, frame, d1),
        v.plan().1 is None ==> {
            let dry = v.plan().0;
            &&& silence == n - v.fifo.len()
            &&& out == v.fifo + jitter::repeated(v.silence, silence)
            &&& d2 == d
            &&& w == (JitterView {
                fifo: Seq::empty(),
                clean_samples: 0,
                stats: JitterStats {
                    pulled_samples: (v.stats.pulled_samples + n) as u64,
                    silence_samples: (v.stats.silence_samples + silence) as u64,
                    ..dry.stats
                },
                ..dry
            })
        },
{
    let run = choose|run: Seq<Produced<S, D>>| #[trigger]
        jitter::pull_outcome(v, d, n, run, out, silence, w, d2);
    let start = set_out(v, n);
    let none = Seq::<Produced<S, D>>::empty();
    assert(jitter::after_frames(start, none) == start);
    assert(alike(start, JitterView { state: State::Playing, ..v }));
    lemma_plan_alike(start, JitterView { state: State::Playing, ..v });
    assert(v.plan().1 == start.plan().1);
    if v.plan().1 is None {
        if run.len() > 0 {
            assert(jitter::frame_ok(start, d, run, n, 0));
            assert(run.take(0) =~= none);
        }
        assert(run =~= none);
    } else {
        if run.len() == 0 {
            assert(run =~= none);
        }
        assert(jitter::frame_ok(start, d, run, n, 0));
        assert(run.take(0) =~= none);
        let frame = run[0].frame;
        let d1 = run[0].dec;
        let first = run.take(1);
        let rest = run.drop_first();
        assert(first + rest =~= run);
        assert(first.drop_last() =~= none);
        assert(first.last() == run[0]);
        let u = with_frame(v, frame);
        let next = set_out(u, n);
        assert(jitter::after_frames(start, first) == next);
        lemma_frames_in_two_goes(start, first, rest);
        assert forall|i: int| 0 <= i < rest.len() implies #[trigger] jitter::frame_ok(
            next,
            d1,
            rest,
            n,
            i,
        ) by {
            assert(jitter::frame_ok(start, d, run, n, i + 1));
            assert(run.take(i + 1) =~= first + rest.take(i));
            lemma_frames_in_two_goes(start, first, rest.take(i));
            assert(rest[i] == run[i + 1]);
            if i > 0 {
                assert(rest.take(i).last() == run.take(i + 1).last());
            }
        }
        assert(jitter::decoder_after(d, run) == jitter::decoder_after(d1, rest)) by {
            if rest.len() > 0 {
                assert(rest.last() == run.last());
            }
        }
        assert(jitter::pull_outcome(u, d1, n, rest, out, silence, w, d2));
        assert(goes_on_with(v, d, n, out, silence, w, d2, frame, d1));
    }
}

} // verus!
