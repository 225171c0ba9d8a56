//! What holds of the echo framer over its whole life.

use crate::aec;
use crate::aec::{CleanedBlock, EchoBlock, EchoFramer, EchoRound, FramerView, RefRing, FRAME};
use vstd::prelude::*;

verus! {

/// The framer holds no samples yet.
pub open spec fn is_fresh<S>(v: FramerView<S>) -> bool {
    v.mic.len() == 0 && v.clean.len() == 0
}

/// The framer before the round `i`.
pub open spec fn before_round<S>(
    start: FramerView<S>,
    rounds: Seq<EchoRound<S>>,
    i: int,
) -> FramerView<S> {
    if i <= 0 {
        start
    } else {
        rounds[i - 1].after
    }
}

/// The framer makes these rounds one after another. What the ring holds between them is up to
/// the loudspeaker.
pub open spec fn is_life<S>(start: FramerView<S>, rounds: Seq<EchoRound<S>>) -> bool {
    forall|i: int|
        0 <= i < rounds.len() ==> aec::is_round(
            before_round(start, rounds, i),
            #[trigger] rounds[i],
        )
}

/// All samples that came in.
pub open spec fn fed<S>(rounds: Seq<EchoRound<S>>) -> Seq<i16>
    decreases rounds.len(),
{
    if rounds.len() == 0 {
        Seq::empty()
    } else {
        fed(rounds.drop_last()) + rounds.last().input
    }
}

/// All samples that went out.
pub open spec fn heard<S>(rounds: Seq<EchoRound<S>>) -> Seq<S>
    decreases rounds.len(),
{
    if rounds.len() == 0 {
        Seq::empty()
    } else {
        heard(rounds.drop_last()) + rounds.last().out
    }
}

/// All blocks that were cleaned.
pub open spec fn all_blocks<S>(rounds: Seq<EchoRound<S>>) -> Seq<CleanedBlock<S>>
    decreases rounds.len(),
{
    if rounds.len() == 0 {
        Seq::empty()
    } else {
        all_blocks(rounds.drop_last()) + rounds.last().blocks
    }
}

/// For each sample that a round hands out, whether it is a cleaned one; else it is silence that
/// was put in.
pub open spec fn round_marks<S>(v: FramerView<S>, r: EchoRound<S>) -> Seq<bool> {
    Seq::new(r.out.len(), |i: int| i < v.clean.len() + aec::sound_of(r.blocks).len())
}

/// For each sample that went out, whether it is a cleaned one.
pub open spec fn marks<S>(start: FramerView<S>, rounds: Seq<EchoRound<S>>) -> Seq<bool>
    decreases rounds.len(),
{
    if rounds.len() == 0 {
        Seq::empty()
    } else {
        let n = rounds.len() - 1;
        marks(start, rounds.drop_last()) + round_marks(
            before_round(start, rounds, n),
            rounds.last(),
        )
    }
}

/// The samples that are marked, in order.
pub open spec fn picked<S>(s: Seq<S>, m: Seq<bool>) -> Seq<S>
    decreases s.len(),
{
    if s.len() == 0 {
        Seq::empty()
    } else if m[s.len() - 1] {
        picked(s.drop_last(), m).push(s.last())
    } else {
        picked(s.drop_last(), m)
    }
}

/// How many samples are silence that was put in.
pub open spec fn put_in<S>(s: Seq<S>, m: Seq<bool>) -> int {
    s.len() - picked(s, m).len()
}

/// How many samples a framer holds back.
pub open spec fn held_back<S>(v: FramerView<S>) -> int {
    (v.mic.len() + v.clean.len()) as int
}

/// Every cleaned block is as long as a block.
pub open spec fn full_blocks<S>(blocks: Seq<CleanedBlock<S>>) -> bool {
    forall|i: int| 0 <= i < blocks.len() ==> (#[trigger] blocks[i]).clean@.len() == FRAME
}

/// What holds after the rounds: see `lemma_echo_life`.
pub open spec fn life_holds<S>(start: FramerView<S>, rounds: Seq<EchoRound<S>>) -> bool {
    let end = before_round(start, rounds, rounds.len() as int);
    let blocks = all_blocks(rounds);
    let m = marks(start, rounds);
    &&& heard(rounds).len() == fed(rounds).len()
    &&& m.len() == heard(rounds).len()
    &&& blocks.len() == fed(rounds).len() as int / FRAME as int
    &&& forall|i: int|
        0 <= i < blocks.len() ==> (#[trigger] blocks[i]).block.mic@ == fed(rounds).subrange(
            i * FRAME,
            i * FRAME + FRAME,
        )
    &&& picked(heard(rounds), m) + end.clean == aec::sound_of(blocks)
    &&& forall|i: int| 0 <= i < m.len() && !#[trigger] m[i] ==> heard(rounds)[i] == start.silence
    &&& put_in(heard(rounds), m) == held_back(end)
    &&& held_back(end) < FRAME
    &&& end.mic == fed(rounds).skip(blocks.len() * FRAME)
    &&& end.silence == start.silence
}

/// Blocks in a row sound one after another.
proof fn lemma_sound_of_add<S>(a: Seq<CleanedBlock<S>>, b: Seq<CleanedBlock<S>>)
    ensures
        aec::sound_of(a + b) == aec::sound_of(a) + aec::sound_of(b),
    decreases b.len(),
{
    if b.len() == 0 {
        assert(a + b =~= a);
        assert(aec::sound_of(a) + aec::sound_of(b) =~= aec::sound_of(a));
    } else {
        assert((a + b).drop_last() =~= a + b.drop_last());
        assert((a + b).last() == b.last());
        lemma_sound_of_add(a, b.drop_last());
        assert(aec::sound_of(a + b) =~= aec::sound_of(a) + aec::sound_of(b));
    }
}

/// Full blocks add up.
proof fn lemma_sound_of_len<S>(blocks: Seq<CleanedBlock<S>>)
    requires
        full_blocks(blocks),
    ensures
        aec::sound_of(blocks).len() == blocks.len() * FRAME,
    decreases blocks.len(),
{
    if blocks.len() > 0 {
        let shorter = blocks.drop_last();
        assert forall|i: int| 0 <= i < shorter.len() implies (#[trigger] shorter[i]).clean@.len()
            == FRAME by {
            assert(blocks[i].clean@.len() == FRAME);
        }
        lemma_sound_of_len(shorter);
        assert(blocks[blocks.len() - 1].clean@.len() == FRAME);
    }
}

/// Only the marks of the samples at hand count.
proof fn lemma_picked_prefix<S>(s: Seq<S>, m: Seq<bool>, more: Seq<bool>)
    requires
        s.len() <= m.len(),
    ensures
        picked(s, m + more) == picked(s, m),
    decreases s.len(),
{
    if s.len() > 0 {
        lemma_picked_prefix(s.drop_last(), m, more);
    }
}

/// Of further samples of which the first `k` are marked, those are picked.
proof fn lemma_picked_append<S>(s: Seq<S>, m: Seq<bool>, t: Seq<S>, u: Seq<bool>, k: int)
    requires
        s.len() == m.len(),
        t.len() == u.len(),
        0 <= k <= t.len(),
        forall|i: int| 0 <= i < u.len() ==> (#[trigger] u[i] <==> i < k),
    ensures
        picked(s + t, m + u) == picked(s, m) + t.take(k),
    decreases t.len(),
{
    if t.len() == 0 {
        assert(s + t =~= s);
        assert(m + u =~= m);
        assert(picked(s, m) + t.take(k) =~= picked(s, m));
    } else {
        let n = t.len() - 1;
        let t1 = t.drop_last();
        let u1 = u.drop_last();
        assert((s + t).drop_last() =~= s + t1);
        assert(m + u =~= m + u1 + seq![u.last()]);
        lemma_picked_prefix(s + t1, m + u1, seq![u.last()]);
        assert((m + u)[s.len() + n] == u[n]);
        if k == t.len() {
            lemma_picked_append(s, m, t1, u1, n as int);
            assert(t1.take(n as int).push(t.last()) =~= t.take(k));
            assert(picked(s, m) + t.take(k) =~= (picked(s, m) + t1.take(n as int)).push(t.last()));
        } else {
            lemma_picked_append(s, m, t1, u1, k);
            assert(t1.take(k) =~= t.take(k));
        }
    }
}

/// Where nothing is picked nothing is marked.
proof fn lemma_nothing_picked<S>(s: Seq<S>, m: Seq<bool>, i: int)
    requires
        s.len() <= m.len(),
        0 <= i < s.len(),
        picked(s, m).len() == 0,
    ensures
        !m[i],
    decreases s.len(),
{
    if i < s.len() - 1 {
        lemma_nothing_picked(s.drop_last(), m, i);
    }
}

/// One more round keeps what holds.
proof fn lemma_one_more_round<S>(start: FramerView<S>, rounds: Seq<EchoRound<S>>)
    requires
        rounds.len() > 0,
        life_holds(start, rounds.drop_last()),
        aec::is_round(
            before_round(start, rounds.drop_last(), rounds.len() - 1),
            rounds.last(),
        ),
        full_blocks(rounds.last().blocks),
    ensures
        life_holds(start, rounds),
{
    let shorter = rounds.drop_last();
    let r = rounds.last();
    let v = before_round(start, shorter, shorter.len() as int);
    assert(before_round(start, rounds, rounds.len() - 1) == v);
    let f = FRAME as int;
    let old_fed = fed(shorter);
    let old_blocks = all_blocks(shorter);
    let done = old_blocks.len() as int;
    let all = old_fed + r.input;
    let mic = v.mic + r.input;
    let k = mic.len() as int / f;
    let n = r.input.len() as int;
    let clean = v.clean + aec::sound_of(r.blocks);
    vstd::arithmetic::div_mod::lemma_fundamental_div_mod(old_fed.len() as int, f);
    vstd::arithmetic::div_mod::lemma_fundamental_div_mod(mic.len() as int, f);
    assert(mic =~= all.skip(done * f));
    let blocks = old_blocks + r.blocks;
    assert(all.len() as int / f == done + k) by {
        vstd::arithmetic::div_mod::lemma_fundamental_div_mod_converse(
            all.len() as int,
            f,
            done + k,
            mic.len() as int % f,
        );
    }
    assert forall|i: int| 0 <= i < blocks.len() implies (#[trigger] blocks[i]).block.mic@
        == all.subrange(i * FRAME, i * FRAME + FRAME) by {
        if i < done {
            assert(blocks[i] == old_blocks[i]);
            assert(i * f + f <= done * f) by (nonlinear_arith)
                requires
                    i + 1 <= done,
                    f >= 0,
            ;
            assert(all.subrange(i * f, i * f + f) =~= old_fed.subrange(i * f, i * f + f));
        } else {
            let j = i - done;
            assert(blocks[i] == r.blocks[j]);
            assert(aec::is_block(mic, v.primed, r.ring, r.blocks[j], j));
            assert(j * f + f <= k * f) by (nonlinear_arith)
                requires
                    j + 1 <= k,
                    f >= 0,
            ;
            assert(i * f == done * f + j * f) by (nonlinear_arith)
                requires
                    i == done + j,
            ;
            assert(mic.subrange(j * f, j * f + f) =~= all.subrange(i * f, i * f + f));
        }
    }
    lemma_sound_of_add(old_blocks, r.blocks);
    lemma_sound_of_len(r.blocks);
    let given = if n < clean.len() {
        n
    } else {
        clean.len() as int
    };
    let m0 = marks(start, shorter);
    let m1 = round_marks(v, r);
    lemma_picked_append(heard(shorter), m0, r.out, m1, given);
    let end = r.after;
    assert(r.out.take(given) + end.clean =~= clean);
    assert(picked(heard(shorter), m0) + r.out.take(given) + end.clean =~= picked(
        heard(shorter),
        m0,
    ) + v.clean + aec::sound_of(r.blocks));
    assert(mic.skip(k * f) =~= all.skip((done + k) * f)) by {
        assert((done + k) * f == done * f + k * f) by (nonlinear_arith);
    }
    let m = marks(start, rounds);
    assert(m == m0 + m1);
    assert forall|i: int| 0 <= i < m.len() && !#[trigger] m[i] implies heard(rounds)[i]
        == start.silence by {
        if i < m0.len() {
            assert(!m0[i]);
        } else {
            assert(!m1[i - m0.len()]);
        }
    }
}

/// Over the whole life of a framer, whatever portions its samples come in: the samples that go
/// out are the canceller's blocks in order, none lost or repeated, with silence put in where they
/// lag behind; less than a block of silence is put in over the whole life; and exactly the whole
/// blocks of what came in were cleaned, in order. As long as no whole block came in, all that
/// goes out is silence.
pub proof fn lemma_echo_life<S>(start: FramerView<S>, rounds: Seq<EchoRound<S>>)
    requires
        is_fresh(start),
        is_life(start, rounds),
        full_blocks(all_blocks(rounds)),
    ensures
        life_holds(start, rounds),
        put_in(heard(rounds), marks(start, rounds)) <= FRAME - 1,
        fed(rounds).len() < FRAME ==> forall|i: int|
            0 <= i < heard(rounds).len() ==> #[trigger] heard(rounds)[i] == start.silence,
    decreases rounds.len(),
{
    if rounds.len() == 0 {
        assert(start.mic =~= fed(rounds).skip(0));
        assert(picked(heard(rounds), marks(start, rounds)) + start.clean =~= aec::sound_of(
            all_blocks(rounds),
        ));
    } else {
        let shorter = rounds.drop_last();
        let r = rounds.last();
        let n = shorter.len() as int;
        assert forall|i: int| 0 <= i < shorter.len() implies aec::is_round(
            before_round(start, shorter, i),
            #[trigger] shorter[i],
        ) by {
            assert(aec::is_round(before_round(start, rounds, i), rounds[i]));
        }
        assert(aec::is_round(before_round(start, rounds, n), rounds[n]));
        assert forall|i: int| 0 <= i < all_blocks(shorter).len() implies (#[trigger] all_blocks(
            shorter,
        )[i]).clean@.len() == FRAME by {
            assert(all_blocks(rounds)[i] == all_blocks(shorter)[i]);
        }
        assert forall|i: int| 0 <= i < r.blocks.len() implies (#[trigger] r.blocks[i]).clean@.len()
            == FRAME by {
            assert(all_blocks(rounds)[all_blocks(shorter).len() + i] == r.blocks[i]);
        }
        lemma_echo_life(start, shorter);
        lemma_one_more_round(start, rounds);
    }
    if fed(rounds).len() < FRAME {
        assert forall|i: int| 0 <= i < heard(rounds).len() implies #[trigger] heard(rounds)[i]
            == start.silence by {
            lemma_nothing_picked(heard(rounds), marks(start, rounds), i);
        }
    }
}

/// The ring takes a sample at its end as long as it holds less than a second.
pub proof fn lemma_ring_offer(ring: &mut RefRing, y: i16, r: bool)
    requires
        call_ensures(RefRing::offer, (ring, y), r),
    ensures
        r <==> old(ring)@.len() < 48000,
        r ==> final(ring)@.len() == old(ring)@.len() + 1 && final(ring)@.last() == y
            && final(ring)@.drop_last() == old(ring)@,
        !r ==> final(ring)@ == old(ring)@,
{
    if r {
        assert(final(ring)@.drop_last() =~= old(ring)@);
    }
}

/// The next block: the oldest 480 samples of the microphone, and with them the oldest 480 of the
/// reference, once 1440 of it were there at a block; until then, and where they do not suffice,
/// zeros. Of what is left of the reference the newest half second stays.
pub proof fn lemma_next_block<S: Copy + Default>(
    f: &mut EchoFramer<S>,
    ring: &mut RefRing,
    r: Option<EchoBlock>,
)
    requires
        call_ensures(EchoFramer::<S>::next_block, (f, ring), r),
    ensures
        r is Some <==> old(f)@.mic.len() >= 480,
        r is None ==> final(f)@ == old(f)@ && final(ring)@ == old(ring)@,
        r matches Some(b) ==> {
            let used = (old(f)@.primed || old(ring)@.len() >= 1440) && old(ring)@.len() >= 480;
            let rest = if used {
                old(ring)@.skip(480)
            } else {
                old(ring)@
            };
            &&& b.mic@ == old(f)@.mic.take(480)
            &&& final(f)@.mic == old(f)@.mic.skip(480)
            &&& final(f)@.clean == old(f)@.clean
            &&& final(f)@.primed <==> old(f)@.primed || old(ring)@.len() >= 1440
            &&& b.echo@.len() == 480
            &&& used ==> b.echo@ == old(ring)@.take(480)
            &&& !used ==> forall|i: int| 0 <= i < 480 ==> b.echo@[i] == 0
            &&& rest.len() <= 24000 ==> final(ring)@ == rest
            &&& rest.len() > 24000 ==> final(ring)@ == rest.skip(rest.len() - 24000)
        },
{
}

/// Samples wait in order, on their way in and on their way out; where too few are cleaned the
/// rest of a portion is silence.
pub proof fn lemma_framer_queues<S: Copy + Default>(
    a: &mut EchoFramer<S>,
    mic: &[i16],
    b: &mut EchoFramer<S>,
    clean: &[S],
    c: &mut EchoFramer<S>,
    out: &mut [S],
)
    requires
        call_ensures(EchoFramer::<S>::push_mic, (a, mic), ()),
        call_ensures(EchoFramer::<S>::push_clean, (b, clean), ()),
        call_ensures(EchoFramer::<S>::take_clean, (c, out), ()),
    ensures
        final(a)@.mic == old(a)@.mic + mic@,
        final(a)@.clean == old(a)@.clean && final(a)@.primed == old(a)@.primed,
        final(a)@.silence == old(a)@.silence && final(b)@.silence == old(b)@.silence,
        final(c)@.silence == old(c)@.silence,
        final(b)@.clean == old(b)@.clean + clean@,
        final(b)@.mic == old(b)@.mic && final(b)@.primed == old(b)@.primed,
        final(out)@.len() == old(out)@.len(),
        forall|i: int|
            0 <= i < final(out)@.len() ==> #[trigger] final(out)@[i] == (if i
                < old(c)@.clean.len() {
                old(c)@.clean[i]
            } else {
                old(c)@.silence
            }),
        old(out)@.len() <= old(c)@.clean.len() ==> final(c)@.clean == old(c)@.clean.skip(
            old(out)@.len() as int,
        ),
        old(out)@.len() > old(c)@.clean.len() ==> final(c)@.clean.len() == 0,
        final(c)@.mic == old(c)@.mic && final(c)@.primed == old(c)@.primed,
{
    if old(out)@.len() == old(c)@.clean.len() {
        assert(final(c)@.clean =~= old(c)@.clean.skip(old(out)@.len() as int));
    }
}

/// At first the ring and the framer hold nothing, and the reference is not in use.
pub proof fn lemma_new_framer<S: Copy + Default>(
    ring: RefRing,
    other: &RefRing,
    n: usize,
    f: EchoFramer<S>,
)
    requires
        call_ensures(RefRing::new, (), ring),
        call_ensures(RefRing::len, (other,), n),
        call_ensures(EchoFramer::<S>::new, (), f),
    ensures
        ring@.len() == 0,
        n == other@.len(),
        f@.mic.len() == 0,
        f@.clean.len() == 0,
        !f@.primed,
        call_ensures(S::default, (), f@.silence),
{
}

/// A call of the framer is a round of its life, with the canceller behind each block.
pub proof fn lemma_process_is_round<S: Copy + Default, F: Fn(EchoBlock) -> Vec<S>>(
    f: &mut EchoFramer<S>,
    ring: &mut RefRing,
    input: &[i16],
    out: &mut [S],
    cancel: F,
)
    requires
        call_ensures(EchoFramer::<S>::process::<F>, (f, ring, input, out, cancel), ()),
    ensures
        exists|r: EchoRound<S>| #[trigger]
            aec::is_round(old(f)@, r) && aec::cleaned_by(cancel, r.blocks) && r.input == input@
                && r.out == final(out)@ && r.after == final(f)@ && r.ring == old(ring)@
                && r.ring_after == final(ring)@,
{
    let blocks = choose|blocks: Seq<CleanedBlock<S>>| #[trigger]
        aec::cleaned_by(cancel, blocks) && aec::is_round(
            old(f)@,
            EchoRound {
                input: input@,
                ring: old(ring)@,
                blocks,
                out: final(out)@,
                after: final(f)@,
                ring_after: final(ring)@,
            },
        );
    let r = EchoRound {
        input: input@,
        ring: old(ring)@,
        blocks,
        out: final(out)@,
        after: final(f)@,
        ring_after: final(ring)@,
    };
    assert(aec::is_round(old(f)@, r));
}

/// Blocks in a row get the reference in a row, as long as it suffices and has not fallen behind.
pub proof fn lemma_references_in_a_row<S>(v: FramerView<S>, r: EchoRound<S>, i: int)
    requires
        aec::is_round(v, r),
        v.primed || r.ring.len() >= 1440,
        0 <= i < r.blocks.len(),
        i * 480 + 480 <= r.ring.len() <= 24000,
    ensures
        r.blocks[i].block.echo@ == r.ring.subrange(i * 480, i * 480 + 480),
{
    lemma_ring_consumed(v.primed, r.ring, i);
    let mic = v.mic + r.input;
    assert(aec::is_block(mic, v.primed, r.ring, r.blocks[i], i));
    assert(r.ring.skip(i * 480).take(480) =~= r.ring.subrange(i * 480, i * 480 + 480));
}

/// Each block takes its part off the reference.
proof fn lemma_ring_consumed(primed: bool, ring: Seq<i16>, k: int)
    requires
        primed || ring.len() >= 1440,
        0 <= k,
        k * 480 <= ring.len() <= 24000,
    ensures
        aec::after_references(primed, ring, k).1 == ring.skip(k * 480),
        k > 0 ==> aec::after_references(primed, ring, k).0,
        aec::primed_by(aec::after_references(primed, ring, k).0, ring),
    decreases k,
{
    if k > 0 {
        lemma_ring_consumed(primed, ring, k - 1);
        let (p, r) = aec::after_references(primed, ring, k - 1);
        assert(r.skip(480) =~= ring.skip(k * 480));
        if k - 1 == 0 {
            assert(r =~= ring);
        }
    } else {
        assert(ring.skip(0) =~= ring);
    }
}

/// Block by block the reference is used up as one block alone uses it: it is in use from the block
/// on at which 1440 samples of it were there; a block takes 480 of them, or zeros where the
/// reference is not in use or does not suffice; and of the rest the newest half second stays.
pub proof fn lemma_reference_step(primed: bool, ring: Seq<i16>, k: int)
    requires
        k >= 0,
    ensures
        aec::after_references(primed, ring, 0) == (primed, ring),
        ({
            let (p, r) = aec::after_references(primed, ring, k);
            let (p2, r2) = aec::after_references(primed, ring, k + 1);
            let used = (p || r.len() >= 1440) && r.len() >= 480;
            let rest = if used {
                r.skip(480)
            } else {
                r
            };
            let echo = aec::reference_block(p, r);
            &&& p2 <==> p || r.len() >= 1440
            &&& rest.len() <= 24000 ==> r2 == rest
            &&& rest.len() > 24000 ==> r2 == rest.skip(rest.len() - 24000)
            &&& echo.len() == 480
            &&& used ==> echo == r.take(480)
            &&& !used ==> forall|i: int| 0 <= i < 480 ==> #[trigger] echo[i] == 0
        }),
{
}

/// What a round does: all whole blocks of the microphone are cleaned, each with the reference
/// that is due; as many samples go out as came in, the cleaned ones in order, and silence where
/// they do not suffice. What does not make a block stays, and so does what is cleaned and did not
/// go out.
pub proof fn lemma_round<S>(v: FramerView<S>, r: EchoRound<S>)
    requires
        aec::is_round(v, r),
    ensures
        ({
            let mic = v.mic + r.input;
            let k = r.blocks.len() as int;
            let clean = v.clean + aec::sound_of(r.blocks);
            let n = r.input.len() as int;
            &&& k * 480 <= mic.len() < (k + 1) * 480
            &&& forall|i: int|
                0 <= i < k ==> (#[trigger] r.blocks[i]).block.mic@ == mic.subrange(
                    i * 480,
                    i * 480 + 480,
                )
            &&& forall|i: int|
                0 <= i < k ==> (#[trigger] r.blocks[i]).block.echo@ == aec::reference_block(
                    aec::after_references(v.primed, r.ring, i).0,
                    aec::after_references(v.primed, r.ring, i).1,
                )
            &&& r.out.len() == n
            &&& forall|i: int|
                0 <= i < n ==> #[trigger] r.out[i] == if i < clean.len() {
                    clean[i]
                } else {
                    v.silence
                }
            &&& r.after.mic == mic.skip(k * 480)
            &&& n <= clean.len() ==> r.after.clean == clean.skip(n)
            &&& n > clean.len() ==> r.after.clean.len() == 0
            &&& r.after.silence == v.silence
            &&& r.after.primed == aec::after_references(v.primed, r.ring, k).0
            &&& r.ring_after == aec::after_references(v.primed, r.ring, k).1
        }),
{
    let mic = v.mic + r.input;
    let clean = v.clean + aec::sound_of(r.blocks);
    let k = r.blocks.len() as int;
    vstd::arithmetic::div_mod::lemma_fundamental_div_mod(mic.len() as int, 480);
    assert forall|i: int| 0 <= i < k implies (#[trigger] r.blocks[i]).block.mic@ == mic.subrange(
        i * 480,
        i * 480 + 480,
    ) && r.blocks[i].block.echo@ == aec::reference_block(
        aec::after_references(v.primed, r.ring, i).0,
        aec::after_references(v.primed, r.ring, i).1,
    ) by {
        assert(aec::is_block(mic, v.primed, r.ring, r.blocks[i], i));
    }
    if r.input.len() == clean.len() {
        assert(r.after.clean =~= clean.skip(r.input.len() as int));
    }
}

/// The cleaned samples of blocks are those of one block after another.
pub proof fn lemma_sound_of_blocks<S>(blocks: Seq<CleanedBlock<S>>, b: CleanedBlock<S>)
    ensures
        aec::sound_of(Seq::<CleanedBlock<S>>::empty()).len() == 0,
        aec::sound_of(blocks.push(b)) == aec::sound_of(blocks) + b.clean@,
{
    assert(blocks.push(b).drop_last() =~= blocks);
}

/// Once the reference is in use it stays in use, and it comes in use only with a block.
pub proof fn lemma_reference_stays_in_use<S>(v: FramerView<S>, r: EchoRound<S>)
    requires
        aec::is_round(v, r),
    ensures
        r.after.primed <==> v.primed || r.blocks.len() > 0 && r.ring.len() >= 1440,
        r.blocks.len() == 0 ==> r.ring_after == r.ring,
        r.ring_after.len() <= r.ring.len(),
{
    lemma_use_of_reference(v.primed, r.ring, r.blocks.len() as int);
}

/// The reference gets shorter only, so that it comes in use at the first block or not at all.
proof fn lemma_use_of_reference(primed: bool, ring: Seq<i16>, k: int)
    requires
        k >= 0,
    ensures
        aec::after_references(primed, ring, k).0 <==> primed || k > 0 && ring.len() >= 1440,
        aec::after_references(primed, ring, k).1.len() <= ring.len(),
        k == 0 ==> aec::after_references(primed, ring, k).1 == ring,
    decreases k,
{
    if k > 0 {
        lemma_use_of_reference(primed, ring, k - 1);
    }
}

} // verus!
