//! The framing around an echo canceller.
//!
//! A canceller takes blocks of fixed size: a block of the microphone and the block that the
//! loudspeaker played meanwhile. The reference ring gathers what the loudspeaker plays; the
//! framer cuts the microphone into blocks, finds each one its reference, and hands the cleaned
//! samples out again in any portion.

use std::collections::VecDeque;
use vstd::prelude::*;

verus! {

/// Samples of a block: 10 ms.
pub const FRAME: usize = 480;

/// The length of the echo that is looked for: about 240 ms.
pub const TAIL: usize = 11_520;

/// The ring holds no more than this: one second.
pub const RING_CAP: usize = 48_000;

/// The reference is not used before this much of it is there, as a margin for alignment.
pub const PRIME_LEN: usize = 1_440;

/// What the loudspeaker played, oldest first.
pub struct RefRing {
    samples: VecDeque<i16>,
}

impl View for RefRing {
    type V = Seq<i16>;

    closed spec fn view(&self) -> Seq<i16> {
        self.samples@
    }
}

/// The newest samples of a ring that is to hold at most `n`.
pub open spec fn newest(ring: Seq<i16>, n: int) -> Seq<i16> {
    if ring.len() > n {
        ring.skip(ring.len() - n)
    } else {
        ring
    }
}

impl RefRing {
    /// An empty ring.
    pub fn new() -> (r: Self)
        ensures
            r@ == Seq::<i16>::empty(),
    {
        RefRing { samples: VecDeque::new() }
    }

    /// How many samples there are.
    pub fn len(&self) -> (r: usize)
        ensures
            r == self@.len(),
    {
        self.samples.len()
    }

    /// Appends a sample; a full ring drops it.
    pub fn offer(&mut self, y: i16) -> (r: bool)
        ensures
            r == (old(self)@.len() < RING_CAP),
            final(self)@ == (if old(self)@.len() < RING_CAP {
                old(self)@.push(y)
            } else {
                old(self)@
            }),
            old(self)@.len() <= RING_CAP ==> final(self)@.len() <= RING_CAP,
    {
        if self.samples.len() < RING_CAP {
            self.samples.push_back(y);
            true
        } else {
            false
        }
    }

    /// Takes the oldest block.
    fn take_block(&mut self) -> (r: Vec<i16>)
        requires
            old(self)@.len() >= FRAME,
        ensures
            r@ == old(self)@.take(FRAME as int),
            final(self)@ == old(self)@.skip(FRAME as int),
    {
        let r: Vec<i16> = take_front(&mut self.samples, FRAME);
        r
    }

    /// Drops the oldest samples of a ring that is more than half full, so that the reference
    /// does not fall behind.
    fn catch_up(&mut self)
        ensures
            final(self)@ == newest(old(self)@, RING_CAP as int / 2),
    {
        let ghost all = self@;
        assert(all.skip(0) =~= all);
        while self.samples.len() > RING_CAP / 2
            invariant
                self@.len() <= all.len(),
                self@ == all.skip(all.len() - self@.len()),
                self@.len() >= RING_CAP / 2 || self@ == all,
            decreases self@.len(),
        {
            let ghost before = self@;
            let _ = self.samples.pop_front();
            assert(self@ =~= before.skip(1));
            assert(self@ =~= all.skip(all.len() - self@.len()));
        }
    }
}

/// Takes the first `n` samples off a queue.
fn take_front(queue: &mut VecDeque<i16>, n: usize) -> (r: Vec<i16>)
    requires
        old(queue)@.len() >= n,
    ensures
        r@ == old(queue)@.take(n as int),
        final(queue)@ == old(queue)@.skip(n as int),
{
    let ghost all = queue@;
    let mut out: Vec<i16> = Vec::new();
    let mut i: usize = 0;
    assert(all.skip(0) =~= all);
    while i < n
        invariant
            i <= n <= all.len(),
            out@ == all.take(i as int),
            queue@ == all.skip(i as int),
        decreases n - i,
    {
        match queue.pop_front() {
            Some(x) => {
                out.push(x);
            },
            None => {},
        }
        i = i + 1;
        assert(out@ =~= all.take(i as int));
        assert(queue@ =~= all.skip(i as int));
    }
    out
}

/// A block of the microphone and its reference.
pub struct EchoBlock {
    pub mic: Vec<i16>,
    pub echo: Vec<i16>,
}

/// Cuts the microphone into blocks and gathers the cleaned samples, which are of type `S`.
pub struct EchoFramer<S> {
    mic: VecDeque<i16>,
    clean: VecDeque<S>,
    primed: bool,
    silence: S,
}

/// What a framer holds.
#[verifier::ext_equal]
pub struct FramerView<S> {
    /// Samples of the microphone that do not make a block yet.
    pub mic: Seq<i16>,
    /// Cleaned samples.
    pub clean: Seq<S>,
    /// The reference is in use.
    pub primed: bool,
    pub silence: S,
}

impl<S> View for EchoFramer<S> {
    type V = FramerView<S>;

    closed spec fn view(&self) -> FramerView<S> {
        FramerView {
            mic: self.mic@,
            clean: self.clean@,
            primed: self.primed,
            silence: self.silence,
        }
    }
}

/// A block of silence.
pub open spec fn silent_block() -> Seq<i16> {
    Seq::new(FRAME as nat, |i: int| 0i16)
}

/// The reference is in use from the block on at which enough of it was there.
pub open spec fn primed_by(primed: bool, ring: Seq<i16>) -> bool {
    primed || ring.len() >= PRIME_LEN
}

/// The reference for the next block: the oldest block of the ring, or silence where the
/// reference is not in use or does not suffice.
pub open spec fn reference_block(primed: bool, ring: Seq<i16>) -> Seq<i16> {
    if primed_by(primed, ring) && ring.len() >= FRAME {
        ring.take(FRAME as int)
    } else {
        silent_block()
    }
}

/// The ring after the reference for a block was taken.
pub open spec fn ring_after(primed: bool, ring: Seq<i16>) -> Seq<i16> {
    newest(
        if primed_by(primed, ring) && ring.len() >= FRAME {
            ring.skip(FRAME as int)
        } else {
            ring
        },
        RING_CAP as int / 2,
    )
}

impl<S: Copy + Default> EchoFramer<S> {
    /// A framer that holds nothing.
    pub fn new() -> (r: Self)
        ensures
            r@ == (FramerView {
                mic: Seq::empty(),
                clean: Seq::empty(),
                primed: false,
                silence: r@.silence,
            }),
            call_ensures(S::default, (), r@.silence),
    {
        let silence: S = S::default();
        EchoFramer { mic: VecDeque::new(), clean: VecDeque::new(), primed: false, silence }
    }

    /// Appends samples of the microphone.
    pub fn push_mic(&mut self, samples: &[i16])
        ensures
            final(self)@ == (FramerView { mic: old(self)@.mic + samples@, ..old(self)@ }),
    {
        let ghost before = self@;
        let mut i: usize = 0;
        assert(self@.mic =~= before.mic + samples@.take(0));
        while i < samples.len()
            invariant
                i <= samples@.len(),
                self@ == (FramerView { mic: before.mic + samples@.take(i as int), ..before }),
            decreases samples@.len() - i,
        {
            self.mic.push_back(samples[i]);
            i = i + 1;
            assert(self@.mic =~= before.mic + samples@.take(i as int));
        }
        assert(samples@.take(i as int) =~= samples@);
    }

    /// Takes the next whole block of the microphone, if there is one, and its reference.
    pub fn next_block(&mut self, ring: &mut RefRing) -> (r: Option<EchoBlock>)
        ensures
            r is Some <==> old(self)@.mic.len() >= FRAME,
            r is None ==> final(self)@ == old(self)@ && final(ring)@ == old(ring)@,
            r matches Some(b) ==> {
                &&& b.mic@ == old(self)@.mic.take(FRAME as int)
                &&& b.echo@ == reference_block(old(self)@.primed, old(ring)@)
                &&& final(ring)@ == ring_after(old(self)@.primed, old(ring)@)
                &&& final(self)@ == (FramerView {
                    mic: old(self)@.mic.skip(FRAME as int),
                    primed: primed_by(old(self)@.primed, old(ring)@),
                    ..old(self)@
                })
            },
    {
        if self.mic.len() < FRAME {
            return None;
        }
        let mic: Vec<i16> = take_front(&mut self.mic, FRAME);
        if !self.primed && ring.len() >= PRIME_LEN {
            self.primed = true;
        }
        let echo: Vec<i16> = if self.primed && ring.len() >= FRAME {
            ring.take_block()
        } else {
            let mut zeros: Vec<i16> = Vec::new();
            let mut i: usize = 0;
            while i < FRAME
                invariant
                    i <= FRAME,
                    zeros@.len() == i,
                    forall|k: int| 0 <= k < i ==> zeros@[k] == 0i16,
                decreases FRAME - i,
            {
                zeros.push(0);
                i = i + 1;
            }
            assert(zeros@ =~= silent_block());
            zeros
        };
        ring.catch_up();
        Some(EchoBlock { mic, echo })
    }

    /// Appends cleaned samples.
    pub fn push_clean(&mut self, samples: &[S])
        ensures
            final(self)@ == (FramerView { clean: old(self)@.clean + samples@, ..old(self)@ }),
    {
        let ghost before = self@;
        let mut i: usize = 0;
        assert(self@.clean =~= before.clean + samples@.take(0));
        while i < samples.len()
            invariant
                i <= samples@.len(),
                self@ == (FramerView { clean: before.clean + samples@.take(i as int), ..before }),
            decreases samples@.len() - i,
        {
            self.clean.push_back(samples[i]);
            i = i + 1;
            assert(self@.clean =~= before.clean + samples@.take(i as int));
        }
        assert(samples@.take(i as int) =~= samples@);
    }

    /// Fills `out` with the next cleaned samples; where there are too few the rest is silence.
    pub fn take_clean(&mut self, out: &mut [S])
        ensures
            final(out)@.len() == old(out)@.len(),
            final(out)@ == taken(old(self)@, old(out)@.len() as int),
            final(self)@ == (FramerView {
                clean: left_over(old(self)@.clean, old(out)@.len() as int),
                ..old(self)@
            }),
    {
        let ghost before = self@;
        let n: usize = out.len();
        let mut i: usize = 0;
        assert(left_over(before.clean, 0) =~= before.clean);
        while i < n
            invariant
                i <= n,
                n == out@.len(),
                n == old(out)@.len(),
                forall|k: int| 0 <= k < i ==> #[trigger] out@[k] == taken(before, n as int)[k],
                self@ == (FramerView { clean: left_over(before.clean, i as int), ..before }),
            decreases n - i,
        {
            let x: S = match self.clean.pop_front() {
                Some(x) => x,
                None => self.silence,
            };
            out[i] = x;
            i = i + 1;
            assert(self@.clean =~= left_over(before.clean, i as int));
        }
        assert(out@ =~= taken(before, n as int));
    }
}

/// A block of the microphone with its reference, and what the canceller made of them.
pub struct CleanedBlock<S> {
    pub block: EchoBlock,
    pub clean: Vec<S>,
}

/// Whether the reference is in use, and what the ring holds, after the references for `k` blocks
/// were taken.
pub open spec fn after_references(primed: bool, ring: Seq<i16>, k: int) -> (bool, Seq<i16>)
    decreases k,
{
    if k <= 0 {
        (primed, ring)
    } else {
        let (p, r) = after_references(primed, ring, k - 1);
        (primed_by(p, r), ring_after(p, r))
    }
}

/// `b` is the block `i` of the microphone samples `mic`, with the reference that it is due.
pub open spec fn is_block<S>(
    mic: Seq<i16>,
    primed: bool,
    ring: Seq<i16>,
    b: CleanedBlock<S>,
    i: int,
) -> bool {
    let (p, r) = after_references(primed, ring, i);
    &&& b.block.mic@ == mic.subrange(i * FRAME, i * FRAME + FRAME)
    &&& b.block.echo@ == reference_block(p, r)
}

/// The cleaned samples of blocks, one after another.
pub open spec fn sound_of<S>(blocks: Seq<CleanedBlock<S>>) -> Seq<S>
    decreases blocks.len(),
{
    if blocks.len() == 0 {
        Seq::empty()
    } else {
        sound_of(blocks.drop_last()) + blocks.last().clean@
    }
}

/// A round: samples come in, all whole blocks are cleaned, and as many samples go out.
pub struct EchoRound<S> {
    pub input: Seq<i16>,
    /// What the ring holds before the round.
    pub ring: Seq<i16>,
    pub blocks: Seq<CleanedBlock<S>>,
    pub out: Seq<S>,
    /// The framer after the round.
    pub after: FramerView<S>,
    /// What the ring holds after the round.
    pub ring_after: Seq<i16>,
}

/// The round is one that a framer in the state `v` makes.
pub open spec fn is_round<S>(v: FramerView<S>, r: EchoRound<S>) -> bool {
    let mic = v.mic + r.input;
    let k = mic.len() as int / FRAME as int;
    let full = FramerView { clean: v.clean + sound_of(r.blocks), ..v };
    &&& r.blocks.len() == k
    &&& forall|i: int|
        0 <= i < k ==> is_block(mic, v.primed, r.ring, #[trigger] r.blocks[i], i)
    &&& r.out == taken(full, r.input.len() as int)
    &&& r.after == (FramerView {
        mic: mic.skip(k * FRAME),
        clean: left_over(full.clean, r.input.len() as int),
        primed: after_references(v.primed, r.ring, k).0,
        ..v
    })
    &&& r.ring_after == after_references(v.primed, r.ring, k).1
}

/// Every block of the round went through the canceller.
pub open spec fn cleaned_by<S, F: Fn(EchoBlock) -> Vec<S>>(
    cancel: F,
    blocks: Seq<CleanedBlock<S>>,
) -> bool {
    forall|i: int|
        0 <= i < blocks.len() ==> call_ensures(
            cancel,
            ((#[trigger] blocks[i]).block,),
            blocks[i].clean,
        )
}

/// A framer in the state `v` may take `input`, with the ring `ring` and the canceller `cancel`,
/// hand out `out`, and leave the state `w` and the ring `ring2`.
pub open spec fn processed<S, F: Fn(EchoBlock) -> Vec<S>>(
    v: FramerView<S>,
    ring: Seq<i16>,
    input: Seq<i16>,
    cancel: F,
    out: Seq<S>,
    w: FramerView<S>,
    ring2: Seq<i16>,
) -> bool {
    exists|blocks: Seq<CleanedBlock<S>>| #[trigger]
        cleaned_by(cancel, blocks) && is_round(
            v,
            EchoRound { input, ring, blocks, out, after: w, ring_after: ring2 },
        )
}

impl<S: Copy + Default> EchoFramer<S> {
    /// Takes in samples of the microphone, hands each whole block with its reference to the
    /// canceller, and fills `out`, which is as long, with cleaned samples. Where they lag behind,
    /// silence is put in.
    pub fn process<F: Fn(EchoBlock) -> Vec<S>>(
        &mut self,
        ring: &mut RefRing,
        input: &[i16],
        out: &mut [S],
        cancel: F,
    )
        requires
            old(out)@.len() == input@.len(),
            forall|b: EchoBlock| call_requires(cancel, (b,)),
        ensures
            final(out)@.len() == old(out)@.len(),
            processed(
                old(self)@,
                old(ring)@,
                input@,
                cancel,
                final(out)@,
                final(self)@,
                final(ring)@,
            ),
    {
        let ghost v = self@;
        let ghost ring0 = ring@;
        self.push_mic(input);
        let ghost mic = self@.mic;
        let ghost mut blocks: Seq<CleanedBlock<S>> = Seq::empty();
        assert(mic.skip(0) =~= mic);
        assert(v.clean + sound_of(blocks) =~= v.clean);
        loop
            invariant
                mic == v.mic + input@,
                blocks.len() * FRAME <= mic.len(),
                self@ == (FramerView {
                    mic: mic.skip(blocks.len() * FRAME),
                    clean: v.clean + sound_of(blocks),
                    primed: after_references(v.primed, ring0, blocks.len() as int).0,
                    ..v
                }),
                ring@ == after_references(v.primed, ring0, blocks.len() as int).1,
                forall|i: int|
                    0 <= i < blocks.len() ==> is_block(
                        mic,
                        v.primed,
                        ring0,
                        #[trigger] blocks[i],
                        i,
                    ),
                cleaned_by(cancel, blocks),
                forall|b: EchoBlock| call_requires(cancel, (b,)),
            ensures
                self@.mic.len() < FRAME,
            decreases self@.mic.len(),
        {
            let ghost k = blocks.len() as int;
            let ghost prev = blocks;
            match self.next_block(ring) {
                Some(b) => {
                    let ghost block = b;
                    let clean: Vec<S> = cancel(b);
                    self.push_clean(clean.as_slice());
                    proof {
                        let c = CleanedBlock { block, clean };
                        blocks = prev.push(c);
                        assert(blocks.drop_last() =~= prev);
                        assert(blocks.last() == c);
                        assert(mic.skip(k * FRAME).take(FRAME as int) =~= mic.subrange(
                            k * FRAME,
                            k * FRAME + FRAME,
                        ));
                        assert(mic.skip(k * FRAME).skip(FRAME as int) =~= mic.skip((k + 1) * FRAME));
                        assert(is_block(mic, v.primed, ring0, c, k));
                        assert forall|i: int| 0 <= i < blocks.len() implies is_block(
                            mic,
                            v.primed,
                            ring0,
                            #[trigger] blocks[i],
                            i,
                        ) by {
                            if i < k {
                                assert(blocks[i] == prev[i]);
                            }
                        }
                        assert(v.clean + sound_of(prev) + clean@ =~= v.clean + sound_of(blocks));
                        assert forall|i: int| 0 <= i < blocks.len() implies call_ensures(
                            cancel,
                            ((#[trigger] blocks[i]).block,),
                            blocks[i].clean,
                        ) by {
                            if i < k {
                                assert(blocks[i] == prev[i]);
                            }
                        }
                    }
                },
                None => {
                    break ;
                },
            }
        }
        let ghost full = self@;
        proof {
            let k = blocks.len() as int;
            vstd::arithmetic::div_mod::lemma_fundamental_div_mod_converse(
                mic.len() as int,
                FRAME as int,
                k,
                mic.len() - k * FRAME,
            );
        }
        self.take_clean(out);
        proof {
            let r = EchoRound {
                input: input@,
                ring: ring0,
                blocks,
                out: out@,
                after: self@,
                ring_after: ring@,
            };
            assert(r.out =~= taken(
                FramerView { clean: v.clean + sound_of(blocks), ..v },
                input@.len() as int,
            ));
            assert(cleaned_by(cancel, blocks) && is_round(v, r));
        }
    }
}

/// `n` samples taken from the cleaned ones, with silence where there are too few.
pub open spec fn taken<S>(v: FramerView<S>, n: int) -> Seq<S> {
    Seq::new(
        n as nat,
        |i: int|
            if i < v.clean.len() {
                v.clean[i]
            } else {
                v.silence
            },
    )
}

/// What is left after `n` samples are taken.
pub open spec fn left_over<S>(clean: Seq<S>, n: int) -> Seq<S> {
    if n < clean.len() {
        clean.skip(n)
    } else {
        Seq::empty()
    }
}

/// The reference never falls behind by more than half the ring, and it is the newest part of
/// the ring that is kept.
pub proof fn lemma_reference_keeps_up(primed: bool, ring: Seq<i16>)
    ensures
        ring_after(primed, ring).len() <= RING_CAP / 2,
        ring.len() <= RING_CAP ==> exists|k: int|
            0 <= k <= ring.len() && ring_after(primed, ring) == #[trigger] ring.skip(k),
{
    let rest = if primed_by(primed, ring) && ring.len() >= FRAME {
        ring.skip(FRAME as int)
    } else {
        ring
    };
    let k = ring.len() - ring_after(primed, ring).len();
    assert(ring_after(primed, ring) =~= ring.skip(k));
}

/// No reference is used before a margin of it has gathered; once in use, it stays in use.
pub proof fn lemma_reference_priming(ring: Seq<i16>, later: Seq<i16>)
    ensures
        ring.len() < PRIME_LEN ==> reference_block(false, ring) == silent_block()
            && !primed_by(false, ring),
        primed_by(true, later),
        later.len() >= FRAME ==> reference_block(true, later) == later.take(FRAME as int),
{
}

} // verus!
