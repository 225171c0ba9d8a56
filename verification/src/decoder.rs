//! Decoding: plain PCM16, and what to try when an Opus decoder fails.

use crate::bytes;
use crate::bytes::{i16_from_le, push_i16_le};
use crate::jitter::{FrameCall, FrameDecoder};
use vstd::prelude::*;

verus! {

/// An exact sample level: `raw` out of 32768, halved `halvings` times.
#[derive(Debug, Clone, Copy, PartialEq, Eq, Structural)]
pub struct PcmLevel {
    pub raw: i16,
    pub halvings: u32,
}

impl PcmLevel {
    /// The level of a sample as it came in.
    pub open spec fn of(raw: i16) -> Self {
        PcmLevel { raw, halvings: 0 }
    }

    /// Half the level. Nothing can be told from silence long before the count of halvings ends.
    pub open spec fn halved(self) -> Self {
        PcmLevel {
            raw: self.raw,
            halvings: if self.halvings == u32::MAX {
                u32::MAX
            } else {
                (self.halvings + 1) as u32
            },
        }
    }

    fn half(self) -> (r: Self)
        ensures
            r == self.halved(),
    {
        PcmLevel { raw: self.raw, halvings: self.halvings.saturating_add(1) }
    }
}

impl Default for PcmLevel {
    /// Silence.
    fn default() -> (r: Self)
        ensures
            r == PcmLevel::of(0),
    {
        PcmLevel { raw: 0, halvings: 0 }
    }
}

/// The frame of `n` samples that a payload of 16-bit samples gives: what is missing is silence,
/// what is too much is left out.
pub open spec fn pcm_frame(payload: Seq<u8>, n: int) -> Seq<PcmLevel> {
    Seq::new(
        n as nat,
        |i: int|
            if 2 * i + 1 < payload.len() {
                PcmLevel::of(bytes::le_i16(payload[2 * i], payload[2 * i + 1]))
            } else {
                PcmLevel::of(0)
            },
    )
}

/// The frame that stands in for a lost one after the frame `last`: the last one at half its
/// level, or silence where there is none of that length.
pub open spec fn faded(last: Seq<PcmLevel>, n: int) -> Seq<PcmLevel> {
    if last.len() == n {
        last.map_values(|l: PcmLevel| l.halved())
    } else {
        Seq::new(n as nat, |i: int| PcmLevel::of(0))
    }
}

/// The bytes of 16-bit samples.
pub open spec fn pcm_bytes(samples: Seq<i16>) -> Seq<u8>
    decreases samples.len(),
{
    if samples.len() == 0 {
        Seq::empty()
    } else {
        pcm_bytes(samples.drop_last()) + bytes::i16_le(samples.last())
    }
}

/// The bytes of 16-bit samples, low byte first.
pub fn pcm_payload(samples: &[i16]) -> (v: Vec<u8>)
    ensures
        v@ == pcm_bytes(samples@),
{
    let mut v: Vec<u8> = Vec::new();
    let mut i: usize = 0;
    while i < samples.len()
        invariant
            i <= samples@.len(),
            v@ == pcm_bytes(samples@.take(i as int)),
        decreases samples@.len() - i,
    {
        push_i16_le(&mut v, samples[i]);
        assert(samples@.take(i + 1).drop_last() =~= samples@.take(i as int));
        i = i + 1;
    }
    assert(samples@.take(i as int) =~= samples@);
    v
}

/// Where the bytes of a sample stand.
proof fn lemma_pcm_bytes(samples: Seq<i16>, i: int)
    requires
        0 <= i < samples.len(),
    ensures
        pcm_bytes(samples).len() == 2 * samples.len(),
        pcm_bytes(samples)[2 * i] == bytes::i16_le(samples[i])[0],
        pcm_bytes(samples)[2 * i + 1] == bytes::i16_le(samples[i])[1],
    decreases samples.len(),
{
    let shorter = samples.drop_last();
    if shorter.len() > 0 {
        lemma_pcm_bytes(
            shorter,
            if i < shorter.len() {
                i
            } else {
                0
            },
        );
    } else {
        assert(pcm_bytes(shorter).len() == 0);
    }
}

/// Samples survive the way through a payload.
pub proof fn lemma_pcm_roundtrip(samples: Seq<i16>)
    ensures
        pcm_frame(pcm_bytes(samples), samples.len() as int) == samples.map_values(
            |s: i16| PcmLevel::of(s),
        ),
{
    let got = pcm_frame(pcm_bytes(samples), samples.len() as int);
    let want = samples.map_values(|s: i16| PcmLevel::of(s));
    assert forall|i: int| 0 <= i < samples.len() implies got[i] == want[i] by {
        lemma_pcm_bytes(samples, i);
        bytes::lemma_i16_roundtrip(samples[i]);
    }
    assert(got =~= want);
}

/// Decodes PCM16. There is no redundancy in it; a lost frame is the last one, fading.
pub struct PcmDec {
    last: Vec<PcmLevel>,
}

impl View for PcmDec {
    type V = Seq<PcmLevel>;

    /// The frame that came out last.
    closed spec fn view(&self) -> Seq<PcmLevel> {
        self.last@
    }
}

impl PcmDec {
    /// A decoder that has seen no frame.
    pub fn new() -> (r: Self)
        ensures
            r@.len() == 0,
    {
        PcmDec { last: Vec::new() }
    }

    /// Keeps a copy of the frame in `out`.
    fn remember(&mut self, out: &[PcmLevel])
        ensures
            final(self)@ == out@,
    {
        let mut last: Vec<PcmLevel> = Vec::new();
        let mut i: usize = 0;
        while i < out.len()
            invariant
                i <= out@.len(),
                last@ =~= out@.take(i as int),
            decreases out@.len() - i,
        {
            last.push(out[i]);
            i = i + 1;
        }
        assert(out@.take(i as int) =~= out@);
        self.last = last;
    }
}

impl Default for PcmDec {
    fn default() -> (r: Self)
        ensures
            r@.len() == 0,
    {
        PcmDec::new()
    }
}

impl FrameDecoder<PcmLevel> for PcmDec {
    open spec fn step(
        pre: Self,
        call: FrameCall,
        before: Seq<PcmLevel>,
        post: Self,
        after: Seq<PcmLevel>,
    ) -> bool {
        match call {
            FrameCall::Decode(payload) => {
                &&& after == pcm_frame(payload, before.len() as int)
                &&& post@ == after
            },
            _ => {
                &&& after == faded(pre@, before.len() as int)
                &&& post@ == if pre@.len() == before.len() {
                    after
                } else {
                    pre@
                }
            },
        }
    }

    fn decode(&mut self, payload: &[u8], out: &mut [PcmLevel]) {
        let n: usize = out.len();
        let mut i: usize = 0;
        while i < n
            invariant
                i <= n,
                n == out@.len(),
                n as int == old(out)@.len(),
                forall|j: int| 0 <= j < i ==> out@[j] == pcm_frame(payload@, n as int)[j],
            decreases n - i,
        {
            if i < payload.len() / 2 {
                out[i] = PcmLevel {
                    raw: i16_from_le(payload[2 * i], payload[2 * i + 1]),
                    halvings: 0,
                };
            } else {
                out[i] = PcmLevel { raw: 0, halvings: 0 };
            }
            i = i + 1;
        }
        assert(out@ =~= pcm_frame(payload@, n as int));
        self.remember(out);
    }

    fn decode_fec(&mut self, next_payload: &[u8], out: &mut [PcmLevel]) {
        self.conceal(out);
    }

    fn conceal(&mut self, out: &mut [PcmLevel]) {
        let n: usize = out.len();
        let known: bool = self.last.len() == n;
        let mut i: usize = 0;
        while i < n
            invariant
                i <= n,
                n == out@.len(),
                n as int == old(out)@.len(),
                *self == *old(self),
                known == (self.last@.len() == n),
                forall|j: int| 0 <= j < i ==> out@[j] == faded(self.last@, n as int)[j],
            decreases n - i,
        {
            if known {
                out[i] = self.last[i].half();
            } else {
                out[i] = PcmLevel { raw: 0, halvings: 0 };
            }
            i = i + 1;
        }
        assert(out@ =~= faded(self.last@, n as int));
        if known {
            self.remember(out);
        }
    }
}

/// What an Opus decoder is to be asked for next.
#[derive(Debug, Clone, Copy, PartialEq, Eq, Structural)]
pub enum OpusAttempt {
    /// Decode the payload.
    Payload,
    /// Rebuild the frame before the payload from the payload's redundancy.
    Redundancy,
    /// Conceal a loss.
    Lost,
    /// Nothing: the frame is silence.
    Silence,
}

impl OpusAttempt {
    /// What comes after a failure: failed redundancy falls back to concealment, everything else
    /// to silence.
    pub open spec fn fallback(self) -> OpusAttempt {
        match self {
            OpusAttempt::Redundancy => OpusAttempt::Lost,
            _ => OpusAttempt::Silence,
        }
    }

    /// What to try after this attempt failed.
    pub fn after_error(self) -> (r: OpusAttempt)
        ensures
            r == self.fallback(),
    {
        match self {
            OpusAttempt::Redundancy => OpusAttempt::Lost,
            _ => OpusAttempt::Silence,
        }
    }
}

/// However often the decoder fails, the third attempt at the latest is silence.
pub proof fn lemma_opus_attempts_end(a: OpusAttempt)
    ensures
        a.fallback().fallback() == OpusAttempt::Silence,
        a != OpusAttempt::Redundancy ==> a.fallback() == OpusAttempt::Silence,
{
}

} // verus!
