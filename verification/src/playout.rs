//! Handing samples out: to all channels of a device, or to nobody at an even pace.

use vstd::prelude::*;

verus! {

/// Without a device this much is played at a time (nanoseconds).
pub const PACE_NS: u64 = 10_000_000;

/// Samples that are played at a time without a device.
pub const PACE_SAMPLES: usize = 480;

/// Puts each sample of `mono` on all channels of its frame.
pub fn spread<T: Copy>(mono: &[T], channels: usize, data: &mut [T])
    requires
        channels > 0,
        old(data)@.len() == mono@.len() * channels,
    ensures
        final(data)@.len() == old(data)@.len(),
        forall|i: int|
            0 <= i < final(data)@.len() ==> #[trigger] final(data)@[i] == mono@[i / (
            channels as int)],
{
    let n: usize = data.len();
    let mut frame: usize = 0;
    let mut at: usize = 0;
    while frame < mono.len()
        invariant
            channels > 0,
            n == data@.len(),
            n == old(data)@.len(),
            n == mono@.len() * channels,
            frame <= mono@.len(),
            at == frame * channels,
            forall|i: int|
                0 <= i < at ==> #[trigger] data@[i] == mono@[i / (channels as int)],
        decreases mono@.len() - frame,
    {
        proof {
            let m = mono@.len() as int;
            let f = frame as int;
            let c = channels as int;
            assert(f * c + c <= m * c) by (nonlinear_arith)
                requires
                    f + 1 <= m,
                    c > 0,
            ;
            assert((f + 1) * c == f * c + c) by (nonlinear_arith);
        }
        let x: T = mono[frame];
        let mut ch: usize = 0;
        while ch < channels
            invariant
                channels > 0,
                ch <= channels,
                n == data@.len(),
                n == old(data)@.len(),
                at == frame * channels,
                at + channels <= n,
                frame < mono@.len(),
                x == mono@[frame as int],
                forall|i: int|
                    0 <= i < at + ch ==> #[trigger] data@[i] == mono@[i / (channels as int)],
            decreases channels - ch,
        {
            data[at + ch] = x;
            proof {
                let i = at + ch;
                vstd::arithmetic::div_mod::lemma_fundamental_div_mod_converse(
                    i,
                    channels as int,
                    frame as int,
                    ch as int,
                );
            }
            ch = ch + 1;
        }
        at = at + channels;
        frame = frame + 1;
    }
}

/// The clock of a playback without a device. Times are nanoseconds since its start.
#[derive(Debug, Clone, Copy)]
pub struct Pacer {
    next: u64,
}

impl Pacer {
    /// When the last portion is due.
    pub closed spec fn due(self) -> u64 {
        self.next
    }

    /// Nothing was played yet.
    pub fn new() -> (r: Self)
        ensures
            r.due() == 0,
    {
        Pacer { next: 0 }
    }

    /// When the last portion is due.
    pub fn last_due(&self) -> (r: u64)
        ensures
            r == self.due(),
    {
        self.next
    }

    /// Moves on to the next portion and says how long to wait for it: until it is due, and not
    /// at all when it is late already. Lost time is caught up with.
    pub fn step(&mut self, now: u64) -> (wait: u64)
        requires
            old(self).due() + PACE_NS <= u64::MAX,
        ensures
            final(self).due() == old(self).due() + PACE_NS,
            wait == if final(self).due() > now {
                final(self).due() - now
            } else {
                0
            },
    {
        self.next = self.next + PACE_NS;
        if self.next > now {
            self.next - now
        } else {
            0
        }
    }
}

/// Whether playback without a device ends: `duration` seconds are over, zero being no limit.
pub fn time_is_up(duration: u64, elapsed_ns: u64) -> (r: bool)
    ensures
        r == (duration > 0 && elapsed_ns >= duration * 1_000_000_000),
{
    duration > 0 && elapsed_ns as u128 >= duration as u128 * 1_000_000_000
}

} // verus!
