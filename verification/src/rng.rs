//! A small seeded pseudo-random generator for repeatable network simulations.

use vstd::prelude::*;

verus! {

/// The multiplier that scrambles the state into the output.
pub const OUTPUT_MULTIPLIER: u64 = 0x2545F4914F6CDD1D;

/// An xorshift64* generator. Its state is never zero.
pub struct Rng(u64);

/// The state that follows `x`: three xor-shifts by 12, 25 and 27 bits.
pub open spec fn next_state(x: u64) -> u64 {
    let a = x ^ (x >> 12);
    let b = a ^ (a << 25);
    b ^ (b >> 27)
}

/// The number that a generator in state `x` hands out after its step.
pub open spec fn output(x: u64) -> u64 {
    ((x * OUTPUT_MULTIPLIER) % 0x1_0000_0000_0000_0000) as u64
}

/// The step never leads a nonzero state to zero.
pub proof fn lemma_next_state_nonzero(x: u64)
    requires
        x != 0,
    ensures
        next_state(x) != 0,
{
    assert(({
        let a = x ^ (x >> 12u64);
        let b = a ^ (a << 25u64);
        b ^ (b >> 27u64)
    }) != 0) by (bit_vector)
        requires
            x != 0,
    ;
}

impl Rng {
    /// The current state.
    pub closed spec fn state(self) -> u64 {
        self.0
    }

    #[verifier::type_invariant]
    spec fn nonzero(self) -> bool {
        self.0 != 0
    }

    /// A generator with the given seed; a zero seed counts as one.
    pub fn new(seed: u64) -> (r: Self)
        ensures
            r.state() == if seed == 0 { 1 } else { seed },
            r.state() != 0,
    {
        if seed == 0 {
            Rng(1)
        } else {
            Rng(seed)
        }
    }

    /// Steps the generator and returns the next 64-bit number.
    pub fn next_u64(&mut self) -> (r: u64)
        ensures
            final(self).state() == next_state(old(self).state()),
            r == output(final(self).state()),
            final(self).state() != 0,
    {
        proof {
            use_type_invariant(&*self);
            lemma_next_state_nonzero(self.0);
        }
        let x: u64 = self.0;
        let a: u64 = x ^ (x >> 12);
        let b: u64 = a ^ (a << 25);
        let c: u64 = b ^ (b >> 27);
        self.0 = c;
        c.wrapping_mul(OUTPUT_MULTIPLIER)
    }

    /// The next number of 53 bits: divided by `2^53` it is spread evenly over the unit interval.
    pub fn next_unit53(&mut self) -> (r: u64)
        ensures
            final(self).state() == next_state(old(self).state()),
            r == output(final(self).state()) >> 11u64,
            r < 0x20_0000_0000_0000,
            final(self).state() != 0,
    {
        let x: u64 = self.next_u64();
        assert(x >> 11u64 < 0x20_0000_0000_0000) by (bit_vector);
        x >> 11
    }

    /// The next number of 32 bits.
    pub fn next_u32(&mut self) -> (r: u32)
        ensures
            final(self).state() == next_state(old(self).state()),
            r == output(final(self).state()) >> 32u64,
            final(self).state() != 0,
    {
        let x: u64 = self.next_u64();
        assert(x >> 32u64 <= 0xffff_ffff) by (bit_vector);
        (x >> 32) as u32
    }
}

} // verus!
