//! The samples that a resampler interpolates between.
//!
//! A resampler walks over its source in fractional steps. The window holds the source samples
//! from the left neighbour of the current position on; the walk itself is up to the resampler.

use std::collections::VecDeque;
use vstd::prelude::*;

verus! {

/// A window on a stream of source samples. It is never empty: it starts with one sample of
/// silence.
pub struct SourceWindow<S> {
    silence: S,
    /// The left neighbour of the current position.
    carry: S,
    fifo: VecDeque<S>,
}

impl<S> View for SourceWindow<S> {
    type V = Seq<S>;

    /// The samples of the window, from the left neighbour of the current position on.
    closed spec fn view(&self) -> Seq<S> {
        seq![self.carry] + self.fifo@
    }
}

/// How many samples a window of the samples `w` lacks to have `needed` to the right of its
/// first one.
pub open spec fn lacking<S>(w: Seq<S>, needed: int) -> int {
    if w.len() - 1 < needed {
        needed - (w.len() - 1)
    } else {
        0
    }
}

impl<S: Copy + Default> SourceWindow<S> {
    /// The sample that stands for silence.
    pub closed spec fn silence(self) -> S {
        self.silence
    }

    /// A window on nothing yet.
    pub fn new() -> (r: Self)
        ensures
            call_ensures(S::default, (), r.silence()),
            r@ == seq![r.silence()],
    {
        let silence: S = S::default();
        let r = SourceWindow { silence, carry: silence, fifo: VecDeque::new() };
        assert(r@ =~= seq![r.silence()]);
        r
    }

    /// Forgets all samples.
    pub fn reset(&mut self)
        ensures
            final(self)@ == seq![old(self).silence()],
            final(self).silence() == old(self).silence(),
    {
        self.carry = self.silence;
        self.fifo.clear();
        assert(self@ =~= seq![self.silence()]);
    }

    /// How many samples are to be fed before the walk can reach `needed` samples ahead.
    pub fn deficit(&self, needed: usize) -> (r: usize)
        ensures
            r == lacking(self@, needed as int),
    {
        let n: usize = self.fifo.len();
        if n < needed {
            needed - n
        } else {
            0
        }
    }

    /// Appends source samples.
    pub fn feed(&mut self, samples: &[S])
        ensures
            final(self)@ == old(self)@ + samples@,
            final(self).silence() == old(self).silence(),
    {
        let mut i: usize = 0;
        while i < samples.len()
            invariant
                i <= samples@.len(),
                self.silence == old(self).silence,
                self.carry == old(self).carry,
                self.fifo@ =~= old(self).fifo@ + samples@.take(i as int),
            decreases samples@.len() - i,
        {
            self.fifo.push_back(samples[i]);
            i = i + 1;
        }
        assert(samples@.take(i as int) =~= samples@);
        assert(self@ =~= old(self)@ + samples@);
    }

    /// The neighbours of a position between sample `i` and the one after it.
    pub fn neighbours(&self, i: usize) -> (r: (S, S))
        requires
            i + 1 < self@.len(),
        ensures
            r == (self@[i as int], self@[i + 1]),
    {
        let left: S = if i == 0 {
            self.carry
        } else {
            self.fifo[i - 1]
        };
        (left, self.fifo[i])
    }

    /// Moves the window `n` samples ahead.
    pub fn advance(&mut self, n: usize)
        requires
            n < old(self)@.len(),
        ensures
            final(self)@ == old(self)@.skip(n as int),
            final(self).silence() == old(self).silence(),
    {
        let mut i: usize = 0;
        assert(self@.skip(0) =~= self@);
        while i < n
            invariant
                i <= n < old(self)@.len(),
                self.silence == old(self).silence,
                self@ == old(self)@.skip(i as int),
            decreases n - i,
        {
            let ghost before = self@;
            assert(before.len() >= 2);
            assert(self.fifo@.len() >= 1);
            if let Some(x) = self.fifo.pop_front() {
                self.carry = x;
            }
            assert(self@ =~= before.skip(1));
            assert(before.skip(1) =~= old(self)@.skip(i + 1));
            i = i + 1;
        }
    }
}

/// It does not matter where one call ends and the next begins: a position in a window that was
/// moved ahead by `n` has the neighbours that it had before, `n` further on, also after more
/// samples came.
pub proof fn lemma_advance_shifts<S>(w: Seq<S>, n: int, more: Seq<S>, i: int)
    requires
        0 <= n < w.len(),
        0 <= i,
        n + i < w.len() + more.len(),
    ensures
        (w.skip(n) + more)[i] == (w + more)[n + i],
        w.skip(n) + more == (w + more).skip(n),
{
    assert(w.skip(n) + more =~= (w + more).skip(n));
}

/// Feeding what is lacking gives exactly the samples that are needed, or leaves those that are
/// more.
pub proof fn lemma_feeding_suffices<S>(w: Seq<S>, needed: int, fed: Seq<S>)
    requires
        w.len() >= 1,
        0 <= needed,
        fed.len() == lacking(w, needed),
    ensures
        (w + fed).len() - 1 >= needed,
        w.len() - 1 <= needed ==> (w + fed).len() - 1 == needed,
{
}

} // verus!
