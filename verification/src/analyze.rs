//! Looking for interruptions in a recording.
//!
//! The recording comes as one mark per sample: whether the sample is loud, whether it is silent,
//! whether the next one is a jump away. What counts as that is up to the user.

use vstd::prelude::*;

verus! {

/// Silence of at least this length is listed (milliseconds).
pub const MIN_GAP_MS: u64 = 5;

/// The part of a recording to look at: samples `start` to `end`, `end` not included.
#[derive(Debug, Clone, Copy, PartialEq, Eq, Structural)]
pub struct Region {
    pub start: usize,
    pub end: usize,
}

/// There is nothing to look at.
#[derive(Debug, Clone, Copy, PartialEq, Eq, Structural)]
pub struct NoActiveSound {
    /// How many samples there are up to the last loud one.
    pub active: usize,
}

/// A stretch of silence.
#[derive(Debug, Clone, Copy, PartialEq, Eq, Structural)]
pub struct Gap {
    pub start: usize,
    pub len: usize,
}

/// What is to be said of a recording.
#[derive(Debug, Clone, Copy, PartialEq, Eq, Structural)]
pub enum Verdict {
    /// No interruptions.
    Clean,
    /// There is hardly any sound.
    NoSound,
    /// There are interruptions.
    Interrupted,
}

/// The number of samples up to the last loud one: what follows is the end of the broadcast.
pub open spec fn active_len(loud: Seq<bool>) -> int
    decreases loud.len(),
{
    if loud.len() == 0 || loud.last() {
        loud.len() as int
    } else {
        active_len(loud.drop_last())
    }
}

/// The number of samples of a stretch of time.
pub open spec fn samples_of(ms: u64, rate: u64) -> int {
    ms * rate / 1000
}

/// Where the region ends: this much before the last loud sample.
pub open spec fn region_end(loud: Seq<bool>, tail: int) -> int {
    if active_len(loud) > tail {
        active_len(loud) - tail
    } else {
        0
    }
}

/// The part of a recording to look at, without `skip_ms` at its start and `tail_ms` before its
/// last loud sample.
pub fn active_region(loud: &[bool], rate: u64, skip_ms: u64, tail_ms: u64) -> (r: Result<
    Region,
    NoActiveSound,
>)
    requires
        skip_ms * rate <= u64::MAX,
        tail_ms * rate <= u64::MAX,
    ensures
        r == ({
            let start = samples_of(skip_ms, rate);
            let end = region_end(loud@, samples_of(tail_ms, rate));
            if start < end {
                Ok::<Region, NoActiveSound>(Region { start: start as usize, end: end as usize })
            } else {
                Err(NoActiveSound { active: active_len(loud@) as usize })
            }
        }),
        r matches Ok(g) ==> g.start < g.end <= loud@.len(),
{
    let mut active: usize = loud.len();
    assert(loud@.take(loud@.len() as int) =~= loud@);
    while active > 0 && !loud[active - 1]
        invariant
            active <= loud@.len(),
            active_len(loud@) == active_len(loud@.take(active as int)),
        decreases active,
    {
        assert(loud@.take(active as int).drop_last() =~= loud@.take(active - 1));
        active = active - 1;
    }
    assert(active_len(loud@) == active);
    let skip: u64 = skip_ms * rate / 1000;
    let tail: u64 = tail_ms * rate / 1000;
    let end: u64 = (active as u64).saturating_sub(tail);
    if end <= skip {
        Err(NoActiveSound { active })
    } else {
        Ok(Region { start: skip as usize, end: end as usize })
    }
}

/// All of the samples from `start` on, `len` of them, are silent.
pub open spec fn all_silent(silent: Seq<bool>, start: int, len: int) -> bool {
    forall|i: int| start <= i < start + len ==> #[trigger] silent[i]
}

/// The silence lasts long enough to be listed.
pub open spec fn long_enough(len: int, rate: u64) -> bool {
    len > 0 && len * 1000 >= MIN_GAP_MS * rate
}

/// The stretch is silent, cannot be made longer, and lasts long enough to be listed.
pub open spec fn is_gap(silent: Seq<bool>, rate: u64, g: Gap) -> bool {
    &&& g.start + g.len <= silent.len()
    &&& all_silent(silent, g.start as int, g.len as int)
    &&& g.start > 0 ==> !silent[g.start - 1]
    &&& g.start + g.len < silent.len() ==> !silent[g.start + g.len]
    &&& long_enough(g.len as int, rate)
}

/// `gaps` lists, in order, the gaps that end before the sample `end`.
pub open spec fn lists_gaps(silent: Seq<bool>, rate: u64, end: int, gaps: Seq<Gap>) -> bool {
    &&& forall|k: int| 0 <= k < gaps.len() ==> is_gap(silent, rate, #[trigger] gaps[k])
    &&& forall|k: int| 0 <= k < gaps.len() ==> (#[trigger] gaps[k]).start + gaps[k].len < end
    &&& forall|j: int, k: int|
        0 <= j < k < gaps.len() ==> (#[trigger] gaps[j]).start + gaps[j].len < (
        #[trigger] gaps[k]).start
    &&& forall|g: Gap| #[trigger]
        is_gap(silent, rate, g) && g.start + g.len < end ==> gaps.contains(g)
}

/// The gaps of a recording, in order.
pub fn find_gaps(silent: &[bool], rate: u64) -> (r: Vec<Gap>)
    requires
        silent@.len() < usize::MAX,
        silent@.len() * 1000 <= u64::MAX,
        rate <= u32::MAX,
    ensures
        lists_gaps(silent@, rate, silent@.len() as int + 1, r@),
{
    let n: usize = silent.len();
    let mut gaps: Vec<Gap> = Vec::new();
    let mut run: usize = 0;
    let mut i: usize = 0;
    while i <= n
        invariant
            n == silent@.len(),
            n < usize::MAX,
            i <= n + 1,
            n * 1000 <= u64::MAX,
            rate <= u32::MAX,
            i <= n ==> run <= i,
            i <= n ==> all_silent(silent@, i - run, run as int),
            i <= n && run < i ==> !silent@[i - run - 1],
            lists_gaps(silent@, rate, i as int, gaps@),
        decreases n + 1 - i,
    {
        let ghost before = gaps@;
        if i < n && silent[i] {
            proof {
                assert forall|g: Gap| #[trigger]
                    is_gap(silent@, rate, g) && g.start + g.len < i + 1 implies before.contains(
                    g,
                ) by {
                    assert(g.start + g.len != i);
                }
            }
            run = run + 1;
        } else {
            let ghost g0 = Gap { start: (i - run) as usize, len: run };
            if run > 0 && run as u64 * 1000 >= MIN_GAP_MS * rate {
                gaps.push(Gap { start: i - run, len: run });
                assert(is_gap(silent@, rate, g0));
                assert(gaps@ == before.push(g0));
                assert(gaps@[before.len() as int] == g0);
            }
            proof {
                assert forall|g: Gap| #[trigger]
                    is_gap(silent@, rate, g) && g.start + g.len < i + 1 implies gaps@.contains(
                    g,
                ) by {
                    if g.start + g.len < i {
                        assert(before.contains(g));
                        let k = choose|k: int| 0 <= k < before.len() && before[k] == g;
                        assert(gaps@[k] == g);
                    } else {
                        lemma_same_run(silent@, rate, g, i as int, run as int);
                    }
                }
                assert forall|j: int, k: int| 0 <= j < k < gaps@.len() implies (
                #[trigger] gaps@[j]).start + gaps@[j].len < (#[trigger] gaps@[k]).start by {
                    assert(gaps@[j] == before[j]);
                    if k < before.len() {
                        assert(gaps@[k] == before[k]);
                    } else {
                        lemma_gap_before_run(silent@, rate, before[j], i as int, run as int);
                    }
                }
            }
            run = 0;
        }
        i = i + 1;
    }
    gaps
}

/// A gap that ends where a maximal silent run ends is that run.
proof fn lemma_same_run(silent: Seq<bool>, rate: u64, g: Gap, i: int, run: int)
    requires
        is_gap(silent, rate, g),
        g.start + g.len == i,
        0 <= run <= i <= silent.len(),
        all_silent(silent, i - run, run),
        run < i ==> !silent[i - run - 1],
    ensures
        g.start == i - run,
        g.len == run,
{
    if g.len < run {
        assert(silent[g.start - 1]);
    }
    if g.len > run {
        assert(silent[i - run - 1]);
    }
}

/// A gap that ends before a maximal silent run ends ends before the run starts.
proof fn lemma_gap_before_run(silent: Seq<bool>, rate: u64, g: Gap, i: int, run: int)
    requires
        is_gap(silent, rate, g),
        g.start + g.len < i,
        0 < run <= i <= silent.len(),
        all_silent(silent, i - run, run),
        run < i ==> !silent[i - run - 1],
    ensures
        g.start + g.len < i - run,
{
    if g.start + g.len >= i - run {
        assert(silent[g.start + g.len]);
    }
}

/// The greatest length among the gaps, zero where there are none.
pub open spec fn longest_of(gaps: Seq<Gap>) -> int
    decreases gaps.len(),
{
    if gaps.len() == 0 {
        0
    } else if gaps.last().len > longest_of(gaps.drop_last()) {
        gaps.last().len as int
    } else {
        longest_of(gaps.drop_last())
    }
}

/// The length of the longest gap, zero where there are none.
pub fn longest_gap(gaps: &[Gap]) -> (r: usize)
    ensures
        r == longest_of(gaps@),
{
    let mut best: usize = 0;
    let mut i: usize = 0;
    while i < gaps.len()
        invariant
            i <= gaps@.len(),
            best == longest_of(gaps@.take(i as int)),
        decreases gaps@.len() - i,
    {
        assert(gaps@.take(i + 1).drop_last() =~= gaps@.take(i as int));
        if gaps[i].len > best {
            best = gaps[i].len;
        }
        i = i + 1;
    }
    assert(gaps@.take(i as int) =~= gaps@);
    best
}

/// The gaps that interrupt the recording: those of more than `limit` samples, in order.
pub open spec fn longer_than(gaps: Seq<Gap>, limit: u64) -> Seq<Gap> {
    gaps.filter(|g: Gap| g.len > limit)
}

/// The gaps of more than `limit` samples, in order.
pub fn interruptions(gaps: &[Gap], limit: u64) -> (r: Vec<Gap>)
    ensures
        r@ == longer_than(gaps@, limit),
{
    let mut out: Vec<Gap> = Vec::new();
    let mut i: usize = 0;
    proof {
        reveal(Seq::filter);
    }
    while i < gaps.len()
        invariant
            i <= gaps@.len(),
            out@ == longer_than(gaps@.take(i as int), limit),
        decreases gaps@.len() - i,
    {
        proof {
            reveal(Seq::filter);
            assert(gaps@.take(i + 1).drop_last() =~= gaps@.take(i as int));
        }
        if gaps[i].len as u64 > limit {
            out.push(gaps[i]);
        }
        i = i + 1;
    }
    assert(gaps@.take(i as int) =~= gaps@);
    out
}

/// How many marks are set.
pub open spec fn count_set(marks: Seq<bool>) -> nat
    decreases marks.len(),
{
    if marks.len() == 0 {
        0
    } else {
        count_set(marks.drop_last()) + if marks.last() {
            1nat
        } else {
            0nat
        }
    }
}

/// How many jumps there are, one mark for each pair of neighbours.
pub fn count_clicks(jumps: &[bool]) -> (r: u64)
    requires
        jumps@.len() <= u64::MAX,
    ensures
        r == count_set(jumps@),
{
    let mut n: u64 = 0;
    let mut i: usize = 0;
    while i < jumps.len()
        invariant
            i <= jumps@.len() <= u64::MAX,
            n <= i,
            n == count_set(jumps@.take(i as int)),
        decreases jumps@.len() - i,
    {
        assert(jumps@.take(i + 1).drop_last() =~= jumps@.take(i as int));
        if jumps[i] {
            n = n + 1;
        }
        i = i + 1;
    }
    assert(jumps@.take(i as int) =~= jumps@);
    n
}

/// What is to be said of a recording with `bad` interruptions. `audible` says that it is loud
/// enough and `inaudible` that it is not; of a level that cannot be compared neither holds.
pub fn verdict(bad: usize, audible: bool, inaudible: bool) -> (r: Verdict)
    ensures
        r == if bad == 0 && audible {
            Verdict::Clean
        } else if inaudible {
            Verdict::NoSound
        } else {
            Verdict::Interrupted
        },
{
    if bad == 0 && audible {
        Verdict::Clean
    } else if inaudible {
        Verdict::NoSound
    } else {
        Verdict::Interrupted
    }
}

/// Silence at the end of the recording is no interruption: it lies outside the region, which
/// ends with a loud sample where nothing is left out before it.
pub proof fn lemma_end_of_broadcast_left_out(loud: Seq<bool>)
    ensures
        0 <= active_len(loud) <= loud.len(),
        active_len(loud) > 0 ==> loud[active_len(loud) - 1],
        forall|i: int| active_len(loud) <= i < loud.len() ==> !#[trigger] loud[i],
        region_end(loud, 0) == active_len(loud),
    decreases loud.len(),
{
    if loud.len() > 0 && !loud.last() {
        lemma_end_of_broadcast_left_out(loud.drop_last());
        assert forall|i: int| active_len(loud) <= i < loud.len() implies !#[trigger] loud[i] by {
            if i < loud.len() - 1 {
                assert(loud.drop_last()[i] == loud[i]);
            }
        }
    }
}

/// No gap is longer than the longest, and the longest is one of them.
pub proof fn lemma_longest(gaps: Seq<Gap>)
    ensures
        forall|k: int| 0 <= k < gaps.len() ==> (#[trigger] gaps[k]).len <= longest_of(gaps),
        longest_of(gaps) > 0 ==> exists|k: int|
            0 <= k < gaps.len() && (#[trigger] gaps[k]).len == longest_of(gaps),
    decreases gaps.len(),
{
    if gaps.len() > 0 {
        let rest = gaps.drop_last();
        lemma_longest(rest);
        assert forall|k: int| 0 <= k < gaps.len() implies (#[trigger] gaps[k]).len <= longest_of(
            gaps,
        ) by {
            if k < rest.len() {
                assert(rest[k].len <= longest_of(rest));
            }
        }
        if longest_of(gaps) > 0 {
            if gaps.last().len > longest_of(rest) {
                assert(gaps[gaps.len() - 1].len == longest_of(gaps));
            } else {
                let k = choose|k: int|
                    0 <= k < rest.len() && (#[trigger] rest[k]).len == longest_of(rest);
                assert(gaps[k].len == longest_of(gaps));
            }
        }
    }
}

} // verus!
