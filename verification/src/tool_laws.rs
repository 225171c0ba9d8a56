//! What the smaller parts do, operation by operation: the event log, the search for
//! interruptions, the choices about the host, texts, and handing samples out.

use crate::aec;
use crate::analyze;
use crate::analyze::{Gap, NoActiveSound, Region, Verdict};
use crate::decoder::OpusAttempt;
use crate::engine;
use crate::event_log;
use crate::event_log::EventLog;
use crate::host;
use crate::host::{MicAction, MicEvent, RateRange};
use crate::playout;
use crate::playout::Pacer;
use crate::protocol;
use crate::resampler::SourceWindow;
use crate::rng::Rng;
use crate::sender;
use crate::soundpad;
use crate::text;
use vstd::prelude::*;

verus! {

// ---------------------------------------------------------------------------------------------
// The event log.

/// A line goes to the end of the log; of more than 200 lines the oldest goes.
pub proof fn lemma_line_logged(log: &mut EventLog, s: String)
    requires
        old(log).wf(),
        call_ensures(EventLog::push, (log, s), ()),
    ensures
        final(log)@.len() > 0,
        final(log)@.last() == s@,
        old(log)@.len() < 200 ==> final(log)@.drop_last() == old(log)@,
        old(log)@.len() == 200 ==> final(log)@.drop_last() == old(log)@.drop_first(),
        final(log).echo() == old(log).echo(),
{
    if old(log)@.len() < 200 {
        assert(final(log)@.drop_last() =~= old(log)@);
    } else {
        assert(final(log)@.drop_last() =~= old(log)@.drop_first());
    }
}

/// A tail holds the last lines, as many as are asked for and there, in their order.
pub proof fn lemma_tail(log: &EventLog, n: usize, r: Vec<String>)
    requires
        call_ensures(EventLog::tail, (log, n), r),
    ensures
        r@.len() == (if log@.len() < n {
            log@.len() as int
        } else {
            n as int
        }),
        forall|i: int|
            0 <= i < r@.len() ==> (#[trigger] r@[i])@ == log@[log@.len() - r@.len() + i],
{
    let t = event_log::line_texts(r@);
    assert(t.len() == r@.len());
    assert forall|i: int| 0 <= i < r@.len() implies (#[trigger] r@[i])@ == log@[log@.len()
        - r@.len() + i] by {
        assert(t[i] == r@[i]@);
    }
}

/// A new log is empty, and remembers whether to print.
pub proof fn lemma_new_log(echo: bool, log: EventLog, other: &EventLog, r: bool)
    requires
        call_ensures(EventLog::new, (echo,), log),
        call_ensures(EventLog::echoes, (other,), r),
    ensures
        log@.len() == 0,
        log.echo() == echo,
        r == other.echo(),
{
}

// ---------------------------------------------------------------------------------------------
// The search for interruptions.

/// The region starts after what is skipped and ends that much before the end of the last loud
/// sample; where nothing is left, the number of samples up to there is told.
pub proof fn lemma_region(
    loud: &[bool],
    rate: u64,
    skip_ms: u64,
    tail_ms: u64,
    r: Result<Region, NoActiveSound>,
    active: int,
)
    requires
        loud@.len() <= usize::MAX,
        0 <= active <= loud@.len(),
        active == 0 || loud@[active - 1],
        forall|i: int| active <= i < loud@.len() ==> !#[trigger] loud@[i],
        call_ensures(analyze::active_region, (loud, rate, skip_ms, tail_ms), r),
    ensures
        ({
            let skip = skip_ms * rate / 1000;
            let tail = tail_ms * rate / 1000;
            &&& r is Ok <==> skip + tail < active
            &&& r matches Ok(g) ==> g.start == skip && g.end == active - tail
            &&& r matches Err(e) ==> e.active == active
        }),
{
    lemma_active(loud@, active);
    let a = skip_ms as int;
    let b = tail_ms as int;
    let c = rate as int;
    assert(a * c >= 0 && b * c >= 0) by (nonlinear_arith)
        requires
            a >= 0,
            b >= 0,
            c >= 0,
    ;
}

/// The number of samples up to the last loud one is found.
proof fn lemma_active(loud: Seq<bool>, active: int)
    requires
        0 <= active <= loud.len(),
        active == 0 || loud[active - 1],
        forall|i: int| active <= i < loud.len() ==> !#[trigger] loud[i],
    ensures
        analyze::active_len(loud) == active,
    decreases loud.len(),
{
    if loud.len() > 0 && !loud.last() {
        assert(active < loud.len()) by {
            if active == loud.len() {
                assert(loud[active - 1]);
            }
        }
        lemma_active(loud.drop_last(), active);
    }
}

/// The listed gaps are the stretches of silence of at least 5 ms, each as long as it lasts, in
/// order, and all of them.
pub proof fn lemma_gaps(silent: &[bool], rate: u64, r: Vec<Gap>, start: usize, len: usize)
    requires
        call_ensures(analyze::find_gaps, (silent, rate), r),
    ensures
        forall|i: int, j: int|
            0 <= i < j < r@.len() ==> (#[trigger] r@[i]).start + r@[i].len < (
            #[trigger] r@[j]).start,
        r@.contains(Gap { start, len }) <==> {
            &&& len > 0
            &&& start + len <= silent@.len()
            &&& len * 1000 >= 5 * rate
            &&& forall|i: int| start <= i < start + len ==> #[trigger] silent@[i]
            &&& start == 0 || !silent@[start - 1]
            &&& start + len == silent@.len() || !silent@[start + len]
        },
{
    let g = Gap { start, len };
    assert(r@.contains(g) <==> analyze::is_gap(silent@, rate, g)) by {
        if r@.contains(g) {
            let k = choose|k: int| 0 <= k < r@.len() && r@[k] == g;
            assert(analyze::is_gap(silent@, rate, r@[k]));
        }
    }
}

/// The longest gap is one of them and no shorter than any.
pub proof fn lemma_longest_gap(gaps: &[Gap], r: usize)
    requires
        call_ensures(analyze::longest_gap, (gaps,), r),
    ensures
        forall|i: int| 0 <= i < gaps@.len() ==> (#[trigger] gaps@[i]).len <= r,
        r > 0 ==> exists|i: int| 0 <= i < gaps@.len() && (#[trigger] gaps@[i]).len == r,
        gaps@.len() == 0 ==> r == 0,
{
    analyze::lemma_longest(gaps@);
}

/// The interruptions are the gaps of more than `limit` samples.
pub proof fn lemma_interruptions(gaps: &[Gap], limit: u64, r: Vec<Gap>)
    requires
        call_ensures(analyze::interruptions, (gaps, limit), r),
    ensures
        r@ == gaps@.filter(|g: Gap| g.len > limit),
        forall|i: int|
            0 <= i < gaps@.len() ==> (r@.contains(#[trigger] gaps@[i]) <==> gaps@[i].len > limit),
{
    let pred = |g: Gap| g.len > limit;
    assert forall|i: int| 0 <= i < gaps@.len() implies (r@.contains(#[trigger] gaps@[i])
        <==> gaps@[i].len > limit) by {
        assert(gaps@.contains(gaps@[i]));
        if r@.contains(gaps@[i]) {
            let k = choose|k: int| 0 <= k < r@.len() && r@[k] == gaps@[i];
            assert(pred(r@[k]));
        } else {
            assert(!pred(gaps@[i]));
        }
    }
}

/// Clicks are counted one by one: a mark more at the end is a click more exactly where it is set.
pub proof fn lemma_clicks(jumps: &[bool], r: u64, shorter: &[bool], q: u64)
    requires
        call_ensures(analyze::count_clicks, (jumps,), r),
        call_ensures(analyze::count_clicks, (shorter,), q),
    ensures
        jumps@.len() == 0 ==> r == 0,
        jumps@.len() > 0 && shorter@ == jumps@.drop_last() ==> r == q + if jumps@.last() {
            1int
        } else {
            0int
        },
{
}

/// A recording is clean without interruptions and with sound; without sound there is nothing to
/// hear; else it is interrupted.
pub proof fn lemma_verdict(bad: usize, audible: bool, inaudible: bool, r: Verdict)
    requires
        call_ensures(analyze::verdict, (bad, audible, inaudible), r),
    ensures
        r == Verdict::Clean <==> bad == 0 && audible,
        r == Verdict::NoSound <==> inaudible && !(bad == 0 && audible),
{
}

// ---------------------------------------------------------------------------------------------
// The host.

/// The name is the host's, unless it is missing or blank; then the environment's, if there is
/// one; else `PC`.
pub proof fn lemma_host_name(file: Option<&str>, env: Option<String>, r: String)
    requires
        call_ensures(host::default_name, (file, env), r),
    ensures
        ({
            let blank = match file {
                Some(f) => forall|i: int| 0 <= i < f@.len() ==> text::whitespace(#[trigger] f@[i]),
                None => true,
            };
            &&& !blank ==> r@ == text::trimmed(file.unwrap()@)
            &&& blank && env is Some ==> r@ == env.unwrap()@
            &&& blank && env is None ==> r@ == "PC"@
        }),
{
    if file is Some {
        lemma_blank(file.unwrap()@);
    }
}

/// The first name that is there counts, an empty host name not counted.
pub proof fn lemma_first_name(host: Option<String>, env: Option<String>, r: String)
    requires
        call_ensures(host::first_name, (host, env), r),
    ensures
        host is Some && host.unwrap()@.len() > 0 ==> r@ == host.unwrap()@,
        (host is None || host.unwrap()@.len() == 0) && env is Some ==> r@ == env.unwrap()@,
        (host is None || host.unwrap()@.len() == 0) && env is None ==> r@ == "PC"@,
{
}

/// Of a blank text nothing is left, of any other something.
proof fn lemma_blank(s: Seq<char>)
    ensures
        text::trimmed(s).len() == 0 <==> forall|i: int|
            0 <= i < s.len() ==> text::whitespace(#[trigger] s[i]),
{
    lemma_start(s);
    let from = text::text_start(s);
    let t = s.skip(from);
    lemma_end(t);
    if text::trimmed(s).len() == 0 {
        assert forall|i: int| 0 <= i < s.len() implies text::whitespace(#[trigger] s[i]) by {
            if i >= from {
                assert(t[i - from] == s[i]);
            }
        }
    }
    if forall|i: int| 0 <= i < s.len() ==> text::whitespace(#[trigger] s[i]) {
        if from < s.len() {
            assert(text::whitespace(s[from]));
        }
    }
}

/// The text starts behind its leading whitespace.
proof fn lemma_start(s: Seq<char>)
    ensures
        0 <= text::text_start(s) <= s.len(),
        forall|i: int| 0 <= i < text::text_start(s) ==> text::whitespace(#[trigger] s[i]),
        text::text_start(s) < s.len() ==> !text::whitespace(s[text::text_start(s)]),
    decreases s.len(),
{
    if s.len() > 0 && text::whitespace(s[0]) {
        lemma_start(s.skip(1));
        assert forall|i: int| 0 <= i < text::text_start(s) implies text::whitespace(
            #[trigger] s[i],
        ) by {
            if i > 0 {
                assert(s.skip(1)[i - 1] == s[i]);
            }
        }
    }
}

/// What is cut off the end is whitespace, and what stays does not end in it.
proof fn lemma_end(s: Seq<char>)
    ensures
        ({
            let t = text::trimmed_end(s);
            &&& t.len() <= s.len()
            &&& t == s.take(t.len() as int)
            &&& t.len() > 0 ==> !text::whitespace(t.last())
            &&& forall|i: int| t.len() <= i < s.len() ==> text::whitespace(#[trigger] s[i])
        }),
    decreases s.len(),
{
    if s.len() > 0 && text::whitespace(s.last()) {
        let u = s.drop_last();
        lemma_end(u);
        let t = text::trimmed_end(s);
        assert(u.take(t.len() as int) =~= s.take(t.len() as int));
        assert forall|i: int| t.len() <= i < s.len() implies text::whitespace(#[trigger] s[i]) by {
            if i < s.len() - 1 {
                assert(u[i] == s[i]);
            }
        }
    } else {
        assert(s.take(s.len() as int) =~= s);
    }
}

/// Trimming cuts off the whitespace at both ends, and nothing else.
pub proof fn lemma_trim(s: &str, r: String)
    requires
        call_ensures(text::trim_text, (s,), r),
    ensures
        exists|from: int|
            {
                &&& 0 <= from
                &&& from + r@.len() <= s@.len()
                &&& r@ == #[trigger] s@.subrange(from, from + r@.len())
                &&& forall|i: int| 0 <= i < from ==> text::whitespace(#[trigger] s@[i])
                &&& forall|i: int|
                    from + r@.len() <= i < s@.len() ==> text::whitespace(#[trigger] s@[i])
            },
        r@.len() > 0 ==> !text::whitespace(r@[0]) && !text::whitespace(r@.last()),
{
    let from = text::text_start(s@);
    let t = s@.skip(from);
    lemma_start(s@);
    lemma_end(t);
    assert(r@ =~= s@.subrange(from, from + r@.len()));
    assert forall|i: int| from + r@.len() <= i < s@.len() implies text::whitespace(
        #[trigger] s@[i],
    ) by {
        assert(t[i - from] == s@[i]);
    }
}

/// The whitespace of Unicode, by its code points.
pub proof fn lemma_whitespace(c: char, r: bool)
    requires
        call_ensures(text::is_whitespace, (c,), r),
    ensures
        r <==> {
            let n = c as int;
            ||| 9 <= n <= 13
            ||| n == 32 || n == 133 || n == 160 || n == 5760
            ||| 8192 <= n <= 8202
            ||| n == 8232 || n == 8233 || n == 8239 || n == 8287 || n == 12288
        },
{
}

/// Texts are the same, hold one another, and fall into characters, as their characters say.
pub proof fn lemma_texts(a: &str, b: &str, same: bool, holds: bool, chars: Vec<char>)
    requires
        call_ensures(text::same_text, (a, b), same),
        call_ensures(text::contains_text, (a, b), holds),
        call_ensures(text::characters, (a,), chars),
    ensures
        same <==> a@ == b@,
        holds <==> exists|at: int|
            0 <= at && at + b@.len() <= a@.len() && #[trigger] a@.subrange(at, at + b@.len())
                == b@,
        chars@ == a@,
{
    if holds {
        let at = choose|at: int| text::stands_at(a@, b@, at);
        assert(a@.subrange(at, at + b@.len()) == b@);
    }
    if exists|at: int|
        0 <= at && at + b@.len() <= a@.len() && #[trigger] a@.subrange(at, at + b@.len()) == b@ {
        let at = choose|at: int|
            0 <= at && at + b@.len() <= a@.len() && #[trigger] a@.subrange(at, at + b@.len())
                == b@;
        assert(text::stands_at(a@, b@, at));
    }
}

/// Bytes that are UTF-8 stand for the text that they encode.
pub proof fn lemma_decoded(bytes: &[u8], r: String, chars: Seq<char>)
    requires
        call_ensures(text::decode_text, (bytes,), r),
        bytes@ == vstd::utf8::encode_utf8(chars),
    ensures
        r@ == chars,
{
    text::lemma_text_roundtrip(chars);
}

/// The name `n` holds the pattern `p`.
pub open spec fn name_holds(n: Option<String>, p: Seq<char>) -> bool {
    match n {
        Some(s) => exists|at: int|
            0 <= at && at + p.len() <= s@.len() && #[trigger] s@.subrange(at, at + p.len()) == p,
        None => false,
    }
}

/// The first name that holds the pattern is found, and only where there is none nothing.
pub proof fn lemma_first_holding(names: &Vec<Option<String>>, pattern: &str, r: Option<usize>)
    requires
        call_ensures(host::first_holding, (names, pattern), r),
    ensures
        r matches Some(i) ==> i < names@.len() && name_holds(names@[i as int], pattern@)
            && forall|j: int| 0 <= j < i ==> !name_holds(#[trigger] names@[j], pattern@),
        r is None ==> forall|j: int|
            0 <= j < names@.len() ==> !name_holds(#[trigger] names@[j], pattern@),
{
    let all = names@.map_values(|n: Option<String>| host::name_text(n));
    assert forall|j: int| 0 <= j < names@.len() implies name_holds(
        #[trigger] names@[j],
        pattern@,
    ) == host::holds(all[j], pattern@) by {
        assert(all[j] == host::name_text(names@[j]));
        if names@[j] is Some {
            let s = names@[j].unwrap()@;
            if name_holds(names@[j], pattern@) {
                let at = choose|at: int|
                    0 <= at && at + pattern@.len() <= s.len() && #[trigger] s.subrange(
                        at,
                        at + pattern@.len(),
                    ) == pattern@;
                assert(text::stands_at(s, pattern@, at));
            }
            if host::holds(all[j], pattern@) {
                let at = choose|at: int| text::stands_at(s, pattern@, at);
                assert(s.subrange(at, at + pattern@.len()) == pattern@);
            }
        }
    }
}

/// A device is the first whose name in lower case holds the pattern in lower case.
pub proof fn lemma_device_picked(
    names: &Vec<Option<String>>,
    pattern: &str,
    r: Option<usize>,
    lower: Vec<Option<String>>,
)
    requires
        call_ensures(host::pick_device, (names, pattern), r),
        call_ensures(host::lower_all, (names,), lower),
    ensures
        lower@.len() == names@.len(),
        forall|i: int|
            0 <= i < lower@.len() ==> match (#[trigger] lower@[i], names@[i]) {
                (Some(l), Some(n)) => l@ == text::lowercase(n@),
                (None, None) => true,
                _ => false,
            },
        ({
            let p = text::lowercase(pattern@);
            &&& r matches Some(i) ==> i < names@.len() && name_holds(lower@[i as int], p)
                && forall|j: int| 0 <= j < i ==> !name_holds(#[trigger] lower@[j], p)
            &&& r is None ==> forall|j: int|
                0 <= j < names@.len() ==> !name_holds(#[trigger] lower@[j], p)
        }),
{
    let p = text::lowercase(pattern@);
    let low = lower@.map_values(|n: Option<String>| host::name_text(n));
    let all = names@.map_values(|n: Option<String>| host::lowered(n));
    assert forall|i: int| 0 <= i < lower@.len() implies match (#[trigger] lower@[i], names@[i]) {
        (Some(l), Some(n)) => l@ == text::lowercase(n@),
        (None, None) => true,
        _ => false,
    } by {
        assert(low[i] == all[i]);
    }
    assert forall|j: int| 0 <= j < names@.len() implies name_holds(#[trigger] lower@[j], p)
        == host::holds(all[j], p) by {
        assert(low[j] == all[j]);
        if lower@[j] is Some {
            let s = lower@[j].unwrap()@;
            if name_holds(lower@[j], p) {
                let at = choose|at: int|
                    0 <= at && at + p.len() <= s.len() && #[trigger] s.subrange(at, at + p.len())
                        == p;
                assert(text::stands_at(s, p, at));
            }
            if host::holds(all[j], p) {
                let at = choose|at: int| text::stands_at(s, p, at);
                assert(s.subrange(at, at + p.len()) == p);
            }
        }
    }
}

/// A device that is not at 48 kHz already is opened with the first range that allows it in the
/// default format, if there is one.
pub proof fn lemma_rate_chosen(default_rate: u32, ranges: &Vec<RateRange>, r: Option<usize>)
    requires
        call_ensures(host::choose_rate, (default_rate, ranges), r),
    ensures
        default_rate == 48000 ==> r is None,
        r matches Some(i) ==> {
            &&& i < ranges@.len()
            &&& ranges@[i as int].min <= 48000 <= ranges@[i as int].max
            &&& ranges@[i as int].default_format
            &&& forall|j: int|
                0 <= j < i ==> !((#[trigger] ranges@[j]).min <= 48000 <= ranges@[j].max
                    && ranges@[j].default_format)
        },
        r is None && default_rate != 48000 ==> forall|j: int|
            0 <= j < ranges@.len() ==> !((#[trigger] ranges@[j]).min <= 48000 <= ranges@[j].max
                && ranges@[j].default_format),
{
}

/// The characters of `s` from `a` to `b` are all whitespace, or none of them is.
pub open spec fn all_space(s: Seq<char>, a: int, b: int, space: bool) -> bool {
    forall|i: int| a <= i < b ==> text::whitespace(#[trigger] s[i]) == space
}

/// The line of `s` from `a` to `b` has the name as its second word: space, a word, space, and
/// then the name, which ends with the line or at a space.
pub open spec fn second_word_at(
    s: Seq<char>,
    a: int,
    b: int,
    name: Seq<char>,
    w1: int,
    e1: int,
    w2: int,
) -> bool {
    &&& 0 <= a <= w1 < e1 < w2
    &&& w2 + name.len() <= b <= s.len()
    &&& a == 0 || s[a - 1] == '\n'
    &&& b == s.len() || s[b] == '\n'
    &&& forall|i: int| a <= i < b ==> #[trigger] s[i] != '\n'
    &&& all_space(s, a, w1, true)
    &&& all_space(s, w1, e1, false)
    &&& all_space(s, e1, w2, true)
    &&& all_space(s, w2, w2 + name.len(), false)
    &&& s.subrange(w2, w2 + name.len()) == name
    &&& w2 + name.len() == b || text::whitespace(s[w2 + name.len()])
}

/// A device that stands in a listing as the second word of a line is found.
pub proof fn lemma_listed(
    listing: &str,
    name: &str,
    r: bool,
    a: int,
    b: int,
    w1: int,
    e1: int,
    w2: int,
)
    requires
        name@.len() > 0,
        second_word_at(listing@, a, b, name@, w1, e1, w2),
        call_ensures(host::lists_device, (listing, name), r),
    ensures
        r,
{
    let s = listing@;
    let line = s.subrange(a, b);
    lemma_space_len(line, w1 - a);
    let t1 = line.skip(w1 - a);
    lemma_word_len(t1, e1 - w1);
    let rest = t1.skip(e1 - w1);
    assert(host::after_word(line) == rest);
    assert forall|i: int| 0 <= i < w2 - e1 implies text::whitespace(#[trigger] rest[i]) by {
        assert(rest[i] == s[e1 + i]);
    }
    assert(rest[w2 - e1] == s[w2]);
    lemma_space_len(rest, w2 - e1);
    let t2 = rest.skip(w2 - e1);
    lemma_word_len(t2, name@.len() as int);
    assert(t2.take(name@.len() as int) =~= name@);
    assert(host::is_line(s, a, b));
}

/// How much whitespace a text starts with.
proof fn lemma_space_len(s: Seq<char>, k: int)
    requires
        0 <= k < s.len(),
        forall|i: int| 0 <= i < k ==> text::whitespace(#[trigger] s[i]),
        !text::whitespace(s[k]),
    ensures
        text::text_start(s) == k,
    decreases k,
{
    if k > 0 {
        assert(text::whitespace(s[0]));
        let t = s.skip(1);
        assert forall|i: int| 0 <= i < k - 1 implies text::whitespace(#[trigger] t[i]) by {
            assert(t[i] == s[i + 1]);
        }
        assert(t[k - 1] == s[k]);
        lemma_space_len(t, k - 1);
    }
}

/// How long the word is that a text starts with.
proof fn lemma_word_len(s: Seq<char>, k: int)
    requires
        0 <= k <= s.len(),
        forall|i: int| 0 <= i < k ==> !text::whitespace(#[trigger] s[i]),
        k == s.len() || text::whitespace(s[k]),
    ensures
        host::word_len(s) == k,
    decreases k,
{
    if k > 0 {
        assert(!text::whitespace(s[0]));
        let t = s.skip(1);
        assert forall|i: int| 0 <= i < k - 1 implies !text::whitespace(#[trigger] t[i]) by {
            assert(t[i] == s[i + 1]);
        }
        if k < s.len() {
            assert(t[k - 1] == s[k]);
        }
        lemma_word_len(t, k - 1);
    }
}

/// Only a name that is the second word of a line of a listing is found in it.
pub proof fn lemma_only_listed(listing: &str, name: &str, r: bool)
    requires
        call_ensures(host::lists_device, (listing, name), r),
    ensures
        r ==> name@.len() > 0 && exists|a: int, b: int, w1: int, e1: int, w2: int| #[trigger]
            second_word_at(listing@, a, b, name@, w1, e1, w2),
{
    let s = listing@;
    if r {
        let (a, b) = choose|a: int, b: int| #[trigger]
            host::is_line(s, a, b) && host::second_word(s.subrange(a, b)) == name@;
        let line = s.subrange(a, b);
        lemma_start(line);
        let f1 = text::text_start(line);
        let t1 = line.skip(f1);
        lemma_word_bound(t1);
        let l1 = host::word_len(t1);
        let rest = t1.skip(l1);
        lemma_start(rest);
        let f2 = text::text_start(rest);
        let t2 = rest.skip(f2);
        lemma_word_bound(t2);
        let l2 = host::word_len(t2);
        assert(host::second_word(line) == t2.take(l2));
        assert(l2 == name@.len());
        let w1 = a + f1;
        let e1 = w1 + l1;
        let w2 = e1 + f2;
        assert(t1[0] == line[f1]);
        assert(t1[l1] == rest[0]);
        assert(s.subrange(w2, w2 + name@.len()) =~= name@);
        assert forall|i: int| a <= i < w1 implies text::whitespace(#[trigger] s[i]) by {
            assert(line[i - a] == s[i]);
        }
        assert forall|i: int| w1 <= i < e1 implies !text::whitespace(#[trigger] s[i]) by {
            assert(t1[i - w1] == s[i]);
        }
        assert forall|i: int| e1 <= i < w2 implies text::whitespace(#[trigger] s[i]) by {
            assert(rest[i - e1] == s[i]);
        }
        assert forall|i: int| w2 <= i < w2 + l2 implies !text::whitespace(#[trigger] s[i]) by {
            assert(t2[i - w2] == s[i]);
        }
        if w2 + l2 < b {
            assert(t2[l2] == s[w2 + l2]);
        }
        assert(second_word_at(s, a, b, name@, w1, e1, w2));
    }
}

/// A word lies within its text, and ends with it or at the first whitespace.
proof fn lemma_word_bound(s: Seq<char>)
    ensures
        0 <= host::word_len(s) <= s.len(),
        forall|i: int| 0 <= i < host::word_len(s) ==> !text::whitespace(#[trigger] s[i]),
        host::word_len(s) < s.len() ==> text::whitespace(s[host::word_len(s)]),
    decreases s.len(),
{
    if s.len() > 0 && !text::whitespace(s[0]) {
        let t = s.skip(1);
        lemma_word_bound(t);
        assert forall|i: int| 0 <= i < host::word_len(s) implies !text::whitespace(
            #[trigger] s[i],
        ) by {
            if i > 0 {
                assert(t[i - 1] == s[i]);
            }
        }
    }
}

/// The virtual microphone: what is listed is not loaded again; without its sink it is given up;
/// its own loading may fail.
pub proof fn lemma_mic_steps(
    event: &MicEvent<'_>,
    r: MicAction,
    sinks: &str,
    has_sink: bool,
    sources: &str,
    has_source: bool,
)
    requires
        call_ensures(host::next_mic_step, (event,), r),
        call_ensures(host::lists_device, (sinks, "arp_sink"), has_sink),
        call_ensures(host::lists_device, (sources, "arp_mic"), has_source),
    ensures
        *event matches MicEvent::SinksListed(l) && l@ == sinks@ ==> r == (if has_sink {
            MicAction::ListSources
        } else {
            MicAction::LoadSink
        }),
        *event matches MicEvent::SinkLoaded { ok } ==> r == (if ok {
            MicAction::ListSources
        } else {
            MicAction::GiveUp
        }),
        *event matches MicEvent::SourcesListed(l) && l@ == sources@ ==> r == (if has_source {
            MicAction::Ready
        } else {
            MicAction::LoadSource
        }),
        *event matches MicEvent::SourceLoaded { ok } ==> r == MicAction::Ready,
{
}

/// What a failed attempt of an Opus decoder is followed by.
pub proof fn lemma_opus_fallback(a: OpusAttempt, r: OpusAttempt)
    requires
        call_ensures(OpusAttempt::after_error, (a,), r),
    ensures
        a == OpusAttempt::Redundancy ==> r == OpusAttempt::Lost,
        a != OpusAttempt::Redundancy ==> r == OpusAttempt::Silence,
{
}

// ---------------------------------------------------------------------------------------------
// Handing samples out.

/// Every channel of a frame gets the sample of that frame.
pub proof fn lemma_spread<T: Copy>(
    mono: &[T],
    channels: usize,
    data: &mut [T],
    frame: int,
    channel: int,
)
    requires
        channels > 0,
        old(data)@.len() == mono@.len() * channels,
        0 <= frame < mono@.len(),
        0 <= channel < channels,
        call_ensures(playout::spread::<T>, (mono, channels, data), ()),
    ensures
        final(data)@.len() == old(data)@.len(),
        final(data)@[frame * channels + channel] == mono@[frame],
{
    let c = channels as int;
    let i = frame * c + channel;
    let m = mono@.len() as int;
    assert(0 <= i < m * c) by (nonlinear_arith)
        requires
            i == frame * c + channel,
            0 <= frame,
            frame + 1 <= m,
            0 <= channel < c,
    ;
    vstd::arithmetic::div_mod::lemma_fundamental_div_mod_converse(i, c, frame, channel);
}

/// Portions are due every 10 ms; one that is not due yet is waited for, one that is late is not.
pub proof fn lemma_pace(p: &mut Pacer, now: u64, wait: u64, fresh: Pacer, other: &Pacer, due: u64)
    requires
        call_ensures(Pacer::step, (p, now), wait),
        call_ensures(Pacer::new, (), fresh),
        call_ensures(Pacer::last_due, (other,), due),
    ensures
        fresh.due() == 0,
        due == other.due(),
        final(p).due() == old(p).due() + 10_000_000,
        now <= final(p).due() ==> now + wait == final(p).due(),
        now >= final(p).due() ==> wait == 0,
{
}

/// A limit of zero is none; any other is reached when so many seconds are over.
pub proof fn lemma_time_limit(duration: u64, elapsed_ns: u64, r: bool)
    requires
        call_ensures(playout::time_is_up, (duration, elapsed_ns), r),
    ensures
        duration == 0 ==> !r,
        duration > 0 ==> (r <==> elapsed_ns >= 1_000_000_000 * duration),
{
}

/// The window of a resampler: it starts with silence, takes samples at its end, and is moved on
/// from its start; it tells what it lacks and what stands side by side.
pub proof fn lemma_window<S: Copy + Default>(
    fresh: SourceWindow<S>,
    a: &mut SourceWindow<S>,
    samples: &[S],
    b: &mut SourceWindow<S>,
    n: usize,
    c: &SourceWindow<S>,
    needed: usize,
    lack: usize,
    i: usize,
    pair: (S, S),
    d: &mut SourceWindow<S>,
)
    requires
        call_ensures(SourceWindow::<S>::new, (), fresh),
        call_ensures(SourceWindow::<S>::feed, (a, samples), ()),
        call_ensures(SourceWindow::<S>::advance, (b, n), ()),
        call_ensures(SourceWindow::<S>::deficit, (c, needed), lack),
        call_ensures(SourceWindow::<S>::neighbours, (c, i), pair),
        call_ensures(SourceWindow::<S>::reset, (d,), ()),
        c@.len() > 0,
    ensures
        fresh@.len() == 1 && fresh@[0] == fresh.silence(),
        final(a)@ == old(a)@ + samples@,
        final(b)@ == old(b)@.skip(n as int),
        c@.len() > needed ==> lack == 0,
        c@.len() <= needed ==> c@.len() + lack == needed + 1,
        pair.0 == c@[i as int] && pair.1 == c@[i + 1],
        final(d)@.len() == 1 && final(d)@[0] == old(d).silence(),
{
}

/// The generator: seeds count as they are, zero as one; each number is the scrambled next state,
/// of which the shorter ones are the upper bits.
pub proof fn lemma_generator(
    seed: u64,
    g: Rng,
    a: &mut Rng,
    x: u64,
    b: &mut Rng,
    y: u64,
    c: &mut Rng,
    z: u32,
)
    requires
        call_ensures(Rng::new, (seed,), g),
        call_ensures(Rng::next_u64, (a,), x),
        call_ensures(Rng::next_unit53, (b,), y),
        call_ensures(Rng::next_u32, (c,), z),
        old(a).state() == old(b).state(),
        old(a).state() == old(c).state(),
    ensures
        g.state() == (if seed == 0 {
            1
        } else {
            seed
        }),
        final(a).state() == ({
            let s = old(a).state();
            let p = s ^ (s >> 12);
            let q = p ^ (p << 25);
            q ^ (q >> 27)
        }),
        x == (final(a).state() * 0x2545F4914F6CDD1D % 0x1_0000_0000_0000_0000) as u64,
        final(b).state() == final(a).state() && final(c).state() == final(a).state(),
        y == x >> 11,
        z == x >> 32,
{
}

/// The fixed numbers: times in nanoseconds unless they are in milliseconds, lengths in samples at
/// 48 kHz.
pub proof fn lemma_fixed_numbers()
    ensures
        protocol::SAMPLE_RATE == 48000,
        protocol::DEFAULT_PORT == 48222,
        protocol::VERSION == 1,
        protocol::OPUS_FRAME_SAMPLES * 1000 == 20 * 48000,
        protocol::PCM_FRAME_SAMPLES * 1000 == 10 * 48000,
        playout::PACE_NS == 10_000_000,
        playout::PACE_SAMPLES * 1000 == 10 * 48000,
        aec::FRAME * 1000 == 10 * 48000,
        aec::TAIL * 1000 == 240 * 48000,
        aec::RING_CAP == 48000,
        aec::PRIME_LEN * 1000 == 30 * 48000,
        sender::HELLO_ATTEMPTS == 10,
        sender::HELLO_TIMEOUT_MS == 300,
        sender::HEARTBEAT_NS == 500_000_000,
        sender::BYE_COUNT == 3,
        engine::SESSION_TIMEOUT_NS == 5_000_000_000,
        soundpad::MAX_SOUNDS == 32,
        soundpad::MAX_SAMPLES == 60 * 48000,
        soundpad::MAX_VOICES == 4,
        event_log::MAX_LINES == 200,
{
}

} // verus!
