//! Choices that depend on the host: its name, its audio devices, its virtual devices.

use crate::protocol;
use crate::text;
use crate::text::{characters, contains_text, is_whitespace, str_to_lowercase, trim_text};
use vstd::prelude::*;

verus! {

/// The name of a host that has none.
pub open spec fn nameless() -> Seq<char> {
    "PC"@
}

/// The name that the receiver goes by, where `host` is the trimmed name of the host and `env`
/// the name that the environment gives: the first of them that is there, an empty host name not
/// counted.
pub fn first_name(host: Option<String>, env: Option<String>) -> (r: String)
    ensures
        r@ == match host {
            Some(h) if h@.len() > 0 => h@,
            _ => match env {
                Some(e) => e@,
                None => nameless(),
            },
        },
{
    match host {
        Some(h) => {
            if h.as_str().unicode_len() > 0 {
                return h;
            }
        },
        None => {},
    }
    match env {
        Some(e) => e,
        None => "PC".to_owned(),
    }
}

/// The name that the receiver goes by: what the host's name file holds, without the whitespace
/// around it, else what the environment gives, else a stock name.
pub fn default_name(file: Option<&str>, env: Option<String>) -> (r: String)
    ensures
        r@ == match file {
            Some(f) if text::trimmed(f@).len() > 0 => text::trimmed(f@),
            _ => match env {
                Some(e) => e@,
                None => nameless(),
            },
        },
{
    match file {
        Some(f) => first_name(Some(trim_text(f)), env),
        None => first_name(None, env),
    }
}

/// The name is there and holds the pattern.
pub open spec fn holds(name: Option<Seq<char>>, pattern: Seq<char>) -> bool {
    name matches Some(n) && text::contains_seq(n, pattern)
}

/// The text of a name, if there is one.
pub open spec fn name_text(name: Option<String>) -> Option<Seq<char>> {
    match name {
        Some(n) => Some(n@),
        None => None,
    }
}

/// `r` is the number of the first name that holds the pattern.
pub open spec fn is_first_holding(
    names: Seq<Option<Seq<char>>>,
    pattern: Seq<char>,
    r: Option<usize>,
) -> bool {
    match r {
        Some(i) => {
            &&& i < names.len()
            &&& holds(names[i as int], pattern)
            &&& forall|j: int| 0 <= j < i ==> !holds(#[trigger] names[j], pattern)
        },
        None => forall|j: int| 0 <= j < names.len() ==> !holds(#[trigger] names[j], pattern),
    }
}

/// The number of the first name that holds the pattern. A name that could not be had is `None`.
pub fn first_holding(names: &Vec<Option<String>>, pattern: &str) -> (r: Option<usize>)
    ensures
        is_first_holding(names@.map_values(|n: Option<String>| name_text(n)), pattern@, r),
{
    let ghost all = names@.map_values(|n: Option<String>| name_text(n));
    let mut i: usize = 0;
    while i < names.len()
        invariant
            i <= names@.len(),
            all == names@.map_values(|n: Option<String>| name_text(n)),
            forall|j: int| 0 <= j < i ==> !holds(#[trigger] all[j], pattern@),
        decreases names@.len() - i,
    {
        let found: bool = match &names[i] {
            Some(n) => contains_text(n.as_str(), pattern),
            None => false,
        };
        assert(all[i as int] == name_text(names@[i as int]));
        if found {
            return Some(i);
        }
        i = i + 1;
    }
    None
}

/// The lower-case form of a name, if there is one.
pub open spec fn lowered(name: Option<String>) -> Option<Seq<char>> {
    match name {
        Some(n) => Some(text::lowercase(n@)),
        None => None,
    }
}

/// The lower-case forms of all names.
pub fn lower_all(names: &Vec<Option<String>>) -> (r: Vec<Option<String>>)
    ensures
        r@.len() == names@.len(),
        r@.map_values(|n: Option<String>| name_text(n)) == names@.map_values(
            |n: Option<String>| lowered(n),
        ),
{
    let mut lower: Vec<Option<String>> = Vec::new();
    let mut i: usize = 0;
    while i < names.len()
        invariant
            i <= names@.len(),
            lower@.len() == i,
            forall|j: int|
                0 <= j < i ==> name_text(#[trigger] lower@[j]) == lowered(names@[j]),
        decreases names@.len() - i,
    {
        let l: Option<String> = match &names[i] {
            Some(n) => Some(str_to_lowercase(n.as_str())),
            None => None,
        };
        lower.push(l);
        i = i + 1;
    }
    assert(lower@.map_values(|n: Option<String>| name_text(n)) =~= names@.map_values(
        |n: Option<String>| lowered(n),
    ));
    lower
}

/// The number of the first device whose name holds the pattern, upper and lower case being the
/// same.
pub fn pick_device(names: &Vec<Option<String>>, pattern: &str) -> (r: Option<usize>)
    ensures
        is_first_holding(
            names@.map_values(|n: Option<String>| lowered(n)),
            text::lowercase(pattern@),
            r,
        ),
{
    let lower: Vec<Option<String>> = lower_all(names);
    let p: String = str_to_lowercase(pattern);
    first_holding(&lower, p.as_str())
}

/// A range of sample rates that a device offers.
#[derive(Debug, Clone, Copy)]
pub struct RateRange {
    pub min: u32,
    pub max: u32,
    /// Its samples have the format of the device's default.
    pub default_format: bool,
}

/// The range allows the rate of the stream, in the default format.
pub open spec fn fits_stream(r: RateRange) -> bool {
    r.min <= protocol::SAMPLE_RATE <= r.max && r.default_format
}

/// No range allows the rate of the stream in the default format.
pub open spec fn none_fits(ranges: Seq<RateRange>) -> bool {
    forall|j: int| 0 <= j < ranges.len() ==> !fits_stream(#[trigger] ranges[j])
}

/// The range to open the device with at the rate of the stream; `None` for the device's
/// default, which is kept where it has that rate already or where no range fits.
pub fn choose_rate(default_rate: u32, ranges: &Vec<RateRange>) -> (r: Option<usize>)
    ensures
        match r {
            Some(i) => {
                &&& default_rate != protocol::SAMPLE_RATE
                &&& i < ranges@.len()
                &&& fits_stream(ranges@[i as int])
                &&& forall|j: int| 0 <= j < i ==> !fits_stream(#[trigger] ranges@[j])
            },
            None => default_rate == protocol::SAMPLE_RATE || none_fits(ranges@),
        },
{
    if default_rate == protocol::SAMPLE_RATE {
        return None;
    }
    let mut i: usize = 0;
    while i < ranges.len()
        invariant
            default_rate != protocol::SAMPLE_RATE,
            i <= ranges@.len(),
            forall|j: int| 0 <= j < i ==> !fits_stream(#[trigger] ranges@[j]),
        decreases ranges@.len() - i,
    {
        let c: RateRange = ranges[i];
        if c.min <= protocol::SAMPLE_RATE && protocol::SAMPLE_RATE <= c.max && c.default_format {
            return Some(i);
        }
        i = i + 1;
    }
    None
}

/// The length of the word at the start of a text: up to the first whitespace.
pub open spec fn word_len(s: Seq<char>) -> int
    decreases s.len(),
{
    if s.len() == 0 || text::whitespace(s[0]) {
        0
    } else {
        1 + word_len(s.skip(1))
    }
}

/// What follows the first word of a text.
pub open spec fn after_word(s: Seq<char>) -> Seq<char> {
    let t = s.skip(text::text_start(s));
    t.skip(word_len(t))
}

/// The first word of a text, empty where there is none.
pub open spec fn first_word(s: Seq<char>) -> Seq<char> {
    let t = s.skip(text::text_start(s));
    t.take(word_len(t))
}

/// The second word of a text, empty where there is none.
pub open spec fn second_word(s: Seq<char>) -> Seq<char> {
    first_word(after_word(s))
}

/// The line of a text from `a` to `b`, `b` not included.
pub open spec fn is_line(s: Seq<char>, a: int, b: int) -> bool {
    &&& 0 <= a <= b <= s.len()
    &&& a > 0 ==> s[a - 1] == '\n'
    &&& b < s.len() ==> s[b] == '\n'
    &&& forall|i: int| a <= i < b ==> #[trigger] s[i] != '\n'
}

/// Some line of the listing has the name as its second word.
pub open spec fn listed_second(listing: Seq<char>, name: Seq<char>) -> bool {
    name.len() > 0 && exists|a: int, b: int| #[trigger]
        is_line(listing, a, b) && second_word(listing.subrange(a, b)) == name
}

/// Words and the space before them lie within the text.
proof fn lemma_word_bounds(s: Seq<char>)
    ensures
        0 <= word_len(s) <= s.len(),
        0 <= text::text_start(s) <= s.len(),
    decreases s.len(),
{
    if s.len() > 0 {
        lemma_word_bounds(s.skip(1));
    }
}

/// The position behind the whitespace that starts at `from`.
fn skip_space(c: &Vec<char>, from: usize, to: usize) -> (r: usize)
    requires
        from <= to <= c@.len(),
    ensures
        from <= r <= to,
        r - from == text::text_start(c@.subrange(from as int, to as int)),
        c@.subrange(r as int, to as int) == c@.subrange(from as int, to as int).skip(r - from),
{
    let ghost s = c@.subrange(from as int, to as int);
    let mut i: usize = from;
    assert(s.skip(0) =~= s);
    while i < to && is_whitespace(c[i])
        invariant
            from <= i <= to <= c@.len(),
            s == c@.subrange(from as int, to as int),
            text::text_start(s) == (i - from) + text::text_start(s.skip(i - from)),
        decreases to - i,
    {
        assert(s.skip(i - from)[0] == c@[i as int]);
        assert(s.skip(i - from).skip(1) =~= s.skip(i + 1 - from));
        i = i + 1;
    }
    assert(i < to ==> s.skip(i - from)[0] == c@[i as int]);
    assert(c@.subrange(i as int, to as int) =~= s.skip(i - from));
    i
}

/// The position behind the word that starts at `from`.
fn skip_word(c: &Vec<char>, from: usize, to: usize) -> (r: usize)
    requires
        from <= to <= c@.len(),
    ensures
        from <= r <= to,
        r - from == word_len(c@.subrange(from as int, to as int)),
        c@.subrange(r as int, to as int) == c@.subrange(from as int, to as int).skip(r - from),
        c@.subrange(from as int, r as int) == c@.subrange(from as int, to as int).take(r - from),
{
    let ghost s = c@.subrange(from as int, to as int);
    let mut i: usize = from;
    assert(s.skip(0) =~= s);
    while i < to && !is_whitespace(c[i])
        invariant
            from <= i <= to <= c@.len(),
            s == c@.subrange(from as int, to as int),
            word_len(s) == (i - from) + word_len(s.skip(i - from)),
        decreases to - i,
    {
        assert(s.skip(i - from)[0] == c@[i as int]);
        assert(s.skip(i - from).skip(1) =~= s.skip(i + 1 - from));
        i = i + 1;
    }
    assert(i < to ==> s.skip(i - from)[0] == c@[i as int]);
    assert(c@.subrange(i as int, to as int) =~= s.skip(i - from));
    assert(c@.subrange(from as int, i as int) =~= s.take(i - from));
    i
}

/// Whether the part of a text from `from` to `to` is this name.
fn same_part(c: &Vec<char>, from: usize, to: usize, name: &Vec<char>) -> (r: bool)
    requires
        from <= to <= c@.len(),
    ensures
        r == (c@.subrange(from as int, to as int) == name@),
{
    if to - from != name.len() {
        return false;
    }
    let mut i: usize = 0;
    while i < name.len()
        invariant
            from <= to <= c@.len(),
            to - from == name@.len(),
            i <= name@.len(),
            forall|k: int| 0 <= k < i ==> c@[from + k] == #[trigger] name@[k],
        decreases name@.len() - i,
    {
        if c[from + i] != name[i] {
            assert(c@.subrange(from as int, to as int)[i as int] != name@[i as int]);
            return false;
        }
        i = i + 1;
    }
    assert(c@.subrange(from as int, to as int) =~= name@);
    true
}

/// Whether some line of a listing has this name as its second word. That is how the host lists
/// its sinks and sources: a number, then the name.
pub fn lists_device(listing: &str, name: &str) -> (r: bool)
    ensures
        r == listed_second(listing@, name@),
{
    let c: Vec<char> = characters(listing);
    let wanted: Vec<char> = characters(name);
    if wanted.len() == 0 {
        return false;
    }
    let n: usize = c.len();
    let mut start: usize = 0;
    loop
        invariant
            c@ == listing@,
            wanted@ == name@,
            wanted@.len() > 0,
            n == c@.len(),
            start <= n,
            start > 0 ==> c@[start - 1] == '\n',
            forall|a: int, b: int|
                a < start && #[trigger] is_line(c@, a, b) ==> second_word(c@.subrange(a, b))
                    != name@,
        decreases n - start,
    {
        let mut end: usize = start;
        while end < n && c[end] != '\n'
            invariant
                start <= end <= n,
                n == c@.len(),
                forall|i: int| start <= i < end ==> #[trigger] c@[i] != '\n',
            decreases n - end,
        {
            end = end + 1;
        }
        let ghost line = c@.subrange(start as int, end as int);
        proof {
            lemma_word_bounds(line);
        }
        let w1: usize = skip_space(&c, start, end);
        let e1: usize = skip_word(&c, w1, end);
        assert(c@.subrange(e1 as int, end as int) == after_word(line));
        let w2: usize = skip_space(&c, e1, end);
        let e2: usize = skip_word(&c, w2, end);
        assert(c@.subrange(w2 as int, e2 as int) == second_word(line));
        assert(is_line(c@, start as int, end as int));
        if same_part(&c, w2, e2, &wanted) {
            return true;
        }
        proof {
            assert forall|a: int, b: int| a <= end && #[trigger] is_line(c@, a, b) implies
                second_word(c@.subrange(a, b)) != name@ by {
                if a >= start {
                    if a > start {
                        assert(c@[a - 1] == '\n');
                    }
                    if b < end {
                        assert(c@[b] != '\n');
                    }
                    if b > end {
                        assert(c@[end as int] != '\n');
                    }
                }
            }
        }
        if end == n {
            return false;
        }
        start = end + 1;
    }
}

/// The name of the sink that the virtual microphone listens to.
pub const VIRTUAL_SINK: &'static str = "arp_sink";

/// The name of the virtual microphone.
pub const VIRTUAL_SOURCE: &'static str = "arp_mic";

/// What was found or done while the virtual microphone is set up. A listing that could not be
/// had is empty.
pub enum MicEvent<'a> {
    SinksListed(&'a str),
    SinkLoaded { ok: bool },
    SourcesListed(&'a str),
    SourceLoaded { ok: bool },
}

/// What to do next to set up the virtual microphone.
#[derive(Debug, Clone, Copy, PartialEq, Eq, Structural)]
pub enum MicAction {
    LoadSink,
    ListSources,
    LoadSource,
    Ready,
    GiveUp,
}

/// The next step of setting up the virtual microphone: what is there already is not loaded
/// again, and without the sink there is no microphone.
pub fn next_mic_step(event: &MicEvent<'_>) -> (r: MicAction)
    ensures
        r == match *event {
            MicEvent::SinksListed(listing) => if listed_second(listing@, VIRTUAL_SINK@) {
                MicAction::ListSources
            } else {
                MicAction::LoadSink
            },
            MicEvent::SinkLoaded { ok } => if ok {
                MicAction::ListSources
            } else {
                MicAction::GiveUp
            },
            MicEvent::SourcesListed(listing) => if listed_second(listing@, VIRTUAL_SOURCE@) {
                MicAction::Ready
            } else {
                MicAction::LoadSource
            },
            MicEvent::SourceLoaded { ok } => MicAction::Ready,
        },
{
    match event {
        MicEvent::SinksListed(listing) => {
            if lists_device(listing, VIRTUAL_SINK) {
                MicAction::ListSources
            } else {
                MicAction::LoadSink
            }
        },
        MicEvent::SinkLoaded { ok } => {
            if *ok {
                MicAction::ListSources
            } else {
                MicAction::GiveUp
            }
        },
        MicEvent::SourcesListed(listing) => {
            if lists_device(listing, VIRTUAL_SOURCE) {
                MicAction::Ready
            } else {
                MicAction::LoadSource
            }
        },
        MicEvent::SourceLoaded { .. } => MicAction::Ready,
    }
}

} // verus!
