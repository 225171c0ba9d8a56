//! The log of events that a user sees.

use std::collections::VecDeque;
use vstd::prelude::*;

verus! {

/// The log keeps this many lines.
pub const MAX_LINES: usize = 200;

/// The last lines that were logged.
pub struct EventLog {
    lines: VecDeque<String>,
    echo_stdout: bool,
}

/// The last `n` items of a sequence, or all of them where there are fewer.
pub open spec fn last_of<T>(s: Seq<T>, n: int) -> Seq<T> {
    if s.len() > n {
        s.skip(s.len() - n)
    } else {
        s
    }
}

/// The texts of lines.
pub open spec fn line_texts(lines: Seq<String>) -> Seq<Seq<char>> {
    lines.map_values(|s: String| s@)
}

impl View for EventLog {
    type V = Seq<Seq<char>>;

    /// The lines, oldest first.
    closed spec fn view(&self) -> Seq<Seq<char>> {
        line_texts(self.lines@)
    }
}

impl EventLog {
    /// Whether lines are to be printed as well.
    pub closed spec fn echo(self) -> bool {
        self.echo_stdout
    }

    /// No more lines are kept than allowed.
    pub open spec fn wf(self) -> bool {
        self@.len() <= MAX_LINES
    }

    /// An empty log.
    pub fn new(echo_stdout: bool) -> (r: Self)
        ensures
            r@.len() == 0,
            r.echo() == echo_stdout,
            r.wf(),
    {
        EventLog { lines: VecDeque::new(), echo_stdout }
    }

    /// Whether lines are to be printed as well.
    pub fn echoes(&self) -> (r: bool)
        ensures
            r == self.echo(),
    {
        self.echo_stdout
    }

    /// Appends a line; the oldest ones go when there are too many.
    pub fn push(&mut self, s: String)
        requires
            old(self).wf(),
        ensures
            final(self)@ == last_of(old(self)@.push(s@), MAX_LINES as int),
            final(self).echo() == old(self).echo(),
            final(self).wf(),
    {
        let ghost all = old(self)@.push(s@);
        self.lines.push_back(s);
        assert(self@ =~= all);
        assert(all.skip(0) =~= all);
        while self.lines.len() > MAX_LINES
            invariant
                all.len() <= MAX_LINES + 1,
                self@.len() <= all.len(),
                self@ == all.skip(all.len() - self@.len()),
                self.lines@.len() >= MAX_LINES || self@ == all,
                self.echo_stdout == old(self).echo_stdout,
            decreases self.lines@.len(),
        {
            let ghost before = self@;
            let _ = self.lines.pop_front();
            assert(self@ =~= before.skip(1));
            assert(self@ =~= all.skip(all.len() - self@.len()));
        }
        assert(self@ =~= last_of(all, MAX_LINES as int));
    }

    /// The last `n` lines, oldest first.
    pub fn tail(&self, n: usize) -> (r: Vec<String>)
        ensures
            line_texts(r@) == last_of(self@, n as int),
    {
        let len: usize = self.lines.len();
        let start: usize = if len > n {
            len - n
        } else {
            0
        };
        let mut out: Vec<String> = Vec::new();
        let mut i: usize = start;
        while i < len
            invariant
                start <= i <= len,
                len == self.lines@.len(),
                line_texts(out@) =~= self@.subrange(start as int, i as int),
            decreases len - i,
        {
            let line: String = self.lines[i].clone();
            let ghost before = line_texts(out@);
            out.push(line);
            assert(line_texts(out@) =~= before.push(line@));
            i = i + 1;
        }
        assert(self@.subrange(start as int, len as int) =~= last_of(self@, n as int));
        out
    }
}

/// Lines come back: what was pushed last is the last line of every tail.
pub proof fn lemma_tail_ends_with_last_push(before: Seq<Seq<char>>, line: Seq<char>, n: int)
    requires
        n >= 1,
    ensures
        last_of(last_of(before.push(line), MAX_LINES as int), n).last() == line,
{
}

/// A tail of the log is a tail of everything that was ever pushed, as long as it asks for no
/// more lines than are kept.
pub proof fn lemma_dropping_keeps_tail(all: Seq<Seq<char>>, n: int)
    requires
        0 <= n <= MAX_LINES,
    ensures
        last_of(last_of(all, MAX_LINES as int), n) == last_of(all, n),
{
    assert(last_of(last_of(all, MAX_LINES as int), n) =~= last_of(all, n));
}

} // verus!
