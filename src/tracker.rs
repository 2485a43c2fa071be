//! What progress trackers show: completion lines, prefixes, and the
//! promotion of a job's output lines to the persistent log.
use crate::job::{display_text, InnerJobRealization};
use crate::queue::{is_terminal, JobState};
use crate::text::push_char;
use vstd::prelude::*;

verus! {

/// The widest prefix shown beside a worker's status, in characters.
pub const MAX_PREFIX_LEN: usize = 60;

/// `s` cut to `max` characters: where longer, its first `max - 3`
/// characters and an ellipsis.
pub open spec fn truncated(s: Seq<char>, max: nat) -> Seq<char> {
    if s.len() > max {
        s.take(max - 3) + seq!['.', '.', '.']
    } else {
        s
    }
}

pub fn truncate_ellipse(string: String, max_size: usize) -> (r: String)
    requires
        max_size >= 3,
    ensures
        r@ == truncated(string@, max_size as nat),
{
    let cs = crate::text::chars_of(string.as_str());
    if cs.len() <= max_size {
        return string;
    }
    let mut out = String::new();
    let mut i: usize = 0;
    while i < max_size - 3
        invariant
            i <= max_size - 3 < cs.len(),
            cs@ == string@,
            out@ == cs@.take(i as int),
        decreases max_size - 3 - i,
    {
        push_char(&mut out, cs[i]);
        i += 1;
        assert(out@ =~= cs@.take(i as int));
    }
    push_char(&mut out, '.');
    push_char(&mut out, '.');
    push_char(&mut out, '.');
    assert(out@ =~= truncated(string@, max_size as nat));
    out
}

/// The prefix shown beside a worker's status while it runs `job`.
pub fn job_prefix(job: &InnerJobRealization) -> (r: String)
    ensures
        r@ == truncated(display_text(job@), MAX_PREFIX_LEN as nat),
{
    truncate_ellipse(job.display(), MAX_PREFIX_LEN)
}

/// The words that open the completion line of a job in a terminal state.
pub open spec fn completion_word(state: JobState) -> Seq<char> {
    if state == JobState::Finished {
        "=> DONE "@
    } else if state == JobState::Skipped {
        "=> SKIPPED "@
    } else {
        "=> FAILED "@
    }
}

/// The line that announces that `job` reached `state`.
pub fn job_finished_msg(job: &InnerJobRealization, state: JobState) -> (r: String)
    requires
        is_terminal(state),
    ensures
        r@ == completion_word(state) + display_text(job@),
{
    let mut out = if state == JobState::Finished {
        String::from_str("=> DONE ")
    } else if state == JobState::Skipped {
        String::from_str("=> SKIPPED ")
    } else {
        String::from_str("=> FAILED ")
    };
    let shown = job.display();
    out.append(shown.as_str());
    out
}

/// A log entry of a job's output: the job, a colon, the line.
pub open spec fn log_entry(job: Seq<char>, line: Seq<char>) -> Seq<char> {
    job + ": "@ + line
}

pub fn log_line(job: &str, line: &str) -> (r: String)
    ensures
        r@ == log_entry(job@, line@),
{
    let mut out = String::from_str(job);
    out.append(": ");
    out.append(line);
    out
}

/// The output lines of the job a worker runs: the newest is shown as
/// status; in verbose mode the one before it waits here to be logged.
pub struct OutputBuffer {
    last_line: Option<String>,
}

impl OutputBuffer {
    /// The line waiting to be logged.
    pub closed spec fn held(&self) -> Option<Seq<char>> {
        match self.last_line {
            Some(l) => Some(l@),
            None => None,
        }
    }

    pub fn new() -> (r: OutputBuffer)
        ensures
            r.held() is None,
    {
        OutputBuffer { last_line: None }
    }

    /// Takes in the newest output line `out` of `job`; in verbose mode hands
    /// back the log entry of the line held before, and holds `out`.
    pub fn cmd_output(&mut self, job: &str, out: &str, verbose: bool) -> (r: Option<String>)
        ensures
            verbose ==> final(self).held() == Some(out@),
            verbose ==> match old(self).held() {
                Some(l) => r matches Some(e) && e@ == log_entry(job@, l),
                None => r is None,
            },
            !verbose ==> r is None && final(self).held() == old(self).held(),
    {
        if !verbose {
            return None;
        }
        let entry = match &self.last_line {
            Some(l) => Some(log_line(job, l.as_str())),
            None => None,
        };
        self.last_line = Some(String::from_str(out));
        entry
    }

    /// At the end of a job's output: in verbose mode hands back the log
    /// entry of the held line, holding none after.
    pub fn flush_cmd_output(&mut self, job: &str, verbose: bool) -> (r: Option<String>)
        ensures
            verbose ==> final(self).held() is None,
            verbose ==> match old(self).held() {
                Some(l) => r matches Some(e) && e@ == log_entry(job@, l),
                None => r is None,
            },
            !verbose ==> r is None && final(self).held() == old(self).held(),
    {
        if !verbose {
            return None;
        }
        let entry = match &self.last_line {
            Some(l) => Some(log_line(job, l.as_str())),
            None => None,
        };
        self.last_line = None;
        entry
    }
}

/// The tracker without progress bars: it prints every line.
pub struct DummyBarkeeper {}

/// One worker's share of a `DummyBarkeeper`.
pub struct DummyThreadBarkeeper {}

impl DummyBarkeeper {
    pub fn new() -> (r: DummyBarkeeper) {
        DummyBarkeeper {  }
    }

    /// One tracker per worker.
    pub fn for_threads(&self, nthreads: usize) -> (r: Vec<DummyThreadBarkeeper>)
        ensures
            r.len() == nthreads,
    {
        let mut out: Vec<DummyThreadBarkeeper> = Vec::new();
        let mut i: usize = 0;
        while i < nthreads
            invariant
                i <= nthreads,
                out.len() == i,
            decreases nthreads - i,
        {
            out.push(DummyThreadBarkeeper {  });
            i += 1;
        }
        out
    }
}

impl DummyThreadBarkeeper {
    /// The line printed for one output line of `job`.
    pub fn cmd_output(&self, job: &str, out: &str) -> (r: String)
        ensures
            r@ == log_entry(job@, out@),
    {
        log_line(job, out)
    }

    /// The line printed when `job` reaches `state`.
    pub fn job_completed(&self, job: &InnerJobRealization, state: JobState) -> (r: String)
        requires
            is_terminal(state),
        ensures
            r@ == completion_word(state) + display_text(job@),
    {
        job_finished_msg(job, state)
    }
}

} // verus!
