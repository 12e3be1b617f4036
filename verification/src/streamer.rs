//! Line streaming with one line outstanding.
//!
//! The streamer decides; the caller acts. `LineStreamer` holds the program
//! and the counts. Asked for the next action with the machine state at hand,
//! it answers with the line to send, a wait while the machine is held, or the
//! end; told the controller's response, it counts the line and goes on or
//! stops.

use vstd::prelude::*;
use crate::state::MachineState;
use crate::text::{slice_chars, string_views, to_chars, to_text, trim, trim_chars};

verus! {

/// Default timeout when waiting for the response to a line: 30 s.
pub const LINE_RESPONSE_TIMEOUT_MS: u64 = 30_000;

/// How long to wait before the machine state is read again while the
/// machine is held: 100 ms.
pub const PAUSE_POLL_MS: u64 = 100;

/// Outcome of streaming a single line.
#[derive(Clone, Debug, PartialEq, Eq)]
pub enum LineResult {
    /// The controller answered `ok`.
    Acknowledged,
    /// The controller answered anything else; the text is what it said.
    Error(String),
}

/// The outcome of a line as a plain value.
pub enum LineResultView {
    Acknowledged,
    Error(Seq<char>),
}

impl View for LineResult {
    type V = LineResultView;

    open spec fn view(&self) -> LineResultView {
        match self {
            LineResult::Acknowledged => LineResultView::Acknowledged,
            LineResult::Error(m) => LineResultView::Error(m@),
        }
    }
}

/// Result of a streaming run.
#[derive(Clone, Debug)]
pub struct StreamResult {
    /// Total lines sent to the controller.
    pub lines_sent: u32,
    /// Lines that returned `ok`.
    pub lines_ok: u32,
    /// First error response, if any.
    pub first_error: Option<String>,
}

/// The first error of a run as plain text.
pub open spec fn error_text(e: Option<String>) -> Option<Seq<char>> {
    match e {
        Some(m) => Some(m@),
        None => None,
    }
}

impl Default for StreamResult {
    fn default() -> (r: StreamResult)
        ensures
            r.lines_sent == 0,
            r.lines_ok == 0,
            r.first_error is None,
    {
        StreamResult { lines_sent: 0, lines_ok: 0, first_error: None }
    }
}

/// Whether a line is sent: after trimming it is not empty and no comment.
pub open spec fn sendable(line: Seq<char>) -> bool {
    trim(line).len() > 0 && trim(line)[0] != ';'
}

/// Returns true if the line should be sent (non-empty, not a comment).
pub fn is_sendable_line(line: &str) -> (b: bool)
    ensures
        b == sendable(line@),
{
    let t = trim_chars(&to_chars(line));
    t.len() > 0 && t[0] != ';'
}

/// Whether `s` reads `ok`, in either case of each letter.
pub open spec fn is_ok(s: Seq<char>) -> bool {
    s.len() == 2 && (s[0] == 'o' || s[0] == 'O') && (s[1] == 'k' || s[1] == 'K')
}

/// Whether `s` starts with `error:` or `Error:`.
pub open spec fn has_error_prefix(s: Seq<char>) -> bool {
    s.len() >= 6 && (s[0] == 'e' || s[0] == 'E') && s[1] == 'r' && s[2] == 'r' && s[3] == 'o'
        && s[4] == 'r' && s[5] == ':'
}

/// What a response to a line means: `ok` in any case is success; after
/// `error:` or `Error:` the trimmed rest is the error; any other response is
/// itself the error. The response is trimmed first.
pub open spec fn outcome_of(response: Seq<char>) -> LineResultView {
    let r = trim(response);
    if is_ok(r) {
        LineResultView::Acknowledged
    } else if has_error_prefix(r) {
        LineResultView::Error(trim(r.subrange(6, r.len() as int)))
    } else {
        LineResultView::Error(r)
    }
}

/// Interprets the controller's response to a line.
pub fn classify_response(response: &str) -> (r: LineResult)
    ensures
        r@ == outcome_of(response@),
{
    let t = trim_chars(&to_chars(response));
    let n = t.len();
    if n == 2 && (t[0] == 'o' || t[0] == 'O') && (t[1] == 'k' || t[1] == 'K') {
        LineResult::Acknowledged
    } else if n >= 6 && (t[0] == 'e' || t[0] == 'E') && t[1] == 'r' && t[2] == 'r' && t[3] == 'o'
        && t[4] == 'r' && t[5] == ':' {
        let rest = trim_chars(&slice_chars(&t, 6, n));
        LineResult::Error(to_text(&rest))
    } else {
        LineResult::Error(to_text(&t))
    }
}

/// What the caller has to do next.
#[derive(Clone, Debug, PartialEq, Eq)]
pub enum StreamAction {
    /// Take the port, send this line, read one response, release the port,
    /// and report the response.
    Send(String),
    /// The machine is held: sleep for the pause interval, read the machine
    /// state again and ask again. The port is not touched.
    Wait,
    /// The run is over.
    Done,
}

/// An action as a plain value.
pub enum StreamActionView {
    Send(Seq<char>),
    Wait,
    Done,
}

impl View for StreamAction {
    type V = StreamActionView;

    open spec fn view(&self) -> StreamActionView {
        match self {
            StreamAction::Send(l) => StreamActionView::Send(l@),
            StreamAction::Wait => StreamActionView::Wait,
            StreamAction::Done => StreamActionView::Done,
        }
    }
}

/// The index of the first sendable line of `lines` at or after `from`, or
/// the number of lines where there is none.
pub open spec fn next_sendable(lines: Seq<Seq<char>>, from: int) -> int
    decreases lines.len() - from,
{
    if from < 0 || from >= lines.len() {
        lines.len() as int
    } else if sendable(lines[from]) {
        from
    } else {
        next_sendable(lines, from + 1)
    }
}

/// A program being streamed, with the counts so far.
pub struct LineStreamer {
    lines: Vec<String>,
    next: usize,
    awaiting: bool,
    stopped: bool,
    result: StreamResult,
}

impl LineStreamer {
    /// The lines of the program.
    pub closed spec fn program(&self) -> Seq<Seq<char>> {
        string_views(self.lines@)
    }

    /// The index of the line to consider next.
    pub closed spec fn position(&self) -> int {
        self.next as int
    }

    /// Whether a line was handed out to be sent and its response is due.
    pub closed spec fn awaiting(&self) -> bool {
        self.awaiting
    }

    /// Whether an error response has ended the run.
    pub closed spec fn stopped(&self) -> bool {
        self.stopped
    }

    /// Lines sent so far.
    pub closed spec fn sent(&self) -> int {
        self.result.lines_sent as int
    }

    /// Lines acknowledged with `ok` so far.
    pub closed spec fn acknowledged(&self) -> int {
        self.result.lines_ok as int
    }

    /// The first error response so far.
    pub closed spec fn first_error(&self) -> Option<Seq<char>> {
        error_text(self.result.first_error)
    }

    /// The streamer's invariant: the position lies within the program; a
    /// line whose response is due is a sendable one of a run that goes on;
    /// every line sent was acknowledged, but for the one that stopped the
    /// run, whose response is the first error.
    pub closed spec fn wf(&self) -> bool {
        &&& self.next <= self.lines.len()
        &&& self.awaiting ==> !self.stopped && self.next < self.lines.len() && sendable(
            self.lines@[self.next as int]@,
        )
        &&& self.stopped <==> self.result.first_error is Some
        &&& self.result.lines_sent == self.result.lines_ok + if self.stopped {
            1int
        } else {
            0int
        }
    }

    /// Whether the run is over: stopped by an error, or no sendable line is left.
    pub open spec fn finished(&self) -> bool {
        self.stopped() || next_sendable(self.program(), self.position()) >= self.program().len()
    }

    /// At any moment of a run, every line sent was acknowledged, but for the
    /// one whose response stopped the run; and the run is stopped exactly
    /// when there is a first error.
    pub proof fn lemma_counts(&self)
        requires
            self.wf(),
        ensures
            self.sent() == self.acknowledged() + if self.stopped() {
                1int
            } else {
                0int
            },
            self.stopped() <==> self.first_error() is Some,
            self.awaiting() ==> !self.finished(),
            0 <= self.position() <= self.program().len(),
    {
        if self.awaiting {
            assert(self.program()[self.next as int] == self.lines@[self.next as int]@);
        }
    }

    /// Starts a run over `lines`, with nothing sent yet.
    pub fn new(lines: Vec<String>) -> (s: LineStreamer)
        ensures
            s.wf(),
            s.program() == string_views(lines@),
            s.position() == 0,
            !s.awaiting(),
            !s.stopped(),
            s.sent() == 0,
            s.acknowledged() == 0,
            s.first_error() is None,
    {
        LineStreamer {
            lines,
            next: 0,
            awaiting: false,
            stopped: false,
            result: StreamResult::default(),
        }
    }

    /// Decides `awaiting`.
    pub fn is_awaiting(&self) -> (b: bool)
        ensures
            b == self.awaiting(),
    {
        self.awaiting
    }

    /// Decides the next action, given the machine state just read from the
    /// status cell. Lines that are not sendable are passed over. While the
    /// machine is held or its door is open the answer is `Wait`, and nothing
    /// is to be written to the port; otherwise the next sendable line,
    /// trimmed, is to be sent, and its response is due.
    pub fn next_action(&mut self, state: &MachineState) -> (action: StreamAction)
        requires
            old(self).wf(),
            !old(self).awaiting(),
        ensures
            final(self).wf(),
            final(self).program() == old(self).program(),
            final(self).stopped() == old(self).stopped(),
            final(self).sent() == old(self).sent(),
            final(self).acknowledged() == old(self).acknowledged(),
            final(self).first_error() == old(self).first_error(),
            final(self).awaiting() == (action is Send),
            old(self).finished() ==> action@ == StreamActionView::Done && final(self).position()
                == old(self).position(),
            !old(self).finished() ==> final(self).position() == next_sendable(
                old(self).program(),
                old(self).position(),
            ),
            !old(self).finished() && state.pauses() ==> action@ == StreamActionView::Wait,
            !old(self).finished() && !state.pauses() ==> action@ == StreamActionView::Send(
                trim(old(self).program()[final(self).position()]),
            ),
    {
        if self.stopped {
            return StreamAction::Done;
        }
        let n = self.lines.len();
        let mut i: usize = self.next;
        let ghost all = self.program();
        while i < n && !is_sendable_line(self.lines[i].as_str())
            invariant
                self.next <= i <= n == self.lines.len(),
                all == string_views(self.lines@),
                next_sendable(all, i as int) == next_sendable(all, self.next as int),
            decreases n - i,
        {
            proof {
                assert(all[i as int] == self.lines@[i as int]@);
            }
            i += 1;
        }
        proof {
            if i < n {
                assert(all[i as int] == self.lines@[i as int]@);
            }
        }
        if i >= n {
            return StreamAction::Done;
        }
        self.next = i;
        if state.is_paused() {
            StreamAction::Wait
        } else {
            let t = trim_chars(&to_chars(self.lines[i].as_str()));
            self.awaiting = true;
            StreamAction::Send(to_text(&t))
        }
    }

    /// Takes the controller's response to the line that was sent. The line
    /// counts as sent. `ok` counts it as acknowledged and moves on to the
    /// next line; any other response becomes the first error and stops the
    /// run.
    pub fn on_response(&mut self, response: &str)
        requires
            old(self).wf(),
            old(self).awaiting(),
            old(self).sent() < u32::MAX,
        ensures
            final(self).wf(),
            !final(self).awaiting(),
            final(self).program() == old(self).program(),
            final(self).sent() == old(self).sent() + 1,
            match outcome_of(response@) {
                LineResultView::Acknowledged => {
                    &&& final(self).acknowledged() == old(self).acknowledged() + 1
                    &&& final(self).first_error() is None
                    &&& !final(self).stopped()
                    &&& final(self).position() == old(self).position() + 1
                },
                LineResultView::Error(m) => {
                    &&& final(self).acknowledged() == old(self).acknowledged()
                    &&& final(self).first_error() == Some(m)
                    &&& final(self).stopped()
                    &&& final(self).position() == old(self).position()
                },
            },
    {
        self.awaiting = false;
        self.result.lines_sent = self.result.lines_sent + 1;
        match classify_response(response) {
            LineResult::Acknowledged => {
                self.result.lines_ok = self.result.lines_ok + 1;
                self.next = self.next + 1;
            },
            LineResult::Error(m) => {
                self.result.first_error = Some(m);
                self.stopped = true;
            },
        }
    }

    /// The counts of the run so far.
    pub fn result(&self) -> (r: StreamResult)
        ensures
            r.lines_sent == self.sent(),
            r.lines_ok == self.acknowledged(),
            error_text(r.first_error) == self.first_error(),
    {
        StreamResult {
            lines_sent: self.result.lines_sent,
            lines_ok: self.result.lines_ok,
            first_error: match &self.result.first_error {
                Some(m) => Some(m.clone()),
                None => None,
            },
        }
    }
}

} // verus!
