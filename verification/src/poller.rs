//! Status polling decisions.
//!
//! The poller asks the controller for its status at a fixed cadence. What it
//! does with each event is decided here; the caller owns the ticker, the
//! port, the status cell and the channel, and carries the actions out.

use std::time::Instant;
use vstd::prelude::*;
use crate::parser::{parse_status, status_of, ParseError, ParseErrorView};
use crate::state::{MachineStatus, PinState, StatusReport};
use crate::text::{to_chars, to_text};

verus! {

/// Default poll interval: 200 ms.
pub const POLL_INTERVAL_MS: u64 = 200;

/// Default read timeout when waiting for the status line: 500 ms.
pub const STATUS_READ_TIMEOUT_MS: u64 = 500;

/// What the poller has to do after a line was read.
#[derive(Clone, Debug)]
pub enum PollOutcome {
    /// Replace the status cell by this status, then publish it.
    Publish(MachineStatus),
    /// The line was no status report: log the error, leave the cell as it
    /// is, and poll again at the next tick.
    Skip(ParseError),
}

/// The line that asks the controller for its status.
pub open spec fn query_text() -> Seq<char> {
    "?"@
}

/// The line to send at each tick.
pub fn status_query() -> (line: String)
    ensures
        line@ == query_text(),
{
    to_text(&to_chars("?"))
}

/// Decides what to do with the line read in answer to a status query at
/// the time `now`: a status report is published, stamped with `now`; any
/// other line is skipped with the parse error.
pub fn on_status_line(line: &str, now: Instant) -> (outcome: PollOutcome)
    ensures
        match outcome {
            PollOutcome::Publish(st) => {
                &&& status_of(line@) == Ok::<StatusReport, ParseErrorView>(st.report())
                &&& st.input_pins == PinState::released()
                &&& st.last_updated == now
            },
            PollOutcome::Skip(e) => status_of(line@) == Err::<StatusReport, ParseErrorView>(e@),
        },
{
    match parse_status(line, now) {
        Ok(st) => PollOutcome::Publish(st),
        Err(e) => PollOutcome::Skip(e),
    }
}

/// Decides whether polling goes on after a status was published to
/// `receivers` subscribers: it ends when nobody is left to receive.
pub fn continue_after_publish(receivers: usize) -> (go_on: bool)
    ensures
        go_on == (receivers > 0),
{
    receivers > 0
}

} // verus!
