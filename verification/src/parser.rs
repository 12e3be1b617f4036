//! Parsing of controller responses: status reports, alarm messages and the
//! settings listing. Functions from text to typed state; each contract names
//! the value that the text stands for.

use std::collections::HashMap;
use std::time::Instant;
use vstd::prelude::*;
use crate::decimal::{
    all_digits, capped_value, decimal_of, digits_in, digits_value, is_digit,
    lemma_digits_value_nonneg, lemma_nat_digits, nat_digits, parse_decimal, Decimal,
};
use crate::state::{
    alarm_of, AlarmCode, HoldReason, HoldReasonView, MachineState, MachineStateView,
    MachineStatus, PinState, Position, StatusReport,
};
use crate::text::{
    extend_chars, find_char, has_prefix, index_of, is_space, lemma_index_of,
    lemma_index_of_unique, lemma_trim_fixed, same_chars, slice_chars, split, split_chars,
    starts_with, to_chars, to_text, trim, trim_chars, trim_end, trim_start, views,
};

verus! {

broadcast use vstd::std_specs::hash::group_hash_axioms;

/// Errors produced when parsing controller responses.
#[derive(Clone, Debug, PartialEq, Eq)]
pub enum ParseError {
    InvalidStatus(String),
    InvalidPosition(String),
    InvalidSettingsLine(String),
    InvalidAlarm(String),
}

/// A parse error as a plain value.
pub enum ParseErrorView {
    InvalidStatus(Seq<char>),
    InvalidPosition(Seq<char>),
    InvalidSettingsLine(Seq<char>),
    InvalidAlarm(Seq<char>),
}

impl View for ParseError {
    type V = ParseErrorView;

    open spec fn view(&self) -> ParseErrorView {
        match self {
            ParseError::InvalidStatus(s) => ParseErrorView::InvalidStatus(s@),
            ParseError::InvalidPosition(s) => ParseErrorView::InvalidPosition(s@),
            ParseError::InvalidSettingsLine(s) => ParseErrorView::InvalidSettingsLine(s@),
            ParseError::InvalidAlarm(s) => ParseErrorView::InvalidAlarm(s@),
        }
    }
}

impl ParseErrorView {
    /// The error in words: what kind it is, then its detail.
    pub open spec fn text(self) -> Seq<char> {
        match self {
            ParseErrorView::InvalidStatus(s) => "invalid status line: "@ + s,
            ParseErrorView::InvalidPosition(s) => "invalid position: "@ + s,
            ParseErrorView::InvalidSettingsLine(s) => "invalid settings line: "@ + s,
            ParseErrorView::InvalidAlarm(s) => "invalid alarm message: "@ + s,
        }
    }
}

/// The text of `head` followed by `tail`.
fn join(head: &str, tail: &Vec<char>) -> (s: String)
    ensures
        s@ == head@ + tail@,
{
    let mut v = to_chars(head);
    extend_chars(&mut v, tail);
    to_text(&v)
}

impl ParseError {
    /// The error in words.
    pub fn message(&self) -> (s: String)
        ensures
            s@ == self@.text(),
    {
        match self {
            ParseError::InvalidStatus(d) => join("invalid status line: ", &to_chars(d.as_str())),
            ParseError::InvalidPosition(d) => join("invalid position: ", &to_chars(d.as_str())),
            ParseError::InvalidSettingsLine(d) => join(
                "invalid settings line: ",
                &to_chars(d.as_str()),
            ),
            ParseError::InvalidAlarm(d) => join("invalid alarm message: ", &to_chars(d.as_str())),
        }
    }
}

/// The digits of an unsigned number: the text without a leading `+`.
pub open spec fn unsigned_digits(s: Seq<char>) -> Seq<char> {
    if s.len() > 0 && s[0] == '+' {
        s.drop_first()
    } else {
        s
    }
}

/// The unsigned number that `s` writes, where it is at most `max`: an
/// optional `+`, then one or more decimal digits.
pub open spec fn unsigned_of(s: Seq<char>, max: int) -> Option<int> {
    let d = unsigned_digits(s);
    if d.len() > 0 && all_digits(d) && digits_value(d) <= max {
        Some(digits_value(d))
    } else {
        None
    }
}

/// Reads an unsigned number of at most `max`.
pub fn parse_unsigned(v: &Vec<char>, max: u64) -> (r: Option<u64>)
    requires
        max < 1_000_000_000_000_000_000,
    ensures
        r is Some <==> unsigned_of(v@, max as int) is Some,
        r is Some ==> r->0 as int == unsigned_of(v@, max as int)->0 && r->0 <= max,
{
    let n = v.len();
    let start: usize = if n > 0 && v[0] == '+' {
        1
    } else {
        0
    };
    proof {
        assert(unsigned_digits(v@) =~= v@.subrange(start as int, n as int));
    }
    if start == n || !digits_in(v, start, n) {
        return None;
    }
    let value = capped_value(v, start, n, max + 1);
    proof {
        lemma_digits_value_nonneg(v@.subrange(start as int, n as int));
    }
    if value > max {
        None
    } else {
        Some(value)
    }
}

/// What follows the prefix `p` in `s`.
pub open spec fn after(s: Seq<char>, p: Seq<char>) -> Seq<char> {
    s.subrange(p.len() as int, s.len() as int)
}

/// The part of `v` after the prefix `p`, where `v` starts with it.
fn strip_prefix(v: &Vec<char>, p: &str) -> (r: Option<Vec<char>>)
    ensures
        r is Some <==> starts_with(v@, p@),
        r is Some ==> r->0@ == after(v@, p@),
{
    let pre = to_chars(p);
    if has_prefix(v, &pre) {
        Some(slice_chars(v, pre.len(), v.len()))
    } else {
        None
    }
}

/// Whether `v` reads `word`.
fn reads(v: &Vec<char>, word: &str) -> (b: bool)
    ensures
        b == (v@ == word@),
{
    let w = to_chars(word);
    same_chars(v, &w)
}

/// The alarm code after the colon of an `Alarm` state token: the code of the
/// number there, `Unknown(0)` where there is no colon or no number.
pub open spec fn alarm_sub_code(s: Seq<char>) -> AlarmCode {
    let colon = index_of(s, ':');
    if colon < s.len() {
        match unsigned_of(trim(s.subrange(colon + 1, s.len() as int)), 255) {
            Some(n) => alarm_of(n as u8),
            None => AlarmCode::Unknown(0),
        }
    } else {
        AlarmCode::Unknown(0)
    }
}

/// The machine state that a state token stands for. The name is what
/// precedes an optional colon. A hold is always a feed hold, whatever
/// follows the colon; a name that is not known gives `Unknown` of the whole
/// token.
pub open spec fn state_of(token: Seq<char>) -> MachineStateView {
    let s = trim(token);
    let base = trim(s.subrange(0, index_of(s, ':')));
    if base == "Idle"@ {
        MachineStateView::Idle
    } else if base == "Run"@ {
        MachineStateView::Run
    } else if base == "Hold"@ {
        MachineStateView::Hold(HoldReasonView::FeedHold)
    } else if base == "Jog"@ {
        MachineStateView::Jog
    } else if base == "Alarm"@ {
        MachineStateView::Alarm(alarm_sub_code(s))
    } else if base == "Door"@ {
        MachineStateView::Door
    } else if base == "Check"@ {
        MachineStateView::Check
    } else if base == "Home"@ {
        MachineStateView::Home
    } else if base == "Sleep"@ {
        MachineStateView::Sleep
    } else {
        MachineStateView::Unknown(s)
    }
}

/// Reads the state token of a status report.
pub fn parse_state_chars(token: &Vec<char>) -> (state: MachineState)
    ensures
        state@ == state_of(token@),
{
    let s = trim_chars(token);
    let colon = find_char(&s, 0, ':');
    proof {
        assert(s@.subrange(0, s.len() as int) =~= s@);
    }
    let head = slice_chars(&s, 0, colon);
    let base = trim_chars(&head);
    if reads(&base, "Idle") {
        MachineState::Idle
    } else if reads(&base, "Run") {
        MachineState::Run
    } else if reads(&base, "Hold") {
        MachineState::Hold(HoldReason::FeedHold)
    } else if reads(&base, "Jog") {
        MachineState::Jog
    } else if reads(&base, "Alarm") {
        let code = if colon < s.len() {
            let tail = slice_chars(&s, colon + 1, s.len());
            let digits = trim_chars(&tail);
            match parse_unsigned(&digits, 255) {
                Some(n) => AlarmCode::from(n as u8),
                None => AlarmCode::Unknown(0),
            }
        } else {
            AlarmCode::Unknown(0)
        };
        MachineState::Alarm(code)
    } else if reads(&base, "Door") {
        MachineState::Door
    } else if reads(&base, "Check") {
        MachineState::Check
    } else if reads(&base, "Home") {
        MachineState::Home
    } else if reads(&base, "Sleep") {
        MachineState::Sleep
    } else {
        MachineState::Unknown(to_text(&s))
    }
}

/// Parses the state token, the first segment of a status report. Every
/// token gives a state.
pub fn parse_state(s: &str) -> (r: Result<MachineState, ParseError>)
    ensures
        r is Ok,
        r->Ok_0@ == state_of(s@),
{
    let v = to_chars(s);
    Ok(parse_state_chars(&v))
}

/// The position that `s` writes: three or more numbers between commas, of
/// which a fourth, where it is a decimal, is the rotary axis.
pub open spec fn position_of(s: Seq<char>) -> Result<Position, ParseErrorView> {
    let parts = split(s, ',');
    if parts.len() < 3 {
        Err(ParseErrorView::InvalidPosition("expected at least x,y,z, got: "@ + s))
    } else if decimal_of(trim(parts[0])) is None {
        Err(ParseErrorView::InvalidPosition("invalid x: "@ + trim(parts[0])))
    } else if decimal_of(trim(parts[1])) is None {
        Err(ParseErrorView::InvalidPosition("invalid y: "@ + trim(parts[1])))
    } else if decimal_of(trim(parts[2])) is None {
        Err(ParseErrorView::InvalidPosition("invalid z: "@ + trim(parts[2])))
    } else {
        Ok(
            Position {
                x: decimal_of(trim(parts[0]))->0,
                y: decimal_of(trim(parts[1]))->0,
                z: decimal_of(trim(parts[2]))->0,
                a: if parts.len() > 3 {
                    decimal_of(trim(parts[3]))
                } else {
                    None
                },
            },
        )
    }
}

/// Reads `x,y,z` or `x,y,z,a`.
pub fn parse_position(s: &Vec<char>) -> (r: Result<Position, ParseError>)
    ensures
        match r {
            Ok(p) => position_of(s@) == Ok::<Position, ParseErrorView>(p),
            Err(e) => position_of(s@) == Err::<Position, ParseErrorView>(e@),
        },
{
    let parts = split_chars(s, ',');
    proof {
        assert(views(parts@).len() == parts.len());
    }
    if parts.len() < 3 {
        return Err(ParseError::InvalidPosition(join("expected at least x,y,z, got: ", s)));
    }
    proof {
        assert(views(parts@)[0] == parts@[0]@);
        assert(views(parts@)[1] == parts@[1]@);
        assert(views(parts@)[2] == parts@[2]@);
        if parts.len() > 3 {
            assert(views(parts@)[3] == parts@[3]@);
        }
    }
    let tx = trim_chars(&parts[0]);
    let x = match parse_decimal(&tx) {
        Some(x) => x,
        None => {
            return Err(ParseError::InvalidPosition(join("invalid x: ", &tx)));
        },
    };
    let ty = trim_chars(&parts[1]);
    let y = match parse_decimal(&ty) {
        Some(y) => y,
        None => {
            return Err(ParseError::InvalidPosition(join("invalid y: ", &ty)));
        },
    };
    let tz = trim_chars(&parts[2]);
    let z = match parse_decimal(&tz) {
        Some(z) => z,
        None => {
            return Err(ParseError::InvalidPosition(join("invalid z: ", &tz)));
        },
    };
    let a = if parts.len() > 3 {
        let ta = trim_chars(&parts[3]);
        parse_decimal(&ta)
    } else {
        None
    };
    Ok(Position { x, y, z, a })
}

/// The feed and spindle speed that `s` writes: exactly two numbers with a
/// comma between them.
pub open spec fn feed_spindle_of(s: Seq<char>) -> Result<(Decimal, Decimal), ParseErrorView> {
    let parts = split(s, ',');
    if parts.len() != 2 {
        Err(ParseErrorView::InvalidStatus("FS expected feed,spindle: "@ + s))
    } else if decimal_of(trim(parts[0])) is None {
        Err(ParseErrorView::InvalidStatus("invalid feed: "@ + trim(parts[0])))
    } else if decimal_of(trim(parts[1])) is None {
        Err(ParseErrorView::InvalidStatus("invalid spindle: "@ + trim(parts[1])))
    } else {
        Ok((decimal_of(trim(parts[0]))->0, decimal_of(trim(parts[1]))->0))
    }
}

/// Reads `feed,spindle`.
pub fn parse_fs(s: &Vec<char>) -> (r: Result<(Decimal, Decimal), ParseError>)
    ensures
        match r {
            Ok(p) => feed_spindle_of(s@) == Ok::<(Decimal, Decimal), ParseErrorView>(p),
            Err(e) => feed_spindle_of(s@) == Err::<(Decimal, Decimal), ParseErrorView>(e@),
        },
{
    let parts = split_chars(s, ',');
    proof {
        assert(views(parts@).len() == parts.len());
    }
    if parts.len() != 2 {
        return Err(ParseError::InvalidStatus(join("FS expected feed,spindle: ", s)));
    }
    proof {
        assert(views(parts@)[0] == parts@[0]@);
        assert(views(parts@)[1] == parts@[1]@);
    }
    let tf = trim_chars(&parts[0]);
    let feed = match parse_decimal(&tf) {
        Some(f) => f,
        None => {
            return Err(ParseError::InvalidStatus(join("invalid feed: ", &tf)));
        },
    };
    let ts = trim_chars(&parts[1]);
    let spindle = match parse_decimal(&ts) {
        Some(s) => s,
        None => {
            return Err(ParseError::InvalidStatus(join("invalid spindle: ", &ts)));
        },
    };
    Ok((feed, spindle))
}

/// The report `acc` after one more segment: `MPos:` sets the machine
/// position, `WPos:` the work position, `FS:` feed and spindle speed; any
/// other segment changes nothing.
pub open spec fn apply_field(acc: StatusReport, part: Seq<char>) -> Result<
    StatusReport,
    ParseErrorView,
> {
    let p = trim(part);
    if starts_with(p, "MPos:"@) {
        match position_of(after(p, "MPos:"@)) {
            Ok(pos) => Ok(StatusReport { machine_pos: pos, ..acc }),
            Err(e) => Err(e),
        }
    } else if starts_with(p, "WPos:"@) {
        match position_of(after(p, "WPos:"@)) {
            Ok(pos) => Ok(StatusReport { work_pos: pos, ..acc }),
            Err(e) => Err(e),
        }
    } else if starts_with(p, "FS:"@) {
        match feed_spindle_of(after(p, "FS:"@)) {
            Ok(fs) => Ok(StatusReport { feed_rate: fs.0, spindle_speed: fs.1, ..acc }),
            Err(e) => Err(e),
        }
    } else {
        Ok(acc)
    }
}

/// The report `acc` after the segments `parts`, in order; the first segment
/// in error decides.
pub open spec fn apply_fields(acc: StatusReport, parts: Seq<Seq<char>>) -> Result<
    StatusReport,
    ParseErrorView,
>
    decreases parts.len(),
{
    if parts.len() == 0 {
        Ok(acc)
    } else {
        match apply_field(acc, parts[0]) {
            Ok(next) => apply_fields(next, parts.drop_first()),
            Err(e) => Err(e),
        }
    }
}

/// A trimmed line without its angle brackets: a leading `<` and a trailing
/// `>` are dropped together; without the trailing `>` the line stays whole.
pub open spec fn unwrap_brackets(s: Seq<char>) -> Seq<char> {
    let inner = if s.len() > 0 && s[0] == '<' {
        s.drop_first()
    } else {
        s
    };
    if inner.len() > 0 && inner.last() == '>' {
        inner.drop_last()
    } else {
        s
    }
}

/// The report before any segment but the state token is read.
pub open spec fn initial_report(state: MachineStateView) -> StatusReport {
    StatusReport {
        state,
        machine_pos: Position::origin(),
        work_pos: Position::origin(),
        feed_rate: Decimal { units: 0 },
        spindle_speed: Decimal { units: 0 },
    }
}

/// What the segments of a status line report: the first is the state
/// token, which must not be empty; the others are read in order.
pub open spec fn segments_report(parts: Seq<Seq<char>>) -> Result<StatusReport, ParseErrorView> {
    let token = trim(parts[0]);
    if token.len() == 0 {
        Err(ParseErrorView::InvalidStatus("empty status"@))
    } else {
        apply_fields(initial_report(state_of(token)), parts.drop_first())
    }
}

/// What a status line reports, or why it is refused.
pub open spec fn status_of(line: Seq<char>) -> Result<StatusReport, ParseErrorView> {
    segments_report(split(unwrap_brackets(trim(line)), '|'))
}

fn unwrap_brackets_chars(s: &Vec<char>) -> (r: Vec<char>)
    ensures
        r@ == unwrap_brackets(s@),
{
    let n = s.len();
    let lo: usize = if n > 0 && s[0] == '<' {
        1
    } else {
        0
    };
    proof {
        assert(s@.subrange(lo as int, n as int) =~= if lo == 1 {
            s@.drop_first()
        } else {
            s@
        });
    }
    if n > lo && s[n - 1] == '>' {
        let r = slice_chars(s, lo, n - 1);
        proof {
            assert(s@.subrange(lo as int, n as int).drop_last() =~= r@);
        }
        r
    } else {
        let r = slice_chars(s, 0, n);
        proof {
            assert(s@.subrange(0, n as int) =~= s@);
        }
        r
    }
}

/// Parses a single real-time status line, the response to `?`.
///
/// The line is `<State|MPos:x,y,z[,a]|WPos:x,y,z[,a]|FS:feed,spindle>`, the
/// angle brackets being optional. The status is stamped with
/// `last_updated`; its pins are all released.
pub fn parse_status(line: &str, last_updated: Instant) -> (r: Result<MachineStatus, ParseError>)
    ensures
        match r {
            Ok(st) => {
                &&& status_of(line@) == Ok::<StatusReport, ParseErrorView>(st.report())
                &&& st.input_pins == PinState::released()
                &&& st.last_updated == last_updated
            },
            Err(e) => status_of(line@) == Err::<StatusReport, ParseErrorView>(e@),
        },
{
    let v = to_chars(line);
    let t = trim_chars(&v);
    let s = unwrap_brackets_chars(&t);
    let parts = split_chars(&s, '|');
    let n = parts.len();
    let ghost all = views(parts@);
    proof {
        assert(all[0] == parts@[0]@);
        assert(all.drop_first() =~= all.subrange(1, n as int));
    }
    let token = trim_chars(&parts[0]);
    if token.len() == 0 {
        return Err(ParseError::InvalidStatus(join("empty status", &Vec::new())));
    }
    let state = parse_state_chars(&token);
    let mut machine_pos = Position::zero();
    let mut work_pos = Position::zero();
    let mut feed_rate = Decimal { units: 0 };
    let mut spindle_speed = Decimal { units: 0 };
    let ghost goal = apply_fields(initial_report(state@), all.drop_first());
    let mut i: usize = 1;
    while i < n
        invariant
            1 <= i <= n == parts.len(),
            all == views(parts@),
            status_of(line@) == goal,
            goal == apply_fields(
                StatusReport { state: state@, machine_pos, work_pos, feed_rate, spindle_speed },
                all.subrange(i as int, n as int),
            ),
        decreases n - i,
    {
        let ghost rest = all.subrange(i as int, n as int);
        proof {
            assert(rest[0] == parts@[i as int]@);
            assert(rest.drop_first() =~= all.subrange(i + 1, n as int));
        }
        let part = trim_chars(&parts[i]);
        match strip_prefix(&part, "MPos:") {
            Some(text) => {
                match parse_position(&text) {
                    Ok(p) => {
                        machine_pos = p;
                    },
                    Err(e) => {
                        return Err(e);
                    },
                }
            },
            None => {
                match strip_prefix(&part, "WPos:") {
                    Some(text) => {
                        match parse_position(&text) {
                            Ok(p) => {
                                work_pos = p;
                            },
                            Err(e) => {
                                return Err(e);
                            },
                        }
                    },
                    None => {
                        match strip_prefix(&part, "FS:") {
                            Some(text) => {
                                match parse_fs(&text) {
                                    Ok(fs) => {
                                        feed_rate = fs.0;
                                        spindle_speed = fs.1;
                                    },
                                    Err(e) => {
                                        return Err(e);
                                    },
                                }
                            },
                            None => {},
                        }
                    },
                }
            },
        }
        i += 1;
    }
    Ok(
        MachineStatus {
            state,
            machine_pos,
            work_pos,
            feed_rate,
            spindle_speed,
            input_pins: PinState::default(),
            last_updated,
        },
    )
}

/// The text of the number in a trimmed alarm message: what follows
/// `ALARM:` or `error:`, trimmed, or the whole message without such a
/// prefix.
pub open spec fn alarm_number_text(s: Seq<char>) -> Seq<char> {
    if starts_with(s, "ALARM:"@) {
        trim(after(s, "ALARM:"@))
    } else if starts_with(s, "error:"@) {
        trim(after(s, "error:"@))
    } else {
        s
    }
}

/// The alarm code that a message names, or the error for a message without
/// a number from 0 to 255.
pub open spec fn alarm_code_of(line: Seq<char>) -> Result<AlarmCode, ParseErrorView> {
    let s = trim(line);
    match unsigned_of(alarm_number_text(s), 255) {
        Some(n) => Ok(alarm_of(n as u8)),
        None => Err(ParseErrorView::InvalidAlarm(s)),
    }
}

/// Parses an alarm message such as `ALARM:1`, `ALARM: 2` or `error:9` into
/// its alarm code.
pub fn parse_alarm_code(s: &str) -> (r: Result<AlarmCode, ParseError>)
    ensures
        match r {
            Ok(code) => alarm_code_of(s@) == Ok::<AlarmCode, ParseErrorView>(code),
            Err(e) => alarm_code_of(s@) == Err::<AlarmCode, ParseErrorView>(e@),
        },
{
    let v = to_chars(s);
    let t = trim_chars(&v);
    let text = match strip_prefix(&t, "ALARM:") {
        Some(rest) => trim_chars(&rest),
        None => match strip_prefix(&t, "error:") {
            Some(rest) => trim_chars(&rest),
            None => slice_chars(&t, 0, t.len()),
        },
    };
    proof {
        assert(t@.subrange(0, t.len() as int) =~= t@);
    }
    match parse_unsigned(&text, 255) {
        Some(n) => Ok(AlarmCode::from(n as u8)),
        None => Err(ParseError::InvalidAlarm(to_text(&t))),
    }
}

/// An alarm message written as `ALARM:` and the number of a byte names the
/// alarm code of that byte.
pub proof fn lemma_alarm_round_trip(n: u8)
    ensures
        alarm_code_of("ALARM:"@ + nat_digits(n as nat)) == Ok::<AlarmCode, ParseErrorView>(
            alarm_of(n),
        ),
{
    reveal_strlit("ALARM:");
    let d = nat_digits(n as nat);
    let s = "ALARM:"@ + d;
    lemma_nat_digits(n as nat);
    assert(is_digit(d[0]) && is_digit(d[d.len() - 1]));
    assert(s[0] == 'A');
    assert(s.last() == d.last());
    lemma_trim_fixed(s);
    lemma_trim_fixed(d);
    assert(s.subrange(0, 6) =~= "ALARM:"@);
    assert(after(s, "ALARM:"@) =~= d);
    assert(unsigned_digits(d) == d);
}

/// Whether two lists of segments are the same but for white space around
/// each segment.
pub open spec fn same_trimmed(a: Seq<Seq<char>>, b: Seq<Seq<char>>) -> bool {
    a.len() == b.len() && forall|i: int| 0 <= i < a.len() ==> trim(#[trigger] a[i]) == trim(b[i])
}

proof fn lemma_apply_fields_trimmed(acc: StatusReport, a: Seq<Seq<char>>, b: Seq<Seq<char>>)
    requires
        same_trimmed(a, b),
    ensures
        apply_fields(acc, a) == apply_fields(acc, b),
    decreases a.len(),
{
    if a.len() > 0 {
        assert(trim(a[0]) == trim(b[0]));
        assert(apply_field(acc, a[0]) == apply_field(acc, b[0]));
        match apply_field(acc, a[0]) {
            Ok(next) => {
                assert forall|i: int| 0 <= i < a.drop_first().len() implies trim(
                    #[trigger] a.drop_first()[i],
                ) == trim(b.drop_first()[i]) by {
                    assert(a.drop_first()[i] == a[i + 1]);
                    assert(b.drop_first()[i] == b[i + 1]);
                    assert(trim(a[i + 1]) == trim(b[i + 1]));
                }
                lemma_apply_fields_trimmed(next, a.drop_first(), b.drop_first());
            },
            Err(e) => {},
        }
    }
}

proof fn lemma_split_nonempty(s: Seq<char>, c: char)
    ensures
        split(s, c).len() >= 1,
    decreases s.len(),
{
    lemma_index_of(s, c);
    let i = index_of(s, c);
    if 0 <= i < s.len() {
        lemma_split_nonempty(s.subrange(i + 1, s.len() as int), c);
    }
}

/// A blank in front of a line changes its segments by white space only.
proof fn lemma_split_leading_blank(s: Seq<char>)
    requires
        s.len() > 0,
        is_space(s[0]),
    ensures
        same_trimmed(split(s, '|'), split(s.drop_first(), '|')),
{
    let r = s.drop_first();
    lemma_index_of(r, '|');
    let i = index_of(r, '|');
    assert(index_of(s, '|') == 1 + i);
    if i < r.len() {
        let a = s.subrange(0, i + 1);
        let b = r.subrange(0, i);
        assert(a.drop_first() =~= b);
        assert(trim_start(a) == trim_start(b));
        assert(s.subrange(i + 2, s.len() as int) =~= r.subrange(i + 1, r.len() as int));
        let rest = split(r.subrange(i + 1, r.len() as int), '|');
        assert(split(s, '|') =~= seq![a] + rest);
        assert(split(r, '|') =~= seq![b] + rest);
    } else {
        assert(trim_start(s) == trim_start(r));
        assert(split(s, '|') =~= seq![s]);
        assert(split(r, '|') =~= seq![r]);
    }
}

/// Dropping a trailing blank changes the trim of a sequence by nothing.
proof fn lemma_trim_trailing_blank(s: Seq<char>)
    requires
        s.len() > 0,
        is_space(s.last()),
    ensures
        trim(s) == trim(s.drop_last()),
    decreases s.len(),
{
    let r = s.drop_last();
    if s.len() == 1 {
        assert(s.drop_first() =~= Seq::<char>::empty());
        assert(r =~= Seq::<char>::empty());
        assert(trim_start(Seq::<char>::empty()) == Seq::<char>::empty());
    } else if is_space(s[0]) {
        assert(r[0] == s[0]);
        assert(r.drop_first() =~= s.drop_first().drop_last());
        assert(s.drop_first().last() == s.last());
        lemma_trim_trailing_blank(s.drop_first());
    } else {
        assert(r[0] == s[0]);
    }
}

/// A blank at the end of a line changes its segments by white space only.
proof fn lemma_split_trailing_blank(s: Seq<char>)
    requires
        s.len() > 0,
        is_space(s.last()),
    ensures
        same_trimmed(split(s, '|'), split(s.drop_last(), '|')),
    decreases s.len(),
{
    let r = s.drop_last();
    lemma_index_of(s, '|');
    let i = index_of(s, '|');
    if i < s.len() {
        assert(i < s.len() - 1);
        assert forall|j: int| 0 <= j < i implies r[j] != '|' by {
            assert(r[j] == s[j]);
        }
        assert(r[i] == s[i]);
        lemma_index_of_unique(r, '|', i);
        let tail = s.subrange(i + 1, s.len() as int);
        assert(tail.last() == s.last());
        assert(r.subrange(i + 1, r.len() as int) =~= tail.drop_last());
        assert(r.subrange(0, i) =~= s.subrange(0, i));
        lemma_split_trailing_blank(tail);
        let a = split(tail, '|');
        let b = split(tail.drop_last(), '|');
        let first = s.subrange(0, i);
        assert(split(s, '|') =~= seq![first] + a);
        assert(split(r, '|') =~= seq![first] + b);
        assert forall|k: int| 0 <= k < a.len() + 1 implies trim(#[trigger] (seq![first] + a)[k])
            == trim((seq![first] + b)[k]) by {
            if k > 0 {
                assert((seq![first] + a)[k] == a[k - 1]);
                assert((seq![first] + b)[k] == b[k - 1]);
                assert(trim(a[k - 1]) == trim(b[k - 1]));
            }
        }
    } else {
        assert forall|j: int| 0 <= j < r.len() implies r[j] != '|' by {
            assert(r[j] == s[j]);
        }
        lemma_index_of_unique(r, '|', r.len() as int);
        lemma_trim_trailing_blank(s);
        assert(split(s, '|') =~= seq![s]);
        assert(split(r, '|') =~= seq![r]);
    }
}

proof fn lemma_split_trim_start(s: Seq<char>)
    ensures
        same_trimmed(split(s, '|'), split(trim_start(s), '|')),
    decreases s.len(),
{
    if s.len() > 0 && is_space(s[0]) {
        lemma_split_leading_blank(s);
        lemma_split_trim_start(s.drop_first());
    }
}

proof fn lemma_split_trim_end(s: Seq<char>)
    ensures
        same_trimmed(split(s, '|'), split(trim_end(s), '|')),
    decreases s.len(),
{
    if s.len() > 0 && is_space(s.last()) {
        lemma_split_trailing_blank(s);
        lemma_split_trim_end(s.drop_last());
    }
}

/// White space around a line changes nothing of what its segments report.
pub proof fn lemma_segments_ignore_padding(s: Seq<char>)
    ensures
        segments_report(split(s, '|')) == segments_report(split(trim(s), '|')),
{
    lemma_split_trim_start(s);
    lemma_split_trim_end(trim_start(s));
    let a = split(s, '|');
    let b = split(trim(s), '|');
    lemma_split_nonempty(s, '|');
    assert(same_trimmed(a, b));
    assert(trim(a[0]) == trim(b[0]));
    assert forall|i: int| 0 <= i < a.drop_first().len() implies trim(
        #[trigger] a.drop_first()[i],
    ) == trim(b.drop_first()[i]) by {
        assert(a.drop_first()[i] == a[i + 1]);
        assert(b.drop_first()[i] == b[i + 1]);
        assert(trim(a[i + 1]) == trim(b[i + 1]));
    }
    lemma_apply_fields_trimmed(
        initial_report(state_of(trim(a[0]))),
        a.drop_first(),
        b.drop_first(),
    );
}

/// Whether a status line, white space aside, ends with a closing bracket.
pub open spec fn is_closed(s: Seq<char>) -> bool {
    trim(s).len() > 0 && trim(s).last() == '>'
}

/// Angle brackets around a status line change nothing of what it reports,
/// for every line that does not itself end with a closing bracket.
pub proof fn lemma_brackets_optional(s: Seq<char>)
    requires
        !is_closed(s),
    ensures
        status_of(seq!['<'] + s + seq!['>']) == status_of(s),
{
    let w = seq!['<'] + s + seq!['>'];
    assert(w[0] == '<' && w.last() == '>');
    lemma_trim_fixed(w);
    assert(w.drop_first() =~= s + seq!['>']);
    assert(w.drop_first().drop_last() =~= s);
    assert(unwrap_brackets(w) == s);
    let t = trim(s);
    if t.len() > 0 && t[0] == '<' {
        if t.drop_first().len() > 0 {
            assert(t.drop_first().last() == t.last());
        }
    }
    assert(unwrap_brackets(t) == t);
    lemma_segments_ignore_padding(s);
}

/// Parsed settings: setting number to value text.
#[derive(Clone, Debug)]
pub struct GrblSettings {
    pub raw: HashMap<u32, String>,
}

/// The values of a settings map as plain text.
pub open spec fn settings_view(raw: Map<u32, String>) -> Map<u32, Seq<char>> {
    raw.map_values(|s: String| s@)
}

impl View for GrblSettings {
    type V = Map<u32, Seq<char>>;

    open spec fn view(&self) -> Map<u32, Seq<char>> {
        settings_view(self.raw@)
    }
}

impl Default for GrblSettings {
    fn default() -> (s: GrblSettings)
        ensures
            s@ == Map::<u32, Seq<char>>::empty(),
    {
        let raw: HashMap<u32, String> = HashMap::new();
        proof {
            assert(settings_view(raw@) =~= Map::<u32, Seq<char>>::empty());
        }
        GrblSettings { raw }
    }
}

/// The setting that one line of a listing writes: `$N=VALUE` with `N` a
/// number of 32 bits gives `N` and the trimmed value; any other line gives
/// nothing.
pub open spec fn setting_of(line: Seq<char>) -> Option<(u32, Seq<char>)> {
    let t = trim(line);
    if t.len() > 0 && t[0] == '$' {
        let rest = t.drop_first();
        let eq = index_of(rest, '=');
        if eq < rest.len() {
            match unsigned_of(trim(rest.subrange(0, eq)), 0xFFFF_FFFF) {
                Some(n) => Some((n as u32, trim(rest.subrange(eq + 1, rest.len() as int)))),
                None => None,
            }
        } else {
            None
        }
    } else {
        None
    }
}

/// The settings `acc` after the lines `lines`, in order: a later line for a
/// number replaces an earlier one.
pub open spec fn settings_from(lines: Seq<Seq<char>>, acc: Map<u32, Seq<char>>) -> Map<
    u32,
    Seq<char>,
>
    decreases lines.len(),
{
    if lines.len() == 0 {
        acc
    } else {
        settings_from(
            lines.drop_first(),
            match setting_of(lines[0]) {
                Some(kv) => acc.insert(kv.0, kv.1),
                None => acc,
            },
        )
    }
}

/// The settings that a listing writes, one line per setting.
pub open spec fn settings_of(body: Seq<char>) -> Map<u32, Seq<char>> {
    settings_from(split(body, '\n'), Map::empty())
}

fn parse_setting(line: &Vec<char>) -> (r: Option<(u32, String)>)
    ensures
        match r {
            Some(kv) => setting_of(line@) == Some((kv.0, kv.1@)),
            None => setting_of(line@) is None,
        },
{
    let t = trim_chars(line);
    if t.len() == 0 || t[0] != '$' {
        return None;
    }
    let rest = slice_chars(&t, 1, t.len());
    proof {
        assert(rest@ =~= t@.drop_first());
        assert(rest@.subrange(0, rest.len() as int) =~= rest@);
    }
    let eq = find_char(&rest, 0, '=');
    if eq >= rest.len() {
        return None;
    }
    let key = trim_chars(&slice_chars(&rest, 0, eq));
    let value = trim_chars(&slice_chars(&rest, eq + 1, rest.len()));
    match parse_unsigned(&key, 0xFFFF_FFFF) {
        Some(n) => Some((n as u32, to_text(&value))),
        None => None,
    }
}

/// Parses the lines of a settings listing. Each line should be `$N=value`;
/// empty lines, `ok` and any other line that is not of that form are
/// skipped, so the result is always `Ok`.
pub fn parse_settings(lines: &str) -> (r: Result<GrblSettings, ParseError>)
    ensures
        r is Ok,
        r->Ok_0@ == settings_of(lines@),
{
    let body = to_chars(lines);
    let parts = split_chars(&body, '\n');
    let n = parts.len();
    let ghost all = views(parts@);
    let mut raw: HashMap<u32, String> = HashMap::new();
    proof {
        assert(settings_view(raw@) =~= Map::<u32, Seq<char>>::empty());
        assert(all.subrange(0, n as int) =~= all);
    }
    let mut i: usize = 0;
    while i < n
        invariant
            i <= n == parts.len(),
            all == views(parts@),
            all == split(lines@, '\n'),
            settings_from(all.subrange(i as int, n as int), settings_view(raw@)) == settings_of(
                lines@,
            ),
        decreases n - i,
    {
        let ghost rest = all.subrange(i as int, n as int);
        let ghost before = settings_view(raw@);
        proof {
            assert(rest[0] == parts@[i as int]@);
            assert(rest.drop_first() =~= all.subrange(i + 1, n as int));
        }
        match parse_setting(&parts[i]) {
            Some(kv) => {
                let ghost text = kv.1@;
                raw.insert(kv.0, kv.1);
                proof {
                    assert(settings_view(raw@) =~= before.insert(kv.0, text));
                }
            },
            None => {},
        }
        i += 1;
    }
    Ok(GrblSettings { raw })
}

} // verus!
