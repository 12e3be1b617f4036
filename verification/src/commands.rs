//! Typed commands of the controller.
//!
//! A line command renders to the exact text sent over the serial line, without
//! the terminator, which the port adds. A real-time command is a single byte.

use vstd::prelude::*;
use crate::decimal::{nat_digits, push_nat, push_shortest, shortest, Decimal};
use crate::text::{extend_chars, to_chars, to_text};

verus! {

/// Line-based command.
#[derive(Clone, Debug, PartialEq, Eq)]
pub enum GrblCommand {
    /// Request a status report.
    StatusRequest,
    /// Request all settings.
    SettingsRequest,
    /// Run the homing cycle.
    Home,
    /// Unlock after an alarm.
    Unlock,
    /// Jog, with the G-code part of the command, as in `G21G91X10F500`.
    Jog(String),
    /// Probe cycle, as a raw G-code line.
    ProbeCycle(String),
    /// Set the zero of work coordinate system `p`.
    SetWcsZero { p: u8, x: Decimal, y: Decimal, z: Decimal },
    /// Activate a work coordinate system, 1 to 9.
    ActivateWcs(u8),
    /// Raw G-code line, sent as it is.
    GcodeLine(String),
}

/// A line command as a plain value.
pub enum GrblCommandView {
    StatusRequest,
    SettingsRequest,
    Home,
    Unlock,
    Jog(Seq<char>),
    ProbeCycle(Seq<char>),
    SetWcsZero { p: u8, x: Decimal, y: Decimal, z: Decimal },
    ActivateWcs(u8),
    GcodeLine(Seq<char>),
}

impl View for GrblCommand {
    type V = GrblCommandView;

    open spec fn view(&self) -> GrblCommandView {
        match self {
            GrblCommand::StatusRequest => GrblCommandView::StatusRequest,
            GrblCommand::SettingsRequest => GrblCommandView::SettingsRequest,
            GrblCommand::Home => GrblCommandView::Home,
            GrblCommand::Unlock => GrblCommandView::Unlock,
            GrblCommand::Jog(g) => GrblCommandView::Jog(g@),
            GrblCommand::ProbeCycle(l) => GrblCommandView::ProbeCycle(l@),
            GrblCommand::SetWcsZero { p, x, y, z } => GrblCommandView::SetWcsZero {
                p: *p,
                x: *x,
                y: *y,
                z: *z,
            },
            GrblCommand::ActivateWcs(n) => GrblCommandView::ActivateWcs(*n),
            GrblCommand::GcodeLine(l) => GrblCommandView::GcodeLine(l@),
        }
    }
}

/// The word that activates work coordinate system `n`; a number outside 1
/// to 9 falls back to the last one.
pub open spec fn wcs_word(n: u8) -> Seq<char> {
    if n == 1 {
        "G54"@
    } else if n == 2 {
        "G55"@
    } else if n == 3 {
        "G56"@
    } else if n == 4 {
        "G57"@
    } else if n == 5 {
        "G58"@
    } else if n == 6 {
        "G59"@
    } else if n == 7 {
        "G59.1"@
    } else if n == 8 {
        "G59.2"@
    } else {
        "G59.3"@
    }
}

/// The nine words of the work coordinate systems, in order.
pub open spec fn wcs_words() -> Seq<Seq<char>> {
    seq!["G54"@, "G55"@, "G56"@, "G57"@, "G58"@, "G59"@, "G59.1"@, "G59.2"@, "G59.3"@]
}

/// The word of work coordinate system `k`, for `k` from 1 to 9, is the
/// `k`-th of the nine words.
pub proof fn lemma_wcs_word_in_order(k: u8)
    requires
        1 <= k <= 9,
    ensures
        wcs_word(k) == wcs_words()[k - 1],
{
}

/// The text of the command that sets the zero of a work coordinate system.
pub open spec fn set_zero_text(p: u8, x: Decimal, y: Decimal, z: Decimal) -> Seq<char> {
    "G10 L20 P"@ + nat_digits(p as nat) + " X"@ + shortest(x.units as int) + " Y"@ + shortest(
        y.units as int,
    ) + " Z"@ + shortest(z.units as int)
}

impl GrblCommandView {
    /// The text that goes over the wire for this command, without terminator.
    pub open spec fn wire(self) -> Seq<char> {
        match self {
            GrblCommandView::StatusRequest => "?"@,
            GrblCommandView::SettingsRequest => "$$"@,
            GrblCommandView::Home => "$H"@,
            GrblCommandView::Unlock => "$X"@,
            GrblCommandView::Jog(g) => "$J="@ + g,
            GrblCommandView::ProbeCycle(l) => l,
            GrblCommandView::SetWcsZero { p, x, y, z } => set_zero_text(p, x, y, z),
            GrblCommandView::ActivateWcs(n) => wcs_word(n),
            GrblCommandView::GcodeLine(l) => l,
        }
    }
}

fn wcs_text(n: u8) -> (s: &'static str)
    ensures
        s@ == wcs_word(n),
{
    if n == 1 {
        "G54"
    } else if n == 2 {
        "G55"
    } else if n == 3 {
        "G56"
    } else if n == 4 {
        "G57"
    } else if n == 5 {
        "G58"
    } else if n == 6 {
        "G59"
    } else if n == 7 {
        "G59.1"
    } else if n == 8 {
        "G59.2"
    } else {
        "G59.3"
    }
}

fn set_zero_chars(p: u8, x: Decimal, y: Decimal, z: Decimal) -> (out: Vec<char>)
    ensures
        out@ == set_zero_text(p, x, y, z),
{
    let mut out = to_chars("G10 L20 P");
    push_nat(&mut out, p as u128);
    extend_chars(&mut out, &to_chars(" X"));
    push_shortest(&mut out, x.units as i128);
    extend_chars(&mut out, &to_chars(" Y"));
    push_shortest(&mut out, y.units as i128);
    extend_chars(&mut out, &to_chars(" Z"));
    push_shortest(&mut out, z.units as i128);
    out
}

impl GrblCommand {
    /// The exact text to send for this command; the port adds the terminator.
    pub fn render(&self) -> (s: String)
        ensures
            s@ == self@.wire(),
    {
        match self {
            GrblCommand::StatusRequest => to_text(&to_chars("?")),
            GrblCommand::SettingsRequest => to_text(&to_chars("$$")),
            GrblCommand::Home => to_text(&to_chars("$H")),
            GrblCommand::Unlock => to_text(&to_chars("$X")),
            GrblCommand::Jog(g) => {
                let mut out = to_chars("$J=");
                extend_chars(&mut out, &to_chars(g.as_str()));
                to_text(&out)
            },
            GrblCommand::ProbeCycle(l) => l.clone(),
            GrblCommand::SetWcsZero { p, x, y, z } => to_text(&set_zero_chars(*p, *x, *y, *z)),
            GrblCommand::ActivateWcs(n) => to_text(&to_chars(wcs_text(*n))),
            GrblCommand::GcodeLine(l) => l.clone(),
        }
    }
}

/// The character that ends every line on the wire.
pub const LINE_TERMINATOR: char = '\n';

/// A line as it goes over the wire: the text followed by a single newline.
pub open spec fn framed(text: Seq<char>) -> Seq<char> {
    text.push('\n')
}

/// Frames a line for sending: the text, then the terminator.
pub fn frame_line(text: &str) -> (line: String)
    ensures
        line@ == framed(text@),
{
    let mut out = to_chars(text);
    out.push(LINE_TERMINATOR);
    to_text(&out)
}

/// Real-time single-byte command, sent without a line terminator.
#[derive(Clone, Copy, Debug, PartialEq, Eq, Structural)]
pub enum RealtimeCommand {
    /// Soft reset (Ctrl-X).
    SoftReset,
    /// Safety door.
    SafetyDoor,
    /// Jog cancel.
    JogCancel,
    /// Feed override 100%.
    FeedOverride100,
    /// Feed override +10%.
    FeedOverridePlus10,
    /// Feed override -10%.
    FeedOverrideMinus10,
}

/// The upper-case hexadecimal digit of a number below sixteen.
pub open spec fn hex_digit(n: int) -> char {
    if n < 10 {
        (48 + n) as char
    } else {
        (55 + n) as char
    }
}

fn hex_digit_char(n: u8) -> (c: char)
    requires
        n < 16,
    ensures
        c == hex_digit(n as int),
{
    if n < 10 {
        (48u8 + n) as char
    } else {
        (55u8 + n) as char
    }
}

impl RealtimeCommand {
    /// The byte that stands for this command on the wire.
    pub open spec fn byte(self) -> u8 {
        match self {
            RealtimeCommand::SoftReset => 0x18,
            RealtimeCommand::SafetyDoor => 0x84,
            RealtimeCommand::JogCancel => 0x85,
            RealtimeCommand::FeedOverride100 => 0x90,
            RealtimeCommand::FeedOverridePlus10 => 0x91,
            RealtimeCommand::FeedOverrideMinus10 => 0x92,
        }
    }

    /// The display form of the byte: `0x` and two upper-case hexadecimal digits.
    pub open spec fn display_text(self) -> Seq<char> {
        seq!['0', 'x', hex_digit(self.byte() as int / 16), hex_digit(self.byte() as int % 16)]
    }

    /// Returns the single byte to send on the serial line.
    pub fn as_byte(self) -> (b: u8)
        ensures
            b == self.byte(),
    {
        match self {
            RealtimeCommand::SoftReset => 0x18,
            RealtimeCommand::SafetyDoor => 0x84,
            RealtimeCommand::JogCancel => 0x85,
            RealtimeCommand::FeedOverride100 => 0x90,
            RealtimeCommand::FeedOverridePlus10 => 0x91,
            RealtimeCommand::FeedOverrideMinus10 => 0x92,
        }
    }

    /// The display form, as in `0x18`.
    pub fn display(self) -> (s: String)
        ensures
            s@ == self.display_text(),
    {
        let b = self.as_byte();
        let mut out: Vec<char> = Vec::new();
        out.push('0');
        out.push('x');
        out.push(hex_digit_char(b / 16));
        out.push(hex_digit_char(b % 16));
        proof {
            assert(out@ =~= self.display_text());
        }
        to_text(&out)
    }
}

/// The six real-time commands have six different bytes.
pub proof fn lemma_realtime_bytes_distinct(a: RealtimeCommand, b: RealtimeCommand)
    requires
        a.byte() == b.byte(),
    ensures
        a == b,
{
}

} // verus!
