//! Machine state types: positions, machine state, alarm codes, pins and the
//! composite status, each with the plain value that contracts speak of.

use std::time::Instant;
use vstd::prelude::*;
use crate::decimal::Decimal;

verus! {

/// `std::time::Instant`, a reading of the monotonic clock. Nothing inside it
/// is visible to proofs; it is carried through.
#[verifier::external_type_specification]
#[verifier::external_body]
pub struct ExInstant(Instant);

/// Copying a clock reading (`Instant::clone`; the type is `Copy`) gives
/// the same reading.
pub assume_specification[ <Instant as Clone>::clone ](t: &Instant) -> (r: Instant)
    ensures
        r == *t,
;

/// Reads the monotonic clock (`Instant::now`). The reading depends on the
/// moment of the call, so nothing is claimed of it.
#[verifier::external_body]
fn clock_now() -> Instant {
    Instant::now()
}

/// Position in machine or work coordinates, with an optional rotary axis.
#[derive(Clone, Copy, Debug, PartialEq, Eq)]
pub struct Position {
    pub x: Decimal,
    pub y: Decimal,
    pub z: Decimal,
    /// Rotary axis, if present.
    pub a: Option<Decimal>,
}

impl Position {
    /// The origin, without a rotary axis.
    pub open spec fn origin() -> Position {
        Position {
            x: Decimal { units: 0 },
            y: Decimal { units: 0 },
            z: Decimal { units: 0 },
            a: None,
        }
    }

    /// The origin, without a rotary axis.
    pub fn zero() -> (p: Position)
        ensures
            p == Position::origin(),
    {
        Position {
            x: Decimal { units: 0 },
            y: Decimal { units: 0 },
            z: Decimal { units: 0 },
            a: None,
        }
    }
}

/// Reason for a Hold state.
#[derive(Clone, Debug, PartialEq, Eq)]
pub enum HoldReason {
    FeedHold,
    SafetyDoor,
    /// Another reason, as reported.
    Other(String),
}

/// A hold reason as a plain value.
pub enum HoldReasonView {
    FeedHold,
    SafetyDoor,
    Other(Seq<char>),
}

impl View for HoldReason {
    type V = HoldReasonView;

    open spec fn view(&self) -> HoldReasonView {
        match self {
            HoldReason::FeedHold => HoldReasonView::FeedHold,
            HoldReason::SafetyDoor => HoldReasonView::SafetyDoor,
            HoldReason::Other(s) => HoldReasonView::Other(s@),
        }
    }
}

/// Alarm code of the controller: the codes 1 to 21 by name, any other byte
/// as `Unknown`.
#[derive(Clone, Copy, Debug, PartialEq, Eq, Structural)]
pub enum AlarmCode {
    HardLimit,
    SoftLimit,
    AbortCycle,
    ProbeFailInitial,
    ProbeFailContact,
    HomingFailReset,
    HomingFailDoor,
    FailPulloff,
    HomingFailApproach,
    EStop,
    HomingRequired,
    LimitsEngaged,
    ProbeProtect,
    Spindle,
    HomingFailAutoSquaringApproach,
    SelftestFailed,
    MotorFault,
    HomingFail,
    ModbusException,
    ExpanderException,
    NvsFailed,
    /// Unknown or extended alarm code.
    Unknown(u8),
}

/// The alarm code that the byte `n` stands for.
pub open spec fn alarm_of(n: u8) -> AlarmCode {
    if n == 1 {
        AlarmCode::HardLimit
    } else if n == 2 {
        AlarmCode::SoftLimit
    } else if n == 3 {
        AlarmCode::AbortCycle
    } else if n == 4 {
        AlarmCode::ProbeFailInitial
    } else if n == 5 {
        AlarmCode::ProbeFailContact
    } else if n == 6 {
        AlarmCode::HomingFailReset
    } else if n == 7 {
        AlarmCode::HomingFailDoor
    } else if n == 8 {
        AlarmCode::FailPulloff
    } else if n == 9 {
        AlarmCode::HomingFailApproach
    } else if n == 10 {
        AlarmCode::EStop
    } else if n == 11 {
        AlarmCode::HomingRequired
    } else if n == 12 {
        AlarmCode::LimitsEngaged
    } else if n == 13 {
        AlarmCode::ProbeProtect
    } else if n == 14 {
        AlarmCode::Spindle
    } else if n == 15 {
        AlarmCode::HomingFailAutoSquaringApproach
    } else if n == 16 {
        AlarmCode::SelftestFailed
    } else if n == 17 {
        AlarmCode::MotorFault
    } else if n == 18 {
        AlarmCode::HomingFail
    } else if n == 19 {
        AlarmCode::ModbusException
    } else if n == 20 {
        AlarmCode::ExpanderException
    } else if n == 21 {
        AlarmCode::NvsFailed
    } else {
        AlarmCode::Unknown(n)
    }
}

impl From<u8> for AlarmCode {
    fn from(n: u8) -> (code: AlarmCode) {
        match n {
            1 => AlarmCode::HardLimit,
            2 => AlarmCode::SoftLimit,
            3 => AlarmCode::AbortCycle,
            4 => AlarmCode::ProbeFailInitial,
            5 => AlarmCode::ProbeFailContact,
            6 => AlarmCode::HomingFailReset,
            7 => AlarmCode::HomingFailDoor,
            8 => AlarmCode::FailPulloff,
            9 => AlarmCode::HomingFailApproach,
            10 => AlarmCode::EStop,
            11 => AlarmCode::HomingRequired,
            12 => AlarmCode::LimitsEngaged,
            13 => AlarmCode::ProbeProtect,
            14 => AlarmCode::Spindle,
            15 => AlarmCode::HomingFailAutoSquaringApproach,
            16 => AlarmCode::SelftestFailed,
            17 => AlarmCode::MotorFault,
            18 => AlarmCode::HomingFail,
            19 => AlarmCode::ModbusException,
            20 => AlarmCode::ExpanderException,
            21 => AlarmCode::NvsFailed,
            _ => AlarmCode::Unknown(n),
        }
    }
}

impl vstd::std_specs::convert::FromSpecImpl<u8> for AlarmCode {
    open spec fn obeys_from_spec() -> bool {
        true
    }

    open spec fn from_spec(n: u8) -> AlarmCode {
        alarm_of(n)
    }
}

/// Every byte stands for an alarm code: 1 to 21 for a named one, any other
/// byte for `Unknown` of itself.
pub proof fn lemma_alarm_of_total(n: u8)
    ensures
        1 <= n <= 21 ==> !(alarm_of(n) is Unknown),
        !(1 <= n <= 21) ==> alarm_of(n) == AlarmCode::Unknown(n),
{
}

/// Distinct bytes stand for distinct alarm codes.
pub proof fn lemma_alarm_of_injective(m: u8, n: u8)
    requires
        alarm_of(m) == alarm_of(n),
    ensures
        m == n,
{
}

/// Input pin state: limit switches and probe.
#[derive(Clone, Copy, Debug, PartialEq, Eq, Structural)]
pub struct PinState {
    pub limit_x: bool,
    pub limit_y: bool,
    pub limit_z: bool,
    pub probe: bool,
}

impl PinState {
    /// No pin asserted.
    pub open spec fn released() -> PinState {
        PinState { limit_x: false, limit_y: false, limit_z: false, probe: false }
    }
}

impl Default for PinState {
    fn default() -> (p: PinState)
        ensures
            p == PinState::released(),
    {
        PinState { limit_x: false, limit_y: false, limit_z: false, probe: false }
    }
}

/// High-level machine state from the status report.
#[derive(Clone, Debug, PartialEq, Eq)]
pub enum MachineState {
    Idle,
    Run,
    Hold(HoldReason),
    Jog,
    Alarm(AlarmCode),
    Door,
    Check,
    Home,
    Sleep,
    Unknown(String),
}

/// A machine state as a plain value.
pub enum MachineStateView {
    Idle,
    Run,
    Hold(HoldReasonView),
    Jog,
    Alarm(AlarmCode),
    Door,
    Check,
    Home,
    Sleep,
    Unknown(Seq<char>),
}

impl View for MachineState {
    type V = MachineStateView;

    open spec fn view(&self) -> MachineStateView {
        match self {
            MachineState::Idle => MachineStateView::Idle,
            MachineState::Run => MachineStateView::Run,
            MachineState::Hold(r) => MachineStateView::Hold(r@),
            MachineState::Jog => MachineStateView::Jog,
            MachineState::Alarm(c) => MachineStateView::Alarm(*c),
            MachineState::Door => MachineStateView::Door,
            MachineState::Check => MachineStateView::Check,
            MachineState::Home => MachineStateView::Home,
            MachineState::Sleep => MachineStateView::Sleep,
            MachineState::Unknown(s) => MachineStateView::Unknown(s@),
        }
    }
}

impl MachineState {
    /// Whether a program stream has to wait in this state: a hold of any
    /// reason, or an open door.
    pub open spec fn pauses(self) -> bool {
        self is Hold || self is Door
    }

    /// Decides `pauses`.
    pub fn is_paused(&self) -> (b: bool)
        ensures
            b == self.pauses(),
    {
        match self {
            MachineState::Hold(_) => true,
            MachineState::Door => true,
            _ => false,
        }
    }
}

/// What a status report says, without the time of its receipt.
pub struct StatusReport {
    pub state: MachineStateView,
    pub machine_pos: Position,
    pub work_pos: Position,
    pub feed_rate: Decimal,
    pub spindle_speed: Decimal,
}

/// Full machine status from a single status report.
#[derive(Clone, Debug)]
pub struct MachineStatus {
    pub state: MachineState,
    pub machine_pos: Position,
    pub work_pos: Position,
    pub feed_rate: Decimal,
    pub spindle_speed: Decimal,
    pub input_pins: PinState,
    /// When the status was received.
    pub last_updated: Instant,
}

impl MachineStatus {
    /// What the status reports.
    pub open spec fn report(&self) -> StatusReport {
        StatusReport {
            state: self.state@,
            machine_pos: self.machine_pos,
            work_pos: self.work_pos,
            feed_rate: self.feed_rate,
            spindle_speed: self.spindle_speed,
        }
    }

    /// The report of a machine at rest at the origin.
    pub open spec fn idle_report() -> StatusReport {
        StatusReport {
            state: MachineStateView::Idle,
            machine_pos: Position::origin(),
            work_pos: Position::origin(),
            feed_rate: Decimal { units: 0 },
            spindle_speed: Decimal { units: 0 },
        }
    }

    /// Initial status before any poll: idle at the origin, no pin asserted,
    /// stamped with the current time.
    pub fn idle() -> (s: MachineStatus)
        ensures
            s.report() == MachineStatus::idle_report(),
            s.input_pins == PinState::released(),
    {
        MachineStatus {
            state: MachineState::Idle,
            machine_pos: Position::zero(),
            work_pos: Position::zero(),
            feed_rate: Decimal { units: 0 },
            spindle_speed: Decimal { units: 0 },
            input_pins: PinState::default(),
            last_updated: clock_now(),
        }
    }
}

} // verus!
