use grbl_rs::decimal::Decimal;
use grbl_rs::state::{AlarmCode, HoldReason, MachineState, MachineStatus, PinState, Position};
use std::time::Instant;

#[test]
fn idle_status_is_at_rest_at_the_origin() {
    let before = Instant::now();
    let st = MachineStatus::idle();
    let after = Instant::now();
    assert_eq!(st.state, MachineState::Idle);
    assert_eq!(st.machine_pos, Position::zero());
    assert_eq!(st.work_pos, Position::zero());
    assert_eq!(st.machine_pos.a, None);
    assert_eq!(st.feed_rate, Decimal::zero());
    assert_eq!(st.spindle_speed, Decimal::zero());
    assert_eq!(st.input_pins, PinState::default());
    assert!(before <= st.last_updated && st.last_updated <= after);
}

#[test]
fn default_pins_are_released() {
    let p = PinState::default();
    assert!(!p.limit_x && !p.limit_y && !p.limit_z && !p.probe);
}

#[test]
fn origin_has_no_rotary_axis() {
    let p = Position::zero();
    assert_eq!(p.x.units, 0);
    assert_eq!(p.y.units, 0);
    assert_eq!(p.z.units, 0);
    assert!(p.a.is_none());
}

#[test]
fn alarm_codes_by_number() {
    assert_eq!(AlarmCode::from(1), AlarmCode::HardLimit);
    assert_eq!(AlarmCode::from(10), AlarmCode::EStop);
    assert_eq!(AlarmCode::from(21), AlarmCode::NvsFailed);
    assert_eq!(AlarmCode::from(0), AlarmCode::Unknown(0));
    assert_eq!(AlarmCode::from(22), AlarmCode::Unknown(22));
    assert_eq!(AlarmCode::from(255), AlarmCode::Unknown(255));
}

#[test]
fn states_that_pause_a_stream() {
    assert!(MachineState::Hold(HoldReason::FeedHold).is_paused());
    assert!(MachineState::Hold(HoldReason::SafetyDoor).is_paused());
    assert!(MachineState::Door.is_paused());
    for s in [
        MachineState::Idle,
        MachineState::Run,
        MachineState::Jog,
        MachineState::Alarm(AlarmCode::SoftLimit),
        MachineState::Check,
        MachineState::Home,
        MachineState::Sleep,
        MachineState::Unknown("Tool".to_string()),
    ] {
        assert!(!s.is_paused());
    }
}

#[test]
fn a_cloned_status_keeps_its_time() {
    let st = MachineStatus::idle();
    let copy = st.clone();
    assert_eq!(copy.last_updated, st.last_updated);
    assert_eq!(copy.state, st.state);
}
