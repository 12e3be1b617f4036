use grbl_rs::decimal::Decimal;
use grbl_rs::parser::{
    parse_alarm_code, parse_settings, parse_state, parse_status, GrblSettings, ParseError,
};
use grbl_rs::state::{AlarmCode, HoldReason, MachineState, MachineStatus, PinState};
use std::time::Instant;

fn mm(d: Decimal) -> f64 {
    d.units as f64 / 10000.0
}

#[test]
fn test_parse_status_idle_bare() {
    let line = "Idle|MPos:0,0,0|WPos:0,0,0|FS:0,0";
    let t = Instant::now();
    let st = parse_status(line, t).unwrap();
    assert!(matches!(st.state, MachineState::Idle));
    assert_eq!(mm(st.machine_pos.x), 0.0);
    assert_eq!(mm(st.work_pos.z), 0.0);
    assert_eq!(mm(st.feed_rate), 0.0);
    assert_eq!(mm(st.spindle_speed), 0.0);
}

#[test]
fn test_parse_status_with_angle_brackets() {
    let line = "<Idle|MPos:0.000,0.000,0.000|WPos:0.000,0.000,0.000|FS:0,0>";
    let t = Instant::now();
    let st = parse_status(line, t).unwrap();
    assert!(matches!(st.state, MachineState::Idle));
    assert_eq!(mm(st.machine_pos.x), 0.0);
}

#[test]
fn test_parse_status_with_fourth_axis() {
    let line = "Idle|MPos:0,0,0,0|WPos:0,0,0,0|FS:100,500";
    let t = Instant::now();
    let st = parse_status(line, t).unwrap();
    assert_eq!(st.machine_pos.a.map(mm), Some(0.0));
    assert_eq!(st.work_pos.a.map(mm), Some(0.0));
    assert_eq!(mm(st.feed_rate), 100.0);
    assert_eq!(mm(st.spindle_speed), 500.0);
}

#[test]
fn test_parse_status_run() {
    let line = "Run|MPos:10.5,20,0|WPos:10.5,20,0|FS:200,1000";
    let t = Instant::now();
    let st = parse_status(line, t).unwrap();
    assert!(matches!(st.state, MachineState::Run));
    assert_eq!(mm(st.machine_pos.x), 10.5);
    assert_eq!(mm(st.machine_pos.y), 20.0);
}

#[test]
fn test_parse_status_hold() {
    let line = "Hold|MPos:0,0,0|WPos:0,0,0|FS:0,0";
    let t = Instant::now();
    let st = parse_status(line, t).unwrap();
    assert!(matches!(st.state, MachineState::Hold(_)));
}

#[test]
fn test_parse_status_jog() {
    let line = "Jog|MPos:1,2,3|WPos:1,2,3|FS:500,0";
    let t = Instant::now();
    let st = parse_status(line, t).unwrap();
    assert!(matches!(st.state, MachineState::Jog));
}

#[test]
fn test_parse_status_alarm() {
    let line = "Alarm:1|MPos:0,0,0|WPos:0,0,0|FS:0,0";
    let t = Instant::now();
    let st = parse_status(line, t).unwrap();
    assert!(matches!(st.state, MachineState::Alarm(AlarmCode::HardLimit)));
}

#[test]
fn test_parse_status_home() {
    let line = "Home|MPos:0,0,0|WPos:0,0,0|FS:0,0";
    let t = Instant::now();
    let st = parse_status(line, t).unwrap();
    assert!(matches!(st.state, MachineState::Home));
}

#[test]
fn test_parse_status_sleep() {
    let line = "Sleep|MPos:0,0,0|WPos:0,0,0|FS:0,0";
    let t = Instant::now();
    let st = parse_status(line, t).unwrap();
    assert!(matches!(st.state, MachineState::Sleep));
}

#[test]
fn test_parse_status_unknown_state() {
    let line = "CustomState|MPos:0,0,0|WPos:0,0,0|FS:0,0";
    let t = Instant::now();
    let st = parse_status(line, t).unwrap();
    assert!(matches!(st.state, MachineState::Unknown(ref s) if s == "CustomState"));
}

#[test]
fn test_parse_status_invalid_empty() {
    let t = Instant::now();
    let err = parse_status("", t).unwrap_err();
    assert!(matches!(err, ParseError::InvalidStatus(_)));
}

#[test]
fn test_parse_status_invalid_position() {
    let t = Instant::now();
    let err = parse_status("Idle|MPos:bad,0,0|WPos:0,0,0|FS:0,0", t).unwrap_err();
    assert!(matches!(err, ParseError::InvalidPosition(_)));
}

#[test]
fn test_parse_alarm_code_alarm_prefix() {
    let code = parse_alarm_code("ALARM:1").unwrap();
    assert_eq!(code, AlarmCode::HardLimit);
}

#[test]
fn test_parse_alarm_code_alarm_space() {
    let code = parse_alarm_code("ALARM: 2").unwrap();
    assert_eq!(code, AlarmCode::SoftLimit);
}

#[test]
fn test_parse_alarm_code_unknown_number() {
    let code = parse_alarm_code("ALARM:99").unwrap();
    assert!(matches!(code, AlarmCode::Unknown(99)));
}

#[test]
fn test_parse_alarm_code_invalid() {
    let err = parse_alarm_code("not a number").unwrap_err();
    assert!(matches!(err, ParseError::InvalidAlarm(_)));
}

#[test]
fn test_parse_settings() {
    let lines = "$0=10\n$1=25\n$21=0\nok\n";
    let settings = parse_settings(lines).unwrap();
    assert_eq!(settings.raw.get(&0), Some(&"10".to_string()));
    assert_eq!(settings.raw.get(&1), Some(&"25".to_string()));
    assert_eq!(settings.raw.get(&21), Some(&"0".to_string()));
    assert!(!settings.raw.contains_key(&99));
}

#[test]
fn test_parse_settings_empty_and_ok() {
    let lines = "\nok\n";
    let settings = parse_settings(lines).unwrap();
    assert!(settings.raw.is_empty());
}

#[test]
fn test_parse_settings_grbl_hal_high_number() {
    let lines = "$340=0\nok";
    let settings = parse_settings(lines).unwrap();
    assert_eq!(settings.raw.get(&340), Some(&"0".to_string()));
}

#[test]
fn status_keeps_the_timestamp_it_was_given() {
    let t = Instant::now();
    let st = parse_status("Idle|MPos:0,0,0|WPos:0,0,0|FS:0,0", t).unwrap();
    assert_eq!(st.last_updated, t);
    let later = Instant::now();
    let st = parse_status("<Run|FS:1,2>", later).unwrap();
    assert_eq!(st.last_updated, later);
}

#[test]
fn every_byte_has_an_alarm_code() {
    let named = [
        AlarmCode::HardLimit,
        AlarmCode::SoftLimit,
        AlarmCode::AbortCycle,
        AlarmCode::ProbeFailInitial,
        AlarmCode::ProbeFailContact,
        AlarmCode::HomingFailReset,
        AlarmCode::HomingFailDoor,
        AlarmCode::FailPulloff,
        AlarmCode::HomingFailApproach,
        AlarmCode::EStop,
        AlarmCode::HomingRequired,
        AlarmCode::LimitsEngaged,
        AlarmCode::ProbeProtect,
        AlarmCode::Spindle,
        AlarmCode::HomingFailAutoSquaringApproach,
        AlarmCode::SelftestFailed,
        AlarmCode::MotorFault,
        AlarmCode::HomingFail,
        AlarmCode::ModbusException,
        AlarmCode::ExpanderException,
        AlarmCode::NvsFailed,
    ];
    for n in 0u8..=255 {
        let code = AlarmCode::from(n);
        if (1..=21).contains(&n) {
            assert_eq!(code, named[(n - 1) as usize]);
        } else {
            assert_eq!(code, AlarmCode::Unknown(n));
        }
    }
}

#[test]
fn alarm_message_round_trip() {
    for n in 0u8..=255 {
        let line = format!("ALARM:{}", n);
        assert_eq!(parse_alarm_code(&line).unwrap(), AlarmCode::from(n));
        let line = format!("error: {}", n);
        assert_eq!(parse_alarm_code(&line).unwrap(), AlarmCode::from(n));
        let line = format!("  {}  ", n);
        assert_eq!(parse_alarm_code(&line).unwrap(), AlarmCode::from(n));
    }
}

#[test]
fn alarm_message_errors_carry_the_trimmed_line() {
    assert_eq!(
        parse_alarm_code("  ALARM:x "),
        Err(ParseError::InvalidAlarm("ALARM:x".to_string()))
    );
    assert_eq!(
        parse_alarm_code("ALARM:256"),
        Err(ParseError::InvalidAlarm("ALARM:256".to_string()))
    );
    assert_eq!(
        parse_alarm_code("ALARM:-1"),
        Err(ParseError::InvalidAlarm("ALARM:-1".to_string()))
    );
    assert_eq!(
        parse_alarm_code(""),
        Err(ParseError::InvalidAlarm(String::new()))
    );
    assert_eq!(parse_alarm_code("+7"), Ok(AlarmCode::HomingFailDoor));
    assert_eq!(parse_alarm_code("007"), Ok(AlarmCode::HomingFailDoor));
}

fn same_report(a: &MachineStatus, b: &MachineStatus) -> bool {
    a.state == b.state
        && a.machine_pos == b.machine_pos
        && a.work_pos == b.work_pos
        && a.feed_rate == b.feed_rate
        && a.spindle_speed == b.spindle_speed
        && a.input_pins == b.input_pins
}

#[test]
fn angle_brackets_change_nothing() {
    let t = Instant::now();
    for s in [
        "Idle|MPos:0,0,0|WPos:0,0,0|FS:0,0",
        "Run|MPos:10.5,20,0|WPos:-1.25,2,3,4|FS:200,1000",
        "Alarm:9|MPos:1,2,3",
        "Hold:1|Pn:XY|FS:5,6",
        "Weird",
    ] {
        let bare = parse_status(s, t).unwrap();
        let wrapped = parse_status(&format!("<{}>", s), t).unwrap();
        assert!(same_report(&bare, &wrapped));
        assert_eq!(bare.last_updated, wrapped.last_updated);
    }
    for s in ["  Idle|FS:1,2 ", "\tRun | MPos:1,2,3 |WPos:4,5,6\r\n", " <Idle|FS:1,2"] {
        let bare = parse_status(s, t).unwrap();
        let wrapped = parse_status(&format!("<{}>", s), t).unwrap();
        assert!(same_report(&bare, &wrapped), "{:?}", s);
    }
    let bare = parse_status("Idle|MPos:1,2", t).unwrap_err();
    let wrapped = parse_status("<Idle|MPos:1,2>", t).unwrap_err();
    assert_eq!(bare, wrapped);
}

#[test]
fn a_line_that_is_closed_already_is_not_wrapped_again() {
    let t = Instant::now();
    assert_eq!(parse_status("Idle>", t).unwrap().state, MachineState::Idle);
    assert_eq!(
        parse_status("<Idle>>", t).unwrap().state,
        MachineState::Unknown("Idle>".to_string())
    );
}

#[test]
fn unbalanced_brackets() {
    let t = Instant::now();
    let st = parse_status("<Idle|FS:1,2", t).unwrap();
    assert_eq!(st.state, MachineState::Unknown("<Idle".to_string()));
    let st = parse_status("Idle|FS:1,2>", t).unwrap();
    assert_eq!(st.state, MachineState::Idle);
    assert_eq!(mm(st.spindle_speed), 2.0);
}

#[test]
fn status_fields_and_defaults() {
    let t = Instant::now();
    let st = parse_status("  <Jog| WPos: 1.5 , -2 , 3.25 |Pn:XYZ|Ov:100,100,100>  ", t).unwrap();
    assert_eq!(st.state, MachineState::Jog);
    assert_eq!(mm(st.work_pos.x), 1.5);
    assert_eq!(mm(st.work_pos.y), -2.0);
    assert_eq!(mm(st.work_pos.z), 3.25);
    assert_eq!(st.work_pos.a, None);
    assert_eq!(mm(st.machine_pos.x), 0.0);
    assert_eq!(st.machine_pos.a, None);
    assert_eq!(mm(st.feed_rate), 0.0);
    assert_eq!(st.input_pins, PinState::default());
    assert!(!st.input_pins.limit_x && !st.input_pins.probe);
}

#[test]
fn fourth_axis_that_is_no_number_is_left_out() {
    let t = Instant::now();
    let st = parse_status("Idle|MPos:1,2,3,x", t).unwrap();
    assert_eq!(st.machine_pos.a, None);
    let st = parse_status("Idle|MPos:1,2,3,4.5,9", t).unwrap();
    assert_eq!(st.machine_pos.a.map(mm), Some(4.5));
}

#[test]
fn state_tokens() {
    assert_eq!(parse_state("Idle").unwrap(), MachineState::Idle);
    assert_eq!(parse_state("Run").unwrap(), MachineState::Run);
    assert_eq!(
        parse_state("Hold").unwrap(),
        MachineState::Hold(HoldReason::FeedHold)
    );
    assert_eq!(
        parse_state("Hold:1").unwrap(),
        MachineState::Hold(HoldReason::FeedHold)
    );
    assert_eq!(
        parse_state("Hold:door").unwrap(),
        MachineState::Hold(HoldReason::FeedHold)
    );
    assert_eq!(parse_state("Jog").unwrap(), MachineState::Jog);
    assert_eq!(parse_state("Door").unwrap(), MachineState::Door);
    assert_eq!(parse_state("Door:2").unwrap(), MachineState::Door);
    assert_eq!(parse_state("Check").unwrap(), MachineState::Check);
    assert_eq!(parse_state("Home").unwrap(), MachineState::Home);
    assert_eq!(parse_state("Sleep").unwrap(), MachineState::Sleep);
    assert_eq!(
        parse_state("Alarm").unwrap(),
        MachineState::Alarm(AlarmCode::Unknown(0))
    );
    assert_eq!(
        parse_state("Alarm:x").unwrap(),
        MachineState::Alarm(AlarmCode::Unknown(0))
    );
    assert_eq!(
        parse_state("Alarm: 10 ").unwrap(),
        MachineState::Alarm(AlarmCode::EStop)
    );
    assert_eq!(
        parse_state("Alarm:200").unwrap(),
        MachineState::Alarm(AlarmCode::Unknown(200))
    );
    assert_eq!(
        parse_state(" idle:3 ").unwrap(),
        MachineState::Unknown("idle:3".to_string())
    );
}

#[test]
fn status_errors_and_their_messages() {
    let t = Instant::now();
    assert_eq!(
        parse_status("   ", t).unwrap_err(),
        ParseError::InvalidStatus("empty status".to_string())
    );
    assert_eq!(
        parse_status("<>", t).unwrap_err(),
        ParseError::InvalidStatus("empty status".to_string())
    );
    assert_eq!(
        parse_status("|MPos:0,0,0", t).unwrap_err(),
        ParseError::InvalidStatus("empty status".to_string())
    );
    assert_eq!(
        parse_status("Idle|MPos:1,2", t).unwrap_err(),
        ParseError::InvalidPosition("expected at least x,y,z, got: 1,2".to_string())
    );
    assert_eq!(
        parse_status("Idle|MPos:bad,0,0", t).unwrap_err(),
        ParseError::InvalidPosition("invalid x: bad".to_string())
    );
    assert_eq!(
        parse_status("Idle|WPos:0, ?,0", t).unwrap_err(),
        ParseError::InvalidPosition("invalid y: ?".to_string())
    );
    assert_eq!(
        parse_status("Idle|WPos:0,0,", t).unwrap_err(),
        ParseError::InvalidPosition("invalid z: ".to_string())
    );
    assert_eq!(
        parse_status("Idle|FS:100", t).unwrap_err(),
        ParseError::InvalidStatus("FS expected feed,spindle: 100".to_string())
    );
    assert_eq!(
        parse_status("Idle|FS:1,2,3", t).unwrap_err(),
        ParseError::InvalidStatus("FS expected feed,spindle: 1,2,3".to_string())
    );
    assert_eq!(
        parse_status("Idle|FS:a,2", t).unwrap_err(),
        ParseError::InvalidStatus("invalid feed: a".to_string())
    );
    assert_eq!(
        parse_status("Idle|FS:1,b", t).unwrap_err(),
        ParseError::InvalidStatus("invalid spindle: b".to_string())
    );
    assert_eq!(
        parse_status("Idle|MPos:x,0,0|FS:bad", t).unwrap_err(),
        ParseError::InvalidPosition("invalid x: x".to_string())
    );
}

#[test]
fn error_messages_in_words() {
    assert_eq!(
        ParseError::InvalidStatus("a".into()).message(),
        "invalid status line: a"
    );
    assert_eq!(
        ParseError::InvalidPosition("b".into()).message(),
        "invalid position: b"
    );
    assert_eq!(
        ParseError::InvalidSettingsLine("c".into()).message(),
        "invalid settings line: c"
    );
    assert_eq!(
        ParseError::InvalidAlarm("d".into()).message(),
        "invalid alarm message: d"
    );
}

#[test]
fn settings_are_tolerant() {
    let body = "$0 = 10 \r\n garbage\n$x=1\n$5\n$7=a=b\n$0=11\n$4294967295=max\n$4294967296=over\n=3\n";
    let s = parse_settings(body).unwrap();
    assert_eq!(s.raw.len(), 3);
    assert_eq!(s.raw.get(&0), Some(&"11".to_string()));
    assert_eq!(s.raw.get(&7), Some(&"a=b".to_string()));
    assert_eq!(s.raw.get(&4294967295), Some(&"max".to_string()));
}

#[test]
fn default_settings_are_empty() {
    let s = GrblSettings::default();
    assert!(s.raw.is_empty());
    assert!(parse_settings("").unwrap().raw.is_empty());
}
