use grbl_rs::state::{HoldReason, MachineState, AlarmCode};
use grbl_rs::streamer::{
    classify_response, is_sendable_line, LineResult, LineStreamer, StreamAction, StreamResult,
    LINE_RESPONSE_TIMEOUT_MS, PAUSE_POLL_MS,
};

#[test]
fn test_is_sendable_line() {
    assert!(!is_sendable_line(""));
    assert!(!is_sendable_line("   "));
    assert!(!is_sendable_line("; comment"));
    assert!(!is_sendable_line("  ; comment"));
    assert!(is_sendable_line("G0 X10"));
    assert!(is_sendable_line("  G0 X10  "));
}

#[test]
fn test_line_result_ok() {
    assert_eq!(LineResult::Acknowledged, LineResult::Acknowledged);
}

#[test]
fn test_stream_result_default() {
    let r = StreamResult::default();
    assert_eq!(r.lines_sent, 0);
    assert_eq!(r.lines_ok, 0);
    assert!(r.first_error.is_none());
}

#[test]
fn timeouts() {
    assert_eq!(LINE_RESPONSE_TIMEOUT_MS, 30_000);
    assert_eq!(PAUSE_POLL_MS, 100);
}

#[test]
fn responses() {
    assert_eq!(classify_response("ok"), LineResult::Acknowledged);
    assert_eq!(classify_response(" OK\r\n"), LineResult::Acknowledged);
    assert_eq!(classify_response("Ok"), LineResult::Acknowledged);
    assert_eq!(classify_response("oK"), LineResult::Acknowledged);
    assert_eq!(classify_response("error:22"), LineResult::Error("22".into()));
    assert_eq!(
        classify_response("Error: bad number "),
        LineResult::Error("bad number".into())
    );
    assert_eq!(classify_response("error:"), LineResult::Error("".into()));
    assert_eq!(
        classify_response("ERROR:1"),
        LineResult::Error("ERROR:1".into())
    );
    assert_eq!(
        classify_response(" ALARM:1 "),
        LineResult::Error("ALARM:1".into())
    );
    assert_eq!(classify_response(""), LineResult::Error("".into()));
    assert_eq!(classify_response("okay"), LineResult::Error("okay".into()));
}

fn run(lines: &[&str], responses: &[&str]) -> (StreamResult, Vec<String>) {
    let mut s = LineStreamer::new(lines.iter().map(|l| l.to_string()).collect());
    let mut sent = Vec::new();
    let mut answers = responses.iter();
    loop {
        match s.next_action(&MachineState::Idle) {
            StreamAction::Send(line) => {
                sent.push(line);
                s.on_response(answers.next().unwrap());
            }
            StreamAction::Wait => panic!("waited while idle"),
            StreamAction::Done => break,
        }
    }
    (s.result(), sent)
}

#[test]
fn flow_control_stops_at_the_first_error() {
    let (r, sent) = run(&["G0 X1", "G0 X2", "G0 X3", "G0 X4"], &["ok", "ok", "error:22"]);
    assert_eq!(r.lines_sent, 3);
    assert_eq!(r.lines_ok, 2);
    assert_eq!(r.first_error, Some("22".to_string()));
    assert_eq!(sent, vec!["G0 X1", "G0 X2", "G0 X3"]);
}

#[test]
fn comments_and_blank_lines_are_not_sent() {
    let (r, sent) = run(
        &["; header", "", "  G1 X1  ", "   ", ";", "G1 X2", "; end"],
        &["ok", "OK"],
    );
    assert_eq!(r.lines_sent, 2);
    assert_eq!(r.lines_ok, 2);
    assert_eq!(r.first_error, None);
    assert_eq!(sent, vec!["G1 X1", "G1 X2"]);
}

#[test]
fn an_unexpected_response_is_the_error() {
    let (r, sent) = run(&["G1 X1", "G1 X2"], &["ALARM:1"]);
    assert_eq!(r.lines_sent, 1);
    assert_eq!(r.lines_ok, 0);
    assert_eq!(r.first_error, Some("ALARM:1".to_string()));
    assert_eq!(sent.len(), 1);
}

#[test]
fn an_empty_program_is_done_at_once() {
    let (r, sent) = run(&[], &[]);
    assert_eq!(r.lines_sent, 0);
    assert!(sent.is_empty());
    let (r, sent) = run(&["", "; only comments"], &[]);
    assert_eq!(r.lines_sent, 0);
    assert!(sent.is_empty());
}

#[test]
fn a_held_machine_gets_no_line() {
    let mut s = LineStreamer::new(vec!["G1 X1".to_string(), "G1 X2".to_string()]);
    let hold = MachineState::Hold(HoldReason::FeedHold);
    for _ in 0..5 {
        assert_eq!(s.next_action(&hold), StreamAction::Wait);
    }
    assert_eq!(s.next_action(&MachineState::Door), StreamAction::Wait);
    assert_eq!(
        s.next_action(&MachineState::Hold(HoldReason::SafetyDoor)),
        StreamAction::Wait
    );
    assert_eq!(s.result().lines_sent, 0);
    assert_eq!(
        s.next_action(&MachineState::Idle),
        StreamAction::Send("G1 X1".to_string())
    );
    s.on_response("ok");
    assert_eq!(s.next_action(&hold), StreamAction::Wait);
    assert_eq!(
        s.next_action(&MachineState::Run),
        StreamAction::Send("G1 X2".to_string())
    );
    s.on_response("ok");
    assert_eq!(s.next_action(&hold), StreamAction::Done);
    assert_eq!(s.result().lines_sent, 2);
    assert_eq!(s.result().lines_ok, 2);
}

#[test]
fn an_alarm_does_not_pause_the_stream() {
    let mut s = LineStreamer::new(vec!["G1 X1".to_string()]);
    assert_eq!(
        s.next_action(&MachineState::Alarm(AlarmCode::HardLimit)),
        StreamAction::Send("G1 X1".to_string())
    );
    assert!(MachineState::Hold(HoldReason::Other("x".into())).is_paused());
    assert!(MachineState::Door.is_paused());
    assert!(!MachineState::Alarm(AlarmCode::EStop).is_paused());
    assert!(!MachineState::Unknown("Hold".into()).is_paused());
    assert!(!MachineState::Idle.is_paused());
}

#[test]
fn after_an_error_the_run_stays_over() {
    let mut s = LineStreamer::new(vec!["G1 X1".to_string(), "G1 X2".to_string()]);
    assert!(matches!(
        s.next_action(&MachineState::Idle),
        StreamAction::Send(_)
    ));
    s.on_response("error:9");
    assert_eq!(s.next_action(&MachineState::Idle), StreamAction::Done);
    assert_eq!(s.next_action(&MachineState::Idle), StreamAction::Done);
    assert_eq!(s.result().first_error, Some("9".to_string()));
}
