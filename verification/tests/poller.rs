use grbl_rs::parser::ParseError;
use grbl_rs::poller::{
    continue_after_publish, on_status_line, status_query, PollOutcome, POLL_INTERVAL_MS,
    STATUS_READ_TIMEOUT_MS,
};
use grbl_rs::state::MachineState;
use std::time::Instant;

#[test]
fn test_poll_interval_constant() {
    assert_eq!(POLL_INTERVAL_MS, 200);
}

#[test]
fn test_status_read_timeout_constant() {
    assert_eq!(STATUS_READ_TIMEOUT_MS, 500);
}

#[test]
fn the_query_is_a_question_mark() {
    assert_eq!(status_query(), "?");
}

#[test]
fn a_status_line_is_published_with_its_time() {
    let now = Instant::now();
    match on_status_line("Idle|MPos:0,0,0|WPos:0,0,0|FS:0,0", now) {
        PollOutcome::Publish(st) => {
            assert_eq!(st.state, MachineState::Idle);
            assert_eq!(st.last_updated, now);
        }
        PollOutcome::Skip(e) => panic!("skipped: {:?}", e),
    }
}

#[test]
fn a_line_that_is_no_status_is_skipped() {
    match on_status_line("", Instant::now()) {
        PollOutcome::Skip(e) => {
            assert_eq!(e, ParseError::InvalidStatus("empty status".to_string()))
        }
        PollOutcome::Publish(_) => panic!("published"),
    }
    assert!(matches!(
        on_status_line("Idle|MPos:1", Instant::now()),
        PollOutcome::Skip(ParseError::InvalidPosition(_))
    ));
}

#[test]
fn polling_ends_without_receivers() {
    assert!(!continue_after_publish(0));
    assert!(continue_after_publish(1));
    assert!(continue_after_publish(7));
}

#[test]
fn published_statuses_keep_the_order_of_their_times() {
    let mut last = Instant::now();
    for _ in 0..5 {
        let now = Instant::now();
        match on_status_line("<Run|FS:1,2>", now) {
            PollOutcome::Publish(st) => {
                assert!(st.last_updated >= last);
                last = st.last_updated;
            }
            PollOutcome::Skip(e) => panic!("skipped: {:?}", e),
        }
    }
}
