use grbl_rs::session::{
    date_from_ordinal, days_to_year_month_day, record_line, session_file_name, unix_days_to_ymd,
    EPOCH_ORDINAL,
};

#[test]
fn the_epoch_is_the_first_of_january_1970() {
    assert_eq!(days_to_year_month_day(0), (1970, (1, 1)));
    assert_eq!(unix_days_to_ymd(0), (1970, 1, 1));
    assert_eq!(date_from_ordinal(719_163), (1970, 1, 1));
    assert_eq!(EPOCH_ORDINAL, 719_163);
}

#[test]
fn dates_of_days() {
    assert_eq!(days_to_year_month_day(1), (1970, (1, 2)));
    assert_eq!(days_to_year_month_day(58), (1970, (2, 28)));
    assert_eq!(days_to_year_month_day(59), (1970, (3, 1)));
    assert_eq!(days_to_year_month_day(364), (1970, (12, 31)));
    assert_eq!(days_to_year_month_day(365), (1971, (1, 1)));
    assert_eq!(days_to_year_month_day(11_016), (2000, (2, 29)));
    assert_eq!(days_to_year_month_day(19_782), (2024, (2, 29)));
    assert_eq!(days_to_year_month_day(2_932_896), (9999, (12, 31)));
    assert_eq!(unix_days_to_ymd(47_482), (2100, 1, 1));
    assert_eq!(date_from_ordinal(730_179), (2000, 2, 29));
    assert_eq!(date_from_ordinal(738_945), (2024, 2, 29));
}

#[test]
fn the_last_day_of_32_bits() {
    assert_eq!(days_to_year_month_day(u32::MAX), (11_761_191, (1, 20)));
}

#[test]
fn every_day_follows_the_one_before() {
    let mut prev = days_to_year_month_day(0);
    for days in 1u32..=20_000 {
        let next = days_to_year_month_day(days);
        let (y, (m, d)) = prev;
        let (y2, (m2, d2)) = next;
        let follows = (y2 == y && m2 == m && d2 == d + 1)
            || (y2 == y && m2 == m + 1 && d2 == 1 && d >= 28)
            || (y2 == y + 1 && m2 == 1 && d2 == 1 && m == 12 && d == 31);
        assert!(follows, "{:?} then {:?}", prev, next);
        assert!((1..=12).contains(&m2) && (1..=31).contains(&d2));
        prev = next;
    }
}

#[test]
fn session_file_names() {
    assert_eq!(session_file_name(0), "session_1970-01-01T00-00-00.jsonl");
    assert_eq!(session_file_name(86_399), "session_1970-01-01T23-59-59.jsonl");
    assert_eq!(session_file_name(86_400), "session_1970-01-02T00-00-00.jsonl");
    assert_eq!(
        session_file_name(951_782_400),
        "session_2000-02-29T00-00-00.jsonl"
    );
    assert_eq!(
        session_file_name(1_709_251_199),
        "session_2024-02-29T23-59-59.jsonl"
    );
    assert_eq!(
        session_file_name(1_735_689_600),
        "session_2025-01-01T00-00-00.jsonl"
    );
    assert_eq!(
        session_file_name(253_402_300_799),
        "session_9999-12-31T23-59-59.jsonl"
    );
}

#[test]
fn session_file_name_drops_the_high_bits_of_the_day() {
    assert_eq!(
        session_file_name(371_085_174_374_405),
        "session_1970-01-01T00-00-05.jsonl"
    );
}

#[test]
fn a_record_is_one_line() {
    let json = "{\"event\":\"probe\",\"success\":true,\"ts_secs\":1000.5}";
    let line = record_line(json).unwrap();
    assert_eq!(line, format!("{}\n", json));
    assert!(line.ends_with('\n'));
    assert_eq!(line.matches('\n').count(), 1);
    assert_eq!(record_line(""), Some("\n".to_string()));
}

#[test]
fn a_record_with_a_line_break_is_refused() {
    assert_eq!(record_line("{\n}"), None);
    assert_eq!(record_line("\n"), None);
    assert_eq!(record_line("{}\n"), None);
}
