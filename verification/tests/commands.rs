use grbl_rs::commands::{frame_line, GrblCommand, RealtimeCommand, LINE_TERMINATOR};
use grbl_rs::decimal::Decimal;

fn dec(v: f64) -> Decimal {
    Decimal::from_units((v * 10000.0).round() as i64)
}

#[test]
fn test_status_request_display() {
    assert_eq!(GrblCommand::StatusRequest.render(), "?");
}

#[test]
fn test_settings_request_display() {
    assert_eq!(GrblCommand::SettingsRequest.render(), "$$");
}

#[test]
fn test_home_display() {
    assert_eq!(GrblCommand::Home.render(), "$H");
}

#[test]
fn test_unlock_display() {
    assert_eq!(GrblCommand::Unlock.render(), "$X");
}

#[test]
fn test_jog_display() {
    assert_eq!(
        GrblCommand::Jog("G21G91X10F500".into()).render(),
        "$J=G21G91X10F500"
    );
    assert_eq!(
        GrblCommand::Jog("G21G90X0Y0F1000".into()).render(),
        "$J=G21G90X0Y0F1000"
    );
}

#[test]
fn test_probe_cycle_display() {
    assert_eq!(
        GrblCommand::ProbeCycle("G38.2 Z-10 F50".into()).render(),
        "G38.2 Z-10 F50"
    );
}

#[test]
fn test_set_wcs_zero_display() {
    assert_eq!(
        GrblCommand::SetWcsZero {
            p: 1,
            x: dec(0.0),
            y: dec(0.0),
            z: dec(0.0)
        }
        .render(),
        "G10 L20 P1 X0 Y0 Z0"
    );
}

#[test]
fn test_activate_wcs_display() {
    assert_eq!(GrblCommand::ActivateWcs(1).render(), "G54");
    assert_eq!(GrblCommand::ActivateWcs(6).render(), "G59");
    assert_eq!(GrblCommand::ActivateWcs(9).render(), "G59.3");
}

#[test]
fn test_gcode_line_display() {
    assert_eq!(
        GrblCommand::GcodeLine("G0 X10 Y20".into()).render(),
        "G0 X10 Y20"
    );
}

#[test]
fn test_realtime_soft_reset_byte() {
    assert_eq!(RealtimeCommand::SoftReset.as_byte(), 0x18);
}

#[test]
fn test_realtime_safety_door_byte() {
    assert_eq!(RealtimeCommand::SafetyDoor.as_byte(), 0x84);
}

#[test]
fn test_realtime_jog_cancel_byte() {
    assert_eq!(RealtimeCommand::JogCancel.as_byte(), 0x85);
}

#[test]
fn test_realtime_feed_override_bytes() {
    assert_eq!(RealtimeCommand::FeedOverride100.as_byte(), 0x90);
    assert_eq!(RealtimeCommand::FeedOverridePlus10.as_byte(), 0x91);
    assert_eq!(RealtimeCommand::FeedOverrideMinus10.as_byte(), 0x92);
}

#[test]
fn activate_wcs_renders_all_nine_words_in_order() {
    let words = [
        "G54", "G55", "G56", "G57", "G58", "G59", "G59.1", "G59.2", "G59.3",
    ];
    for k in 1u8..=9 {
        assert_eq!(GrblCommand::ActivateWcs(k).render(), words[(k - 1) as usize]);
    }
}

#[test]
fn activate_wcs_outside_range_falls_back_to_last_word() {
    assert_eq!(GrblCommand::ActivateWcs(0).render(), "G59.3");
    assert_eq!(GrblCommand::ActivateWcs(10).render(), "G59.3");
    assert_eq!(GrblCommand::ActivateWcs(255).render(), "G59.3");
}

#[test]
fn set_wcs_zero_renders_numbers_in_shortest_form() {
    assert_eq!(
        GrblCommand::SetWcsZero {
            p: 2,
            x: dec(1.5),
            y: dec(-20.0),
            z: dec(0.125)
        }
        .render(),
        "G10 L20 P2 X1.5 Y-20 Z0.125"
    );
    assert_eq!(
        GrblCommand::SetWcsZero {
            p: 255,
            x: dec(100.0),
            y: dec(-0.0001),
            z: dec(10.01)
        }
        .render(),
        "G10 L20 P255 X100 Y-0.0001 Z10.01"
    );
}

#[test]
fn realtime_display_is_upper_case_hex() {
    assert_eq!(RealtimeCommand::SoftReset.display(), "0x18");
    assert_eq!(RealtimeCommand::SafetyDoor.display(), "0x84");
    assert_eq!(RealtimeCommand::JogCancel.display(), "0x85");
    assert_eq!(RealtimeCommand::FeedOverride100.display(), "0x90");
    assert_eq!(RealtimeCommand::FeedOverridePlus10.display(), "0x91");
    assert_eq!(RealtimeCommand::FeedOverrideMinus10.display(), "0x92");
}

#[test]
fn status_and_line_commands_render_verbatim() {
    assert_eq!(GrblCommand::GcodeLine(String::new()).render(), "");
    assert_eq!(GrblCommand::Jog(String::new()).render(), "$J=");
    assert_eq!(GrblCommand::ProbeCycle("  G38.3 Z-1 ".into()).render(), "  G38.3 Z-1 ");
}

#[test]
fn a_framed_line_ends_with_one_newline() {
    assert_eq!(frame_line("G0 X1"), "G0 X1\n");
    assert_eq!(frame_line(""), "\n");
    assert_eq!(frame_line(&GrblCommand::StatusRequest.render()), "?\n");
    assert_eq!(LINE_TERMINATOR, '\n');
}
