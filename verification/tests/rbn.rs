use qso_sidecar::frequency::Frequency;
use qso_sidecar::model::Band;
use qso_sidecar::rbn::{
    after_connection, find_clock_digits, find_clock_near, jittered_millis, parse_line, read_report,
    retry_backoff, ConnectionState, Deduplicator,
};
use qso_sidecar::string_map::Duplicate;
use qso_sidecar::time::{contest_start, Timestamp};

fn now() -> Timestamp {
    contest_start().later_by(1800)
}

#[test]
fn parses_reverse_beacon_line() {
    let spot = parse_line(
        "DX de WZ7I-#:  14025.1  K1ABC       17 dB  26 WPM  CQ      1823Z",
        now(),
    )
    .unwrap();
    assert_eq!(spot.call, "K1ABC");
    assert_eq!(spot.band, Band::B20);
    assert_eq!(spot.spotter, "WZ7I-#");
    assert_eq!(spot.snr_db, Some(17));
    assert_eq!(spot.speed_wpm, Some(26));
    assert_eq!((spot.time.parts().0 / 60) % 60, 23);
}

#[test]
fn rejects_non_contest_bands() {
    assert!(parse_line("DX de WZ7I-#:  10125.1 K1ABC 12 dB 20 WPM 1823Z", now()).is_none());
}

#[test]
fn deduplicates_call_on_band_inside_window() {
    let first = parse_line("DX de WZ7I-#: 14025.1 K1ABC 17 dB 26 WPM 1823Z", now()).unwrap();
    let mut second = first.duplicate();
    second.time = second.time.later_by(30);
    let mut dedupe = Deduplicator::default();
    assert!(dedupe.accept(&first, 90));
    assert!(!dedupe.accept(&second, 90));
}

#[test]
fn disconnected_and_degraded_states_stale_candidates() {
    assert!(!ConnectionState::Connecting.candidates_are_stale());
    assert!(!ConnectionState::Connected.candidates_are_stale());
    assert!(ConnectionState::Degraded.candidates_are_stale());
    assert!(ConnectionState::Disconnected.candidates_are_stale());
}

#[test]
fn successful_connection_resets_retry_backoff() {
    assert_eq!(retry_backoff(60, true), (1, 2));
    assert_eq!(retry_backoff(60, false), (60, 60));
}

#[test]
fn a_report_is_accepted_again_after_the_window() {
    let first = parse_line("DX de WZ7I-#: 14025.1 K1ABC 17 dB 26 WPM 1823Z", now()).unwrap();
    let mut later = first.duplicate();
    later.time = later.time.later_by(91);
    let mut elsewhere = first.duplicate();
    elsewhere.band = Band::B40;
    let mut dedupe = Deduplicator::default();
    assert!(dedupe.accept(&first, 90));
    assert!(dedupe.accept(&elsewhere, 90));
    assert!(dedupe.accept(&later, 90));
}

#[test]
fn lines_without_a_numeric_speed_are_not_morse_reports() {
    assert!(parse_line("DX de WZ7I-#: 14085.1 K1ABC 17 dB 45 BPS CQ 1823Z", now()).is_none());
    assert!(parse_line("DX de WZ7I-#: 14025.1 K1ABC 17 dB fast WPM 1823Z", now()).is_none());
    assert!(parse_line("DX de WZ7I-#: 14025.1 K1ABC 26 WPM 1823Z", now())
        .unwrap()
        .snr_db
        .is_none());
}

#[test]
fn other_lines_of_the_cluster_are_no_reports() {
    for line in [
        "",
        "Please enter your call:",
        "DX to WZ7I-#: 14025.1 K1ABC 17 dB 26 WPM 1823Z",
        "DX de WZ7I-#: ten K1ABC 17 dB 26 WPM 1823Z",
        "DX de WZ7I-#: 14025.1 HELLO 17 dB 26 WPM 1823Z",
    ] {
        assert!(parse_line(line, now()).is_none());
    }
}

#[test]
fn clock_times_are_of_the_nearest_day() {
    let midnight = contest_start().later_by(6 * 3600 + 60);
    let before = parse_line("dx de W3OA: 7030 n6ro 5 dB 30 wpm 2359Z", midnight).unwrap();
    assert!(before.time == contest_start().later_by(6 * 3600 - 60));
    assert_eq!(before.call, "N6RO");
    assert_eq!(before.spotter, "W3OA");
    assert_eq!(before.frequency_khz, Frequency::from_khz(7030));
    let untimed = parse_line("DX de W3OA: 7030 N6RO 5 dB 30 WPM 9999Z", midnight).unwrap();
    assert!(untimed.time == midnight);
}

#[test]
fn failed_connections_wait_longer_up_to_a_minute() {
    assert_eq!(retry_backoff(1, false), (1, 2));
    assert_eq!(retry_backoff(40, false), (40, 60));
    let lost = after_connection(true, 32);
    assert_eq!(lost.state, ConnectionState::Degraded);
    assert_eq!(lost.message, "disconnected; retrying in 1s");
    assert_eq!((lost.delay, lost.next_backoff), (1, 2));
    let refused = after_connection(false, 32);
    assert_eq!(refused.state, ConnectionState::Disconnected);
    assert_eq!(refused.message, "disconnected; retrying in 32s");
    assert_eq!((refused.delay, refused.next_backoff), (32, 60));
}

#[test]
fn waiting_times_vary_by_a_fifth() {
    for random in [0, 1, 12_345, u32::MAX / 2, u32::MAX] {
        let millis = jittered_millis(10, random);
        assert!((8_000..=12_000).contains(&millis));
    }
    assert_eq!(jittered_millis(0, 77), 0);
}

#[test]
fn times_of_day_are_placed_near_the_present() {
    assert_eq!(find_clock_digits("1823Z").as_deref(), Some("1823"));
    assert_eq!(find_clock_digits("1823"), None);
    assert_eq!(find_clock_digits("18230Z"), None);
    let placed = find_clock_near(18 * 3600 + 23 * 60 + 59, now()).unwrap();
    assert!(placed == contest_start().later_by(23 * 60));
    let named = Some(contest_start());
    let spot = read_report("DX de W3OA: 7030 N6RO 5 dB 30 WPM", named, now()).unwrap();
    assert!(spot.time == contest_start());
    let untimed = read_report("DX de W3OA: 7030 N6RO 5 dB 30 WPM", None, now()).unwrap();
    assert!(untimed.time == now());
}

#[test]
fn a_leap_second_widens_the_gap_between_reports() {
    let mut first = parse_line("DX de WZ7I-#: 14025.1 K1ABC 17 dB 26 WPM 1823Z", now()).unwrap();
    let minute = first.time.parts().0;
    first.time = Timestamp::new(minute - 1, 1_000_000_000).unwrap();
    let mut second = first.duplicate();
    second.time = Timestamp::new(minute + 89, 0).unwrap();
    let mut third = first.duplicate();
    third.time = Timestamp::new(minute + 90, 0).unwrap();
    let mut dedupe = Deduplicator::default();
    assert!(dedupe.accept(&first, 90));
    assert!(!dedupe.accept(&second, 90));
    let mut again = Deduplicator::default();
    assert!(again.accept(&first, 90));
    assert!(again.accept(&third, 90));
}
