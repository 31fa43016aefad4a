use std::str::FromStr;

use qso_sidecar::frequency::{guess_unit, read_kilohertz, read_megahertz, Decimal, Frequency};
use qso_sidecar::json::{as_number, as_signed, as_text, as_unsigned, parse, Json, JsonNumber};
use qso_sidecar::model::{calls_equivalent, is_plausible_call, normalize_call, Band};
use qso_sidecar::numbers::{decimal_text, read_signed, read_unsigned, signed_text, IntError};
use qso_sidecar::sort::{sort_by, RankPart};
use qso_sidecar::string_map::StringMap;
use qso_sidecar::text;
use qso_sidecar::time::{
    combine, contest_end, contest_start, parse_hhmm, parse_rfc3339, parse_timestamp, within_contest,
    Timestamp, CONTEST_START_SECOND, FIRST_SECOND, LAST_SECOND,
};

#[test]
fn the_contest_lasts_twelve_hours_without_its_end() {
    assert!(parse_rfc3339("2026-08-01T18:00:00Z") == Some(contest_start()));
    assert!(parse_rfc3339("2026-08-02T06:00:00Z") == Some(contest_end()));
    assert!(within_contest(contest_start()));
    assert!(!within_contest(contest_end()));
    assert!(within_contest(contest_end().earlier_by(1)));
    assert!(!within_contest(contest_start().earlier_by(1)));
}

#[test]
fn instants_hold_the_calendar_of_chrono() {
    let latest = chrono::DateTime::<chrono::Utc>::MAX_UTC;
    let earliest = chrono::DateTime::<chrono::Utc>::MIN_UTC;
    assert_eq!(latest.timestamp(), LAST_SECOND);
    assert_eq!(earliest.timestamp(), FIRST_SECOND);
    assert!(Timestamp::new(LAST_SECOND, 999_999_999).is_some());
    assert!(Timestamp::new(FIRST_SECOND, 0).is_some());
    assert!(Timestamp::new(FIRST_SECOND - 1, 0).is_none());
    assert!(Timestamp::new(0, 2_000_000_000).is_none());
    let t = Timestamp::from_millis(-1).unwrap();
    assert_eq!(t.parts(), (-1, 999_000_000));
    assert_eq!(t.millis(), -1);
}

#[test]
fn times_are_read_in_any_zone() {
    let t = parse_rfc3339("2026-08-01T14:00:00.25-04:00").unwrap();
    assert_eq!(t.parts(), (CONTEST_START_SECOND, 250_000_000));
    assert!(parse_rfc3339("2026-08-01").is_none());
}

#[test]
fn dates_and_clocks_are_read_together() {
    let t = parse_timestamp(" 20260801 ", "180102").unwrap();
    assert_eq!(t.parts().0, CONTEST_START_SECOND + 62);
    let t = parse_timestamp("20260801", "1801").unwrap();
    assert_eq!(t.parts().0, CONTEST_START_SECOND + 60);
    let why = chrono::NaiveDate::parse_from_str("20261301", "%Y%m%d")
        .unwrap_err()
        .to_string();
    match parse_timestamp("20261301", "1801") {
        Err(qso_sidecar::time::DateError::Date(e)) => assert_eq!(e, why),
        _ => panic!("a date beyond the year was read"),
    }
    let why = chrono::NaiveTime::parse_from_str("2460", "%H%M")
        .unwrap_err()
        .to_string();
    match parse_timestamp("20260801", "2460") {
        Err(qso_sidecar::time::DateError::Clock(e)) => assert_eq!(e, why),
        _ => panic!("a time beyond the day was read"),
    }
    assert_eq!(parse_hhmm("1823"), Some(18 * 3600 + 23 * 60));
    assert_eq!(parse_hhmm("2400"), None);
}

#[test]
fn bands_are_named_by_their_wavelength() {
    for band in Band::all() {
        assert_eq!(Band::parse(&band.label()), Some(band));
        assert_eq!(Band::from_str(&band.label()), Ok(band));
    }
    assert_eq!(Band::B20.label(), "20m");
    assert_eq!(Band::B160.meters(), 160);
    assert_eq!(Band::parse(" 40M "), Some(Band::B40));
    assert_eq!(Band::parse("30m"), None);
    assert_eq!(
        Band::from_frequency_khz(Frequency::from_khz(14_350)),
        Some(Band::B20)
    );
    assert_eq!(
        Band::from_frequency_khz(Frequency::from_tenths(143_501)),
        None
    );
}

#[test]
fn calls_are_compared_without_case_and_blanks() {
    assert_eq!(normalize_call(" w1aw "), "W1AW");
    assert!(calls_equivalent("w1aw", " W1AW"));
    assert!(!calls_equivalent("W1AW", "W1AX"));
    assert!(is_plausible_call("W1AW/4"));
    assert!(!is_plausible_call("HELLO"));
    assert!(!is_plausible_call("W1"));
    assert!(!is_plausible_call("W1AW-1"));
}

#[test]
fn frequencies_are_exact_decimals() {
    assert_eq!(read_megahertz("14.035"), Some(Frequency::from_khz(14_035)));
    assert_eq!(read_megahertz("7"), Some(Frequency::from_khz(7_000)));
    assert_eq!(read_kilohertz("14025.1"), Some(Frequency::from_tenths(140_251)));
    assert_eq!(read_kilohertz("1.40251e4"), Some(Frequency::from_tenths(140_251)));
    assert_eq!(read_kilohertz("fast"), None);
    assert_eq!(read_kilohertz(""), None);
    let at = |picohertz: i128| Frequency { picohertz };
    assert_eq!(at(14_025_149_999_999_999_999).rounded_tenths(), 140_251);
    assert_eq!(at(14_025_150_000_000_000_000).rounded_tenths(), 140_252);
    assert_eq!(at(-149_999_999_999_999).rounded_tenths(), -1);
    assert_eq!(at(-150_000_000_000_000).rounded_tenths(), -2);
    assert_eq!(read_megahertz("-0.0000000000000000015"), Some(at(-1)));
    let beyond = read_kilohertz("14350.0000001").unwrap();
    assert_eq!(beyond, at(14_350_000_000_100_000_000));
    assert_eq!(Band::from_frequency_khz(beyond), None);
    let above = read_megahertz("14.35000000000001").unwrap();
    assert_eq!(Band::from_frequency_khz(above), None);
    let edge = read_megahertz("14.35").unwrap();
    assert_eq!(Band::from_frequency_khz(edge), Some(Band::B20));
}

#[test]
fn units_of_frequencies_are_told_by_their_size() {
    assert_eq!(guess_unit(14_035), Frequency::from_khz(14_035));
    assert_eq!(guess_unit(14), Frequency::from_khz(14_000));
    assert_eq!(guess_unit(14_035_000), Frequency::from_khz(14_035));
    assert_eq!(guess_unit(1_000), Frequency::from_khz(1_000));
    assert_eq!(guess_unit(1_000_000), Frequency::from_khz(1_000_000));
    let bare = |text: &str| Decimal::read(text).unwrap().guess_unit();
    assert_eq!(bare("14035.5"), Frequency::from_tenths(140_355));
    assert_eq!(bare("14.0355"), Frequency::from_tenths(140_355));
    assert_eq!(bare("14035500.0"), Frequency::from_tenths(140_355));
    assert_eq!(bare("1.40355e7"), Frequency::from_tenths(140_355));
    assert_eq!(bare("1000000.0"), Frequency::from_khz(1_000_000));
    assert_eq!(
        bare("1000000.5"),
        Frequency { picohertz: 1_000_000_500_000_000_000 }
    );
    assert_eq!(bare("999.9999"), read_megahertz("999.9999").unwrap());
    assert_eq!(bare("-7.035"), read_megahertz("-7.035").unwrap());
}

#[test]
fn numbers_are_written_and_read_back() {
    assert_eq!(decimal_text(0), "0");
    assert_eq!(decimal_text(u64::MAX), u64::MAX.to_string());
    assert_eq!(signed_text(i64::MIN), i64::MIN.to_string());
    assert_eq!(read_unsigned("0042", 100), Ok(42));
    assert_eq!(read_unsigned("", 100), Err(IntError::Empty));
    assert_eq!(read_unsigned("4x", 100), Err(IntError::InvalidDigit));
    assert_eq!(read_unsigned("101", 100), Err(IntError::TooLarge));
    assert_eq!(read_signed("-17", 32_767), Some(-17));
    assert_eq!(read_signed("+17", 32_767), Some(17));
    assert_eq!(read_signed("17.5", 32_767), None);
    assert_eq!(
        IntError::Empty.message(),
        "".parse::<u64>().unwrap_err().to_string()
    );
    assert_eq!(
        IntError::InvalidDigit.message(),
        "x".parse::<u64>().unwrap_err().to_string()
    );
    assert_eq!(
        IntError::TooLarge.message(),
        "99999999999999999999".parse::<u64>().unwrap_err().to_string()
    );
}

#[test]
fn texts_are_cut_as_documented() {
    assert_eq!(text::trim(" \t a b \u{3000}"), "a b");
    assert_eq!(text::to_upper("aZ9\u{e9}"), "AZ9\u{e9}");
    assert_eq!(text::to_lower("aZ9"), "az9");
    assert_eq!(text::split_words("  a  bc "), vec!["a", "bc"]);
    assert_eq!(text::split_at_each("a,,b", ','), vec!["a", "", "b"]);
    assert_eq!(text::final_word("Hartford CT ").as_deref(), Some("CT"));
    assert!(text::contains("session timeout", "timeout"));
    assert!(!text::contains("session", "timeout"));
    assert!(text::begins_with("HI8ABC", "HI"));
    assert!(text::same_ignoring_case("cw", "CW"));
}

#[test]
fn maps_keep_their_keys_in_order() {
    let mut map: StringMap<String> = StringMap::new();
    assert!(!map.insert("b".into(), "1".into()));
    assert!(!map.insert("a".into(), "2".into()));
    assert!(map.insert("b".into(), "3".into()));
    assert_eq!(map.len(), 2);
    assert_eq!((map.key(0).as_str(), map.value(0).as_str()), ("a", "2"));
    assert_eq!((map.key(1).as_str(), map.value(1).as_str()), ("b", "3"));
    assert_eq!(map.get("b").unwrap(), "3");
    assert!(map.get("c").is_none());
}

#[test]
fn items_of_one_rank_keep_their_order() {
    let rank = |n: i128, t: &str| vec![RankPart::Number(n), RankPart::Text(t.into())];
    let ranks = vec![rank(2, "a"), rank(1, "b"), rank(1, "a"), rank(1, "b")];
    let sorted = sort_by(ranks, vec!["first", "second", "third", "fourth"]);
    assert_eq!(sorted, vec!["third", "second", "fourth", "first"]);
}

#[test]
fn documents_are_read_without_loss() {
    let document = parse(
        r#"{"z":1,"a":[null,true,-3,18446744073709551615,41.72916666666667,1e-10,1e30],"t":"x"}"#,
    )
    .unwrap();
    let Json::Object(members) = &document else {
        panic!("an object was read");
    };
    let keys: Vec<&str> = members.iter().map(|member| member.0.as_str()).collect();
    assert_eq!(keys, vec!["a", "t", "z"]);
    assert_eq!(as_text(document.get("t")).unwrap(), "x");
    let Some(Json::Array(items)) = document.get("a") else {
        panic!("an array was read");
    };
    assert!(matches!(items[0], Json::Null));
    assert!(matches!(items[1], Json::Bool(true)));
    assert_eq!(as_signed(Some(&items[2])), Some(-3));
    assert_eq!(as_unsigned(Some(&items[3])), Some(u64::MAX));
    for (item, text) in items[4..].iter().zip(["41.72916666666667", "1e-10", "1e30"]) {
        match item {
            Json::Number(JsonNumber::Decimal(kept)) => {
                assert_eq!(kept.parse::<f64>().unwrap(), text.parse::<f64>().unwrap());
            }
            _ => panic!("a decimal number was read"),
        }
    }
    assert!(parse("{").unwrap_err().contains("EOF"));
}

#[test]
fn documents_give_their_members() {
    let document = Json::Object(vec![
        ("n".into(), Json::Number(JsonNumber::Negative(-5))),
        ("u".into(), Json::Number(JsonNumber::Unsigned(u64::MAX))),
        (
            "f".into(),
            Json::Number(JsonNumber::Decimal("14035.5".into())),
        ),
    ]);
    assert_eq!(as_signed(document.get("n")), Some(-5));
    assert_eq!(as_unsigned(document.get("n")), None);
    assert_eq!(as_signed(document.get("u")), None);
    assert_eq!(as_unsigned(document.get("u")), Some(u64::MAX));
    assert!(matches!(as_number(document.get("f")), Some(JsonNumber::Decimal(t)) if t == "14035.5"));
    assert!(matches!(as_number(document.get("n")), Some(JsonNumber::Negative(-5))));
    assert!(as_number(Some(&Json::Null)).is_none());
    assert_eq!(as_signed(document.get("f")), None);
    assert!(document.get("x").is_none());
    assert!(document.same(&document));
    assert!(!document.same(&Json::Null));
}

#[test]
fn a_day_and_a_time_make_an_instant() {
    let t = combine(Ok(739_829), Some(Ok((64_862, 5)))).unwrap();
    assert_eq!(t.parts(), (CONTEST_START_SECOND + 62, 5));
    assert!(matches!(
        combine(Err("no".into()), None),
        Err(qso_sidecar::time::DateError::Date(e)) if e == "no"
    ));
    assert!(matches!(
        combine(Ok(739_829), None),
        Err(qso_sidecar::time::DateError::ClockLength)
    ));
    assert!(matches!(
        combine(Ok(739_829), Some(Err("no".into()))),
        Err(qso_sidecar::time::DateError::Clock(e)) if e == "no"
    ));
}

#[test]
fn spans_count_the_leap_second_of_the_earlier_time_of_day() {
    let at = |second: i64, nanos: u32| Timestamp::new(second, nanos).unwrap();
    assert_eq!(at(60, 0).since(at(59, 1_000_000_000)), 1_000_000_000);
    assert_eq!(at(59, 1_000_000_000).since(at(60, 0)), -1_000_000_000);
    assert_eq!(at(59, 1_500_000_000).since(at(59, 0)), 1_500_000_000);
    assert_eq!(at(119, 1_000_000_000).since(at(59, 1_000_000_000)), 61_000_000_000);
    assert_eq!(at(119, 1_000_000_000).since(at(60, 0)), 60_000_000_000);
    // Across midnight the times of day decide, and the leap second is not counted.
    assert_eq!(at(86_400, 100_000_000).since(at(86_399, 1_900_000_000)), -800_000_000);
    assert_eq!(at(-1, 5).since(at(-2, 3)), 1_000_000_002);
    assert_eq!(
        contest_end().since(contest_start()),
        12 * 3600 * 1_000_000_000
    );
}

#[test]
fn bytes_of_a_text_hold_that_text_in_a_field() {
    let file = "<CALL:5>K1ABC<NAME:6>Zo\u{eb} B<EOR>";
    let records = qso_sidecar::adif::parse_records(file.as_bytes()).unwrap();
    assert_eq!(records[0].get("NAME").unwrap(), "Zo\u{eb} B");
}

#[test]
fn leap_seconds_stay_apart_from_the_second_behind_them() {
    let leap = Timestamp::new(59, 1_250_000_000).unwrap();
    let behind = Timestamp::new(60, 0).unwrap();
    assert_eq!(leap.parts(), (59, 1_250_000_000));
    assert_eq!(leap.millis(), 60_250);
    assert!(leap.not_after(behind));
    assert!(!behind.not_after(leap));
    assert_eq!(leap.later_by(0).parts(), (59, 1_250_000_000));
    assert_eq!(leap.later_by(1).parts(), (60, 250_000_000));
    assert_eq!(leap.earlier_by(0).parts(), (59, 1_250_000_000));
    assert_eq!(leap.earlier_by(1).parts(), (59, 250_000_000));
    let read = parse_timestamp("20260802", "055960").unwrap();
    assert!(within_contest(read));
    assert_eq!(read.parts(), (contest_end().parts().0 - 1, 1_000_000_000));
    let named = parse_rfc3339("2026-08-02T05:59:60Z").unwrap();
    assert!(within_contest(named));
}
