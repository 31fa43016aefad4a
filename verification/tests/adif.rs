use qso_sidecar::adif::{
    identity_bytes, import_readings, import_snapshot, make_contact, nth_word, parse_records,
    record_to_qso, AdifError, RecordError,
};
use qso_sidecar::frequency::Frequency;
use qso_sidecar::json::{as_text, Json};
use qso_sidecar::log_source::Log;
use qso_sidecar::model::Band;
use qso_sidecar::numbers::IntError;
use qso_sidecar::string_map::{Duplicate, StringMap};
use qso_sidecar::time::{contest_start, DateError, CONTEST_START_SECOND};

const EXPORT: &str = "Generated by PoLo <EOH>\n<CALL:5>W1AW <QSO_DATE:8>20260801 <TIME_ON:6>180102 <BAND:3>20M <FREQ:6>14.035 <MODE:2>CW <NAME:2>AL <STATE:2>CT <COUNTRY:13>United States <DXCC:3>291 <CONTEST_ID:7>NAQP-CW <SRX_STRING:5>AL CT <EOR>";

fn same_log(a: &Log, b: &Log) -> bool {
    a.len() == b.len()
        && (0..a.len()).all(|i| a.key(i) == b.key(i) && a.value(i).same(b.value(i)))
}

#[test]
fn imports_polo_fields_and_is_idempotent() {
    let mut qsos: Log = StringMap::new();
    let first = import_snapshot(EXPORT.as_bytes(), &mut qsos).unwrap();
    assert_eq!(first.added, 1);
    let second = import_snapshot(EXPORT.as_bytes(), &mut qsos).unwrap();
    assert_eq!(second.unchanged, 1);
    assert_eq!(qsos.len(), 1);
    let qso = qsos.value(0);
    assert_eq!(qso.name.as_deref(), Some("AL"));
    assert_eq!(qso.location.as_deref(), Some("CT"));
    assert_eq!(qso.frequency_khz, Some(Frequency::from_khz(14_035)));
}

#[test]
fn accepts_srx_string_as_exchange_fallback() {
    let input = "<CALL:5>K1ABC<QSO_DATE:8>20260801<TIME_ON:4>1900<BAND:3>40M<MODE:2>CW<SRX_STRING:6>BOB MA<EOR>";
    let mut qsos: Log = StringMap::new();
    import_snapshot(input.as_bytes(), &mut qsos).unwrap();
    let qso = qsos.value(0);
    assert_eq!(qso.name.as_deref(), Some("BOB"));
    assert_eq!(qso.location.as_deref(), Some("MA"));
}

#[test]
fn growing_snapshot_only_adds_new_records() {
    let mut qsos: Log = StringMap::new();
    import_snapshot(EXPORT.as_bytes(), &mut qsos).unwrap();
    let growing = format!(
        "{EXPORT}<CALL:5>K1ABC<QSO_DATE:8>20260801<TIME_ON:4>1900<BAND:3>40M<MODE:2>CW<SRX_STRING:6>BOB MA<EOR>"
    );
    let diagnostics = import_snapshot(growing.as_bytes(), &mut qsos).unwrap();
    assert_eq!(diagnostics.unchanged, 1);
    assert_eq!(diagnostics.added, 1);
    assert_eq!(qsos.len(), 2);
}

#[test]
fn malformed_snapshot_does_not_change_last_good_records() {
    let mut qsos: Log = StringMap::new();
    import_snapshot(EXPORT.as_bytes(), &mut qsos).unwrap();
    let before = qsos.duplicate();

    assert!(import_snapshot(b"<CALL:50>short", &mut qsos).is_err());

    assert!(same_log(&qsos, &before));
}

#[test]
fn contact_identifier_is_the_digest_of_its_essentials() {
    let mut qsos: Log = StringMap::new();
    import_snapshot(EXPORT.as_bytes(), &mut qsos).unwrap();
    let mut essentials = b"W1AW".to_vec();
    essentials.extend((1_785_607_262_000i64).to_le_bytes());
    essentials.extend((20u16).to_le_bytes());
    essentials.extend(b"CW");
    let digest = <sha2::Sha256 as sha2::Digest>::digest(&essentials);
    assert_eq!(*qsos.key(0), format!("adif:{digest:x}"));
    assert_eq!(
        qsos.key(0).as_str(),
        "adif:45797d6d73929bbf07ebf0f6aba4e95c4cc4fc9aebcbe2fcf76cf2676aec6ef9"
    );
    let qso = qsos.value(0);
    assert_eq!(&qso.id, qsos.key(0));
    assert_eq!(qso.timestamp.parts().0, CONTEST_START_SECOND + 62);
    assert_eq!(qso.band, Some(Band::B20));
    assert_eq!(qso.mode, "CW");
    assert_eq!(qso.country.as_deref(), Some("United States"));
    assert_eq!(qso.dxcc, Some(291));
    assert_eq!(qso.contest_id.as_deref(), Some("NAQP-CW"));
    assert!(!qso.deleted);
    assert_eq!(as_text(qso.raw.get("SRX_STRING")).unwrap(), "AL CT");
}

#[test]
fn header_fields_and_empty_records_are_no_contacts() {
    let records =
        parse_records(b"<ADIF_VER:5>3.1.0<EOH><EOR><call:4>W1AW<note><EOR> <CALL:5>K1ABC").unwrap();
    assert_eq!(records.len(), 2);
    assert_eq!(records[0].len(), 1);
    assert_eq!(records[0].get("CALL").unwrap(), "W1AW");
    assert_eq!(records[1].get("CALL").unwrap(), "K1ABC");
}

#[test]
fn values_that_are_no_text_are_read_with_replacements() {
    let records = parse_records(b"<CALL:4>W\xff1A<EOR>").unwrap();
    assert_eq!(records[0].get("CALL").unwrap(), "W\u{fffd}1A");
}

#[test]
fn malformed_files_are_refused_with_the_reason() {
    match parse_records(b"abc<CALL") {
        Err(error) => {
            assert!(matches!(error, AdifError::Unterminated(3)));
            assert_eq!(error.message(), "unterminated ADIF field at byte 3");
        }
        Ok(_) => panic!("an unterminated field was read"),
    }
    match parse_records(b"<CALL:x>W1AW") {
        Err(error) => {
            assert!(matches!(error, AdifError::InvalidLength(IntError::InvalidDigit)));
            assert_eq!(
                error.message(),
                "invalid ADIF field length: invalid digit found in string"
            );
        }
        Ok(_) => panic!("a length that is no number was read"),
    }
    match parse_records(b"<CALL:5>W1AW") {
        Err(error) => {
            assert!(matches!(error, AdifError::BeyondInput));
            assert_eq!(error.message(), "ADIF field extends beyond the input");
        }
        Ok(_) => panic!("a field beyond the input was read"),
    }
    match parse_records(b"<\xff:1>W") {
        Err(error) => {
            let text = std::str::from_utf8(b"\xff:1").unwrap_err().to_string();
            assert!(matches!(error, AdifError::NotText(_)));
            assert_eq!(error.message(), text);
        }
        Ok(_) => panic!("a header that is no text was read"),
    }
}

#[test]
fn records_that_are_no_contacts_are_reported_in_order() {
    let input = "<CALL:4>W1AW<QSO_DATE:8>20260801<EOR><QSO_DATE:8>20260801<TIME_ON:4>1900<EOR><CALL:4>W1AW<QSO_DATE:8>20261301<TIME_ON:4>1900<EOR><CALL:4>W1AW<QSO_DATE:8>20260801<TIME_ON:5>19000<EOR><CALL:4>W1AW<QSO_DATE:8>20260801<TIME_ON:4>2460<EOR>";
    let mut qsos: Log = StringMap::new();
    let report = import_snapshot(input.as_bytes(), &mut qsos).unwrap();
    assert_eq!(report.records_seen, 5);
    assert_eq!(report.skipped, 5);
    assert_eq!(report.added, 0);
    assert_eq!(report.warnings.len(), 5);
    assert_eq!(report.warnings[0], "Record 1: missing TIME_ON");
    assert_eq!(report.warnings[1], "Record 2: missing CALL");
    assert!(report.warnings[2].starts_with("Record 3: invalid QSO_DATE: "));
    assert_eq!(
        report.warnings[3],
        "Record 4: TIME_ON must contain HHMM or HHMMSS"
    );
    assert!(report.warnings[4].starts_with("Record 5: invalid TIME_ON: "));

    let records = parse_records(input.as_bytes()).unwrap();
    assert!(matches!(
        record_to_qso(&records[0]),
        Err(RecordError::Missing("TIME_ON"))
    ));
    assert!(matches!(
        record_to_qso(&records[2]),
        Err(RecordError::Time(DateError::Date(_)))
    ));
    assert!(matches!(
        record_to_qso(&records[3]),
        Err(RecordError::Time(DateError::ClockLength))
    ));
    assert!(matches!(
        record_to_qso(&records[4]),
        Err(RecordError::Time(DateError::Clock(_)))
    ));
}

#[test]
fn no_more_than_twenty_warnings_are_kept() {
    let mut input = String::new();
    for _ in 0..25 {
        input.push_str("<CALL:4>W1AW<EOR>");
    }
    let mut qsos: Log = StringMap::new();
    let report = import_snapshot(input.as_bytes(), &mut qsos).unwrap();
    assert_eq!(report.skipped, 25);
    assert_eq!(report.warnings.len(), 20);
}

#[test]
fn band_comes_from_the_frequency_where_none_is_named() {
    let mut qsos: Log = StringMap::new();
    import_snapshot(
        b"<CALL:4>W1AW<QSO_DATE:8>20260801<TIME_ON:4>1900<FREQ:8>7.035125<EOR>",
        &mut qsos,
    )
    .unwrap();
    let qso = qsos.value(0);
    assert_eq!(qso.band, Some(Band::B40));
    assert_eq!(qso.mode, "CW");
    assert_eq!(
        qso.frequency_khz,
        Some(Frequency {
            picohertz: 7_035_125_000_000_000_000
        })
    );
    assert_eq!(qso.name, None);
    assert_eq!(qso.location, None);
    assert!(matches!(qso.raw, Json::Object(_)));
}

#[test]
fn words_of_an_exchange_are_counted_from_its_beginning() {
    let exchange = Some(" BOB  MA ".to_string());
    assert_eq!(nth_word(&exchange, 0).as_deref(), Some("BOB"));
    assert_eq!(nth_word(&exchange, 1).as_deref(), Some("MA"));
    assert_eq!(nth_word(&exchange, 2), None);
    assert_eq!(nth_word(&None, 0), None);
}

#[test]
fn contacts_are_made_of_a_record_a_time_and_a_digest() {
    let records = parse_records(EXPORT.as_bytes()).unwrap();
    let qso = make_contact(&records[0], "W1AW".into(), contest_start(), "00ff");
    assert_eq!(qso.id, "adif:00ff");
    assert_eq!(qso.call, "W1AW");
    assert!(qso.timestamp == contest_start());
    assert_eq!(qso.band, Some(Band::B20));
    assert_eq!(qso.location.as_deref(), Some("CT"));
    assert_eq!(
        identity_bytes("W1AW", contest_start(), None, "CW"),
        vec![
            b'W', b'1', b'A', b'W', 0x00, 0x9d, 0x7b, 0xbe, 0x9f, 0x01, 0x00, 0x00, 0x00, 0x00,
            b'C', b'W'
        ]
    );
}

#[test]
fn readings_are_imported_in_order() {
    let records = parse_records(EXPORT.as_bytes()).unwrap();
    let mut qsos: Log = StringMap::new();
    let report = import_readings(
        &vec![
            Err(RecordError::Missing("CALL")),
            Ok(make_contact(&records[0], "W1AW".into(), contest_start(), "b")),
            Ok(make_contact(&records[0], "K1ABC".into(), contest_start(), "a")),
            Ok(make_contact(&records[0], "K1XYZ".into(), contest_start(), "b")),
        ],
        &mut qsos,
    );
    assert_eq!(report.records_seen, 4);
    assert_eq!((report.added, report.updated, report.skipped), (3, 0, 1));
    assert_eq!(qsos.len(), 2);
    assert_eq!(report.warnings, vec!["Record 1: missing CALL"]);
    assert_eq!(qsos.key(0), "adif:a");
    assert_eq!(qsos.value(1).call, "K1XYZ");
}

#[test]
fn an_appended_record_is_all_that_a_grown_export_adds() {
    let more = "<CALL:5>K1ABC<QSO_DATE:8>20260801<TIME_ON:4>1900<BAND:3>40M<MODE:2>CW<SRX_STRING:6>BOB MA<EOR>";
    let grown = format!("{EXPORT}{more}");
    let mut alone: Log = StringMap::new();
    import_snapshot(grown.as_bytes(), &mut alone).unwrap();
    let mut again: Log = StringMap::new();
    import_snapshot(EXPORT.as_bytes(), &mut again).unwrap();
    import_snapshot(grown.as_bytes(), &mut again).unwrap();
    let mut stepwise: Log = StringMap::new();
    import_snapshot(EXPORT.as_bytes(), &mut stepwise).unwrap();
    import_snapshot(more.as_bytes(), &mut stepwise).unwrap();
    assert!(same_log(&alone, &again));
    assert!(same_log(&alone, &stepwise));
}
