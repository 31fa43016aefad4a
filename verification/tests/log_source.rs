use qso_sidecar::frequency::Frequency;
use qso_sidecar::json::Json;
use qso_sidecar::log_source::{Log, LogSourceKind, LogUpdate};
use qso_sidecar::model::{Band, Qso};
use qso_sidecar::string_map::StringMap;
use qso_sidecar::time::contest_start;

fn qso(id: &str, deleted: bool) -> Qso {
    Qso {
        id: id.into(),
        call: "W1AW".into(),
        timestamp: contest_start(),
        band: Some(Band::B20),
        frequency_khz: Some(Frequency::from_khz(14_035)),
        mode: "CW".into(),
        name: Some("AL".into()),
        location: Some("CT".into()),
        country: Some("United States".into()),
        dxcc: Some(291),
        contest_id: Some("NAQP-CW".into()),
        deleted,
        raw: Json::Null,
    }
}

fn log_with(id: &str) -> Log {
    let mut log: Log = StringMap::new();
    log.insert(id.into(), qso(id, false));
    log
}

#[test]
fn incremental_updates_replace_qsos_and_tombstones_by_id() {
    let mut existing = log_with("q1");
    let update = LogUpdate::lofi(vec![qso("q1", true), qso("q2", false)], false);

    let summary = update.apply(&mut existing);

    assert_eq!(summary.updated, 1);
    assert_eq!(summary.added, 1);
    assert_eq!(summary.source, LogSourceKind::Lofi);
    assert!(existing.get("q1").unwrap().deleted);
    assert_eq!(existing.len(), 2);
}

#[test]
fn full_updates_remove_records_absent_from_the_snapshot() {
    let mut existing = log_with("old");

    LogUpdate::lofi(vec![qso("new", false)], true).apply(&mut existing);

    assert!(!existing.has("old"));
    assert!(existing.has("new"));
}

#[test]
fn repeated_updates_change_nothing() {
    let mut existing: Log = StringMap::new();
    let first = LogUpdate::adif(vec![qso("q1", false), qso("q2", false)]).apply(&mut existing);
    assert_eq!(first.source, LogSourceKind::Adif);
    assert_eq!((first.added, first.updated, first.unchanged), (2, 0, 0));
    let second = LogUpdate::adif(vec![qso("q1", false), qso("q2", false)]).apply(&mut existing);
    assert_eq!((second.added, second.updated, second.unchanged), (0, 0, 2));
    assert_eq!(existing.len(), 2);
}

#[test]
fn contacts_stand_in_the_order_of_their_identifiers() {
    let mut existing: Log = StringMap::new();
    LogUpdate::lofi(
        vec![qso("b", false), qso("a", false), qso("c", false)],
        true,
    )
    .apply(&mut existing);
    let ids: Vec<&str> = (0..existing.len()).map(|i| existing.key(i).as_str()).collect();
    assert_eq!(ids, vec!["a", "b", "c"]);
}
