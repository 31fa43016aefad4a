use qso_sidecar::adif::ImportDiagnostics;
use qso_sidecar::demo::demo_runtime;
use qso_sidecar::frequency::Frequency;
use qso_sidecar::json::{Json, JsonNumber};
use qso_sidecar::lofi::Registration;
use qso_sidecar::log_source::{Log, LogSourceKind};
use qso_sidecar::matrix::CellState;
use qso_sidecar::model::{
    Band, Operation, Qso, RecordDiagnostic, RecordReason, SpotClass,
};
use qso_sidecar::rbn::{ConnectionState, RawSpot};
use qso_sidecar::runtime::{
    email_is_acceptable, merge_spot, update_cluster_status, validate_rbn_config, Runtime,
};
use qso_sidecar::spots::classify_spot;
use qso_sidecar::storage::{PersistedState, STATE_VERSION};
use qso_sidecar::string_map::{Duplicate, StringMap};
use qso_sidecar::round::{Answer, Round};
use qso_sidecar::sync::{on_operations, preferred_operation, AccountQuestion, SyncState};
use qso_sidecar::time::{contest_end, contest_start, Timestamp};

fn now() -> Timestamp {
    contest_start().later_by(3 * 3600)
}

fn raw(call: &str, band: Band, time: Timestamp) -> RawSpot {
    RawSpot {
        call: call.into(),
        frequency_khz: Frequency::from_tenths(140_251),
        band,
        time,
        spotter: "W3OA".into(),
        snr_db: Some(20),
        speed_wpm: Some(30),
    }
}

fn contact(id: &str, updated: u64) -> Qso {
    Qso {
        id: id.into(),
        call: "W1AW".into(),
        timestamp: contest_start(),
        band: Some(Band::B20),
        frequency_khz: None,
        mode: "CW".into(),
        name: Some("AL".into()),
        location: Some("CT".into()),
        country: None,
        dxcc: None,
        contest_id: None,
        deleted: false,
        raw: Json::Object(vec![(
            "updatedAtMillis".into(),
            Json::Number(JsonNumber::Unsigned(updated)),
        )]),
    }
}

fn operation(id: &str, is_naqp: bool, start: Option<Timestamp>) -> Operation {
    Operation {
        id: id.into(),
        title: id.into(),
        station_call: None,
        subtitle: None,
        qso_count: None,
        start,
        end: None,
        is_naqp,
    }
}

fn diagnostic(id: &str, reason: RecordReason) -> RecordDiagnostic {
    RecordDiagnostic {
        id: Some(id.into()),
        reason,
        detail: String::new(),
    }
}

#[test]
fn rbn_requires_a_login_callsign() {
    let error = validate_rbn_config(false, None).unwrap_err();
    assert!(error.message().contains("login callsign is required"));
    assert!(validate_rbn_config(false, Some("N1RWJ")).is_ok());
    assert!(validate_rbn_config(false, Some("   ")).is_err());
}

#[test]
fn disabled_rbn_does_not_require_a_login_callsign() {
    assert!(validate_rbn_config(true, None).is_ok());
}

#[test]
fn normal_runtime_restores_last_good_log_state() {
    let demo = demo_runtime(false, now());
    let persisted = PersistedState::new(
        demo.qsos.duplicate(),
        Some("restored-operation".into()),
        Some(LogSourceKind::Lofi),
        "Live Ham2K LoFi sync".into(),
        demo.source_freshness,
        ImportDiagnostics::default(),
        Vec::new(),
    );

    let runtime = Runtime::normal(false, Some(persisted));

    assert_eq!(runtime.qsos.len(), demo.qsos.len());
    assert_eq!(
        runtime.selected_operation.as_deref(),
        Some("restored-operation")
    );
    assert_eq!(runtime.source_kind, Some(LogSourceKind::Lofi));
    assert!(runtime.source.starts_with("Restored last-good:"));
}

#[test]
fn disconnect_marks_existing_candidates_stale() {
    let mut runtime = demo_runtime(true, now());

    update_cluster_status(
        &mut runtime,
        ConnectionState::Degraded,
        "disconnected".into(),
    );

    assert!(runtime.spots.iter().all(|spot| spot.stale));
}

#[test]
fn refreshed_candidate_is_no_longer_stale() {
    let mut runtime = demo_runtime(true, now());
    update_cluster_status(
        &mut runtime,
        ConnectionState::Disconnected,
        "disconnected".into(),
    );
    let existing = runtime.spots[0].duplicate();

    merge_spot(
        &mut runtime,
        &RawSpot {
            call: existing.call.clone(),
            frequency_khz: existing.frequency_khz,
            band: existing.band,
            time: existing.time.later_by(1),
            spotter: existing.spotter.clone(),
            snr_db: existing.snr_db,
            speed_wpm: existing.speed_wpm,
        },
    );

    let refreshed = runtime
        .spots
        .iter()
        .find(|spot| spot.call == existing.call && spot.band == existing.band)
        .unwrap();
    assert!(!refreshed.stale);
    assert!(runtime
        .spots
        .iter()
        .filter(|spot| spot.id != refreshed.id)
        .all(|spot| spot.stale));
}

#[test]
fn demonstration_scores_its_contacts() {
    let runtime = demo_runtime(true, now());
    assert_eq!(runtime.qsos.len(), 10);
    assert_eq!(runtime.qsos.key(0), "demo-0");
    assert!(runtime.demo);
    let shown = runtime.public(now());
    assert_eq!(shown.score.valid_qsos, 10);
    assert_eq!(shown.score.total_multipliers, 9);
    assert_eq!(shown.score.claimed_score, 90);
    assert_eq!(shown.current_band, Some(Band::B20));
    assert_eq!(shown.contest.maximum_operating_minutes, 600);
    let calls: Vec<&str> = shown.spots.iter().map(|s| s.call.as_str()).collect();
    assert_eq!(calls, vec!["N6RO", "W7RN", "K3LR", "ZF1A"]);
    assert_eq!(shown.spots[0].id, "demo-N6RO-20m");
    assert_eq!(shown.spots[0].frequency_khz, Frequency::from_tenths(140_314));
    assert!(shown.assisted_warning.is_some());
    assert!(demo_runtime(false, now())
        .public(now())
        .assisted_warning
        .is_none());
}

#[test]
fn matrix_shows_how_every_row_stands() {
    let mut runtime = demo_runtime(true, now());
    let mut nameless = contact("open", 1);
    nameless.location = Some("VT".into());
    nameless.name = None;
    runtime.qsos.insert("open".into(), nameless);
    let shown = runtime.public(now());
    assert_eq!(shown.matrix.len(), 111);
    let cell = |id: &str, band: Band| {
        shown
            .matrix
            .iter()
            .find(|row| row.id == id)
            .unwrap()
            .cells[band.position()]
    };
    assert_eq!(cell("CT", Band::B20), CellState::Worked);
    assert_eq!(cell("CA", Band::B20), CellState::VerifiedSpotted);
    assert_eq!(cell("NV", Band::B20), CellState::PossibleSpotted);
    assert_eq!(cell("VT", Band::B20), CellState::Unresolved);
    assert_eq!(cell("VT", Band::B40), CellState::Needed);
    assert!(shown.matrix.iter().all(|row| row.cells.len() == 6));
}

#[test]
fn old_spots_are_not_shown() {
    let runtime = demo_runtime(true, now());
    assert_eq!(runtime.public(now().later_by(570)).spots.len(), 2);
    assert!(runtime.public(now().later_by(601)).spots.is_empty());
}

#[test]
fn reports_of_one_station_are_taken_together() {
    let mut runtime = Runtime::normal(true, None);
    merge_spot(&mut runtime, &raw("K1ABC", Band::B20, now()));
    let mut weaker = raw("K1ABC", Band::B20, now().later_by(90));
    weaker.spotter = "DK9IP".into();
    weaker.snr_db = Some(5);
    merge_spot(&mut runtime, &weaker);
    assert_eq!(runtime.spots.len(), 1);
    let spot = &runtime.spots[0];
    assert_eq!(spot.id, format!("K1ABC-20-{}", now().parts().0));
    assert_eq!(spot.reports, 2);
    assert_eq!((spot.snr_db, spot.best_snr_db), (Some(5), Some(20)));
    assert_eq!(spot.spotters.len(), 2);
    assert_eq!(spot.class, SpotClass::Unknown);
    merge_spot(&mut runtime, &raw("K1ABC", Band::B20, now().later_by(200)));
    assert_eq!(runtime.spots.len(), 2);
    merge_spot(&mut runtime, &raw("K1ABC", Band::B40, now().later_by(200)));
    assert_eq!(runtime.spots.len(), 3);
    assert_eq!(runtime.spots[0].band, Band::B40);
}

#[test]
fn many_reports_leave_two_hundred_spots() {
    let mut runtime = Runtime::normal(true, None);
    for i in 0..250 {
        merge_spot(&mut runtime, &raw(&format!("K{i}ABC"), Band::B20, now()));
    }
    assert_eq!(runtime.spots.len(), 200);
    assert_eq!(runtime.spots[0].call, "K249ABC");
}

#[test]
fn spots_are_classified_by_the_log() {
    let log = demo_runtime(true, now()).qsos;
    let class = |call: &str, band: Band| classify_spot(&log, call, band);
    assert_eq!(class("W1AW", Band::B20), (SpotClass::Worked, None));
    assert_eq!(
        class("N6RO", Band::B20),
        (SpotClass::VerifiedMultiplier, Some("CA".into()))
    );
    assert_eq!(
        class("KP2M", Band::B40),
        (SpotClass::VerifiedMultiplier, Some("KP2".into()))
    );
    assert_eq!(class("DL1ABC", Band::B40), (SpotClass::NeededQso, None));
    assert_eq!(class("K9XYZ", Band::B40), (SpotClass::Unknown, None));
    let mut more = log.duplicate();
    let mut other = contact("x", 1);
    other.call = "K1XYZ".into();
    other.band = Some(Band::B15);
    more.insert("x".into(), other);
    assert_eq!(
        classify_spot(&more, "W1AW", Band::B15),
        (SpotClass::NeededQso, Some("CT".into()))
    );
    let mut withdrawn = log.duplicate();
    let mut deleted = contact("x", 1);
    deleted.call = "K1XYZ".into();
    deleted.band = Some(Band::B15);
    deleted.deleted = true;
    withdrawn.insert("x".into(), deleted);
    assert_eq!(
        classify_spot(&withdrawn, "W1AW", Band::B15),
        (SpotClass::VerifiedMultiplier, Some("CT".into()))
    );
}

const EXPORT: &str =
    "<CALL:5>K1ABC<QSO_DATE:8>20260801<TIME_ON:4>1900<BAND:3>40M<MODE:2>CW<SRX_STRING:6>BOB MA<EOR>";

#[test]
fn imports_leave_the_demonstration() {
    let mut runtime = demo_runtime(true, now());
    let plan = runtime.plan_import(EXPORT.as_bytes(), now()).unwrap();
    let kept = plan.persisted();
    runtime.commit_import(plan);
    assert!(!runtime.demo);
    assert_eq!(runtime.qsos.len(), 1);
    assert!(runtime.spots.is_empty());
    assert_eq!(runtime.selected_operation, None);
    assert_eq!(runtime.source, "PoLo ADIF snapshot");
    assert_eq!(runtime.import_diagnostics.added, 1);
    assert_eq!(kept.version, STATE_VERSION);
    let again = Runtime::normal(true, Some(kept));
    assert_eq!(again.source, "Restored last-good: PoLo ADIF snapshot");
    assert_eq!(again.qsos.len(), 1);
    assert_eq!(again.import_diagnostics.added, 1);
    assert!(again.source_freshness == Some(now()));
}

#[test]
fn refused_imports_change_nothing() {
    let runtime = demo_runtime(true, now());
    assert!(runtime.plan_import(b"<CALL:50>short", now()).is_err());
    assert_eq!(runtime.qsos.len(), 10);
    assert!(runtime.demo);
}

#[test]
fn choices_of_the_operator_keep_the_log() {
    let mut runtime = demo_runtime(true, now());
    assert!(!runtime.select_operation("unknown"));
    assert_eq!(runtime.selected_operation.as_deref(), Some("demo-naqp"));
    assert!(runtime.select_operation("demo-naqp"));
    assert_eq!(
        runtime.source,
        "Last-good data retained; synchronizing selected LoFi operation"
    );
    assert_eq!(runtime.qsos.len(), 10);
    runtime.mark_link_sent();
    assert_eq!(
        runtime.lofi_status,
        "verification email sent; open it, then this page will link automatically"
    );
    assert!(email_is_acceptable("me@example.org"));
    assert!(!email_is_acceptable("example.org"));
    assert!(!email_is_acceptable(&format!("@{}", "x".repeat(254))));
}

#[test]
fn leaving_the_demonstration_restores_the_last_good_log() {
    let mut runtime = Runtime::normal(true, None);
    runtime.toggle_demo(true, None, now());
    assert!(runtime.demo);
    assert!(runtime.spots_enabled);
    assert_eq!(runtime.qsos.len(), 10);
    let mut log: Log = StringMap::new();
    log.insert("q1".into(), contact("q1", 1));
    let kept = PersistedState::new(
        log,
        None,
        Some(LogSourceKind::Adif),
        "PoLo ADIF snapshot".into(),
        Some(now()),
        ImportDiagnostics::default(),
        Vec::new(),
    );
    runtime.toggle_demo(false, Some(kept), now());
    assert!(!runtime.demo);
    assert_eq!(runtime.qsos.len(), 1);
    assert!(runtime.spots.is_empty());
}

#[test]
fn states_of_another_version_are_refused() {
    let state = || {
        PersistedState::new(
            StringMap::new(),
            Some("operation".into()),
            Some(LogSourceKind::Lofi),
            "first".into(),
            None,
            ImportDiagnostics::default(),
            Vec::new(),
        )
    };
    let restored = state().restored().ok().unwrap();
    assert_eq!(restored.source, "first");
    assert_eq!(restored.selected_operation.as_deref(), Some("operation"));
    let mut other = state();
    other.version = 9;
    assert_eq!(
        other.restored().err().unwrap().message(),
        "unsupported last-good state version 9"
    );
}

#[test]
fn a_client_registers_before_it_asks_for_its_account() {
    let mut sync = SyncState::start();
    let mut runtime = Runtime::normal(false, None);
    assert_eq!(sync.account_question(), AccountQuestion::Register);
    let nobody = Registration {
        linked: false,
        account_call: None,
    };
    assert!(!sync.on_account(&mut runtime, &nobody));
    assert_eq!(sync.account_question(), AccountQuestion::Account);
    assert_eq!(
        runtime.lofi_status,
        "client registered; link your PoLo account below"
    );
    let linked = Registration {
        linked: true,
        account_call: Some("N1RWJ".into()),
    };
    assert!(sync.on_account(&mut runtime, &linked));
    assert_eq!(runtime.lofi_status, "linked as N1RWJ");
    assert!(runtime.public(now()).lofi_linked);
    let unnamed = Registration {
        linked: true,
        account_call: None,
    };
    assert!(sync.on_account(&mut runtime, &unnamed));
    assert_eq!(runtime.lofi_status, "linked");
}

#[test]
fn the_current_contest_operation_is_preferred() {
    let early = contest_start().earlier_by(90_000);
    let mut old = operation("old", true, Some(early));
    old.end = Some(contest_start().earlier_by(80_000));
    let operations = vec![
        operation("current", true, Some(contest_start())),
        old,
        operation("after", true, Some(contest_end().later_by(1))),
        operation("newest", false, Some(contest_end())),
    ];
    assert_eq!(preferred_operation(&operations), Some(0));
    let other = vec![
        operation("unknown", false, None),
        operation("a", false, Some(early)),
        operation("b", false, Some(early)),
    ];
    assert_eq!(preferred_operation(&other), Some(2));
    assert_eq!(preferred_operation(&vec![]), None);
}

#[test]
fn operations_keep_the_choice_that_is_among_them() {
    let mut runtime = Runtime::normal(false, None);
    assert_eq!(on_operations(&mut runtime, vec![]), None);
    assert_eq!(runtime.lofi_status, "linked; no operations returned by LoFi");
    let both = || {
        vec![
            operation("a", true, None),
            operation("b", false, None),
        ]
    };
    assert_eq!(on_operations(&mut runtime, both()).as_deref(), Some("a"));
    assert!(runtime.select_operation("b"));
    assert_eq!(on_operations(&mut runtime, both()).as_deref(), Some("b"));
    assert_eq!(
        on_operations(&mut runtime, vec![operation("a", true, None)]).as_deref(),
        Some("a")
    );
}

#[test]
fn contacts_are_fetched_whole_and_then_since_the_last_update() {
    let mut sync = SyncState::start();
    let mut runtime = Runtime::normal(false, None);
    runtime.qsos.insert("gone".into(), contact("gone", 1));
    let first = sync.contacts_question("op");
    assert!(first.changed);
    assert_eq!(first.watermark, None);
    let contacts = vec![contact("q1", 30), contact("q2", 20)];
    let plan = runtime
        .plan_sync(
            &contacts,
            vec![diagnostic("e1", RecordReason::EventOrNonContact)],
            first,
            now(),
        )
        .unwrap();
    assert_eq!(runtime.persisted_sync(&plan).source, "Live Ham2K LoFi sync");
    assert_eq!(runtime.qsos.len(), 1);
    runtime.commit_sync(plan);
    sync.finish("op", &contacts, first);
    assert_eq!(runtime.qsos.len(), 2);
    assert!(!runtime.qsos.has("gone"));
    assert_eq!(runtime.source_kind, Some(LogSourceKind::Lofi));
    assert_eq!(sync.watermark, Some(30));

    let second = sync.contacts_question("op");
    assert!(!second.changed);
    assert_eq!(second.watermark, Some(30));
    let more = vec![contact("q3", 25)];
    let plan = runtime
        .plan_sync(
            &more,
            vec![diagnostic("e2", RecordReason::MissingCall)],
            second,
            now(),
        )
        .unwrap();
    runtime.commit_sync(plan);
    sync.finish("op", &more, second);
    assert_eq!(runtime.qsos.len(), 3);
    assert_eq!(runtime.source_diagnostics.len(), 2);
    assert_eq!(sync.watermark, Some(30));
    assert!(sync.contacts_question("another").changed);
}

fn linked() -> Answer {
    Answer::Account(Registration {
        linked: true,
        account_call: None,
    })
}

#[test]
fn a_round_keeps_the_log_before_it_takes_effect() {
    let mut sync = SyncState::start();
    let mut runtime = Runtime::normal(false, None);
    let round = Round::begin(&sync);
    assert!(matches!(round, Round::Register));
    let round = round.advance(&mut runtime, &mut sync, linked(), now());
    assert!(matches!(round, Round::Operations));
    let round = round.advance(&mut runtime, &mut sync, Answer::Kept, now());
    assert!(matches!(round, Round::Operations));
    let answer = Answer::Operations(vec![operation("op", true, None)]);
    let round = round.advance(&mut runtime, &mut sync, answer, now());
    assert!(matches!(&round, Round::Contacts { selected, asked } if selected == "op" && asked.changed));
    let answer = Answer::Contacts {
        contacts: vec![contact("q1", 30)],
        diagnostics: vec![],
    };
    let round = round.advance(&mut runtime, &mut sync, answer, now());
    assert_eq!(runtime.qsos.len(), 0);
    assert_eq!(sync.selected_seen, None);
    let round = match round {
        Round::Keep { ref plan, .. } => {
            assert_eq!(runtime.persisted_sync(plan).qsos.len(), 1);
            round
        }
        _ => panic!("the log is kept next"),
    };
    let round = round.advance(&mut runtime, &mut sync, Answer::Kept, now());
    assert!(matches!(round, Round::Done));
    assert_eq!(runtime.qsos.len(), 1);
    assert_eq!(sync.selected_seen.as_deref(), Some("op"));
    assert_eq!(sync.watermark, Some(30));
    assert!(matches!(Round::begin(&sync), Round::Account));
}

#[test]
fn a_round_that_fails_leaves_the_log_as_it_is() {
    let mut sync = SyncState::start();
    let mut runtime = Runtime::normal(false, None);
    let first = sync.contacts_question("op");
    let contacts = vec![contact("q1", 30)];
    let plan = runtime.plan_sync(&contacts, vec![], first, now()).unwrap();
    let round = Round::Keep {
        selected: "op".into(),
        asked: first,
        contacts,
        plan,
    };
    let full = Answer::Failed("disk full".into());
    let round = round.advance(&mut runtime, &mut sync, full, now());
    assert!(matches!(round, Round::Done));
    assert_eq!(runtime.qsos.len(), 0);
    assert_eq!(sync.selected_seen, None);
    assert_eq!(runtime.lofi_status, "sync error: disk full");
    let round = round.advance(&mut runtime, &mut sync, Answer::Failed("again".into()), now());
    assert!(matches!(round, Round::Done));
    assert_eq!(runtime.lofi_status, "sync error: disk full");
}

#[test]
fn a_round_ends_without_a_link_or_an_operation_or_in_the_demonstration() {
    let mut sync = SyncState::start();
    let mut runtime = Runtime::normal(false, None);
    let nobody = Answer::Account(Registration {
        linked: false,
        account_call: None,
    });
    let round = Round::begin(&sync).advance(&mut runtime, &mut sync, nobody, now());
    assert!(matches!(round, Round::Done));
    let round = Round::begin(&sync).advance(&mut runtime, &mut sync, linked(), now());
    let round = round.advance(&mut runtime, &mut sync, Answer::Operations(vec![]), now());
    assert!(matches!(round, Round::Done));
    let mut shown = demo_runtime(false, now());
    let before = shown.qsos.len();
    let round = Round::Contacts {
        selected: "op".into(),
        asked: sync.contacts_question("op"),
    };
    let answer = Answer::Contacts {
        contacts: vec![contact("q1", 30)],
        diagnostics: vec![],
    };
    let round = round.advance(&mut shown, &mut sync, answer, now());
    assert!(matches!(round, Round::Done));
    assert_eq!(shown.qsos.len(), before);
    assert_eq!(sync.selected_seen.as_deref(), Some("op"));
}

#[test]
fn a_synchronization_leaves_the_demonstration_alone() {
    let runtime = demo_runtime(false, now());
    let sync = SyncState::start();
    assert!(runtime
        .plan_sync(&vec![], vec![], sync.contacts_question("op"), now())
        .is_none());
    let mut failed = Runtime::normal(false, None);
    failed.on_sync_error("timeout");
    assert_eq!(failed.lofi_status, "sync error: timeout");
}

#[test]
fn spots_work_no_row_and_bring_no_credit() {
    let mut runtime = demo_runtime(true, now());
    let before = runtime.public(now());
    merge_spot(&mut runtime, &raw("N6RO", Band::B40, now()));
    update_cluster_status(&mut runtime, ConnectionState::Degraded, "lost".into());
    let after = runtime.public(now());
    assert_eq!(before.score.claimed_score, after.score.claimed_score);
    assert_eq!(after.spots.len(), before.spots.len() + 1);
    for (old, new) in before.matrix.iter().zip(&after.matrix) {
        for (a, b) in old.cells.iter().zip(&new.cells) {
            assert_eq!(*a == CellState::Worked, *b == CellState::Worked);
        }
    }
    let ca = after.matrix.iter().find(|row| row.id == "CA").unwrap();
    assert_eq!(ca.cells[Band::B40.position()], CellState::VerifiedSpotted);
}
