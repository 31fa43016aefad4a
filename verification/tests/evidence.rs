use qso_sidecar::evidence::{
    EvidenceSource, LocationConfidence, LocationEvidence, NameConfidence, NameEvidence,
    ParticipationConfidence, ParticipationEvidence, StationEvidence,
};
use qso_sidecar::model::{SourceCapability, SourceId, SourcePolicy};
use qso_sidecar::time::{contest_start, Timestamp};

fn time(minute: u32) -> Timestamp {
    contest_start().later_by(minute * 60)
}

fn participation(
    confidence: ParticipationConfidence,
    source: EvidenceSource,
    observed_at: Timestamp,
    expires_at: Option<Timestamp>,
) -> ParticipationEvidence {
    ParticipationEvidence {
        confidence,
        source,
        observed_at,
        expires_at,
    }
}

fn location(
    value: &str,
    confidence: LocationConfidence,
    source: EvidenceSource,
    observed_at: Timestamp,
    expires_at: Option<Timestamp>,
) -> LocationEvidence {
    LocationEvidence {
        value: value.into(),
        confidence,
        source,
        observed_at,
        expires_at,
    }
}

#[test]
fn participation_and_location_confidence_are_independent() {
    let mut station = StationEvidence::new(" k1abc ");
    station.locations.push(location(
        "CT",
        LocationConfidence::History,
        EvidenceSource::CallHistory,
        time(0),
        None,
    ));

    assert_eq!(station.call, "K1ABC");
    assert_eq!(
        station.participation_at(time(10)).confidence,
        ParticipationConfidence::Unknown
    );
    assert_eq!(
        station.location_at(time(10)).confidence,
        LocationConfidence::History
    );
}

#[test]
fn conclusions_retain_source_and_observation_time() {
    let mut station = StationEvidence::new("K1ABC");
    station.participation.push(participation(
        ParticipationConfidence::Declared,
        EvidenceSource::ContestOnlineScoreboard,
        time(2),
        None,
    ));

    let conclusion = station.participation_at(time(10));
    assert_eq!(conclusion.confidence, ParticipationConfidence::Declared);
    assert_eq!(
        conclusion.evidence[0].source,
        EvidenceSource::ContestOnlineScoreboard
    );
    assert_eq!(conclusion.evidence[0].observed_at, time(2));
}

#[test]
fn completed_local_qso_outranks_predictions_and_retains_conflicts() {
    let mut station = StationEvidence::new("K1ABC");
    station.locations.extend([
        location(
            "MA",
            LocationConfidence::Callbook,
            EvidenceSource::Callbook,
            time(8),
            None,
        ),
        location(
            "CT",
            LocationConfidence::Verified,
            EvidenceSource::LocalQso,
            time(1),
            None,
        ),
    ]);

    let conclusion = station.location_at(time(10));
    assert_eq!(conclusion.value.as_deref(), Some("CT"));
    assert_eq!(conclusion.confidence, LocationConfidence::Verified);
    assert_eq!(conclusion.evidence.len(), 2);
    assert_eq!(conclusion.conflicts.len(), 1);
    assert_eq!(conclusion.conflicts[0].value, "MA");
}

#[test]
fn completed_local_qso_name_outranks_history() {
    let mut station = StationEvidence::new("K1ABC");
    station.names.extend([
        NameEvidence {
            value: "Pat".into(),
            confidence: NameConfidence::History,
            source: EvidenceSource::CallHistory,
            observed_at: time(8),
            expires_at: None,
        },
        NameEvidence {
            value: "Alex".into(),
            confidence: NameConfidence::Verified,
            source: EvidenceSource::LocalQso,
            observed_at: time(1),
            expires_at: None,
        },
    ]);

    let conclusion = station.name_at(time(10));
    assert_eq!(conclusion.value.as_deref(), Some("Alex"));
    assert_eq!(conclusion.confidence, NameConfidence::Verified);
    assert_eq!(conclusion.conflicts[0].value, "Pat");
}

#[test]
fn stale_live_evidence_is_removed_while_static_history_remains() {
    let mut station = StationEvidence::new("K1ABC");
    station.participation.extend([
        participation(
            ParticipationConfidence::Confirmed,
            EvidenceSource::ContestOnlineScoreboard,
            time(0),
            Some(time(5)),
        ),
        participation(
            ParticipationConfidence::Declared,
            EvidenceSource::TeamRegistration,
            time(0),
            None,
        ),
    ]);

    let conclusion = station.participation_at(time(10));
    assert_eq!(conclusion.confidence, ParticipationConfidence::Declared);
    assert_eq!(conclusion.evidence.len(), 1);
    assert_eq!(
        conclusion.evidence[0].source,
        EvidenceSource::TeamRegistration
    );
}

#[test]
fn equal_strength_location_conflicts_resolve_to_newest_observation() {
    let mut station = StationEvidence::new("K1ABC");
    station.locations.extend([
        location(
            "MA",
            LocationConfidence::ContestDeclared,
            EvidenceSource::ContestOnlineScoreboard,
            time(1),
            None,
        ),
        location(
            "CT",
            LocationConfidence::ContestDeclared,
            EvidenceSource::ContestOnlineScoreboard,
            time(2),
            None,
        ),
    ]);

    let conclusion = station.location_at(time(10));
    assert_eq!(conclusion.value.as_deref(), Some("CT"));
    assert_eq!(conclusion.conflicts[0].value, "MA");
}

#[test]
fn empty_evidence_resolves_to_unknown() {
    let station = StationEvidence::new("K1ABC");
    assert_eq!(
        station.participation_at(time(0)).confidence,
        ParticipationConfidence::Unknown
    );
    assert_eq!(station.location_at(time(0)).value, None);
    assert_eq!(
        station.location_at(time(0)).confidence,
        LocationConfidence::Unknown
    );
}

#[test]
fn evidence_that_expires_now_is_not_fresh() {
    let mut station = StationEvidence::new("K1ABC");
    station.locations.push(location(
        "CT",
        LocationConfidence::ContestDeclared,
        EvidenceSource::ContestOnlineScoreboard,
        time(0),
        Some(time(5)),
    ));
    assert!(station.locations[0].is_fresh(time(4)));
    assert_eq!(station.location_at(time(4)).value.as_deref(), Some("CT"));
    assert!(!station.locations[0].is_fresh(time(5)));
    assert_eq!(station.location_at(time(5)).value, None);
    assert!(station.location_at(time(5)).evidence.is_empty());
}

#[test]
fn live_external_sources_are_disabled_by_default() {
    let policy = SourcePolicy::default();
    assert!(!policy.is_enabled(SourceId::ReverseBeaconNetwork));
    assert!(!policy.is_enabled(SourceId::ContestOnlineScoreboard));
    assert!(!policy.requires_assisted_entry());
    assert_eq!(policy.assisted_warning(), None);
}

#[test]
fn any_enabled_live_external_source_requires_assistance() {
    let mut policy = SourcePolicy::default();
    policy.set_enabled(SourceId::ReverseBeaconNetwork, true);
    assert!(policy.requires_assisted_entry());
    assert!(policy
        .assisted_warning()
        .unwrap()
        .contains("Reverse Beacon Network"));

    policy.set_enabled(SourceId::ReverseBeaconNetwork, false);
    policy.set_enabled(SourceId::ContestOnlineScoreboard, true);
    assert!(policy.requires_assisted_entry());
    assert!(policy
        .assisted_warning()
        .unwrap()
        .contains("Contest Online ScoreBoard"));
}

#[test]
fn static_history_and_local_logs_do_not_trigger_assisted_category() {
    let mut policy = SourcePolicy::default();
    policy.set_enabled(SourceId::N1mmCallHistory, true);
    policy.set_enabled(SourceId::PoloLofi, true);
    policy.set_enabled(SourceId::AdifImport, true);

    assert!(!policy.requires_assisted_entry());
    assert_eq!(policy.assisted_warning(), None);
    let statuses = policy.statuses();
    assert_eq!(
        statuses
            .iter()
            .find(|source| source.id == SourceId::N1mmCallHistory)
            .unwrap()
            .capability,
        SourceCapability::StaticHistory
    );
    assert_eq!(
        statuses
            .iter()
            .find(|source| source.id == SourceId::PoloLofi)
            .unwrap()
            .capability,
        SourceCapability::LocalLog
    );
}

#[test]
fn the_warning_names_exactly_the_enabled_live_sources() {
    for enabled in 0..64 {
        let mut policy = SourcePolicy::default();
        let sources = SourceId::all();
        for (i, id) in sources.iter().enumerate() {
            policy.set_enabled(*id, enabled & (1 << i) != 0);
        }
        match policy.assisted_warning() {
            None => assert!(!policy.requires_assisted_entry()),
            Some(warning) => {
                assert!(policy.requires_assisted_entry());
                for id in sources {
                    let live = id.capability() == SourceCapability::LiveExternalAssistance;
                    assert_eq!(
                        warning.contains(id.label()),
                        live && policy.is_enabled(id)
                    );
                }
            }
        }
    }
}

#[test]
fn both_live_sources_are_named_in_the_warning() {
    let mut policy = SourcePolicy::default();
    policy.set_enabled(SourceId::ReverseBeaconNetwork, true);
    policy.set_enabled(SourceId::ContestOnlineScoreboard, true);
    let warning = policy.assisted_warning().unwrap();
    assert!(warning.contains("Reverse Beacon Network"));
    assert!(warning.contains("Contest Online ScoreBoard"));
    assert_eq!(policy.statuses().len(), SourceId::all().len());
}

#[test]
fn evidence_that_expires_in_a_leap_second_is_over_in_the_second_behind_it() {
    let next = time(1);
    let leap = Timestamp::new(next.parts().0 - 1, 1_500_000_000).unwrap();
    let evidence = location(
        "CT",
        LocationConfidence::History,
        EvidenceSource::CallHistory,
        time(0),
        Some(leap),
    );
    assert!(!evidence.is_fresh(next));
    assert!(evidence.is_fresh(Timestamp::new(next.parts().0 - 1, 999_999_999).unwrap()));
}
