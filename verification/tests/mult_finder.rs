use qso_sidecar::evidence::{
    EvidenceSource, LocationConclusion, LocationConfidence, LocationEvidence,
};
use qso_sidecar::frequency::Frequency;
use qso_sidecar::json::Json;
use qso_sidecar::model::{Band, Qso, Spot, SpotClass, TextSet};
use qso_sidecar::mult_finder::{opportunities, MultiplierCertainty, ReceptionFreshness};
use qso_sidecar::naqp::{score, Score};
use qso_sidecar::string_map::StringMap;
use qso_sidecar::time::{contest_start, Timestamp};

fn now() -> Timestamp {
    contest_start().later_by(7200)
}

fn score_with(worked: &[(&str, Band)]) -> Score {
    let contacts: Vec<Qso> = worked
        .iter()
        .enumerate()
        .map(|(index, (location, band))| Qso {
            id: format!("qso-{index}"),
            call: format!("W1{index}AA"),
            timestamp: now().earlier_by(1800),
            band: Some(*band),
            frequency_khz: None,
            mode: "CW".into(),
            name: Some("AL".into()),
            location: Some((*location).into()),
            country: Some("United States".into()),
            dxcc: Some(291),
            contest_id: Some("NAQP-CW".into()),
            deleted: false,
            raw: Json::Null,
        })
        .collect();
    score(&contacts)
}

fn set(values: Vec<String>) -> TextSet {
    let mut out: TextSet = StringMap::new();
    for value in values {
        out.insert(value, ());
    }
    out
}

fn spot(call: &str, multiplier: &str, seconds_ago: u32, sites: usize) -> Spot {
    let local_spotters = set((0..sites).map(|index| format!("SK{index}")).collect());
    let local_sites = set((0..sites).map(|index| format!("FN4{index}")).collect());
    Spot {
        id: format!("{call}-20"),
        call: call.into(),
        frequency_khz: Frequency::from_khz(14_030),
        band: Band::B20,
        time: now().earlier_by(seconds_ago),
        spotter: "SK0".into(),
        spotters: set(vec!["SK0".into()]),
        snr_db: Some(8),
        best_snr_db: Some(8),
        speed_wpm: Some(28),
        class: SpotClass::PredictedMultiplier,
        predicted_multiplier: Some(multiplier.into()),
        reports: sites as u32,
        preferred_spotter: false,
        stale: false,
        local_time: Some(now().earlier_by(seconds_ago)),
        local_frequency_khz: Some(Frequency::from_khz(14_030)),
        local_spotter: Some("SK0".into()),
        local_spotters,
        local_sites,
        local_snr_db: Some(8),
        local_best_snr_db: Some(8),
        local_speed_wpm: Some(28),
        local_reports: sites as u32,
        nearest_local_km: Some(20),
    }
}

fn locations(
    entries: Vec<(&str, &str, LocationConfidence)>,
) -> StringMap<LocationConclusion> {
    let mut out: StringMap<LocationConclusion> = StringMap::new();
    for (call, value, confidence) in entries {
        let evidence = LocationEvidence {
            value: value.into(),
            confidence,
            source: EvidenceSource::CallHistory,
            observed_at: now(),
            expires_at: None,
        };
        out.insert(
            call.into(),
            LocationConclusion {
                value: Some(value.into()),
                confidence,
                evidence: vec![evidence],
                conflicts: Vec::new(),
            },
        );
    }
    out
}

#[test]
fn excludes_worked_multiplier_and_expired_reception() {
    let score = score_with(&[("CT", Band::B20)]);
    let spots = vec![spot("K1CT", "CT", 10, 2), spot("K1RI", "RI", 301, 2)];
    let locations = locations(vec![
        ("K1CT", "CT", LocationConfidence::History),
        ("K1RI", "RI", LocationConfidence::History),
    ]);
    assert!(opportunities(&score, &spots, &locations, Some(Band::B20), now(), true).is_empty());
}

#[test]
fn groups_alternates_by_multiplier() {
    let score = score_with(&[]);
    let spots = vec![spot("K1AAA", "RI", 10, 2), spot("K1BBB", "RI", 20, 1)];
    let locations = locations(vec![
        ("K1AAA", "RI", LocationConfidence::History),
        ("K1BBB", "RI", LocationConfidence::History),
    ]);
    let result = opportunities(&score, &spots, &locations, Some(Band::B20), now(), true);
    assert_eq!(result.len(), 1);
    assert_eq!(result[0].primary.call, "K1AAA");
    assert_eq!(result[0].alternates.len(), 1);
}

#[test]
fn freshness_beats_certainty_then_sites_break_ties() {
    let score = score_with(&[]);
    let mut verified = spot("K1VER", "VT", 80, 3);
    verified.class = SpotClass::VerifiedMultiplier;
    let spots = vec![
        verified,
        spot("K1HOT", "RI", 10, 1),
        spot("K1TWO", "ME", 10, 2),
    ];
    let locations = locations(vec![
        ("K1VER", "VT", LocationConfidence::Verified),
        ("K1HOT", "RI", LocationConfidence::History),
        ("K1TWO", "ME", LocationConfidence::History),
    ]);
    let result = opportunities(&score, &spots, &locations, Some(Band::B20), now(), true);
    assert_eq!(
        result
            .iter()
            .map(|item| item.primary.call.as_str())
            .collect::<Vec<_>>(),
        vec!["K1TWO", "K1HOT", "K1VER"]
    );
}

#[test]
fn an_opportunity_says_what_it_rests_on() {
    let score = score_with(&[("RI", Band::B40)]);
    let spots = vec![spot("K1AAA", "RI", 10, 2)];
    let locations = locations(vec![("K1AAA", "RI", LocationConfidence::History)]);
    let result = opportunities(&score, &spots, &locations, Some(Band::B20), now(), true);
    assert_eq!(result.len(), 1);
    assert_eq!(result[0].band, Band::B20);
    assert_eq!(result[0].multiplier_id, "RI");
    assert_eq!(result[0].multiplier_code, "RI");
    assert_eq!(result[0].multiplier_name, "Rhode Island");
    assert_eq!(result[0].certainty, MultiplierCertainty::History);
    assert_eq!(result[0].freshness, ReceptionFreshness::Hot);
    assert_eq!(result[0].primary.site_count, 2);
    assert!(!result[0].evidence_conflict);
}

#[test]
fn every_spot_that_brings_a_row_is_named_once() {
    let score = score_with(&[("CT", Band::B20)]);
    let mut elsewhere = spot("K1CCC", "RI", 15, 1);
    elsewhere.band = Band::B40;
    let spots = vec![
        spot("K1AAA", "RI", 10, 2),
        spot("K1CT", "CT", 10, 2),
        elsewhere,
        spot("K1BBB", "RI", 20, 1),
        spot("K1DDD", "VT", 299, 1),
    ];
    let none = locations(vec![]);
    let result = opportunities(&score, &spots, &none, Some(Band::B20), now(), true);
    let mut named: Vec<(Band, &str, &str)> = Vec::new();
    for item in &result {
        named.push((item.band, &item.multiplier_id, &item.primary.call));
        for other in &item.alternates {
            named.push((item.band, &item.multiplier_id, &other.call));
        }
    }
    named.sort_by_key(|entry| entry.2);
    assert_eq!(
        named,
        vec![
            (Band::B20, "RI", "K1AAA"),
            (Band::B20, "RI", "K1BBB"),
            (Band::B40, "RI", "K1CCC"),
            (Band::B20, "VT", "K1DDD"),
        ]
    );
}
