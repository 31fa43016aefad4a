use std::collections::BTreeSet;

use qso_sidecar::json::Json;
use qso_sidecar::model::{Band, Qso};
use qso_sidecar::naqp::{normalize_multiplier, operating_time, score, ContactReason};
use qso_sidecar::naqp_catalog::{find, multipliers, resolve, MultiplierGroup};
use qso_sidecar::time::{
    contest_end, contest_start, Timestamp, CONTEST_END_SECOND, CONTEST_START_SECOND,
};

fn qso(id: &str, call: &str, band: Band, minute: u32, location: &str) -> Qso {
    Qso {
        id: id.into(),
        call: call.into(),
        timestamp: contest_start().later_by(minute * 60),
        band: Some(band),
        frequency_khz: None,
        mode: "CW".into(),
        name: Some("AL".into()),
        location: Some(location.into()),
        country: None,
        dxcc: None,
        contest_id: Some("NAQP-CW".into()),
        deleted: false,
        raw: Json::Null,
    }
}

#[test]
fn duplicates_only_count_once_per_band() {
    let result = score(&vec![
        qso("1", "W1AW", Band::B20, 0, "CT"),
        qso("2", "w1aw", Band::B20, 1, "CT"),
        qso("3", "W1AW", Band::B40, 2, "CT"),
    ]);
    assert_eq!(result.valid_qsos, 2);
    assert_eq!(result.duplicates, 1);
    assert_eq!(result.total_multipliers, 2);
    assert_eq!(result.claimed_score, 4);
}

#[test]
fn same_multiplier_counts_on_each_band() {
    let result = score(&vec![
        qso("1", "W1AW", Band::B20, 0, "CT"),
        qso("2", "K1ABC", Band::B40, 1, "CT"),
    ]);
    assert_eq!(result.total_multipliers, 2);
    let row = result
        .multiplier_rows
        .iter()
        .find(|row| row.id == "CT")
        .unwrap();
    assert_eq!(row.worked_bands.len(), 2);
}

#[test]
fn thirty_one_minutes_is_off_time_boundary() {
    let result = score(&vec![
        qso("1", "W1AW", Band::B20, 0, "CT"),
        qso("2", "K1ABC", Band::B20, 30, "MA"),
    ]);
    assert_eq!(result.off_minutes, 0);
    let result = score(&vec![
        qso("1", "W1AW", Band::B20, 0, "CT"),
        qso("2", "K1ABC", Band::B20, 31, "MA"),
    ]);
    assert_eq!(result.off_minutes, 30);
    assert_eq!(result.operating_minutes, 1);
}

#[test]
fn non_na_qso_counts_without_multiplier() {
    let mut contact = qso("1", "DL1ABC", Band::B20, 0, "dx,");
    contact.country = None;
    let result = score(&vec![contact]);
    assert_eq!(result.valid_qsos, 1);
    assert_eq!(result.total_multipliers, 0);
    assert_eq!(result.unresolved_exchanges, 0);
}

#[test]
fn country_alone_does_not_complete_exchange() {
    let mut contact = qso("1", "DL1ABC", Band::B20, 0, "");
    contact.location = None;
    contact.country = Some("Germany".into());
    let result = score(&vec![contact]);
    assert_eq!(result.valid_qsos, 0);
    assert_eq!(result.total_multipliers, 0);
    assert_eq!(result.unresolved_exchanges, 1);
}

#[test]
fn incomplete_na_exchange_is_explicit_and_excluded() {
    let mut contact = qso("1", "W1AW", Band::B20, 0, "");
    contact.location = None;
    contact.country = Some("United States".into());
    let result = score(&vec![contact]);
    assert_eq!(result.valid_qsos, 0);
    assert_eq!(result.unresolved_exchanges, 1);
}

#[test]
fn excludes_wrong_mode_and_out_of_period_records() {
    let mut wrong_mode = qso("1", "W1AW", Band::B20, 0, "CT");
    wrong_mode.mode = "SSB".into();
    let mut late = qso("2", "K1ABC", Band::B20, 1, "MA");
    late.timestamp = contest_end();
    assert_eq!(score(&vec![wrong_mode, late]).valid_qsos, 0);
}

#[test]
fn every_contact_has_a_reason() {
    let mut deleted = qso("deleted", "W1AW", Band::B20, 0, "CT");
    deleted.deleted = true;
    let mut bandless = qso("bandless", "W1AW", Band::B20, 1, "CT");
    bandless.band = None;
    let mut phone = qso("phone", "W1AW", Band::B20, 2, "CT");
    phone.mode = "SSB".into();
    let mut early = qso("early", "W1AW", Band::B20, 3, "CT");
    early.timestamp = contest_start().earlier_by(1);
    let mut nameless = qso("nameless", "W1AW", Band::B20, 4, "CT");
    nameless.name = Some(" ".into());
    let result = score(&vec![
        deleted,
        bandless,
        phone,
        early,
        nameless,
        qso("first", "W1AW", Band::B20, 5, "CT"),
        qso("second", "W1AW", Band::B20, 6, "CT"),
    ]);
    let reason = |id: &str| {
        result
            .contacts
            .iter()
            .find(|contact| contact.id == id)
            .unwrap()
            .reason
    };
    assert_eq!(result.contacts.len(), 7);
    assert_eq!(reason("deleted"), ContactReason::Tombstone);
    assert_eq!(reason("bandless"), ContactReason::IneligibleBand);
    assert_eq!(reason("phone"), ContactReason::WrongMode);
    assert_eq!(reason("early"), ContactReason::OutsidePeriod);
    assert_eq!(reason("nameless"), ContactReason::IncompleteExchange);
    assert_eq!(reason("first"), ContactReason::Credited);
    assert_eq!(reason("second"), ContactReason::Duplicate);
    assert_eq!(result.rules_version, "2026-08-cw");
    assert_eq!(result.claimed_score, 1);
}

#[test]
fn hawaii_and_the_dominican_republic_are_two_multipliers_on_a_band() {
    let result = score(&vec![
        qso("1", "KH6ABC", Band::B20, 0, "HI"),
        qso("2", "HI8ABC", Band::B20, 1, "HI"),
    ]);
    assert_eq!(result.total_multipliers, 2);
    assert_eq!(result.claimed_score, 4);
    let twenty = result.bands.iter().find(|b| b.band == Band::B20).unwrap();
    assert_eq!(twenty.multiplier_values, vec!["DXCC-HI", "US-HI"]);
    assert_eq!(twenty.qsos, 2);
}

#[test]
fn a_duplicate_does_not_change_the_score() {
    let alone = score(&vec![qso("1", "W1AW", Band::B20, 0, "CT")]);
    let repeated = score(&vec![
        qso("1", "W1AW", Band::B20, 0, "CT"),
        qso("2", "W1AW", Band::B20, 50, "MA"),
    ]);
    assert_eq!(alone.claimed_score, repeated.claimed_score);
    assert_eq!(alone.off_minutes, repeated.off_minutes);
    assert_eq!(repeated.qsos.len(), repeated.valid_qsos as usize + 1);
}

#[test]
fn operating_time_leaves_long_gaps_out() {
    let at = |minutes: u32| contest_start().later_by(minutes * 60);
    assert_eq!(operating_time(&vec![]), (0, 0));
    assert_eq!(operating_time(&vec![at(5)]), (0, 0));
    assert_eq!(operating_time(&vec![at(0), at(10), at(60)]), (11, 49));
}

#[test]
fn locations_are_read_with_their_usual_spellings() {
    assert_eq!(normalize_multiplier(" ct. ").as_deref(), Some("CT"));
    for (spelling, code) in [
        ("NFLD", "NL"),
        ("nf", "NL"),
        ("N.W.T.", "NT"),
        ("Que", "QC"),
        ("PQ", "QC"),
        ("PEI", "PE"),
        ("YUK", "YT"),
        ("Mex", "XE"),
        ("MEXICO", "XE"),
        ("4U1UN", "4U1U"),
        ("4U1/U", "4U1U"),
    ] {
        assert_eq!(normalize_multiplier(spelling).as_deref(), Some(code));
    }
    assert_eq!(normalize_multiplier("DX"), None);
    assert_eq!(normalize_multiplier(""), None);
    assert_eq!(normalize_multiplier("XX"), None);
}

#[test]
fn catalog_has_111_unique_codes_and_all_groups() {
    let all = multipliers();
    assert_eq!(all.len(), 111);
    assert_eq!(
        all.iter()
            .map(|multiplier| multiplier.id)
            .collect::<BTreeSet<_>>()
            .len(),
        111
    );
    assert_eq!(
        all.iter()
            .map(|multiplier| multiplier.code)
            .collect::<BTreeSet<_>>()
            .len(),
        110
    );
    for group in [
        MultiplierGroup::UsDc,
        MultiplierGroup::Canada,
        MultiplierGroup::OtherNorthAmerica,
    ] {
        assert!(all.iter().any(|entry| entry.group == group));
    }
}

#[test]
fn every_catalog_entry_has_display_metadata() {
    assert!(multipliers().iter().all(|entry| {
        !entry.code.trim().is_empty() && !entry.display_name.trim().is_empty()
    }));
}

#[test]
fn resolves_hawaii_and_dominican_republic_separately() {
    assert_eq!(resolve("HI", "KH6ABC", Some("Hawaii")).unwrap().id, "US-HI");
    assert_eq!(
        resolve("HI", "HI8ABC", Some("Dominican Republic"))
            .unwrap()
            .id,
        "DXCC-HI"
    );
}

#[test]
fn the_shared_code_means_neither_row_without_context() {
    assert!(resolve("HI", " ", None).is_none());
    assert!(resolve("HI", "", Some("  ")).is_none());
    assert!(resolve("HI", "W1AW", None).is_none());
    assert!(resolve("HI", "DL1ABC", Some("Germany")).is_none());
    assert!(resolve("HI", "W1AW", Some("Dominica")).is_none());
    for call in ["kh6abc", " AH7X", "NH6Y", "WH7Z", "KH7A"] {
        assert_eq!(resolve("HI", call, None).unwrap().id, "US-HI");
    }
    for country in ["hawaii", "United States", "United States of America", "USA"] {
        assert_eq!(resolve("HI", "W1AW", Some(country)).unwrap().id, "US-HI");
    }
    assert_eq!(resolve("HI", "HI3A", Some("USA")).unwrap().id, "DXCC-HI");
    assert_eq!(resolve("HI", "", Some("Dominican Republic")).unwrap().id, "DXCC-HI");
    assert_eq!(resolve("ON", "VE3EJ", None).unwrap().group, MultiplierGroup::Canada);
    assert_eq!(find("CT").unwrap().display_name, "Connecticut");
    assert!(find("DX").is_none());
}

#[test]
fn totals_are_the_sums_over_the_bands() {
    let result = score(&vec![
        qso("1", "W1AW", Band::B20, 0, "CT"),
        qso("2", "K1ABC", Band::B20, 1, "CT"),
        qso("3", "VE3EJ", Band::B40, 2, "ON"),
        qso("4", "DL1ABC", Band::B15, 3, "DX"),
    ]);
    assert_eq!(result.bands.len(), 6);
    assert_eq!(result.bands.iter().map(|b| b.qsos).sum::<usize>(), 4);
    assert_eq!(result.bands.iter().map(|b| b.multipliers).sum::<usize>(), 2);
    assert_eq!((result.valid_qsos, result.total_multipliers), (4, 2));
    assert_eq!(result.claimed_score, 8);
    assert_eq!(result.multiplier_rows.len(), 111);
    let worked: usize = result
        .multiplier_rows
        .iter()
        .map(|row| row.worked_bands.len())
        .sum();
    assert_eq!(worked, 2);
}

#[test]
fn the_shared_code_earns_nothing_without_context() {
    let result = score(&vec![qso("1", "W1AW", Band::B20, 0, "HI")]);
    assert_eq!(result.valid_qsos, 0);
    assert_eq!(result.total_multipliers, 0);
    assert_eq!(result.unresolved_exchanges, 1);
    assert_eq!(result.contacts[0].reason, ContactReason::IncompleteExchange);
    let mut placed = qso("1", "W1AW", Band::B20, 0, "HI");
    placed.country = Some("United States".into());
    assert_eq!(score(&vec![placed]).total_multipliers, 1);
}

#[test]
fn a_leap_second_before_the_end_is_within_the_period() {
    let mut last = qso("1", "W1AW", Band::B20, 0, "CT");
    last.timestamp = Timestamp::new(CONTEST_END_SECOND - 1, 1_000_000_000).unwrap();
    assert_eq!(score(&vec![last]).valid_qsos, 1);
    let mut late = qso("1", "W1AW", Band::B20, 0, "CT");
    late.timestamp = Timestamp::new(CONTEST_END_SECOND, 0).unwrap();
    assert_eq!(score(&vec![late]).valid_qsos, 0);
}

#[test]
fn off_time_counts_a_leap_second_that_a_gap_begins_in() {
    let leap = Timestamp::new(CONTEST_START_SECOND + 59, 1_000_000_000).unwrap();
    let later = Timestamp::new(CONTEST_START_SECOND + 31 * 60 + 59, 0).unwrap();
    assert_eq!(operating_time(&vec![leap, later]), (1, 30));
    let before = Timestamp::new(CONTEST_START_SECOND + 59, 0).unwrap();
    let sooner = Timestamp::new(CONTEST_START_SECOND + 31 * 60 + 58, 999_999_999).unwrap();
    assert_eq!(operating_time(&vec![before, sooner]), (30, 0));
    let midnight = CONTEST_START_SECOND + 6 * 3600;
    let last = Timestamp::new(midnight - 1, 1_900_000_000).unwrap();
    let first = Timestamp::new(midnight, 100_000_000).unwrap();
    assert_eq!(operating_time(&vec![last, first]), (0, 0));
}

#[test]
fn a_prefix_behind_a_stroke_counts() {
    for call in ["W1AW/KH6", "w1aw/kh7/p", "KH6/W1AW", "DL1ABC/NH6"] {
        assert_eq!(resolve("HI", call, None).unwrap().id, "US-HI");
    }
    assert!(resolve("HI", "W1AW/6", None).is_none());
    assert!(resolve("HI", "W1KH6", None).is_none());
    assert_eq!(resolve("HI", "HI8ABC/KH6", None).unwrap().id, "DXCC-HI");
}

#[test]
fn the_order_of_a_log_does_not_matter() {
    let log = || {
        vec![
            qso("1", "W1AW", Band::B20, 0, "CT"),
            qso("2", "K1ABC", Band::B20, 5, "MA"),
            qso("3", "W1AW", Band::B20, 9, "CT"),
            qso("4", "N6RO", Band::B40, 50, "CA"),
        ]
    };
    let forward = score(&log());
    let mut turned = log();
    turned.reverse();
    let backward = score(&turned);
    assert_eq!(forward.claimed_score, backward.claimed_score);
    assert_eq!(forward.duplicates, backward.duplicates);
    assert_eq!(forward.off_minutes, backward.off_minutes);
    for (a, b) in forward.contacts.iter().zip(&backward.contacts) {
        assert_eq!((&a.id, a.reason), (&b.id, b.reason));
    }
}

#[test]
fn a_repeated_contact_in_between_changes_no_credit() {
    let log = || {
        vec![
            qso("1", "W1AW", Band::B20, 0, "CT"),
            qso("2", "K1ABC", Band::B20, 5, "MA"),
            qso("4", "W1AW", Band::B20, 20, "CT"),
        ]
    };
    let alone = score(&log());
    let mut more = log();
    more.push(qso("3", "W1AW", Band::B20, 9, "CT"));
    let repeated = score(&more);
    assert_eq!(alone.claimed_score, repeated.claimed_score);
    assert_eq!(alone.duplicates + 1, repeated.duplicates);
    assert_eq!(alone.operating_minutes, repeated.operating_minutes);
    for (a, b) in alone.bands.iter().zip(&repeated.bands) {
        assert_eq!(a.qsos, b.qsos);
        assert_eq!(a.multiplier_values, b.multiplier_values);
    }
    for (a, b) in alone.multiplier_rows.iter().zip(&repeated.multiplier_rows) {
        assert_eq!(a.worked_bands, b.worked_bands);
    }
    assert_eq!(repeated.contacts[2].id, "3");
    assert_eq!(repeated.contacts[2].reason, ContactReason::Duplicate);
}

#[test]
fn every_code_reads_as_itself() {
    for row in multipliers() {
        assert_eq!(normalize_multiplier(row.code).as_deref(), Some(row.code));
    }
}

#[test]
fn a_contact_in_a_leap_second_comes_before_the_second_behind_it() {
    let next = contest_start().later_by(60);
    let mut leap = qso("leap", "W1AW", Band::B20, 0, "CT");
    leap.timestamp = Timestamp::new(next.parts().0 - 1, 1_500_000_000).unwrap();
    let mut after = qso("after", "W1AW", Band::B20, 1, "MA");
    after.timestamp = next;
    let result = score(&vec![after, leap]);
    assert_eq!(result.contacts[0].id, "leap");
    assert_eq!(result.contacts[0].reason, ContactReason::Credited);
    assert_eq!(result.contacts[1].reason, ContactReason::Duplicate);
}
