use qso_sidecar::json::Json;
use qso_sidecar::model::Band;
use qso_sidecar::rbn_locality::{
    catalog_is_current, normalize_spotter, usable_nodes, CatalogStatus, GridError, LocalityError,
    Maidenhead, MeasuredNode, NodeRecord, RbnLocality, SkimmerScope,
};
use qso_sidecar::time::contest_start;

fn node(call: &str, grid: &str, bands: &[&str]) -> NodeRecord {
    NodeRecord {
        call: call.into(),
        grid: grid.into(),
        band: Json::Array(
            bands
                .iter()
                .map(|band| {
                    Json::Array(vec![
                        Json::Text("CW".into()),
                        Json::Text((*band).into()),
                        Json::Text("test".into()),
                    ])
                })
                .collect(),
        ),
    }
}

fn degrees(units: i32) -> f64 {
    f64::from(units) / 480.0
}

/// The distance along a great circle.
fn distance_km(a: &Maidenhead, b: &Maidenhead) -> u32 {
    let lat1 = degrees(a.latitude).to_radians();
    let lat2 = degrees(b.latitude).to_radians();
    let delta_lat = lat2 - lat1;
    let delta_lon = (degrees(b.longitude) - degrees(a.longitude)).to_radians();
    let haversine = (delta_lat / 2.0).sin().powi(2)
        + lat1.cos() * lat2.cos() * (delta_lon / 2.0).sin().powi(2);
    (6_371.0 * 2.0 * haversine.sqrt().atan2((1.0 - haversine).sqrt())).round() as u32
}

fn measured(locality: &RbnLocality, nodes: Vec<NodeRecord>) -> Vec<MeasuredNode> {
    nodes
        .into_iter()
        .map(|node| {
            let km = match (locality.station(), Maidenhead::parse(&node.grid)) {
                (Some(station), Ok(grid)) => distance_km(station, &grid),
                _ => 0,
            };
            (node, km)
        })
        .collect()
}

#[test]
fn validates_and_centers_maidenhead_grids() {
    let grid = Maidenhead::parse("fn31pr").unwrap();
    assert_eq!(grid.value, "FN31PR");
    assert!((degrees(grid.latitude) - 41.729).abs() < 0.01);
    assert!((degrees(grid.longitude) - -72.708).abs() < 0.01);
    assert!(Maidenhead::parse("FN3").is_err());
    assert!(Maidenhead::parse("SN31PR").is_err());
    assert!(Maidenhead::parse("FN31ZZ").is_err());
}

#[test]
fn selects_nearest_distinct_sites_per_band() {
    let mut locality = RbnLocality::new(Some("FN31PR"), None, 2).unwrap();
    let nodes = measured(
        &locality,
        vec![
            node("ONE-#", "FN31JG", &["20m"]),
            node("ONE-2", "FN31JG", &["20m", "40m"]),
            node("TWO", "FN42ET", &["20m", "40m"]),
            node("THREE", "EM00AA", &["20m", "40m"]),
        ],
    );
    locality.install(&nodes, contest_start(), CatalogStatus::Live);
    let twenty = locality
        .public()
        .bands
        .into_iter()
        .find(|b| b.band == Band::B20)
        .unwrap();
    assert_eq!(twenty.sites.len(), 2);
    assert_eq!(twenty.sites[0].nodes, vec!["ONE", "ONE-2"]);
    assert!(locality.match_spotter(Band::B20, "ONE-#").is_some());
    assert!(locality.match_spotter(Band::B20, "THREE-#").is_none());
    assert!(locality.match_spotter(Band::B40, "ONE-2-#").is_some());
    assert!(locality.match_spotter(Band::B40, "ONE-#").is_none());
}

#[test]
fn nearby_without_a_grid_is_rejected_and_all_scope_needs_no_catalog() {
    assert!(RbnLocality::new(None, Some(SkimmerScope::Nearby), 3).is_err());
    let locality = RbnLocality::new(None, None, 3).unwrap();
    assert_eq!(locality.effective_scope(), SkimmerScope::All);
    assert!(!locality.configured_for_nearby());
}

#[test]
fn grids_are_centered_exactly() {
    let square = Maidenhead::parse(" FN31 ").unwrap();
    assert_eq!((square.latitude, square.longitude), (41 * 480 + 240, -73 * 480));
    let extended = Maidenhead::parse("JO62qm34").unwrap();
    assert_eq!(extended.value, "JO62QM34");
    assert_eq!(
        (extended.latitude, extended.longitude),
        (52 * 480 + 12 * 20 + 4 * 2 + 1, 12 * 480 + 16 * 40 + 3 * 4 + 2)
    );
    let refused = |grid: &str| Maidenhead::parse(grid).unwrap_err();
    assert_eq!(refused("FN3"), GridError::Length);
    assert_eq!(refused("SN31"), GridError::Field);
    assert_eq!(refused("FNAA"), GridError::Square);
    assert_eq!(refused("FN31ZZ"), GridError::Subsquare);
    assert_eq!(refused("FN31PRXX"), GridError::ExtendedSquare);
    assert_eq!(
        GridError::Length.message(),
        "Maidenhead grid must contain 4, 6, or 8 characters"
    );
}

#[test]
fn localities_that_cannot_be_are_refused_with_the_reason() {
    let refused = |grid: Option<&str>, scope: Option<SkimmerScope>, sites: usize| {
        RbnLocality::new(grid, scope, sites).err().unwrap()
    };
    assert_eq!(refused(Some("FN31"), None, 0), LocalityError::NoSites);
    assert_eq!(
        refused(Some("FN"), None, 3),
        LocalityError::Grid(GridError::Length)
    );
    assert_eq!(
        refused(None, Some(SkimmerScope::Nearby), 3).message(),
        "--rbn-skimmer-scope nearby requires --station-grid"
    );
}

#[test]
fn sites_are_kept_with_their_distance_and_coverage() {
    let mut locality = RbnLocality::new(Some("FN31PR"), None, 2).unwrap();
    assert_eq!(locality.effective_scope(), SkimmerScope::All);
    let nodes = measured(
        &locality,
        vec![
            node("FAR", "EM00AA", &["20m"]),
            node("NEAR", "FN31PR", &["20m"]),
            node("BROKEN", "??", &["20m"]),
            node("SILENT", "FN31PR", &[]),
        ],
    );
    locality.install(&nodes, contest_start(), CatalogStatus::Live);
    let shown = locality.public();
    assert_eq!(shown.effective_scope, SkimmerScope::Nearby);
    assert_eq!(shown.catalog_status, CatalogStatus::Live);
    assert_eq!(shown.station_grid.as_deref(), Some("FN31PR"));
    let twenty = &shown.bands[Band::B20.position()];
    assert_eq!(twenty.sites[0].grid, "FN31PR");
    assert_eq!(twenty.sites[0].distance_km, 0);
    assert_eq!(twenty.sites[0].nodes, vec!["NEAR"]);
    assert_eq!(twenty.sites[1].grid, "EM00AA");
    assert_eq!(twenty.effective_radius_km, Some(twenty.sites[1].distance_km));
    assert_eq!(twenty.coverage, "limited");
    assert_eq!(shown.bands[Band::B40.position()].coverage, "unavailable");
    let near = locality.match_spotter(Band::B20, "near-#").unwrap();
    assert_eq!((near.site_grid.as_str(), near.distance_km), ("FN31PR", 0));
    locality.mark_unavailable("timeout");
    assert_eq!(
        locality.public().message,
        "using cached RBN receiver sites: timeout"
    );
}

#[test]
fn without_a_directory_all_spots_are_shown() {
    let mut locality = RbnLocality::new(Some("FN31PR"), None, 3).unwrap();
    locality.mark_unavailable("timeout");
    let shown = locality.public();
    assert_eq!(shown.effective_scope, SkimmerScope::All);
    assert_eq!(shown.catalog_status, CatalogStatus::Unavailable);
    assert_eq!(
        shown.message,
        "RBN receiver directory unavailable; showing all spots: timeout"
    );
    assert!(locality.match_spotter(Band::B20, "W1AW").is_none());
    locality.mark_feed_disabled();
    assert_eq!(locality.public().catalog_status, CatalogStatus::NotConfigured);
    assert_eq!(
        RbnLocality::default().public().message,
        "using the full RBN feed"
    );
}

#[test]
fn nodes_of_a_directory_need_a_call_and_a_recent_answer() {
    assert!(usable_nodes(&vec![node("  ", "FN31", &["20m"])]).is_none());
    let kept = usable_nodes(&vec![
        node("", "FN31", &["20m"]),
        node("W1AW", "FN31", &["20m"]),
    ])
    .unwrap();
    assert_eq!(kept.len(), 1);
    assert_eq!(kept[0].call, "W1AW");
    assert!(kept[0].hears_on(Band::B20));
    assert_eq!(kept[0].bands(), vec![Band::B20]);
    let day: u32 = 24 * 3600;
    assert!(catalog_is_current(contest_start(), contest_start().later_by(day)));
    assert!(!catalog_is_current(
        contest_start(),
        contest_start().later_by(day + 1)
    ));
}

#[test]
fn skimmers_are_named_without_their_marks() {
    assert_eq!(normalize_spotter(" wz7i-# "), "WZ7I");
    assert_eq!(normalize_spotter("WZ7I-2-#"), "WZ7I-2");
    assert_eq!(normalize_spotter("WZ7I#"), "WZ7I");
}
