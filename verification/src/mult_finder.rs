//! Which spotted stations would bring new multipliers, the most promising first.
use vstd::prelude::*;

use crate::evidence::ConclusionModel;
use crate::frequency::Frequency;
use crate::model;
use crate::model::Band;
use crate::model::LocationConclusion;
use crate::model::LocationConfidence;
use crate::model::Spot;
use crate::model::SpotClass;
use crate::model::SpotModel;
use crate::naqp::MultiplierRow;
use crate::naqp::RowModel;
use crate::naqp::Score;
use crate::numbers;
use crate::sort;
use crate::sort::PartModel;
use crate::sort::RankPart;
use crate::string_map;
use crate::string_map::Duplicate;
use crate::string_map::StringMap;
use crate::text;
use crate::time;
use crate::time::Instant;
use crate::time::Timestamp;

verus! {

/// A reception counts for this long, in nanoseconds.
pub const TACTICAL_TTL: i128 = 300_000_000_000;

/// How sure it is that a station is the multiplier it is taken for.
#[derive(Debug, Clone, Copy, PartialEq, Eq, PartialOrd, Ord, Structural)]
pub enum MultiplierCertainty {
    Verified,
    Declared,
    History,
    Callbook,
    Prefix,
}

/// How recently a station was heard.
#[derive(Debug, Clone, Copy, PartialEq, Eq, PartialOrd, Ord, Structural)]
pub enum ReceptionFreshness {
    Hot,
    Warm,
    Fading,
}

impl MultiplierCertainty {
    /// The surest comes first.
    pub open spec fn priority(self) -> int {
        match self {
            MultiplierCertainty::Verified => 0,
            MultiplierCertainty::Declared => 1,
            MultiplierCertainty::History => 2,
            MultiplierCertainty::Callbook => 3,
            MultiplierCertainty::Prefix => 4,
        }
    }

    pub open spec fn reason(self) -> Seq<char> {
        match self {
            MultiplierCertainty::Verified => "multiplier copied in this contest"@,
            MultiplierCertainty::Declared => "current-contest declaration"@,
            MultiplierCertainty::History => "call history estimate"@,
            MultiplierCertainty::Callbook => "QRZ callbook estimate"@,
            MultiplierCertainty::Prefix => "callsign prefix guess"@,
        }
    }
}

impl ReceptionFreshness {
    /// The freshest comes first.
    pub open spec fn priority(self) -> int {
        match self {
            ReceptionFreshness::Hot => 0,
            ReceptionFreshness::Warm => 1,
            ReceptionFreshness::Fading => 2,
        }
    }
}

fn certainty_priority(certainty: MultiplierCertainty) -> (r: u8)
    ensures
        r == certainty.priority(),
{
    match certainty {
        MultiplierCertainty::Verified => 0,
        MultiplierCertainty::Declared => 1,
        MultiplierCertainty::History => 2,
        MultiplierCertainty::Callbook => 3,
        MultiplierCertainty::Prefix => 4,
    }
}

fn freshness_priority(freshness: ReceptionFreshness) -> (r: u8)
    ensures
        r == freshness.priority(),
{
    match freshness {
        ReceptionFreshness::Hot => 0,
        ReceptionFreshness::Warm => 1,
        ReceptionFreshness::Fading => 2,
    }
}

/// How fresh a reception of this age is: hot up to 45 seconds, warm up to 120.
pub open spec fn freshness_at(age: int) -> ReceptionFreshness {
    if age <= 45_000_000_000 {
        ReceptionFreshness::Hot
    } else if age <= 120_000_000_000 {
        ReceptionFreshness::Warm
    } else {
        ReceptionFreshness::Fading
    }
}

fn freshness(age: i128) -> (r: ReceptionFreshness)
    ensures
        r == freshness_at(age as int),
{
    if age <= 45_000_000_000 {
        ReceptionFreshness::Hot
    } else if age <= 120_000_000_000 {
        ReceptionFreshness::Warm
    } else {
        ReceptionFreshness::Fading
    }
}

/// The certainty that a confidence in a location gives; none where nothing is known.
pub open spec fn certainty_of(confidence: int) -> Option<MultiplierCertainty> {
    if confidence == LocationConfidence::Verified.rank() {
        Some(MultiplierCertainty::Verified)
    } else if confidence == LocationConfidence::ContestDeclared.rank() {
        Some(MultiplierCertainty::Declared)
    } else if confidence == LocationConfidence::History.rank() {
        Some(MultiplierCertainty::History)
    } else if confidence == LocationConfidence::Callbook.rank() {
        Some(MultiplierCertainty::Callbook)
    } else if confidence == LocationConfidence::PrefixOnly.rank() {
        Some(MultiplierCertainty::Prefix)
    } else {
        None
    }
}

fn certainty(confidence: LocationConfidence) -> (r: Option<MultiplierCertainty>)
    ensures
        r == certainty_of(confidence.rank()),
{
    match confidence {
        LocationConfidence::Verified => Some(MultiplierCertainty::Verified),
        LocationConfidence::ContestDeclared => Some(MultiplierCertainty::Declared),
        LocationConfidence::History => Some(MultiplierCertainty::History),
        LocationConfidence::Callbook => Some(MultiplierCertainty::Callbook),
        LocationConfidence::PrefixOnly => Some(MultiplierCertainty::Prefix),
        LocationConfidence::Unknown => None,
    }
}

// ---------------------------------------------------------------------------------------------
// Targets
// ---------------------------------------------------------------------------------------------
/// A station to call.
#[derive(Debug)]
pub struct MultTarget {
    pub call: String,
    pub frequency_khz: Frequency,
    pub time: Timestamp,
    pub snr_db: Option<i16>,
    pub site_count: usize,
    pub skimmer_count: usize,
    pub reports: u32,
    pub nearest_site_km: Option<u32>,
}

/// The model of a target.
#[verifier::ext_equal]
pub struct TargetModel {
    pub call: Seq<char>,
    pub frequency: Frequency,
    pub time: Instant,
    pub snr_db: Option<i16>,
    pub site_count: nat,
    pub skimmer_count: nat,
    pub reports: u32,
    pub nearest_site_km: Option<u32>,
}

impl View for MultTarget {
    type V = TargetModel;

    open spec fn view(&self) -> TargetModel {
        TargetModel {
            call: self.call@,
            frequency: self.frequency_khz,
            time: self.time@,
            snr_db: self.snr_db,
            site_count: self.site_count as nat,
            skimmer_count: self.skimmer_count as nat,
            reports: self.reports,
            nearest_site_km: self.nearest_site_km,
        }
    }
}

impl Duplicate for MultTarget {
    fn duplicate(&self) -> (r: Self) {
        MultTarget {
            call: self.call.clone(),
            frequency_khz: self.frequency_khz,
            time: self.time,
            snr_db: self.snr_db,
            site_count: self.site_count,
            skimmer_count: self.skimmer_count,
            reports: self.reports,
            nearest_site_km: self.nearest_site_km,
        }
    }
}

/// A target with what ranks it.
#[derive(Debug)]
struct RankedTarget {
    target: MultTarget,
    certainty: MultiplierCertainty,
    freshness: ReceptionFreshness,
    evidence_value: Option<String>,
    evidence_conflict: bool,
}

/// The model of a ranked target.
#[verifier::ext_equal]
pub struct RankedModel {
    pub target: TargetModel,
    pub certainty: MultiplierCertainty,
    pub freshness: ReceptionFreshness,
    pub evidence_value: Option<Seq<char>>,
    pub evidence_conflict: bool,
}

impl View for RankedTarget {
    type V = RankedModel;

    closed spec fn view(&self) -> RankedModel {
        RankedModel {
            target: self.target@,
            certainty: self.certainty,
            freshness: self.freshness,
            evidence_value: text::opt_text(self.evidence_value),
            evidence_conflict: self.evidence_conflict,
        }
    }
}

impl Duplicate for RankedTarget {
    fn duplicate(&self) -> (r: Self) {
        RankedTarget {
            target: self.target.duplicate(),
            certainty: self.certainty,
            freshness: self.freshness,
            evidence_value: text::copy_opt(&self.evidence_value),
            evidence_conflict: self.evidence_conflict,
        }
    }
}

/// The position of the first of `rows` with the identifier `id`; their number if there is none.
pub open spec fn row_position(rows: Seq<RowModel>, id: Seq<char>) -> int
    decreases rows.len(),
{
    if rows.len() == 0 || rows[0].id == id {
        0
    } else {
        1 + row_position(rows.skip(1), id)
    }
}

pub proof fn lemma_row_position(rows: Seq<RowModel>, id: Seq<char>)
    ensures
        0 <= row_position(rows, id) <= rows.len(),
        row_position(rows, id) < rows.len() ==> rows[row_position(rows, id)].id == id,
    decreases rows.len(),
{
    if rows.len() > 0 && rows[0].id != id {
        lemma_row_position(rows.skip(1), id);
    }
}

fn find_row(rows: &Vec<MultiplierRow>, id: &str) -> (r: Option<usize>)
    ensures
        match r {
            Some(i) => i == row_position(string_map::views(rows@), id@) && i < rows@.len(),
            None => row_position(string_map::views(rows@), id@) == rows@.len(),
        },
{
    let ghost all = string_map::views(rows@);
    let mut i: usize = 0;
    assert(all.skip(0) =~= all);
    while i < rows.len()
        invariant
            i <= rows@.len(),
            all == string_map::views(rows@),
            row_position(all, id@) == i + row_position(all.skip(i as int), id@),
        decreases rows.len() - i,
    {
        assert(all.skip(i as int)[0] == rows@[i as int]@);
        assert(all.skip(i as int).skip(1) =~= all.skip(i + 1));
        if text::same(rows[i].id, id) {
            return Some(i);
        }
        i = i + 1;
    }
    None
}

/// The row that a spot would bring anew: the spot is not stale, was heard in the last minutes, is
/// taken for a multiplier that the log has a row for and has not worked on the band, and was
/// heard nearby where that is asked for.
pub open spec fn offers(s: SpotModel, rows: Seq<RowModel>, now: Instant, nearby: bool) -> Option<
    RowModel,
> {
    let age = time::span(s.time, now);
    if s.stale || age < 0 || age > TACTICAL_TTL {
        None
    } else if s.class != SpotClass::VerifiedMultiplier && s.class
        != SpotClass::PredictedMultiplier {
        None
    } else {
        match s.predicted_multiplier {
            None => None,
            Some(id) => {
                let i = row_position(rows, id);
                if !(0 <= i < rows.len()) || rows[i].worked_bands.contains(s.band) {
                    None
                } else if nearby && (s.local_time is None || s.local_spotters.len() == 0) {
                    None
                } else {
                    Some(rows[i])
                }
            },
        }
    }
}

/// What is known of where `call` is: under the callsign itself, or else under the first one that
/// is the same station's.
pub open spec fn known_location(locations: Seq<(Seq<char>, ConclusionModel)>, call: Seq<char>) -> Option<
    ConclusionModel,
> {
    match string_map::lookup(locations, model::normalized(call)) {
        Some(c) => Some(c),
        None => equivalent_location(locations, call),
    }
}

pub open spec fn equivalent_location(
    locations: Seq<(Seq<char>, ConclusionModel)>,
    call: Seq<char>,
) -> Option<ConclusionModel>
    decreases locations.len(),
{
    if locations.len() == 0 {
        None
    } else if model::normalized(locations[0].0) == model::normalized(call) {
        Some(locations[0].1)
    } else {
        equivalent_location(locations.skip(1), call)
    }
}

fn location_for_call<'a>(
    locations: &'a StringMap<LocationConclusion>,
    call: &str,
) -> (r: Option<&'a LocationConclusion>)
    ensures
        match r {
            Some(c) => known_location(locations@, call@) == Some(c@),
            None => known_location(locations@, call@) is None,
        },
{
    let normalized = model::normalize_call(call);
    match locations.get(normalized.as_str()) {
        Some(c) => Some(c),
        None => {
            let mut i: usize = 0;
            assert(locations@.skip(0) =~= locations@);
            while i < locations.len()
                invariant
                    i <= locations@.len(),
                    equivalent_location(locations@, call@) == equivalent_location(
                        locations@.skip(i as int),
                        call@,
                    ),
                    string_map::lookup(locations@, model::normalized(call@)) is None,
                decreases locations@.len() - i,
            {
                assert(locations@.skip(i as int)[0] == locations@[i as int]);
                assert(locations@.skip(i as int).skip(1) =~= locations@.skip(i + 1));
                if model::calls_equivalent(locations.key(i).as_str(), call) {
                    return Some(locations.value(i));
                }
                i = i + 1;
            }
            None
        },
    }
}

/// The target that a spot is.
pub open spec fn target_of(s: SpotModel, nearby: bool) -> TargetModel {
    TargetModel {
        call: s.call,
        frequency: s.frequency,
        time: s.time,
        snr_db: if nearby {
            s.local_snr_db
        } else {
            s.snr_db
        },
        site_count: if nearby {
            s.local_sites.len()
        } else {
            0
        },
        skimmer_count: if nearby {
            s.local_spotters.len()
        } else {
            s.spotters.len()
        },
        reports: if nearby {
            s.local_reports
        } else {
            s.reports
        },
        nearest_site_km: if nearby {
            s.nearest_local_km
        } else {
            None
        },
    }
}

/// The target that a spot is, with what ranks it.
pub open spec fn ranked_of(
    s: SpotModel,
    locations: Seq<(Seq<char>, ConclusionModel)>,
    now: Instant,
    nearby: bool,
) -> RankedModel {
    let location = known_location(locations, s.call);
    let from_location = match location {
        Some(c) => certainty_of(c.confidence),
        None => None,
    };
    RankedModel {
        target: target_of(s, nearby),
        certainty: match from_location {
            Some(c) => c,
            None => if s.class == SpotClass::VerifiedMultiplier {
                MultiplierCertainty::Verified
            } else {
                MultiplierCertainty::Prefix
            },
        },
        freshness: freshness_at(time::span(s.time, now)),
        evidence_value: match location {
            Some(c) => c.value,
            None => None,
        },
        evidence_conflict: location matches Some(c) && c.conflicts.len() > 0,
    }
}

/// The targets for `band` among `spots`, by the rows that they would bring, each in the order of
/// the spots.
pub open spec fn grouped(
    spots: Seq<SpotModel>,
    rows: Seq<RowModel>,
    locations: Seq<(Seq<char>, ConclusionModel)>,
    now: Instant,
    nearby: bool,
    band: Band,
) -> Seq<(Seq<char>, Seq<RankedModel>)>
    decreases spots.len(),
{
    if spots.len() == 0 {
        Seq::empty()
    } else {
        let before = grouped(spots.drop_last(), rows, locations, now, nearby, band);
        let s = spots.last();
        match offers(s, rows, now, nearby) {
            Some(row) => if s.band == band {
                string_map::inserted(
                    before,
                    row.id,
                    targets_at(before, row.id).push(ranked_of(s, locations, now, nearby)),
                )
            } else {
                before
            },
            None => before,
        }
    }
}

/// The targets that `m` has for the row `id`.
pub open spec fn targets_at(m: Seq<(Seq<char>, Seq<RankedModel>)>, id: Seq<char>) -> Seq<
    RankedModel,
> {
    match string_map::lookup(m, id) {
        Some(t) => t,
        None => Seq::empty(),
    }
}

/// The strength of a report; a missing one is the weakest.
pub open spec fn strength(snr_db: Option<i16>) -> int {
    match snr_db {
        Some(n) => n as int,
        None => i16::MIN as int,
    }
}

/// The order of targets: the freshest, then the surest, then by sites, strength, reports, age,
/// callsign and frequency.
pub open spec fn target_rank(t: RankedModel, now: Instant) -> Seq<PartModel> {
    seq![
        PartModel::Number(t.freshness.priority()),
        PartModel::Number(t.certainty.priority()),
        PartModel::Number(-(t.target.site_count as int)),
        PartModel::Number(-strength(t.target.snr_db)),
        PartModel::Number(-(t.target.reports as int)),
        PartModel::Number(time::span(t.target.time, now) / 1_000_000_000),
        PartModel::Text(t.target.call),
        PartModel::Number(t.target.frequency.tenths()),
    ]
}

pub open spec fn with_ranks(t: Seq<RankedModel>, now: Instant) -> Seq<(Seq<PartModel>, RankedModel)> {
    Seq::new(t.len(), |i: int| (target_rank(t[i], now), t[i]))
}

/// Why a target is ranked where it is.
pub open spec fn reasons(t: RankedModel, nearby: bool, now: Instant) -> Seq<Seq<char>> {
    let minutes = time::span(t.target.time, now) / 60_000_000_000;
    let shown = if minutes > 2 {
        minutes as nat
    } else {
        2
    };
    let heard = match t.freshness {
        ReceptionFreshness::Hot => "heard in the last 45 seconds"@,
        ReceptionFreshness::Warm => "heard in the last 2 minutes"@,
        ReceptionFreshness::Fading => "last heard "@ + numbers::decimal(shown) + " minutes ago"@,
    };
    let sites = "heard by "@ + numbers::decimal(t.target.site_count) + " nearby site"@ + if t.target.site_count
        == 1 {
        ""@
    } else {
        "s"@
    };
    if nearby {
        seq![heard, sites, t.certainty.reason()]
    } else {
        seq![heard, t.certainty.reason()]
    }
}

// ---------------------------------------------------------------------------------------------
// Opportunities
// ---------------------------------------------------------------------------------------------
/// A multiplier to work on a band, with the stations that would bring it.
#[derive(Debug)]
pub struct MultOpportunity {
    pub band: Band,
    pub multiplier_id: String,
    pub multiplier_code: String,
    pub multiplier_name: String,
    pub certainty: MultiplierCertainty,
    pub freshness: ReceptionFreshness,
    pub evidence_value: Option<String>,
    pub evidence_conflict: bool,
    pub primary: MultTarget,
    pub alternates: Vec<MultTarget>,
    pub rank_reasons: Vec<String>,
}

/// The model of an opportunity.
#[verifier::ext_equal]
pub struct OpportunityModel {
    pub band: Band,
    pub multiplier_id: Seq<char>,
    pub multiplier_code: Seq<char>,
    pub multiplier_name: Seq<char>,
    pub certainty: MultiplierCertainty,
    pub freshness: ReceptionFreshness,
    pub evidence_value: Option<Seq<char>>,
    pub evidence_conflict: bool,
    pub primary: TargetModel,
    pub alternates: Seq<TargetModel>,
    pub rank_reasons: Seq<Seq<char>>,
}

impl View for MultOpportunity {
    type V = OpportunityModel;

    open spec fn view(&self) -> OpportunityModel {
        OpportunityModel {
            band: self.band,
            multiplier_id: self.multiplier_id@,
            multiplier_code: self.multiplier_code@,
            multiplier_name: self.multiplier_name@,
            certainty: self.certainty,
            freshness: self.freshness,
            evidence_value: text::opt_text(self.evidence_value),
            evidence_conflict: self.evidence_conflict,
            primary: self.primary@,
            alternates: string_map::views(self.alternates@),
            rank_reasons: text::texts(self.rank_reasons@),
        }
    }
}

/// The opportunity that `targets` for `row` on `band` make up: the best one first.
pub open spec fn opportunity(
    band: Band,
    row: RowModel,
    targets: Seq<RankedModel>,
    now: Instant,
    nearby: bool,
) -> OpportunityModel {
    let best = sort::sorted(with_ranks(targets, now));
    let primary = best[0].1;
    OpportunityModel {
        band,
        multiplier_id: row.id,
        multiplier_code: row.code,
        multiplier_name: row.display_name,
        certainty: primary.certainty,
        freshness: primary.freshness,
        evidence_value: primary.evidence_value,
        evidence_conflict: primary.evidence_conflict,
        primary: primary.target,
        alternates: Seq::new((best.len() - 1) as nat, |i: int| best[i + 1].1.target),
        rank_reasons: reasons(primary, nearby, now),
    }
}

/// The opportunities on `band`, in the order of their rows' identifiers.
pub open spec fn on_band(
    spots: Seq<SpotModel>,
    rows: Seq<RowModel>,
    locations: Seq<(Seq<char>, ConclusionModel)>,
    now: Instant,
    nearby: bool,
    band: Band,
) -> Seq<OpportunityModel> {
    let groups = grouped(spots, rows, locations, now, nearby, band);
    Seq::new(
        groups.len(),
        |i: int|
            opportunity(band, rows[row_position(rows, groups[i].0)], groups[i].1, now, nearby),
    )
}

/// The opportunities on `bands`, band by band.
pub open spec fn on_bands(
    spots: Seq<SpotModel>,
    rows: Seq<RowModel>,
    locations: Seq<(Seq<char>, ConclusionModel)>,
    now: Instant,
    nearby: bool,
    bands: Seq<Band>,
) -> Seq<OpportunityModel>
    decreases bands.len(),
{
    if bands.len() == 0 {
        Seq::empty()
    } else {
        on_bands(spots, rows, locations, now, nearby, bands.drop_last()) + on_band(
            spots,
            rows,
            locations,
            now,
            nearby,
            bands.last(),
        )
    }
}

/// The order of opportunities: those on the current band, then the freshest, then the surest,
/// then by sites, strength, reports, age, code and callsign.
pub open spec fn opportunity_rank(
    o: OpportunityModel,
    current_band: Option<Band>,
    now: Instant,
) -> Seq<PartModel> {
    seq![
        PartModel::Number(
            if current_band matches Some(b) && o.band != b {
                1
            } else {
                0
            },
        ),
        PartModel::Number(o.freshness.priority()),
        PartModel::Number(o.certainty.priority()),
        PartModel::Number(-(o.primary.site_count as int)),
        PartModel::Number(-strength(o.primary.snr_db)),
        PartModel::Number(-(o.primary.reports as int)),
        PartModel::Number(time::span(o.primary.time, now) / 1_000_000_000),
        PartModel::Text(o.multiplier_code),
        PartModel::Text(o.primary.call),
    ]
}

pub open spec fn with_order(
    o: Seq<OpportunityModel>,
    current_band: Option<Band>,
    now: Instant,
) -> Seq<(Seq<PartModel>, OpportunityModel)> {
    Seq::new(o.len(), |i: int| (opportunity_rank(o[i], current_band, now), o[i]))
}

/// The opportunities that `spots` offer, the most promising first.
pub open spec fn opportunities_of(
    rows: Seq<RowModel>,
    spots: Seq<SpotModel>,
    locations: Seq<(Seq<char>, ConclusionModel)>,
    current_band: Option<Band>,
    now: Instant,
    nearby: bool,
) -> Seq<OpportunityModel> {
    let all = on_bands(spots, rows, locations, now, nearby, model::all_bands());
    sort::unranked(sort::sorted(with_order(all, current_band, now)))
}

/// The targets of a group.
struct Group {
    targets: Vec<RankedTarget>,
}

impl View for Group {
    type V = Seq<RankedModel>;

    closed spec fn view(&self) -> Seq<RankedModel> {
        string_map::views(self.targets@)
    }
}

fn has_band(bands: &Vec<Band>, band: Band) -> (r: bool)
    ensures
        r == bands@.contains(band),
{
    let mut i: usize = 0;
    while i < bands.len()
        invariant
            i <= bands@.len(),
            forall|j: int| 0 <= j < i ==> bands@[j] != band,
        decreases bands.len() - i,
    {
        if bands[i] == band {
            return true;
        }
        i = i + 1;
    }
    false
}

/// The position of the row that a spot would bring anew.
fn offered_row(spot: &Spot, rows: &Vec<MultiplierRow>, now: Timestamp, nearby: bool) -> (r: Option<
    usize,
>)
    ensures
        match r {
            Some(i) => i < rows@.len() && offers(spot@, string_map::views(rows@), now@, nearby)
                == Some(rows@[i as int]@) && i == row_position(
                string_map::views(rows@),
                rows@[i as int]@.id,
            ),
            None => offers(spot@, string_map::views(rows@), now@, nearby) is None,
        },
{
    let age = now.since(spot.time);
    if spot.stale || age < 0 || age > TACTICAL_TTL {
        return None;
    }
    match spot.class {
        SpotClass::VerifiedMultiplier | SpotClass::PredictedMultiplier => {},
        _ => return None,
    }
    let id = match &spot.predicted_multiplier {
        Some(id) => id,
        None => return None,
    };
    proof {
        lemma_row_position(string_map::views(rows@), id@);
    }
    let i = match find_row(rows, id.as_str()) {
        Some(i) => i,
        None => return None,
    };
    assert(string_map::views(rows@)[i as int] == rows@[i as int]@);
    if has_band(&rows[i].worked_bands, spot.band) {
        return None;
    }
    if nearby && (spot.local_time.is_none() || spot.local_spotters.len() == 0) {
        return None;
    }
    Some(i)
}

fn rank_spot(
    spot: &Spot,
    locations: &StringMap<LocationConclusion>,
    now: Timestamp,
    nearby: bool,
) -> (r: RankedTarget)
    ensures
        r@ == ranked_of(spot@, locations@, now@, nearby),
{
    let location = location_for_call(locations, spot.call.as_str());
    let from_location = match location {
        Some(c) => certainty(c.confidence),
        None => None,
    };
    let certainty = match from_location {
        Some(c) => c,
        None => if spot.class == SpotClass::VerifiedMultiplier {
            MultiplierCertainty::Verified
        } else {
            MultiplierCertainty::Prefix
        },
    };
    let target = MultTarget {
        call: spot.call.clone(),
        frequency_khz: spot.frequency_khz,
        time: spot.time,
        snr_db: if nearby {
            spot.local_snr_db
        } else {
            spot.snr_db
        },
        site_count: if nearby {
            spot.local_sites.len()
        } else {
            0
        },
        skimmer_count: if nearby {
            spot.local_spotters.len()
        } else {
            spot.spotters.len()
        },
        reports: if nearby {
            spot.local_reports
        } else {
            spot.reports
        },
        nearest_site_km: if nearby {
            spot.nearest_local_km
        } else {
            None
        },
    };
    let r = RankedTarget {
        target,
        certainty,
        freshness: freshness(now.since(spot.time)),
        evidence_value: match location {
            Some(c) => text::copy_opt(&c.value),
            None => None,
        },
        evidence_conflict: match location {
            Some(c) => c.conflicts.len() > 0,
            None => false,
        },
    };
    assert(r@ =~= ranked_of(spot@, locations@, now@, nearby));
    r
}

/// The groups on `band`.
fn group(
    spots: &Vec<Spot>,
    rows: &Vec<MultiplierRow>,
    locations: &StringMap<LocationConclusion>,
    now: Timestamp,
    nearby: bool,
    band: Band,
) -> (r: StringMap<Group>)
    ensures
        r@ == grouped(
            string_map::views(spots@),
            string_map::views(rows@),
            locations@,
            now@,
            nearby,
            band,
        ),
{
    let ghost all = string_map::views(spots@);
    let ghost models = string_map::views(rows@);
    let mut out: StringMap<Group> = StringMap::new();
    let mut i: usize = 0;
    assert(all.take(0) =~= Seq::empty());
    while i < spots.len()
        invariant
            i <= spots@.len(),
            all == string_map::views(spots@),
            models == string_map::views(rows@),
            out@ == grouped(all.take(i as int), models, locations@, now@, nearby, band),
        decreases spots.len() - i,
    {
        assert(all.take(i + 1).drop_last() =~= all.take(i as int));
        assert(all.take(i + 1).last() == spots@[i as int]@);
        let spot = &spots[i];
        if let Some(at) = offered_row(spot, rows, now, nearby) {
            if spot.band == band {
                let id = rows[at].id;
                let ghost before = out@;
                let mut targets: Vec<RankedTarget> = match out.get(id) {
                    Some(g) => string_map::copy_all(&g.targets),
                    None => Vec::new(),
                };
                assert(string_map::views(targets@) =~= targets_at(before, id@));
                let ranked = rank_spot(spot, locations, now, nearby);
                let ghost added = ranked@;
                targets.push(ranked);
                let next = Group { targets };
                assert(next@ =~= targets_at(before, id@).push(added));
                out.insert(text::owned(id), next);
            }
        }
        i = i + 1;
    }
    assert(all.take(all.len() as int) =~= all);
    out
}

fn strength_of(snr_db: Option<i16>) -> (r: i128)
    ensures
        r == strength(snr_db),
        -32768 <= r <= 32767,
{
    match snr_db {
        Some(n) => n as i128,
        None => i16::MIN as i128,
    }
}

/// Whole seconds of an age that is not negative.
fn whole_seconds(age: i128) -> (r: i128)
    requires
        age >= 0,
    ensures
        r == age as int / 1_000_000_000,
{
    age / 1_000_000_000
}

fn rank_target(candidate: &RankedTarget, now: Timestamp) -> (r: Vec<RankPart>)
    requires
        time::span(candidate@.target.time, now@) >= 0,
    ensures
        sort::rank_model(r@) == target_rank(candidate@, now@),
{
    let age = now.since(candidate.target.time);
    let sites: i128 = -(candidate.target.site_count as i128);
    let strength: i128 = -strength_of(candidate.target.snr_db);
    let reports: i128 = -(candidate.target.reports as i128);
    let r = vec![
        RankPart::Number(freshness_priority(candidate.freshness) as i128),
        RankPart::Number(certainty_priority(candidate.certainty) as i128),
        RankPart::Number(sites),
        RankPart::Number(strength),
        RankPart::Number(reports),
        RankPart::Number(whole_seconds(age)),
        RankPart::Text(candidate.target.call.clone()),
        RankPart::Number(candidate.target.frequency_khz.rounded_tenths()),
    ];
    assert(sort::rank_model(r@) =~= target_rank(candidate@, now@));
    r
}

fn rank_reasons(candidate: &RankedTarget, nearby: bool, now: Timestamp) -> (r: Vec<String>)
    requires
        time::span(candidate@.target.time, now@) >= 0,
    ensures
        text::texts(r@) == reasons(candidate@, nearby, now@),
{
    let age = now.since(candidate.target.time);
    let minutes: u64 = (age / time::NANOS_PER_MINUTE) as u64;
    assert(minutes == time::span(candidate@.target.time, now@) / 60_000_000_000);
    let heard = match candidate.freshness {
        ReceptionFreshness::Hot => text::owned("heard in the last 45 seconds"),
        ReceptionFreshness::Warm => text::owned("heard in the last 2 minutes"),
        ReceptionFreshness::Fading => {
            let mut out = text::owned("last heard ");
            numbers::push_decimal(
                &mut out,
                if minutes > 2 {
                    minutes
                } else {
                    2
                },
            );
            text::push_text(&mut out, " minutes ago");
            out
        },
    };
    let mut r: Vec<String> = Vec::new();
    r.push(heard);
    if nearby {
        let mut sites = text::owned("heard by ");
        numbers::push_decimal(&mut sites, candidate.target.site_count as u64);
        text::push_text(&mut sites, " nearby site");
        text::push_text(
            &mut sites,
            if candidate.target.site_count == 1 {
                ""
            } else {
                "s"
            },
        );
        r.push(sites);
    }
    r.push(
        text::owned(
            match candidate.certainty {
                MultiplierCertainty::Verified => "multiplier copied in this contest",
                MultiplierCertainty::Declared => "current-contest declaration",
                MultiplierCertainty::History => "call history estimate",
                MultiplierCertainty::Callbook => "QRZ callbook estimate",
                MultiplierCertainty::Prefix => "callsign prefix guess",
            },
        ),
    );
    assert(text::texts(r@) =~= reasons(candidate@, nearby, now@));
    r
}

/// The reception counts: it is neither in the future nor too long ago.
pub open spec fn current(t: TargetModel, now: Instant) -> bool {
    0 <= time::span(t.time, now) <= TACTICAL_TTL
}

/// Every target of a group was heard in time.
pub open spec fn all_current(t: Seq<RankedModel>, now: Instant) -> bool {
    forall|i: int| 0 <= i < t.len() ==> current((#[trigger] t[i]).target, now)
}

fn make_opportunity(
    band: Band,
    row: &MultiplierRow,
    group: &Group,
    now: Timestamp,
    nearby: bool,
) -> (r: MultOpportunity)
    requires
        group@.len() > 0,
        all_current(group@, now@),
    ensures
        r@ == opportunity(band, row@, group@, now@, nearby),
{
    let ghost models = group@;
    let mut ranks: Vec<Vec<RankPart>> = Vec::new();
    let mut i: usize = 0;
    while i < group.targets.len()
        invariant
            i <= group.targets@.len(),
            models == group@,
            models.len() == group.targets@.len(),
            all_current(models, now@),
            ranks@.len() == i,
            forall|j: int|
                0 <= j < i ==> sort::rank_model((#[trigger] ranks@[j])@) == target_rank(
                    models[j],
                    now@,
                ),
        decreases group.targets.len() - i,
    {
        assert(models[i as int] == group.targets@[i as int]@);
        ranks.push(rank_target(&group.targets[i], now));
        i = i + 1;
    }
    assert(sort::ranked(sort::rank_models(ranks@), models) =~= with_ranks(models, now@));
    let sorted = sort::sort_by(ranks, string_map::copy_all(&group.targets));
    let ghost best = sort::sorted(with_ranks(models, now@));
    proof {
        sort::lemma_sorted(with_ranks(models, now@));
        sort::lemma_sorted_member(with_ranks(models, now@), 0);
        assert(string_map::views(sorted@)[0] == best[0].1);
    }
    let primary = &sorted[0];
    let mut alternates: Vec<MultTarget> = Vec::new();
    let mut k: usize = 1;
    while k < sorted.len()
        invariant
            1 <= k <= sorted@.len(),
            best.len() == sorted@.len(),
            string_map::views(sorted@) == sort::unranked(best),
            alternates@.len() == k - 1,
            forall|j: int|
                0 <= j < k - 1 ==> (#[trigger] alternates@[j])@ == best[j + 1].1.target,
        decreases sorted.len() - k,
    {
        assert(string_map::views(sorted@)[k as int] == best[k as int].1);
        let copy = sorted[k].target.duplicate();
        alternates.push(copy);
        k = k + 1;
    }
    let r = MultOpportunity {
        band,
        multiplier_id: text::owned(row.id),
        multiplier_code: text::owned(row.code),
        multiplier_name: text::owned(row.display_name),
        certainty: primary.certainty,
        freshness: primary.freshness,
        evidence_value: text::copy_opt(&primary.evidence_value),
        evidence_conflict: primary.evidence_conflict,
        primary: primary.target.duplicate(),
        alternates,
        rank_reasons: rank_reasons(primary, nearby, now),
    };
    assert(r@ =~= opportunity(band, row@, models, now@, nearby));
    r
}

/// A group has targets, all of them heard in time, and stands under the identifier of a row.
pub proof fn lemma_groups(
    spots: Seq<SpotModel>,
    rows: Seq<RowModel>,
    locations: Seq<(Seq<char>, ConclusionModel)>,
    now: Instant,
    nearby: bool,
    band: Band,
)
    ensures
        string_map::ordered(grouped(spots, rows, locations, now, nearby, band)),
        forall|i: int|
            0 <= i < grouped(spots, rows, locations, now, nearby, band).len() ==> {
                let g = #[trigger] grouped(spots, rows, locations, now, nearby, band)[i];
                g.1.len() > 0 && all_current(g.1, now) && 0 <= row_position(rows, g.0) < rows.len()
                    && !rows[row_position(rows, g.0)].worked_bands.contains(band)
            },
    decreases spots.len(),
{
    if spots.len() > 0 {
        let front = spots.drop_last();
        lemma_groups(front, rows, locations, now, nearby, band);
        let before = grouped(front, rows, locations, now, nearby, band);
        let s = spots.last();
        if let Some(row) = offers(s, rows, now, nearby) {
            if s.band == band {
                let id = s.predicted_multiplier->0;
                lemma_row_position(rows, id);
                assert(row.id == id);
                let old_targets = targets_at(before, row.id);
                let v = old_targets.push(ranked_of(s, locations, now, nearby));
                string_map::lemma_inserted(before, row.id, v);
                string_map::lemma_slot_splits(before, row.id);
                let p = string_map::slot(before, row.id);
                let r = string_map::inserted(before, row.id, v);
                assert(all_current(old_targets, now)) by {
                    if string_map::has_key(before, row.id) {
                        assert(before[p].1 == old_targets);
                    }
                }
                assert(all_current(v, now));
                assert forall|i: int| 0 <= i < r.len() implies ({
                    let g = #[trigger] r[i];
                    g.1.len() > 0 && all_current(g.1, now) && 0 <= row_position(rows, g.0)
                        < rows.len() && !rows[row_position(rows, g.0)].worked_bands.contains(band)
                }) by {
                    if i < p {
                        assert(r[i] == before[i]);
                    } else if i > p {
                        if r.len() == before.len() {
                            assert(r[i] == before[i]);
                        } else {
                            assert(r[i] == before[i - 1]);
                        }
                    }
                }
            }
        }
    }
}

fn push_band(
    out: &mut Vec<MultOpportunity>,
    spots: &Vec<Spot>,
    rows: &Vec<MultiplierRow>,
    locations: &StringMap<LocationConclusion>,
    now: Timestamp,
    nearby: bool,
    band: Band,
)
    ensures
        string_map::views(final(out)@) == string_map::views(old(out)@) + on_band(
            string_map::views(spots@),
            string_map::views(rows@),
            locations@,
            now@,
            nearby,
            band,
        ),
{
    let ghost start = string_map::views(out@);
    let ghost models = string_map::views(rows@);
    let groups = group(spots, rows, locations, now, nearby, band);
    let ghost all = on_band(string_map::views(spots@), models, locations@, now@, nearby, band);
    proof {
        lemma_groups(string_map::views(spots@), models, locations@, now@, nearby, band);
    }
    let mut i: usize = 0;
    assert(start + all.take(0) =~= start);
    while i < groups.len()
        invariant
            i <= groups@.len(),
            models == string_map::views(rows@),
            groups@ == grouped(string_map::views(spots@), models, locations@, now@, nearby, band),
            all == on_band(string_map::views(spots@), models, locations@, now@, nearby, band),
            forall|j: int|
                0 <= j < groups@.len() ==> {
                    let g = #[trigger] groups@[j];
                    g.1.len() > 0 && all_current(g.1, now@) && 0 <= row_position(models, g.0)
                        < models.len()
                },
            string_map::views(out@) == start + all.take(i as int),
        decreases groups@.len() - i,
    {
        assert(groups@[i as int].1.len() > 0);
        if let Some(at) = find_row(rows, groups.key(i).as_str()) {
            let o = make_opportunity(band, &rows[at], groups.value(i), now, nearby);
            let ghost before = string_map::views(out@);
            let ghost added = o@;
            out.push(o);
            assert(string_map::views(out@) =~= before.push(added));
            assert(added == all[i as int]);
            assert(start + all.take(i + 1) =~= (start + all.take(i as int)).push(all[i as int]));
        }
        i = i + 1;
    }
    assert(all.take(all.len() as int) =~= all);
}

fn rank_opportunity(o: &MultOpportunity, current_band: Option<Band>, now: Timestamp) -> (r: Vec<
    RankPart,
>)
    requires
        time::span(o@.primary.time, now@) >= 0,
    ensures
        sort::rank_model(r@) == opportunity_rank(o@, current_band, now@),
{
    let age = now.since(o.primary.time);
    let elsewhere = match current_band {
        Some(b) => o.band != b,
        None => false,
    };
    let sites: i128 = -(o.primary.site_count as i128);
    let strength: i128 = -strength_of(o.primary.snr_db);
    let reports: i128 = -(o.primary.reports as i128);
    let r = vec![
        RankPart::Number(
            if elsewhere {
                1
            } else {
                0
            },
        ),
        RankPart::Number(freshness_priority(o.freshness) as i128),
        RankPart::Number(certainty_priority(o.certainty) as i128),
        RankPart::Number(sites),
        RankPart::Number(strength),
        RankPart::Number(reports),
        RankPart::Number(whole_seconds(age)),
        RankPart::Text(o.multiplier_code.clone()),
        RankPart::Text(o.primary.call.clone()),
    ];
    assert(sort::rank_model(r@) =~= opportunity_rank(o@, current_band, now@));
    r
}

/// An opportunity is for a row that is not worked on its band, and its target was heard in time.
pub open spec fn worthwhile(o: OpportunityModel, rows: Seq<RowModel>, now: Instant) -> bool {
    &&& current(o.primary, now)
    &&& forall|i: int| 0 <= i < o.alternates.len() ==> current(#[trigger] o.alternates[i], now)
    &&& 0 <= row_position(rows, o.multiplier_id) < rows.len()
    &&& !rows[row_position(rows, o.multiplier_id)].worked_bands.contains(o.band)
}

proof fn lemma_on_bands(
    spots: Seq<SpotModel>,
    rows: Seq<RowModel>,
    locations: Seq<(Seq<char>, ConclusionModel)>,
    now: Instant,
    nearby: bool,
    bands: Seq<Band>,
)
    ensures
        forall|i: int|
            0 <= i < on_bands(spots, rows, locations, now, nearby, bands).len() ==> {
                let o = #[trigger] on_bands(spots, rows, locations, now, nearby, bands)[i];
                worthwhile(o, rows, now) && bands.contains(o.band)
            },
        bands.no_duplicates() ==> forall|i: int, j: int|
            0 <= i < j < on_bands(spots, rows, locations, now, nearby, bands).len()
                ==> different_multipliers(
                #[trigger] on_bands(spots, rows, locations, now, nearby, bands)[i],
                #[trigger] on_bands(spots, rows, locations, now, nearby, bands)[j],
            ),
    decreases bands.len(),
{
    if bands.len() > 0 {
        let band = bands.last();
        let front = on_bands(spots, rows, locations, now, nearby, bands.drop_last());
        lemma_on_bands(spots, rows, locations, now, nearby, bands.drop_last());
        lemma_groups(spots, rows, locations, now, nearby, band);
        let groups = grouped(spots, rows, locations, now, nearby, band);
        let r = on_bands(spots, rows, locations, now, nearby, bands);
        let last = on_band(spots, rows, locations, now, nearby, band);
        assert forall|i: int| 0 <= i < r.len() implies worthwhile(#[trigger] r[i], rows, now)
            && bands.contains(r[i].band) by {
            if i < front.len() {
                assert(r[i] == front[i]);
                let k = choose|k: int|
                    0 <= k < bands.drop_last().len() && bands.drop_last()[k] == r[i].band;
                assert(bands[k] == r[i].band);
            } else {
                let g = groups[i - front.len()];
                assert(r[i] == last[i - front.len()]);
                assert(bands[bands.len() - 1] == band);
                lemma_row_position(rows, g.0);
                lemma_opportunity(band, rows[row_position(rows, g.0)], g.1, now, nearby);
            }
        }
        if bands.no_duplicates() {
            assert(bands.drop_last().no_duplicates());
            assert forall|i: int, j: int| 0 <= i < j < r.len() implies different_multipliers(
                #[trigger] r[i],
                #[trigger] r[j],
            ) by {
                if j < front.len() {
                    assert(r[i] == front[i] && r[j] == front[j]);
                } else if i < front.len() {
                    assert(r[i] == front[i] && r[j] == last[j - front.len()]);
                    assert(r[j].band == band);
                    if r[i].band == band {
                        let k = choose|k: int|
                            0 <= k < bands.drop_last().len() && bands.drop_last()[k] == band;
                        assert(bands[k] == bands[bands.len() - 1]);
                    }
                } else {
                    let a = i - front.len();
                    let b = j - front.len();
                    assert(r[i] == last[a] && r[j] == last[b]);
                    lemma_row_position(rows, groups[a].0);
                    lemma_row_position(rows, groups[b].0);
                    assert(string_map::before(groups[a].0, groups[b].0));
                    string_map::lemma_before_irreflexive(groups[a].0);
                }
            }
        }
    }
}

/// The two opportunities are for different rows or on different bands.
pub open spec fn different_multipliers(a: OpportunityModel, b: OpportunityModel) -> bool {
    a.band != b.band || a.multiplier_id != b.multiplier_id
}

proof fn lemma_opportunity(
    band: Band,
    row: RowModel,
    targets: Seq<RankedModel>,
    now: Instant,
    nearby: bool,
)
    requires
        targets.len() > 0,
        all_current(targets, now),
    ensures
        current(opportunity(band, row, targets, now, nearby).primary, now),
        forall|i: int|
            0 <= i < opportunity(band, row, targets, now, nearby).alternates.len() ==> current(
                #[trigger] opportunity(band, row, targets, now, nearby).alternates[i],
                now,
            ),
{
    let w = with_ranks(targets, now);
    let best = sort::sorted(w);
    sort::lemma_sorted(w);
    assert forall|i: int| 0 <= i < best.len() implies current((#[trigger] best[i]).1.target, now) by {
        sort::lemma_sorted_member(w, i);
    }
    assert(current(best[0].1.target, now));
    assert forall|i: int| 0 <= i < best.len() - 1 implies current(
        #[trigger] opportunity(band, row, targets, now, nearby).alternates[i],
        now,
    ) by {
        assert(current(best[i + 1].1.target, now));
    }
}

/// Every opportunity is for a multiplier that is not worked on its band, on a station that was
/// heard in the last five minutes; no multiplier stands on a band twice; and they stand in the
/// order of their ranks: a better one never behind a worse one.
pub proof fn law_opportunities(
    rows: Seq<RowModel>,
    spots: Seq<SpotModel>,
    locations: Seq<(Seq<char>, ConclusionModel)>,
    current_band: Option<Band>,
    now: Instant,
    nearby: bool,
    i: int,
    j: int,
)
    requires
        0 <= i < j < opportunities_of(rows, spots, locations, current_band, now, nearby).len(),
    ensures
        ({
            let r = opportunities_of(rows, spots, locations, current_band, now, nearby);
            &&& worthwhile(r[i], rows, now)
            &&& worthwhile(r[j], rows, now)
            &&& different_multipliers(r[i], r[j])
            &&& !sort::below(
                opportunity_rank(r[j], current_band, now),
                opportunity_rank(r[i], current_band, now),
            )
        }),
{
    let all = on_bands(spots, rows, locations, now, nearby, model::all_bands());
    let w = with_order(all, current_band, now);
    let best = sort::sorted(w);
    lemma_on_bands(spots, rows, locations, now, nearby, model::all_bands());
    sort::lemma_sorted(w);
    assert(w.no_duplicates()) by {
        assert forall|a: int, b: int| 0 <= a < w.len() && 0 <= b < w.len() && a != b implies w[a]
            != w[b] by {
            if a < b {
                assert(different_multipliers(all[a], all[b]));
            } else {
                assert(different_multipliers(all[b], all[a]));
            }
        }
    }
    w.lemma_multiset_has_no_duplicates();
    best.lemma_multiset_has_no_duplicates_conv();
    sort::lemma_sorted_member(w, i);
    sort::lemma_sorted_member(w, j);
    let a = choose|a: int| 0 <= a < w.len() && #[trigger] w[a] == best[i];
    let b = choose|b: int| 0 <= b < w.len() && #[trigger] w[b] == best[j];
    assert(best[i] != best[j]);
    assert(a != b);
    if a < b {
        assert(different_multipliers(all[a], all[b]));
    } else {
        assert(different_multipliers(all[b], all[a]));
    }
    assert(worthwhile(all[a], rows, now) && worthwhile(all[b], rows, now));
    assert(!sort::below(best[j].0, best[i].0));
}

/// The spot would bring the row `id` anew on `band`.
pub open spec fn qualifies(
    s: SpotModel,
    rows: Seq<RowModel>,
    now: Instant,
    nearby: bool,
    band: Band,
    id: Seq<char>,
) -> bool {
    s.band == band && (offers(s, rows, now, nearby) matches Some(row) && row.id == id)
}

/// The targets that those of `spots` are that would bring the row `id` anew on `band`, each once and
/// in the order of the spots.
pub open spec fn targets_for(
    spots: Seq<SpotModel>,
    rows: Seq<RowModel>,
    locations: Seq<(Seq<char>, ConclusionModel)>,
    now: Instant,
    nearby: bool,
    band: Band,
    id: Seq<char>,
) -> Seq<RankedModel>
    decreases spots.len(),
{
    if spots.len() == 0 {
        Seq::empty()
    } else {
        let before = targets_for(spots.drop_last(), rows, locations, now, nearby, band, id);
        if qualifies(spots.last(), rows, now, nearby, band, id) {
            before.push(ranked_of(spots.last(), locations, now, nearby))
        } else {
            before
        }
    }
}

proof fn lemma_targets_for(
    spots: Seq<SpotModel>,
    rows: Seq<RowModel>,
    locations: Seq<(Seq<char>, ConclusionModel)>,
    now: Instant,
    nearby: bool,
    band: Band,
    id: Seq<char>,
)
    ensures
        string_map::lookup(grouped(spots, rows, locations, now, nearby, band), id) == ({
            let t = targets_for(spots, rows, locations, now, nearby, band, id);
            if t.len() == 0 {
                None
            } else {
                Some(t)
            }
        }),
    decreases spots.len(),
{
    if spots.len() == 0 {
        assert(!string_map::has_key(grouped(spots, rows, locations, now, nearby, band), id));
    } else {
        let front = spots.drop_last();
        let s = spots.last();
        let before = grouped(front, rows, locations, now, nearby, band);
        lemma_targets_for(front, rows, locations, now, nearby, band, id);
        lemma_groups(front, rows, locations, now, nearby, band);
        if let Some(row) = offers(s, rows, now, nearby) {
            if s.band == band {
                let v = targets_at(before, row.id).push(ranked_of(s, locations, now, nearby));
                string_map::lemma_inserted(before, row.id, v);
                if row.id == id {
                    let t = targets_for(front, rows, locations, now, nearby, band, id);
                    assert(targets_at(before, id) =~= t);
                } else {
                    assert(string_map::lookup(string_map::inserted(before, row.id, v), id)
                        == string_map::lookup(before, id));
                }
            }
        }
    }
}

proof fn lemma_target_of_spot(
    spots: Seq<SpotModel>,
    rows: Seq<RowModel>,
    locations: Seq<(Seq<char>, ConclusionModel)>,
    now: Instant,
    nearby: bool,
    band: Band,
    id: Seq<char>,
    k: int,
)
    requires
        0 <= k < spots.len(),
        qualifies(spots[k], rows, now, nearby, band, id),
    ensures
        exists|m: int|
            0 <= m < targets_for(spots, rows, locations, now, nearby, band, id).len()
                && #[trigger] targets_for(spots, rows, locations, now, nearby, band, id)[m]
                == ranked_of(spots[k], locations, now, nearby),
    decreases spots.len(),
{
    let t = targets_for(spots, rows, locations, now, nearby, band, id);
    let front = spots.drop_last();
    if k == spots.len() - 1 {
        assert(t[t.len() - 1] == ranked_of(spots[k], locations, now, nearby));
    } else {
        assert(front[k] == spots[k]);
        lemma_target_of_spot(front, rows, locations, now, nearby, band, id, k);
        let f = targets_for(front, rows, locations, now, nearby, band, id);
        let m = choose|m: int|
            0 <= m < f.len() && #[trigger] f[m] == ranked_of(spots[k], locations, now, nearby);
        assert(t[m] == f[m]);
    }
}

proof fn lemma_on_bands_holds(
    spots: Seq<SpotModel>,
    rows: Seq<RowModel>,
    locations: Seq<(Seq<char>, ConclusionModel)>,
    now: Instant,
    nearby: bool,
    bands: Seq<Band>,
    b: int,
    p: int,
)
    requires
        0 <= b < bands.len(),
        0 <= p < on_band(spots, rows, locations, now, nearby, bands[b]).len(),
    ensures
        exists|i: int|
            0 <= i < on_bands(spots, rows, locations, now, nearby, bands).len()
                && #[trigger] on_bands(spots, rows, locations, now, nearby, bands)[i] == on_band(
                spots,
                rows,
                locations,
                now,
                nearby,
                bands[b],
            )[p],
    decreases bands.len(),
{
    let front = on_bands(spots, rows, locations, now, nearby, bands.drop_last());
    let all = on_bands(spots, rows, locations, now, nearby, bands);
    let o = on_band(spots, rows, locations, now, nearby, bands[b])[p];
    if b == bands.len() - 1 {
        assert(all[front.len() + p] == o);
    } else {
        assert(bands.drop_last()[b] == bands[b]);
        lemma_on_bands_holds(spots, rows, locations, now, nearby, bands.drop_last(), b, p);
        let i = choose|i: int| 0 <= i < front.len() && #[trigger] front[i] == o;
        assert(all[i] == front[i]);
    }
}

proof fn lemma_on_bands_member(
    spots: Seq<SpotModel>,
    rows: Seq<RowModel>,
    locations: Seq<(Seq<char>, ConclusionModel)>,
    now: Instant,
    nearby: bool,
    bands: Seq<Band>,
    i: int,
)
    requires
        0 <= i < on_bands(spots, rows, locations, now, nearby, bands).len(),
    ensures
        ({
            let o = on_bands(spots, rows, locations, now, nearby, bands)[i];
            let t = targets_for(
                spots,
                rows,
                locations,
                now,
                nearby,
                o.band,
                o.multiplier_id,
            );
            t.len() > 0 && o == opportunity(
                o.band,
                rows[row_position(rows, o.multiplier_id)],
                t,
                now,
                nearby,
            )
        }),
    decreases bands.len(),
{
    let front = on_bands(spots, rows, locations, now, nearby, bands.drop_last());
    let all = on_bands(spots, rows, locations, now, nearby, bands);
    if i < front.len() {
        lemma_on_bands_member(spots, rows, locations, now, nearby, bands.drop_last(), i);
        assert(all[i] == front[i]);
    } else {
        let band = bands.last();
        let groups = grouped(spots, rows, locations, now, nearby, band);
        let g = groups[i - front.len()];
        lemma_groups(spots, rows, locations, now, nearby, band);
        lemma_row_position(rows, g.0);
        string_map::lemma_position(groups, i - front.len());
        lemma_targets_for(spots, rows, locations, now, nearby, band, g.0);
        assert(all[i] == on_band(spots, rows, locations, now, nearby, band)[i - front.len()]);
    }
}

/// The station is one that an opportunity names, first or behind.
pub open spec fn is_target(o: OpportunityModel, t: TargetModel) -> bool {
    o.primary == t || o.alternates.contains(t)
}

proof fn lemma_is_target(
    band: Band,
    row: RowModel,
    targets: Seq<RankedModel>,
    now: Instant,
    nearby: bool,
    m: int,
)
    requires
        0 <= m < targets.len(),
    ensures
        is_target(opportunity(band, row, targets, now, nearby), targets[m].target),
{
    let w = with_ranks(targets, now);
    let best = sort::sorted(w);
    let o = opportunity(band, row, targets, now, nearby);
    sort::lemma_sorted(w);
    sort::lemma_sorted_holds(w, m);
    let q = choose|q: int| 0 <= q < best.len() && #[trigger] best[q] == w[m];
    if q > 0 {
        assert(o.alternates[q - 1] == targets[m].target);
    }
}

/// An opportunity names the stations of exactly those spots that would bring its row anew on its
/// band, each spot once, and there is at least one.
pub proof fn law_opportunity_names_its_spots(
    rows: Seq<RowModel>,
    spots: Seq<SpotModel>,
    locations: Seq<(Seq<char>, ConclusionModel)>,
    current_band: Option<Band>,
    now: Instant,
    nearby: bool,
    j: int,
)
    requires
        0 <= j < opportunities_of(rows, spots, locations, current_band, now, nearby).len(),
    ensures
        ({
            let o = opportunities_of(rows, spots, locations, current_band, now, nearby)[j];
            let t = targets_for(
                spots,
                rows,
                locations,
                now,
                nearby,
                o.band,
                o.multiplier_id,
            );
            &&& t.len() > 0
            &&& o == opportunity(
                o.band,
                rows[row_position(rows, o.multiplier_id)],
                t,
                now,
                nearby,
            )
            &&& o.alternates.len() + 1 == t.len()
        }),
{
    let all = on_bands(spots, rows, locations, now, nearby, model::all_bands());
    let w = with_order(all, current_band, now);
    sort::lemma_sorted_member(w, j);
    let a = choose|a: int| 0 <= a < w.len() && #[trigger] w[a] == sort::sorted(w)[j];
    lemma_on_bands_member(spots, rows, locations, now, nearby, model::all_bands(), a);
    let o = all[a];
    sort::lemma_sorted(
        with_ranks(
            targets_for(spots, rows, locations, now, nearby, o.band, o.multiplier_id),
            now,
        ),
    );
}

/// The opportunity at `j` is for the row that the spot would bring, on its band, and names it.
pub open spec fn names_spot(
    r: Seq<OpportunityModel>,
    j: int,
    s: SpotModel,
    row: RowModel,
    nearby: bool,
) -> bool {
    &&& 0 <= j < r.len()
    &&& r[j].band == s.band
    &&& r[j].multiplier_id == row.id
    &&& is_target(r[j], target_of(s, nearby))
}

/// No spot that would bring a row anew is left out: it is a target of the one opportunity for that
/// row on its band.
pub proof fn law_every_spot_has_its_opportunity(
    rows: Seq<RowModel>,
    spots: Seq<SpotModel>,
    locations: Seq<(Seq<char>, ConclusionModel)>,
    current_band: Option<Band>,
    now: Instant,
    nearby: bool,
    k: int,
)
    requires
        0 <= k < spots.len(),
        offers(spots[k], rows, now, nearby) is Some,
    ensures
        ({
            let r = opportunities_of(rows, spots, locations, current_band, now, nearby);
            let s = spots[k];
            let row = offers(s, rows, now, nearby)->0;
            &&& exists|j: int| #[trigger] names_spot(r, j, s, row, nearby)
            &&& forall|i: int, j: int|
                #![trigger r[i], r[j]]
                0 <= i < r.len() && 0 <= j < r.len() && r[i].band == s.band && r[j].band == s.band
                    && r[i].multiplier_id == row.id && r[j].multiplier_id == row.id ==> i == j
        }),
{
    let r = opportunities_of(rows, spots, locations, current_band, now, nearby);
    let s = spots[k];
    let row = offers(s, rows, now, nearby)->0;
    let band = s.band;
    let id = row.id;
    let groups = grouped(spots, rows, locations, now, nearby, band);
    let t = targets_for(spots, rows, locations, now, nearby, band, id);
    lemma_target_of_spot(spots, rows, locations, now, nearby, band, id, k);
    let m = choose|m: int|
        0 <= m < t.len() && #[trigger] t[m] == ranked_of(s, locations, now, nearby);
    lemma_targets_for(spots, rows, locations, now, nearby, band, id);
    lemma_groups(spots, rows, locations, now, nearby, band);
    string_map::lemma_slot_splits(groups, id);
    let p = string_map::slot(groups, id);
    lemma_row_position(rows, id);
    assert(groups[p].0 == id && groups[p].1 == t);
    let o = on_band(spots, rows, locations, now, nearby, band)[p];
    let at = rows[row_position(rows, id)];
    assert(o == opportunity(band, at, t, now, nearby));
    lemma_is_target(band, at, t, now, nearby, m);
    assert(model::all_bands()[band.place()] == band);
    lemma_on_bands_holds(
        spots,
        rows,
        locations,
        now,
        nearby,
        model::all_bands(),
        band.place(),
        p,
    );
    let all = on_bands(spots, rows, locations, now, nearby, model::all_bands());
    let w = with_order(all, current_band, now);
    let i = choose|i: int| 0 <= i < all.len() && #[trigger] all[i] == o;
    sort::lemma_sorted_holds(w, i);
    let j = choose|j: int| 0 <= j < sort::sorted(w).len() && #[trigger] sort::sorted(w)[j] == w[i];
    assert(r[j] == o);
    assert(names_spot(r, j, s, row, nearby));
    assert forall|a: int, b: int|
        #![trigger r[a], r[b]]
        0 <= a < r.len() && 0 <= b < r.len() && r[a].band == s.band && r[b].band == s.band
            && r[a].multiplier_id == row.id && r[b].multiplier_id == row.id implies a == b by {
        if a < b {
            law_opportunities(rows, spots, locations, current_band, now, nearby, a, b);
        } else if b < a {
            law_opportunities(rows, spots, locations, current_band, now, nearby, b, a);
        }
    }
}

/// The first target of an opportunity ranks no worse than any of the others.
pub proof fn law_primary_is_best(
    band: Band,
    row: RowModel,
    targets: Seq<RankedModel>,
    now: Instant,
    nearby: bool,
    i: int,
)
    requires
        0 <= i < targets.len(),
    ensures
        opportunity(band, row, targets, now, nearby).alternates.len() == targets.len() - 1,
        exists|k: int|
            0 <= k < targets.len() && (#[trigger] targets[k]).target == opportunity(
                band,
                row,
                targets,
                now,
                nearby,
            ).primary && !sort::below(target_rank(targets[i], now), target_rank(targets[k], now)),
{
    let w = with_ranks(targets, now);
    let best = sort::sorted(w);
    sort::lemma_sorted(w);
    sort::lemma_sorted_member(w, 0);
    let k = choose|k: int| 0 <= k < w.len() && #[trigger] w[k] == best[0];
    sort::lemma_sorted_holds(w, i);
    let m = choose|m: int| 0 <= m < best.len() && #[trigger] best[m] == w[i];
    if m > 0 {
        assert(!sort::below(best[m].0, best[0].0));
    } else {
        sort::lemma_below_irreflexive(best[0].0);
    }
    assert(targets[k] == w[k].1);
}

/// The opportunities that the spots offer, the most promising first.
pub fn opportunities(
    score: &Score,
    spots: &Vec<Spot>,
    locations: &StringMap<LocationConclusion>,
    current_band: Option<Band>,
    now: Timestamp,
    nearby: bool,
) -> (r: Vec<MultOpportunity>)
    ensures
        string_map::views(r@) == opportunities_of(
            score@.multiplier_rows,
            string_map::views(spots@),
            locations@,
            current_band,
            now@,
            nearby,
        ),
{
    let ghost rows = score@.multiplier_rows;
    let ghost seen = string_map::views(spots@);
    let bands = Band::all();
    let mut found: Vec<MultOpportunity> = Vec::new();
    let mut i: usize = 0;
    assert(model::all_bands().take(0) =~= Seq::empty());
    assert(string_map::views(found@) =~= on_bands(
        seen,
        rows,
        locations@,
        now@,
        nearby,
        model::all_bands().take(0),
    ));
    while i < bands.len()
        invariant
            i <= bands@.len(),
            bands@ == model::all_bands(),
            rows == string_map::views(score.multiplier_rows@),
            seen == string_map::views(spots@),
            string_map::views(found@) == on_bands(
                seen,
                rows,
                locations@,
                now@,
                nearby,
                model::all_bands().take(i as int),
            ),
        decreases bands.len() - i,
    {
        assert(model::all_bands().take(i + 1).drop_last() =~= model::all_bands().take(i as int));
        assert(model::all_bands().take(i + 1).last() == bands@[i as int]);
        push_band(
            &mut found,
            spots,
            &score.multiplier_rows,
            locations,
            now,
            nearby,
            bands[i],
        );
        i = i + 1;
    }
    assert(model::all_bands().take(bands@.len() as int) =~= model::all_bands());
    let ghost all = string_map::views(found@);
    proof {
        lemma_on_bands(seen, rows, locations@, now@, nearby, model::all_bands());
    }
    let mut ranks: Vec<Vec<RankPart>> = Vec::new();
    let mut k: usize = 0;
    while k < found.len()
        invariant
            k <= found@.len(),
            all == string_map::views(found@),
            forall|j: int| 0 <= j < all.len() ==> time::span(
                (#[trigger] all[j]).primary.time,
                now@,
            ) >= 0,
            ranks@.len() == k,
            forall|j: int|
                0 <= j < k ==> sort::rank_model((#[trigger] ranks@[j])@) == opportunity_rank(
                    all[j],
                    current_band,
                    now@,
                ),
        decreases found.len() - k,
    {
        assert(all[k as int] == found@[k as int]@);
        ranks.push(rank_opportunity(&found[k], current_band, now));
        k = k + 1;
    }
    assert(sort::ranked(sort::rank_models(ranks@), all) =~= with_order(all, current_band, now@));
    sort::sort_by(ranks, found)
}

// ---------------------------------------------------------------------------------------------
// Which station and which multiplier come first
// ---------------------------------------------------------------------------------------------
/// `a` was heard more recently than `b`.
pub open spec fn fresher(a: ReceptionFreshness, b: ReceptionFreshness) -> bool {
    ||| a == ReceptionFreshness::Hot && b != ReceptionFreshness::Hot
    ||| a == ReceptionFreshness::Warm && b == ReceptionFreshness::Fading
}

/// `a` is surer than `b`: what was copied before what was declared, that before call history, that
/// before the callbook and that before a prefix.
pub open spec fn surer(a: MultiplierCertainty, b: MultiplierCertainty) -> bool {
    match a {
        MultiplierCertainty::Verified => b != MultiplierCertainty::Verified,
        MultiplierCertainty::Declared => b != MultiplierCertainty::Verified && b
            != MultiplierCertainty::Declared,
        MultiplierCertainty::History => b == MultiplierCertainty::Callbook || b
            == MultiplierCertainty::Prefix,
        MultiplierCertainty::Callbook => b == MultiplierCertainty::Prefix,
        MultiplierCertainty::Prefix => false,
    }
}

/// `a` is at least as strong as `b`; a strength that is missing is weaker than every other, and as
/// weak as the weakest there can be.
pub open spec fn no_weaker(a: Option<i16>, b: Option<i16>) -> bool {
    match (a, b) {
        (_, None) => true,
        (Some(x), Some(y)) => x >= y,
        (None, Some(y)) => y == -32768,
    }
}

/// The station `a` comes before `b`, or may: it is the fresher, then the surer, then heard at more
/// sites, then the stronger, then the more often reported, then the younger one by whole seconds,
/// then the one whose callsign comes first, then the one that is lower.
pub open spec fn may_precede(a: RankedModel, b: RankedModel, now: Instant) -> bool {
    let younger = time::span(a.target.time, now) / 1_000_000_000;
    let older = time::span(b.target.time, now) / 1_000_000_000;
    &&& !fresher(b.freshness, a.freshness)
    &&& a.freshness == b.freshness ==> {
        &&& !surer(b.certainty, a.certainty)
        &&& a.certainty == b.certainty ==> {
            &&& a.target.site_count >= b.target.site_count
            &&& a.target.site_count == b.target.site_count ==> {
                &&& no_weaker(a.target.snr_db, b.target.snr_db)
                &&& no_weaker(b.target.snr_db, a.target.snr_db) ==> {
                    &&& a.target.reports >= b.target.reports
                    &&& a.target.reports == b.target.reports ==> {
                        &&& younger <= older
                        &&& younger == older ==> {
                            &&& !string_map::before(b.target.call, a.target.call)
                            &&& a.target.call == b.target.call ==> a.target.frequency.tenths()
                                <= b.target.frequency.tenths()
                        }
                    }
                }
            }
        }
    }
}

proof fn lemma_may_precede(a: RankedModel, b: RankedModel, now: Instant)
    requires
        !sort::below(target_rank(b, now), target_rank(a, now)),
    ensures
        may_precede(a, b, now),
{
    let x = target_rank(a, now);
    let y = target_rank(b, now);
    sort::lemma_first_difference(x, y, 0);
    if a.freshness == b.freshness {
        assert(x[0] == y[0]);
        sort::lemma_first_difference(x, y, 1);
        if a.certainty == b.certainty {
            assert(x[1] == y[1]);
            sort::lemma_first_difference(x, y, 2);
            if a.target.site_count == b.target.site_count {
                assert(x[2] == y[2]);
                sort::lemma_first_difference(x, y, 3);
                if no_weaker(b.target.snr_db, a.target.snr_db) {
                    assert(strength(a.target.snr_db) == strength(b.target.snr_db));
                    assert(x[3] == y[3]);
                    sort::lemma_first_difference(x, y, 4);
                    if a.target.reports == b.target.reports {
                        assert(x[4] == y[4]);
                        sort::lemma_first_difference(x, y, 5);
                        if time::span(a.target.time, now) / 1_000_000_000 == time::span(
                            b.target.time,
                            now,
                        ) / 1_000_000_000 {
                            assert(x[5] == y[5]);
                            sort::lemma_first_difference(x, y, 6);
                            if a.target.call == b.target.call {
                                assert(x[6] == y[6]);
                                sort::lemma_first_difference(x, y, 7);
                            }
                        }
                    }
                }
            }
        }
    }
}

/// The stations of an opportunity, the first to call first.
pub open spec fn stations(o: OpportunityModel) -> Seq<TargetModel> {
    seq![o.primary] + o.alternates
}

/// The stations of an opportunity stand in the order in which to call them: of any two the one that
/// stands first is the fresher, or as fresh and the surer, or as sure and heard at more sites, or at
/// as many and the stronger, and so on. The first is the one whose certainty, freshness and evidence
/// the opportunity shows.
pub proof fn law_best_station_comes_first(
    rows: Seq<RowModel>,
    spots: Seq<SpotModel>,
    locations: Seq<(Seq<char>, ConclusionModel)>,
    current_band: Option<Band>,
    now: Instant,
    nearby: bool,
    j: int,
    x: int,
    y: int,
)
    requires
        0 <= j < opportunities_of(rows, spots, locations, current_band, now, nearby).len(),
        0 <= x < y < stations(
            opportunities_of(rows, spots, locations, current_band, now, nearby)[j],
        ).len(),
    ensures
        ({
            let o = opportunities_of(rows, spots, locations, current_band, now, nearby)[j];
            exists|p: int, k: int|
                #![trigger spots[p], spots[k]]
                0 <= p < spots.len() && 0 <= k < spots.len() && may_precede(
                    ranked_of(spots[p], locations, now, nearby),
                    ranked_of(spots[k], locations, now, nearby),
                    now,
                ) && ranked_of(spots[p], locations, now, nearby).target == stations(o)[x]
                    && ranked_of(spots[k], locations, now, nearby).target == stations(o)[y] && (x
                    == 0 ==> o.certainty == ranked_of(spots[p], locations, now, nearby).certainty
                    && o.freshness == ranked_of(spots[p], locations, now, nearby).freshness)
        }),
{
    let o = opportunities_of(rows, spots, locations, current_band, now, nearby)[j];
    law_opportunity_names_its_spots(rows, spots, locations, current_band, now, nearby, j);
    let t = targets_for(spots, rows, locations, now, nearby, o.band, o.multiplier_id);
    let w = with_ranks(t, now);
    let best = sort::sorted(w);
    sort::lemma_sorted(w);
    sort::lemma_sorted_member(w, x);
    sort::lemma_sorted_member(w, y);
    let a = choose|a: int| 0 <= a < w.len() && #[trigger] w[a] == best[x];
    let b = choose|b: int| 0 <= b < w.len() && #[trigger] w[b] == best[y];
    assert(best[x] == (target_rank(t[a], now), t[a]));
    assert(best[y] == (target_rank(t[b], now), t[b]));
    assert(!sort::below(best[y].0, best[x].0));
    lemma_may_precede(t[a], t[b], now);
    assert(stations(o)[x] == best[x].1.target);
    assert(stations(o)[y] == best[y].1.target);
    let p = lemma_spot_of_target(
        spots,
        rows,
        locations,
        now,
        nearby,
        o.band,
        o.multiplier_id,
        a,
    );
    let k = lemma_spot_of_target(
        spots,
        rows,
        locations,
        now,
        nearby,
        o.band,
        o.multiplier_id,
        b,
    );
    assert(spots[p] == spots[p] && spots[k] == spots[k]);
}

proof fn lemma_spot_of_target(
    spots: Seq<SpotModel>,
    rows: Seq<RowModel>,
    locations: Seq<(Seq<char>, ConclusionModel)>,
    now: Instant,
    nearby: bool,
    band: Band,
    id: Seq<char>,
    m: int,
) -> (k: int)
    requires
        0 <= m < targets_for(spots, rows, locations, now, nearby, band, id).len(),
    ensures
        0 <= k < spots.len(),
        qualifies(spots[k], rows, now, nearby, band, id),
        targets_for(spots, rows, locations, now, nearby, band, id)[m] == ranked_of(
            spots[k],
            locations,
            now,
            nearby,
        ),
    decreases spots.len(),
{
    let front = spots.drop_last();
    let f = targets_for(front, rows, locations, now, nearby, band, id);
    if m < f.len() {
        let k = lemma_spot_of_target(front, rows, locations, now, nearby, band, id, m);
        assert(front[k] == spots[k]);
        k
    } else {
        spots.len() - 1
    }
}

/// Of two stations of an opportunity that were heard as recently, are as sure and were heard at as
/// many sites, the one that stands first is at least as strong.
pub proof fn law_stronger_station_comes_first(
    band: Band,
    row: RowModel,
    targets: Seq<RankedModel>,
    now: Instant,
    nearby: bool,
    y: int,
)
    requires
        0 < y < targets.len(),
        forall|i: int, k: int|
            0 <= i < targets.len() && 0 <= k < targets.len() ==> (#[trigger] targets[i]).freshness
                == (#[trigger] targets[k]).freshness && targets[i].certainty == targets[k].certainty
                && targets[i].target.site_count == targets[k].target.site_count,
    ensures
        ({
            let o = opportunity(band, row, targets, now, nearby);
            match (o.primary.snr_db, o.alternates[y - 1].snr_db) {
                (_, None) => true,
                (Some(first), Some(other)) => first >= other,
                (None, Some(other)) => other == -32768,
            }
        }),
{
    let w = with_ranks(targets, now);
    let best = sort::sorted(w);
    sort::lemma_sorted(w);
    sort::lemma_sorted_member(w, 0);
    sort::lemma_sorted_member(w, y);
    let a = choose|a: int| 0 <= a < w.len() && #[trigger] w[a] == best[0];
    let b = choose|b: int| 0 <= b < w.len() && #[trigger] w[b] == best[y];
    assert(best[0] == (target_rank(targets[a], now), targets[a]));
    assert(best[y] == (target_rank(targets[b], now), targets[b]));
    assert(!sort::below(best[y].0, best[0].0));
    lemma_may_precede(targets[a], targets[b], now);
    assert(targets[a].freshness == targets[b].freshness);
}

/// The opportunity is on the band in use, or none is in use.
pub open spec fn at_hand(o: OpportunityModel, current_band: Option<Band>) -> bool {
    current_band matches Some(b) ==> o.band == b
}

/// The opportunity `a` comes before `b`, or may: it is on the band in use, then the fresher, then the
/// surer, then heard at more sites, then the stronger, the more often reported, the younger one by
/// whole seconds, then the one whose code and then whose callsign comes first.
pub open spec fn may_come_first(
    a: OpportunityModel,
    b: OpportunityModel,
    current_band: Option<Band>,
    now: Instant,
) -> bool {
    let younger = time::span(a.primary.time, now) / 1_000_000_000;
    let older = time::span(b.primary.time, now) / 1_000_000_000;
    &&& at_hand(b, current_band) ==> at_hand(a, current_band)
    &&& at_hand(a, current_band) == at_hand(b, current_band) ==> {
        &&& !fresher(b.freshness, a.freshness)
        &&& a.freshness == b.freshness ==> {
            &&& !surer(b.certainty, a.certainty)
            &&& a.certainty == b.certainty ==> {
                &&& a.primary.site_count >= b.primary.site_count
                &&& a.primary.site_count == b.primary.site_count ==> {
                    &&& no_weaker(a.primary.snr_db, b.primary.snr_db)
                    &&& no_weaker(b.primary.snr_db, a.primary.snr_db) ==> {
                        &&& a.primary.reports >= b.primary.reports
                        &&& a.primary.reports == b.primary.reports ==> {
                            &&& younger <= older
                            &&& younger == older ==> {
                                &&& !string_map::before(b.multiplier_code, a.multiplier_code)
                                &&& a.multiplier_code == b.multiplier_code ==> !string_map::before(
                                    b.primary.call,
                                    a.primary.call,
                                )
                            }
                        }
                    }
                }
            }
        }
    }
}

/// The opportunities stand in the order in which to take them.
pub proof fn law_best_opportunity_comes_first(
    rows: Seq<RowModel>,
    spots: Seq<SpotModel>,
    locations: Seq<(Seq<char>, ConclusionModel)>,
    current_band: Option<Band>,
    now: Instant,
    nearby: bool,
    i: int,
    j: int,
)
    requires
        0 <= i < j < opportunities_of(rows, spots, locations, current_band, now, nearby).len(),
    ensures
        may_come_first(
            opportunities_of(rows, spots, locations, current_band, now, nearby)[i],
            opportunities_of(rows, spots, locations, current_band, now, nearby)[j],
            current_band,
            now,
        ),
{
    let r = opportunities_of(rows, spots, locations, current_band, now, nearby);
    law_opportunities(rows, spots, locations, current_band, now, nearby, i, j);
    let a = r[i];
    let b = r[j];
    let x = opportunity_rank(a, current_band, now);
    let y = opportunity_rank(b, current_band, now);
    sort::lemma_first_difference(x, y, 0);
    if at_hand(a, current_band) == at_hand(b, current_band) {
        assert(x[0] == y[0]);
        sort::lemma_first_difference(x, y, 1);
        if a.freshness == b.freshness {
            assert(x[1] == y[1]);
            sort::lemma_first_difference(x, y, 2);
            if a.certainty == b.certainty {
                assert(x[2] == y[2]);
                sort::lemma_first_difference(x, y, 3);
                if a.primary.site_count == b.primary.site_count {
                    assert(x[3] == y[3]);
                    sort::lemma_first_difference(x, y, 4);
                    if no_weaker(b.primary.snr_db, a.primary.snr_db) {
                        assert(strength(a.primary.snr_db) == strength(b.primary.snr_db));
                        assert(x[4] == y[4]);
                        sort::lemma_first_difference(x, y, 5);
                        if a.primary.reports == b.primary.reports {
                            assert(x[5] == y[5]);
                            sort::lemma_first_difference(x, y, 6);
                            if time::span(a.primary.time, now) / 1_000_000_000 == time::span(
                                b.primary.time,
                                now,
                            ) / 1_000_000_000 {
                                assert(x[6] == y[6]);
                                sort::lemma_first_difference(x, y, 7);
                                if a.multiplier_code == b.multiplier_code {
                                    assert(x[7] == y[7]);
                                    sort::lemma_first_difference(x, y, 8);
                                }
                            }
                        }
                    }
                }
            }
        }
    }
}

/// A spot brings a row exactly where it is up to date, was heard no later than now and no longer
/// than five minutes ago, is taken for a multiplier, verified or predicted, names a row that is not
/// worked on its band, and was heard nearby where that is asked for.
pub proof fn law_what_a_spot_brings(
    s: SpotModel,
    rows: Seq<RowModel>,
    now: Instant,
    nearby: bool,
    i: int,
)
    requires
        0 <= i < rows.len(),
        s.predicted_multiplier == Some(rows[i].id),
        forall|k: int| 0 <= k < rows.len() && (#[trigger] rows[k]).id == rows[i].id ==> k == i,
    ensures
        offers(s, rows, now, nearby) == if !s.stale && 0 <= time::span(s.time, now) <= 5 * 60
            * 1_000_000_000 && (s.class == SpotClass::VerifiedMultiplier || s.class
            == SpotClass::PredictedMultiplier) && !rows[i].worked_bands.contains(s.band) && (nearby
            ==> s.local_time is Some && s.local_spotters.len() > 0) {
            Some(rows[i])
        } else {
            None
        },
{
    lemma_row_position(rows, rows[i].id);
    lemma_row_found(rows, i);
}

proof fn lemma_row_found(rows: Seq<RowModel>, i: int)
    requires
        0 <= i < rows.len(),
    ensures
        row_position(rows, rows[i].id) <= i,
    decreases rows.len(),
{
    if rows[0].id != rows[i].id {
        let rest = rows.skip(1);
        assert(rest[i - 1] == rows[i]);
        lemma_row_found(rest, i - 1);
    }
}

/// A spot without a row that it is taken for, or whose row there is none of, brings nothing.
pub proof fn law_unknown_rows_bring_nothing(
    s: SpotModel,
    rows: Seq<RowModel>,
    now: Instant,
    nearby: bool,
)
    ensures
        s.predicted_multiplier is None ==> offers(s, rows, now, nearby) is None,
        (forall|k: int|
            0 <= k < rows.len() ==> Some((#[trigger] rows[k]).id) != s.predicted_multiplier)
            ==> offers(s, rows, now, nearby) is None,
        offers(s, rows, now, nearby) matches Some(row) ==> rows.contains(row) && Some(row.id)
            == s.predicted_multiplier && !row.worked_bands.contains(s.band),
{
    if let Some(id) = s.predicted_multiplier {
        lemma_row_position(rows, id);
        let p = row_position(rows, id);
        if p < rows.len() {
            assert(rows[p].id == id);
        }
    }
}

/// A station is shown as its spot has it: where skimmers nearby are asked for, with the strength, the
/// reports, the skimmers and the sites of those, else with those of all and no sites.
pub proof fn law_station_of_a_spot(
    s: SpotModel,
    locations: Seq<(Seq<char>, ConclusionModel)>,
    now: Instant,
)
    ensures
        ({
            let near = ranked_of(s, locations, now, true).target;
            let all = ranked_of(s, locations, now, false).target;
            &&& near.call == s.call && all.call == s.call
            &&& near.frequency == s.frequency && all.frequency == s.frequency
            &&& near.time == s.time && all.time == s.time
            &&& near.snr_db == s.local_snr_db && all.snr_db == s.snr_db
            &&& near.site_count == s.local_sites.len() && all.site_count == 0
            &&& near.skimmer_count == s.local_spotters.len() && all.skimmer_count
                == s.spotters.len()
            &&& near.reports == s.local_reports && all.reports == s.reports
            &&& near.nearest_site_km == s.nearest_local_km && all.nearest_site_km is None
        }),
{
}

/// A station heard in the last 45 seconds is hot, in the last two minutes warm, and else fading.
pub proof fn law_freshness_of_a_spot(
    s: SpotModel,
    locations: Seq<(Seq<char>, ConclusionModel)>,
    now: Instant,
    nearby: bool,
)
    ensures
        ({
            let f = ranked_of(s, locations, now, nearby).freshness;
            let age = time::span(s.time, now);
            &&& f == ReceptionFreshness::Hot <==> age <= 45 * 1_000_000_000
            &&& f == ReceptionFreshness::Fading <==> age > 2 * 60 * 1_000_000_000
        }),
{
}

/// How sure a station is follows from where it is known to be: verified, declared, from history, the
/// callbook or a prefix; where nothing is known, from whether its multiplier was copied.
pub proof fn law_certainty_of_a_spot(
    s: SpotModel,
    locations: Seq<(Seq<char>, ConclusionModel)>,
    now: Instant,
    nearby: bool,
    i: int,
    confidence: LocationConfidence,
)
    requires
        string_map::ordered(locations),
        0 <= i < locations.len(),
        locations[i].0 == model::normalized(s.call),
        locations[i].1.confidence == confidence.rank(),
    ensures
        ({
            let r = ranked_of(s, locations, now, nearby);
            &&& confidence == LocationConfidence::Verified ==> r.certainty
                == MultiplierCertainty::Verified
            &&& confidence == LocationConfidence::ContestDeclared ==> r.certainty
                == MultiplierCertainty::Declared
            &&& confidence == LocationConfidence::History ==> r.certainty
                == MultiplierCertainty::History
            &&& confidence == LocationConfidence::Callbook ==> r.certainty
                == MultiplierCertainty::Callbook
            &&& confidence == LocationConfidence::PrefixOnly ==> r.certainty
                == MultiplierCertainty::Prefix
            &&& confidence == LocationConfidence::Unknown ==> (r.certainty
                == MultiplierCertainty::Verified <==> s.class == SpotClass::VerifiedMultiplier)
            &&& confidence == LocationConfidence::Unknown && s.class
                != SpotClass::VerifiedMultiplier ==> r.certainty == MultiplierCertainty::Prefix
            &&& r.evidence_value == locations[i].1.value
            &&& r.evidence_conflict <==> locations[i].1.conflicts.len() > 0
        }),
{
    string_map::lemma_position(locations, i);
}

/// Of a station of which no location is known the multiplier is verified where it was copied, and
/// else a guess; nothing contradicts it.
pub proof fn law_station_without_location(
    s: SpotModel,
    locations: Seq<(Seq<char>, ConclusionModel)>,
    now: Instant,
    nearby: bool,
)
    requires
        forall|i: int|
            0 <= i < locations.len() ==> model::normalized((#[trigger] locations[i]).0)
                != model::normalized(s.call),
    ensures
        ({
            let r = ranked_of(s, locations, now, nearby);
            &&& r.certainty == if s.class == SpotClass::VerifiedMultiplier {
                MultiplierCertainty::Verified
            } else {
                MultiplierCertainty::Prefix
            }
            &&& r.evidence_value is None
            &&& !r.evidence_conflict
        }),
{
    model::law_callsigns(s.call, s.call);
    let c = model::normalized(s.call);
    if string_map::has_key(locations, c) {
        let i = choose|i: int| 0 <= i < locations.len() && #[trigger] locations[i].0 == c;
        assert(model::normalized(locations[i].0) == c);
    }
    lemma_no_equivalent(locations, s.call);
}

proof fn lemma_no_equivalent(locations: Seq<(Seq<char>, ConclusionModel)>, call: Seq<char>)
    requires
        forall|i: int|
            0 <= i < locations.len() ==> model::normalized((#[trigger] locations[i]).0)
                != model::normalized(call),
    ensures
        equivalent_location(locations, call) is None,
    decreases locations.len(),
{
    if locations.len() > 0 {
        let rest = locations.skip(1);
        assert forall|i: int| 0 <= i < rest.len() implies model::normalized((#[trigger] rest[i]).0)
            != model::normalized(call) by {
            assert(rest[i] == locations[i + 1]);
        }
        assert(model::normalized(locations[0].0) != model::normalized(call));
        lemma_no_equivalent(rest, call);
    }
}

/// An opportunity shows the row that it is for.
pub proof fn law_opportunity_shows_its_row(
    rows: Seq<RowModel>,
    spots: Seq<SpotModel>,
    locations: Seq<(Seq<char>, ConclusionModel)>,
    current_band: Option<Band>,
    now: Instant,
    nearby: bool,
    j: int,
)
    requires
        0 <= j < opportunities_of(rows, spots, locations, current_band, now, nearby).len(),
    ensures
        ({
            let o = opportunities_of(rows, spots, locations, current_band, now, nearby)[j];
            exists|k: int|
                0 <= k < rows.len() && (#[trigger] rows[k]).id == o.multiplier_id && rows[k].code
                    == o.multiplier_code && rows[k].display_name == o.multiplier_name
                    && !rows[k].worked_bands.contains(o.band)
        }),
{
    let o = opportunities_of(rows, spots, locations, current_band, now, nearby)[j];
    law_opportunity_names_its_spots(rows, spots, locations, current_band, now, nearby, j);
    let p = lemma_spot_of_target(
        spots,
        rows,
        locations,
        now,
        nearby,
        o.band,
        o.multiplier_id,
        0,
    );
    law_unknown_rows_bring_nothing(spots[p], rows, now, nearby);
    lemma_row_position(rows, o.multiplier_id);
    let k = row_position(rows, o.multiplier_id);
    assert(rows[k].id == o.multiplier_id);
}

/// The reasons of an opportunity tell when its first station was heard, at how many sites where
/// skimmers nearby are asked for, and how sure it is.
pub proof fn law_reasons_tell(t: RankedModel, now: Instant)
    ensures
        reasons(t, true, now).len() == 3,
        reasons(t, false, now).len() == 2,
        reasons(t, true, now)[0] == reasons(t, false, now)[0],
        reasons(t, true, now)[2] == reasons(t, false, now)[1],
        text::starts_with(
            reasons(t, true, now)[1],
            "heard by "@ + numbers::decimal(t.target.site_count) + " nearby site"@,
        ),
        t.freshness == ReceptionFreshness::Hot ==> reasons(t, false, now)[0]
            == "heard in the last 45 seconds"@,
        t.freshness == ReceptionFreshness::Warm ==> reasons(t, false, now)[0]
            == "heard in the last 2 minutes"@,
        t.freshness == ReceptionFreshness::Fading && time::span(t.target.time, now) >= 3 * 60
            * 1_000_000_000 ==> reasons(t, false, now)[0] == "last heard "@ + numbers::decimal(
            (time::span(t.target.time, now) / 1_000_000_000 / 60) as nat,
        ) + " minutes ago"@,
        t.freshness == ReceptionFreshness::Fading && time::span(t.target.time, now) < 3 * 60
            * 1_000_000_000 ==> reasons(t, false, now)[0] == "last heard "@ + numbers::decimal(2)
            + " minutes ago"@,
        t.certainty == MultiplierCertainty::Verified ==> reasons(t, false, now)[1]
            == "multiplier copied in this contest"@,
        t.certainty == MultiplierCertainty::Declared ==> reasons(t, false, now)[1]
            == "current-contest declaration"@,
        t.certainty == MultiplierCertainty::History ==> reasons(t, false, now)[1]
            == "call history estimate"@,
        t.certainty == MultiplierCertainty::Callbook ==> reasons(t, false, now)[1]
            == "QRZ callbook estimate"@,
        t.certainty == MultiplierCertainty::Prefix ==> reasons(t, false, now)[1]
            == "callsign prefix guess"@,
{
    let n = "heard by "@ + numbers::decimal(t.target.site_count) + " nearby site"@;
    let s = reasons(t, true, now)[1];
    assert(s.take(n.len() as int) =~= n);
    let g = time::span(t.target.time, now);
    assert(g / 60_000_000_000 == (g / 1_000_000_000) / 60);
}

/// A reception counts for five minutes, and not before it was made.
pub proof fn law_receptions_count_for_five_minutes(t: TargetModel, now: Instant)
    ensures
        current(t, now) <==> 0 <= time::span(t.time, now) <= 5 * 60 * 1_000_000_000,
{
}

/// The position of a row is the first at which its identifier stands; where it stands nowhere, it is
/// the number of rows.
pub proof fn law_first_row_of_an_identifier(rows: Seq<RowModel>, id: Seq<char>, k: int)
    ensures
        0 <= k < rows.len() && rows[k].id == id && (forall|i: int|
            0 <= i < k ==> (#[trigger] rows[i]).id != id) ==> row_position(rows, id) == k,
        (forall|i: int| 0 <= i < rows.len() ==> (#[trigger] rows[i]).id != id) ==> row_position(
            rows,
            id,
        ) == rows.len(),
    decreases rows.len(),
{
    if rows.len() > 0 {
        let rest = rows.skip(1);
        law_first_row_of_an_identifier(rest, id, k - 1);
        assert forall|i: int| 0 <= i < rest.len() implies #[trigger] rest[i] == rows[i + 1] by {}
        if 0 < k < rows.len() {
            assert(rest[k - 1] == rows[k]);
            if rows[0].id == id {
                assert(!(forall|i: int| 0 <= i < k ==> (#[trigger] rows[i]).id != id));
            }
        }
    }
}

proof fn lemma_equivalent_location(
    locations: Seq<(Seq<char>, ConclusionModel)>,
    call: Seq<char>,
    k: int,
)
    ensures
        0 <= k < locations.len() && model::normalized(locations[k].0) == model::normalized(call) && (
        forall|i: int|
            0 <= i < k ==> model::normalized((#[trigger] locations[i]).0) != model::normalized(call))
            ==> equivalent_location(locations, call) == Some(locations[k].1),
        (forall|i: int|
            0 <= i < locations.len() ==> model::normalized((#[trigger] locations[i]).0)
                != model::normalized(call)) ==> equivalent_location(locations, call) is None,
    decreases locations.len(),
{
    if locations.len() > 0 {
        let rest = locations.skip(1);
        lemma_equivalent_location(rest, call, k - 1);
        assert forall|i: int| 0 <= i < rest.len() implies #[trigger] rest[i] == locations[i + 1] by {
        }
        if 0 < k < locations.len() {
            assert(rest[k - 1] == locations[k]);
            if model::normalized(locations[0].0) == model::normalized(call) {
                assert(!(forall|i: int|
                    0 <= i < k ==> model::normalized((#[trigger] locations[i]).0)
                        != model::normalized(call)));
            }
        }
    }
}

/// What is known of where a station is stands under its callsign in normal form; where nothing does,
/// it is what stands first under another way to write it, and nothing where no callsign is written
/// another way.
pub proof fn law_location_of_a_station(
    locations: Seq<(Seq<char>, ConclusionModel)>,
    call: Seq<char>,
    k: int,
)
    ensures
        ({
            let exact = string_map::lookup(locations, model::normalized(call));
            let found = known_location(locations, call);
            &&& exact is Some ==> found == exact
            &&& exact is None && 0 <= k < locations.len() && model::normalized(locations[k].0)
                == model::normalized(call) && (forall|i: int|
                0 <= i < k ==> model::normalized((#[trigger] locations[i]).0) != model::normalized(
                    call,
                )) ==> found == Some(locations[k].1)
            &&& exact is None && (forall|i: int|
                0 <= i < locations.len() ==> model::normalized((#[trigger] locations[i]).0)
                    != model::normalized(call)) ==> found is None
        }),
{
    lemma_equivalent_location(locations, call, k);
}

} // verus!
