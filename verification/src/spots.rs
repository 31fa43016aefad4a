//! Spotted stations: what each would be worth, and how reports of one station are taken together.
use vstd::prelude::*;

use crate::log_source::Log;
use crate::model;
use crate::model::Band;
use crate::model::Qso;
use crate::model::QsoModel;
use crate::model::Spot;
use crate::model::SpotClass;
use crate::model::SpotModel;
use crate::naqp;
use crate::naqp_catalog;
use crate::numbers;
use crate::rbn::RawModel;
use crate::rbn::RawSpot;
use crate::string_map;
use crate::string_map::Duplicate;
use crate::string_map::StringMap;
use crate::text;
use crate::time;
use crate::time::Instant;
use crate::time::Timestamp;

verus! {

// ---------------------------------------------------------------------------------------------
// Classification
// ---------------------------------------------------------------------------------------------
/// The contact is one with `call` that was not deleted.
pub open spec fn is_with(q: QsoModel, call: Seq<char>) -> bool {
    !q.deleted && model::normalized(q.call) == call
}

/// The row that the location of a contact means.
pub open spec fn row_meant(q: QsoModel) -> Option<Seq<char>> {
    match q.location {
        None => None,
        Some(location) => match naqp::multiplier_code(location) {
            None => None,
            Some(code) => match naqp_catalog::resolved(code, q.call, q.country) {
                None => None,
                Some(m) => Some(m.id@),
            },
        },
    }
}

/// The log has a contact with `call` on `band`.
pub open spec fn worked_on(log: Seq<(Seq<char>, QsoModel)>, call: Seq<char>, band: Band) -> bool {
    exists|i: int|
        #![trigger log[i]]
        0 <= i < log.len() && is_with(log[i].1, call) && log[i].1.band == Some(band)
}

/// The row that the first contact with `call` that means one means.
pub open spec fn row_copied(log: Seq<(Seq<char>, QsoModel)>, call: Seq<char>) -> Option<Seq<char>>
    decreases log.len(),
{
    if log.len() == 0 {
        None
    } else if is_with(log[0].1, call) && row_meant(log[0].1) is Some {
        row_meant(log[0].1)
    } else {
        row_copied(log.skip(1), call)
    }
}

/// The contact is one on `band` and means the row `id`.
pub open spec fn brings_row(q: QsoModel, id: Seq<char>, band: Band) -> bool {
    q.band == Some(band) && row_meant(q) == Some(id)
}

/// The log has a contact on `band` that was not deleted and means the row `id`.
pub open spec fn row_on(log: Seq<(Seq<char>, QsoModel)>, id: Seq<char>, band: Band) -> bool {
    exists|i: int|
        #![trigger log[i]]
        0 <= i < log.len() && !log[i].1.deleted && brings_row(log[i].1, id, band)
}

/// A contact with `call` names a country.
pub open spec fn country_copied(log: Seq<(Seq<char>, QsoModel)>, call: Seq<char>) -> bool {
    exists|i: int|
        #![trigger log[i]]
        0 <= i < log.len() && is_with(log[i].1, call) && log[i].1.country is Some
}

/// What a station on a band would be worth, and the row that it is known to mean.
pub open spec fn classification(log: Seq<(Seq<char>, QsoModel)>, call: Seq<char>, band: Band) -> (
    SpotClass,
    Option<Seq<char>>,
) {
    if worked_on(log, call, band) {
        (SpotClass::Worked, None)
    } else {
        match row_copied(log, call) {
            Some(id) => if row_on(log, id, band) {
                (SpotClass::NeededQso, Some(id))
            } else {
                (SpotClass::VerifiedMultiplier, Some(id))
            },
            None => if country_copied(log, call) {
                (SpotClass::NeededQso, None)
            } else {
                (SpotClass::Unknown, None)
            },
        }
    }
}

fn find_row_meant(q: &Qso) -> (r: Option<&'static str>)
    ensures
        text::opt_str(r) == row_meant(q@),
{
    match &q.location {
        None => None,
        Some(location) => match naqp::normalize_multiplier(location.as_str()) {
            None => None,
            Some(code) => {
                let country: Option<&str> = match &q.country {
                    Some(c) => Some(c.as_str()),
                    None => None,
                };
                match naqp_catalog::resolve(code.as_str(), q.call.as_str(), country) {
                    Some(m) => Some(m.id),
                    None => None,
                }
            },
        },
    }
}

fn find_row_copied(log: &Log, call: &str) -> (r: Option<&'static str>)
    ensures
        text::opt_str(r) == row_copied(log@, call@),
{
    let mut i: usize = 0;
    assert(log@.skip(0) =~= log@);
    while i < log.len()
        invariant
            i <= log@.len(),
            row_copied(log@, call@) == row_copied(log@.skip(i as int), call@),
        decreases log@.len() - i,
    {
        assert(log@.skip(i as int)[0] == log@[i as int]);
        assert(log@.skip(i as int).skip(1) =~= log@.skip(i + 1));
        let q = log.value(i);
        if !q.deleted && text::same(q.normalized_call().as_str(), call) {
            if let Some(id) = find_row_meant(q) {
                return Some(id);
            }
        }
        i = i + 1;
    }
    None
}

fn has_row_on(log: &Log, id: &str, band: Band) -> (r: bool)
    ensures
        r == row_on(log@, id@, band),
{
    let mut i: usize = 0;
    while i < log.len()
        invariant
            i <= log@.len(),
            forall|j: int|
                #![trigger log@[j]]
                0 <= j < i ==> log@[j].1.deleted || !brings_row(log@[j].1, id@, band),
        decreases log@.len() - i,
    {
        let q = log.value(i);
        let here = match q.band {
            Some(b) => b == band,
            None => false,
        };
        if here && !q.deleted {
            if let Some(other) = find_row_meant(q) {
                if text::same(other, id) {
                    assert(brings_row(log@[i as int].1, id@, band));
                    return true;
                }
            }
        }
        i = i + 1;
    }
    false
}

/// What a station on a band would be worth, and the row that it is known to mean.
pub fn classify_spot(log: &Log, call: &str, band: Band) -> (r: (SpotClass, Option<String>))
    ensures
        (r.0, text::opt_text(r.1)) == classification(log@, call@, band),
{
    let mut worked = false;
    let mut named = false;
    let mut i: usize = 0;
    while i < log.len()
        invariant
            i <= log@.len(),
            worked == exists|j: int|
                #![trigger log@[j]]
                0 <= j < i && is_with(log@[j].1, call@) && log@[j].1.band == Some(band),
            named == exists|j: int|
                #![trigger log@[j]]
                0 <= j < i && is_with(log@[j].1, call@) && log@[j].1.country is Some,
        decreases log@.len() - i,
    {
        let q = log.value(i);
        let ghost m = log@[i as int].1;
        if !q.deleted && text::same(q.normalized_call().as_str(), call) {
            if let Some(b) = q.band {
                if b == band {
                    worked = true;
                }
            }
            if q.country.is_some() {
                named = true;
            }
        }
        assert(m == q@);
        i = i + 1;
    }
    if worked {
        return (SpotClass::Worked, None);
    }
    match find_row_copied(log, call) {
        Some(id) => {
            if has_row_on(log, id, band) {
                (SpotClass::NeededQso, Some(text::owned(id)))
            } else {
                (SpotClass::VerifiedMultiplier, Some(text::owned(id)))
            }
        },
        None => {
            if named {
                (SpotClass::NeededQso, None)
            } else {
                (SpotClass::Unknown, None)
            }
        },
    }
}

/// A spot is called verified only where the log holds the exchange: a contact with the station
/// that was not deleted, on another band, means the row, and no contact on the band does.
pub proof fn law_verified_spots_were_copied(
    log: Seq<(Seq<char>, QsoModel)>,
    call: Seq<char>,
    band: Band,
)
    requires
        classification(log, call, band).0 == SpotClass::VerifiedMultiplier,
    ensures
        exists|i: int|
            #![trigger log[i]]
            0 <= i < log.len() && is_with(log[i].1, call) && row_meant(log[i].1)
                == classification(log, call, band).1 && log[i].1.band != Some(band),
        !worked_on(log, call, band),
        !row_on(log, classification(log, call, band).1->0, band),
{
    lemma_row_copied(log, call);
    let i = choose|i: int|
        #![trigger log[i]]
        0 <= i < log.len() && is_with(log[i].1, call) && row_meant(log[i].1) == row_copied(
            log,
            call,
        );
    assert(log[i].1.band != Some(band));
}

proof fn lemma_row_copied(log: Seq<(Seq<char>, QsoModel)>, call: Seq<char>)
    ensures
        row_copied(log, call) is Some ==> exists|i: int|
            #![trigger log[i]]
            0 <= i < log.len() && is_with(log[i].1, call) && row_meant(log[i].1) == row_copied(
                log,
                call,
            ),
    decreases log.len(),
{
    if log.len() > 0 {
        let rest = log.skip(1);
        lemma_row_copied(rest, call);
        if !(is_with(log[0].1, call) && row_meant(log[0].1) is Some) && row_copied(log, call)
            is Some {
            let j = choose|j: int|
                #![trigger rest[j]]
                0 <= j < rest.len() && is_with(rest[j].1, call) && row_meant(rest[j].1)
                    == row_copied(rest, call);
            assert(log[j + 1] == rest[j]);
        }
    }
}

// ---------------------------------------------------------------------------------------------
// Merging reports
// ---------------------------------------------------------------------------------------------
/// What bounds the spots that are kept.
#[derive(Debug, Clone, Copy)]
pub struct SpotLimits {
    /// Spots older than this are dropped, in seconds.
    pub max_age: u32,
    /// Reports of a station on a band no further apart than this are one spot, in seconds.
    pub window: u32,
    /// Reports further apart than this are not one spot, in hertz; no limit where there is none.
    pub tolerance: Option<u32>,
    /// No more spots than this are kept.
    pub capacity: usize,
}

impl Default for SpotLimits {
    fn default() -> (r: Self)
        ensures
            r.max_age == 600,
            r.window == 90,
            r.tolerance is None,
            r.capacity == 200,
    {
        SpotLimits { max_age: 600, window: 90, tolerance: None, capacity: 200 }
    }
}

/// The spots that are not too old at `time`, in order.
pub open spec fn not_aged(spots: Seq<SpotModel>, time: Instant, max_age: int) -> Seq<SpotModel>
    decreases spots.len(),
{
    if spots.len() == 0 {
        spots
    } else if time::span(spots.last().time, time) <= max_age * 1_000_000_000 {
        not_aged(spots.drop_last(), time, max_age).push(spots.last())
    } else {
        not_aged(spots.drop_last(), time, max_age)
    }
}

/// A difference is no more than `limit` either way.
pub open spec fn within(difference: int, limit: int) -> bool {
    -limit <= difference <= limit
}

/// The report is of the station of the spot.
pub open spec fn is_of(s: SpotModel, raw: RawModel, limits: SpotLimits) -> bool {
    &&& s.call == raw.call
    &&& s.band == raw.band
    &&& within(time::span(raw.time, s.time), limits.window * 1_000_000_000)
    &&& limits.tolerance matches Some(t) ==> within(
        s.frequency.picohertz - raw.frequency.picohertz,
        t * 1_000_000_000_000,
    )
}

/// The position of the first spot of the station of a report; their number if there is none.
pub open spec fn spot_position(spots: Seq<SpotModel>, raw: RawModel, limits: SpotLimits) -> int
    decreases spots.len(),
{
    if spots.len() == 0 || is_of(spots[0], raw, limits) {
        0
    } else {
        1 + spot_position(spots.skip(1), raw, limits)
    }
}

/// The stronger of two reports.
pub open spec fn stronger(a: Option<i16>, b: Option<i16>) -> Option<i16> {
    match (a, b) {
        (Some(x), Some(y)) => if x >= y {
            Some(x)
        } else {
            Some(y)
        },
        (Some(x), None) => Some(x),
        (None, y) => y,
    }
}

pub open spec fn one_more(n: u32) -> u32 {
    if n < u32::MAX {
        (n + 1) as u32
    } else {
        n
    }
}

/// The spot with one more report: it keeps the newest observation, the most recent and the best
/// strength, how many reports there were and from which skimmers, and is up to date again.
pub open spec fn refreshed(s: SpotModel, raw: RawModel) -> SpotModel {
    let newer = time::no_later(s.time, raw.time);
    SpotModel {
        time: if newer {
            raw.time
        } else {
            s.time
        },
        frequency: if newer {
            raw.frequency
        } else {
            s.frequency
        },
        spotter: if newer {
            raw.spotter
        } else {
            s.spotter
        },
        snr_db: if newer {
            first_of(raw.snr_db, s.snr_db)
        } else {
            first_of(s.snr_db, raw.snr_db)
        },
        speed_wpm: if newer {
            first_of(raw.speed_wpm, s.speed_wpm)
        } else {
            first_of(s.speed_wpm, raw.speed_wpm)
        },
        spotters: string_map::inserted(s.spotters, raw.spotter, ()),
        best_snr_db: stronger(s.best_snr_db, raw.snr_db),
        reports: one_more(s.reports),
        stale: false,
        ..s
    }
}

/// `a`, or `b` where there is no `a`.
pub open spec fn first_of<T>(a: Option<T>, b: Option<T>) -> Option<T> {
    match a {
        Some(v) => Some(v),
        None => b,
    }
}

/// The spot of a first report. Nothing is known yet of skimmers nearby.
pub open spec fn first_report(raw: RawModel, class: SpotClass, row: Option<Seq<char>>) -> SpotModel {
    SpotModel {
        id: raw.call + "-"@ + numbers::decimal(raw.band.wavelength() as nat) + "-"@
            + numbers::signed_decimal(raw.time.second),
        call: raw.call,
        frequency: raw.frequency,
        band: raw.band,
        time: raw.time,
        spotter: raw.spotter,
        spotters: string_map::inserted(Seq::empty(), raw.spotter, ()),
        snr_db: raw.snr_db,
        best_snr_db: raw.snr_db,
        speed_wpm: raw.speed_wpm,
        class,
        predicted_multiplier: row,
        reports: 1,
        preferred_spotter: false,
        stale: false,
        local_time: None,
        local_frequency: None,
        local_spotter: None,
        local_spotters: Seq::empty(),
        local_sites: Seq::empty(),
        local_snr_db: None,
        local_best_snr_db: None,
        local_speed_wpm: None,
        local_reports: 0,
        nearest_local_km: None,
    }
}

/// The spots after a report: it refreshes the spot of its station, or is a new one before all
/// others.
pub open spec fn with_report(
    spots: Seq<SpotModel>,
    log: Seq<(Seq<char>, QsoModel)>,
    raw: RawModel,
    limits: SpotLimits,
) -> Seq<SpotModel> {
    let kept = not_aged(spots, raw.time, limits.max_age as int);
    let i = spot_position(kept, raw, limits);
    if i < kept.len() {
        kept.update(i, refreshed(kept[i], raw))
    } else {
        let (class, row) = classification(log, raw.call, raw.band);
        string_map::at_most(
            seq![first_report(raw, class, row)] + kept,
            limits.capacity as int,
        )
    }
}

pub fn drop_aged(spots: &Vec<Spot>, time: Timestamp, max_age: u32) -> (r: Vec<Spot>)
    ensures
        string_map::views(r@) == not_aged(string_map::views(spots@), time@, max_age as int),
{
    let ghost all = string_map::views(spots@);
    let wide: i128 = max_age as i128 * time::NANOS_PER_SECOND;
    let mut out: Vec<Spot> = Vec::new();
    let mut i: usize = 0;
    assert(string_map::views(out@) =~= not_aged(all.take(0), time@, max_age as int));
    while i < spots.len()
        invariant
            i <= spots@.len(),
            all == string_map::views(spots@),
            wide == max_age * 1_000_000_000,
            string_map::views(out@) == not_aged(all.take(i as int), time@, max_age as int),
        decreases spots.len() - i,
    {
        assert(all.take(i + 1).drop_last() =~= all.take(i as int));
        assert(all.take(i + 1).last() == spots@[i as int]@);
        if time.since(spots[i].time) <= wide {
            let ghost before = string_map::views(out@);
            let copy = spots[i].duplicate();
            out.push(copy);
            assert(string_map::views(out@) =~= before.push(spots@[i as int]@));
        }
        i = i + 1;
    }
    assert(all.take(all.len() as int) =~= all);
    out
}

fn matches(s: &Spot, raw: &RawSpot, limits: SpotLimits) -> (r: bool)
    ensures
        r == is_of(s@, raw@, limits),
{
    let apart = s.time.since(raw.time);
    let window: i128 = limits.window as i128 * time::NANOS_PER_SECOND;
    let near = match limits.tolerance {
        Some(t) => {
            let limit: i128 = t as i128 * 1_000_000_000_000;
            match s.frequency_khz.picohertz.checked_sub(raw.frequency_khz.picohertz) {
                Some(off) => -limit <= off && off <= limit,
                None => false,
            }
        },
        None => true,
    };
    text::same(s.call.as_str(), raw.call.as_str()) && s.band == raw.band && -window <= apart
        && apart <= window && near
}

fn find_spot(spots: &Vec<Spot>, raw: &RawSpot, limits: SpotLimits) -> (r: Option<usize>)
    ensures
        match r {
            Some(i) => i == spot_position(string_map::views(spots@), raw@, limits) && i
                < spots@.len(),
            None => spot_position(string_map::views(spots@), raw@, limits) == spots@.len(),
        },
{
    let ghost all = string_map::views(spots@);
    let mut i: usize = 0;
    assert(all.skip(0) =~= all);
    while i < spots.len()
        invariant
            i <= spots@.len(),
            all == string_map::views(spots@),
            spot_position(all, raw@, limits) == i + spot_position(all.skip(i as int), raw@, limits),
        decreases spots.len() - i,
    {
        assert(all.skip(i as int)[0] == spots@[i as int]@);
        assert(all.skip(i as int).skip(1) =~= all.skip(i + 1));
        if matches(&spots[i], raw, limits) {
            return Some(i);
        }
        i = i + 1;
    }
    None
}

fn refresh(s: &Spot, raw: &RawSpot) -> (r: Spot)
    ensures
        r@ == refreshed(s@, raw@),
{
    let newer = s.time.not_after(raw.time);
    let mut r = s.duplicate();
    if newer {
        r.time = raw.time;
        r.frequency_khz = raw.frequency_khz;
        r.spotter = raw.spotter.clone();
    }
    r.snr_db = match (newer, s.snr_db, raw.snr_db) {
        (true, old_snr, None) => old_snr,
        (true, _, new_snr) => new_snr,
        (false, None, new_snr) => new_snr,
        (false, old_snr, _) => old_snr,
    };
    r.speed_wpm = match (newer, s.speed_wpm, raw.speed_wpm) {
        (true, old_speed, None) => old_speed,
        (true, _, new_speed) => new_speed,
        (false, None, new_speed) => new_speed,
        (false, old_speed, _) => old_speed,
    };
    r.best_snr_db = match (s.best_snr_db, raw.snr_db) {
        (Some(x), Some(y)) => if x >= y {
            Some(x)
        } else {
            Some(y)
        },
        (Some(x), None) => Some(x),
        (None, y) => y,
    };
    r.spotters.insert(raw.spotter.clone(), ());
    if r.reports < u32::MAX {
        r.reports = r.reports + 1;
    }
    r.stale = false;
    assert(r@ =~= refreshed(s@, raw@));
    r
}

pub(crate) fn start_spot(raw: &RawSpot, class: SpotClass, row: Option<String>) -> (r: Spot)
    ensures
        r@ == first_report(raw@, class, text::opt_text(row)),
{
    let mut id = raw.call.clone();
    text::push_text(&mut id, "-");
    numbers::push_decimal(&mut id, raw.band.meters() as u64);
    text::push_text(&mut id, "-");
    text::push_text(&mut id, numbers::signed_text(raw.time.parts().0).as_str());
    let mut spotters: model::TextSet = StringMap::new();
    spotters.insert(raw.spotter.clone(), ());
    let r = Spot {
        id,
        call: raw.call.clone(),
        frequency_khz: raw.frequency_khz,
        band: raw.band,
        time: raw.time,
        spotter: raw.spotter.clone(),
        spotters,
        snr_db: raw.snr_db,
        best_snr_db: raw.snr_db,
        speed_wpm: raw.speed_wpm,
        class,
        predicted_multiplier: row,
        reports: 1,
        preferred_spotter: false,
        stale: false,
        local_time: None,
        local_frequency_khz: None,
        local_spotter: None,
        local_spotters: StringMap::new(),
        local_sites: StringMap::new(),
        local_snr_db: None,
        local_best_snr_db: None,
        local_speed_wpm: None,
        local_reports: 0,
        nearest_local_km: None,
    };
    assert(r@ =~= first_report(raw@, class, text::opt_text(row)));
    r
}

/// Takes a report into the spots.
pub fn merge_report(spots: &Vec<Spot>, log: &Log, raw: &RawSpot, limits: SpotLimits) -> (r: Vec<
    Spot,
>)
    ensures
        string_map::views(r@) == with_report(string_map::views(spots@), log@, raw@, limits),
{
    let mut kept = drop_aged(spots, raw.time, limits.max_age);
    let ghost models = string_map::views(kept@);
    match find_spot(&kept, raw, limits) {
        Some(i) => {
            let next = refresh(&kept[i], raw);
            let ghost m = next@;
            kept.set(i, next);
            assert(string_map::views(kept@) =~= models.update(i as int, m));
            kept
        },
        None => {
            let (class, row) = classify_spot(log, raw.call.as_str(), raw.band);
            let next = start_spot(raw, class, row);
            let ghost m = next@;
            kept.insert(0, next);
            assert(string_map::views(kept@) =~= seq![m] + models);
            kept.truncate(limits.capacity);
            assert(string_map::views(kept@) =~= string_map::at_most(
                seq![m] + models,
                limits.capacity as int,
            ));
            kept
        },
    }
}

/// The spots with all of them out of date.
pub open spec fn all_stale(spots: Seq<SpotModel>) -> Seq<SpotModel> {
    Seq::new(spots.len(), |i: int| SpotModel { stale: true, ..spots[i] })
}

/// Marks all spots as out of date.
pub fn mark_stale(spots: &Vec<Spot>) -> (r: Vec<Spot>)
    ensures
        string_map::views(r@) == all_stale(string_map::views(spots@)),
{
    let mut out: Vec<Spot> = Vec::new();
    let mut i: usize = 0;
    while i < spots.len()
        invariant
            i <= spots@.len(),
            out@.len() == i,
            forall|j: int|
                0 <= j < i ==> (#[trigger] out@[j])@ == (SpotModel { stale: true, ..spots@[j]@ }),
        decreases spots.len() - i,
    {
        let mut copy = spots[i].duplicate();
        copy.stale = true;
        out.push(copy);
        i = i + 1;
    }
    assert(string_map::views(out@) =~= all_stale(string_map::views(spots@)));
    out
}

// ---------------------------------------------------------------------------------------------
// Laws of spots
// ---------------------------------------------------------------------------------------------
proof fn lemma_not_aged(spots: Seq<SpotModel>, time: Instant, max_age: int)
    ensures
        not_aged(spots, time, max_age).len() <= spots.len(),
        forall|i: int|
            0 <= i < not_aged(spots, time, max_age).len() ==> time::span(
                (#[trigger] not_aged(spots, time, max_age)[i]).time,
                time,
            ) <= max_age * 1_000_000_000,
    decreases spots.len(),
{
    if spots.len() > 0 {
        lemma_not_aged(spots.drop_last(), time, max_age);
    }
}

proof fn lemma_spot_position(spots: Seq<SpotModel>, raw: RawModel, limits: SpotLimits)
    ensures
        0 <= spot_position(spots, raw, limits) <= spots.len(),
        spot_position(spots, raw, limits) < spots.len() ==> is_of(
            spots[spot_position(spots, raw, limits)],
            raw,
            limits,
        ),
    decreases spots.len(),
{
    if spots.len() > 0 && !is_of(spots[0], raw, limits) {
        lemma_spot_position(spots.skip(1), raw, limits);
    }
}

/// There are never more spots than may be kept, and none of them is older than may be.
pub proof fn law_spots_are_bounded(
    spots: Seq<SpotModel>,
    log: Seq<(Seq<char>, QsoModel)>,
    raw: RawModel,
    limits: SpotLimits,
)
    requires
        spots.len() <= limits.capacity,
    ensures
        with_report(spots, log, raw, limits).len() <= limits.capacity,
        forall|i: int|
            0 <= i < with_report(spots, log, raw, limits).len() ==> time::span(
                (#[trigger] with_report(spots, log, raw, limits)[i]).time,
                raw.time,
            ) <= limits.max_age
                * 1_000_000_000,
{
    lemma_not_aged(spots, raw.time, limits.max_age as int);
    let kept = not_aged(spots, raw.time, limits.max_age as int);
    lemma_spot_position(kept, raw, limits);
    let r = with_report(spots, log, raw, limits);
    assert forall|i: int| 0 <= i < r.len() implies time::span(
        (#[trigger] r[i]).time,
        raw.time,
    ) <= limits.max_age * 1_000_000_000 by {
        if spot_position(kept, raw, limits) >= kept.len() && i > 0 {
            assert(r[i] == kept[i - 1]);
        }
    }
}

/// After a disconnection every spot is out of date, and stays so until its own station is
/// reported again: a report brings at most the spot of its station up to date.
pub proof fn law_stale_until_reported_again(
    spots: Seq<SpotModel>,
    log: Seq<(Seq<char>, QsoModel)>,
    raw: RawModel,
    limits: SpotLimits,
    i: int,
)
    requires
        0 <= i < with_report(all_stale(spots), log, raw, limits).len(),
    ensures
        ({
            let s = with_report(all_stale(spots), log, raw, limits)[i];
            s.stale || (s.call == raw.call && s.band == raw.band)
        }),
{
    lemma_stale_kept(spots, raw.time, limits.max_age as int);
    let kept = not_aged(all_stale(spots), raw.time, limits.max_age as int);
    lemma_spot_position(kept, raw, limits);
    let r = with_report(all_stale(spots), log, raw, limits);
    if spot_position(kept, raw, limits) >= kept.len() && i > 0 {
        assert(r[i] == kept[i - 1]);
    }
}

proof fn lemma_stale_kept(spots: Seq<SpotModel>, time: Instant, max_age: int)
    ensures
        forall|i: int|
            0 <= i < not_aged(all_stale(spots), time, max_age).len() ==> (#[trigger] not_aged(
                all_stale(spots),
                time,
                max_age,
            )[i]).stale,
    decreases spots.len(),
{
    let s = all_stale(spots);
    if spots.len() > 0 {
        lemma_stale_kept(spots.drop_last(), time, max_age);
        assert(s.drop_last() =~= all_stale(spots.drop_last()));
    }
}

/// A report of a known station refreshes its spot and leaves the others as they are.
pub proof fn law_report_refreshes_its_spot(
    spots: Seq<SpotModel>,
    log: Seq<(Seq<char>, QsoModel)>,
    raw: RawModel,
    limits: SpotLimits,
)
    requires
        spot_position(not_aged(spots, raw.time, limits.max_age as int), raw, limits) < not_aged(
            spots,
            raw.time,
            limits.max_age as int,
        ).len(),
    ensures
        ({
            let kept = not_aged(spots, raw.time, limits.max_age as int);
            let i = spot_position(kept, raw, limits);
            let r = with_report(spots, log, raw, limits);
            &&& r.len() == kept.len()
            &&& !r[i].stale && r[i].reports == one_more(kept[i].reports) && time::no_later(
                raw.time,
                r[i].time,
            )
            &&& forall|j: int| 0 <= j < r.len() && j != i ==> #[trigger] r[j] == kept[j]
        }),
{
    let kept = not_aged(spots, raw.time, limits.max_age as int);
    lemma_spot_position(kept, raw, limits);
}

// ---------------------------------------------------------------------------------------------
// What a report does
// ---------------------------------------------------------------------------------------------
/// The report is of the station of the spot, on its band, no further from it in time than the window
/// and in frequency than the tolerance, where there is one.
pub open spec fn reports_on(s: SpotModel, raw: RawModel, limits: SpotLimits) -> bool {
    let apart = time::span(s.time, raw.time);
    let off = s.frequency.picohertz - raw.frequency.picohertz;
    &&& s.call == raw.call && s.band == raw.band
    &&& apart <= limits.window * 1_000_000_000 && -apart <= limits.window * 1_000_000_000
    &&& limits.tolerance matches Some(hertz) ==> off <= hertz * 1_000_000_000_000 && -off <= hertz
        * 1_000_000_000_000
}

/// The spot at `i` is the first that the report is of.
pub open spec fn is_first_reported(
    spots: Seq<SpotModel>,
    raw: RawModel,
    limits: SpotLimits,
    i: int,
) -> bool {
    &&& 0 <= i < spots.len()
    &&& reports_on(spots[i], raw, limits)
    &&& forall|k: int| 0 <= k < i ==> !reports_on(#[trigger] spots[k], raw, limits)
}

proof fn lemma_reports_on(s: SpotModel, raw: RawModel, limits: SpotLimits)
    ensures
        reports_on(s, raw, limits) <==> is_of(s, raw, limits),
{
    time::law_span_back(s.time, raw.time);
}

proof fn lemma_first_reported(spots: Seq<SpotModel>, raw: RawModel, limits: SpotLimits, i: int)
    ensures
        is_first_reported(spots, raw, limits, i) ==> spot_position(spots, raw, limits) == i,
        (forall|k: int| 0 <= k < spots.len() ==> !reports_on(#[trigger] spots[k], raw, limits))
            ==> spot_position(spots, raw, limits) == spots.len(),
    decreases spots.len(),
{
    if spots.len() > 0 {
        let rest = spots.skip(1);
        assert(forall|k: int| 0 <= k < rest.len() ==> #[trigger] rest[k] == spots[k + 1]);
        lemma_reports_on(spots[0], raw, limits);
        lemma_first_reported(rest, raw, limits, i - 1);
        if is_first_reported(spots, raw, limits, i) && i > 0 {
            assert(!reports_on(spots[0], raw, limits));
            assert(rest[i - 1] == spots[i]);
        }
    }
}

/// Spots no older than may be kept stay as they are and in their order, and the others go, whatever
/// stands around them.
pub proof fn law_old_spots_go(
    a: Seq<SpotModel>,
    b: Seq<SpotModel>,
    s: SpotModel,
    now: Instant,
    max_age: int,
)
    ensures
        not_aged(a + b, now, max_age) == not_aged(a, now, max_age) + not_aged(b, now, max_age),
        time::span(s.time, now) <= max_age * 1_000_000_000 ==> not_aged(seq![s], now, max_age)
            == seq![s],
        time::span(s.time, now) > max_age * 1_000_000_000 ==> not_aged(seq![s], now, max_age).len()
            == 0,
    decreases b.len(),
{
    let one = seq![s];
    assert(one.drop_last() =~= Seq::<SpotModel>::empty());
    assert(not_aged(one.drop_last(), now, max_age) =~= Seq::<SpotModel>::empty());
    assert(Seq::<SpotModel>::empty().push(s) =~= one);
    if b.len() == 0 {
        assert(a + b =~= a);
        assert(not_aged(a, now, max_age) + not_aged(b, now, max_age) =~= not_aged(a, now, max_age));
    } else {
        assert((a + b).drop_last() =~= a + b.drop_last());
        assert((a + b).last() == b.last());
        law_old_spots_go(a, b.drop_last(), s, now, max_age);
        assert(not_aged(a + b, now, max_age) =~= not_aged(a, now, max_age) + not_aged(
            b,
            now,
            max_age,
        ));
    }
}

/// A report no older than the spot of its station brings the spot up to date: its time, its frequency
/// and its skimmer are those of the report, and so are the strength and the speed that it tells of.
pub proof fn law_newest_observation_is_shown(
    spots: Seq<SpotModel>,
    log: Seq<(Seq<char>, QsoModel)>,
    raw: RawModel,
    limits: SpotLimits,
    i: int,
)
    requires
        is_first_reported(not_aged(spots, raw.time, limits.max_age as int), raw, limits, i),
        time::no_later(not_aged(spots, raw.time, limits.max_age as int)[i].time, raw.time),
    ensures
        ({
            let before = not_aged(spots, raw.time, limits.max_age as int)[i];
            let after = with_report(spots, log, raw, limits)[i];
            &&& after.time == raw.time
            &&& after.frequency == raw.frequency
            &&& after.spotter == raw.spotter
            &&& raw.snr_db is Some ==> after.snr_db == raw.snr_db
            &&& raw.snr_db is None ==> after.snr_db == before.snr_db
            &&& raw.speed_wpm is Some ==> after.speed_wpm == raw.speed_wpm
            &&& raw.speed_wpm is None ==> after.speed_wpm == before.speed_wpm
        }),
{
    let kept = not_aged(spots, raw.time, limits.max_age as int);
    lemma_first_reported(kept, raw, limits, i);
}

/// A report older than the spot of its station leaves the time, the frequency and the skimmer of the
/// spot, and fills in only the strength and the speed that the spot does not tell of.
pub proof fn law_older_observation_is_not_shown(
    spots: Seq<SpotModel>,
    log: Seq<(Seq<char>, QsoModel)>,
    raw: RawModel,
    limits: SpotLimits,
    i: int,
)
    requires
        is_first_reported(not_aged(spots, raw.time, limits.max_age as int), raw, limits, i),
        !time::no_later(not_aged(spots, raw.time, limits.max_age as int)[i].time, raw.time),
    ensures
        ({
            let before = not_aged(spots, raw.time, limits.max_age as int)[i];
            let after = with_report(spots, log, raw, limits)[i];
            &&& after.time == before.time
            &&& after.frequency == before.frequency
            &&& after.spotter == before.spotter
            &&& before.snr_db is Some ==> after.snr_db == before.snr_db
            &&& before.snr_db is None ==> after.snr_db == raw.snr_db
            &&& before.speed_wpm is Some ==> after.speed_wpm == before.speed_wpm
            &&& before.speed_wpm is None ==> after.speed_wpm == raw.speed_wpm
        }),
{
    let kept = not_aged(spots, raw.time, limits.max_age as int);
    lemma_first_reported(kept, raw, limits, i);
}

/// Every report of a known station counts: it is one more, its skimmer is one of the spot's, the best
/// strength is the greatest reported, and the spot is up to date; what the spot is taken for, and
/// every other spot, stays as it is.
pub proof fn law_reports_add_up(
    spots: Seq<SpotModel>,
    log: Seq<(Seq<char>, QsoModel)>,
    raw: RawModel,
    limits: SpotLimits,
    i: int,
    j: int,
)
    requires
        is_first_reported(not_aged(spots, raw.time, limits.max_age as int), raw, limits, i),
    ensures
        ({
            let kept = not_aged(spots, raw.time, limits.max_age as int);
            let r = with_report(spots, log, raw, limits);
            let before = kept[i];
            let after = r[i];
            &&& r.len() == kept.len()
            &&& 0 <= j < r.len() && j != i ==> r[j] == kept[j]
            &&& before.reports < 4_294_967_295 ==> after.reports == before.reports + 1
            &&& !after.stale
            &&& string_map::ordered(before.spotters) ==> after.spotters.contains((raw.spotter, ()))
            &&& match (before.best_snr_db, raw.snr_db) {
                (Some(x), Some(y)) => after.best_snr_db == Some(
                    if x > y {
                        x
                    } else {
                        y
                    },
                ),
                (Some(x), None) => after.best_snr_db == Some(x),
                (None, y) => after.best_snr_db == y,
            }
            &&& after.id == before.id && after.call == before.call && after.band == before.band
            &&& after.class == before.class && after.predicted_multiplier
                == before.predicted_multiplier
            &&& after.local_time == before.local_time && after.local_sites == before.local_sites
                && after.local_spotters == before.local_spotters && after.local_snr_db
                == before.local_snr_db && after.local_reports == before.local_reports
        }),
{
    let kept = not_aged(spots, raw.time, limits.max_age as int);
    lemma_first_reported(kept, raw, limits, i);
    if string_map::ordered(kept[i].spotters) {
        string_map::lemma_slot_splits(kept[i].spotters, raw.spotter);
        let p = string_map::slot(kept[i].spotters, raw.spotter);
        assert(string_map::inserted(kept[i].spotters, raw.spotter, ())[p] == (raw.spotter, ()));
    }
}

/// A report of a station that is not known is a spot before all others, as it was reported and as the
/// log classes it; of the others as many stay as there is room for.
pub proof fn law_new_station_comes_first(
    spots: Seq<SpotModel>,
    log: Seq<(Seq<char>, QsoModel)>,
    raw: RawModel,
    limits: SpotLimits,
    j: int,
)
    requires
        limits.capacity > 0,
        forall|k: int|
            0 <= k < not_aged(spots, raw.time, limits.max_age as int).len() ==> !reports_on(
                #[trigger] not_aged(spots, raw.time, limits.max_age as int)[k],
                raw,
                limits,
            ),
    ensures
        ({
            let kept = not_aged(spots, raw.time, limits.max_age as int);
            let r = with_report(spots, log, raw, limits);
            let s = r[0];
            &&& r.len() == if kept.len() + 1 <= limits.capacity {
                kept.len() + 1
            } else {
                limits.capacity as nat
            }
            &&& 0 < j < r.len() ==> r[j] == kept[j - 1]
            &&& s.call == raw.call && s.band == raw.band && s.time == raw.time && s.frequency
                == raw.frequency && s.spotter == raw.spotter
            &&& s.snr_db == raw.snr_db && s.best_snr_db == raw.snr_db && s.speed_wpm == raw.speed_wpm
            &&& s.spotters == seq![(raw.spotter, ())]
            &&& s.reports == 1 && !s.stale
            &&& (s.class, s.predicted_multiplier) == classification(log, raw.call, raw.band)
            &&& s.local_time is None && s.local_reports == 0 && s.local_sites.len() == 0
                && s.local_spotters.len() == 0 && s.local_snr_db is None && s.nearest_local_km is None
            &&& s.id == raw.call + "-"@ + numbers::decimal(raw.band.wavelength() as nat) + "-"@
                + numbers::signed_decimal(raw.time.second)
        }),
{
    let kept = not_aged(spots, raw.time, limits.max_age as int);
    lemma_first_reported(kept, raw, limits, 0);
    let r = with_report(spots, log, raw, limits);
    assert(r[0].spotters =~= seq![(raw.spotter, ())]);
}

/// A contact that was not deleted is with the station.
pub open spec fn with_station(q: QsoModel, call: Seq<char>) -> bool {
    !q.deleted && text::upper(text::trimmed(q.call)) == call
}

proof fn lemma_row_copied_first(log: Seq<(Seq<char>, QsoModel)>, call: Seq<char>, i: int)
    ensures
        0 <= i < log.len() && with_station(log[i].1, call) && row_meant(log[i].1) is Some && (
        forall|k: int|
            0 <= k < i ==> !with_station((#[trigger] log[k]).1, call) || row_meant(log[k].1)
                is None) ==> row_copied(log, call) == row_meant(log[i].1),
        (forall|k: int|
            0 <= k < log.len() ==> !with_station((#[trigger] log[k]).1, call) || row_meant(log[k].1)
                is None) ==> row_copied(log, call) is None,
    decreases log.len(),
{
    if log.len() > 0 {
        let rest = log.skip(1);
        assert(forall|k: int| 0 <= k < rest.len() ==> #[trigger] rest[k] == log[k + 1]);
        lemma_row_copied_first(rest, call, i - 1);
        assert(is_with(log[0].1, call) <==> with_station(log[0].1, call));
        if 0 < i < log.len() && (forall|k: int|
            0 <= k < i ==> !with_station((#[trigger] log[k]).1, call) || row_meant(log[k].1)
                is None) {
            assert(!with_station(log[0].1, call) || row_meant(log[0].1) is None);
            assert(rest[i - 1] == log[i]);
        }
        if forall|k: int|
            0 <= k < log.len() ==> !with_station((#[trigger] log[k]).1, call) || row_meant(log[k].1)
                is None {
            assert(!with_station(log[0].1, call) || row_meant(log[0].1) is None);
        }
    }
}

/// A station is worked on a band exactly where a contact with it on that band was not deleted; then
/// nothing more is said of it.
pub proof fn law_worked_stations(log: Seq<(Seq<char>, QsoModel)>, call: Seq<char>, band: Band)
    ensures
        classification(log, call, band).0 == SpotClass::Worked <==> exists|i: int|
            #![trigger log[i]]
            0 <= i < log.len() && with_station(log[i].1, call) && log[i].1.band == Some(band),
        classification(log, call, band).0 == SpotClass::Worked ==> classification(
            log,
            call,
            band,
        ).1 is None,
{
    if worked_on(log, call, band) {
        let i = choose|i: int|
            #![trigger log[i]]
            0 <= i < log.len() && is_with(log[i].1, call) && log[i].1.band == Some(band);
        assert(with_station(log[i].1, call));
    }
    if exists|i: int|
        #![trigger log[i]]
        0 <= i < log.len() && with_station(log[i].1, call) && log[i].1.band == Some(band) {
        let i = choose|i: int|
            #![trigger log[i]]
            0 <= i < log.len() && with_station(log[i].1, call) && log[i].1.band == Some(band);
        assert(is_with(log[i].1, call));
    }
}

/// A station that is not worked on the band is taken for the row that the first contact with it means
/// that means one: a new contact alone where some contact on the band that was not deleted means it
/// already, and a verified multiplier where none does.
pub proof fn law_copied_rows_class_stations(
    log: Seq<(Seq<char>, QsoModel)>,
    call: Seq<char>,
    band: Band,
    i: int,
)
    requires
        classification(log, call, band).0 != SpotClass::Worked,
        0 <= i < log.len(),
        with_station(log[i].1, call),
        row_meant(log[i].1) is Some,
        forall|k: int|
            0 <= k < i ==> !with_station((#[trigger] log[k]).1, call) || row_meant(log[k].1) is None,
    ensures
        ({
            let had = exists|k: int|
                #![trigger log[k]]
                0 <= k < log.len() && !log[k].1.deleted && log[k].1.band == Some(band) && row_meant(
                    log[k].1,
                ) == row_meant(log[i].1);
            let c = classification(log, call, band);
            &&& c.1 == row_meant(log[i].1)
            &&& had ==> c.0 == SpotClass::NeededQso
            &&& !had ==> c.0 == SpotClass::VerifiedMultiplier
        }),
{
    lemma_row_copied_first(log, call, i);
    let id = row_meant(log[i].1)->0;
    if row_on(log, id, band) {
        let k = choose|k: int|
            #![trigger log[k]]
            0 <= k < log.len() && !log[k].1.deleted && brings_row(log[k].1, id, band);
        assert(log[k].1.band == Some(band));
    }
    if exists|k: int|
        #![trigger log[k]]
        0 <= k < log.len() && !log[k].1.deleted && log[k].1.band == Some(band) && row_meant(
            log[k].1,
        ) == row_meant(log[i].1) {
        let k = choose|k: int|
            #![trigger log[k]]
            0 <= k < log.len() && !log[k].1.deleted && log[k].1.band == Some(band) && row_meant(
                log[k].1,
            ) == row_meant(log[i].1);
        assert(brings_row(log[k].1, id, band));
    }
}

/// A station that is not worked on the band, and of which no contact means a row, is taken for none:
/// it is a new contact where some contact with it names a country, and else unknown.
pub proof fn law_other_stations(log: Seq<(Seq<char>, QsoModel)>, call: Seq<char>, band: Band)
    requires
        classification(log, call, band).0 != SpotClass::Worked,
        forall|k: int|
            0 <= k < log.len() ==> !with_station((#[trigger] log[k]).1, call) || row_meant(log[k].1)
                is None,
    ensures
        ({
            let named = exists|k: int|
                #![trigger log[k]]
                0 <= k < log.len() && with_station(log[k].1, call) && log[k].1.country is Some;
            let c = classification(log, call, band);
            &&& c.1 is None
            &&& named ==> c.0 == SpotClass::NeededQso
            &&& !named ==> c.0 == SpotClass::Unknown
        }),
{
    lemma_row_copied_first(log, call, 0);
    if country_copied(log, call) {
        let k = choose|k: int|
            #![trigger log[k]]
            0 <= k < log.len() && is_with(log[k].1, call) && log[k].1.country is Some;
        assert(with_station(log[k].1, call));
    }
    if exists|k: int|
        #![trigger log[k]]
        0 <= k < log.len() && with_station(log[k].1, call) && log[k].1.country is Some {
        let k = choose|k: int|
            #![trigger log[k]]
            0 <= k < log.len() && with_station(log[k].1, call) && log[k].1.country is Some;
        assert(is_with(log[k].1, call));
    }
}

/// A location that is a code of the checklist, whatever the case of letters and the space around it,
/// means the row of that code; a contact without a location means none.
pub proof fn law_location_means_its_row(q: QsoModel, i: int)
    requires
        0 <= i < naqp_catalog::catalog().len(),
        naqp_catalog::catalog()[i].code@ != "HI"@,
    ensures
        q.location matches Some(l) && text::same_letters(
            text::trimmed(l),
            naqp_catalog::catalog()[i].code@,
        ) ==> row_meant(q) == Some(naqp_catalog::catalog()[i].id@),
        q.location is None ==> row_meant(q) is None,
        q.location matches Some(l) && naqp::multiplier_code(l) is None ==> row_meant(q) is None,
{
    if let Some(l) = q.location {
        let code = naqp_catalog::catalog()[i].code@;
        if text::same_letters(text::trimmed(l), code) {
            naqp_catalog::law_codes_are_plain(i);
            text::law_same_letters(text::trimmed(l), code);
            assert(text::upper(code) =~= code);
            assert(text::upper(text::trimmed(l)) == code);
            text::lemma_no_points(code);
            assert(naqp_catalog::printed(code));
            naqp::law_other_spellings(l);
            naqp_catalog::law_other_codes_need_no_context(code, q.call, q.country, i);
        }
    }
}

/// Marking spots as out of date marks every one of them, and changes nothing else of any.
pub proof fn law_all_spots_go_stale(spots: Seq<SpotModel>, i: int)
    requires
        0 <= i < spots.len(),
    ensures
        all_stale(spots).len() == spots.len(),
        all_stale(spots)[i].stale,
        (SpotModel { stale: spots[i].stale, ..all_stale(spots)[i] }) == spots[i],
{
}

} // verus!
