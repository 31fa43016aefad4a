//! A demonstration with synthetic data: no log of anyone is shown.
use vstd::prelude::*;

use crate::adif;
use crate::adif::ImportDiagnostics;
use crate::frequency::Frequency;
use crate::json::Json;
use crate::json::JsonModel;
use crate::log_source::Log;
use crate::model;
use crate::model::Band;
use crate::model::Operation;
use crate::model::OperationModel;
use crate::model::Qso;
use crate::model::QsoModel;
use crate::model::RecordDiagnostic;
use crate::model::Spot;
use crate::model::SpotClass;
use crate::model::SpotModel;
use crate::numbers;
use crate::rbn::RawModel;
use crate::rbn::RawSpot;
use crate::runtime;
use crate::runtime::Runtime;
use crate::runtime::RuntimeModel;
use crate::spots;
use crate::spots::SpotLimits;
use crate::storage::PersistedState;
use crate::string_map;
use crate::string_map::StringMap;
use crate::text;
use crate::time;
use crate::time::Instant;
use crate::time::Timestamp;

verus! {

/// A contact of the demonstration, some minutes after the beginning of the contest.
#[derive(Debug, Clone, Copy)]
pub struct DemoContact {
    pub call: &'static str,
    pub band: Band,
    pub minutes: u32,
    pub name: &'static str,
    pub location: &'static str,
    pub country: Option<&'static str>,
}

/// The contacts of the demonstration.
pub open spec fn contacts() -> Seq<DemoContact> {
    seq![
        DemoContact {
            call: "W1AW",
            band: Band::B20,
            minutes: 3,
            name: "AL",
            location: "CT",
            country: None,
        },
        DemoContact {
            call: "K3LR",
            band: Band::B20,
            minutes: 7,
            name: "TIM",
            location: "PA",
            country: None,
        },
        DemoContact {
            call: "VE3EJ",
            band: Band::B20,
            minutes: 12,
            name: "JOHN",
            location: "ON",
            country: None,
        },
        DemoContact {
            call: "N6RO",
            band: Band::B15,
            minutes: 16,
            name: "KEN",
            location: "CA",
            country: None,
        },
        DemoContact {
            call: "W1AW",
            band: Band::B40,
            minutes: 61,
            name: "AL",
            location: "CT",
            country: None,
        },
        DemoContact {
            call: "KP2M",
            band: Band::B20,
            minutes: 68,
            name: "FRED",
            location: "KP2",
            country: None,
        },
        DemoContact {
            call: "N4ZZ",
            band: Band::B40,
            minutes: 74,
            name: "DON",
            location: "TN",
            country: None,
        },
        DemoContact {
            call: "K3LR",
            band: Band::B40,
            minutes: 78,
            name: "TIM",
            location: "PA",
            country: None,
        },
        DemoContact {
            call: "VE3EJ",
            band: Band::B40,
            minutes: 122,
            name: "JOHN",
            location: "ON",
            country: None,
        },
        DemoContact {
            call: "DL1ABC",
            band: Band::B20,
            minutes: 129,
            name: "HANS",
            location: "DX",
            country: Some("Germany"),
        },
    ]
}

fn all_contacts() -> (r: Vec<DemoContact>)
    ensures
        r@ == contacts(),
{
    let us = |
        call: &'static str,
        band: Band,
        minutes: u32,
        name: &'static str,
        location: &'static str,
    | -> (r: DemoContact)
        ensures
            r == (DemoContact { call, band, minutes, name, location, country: None }),
        { DemoContact { call, band, minutes, name, location, country: None } };
    let hans = DemoContact {
        call: "DL1ABC",
        band: Band::B20,
        minutes: 129,
        name: "HANS",
        location: "DX",
        country: Some("Germany"),
    };
    let out: Vec<DemoContact> = vec![
        us("W1AW", Band::B20, 3, "AL", "CT"),
        us("K3LR", Band::B20, 7, "TIM", "PA"),
        us("VE3EJ", Band::B20, 12, "JOHN", "ON"),
        us("N6RO", Band::B15, 16, "KEN", "CA"),
        us("W1AW", Band::B40, 61, "AL", "CT"),
        us("KP2M", Band::B20, 68, "FRED", "KP2"),
        us("N4ZZ", Band::B40, 74, "DON", "TN"),
        us("K3LR", Band::B40, 78, "TIM", "PA"),
        us("VE3EJ", Band::B40, 122, "JOHN", "ON"),
        hans,
    ];
    assert(out@ =~= contacts());
    out
}

/// The identifier of the contact at position `i`.
pub open spec fn contact_id(i: nat) -> Seq<char> {
    "demo-"@ + numbers::decimal(i)
}

/// The contact at position `i` as it stands in the log.
pub open spec fn logged(c: DemoContact, i: nat) -> QsoModel {
    QsoModel {
        id: contact_id(i),
        call: c.call@,
        timestamp: time::regular(
            (time::CONTEST_START_SECOND + c.minutes * 60) * 1_000_000_000,
        ),
        band: Some(c.band),
        frequency: None,
        mode: "CW"@,
        name: Some(c.name@),
        location: Some(c.location@),
        country: text::opt_str(c.country),
        dxcc: None,
        contest_id: Some("NAQP-CW"@),
        deleted: false,
        raw: JsonModel::Null,
    }
}

/// The log with the first `n` contacts of `table`.
pub open spec fn log_of(table: Seq<DemoContact>, n: nat) -> Seq<(Seq<char>, QsoModel)>
    decreases n,
{
    if n == 0 {
        Seq::empty()
    } else {
        let i = (n - 1) as nat;
        string_map::inserted(log_of(table, i), contact_id(i), logged(table[i as int], i))
    }
}

fn demo_contact(c: DemoContact, i: usize) -> (r: Qso)
    requires
        c.minutes < 1000,
    ensures
        r@ == logged(c, i as nat),
{
    let mut id = text::owned("demo-");
    numbers::push_decimal(&mut id, i as u64);
    let country = match c.country {
        Some(name) => Some(text::owned(name)),
        None => None,
    };
    Qso {
        id,
        call: text::owned(c.call),
        timestamp: time::contest_start().later_by(c.minutes * 60),
        band: Some(c.band),
        frequency_khz: None,
        mode: text::owned("CW"),
        name: Some(text::owned(c.name)),
        location: Some(text::owned(c.location)),
        country,
        dxcc: None,
        contest_id: Some(text::owned("NAQP-CW")),
        deleted: false,
        raw: Json::Null,
    }
}

fn demo_log() -> (r: Log)
    ensures
        r@ == log_of(contacts(), 10),
{
    let table = all_contacts();
    let mut log: Log = StringMap::new();
    let mut i: usize = 0;
    while i < table.len()
        invariant
            i <= table@.len(),
            table@ == contacts(),
            log@ == log_of(contacts(), i as nat),
        decreases table.len() - i,
    {
        assert(table@[i as int].minutes < 1000);
        let qso = demo_contact(table[i], i);
        let id = qso.id.clone();
        log.insert(id, qso);
        i = i + 1;
    }
    log
}

/// A station that the demonstration shows as heard.
pub open spec fn heard(
    call: Seq<char>,
    band: Band,
    tenths_khz: int,
    class: SpotClass,
    multiplier: Option<Seq<char>>,
    time: Instant,
    reports: u32,
) -> SpotModel {
    let raw = RawModel {
        call,
        frequency: Frequency { picohertz: (tenths_khz * 100_000_000_000_000) as i128 },
        band,
        time,
        spotter: "WZ7I-#"@,
        snr_db: Some(16),
        speed_wpm: Some(28),
    };
    SpotModel {
        id: "demo-"@ + call + "-"@ + band.name(),
        reports,
        ..spots::first_report(raw, class, multiplier)
    }
}

/// The stations that the demonstration shows as heard at `now`.
pub open spec fn heard_at(now: Instant) -> Seq<SpotModel> {
    seq![
        heard(
            "N6RO"@,
            Band::B20,
            140_314,
            SpotClass::VerifiedMultiplier,
            Some("CA"@),
            now,
            3,
        ),
        heard(
            "W7RN"@,
            Band::B20,
            140_382,
            SpotClass::PredictedMultiplier,
            Some("NV?"@),
            time::seconds_before(now, 18),
            2,
        ),
        heard(
            "K3LR"@,
            Band::B20,
            140_268,
            SpotClass::Worked,
            Some("PA"@),
            time::seconds_before(now, 36),
            5,
        ),
        heard(
            "ZF1A"@,
            Band::B15,
            210_330,
            SpotClass::Unknown,
            None,
            time::seconds_before(now, 51),
            1,
        ),
    ]
}

fn demo_spot(
    call: &str,
    band: Band,
    tenths_khz: u32,
    class: SpotClass,
    multiplier: Option<&str>,
    time: Timestamp,
    reports: u32,
) -> (r: Spot)
    ensures
        r@ == heard(
            call@,
            band,
            tenths_khz as int,
            class,
            text::opt_str(multiplier),
            time@,
            reports,
        ),
{
    let raw = RawSpot {
        call: text::owned(call),
        frequency_khz: Frequency::from_tenths(tenths_khz),
        band,
        time,
        spotter: text::owned("WZ7I-#"),
        snr_db: Some(16),
        speed_wpm: Some(28),
    };
    let row = match multiplier {
        Some(m) => Some(text::owned(m)),
        None => None,
    };
    let mut spot = spots::start_spot(&raw, class, row);
    let mut id = text::owned("demo-");
    text::push_text(&mut id, call);
    text::push_text(&mut id, "-");
    text::push_text(&mut id, band.label().as_str());
    spot.id = id;
    spot.reports = reports;
    spot
}

/// The state of the demonstration.
pub open spec fn demonstration(spots_enabled: bool, now: Instant) -> RuntimeModel {
    RuntimeModel {
        qsos: log_of(contacts(), 10),
        spots: heard_at(now),
        operations: seq![
            OperationModel {
                id: "demo-naqp"@,
                title: "NAQP CW Demo Operation"@,
                station_call: None,
                subtitle: None,
                qso_count: None,
                start: Some(time::regular(time::CONTEST_START_SECOND * 1_000_000_000)),
                end: None,
                is_naqp: true,
            },
        ],
        selected_operation: Some("demo-naqp"@),
        source: "Synthetic demo data — no private log loaded"@,
        source_kind: None,
        source_freshness: Some(now),
        lofi_status: "demo mode; LoFi can still be linked below"@,
        lofi_account_call: None,
        import_diagnostics: adif::no_import(),
        source_diagnostics: Seq::empty(),
        spot_status: if spots_enabled {
            "demo candidates; live connection starting"@
        } else {
            "disabled — Single Operator safe"@
        },
        spots_enabled,
        spot_limits: runtime::usual_limits(),
        demo: true,
    }
}

/// The state of the demonstration.
pub fn demo_runtime(spots_enabled: bool, now: Timestamp) -> (r: Runtime)
    ensures
        r@ == demonstration(spots_enabled, now@),
{
    let spots: Vec<Spot> = vec![
        demo_spot(
            "N6RO",
            Band::B20,
            140_314,
            SpotClass::VerifiedMultiplier,
            Some("CA"),
            now,
            3,
        ),
        demo_spot(
            "W7RN",
            Band::B20,
            140_382,
            SpotClass::PredictedMultiplier,
            Some("NV?"),
            now.earlier_by(18),
            2,
        ),
        demo_spot(
            "K3LR",
            Band::B20,
            140_268,
            SpotClass::Worked,
            Some("PA"),
            now.earlier_by(36),
            5,
        ),
        demo_spot("ZF1A", Band::B15, 210_330, SpotClass::Unknown, None, now.earlier_by(51), 1),
    ];
    assert(string_map::views(spots@) =~= heard_at(now@));
    let operations: Vec<Operation> = vec![
        Operation {
            id: text::owned("demo-naqp"),
            title: text::owned("NAQP CW Demo Operation"),
            station_call: None,
            subtitle: None,
            qso_count: None,
            start: Some(time::contest_start()),
            end: None,
            is_naqp: true,
        },
    ];
    let source_diagnostics: Vec<RecordDiagnostic> = Vec::new();
    let out = Runtime {
        qsos: demo_log(),
        spots,
        operations,
        selected_operation: Some(text::owned("demo-naqp")),
        source: text::owned("Synthetic demo data — no private log loaded"),
        source_kind: None,
        source_freshness: Some(now),
        lofi_status: text::owned("demo mode; LoFi can still be linked below"),
        lofi_account_call: None,
        import_diagnostics: ImportDiagnostics::default(),
        source_diagnostics,
        spot_status: if spots_enabled {
            text::owned("demo candidates; live connection starting")
        } else {
            text::owned("disabled — Single Operator safe")
        },
        spots_enabled,
        spot_limits: SpotLimits::default(),
        demo: true,
    };
    assert(out@.operations =~= demonstration(spots_enabled, now@).operations);
    assert(out@.source_diagnostics =~= Seq::empty());
    out
}

impl Runtime {
    /// Turns the demonstration on, or off: then the last good log is shown again. Whether spots
    /// are enabled, and what bounds them, stays as it is.
    pub fn toggle_demo(&mut self, enabled: bool, restored: Option<PersistedState>, now: Timestamp)
        ensures
            final(self)@ == (RuntimeModel {
                spot_limits: old(self)@.spot_limits,
                ..if enabled {
                    demonstration(old(self)@.spots_enabled, now@)
                } else {
                    runtime::started(old(self)@.spots_enabled, runtime::state_in(restored))
                }
            }),
    {
        let spots_enabled = self.spots_enabled;
        let spot_limits = self.spot_limits;
        if enabled {
            *self = demo_runtime(spots_enabled, now);
        } else {
            *self = Runtime::normal(spots_enabled, restored);
        }
        self.spot_limits = spot_limits;
    }
}

/// The contacts of the demonstration are of the contest and none is deleted: each was made so many
/// minutes after its beginning and before its end, in Morse code, with a name, a location and a
/// band; and each stands in the log under its own identifier.
pub proof fn law_demonstration_shows_contacts_of_the_contest(i: nat, n: nat)
    requires
        i < n <= contacts().len(),
    ensures
        ({
            let q = logged(contacts()[i as int], i);
            &&& contacts().len() == 10
            &&& q.timestamp.second == time::CONTEST_START_SECOND + contacts()[i as int].minutes * 60
            &&& q.timestamp.nanos == 0
            &&& time::CONTEST_START_SECOND <= q.timestamp.second < time::CONTEST_END_SECOND
            &&& q.mode == "CW"@
            &&& q.contest_id == Some("NAQP-CW"@)
            &&& !q.deleted
            &&& q.call == contacts()[i as int].call@
            &&& q.band == Some(contacts()[i as int].band)
            &&& q.name == Some(contacts()[i as int].name@)
            &&& q.location == Some(contacts()[i as int].location@)
            &&& string_map::lookup(log_of(contacts(), n), q.id) == Some(q)
        }),
    decreases n,
{
    lemma_log_is_ordered(n);
    let j = (n - 1) as nat;
    lemma_log_is_ordered(j);
    string_map::lemma_inserted(log_of(contacts(), j), contact_id(j), logged(contacts()[j as int], j));
    if i < j {
        law_demonstration_shows_contacts_of_the_contest(i, j);
        lemma_identifiers_differ(i, j);
    }
    assert(string_map::lookup(log_of(contacts(), j), contact_id(i)) == string_map::lookup(
        log_of(contacts(), j),
        contact_id(i),
    ));
}

proof fn lemma_log_is_ordered(n: nat)
    requires
        n <= contacts().len(),
    ensures
        string_map::ordered(log_of(contacts(), n)),
    decreases n,
{
    if n > 0 {
        let j = (n - 1) as nat;
        lemma_log_is_ordered(j);
        string_map::lemma_inserted(
            log_of(contacts(), j),
            contact_id(j),
            logged(contacts()[j as int], j),
        );
    }
}

proof fn lemma_identifiers_differ(i: nat, j: nat)
    requires
        i != j,
    ensures
        contact_id(i) != contact_id(j),
{
    let most = if i < j {
        j
    } else {
        i
    };
    numbers::law_decimal_reads_back(i, most);
    numbers::law_decimal_reads_back(j, most);
    if contact_id(i) == contact_id(j) {
        let k = "demo-"@.len() as int;
        assert(contact_id(i).skip(k) =~= numbers::decimal(i));
        assert(contact_id(j).skip(k) =~= numbers::decimal(j));
    }
}

/// The stations of the demonstration are heard on frequencies of their bands, lately, and none is
/// out of date.
pub proof fn law_demonstration_shows_stations_on_their_bands(now: Instant, i: int)
    requires
        0 <= i < heard_at(now).len(),
    ensures
        ({
            let s = heard_at(now)[i];
            &&& model::band_of(s.frequency.picohertz as int) == Some(s.band)
            &&& !s.stale
            &&& s.reports > 0
            &&& s.time == now || exists|k: int|
                0 < k < 60 && s.time == #[trigger] time::seconds_before(now, k)
        }),
{
    let s = heard_at(now)[i];
    assert(s.time == now || s.time == time::seconds_before(now, 18) || s.time
        == time::seconds_before(now, 36) || s.time == time::seconds_before(now, 51));
}

/// The demonstration says that it is one, shows its own log and stations, and comes from no source
/// and no account.
pub proof fn law_demonstration_is_apart(spots_enabled: bool, now: Instant)
    ensures
        ({
            let m = demonstration(spots_enabled, now);
            &&& m.demo
            &&& m.spots_enabled == spots_enabled
            &&& m.qsos == log_of(contacts(), contacts().len())
            &&& m.spots == heard_at(now)
            &&& m.source_kind is None
            &&& m.source_freshness == Some(now)
            &&& m.lofi_account_call is None
            &&& m.source_diagnostics.len() == 0
            &&& m.operations.len() == 1 && m.operations[0].is_naqp && m.selected_operation == Some(
                m.operations[0].id,
            )
        }),
{
}

} // verus!
