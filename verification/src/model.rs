//! Bands, contacts, spots and operations, and the sources they come from.
use vstd::prelude::*;

pub use crate::evidence::EvidenceSource;
pub use crate::evidence::LocationConclusion;
pub use crate::evidence::LocationConfidence;
pub use crate::evidence::LocationEvidence;
pub use crate::evidence::NameConclusion;
pub use crate::evidence::NameConfidence;
pub use crate::evidence::NameEvidence;
pub use crate::evidence::ParticipationConclusion;
pub use crate::evidence::ParticipationConfidence;
pub use crate::evidence::ParticipationEvidence;
pub use crate::evidence::StationEvidence;
pub use crate::source_policy::SourceCapability;
pub use crate::source_policy::SourceId;
pub use crate::source_policy::SourcePolicy;
pub use crate::source_policy::SourceStatus;

use crate::frequency::Frequency;
use crate::json::Json;
use crate::json::JsonModel;
use crate::numbers;
use crate::string_map::Duplicate;
use crate::string_map::StringMap;
use crate::text;
use crate::text::CharClass;
use crate::time;
use crate::time::Instant;
use crate::time::Timestamp;

verus! {

// ---------------------------------------------------------------------------------------------
// Bands
// ---------------------------------------------------------------------------------------------
/// The contest bands.
#[derive(Debug, Clone, Copy, PartialEq, Eq, PartialOrd, Ord, Hash, Structural)]
pub enum Band {
    B160,
    B80,
    B40,
    B20,
    B15,
    B10,
}

/// The bands in the order of the contest log.
pub open spec fn all_bands() -> Seq<Band> {
    seq![Band::B160, Band::B80, Band::B40, Band::B20, Band::B15, Band::B10]
}

/// The band that holds a frequency in picohertz; both edges belong to a band.
pub open spec fn band_of(picohertz: int) -> Option<Band> {
    if 1_800_000_000_000_000_000 <= picohertz <= 2_000_000_000_000_000_000 {
        Some(Band::B160)
    } else if 3_500_000_000_000_000_000 <= picohertz <= 4_000_000_000_000_000_000 {
        Some(Band::B80)
    } else if 7_000_000_000_000_000_000 <= picohertz <= 7_300_000_000_000_000_000 {
        Some(Band::B40)
    } else if 14_000_000_000_000_000_000 <= picohertz <= 14_350_000_000_000_000_000 {
        Some(Band::B20)
    } else if 21_000_000_000_000_000_000 <= picohertz <= 21_450_000_000_000_000_000 {
        Some(Band::B15)
    } else if 28_000_000_000_000_000_000 <= picohertz <= 29_700_000_000_000_000_000 {
        Some(Band::B10)
    } else {
        None
    }
}

/// The band that `s` names: its wavelength in meters, with or without the unit behind it.
pub open spec fn band_named(s: Seq<char>) -> Option<Band> {
    let n = text::strip_end(text::lower(text::trimmed(s)), CharClass::Is('m'));
    if n == "160"@ {
        Some(Band::B160)
    } else if n == "80"@ {
        Some(Band::B80)
    } else if n == "40"@ {
        Some(Band::B40)
    } else if n == "20"@ {
        Some(Band::B20)
    } else if n == "15"@ {
        Some(Band::B15)
    } else if n == "10"@ {
        Some(Band::B10)
    } else {
        None
    }
}

impl Band {
    /// The band's place in the order of the contest log.
    pub open spec fn place(self) -> int {
        match self {
            Band::B160 => 0,
            Band::B80 => 1,
            Band::B40 => 2,
            Band::B20 => 3,
            Band::B15 => 4,
            Band::B10 => 5,
        }
    }

    /// The wavelength.
    pub open spec fn wavelength(self) -> int {
        match self {
            Band::B160 => 160,
            Band::B80 => 80,
            Band::B40 => 40,
            Band::B20 => 20,
            Band::B15 => 15,
            Band::B10 => 10,
        }
    }

    /// The wavelength with its unit.
    pub open spec fn name(self) -> Seq<char> {
        numbers::decimal(self.wavelength() as nat) + "m"@
    }

    pub fn all() -> (r: Vec<Band>)
        ensures
            r@ == all_bands(),
    {
        let v = vec![Band::B160, Band::B80, Band::B40, Band::B20, Band::B15, Band::B10];
        assert(v@ =~= all_bands());
        v
    }

    pub fn from_frequency_khz(frequency: Frequency) -> (r: Option<Band>)
        ensures
            r == band_of(frequency.picohertz as int),
    {
        let f = frequency.picohertz;
        if 1_800_000_000_000_000_000 <= f && f <= 2_000_000_000_000_000_000 {
            Some(Band::B160)
        } else if 3_500_000_000_000_000_000 <= f && f <= 4_000_000_000_000_000_000 {
            Some(Band::B80)
        } else if 7_000_000_000_000_000_000 <= f && f <= 7_300_000_000_000_000_000 {
            Some(Band::B40)
        } else if 14_000_000_000_000_000_000 <= f && f <= 14_350_000_000_000_000_000 {
            Some(Band::B20)
        } else if 21_000_000_000_000_000_000 <= f && f <= 21_450_000_000_000_000_000 {
            Some(Band::B15)
        } else if 28_000_000_000_000_000_000 <= f && f <= 29_700_000_000_000_000_000 {
            Some(Band::B10)
        } else {
            None
        }
    }

    pub fn meters(self) -> (r: u16)
        ensures
            r == self.wavelength(),
    {
        match self {
            Band::B160 => 160,
            Band::B80 => 80,
            Band::B40 => 40,
            Band::B20 => 20,
            Band::B15 => 15,
            Band::B10 => 10,
        }
    }

    /// The band's place in the order of the contest log.
    pub fn position(self) -> (r: usize)
        ensures
            r == self.place(),
            r < 6,
    {
        match self {
            Band::B160 => 0,
            Band::B80 => 1,
            Band::B40 => 2,
            Band::B20 => 3,
            Band::B15 => 4,
            Band::B10 => 5,
        }
    }

    /// The band as text, as in `20m`.
    pub fn label(self) -> (r: String)
        ensures
            r@ == self.name(),
    {
        let mut out = numbers::decimal_text(self.meters() as u64);
        text::push_text(&mut out, "m");
        out
    }

    /// Reads the name of a band.
    pub fn parse(value: &str) -> (r: Option<Band>)
        ensures
            r == band_named(value@),
    {
        let lowered = text::to_lower(text::trim(value).as_str());
        let n = text::strip_right(lowered.as_str(), CharClass::Is('m'));
        let s = n.as_str();
        if text::same(s, "160") {
            Some(Band::B160)
        } else if text::same(s, "80") {
            Some(Band::B80)
        } else if text::same(s, "40") {
            Some(Band::B40)
        } else if text::same(s, "20") {
            Some(Band::B20)
        } else if text::same(s, "15") {
            Some(Band::B15)
        } else if text::same(s, "10") {
            Some(Band::B10)
        } else {
            None
        }
    }
}

impl std::str::FromStr for Band {
    type Err = ();

    /// Reads the name of a band; what is no such name is refused.
    fn from_str(value: &str) -> (r: Result<Self, Self::Err>)
        ensures
            r == match band_named(value@) {
                Some(band) => Ok::<Band, ()>(band),
                None => Err::<Band, ()>(()),
            },
    {
        match Band::parse(value) {
            Some(band) => Ok(band),
            None => Err(()),
        }
    }
}

/// The wavelength and the place in the log order each tell a band from every other.
pub proof fn law_bands_differ(band: Band, other: Band)
    ensures
        band.wavelength() == other.wavelength() ==> band == other,
        band.place() == other.place() ==> band == other,
        all_bands()[band.place()] == band,
{
}

/// Reading the label of a band gives the band back.
pub proof fn law_band_label_reads_back(band: Band)
    ensures
        band_named(band.name()) == Some(band),
{
    reveal_strlit("m");
    reveal_strlit("160");
    reveal_strlit("80");
    reveal_strlit("40");
    reveal_strlit("20");
    reveal_strlit("15");
    reveal_strlit("10");
    reveal_with_fuel(numbers::decimal, 4);
    reveal_with_fuel(text::strip_end, 3);
    let s = band.name();
    assert(text::trimmed(s) == s);
    assert(text::lower(s) =~= s);
    assert(s.drop_last() =~= numbers::decimal(band.wavelength() as nat));
    let n = text::strip_end(s, CharClass::Is('m'));
    assert(n == s.drop_last());
    match band {
        Band::B160 => {
            assert(n =~= "160"@);
        },
        Band::B80 => {
            assert(n =~= "80"@);
        },
        Band::B40 => {
            assert(n =~= "40"@);
        },
        Band::B20 => {
            assert(n =~= "20"@);
        },
        Band::B15 => {
            assert(n =~= "15"@);
        },
        Band::B10 => {
            assert(n =~= "10"@);
        },
    }
    assert("160"@.len() == 3);
    assert("80"@[0] == '8' && "40"@[0] == '4' && "20"@[0] == '2' && "15"@[1] == '5' && "10"@[1]
        == '0');
}

// ---------------------------------------------------------------------------------------------
// Callsigns
// ---------------------------------------------------------------------------------------------
/// A callsign as the log compares it: trimmed and in capitals.
pub open spec fn normalized(call: Seq<char>) -> Seq<char> {
    text::upper(text::trimmed(call))
}

/// A plausible callsign in normal form stays as it is when it is normalized again.
pub proof fn lemma_normal_form(call: Seq<char>)
    requires
        plausible(normalized(call)),
    ensures
        normalized(normalized(call)) == normalized(call),
{
    let n = normalized(call);
    assert(text::trimmed(n) == n);
    assert(text::upper(n) =~= n);
}

pub fn normalize_call(call: &str) -> (r: String)
    ensures
        r@ == normalized(call@),
{
    text::trim_upper(call)
}

/// Whether the two callsigns are the same station's.
pub fn calls_equivalent(a: &str, b: &str) -> (r: bool)
    ensures
        r == (normalized(a@) == normalized(b@)),
{
    text::same(normalize_call(a).as_str(), normalize_call(b).as_str())
}

pub open spec fn call_char(c: char) -> bool {
    text::is_letter(c) || text::is_digit(c) || c == '/'
}

/// The text could be a callsign: three to sixteen letters, digits and strokes, with at least one
/// letter and one digit.
pub open spec fn plausible(call: Seq<char>) -> bool {
    &&& 3 <= call.len() <= 16
    &&& forall|i: int| 0 <= i < call.len() ==> call_char(#[trigger] call[i])
    &&& exists|i: int| 0 <= i < call.len() && text::is_letter(#[trigger] call[i])
    &&& exists|i: int| 0 <= i < call.len() && text::is_digit(#[trigger] call[i])
}

pub fn is_plausible_call(call: &str) -> (r: bool)
    ensures
        r == plausible(call@),
{
    let v = text::chars_of(call);
    if v.len() < 3 || v.len() > 16 {
        return false;
    }
    let mut letters = false;
    let mut digits = false;
    let mut i: usize = 0;
    while i < v.len()
        invariant
            i <= v@.len(),
            v@ == call@,
            3 <= v@.len() <= 16,
            forall|j: int| 0 <= j < i ==> call_char(#[trigger] v@[j]),
            letters == exists|j: int| 0 <= j < i && text::is_letter(#[trigger] v@[j]),
            digits == exists|j: int| 0 <= j < i && text::is_digit(#[trigger] v@[j]),
        decreases v.len() - i,
    {
        let c = v[i];
        if text::letter(c) {
            letters = true;
        } else if text::digit(c) {
            digits = true;
        } else if c != '/' {
            assert(!call_char(v@[i as int]));
            return false;
        }
        i = i + 1;
    }
    letters && digits
}

// ---------------------------------------------------------------------------------------------
// Contacts
// ---------------------------------------------------------------------------------------------
/// A contact of the log.
#[derive(Debug)]
pub struct Qso {
    pub id: String,
    pub call: String,
    pub timestamp: Timestamp,
    pub band: Option<Band>,
    pub frequency_khz: Option<Frequency>,
    pub mode: String,
    pub name: Option<String>,
    pub location: Option<String>,
    pub country: Option<String>,
    pub dxcc: Option<u32>,
    pub contest_id: Option<String>,
    pub deleted: bool,
    pub raw: Json,
}

/// The model of a contact.
#[verifier::ext_equal]
pub struct QsoModel {
    pub id: Seq<char>,
    pub call: Seq<char>,
    pub timestamp: Instant,
    pub band: Option<Band>,
    pub frequency: Option<Frequency>,
    pub mode: Seq<char>,
    pub name: Option<Seq<char>>,
    pub location: Option<Seq<char>>,
    pub country: Option<Seq<char>>,
    pub dxcc: Option<u32>,
    pub contest_id: Option<Seq<char>>,
    pub deleted: bool,
    pub raw: JsonModel,
}

impl View for Qso {
    type V = QsoModel;

    open spec fn view(&self) -> QsoModel {
        QsoModel {
            id: self.id@,
            call: self.call@,
            timestamp: self.timestamp@,
            band: self.band,
            frequency: self.frequency_khz,
            mode: self.mode@,
            name: text::opt_text(self.name),
            location: text::opt_text(self.location),
            country: text::opt_text(self.country),
            dxcc: self.dxcc,
            contest_id: text::opt_text(self.contest_id),
            deleted: self.deleted,
            raw: self.raw@,
        }
    }
}

impl Qso {
    pub fn normalized_call(&self) -> (r: String)
        ensures
            r@ == normalized(self@.call),
    {
        normalize_call(self.call.as_str())
    }

    /// Whether the two contacts are the same in every field.
    pub fn same(&self, other: &Qso) -> (r: bool)
        ensures
            r == (self@ == other@),
    {
        let same_frequency = match (self.frequency_khz, other.frequency_khz) {
            (Some(a), Some(b)) => a == b,
            (None, None) => true,
            _ => false,
        };
        let same_band = match (self.band, other.band) {
            (Some(a), Some(b)) => a == b,
            (None, None) => true,
            _ => false,
        };
        text::same(self.id.as_str(), other.id.as_str()) && text::same(
            self.call.as_str(),
            other.call.as_str(),
        ) && time::same_time(self.timestamp, other.timestamp) && same_band && same_frequency
            && text::same(self.mode.as_str(), other.mode.as_str()) && text::same_opt(
            &self.name,
            &other.name,
        ) && text::same_opt(&self.location, &other.location) && text::same_opt(
            &self.country,
            &other.country,
        ) && self.dxcc == other.dxcc && text::same_opt(&self.contest_id, &other.contest_id)
            && self.deleted == other.deleted && self.raw.same(&other.raw)
    }
}

impl Duplicate for Qso {
    fn duplicate(&self) -> (r: Self) {
        Qso {
            id: self.id.clone(),
            call: self.call.clone(),
            timestamp: self.timestamp,
            band: self.band,
            frequency_khz: self.frequency_khz,
            mode: self.mode.clone(),
            name: text::copy_opt(&self.name),
            location: text::copy_opt(&self.location),
            country: text::copy_opt(&self.country),
            dxcc: self.dxcc,
            contest_id: text::copy_opt(&self.contest_id),
            deleted: self.deleted,
            raw: self.raw.duplicate(),
        }
    }
}

// ---------------------------------------------------------------------------------------------
// Spots
// ---------------------------------------------------------------------------------------------
/// What a spotted station would be worth.
#[derive(Debug, Clone, Copy, PartialEq, Eq, Structural)]
pub enum SpotClass {
    VerifiedMultiplier,
    PredictedMultiplier,
    NeededQso,
    Worked,
    Unknown,
}

/// A set of texts.
pub type TextSet = StringMap<()>;

impl Duplicate for () {
    fn duplicate(&self) -> (r: Self) {
        ()
    }
}

/// A station that was heard on a band, with all reports of it taken together.
pub struct Spot {
    pub id: String,
    pub call: String,
    pub frequency_khz: Frequency,
    pub band: Band,
    pub time: Timestamp,
    pub spotter: String,
    pub spotters: TextSet,
    pub snr_db: Option<i16>,
    pub best_snr_db: Option<i16>,
    pub speed_wpm: Option<u16>,
    pub class: SpotClass,
    pub predicted_multiplier: Option<String>,
    pub reports: u32,
    pub preferred_spotter: bool,
    pub stale: bool,
    pub local_time: Option<Timestamp>,
    pub local_frequency_khz: Option<Frequency>,
    pub local_spotter: Option<String>,
    pub local_spotters: TextSet,
    pub local_sites: TextSet,
    pub local_snr_db: Option<i16>,
    pub local_best_snr_db: Option<i16>,
    pub local_speed_wpm: Option<u16>,
    pub local_reports: u32,
    pub nearest_local_km: Option<u32>,
}

/// The model of a spot.
#[verifier::ext_equal]
pub struct SpotModel {
    pub id: Seq<char>,
    pub call: Seq<char>,
    pub frequency: Frequency,
    pub band: Band,
    pub time: Instant,
    pub spotter: Seq<char>,
    pub spotters: Seq<(Seq<char>, ())>,
    pub snr_db: Option<i16>,
    pub best_snr_db: Option<i16>,
    pub speed_wpm: Option<u16>,
    pub class: SpotClass,
    pub predicted_multiplier: Option<Seq<char>>,
    pub reports: u32,
    pub preferred_spotter: bool,
    pub stale: bool,
    pub local_time: Option<Instant>,
    pub local_frequency: Option<Frequency>,
    pub local_spotter: Option<Seq<char>>,
    pub local_spotters: Seq<(Seq<char>, ())>,
    pub local_sites: Seq<(Seq<char>, ())>,
    pub local_snr_db: Option<i16>,
    pub local_best_snr_db: Option<i16>,
    pub local_speed_wpm: Option<u16>,
    pub local_reports: u32,
    pub nearest_local_km: Option<u32>,
}

impl View for Spot {
    type V = SpotModel;

    open spec fn view(&self) -> SpotModel {
        SpotModel {
            id: self.id@,
            call: self.call@,
            frequency: self.frequency_khz,
            band: self.band,
            time: self.time@,
            spotter: self.spotter@,
            spotters: self.spotters@,
            snr_db: self.snr_db,
            best_snr_db: self.best_snr_db,
            speed_wpm: self.speed_wpm,
            class: self.class,
            predicted_multiplier: text::opt_text(self.predicted_multiplier),
            reports: self.reports,
            preferred_spotter: self.preferred_spotter,
            stale: self.stale,
            local_time: time::opt_time(self.local_time),
            local_frequency: self.local_frequency_khz,
            local_spotter: text::opt_text(self.local_spotter),
            local_spotters: self.local_spotters@,
            local_sites: self.local_sites@,
            local_snr_db: self.local_snr_db,
            local_best_snr_db: self.local_best_snr_db,
            local_speed_wpm: self.local_speed_wpm,
            local_reports: self.local_reports,
            nearest_local_km: self.nearest_local_km,
        }
    }
}

impl Duplicate for Spot {
    fn duplicate(&self) -> (r: Self) {
        Spot {
            id: self.id.clone(),
            call: self.call.clone(),
            frequency_khz: self.frequency_khz,
            band: self.band,
            time: self.time,
            spotter: self.spotter.clone(),
            spotters: self.spotters.duplicate(),
            snr_db: self.snr_db,
            best_snr_db: self.best_snr_db,
            speed_wpm: self.speed_wpm,
            class: self.class,
            predicted_multiplier: text::copy_opt(&self.predicted_multiplier),
            reports: self.reports,
            preferred_spotter: self.preferred_spotter,
            stale: self.stale,
            local_time: self.local_time,
            local_frequency_khz: self.local_frequency_khz,
            local_spotter: text::copy_opt(&self.local_spotter),
            local_spotters: self.local_spotters.duplicate(),
            local_sites: self.local_sites.duplicate(),
            local_snr_db: self.local_snr_db,
            local_best_snr_db: self.local_best_snr_db,
            local_speed_wpm: self.local_speed_wpm,
            local_reports: self.local_reports,
            nearest_local_km: self.nearest_local_km,
        }
    }
}

// ---------------------------------------------------------------------------------------------
// Operations and diagnostics
// ---------------------------------------------------------------------------------------------
/// An operation of the log service: the log of one outing.
#[derive(Debug)]
pub struct Operation {
    pub id: String,
    pub title: String,
    pub station_call: Option<String>,
    pub subtitle: Option<String>,
    pub qso_count: Option<u64>,
    pub start: Option<Timestamp>,
    pub end: Option<Timestamp>,
    pub is_naqp: bool,
}

/// The model of an operation.
#[verifier::ext_equal]
pub struct OperationModel {
    pub id: Seq<char>,
    pub title: Seq<char>,
    pub station_call: Option<Seq<char>>,
    pub subtitle: Option<Seq<char>>,
    pub qso_count: Option<u64>,
    pub start: Option<Instant>,
    pub end: Option<Instant>,
    pub is_naqp: bool,
}

impl View for Operation {
    type V = OperationModel;

    open spec fn view(&self) -> OperationModel {
        OperationModel {
            id: self.id@,
            title: self.title@,
            station_call: text::opt_text(self.station_call),
            subtitle: text::opt_text(self.subtitle),
            qso_count: self.qso_count,
            start: time::opt_time(self.start),
            end: time::opt_time(self.end),
            is_naqp: self.is_naqp,
        }
    }
}

impl Duplicate for Operation {
    fn duplicate(&self) -> (r: Self) {
        Operation {
            id: self.id.clone(),
            title: self.title.clone(),
            station_call: text::copy_opt(&self.station_call),
            subtitle: text::copy_opt(&self.subtitle),
            qso_count: self.qso_count,
            start: self.start,
            end: self.end,
            is_naqp: self.is_naqp,
        }
    }
}

/// Why a record of a source is no contact.
#[derive(Debug, Clone, Copy, PartialEq, Eq, Structural)]
pub enum RecordReason {
    EventOrNonContact,
    MissingCall,
    MissingTimestamp,
    MalformedRecord,
}

/// A record of a source that is no contact.
#[derive(Debug)]
pub struct RecordDiagnostic {
    pub id: Option<String>,
    pub reason: RecordReason,
    pub detail: String,
}

/// The model of a diagnostic.
#[verifier::ext_equal]
pub struct DiagnosticModel {
    pub id: Option<Seq<char>>,
    pub reason: RecordReason,
    pub detail: Seq<char>,
}

impl View for RecordDiagnostic {
    type V = DiagnosticModel;

    open spec fn view(&self) -> DiagnosticModel {
        DiagnosticModel {
            id: text::opt_text(self.id),
            reason: self.reason,
            detail: self.detail@,
        }
    }
}

impl Duplicate for RecordDiagnostic {
    fn duplicate(&self) -> (r: Self) {
        RecordDiagnostic {
            id: text::copy_opt(&self.id),
            reason: self.reason,
            detail: self.detail.clone(),
        }
    }
}

// ---------------------------------------------------------------------------------------------
// Laws of bands and callsigns
// ---------------------------------------------------------------------------------------------
/// The bands reach, in kilohertz and with both edges, from 1800 to 2000, from 3500 to 4000, from 7000
/// to 7300, from 14000 to 14350, from 21000 to 21450 and from 28000 to 29700.
pub proof fn law_band_edges(picohertz: int)
    ensures
        ({
            let khz = 1_000_000_000_000_000int;
            let b = band_of(picohertz);
            &&& b == Some(Band::B160) <==> 1800 * khz <= picohertz <= 2000 * khz
            &&& b == Some(Band::B80) <==> 3500 * khz <= picohertz <= 4000 * khz
            &&& b == Some(Band::B40) <==> 7000 * khz <= picohertz <= 7300 * khz
            &&& b == Some(Band::B20) <==> 14000 * khz <= picohertz <= 14350 * khz
            &&& b == Some(Band::B15) <==> 21000 * khz <= picohertz <= 21450 * khz
            &&& b == Some(Band::B10) <==> 28000 * khz <= picohertz <= 29700 * khz
        }),
{
}

/// A band is named by its wavelength: the case of letters and space around it do not matter, and
/// what names a band is the wavelength with nothing but the letter m behind it.
pub proof fn law_band_names(s: Seq<char>, band: Band)
    ensures
        band_named(text::upper(s)) == band_named(s),
        band_named(text::trimmed(s)) == band_named(s),
        band_named(numbers::decimal(band.wavelength() as nat)) == Some(band),
        band_named(s) == Some(band) ==> text::starts_with(
            text::trimmed(s),
            numbers::decimal(band.wavelength() as nat),
        ),
        band_named(s) == Some(band) ==> forall|i: int|
            numbers::decimal(band.wavelength() as nat).len() <= i < text::trimmed(s).len() ==> (
            #[trigger] text::trimmed(s)[i] == 'm' || text::trimmed(s)[i] == 'M'),
        band.wavelength() == 160 || band.wavelength() == 80 || band.wavelength() == 40
            || band.wavelength() == 20 || band.wavelength() == 15 || band.wavelength() == 10,
{
    text::law_trimmed(s);
    lemma_trimmed_upper(s);
    let t = text::trimmed(s);
    assert(text::lower(text::upper(t)) =~= text::lower(t));
    reveal_strlit("160");
    reveal_strlit("80");
    reveal_strlit("40");
    reveal_strlit("20");
    reveal_strlit("15");
    reveal_strlit("10");
    reveal_with_fuel(numbers::decimal, 4);
    let w = numbers::decimal(band.wavelength() as nat);
    match band {
        Band::B160 => {
            assert(w =~= "160"@);
        },
        Band::B80 => {
            assert(w =~= "80"@);
        },
        Band::B40 => {
            assert(w =~= "40"@);
        },
        Band::B20 => {
            assert(w =~= "20"@);
        },
        Band::B15 => {
            assert(w =~= "15"@);
        },
        Band::B10 => {
            assert(w =~= "10"@);
        },
    }
    assert(text::trimmed(w) == w);
    assert(text::lower(w) =~= w);
    assert(text::strip_end(w, CharClass::Is('m')) == w);
    assert("160"@.len() == 3);
    assert("80"@[0] == '8' && "40"@[0] == '4' && "20"@[0] == '2' && "15"@[1] == '5' && "10"@[1]
        == '0');
    if band_named(s) == Some(band) {
        let l = text::lower(t);
        text::law_stripped(l, CharClass::Is('m'));
        let n = text::strip_end(l, CharClass::Is('m'));
        assert(n == w);
        assert(n == l.take(n.len() as int));
        assert forall|i: int| 0 <= i < w.len() implies t[i] == w[i] by {
            assert(l[i] == n[i]);
            assert(l[i] == text::lower_char(t[i]));
        }
        assert(t.take(w.len() as int) =~= w);
        assert forall|i: int| w.len() <= i < t.len() implies (#[trigger] t[i] == 'm' || t[i] == 'M') by {
            assert(CharClass::Is('m').has(l[i]));
            assert(l[i] == text::lower_char(t[i]));
        }
    }
}

proof fn lemma_trimmed_upper(s: Seq<char>)
    ensures
        text::trimmed(text::upper(s)) == text::upper(text::trimmed(s)),
{
    let u = text::upper(s);
    text::law_trimmed(s);
    text::law_trimmed(u);
    assert forall|i: int| 0 <= i < s.len() implies text::is_space(u[i]) == text::is_space(s[i]) by {
        assert(u[i] == text::upper_char(s[i]));
    }
    let a = text::trimmed_from(s);
    let b = text::trimmed_from(u);
    let t = text::trimmed(s);
    let v = text::trimmed(u);
    if t.len() > 0 {
        assert(t[0] == s[a] && t.last() == s[a + t.len() - 1]);
        assert(!text::is_space(u[a]) && !text::is_space(u[a + t.len() - 1]));
        assert(v.len() > 0);
        assert(v[0] == u[b] && v.last() == u[b + v.len() - 1]);
        assert(!text::is_space(s[b]) && !text::is_space(s[b + v.len() - 1]));
        assert(a == b);
        assert(t.len() == v.len());
    } else {
        assert forall|i: int| 0 <= i < u.len() implies text::is_space(#[trigger] u[i]) by {
            assert(text::is_space(s[i]));
        }
        assert(v.len() == 0);
    }
    assert(v =~= text::upper(t));
}

/// Callsigns are compared without regard to the case of letters and to space around them, and to
/// nothing else.
pub proof fn law_callsigns(a: Seq<char>, b: Seq<char>)
    ensures
        normalized(a) == normalized(b) <==> text::same_letters(text::trimmed(a), text::trimmed(b)),
        normalized(text::upper(a)) == normalized(a),
        normalized(text::trimmed(a)) == normalized(a),
        normalized(normalized(a)) == normalized(a),
        normalized(a).len() == text::trimmed(a).len(),
{
    text::law_same_letters(text::trimmed(a), text::trimmed(b));
    text::law_trimmed(a);
    lemma_trimmed_upper(a);
    lemma_trimmed_upper(text::trimmed(a));
    assert(text::upper(text::upper(text::trimmed(a))) =~= text::upper(text::trimmed(a)));
}

/// A plausible callsign has three to sixteen characters, letters, digits and strokes alone, with a
/// letter and a digit among them; and everything of that kind is plausible.
pub proof fn law_plausible_callsigns(s: Seq<char>, a: int, b: int)
    requires
        0 <= a < s.len(),
        0 <= b < s.len(),
    ensures
        plausible(s) ==> 3 <= s.len() <= 16,
        plausible(s) ==> 48 <= s[a] as int <= 57 || 65 <= s[a] as int <= 90 || 97 <= s[a] as int
            <= 122 || s[a] as int == 47,
        3 <= s.len() <= 16 && 48 <= s[a] as int <= 57 && (65 <= s[b] as int <= 90 || 97
            <= s[b] as int <= 122) && (forall|i: int|
            0 <= i < s.len() ==> 48 <= (#[trigger] s[i]) as int <= 57 || 65 <= s[i] as int <= 90
                || 97 <= s[i] as int <= 122 || s[i] as int == 47) ==> plausible(s),
        (forall|i: int| 0 <= i < s.len() ==> !(48 <= (#[trigger] s[i]) as int <= 57)) ==> !plausible(
            s,
        ),
        (forall|i: int|
            0 <= i < s.len() ==> !(65 <= (#[trigger] s[i]) as int <= 90 || 97 <= s[i] as int
                <= 122)) ==> !plausible(s),
{
    if 48 <= s[a] as int <= 57 {
        assert(text::is_digit(s[a]));
    }
    if 65 <= s[b] as int <= 90 || 97 <= s[b] as int <= 122 {
        assert(text::is_letter(s[b]));
    }
    if plausible(s) {
        assert(call_char(s[a]));
        let i = choose|i: int| 0 <= i < s.len() && text::is_letter(#[trigger] s[i]);
        let j = choose|j: int| 0 <= j < s.len() && text::is_digit(#[trigger] s[j]);
        assert(48 <= s[j] as int <= 57);
        assert(65 <= s[i] as int <= 90 || 97 <= s[i] as int <= 122);
    }
}

} // verus!
