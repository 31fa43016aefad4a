//! The score of the contest log.
use vstd::prelude::*;

use crate::model;
use crate::model::Band;
use crate::model::Qso;
use crate::model::QsoModel;
use crate::model::TextSet;
use crate::naqp_catalog;
use crate::naqp_catalog::MultiplierDefinition;
use crate::naqp_catalog::MultiplierGroup;
use crate::sort;
use crate::sort::PartModel;
use crate::sort::RankPart;
use crate::string_map;
use crate::string_map::Duplicate;
use crate::string_map::StringMap;
use crate::text;
use crate::text::CharClass;
use crate::time;
use crate::time::Instant;
use crate::time::Timestamp;

verus! {

// ---------------------------------------------------------------------------------------------
// Multipliers
// ---------------------------------------------------------------------------------------------
/// Other spellings of a code, and the code.
pub open spec fn spelled_out(t: Seq<char>) -> Seq<char> {
    if t == "NFLD"@ || t == "NF"@ {
        "NL"@
    } else if t == "NWT"@ {
        "NT"@
    } else if t == "QUE"@ || t == "PQ"@ {
        "QC"@
    } else if t == "PEI"@ {
        "PE"@
    } else if t == "YUK"@ {
        "YT"@
    } else if t == "MEX"@ || t == "MEXICO"@ {
        "XE"@
    } else if t == "4U1UN"@ || t == "4U1/U"@ {
        "4U1U"@
    } else {
        t
    }
}

/// The code that `value` stands for, where the checklist prints one: the case of letters, blanks
/// around it and full stops and commas in it do not matter.
pub open spec fn multiplier_code(value: Seq<char>) -> Option<Seq<char>> {
    let t = spelled_out(text::without_points(text::upper(text::trimmed(value))));
    if naqp_catalog::printed(t) {
        Some(t)
    } else {
        None
    }
}

fn spell_out(t: String) -> (r: String)
    ensures
        r@ == spelled_out(t@),
{
    let s = t.as_str();
    if text::same(s, "NFLD") || text::same(s, "NF") {
        text::owned("NL")
    } else if text::same(s, "NWT") {
        text::owned("NT")
    } else if text::same(s, "QUE") || text::same(s, "PQ") {
        text::owned("QC")
    } else if text::same(s, "PEI") {
        text::owned("PE")
    } else if text::same(s, "YUK") {
        text::owned("YT")
    } else if text::same(s, "MEX") || text::same(s, "MEXICO") {
        text::owned("XE")
    } else if text::same(s, "4U1UN") || text::same(s, "4U1/U") {
        text::owned("4U1U")
    } else {
        t
    }
}

pub fn normalize_multiplier(value: &str) -> (r: Option<String>)
    ensures
        text::opt_text(r) == multiplier_code(value@),
{
    let token = spell_out(text::remove_points(text::trim_upper(value).as_str()));
    proof {
        naqp_catalog::lemma_found(token@);
    }
    if naqp_catalog::find(token.as_str()).is_some() {
        Some(token)
    } else {
        None
    }
}

// ---------------------------------------------------------------------------------------------
// What the rules say of one contact
// ---------------------------------------------------------------------------------------------
/// The row that the last word of the contact's location means.
pub open spec fn multiplier_of(q: QsoModel) -> Option<MultiplierDefinition> {
    match q.location {
        None => None,
        Some(location) => match text::last_word(location) {
            None => None,
            Some(word) => match multiplier_code(word) {
                None => None,
                Some(code) => naqp_catalog::resolved(code, q.call, q.country),
            },
        },
    }
}

/// The last word of the contact's location says that the station is outside North America.
pub open spec fn sends_dx(q: QsoModel) -> bool {
    match q.location {
        None => false,
        Some(location) => match text::last_word(location) {
            None => false,
            Some(word) => text::same_letters(
                text::strip_end(
                    text::strip_start(word, CharClass::PointOrComma),
                    CharClass::PointOrComma,
                ),
                "DX"@,
            ),
        },
    }
}

pub open spec fn has_name(q: QsoModel) -> bool {
    q.name matches Some(name) && text::trimmed(name).len() > 0
}

/// The contact has a name and a multiplier or the word for a station outside North America.
pub open spec fn has_exchange(q: QsoModel) -> bool {
    has_name(q) && (multiplier_of(q) is Some || sends_dx(q))
}

/// The contact is one of the contest: not deleted, on a contest band, in Morse code, in time.
pub open spec fn eligible(q: QsoModel) -> bool {
    !q.deleted && q.band is Some && text::same_letters(q.mode, "CW"@) && time::in_contest(
        q.timestamp,
    )
}

/// An eligible contact with a full exchange.
pub open spec fn complete(q: QsoModel) -> bool {
    eligible(q) && has_exchange(q)
}

/// The same station on the same band.
pub open spec fn repeats(a: QsoModel, b: QsoModel) -> bool {
    model::normalized(a.call) == model::normalized(b.call) && a.band == b.band
}

pub(crate) fn last_location_word(q: &Qso) -> (r: Option<String>)
    ensures
        text::opt_text(r) == match q@.location {
            None => None,
            Some(location) => text::last_word(location),
        },
{
    match &q.location {
        None => None,
        Some(location) => text::final_word(location.as_str()),
    }
}

pub(crate) fn find_multiplier(q: &Qso) -> (r: Option<MultiplierDefinition>)
    ensures
        r == multiplier_of(q@),
{
    match last_location_word(q) {
        None => None,
        Some(word) => match normalize_multiplier(word.as_str()) {
            None => None,
            Some(code) => {
                let country: Option<&str> = match &q.country {
                    Some(c) => Some(c.as_str()),
                    None => None,
                };
                naqp_catalog::resolve(code.as_str(), q.call.as_str(), country)
            },
        },
    }
}

pub(crate) fn is_dx(q: &Qso) -> (r: bool)
    ensures
        r == sends_dx(q@),
{
    match last_location_word(q) {
        None => false,
        Some(word) => text::same_ignoring_case(
            text::strip(word.as_str(), CharClass::PointOrComma).as_str(),
            "DX",
        ),
    }
}

pub(crate) fn is_named(q: &Qso) -> (r: bool)
    ensures
        r == has_name(q@),
{
    match &q.name {
        Some(name) => !text::is_blank(name.as_str()),
        None => false,
    }
}

// ---------------------------------------------------------------------------------------------
// What the rules say of the log
// ---------------------------------------------------------------------------------------------
/// The version of the rules.
pub const RULES_VERSION: &'static str = "2026-08-cw";

/// Why a contact counts or does not.
#[derive(Debug, Clone, Copy, PartialEq, Eq, Structural)]
pub enum ContactReason {
    Credited,
    Duplicate,
    IncompleteExchange,
    WrongMode,
    IneligibleBand,
    OutsidePeriod,
    Tombstone,
}

/// The earlier contact comes first; one in a leap second comes before those of the second behind it.
pub open spec fn time_rank(q: QsoModel) -> Seq<PartModel> {
    seq![PartModel::Number(q.timestamp.second), PartModel::Number(q.timestamp.nanos)]
}

/// The contacts with the times by which they are put in order.
pub open spec fn timed(q: Seq<QsoModel>) -> Seq<(Seq<PartModel>, QsoModel)> {
    Seq::new(q.len(), |i: int| (time_rank(q[i]), q[i]))
}

/// The contacts in the order of time; those of one time keep their order.
pub open spec fn in_time_order(q: Seq<QsoModel>) -> Seq<QsoModel> {
    sort::unranked(sort::sorted(timed(q)))
}

/// The contact at `i` repeats an earlier complete one.
pub open spec fn duplicate(s: Seq<QsoModel>, i: int) -> bool {
    complete(s[i]) && exists|j: int|
        0 <= j < i && complete(#[trigger] s[j]) && repeats(s[j], s[i])
}

/// The contact at `i` counts.
pub open spec fn credited(s: Seq<QsoModel>, i: int) -> bool {
    complete(s[i]) && !duplicate(s, i)
}

pub open spec fn reason(s: Seq<QsoModel>, i: int) -> ContactReason {
    let q = s[i];
    if q.deleted {
        ContactReason::Tombstone
    } else if q.band is None {
        ContactReason::IneligibleBand
    } else if !text::same_letters(q.mode, "CW"@) {
        ContactReason::WrongMode
    } else if !time::in_contest(q.timestamp) {
        ContactReason::OutsidePeriod
    } else if !has_exchange(q) {
        ContactReason::IncompleteExchange
    } else if duplicate(s, i) {
        ContactReason::Duplicate
    } else {
        ContactReason::Credited
    }
}

/// The first `n` contacts, each with its reason.
pub open spec fn statuses(s: Seq<QsoModel>, n: nat) -> Seq<(Seq<char>, ContactReason)> {
    Seq::new(n, |i: int| (s[i].id, reason(s, i)))
}

/// How many of the first `n` contacts have the reason `why`.
pub open spec fn count(s: Seq<QsoModel>, n: int, why: ContactReason) -> nat
    decreases n,
{
    if n <= 0 {
        0
    } else {
        count(s, n - 1, why) + if reason(s, n - 1) == why {
            1nat
        } else {
            0nat
        }
    }
}

/// How many of the first `n` contacts count on `band`.
pub open spec fn count_on(s: Seq<QsoModel>, n: int, band: Band) -> nat
    decreases n,
{
    if n <= 0 {
        0
    } else {
        count_on(s, n - 1, band) + if credited(s, n - 1) && s[n - 1].band == Some(band) {
            1nat
        } else {
            0nat
        }
    }
}

/// The rows that the first `n` contacts work on `band`: a set of identifiers, in order.
pub open spec fn worked(s: Seq<QsoModel>, n: int, band: Band) -> Seq<(Seq<char>, ())>
    decreases n,
{
    if n <= 0 {
        Seq::empty()
    } else {
        let before = worked(s, n - 1, band);
        match multiplier_of(s[n - 1]) {
            Some(m) => if credited(s, n - 1) && s[n - 1].band == Some(band) {
                string_map::inserted(before, m.id@, ())
            } else {
                before
            },
            None => before,
        }
    }
}

/// The rows worked on each band, taken together.
pub open spec fn total_worked(s: Seq<QsoModel>, n: int) -> nat {
    worked(s, n, Band::B160).len() + worked(s, n, Band::B80).len() + worked(s, n, Band::B40).len()
        + worked(s, n, Band::B20).len() + worked(s, n, Band::B15).len() + worked(
        s,
        n,
        Band::B10,
    ).len()
}

/// The times of those of the first `n` contacts that count.
pub open spec fn credit_times(s: Seq<QsoModel>, n: int) -> Seq<Instant>
    decreases n,
{
    if n <= 0 {
        Seq::empty()
    } else if credited(s, n - 1) {
        credit_times(s, n - 1).push(s[n - 1].timestamp)
    } else {
        credit_times(s, n - 1)
    }
}

/// The bands among `bands` on which the row `id` is worked.
pub open spec fn bands_with(s: Seq<QsoModel>, id: Seq<char>, bands: Seq<Band>) -> Seq<Band>
    decreases bands.len(),
{
    if bands.len() == 0 {
        Seq::empty()
    } else if string_map::has_key(worked(s, s.len() as int, bands.last()), id) {
        bands_with(s, id, bands.drop_last()).push(bands.last())
    } else {
        bands_with(s, id, bands.drop_last())
    }
}

// ---------------------------------------------------------------------------------------------
// Operating time
// ---------------------------------------------------------------------------------------------
pub open spec fn whole_minutes(ns: int) -> int {
    ns / 60_000_000_000
}

/// The off time in a gap: none below 31 minutes, else its whole minutes less one.
pub open spec fn off_time(gap: int) -> int {
    if gap >= 31 * 60_000_000_000 {
        whole_minutes(gap) - 1
    } else {
        0
    }
}

/// The off time between the times of `t`, in minutes.
pub open spec fn total_off(t: Seq<Instant>) -> int
    decreases t.len(),
{
    if t.len() < 2 {
        0
    } else {
        total_off(t.drop_last()) + off_time(time::span(t[t.len() - 2], t.last()))
    }
}

/// The whole minutes from the first time of `t` to the last; none where the span is negative, as it
/// can be from a leap second to the day behind it.
pub open spec fn elapsed(t: Seq<Instant>) -> int {
    if t.len() == 0 || time::span(t[0], t.last()) < 0 {
        0
    } else {
        whole_minutes(time::span(t[0], t.last()))
    }
}

/// No time is before the one that precedes it.
pub open spec fn ascending(t: Seq<Instant>) -> bool {
    forall|i: int, j: int| 0 <= i <= j < t.len() ==> time::no_later(#[trigger] t[i], #[trigger] t[j])
}

/// The nanoseconds of every time are those of its second, or of that and a leap second.
pub open spec fn all_proper(t: Seq<Instant>) -> bool {
    forall|i: int| 0 <= i < t.len() ==> 0 <= (#[trigger] t[i]).nanos < 2_000_000_000
}

/// Where there is off time, its minutes are most of a minute less than the seconds from that of the
/// first contact to that of the last.
proof fn lemma_off_time_bound(t: Seq<Instant>)
    requires
        ascending(t),
        all_proper(t),
    ensures
        0 <= total_off(t),
        total_off(t) > 0 ==> total_off(t) * 60 <= t.last().second - t[0].second - 57,
        t.len() > 0 ==> t[0].second <= t.last().second,
    decreases t.len(),
{
    if t.len() >= 2 {
        let front = t.drop_last();
        assert forall|i: int, j: int| 0 <= i <= j < front.len() implies time::no_later(
            #[trigger] front[i],
            #[trigger] front[j],
        ) by {
            assert(front[i] == t[i] && front[j] == t[j]);
        }
        assert forall|i: int| 0 <= i < front.len() implies 0 <= (#[trigger] front[i]).nanos
            < 2_000_000_000 by {
            assert(front[i] == t[i]);
        }
        lemma_off_time_bound(front);
        assert(front.last() == t[t.len() - 2] && front[0] == t[0]);
        assert(time::no_later(t[t.len() - 2], t[t.len() - 1]));
    }
}

/// Off time is never negative and never more than the time from the first contact to the last.
pub proof fn law_off_time_fits(t: Seq<Instant>)
    requires
        ascending(t),
        all_proper(t),
    ensures
        0 <= total_off(t) <= elapsed(t),
{
    lemma_off_time_bound(t);
}

/// The operating and the off time, in minutes, of contacts at `times`.
pub fn operating_time(times: &Vec<Timestamp>) -> (r: (i64, i64))
    requires
        ascending(string_map::views(times@)),
    ensures
        r.1 == total_off(string_map::views(times@)),
        r.0 == elapsed(string_map::views(times@)) - r.1,
        r.0 >= 0,
        r.1 >= 0,
{
    let ghost t = string_map::views(times@);
    if times.len() == 0 {
        return (0, 0);
    }
    let first = times[0];
    let start: i64 = first.parts().0;
    let mut off: i64 = 0;
    let mut i: usize = 1;
    assert(total_off(t.take(1)) == 0);
    while i < times.len()
        invariant
            0 < i <= times@.len(),
            t == string_map::views(times@),
            ascending(t),
            all_proper(t.take(i as int)),
            start == t[0].second,
            time::FIRST_SECOND <= start,
            off == total_off(t.take(i as int)),
            0 <= off <= time::LAST_SECOND - time::FIRST_SECOND,
        decreases times.len() - i,
    {
        let gap: i128 = times[i].since(times[i - 1]);
        let here: (i64, u32) = times[i].parts();
        proof {
            let part = t.take(i + 1);
            assert(part.drop_last() =~= t.take(i as int));
            assert(part.last() == t[i as int] && part[part.len() - 2] == t[i - 1]);
            assert forall|j: int| 0 <= j < part.len() implies 0 <= (#[trigger] part[j]).nanos
                < 2_000_000_000 by {
                if j < i {
                    assert(part[j] == t.take(i as int)[j]);
                }
            }
            assert(ascending(part));
            lemma_off_time_bound(part);
            assert(here.0 == part.last().second);
        }
        if gap >= 31 * time::NANOS_PER_MINUTE {
            off = off + ((gap / time::NANOS_PER_MINUTE) as i64 - 1);
        }
        i = i + 1;
    }
    assert(t.take(t.len() as int) =~= t);
    let total: i128 = times[times.len() - 1].since(first);
    proof {
        law_off_time_fits(t);
    }
    let whole: i64 = if total < 0 {
        0
    } else {
        (total / time::NANOS_PER_MINUTE) as i64
    };
    (whole - off, off)
}

// ---------------------------------------------------------------------------------------------
// The score
// ---------------------------------------------------------------------------------------------
/// The score on one band.
#[derive(Debug)]
pub struct BandScore {
    pub band: Band,
    pub qsos: usize,
    pub multipliers: usize,
    pub multiplier_values: Vec<String>,
}

/// The model of a band's score.
#[verifier::ext_equal]
pub struct BandScoreModel {
    pub band: Band,
    pub qsos: nat,
    pub multipliers: nat,
    pub multiplier_values: Seq<Seq<char>>,
}

impl View for BandScore {
    type V = BandScoreModel;

    open spec fn view(&self) -> BandScoreModel {
        BandScoreModel {
            band: self.band,
            qsos: self.qsos as nat,
            multipliers: self.multipliers as nat,
            multiplier_values: text::texts(self.multiplier_values@),
        }
    }
}

/// What became of an eligible contact.
#[derive(Debug)]
pub struct ScoredQso {
    pub id: String,
    pub duplicate: bool,
    pub unresolved_exchange: bool,
    pub multiplier: Option<String>,
}

/// The model of a scored contact.
#[verifier::ext_equal]
pub struct ScoredModel {
    pub id: Seq<char>,
    pub duplicate: bool,
    pub unresolved_exchange: bool,
    pub multiplier: Option<Seq<char>>,
}

impl View for ScoredQso {
    type V = ScoredModel;

    open spec fn view(&self) -> ScoredModel {
        ScoredModel {
            id: self.id@,
            duplicate: self.duplicate,
            unresolved_exchange: self.unresolved_exchange,
            multiplier: text::opt_text(self.multiplier),
        }
    }
}

/// Why a contact counts or does not.
#[derive(Debug)]
pub struct ContactStatus {
    pub id: String,
    pub reason: ContactReason,
}

impl View for ContactStatus {
    type V = (Seq<char>, ContactReason);

    open spec fn view(&self) -> (Seq<char>, ContactReason) {
        (self.id@, self.reason)
    }
}

/// A row of the multiplier matrix.
#[derive(Debug)]
pub struct MultiplierRow {
    pub id: &'static str,
    pub code: &'static str,
    pub display_name: &'static str,
    pub group: MultiplierGroup,
    pub worked_bands: Vec<Band>,
}

/// The model of a row.
#[verifier::ext_equal]
pub struct RowModel {
    pub id: Seq<char>,
    pub code: Seq<char>,
    pub display_name: Seq<char>,
    pub group: MultiplierGroup,
    pub worked_bands: Seq<Band>,
}

impl View for MultiplierRow {
    type V = RowModel;

    open spec fn view(&self) -> RowModel {
        RowModel {
            id: self.id@,
            code: self.code@,
            display_name: self.display_name@,
            group: self.group,
            worked_bands: self.worked_bands@,
        }
    }
}

/// The claimed score of a log, and how it comes about.
#[derive(Debug)]
pub struct Score {
    pub rules_version: &'static str,
    pub valid_qsos: usize,
    pub duplicates: usize,
    pub unresolved_exchanges: usize,
    pub total_multipliers: usize,
    pub claimed_score: u128,
    pub operating_minutes: i64,
    pub off_minutes: i64,
    pub bands: Vec<BandScore>,
    pub multiplier_rows: Vec<MultiplierRow>,
    pub qsos: Vec<ScoredQso>,
    pub contacts: Vec<ContactStatus>,
}

/// The model of a score.
#[verifier::ext_equal]
pub struct ScoreModel {
    pub rules_version: Seq<char>,
    pub valid_qsos: nat,
    pub duplicates: nat,
    pub unresolved_exchanges: nat,
    pub total_multipliers: nat,
    pub claimed_score: nat,
    pub operating_minutes: int,
    pub off_minutes: int,
    pub bands: Seq<BandScoreModel>,
    pub multiplier_rows: Seq<RowModel>,
    pub qsos: Seq<ScoredModel>,
    pub contacts: Seq<(Seq<char>, ContactReason)>,
}

impl View for Score {
    type V = ScoreModel;

    open spec fn view(&self) -> ScoreModel {
        ScoreModel {
            rules_version: self.rules_version@,
            valid_qsos: self.valid_qsos as nat,
            duplicates: self.duplicates as nat,
            unresolved_exchanges: self.unresolved_exchanges as nat,
            total_multipliers: self.total_multipliers as nat,
            claimed_score: self.claimed_score as nat,
            operating_minutes: self.operating_minutes as int,
            off_minutes: self.off_minutes as int,
            bands: string_map::views(self.bands@),
            multiplier_rows: string_map::views(self.multiplier_rows@),
            qsos: string_map::views(self.qsos@),
            contacts: string_map::views(self.contacts@),
        }
    }
}

/// The identifier of the row that a contact means.
pub open spec fn row_id(q: QsoModel) -> Option<Seq<char>> {
    match multiplier_of(q) {
        Some(m) => Some(m.id@),
        None => None,
    }
}

/// What became of the contact at `i`.
pub open spec fn scored_at(s: Seq<QsoModel>, i: int) -> ScoredModel {
    ScoredModel {
        id: s[i].id,
        duplicate: duplicate(s, i),
        unresolved_exchange: !has_exchange(s[i]),
        multiplier: row_id(s[i]),
    }
}

/// What became of the eligible ones among the first `n` contacts.
pub open spec fn scored(s: Seq<QsoModel>, n: int) -> Seq<ScoredModel>
    decreases n,
{
    if n <= 0 {
        Seq::empty()
    } else if eligible(s[n - 1]) {
        scored(s, n - 1).push(scored_at(s, n - 1))
    } else {
        scored(s, n - 1)
    }
}

pub open spec fn band_score(s: Seq<QsoModel>, band: Band) -> BandScoreModel {
    let w = worked(s, s.len() as int, band);
    BandScoreModel {
        band,
        qsos: count_on(s, s.len() as int, band),
        multipliers: w.len(),
        multiplier_values: string_map::keys(w),
    }
}

pub open spec fn row_score(s: Seq<QsoModel>, m: MultiplierDefinition) -> RowModel {
    RowModel {
        id: m.id@,
        code: m.code@,
        display_name: m.display_name@,
        group: m.group,
        worked_bands: bands_with(s, m.id@, model::all_bands()),
    }
}

/// The score of contacts in the order of time.
pub open spec fn score_in_order(s: Seq<QsoModel>) -> ScoreModel {
    let n = s.len() as int;
    let times = credit_times(s, n);
    ScoreModel {
        rules_version: "2026-08-cw"@,
        valid_qsos: count(s, n, ContactReason::Credited),
        duplicates: count(s, n, ContactReason::Duplicate),
        unresolved_exchanges: count(s, n, ContactReason::IncompleteExchange),
        total_multipliers: total_worked(s, n),
        claimed_score: count(s, n, ContactReason::Credited) * total_worked(s, n),
        operating_minutes: elapsed(times) - total_off(times),
        off_minutes: total_off(times),
        bands: Seq::new(6, |i: int| band_score(s, model::all_bands()[i])),
        multiplier_rows: Seq::new(
            naqp_catalog::catalog().len(),
            |i: int| row_score(s, naqp_catalog::catalog()[i]),
        ),
        qsos: scored(s, n),
        contacts: statuses(s, s.len()),
    }
}

/// The score of a log.
pub open spec fn score_of(q: Seq<QsoModel>) -> ScoreModel {
    score_in_order(in_time_order(q))
}

/// The calls with a complete contact on `band` among the first `n`.
spec fn calls_on(s: Seq<QsoModel>, n: int, band: Band) -> Seq<(Seq<char>, ())>
    decreases n,
{
    if n <= 0 {
        Seq::empty()
    } else if complete(s[n - 1]) && s[n - 1].band == Some(band) {
        string_map::inserted(calls_on(s, n - 1, band), model::normalized(s[n - 1].call), ())
    } else {
        calls_on(s, n - 1, band)
    }
}

proof fn lemma_key_inserted(m: Seq<(Seq<char>, ())>, k: Seq<char>)
    requires
        string_map::ordered(m),
    ensures
        string_map::ordered(string_map::inserted(m, k, ())),
        string_map::inserted(m, k, ()).len() <= m.len() + 1,
        forall|c: Seq<char>| #[trigger]
            string_map::has_key(string_map::inserted(m, k, ()), c) <==> c == k
                || string_map::has_key(m, c),
{
    string_map::lemma_inserted(m, k, ());
    string_map::lemma_slot_splits(m, k);
    let r = string_map::inserted(m, k, ());
    assert forall|c: Seq<char>| #[trigger] string_map::has_key(r, c) <==> c == k
        || string_map::has_key(m, c) by {
        if c != k {
            assert(string_map::lookup(r, c) == string_map::lookup(m, c));
        } else {
            assert(string_map::lookup(r, c) is Some);
        }
    }
}

proof fn lemma_calls_on(s: Seq<QsoModel>, n: int, band: Band)
    requires
        n <= s.len(),
    ensures
        string_map::ordered(calls_on(s, n, band)),
        forall|c: Seq<char>| #[trigger]
            string_map::has_key(calls_on(s, n, band), c) <==> exists|j: int|
                0 <= j < n && complete(#[trigger] s[j]) && s[j].band == Some(band)
                    && model::normalized(s[j].call) == c,
    decreases n,
{
    if n > 0 {
        lemma_calls_on(s, n - 1, band);
        lemma_key_inserted(calls_on(s, n - 1, band), model::normalized(s[n - 1].call));
        assert forall|c: Seq<char>| #[trigger]
            string_map::has_key(calls_on(s, n, band), c) <==> exists|j: int|
                0 <= j < n && complete(#[trigger] s[j]) && s[j].band == Some(band)
                    && model::normalized(s[j].call) == c by {
            assert(string_map::has_key(calls_on(s, n - 1, band), c) <==> exists|j: int|
                0 <= j < n - 1 && complete(#[trigger] s[j]) && s[j].band == Some(band)
                    && model::normalized(s[j].call) == c);
            if complete(s[n - 1]) && s[n - 1].band == Some(band) && model::normalized(s[n - 1].call)
                == c {
                assert(string_map::has_key(calls_on(s, n, band), c));
            }
        }
    }
}

proof fn lemma_duplicate(s: Seq<QsoModel>, i: int, band: Band)
    requires
        0 <= i < s.len(),
        complete(s[i]),
        s[i].band == Some(band),
    ensures
        duplicate(s, i) <==> string_map::has_key(
            calls_on(s, i, band),
            model::normalized(s[i].call),
        ),
{
    lemma_calls_on(s, i, band);
    let c = model::normalized(s[i].call);
    if duplicate(s, i) {
        let j = choose|j: int| 0 <= j < i && complete(#[trigger] s[j]) && repeats(s[j], s[i]);
        assert(0 <= j < i && complete(s[j]) && s[j].band == Some(band) && model::normalized(
            s[j].call,
        ) == c);
    }
    if string_map::has_key(calls_on(s, i, band), c) {
        let j = choose|j: int|
            0 <= j < i && complete(#[trigger] s[j]) && s[j].band == Some(band)
                && model::normalized(s[j].call) == c;
        assert(repeats(s[j], s[i]));
    }
}

/// The rows worked on a band stand in order, and are those of the contacts that count there.
pub proof fn lemma_worked(s: Seq<QsoModel>, n: int, band: Band)
    requires
        n <= s.len(),
    ensures
        string_map::ordered(worked(s, n, band)),
        forall|id: Seq<char>| #[trigger]
            string_map::has_key(worked(s, n, band), id) <==> exists|j: int|
                #![trigger s[j]]
                0 <= j < n && credited(s, j) && s[j].band == Some(band) && row_id(s[j]) == Some(id),
    decreases n,
{
    if n > 0 {
        lemma_worked(s, n - 1, band);
        let before = worked(s, n - 1, band);
        if let Some(m) = multiplier_of(s[n - 1]) {
            lemma_key_inserted(before, m.id@);
        }
        assert forall|id: Seq<char>| #[trigger]
            string_map::has_key(worked(s, n, band), id) <==> exists|j: int|
                #![trigger s[j]]
                0 <= j < n && credited(s, j) && s[j].band == Some(band) && row_id(s[j]) == Some(
                    id,
                ) by {
            assert(string_map::has_key(before, id) <==> exists|j: int|
                #![trigger s[j]]
                0 <= j < n - 1 && credited(s, j) && s[j].band == Some(band) && row_id(s[j])
                    == Some(id));
            if credited(s, n - 1) && s[n - 1].band == Some(band) && row_id(s[n - 1]) == Some(id) {
                assert(string_map::has_key(worked(s, n, band), id));
            }
        }
    }
}

proof fn lemma_total_worked(s: Seq<QsoModel>, n: int)
    requires
        0 <= n <= s.len(),
    ensures
        total_worked(s, n) <= count(s, n, ContactReason::Credited),
        count(s, n, ContactReason::Credited) + count(s, n, ContactReason::Duplicate) + count(
            s,
            n,
            ContactReason::IncompleteExchange,
        ) <= n,
    decreases n,
{
    if n > 0 {
        lemma_total_worked(s, n - 1);
        if let Some(m) = multiplier_of(s[n - 1]) {
            if let Some(b) = s[n - 1].band {
                lemma_worked(s, n - 1, b);
                lemma_key_inserted(worked(s, n - 1, b), m.id@);
                match b {
                    Band::B160 => {},
                    Band::B80 => {},
                    Band::B40 => {},
                    Band::B20 => {},
                    Band::B15 => {},
                    Band::B10 => {},
                }
            }
        }
        assert(credited(s, n - 1) ==> reason(s, n - 1) == ContactReason::Credited);
    }
}

fn by_time(qsos: &Vec<Qso>) -> (r: Vec<Qso>)
    ensures
        string_map::views(r@) == in_time_order(string_map::views(qsos@)),
        r@.len() == qsos@.len(),
        ascending(times_of(string_map::views(r@))),
{
    let ghost q = string_map::views(qsos@);
    let mut ranks: Vec<Vec<RankPart>> = Vec::new();
    let mut i: usize = 0;
    while i < qsos.len()
        invariant
            i <= qsos@.len(),
            q == string_map::views(qsos@),
            ranks@.len() == i,
            forall|j: int| 0 <= j < i ==> sort::rank_model((#[trigger] ranks@[j])@) == time_rank(q[j]),
        decreases qsos.len() - i,
    {
        let at = qsos[i].timestamp;
        let rank = vec![
            RankPart::Number(at.parts().0 as i128),
            RankPart::Number(at.parts().1 as i128),
        ];
        assert(sort::rank_model(rank@) =~= time_rank(q[i as int]));
        ranks.push(rank);
        i = i + 1;
    }
    assert(sort::ranked(sort::rank_models(ranks@), q) =~= timed(q));
    proof {
        lemma_time_order(q);
    }
    sort::sort_by(ranks, string_map::copy_all(qsos))
}

/// The times of contacts.
pub open spec fn times_of(s: Seq<QsoModel>) -> Seq<Instant> {
    Seq::new(s.len(), |i: int| s[i].timestamp)
}

/// The order of time is one.
pub proof fn lemma_time_order(q: Seq<QsoModel>)
    ensures
        in_time_order(q).len() == q.len(),
        ascending(times_of(in_time_order(q))),
{
    let e = timed(q);
    let r = sort::sorted(e);
    sort::lemma_sorted(e);
    let t = times_of(in_time_order(q));
    assert forall|i: int, j: int| 0 <= i <= j < t.len() implies time::no_later(
        #[trigger] t[i],
        #[trigger] t[j],
    ) by {
        if i < j {
            sort::lemma_sorted_member(e, i);
            sort::lemma_sorted_member(e, j);
            assert(r[i].0 == time_rank(r[i].1));
            assert(r[j].0 == time_rank(r[j].1));
            assert(!sort::below(r[j].0, r[i].0));
            reveal_with_fuel(sort::below, 3);
            let a = r[i].1.timestamp;
            let b = r[j].1.timestamp;
            assert(r[i].0.skip(1)[0] == PartModel::Number(a.nanos));
            assert(r[j].0.skip(1)[0] == PartModel::Number(b.nanos));
            assert(time::no_later(a, b));
        }
    }
}

proof fn lemma_credit_times(s: Seq<QsoModel>, n: int)
    requires
        0 <= n <= s.len(),
        ascending(times_of(s)),
    ensures
        ascending(credit_times(s, n)),
        credit_times(s, n).len() > 0 ==> n > 0 && time::no_later(
            credit_times(s, n).last(),
            s[n - 1].timestamp,
        ),
    decreases n,
{
    if n > 0 {
        lemma_credit_times(s, n - 1);
        let before = credit_times(s, n - 1);
        let t = times_of(s);
        if n > 1 {
            assert(time::no_later(t[n - 2], t[n - 1]));
        }
        if credited(s, n - 1) {
            let r = credit_times(s, n);
            assert forall|i: int, j: int| 0 <= i <= j < r.len() implies time::no_later(
                #[trigger] r[i],
                #[trigger] r[j],
            ) by {
                if j == r.len() - 1 && i < j {
                    assert(time::no_later(before[i], before[before.len() - 1]));
                }
            }
        }
    }
}

/// Sets for each band, in the order of the log.
fn empty_sets() -> (r: Vec<TextSet>)
    ensures
        r@.len() == 6,
        forall|i: int| 0 <= i < 6 ==> (#[trigger] r@[i])@ == Seq::<(Seq<char>, ())>::empty(),
{
    let mut out: Vec<TextSet> = Vec::new();
    let mut i: usize = 0;
    while i < 6
        invariant
            i <= 6,
            out@.len() == i,
            forall|j: int| 0 <= j < i ==> (#[trigger] out@[j])@ == Seq::<(Seq<char>, ())>::empty(),
        decreases 6 - i,
    {
        out.push(StringMap::new());
        i = i + 1;
    }
    out
}

fn keys_of(set: &TextSet) -> (r: Vec<String>)
    ensures
        text::texts(r@) == string_map::keys(set@),
{
    let mut out: Vec<String> = Vec::new();
    let mut i: usize = 0;
    while i < set.len()
        invariant
            i <= set@.len(),
            out@.len() == i,
            forall|j: int| 0 <= j < i ==> (#[trigger] out@[j])@ == set@[j].0,
        decreases set@.len() - i,
    {
        out.push(set.key(i).clone());
        i = i + 1;
    }
    assert(text::texts(out@) =~= string_map::keys(set@));
    out
}

/// What the score needs to know of the contacts so far.
struct Tally {
    calls: Vec<TextSet>,
    rows: Vec<TextSet>,
    counts: Vec<usize>,
    valid: usize,
    duplicates: usize,
    incomplete: usize,
    times: Vec<Timestamp>,
    scored: Vec<ScoredQso>,
    contacts: Vec<ContactStatus>,
}

impl Tally {
    /// The tally is that of the first `n` contacts.
    spec fn covers(self, s: Seq<QsoModel>, n: int) -> bool {
        &&& self.calls@.len() == 6
        &&& self.rows@.len() == 6
        &&& self.counts@.len() == 6
        &&& forall|b: Band| (#[trigger] self.calls@[b.place()])@ == calls_on(s, n, b)
        &&& forall|b: Band| (#[trigger] self.rows@[b.place()])@ == worked(s, n, b)
        &&& forall|b: Band| #[trigger] self.counts@[b.place()] == count_on(s, n, b)
        &&& self.valid == count(s, n, ContactReason::Credited)
        &&& self.duplicates == count(s, n, ContactReason::Duplicate)
        &&& self.incomplete == count(s, n, ContactReason::IncompleteExchange)
        &&& string_map::views(self.times@) == credit_times(s, n)
        &&& string_map::views(self.scored@) == scored(s, n)
        &&& string_map::views(self.contacts@) == statuses(s, n as nat)
    }

    fn start(Ghost(s): Ghost<Seq<QsoModel>>) -> (r: Tally)
        ensures
            r.covers(s, 0),
    {
        let r = Tally {
            calls: empty_sets(),
            rows: empty_sets(),
            counts: vec![0, 0, 0, 0, 0, 0],
            valid: 0,
            duplicates: 0,
            incomplete: 0,
            times: Vec::new(),
            scored: Vec::new(),
            contacts: Vec::new(),
        };
        assert(string_map::views(r.times@) =~= credit_times(s, 0));
        assert(string_map::views(r.scored@) =~= scored(s, 0));
        assert(string_map::views(r.contacts@) =~= statuses(s, 0));
        r
    }
}

proof fn lemma_count_on(s: Seq<QsoModel>, n: int, band: Band)
    requires
        0 <= n <= s.len(),
    ensures
        count_on(s, n, band) <= n,
    decreases n,
{
    if n > 0 {
        lemma_count_on(s, n - 1, band);
    }
}

/// Takes the next contact into the tally.
fn take_contact(tally: &mut Tally, q: &Qso, Ghost(s): Ghost<Seq<QsoModel>>, Ghost(n): Ghost<int>)
    requires
        0 <= n < s.len(),
        s.len() <= usize::MAX,
        s[n] == q@,
        old(tally).covers(s, n),
    ensures
        final(tally).covers(s, n + 1),
{
    proof {
        lemma_total_worked(s, n);
        lemma_total_worked(s, n + 1);
    }
    let ghost before = *tally;
    let in_mode = text::same_ignoring_case(q.mode.as_str(), "CW");
    let in_time = time::within_contest(q.timestamp);
    let multiplier = find_multiplier(q);
    let exchanged = is_named(q) && (multiplier.is_some() || is_dx(q));
    let why;
    match q.band {
        None => {
            why = if q.deleted {
                ContactReason::Tombstone
            } else {
                ContactReason::IneligibleBand
            };
        },
        Some(band) => {
            if q.deleted {
                why = ContactReason::Tombstone;
            } else if !in_mode {
                why = ContactReason::WrongMode;
            } else if !in_time {
                why = ContactReason::OutsidePeriod;
            } else {
                let p = band.position();
                let id = match multiplier {
                    Some(m) => Some(text::owned(m.id)),
                    None => None,
                };
                let mut repeated = false;
                if !exchanged {
                    tally.incomplete = tally.incomplete + 1;
                    why = ContactReason::IncompleteExchange;
                } else {
                    proof {
                        lemma_duplicate(s, n, band);
                        lemma_count_on(s, n, band);
                    }
                    let call = q.normalized_call();
                    repeated = tally.calls[p].insert(call, ());
                    if repeated {
                        tally.duplicates = tally.duplicates + 1;
                        why = ContactReason::Duplicate;
                    } else {
                        tally.valid = tally.valid + 1;
                        tally.counts[p] = tally.counts[p] + 1;
                        tally.times.push(q.timestamp);
                        if let Some(m) = multiplier {
                            tally.rows[p].insert(text::owned(m.id), ());
                        }
                        why = ContactReason::Credited;
                    }
                }
                tally.scored.push(
                    ScoredQso {
                        id: q.id.clone(),
                        duplicate: repeated,
                        unresolved_exchange: !exchanged,
                        multiplier: id,
                    },
                );
            }
        },
    }
    tally.contacts.push(ContactStatus { id: q.id.clone(), reason: why });
    assert(why == reason(s, n));
    assert(string_map::views(tally.times@) =~= credit_times(s, n + 1));
    assert(string_map::views(tally.scored@) =~= scored(s, n + 1));
    assert(string_map::views(tally.contacts@) =~= string_map::views(before.contacts@).push(
        (s[n].id, reason(s, n)),
    ));
    assert(statuses(s, (n + 1) as nat) =~= statuses(s, n as nat).push((s[n].id, reason(s, n))));
    proof {
        assert forall|b: Band| (#[trigger] tally.calls@[b.place()])@ == calls_on(s, n + 1, b) by {
            assert(before.calls@[b.place()]@ == calls_on(s, n, b));
        }
        assert forall|b: Band| (#[trigger] tally.rows@[b.place()])@ == worked(s, n + 1, b) by {
            assert(before.rows@[b.place()]@ == worked(s, n, b));
        }
        assert forall|b: Band| #[trigger] tally.counts@[b.place()] == count_on(s, n + 1, b) by {
            assert(before.counts@[b.place()] == count_on(s, n, b));
        }
    }
}

fn band_scores(rows: &Vec<TextSet>, counts: &Vec<usize>, Ghost(s): Ghost<Seq<QsoModel>>) -> (r: Vec<
    BandScore,
>)
    requires
        rows@.len() == 6,
        counts@.len() == 6,
        forall|b: Band| (#[trigger] rows@[b.place()])@ == worked(s, s.len() as int, b),
        forall|b: Band| #[trigger] counts@[b.place()] == count_on(s, s.len() as int, b),
    ensures
        string_map::views(r@) == Seq::new(6, |i: int| band_score(s, model::all_bands()[i])),
{
    let bands = Band::all();
    let mut out: Vec<BandScore> = Vec::new();
    let mut i: usize = 0;
    while i < 6
        invariant
            i <= 6,
            bands@ == model::all_bands(),
            rows@.len() == 6,
            counts@.len() == 6,
            forall|b: Band| (#[trigger] rows@[b.place()])@ == worked(s, s.len() as int, b),
            forall|b: Band| #[trigger] counts@[b.place()] == count_on(s, s.len() as int, b),
            out@.len() == i,
            forall|j: int|
                0 <= j < i ==> (#[trigger] out@[j])@ == band_score(s, model::all_bands()[j]),
        decreases 6 - i,
    {
        let band = bands[i];
        let p = band.position();
        assert(rows@[band.place()]@ == worked(s, s.len() as int, band));
        assert(counts@[band.place()] == count_on(s, s.len() as int, band));
        out.push(
            BandScore {
                band,
                qsos: counts[p],
                multipliers: rows[p].len(),
                multiplier_values: keys_of(&rows[p]),
            },
        );
        i = i + 1;
    }
    assert(string_map::views(out@) =~= Seq::new(6, |i: int| band_score(s, model::all_bands()[i])));
    out
}

fn worked_bands(rows: &Vec<TextSet>, id: &str, Ghost(s): Ghost<Seq<QsoModel>>) -> (r: Vec<Band>)
    requires
        rows@.len() == 6,
        forall|b: Band| (#[trigger] rows@[b.place()])@ == worked(s, s.len() as int, b),
    ensures
        r@ == bands_with(s, id@, model::all_bands()),
{
    let bands = Band::all();
    let mut out: Vec<Band> = Vec::new();
    let mut i: usize = 0;
    let ghost all = model::all_bands();
    assert(out@ =~= bands_with(s, id@, all.take(0)));
    while i < 6
        invariant
            i <= 6,
            all == model::all_bands(),
            bands@ == all,
            rows@.len() == 6,
            forall|b: Band| (#[trigger] rows@[b.place()])@ == worked(s, s.len() as int, b),
            out@ == bands_with(s, id@, all.take(i as int)),
        decreases 6 - i,
    {
        let band = bands[i];
        assert(all.take(i + 1).drop_last() =~= all.take(i as int));
        assert(rows@[band.place()]@ == worked(s, s.len() as int, band));
        if rows[band.position()].has(id) {
            out.push(band);
        }
        i = i + 1;
    }
    assert(all.take(6) =~= all);
    out
}

fn matrix(rows: &Vec<TextSet>, Ghost(s): Ghost<Seq<QsoModel>>) -> (r: Vec<MultiplierRow>)
    requires
        rows@.len() == 6,
        forall|b: Band| (#[trigger] rows@[b.place()])@ == worked(s, s.len() as int, b),
    ensures
        string_map::views(r@) == Seq::new(
            naqp_catalog::catalog().len(),
            |i: int| row_score(s, naqp_catalog::catalog()[i]),
        ),
{
    let all = naqp_catalog::multipliers();
    let mut out: Vec<MultiplierRow> = Vec::new();
    let mut i: usize = 0;
    while i < all.len()
        invariant
            i <= all@.len(),
            all@ == naqp_catalog::catalog(),
            rows@.len() == 6,
            forall|b: Band| (#[trigger] rows@[b.place()])@ == worked(s, s.len() as int, b),
            out@.len() == i,
            forall|j: int|
                0 <= j < i ==> (#[trigger] out@[j])@ == row_score(s, naqp_catalog::catalog()[j]),
        decreases all.len() - i,
    {
        let m = all[i];
        out.push(
            MultiplierRow {
                id: m.id,
                code: m.code,
                display_name: m.display_name,
                group: m.group,
                worked_bands: worked_bands(rows, m.id, Ghost(s)),
            },
        );
        i = i + 1;
    }
    assert(string_map::views(out@) =~= Seq::new(
        naqp_catalog::catalog().len(),
        |i: int| row_score(s, naqp_catalog::catalog()[i]),
    ));
    out
}

/// Scores a log.
pub fn score(qsos: &Vec<Qso>) -> (r: Score)
    ensures
        r@ == score_of(string_map::views(qsos@)),
{
    let contacts = by_time(qsos);
    let ghost s = string_map::views(contacts@);
    let ghost n = s.len() as int;
    let mut tally = Tally::start(Ghost(s));
    let mut i: usize = 0;
    while i < contacts.len()
        invariant
            i <= contacts@.len(),
            s == string_map::views(contacts@),
            tally.covers(s, i as int),
        decreases contacts.len() - i,
    {
        take_contact(&mut tally, &contacts[i], Ghost(s), Ghost(i as int));
        i = i + 1;
    }
    proof {
        lemma_total_worked(s, n);
        lemma_credit_times(s, n);
        assert(tally.rows@[Band::B160.place()]@ == worked(s, n, Band::B160));
        assert(tally.rows@[Band::B80.place()]@ == worked(s, n, Band::B80));
        assert(tally.rows@[Band::B40.place()]@ == worked(s, n, Band::B40));
        assert(tally.rows@[Band::B20.place()]@ == worked(s, n, Band::B20));
        assert(tally.rows@[Band::B15.place()]@ == worked(s, n, Band::B15));
        assert(tally.rows@[Band::B10.place()]@ == worked(s, n, Band::B10));
    }
    let total_multipliers: usize = tally.rows[0].len() + tally.rows[1].len() + tally.rows[2].len()
        + tally.rows[3].len() + tally.rows[4].len() + tally.rows[5].len();
    let (operating_minutes, off_minutes) = operating_time(&tally.times);
    let bands = band_scores(&tally.rows, &tally.counts, Ghost(s));
    let multiplier_rows = matrix(&tally.rows, Ghost(s));
    assert(tally.valid as u128 * total_multipliers as u128 <= u64::MAX * u64::MAX)
        by (nonlinear_arith)
        requires
            tally.valid <= u64::MAX,
            total_multipliers <= u64::MAX,
    ;
    let claimed_score: u128 = tally.valid as u128 * total_multipliers as u128;
    let r = Score {
        rules_version: RULES_VERSION,
        valid_qsos: tally.valid,
        duplicates: tally.duplicates,
        unresolved_exchanges: tally.incomplete,
        total_multipliers,
        claimed_score,
        operating_minutes,
        off_minutes,
        bands,
        multiplier_rows,
        qsos: tally.scored,
        contacts: tally.contacts,
    };
    assert(r@ =~= score_in_order(s));
    r
}

// ---------------------------------------------------------------------------------------------
// Laws of the score
// ---------------------------------------------------------------------------------------------
/// One callsign counts once on a band.
pub proof fn law_one_credit_per_call_and_band(s: Seq<QsoModel>, i: int, j: int)
    requires
        0 <= i < j < s.len(),
        credited(s, i),
        credited(s, j),
    ensures
        !repeats(s[i], s[j]),
{
}

/// A contact counts exactly where its reason says so, is a duplicate exactly where its reason
/// says so, and every contact that is not eligible has a reason that is none of the three of
/// eligible ones.
pub proof fn law_reasons(s: Seq<QsoModel>, i: int)
    requires
        0 <= i < s.len(),
    ensures
        reason(s, i) == ContactReason::Credited <==> credited(s, i),
        reason(s, i) == ContactReason::Duplicate <==> duplicate(s, i),
        reason(s, i) == ContactReason::IncompleteExchange <==> eligible(s[i]) && !has_exchange(
            s[i],
        ),
        eligible(s[i]) <==> reason(s, i) == ContactReason::Credited || reason(s, i)
            == ContactReason::Duplicate || reason(s, i) == ContactReason::IncompleteExchange,
{
}

/// The claimed score is the number of valid contacts times the number of multipliers; the
/// contacts are those of the bands together, and so are the multipliers; and every eligible
/// contact is valid, a duplicate or incomplete.
pub proof fn law_totals(q: Seq<QsoModel>)
    ensures
        score_of(q).claimed_score == score_of(q).valid_qsos * score_of(q).total_multipliers,
        score_of(q).total_multipliers == sum_of_multipliers(score_of(q).bands),
        score_of(q).valid_qsos == sum_of_qsos(score_of(q).bands),
        score_of(q).qsos.len() == score_of(q).valid_qsos + score_of(q).duplicates + score_of(
            q,
        ).unresolved_exchanges,
        score_of(q).contacts.len() == q.len(),
        score_of(q).total_multipliers <= score_of(q).valid_qsos,
{
    let s = in_time_order(q);
    let b = score_of(q).bands;
    lemma_time_order(q);
    lemma_total_worked(s, s.len() as int);
    lemma_count_sum(s, s.len() as int);
    reveal_with_fuel(sum_of_multipliers, 7);
    reveal_with_fuel(sum_of_qsos, 7);
}

pub open spec fn sum_of_multipliers(b: Seq<BandScoreModel>) -> nat
    decreases b.len(),
{
    if b.len() == 0 {
        0
    } else {
        sum_of_multipliers(b.drop_last()) + b.last().multipliers
    }
}

pub open spec fn sum_of_qsos(b: Seq<BandScoreModel>) -> nat
    decreases b.len(),
{
    if b.len() == 0 {
        0
    } else {
        sum_of_qsos(b.drop_last()) + b.last().qsos
    }
}

proof fn lemma_count_sum(s: Seq<QsoModel>, n: int)
    requires
        0 <= n <= s.len(),
    ensures
        count(s, n, ContactReason::Credited) == count_on(s, n, Band::B160) + count_on(
            s,
            n,
            Band::B80,
        ) + count_on(s, n, Band::B40) + count_on(s, n, Band::B20) + count_on(s, n, Band::B15)
            + count_on(s, n, Band::B10),
        scored(s, n).len() == count(s, n, ContactReason::Credited) + count(
            s,
            n,
            ContactReason::Duplicate,
        ) + count(s, n, ContactReason::IncompleteExchange),
    decreases n,
{
    if n > 0 {
        lemma_count_sum(s, n - 1);
        law_reasons(s, n - 1);
        if credited(s, n - 1) {
            match s[n - 1].band {
                Some(Band::B160) => {},
                Some(Band::B80) => {},
                Some(Band::B40) => {},
                Some(Band::B20) => {},
                Some(Band::B15) => {},
                Some(Band::B10) => {},
                None => {},
            }
        }
    }
}

/// A row of the matrix is worked on a band exactly where a contact that counts there means it: on
/// each band anew.
pub proof fn law_matrix(q: Seq<QsoModel>, i: int, band: Band)
    requires
        0 <= i < naqp_catalog::catalog().len(),
    ensures
        score_of(q).multiplier_rows.len() == 111,
        score_of(q).multiplier_rows[i].worked_bands.contains(band) <==> exists|j: int|
            #![trigger in_time_order(q)[j]]
            0 <= j < in_time_order(q).len() && credited(in_time_order(q), j) && in_time_order(
                q,
            )[j].band == Some(band) && row_id(in_time_order(q)[j]) == Some(
                naqp_catalog::catalog()[i].id@,
            ),
{
    let s = in_time_order(q);
    let id = naqp_catalog::catalog()[i].id@;
    naqp_catalog::lemma_catalog_len();
    lemma_worked(s, s.len() as int, band);
    lemma_bands_with(s, id, model::all_bands(), band);
    assert(model::all_bands()[band.place()] == band);
    assert(model::all_bands().contains(band));
}

proof fn lemma_bands_with(s: Seq<QsoModel>, id: Seq<char>, bands: Seq<Band>, band: Band)
    ensures
        bands_with(s, id, bands).contains(band) <==> bands.contains(band) && string_map::has_key(
            worked(s, s.len() as int, band),
            id,
        ),
    decreases bands.len(),
{
    if bands.len() > 0 {
        let front = bands.drop_last();
        lemma_bands_with(s, id, front, band);
        let r = bands_with(s, id, bands);
        assert(bands =~= front.push(bands.last()));
        if bands.contains(band) && bands.last() != band {
            let k = choose|k: int| 0 <= k < bands.len() && bands[k] == band;
            assert(front[k] == band);
        }
        if front.contains(band) {
            let k = choose|k: int| 0 <= k < front.len() && front[k] == band;
            assert(bands[k] == band);
        }
        let f = bands_with(s, id, front);
        if f.contains(band) {
            let k = choose|k: int| 0 <= k < f.len() && f[k] == band;
            assert(r[k] == band);
        }
        if r.contains(band) && !f.contains(band) {
            let k = choose|k: int| 0 <= k < r.len() && r[k] == band;
            assert(k == r.len() - 1);
            assert(r.last() == bands.last());
            assert(bands[bands.len() - 1] == band);
        }
        if bands.last() == band && string_map::has_key(worked(s, s.len() as int, band), id) {
            assert(r[r.len() - 1] == band);
        }
    }
}

/// A contact with a station outside North America is no multiplier: with a name it is complete
/// all the same.
pub proof fn law_dx_counts_without_multiplier(q: QsoModel)
    requires
        sends_dx(q),
    ensures
        multiplier_of(q) is None,
        has_exchange(q) <==> has_name(q),
{
    let location = q.location->0;
    let word = text::last_word(location)->0;
    let w = text::words(location);
    text::lemma_words(location);
    assert(w[w.len() - 1] == word);
    let head = text::strip_start(word, CharClass::PointOrComma);
    let core = text::strip_end(head, CharClass::PointOrComma);
    text::lemma_without_points_stripped(word);
    text::lemma_without_points_stripped(head);
    let token = text::without_points(text::upper(word));
    assert(token == text::without_points(text::upper(core)));
    reveal_strlit("DX");
    assert(text::lower(core).len() == text::lower("DX"@).len());
    assert(text::lower(core)[0] == 'd' && text::lower(core)[1] == 'x');
    let u = text::upper(core);
    assert(u =~= "DX"@);
    reveal_with_fuel(text::without_points, 3);
    assert(u.drop_last().drop_last() =~= Seq::empty());
    assert(text::without_points(u) =~= u);
    naqp_catalog::law_dx_is_not_printed();
    reveal_strlit("NFLD");
    reveal_strlit("NF");
    reveal_strlit("NWT");
    reveal_strlit("QUE");
    reveal_strlit("PQ");
    reveal_strlit("PEI");
    reveal_strlit("YUK");
    reveal_strlit("MEX");
    reveal_strlit("MEXICO");
    reveal_strlit("4U1UN");
    reveal_strlit("4U1/U");
    assert("NF"@[0] != "DX"@[0] && "PQ"@[0] != "DX"@[0]);
    assert("NWT"@.len() == 3 && "QUE"@.len() == 3 && "PEI"@.len() == 3 && "YUK"@.len() == 3
        && "MEX"@.len() == 3);
    assert(spelled_out(token) == "DX"@);
}

/// Every code of the checklist reads as itself, so that what a code was read from reads as that code
/// again.
pub proof fn law_codes_read_as_themselves(code: Seq<char>)
    requires
        naqp_catalog::printed(code),
    ensures
        multiplier_code(code) == Some(code),
{
    let i = choose|i: int|
        0 <= i < naqp_catalog::catalog().len() && (#[trigger] naqp_catalog::catalog()[i]).code@
            == code;
    naqp_catalog::law_codes_are_plain(i);
    assert(text::trimmed(code) == code);
    assert(text::upper(code) =~= code);
    text::lemma_no_points(code);
    naqp_catalog::lemma_other_spellings_are_not_printed();
}

/// Hawaii and the Dominican Republic on one band are two multipliers.
pub proof fn law_hawaii_and_dominican_republic_both_count(
    s: Seq<QsoModel>,
    i: int,
    j: int,
    band: Band,
)
    requires
        0 <= i < s.len(),
        0 <= j < s.len(),
        credited(s, i),
        credited(s, j),
        s[i].band == Some(band),
        s[j].band == Some(band),
        multiplier_of(s[i]) == Some(naqp_catalog::catalog()[10]),
        multiplier_of(s[j]) == Some(naqp_catalog::catalog()[78]),
    ensures
        string_map::has_key(worked(s, s.len() as int, band), "US-HI"@),
        string_map::has_key(worked(s, s.len() as int, band), "DXCC-HI"@),
        worked(s, s.len() as int, band).len() >= 2,
{
    naqp_catalog::law_shared_code_is_two_rows(s[i].call, s[i].country);
    lemma_worked(s, s.len() as int, band);
    let w = worked(s, s.len() as int, band);
    assert(row_id(s[i]) == Some("US-HI"@));
    assert(row_id(s[j]) == Some("DXCC-HI"@));
    assert(string_map::has_key(w, "US-HI"@) && string_map::has_key(w, "DXCC-HI"@));
    let a = choose|a: int| 0 <= a < w.len() && #[trigger] w[a].0 == "US-HI"@;
    let b = choose|b: int| 0 <= b < w.len() && #[trigger] w[b].0 == "DXCC-HI"@;
    assert(a != b);
}

/// A contact without credit that comes in at `k` leaves the reasons of all others as they are.
proof fn lemma_reasons_stay(s: Seq<QsoModel>, k: int, x: QsoModel, i: int)
    requires
        0 <= k <= s.len(),
        0 <= i < s.len(),
        !credited(s.insert(k, x), k),
    ensures
        ({
            let t = s.insert(k, x);
            let j = if i < k {
                i
            } else {
                i + 1
            };
            t[j] == s[i] && duplicate(t, j) == duplicate(s, i) && reason(t, j) == reason(s, i)
        }),
{
    let t = s.insert(k, x);
    let at = if i < k {
        i
    } else {
        i + 1
    };
    assert(t[at] == s[i]);
    assert(t[k] == x);
    if duplicate(t, at) {
        let j = choose|j: int| 0 <= j < at && complete(#[trigger] t[j]) && repeats(t[j], t[at]);
        if j < k {
            assert(t[j] == s[j]);
        } else if j > k {
            assert(t[j] == s[j - 1]);
        } else {
            let m = choose|m: int| 0 <= m < k && complete(#[trigger] t[m]) && repeats(t[m], t[k]);
            assert(t[m] == s[m]);
            assert(repeats(s[m], s[i]));
        }
    }
    if duplicate(s, i) {
        let j = choose|j: int| 0 <= j < i && complete(#[trigger] s[j]) && repeats(s[j], s[i]);
        if j < k {
            assert(t[j] == s[j]);
        } else {
            assert(t[j + 1] == s[j]);
        }
    }
}

/// What is counted of the contacts before the place of one that comes in at `k`.
proof fn lemma_tally_before(
    s: Seq<QsoModel>,
    k: int,
    x: QsoModel,
    n: int,
    band: Band,
    why: ContactReason,
)
    requires
        0 <= n <= k <= s.len(),
        !credited(s.insert(k, x), k),
    ensures
        count(s.insert(k, x), n, why) == count(s, n, why),
        count_on(s.insert(k, x), n, band) == count_on(s, n, band),
        worked(s.insert(k, x), n, band) == worked(s, n, band),
        credit_times(s.insert(k, x), n) == credit_times(s, n),
        scored(s.insert(k, x), n) == scored(s, n),
    decreases n,
{
    if n > 0 {
        lemma_tally_before(s, k, x, n - 1, band, why);
        lemma_reasons_stay(s, k, x, n - 1);
    }
}

/// What is counted of the contacts up to one behind the place of one that comes in at `k`.
proof fn lemma_tally_behind(
    s: Seq<QsoModel>,
    k: int,
    x: QsoModel,
    n: int,
    band: Band,
    why: ContactReason,
)
    requires
        0 <= k <= n <= s.len(),
        !credited(s.insert(k, x), k),
    ensures
        count(s.insert(k, x), n + 1, why) == count(s, n, why) + if reason(s.insert(k, x), k)
            == why {
            1nat
        } else {
            0nat
        },
        count_on(s.insert(k, x), n + 1, band) == count_on(s, n, band),
        worked(s.insert(k, x), n + 1, band) == worked(s, n, band),
        credit_times(s.insert(k, x), n + 1) == credit_times(s, n),
        scored(s, k).len() <= scored(s, n).len(),
        scored(s.insert(k, x), n + 1) == if eligible(x) {
            scored(s, n).insert(scored(s, k).len() as int, scored_at(s.insert(k, x), k))
        } else {
            scored(s, n)
        },
    decreases n,
{
    let t = s.insert(k, x);
    let m = scored(s, k).len() as int;
    assert(t[k] == x);
    if n == k {
        lemma_tally_before(s, k, x, k, band, why);
        assert(scored(s, k).insert(m, scored_at(t, k)) =~= scored(s, k).push(scored_at(t, k)));
    } else {
        lemma_tally_behind(s, k, x, n - 1, band, why);
        lemma_reasons_stay(s, k, x, n - 1);
        if eligible(s[n - 1]) {
            let before = scored(s, n - 1);
            assert(scored_at(t, n) == scored_at(s, n - 1));
            assert(before.insert(m, scored_at(t, k)).push(scored_at(s, n - 1)) =~= before.push(
                scored_at(s, n - 1),
            ).insert(m, scored_at(t, k)));
        }
    }
}

proof fn lemma_same_bands(s: Seq<QsoModel>, t: Seq<QsoModel>, id: Seq<char>, bands: Seq<Band>)
    requires
        forall|b: Band| #[trigger] worked(t, t.len() as int, b) == worked(s, s.len() as int, b),
    ensures
        bands_with(t, id, bands) == bands_with(s, id, bands),
    decreases bands.len(),
{
    if bands.len() > 0 {
        lemma_same_bands(s, t, id, bands.drop_last());
        assert(worked(t, t.len() as int, bands.last()) == worked(s, s.len() as int, bands.last()));
    }
}

/// A contact that does not count - a repeated one, one of another mode, band or time, one without a
/// full exchange or a deleted one - changes, wherever it comes in, neither the contacts nor the
/// multipliers, the bands, the rows or the operating time of the score, nor what became of any other
/// contact. It is told of, and counted as repeated or incomplete where it is.
pub proof fn law_contact_without_credit_changes_nothing(s: Seq<QsoModel>, k: int, x: QsoModel)
    requires
        0 <= k <= s.len(),
        !credited(s.insert(k, x), k),
    ensures
        score_in_order(s.insert(k, x)) == (ScoreModel {
            duplicates: score_in_order(s).duplicates + if duplicate(s.insert(k, x), k) {
                1nat
            } else {
                0nat
            },
            unresolved_exchanges: score_in_order(s).unresolved_exchanges + if eligible(x)
                && !has_exchange(x) {
                1nat
            } else {
                0nat
            },
            qsos: if eligible(x) {
                score_in_order(s).qsos.insert(
                    scored(s, k).len() as int,
                    scored_at(s.insert(k, x), k),
                )
            } else {
                score_in_order(s).qsos
            },
            contacts: score_in_order(s).contacts.insert(k, (x.id, reason(s.insert(k, x), k))),
            ..score_in_order(s)
        }),
{
    let t = s.insert(k, x);
    let n = s.len() as int;
    let a = score_in_order(s);
    let b = score_in_order(t);
    assert(t.len() == n + 1 && t[k] == x);
    law_reasons(t, k);
    lemma_tally_behind(s, k, x, n, Band::B160, ContactReason::Credited);
    lemma_tally_behind(s, k, x, n, Band::B160, ContactReason::Duplicate);
    lemma_tally_behind(s, k, x, n, Band::B160, ContactReason::IncompleteExchange);
    assert forall|band: Band| #[trigger]
        worked(t, n + 1, band) == worked(s, n, band) && count_on(t, n + 1, band) == count_on(
            s,
            n,
            band,
        ) by {
        lemma_tally_behind(s, k, x, n, band, ContactReason::Credited);
    }
    assert(total_worked(t, n + 1) == total_worked(s, n));
    assert(b.bands =~= a.bands) by {
        assert forall|i: int| 0 <= i < 6 implies #[trigger] b.bands[i] == a.bands[i] by {
            let band = model::all_bands()[i];
            assert(worked(t, n + 1, band) == worked(s, n, band));
            assert(count_on(t, n + 1, band) == count_on(s, n, band));
        }
    }
    assert(b.multiplier_rows =~= a.multiplier_rows) by {
        assert forall|i: int| 0 <= i < a.multiplier_rows.len() implies #[trigger]
            b.multiplier_rows[i] == a.multiplier_rows[i] by {
            lemma_same_bands(s, t, naqp_catalog::catalog()[i].id@, model::all_bands());
        }
    }
    assert(b.contacts =~= a.contacts.insert(k, (x.id, reason(t, k)))) by {
        assert forall|i: int| 0 <= i < n + 1 implies #[trigger] b.contacts[i] == a.contacts.insert(
            k,
            (x.id, reason(t, k)),
        )[i] by {
            if i < k {
                lemma_reasons_stay(s, k, x, i);
            } else if i > k {
                lemma_reasons_stay(s, k, x, i - 1);
            }
        }
    }
}

/// A contact that is added to a log comes in at some place of the order of time, and the others keep
/// theirs.
pub proof fn law_added_contact_takes_its_place(q: Seq<QsoModel>, x: QsoModel)
    ensures
        exists|k: int|
            0 <= k <= q.len() && in_time_order(q.push(x)) == #[trigger] in_time_order(q).insert(
                k,
                x,
            ),
{
    let e = timed(q);
    let f = timed(q.push(x));
    assert(f.drop_last() =~= e);
    assert(f.last() == (time_rank(x), x));
    sort::lemma_sorted(e);
    let k = sort::lemma_placed_at(sort::sorted(e), (time_rank(x), x));
    assert(in_time_order(q.push(x)) =~= in_time_order(q).insert(k, x));
}

/// No two contacts have the same time.
pub open spec fn times_differ(q: Seq<QsoModel>) -> bool {
    forall|i: int, j: int|
        0 <= i < j < q.len() ==> (#[trigger] q[i]).timestamp != (#[trigger] q[j]).timestamp
}

proof fn lemma_timed_multiset(q: Seq<QsoModel>, e: (Seq<PartModel>, QsoModel))
    ensures
        timed(q).to_multiset().count(e) == if e.0 == time_rank(e.1) {
            q.to_multiset().count(e.1)
        } else {
            0nat
        },
    decreases q.len(),
{
    broadcast use vstd::seq_lib::group_to_multiset_ensures;

    if q.len() == 0 {
        assert(timed(q) =~= Seq::empty());
        assert(q =~= Seq::empty());
    } else {
        let front = q.drop_last();
        lemma_timed_multiset(front, e);
        assert(q =~= front.push(q.last()));
        assert(timed(q) =~= timed(front).push((time_rank(q.last()), q.last())));
    }
}

/// The score of a log whose contacts have different times does not depend on the order in which the
/// log holds them.
pub proof fn law_score_does_not_depend_on_order(a: Seq<QsoModel>, b: Seq<QsoModel>)
    requires
        a.to_multiset() == b.to_multiset(),
        times_differ(a),
    ensures
        in_time_order(a) == in_time_order(b),
        score_of(a) == score_of(b),
{
    let x = timed(a);
    let y = timed(b);
    sort::lemma_sorted(x);
    sort::lemma_sorted(y);
    assert(x.to_multiset() =~= y.to_multiset()) by {
        assert forall|e: (Seq<PartModel>, QsoModel)| #[trigger]
            x.to_multiset().count(e) == y.to_multiset().count(e) by {
            lemma_timed_multiset(a, e);
            lemma_timed_multiset(b, e);
        }
    }
    assert forall|i: int, j: int| 0 <= i < j < x.len() implies (#[trigger] x[i]).0 != (
    #[trigger] x[j]).0 by {
        let p = a[i].timestamp;
        let q = a[j].timestamp;
        if x[i].0 == x[j].0 {
            assert(x[i].0[0] == PartModel::Number(p.second) && x[i].0[1] == PartModel::Number(
                p.nanos,
            ));
            assert(x[j].0[0] == PartModel::Number(q.second) && x[j].0[1] == PartModel::Number(
                q.nanos,
            ));
            assert(p == q);
        }
    }
    sort::lemma_order_is_unique(x, sort::sorted(x), sort::sorted(y));
}

// ---------------------------------------------------------------------------------------------
// What a score is made of
// ---------------------------------------------------------------------------------------------
proof fn lemma_taken(s: Seq<QsoModel>, n: int, i: int)
    requires
        0 <= i < n <= s.len(),
    ensures
        s.take(n)[i] == s[i],
        duplicate(s.take(n), i) == duplicate(s, i),
        credited(s.take(n), i) == credited(s, i),
        reason(s.take(n), i) == reason(s, i),
{
    let t = s.take(n);
    if duplicate(t, i) {
        let j = choose|j: int| 0 <= j < i && complete(#[trigger] t[j]) && repeats(t[j], t[i]);
        assert(s[j] == t[j]);
    }
    if duplicate(s, i) {
        let j = choose|j: int| 0 <= j < i && complete(#[trigger] s[j]) && repeats(s[j], s[i]);
        assert(t[j] == s[j]);
    }
}

proof fn lemma_tally_taken(s: Seq<QsoModel>, n: int, m: int, band: Band, why: ContactReason)
    requires
        0 <= m <= n <= s.len(),
    ensures
        count(s.take(n), m, why) == count(s, m, why),
        count_on(s.take(n), m, band) == count_on(s, m, band),
        worked(s.take(n), m, band) == worked(s, m, band),
        credit_times(s.take(n), m) == credit_times(s, m),
        scored(s.take(n), m) == scored(s, m),
    decreases m,
{
    if m > 0 {
        lemma_tally_taken(s, n, m - 1, band, why);
        lemma_taken(s, n, m - 1);
    }
}

proof fn lemma_times_between(s: Seq<QsoModel>, i: int, n: int)
    requires
        0 <= i <= n <= s.len(),
        forall|k: int| i <= k < n ==> !#[trigger] credited(s, k),
    ensures
        credit_times(s, n) == credit_times(s, i),
    decreases n,
{
    if i < n {
        assert(!credited(s, n - 1));
        lemma_times_between(s, i, n - 1);
    }
}

/// The log up to a contact that counts has as much more off time than the log up to the one that
/// counts before it as the gap between the two brings: its whole minutes less one where it is 31
/// minutes or longer, however long it is, and nothing where it is shorter.
pub proof fn law_off_time_of_a_gap(s: Seq<QsoModel>, i: int, j: int)
    requires
        0 <= i < j < s.len(),
        credited(s, i),
        credited(s, j),
        forall|k: int| i < k < j ==> !#[trigger] credited(s, k),
    ensures
        ({
            let before = score_in_order(s.take(i + 1)).off_minutes;
            let after = score_in_order(s.take(j + 1)).off_minutes;
            let seconds = time::span(s[i].timestamp, s[j].timestamp) / 1_000_000_000;
            &&& seconds >= 31 * 60 ==> after == before + seconds / 60 - 1
            &&& seconds < 31 * 60 ==> after == before
        }),
{
    lemma_tally_taken(s, i + 1, i + 1, Band::B20, ContactReason::Credited);
    lemma_tally_taken(s, j + 1, j + 1, Band::B20, ContactReason::Credited);
    lemma_times_between(s, i + 1, j);
    let a = credit_times(s, i + 1);
    let b = credit_times(s, j + 1);
    assert(b =~= a.push(s[j].timestamp));
    assert(b.drop_last() =~= a);
    assert(a.last() == s[i].timestamp);
    assert(b[b.len() - 2] == s[i].timestamp);
    let g = time::span(s[i].timestamp, s[j].timestamp);
    assert(g / 60_000_000_000 == (g / 1_000_000_000) / 60);
}

/// A gap that is so many minutes longer, and long enough to be off time, brings so many minutes more.
pub proof fn law_longer_gap_is_longer_off_time(
    s: Seq<QsoModel>,
    t: Seq<QsoModel>,
    i: int,
    minutes: int,
)
    requires
        0 <= i,
        s.len() == i + 2,
        t.len() == i + 2,
        s.take(i + 1) == t.take(i + 1),
        credited(s, i),
        credited(s, i + 1),
        credited(t, i + 1),
        minutes >= 0,
        time::span(s[i].timestamp, s[i + 1].timestamp) >= 31 * 60 * 1_000_000_000,
        time::span(t[i].timestamp, t[i + 1].timestamp) == time::span(
            s[i].timestamp,
            s[i + 1].timestamp,
        ) + minutes * 60 * 1_000_000_000,
    ensures
        score_in_order(t).off_minutes == score_in_order(s).off_minutes + minutes,
{
    lemma_taken(s, i + 1, i);
    lemma_taken(t, i + 1, i);
    assert(s.take(i + 2) =~= s);
    assert(t.take(i + 2) =~= t);
    law_off_time_of_a_gap(s, i, i + 1);
    law_off_time_of_a_gap(t, i, i + 1);
    let g = time::span(s[i].timestamp, s[i + 1].timestamp);
    assert((g + minutes * 60 * 1_000_000_000) / 1_000_000_000 == g / 1_000_000_000 + minutes * 60);
}

proof fn lemma_first_time(s: Seq<QsoModel>, i: int, n: int)
    requires
        0 <= i < n <= s.len(),
        credited(s, i),
        forall|k: int| 0 <= k < i ==> !#[trigger] credited(s, k),
    ensures
        credit_times(s, n).len() > 0,
        credit_times(s, n)[0] == s[i].timestamp,
    decreases n,
{
    if n == i + 1 {
        lemma_times_between(s, 0, i);
    } else {
        lemma_first_time(s, i, n - 1);
    }
}

/// Operating time and off time together are the whole minutes from the first contact that counts to
/// the last; without one that counts there is neither.
pub proof fn law_operating_time(s: Seq<QsoModel>, i: int, j: int)
    requires
        0 <= i <= j < s.len(),
        credited(s, i),
        credited(s, j),
        forall|k: int| 0 <= k < i ==> !#[trigger] credited(s, k),
        forall|k: int| j < k < s.len() ==> !#[trigger] credited(s, k),
        time::span(s[i].timestamp, s[j].timestamp) >= 0,
    ensures
        score_in_order(s).operating_minutes + score_in_order(s).off_minutes == time::span(
            s[i].timestamp,
            s[j].timestamp,
        ) / 1_000_000_000 / 60,
        i == j ==> score_in_order(s).off_minutes == 0,
        forall|t: Seq<QsoModel>|
            (forall|k: int| 0 <= k < t.len() ==> !#[trigger] credited(t, k)) ==> (
            #[trigger] score_in_order(t)).off_minutes == 0 && score_in_order(t).operating_minutes
                == 0,
{
    let n = s.len() as int;
    lemma_first_time(s, i, n);
    lemma_times_between(s, j + 1, n);
    assert(credit_times(s, n).last() == s[j].timestamp);
    let g = time::span(s[i].timestamp, s[j].timestamp);
    assert(g / 60_000_000_000 == (g / 1_000_000_000) / 60);
    if i == j {
        lemma_times_between(s, 0, i);
        assert(credit_times(s, n).len() == 1);
    }
    assert forall|t: Seq<QsoModel>|
        (forall|k: int| 0 <= k < t.len() ==> !#[trigger] credited(t, k)) implies (
    #[trigger] score_in_order(t)).off_minutes == 0 && score_in_order(t).operating_minutes == 0 by {
        lemma_times_between(t, 0, t.len() as int);
        assert(credit_times(t, t.len() as int).len() == 0);
    }
}

proof fn lemma_first_credited(s: Seq<QsoModel>, i: int) -> (j: int)
    requires
        0 <= i < s.len(),
        duplicate(s, i),
    ensures
        0 <= j < i,
        credited(s, j),
        repeats(s[j], s[i]),
    decreases i,
{
    let k = choose|k: int| 0 <= k < i && complete(#[trigger] s[k]) && repeats(s[k], s[i]);
    if credited(s, k) {
        k
    } else {
        lemma_first_credited(s, k)
    }
}

/// The mode is the two letters for Morse code, whatever their case.
pub open spec fn morse(mode: Seq<char>) -> bool {
    &&& mode.len() == 2
    &&& mode[0] == 'C' || mode[0] == 'c'
    &&& mode[1] == 'W' || mode[1] == 'w'
}

/// The same station on the same band counts at an earlier place.
pub open spec fn counted_before(s: Seq<QsoModel>, i: int) -> bool {
    exists|j: int|
        0 <= j < i && #[trigger] credited(s, j) && s[j].band == s[i].band && text::same_letters(
            text::trimmed(s[j].call),
            text::trimmed(s[i].call),
        )
}

/// The contact was made in Morse code within the twelve hours of the contest on a band of it, and
/// was not deleted.
pub open spec fn of_the_contest(q: QsoModel) -> bool {
    &&& !q.deleted
    &&& q.band is Some
    &&& morse(q.mode)
    &&& 1_785_607_200 <= q.timestamp.second < 1_785_650_400
}

/// The contact has a name that is not blank, and a location whose last word means a row of the
/// checklist or says that the station is outside North America.
pub open spec fn with_exchange(q: QsoModel) -> bool {
    &&& q.name matches Some(name) && exists|i: int|
        0 <= i < name.len() && !text::is_space(#[trigger] name[i])
    &&& row_id(q) is Some || sends_dx(q)
}

pub proof fn lemma_conditions(q: QsoModel)
    ensures
        eligible(q) <==> of_the_contest(q),
        has_exchange(q) <==> with_exchange(q),
        text::same_letters(q.mode, "CW"@) <==> morse(q.mode),
{
    reveal_strlit("CW");
    text::law_same_letters(q.mode, "CW"@);
    let m = text::lower(q.mode);
    let c = text::lower("CW"@);
    assert(c.len() == 2 && c[0] == 'c' && c[1] == 'w');
    if morse(q.mode) {
        assert(m =~= c);
    }
    if text::same_letters(q.mode, "CW"@) {
        assert(m.len() == 2);
        assert(m[0] == 'c' && m[1] == 'w');
        assert(m[0] == text::lower_char(q.mode[0]) && m[1] == text::lower_char(q.mode[1]));
    }
    if let Some(name) = q.name {
        text::law_trimmed(name);
    }
}

/// A contact counts exactly where it is one of the contest with a full exchange, and the station
/// does not count on the band before it.
pub proof fn law_what_counts(s: Seq<QsoModel>, i: int)
    requires
        0 <= i < s.len(),
    ensures
        credited(s, i) <==> of_the_contest(s[i]) && with_exchange(s[i]) && !counted_before(s, i),
        duplicate(s, i) <==> of_the_contest(s[i]) && with_exchange(s[i]) && counted_before(s, i),
{
    lemma_conditions(s[i]);
    if counted_before(s, i) {
        let j = choose|j: int|
            0 <= j < i && #[trigger] credited(s, j) && s[j].band == s[i].band && text::same_letters(
                text::trimmed(s[j].call),
                text::trimmed(s[i].call),
            );
        model::law_callsigns(s[j].call, s[i].call);
        assert(complete(s[j]) && repeats(s[j], s[i]));
    }
    if duplicate(s, i) {
        let j = lemma_first_credited(s, i);
        model::law_callsigns(s[j].call, s[i].call);
    }
}

/// Every contact has the first reason that applies: it was deleted, is on no band of the contest, not
/// in Morse code, outside the period, without a full exchange, repeated, or else credited.
pub proof fn law_first_reason_applies(s: Seq<QsoModel>, i: int)
    requires
        0 <= i < s.len(),
    ensures
        ({
            let q = s[i];
            let within = 1_785_607_200 <= q.timestamp.second < 1_785_650_400;
            let why = score_in_order(s).contacts[i].1;
            &&& score_in_order(s).contacts[i].0 == q.id
            &&& why == ContactReason::Tombstone <==> q.deleted
            &&& why == ContactReason::IneligibleBand <==> !q.deleted && q.band is None
            &&& why == ContactReason::WrongMode <==> !q.deleted && q.band is Some && !morse(q.mode)
            &&& why == ContactReason::OutsidePeriod <==> !q.deleted && q.band is Some && morse(
                q.mode,
            ) && !within
            &&& why == ContactReason::IncompleteExchange <==> of_the_contest(q) && !with_exchange(q)
            &&& why == ContactReason::Duplicate <==> of_the_contest(q) && with_exchange(q)
                && counted_before(s, i)
            &&& why == ContactReason::Credited <==> of_the_contest(q) && with_exchange(q)
                && !counted_before(s, i)
        }),
{
    lemma_conditions(s[i]);
    law_what_counts(s, i);
    law_reasons(s, i);
}

/// The row that a contact means is worked on its band by an earlier contact that counts.
pub open spec fn worked_before(s: Seq<QsoModel>, i: int) -> bool {
    exists|j: int|
        0 <= j < i && #[trigger] credited(s, j) && s[j].band == s[i].band && row_id(s[j]) == row_id(
            s[i],
        )
}

proof fn lemma_one_more_row(s: Seq<QsoModel>, n: int, band: Band)
    requires
        0 < n <= s.len(),
    ensures
        worked(s, n, band).len() == worked(s, n - 1, band).len() + if credited(s, n - 1) && s[n
            - 1].band == Some(band) && row_id(s[n - 1]) is Some && !worked_before(s, n - 1) {
            1nat
        } else {
            0nat
        },
{
    let before = worked(s, n - 1, band);
    lemma_worked(s, n - 1, band);
    if credited(s, n - 1) && s[n - 1].band == Some(band) {
        if let Some(m) = multiplier_of(s[n - 1]) {
            string_map::lemma_slot_splits(before, m.id@);
            assert(string_map::has_key(before, m.id@) <==> worked_before(s, n - 1)) by {
                if worked_before(s, n - 1) {
                    let j = choose|j: int|
                        0 <= j < n - 1 && #[trigger] credited(s, j) && s[j].band == s[n - 1].band
                            && row_id(s[j]) == row_id(s[n - 1]);
                    assert(s[j].band == Some(band));
                }
                if string_map::has_key(before, m.id@) {
                    let j = choose|j: int|
                        #![trigger s[j]]
                        0 <= j < n - 1 && credited(s, j) && s[j].band == Some(band) && row_id(s[j])
                            == Some(m.id@);
                    assert(credited(s, j));
                }
            }
        }
    }
}

/// A contact that counts, behind all others, is one more valid contact, one more on its band and on
/// no other, and one more multiplier there where it means a row that is not worked on the band yet.
pub proof fn law_contact_with_credit_adds_one(s: Seq<QsoModel>, x: QsoModel, band: Band)
    requires
        credited(s.push(x), s.len() as int),
    ensures
        ({
            let a = score_in_order(s);
            let b = score_in_order(s.push(x));
            let here = x.band == Some(band);
            let anew = row_id(x) is Some && !worked_before(s.push(x), s.len() as int);
            let k = band.place();
            &&& b.valid_qsos == a.valid_qsos + 1
            &&& b.duplicates == a.duplicates
            &&& b.unresolved_exchanges == a.unresolved_exchanges
            &&& b.total_multipliers == a.total_multipliers + if anew {
                1int
            } else {
                0
            }
            &&& b.claimed_score == b.valid_qsos * b.total_multipliers
            &&& a.bands[k].band == band && b.bands[k].band == band
            &&& b.bands[k].qsos == a.bands[k].qsos + if here {
                1int
            } else {
                0
            }
            &&& b.bands[k].multipliers == a.bands[k].multipliers + if here && anew {
                1int
            } else {
                0
            }
            &&& b.bands[k].multiplier_values.len() == b.bands[k].multipliers
            &&& b.qsos == a.qsos.push(
                ScoredModel {
                    id: x.id,
                    duplicate: false,
                    unresolved_exchange: false,
                    multiplier: row_id(x),
                },
            )
            &&& b.contacts == a.contacts.push((x.id, ContactReason::Credited))
        }),
{
    let t = s.push(x);
    let n = s.len() as int;
    assert(t.take(n) =~= s);
    assert(t[n] == x);
    let why = ContactReason::Credited;
    law_reasons(t, n);
    assert forall|b: Band| #[trigger] worked(t, n, b) == worked(s, n, b) && count_on(t, n, b)
        == count_on(s, n, b) by {
        lemma_tally_taken(t, n, n, b, why);
    }
    lemma_tally_taken(t, n, n, band, ContactReason::Credited);
    lemma_tally_taken(t, n, n, band, ContactReason::Duplicate);
    lemma_tally_taken(t, n, n, band, ContactReason::IncompleteExchange);
    lemma_one_more_row(t, n + 1, Band::B160);
    lemma_one_more_row(t, n + 1, Band::B80);
    lemma_one_more_row(t, n + 1, Band::B40);
    lemma_one_more_row(t, n + 1, Band::B20);
    lemma_one_more_row(t, n + 1, Band::B15);
    lemma_one_more_row(t, n + 1, Band::B10);
    assert(model::all_bands()[band.place()] == band);
    match x.band {
        Some(Band::B160) => {},
        Some(Band::B80) => {},
        Some(Band::B40) => {},
        Some(Band::B20) => {},
        Some(Band::B15) => {},
        Some(Band::B10) => {},
        None => {},
    }
    let a = score_in_order(s);
    let b = score_in_order(t);
    assert(b.contacts =~= a.contacts.push((x.id, why))) by {
        assert forall|i: int| 0 <= i < n implies #[trigger] b.contacts[i] == a.contacts[i] by {
            lemma_taken(t, n, i);
        }
    }
}

/// Without contacts there is no score; it is that of the rules of August 2026.
pub proof fn law_empty_log(q: Seq<QsoModel>)
    requires
        q.len() == 0,
    ensures
        score_of(q).valid_qsos == 0,
        score_of(q).duplicates == 0,
        score_of(q).unresolved_exchanges == 0,
        score_of(q).total_multipliers == 0,
        score_of(q).claimed_score == 0,
        score_of(q).qsos.len() == 0,
        score_of(q).contacts.len() == 0,
        score_of(q).rules_version == "2026-08-cw"@,
{
    lemma_time_order(q);
    assert(in_time_order(q).len() == 0);
    law_totals(q);
    lemma_total_worked(in_time_order(q), 0);
}

/// The rows that a band shows as worked are those that contacts which count on it mean, each once.
pub proof fn law_rows_of_a_band(s: Seq<QsoModel>, band: Band, id: Seq<char>)
    ensures
        ({
            let shown = score_in_order(s).bands[band.place()].multiplier_values;
            &&& shown.contains(id) <==> exists|j: int|
                0 <= j < s.len() && #[trigger] credited(s, j) && s[j].band == Some(band) && row_id(
                    s[j],
                ) == Some(id)
            &&& forall|i: int, j: int|
                0 <= i < j < shown.len() ==> #[trigger] shown[i] != #[trigger] shown[j]
        }),
{
    let n = s.len() as int;
    let w = worked(s, n, band);
    let shown = score_in_order(s).bands[band.place()].multiplier_values;
    assert(model::all_bands()[band.place()] == band);
    assert(shown == string_map::keys(w));
    lemma_worked(s, n, band);
    assert(shown.contains(id) <==> string_map::has_key(w, id)) by {
        if shown.contains(id) {
            let i = choose|i: int| 0 <= i < shown.len() && shown[i] == id;
            assert(w[i].0 == id);
        }
        if string_map::has_key(w, id) {
            let i = choose|i: int| 0 <= i < w.len() && #[trigger] w[i].0 == id;
            assert(shown[i] == id);
        }
    }
    if string_map::has_key(w, id) {
        let j = choose|j: int|
            #![trigger s[j]]
            0 <= j < n && credited(s, j) && s[j].band == Some(band) && row_id(s[j]) == Some(id);
        assert(credited(s, j));
    }
    assert forall|i: int, j: int| 0 <= i < j < shown.len() implies #[trigger] shown[i]
        != #[trigger] shown[j] by {
        assert(string_map::before(w[i].0, w[j].0));
        string_map::lemma_before_irreflexive(w[i].0);
    }
}

/// The contacts are scored in the order of their times, all of them and no other, and those of one
/// time in the order of the log.
pub proof fn law_scored_in_order_of_time(q: Seq<QsoModel>, i: int, j: int)
    requires
        0 <= i < j < q.len(),
    ensures
        in_time_order(q).len() == q.len(),
        in_time_order(q).to_multiset() == q.to_multiset(),
        ({
            let a = in_time_order(q)[i].timestamp;
            let b = in_time_order(q)[j].timestamp;
            a.second < b.second || (a.second == b.second && a.nanos <= b.nanos)
        }),
        score_of(q) == score_in_order(in_time_order(q)),
        (forall|k: int, m: int|
            0 <= k < m < q.len() ==> time::no_later(
                (#[trigger] q[k]).timestamp,
                (#[trigger] q[m]).timestamp,
            )) ==> in_time_order(q) == q,
{
    let e = timed(q);
    let r = sort::sorted(e);
    let s = in_time_order(q);
    lemma_time_order(q);
    sort::lemma_sorted(e);
    let t = times_of(s);
    assert(time::no_later(t[i], t[j]));
    lemma_time_order_holds(q);
    if forall|k: int, m: int|
        0 <= k < m < q.len() ==> time::no_later(
            (#[trigger] q[k]).timestamp,
            (#[trigger] q[m]).timestamp,
        ) {
        lemma_sorted_already(q);
    }
}

proof fn lemma_time_order_holds(q: Seq<QsoModel>)
    ensures
        in_time_order(q).to_multiset() == q.to_multiset(),
    decreases q.len(),
{
    broadcast use vstd::seq_lib::group_to_multiset_ensures;

    lemma_time_order(q);
    if q.len() == 0 {
        assert(in_time_order(q) =~= q);
    } else {
        let front = q.drop_last();
        let x = q.last();
        lemma_time_order_holds(front);
        lemma_time_order(front);
        law_added_contact_takes_its_place(front, x);
        assert(front.push(x) =~= q);
        let k = choose|k: int|
            0 <= k <= front.len() && in_time_order(front.push(x)) == #[trigger] in_time_order(
                front,
            ).insert(k, x);
        let s = in_time_order(front);
        assert(s.insert(k, x).to_multiset() =~= s.to_multiset().insert(x)) by {
            vstd::seq_lib::to_multiset_insert(s, k, x);
        }
    }
}

proof fn lemma_rank_order(a: QsoModel, b: QsoModel)
    ensures
        sort::below(time_rank(b), time_rank(a)) <==> !time::no_later(a.timestamp, b.timestamp),
{
    reveal_with_fuel(sort::below, 3);
    let x = time_rank(a);
    let y = time_rank(b);
    assert(x[0] == PartModel::Number(a.timestamp.second));
    assert(y[0] == PartModel::Number(b.timestamp.second));
    assert(x.skip(1)[0] == PartModel::Number(a.timestamp.nanos));
    assert(y.skip(1)[0] == PartModel::Number(b.timestamp.nanos));
}

proof fn lemma_sorted_already(q: Seq<QsoModel>)
    requires
        forall|k: int, m: int|
            0 <= k < m < q.len() ==> time::no_later(
                (#[trigger] q[k]).timestamp,
                (#[trigger] q[m]).timestamp,
            ),
    ensures
        sort::sorted(timed(q)) == timed(q),
        in_time_order(q) == q,
    decreases q.len(),
{
    let e = timed(q);
    if q.len() > 0 {
        let front = q.drop_last();
        assert(forall|k: int| 0 <= k < front.len() ==> #[trigger] front[k] == q[k]);
        lemma_sorted_already(front);
        assert(e.drop_last() =~= timed(front));
        if front.len() > 0 {
            let y = q[q.len() - 2];
            let x = q[q.len() - 1];
            lemma_rank_order(y, x);
            assert(timed(front).last() == (time_rank(y), y));
            assert(e.last() == (time_rank(x), x));
        }
        assert(timed(front).push(e.last()) =~= e);
    }
    assert(sort::unranked(e) =~= q);
}

/// Of two contacts with a station on a band that could both count, the later one never does, in
/// whatever order the log holds them.
pub proof fn law_later_repetition_does_not_count(q: Seq<QsoModel>, i: int, j: int, k: int)
    requires
        0 <= i < q.len(),
        0 <= j < q.len(),
        of_the_contest(q[i]) && with_exchange(q[i]),
        of_the_contest(q[j]) && with_exchange(q[j]),
        q[i].band == q[j].band,
        text::same_letters(text::trimmed(q[i].call), text::trimmed(q[j].call)),
        q[i].timestamp.second < q[j].timestamp.second || (q[i].timestamp.second
            == q[j].timestamp.second && q[i].timestamp.nanos < q[j].timestamp.nanos),
        0 <= k < q.len(),
        in_time_order(q)[k] == q[j],
    ensures
        score_of(q).contacts[k] == (q[j].id, ContactReason::Duplicate),
{
    broadcast use vstd::seq_lib::group_to_multiset_ensures;

    let s = in_time_order(q);
    lemma_time_order(q);
    lemma_time_order_holds(q);
    assert(q.contains(q[i]));
    assert(q.to_multiset().count(q[i]) > 0);
    assert(s.contains(q[i]));
    let m = choose|m: int| 0 <= m < s.len() && s[m] == q[i];
    let t = times_of(s);
    if m > k {
        assert(time::no_later(t[k], t[m]));
    }
    assert(m < k);
    lemma_conditions(q[i]);
    lemma_conditions(q[j]);
    model::law_callsigns(q[i].call, q[j].call);
    assert(complete(s[m]) && repeats(s[m], s[k]));
    assert(duplicate(s, k));
    law_reasons(s, k);
}

proof fn lemma_points_upper(s: Seq<char>)
    ensures
        text::without_points(text::upper(s)) == text::upper(text::without_points(s)),
    decreases s.len(),
{
    let u = text::upper(s);
    if s.len() == 0 {
        assert(u =~= s);
    } else {
        lemma_points_upper(s.drop_last());
        assert(u.drop_last() =~= text::upper(s.drop_last()));
        assert(u.last() == text::upper_char(s.last()));
        assert(text::without_points(u) =~= text::upper(text::without_points(s)));
    }
}

/// The last word of a location is what counts of it: where that is a code of the checklist, whatever
/// the case of its letters and the points and commas in it, the contact means the row of that code.
pub proof fn law_last_word_is_the_multiplier(q: QsoModel, word: Seq<char>, code: Seq<char>)
    requires
        q.location matches Some(l) && text::words(l).len() > 0 && text::words(l).last() == word,
        naqp_catalog::printed(code),
        code != "HI"@,
        text::same_letters(text::without_points(word), code),
    ensures
        multiplier_of(q) matches Some(m) && m.code@ == code && row_id(q) == Some(m.id@),
{
    let l = q.location->0;
    let w = text::words(l);
    text::lemma_words(l);
    assert(w[w.len() - 1] == word);
    lemma_points_upper(word);
    text::law_same_letters(text::without_points(word), code);
    let i = choose|i: int|
        0 <= i < naqp_catalog::catalog().len() && (#[trigger] naqp_catalog::catalog()[i]).code@
            == code;
    naqp_catalog::law_codes_are_plain(i);
    assert(text::upper(code) =~= code);
    naqp_catalog::lemma_other_spellings_are_not_printed();
    naqp_catalog::lemma_found(code);
}

/// A contact whose location has no word, or whose last word is neither a code of the checklist nor
/// another spelling of one, means no row; and a row that is meant has the code that was read.
pub proof fn law_only_codes_are_multipliers(q: QsoModel)
    ensures
        q.location is None ==> row_id(q) is None,
        q.location matches Some(l) && text::words(l).len() == 0 ==> row_id(q) is None,
        q.location matches Some(l) && text::words(l).len() > 0 && multiplier_code(
            text::words(l).last(),
        ) is None ==> row_id(q) is None,
        multiplier_of(q) matches Some(m) ==> q.location is Some && text::words(
            q.location->0,
        ).len() > 0 && multiplier_code(text::words(q.location->0).last()) == Some(m.code@)
            && naqp_catalog::printed(m.code@),
{
    if let Some(l) = q.location {
        if let Some(word) = text::last_word(l) {
            if let Some(code) = multiplier_code(word) {
                naqp_catalog::law_resolved_rows_are_printed(code, q.call, q.country);
            }
        }
    }
}

/// Other spellings stand for their codes, in any case of letters and with points and commas in them;
/// space around a value does not matter either.
pub proof fn law_other_spellings(value: Seq<char>)
    ensures
        ({
            let t = text::without_points(text::upper(text::trimmed(value)));
            let c = multiplier_code(value);
            &&& t == "NFLD"@ || t == "NF"@ ==> c == Some("NL"@)
            &&& t == "NWT"@ ==> c == Some("NT"@)
            &&& t == "QUE"@ || t == "PQ"@ ==> c == Some("QC"@)
            &&& t == "PEI"@ ==> c == Some("PE"@)
            &&& t == "YUK"@ ==> c == Some("YT"@)
            &&& t == "MEX"@ || t == "MEXICO"@ ==> c == Some("XE"@)
            &&& t == "4U1UN"@ || t == "4U1/U"@ ==> c == Some("4U1U"@)
            &&& c is Some && !naqp_catalog::printed(t) ==> t == "NFLD"@ || t == "NF"@ || t == "NWT"@
                || t == "QUE"@ || t == "PQ"@ || t == "PEI"@ || t == "YUK"@ || t == "MEX"@ || t
                == "MEXICO"@ || t == "4U1UN"@ || t == "4U1/U"@
            &&& naqp_catalog::printed(t) ==> c == Some(t)
            &&& multiplier_code(text::upper(value)) == c
            &&& multiplier_code(text::trimmed(value)) == c
        }),
{
    naqp_catalog::lemma_spelled_codes_are_printed();
    naqp_catalog::lemma_other_spellings_are_not_printed();
    text::law_trimmed(value);
    model::law_callsigns(value, value);
    reveal_strlit("NFLD");
    reveal_strlit("NF");
    reveal_strlit("NWT");
    reveal_strlit("QUE");
    reveal_strlit("PQ");
    reveal_strlit("PEI");
    reveal_strlit("YUK");
    reveal_strlit("MEX");
    reveal_strlit("MEXICO");
    reveal_strlit("4U1UN");
    reveal_strlit("4U1/U");
    assert("NFLD"@.len() == 4 && "NF"@.len() == 2 && "PQ"@.len() == 2 && "NWT"@.len() == 3
        && "QUE"@.len() == 3 && "PEI"@.len() == 3 && "YUK"@.len() == 3 && "MEX"@.len() == 3
        && "MEXICO"@.len() == 6 && "4U1UN"@.len() == 5 && "4U1/U"@.len() == 5);
    assert("NF"@[0] == 'N' && "PQ"@[0] == 'P');
    assert("NWT"@[0] == 'N' && "QUE"@[0] == 'Q' && "PEI"@[0] == 'P' && "YUK"@[0] == 'Y'
        && "MEX"@[0] == 'M');
    assert("4U1UN"@[3] == 'U' && "4U1/U"@[3] == '/');
}

/// A station says that it is outside North America with the letters DX as the last word of its
/// location, whatever their case and with points and commas around them at most.
pub proof fn law_outside_north_america(q: QsoModel, word: Seq<char>)
    requires
        q.location matches Some(l) && text::words(l).len() > 0 && text::words(l).last() == word,
    ensures
        text::same_letters(word, "DX"@) ==> sends_dx(q),
        sends_dx(q) ==> text::same_letters(text::without_points(word), "DX"@),
        q.location is None ==> !sends_dx(q),
{
    reveal_strlit("DX");
    let head = text::strip_start(word, CharClass::PointOrComma);
    let core = text::strip_end(head, CharClass::PointOrComma);
    if text::same_letters(word, "DX"@) {
        text::law_same_letters(word, "DX"@);
        assert(text::lower(word)[0] == 'd' && text::lower(word)[1] == 'x');
        assert(text::lower(word)[0] == text::lower_char(word[0]));
        assert(text::lower(word)[1] == text::lower_char(word[1]));
        assert(head == word);
        assert(core == word);
    }
    if sends_dx(q) {
        text::lemma_without_points_stripped(word);
        text::lemma_without_points_stripped(head);
        lemma_points_upper(word);
        lemma_points_upper(core);
        text::law_same_letters(core, "DX"@);
        text::law_same_letters(text::without_points(word), "DX"@);
        assert(text::lower(core)[0] == 'd' && text::lower(core)[1] == 'x');
        assert(text::lower(core)[0] == text::lower_char(core[0]));
        assert(text::lower(core)[1] == text::lower_char(core[1]));
        text::lemma_no_points(core);
        assert(text::upper(text::without_points(word)) == text::upper(core));
    }
}

} // verus!
