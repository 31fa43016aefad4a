//! The protocol of the log service: what is asked of it, and what its answers mean.
use vstd::prelude::*;

use crate::adif;
use crate::frequency;
use crate::frequency::Decimal;
use crate::frequency::Frequency;
use crate::json;
use crate::json::Json;
use crate::json::JsonModel;
use crate::json::JsonNumber;
use crate::json::NumberModel;
use crate::model;
use crate::model::Band;
use crate::model::DiagnosticModel;
use crate::model::Operation;
use crate::model::OperationModel;
use crate::model::Qso;
use crate::model::QsoModel;
use crate::model::RecordDiagnostic;
use crate::model::RecordReason;
use crate::numbers;
use crate::string_map;
use crate::string_map::Duplicate;
use crate::text;
use crate::text::CharClass;
use crate::time;
use crate::time::Instant;
use crate::time::Timestamp;

verus! {

// ---------------------------------------------------------------------------------------------
// Values of records
// ---------------------------------------------------------------------------------------------
/// A text, or a whole number in decimal.
pub open spec fn scalar(value: JsonModel) -> Option<Seq<char>> {
    match value {
        JsonModel::Text(t) => Some(t),
        JsonModel::Number(NumberModel::Unsigned(n)) => Some(numbers::decimal(n as nat)),
        JsonModel::Number(NumberModel::Negative(n)) => Some(numbers::signed_decimal(n as int)),
        _ => None,
    }
}

pub open spec fn scalar_in(value: Option<JsonModel>) -> Option<Seq<char>> {
    match value {
        Some(v) => scalar(v),
        None => None,
    }
}

fn scalar_string(value: Option<&Json>) -> (r: Option<String>)
    ensures
        text::opt_text(r) == scalar_in(json::opt_model(value)),
{
    match value {
        Some(Json::Text(t)) => Some(t.clone()),
        Some(Json::Number(JsonNumber::Unsigned(n))) => Some(numbers::decimal_text(*n)),
        Some(Json::Number(JsonNumber::Negative(n))) => Some(numbers::signed_text(*n)),
        _ => None,
    }
}

/// The instant that a member holds in milliseconds since the beginning of 1970.
pub open spec fn instant_at(value: JsonModel, key: Seq<char>) -> Option<Instant> {
    match json::signed_in(value.member(key)) {
        Some(ms) => if time::FIRST_SECOND * 1000 <= ms < (time::LAST_SECOND + 1) * 1000 {
            Some(time::regular(ms * 1_000_000))
        } else {
            None
        },
        None => None,
    }
}

fn millis(value: &Json, key: &str) -> (r: Option<Timestamp>)
    ensures
        time::opt_time(r) == instant_at(value@, key@),
{
    match json::as_signed(value.get(key)) {
        Some(ms) => Timestamp::from_millis(ms),
        None => None,
    }
}

/// The item is a reference to the contest.
pub open spec fn is_contest_ref(item: JsonModel) -> bool {
    json::text_in(item.member("type"@)) matches Some(kind) && text::same_letters(kind, "naqp"@)
}

/// The first reference to the contest among `refs`.
pub open spec fn contest_ref(refs: Seq<JsonModel>) -> Option<JsonModel>
    decreases refs.len(),
{
    if refs.len() == 0 {
        None
    } else if is_contest_ref(refs[0]) {
        Some(refs[0])
    } else {
        contest_ref(refs.skip(1))
    }
}

fn find_contest_ref(value: &Json) -> (r: Option<&Json>)
    ensures
        json::opt_model(r) == contest_ref(json::items_in(value@.member("refs"@))),
{
    match json::as_array(value.get("refs")) {
        None => None,
        Some(refs) => {
            let ghost all = json::items_in(value@.member("refs"@));
            let mut i: usize = 0;
            assert(all.skip(0) =~= all);
            while i < refs.len()
                invariant
                    i <= refs@.len(),
                    all.len() == refs@.len(),
                    forall|j: int| 0 <= j < refs@.len() ==> #[trigger] refs@[j]@ == all[j],
                    all == json::items_in(value@.member("refs"@)),
                    contest_ref(all) == contest_ref(all.skip(i as int)),
                decreases refs.len() - i,
            {
                assert(all.skip(i as int)[0] == refs@[i as int]@);
                assert(all.skip(i as int).skip(1) =~= all.skip(i + 1));
                if let Some(kind) = json::as_text(refs[i].get("type")) {
                    if text::same_ignoring_case(kind.as_str(), "naqp") {
                        return Some(&refs[i]);
                    }
                }
                i = i + 1;
            }
            None
        },
    }
}

fn first_of<'a>(a: Option<&'a Json>, b: Option<&'a Json>) -> (r: Option<&'a Json>)
    ensures
        json::opt_model(r) == json::or_else(json::opt_model(a), json::opt_model(b)),
{
    match a {
        Some(v) => Some(v),
        None => b,
    }
}

fn text_of(value: Option<&Json>) -> (r: Option<String>)
    ensures
        text::opt_text(r) == json::text_in(json::opt_model(value)),
{
    match json::as_text(value) {
        Some(t) => Some(t.clone()),
        None => None,
    }
}

// ---------------------------------------------------------------------------------------------
// Operations
// ---------------------------------------------------------------------------------------------
/// The operation that a record describes: it has an identifier and is not deleted.
pub open spec fn operation_of(value: JsonModel) -> Option<OperationModel> {
    if json::is_true(value.member("deleted"@)) {
        None
    } else {
        match scalar_in(value.member("uuid"@)) {
            None => None,
            Some(id) => {
                let title = json::text_in(
                    json::or_else(
                        json::or_else(value.member("userTitle"@), value.member("title"@)),
                        value.member("broaderTitle"@),
                    ),
                );
                Some(
                    OperationModel {
                        id,
                        title: match title {
                            Some(t) => t,
                            None => "Untitled operation"@,
                        },
                        station_call: None,
                        subtitle: None,
                        qso_count: None,
                        start: json::or_else(
                            instant_at(value, "startAtMillisMin"@),
                            instant_at(value, "createdAtMillis"@),
                        ),
                        end: instant_at(value, "startAtMillisMax"@),
                        is_naqp: contest_ref(json::items_in(value.member("refs"@))) is Some,
                    },
                )
            },
        }
    }
}

pub fn parse_operation(value: &Json) -> (r: Option<Operation>)
    ensures
        match r {
            Some(operation) => operation_of(value@) == Some(operation@),
            None => operation_of(value@) is None,
        },
{
    if json::as_true(value.get("deleted")) {
        return None;
    }
    let id = match scalar_string(value.get("uuid")) {
        Some(id) => id,
        None => return None,
    };
    let titled = first_of(
        first_of(value.get("userTitle"), value.get("title")),
        value.get("broaderTitle"),
    );
    let title = match text_of(titled) {
        Some(t) => t,
        None => text::owned("Untitled operation"),
    };
    let start = match millis(value, "startAtMillisMin") {
        Some(t) => Some(t),
        None => millis(value, "createdAtMillis"),
    };
    let r = Operation {
        id,
        title,
        station_call: None,
        subtitle: None,
        qso_count: None,
        start,
        end: millis(value, "startAtMillisMax"),
        is_naqp: find_contest_ref(value).is_some(),
    };
    Some(r)
}

/// The operations among `items`, in order.
pub open spec fn operations_among(items: Seq<JsonModel>) -> Seq<OperationModel>
    decreases items.len(),
{
    if items.len() == 0 {
        Seq::empty()
    } else {
        match operation_of(items.last()) {
            Some(o) => operations_among(items.drop_last()).push(o),
            None => operations_among(items.drop_last()),
        }
    }
}

/// The operations that an answer lists.
pub fn operations_in(response: &Json) -> (r: Vec<Operation>)
    ensures
        string_map::views(r@) == operations_among(
            json::items_in(response@.member("operations"@)),
        ),
{
    let ghost all = json::items_in(response@.member("operations"@));
    let mut out: Vec<Operation> = Vec::new();
    assert(string_map::views(out@) =~= Seq::empty());
    if let Some(items) = json::as_array(response.get("operations")) {
        let mut i: usize = 0;
        assert(all.take(0) =~= Seq::empty());
        while i < items.len()
            invariant
                i <= items@.len(),
                all.len() == items@.len(),
                forall|j: int| 0 <= j < items@.len() ==> #[trigger] items@[j]@ == all[j],
                string_map::views(out@) == operations_among(all.take(i as int)),
            decreases items.len() - i,
        {
            assert(all.take(i + 1).drop_last() =~= all.take(i as int));
            assert(all.take(i + 1).last() == items@[i as int]@);
            if let Some(o) = parse_operation(&items[i]) {
                let ghost before = string_map::views(out@);
                let ghost added = o@;
                out.push(o);
                assert(string_map::views(out@) =~= before.push(added));
            }
            i = i + 1;
        }
        assert(all.take(all.len() as int) =~= all);
    }
    out
}

// ---------------------------------------------------------------------------------------------
// Contacts
// ---------------------------------------------------------------------------------------------
/// The callsign of a record.
pub open spec fn call_of(value: JsonModel) -> Option<Seq<char>> {
    match json::text_in(
        json::or_else(
            value.member_of("their"@, "call"@),
            value.member_of("their"@, "baseCall"@),
        ),
    ) {
        Some(call) => Some(model::normalized(call)),
        None => None,
    }
}

/// The instant of a record: its start, its end, or the one that its start as text names.
pub open spec fn instant_with(value: JsonModel, named: Option<Instant>) -> Option<Instant> {
    match json::or_else(
        instant_at(value, "startAtMillis"@),
        instant_at(value, "endAtMillis"@),
    ) {
        Some(at) => Some(at),
        None => named,
    }
}

/// The instant that the start of a record as text names.
pub open spec fn instant_named(value: JsonModel) -> Option<Instant> {
    match json::text_in(value.member("startAt"@)) {
        Some(t) => time::rfc3339_instant(t),
        None => None,
    }
}

/// The frequency that a number without a unit is, in picohertz.
pub open spec fn frequency_meant(n: NumberModel) -> Option<int> {
    match n {
        NumberModel::Unsigned(n) => Some(frequency::guessed_whole(n as int)),
        NumberModel::Negative(n) => Some(frequency::guessed_whole(n as int)),
        NumberModel::Decimal(t) => match frequency::decimal_reading(t) {
            Some(d) => Some(frequency::guessed_decimal(d)),
            None => None,
        },
    }
}

pub open spec fn frequency_of(value: JsonModel) -> Option<Frequency> {
    match json::number_in(value.member("freq"@)) {
        Some(n) => match frequency_meant(n) {
            Some(f) => Some(Frequency { picohertz: f as i128 }),
            None => None,
        },
        None => None,
    }
}

fn find_frequency(n: &JsonNumber) -> (r: Option<Frequency>)
    ensures
        match r {
            Some(f) => frequency_meant(n@) == Some(f.picohertz as int),
            None => frequency_meant(n@) is None,
        },
{
    match n {
        JsonNumber::Unsigned(n) => Some(frequency::guess_unit(*n as i128)),
        JsonNumber::Negative(n) => Some(frequency::guess_unit(*n as i128)),
        JsonNumber::Decimal(t) => match Decimal::read(t.as_str()) {
            Some(d) => Some(d.guess_unit()),
            None => None,
        },
    }
}

/// The band that a record names, or else that of its frequency.
pub open spec fn band_in(value: JsonModel) -> Option<Band> {
    let named = match json::text_in(value.member("band"@)) {
        Some(t) => model::band_named(t),
        None => None,
    };
    match (named, frequency_of(value)) {
        (Some(band), _) => Some(band),
        (None, Some(f)) => model::band_of(f.picohertz as int),
        (None, None) => None,
    }
}

/// A part of the exchange: in the reference to the contest, or of the other station, or else a
/// word of the exchange as it was sent.
pub open spec fn exchange_part(
    value: JsonModel,
    in_ref: Seq<char>,
    in_station: Seq<char>,
    word: int,
) -> Option<Seq<char>> {
    let from_ref = match contest_ref(json::items_in(value.member("refs"@))) {
        Some(item) => item.member(in_ref),
        None => None,
    };
    json::or_else(
        json::text_in(json::or_else(from_ref, value.member_of("their"@, in_station))),
        adif::exchange_word(json::text_in(value.member_of("their"@, "exchange"@)), word),
    )
}

pub open spec fn dxcc_of(value: JsonModel) -> Option<u32> {
    match json::unsigned_in(value.member_of("their"@, "dxccCode"@)) {
        Some(n) => if n <= u32::MAX {
            Some(n as u32)
        } else {
            None
        },
        None => None,
    }
}

/// The contact that a record with `id`, `call` and an instant describes. The record itself is
/// kept, with all its members.
pub open spec fn contact_from(
    value: JsonModel,
    id: Seq<char>,
    call: Seq<char>,
    at: Instant,
) -> QsoModel {
    QsoModel {
        id,
        call,
        timestamp: at,
        band: band_in(value),
        frequency: frequency_of(value),
        mode: text::upper(
            match json::text_in(value.member("mode"@)) {
                Some(m) => m,
                None => Seq::empty(),
            },
        ),
        name: exchange_part(value, "name"@, "name"@, 0),
        location: exchange_part(value, "location"@, "state"@, 1),
        country: json::text_in(value.member_of("their"@, "country"@)),
        dxcc: dxcc_of(value),
        contest_id: Some("NAQP-CW"@),
        deleted: json::is_true(value.member("deleted"@)),
        raw: value,
    }
}

/// A record whose start as text names the instant `named` is a contact, or there is a reason why
/// it is none.
pub open spec fn reading_with(value: JsonModel, named: Option<Instant>) -> Result<
    QsoModel,
    RecordReason,
> {
    if value.member("event"@) is Some {
        Err(RecordReason::EventOrNonContact)
    } else {
        match scalar_in(value.member("uuid"@)) {
            None => Err(RecordReason::MalformedRecord),
            Some(id) => match call_of(value) {
                None => Err(RecordReason::MissingCall),
                Some(call) => match instant_with(value, named) {
                    None => Err(RecordReason::MissingTimestamp),
                    Some(at) => Ok(contact_from(value, id, call, at)),
                },
            },
        }
    }
}

/// A record is a contact, or there is a reason why it is none.
pub open spec fn record_reading(value: JsonModel) -> Result<QsoModel, RecordReason> {
    reading_with(value, instant_named(value))
}

/// Why a record is no contact, in words.
pub open spec fn reason_text(reason: RecordReason) -> Seq<char> {
    match reason {
        RecordReason::EventOrNonContact => "event or other non-contact record"@,
        RecordReason::MissingCall => "record has no callsign"@,
        RecordReason::MissingTimestamp => "record has no valid timestamp"@,
        RecordReason::MalformedRecord => "record has no identifier"@,
    }
}

/// The diagnostic of a record that is no contact.
pub open spec fn diagnostic_of(value: JsonModel, reason: RecordReason) -> DiagnosticModel {
    DiagnosticModel { id: scalar_in(value.member("uuid"@)), reason, detail: reason_text(reason) }
}

fn exchange_text(value: &Json, in_ref: &str, in_station: &str, word: usize) -> (r: Option<String>)
    ensures
        text::opt_text(r) == exchange_part(value@, in_ref@, in_station@, word as int),
{
    let from_ref = match find_contest_ref(value) {
        Some(item) => item.get(in_ref),
        None => None,
    };
    match text_of(first_of(from_ref, value.get_in("their", in_station))) {
        Some(t) => Some(t),
        None => adif::nth_word(&text_of(value.get_in("their", "exchange")), word),
    }
}

/// Reads a record whose start as text names the instant `named`.
pub fn read_record_with(value: &Json, named: Option<Timestamp>) -> (r: Result<
    Qso,
    RecordDiagnostic,
>)
    ensures
        match r {
            Ok(qso) => reading_with(value@, time::opt_time(named)) == Ok::<QsoModel, RecordReason>(
                qso@,
            ),
            Err(d) => reading_with(value@, time::opt_time(named)) == Err::<QsoModel, RecordReason>(
                d.reason,
            ) && d@ == diagnostic_of(value@, d.reason),
        },
{
    let id = scalar_string(value.get("uuid"));
    if value.get("event").is_some() {
        return Err(refused(id, RecordReason::EventOrNonContact));
    }
    let id = match id {
        Some(id) => id,
        None => return Err(refused(None, RecordReason::MalformedRecord)),
    };
    let called = first_of(value.get_in("their", "call"), value.get_in("their", "baseCall"));
    let call = match json::as_text(called) {
        Some(call) => model::normalize_call(call.as_str()),
        None => return Err(refused(Some(id), RecordReason::MissingCall)),
    };
    let started = match millis(value, "startAtMillis") {
        Some(t) => Some(t),
        None => millis(value, "endAtMillis"),
    };
    let timestamp = match started {
        Some(t) => Some(t),
        None => named,
    };
    let timestamp = match timestamp {
        Some(t) => t,
        None => return Err(refused(Some(id), RecordReason::MissingTimestamp)),
    };
    let frequency_khz = match json::as_number(value.get("freq")) {
        Some(n) => find_frequency(n),
        None => None,
    };
    let named = match json::as_text(value.get("band")) {
        Some(t) => Band::parse(t.as_str()),
        None => None,
    };
    let band = match (named, frequency_khz) {
        (Some(b), _) => Some(b),
        (None, Some(f)) => Band::from_frequency_khz(f),
        (None, None) => None,
    };
    let mode = match json::as_text(value.get("mode")) {
        Some(m) => text::to_upper(m.as_str()),
        None => String::new(),
    };
    let dxcc = match json::as_unsigned(value.get_in("their", "dxccCode")) {
        Some(n) => if n <= u32::MAX as u64 {
            Some(n as u32)
        } else {
            None
        },
        None => None,
    };
    let qso = Qso {
        id,
        call,
        timestamp,
        band,
        frequency_khz,
        mode,
        name: exchange_text(value, "name", "name", 0),
        location: exchange_text(value, "location", "state", 1),
        country: text_of(value.get_in("their", "country")),
        dxcc,
        contest_id: Some(text::owned("NAQP-CW")),
        deleted: json::as_true(value.get("deleted")),
        raw: value.duplicate(),
    };
    assert(qso@ =~= contact_from(value@, id@, call@, timestamp@));
    Ok(qso)
}

/// Reads a record.
pub fn read_record(value: &Json) -> (r: Result<Qso, RecordDiagnostic>)
    ensures
        match r {
            Ok(qso) => record_reading(value@) == Ok::<QsoModel, RecordReason>(qso@),
            Err(d) => record_reading(value@) == Err::<QsoModel, RecordReason>(d.reason) && d@
                == diagnostic_of(value@, d.reason),
        },
{
    let named = match json::as_text(value.get("startAt")) {
        Some(t) => time::parse_rfc3339(t.as_str()),
        None => None,
    };
    read_record_with(value, named)
}

fn refused(id: Option<String>, reason: RecordReason) -> (r: RecordDiagnostic)
    ensures
        r@ == (DiagnosticModel {
            id: text::opt_text(id),
            reason,
            detail: reason_text(reason),
        }),
{
    let detail = match reason {
        RecordReason::EventOrNonContact => "event or other non-contact record",
        RecordReason::MissingCall => "record has no callsign",
        RecordReason::MissingTimestamp => "record has no valid timestamp",
        RecordReason::MalformedRecord => "record has no identifier",
    };
    RecordDiagnostic { id, reason, detail: text::owned(detail) }
}

/// The contact that a record describes.
pub fn parse_qson(value: &Json) -> (r: Option<Qso>)
    ensures
        match r {
            Some(qso) => record_reading(value@) == Ok::<QsoModel, RecordReason>(qso@),
            None => record_reading(value@) is Err,
        },
{
    match read_record(value) {
        Ok(qso) => Some(qso),
        Err(_) => None,
    }
}

/// A contact keeps the record it was read from whole, members that are not understood among
/// them.
pub proof fn law_unknown_members_are_kept(value: JsonModel, key: Seq<char>)
    ensures
        record_reading(value) matches Ok(q) ==> q.raw == value && q.raw.member(key)
            == value.member(key),
{
}

/// A deleted record is a contact that is marked as deleted; an event is none.
pub proof fn law_tombstones_are_kept(value: JsonModel)
    ensures
        record_reading(value) matches Ok(q) ==> q.deleted == json::is_true(
            value.member("deleted"@),
        ),
        value.member("event"@) is Some ==> record_reading(value) is Err,
{
}

// ---------------------------------------------------------------------------------------------
// Pages of records
// ---------------------------------------------------------------------------------------------
/// A parameter of a request: its name and its value.
pub type Parameter = (Seq<char>, Seq<char>);

pub open spec fn parameters(v: Seq<(&'static str, String)>) -> Seq<Parameter> {
    Seq::new(v.len(), |i: int| (v[i].0@, v[i].1@))
}

/// What is asked for operations: those synchronized since some time, or else those started until
/// now; times are in milliseconds.
pub open spec fn operations_question(synced_since: Option<i64>, now_ms: int) -> Seq<Parameter> {
    let first = match synced_since {
        Some(since) => ("syncedSinceMillis"@, numbers::signed_decimal(since as int)),
        None => ("startedUntilMillis"@, numbers::signed_decimal(now_ms)),
    };
    seq![first, ("limit"@, "100"@)]
}

pub fn operations_query(synced_since: Option<i64>, now: Timestamp) -> (r: Vec<
    (&'static str, String),
>)
    ensures
        parameters(r@) == operations_question(synced_since, now.ms()),
{
    let first = match synced_since {
        Some(since) => ("syncedSinceMillis", numbers::signed_text(since)),
        None => ("startedUntilMillis", numbers::signed_text(now.millis())),
    };
    let mut r: Vec<(&'static str, String)> = Vec::new();
    r.push(first);
    r.push(("limit", text::owned("100")));
    assert(parameters(r@) =~= operations_question(synced_since, now.ms()));
    r
}

/// The path of the contacts of an operation.
pub fn qsos_path(operation_id: &str) -> (r: String)
    ensures
        r@ == "/v1/operations/"@ + operation_id@ + "/qsos"@,
{
    let mut out = text::joined("/v1/operations/", operation_id);
    text::push_text(&mut out, "/qsos");
    out
}

/// The contacts among `items`, in order.
pub open spec fn contacts_among(items: Seq<JsonModel>) -> Seq<QsoModel>
    decreases items.len(),
{
    if items.len() == 0 {
        Seq::empty()
    } else {
        match record_reading(items.last()) {
            Ok(q) => contacts_among(items.drop_last()).push(q),
            Err(_) => contacts_among(items.drop_last()),
        }
    }
}

/// The diagnostics of those among `items` that are no contacts, in order.
pub open spec fn diagnostics_among(items: Seq<JsonModel>) -> Seq<DiagnosticModel>
    decreases items.len(),
{
    if items.len() == 0 {
        Seq::empty()
    } else {
        match record_reading(items.last()) {
            Ok(_) => diagnostics_among(items.drop_last()),
            Err(reason) => diagnostics_among(items.drop_last()).push(
                diagnostic_of(items.last(), reason),
            ),
        }
    }
}

/// Every record of a page is a contact or has a diagnostic.
pub proof fn law_no_record_disappears(items: Seq<JsonModel>)
    ensures
        contacts_among(items).len() + diagnostics_among(items).len() == items.len(),
    decreases items.len(),
{
    if items.len() > 0 {
        law_no_record_disappears(items.drop_last());
    }
}

/// Where the next page is to be found: after the one that was read up to `cursor` there is one if
/// the answer says that records are left and names another end.
pub open spec fn next_page(response: JsonModel, cursor: Option<i64>) -> Option<i64> {
    let meta = response.member_of("meta"@, "qsos"@);
    let left = match meta {
        Some(m) => json::signed_in(m.member("records_left"@)),
        None => None,
    };
    let next = match meta {
        Some(m) => json::signed_in(m.member("next_synced_until_millis"@)),
        None => None,
    };
    match (left, next) {
        (Some(n), Some(until)) => if n > 0 && cursor != Some(until as i64) {
            Some(until as i64)
        } else {
            None
        },
        _ => None,
    }
}

/// The pages of an operation's contacts that were read so far.
pub struct Pages {
    pub synced_since: Option<i64>,
    pub cursor: Option<i64>,
    pub qsos: Vec<Qso>,
    pub diagnostics: Vec<RecordDiagnostic>,
}

/// What is asked for the next page. The first page is a short one.
pub open spec fn page_question(synced_since: Option<i64>, cursor: Option<i64>) -> Seq<Parameter> {
    let limit = seq![
        (
            "limit"@,
            if cursor is Some {
                "200"@
            } else {
                "50"@
            },
        ),
    ];
    let since = match synced_since {
        Some(ms) => seq![("syncedSinceMillis"@, numbers::signed_decimal(ms as int))],
        None => Seq::empty(),
    };
    let until = match cursor {
        Some(ms) => seq![("syncedUntilMillis"@, numbers::signed_decimal(ms as int))],
        None => Seq::empty(),
    };
    limit + since + until
}

impl Pages {
    pub fn start(synced_since: Option<i64>) -> (r: Pages)
        ensures
            r.synced_since == synced_since,
            r.cursor is None,
            r.qsos@ == Seq::<Qso>::empty(),
            r.diagnostics@ == Seq::<RecordDiagnostic>::empty(),
    {
        Pages { synced_since, cursor: None, qsos: Vec::new(), diagnostics: Vec::new() }
    }

    pub fn query(&self) -> (r: Vec<(&'static str, String)>)
        ensures
            parameters(r@) == page_question(self.synced_since, self.cursor),
    {
        let mut r: Vec<(&'static str, String)> = Vec::new();
        let limit = if self.cursor.is_some() {
            "200"
        } else {
            "50"
        };
        r.push(("limit", text::owned(limit)));
        if let Some(ms) = self.synced_since {
            r.push(("syncedSinceMillis", numbers::signed_text(ms)));
        }
        if let Some(ms) = self.cursor {
            r.push(("syncedUntilMillis", numbers::signed_text(ms)));
        }
        assert(parameters(r@) =~= page_question(self.synced_since, self.cursor));
        r
    }

    /// Takes in a page; returns whether there is another.
    pub fn take_page(&mut self, response: &Json) -> (r: bool)
        ensures
            string_map::views(final(self).qsos@) == string_map::views(old(self).qsos@)
                + contacts_among(json::items_in(response@.member("qsos"@))),
            string_map::views(final(self).diagnostics@) == string_map::views(
                old(self).diagnostics@,
            ) + diagnostics_among(json::items_in(response@.member("qsos"@))),
            final(self).synced_since == old(self).synced_since,
            r == (next_page(response@, old(self).cursor) is Some),
            final(self).cursor == if r {
                next_page(response@, old(self).cursor)
            } else {
                old(self).cursor
            },
    {
        let ghost all = json::items_in(response@.member("qsos"@));
        let ghost qsos_before = string_map::views(self.qsos@);
        let ghost diagnostics_before = string_map::views(self.diagnostics@);
        let ghost since = self.synced_since;
        let ghost at = self.cursor;
        assert(qsos_before + contacts_among(all.take(0)) =~= qsos_before);
        assert(diagnostics_before + diagnostics_among(all.take(0)) =~= diagnostics_before);
        if let Some(items) = json::as_array(response.get("qsos")) {
            let mut i: usize = 0;
            while i < items.len()
                invariant
                    i <= items@.len(),
                    all.len() == items@.len(),
                    forall|j: int| 0 <= j < items@.len() ==> #[trigger] items@[j]@ == all[j],
                    string_map::views(self.qsos@) == qsos_before + contacts_among(
                        all.take(i as int),
                    ),
                    string_map::views(self.diagnostics@) == diagnostics_before + diagnostics_among(
                        all.take(i as int),
                    ),
                    self.synced_since == since,
                    self.cursor == at,
                decreases items.len() - i,
            {
                let ghost part = all.take(i + 1);
                assert(part.drop_last() =~= all.take(i as int));
                assert(part.last() == items@[i as int]@);
                let ghost q = string_map::views(self.qsos@);
                let ghost d = string_map::views(self.diagnostics@);
                match read_record(&items[i]) {
                    Ok(qso) => {
                        let ghost added = qso@;
                        self.qsos.push(qso);
                        assert(string_map::views(self.qsos@) =~= q.push(added));
                        assert(q.push(added) =~= qsos_before + contacts_among(part));
                    },
                    Err(diagnostic) => {
                        let ghost added = diagnostic@;
                        self.diagnostics.push(diagnostic);
                        assert(string_map::views(self.diagnostics@) =~= d.push(added));
                        assert(d.push(added) =~= diagnostics_before + diagnostics_among(part));
                    },
                }
                i = i + 1;
            }
            assert(all.take(all.len() as int) =~= all);
        }
        let meta = response.get_in("meta", "qsos");
        let (left, next) = match meta {
            Some(m) => (
                json::as_signed(m.get("records_left")),
                json::as_signed(m.get("next_synced_until_millis")),
            ),
            None => (None, None),
        };
        let records_left: i64 = match left {
            Some(n) => n,
            None => 0,
        };
        match next {
            Some(until) => {
                let same = match self.cursor {
                    Some(c) => c == until,
                    None => false,
                };
                if records_left <= 0 || same {
                    false
                } else {
                    self.cursor = Some(until);
                    true
                }
            },
            None => false,
        }
    }
}

// ---------------------------------------------------------------------------------------------
// The client's identity
// ---------------------------------------------------------------------------------------------
/// What the client identifies itself with.
pub struct Credentials {
    pub key: String,
    pub secret: String,
    pub token: Option<String>,
}

/// The account that the client is linked to.
#[derive(Debug)]
pub struct Registration {
    pub linked: bool,
    pub account_call: Option<String>,
}

/// A small hexadecimal digit.
pub open spec fn is_hex(c: char) -> bool {
    '0' <= c <= '9' || 'a' <= c <= 'f'
}

/// The text has the shape of a random identifier: 36 characters, hyphens between groups of small
/// hexadecimal digits, with the digits of the version and the variant in their places.
pub open spec fn uuid_shaped(s: Seq<char>) -> bool {
    &&& s.len() == 36
    &&& forall|i: int|
        0 <= i < 36 ==> if i == 8 || i == 13 || i == 18 || i == 23 {
            #[trigger] s[i] == '-'
        } else {
            is_hex(s[i])
        }
    &&& s[14] == '4'
    &&& s[19] == '8' || s[19] == '9' || s[19] == 'a' || s[19] == 'b'
}

/// Calls `uuid::Uuid::new_v4` and writes the identifier: 36 characters, hyphens between groups of
/// small hexadecimal digits, among them that of the version, 4, and one of the variant, 8 to b. Which
/// the other digits are is left to chance; where the system has no random bytes the call does not
/// return.
#[verifier::external_body]
fn random_uuid() -> (r: String)
    ensures
        uuid_shaped(r@),
{
    uuid::Uuid::new_v4().to_string()
}

impl Credentials {
    /// An identity without a token.
    pub fn from_ids(client: &str, secret: String) -> (r: Credentials)
        ensures
            r.key@ == "browser:"@ + client@,
            r.secret == secret,
            r.token is None,
    {
        Credentials { key: text::joined("browser:", client), secret, token: None }
    }

    /// The identity is made of two random identifiers and has no token yet.
    pub open spec fn is_new(self) -> bool {
        &&& text::starts_with(self.key@, "browser:"@)
        &&& uuid_shaped(self.key@.skip("browser:"@.len() as int))
        &&& uuid_shaped(self.secret@)
        &&& self.token is None
    }

    /// A new identity, made of two random identifiers.
    pub fn fresh() -> (r: Credentials)
        ensures
            r.is_new(),
    {
        let client = random_uuid();
        let r = Credentials::from_ids(client.as_str(), random_uuid());
        assert(r.key@.take("browser:"@.len() as int) =~= "browser:"@);
        assert(r.key@.skip("browser:"@.len() as int) =~= client@);
        r
    }

    /// Takes a new identity where the service has rejected the one that was sent; says so.
    pub fn renew_if_rejected(&mut self, rejected: bool) -> (r: Option<&'static str>)
        ensures
            r is Some <==> rejected,
            r matches Some(message) ==> message@
                == "saved LoFi client identity was rejected; created a new identity, retry linking"@
                && final(self).is_new(),
            !rejected ==> *final(self) == *old(self),
    {
        if rejected {
            *self = Credentials::fresh();
            Some("saved LoFi client identity was rejected; created a new identity, retry linking")
        } else {
            None
        }
    }

    /// What registers the client.
    pub fn registration_request(&self) -> (r: Json)
        ensures
            r@ == registration_question(self.key@, self.secret@),
    {
        let mut client: Vec<(String, Json)> = Vec::new();
        client.push(text_member("key", self.key.clone()));
        client.push(text_member("name", text::owned("QSO Sidecar")));
        client.push(text_member("secret", self.secret.clone()));
        client.push(text_member("type", text::owned("browser")));
        let inner = Json::Object(client);
        let mut members: Vec<(String, Json)> = Vec::new();
        members.push((text::owned("client"), inner));
        let r = Json::Object(members);
        let ghost wanted = registration_question(self.key@, self.secret@);
        assert(inner@->Object_0 =~= wanted->Object_0[0].1->Object_0);
        assert(r@->Object_0 =~= wanted->Object_0);
        r
    }

    /// Takes in the answer to a registration.
    pub fn accept(&mut self, response: &Json) -> (r: Registration)
        ensures
            final(self).key == old(self).key,
            final(self).secret == old(self).secret,
            text::opt_text(final(self).token) == json::text_in(response@.member("token"@)),
            registers(r, response@.member("account"@)),
    {
        self.token = text_of(response.get("token"));
        registration_from(response.get("account"))
    }
}

fn text_member(key: &str, value: String) -> (r: (String, Json))
    ensures
        r.0@ == key@,
        r.1@ == JsonModel::Text(value@),
{
    (text::owned(key), Json::Text(value))
}

/// The members of a request stand in the order of their keys.
pub open spec fn registration_question(key: Seq<char>, secret: Seq<char>) -> JsonModel {
    JsonModel::Object(
        seq![
            (
                "client"@,
                JsonModel::Object(
                    seq![
                        ("key"@, JsonModel::Text(key)),
                        ("name"@, JsonModel::Text("QSO Sidecar"@)),
                        ("secret"@, JsonModel::Text(secret)),
                        ("type"@, JsonModel::Text("browser"@)),
                    ],
                ),
            ),
        ],
    )
}

/// An account that is there and not null is linked; its callsign is that of the registration.
pub open spec fn registers(r: Registration, account: Option<JsonModel>) -> bool {
    &&& r.linked == (account is Some && account != Some(JsonModel::Null))
    &&& text::opt_text(r.account_call) == match account {
        Some(a) => json::text_in(a.member("call"@)),
        None => None,
    }
}

pub fn registration_from(account: Option<&Json>) -> (r: Registration)
    ensures
        registers(r, json::opt_model(account)),
{
    match account {
        None => Registration { linked: false, account_call: None },
        Some(Json::Null) => Registration { linked: false, account_call: None },
        Some(a) => Registration { linked: true, account_call: text_of(a.get("call")) },
    }
}

/// The account that the answer to the question for accounts names.
pub fn account_in(response: &Json) -> (r: Registration)
    ensures
        registers(r, response@.member("current_account"@)),
{
    registration_from(response.get("current_account"))
}

/// What links the client to the account of an address.
pub fn link_request(email: &str) -> (r: Json)
    ensures
        r@ == JsonModel::Object(
            seq![
                ("email"@, JsonModel::Text(text::trimmed(email@))),
                ("send_email"@, JsonModel::Bool(true)),
            ],
        ),
{
    let mut members: Vec<(String, Json)> = Vec::new();
    members.push(text_member("email", text::trim(email)));
    let sent = Json::Bool(true);
    assert(sent@ == JsonModel::Bool(true));
    members.push((text::owned("send_email"), sent));
    let r = Json::Object(members);
    assert(r@->Object_0 =~= seq![
        ("email"@, JsonModel::Text(text::trimmed(email@))),
        ("send_email"@, JsonModel::Bool(true)),
    ]);
    r
}

/// The base of the service without the strokes behind it.
pub fn service_base(base: &str) -> (r: String)
    ensures
        r@ == text::strip_end(base@, CharClass::Is('/')),
{
    text::strip_right(base, CharClass::Is('/'))
}

// ---------------------------------------------------------------------------------------------
// Requests and answers
// ---------------------------------------------------------------------------------------------
/// What to do about the answer to a request that needs a token.
#[derive(Debug, Clone, Copy, PartialEq, Eq, Structural)]
pub enum Attempt {
    /// Register anew and ask once more.
    RegisterAndRetry,
    /// Take the answer as it is.
    Take,
}

/// The first refusal of the token is followed by one more attempt.
pub fn after_answer(unauthorized: bool, earlier_attempts: u32) -> (r: Attempt)
    ensures
        r == Attempt::RegisterAndRetry <==> unauthorized && earlier_attempts == 0,
{
    if unauthorized && earlier_attempts == 0 {
        Attempt::RegisterAndRetry
    } else {
        Attempt::Take
    }
}

/// What the body of an answer is.
pub enum Body {
    /// The request failed; holds the message.
    Failed(String),
    /// There is nothing in it.
    Empty,
    /// A document to decode.
    Document,
}

/// `s` cut after `max` characters, with an ellipsis where something was cut.
pub open spec fn shortened(s: Seq<char>, max: int) -> Seq<char> {
    if s.len() > max {
        s.take(max).push('…')
    } else {
        s
    }
}

pub fn truncate(value: &str, max: usize) -> (r: String)
    ensures
        r@ == shortened(value@, max as int),
{
    let v = text::chars_of(value);
    if v.len() > max {
        let mut out = text::string_between(&v, 0, max);
        assert(value@.take(max as int) =~= v@.subrange(0, max as int));
        out.push('…');
        out
    } else {
        text::owned(value)
    }
}

/// Judges an answer by its status and its body.
pub fn body_of(success: bool, status: &str, body: &str) -> (r: Body)
    ensures
        match r {
            Body::Failed(message) => !success && message@ == "LoFi HTTP "@ + status@ + ": "@
                + shortened(body@, 300),
            Body::Empty => success && text::trimmed(body@).len() == 0,
            Body::Document => success && text::trimmed(body@).len() > 0,
        },
{
    if !success {
        let mut message = text::joined("LoFi HTTP ", status);
        text::push_text(&mut message, ": ");
        text::push_text(&mut message, truncate(body, 300).as_str());
        Body::Failed(message)
    } else if text::is_blank(body) {
        Body::Empty
    } else {
        Body::Document
    }
}

/// What an answer holds, where reading its body gives `reading`: the message of a failure, nothing
/// where the body is blank, or else the document.
pub open spec fn checked(
    success: bool,
    status: Seq<char>,
    body: Seq<char>,
    reading: Result<JsonModel, Seq<char>>,
) -> Result<JsonModel, Seq<char>> {
    if !success {
        Err("LoFi HTTP "@ + status + ": "@ + shortened(body, 300))
    } else if text::trimmed(body).len() == 0 {
        Ok(JsonModel::Null)
    } else {
        match reading {
            Ok(v) => Ok(v),
            Err(e) => Err("LoFi returned invalid JSON: "@ + e),
        }
    }
}

/// The model of a document, or of the message why there is none.
pub open spec fn outcome(r: Result<Json, String>) -> Result<JsonModel, Seq<char>> {
    match r {
        Ok(v) => Ok(v@),
        Err(e) => Err(e@),
    }
}

/// What an answer holds, where reading its body gave `reading`.
pub fn checked_with(success: bool, status: &str, body: &str, reading: Result<Json, String>) -> (r:
    Result<Json, String>)
    ensures
        outcome(r) == checked(success, status@, body@, outcome(reading)),
{
    match body_of(success, status, body) {
        Body::Failed(message) => Err(message),
        Body::Empty => Ok(Json::Null),
        Body::Document => match reading {
            Ok(v) => Ok(v),
            Err(e) => Err(text::joined("LoFi returned invalid JSON: ", e.as_str())),
        },
    }
}

/// Reads the answer to a request.
pub fn checked_json(success: bool, status: &str, body: &str) -> (r: Result<Json, String>)
    ensures
        outcome(r) == checked(success, status@, body@, json::document_reading(body@)),
{
    checked_with(success, status, body, json::parse(body))
}

// ---------------------------------------------------------------------------------------------
// What a contact takes from its record
// ---------------------------------------------------------------------------------------------
/// The item says that it is one of the contest, whatever the case of letters.
pub open spec fn of_contest(item: JsonModel) -> bool {
    item.member("type"@) matches Some(JsonModel::Text(kind)) && text::lower(kind) == seq![
        'n',
        'a',
        'q',
        'p',
    ]
}

/// The item at `i` is the first of the record's references that is one of the contest.
pub open spec fn is_first_reference(value: JsonModel, i: int) -> bool {
    &&& value.member("refs"@) matches Some(JsonModel::Array(refs)) && 0 <= i < refs.len()
        && of_contest(refs[i]) && forall|k: int| 0 <= k < i ==> !of_contest(#[trigger] refs[k])
}

/// The reference at `i`.
pub open spec fn reference(value: JsonModel, i: int) -> JsonModel {
    value.member("refs"@)->0->Array_0[i]
}

/// The record has no reference that is one of the contest.
pub open spec fn has_no_reference(value: JsonModel) -> bool {
    match value.member("refs"@) {
        Some(JsonModel::Array(refs)) => forall|k: int|
            0 <= k < refs.len() ==> !of_contest(#[trigger] refs[k]),
        _ => true,
    }
}

proof fn lemma_of_contest(item: JsonModel)
    ensures
        is_contest_ref(item) <==> of_contest(item),
{
    reveal_strlit("naqp");
    assert(text::lower("naqp"@) =~= seq!['n', 'a', 'q', 'p']);
}

proof fn lemma_first_reference(refs: Seq<JsonModel>, i: int)
    ensures
        0 <= i < refs.len() && of_contest(refs[i]) && (forall|k: int|
            0 <= k < i ==> !of_contest(#[trigger] refs[k])) ==> contest_ref(refs) == Some(refs[i]),
        (forall|k: int| 0 <= k < refs.len() ==> !of_contest(#[trigger] refs[k])) ==> contest_ref(
            refs,
        ) is None,
    decreases refs.len(),
{
    if refs.len() > 0 {
        let rest = refs.skip(1);
        assert(forall|k: int| 0 <= k < rest.len() ==> #[trigger] rest[k] == refs[k + 1]);
        lemma_of_contest(refs[0]);
        lemma_first_reference(rest, i - 1);
        if 0 < i < refs.len() && (forall|k: int| 0 <= k < i ==> !of_contest(#[trigger] refs[k])) {
            assert(!of_contest(refs[0]));
            assert(rest[i - 1] == refs[i]);
        }
    }
}

proof fn lemma_reference(value: JsonModel, i: int)
    ensures
        is_first_reference(value, i) ==> contest_ref(json::items_in(value.member("refs"@))) == Some(
            reference(value, i),
        ),
        has_no_reference(value) ==> contest_ref(json::items_in(value.member("refs"@))) is None,
{
    lemma_first_reference(json::items_in(value.member("refs"@)), i);
}

/// The exchange that was copied decides: where the first reference to the contest has a name or a
/// location, that is the name or the location of the contact, whatever else the record says of the
/// station.
pub proof fn law_reference_decides_the_exchange(value: JsonModel, i: int, copied: Seq<char>)
    requires
        record_reading(value) is Ok,
        is_first_reference(value, i),
    ensures
        reference(value, i).member("location"@) == Some(JsonModel::Text(copied)) ==> record_reading(
            value,
        )->Ok_0.location == Some(copied),
        reference(value, i).member("name"@) == Some(JsonModel::Text(copied)) ==> record_reading(
            value,
        )->Ok_0.name == Some(copied),
{
    lemma_reference(value, i);
}

/// The two records are the same but for what they say of the name and the state of the station.
pub open spec fn same_but_for_the_station(a: JsonModel, b: JsonModel) -> bool {
    &&& forall|k: Seq<char>| k != "their"@ ==> #[trigger] a.member(k) == b.member(k)
    &&& forall|k: Seq<char>|
        k != "name"@ && k != "state"@ ==> #[trigger] a.member_of("their"@, k) == b.member_of(
            "their"@,
            k,
        )
}

/// A record whose reference to the contest has a name and a location is read as the same contact
/// whatever it says of the name and the state of the station: only the record that is kept differs.
pub proof fn law_station_does_not_override_the_exchange(
    a: JsonModel,
    b: JsonModel,
    i: int,
    name: Seq<char>,
    location: Seq<char>,
)
    requires
        same_but_for_the_station(a, b),
        is_first_reference(a, i),
        reference(a, i).member("name"@) == Some(JsonModel::Text(name)),
        reference(a, i).member("location"@) == Some(JsonModel::Text(location)),
        record_reading(a) is Ok,
    ensures
        record_reading(b) is Ok,
        record_reading(b)->Ok_0 == (QsoModel { raw: b, ..record_reading(a)->Ok_0 }),
{
    lemma_reference(a, i);
    reveal_strlit("their");
    reveal_strlit("refs");
    reveal_strlit("event");
    reveal_strlit("uuid");
    reveal_strlit("startAtMillis");
    reveal_strlit("endAtMillis");
    reveal_strlit("startAt");
    reveal_strlit("freq");
    reveal_strlit("band");
    reveal_strlit("mode");
    reveal_strlit("deleted");
    reveal_strlit("name");
    reveal_strlit("state");
    reveal_strlit("call");
    reveal_strlit("baseCall");
    reveal_strlit("exchange");
    reveal_strlit("country");
    reveal_strlit("dxccCode");
    assert("their"@.len() == 5 && "refs"@.len() == 4 && "event"@[0] == 'e' && "their"@[0] == 't');
    assert("uuid"@.len() == 4 && "startAtMillis"@.len() == 13 && "endAtMillis"@.len() == 11);
    assert("startAt"@.len() == 7 && "freq"@.len() == 4 && "band"@.len() == 4 && "mode"@.len() == 4);
    assert("deleted"@.len() == 7);
    assert("name"@.len() == 4 && "state"@.len() == 5 && "call"@.len() == 4);
    assert("call"@[0] == 'c' && "name"@[0] == 'n');
    assert("baseCall"@.len() == 8 && "exchange"@.len() == 8 && "country"@.len() == 7
        && "dxccCode"@.len() == 8);
    assert(a.member("refs"@) == b.member("refs"@));
    assert(a.member("event"@) == b.member("event"@));
    assert(a.member("uuid"@) == b.member("uuid"@));
    assert(a.member("startAtMillis"@) == b.member("startAtMillis"@));
    assert(a.member("endAtMillis"@) == b.member("endAtMillis"@));
    assert(a.member("startAt"@) == b.member("startAt"@));
    assert(a.member("freq"@) == b.member("freq"@));
    assert(a.member("band"@) == b.member("band"@));
    assert(a.member("mode"@) == b.member("mode"@));
    assert(a.member("deleted"@) == b.member("deleted"@));
    assert(a.member_of("their"@, "call"@) == b.member_of("their"@, "call"@));
    assert(a.member_of("their"@, "baseCall"@) == b.member_of("their"@, "baseCall"@));
    assert(a.member_of("their"@, "exchange"@) == b.member_of("their"@, "exchange"@));
    assert(a.member_of("their"@, "country"@) == b.member_of("their"@, "country"@));
    assert(a.member_of("their"@, "dxccCode"@) == b.member_of("their"@, "dxccCode"@));
}

/// Without a name or a location in a reference to the contest the ones of the station count, and
/// without those the first and the second word of the exchange as it was sent.
pub proof fn law_exchange_of_the_station(
    value: JsonModel,
    i: int,
    known: Seq<char>,
    sent: Seq<char>,
)
    requires
        record_reading(value) is Ok,
    ensures
        ({
            let q = record_reading(value)->Ok_0;
            let no_place = has_no_reference(value) || (is_first_reference(value, i) && reference(
                value,
                i,
            ).member("location"@) is None);
            let no_name = has_no_reference(value) || (is_first_reference(value, i) && reference(
                value,
                i,
            ).member("name"@) is None);
            let w = text::words(sent);
            &&& no_place && value.member_of("their"@, "state"@) == Some(JsonModel::Text(known))
                ==> q.location == Some(known)
            &&& no_name && value.member_of("their"@, "name"@) == Some(JsonModel::Text(known))
                ==> q.name == Some(known)
            &&& no_place && value.member_of("their"@, "state"@) is None && value.member_of(
                "their"@,
                "exchange"@,
            ) == Some(JsonModel::Text(sent)) ==> q.location == if w.len() > 1 {
                Some(w[1])
            } else {
                None
            }
            &&& no_name && value.member_of("their"@, "name"@) is None && value.member_of(
                "their"@,
                "exchange"@,
            ) == Some(JsonModel::Text(sent)) ==> q.name == if w.len() > 0 {
                Some(w[0])
            } else {
                None
            }
            &&& no_place && value.member_of("their"@, "state"@) is None && value.member_of(
                "their"@,
                "exchange"@,
            ) is None ==> q.location is None
            &&& no_name && value.member_of("their"@, "name"@) is None && value.member_of(
                "their"@,
                "exchange"@,
            ) is None ==> q.name is None
        }),
{
    lemma_reference(value, i);
}

/// The identifier, the callsign, the mode and the country of a contact are those of its record: the
/// callsign in its normal form, and that of the base where there is no other; the mode in capitals.
pub proof fn law_record_is_taken_over(value: JsonModel, t: Seq<char>, n: u64)
    requires
        record_reading(value) is Ok,
    ensures
        ({
            let q = record_reading(value)->Ok_0;
            &&& value.member("uuid"@) == Some(JsonModel::Text(t)) ==> q.id == t
            &&& value.member("uuid"@) == Some(JsonModel::Number(NumberModel::Unsigned(n))) ==> q.id
                == numbers::decimal(n as nat)
            &&& value.member_of("their"@, "call"@) == Some(JsonModel::Text(t)) ==> q.call
                == model::normalized(t)
            &&& value.member_of("their"@, "call"@) is None && value.member_of(
                "their"@,
                "baseCall"@,
            ) == Some(JsonModel::Text(t)) ==> q.call == model::normalized(t)
            &&& value.member("mode"@) == Some(JsonModel::Text(t)) ==> q.mode == text::upper(t)
            &&& value.member("mode"@) is None ==> q.mode.len() == 0
            &&& value.member_of("their"@, "country"@) == Some(JsonModel::Text(t)) ==> q.country
                == Some(t)
            &&& value.member_of("their"@, "country"@) is None ==> q.country is None
            &&& value.member_of("their"@, "dxccCode"@) == Some(
                JsonModel::Number(NumberModel::Unsigned(n)),
            ) && n <= u32::MAX ==> q.dxcc == Some(n as u32)
            &&& value.member_of("their"@, "dxccCode"@) is None ==> q.dxcc is None
            &&& q.deleted <==> value.member("deleted"@) == Some(JsonModel::Bool(true))
            &&& q.contest_id == Some("NAQP-CW"@)
            &&& q.raw == value
        }),
{
}

/// The band of a contact is the one that its record names, whatever its frequency; else that of the
/// frequency. A whole frequency without a unit is in kilohertz from a thousand to a million.
pub proof fn law_band_of_a_record(value: JsonModel, t: Seq<char>, band: Band, khz: u64)
    requires
        record_reading(value) is Ok,
        1_000 < khz <= 1_000_000,
    ensures
        ({
            let q = record_reading(value)->Ok_0;
            &&& value.member("band"@) == Some(JsonModel::Text(t)) && model::band_named(t) == Some(
                band,
            ) ==> q.band == Some(band)
            &&& value.member("band"@) is None ==> match q.frequency {
                Some(f) => q.band == model::band_of(f.picohertz as int),
                None => q.band is None,
            }
            &&& value.member("freq"@) == Some(JsonModel::Number(NumberModel::Unsigned(khz)))
                ==> q.frequency == Some(
                Frequency { picohertz: (khz * 1_000_000_000_000_000) as i128 },
            )
            &&& value.member("freq"@) is None ==> q.frequency is None
            &&& value.member("freq"@) == Some(JsonModel::Text(t)) ==> q.frequency is None
        }),
{
}

/// The instant of a contact is its start in milliseconds; else its end; else the one that its start
/// as text names.
pub proof fn law_instant_of_a_record(value: JsonModel, ms: u64, t: Seq<char>)
    requires
        record_reading(value) is Ok,
        ms < 8_000_000_000_000_000,
    ensures
        ({
            let q = record_reading(value)->Ok_0;
            let at = Instant { second: ms as int / 1000, nanos: ms as int % 1000 * 1_000_000 };
            let number = Some(JsonModel::Number(NumberModel::Unsigned(ms)));
            &&& value.member("startAtMillis"@) == number ==> q.timestamp == at
            &&& value.member("startAtMillis"@) is None && value.member("endAtMillis"@) == number
                ==> q.timestamp == at
            &&& value.member("startAtMillis"@) is None && value.member("endAtMillis"@) is None
                && value.member("startAt"@) == Some(JsonModel::Text(t)) ==> time::rfc3339_instant(t)
                == Some(q.timestamp)
        }),
{
    let ns = ms * 1_000_000;
    assert(ns / 1_000_000_000 == ms as int / 1000);
    assert(ns % 1_000_000_000 == ms as int % 1000 * 1_000_000);
}

/// A record is a contact exactly where it is no event and has an identifier, a callsign and an
/// instant; the first of these that fails is the one that is told of.
pub proof fn law_what_a_record_needs(value: JsonModel)
    ensures
        ({
            let r = record_reading(value);
            let identified = value.member("uuid"@) matches Some(JsonModel::Text(_)) || value.member(
                "uuid"@,
            ) matches Some(JsonModel::Number(NumberModel::Unsigned(_))) || value.member(
                "uuid"@,
            ) matches Some(JsonModel::Number(NumberModel::Negative(_)));
            let called = value.member_of("their"@, "call"@) matches Some(JsonModel::Text(_)) || (
            value.member_of("their"@, "call"@) is None && value.member_of("their"@, "baseCall"@)
                matches Some(JsonModel::Text(_)));
            let event = value.member("event"@) is Some;
            &&& r == Err::<QsoModel, RecordReason>(RecordReason::EventOrNonContact) <==> event
            &&& r == Err::<QsoModel, RecordReason>(RecordReason::MalformedRecord) <==> !event
                && !identified
            &&& r == Err::<QsoModel, RecordReason>(RecordReason::MissingCall) <==> !event
                && identified && !called
            &&& r is Ok ==> identified && called && !event
            &&& !event && identified && called ==> r is Ok || r == Err::<QsoModel, RecordReason>(
                RecordReason::MissingTimestamp,
            )
        }),
{
}

/// Records are read one by one and in order: one that is a contact is one more contact, and one that
/// is none is one more diagnostic with the reason and the identifier of the record.
pub proof fn law_records_are_read_in_order(items: Seq<JsonModel>, value: JsonModel)
    ensures
        record_reading(value) matches Ok(q) ==> contacts_among(items.push(value)) == contacts_among(
            items,
        ).push(q) && diagnostics_among(items.push(value)) == diagnostics_among(items),
        record_reading(value) matches Err(reason) ==> contacts_among(items.push(value))
            == contacts_among(items) && diagnostics_among(items.push(value)).len()
            == diagnostics_among(items).len() + 1 && diagnostics_among(items.push(value)).drop_last()
            == diagnostics_among(items) && diagnostics_among(items.push(value)).last().reason
            == reason,
        contacts_among(Seq::<JsonModel>::empty()).len() == 0,
{
    assert(items.push(value).drop_last() =~= items);
    if record_reading(value) is Err {
        assert(diagnostics_among(items.push(value)).drop_last() =~= diagnostics_among(items));
    }
}

/// There is another page exactly where the answer says that records are left and names an end that
/// is not the one that was read up to; that end is the next one.
pub proof fn law_next_page(response: JsonModel, cursor: Option<i64>, left: i64, until: i64)
    requires
        response.member_of("meta"@, "qsos"@) matches Some(meta) && json::signed_in(
            meta.member("records_left"@),
        ) == Some(left as int) && json::signed_in(meta.member("next_synced_until_millis"@)) == Some(
            until as int,
        ),
    ensures
        left > 0 && cursor != Some(until) ==> next_page(response, cursor) == Some(until),
        left <= 0 ==> next_page(response, cursor) is None,
        cursor == Some(until) ==> next_page(response, cursor) is None,
{
}

/// What is asked for a page: 50 records at first and 200 after that, from the time on up to which was
/// synchronized, up to the end that the page before named.
pub proof fn law_page_question(since: i64, until: i64)
    ensures
        page_question(None, None) == seq![("limit"@, "50"@)],
        page_question(Some(since), None) == seq![
            ("limit"@, "50"@),
            ("syncedSinceMillis"@, numbers::signed_decimal(since as int)),
        ],
        page_question(None, Some(until)) == seq![
            ("limit"@, "200"@),
            ("syncedUntilMillis"@, numbers::signed_decimal(until as int)),
        ],
        page_question(Some(since), Some(until)) == seq![
            ("limit"@, "200"@),
            ("syncedSinceMillis"@, numbers::signed_decimal(since as int)),
            ("syncedUntilMillis"@, numbers::signed_decimal(until as int)),
        ],
{
    assert(page_question(None, None) =~= seq![("limit"@, "50"@)]);
    assert(page_question(Some(since), None) =~= seq![
        ("limit"@, "50"@),
        ("syncedSinceMillis"@, numbers::signed_decimal(since as int)),
    ]);
    assert(page_question(None, Some(until)) =~= seq![
        ("limit"@, "200"@),
        ("syncedUntilMillis"@, numbers::signed_decimal(until as int)),
    ]);
    assert(page_question(Some(since), Some(until)) =~= seq![
        ("limit"@, "200"@),
        ("syncedSinceMillis"@, numbers::signed_decimal(since as int)),
        ("syncedUntilMillis"@, numbers::signed_decimal(until as int)),
    ]);
}

/// An operation is one that was not deleted and has an identifier; it has the title that its user
/// gave it, or else its own, or else a broader one; it is one of the contest where one of its
/// references is; it begins with its first contact, or else when it was made, and ends with its last.
pub proof fn law_what_an_operation_is(value: JsonModel, i: int, t: Seq<char>, ms: u64)
    requires
        ms < 8_000_000_000_000_000,
    ensures
        ({
            let o = operation_of(value);
            let at = Instant { second: ms as int / 1000, nanos: ms as int % 1000 * 1_000_000 };
            let number = Some(JsonModel::Number(NumberModel::Unsigned(ms)));
            &&& value.member("deleted"@) == Some(JsonModel::Bool(true)) ==> o is None
            &&& value.member("uuid"@) is None ==> o is None
            &&& value.member("deleted"@) != Some(JsonModel::Bool(true)) && value.member("uuid"@)
                == Some(JsonModel::Text(t)) ==> o is Some && o->0.id == t
            &&& o is Some && value.member("userTitle"@) == Some(JsonModel::Text(t)) ==> o->0.title
                == t
            &&& o is Some && value.member("userTitle"@) is None && value.member("title"@) == Some(
                JsonModel::Text(t),
            ) ==> o->0.title == t
            &&& o is Some && value.member("userTitle"@) is None && value.member("title"@) is None
                && value.member("broaderTitle"@) == Some(JsonModel::Text(t)) ==> o->0.title == t
            &&& o is Some && is_first_reference(value, i) ==> o->0.is_naqp
            &&& o is Some && has_no_reference(value) ==> !o->0.is_naqp
            &&& o is Some && value.member("startAtMillisMin"@) == number ==> o->0.start == Some(at)
            &&& o is Some && value.member("startAtMillisMin"@) is None && value.member(
                "createdAtMillis"@,
            ) == number ==> o->0.start == Some(at)
            &&& o is Some && value.member("startAtMillisMax"@) == number ==> o->0.end == Some(at)
            &&& o is Some && value.member("startAtMillisMax"@) is None ==> o->0.end is None
        }),
{
    lemma_reference(value, i);
    let ns = ms * 1_000_000;
    assert(ns / 1_000_000_000 == ms as int / 1000);
    assert(ns % 1_000_000_000 == ms as int % 1000 * 1_000_000);
}

/// A body that is too long is cut after as many characters as may be shown, and an ellipsis says so;
/// one that is not is shown whole.
pub proof fn law_long_bodies_are_cut(s: Seq<char>, max: int)
    requires
        0 <= max,
    ensures
        s.len() <= max ==> shortened(s, max) == s,
        s.len() > max ==> shortened(s, max).len() == max + 1 && shortened(s, max).last() == '…'
            && text::starts_with(s, shortened(s, max).drop_last()),
{
    if s.len() > max {
        assert(shortened(s, max).drop_last() =~= s.take(max));
    }
}

/// Operations are listed one by one and in order; what is none is left out.
pub proof fn law_operations_are_listed_in_order(items: Seq<JsonModel>, value: JsonModel)
    ensures
        operation_of(value) matches Some(o) ==> operations_among(items.push(value))
            == operations_among(items).push(o),
        operation_of(value) is None ==> operations_among(items.push(value)) == operations_among(
            items,
        ),
        operations_among(Seq::<JsonModel>::empty()).len() == 0,
{
    assert(items.push(value).drop_last() =~= items);
}

/// A number of milliseconds is the instant that many of them after the beginning of 1970, wherever
/// the calendar has it.
pub proof fn law_milliseconds_are_counted(value: JsonModel, key: Seq<char>)
    ensures
        json::signed_in(value.member(key)) is None ==> instant_at(value, key) is None,
        json::signed_in(value.member(key)) matches Some(ms) ==> {
            &&& instant_at(value, key) is Some <==> time::FIRST_SECOND * 1000 <= ms
                <= time::LAST_SECOND * 1000 + 999
            &&& instant_at(value, key) matches Some(t) ==> t.second * 1000 <= ms < (t.second + 1)
                * 1000 && t.nanos == (ms - t.second * 1000) * 1_000_000
        },
{
}

/// The operations that are asked for are those synchronized since the time that is given, or where
/// none is, those started until now; a hundred at most.
pub proof fn law_question_for_operations(since: i64, now_ms: int)
    ensures
        operations_question(Some(since), now_ms).len() == 2,
        operations_question(Some(since), now_ms)[0] == (
            "syncedSinceMillis"@,
            numbers::signed_decimal(since as int),
        ),
        operations_question(None, now_ms).len() == 2,
        operations_question(None, now_ms)[0] == (
            "startedUntilMillis"@,
            numbers::signed_decimal(now_ms),
        ),
        operations_question(Some(since), now_ms)[1] == ("limit"@, "100"@),
        operations_question(None, now_ms)[1] == ("limit"@, "100"@),
{
}

/// An answer that reports a failure is one whatever its body; a blank body of any other is no
/// document; and else the answer holds the document that its body is, or fails where it is none.
pub proof fn law_answers_are_checked(
    success: bool,
    status: Seq<char>,
    body: Seq<char>,
    reading: Result<JsonModel, Seq<char>>,
)
    ensures
        ({
            let r = checked(success, status, body, reading);
            &&& !success ==> r is Err
            &&& success && text::trimmed(body).len() == 0 ==> r == Ok::<JsonModel, Seq<char>>(
                JsonModel::Null,
            )
            &&& success && text::trimmed(body).len() > 0 ==> (r is Ok <==> reading is Ok)
            &&& success && text::trimmed(body).len() > 0 && reading is Ok ==> r->Ok_0
                == reading->Ok_0
            &&& success && r is Err ==> exists|n: int|
                0 <= n && #[trigger] (r->Err_0).skip(n) == reading->Err_0
        }),
{
    let r = checked(success, status, body, reading);
    if success && r is Err {
        let n = (r->Err_0).len() - (reading->Err_0).len();
        assert((r->Err_0).skip(n) =~= reading->Err_0);
    }
}

} // verus!
