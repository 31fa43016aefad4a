//! Import of ADIF log files.
use vstd::prelude::*;

use crate::bytes;
use crate::frequency;
use crate::frequency::Frequency;
use crate::json::Json;
use crate::json::JsonModel;
use crate::log_source;
use crate::log_source::Log;
use crate::log_source::LogUpdate;
use crate::model;
use crate::model::Band;
use crate::model::Qso;
use crate::model::QsoModel;
use crate::numbers;
use crate::numbers::IntError;
use crate::string_map;
use crate::string_map::Duplicate;
use crate::string_map::StringMap;
use crate::text;
use crate::time;
use crate::time::DateError;
use crate::time::DateFault;
use crate::time::Instant;
use crate::time::Timestamp;

verus! {

// ---------------------------------------------------------------------------------------------
// The grammar
// ---------------------------------------------------------------------------------------------
/// What stands in a file: fields, and the ends of its header and of its records.
pub enum Item {
    EndOfRecord,
    EndOfHeader,
    /// A tag in capitals and its value.
    Field(Seq<char>, Seq<char>),
}

/// Why a file cannot be read.
pub enum AdifFault {
    /// A tag that begins at this byte has no end.
    Unterminated(nat),
    /// A tag is no text; holds the reason.
    NotText(Seq<char>),
    /// The length of a field is no number.
    InvalidLength(IntError),
    /// A field is longer than what is left of the file.
    BeyondInput,
}

/// The item that the tag `header` begins, with its value among the bytes from `at` on, and where
/// what follows it begins. A tag without a length is passed over.
pub open spec fn item_of(bytes: Seq<u8>, header: Seq<char>, at: int) -> Result<
    (Option<Item>, int),
    AdifFault,
> {
    let parts = text::pieces(text::trimmed(header), ':');
    let tag = text::upper(text::trimmed(parts[0]));
    if tag == "EOR"@ {
        Ok((Some(Item::EndOfRecord), at))
    } else if tag == "EOH"@ {
        Ok((Some(Item::EndOfHeader), at))
    } else if parts.len() < 2 {
        Ok((None, at))
    } else {
        match numbers::unsigned_reading(text::trimmed(parts[1]), usize::MAX as nat) {
            Err(e) => Err(AdifFault::InvalidLength(e)),
            Ok(n) => if at + n > bytes.len() {
                Err(AdifFault::BeyondInput)
            } else {
                Ok(
                    (
                        Some(
                            Item::Field(
                                tag,
                                text::trimmed(bytes::text_in(bytes.subrange(at, at + n))),
                            ),
                        ),
                        at + n,
                    ),
                )
            },
        }
    }
}

/// The items from byte `from` on. What is outside tags and values does not matter.
pub open spec fn items_from(bytes: Seq<u8>, from: int) -> Result<Seq<Item>, AdifFault>
    decreases bytes.len() - from,
{
    let start = bytes::position(bytes, 60u8, from);
    if !(0 <= from <= start < bytes.len()) {
        Ok(Seq::empty())
    } else {
        let close = bytes::position(bytes, 62u8, start);
        let header = bytes.subrange(start + 1, close);
        if !(start < close < bytes.len()) {
            Err(AdifFault::Unterminated(start as nat))
        } else if !vstd::utf8::valid_utf8(header) {
            Err(AdifFault::NotText(bytes::utf8_fault(header)))
        } else {
            match item_of(bytes, vstd::utf8::decode_utf8(header), close + 1) {
                Err(e) => Err(e),
                Ok(found) => if !(close < found.1 <= bytes.len()) {
                    Ok(Seq::empty())
                } else {
                    match items_from(bytes, found.1) {
                        Err(e) => Err(e),
                        Ok(rest) => Ok(
                            match found.0 {
                                Some(item) => seq![item] + rest,
                                None => rest,
                            },
                        ),
                    }
                },
            }
        }
    }
}

/// The model of a record: its fields by their tags.
pub type RecordModel = Seq<(Seq<char>, Seq<char>)>;

/// A record that is being read, and those before it.
#[verifier::ext_equal]
pub struct Reading {
    pub records: Seq<RecordModel>,
    pub current: RecordModel,
}

/// The record that is being read is finished, unless it is empty.
pub open spec fn finished(r: Reading) -> Reading {
    if r.current.len() == 0 {
        r
    } else {
        Reading { records: r.records.push(r.current), current: Seq::empty() }
    }
}

/// The records that `items` make up: each ends with its end mark or with the file. What stands
/// before the end of the header belongs to none; of two fields of one tag the later one counts.
pub open spec fn reading(items: Seq<Item>) -> Reading
    decreases items.len(),
{
    if items.len() == 0 {
        Reading { records: Seq::empty(), current: Seq::empty() }
    } else {
        let r = reading(items.drop_last());
        match items.last() {
            Item::EndOfRecord => finished(r),
            Item::EndOfHeader => Reading { records: r.records, current: Seq::empty() },
            Item::Field(tag, value) => Reading {
                records: r.records,
                current: string_map::inserted(r.current, tag, value),
            },
        }
    }
}

/// The records of a file.
pub open spec fn records_of(bytes: Seq<u8>) -> Result<Seq<RecordModel>, AdifFault> {
    match items_from(bytes, 0) {
        Err(e) => Err(e),
        Ok(items) => Ok(finished(reading(items)).records),
    }
}

// ---------------------------------------------------------------------------------------------
// Reading a file
// ---------------------------------------------------------------------------------------------
/// Why a file cannot be read.
#[derive(Debug)]
pub enum AdifError {
    /// A tag that begins at this byte has no end.
    Unterminated(usize),
    /// A tag is no text; holds the reason.
    NotText(String),
    /// The length of a field is no number.
    InvalidLength(IntError),
    /// A field is longer than what is left of the file.
    BeyondInput,
}

impl View for AdifError {
    type V = AdifFault;

    open spec fn view(&self) -> AdifFault {
        match self {
            AdifError::Unterminated(at) => AdifFault::Unterminated(*at as nat),
            AdifError::NotText(e) => AdifFault::NotText(e@),
            AdifError::InvalidLength(e) => AdifFault::InvalidLength(*e),
            AdifError::BeyondInput => AdifFault::BeyondInput,
        }
    }
}

impl AdifFault {
    /// The fault in words.
    pub open spec fn text(self) -> Seq<char> {
        match self {
            AdifFault::Unterminated(at) => "unterminated ADIF field at byte "@ + numbers::decimal(
                at,
            ),
            AdifFault::NotText(e) => e,
            AdifFault::InvalidLength(e) => "invalid ADIF field length: "@ + e.text(),
            AdifFault::BeyondInput => "ADIF field extends beyond the input"@,
        }
    }
}

impl AdifError {
    pub fn message(&self) -> (r: String)
        ensures
            r@ == self@.text(),
    {
        match self {
            AdifError::Unterminated(at) => {
                let mut out = text::owned("unterminated ADIF field at byte ");
                numbers::push_decimal(&mut out, *at as u64);
                out
            },
            AdifError::NotText(e) => e.clone(),
            AdifError::InvalidLength(e) => text::joined(
                "invalid ADIF field length: ",
                e.message().as_str(),
            ),
            AdifError::BeyondInput => text::owned("ADIF field extends beyond the input"),
        }
    }
}

/// A record: its fields by their tags.
pub type Record = StringMap<String>;

/// An item as it was read.
enum Found {
    EndOfRecord,
    EndOfHeader,
    Field(String, String),
    Nothing,
}

impl Found {
    spec fn item(self) -> Option<Item> {
        match self {
            Found::EndOfRecord => Some(Item::EndOfRecord),
            Found::EndOfHeader => Some(Item::EndOfHeader),
            Found::Field(tag, value) => Some(Item::Field(tag@, value@)),
            Found::Nothing => None,
        }
    }
}

fn read_item(bytes: &[u8], header: &str, at: usize) -> (r: Result<(Found, usize), AdifError>)
    requires
        at <= bytes@.len(),
    ensures
        match r {
            Ok(found) => item_of(bytes@, header@, at as int) == Ok::<(Option<Item>, int), AdifFault>(
                (found.0.item(), found.1 as int),
            ) && at <= found.1 <= bytes@.len(),
            Err(e) => item_of(bytes@, header@, at as int) == Err::<(Option<Item>, int), AdifFault>(
                e@,
            ),
        },
{
    let parts = text::split_at_each(text::trim(header).as_str(), ':');
    let ghost models = text::pieces(text::trimmed(header@), ':');
    assert(models[0] == parts@[0]@ && models.len() == parts@.len());
    let tag = text::trim_upper(parts[0].as_str());
    if text::same(tag.as_str(), "EOR") {
        return Ok((Found::EndOfRecord, at));
    }
    if text::same(tag.as_str(), "EOH") {
        return Ok((Found::EndOfHeader, at));
    }
    if parts.len() < 2 {
        return Ok((Found::Nothing, at));
    }
    assert(models[1] == parts@[1]@);
    match numbers::read_unsigned(text::trim(parts[1].as_str()).as_str(), usize::MAX as u64) {
        Err(e) => Err(AdifError::InvalidLength(e)),
        Ok(n) => {
            let length: usize = n as usize;
            if length > bytes.len() - at {
                return Err(AdifError::BeyondInput);
            }
            let end: usize = at + length;
            let value = text::trim(bytes::decode_lossy(&bytes::between(bytes, at, end)).as_str());
            Ok((Found::Field(tag, value), end))
        },
    }
}

fn read_items(bytes: &[u8]) -> (r: Result<Vec<Found>, AdifError>)
    ensures
        match r {
            Ok(found) => items_from(bytes@, 0) == Ok::<Seq<Item>, AdifFault>(present(found@)),
            Err(e) => items_from(bytes@, 0) == Err::<Seq<Item>, AdifFault>(e@),
        },
{
    let mut out: Vec<Found> = Vec::new();
    let mut cursor: usize = 0;
    assert(present(out@) =~= Seq::empty());
    proof {
        lemma_led_by_nothing(items_from(bytes@, 0));
    }
    loop
        invariant
            cursor <= bytes@.len(),
            items_from(bytes@, 0) == led_by(present(out@), items_from(bytes@, cursor as int)),
        decreases bytes@.len() - cursor,
    {
        proof {
            bytes::lemma_position(bytes@, 60u8, cursor as int);
        }
        let start = bytes::find(bytes, 60, cursor);
        if start == bytes.len() {
            assert(present(out@) + Seq::empty() =~= present(out@));
            return Ok(out);
        }
        proof {
            bytes::lemma_position(bytes@, 62u8, start as int);
        }
        let close = bytes::find(bytes, 62, start);
        if close == bytes.len() {
            return Err(AdifError::Unterminated(start));
        }
        let header = match bytes::decode(&bytes::between(bytes, start + 1, close)) {
            Ok(s) => s,
            Err(e) => return Err(AdifError::NotText(e)),
        };
        let (found, next) = match read_item(bytes, header.as_str(), close + 1) {
            Ok(f) => f,
            Err(e) => return Err(e),
        };
        let ghost before = out@;
        let ghost item = found.item();
        let ghost rest = items_from(bytes@, next as int);
        out.push(found);
        assert(out@.drop_last() =~= before);
        proof {
            if let Ok(tail) = rest {
                if let Some(it) = item {
                    assert(present(before) + (seq![it] + tail) =~= present(out@) + tail);
                }
            }
        }
        cursor = next;
    }
}

/// The items among what was found.
spec fn present(found: Seq<Found>) -> Seq<Item>
    decreases found.len(),
{
    if found.len() == 0 {
        Seq::empty()
    } else {
        match found.last().item() {
            Some(item) => present(found.drop_last()).push(item),
            None => present(found.drop_last()),
        }
    }
}

/// `rest` with `front` before it, where there is no error.
spec fn led_by(front: Seq<Item>, rest: Result<Seq<Item>, AdifFault>) -> Result<
    Seq<Item>,
    AdifFault,
> {
    match rest {
        Ok(items) => Ok(front + items),
        Err(e) => Err(e),
    }
}

proof fn lemma_led_by_nothing(rest: Result<Seq<Item>, AdifFault>)
    ensures
        led_by(Seq::empty(), rest) == rest,
{
    if let Ok(items) = rest {
        assert(Seq::<Item>::empty() + items =~= items);
    }
}

/// Reads the records of a file.
pub fn parse_records(bytes: &[u8]) -> (r: Result<Vec<Record>, AdifError>)
    ensures
        match r {
            Ok(records) => records_of(bytes@) == Ok::<Seq<RecordModel>, AdifFault>(
                string_map::views(records@),
            ),
            Err(e) => records_of(bytes@) == Err::<Seq<RecordModel>, AdifFault>(e@),
        },
{
    let found = match read_items(bytes) {
        Ok(f) => f,
        Err(e) => return Err(e),
    };
    let mut records: Vec<Record> = Vec::new();
    let mut current: Record = StringMap::new();
    let mut i: usize = 0;
    assert(string_map::views(records@) =~= Seq::empty());
    while i < found.len()
        invariant
            i <= found@.len(),
            reading(present(found@.take(i as int))) == (Reading {
                records: string_map::views(records@),
                current: current@,
            }),
        decreases found.len() - i,
    {
        let ghost shorter = present(found@.take(i as int));
        let ghost longer = present(found@.take(i + 1));
        proof {
            assert(found@.take(i + 1).drop_last() =~= found@.take(i as int));
            assert(found@.take(i + 1).last() == found@[i as int]);
            if let Some(item) = found@[i as int].item() {
                assert(longer.drop_last() =~= shorter);
                assert(longer.last() == item);
            }
        }
        match &found[i] {
            Found::EndOfRecord => {
                if current.len() > 0 {
                    let ghost before = string_map::views(records@);
                    let ghost added = current@;
                    records.push(current);
                    assert(string_map::views(records@) =~= before.push(added));
                    current = StringMap::new();
                }
            },
            Found::EndOfHeader => {
                current = StringMap::new();
            },
            Found::Field(tag, value) => {
                current.insert(tag.clone(), value.clone());
            },
            Found::Nothing => {},
        }
        i = i + 1;
    }
    assert(found@.take(found@.len() as int) =~= found@);
    if current.len() > 0 {
        let ghost before = string_map::views(records@);
        let ghost added = current@;
        records.push(current);
        assert(string_map::views(records@) =~= before.push(added));
    }
    Ok(records)
}

// ---------------------------------------------------------------------------------------------
// Records as contacts
// ---------------------------------------------------------------------------------------------
/// Why a record is no contact.
pub enum RecordFault {
    /// The field of this tag is missing or blank.
    Missing(Seq<char>),
    /// The date and time name no instant.
    Time(DateFault),
}

impl RecordFault {
    /// The fault in words.
    pub open spec fn text(self) -> Seq<char> {
        match self {
            RecordFault::Missing(tag) => "missing "@ + tag,
            RecordFault::Time(DateFault::Date(e)) => "invalid QSO_DATE: "@ + e,
            RecordFault::Time(DateFault::ClockLength) => "TIME_ON must contain HHMM or HHMMSS"@,
            RecordFault::Time(DateFault::Clock(e)) => "invalid TIME_ON: "@ + e,
        }
    }
}

/// The value of `tag`, where it is there and not blank.
pub open spec fn required_field(record: RecordModel, tag: Seq<char>) -> Option<Seq<char>> {
    match string_map::lookup(record, tag) {
        Some(value) => if text::trimmed(value).len() > 0 {
            Some(value)
        } else {
            None
        },
        None => None,
    }
}

/// The first word of an exchange is the name, the second the location.
pub open spec fn exchange_word(exchange: Option<Seq<char>>, i: int) -> Option<Seq<char>> {
    match exchange {
        Some(e) => text::word_at(e, i),
        None => None,
    }
}

/// The frequency field, in megahertz.
pub open spec fn record_frequency(record: RecordModel) -> Option<Frequency> {
    match string_map::lookup(record, "FREQ"@) {
        Some(value) => match frequency::megahertz_reading(value) {
            Some(picohertz) => Some(Frequency { picohertz: picohertz as i128 }),
            None => None,
        },
        None => None,
    }
}

/// The band field, or else the band of the frequency.
pub open spec fn record_band(record: RecordModel) -> Option<Band> {
    let named = match string_map::lookup(record, "BAND"@) {
        Some(value) => model::band_named(value),
        None => None,
    };
    match (named, record_frequency(record)) {
        (Some(band), _) => Some(band),
        (None, Some(f)) => model::band_of(f.picohertz as int),
        (None, None) => None,
    }
}

pub open spec fn record_mode(record: RecordModel) -> Seq<char> {
    text::upper(
        match string_map::lookup(record, "MODE"@) {
            Some(mode) => mode,
            None => "CW"@,
        },
    )
}

/// What identifies a contact of a file: callsign, time in milliseconds, band in meters and mode.
pub open spec fn identity(call: Seq<char>, ms: int, band: Option<Band>, mode: Seq<char>) -> Seq<u8> {
    let meters = match band {
        Some(b) => b.wavelength() as nat,
        None => 0,
    };
    vstd::utf8::encode_utf8(call) + bytes::signed_bytes(ms) + bytes::little_endian(meters, 2)
        + vstd::utf8::encode_utf8(mode)
}

/// The record as a JSON object.
pub open spec fn raw_record(record: RecordModel) -> JsonModel {
    JsonModel::Object(
        Seq::new(record.len(), |i: int| (record[i].0, JsonModel::Text(record[i].1))),
    )
}

/// The number of a country.
pub open spec fn record_dxcc(record: RecordModel) -> Option<u32> {
    match string_map::lookup(record, "DXCC"@) {
        Some(value) => match numbers::unsigned_reading(value, u32::MAX as nat) {
            Ok(n) => Some(n as u32),
            Err(_) => None,
        },
        None => None,
    }
}

/// The contact of a record with `call` at the instant `at`, identified by `digest`.
pub open spec fn contact_with(
    record: RecordModel,
    call: Seq<char>,
    at: Instant,
    digest: Seq<char>,
) -> QsoModel {
    let exchange = string_map::lookup(record, "SRX_STRING"@);
    QsoModel {
        id: "adif:"@ + digest,
        call,
        timestamp: at,
        band: record_band(record),
        frequency: record_frequency(record),
        mode: record_mode(record),
        name: match string_map::lookup(record, "NAME"@) {
            Some(name) => Some(name),
            None => exchange_word(exchange, 0),
        },
        location: match required_field(record, "STATE"@) {
            Some(state) => Some(state),
            None => exchange_word(exchange, 1),
        },
        country: string_map::lookup(record, "COUNTRY"@),
        dxcc: record_dxcc(record),
        contest_id: string_map::lookup(record, "CONTEST_ID"@),
        deleted: false,
        raw: raw_record(record),
    }
}

/// The contact of a record with `call` at the instant `at`: the digest of what identifies it is its
/// identifier.
pub open spec fn contact(record: RecordModel, call: Seq<char>, at: Instant) -> QsoModel {
    contact_with(
        record,
        call,
        at,
        bytes::sha256_text(
            identity(call, time::since_1970(at) / 1_000_000, record_band(record), record_mode(record)),
        ),
    )
}

/// The contact of a record: it needs a callsign, a date and a time.
pub open spec fn contact_of(record: RecordModel) -> Result<QsoModel, RecordFault> {
    match required_field(record, "CALL"@) {
        None => Err(RecordFault::Missing("CALL"@)),
        Some(call) => match required_field(record, "QSO_DATE"@) {
            None => Err(RecordFault::Missing("QSO_DATE"@)),
            Some(date) => match required_field(record, "TIME_ON"@) {
                None => Err(RecordFault::Missing("TIME_ON"@)),
                Some(clock) => match time::adif_instant(date, clock) {
                    Err(e) => Err(RecordFault::Time(e)),
                    Ok(at) => Ok(contact(record, model::normalized(call), at)),
                },
            },
        },
    }
}

/// Why a record is no contact.
#[derive(Debug)]
pub enum RecordError {
    /// The field of this tag is missing or blank.
    Missing(&'static str),
    /// The date and time name no instant.
    Time(DateError),
}

impl View for RecordError {
    type V = RecordFault;

    open spec fn view(&self) -> RecordFault {
        match self {
            RecordError::Missing(tag) => RecordFault::Missing(tag@),
            RecordError::Time(e) => RecordFault::Time(e@),
        }
    }
}

impl RecordError {
    pub fn message(&self) -> (r: String)
        ensures
            r@ == self@.text(),
    {
        match self {
            RecordError::Missing(tag) => text::joined("missing ", tag),
            RecordError::Time(DateError::Date(e)) => text::joined(
                "invalid QSO_DATE: ",
                e.as_str(),
            ),
            RecordError::Time(DateError::ClockLength) => text::owned(
                "TIME_ON must contain HHMM or HHMMSS",
            ),
            RecordError::Time(DateError::Clock(e)) => text::joined(
                "invalid TIME_ON: ",
                e.as_str(),
            ),
        }
    }
}

fn field(record: &Record, tag: &str) -> (r: Option<String>)
    ensures
        text::opt_text(r) == string_map::lookup(record@, tag@),
{
    match record.get(tag) {
        Some(value) => Some(value.clone()),
        None => None,
    }
}

fn required(record: &Record, tag: &str) -> (r: Option<String>)
    ensures
        text::opt_text(r) == required_field(record@, tag@),
{
    match record.get(tag) {
        Some(value) => if text::is_blank(value.as_str()) {
            None
        } else {
            Some(value.clone())
        },
        None => None,
    }
}

/// The word at position `i` of `s`.
pub fn nth_word(s: &Option<String>, i: usize) -> (r: Option<String>)
    ensures
        text::opt_text(r) == exchange_word(text::opt_text(*s), i as int),
{
    match s {
        Some(e) => {
            let words = text::split_words(e.as_str());
            let ghost models = text::words(e@);
            assert(models.len() == words@.len());
            if i < words.len() {
                assert(models[i as int] == words@[i as int]@);
                Some(words[i].clone())
            } else {
                None
            }
        },
        None => None,
    }
}

/// What identifies a contact of a file, in bytes.
pub fn identity_bytes(call: &str, timestamp: Timestamp, band: Option<Band>, mode: &str) -> (r: Vec<
    u8,
>)
    ensures
        r@ == identity(call@, timestamp.ms(), band, mode@),
{
    let mut preimage: Vec<u8> = Vec::new();
    bytes::push_encoded(&mut preimage, call);
    bytes::push_signed(&mut preimage, timestamp.millis());
    bytes::push_short(
        &mut preimage,
        match band {
            Some(b) => b.meters(),
            None => 0,
        },
    );
    bytes::push_encoded(&mut preimage, mode);
    assert(preimage@ =~= identity(call@, timestamp.ms(), band, mode@));
    preimage
}

fn to_json(record: &Record) -> (r: Json)
    ensures
        r@ == raw_record(record@),
{
    let mut members: Vec<(String, Json)> = Vec::new();
    let mut i: usize = 0;
    while i < record.len()
        invariant
            i <= record@.len(),
            members@.len() == i,
            forall|j: int|
                0 <= j < i ==> (#[trigger] members@[j]).0@ == record@[j].0 && members@[j].1@
                    == JsonModel::Text(record@[j].1),
        decreases record@.len() - i,
    {
        members.push((record.key(i).clone(), Json::Text(record.value(i).clone())));
        i = i + 1;
    }
    let r = Json::Object(members);
    assert(r@->Object_0 =~= raw_record(record@)->Object_0);
    r
}

fn read_frequency(record: &Record) -> (r: Option<Frequency>)
    ensures
        r == record_frequency(record@),
{
    match record.get("FREQ") {
        Some(value) => frequency::read_megahertz(value.as_str()),
        None => None,
    }
}

fn read_band(record: &Record) -> (r: Option<Band>)
    ensures
        r == record_band(record@),
{
    let named = match record.get("BAND") {
        Some(value) => Band::parse(value.as_str()),
        None => None,
    };
    match (named, read_frequency(record)) {
        (Some(b), _) => Some(b),
        (None, Some(f)) => Band::from_frequency_khz(f),
        (None, None) => None,
    }
}

fn read_mode(record: &Record) -> (r: String)
    ensures
        r@ == record_mode(record@),
{
    match record.get("MODE") {
        Some(value) => text::to_upper(value.as_str()),
        None => text::to_upper("CW"),
    }
}

/// Makes the contact of a record with `call` at `timestamp`, identified by `digest`.
pub fn make_contact(record: &Record, call: String, timestamp: Timestamp, digest: &str) -> (r: Qso)
    ensures
        r@ == contact_with(record@, call@, timestamp@, digest@),
{
    let exchange = field(record, "SRX_STRING");
    let name = match field(record, "NAME") {
        Some(value) => Some(value),
        None => nth_word(&exchange, 0),
    };
    let location = match required(record, "STATE") {
        Some(value) => Some(value),
        None => nth_word(&exchange, 1),
    };
    let dxcc = match record.get("DXCC") {
        Some(value) => match numbers::read_unsigned(value.as_str(), u32::MAX as u64) {
            Ok(n) => Some(n as u32),
            Err(_) => None,
        },
        None => None,
    };
    let qso = Qso {
        id: text::joined("adif:", digest),
        call,
        timestamp,
        band: read_band(record),
        frequency_khz: read_frequency(record),
        mode: read_mode(record),
        name,
        location,
        country: field(record, "COUNTRY"),
        dxcc,
        contest_id: field(record, "CONTEST_ID"),
        deleted: false,
        raw: to_json(record),
    };
    assert(qso@ =~= contact_with(record@, call@, timestamp@, digest@));
    qso
}

/// Makes a contact of a record.
pub fn record_to_qso(record: &Record) -> (r: Result<Qso, RecordError>)
    ensures
        match r {
            Ok(qso) => contact_of(record@) == Ok::<QsoModel, RecordFault>(qso@),
            Err(e) => contact_of(record@) == Err::<QsoModel, RecordFault>(e@),
        },
{
    let call = match required(record, "CALL") {
        Some(value) => model::normalize_call(value.as_str()),
        None => return Err(RecordError::Missing("CALL")),
    };
    let date = match required(record, "QSO_DATE") {
        Some(value) => value,
        None => return Err(RecordError::Missing("QSO_DATE")),
    };
    let clock = match required(record, "TIME_ON") {
        Some(value) => value,
        None => return Err(RecordError::Missing("TIME_ON")),
    };
    let timestamp = match time::parse_timestamp(date.as_str(), clock.as_str()) {
        Ok(t) => t,
        Err(e) => return Err(RecordError::Time(e)),
    };
    let mode = read_mode(record);
    let identity = identity_bytes(call.as_str(), timestamp, read_band(record), mode.as_str());
    let digest = bytes::sha256_hex(&identity);
    Ok(make_contact(record, call, timestamp, digest.as_str()))
}

// ---------------------------------------------------------------------------------------------
// Importing a file
// ---------------------------------------------------------------------------------------------
/// What an import did.
#[derive(Debug)]
pub struct ImportDiagnostics {
    pub records_seen: usize,
    pub added: usize,
    pub updated: usize,
    pub unchanged: usize,
    pub skipped: usize,
    pub warnings: Vec<String>,
}

/// The model of import diagnostics.
#[verifier::ext_equal]
pub struct ImportModel {
    pub records_seen: nat,
    pub added: nat,
    pub updated: nat,
    pub unchanged: nat,
    pub skipped: nat,
    pub warnings: Seq<Seq<char>>,
}

impl View for ImportDiagnostics {
    type V = ImportModel;

    open spec fn view(&self) -> ImportModel {
        ImportModel {
            records_seen: self.records_seen as nat,
            added: self.added as nat,
            updated: self.updated as nat,
            unchanged: self.unchanged as nat,
            skipped: self.skipped as nat,
            warnings: text::texts(self.warnings@),
        }
    }
}

/// The diagnostics where nothing was imported.
pub open spec fn no_import() -> ImportModel {
    ImportModel {
        records_seen: 0,
        added: 0,
        updated: 0,
        unchanged: 0,
        skipped: 0,
        warnings: Seq::empty(),
    }
}

impl Default for ImportDiagnostics {
    fn default() -> (r: Self)
        ensures
            r@ == no_import(),
    {
        let r = ImportDiagnostics {
            records_seen: 0,
            added: 0,
            updated: 0,
            unchanged: 0,
            skipped: 0,
            warnings: Vec::new(),
        };
        assert(r@ =~= no_import());
        r
    }
}

impl Duplicate for ImportDiagnostics {
    fn duplicate(&self) -> (r: Self) {
        ImportDiagnostics {
            records_seen: self.records_seen,
            added: self.added,
            updated: self.updated,
            unchanged: self.unchanged,
            skipped: self.skipped,
            warnings: text::copy_texts(&self.warnings),
        }
    }
}

/// At most this many warnings are kept.
pub const MOST_WARNINGS: usize = 20;

/// What each of `records` was read as.
pub open spec fn readings_of(records: Seq<RecordModel>) -> Seq<Result<QsoModel, RecordFault>> {
    Seq::new(records.len(), |i: int| contact_of(records[i]))
}

/// The contacts among `readings`, in order.
pub open spec fn contacts_in(readings: Seq<Result<QsoModel, RecordFault>>) -> Seq<QsoModel>
    decreases readings.len(),
{
    if readings.len() == 0 {
        Seq::empty()
    } else {
        match readings.last() {
            Ok(q) => contacts_in(readings.drop_last()).push(q),
            Err(_) => contacts_in(readings.drop_last()),
        }
    }
}

/// The warnings about the `readings` that are no contacts; each names its record by its number.
pub open spec fn warnings_in(readings: Seq<Result<QsoModel, RecordFault>>) -> Seq<Seq<char>>
    decreases readings.len(),
{
    if readings.len() == 0 {
        Seq::empty()
    } else {
        let before = warnings_in(readings.drop_last());
        match readings.last() {
            Ok(_) => before,
            Err(e) => if before.len() < MOST_WARNINGS {
                before.push("Record "@ + numbers::decimal(readings.len()) + ": "@ + e.text())
            } else {
                before
            },
        }
    }
}

/// The contacts among `records`, in order.
pub open spec fn contacts_of(records: Seq<RecordModel>) -> Seq<QsoModel> {
    contacts_in(readings_of(records))
}

/// The contacts of a file.
pub open spec fn file_contacts(bytes: Seq<u8>) -> Seq<QsoModel> {
    match records_of(bytes) {
        Ok(records) => contacts_of(records),
        Err(_) => Seq::empty(),
    }
}

/// The log after the import of a file; one that cannot be read changes nothing.
pub open spec fn imported_log(log: Seq<(Seq<char>, QsoModel)>, bytes: Seq<u8>) -> Seq<
    (Seq<char>, QsoModel),
> {
    match records_of(bytes) {
        Ok(records) => log_source::merged(log, contacts_of(records)),
        Err(_) => log,
    }
}

/// What the import of `readings` into `log` reports.
pub open spec fn readings_report(
    log: Seq<(Seq<char>, QsoModel)>,
    readings: Seq<Result<QsoModel, RecordFault>>,
) -> ImportModel {
    let contacts = contacts_in(readings);
    ImportModel {
        records_seen: readings.len(),
        added: log_source::count(log, contacts, log_source::Novelty::Added),
        updated: log_source::count(log, contacts, log_source::Novelty::Updated),
        unchanged: log_source::count(log, contacts, log_source::Novelty::Unchanged),
        skipped: (readings.len() - contacts.len()) as nat,
        warnings: warnings_in(readings),
    }
}

/// What the import of `records` into `log` reports.
pub open spec fn import_report(
    log: Seq<(Seq<char>, QsoModel)>,
    records: Seq<RecordModel>,
) -> ImportModel {
    readings_report(log, readings_of(records))
}

/// The model of what a record was read as.
pub open spec fn reading_model(r: Result<Qso, RecordError>) -> Result<QsoModel, RecordFault> {
    match r {
        Ok(q) => Ok(q@),
        Err(e) => Err(e@),
    }
}

pub open spec fn reading_models(v: Seq<Result<Qso, RecordError>>) -> Seq<
    Result<QsoModel, RecordFault>,
> {
    Seq::new(v.len(), |i: int| reading_model(v[i]))
}

/// Imports records that were read into the log.
pub fn import_readings(readings: &Vec<Result<Qso, RecordError>>, existing: &mut Log) -> (r:
    ImportDiagnostics)
    ensures
        final(existing)@ == log_source::merged(
            old(existing)@,
            contacts_in(reading_models(readings@)),
        ),
        r@ == readings_report(old(existing)@, reading_models(readings@)),
{
    let ghost all = reading_models(readings@);
    let ghost log = existing@;
    let mut qsos: Vec<Qso> = Vec::new();
    let mut skipped: usize = 0;
    let mut warnings: Vec<String> = Vec::new();
    let mut i: usize = 0;
    assert(string_map::views(qsos@) =~= contacts_in(all.take(0)));
    assert(text::texts(warnings@) =~= warnings_in(all.take(0)));
    while i < readings.len()
        invariant
            i <= readings@.len(),
            all == reading_models(readings@),
            string_map::views(qsos@) == contacts_in(all.take(i as int)),
            qsos@.len() + skipped == i,
            text::texts(warnings@) == warnings_in(all.take(i as int)),
        decreases readings.len() - i,
    {
        let ghost part = all.take(i + 1);
        assert(part.drop_last() =~= all.take(i as int));
        assert(part.last() == reading_model(readings@[i as int]));
        let ghost qsos_before = string_map::views(qsos@);
        let ghost warnings_before = text::texts(warnings@);
        match &readings[i] {
            Ok(qso) => {
                qsos.push(qso.duplicate());
                assert(string_map::views(qsos@) =~= qsos_before.push(qso@));
            },
            Err(e) => {
                skipped = skipped + 1;
                if warnings.len() < MOST_WARNINGS {
                    let mut warning = text::owned("Record ");
                    numbers::push_decimal(&mut warning, i as u64 + 1);
                    text::push_text(&mut warning, ": ");
                    text::push_text(&mut warning, e.message().as_str());
                    let ghost w = warning@;
                    warnings.push(warning);
                    assert(text::texts(warnings@) =~= warnings_before.push(w));
                }
            },
        }
        i = i + 1;
    }
    assert(all.take(all.len() as int) =~= all);
    let summary = LogUpdate::adif(qsos).apply(existing);
    let r = ImportDiagnostics {
        records_seen: readings.len(),
        added: summary.added,
        updated: summary.updated,
        unchanged: summary.unchanged,
        skipped,
        warnings,
    };
    assert(string_map::views(qsos@).len() == qsos@.len());
    assert(r@ =~= readings_report(log, all));
    r
}

/// Imports a file into the log.
pub fn import_snapshot(bytes: &[u8], existing: &mut Log) -> (r: Result<
    ImportDiagnostics,
    AdifError,
>)
    ensures
        final(existing)@ == imported_log(old(existing)@, bytes@),
        match r {
            Ok(diagnostics) => records_of(bytes@) matches Ok(records) && diagnostics@
                == import_report(old(existing)@, records),
            Err(e) => records_of(bytes@) == Err::<Seq<RecordModel>, AdifFault>(e@),
        },
{
    let records = match parse_records(bytes) {
        Ok(records) => records,
        Err(e) => return Err(e),
    };
    let ghost all = string_map::views(records@);
    let mut readings: Vec<Result<Qso, RecordError>> = Vec::new();
    let mut i: usize = 0;
    while i < records.len()
        invariant
            i <= records@.len(),
            all == string_map::views(records@),
            readings@.len() == i,
            forall|j: int|
                0 <= j < i ==> reading_model(#[trigger] readings@[j]) == contact_of(all[j]),
        decreases records.len() - i,
    {
        assert(all[i as int] == records@[i as int]@);
        readings.push(record_to_qso(&records[i]));
        i = i + 1;
    }
    assert(reading_models(readings@) =~= readings_of(all));
    Ok(import_readings(&readings, existing))
}

// ---------------------------------------------------------------------------------------------
// Laws of the import
// ---------------------------------------------------------------------------------------------
/// Importing a file a second time leaves the log as the first import left it.
pub proof fn law_import_is_idempotent(log: Seq<(Seq<char>, QsoModel)>, bytes: Seq<u8>)
    requires
        string_map::ordered(log),
    ensures
        imported_log(imported_log(log, bytes), bytes) == imported_log(log, bytes),
{
    if let Ok(records) = records_of(bytes) {
        log_source::law_update_is_idempotent(log, contacts_of(records), false);
    }
}

/// A file that cannot be read leaves the log as it was.
pub proof fn law_failed_import_changes_nothing(log: Seq<(Seq<char>, QsoModel)>, bytes: Seq<u8>)
    requires
        records_of(bytes) is Err,
    ensures
        imported_log(log, bytes) == log,
{
}

/// Importing a file whose contacts are those of a file before it and more gives the log that
/// importing it alone gives.
pub proof fn law_growing_contacts(
    log: Seq<(Seq<char>, QsoModel)>,
    bytes: Seq<u8>,
    grown: Seq<u8>,
    more: Seq<QsoModel>,
)
    requires
        string_map::ordered(log),
        records_of(bytes) is Ok,
        records_of(grown) is Ok,
        file_contacts(grown) == file_contacts(bytes) + more,
    ensures
        imported_log(imported_log(log, bytes), grown) == imported_log(log, grown),
{
    log_source::law_growing_update(log, file_contacts(bytes), more);
}

/// The file ends behind a record or its header: no record is left open.
pub open spec fn closes(bytes: Seq<u8>) -> bool {
    items_from(bytes, 0) matches Ok(items) && reading(items).current.len() == 0
}

/// Importing an export to which records were added adds those records alone: the grown file holds
/// the records of the file and then those that were added, and importing it after the file, or
/// what was added after the file, gives the log that importing it alone gives.
pub proof fn law_growing_export(log: Seq<(Seq<char>, QsoModel)>, bytes: Seq<u8>, more: Seq<u8>)
    requires
        string_map::ordered(log),
        closes(bytes),
        records_of(more) is Ok,
    ensures
        records_of(bytes + more) == Ok::<Seq<RecordModel>, AdifFault>(
            records_of(bytes)->Ok_0 + records_of(more)->Ok_0,
        ),
        imported_log(imported_log(log, bytes), bytes + more) == imported_log(log, bytes + more),
        imported_log(imported_log(log, bytes), more) == imported_log(log, bytes + more),
{
    lemma_items_append(bytes, more, 0);
    let first = items_from(bytes, 0)->Ok_0;
    let second = items_from(more, 0)->Ok_0;
    lemma_reading_append(first, second);
    let a = records_of(bytes)->Ok_0;
    let b = records_of(more)->Ok_0;
    assert(finished(reading(first + second)).records =~= a + b);
    assert(readings_of(a + b) =~= readings_of(a) + readings_of(b));
    lemma_contacts_append(readings_of(a), readings_of(b));
    law_growing_contacts(log, bytes, bytes + more, contacts_of(b));
    log_source::lemma_merged_append(log, contacts_of(a), contacts_of(b));
}

proof fn lemma_contacts_append(
    a: Seq<Result<QsoModel, RecordFault>>,
    b: Seq<Result<QsoModel, RecordFault>>,
)
    ensures
        contacts_in(a + b) == contacts_in(a) + contacts_in(b),
    decreases b.len(),
{
    if b.len() == 0 {
        assert(a + b =~= a);
        assert(contacts_in(a) + contacts_in(b) =~= contacts_in(a));
    } else {
        assert((a + b).drop_last() =~= a + b.drop_last());
        lemma_contacts_append(a, b.drop_last());
        assert(contacts_in(a + b) =~= contacts_in(a) + contacts_in(b));
    }
}

proof fn lemma_reading_append(a: Seq<Item>, b: Seq<Item>)
    requires
        reading(a).current.len() == 0,
    ensures
        reading(a + b).records == reading(a).records + reading(b).records,
        reading(a + b).current == reading(b).current,
    decreases b.len(),
{
    if b.len() == 0 {
        assert(a + b =~= a);
        assert(reading(a).records + reading(b).records =~= reading(a).records);
        assert(reading(a).current =~= reading(b).current);
    } else {
        assert((a + b).drop_last() =~= a + b.drop_last());
        lemma_reading_append(a, b.drop_last());
        assert(reading(a + b).records =~= reading(a).records + reading(b).records);
    }
}

/// Where nothing is left open, the items of two files behind each other are those of the first and
/// then those of the second.
proof fn lemma_items_append(a: Seq<u8>, b: Seq<u8>, from: int)
    requires
        0 <= from <= a.len(),
        items_from(a, from) is Ok,
        items_from(b, 0) is Ok,
    ensures
        items_from(a + b, from) == Ok::<Seq<Item>, AdifFault>(
            items_from(a, from)->Ok_0 + items_from(b, 0)->Ok_0,
        ),
    decreases a.len() - from,
{
    let all = a + b;
    let start = bytes::position(a, 60u8, from);
    bytes::lemma_position(a, 60u8, from);
    bytes::lemma_position_appended(a, b, 60u8, from);
    if start == a.len() {
        lemma_items_shift(a, b, 0);
        let behind = bytes::position(all, 60u8, a.len() as int);
        bytes::lemma_position(all, 60u8, a.len() as int);
        assert(bytes::position(all, 60u8, from) == behind);
        assert(items_from(all, from) == items_from(all, a.len() as int));
        assert(items_from(a, from)->Ok_0 + items_from(b, 0)->Ok_0 =~= items_from(b, 0)->Ok_0);
    } else {
        let close = bytes::position(a, 62u8, start);
        bytes::lemma_position(a, 62u8, start);
        bytes::lemma_position_appended(a, b, 62u8, start);
        assert(all.subrange(start + 1, close) =~= a.subrange(start + 1, close));
        let header = vstd::utf8::decode_utf8(a.subrange(start + 1, close));
        let found = item_of(a, header, close + 1)->Ok_0;
        assert(close < found.1 <= a.len());
        assert(item_of(all, header, close + 1) == item_of(a, header, close + 1)) by {
            let parts = text::pieces(text::trimmed(header), ':');
            if let Ok(n) = numbers::unsigned_reading(text::trimmed(parts[1]), usize::MAX as nat) {
                if close + 1 + n <= a.len() {
                    assert(all.subrange(close + 1, close + 1 + n) =~= a.subrange(
                        close + 1,
                        close + 1 + n,
                    ));
                }
            }
        }
        lemma_items_append(a, b, found.1);
        let rest = items_from(a, found.1)->Ok_0;
        let second = items_from(b, 0)->Ok_0;
        if let Some(item) = found.0 {
            assert(seq![item] + (rest + second) =~= (seq![item] + rest) + second);
        }
    }
}

/// What stands before the place where reading begins does not matter.
proof fn lemma_items_shift(a: Seq<u8>, b: Seq<u8>, from: int)
    requires
        0 <= from <= b.len(),
        items_from(b, from) is Ok,
    ensures
        items_from(a + b, a.len() + from) == items_from(b, from),
    decreases b.len() - from,
{
    let all = a + b;
    let n = a.len() as int;
    let start = bytes::position(b, 60u8, from);
    bytes::lemma_position(b, 60u8, from);
    bytes::lemma_position_shifted(a, b, 60u8, from);
    if start < b.len() {
        let close = bytes::position(b, 62u8, start);
        bytes::lemma_position(b, 62u8, start);
        bytes::lemma_position_shifted(a, b, 62u8, start);
        assert(all.subrange(n + start + 1, n + close) =~= b.subrange(start + 1, close));
        let header = vstd::utf8::decode_utf8(b.subrange(start + 1, close));
        let found = item_of(b, header, close + 1)->Ok_0;
        assert(close < found.1 <= b.len());
        assert(item_of(all, header, n + close + 1) == Ok::<(Option<Item>, int), AdifFault>(
            (found.0, n + found.1),
        )) by {
            let parts = text::pieces(text::trimmed(header), ':');
            if let Ok(k) = numbers::unsigned_reading(text::trimmed(parts[1]), usize::MAX as nat) {
                if close + 1 + k <= b.len() {
                    assert(all.subrange(n + close + 1, n + close + 1 + k) =~= b.subrange(
                        close + 1,
                        close + 1 + k,
                    ));
                }
            }
        }
        lemma_items_shift(a, b, found.1);
    }
}

// ---------------------------------------------------------------------------------------------
// What a contact takes from its record
// ---------------------------------------------------------------------------------------------
proof fn lemma_field(record: RecordModel, tag: Seq<char>, value: Seq<char>)
    requires
        string_map::ordered(record),
        record.contains((tag, value)),
    ensures
        string_map::lookup(record, tag) == Some(value),
{
    let i = choose|i: int| 0 <= i < record.len() && record[i] == (tag, value);
    string_map::lemma_position(record, i);
}

/// The record has no field of this tag.
pub open spec fn lacks(record: RecordModel, tag: Seq<char>) -> bool {
    forall|i: int| 0 <= i < record.len() ==> (#[trigger] record[i]).0 != tag
}

/// The mode of a contact is that which its record names, in capitals; only a contact whose record
/// names none is taken to be in Morse code.
pub proof fn law_mode_is_the_field(record: RecordModel, mode: Seq<char>)
    requires
        string_map::ordered(record),
        contact_of(record) is Ok,
    ensures
        record.contains(("MODE"@, mode)) ==> contact_of(record)->Ok_0.mode.len() == mode.len(),
        record.contains(("MODE"@, mode)) ==> forall|i: int|
            0 <= i < mode.len() ==> #[trigger] contact_of(record)->Ok_0.mode[i] == text::upper(
                mode,
            )[i],
        record.contains(("MODE"@, mode)) ==> text::same_letters(
            contact_of(record)->Ok_0.mode,
            mode,
        ),
        lacks(record, "MODE"@) ==> contact_of(record)->Ok_0.mode == seq!['C', 'W'],
{
    if record.contains(("MODE"@, mode)) {
        lemma_field(record, "MODE"@, mode);
        assert(text::lower(text::upper(mode)) =~= text::lower(mode));
    }
    if lacks(record, "MODE"@) {
        reveal_strlit("CW");
        assert(text::upper("CW"@) =~= seq!['C', 'W']);
    }
}

/// Two contacts whose records name modes have the same mode exactly where the records name the same,
/// the case of letters apart.
pub proof fn law_modes_tell_apart(
    a: RecordModel,
    b: RecordModel,
    one: Seq<char>,
    other: Seq<char>,
)
    requires
        string_map::ordered(a),
        string_map::ordered(b),
        a.contains(("MODE"@, one)),
        b.contains(("MODE"@, other)),
        contact_of(a) is Ok,
        contact_of(b) is Ok,
    ensures
        contact_of(a)->Ok_0.mode == contact_of(b)->Ok_0.mode <==> text::same_letters(one, other),
{
    lemma_field(a, "MODE"@, one);
    lemma_field(b, "MODE"@, other);
    text::law_same_letters(one, other);
}

/// The callsign, the country, the contest and the name of a contact are those of its record; the
/// callsign in its normal form.
pub proof fn law_fields_are_taken_over(record: RecordModel, value: Seq<char>)
    requires
        string_map::ordered(record),
        contact_of(record) is Ok,
    ensures
        ({
            let q = contact_of(record)->Ok_0;
            &&& record.contains(("CALL"@, value)) ==> q.call == model::normalized(value)
            &&& record.contains(("NAME"@, value)) ==> q.name == Some(value)
            &&& record.contains(("COUNTRY"@, value)) ==> q.country == Some(value)
            &&& record.contains(("CONTEST_ID"@, value)) ==> q.contest_id == Some(value)
            &&& record.contains(("STATE"@, value)) && text::trimmed(value).len() > 0 ==> q.location
                == Some(value)
            &&& lacks(record, "COUNTRY"@) ==> q.country is None
            &&& lacks(record, "CONTEST_ID"@) ==> q.contest_id is None
            &&& !q.deleted
        }),
{
    if record.contains(("CALL"@, value)) {
        lemma_field(record, "CALL"@, value);
    }
    if record.contains(("NAME"@, value)) {
        lemma_field(record, "NAME"@, value);
    }
    if record.contains(("COUNTRY"@, value)) {
        lemma_field(record, "COUNTRY"@, value);
    }
    if record.contains(("CONTEST_ID"@, value)) {
        lemma_field(record, "CONTEST_ID"@, value);
    }
    if record.contains(("STATE"@, value)) {
        lemma_field(record, "STATE"@, value);
    }
}

/// The state is missing or blank.
pub open spec fn lacks_state(record: RecordModel) -> bool {
    forall|i: int|
        0 <= i < record.len() && (#[trigger] record[i]).0 == "STATE"@ ==> text::trimmed(
            record[i].1,
        ).len() == 0
}

/// What is missing of the exchange is taken from the exchange as it was sent: a missing name is its
/// first word, and a missing or blank state its second. What it does not have is missing.
pub proof fn law_exchange_fills_in(record: RecordModel, sent: Seq<char>)
    requires
        string_map::ordered(record),
        contact_of(record) is Ok,
    ensures
        ({
            let q = contact_of(record)->Ok_0;
            let w = text::words(sent);
            &&& record.contains(("SRX_STRING"@, sent)) && lacks(record, "NAME"@) ==> q.name == if w.len()
                > 0 {
                Some(w[0])
            } else {
                None
            }
            &&& record.contains(("SRX_STRING"@, sent)) && lacks_state(record) ==> q.location == if w.len()
                > 1 {
                Some(w[1])
            } else {
                None
            }
            &&& lacks(record, "SRX_STRING"@) && lacks(record, "NAME"@) ==> q.name is None
            &&& lacks(record, "SRX_STRING"@) && lacks_state(record) ==> q.location is None
        }),
{
    if record.contains(("SRX_STRING"@, sent)) {
        lemma_field(record, "SRX_STRING"@, sent);
    }
    if lacks_state(record) {
        assert(required_field(record, "STATE"@) is None) by {
            if string_map::has_key(record, "STATE"@) {
                let i = choose|i: int| 0 <= i < record.len() && #[trigger] record[i].0 == "STATE"@;
                string_map::lemma_position(record, i);
                assert(record[i].0 == "STATE"@);
            }
        }
    }
}

/// The band of a contact is the one that its record names, whatever its frequency; else that of the
/// frequency, which is in megahertz. The number of its country is read as a whole number.
pub proof fn law_band_before_frequency(record: RecordModel, value: Seq<char>, band: Band, n: nat)
    requires
        string_map::ordered(record),
        contact_of(record) is Ok,
    ensures
        ({
            let q = contact_of(record)->Ok_0;
            &&& record.contains(("BAND"@, value)) && model::band_named(value) == Some(band)
                ==> q.band == Some(band)
            &&& record.contains(("FREQ"@, value)) ==> match frequency::megahertz_reading(value) {
                Some(p) => q.frequency == Some(Frequency { picohertz: p as i128 }),
                None => q.frequency is None,
            }
            &&& lacks(record, "BAND"@) ==> match q.frequency {
                Some(f) => q.band == model::band_of(f.picohertz as int),
                None => q.band is None,
            }
            &&& lacks(record, "FREQ"@) ==> q.frequency is None
            &&& record.contains(("DXCC"@, numbers::decimal(n))) && n <= u32::MAX ==> q.dxcc == Some(
                n as u32,
            )
            &&& lacks(record, "DXCC"@) ==> q.dxcc is None
        }),
{
    if record.contains(("BAND"@, value)) {
        lemma_field(record, "BAND"@, value);
    }
    if record.contains(("FREQ"@, value)) {
        lemma_field(record, "FREQ"@, value);
    }
    if record.contains(("DXCC"@, numbers::decimal(n))) {
        lemma_field(record, "DXCC"@, numbers::decimal(n));
        numbers::law_decimal_reads_back(n, u32::MAX as nat);
    }
}

/// A contact keeps every field of its record, and nothing else.
pub proof fn law_record_is_kept(record: RecordModel, i: int)
    requires
        0 <= i < record.len(),
        contact_of(record) is Ok,
    ensures
        contact_of(record)->Ok_0.raw matches JsonModel::Object(members) && members.len()
            == record.len() && members[i] == (record[i].0, JsonModel::Text(record[i].1)),
{
}

/// The field is there and not blank.
pub open spec fn has_field(record: RecordModel, tag: Seq<char>) -> bool {
    exists|i: int|
        0 <= i < record.len() && (#[trigger] record[i]).0 == tag && text::trimmed(record[i].1).len()
            > 0
}

proof fn lemma_has_field(record: RecordModel, tag: Seq<char>)
    requires
        string_map::ordered(record),
    ensures
        required_field(record, tag) is Some <==> has_field(record, tag),
{
    if has_field(record, tag) {
        let i = choose|i: int|
            0 <= i < record.len() && (#[trigger] record[i]).0 == tag && text::trimmed(
                record[i].1,
            ).len() > 0;
        string_map::lemma_position(record, i);
    }
    if string_map::has_key(record, tag) {
        let i = choose|i: int| 0 <= i < record.len() && #[trigger] record[i].0 == tag;
        string_map::lemma_position(record, i);
        assert(record[i].0 == tag);
    }
}

/// A record is a contact exactly where it has a callsign, a date and a time that name an instant,
/// which is that of the contact. The first field that is missing is the one that is told of.
pub proof fn law_what_a_contact_needs(record: RecordModel, date: Seq<char>, clock: Seq<char>)
    requires
        string_map::ordered(record),
    ensures
        !has_field(record, "CALL"@) ==> contact_of(record) == Err::<QsoModel, RecordFault>(
            RecordFault::Missing("CALL"@),
        ),
        has_field(record, "CALL"@) && !has_field(record, "QSO_DATE"@) ==> contact_of(record) == Err::<
            QsoModel,
            RecordFault,
        >(RecordFault::Missing("QSO_DATE"@)),
        has_field(record, "CALL"@) && has_field(record, "QSO_DATE"@) && !has_field(
            record,
            "TIME_ON"@,
        ) ==> contact_of(record) == Err::<QsoModel, RecordFault>(RecordFault::Missing("TIME_ON"@)),
        has_field(record, "CALL"@) && record.contains(("QSO_DATE"@, date)) && text::trimmed(
            date,
        ).len() > 0 && record.contains(("TIME_ON"@, clock)) && text::trimmed(clock).len() > 0
            ==> match time::adif_instant(date, clock) {
            Ok(at) => contact_of(record) is Ok && contact_of(record)->Ok_0.timestamp == at,
            Err(e) => contact_of(record) == Err::<QsoModel, RecordFault>(RecordFault::Time(e)),
        },
{
    lemma_has_field(record, "CALL"@);
    lemma_has_field(record, "QSO_DATE"@);
    lemma_has_field(record, "TIME_ON"@);
    if record.contains(("QSO_DATE"@, date)) {
        lemma_field(record, "QSO_DATE"@, date);
    }
    if record.contains(("TIME_ON"@, clock)) {
        lemma_field(record, "TIME_ON"@, clock);
    }
}

/// Two contacts with one callsign, at one millisecond, on one band and in one mode are the same
/// contact, whatever else their records say.
pub proof fn law_same_contact_same_identity(a: RecordModel, b: RecordModel)
    requires
        contact_of(a) is Ok,
        contact_of(b) is Ok,
        contact_of(a)->Ok_0.call == contact_of(b)->Ok_0.call,
        time::since_1970(contact_of(a)->Ok_0.timestamp) / 1_000_000 == time::since_1970(
            contact_of(b)->Ok_0.timestamp,
        ) / 1_000_000,
        contact_of(a)->Ok_0.band == contact_of(b)->Ok_0.band,
        contact_of(a)->Ok_0.mode == contact_of(b)->Ok_0.mode,
    ensures
        contact_of(a)->Ok_0.id == contact_of(b)->Ok_0.id,
        text::starts_with(contact_of(a)->Ok_0.id, "adif:"@),
{
    let id = contact_of(a)->Ok_0.id;
    assert(id.take("adif:"@.len() as int) =~= "adif:"@);
}

proof fn lemma_encoding_tells_apart(a: Seq<char>, b: Seq<char>)
    ensures
        vstd::utf8::encode_utf8(a) == vstd::utf8::encode_utf8(b) ==> a == b,
{
    vstd::utf8::encode_utf8_decode_utf8(a);
    vstd::utf8::encode_utf8_decode_utf8(b);
}

/// What identifies a contact tells contacts apart that differ in their callsign, their millisecond,
/// their band or their mode alone.
pub proof fn law_identity_tells_apart(
    call: Seq<char>,
    ms: int,
    band: Option<Band>,
    mode: Seq<char>,
    other_call: Seq<char>,
    other_ms: int,
    other_band: Option<Band>,
    other_mode: Seq<char>,
)
    requires
        i64::MIN <= ms <= i64::MAX,
        i64::MIN <= other_ms <= i64::MAX,
    ensures
        identity(call, ms, band, mode) == identity(other_call, ms, band, mode) ==> call
            == other_call,
        identity(call, ms, band, mode) == identity(call, other_ms, band, mode) ==> ms == other_ms,
        identity(call, ms, band, mode) == identity(call, ms, other_band, mode) ==> band
            == other_band,
        identity(call, ms, band, mode) == identity(call, ms, band, other_mode) ==> mode
            == other_mode,
{
    let meters = |b: Option<Band>|
        match b {
            Some(b) => b.wavelength() as nat,
            None => 0,
        };
    let c = vstd::utf8::encode_utf8(call);
    let t = bytes::signed_bytes(ms);
    let w = bytes::little_endian(meters(band), 2);
    let m = vstd::utf8::encode_utf8(mode);
    let id = identity(call, ms, band, mode);
    reveal_with_fuel(bytes::byte_limit, 3);
    bytes::law_signed_bytes_tell_numbers_apart(ms, other_ms);
    bytes::law_signed_bytes_tell_numbers_apart(other_ms, ms);
    bytes::law_bytes_tell_numbers_apart(meters(band), meters(other_band), 2);
    bytes::law_bytes_tell_numbers_apart(meters(other_band), meters(band), 2);
    assert(id =~= c + t + w + m);
    let n = c.len() as int;
    if id == identity(other_call, ms, band, mode) {
        let d = vstd::utf8::encode_utf8(other_call);
        let other = identity(other_call, ms, band, mode);
        assert(other =~= d + t + w + m);
        assert(c.len() == d.len());
        assert(id.take(n) =~= c && other.take(n) =~= d);
        lemma_encoding_tells_apart(call, other_call);
    }
    if id == identity(call, other_ms, band, mode) {
        let other = identity(call, other_ms, band, mode);
        assert(other =~= c + bytes::signed_bytes(other_ms) + w + m);
        assert(id.subrange(n, n + 8) =~= t);
        assert(other.subrange(n, n + 8) =~= bytes::signed_bytes(other_ms));
    }
    if id == identity(call, ms, other_band, mode) {
        let other = identity(call, ms, other_band, mode);
        let v = bytes::little_endian(meters(other_band), 2);
        assert(other =~= c + t + v + m);
        assert(id.subrange(n + 8, n + 10) =~= w);
        assert(other.subrange(n + 8, n + 10) =~= v);
        assert(meters(band) == meters(other_band));
        if let (Some(x), Some(y)) = (band, other_band) {
            model::law_bands_differ(x, y);
        }
    }
    if id == identity(call, ms, band, other_mode) {
        let other = identity(call, ms, band, other_mode);
        let o = vstd::utf8::encode_utf8(other_mode);
        assert(other =~= c + t + w + o);
        assert(id.skip(n + 10) =~= m);
        assert(other.skip(n + 10) =~= o);
        lemma_encoding_tells_apart(mode, other_mode);
    }
}

// ---------------------------------------------------------------------------------------------
// What a file holds
// ---------------------------------------------------------------------------------------------
/// A field that is written into a file is read back: its tag in capitals, and as many bytes behind
/// the tag as it says are its value, trimmed; what follows is read as it stands by itself.
pub proof fn law_field_is_read_back(
    header: Seq<u8>,
    tag: Seq<char>,
    value: Seq<u8>,
    rest: Seq<u8>,
)
    requires
        vstd::utf8::valid_utf8(header),
        vstd::utf8::decode_utf8(header) == tag.push(':') + numbers::decimal(value.len()),
        forall|i: int| 0 <= i < header.len() ==> #[trigger] header[i] != 62,
        tag.len() > 0,
        !tag.contains(':'),
        text::trimmed(tag) == tag,
        text::upper(tag) != "EOR"@,
        text::upper(tag) != "EOH"@,
        value.len() <= usize::MAX,
        items_from(rest, 0) is Ok,
    ensures
        items_from(seq![60u8] + header + seq![62u8] + value + rest, 0) == Ok::<Seq<Item>, AdifFault>(
            seq![Item::Field(text::upper(tag), text::trimmed(bytes::text_in(value)))] + items_from(
                rest,
                0,
            )->Ok_0,
        ),
{
    let before = seq![60u8] + header + seq![62u8] + value;
    let all = before + rest;
    let close = header.len() as int + 1;
    let size = numbers::decimal(value.len());
    bytes::law_first_byte_is_found(all, 60u8, 0, 0);
    assert(all[close] == 62);
    assert forall|k: int| 0 <= k < close implies #[trigger] all[k] != 62 by {
        if k > 0 {
            assert(all[k] == header[k - 1]);
        }
    }
    bytes::law_first_byte_is_found(all, 62u8, 0, close);
    assert(all.subrange(1, close) =~= header);
    let h = tag.push(':') + size;
    numbers::law_decimal_reads_back(value.len(), usize::MAX as nat);
    text::law_trimmed(tag);
    assert(!text::is_space(tag[0]));
    assert(h[0] == tag[0]);
    assert(h.last() == size.last());
    assert(48 <= size[size.len() - 1] as int <= 57);
    assert(text::trimmed(h) == h);
    text::law_pieces_joined(tag, ':', size);
    assert(!size.contains(':')) by {
        if size.contains(':') {
            let i = choose|i: int| 0 <= i < size.len() && size[i] == ':';
            assert(48 <= size[i] as int <= 57);
        }
    }
    text::law_pieces_joined(size, ':', Seq::empty());
    let parts = text::pieces(h, ':');
    assert(parts =~= seq![tag, size]);
    assert(48 <= size[0] as int <= 57);
    assert(text::trimmed(size) == size);
    let at = close + 1;
    assert(all.subrange(at, at + value.len()) =~= value);
    assert(before.len() == at + value.len());
    lemma_items_shift(before, rest, 0);
    assert(item_of(all, h, at) == Ok::<(Option<Item>, int), AdifFault>(
        (
            Some(Item::Field(text::upper(tag), text::trimmed(bytes::text_in(value)))),
            at + value.len(),
        ),
    ));
}

/// The marks at the end of a record and of the header are read as such, whatever the case of their
/// letters.
pub proof fn law_marks_are_read_back(header: Seq<u8>, tag: Seq<char>, rest: Seq<u8>)
    requires
        vstd::utf8::valid_utf8(header),
        vstd::utf8::decode_utf8(header) == tag,
        forall|i: int| 0 <= i < header.len() ==> #[trigger] header[i] != 62,
        items_from(rest, 0) is Ok,
    ensures
        text::same_letters(tag, "EOR"@) ==> items_from(seq![60u8] + header + seq![62u8] + rest, 0)
            == Ok::<Seq<Item>, AdifFault>(seq![Item::EndOfRecord] + items_from(rest, 0)->Ok_0),
        text::same_letters(tag, "EOH"@) ==> items_from(seq![60u8] + header + seq![62u8] + rest, 0)
            == Ok::<Seq<Item>, AdifFault>(seq![Item::EndOfHeader] + items_from(rest, 0)->Ok_0),
{
    let before = seq![60u8] + header + seq![62u8];
    let all = before + rest;
    let close = header.len() as int + 1;
    bytes::law_first_byte_is_found(all, 60u8, 0, 0);
    assert(all[close] == 62);
    assert forall|k: int| 0 <= k < close implies #[trigger] all[k] != 62 by {
        if k > 0 {
            assert(all[k] == header[k - 1]);
        }
    }
    bytes::law_first_byte_is_found(all, 62u8, 0, close);
    assert(all.subrange(1, close) =~= header);
    lemma_items_shift(before, rest, 0);
    reveal_strlit("EOR");
    reveal_strlit("EOH");
    text::law_same_letters(tag, "EOR"@);
    text::law_same_letters(tag, "EOH"@);
    assert(text::upper("EOR"@) =~= "EOR"@);
    assert(text::upper("EOH"@) =~= "EOH"@);
    if text::same_letters(tag, "EOR"@) || text::same_letters(tag, "EOH"@) {
        let u = text::upper(tag);
        assert(u[0] == 'E' && u[1] == 'O' && (u[2] == 'R' || u[2] == 'H'));
        assert(u[0] == text::upper_char(tag[0]) && u[1] == text::upper_char(tag[1]) && u[2]
            == text::upper_char(tag[2]));
        assert(text::trimmed(tag) == tag);
        assert(!tag.contains(':'));
        text::law_pieces_joined(tag, ':', Seq::empty());
        assert(text::pieces(tag, ':') =~= seq![tag]);
        assert("EOR"@[2] != "EOH"@[2]);
        assert(close < close + 1 <= all.len());
    }
}

proof fn lemma_records_ordered(items: Seq<Item>)
    ensures
        string_map::ordered(reading(items).current),
        forall|i: int|
            0 <= i < reading(items).records.len() ==> string_map::ordered(
                #[trigger] reading(items).records[i],
            ),
    decreases items.len(),
{
    if items.len() > 0 {
        lemma_records_ordered(items.drop_last());
        if let Item::Field(tag, value) = items.last() {
            string_map::lemma_inserted(reading(items.drop_last()).current, tag, value);
        }
    }
}

/// Every record of a file holds each of its tags once, and at least one.
pub proof fn law_records_are_maps(bytes: Seq<u8>, i: int)
    requires
        records_of(bytes) matches Ok(records) && 0 <= i < records.len(),
    ensures
        string_map::ordered(records_of(bytes)->Ok_0[i]),
        records_of(bytes)->Ok_0[i].len() > 0,
{
    let items = items_from(bytes, 0)->Ok_0;
    lemma_records_ordered(items);
    lemma_records_filled(items);
}

proof fn lemma_records_filled(items: Seq<Item>)
    ensures
        forall|i: int|
            0 <= i < reading(items).records.len() ==> (#[trigger] reading(items).records[i]).len()
                > 0,
    decreases items.len(),
{
    if items.len() > 0 {
        lemma_records_filled(items.drop_last());
        let r = reading(items.drop_last());
        let t = reading(items);
        assert forall|i: int| 0 <= i < t.records.len() implies (#[trigger] t.records[i]).len()
            > 0 by {
            if i < r.records.len() {
                assert(t.records[i] == r.records[i]);
            } else {
                assert(t.records[i] == r.current);
            }
        }
    }
}

/// A field belongs to the record that is being read, and of two of one tag the later one counts; the
/// end of a record makes it one of the records; the end of the header takes back what stood before.
pub proof fn law_records_are_built(
    items: Seq<Item>,
    tag: Seq<char>,
    value: Seq<char>,
    other: Seq<char>,
)
    requires
        other != tag,
    ensures
        ({
            let r = reading(items);
            let f = reading(items.push(Item::Field(tag, value)));
            let e = reading(items.push(Item::EndOfRecord));
            let h = reading(items.push(Item::EndOfHeader));
            &&& f.records == r.records
            &&& f.current.contains((tag, value))
            &&& string_map::lookup(f.current, other) == string_map::lookup(r.current, other)
            &&& e.current.len() == 0
            &&& e.records == if r.current.len() > 0 {
                r.records.push(r.current)
            } else {
                r.records
            }
            &&& h.records == r.records && h.current.len() == 0
            &&& reading(Seq::<Item>::empty()).records.len() == 0
        }),
{
    lemma_records_ordered(items);
    assert(items.push(Item::Field(tag, value)).drop_last() =~= items);
    assert(items.push(Item::EndOfRecord).drop_last() =~= items);
    assert(items.push(Item::EndOfHeader).drop_last() =~= items);
    string_map::law_map_gives_what_was_put_in(reading(items).current, tag, value, other);
}

/// Every record is a contact or is skipped; of those that are skipped the first twenty are told of,
/// each by its number.
pub proof fn law_skipped_records_are_told_of(
    readings: Seq<Result<QsoModel, RecordFault>>,
    q: QsoModel,
    e: RecordFault,
)
    ensures
        contacts_in(readings.push(Ok(q))) == contacts_in(readings).push(q),
        contacts_in(readings.push(Err(e))) == contacts_in(readings),
        warnings_in(readings.push(Ok(q))) == warnings_in(readings),
        warnings_in(readings).len() < 20 ==> warnings_in(readings.push(Err(e))) == warnings_in(
            readings,
        ).push("Record "@ + numbers::decimal(readings.len() + 1) + ": "@ + e.text()),
        warnings_in(readings).len() >= 20 ==> warnings_in(readings.push(Err(e))) == warnings_in(
            readings,
        ),
        contacts_in(Seq::<Result<QsoModel, RecordFault>>::empty()).len() == 0,
        warnings_in(Seq::<Result<QsoModel, RecordFault>>::empty()).len() == 0,
{
    assert(readings.push(Ok(q)).drop_last() =~= readings);
    assert(readings.push(Err(e)).drop_last() =~= readings);
}

/// The report of an import accounts for every record: each was added, updated, unchanged or skipped.
pub proof fn law_import_accounts_for_all(log: Seq<(Seq<char>, QsoModel)>, records: Seq<RecordModel>)
    ensures
        ({
            let r = import_report(log, records);
            &&& r.records_seen == records.len()
            &&& r.added + r.updated + r.unchanged + r.skipped == records.len()
            &&& r.skipped + contacts_of(records).len() == records.len()
        }),
{
    let c = contacts_of(records);
    log_source::law_every_contact_is_counted(log, c);
    lemma_contacts_bound(readings_of(records));
}

proof fn lemma_contacts_bound(readings: Seq<Result<QsoModel, RecordFault>>)
    ensures
        contacts_in(readings).len() <= readings.len(),
    decreases readings.len(),
{
    if readings.len() > 0 {
        lemma_contacts_bound(readings.drop_last());
    }
}

/// A file is imported record by record: the log after it holds what the log before held, with the
/// contact of every record that is one put in under its identifier, the last of each.
pub proof fn law_import_puts_in_contacts(log: Seq<(Seq<char>, QsoModel)>, bytes: Seq<u8>, i: int)
    requires
        string_map::ordered(log),
        records_of(bytes) matches Ok(records) && 0 <= i < records.len(),
        contact_of(records_of(bytes)->Ok_0[i]) is Ok,
        forall|k: int|
            i < k < records_of(bytes)->Ok_0.len() ==> contact_of(
                #[trigger] records_of(bytes)->Ok_0[k],
            ) is Err || contact_of(records_of(bytes)->Ok_0[k])->Ok_0.id != contact_of(
                records_of(bytes)->Ok_0[i],
            )->Ok_0.id,
    ensures
        ({
            let q = contact_of(records_of(bytes)->Ok_0[i])->Ok_0;
            string_map::lookup(imported_log(log, bytes), q.id) == Some(q)
        }),
{
    let records = records_of(bytes)->Ok_0;
    let all = readings_of(records);
    let q = contact_of(records[i])->Ok_0;
    assert(all.take(all.len() as int) =~= all);
    lemma_last_contact(all, i, all.len() as int);
    log_source::law_incremental_update(log, contacts_of(records), q.id);
}

proof fn lemma_last_contact(all: Seq<Result<QsoModel, RecordFault>>, i: int, n: int)
    requires
        0 <= i < n <= all.len(),
        all[i] is Ok,
        forall|k: int|
            i < k < n ==> #[trigger] all[k] is Err || all[k]->Ok_0.id != all[i]->Ok_0.id,
    ensures
        log_source::last_with(contacts_in(all.take(n)), all[i]->Ok_0.id) == Some(all[i]->Ok_0),
    decreases n,
{
    let part = all.take(n);
    assert(part.drop_last() =~= all.take(n - 1));
    assert(part.last() == all[n - 1]);
    let before = contacts_in(all.take(n - 1));
    if n == i + 1 {
        assert(contacts_in(part) == before.push(all[i]->Ok_0));
        assert(contacts_in(part).last() == all[i]->Ok_0);
    } else {
        lemma_last_contact(all, i, n - 1);
        if let Ok(q) = all[n - 1] {
            assert(contacts_in(part) == before.push(q));
            assert(contacts_in(part).drop_last() =~= before);
        }
    }
}

/// Before anything was imported, nothing was seen, added, updated, left or skipped, and nothing is
/// warned of.
pub proof fn law_nothing_imported_counts_nothing()
    ensures
        no_import().records_seen == 0,
        no_import().added == 0,
        no_import().updated == 0,
        no_import().unchanged == 0,
        no_import().skipped == 0,
        no_import().warnings.len() == 0,
{
}

} // verus!
