//! Import of call history files: comma- or semicolon-separated lines with a header that names
//! the columns.
use vstd::prelude::*;

use crate::bytes;
use crate::model;
use crate::naqp;
use crate::naqp_catalog;
use crate::numbers;
use crate::string_map;
use crate::string_map::StringMap;
use crate::text;
use crate::text::CharClass;
use crate::time::Instant;
use crate::time::Timestamp;

verus! {

// ---------------------------------------------------------------------------------------------
// Fields of a line
// ---------------------------------------------------------------------------------------------
/// The fields of `s`, where `field` is what the first of them has so far. A delimiter ends a
/// field, unless it stands between quotation marks; between them a doubled mark is one character.
/// There are no fields where a quotation is left open.
pub open spec fn fields_from(s: Seq<char>, delimiter: char, quoted: bool, field: Seq<char>) -> Option<
    Seq<Seq<char>>,
>
    decreases s.len(),
{
    if s.len() == 0 {
        if quoted {
            None
        } else {
            Some(seq![field])
        }
    } else if s[0] == '"' && quoted && s.len() > 1 && s[1] == '"' {
        fields_from(s.skip(2), delimiter, quoted, field.push('"'))
    } else if s[0] == '"' {
        fields_from(s.skip(1), delimiter, !quoted, field)
    } else if s[0] == delimiter && !quoted {
        match fields_from(s.skip(1), delimiter, quoted, Seq::empty()) {
            Some(rest) => Some(seq![field] + rest),
            None => None,
        }
    } else {
        fields_from(s.skip(1), delimiter, quoted, field.push(s[0]))
    }
}

/// The fields of a line.
pub open spec fn fields(line: Seq<char>, delimiter: char) -> Option<Seq<Seq<char>>> {
    fields_from(line, delimiter, false, Seq::empty())
}

spec fn led_by(front: Seq<Seq<char>>, rest: Option<Seq<Seq<char>>>) -> Option<Seq<Seq<char>>> {
    match rest {
        Some(items) => Some(front + items),
        None => None,
    }
}

/// Splits a line into its fields.
pub fn split_fields(line: &str, delimiter: char) -> (r: Option<Vec<String>>)
    ensures
        match r {
            Some(v) => fields(line@, delimiter) == Some(text::texts(v@)),
            None => fields(line@, delimiter) is None,
        },
{
    let v = text::chars_of(line);
    let mut out: Vec<String> = Vec::new();
    let mut field = String::new();
    let mut quoted = false;
    let mut i: usize = 0;
    proof {
        assert(v@.skip(0) =~= v@);
        assert(field@ =~= Seq::empty());
        if let Some(all) = fields(line@, delimiter) {
            assert(text::texts(out@) + all =~= all);
        }
    }
    while i < v.len()
        invariant
            i <= v@.len(),
            v@ == line@,
            fields(line@, delimiter) == led_by(
                text::texts(out@),
                fields_from(v@.skip(i as int), delimiter, quoted, field@),
            ),
        decreases v.len() - i,
    {
        let ghost rest = v@.skip(i as int);
        assert(rest[0] == v@[i as int]);
        assert(rest.skip(1) =~= v@.skip(i + 1));
        let c = v[i];
        if c == '"' && quoted && i + 1 < v.len() && v[i + 1] == '"' {
            assert(rest[1] == v@[i + 1]);
            assert(rest.skip(2) =~= v@.skip(i + 2));
            field.push('"');
            i = i + 2;
        } else if c == '"' {
            assert(rest.len() > 1 ==> rest[1] == v@[i + 1]);
            quoted = !quoted;
            i = i + 1;
        } else if c == delimiter && !quoted {
            let ghost before = text::texts(out@);
            let ghost done = field@;
            out.push(field);
            field = String::new();
            proof {
                assert(text::texts(out@) =~= before.push(done));
                assert(field@ =~= Seq::empty());
                if let Some(tail) = fields_from(v@.skip(i + 1), delimiter, quoted, Seq::empty()) {
                    assert(before + (seq![done] + tail) =~= text::texts(out@) + tail);
                }
            }
            i = i + 1;
        } else {
            field.push(c);
            i = i + 1;
        }
    }
    assert(v@.skip(i as int).len() == 0);
    if quoted {
        return None;
    }
    let ghost before = text::texts(out@);
    let ghost done = field@;
    out.push(field);
    assert(text::texts(out@) =~= before + seq![done]);
    Some(out)
}

// ---------------------------------------------------------------------------------------------
// The result of an import
// ---------------------------------------------------------------------------------------------
/// What a file says of a station.
#[derive(Debug)]
pub struct CallHistoryEntry {
    pub call: String,
    pub name: Option<String>,
    pub location: Option<String>,
    pub imported_at: Timestamp,
}

/// The model of an entry.
#[verifier::ext_equal]
pub struct EntryModel {
    pub call: Seq<char>,
    pub name: Option<Seq<char>>,
    pub location: Option<Seq<char>>,
    pub imported_at: Instant,
}

impl View for CallHistoryEntry {
    type V = EntryModel;

    open spec fn view(&self) -> EntryModel {
        EntryModel {
            call: self.call@,
            name: text::opt_text(self.name),
            location: text::opt_text(self.location),
            imported_at: self.imported_at@,
        }
    }
}

/// What an import did.
#[derive(Debug)]
pub struct ImportDiagnostics {
    pub rows_seen: usize,
    pub imported: usize,
    pub skipped: usize,
    pub warnings: Vec<String>,
}

/// The entries of a file by their callsigns.
pub struct Import {
    pub entries: StringMap<CallHistoryEntry>,
    pub diagnostics: ImportDiagnostics,
}

/// The model of an import.
#[verifier::ext_equal]
pub struct ImportModel {
    pub entries: Seq<(Seq<char>, EntryModel)>,
    pub rows_seen: nat,
    pub imported: nat,
    pub skipped: nat,
    pub warnings: Seq<Seq<char>>,
}

impl View for Import {
    type V = ImportModel;

    open spec fn view(&self) -> ImportModel {
        ImportModel {
            entries: self.entries@,
            rows_seen: self.diagnostics.rows_seen as nat,
            imported: self.diagnostics.imported as nat,
            skipped: self.diagnostics.skipped as nat,
            warnings: text::texts(self.diagnostics.warnings@),
        }
    }
}

/// At most this many warnings are kept.
pub const MOST_WARNINGS: usize = 50;

// ---------------------------------------------------------------------------------------------
// The grammar
// ---------------------------------------------------------------------------------------------
/// What the lines so far have brought.
#[verifier::ext_equal]
pub struct State {
    pub columns: Option<Seq<Seq<char>>>,
    pub delimiter: char,
    pub import: ImportModel,
}

/// Why a file cannot be imported; where a line is at fault, its number.
pub enum HistoryFault {
    /// The file is no text; holds the reason.
    NotText(Seq<char>),
    MalformedHeader(nat),
    NoCallColumn(nat),
    DataBeforeHeader(nat),
    MissingHeader,
}

impl HistoryFault {
    /// The fault in words.
    pub open spec fn text(self) -> Seq<char> {
        match self {
            HistoryFault::NotText(e) => "call history must be UTF-8 text: "@ + e,
            HistoryFault::MalformedHeader(n) => "line "@ + numbers::decimal(n)
                + ": malformed !!Order!! header: unterminated quoted field"@,
            HistoryFault::NoCallColumn(n) => "line "@ + numbers::decimal(n)
                + ": !!Order!! header must include a Call column"@,
            HistoryFault::DataBeforeHeader(n) => "line "@ + numbers::decimal(n)
                + ": data appears before an !!Order!! header"@,
            HistoryFault::MissingHeader => "missing !!Order!! header"@,
        }
    }
}

/// The line is the header that names the columns.
pub open spec fn is_header(line: Seq<char>) -> bool {
    line.len() >= 9 && text::same_letters(line.take(9), "!!Order!!"@)
}

/// The delimiter of a header: the one of the two that it has more of, a comma on a tie.
pub open spec fn delimiter_of(line: Seq<char>) -> char {
    if text::occurrences(line, ';') > text::occurrences(line, ',') {
        ';'
    } else {
        ','
    }
}

/// The names of the columns, but for the first, which marks the header.
pub open spec fn column_names(fields: Seq<Seq<char>>) -> Seq<Seq<char>> {
    Seq::new(
        if fields.len() > 0 {
            (fields.len() - 1) as nat
        } else {
            0
        },
        |i: int| text::lower(text::trimmed(fields[i + 1])),
    )
}

pub open spec fn warned(import: ImportModel, warning: Seq<char>) -> ImportModel {
    if import.warnings.len() < MOST_WARNINGS {
        ImportModel { warnings: import.warnings.push(warning), ..import }
    } else {
        import
    }
}

/// The beginning of a warning about line `number`.
pub open spec fn line_mark(number: nat) -> Seq<char> {
    "Line "@ + numbers::decimal(number) + ": "@
}

/// The position of the first column called `name`.
pub open spec fn column(columns: Seq<Seq<char>>, name: Seq<char>) -> Option<int>
    decreases columns.len(),
{
    if columns.len() == 0 {
        None
    } else {
        match column(columns.drop_last(), name) {
            Some(i) => Some(i),
            None => if columns.last() == name {
                Some(columns.len() - 1)
            } else {
                None
            },
        }
    }
}

/// The trimmed value that a row has in the column called `name`.
pub open spec fn value_of(
    columns: Seq<Seq<char>>,
    fields: Seq<Seq<char>>,
    name: Seq<char>,
) -> Option<Seq<char>> {
    match column(columns, name) {
        Some(i) => if i < fields.len() {
            Some(text::trimmed(fields[i]))
        } else {
            None
        },
        None => None,
    }
}

/// A value that is not empty.
pub open spec fn filled(value: Option<Seq<char>>) -> Option<Seq<char>> {
    match value {
        Some(v) => if v.len() > 0 {
            Some(v)
        } else {
            None
        },
        None => None,
    }
}

/// The callsign that a value is.
pub open spec fn call_in(value: Option<Seq<char>>) -> Option<Seq<char>> {
    match value {
        Some(v) => if model::plausible(model::normalized(v)) {
            Some(model::normalized(v))
        } else {
            None
        },
        None => None,
    }
}

/// The location that a value is: the word for stations outside North America, or a multiplier.
pub open spec fn location_of(value: Seq<char>) -> Option<Seq<char>> {
    if text::same_letters(text::trimmed(value), "DX"@) {
        Some("DX"@)
    } else {
        naqp::multiplier_code(text::trimmed(value))
    }
}

/// How `{:?}` writes a text.
pub uninterp spec fn debug_text(s: Seq<char>) -> Seq<char>;

/// The warning about a state on line `number` that is none of the contest; it shows the state.
pub open spec fn state_text(number: nat, shown: Seq<char>) -> Seq<char> {
    line_mark(number) + "unrecognized NAQP State value "@ + shown
        + "; imported without a location prediction"@
}

/// The import after the fields of line `number`.
pub open spec fn row_read(
    import: ImportModel,
    columns: Seq<Seq<char>>,
    fields: Seq<Seq<char>>,
    number: nat,
    now: Instant,
) -> ImportModel {
    let a = if fields.len() != columns.len() {
        warned(
            import,
            line_mark(number) + "expected "@ + numbers::decimal(columns.len())
                + " fields from !!Order!! but found "@ + numbers::decimal(fields.len()),
        )
    } else {
        import
    };
    match call_in(value_of(columns, fields, "call"@)) {
        None => warned(
            ImportModel { skipped: a.skipped + 1, ..a },
            line_mark(number) + "missing or invalid callsign"@,
        ),
        Some(call) => {
            let stated = filled(value_of(columns, fields, "state"@));
            let location = match stated {
                Some(s) => location_of(s),
                None => None,
            };
            let b = match (stated, location) {
                (Some(s), None) => warned(a, state_text(number, debug_text(s))),
                _ => a,
            };
            let entry = EntryModel {
                call,
                name: filled(value_of(columns, fields, "name"@)),
                location,
                imported_at: now,
            };
            let c = ImportModel {
                entries: string_map::inserted(b.entries, call, entry),
                ..b
            };
            let d = if string_map::has_key(b.entries, call) {
                warned(
                    c,
                    line_mark(number) + "duplicate "@ + call + "; the later row was used"@,
                )
            } else {
                c
            };
            ImportModel { imported: d.imported + 1, ..d }
        },
    }
}

/// The state after line `number`.
pub open spec fn line_read(state: State, number: nat, line: Seq<char>, now: Instant) -> Result<
    State,
    HistoryFault,
> {
    if text::trimmed(line).len() == 0 || text::starts_with(line, "#"@) {
        Ok(state)
    } else if is_header(line) {
        let delimiter = delimiter_of(line);
        match fields(line, delimiter) {
            None => Err(HistoryFault::MalformedHeader(number)),
            Some(f) => if column_names(f).contains("call"@) {
                Ok(State { columns: Some(column_names(f)), delimiter, import: state.import })
            } else {
                Err(HistoryFault::NoCallColumn(number))
            },
        }
    } else if text::starts_with(line, "!!"@) {
        Ok(state)
    } else {
        match state.columns {
            None => Err(HistoryFault::DataBeforeHeader(number)),
            Some(columns) => {
                let seen = ImportModel { rows_seen: state.import.rows_seen + 1, ..state.import };
                let import = match fields(line, state.delimiter) {
                    None => warned(
                        ImportModel { skipped: seen.skipped + 1, ..seen },
                        line_mark(number) + "malformed row: unterminated quoted field"@,
                    ),
                    Some(f) => row_read(seen, columns, f, number, now),
                };
                Ok(State { import, ..state })
            },
        }
    }
}

/// The state after the first `n` of `lines`, none of which ends with a carriage return.
pub open spec fn lines_read(lines: Seq<Seq<char>>, n: nat, now: Instant) -> Result<State, HistoryFault>
    decreases n,
{
    if n == 0 {
        Ok(
            State {
                columns: None,
                delimiter: ',',
                import: ImportModel {
                    entries: Seq::empty(),
                    rows_seen: 0,
                    imported: 0,
                    skipped: 0,
                    warnings: Seq::empty(),
                },
            },
        )
    } else {
        match lines_read(lines, (n - 1) as nat, now) {
            Err(e) => Err(e),
            Ok(state) => line_read(
                state,
                n,
                text::strip_end(lines[n - 1], CharClass::Is('\r')),
                now,
            ),
        }
    }
}

/// The lines of a text. A byte order mark at its beginning does not matter.
pub open spec fn lines_of(content: Seq<char>) -> Seq<Seq<char>> {
    text::pieces(text::strip_start(content, CharClass::Is('\u{feff}')), '\n')
}

/// The import of a text.
pub open spec fn import_of_text(content: Seq<char>, now: Instant) -> Result<ImportModel, HistoryFault> {
    let lines = lines_of(content);
    match lines_read(lines, lines.len(), now) {
        Err(e) => Err(e),
        Ok(state) => if state.columns is None {
            Err(HistoryFault::MissingHeader)
        } else {
            Ok(state.import)
        },
    }
}

/// The import of a file.
pub open spec fn import_of(file: Seq<u8>, now: Instant) -> Result<ImportModel, HistoryFault> {
    if !vstd::utf8::valid_utf8(file) {
        Err(HistoryFault::NotText(bytes::utf8_fault(file)))
    } else {
        import_of_text(vstd::utf8::decode_utf8(file), now)
    }
}

// ---------------------------------------------------------------------------------------------
// Reading a file
// ---------------------------------------------------------------------------------------------
/// Why a file cannot be imported; where a line is at fault, its number.
#[derive(Debug)]
pub enum HistoryError {
    /// The file is no text; holds the reason.
    NotText(String),
    MalformedHeader(usize),
    NoCallColumn(usize),
    DataBeforeHeader(usize),
    MissingHeader,
}

impl View for HistoryError {
    type V = HistoryFault;

    open spec fn view(&self) -> HistoryFault {
        match self {
            HistoryError::NotText(e) => HistoryFault::NotText(e@),
            HistoryError::MalformedHeader(n) => HistoryFault::MalformedHeader(*n as nat),
            HistoryError::NoCallColumn(n) => HistoryFault::NoCallColumn(*n as nat),
            HistoryError::DataBeforeHeader(n) => HistoryFault::DataBeforeHeader(*n as nat),
            HistoryError::MissingHeader => HistoryFault::MissingHeader,
        }
    }
}

fn at_line(number: usize, rest: &str) -> (r: String)
    ensures
        r@ == "line "@ + numbers::decimal(number as nat) + rest@,
{
    let mut out = text::owned("line ");
    numbers::push_decimal(&mut out, number as u64);
    text::push_text(&mut out, rest);
    out
}

impl HistoryError {
    pub fn message(&self) -> (r: String)
        ensures
            r@ == self@.text(),
    {
        match self {
            HistoryError::NotText(e) => text::joined(
                "call history must be UTF-8 text: ",
                e.as_str(),
            ),
            HistoryError::MalformedHeader(n) => at_line(
                *n,
                ": malformed !!Order!! header: unterminated quoted field",
            ),
            HistoryError::NoCallColumn(n) => at_line(
                *n,
                ": !!Order!! header must include a Call column",
            ),
            HistoryError::DataBeforeHeader(n) => at_line(
                *n,
                ": data appears before an !!Order!! header",
            ),
            HistoryError::MissingHeader => text::owned("missing !!Order!! header"),
        }
    }
}

/// Writes a text with `{:?}` of `std::fmt`: in quotation marks, with escapes. The result is
/// named, not described.
#[verifier::external_body]
fn debug(s: &str) -> (r: String)
    ensures
        r@ == debug_text(s@),
{
    format!("{:?}", s)
}

/// The warning about a state on line `number` that is none of the contest; it shows the state.
pub fn state_warning(number: usize, shown: &str) -> (r: String)
    ensures
        r@ == state_text(number as nat, shown@),
{
    let mut warning = marked(number, "unrecognized NAQP State value ");
    text::push_text(&mut warning, shown);
    text::push_text(&mut warning, "; imported without a location prediction");
    warning
}

/// The lines so far, as they were read.
struct Reader {
    columns: Option<Vec<String>>,
    delimiter: char,
    import: Import,
}

impl Reader {
    spec fn state(self) -> State {
        State {
            columns: match self.columns {
                Some(c) => Some(text::texts(c@)),
                None => None,
            },
            delimiter: self.delimiter,
            import: self.import@,
        }
    }
}

fn warn(import: &mut Import, warning: String)
    ensures
        final(import)@ == warned(old(import)@, warning@),
        final(import).diagnostics.rows_seen == old(import).diagnostics.rows_seen,
        final(import).diagnostics.imported == old(import).diagnostics.imported,
        final(import).diagnostics.skipped == old(import).diagnostics.skipped,
{
    if import.diagnostics.warnings.len() < MOST_WARNINGS {
        let ghost before = text::texts(import.diagnostics.warnings@);
        let ghost model = import@;
        let ghost w = warning@;
        import.diagnostics.warnings.push(warning);
        assert(text::texts(import.diagnostics.warnings@) =~= before.push(w));
        assert(import@ =~= warned(model, w));
    }
}

fn marked(number: usize, rest: &str) -> (r: String)
    ensures
        r@ == line_mark(number as nat) + rest@,
{
    let mut out = text::owned("Line ");
    numbers::push_decimal(&mut out, number as u64);
    text::push_text(&mut out, ": ");
    text::push_text(&mut out, rest);
    out
}

fn find_column(columns: &Vec<String>, name: &str) -> (r: Option<usize>)
    ensures
        match r {
            Some(i) => column(text::texts(columns@), name@) == Some(i as int),
            None => column(text::texts(columns@), name@) is None,
        },
{
    let ghost all = text::texts(columns@);
    let mut i: usize = 0;
    while i < columns.len()
        invariant
            i <= columns@.len(),
            all == text::texts(columns@),
            column(all.take(i as int), name@) is None,
        decreases columns.len() - i,
    {
        assert(all.take(i + 1).drop_last() =~= all.take(i as int));
        assert(all.take(i + 1).last() == columns@[i as int]@);
        if text::same(columns[i].as_str(), name) {
            proof {
                lemma_column_stays(all, i + 1, name@);
            }
            return Some(i);
        }
        i = i + 1;
    }
    assert(all.take(all.len() as int) =~= all);
    None
}

proof fn lemma_column_stays(columns: Seq<Seq<char>>, n: int, name: Seq<char>)
    requires
        0 <= n <= columns.len(),
        column(columns.take(n), name) is Some,
    ensures
        column(columns, name) == column(columns.take(n), name),
    decreases columns.len(),
{
    if n < columns.len() {
        assert(columns.drop_last().take(n) =~= columns.take(n));
        lemma_column_stays(columns.drop_last(), n, name);
    } else {
        assert(columns.take(n) =~= columns);
    }
}

fn find_value(columns: &Vec<String>, fields: &Vec<String>, name: &str) -> (r: Option<String>)
    ensures
        text::opt_text(r) == value_of(text::texts(columns@), text::texts(fields@), name@),
{
    match find_column(columns, name) {
        Some(i) => if i < fields.len() {
            Some(text::trim(fields[i].as_str()))
        } else {
            None
        },
        None => None,
    }
}

fn fill(value: Option<String>) -> (r: Option<String>)
    ensures
        text::opt_text(r) == filled(text::opt_text(value)),
{
    match value {
        Some(v) => if text::chars_of(v.as_str()).len() > 0 {
            Some(v)
        } else {
            None
        },
        None => None,
    }
}

fn normalize_call(value: &str) -> (r: Option<String>)
    ensures
        text::opt_text(r) == call_in(Some(value@)),
{
    let call = model::normalize_call(value);
    if model::is_plausible_call(call.as_str()) {
        Some(call)
    } else {
        None
    }
}

fn normalize_location(value: &str) -> (r: Option<String>)
    ensures
        text::opt_text(r) == location_of(value@),
{
    let trimmed = text::trim(value);
    if text::same_ignoring_case(trimmed.as_str(), "DX") {
        Some(text::owned("DX"))
    } else {
        naqp::normalize_multiplier(trimmed.as_str())
    }
}

fn read_row(
    import: &mut Import,
    columns: &Vec<String>,
    fields: &Vec<String>,
    number: usize,
    now: Timestamp,
)
    requires
        old(import).diagnostics.skipped < usize::MAX,
        old(import).diagnostics.imported < usize::MAX,
    ensures
        final(import)@ == row_read(
            old(import)@,
            text::texts(columns@),
            text::texts(fields@),
            number as nat,
            now@,
        ),
        final(import).diagnostics.rows_seen == old(import).diagnostics.rows_seen,
        final(import).diagnostics.skipped <= old(import).diagnostics.skipped + 1,
        final(import).diagnostics.imported <= old(import).diagnostics.imported + 1,
{
    let ghost begun = import@;
    let ghost cols = text::texts(columns@);
    let ghost vals = text::texts(fields@);
    assert(cols.len() == columns@.len() && vals.len() == fields@.len());
    if fields.len() != columns.len() {
        let mut warning = marked(number, "expected ");
        numbers::push_decimal(&mut warning, columns.len() as u64);
        text::push_text(&mut warning, " fields from !!Order!! but found ");
        numbers::push_decimal(&mut warning, fields.len() as u64);
        warn(import, warning);
    }
    let ghost a = import@;
    let named = find_value(columns, fields, "call");
    let call = match named {
        Some(v) => normalize_call(v.as_str()),
        None => None,
    };
    let call = match call {
        Some(c) => c,
        None => {
            import.diagnostics.skipped = import.diagnostics.skipped + 1;
            assert(import@ =~= (ImportModel { skipped: a.skipped + 1, ..a }));
            warn(import, marked(number, "missing or invalid callsign"));
            return ;
        },
    };
    let name = fill(find_value(columns, fields, "name"));
    let stated = fill(find_value(columns, fields, "state"));
    let location = match &stated {
        Some(s) => normalize_location(s.as_str()),
        None => None,
    };
    if let Some(s) = &stated {
        if location.is_none() {
            warn(import, state_warning(number, debug(s.as_str()).as_str()));
        }
    }
    let ghost b = import@;
    let entry = CallHistoryEntry { call: call.clone(), name, location, imported_at: now };
    let ghost model = entry@;
    let known = import.entries.insert(call.clone(), entry);
    assert(import@ =~= (ImportModel {
        entries: string_map::inserted(b.entries, call@, model),
        ..b
    }));
    if known {
        let mut warning = marked(number, "duplicate ");
        text::push_text(&mut warning, call.as_str());
        text::push_text(&mut warning, "; the later row was used");
        warn(import, warning);
    }
    let ghost d = import@;
    import.diagnostics.imported = import.diagnostics.imported + 1;
    assert(import@ =~= (ImportModel { imported: d.imported + 1, ..d }));
}

fn read_columns(fields: &Vec<String>) -> (r: Vec<String>)
    ensures
        text::texts(r@) == column_names(text::texts(fields@)),
{
    let mut out: Vec<String> = Vec::new();
    let mut i: usize = 1;
    while i < fields.len()
        invariant
            1 <= i,
            i <= fields@.len() || i == 1,
            out@.len() == i - 1,
            forall|j: int|
                0 <= j < i - 1 ==> (#[trigger] out@[j])@ == text::lower(
                    text::trimmed(fields@[j + 1]@),
                ),
        decreases fields.len() - i,
    {
        out.push(text::to_lower(text::trim(fields[i].as_str()).as_str()));
        i = i + 1;
    }
    assert(text::texts(out@) =~= column_names(text::texts(fields@)));
    out
}

fn has_text(v: &Vec<String>, t: &str) -> (r: bool)
    ensures
        r == text::texts(v@).contains(t@),
{
    let mut i: usize = 0;
    while i < v.len()
        invariant
            i <= v@.len(),
            forall|j: int| 0 <= j < i ==> (#[trigger] v@[j])@ != t@,
        decreases v.len() - i,
    {
        if text::same(v[i].as_str(), t) {
            assert(text::texts(v@)[i as int] == t@);
            return true;
        }
        i = i + 1;
    }
    proof {
        if text::texts(v@).contains(t@) {
            let j = choose|j: int| 0 <= j < text::texts(v@).len() && text::texts(v@)[j] == t@;
            assert(v@[j]@ == t@);
        }
    }
    false
}

fn starts_header(line: &str) -> (r: bool)
    ensures
        r == is_header(line@),
{
    let v = text::chars_of(line);
    if v.len() < 9 {
        return false;
    }
    assert(line@.take(9) =~= v@.subrange(0, 9));
    text::same_ignoring_case(text::string_between(&v, 0, 9).as_str(), "!!Order!!")
}

fn read_line(reader: &mut Reader, number: usize, line: &str, now: Timestamp) -> (r: Result<
    (),
    HistoryError,
>)
    requires
        old(reader).import.diagnostics.rows_seen < usize::MAX,
        old(reader).import.diagnostics.skipped < usize::MAX,
        old(reader).import.diagnostics.imported < usize::MAX,
    ensures
        match r {
            Ok(_) => line_read(old(reader).state(), number as nat, line@, now@) == Ok::<
                State,
                HistoryFault,
            >(final(reader).state()),
            Err(e) => line_read(old(reader).state(), number as nat, line@, now@) == Err::<
                State,
                HistoryFault,
            >(e@),
        },
        final(reader).import.diagnostics.rows_seen <= old(reader).import.diagnostics.rows_seen + 1,
        final(reader).import.diagnostics.skipped <= old(reader).import.diagnostics.skipped + 1,
        final(reader).import.diagnostics.imported <= old(reader).import.diagnostics.imported + 1,
{
    if text::is_blank(line) || text::begins_with(line, "#") {
        return Ok(());
    }
    let ghost begun = reader.state();
    if starts_header(line) {
        let delimiter = if text::count_char(line, ';') > text::count_char(line, ',') {
            ';'
        } else {
            ','
        };
        let parsed = match split_fields(line, delimiter) {
            Some(f) => f,
            None => return Err(HistoryError::MalformedHeader(number)),
        };
        let columns = read_columns(&parsed);
        if !has_text(&columns, "call") {
            return Err(HistoryError::NoCallColumn(number));
        }
        reader.columns = Some(columns);
        reader.delimiter = delimiter;
        return Ok(());
    }
    if text::begins_with(line, "!!") {
        return Ok(());
    }
    let columns = match &reader.columns {
        Some(c) => text::copy_texts(c),
        None => return Err(HistoryError::DataBeforeHeader(number)),
    };
    reader.import.diagnostics.rows_seen = reader.import.diagnostics.rows_seen + 1;
    let ghost seen = ImportModel { rows_seen: begun.import.rows_seen + 1, ..begun.import };
    assert(reader.import@ =~= seen);
    match split_fields(line, reader.delimiter) {
        Some(fields) => {
            read_row(&mut reader.import, &columns, &fields, number, now);
        },
        None => {
            reader.import.diagnostics.skipped = reader.import.diagnostics.skipped + 1;
            assert(reader.import@ =~= (ImportModel { skipped: seen.skipped + 1, ..seen }));
            warn(
                &mut reader.import,
                marked(number, "malformed row: unterminated quoted field"),
            );
        },
    }
    Ok(())
}

/// Reads the text of a call history file.
pub fn parse_text(content: &str, imported_at: Timestamp) -> (r: Result<Import, HistoryError>)
    ensures
        match r {
            Ok(import) => import_of_text(content@, imported_at@) == Ok::<ImportModel, HistoryFault>(
                import@,
            ),
            Err(e) => import_of_text(content@, imported_at@) == Err::<ImportModel, HistoryFault>(
                e@,
            ),
        },
{
    let stripped = text::strip_left(content, CharClass::Is('\u{feff}'));
    let lines = text::split_at_each(stripped.as_str(), '\n');
    let ghost all = text::texts(lines@);
    let mut reader = Reader {
        columns: None,
        delimiter: ',',
        import: Import {
            entries: StringMap::new(),
            diagnostics: ImportDiagnostics {
                rows_seen: 0,
                imported: 0,
                skipped: 0,
                warnings: Vec::new(),
            },
        },
    };
    let mut i: usize = 0;
    assert(text::texts(reader.import.diagnostics.warnings@) =~= Seq::empty());
    while i < lines.len()
        invariant
            i <= lines@.len(),
            all == text::texts(lines@),
            all == lines_of(content@),
            lines_read(all, i as nat, imported_at@) == Ok::<State, HistoryFault>(reader.state()),
            reader.import.diagnostics.rows_seen <= i,
            reader.import.diagnostics.skipped <= i,
            reader.import.diagnostics.imported <= i,
        decreases lines.len() - i,
    {
        let line = text::strip_right(lines[i].as_str(), CharClass::Is('\r'));
        assert(all[i as int] == lines@[i as int]@);
        match read_line(&mut reader, i + 1, line.as_str(), imported_at) {
            Ok(_) => {},
            Err(e) => {
                proof {
                    lemma_fault_stays(all, i as nat + 1, all.len(), imported_at@);
                }
                return Err(e);
            },
        }
        i = i + 1;
    }
    if reader.columns.is_none() {
        return Err(HistoryError::MissingHeader);
    }
    Ok(reader.import)
}

/// Reads a call history file.
pub fn parse(file: &[u8], imported_at: Timestamp) -> (r: Result<Import, HistoryError>)
    ensures
        match r {
            Ok(import) => import_of(file@, imported_at@) == Ok::<ImportModel, HistoryFault>(
                import@,
            ),
            Err(e) => import_of(file@, imported_at@) == Err::<ImportModel, HistoryFault>(e@),
        },
{
    assert(file@.subrange(0, file@.len() as int) =~= file@);
    match bytes::decode(&bytes::between(file, 0, file.len())) {
        Ok(content) => parse_text(content.as_str(), imported_at),
        Err(e) => Err(HistoryError::NotText(e)),
    }
}

proof fn lemma_fault_stays(lines: Seq<Seq<char>>, m: nat, n: nat, now: Instant)
    requires
        m <= n,
        lines_read(lines, m, now) is Err,
    ensures
        lines_read(lines, n, now) == lines_read(lines, m, now),
    decreases n,
{
    if m < n {
        lemma_fault_stays(lines, m, (n - 1) as nat, now);
    }
}

// ---------------------------------------------------------------------------------------------
// Laws of the import
// ---------------------------------------------------------------------------------------------
/// What holds of every import: each row is imported or skipped; at most as many warnings are kept
/// as may be; and each entry stands under its own plausible callsign in normal form, with a location
/// that is one of the contest, if it has any, and the time of the import.
pub open spec fn sound(import: ImportModel, now: Instant) -> bool {
    &&& import.rows_seen == import.imported + import.skipped
    &&& import.warnings.len() <= MOST_WARNINGS
    &&& string_map::ordered(import.entries)
    &&& import.entries.len() <= import.imported
    &&& forall|i: int|
        0 <= i < import.entries.len() ==> sound_entry(#[trigger] import.entries[i], now)
}

pub open spec fn sound_entry(e: (Seq<char>, EntryModel), now: Instant) -> bool {
    &&& e.1.call == e.0
    &&& model::plausible(e.0)
    &&& model::normalized(e.0) == e.0
    &&& e.1.imported_at == now
    &&& e.1.location matches Some(l) ==> l == "DX"@ || naqp_catalog::printed(l)
}

proof fn lemma_row_sound(
    import: ImportModel,
    columns: Seq<Seq<char>>,
    fields: Seq<Seq<char>>,
    number: nat,
    now: Instant,
)
    requires
        sound(import, now),
    ensures
        sound(
            row_read(
                ImportModel { rows_seen: import.rows_seen + 1, ..import },
                columns,
                fields,
                number,
                now,
            ),
            now,
        ),
{
    let seen = ImportModel { rows_seen: import.rows_seen + 1, ..import };
    let r = row_read(seen, columns, fields, number, now);
    if let Some(call) = call_in(value_of(columns, fields, "call"@)) {
        let stated = filled(value_of(columns, fields, "state"@));
        let entry = EntryModel {
            call,
            name: filled(value_of(columns, fields, "name"@)),
            location: match stated {
                Some(s) => location_of(s),
                None => None,
            },
            imported_at: now,
        };
        let m = import.entries;
        string_map::lemma_inserted(m, call, entry);
        string_map::lemma_slot_splits(m, call);
        assert(r.entries == string_map::inserted(m, call, entry));
        let p = string_map::slot(m, call);
        model::lemma_normal_form(value_of(columns, fields, "call"@)->0);
        assert(sound_entry((call, entry), now));
        assert forall|i: int| 0 <= i < r.entries.len() implies sound_entry(
            #[trigger] r.entries[i],
            now,
        ) by {
            if i < p {
                assert(r.entries[i] == m[i]);
            } else if i > p {
                if r.entries.len() == m.len() {
                    assert(r.entries[i] == m[i]);
                } else {
                    assert(r.entries[i] == m[i - 1]);
                }
            }
        }
    }
}

/// Every file that can be imported is imported soundly.
pub proof fn law_imports_are_sound(file: Seq<u8>, now: Instant)
    ensures
        import_of(file, now) matches Ok(import) ==> sound(import, now),
{
    let lines = lines_of(vstd::utf8::decode_utf8(file));
    lemma_lines_sound(lines, lines.len(), now);
}

proof fn lemma_lines_sound(lines: Seq<Seq<char>>, n: nat, now: Instant)
    ensures
        lines_read(lines, n, now) matches Ok(state) ==> sound(state.import, now),
    decreases n,
{
    if n > 0 {
        lemma_lines_sound(lines, (n - 1) as nat, now);
        if let Ok(state) = lines_read(lines, (n - 1) as nat, now) {
            let line = text::strip_end(lines[n - 1], CharClass::Is('\r'));
            if let Some(columns) = state.columns {
                if let Some(f) = fields(line, state.delimiter) {
                    lemma_row_sound(state.import, columns, f, n, now);
                }
            }
        }
    }
}

// ---------------------------------------------------------------------------------------------
// What the lines mean
// ---------------------------------------------------------------------------------------------
/// The text has the character `c` nowhere.
pub open spec fn is_without(s: Seq<char>, c: char) -> bool {
    forall|i: int| 0 <= i < s.len() ==> #[trigger] s[i] != c
}

/// The text with each quotation mark doubled.
pub open spec fn doubled(s: Seq<char>) -> Seq<char>
    decreases s.len(),
{
    if s.len() == 0 {
        s
    } else if s[0] == '"' {
        seq!['"', '"'] + doubled(s.skip(1))
    } else {
        seq![s[0]] + doubled(s.skip(1))
    }
}

proof fn lemma_plain_part(a: Seq<char>, rest: Seq<char>, delimiter: char, quoted: bool, field: Seq<
    char,
>)
    requires
        is_without(a, '"'),
        quoted || is_without(a, delimiter),
    ensures
        fields_from(a + rest, delimiter, quoted, field) == fields_from(
            rest,
            delimiter,
            quoted,
            field + a,
        ),
    decreases a.len(),
{
    if a.len() == 0 {
        assert(a + rest =~= rest);
        assert(field + a =~= field);
    } else {
        let tail = a.skip(1);
        assert forall|i: int| 0 <= i < tail.len() implies #[trigger] tail[i] == a[i + 1] by {}
        assert((a + rest)[0] == a[0]);
        assert((a + rest).skip(1) =~= tail + rest);
        lemma_plain_part(tail, rest, delimiter, quoted, field.push(a[0]));
        assert(field.push(a[0]) + tail =~= field + a);
    }
}

proof fn lemma_doubled_part(a: Seq<char>, rest: Seq<char>, delimiter: char, field: Seq<char>)
    ensures
        fields_from(doubled(a) + rest, delimiter, true, field) == fields_from(
            rest,
            delimiter,
            true,
            field + a,
        ),
    decreases a.len(),
{
    let s = doubled(a) + rest;
    if a.len() == 0 {
        assert(s =~= rest);
        assert(field + a =~= field);
    } else {
        let tail = a.skip(1);
        lemma_doubled_part(tail, rest, delimiter, field.push(a[0]));
        assert(field.push(a[0]) + tail =~= field + a);
        if a[0] == '"' {
            assert(s[0] == '"' && s[1] == '"');
            assert(s.skip(2) =~= doubled(tail) + rest);
        } else {
            assert(s[0] == a[0]);
            assert(s.skip(1) =~= doubled(tail) + rest);
        }
    }
}

/// A field without quotation marks and delimiters is read as it stands; what follows a delimiter is
/// read as a line of its own would be.
pub proof fn law_plain_fields(a: Seq<char>, rest: Seq<char>, delimiter: char)
    requires
        delimiter != '"',
        is_without(a, '"'),
        is_without(a, delimiter),
    ensures
        fields(a, delimiter) == Some(seq![a]),
        fields(a.push(delimiter) + rest, delimiter) == match fields(rest, delimiter) {
            Some(more) => Some(seq![a] + more),
            None => None,
        },
{
    let none = Seq::<char>::empty();
    assert(a + none =~= a);
    assert(none + a =~= a);
    lemma_plain_part(a, none, delimiter, false, none);
    let tail = seq![delimiter] + rest;
    assert(a.push(delimiter) + rest =~= a + tail);
    lemma_plain_part(a, tail, delimiter, false, none);
    assert(tail[0] == delimiter);
    assert(tail.skip(1) =~= rest);
}

/// A field between quotation marks is read as it was before its own marks were doubled, delimiters
/// and all; one whose quotation does not end makes the line unreadable.
pub proof fn law_quoted_fields(a: Seq<char>, rest: Seq<char>, delimiter: char)
    requires
        delimiter != '"',
    ensures
        fields(seq!['"'] + doubled(a) + seq!['"'], delimiter) == Some(seq![a]),
        fields(seq!['"'] + doubled(a) + seq!['"', delimiter] + rest, delimiter) == match fields(
            rest,
            delimiter,
        ) {
            Some(more) => Some(seq![a] + more),
            None => None,
        },
        fields(seq!['"'] + doubled(a), delimiter) is None,
{
    let none = Seq::<char>::empty();
    assert(none + a =~= a);
    // Alone.
    let s = seq!['"'] + doubled(a) + seq!['"'];
    lemma_opened(a, s, seq!['"'], delimiter);
    let end = seq!['"'];
    assert(end.skip(1) =~= none);
    assert(fields_from(end, delimiter, true, a) == Some(seq![a])) by {
        assert(fields_from(end.skip(1), delimiter, false, a) == Some(seq![a]));
    }
    // With more behind it.
    let t = seq!['"'] + doubled(a) + seq!['"', delimiter] + rest;
    let more = seq!['"', delimiter] + rest;
    assert(t =~= seq!['"'] + doubled(a) + more);
    lemma_opened(a, t, more, delimiter);
    assert(more[0] == '"' && more[1] == delimiter);
    let after = more.skip(1);
    assert(fields_from(more, delimiter, true, a) == fields_from(after, delimiter, false, a));
    assert(after[0] == delimiter);
    assert(after.skip(1) =~= rest);
    assert(fields_from(after, delimiter, false, a) == match fields(rest, delimiter) {
        Some(items) => Some(seq![a] + items),
        None => None,
    });
    // Left open.
    let u = seq!['"'] + doubled(a);
    assert(u =~= seq!['"'] + doubled(a) + none);
    lemma_opened(a, u, none, delimiter);
}

proof fn lemma_opened(a: Seq<char>, s: Seq<char>, rest: Seq<char>, delimiter: char)
    requires
        delimiter != '"',
        s == seq!['"'] + doubled(a) + rest,
    ensures
        fields(s, delimiter) == fields_from(rest, delimiter, true, a),
{
    let none = Seq::<char>::empty();
    assert(none + a =~= a);
    assert(s[0] == '"');
    assert(s.skip(1) =~= doubled(a) + rest);
    lemma_doubled_part(a, rest, delimiter, none);
}

/// A value is what stands, without blanks around it, under the first column of that name; a row that
/// is too short, or a file without such a column, has none.
pub proof fn law_value_is_under_its_column(
    columns: Seq<Seq<char>>,
    fields: Seq<Seq<char>>,
    name: Seq<char>,
    k: int,
)
    ensures
        0 <= k < columns.len() && columns[k] == name && (forall|i: int|
            0 <= i < k ==> #[trigger] columns[i] != name) ==> value_of(columns, fields, name) == if k
            < fields.len() {
            Some(text::trimmed(fields[k]))
        } else {
            None
        },
        !columns.contains(name) ==> value_of(columns, fields, name) is None,
{
    lemma_column(columns, name, k);
}

proof fn lemma_column(columns: Seq<Seq<char>>, name: Seq<char>, k: int)
    ensures
        0 <= k < columns.len() && columns[k] == name && (forall|i: int|
            0 <= i < k ==> #[trigger] columns[i] != name) ==> column(columns, name) == Some(k),
        !columns.contains(name) ==> column(columns, name) is None,
    decreases columns.len(),
{
    if columns.len() > 0 {
        let front = columns.drop_last();
        lemma_column(front, name, k);
        assert forall|i: int| 0 <= i < front.len() implies #[trigger] front[i] == columns[i] by {}
        if !columns.contains(name) {
            if front.contains(name) {
                let i = choose|i: int| 0 <= i < front.len() && front[i] == name;
                assert(columns[i] == name);
            }
            assert(columns[columns.len() - 1] != name);
        }
        if k == columns.len() - 1 && (forall|i: int| 0 <= i < k ==> #[trigger] columns[i] != name) {
            if front.contains(name) {
                let i = choose|i: int| 0 <= i < front.len() && front[i] == name;
                assert(columns[i] == name);
            }
        }
    }
}

/// A row with a plausible callsign puts in an entry for it, with the name and the location that the
/// row gives and the time of the import; what stood there before is replaced, and all other entries
/// stay. A row without one is skipped and changes no entry.
pub proof fn law_rows_are_imported(
    import: ImportModel,
    columns: Seq<Seq<char>>,
    fields: Seq<Seq<char>>,
    number: nat,
    now: Instant,
    other: Seq<char>,
)
    requires
        string_map::ordered(import.entries),
    ensures
        ({
            let r = row_read(import, columns, fields, number, now);
            let given = value_of(columns, fields, "call"@);
            let name = value_of(columns, fields, "name"@);
            let state = value_of(columns, fields, "state"@);
            let usable = given matches Some(c) && model::plausible(model::normalized(c));
            let call = model::normalized(given->0);
            &&& r.rows_seen == import.rows_seen
            &&& !usable ==> r.entries == import.entries && r.skipped == import.skipped + 1
                && r.imported == import.imported
            &&& usable ==> {
                &&& r.skipped == import.skipped && r.imported == import.imported + 1
                &&& string_map::lookup(r.entries, call) matches Some(e) && e.call == call
                    && e.imported_at == now && (match name {
                    Some(n) if n.len() > 0 => e.name == Some(n),
                    _ => e.name is None,
                }) && (match state {
                    Some(s) if s.len() > 0 => if text::same_letters(
                        text::trimmed(s),
                        seq!['D', 'X'],
                    ) {
                        e.location == Some(seq!['D', 'X'])
                    } else {
                        e.location == naqp::multiplier_code(text::trimmed(s))
                    },
                    _ => e.location is None,
                })
                &&& other != call ==> string_map::lookup(r.entries, other) == string_map::lookup(
                    import.entries,
                    other,
                )
            }
        }),
{
    reveal_strlit("DX");
    assert("DX"@ =~= seq!['D', 'X']);
    let r = row_read(import, columns, fields, number, now);
    if let Some(call) = call_in(value_of(columns, fields, "call"@)) {
        let stated = filled(value_of(columns, fields, "state"@));
        let entry = EntryModel {
            call,
            name: filled(value_of(columns, fields, "name"@)),
            location: match stated {
                Some(s) => location_of(s),
                None => None,
            },
            imported_at: now,
        };
        string_map::lemma_inserted(import.entries, call, entry);
        assert(r.entries == string_map::inserted(import.entries, call, entry));
        assert(string_map::lookup(import.entries, other) == string_map::lookup(
            import.entries,
            other,
        ));
    }
}

/// A row is warned of once for a number of fields other than that of the columns, once where it has
/// no callsign, once for a state that is none of the contest and once where it replaces an entry;
/// after fifty warnings no more are kept.
pub proof fn law_rows_are_warned_of(
    import: ImportModel,
    columns: Seq<Seq<char>>,
    fields: Seq<Seq<char>>,
    number: nat,
    now: Instant,
)
    requires
        string_map::ordered(import.entries),
    ensures
        ({
            let r = row_read(import, columns, fields, number, now);
            let call = call_in(value_of(columns, fields, "call"@));
            let state = value_of(columns, fields, "state"@);
            let unknown = call is Some && (state matches Some(s) && s.len() > 0 && location_of(s)
                is None);
            let replaced = call is Some && string_map::has_key(import.entries, call->0);
            let warnings = (if fields.len() != columns.len() {
                1int
            } else {
                0int
            }) + (if call is None {
                1int
            } else {
                0int
            }) + (if unknown {
                1int
            } else {
                0int
            }) + (if replaced {
                1int
            } else {
                0int
            });
            &&& import.warnings.len() + warnings <= 50 ==> r.warnings.len() == import.warnings.len()
                + warnings
            &&& import.warnings.len() <= 50 < import.warnings.len() + warnings ==> r.warnings.len()
                == 50
            &&& r.warnings.len() >= import.warnings.len()
            &&& r.warnings.take(import.warnings.len() as int) == import.warnings
        }),
{
}

/// Blank lines, comments and marks other than the header change nothing.
pub proof fn law_other_lines_are_passed_over(
    state: State,
    number: nat,
    line: Seq<char>,
    rest: Seq<char>,
    now: Instant,
)
    ensures
        text::trimmed(line).len() == 0 ==> line_read(state, number, line, now) == Ok::<
            State,
            HistoryFault,
        >(state),
        line_read(state, number, seq!['#'] + rest, now) == Ok::<State, HistoryFault>(state),
        !is_header(seq!['!', '!'] + rest) ==> line_read(state, number, seq!['!', '!'] + rest, now)
            == Ok::<State, HistoryFault>(state),
{
    reveal_strlit("#");
    reveal_strlit("!!");
    assert("#"@ =~= seq!['#']);
    assert("!!"@ =~= seq!['!', '!']);
    let a = seq!['#'] + rest;
    assert(a.take(1) =~= seq!['#']);
    let b = seq!['!', '!'] + rest;
    assert(b.take(2) =~= seq!['!', '!']);
}

/// The header begins with its mark, whatever the case of the letters.
pub proof fn law_header_begins_with_its_mark(mark: Seq<char>, rest: Seq<char>)
    requires
        mark.len() == 9,
    ensures
        is_header(mark + rest) <==> text::same_letters(
            mark,
            seq!['!', '!', 'O', 'r', 'd', 'e', 'r', '!', '!'],
        ),
{
    reveal_strlit("!!Order!!");
    assert("!!Order!!"@ =~= seq!['!', '!', 'O', 'r', 'd', 'e', 'r', '!', '!']);
    assert((mark + rest).take(9) =~= mark);
}

/// The delimiter of a header is the semicolon where it has more of them than commas, and the comma
/// where it does not.
pub proof fn law_delimiter_is_the_more_frequent(line: Seq<char>)
    ensures
        text::occurrences(line, ';') > text::occurrences(line, ',') ==> delimiter_of(line) == ';',
        text::occurrences(line, ';') <= text::occurrences(line, ',') ==> delimiter_of(line) == ',',
{
}

/// A header that can be read names the columns by its fields after the first, in small letters and
/// without blanks around them, and has to name one for the callsign. What was imported before stays.
pub proof fn law_header_names_the_columns(
    state: State,
    number: nat,
    line: Seq<char>,
    now: Instant,
    i: int,
)
    requires
        is_header(line),
        !text::starts_with(line, "#"@),
        text::trimmed(line).len() > 0,
    ensures
        ({
            let f = fields(line, delimiter_of(line));
            let names_call = exists|j: int|
                0 < j < f->0.len() && text::lower(text::trimmed(#[trigger] f->0[j])) == "call"@;
            let r = line_read(state, number, line, now);
            &&& f is None ==> r == Err::<State, HistoryFault>(HistoryFault::MalformedHeader(number))
            &&& f is Some && f->0.len() > 0 && !names_call ==> r == Err::<State, HistoryFault>(
                HistoryFault::NoCallColumn(number),
            )
            &&& f is Some && f->0.len() > 0 && names_call ==> {
                &&& r is Ok
                &&& r->Ok_0.import == state.import
                &&& r->Ok_0.delimiter == delimiter_of(line)
                &&& r->Ok_0.columns is Some
                &&& r->Ok_0.columns->0.len() == f->0.len() - 1
                &&& 0 < i < f->0.len() ==> r->Ok_0.columns->0[i - 1] == text::lower(
                    text::trimmed(f->0[i]),
                )
            }
        }),
{
    let delimiter = delimiter_of(line);
    if let Some(f) = fields(line, delimiter) {
        let names = column_names(f);
        if f.len() > 0 {
            if names.contains("call"@) {
                let k = choose|k: int| 0 <= k < names.len() && names[k] == "call"@;
                assert(text::lower(text::trimmed(f[k + 1])) == "call"@);
            }
            if exists|j: int|
                0 < j < f.len() && text::lower(text::trimmed(#[trigger] f[j])) == "call"@ {
                let j = choose|j: int|
                    0 < j < f.len() && text::lower(text::trimmed(#[trigger] f[j])) == "call"@;
                assert(names[j - 1] == "call"@);
            }
        }
    }
}

/// Any other line is a row: before a header it makes the file unusable, after one it is counted, and
/// skipped where its quotation does not end.
pub proof fn law_other_lines_are_rows(state: State, number: nat, line: Seq<char>, now: Instant)
    requires
        text::trimmed(line).len() > 0,
        !text::starts_with(line, seq!['#']),
        !text::starts_with(line, seq!['!', '!']),
        !is_header(line),
    ensures
        ({
            let r = line_read(state, number, line, now);
            &&& state.columns is None ==> r == Err::<State, HistoryFault>(
                HistoryFault::DataBeforeHeader(number),
            )
            &&& state.columns is Some ==> {
                &&& r is Ok
                &&& r->Ok_0.columns == state.columns
                &&& r->Ok_0.delimiter == state.delimiter
                &&& r->Ok_0.import.rows_seen == state.import.rows_seen + 1
                &&& match fields(line, state.delimiter) {
                    Some(f) => r->Ok_0.import == row_read(
                        (ImportModel { rows_seen: state.import.rows_seen + 1, ..state.import }),
                        state.columns->0,
                        f,
                        number,
                        now,
                    ),
                    None => {
                        &&& r->Ok_0.import.skipped == state.import.skipped + 1
                        &&& r->Ok_0.import.imported == state.import.imported
                        &&& r->Ok_0.import.entries == state.import.entries
                        &&& state.import.warnings.len() < 50 ==> r->Ok_0.import.warnings.len()
                            == state.import.warnings.len() + 1
                    },
                }
            }
        }),
{
    reveal_strlit("#");
    reveal_strlit("!!");
    assert("#"@ =~= seq!['#']);
    assert("!!"@ =~= seq!['!', '!']);
}

/// Carriage returns at the end of a line do not matter.
pub proof fn law_carriage_returns_do_not_matter(
    lines: Seq<Seq<char>>,
    i: int,
    n: nat,
    now: Instant,
)
    requires
        0 <= i < lines.len(),
        n <= lines.len(),
    ensures
        lines_read(lines.update(i, lines[i].push('\r')), n, now) == lines_read(lines, n, now),
    decreases n,
{
    if n > 0 {
        law_carriage_returns_do_not_matter(lines, i, (n - 1) as nat, now);
        let s = lines[i].push('\r');
        assert(s.drop_last() =~= lines[i]);
        assert(text::strip_end(s, CharClass::Is('\r')) == text::strip_end(
            lines[i],
            CharClass::Is('\r'),
        ));
    }
}

/// A byte order mark at the beginning of the file does not matter.
pub proof fn law_byte_order_mark_does_not_matter(content: Seq<char>, now: Instant)
    ensures
        import_of_text(seq!['\u{feff}'] + content, now) == import_of_text(content, now),
{
    let s = seq!['\u{feff}'] + content;
    assert(s.skip(1) =~= content);
    assert(s[0] == '\u{feff}');
}

/// Lines are counted from one: where the first `k` are blank and the next is a row, that line is at
/// fault; and a file of blank lines has no header.
pub proof fn law_lines_are_counted(lines: Seq<Seq<char>>, k: nat, now: Instant)
    requires
        k <= lines.len(),
        forall|i: int|
            0 <= i < k ==> text::trimmed(
                text::strip_end(#[trigger] lines[i], CharClass::Is('\r')),
            ).len() == 0,
    ensures
        lines_read(lines, k, now) is Ok,
        lines_read(lines, k, now)->Ok_0.columns is None,
        lines_read(lines, k, now)->Ok_0.import.entries.len() == 0,
        lines_read(lines, k, now)->Ok_0.import.rows_seen == 0,
        k < lines.len() ==> ({
            let line = text::strip_end(lines[k as int], CharClass::Is('\r'));
            text::trimmed(line).len() > 0 && !text::starts_with(line, seq!['#'])
                && !text::starts_with(line, seq!['!', '!']) && !is_header(line) ==> lines_read(
                lines,
                k + 1,
                now,
            ) == Err::<State, HistoryFault>(HistoryFault::DataBeforeHeader(k + 1))
        }),
    decreases k,
{
    if k > 0 {
        law_lines_are_counted(lines, (k - 1) as nat, now);
        assert(text::trimmed(text::strip_end(lines[k - 1], CharClass::Is('\r'))).len() == 0);
    }
    if k < lines.len() {
        let line = text::strip_end(lines[k as int], CharClass::Is('\r'));
        if text::trimmed(line).len() > 0 && !text::starts_with(line, seq!['#'])
            && !text::starts_with(line, seq!['!', '!']) && !is_header(line) {
            law_other_lines_are_rows(lines_read(lines, k, now)->Ok_0, k + 1, line, now);
        }
    }
}

} // verus!
