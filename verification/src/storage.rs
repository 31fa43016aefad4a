//! The last good state of the log, as it is kept from one run to the next.
use vstd::prelude::*;

use crate::adif;
use crate::adif::ImportDiagnostics;
use crate::log_source::Log;
use crate::log_source::LogSourceKind;
use crate::model::DiagnosticModel;
use crate::model::QsoModel;
use crate::model::RecordDiagnostic;
use crate::numbers;
use crate::string_map;
use crate::text;
use crate::time;
use crate::time::Instant;
use crate::time::Timestamp;

verus! {

/// The version of the form in which the state is kept.
pub const STATE_VERSION: u8 = 1;

/// What is kept: the log with its deleted contacts, where it comes from, and what importing it
/// brought up. It holds no credentials and no spots.
pub struct PersistedState {
    pub version: u8,
    pub qsos: Log,
    pub selected_operation: Option<String>,
    pub source_kind: Option<LogSourceKind>,
    pub source: String,
    pub source_freshness: Option<Timestamp>,
    pub import_diagnostics: ImportDiagnostics,
    pub source_diagnostics: Vec<RecordDiagnostic>,
}

/// The model of a state.
#[verifier::ext_equal]
pub struct StateModel {
    pub version: u8,
    pub qsos: Seq<(Seq<char>, QsoModel)>,
    pub selected_operation: Option<Seq<char>>,
    pub source_kind: Option<LogSourceKind>,
    pub source: Seq<char>,
    pub source_freshness: Option<Instant>,
    pub import_diagnostics: adif::ImportModel,
    pub source_diagnostics: Seq<DiagnosticModel>,
}

impl View for PersistedState {
    type V = StateModel;

    open spec fn view(&self) -> StateModel {
        StateModel {
            version: self.version,
            qsos: self.qsos@,
            selected_operation: text::opt_text(self.selected_operation),
            source_kind: self.source_kind,
            source: self.source@,
            source_freshness: time::opt_time(self.source_freshness),
            import_diagnostics: self.import_diagnostics@,
            source_diagnostics: string_map::views(self.source_diagnostics@),
        }
    }
}

/// A state of a version that is not supported.
#[derive(Debug, Clone, Copy, PartialEq, Eq, Structural)]
pub struct UnsupportedVersion {
    pub version: u8,
}

impl UnsupportedVersion {
    pub fn message(self) -> (r: String)
        ensures
            r@ == "unsupported last-good state version "@ + numbers::decimal(self.version as nat),
    {
        let mut out = text::owned("unsupported last-good state version ");
        numbers::push_decimal(&mut out, self.version as u64);
        out
    }
}

impl PersistedState {
    pub fn new(
        qsos: Log,
        selected_operation: Option<String>,
        source_kind: Option<LogSourceKind>,
        source: String,
        source_freshness: Option<Timestamp>,
        import_diagnostics: ImportDiagnostics,
        source_diagnostics: Vec<RecordDiagnostic>,
    ) -> (r: Self)
        ensures
            r.version == STATE_VERSION,
            r.qsos == qsos,
            r.selected_operation == selected_operation,
            r.source_kind == source_kind,
            r.source == source,
            r.source_freshness == source_freshness,
            r.import_diagnostics == import_diagnostics,
            r.source_diagnostics == source_diagnostics,
    {
        PersistedState {
            version: STATE_VERSION,
            qsos,
            selected_operation,
            source_kind,
            source,
            source_freshness,
            import_diagnostics,
            source_diagnostics,
        }
    }

    /// A state that was read back: it is as it was written where its version is supported, and
    /// refused where it is not.
    pub fn restored(self) -> (r: Result<Self, UnsupportedVersion>)
        ensures
            match r {
                Ok(state) => self.version == STATE_VERSION && state == self,
                Err(e) => self.version != STATE_VERSION && e.version == self.version,
            },
    {
        if self.version == STATE_VERSION {
            Ok(self)
        } else {
            Err(UnsupportedVersion { version: self.version })
        }
    }
}

/// States are kept in the first version of their form.
pub proof fn law_version_of_states()
    ensures
        STATE_VERSION == 1,
{
}

} // verus!
