//! The state behind the dashboard, and what happens to it.
use vstd::prelude::*;

use crate::adif;
use crate::adif::AdifError;
use crate::adif::AdifFault;
use crate::adif::ImportDiagnostics;
use crate::log_source::Log;
use crate::log_source::LogSourceKind;
use crate::matrix;
use crate::matrix::MatrixRow;
use crate::model::Band;
use crate::model::DiagnosticModel;
use crate::model::Operation;
use crate::model::OperationModel;
use crate::model::Qso;
use crate::model::QsoModel;
use crate::model::RecordDiagnostic;
use crate::model::Spot;
use crate::model::SpotModel;
use crate::naqp;
use crate::naqp::Score;
use crate::rbn::ConnectionState;
use crate::rbn::RawModel;
use crate::rbn::RawSpot;
use crate::sort;
use crate::sort::PartModel;
use crate::sort::RankPart;
use crate::spots;
use crate::spots::SpotLimits;
use crate::storage;
use crate::storage::PersistedState;
use crate::storage::StateModel;
use crate::string_map;
use crate::string_map::Duplicate;
use crate::string_map::StringMap;
use crate::text;
use crate::time;
use crate::time::Instant;
use crate::time::Timestamp;

verus! {

/// Why the feed cannot be used as it is configured.
#[derive(Debug, Clone, Copy, PartialEq, Eq, Structural)]
pub struct LoginCallRequired;

impl LoginCallRequired {
    pub fn message(self) -> (r: String)
        ensures
            r@
                == "a login callsign is required when RBN is enabled; pass --call <CALL> or disable RBN with --no-rbn"@,
    {
        text::owned(
            "a login callsign is required when RBN is enabled; pass --call <CALL> or disable RBN with --no-rbn",
        )
    }
}

/// The feed needs a callsign to log in with, unless it is not used.
pub fn validate_rbn_config(no_rbn: bool, call: Option<&str>) -> (r: Result<(), LoginCallRequired>)
    ensures
        r is Ok <==> no_rbn || (text::opt_str(call) matches Some(c) && text::trimmed(c).len() > 0),
{
    let named = match call {
        Some(c) => !text::is_blank(c),
        None => false,
    };
    if no_rbn || named {
        Ok(())
    } else {
        Err(LoginCallRequired)
    }
}

/// The state behind the dashboard.
pub struct Runtime {
    pub qsos: Log,
    pub spots: Vec<Spot>,
    pub operations: Vec<Operation>,
    pub selected_operation: Option<String>,
    pub source: String,
    pub source_kind: Option<LogSourceKind>,
    pub source_freshness: Option<Timestamp>,
    pub lofi_status: String,
    pub lofi_account_call: Option<String>,
    pub import_diagnostics: ImportDiagnostics,
    pub source_diagnostics: Vec<RecordDiagnostic>,
    pub spot_status: String,
    pub spots_enabled: bool,
    pub spot_limits: SpotLimits,
    pub demo: bool,
}

/// The model of the state.
#[verifier::ext_equal]
pub struct RuntimeModel {
    pub qsos: Seq<(Seq<char>, QsoModel)>,
    pub spots: Seq<SpotModel>,
    pub operations: Seq<OperationModel>,
    pub selected_operation: Option<Seq<char>>,
    pub source: Seq<char>,
    pub source_kind: Option<LogSourceKind>,
    pub source_freshness: Option<Instant>,
    pub lofi_status: Seq<char>,
    pub lofi_account_call: Option<Seq<char>>,
    pub import_diagnostics: adif::ImportModel,
    pub source_diagnostics: Seq<DiagnosticModel>,
    pub spot_status: Seq<char>,
    pub spots_enabled: bool,
    pub spot_limits: SpotLimits,
    pub demo: bool,
}

impl View for Runtime {
    type V = RuntimeModel;

    open spec fn view(&self) -> RuntimeModel {
        RuntimeModel {
            qsos: self.qsos@,
            spots: string_map::views(self.spots@),
            operations: string_map::views(self.operations@),
            selected_operation: text::opt_text(self.selected_operation),
            source: self.source@,
            source_kind: self.source_kind,
            source_freshness: time::opt_time(self.source_freshness),
            lofi_status: self.lofi_status@,
            lofi_account_call: text::opt_text(self.lofi_account_call),
            import_diagnostics: self.import_diagnostics@,
            source_diagnostics: string_map::views(self.source_diagnostics@),
            spot_status: self.spot_status@,
            spots_enabled: self.spots_enabled,
            spot_limits: self.spot_limits,
            demo: self.demo,
        }
    }
}

/// The limits of spots where none are configured.
pub open spec fn usual_limits() -> SpotLimits {
    SpotLimits { max_age: 600, window: 90, tolerance: None, capacity: 200 }
}

pub open spec fn first_spot_status(spots_enabled: bool) -> Seq<char> {
    if spots_enabled {
        "starting"@
    } else {
        "disabled — Single Operator safe"@
    }
}

/// The state at the start: that of the last good log where there is one, empty where there is
/// none.
pub open spec fn started(spots_enabled: bool, restored: Option<StateModel>) -> RuntimeModel {
    let empty = RuntimeModel {
        qsos: Seq::empty(),
        spots: Seq::empty(),
        operations: Seq::empty(),
        selected_operation: None,
        source: "Waiting for PoLo data"@,
        source_kind: None,
        source_freshness: None,
        lofi_status: "starting LoFi client registration"@,
        lofi_account_call: None,
        import_diagnostics: adif::no_import(),
        source_diagnostics: Seq::empty(),
        spot_status: first_spot_status(spots_enabled),
        spots_enabled,
        spot_limits: usual_limits(),
        demo: false,
    };
    match restored {
        None => empty,
        Some(state) => RuntimeModel {
            qsos: state.qsos,
            selected_operation: state.selected_operation,
            source: "Restored last-good: "@ + state.source,
            source_kind: state.source_kind,
            source_freshness: state.source_freshness,
            import_diagnostics: state.import_diagnostics,
            source_diagnostics: state.source_diagnostics,
            ..empty
        },
    }
}

pub open spec fn state_in(restored: Option<PersistedState>) -> Option<StateModel> {
    match restored {
        Some(state) => Some(state@),
        None => None,
    }
}

impl Runtime {
    pub fn normal(spots_enabled: bool, restored: Option<PersistedState>) -> (r: Self)
        ensures
            r@ == started(spots_enabled, state_in(restored)),
    {
        let spot_status = if spots_enabled {
            text::owned("starting")
        } else {
            text::owned("disabled — Single Operator safe")
        };
        let spots: Vec<Spot> = Vec::new();
        let operations: Vec<Operation> = Vec::new();
        let lofi_status = text::owned("starting LoFi client registration");
        assert(string_map::views(spots@) =~= Seq::empty());
        assert(string_map::views(operations@) =~= Seq::empty());
        match restored {
            Some(state) => Runtime {
                qsos: state.qsos,
                spots,
                operations,
                selected_operation: state.selected_operation,
                source: text::joined("Restored last-good: ", state.source.as_str()),
                source_kind: state.source_kind,
                source_freshness: state.source_freshness,
                lofi_status,
                lofi_account_call: None,
                import_diagnostics: state.import_diagnostics,
                source_diagnostics: state.source_diagnostics,
                spot_status,
                spots_enabled,
                spot_limits: SpotLimits::default(),
                demo: false,
            },
            None => {
                let source_diagnostics: Vec<RecordDiagnostic> = Vec::new();
                assert(string_map::views(source_diagnostics@) =~= Seq::empty());
                Runtime {
                    qsos: StringMap::new(),
                    spots,
                    operations,
                    selected_operation: None,
                    source: text::owned("Waiting for PoLo data"),
                    source_kind: None,
                    source_freshness: None,
                    lofi_status,
                    lofi_account_call: None,
                    import_diagnostics: ImportDiagnostics::default(),
                    source_diagnostics,
                    spot_status,
                    spots_enabled,
                    spot_limits: SpotLimits::default(),
                    demo: false,
                }
            },
        }
    }

    /// What is to be kept of a log that a source has just brought.
    pub fn persisted(
        &self,
        qsos: Log,
        source_kind: LogSourceKind,
        source: String,
        source_freshness: Timestamp,
        source_diagnostics: Vec<RecordDiagnostic>,
    ) -> (r: PersistedState)
        ensures
            r@ == (StateModel {
                version: storage::STATE_VERSION,
                qsos: qsos@,
                selected_operation: self@.selected_operation,
                source_kind: Some(source_kind),
                source: source@,
                source_freshness: Some(source_freshness@),
                import_diagnostics: self@.import_diagnostics,
                source_diagnostics: string_map::views(source_diagnostics@),
            }),
    {
        PersistedState::new(
            qsos,
            text::copy_opt(&self.selected_operation),
            Some(source_kind),
            source,
            Some(source_freshness),
            self.import_diagnostics.duplicate(),
            source_diagnostics,
        )
    }
}

/// Starting from what was kept brings back the log, its source and its diagnostics.
pub proof fn law_restart_keeps_the_log(spots_enabled: bool, state: StateModel)
    ensures
        ({
            let m = started(spots_enabled, Some(state));
            &&& m.qsos == state.qsos
            &&& m.selected_operation == state.selected_operation
            &&& m.source_kind == state.source_kind
            &&& m.source_freshness == state.source_freshness
            &&& m.import_diagnostics == state.import_diagnostics
            &&& m.source_diagnostics == state.source_diagnostics
            &&& naqp::score_of(string_map::values(m.qsos)) == naqp::score_of(
                string_map::values(state.qsos),
            )
        }),
{
}

// ---------------------------------------------------------------------------------------------
// Spots
// ---------------------------------------------------------------------------------------------
/// The state after the connection to the feed has changed.
pub open spec fn with_connection(
    m: RuntimeModel,
    state: ConnectionState,
    message: Seq<char>,
) -> RuntimeModel {
    RuntimeModel {
        spot_status: message,
        spots: if state == ConnectionState::Degraded || state == ConnectionState::Disconnected {
            spots::all_stale(m.spots)
        } else {
            m.spots
        },
        ..m
    }
}

pub fn update_cluster_status(runtime: &mut Runtime, state: ConnectionState, message: String)
    ensures
        final(runtime)@ == with_connection(old(runtime)@, state, message@),
{
    runtime.spot_status = message;
    if state.candidates_are_stale() {
        let marked = spots::mark_stale(&runtime.spots);
        runtime.spots = marked;
    }
}

/// Takes a report of the feed into the spots.
pub fn merge_spot(runtime: &mut Runtime, raw: &RawSpot)
    ensures
        final(runtime)@ == (RuntimeModel {
            spots: spots::with_report(
                old(runtime)@.spots,
                old(runtime)@.qsos,
                raw@,
                old(runtime)@.spot_limits,
            ),
            ..old(runtime)@
        }),
{
    let merged = spots::merge_report(&runtime.spots, &runtime.qsos, raw, runtime.spot_limits);
    runtime.spots = merged;
}

// ---------------------------------------------------------------------------------------------
// Imports
// ---------------------------------------------------------------------------------------------
/// An import that was read but has not taken effect: it is kept first.
pub struct ImportPlan {
    pub qsos: Log,
    pub diagnostics: ImportDiagnostics,
    pub freshness: Timestamp,
}

/// The log that an import adds to: that of the demonstration is none.
pub open spec fn import_base(m: RuntimeModel) -> Seq<(Seq<char>, QsoModel)> {
    if m.demo {
        Seq::empty()
    } else {
        m.qsos
    }
}

/// The state after an import.
pub open spec fn with_import(
    m: RuntimeModel,
    qsos: Seq<(Seq<char>, QsoModel)>,
    diagnostics: adif::ImportModel,
    freshness: Instant,
) -> RuntimeModel {
    RuntimeModel {
        qsos,
        spots: if m.demo {
            Seq::empty()
        } else {
            m.spots
        },
        selected_operation: None,
        import_diagnostics: diagnostics,
        source_diagnostics: Seq::empty(),
        source: "PoLo ADIF snapshot"@,
        source_kind: Some(LogSourceKind::Adif),
        source_freshness: Some(freshness),
        demo: false,
        ..m
    }
}

/// What is kept of an import.
pub open spec fn kept_import(
    qsos: Seq<(Seq<char>, QsoModel)>,
    diagnostics: adif::ImportModel,
    freshness: Instant,
) -> StateModel {
    StateModel {
        version: storage::STATE_VERSION,
        qsos,
        selected_operation: None,
        source_kind: Some(LogSourceKind::Adif),
        source: "PoLo ADIF snapshot"@,
        source_freshness: Some(freshness),
        import_diagnostics: diagnostics,
        source_diagnostics: Seq::empty(),
    }
}

impl Runtime {
    /// Reads a file that is to be imported. Nothing changes yet.
    pub fn plan_import(&self, file: &[u8], now: Timestamp) -> (r: Result<ImportPlan, AdifError>)
        ensures
            match r {
                Ok(plan) => adif::records_of(file@) matches Ok(records) && plan.qsos@
                    == adif::imported_log(import_base(self@), file@) && plan.diagnostics@
                    == adif::import_report(import_base(self@), records) && plan.freshness@ == now@,
                Err(e) => adif::records_of(file@) == Err::<Seq<adif::RecordModel>, AdifFault>(e@),
            },
    {
        let mut qsos: Log = if self.demo {
            StringMap::new()
        } else {
            self.qsos.duplicate()
        };
        match adif::import_snapshot(file, &mut qsos) {
            Ok(diagnostics) => Ok(ImportPlan { qsos, diagnostics, freshness: now }),
            Err(e) => Err(e),
        }
    }

    /// Lets an import take effect, once it is kept.
    pub fn commit_import(&mut self, plan: ImportPlan)
        ensures
            final(self)@ == with_import(
                old(self)@,
                plan.qsos@,
                plan.diagnostics@,
                plan.freshness@,
            ),
    {
        if self.demo {
            self.spots = Vec::new();
        }
        self.qsos = plan.qsos;
        self.selected_operation = None;
        self.import_diagnostics = plan.diagnostics;
        self.source_diagnostics = Vec::new();
        self.source = text::owned("PoLo ADIF snapshot");
        self.source_kind = Some(LogSourceKind::Adif);
        self.source_freshness = Some(plan.freshness);
        self.demo = false;
        assert(self@ =~= with_import(old(self)@, plan.qsos@, plan.diagnostics@, plan.freshness@));
    }
}

impl ImportPlan {
    /// What is to be kept of the import.
    pub fn persisted(&self) -> (r: PersistedState)
        ensures
            r@ == kept_import(self.qsos@, self.diagnostics@, self.freshness@),
    {
        let none: Vec<RecordDiagnostic> = Vec::new();
        assert(string_map::views(none@) =~= Seq::empty());
        PersistedState::new(
            self.qsos.duplicate(),
            None,
            Some(LogSourceKind::Adif),
            text::owned("PoLo ADIF snapshot"),
            Some(self.freshness),
            self.diagnostics.duplicate(),
            none,
        )
    }
}

/// What is kept of an import is what the dashboard shows after it: a restart brings back the log,
/// the diagnostics and the time of the import.
pub proof fn law_import_survives_a_restart(
    m: RuntimeModel,
    qsos: Seq<(Seq<char>, QsoModel)>,
    diagnostics: adif::ImportModel,
    freshness: Instant,
    spots_enabled: bool,
)
    ensures
        ({
            let shown = with_import(m, qsos, diagnostics, freshness);
            let kept = kept_import(qsos, diagnostics, freshness);
            let again = started(spots_enabled, Some(kept));
            &&& again.qsos == shown.qsos
            &&& again.selected_operation == shown.selected_operation
            &&& again.source_kind == shown.source_kind
            &&& again.source_freshness == shown.source_freshness
            &&& again.import_diagnostics == shown.import_diagnostics
            &&& again.source_diagnostics == shown.source_diagnostics
            &&& again.demo == shown.demo
        }),
{
}

// ---------------------------------------------------------------------------------------------
// Choices of the operator
// ---------------------------------------------------------------------------------------------
/// One of the operations is called `id`.
pub open spec fn has_operation(operations: Seq<OperationModel>, id: Seq<char>) -> bool {
    exists|i: int| 0 <= i < operations.len() && (#[trigger] operations[i]).id == id
}

pub fn operation_is_known(operations: &Vec<Operation>, id: &str) -> (r: bool)
    ensures
        r == has_operation(string_map::views(operations@), id@),
{
    let ghost all = string_map::views(operations@);
    let mut i: usize = 0;
    while i < operations.len()
        invariant
            i <= operations@.len(),
            all == string_map::views(operations@),
            forall|j: int| 0 <= j < i ==> (#[trigger] all[j]).id != id@,
        decreases operations.len() - i,
    {
        assert(all[i as int] == operations@[i as int]@);
        if text::same(operations[i].id.as_str(), id) {
            return true;
        }
        i = i + 1;
    }
    false
}

/// The state after an operation was chosen.
pub open spec fn with_selection(m: RuntimeModel, id: Seq<char>) -> RuntimeModel {
    RuntimeModel {
        selected_operation: Some(id),
        source: "Last-good data retained; synchronizing selected LoFi operation"@,
        ..m
    }
}

impl Runtime {
    /// Chooses an operation; the log stays as it is until that of the operation is there. Returns
    /// whether there is such an operation.
    pub fn select_operation(&mut self, id: &str) -> (r: bool)
        ensures
            r == has_operation(old(self)@.operations, id@),
            final(self)@ == if r {
                with_selection(old(self)@, id@)
            } else {
                old(self)@
            },
    {
        if !operation_is_known(&self.operations, id) {
            return false;
        }
        self.selected_operation = Some(text::owned(id));
        self.source = text::owned(
            "Last-good data retained; synchronizing selected LoFi operation",
        );
        true
    }

    /// Notes that the link to an account was sent.
    pub fn mark_link_sent(&mut self)
        ensures
            final(self)@ == (RuntimeModel {
                lofi_status:
                    "verification email sent; open it, then this page will link automatically"@,
                ..old(self)@
            }),
    {
        self.lofi_status = text::owned(
            "verification email sent; open it, then this page will link automatically",
        );
    }
}

/// Whether an address could be one for mail: it has an `@` and no more than 254 bytes.
pub fn email_is_acceptable(email: &str) -> (r: bool)
    ensures
        r == (email@.contains('@') && vstd::utf8::encode_utf8(email@).len() <= 254),
{
    text::contains_char(email, '@') && email.as_bytes().len() <= 254
}

// ---------------------------------------------------------------------------------------------
// What the dashboard shows
// ---------------------------------------------------------------------------------------------
/// The contest.
#[derive(Debug)]
pub struct Contest {
    pub name: &'static str,
    pub starts_at: Timestamp,
    pub ends_at: Timestamp,
    pub maximum_operating_minutes: i64,
}

/// What the dashboard shows.
pub struct PublicState {
    pub api_version: u8,
    pub generated_at: Timestamp,
    pub contest: Contest,
    pub score: Score,
    pub matrix: Vec<MatrixRow>,
    pub spots: Vec<Spot>,
    pub operations: Vec<Operation>,
    pub selected_operation: Option<String>,
    pub source: String,
    pub source_kind: Option<LogSourceKind>,
    pub source_freshness: Option<Timestamp>,
    pub lofi_status: String,
    pub lofi_linked: bool,
    pub lofi_account_call: Option<String>,
    pub import_diagnostics: ImportDiagnostics,
    pub source_diagnostics: Vec<RecordDiagnostic>,
    pub spot_status: String,
    pub spots_enabled: bool,
    pub assisted_warning: Option<&'static str>,
    pub demo: bool,
    pub current_band: Option<Band>,
}

/// The newest of `contacts` that was not deleted; of several the last.
pub open spec fn newest(contacts: Seq<QsoModel>) -> Option<QsoModel>
    decreases contacts.len(),
{
    if contacts.len() == 0 {
        None
    } else {
        let before = newest(contacts.drop_last());
        let q = contacts.last();
        if q.deleted {
            before
        } else {
            match before {
                Some(b) => if time::no_later(b.timestamp, q.timestamp) {
                    Some(q)
                } else {
                    Some(b)
                },
                None => Some(q),
            }
        }
    }
}

/// The band of the newest contact.
pub open spec fn band_in_use(log: Seq<(Seq<char>, QsoModel)>) -> Option<Band> {
    match newest(string_map::values(log)) {
        Some(q) => q.band,
        None => None,
    }
}

/// The newest spot comes first.
pub open spec fn spot_rank(s: SpotModel) -> Seq<PartModel> {
    seq![PartModel::Number(-s.time.second), PartModel::Number(-s.time.nanos)]
}

pub open spec fn with_spot_ranks(s: Seq<SpotModel>) -> Seq<(Seq<PartModel>, SpotModel)> {
    Seq::new(s.len(), |i: int| (spot_rank(s[i]), s[i]))
}

/// The spots of the last ten minutes, the newest first.
pub open spec fn shown_spots(s: Seq<SpotModel>, now: Instant) -> Seq<SpotModel> {
    sort::unranked(sort::sorted(with_spot_ranks(spots::not_aged(s, now, 600))))
}

/// The warning while spots are enabled.
pub open spec fn spots_warning(enabled: bool) -> Option<Seq<char>> {
    if enabled {
        Some(
            "Live spots/skimmers are prohibited for Single Operator. Keep them enabled only if entering Single Operator Assisted."@,
        )
    } else {
        None
    }
}

/// The contacts of a log, in the order of their identifiers.
pub fn contacts_of(log: &Log) -> (r: Vec<Qso>)
    ensures
        string_map::views(r@) == string_map::values(log@),
{
    let mut out: Vec<Qso> = Vec::new();
    let mut i: usize = 0;
    while i < log.len()
        invariant
            i <= log@.len(),
            out@.len() == i,
            forall|j: int| 0 <= j < i ==> (#[trigger] out@[j])@ == log@[j].1,
        decreases log@.len() - i,
    {
        let copy = log.value(i).duplicate();
        out.push(copy);
        i = i + 1;
    }
    assert(string_map::views(out@) =~= string_map::values(log@));
    out
}

fn find_band_in_use(log: &Log) -> (r: Option<Band>)
    ensures
        r == band_in_use(log@),
{
    let ghost all = string_map::values(log@);
    let mut best: Option<usize> = None;
    let mut i: usize = 0;
    assert(all.take(0) =~= Seq::empty());
    while i < log.len()
        invariant
            i <= log@.len(),
            all == string_map::values(log@),
            best matches Some(b) ==> b < i,
            newest(all.take(i as int)) == match best {
                Some(b) => Some(all[b as int]),
                None => None,
            },
        decreases log@.len() - i,
    {
        assert(all.take(i + 1).drop_last() =~= all.take(i as int));
        assert(all.take(i + 1).last() == log@[i as int].1);
        let q = log.value(i);
        if !q.deleted {
            best = match best {
                Some(b) => if log.value(b).timestamp.not_after(q.timestamp) {
                    Some(i)
                } else {
                    Some(b)
                },
                None => Some(i),
            };
        }
        i = i + 1;
    }
    assert(all.take(all.len() as int) =~= all);
    match best {
        Some(b) => log.value(b).band,
        None => None,
    }
}

fn show_spots(s: &Vec<Spot>, now: Timestamp) -> (r: Vec<Spot>)
    ensures
        string_map::views(r@) == shown_spots(string_map::views(s@), now@),
{
    let items = spots::drop_aged(s, now, 600);
    let ghost models = string_map::views(items@);
    let mut ranks: Vec<Vec<RankPart>> = Vec::new();
    let mut i: usize = 0;
    while i < items.len()
        invariant
            i <= items@.len(),
            models == string_map::views(items@),
            ranks@.len() == i,
            forall|j: int|
                0 <= j < i ==> sort::rank_model((#[trigger] ranks@[j])@) == spot_rank(models[j]),
        decreases items.len() - i,
    {
        let at: (i64, u32) = items[i].time.parts();
        let second: i128 = -(at.0 as i128);
        let nanos: i128 = -(at.1 as i128);
        let rank = vec![RankPart::Number(second), RankPart::Number(nanos)];
        assert(models[i as int] == items@[i as int]@);
        assert(sort::rank_model(rank@) =~= spot_rank(models[i as int]));
        ranks.push(rank);
        i = i + 1;
    }
    assert(sort::ranked(sort::rank_models(ranks@), models) =~= with_spot_ranks(models));
    sort::sort_by(ranks, items)
}

impl Runtime {
    /// What the dashboard shows at `now`.
    pub fn public(&self, now: Timestamp) -> (r: PublicState)
        ensures
            r.api_version == 1,
            r.generated_at@ == now@,
            r.contest.name@ == "NAQP CW — August 2026"@,
            r.contest.starts_at@ == time::regular(
                time::CONTEST_START_SECOND * 1_000_000_000,
            ),
            r.contest.ends_at@ == time::regular(time::CONTEST_END_SECOND * 1_000_000_000),
            r.contest.maximum_operating_minutes == 600,
            r.score@ == naqp::score_of(string_map::values(self@.qsos)),
            string_map::views(r.matrix@) == matrix::matrix_of(
                naqp::score_of(string_map::values(self@.qsos)).multiplier_rows,
                string_map::values(self@.qsos),
                shown_spots(self@.spots, now@),
            ),
            string_map::views(r.spots@) == shown_spots(self@.spots, now@),
            string_map::views(r.operations@) == self@.operations,
            text::opt_text(r.selected_operation) == self@.selected_operation,
            r.source@ == self@.source,
            r.source_kind == self@.source_kind,
            time::opt_time(r.source_freshness) == self@.source_freshness,
            r.lofi_status@ == self@.lofi_status,
            r.lofi_linked == (self@.lofi_account_call is Some),
            text::opt_text(r.lofi_account_call) == self@.lofi_account_call,
            r.import_diagnostics@ == self@.import_diagnostics,
            string_map::views(r.source_diagnostics@) == self@.source_diagnostics,
            r.spot_status@ == self@.spot_status,
            r.spots_enabled == self@.spots_enabled,
            text::opt_str(r.assisted_warning) == spots_warning(self@.spots_enabled),
            r.demo == self@.demo,
            r.current_band == band_in_use(self@.qsos),
    {
        let contacts = contacts_of(&self.qsos);
        let score = naqp::score(&contacts);
        let spots = show_spots(&self.spots, now);
        let matrix = matrix::build(&score.multiplier_rows, &contacts, &spots);
        PublicState {
            api_version: 1,
            generated_at: now,
            contest: Contest {
                name: "NAQP CW — August 2026",
                starts_at: time::contest_start(),
                ends_at: time::contest_end(),
                maximum_operating_minutes: 600,
            },
            score,
            matrix,
            spots,
            operations: string_map::copy_all(&self.operations),
            selected_operation: text::copy_opt(&self.selected_operation),
            source: self.source.clone(),
            source_kind: self.source_kind,
            source_freshness: self.source_freshness,
            lofi_status: self.lofi_status.clone(),
            lofi_linked: self.lofi_account_call.is_some(),
            lofi_account_call: text::copy_opt(&self.lofi_account_call),
            import_diagnostics: self.import_diagnostics.duplicate(),
            source_diagnostics: string_map::copy_all(&self.source_diagnostics),
            spot_status: self.spot_status.clone(),
            spots_enabled: self.spots_enabled,
            assisted_warning: if self.spots_enabled {
                Some(
                    "Live spots/skimmers are prohibited for Single Operator. Keep them enabled only if entering Single Operator Assisted.",
                )
            } else {
                None
            },
            demo: self.demo,
            current_band: find_band_in_use(&self.qsos),
        }
    }
}

/// Spots never bring credit: neither a report nor a change of the connection changes the log or
/// its score.
pub proof fn law_spots_bring_no_credit(
    m: RuntimeModel,
    raw: RawModel,
    state: ConnectionState,
    message: Seq<char>,
)
    ensures
        ({
            let reported = RuntimeModel {
                spots: spots::with_report(m.spots, m.qsos, raw, m.spot_limits),
                ..m
            };
            let changed = with_connection(m, state, message);
            &&& reported.qsos == m.qsos
            &&& changed.qsos == m.qsos
            &&& naqp::score_of(string_map::values(reported.qsos)) == naqp::score_of(
                string_map::values(m.qsos),
            )
            &&& naqp::score_of(string_map::values(changed.qsos)) == naqp::score_of(
                string_map::values(m.qsos),
            )
        }),
{
}

/// The band in use is that of a contact that was not deleted and than which no other such contact is
/// newer, nor as new and later in the log; without any such contact there is none.
pub proof fn law_newest_contact_shows_the_band(log: Seq<(Seq<char>, QsoModel)>)
    ensures
        (forall|i: int| 0 <= i < log.len() ==> (#[trigger] log[i]).1.deleted) ==> band_in_use(log)
            is None,
        (exists|i: int| 0 <= i < log.len() && !(#[trigger] log[i]).1.deleted) ==> exists|k: int|
            #![trigger log[k]]
            0 <= k < log.len() && !log[k].1.deleted && band_in_use(log) == log[k].1.band && (forall|
                i: int,
            |
                0 <= i < log.len() && !(#[trigger] log[i]).1.deleted ==> {
                    let a = log[i].1.timestamp;
                    let b = log[k].1.timestamp;
                    &&& a.second < b.second || (a.second == b.second && a.nanos <= b.nanos)
                    &&& i > k ==> a != b
                }),
{
    let all = string_map::values(log);
    lemma_newest(all);
    assert forall|i: int| 0 <= i < log.len() implies #[trigger] all[i] == log[i].1 by {}
    if exists|i: int| 0 <= i < log.len() && !(#[trigger] log[i]).1.deleted {
        let i = choose|i: int| 0 <= i < log.len() && !(#[trigger] log[i]).1.deleted;
        assert(!all[i].deleted);
        let k = choose|k: int|
            #![trigger all[k]]
            is_newest(all, k) && newest(all) == Some(all[k]);
        assert(band_in_use(log) == log[k].1.band);
        assert forall|i: int| 0 <= i < log.len() && !(#[trigger] log[i]).1.deleted implies {
            let a = log[i].1.timestamp;
            let b = log[k].1.timestamp;
            &&& a.second < b.second || (a.second == b.second && a.nanos <= b.nanos)
            &&& i > k ==> a != b
        } by {
            assert(!all[i].deleted);
        }
    } else {
        assert forall|i: int| 0 <= i < all.len() implies (#[trigger] all[i]).deleted by {
            assert(log[i].1.deleted);
        }
    }
}

spec fn is_newest(all: Seq<QsoModel>, k: int) -> bool {
    &&& 0 <= k < all.len() && !all[k].deleted
    &&& forall|i: int|
        0 <= i < all.len() && !(#[trigger] all[i]).deleted ==> {
            let a = all[i].timestamp;
            let b = all[k].timestamp;
            &&& a.second < b.second || (a.second == b.second && a.nanos <= b.nanos)
            &&& i > k ==> a != b
        }
}

proof fn lemma_newest(all: Seq<QsoModel>)
    ensures
        newest(all) is None <==> forall|i: int| 0 <= i < all.len() ==> (#[trigger] all[i]).deleted,
        newest(all) is Some ==> exists|k: int|
            #![trigger all[k]]
            is_newest(all, k) && newest(all) == Some(all[k]),
    decreases all.len(),
{
    if all.len() > 0 {
        let front = all.drop_last();
        let last = all.len() - 1;
        lemma_newest(front);
        assert forall|i: int| 0 <= i < last implies #[trigger] front[i] == all[i] by {}
        assert forall|i: int| 0 <= i < last implies #[trigger] all[i] == front[i] by {}
        if newest(front) is Some {
            let k = choose|k: int|
                #![trigger front[k]]
                is_newest(front, k) && newest(front) == Some(front[k]);
            assert(all[k] == front[k]);
            if newest(all) == Some(all[k]) && (all[last].deleted || !time::no_later(
                all[k].timestamp,
                all[last].timestamp,
            )) {
                assert(is_newest(all, k));
            } else {
                assert(is_newest(all, last));
                assert(newest(all) == Some(all[last]));
            }
        } else if !all[last].deleted {
            assert forall|i: int| 0 <= i < last implies (#[trigger] all[i]).deleted by {
                assert(front[i].deleted);
            }
            assert(is_newest(all, last));
            assert(newest(all) == Some(all[last]));
        } else {
            assert forall|i: int| 0 <= i < all.len() implies (#[trigger] all[i]).deleted by {
                if i < last {
                    assert(front[i].deleted);
                }
            }
        }
    }
}

proof fn lemma_young(s: Seq<SpotModel>, now: Instant, i: int)
    ensures
        0 <= i < s.len() && time::span(s[i].time, now) <= 600_000_000_000 ==> spots::not_aged(
            s,
            now,
            600,
        ).contains(s[i]),
        0 <= i < spots::not_aged(s, now, 600).len() ==> s.contains(spots::not_aged(s, now, 600)[i])
            && time::span(spots::not_aged(s, now, 600)[i].time, now) <= 600_000_000_000,
    decreases s.len(),
{
    if s.len() > 0 {
        let front = s.drop_last();
        let f = spots::not_aged(front, now, 600);
        let r = spots::not_aged(s, now, 600);
        lemma_young(front, now, i);
        if 0 <= i < s.len() && time::span(s[i].time, now) <= 600_000_000_000 {
            if i < front.len() {
                assert(front[i] == s[i]);
                let k = choose|k: int| 0 <= k < f.len() && f[k] == s[i];
                assert(r[k] == f[k]);
            } else {
                assert(r[r.len() - 1] == s[i]);
            }
        }
        if 0 <= i < r.len() {
            if i < f.len() {
                assert(r[i] == f[i]);
                let k = choose|k: int| 0 <= k < front.len() && front[k] == f[i];
                assert(s[k] == r[i]);
            } else {
                assert(s[s.len() - 1] == r[i]);
            }
        }
    }
}

/// The spots that are shown are all that are not older than ten minutes, and no others, the newest
/// first.
pub proof fn law_spots_that_are_shown(s: Seq<SpotModel>, now: Instant)
    ensures
        forall|i: int|
            0 <= i < s.len() ==> (shown_spots(s, now).contains(#[trigger] s[i]) <==> time::span(
                s[i].time,
                now,
            ) <= 600_000_000_000),
        forall|i: int|
            0 <= i < shown_spots(s, now).len() ==> s.contains(#[trigger] shown_spots(s, now)[i]),
        forall|i: int, j: int|
            0 <= i < j < shown_spots(s, now).len() ==> {
                let a = (#[trigger] shown_spots(s, now)[i]).time;
                let b = (#[trigger] shown_spots(s, now)[j]).time;
                b.second < a.second || (b.second == a.second && b.nanos <= a.nanos)
            },
{
    let young = spots::not_aged(s, now, 600);
    let w = with_spot_ranks(young);
    let best = sort::sorted(w);
    let shown = shown_spots(s, now);
    sort::lemma_sorted(w);
    assert forall|i: int| 0 <= i < s.len() implies (shown.contains(#[trigger] s[i])
        <==> time::span(s[i].time, now) <= 600_000_000_000) by {
        lemma_young(s, now, i);
        if young.contains(s[i]) {
            let k = choose|k: int| 0 <= k < young.len() && young[k] == s[i];
            sort::lemma_sorted_holds(w, k);
            let m = choose|m: int| 0 <= m < best.len() && #[trigger] best[m] == w[k];
            assert(shown[m] == s[i]);
        }
        if shown.contains(s[i]) {
            let m = choose|m: int| 0 <= m < shown.len() && shown[m] == s[i];
            sort::lemma_sorted_member(w, m);
            assert(best[m].1 == s[i]);
            let k = choose|k: int| 0 <= k < w.len() && w[k] == best[m];
            lemma_young(s, now, k);
        }
    }
    assert forall|i: int| 0 <= i < shown.len() implies s.contains(#[trigger] shown[i]) by {
        sort::lemma_sorted_member(w, i);
        let k = choose|k: int| 0 <= k < w.len() && w[k] == best[i];
        lemma_young(s, now, k);
    }
    assert forall|i: int, j: int| 0 <= i < j < shown.len() implies {
        let a = (#[trigger] shown[i]).time;
        let b = (#[trigger] shown[j]).time;
        b.second < a.second || (b.second == a.second && b.nanos <= a.nanos)
    } by {
        sort::lemma_sorted_member(w, i);
        sort::lemma_sorted_member(w, j);
        assert(best[i].0 == spot_rank(best[i].1));
        assert(best[j].0 == spot_rank(best[j].1));
        assert(!sort::below(best[j].0, best[i].0));
        let p = best[j].0;
        let q = best[i].0;
        assert(p[0] == PartModel::Number(-best[j].1.time.second));
        assert(q[0] == PartModel::Number(-best[i].1.time.second));
        assert(p[1] == PartModel::Number(-best[j].1.time.nanos));
        assert(q[1] == PartModel::Number(-best[i].1.time.nanos));
        sort::lemma_first_difference(q, p, 0);
        if p[0] == q[0] {
            sort::lemma_first_difference(q, p, 1);
        }
    }
}

/// While the feed is connected or connecting no spot goes stale; once it is lost every spot does. In
/// either case each stays, and the message is shown.
pub proof fn law_lost_connection_makes_spots_stale(
    m: RuntimeModel,
    state: ConnectionState,
    message: Seq<char>,
    i: int,
)
    requires
        0 <= i < m.spots.len(),
    ensures
        ({
            let after = with_connection(m, state, message);
            let lost = state != ConnectionState::Connected && state != ConnectionState::Connecting;
            &&& after.spot_status == message
            &&& after.spots.len() == m.spots.len()
            &&& after.spots[i].call == m.spots[i].call
            &&& after.spots[i].time == m.spots[i].time
            &&& lost ==> after.spots[i].stale
            &&& !lost ==> after.spots[i] == m.spots[i]
            &&& after.operations == m.operations
            &&& after.spot_limits == m.spot_limits
            &&& after.spots_enabled == m.spots_enabled
        }),
{
}

/// An import replaces the log and what is known of its source, forgets the operation that was
/// chosen, ends the demonstration with its contacts and spots, and leaves everything else.
pub proof fn law_import_takes_effect(
    m: RuntimeModel,
    qsos: Seq<(Seq<char>, QsoModel)>,
    diagnostics: adif::ImportModel,
    freshness: Instant,
)
    ensures
        ({
            let after = with_import(m, qsos, diagnostics, freshness);
            &&& after.qsos == qsos
            &&& after.import_diagnostics == diagnostics
            &&& after.source_kind == Some(LogSourceKind::Adif)
            &&& after.source_freshness == Some(freshness)
            &&& after.selected_operation is None
            &&& after.source_diagnostics.len() == 0
            &&& !after.demo
            &&& m.demo ==> import_base(m).len() == 0 && after.spots.len() == 0
            &&& !m.demo ==> import_base(m) == m.qsos && after.spots == m.spots
            &&& after.operations == m.operations
            &&& after.lofi_status == m.lofi_status
            &&& after.lofi_account_call == m.lofi_account_call
            &&& after.spot_status == m.spot_status
            &&& after.spots_enabled == m.spots_enabled
            &&& after.spot_limits == m.spot_limits
        }),
{
}

/// The dashboard starts without spots, operations or an account, and not with the demonstration;
/// without a log that was kept, it starts with none.
pub proof fn law_start_is_empty(spots_enabled: bool, restored: Option<StateModel>)
    ensures
        ({
            let m = started(spots_enabled, restored);
            &&& m.spots.len() == 0
            &&& m.operations.len() == 0
            &&& m.lofi_account_call is None
            &&& !m.demo
            &&& m.spots_enabled == spots_enabled
            &&& m.spot_limits.max_age == 600
            &&& m.spot_limits.window == 90
            &&& m.spot_limits.tolerance is None
            &&& m.spot_limits.capacity == 200
            &&& restored is None ==> m.qsos.len() == 0 && m.selected_operation is None
                && m.source_kind is None && m.source_freshness is None
                && m.source_diagnostics.len() == 0
        }),
{
}

/// A choice of an operation changes the operation chosen and the words on the source, and nothing
/// else: the log stays until that of the operation is there.
pub proof fn law_choice_keeps_the_log(m: RuntimeModel, id: Seq<char>)
    ensures
        ({
            let after = with_selection(m, id);
            &&& after.selected_operation == Some(id)
            &&& after.qsos == m.qsos
            &&& after.spots == m.spots
            &&& after.operations == m.operations
            &&& after.source_kind == m.source_kind
            &&& after.source_freshness == m.source_freshness
            &&& after.import_diagnostics == m.import_diagnostics
            &&& after.source_diagnostics == m.source_diagnostics
            &&& after.demo == m.demo
        }),
{
}

/// There is a warning exactly while spots are used.
pub proof fn law_spots_are_warned_of(enabled: bool)
    ensures
        spots_warning(enabled) is Some <==> enabled,
{
}

/// What was kept is what the dashboard starts from, and nothing where nothing was.
pub proof fn law_start_takes_up_what_was_kept(spots_enabled: bool, state: PersistedState)
    ensures
        ({
            let m = started(spots_enabled, state_in(Some(state)));
            &&& m.qsos == state.qsos@
            &&& m.selected_operation == text::opt_text(state.selected_operation)
            &&& m.source_kind == state.source_kind
            &&& m.source_freshness == time::opt_time(state.source_freshness)
            &&& m.import_diagnostics == state.import_diagnostics@
            &&& m.source_diagnostics == string_map::views(state.source_diagnostics@)
            &&& started(spots_enabled, state_in(None)).qsos.len() == 0
            &&& exists|n: int| 0 <= n && #[trigger] m.source.skip(n) == state.source@
        }),
{
    let m = started(spots_enabled, state_in(Some(state)));
    let n = m.source.len() - state.source@.len();
    assert(m.source.skip(n) =~= state.source@);
}

} // verus!
