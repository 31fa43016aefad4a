//! Synchronization with the log service, step by step: what to ask next, and what an answer does
//! to the state behind the dashboard.
use vstd::prelude::*;

use crate::json;
use crate::lofi::Registration;
use crate::log_source;
use crate::log_source::Log;
use crate::log_source::LogSourceKind;
use crate::log_source::LogUpdate;
use crate::model::DiagnosticModel;
use crate::model::Operation;
use crate::model::OperationModel;
use crate::model::Qso;
use crate::model::QsoModel;
use crate::model::RecordDiagnostic;
use crate::naqp;
use crate::runtime;
use crate::runtime::Runtime;
use crate::runtime::RuntimeModel;
use crate::storage;
use crate::storage::PersistedState;
use crate::storage::StateModel;
use crate::string_map;
use crate::string_map::Duplicate;
use crate::text;
use crate::time;
use crate::time::Instant;
use crate::time::Timestamp;

verus! {

// ---------------------------------------------------------------------------------------------
// The account
// ---------------------------------------------------------------------------------------------
/// How far the synchronization has come.
pub struct SyncState {
    /// The operation whose contacts were fetched last.
    pub selected_seen: Option<String>,
    /// The newest update among its contacts, in milliseconds since the beginning of 1970.
    pub watermark: Option<i64>,
    /// The client is registered.
    pub registered: bool,
}

/// The model of how far the synchronization has come.
#[verifier::ext_equal]
pub struct SyncModel {
    pub selected_seen: Option<Seq<char>>,
    pub watermark: Option<i64>,
    pub registered: bool,
}

impl View for SyncState {
    type V = SyncModel;

    open spec fn view(&self) -> SyncModel {
        SyncModel {
            selected_seen: text::opt_text(self.selected_seen),
            watermark: self.watermark,
            registered: self.registered,
        }
    }
}

/// The first question of a round.
#[derive(Debug, Clone, Copy, PartialEq, Eq, Structural)]
pub enum AccountQuestion {
    Register,
    Account,
}

/// The state once the account is known.
pub open spec fn with_account(m: RuntimeModel, linked: bool, call: Option<Seq<char>>) -> RuntimeModel {
    RuntimeModel {
        lofi_account_call: call,
        lofi_status: if linked {
            "linked"@ + match call {
                Some(c) => " as "@ + c,
                None => Seq::empty(),
            }
        } else {
            "client registered; link your PoLo account below"@
        },
        ..m
    }
}

impl SyncState {
    pub fn start() -> (r: SyncState)
        ensures
            r@ == (SyncModel { selected_seen: None, watermark: None, registered: false }),
    {
        SyncState { selected_seen: None, watermark: None, registered: false }
    }

    pub fn account_question(&self) -> (r: AccountQuestion)
        ensures
            r == AccountQuestion::Account <==> self@.registered,
    {
        if self.registered {
            AccountQuestion::Account
        } else {
            AccountQuestion::Register
        }
    }

    /// Takes in the account; returns whether the client is linked to one.
    pub fn on_account(&mut self, runtime: &mut Runtime, account: &Registration) -> (r: bool)
        ensures
            r == account.linked,
            final(self)@ == (SyncModel { registered: true, ..old(self)@ }),
            final(runtime)@ == with_account(
                old(runtime)@,
                account.linked,
                text::opt_text(account.account_call),
            ),
    {
        self.registered = true;
        runtime.lofi_account_call = text::copy_opt(&account.account_call);
        if account.linked {
            let mut status = text::owned("linked");
            if let Some(call) = &account.account_call {
                text::push_text(&mut status, " as ");
                text::push_text(&mut status, call.as_str());
            }
            assert(status@ =~= "linked"@ + match text::opt_text(account.account_call) {
                Some(c) => " as "@ + c,
                None => Seq::empty(),
            });
            runtime.lofi_status = status;
        } else {
            runtime.lofi_status = text::owned("client registered; link your PoLo account below");
        }
        account.linked
    }
}

// ---------------------------------------------------------------------------------------------
// The operation
// ---------------------------------------------------------------------------------------------
/// An operation overlaps the contest, as far as its times are known.
pub open spec fn overlaps_contest(o: OperationModel) -> bool {
    &&& o.start matches Some(t) ==> time::no_later(
        t,
        time::regular(time::CONTEST_END_SECOND * 1_000_000_000),
    )
    &&& o.end matches Some(t) ==> time::no_later(
        time::regular(time::CONTEST_START_SECOND * 1_000_000_000),
        t,
    )
}

/// `a` is not before `b`; an unknown time is before every other.
pub open spec fn not_before(a: Option<Instant>, b: Option<Instant>) -> bool {
    match (a, b) {
        (Some(x), Some(y)) => time::no_later(y, x),
        (_, None) => true,
        (None, Some(_)) => false,
    }
}

/// `a` is preferred to `b` where it stands behind it: it overlaps the contest and the other does
/// not, or both do or do not and it began no earlier.
pub open spec fn preferred_to(a: OperationModel, b: OperationModel) -> bool {
    if overlaps_contest(a) == overlaps_contest(b) {
        not_before(a.start, b.start)
    } else {
        overlaps_contest(a)
    }
}

/// The position of the preferred one among the operations of the contest.
pub open spec fn best_contest(operations: Seq<OperationModel>) -> Option<int>
    decreases operations.len(),
{
    if operations.len() == 0 {
        None
    } else {
        let before = best_contest(operations.drop_last());
        let o = operations.last();
        if !o.is_naqp {
            before
        } else {
            match before {
                Some(i) => if preferred_to(o, operations[i]) {
                    Some(operations.len() - 1)
                } else {
                    Some(i)
                },
                None => Some(operations.len() - 1),
            }
        }
    }
}

/// The position of the latest of the operations.
pub open spec fn latest(operations: Seq<OperationModel>) -> Option<int>
    decreases operations.len(),
{
    if operations.len() == 0 {
        None
    } else {
        let o = operations.last();
        match latest(operations.drop_last()) {
            Some(i) => if not_before(o.start, operations[i].start) {
                Some(operations.len() - 1)
            } else {
                Some(i)
            },
            None => Some(operations.len() - 1),
        }
    }
}

/// The position of the operation to choose where none is chosen: one of the contest, or else the
/// latest.
pub open spec fn preferred(operations: Seq<OperationModel>) -> Option<int> {
    match best_contest(operations) {
        Some(i) => Some(i),
        None => latest(operations),
    }
}

fn is_current(o: &Operation) -> (r: bool)
    ensures
        r == overlaps_contest(o@),
{
    let begun = match o.start {
        Some(t) => t.not_after(time::contest_end()),
        None => true,
    };
    let unfinished = match o.end {
        Some(t) => time::contest_start().not_after(t),
        None => true,
    };
    begun && unfinished
}

fn starts_no_earlier(a: Option<Timestamp>, b: Option<Timestamp>) -> (r: bool)
    ensures
        r == not_before(time::opt_time(a), time::opt_time(b)),
{
    match (a, b) {
        (Some(x), Some(y)) => y.not_after(x),
        (_, None) => true,
        (None, Some(_)) => false,
    }
}

/// The position of the operation to choose where none is chosen.
pub fn preferred_operation(operations: &Vec<Operation>) -> (r: Option<usize>)
    ensures
        match r {
            Some(i) => preferred(string_map::views(operations@)) == Some(i as int) && i
                < operations@.len(),
            None => preferred(string_map::views(operations@)) is None && operations@.len() == 0,
        },
{
    let ghost all = string_map::views(operations@);
    let mut best: Option<usize> = None;
    let mut last: Option<usize> = None;
    let mut i: usize = 0;
    assert(all.take(0) =~= Seq::empty());
    while i < operations.len()
        invariant
            i <= operations@.len(),
            all == string_map::views(operations@),
            best matches Some(b) ==> b < i,
            last matches Some(b) ==> b < i,
            i > 0 ==> last is Some,
            best_contest(all.take(i as int)) == match best {
                Some(b) => Some(b as int),
                None => None,
            },
            latest(all.take(i as int)) == match last {
                Some(b) => Some(b as int),
                None => None,
            },
        decreases operations.len() - i,
    {
        let ghost part = all.take(i + 1);
        assert(part.drop_last() =~= all.take(i as int));
        assert(part.last() == operations@[i as int]@);
        let o = &operations[i];
        if o.is_naqp {
            best = match best {
                Some(b) => {
                    assert(part[b as int] == operations@[b as int]@);
                    let now_current = is_current(o);
                    let was_current = is_current(&operations[b]);
                    let better = if now_current == was_current {
                        starts_no_earlier(o.start, operations[b].start)
                    } else {
                        now_current
                    };
                    if better {
                        Some(i)
                    } else {
                        Some(b)
                    }
                },
                None => Some(i),
            };
        }
        last = match last {
            Some(b) => {
                assert(part[b as int] == operations@[b as int]@);
                if starts_no_earlier(o.start, operations[b].start) {
                    Some(i)
                } else {
                    Some(b)
                }
            },
            None => Some(i),
        };
        i = i + 1;
    }
    assert(all.take(all.len() as int) =~= all);
    match best {
        Some(b) => Some(b),
        None => last,
    }
}

/// The position of the preferred contest operation is one, and its operation comes before every
/// other.
proof fn lemma_best_contest(operations: Seq<OperationModel>, i: int)
    requires
        0 <= i < operations.len(),
        operations[i].is_naqp,
    ensures
        best_contest(operations) matches Some(k) && 0 <= k < operations.len()
            && operations[k].is_naqp && preferred_to(operations[k], operations[i]),
    decreases operations.len(),
{
    let front = operations.drop_last();
    if i < front.len() {
        lemma_best_contest(front, i);
    } else if best_contest(front) is Some {
        lemma_best_contest_position(front);
    }
}

proof fn lemma_best_contest_position(operations: Seq<OperationModel>)
    ensures
        best_contest(operations) matches Some(k) ==> 0 <= k < operations.len()
            && operations[k].is_naqp,
    decreases operations.len(),
{
    if operations.len() > 0 {
        lemma_best_contest_position(operations.drop_last());
    }
}

/// Where there is an operation of the contest, one of the contest is chosen, and none of them is
/// preferred to it.
pub proof fn law_contest_operation_is_preferred(operations: Seq<OperationModel>, i: int)
    requires
        0 <= i < operations.len(),
        operations[i].is_naqp,
    ensures
        preferred(operations) matches Some(k) && 0 <= k < operations.len()
            && operations[k].is_naqp && preferred_to(operations[k], operations[i]),
{
    lemma_best_contest(operations, i);
}

proof fn lemma_latest(operations: Seq<OperationModel>)
    requires
        operations.len() > 0,
    ensures
        latest(operations) matches Some(k) && 0 <= k < operations.len() && (forall|i: int|
            0 <= i < operations.len() ==> not_before(
                operations[k].start,
                (#[trigger] operations[i]).start,
            )) && (forall|i: int|
            k < i < operations.len() ==> !not_before(
                (#[trigger] operations[i]).start,
                operations[k].start,
            )),
    decreases operations.len(),
{
    let front = operations.drop_last();
    let last = operations.len() - 1;
    if front.len() > 0 {
        lemma_latest(front);
        assert forall|i: int| 0 <= i < operations.len() implies not_before(
            operations[latest(operations)->0].start,
            (#[trigger] operations[i]).start,
        ) by {
            if i < last {
                assert(front[i] == operations[i]);
            }
        }
        let k = latest(operations)->0;
        assert forall|i: int| k < i < operations.len() implies !not_before(
            (#[trigger] operations[i]).start,
            operations[k].start,
        ) by {
            if i < last {
                assert(front[i] == operations[i]);
            }
        }
    } else {
        assert(latest(front) is None);
        assert(latest(operations) == Some(last));
    }
}

/// Where no operation is of the contest, the latest is chosen: none began after it, and of those
/// that began with it, it is the last.
pub proof fn law_latest_operation_is_chosen(operations: Seq<OperationModel>, i: int)
    requires
        0 <= i < operations.len(),
        forall|j: int| 0 <= j < operations.len() ==> !(#[trigger] operations[j]).is_naqp,
    ensures
        preferred(operations) matches Some(k) && 0 <= k < operations.len() && not_before(
            operations[k].start,
            operations[i].start,
        ) && (k < i ==> !not_before(operations[i].start, operations[k].start)),
{
    lemma_best_contest_position(operations);
    lemma_latest(operations);
}

/// The operation that is chosen once the operations are known.
pub open spec fn chosen(operations: Seq<OperationModel>, selected: Option<Seq<char>>) -> Option<
    Seq<char>,
> {
    if selected matches Some(id) && runtime::has_operation(operations, id) {
        selected
    } else {
        match preferred(operations) {
            Some(i) => Some(operations[i].id),
            None => None,
        }
    }
}

/// The state once the operations are known.
pub open spec fn with_operations(m: RuntimeModel, operations: Seq<OperationModel>) -> RuntimeModel {
    let selected = chosen(operations, m.selected_operation);
    RuntimeModel {
        operations,
        selected_operation: selected,
        lofi_status: if selected is None {
            "linked; no operations returned by LoFi"@
        } else {
            m.lofi_status
        },
        ..m
    }
}

/// Takes in the operations; returns the one whose contacts to fetch.
pub fn on_operations(runtime: &mut Runtime, operations: Vec<Operation>) -> (r: Option<String>)
    ensures
        final(runtime)@ == with_operations(old(runtime)@, string_map::views(operations@)),
        text::opt_text(r) == final(runtime)@.selected_operation,
{
    let ghost all = string_map::views(operations@);
    let known = match &runtime.selected_operation {
        Some(id) => runtime::operation_is_known(&operations, id.as_str()),
        None => false,
    };
    if !known {
        runtime.selected_operation = match preferred_operation(&operations) {
            Some(i) => {
                assert(all[i as int] == operations@[i as int]@);
                Some(operations[i].id.clone())
            },
            None => None,
        };
    }
    runtime.operations = operations;
    if runtime.selected_operation.is_none() {
        runtime.lofi_status = text::owned("linked; no operations returned by LoFi");
    }
    text::copy_opt(&runtime.selected_operation)
}

// ---------------------------------------------------------------------------------------------
// The contacts
// ---------------------------------------------------------------------------------------------
/// What is asked for the contacts of an operation.
#[derive(Debug, Clone, Copy)]
pub struct ContactsQuestion {
    /// Another operation was fetched before: the answer is the whole log.
    pub changed: bool,
    /// Only what was updated since is asked for.
    pub watermark: Option<i64>,
}

/// What is asked for the contacts of `selected`: all of them where another operation was fetched
/// before, what is new where it was this one.
pub open spec fn question(state: SyncModel, selected: Seq<char>) -> ContactsQuestion {
    let changed = state.selected_seen != Some(selected);
    ContactsQuestion {
        changed,
        watermark: if changed {
            None
        } else {
            state.watermark
        },
    }
}

/// The newest update that `contacts` tell of.
pub open spec fn newest_update(contacts: Seq<QsoModel>) -> Option<int>
    decreases contacts.len(),
{
    if contacts.len() == 0 {
        None
    } else {
        let before = newest_update(contacts.drop_last());
        match (json::signed_in(contacts.last().raw.member("updatedAtMillis"@)), before) {
            (None, _) => before,
            (Some(t), None) => Some(t),
            (Some(t), Some(b)) => if t > b {
                Some(t)
            } else {
                Some(b)
            },
        }
    }
}

/// The watermark after an answer to a question with `asked`.
pub open spec fn next_watermark(contacts: Seq<QsoModel>, asked: Option<i64>) -> Option<int> {
    match (newest_update(contacts), asked) {
        (None, None) => None,
        (None, Some(a)) => Some(a as int),
        (Some(t), None) => Some(t),
        (Some(t), Some(a)) => if t > a {
            Some(t)
        } else {
            Some(a as int)
        },
    }
}

/// How far the synchronization has come once the contacts of `selected` were fetched.
pub open spec fn fetched(
    state: SyncModel,
    selected: Seq<char>,
    contacts: Seq<QsoModel>,
    asked: ContactsQuestion,
) -> SyncModel {
    SyncModel {
        selected_seen: Some(selected),
        watermark: match next_watermark(contacts, asked.watermark) {
            Some(t) => Some(t as i64),
            None => None,
        },
        ..state
    }
}

/// The watermark never goes back.
pub proof fn law_watermark_never_goes_back(contacts: Seq<QsoModel>, asked: Option<i64>)
    ensures
        asked matches Some(a) ==> (next_watermark(contacts, asked) matches Some(t) && t >= a),
{
}

fn find_newest_update(contacts: &Vec<Qso>) -> (r: Option<i64>)
    ensures
        match r {
            Some(t) => newest_update(string_map::views(contacts@)) == Some(t as int),
            None => newest_update(string_map::views(contacts@)) is None,
        },
{
    let ghost all = string_map::views(contacts@);
    let mut best: Option<i64> = None;
    let mut i: usize = 0;
    assert(all.take(0) =~= Seq::empty());
    while i < contacts.len()
        invariant
            i <= contacts@.len(),
            all == string_map::views(contacts@),
            newest_update(all.take(i as int)) == match best {
                Some(t) => Some(t as int),
                None => None,
            },
        decreases contacts.len() - i,
    {
        assert(all.take(i + 1).drop_last() =~= all.take(i as int));
        assert(all.take(i + 1).last() == contacts@[i as int]@);
        if let Some(t) = json::as_signed(contacts[i].raw.get("updatedAtMillis")) {
            best = match best {
                Some(b) => if t > b {
                    Some(t)
                } else {
                    Some(b)
                },
                None => Some(t),
            };
        }
        i = i + 1;
    }
    assert(all.take(all.len() as int) =~= all);
    best
}

/// One of the diagnostics is about the record `id`.
pub open spec fn tells_of(diagnostics: Seq<DiagnosticModel>, id: Option<Seq<char>>) -> bool {
    exists|i: int| 0 <= i < diagnostics.len() && (#[trigger] diagnostics[i]).id == id
}

/// The diagnostics of `before` about records that `after` does not tell of.
pub open spec fn still_told(before: Seq<DiagnosticModel>, after: Seq<DiagnosticModel>) -> Seq<
    DiagnosticModel,
>
    decreases before.len(),
{
    if before.len() == 0 {
        before
    } else if tells_of(after, before.last().id) {
        still_told(before.drop_last(), after)
    } else {
        still_told(before.drop_last(), after).push(before.last())
    }
}

/// The diagnostics after an answer: those of the whole log, or those so far with the new ones.
pub open spec fn diagnostics_after(
    before: Seq<DiagnosticModel>,
    after: Seq<DiagnosticModel>,
    whole: bool,
) -> Seq<DiagnosticModel> {
    if whole {
        after
    } else {
        still_told(before, after) + after
    }
}

fn is_told(diagnostics: &Vec<RecordDiagnostic>, id: &Option<String>) -> (r: bool)
    ensures
        r == tells_of(string_map::views(diagnostics@), text::opt_text(*id)),
{
    let ghost all = string_map::views(diagnostics@);
    let mut i: usize = 0;
    while i < diagnostics.len()
        invariant
            i <= diagnostics@.len(),
            all == string_map::views(diagnostics@),
            forall|j: int| 0 <= j < i ==> (#[trigger] all[j]).id != text::opt_text(*id),
        decreases diagnostics.len() - i,
    {
        assert(all[i as int] == diagnostics@[i as int]@);
        if text::same_opt(&diagnostics[i].id, id) {
            return true;
        }
        i = i + 1;
    }
    false
}

fn join_diagnostics(
    before: &Vec<RecordDiagnostic>,
    after: Vec<RecordDiagnostic>,
    whole: bool,
) -> (r: Vec<RecordDiagnostic>)
    ensures
        string_map::views(r@) == diagnostics_after(
            string_map::views(before@),
            string_map::views(after@),
            whole,
        ),
{
    if whole {
        return after;
    }
    let ghost all = string_map::views(before@);
    let ghost new = string_map::views(after@);
    let mut out: Vec<RecordDiagnostic> = Vec::new();
    let mut i: usize = 0;
    assert(string_map::views(out@) =~= still_told(all.take(0), new));
    while i < before.len()
        invariant
            i <= before@.len(),
            all == string_map::views(before@),
            new == string_map::views(after@),
            string_map::views(out@) == still_told(all.take(i as int), new),
        decreases before.len() - i,
    {
        assert(all.take(i + 1).drop_last() =~= all.take(i as int));
        assert(all.take(i + 1).last() == before@[i as int]@);
        if !is_told(&after, &before[i].id) {
            let ghost kept = string_map::views(out@);
            let copy = before[i].duplicate();
            out.push(copy);
            assert(string_map::views(out@) =~= kept.push(before@[i as int]@));
        }
        i = i + 1;
    }
    assert(all.take(all.len() as int) =~= all);
    let ghost kept = string_map::views(out@);
    let mut rest = after;
    let ghost kept_items = out@;
    let ghost rest_items = rest@;
    out.append(&mut rest);
    assert(out@ =~= kept_items + rest_items);
    assert(string_map::views(out@) =~= kept + new);
    out
}

/// A synchronized log that has not taken effect: it is kept first.
pub struct SyncPlan {
    pub qsos: Log,
    pub source_diagnostics: Vec<RecordDiagnostic>,
    pub freshness: Timestamp,
}

/// The model of a synchronized log that has not taken effect.
#[verifier::ext_equal]
pub struct PlanModel {
    pub qsos: Seq<(Seq<char>, QsoModel)>,
    pub source_diagnostics: Seq<DiagnosticModel>,
    pub freshness: Instant,
}

impl View for SyncPlan {
    type V = PlanModel;

    open spec fn view(&self) -> PlanModel {
        PlanModel {
            qsos: self.qsos@,
            source_diagnostics: string_map::views(self.source_diagnostics@),
            freshness: self.freshness@,
        }
    }
}

/// The log with an answer worked in.
pub open spec fn planned(
    m: RuntimeModel,
    contacts: Seq<QsoModel>,
    diagnostics: Seq<DiagnosticModel>,
    asked: ContactsQuestion,
    now: Instant,
) -> PlanModel {
    PlanModel {
        qsos: log_source::updated_log(m.qsos, contacts, asked.changed),
        source_diagnostics: diagnostics_after(m.source_diagnostics, diagnostics, asked.changed),
        freshness: now,
    }
}

/// The state after a synchronization.
pub open spec fn with_sync(
    m: RuntimeModel,
    qsos: Seq<(Seq<char>, QsoModel)>,
    source_diagnostics: Seq<DiagnosticModel>,
    freshness: Instant,
) -> RuntimeModel {
    RuntimeModel {
        qsos,
        source_diagnostics,
        source: "Live Ham2K LoFi sync"@,
        source_kind: Some(LogSourceKind::Lofi),
        source_freshness: Some(freshness),
        ..m
    }
}

/// What is kept of a synchronization.
pub open spec fn kept_sync(
    m: RuntimeModel,
    qsos: Seq<(Seq<char>, QsoModel)>,
    source_diagnostics: Seq<DiagnosticModel>,
    freshness: Instant,
) -> StateModel {
    StateModel {
        version: storage::STATE_VERSION,
        qsos,
        selected_operation: m.selected_operation,
        source_kind: Some(LogSourceKind::Lofi),
        source: "Live Ham2K LoFi sync"@,
        source_freshness: Some(freshness),
        import_diagnostics: m.import_diagnostics,
        source_diagnostics,
    }
}

/// The state after a round has failed.
pub open spec fn with_sync_error(m: RuntimeModel, error: Seq<char>) -> RuntimeModel {
    RuntimeModel { lofi_status: "sync error: "@ + error, ..m }
}

impl SyncState {
    /// What to ask for the contacts of `selected`.
    pub fn contacts_question(&self, selected: &str) -> (r: ContactsQuestion)
        ensures
            r == question(self@, selected@),
    {
        let changed = match &self.selected_seen {
            Some(seen) => !text::same(seen.as_str(), selected),
            None => true,
        };
        ContactsQuestion {
            changed,
            watermark: if changed {
                None
            } else {
                self.watermark
            },
        }
    }

    /// Notes that the contacts of `selected` were fetched and kept.
    pub fn finish(&mut self, selected: &str, contacts: &Vec<Qso>, asked: ContactsQuestion)
        ensures
            final(self)@ == fetched(old(self)@, selected@, string_map::views(contacts@), asked),
            match final(self)@.watermark {
                Some(t) => next_watermark(string_map::views(contacts@), asked.watermark) == Some(
                    t as int,
                ),
                None => next_watermark(string_map::views(contacts@), asked.watermark) is None,
            },
    {
        self.selected_seen = Some(text::owned(selected));
        self.watermark = match (find_newest_update(contacts), asked.watermark) {
            (None, a) => a,
            (Some(t), None) => Some(t),
            (Some(t), Some(a)) => if t > a {
                Some(t)
            } else {
                Some(a)
            },
        };
    }
}

impl Runtime {
    /// Works an answer into the log. Nothing changes yet; while the demonstration runs there is
    /// nothing to change.
    pub fn plan_sync(
        &self,
        contacts: &Vec<Qso>,
        diagnostics: Vec<RecordDiagnostic>,
        asked: ContactsQuestion,
        now: Timestamp,
    ) -> (r: Option<SyncPlan>)
        ensures
            r is None <==> self@.demo,
            r matches Some(plan) ==> plan@ == planned(
                self@,
                string_map::views(contacts@),
                string_map::views(diagnostics@),
                asked,
                now@,
            ),
    {
        if self.demo {
            return None;
        }
        let mut qsos = self.qsos.duplicate();
        LogUpdate::lofi(string_map::copy_all(contacts), asked.changed).apply(&mut qsos);
        let source_diagnostics = join_diagnostics(
            &self.source_diagnostics,
            diagnostics,
            asked.changed,
        );
        Some(SyncPlan { qsos, source_diagnostics, freshness: now })
    }

    /// What is to be kept of a synchronization.
    pub fn persisted_sync(&self, plan: &SyncPlan) -> (r: PersistedState)
        ensures
            r@ == kept_sync(
                self@,
                plan@.qsos,
                plan@.source_diagnostics,
                plan@.freshness,
            ),
    {
        self.persisted(
            plan.qsos.duplicate(),
            LogSourceKind::Lofi,
            text::owned("Live Ham2K LoFi sync"),
            plan.freshness,
            string_map::copy_all(&plan.source_diagnostics),
        )
    }

    /// Lets a synchronization take effect, once it is kept.
    pub fn commit_sync(&mut self, plan: SyncPlan)
        ensures
            final(self)@ == with_sync(
                old(self)@,
                plan@.qsos,
                plan@.source_diagnostics,
                plan@.freshness,
            ),
    {
        self.qsos = plan.qsos;
        self.source_diagnostics = plan.source_diagnostics;
        self.source = text::owned("Live Ham2K LoFi sync");
        self.source_kind = Some(LogSourceKind::Lofi);
        self.source_freshness = Some(plan.freshness);
    }

    /// Notes that a round has failed: the log stays as it is.
    pub fn on_sync_error(&mut self, error: &str)
        ensures
            final(self)@ == with_sync_error(old(self)@, error@),
    {
        self.lofi_status = text::joined("sync error: ", error);
    }
}

/// What is kept of a synchronization is what the dashboard shows after it.
pub proof fn law_sync_survives_a_restart(
    m: RuntimeModel,
    qsos: Seq<(Seq<char>, QsoModel)>,
    source_diagnostics: Seq<DiagnosticModel>,
    freshness: Instant,
    spots_enabled: bool,
)
    ensures
        ({
            let shown = with_sync(m, qsos, source_diagnostics, freshness);
            let kept = kept_sync(m, qsos, source_diagnostics, freshness);
            let again = runtime::started(spots_enabled, Some(kept));
            &&& again.qsos == shown.qsos
            &&& again.selected_operation == shown.selected_operation
            &&& again.source_kind == shown.source_kind
            &&& again.source_freshness == shown.source_freshness
            &&& again.import_diagnostics == shown.import_diagnostics
            &&& again.source_diagnostics == shown.source_diagnostics
        }),
{
}

/// Until a synchronization takes effect the log is the last good one: neither the account nor the
/// operations nor the choice of one nor a failure changes it, or its score.
pub proof fn law_log_is_kept_until_replaced(
    m: RuntimeModel,
    linked: bool,
    call: Option<Seq<char>>,
    operations: Seq<OperationModel>,
    id: Seq<char>,
    error: Seq<char>,
)
    ensures
        with_account(m, linked, call).qsos == m.qsos,
        with_operations(m, operations).qsos == m.qsos,
        with_operations(m, operations).source_diagnostics == m.source_diagnostics,
        runtime::with_selection(m, id).qsos == m.qsos,
        runtime::with_selection(m, id).source_diagnostics == m.source_diagnostics,
        with_sync_error(m, error).qsos == m.qsos,
        naqp::score_of(string_map::values(with_sync_error(m, error).qsos)) == naqp::score_of(
            string_map::values(m.qsos),
        ),
        naqp::score_of(string_map::values(runtime::with_selection(m, id).qsos))
            == naqp::score_of(string_map::values(m.qsos)),
{
}

/// The first answer for an operation is its whole log.
pub proof fn law_operation_is_fetched_whole_first(
    state: SyncModel,
    selected: Seq<char>,
    log: Seq<(Seq<char>, QsoModel)>,
    contacts: Seq<QsoModel>,
)
    requires
        state.selected_seen != Some(selected),
    ensures
        log_source::updated_log(log, contacts, question(state, selected).changed)
            == log_source::merged(Seq::empty(), contacts),
        question(state, selected).watermark is None,
{
}

/// No diagnostic disappears: every record that an earlier answer told of is told of after an
/// incremental answer too.
pub proof fn law_diagnostics_are_kept(
    before: Seq<DiagnosticModel>,
    after: Seq<DiagnosticModel>,
    i: int,
)
    requires
        0 <= i < before.len(),
    ensures
        tells_of(diagnostics_after(before, after, false), before[i].id),
    decreases before.len(),
{
    let front = before.drop_last();
    let kept = still_told(before, after);
    let all = diagnostics_after(before, after, false);
    if tells_of(after, before[i].id) {
        let k = choose|k: int| 0 <= k < after.len() && (#[trigger] after[k]).id == before[i].id;
        assert(all[kept.len() + k] == after[k]);
    } else if i == before.len() - 1 {
        assert(all[kept.len() - 1] == before[i]);
    } else {
        assert(front[i] == before[i]);
        law_diagnostics_are_kept(front, after, i);
        let shorter = diagnostics_after(front, after, false);
        let k = choose|k: int| 0 <= k < shorter.len() && (#[trigger] shorter[k]).id == before[i].id;
        let fewer = still_told(front, after);
        if k < fewer.len() {
            assert(all[k] == shorter[k]);
        } else {
            assert(after[k - fewer.len()] == shorter[k]);
        }
    }
}

// ---------------------------------------------------------------------------------------------
// The choice of an operation, questions and answers
// ---------------------------------------------------------------------------------------------
/// The operation began no later than the contest ended and ended no earlier than it began, as far as
/// that is known.
pub open spec fn may_be_of_the_contest(o: OperationModel) -> bool {
    &&& o.start matches Some(t) ==> t.second < time::CONTEST_END_SECOND || (t.second
        == time::CONTEST_END_SECOND && t.nanos <= 0)
    &&& o.end matches Some(t) ==> t.second > time::CONTEST_START_SECOND || (t.second
        == time::CONTEST_START_SECOND && t.nanos >= 0)
}

/// `a` began after `b`; one with no known beginning began before all others.
pub open spec fn began_after(a: OperationModel, b: OperationModel) -> bool {
    match (a.start, b.start) {
        (Some(x), Some(y)) => x.second > y.second || (x.second == y.second && x.nanos > y.nanos),
        (Some(_), None) => true,
        (None, _) => false,
    }
}

proof fn lemma_overlap(o: OperationModel)
    ensures
        overlaps_contest(o) == may_be_of_the_contest(o),
{
}

proof fn lemma_best_contest_is_last(operations: Seq<OperationModel>, i: int)
    requires
        best_contest(operations) is Some,
        best_contest(operations)->0 < i < operations.len(),
        operations[i].is_naqp,
    ensures
        !preferred_to(operations[i], operations[best_contest(operations)->0]),
    decreases operations.len(),
{
    let front = operations.drop_last();
    lemma_best_contest_position(operations);
    lemma_best_contest_position(front);
    if i < front.len() {
        assert(front[i] == operations[i]);
        if best_contest(front) is Some {
            lemma_best_contest_is_last(front, i);
        }
    }
}

/// Where there are operations of the contest, the one that is chosen is of the contest; if any of
/// them may be of its day, it is; and of those alike in this it began last, and stands last among
/// those that began with it.
pub proof fn law_which_operation_is_chosen(operations: Seq<OperationModel>, i: int)
    requires
        0 <= i < operations.len(),
        operations[i].is_naqp,
    ensures
        ({
            let k = preferred(operations)->0;
            let o = operations[i];
            let c = operations[k];
            &&& preferred(operations) is Some
            &&& 0 <= k < operations.len() && c.is_naqp
            &&& may_be_of_the_contest(o) ==> may_be_of_the_contest(c)
            &&& may_be_of_the_contest(o) == may_be_of_the_contest(c) ==> !began_after(o, c) && (i > k
                ==> began_after(c, o))
        }),
{
    lemma_best_contest(operations, i);
    let k = preferred(operations)->0;
    lemma_overlap(operations[i]);
    lemma_overlap(operations[k]);
    if i > k {
        lemma_best_contest_is_last(operations, i);
    }
}

/// Where none is of the contest, the one that is chosen began last, and stands last among those that
/// began with it; without operations none is chosen.
pub proof fn law_which_other_operation_is_chosen(operations: Seq<OperationModel>, i: int)
    requires
        forall|j: int| 0 <= j < operations.len() ==> !(#[trigger] operations[j]).is_naqp,
    ensures
        ({
            let k = preferred(operations)->0;
            &&& operations.len() == 0 <==> preferred(operations) is None
            &&& operations.len() > 0 ==> 0 <= k < operations.len()
            &&& 0 <= i < operations.len() ==> !began_after(operations[i], operations[k]) && (i > k
                ==> began_after(operations[k], operations[i]))
        }),
{
    lemma_best_contest_position(operations);
    if operations.len() > 0 {
        lemma_latest(operations);
    }
}

/// A choice stands as long as there is such an operation; else the preferred one takes its place, if
/// there is any. All else but the words on the account stays.
pub proof fn law_choice_stands(m: RuntimeModel, operations: Seq<OperationModel>)
    ensures
        ({
            let after = with_operations(m, operations);
            let known = exists|i: int|
                0 <= i < operations.len() && m.selected_operation == Some(
                    (#[trigger] operations[i]).id,
                );
            &&& after.operations == operations
            &&& known ==> after.selected_operation == m.selected_operation
            &&& !known && operations.len() > 0 ==> exists|k: int|
                preferred(operations) == Some(k) && after.selected_operation == Some(
                    (#[trigger] operations[k]).id,
                )
            &&& operations.len() == 0 ==> after.selected_operation is None
            &&& operations.len() > 0 ==> after.lofi_status == m.lofi_status
            &&& after.spots == m.spots
            &&& after.lofi_account_call == m.lofi_account_call
            &&& after.demo == m.demo
            &&& after.source == m.source
            &&& after.source_kind == m.source_kind
            &&& after.source_freshness == m.source_freshness
            &&& after.import_diagnostics == m.import_diagnostics
        }),
{
    if operations.len() > 0 {
        lemma_latest(operations);
        lemma_best_contest_position(operations);
        let k = preferred(operations)->0;
        assert(operations[k].id == operations[k].id);
    }
    if m.selected_operation is Some && runtime::has_operation(
        operations,
        m.selected_operation->0,
    ) {
        let i = choose|i: int|
            0 <= i < operations.len() && (#[trigger] operations[i]).id
                == m.selected_operation->0;
        assert(m.selected_operation == Some(operations[i].id));
    }
}

/// What is asked for is what is new since the watermark where the operation was fetched before, and
/// everything where it was not.
pub proof fn law_what_is_asked_for(state: SyncModel, selected: Seq<char>)
    ensures
        state.selected_seen == Some(selected) ==> !question(state, selected).changed && question(
            state,
            selected,
        ).watermark == state.watermark,
        state.selected_seen != Some(selected) ==> question(state, selected).changed && question(
            state,
            selected,
        ).watermark is None,
{
}

/// The watermark is the newest of what was asked with and what the contacts tell of; with neither
/// there is none.
pub proof fn law_watermark_is_the_newest(contacts: Seq<QsoModel>, asked: Option<i64>, i: int)
    ensures
        0 <= i < contacts.len() && json::signed_in(
            contacts[i].raw.member("updatedAtMillis"@),
        ) is Some ==> (next_watermark(contacts, asked) matches Some(t) && t >= json::signed_in(
            contacts[i].raw.member("updatedAtMillis"@),
        )->0),
        next_watermark(contacts, asked) matches Some(t) ==> (asked matches Some(a) && t == a)
            || exists|k: int|
            0 <= k < contacts.len() && json::signed_in(
                (#[trigger] contacts[k]).raw.member("updatedAtMillis"@),
            ) == Some(t),
{
    lemma_newest_update(contacts, i);
}

proof fn lemma_newest_update(contacts: Seq<QsoModel>, i: int)
    ensures
        0 <= i < contacts.len() && json::signed_in(
            contacts[i].raw.member("updatedAtMillis"@),
        ) is Some ==> (newest_update(contacts) matches Some(t) && t >= json::signed_in(
            contacts[i].raw.member("updatedAtMillis"@),
        )->0),
        newest_update(contacts) matches Some(t) ==> exists|k: int|
            0 <= k < contacts.len() && json::signed_in(
                (#[trigger] contacts[k]).raw.member("updatedAtMillis"@),
            ) == Some(t),
    decreases contacts.len(),
{
    if contacts.len() > 0 {
        let front = contacts.drop_last();
        let last = contacts.len() - 1;
        lemma_newest_update(front, i);
        if 0 <= i < front.len() {
            assert(front[i] == contacts[i]);
        }
        if newest_update(front) is Some {
            let t = newest_update(front)->0;
            let k = choose|k: int|
                0 <= k < front.len() && json::signed_in(
                    (#[trigger] front[k]).raw.member("updatedAtMillis"@),
                ) == Some(t);
            assert(contacts[k] == front[k]);
        }
        assert(contacts[last] == contacts.last());
    }
}

/// Once the contacts of an operation were fetched, that operation is the one that was; a client that
/// is registered stays so.
pub proof fn law_what_was_fetched_is_remembered(
    state: SyncModel,
    selected: Seq<char>,
    contacts: Seq<QsoModel>,
    asked: ContactsQuestion,
)
    ensures
        ({
            let after = fetched(state, selected, contacts, asked);
            &&& after.selected_seen == Some(selected)
            &&& after.registered == state.registered
            &&& !question(after, selected).changed
            &&& after.watermark is None <==> next_watermark(contacts, asked.watermark) is None
        }),
{
}

/// An answer with only what is new keeps the diagnostics so far, in order and without those about
/// records that it tells of, and adds its own; one with the whole log replaces them.
pub proof fn law_diagnostics_after_an_answer(
    before: Seq<DiagnosticModel>,
    after: Seq<DiagnosticModel>,
    d: DiagnosticModel,
)
    ensures
        diagnostics_after(before, after, true) == after,
        diagnostics_after(before, after, false).contains(d) <==> after.contains(d) || (
        before.contains(d) && forall|i: int|
            0 <= i < after.len() ==> (#[trigger] after[i]).id != d.id),
{
    let kept = still_told(before, after);
    let all = diagnostics_after(before, after, false);
    lemma_still_told(before, after, d);
    if all.contains(d) {
        let i = choose|i: int| 0 <= i < all.len() && all[i] == d;
        if i < kept.len() {
            assert(kept[i] == d);
        } else {
            assert(after[i - kept.len()] == d);
        }
    }
    if after.contains(d) {
        let i = choose|i: int| 0 <= i < after.len() && after[i] == d;
        assert(all[kept.len() + i] == d);
    }
    if kept.contains(d) {
        let i = choose|i: int| 0 <= i < kept.len() && kept[i] == d;
        assert(all[i] == d);
    }
}

proof fn lemma_still_told(
    before: Seq<DiagnosticModel>,
    after: Seq<DiagnosticModel>,
    d: DiagnosticModel,
)
    ensures
        still_told(before, after).contains(d) <==> before.contains(d) && !tells_of(after, d.id),
    decreases before.len(),
{
    if before.len() > 0 {
        let front = before.drop_last();
        let f = still_told(front, after);
        let r = still_told(before, after);
        lemma_still_told(front, after, d);
        if r.contains(d) {
            let i = choose|i: int| 0 <= i < r.len() && r[i] == d;
            if i < f.len() {
                assert(f[i] == d);
                let k = choose|k: int| 0 <= k < front.len() && front[k] == d;
                assert(before[k] == d);
            } else {
                assert(before[before.len() - 1] == d);
            }
        }
        if before.contains(d) && !tells_of(after, d.id) {
            let k = choose|k: int| 0 <= k < before.len() && before[k] == d;
            if k < front.len() {
                assert(front[k] == d);
                let i = choose|i: int| 0 <= i < f.len() && f[i] == d;
                assert(r[i] == d);
            } else {
                assert(r[r.len() - 1] == d);
            }
        }
    }
}

/// A synchronization replaces the log, its diagnostics and what is known of its source; everything
/// else stays.
pub proof fn law_synchronization_takes_effect(
    m: RuntimeModel,
    qsos: Seq<(Seq<char>, QsoModel)>,
    diagnostics: Seq<DiagnosticModel>,
    freshness: Instant,
)
    ensures
        ({
            let after = with_sync(m, qsos, diagnostics, freshness);
            &&& after.qsos == qsos
            &&& after.source_diagnostics == diagnostics
            &&& after.source_kind == Some(LogSourceKind::Lofi)
            &&& after.source_freshness == Some(freshness)
            &&& after.selected_operation == m.selected_operation
            &&& after.operations == m.operations
            &&& after.import_diagnostics == m.import_diagnostics
            &&& after.spots == m.spots
            &&& after.lofi_status == m.lofi_status
            &&& after.lofi_account_call == m.lofi_account_call
            &&& after.spot_status == m.spot_status
            &&& after.demo == m.demo
        }),
{
}

/// The words on the account name its callsign where it is linked to one; a failure is told of in
/// words that end with its reason. Neither changes the operations or the spots.
pub proof fn law_words_on_the_account(
    m: RuntimeModel,
    linked: bool,
    call: Option<Seq<char>>,
    error: Seq<char>,
)
    ensures
        ({
            let known = with_account(m, linked, call);
            let failed = with_sync_error(m, error);
            &&& known.lofi_account_call == call
            &&& linked && call is Some ==> exists|n: int|
                0 <= n && #[trigger] known.lofi_status.skip(n) == call->0
            &&& exists|n: int| 0 <= n && #[trigger] failed.lofi_status.skip(n) == error
            &&& failed.lofi_account_call == m.lofi_account_call
            &&& known.operations == m.operations && failed.operations == m.operations
            &&& known.spots == m.spots && failed.spots == m.spots
            &&& known.selected_operation == m.selected_operation && failed.selected_operation
                == m.selected_operation
            &&& known.source_freshness == m.source_freshness && failed.source_freshness
                == m.source_freshness
        }),
{
    let known = with_account(m, linked, call);
    let failed = with_sync_error(m, error);
    if linked && call is Some {
        let n = known.lofi_status.len() - call->0.len();
        assert(known.lofi_status.skip(n) =~= call->0);
    }
    let n = failed.lofi_status.len() - error.len();
    assert(failed.lofi_status.skip(n) =~= error);
}

} // verus!
