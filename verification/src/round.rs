//! The rounds of the synchronization: what a round does next, from what came back.
use vstd::prelude::*;

use crate::lofi::Registration;
use crate::model::DiagnosticModel;
use crate::model::Operation;
use crate::model::OperationModel;
use crate::model::Qso;
use crate::model::QsoModel;
use crate::model::RecordDiagnostic;
use crate::runtime::Runtime;
use crate::runtime::RuntimeModel;
use crate::string_map;
use crate::sync;
use crate::sync::AccountQuestion;
use crate::sync::ContactsQuestion;
use crate::sync::PlanModel;
use crate::sync::SyncModel;
use crate::sync::SyncPlan;
use crate::sync::SyncState;
use crate::text;
use crate::time::Instant;
use crate::time::Timestamp;

verus! {

/// What a round does next, with what it has come to know.
pub enum Round {
    /// The client registers.
    Register,
    /// The account of the client is asked for.
    Account,
    /// The operations are asked for.
    Operations,
    /// The contacts of an operation are asked for.
    Contacts { selected: String, asked: ContactsQuestion },
    /// A synchronized log is kept; it takes effect after that.
    Keep { selected: String, asked: ContactsQuestion, contacts: Vec<Qso>, plan: SyncPlan },
    /// The round is over.
    Done,
}

/// The model of a round.
pub enum RoundModel {
    Register,
    Account,
    Operations,
    Contacts { selected: Seq<char>, asked: ContactsQuestion },
    Keep {
        selected: Seq<char>,
        asked: ContactsQuestion,
        contacts: Seq<QsoModel>,
        plan: PlanModel,
    },
    Done,
}

impl View for Round {
    type V = RoundModel;

    open spec fn view(&self) -> RoundModel {
        match self {
            Round::Register => RoundModel::Register,
            Round::Account => RoundModel::Account,
            Round::Operations => RoundModel::Operations,
            Round::Contacts { selected, asked } => RoundModel::Contacts {
                selected: selected@,
                asked: *asked,
            },
            Round::Keep { selected, asked, contacts, plan } => RoundModel::Keep {
                selected: selected@,
                asked: *asked,
                contacts: string_map::views(contacts@),
                plan: plan@,
            },
            Round::Done => RoundModel::Done,
        }
    }
}

/// What comes back to a round.
pub enum Answer {
    Account(Registration),
    Operations(Vec<Operation>),
    Contacts { contacts: Vec<Qso>, diagnostics: Vec<RecordDiagnostic> },
    /// The synchronized log is kept.
    Kept,
    /// What the round was to do failed; holds the reason.
    Failed(String),
}

/// The model of an answer.
pub enum AnswerModel {
    Account { linked: bool, call: Option<Seq<char>> },
    Operations(Seq<OperationModel>),
    Contacts { contacts: Seq<QsoModel>, diagnostics: Seq<DiagnosticModel> },
    Kept,
    Failed(Seq<char>),
}

impl View for Answer {
    type V = AnswerModel;

    open spec fn view(&self) -> AnswerModel {
        match self {
            Answer::Account(r) => AnswerModel::Account {
                linked: r.linked,
                call: text::opt_text(r.account_call),
            },
            Answer::Operations(o) => AnswerModel::Operations(string_map::views(o@)),
            Answer::Contacts { contacts, diagnostics } => AnswerModel::Contacts {
                contacts: string_map::views(contacts@),
                diagnostics: string_map::views(diagnostics@),
            },
            Answer::Kept => AnswerModel::Kept,
            Answer::Failed(e) => AnswerModel::Failed(e@),
        }
    }
}

/// A round, the state behind the dashboard, and how far the synchronization has come.
#[verifier::ext_equal]
pub struct Standing {
    pub round: RoundModel,
    pub runtime: RuntimeModel,
    pub sync: SyncModel,
}

/// How things stand once the account is known: without a link the round is over.
pub open spec fn after_account(s: Standing, linked: bool, call: Option<Seq<char>>) -> Standing {
    Standing {
        round: if linked {
            RoundModel::Operations
        } else {
            RoundModel::Done
        },
        runtime: sync::with_account(s.runtime, linked, call),
        sync: SyncModel { registered: true, ..s.sync },
    }
}

/// How things stand once the operations are known: without one to choose the round is over.
pub open spec fn after_operations(s: Standing, operations: Seq<OperationModel>) -> Standing {
    let runtime = sync::with_operations(s.runtime, operations);
    Standing {
        round: match runtime.selected_operation {
            Some(id) => RoundModel::Contacts { selected: id, asked: sync::question(s.sync, id) },
            None => RoundModel::Done,
        },
        runtime,
        sync: s.sync,
    }
}

/// How things stand once the contacts are known: the log with them is to be kept first; while the
/// demonstration runs there is nothing to keep.
pub open spec fn after_contacts(
    s: Standing,
    selected: Seq<char>,
    asked: ContactsQuestion,
    contacts: Seq<QsoModel>,
    diagnostics: Seq<DiagnosticModel>,
    now: Instant,
) -> Standing {
    if s.runtime.demo {
        Standing {
            round: RoundModel::Done,
            runtime: s.runtime,
            sync: sync::fetched(s.sync, selected, contacts, asked),
        }
    } else {
        Standing {
            round: RoundModel::Keep {
                selected,
                asked,
                contacts,
                plan: sync::planned(s.runtime, contacts, diagnostics, asked, now),
            },
            ..s
        }
    }
}

/// How things stand once the log is kept: it takes effect, and the round is over.
pub open spec fn after_keeping(
    s: Standing,
    selected: Seq<char>,
    asked: ContactsQuestion,
    contacts: Seq<QsoModel>,
    plan: PlanModel,
) -> Standing {
    Standing {
        round: RoundModel::Done,
        runtime: sync::with_sync(s.runtime, plan.qsos, plan.source_diagnostics, plan.freshness),
        sync: sync::fetched(s.sync, selected, contacts, asked),
    }
}

/// The answer is one to what the round does.
pub open spec fn answers(round: RoundModel, answer: AnswerModel) -> bool {
    match round {
        RoundModel::Register => answer is Account,
        RoundModel::Account => answer is Account,
        RoundModel::Operations => answer is Operations,
        RoundModel::Contacts { .. } => answer is Contacts,
        RoundModel::Keep { .. } => answer is Kept,
        RoundModel::Done => false,
    }
}

/// How things stand after an answer. A failure ends the round; an answer to something else leaves
/// everything as it is.
pub open spec fn advanced(s: Standing, answer: AnswerModel, now: Instant) -> Standing {
    if s.round is Done {
        s
    } else if answer is Failed {
        Standing {
            round: RoundModel::Done,
            runtime: sync::with_sync_error(s.runtime, answer->Failed_0),
            sync: s.sync,
        }
    } else if !answers(s.round, answer) {
        s
    } else {
        match answer {
            AnswerModel::Account { linked, call } => after_account(s, linked, call),
            AnswerModel::Operations(operations) => after_operations(s, operations),
            AnswerModel::Contacts { contacts, diagnostics } => after_contacts(
                s,
                s.round->Contacts_selected,
                s.round->Contacts_asked,
                contacts,
                diagnostics,
                now,
            ),
            AnswerModel::Kept => after_keeping(
                s,
                s.round->Keep_selected,
                s.round->Keep_asked,
                s.round->contacts,
                s.round->plan,
            ),
            AnswerModel::Failed(_) => s,
        }
    }
}

impl Round {
    /// The beginning of a round: a client that is not registered registers.
    pub fn begin(state: &SyncState) -> (r: Round)
        ensures
            r@ == if state@.registered {
                RoundModel::Account
            } else {
                RoundModel::Register
            },
    {
        match state.account_question() {
            AccountQuestion::Register => Round::Register,
            AccountQuestion::Account => Round::Account,
        }
    }

    /// Takes in an answer.
    pub fn advance(
        self,
        runtime: &mut Runtime,
        state: &mut SyncState,
        answer: Answer,
        now: Timestamp,
    ) -> (r: Round)
        ensures
            (Standing { round: r@, runtime: final(runtime)@, sync: final(state)@ }) == advanced(
                Standing { round: self@, runtime: old(runtime)@, sync: old(state)@ },
                answer@,
                now@,
            ),
    {
        match (self, answer) {
            (Round::Done, _) => Round::Done,
            (_, Answer::Failed(error)) => {
                runtime.on_sync_error(error.as_str());
                Round::Done
            },
            (Round::Register, Answer::Account(account)) => {
                if state.on_account(runtime, &account) {
                    Round::Operations
                } else {
                    Round::Done
                }
            },
            (Round::Account, Answer::Account(account)) => {
                if state.on_account(runtime, &account) {
                    Round::Operations
                } else {
                    Round::Done
                }
            },
            (Round::Operations, Answer::Operations(operations)) => {
                match sync::on_operations(runtime, operations) {
                    Some(selected) => {
                        let asked = state.contacts_question(selected.as_str());
                        Round::Contacts { selected, asked }
                    },
                    None => Round::Done,
                }
            },
            (Round::Contacts { selected, asked }, Answer::Contacts { contacts, diagnostics }) => {
                match runtime.plan_sync(&contacts, diagnostics, asked, now) {
                    Some(plan) => Round::Keep { selected, asked, contacts, plan },
                    None => {
                        state.finish(selected.as_str(), &contacts, asked);
                        Round::Done
                    },
                }
            },
            (Round::Keep { selected, asked, contacts, plan }, Answer::Kept) => {
                runtime.commit_sync(plan);
                state.finish(selected.as_str(), &contacts, asked);
                Round::Done
            },
            (round, _) => round,
        }
    }
}

/// A log takes effect only once it is kept, and is noted as fetched only after that; while the
/// demonstration runs it is noted without taking effect. Whatever else comes back, the log, what is
/// told of it and how far the synchronization has come stay as they are.
pub proof fn law_kept_before_effect(s: Standing, answer: AnswerModel, now: Instant)
    ensures
        ({
            let after = advanced(s, answer, now);
            let kept = s.round is Keep && answer is Kept;
            let shown = s.round is Contacts && answer is Contacts && s.runtime.demo;
            &&& !kept ==> after.runtime.qsos == s.runtime.qsos && after.runtime.source
                == s.runtime.source && after.runtime.source_kind == s.runtime.source_kind
                && after.runtime.source_freshness == s.runtime.source_freshness
                && after.runtime.source_diagnostics == s.runtime.source_diagnostics
                && after.runtime.import_diagnostics == s.runtime.import_diagnostics
            &&& kept ==> after.round is Done && after.runtime.qsos == s.round->plan.qsos
                && after.sync.selected_seen == Some(s.round->Keep_selected)
            &&& !kept && !shown ==> after.sync.selected_seen == s.sync.selected_seen
                && after.sync.watermark == s.sync.watermark
        }),
{
}

/// A failure ends a round with the log and how far the synchronization has come as they were.
pub proof fn law_failure_changes_nothing(s: Standing, error: Seq<char>, now: Instant)
    requires
        !(s.round is Done),
    ensures
        ({
            let after = advanced(s, AnswerModel::Failed(error), now);
            &&& after.round is Done
            &&& after.sync == s.sync
            &&& after.runtime == sync::with_sync_error(s.runtime, error)
        }),
{
}

/// How many answers a round can still take.
pub open spec fn steps_left(round: RoundModel) -> nat {
    match round {
        RoundModel::Register => 4,
        RoundModel::Account => 4,
        RoundModel::Operations => 3,
        RoundModel::Contacts { .. } => 2,
        RoundModel::Keep { .. } => 1,
        RoundModel::Done => 0,
    }
}

/// Every round ends: each answer to what it does, and each failure, brings it nearer to its end.
pub proof fn law_rounds_end(s: Standing, answer: AnswerModel, now: Instant)
    requires
        !(s.round is Done),
        answers(s.round, answer) || answer is Failed,
    ensures
        steps_left(advanced(s, answer, now).round) < steps_left(s.round),
{
}

/// A round asks for the account, then the operations, then the contacts of the one that is chosen,
/// and then keeps the log. Without a link, or without an operation, it is over.
pub proof fn law_steps_of_a_round(s: Standing, answer: AnswerModel, now: Instant)
    requires
        answers(s.round, answer),
    ensures
        ({
            let after = advanced(s, answer, now);
            &&& answer matches AnswerModel::Account { linked, call } ==> {
                &&& linked ==> after.round is Operations
                &&& !linked ==> after.round is Done
                &&& after.sync.registered
                &&& after.runtime.lofi_account_call == call
            }
            &&& answer matches AnswerModel::Operations(operations) ==> {
                &&& after.runtime.operations == operations
                &&& operations.len() == 0 ==> after.round is Done
                &&& after.round is Done <==> after.runtime.selected_operation is None
                &&& after.round matches RoundModel::Contacts { selected, asked } ==> Some(selected)
                    == after.runtime.selected_operation && asked.changed == (s.sync.selected_seen
                    != Some(selected)) && (asked.changed ==> asked.watermark is None) && (
                !asked.changed ==> asked.watermark == s.sync.watermark)
                &&& after.round is Done || after.round is Contacts
            }
            &&& answer matches AnswerModel::Contacts { contacts, diagnostics } ==> {
                &&& s.runtime.demo ==> after.round is Done && after.sync.selected_seen == Some(
                    s.round->Contacts_selected,
                )
                &&& !s.runtime.demo ==> after.round is Keep && after.round->Keep_selected
                    == s.round->Contacts_selected && after.round->contacts == contacts
                    && after.round->plan.freshness == now
            }
            &&& answer is Kept ==> after.round is Done && after.runtime.source_freshness == Some(
                s.round->plan.freshness,
            ) && after.runtime.source_diagnostics == s.round->plan.source_diagnostics
        }),
{
    if let AnswerModel::Operations(operations) = answer {
        sync::law_choice_stands(s.runtime, operations);
    }
}

/// An answer to something else, and any answer once the round is over, leaves everything as it is.
pub proof fn law_other_answers_change_nothing(s: Standing, answer: AnswerModel, now: Instant)
    requires
        s.round is Done || (!(answer is Failed) && !answers(s.round, answer)),
    ensures
        advanced(s, answer, now) == s,
{
}

/// Each kind of answer is one to its own question.
pub proof fn law_what_answers_a_question(round: RoundModel, answer: AnswerModel)
    ensures
        answers(round, answer) <==> {
            ||| (round is Register || round is Account) && answer is Account
            ||| round is Operations && answer is Operations
            ||| round is Contacts && answer is Contacts
            ||| round is Keep && answer is Kept
        },
{
}

} // verus!
