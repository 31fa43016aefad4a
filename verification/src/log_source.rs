//! Updates of the log by its sources.
use vstd::prelude::*;

use crate::model::Qso;
use crate::model::QsoModel;
use crate::string_map;
use crate::string_map::Duplicate;
use crate::string_map::StringMap;

verus! {

/// The kinds of log source.
#[derive(Debug, Clone, Copy, PartialEq, Eq, Structural)]
pub enum LogSourceKind {
    Adif,
    Lofi,
}

/// Contacts from a source: the whole log, or what to add to it and replace in it.
#[derive(Debug)]
pub struct LogUpdate {
    pub source: LogSourceKind,
    pub qsos: Vec<Qso>,
    pub replace: bool,
}

/// How many contacts of an update were new, different or the same.
#[derive(Debug, Clone, Copy, PartialEq, Eq, Structural)]
pub struct MergeSummary {
    pub source: LogSourceKind,
    pub added: usize,
    pub updated: usize,
    pub unchanged: usize,
}

/// A log: contacts by their identifiers.
pub type Log = StringMap<Qso>;

/// `log` with each of `qsos`, one after the other, put in the place of its identifier.
pub open spec fn merged(log: Seq<(Seq<char>, QsoModel)>, qsos: Seq<QsoModel>) -> Seq<
    (Seq<char>, QsoModel),
>
    decreases qsos.len(),
{
    if qsos.len() == 0 {
        log
    } else {
        string_map::inserted(merged(log, qsos.drop_last()), qsos.last().id, qsos.last())
    }
}

/// What a contact is to a log.
pub enum Novelty {
    Added,
    Updated,
    Unchanged,
}

pub open spec fn novelty(log: Seq<(Seq<char>, QsoModel)>, q: QsoModel) -> Novelty {
    match string_map::lookup(log, q.id) {
        None => Novelty::Added,
        Some(known) => if known == q {
            Novelty::Unchanged
        } else {
            Novelty::Updated
        },
    }
}

/// How many of `qsos` are `what` to `log`.
pub open spec fn count(log: Seq<(Seq<char>, QsoModel)>, qsos: Seq<QsoModel>, what: Novelty) -> nat
    decreases qsos.len(),
{
    if qsos.len() == 0 {
        0
    } else {
        count(log, qsos.drop_last(), what) + if novelty(log, qsos.last()) == what {
            1nat
        } else {
            0nat
        }
    }
}

/// The log after an update.
pub open spec fn updated_log(
    log: Seq<(Seq<char>, QsoModel)>,
    qsos: Seq<QsoModel>,
    replace: bool,
) -> Seq<(Seq<char>, QsoModel)> {
    if replace {
        merged(Seq::empty(), qsos)
    } else {
        merged(log, qsos)
    }
}

/// The summary tells how the contacts of an update compare with the log before it.
pub open spec fn summarizes(
    summary: MergeSummary,
    log: Seq<(Seq<char>, QsoModel)>,
    qsos: Seq<QsoModel>,
) -> bool {
    &&& summary.added == count(log, qsos, Novelty::Added)
    &&& summary.updated == count(log, qsos, Novelty::Updated)
    &&& summary.unchanged == count(log, qsos, Novelty::Unchanged)
}

proof fn lemma_count_sum(log: Seq<(Seq<char>, QsoModel)>, qsos: Seq<QsoModel>)
    ensures
        count(log, qsos, Novelty::Added) + count(log, qsos, Novelty::Updated) + count(
            log,
            qsos,
            Novelty::Unchanged,
        ) == qsos.len(),
    decreases qsos.len(),
{
    if qsos.len() > 0 {
        lemma_count_sum(log, qsos.drop_last());
    }
}

impl LogUpdate {
    /// An incremental update from an ADIF file.
    pub fn adif(qsos: Vec<Qso>) -> (r: Self)
        ensures
            r.source == LogSourceKind::Adif,
            r.qsos == qsos,
            !r.replace,
    {
        LogUpdate { source: LogSourceKind::Adif, qsos, replace: false }
    }

    /// An update from the log service.
    pub fn lofi(qsos: Vec<Qso>, replace: bool) -> (r: Self)
        ensures
            r.source == LogSourceKind::Lofi,
            r.qsos == qsos,
            r.replace == replace,
    {
        LogUpdate { source: LogSourceKind::Lofi, qsos, replace }
    }

    /// Updates `existing`.
    pub fn apply(self, existing: &mut Log) -> (r: MergeSummary)
        ensures
            final(existing)@ == updated_log(
                old(existing)@,
                string_map::views(self.qsos@),
                self.replace,
            ),
            r.source == self.source,
            summarizes(r, old(existing)@, string_map::views(self.qsos@)),
    {
        let ghost log = existing@;
        let ghost base = if self.replace {
            Seq::empty()
        } else {
            log
        };
        let ghost all = string_map::views(self.qsos@);
        let mut next: Log = if self.replace {
            StringMap::new()
        } else {
            existing.duplicate()
        };
        let mut summary = MergeSummary { source: self.source, added: 0, updated: 0, unchanged: 0 };
        let mut i: usize = 0;
        assert(all.take(0) =~= Seq::empty());
        while i < self.qsos.len()
            invariant
                i <= self.qsos@.len(),
                existing@ == log,
                all == string_map::views(self.qsos@),
                summary.source == self.source,
                next@ == merged(base, all.take(i as int)),
                summarizes(summary, log, all.take(i as int)),
            decreases self.qsos.len() - i,
        {
            proof {
                lemma_count_sum(log, all.take(i as int));
                assert(all.take(i + 1).drop_last() =~= all.take(i as int));
                assert(all.take(i + 1).last() == self.qsos@[i as int]@);
            }
            let qso = &self.qsos[i];
            match existing.get(qso.id.as_str()) {
                None => {
                    summary.added = summary.added + 1;
                },
                Some(known) => {
                    if materially_equal(known, qso) {
                        summary.unchanged = summary.unchanged + 1;
                    } else {
                        summary.updated = summary.updated + 1;
                    }
                },
            }
            next.insert(qso.id.clone(), qso.duplicate());
            i = i + 1;
        }
        assert(all.take(all.len() as int) =~= all);
        *existing = next;
        summary
    }
}

fn materially_equal(left: &Qso, right: &Qso) -> (r: bool)
    ensures
        r == (left@ == right@),
{
    left.same(right)
}

// ---------------------------------------------------------------------------------------------
// Laws of updates
// ---------------------------------------------------------------------------------------------
/// The last of `qsos` with the identifier `id`.
pub open spec fn last_with(qsos: Seq<QsoModel>, id: Seq<char>) -> Option<QsoModel>
    decreases qsos.len(),
{
    if qsos.len() == 0 {
        None
    } else if qsos.last().id == id {
        Some(qsos.last())
    } else {
        last_with(qsos.drop_last(), id)
    }
}

/// An incremental update replaces the contacts whose identifiers it names, deleted ones among
/// them, adds those that are new, and leaves every other contact as it was.
pub proof fn law_incremental_update(
    log: Seq<(Seq<char>, QsoModel)>,
    qsos: Seq<QsoModel>,
    id: Seq<char>,
)
    requires
        string_map::ordered(log),
    ensures
        string_map::ordered(merged(log, qsos)),
        string_map::lookup(merged(log, qsos), id) == match last_with(qsos, id) {
            Some(q) => Some(q),
            None => string_map::lookup(log, id),
        },
    decreases qsos.len(),
{
    if qsos.len() > 0 {
        let front = qsos.drop_last();
        law_incremental_update(log, front, id);
        string_map::lemma_inserted(merged(log, front), qsos.last().id, qsos.last());
        if qsos.last().id != id {
            assert(string_map::lookup(merged(log, qsos), id) == string_map::lookup(
                merged(log, front),
                id,
            ));
        }
    }
}

/// A full update leaves exactly the contacts that it names.
pub proof fn law_full_update(
    log: Seq<(Seq<char>, QsoModel)>,
    qsos: Seq<QsoModel>,
    id: Seq<char>,
)
    ensures
        string_map::lookup(updated_log(log, qsos, true), id) == last_with(qsos, id),
{
    let empty = Seq::<(Seq<char>, QsoModel)>::empty();
    law_incremental_update(empty, qsos, id);
    string_map::lemma_slot_splits(empty, id);
}

/// Applying an update a second time changes nothing.
pub proof fn law_update_is_idempotent(
    log: Seq<(Seq<char>, QsoModel)>,
    qsos: Seq<QsoModel>,
    replace: bool,
)
    requires
        string_map::ordered(log),
    ensures
        updated_log(updated_log(log, qsos, replace), qsos, replace) == updated_log(
            log,
            qsos,
            replace,
        ),
{
    if !replace {
        let once = merged(log, qsos);
        let twice = merged(once, qsos);
        law_incremental_update(log, qsos, Seq::empty());
        law_incremental_update(once, qsos, Seq::empty());
        assert forall|k: Seq<char>| #[trigger]
            string_map::lookup(twice, k) == string_map::lookup(once, k) by {
            law_incremental_update(log, qsos, k);
            law_incremental_update(once, qsos, k);
        }
        string_map::lemma_same_lookups(twice, once);
    }
}

/// Applying an update and then the same one with more contacts behind gives what the longer one
/// gives alone.
pub proof fn law_growing_update(
    log: Seq<(Seq<char>, QsoModel)>,
    qsos: Seq<QsoModel>,
    more: Seq<QsoModel>,
)
    requires
        string_map::ordered(log),
    ensures
        merged(merged(log, qsos), qsos + more) == merged(log, qsos + more),
{
    let once = merged(log, qsos);
    let all = qsos + more;
    law_incremental_update(log, qsos, Seq::empty());
    law_incremental_update(once, all, Seq::empty());
    law_incremental_update(log, all, Seq::empty());
    assert forall|k: Seq<char>| #[trigger]
        string_map::lookup(merged(once, all), k) == string_map::lookup(merged(log, all), k) by {
        law_incremental_update(log, qsos, k);
        law_incremental_update(once, all, k);
        law_incremental_update(log, all, k);
        lemma_last_of_joined(qsos, more, k);
    }
    string_map::lemma_same_lookups(merged(once, all), merged(log, all));
}

/// Merging contacts and then more is merging all of them.
pub proof fn lemma_merged_append(
    log: Seq<(Seq<char>, QsoModel)>,
    qsos: Seq<QsoModel>,
    more: Seq<QsoModel>,
)
    ensures
        merged(merged(log, qsos), more) == merged(log, qsos + more),
    decreases more.len(),
{
    if more.len() == 0 {
        assert(qsos + more =~= qsos);
    } else {
        assert((qsos + more).drop_last() =~= qsos + more.drop_last());
        lemma_merged_append(log, qsos, more.drop_last());
    }
}

proof fn lemma_last_of_joined(a: Seq<QsoModel>, b: Seq<QsoModel>, id: Seq<char>)
    ensures
        last_with(a + b, id) == match last_with(b, id) {
            Some(q) => Some(q),
            None => last_with(a, id),
        },
    decreases b.len(),
{
    if b.len() == 0 {
        assert(a + b =~= a);
    } else {
        assert((a + b).drop_last() =~= a + b.drop_last());
        lemma_last_of_joined(a, b.drop_last(), id);
    }
}

/// An update that is applied again adds no contact, whatever it holds.
pub proof fn law_repeated_update_adds_nothing(
    log: Seq<(Seq<char>, QsoModel)>,
    qsos: Seq<QsoModel>,
)
    requires
        string_map::ordered(log),
    ensures
        count(merged(log, qsos), qsos, Novelty::Added) == 0,
{
    lemma_none_added(log, qsos, qsos.len() as int);
    assert(qsos.take(qsos.len() as int) =~= qsos);
}

proof fn lemma_none_added(log: Seq<(Seq<char>, QsoModel)>, qsos: Seq<QsoModel>, n: int)
    requires
        string_map::ordered(log),
        0 <= n <= qsos.len(),
    ensures
        count(merged(log, qsos), qsos.take(n), Novelty::Added) == 0,
    decreases n,
{
    if n > 0 {
        lemma_none_added(log, qsos, n - 1);
        assert(qsos.take(n).drop_last() =~= qsos.take(n - 1));
        assert(qsos.take(n).last() == qsos[n - 1]);
        law_incremental_update(log, qsos, qsos[n - 1].id);
        lemma_last_with(qsos, n - 1);
    }
}

/// No two contacts of an update have the same identifier and differ.
pub open spec fn consistent(qsos: Seq<QsoModel>) -> bool {
    forall|i: int, j: int|
        0 <= i < qsos.len() && 0 <= j < qsos.len() && (#[trigger] qsos[i]).id == (
        #[trigger] qsos[j]).id ==> qsos[i] == qsos[j]
}

/// Importing a growing export again counts what was there as unchanged: nothing of an update
/// that was applied is new or different the next time.
pub proof fn law_repeated_update_is_unchanged(
    log: Seq<(Seq<char>, QsoModel)>,
    qsos: Seq<QsoModel>,
)
    requires
        string_map::ordered(log),
        consistent(qsos),
    ensures
        count(merged(log, qsos), qsos, Novelty::Unchanged) == qsos.len(),
        count(merged(log, qsos), qsos, Novelty::Added) == 0,
        count(merged(log, qsos), qsos, Novelty::Updated) == 0,
{
    lemma_all_unchanged(log, qsos, qsos.len() as int);
    assert(qsos.take(qsos.len() as int) =~= qsos);
    lemma_count_sum(merged(log, qsos), qsos);
}

proof fn lemma_all_unchanged(log: Seq<(Seq<char>, QsoModel)>, qsos: Seq<QsoModel>, n: int)
    requires
        string_map::ordered(log),
        consistent(qsos),
        0 <= n <= qsos.len(),
    ensures
        count(merged(log, qsos), qsos.take(n), Novelty::Unchanged) == n,
    decreases n,
{
    if n > 0 {
        lemma_all_unchanged(log, qsos, n - 1);
        assert(qsos.take(n).drop_last() =~= qsos.take(n - 1));
        let q = qsos[n - 1];
        assert(qsos.take(n).last() == q);
        law_incremental_update(log, qsos, q.id);
        lemma_last_with(qsos, n - 1);
    }
}

proof fn lemma_last_with(qsos: Seq<QsoModel>, i: int)
    requires
        0 <= i < qsos.len(),
    ensures
        last_with(qsos, qsos[i].id) is Some,
        exists|j: int| 0 <= j < qsos.len() && #[trigger] qsos[j] == last_with(qsos, qsos[i].id)->0,
        (last_with(qsos, qsos[i].id)->0).id == qsos[i].id,
    decreases qsos.len(),
{
    if qsos.last().id == qsos[i].id {
        assert(qsos[qsos.len() - 1] == qsos.last());
    } else {
        let front = qsos.drop_last();
        assert(front[i] == qsos[i]);
        lemma_last_with(front, i);
        let j = choose|j: int|
            0 <= j < front.len() && #[trigger] front[j] == last_with(front, qsos[i].id)->0;
        assert(qsos[j] == front[j]);
    }
}

/// Every contact of an update is new, different or unchanged, and counted once as that.
pub proof fn law_every_contact_is_counted(log: Seq<(Seq<char>, QsoModel)>, qsos: Seq<QsoModel>)
    ensures
        count(log, qsos, Novelty::Added) + count(log, qsos, Novelty::Updated) + count(
            log,
            qsos,
            Novelty::Unchanged,
        ) == qsos.len(),
{
    lemma_count_sum(log, qsos);
}

/// A contact is new to a log that has none of its identifier, unchanged where the log has it as it
/// is, and else an update; one more contact is one more of what it is to the log, and nothing else.
pub proof fn law_what_a_contact_is_to_a_log(
    log: Seq<(Seq<char>, QsoModel)>,
    qsos: Seq<QsoModel>,
    q: QsoModel,
    i: int,
)
    requires
        string_map::ordered(log),
    ensures
        ({
            let more = qsos.push(q);
            let absent = forall|k: int| 0 <= k < log.len() ==> (#[trigger] log[k]).0 != q.id;
            let same = 0 <= i < log.len() && log[i] == (q.id, q);
            let differs = 0 <= i < log.len() && log[i].0 == q.id && log[i].1 != q;
            &&& absent ==> count(log, more, Novelty::Added) == count(log, qsos, Novelty::Added) + 1
            &&& same ==> count(log, more, Novelty::Unchanged) == count(log, qsos, Novelty::Unchanged)
                + 1
            &&& differs ==> count(log, more, Novelty::Updated) == count(log, qsos, Novelty::Updated)
                + 1
            &&& !absent ==> count(log, more, Novelty::Added) == count(log, qsos, Novelty::Added)
        }),
{
    let more = qsos.push(q);
    assert(more.drop_last() =~= qsos);
    if 0 <= i < log.len() && log[i].0 == q.id {
        string_map::lemma_position(log, i);
    }
    if exists|k: int| 0 <= k < log.len() && (#[trigger] log[k]).0 == q.id {
        let k = choose|k: int| 0 <= k < log.len() && (#[trigger] log[k]).0 == q.id;
        string_map::lemma_position(log, k);
    }
}

/// Of the contacts of an update with one identifier the last counts: it is what the log holds of it
/// after the update, and what the log held of every other identifier it still holds.
pub proof fn law_last_update_counts(
    log: Seq<(Seq<char>, QsoModel)>,
    qsos: Seq<QsoModel>,
    i: int,
    id: Seq<char>,
)
    requires
        string_map::ordered(log),
    ensures
        0 <= i < qsos.len() && (forall|k: int|
            i < k < qsos.len() ==> (#[trigger] qsos[k]).id != qsos[i].id) ==> merged(
            log,
            qsos,
        ).contains((qsos[i].id, qsos[i])),
        (forall|k: int| 0 <= k < qsos.len() ==> (#[trigger] qsos[k]).id != id)
            ==> string_map::lookup(merged(log, qsos), id) == string_map::lookup(log, id),
        (forall|k: int| 0 <= k < qsos.len() ==> (#[trigger] qsos[k]).id != id)
            ==> string_map::lookup(updated_log(log, qsos, true), id) is None,
        0 <= i < qsos.len() && (forall|k: int|
            i < k < qsos.len() ==> (#[trigger] qsos[k]).id != qsos[i].id) ==> updated_log(
            log,
            qsos,
            true,
        ).contains((qsos[i].id, qsos[i])),
        updated_log(log, qsos, false) == merged(log, qsos),
    decreases qsos.len(),
{
    lemma_last_put_in(log, qsos, i, id);
    let empty = Seq::<(Seq<char>, QsoModel)>::empty();
    lemma_last_put_in(empty, qsos, i, id);
    string_map::lemma_slot_splits(empty, id);
}

proof fn lemma_last_put_in(
    log: Seq<(Seq<char>, QsoModel)>,
    qsos: Seq<QsoModel>,
    i: int,
    id: Seq<char>,
)
    requires
        string_map::ordered(log),
    ensures
        string_map::ordered(merged(log, qsos)),
        0 <= i < qsos.len() && (forall|k: int|
            i < k < qsos.len() ==> (#[trigger] qsos[k]).id != qsos[i].id) ==> merged(
            log,
            qsos,
        ).contains((qsos[i].id, qsos[i])) && string_map::lookup(merged(log, qsos), qsos[i].id)
            == Some(qsos[i]),
        (forall|k: int| 0 <= k < qsos.len() ==> (#[trigger] qsos[k]).id != id)
            ==> string_map::lookup(merged(log, qsos), id) == string_map::lookup(log, id),
    decreases qsos.len(),
{
    if qsos.len() > 0 {
        let front = qsos.drop_last();
        let q = qsos.last();
        assert(forall|k: int| 0 <= k < front.len() ==> #[trigger] front[k] == qsos[k]);
        assert(qsos[qsos.len() - 1] == q);
        lemma_last_put_in(log, front, i, id);
        let m = merged(log, front);
        string_map::lemma_inserted(m, q.id, q);
        string_map::lemma_slot_splits(m, q.id);
        let r = merged(log, qsos);
        if 0 <= i < qsos.len() && (forall|k: int|
            i < k < qsos.len() ==> (#[trigger] qsos[k]).id != qsos[i].id) {
            let x = qsos[i];
            if i < front.len() {
                assert(q.id != x.id);
                assert(string_map::lookup(r, x.id) == string_map::lookup(m, x.id));
            }
            assert(string_map::lookup(r, x.id) == Some(x));
            string_map::lemma_slot_splits(r, x.id);
            let p = string_map::slot(r, x.id);
            assert(r[p] == (x.id, x));
        }
        if forall|k: int| 0 <= k < qsos.len() ==> (#[trigger] qsos[k]).id != id {
            assert(string_map::lookup(r, id) == string_map::lookup(m, id));
        }
    }
}

} // verus!
