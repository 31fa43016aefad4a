//! What is known of a station, where it is known from, and what to conclude from it.
use vstd::prelude::*;

use crate::model;
use crate::string_map;
use crate::string_map::Duplicate;
use crate::text;
use crate::time;
use crate::time::Instant;
use crate::time::Timestamp;

verus! {

/// Where a piece of evidence comes from.
#[derive(Debug, Clone, Copy, PartialEq, Eq, Structural)]
pub enum EvidenceSource {
    LocalQso,
    ReverseBeaconNetwork,
    ContestOnlineScoreboard,
    TeamRegistration,
    CallHistory,
    Callbook,
    Prefix,
}

/// How sure it is that a station takes part, from the least sure on.
#[derive(Debug, Clone, Copy, PartialEq, Eq, PartialOrd, Ord, Structural)]
pub enum ParticipationConfidence {
    Unknown,
    Probable,
    Declared,
    Confirmed,
}

/// How sure a station's location is, from the least sure on.
#[derive(Debug, Clone, Copy, PartialEq, Eq, PartialOrd, Ord, Structural)]
pub enum LocationConfidence {
    Unknown,
    PrefixOnly,
    Callbook,
    History,
    ContestDeclared,
    Verified,
}

/// How sure an operator's name is, from the least sure on.
#[derive(Debug, Clone, Copy, PartialEq, Eq, PartialOrd, Ord, Structural)]
pub enum NameConfidence {
    Unknown,
    History,
    Verified,
}

impl ParticipationConfidence {
    /// The place in the order of confidence.
    pub open spec fn rank(self) -> int {
        match self {
            ParticipationConfidence::Unknown => 0,
            ParticipationConfidence::Probable => 1,
            ParticipationConfidence::Declared => 2,
            ParticipationConfidence::Confirmed => 3,
        }
    }

    pub fn level(self) -> (r: u8)
        ensures
            r == self.rank(),
    {
        match self {
            ParticipationConfidence::Unknown => 0,
            ParticipationConfidence::Probable => 1,
            ParticipationConfidence::Declared => 2,
            ParticipationConfidence::Confirmed => 3,
        }
    }
}

impl LocationConfidence {
    /// The place in the order of confidence.
    pub open spec fn rank(self) -> int {
        match self {
            LocationConfidence::Unknown => 0,
            LocationConfidence::PrefixOnly => 1,
            LocationConfidence::Callbook => 2,
            LocationConfidence::History => 3,
            LocationConfidence::ContestDeclared => 4,
            LocationConfidence::Verified => 5,
        }
    }

    pub fn level(self) -> (r: u8)
        ensures
            r == self.rank(),
    {
        match self {
            LocationConfidence::Unknown => 0,
            LocationConfidence::PrefixOnly => 1,
            LocationConfidence::Callbook => 2,
            LocationConfidence::History => 3,
            LocationConfidence::ContestDeclared => 4,
            LocationConfidence::Verified => 5,
        }
    }
}

impl NameConfidence {
    /// The place in the order of confidence.
    pub open spec fn rank(self) -> int {
        match self {
            NameConfidence::Unknown => 0,
            NameConfidence::History => 1,
            NameConfidence::Verified => 2,
        }
    }

    pub fn level(self) -> (r: u8)
        ensures
            r == self.rank(),
    {
        match self {
            NameConfidence::Unknown => 0,
            NameConfidence::History => 1,
            NameConfidence::Verified => 2,
        }
    }
}

/// Evidence that expires at `expires_at`, if at all, still counts at `now`.
pub open spec fn counts_at(expires_at: Option<Instant>, now: Instant) -> bool {
    match expires_at {
        Some(t) => !time::no_later(t, now),
        None => true,
    }
}

fn still_counts(expires_at: Option<Timestamp>, now: Timestamp) -> (r: bool)
    ensures
        r == counts_at(time::opt_time(expires_at), now@),
{
    match expires_at {
        Some(t) => !t.not_after(now),
        None => true,
    }
}

// ---------------------------------------------------------------------------------------------
// Participation
// ---------------------------------------------------------------------------------------------
#[derive(Debug, Clone, Copy)]
pub struct ParticipationEvidence {
    pub confidence: ParticipationConfidence,
    pub source: EvidenceSource,
    pub observed_at: Timestamp,
    pub expires_at: Option<Timestamp>,
}

impl ParticipationEvidence {
    pub fn is_fresh(&self, now: Timestamp) -> (r: bool)
        ensures
            r == counts_at(time::opt_time(self.expires_at), now@),
    {
        still_counts(self.expires_at, now)
    }
}

#[derive(Debug)]
pub struct ParticipationConclusion {
    pub confidence: ParticipationConfidence,
    pub evidence: Vec<ParticipationEvidence>,
}

/// The evidence of `s` that still counts at `now`, in order.
pub open spec fn fresh_participation(s: Seq<ParticipationEvidence>, now: Instant) -> Seq<
    ParticipationEvidence,
>
    decreases s.len(),
{
    if s.len() == 0 {
        s
    } else if counts_at(time::opt_time(s.last().expires_at), now) {
        fresh_participation(s.drop_last(), now).push(s.last())
    } else {
        fresh_participation(s.drop_last(), now)
    }
}

/// The strongest confidence in `s`; unknown where there is none.
pub open spec fn strongest_participation(
    s: Seq<ParticipationEvidence>,
) -> ParticipationConfidence
    decreases s.len(),
{
    if s.len() == 0 {
        ParticipationConfidence::Unknown
    } else {
        let rest = strongest_participation(s.drop_last());
        if s.last().confidence.rank() > rest.rank() {
            s.last().confidence
        } else {
            rest
        }
    }
}

// ---------------------------------------------------------------------------------------------
// Names and locations
// ---------------------------------------------------------------------------------------------
/// The model of a piece of evidence for a name or a location. Its confidence is the place in the
/// order of confidence.
#[verifier::ext_equal]
pub struct EvidenceModel {
    pub value: Seq<char>,
    pub confidence: int,
    pub source: EvidenceSource,
    pub observed_at: Instant,
    pub expires_at: Option<Instant>,
}

/// The evidence of `s` that still counts at `now`, in order.
pub open spec fn fresh(s: Seq<EvidenceModel>, now: Instant) -> Seq<EvidenceModel>
    decreases s.len(),
{
    if s.len() == 0 {
        s
    } else if counts_at(s.last().expires_at, now) {
        fresh(s.drop_last(), now).push(s.last())
    } else {
        fresh(s.drop_last(), now)
    }
}

/// `a` is at least as strong as `b`: more confident, or as confident and observed no earlier.
pub open spec fn at_least_as_strong(a: EvidenceModel, b: EvidenceModel) -> bool {
    a.confidence > b.confidence || (a.confidence == b.confidence && time::no_later(
        b.observed_at,
        a.observed_at,
    ))
}

/// The position of the strongest evidence; of equally strong evidence the last decides.
pub open spec fn strongest(s: Seq<EvidenceModel>) -> int
    decreases s.len(),
{
    if s.len() <= 1 {
        0
    } else {
        let i = strongest(s.drop_last());
        if at_least_as_strong(s.last(), s[i]) {
            s.len() - 1
        } else {
            i
        }
    }
}

/// The evidence of `s` that gives another value than `value`, the case of letters apart.
pub open spec fn disagreeing(s: Seq<EvidenceModel>, value: Seq<char>) -> Seq<EvidenceModel>
    decreases s.len(),
{
    if s.len() == 0 {
        s
    } else if text::same_letters(s.last().value, value) {
        disagreeing(s.drop_last(), value)
    } else {
        disagreeing(s.drop_last(), value).push(s.last())
    }
}

/// What follows from evidence at some time.
#[verifier::ext_equal]
pub struct ConclusionModel {
    pub value: Option<Seq<char>>,
    pub confidence: int,
    pub evidence: Seq<EvidenceModel>,
    pub conflicts: Seq<EvidenceModel>,
}

/// The conclusion from all of `s` at `now`: the value of the strongest evidence that still
/// counts, and the evidence that contradicts it.
pub open spec fn conclusion(s: Seq<EvidenceModel>, now: Instant) -> ConclusionModel {
    let e = fresh(s, now);
    if e.len() == 0 {
        ConclusionModel {
            value: None,
            confidence: 0,
            evidence: Seq::empty(),
            conflicts: Seq::empty(),
        }
    } else {
        let best = e[strongest(e)];
        ConclusionModel {
            value: Some(best.value),
            confidence: best.confidence,
            evidence: e,
            conflicts: disagreeing(e, best.value),
        }
    }
}

/// The evidence that decides is as strong as any other, and stronger than any behind it.
pub proof fn law_strongest(s: Seq<EvidenceModel>)
    requires
        s.len() > 0,
    ensures
        0 <= strongest(s) < s.len(),
        forall|i: int| 0 <= i < s.len() ==> at_least_as_strong(s[strongest(s)], #[trigger] s[i]),
        forall|i: int|
            strongest(s) < i < s.len() ==> !at_least_as_strong(#[trigger] s[i], s[strongest(s)]),
    decreases s.len(),
{
    if s.len() > 1 {
        law_strongest(s.drop_last());
        let k = strongest(s.drop_last());
        assert(s.drop_last()[k] == s[k]);
        assert forall|i: int| 0 <= i < s.len() implies at_least_as_strong(
            s[strongest(s)],
            #[trigger] s[i],
        ) by {
            if i < s.len() - 1 {
                assert(s[i] == s.drop_last()[i]);
            }
        }
        assert forall|i: int| strongest(s) < i < s.len() implies !at_least_as_strong(
            #[trigger] s[i],
            s[strongest(s)],
        ) by {
            if i < s.len() - 1 {
                assert(s[i] == s.drop_last()[i]);
            }
        }
    }
}

/// Evidence from a contact of the contest outranks every prediction: a verified location is what
/// is concluded, whatever else is known.
pub proof fn law_verified_location_wins(s: Seq<EvidenceModel>, now: Instant, i: int)
    requires
        0 <= i < fresh(s, now).len(),
        fresh(s, now)[i].confidence == LocationConfidence::Verified.rank(),
        forall|j: int|
            0 <= j < fresh(s, now).len() ==> (#[trigger] fresh(s, now)[j]).confidence
                <= LocationConfidence::Verified.rank(),
    ensures
        conclusion(s, now).confidence == LocationConfidence::Verified.rank(),
        conclusion(s, now).value is Some,
{
    law_strongest(fresh(s, now));
}

/// Evidence that has expired plays no part: the conclusion is that from the rest alone.
pub proof fn law_expired_evidence_is_left_out(s: Seq<EvidenceModel>, now: Instant)
    ensures
        forall|j: int|
            0 <= j < fresh(s, now).len() ==> counts_at(
                (#[trigger] fresh(s, now)[j]).expires_at,
                now,
            ),
        conclusion(fresh(s, now), now) == conclusion(s, now),
    decreases s.len(),
{
    lemma_fresh_is_fresh(s, now);
}

proof fn lemma_fresh_is_fresh(s: Seq<EvidenceModel>, now: Instant)
    ensures
        fresh(fresh(s, now), now) == fresh(s, now),
        forall|j: int|
            0 <= j < fresh(s, now).len() ==> counts_at(
                (#[trigger] fresh(s, now)[j]).expires_at,
                now,
            ),
    decreases s.len(),
{
    if s.len() > 0 {
        lemma_fresh_is_fresh(s.drop_last(), now);
        let r = fresh(s.drop_last(), now);
        if counts_at(s.last().expires_at, now) {
            assert(r.push(s.last()).drop_last() =~= r);
        }
    }
}

/// No conflict agrees with the value that is concluded.
pub proof fn law_conflicts_disagree(s: Seq<EvidenceModel>, now: Instant, i: int)
    requires
        0 <= i < conclusion(s, now).conflicts.len(),
    ensures
        conclusion(s, now).value matches Some(v) && !text::same_letters(
            conclusion(s, now).conflicts[i].value,
            v,
        ),
{
    let e = fresh(s, now);
    lemma_disagreeing(e, e[strongest(e)].value);
}

proof fn lemma_disagreeing(s: Seq<EvidenceModel>, value: Seq<char>)
    ensures
        forall|i: int|
            0 <= i < disagreeing(s, value).len() ==> !text::same_letters(
                (#[trigger] disagreeing(s, value)[i]).value,
                value,
            ),
    decreases s.len(),
{
    if s.len() > 0 {
        lemma_disagreeing(s.drop_last(), value);
    }
}

#[derive(Debug)]
pub struct LocationEvidence {
    pub value: String,
    pub confidence: LocationConfidence,
    pub source: EvidenceSource,
    pub observed_at: Timestamp,
    pub expires_at: Option<Timestamp>,
}

impl View for LocationEvidence {
    type V = EvidenceModel;

    open spec fn view(&self) -> EvidenceModel {
        EvidenceModel {
            value: self.value@,
            confidence: self.confidence.rank(),
            source: self.source,
            observed_at: self.observed_at@,
            expires_at: time::opt_time(self.expires_at),
        }
    }
}

impl Duplicate for LocationEvidence {
    fn duplicate(&self) -> (r: Self) {
        LocationEvidence {
            value: self.value.clone(),
            confidence: self.confidence,
            source: self.source,
            observed_at: self.observed_at,
            expires_at: self.expires_at,
        }
    }
}

impl LocationEvidence {
    pub fn is_fresh(&self, now: Timestamp) -> (r: bool)
        ensures
            r == counts_at(self@.expires_at, now@),
    {
        still_counts(self.expires_at, now)
    }
}

#[derive(Debug)]
pub struct NameEvidence {
    pub value: String,
    pub confidence: NameConfidence,
    pub source: EvidenceSource,
    pub observed_at: Timestamp,
    pub expires_at: Option<Timestamp>,
}

impl View for NameEvidence {
    type V = EvidenceModel;

    open spec fn view(&self) -> EvidenceModel {
        EvidenceModel {
            value: self.value@,
            confidence: self.confidence.rank(),
            source: self.source,
            observed_at: self.observed_at@,
            expires_at: time::opt_time(self.expires_at),
        }
    }
}

impl Duplicate for NameEvidence {
    fn duplicate(&self) -> (r: Self) {
        NameEvidence {
            value: self.value.clone(),
            confidence: self.confidence,
            source: self.source,
            observed_at: self.observed_at,
            expires_at: self.expires_at,
        }
    }
}

impl NameEvidence {
    pub fn is_fresh(&self, now: Timestamp) -> (r: bool)
        ensures
            r == counts_at(self@.expires_at, now@),
    {
        still_counts(self.expires_at, now)
    }
}

/// What the rules for drawing conclusions read of a piece of evidence.
trait Testimony: Duplicate + View<V = EvidenceModel> {
    fn counts(&self, now: Timestamp) -> (r: bool)
        ensures
            r == counts_at(self@.expires_at, now@),
    ;

    fn weight(&self) -> (r: u8)
        ensures
            r == self@.confidence,
    ;

    fn seen(&self) -> (r: Timestamp)
        ensures
            r@ == self@.observed_at,
    ;

    fn claim(&self) -> (r: &String)
        ensures
            r@ == self@.value,
    ;
}

impl Testimony for LocationEvidence {
    fn counts(&self, now: Timestamp) -> (r: bool) {
        self.is_fresh(now)
    }

    fn weight(&self) -> (r: u8) {
        self.confidence.level()
    }

    fn seen(&self) -> (r: Timestamp) {
        self.observed_at
    }

    fn claim(&self) -> (r: &String) {
        &self.value
    }
}

impl Testimony for NameEvidence {
    fn counts(&self, now: Timestamp) -> (r: bool) {
        self.is_fresh(now)
    }

    fn weight(&self) -> (r: u8) {
        self.confidence.level()
    }

    fn seen(&self) -> (r: Timestamp) {
        self.observed_at
    }

    fn claim(&self) -> (r: &String) {
        &self.value
    }
}

fn select_fresh<T: Testimony>(v: &Vec<T>, now: Timestamp) -> (r: Vec<T>)
    ensures
        string_map::views(r@) == fresh(string_map::views(v@), now@),
{
    let ghost all = string_map::views(v@);
    let mut out: Vec<T> = Vec::new();
    let mut i: usize = 0;
    assert(string_map::views(out@) =~= fresh(all.take(0), now@));
    while i < v.len()
        invariant
            i <= v@.len(),
            all == string_map::views(v@),
            string_map::views(out@) == fresh(all.take(i as int), now@),
        decreases v.len() - i,
    {
        assert(all.take(i + 1).drop_last() =~= all.take(i as int));
        assert(all.take(i + 1).last() == v@[i as int]@);
        if v[i].counts(now) {
            let ghost before = string_map::views(out@);
            let c = v[i].duplicate();
            out.push(c);
            assert(string_map::views(out@) =~= before.push(v@[i as int]@));
        }
        i = i + 1;
    }
    assert(all.take(all.len() as int) =~= all);
    out
}

fn find_strongest<T: Testimony>(v: &Vec<T>) -> (r: usize)
    requires
        v@.len() > 0,
    ensures
        r == strongest(string_map::views(v@)),
        r < v@.len(),
{
    let ghost all = string_map::views(v@);
    let mut best: usize = 0;
    let mut i: usize = 1;
    while i < v.len()
        invariant
            0 < i <= v@.len(),
            all == string_map::views(v@),
            best < i,
            best == strongest(all.take(i as int)),
        decreases v.len() - i,
    {
        assert(all.take(i + 1).drop_last() =~= all.take(i as int));
        assert(all.take(i + 1).last() == v@[i as int]@);
        assert(all.take(i + 1)[best as int] == v@[best as int]@);
        let w = v[i].weight();
        let b = v[best].weight();
        if w > b || (w == b && v[best].seen().not_after(v[i].seen())) {
            best = i;
        }
        i = i + 1;
    }
    assert(all.take(all.len() as int) =~= all);
    best
}

fn select_disagreeing<T: Testimony>(v: &Vec<T>, value: &str) -> (r: Vec<T>)
    ensures
        string_map::views(r@) == disagreeing(string_map::views(v@), value@),
{
    let ghost all = string_map::views(v@);
    let mut out: Vec<T> = Vec::new();
    let mut i: usize = 0;
    assert(string_map::views(out@) =~= disagreeing(all.take(0), value@));
    while i < v.len()
        invariant
            i <= v@.len(),
            all == string_map::views(v@),
            string_map::views(out@) == disagreeing(all.take(i as int), value@),
        decreases v.len() - i,
    {
        assert(all.take(i + 1).drop_last() =~= all.take(i as int));
        assert(all.take(i + 1).last() == v@[i as int]@);
        if !text::same_ignoring_case(v[i].claim().as_str(), value) {
            let ghost before = string_map::views(out@);
            let c = v[i].duplicate();
            out.push(c);
            assert(string_map::views(out@) =~= before.push(v@[i as int]@));
        }
        i = i + 1;
    }
    assert(all.take(all.len() as int) =~= all);
    out
}

#[derive(Debug)]
pub struct LocationConclusion {
    pub value: Option<String>,
    pub confidence: LocationConfidence,
    pub evidence: Vec<LocationEvidence>,
    pub conflicts: Vec<LocationEvidence>,
}

impl View for LocationConclusion {
    type V = ConclusionModel;

    open spec fn view(&self) -> ConclusionModel {
        ConclusionModel {
            value: text::opt_text(self.value),
            confidence: self.confidence.rank(),
            evidence: string_map::views(self.evidence@),
            conflicts: string_map::views(self.conflicts@),
        }
    }
}

#[derive(Debug)]
pub struct NameConclusion {
    pub value: Option<String>,
    pub confidence: NameConfidence,
    pub evidence: Vec<NameEvidence>,
    pub conflicts: Vec<NameEvidence>,
}

impl View for NameConclusion {
    type V = ConclusionModel;

    open spec fn view(&self) -> ConclusionModel {
        ConclusionModel {
            value: text::opt_text(self.value),
            confidence: self.confidence.rank(),
            evidence: string_map::views(self.evidence@),
            conflicts: string_map::views(self.conflicts@),
        }
    }
}

// ---------------------------------------------------------------------------------------------
// A station
// ---------------------------------------------------------------------------------------------
/// All that is known of one station.
#[derive(Debug)]
pub struct StationEvidence {
    pub call: String,
    pub participation: Vec<ParticipationEvidence>,
    pub names: Vec<NameEvidence>,
    pub locations: Vec<LocationEvidence>,
}

impl StationEvidence {
    /// A station of which nothing is known but its callsign.
    pub fn new(call: &str) -> (r: Self)
        ensures
            r.call@ == model::normalized(call@),
            r.participation@ == Seq::<ParticipationEvidence>::empty(),
            r.names@ == Seq::<NameEvidence>::empty(),
            r.locations@ == Seq::<LocationEvidence>::empty(),
    {
        StationEvidence {
            call: model::normalize_call(call),
            participation: Vec::new(),
            names: Vec::new(),
            locations: Vec::new(),
        }
    }

    pub fn participation_at(&self, now: Timestamp) -> (r: ParticipationConclusion)
        ensures
            r.evidence@ == fresh_participation(self.participation@, now@),
            r.confidence == strongest_participation(r.evidence@),
    {
        let v = &self.participation;
        let mut evidence: Vec<ParticipationEvidence> = Vec::new();
        let mut confidence = ParticipationConfidence::Unknown;
        let mut i: usize = 0;
        assert(evidence@ =~= fresh_participation(v@.take(0), now@));
        while i < v.len()
            invariant
                i <= v@.len(),
                evidence@ == fresh_participation(v@.take(i as int), now@),
                confidence == strongest_participation(evidence@),
            decreases v.len() - i,
        {
            assert(v@.take(i + 1).drop_last() =~= v@.take(i as int));
            assert(v@.take(i + 1).last() == v@[i as int]);
            if v[i].is_fresh(now) {
                let ghost before = evidence@;
                evidence.push(v[i]);
                assert(evidence@.drop_last() =~= before);
                if v[i].confidence.level() > confidence.level() {
                    confidence = v[i].confidence;
                }
            }
            i = i + 1;
        }
        assert(v@.take(v@.len() as int) =~= v@);
        ParticipationConclusion { confidence, evidence }
    }

    pub fn location_at(&self, now: Timestamp) -> (r: LocationConclusion)
        ensures
            r@ == conclusion(string_map::views(self.locations@), now@),
    {
        let evidence = select_fresh(&self.locations, now);
        assert(string_map::views(evidence@).len() == evidence@.len());
        if evidence.len() == 0 {
            let r = LocationConclusion {
                value: None,
                confidence: LocationConfidence::Unknown,
                evidence,
                conflicts: Vec::new(),
            };
            assert(r@ =~= conclusion(string_map::views(self.locations@), now@));
            return r;
        }
        let best = find_strongest(&evidence);
        let value = evidence[best].value.clone();
        let confidence = evidence[best].confidence;
        let conflicts = select_disagreeing(&evidence, value.as_str());
        assert(string_map::views(evidence@)[best as int] == evidence@[best as int]@);
        LocationConclusion { value: Some(value), confidence, evidence, conflicts }
    }

    pub fn name_at(&self, now: Timestamp) -> (r: NameConclusion)
        ensures
            r@ == conclusion(string_map::views(self.names@), now@),
    {
        let evidence = select_fresh(&self.names, now);
        assert(string_map::views(evidence@).len() == evidence@.len());
        if evidence.len() == 0 {
            let r = NameConclusion {
                value: None,
                confidence: NameConfidence::Unknown,
                evidence,
                conflicts: Vec::new(),
            };
            assert(r@ =~= conclusion(string_map::views(self.names@), now@));
            return r;
        }
        let best = find_strongest(&evidence);
        let value = evidence[best].value.clone();
        let confidence = evidence[best].confidence;
        let conflicts = select_disagreeing(&evidence, value.as_str());
        assert(string_map::views(evidence@)[best as int] == evidence@[best as int]@);
        NameConclusion { value: Some(value), confidence, evidence, conflicts }
    }
}

// ---------------------------------------------------------------------------------------------
// What is concluded
// ---------------------------------------------------------------------------------------------
/// The evidence has not expired at `now`: it never does, or later than that.
pub open spec fn unexpired(expires_at: Option<Instant>, now: Instant) -> bool {
    match expires_at {
        None => true,
        Some(t) => now.second < t.second || (now.second == t.second && now.nanos < t.nanos),
    }
}

proof fn lemma_fresh_index(s: Seq<EvidenceModel>, now: Instant, i: int)
    ensures
        0 <= i < s.len() && unexpired(s[i].expires_at, now) ==> fresh(s, now).contains(s[i]),
        0 <= i < fresh(s, now).len() ==> exists|k: int|
            #![trigger s[k]]
            0 <= k < s.len() && s[k] == fresh(s, now)[i] && unexpired(s[k].expires_at, now),
    decreases s.len(),
{
    if s.len() > 0 {
        let front = s.drop_last();
        let f = fresh(front, now);
        let r = fresh(s, now);
        assert(unexpired(s.last().expires_at, now) <==> counts_at(s.last().expires_at, now));
        lemma_fresh_index(front, now, i);
        if 0 <= i < s.len() && unexpired(s[i].expires_at, now) {
            if i < front.len() {
                assert(front[i] == s[i]);
                let k = choose|k: int| 0 <= k < f.len() && f[k] == s[i];
                assert(r[k] == f[k]);
            } else {
                assert(r[r.len() - 1] == s[i]);
            }
        }
        if 0 <= i < r.len() {
            if i < f.len() {
                let k = choose|k: int|
                    #![trigger front[k]]
                    0 <= k < front.len() && front[k] == f[i] && unexpired(front[k].expires_at, now);
                assert(s[k] == front[k]);
                assert(r[i] == f[i]);
            } else {
                assert(s[s.len() - 1] == r[i]);
            }
        }
    }
}

/// The conclusion is drawn from a piece of evidence that has not expired; none that has not is more
/// confident, and of those as confident none was observed later.
pub proof fn law_most_confident_and_newest_decides(s: Seq<EvidenceModel>, now: Instant, i: int)
    requires
        0 <= i < s.len(),
        unexpired(s[i].expires_at, now),
    ensures
        ({
            let c = conclusion(s, now);
            exists|k: int|
                #![trigger s[k]]
                0 <= k < s.len() && unexpired(s[k].expires_at, now) && c.value == Some(s[k].value)
                    && c.confidence == s[k].confidence && s[k].confidence >= s[i].confidence && (
                s[k].confidence == s[i].confidence ==> s[i].observed_at.second
                    < s[k].observed_at.second || (s[i].observed_at.second == s[k].observed_at.second
                    && s[i].observed_at.nanos <= s[k].observed_at.nanos))
        }),
{
    let e = fresh(s, now);
    lemma_fresh_index(s, now, i);
    let p = choose|p: int| 0 <= p < e.len() && e[p] == s[i];
    law_strongest(e);
    let b = strongest(e);
    assert(at_least_as_strong(e[b], e[p]));
    lemma_fresh_index(s, now, b);
    let k = choose|k: int|
        #![trigger s[k]]
        0 <= k < s.len() && s[k] == e[b] && unexpired(s[k].expires_at, now);
    assert(conclusion(s, now).value == Some(s[k].value));
}

/// Where all evidence has expired nothing is concluded.
pub proof fn law_nothing_is_concluded_from_nothing(s: Seq<EvidenceModel>, now: Instant)
    requires
        forall|i: int| 0 <= i < s.len() ==> !unexpired((#[trigger] s[i]).expires_at, now),
    ensures
        conclusion(s, now).value is None,
        conclusion(s, now).confidence == LocationConfidence::Unknown.rank(),
        conclusion(s, now).confidence == NameConfidence::Unknown.rank(),
        conclusion(s, now).evidence.len() == 0,
        conclusion(s, now).conflicts.len() == 0,
{
    if fresh(s, now).len() > 0 {
        lemma_fresh_index(s, now, 0);
    }
}

/// The evidence that is shown is all that has not expired, and the conflicts are all of it that gives
/// another value than the one concluded, the case of letters apart.
pub proof fn law_evidence_and_conflicts_are_shown(s: Seq<EvidenceModel>, now: Instant, i: int)
    requires
        0 <= i < s.len(),
    ensures
        unexpired(s[i].expires_at, now) ==> conclusion(s, now).evidence.contains(s[i]),
        unexpired(s[i].expires_at, now) && !text::same_letters(
            s[i].value,
            conclusion(s, now).value->0,
        ) ==> conclusion(s, now).conflicts.contains(s[i]),
        forall|j: int|
            0 <= j < conclusion(s, now).evidence.len() ==> unexpired(
                (#[trigger] conclusion(s, now).evidence[j]).expires_at,
                now,
            ) && s.contains(conclusion(s, now).evidence[j]),
        forall|j: int|
            0 <= j < conclusion(s, now).conflicts.len() ==> conclusion(s, now).evidence.contains(
                #[trigger] conclusion(s, now).conflicts[j],
            ),
{
    let e = fresh(s, now);
    let c = conclusion(s, now);
    lemma_fresh_index(s, now, i);
    if unexpired(s[i].expires_at, now) {
        let v = c.value->0;
        let p = choose|p: int| 0 <= p < e.len() && e[p] == s[i];
        lemma_disagreeing_index(e, v, p);
    }
    assert forall|j: int| 0 <= j < c.evidence.len() implies unexpired(
        (#[trigger] c.evidence[j]).expires_at,
        now,
    ) && s.contains(c.evidence[j]) by {
        lemma_fresh_index(s, now, j);
        let k = choose|k: int|
            #![trigger s[k]]
            0 <= k < s.len() && s[k] == e[j] && unexpired(s[k].expires_at, now);
        assert(s[k] == c.evidence[j]);
    }
    assert forall|j: int| 0 <= j < c.conflicts.len() implies c.evidence.contains(
        #[trigger] c.conflicts[j],
    ) by {
        lemma_disagreeing_index(e, c.value->0, j);
    }
}

proof fn lemma_disagreeing_index(e: Seq<EvidenceModel>, value: Seq<char>, i: int)
    ensures
        0 <= i < e.len() && !text::same_letters(e[i].value, value) ==> disagreeing(
            e,
            value,
        ).contains(e[i]),
        0 <= i < disagreeing(e, value).len() ==> e.contains(disagreeing(e, value)[i]),
    decreases e.len(),
{
    if e.len() > 0 {
        let front = e.drop_last();
        let f = disagreeing(front, value);
        let r = disagreeing(e, value);
        lemma_disagreeing_index(front, value, i);
        if 0 <= i < e.len() && !text::same_letters(e[i].value, value) {
            if i < front.len() {
                assert(front[i] == e[i]);
                let k = choose|k: int| 0 <= k < f.len() && f[k] == e[i];
                assert(r[k] == f[k]);
            } else {
                assert(r[r.len() - 1] == e[i]);
            }
        }
        if 0 <= i < r.len() {
            if i < f.len() {
                assert(r[i] == f[i]);
                let k = choose|k: int| 0 <= k < front.len() && front[k] == f[i];
                assert(e[k] == r[i]);
            } else {
                assert(e[e.len() - 1] == r[i]);
            }
        }
    }
}

/// A location that was verified is surer than one that was declared in the contest, that than one
/// from history, that than one from a callbook, that than one from a prefix, and that than none; a
/// verified name is surer than one from history; and taking part is the surer the more was seen of
/// it.
pub proof fn law_order_of_confidence()
    ensures
        LocationConfidence::Unknown.rank() < LocationConfidence::PrefixOnly.rank()
            < LocationConfidence::Callbook.rank() < LocationConfidence::History.rank()
            < LocationConfidence::ContestDeclared.rank() < LocationConfidence::Verified.rank(),
        NameConfidence::Unknown.rank() < NameConfidence::History.rank()
            < NameConfidence::Verified.rank(),
        ParticipationConfidence::Unknown.rank() < ParticipationConfidence::Probable.rank()
            < ParticipationConfidence::Declared.rank() < ParticipationConfidence::Confirmed.rank(),
{
}

/// A station takes part as surely as the surest evidence says that has not expired, and no more
/// surely; which is all the evidence that is shown.
pub proof fn law_surest_participation_decides(
    s: Seq<ParticipationEvidence>,
    now: Instant,
    i: int,
)
    ensures
        ({
            let e = fresh_participation(s, now);
            let c = strongest_participation(e);
            &&& 0 <= i < s.len() && unexpired(time::opt_time(s[i].expires_at), now) ==> e.contains(
                s[i],
            ) && s[i].confidence.rank() <= c.rank()
            &&& 0 <= i < e.len() ==> unexpired(time::opt_time(e[i].expires_at), now) && s.contains(
                e[i],
            )
            &&& e.len() == 0 ==> c == ParticipationConfidence::Unknown
            &&& c != ParticipationConfidence::Unknown ==> exists|k: int|
                0 <= k < e.len() && (#[trigger] e[k]).confidence == c
        }),
{
    let e = fresh_participation(s, now);
    lemma_participation(s, now, i);
    if 0 <= i < s.len() && unexpired(time::opt_time(s[i].expires_at), now) {
        let k = choose|k: int| 0 <= k < e.len() && e[k] == s[i];
        lemma_strongest_participation(e, k);
    }
    lemma_strongest_participation(e, 0);
}

proof fn lemma_participation(s: Seq<ParticipationEvidence>, now: Instant, i: int)
    ensures
        0 <= i < s.len() && unexpired(time::opt_time(s[i].expires_at), now) ==> fresh_participation(
            s,
            now,
        ).contains(s[i]),
        0 <= i < fresh_participation(s, now).len() ==> unexpired(
            time::opt_time(fresh_participation(s, now)[i].expires_at),
            now,
        ) && s.contains(fresh_participation(s, now)[i]),
    decreases s.len(),
{
    if s.len() > 0 {
        let front = s.drop_last();
        let f = fresh_participation(front, now);
        let r = fresh_participation(s, now);
        let t = time::opt_time(s.last().expires_at);
        assert(unexpired(t, now) <==> counts_at(t, now));
        lemma_participation(front, now, i);
        if 0 <= i < s.len() && unexpired(time::opt_time(s[i].expires_at), now) {
            if i < front.len() {
                assert(front[i] == s[i]);
                let k = choose|k: int| 0 <= k < f.len() && f[k] == s[i];
                assert(r[k] == f[k]);
            } else {
                assert(r[r.len() - 1] == s[i]);
            }
        }
        if 0 <= i < r.len() {
            if i < f.len() {
                assert(r[i] == f[i]);
                let k = choose|k: int| 0 <= k < front.len() && front[k] == f[i];
                assert(s[k] == r[i]);
            } else {
                assert(s[s.len() - 1] == r[i]);
            }
        }
    }
}

proof fn lemma_strongest_participation(e: Seq<ParticipationEvidence>, i: int)
    ensures
        0 <= i < e.len() ==> e[i].confidence.rank() <= strongest_participation(e).rank(),
        strongest_participation(e) != ParticipationConfidence::Unknown ==> exists|k: int|
            0 <= k < e.len() && (#[trigger] e[k]).confidence == strongest_participation(e),
    decreases e.len(),
{
    if e.len() > 0 {
        let front = e.drop_last();
        lemma_strongest_participation(front, i);
        if 0 <= i < front.len() {
            assert(front[i] == e[i]);
        }
        assert(e[e.len() - 1] == e.last());
        let c = strongest_participation(front);
        if c != ParticipationConfidence::Unknown {
            let k = choose|k: int| 0 <= k < front.len() && (#[trigger] front[k]).confidence == c;
            assert(e[k] == front[k]);
        }
    }
}

} // verus!
