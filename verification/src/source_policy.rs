//! Which data sources are enabled, and what that means for the entry category.
use vstd::prelude::*;

use crate::text;

verus! {

/// Where data comes from.
#[derive(Debug, Clone, Copy, PartialEq, Eq, PartialOrd, Ord, Structural)]
pub enum SourceId {
    ReverseBeaconNetwork,
    ContestOnlineScoreboard,
    N1mmCallHistory,
    PoloLofi,
    AdifImport,
    NaqpRules,
}

/// What a source contributes.
#[derive(Debug, Clone, Copy, PartialEq, Eq, Structural)]
pub enum SourceCapability {
    LiveExternalAssistance,
    StaticHistory,
    LocalLog,
    OfflineReference,
}

/// A source and whether it is enabled.
#[derive(Debug, PartialEq, Eq)]
pub struct SourceStatus {
    pub id: SourceId,
    pub label: &'static str,
    pub capability: SourceCapability,
    pub enabled: bool,
}

/// The sources in the order in which they are listed.
pub open spec fn all_sources() -> Seq<SourceId> {
    seq![
        SourceId::ReverseBeaconNetwork,
        SourceId::ContestOnlineScoreboard,
        SourceId::N1mmCallHistory,
        SourceId::PoloLofi,
        SourceId::AdifImport,
        SourceId::NaqpRules,
    ]
}

impl SourceId {
    pub open spec fn title(self) -> Seq<char> {
        match self {
            SourceId::ReverseBeaconNetwork => "Reverse Beacon Network"@,
            SourceId::ContestOnlineScoreboard => "Contest Online ScoreBoard"@,
            SourceId::N1mmCallHistory => "N1MM Call History"@,
            SourceId::PoloLofi => "Ham2K PoLo via LoFi"@,
            SourceId::AdifImport => "ADIF import"@,
            SourceId::NaqpRules => "NAQP rules and multiplier catalog"@,
        }
    }

    pub open spec fn gives(self) -> SourceCapability {
        match self {
            SourceId::ReverseBeaconNetwork => SourceCapability::LiveExternalAssistance,
            SourceId::ContestOnlineScoreboard => SourceCapability::LiveExternalAssistance,
            SourceId::N1mmCallHistory => SourceCapability::StaticHistory,
            SourceId::PoloLofi => SourceCapability::LocalLog,
            SourceId::AdifImport => SourceCapability::LocalLog,
            SourceId::NaqpRules => SourceCapability::OfflineReference,
        }
    }

    pub fn all() -> (r: Vec<SourceId>)
        ensures
            r@ == all_sources(),
    {
        let v = vec![
            SourceId::ReverseBeaconNetwork,
            SourceId::ContestOnlineScoreboard,
            SourceId::N1mmCallHistory,
            SourceId::PoloLofi,
            SourceId::AdifImport,
            SourceId::NaqpRules,
        ];
        assert(v@ =~= all_sources());
        v
    }

    pub fn label(self) -> (r: &'static str)
        ensures
            r@ == self.title(),
    {
        match self {
            SourceId::ReverseBeaconNetwork => "Reverse Beacon Network",
            SourceId::ContestOnlineScoreboard => "Contest Online ScoreBoard",
            SourceId::N1mmCallHistory => "N1MM Call History",
            SourceId::PoloLofi => "Ham2K PoLo via LoFi",
            SourceId::AdifImport => "ADIF import",
            SourceId::NaqpRules => "NAQP rules and multiplier catalog",
        }
    }

    pub fn capability(self) -> (r: SourceCapability)
        ensures
            r == self.gives(),
    {
        match self {
            SourceId::ReverseBeaconNetwork => SourceCapability::LiveExternalAssistance,
            SourceId::ContestOnlineScoreboard => SourceCapability::LiveExternalAssistance,
            SourceId::N1mmCallHistory => SourceCapability::StaticHistory,
            SourceId::PoloLofi => SourceCapability::LocalLog,
            SourceId::AdifImport => SourceCapability::LocalLog,
            SourceId::NaqpRules => SourceCapability::OfflineReference,
        }
    }
}

/// Which sources are enabled.
#[derive(Debug)]
pub struct SourcePolicy {
    reverse_beacon_network: bool,
    contest_online_scoreboard: bool,
    n1mm_call_history: bool,
    polo_lofi: bool,
    adif_import: bool,
    naqp_rules: bool,
}

impl SourcePolicy {
    /// The source `id` is enabled.
    pub closed spec fn on(self, id: SourceId) -> bool {
        match id {
            SourceId::ReverseBeaconNetwork => self.reverse_beacon_network,
            SourceId::ContestOnlineScoreboard => self.contest_online_scoreboard,
            SourceId::N1mmCallHistory => self.n1mm_call_history,
            SourceId::PoloLofi => self.polo_lofi,
            SourceId::AdifImport => self.adif_import,
            SourceId::NaqpRules => self.naqp_rules,
        }
    }

    /// The source `id` is enabled and gives live assistance from outside.
    pub open spec fn assists(self, id: SourceId) -> bool {
        self.on(id) && id.gives() == SourceCapability::LiveExternalAssistance
    }

    /// The titles of those among `ids` that assist.
    pub open spec fn assisting(self, ids: Seq<SourceId>) -> Seq<Seq<char>>
        decreases ids.len(),
    {
        if ids.len() == 0 {
            Seq::empty()
        } else if self.assists(ids.last()) {
            self.assisting(ids.drop_last()).push(ids.last().title())
        } else {
            self.assisting(ids.drop_last())
        }
    }

    /// The warning to show while some source assists.
    pub open spec fn warning(self) -> Seq<char> {
        "Live external assistance is enabled ("@ + text::joining(
            self.assisting(all_sources()),
            ", "@,
        ) + "). Enter Single Operator Assisted or another category that permits assistance."@
    }

    /// Some enabled source gives live assistance from outside.
    pub open spec fn assisted(self) -> bool {
        exists|id: SourceId| self.assists(id)
    }
}

impl Default for SourcePolicy {
    /// Only the built-in rules are enabled.
    fn default() -> (r: Self)
        ensures
            forall|id: SourceId| #[trigger] r.on(id) == (id == SourceId::NaqpRules),
    {
        SourcePolicy {
            reverse_beacon_network: false,
            contest_online_scoreboard: false,
            n1mm_call_history: false,
            polo_lofi: false,
            adif_import: false,
            naqp_rules: true,
        }
    }
}

impl SourcePolicy {
    pub fn set_enabled(&mut self, id: SourceId, enabled: bool)
        ensures
            forall|other: SourceId| #[trigger]
                final(self).on(other) == if other == id {
                    enabled
                } else {
                    old(self).on(other)
                },
    {
        match id {
            SourceId::ReverseBeaconNetwork => {
                self.reverse_beacon_network = enabled;
            },
            SourceId::ContestOnlineScoreboard => {
                self.contest_online_scoreboard = enabled;
            },
            SourceId::N1mmCallHistory => {
                self.n1mm_call_history = enabled;
            },
            SourceId::PoloLofi => {
                self.polo_lofi = enabled;
            },
            SourceId::AdifImport => {
                self.adif_import = enabled;
            },
            SourceId::NaqpRules => {
                self.naqp_rules = enabled;
            },
        }
    }

    pub fn is_enabled(&self, id: SourceId) -> (r: bool)
        ensures
            r == self.on(id),
    {
        match id {
            SourceId::ReverseBeaconNetwork => self.reverse_beacon_network,
            SourceId::ContestOnlineScoreboard => self.contest_online_scoreboard,
            SourceId::N1mmCallHistory => self.n1mm_call_history,
            SourceId::PoloLofi => self.polo_lofi,
            SourceId::AdifImport => self.adif_import,
            SourceId::NaqpRules => self.naqp_rules,
        }
    }

    /// Every source, in order.
    pub fn statuses(&self) -> (r: Vec<SourceStatus>)
        ensures
            r@.len() == all_sources().len(),
            forall|i: int|
                0 <= i < r@.len() ==> {
                    let s = #[trigger] r@[i];
                    let id = all_sources()[i];
                    s.id == id && s.label@ == id.title() && s.capability == id.gives() && s.enabled
                        == self.on(id)
                },
    {
        let ids = SourceId::all();
        let mut out: Vec<SourceStatus> = Vec::new();
        let mut i: usize = 0;
        while i < ids.len()
            invariant
                i <= ids@.len(),
                ids@ == all_sources(),
                out@.len() == i,
                forall|j: int|
                    0 <= j < i ==> {
                        let s = #[trigger] out@[j];
                        let id = all_sources()[j];
                        s.id == id && s.label@ == id.title() && s.capability == id.gives()
                            && s.enabled == self.on(id)
                    },
            decreases ids.len() - i,
        {
            let id = ids[i];
            out.push(
                SourceStatus {
                    id,
                    label: id.label(),
                    capability: id.capability(),
                    enabled: self.is_enabled(id),
                },
            );
            i = i + 1;
        }
        out
    }

    pub fn requires_assisted_entry(&self) -> (r: bool)
        ensures
            r == self.assisted(),
    {
        let r = self.is_enabled(SourceId::ReverseBeaconNetwork) || self.is_enabled(
            SourceId::ContestOnlineScoreboard,
        );
        proof {
            if self.on(SourceId::ReverseBeaconNetwork) {
                assert(self.assists(SourceId::ReverseBeaconNetwork));
            }
            if self.on(SourceId::ContestOnlineScoreboard) {
                assert(self.assists(SourceId::ContestOnlineScoreboard));
            }
        }
        r
    }

    /// The warning to show while some source assists: it names every one that does.
    pub fn assisted_warning(&self) -> (r: Option<String>)
        ensures
            r is Some <==> self.assisted(),
            r matches Some(w) ==> w@ == self.warning(),
    {
        if !self.requires_assisted_entry() {
            return None;
        }
        let ids = SourceId::all();
        let mut labels: Vec<&'static str> = Vec::new();
        let mut i: usize = 0;
        assert(Seq::new(labels@.len(), |j: int| labels@[j]@) =~= self.assisting(
            all_sources().take(0),
        ));
        while i < ids.len()
            invariant
                i <= ids@.len(),
                ids@ == all_sources(),
                Seq::new(labels@.len(), |j: int| labels@[j]@) == self.assisting(
                    all_sources().take(i as int),
                ),
            decreases ids.len() - i,
        {
            let ghost before = Seq::new(labels@.len(), |j: int| labels@[j]@);
            assert(all_sources().take(i + 1).drop_last() =~= all_sources().take(i as int));
            if self.is_enabled(ids[i]) && ids[i].capability()
                == SourceCapability::LiveExternalAssistance {
                labels.push(ids[i].label());
                assert(Seq::new(labels@.len(), |j: int| labels@[j]@) =~= before.push(
                    ids@[i as int].title(),
                ));
            }
            i = i + 1;
        }
        assert(all_sources().take(all_sources().len() as int) =~= all_sources());
        let mut out = text::owned("Live external assistance is enabled (");
        text::push_text(&mut out, text::join(&labels, ", ").as_str());
        text::push_text(
            &mut out,
            "). Enter Single Operator Assisted or another category that permits assistance.",
        );
        Some(out)
    }
}

/// Local logs, static history and the built-in rules never call for an assisted category: only
/// the two live sources do.
pub proof fn law_only_live_sources_assist(policy: SourcePolicy)
    ensures
        policy.assisted() <==> policy.on(SourceId::ReverseBeaconNetwork) || policy.on(
            SourceId::ContestOnlineScoreboard,
        ),
{
    if policy.on(SourceId::ReverseBeaconNetwork) {
        assert(policy.assists(SourceId::ReverseBeaconNetwork));
    }
    if policy.on(SourceId::ContestOnlineScoreboard) {
        assert(policy.assists(SourceId::ContestOnlineScoreboard));
    }
}

/// The warning names exactly the live sources that are enabled: it holds the title of each of them,
/// and of no other source.
pub proof fn law_warning_names_the_live_sources(policy: SourcePolicy, id: SourceId)
    requires
        policy.assisted(),
    ensures
        text::has_part(policy.warning(), id.title()) <==> policy.assists(id),
{
    let network = policy.on(SourceId::ReverseBeaconNetwork);
    let scoreboard = policy.on(SourceId::ContestOnlineScoreboard);
    law_only_live_sources_assist(policy);
    lemma_assisting(policy);
    let head = "Live external assistance is enabled ("@;
    let tail = "). Enter Single Operator Assisted or another category that permits assistance."@;
    let first = SourceId::ReverseBeaconNetwork.title();
    let second = SourceId::ContestOnlineScoreboard.title();
    let middle = if network && scoreboard {
        first + ", "@ + second
    } else if network {
        first
    } else {
        second
    };
    reveal_with_fuel(text::joining, 3);
    assert(seq![first, second].drop_last() =~= seq![first]);
    assert(text::joining(policy.assisting(all_sources()), ", "@) =~= middle);
    let w = policy.warning();
    assert(w == head + middle + tail);
    if policy.assists(id) {
        let at = if id == SourceId::ContestOnlineScoreboard && network {
            head.len() + first.len() + ", "@.len()
        } else {
            head.len()
        } as int;
        assert(w.subrange(at, at + id.title().len()) =~= id.title());
    } else {
        let c = mark(id);
        lemma_marks(id);
        lemma_frame_is_free_of_marks(c);
        if network {
            lemma_network_is_free_of(c);
        }
        if scoreboard {
            lemma_scoreboard_is_free_of(c);
        }
        assert forall|i: int| 0 <= i < w.len() implies #[trigger] w[i] != c by {
            let k = i - head.len();
            if k < 0 {
                assert(w[i] == head[i]);
            } else if k < middle.len() {
                assert(w[i] == middle[k]);
                if network && scoreboard {
                    if k < first.len() {
                        assert(middle[k] == first[k]);
                    } else if k < first.len() + ", "@.len() {
                        assert(middle[k] == ", "@[k - first.len()]);
                    } else {
                        assert(middle[k] == second[k - first.len() - ", "@.len()]);
                    }
                }
            } else {
                assert(w[i] == tail[k - middle.len()]);
            }
        }
        if text::has_part(w, id.title()) {
            let i = choose|i: int|
                0 <= i && i + id.title().len() <= w.len() && #[trigger] w.subrange(
                    i,
                    i + id.title().len(),
                ) == id.title();
            let p = choose|p: int| 0 <= p < id.title().len() && #[trigger] id.title()[p] == c;
            assert(w.subrange(i, i + id.title().len())[p] == w[i + p]);
        }
    }
}

/// A character of the title of a source that stands nowhere else in the warning.
spec fn mark(id: SourceId) -> char {
    match id {
        SourceId::ReverseBeaconNetwork => 'R',
        SourceId::ContestOnlineScoreboard => 'C',
        SourceId::N1mmCallHistory => '1',
        SourceId::PoloLofi => 'H',
        SourceId::AdifImport => 'D',
        SourceId::NaqpRules => 'Q',
    }
}

proof fn lemma_marks(id: SourceId)
    ensures
        exists|p: int| 0 <= p < id.title().len() && #[trigger] id.title()[p] == mark(id),
{
    reveal_strlit("Reverse Beacon Network");
    reveal_strlit("Contest Online ScoreBoard");
    reveal_strlit("N1MM Call History");
    reveal_strlit("Ham2K PoLo via LoFi");
    reveal_strlit("ADIF import");
    reveal_strlit("NAQP rules and multiplier catalog");
    match id {
        SourceId::N1mmCallHistory => assert(id.title()[1] == mark(id)),
        SourceId::AdifImport => assert(id.title()[1] == mark(id)),
        SourceId::NaqpRules => assert(id.title()[2] == mark(id)),
        _ => assert(id.title()[0] == mark(id)),
    }
}

/// None of the first `n` characters is `c`.
spec fn free_of(s: Seq<char>, c: char, n: int) -> bool
    decreases n,
{
    n <= 0 || (s[n - 1] != c && free_of(s, c, n - 1))
}

proof fn lemma_free_of(s: Seq<char>, c: char, n: int)
    requires
        free_of(s, c, n),
    ensures
        forall|i: int| 0 <= i < n ==> #[trigger] s[i] != c,
    decreases n,
{
    if n > 0 {
        lemma_free_of(s, c, n - 1);
    }
}

proof fn lemma_frame_is_free_of_marks(c: char)
    requires
        exists|id: SourceId| c == #[trigger] mark(id),
    ensures
        ({
            let head = "Live external assistance is enabled ("@;
            let separator = ", "@;
            let tail =
                "). Enter Single Operator Assisted or another category that permits assistance."@;
            &&& forall|i: int| 0 <= i < head.len() ==> #[trigger] head[i] != c
            &&& forall|i: int| 0 <= i < separator.len() ==> #[trigger] separator[i] != c
            &&& forall|i: int| 0 <= i < tail.len() ==> #[trigger] tail[i] != c
        }),
{
    let head = "Live external assistance is enabled ("@;
    let separator = ", "@;
    let tail = "). Enter Single Operator Assisted or another category that permits assistance."@;
    reveal_strlit("Live external assistance is enabled (");
    reveal_strlit(", ");
    reveal_strlit(
        "). Enter Single Operator Assisted or another category that permits assistance.",
    );
    reveal_with_fuel(free_of, 80);
    assert(free_of(head, c, head.len() as int));
    assert(free_of(separator, c, separator.len() as int));
    assert(free_of(tail, c, tail.len() as int));
    lemma_free_of(head, c, head.len() as int);
    lemma_free_of(separator, c, separator.len() as int);
    lemma_free_of(tail, c, tail.len() as int);
}

proof fn lemma_network_is_free_of(c: char)
    requires
        exists|id: SourceId| c == #[trigger] mark(id) && id != SourceId::ReverseBeaconNetwork,
    ensures
        forall|i: int|
            0 <= i < SourceId::ReverseBeaconNetwork.title().len()
                ==> #[trigger] SourceId::ReverseBeaconNetwork.title()[i] != c,
{
    let title = "Reverse Beacon Network"@;
    reveal_strlit("Reverse Beacon Network");
    reveal_with_fuel(free_of, 30);
    assert(free_of(title, c, title.len() as int));
    lemma_free_of(title, c, title.len() as int);
}

proof fn lemma_scoreboard_is_free_of(c: char)
    requires
        exists|id: SourceId| c == #[trigger] mark(id) && id != SourceId::ContestOnlineScoreboard,
    ensures
        forall|i: int|
            0 <= i < SourceId::ContestOnlineScoreboard.title().len()
                ==> #[trigger] SourceId::ContestOnlineScoreboard.title()[i] != c,
{
    let title = "Contest Online ScoreBoard"@;
    reveal_strlit("Contest Online ScoreBoard");
    reveal_with_fuel(free_of, 30);
    assert(free_of(title, c, title.len() as int));
    lemma_free_of(title, c, title.len() as int);
}

/// The titles of the sources that assist, in order.
proof fn lemma_assisting(policy: SourcePolicy)
    ensures
        policy.assisting(all_sources()) == if policy.on(SourceId::ReverseBeaconNetwork) {
            if policy.on(SourceId::ContestOnlineScoreboard) {
                seq![
                    SourceId::ReverseBeaconNetwork.title(),
                    SourceId::ContestOnlineScoreboard.title(),
                ]
            } else {
                seq![SourceId::ReverseBeaconNetwork.title()]
            }
        } else if policy.on(SourceId::ContestOnlineScoreboard) {
            seq![SourceId::ContestOnlineScoreboard.title()]
        } else {
            Seq::empty()
        },
{
    let all = all_sources();
    assert(all.drop_last() =~= all.take(5));
    assert(all.take(5).drop_last() =~= all.take(4));
    assert(all.take(4).drop_last() =~= all.take(3));
    assert(all.take(3).drop_last() =~= all.take(2));
    assert(all.take(2).drop_last() =~= all.take(1));
    assert(all.take(1).drop_last() =~= Seq::empty());
    assert(policy.assisting(Seq::empty()) =~= Seq::empty());
    let one = policy.assisting(all.take(1));
    assert(one =~= if policy.on(SourceId::ReverseBeaconNetwork) {
        seq![SourceId::ReverseBeaconNetwork.title()]
    } else {
        Seq::empty()
    });
    let two = policy.assisting(all.take(2));
    assert(two =~= if policy.on(SourceId::ContestOnlineScoreboard) {
        one.push(SourceId::ContestOnlineScoreboard.title())
    } else {
        one
    });
    assert(policy.assisting(all.take(3)) == two);
    assert(policy.assisting(all.take(4)) == two);
    assert(policy.assisting(all.take(5)) == two);
    assert(policy.assisting(all) == two);
}

/// The spots and the scoreboard are live assistance from outside, the call history is static, the
/// two logs are those of the operator, and the rules are for reference. Each source is listed once.
pub proof fn law_what_sources_give(id: SourceId)
    ensures
        id.gives() == SourceCapability::LiveExternalAssistance <==> id
            == SourceId::ReverseBeaconNetwork || id == SourceId::ContestOnlineScoreboard,
        id.gives() == SourceCapability::StaticHistory <==> id == SourceId::N1mmCallHistory,
        id.gives() == SourceCapability::LocalLog <==> id == SourceId::PoloLofi || id
            == SourceId::AdifImport,
        id.gives() == SourceCapability::OfflineReference <==> id == SourceId::NaqpRules,
        exists|i: int| 0 <= i < all_sources().len() && #[trigger] all_sources()[i] == id,
        forall|i: int, j: int|
            0 <= i < j < all_sources().len() ==> #[trigger] all_sources()[i]
                != #[trigger] all_sources()[j],
{
    let all = all_sources();
    assert(all[0] == SourceId::ReverseBeaconNetwork);
    assert(all[1] == SourceId::ContestOnlineScoreboard);
    assert(all[2] == SourceId::N1mmCallHistory);
    assert(all[3] == SourceId::PoloLofi);
    assert(all[4] == SourceId::AdifImport);
    assert(all[5] == SourceId::NaqpRules);
}

} // verus!
