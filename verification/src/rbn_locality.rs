//! Which skimmers of the Reverse Beacon Network are near the station.
use vstd::prelude::*;

use crate::json::Json;
use crate::json::JsonModel;
use crate::model;
use crate::model::Band;
use crate::model::TextSet;
use crate::sort;
use crate::sort::PartModel;
use crate::sort::RankPart;
use crate::string_map;
use crate::string_map::Duplicate;
use crate::string_map::StringMap;
use crate::text;
use crate::text::CharClass;
use crate::time;
use crate::time::Instant;
use crate::time::Timestamp;

verus! {

// ---------------------------------------------------------------------------------------------
// Grid locators
// ---------------------------------------------------------------------------------------------
/// Why a text is no grid locator.
#[derive(Debug, Clone, Copy, PartialEq, Eq, Structural)]
pub enum GridError {
    Length,
    Field,
    Square,
    Subsquare,
    ExtendedSquare,
}

impl GridError {
    pub open spec fn text(self) -> Seq<char> {
        match self {
            GridError::Length => "Maidenhead grid must contain 4, 6, or 8 characters"@,
            GridError::Field => "Maidenhead grid field must use letters A through R"@,
            GridError::Square => "Maidenhead grid square must use digits"@,
            GridError::Subsquare => "Maidenhead grid subsquare must use letters A through X"@,
            GridError::ExtendedSquare => "Maidenhead extended square must use digits"@,
        }
    }

    pub fn message(self) -> (r: String)
        ensures
            r@ == self.text(),
    {
        text::owned(
            match self {
                GridError::Length => "Maidenhead grid must contain 4, 6, or 8 characters",
                GridError::Field => "Maidenhead grid field must use letters A through R",
                GridError::Square => "Maidenhead grid square must use digits",
                GridError::Subsquare => "Maidenhead grid subsquare must use letters A through X",
                GridError::ExtendedSquare => "Maidenhead extended square must use digits",
            },
        )
    }
}

/// The model of a grid locator: its text and the middle of its square. Coordinates are in units
/// of which 480 make a degree; north and east are positive.
#[verifier::ext_equal]
pub struct GridModel {
    pub value: Seq<char>,
    pub latitude: int,
    pub longitude: int,
}

/// `b` is one of the first `count` capitals.
pub open spec fn capital_within(b: u8, count: int) -> bool {
    65 <= b < 65 + count
}

pub open spec fn digit_byte(b: u8) -> bool {
    48 <= b <= 57
}

/// What is wrong with the bytes of a locator, if anything is.
pub open spec fn grid_fault(b: Seq<u8>) -> Option<GridError> {
    if b.len() != 4 && b.len() != 6 && b.len() != 8 {
        Some(GridError::Length)
    } else if !capital_within(b[0], 18) || !capital_within(b[1], 18) {
        Some(GridError::Field)
    } else if !digit_byte(b[2]) || !digit_byte(b[3]) {
        Some(GridError::Square)
    } else if b.len() >= 6 && (!capital_within(b[4], 24) || !capital_within(b[5], 24)) {
        Some(GridError::Subsquare)
    } else if b.len() == 8 && (!digit_byte(b[6]) || !digit_byte(b[7])) {
        Some(GridError::ExtendedSquare)
    } else {
        None
    }
}

/// The longitude of the middle of the square: fields are twenty degrees wide, squares two,
/// subsquares a 24th of that and extended squares a tenth of a subsquare.
pub open spec fn grid_longitude(b: Seq<u8>) -> int {
    let corner = (b[0] - 65) * 9_600 - 86_400 + (b[2] - 48) * 960;
    if b.len() == 4 {
        corner + 480
    } else if b.len() == 6 {
        corner + (b[4] - 65) * 40 + 20
    } else {
        corner + (b[4] - 65) * 40 + (b[6] - 48) * 4 + 2
    }
}

/// The latitude of the middle of the square: fields are ten degrees high, squares one, subsquares
/// a 24th of that and extended squares a tenth of a subsquare.
pub open spec fn grid_latitude(b: Seq<u8>) -> int {
    let corner = (b[1] - 65) * 4_800 - 43_200 + (b[3] - 48) * 480;
    if b.len() == 4 {
        corner + 240
    } else if b.len() == 6 {
        corner + (b[5] - 65) * 20 + 10
    } else {
        corner + (b[5] - 65) * 20 + (b[7] - 48) * 2 + 1
    }
}

/// The locator that `s` is; blanks around it and the case of letters do not matter.
pub open spec fn grid_reading(s: Seq<char>) -> Result<GridModel, GridError> {
    let value = text::upper(text::trimmed(s));
    let b = vstd::utf8::encode_utf8(value);
    match grid_fault(b) {
        Some(e) => Err(e),
        None => Ok(
            GridModel { value, latitude: grid_latitude(b), longitude: grid_longitude(b) },
        ),
    }
}

/// A grid locator. Coordinates are in units of which 480 make a degree.
#[derive(Debug)]
pub struct Maidenhead {
    pub value: String,
    pub latitude: i32,
    pub longitude: i32,
}

impl View for Maidenhead {
    type V = GridModel;

    open spec fn view(&self) -> GridModel {
        GridModel {
            value: self.value@,
            latitude: self.latitude as int,
            longitude: self.longitude as int,
        }
    }
}

impl Maidenhead {
    pub fn parse(value: &str) -> (r: Result<Maidenhead, GridError>)
        ensures
            match r {
                Ok(grid) => grid_reading(value@) == Ok::<GridModel, GridError>(grid@),
                Err(e) => grid_reading(value@) == Err::<GridModel, GridError>(e),
            },
    {
        let value = text::trim_upper(value);
        let b = value.as_str().as_bytes();
        let n: usize = b.len();
        if n != 4 && n != 6 && n != 8 {
            return Err(GridError::Length);
        }
        if !(65 <= b[0] && b[0] < 83 && 65 <= b[1] && b[1] < 83) {
            return Err(GridError::Field);
        }
        if !(48 <= b[2] && b[2] <= 57 && 48 <= b[3] && b[3] <= 57) {
            return Err(GridError::Square);
        }
        if n >= 6 && !(65 <= b[4] && b[4] < 89 && 65 <= b[5] && b[5] < 89) {
            return Err(GridError::Subsquare);
        }
        if n == 8 && !(48 <= b[6] && b[6] <= 57 && 48 <= b[7] && b[7] <= 57) {
            return Err(GridError::ExtendedSquare);
        }
        let mut longitude: i32 = (b[0] as i32 - 65) * 9_600 - 86_400 + (b[2] as i32 - 48) * 960;
        let mut latitude: i32 = (b[1] as i32 - 65) * 4_800 - 43_200 + (b[3] as i32 - 48) * 480;
        if n == 4 {
            longitude = longitude + 480;
            latitude = latitude + 240;
        } else if n == 6 {
            longitude = longitude + (b[4] as i32 - 65) * 40 + 20;
            latitude = latitude + (b[5] as i32 - 65) * 20 + 10;
        } else {
            longitude = longitude + (b[4] as i32 - 65) * 40 + (b[6] as i32 - 48) * 4 + 2;
            latitude = latitude + (b[5] as i32 - 65) * 20 + (b[7] as i32 - 48) * 2 + 1;
        }
        Ok(Maidenhead { value, latitude, longitude })
    }
}

/// The middle of every square is on the globe.
pub proof fn law_grids_are_on_the_globe(s: Seq<char>)
    ensures
        grid_reading(s) matches Ok(g) ==> -43_200 < g.latitude < 43_200 && -86_400 < g.longitude
            < 86_400,
{
}

// ---------------------------------------------------------------------------------------------
// Nodes
// ---------------------------------------------------------------------------------------------
/// `s` without the endings `-#` behind it.
pub open spec fn without_marks(s: Seq<char>) -> Seq<char>
    decreases s.len(),
{
    if s.len() >= 2 && s[s.len() - 2] == '-' && s[s.len() - 1] == '#' {
        without_marks(s.take(s.len() - 2))
    } else {
        s
    }
}

/// The callsign of a skimmer: trimmed, in capitals, and without the marks that the feed puts
/// behind it.
pub open spec fn spotter_call(s: Seq<char>) -> Seq<char> {
    text::upper(
        text::strip_end(
            text::strip_end(without_marks(text::trimmed(s)), CharClass::Is('#')),
            CharClass::Is('-'),
        ),
    )
}

pub fn normalize_spotter(spotter: &str) -> (r: String)
    ensures
        r@ == spotter_call(spotter@),
{
    let trimmed = text::trim(spotter);
    let v = text::chars_of(trimmed.as_str());
    let mut end: usize = v.len();
    assert(v@.take(end as int) =~= v@);
    while end >= 2 && v[end - 2] == '-' && v[end - 1] == '#'
        invariant
            end <= v@.len(),
            without_marks(v@) == without_marks(v@.take(end as int)),
        decreases end,
    {
        assert(v@.take(end as int).take(end - 2) =~= v@.take(end - 2));
        end = end - 2;
    }
    let bare = text::string_between(&v, 0, end);
    assert(bare@ =~= v@.take(end as int));
    assert(end >= 2 ==> v@.take(end as int)[end - 2] == v@[end - 2] && v@.take(end as int)[end - 1]
        == v@[end - 1]);
    let bare = text::strip_right(bare.as_str(), CharClass::Is('#'));
    let bare = text::strip_right(bare.as_str(), CharClass::Is('-'));
    text::to_upper(bare.as_str())
}

/// A skimmer of the directory.
#[derive(Debug)]
pub struct NodeRecord {
    pub call: String,
    pub grid: String,
    pub band: Json,
}

/// The model of a node.
#[verifier::ext_equal]
pub struct NodeModel {
    pub call: Seq<char>,
    pub grid: Seq<char>,
    pub band: JsonModel,
}

impl View for NodeRecord {
    type V = NodeModel;

    open spec fn view(&self) -> NodeModel {
        NodeModel { call: self.call@, grid: self.grid@, band: self.band@ }
    }
}

/// The band on which an entry of a node says that it hears Morse code.
pub open spec fn entry_band(entry: JsonModel) -> Option<Band> {
    match entry {
        JsonModel::Array(fields) => if fields.len() >= 2 {
            match (fields[0], fields[1]) {
                (JsonModel::Text(mode), JsonModel::Text(band)) => if text::same_letters(
                    mode,
                    "CW"@,
                ) {
                    model::band_named(band)
                } else {
                    None
                },
                _ => None,
            }
        } else {
            None
        },
        _ => None,
    }
}

/// The entries of a node: the items of an array, or the values of an object.
pub open spec fn entries_of(band: JsonModel) -> Seq<JsonModel> {
    match band {
        JsonModel::Array(items) => items,
        JsonModel::Object(members) => Seq::new(members.len(), |i: int| members[i].1),
        _ => Seq::empty(),
    }
}

/// The node hears Morse code on `band`.
pub open spec fn hears(node: NodeModel, band: Band) -> bool {
    exists|i: int|
        0 <= i < entries_of(node.band).len() && entry_band(#[trigger] entries_of(node.band)[i])
            == Some(band)
}

fn read_entry(entry: &Json) -> (r: Option<Band>)
    ensures
        r == entry_band(entry@),
{
    match entry {
        Json::Array(fields) => {
            if fields.len() < 2 {
                return None;
            }
            assert(entry@->Array_0[0] == fields@[0]@ && entry@->Array_0[1] == fields@[1]@);
            match (&fields[0], &fields[1]) {
                (Json::Text(mode), Json::Text(band)) => {
                    if text::same_ignoring_case(mode.as_str(), "CW") {
                        Band::parse(band.as_str())
                    } else {
                        None
                    }
                },
                _ => None,
            }
        },
        _ => None,
    }
}

impl NodeRecord {
    /// Whether the node hears Morse code on `band`.
    pub fn hears_on(&self, band: Band) -> (r: bool)
        ensures
            r == hears(self@, band),
    {
        let ghost all = entries_of(self@.band);
        match &self.band {
            Json::Array(items) => {
                let mut i: usize = 0;
                while i < items.len()
                    invariant
                        i <= items@.len(),
                        all == entries_of(self@.band),
                        all.len() == items@.len(),
                        forall|j: int| 0 <= j < items@.len() ==> #[trigger] items@[j]@ == all[j],
                        forall|j: int| 0 <= j < i ==> entry_band(#[trigger] all[j]) != Some(band),
                    decreases items.len() - i,
                {
                    assert(all[i as int] == items@[i as int]@);
                    if let Some(b) = read_entry(&items[i]) {
                        if b == band {
                            return true;
                        }
                    }
                    i = i + 1;
                }
                false
            },
            Json::Object(members) => {
                let mut i: usize = 0;
                while i < members.len()
                    invariant
                        i <= members@.len(),
                        all == entries_of(self@.band),
                        all.len() == members@.len(),
                        forall|j: int|
                            0 <= j < members@.len() ==> (#[trigger] members@[j]).1@ == all[j],
                        forall|j: int| 0 <= j < i ==> entry_band(#[trigger] all[j]) != Some(band),
                    decreases members.len() - i,
                {
                    assert(all[i as int] == members@[i as int].1@);
                    if let Some(b) = read_entry(&members[i].1) {
                        if b == band {
                            return true;
                        }
                    }
                    i = i + 1;
                }
                false
            },
            _ => false,
        }
    }

    /// The bands on which the node hears Morse code, in the order of the log.
    pub fn bands(&self) -> (r: Vec<Band>)
        ensures
            r@ == bands_heard(self@, model::all_bands()),
    {
        let all = Band::all();
        let mut out: Vec<Band> = Vec::new();
        let mut i: usize = 0;
        assert(all@.take(0) =~= Seq::empty());
        while i < all.len()
            invariant
                i <= all@.len(),
                out@ == bands_heard(self@, all@.take(i as int)),
            decreases all.len() - i,
        {
            assert(all@.take(i + 1).drop_last() =~= all@.take(i as int));
            if self.hears_on(all[i]) {
                out.push(all[i]);
            }
            i = i + 1;
        }
        assert(all@.take(all@.len() as int) =~= all@);
        out
    }
}

/// The bands among `bands` on which the node hears Morse code.
pub open spec fn bands_heard(node: NodeModel, bands: Seq<Band>) -> Seq<Band>
    decreases bands.len(),
{
    if bands.len() == 0 {
        Seq::empty()
    } else if hears(node, bands.last()) {
        bands_heard(node, bands.drop_last()).push(bands.last())
    } else {
        bands_heard(node, bands.drop_last())
    }
}

/// The nodes that have a callsign, in order.
pub open spec fn with_calls(nodes: Seq<NodeModel>) -> Seq<NodeModel>
    decreases nodes.len(),
{
    if nodes.len() == 0 {
        nodes
    } else if text::trimmed(nodes.last().call).len() > 0 {
        with_calls(nodes.drop_last()).push(nodes.last())
    } else {
        with_calls(nodes.drop_last())
    }
}

impl Duplicate for NodeRecord {
    fn duplicate(&self) -> (r: Self) {
        NodeRecord {
            call: self.call.clone(),
            grid: self.grid.clone(),
            band: self.band.duplicate(),
        }
    }
}

/// The usable nodes of a directory; none where there is not one.
pub fn usable_nodes(nodes: &Vec<NodeRecord>) -> (r: Option<Vec<NodeRecord>>)
    ensures
        match r {
            Some(v) => v@.len() > 0 && string_map::views(v@) == with_calls(
                string_map::views(nodes@),
            ),
            None => with_calls(string_map::views(nodes@)).len() == 0,
        },
{
    let ghost all = string_map::views(nodes@);
    let mut out: Vec<NodeRecord> = Vec::new();
    let mut i: usize = 0;
    assert(string_map::views(out@) =~= with_calls(all.take(0)));
    while i < nodes.len()
        invariant
            i <= nodes@.len(),
            all == string_map::views(nodes@),
            string_map::views(out@) == with_calls(all.take(i as int)),
        decreases nodes.len() - i,
    {
        assert(all.take(i + 1).drop_last() =~= all.take(i as int));
        assert(all.take(i + 1).last() == nodes@[i as int]@);
        if !text::is_blank(nodes[i].call.as_str()) {
            let ghost before = string_map::views(out@);
            let copy = nodes[i].duplicate();
            out.push(copy);
            assert(string_map::views(out@) =~= before.push(nodes@[i as int]@));
        }
        i = i + 1;
    }
    assert(all.take(all.len() as int) =~= all);
    assert(string_map::views(out@).len() == out@.len());
    if out.len() == 0 {
        None
    } else {
        Some(out)
    }
}

/// A directory that was kept is good for this many hours.
pub const CATALOG_MAX_AGE_HOURS: i64 = 24;

/// Whether a directory of `retrieved_at` is still good at `now`.
pub fn catalog_is_current(retrieved_at: Timestamp, now: Timestamp) -> (r: bool)
    ensures
        r == (time::span(retrieved_at@, now@) <= CATALOG_MAX_AGE_HOURS * 3_600_000_000_000),
{
    now.since(retrieved_at) <= CATALOG_MAX_AGE_HOURS as i128 * 3_600_000_000_000
}

// ---------------------------------------------------------------------------------------------
// Sites
// ---------------------------------------------------------------------------------------------
/// A place with skimmers.
struct ReceiverSite {
    grid: String,
    distance_km: u32,
    nodes: TextSet,
}

/// The model of a site.
#[verifier::ext_equal]
pub struct SiteModel {
    pub grid: Seq<char>,
    pub distance_km: u32,
    pub nodes: Seq<(Seq<char>, ())>,
}

impl View for ReceiverSite {
    type V = SiteModel;

    closed spec fn view(&self) -> SiteModel {
        SiteModel { grid: self.grid@, distance_km: self.distance_km, nodes: self.nodes@ }
    }
}

impl Duplicate for ReceiverSite {
    fn duplicate(&self) -> (r: Self) {
        ReceiverSite {
            grid: self.grid.clone(),
            distance_km: self.distance_km,
            nodes: self.nodes.duplicate(),
        }
    }
}

/// A node and how far it is from the station.
pub type MeasuredNode = (NodeRecord, u32);

pub open spec fn measured(v: Seq<MeasuredNode>) -> Seq<(NodeModel, u32)> {
    Seq::new(v.len(), |i: int| (v[i].0@, v[i].1))
}

/// The sites with nodes that hear `band`, by their grids. Nodes whose grid is no locator belong
/// to none; the first node of a site gives the distance.
pub open spec fn sites_for(nodes: Seq<(NodeModel, u32)>, band: Band) -> Seq<
    (Seq<char>, SiteModel),
>
    decreases nodes.len(),
{
    if nodes.len() == 0 {
        Seq::empty()
    } else {
        let before = sites_for(nodes.drop_last(), band);
        let node = nodes.last();
        match grid_reading(node.0.grid) {
            Err(_) => before,
            Ok(grid) => if !hears(node.0, band) {
                before
            } else {
                let call = spotter_call(node.0.call);
                let site = match string_map::lookup(before, grid.value) {
                    Some(known) => SiteModel {
                        nodes: string_map::inserted(known.nodes, call, ()),
                        ..known
                    },
                    None => SiteModel {
                        grid: grid.value,
                        distance_km: node.1,
                        nodes: string_map::inserted(Seq::empty(), call, ()),
                    },
                };
                string_map::inserted(before, grid.value, site)
            },
        }
    }
}

/// The nearest comes first; of equally near ones that of the first grid.
pub open spec fn site_rank(site: SiteModel) -> Seq<PartModel> {
    seq![PartModel::Number(site.distance_km as int), PartModel::Text(site.grid)]
}

pub open spec fn with_site_ranks(sites: Seq<SiteModel>) -> Seq<(Seq<PartModel>, SiteModel)> {
    Seq::new(sites.len(), |i: int| (site_rank(sites[i]), sites[i]))
}

/// The `count` nearest sites with nodes that hear `band`.
pub open spec fn nearest(nodes: Seq<(NodeModel, u32)>, band: Band, count: int) -> Seq<SiteModel> {
    string_map::at_most(
        sort::unranked(
            sort::sorted(with_site_ranks(string_map::values(sites_for(nodes, band)))),
        ),
        count,
    )
}

/// No site that was left out is nearer than one that was chosen, and no more are chosen than were
/// asked for.
pub proof fn law_nearest_sites_are_chosen(
    nodes: Seq<(NodeModel, u32)>,
    band: Band,
    count: int,
    i: int,
)
    requires
        0 <= i < string_map::values(sites_for(nodes, band)).len(),
        count >= 0,
    ensures
        nearest(nodes, band, count).len() <= count,
        ({
            let site = string_map::values(sites_for(nodes, band))[i];
            nearest(nodes, band, count).contains(site) || forall|j: int|
                0 <= j < nearest(nodes, band, count).len() ==> (#[trigger] nearest(
                    nodes,
                    band,
                    count,
                )[j]).distance_km <= site.distance_km
        }),
{
    let sites = string_map::values(sites_for(nodes, band));
    let w = with_site_ranks(sites);
    let best = sort::sorted(w);
    let chosen = nearest(nodes, band, count);
    sort::lemma_sorted(w);
    sort::lemma_sorted_holds(w, i);
    let m = choose|m: int| 0 <= m < best.len() && #[trigger] best[m] == w[i];
    if m < chosen.len() {
        assert(chosen[m] == sites[i]);
    } else {
        assert forall|j: int| 0 <= j < chosen.len() implies (#[trigger] chosen[j]).distance_km
            <= sites[i].distance_km by {
            assert(chosen[j] == best[j].1);
            sort::lemma_sorted_member(w, j);
            assert(best[j].0 == site_rank(best[j].1));
            assert(!sort::below(best[m].0, best[j].0));
            assert(best[m].0[0] == PartModel::Number(sites[i].distance_km as int));
            assert(best[j].0[0] == PartModel::Number(best[j].1.distance_km as int));
        }
    }
}

fn collect_sites(nodes: &Vec<MeasuredNode>, band: Band) -> (r: StringMap<ReceiverSite>)
    ensures
        r@ == sites_for(measured(nodes@), band),
{
    let ghost all = measured(nodes@);
    let mut out: StringMap<ReceiverSite> = StringMap::new();
    let mut i: usize = 0;
    assert(all.take(0) =~= Seq::empty());
    while i < nodes.len()
        invariant
            i <= nodes@.len(),
            all == measured(nodes@),
            out@ == sites_for(all.take(i as int), band),
        decreases nodes.len() - i,
    {
        let ghost before = out@;
        assert(all.take(i + 1).drop_last() =~= all.take(i as int));
        assert(all.take(i + 1).last() == all[i as int]);
        let node = &nodes[i].0;
        let distance_km = nodes[i].1;
        if let Ok(grid) = Maidenhead::parse(node.grid.as_str()) {
            if node.hears_on(band) {
                let call = normalize_spotter(node.call.as_str());
                let site = match out.get(grid.value.as_str()) {
                    Some(known) => {
                        let mut calls = known.nodes.duplicate();
                        calls.insert(call, ());
                        ReceiverSite {
                            grid: known.grid.clone(),
                            distance_km: known.distance_km,
                            nodes: calls,
                        }
                    },
                    None => {
                        let mut calls: TextSet = StringMap::new();
                        calls.insert(call, ());
                        ReceiverSite { grid: grid.value.clone(), distance_km, nodes: calls }
                    },
                };
                out.insert(grid.value, site);
            }
        }
        i = i + 1;
    }
    assert(all.take(all.len() as int) =~= all);
    out
}

fn choose_sites(nodes: &Vec<MeasuredNode>, band: Band, count: usize) -> (r: Vec<ReceiverSite>)
    ensures
        string_map::views(r@) == nearest(measured(nodes@), band, count as int),
{
    let sites = collect_sites(nodes, band);
    let ghost models = string_map::values(sites@);
    let mut items: Vec<ReceiverSite> = Vec::new();
    let mut ranks: Vec<Vec<RankPart>> = Vec::new();
    let mut i: usize = 0;
    while i < sites.len()
        invariant
            i <= sites@.len(),
            models == string_map::values(sites@),
            items@.len() == i,
            ranks@.len() == i,
            forall|j: int| 0 <= j < i ==> (#[trigger] items@[j])@ == models[j],
            forall|j: int|
                0 <= j < i ==> sort::rank_model((#[trigger] ranks@[j])@) == site_rank(models[j]),
        decreases sites@.len() - i,
    {
        let site = sites.value(i);
        let rank = vec![
            RankPart::Number(site.distance_km as i128),
            RankPart::Text(site.grid.clone()),
        ];
        assert(sort::rank_model(rank@) =~= site_rank(models[i as int]));
        ranks.push(rank);
        let copy = site.duplicate();
        items.push(copy);
        i = i + 1;
    }
    assert(string_map::views(items@) =~= models);
    assert(sort::ranked(sort::rank_models(ranks@), models) =~= with_site_ranks(models));
    let mut r = sort::sort_by(ranks, items);
    let ghost all = string_map::views(r@);
    r.truncate(count);
    assert(string_map::views(r@) =~= string_map::at_most(all, count as int));
    r
}

// ---------------------------------------------------------------------------------------------
// The selection
// ---------------------------------------------------------------------------------------------
/// Whose reports count.
#[derive(Debug, Clone, Copy, PartialEq, Eq, Structural)]
pub enum SkimmerScope {
    Nearby,
    All,
}

/// How the directory of skimmers stands.
#[derive(Debug, Clone, Copy, PartialEq, Eq, Structural)]
pub enum CatalogStatus {
    NotConfigured,
    Loading,
    Live,
    Stale,
    Unavailable,
}

/// The skimmers whose reports count, and why.
pub struct RbnLocality {
    configured_scope: SkimmerScope,
    effective_scope: SkimmerScope,
    station: Option<Maidenhead>,
    nearest_sites: usize,
    catalog_status: CatalogStatus,
    catalog_updated_at: Option<Timestamp>,
    message: String,
    selections: Vec<Vec<ReceiverSite>>,
}

/// The model of a locality. Either nothing was selected yet, or there is a selection for each
/// band, in the order of the log.
#[verifier::ext_equal]
pub struct LocalityModel {
    pub configured_scope: SkimmerScope,
    pub effective_scope: SkimmerScope,
    pub station: Option<GridModel>,
    pub nearest_sites: nat,
    pub catalog_status: CatalogStatus,
    pub catalog_updated_at: Option<Instant>,
    pub message: Seq<char>,
    pub selections: Seq<Seq<SiteModel>>,
}

impl View for RbnLocality {
    type V = LocalityModel;

    closed spec fn view(&self) -> LocalityModel {
        LocalityModel {
            configured_scope: self.configured_scope,
            effective_scope: self.effective_scope,
            station: match self.station {
                Some(g) => Some(g@),
                None => None,
            },
            nearest_sites: self.nearest_sites as nat,
            catalog_status: self.catalog_status,
            catalog_updated_at: time::opt_time(self.catalog_updated_at),
            message: self.message@,
            selections: selection_models(self.selections@),
        }
    }
}

spec fn selection_models(v: Seq<Vec<ReceiverSite>>) -> Seq<Seq<SiteModel>> {
    Seq::new(v.len(), |i: int| string_map::views(v[i]@))
}

/// What holds of every locality: nearby skimmers need a station, and only where they are asked
/// for are they selected.
pub open spec fn sound(m: LocalityModel) -> bool {
    &&& m.nearest_sites > 0
    &&& m.configured_scope == SkimmerScope::Nearby ==> m.station is Some
    &&& m.selections.len() == 0 || m.selections.len() == 6
    &&& m.effective_scope == SkimmerScope::Nearby ==> m.selections.len() == 6
}

/// Why a locality cannot be configured.
#[derive(Debug, Clone, Copy, PartialEq, Eq, Structural)]
pub enum LocalityError {
    NoSites,
    Grid(GridError),
    ScopeNeedsGrid,
}

impl LocalityError {
    pub open spec fn text(self) -> Seq<char> {
        match self {
            LocalityError::NoSites => "nearest RBN site count must be greater than zero"@,
            LocalityError::Grid(e) => e.text(),
            LocalityError::ScopeNeedsGrid => "--rbn-skimmer-scope nearby requires --station-grid"@,
        }
    }

    pub fn message(self) -> (r: String)
        ensures
            r@ == self.text(),
    {
        match self {
            LocalityError::NoSites => text::owned(
                "nearest RBN site count must be greater than zero",
            ),
            LocalityError::Grid(e) => e.message(),
            LocalityError::ScopeNeedsGrid => text::owned(
                "--rbn-skimmer-scope nearby requires --station-grid",
            ),
        }
    }
}

/// The scope that is asked for, or else nearby where the station is known and all where it is not.
pub open spec fn scope_for(requested: Option<SkimmerScope>, has_station: bool) -> SkimmerScope {
    match requested {
        Some(s) => s,
        None => if has_station {
            SkimmerScope::Nearby
        } else {
            SkimmerScope::All
        },
    }
}

/// The configuration of a locality.
pub open spec fn configured(
    grid: Option<Seq<char>>,
    requested: Option<SkimmerScope>,
    nearest_sites: nat,
) -> Result<LocalityModel, LocalityError> {
    if nearest_sites == 0 {
        Err(LocalityError::NoSites)
    } else {
        let station = match grid {
            None => Ok(None),
            Some(g) => match grid_reading(g) {
                Ok(m) => Ok(Some(m)),
                Err(e) => Err(e),
            },
        };
        match station {
            Err(e) => Err(LocalityError::Grid(e)),
            Ok(station) => {
                let scope = scope_for(requested, station is Some);
                if scope == SkimmerScope::Nearby && station is None {
                    Err(LocalityError::ScopeNeedsGrid)
                } else {
                    Ok(
                        LocalityModel {
                            configured_scope: scope,
                            effective_scope: SkimmerScope::All,
                            station,
                            nearest_sites,
                            catalog_status: if scope == SkimmerScope::Nearby {
                                CatalogStatus::Loading
                            } else {
                                CatalogStatus::NotConfigured
                            },
                            catalog_updated_at: None,
                            message: if scope == SkimmerScope::Nearby {
                                "loading nearby RBN receiver sites; showing all spots meanwhile"@
                            } else {
                                "using the full RBN feed"@
                            },
                            selections: Seq::empty(),
                        },
                    )
                }
            },
        }
    }
}

/// The locality once the directory is there: the nearest sites for each band count.
pub open spec fn installed(
    m: LocalityModel,
    nodes: Seq<(NodeModel, u32)>,
    retrieved_at: Instant,
    status: CatalogStatus,
) -> LocalityModel {
    if m.station is None {
        m
    } else {
        LocalityModel {
            effective_scope: SkimmerScope::Nearby,
            catalog_status: status,
            catalog_updated_at: Some(retrieved_at),
            message: if status == CatalogStatus::Stale {
                "using cached nearby RBN receiver sites"@
            } else {
                "filtering candidates through nearby RBN receiver sites"@
            },
            selections: Seq::new(
                6,
                |i: int| nearest(nodes, model::all_bands()[i], m.nearest_sites as int),
            ),
            ..m
        }
    }
}

/// The locality where the feed is not used.
pub open spec fn feed_disabled(m: LocalityModel) -> LocalityModel {
    if m.configured_scope == SkimmerScope::Nearby {
        LocalityModel {
            catalog_status: CatalogStatus::NotConfigured,
            effective_scope: SkimmerScope::All,
            message: "RBN is disabled; nearby receiver selection will activate with --rbn"@,
            ..m
        }
    } else {
        m
    }
}

/// The locality where the directory cannot be had: what was selected before stays.
pub open spec fn unavailable(m: LocalityModel, why: Seq<char>) -> LocalityModel {
    if m.selections.len() == 0 {
        LocalityModel {
            effective_scope: SkimmerScope::All,
            catalog_status: CatalogStatus::Unavailable,
            message: "RBN receiver directory unavailable; showing all spots: "@ + why,
            ..m
        }
    } else {
        LocalityModel {
            catalog_status: CatalogStatus::Stale,
            message: "using cached RBN receiver sites: "@ + why,
            ..m
        }
    }
}

/// The first of `sites` that has the skimmer `call`.
pub open spec fn site_with(sites: Seq<SiteModel>, call: Seq<char>) -> Option<SiteModel>
    decreases sites.len(),
{
    if sites.len() == 0 {
        None
    } else if string_map::has_key(sites[0].nodes, call) {
        Some(sites[0])
    } else {
        site_with(sites.skip(1), call)
    }
}

/// The site nearby at which a skimmer hears `band`.
pub open spec fn site_of_spotter(m: LocalityModel, band: Band, spotter: Seq<char>) -> Option<
    SiteModel,
> {
    if m.effective_scope != SkimmerScope::Nearby || m.selections.len() != 6 {
        None
    } else {
        site_with(m.selections[band.place()], spotter_call(spotter))
    }
}

/// A site nearby that a report came from.
#[derive(Debug)]
pub struct LocalMatch {
    pub site_grid: String,
    pub distance_km: u32,
}

/// A site, for display.
#[derive(Debug)]
pub struct PublicReceiverSite {
    pub grid: String,
    pub distance_km: u32,
    pub nodes: Vec<String>,
}

/// The selection for a band, for display.
#[derive(Debug)]
pub struct PublicBandSelection {
    pub band: Band,
    pub coverage: &'static str,
    pub effective_radius_km: Option<u32>,
    pub sites: Vec<PublicReceiverSite>,
}

/// A locality, for display.
#[derive(Debug)]
pub struct PublicLocality {
    pub configured_scope: SkimmerScope,
    pub effective_scope: SkimmerScope,
    pub station_grid: Option<String>,
    pub catalog_status: CatalogStatus,
    pub catalog_updated_at: Option<Timestamp>,
    pub message: String,
    pub bands: Vec<PublicBandSelection>,
}

/// How many of `sites` are within 500 kilometers.
pub open spec fn count_near(sites: Seq<SiteModel>) -> nat
    decreases sites.len(),
{
    if sites.len() == 0 {
        0
    } else {
        count_near(sites.drop_last()) + if sites.last().distance_km <= 500 {
            1nat
        } else {
            0nat
        }
    }
}

/// The distance of the farthest of `sites`.
pub open spec fn radius(sites: Seq<SiteModel>) -> Option<u32>
    decreases sites.len(),
{
    if sites.len() == 0 {
        None
    } else {
        match radius(sites.drop_last()) {
            Some(d) => if d > sites.last().distance_km {
                Some(d)
            } else {
                Some(sites.last().distance_km)
            },
            None => Some(sites.last().distance_km),
        }
    }
}

/// How well `sites` cover a band: good where three are near, or all that are asked for if those
/// are fewer.
pub open spec fn coverage(sites: Seq<SiteModel>, nearest_sites: nat) -> Seq<char> {
    let wanted = if nearest_sites < 3 {
        nearest_sites
    } else {
        3
    };
    if count_near(sites) >= wanted {
        "good"@
    } else if count_near(sites) > 0 {
        "limited"@
    } else if sites.len() == 0 {
        "unavailable"@
    } else {
        "distant"@
    }
}

pub open spec fn shows_site(p: PublicReceiverSite, site: SiteModel) -> bool {
    &&& p.grid@ == site.grid
    &&& p.distance_km == site.distance_km
    &&& text::texts(p.nodes@) == string_map::keys(site.nodes)
}

/// The sites that count for the band at `i`.
pub open spec fn sites_at(m: LocalityModel, i: int) -> Seq<SiteModel> {
    if m.selections.len() == 6 {
        m.selections[i]
    } else {
        Seq::empty()
    }
}

pub open spec fn shows_band(p: PublicBandSelection, m: LocalityModel, i: int) -> bool {
    let sites = sites_at(m, i);
    &&& p.band == model::all_bands()[i]
    &&& p.coverage@ == coverage(sites, m.nearest_sites)
    &&& p.effective_radius_km == radius(sites)
    &&& p.sites@.len() == sites.len()
    &&& forall|j: int| 0 <= j < sites.len() ==> shows_site(#[trigger] p.sites@[j], sites[j])
}

fn show_site(site: &ReceiverSite) -> (r: PublicReceiverSite)
    ensures
        shows_site(r, site@),
{
    let mut nodes: Vec<String> = Vec::new();
    let mut i: usize = 0;
    while i < site.nodes.len()
        invariant
            i <= site.nodes@.len(),
            nodes@.len() == i,
            forall|j: int| 0 <= j < i ==> (#[trigger] nodes@[j])@ == site.nodes@[j].0,
        decreases site.nodes@.len() - i,
    {
        nodes.push(site.nodes.key(i).clone());
        i = i + 1;
    }
    assert(text::texts(nodes@) =~= string_map::keys(site.nodes@));
    PublicReceiverSite { grid: site.grid.clone(), distance_km: site.distance_km, nodes }
}

impl RbnLocality {
    #[verifier::type_invariant]
    closed spec fn inv(self) -> bool {
        sound(self@)
    }

    /// A locality with a station at `grid`, if that is known, that selects the `nearest_sites`
    /// nearest sites where nearby skimmers are asked for.
    pub fn new(
        grid: Option<&str>,
        requested_scope: Option<SkimmerScope>,
        nearest_sites: usize,
    ) -> (r: Result<Self, LocalityError>)
        ensures
            match r {
                Ok(locality) => configured(
                    text::opt_str(grid),
                    requested_scope,
                    nearest_sites as nat,
                ) == Ok::<LocalityModel, LocalityError>(locality@),
                Err(e) => configured(text::opt_str(grid), requested_scope, nearest_sites as nat)
                    == Err::<LocalityModel, LocalityError>(e),
            },
    {
        if nearest_sites == 0 {
            return Err(LocalityError::NoSites);
        }
        let station = match grid {
            None => None,
            Some(g) => match Maidenhead::parse(g) {
                Ok(m) => Some(m),
                Err(e) => return Err(LocalityError::Grid(e)),
            },
        };
        let configured_scope = match requested_scope {
            Some(s) => s,
            None => if station.is_some() {
                SkimmerScope::Nearby
            } else {
                SkimmerScope::All
            },
        };
        let nearby = configured_scope == SkimmerScope::Nearby;
        if nearby && station.is_none() {
            return Err(LocalityError::ScopeNeedsGrid);
        }
        let catalog_status = if nearby {
            CatalogStatus::Loading
        } else {
            CatalogStatus::NotConfigured
        };
        let message = if nearby {
            text::owned("loading nearby RBN receiver sites; showing all spots meanwhile")
        } else {
            text::owned("using the full RBN feed")
        };
        let selections: Vec<Vec<ReceiverSite>> = Vec::new();
        assert(selection_models(selections@) =~= Seq::empty());
        Ok(
            RbnLocality {
                configured_scope,
                effective_scope: SkimmerScope::All,
                station,
                nearest_sites,
                catalog_status,
                catalog_updated_at: None,
                message,
                selections,
            },
        )
    }

    pub fn configured_for_nearby(&self) -> (r: bool)
        ensures
            r == (self@.configured_scope == SkimmerScope::Nearby),
            sound(self@),
    {
        proof {
            use_type_invariant(self);
        }
        self.configured_scope == SkimmerScope::Nearby
    }

    pub fn effective_scope(&self) -> (r: SkimmerScope)
        ensures
            r == self@.effective_scope,
    {
        self.effective_scope
    }

    /// The station's grid locator.
    pub fn station(&self) -> (r: Option<&Maidenhead>)
        ensures
            match r {
                Some(g) => self@.station == Some(g@),
                None => self@.station is None,
            },
    {
        match &self.station {
            Some(g) => Some(g),
            None => None,
        }
    }

    /// Notes that the feed is not used.
    pub fn mark_feed_disabled(&mut self)
        ensures
            final(self)@ == feed_disabled(old(self)@),
    {
        proof {
            use_type_invariant(&*self);
        }
        if self.configured_scope == SkimmerScope::Nearby {
            let message = text::owned(
                "RBN is disabled; nearby receiver selection will activate with --rbn",
            );
            self.effective_scope = SkimmerScope::All;
            self.catalog_status = CatalogStatus::NotConfigured;
            self.message = message;
        }
    }

    /// Selects the nearest sites of a directory.
    pub fn install(
        &mut self,
        nodes: &Vec<MeasuredNode>,
        retrieved_at: Timestamp,
        status: CatalogStatus,
    )
        ensures
            final(self)@ == installed(old(self)@, measured(nodes@), retrieved_at@, status),
    {
        proof {
            use_type_invariant(&*self);
        }
        if self.station.is_none() {
            return ;
        }
        let ghost begun = self@;
        let bands = Band::all();
        let count = self.nearest_sites;
        let mut selections: Vec<Vec<ReceiverSite>> = Vec::new();
        let mut i: usize = 0;
        while i < 6
            invariant
                i <= 6,
                bands@ == model::all_bands(),
                selections@.len() == i,
                forall|j: int|
                    0 <= j < i ==> string_map::views((#[trigger] selections@[j])@) == nearest(
                        measured(nodes@),
                        model::all_bands()[j],
                        count as int,
                    ),
            decreases 6 - i,
        {
            selections.push(choose_sites(nodes, bands[i], count));
            i = i + 1;
        }
        let message = match status {
            CatalogStatus::Stale => text::owned("using cached nearby RBN receiver sites"),
            _ => text::owned("filtering candidates through nearby RBN receiver sites"),
        };
        let ghost wanted = installed(begun, measured(nodes@), retrieved_at@, status);
        assert(selection_models(selections@) =~= wanted.selections);
        self.selections = selections;
        self.catalog_status = status;
        self.catalog_updated_at = Some(retrieved_at);
        self.effective_scope = SkimmerScope::Nearby;
        self.message = message;
        assert(self@ =~= wanted);
    }

    /// Notes that the directory cannot be had.
    pub fn mark_unavailable(&mut self, why: &str)
        ensures
            final(self)@ == unavailable(old(self)@, why@),
    {
        proof {
            use_type_invariant(&*self);
        }
        assert(self@.selections.len() == self.selections@.len());
        if self.selections.len() == 0 {
            let message = text::joined(
                "RBN receiver directory unavailable; showing all spots: ",
                why,
            );
            self.effective_scope = SkimmerScope::All;
            self.catalog_status = CatalogStatus::Unavailable;
            self.message = message;
        } else {
            let message = text::joined("using cached RBN receiver sites: ", why);
            self.catalog_status = CatalogStatus::Stale;
            self.message = message;
        }
    }

    /// The site nearby at which `spotter` hears `band`.
    pub fn match_spotter(&self, band: Band, spotter: &str) -> (r: Option<LocalMatch>)
        ensures
            match r {
                Some(m) => site_of_spotter(self@, band, spotter@) matches Some(site)
                    && m.site_grid@ == site.grid && m.distance_km == site.distance_km,
                None => site_of_spotter(self@, band, spotter@) is None,
            },
    {
        proof {
            use_type_invariant(self);
        }
        if self.effective_scope != SkimmerScope::Nearby {
            return None;
        }
        let call = normalize_spotter(spotter);
        let p = band.position();
        assert(self@.selections[p as int] == string_map::views(self.selections@[p as int]@));
        let sites = &self.selections[p];
        let ghost all = string_map::views(sites@);
        let mut i: usize = 0;
        assert(all.skip(0) =~= all);
        while i < sites.len()
            invariant
                i <= sites@.len(),
                all == string_map::views(sites@),
                call@ == spotter_call(spotter@),
                self@.effective_scope == SkimmerScope::Nearby,
                self@.selections.len() == 6,
                self@.selections[band.place()] == all,
                site_with(all, call@) == site_with(all.skip(i as int), call@),
            decreases sites.len() - i,
        {
            assert(all.skip(i as int)[0] == sites@[i as int]@);
            assert(all.skip(i as int).skip(1) =~= all.skip(i + 1));
            if sites[i].nodes.has(call.as_str()) {
                return Some(
                    LocalMatch {
                        site_grid: sites[i].grid.clone(),
                        distance_km: sites[i].distance_km,
                    },
                );
            }
            i = i + 1;
        }
        None
    }

    fn show_band(&self, i: usize, band: Band) -> (r: PublicBandSelection)
        requires
            i < 6,
            band == model::all_bands()[i as int],
        ensures
            shows_band(r, self@, i as int),
    {
        proof {
            use_type_invariant(self);
        }
        let ghost all = sites_at(self@, i as int);
        let mut sites: Vec<PublicReceiverSite> = Vec::new();
        let mut near: usize = 0;
        let mut farthest: Option<u32> = None;
        assert(self@.selections.len() == self.selections@.len());
        if self.selections.len() == 6 {
            let chosen = &self.selections[i];
            assert(all == string_map::views(chosen@));
            let mut k: usize = 0;
            assert(all.take(0) =~= Seq::empty());
            while k < chosen.len()
                invariant
                    k <= chosen@.len(),
                    all == string_map::views(chosen@),
                    sites@.len() == k,
                    forall|j: int| 0 <= j < k ==> shows_site(#[trigger] sites@[j], all[j]),
                    near <= k,
                    near == count_near(all.take(k as int)),
                    farthest == radius(all.take(k as int)),
                decreases chosen.len() - k,
            {
                assert(all.take(k + 1).drop_last() =~= all.take(k as int));
                assert(all.take(k + 1).last() == chosen@[k as int]@);
                let distance = chosen[k].distance_km;
                if distance <= 500 {
                    near = near + 1;
                }
                farthest = match farthest {
                    Some(d) => if d > distance {
                        Some(d)
                    } else {
                        Some(distance)
                    },
                    None => Some(distance),
                };
                sites.push(show_site(&chosen[k]));
                k = k + 1;
            }
            assert(all.take(all.len() as int) =~= all);
        }
        let wanted: usize = if self.nearest_sites < 3 {
            self.nearest_sites
        } else {
            3
        };
        let coverage = if near >= wanted {
            "good"
        } else if near > 0 {
            "limited"
        } else if sites.len() == 0 {
            "unavailable"
        } else {
            "distant"
        };
        PublicBandSelection { band, coverage, effective_radius_km: farthest, sites }
    }

    /// The locality for display.
    pub fn public(&self) -> (r: PublicLocality)
        ensures
            r.configured_scope == self@.configured_scope,
            r.effective_scope == self@.effective_scope,
            text::opt_text(r.station_grid) == match self@.station {
                Some(g) => Some(g.value),
                None => None,
            },
            r.catalog_status == self@.catalog_status,
            time::opt_time(r.catalog_updated_at) == self@.catalog_updated_at,
            r.message@ == self@.message,
            r.bands@.len() == 6,
            forall|i: int| 0 <= i < 6 ==> shows_band(#[trigger] r.bands@[i], self@, i),
    {
        let all = Band::all();
        let mut bands: Vec<PublicBandSelection> = Vec::new();
        let mut i: usize = 0;
        while i < 6
            invariant
                i <= 6,
                all@ == model::all_bands(),
                bands@.len() == i,
                forall|j: int| 0 <= j < i ==> shows_band(#[trigger] bands@[j], self@, j),
            decreases 6 - i,
        {
            bands.push(self.show_band(i, all[i]));
            i = i + 1;
        }
        PublicLocality {
            configured_scope: self.configured_scope,
            effective_scope: self.effective_scope,
            station_grid: match &self.station {
                Some(g) => Some(g.value.clone()),
                None => None,
            },
            catalog_status: self.catalog_status,
            catalog_updated_at: self.catalog_updated_at,
            message: self.message.clone(),
            bands,
        }
    }
}

impl Default for RbnLocality {
    /// All skimmers count.
    fn default() -> (r: Self)
        ensures
            configured(None, Some(SkimmerScope::All), 3) == Ok::<LocalityModel, LocalityError>(r@),
    {
        let selections: Vec<Vec<ReceiverSite>> = Vec::new();
        assert(selection_models(selections@) =~= Seq::empty());
        RbnLocality {
            configured_scope: SkimmerScope::All,
            effective_scope: SkimmerScope::All,
            station: None,
            nearest_sites: 3,
            catalog_status: CatalogStatus::NotConfigured,
            catalog_updated_at: None,
            message: text::owned("using the full RBN feed"),
            selections,
        }
    }
}

/// Where all skimmers count, no report is matched to a site nearby.
pub proof fn law_all_scope_matches_nothing(m: LocalityModel, band: Band, spotter: Seq<char>)
    requires
        m.effective_scope == SkimmerScope::All,
    ensures
        site_of_spotter(m, band, spotter) is None,
{
}

/// A locality that nobody asked nearby skimmers of never selects any, whatever directory there is.
pub proof fn law_unconfigured_locality_shows_all(
    requested: Option<SkimmerScope>,
    nearest_sites: nat,
    nodes: Seq<(NodeModel, u32)>,
    at: Instant,
    status: CatalogStatus,
)
    requires
        configured(None, requested, nearest_sites) is Ok,
    ensures
        ({
            let m = configured(None, requested, nearest_sites)->Ok_0;
            installed(m, nodes, at, status) == m && m.effective_scope == SkimmerScope::All
        }),
{
}

// ---------------------------------------------------------------------------------------------
// Grids, sites and coverage
// ---------------------------------------------------------------------------------------------
/// A locator has four, six or eight bytes: two letters from `A` to `R`, two digits, two letters from
/// `A` to `X` and two digits. The first pair that is none of its kind is the fault.
pub proof fn law_what_a_locator_is(b: Seq<u8>)
    ensures
        ({
            let right_length = b.len() == 4 || b.len() == 6 || b.len() == 8;
            let field = 65 <= b[0] <= 82 && 65 <= b[1] <= 82;
            let square = 48 <= b[2] <= 57 && 48 <= b[3] <= 57;
            let subsquare = b.len() < 6 || (65 <= b[4] <= 88 && 65 <= b[5] <= 88);
            let extended = b.len() < 8 || (48 <= b[6] <= 57 && 48 <= b[7] <= 57);
            &&& grid_fault(b) is None <==> right_length && field && square && subsquare && extended
            &&& grid_fault(b) == Some(GridError::Length) <==> !right_length
            &&& grid_fault(b) == Some(GridError::Field) <==> right_length && !field
            &&& grid_fault(b) == Some(GridError::Square) <==> right_length && field && !square
            &&& grid_fault(b) == Some(GridError::Subsquare) <==> right_length && field && square
                && !subsquare
            &&& grid_fault(b) == Some(GridError::ExtendedSquare) <==> right_length && field
                && square && subsquare && !extended
        }),
{
}

/// A letter further in the first pair is twenty degrees east or ten degrees north, a digit further
/// in the second two degrees or one, a letter further in the third a twelfth or a twenty-fourth of a
/// degree, and a digit further in the fourth a tenth of that. A degree has 480 parts.
pub proof fn law_steps_of_a_locator(b: Seq<u8>, i: int, x: u8)
    requires
        b.len() == 4 || b.len() == 6 || b.len() == 8,
        0 <= i < b.len(),
    ensures
        ({
            let moved = b.update(i, x);
            let east = grid_longitude(moved) - grid_longitude(b);
            let north = grid_latitude(moved) - grid_latitude(b);
            let steps = x - b[i];
            &&& i % 2 == 0 ==> north == 0
            &&& i % 2 == 1 ==> east == 0
            &&& i == 0 ==> east == steps * 20 * 480
            &&& i == 1 ==> north == steps * 10 * 480
            &&& i == 2 ==> east == steps * 2 * 480
            &&& i == 3 ==> north == steps * 480
            &&& i == 4 ==> east * 12 == steps * 480
            &&& i == 5 ==> north * 24 == steps * 480
            &&& i == 6 ==> east * 120 == steps * 480
            &&& i == 7 ==> north * 240 == steps * 480
        }),
{
}

/// A locator stands for the middle of its square: a longer one that begins as it does stands for a
/// place no further from there than half the square.
pub proof fn law_locator_is_the_middle_of_its_square(b: Seq<u8>, longer: Seq<u8>)
    requires
        grid_fault(b) is None,
        grid_fault(longer) is None,
        b.len() < longer.len(),
        longer.take(b.len() as int) == b,
    ensures
        ({
            let east = grid_longitude(longer) - grid_longitude(b);
            let north = grid_latitude(longer) - grid_latitude(b);
            &&& b.len() == 4 ==> -480 < east < 480 && -240 < north < 240
            &&& b.len() == 6 ==> -20 < east < 20 && -10 < north < 10
        }),
{
    assert forall|i: int| 0 <= i < b.len() implies #[trigger] longer[i] == b[i] by {
        assert(longer.take(b.len() as int)[i] == b[i]);
    }
}

/// The locator `AA00` stands for the middle of the square at the south pole and the antimeridian.
pub proof fn law_first_locator(b: Seq<u8>)
    requires
        b =~= seq![65u8, 65u8, 48u8, 48u8],
    ensures
        grid_longitude(b) == (-180 + 1) * 480,
        grid_latitude(b) * 2 == (-90 * 2 + 1) * 480,
{
}

/// Blanks around a locator and the case of its letters do not matter.
pub proof fn law_locators_are_tidied(s: Seq<char>, t: Seq<char>)
    requires
        text::upper(text::trimmed(s)) == text::upper(text::trimmed(t)),
    ensures
        grid_reading(s) == grid_reading(t),
        grid_reading(s) matches Ok(g) ==> g.value == text::upper(text::trimmed(s)),
        grid_reading(s) is Ok <==> grid_fault(
            vstd::utf8::encode_utf8(text::upper(text::trimmed(s))),
        ) is None,
{
}

/// The marks behind the callsign of a skimmer, any number of `-#`, then of `#`, then of `-`, are left
/// off, as are blanks around it; what remains is in capitals.
pub proof fn law_marks_are_left_off(s: Seq<char>)
    ensures
        without_marks(s + seq!['-', '#']) == without_marks(s),
        s.len() < 2 || s[s.len() - 2] != '-' || s[s.len() - 1] != '#' ==> without_marks(s) == s,
        text::trimmed(s) == s && s.len() > 0 && s.last() != '#' && s.last() != '-' ==> spotter_call(
            s,
        ) == text::upper(s),
        text::trimmed(s + seq!['-', '#']) == s + seq!['-', '#'] && text::trimmed(s) == s
            ==> spotter_call(s + seq!['-', '#']) == spotter_call(s),
{
    let m = s + seq!['-', '#'];
    assert(m.take(m.len() - 2) =~= s);
    if s.len() > 0 && s.last() != '#' && s.last() != '-' {
        text::law_stripped(s, CharClass::Is('#'));
        let a = text::strip_end(s, CharClass::Is('#'));
        if a.len() < s.len() {
            assert(CharClass::Is('#').has(s[s.len() - 1]));
        }
        assert(a =~= s);
        text::law_stripped(s, CharClass::Is('-'));
        let b = text::strip_end(s, CharClass::Is('-'));
        if b.len() < s.len() {
            assert(CharClass::Is('-').has(s[s.len() - 1]));
        }
        assert(b =~= s);
    }
}

/// A skimmer hears a band where an entry of its directory names Morse code, in whatever case, and
/// the band.
pub proof fn law_what_a_skimmer_hears(entry: JsonModel, band: Band)
    ensures
        entry_band(entry) == Some(band) <==> {
            &&& entry matches JsonModel::Array(fields) && fields.len() >= 2
            &&& entry->Array_0[0] matches JsonModel::Text(mode) && text::same_letters(
                mode,
                seq!['C', 'W'],
            )
            &&& entry->Array_0[1] matches JsonModel::Text(name) && model::band_named(name) == Some(
                band,
            )
        },
{
    reveal_strlit("CW");
    assert("CW"@ =~= seq!['C', 'W']);
}

/// The node hears the band, and its grid is the locator `g`.
pub open spec fn belongs_to(node: NodeModel, band: Band, g: Seq<char>) -> bool {
    hears(node, band) && (grid_reading(node.grid) matches Ok(m) && m.value == g)
}

proof fn lemma_sites(nodes: Seq<(NodeModel, u32)>, band: Band, g: Seq<char>, call: Seq<char>)
    ensures
        string_map::ordered(sites_for(nodes, band)),
        string_map::has_key(sites_for(nodes, band), g) <==> exists|i: int|
            #![trigger nodes[i]]
            0 <= i < nodes.len() && belongs_to(nodes[i].0, band, g),
        string_map::lookup(sites_for(nodes, band), g) matches Some(site) ==> {
            &&& site.grid == g
            &&& string_map::ordered(site.nodes)
            &&& string_map::has_key(site.nodes, call) <==> exists|i: int|
                #![trigger nodes[i]]
                0 <= i < nodes.len() && belongs_to(nodes[i].0, band, g) && spotter_call(
                    nodes[i].0.call,
                ) == call
            &&& exists|f: int|
                #![trigger nodes[f]]
                0 <= f < nodes.len() && belongs_to(nodes[f].0, band, g) && site.distance_km
                    == nodes[f].1 && forall|i: int|
                    0 <= i < f ==> !belongs_to((#[trigger] nodes[i]).0, band, g)
        },
    decreases nodes.len(),
{
    if nodes.len() > 0 {
        let front = nodes.drop_last();
        let before = sites_for(front, band);
        let last = nodes.last();
        let n = front.len() as int;
        let now = sites_for(nodes, band);
        lemma_sites(front, band, g, call);
        assert forall|i: int| 0 <= i < n implies #[trigger] front[i] == nodes[i] by {}
        assert forall|i: int| 0 <= i < n implies #[trigger] nodes[i] == front[i] by {}
        assert(nodes[n] == last);
        if exists|i: int|
            #![trigger front[i]]
            0 <= i < n && belongs_to(front[i].0, band, g) {
            let i = choose|i: int|
                #![trigger front[i]]
                0 <= i < n && belongs_to(front[i].0, band, g);
            assert(belongs_to(nodes[i].0, band, g));
        }
        if string_map::lookup(before, g) is Some {
            let site = string_map::lookup(before, g)->0;
            let f = choose|f: int|
                #![trigger front[f]]
                0 <= f < n && belongs_to(front[f].0, band, g) && site.distance_km == front[f].1
                    && forall|i: int|
                    0 <= i < f ==> !belongs_to((#[trigger] front[i]).0, band, g);
            assert(nodes[f] == front[f]);
            assert forall|i: int| 0 <= i < f implies !belongs_to(
                (#[trigger] nodes[i]).0,
                band,
                g,
            ) by {
                assert(nodes[i] == front[i]);
            }
            if string_map::has_key(site.nodes, call) {
                let i = choose|i: int|
                    #![trigger front[i]]
                    0 <= i < n && belongs_to(front[i].0, band, g) && spotter_call(front[i].0.call)
                        == call;
                assert(nodes[i] == front[i]);
            }
        }
        if grid_reading(last.0.grid) is Ok && hears(last.0, band) {
            let h = grid_reading(last.0.grid)->Ok_0.value;
            let c = spotter_call(last.0.call);
            assert(belongs_to(last.0, band, h));
            let known = string_map::lookup(before, h);
            let none = Seq::<(Seq<char>, ())>::empty();
            let site = match known {
                Some(k) => SiteModel { nodes: string_map::inserted(k.nodes, c, ()), ..k },
                None => SiteModel {
                    grid: h,
                    distance_km: last.1,
                    nodes: string_map::inserted(none, c, ()),
                },
            };
            assert(now == string_map::inserted(before, h, site));
            string_map::lemma_inserted(before, h, site);
            lemma_keys_put_in(before, h, site, g);
            if h == g {
                if known is Some {
                    string_map::lemma_inserted(known->0.nodes, c, ());
                    lemma_keys_put_in(known->0.nodes, c, (), call);
                } else {
                    string_map::lemma_inserted(none, c, ());
                    lemma_keys_put_in(none, c, (), call);
                    assert(!string_map::has_key(none, call));
                    assert forall|i: int| 0 <= i < n implies !belongs_to(
                        (#[trigger] nodes[i]).0,
                        band,
                        g,
                    ) by {
                        assert(nodes[i] == front[i]);
                    }
                }
                assert(string_map::lookup(now, g) == Some(site));
            } else {
                assert(string_map::lookup(now, g) == string_map::lookup(before, g));
            }
        } else {
            assert(now == before);
        }
    } else {
        assert(!string_map::has_key(sites_for(nodes, band), g));
    }
}

proof fn lemma_keys_put_in<T>(m: Seq<(Seq<char>, T)>, k: Seq<char>, v: T, other: Seq<char>)
    requires
        string_map::ordered(m),
    ensures
        string_map::has_key(string_map::inserted(m, k, v), other) <==> other == k
            || string_map::has_key(m, other),
{
    string_map::lemma_inserted(m, k, v);
    let r = string_map::inserted(m, k, v);
    assert(string_map::lookup(r, k) == Some(v));
    if other != k {
        assert(string_map::lookup(r, other) == string_map::lookup(m, other));
    }
}

/// There is a site for a locator where a node belongs to it; it has the callsigns of all nodes that
/// do, without their marks, and no others, and is as far away as the first of them.
pub proof fn law_sites_have_their_nodes(
    nodes: Seq<(NodeModel, u32)>,
    band: Band,
    g: Seq<char>,
    call: Seq<char>,
)
    ensures
        ({
            let site = string_map::lookup(sites_for(nodes, band), g);
            &&& site is Some <==> exists|i: int|
                #![trigger nodes[i]]
                0 <= i < nodes.len() && belongs_to(nodes[i].0, band, g)
            &&& site is Some ==> {
                &&& site->0.grid == g
                &&& string_map::has_key(site->0.nodes, call) <==> exists|i: int|
                    #![trigger nodes[i]]
                    0 <= i < nodes.len() && belongs_to(nodes[i].0, band, g) && spotter_call(
                        nodes[i].0.call,
                    ) == call
                &&& exists|f: int|
                    #![trigger nodes[f]]
                    0 <= f < nodes.len() && belongs_to(nodes[f].0, band, g) && site->0.distance_km
                        == nodes[f].1 && forall|i: int|
                        0 <= i < f ==> !belongs_to((#[trigger] nodes[i]).0, band, g)
            }
        }),
{
    lemma_sites(nodes, band, g, call);
}

/// The sites that are chosen stand in order, the nearest first and of equally near ones that of the
/// first locator; as many are chosen as there are, up to the number asked for.
pub proof fn law_chosen_sites_are_in_order(
    nodes: Seq<(NodeModel, u32)>,
    band: Band,
    count: int,
    i: int,
    j: int,
)
    requires
        0 <= i < j < nearest(nodes, band, count).len(),
        count >= 0,
    ensures
        ({
            let chosen = nearest(nodes, band, count);
            let all = sites_for(nodes, band);
            &&& chosen[i].distance_km <= chosen[j].distance_km
            &&& chosen[i].distance_km == chosen[j].distance_km ==> !string_map::before(
                chosen[j].grid,
                chosen[i].grid,
            )
            &&& chosen.len() == all.len() || (chosen.len() == count && count < all.len())
            &&& string_map::values(all).contains(chosen[i])
        }),
{
    let sites = string_map::values(sites_for(nodes, band));
    let w = with_site_ranks(sites);
    let best = sort::sorted(w);
    let chosen = nearest(nodes, band, count);
    sort::lemma_sorted(w);
    assert(best.len() == w.len()) by {
        broadcast use vstd::seq_lib::group_to_multiset_ensures;

        assert(best.to_multiset().len() == w.to_multiset().len());
    }
    sort::lemma_sorted_member(w, i);
    sort::lemma_sorted_member(w, j);
    let a = choose|a: int| 0 <= a < w.len() && #[trigger] w[a] == best[i];
    assert(sites[a] == chosen[i]);
    assert(chosen[j] == best[j].1);
    let p = best[i].0;
    let q = best[j].0;
    assert(p == site_rank(chosen[i]));
    assert(q == site_rank(chosen[j]));
    assert(!sort::below(q, p));
    assert(p[0] == PartModel::Number(chosen[i].distance_km as int));
    assert(q[0] == PartModel::Number(chosen[j].distance_km as int));
    assert(p[1] == PartModel::Text(chosen[i].grid));
    assert(q[1] == PartModel::Text(chosen[j].grid));
    sort::lemma_first_difference(p, q, 0);
    if p[0] == q[0] {
        sort::lemma_first_difference(p, q, 1);
    }
}

proof fn lemma_site_with(sites: Seq<SiteModel>, call: Seq<char>, k: int)
    ensures
        0 <= k < sites.len() && string_map::has_key(sites[k].nodes, call) && (forall|i: int|
            0 <= i < k ==> !string_map::has_key((#[trigger] sites[i]).nodes, call)) ==> site_with(
            sites,
            call,
        ) == Some(sites[k]),
        (forall|i: int|
            0 <= i < sites.len() ==> !string_map::has_key((#[trigger] sites[i]).nodes, call))
            ==> site_with(sites, call) is None,
    decreases sites.len(),
{
    if sites.len() > 0 {
        let rest = sites.skip(1);
        lemma_site_with(rest, call, k - 1);
        assert forall|i: int| 0 <= i < rest.len() implies #[trigger] rest[i] == sites[i + 1] by {}
        if 0 < k < sites.len() {
            assert(rest[k - 1] == sites[k]);
            if string_map::has_key(sites[0].nodes, call) {
                assert(!(forall|i: int|
                    0 <= i < k ==> !string_map::has_key((#[trigger] sites[i]).nodes, call)));
            }
        }
    }
}

/// While nearby receivers count, a skimmer is found at the first site chosen for the band that has
/// its callsign, marks apart, and nowhere where none has it.
pub proof fn law_skimmers_are_found(m: LocalityModel, band: Band, spotter: Seq<char>, k: int)
    requires
        m.effective_scope == SkimmerScope::Nearby,
        m.selections.len() == 6,
    ensures
        ({
            let sites = m.selections[band.place()];
            let call = spotter_call(spotter);
            let found = site_of_spotter(m, band, spotter);
            &&& 0 <= k < sites.len() && string_map::has_key(sites[k].nodes, call) && (forall|i: int|
                0 <= i < k ==> !string_map::has_key((#[trigger] sites[i]).nodes, call)) ==> found
                == Some(sites[k])
            &&& (forall|i: int|
                0 <= i < sites.len() ==> !string_map::has_key((#[trigger] sites[i]).nodes, call))
                ==> found is None
        }),
{
    lemma_site_with(m.selections[band.place()], spotter_call(spotter), k);
}

/// A site counts as near up to 500 kilometers; the radius is that of the farthest.
pub proof fn law_near_sites(sites: Seq<SiteModel>, site: SiteModel, i: int)
    ensures
        count_near(Seq::<SiteModel>::empty()) == 0,
        site.distance_km <= 500 ==> count_near(sites.push(site)) == count_near(sites) + 1,
        site.distance_km > 500 ==> count_near(sites.push(site)) == count_near(sites),
        radius(sites) is None <==> sites.len() == 0,
        0 <= i < sites.len() ==> sites[i].distance_km <= radius(sites)->0,
        sites.len() > 0 ==> exists|k: int|
            0 <= k < sites.len() && radius(sites) == Some((#[trigger] sites[k]).distance_km),
    decreases sites.len(),
{
    assert(sites.push(site).drop_last() =~= sites);
    if sites.len() > 0 {
        let front = sites.drop_last();
        law_near_sites(front, site, i);
        if 0 <= i < front.len() {
            assert(front[i] == sites[i]);
        }
        if front.len() > 0 {
            let k = choose|k: int|
                0 <= k < front.len() && radius(front) == Some((#[trigger] front[k]).distance_km);
            assert(sites[k] == front[k]);
        }
        assert(sites[sites.len() - 1] == sites.last());
    }
}

/// Coverage is good where three sites are near, or as many as were asked for if that is fewer;
/// limited where any is; distant where there are sites but none near; and unavailable without sites.
pub proof fn law_coverage(sites: Seq<SiteModel>, asked: nat)
    requires
        asked > 0,
    ensures
        count_near(sites) >= 3 || count_near(sites) >= asked ==> coverage(sites, asked) == "good"@,
        0 < count_near(sites) < 3 && count_near(sites) < asked ==> coverage(sites, asked)
            == "limited"@,
        count_near(sites) == 0 && sites.len() > 0 ==> coverage(sites, asked) == "distant"@,
        sites.len() == 0 ==> coverage(sites, asked) == "unavailable"@,
{
}

/// A locality can be configured where sites are asked for, the grid, if any, is a locator, and there
/// is one if nearby receivers are asked for. With a grid and no wish nearby receivers are meant;
/// until the directory is there all count.
pub proof fn law_configured_locality(
    grid: Option<Seq<char>>,
    requested: Option<SkimmerScope>,
    asked: nat,
)
    ensures
        ({
            let r = configured(grid, requested, asked);
            let bad_grid = grid matches Some(g) && grid_reading(g) is Err;
            let nearby = requested == Some(SkimmerScope::Nearby) || (requested is None && grid
                is Some);
            &&& asked == 0 ==> r == Err::<LocalityModel, LocalityError>(LocalityError::NoSites)
            &&& asked > 0 && bad_grid ==> r == Err::<LocalityModel, LocalityError>(
                LocalityError::Grid(grid_reading(grid->0)->Err_0),
            )
            &&& asked > 0 && grid is None && nearby ==> r == Err::<LocalityModel, LocalityError>(
                LocalityError::ScopeNeedsGrid,
            )
            &&& asked > 0 && !bad_grid && (grid is Some || !nearby) ==> {
                &&& r is Ok
                &&& nearby ==> r->Ok_0.configured_scope == SkimmerScope::Nearby
                    && r->Ok_0.catalog_status == CatalogStatus::Loading
                &&& !nearby ==> r->Ok_0.configured_scope == SkimmerScope::All
                    && r->Ok_0.catalog_status == CatalogStatus::NotConfigured
                &&& r->Ok_0.effective_scope == SkimmerScope::All
                &&& r->Ok_0.nearest_sites == asked
                &&& r->Ok_0.selections.len() == 0
                &&& r->Ok_0.catalog_updated_at is None
                &&& grid is None ==> r->Ok_0.station is None
                &&& grid matches Some(g) ==> grid_reading(g) == Ok::<GridModel, GridError>(
                    r->Ok_0.station->0,
                ) && r->Ok_0.station is Some
            }
        }),
{
}

/// Once the directory is there, nearby receivers count for a station with a grid, and each band has
/// the sites nearest to it; without a grid nothing changes.
pub proof fn law_installed_directory(
    m: LocalityModel,
    nodes: Seq<(NodeModel, u32)>,
    at: Instant,
    status: CatalogStatus,
    band: Band,
)
    ensures
        ({
            let after = installed(m, nodes, at, status);
            &&& m.station is None ==> after == m
            &&& m.station is Some ==> {
                &&& after.effective_scope == SkimmerScope::Nearby
                &&& after.catalog_status == status
                &&& after.catalog_updated_at == Some(at)
                &&& after.selections.len() == 6
                &&& after.selections[band.place()] == nearest(nodes, band, m.nearest_sites as int)
                &&& after.station == m.station
                &&& after.configured_scope == m.configured_scope
                &&& after.nearest_sites == m.nearest_sites
            }
        }),
{
    assert(model::all_bands()[band.place()] == band);
}

/// Without the feed, or without a directory that was ever there, all receivers count; a directory
/// that was there goes on counting, as one out of date. The rest stays.
pub proof fn law_what_remains_without_a_directory(m: LocalityModel, why: Seq<char>)
    ensures
        ({
            let off = feed_disabled(m);
            let lost = unavailable(m, why);
            &&& m.configured_scope == SkimmerScope::Nearby ==> off.effective_scope
                == SkimmerScope::All && off.catalog_status == CatalogStatus::NotConfigured
            &&& m.configured_scope != SkimmerScope::Nearby ==> off == m
            &&& off.selections == m.selections && off.station == m.station && off.nearest_sites
                == m.nearest_sites && off.configured_scope == m.configured_scope
            &&& m.selections.len() == 0 ==> lost.effective_scope == SkimmerScope::All
                && lost.catalog_status == CatalogStatus::Unavailable
            &&& m.selections.len() > 0 ==> lost.effective_scope == m.effective_scope
                && lost.catalog_status == CatalogStatus::Stale
            &&& lost.selections == m.selections && lost.station == m.station && lost.nearest_sites
                == m.nearest_sites && lost.configured_scope == m.configured_scope
            &&& lost.catalog_updated_at == m.catalog_updated_at
            &&& exists|n: int| 0 <= n && #[trigger] lost.message.skip(n) == why
        }),
{
    let lost = unavailable(m, why);
    let n = lost.message.len() - why.len();
    assert(lost.message.skip(n) =~= why);
}

/// Of some bands those are kept, in order, on which the node hears Morse code; of some nodes those
/// with a callsign that is not blank.
pub proof fn law_bands_and_nodes_are_kept_in_order(
    node: NodeModel,
    bands: Seq<Band>,
    band: Band,
    nodes: Seq<NodeModel>,
)
    ensures
        hears(node, band) ==> bands_heard(node, bands.push(band)) == bands_heard(node, bands).push(
            band,
        ),
        !hears(node, band) ==> bands_heard(node, bands.push(band)) == bands_heard(node, bands),
        bands_heard(node, Seq::empty()).len() == 0,
        text::trimmed(node.call).len() > 0 ==> with_calls(nodes.push(node)) == with_calls(
            nodes,
        ).push(node),
        text::trimmed(node.call).len() == 0 ==> with_calls(nodes.push(node)) == with_calls(nodes),
        with_calls(Seq::empty()).len() == 0,
        CATALOG_MAX_AGE_HOURS == 24,
{
    assert(bands.push(band).drop_last() =~= bands);
    assert(nodes.push(node).drop_last() =~= nodes);
}

/// What is shown of a band is that band, how well its sites cover it, how far they reach, and each
/// of them, in order, with its locator, its distance and the callsigns of its nodes.
pub proof fn law_sites_are_shown(p: PublicBandSelection, m: LocalityModel, i: int, j: int)
    requires
        shows_band(p, m, i),
    ensures
        p.band == model::all_bands()[i],
        m.selections.len() == 6 ==> p.sites@.len() == m.selections[i].len(),
        m.selections.len() != 6 ==> p.sites@.len() == 0,
        m.selections.len() == 6 ==> p.coverage@ == coverage(m.selections[i], m.nearest_sites)
            && p.effective_radius_km == radius(m.selections[i]),
        m.selections.len() == 6 && 0 <= j < m.selections[i].len() ==> {
            let site = m.selections[i][j];
            &&& p.sites@[j].grid@ == site.grid
            &&& p.sites@[j].distance_km == site.distance_km
            &&& p.sites@[j].nodes@.len() == site.nodes.len()
            &&& forall|k: int|
                0 <= k < site.nodes.len() ==> (#[trigger] p.sites@[j].nodes@[k])@ == site.nodes[k].0
        },
{
    if m.selections.len() == 6 && 0 <= j < m.selections[i].len() {
        let site = m.selections[i][j];
        assert(shows_site(p.sites@[j], site));
        let shown = text::texts(p.sites@[j].nodes@);
        assert(shown == string_map::keys(site.nodes));
        assert(shown.len() == p.sites@[j].nodes@.len());
        assert(string_map::keys(site.nodes).len() == site.nodes.len());
        assert forall|k: int| 0 <= k < site.nodes.len() implies (#[trigger] p.sites@[j].nodes@[k])@
            == site.nodes[k].0 by {
            assert(shown[k] == string_map::keys(site.nodes)[k]);
        }
    }
}

} // verus!
