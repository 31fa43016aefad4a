//! The multiplier matrix of the dashboard: every row of the checklist on every band.
use vstd::prelude::*;

use crate::model;
use crate::model::Band;
use crate::model::Qso;
use crate::model::QsoModel;
use crate::model::Spot;
use crate::model::SpotClass;
use crate::model::SpotModel;
use crate::naqp;
use crate::naqp::MultiplierRow;
use crate::naqp::RowModel;
use crate::naqp_catalog;
use crate::string_map;
use crate::text;
use crate::text::CharClass;
use crate::time;

verus! {

/// How a row stands on a band.
#[derive(Debug, Clone, Copy, PartialEq, Eq, Structural)]
pub enum CellState {
    Needed,
    /// A station was spotted that may send it.
    PossibleSpotted,
    /// A station was spotted that sent it on another band.
    VerifiedSpotted,
    /// A contact may have brought it, but its exchange is incomplete.
    Unresolved,
    Worked,
}

/// A row of the matrix: its identifier and how it stands on each band, in the order of the
/// contest log.
#[derive(Debug)]
pub struct MatrixRow {
    pub id: &'static str,
    pub cells: Vec<CellState>,
}

impl View for MatrixRow {
    type V = (Seq<char>, Seq<CellState>);

    open spec fn view(&self) -> (Seq<char>, Seq<CellState>) {
        (self.id@, self.cells@)
    }
}

/// The code that was copied from the station, if it is one of the checklist.
pub open spec fn code_copied(q: QsoModel) -> Option<Seq<char>> {
    match q.location {
        None => None,
        Some(location) => match text::last_word(location) {
            None => None,
            Some(word) => naqp::multiplier_code(word),
        },
    }
}

/// The contact may mean the row: its code is that of the row, and it means no other.
pub open spec fn may_mean(q: QsoModel, row: RowModel) -> bool {
    code_copied(q) == Some(row.code) && (naqp::row_id(q) is Some ==> naqp::row_id(q) == Some(
        row.id,
    ))
}

/// The contact is one of the contest on `band` whose exchange is incomplete, and may mean the row.
pub open spec fn leaves_open(q: QsoModel, row: RowModel, band: Band) -> bool {
    naqp::eligible(q) && !naqp::has_exchange(q) && q.band == Some(band) && may_mean(q, row)
}

/// The row that a spot suggests; what is only inferred has a question mark behind it.
pub open spec fn row_suggested(s: SpotModel) -> Option<Seq<char>> {
    match s.predicted_multiplier {
        Some(m) => Some(text::strip_end(m, CharClass::Is('?'))),
        None => None,
    }
}

/// A station on `band` suggests the row.
pub open spec fn spotted(
    spots: Seq<SpotModel>,
    row: RowModel,
    band: Band,
    class: SpotClass,
) -> bool {
    exists|i: int|
        #![trigger spots[i]]
        0 <= i < spots.len() && spots[i].band == band && spots[i].class == class && row_suggested(
            spots[i],
        ) == Some(row.id)
}

/// A contact on `band` leaves the row open.
pub open spec fn left_open(contacts: Seq<QsoModel>, row: RowModel, band: Band) -> bool {
    exists|i: int|
        #![trigger contacts[i]]
        0 <= i < contacts.len() && leaves_open(contacts[i], row, band)
}

/// How a row stands on a band.
pub open spec fn cell(
    row: RowModel,
    contacts: Seq<QsoModel>,
    spots: Seq<SpotModel>,
    band: Band,
) -> CellState {
    if row.worked_bands.contains(band) {
        CellState::Worked
    } else if left_open(contacts, row, band) {
        CellState::Unresolved
    } else if spotted(spots, row, band, SpotClass::VerifiedMultiplier) {
        CellState::VerifiedSpotted
    } else if spotted(spots, row, band, SpotClass::PredictedMultiplier) {
        CellState::PossibleSpotted
    } else {
        CellState::Needed
    }
}

pub open spec fn matrix_row(
    row: RowModel,
    contacts: Seq<QsoModel>,
    spots: Seq<SpotModel>,
) -> (Seq<char>, Seq<CellState>) {
    (row.id, Seq::new(6, |b: int| cell(row, contacts, spots, model::all_bands()[b])))
}

/// The matrix of all rows.
pub open spec fn matrix_of(
    rows: Seq<RowModel>,
    contacts: Seq<QsoModel>,
    spots: Seq<SpotModel>,
) -> Seq<(Seq<char>, Seq<CellState>)> {
    Seq::new(rows.len(), |i: int| matrix_row(rows[i], contacts, spots))
}

fn has_left_open(q: &Qso, row: &MultiplierRow, band: Band) -> (r: bool)
    ensures
        r == leaves_open(q@, row@, band),
{
    let here = match q.band {
        Some(b) => b == band,
        None => false,
    };
    if q.deleted || !here || !text::same_ignoring_case(q.mode.as_str(), "CW")
        || !time::within_contest(q.timestamp) {
        return false;
    }
    let multiplier = naqp::find_multiplier(q);
    if naqp::is_named(q) && (multiplier.is_some() || naqp::is_dx(q)) {
        return false;
    }
    let coded = match naqp::last_location_word(q) {
        None => false,
        Some(word) => match naqp::normalize_multiplier(word.as_str()) {
            None => false,
            Some(code) => text::same(code.as_str(), row.code),
        },
    };
    if !coded {
        return false;
    }
    match multiplier {
        Some(m) => text::same(m.id, row.id),
        None => true,
    }
}

fn is_left_open(contacts: &Vec<Qso>, row: &MultiplierRow, band: Band) -> (r: bool)
    ensures
        r == left_open(string_map::views(contacts@), row@, band),
{
    let ghost all = string_map::views(contacts@);
    let mut i: usize = 0;
    while i < contacts.len()
        invariant
            i <= contacts@.len(),
            all == string_map::views(contacts@),
            forall|j: int| #![trigger all[j]] 0 <= j < i ==> !leaves_open(all[j], row@, band),
        decreases contacts.len() - i,
    {
        assert(all[i as int] == contacts@[i as int]@);
        if has_left_open(&contacts[i], row, band) {
            return true;
        }
        i = i + 1;
    }
    false
}

fn is_spotted(spots: &Vec<Spot>, row: &MultiplierRow, band: Band, class: SpotClass) -> (r: bool)
    ensures
        r == spotted(string_map::views(spots@), row@, band, class),
{
    let ghost all = string_map::views(spots@);
    let mut i: usize = 0;
    while i < spots.len()
        invariant
            i <= spots@.len(),
            all == string_map::views(spots@),
            forall|j: int|
                #![trigger all[j]]
                0 <= j < i ==> !(all[j].band == band && all[j].class == class && row_suggested(
                    all[j],
                ) == Some(row@.id)),
        decreases spots.len() - i,
    {
        assert(all[i as int] == spots@[i as int]@);
        let s = &spots[i];
        if s.band == band && s.class == class {
            if let Some(m) = &s.predicted_multiplier {
                let suggested = text::strip_right(m.as_str(), CharClass::Is('?'));
                if text::same(suggested.as_str(), row.id) {
                    return true;
                }
            }
        }
        i = i + 1;
    }
    false
}

fn is_worked(row: &MultiplierRow, band: Band) -> (r: bool)
    ensures
        r == row@.worked_bands.contains(band),
{
    let mut i: usize = 0;
    while i < row.worked_bands.len()
        invariant
            i <= row.worked_bands@.len(),
            forall|j: int| 0 <= j < i ==> #[trigger] row.worked_bands@[j] != band,
        decreases row.worked_bands.len() - i,
    {
        if row.worked_bands[i] == band {
            assert(row@.worked_bands[i as int] == band);
            return true;
        }
        i = i + 1;
    }
    false
}

fn find_cell(row: &MultiplierRow, contacts: &Vec<Qso>, spots: &Vec<Spot>, band: Band) -> (r:
    CellState)
    ensures
        r == cell(row@, string_map::views(contacts@), string_map::views(spots@), band),
{
    if is_worked(row, band) {
        CellState::Worked
    } else if is_left_open(contacts, row, band) {
        CellState::Unresolved
    } else if is_spotted(spots, row, band, SpotClass::VerifiedMultiplier) {
        CellState::VerifiedSpotted
    } else if is_spotted(spots, row, band, SpotClass::PredictedMultiplier) {
        CellState::PossibleSpotted
    } else {
        CellState::Needed
    }
}

fn build_row(row: &MultiplierRow, contacts: &Vec<Qso>, spots: &Vec<Spot>) -> (r: MatrixRow)
    ensures
        r@ == matrix_row(row@, string_map::views(contacts@), string_map::views(spots@)),
{
    let bands = Band::all();
    let mut cells: Vec<CellState> = Vec::new();
    let mut b: usize = 0;
    while b < bands.len()
        invariant
            b <= bands@.len(),
            bands@ == model::all_bands(),
            cells@.len() == b,
            forall|j: int|
                0 <= j < b ==> #[trigger] cells@[j] == cell(
                    row@,
                    string_map::views(contacts@),
                    string_map::views(spots@),
                    model::all_bands()[j],
                ),
        decreases bands.len() - b,
    {
        cells.push(find_cell(row, contacts, spots, bands[b]));
        b = b + 1;
    }
    let out = MatrixRow { id: row.id, cells };
    assert(out@.1 =~= matrix_row(
        row@,
        string_map::views(contacts@),
        string_map::views(spots@),
    ).1);
    out
}

/// Builds the matrix of all rows.
pub fn build(rows: &Vec<MultiplierRow>, contacts: &Vec<Qso>, spots: &Vec<Spot>) -> (r: Vec<
    MatrixRow,
>)
    ensures
        string_map::views(r@) == matrix_of(
            string_map::views(rows@),
            string_map::views(contacts@),
            string_map::views(spots@),
        ),
{
    let ghost all = string_map::views(rows@);
    let ghost log = string_map::views(contacts@);
    let ghost heard = string_map::views(spots@);
    let mut out: Vec<MatrixRow> = Vec::new();
    let mut i: usize = 0;
    while i < rows.len()
        invariant
            i <= rows@.len(),
            all == string_map::views(rows@),
            log == string_map::views(contacts@),
            heard == string_map::views(spots@),
            out@.len() == i,
            forall|j: int| 0 <= j < i ==> (#[trigger] out@[j])@ == matrix_row(all[j], log, heard),
        decreases rows.len() - i,
    {
        assert(all[i as int] == rows@[i as int]@);
        out.push(build_row(&rows[i], contacts, spots));
        i = i + 1;
    }
    assert(string_map::views(out@) =~= matrix_of(all, log, heard));
    out
}

/// The matrix is complete: it has every row of the checklist, in its order, on all bands.
pub proof fn law_matrix_is_complete(q: Seq<QsoModel>, spots: Seq<SpotModel>, i: int)
    requires
        0 <= i < 111,
    ensures
        ({
            let m = matrix_of(naqp::score_of(q).multiplier_rows, q, spots);
            &&& m.len() == 111
            &&& m[i].0 == naqp_catalog::catalog()[i].id@
            &&& m[i].1.len() == 6
        }),
{
    naqp_catalog::lemma_catalog_len();
}

/// Only contacts work a row: which cells are worked, or left open by a contact, does not depend on
/// any spot.
pub proof fn law_spots_work_no_row(
    row: RowModel,
    contacts: Seq<QsoModel>,
    spots: Seq<SpotModel>,
    others: Seq<SpotModel>,
    band: Band,
)
    ensures
        cell(row, contacts, spots, band) == CellState::Worked <==> row.worked_bands.contains(band),
        cell(row, contacts, spots, band) == CellState::Worked <==> cell(row, contacts, others, band)
            == CellState::Worked,
        cell(row, contacts, spots, band) == CellState::Unresolved <==> cell(
            row,
            contacts,
            others,
            band,
        ) == CellState::Unresolved,
{
}

/// A contact of the contest on `band` has the code of the row but no full exchange, and means no
/// other row.
pub open spec fn may_have_brought(q: QsoModel, row: RowModel, band: Band) -> bool {
    &&& naqp::of_the_contest(q) && q.band == Some(band)
    &&& !naqp::with_exchange(q)
    &&& q.location matches Some(l) && text::words(l).len() > 0 && naqp::multiplier_code(
        text::words(l).last(),
    ) == Some(row.code)
    &&& naqp::row_id(q) is None || naqp::row_id(q) == Some(row.id)
}

/// A spot on `band` of a class is taken for the row; question marks behind it do not matter.
pub open spec fn suggests(s: SpotModel, row: RowModel, band: Band, class: SpotClass) -> bool {
    &&& s.band == band && s.class == class
    &&& s.predicted_multiplier matches Some(m) && text::starts_with(m, row.id) && (forall|i: int|
        row.id.len() <= i < m.len() ==> #[trigger] m[i] == '?') && (row.id.len() == 0
        || row.id.last() != '?')
}

/// A cell shows the first of these that holds: the row is worked on the band; a contact may have
/// brought it; a station that sent it is spotted; a station that may send it is; or it is needed.
pub proof fn law_cells(
    row: RowModel,
    contacts: Seq<QsoModel>,
    spots: Seq<SpotModel>,
    band: Band,
)
    ensures
        ({
            let c = cell(row, contacts, spots, band);
            let worked = row.worked_bands.contains(band);
            let open = exists|i: int|
                #![trigger contacts[i]]
                0 <= i < contacts.len() && may_have_brought(contacts[i], row, band);
            let verified = exists|i: int|
                #![trigger spots[i]]
                0 <= i < spots.len() && suggests(
                    spots[i],
                    row,
                    band,
                    SpotClass::VerifiedMultiplier,
                );
            let predicted = exists|i: int|
                #![trigger spots[i]]
                0 <= i < spots.len() && suggests(
                    spots[i],
                    row,
                    band,
                    SpotClass::PredictedMultiplier,
                );
            &&& c == CellState::Worked <==> worked
            &&& c == CellState::Unresolved <==> !worked && open
            &&& c == CellState::VerifiedSpotted <==> !worked && !open && verified
            &&& c == CellState::PossibleSpotted <==> !worked && !open && !verified && predicted
            &&& c == CellState::Needed <==> !worked && !open && !verified && !predicted
        }),
{
    assert forall|q: QsoModel| #[trigger] leaves_open(q, row, band) == may_have_brought(
        q,
        row,
        band,
    ) by {
        naqp::lemma_conditions(q);
    }
    if left_open(contacts, row, band) {
        let i = choose|i: int|
            #![trigger contacts[i]]
            0 <= i < contacts.len() && leaves_open(contacts[i], row, band);
        assert(may_have_brought(contacts[i], row, band));
    }
    if exists|i: int|
        #![trigger contacts[i]]
        0 <= i < contacts.len() && may_have_brought(contacts[i], row, band) {
        let i = choose|i: int|
            #![trigger contacts[i]]
            0 <= i < contacts.len() && may_have_brought(contacts[i], row, band);
        assert(leaves_open(contacts[i], row, band));
    }
    lemma_spotted(spots, row, band, SpotClass::VerifiedMultiplier);
    lemma_spotted(spots, row, band, SpotClass::PredictedMultiplier);
}

proof fn lemma_suggests(s: SpotModel, row: RowModel, band: Band, class: SpotClass)
    ensures
        suggests(s, row, band, class) <==> s.band == band && s.class == class && row_suggested(s)
            == Some(row.id),
{
    if let Some(m) = s.predicted_multiplier {
        text::law_stripped(m, CharClass::Is('?'));
        let n = text::strip_end(m, CharClass::Is('?'));
        if n == row.id {
            assert(m.take(n.len() as int) == row.id);
            assert forall|i: int| row.id.len() <= i < m.len() implies #[trigger] m[i] == '?' by {
                assert(CharClass::Is('?').has(m[i]));
            }
            if row.id.len() > 0 {
                assert(row.id.last() == m[n.len() - 1]);
            }
        }
        if suggests(s, row, band, class) {
            let k = row.id.len() as int;
            let b = n.len() as int;
            if b > k {
                assert(m[b - 1] == '?');
            }
            if b < k {
                assert(CharClass::Is('?').has(m[k - 1]));
                assert(m.take(k)[k - 1] == row.id[k - 1]);
            }
            assert(n =~= row.id);
        }
    }
}

proof fn lemma_spotted(spots: Seq<SpotModel>, row: RowModel, band: Band, class: SpotClass)
    ensures
        spotted(spots, row, band, class) <==> exists|i: int|
            #![trigger spots[i]]
            0 <= i < spots.len() && suggests(spots[i], row, band, class),
{
    if spotted(spots, row, band, class) {
        let i = choose|i: int|
            #![trigger spots[i]]
            0 <= i < spots.len() && spots[i].band == band && spots[i].class == class
                && row_suggested(spots[i]) == Some(row.id);
        lemma_suggests(spots[i], row, band, class);
    }
    if exists|i: int|
        #![trigger spots[i]]
        0 <= i < spots.len() && suggests(spots[i], row, band, class) {
        let i = choose|i: int|
            #![trigger spots[i]]
            0 <= i < spots.len() && suggests(spots[i], row, band, class);
        lemma_suggests(spots[i], row, band, class);
    }
}

/// The matrix has a row for each row of the score, in order, and a cell for each band, in the order
/// of the log.
pub proof fn law_cells_of_the_matrix(
    rows: Seq<RowModel>,
    contacts: Seq<QsoModel>,
    spots: Seq<SpotModel>,
    i: int,
    band: Band,
)
    requires
        0 <= i < rows.len(),
    ensures
        matrix_of(rows, contacts, spots).len() == rows.len(),
        matrix_of(rows, contacts, spots)[i].0 == rows[i].id,
        matrix_of(rows, contacts, spots)[i].1.len() == 6,
        matrix_of(rows, contacts, spots)[i].1[band.place()] == cell(rows[i], contacts, spots, band),
{
    assert(model::all_bands()[band.place()] == band);
}

} // verus!
