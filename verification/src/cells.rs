//! Changes to the cells of a track.

use vstd::prelude::*;

use crate::note::{Note, NoteModel};
use crate::pattern;
use crate::pattern::{Cell, CellModel, Track, TrackModel};
use crate::piece::FxNode;

verus! {

/// The first cell from `i` on in a row, or the number of cells.
pub open spec fn find(cells: Seq<CellModel>, row: u32, i: int) -> int
    decreases cells.len() - i,
{
    if i < 0 || i >= cells.len() {
        cells.len() as int
    } else if cells[i].row == row {
        i
    } else {
        find(cells, row, i + 1)
    }
}

/// Where a cell belongs among cells in order: behind those of its row.
pub open spec fn place_of(cells: Seq<CellModel>, row: u32, i: int) -> int
    decreases i,
{
    if i <= 0 || i > cells.len() {
        0
    } else if cells[i - 1].row <= row {
        i
    } else {
        place_of(cells, row, i - 1)
    }
}

/// Cells in the order of their rows; those of one row keep their order.
pub open spec fn in_order(cells: Seq<CellModel>) -> Seq<CellModel>
    decreases cells.len(),
{
    if cells.len() == 0 {
        cells
    } else {
        let before = in_order(cells.drop_last());
        before.insert(place_of(before, cells.last().row, before.len() as int), cells.last())
    }
}

/// A cell that says nothing but its row and note.
pub open spec fn plain(row: u32, note: NoteModel) -> CellModel {
    CellModel {
        row,
        note,
        pitch_ratio: None,
        velocity: None,
        duration_rows: None,
        pan: None,
        fx: Seq::empty(),
        pitch_env: None,
    }
}

/// Cells with a note in a row: the note of the first cell there is changed,
/// or else a new cell is put in order.
pub open spec fn with_note(cells: Seq<CellModel>, row: u32, note: NoteModel) -> Seq<CellModel> {
    let i = find(cells, row, 0);
    if i < cells.len() {
        cells.update(i, CellModel { note, ..cells[i] })
    } else {
        in_order(cells.push(plain(row, note)))
    }
}

/// The cells that are not in a row.
pub open spec fn cleared(cells: Seq<CellModel>, row: u32) -> Seq<CellModel> {
    cells.filter(|c: CellModel| c.row != row)
}

/// The cells above a row.
pub open spec fn cut(cells: Seq<CellModel>, rows: u32) -> Seq<CellModel> {
    cells.filter(|c: CellModel| c.row < rows)
}

/// Whether cells come in the order of their rows.
pub open spec fn ordered(cells: Seq<CellModel>) -> bool {
    forall|i: int, j: int| 0 <= i <= j < cells.len() ==> (#[trigger] cells[i]).row <= (#[trigger] cells[j]).row
}

proof fn lemma_place(cells: Seq<CellModel>, row: u32, i: int)
    requires
        0 <= i <= cells.len(),
        ordered(cells),
    ensures
        0 <= place_of(cells, row, i) <= i,
        forall|k: int| 0 <= k < place_of(cells, row, i) ==> (#[trigger] cells[k]).row <= row,
        forall|k: int| place_of(cells, row, i) <= k < i ==> (#[trigger] cells[k]).row > row,
    decreases i,
{
    if i > 0 && cells[i - 1].row > row {
        lemma_place(cells, row, i - 1);
    }
}

/// Ordering puts cells in order and neither loses nor adds any.
pub proof fn law_in_order(cells: Seq<CellModel>)
    ensures
        ordered(in_order(cells)),
        in_order(cells).len() == cells.len(),
        in_order(cells).to_multiset() == cells.to_multiset(),
    decreases cells.len(),
{
    broadcast use vstd::seq_lib::group_to_multiset_ensures;

    if cells.len() > 0 {
        let before: Seq<CellModel> = in_order(cells.drop_last());
        law_in_order(cells.drop_last());
        let at: int = place_of(before, cells.last().row, before.len() as int);
        lemma_place(before, cells.last().row, before.len() as int);
        let now: Seq<CellModel> = in_order(cells);
        assert(now == before.insert(at, cells.last()));
        assert forall|i: int, j: int| 0 <= i <= j < now.len() implies (#[trigger] now[i]).row <= (
        #[trigger] now[j]).row by {
            let a: int = if i < at { i } else { i - 1 };
            let b: int = if j < at { j } else { j - 1 };
            if i != at {
                assert(now[i] == before[a]);
            }
            if j != at {
                assert(now[j] == before[b]);
            }
        }
        assert(cells =~= cells.drop_last().push(cells.last()));
        assert(before.insert(at, cells.last()).to_multiset() =~= before.to_multiset().insert(cells.last()));
    }
}

pub proof fn lemma_find(cells: Seq<CellModel>, row: u32, i: int)
    requires
        0 <= i <= cells.len(),
    ensures
        i <= find(cells, row, i) <= cells.len(),
        find(cells, row, i) < cells.len() ==> cells[find(cells, row, i)].row == row,
        forall|k: int| i <= k < find(cells, row, i) ==> (#[trigger] cells[k]).row != row,
    decreases cells.len() - i,
{
    if i < cells.len() && cells[i].row != row {
        lemma_find(cells, row, i + 1);
    }
}

/// A note that was set is found in its row.
pub proof fn law_set_note_is_found(cells: Seq<CellModel>, row: u32, note: NoteModel)
    ensures
        exists|i: int|
            0 <= i < with_note(cells, row, note).len() && (#[trigger] with_note(cells, row, note)[i]).row == row
                && with_note(cells, row, note)[i].note == note,
{
    let i: int = find(cells, row, 0);
    lemma_find(cells, row, 0);
    let after: Seq<CellModel> = with_note(cells, row, note);
    if i < cells.len() {
        assert(after[i].row == row && after[i].note == note);
    } else {
        let all: Seq<CellModel> = cells.push(plain(row, note));
        assert(all.drop_last() =~= cells);
        let before: Seq<CellModel> = in_order(cells);
        law_in_order(cells);
        let at: int = place_of(before, row, before.len() as int);
        lemma_place(before, row, before.len() as int);
        assert(after == before.insert(at, plain(row, note)));
        assert(after[at] == plain(row, note));
    }
}

/// A cleared row has no cell left, and every other cell stays.
pub proof fn law_cleared_row_is_empty(cells: Seq<CellModel>, row: u32)
    ensures
        forall|i: int| 0 <= i < cleared(cells, row).len() ==> (#[trigger] cleared(cells, row)[i]).row != row,
        forall|c: CellModel| c.row != row ==> (cells.contains(c) <==> #[trigger] cleared(cells, row).contains(c)),
{
    let stays = |c: CellModel| c.row != row;
    let left: Seq<CellModel> = cleared(cells, row);
    assert forall|i: int| 0 <= i < left.len() implies (#[trigger] left[i]).row != row by {
        cells.lemma_filter_pred(stays, i);
    }
    assert forall|c: CellModel| c.row != row implies (cells.contains(c) <==> #[trigger] left.contains(c)) by {
        if cells.contains(c) {
            let i: int = choose|i: int| 0 <= i < cells.len() && cells[i] == c;
            cells.lemma_filter_contains(stays, i);
        }
        if left.contains(c) {
            cells.lemma_filter_contains_rev(stays, c);
        }
    }
}

/// A new cell for a row.
fn plain_cell(row: u32, note: Note) -> (r: Cell)
    ensures
        r@ == plain(row, note@),
{
    let fx: Vec<FxNode> = Vec::new();
    let r = Cell {
        row,
        note,
        pitch_ratio: None,
        velocity: None,
        duration_rows: None,
        pan: None,
        fx,
        pitch_env: None,
    };
    assert(r@.fx =~= Seq::<FxNode>::empty());
    r
}

/// The position of the first cell in a row.
pub fn find_cell(cells: &Vec<Cell>, row: u32) -> (r: Option<usize>)
    ensures
        match r {
            Some(i) => i < cells@.len() && find(pattern::cell_views(cells@), row, 0) == i,
            None => find(pattern::cell_views(cells@), row, 0) == cells@.len(),
        },
{
    let ghost views = pattern::cell_views(cells@);
    let mut i: usize = 0;
    while i < cells.len()
        invariant
            i <= cells@.len(),
            views == pattern::cell_views(cells@),
            find(views, row, 0) == find(views, row, i as int),
        decreases cells.len() - i,
    {
        assert(views[i as int] == cells@[i as int]@);
        if cells[i].row == row {
            return Some(i);
        }
        i = i + 1;
    }
    None
}

fn insert_in_order(cells: &mut Vec<Cell>, cell: Cell)
    ensures
        pattern::cell_views(final(cells)@) == pattern::cell_views(old(cells)@).insert(
            place_of(pattern::cell_views(old(cells)@), cell.row, old(cells)@.len() as int),
            cell@,
        ),
{
    let ghost views = pattern::cell_views(cells@);
    let ghost before = cells@;
    let mut at: usize = cells.len();
    while at > 0 && cells[at - 1].row > cell.row
        invariant
            at <= cells@.len(),
            cells@ == before,
            views == pattern::cell_views(before),
            place_of(views, cell.row, before.len() as int) == place_of(views, cell.row, at as int),
        decreases at,
    {
        assert(views[at - 1] == before[at - 1]@);
        at = at - 1;
    }
    if at > 0 {
        assert(views[at - 1] == before[at - 1]@);
    }
    cells.insert(at, cell);
    assert(pattern::cell_views(cells@) =~= views.insert(at as int, cell@));
}

/// Puts cells in the order of their rows.
fn sort(cells: &mut Vec<Cell>)
    ensures
        pattern::cell_views(final(cells)@) == in_order(pattern::cell_views(old(cells)@)),
{
    let ghost source = cells@;
    let ghost views = pattern::cell_views(source);
    let mut rest: Vec<Cell> = Vec::new();
    std::mem::swap(&mut rest, cells);
    let ghost mut k: int = 0;
    assert(pattern::cell_views(cells@) =~= in_order(views.take(0)));
    assert(source.skip(0) =~= source);
    while rest.len() > 0
        invariant
            0 <= k <= source.len(),
            views == pattern::cell_views(source),
            rest@ == source.skip(k),
            pattern::cell_views(cells@) == in_order(views.take(k)),
        decreases rest.len(),
    {
        let cell: Cell = rest.remove(0);
        proof {
            assert(cell == source[k]);
            assert(views.take(k + 1).drop_last() =~= views.take(k));
            assert(views.take(k + 1).last() == cell@);
            assert(rest@ =~= source.skip(k + 1));
            assert(pattern::cell_views(cells@).len() == cells@.len());
        }
        insert_in_order(cells, cell);
        proof {
            k = k + 1;
        }
    }
    assert(views.take(k) =~= views);
}

/// Sets the note in a row.
pub fn set_note(cells: &mut Vec<Cell>, row: u32, note: Note)
    ensures
        pattern::cell_views(final(cells)@) == with_note(pattern::cell_views(old(cells)@), row, note@),
{
    let ghost before = cells@;
    let ghost views = pattern::cell_views(before);
    match find_cell(cells, row) {
        Some(i) => {
            let mut cell: Cell = cells.remove(i);
            assert(cell == before[i as int]);
            cell.note = note;
            assert(cell@ =~= (CellModel { note: note@, ..views[i as int] }));
            cells.insert(i, cell);
            assert(pattern::cell_views(cells@) =~= views.update(i as int, cell@));
        },
        None => {
            let cell: Cell = plain_cell(row, note);
            cells.push(cell);
            assert(pattern::cell_views(cells@) =~= views.push(cell@));
            sort(cells);
        },
    }
}

/// Removes the cells of a row; says whether there were any.
pub fn clear_row(cells: &mut Vec<Cell>, row: u32) -> (r: bool)
    ensures
        pattern::cell_views(final(cells)@) == cleared(pattern::cell_views(old(cells)@), row),
        r == (final(cells)@.len() != old(cells)@.len()),
{
    let ghost source = cells@;
    let ghost views = pattern::cell_views(source);
    let ghost stays = |c: CellModel| c.row != row;
    let before: usize = cells.len();
    let mut rest: Vec<Cell> = Vec::new();
    std::mem::swap(&mut rest, cells);
    let ghost mut k: int = 0;
    proof {
        reveal(Seq::filter);
        assert(pattern::cell_views(cells@) =~= views.take(0).filter(stays));
        assert(source.skip(0) =~= source);
    }
    while rest.len() > 0
        invariant
            0 <= k <= source.len(),
            views == pattern::cell_views(source),
            stays == (|c: CellModel| c.row != row),
            rest@ == source.skip(k),
            pattern::cell_views(cells@) == views.take(k).filter(stays),
        decreases rest.len(),
    {
        let cell: Cell = rest.remove(0);
        let ghost kept = cells@;
        proof {
            assert(cell == source[k]);
            assert(views.take(k + 1) =~= views.take(k).push(cell@));
            views.take(k).lemma_filter_push(cell@, stays);
            assert(rest@ =~= source.skip(k + 1));
        }
        if cell.row != row {
            cells.push(cell);
            assert(pattern::cell_views(cells@) =~= pattern::cell_views(kept).push(cell@));
        }
        proof {
            k = k + 1;
        }
    }
    assert(views.take(k) =~= views);
    cells.len() != before
}

/// Removes the cells from a row on.
pub fn cut_rows(cells: &mut Vec<Cell>, rows: u32)
    ensures
        pattern::cell_views(final(cells)@) == cut(pattern::cell_views(old(cells)@), rows),
{
    let ghost source = cells@;
    let ghost views = pattern::cell_views(source);
    let ghost stays = |c: CellModel| c.row < rows;
    let mut rest: Vec<Cell> = Vec::new();
    std::mem::swap(&mut rest, cells);
    let ghost mut k: int = 0;
    proof {
        reveal(Seq::filter);
        assert(pattern::cell_views(cells@) =~= views.take(0).filter(stays));
        assert(source.skip(0) =~= source);
    }
    while rest.len() > 0
        invariant
            0 <= k <= source.len(),
            views == pattern::cell_views(source),
            stays == (|c: CellModel| c.row < rows),
            rest@ == source.skip(k),
            pattern::cell_views(cells@) == views.take(k).filter(stays),
        decreases rest.len(),
    {
        let cell: Cell = rest.remove(0);
        let ghost kept = cells@;
        proof {
            assert(cell == source[k]);
            assert(views.take(k + 1) =~= views.take(k).push(cell@));
            views.take(k).lemma_filter_push(cell@, stays);
            assert(rest@ =~= source.skip(k + 1));
        }
        if cell.row < rows {
            cells.push(cell);
            assert(pattern::cell_views(cells@) =~= pattern::cell_views(kept).push(cell@));
        }
        proof {
            k = k + 1;
        }
    }
    assert(views.take(k) =~= views);
}

/// Tracks without their cells.
pub open spec fn blanked(tracks: Seq<TrackModel>) -> Seq<TrackModel> {
    tracks.map_values(|t: TrackModel| TrackModel { cells: Seq::empty(), ..t })
}

/// Tracks with only the cells above a row.
pub open spec fn shortened(tracks: Seq<TrackModel>, rows: u32) -> Seq<TrackModel> {
    tracks.map_values(|t: TrackModel| TrackModel { cells: cut(t.cells, rows), ..t })
}

/// Removes every cell.
pub fn blank(tracks: &mut Vec<Track>)
    ensures
        pattern::track_views(final(tracks)@) == blanked(pattern::track_views(old(tracks)@)),
{
    let ghost source = tracks@;
    let ghost views = pattern::track_views(source);
    let mut i: usize = 0;
    while i < tracks.len()
        invariant
            i <= tracks@.len(),
            tracks@.len() == source.len(),
            views == pattern::track_views(source),
            forall|k: int| i <= k < source.len() ==> #[trigger] tracks@[k] == source[k],
            forall|k: int| 0 <= k < i ==> (#[trigger] tracks@[k])@ == blanked(views)[k],
        decreases tracks@.len() - i,
    {
        let ghost before = tracks@;
        let mut track: Track = tracks.remove(i);
        assert(track == source[i as int]);
        track.cells.clear();
        assert(pattern::cell_views(track.cells@) =~= Seq::<CellModel>::empty());
        assert(track@ =~= blanked(views)[i as int]);
        tracks.insert(i, track);
        assert(tracks@ =~= before.update(i as int, track));
        i = i + 1;
    }
    assert(pattern::track_views(tracks@) =~= blanked(views));
}

/// Removes the cells from a row on from every track.
pub fn shorten(tracks: &mut Vec<Track>, rows: u32)
    ensures
        pattern::track_views(final(tracks)@) == shortened(pattern::track_views(old(tracks)@), rows),
{
    let ghost source = tracks@;
    let ghost views = pattern::track_views(source);
    let mut i: usize = 0;
    while i < tracks.len()
        invariant
            i <= tracks@.len(),
            tracks@.len() == source.len(),
            views == pattern::track_views(source),
            forall|k: int| i <= k < source.len() ==> #[trigger] tracks@[k] == source[k],
            forall|k: int| 0 <= k < i ==> (#[trigger] tracks@[k])@ == shortened(views, rows)[k],
        decreases tracks@.len() - i,
    {
        let ghost before = tracks@;
        let mut track: Track = tracks.remove(i);
        assert(track == source[i as int]);
        cut_rows(&mut track.cells, rows);
        assert(track@ =~= shortened(views, rows)[i as int]);
        tracks.insert(i, track);
        assert(tracks@ =~= before.update(i as int, track));
        i = i + 1;
    }
    assert(pattern::track_views(tracks@) =~= shortened(views, rows));
}

} // verus!
