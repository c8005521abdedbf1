//! What the keys of the editor do, told by what each changes.

use vstd::prelude::*;
use vstd::arithmetic::div_mod::*;
use vstd::arithmetic::power2::*;

use crate::cells;
use crate::closeness;
use crate::closeness::{gap, whole};
use crate::editor;
use crate::editor::{Action, EditorModel, Key, PlayScope, Step};
use crate::note;
use crate::note::NoteModel;
use crate::order;
use crate::pattern::{CellModel, PatternModel};
use crate::piece::Pitch;
use crate::rounding;
use crate::single;
use crate::single::Single;
use crate::sounding;

verus! {

/// Whether `there` is `delta` places from `here`, round the ends of `n` places.
pub open spec fn is_round(there: int, here: int, delta: int, n: int) -> bool {
    0 <= there < n && (there - here - delta) % n == 0
}

pub proof fn lemma_round(x: int, n: int)
    requires
        n > 0,
    ensures
        is_round(x % n, 0, x, n),
{
    lemma_mod_bound(x, n);
    lemma_fundamental_div_mod(x, n);
    lemma_mod_multiples_basic(-(x / n), n);
    assert((-(x / n)) * n == -(n * (x / n))) by (nonlinear_arith);
}

/// Whether two states have the same song, and the same of what is not the
/// cursor.
pub open spec fn only_moved(a: EditorModel, b: EditorModel) -> bool {
    a.song == b.song && a.current == b.current && a.octave == b.octave && a.dirty == b.dirty && a.play_scope
        == b.play_scope && a.status == b.status && a.error == b.error
}

/// How far a key moves the cursor through the rows.
pub open spec fn rows_of_key(key: Key, lines_per_beat: u32) -> int {
    match key {
        Key::Up => -1,
        Key::Down => 1,
        Key::PageUp => -(lines_per_beat as int),
        Key::PageDown => lines_per_beat as int,
        _ => 0,
    }
}

/// The cursor goes up and down by a row, or by a beat, round the ends of the
/// pattern; it stays in view, and the view stays where it is if it can.
pub proof fn law_cursor_goes_through_the_rows(e: EditorModel, key: Key, control: bool, now: u64)
    requires
        e.sound(),
        e.cur().rows > 0,
        key == Key::Up || key == Key::Down || key == Key::PageUp || key == Key::PageDown,
    ensures
        ({
            let step = e.pressed(key, control, now);
            let after = step.state;
            let row = after.cursor_row as int;
            &&& is_round(row, e.cursor_row as int, rows_of_key(key, e.cur().lines_per_beat), e.cur().rows as int)
            &&& after.scroll <= row < after.scroll + 16
            &&& e.scroll <= row < e.scroll + 16 ==> after.scroll == e.scroll
            &&& after.cursor_track == e.cursor_track
            &&& !after.follow_playhead
            &&& only_moved(after, e)
            &&& step.actions.len() == 0
        }),
{
    let delta: int = rows_of_key(key, e.cur().lines_per_beat);
    lemma_round(e.cursor_row + delta, e.cur().rows as int);
}

/// How far a key moves the cursor through the tracks.
pub open spec fn tracks_of_key(key: Key) -> int {
    match key {
        Key::Left | Key::BackTab => -1,
        Key::Right | Key::Tab => 1,
        _ => 0,
    }
}

/// The cursor goes through the tracks round the ends of the pattern.
pub proof fn law_cursor_goes_through_the_tracks(e: EditorModel, key: Key, control: bool, now: u64)
    requires
        e.sound(),
        e.cur().tracks.len() > 0,
        (!control && (key == Key::Left || key == Key::Right)) || key == Key::Tab || key == Key::BackTab,
    ensures
        ({
            let step = e.pressed(key, control, now);
            let after = step.state;
            &&& is_round(after.cursor_track, e.cursor_track, tracks_of_key(key), e.cur().tracks.len() as int)
            &&& after.cursor_row == e.cursor_row && after.scroll == e.scroll
            &&& after.follow_playhead == e.follow_playhead
            &&& only_moved(after, e)
            &&& step.actions.len() == 0
        }),
{
    lemma_round(e.cursor_track + tracks_of_key(key), e.cur().tracks.len() as int);
}

/// The cursor goes to the first and to the last row.
pub proof fn law_cursor_goes_to_the_ends(e: EditorModel, control: bool, now: u64)
    requires
        e.sound(),
        e.cur().rows > 0,
    ensures
        e.pressed(Key::Home, control, now).state.cursor_row == 0,
        e.pressed(Key::End, control, now).state.cursor_row == e.cur().rows - 1,
        only_moved(e.pressed(Key::Home, control, now).state, e),
        only_moved(e.pressed(Key::End, control, now).state, e),
        !e.pressed(Key::Home, control, now).state.follow_playhead,
        !e.pressed(Key::End, control, now).state.follow_playhead,
{
}

/// How many beats a minute faster a key makes the pattern.
pub open spec fn tempo_of_key(ch: char) -> int {
    if ch == '.' {
        1
    } else if ch == ',' {
        -1
    } else if ch == '>' {
        10
    } else if ch == '<' {
        -10
    } else {
        0
    }
}

/// The tempo goes up and down by one or by ten, from 20 to 999, and the pattern
/// sounds anew.
pub proof fn law_tempo_goes_by_steps(e: EditorModel, ch: char, now: u64)
    requires
        e.sound(),
        ch == '.' || ch == ',' || ch == '>' || ch == '<',
        order::within_power(e.cur().tempo_bpm, 65),
    ensures
        ({
            let step = e.pressed(Key::Char(ch), false, now);
            let old = e.cur().tempo_bpm.units();
            let new = step.state.cur().tempo_bpm.units();
            let wanted = old + tempo_of_key(ch) * whole();
            &&& 20 * whole() <= new <= 999 * whole()
            &&& 21 * whole() <= wanted <= 998 * whole() ==> 0x100_0000 * gap(new - wanted) <= gap(wanted)
            &&& wanted <= 19 * whole() ==> new == 20 * whole()
            &&& wanted >= 1000 * whole() ==> new == 999 * whole()
            &&& step.state.cur() == (PatternModel { tempo_bpm: step.state.cur().tempo_bpm, ..e.cur() })
            &&& step.state.dirty
            &&& step.actions == seq![Action::Rewind, Action::Render]
        }),
{
    lemma2_to64();
    closeness::lemma_whole();
    let u: int = whole();
    let k: int = tempo_of_key(ch);
    let d: Single = Single::of_int(k);
    closeness::lemma_of_int(k);
    assert(gap(k) * u <= 10 * u && k * u == tempo_of_key(ch) * u);
    assert(d.units() == k * u);
    sounding::lemma_size(k);
    let t: Single = e.cur().tempo_bpm;
    order::lemma_sum_within_power(t, d, 65);
    closeness::lemma_sum(t, d);
    let low: Single = Single { bits: editor::SLOWEST };
    let high: Single = Single { bits: editor::FASTEST };
    rounding::lemma_scaled_at(24, editor::SLOWEST as nat, 0xa0_0000, 130);
    rounding::lemma_scaled_at(24, editor::FASTEST as nat, 0xf9_c000, 135);
    lemma_pow2_adds(19, 130);
    lemma_pow2_adds(14, 135);
    assert(pow2(19) == 0x8_0000 && pow2(14) == 0x4000);
    assert(low.units() == 20 * u) by {
        assert(0xa0_0000 * pow2(130) == 20 * (0x8_0000 * pow2(130)));
    }
    assert(high.units() == 999 * u) by {
        assert(0xf9_c000 * pow2(135) == 999 * (0x4000 * pow2(135)));
    }
    let s: Single = t.sum(d);
    single::lemma_less_is_by_value(s, low);
    single::lemma_less_is_by_value(high, s);
    single::lemma_less_is_by_value(low, s);
    single::lemma_less_is_by_value(s, high);
}

/// The pattern grows by a beat, and shrinks by one down to a single beat; the
/// cells that still fit stay.
pub proof fn law_pattern_grows_by_a_beat(e: EditorModel, now: u64)
    requires
        e.sound(),
        e.cur().lines_per_beat > 0,
        e.cur().rows + e.cur().lines_per_beat <= u32::MAX,
    ensures
        ({
            let beat = e.cur().lines_per_beat as int;
            let longer = e.pressed(Key::Char('+'), false, now);
            let shorter = e.pressed(Key::Char('-'), false, now);
            &&& longer.state.cur().rows == if e.cur().rows == 0 { beat } else { e.cur().rows + beat }
            &&& shorter.state.cur().rows == if e.cur().rows < 2 * beat { beat } else { e.cur().rows - beat }
            &&& longer == e.pressed(Key::Char('='), false, now)
            &&& shorter == e.pressed(Key::Char('_'), false, now)
            &&& longer.actions == seq![Action::Rewind, Action::Render]
            &&& shorter.actions == seq![Action::Rewind, Action::Render]
            &&& longer.state.cur().tracks.len() == e.cur().tracks.len()
            &&& shorter.state.cur().tracks.len() == e.cur().tracks.len()
            &&& longer.state.cur().tempo_bpm == e.cur().tempo_bpm
            &&& longer.state.sound() && shorter.state.sound()
        }),
{
    let beat: int = e.cur().lines_per_beat as int;
    assert(beat * 1 == beat && beat * -1 == -beat);
}

/// A cell that lies above the last row is kept when the rows change.
pub proof fn law_cells_that_fit_stay(e: EditorModel, ch: char, now: u64, t: int, c: CellModel)
    requires
        e.sound(),
        ch == '+' || ch == '-',
        0 <= t < e.cur().tracks.len(),
        e.cur().tracks[t].cells.contains(c),
        c.row < e.pressed(Key::Char(ch), false, now).state.cur().rows,
    ensures
        e.pressed(Key::Char(ch), false, now).state.cur().tracks[t].cells.contains(c),
{
    let rows: u32 = e.pressed(Key::Char(ch), false, now).state.cur().rows;
    let stays = |c: CellModel| c.row < rows;
    let before: Seq<CellModel> = e.cur().tracks[t].cells;
    let after: Seq<CellModel> = e.pressed(Key::Char(ch), false, now).state.cur().tracks[t].cells;
    assert(after == cells::cut(before, rows));
    let i: int = choose|i: int| 0 <= i < before.len() && before[i] == c;
    before.lemma_filter_contains(stays, i);
}

/// A digit chooses the octave.
pub proof fn law_digit_chooses_the_octave(e: EditorModel, d: int, now: u64)
    requires
        1 <= d <= 9,
    ensures
        ({
            let step = e.pressed(Key::Char((48 + d) as char), false, now);
            &&& step.state.octave == d
            &&& step.state.song == e.song && step.state.cursor_row == e.cursor_row && step.state.dirty == e.dirty
            &&& step.actions.len() == 0
        }),
{
}

/// The keys of the letters, in semitones above C.
pub open spec fn semitones(letter: char) -> int {
    if letter == 'C' {
        0
    } else if letter == 'D' {
        2
    } else if letter == 'E' {
        4
    } else if letter == 'F' {
        5
    } else if letter == 'G' {
        7
    } else if letter == 'A' {
        9
    } else {
        11
    }
}

/// Whether a cell in a row plays a key.
pub open spec fn holds_key(cells: Seq<CellModel>, row: u32, key: int) -> bool {
    exists|i: int| 0 <= i < cells.len() && (#[trigger] cells[i]).row == row && plays_key(cells[i], key)
}

pub open spec fn plays_key(cell: CellModel, key: int) -> bool {
    cell.note.pitch() == Ok::<Pitch, Seq<char>>(Pitch::Key(key as i64))
}

/// A letter enters its note in the octave, a capital its sharp (a small `f` is
/// taken, it follows the playhead); the note stands
/// in the row of the cursor, which goes a row further on. Middle C, in octave
/// four, is key 60.
pub proof fn law_letter_enters_its_note(e: EditorModel, letter: char, sharp: bool, now: u64)
    requires
        e.sound(),
        e.cur().rows > 0,
        e.cursor_track < e.cur().tracks.len(),
        'A' <= letter <= 'G',
        letter == 'F' ==> sharp,
        0 <= e.octave <= 9,
    ensures
        ({
            let ch = if sharp { letter } else { (letter as int + 32) as char };
            let step = e.pressed(Key::Char(ch), false, now);
            let after = step.state;
            let there = after.cur().tracks[e.cursor_track].cells;
            &&& holds_key(
                there,
                e.cursor_row,
                60 + 12 * (e.octave - 4) + semitones(letter) + if sharp { 1int } else { 0 },
            )
            &&& is_round(after.cursor_row as int, e.cursor_row as int, 1, e.cur().rows as int)
            &&& after.dirty
            &&& step.actions == seq![Action::RenderEdit, Action::Preview(e.cursor_row)]
        }),
{
    let ch: char = if sharp { letter } else { (letter as int + 32) as char };
    assert(note::letter_offset(ch) is Some && note::letter_offset(letter) is Some);
    editor::law_entered_note_is_found(e, ch, now);
    note::law_written_name_reads_back(letter, sharp, e.octave);
    assert(e.note_entered(ch) == note::note_name(letter, sharp, e.octave as int));
    lemma_round(e.cursor_row + 1, e.cur().rows as int);
    assert(note::letter_offset(letter)->0 == semitones(letter));
    assert(e.pressed(Key::Char(ch), false, now) == e.note_set(ch, now));
    let there: Seq<CellModel> = e.note_set(ch, now).state.cur().tracks[e.cursor_track].cells;
    let i: int = choose|i: int|
        0 <= i < there.len() && (#[trigger] there[i]).row == e.cursor_row && there[i].note == NoteModel::Name(
            e.note_entered(ch),
        );
    let key: int = 60 + 12 * (e.octave - 4) + semitones(letter) + if sharp { 1int } else { 0 };
    assert(there[i].row == e.cursor_row && plays_key(there[i], key));
    assert(holds_key(there, e.cursor_row, key));
    let set: EditorModel = e.cell_set(NoteModel::Name(e.note_entered(ch))).soiled();
    assert(set.cur().rows == e.cur().rows && set.cursor_row == e.cursor_row);
    assert(set.row_moved(1).cursor_row == (e.cursor_row + 1) % (e.cur().rows as int));
}

/// The keys that start something outside the editor.
pub proof fn law_keys_that_act(e: EditorModel, now: u64)
    ensures
        e.pressed(Key::Char('q'), false, now) == (Step { state: e, actions: seq![Action::Quit] }),
        e.pressed(Key::Char('c'), true, now) == (Step { state: e, actions: seq![Action::Quit] }),
        e.pressed(Key::Esc, false, now) == (Step { state: e, actions: seq![Action::Quit] }),
        e.pressed(Key::Char(' '), false, now) == (Step { state: e, actions: seq![Action::TogglePause] }),
        e.pressed(Key::Char('R'), false, now) == (Step { state: e, actions: seq![Action::Rewind] }),
        e.pressed(Key::Char('r'), true, now) == (Step { state: e, actions: seq![Action::Rewind] }),
        e.pressed(Key::Char('s'), false, now) == (Step { state: e, actions: seq![Action::Save] }),
        e.pressed(Key::Enter, false, now) == (Step { state: e, actions: seq![Action::Preview(e.cursor_row)] }),
        e.pressed(Key::Delete, false, now) == e.pressed(Key::Backspace, false, now),
        e.pressed(Key::Char('f'), false, now).state.follow_playhead == !e.follow_playhead,
        e.pressed(Key::Char('m'), false, now).state.play_scope == match e.play_scope {
            PlayScope::Pattern => PlayScope::Song,
            PlayScope::Song => PlayScope::Pattern,
        },
{
}

/// The brackets view the next and the previous pattern, round the ends of the
/// song.
pub proof fn law_brackets_select_patterns(e: EditorModel, now: u64)
    requires
        e.sound(),
    ensures
        ({
            let n = e.song.patterns.len() as int;
            let next = e.pressed(Key::Char(']'), false, now);
            let previous = e.pressed(Key::Char('['), false, now);
            &&& is_round(next.state.current, e.current, 1, n)
            &&& is_round(previous.state.current, e.current, -1, n)
            &&& next.state.song == e.song && previous.state.song == e.song
            &&& next.state.sound() && previous.state.sound()
            &&& n > 1 ==> !next.state.follow_playhead && !previous.state.follow_playhead
            &&& next.actions.len() > 0 <==> n > 1 && e.play_scope == PlayScope::Pattern
        }),
{
    let n: int = e.song.patterns.len() as int;
    lemma_round(e.current + 1, n);
    lemma_round(e.current - 1, n);
    if n == 1 {
        assert((0 - 0 - 1) % 1 == 0 && (0 - 0 + 1) % 1 == 0);
    }
}

/// A new pattern comes behind the one that is edited, with its grid, voices and
/// tracks; it has its cells too where it is a clone.
pub proof fn law_new_pattern_comes_behind(e: EditorModel, clone: bool, now: u64, i: int)
    requires
        e.sound(),
        0 <= i < e.song.patterns.len(),
    ensures
        ({
            let step = e.pressed(Key::Char(if clone { 'N' } else { 'n' }), false, now);
            let after = step.state;
            &&& after.song.patterns.len() == e.song.patterns.len() + 1
            &&& after.song.patterns[if i <= e.current { i } else { i + 1 }] == e.song.patterns[i]
            &&& after.current == e.current + 1
            &&& after.cur().rows == e.cur().rows && after.cur().tempo_bpm == e.cur().tempo_bpm
            &&& after.cur().voices == e.cur().voices && after.cur().tracks.len() == e.cur().tracks.len()
            &&& clone ==> after.cur() == e.cur()
            &&& forall|t: int|
                !clone && 0 <= t < e.cur().tracks.len() ==> (#[trigger] after.cur().tracks[t]).cells.len() == 0
                    && after.cur().tracks[t].voice == e.cur().tracks[t].voice
            &&& after.dirty
            &&& step.actions == seq![Action::Rewind, Action::Render]
        }),
{
}

/// A deleted pattern is gone and the others stay, in their order.
pub proof fn law_deleted_pattern_is_gone(e: EditorModel, now: u64, i: int)
    requires
        e.sound(),
        e.song.patterns.len() > 1,
        0 <= i < e.song.patterns.len(),
        i != e.current,
    ensures
        ({
            let step = e.pressed(Key::Char('x'), false, now);
            let after = step.state;
            &&& after.song.patterns.len() == e.song.patterns.len() - 1
            &&& after.song.patterns[if i < e.current { i } else { i - 1 }] == e.song.patterns[i]
            &&& after.sound() && after.dirty
            &&& step.actions == seq![Action::Rewind, Action::Render]
        }),
{
}

/// With the control key the arrows move the pattern itself.
pub proof fn law_arrows_move_the_pattern(e: EditorModel, right: bool, now: u64)
    requires
        e.sound(),
    ensures
        ({
            let d = if right { 1int } else { -1 };
            let step = e.pressed(if right { Key::Right } else { Key::Left }, true, now);
            let to = e.current + d;
            if 0 <= to < e.song.patterns.len() {
                &&& step.state.current == to
                &&& step.state.song.patterns[to] == e.cur()
                &&& step.state.song.patterns[e.current] == e.song.patterns[to]
                &&& step.state.song.patterns.len() == e.song.patterns.len()
                &&& step.state.dirty
            } else {
                step.state == e && step.actions.len() == 0
            }
        }),
{
}

/// What is under the cursor is gone when it is cleared, and nothing else.
pub proof fn law_cleared_cell_is_gone(e: EditorModel, now: u64, c: CellModel)
    requires
        e.sound(),
        e.cursor_track < e.cur().tracks.len(),
    ensures
        ({
            let step = e.pressed(Key::Delete, false, now);
            let before = e.cur().tracks[e.cursor_track].cells;
            let after = step.state.cur().tracks[e.cursor_track].cells;
            &&& after.contains(c) <==> before.contains(c) && c.row != e.cursor_row
            &&& step.state.cursor_row == e.cursor_row
        }),
{
    let before: Seq<CellModel> = e.cur().tracks[e.cursor_track].cells;
    cells::law_cleared_row_is_empty(before, e.cursor_row);
    if !e.has_cell() {
        lemma_all_stay(before, e.cursor_row);
    }
}

/// Cells of which none leaves have none in the row.
proof fn lemma_all_stay(cells: Seq<CellModel>, row: u32)
    requires
        cells::cleared(cells, row).len() == cells.len(),
    ensures
        forall|i: int| 0 <= i < cells.len() ==> (#[trigger] cells[i]).row != row,
    decreases cells.len(),
{
    reveal(Seq::filter);
    if cells.len() > 0 {
        let rest: Seq<CellModel> = cells.drop_last();
        rest.lemma_filter_len(|c: CellModel| c.row != row);
        lemma_all_stay(rest, row);
        assert forall|i: int| 0 <= i < cells.len() implies (#[trigger] cells[i]).row != row by {
            if i < rest.len() {
                assert(rest[i] == cells[i]);
            }
        }
    }
}

/// A note that is entered changes nothing but its row: every cell of another
/// row stays, and no other comes; what the row's cell had beside its note it
/// keeps.
pub proof fn law_entered_note_keeps_the_rest(cells: Seq<CellModel>, row: u32, note: NoteModel, c: CellModel)
    ensures
        ({
            let after = cells::with_note(cells, row, note);
            &&& c.row != row ==> (after.contains(c) <==> cells.contains(c))
            &&& after.len() == cells.len() || (after.len() == cells.len() + 1 && forall|i: int|
                0 <= i < cells.len() ==> (#[trigger] cells[i]).row != row)
        }),
{
    broadcast use vstd::seq_lib::group_to_multiset_ensures;

    let i: int = cells::find(cells, row, 0);
    cells::lemma_find(cells, row, 0);
    let after: Seq<CellModel> = cells::with_note(cells, row, note);
    if i < cells.len() {
        if after.contains(c) {
            let k: int = choose|k: int| 0 <= k < after.len() && after[k] == c;
            if k != i {
                assert(cells[k] == c);
            }
        }
        if cells.contains(c) {
            let k: int = choose|k: int| 0 <= k < cells.len() && cells[k] == c;
            if k != i {
                assert(after[k] == c);
            }
        }
    } else {
        let all: Seq<CellModel> = cells.push(cells::plain(row, note));
        cells::law_in_order(all);
        assert(after.to_multiset() == all.to_multiset());
        assert(after.contains(c) <==> all.contains(c)) by {
            assert(after.to_multiset().count(c) > 0 <==> after.contains(c));
            assert(all.to_multiset().count(c) > 0 <==> all.contains(c));
        }
        if all.contains(c) && c.row != row {
            let k: int = choose|k: int| 0 <= k < all.len() && all[k] == c;
            assert(k < cells.len());
            assert(cells[k] == c);
        }
        if cells.contains(c) {
            let k: int = choose|k: int| 0 <= k < cells.len() && cells[k] == c;
            assert(all[k] == c);
        }
    }
}

} // verus!
