//! What the screen shows.

use vstd::prelude::*;

use crate::cells;
use crate::editor;
use crate::editor::{Editor, EditorModel};
use crate::fx;
use crate::note::{Note, NoteModel};
use crate::pattern;
use crate::pattern::{CellModel, Pattern, Track};
use crate::single::Single;
use crate::text;

verus! {

/// Characters of a grid cell.
pub const CELL_WIDTH: usize = 9;

/// Colours that tracks and patterns take in turn.
pub const COLORS: usize = 8;

/// Lines of the grid that hold no rows.
pub const GRID_LINES: u16 = 3;

/// Frames that the scope shows.
pub const SCOPE_FRAMES: usize = 4096;

/// What a cell shows.
#[derive(Debug)]
pub enum CellText {
    Text(String),
    /// A frequency, to be shown with one decimal and centred.
    Tenths(Single),
}

/// What a cell shows.
#[verifier::ext_equal]
pub enum CellTextModel {
    Text(Seq<char>),
    Tenths(Single),
}

impl View for CellText {
    type V = CellTextModel;

    open spec fn view(&self) -> CellTextModel {
        match *self {
            CellText::Text(s) => CellTextModel::Text(s@),
            CellText::Tenths(x) => CellTextModel::Tenths(x),
        }
    }
}

/// What is behind a cell.
#[derive(Clone, Copy, Debug, PartialEq, Eq, Structural)]
pub enum Ground {
    /// The cursor is here.
    Cursor,
    /// The row plays.
    Playing,
    /// The cursor is in this row.
    CursorRow,
    Plain,
}

/// A name or note in the head or a cell of the grid.
#[derive(Debug)]
pub struct GridCell {
    pub text: CellText,
    /// Whether there is a note.
    pub filled: bool,
    pub color: usize,
    pub ground: Ground,
}

/// What a cell of the grid is like.
#[verifier::ext_equal]
pub struct GridCellModel {
    pub text: CellTextModel,
    pub filled: bool,
    pub color: int,
    pub ground: Ground,
}

impl View for GridCell {
    type V = GridCellModel;

    open spec fn view(&self) -> GridCellModel {
        GridCellModel {
            text: self.text@,
            filled: self.filled,
            color: self.color as int,
            ground: self.ground,
        }
    }
}

/// A row of the grid.
#[derive(Debug)]
pub struct GridLine {
    pub row: u32,
    pub playing: bool,
    pub beat: bool,
    pub cells: Vec<GridCell>,
}

/// What a row of the grid is like.
#[verifier::ext_equal]
pub struct GridLineModel {
    pub row: u32,
    pub playing: bool,
    pub beat: bool,
    pub cells: Seq<GridCellModel>,
}

impl View for GridLine {
    type V = GridLineModel;

    open spec fn view(&self) -> GridLineModel {
        GridLineModel {
            row: self.row,
            playing: self.playing,
            beat: self.beat,
            cells: self.cells@.map_values(|c: GridCell| c@),
        }
    }
}

/// The name of a track over its column.
#[derive(Debug)]
pub struct TrackHead {
    pub text: String,
    pub color: usize,
    /// Whether the cursor is in this track.
    pub marked: bool,
}

/// What the head of a track is like.
#[verifier::ext_equal]
pub struct TrackHeadModel {
    pub text: Seq<char>,
    pub color: int,
    pub marked: bool,
}

impl View for TrackHead {
    type V = TrackHeadModel;

    open spec fn view(&self) -> TrackHeadModel {
        TrackHeadModel { text: self.text@, color: self.color as int, marked: self.marked }
    }
}

/// Some spaces.
pub open spec fn spaces(n: nat) -> Seq<char> {
    Seq::new(n, |i: int| ' ')
}

/// A text in the middle of a width; of an odd rest the larger part is behind.
pub open spec fn centered(s: Seq<char>, width: nat) -> Seq<char> {
    if s.len() >= width {
        s
    } else {
        let pad = (width - s.len()) as nat;
        spaces(pad / 2) + s + spaces((pad - pad / 2) as nat)
    }
}

/// A name cut to what a column holds with a gap.
pub open spec fn shortened(s: Seq<char>) -> Seq<char> {
    if s.len() <= CELL_WIDTH - 2 {
        s
    } else {
        s.take(CELL_WIDTH - 2)
    }
}

/// What a note shows: its name, or its frequency, in whole numbers from 100
/// on.
pub open spec fn note_text(note: NoteModel) -> CellTextModel {
    match note {
        NoteModel::Name(s) => CellTextModel::Text(s),
        NoteModel::Hz(h) => if h.less(Single::of_int(100)) {
            CellTextModel::Tenths(h)
        } else {
            CellTextModel::Text(text::digits(h.truncated(u32::MAX as nat)))
        },
    }
}

/// What a cell of the grid shows, with or without a note.
pub open spec fn slot_text(note: Option<NoteModel>) -> CellTextModel {
    match note {
        None => CellTextModel::Text("    \u{b7}    "@),
        Some(n) => match note_text(n) {
            CellTextModel::Text(s) => CellTextModel::Text(centered(s, CELL_WIDTH as nat)),
            CellTextModel::Tenths(h) => CellTextModel::Tenths(h),
        },
    }
}

/// The note of a row, if there is one.
pub open spec fn note_in(cells: Seq<CellModel>, row: u32) -> Option<NoteModel> {
    let i = cells::find(cells, row, 0);
    if i < cells.len() {
        Some(cells[i].note)
    } else {
        None
    }
}

impl EditorModel {
    /// The row that shows the playhead: none while playing rests or another
    /// pattern plays.
    pub open spec fn playhead(self, sr: u32, frame: u64, paused: bool) -> Option<u32> {
        let (pat, row) = self.playing(sr, frame);
        if pat == self.current && !paused {
            Some(row)
        } else {
            None
        }
    }

    /// The first row in view.
    pub open spec fn first_row(self) -> int {
        let last = editor::before(self.cur().rows as int);
        if self.scroll <= last {
            self.scroll as int
        } else {
            last
        }
    }

    /// The row behind the last one in view, on a grid of some lines.
    pub open spec fn end_row(self, height: u16) -> int {
        let lines = if height <= GRID_LINES { 0 } else { height - GRID_LINES };
        let end = self.first_row() + lines;
        if end <= self.cur().rows {
            end
        } else {
            self.cur().rows as int
        }
    }

    /// What a cell of the grid is like.
    pub open spec fn grid_cell(self, row: u32, track: int, playhead: Option<u32>) -> GridCellModel {
        let note = note_in(self.cur().tracks[track].cells, row);
        GridCellModel {
            text: slot_text(note),
            filled: note is Some,
            color: track % COLORS as int,
            ground: if row == self.cursor_row && track == self.cursor_track {
                Ground::Cursor
            } else if playhead == Some(row) {
                Ground::Playing
            } else if row == self.cursor_row {
                Ground::CursorRow
            } else {
                Ground::Plain
            },
        }
    }

    /// What a row of the grid is like.
    pub open spec fn grid_line(self, row: u32, playhead: Option<u32>) -> GridLineModel {
        GridLineModel {
            row,
            playing: playhead == Some(row),
            beat: row % self.cur().lines_per_beat == 0,
            cells: Seq::new(
                self.cur().tracks.len(),
                |t: int| self.grid_cell(row, t, playhead),
            ),
        }
    }

    /// What the head of a track is like.
    pub open spec fn track_head(self, track: int) -> TrackHeadModel {
        TrackHeadModel {
            text: centered(shortened(self.cur().tracks[track].name), CELL_WIDTH as nat),
            color: track % COLORS as int,
            marked: track == self.cursor_track,
        }
    }

    /// The title: that of the song, or of the pattern.
    pub open spec fn title(self) -> Seq<char> {
        match (self.song.metadata.title, self.cur().metadata.title) {
            (Some(t), _) => t,
            (None, Some(t)) => t,
            (None, None) => "(untitled)"@,
        }
    }

    /// The header up to the tempo.
    pub open spec fn header_start(self) -> Seq<char> {
        " "@ + self.title() + " \u{b7} pat "@ + text::two_digits(self.current as nat) + "/"@
            + text::two_digits(editor::before(self.song.patterns.len() as int) as nat) + " \u{b7} "@
    }

    /// The header behind the tempo.
    pub open spec fn header_end(self) -> Seq<char> {
        " BPM \u{b7} "@ + text::digits(self.cur().rows as nat) + " rows \u{b7} 1/"@ + text::digits(
            self.cur().lines_per_beat as nat,
        ) + " \u{b7} oct "@ + text::number(self.octave as int)
    }

    /// The chip of a pattern in the song strip: a mark where it plays, its
    /// number and its rows.
    pub open spec fn chip(self, i: int, playing: bool) -> Seq<char> {
        " "@ + (if playing {
            "\u{25b6}"@
        } else {
            " "@
        }) + text::two_digits(i as nat) + "\u{b7}"@ + text::digits(self.song.patterns[i].rows as nat) + " "@
    }
}

/// Appends spaces.
fn push_spaces(out: &mut String, n: usize)
    ensures
        final(out)@ == old(out)@ + spaces(n as nat),
{
    let ghost before = out@;
    let mut i: usize = 0;
    assert(before + spaces(0) =~= before);
    while i < n
        invariant
            i <= n,
            out@ == before + spaces(i as nat),
        decreases n - i,
    {
        out.push(' ');
        i = i + 1;
        assert(before + spaces(i as nat) =~= (before + spaces((i - 1) as nat)).push(' '));
    }
}

/// Puts a text in the middle of a width.
pub fn center(s: &str, width: usize) -> (r: String)
    ensures
        r@ == centered(s@, width as nat),
{
    let n: usize = s.unicode_len();
    if n >= width {
        return s.to_owned();
    }
    let pad: usize = width - n;
    let mut out: String = String::new();
    push_spaces(&mut out, pad / 2);
    out.append(s);
    push_spaces(&mut out, pad - pad / 2);
    assert(out@ =~= centered(s@, width as nat));
    out
}

/// Cuts a name to what a column holds with a gap.
pub fn short(s: &str) -> (r: String)
    ensures
        r@ == shortened(s@),
{
    let n: usize = s.unicode_len();
    if n <= CELL_WIDTH - 2 {
        return s.to_owned();
    }
    let chars: Vec<char> = text::chars_of(s);
    let r: String = text::text_of(&chars, 0, CELL_WIDTH - 2);
    assert(chars@.subrange(0, CELL_WIDTH - 2) =~= s@.take(CELL_WIDTH - 2));
    r
}

/// What a note shows.
pub fn format_cell(note: &Note) -> (r: CellText)
    ensures
        r@ == note_text(note@),
{
    match note {
        Note::Name(s) => CellText::Text(s.clone()),
        Note::Hz(h) => {
            if h.is_less(Single::from_int(100)) {
                CellText::Tenths(*h)
            } else {
                let whole: u64 = h.to_natural();
                let kept: u64 = if whole > u32::MAX as u64 {
                    u32::MAX as u64
                } else {
                    whole
                };
                let mut out: String = String::new();
                text::push_digits(&mut out, kept);
                assert(out@ =~= text::digits(kept as nat));
                CellText::Text(out)
            }
        },
    }
}

fn slot(track: &Track, row: u32) -> (r: (CellText, bool))
    ensures
        r.0@ == slot_text(note_in(track@.cells, row)),
        r.1 == (note_in(track@.cells, row) is Some),
{
    match cells::find_cell(&track.cells, row) {
        None => (CellText::Text("    \u{b7}    ".to_owned()), false),
        Some(i) => {
            assert(track@.cells[i as int] == track.cells@[i as int]@);
            match format_cell(&track.cells[i].note) {
                CellText::Text(s) => (CellText::Text(center(s.as_str(), CELL_WIDTH)), true),
                CellText::Tenths(h) => (CellText::Tenths(h), true),
            }
        },
    }
}

/// What a list of rows is like.
pub open spec fn line_views(lines: Seq<GridLine>) -> Seq<GridLineModel> {
    lines.map_values(|l: GridLine| l@)
}

/// What a list of track heads is like.
pub open spec fn head_views(heads: Seq<TrackHead>) -> Seq<TrackHeadModel> {
    heads.map_values(|h: TrackHead| h@)
}

impl Editor {
    /// The row that shows the playhead.
    pub fn playhead(&self, sr: u32, frame: u64, paused: bool) -> (r: Option<u32>)
        requires
            self@.sound(),
        ensures
            r == self@.playhead(sr, frame, paused),
    {
        let (pat, row) = self.playing(sr, frame);
        if pat == self.current && !paused {
            Some(row)
        } else {
            None
        }
    }

    fn grid_line(&self, row: u32, playhead: Option<u32>) -> (r: GridLine)
        requires
            self@.sound(),
            self@.cur().lines_per_beat > 0,
        ensures
            r@ == self@.grid_line(row, playhead),
    {
        let p: &Pattern = self.cur();
        let playing: bool = match playhead {
            Some(r) => r == row,
            None => false,
        };
        let mut out: Vec<GridCell> = Vec::new();
        let mut t: usize = 0;
        while t < p.tracks.len()
            invariant
                t <= p.tracks@.len(),
                p@ == self@.cur(),
                playing == (playhead == Some(row)),
                out@.len() == t,
                forall|k: int| 0 <= k < t ==> (#[trigger] out@[k])@ == self@.grid_cell(row, k, playhead),
            decreases p.tracks.len() - t,
        {
            assert(self@.cur().tracks[t as int] == p.tracks@[t as int]@);
            let (text, filled) = slot(&p.tracks[t], row);
            let ground: Ground = if row == self.cursor_row && t == self.cursor_track {
                Ground::Cursor
            } else if playing {
                Ground::Playing
            } else if row == self.cursor_row {
                Ground::CursorRow
            } else {
                Ground::Plain
            };
            out.push(GridCell { text, filled, color: t % COLORS, ground });
            t = t + 1;
        }
        let r = GridLine { row, playing, beat: row % p.lines_per_beat == 0, cells: out };
        assert(r@.cells =~= self@.grid_line(row, playhead).cells);
        r
    }

    /// The rows of the grid that are in view on a grid of some lines.
    pub fn grid_lines(&self, playhead: Option<u32>, height: u16) -> (r: Vec<GridLine>)
        requires
            self@.sound(),
            self@.cur().lines_per_beat > 0,
        ensures
            line_views(r@) == Seq::new(
                (if self@.end_row(height) > self@.first_row() {
                    self@.end_row(height) - self@.first_row()
                } else {
                    0
                }) as nat,
                |i: int| self@.grid_line((self@.first_row() + i) as u32, playhead),
            ),
    {
        let rows: u32 = self.cur().rows;
        let last: u32 = if rows == 0 {
            0
        } else {
            rows - 1
        };
        let from: u32 = if self.scroll <= last {
            self.scroll
        } else {
            last
        };
        let lines: u32 = if height <= GRID_LINES {
            0
        } else {
            (height - GRID_LINES) as u32
        };
        let to: u32 = if rows < from || rows - from < lines {
            rows
        } else {
            from + lines
        };
        let mut out: Vec<GridLine> = Vec::new();
        let mut r: u32 = from;
        while r < to
            invariant
                self@.sound(),
                self@.cur().lines_per_beat > 0,
                from <= r,
                r <= to || r == from,
                from == self@.first_row(),
                to == self@.end_row(height),
                out@.len() == r - from,
                forall|k: int|
                    0 <= k < r - from ==> (#[trigger] out@[k])@ == self@.grid_line(
                        (from + k) as u32,
                        playhead,
                    ),
            decreases to - r,
        {
            out.push(self.grid_line(r, playhead));
            r = r + 1;
        }
        assert(line_views(out@) =~= Seq::new(
            (if self@.end_row(height) > self@.first_row() {
                self@.end_row(height) - self@.first_row()
            } else {
                0
            }) as nat,
            |i: int| self@.grid_line((self@.first_row() + i) as u32, playhead),
        ));
        out
    }

    /// The heads of the tracks.
    pub fn track_heads(&self) -> (r: Vec<TrackHead>)
        requires
            self@.sound(),
        ensures
            head_views(r@) == Seq::new(self@.cur().tracks.len(), |t: int| self@.track_head(t)),
    {
        let p: &Pattern = self.cur();
        let mut out: Vec<TrackHead> = Vec::new();
        let mut t: usize = 0;
        while t < p.tracks.len()
            invariant
                t <= p.tracks@.len(),
                p@ == self@.cur(),
                out@.len() == t,
                forall|k: int| 0 <= k < t ==> (#[trigger] out@[k])@ == self@.track_head(k),
            decreases p.tracks.len() - t,
        {
            assert(self@.cur().tracks[t as int] == p.tracks@[t as int]@);
            let name: String = short(p.tracks[t].name.as_str());
            out.push(
                TrackHead {
                    text: center(name.as_str(), CELL_WIDTH),
                    color: t % COLORS,
                    marked: t == self.cursor_track,
                },
            );
            t = t + 1;
        }
        assert(head_views(out@) =~= Seq::new(self@.cur().tracks.len(), |t: int| self@.track_head(t)));
        out
    }

    /// The header up to the tempo.
    pub fn header_start(&self) -> (r: String)
        requires
            self@.sound(),
        ensures
            r@ == self@.header_start(),
    {
        let mut out: String = " ".to_owned();
        match (&self.song.metadata.title, &self.cur().metadata.title) {
            (Some(t), _) => out.append(t.as_str()),
            (None, Some(t)) => out.append(t.as_str()),
            (None, None) => out.append("(untitled)"),
        }
        out.append(" \u{b7} pat ");
        text::push_two_digits(&mut out, self.current as u64);
        out.append("/");
        text::push_two_digits(&mut out, self.song.patterns.len() as u64 - 1);
        out.append(" \u{b7} ");
        out
    }

    /// The header behind the tempo.
    pub fn header_end(&self) -> (r: String)
        requires
            self@.sound(),
        ensures
            r@ == self@.header_end(),
    {
        let p: &Pattern = self.cur();
        let mut out: String = " BPM \u{b7} ".to_owned();
        text::push_digits(&mut out, p.rows as u64);
        out.append(" rows \u{b7} 1/");
        text::push_digits(&mut out, p.lines_per_beat as u64);
        out.append(" \u{b7} oct ");
        text::push_number(&mut out, self.octave as i64);
        out
    }

    /// The chip of a pattern in the song strip.
    pub fn chip(&self, i: usize, playing: bool) -> (r: String)
        requires
            i < self@.song.patterns.len(),
        ensures
            r@ == self@.chip(i as int, playing),
    {
        assert(self@.song.patterns[i as int] == self.song.patterns@[i as int]@);
        let mut out: String = " ".to_owned();
        out.append(
            if playing {
                "\u{25b6}"
            } else {
                " "
            },
        );
        text::push_two_digits(&mut out, i as u64);
        out.append("\u{b7}");
        text::push_digits(&mut out, self.song.patterns[i].rows as u64);
        out.append(" ");
        out
    }
}

/// Points of the scope on a screen of some columns.
pub open spec fn scope_bins(columns: u16) -> int {
    let inner = if columns < 3 { 1 } else { columns - 2 };
    if inner * 2 < 64 {
        64
    } else {
        inner * 2
    }
}

/// The frame of a point of the scope: the playhead is in the middle.
pub open spec fn scope_frame(total: int, head: u64, columns: u16, b: int) -> int {
    let bins = scope_bins(columns);
    let wide = SCOPE_FRAMES as int / bins;
    let step = if wide < 1 { 1 } else { wide };
    ((head as int % total - SCOPE_FRAMES as int / 2) % total + b * step) % total
}

/// The mean of the two channels of a frame.
pub open spec fn frame_mean(buffer: Seq<Single>, frame: int) -> Single {
    buffer[2 * frame].sum(buffer[2 * frame + 1]).product(Single::of_ratio(1, 2))
}

/// The points of the scope.
pub fn scope_points(buffer: &Vec<Single>, head: u64, columns: u16) -> (r: Vec<Single>)
    requires
        buffer@.len() >= 2,
    ensures
        r@ == Seq::new(
            scope_bins(columns) as nat,
            |b: int|
                frame_mean(buffer@, scope_frame(buffer@.len() as int / 2, head, columns, b)),
        ),
{
    let size: usize = buffer.len();
    let total: u64 = (size / 2) as u64;
    let inner: u64 = if columns < 3 {
        1
    } else {
        columns as u64 - 2
    };
    let bins: u64 = if inner * 2 < 64 {
        64
    } else {
        inner * 2
    };
    let wide: u64 = SCOPE_FRAMES as u64 / bins;
    assert(wide <= 64) by (nonlinear_arith)
        requires
            wide == 4096u64 / bins,
            bins >= 64,
    ;
    let step: u64 = if wide < 1 {
        1
    } else {
        wide
    };
    let back: u64 = (SCOPE_FRAMES as u64 / 2) % total;
    let at: u64 = head % total;
    let ghost full = total as int;
    proof {
        vstd::arithmetic::div_mod::lemma_sub_mod_noop_right(at as int, 2048, full);
        vstd::arithmetic::div_mod::lemma_mod_add_multiples_vanish(at - back, full);
    }
    let start: u64 = if at >= back {
        at - back
    } else {
        at + (total - back)
    };
    proof {
        vstd::arithmetic::div_mod::lemma_small_mod(start as nat, total as nat);
    }
    assert(start == (at - 2048) % full);
    let half: Single = Single::ratio(1, 2);
    let mut out: Vec<Single> = Vec::new();
    let mut b: u64 = 0;
    while b < bins
        invariant
            b <= bins,
            size == buffer@.len(),
            size >= 2,
            total == size / 2,
            bins == scope_bins(columns),
            64 <= bins <= 0x2_0000,
            full == total,
            step == if SCOPE_FRAMES as int / (bins as int) < 1 {
                1
            } else {
                SCOPE_FRAMES as int / (bins as int)
            },
            1 <= step <= 64,
            start < total,
            start == (head as int % full - 2048) % full,
            half == Single::of_ratio(1, 2),
            out@.len() == b,
            forall|k: int|
                0 <= k < b ==> #[trigger] out@[k] == frame_mean(
                    buffer@,
                    scope_frame(full, head, columns, k),
                ),
        decreases bins - b,
    {
        assert(b * step <= 0x2_0000 * 64) by (nonlinear_arith)
            requires
                b <= 0x2_0000,
                step <= 64,
        ;
        assert(0 <= b * step) by (nonlinear_arith);
        let far: u64 = (b * step) % total;
        proof {
            vstd::arithmetic::div_mod::lemma_add_mod_noop_right(start as int, b * step, full);
        }
        let sum: u64 = if start >= total - far {
            start - (total - far)
        } else {
            start + far
        };
        proof {
            vstd::arithmetic::div_mod::lemma_mod_add_multiples_vanish(sum as int, full);
            vstd::arithmetic::div_mod::lemma_small_mod(sum as nat, total as nat);
        }
        assert(sum == scope_frame(full, head, columns, b as int));
        let frame: usize = sum as usize;
        out.push(buffer[2 * frame].plus(buffer[2 * frame + 1]).times(half));
        b = b + 1;
    }
    assert(out@ =~= Seq::new(
        scope_bins(columns) as nat,
        |b: int| frame_mean(buffer@, scope_frame(buffer@.len() as int / 2, head, columns, b)),
    ));
    out
}

/// How loud a line of the scope is, in four steps.
pub open spec fn loudness(a: Single) -> int {
    if a.less(Single::of_ratio(15, 100)) {
        0
    } else if a.less(Single::of_ratio(4, 10)) {
        1
    } else if a.less(Single::of_ratio(7, 10)) {
        2
    } else {
        3
    }
}

/// How loud the line between two points of the scope is.
pub fn amp_level(a: Single, b: Single) -> (r: usize)
    ensures
        r == loudness(
            fx::size_of(a).larger(fx::size_of(b)).clamped(
                Single { bits: 0 },
                Single { bits: crate::single::ONE },
            ),
        ),
        r < 4,
{
    let x: Single = if a.is_negative() {
        a.negate()
    } else {
        a
    };
    let y: Single = if b.is_negative() {
        b.negate()
    } else {
        b
    };
    let z: Single = x.max(y).clamp(Single::of_bits(0), Single::of_bits(crate::single::ONE));
    if z.is_less(Single::ratio(15, 100)) {
        0
    } else if z.is_less(Single::ratio(4, 10)) {
        1
    } else if z.is_less(Single::ratio(7, 10)) {
        2
    } else {
        3
    }
}

/// The rows in view are rows of the pattern, and as many as fit.
pub proof fn law_view_is_on_grid(e: EditorModel, height: u16)
    requires
        e.sound(),
    ensures
        0 <= e.first_row() <= editor::before(e.cur().rows as int),
        e.end_row(height) <= e.cur().rows,
        height > GRID_LINES ==> e.end_row(height) - e.first_row() <= height - GRID_LINES,
{
}

/// A centred text keeps its characters and fills its width.
pub proof fn law_centered(s: Seq<char>, width: nat)
    ensures
        centered(s, width).len() == if s.len() >= width {
            s.len()
        } else {
            width
        },
        exists|i: int|
            0 <= i && i + s.len() <= centered(s, width).len() && #[trigger] centered(s, width).subrange(
                i,
                i + s.len(),
            ) == s,
{
    let i: int = if s.len() >= width { 0 } else { ((width - s.len()) as nat / 2) as int };
    assert(centered(s, width).subrange(i, i + s.len()) =~= s);
}

} // verus!
