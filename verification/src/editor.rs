//! The state of the tracker's editor, and what keys do to it.
//!
//! The editor holds a song and edits one of its patterns at a time. Playback
//! has two scopes: loop the current pattern, or play the whole song through.
//! Keys change the state at once; what they ask of the audio engine and of
//! the disk comes back as a list of actions.

use vstd::prelude::*;

use crate::cells;
use crate::note;
use crate::note::{format_note, is_note_letter, Note, NoteModel};
use crate::pattern;
use crate::pattern::{CellModel, Pattern, PatternModel, Track, TrackModel};
use crate::single::Single;
use crate::song;
use crate::song::{Song, SongModel};
use crate::table;
use crate::table::Replica;
use crate::text;

verus! {

/// Rows that the cursor keeps in view.
pub const VIEW_ROWS: u32 = 16;

/// The pattern of `20.0`, the slowest tempo.
pub const SLOWEST: u32 = 0x41a0_0000;

/// The pattern of `999.0`, the fastest tempo.
pub const FASTEST: u32 = 0x4479_c000;

/// Milliseconds that a status stays.
pub const STATUS_TIME: u64 = 1500;

/// What is played.
#[derive(Clone, Copy, Debug, PartialEq, Eq, Structural)]
pub enum PlayScope {
    /// Loop the pattern being edited.
    Pattern,
    /// Play every pattern in order, then loop.
    Song,
}

/// How a status is meant.
#[derive(Clone, Copy, Debug, PartialEq, Eq, Structural)]
pub enum StatusKind {
    Info,
    Done,
    Warn,
}

/// What a status says.
#[derive(Debug)]
pub enum Message {
    Text(String),
    /// A tempo, to be shown in whole beats per minute.
    Tempo(Single),
}

/// A status and when it was set, in milliseconds.
#[derive(Debug)]
pub struct Status {
    pub message: Message,
    pub at: u64,
    pub kind: StatusKind,
}

/// A key of the terminal.
#[derive(Clone, Copy, Debug, PartialEq, Eq, Structural)]
pub enum Key {
    Char(char),
    Esc,
    Up,
    Down,
    Left,
    Right,
    Tab,
    BackTab,
    PageUp,
    PageDown,
    Home,
    End,
    Enter,
    Delete,
    Backspace,
    Other,
}

/// What a key asks for.
#[derive(Clone, Copy, Debug, PartialEq, Eq, Structural)]
pub enum Action {
    Quit,
    TogglePause,
    Rewind,
    /// Render what is played.
    Render,
    /// Render what a cell edit has changed.
    RenderEdit,
    /// Let the cell of the cursor's track in a row sound by itself.
    Preview(u32),
    Save,
}

/// The state of the editor.
pub struct Editor {
    pub song: Song,
    /// Index of the pattern being edited.
    pub current: usize,
    /// The file was loaded in song format, or has been saved so.
    pub loaded_as_song: bool,
    /// When the file was last changed, as far as is known.
    pub last_mtime: Option<u128>,
    pub cursor_row: u32,
    pub cursor_track: usize,
    pub octave: i32,
    pub dirty: bool,
    pub skip_next_reload: bool,
    pub follow_playhead: bool,
    pub play_scope: PlayScope,
    pub status: Option<Status>,
    pub error: Option<String>,
    pub scroll: u32,
}

/// What a message says.
#[verifier::ext_equal]
pub enum MessageModel {
    Text(Seq<char>),
    Tempo(Single),
}

/// What a status says.
#[verifier::ext_equal]
pub struct StatusModel {
    pub message: MessageModel,
    pub at: u64,
    pub kind: StatusKind,
}

/// What the state of an editor says.
#[verifier::ext_equal]
pub struct EditorModel {
    pub song: SongModel,
    pub current: int,
    pub loaded_as_song: bool,
    pub last_mtime: Option<u128>,
    pub cursor_row: u32,
    pub cursor_track: int,
    pub octave: i32,
    pub dirty: bool,
    pub skip_next_reload: bool,
    pub follow_playhead: bool,
    pub play_scope: PlayScope,
    pub status: Option<StatusModel>,
    pub error: Option<Seq<char>>,
    pub scroll: u32,
}

impl View for Message {
    type V = MessageModel;

    open spec fn view(&self) -> MessageModel {
        match *self {
            Message::Text(s) => MessageModel::Text(s@),
            Message::Tempo(t) => MessageModel::Tempo(t),
        }
    }
}

impl View for Status {
    type V = StatusModel;

    open spec fn view(&self) -> StatusModel {
        StatusModel { message: self.message@, at: self.at, kind: self.kind }
    }
}

impl View for Editor {
    type V = EditorModel;

    open spec fn view(&self) -> EditorModel {
        EditorModel {
            song: self.song@,
            current: self.current as int,
            loaded_as_song: self.loaded_as_song,
            last_mtime: self.last_mtime,
            cursor_row: self.cursor_row,
            cursor_track: self.cursor_track as int,
            octave: self.octave,
            dirty: self.dirty,
            skip_next_reload: self.skip_next_reload,
            follow_playhead: self.follow_playhead,
            play_scope: self.play_scope,
            status: match self.status {
                Some(s) => Some(s@),
                None => None,
            },
            error: table::text(self.error),
            scroll: self.scroll,
        }
    }
}

/// One less, but not below zero.
pub open spec fn before(n: int) -> int {
    if n <= 0 {
        0
    } else {
        n - 1
    }
}

impl EditorModel {
    /// The pattern being edited.
    pub open spec fn cur(self) -> PatternModel {
        self.song.patterns[self.current]
    }

    /// What holds of every state: there is a pattern being edited, and the
    /// cursor is on its grid.
    pub open spec fn sound(self) -> bool {
        &&& 0 <= self.current < self.song.patterns.len()
        &&& self.cursor_row <= before(self.cur().rows as int)
        &&& 0 <= self.cursor_track <= before(self.cur().tracks.len() as int)
    }

    /// With the pattern being edited changed.
    pub open spec fn with_cur(self, p: PatternModel) -> EditorModel {
        EditorModel {
            song: SongModel { patterns: self.song.patterns.update(self.current, p), ..self.song },
            ..self
        }
    }

    /// With the cursor brought back onto the grid.
    pub open spec fn clamped(self) -> EditorModel {
        let row = before(self.cur().rows as int);
        let track = before(self.cur().tracks.len() as int);
        EditorModel {
            cursor_row: if self.cursor_row <= row { self.cursor_row } else { row as u32 },
            cursor_track: if self.cursor_track <= track { self.cursor_track } else { track },
            ..self
        }
    }

    /// With a status.
    pub open spec fn says(self, message: MessageModel, kind: StatusKind, now: u64) -> EditorModel {
        EditorModel { status: Some(StatusModel { message, at: now, kind }), ..self }
    }

    /// With the cursor moved through the rows, round the ends, and kept in
    /// view.
    pub open spec fn row_moved(self, delta: int) -> EditorModel {
        let rows = self.cur().rows as int;
        let row = (self.cursor_row + delta) % rows;
        if rows == 0 {
            self
        } else {
            EditorModel {
                cursor_row: row as u32,
                scroll: if row < self.scroll {
                    row as u32
                } else if row >= self.scroll + VIEW_ROWS {
                    (row - (VIEW_ROWS - 1)) as u32
                } else {
                    self.scroll
                },
                ..self
            }
        }
    }

    /// With the cursor moved through the tracks, round the ends.
    pub open spec fn track_moved(self, delta: int) -> EditorModel {
        let tracks = self.cur().tracks.len() as int;
        if tracks == 0 {
            self
        } else {
            EditorModel { cursor_track: (self.cursor_track + delta) % tracks, ..self }
        }
    }

    /// With the cells of the cursor's track changed; the same where there is
    /// no such track.
    pub open spec fn with_cells(self, change: spec_fn(Seq<CellModel>) -> Seq<CellModel>) -> EditorModel {
        let p = self.cur();
        if self.cursor_track >= p.tracks.len() {
            self
        } else {
            let t = p.tracks[self.cursor_track];
            self.with_cur(
                PatternModel {
                    tracks: p.tracks.update(
                        self.cursor_track,
                        TrackModel { cells: change(t.cells), ..t },
                    ),
                    ..p
                },
            )
        }
    }

    /// With a note under the cursor.
    pub open spec fn cell_set(self, note: NoteModel) -> EditorModel {
        self.with_cells(|c: Seq<CellModel>| cells::with_note(c, self.cursor_row, note))
    }

    /// With nothing under the cursor.
    pub open spec fn cell_cleared(self) -> EditorModel {
        self.with_cells(|c: Seq<CellModel>| cells::cleared(c, self.cursor_row))
    }

    /// Whether there is a cell under the cursor.
    pub open spec fn has_cell(self) -> bool {
        let p = self.cur();
        self.cursor_track < p.tracks.len() && cells::cleared(
            p.tracks[self.cursor_track].cells,
            self.cursor_row,
        ).len() != p.tracks[self.cursor_track].cells.len()
    }
}

/// The position `delta` steps from `at`, round the ends of `n` places.
fn step(at: u64, delta: i64, n: u64) -> (r: u64)
    requires
        at < n <= u64::MAX / 4,
    ensures
        r == (at + delta) % n as int,
        r < n,
{
    if delta >= 0 {
        let d: u64 = delta as u64 % n;
        proof {
            vstd::arithmetic::div_mod::lemma_add_mod_noop_right(at as int, delta as int, n as int);
        }
        (at + d) % n
    } else {
        let back: u64 = if delta == i64::MIN {
            0x8000_0000_0000_0000
        } else {
            (-delta) as u64
        };
        let d: u64 = back % n;
        proof {
            vstd::arithmetic::div_mod::lemma_sub_mod_noop_right(at as int, back as int, n as int);
            vstd::arithmetic::div_mod::lemma_mod_add_multiples_vanish(at - d, n as int);
        }
        (at + n - d) % n
    }
}

impl Editor {
    /// Starts on the first pattern of a song. A song of several patterns is
    /// played as a whole.
    pub fn new(song: Song, loaded_as_song: bool, mtime: Option<u128>) -> (r: Self)
        requires
            song.patterns@.len() > 0,
        ensures
            r@.sound(),
            r@ == (EditorModel {
                song: song@,
                current: 0,
                loaded_as_song,
                last_mtime: mtime,
                cursor_row: 0,
                cursor_track: 0,
                octave: 3,
                dirty: false,
                skip_next_reload: false,
                follow_playhead: true,
                play_scope: if song.patterns@.len() > 1 {
                    PlayScope::Song
                } else {
                    PlayScope::Pattern
                },
                status: None,
                error: None,
                scroll: 0,
            }),
    {
        let scope: PlayScope = if song.patterns.len() > 1 {
            PlayScope::Song
        } else {
            PlayScope::Pattern
        };
        Editor {
            song,
            current: 0,
            loaded_as_song,
            last_mtime: mtime,
            cursor_row: 0,
            cursor_track: 0,
            octave: 3,
            dirty: false,
            skip_next_reload: false,
            follow_playhead: true,
            play_scope: scope,
            status: None,
            error: None,
            scroll: 0,
        }
    }

    /// The pattern being edited.
    pub fn cur(&self) -> (r: &Pattern)
        requires
            self@.sound(),
        ensures
            r@ == self@.cur(),
            *r == self.song.patterns@[self.current as int],
    {
        &self.song.patterns[self.current]
    }

    /// Sets the status.
    pub fn set_status(&mut self, message: Message, kind: StatusKind, now: u64)
        ensures
            final(self)@ == old(self)@.says(message@, kind, now),
    {
        self.status = Some(Status { message, at: now, kind });
        assert(self@ =~= old(self)@.says(message@, kind, now));
    }

    fn set_text(&mut self, message: &str, kind: StatusKind, now: u64)
        ensures
            final(self)@ == old(self)@.says(MessageModel::Text(message@), kind, now),
    {
        self.set_status(Message::Text(message.to_owned()), kind, now);
    }

    pub(crate) fn clamp_cursor(&mut self)
        requires
            0 <= old(self)@.current < old(self)@.song.patterns.len(),
        ensures
            final(self)@ == old(self)@.clamped(),
    {
        assert(self@.cur() == self.song.patterns@[self.current as int]@);
        let rows: u32 = self.song.patterns[self.current].rows;
        let tracks: usize = self.song.patterns[self.current].tracks.len();
        let max_row: u32 = if rows == 0 {
            0
        } else {
            rows - 1
        };
        let max_track: usize = if tracks == 0 {
            0
        } else {
            tracks - 1
        };
        if self.cursor_row > max_row {
            self.cursor_row = max_row;
        }
        if self.cursor_track > max_track {
            self.cursor_track = max_track;
        }
        assert(self@ =~= old(self)@.clamped());
    }

    fn move_cursor_row(&mut self, delta: i64)
        requires
            old(self)@.sound(),
        ensures
            final(self)@ == old(self)@.row_moved(delta as int),
    {
        assert(self@.cur() == self.song.patterns@[self.current as int]@);
        let rows: u32 = self.song.patterns[self.current].rows;
        if rows == 0 {
            return;
        }
        let row: u32 = step(self.cursor_row as u64, delta, rows as u64) as u32;
        self.cursor_row = row;
        if row < self.scroll {
            self.scroll = row;
        } else if row as u64 >= self.scroll as u64 + VIEW_ROWS as u64 {
            self.scroll = row - (VIEW_ROWS - 1);
        }
        assert(self@ =~= old(self)@.row_moved(delta as int));
    }

    fn move_cursor_track(&mut self, forward: bool)
        requires
            old(self)@.sound(),
        ensures
            final(self)@ == old(self)@.track_moved(if forward { 1 } else { -1 }),
    {
        assert(self@.cur() == self.song.patterns@[self.current as int]@);
        let tracks: usize = self.song.patterns[self.current].tracks.len();
        if tracks == 0 {
            return;
        }
        let at: usize = self.cursor_track;
        self.cursor_track = next_index(at, tracks, forward);
        assert(self@ =~= old(self)@.track_moved(if forward { 1 } else { -1 }));
    }
}

/// The place behind or before another, round the ends of `n` places.
fn next_index(at: usize, n: usize, forward: bool) -> (r: usize)
    requires
        at < n,
    ensures
        r == (at + if forward { 1int } else { -1 }) % n as int,
        r < n,
{
    proof {
        if forward && at + 1 < n {
            vstd::arithmetic::div_mod::lemma_small_mod((at + 1) as nat, n as nat);
        } else if forward {
            vstd::arithmetic::div_mod::lemma_mod_self_0(n as int);
        } else if at > 0 {
            vstd::arithmetic::div_mod::lemma_small_mod((at - 1) as nat, n as nat);
        } else {
            vstd::arithmetic::div_mod::lemma_mod_add_multiples_vanish(-1, n as int);
            vstd::arithmetic::div_mod::lemma_small_mod((n - 1) as nat, n as nat);
        }
    }
    if forward {
        if at + 1 < n {
            at + 1
        } else {
            0
        }
    } else if at > 0 {
        at - 1
    } else {
        n - 1
    }
}

/// A state, and what is asked for in it.
#[verifier::ext_equal]
pub struct Step {
    pub state: EditorModel,
    pub actions: Seq<Action>,
}

/// A state with nothing asked for.
pub open spec fn quiet(state: EditorModel) -> Step {
    Step { state, actions: Seq::empty() }
}

/// A state whose sound starts anew.
pub open spec fn anew(state: EditorModel) -> Step {
    Step { state, actions: seq![Action::Rewind, Action::Render] }
}

/// A text with a number of two digits behind it.
pub open spec fn numbered(before: Seq<char>, n: int) -> MessageModel {
    MessageModel::Text(before + text::two_digits(n as nat))
}

impl EditorModel {
    /// The pattern `delta` further on, round the ends, is viewed; the view no
    /// longer follows the playhead.
    pub open spec fn pattern_selected(self, delta: int, now: u64) -> Step {
        let n = self.song.patterns.len() as int;
        let there = EditorModel {
            follow_playhead: false,
            current: (self.current + delta) % n,
            ..self
        }.clamped();
        let state = there.says(numbered("pattern "@, there.current), StatusKind::Info, now);
        if n <= 1 {
            quiet(self)
        } else if self.play_scope == PlayScope::Pattern {
            anew(state)
        } else {
            quiet(state)
        }
    }

    /// A copy of the pattern, with or without its cells, comes after it and
    /// is viewed.
    pub open spec fn pattern_added(self, with_cells: bool, now: u64) -> Step {
        let p = self.cur();
        let copy = if with_cells {
            p
        } else {
            PatternModel { tracks: cells::blanked(p.tracks), ..p }
        };
        anew(
            EditorModel {
                song: SongModel {
                    patterns: self.song.patterns.insert(self.current + 1, copy),
                    ..self.song
                },
                current: self.current + 1,
                ..self
            }.clamped().soiled().says(
                MessageModel::Text(
                    if with_cells {
                        "cloned pattern"@
                    } else {
                        "new pattern"@
                    },
                ),
                StatusKind::Done,
                now,
            ),
        )
    }

    /// Changed since it was saved.
    pub open spec fn soiled(self) -> EditorModel {
        EditorModel { dirty: true, ..self }
    }

    /// The pattern is gone; the last one stays.
    pub open spec fn pattern_deleted(self, now: u64) -> Step {
        let n = self.song.patterns.len() as int;
        if n <= 1 {
            quiet(
                self.says(
                    MessageModel::Text("can't delete the last pattern"@),
                    StatusKind::Warn,
                    now,
                ),
            )
        } else {
            anew(
                EditorModel {
                    song: SongModel { patterns: self.song.patterns.remove(self.current), ..self.song },
                    current: if self.current <= n - 2 { self.current } else { n - 2 },
                    ..self
                }.clamped().soiled().says(
                    MessageModel::Text("deleted pattern"@),
                    StatusKind::Info,
                    now,
                ),
            )
        }
    }

    /// The pattern changes places with its neighbour and stays in view;
    /// nothing happens at an end.
    pub open spec fn pattern_moved(self, delta: int, now: u64) -> Step {
        let n = self.song.patterns.len() as int;
        let to = self.current + delta;
        if n <= 1 || to < 0 || to >= n {
            quiet(self)
        } else {
            anew(
                EditorModel {
                    song: SongModel {
                        patterns: self.song.patterns.update(
                            self.current,
                            self.song.patterns[to],
                        ).update(to, self.cur()),
                        ..self.song
                    },
                    current: to,
                    ..self
                }.soiled().says(numbered("moved \u{2192} "@, to), StatusKind::Info, now),
            )
        }
    }

    /// The rows of the pattern, some beats longer or shorter: at least one
    /// beat, and as many as 32 bits count.
    pub open spec fn new_rows(self, delta: int) -> u32 {
        let p = self.cur();
        let beat = if p.lines_per_beat < 1 { 1 } else { p.lines_per_beat as int };
        let wanted = p.rows + beat * delta;
        if wanted < beat {
            beat as u32
        } else if wanted > u32::MAX {
            u32::MAX
        } else {
            wanted as u32
        }
    }

    /// The pattern is some beats longer or shorter; cells outside it are
    /// dropped.
    pub open spec fn rows_changed(self, delta: int, now: u64) -> Step {
        let p = self.cur();
        let rows = self.new_rows(delta);
        anew(
            self.with_cur(
                PatternModel { rows, tracks: cells::shortened(p.tracks, rows), ..p },
            ).clamped().soiled().says(
                MessageModel::Text("rows "@ + text::digits(rows as nat)),
                StatusKind::Info,
                now,
            ),
        )
    }

    /// The pattern is faster or slower, from 20 to 999 beats per minute.
    pub open spec fn tempo_changed(self, delta: Single, now: u64) -> Step {
        let p = self.cur();
        let tempo = p.tempo_bpm.sum(delta).clamped(
            Single { bits: SLOWEST },
            Single { bits: FASTEST },
        );
        anew(
            self.with_cur(PatternModel { tempo_bpm: tempo, ..p }).soiled().says(
                MessageModel::Tempo(tempo),
                StatusKind::Info,
                now,
            ),
        )
    }

    /// The scope is the other one.
    pub open spec fn scope_changed(self, now: u64) -> Step {
        let scope = match self.play_scope {
            PlayScope::Pattern => PlayScope::Song,
            PlayScope::Song => PlayScope::Pattern,
        };
        anew(
            EditorModel { play_scope: scope, ..self }.says(
                MessageModel::Text(
                    match scope {
                        PlayScope::Pattern => "scope: pattern loop"@,
                        PlayScope::Song => "scope: whole song"@,
                    },
                ),
                StatusKind::Info,
                now,
            ),
        )
    }

    /// The view follows the playhead, or no longer does.
    pub open spec fn follow_changed(self, now: u64) -> Step {
        let follow = !self.follow_playhead;
        quiet(
            EditorModel { follow_playhead: follow, ..self }.says(
                MessageModel::Text(
                    if follow {
                        "follow on"@
                    } else {
                        "follow off"@
                    },
                ),
                StatusKind::Info,
                now,
            ),
        )
    }

    /// The octave is that of a digit.
    pub open spec fn octave_chosen(self, d: char, now: u64) -> Step {
        let octave = (d as int - 48) as i32;
        quiet(
            EditorModel { octave, ..self }.says(
                MessageModel::Text("octave "@ + text::number(octave as int)),
                StatusKind::Info,
                now,
            ),
        )
    }

    /// The view no longer follows the playhead.
    pub open spec fn free(self) -> EditorModel {
        EditorModel { follow_playhead: false, ..self }
    }

    /// The name of the note that a letter enters: an uppercase letter is
    /// sharp.
    pub open spec fn note_entered(self, ch: char) -> Seq<char> {
        let sharp = 'A' <= ch <= 'Z';
        let letter = if sharp { ch } else { (ch as int - 32) as char };
        note::note_name(letter, sharp, self.octave as int)
    }

    /// A note is under the cursor, is heard, and the cursor is a row further
    /// on.
    pub open spec fn note_set(self, ch: char, now: u64) -> Step {
        let name = self.note_entered(ch);
        Step {
            state: self.cell_set(NoteModel::Name(name)).soiled().row_moved(1).says(
                MessageModel::Text("set "@ + name),
                StatusKind::Info,
                now,
            ),
            actions: seq![Action::RenderEdit, Action::Preview(self.cursor_row)],
        }
    }

    /// What is under the cursor is gone.
    pub open spec fn note_cleared(self, now: u64) -> Step {
        if self.has_cell() {
            Step {
                state: self.cell_cleared().soiled().says(
                    MessageModel::Text("cleared"@),
                    StatusKind::Info,
                    now,
                ),
                actions: seq![Action::RenderEdit],
            }
        } else {
            quiet(self.cell_cleared())
        }
    }

    /// What a character does.
    pub open spec fn typed(self, ch: char, control: bool, now: u64) -> Step {
        if ch == 'q' || (ch == 'c' && control) {
            Step { state: self, actions: seq![Action::Quit] }
        } else if ch == ' ' {
            Step { state: self, actions: seq![Action::TogglePause] }
        } else if ch == 'R' || (ch == 'r' && control) {
            Step { state: self, actions: seq![Action::Rewind] }
        } else if ch == 'm' {
            self.scope_changed(now)
        } else if ch == ']' {
            self.pattern_selected(1, now)
        } else if ch == '[' {
            self.pattern_selected(-1, now)
        } else if ch == 'n' {
            self.pattern_added(false, now)
        } else if ch == 'N' {
            self.pattern_added(true, now)
        } else if ch == 'x' {
            self.pattern_deleted(now)
        } else if ch == '=' || ch == '+' {
            self.rows_changed(1, now)
        } else if ch == '-' || ch == '_' {
            self.rows_changed(-1, now)
        } else if ch == '.' {
            self.tempo_changed(Single::of_int(1), now)
        } else if ch == ',' {
            self.tempo_changed(Single::of_int(-1), now)
        } else if ch == '>' {
            self.tempo_changed(Single::of_int(10), now)
        } else if ch == '<' {
            self.tempo_changed(Single::of_int(-10), now)
        } else if ch == 'f' {
            self.follow_changed(now)
        } else if '1' <= ch <= '9' {
            self.octave_chosen(ch, now)
        } else if note::letter_offset(ch) is Some {
            self.note_set(ch, now)
        } else if ch == 's' {
            Step { state: self, actions: seq![Action::Save] }
        } else {
            quiet(self)
        }
    }

    /// What a key does, alone or with the control key.
    pub open spec fn pressed(self, key: Key, control: bool, now: u64) -> Step {
        let beat = self.cur().lines_per_beat as int;
        match key {
            Key::Char(ch) => self.typed(ch, control, now),
            Key::Esc => Step { state: self, actions: seq![Action::Quit] },
            Key::Left => if control {
                self.pattern_moved(-1, now)
            } else {
                quiet(self.track_moved(-1))
            },
            Key::Right => if control {
                self.pattern_moved(1, now)
            } else {
                quiet(self.track_moved(1))
            },
            Key::Tab => quiet(self.track_moved(1)),
            Key::BackTab => quiet(self.track_moved(-1)),
            Key::Up => quiet(self.free().row_moved(-1)),
            Key::Down => quiet(self.free().row_moved(1)),
            Key::PageUp => quiet(self.free().row_moved(-beat)),
            Key::PageDown => quiet(self.free().row_moved(beat)),
            Key::Home => quiet(EditorModel { cursor_row: 0, ..self.free() }),
            Key::End => quiet(
                EditorModel { cursor_row: before(self.cur().rows as int) as u32, ..self.free() },
            ),
            Key::Enter => Step { state: self, actions: seq![Action::Preview(self.cursor_row)] },
            Key::Delete => self.note_cleared(now),
            Key::Backspace => self.note_cleared(now),
            Key::Other => quiet(self),
        }
    }
}

/// Whether a state and a list of actions are those of a step.
pub open spec fn takes(step: Step, state: EditorModel, actions: Seq<Action>) -> bool {
    state == step.state && actions == step.actions
}

fn none() -> (r: Vec<Action>)
    ensures
        r@ == Seq::<Action>::empty(),
{
    Vec::new()
}

fn one(action: Action) -> (r: Vec<Action>)
    ensures
        r@ == seq![action],
{
    let mut out: Vec<Action> = Vec::new();
    out.push(action);
    assert(out@ =~= seq![action]);
    out
}

fn two(first: Action, second: Action) -> (r: Vec<Action>)
    ensures
        r@ == seq![first, second],
{
    let mut out: Vec<Action> = Vec::new();
    out.push(first);
    out.push(second);
    assert(out@ =~= seq![first, second]);
    out
}

fn restart() -> (r: Vec<Action>)
    ensures
        r@ == seq![Action::Rewind, Action::Render],
{
    two(Action::Rewind, Action::Render)
}

fn number_text(before: &str, n: usize) -> (r: Message)
    ensures
        r@ == numbered(before@, n as int),
{
    let mut out: String = before.to_owned();
    text::push_two_digits(&mut out, n as u64);
    Message::Text(out)
}

impl Editor {
    fn select_pattern(&mut self, forward: bool, now: u64) -> (r: Vec<Action>)
        requires
            old(self)@.sound(),
        ensures
            takes(
                old(self)@.pattern_selected(if forward { 1 } else { -1 }, now),
                final(self)@,
                r@,
            ),
            final(self)@.sound(),
    {
        let n: usize = self.song.patterns.len();
        if n <= 1 {
            return none();
        }
        self.follow_playhead = false;
        let at: usize = self.current;
        self.current = next_index(at, n, forward);
        assert(self@ =~= (EditorModel {
            follow_playhead: false,
            current: (old(self)@.current + if forward {
                1int
            } else {
                -1
            }) % n as int,
            ..old(self)@
        }));
        self.clamp_cursor();
        let here: usize = self.current;
        self.set_status(number_text("pattern ", here), StatusKind::Info, now);
        if self.play_scope == PlayScope::Pattern {
            restart()
        } else {
            none()
        }
    }

    fn add_pattern(&mut self, with_cells: bool, now: u64) -> (r: Vec<Action>)
        requires
            old(self)@.sound(),
            old(self)@.song.patterns.len() < usize::MAX,
        ensures
            takes(old(self)@.pattern_added(with_cells, now), final(self)@, r@),
            final(self)@.sound(),
    {
        assert(self@.cur() == self.song.patterns@[self.current as int]@);
        let mut p: Pattern = self.song.patterns[self.current].replica();
        if !with_cells {
            cells::blank(&mut p.tracks);
        }
        let ghost copy = if with_cells {
            self@.cur()
        } else {
            PatternModel { tracks: cells::blanked(self@.cur().tracks), ..self@.cur() }
        };
        assert(p@ =~= copy);
        let ghost patterns = self.song.patterns@;
        self.current = self.current + 1;
        self.song.patterns.insert(self.current, p);
        assert(song::pattern_views(self.song.patterns@) =~= song::pattern_views(patterns).insert(
            self.current as int,
            p@,
        ));
        assert(self@ =~= (EditorModel {
            song: SongModel {
                patterns: old(self)@.song.patterns.insert(old(self)@.current + 1, copy),
                ..old(self)@.song
            },
            current: old(self)@.current + 1,
            ..old(self)@
        }));
        self.clamp_cursor();
        let ghost clamped = self@;
        self.dirty = true;
        assert(self@ =~= clamped.soiled());
        self.set_text(
            if with_cells {
                "cloned pattern"
            } else {
                "new pattern"
            },
            StatusKind::Done,
            now,
        );
        restart()
    }

    fn delete_pattern(&mut self, now: u64) -> (r: Vec<Action>)
        requires
            old(self)@.sound(),
        ensures
            takes(old(self)@.pattern_deleted(now), final(self)@, r@),
            final(self)@.sound(),
    {
        let n: usize = self.song.patterns.len();
        if n <= 1 {
            self.set_text("can't delete the last pattern", StatusKind::Warn, now);
            return none();
        }
        let ghost patterns = self.song.patterns@;
        let at: usize = self.current;
        let _gone: Pattern = self.song.patterns.remove(at);
        assert(song::pattern_views(self.song.patterns@) =~= song::pattern_views(patterns).remove(at as int));
        if self.current > n - 2 {
            self.current = n - 2;
        }
        assert(self@ =~= (EditorModel {
            song: SongModel {
                patterns: old(self)@.song.patterns.remove(old(self)@.current),
                ..old(self)@.song
            },
            current: if old(self)@.current <= n - 2 {
                old(self)@.current
            } else {
                n - 2
            },
            ..old(self)@
        }));
        self.clamp_cursor();
        let ghost clamped = self@;
        self.dirty = true;
        assert(self@ =~= clamped.soiled());
        self.set_text("deleted pattern", StatusKind::Info, now);
        restart()
    }

    fn move_pattern(&mut self, forward: bool, now: u64) -> (r: Vec<Action>)
        requires
            old(self)@.sound(),
        ensures
            takes(
                old(self)@.pattern_moved(if forward { 1 } else { -1 }, now),
                final(self)@,
                r@,
            ),
            final(self)@.sound(),
    {
        let n: usize = self.song.patterns.len();
        let at: usize = self.current;
        if n <= 1 || (forward && at >= n - 1) || (!forward && at == 0) {
            return none();
        }
        let to: usize = if forward {
            at + 1
        } else {
            at - 1
        };
        let ghost patterns = self.song.patterns@;
        let ghost views = song::pattern_views(patterns);
        let p: Pattern = self.song.patterns.remove(at);
        self.song.patterns.insert(to, p);
        self.current = to;
        assert(song::pattern_views(self.song.patterns@) =~= views.update(
            at as int,
            views[to as int],
        ).update(to as int, views[at as int]));
        self.dirty = true;
        assert(self@ =~= (EditorModel {
            song: SongModel {
                patterns: old(self)@.song.patterns.update(
                    old(self)@.current,
                    old(self)@.song.patterns[to as int],
                ).update(to as int, old(self)@.cur()),
                ..old(self)@.song
            },
            current: to as int,
            ..old(self)@
        }).soiled());
        self.set_status(number_text("moved \u{2192} ", to), StatusKind::Info, now);
        restart()
    }

    fn change_rows(&mut self, longer: bool, now: u64) -> (r: Vec<Action>)
        requires
            old(self)@.sound(),
        ensures
            takes(old(self)@.rows_changed(if longer { 1 } else { -1 }, now), final(self)@, r@),
            final(self)@.sound(),
    {
        assert(self@.cur() == self.song.patterns@[self.current as int]@);
        let ghost patterns = self.song.patterns@;
        let at: usize = self.current;
        let mut p: Pattern = self.song.patterns.remove(at);
        let beat: u32 = if p.lines_per_beat < 1 {
            1
        } else {
            p.lines_per_beat
        };
        let rows: u32 = if longer {
            if p.rows > u32::MAX - beat {
                u32::MAX
            } else {
                p.rows + beat
            }
        } else if p.rows < beat || p.rows - beat < beat {
            beat
        } else {
            p.rows - beat
        };
        assert(rows == old(self)@.new_rows(if longer { 1 } else { -1 }));
        p.rows = rows;
        cells::shorten(&mut p.tracks, rows);
        let ghost changed = PatternModel {
            rows,
            tracks: cells::shortened(old(self)@.cur().tracks, rows),
            ..old(self)@.cur()
        };
        assert(p@ =~= changed);
        self.song.patterns.insert(at, p);
        assert(song::pattern_views(self.song.patterns@) =~= song::pattern_views(patterns).update(
            at as int,
            p@,
        ));
        assert(self@ =~= old(self)@.with_cur(changed));
        self.clamp_cursor();
        let ghost clamped = self@;
        self.dirty = true;
        assert(self@ =~= clamped.soiled());
        let mut message: String = "rows ".to_owned();
        text::push_digits(&mut message, rows as u64);
        self.set_status(Message::Text(message), StatusKind::Info, now);
        restart()
    }

    fn change_tempo(&mut self, delta: Single, now: u64) -> (r: Vec<Action>)
        requires
            old(self)@.sound(),
        ensures
            takes(old(self)@.tempo_changed(delta, now), final(self)@, r@),
            final(self)@.sound(),
    {
        assert(self@.cur() == self.song.patterns@[self.current as int]@);
        let ghost patterns = self.song.patterns@;
        let at: usize = self.current;
        let mut p: Pattern = self.song.patterns.remove(at);
        let tempo: Single = p.tempo_bpm.plus(delta).clamp(
            Single::of_bits(SLOWEST),
            Single::of_bits(FASTEST),
        );
        p.tempo_bpm = tempo;
        let ghost changed = PatternModel { tempo_bpm: tempo, ..old(self)@.cur() };
        assert(p@ =~= changed);
        self.song.patterns.insert(at, p);
        assert(song::pattern_views(self.song.patterns@) =~= song::pattern_views(patterns).update(
            at as int,
            p@,
        ));
        self.dirty = true;
        assert(self@ =~= old(self)@.with_cur(changed).soiled());
        self.set_status(Message::Tempo(tempo), StatusKind::Info, now);
        restart()
    }

    fn set_cell(&mut self, note: Note)
        requires
            old(self)@.sound(),
        ensures
            final(self)@ == old(self)@.cell_set(note@),
            final(self)@.sound(),
    {
        let at: usize = self.current;
        let track: usize = self.cursor_track;
        let row: u32 = self.cursor_row;
        assert(self@.cur() == self.song.patterns@[at as int]@);
        if track >= self.song.patterns[at].tracks.len() {
            return;
        }
        let ghost patterns = self.song.patterns@;
        let mut p: Pattern = self.song.patterns.remove(at);
        let ghost tracks = p.tracks@;
        let mut t: Track = p.tracks.remove(track);
        let ghost old_track = t@;
        cells::set_note(&mut t.cells, row, note);
        let ghost new_track = TrackModel {
            cells: cells::with_note(old_track.cells, row, note@),
            ..old_track
        };
        assert(t@ =~= new_track);
        p.tracks.insert(track, t);
        assert(pattern::track_views(p.tracks@) =~= pattern::track_views(tracks).update(
            track as int,
            new_track,
        ));
        let ghost changed = PatternModel {
            tracks: old(self)@.cur().tracks.update(track as int, new_track),
            ..old(self)@.cur()
        };
        assert(p@ =~= changed);
        self.song.patterns.insert(at, p);
        assert(song::pattern_views(self.song.patterns@) =~= song::pattern_views(patterns).update(
            at as int,
            p@,
        ));
        assert(self@ =~= old(self)@.with_cur(changed));
    }

    fn clear_cell(&mut self) -> (r: bool)
        requires
            old(self)@.sound(),
        ensures
            final(self)@ == old(self)@.cell_cleared(),
            r == old(self)@.has_cell(),
            final(self)@.sound(),
    {
        let at: usize = self.current;
        let track: usize = self.cursor_track;
        let row: u32 = self.cursor_row;
        assert(self@.cur() == self.song.patterns@[at as int]@);
        if track >= self.song.patterns[at].tracks.len() {
            return false;
        }
        let ghost patterns = self.song.patterns@;
        let mut p: Pattern = self.song.patterns.remove(at);
        let ghost tracks = p.tracks@;
        let mut t: Track = p.tracks.remove(track);
        let ghost old_track = t@;
        let changed_any: bool = cells::clear_row(&mut t.cells, row);
        let ghost new_track = TrackModel { cells: cells::cleared(old_track.cells, row), ..old_track };
        assert(t@ =~= new_track);
        assert(new_track.cells.len() == t.cells@.len());
        p.tracks.insert(track, t);
        assert(pattern::track_views(p.tracks@) =~= pattern::track_views(tracks).update(
            track as int,
            new_track,
        ));
        let ghost changed = PatternModel {
            tracks: old(self)@.cur().tracks.update(track as int, new_track),
            ..old(self)@.cur()
        };
        assert(p@ =~= changed);
        self.song.patterns.insert(at, p);
        assert(song::pattern_views(self.song.patterns@) =~= song::pattern_views(patterns).update(
            at as int,
            p@,
        ));
        assert(self@ =~= old(self)@.with_cur(changed));
        changed_any
    }
}

impl Editor {
    fn toggle_scope(&mut self, now: u64) -> (r: Vec<Action>)
        requires
            old(self)@.sound(),
        ensures
            takes(old(self)@.scope_changed(now), final(self)@, r@),
            final(self)@.sound(),
    {
        let scope: PlayScope = match self.play_scope {
            PlayScope::Pattern => PlayScope::Song,
            PlayScope::Song => PlayScope::Pattern,
        };
        self.play_scope = scope;
        assert(self@ =~= (EditorModel { play_scope: scope, ..old(self)@ }));
        self.set_text(
            match scope {
                PlayScope::Pattern => "scope: pattern loop",
                PlayScope::Song => "scope: whole song",
            },
            StatusKind::Info,
            now,
        );
        restart()
    }

    fn toggle_follow(&mut self, now: u64) -> (r: Vec<Action>)
        requires
            old(self)@.sound(),
        ensures
            takes(old(self)@.follow_changed(now), final(self)@, r@),
            final(self)@.sound(),
    {
        let follow: bool = !self.follow_playhead;
        self.follow_playhead = follow;
        assert(self@ =~= (EditorModel { follow_playhead: follow, ..old(self)@ }));
        self.set_text(
            if follow {
                "follow on"
            } else {
                "follow off"
            },
            StatusKind::Info,
            now,
        );
        none()
    }

    fn choose_octave(&mut self, d: char, now: u64) -> (r: Vec<Action>)
        requires
            old(self)@.sound(),
            '1' <= d <= '9',
        ensures
            takes(old(self)@.octave_chosen(d, now), final(self)@, r@),
            final(self)@.sound(),
    {
        let octave: i32 = (d as u32 - 48) as i32;
        self.octave = octave;
        assert(self@ =~= (EditorModel { octave, ..old(self)@ }));
        let mut message: String = "octave ".to_owned();
        text::push_number(&mut message, octave as i64);
        self.set_status(Message::Text(message), StatusKind::Info, now);
        none()
    }

    fn enter_note(&mut self, ch: char, now: u64) -> (r: Vec<Action>)
        requires
            old(self)@.sound(),
            note::letter_offset(ch) is Some,
        ensures
            takes(old(self)@.note_set(ch, now), final(self)@, r@),
            final(self)@.sound(),
    {
        let sharp: bool = ch >= 'A' && ch <= 'Z';
        let letter: char = if sharp {
            ch
        } else {
            (ch as u8 - 32) as char
        };
        let name: String = format_note(letter, sharp, self.octave);
        let row: u32 = self.cursor_row;
        self.set_cell(Note::Name(name.clone()));
        let ghost set = self@;
        self.dirty = true;
        assert(self@ =~= set.soiled());
        self.move_cursor_row(1);
        let mut message: String = "set ".to_owned();
        message.append(name.as_str());
        self.set_status(Message::Text(message), StatusKind::Info, now);
        proof {
            vstd::arithmetic::div_mod::lemma_mod_bound(
                old(self)@.cursor_row + 1,
                if old(self)@.cur().rows == 0 {
                    1
                } else {
                    old(self)@.cur().rows as int
                },
            );
        }
        two(Action::RenderEdit, Action::Preview(row))
    }

    fn delete_note(&mut self, now: u64) -> (r: Vec<Action>)
        requires
            old(self)@.sound(),
        ensures
            takes(old(self)@.note_cleared(now), final(self)@, r@),
            final(self)@.sound(),
    {
        if self.clear_cell() {
            let ghost cleared = self@;
            self.dirty = true;
            assert(self@ =~= cleared.soiled());
            self.set_text("cleared", StatusKind::Info, now);
            one(Action::RenderEdit)
        } else {
            none()
        }
    }

    fn handle_char(&mut self, ch: char, control: bool, now: u64) -> (r: Vec<Action>)
        requires
            old(self)@.sound(),
            old(self)@.song.patterns.len() < usize::MAX,
        ensures
            takes(old(self)@.typed(ch, control, now), final(self)@, r@),
            final(self)@.sound(),
    {
        if ch == 'q' || (ch == 'c' && control) {
            one(Action::Quit)
        } else if ch == ' ' {
            one(Action::TogglePause)
        } else if ch == 'R' || (ch == 'r' && control) {
            one(Action::Rewind)
        } else if ch == 'm' {
            self.toggle_scope(now)
        } else if ch == ']' {
            self.select_pattern(true, now)
        } else if ch == '[' {
            self.select_pattern(false, now)
        } else if ch == 'n' {
            self.add_pattern(false, now)
        } else if ch == 'N' {
            self.add_pattern(true, now)
        } else if ch == 'x' {
            self.delete_pattern(now)
        } else if ch == '=' || ch == '+' {
            self.change_rows(true, now)
        } else if ch == '-' || ch == '_' {
            self.change_rows(false, now)
        } else if ch == '.' {
            self.change_tempo(Single::from_int(1), now)
        } else if ch == ',' {
            self.change_tempo(Single::from_int(-1), now)
        } else if ch == '>' {
            self.change_tempo(Single::from_int(10), now)
        } else if ch == '<' {
            self.change_tempo(Single::from_int(-10), now)
        } else if ch == 'f' {
            self.toggle_follow(now)
        } else if ch >= '1' && ch <= '9' {
            self.choose_octave(ch, now)
        } else if is_note_letter(ch) {
            self.enter_note(ch, now)
        } else if ch == 's' {
            one(Action::Save)
        } else {
            none()
        }
    }

    fn go_rows(&mut self, delta: i64) -> (r: Vec<Action>)
        requires
            old(self)@.sound(),
        ensures
            takes(quiet(old(self)@.free().row_moved(delta as int)), final(self)@, r@),
            final(self)@.sound(),
    {
        self.follow_playhead = false;
        assert(self@ =~= old(self)@.free());
        self.move_cursor_row(delta);
        proof {
            vstd::arithmetic::div_mod::lemma_mod_bound(
                old(self)@.cursor_row + delta,
                if old(self)@.cur().rows == 0 {
                    1
                } else {
                    old(self)@.cur().rows as int
                },
            );
        }
        none()
    }

    fn go_tracks(&mut self, forward: bool) -> (r: Vec<Action>)
        requires
            old(self)@.sound(),
        ensures
            takes(quiet(old(self)@.track_moved(if forward { 1 } else { -1 })), final(self)@, r@),
            final(self)@.sound(),
    {
        self.move_cursor_track(forward);
        proof {
            let n: int = old(self)@.cur().tracks.len() as int;
            vstd::arithmetic::div_mod::lemma_mod_bound(
                old(self)@.cursor_track + if forward {
                    1int
                } else {
                    -1
                },
                if n == 0 {
                    1
                } else {
                    n
                },
            );
        }
        none()
    }

    /// Takes a key, alone or with the control key, and gives what it asks
    /// for, in order.
    pub fn handle_key(&mut self, key: Key, control: bool, now: u64) -> (r: Vec<Action>)
        requires
            old(self)@.sound(),
            old(self)@.song.patterns.len() < usize::MAX,
        ensures
            takes(old(self)@.pressed(key, control, now), final(self)@, r@),
            final(self)@.sound(),
    {
        assert(self@.cur() == self.song.patterns@[self.current as int]@);
        let beat: i64 = self.song.patterns[self.current].lines_per_beat as i64;
        match key {
            Key::Char(ch) => self.handle_char(ch, control, now),
            Key::Esc => one(Action::Quit),
            Key::Left => if control {
                self.move_pattern(false, now)
            } else {
                self.go_tracks(false)
            },
            Key::Right => if control {
                self.move_pattern(true, now)
            } else {
                self.go_tracks(true)
            },
            Key::Tab => self.go_tracks(true),
            Key::BackTab => self.go_tracks(false),
            Key::Up => self.go_rows(-1),
            Key::Down => self.go_rows(1),
            Key::PageUp => self.go_rows(-beat),
            Key::PageDown => self.go_rows(beat),
            Key::Home => {
                self.follow_playhead = false;
                self.cursor_row = 0;
                assert(self@ =~= (EditorModel { cursor_row: 0, ..old(self)@.free() }));
                none()
            },
            Key::End => {
                let rows: u32 = self.song.patterns[self.current].rows;
                self.follow_playhead = false;
                self.cursor_row = if rows == 0 {
                    0
                } else {
                    rows - 1
                };
                assert(self@ =~= (EditorModel {
                    cursor_row: before(old(self)@.cur().rows as int) as u32,
                    ..old(self)@.free()
                }));
                none()
            },
            Key::Enter => {
                let row: u32 = self.cursor_row;
                one(Action::Preview(row))
            },
            Key::Delete => self.delete_note(now),
            Key::Backspace => self.delete_note(now),
            Key::Other => none(),
        }
    }
}

/// A pattern that is moved one place and back is where it was, and so are all
/// others.
pub proof fn law_move_there_and_back(e: EditorModel, delta: int, now: u64)
    requires
        e.sound(),
        delta == 1 || delta == -1,
        0 <= e.current + delta < e.song.patterns.len(),
    ensures
        e.pattern_moved(delta, now).state.pattern_moved(-delta, now).state.song == e.song,
        e.pattern_moved(delta, now).state.pattern_moved(-delta, now).state.current == e.current,
{
    let there: EditorModel = e.pattern_moved(delta, now).state;
    let back: EditorModel = there.pattern_moved(-delta, now).state;
    assert(back.song.patterns =~= e.song.patterns);
    assert(back.song =~= e.song);
}

/// Selecting the next pattern and then the one before it comes back.
pub proof fn law_select_there_and_back(e: EditorModel, now: u64)
    requires
        e.sound(),
    ensures
        e.pattern_selected(1, now).state.pattern_selected(-1, now).state.current == e.current,
        e.pattern_selected(1, now).state.pattern_selected(-1, now).state.song == e.song,
{
    let n: int = e.song.patterns.len() as int;
    let a: int = (e.current + 1) % n;
    if e.current + 1 < n {
        vstd::arithmetic::div_mod::lemma_small_mod((e.current + 1) as nat, n as nat);
        vstd::arithmetic::div_mod::lemma_small_mod(e.current as nat, n as nat);
    } else {
        vstd::arithmetic::div_mod::lemma_mod_self_0(n);
        vstd::arithmetic::div_mod::lemma_mod_add_multiples_vanish(-1, n);
        vstd::arithmetic::div_mod::lemma_small_mod((n - 1) as nat, n as nat);
    }
}

/// A pattern that is added and deleted at once leaves the song as it was.
pub proof fn law_add_then_delete(e: EditorModel, with_cells: bool, now: u64)
    requires
        e.sound(),
    ensures
        e.pattern_added(with_cells, now).state.pattern_deleted(now).state.song == e.song,
{
    let added: EditorModel = e.pattern_added(with_cells, now).state;
    let after: EditorModel = added.pattern_deleted(now).state;
    assert(after.song.patterns =~= e.song.patterns);
    assert(after.song =~= e.song);
}

/// The last pattern cannot be deleted.
pub proof fn law_last_pattern_stays(e: EditorModel, now: u64)
    requires
        e.sound(),
    ensures
        e.pattern_deleted(now).state.song.patterns.len() >= 1,
        e.song.patterns.len() == 1 ==> e.pattern_deleted(now).state.song == e.song,
{
}

/// Changing the scope twice changes nothing but the status.
pub proof fn law_scope_twice(e: EditorModel, now: u64)
    ensures
        e.scope_changed(now).state.scope_changed(now).state == (EditorModel {
            status: e.scope_changed(now).state.scope_changed(now).state.status,
            ..e
        }),
{
}

/// A note is put under the cursor whatever was there: its row holds it.
pub proof fn law_entered_note_is_found(e: EditorModel, ch: char, now: u64)
    requires
        e.sound(),
        note::letter_offset(ch) is Some,
        e.cursor_track < e.cur().tracks.len(),
    ensures
        ({
            let after = e.note_set(ch, now).state.cur().tracks[e.cursor_track].cells;
            exists|i: int|
                0 <= i < after.len() && (#[trigger] after[i]).row == e.cursor_row && after[i].note
                    == NoteModel::Name(e.note_entered(ch))
        }),
{
    let note: NoteModel = NoteModel::Name(e.note_entered(ch));
    let before: Seq<CellModel> = e.cur().tracks[e.cursor_track].cells;
    cells::law_set_note_is_found(before, e.cursor_row, note);
    let after: Seq<CellModel> = e.note_set(ch, now).state.cur().tracks[e.cursor_track].cells;
    assert(after == cells::with_note(before, e.cursor_row, note));
}

/// A pattern keeps at least one beat, and no cell outside its rows.
pub proof fn law_shortened_pattern(e: EditorModel, delta: int, now: u64, t: int, i: int)
    requires
        e.sound(),
        0 <= t < e.cur().tracks.len(),
        0 <= i < e.rows_changed(delta, now).state.cur().tracks[t].cells.len(),
    ensures
        e.rows_changed(delta, now).state.cur().rows >= e.cur().lines_per_beat,
        e.rows_changed(delta, now).state.cur().rows >= 1,
        e.rows_changed(delta, now).state.cur().tracks[t].cells[i].row < e.rows_changed(
            delta,
            now,
        ).state.cur().rows,
{
    let rows: u32 = e.new_rows(delta);
    let stays = |c: CellModel| c.row < rows;
    let before: Seq<CellModel> = e.cur().tracks[t].cells;
    let after: Seq<CellModel> = e.rows_changed(delta, now).state.cur().tracks[t].cells;
    assert(after == cells::cut(before, rows));
    before.lemma_filter_pred(stays, i);
}

/// The tempo stays from 20 to 999 beats per minute, whatever it was, unless
/// it is not a number.
pub proof fn law_tempo_in_range(e: EditorModel, delta: Single, now: u64)
    requires
        e.sound(),
    ensures
        ({
            let tempo = e.tempo_changed(delta, now).state.cur().tempo_bpm;
            tempo.nan() || {
                &&& (Single { bits: SLOWEST }).at_most(tempo)
                &&& tempo.at_most(Single { bits: FASTEST })
            }
        }),
{
}

} // verus!
