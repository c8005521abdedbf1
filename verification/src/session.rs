//! What the editor and the player have to do with each other and with the
//! file on disk.

use vstd::prelude::*;

use crate::cells;
use crate::compile;
use crate::double::Double;
use crate::editor;
use crate::editor::{
    Action, Editor, EditorModel, Message, MessageModel, PlayScope, StatusKind, STATUS_TIME,
};
use crate::pattern;
use crate::pattern::{
    Cell, CellModel, Pattern, PatternError, PatternFault, PatternMetadata, PatternModel, PatternNotes,
    Track, TrackModel,
};
use crate::piece::{Piece, PieceModel};
use crate::single::Single;
use crate::song;
use crate::song::{Song, SongMetadata, SongModel, SongNotes};
use crate::table;
use crate::table::{copy_text, Replica};

verus! {

/// Lines of the screen that the grid does not have.
pub const FIXED_LINES: u16 = 18;

/// Rows of a preview.
pub const PREVIEW_ROWS: u32 = 16;

/// Where a pattern stands on the song's timeline, in frames.
#[derive(Clone, Copy, Debug, PartialEq, Eq, Structural)]
pub struct Placement {
    pub start_frame: u64,
    pub len_frames: u64,
    pub spr: u64,
    pub rows: u32,
}

/// A number kept to 64 bits.
pub open spec fn kept(n: int) -> u64 {
    if n > u64::MAX {
        u64::MAX
    } else {
        n as u64
    }
}

impl PatternModel {
    /// The pattern at another rate.
    pub open spec fn at_rate(self, sr: u32) -> PatternModel {
        PatternModel { sample_rate: sr, ..self }
    }

    /// Frames to the row at a rate: at least one.
    pub open spec fn frames_per_row(self, sr: u32) -> u64 {
        let n = self.at_rate(sr).row_length().nearest();
        if n < 1 {
            1
        } else {
            n as u64
        }
    }
}

impl SongModel {
    /// The song at another rate.
    pub open spec fn at_rate(self, sr: u32) -> SongModel {
        SongModel { patterns: self.patterns.map_values(|p: PatternModel| p.at_rate(sr)), ..self }
    }

    /// Where the `i`th pattern starts.
    pub open spec fn start(self, sr: u32, i: int) -> u64
        decreases i,
    {
        if i <= 0 {
            0
        } else {
            let p = self.patterns[i - 1];
            kept(self.start(sr, i - 1) + kept(p.frames_per_row(sr) * p.rows))
        }
    }

    /// Where the `i`th pattern stands.
    pub open spec fn placement(self, sr: u32, i: int) -> Placement {
        let p = self.patterns[i];
        Placement {
            start_frame: self.start(sr, i),
            len_frames: kept(p.frames_per_row(sr) * p.rows),
            spr: p.frames_per_row(sr),
            rows: p.rows,
        }
    }

    /// The first pattern from `i` on that is under a frame, and the row of
    /// it; the first row of the last pattern where there is none.
    pub open spec fn under(self, sr: u32, frame: u64, i: int) -> (int, u32)
        decreases self.patterns.len() - i,
    {
        if i < 0 || i >= self.patterns.len() {
            (editor::before(self.patterns.len() as int), 0)
        } else {
            let pl = self.placement(sr, i);
            if pl.len_frames > 0 && pl.start_frame <= frame < kept(pl.start_frame + pl.len_frames) {
                let row = (frame - pl.start_frame) / pl.spr as int;
                (
                    i,
                    if row <= editor::before(pl.rows as int) {
                        row as u32
                    } else {
                        editor::before(pl.rows as int) as u32
                    },
                )
            } else {
                self.under(sr, frame, i + 1)
            }
        }
    }
}

impl EditorModel {
    /// The pattern and row under the playhead.
    pub open spec fn playing(self, sr: u32, frame: u64) -> (int, u32) {
        match self.play_scope {
            PlayScope::Pattern => {
                let p = self.cur();
                let rows = if p.rows < 1 { 1 } else { p.rows as int };
                (self.current, ((frame / p.frames_per_row(sr)) as int % rows) as u32)
            },
            PlayScope::Song => self.song.under(sr, frame, 0),
        }
    }

    /// The view follows the playhead on a screen of some lines: to the
    /// pattern that plays, and with the row that plays in the middle.
    pub open spec fn followed(self, sr: u32, frame: u64, height: u16) -> EditorModel {
        let (pat, row) = self.playing(sr, frame);
        let there = if self.play_scope == PlayScope::Song && pat != self.current {
            EditorModel { current: pat, ..self }.clamped()
        } else {
            self
        };
        let visible = if height <= FIXED_LINES { 1 } else { height - FIXED_LINES };
        let half = visible / 2;
        let top = if row > half { row - half } else { 0 };
        let rows = there.cur().rows as int;
        let last = if rows > visible { rows - visible } else { 0 };
        if self.follow_playhead {
            EditorModel { scroll: (if top <= last { top } else { last }) as u32, ..there }
        } else {
            self
        }
    }

    /// A status that has been shown for long enough is gone.
    pub open spec fn aged(self, now: u64) -> EditorModel {
        if self.status is Some && now - self.status->0.at > STATUS_TIME {
            EditorModel { status: None, ..self }
        } else {
            self
        }
    }

    /// The file may have changed: whether it is to be read again.
    pub open spec fn reload_due(self, mtime: Option<u128>) -> bool {
        mtime is Some && mtime != self.last_mtime && !self.skip_next_reload
    }

    /// The state after a look at the file.
    pub open spec fn watched(self, mtime: Option<u128>) -> EditorModel {
        if mtime is Some && mtime != self.last_mtime {
            EditorModel { last_mtime: mtime, skip_next_reload: false, ..self }
        } else {
            self
        }
    }

    /// The state with a song that was read again.
    pub open spec fn reloaded(self, s: SongModel, as_song: bool, now: u64) -> EditorModel {
        let last = editor::before(s.patterns.len() as int);
        EditorModel {
            error: None,
            ..EditorModel {
                song: s,
                loaded_as_song: as_song,
                current: if self.current <= last { self.current } else { last },
                ..self
            }.clamped()
        }.says(MessageModel::Text("reloaded from disk"@), StatusKind::Done, now)
    }

    /// Whether the file is to be written as a song: it was one, or there are
    /// several patterns.
    pub open spec fn saves_as_song(self) -> bool {
        self.loaded_as_song || self.song.patterns.len() > 1
    }

    /// The state after the file was written.
    pub open spec fn saved(self, mtime: Option<u128>, now: u64) -> EditorModel {
        EditorModel { dirty: false, skip_next_reload: true, last_mtime: mtime, ..self }.says(
            MessageModel::Text("saved"@),
            StatusKind::Done,
            now,
        )
    }

    /// A pattern in which the cell of the cursor's track in a row sounds by
    /// itself.
    pub open spec fn preview(self, row: u32, sr: u32) -> Option<PatternModel> {
        let p = self.cur();
        if self.cursor_track >= p.tracks.len() {
            None
        } else {
            let t = p.tracks[self.cursor_track];
            let i = cells::find(t.cells, row, 0);
            if i >= t.cells.len() {
                None
            } else {
                Some(
                    PatternModel {
                        sample_rate: sr,
                        tempo_bpm: p.tempo_bpm,
                        lines_per_beat: p.lines_per_beat,
                        rows: PREVIEW_ROWS,
                        voices: p.voices,
                        samples: p.samples,
                        tracks: seq![
                            TrackModel { cells: seq![CellModel { row: 0, ..t.cells[i] }], ..t },
                        ],
                        metadata: PatternNotes { title: None, author: None },
                    },
                )
            }
        }
    }
}

/// Frames to the row of a pattern at a rate.
pub fn spr_at(p: &Pattern, sr: u32) -> (r: u64)
    ensures
        r == p@.frames_per_row(sr),
        r >= 1,
{
    reveal(PatternModel::row_length);
    let rate: Double = Double::from_natural(sr as u64).times(Double::from_natural(60));
    let beats: Double = Double::from_single(p.tempo_bpm).times(
        Double::from_natural(p.lines_per_beat as u64),
    );
    let n: u64 = rate.over(beats).to_nearest();
    if n < 1 {
        1
    } else {
        n
    }
}

fn times_kept(a: u64, b: u32) -> (r: u64)
    ensures
        r == kept(a * b),
{
    match a.checked_mul(b as u64) {
        Some(n) => n,
        None => u64::MAX,
    }
}

fn plus_kept(a: u64, b: u64) -> (r: u64)
    ensures
        r == kept(a + b),
{
    a.saturating_add(b)
}

impl Editor {
    /// Where each pattern stands when the whole song is rendered at a rate.
    pub fn layout(&self, sr: u32) -> (r: Vec<Placement>)
        ensures
            r@ == Seq::new(self@.song.patterns.len(), |i: int| self@.song.placement(sr, i)),
    {
        let mut out: Vec<Placement> = Vec::new();
        let mut off: u64 = 0;
        let mut i: usize = 0;
        while i < self.song.patterns.len()
            invariant
                i <= self.song.patterns@.len(),
                out@.len() == i,
                off == self@.song.start(sr, i as int),
                forall|k: int| 0 <= k < i ==> #[trigger] out@[k] == self@.song.placement(sr, k),
            decreases self.song.patterns.len() - i,
        {
            let p: &Pattern = &self.song.patterns[i];
            assert(self@.song.patterns[i as int] == p@);
            let spr: u64 = spr_at(p, sr);
            let len: u64 = times_kept(spr, p.rows);
            out.push(Placement { start_frame: off, len_frames: len, spr, rows: p.rows });
            off = plus_kept(off, len);
            i = i + 1;
        }
        assert(out@ =~= Seq::new(self@.song.patterns.len(), |i: int| self@.song.placement(sr, i)));
        out
    }

    /// The pattern and row under the playhead.
    pub fn playing(&self, sr: u32, frame: u64) -> (r: (usize, u32))
        requires
            self@.sound(),
        ensures
            (r.0 as int, r.1) == self@.playing(sr, frame),
    {
        match self.play_scope {
            PlayScope::Pattern => {
                let p: &Pattern = self.cur();
                let spr: u64 = spr_at(p, sr);
                let rows: u64 = if p.rows < 1 {
                    1
                } else {
                    p.rows as u64
                };
                (self.current, ((frame / spr) % rows) as u32)
            },
            PlayScope::Song => {
                let layout: Vec<Placement> = self.layout(sr);
                let n: usize = layout.len();
                let mut i: usize = 0;
                while i < n
                    invariant
                        i <= n,
                        self.play_scope == PlayScope::Song,
                        n == layout@.len(),
                        n == self@.song.patterns.len(),
                        layout@ == Seq::new(
                            self@.song.patterns.len(),
                            |i: int| self@.song.placement(sr, i),
                        ),
                        self@.song.under(sr, frame, 0) == self@.song.under(sr, frame, i as int),
                    decreases n - i,
                {
                    let pl: Placement = layout[i];
                    assert(pl == self@.song.placement(sr, i as int));
                    let end: u64 = plus_kept(pl.start_frame, pl.len_frames);
                    if pl.len_frames > 0 && frame < end && frame >= pl.start_frame {
                        let last: u64 = if pl.rows == 0 {
                            0
                        } else {
                            pl.rows as u64 - 1
                        };
                        let row: u64 = (frame - pl.start_frame) / pl.spr;
                        return (
                            i,
                            if row <= last {
                                row as u32
                            } else {
                                last as u32
                            },
                        );
                    }
                    i = i + 1;
                }
                (
                    if n == 0 {
                        0
                    } else {
                        n - 1
                    },
                    0,
                )
            },
        }
    }
}

impl Editor {
    /// Lets the view follow the playhead.
    pub fn follow(&mut self, sr: u32, frame: u64, height: u16)
        requires
            old(self)@.sound(),
        ensures
            final(self)@ == old(self)@.followed(sr, frame, height),
            final(self)@.sound(),
    {
        if !self.follow_playhead {
            return;
        }
        let (pat, row) = self.playing(sr, frame);
        proof {
            lemma_under(self@.song, sr, frame, 0);
        }
        if self.play_scope == PlayScope::Song && pat != self.current {
            self.current = pat;
            assert(self@ =~= (EditorModel { current: pat as int, ..old(self)@ }));
            self.clamp_cursor();
        }
        let ghost there = self@;
        assert(self@.cur() == self.song.patterns@[self.current as int]@);
        let visible: u32 = if height <= FIXED_LINES {
            1
        } else {
            (height - FIXED_LINES) as u32
        };
        let half: u32 = visible / 2;
        let top: u32 = if row > half {
            row - half
        } else {
            0
        };
        let rows: u32 = self.song.patterns[self.current].rows;
        let last: u32 = if rows > visible {
            rows - visible
        } else {
            0
        };
        let scroll: u32 = if top <= last {
            top
        } else {
            last
        };
        self.scroll = scroll;
        assert(self@ =~= (EditorModel { scroll, ..there }));
    }

    /// Lets a status that has been shown for long enough go.
    pub fn age_status(&mut self, now: u64)
        ensures
            final(self)@ == old(self)@.aged(now),
    {
        let over: bool = match &self.status {
            Some(s) => now > s.at && now - s.at > STATUS_TIME,
            None => false,
        };
        if over {
            self.status = None;
        }
        assert(self@ =~= old(self)@.aged(now));
    }

    /// Looks at when the file was last changed; says whether to read it
    /// again. A change that the editor made itself is passed over.
    pub fn watch(&mut self, mtime: Option<u128>) -> (r: bool)
        ensures
            r == old(self)@.reload_due(mtime),
            final(self)@ == old(self)@.watched(mtime),
    {
        match mtime {
            None => false,
            Some(t) => {
                let same: bool = match self.last_mtime {
                    Some(l) => l == t,
                    None => false,
                };
                if same {
                    return false;
                }
                self.last_mtime = Some(t);
                let skip: bool = self.skip_next_reload;
                self.skip_next_reload = false;
                assert(self@ =~= old(self)@.watched(mtime));
                !skip
            },
        }
    }

    /// Takes a song that was read again; it is to be rendered.
    pub fn reload(&mut self, song: Song, as_song: bool, now: u64) -> (r: Action)
        requires
            song.patterns@.len() > 0,
        ensures
            r == Action::Render,
            final(self)@ == old(self)@.reloaded(song@, as_song, now),
            final(self)@.sound(),
    {
        let last: usize = song.patterns.len() - 1;
        self.song = song;
        self.loaded_as_song = as_song;
        if self.current > last {
            self.current = last;
        }
        assert(self@ =~= (EditorModel {
            song: song@,
            loaded_as_song: as_song,
            current: if old(self)@.current <= last {
                old(self)@.current
            } else {
                last as int
            },
            ..old(self)@
        }));
        self.clamp_cursor();
        let ghost clamped = self@;
        self.error = None;
        assert(self@ =~= (EditorModel { error: None, ..clamped }));
        self.set_status(
            Message::Text("reloaded from disk".to_owned()),
            StatusKind::Done,
            now,
        );
        Action::Render
    }

    /// Reports that the file could not be read again.
    pub fn reload_failed(&mut self, why: &str)
        ensures
            final(self)@ == (EditorModel { error: Some("reload: "@ + why@), ..old(self)@ }),
    {
        let mut message: String = "reload: ".to_owned();
        message.append(why);
        self.error = Some(message);
        assert(self@ =~= (EditorModel { error: Some("reload: "@ + why@), ..old(self)@ }));
    }

    /// Whether to write the file as a song. A file that has been a song
    /// remains one.
    pub fn save_as_song(&mut self) -> (r: bool)
        ensures
            r == old(self)@.saves_as_song(),
            final(self)@ == (EditorModel {
                loaded_as_song: old(self)@.saves_as_song(),
                ..old(self)@
            }),
    {
        let as_song: bool = self.loaded_as_song || self.song.patterns.len() > 1;
        self.loaded_as_song = as_song;
        assert(self@ =~= (EditorModel { loaded_as_song: as_song, ..old(self)@ }));
        as_song
    }

    /// Takes note that the file was written.
    pub fn save_done(&mut self, mtime: Option<u128>, now: u64)
        ensures
            final(self)@ == old(self)@.saved(mtime, now),
    {
        self.dirty = false;
        self.skip_next_reload = true;
        self.last_mtime = mtime;
        assert(self@ =~= (EditorModel {
            dirty: false,
            skip_next_reload: true,
            last_mtime: mtime,
            ..old(self)@
        }));
        self.set_status(Message::Text("saved".to_owned()), StatusKind::Done, now);
    }

    /// Reports that the file could not be written.
    pub fn save_failed(&mut self, why: &str, now: u64)
        ensures
            final(self)@ == old(self)@.says(
                MessageModel::Text("save failed: "@ + why@),
                StatusKind::Warn,
                now,
            ),
    {
        let mut message: String = "save failed: ".to_owned();
        message.append(why);
        self.set_status(Message::Text(message), StatusKind::Warn, now);
    }

    /// Compiles the pattern being edited at a rate.
    pub fn compile_pattern(&self, sr: u32) -> (r: Result<Piece, PatternError>)
        requires
            self@.sound(),
        ensures
            compile::settles(self@.cur().at_rate(sr).draft(1), compile::outcome(r)),
    {
        let mut p: Pattern = self.cur().replica();
        p.sample_rate = sr;
        assert(p@ =~= self@.cur().at_rate(sr));
        p.compile()
    }

    /// Compiles the whole song at a rate.
    pub fn compile_song(&self, sr: u32) -> (r: Result<Piece, PatternError>)
        ensures
            song::settles(self@.song.at_rate(sr).draft(), compile::outcome(r)),
    {
        let mut patterns: Vec<Pattern> = Vec::new();
        let mut i: usize = 0;
        while i < self.song.patterns.len()
            invariant
                i <= self.song.patterns@.len(),
                patterns@.len() == i,
                forall|k: int|
                    0 <= k < i ==> (#[trigger] patterns@[k])@ == self@.song.at_rate(sr).patterns[k],
            decreases self.song.patterns.len() - i,
        {
            let mut p: Pattern = self.song.patterns[i].replica();
            p.sample_rate = sr;
            assert(p@ =~= self@.song.at_rate(sr).patterns[i as int]);
            patterns.push(p);
            i = i + 1;
        }
        let song: Song = Song {
            patterns,
            metadata: SongMetadata {
                title: copy_text(&self.song.metadata.title),
                author: copy_text(&self.song.metadata.author),
            },
        };
        assert(song@.patterns =~= self@.song.at_rate(sr).patterns);
        assert(song@ =~= self@.song.at_rate(sr));
        song.compile()
    }

    /// Compiles what is played at a rate.
    pub fn compile_scope(&self, sr: u32) -> (r: Result<Piece, PatternError>)
        requires
            self@.sound(),
        ensures
            match self.play_scope {
                PlayScope::Pattern => compile::settles(
                    self@.cur().at_rate(sr).draft(1),
                    compile::outcome(r),
                ),
                PlayScope::Song => song::settles(
                    self@.song.at_rate(sr).draft(),
                    compile::outcome(r),
                ),
            },
    {
        match self.play_scope {
            PlayScope::Pattern => self.compile_pattern(sr),
            PlayScope::Song => self.compile_song(sr),
        }
    }

    /// Compiles the cell of the cursor's track in a row by itself; nothing
    /// where there is none or where it does not compile.
    pub fn compile_preview(&self, row: u32, sr: u32) -> (r: Option<Piece>)
        requires
            self@.sound(),
        ensures
            match self@.preview(row, sr) {
                None => r is None,
                Some(p) => match r {
                    Some(made) => p.draft(1) == Ok::<PieceModel, PatternFault>(made@) && made@.valid(),
                    None => p.draft(1) is Err || !p.draft(1)->Ok_0.valid(),
                },
            },
    {
        let p: &Pattern = self.cur();
        let at: usize = self.cursor_track;
        if at >= p.tracks.len() {
            return None;
        }
        assert(p@.tracks[at as int] == p.tracks@[at as int]@);
        let i: usize = match cells::find_cell(&p.tracks[at].cells, row) {
            Some(i) => i,
            None => {
                return None;
            },
        };
        let mut cell: Cell = p.tracks[at].cells[i].replica();
        cell.row = 0;
        assert(cell@ =~= (CellModel { row: 0, ..p@.tracks[at as int].cells[i as int] }));
        let mut track: Track = p.tracks[at].replica();
        track.cells = vec![cell];
        assert(pattern::cell_views(track.cells@) =~= seq![cell@]);
        assert(track@ =~= (TrackModel { cells: seq![cell@], ..p@.tracks[at as int] }));
        let mini: Pattern = Pattern {
            sample_rate: sr,
            tempo_bpm: p.tempo_bpm,
            lines_per_beat: p.lines_per_beat,
            rows: PREVIEW_ROWS,
            voices: p.voices.replica(),
            samples: p.samples.replica(),
            tracks: vec![track],
            metadata: PatternMetadata { title: None, author: None },
        };
        assert(pattern::track_views(mini.tracks@) =~= seq![track@]);
        assert(mini@ =~= self@.preview(row, sr)->0);
        match mini.compile() {
            Ok(made) => Some(made),
            Err(_) => None,
        }
    }
}

proof fn lemma_under(s: SongModel, sr: u32, frame: u64, i: int)
    requires
        0 <= i <= s.patterns.len(),
        s.patterns.len() > 0,
    ensures
        0 <= s.under(sr, frame, i).0 < s.patterns.len(),
        s.under(sr, frame, i).1 <= editor::before(s.patterns[s.under(sr, frame, i).0].rows as int),
    decreases s.patterns.len() - i,
{
    if i < s.patterns.len() {
        lemma_under(s, sr, frame, i + 1);
        let pl: Placement = s.placement(sr, i);
        if pl.len_frames > 0 && pl.start_frame <= frame < kept(pl.start_frame + pl.len_frames) {
            let x: int = frame - pl.start_frame;
            let d: int = pl.spr as int;
            assert(0 <= x / d) by (nonlinear_arith)
                requires
                    x >= 0,
                    d >= 1,
            ;
        }
    }
}

/// What plays is always a pattern of the song and a row of it.
pub proof fn law_playing_is_on_grid(e: EditorModel, sr: u32, frame: u64)
    requires
        e.sound(),
    ensures
        0 <= e.playing(sr, frame).0 < e.song.patterns.len(),
        e.playing(sr, frame).1 <= editor::before(e.song.patterns[e.playing(sr, frame).0].rows as int),
{
    lemma_under(e.song, sr, frame, 0);
    let rows: int = if e.cur().rows < 1 { 1 } else { e.cur().rows as int };
    vstd::arithmetic::div_mod::lemma_mod_bound((frame / e.cur().frames_per_row(sr)) as int, rows);
}

/// Saving and then looking at the file reads nothing back: the change is the
/// editor's own.
pub proof fn law_own_save_is_not_reloaded(e: EditorModel, written: Option<u128>, seen: Option<u128>, now: u64)
    ensures
        !e.saved(written, now).reload_due(seen),
{
}

/// Whether a buffer can take a patch of a region.
pub open spec fn fits(buffer: Seq<Single>, patch: Seq<Single>, start_frame: u64, len_frames: u64) -> bool {
    patch.len() == 2 * len_frames && 2 * start_frame + 2 * len_frames <= buffer.len()
}

/// A buffer with a patch in place of a region.
pub open spec fn patched(buffer: Seq<Single>, patch: Seq<Single>, start_frame: u64) -> Seq<Single> {
    Seq::new(
        buffer.len(),
        |i: int|
            if 2 * start_frame <= i < 2 * start_frame + patch.len() {
                patch[i - 2 * start_frame]
            } else {
                buffer[i]
            },
    )
}

/// Splices a newly rendered pattern into its region of the song's buffer;
/// nothing where the two do not line up.
pub fn splice(buffer: &Vec<Single>, patch: &Vec<Single>, start_frame: u64, len_frames: u64) -> (r: Option<
    Vec<Single>,
>)
    ensures
        r is Some <==> fits(buffer@, patch@, start_frame, len_frames),
        r matches Some(v) ==> v@ == patched(buffer@, patch@, start_frame),
{
    let total: usize = buffer.len();
    let region: u128 = 2 * len_frames as u128;
    let begin: u128 = 2 * start_frame as u128;
    if patch.len() as u128 != region || begin + region > total as u128 {
        return None;
    }
    let start: usize = begin as usize;
    let n: usize = patch.len();
    let mut out: Vec<Single> = Vec::new();
    let mut i: usize = 0;
    while i < total
        invariant
            i <= total,
            total == buffer@.len(),
            n == patch@.len(),
            start == 2 * start_frame,
            start + n <= total,
            out@.len() == i,
            forall|k: int| 0 <= k < i ==> #[trigger] out@[k] == patched(buffer@, patch@, start_frame)[k],
        decreases total - i,
    {
        if i >= start && i - start < n {
            out.push(patch[i - start]);
        } else {
            out.push(buffer[i]);
        }
        i = i + 1;
    }
    assert(out@ =~= patched(buffer@, patch@, start_frame));
    Some(out)
}

/// The song in a file: a song with patterns, or else a single pattern; and
/// whether it was a song.
pub fn read_song(song: Option<Song>, pattern: Option<Pattern>) -> (r: Option<(Song, bool)>)
    ensures
        r == if song is Some && song->0.patterns@.len() > 0 {
            Some((song->0, true))
        } else {
            r
        },
        !(song is Some && song->0.patterns@.len() > 0) ==> match (r, pattern) {
            (Some((s, as_song)), Some(p)) => {
                &&& !as_song
                &&& s.patterns@ == seq![p]
                &&& s.metadata@ == (SongNotes { title: None, author: None })
            },
            (None, None) => true,
            _ => false,
        },
        r matches Some((s, _)) ==> s.patterns@.len() > 0,
{
    if let Some(s) = song {
        if s.patterns.len() > 0 {
            return Some((s, true));
        }
    }
    match pattern {
        Some(p) => {
            let patterns: Vec<Pattern> = vec![p];
            assert(patterns@ =~= seq![p]);
            Some((Song { patterns, metadata: SongMetadata { title: None, author: None } }, false))
        },
        None => None,
    }
}

/// Whether a file has changed since it was last looked at.
pub fn has_changed(mtime: Option<u128>, last: Option<u128>) -> (r: bool)
    ensures
        r == (mtime is Some && mtime != last),
{
    match (mtime, last) {
        (Some(a), Some(b)) => a != b,
        (Some(_), None) => true,
        (None, _) => false,
    }
}

} // verus!
