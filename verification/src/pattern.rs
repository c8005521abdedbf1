//! Tracker-style pattern authoring.
//!
//! A pattern is the unit that an editor changes: a tempo, a row grid, and one
//! or more tracks holding sparse cells. Patterns compile down to pieces; a
//! renderer never sees patterns, only events.

use vstd::prelude::*;

use crate::double::Double;
use crate::note;
use crate::note::{Note, NoteModel};
use crate::piece;
use crate::piece::{
    Envelope, FxNode, Pitch, PitchEnv, SampleModel, SampleRef, ValidationError, ValidationFault,
    VoiceDef, VoiceModel,
};
use crate::presets;
use crate::single::Single;
use crate::table;
use crate::table::{copy_list, copy_text, Replica, Table};

verus! {

/// One tracker pattern. A pattern is `rows` long; at tempo `tempo_bpm` with
/// `lines_per_beat` rows per beat, each row is `samples_per_row()` samples.
pub struct Pattern {
    pub sample_rate: u32,
    pub tempo_bpm: Single,
    /// Rows per beat. 4 = 16th-note resolution; 8 = 32nd-note.
    pub lines_per_beat: u32,
    /// Pattern length in rows.
    pub rows: u32,
    pub voices: Table<VoiceDef>,
    pub samples: Table<SampleRef>,
    pub tracks: Vec<Track>,
    pub metadata: PatternMetadata,
}

/// Notes about a pattern that do not sound.
#[derive(Debug)]
pub struct PatternMetadata {
    pub title: Option<String>,
    pub author: Option<String>,
}

/// One track: a voice with a set of defaults and a sparse list of cells (only
/// filled rows are stored).
#[derive(Debug)]
pub struct Track {
    pub name: String,
    /// If set, the instrument of this name gives every field that the track
    /// leaves out, and its voice joins the voices of the pattern.
    pub instrument: Option<String>,
    /// The name of a voice of the pattern. Where it is left out, the name of
    /// the instrument.
    pub voice: Option<String>,
    pub default_amp: Option<Single>,
    pub default_pan: Option<Single>,
    pub default_envelope: Option<Envelope>,
    pub default_fx: Option<Vec<FxNode>>,
    /// How long each trigger sounds, in rows.
    pub default_duration_rows: Option<Single>,
    pub default_pitch_env: Option<PitchEnv>,
    pub cells: Vec<Cell>,
}

/// One trigger of a track.
#[derive(Debug)]
pub struct Cell {
    pub row: u32,
    pub note: Note,
    /// Playback-rate multiplier for sample voices.
    pub pitch_ratio: Option<Single>,
    pub velocity: Option<Single>,
    pub duration_rows: Option<Single>,
    /// Pan (-1.0 = left, +1.0 = right) in place of the track's.
    pub pan: Option<Single>,
    /// Effects in place of the track's, if there are any.
    pub fx: Vec<FxNode>,
    /// Pitch envelope in place of the track's.
    pub pitch_env: Option<PitchEnv>,
}

/// Why a pattern or a song does not compile.
#[derive(Debug)]
pub enum PatternError {
    /// A track, and the voice that nothing defines.
    UnknownVoice(String, String),
    /// A cell below the last row.
    CellOutOfRange { track: String, row: u32, rows: u32 },
    /// No rows, or no rows to the beat.
    DegenerateGrid,
    /// A field from which no row length follows.
    InvalidGrid { field: &'static str, value: Double },
    /// More samples than can be counted.
    GridOverflow,
    /// The compiled piece cannot be rendered.
    Validation(ValidationError),
    /// A track, and what is wrong with one of its notes.
    BadNote(String, String),
    UnknownInstrument(String),
    /// A track with neither a voice nor an instrument.
    TrackMissingVoice(String),
    /// A track, and a field that neither it nor an instrument gives.
    TrackMissingField(String, &'static str),
    EmptySong,
    SongSampleRateMismatch { expected: u32, found: u32 },
}

/// What a cell says.
#[verifier::ext_equal]
pub struct CellModel {
    pub row: u32,
    pub note: NoteModel,
    pub pitch_ratio: Option<Single>,
    pub velocity: Option<Single>,
    pub duration_rows: Option<Single>,
    pub pan: Option<Single>,
    pub fx: Seq<FxNode>,
    pub pitch_env: Option<PitchEnv>,
}

/// What a track says.
#[verifier::ext_equal]
pub struct TrackModel {
    pub name: Seq<char>,
    pub instrument: Option<Seq<char>>,
    pub voice: Option<Seq<char>>,
    pub default_amp: Option<Single>,
    pub default_pan: Option<Single>,
    pub default_envelope: Option<Envelope>,
    pub default_fx: Option<Seq<FxNode>>,
    pub default_duration_rows: Option<Single>,
    pub default_pitch_env: Option<PitchEnv>,
    pub cells: Seq<CellModel>,
}

/// What a pattern's metadata says.
#[verifier::ext_equal]
pub struct PatternNotes {
    pub title: Option<Seq<char>>,
    pub author: Option<Seq<char>>,
}

/// What a pattern says.
#[verifier::ext_equal]
pub struct PatternModel {
    pub sample_rate: u32,
    pub tempo_bpm: Single,
    pub lines_per_beat: u32,
    pub rows: u32,
    pub voices: Map<Seq<char>, VoiceModel>,
    pub samples: Map<Seq<char>, SampleModel>,
    pub tracks: Seq<TrackModel>,
    pub metadata: PatternNotes,
}

/// What a pattern error says.
pub enum PatternFault {
    UnknownVoice(Seq<char>, Seq<char>),
    CellOutOfRange { track: Seq<char>, row: u32, rows: u32 },
    DegenerateGrid,
    InvalidGrid { field: Seq<char>, value: Double },
    GridOverflow,
    Validation(ValidationFault),
    BadNote(Seq<char>, Seq<char>),
    UnknownInstrument(Seq<char>),
    TrackMissingVoice(Seq<char>),
    TrackMissingField(Seq<char>, Seq<char>),
    EmptySong,
    SongSampleRateMismatch { expected: u32, found: u32 },
}

impl View for Cell {
    type V = CellModel;

    open spec fn view(&self) -> CellModel {
        CellModel {
            row: self.row,
            note: self.note@,
            pitch_ratio: self.pitch_ratio,
            velocity: self.velocity,
            duration_rows: self.duration_rows,
            pan: self.pan,
            fx: self.fx@,
            pitch_env: self.pitch_env,
        }
    }
}

/// What an optional list of effects says.
pub open spec fn chain(fx: Option<Vec<FxNode>>) -> Option<Seq<FxNode>> {
    match fx {
        Some(v) => Some(v@),
        None => None,
    }
}

/// What a list of cells says.
pub open spec fn cell_views(cells: Seq<Cell>) -> Seq<CellModel> {
    cells.map_values(|c: Cell| c@)
}

/// What a list of tracks says.
pub open spec fn track_views(tracks: Seq<Track>) -> Seq<TrackModel> {
    tracks.map_values(|t: Track| t@)
}

impl View for Track {
    type V = TrackModel;

    open spec fn view(&self) -> TrackModel {
        TrackModel {
            name: self.name@,
            instrument: table::text(self.instrument),
            voice: table::text(self.voice),
            default_amp: self.default_amp,
            default_pan: self.default_pan,
            default_envelope: self.default_envelope,
            default_fx: chain(self.default_fx),
            default_duration_rows: self.default_duration_rows,
            default_pitch_env: self.default_pitch_env,
            cells: cell_views(self.cells@),
        }
    }
}

impl View for PatternMetadata {
    type V = PatternNotes;

    open spec fn view(&self) -> PatternNotes {
        PatternNotes { title: table::text(self.title), author: table::text(self.author) }
    }
}

impl View for Pattern {
    type V = PatternModel;

    open spec fn view(&self) -> PatternModel {
        PatternModel {
            sample_rate: self.sample_rate,
            tempo_bpm: self.tempo_bpm,
            lines_per_beat: self.lines_per_beat,
            rows: self.rows,
            voices: self.voices@,
            samples: self.samples@,
            tracks: track_views(self.tracks@),
            metadata: self.metadata@,
        }
    }
}

impl View for PatternError {
    type V = PatternFault;

    open spec fn view(&self) -> PatternFault {
        match *self {
            PatternError::UnknownVoice(track, voice) => PatternFault::UnknownVoice(track@, voice@),
            PatternError::CellOutOfRange { track, row, rows } => PatternFault::CellOutOfRange {
                track: track@,
                row,
                rows,
            },
            PatternError::DegenerateGrid => PatternFault::DegenerateGrid,
            PatternError::InvalidGrid { field, value } => PatternFault::InvalidGrid { field: field@, value },
            PatternError::GridOverflow => PatternFault::GridOverflow,
            PatternError::Validation(e) => PatternFault::Validation(e@),
            PatternError::BadNote(track, why) => PatternFault::BadNote(track@, why@),
            PatternError::UnknownInstrument(name) => PatternFault::UnknownInstrument(name@),
            PatternError::TrackMissingVoice(track) => PatternFault::TrackMissingVoice(track@),
            PatternError::TrackMissingField(track, field) => PatternFault::TrackMissingField(track@, field@),
            PatternError::EmptySong => PatternFault::EmptySong,
            PatternError::SongSampleRateMismatch { expected, found } => PatternFault::SongSampleRateMismatch {
                expected,
                found,
            },
        }
    }
}

impl Replica for Cell {
    fn replica(&self) -> (r: Self) {
        Cell {
            row: self.row,
            note: self.note.replica(),
            pitch_ratio: self.pitch_ratio,
            velocity: self.velocity,
            duration_rows: self.duration_rows,
            pan: self.pan,
            fx: copy_list(&self.fx),
            pitch_env: self.pitch_env,
        }
    }
}

/// A copy of a list of cells.
pub fn copy_cells(cells: &Vec<Cell>) -> (r: Vec<Cell>)
    ensures
        cell_views(r@) == cell_views(cells@),
{
    let mut out: Vec<Cell> = Vec::new();
    let mut i: usize = 0;
    while i < cells.len()
        invariant
            i <= cells@.len(),
            cell_views(out@) == cell_views(cells@).take(i as int),
        decreases cells.len() - i,
    {
        let ghost before = out@;
        out.push(cells[i].replica());
        i = i + 1;
        assert(cell_views(out@) =~= cell_views(before).push(cells@[i - 1]@));
        assert(cell_views(cells@).take(i as int) =~= cell_views(cells@).take(i - 1).push(cells@[i - 1]@));
    }
    assert(cell_views(cells@).take(i as int) =~= cell_views(cells@));
    out
}

impl Replica for Track {
    fn replica(&self) -> (r: Self) {
        Track {
            name: self.name.clone(),
            instrument: copy_text(&self.instrument),
            voice: copy_text(&self.voice),
            default_amp: self.default_amp,
            default_pan: self.default_pan,
            default_envelope: self.default_envelope,
            default_fx: match &self.default_fx {
                Some(fx) => Some(copy_list(fx)),
                None => None,
            },
            default_duration_rows: self.default_duration_rows,
            default_pitch_env: self.default_pitch_env,
            cells: copy_cells(&self.cells),
        }
    }
}

impl Replica for PatternMetadata {
    fn replica(&self) -> (r: Self) {
        PatternMetadata { title: copy_text(&self.title), author: copy_text(&self.author) }
    }
}

impl Default for PatternMetadata {
    fn default() -> (r: Self)
        ensures
            r@ == (PatternNotes { title: None, author: None }),
    {
        PatternMetadata { title: None, author: None }
    }
}

impl Replica for Pattern {
    fn replica(&self) -> (r: Self) {
        let mut tracks: Vec<Track> = Vec::new();
        let mut i: usize = 0;
        while i < self.tracks.len()
            invariant
                i <= self.tracks@.len(),
                track_views(tracks@) == track_views(self.tracks@).take(i as int),
            decreases self.tracks.len() - i,
        {
            let ghost before = tracks@;
            tracks.push(self.tracks[i].replica());
            i = i + 1;
            assert(track_views(tracks@) =~= track_views(before).push(self.tracks@[i - 1]@));
            assert(track_views(self.tracks@).take(i as int) =~= track_views(self.tracks@).take(i - 1).push(
                self.tracks@[i - 1]@,
            ));
        }
        assert(track_views(self.tracks@).take(i as int) =~= track_views(self.tracks@));
        Pattern {
            sample_rate: self.sample_rate,
            tempo_bpm: self.tempo_bpm,
            lines_per_beat: self.lines_per_beat,
            rows: self.rows,
            voices: self.voices.replica(),
            samples: self.samples.replica(),
            tracks,
            metadata: self.metadata.replica(),
        }
    }
}

} // verus!
