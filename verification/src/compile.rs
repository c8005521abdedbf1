//! From patterns to pieces.

use vstd::prelude::*;

use crate::double::Double;
use crate::note;
use crate::pattern;
use crate::pattern::{
    Cell, CellModel, Pattern, PatternError, PatternFault, PatternModel, Track, TrackModel,
};
use crate::piece;
use crate::piece::{
    Envelope, Event, EventModel, FxNode, MetadataModel, Piece, PieceMetadata, PieceModel, Pitch, PitchEnv,
    ValidationFault, VoiceDef, VoiceModel,
};
use crate::presets;
use crate::presets::{Instrument, InstrumentModel};
use crate::single::Single;
use crate::table::{copy_list, copy_text, Replica, Table};

verus! {

/// The pattern of `2^64` as a double.
pub const TOO_MANY: u64 = 0x43f0_0000_0000_0000;

/// What tracks fall back on, once their instruments have been asked.
#[verifier::ext_equal]
pub struct Defaults {
    pub voice: Seq<char>,
    pub amp: Single,
    pub pan: Single,
    pub envelope: Envelope,
    pub fx: Seq<FxNode>,
    pub duration_rows: Single,
    pub pitch_env: Option<PitchEnv>,
}

/// A cell with what its track gives it.
#[verifier::ext_equal]
pub struct Trigger {
    pub track: Seq<char>,
    pub defaults: Defaults,
    pub cell: CellModel,
}

/// The first choice, or else the second.
pub open spec fn either<T>(a: Option<T>, b: Option<T>) -> Option<T> {
    match a {
        Some(x) => Some(x),
        None => b,
    }
}

impl PatternModel {
    /// Samples to the row, before rounding.
    pub open spec fn row_length(self) -> Double {
        Double::of_int(self.sample_rate as int).product(Double::of_int(60)).quotient(
            Double::of_single(self.tempo_bpm).product(Double::of_int(self.lines_per_beat as int)),
        )
    }

    /// Samples to the row, or what is wrong with the grid.
    #[verifier::opaque]
    pub open spec fn grid(self) -> Result<u64, PatternFault> {
        let length = self.row_length();
        if self.rows == 0 || self.lines_per_beat == 0 {
            Err(PatternFault::DegenerateGrid)
        } else if self.sample_rate == 0 {
            Err(PatternFault::InvalidGrid { field: "sample_rate"@, value: Double::of_int(0) })
        } else if !self.tempo_bpm.finite() || self.tempo_bpm.at_most(Single { bits: 0 }) {
            Err(
                PatternFault::InvalidGrid {
                    field: "tempo_bpm"@,
                    value: Double::of_single(self.tempo_bpm),
                },
            )
        } else if !length.finite() {
            Err(PatternFault::InvalidGrid { field: "samples_per_row"@, value: length })
        } else if length.nearest() == 0 {
            Err(PatternFault::InvalidGrid { field: "samples_per_row"@, value: Double { bits: 0 } })
        } else if (Double { bits: TOO_MANY }).less(length) {
            Err(PatternFault::GridOverflow)
        } else {
            Ok(length.nearest() as u64)
        }
    }
}

impl TrackModel {
    /// The instrument of the track, if it names one.
    pub open spec fn preset(self) -> Result<Option<InstrumentModel>, PatternFault> {
        let shelf = presets::shelf(presets::instruments().len() as int);
        match self.instrument {
            None => Ok(None),
            Some(name) => if shelf.dom().contains(name) {
                Ok(Some(shelf[name]))
            } else {
                Err(PatternFault::UnknownInstrument(name))
            },
        }
    }

    /// The first cell from `i` on that lies outside the grid.
    pub open spec fn stray_cell(self, rows: u32, i: int) -> Option<u32>
        decreases self.cells.len() - i,
    {
        if i < 0 || i >= self.cells.len() {
            None
        } else if self.cells[i].row >= rows {
            Some(self.cells[i].row)
        } else {
            self.stray_cell(rows, i + 1)
        }
    }

    /// What the track falls back on, in a grid of `rows` rows and with the
    /// voices that are known so far; and the voices known from here on.
    pub open spec fn resolved(self, rows: u32, voices: Map<Seq<char>, VoiceModel>) -> Result<
        (Defaults, Map<Seq<char>, VoiceModel>),
        PatternFault,
    > {
        match self.preset() {
            Err(fault) => Err(fault),
            Ok(preset) => match either(
                self.voice,
                match preset {
                    Some(p) => Some(p.name),
                    None => None,
                },
            ) {
                None => Err(PatternFault::TrackMissingVoice(self.name)),
                Some(key) => {
                    let known = if preset is Some && !voices.dom().contains(key) {
                        voices.insert(key, preset->0.voice)
                    } else {
                        voices
                    };
                    if !known.dom().contains(key) {
                        Err(PatternFault::UnknownVoice(self.name, key))
                    } else if let Some(row) = self.stray_cell(rows, 0) {
                        Err(PatternFault::CellOutOfRange { track: self.name, row, rows })
                    } else {
                        match self.defaults(key, preset) {
                            Ok(defaults) => Ok((defaults, known)),
                            Err(fault) => Err(fault),
                        }
                    }
                },
            },
        }
    }

    /// The defaults of the track: each its own, or else that of its
    /// instrument.
    pub open spec fn defaults(self, key: Seq<char>, preset: Option<InstrumentModel>) -> Result<
        Defaults,
        PatternFault,
    > {
        let amp = either(
            self.default_amp,
            match preset {
                Some(p) => Some(p.default_amp),
                None => None,
            },
        );
        let envelope = either(
            self.default_envelope,
            match preset {
                Some(p) => Some(p.default_envelope),
                None => None,
            },
        );
        let rows = either(
            self.default_duration_rows,
            match preset {
                Some(p) => Some(p.default_duration_rows),
                None => None,
            },
        );
        if amp is None {
            Err(PatternFault::TrackMissingField(self.name, "default_amp"@))
        } else if envelope is None {
            Err(PatternFault::TrackMissingField(self.name, "default_envelope"@))
        } else if rows is None {
            Err(PatternFault::TrackMissingField(self.name, "default_duration_rows"@))
        } else {
            Ok(
                Defaults {
                    voice: key,
                    amp: amp->0,
                    pan: match (self.default_pan, preset) {
                        (Some(pan), _) => pan,
                        (None, Some(p)) => p.default_pan,
                        (None, None) => Single { bits: 0 },
                    },
                    envelope: envelope->0,
                    fx: match (self.default_fx, preset) {
                        (Some(fx), _) => fx,
                        (None, Some(p)) => p.default_fx,
                        (None, None) => Seq::empty(),
                    },
                    duration_rows: rows->0,
                    pitch_env: match (self.default_pitch_env, preset) {
                        (Some(env), _) => Some(env),
                        (None, Some(p)) => p.default_pitch_env,
                        (None, None) => None,
                    },
                },
            )
        }
    }
}

impl PatternModel {
    /// What the first `n` tracks fall back on, and the voices known after
    /// them; or what is wrong with the first faulty one.
    pub open spec fn resolved(self, n: int) -> Result<
        (Seq<Defaults>, Map<Seq<char>, VoiceModel>),
        PatternFault,
    >
        decreases n,
    {
        if n <= 0 {
            Ok((Seq::empty(), self.voices))
        } else {
            match self.resolved(n - 1) {
                Err(fault) => Err(fault),
                Ok((before, voices)) => match self.tracks[n - 1].resolved(self.rows, voices) {
                    Err(fault) => Err(fault),
                    Ok((defaults, known)) => Ok((before.push(defaults), known)),
                },
            }
        }
    }

    /// The triggers of the first `n` tracks, track by track.
    pub open spec fn triggers(self, defaults: Seq<Defaults>, n: int) -> Seq<Trigger>
        decreases n,
    {
        if n <= 0 {
            Seq::empty()
        } else {
            let track = self.tracks[n - 1];
            self.triggers(defaults, n - 1) + Seq::new(
                track.cells.len(),
                |k: int|
                    Trigger { track: track.name, defaults: defaults[n - 1], cell: track.cells[k] },
            )
        }
    }
}

/// The first trigger from `i` on whose note has no pitch.
pub open spec fn bad_note(triggers: Seq<Trigger>, i: int) -> Option<PatternFault>
    decreases triggers.len() - i,
{
    if i < 0 || i >= triggers.len() {
        None
    } else {
        match triggers[i].cell.note.pitch() {
            Err(why) => Some(PatternFault::BadNote(triggers[i].track, why)),
            Ok(_) => bad_note(triggers, i + 1),
        }
    }
}

impl Trigger {
    /// How many samples the trigger sounds, if nothing stops it.
    pub open spec fn length(self, row: u64) -> u64 {
        let rows = match self.cell.duration_rows {
            Some(d) => d,
            None => self.defaults.duration_rows,
        };
        Double::of_int(row as int).product(
            Double::of_single(rows.larger(Single { bits: 0 })),
        ).nearest() as u64
    }

    /// The event of the trigger in the loop that starts at `offset`, in a
    /// piece of `total` samples with `row` samples to the row.
    pub open spec fn event(self, row: u64, offset: int, total: u64) -> EventModel {
        let t = (offset + self.cell.row * row) as u64;
        let rest = if t <= total { (total - t) as u64 } else { 0u64 };
        EventModel {
            t,
            voice: self.defaults.voice,
            freq: Some(self.cell.note.pitch()->Ok_0),
            dur: if self.length(row) <= rest { self.length(row) } else { rest },
            amp: match self.cell.velocity {
                Some(v) => v,
                None => self.defaults.amp,
            },
            pan: match self.cell.pan {
                Some(p) => p,
                None => self.defaults.pan,
            },
            envelope: self.defaults.envelope,
            fx: if self.cell.fx.len() == 0 { self.defaults.fx } else { self.cell.fx },
            pitch_ratio: self.cell.pitch_ratio,
            pitch_env: either(self.cell.pitch_env, self.defaults.pitch_env),
        }
    }
}

/// The events of the first `n` loops, each of `loop_length` samples.
pub open spec fn loop_events(
    triggers: Seq<Trigger>,
    row: u64,
    loop_length: int,
    total: u64,
    n: int,
) -> Seq<EventModel>
    decreases n,
{
    if n <= 0 {
        Seq::empty()
    } else {
        loop_events(triggers, row, loop_length, total, n - 1) + Seq::new(
            triggers.len(),
            |k: int| triggers[k].event(row, (n - 1) * loop_length, total),
        )
    }
}

impl PatternModel {
    /// The piece that `loops` loops of the pattern make, before it is checked.
    pub open spec fn draft(self, loops: u32) -> Result<PieceModel, PatternFault> {
        match self.grid() {
            Err(fault) => Err(fault),
            Ok(row) => {
                let loop_length = row * self.rows;
                let total = loop_length * loops;
                if loop_length > u64::MAX || total > u64::MAX {
                    Err(PatternFault::GridOverflow)
                } else {
                    match self.resolved(self.tracks.len() as int) {
                        Err(fault) => Err(fault),
                        Ok((defaults, voices)) => {
                            let triggers = self.triggers(defaults, self.tracks.len() as int);
                            if loops > 0 && bad_note(triggers, 0) is Some {
                                Err(bad_note(triggers, 0)->0)
                            } else {
                                Ok(
                                    PieceModel {
                                        sample_rate: self.sample_rate,
                                        duration_samples: total as u64,
                                        voices,
                                        samples: self.samples,
                                        events: loop_events(
                                            triggers,
                                            row,
                                            loop_length,
                                            total as u64,
                                            loops as int,
                                        ),
                                        metadata: MetadataModel {
                                            title: self.metadata.title,
                                            seed: None,
                                            generator: Some("rtracker-pattern"@),
                                            constraints_ref: None,
                                        },
                                    },
                                )
                            }
                        },
                    }
                }
            },
        }
    }
}

/// What the outcome of compiling says.
pub open spec fn outcome(r: Result<Piece, PatternError>) -> Result<PieceModel, PatternFault> {
    match r {
        Ok(p) => Ok(p@),
        Err(e) => Err(e@),
    }
}

/// Whether compiling may end so, given the piece before it is checked: the
/// fault of the draft, else a fault of the piece, else the piece.
pub open spec fn settles(
    draft: Result<PieceModel, PatternFault>,
    end: Result<PieceModel, PatternFault>,
) -> bool {
    match draft {
        Err(fault) => end == Err::<PieceModel, PatternFault>(fault),
        Ok(p) => if p.valid() {
            end == Ok::<PieceModel, PatternFault>(p)
        } else {
            end is Err && end->Err_0 is Validation && p.judged(Some(end->Err_0->Validation_0))
        },
    }
}

/// What a track falls back on.
struct Resolved {
    voice: String,
    amp: Single,
    pan: Single,
    envelope: Envelope,
    fx: Vec<FxNode>,
    duration_rows: Single,
    pitch_env: Option<PitchEnv>,
}

impl View for Resolved {
    type V = Defaults;

    closed spec fn view(&self) -> Defaults {
        Defaults {
            voice: self.voice@,
            amp: self.amp,
            pan: self.pan,
            envelope: self.envelope,
            fx: self.fx@,
            duration_rows: self.duration_rows,
            pitch_env: self.pitch_env,
        }
    }
}

/// What a list of defaults says.
spec fn defaults_of(list: Seq<Resolved>) -> Seq<Defaults> {
    list.map_values(|r: Resolved| r@)
}

impl Track {
    fn find_preset(&self) -> (r: Result<Option<Instrument>, PatternError>)
        ensures
            match (r, self@.preset()) {
                (Ok(Some(i)), Ok(Some(m))) => i@ == m,
                (Ok(None), Ok(None)) => true,
                (Err(e), Err(f)) => e@ == f,
                _ => false,
            },
    {
        match &self.instrument {
            None => Ok(None),
            Some(name) => match presets::get(name.as_str()) {
                Some(i) => Ok(Some(i)),
                None => Err(PatternError::UnknownInstrument(name.clone())),
            },
        }
    }

    fn find_stray(&self, rows: u32) -> (r: Option<u32>)
        ensures
            r == self@.stray_cell(rows, 0),
    {
        let mut i: usize = 0;
        while i < self.cells.len()
            invariant
                i <= self.cells@.len(),
                self@.stray_cell(rows, 0) == self@.stray_cell(rows, i as int),
            decreases self.cells.len() - i,
        {
            assert(self@.cells[i as int] == self.cells@[i as int]@);
            if self.cells[i].row >= rows {
                return Some(self.cells[i].row);
            }
            i = i + 1;
        }
        None
    }

    fn fill_defaults(&self, voice: String, preset: &Option<Instrument>) -> (r: Result<Resolved, PatternError>)
        ensures
            match (
                r,
                self@.defaults(
                    voice@,
                    match *preset {
                        Some(i) => Some(i@),
                        None => None,
                    },
                ),
            ) {
                (Ok(d), Ok(m)) => d@ == m,
                (Err(e), Err(f)) => e@ == f,
                _ => false,
            },
    {
        let amp: Single = match (self.default_amp, preset) {
            (Some(a), _) => a,
            (None, Some(p)) => p.default_amp,
            (None, None) => {
                return Err(PatternError::TrackMissingField(self.name.clone(), "default_amp"));
            },
        };
        let pan: Single = match (self.default_pan, preset) {
            (Some(a), _) => a,
            (None, Some(p)) => p.default_pan,
            (None, None) => Single::of_bits(0),
        };
        let envelope: Envelope = match (self.default_envelope, preset) {
            (Some(a), _) => a,
            (None, Some(p)) => p.default_envelope,
            (None, None) => {
                return Err(PatternError::TrackMissingField(self.name.clone(), "default_envelope"));
            },
        };
        let fx: Vec<FxNode> = match (&self.default_fx, preset) {
            (Some(a), _) => copy_list(a),
            (None, Some(p)) => copy_list(&p.default_fx),
            (None, None) => Vec::new(),
        };
        let duration_rows: Single = match (self.default_duration_rows, preset) {
            (Some(a), _) => a,
            (None, Some(p)) => p.default_duration_rows,
            (None, None) => {
                return Err(PatternError::TrackMissingField(self.name.clone(), "default_duration_rows"));
            },
        };
        let pitch_env: Option<PitchEnv> = match (self.default_pitch_env, preset) {
            (Some(a), _) => Some(a),
            (None, Some(p)) => p.default_pitch_env,
            (None, None) => None,
        };
        Ok(Resolved { voice, amp, pan, envelope, fx, duration_rows, pitch_env })
    }

    fn resolve(&self, rows: u32, voices: &mut Table<VoiceDef>) -> (r: Result<Resolved, PatternError>)
        ensures
            match (r, self@.resolved(rows, old(voices)@)) {
                (Ok(d), Ok((m, known))) => d@ == m && final(voices)@ == known,
                (Err(e), Err(f)) => e@ == f,
                _ => false,
            },
    {
        let preset: Option<Instrument> = match self.find_preset() {
            Ok(p) => p,
            Err(e) => {
                return Err(e);
            },
        };
        let key: String = match (&self.voice, &preset) {
            (Some(v), _) => v.clone(),
            (None, Some(p)) => p.name.to_owned(),
            (None, None) => {
                return Err(PatternError::TrackMissingVoice(self.name.clone()));
            },
        };
        let known: bool = voices.contains_key(key.as_str());
        if !known {
            match &preset {
                Some(p) => {
                    voices.insert(key.clone(), p.voice.replica());
                },
                None => {
                    return Err(PatternError::UnknownVoice(self.name.clone(), key));
                },
            }
        }
        if let Some(row) = self.find_stray(rows) {
            return Err(PatternError::CellOutOfRange { track: self.name.clone(), row, rows });
        }
        self.fill_defaults(key, &preset)
    }
}

/// The event of a cell.
fn event_of(cell: &Cell, defaults: &Resolved, pitch: Pitch, row: u64, offset: u64, total: u64) -> (r: Event)
    requires
        cell@.note.pitch() == Ok::<Pitch, Seq<char>>(pitch),
        offset + cell.row * row <= total,
    ensures
        forall|track: Seq<char>|
            r@ == #[trigger] (Trigger { track, defaults: defaults@, cell: cell@ }).event(
                row,
                offset as int,
                total,
            ),
{
    assert(0 <= cell.row * row) by (nonlinear_arith);
    let t: u64 = offset + cell.row as u64 * row;
    let rows: Single = match cell.duration_rows {
        Some(d) => d,
        None => defaults.duration_rows,
    };
    let length: u64 = Double::from_natural(row).times(
        Double::from_single(rows.max(Single::of_bits(0))),
    ).to_nearest();
    let rest: u64 = total - t;
    let amp: Single = match cell.velocity {
        Some(v) => v,
        None => defaults.amp,
    };
    let pan: Single = match cell.pan {
        Some(p) => p,
        None => defaults.pan,
    };
    let fx: Vec<FxNode> = if cell.fx.len() == 0 {
        copy_list(&defaults.fx)
    } else {
        copy_list(&cell.fx)
    };
    let pitch_env: Option<PitchEnv> = match cell.pitch_env {
        Some(env) => Some(env),
        None => defaults.pitch_env,
    };
    Event {
        t,
        voice: defaults.voice.clone(),
        freq: Some(pitch),
        dur: if length <= rest {
            length
        } else {
            rest
        },
        amp,
        pan,
        envelope: defaults.envelope,
        fx,
        pitch_ratio: cell.pitch_ratio,
        pitch_env,
    }
}

/// A faulty track makes every longer list of tracks faulty.
proof fn lemma_fault_stays(p: PatternModel, n: int, m: int)
    requires
        0 < n <= m,
        p.resolved(n) is Err,
    ensures
        p.resolved(m) == p.resolved(n),
    decreases m - n,
{
    if n < m {
        lemma_fault_stays(p, n, m - 1);
    }
}

proof fn lemma_no_stray(t: TrackModel, rows: u32, i: int, j: int)
    requires
        t.stray_cell(rows, i) is None,
        0 <= i <= j < t.cells.len(),
    ensures
        t.cells[j].row < rows,
    decreases j - i,
{
    if i < j {
        lemma_no_stray(t, rows, i + 1, j);
    }
}

/// Where the tracks resolve, every cell lies in the grid.
proof fn lemma_cells_in_range(p: PatternModel, n: int, i: int)
    requires
        p.resolved(n) is Ok,
        0 <= i < n <= p.tracks.len(),
    ensures
        forall|j: int| 0 <= j < p.tracks[i].cells.len() ==> (#[trigger] p.tracks[i].cells[j]).row < p.rows,
    decreases n,
{
    if i < n - 1 {
        lemma_cells_in_range(p, n - 1, i);
    } else {
        let track: TrackModel = p.tracks[i];
        assert forall|j: int| 0 <= j < track.cells.len() implies (#[trigger] track.cells[j]).row < p.rows by {
            lemma_no_stray(track, p.rows, 0, j);
        }
    }
}

impl Pattern {
    fn row_length(&self) -> (r: Double)
        ensures
            r == self@.row_length(),
    {
        let rate: Double = Double::from_natural(self.sample_rate as u64);
        let lines: Double = Double::from_natural(self.lines_per_beat as u64);
        rate.times(Double::from_natural(60)).over(Double::from_single(self.tempo_bpm).times(lines))
    }

    /// Sample count per row, rounded to the nearest whole number.
    pub fn samples_per_row(&self) -> (r: u64)
        ensures
            r == self@.row_length().nearest(),
    {
        self.row_length().to_nearest()
    }

    /// Total length of one pattern instance in samples.
    pub fn duration_samples(&self) -> (r: u64)
        requires
            self@.row_length().nearest() * self.rows <= u64::MAX,
        ensures
            r == self@.row_length().nearest() * self.rows,
    {
        self.samples_per_row() * self.rows as u64
    }

    fn checked_samples_per_row(&self) -> (r: Result<u64, PatternError>)
        ensures
            match (r, self@.grid()) {
                (Ok(n), Ok(m)) => n == m,
                (Err(e), Err(f)) => e@ == f,
                _ => false,
            },
    {
        reveal(PatternModel::grid);
        if self.rows == 0 || self.lines_per_beat == 0 {
            return Err(PatternError::DegenerateGrid);
        }
        if self.sample_rate == 0 {
            return Err(PatternError::InvalidGrid { field: "sample_rate", value: Double::from_natural(0) });
        }
        if !self.tempo_bpm.is_finite() || self.tempo_bpm.is_at_most(Single::of_bits(0)) {
            return Err(
                PatternError::InvalidGrid {
                    field: "tempo_bpm",
                    value: Double::from_single(self.tempo_bpm),
                },
            );
        }
        let length: Double = self.row_length();
        if !length.is_finite() {
            return Err(PatternError::InvalidGrid { field: "samples_per_row", value: length });
        }
        let row: u64 = length.to_nearest();
        if row == 0 {
            return Err(PatternError::InvalidGrid { field: "samples_per_row", value: Double::of_bits(0) });
        }
        if Double::of_bits(TOO_MANY).is_less(length) {
            return Err(PatternError::GridOverflow);
        }
        Ok(row)
    }

    /// The track and cell of each trigger.
    fn places(&self, Ghost(defaults): Ghost<Seq<Defaults>>) -> (r: Vec<(usize, usize)>)
        requires
            defaults.len() == self.tracks@.len(),
        ensures
            self.placed(r@, defaults, self@.triggers(defaults, self.tracks@.len() as int)),
    {
        let mut out: Vec<(usize, usize)> = Vec::new();
        let mut i: usize = 0;
        while i < self.tracks.len()
            invariant
                i <= self.tracks@.len(),
                defaults.len() == self.tracks@.len(),
                self.placed(out@, defaults, self@.triggers(defaults, i as int)),
            decreases self.tracks.len() - i,
        {
            let ghost before = self@.triggers(defaults, i as int);
            let ghost after = self@.triggers(defaults, i + 1);
            let ghost track = self@.tracks[i as int];
            assert(track == self.tracks@[i as int]@);
            let mut j: usize = 0;
            while j < self.tracks[i].cells.len()
                invariant
                    i < self.tracks@.len(),
                    j <= self.tracks@[i as int].cells@.len(),
                    defaults.len() == self.tracks@.len(),
                    track == self.tracks@[i as int]@,
                    before == self@.triggers(defaults, i as int),
                    self.placed(
                        out@,
                        defaults,
                        before + Seq::new(
                            j as nat,
                            |k: int|
                                Trigger {
                                    track: track.name,
                                    defaults: defaults[i as int],
                                    cell: track.cells[k],
                                },
                        ),
                    ),
                decreases self.tracks@[i as int].cells@.len() - j,
            {
                assert(track.cells[j as int] == self.tracks@[i as int].cells@[j as int]@);
                out.push((i, j));
                j = j + 1;
            }
            assert(after =~= before + Seq::new(
                j as nat,
                |k: int|
                    Trigger { track: track.name, defaults: defaults[i as int], cell: track.cells[k] },
            ));
            i = i + 1;
        }
        out
    }

    /// A list of tracks and cells stands for a list of triggers.
    spec fn placed(&self, places: Seq<(usize, usize)>, defaults: Seq<Defaults>, triggers: Seq<Trigger>) -> bool {
        &&& places.len() == triggers.len()
        &&& forall|k: int|
            #![trigger places[k]]
            #![trigger triggers[k]]
            0 <= k < places.len() ==> {
                &&& places[k].0 < self.tracks@.len()
                &&& places[k].1 < self.tracks@[places[k].0 as int].cells@.len()
                &&& triggers[k] == (Trigger {
                    track: self.tracks@[places[k].0 as int].name@,
                    defaults: defaults[places[k].0 as int],
                    cell: self.tracks@[places[k].0 as int].cells@[places[k].1 as int]@,
                })
            }
    }

    /// The pitch of each trigger.
    fn pitches(
        &self,
        places: &Vec<(usize, usize)>,
        Ghost(defaults): Ghost<Seq<Defaults>>,
        Ghost(triggers): Ghost<Seq<Trigger>>,
    ) -> (r: Result<Vec<Pitch>, PatternError>)
        requires
            self.placed(places@, defaults, triggers),
        ensures
            match r {
                Ok(pitches) => {
                    &&& bad_note(triggers, 0) is None
                    &&& pitches@.len() == triggers.len()
                    &&& forall|k: int|
                        0 <= k < triggers.len() ==> (#[trigger] triggers[k]).cell.note.pitch() == Ok::<
                            Pitch,
                            Seq<char>,
                        >(pitches@[k])
                },
                Err(e) => bad_note(triggers, 0) == Some(e@),
            },
    {
        let mut out: Vec<Pitch> = Vec::new();
        let mut k: usize = 0;
        while k < places.len()
            invariant
                k <= places@.len(),
                out@.len() == k,
                self.placed(places@, defaults, triggers),
                bad_note(triggers, 0) == bad_note(triggers, k as int),
                forall|m: int|
                    0 <= m < k ==> (#[trigger] triggers[m]).cell.note.pitch() == Ok::<Pitch, Seq<char>>(
                        out@[m],
                    ),
            decreases places.len() - k,
        {
            let (i, j) = places[k];
            assert(places@[k as int] == (i, j));
            assert(triggers[k as int].track == self.tracks@[i as int].name@);
            match self.tracks[i].cells[j].note.to_hz() {
                Ok(p) => {
                    out.push(p);
                },
                Err(why) => {
                    return Err(PatternError::BadNote(self.tracks[i].name.clone(), why));
                },
            }
            k = k + 1;
        }
        Ok(out)
    }

    /// Every track's defaults, and the voices with those of the instruments.
    fn resolve_tracks(&self) -> (r: Result<(Vec<Resolved>, Table<VoiceDef>), PatternError>)
        ensures
            match (r, self@.resolved(self.tracks@.len() as int)) {
                (Ok((d, v)), Ok((m, known))) => defaults_of(d@) == m && v@ == known && d@.len()
                    == self.tracks@.len(),
                (Err(e), Err(f)) => e@ == f,
                _ => false,
            },
    {
        let mut voices: Table<VoiceDef> = self.voices.replica();
        let mut resolved: Vec<Resolved> = Vec::new();
        let mut i: usize = 0;
        assert(defaults_of(resolved@) =~= Seq::<Defaults>::empty());
        while i < self.tracks.len()
            invariant
                i <= self.tracks@.len(),
                self@.resolved(i as int) == Ok::<
                    (Seq<Defaults>, Map<Seq<char>, VoiceModel>),
                    PatternFault,
                >((defaults_of(resolved@), voices@)),
                resolved@.len() == i,
            decreases self.tracks.len() - i,
        {
            let ghost before = resolved@;
            let ghost track = self@.tracks[i as int];
            assert(track == self.tracks@[i as int]@);
            match self.tracks[i].resolve(self.rows, &mut voices) {
                Ok(d) => {
                    resolved.push(d);
                    assert(defaults_of(resolved@) =~= defaults_of(before).push(d@));
                },
                Err(e) => {
                    proof {
                        lemma_fault_stays(self@, i + 1, self.tracks@.len() as int);
                    }
                    return Err(e);
                },
            }
            i = i + 1;
        }
        Ok((resolved, voices))
    }

    /// Compiles `loops` instances of the pattern, back to back, into one
    /// piece.
    pub fn compile_repeated(&self, loops: u32) -> (r: Result<Piece, PatternError>)
        ensures
            settles(self@.draft(loops), outcome(r)),
    {
        let row: u64 = match self.checked_samples_per_row() {
            Ok(n) => n,
            Err(e) => {
                return Err(e);
            },
        };
        let one_loop: u64 = match row.checked_mul(self.rows as u64) {
            Some(n) => n,
            None => {
                return Err(PatternError::GridOverflow);
            },
        };
        let total: u64 = match one_loop.checked_mul(loops as u64) {
            Some(n) => n,
            None => {
                return Err(PatternError::GridOverflow);
            },
        };
        let (resolved, voices) = match self.resolve_tracks() {
            Ok(found) => found,
            Err(e) => {
                return Err(e);
            },
        };
        let ghost defaults = defaults_of(resolved@);
        let ghost triggers = self@.triggers(defaults, self.tracks@.len() as int);
        let places: Vec<(usize, usize)> = self.places(Ghost(defaults));
        let mut events: Vec<Event> = Vec::new();
        assert(piece::views(events@) =~= Seq::<EventModel>::empty());
        if loops > 0 {
            let pitches: Vec<Pitch> = match self.pitches(&places, Ghost(defaults), Ghost(triggers)) {
                Ok(p) => p,
                Err(e) => {
                    return Err(e);
                },
            };
            self.fill(&resolved, &places, &pitches, row, one_loop, total, loops, &mut events);
        }
        let made: Piece = Piece {
            sample_rate: self.sample_rate,
            duration_samples: total,
            voices,
            samples: self.samples.replica(),
            events,
            metadata: PieceMetadata {
                title: copy_text(&self.metadata.title),
                seed: None,
                generator: Some("rtracker-pattern".to_owned()),
                constraints_ref: None,
            },
        };
        proof {
            let expected: PieceModel = self@.draft(loops)->Ok_0;
            assert(made@.events == expected.events);
            assert(made@.metadata =~= expected.metadata);
            assert(made@ =~= expected);
        }
        match made.validate() {
            Ok(()) => Ok(made),
            Err(e) => Err(PatternError::Validation(e)),
        }
    }

    /// The events of every loop.
    fn fill(
        &self,
        resolved: &Vec<Resolved>,
        places: &Vec<(usize, usize)>,
        pitches: &Vec<Pitch>,
        row: u64,
        one_loop: u64,
        total: u64,
        loops: u32,
        events: &mut Vec<Event>,
    )
        requires
            old(events)@.len() == 0,
            resolved@.len() == self.tracks@.len(),
            self@.resolved(self.tracks@.len() as int) is Ok,
            self@.resolved(self.tracks@.len() as int)->Ok_0.0 == defaults_of(resolved@),
            one_loop == row * self.rows,
            total == one_loop * loops,
            ({
                let triggers = self@.triggers(defaults_of(resolved@), self.tracks@.len() as int);
                &&& self.placed(places@, defaults_of(resolved@), triggers)
                &&& pitches@.len() == triggers.len()
                &&& forall|k: int|
                    0 <= k < triggers.len() ==> (#[trigger] triggers[k]).cell.note.pitch() == Ok::<
                        Pitch,
                        Seq<char>,
                    >(pitches@[k])
            }),
        ensures
            piece::views(final(events)@) == loop_events(
                self@.triggers(defaults_of(resolved@), self.tracks@.len() as int),
                row,
                one_loop as int,
                total,
                loops as int,
            ),
    {
        let ghost defaults = defaults_of(resolved@);
        let ghost triggers = self@.triggers(defaults, self.tracks@.len() as int);
        let mut l: u32 = 0;
        assert(piece::views(events@) =~= Seq::<EventModel>::empty());
        while l < loops
            invariant
                l <= loops,
                defaults == defaults_of(resolved@),
                triggers == self@.triggers(defaults, self.tracks@.len() as int),
                resolved@.len() == self.tracks@.len(),
                self@.resolved(self.tracks@.len() as int) is Ok,
                one_loop == row * self.rows,
                total == one_loop * loops,
                self.placed(places@, defaults, triggers),
                pitches@.len() == triggers.len(),
                forall|k: int|
                    0 <= k < triggers.len() ==> (#[trigger] triggers[k]).cell.note.pitch() == Ok::<
                        Pitch,
                        Seq<char>,
                    >(pitches@[k]),
                piece::views(events@) == loop_events(triggers, row, one_loop as int, total, l as int),
            decreases loops - l,
        {
            let ghost done = piece::views(events@);
            assert(l * one_loop + one_loop <= total) by (nonlinear_arith)
                requires
                    l < loops,
                    total == one_loop * loops,
            ;
            let offset: u64 = l as u64 * one_loop;
            let mut k: usize = 0;
            assert(done + Seq::new(0, |m: int| triggers[m].event(row, l * one_loop, total)) =~= done);
            while k < places.len()
                invariant
                    k <= places@.len(),
                    offset == l * one_loop,
                    offset + one_loop <= total,
                    defaults == defaults_of(resolved@),
                    triggers == self@.triggers(defaults, self.tracks@.len() as int),
                    resolved@.len() == self.tracks@.len(),
                    self@.resolved(self.tracks@.len() as int) is Ok,
                    one_loop == row * self.rows,
                    self.placed(places@, defaults, triggers),
                    pitches@.len() == triggers.len(),
                    forall|m: int|
                        0 <= m < triggers.len() ==> (#[trigger] triggers[m]).cell.note.pitch() == Ok::<
                            Pitch,
                            Seq<char>,
                        >(pitches@[m]),
                    piece::views(events@) == done + Seq::new(
                        k as nat,
                        |m: int| triggers[m].event(row, l * one_loop, total),
                    ),
                decreases places.len() - k,
            {
                let ghost before = events@;
                let (i, j) = places[k];
                assert(places@[k as int] == (i, j));
                assert(triggers[k as int].cell == self.tracks@[i as int].cells@[j as int]@);
                assert(defaults[i as int] == resolved@[i as int]@);
                let cell: &Cell = &self.tracks[i].cells[j];
                proof {
                    lemma_cells_in_range(self@, self.tracks@.len() as int, i as int);
                    assert(self@.tracks[i as int] == self.tracks@[i as int]@);
                    assert(self@.tracks[i as int].cells[j as int] == cell@);
                    assert(cell.row * row <= one_loop) by (nonlinear_arith)
                        requires
                            cell.row < self.rows,
                            one_loop == row * self.rows,
                    ;
                }
                let e: Event = event_of(cell, &resolved[i], pitches[k], row, offset, total);
                events.push(e);
                k = k + 1;
                assert(piece::views(events@) =~= piece::views(before).push(e@));
                assert(piece::views(events@) =~= done + Seq::new(
                    k as nat,
                    |m: int| triggers[m].event(row, l * one_loop, total),
                ));
            }
            l = l + 1;
            assert((l - 1) * one_loop == offset);
            assert(piece::views(events@) =~= loop_events(triggers, row, one_loop as int, total, l as int));
        }
    }

    /// Compiles to a renderable piece of one pattern instance.
    pub fn compile(&self) -> (r: Result<Piece, PatternError>)
        ensures
            settles(self@.draft(1), outcome(r)),
    {
        self.compile_repeated(1)
    }
}

/// Once known, a voice stays known.
proof fn lemma_voices_grow(p: PatternModel, n: int, m: int)
    requires
        0 <= n <= m <= p.tracks.len(),
        p.resolved(m) is Ok,
    ensures
        p.resolved(n) is Ok,
        p.resolved(n)->Ok_0.1.dom().subset_of(p.resolved(m)->Ok_0.1.dom()),
        p.resolved(m)->Ok_0.0.len() == m,
        n > 0 ==> p.resolved(n)->Ok_0.0[n - 1] == p.resolved(m)->Ok_0.0[n - 1],
    decreases m,
{
    if m > 0 {
        if n < m {
            lemma_voices_grow(p, n, m - 1);
        } else {
            lemma_voices_grow(p, n - 1, m - 1);
        }
    }
}

/// Where the tracks resolve, the voice of every track is known.
proof fn lemma_voice_known(p: PatternModel, m: int, i: int)
    requires
        0 <= i < m <= p.tracks.len(),
        p.resolved(m) is Ok,
    ensures
        p.resolved(m)->Ok_0.1.dom().contains(p.resolved(m)->Ok_0.0[i].voice),
{
    lemma_voices_grow(p, i + 1, m);
    lemma_voices_grow(p, i, i + 1);
}

/// Where the tracks resolve, every trigger plays a known voice in the grid.
proof fn lemma_triggers(p: PatternModel, n: int, k: int)
    requires
        0 <= n <= p.tracks.len(),
        p.resolved(p.tracks.len() as int) is Ok,
        0 <= k < p.triggers(p.resolved(p.tracks.len() as int)->Ok_0.0, n).len(),
    ensures
        p.triggers(p.resolved(p.tracks.len() as int)->Ok_0.0, n)[k].cell.row < p.rows,
        p.resolved(p.tracks.len() as int)->Ok_0.1.dom().contains(
            p.triggers(p.resolved(p.tracks.len() as int)->Ok_0.0, n)[k].defaults.voice,
        ),
    decreases n,
{
    let m: int = p.tracks.len() as int;
    let defaults: Seq<Defaults> = p.resolved(m)->Ok_0.0;
    if n > 0 {
        let before: Seq<Trigger> = p.triggers(defaults, n - 1);
        if k < before.len() {
            lemma_triggers(p, n - 1, k);
        } else {
            lemma_cells_in_range(p, m, n - 1);
            lemma_voice_known(p, m, n - 1);
            let j: int = k - before.len();
            assert(p.tracks[n - 1].cells[j].row < p.rows);
        }
    }
}

/// The events of `n` loops: each loop holds each trigger once, in order.
proof fn lemma_loop_events(
    triggers: Seq<Trigger>,
    row: u64,
    loop_length: int,
    total: u64,
    n: int,
    l: int,
    k: int,
)
    requires
        0 <= l < n,
        0 <= k < triggers.len(),
    ensures
        loop_events(triggers, row, loop_length, total, n).len() == n * triggers.len(),
        0 <= l * triggers.len() + k < n * triggers.len(),
        loop_events(triggers, row, loop_length, total, n)[l * triggers.len() + k] == triggers[k].event(
            row,
            l * loop_length,
            total,
        ),
    decreases n,
{
    lemma_loop_count(triggers, row, loop_length, total, n);
    lemma_loop_count(triggers, row, loop_length, total, n - 1);
    let m: int = triggers.len() as int;
    assert(0 <= l * m + k < n * m) by (nonlinear_arith)
        requires
            0 <= l < n,
            0 <= k < m,
    ;
    if l < n - 1 {
        lemma_loop_events(triggers, row, loop_length, total, n - 1, l, k);
    }
}

proof fn lemma_loop_count(triggers: Seq<Trigger>, row: u64, loop_length: int, total: u64, n: int)
    requires
        0 <= n,
    ensures
        loop_events(triggers, row, loop_length, total, n).len() == n * triggers.len(),
    decreases n,
{
    let m: int = triggers.len() as int;
    if n > 0 {
        lemma_loop_count(triggers, row, loop_length, total, n - 1);
        assert((n - 1) * m + m == n * m) by (nonlinear_arith);
    } else {
        assert(n * m == 0) by (nonlinear_arith)
            requires
                n == 0,
        ;
    }
}

/// Events lie on the grid: in loop `l`, the `k`th trigger starts at its row
/// of that loop; and there is one event for each trigger and loop.
pub proof fn law_events_on_grid(p: PatternModel, loops: u32, l: int, k: int)
    requires
        p.draft(loops) is Ok,
        0 <= l < loops,
        0 <= k < p.triggers(p.resolved(p.tracks.len() as int)->Ok_0.0, p.tracks.len() as int).len(),
    ensures
        ({
            let triggers = p.triggers(p.resolved(p.tracks.len() as int)->Ok_0.0, p.tracks.len() as int);
            let events = p.draft(loops)->Ok_0.events;
            let row = p.grid()->Ok_0;
            &&& events.len() == loops * triggers.len()
            &&& 0 <= l * triggers.len() + k < events.len()
            &&& events[l * triggers.len() + k].t == l * (row * p.rows) + triggers[k].cell.row * row
        }),
{
    let triggers: Seq<Trigger> = p.triggers(
        p.resolved(p.tracks.len() as int)->Ok_0.0,
        p.tracks.len() as int,
    );
    let row: u64 = p.grid()->Ok_0;
    let length: int = row * p.rows;
    let total: u64 = (length * loops) as u64;
    lemma_loop_events(triggers, row, length, total, loops as int, l, k);
    lemma_triggers(p, p.tracks.len() as int, k);
    lemma_event_fits(triggers[k], row, p.rows, loops, l);
}

proof fn lemma_event_fits(trigger: Trigger, row: u64, rows: u32, loops: u32, l: int)
    requires
        trigger.cell.row < rows,
        0 <= l < loops,
        row * rows * loops <= u64::MAX,
    ensures
        ({
            let e = trigger.event(row, l * (row * rows), (row * rows * loops) as u64);
            &&& e.t == l * (row * rows) + trigger.cell.row * row
            &&& e.t + e.dur <= row * rows * loops
        }),
{
    let length: int = row * rows;
    assert(0 <= trigger.cell.row * row <= length) by (nonlinear_arith)
        requires
            trigger.cell.row < rows,
            length == row * rows,
    ;
    assert(0 <= l * length && l * length + length <= length * loops) by (nonlinear_arith)
        requires
            0 <= l < loops,
            0 <= length,
    ;
}

/// The event of a trigger in a loop.
pub proof fn lemma_event(p: PatternModel, loops: u32, l: int, k: int)
    requires
        p.draft(loops) is Ok,
        0 <= l < loops,
        0 <= k < p.triggers(p.resolved(p.tracks.len() as int)->Ok_0.0, p.tracks.len() as int).len(),
    ensures
        ({
            let triggers = p.triggers(p.resolved(p.tracks.len() as int)->Ok_0.0, p.tracks.len() as int);
            let length = p.grid()->Ok_0 * p.rows;
            let e = p.draft(loops)->Ok_0.events[l * triggers.len() + k];
            &&& e == triggers[k].event(p.grid()->Ok_0, l * length, (length * loops) as u64)
            &&& e.t + e.dur <= length * loops
            &&& length * loops <= u64::MAX
            &&& triggers[k].cell.row < p.rows
        }),
{
    let triggers: Seq<Trigger> = p.triggers(
        p.resolved(p.tracks.len() as int)->Ok_0.0,
        p.tracks.len() as int,
    );
    let row: u64 = p.grid()->Ok_0;
    let length: int = row * p.rows;
    lemma_loop_events(triggers, row, length, (length * loops) as u64, loops as int, l, k);
    lemma_triggers(p, p.tracks.len() as int, k);
    lemma_event_fits(triggers[k], row, p.rows, loops, l);
}

/// Where no note is bad, every note has a pitch.
pub proof fn lemma_notes(triggers: Seq<Trigger>, from: int, k: int)
    requires
        bad_note(triggers, from) is None,
        0 <= from <= k < triggers.len(),
    ensures
        triggers[k].cell.note.pitch() is Ok,
    decreases k - from,
{
    if from < k {
        lemma_notes(triggers, from + 1, k);
    }
}

/// Every event of a compiled pattern plays a voice of the piece and ends
/// within the piece, so a compiled piece is never refused for either.
pub proof fn law_events_stay_inside(p: PatternModel, loops: u32, i: int)
    requires
        p.draft(loops) is Ok,
        0 <= i < p.draft(loops)->Ok_0.events.len(),
    ensures
        ({
            let made = p.draft(loops)->Ok_0;
            let e = made.events[i];
            &&& made.voices.dom().contains(e.voice)
            &&& e.t + e.dur <= made.duration_samples
            &&& !(piece::event_fault(i as usize, e, made.voices, made.duration_samples) matches Some(
                ValidationFault::UnknownVoice { .. },
            ))
            &&& !(piece::event_fault(i as usize, e, made.voices, made.duration_samples) matches Some(
                ValidationFault::EventPastEnd { .. },
            ))
        }),
{
    let n: int = p.tracks.len() as int;
    let triggers: Seq<Trigger> = p.triggers(p.resolved(n)->Ok_0.0, n);
    let m: int = triggers.len() as int;
    let row: u64 = p.grid()->Ok_0;
    let length: int = row * p.rows;
    let total: u64 = (length * loops) as u64;
    lemma_loop_count(triggers, row, length, total, loops as int);
    assert(m > 0) by (nonlinear_arith)
        requires
            0 <= i < loops * m,
            m >= 0,
    ;
    let l: int = i / m;
    let k: int = i % m;
    assert(i == l * m + k && 0 <= k < m && 0 <= l < loops) by (nonlinear_arith)
        requires
            m > 0,
            0 <= i < loops * m,
            l == i / m,
            k == i % m,
    ;
    lemma_loop_events(triggers, row, length, total, loops as int, l, k);
    lemma_triggers(p, n, k);
    lemma_event_fits(triggers[k], row, p.rows, loops, l);
}

/// What a compiler hands out is valid and is its draft; a draft that is valid
/// is handed out.
pub proof fn law_compiled_is_valid(
    draft: Result<PieceModel, PatternFault>,
    end: Result<PieceModel, PatternFault>,
)
    requires
        settles(draft, end),
    ensures
        end is Ok ==> end->Ok_0.valid() && draft == end,
        draft is Ok && draft->Ok_0.valid() ==> end == draft,
{
}

} // verus!
