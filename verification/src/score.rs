//! What a compiled pattern plays: one event for each cell in each loop, with
//! what the cell says, or else what its track says, or else what the track's
//! instrument says.

use vstd::prelude::*;

use crate::compile;
use crate::compile::{Defaults, Trigger};
use crate::pattern::{CellModel, PatternFault, PatternModel, TrackModel};
use crate::piece::{EventModel, Pitch, VoiceModel};
use crate::note::NoteModel;
use crate::presets;
use crate::presets::InstrumentModel;
use crate::single;
use crate::single::Single;
use crate::timing;

verus! {

/// How many cells the first `n` tracks have.
pub open spec fn cells_before(p: PatternModel, n: int) -> int
    decreases n,
{
    if n <= 0 {
        0
    } else {
        cells_before(p, n - 1) + p.tracks[n - 1].cells.len()
    }
}

/// The instrument that a track names.
pub open spec fn instrument_of(track: TrackModel) -> Option<InstrumentModel> {
    match track.instrument {
        Some(name) => Some(presets::shelf(presets::instruments().len() as int)[name]),
        None => None,
    }
}

/// Whether an event is what a cell of a track asks for, but for when it comes
/// and how long it lasts.
pub open spec fn sounds_like(e: EventModel, track: TrackModel, cell: CellModel) -> bool {
    let ins = instrument_of(track);
    &&& match track.voice {
        Some(voice) => e.voice == voice,
        None => ins is Some && e.voice == ins->0.name,
    }
    &&& match (cell.velocity, track.default_amp, ins) {
        (Some(v), _, _) => e.amp == v,
        (None, Some(a), _) => e.amp == a,
        (None, None, Some(i)) => e.amp == i.default_amp,
        (None, None, None) => false,
    }
    &&& match (cell.pan, track.default_pan, ins) {
        (Some(p), _, _) => e.pan == p,
        (None, Some(p), _) => e.pan == p,
        (None, None, Some(i)) => e.pan == i.default_pan,
        (None, None, None) => e.pan == (Single { bits: 0 }),
    }
    &&& match (track.default_envelope, ins) {
        (Some(env), _) => e.envelope == env,
        (None, Some(i)) => e.envelope == i.default_envelope,
        (None, None) => false,
    }
    &&& match (track.default_fx, ins) {
        _ if cell.fx.len() > 0 => e.fx == cell.fx,
        (Some(fx), _) => e.fx == fx,
        (None, Some(i)) => e.fx == i.default_fx,
        (None, None) => e.fx.len() == 0,
    }
    &&& match (cell.pitch_env, track.default_pitch_env, ins) {
        (Some(env), _, _) => e.pitch_env == Some(env),
        (None, Some(env), _) => e.pitch_env == Some(env),
        (None, None, Some(i)) => e.pitch_env == i.default_pitch_env,
        (None, None, None) => e.pitch_env is None,
    }
    &&& e.pitch_ratio == cell.pitch_ratio
    &&& cell.note matches NoteModel::Hz(f) ==> e.freq == Some(Pitch::Hz(f))
    &&& cell.note is Name ==> cell.note.pitch() is Ok && e.freq == Some(cell.note.pitch()->Ok_0)
}

/// How many rows a cell of a track lasts.
pub open spec fn rows_asked(track: TrackModel, cell: CellModel) -> Option<Single> {
    match (cell.duration_rows, track.default_duration_rows, instrument_of(track)) {
        (Some(d), _, _) => Some(d),
        (None, Some(d), _) => Some(d),
        (None, None, Some(i)) => Some(i.default_duration_rows),
        (None, None, None) => None,
    }
}

proof fn lemma_defaults(p: PatternModel, n: int, j: int)
    requires
        0 <= j < n <= p.tracks.len(),
        p.resolved(n) is Ok,
    ensures
        p.resolved(n)->Ok_0.0.len() == n,
        ({
            let t = p.tracks[j];
            &&& t.preset() is Ok
            &&& exists|key: Seq<char>| t.defaults(key, t.preset()->Ok_0) == Ok::<Defaults, PatternFault>(
                p.resolved(n)->Ok_0.0[j],
            ) && Some(key) == #[trigger] named(t, key)
        }),
    decreases n,
{
    lemma_defaults_length(p, n);
    lemma_defaults_length(p, n - 1);
    if j < n - 1 {
        lemma_defaults(p, n - 1, j);
    } else {
        let t = p.tracks[j];
        let key: Seq<char> = match t.voice {
            Some(v) => v,
            None => t.preset()->Ok_0->0.name,
        };
        assert(Some(key) == named(t, key));
    }
}

/// The voice that a track names, itself or by its instrument.
spec fn named(t: TrackModel, key: Seq<char>) -> Option<Seq<char>> {
    match t.voice {
        Some(v) => Some(v),
        None => match instrument_of(t) {
            Some(i) => Some(i.name),
            None => None,
        },
    }
}

proof fn lemma_defaults_length(p: PatternModel, n: int)
    requires
        0 <= n <= p.tracks.len(),
        p.resolved(n) is Ok,
    ensures
        p.resolved(n)->Ok_0.0.len() == n,
    decreases n,
{
    if n > 0 {
        lemma_defaults_length(p, n - 1);
    }
}

proof fn lemma_triggers(p: PatternModel, defaults: Seq<Defaults>, n: int, j: int, k: int)
    requires
        0 <= j < n <= p.tracks.len(),
        0 <= k < p.tracks[j].cells.len(),
    ensures
        p.triggers(defaults, n).len() == cells_before(p, n),
        0 <= cells_before(p, j) + k < cells_before(p, n),
        p.triggers(defaults, n)[cells_before(p, j) + k] == (Trigger {
            track: p.tracks[j].name,
            defaults: defaults[j],
            cell: p.tracks[j].cells[k],
        }),
    decreases n,
{
    lemma_trigger_count(p, defaults, n);
    lemma_trigger_count(p, defaults, n - 1);
    lemma_trigger_count(p, defaults, j);
    if j < n - 1 {
        lemma_triggers(p, defaults, n - 1, j, k);
    }
}

proof fn lemma_trigger_count(p: PatternModel, defaults: Seq<Defaults>, n: int)
    requires
        0 <= n <= p.tracks.len(),
    ensures
        p.triggers(defaults, n).len() == cells_before(p, n),
    decreases n,
{
    if n > 0 {
        lemma_trigger_count(p, defaults, n - 1);
    }
}

/// The event of the `k`th cell of the `j`th track in the `l`th loop.
pub open spec fn event_of(p: PatternModel, loops: u32, l: int, j: int, k: int) -> EventModel {
    let all = cells_before(p, p.tracks.len() as int);
    p.draft(loops)->Ok_0.events[l * all + (cells_before(p, j) + k)]
}

/// A compiled pattern has one event for each cell in each loop: in the cell's
/// row, with the cell's own values or those that it falls back on. It lasts as
/// many rows as the cell, its track or its instrument says, cut where the piece
/// ends.
pub proof fn law_cell_is_played(p: PatternModel, loops: u32, l: int, j: int, k: int)
    requires
        p.draft(loops) is Ok,
        0 <= l < loops,
        0 <= j < p.tracks.len(),
        0 <= k < p.tracks[j].cells.len(),
    ensures
        ({
            let made = p.draft(loops)->Ok_0;
            let e = event_of(p, loops, l, j, k);
            let track = p.tracks[j];
            let cell = track.cells[k];
            let row = p.grid()->Ok_0;
            let rows = rows_asked(track, cell);
            &&& made.events.len() == loops * cells_before(p, p.tracks.len() as int)
            &&& made.duration_samples == loops * (row * p.rows)
            &&& made.sample_rate == p.sample_rate
            &&& made.samples == p.samples
            &&& cell.row < p.rows
            &&& e.t == l * (row * p.rows) + cell.row * row
            &&& e.t + e.dur <= made.duration_samples
            &&& sounds_like(e, track, cell)
            &&& rows is Some
            &&& timing::ordinary(rows->0) && row <= 0x100_0000_0000 && row * rows->0.units() <= 0x100_0000_0000
                * vstd::arithmetic::power2::pow2(single::UNIT as nat) ==> timing::is_length(
                e.dur as int,
                row as int,
                rows->0,
            ) || (e.t + e.dur == made.duration_samples && exists|free: int|
                free >= e.dur && #[trigger] timing::is_length(free, row as int, rows->0))
        }),
{
    let n: int = p.tracks.len() as int;
    let defaults: Seq<Defaults> = p.resolved(n)->Ok_0.0;
    let triggers: Seq<Trigger> = p.triggers(defaults, n);
    let row: u64 = p.grid()->Ok_0;
    let x: int = cells_before(p, j) + k;
    let length: int = row * p.rows;
    let total: u64 = (length * loops) as u64;
    let track: TrackModel = p.tracks[j];
    let cell: CellModel = track.cells[k];
    lemma_triggers(p, defaults, n, j, k);
    lemma_defaults(p, n, j);
    compile::law_events_on_grid(p, loops, l, x);
    compile::lemma_event(p, loops, l, x);
    let e: EventModel = event_of(p, loops, l, j, k);
    assert(l * (triggers.len() as int) + x == l * cells_before(p, n) + x);
    assert(length * loops == loops * length) by (nonlinear_arith);
    assert(cell.note.pitch() is Ok) by {
        compile::lemma_notes(triggers, 0, x);
    }
    assert(sounds_like(e, track, cell));
    let rows: Single = rows_asked(track, cell)->0;
    assert(row > 0) by {
        reveal(PatternModel::grid);
    }
    if timing::ordinary(rows) && row <= 0x100_0000_0000 && row * rows.units() <= 0x100_0000_0000
        * vstd::arithmetic::power2::pow2(single::UNIT as nat) {
        timing::lemma_ordinary(rows);
        timing::lemma_length(row, rows);
        assert(rows.larger(Single { bits: 0 }) == rows);
        let free: u64 = triggers[x].length(row);
        assert(timing::is_length(free as int, row as int, rows));
    }
}

/// The voice that a track plays: its own, or else that of its instrument.
pub open spec fn voice_of(track: TrackModel) -> Option<Seq<char>> {
    match (track.voice, track.instrument) {
        (Some(v), _) => Some(v),
        (None, Some(name)) => Some(name),
        (None, None) => None,
    }
}

/// Whether a track before the `n`th brings a voice with its instrument.
pub open spec fn brought(p: PatternModel, n: int, voice: Seq<char>) -> bool {
    exists|i: int| 0 <= i < n && voice_of(#[trigger] p.tracks[i]) == Some(voice) && p.tracks[i].instrument is Some
}

/// Whether a track has all that it needs: an instrument that there is, a voice
/// that the pattern or an instrument up to this one brings, only cells inside
/// the grid, and a loudness, an envelope and a length.
pub open spec fn is_complete(p: PatternModel, j: int) -> bool {
    let t = p.tracks[j];
    &&& t.instrument is Some ==> presets::shelf(presets::instruments().len() as int).dom().contains(t.instrument->0)
    &&& voice_of(t) is Some
    &&& p.voices.dom().contains(voice_of(t)->0) || brought(p, j + 1, voice_of(t)->0)
    &&& forall|k: int| 0 <= k < t.cells.len() ==> (#[trigger] t.cells[k]).row < p.rows
    &&& t.instrument is Some || (t.default_amp is Some && t.default_envelope is Some && t.default_duration_rows is Some)
}

proof fn lemma_stray(t: TrackModel, rows: u32, i: int)
    requires
        0 <= i <= t.cells.len(),
    ensures
        t.stray_cell(rows, i) is None <==> forall|k: int| i <= k < t.cells.len() ==> (#[trigger] t.cells[k]).row < rows,
    decreases t.cells.len() - i,
{
    if i < t.cells.len() {
        lemma_stray(t, rows, i + 1);
    }
}

/// Which voices are known after `n` tracks, and that all of them are complete.
proof fn lemma_known(p: PatternModel, n: int)
    requires
        0 <= n <= p.tracks.len(),
    ensures
        p.resolved(n) is Ok <==> forall|j: int| 0 <= j < n ==> #[trigger] is_complete(p, j),
        p.resolved(n) is Ok ==> {
            let known = p.resolved(n)->Ok_0.1;
            &&& forall|v: Seq<char>| #[trigger]
                known.dom().contains(v) <==> p.voices.dom().contains(v) || brought(p, n, v)
            &&& forall|v: Seq<char>| #[trigger] p.voices.dom().contains(v) ==> known[v] == p.voices[v]
            &&& forall|v: Seq<char>| #[trigger]
                known.dom().contains(v) && !p.voices.dom().contains(v) ==> lends(p, n, v, known[v])
        },
    decreases n,
{
    if n > 0 {
        let t: TrackModel = p.tracks[n - 1];
        lemma_known(p, n - 1);
        lemma_stray(t, p.rows, 0);
        if t.instrument is Some {
            let name: Seq<char> = t.instrument->0;
            if presets::shelf(presets::instruments().len() as int).dom().contains(name) {
                presets::law_instrument_goes_by_its_name(name);
            }
        }
        assert forall|v: Seq<char>| #[trigger] brought(p, n, v) <==> brought(p, n - 1, v) || (voice_of(t) == Some(v)
            && t.instrument is Some) by {
            if brought(p, n, v) {
                let i: int = choose|i: int|
                    0 <= i < n && voice_of(#[trigger] p.tracks[i]) == Some(v) && p.tracks[i].instrument is Some;
                if i < n - 1 {
                    assert(voice_of(p.tracks[i]) == Some(v));
                }
            }
            if brought(p, n - 1, v) {
                let i: int = choose|i: int|
                    0 <= i < n - 1 && voice_of(#[trigger] p.tracks[i]) == Some(v) && p.tracks[i].instrument is Some;
                assert(voice_of(p.tracks[i]) == Some(v));
            }
        }
        if p.resolved(n - 1) is Ok {
            let before = p.resolved(n - 1)->Ok_0.1;
            assert(p.resolved(n) is Ok <==> is_complete(p, n - 1));
            if p.resolved(n) is Ok {
                let known = p.resolved(n)->Ok_0.1;
                assert forall|v: Seq<char>| #[trigger]
                    known.dom().contains(v) && !p.voices.dom().contains(v) implies lends(p, n, v, known[v]) by {
                    if before.dom().contains(v) {
                        let i: int = choose|i: int|
                            0 <= i < n - 1 && voice_of(#[trigger] p.tracks[i]) == Some(v) && p.tracks[i].instrument
                                is Some && before[v] == instrument_of(p.tracks[i])->0.voice;
                        assert(voice_of(p.tracks[i]) == Some(v));
                        assert(known[v] == before[v]);
                    } else {
                        assert(voice_of(p.tracks[n - 1]) == Some(v));
                    }
                }
            }
            if forall|j: int| 0 <= j < n ==> #[trigger] is_complete(p, j) {
                assert(is_complete(p, n - 1));
            }
        } else {
            let j: int = choose|j: int| 0 <= j < n - 1 && !#[trigger] is_complete(p, j);
            assert(!is_complete(p, j));
        }
    }
}

/// Whether a voice is that of the instrument of a track before the `n`th that
/// plays it.
pub open spec fn lends(p: PatternModel, n: int, v: Seq<char>, voice: VoiceModel) -> bool {
    exists|i: int|
        0 <= i < n && voice_of(#[trigger] p.tracks[i]) == Some(v) && p.tracks[i].instrument is Some && voice
            == instrument_of(p.tracks[i])->0.voice
}

/// A pattern compiles if and only if its grid is sound and fits, all its tracks
/// are complete, and all its notes can be read.
pub proof fn law_complete_pattern_compiles(p: PatternModel, loops: u32)
    requires
        loops > 0,
    ensures
        p.draft(loops) is Ok <==> {
            &&& p.grid() is Ok
            &&& p.grid()->Ok_0 * p.rows * loops <= u64::MAX
            &&& forall|j: int| 0 <= j < p.tracks.len() ==> #[trigger] is_complete(p, j)
            &&& forall|j: int, k: int|
                0 <= j < p.tracks.len() && 0 <= k < p.tracks[j].cells.len() ==> (
                #[trigger] p.tracks[j].cells[k]).note.pitch() is Ok
        },
{
    let n: int = p.tracks.len() as int;
    lemma_known(p, n);
    if p.grid() is Ok {
        let length: int = p.grid()->Ok_0 * p.rows;
        assert(length >= 0) by (nonlinear_arith)
            requires
                length == p.grid()->Ok_0 * p.rows,
        ;
        assert(length <= length * loops) by (nonlinear_arith)
            requires
                length >= 0,
                loops >= 1,
        ;
        if p.resolved(n) is Ok {
            let defaults: Seq<Defaults> = p.resolved(n)->Ok_0.0;
            let triggers: Seq<Trigger> = p.triggers(defaults, n);
            if compile::bad_note(triggers, 0) is None {
                assert forall|j: int, k: int|
                    0 <= j < p.tracks.len() && 0 <= k < p.tracks[j].cells.len() implies (
                #[trigger] p.tracks[j].cells[k]).note.pitch() is Ok by {
                    lemma_triggers(p, defaults, n, j, k);
                    compile::lemma_notes(triggers, 0, cells_before(p, j) + k);
                }
            } else if forall|j: int, k: int|
                0 <= j < p.tracks.len() && 0 <= k < p.tracks[j].cells.len() ==> (
                #[trigger] p.tracks[j].cells[k]).note.pitch() is Ok {
                lemma_readable(p, defaults, n);
                lemma_no_bad_note(triggers, 0);
            }
        }
    }
}

proof fn lemma_no_bad_note(triggers: Seq<Trigger>, i: int)
    requires
        0 <= i <= triggers.len(),
        forall|x: int| 0 <= x < triggers.len() ==> (#[trigger] triggers[x]).cell.note.pitch() is Ok,
    ensures
        compile::bad_note(triggers, i) is None,
    decreases triggers.len() - i,
{
    if i < triggers.len() {
        lemma_no_bad_note(triggers, i + 1);
    }
}

proof fn lemma_readable(p: PatternModel, defaults: Seq<Defaults>, n: int)
    requires
        0 <= n <= p.tracks.len(),
        forall|j: int, k: int|
            0 <= j < p.tracks.len() && 0 <= k < p.tracks[j].cells.len() ==> (
            #[trigger] p.tracks[j].cells[k]).note.pitch() is Ok,
    ensures
        forall|x: int|
            0 <= x < p.triggers(defaults, n).len() ==> (#[trigger] p.triggers(
                defaults,
                n,
            )[x]).cell.note.pitch() is Ok,
    decreases n,
{
    if n > 0 {
        lemma_readable(p, defaults, n - 1);
        let before: Seq<Trigger> = p.triggers(defaults, n - 1);
        let all: Seq<Trigger> = p.triggers(defaults, n);
        assert forall|x: int| 0 <= x < all.len() implies (#[trigger] all[x]).cell.note.pitch() is Ok by {
            if x < before.len() {
                assert(all[x] == before[x]);
            } else {
                assert(all[x].cell == p.tracks[n - 1].cells[x - before.len()]);
            }
        }
    }
}

/// A compiled pattern has the voices that the pattern defines, as they are;
/// those that only an instrument brings it has from the instrument; and no
/// others.
pub proof fn law_compiled_voices(p: PatternModel, loops: u32, v: Seq<char>)
    requires
        p.draft(loops) is Ok,
    ensures
        ({
            let voices = p.draft(loops)->Ok_0.voices;
            &&& voices.dom().contains(v) <==> p.voices.dom().contains(v) || brought(p, p.tracks.len() as int, v)
            &&& p.voices.dom().contains(v) ==> voices[v] == p.voices[v]
            &&& voices.dom().contains(v) && !p.voices.dom().contains(v) ==> lends(
                p,
                p.tracks.len() as int,
                v,
                voices[v],
            )
        }),
{
    lemma_known(p, p.tracks.len() as int);
}

} // verus!
