//! The sound of a song is that of its patterns, one after the other, so an
//! edited pattern can be rendered by itself and spliced into the song.
//!
//! This asks of the edited pattern that the voices that it plays are the
//! song's (where patterns define one voice differently, the last definition
//! wins), and that it makes no noise unless the song begins with it (noise
//! depends on when it sounds). [`Editor::splices_exactly`] tests it.

use vstd::prelude::*;

use crate::compile;
use crate::curve::Curve;
use crate::editor::{Action, Editor, EditorModel, Key};
use crate::mixer;
use crate::mixer::Stretch;
use crate::pattern::{PatternModel, TrackModel};
use crate::piece::{Piece, PieceModel, SampleModel, VoiceDef, VoiceModel};
use crate::session;
use crate::single::Single;
use crate::song;
use crate::song::SongModel;

verus! {

/// Whether two references are to the same part of the same file.
pub open spec fn same_part(a: SampleModel, b: SampleModel) -> bool {
    a.path == b.path && a.start_sample == b.start_sample && a.end_sample == b.end_sample
}

/// Whether a voice of a pattern's piece is the song's, with its sample.
pub open spec fn shared(q: PieceModel, p: PieceModel, name: Seq<char>) -> bool {
    &&& q.voices.dom().contains(name) && p.voices.dom().contains(name)
    &&& q.voices[name] == p.voices[name]
    &&& q.voices[name] matches VoiceModel::Sample { sample_id, .. } ==> {
        &&& q.samples.dom().contains(sample_id) && p.samples.dom().contains(sample_id)
        &&& same_part(q.samples[sample_id], p.samples[sample_id])
    }
}

/// Whether a pattern sounds the same within a song as by itself: it shares
/// each voice that it plays with the song, and plays noise only if it is the
/// song's first pattern.
pub open spec fn at_home(q: PieceModel, p: PieceModel, first: bool) -> bool {
    forall|k: int|
        0 <= k < q.events.len() ==> {
            let e = #[trigger] q.events[k];
            &&& shared(q, p, e.voice)
            &&& q.voices[e.voice] is NoiseBandpass ==> first
        }
}

/// Whether two pieces have been loaded from the same files: what they refer to
/// alike, their banks hold alike.
pub open spec fn loaded_alike(
    q: PieceModel,
    own: Map<Seq<char>, Seq<Single>>,
    p: PieceModel,
    bank: Map<Seq<char>, Seq<Single>>,
) -> bool {
    forall|id: Seq<char>| #[trigger]
        q.samples.dom().contains(id) && p.samples.dom().contains(id) && same_part(
            q.samples[id],
            p.samples[id],
        ) ==> {
            &&& own.dom().contains(id) == bank.dom().contains(id)
            &&& own.dom().contains(id) ==> own[id] == bank[id]
        }
}

/// Which event of which pattern an event of a song is.
proof fn lemma_locate(s: SongModel, x: int, n: int) -> (r: (int, int))
    requires
        0 <= x < song::total_events(s, n),
        0 <= n,
    ensures
        0 <= r.0 < n,
        0 <= r.1 < s.patterns[r.0].draft(1)->Ok_0.events.len(),
        x == song::total_events(s, r.0) + r.1,
    decreases n,
{
    if x < song::total_events(s, n - 1) {
        lemma_locate(s, x, n - 1)
    } else {
        (n - 1, x - song::total_events(s, n - 1))
    }
}

/// The time of a pattern in its song.
pub open spec fn stretch(s: SongModel, bank: Map<Seq<char>, Seq<Single>>, i: int) -> Stretch {
    Stretch {
        piece: s.draft()->Ok_0,
        bank,
        first: song::total_events(s, i),
        start: song::total_length(s, i),
    }
}

/// A pattern stands in its song after those before it, and no other pattern
/// reaches into its time.
proof fn lemma_stretch(s: SongModel, bank: Map<Seq<char>, Seq<Single>>, i: int)
    requires
        s.draft() is Ok,
        0 <= i < s.patterns.len(),
    ensures
        ({
            let q = s.patterns[i].draft(1)->Ok_0;
            &&& stretch(s, bank, i).holds(q.events.len() as int, q.duration_samples as int)
            &&& s.draft()->Ok_0.sample_rate == q.sample_rate
            &&& forall|k: int|
                0 <= k < q.events.len() ==> {
                    let e = #[trigger] q.events[k];
                    &&& e.t + e.dur <= q.duration_samples
                    &&& e.t + song::total_length(s, i) <= u64::MAX
                    &&& s.draft()->Ok_0.events[song::total_events(s, i) + k] == song::later(
                        e,
                        song::total_length(s, i),
                    )
                }
        }),
{
    let n = s.patterns.len() as int;
    let q = s.patterns[i].draft(1)->Ok_0;
    let p = s.draft()->Ok_0;
    let at = song::total_events(s, i);
    let offset = song::total_length(s, i);
    song::lemma_pattern_of_song(s, i);
    assert forall|k: int| 0 <= k < q.events.len() implies {
        let e = #[trigger] q.events[k];
        &&& e.t + e.dur <= q.duration_samples
        &&& p.events[at + k] == song::later(e, offset)
    } by {
        compile::law_events_stay_inside(s.patterns[i], 1, k);
        song::law_patterns_concatenate(s, i, k);
    }
    assert forall|x: int| 0 <= x < p.events.len() && !(at <= x < at + q.events.len()) implies {
        let e = #[trigger] p.events[x];
        e.t + e.dur <= offset || e.t >= offset + q.duration_samples
    } by {
        let (j, k) = lemma_locate(s, x, n);
        song::lemma_pattern_of_song(s, j);
        song::law_patterns_concatenate(s, j, k);
        compile::law_events_stay_inside(s.patterns[j], 1, k);
        if j < i {
            song::lemma_lengths_grow(s, j + 1, i);
        } else if j > i {
            song::lemma_lengths_grow(s, i + 1, j);
        }
    }
}

/// In its time, a song sounds like the pattern that plays.
pub proof fn law_song_sounds_like_its_patterns(
    m: spec_fn(Curve) -> Single,
    s: SongModel,
    bank: Map<Seq<char>, Seq<Single>>,
    own: Map<Seq<char>, Seq<Single>>,
    i: int,
)
    requires
        s.draft() is Ok,
        0 <= i < s.patterns.len(),
        at_home(s.patterns[i].draft(1)->Ok_0, s.draft()->Ok_0, i == 0),
        loaded_alike(s.patterns[i].draft(1)->Ok_0, own, s.draft()->Ok_0, bank),
    ensures
        mixer::rendered(m, s.draft()->Ok_0, bank).subrange(
            2 * song::total_length(s, i),
            2 * song::total_length(s, i + 1),
        ) == mixer::rendered(m, s.patterns[i].draft(1)->Ok_0, own),
{
    let q = s.patterns[i].draft(1)->Ok_0;
    let p = s.draft()->Ok_0;
    let count = q.events.len() as int;
    let there = stretch(s, bank, i);
    let here = Stretch { piece: q, bank: own, first: 0, start: 0 };
    lemma_stretch(s, bank, i);
    assert forall|k: int| 0 <= k < count implies #[trigger] here.matches_at(there, k) by {
        let e = q.events[k];
        assert(here.piece.events[here.first + k] == e);
        assert(there.piece.events[there.first + k] == song::later(e, there.start));
        assert(shared(q, p, e.voice));
    }
    mixer::law_stretches_sound_alike(m, here, there, count, q.duration_samples as int);
    mixer::lemma_rendered_length(m, q, own);
    let alone = mixer::rendered(m, q, own);
    assert(alone.subrange(0, 2 * (0 + q.duration_samples as int)) =~= alone);
}

/// Which pattern of a song a frame belongs to.
proof fn lemma_frame(s: SongModel, f: int, n: int) -> (r: int)
    requires
        0 <= f < song::total_length(s, n),
        0 <= n,
    ensures
        0 <= r < n,
        song::total_length(s, r) <= f < song::total_length(s, r + 1),
    decreases n,
{
    if f < song::total_length(s, n - 1) {
        lemma_frame(s, f, n - 1)
    } else {
        n - 1
    }
}

/// Songs whose patterns are as long as each other's have one timeline.
proof fn lemma_same_lengths(s: SongModel, t: SongModel, n: int)
    requires
        0 <= n,
        forall|j: int|
            0 <= j < n ==> (#[trigger] s.patterns[j]).draft(1)->Ok_0.duration_samples == t.patterns[j].draft(
                1,
            )->Ok_0.duration_samples,
    ensures
        forall|j: int| 0 <= j <= n ==> #[trigger] song::total_length(s, j) == song::total_length(t, j),
    decreases n,
{
    if n > 0 {
        lemma_same_lengths(s, t, n - 1);
        assert(s.patterns[n - 1].draft(1)->Ok_0.duration_samples == t.patterns[n - 1].draft(
            1,
        )->Ok_0.duration_samples);
        assert(song::total_length(s, n - 1) == song::total_length(t, n - 1));
        assert(song::total_length(s, n) == song::total_length(t, n));
    }
}

/// Whether the events of a piece sound with the same voices in two songs.
pub open spec fn voices_kept(q: PieceModel, before: PieceModel, after: PieceModel) -> bool {
    forall|k: int|
        0 <= k < q.events.len() ==> before.voices[(#[trigger] q.events[k]).voice]
            == after.voices[q.events[k].voice]
}

/// A pattern that two songs play at the same time, with the same voices,
/// sounds alike in both.
proof fn lemma_kept(
    m: spec_fn(Curve) -> Single,
    s: SongModel,
    t: SongModel,
    bank: Map<Seq<char>, Seq<Single>>,
    j: int,
)
    requires
        s.draft() is Ok,
        t.draft() is Ok,
        s.patterns.len() == t.patterns.len(),
        0 <= j < s.patterns.len(),
        s.patterns[j] == t.patterns[j],
        song::total_length(s, j) == song::total_length(t, j),
        voices_kept(s.patterns[j].draft(1)->Ok_0, s.draft()->Ok_0, t.draft()->Ok_0),
    ensures
        mixer::rendered(m, s.draft()->Ok_0, bank).subrange(
            2 * song::total_length(t, j),
            2 * song::total_length(t, j + 1),
        ) == mixer::rendered(m, t.draft()->Ok_0, bank).subrange(
            2 * song::total_length(t, j),
            2 * song::total_length(t, j + 1),
        ),
{
    let q = s.patterns[j].draft(1)->Ok_0;
    let a = stretch(s, bank, j);
    let b = stretch(t, bank, j);
    lemma_stretch(s, bank, j);
    lemma_stretch(t, bank, j);
    assert forall|k: int| 0 <= k < q.events.len() implies #[trigger] a.matches_at(b, k) by {
        let e = q.events[k];
        assert(a.piece.events[a.first + k] == song::later(e, a.start));
        assert(b.piece.events[b.first + k] == song::later(e, b.start));
    }
    mixer::law_stretches_sound_alike(m, a, b, q.events.len() as int, q.duration_samples as int);
}

/// Two songs that differ in one pattern, but not in its length nor in the
/// voices of the others, differ in the sound of that pattern alone: rendered
/// by itself and spliced into the one song, it gives the sound of the other.
pub proof fn law_pattern_is_spliced_exactly(
    m: spec_fn(Curve) -> Single,
    s: SongModel,
    t: SongModel,
    bank: Map<Seq<char>, Seq<Single>>,
    own: Map<Seq<char>, Seq<Single>>,
    i: int,
)
    requires
        s.draft() is Ok,
        t.draft() is Ok,
        s.patterns.len() == t.patterns.len(),
        0 <= i < s.patterns.len(),
        forall|j: int| 0 <= j < s.patterns.len() && j != i ==> #[trigger] s.patterns[j] == t.patterns[j],
        s.patterns[i].draft(1)->Ok_0.duration_samples == t.patterns[i].draft(1)->Ok_0.duration_samples,
        forall|j: int|
            0 <= j < s.patterns.len() && j != i ==> voices_kept(
                (#[trigger] s.patterns[j]).draft(1)->Ok_0,
                s.draft()->Ok_0,
                t.draft()->Ok_0,
            ),
        at_home(t.patterns[i].draft(1)->Ok_0, t.draft()->Ok_0, i == 0),
        loaded_alike(t.patterns[i].draft(1)->Ok_0, own, t.draft()->Ok_0, bank),
    ensures
        ({
            let buffer = mixer::rendered(m, s.draft()->Ok_0, bank);
            let q = t.patterns[i].draft(1)->Ok_0;
            let patch = mixer::rendered(m, q, own);
            let start = song::total_length(s, i) as u64;
            &&& 0 <= song::total_length(s, i) <= u64::MAX
            &&& session::fits(buffer, patch, start, q.duration_samples)
            &&& session::patched(buffer, patch, start) == mixer::rendered(m, t.draft()->Ok_0, bank)
        }),
{
    let n = s.patterns.len() as int;
    let old_song = s.draft()->Ok_0;
    let new_song = t.draft()->Ok_0;
    let buffer = mixer::rendered(m, old_song, bank);
    let wanted = mixer::rendered(m, new_song, bank);
    let q = t.patterns[i].draft(1)->Ok_0;
    let patch = mixer::rendered(m, q, own);
    lemma_same_lengths(s, t, n);
    song::lemma_pattern_of_song(s, i);
    song::lemma_pattern_of_song(t, i);
    mixer::lemma_rendered_length(m, old_song, bank);
    mixer::lemma_rendered_length(m, new_song, bank);
    mixer::lemma_rendered_length(m, q, own);
    law_song_sounds_like_its_patterns(m, t, bank, own, i);
    let start = song::total_length(s, i);
    assert(start == song::total_length(t, i));
    assert(song::total_length(s, i + 1) == song::total_length(t, i + 1));
    let made = session::patched(buffer, patch, start as u64);
    assert forall|x: int| 0 <= x < wanted.len() implies made[x] == wanted[x] by {
        let j = lemma_frame(t, x / 2, n);
        let lo = 2 * song::total_length(t, j);
        let hi = 2 * song::total_length(t, j + 1);
        song::lemma_pattern_of_song(t, j);
        assert(wanted[x] == wanted.subrange(lo, hi)[x - lo]);
        if j != i {
            assert(s.patterns[j] == t.patterns[j]);
            assert(song::total_length(s, j) == song::total_length(t, j));
            lemma_kept(m, s, t, bank, j);
            assert(buffer[x] == buffer.subrange(lo, hi)[x - lo]);
            if j < i {
                song::lemma_lengths_grow(t, j + 1, i);
            } else {
                song::lemma_lengths_grow(t, i + 1, j);
            }
        }
    }
    assert(made =~= wanted);
}

/// Where a pattern of a song that compiles is played is where it is placed.
pub proof fn law_placed_where_it_plays(s: SongModel, sr: u32, i: int)
    requires
        s.at_rate(sr).draft() is Ok,
        0 <= i < s.patterns.len(),
    ensures
        s.placement(sr, i).start_frame == song::total_length(s.at_rate(sr), i),
        s.placement(sr, i).len_frames == s.at_rate(sr).patterns[i].draft(1)->Ok_0.duration_samples,
    decreases i,
{
    let t = s.at_rate(sr);
    song::lemma_pattern_of_song(t, i);
    lemma_length_of_pattern(t.patterns[i]);
    if i > 0 {
        song::lemma_pattern_of_song(t, i - 1);
        law_placed_where_it_plays(s, sr, i - 1);
    }
}

/// The length of a pattern that compiles.
proof fn lemma_length_of_pattern(p: PatternModel)
    requires
        p.draft(1) is Ok,
    ensures
        p.row_length().nearest() >= 1,
        p.draft(1)->Ok_0.duration_samples == p.row_length().nearest() * p.rows,
{
    reveal(PatternModel::grid);
    let length = p.grid()->Ok_0 * p.rows;
    assert(length * 1 == length);
}

/// Whether two patterns differ in nothing but the cells of their tracks.
pub open spec fn recelled(a: PatternModel, b: PatternModel) -> bool {
    &&& b == (PatternModel { tracks: b.tracks, ..a })
    &&& a.tracks.len() == b.tracks.len()
    &&& forall|k: int|
        0 <= k < a.tracks.len() ==> #[trigger] b.tracks[k] == (TrackModel {
            cells: b.tracks[k].cells,
            ..a.tracks[k]
        })
}

proof fn lemma_recelled_resolves(a: PatternModel, b: PatternModel, n: int)
    requires
        recelled(a, b),
        0 <= n <= a.tracks.len(),
        a.resolved(n) is Ok,
        b.resolved(n) is Ok,
    ensures
        a.resolved(n)->Ok_0.1 == b.resolved(n)->Ok_0.1,
    decreases n,
{
    if n > 0 {
        lemma_recelled_resolves(a, b, n - 1);
        assert(b.tracks[n - 1] == (TrackModel { cells: b.tracks[n - 1].cells, ..a.tracks[n - 1] }));
    }
}

/// Cells define no voices.
proof fn lemma_recelled_drafts(a: PatternModel, b: PatternModel)
    requires
        recelled(a, b),
        a.draft(1) is Ok,
        b.draft(1) is Ok,
    ensures
        a.draft(1)->Ok_0.voices == b.draft(1)->Ok_0.voices,
        a.draft(1)->Ok_0.samples == b.draft(1)->Ok_0.samples,
        a.draft(1)->Ok_0.duration_samples == b.draft(1)->Ok_0.duration_samples,
{
    lemma_recelled_resolves(a, b, a.tracks.len() as int);
    lemma_length_of_pattern(a);
    lemma_length_of_pattern(b);
    assert(a.row_length() == b.row_length());
}

proof fn lemma_recelled_assembly(s: SongModel, t: SongModel, n: int)
    requires
        s.patterns.len() == t.patterns.len(),
        0 <= n <= s.patterns.len(),
        forall|j: int| 0 <= j < s.patterns.len() ==> recelled(#[trigger] s.patterns[j], t.patterns[j]),
        s.assembled(n) is Ok,
        t.assembled(n) is Ok,
    ensures
        s.assembled(n)->Ok_0.voices == t.assembled(n)->Ok_0.voices,
        s.assembled(n)->Ok_0.samples == t.assembled(n)->Ok_0.samples,
    decreases n,
{
    if n > 0 {
        lemma_recelled_assembly(s, t, n - 1);
        assert(recelled(s.patterns[n - 1], t.patterns[n - 1]));
        lemma_recelled_drafts(s.patterns[n - 1], t.patterns[n - 1]);
    }
}

/// Editing cells changes neither the voices nor the samples of a song.
pub proof fn law_cells_define_no_voices(s: SongModel, t: SongModel)
    requires
        s.draft() is Ok,
        t.draft() is Ok,
        s.patterns.len() == t.patterns.len(),
        forall|j: int| 0 <= j < s.patterns.len() ==> recelled(#[trigger] s.patterns[j], t.patterns[j]),
    ensures
        s.draft()->Ok_0.voices == t.draft()->Ok_0.voices,
        s.draft()->Ok_0.samples == t.draft()->Ok_0.samples,
{
    lemma_recelled_assembly(s, t, s.patterns.len() as int);
}

/// An edit of cells in one pattern leaves the voices and the samples of the
/// song, at any rate.
pub proof fn lemma_same_voices(before: SongModel, after: SongModel, sr: u32, i: int)
    requires
        before.at_rate(sr).draft() is Ok,
        after.at_rate(sr).draft() is Ok,
        before.patterns.len() == after.patterns.len(),
        0 <= i < before.patterns.len(),
        forall|j: int|
            0 <= j < before.patterns.len() && j != i ==> #[trigger] before.patterns[j] == after.patterns[j],
        recelled(before.patterns[i], after.patterns[i]),
    ensures
        before.at_rate(sr).draft()->Ok_0.voices == after.at_rate(sr).draft()->Ok_0.voices,
        before.at_rate(sr).draft()->Ok_0.samples == after.at_rate(sr).draft()->Ok_0.samples,
        forall|j: int|
            0 <= j < before.patterns.len() ==> recelled(
                #[trigger] before.at_rate(sr).patterns[j],
                after.at_rate(sr).patterns[j],
            ),
{
    let s = before.at_rate(sr);
    let t = after.at_rate(sr);
    assert forall|j: int| 0 <= j < s.patterns.len() implies recelled(#[trigger] s.patterns[j], t.patterns[j]) by {
        if j == i {
            assert(t.patterns[i].tracks == after.patterns[i].tracks);
        } else {
            assert(before.patterns[j] == after.patterns[j]);
        }
    }
    law_cells_define_no_voices(s, t);
}

/// After an edit of cells in one pattern, splicing the newly rendered pattern
/// into the sound of the song gives the sound of the edited song.
pub proof fn law_edit_is_spliced_exactly(
    m: spec_fn(Curve) -> Single,
    before: SongModel,
    after: SongModel,
    sr: u32,
    bank: Map<Seq<char>, Seq<Single>>,
    own: Map<Seq<char>, Seq<Single>>,
    i: int,
)
    requires
        before.at_rate(sr).draft() is Ok,
        after.at_rate(sr).draft() is Ok,
        before.patterns.len() == after.patterns.len(),
        0 <= i < before.patterns.len(),
        forall|j: int|
            0 <= j < before.patterns.len() && j != i ==> #[trigger] before.patterns[j] == after.patterns[j],
        recelled(before.patterns[i], after.patterns[i]),
        at_home(
            after.patterns[i].at_rate(sr).draft(1)->Ok_0,
            after.at_rate(sr).draft()->Ok_0,
            i == 0,
        ),
        loaded_alike(
            after.patterns[i].at_rate(sr).draft(1)->Ok_0,
            own,
            after.at_rate(sr).draft()->Ok_0,
            bank,
        ),
    ensures
        ({
            let buffer = mixer::rendered(m, before.at_rate(sr).draft()->Ok_0, bank);
            let patch = mixer::rendered(m, after.patterns[i].at_rate(sr).draft(1)->Ok_0, own);
            let place = after.placement(sr, i);
            &&& session::fits(buffer, patch, place.start_frame, place.len_frames)
            &&& session::patched(buffer, patch, place.start_frame) == mixer::rendered(
                m,
                after.at_rate(sr).draft()->Ok_0,
                bank,
            )
        }),
{
    let s = before.at_rate(sr);
    let t = after.at_rate(sr);
    song::lemma_pattern_of_song(s, i);
    song::lemma_pattern_of_song(t, i);
    assert forall|j: int| 0 <= j < s.patterns.len() && j != i implies #[trigger] s.patterns[j] == t.patterns[j] by {
        assert(before.patterns[j] == after.patterns[j]);
    }
    lemma_same_voices(before, after, sr, i);
    assert(recelled(s.patterns[i], t.patterns[i]));
    lemma_recelled_drafts(s.patterns[i], t.patterns[i]);
    law_pattern_is_spliced_exactly(m, s, t, bank, own, i);
    law_placed_where_it_plays(after, sr, i);
    assert forall|j: int| 0 <= j < s.patterns.len() implies (#[trigger] s.patterns[j]).draft(1)->Ok_0.duration_samples
        == t.patterns[j].draft(1)->Ok_0.duration_samples by {}
    lemma_same_lengths(s, t, s.patterns.len() as int);
    assert(song::total_length(s, i) == song::total_length(t, i));
}

/// Whether a state differs from another in no more, of its song, than the
/// cells of the pattern being edited.
pub open spec fn cells_edited(e: EditorModel, after: EditorModel) -> bool {
    &&& after.current == e.current
    &&& after.song.patterns.len() == e.song.patterns.len()
    &&& forall|j: int|
        0 <= j < e.song.patterns.len() && j != e.current ==> #[trigger] e.song.patterns[j]
            == after.song.patterns[j]
    &&& recelled(e.cur(), after.cur())
}

proof fn lemma_cells_set(e: EditorModel, ch: char, now: u64)
    requires
        e.sound(),
    ensures
        cells_edited(e, e.note_set(ch, now).state),
{
}

proof fn lemma_cells_cleared(e: EditorModel, now: u64)
    requires
        e.sound(),
    ensures
        cells_edited(e, e.note_cleared(now).state),
{
}

/// Of all characters, only those of notes ask to render an edit.
proof fn lemma_typed(e: EditorModel, ch: char, control: bool, now: u64)
    requires
        e.typed(ch, control, now).actions.contains(Action::RenderEdit),
    ensures
        e.typed(ch, control, now) == e.note_set(ch, now),
{
    let actions = e.typed(ch, control, now).actions;
    let i = choose|i: int| 0 <= i < actions.len() && actions[i] == Action::RenderEdit;
    assert(actions[i] == Action::RenderEdit);
}

/// A key that asks to render an edit has changed no more than the cells of the
/// pattern being edited, and that pattern is still being edited.
pub proof fn law_edits_change_cells_alone(e: EditorModel, key: Key, control: bool, now: u64)
    requires
        e.sound(),
        e.pressed(key, control, now).actions.contains(Action::RenderEdit),
    ensures
        cells_edited(e, e.pressed(key, control, now).state),
{
    match key {
        Key::Char(ch) => {
            lemma_typed(e, ch, control, now);
            lemma_cells_set(e, ch, now);
        },
        Key::Delete => {
            lemma_cells_cleared(e, now);
        },
        Key::Backspace => {
            lemma_cells_cleared(e, now);
        },
        _ => {
            let actions = e.pressed(key, control, now).actions;
            let i = choose|i: int| 0 <= i < actions.len() && actions[i] == Action::RenderEdit;
            assert(actions[i] == Action::RenderEdit);
        },
    }
}

fn same_list(a: &Vec<Single>, b: &Vec<Single>) -> (r: bool)
    ensures
        r == (a@ == b@),
{
    if a.len() != b.len() {
        return false;
    }
    let mut i: usize = 0;
    while i < a.len()
        invariant
            i <= a@.len(),
            a@.len() == b@.len(),
            forall|k: int| 0 <= k < i ==> a@[k] == b@[k],
        decreases a.len() - i,
    {
        if a[i] != b[i] {
            return false;
        }
        i = i + 1;
    }
    assert(a@ =~= b@);
    true
}

fn same_voice(a: &VoiceDef, b: &VoiceDef) -> (r: bool)
    ensures
        r == (a@ == b@),
{
    match (a, b) {
        (VoiceDef::Sine { default_pan: x }, VoiceDef::Sine { default_pan: y }) => *x == *y,
        (
            VoiceDef::SinePartials { partials: p, amplitudes: v, default_pan: x },
            VoiceDef::SinePartials { partials: q, amplitudes: w, default_pan: y },
        ) => same_list(p, q) && same_list(v, w) && *x == *y,
        (
            VoiceDef::NoiseBandpass { q: p, default_pan: x },
            VoiceDef::NoiseBandpass { q, default_pan: y },
        ) => *p == *q && *x == *y,
        (
            VoiceDef::Fm { modulator_ratio: p, modulation_index: v, default_pan: x },
            VoiceDef::Fm { modulator_ratio: q, modulation_index: w, default_pan: y },
        ) => *p == *q && *v == *w && *x == *y,
        (
            VoiceDef::Sample { sample_id: p, loop_mode: x },
            VoiceDef::Sample { sample_id: q, loop_mode: y },
        ) => *p == *q && *x == *y,
        _ => false,
    }
}

fn shares(q: &Piece, p: &Piece, name: &str) -> (r: bool)
    ensures
        r == shared(q@, p@, name@),
{
    match (q.voices.get(name), p.voices.get(name)) {
        (Some(own), Some(def)) => {
            if !same_voice(own, def) {
                return false;
            }
            match own {
                VoiceDef::Sample { sample_id, .. } => match (
                    q.samples.get(sample_id.as_str()),
                    p.samples.get(sample_id.as_str()),
                ) {
                    (Some(a), Some(b)) => a.path == b.path && a.start_sample == b.start_sample
                        && a.end_sample == b.end_sample,
                    _ => false,
                },
                _ => true,
            }
        },
        _ => false,
    }
}

fn is_at_home(q: &Piece, p: &Piece, first: bool) -> (r: bool)
    ensures
        r == at_home(q@, p@, first),
{
    let mut k: usize = 0;
    while k < q.events.len()
        invariant
            k <= q.events@.len(),
            forall|j: int|
                0 <= j < k ==> {
                    let e = #[trigger] q@.events[j];
                    &&& shared(q@, p@, e.voice)
                    &&& q@.voices[e.voice] is NoiseBandpass ==> first
                },
        decreases q.events.len() - k,
    {
        let name: &str = q.events[k].voice.as_str();
        assert(q@.events[k as int].voice == name@);
        if !shares(q, p, name) {
            return false;
        }
        match q.voices.get(name) {
            Some(VoiceDef::NoiseBandpass { .. }) => {
                if !first {
                    return false;
                }
            },
            _ => {},
        }
        k = k + 1;
    }
    true
}

impl Editor {
    /// Whether the pattern being edited sounds the same within the song as by
    /// itself, at a rate: then it can be spliced into the sound of the song.
    pub fn splices_exactly(&self, sr: u32) -> (r: bool)
        requires
            self@.sound(),
        ensures
            r <==> self@.song.at_rate(sr).draft() is Ok && at_home(
                self@.cur().at_rate(sr).draft(1)->Ok_0,
                self@.song.at_rate(sr).draft()->Ok_0,
                self@.current == 0,
            ),
    {
        match (self.compile_pattern(sr), self.compile_song(sr)) {
            (Ok(q), Ok(p)) => is_at_home(&q, &p, self.current == 0),
            _ => {
                proof {
                    let s = self@.song.at_rate(sr);
                    if s.draft() is Ok {
                        song::lemma_pattern_of_song(s, self@.current);
                        assert(s.patterns[self@.current] == self@.cur().at_rate(sr));
                    }
                }
                false
            },
        }
    }
}

} // verus!
