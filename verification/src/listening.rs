//! What is heard of a song and of a file: which pattern and row a frame is in,
//! what the loop and the preview give out, and what the values of a file are.

use vstd::prelude::*;
use vstd::arithmetic::div_mod::*;

use crate::cells;
use crate::closeness;
use crate::closeness::{gap, whole};
use crate::editor::{EditorModel, PlayScope};
use crate::engine;
use crate::engine::Heads;
use crate::order;
use crate::pattern::{CellModel, PatternModel, TrackModel};
use crate::piece::SampleModel;
use crate::response;
use crate::session;
use crate::single;
use crate::single::Single;
use crate::song::SongModel;
use crate::timing;
use crate::view::Ground;
use crate::wav;
use crate::wav::{UnsupportedBits, WavInfo};

verus! {

/// A paused loop, or one without a frame, is silent, and its heads stay.
pub proof fn law_paused_loop_is_silent(
    heads: Heads,
    paused: bool,
    src: Seq<Single>,
    preview: Seq<Single>,
    channels: int,
    i: int,
)
    requires
        paused || src.len() < 2,
    ensures
        engine::played(heads, paused, src, preview, channels, i).bits == 0,
        engine::heads_after(heads, paused, src, preview, channels, i) == heads,
{
}

/// The loop plays frame after frame from its head, which stands on a frame, and
/// starts again at its end: left in the first channel, right in the second, and
/// nothing in any other.
pub proof fn law_loop_plays_in_turn(
    heads: Heads,
    src: Seq<Single>,
    preview: Seq<Single>,
    channels: int,
    f: int,
    c: int,
)
    requires
        src.len() >= 2,
        src.len() % 2 == 0,
        heads.preview + 1 >= preview.len(),
        0 <= f,
        0 <= c < channels,
    ensures
        ({
            let frames = src.len() as int / 2;
            let first = heads.play as int % src.len() as int / 2;
            let frame = (first + f) % frames;
            engine::played(heads, false, src, preview, channels, f * channels + c) == if c < 2 {
                src[2 * frame + c]
            } else {
                Single { bits: 0 }
            }
        }),
{
    let len: int = src.len() as int;
    let i: int = f * channels + c;
    assert(i / channels == f && i % channels == c) by {
        assert(f * channels == channels * f) by (nonlinear_arith);
        lemma_fundamental_div_mod_converse(i, channels, f, c);
    }
    let start: int = engine::first_head(heads.play, len);
    engine::lemma_first_head(heads.play, len);
    engine::lemma_head_is_modular(start, len, f);
    engine::law_preview_plays_once(heads.preview as int, preview.len() as int, f);
    let frames: int = len / 2;
    let first: int = heads.play as int % len / 2;
    assert(start == 2 * first);
    let x: int = first + f;
    assert(len == 2 * frames);
    assert((2 * x) % (2 * frames) == 2 * (x % frames)) by {
        lemma_fundamental_div_mod(x, frames);
        lemma_mod_bound(x, frames);
        assert(2 * x == (2 * frames) * (x / frames) + 2 * (x % frames)) by (nonlinear_arith)
            requires
                x == frames * (x / frames) + x % frames,
        ;
        lemma_fundamental_div_mod_converse(2 * x, 2 * frames, x / frames, 2 * (x % frames));
    }
}

/// Whether a value is another, kept to `[-1, 1]`.
pub open spec fn is_limited(y: Single, x: Single) -> bool {
    &&& gap(x.units()) <= whole() ==> y == x
    &&& x.units() > whole() ==> y.units() == whole()
    &&& x.units() < -whole() ==> y.units() == -whole()
}

proof fn lemma_limited(x: Single)
    requires
        x.finite(),
    ensures
        is_limited(x.clamped(Single { bits: single::MINUS_ONE }, Single { bits: single::ONE }), x),
{
    closeness::lemma_whole();
    single::lemma_less_is_by_value(x, Single { bits: single::MINUS_ONE });
    single::lemma_less_is_by_value(Single { bits: single::ONE }, x);
}

/// A preview sounds on top of the loop, at seven tenths of its loudness, and
/// goes on by a frame with every frame of the loop.
pub proof fn law_preview_sounds_on_top(
    heads: Heads,
    src: Seq<Single>,
    preview: Seq<Single>,
    channels: int,
    f: int,
    c: int,
)
    requires
        src.len() >= 2,
        0 <= f,
        0 <= c < 2,
        c < channels,
        heads.preview + 2 * f + 1 < preview.len(),
    ensures
        ({
            let i = f * channels + c;
            let alone = engine::played(heads, false, src, Seq::empty(), channels, i);
            let y = engine::played(heads, false, src, preview, channels, i);
            exists|g: Single|
                #[trigger] closeness::about(g, 7, 10, 4) && ({
                    let x = alone.sum(preview[heads.preview + 2 * f + c].product(g));
                    x.finite() ==> is_limited(y, x)
                })
        }),
{
    let i: int = f * channels + c;
    assert(i / channels == f && i % channels == c) by {
        assert(f * channels == channels * f) by (nonlinear_arith);
        lemma_fundamental_div_mod_converse(i, channels, f, c);
    }
    lemma_preview_goes_on(heads.preview as int, preview.len() as int, f);
    engine::law_preview_plays_once(heads.preview as int, 0, f);
    closeness::lemma_share(7, 10);
    reveal(Single::of_ratio);
    let g: Single = Single::of_ratio(7, 10);
    assert(closeness::about(g, 7, 10, 4));
    let alone: Single = engine::played(heads, false, src, Seq::empty(), channels, i);
    let x: Single = alone.sum(preview[heads.preview + 2 * f + c].product(g));
    if x.finite() {
        lemma_limited(x);
    }
}

proof fn lemma_preview_goes_on(start: int, len: int, f: int)
    requires
        0 <= f,
        start + 2 * f + 1 < len,
    ensures
        engine::preview_after(start, len, f) == start + 2 * f,
    decreases f,
{
    if f > 0 {
        lemma_preview_goes_on(start, len, f - 1);
    }
}

/// The full scale of a width.
pub open spec fn scale_of(bits: u16) -> int {
    if bits == 8 {
        127
    } else if bits == 16 {
        32767
    } else if bits == 24 {
        8388608
    } else {
        2147483648
    }
}

/// Whole samples of 8, 16, 24 and 32 bits decode to their part of full scale;
/// those of any other width are refused.
pub proof fn law_integers_decode_to_their_part(bytes: Seq<u8>, info: WavInfo, ints: Seq<Option<i32>>, k: int)
    requires
        !info.is_float,
        info.channels == 1,
        forall|i: int| 0 <= i < ints.len() ==> #[trigger] ints[i] is Some,
        0 <= k < ints.len(),
    ensures
        ({
            let bits = info.bits_per_sample;
            match wav::decoded(bytes, info, ints) {
                Ok((out, rate)) => {
                    &&& bits == 8 || bits == 16 || bits == 24 || bits == 32
                    &&& rate == info.sample_rate
                    &&& out.len() == ints.len()
                    &&& gap(ints[k]->0 as int) <= scale_of(bits) ==> closeness::about(
                        out[k],
                        ints[k]->0 as int,
                        scale_of(bits),
                        4,
                    )
                },
                Err(e) => bits != 8 && bits != 16 && bits != 24 && bits != 32 && e == UnsupportedBits(bits),
            }
        }),
{
    wav::lemma_all_readable(ints);
    let bits: u16 = info.bits_per_sample;
    let s: int = ints[k]->0 as int;
    if bits == 8 || bits == 16 || bits == 24 || bits == 32 {
        if gap(s) <= scale_of(bits) {
            lemma_part(s, scale_of(bits));
        }
    }
}

proof fn lemma_part(s: int, scale: int)
    requires
        gap(s) <= scale <= 0x8000_0000,
        0 < scale,
    ensures
        closeness::about(
            Single::of_int(s).quotient(Single::of_int(scale)).clamped(
                Single { bits: single::MINUS_ONE },
                Single { bits: single::ONE },
            ),
            s,
            scale,
            4,
        ),
{
    let m: int = gap(s);
    closeness::lemma_share(m, scale);
    let q: Single = Single::of_int(m).quotient(Single::of_int(scale));
    order::lemma_within_one(q);
    if s < 0 {
        order::lemma_of_int_finite(s);
        order::lemma_of_int_finite(m);
        order::lemma_of_int_finite(scale);
        closeness::lemma_of_int(scale);
        closeness::lemma_whole();
        assert(Single::of_int(s) == Single::of_int(m).negated()) by {
            reveal(Single::of_int);
            assert((-s) * whole() == m * whole());
        }
        let n: Single = Single::of_int(s).quotient(Single::of_int(scale));
        assert(n == q.negated()) by {
            reveal(Single::quotient);
        }
        order::lemma_within_one(n);
        let u: int = whole();
        assert(n.units() * scale - s * u == -(q.units() * scale - m * u)) by (nonlinear_arith)
            requires
                n.units() == -q.units(),
                s == -m,
        ;
        assert(gap(s) == gap(m));
    }
}

/// Two channels are folded to their mean, frame by frame.
pub proof fn law_two_channels_fold_to_their_mean(samples: Seq<Single>, f: int)
    requires
        0 <= f < samples.len() as int / 2,
        order::within_power(samples[2 * f], 100),
        order::within_power(samples[2 * f + 1], 100),
    ensures
        ({
            let out = wav::folded(samples, 2);
            let sum = samples[2 * f].units() + samples[2 * f + 1].units();
            &&& out.len() == samples.len() / 2
            &&& out[f].finite()
            &&& 0x100_0000 * gap(2 * out[f].units() - sum) <= 4 * gap(sum) + 0x200_0000
        }),
{
    let a: Single = samples[2 * f];
    let b: Single = samples[2 * f + 1];
    assert(f * 2 == 2 * f);
    reveal_with_fuel(wav::frame_sum, 2);
    assert(wav::folded(samples, 2)[f] == a.sum(b).quotient(Single::of_int(2)));
    order::lemma_sum_within_power(a, b, 100);
    closeness::lemma_sum(a, b);
    order::lemma_over_whole(a.sum(b), 2, 101);
    response::lemma_half(a.sum(b));
}

/// A reference to a part of a file takes the samples from its start up to its
/// end, which is that of the file where it is zero; and it is refused if and
/// only if they are not all there.
pub proof fn law_reference_takes_its_part(r: SampleModel, id: Seq<char>, mono: Seq<Single>)
    ensures
        ({
            let end = if r.end_sample == 0 { mono.len() as int } else { r.end_sample as int };
            match r.slice(id, mono) {
                Ok(part) => {
                    &&& r.start_sample <= end <= mono.len()
                    &&& part.len() == end - r.start_sample
                    &&& forall|k: int| 0 <= k < part.len() ==> #[trigger] part[k] == mono[r.start_sample + k]
                },
                Err(_) => end > mono.len() || r.start_sample > end,
            }
        }),
{
}

/// The frames of the patterns before the `i`th.
pub open spec fn frames_before(song: SongModel, sr: u32, i: int) -> int
    decreases i,
{
    if i <= 0 {
        0
    } else {
        frames_before(song, sr, i - 1) + song.patterns[i - 1].frames_per_row(sr) * song.patterns[i - 1].rows
    }
}

proof fn lemma_start(song: SongModel, sr: u32, i: int, k: int)
    requires
        0 <= i <= k <= song.patterns.len(),
        frames_before(song, sr, k) <= u64::MAX,
    ensures
        song.start(sr, i) == frames_before(song, sr, i),
        frames_before(song, sr, i) <= frames_before(song, sr, k),
        0 <= frames_before(song, sr, i),
    decreases k + i,
{
    if i < k {
        lemma_start(song, sr, i, k - 1);
        lemma_grows(song, sr, k);
    } else if i > 0 {
        lemma_grows(song, sr, k);
        lemma_start(song, sr, i - 1, k - 1);
    }
}

proof fn lemma_grows(song: SongModel, sr: u32, k: int)
    requires
        0 < k <= song.patterns.len(),
        frames_before(song, sr, k) <= u64::MAX,
    ensures
        frames_before(song, sr, k - 1) <= frames_before(song, sr, k),
        0 <= song.patterns[k - 1].frames_per_row(sr) * song.patterns[k - 1].rows,
{
    let p: PatternModel = song.patterns[k - 1];
    assert(p.frames_per_row(sr) * p.rows >= 0) by (nonlinear_arith);
}

/// A song plays its patterns one after the other, row by row: a frame of the
/// `r`th row of the `k`th pattern is found there.
pub proof fn law_song_plays_row_by_row(e: EditorModel, sr: u32, k: int, r: int, d: int)
    requires
        e.sound(),
        e.play_scope == PlayScope::Song,
        0 <= k < e.song.patterns.len(),
        0 <= r < e.song.patterns[k].rows,
        0 <= d < e.song.patterns[k].frames_per_row(sr),
        frames_before(e.song, sr, k + 1) < u64::MAX,
    ensures
        ({
            let frame = frames_before(e.song, sr, k) + r * e.song.patterns[k].frames_per_row(sr) + d;
            e.playing(sr, frame as u64) == (k, r as u32)
        }),
{
    let p: PatternModel = e.song.patterns[k];
    let spr: int = p.frames_per_row(sr) as int;
    let frame: int = frames_before(e.song, sr, k) + r * spr + d;
    assert(0 <= r * spr && r * spr + d < spr * p.rows) by (nonlinear_arith)
        requires
            0 <= r,
            r + 1 <= p.rows,
            0 <= d < spr,
    {
        assert((r + 1) * spr <= p.rows * spr);
        assert((r + 1) * spr == r * spr + spr);
    }
    lemma_start(e.song, sr, k, k + 1);
    lemma_under(e.song, sr, frame, 0, k);
    lemma_start(e.song, sr, k, k);
    lemma_fundamental_div_mod_converse(frame - frames_before(e.song, sr, k), spr, r, d);
    assert(spr * r == r * spr) by (nonlinear_arith);
}

/// The patterns before the one that holds a frame do not.
proof fn lemma_under(song: SongModel, sr: u32, frame: int, i: int, k: int)
    requires
        0 <= i <= k < song.patterns.len(),
        frames_before(song, sr, k + 1) < u64::MAX,
        frames_before(song, sr, k) <= frame < frames_before(song, sr, k + 1),
    ensures
        song.under(sr, frame as u64, i) == song.under(sr, frame as u64, k),
    decreases k - i,
{
    if i < k {
        lemma_start(song, sr, i, k + 1);
        lemma_start(song, sr, i + 1, k + 1);
        lemma_start(song, sr, k, k + 1);
        lemma_start(song, sr, i + 1, k);
        lemma_under(song, sr, frame, i + 1, k);
    }
}

/// A pattern that plays by itself starts again after its last row.
pub proof fn law_pattern_plays_round(e: EditorModel, sr: u32, turn: int, r: int, d: int)
    requires
        e.sound(),
        e.play_scope == PlayScope::Pattern,
        0 <= turn,
        0 <= r < e.cur().rows,
        0 <= d < e.cur().frames_per_row(sr),
        (turn * e.cur().rows + r) * e.cur().frames_per_row(sr) + d <= u64::MAX,
    ensures
        ({
            let frame = (turn * e.cur().rows + r) * e.cur().frames_per_row(sr) + d;
            e.playing(sr, frame as u64) == (e.current, r as u32)
        }),
{
    let p: PatternModel = e.cur();
    let spr: int = p.frames_per_row(sr) as int;
    let rows: int = p.rows as int;
    let n: int = turn * rows + r;
    assert(n >= 0 && n * spr >= 0) by (nonlinear_arith)
        requires
            n == turn * rows + r,
            turn >= 0,
            rows >= 0,
            r >= 0,
            spr >= 0,
    ;
    assert(spr * n == n * spr && rows * turn == turn * rows) by (nonlinear_arith);
    lemma_fundamental_div_mod_converse(n * spr + d, spr, n, d);
    lemma_fundamental_div_mod_converse(n, rows, turn, r);
}

/// The rows of the playhead are as long as the tempo says.
pub proof fn law_playhead_goes_by_tempo(p: PatternModel, sr: u32)
    requires
        sr > 0,
        p.lines_per_beat > 0,
        timing::ordinary(p.tempo_bpm),
        p.frames_per_row(sr) <= 0x100_0000_0000,
    ensures
        p.frames_per_row(sr) == 1 || timing::is_row(
            p.frames_per_row(sr) as int,
            sr as int,
            p.tempo_bpm,
            p.lines_per_beat as int,
        ),
{
    timing::lemma_row(sr, p.tempo_bpm, p.lines_per_beat);
}

/// A view that follows the playhead shows the row that plays, in the middle of
/// the lines that it has, unless the pattern starts or ends before.
pub proof fn law_view_follows_the_playhead(e: EditorModel, sr: u32, frame: u64, height: u16)
    requires
        e.sound(),
        e.follow_playhead,
    ensures
        ({
            let after = e.followed(sr, frame, height);
            let (pat, row) = e.playing(sr, frame);
            let lines = if height <= 18 { 1int } else { height - 18 };
            let rows = after.cur().rows as int;
            let top = after.scroll as int;
            &&& after.current == pat
            &&& after.sound()
            &&& after.song == e.song
            &&& rows > 0 ==> top <= row < top + lines
            &&& top == 0 || top + lines <= rows
            &&& row - top == lines / 2 || (row - top < lines / 2 && top == 0) || (row - top > lines / 2 && top + lines
                >= rows)
        }),
{
    session::law_playing_is_on_grid(e, sr, frame);
}

/// A message is gone a second and a half after it came, and not before.
pub proof fn law_message_goes_by_itself(e: EditorModel, now: u64)
    requires
        e.status is Some,
    ensures
        e.aged(now).status is None <==> now - e.status->0.at > 1500,
        e.aged(now).song == e.song,
{
}

/// A file that others have changed is read again, once.
pub proof fn law_change_is_read_once(e: EditorModel, seen: Option<u128>)
    requires
        !e.skip_next_reload,
    ensures
        e.reload_due(seen) <==> seen is Some && seen != e.last_mtime,
        !e.watched(seen).reload_due(seen),
{
}

/// The preview of a row is its cell alone, at the start of sixteen rows, with
/// the tempo, the voices and the track that it has; and there is one if and only
/// if the row has a cell in the cursor's track.
pub proof fn law_preview_plays_the_cell(e: EditorModel, row: u32, sr: u32)
    requires
        e.sound(),
    ensures
        ({
            let p = e.cur();
            let cells = p.tracks[e.cursor_track].cells;
            match e.preview(row, sr) {
                None => e.cursor_track >= p.tracks.len() || forall|i: int|
                    0 <= i < cells.len() ==> (#[trigger] cells[i]).row != row,
                Some(q) => {
                    &&& e.cursor_track < p.tracks.len()
                    &&& q.sample_rate == sr && q.tempo_bpm == p.tempo_bpm && q.lines_per_beat == p.lines_per_beat
                    &&& q.rows == 16
                    &&& q.voices == p.voices && q.samples == p.samples
                    &&& q.tracks.len() == 1 && q.tracks[0].cells.len() == 1
                    &&& q.tracks[0] == (TrackModel { cells: q.tracks[0].cells, ..p.tracks[e.cursor_track] })
                    &&& exists|i: int|
                        0 <= i < cells.len() && (#[trigger] cells[i]).row == row && q.tracks[0].cells[0] == (CellModel {
                            row: 0,
                            ..cells[i]
                        })
                },
            }
        }),
{
    let p: PatternModel = e.cur();
    if e.cursor_track < p.tracks.len() {
        let cells: Seq<CellModel> = p.tracks[e.cursor_track].cells;
        cells::lemma_find(cells, row, 0);
        let i: int = cells::find(cells, row, 0);
        if i < cells.len() {
            assert(cells[i].row == row);
        }
    }
}

/// After some values the head of the loop stands as many frames further on as
/// they make, the last one perhaps cut short, round the end.
pub proof fn law_head_goes_on(heads: Heads, src: Seq<Single>, preview: Seq<Single>, channels: int, f: int, c: int)
    requires
        src.len() >= 2,
        src.len() % 2 == 0,
        src.len() <= u64::MAX,
        0 <= f,
        0 <= c < channels,
    ensures
        ({
            let frames = src.len() as int / 2;
            let first = heads.play as int % src.len() as int / 2;
            let after = engine::heads_after(heads, false, src, preview, channels, f * channels + c);
            let gone = if c == 0 { f } else { f + 1 };
            after.play == 2 * ((first + gone) % frames)
        }),
{
    let len: int = src.len() as int;
    let n: int = f * channels + c;
    let gone: int = if c == 0 { f } else { f + 1 };
    assert(engine::frames(n, channels) == gone) by {
        assert(channels * f == f * channels && channels * (f + 1) == f * channels + channels) by (nonlinear_arith);
        if c == 0 {
            lemma_fundamental_div_mod_converse(n + channels - 1, channels, f, channels - 1);
        } else {
            lemma_fundamental_div_mod_converse(n + channels - 1, channels, f + 1, c - 1);
        }
    }
    let start: int = engine::first_head(heads.play, len);
    engine::lemma_first_head(heads.play, len);
    engine::lemma_head_is_modular(start, len, gone);
    let frames: int = len / 2;
    let first: int = heads.play as int % len / 2;
    assert(start == 2 * first);
    let x: int = first + gone;
    assert((2 * x) % (2 * frames) == 2 * (x % frames)) by {
        lemma_fundamental_div_mod(x, frames);
        lemma_mod_bound(x, frames);
        assert(2 * x == (2 * frames) * (x / frames) + 2 * (x % frames)) by (nonlinear_arith)
            requires
                x == frames * (x / frames) + x % frames,
        ;
        lemma_fundamental_div_mod_converse(2 * x, 2 * frames, x / frames, 2 * (x % frames));
    }
}

/// The grid shows a cell as filled if and only if there is one in its row, and
/// tells the cursor before the playhead, and that before the cursor's row.
pub proof fn law_grid_shows_the_cells(e: EditorModel, row: u32, track: int, playhead: Option<u32>)
    requires
        e.sound(),
        0 <= track < e.cur().tracks.len(),
    ensures
        ({
            let g = e.grid_cell(row, track, playhead);
            let cells = e.cur().tracks[track].cells;
            &&& g.filled <==> exists|i: int| 0 <= i < cells.len() && (#[trigger] cells[i]).row == row
            &&& g.color == track % 8
            &&& g.ground == Ground::Cursor <==> row == e.cursor_row && track == e.cursor_track
            &&& g.ground == Ground::Playing <==> playhead == Some(row) && !(row == e.cursor_row && track
                == e.cursor_track)
            &&& g.ground == Ground::CursorRow <==> row == e.cursor_row && track != e.cursor_track && playhead != Some(
                row,
            )
            &&& e.grid_line(row, playhead).cells[track] == g
            &&& e.grid_line(row, playhead).playing <==> playhead == Some(row)
        }),
{
    let cells: Seq<CellModel> = e.cur().tracks[track].cells;
    cells::lemma_find(cells, row, 0);
    let i: int = cells::find(cells, row, 0);
    if i < cells.len() {
        assert(cells[i].row == row);
    }
}

/// The sum of `n` values from `at` on, and that of their sizes, in units.
pub open spec fn sum_of(s: Seq<Single>, at: int, n: int) -> int
    decreases n,
{
    if n <= 0 {
        0
    } else {
        sum_of(s, at, n - 1) + s[at + n - 1].units()
    }
}

pub open spec fn sizes_of(s: Seq<Single>, at: int, n: int) -> int
    decreases n,
{
    if n <= 0 {
        0
    } else {
        sizes_of(s, at, n - 1) + gap(s[at + n - 1].units())
    }
}

proof fn lemma_frame(s: Seq<Single>, at: int, n: int)
    requires
        1 <= n <= 0x1_0000,
        0 <= at,
        at + n <= s.len(),
        forall|j: int| 0 <= j < s.len() ==> (#[trigger] s[j]).finite(),
        wav::frame_sum(s, at, n).finite(),
    ensures
        sizes_of(s, at, n) >= 0,
        gap(sum_of(s, at, n)) <= sizes_of(s, at, n),
        0x100_0000 * gap(wav::frame_sum(s, at, n).units() - sum_of(s, at, n)) <= 2 * n * sizes_of(s, at, n),
    decreases n,
{
    if n > 1 {
        let before: Single = wav::frame_sum(s, at, n - 1);
        let x: Single = s[at + n - 1];
        response::lemma_summands(before, x);
        lemma_frame(s, at, n - 1);
        closeness::lemma_sum(before, x);
        let a: int = sizes_of(s, at, n - 1);
        let t: int = sum_of(s, at, n - 1);
        let v: int = x.units();
        let k: int = n - 1;
        assert(2 * k * a <= 0x2_0000 * a && 2 * (k + 1) * (a + gap(v)) >= 2 * k * a + 2 * a + 2 * gap(v) && 2 * k * a
            >= 0) by (nonlinear_arith)
            requires
                0 <= k < 0x1_0000,
                a >= 0,
                gap(v) >= 0,
        ;
        assert(gap(before.units() + v) <= 2 * a + gap(v));
    } else {
        assert(sum_of(s, at, 0) == 0 && sizes_of(s, at, 0) == 0);
        assert(wav::frame_sum(s, at, 1) == s[at]);
        assert(2 * 1 * sizes_of(s, at, 1) >= 0);
    }
}

/// Any number of channels is folded to their mean, frame by frame.
pub proof fn law_channels_fold_to_their_mean(samples: Seq<Single>, channels: u16, f: int)
    requires
        channels >= 2,
        0 <= f < samples.len() as int / channels as int,
        forall|j: int| 0 <= j < samples.len() ==> (#[trigger] samples[j]).finite(),
        order::within_power(wav::frame_sum(samples, f * channels, channels as int), 100),
    ensures
        ({
            let n = channels as int;
            let out = wav::folded(samples, channels);
            &&& out.len() == samples.len() / channels as nat
            &&& out[f].finite()
            &&& 0x100_0000 * gap(out[f].units() * n - sum_of(samples, f * n, n)) <= (2 * n + 2) * sizes_of(
                samples,
                f * n,
                n,
            ) + 0x80_0000 * n
        }),
{
    closeness::lemma_whole();
    let n: int = channels as int;
    let at: int = f * n;
    let u: int = whole();
    assert(0 <= at && at + n <= samples.len()) by {
        lemma_fundamental_div_mod(samples.len() as int, n);
        lemma_mod_bound(samples.len() as int, n);
        let d: int = samples.len() as int / n;
        assert(0 <= f * n && (f + 1) * n == f * n + n && (f + 1) * n <= d * n && d * n == n * d) by (nonlinear_arith)
            requires
                0 <= f < d,
                n > 0,
        ;
    }
    let s: Single = wav::frame_sum(samples, at, n);
    lemma_frame(samples, at, n);
    closeness::lemma_of_int(n);
    order::lemma_over_whole(s, n, 100);
    let q: Single = s.quotient(Single::of_int(n));
    assert(q == wav::folded(samples, channels)[f]);
    closeness::lemma_quotient(s, Single::of_int(n));
    let e: int = q.units() * n - s.units();
    assert(q.units() * (n * u) - s.units() * u == e * u) by (nonlinear_arith)
        requires
            e == q.units() * n - s.units(),
    ;
    closeness::lemma_gap_product(e, u);
    assert(0x100_0000 * gap(e) <= gap(s.units()) + 0x80_0000 * n) by (nonlinear_arith)
        requires
            0x100_0000 * (gap(e) * u) <= gap(s.units()) * u + 0x80_0000 * (n * u),
            u > 0,
    ;
    let a: int = sizes_of(samples, at, n);
    assert(2 * n * a <= 0x2_0000 * a && (2 * n + 2) * a == 2 * n * a + 2 * a) by (nonlinear_arith)
        requires
            0 <= n <= 0xffff,
            a >= 0,
    ;
}

} // verus!
