//! What an imported MOD plays, told from the bytes of the file.
//!
//! A MOD of four channels begins with 20 bytes of title, 31 headers of 30 bytes
//! for its samples, the length of the song at byte 950, the order of its
//! patterns from byte 952 on, and a signature at byte 1080. From byte 1084 on
//! stand the patterns: 64 rows of four notes of four bytes each. The samples
//! follow, as signed bytes.

use vstd::prelude::*;
use vstd::arithmetic::power2::*;

use crate::closeness;
use crate::closeness::{gap, whole};
use crate::gapless;
use crate::mod_import;
use crate::mod_import::{ExportModel, HeaderModel, Trigger};
use crate::note::NoteModel;
use crate::order;
use crate::pattern::{CellModel, PatternModel, TrackModel};
use crate::piece::{Envelope, SampleLoopMode, VoiceModel};
use crate::single;
use crate::single::Single;
use crate::text;
use crate::timing;

verus! {

/// Bytes of a sample: its header has half of them, the high byte first.
pub open spec fn sample_bytes(data: Seq<u8>, s: int) -> int {
    2 * (256 * data[42 + 30 * s] + data[43 + 30 * s])
}

/// The volume of a sample: 64 is full, and no more.
pub open spec fn volume(data: Seq<u8>, s: int) -> int {
    if data[45 + 30 * s] > 64 {
        64
    } else {
        data[45 + 30 * s] as int
    }
}

/// Where the part that a sample repeats starts, and how long it is.
pub open spec fn repeats_from(data: Seq<u8>, s: int) -> int {
    2 * (256 * data[46 + 30 * s] + data[47 + 30 * s])
}

pub open spec fn repeats_for(data: Seq<u8>, s: int) -> int {
    2 * (256 * data[48 + 30 * s] + data[49 + 30 * s])
}

/// Patterns that the song plays.
pub open spec fn song_length(data: Seq<u8>) -> int {
    data[950] as int
}

/// Where the `x`th note that the song plays is stored: four to the row, 64
/// rows to the pattern.
pub open spec fn note_at(data: Seq<u8>, x: int) -> int {
    1084 + 1024 * data[952 + x / 256] + 4 * (x % 256)
}

/// The period of the `x`th note: the low half of its first byte, and its
/// second.
pub open spec fn period(data: Seq<u8>, x: int) -> int {
    256 * (data[note_at(data, x)] % 16) + data[note_at(data, x) + 1]
}

/// The sample number of the `x`th note: the high half of its first byte, and
/// that of its third.
pub open spec fn number(data: Seq<u8>, x: int) -> int {
    16 * (data[note_at(data, x)] / 16) + data[note_at(data, x) + 2] / 16
}

/// The sample that the channel of the `x`th note plays there: the last one
/// with data that this note, or one before it on the channel, names.
pub open spec fn playing(data: Seq<u8>, x: int) -> Option<int>
    decreases x + 4,
{
    if x < 0 {
        None
    } else if 1 <= number(data, x) <= 31 && sample_bytes(data, number(data, x) - 1) > 0 {
        Some(number(data, x) - 1)
    } else {
        playing(data, x - 4)
    }
}

/// Whether the `x`th note is heard.
pub open spec fn heard(data: Seq<u8>, x: int) -> bool {
    period(data, x) > 0 && playing(data, x) is Some
}

/// The name of a sample's voice.
pub open spec fn voice_name(s: int) -> Seq<char> {
    "sample_"@ + text::two_digits((s + 1) as nat)
}

/// Whether a pan is that of a channel: the outer ones left, the inner ones
/// right, by 0.65.
pub open spec fn is_pan(pan: Single, channel: int) -> bool {
    &&& pan.finite()
    &&& channel == 0 || channel == 3 ==> 0x100_0000 * gap(100 * pan.units() + 65 * whole()) <= 4 * (65 * whole())
    &&& channel == 1 || channel == 2 ==> 0x100_0000 * gap(100 * pan.units() - 65 * whole()) <= 4 * (65 * whole())
}

/// Whether a track is that of a sample on a channel.
pub open spec fn is_track(data: Seq<u8>, t: TrackModel, channel: int, s: int) -> bool {
    &&& t.instrument is None
    &&& t.voice == Some(voice_name(s))
    &&& t.default_amp is Some && t.default_amp->0.finite() && 64 * t.default_amp->0.units() == volume(data, s)
        * whole()
    &&& t.default_pan is Some && is_pan(t.default_pan->0, channel)
    &&& t.default_envelope == Some(Envelope::Gate)
    &&& t.default_fx is Some && t.default_fx->0.len() == 0
    &&& t.default_pitch_env is None
}

/// Whether a cell is that of the `x`th note: in its row, at the frequency of
/// its period by the clock of a PAL Amiga, the sample as fast as that is of the
/// rate of the pattern, and as long as it takes to the next note that is heard
/// on the channel, or to the end.
pub open spec fn is_cell(data: Seq<u8>, c: CellModel, x: int) -> bool {
    &&& c.row == x / 4
    &&& c.note matches NoteModel::Hz(f) && closeness::about(f, 7093789, 2 * period(data, x), 4)
    &&& c.pitch_ratio is Some && closeness::about(c.pitch_ratio->0, 7093789, 2 * period(data, x) * 48000, 6)
    &&& c.velocity is None && c.pan is None && c.pitch_env is None && c.fx.len() == 0
    &&& exists|rows: int| c.duration_rows == Some(#[trigger] Single::of_int(rows)) && lasts(data, x, rows)
}

/// Whether the `x`th note lasts so many rows.
pub open spec fn lasts(data: Seq<u8>, x: int, rows: int) -> bool {
    &&& rows >= 1
    &&& x / 4 + rows <= 64 * song_length(data)
    &&& x / 4 + rows == 64 * song_length(data) || heard(data, x + 4 * rows)
    &&& forall|y: int| x < y < x + 4 * rows && y % 4 == x % 4 ==> !#[trigger] heard(data, y)
}

spec fn orders(data: Seq<u8>) -> Seq<u8> {
    data.subrange(952, 952 + song_length(data))
}

spec fn headers(data: Seq<u8>) -> Seq<HeaderModel> {
    mod_import::headers_of(data)
}

spec fn triggers(data: Seq<u8>) -> Seq<Trigger> {
    mod_import::scanned(data, 1084, orders(data), headers(data), song_length(data) * 256).triggers
}

spec fn rows_in_all(data: Seq<u8>) -> u32 {
    (song_length(data) * 64) as u32
}

/// The two ways to tell a note from the bytes agree.
proof fn lemma_note(data: Seq<u8>, x: int)
    requires
        data.len() >= 1084,
        x < song_length(data) * 256,
        1 <= song_length(data) <= 128,
    ensures
        0 <= x ==> mod_import::period_at(data, 1084, orders(data), x) == period(data, x),
        mod_import::sample_at(data, 1084, orders(data), headers(data), x) == (match playing(data, x) {
            Some(s) => Some(s as usize),
            None => None,
        }),
        playing(data, x) is Some ==> 0 <= playing(data, x)->0 < 31 && sample_bytes(data, playing(data, x)->0) > 0,
    decreases x + 4,
{
    if x >= 0 {
        lemma_note(data, x - 4);
        assert(orders(data)[x / 256] == data[952 + x / 256]);
        assert(mod_import::slot(1084, orders(data), x) == note_at(data, x));
        let n: int = number(data, x);
        assert(mod_import::number_at(data, 1084, orders(data), x) == n);
        if 1 <= n <= 31 {
            assert(headers(data)[n - 1].len_bytes == sample_bytes(data, n - 1));
        }
    }
}

proof fn lemma_is_pan(channel: int)
    requires
        0 <= channel < 4,
    ensures
        is_pan(mod_import::pan_of(channel), channel),
{
    reveal(Single::of_ratio);
    closeness::lemma_share(65, 100);
    let y: Single = Single::of_int(65).quotient(Single::of_int(100));
    let z: Single = Single::of_int(-65).quotient(Single::of_int(100));
    order::lemma_of_int_size(-65);
    order::lemma_of_int_size(65);
    order::lemma_of_int_finite(65);
    order::lemma_of_int_finite(100);
    assert(Single::of_int(-65) == Single::of_int(65).negated()) by {
        single::lemma_same_size(Single::of_int(-65), Single::of_int(65).negated());
    }
    assert(z == y.negated()) by {
        reveal(Single::quotient);
    }
    assert(z.units() == -y.units());
    assert(gap(65) * whole() == 65 * whole());
}

proof fn lemma_amp(data: Seq<u8>, s: int)
    requires
        0 <= s < 31,
        data.len() >= 1084,
    ensures
        ({
            let amp = Single::of_int(mod_import::header(data, s).volume).quotient(Single::of_int(64)).clamped(
                Single { bits: 0 },
                Single { bits: single::ONE },
            );
            amp.finite() && 64 * amp.units() == volume(data, s) * whole()
        }),
{
    lemma2_to64();
    let v: int = mod_import::header(data, s).volume;
    assert(v == volume(data, s));
    closeness::lemma_part_of_power(v, 6);
    closeness::lemma_share(v, 64);
    let q: Single = Single::of_int(v).quotient(Single::of_int(64));
    order::lemma_within_one(q);
    assert(q.clamped(Single { bits: 0 }, Single { bits: single::ONE }) == q);
}

/// The pitch of a period.
proof fn lemma_pitch(p: u16)
    requires
        0 < p < 4096,
    ensures
        closeness::about(mod_import::hz_of(p), 7093789, 2 * p as int, 4),
        closeness::about(
            mod_import::hz_of(p).quotient(Single::of_int(48000)).larger(Single::of_ratio(1, 1000)),
            7093789,
            2 * p as int * 48000,
            6,
        ),
{
    closeness::lemma_whole_product(2, p as int);
    closeness::lemma_ratio(7093789, 2 * p as int);
    closeness::lemma_whole();
    let hz: Single = mod_import::hz_of(p);
    let u: int = whole();
    let d: int = 2 * p as int;
    order::lemma_whole_bound(7093789);
    order::lemma_over_whole(Single::of_int(7093789), d, 65);
    lemma_pow2_strictly_increases(214, 249);
    assert(gap(7093789) * u == 7093789 * u);
    // at least 800 Hz
    assert(hz.units() >= 800 * u) by (nonlinear_arith)
        requires
            0x100_0000 * (7093789 * u - hz.units() * d) <= 4 * (7093789 * u) || hz.units() * d >= 7093789 * u,
            0 < d < 8192,
            u > 0,
    {
        if hz.units() < 800 * u {
            assert(hz.units() * d <= (800 * u) * d);
            assert((800 * u) * d <= (800 * u) * 8192);
        }
    }
    closeness::lemma_over(hz, 7093789, d, 4, 48000);
    let r: Single = hz.quotient(Single::of_int(48000));
    // more than a thousandth
    reveal(Single::of_ratio);
    closeness::lemma_share(1, 1000);
    let t: Single = Single::of_int(1).quotient(Single::of_int(1000));
    assert(gap(1) * u == u && gap(7093789) * u == 7093789 * u);
    assert(r.units() >= t.units()) by (nonlinear_arith)
        requires
            0x100_0000 * (7093789 * u - r.units() * (d * 48000)) <= 6 * (7093789 * u) || r.units() * (d * 48000)
                >= 7093789 * u,
            0x100_0000 * (t.units() * 1000 - u) <= 4 * u || t.units() * 1000 <= u,
            0 < d < 8192,
            u > 0,
    {
        if r.units() < t.units() {
            assert(t.units() * 1000 <= 2 * u);
            assert(r.units() * 1000 <= 2 * u);
            assert((r.units() * 1000) * (d * 48) <= (2 * u) * (d * 48));
            assert((2 * u) * (d * 48) <= (2 * u) * (8192 * 48));
        }
    }
    single::lemma_less_is_by_value(r, t);
}

/// Whether the song of a file can be read.
spec fn readable(data: Seq<u8>) -> bool {
    data.len() >= 1084 && 1 <= song_length(data) <= 128
}

/// An imported song can be read; its tracks are those of its triggers.
proof fn lemma_imported(data: Seq<u8>)
    requires
        mod_import::imported(data) is Ok,
    ensures
        readable(data),
        mod_import::imported(data)->Ok_0.0.tracks == mod_import::tracks_of(
            data,
            triggers(data),
            rows_in_all(data),
            124,
        ),
{
}

/// A trigger is a note that is heard.
proof fn lemma_trigger(data: Seq<u8>, i: int)
    requires
        readable(data),
        0 <= i < triggers(data).len(),
    ensures
        ({
            let t = triggers(data)[i];
            let x = t.row * 4 + t.channel;
            &&& 0 <= x < song_length(data) * 256
            &&& t.channel < 4
            &&& t.channel == x % 4
            &&& t.row == x / 4
            &&& heard(data, x)
            &&& 0 <= playing(data, x)->0 < 31
            &&& t.sample_index == playing(data, x)->0
            &&& t.period == period(data, x)
            &&& 0 < t.period < 4096
        }),
{
    let n: int = song_length(data) * 256;
    mod_import::lemma_triggers_are_notes(data, 1084, orders(data), headers(data), n);
    let t: Trigger = triggers(data)[i];
    let x: int = t.row * 4 + t.channel;
    assert(mod_import::is_note(data, 1084, orders(data), headers(data), n, t));
    lemma_note(data, x);
}

/// A note that is heard has a trigger.
proof fn lemma_triggered(data: Seq<u8>, x: int) -> (i: int)
    requires
        readable(data),
        0 <= x < song_length(data) * 256,
        heard(data, x),
    ensures
        0 <= i < triggers(data).len(),
        triggers(data)[i].row == x / 4,
        triggers(data)[i].channel == x % 4,
{
    let n: int = song_length(data) * 256;
    let ts: Seq<Trigger> = triggers(data);
    mod_import::lemma_triggers_are_notes(data, 1084, orders(data), headers(data), n);
    lemma_note(data, x);
    assert(mod_import::period_at(data, 1084, orders(data), x) > 0);
    let i: int = choose|i: int| 0 <= i < ts.len() && mod_import::place(#[trigger] ts[i]) == x;
    lemma_trigger(data, i);
    i
}

/// No two triggers are in one row of one channel.
proof fn lemma_alone(data: Seq<u8>, i: int, j: int)
    requires
        readable(data),
        0 <= i < triggers(data).len(),
        0 <= j < triggers(data).len(),
        i != j,
        triggers(data)[i].channel == triggers(data)[j].channel,
    ensures
        triggers(data)[i].row != triggers(data)[j].row,
{
    let n: int = song_length(data) * 256;
    if i < j {
        mod_import::law_triggers_come_in_order(data, 1084, orders(data), headers(data), n, i, j);
    } else {
        mod_import::law_triggers_come_in_order(data, 1084, orders(data), headers(data), n, j, i);
    }
}

/// A trigger lasts to the next note that is heard on its channel.
proof fn lemma_lasts(data: Seq<u8>, i: int)
    requires
        readable(data),
        0 <= i < triggers(data).len(),
    ensures
        lasts(
            data,
            triggers(data)[i].row * 4 + triggers(data)[i].channel,
            mod_import::rows_of(triggers(data), rows_in_all(data), i),
        ),
{
    let ts: Seq<Trigger> = triggers(data);
    let total: u32 = rows_in_all(data);
    let t: Trigger = ts[i];
    let x: int = t.row * 4 + t.channel;
    let rows: int = mod_import::rows_of(ts, total, i);
    lemma_trigger(data, i);
    assert(total == 64 * song_length(data));
    assert forall|j: int| 0 <= j < ts.len() && j != i && (#[trigger] ts[j]).channel == t.channel implies ts[j].row
        != t.row by {
        lemma_alone(data, i, j);
    }
    mod_import::law_trigger_lasts_to_the_next(ts, total, i);
    assert(t.row + rows <= total) by {
        if exists|j: int|
            0 <= j < ts.len() && (#[trigger] ts[j]).channel == t.channel && ts[j].row > t.row {
            let j: int = choose|j: int|
                0 <= j < ts.len() && (#[trigger] ts[j]).channel == t.channel && ts[j].row == t.row + rows;
            lemma_trigger(data, j);
        }
    }
    assert forall|y: int| x < y < x + 4 * rows && y % 4 == x % 4 implies !#[trigger] heard(data, y) by {
        if heard(data, y) {
            let j: int = lemma_triggered(data, y);
            assert(ts[j].channel == t.channel && t.row < ts[j].row < t.row + rows);
        }
    }
    if t.row + rows != total {
        let j: int = choose|j: int|
            0 <= j < ts.len() && (#[trigger] ts[j]).channel == t.channel && ts[j].row == t.row + rows;
        lemma_trigger(data, j);
        assert(ts[j].row * 4 + ts[j].channel == x + 4 * rows);
    }
}

/// A trigger is the cell of its note.
proof fn lemma_cell(data: Seq<u8>, i: int)
    requires
        readable(data),
        0 <= i < triggers(data).len(),
    ensures
        ({
            let t = triggers(data)[i];
            is_cell(
                data,
                mod_import::cell_of(t, mod_import::rows_of(triggers(data), rows_in_all(data), i)),
                t.row * 4 + t.channel,
            )
        }),
{
    let t: Trigger = triggers(data)[i];
    let rows: int = mod_import::rows_of(triggers(data), rows_in_all(data), i);
    lemma_trigger(data, i);
    lemma_lasts(data, i);
    lemma_pitch(t.period);
    assert(mod_import::cell_of(t, rows).duration_rows == Some(Single::of_int(rows)));
}

/// The cells of a track are those of its triggers, in order.
proof fn lemma_cells(ts: Seq<Trigger>, total: u32, channel: int, sample: int, n: int)
    requires
        0 <= n <= ts.len(),
    ensures
        ({
            let cells = mod_import::cells_of(ts, total, channel, sample, n);
            &&& forall|q: int|
                0 <= q < cells.len() ==> exists|i: int|
                    0 <= i < n && (#[trigger] ts[i]).channel == channel && ts[i].sample_index == sample
                        && #[trigger] cells[q] == mod_import::cell_of(ts[i], mod_import::rows_of(ts, total, i))
            &&& forall|i: int|
                0 <= i < n && (#[trigger] ts[i]).channel == channel && ts[i].sample_index == sample ==> exists|q: int|
                    0 <= q < cells.len() && #[trigger] cells[q] == mod_import::cell_of(
                        ts[i],
                        mod_import::rows_of(ts, total, i),
                    )
        }),
    decreases n,
{
    if n > 0 {
        lemma_cells(ts, total, channel, sample, n - 1);
        let before: Seq<CellModel> = mod_import::cells_of(ts, total, channel, sample, n - 1);
        let cells: Seq<CellModel> = mod_import::cells_of(ts, total, channel, sample, n);
        assert forall|q: int| 0 <= q < cells.len() implies exists|i: int|
            0 <= i < n && (#[trigger] ts[i]).channel == channel && ts[i].sample_index == sample
                && #[trigger] cells[q] == mod_import::cell_of(ts[i], mod_import::rows_of(ts, total, i)) by {
            if q < before.len() {
                assert(cells[q] == before[q]);
                let i: int = choose|i: int|
                    0 <= i < n - 1 && (#[trigger] ts[i]).channel == channel && ts[i].sample_index == sample
                        && before[q] == mod_import::cell_of(ts[i], mod_import::rows_of(ts, total, i));
                assert(ts[i].channel == channel);
            } else {
                assert(ts[n - 1].channel == channel);
            }
        }
        assert forall|i: int|
            0 <= i < n && (#[trigger] ts[i]).channel == channel && ts[i].sample_index == sample implies exists|q: int|
            0 <= q < cells.len() && #[trigger] cells[q] == mod_import::cell_of(
                ts[i],
                mod_import::rows_of(ts, total, i),
            ) by {
            if i < n - 1 {
                let q: int = choose|q: int|
                    0 <= q < before.len() && #[trigger] before[q] == mod_import::cell_of(
                        ts[i],
                        mod_import::rows_of(ts, total, i),
                    );
                assert(cells[q] == before[q]);
            } else {
                assert(cells[before.len() as int] == mod_import::cell_of(
                    ts[i],
                    mod_import::rows_of(ts, total, i),
                ));
            }
        }
    }
}

/// A track is that of a pair of a channel and a sample that has cells.
proof fn lemma_from_pair(data: Seq<u8>, ts: Seq<Trigger>, total: u32, n: int, k: int) -> (y: int)
    requires
        0 <= n <= 124,
        0 <= k < mod_import::tracks_of(data, ts, total, n).len(),
    ensures
        0 <= y < n,
        mod_import::tracks_of(data, ts, total, n)[k] == pair_track(data, ts, total, y),
        pair_track(data, ts, total, y).cells.len() > 0,
    decreases n,
{
    if n > 0 && k < mod_import::tracks_of(data, ts, total, n - 1).len() {
        lemma_from_pair(data, ts, total, n - 1, k)
    } else {
        reveal(pair_track);
        n - 1
    }
}

/// A pair of a channel and a sample that has cells has a track.
proof fn lemma_to_track(data: Seq<u8>, ts: Seq<Trigger>, total: u32, n: int, y: int) -> (k: int)
    requires
        0 <= y < n <= 124,
        pair_track(data, ts, total, y).cells.len() > 0,
    ensures
        0 <= k < mod_import::tracks_of(data, ts, total, n).len(),
        mod_import::tracks_of(data, ts, total, n)[k] == pair_track(data, ts, total, y),
    decreases n,
{
    if y < n - 1 {
        lemma_to_track(data, ts, total, n - 1, y)
    } else {
        reveal(pair_track);
        mod_import::tracks_of(data, ts, total, n - 1).len() as int
    }
}

#[verifier::opaque]
spec fn pair_track(data: Seq<u8>, ts: Seq<Trigger>, total: u32, y: int) -> TrackModel {
    mod_import::track_of(
        data,
        y / 31,
        y % 31,
        mod_import::cells_of(ts, total, y / 31, y % 31, ts.len() as int),
    )
}

proof fn lemma_pair(data: Seq<u8>, y: int)
    requires
        readable(data),
        0 <= y < 124,
    ensures
        is_track(data, pair_track(data, triggers(data), rows_in_all(data), y), y / 31, y % 31),
        pair_track(data, triggers(data), rows_in_all(data), y).cells == mod_import::cells_of(
            triggers(data),
            rows_in_all(data),
            y / 31,
            y % 31,
            triggers(data).len() as int,
        ),
{
    reveal(pair_track);
    lemma_amp(data, y % 31);
    lemma_is_pan(y / 31);
}

/// Whether the cells of a track are notes that are heard on a channel, with a
/// sample.
pub open spec fn plays(data: Seq<u8>, t: TrackModel, channel: int, s: int) -> bool {
    forall|q: int| 0 <= q < t.cells.len() ==> is_played(data, #[trigger] t.cells[q], channel, s)
}

pub open spec fn is_played(data: Seq<u8>, c: CellModel, channel: int, s: int) -> bool {
    exists|x: int|
        0 <= x < song_length(data) * 256 && x % 4 == channel && heard(data, x) && playing(data, x) == Some(s)
            && #[trigger] is_cell(data, c, x)
}

/// Every track of an imported MOD is that of a sample on a channel, as loud as
/// the sample's header says and on the channel's side. Each of its cells is a
/// note that is heard on that channel, with that sample.
pub proof fn law_track_plays_its_sample(data: Seq<u8>, k: int)
    requires
        mod_import::imported(data) is Ok,
        0 <= k < mod_import::imported(data)->Ok_0.0.tracks.len(),
    ensures
        ({
            let t = mod_import::imported(data)->Ok_0.0.tracks[k];
            exists|channel: int, s: int|
                0 <= channel < 4 && 0 <= s < 31 && #[trigger] is_track(data, t, channel, s) && t.cells.len() > 0
                    && plays(data, t, channel, s)
        }),
{
    let ts: Seq<Trigger> = triggers(data);
    let total: u32 = rows_in_all(data);
    lemma_imported(data);
    let tracks: Seq<TrackModel> = mod_import::tracks_of(data, ts, total, 124);
    let t: TrackModel = tracks[k];
    let y: int = lemma_from_pair(data, ts, total, 124, k);
    let channel: int = y / 31;
    let s: int = y % 31;
    lemma_pair(data, y);
    lemma_cells(ts, total, channel, s, ts.len() as int);
    assert forall|q: int| 0 <= q < t.cells.len() implies is_played(data, #[trigger] t.cells[q], channel, s) by {
        let i: int = choose|i: int|
            0 <= i < ts.len() && (#[trigger] ts[i]).channel == channel && ts[i].sample_index == s && t.cells[q]
                == mod_import::cell_of(ts[i], mod_import::rows_of(ts, total, i));
        lemma_trigger(data, i);
        lemma_cell(data, i);
        let x: int = ts[i].row * 4 + ts[i].channel;
        assert(is_cell(data, t.cells[q], x));
    }
    assert(is_track(data, t, channel, s));
}

/// Every note that is heard is imported: a cell of the track of its sample on
/// its channel.
pub proof fn law_heard_note_is_imported(data: Seq<u8>, x: int)
    requires
        mod_import::imported(data) is Ok,
        0 <= x < song_length(data) * 256,
        heard(data, x),
    ensures
        ({
            let p = mod_import::imported(data)->Ok_0.0;
            exists|k: int, q: int|
                0 <= k < p.tracks.len() && 0 <= q < p.tracks[k].cells.len() && is_track(
                    data,
                    p.tracks[k],
                    x % 4,
                    playing(data, x)->0,
                ) && is_cell(data, #[trigger] p.tracks[k].cells[q], x)
        }),
{
    let ts: Seq<Trigger> = triggers(data);
    let total: u32 = rows_in_all(data);
    let p: PatternModel = mod_import::imported(data)->Ok_0.0;
    lemma_imported(data);
    let i: int = lemma_triggered(data, x);
    lemma_trigger(data, i);
    lemma_cell(data, i);
    let s: int = playing(data, x)->0;
    let y: int = (x % 4) * 31 + s;
    assert(y / 31 == x % 4 && y % 31 == s);
    lemma_cells(ts, total, x % 4, s, ts.len() as int);
    assert(ts[i].channel == x % 4 && ts[i].sample_index == s);
    lemma_pair(data, y);
    let t: TrackModel = pair_track(data, ts, total, y);
    let q: int = choose|q: int|
        0 <= q < t.cells.len() && #[trigger] t.cells[q] == mod_import::cell_of(
            ts[i],
            mod_import::rows_of(ts, total, i),
        );
    let k: int = lemma_to_track(data, ts, total, 124, y);
    assert(is_cell(data, p.tracks[k].cells[q], x));
}

/// An imported MOD has 64 rows for each pattern that the song plays, at 48000
/// samples to the second and at the standard speed: six ticks of a fiftieth of
/// a second to the row, which are 5760 samples.
pub proof fn law_song_keeps_its_time(data: Seq<u8>)
    requires
        mod_import::imported(data) is Ok,
    ensures
        ({
            let p = mod_import::imported(data)->Ok_0.0;
            &&& 1 <= song_length(data) <= 128
            &&& p.rows == 64 * song_length(data)
            &&& p.sample_rate == 48000
            &&& p.grid() == Ok::<u64, crate::pattern::PatternFault>(5760)
            &&& p.samples.dom() == Set::<Seq<char>>::empty()
        }),
{
    let p: PatternModel = mod_import::imported(data)->Ok_0.0;
    reveal(PatternModel::grid);
    let t: Single = Single::of_int(125);
    timing::lemma_exact_row(48000, 125, 4, 5760);
    assert(p.row_length().nearest() == 5760);
    timing::lemma_not_too_many(p.row_length(), 5760);
}

/// Bytes of the samples before the `s`th.
pub open spec fn bytes_before(data: Seq<u8>, s: int) -> int
    decreases s,
{
    if s <= 0 {
        0
    } else {
        bytes_before(data, s - 1) + sample_bytes(data, s - 1)
    }
}

/// Whether `top` is the highest pattern that the song plays.
pub open spec fn is_highest(data: Seq<u8>, top: int) -> bool {
    &&& forall|i: int| 0 <= i < song_length(data) ==> #[trigger] data[952 + i] <= top
    &&& exists|i: int| 0 <= i < song_length(data) && #[trigger] data[952 + i] == top
}

proof fn lemma_highest(data: Seq<u8>, n: int)
    requires
        readable(data),
        0 <= n <= song_length(data),
    ensures
        forall|i: int| 0 <= i < n ==> #[trigger] data[952 + i] <= mod_import::highest(orders(data), n),
        n > 0 ==> exists|i: int| 0 <= i < n && #[trigger] data[952 + i] == mod_import::highest(orders(data), n),
    decreases n,
{
    if n > 0 {
        lemma_highest(data, n - 1);
        assert(orders(data)[n - 1] == data[952 + (n - 1)]);
        let top: int = mod_import::highest(orders(data), n);
        if top != data[952 + (n - 1)] {
            if n > 1 {
                let i: int = choose|i: int|
                    0 <= i < n - 1 && #[trigger] data[952 + i] == mod_import::highest(orders(data), n - 1);
                assert(data[952 + i] == top);
            }
        }
    }
}

/// The value of a signed byte of a sample, of which 128 make one.
pub open spec fn is_level(x: Single, b: u8) -> bool {
    x.finite() && 128 * x.units() == (if b < 128 { b as int } else { b - 256 }) * whole()
}

proof fn lemma_level(b: u8)
    ensures
        is_level(mod_import::level(b), b),
{
    lemma2_to64();
    let n: int = if b < 128 { b as int } else { b - 256 };
    let m: int = gap(n);
    closeness::lemma_part_of_power(m, 7);
    if n < 0 {
        order::lemma_of_int_size(n);
        order::lemma_of_int_size(m);
        order::lemma_of_int_finite(n);
        order::lemma_of_int_finite(m);
        order::lemma_of_int_finite(128);
        closeness::lemma_of_int(n);
        closeness::lemma_of_int(m);
        closeness::lemma_whole();
        assert(n * whole() == -(m * whole())) by (nonlinear_arith)
            requires
                n == -m,
        ;
        assert(Single::of_int(n) == Single::of_int(m).negated()) by {
            assert(m * whole() > 0) by (nonlinear_arith)
                requires
                    m > 0,
                    whole() > 0,
            ;
            single::lemma_same_size(Single::of_int(n), Single::of_int(m).negated());
        }
        assert(Single::of_int(n).quotient(Single::of_int(128)) == Single::of_int(m).quotient(
            Single::of_int(128),
        ).negated()) by {
            reveal(Single::quotient);
        }
    }
}

/// The name of a voice tells its sample.
proof fn lemma_names_differ(a: int, b: int)
    requires
        0 <= a < b < 31,
    ensures
        voice_name(a) != voice_name(b),
{
    gapless::lemma_two_digits((a + 1) as nat);
    gapless::lemma_two_digits((b + 1) as nat);
    let n: int = "sample_"@.len() as int;
    assert(voice_name(a).skip(n) =~= text::two_digits((a + 1) as nat));
    assert(voice_name(b).skip(n) =~= text::two_digits((b + 1) as nat));
}

/// Whether a voice plays a sample: the whole of it once, or over and over where
/// the header repeats all of it.
pub open spec fn is_voice(data: Seq<u8>, v: VoiceModel, s: int) -> bool {
    let mode = if repeats_from(data, s) == 0 && repeats_for(data, s) >= 4 && repeats_for(data, s) >= sample_bytes(
        data,
        s,
    ) {
        SampleLoopMode::Loop
    } else {
        SampleLoopMode::OneShot
    };
    v == (VoiceModel::Sample { sample_id: voice_name(s), loop_mode: mode })
}

/// Whether an export holds the bytes of a sample, which start at `at`.
pub open spec fn is_export(data: Seq<u8>, x: ExportModel, s: int, at: int) -> bool {
    &&& x.id == voice_name(s)
    &&& x.pcm.len() == sample_bytes(data, s)
    &&& forall|i: int| 0 <= i < x.pcm.len() ==> is_level(#[trigger] x.pcm[i], data[at + i])
}

proof fn lemma_extract(data: Seq<u8>, start: int, n: int, s: int)
    requires
        data.len() >= 1084,
        start >= 0,
        0 <= n <= 31,
        0 <= s < 31,
        mod_import::extracted(data, start, n) is Ok,
    ensures
        ({
            let x = mod_import::extracted(data, start, n)->Ok_0;
            &&& x.end == start + bytes_before(data, n)
            &&& x.end >= start
            &&& x.end <= data.len() || x.end == start
            &&& s < n && sample_bytes(data, s) > 0 ==> x.voices.dom().contains(voice_name(s)) && is_voice(
                data,
                x.voices[voice_name(s)],
                s,
            )
            &&& s < n && sample_bytes(data, s) > 0 ==> exists|k: int|
                0 <= k < x.exports.len() && is_export(
                    data,
                    #[trigger] x.exports[k],
                    s,
                    start + bytes_before(data, s),
                )
            &&& s >= n || sample_bytes(data, s) == 0 ==> !x.voices.dom().contains(voice_name(s))
        }),
    decreases n,
{
    if n > 0 {
        lemma_extract(data, start, n - 1, s);
        let before = mod_import::extracted(data, start, n - 1)->Ok_0;
        let x = mod_import::extracted(data, start, n)->Ok_0;
        let h = mod_import::header(data, n - 1);
        assert(h.len_bytes == sample_bytes(data, n - 1));
        assert(h.repeat_start == repeats_from(data, n - 1) && h.repeat_len == repeats_for(data, n - 1));
        if s < n - 1 {
            lemma_names_differ(s, n - 1);
        } else if s > n - 1 {
            lemma_names_differ(n - 1, s);
        }
        if h.len_bytes > 0 {
            let e: ExportModel = x.exports.last();
            let at: int = before.end;
            assert forall|i: int| 0 <= i < e.pcm.len() implies is_level(#[trigger] e.pcm[i], data[at + i]) by {
                lemma_level(data[at + i]);
                assert(data.subrange(at, x.end)[i] == data[at + i]);
            }
            if s < n - 1 && sample_bytes(data, s) > 0 {
                let k: int = choose|k: int|
                    0 <= k < before.exports.len() && is_export(
                        data,
                        #[trigger] before.exports[k],
                        s,
                        start + bytes_before(data, s),
                    );
                assert(x.exports[k] == before.exports[k]);
            }
            if s == n - 1 {
                assert(is_export(data, x.exports[before.exports.len() as int], s, start + bytes_before(data, s)));
            }
        }
    }
}

/// Every sample that has data becomes a voice and a file: the bytes that stand
/// behind the patterns and the samples before it, as signed levels. One without
/// data becomes neither.
pub proof fn law_sample_is_taken_out(data: Seq<u8>, s: int)
    requires
        mod_import::imported(data) is Ok,
        0 <= s < 31,
    ensures
        ({
            let (p, exports) = mod_import::imported(data)->Ok_0;
            if sample_bytes(data, s) > 0 {
                &&& p.voices.dom().contains(voice_name(s))
                &&& is_voice(data, p.voices[voice_name(s)], s)
                &&& exists|top: int, k: int|
                    #![trigger is_highest(data, top), exports[k]]
                    is_highest(data, top) && 0 <= k < exports.len() && is_export(
                        data,
                        exports[k],
                        s,
                        1084 + 1024 * (top + 1) + bytes_before(data, s),
                    )
            } else {
                !p.voices.dom().contains(voice_name(s))
            }
        }),
{
    lemma_imported(data);
    let top: int = mod_import::highest(orders(data), song_length(data));
    lemma_highest(data, song_length(data));
    let i: int = choose|i: int| 0 <= i < song_length(data) && #[trigger] data[952 + i] == top;
    assert(is_highest(data, top));
    let start: int = 1084 + 1024 * (top + 1);
    assert(orders(data) == data.subrange(952, 952 + data[950] as int));
    assert(mod_import::extracted(data, start, 31) is Ok);
    lemma_extract(data, start, 31, s);
    let (p, exports) = mod_import::imported(data)->Ok_0;
    if sample_bytes(data, s) > 0 {
        let k: int = choose|k: int|
            0 <= k < exports.len() && is_export(data, #[trigger] exports[k], s, start + bytes_before(data, s));
        assert(is_highest(data, top) && is_export(data, exports[k], s, start + bytes_before(data, s)));
    }
}

/// Whether a character may stand in the name of a file.
pub open spec fn fits_a_file(c: char) -> bool {
    ('a' <= c <= 'z') || ('0' <= c <= '9') || c == '_'
}

proof fn lemma_bare(s: Seq<char>)
    ensures
        ({
            let a = mod_import::bare_start(s);
            &&& a.len() > 0 ==> a[0] != '_'
            &&& forall|i: int| 0 <= i < a.len() ==> s.contains(#[trigger] a[i])
        }),
    decreases s.len(),
{
    if s.len() > 0 && s[0] == '_' {
        lemma_bare(s.skip(1));
        let a: Seq<char> = mod_import::bare_start(s);
        assert forall|i: int| 0 <= i < a.len() implies s.contains(#[trigger] a[i]) by {
            let k: int = choose|k: int| 0 <= k < s.skip(1).len() && s.skip(1)[k] == a[i];
            assert(s[k + 1] == a[i]);
        }
    }
}

proof fn lemma_bare_end(s: Seq<char>)
    ensures
        ({
            let a = mod_import::bare_end(s);
            &&& a.len() <= s.len()
            &&& a.len() > 0 ==> a.last() != '_'
            &&& forall|i: int| 0 <= i < a.len() ==> #[trigger] a[i] == s[i]
        }),
    decreases s.len(),
{
    if s.len() > 0 && s.last() == '_' {
        lemma_bare_end(s.drop_last());
    }
}

/// The name of a file of a sample is small letters, digits and bars alone, is
/// not empty, and neither starts nor ends with a bar.
pub proof fn law_file_names_are_clean(name: Seq<char>)
    ensures
        ({
            let s = mod_import::sanitized(name);
            &&& s.len() > 0
            &&& forall|i: int| 0 <= i < s.len() ==> fits_a_file(#[trigger] s[i])
            &&& s[0] != '_' && s.last() != '_'
        }),
{
    let all: Seq<char> = name.map_values(|c: char| mod_import::clean(c));
    let start: Seq<char> = mod_import::bare_start(all);
    let s: Seq<char> = mod_import::bare_end(start);
    lemma_bare(all);
    lemma_bare_end(start);
    reveal_strlit("sample");
    if s.len() > 0 {
        assert forall|i: int| 0 <= i < s.len() implies fits_a_file(#[trigger] s[i]) by {
            assert(all.contains(start[i]));
            let k: int = choose|k: int| 0 <= k < all.len() && all[k] == start[i];
            assert(all[k] == mod_import::clean(name[k]));
        }
        assert(s[0] == start[0]);
    }
}

/// Whether the file is that of a MOD of four channels.
pub open spec fn is_signed(data: Seq<u8>) -> bool {
    let s = mod_import::ascii(data.subrange(1080, 1084));
    s == "M.K."@ || s == "M!K!"@ || s == "FLT4"@ || s == "4CHN"@
}

proof fn lemma_truncated(data: Seq<u8>, start: int, n: int)
    requires
        data.len() >= 1084,
        0 <= start <= data.len(),
        0 <= n <= 31,
    ensures
        mod_import::extracted(data, start, n) is Ok <==> start + bytes_before(data, n) <= data.len(),
        mod_import::extracted(data, start, n) is Ok ==> mod_import::extracted(data, start, n)->Ok_0.end == start
            + bytes_before(data, n),
        bytes_before(data, n) >= 0,
        mod_import::extracted(data, start, n) is Err ==> exists|k: int|
            1 <= k <= n && mod_import::extracted(data, start, n)->Err_0 == mod_import::ModFault::SampleTruncated(k)
                && #[trigger] sample_bytes(data, k - 1) > 0 && start + bytes_before(data, k) > data.len(),
    decreases n,
{
    if n > 0 {
        lemma_truncated(data, start, n - 1);
        assert(mod_import::header(data, n - 1).len_bytes == sample_bytes(data, n - 1));
        if mod_import::extracted(data, start, n) is Err {
            if mod_import::extracted(data, start, n - 1) is Err {
                let k: int = choose|k: int|
                    1 <= k <= n - 1 && mod_import::extracted(data, start, n - 1)->Err_0
                        == mod_import::ModFault::SampleTruncated(k) && #[trigger] sample_bytes(data, k - 1) > 0
                        && start + bytes_before(data, k) > data.len();
                assert(sample_bytes(data, k - 1) > 0);
            } else {
                assert(sample_bytes(data, n - 1) > 0);
            }
        }
    }
}

/// A file is imported if and only if it has a head, is signed as a MOD of four
/// channels, has a song of 1 to 128 patterns, and holds all the patterns that
/// the song plays and all its samples.
pub proof fn law_whole_files_alone_are_imported(data: Seq<u8>)
    ensures
        mod_import::imported(data) is Ok <==> {
            &&& data.len() >= 1084
            &&& is_signed(data)
            &&& 1 <= song_length(data) <= 128
            &&& forall|i: int|
                0 <= i < song_length(data) ==> 1084 + 1024 * (#[trigger] data[952 + i] + 1) + bytes_before(data, 31)
                    <= data.len()
        },
        data.len() < 1084 ==> mod_import::imported(data) == Err::<
            (PatternModel, Seq<ExportModel>),
            mod_import::ModFault,
        >(mod_import::ModFault::TooSmall),
{
    if data.len() >= 1084 && 1 <= song_length(data) <= 128 {
        let top: int = mod_import::highest(orders(data), song_length(data));
        lemma_highest(data, song_length(data));
        let start: int = 1084 + 1024 * (top + 1);
        let i: int = choose|i: int| 0 <= i < song_length(data) && #[trigger] data[952 + i] == top;
        assert(data[952 + i] == top);
        assert(orders(data) == data.subrange(952, 952 + data[950] as int));
        lemma_bytes(data, 31);
        if start <= data.len() {
            lemma_truncated(data, start, 31);
        }
    }
}

proof fn lemma_bytes(data: Seq<u8>, n: int)
    ensures
        bytes_before(data, n) >= 0,
    decreases n,
{
    if n > 0 {
        lemma_bytes(data, n - 1);
    }
}

} // verus!
