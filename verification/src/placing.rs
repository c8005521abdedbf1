//! Where the slices of a file are placed: in which row each starts, for how many
//! it sounds, and how long a row is.

use vstd::prelude::*;
use vstd::arithmetic::power2::*;

use crate::accuracy;
use crate::closeness;
use crate::closeness::gap;
use crate::double;
use crate::double::Double;
use crate::gapless;
use crate::note::NoteModel;
use crate::order;
use crate::pattern::PatternModel;
use crate::piece::{Envelope, SampleLoopMode, VoiceModel};
use crate::rounding;
use crate::single;
use crate::single::Single;
use crate::slice;
use crate::slice::SliceOpts;
use crate::text;
use crate::timing;

verus! {

/// How far the quotient of two counts is off.
proof fn lemma_quotient(a: int, b: int)
    requires
        0 < a <= gapless::FRAME_LIMIT,
        0 < b <= gapless::FRAME_LIMIT,
    ensures
        slice::divided(a, b).finite(),
        !slice::divided(a, b).negative(),
        0x800 * gap(slice::divided(a, b).size() * b - a * accuracy::unit()) <= accuracy::unit(),
        slice::divided(a, b).size() < 0x8000_0000_0000_0000 * accuracy::unit(),
        accuracy::unit() > 0,
{
    lemma2_to64();
    lemma2_to64_rest();
    lemma_pow2_pos(double::UNIT as nat);
    let u: int = accuracy::unit() as int;
    accuracy::lemma_of_int(a, 42);
    accuracy::lemma_of_int(b, 42);
    accuracy::lemma_quotient(Double::of_int(a), Double::of_int(b), 43, 43);
    let d = slice::divided(a, b);
    let s: int = d.size() as int;
    let x: int = s * (b * u);
    let y: int = (a * u) * u;
    assert(x == (s * b) * u && y == (a * u) * u) by (nonlinear_arith)
        requires
            x == s * (b * u),
            y == (a * u) * u,
    ;
    let h: int = pow2(53) as int;
    assert((h - 1) * y <= h * x && h * x <= (h + 1) * y);
    assert(h * gap(x - y) <= y) by (nonlinear_arith)
        requires
            (h - 1) * y <= h * x,
            h * x <= (h + 1) * y,
            gap(x - y) == if x - y < 0 { -(x - y) } else { x - y },
    ;
    let e: int = s * b - a * u;
    assert(x - y == e * u) by (nonlinear_arith)
        requires
            x == (s * b) * u,
            y == (a * u) * u,
            e == s * b - a * u,
    ;
    closeness::lemma_gap_product(e, u);
    assert(h * gap(e) <= a * u) by (nonlinear_arith)
        requires
            h * (gap(e) * u) <= (a * u) * u,
            u > 0,
    ;
    assert(a * u <= 0x400_0000_0000 * u) by (nonlinear_arith)
        requires
            a <= 0x400_0000_0000,
            u > 0,
    ;
    assert(0x800 * gap(e) <= u);
    assert(s <= s * b) by (nonlinear_arith)
        requires
            s >= 0,
            b >= 1,
    ;
}

/// The whole number nearest to a quotient.
proof fn lemma_nearest_of(a: int, b: int)
    requires
        0 <= a <= gapless::FRAME_LIMIT,
        0 < b <= gapless::FRAME_LIMIT,
    ensures
        2 * gap(slice::divided(a, b).nearest() * b - a) <= b,
{
    let d = slice::divided(a, b);
    let k: int = d.nearest() as int;
    if a == 0 {
        lemma_nothing(b);
        assert(0 * b == 0);
    } else {
        lemma_quotient(a, b);
        timing::lemma_nearest_error(d);
        let u: int = accuracy::unit() as int;
        let s: int = d.size() as int;
        let e: int = s * b - a * u;
        let f: int = k * u - s;
        let g: int = k * b - a;
        assert(g * u == f * b + e) by (nonlinear_arith)
            requires
                g == k * b - a,
                f == k * u - s,
                e == s * b - a * u,
        ;
        closeness::lemma_gap_product(g, u);
        closeness::lemma_gap_product(f, b);
        assert(2 * (gap(f) * b) <= u * b) by (nonlinear_arith)
            requires
                2 * gap(f) <= u,
                b > 0,
        ;
        assert(2 * gap(g) <= b) by (nonlinear_arith)
            requires
                0x400 * (2 * (gap(g) * u)) <= 0x400 * (u * b) + u,
                u > 0,
        ;
    }
}

proof fn lemma_nothing(b: int)
    requires
        0 < b <= gapless::FRAME_LIMIT,
    ensures
        slice::divided(0, b).nearest() == 0,
{
    lemma2_to64();
    lemma2_to64_rest();
    lemma_pow2_pos(double::UNIT as nat);
    accuracy::lemma_of_int(b, 42);
    reveal(Double::of_int);
    reveal(Double::quotient);
    let u: int = accuracy::unit() as int;
    assert(0 * u == 0);
    assert(rounding::scaled(53, 0) == 0);
    rounding::lemma_pack_exact(53, 0, 0);
    assert(b * u > 0) by (nonlinear_arith)
        requires
            b > 0,
            u > 0,
    ;
    assert(rounding::pack(53, 0, 1) == 0);
    assert(Double::of_int(0).bits == 0);
    assert(rounding::pack(53, 0, (b * u) as nat) == 0);
    assert(slice::divided(0, b).bits == 0);
    assert(0nat / accuracy::unit() == 0 && 0nat % accuracy::unit() == 0);
}

/// The whole number at or above a quotient.
proof fn lemma_ceiling_of(a: int, b: int)
    requires
        0 < a <= gapless::FRAME_LIMIT,
        0 < b <= gapless::FRAME_LIMIT,
    ensures
        ({
            let k = slice::divided(a, b).ceiling();
            (k - 1) * b < a <= k * b
        }),
{
    lemma_quotient(a, b);
    let d = slice::divided(a, b);
    let k: int = d.ceiling() as int;
    let u: int = accuracy::unit() as int;
    let s: int = d.size() as int;
    vstd::arithmetic::div_mod::lemma_fundamental_div_mod(s, u);
    vstd::arithmetic::div_mod::lemma_mod_bound(s, u);
    let w: int = s / u;
    assert(w < 0x8000_0000_0000_0000) by (nonlinear_arith)
        requires
            u * w <= s,
            s < 0x8000_0000_0000_0000 * u,
            u > 0,
    ;
    assert(u * (w + 1) == u * w + u && u * (w - 1) == u * w - u) by (nonlinear_arith);
    assert((k - 1) * u < s <= k * u || k == 0) by {
        assert(k == if s % u > 0 { w + 1 } else { w });
        assert(k * u == u * k && (k - 1) * u == u * (k - 1)) by (nonlinear_arith);
    }
    let e: int = s * b - a * u;
    assert(s > 0) by {
        if s <= 0 {
            assert(s * b <= 0) by (nonlinear_arith)
                requires
                    s <= 0,
                    b > 0,
            ;
            assert(a * u >= u) by (nonlinear_arith)
                requires
                    a >= 1,
                    u > 0,
            ;
        }
    }
    assert(k > 0) by {
        if k <= 0 {
            assert(w == 0 && s % u == 0);
        }
    }
    assert(a <= k * b) by (nonlinear_arith)
        requires
            s <= k * u,
            e == s * b - a * u,
            0x800 * (-e) <= u,
            u > 0,
            b > 0,
    {
        assert(s * b <= (k * u) * b);
        assert((k * u) * b == (k * b) * u);
        assert(0x800 * (a * u) <= 0x800 * ((k * b) * u) + u);
        if a >= k * b + 1 {
            assert(a * u >= (k * b + 1) * u);
        }
    }
    assert((k - 1) * b <= a) by (nonlinear_arith)
        requires
            (k - 1) * u < s,
            e == s * b - a * u,
            0x800 * e <= u,
            u > 0,
            b > 0,
    {
        assert(((k - 1) * u) * b <= s * b);
        assert(((k - 1) * u) * b == ((k - 1) * b) * u);
        if (k - 1) * b >= a + 1 {
            assert(((k - 1) * b) * u >= (a + 1) * u);
        }
    }
    if (k - 1) * b == a {
        assert(k - 1 > 0) by (nonlinear_arith)
            requires
                (k - 1) * b == a,
                a > 0,
                b > 0,
        ;
        assert(k - 1 <= a) by (nonlinear_arith)
            requires
                (k - 1) * b == a,
                b >= 1,
                k - 1 > 0,
        ;
        assert(b * (k - 1) == (k - 1) * b) by (nonlinear_arith);
        gapless::lemma_whole_quotient(a, b, k - 1);
    }
}

/// Whether `rows` rows are the fewest that hold `n` samples.
pub open spec fn holds(rows: int, row: int, n: int) -> bool {
    (rows - 1) * row < n <= rows * row
}

proof fn lemma_rows(n: u64, row: u64)
    requires
        0 < n <= gapless::FRAME_LIMIT,
        0 < row <= gapless::FRAME_LIMIT,
        n <= u32::MAX * row,
    ensures
        holds(slice::rows_needed(n, row) as int, row as int, n as int),
        slice::rows_needed(n, row) > 0,
{
    lemma_ceiling_of(n as int, row as int);
    let k: int = slice::divided(n as int, row as int).ceiling() as int;
    assert(0 < k <= u32::MAX) by (nonlinear_arith)
        requires
            (k - 1) * row < n,
            n <= k * row,
            n <= 0xffff_ffff * row,
            0 < n,
            0 < row,
            k >= 0,
    ;
}

proof fn lemma_last(ranges: Seq<(u64, u64)>, n: u64, row: u64, transient: bool, k: int)
    requires
        0 <= k <= ranges.len(),
        ranges.len() <= u32::MAX,
        slice::rows_needed(n, row) > 0,
    ensures
        transient ==> slice::last_row(ranges, n, row, transient, k) < slice::rows_needed(n, row),
        !transient && k > 0 ==> slice::last_row(ranges, n, row, transient, k) == k - 1,
        forall|i: int|
            0 <= i < k ==> #[trigger] slice::slice_row(ranges, n, row, transient, i) <= slice::last_row(
                ranges,
                n,
                row,
                transient,
                k,
            ),
    decreases k,
{
    if k > 0 {
        lemma_last(ranges, n, row, transient, k - 1);
        assert(slice::last_row(ranges, n, row, transient, 0) == 0);
    }
}

/// The grid of a pattern of slices: its rows are the fewest that hold the file,
/// or as many as there are equal slices; and a row is as long as the slices are
/// in the mean, or as the wanted tempo says.
pub proof fn law_slices_get_a_grid(
    ranges: Seq<(u64, u64)>,
    n: u64,
    sr: u32,
    opts: SliceOpts,
    path: Seq<char>,
    stem: Option<Seq<char>>,
)
    requires
        0 < n <= gapless::FRAME_LIMIT,
        0 < ranges.len() < u32::MAX,
        sr > 0,
        opts.bpm is Some ==> timing::ordinary(opts.bpm->0),
        slice::slice_pattern(ranges, n, sr, opts, path, stem).grid() is Ok,
        slice::row_length(n, ranges.len() as int, sr, opts) < gapless::ROW_LIMIT,
        n <= u32::MAX * slice::row_length(n, ranges.len() as int, sr, opts),
    ensures
        ({
            let p = slice::slice_pattern(ranges, n, sr, opts, path, stem);
            let row = p.grid()->Ok_0 as int;
            let count = ranges.len() as int;
            &&& p.sample_rate == sr
            &&& p.lines_per_beat == if opts.lines_per_beat == 0 { 1 } else { opts.lines_per_beat }
            &&& row > 0
            &&& match opts.bpm {
                Some(bpm) => row == 1 || timing::is_row(row, sr as int, bpm, p.lines_per_beat as int),
                None => 2 * gap(row * count - n) <= count || (row == 1 && 2 * n <= count),
            }
            &&& holds(p.rows as int, row, n as int) || (!opts.transient && p.rows == count && n <= count * row)
            &&& p.tracks.len() == count
        }),
{
    let p: PatternModel = slice::slice_pattern(ranges, n, sr, opts, path, stem);
    let count: int = ranges.len() as int;
    let row: u64 = slice::row_length(n, count, sr, opts);
    lemma_rows(n, row);
    lemma_last(ranges, n, row, opts.transient, count);
    gapless::law_row_length_comes_back(p, row);
    match opts.bpm {
        Some(bpm) => {
            timing::lemma_ordinary(bpm);
            timing::lemma_row(sr, bpm, slice::lines(opts));
            lemma_above_nothing(bpm);
        },
        None => {
            lemma_nearest_of(n as int, count);
            if slice::divided(n as int, count).nearest() == 0 {
                assert(0 * count == 0);
            }
        },
    }
    if !opts.transient && p.rows != slice::rows_needed(n, row) {
        assert(count > slice::rows_needed(n, row));
        assert(n <= count * row) by (nonlinear_arith)
            requires
                n <= slice::rows_needed(n, row) * row,
                count > slice::rows_needed(n, row),
                row > 0,
        ;
    }
}

proof fn lemma_above_nothing(x: Single)
    requires
        timing::ordinary(x),
    ensures
        (Single { bits: 0 }).less(x),
{
    timing::lemma_ordinary(x);
    closeness::lemma_whole();
    single::lemma_less_is_by_value(Single { bits: 0 }, x);
}

/// The samples of a slice.
pub open spec fn length_of(range: (u64, u64)) -> int {
    range.1 - range.0
}

/// A slice has a track of its own, which plays it once: found by its onset in
/// the row nearest to where it starts in the file, or in the last row where
/// that is beyond it; of equal slices, each in the next row. It sounds for the
/// rows nearest to its length, and for one at least.
pub proof fn law_slice_starts_in_its_row(
    ranges: Seq<(u64, u64)>,
    n: u64,
    sr: u32,
    opts: SliceOpts,
    path: Seq<char>,
    stem: Option<Seq<char>>,
    i: int,
)
    requires
        0 < n <= gapless::FRAME_LIMIT,
        0 <= i < ranges.len() < u32::MAX,
        ranges[i].0 < ranges[i].1 <= n,
        sr > 0,
        slice::row_length(n, ranges.len() as int, sr, opts) < gapless::ROW_LIMIT,
        n <= u32::MAX * slice::row_length(n, ranges.len() as int, sr, opts),
    ensures
        ({
            let p = slice::slice_pattern(ranges, n, sr, opts, path, stem);
            let row = p.grid()->Ok_0 as int;
            let t = p.tracks[i];
            let start = ranges[i].0 as int;
            let r = t.cells[0].row as int;
            &&& p.grid() is Ok && row > 0
            &&& t.cells.len() == 1
            &&& r < p.rows
            &&& opts.transient ==> 2 * gap(r * row - start) <= row || (r * row < start && n <= (r + 1) * row)
            &&& !opts.transient ==> r == i
            &&& exists|k: int|
                #![trigger Single::of_int(k)]
                k >= 1 && (2 * gap(k * row - length_of(ranges[i])) <= row || (k == 1 && 2 * length_of(ranges[i]) <= row))
                    && t.default_duration_rows == Some(Single::of_int(k))
            &&& t.cells[0].duration_rows is None
        }),
{
    let p: PatternModel = slice::slice_pattern(ranges, n, sr, opts, path, stem);
    let count: int = ranges.len() as int;
    let row: u64 = slice::row_length(n, count, sr, opts);
    lemma_rows(n, row);
    lemma_last(ranges, n, row, opts.transient, count);
    gapless::law_row_length_comes_back(p, row);
    let start: int = ranges[i].0 as int;
    lemma_nearest_of(start, row as int);
    let k: int = slice::divided(start, row as int).nearest() as int;
    let needed: int = slice::rows_needed(n, row) as int;
    let r: int = slice::slice_row(ranges, n, row, opts.transient, i) as int;
    assert(p.tracks[i] == slice::slice_track(ranges, n, row, opts.transient, i));
    if opts.transient {
        if k > needed - 1 {
            assert(r == needed - 1);
            assert(r * row < start) by (nonlinear_arith)
                requires
                    r <= k - 1,
                    2 * (k * row - start) <= row,
                    row > 0,
            {
                assert(r * row <= (k - 1) * row);
                assert((k - 1) * row == k * row - row);
            }
        } else {
            assert(r == k);
        }
    }
    let l: int = length_of(ranges[i]);
    lemma_nearest_of(l, row as int);
    let q: int = slice::divided(l, row as int).nearest() as int;
    assert(q < 0x1_0000_0000_0000_0000);
    lemma_at_least_one(q);
    let d: int = if q < 1 { 1 } else { q };
    if q < 1 {
        assert(0 * row == 0);
    }
    assert(p.tracks[i].default_duration_rows == Some(Single::of_int(d)));
}

/// A count of rows, or one.
proof fn lemma_at_least_one(q: int)
    requires
        0 <= q < 0x1_0000_0000_0000_0000,
    ensures
        Single::of_int(q).larger(Single { bits: single::ONE }) == Single::of_int(if q < 1 { 1 } else { q }),
{
    closeness::lemma_of_int(1);
    closeness::lemma_of_int(0);
    closeness::lemma_whole();
    let one: Single = Single { bits: single::ONE };
    assert(Single::of_int(1) == one) by {
        let bits: nat = order::lemma_whole(1);
        order::lemma_of_int_finite(1);
        single::lemma_same_size(Single::of_int(1), one);
    }
    if q == 0 {
        single::lemma_less_is_by_value(Single::of_int(0), one);
    } else {
        closeness::lemma_of_int(q);
        order::lemma_of_int_finite(q);
        closeness::lemma_of_int_ordered(1, q);
    }
}

/// What a slice sounds like: the samples of its range of the file, once and as
/// they are, nine tenths as loud and in the middle.
pub proof fn law_slice_plays_its_range(
    ranges: Seq<(u64, u64)>,
    n: u64,
    sr: u32,
    opts: SliceOpts,
    path: Seq<char>,
    stem: Option<Seq<char>>,
    i: int,
)
    requires
        0 <= i < ranges.len() < u32::MAX,
    ensures
        ({
            let p = slice::slice_pattern(ranges, n, sr, opts, path, stem);
            let t = p.tracks[i];
            let id = "slice_"@ + text::two_digits(i as nat);
            &&& t.instrument is None
            &&& t.voice == Some(id)
            &&& p.voices.dom().contains(id)
            &&& p.voices[id] == (VoiceModel::Sample { sample_id: id, loop_mode: SampleLoopMode::OneShot })
            &&& p.samples[id].path == path
            &&& p.samples[id].start_sample == ranges[i].0
            &&& p.samples[id].end_sample == ranges[i].1
            &&& t.default_amp is Some && closeness::about(t.default_amp->0, 9, 10, 4)
            &&& t.default_pan is Some && t.default_pan->0.units() == 0
            &&& t.default_envelope == Some(Envelope::Gate)
            &&& t.default_fx is Some && t.default_fx->0.len() == 0
            &&& t.default_pitch_env is None
            &&& t.cells[0].note matches NoteModel::Hz(f) && f.units() == closeness::whole()
            &&& t.cells[0].pitch_ratio is Some && t.cells[0].pitch_ratio->0.units() == closeness::whole()
            &&& t.cells[0].velocity is None && t.cells[0].pan is None && t.cells[0].pitch_env is None
            &&& t.cells[0].fx.len() == 0
        }),
{
    let row: u64 = slice::row_length(n, ranges.len() as int, sr, opts);
    gapless::lemma_voices(ranges.len() as int, i);
    gapless::lemma_samples(ranges, path, ranges.len() as int, i);
    closeness::lemma_whole();
    closeness::lemma_share(9, 10);
    reveal(Single::of_ratio);
    assert(slice::slice_pattern(ranges, n, sr, opts, path, stem).tracks[i] == slice::slice_track(
        ranges,
        n,
        row,
        opts.transient,
        i,
    ));
}

} // verus!
