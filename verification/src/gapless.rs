//! Sliced patterns play back without gaps.
//!
//! The slicer hands on a tempo, in single precision, and not the row length
//! that it was worked out from. Compiling works the row length out again.

use vstd::prelude::*;
use vstd::arithmetic::power2::*;

use crate::accuracy;
use crate::compile;
use crate::compile::{Defaults, Trigger};
use crate::double;
use crate::double::Double;
use crate::order;
use crate::pattern::{PatternFault, PatternModel};
use crate::piece;
use crate::piece::{Envelope, Pitch, SampleLoopMode, SampleModel, VoiceModel};
use crate::rounding;
use crate::single;
use crate::single::Single;
use crate::slice;
use crate::slice::SliceOpts;
use crate::song;
use crate::text;

verus! {

/// Row lengths that a tempo can hand on: those below `2^23` samples.
pub const ROW_LIMIT: u64 = 0x80_0000;

/// Frames that whole numbers of a double can count: those below `2^53`.
pub const WHOLE_LIMIT: u64 = 0x20_0000_0000_0000;

/// Frames of a file that is cut, at most: `2^42`. No WAV file has as many.
pub const FRAME_LIMIT: u64 = 0x400_0000_0000;

/// The tempo at which rows have a length.
pub open spec fn tempo_for(sr: u32, lines: u32, row: u64) -> Single {
    Double::of_int(sr as int).product(Double::of_int(60)).quotient(
        Double::of_int(row as int).product(Double::of_int(lines as int)),
    ).as_single()
}

/// `x` is at most `y`, or at least where `s` is negative.
spec fn bounded(s: int, x: int, y: int) -> bool {
    s * x <= s * y
}

proof fn lemma_times(s: int, x: int, y: int, c: int)
    requires
        bounded(s, x, y),
        c >= 0,
    ensures
        bounded(s, x * c, y * c),
{
    assert(s * (x * c) <= s * (y * c)) by (nonlinear_arith)
        requires
            s * x <= s * y,
            c >= 0,
    ;
}

proof fn lemma_cancel(s: int, x: int, y: int, c: int)
    requires
        bounded(s, x * c, y * c),
        c > 0,
    ensures
        bounded(s, x, y),
{
    assert(s * x <= s * y) by (nonlinear_arith)
        requires
            s * (x * c) <= s * (y * c),
            c > 0,
    ;
}

/// From the tempo back to the row length, where the steps are off by no more
/// than their bounds.
proof fn lemma_way_back(
    s: int,
    h: int,
    p: int,
    q: int,
    g: int,
    pg: int,
    u: int,
    a: int,
    b: int,
    c: int,
    l: int,
    k: int,
    t: int,
    w: int,
    lines: int,
    row: int,
)
    requires
        h > 0,
        p > 0,
        q > 0,
        g > 0,
        pg > 0,
        u > 0,
        a > 0,
        b > 0,
        l > 0,
        lines > 0,
        bounded(s, h * (l * c), q * (a * u)),
        bounded(s, p * (w * lines), h * (c * u)),
        bounded(s, p * t, h * w),
        bounded(s, pg * k, g * t),
        bounded(s, p * (a * u), h * (k * b)),
        bounded(s, h * (b * u), q * (row * lines)),
    ensures
        bounded(s, (p * p * p * pg) * l, (g * h * q * q) * row),
{
    let x = l * lines;
    let au = a * u;
    assert(x > 0 && au > 0) by (nonlinear_arith)
        requires
            x == l * lines,
            au == a * u,
            l > 0,
            lines > 0,
            a > 0,
            u > 0,
    ;
    // p w x against q au u
    lemma_times(s, p * (w * lines), h * (c * u), l);
    lemma_times(s, h * (l * c), q * au, u);
    assert((p * (w * lines)) * l == p * (w * x)) by (nonlinear_arith)
        requires
            x == l * lines,
    ;
    assert((h * (c * u)) * l == (h * (l * c)) * u) by (nonlinear_arith);
    let y = (q * au) * u;
    assert(bounded(s, p * (w * x), y));
    // p p t x against h y
    assert(p * x > 0) by (nonlinear_arith)
        requires
            p > 0,
            x > 0,
    ;
    lemma_times(s, p * t, h * w, p * x);
    lemma_times(s, p * (w * x), y, h);
    assert((h * w) * (p * x) == (p * (w * x)) * h) by (nonlinear_arith);
    assert(bounded(s, (p * t) * (p * x), y * h));
    // p p pg k x against g h y
    let z = p * (p * x);
    assert(z > 0) by (nonlinear_arith)
        requires
            z == p * (p * x),
            p > 0,
            p * x > 0,
    ;
    lemma_times(s, pg * k, g * t, z);
    lemma_times(s, (p * t) * (p * x), y * h, g);
    assert((g * t) * z == ((p * t) * (p * x)) * g) by (nonlinear_arith)
        requires
            z == p * (p * x),
    ;
    assert(bounded(s, (pg * k) * z, (y * h) * g));
    // p p p pg x against g h h q b u
    let hb = h * b;
    let pz = pg * z;
    assert(hb > 0 && pz > 0) by (nonlinear_arith)
        requires
            hb == h * b,
            pz == pg * z,
            h > 0,
            b > 0,
            pg > 0,
            z > 0,
    ;
    lemma_times(s, p * au, h * (k * b), pz);
    lemma_times(s, (pg * k) * z, (y * h) * g, hb);
    assert((h * (k * b)) * pz == ((pg * k) * z) * hb) by (nonlinear_arith)
        requires
            pz == pg * z,
            hb == h * b,
    ;
    assert((p * au) * pz == (p * pz) * au) by (nonlinear_arith);
    let gh = g * h;
    let v = q * gh;
    let m = gh * hb;
    assert(((y * h) * g) * hb == y * m) by (nonlinear_arith)
        requires
            m == gh * hb,
            gh == g * h,
    ;
    assert(y * m == ((q * u) * m) * au) by (nonlinear_arith)
        requires
            y == (q * au) * u,
    ;
    assert((q * u) * (gh * hb) == (q * gh) * (u * hb)) by (nonlinear_arith);
    assert(u * hb == h * (b * u)) by (nonlinear_arith)
        requires
            hb == h * b,
    ;
    assert((q * gh) * (h * (b * u)) == (h * (b * u)) * (q * gh)) by (nonlinear_arith);
    lemma_cancel(s, p * pz, (h * (b * u)) * v, au);
    // and the row
    assert(v > 0) by (nonlinear_arith)
        requires
            v == q * gh,
            gh == g * h,
            q > 0,
            g > 0,
            h > 0,
    ;
    lemma_times(s, h * (b * u), q * (row * lines), v);
    assert(bounded(s, p * pz, (q * (row * lines)) * v));
    assert(p * pz == ((p * p * p * pg) * l) * lines) by (nonlinear_arith)
        requires
            pz == pg * z,
            z == p * (p * x),
            x == l * lines,
    ;
    assert((q * (row * lines)) * v == ((g * h * q * q) * row) * lines) by (nonlinear_arith)
        requires
            v == q * gh,
            gh == g * h,
    ;
    lemma_cancel(s, (p * p * p * pg) * l, (g * h * q * q) * row, lines);
}

/// What is left of the bounds is less than half a sample.
proof fn lemma_half_a_sample(l: int, row: int, u: int)
    requires
        0 < row < ROW_LIMIT,
        u > 0,
        ({
            let h: int = 0x20_0000_0000_0000;
            let g: int = 0x100_0000;
            &&& bounded(
                1,
                ((h - 1) * (h - 1) * (h - 1) * (g - 1)) * l,
                (g * h * (h + 1) * (h + 1)) * (row * u),
            )
            &&& bounded(
                -1,
                ((h + 1) * (h + 1) * (h + 1) * (g + 1)) * l,
                (g * h * (h - 1) * (h - 1)) * (row * u),
            )
        }),
    ensures
        2 * l < (2 * row + 1) * u,
        (2 * row - 1) * u <= 2 * l,
{
    let h: int = 0x20_0000_0000_0000;
    let g: int = 0x100_0000;
    let x = (h - 1) * (h - 1) * (h - 1) * (g - 1);
    let y = g * h * (h + 1) * (h + 1);
    assert(x > 0 && 2 * (0x80_0000 - 1) * (y - x) < x && y > x) by (nonlinear_arith)
        requires
            x == (h - 1) * (h - 1) * (h - 1) * (g - 1),
            y == g * h * (h + 1) * (h + 1),
            h == 0x20_0000_0000_0000,
            g == 0x100_0000,
    ;
    assert(2 * l < (2 * row + 1) * u) by (nonlinear_arith)
        requires
            x * l <= y * (row * u),
            2 * (0x80_0000 - 1) * (y - x) < x,
            0 < row <= 0x80_0000 - 1,
            y > x,
            x > 0,
            u > 0,
    {
        assert(2 * row * (y - x) <= 2 * (0x80_0000 - 1) * (y - x));
        assert(y * (2 * row) < x * (2 * row + 1));
        assert((y * (2 * row)) * u < (x * (2 * row + 1)) * u);
        assert(x * (2 * l) < x * ((2 * row + 1) * u));
    }
    let v = (h + 1) * (h + 1) * (h + 1) * (g + 1);
    let w = g * h * (h - 1) * (h - 1);
    assert(v > 0 && 2 * (0x80_0000 - 1) * (v - w) < v && v > w) by (nonlinear_arith)
        requires
            v == (h + 1) * (h + 1) * (h + 1) * (g + 1),
            w == g * h * (h - 1) * (h - 1),
            h == 0x20_0000_0000_0000,
            g == 0x100_0000,
    ;
    assert((2 * row - 1) * u <= 2 * l) by (nonlinear_arith)
        requires
            v * l >= w * (row * u),
            2 * (0x80_0000 - 1) * (v - w) < v,
            0 < row <= 0x80_0000 - 1,
            v > w,
            v > 0,
            u > 0,
    {
        assert(2 * row * (v - w) <= 2 * (0x80_0000 - 1) * (v - w));
        assert(v * (2 * row - 1) < w * (2 * row));
        assert((v * (2 * row - 1)) * u < (w * (2 * row)) * u);
        assert(v * ((2 * row - 1) * u) < v * (2 * l));
    }
}

/// The tempo for a row length, and the row length of that tempo.
proof fn lemma_row_comes_back(sr: u32, lines: u32, row: u64)
    requires
        sr > 0,
        lines > 0,
        0 < row <= FRAME_LIMIT,
    ensures
        ({
            let t = tempo_for(sr, lines, row);
            let length = Double::of_int(sr as int).product(Double::of_int(60)).quotient(
                Double::of_single(t).product(Double::of_int(lines as int)),
            );
            &&& t.finite()
            &&& !t.negative()
            &&& t.size() > 0
            &&& length.finite()
            &&& !length.negative()
            &&& length.nearest() <= 2 * row
            &&& row < ROW_LIMIT ==> length.nearest() == row && 2 * length.size() < (2 * row + 1)
                * accuracy::unit()
        }),
{
    lemma2_to64();
    lemma2_to64_rest();
    lemma_pow2_pos(double::UNIT as nat);
    lemma_pow2_pos((double::UNIT - single::UNIT) as nat);
    let u = accuracy::unit();
    let n = Double::of_int(lines as int);
    let r = Double::of_int(row as int);
    let a = Double::of_int(sr as int).product(Double::of_int(60));
    let b = r.product(n);
    let k = a.quotient(b);
    let t = k.as_single();
    let w = Double::of_single(t);
    let c = w.product(n);
    let l = a.quotient(c);
    accuracy::lemma_of_int(sr as int, 32);
    accuracy::lemma_of_int(60, 6);
    accuracy::lemma_of_int(row as int, 42);
    accuracy::lemma_of_int(lines as int, 32);
    accuracy::lemma_product(Double::of_int(sr as int), Double::of_int(60), 33, 7);
    accuracy::lemma_product(r, n, 43, 33);
    accuracy::lemma_quotient(a, b, 41, 77);
    accuracy::lemma_through_single(k, 119);
    accuracy::lemma_product(w, n, 121, 33);
    accuracy::lemma_quotient(a, c, 41, 155);
    lemma_positive(a, 41);
    lemma_positive(b, 77);
    lemma_positive(l, 197);
    lemma_positive(n, 33);
    let h: int = 0x20_0000_0000_0000;
    let g: int = 0x100_0000;
    let coarse = t.size() * accuracy::coarse();
    lemma_way_back(
        1,
        h,
        h - 1,
        h + 1,
        g,
        g - 1,
        u as int,
        a.size() as int,
        b.size() as int,
        c.size() as int,
        l.size() as int,
        k.size() as int,
        coarse as int,
        w.size() as int,
        n.size() as int,
        r.size() as int,
    );
    lemma_way_back(
        -1,
        h,
        h + 1,
        h - 1,
        g,
        g + 1,
        u as int,
        a.size() as int,
        b.size() as int,
        c.size() as int,
        l.size() as int,
        k.size() as int,
        coarse as int,
        w.size() as int,
        n.size() as int,
        r.size() as int,
    );
    let s = l.size() as int;
    let x = (h - 1) * (h - 1) * (h - 1) * (g - 1);
    let y = g * h * (h + 1) * (h + 1);
    assert(x > 0 && y <= 2 * x) by (nonlinear_arith)
        requires
            x == (h - 1) * (h - 1) * (h - 1) * (g - 1),
            y == g * h * (h + 1) * (h + 1),
            h == 0x20_0000_0000_0000,
            g == 0x100_0000,
    ;
    assert(2 * s < (2 * (2 * row) + 1) * u) by (nonlinear_arith)
        requires
            x * s <= y * (row * u),
            x > 0,
            y <= 2 * x,
            row > 0,
            u > 0,
    {
        assert(row * u >= 0);
        assert(y * (row * u) <= (2 * x) * (row * u));
        assert(x * s <= x * (2 * (row * u)));
        assert(s <= 2 * (row * u));
    }
    accuracy::lemma_nearest_at_most(l, (2 * row) as nat);
    if row < ROW_LIMIT {
        lemma_half_a_sample(s, row as int, u as int);
        accuracy::lemma_nearest_at_least(l, row as nat);
        accuracy::lemma_nearest_at_most(l, row as nat);
    }
}

proof fn lemma_positive(d: Double, e: nat)
    requires
        accuracy::mid(d, e),
    ensures
        d.size() > 0,
{
    lemma_pow2_pos(double::UNIT as nat);
    if d.size() == 0 {
        assert(0 * pow2(e) == 0);
    }
}

/// A pattern whose tempo was worked out from a row length has rows of that
/// length.
pub proof fn law_row_length_comes_back(p: PatternModel, row: u64)
    requires
        p.sample_rate > 0,
        p.lines_per_beat > 0,
        p.rows > 0,
        p.tempo_bpm == tempo_for(p.sample_rate, p.lines_per_beat, row),
        0 < row < ROW_LIMIT,
    ensures
        p.grid() == Ok::<u64, PatternFault>(row),
{
    reveal(PatternModel::grid);
    lemma_row_comes_back(p.sample_rate, p.lines_per_beat, row);
    let t = p.tempo_bpm;
    let length = p.row_length();
    lemma_pow2_pos(single::DIGITS as nat);
    assert(rounding::scaled(single::DIGITS as nat, 0) == 0);
    // far below 2^64
    let limit = Double { bits: compile::TOO_MANY };
    if limit.less(length) {
        lemma2_to64();
        lemma2_to64_rest();
        double::lemma_less_is_by_value(limit, length);
        rounding::lemma_scaled_at(53, compile::TOO_MANY as nat, pow2(52), 1086);
        lemma_pow2_adds(52, 1086);
        lemma_pow2_adds(64, double::UNIT as nat);
        lemma_pow2_pos(double::UNIT as nat);
        let u = accuracy::unit();
        assert(2 * (0x1_0000_0000_0000_0000 * u) > (2 * row + 1) * u) by (nonlinear_arith)
            requires
                row < 0x80_0000,
                u > 0,
        ;
    }
}

/// The mean length of slices, rounded, is no less than that of equal ones and
/// no more than that of all together.
proof fn lemma_mean_length(n: u64, count: int, base: int)
    requires
        0 < n <= FRAME_LIMIT,
        0 < count <= u32::MAX,
        0 < base,
        base * count <= n,
    ensures
        base <= slice::divided(n as int, count).nearest() <= n,
{
    lemma2_to64();
    lemma2_to64_rest();
    lemma_pow2_pos(double::UNIT as nat);
    let u = accuracy::unit() as int;
    let d = slice::divided(n as int, count);
    accuracy::lemma_of_int(n as int, 42);
    accuracy::lemma_of_int(count, 32);
    accuracy::lemma_quotient(Double::of_int(n as int), Double::of_int(count), 43, 33);
    let h: int = 0x20_0000_0000_0000;
    let s = d.size() as int;
    let cu = count * u;
    assert(cu > 0) by (nonlinear_arith)
        requires
            cu == count * u,
            count > 0,
            u > 0,
    ;
    assert(base <= n) by (nonlinear_arith)
        requires
            base * count <= n,
            count >= 1,
            base > 0,
    ;
    assert((h - 1) * (base * u) <= h * s) by (nonlinear_arith)
        requires
            (h - 1) * ((n * u) * u) <= h * (s * cu),
            base * count <= n,
            cu == count * u,
            cu > 0,
            h > 1,
            u > 0,
    {
        assert((base * count) * u <= n * u);
        assert((base * u) * cu == ((base * count) * u) * u);
        assert(((base * count) * u) * u <= (n * u) * u);
        assert((h - 1) * ((base * u) * cu) <= (h - 1) * ((n * u) * u));
        assert(((h - 1) * (base * u)) * cu <= (h * s) * cu);
    }
    assert((2 * base - 1) * u <= 2 * s) by (nonlinear_arith)
        requires
            (h - 1) * (base * u) <= h * s,
            0 < base <= 0x400_0000_0000,
            h == 0x20_0000_0000_0000,
            u > 0,
    ;
    accuracy::lemma_nearest_at_least(d, base as nat);
    assert(h * s <= (h + 1) * (n * u)) by (nonlinear_arith)
        requires
            h * (s * cu) <= (h + 1) * ((n * u) * u),
            cu == count * u,
            count >= 1,
            h > 1,
            s >= 0,
            u > 0,
    {
        assert(h * (s * u) <= h * (s * cu));
        assert((h * s) * u <= ((h + 1) * (n * u)) * u);
    }
    assert(2 * s < (2 * n + 1) * u) by (nonlinear_arith)
        requires
            h * s <= (h + 1) * (n * u),
            0 < n <= 0x400_0000_0000,
            h == 0x20_0000_0000_0000,
            u > 0,
    ;
    accuracy::lemma_nearest_at_most(d, n as nat);
}

/// A slice that is no longer than a row sounds for one row.
proof fn lemma_one_row(base: int, row: u64)
    requires
        0 < base <= row <= FRAME_LIMIT,
    ensures
        Single::of_int(slice::divided(base, row as int).nearest() as int).larger(Single { bits: single::ONE }) == (
        Single { bits: single::ONE }),
{
    lemma2_to64();
    lemma2_to64_rest();
    lemma_pow2_pos(double::UNIT as nat);
    let u = accuracy::unit() as int;
    let d = slice::divided(base, row as int);
    accuracy::lemma_of_int(base, 42);
    accuracy::lemma_of_int(row as int, 42);
    accuracy::lemma_quotient(Double::of_int(base), Double::of_int(row as int), 43, 43);
    let h: int = 0x20_0000_0000_0000;
    let s = d.size() as int;
    assert(2 * s < 3 * u) by (nonlinear_arith)
        requires
            h * (s * (row * u)) <= (h + 1) * ((base * u) * u),
            0 < base <= row,
            h == 0x20_0000_0000_0000,
            u > 0,
    {
        assert((base * u) * u <= (row * u) * u);
        assert(h * (s * (row * u)) <= (h + 1) * ((row * u) * u));
        assert((h * s) * (row * u) <= ((h + 1) * u) * (row * u));
        assert(row * u > 0);
    }
    accuracy::lemma_nearest_at_most(d, 1);
    accuracy::lemma_one();
    if d.nearest() == 0 {
        reveal(Single::of_int);
        assert(0 * pow2(single::UNIT as nat) == 0);
        assert(rounding::nearest_even(0, 1) == 0);
        assert(rounding::pack(single::DIGITS as nat, 0, 1) == 0);
    }
}

/// A trigger of one row lasts one row.
proof fn lemma_length(trigger: Trigger, row: u64)
    requires
        trigger.cell.duration_rows is None,
        trigger.defaults.duration_rows == (Single { bits: single::ONE }),
        0 < row < 0x10_0000_0000_0000,
    ensures
        trigger.length(row) == row,
{
    lemma2_to64();
    lemma2_to64_rest();
    lemma_pow2_pos(double::UNIT as nat);
    accuracy::lemma_one();
    let one = Single { bits: single::ONE };
    assert(one.larger(Single { bits: 0 }) == one);
    let r = Double::of_int(row as int);
    let d = r.product(Double::of_single(one));
    accuracy::lemma_of_int(row as int, 53);
    accuracy::lemma_product(r, Double::of_single(one), 54, 1);
    let u = accuracy::unit() as int;
    let h: int = 0x20_0000_0000_0000;
    let s = d.size() as int;
    assert((h - 1) * (row * u) <= h * s && h * s <= (h + 1) * (row * u)) by (nonlinear_arith)
        requires
            (h - 1) * ((row * u) * u) <= h * (s * u),
            h * (s * u) <= (h + 1) * ((row * u) * u),
            u > 0,
    {
        assert(((h - 1) * (row * u)) * u <= (h * s) * u);
        assert((h * s) * u <= ((h + 1) * (row * u)) * u);
    }
    accuracy::lemma_nearest(d, row as nat, h as nat);
}

/// What the `i`th slice's track falls back on.
spec fn slice_defaults(ranges: Seq<(u64, u64)>, row: u64, i: int) -> Defaults {
    Defaults {
        voice: slice::slice_id(i),
        amp: Single::of_ratio(9, 10),
        pan: Single { bits: 0 },
        envelope: Envelope::Gate,
        fx: Seq::empty(),
        duration_rows: slice::slice_rows(ranges, row, i),
        pitch_env: None,
    }
}

/// Every slice has its voice.
pub proof fn lemma_voices(k: int, i: int)
    requires
        0 <= i < k,
    ensures
        slice::slice_voices(k).dom().contains(slice::slice_id(i)),
        slice::slice_voices(k)[slice::slice_id(i)] == (VoiceModel::Sample {
            sample_id: slice::slice_id(i),
            loop_mode: SampleLoopMode::OneShot,
        }),
    decreases k,
{
    if i < k - 1 {
        lemma_voices(k - 1, i);
    }
}

/// The last row is that of the last slice.
proof fn lemma_last_row(ranges: Seq<(u64, u64)>, n: u64, row: u64, k: int)
    requires
        0 < k <= u32::MAX,
    ensures
        slice::last_row(ranges, n, row, false, k) == k - 1,
    decreases k,
{
    if k > 1 {
        lemma_last_row(ranges, n, row, k - 1);
    } else {
        assert(slice::last_row(ranges, n, row, false, 0) == 0);
    }
}

/// The tracks of equal slices resolve.
proof fn lemma_resolved(p: PatternModel, ranges: Seq<(u64, u64)>, n: u64, row: u64, k: int)
    requires
        0 <= k <= ranges.len() <= u32::MAX,
        p.voices == slice::slice_voices(ranges.len() as int),
        p.tracks == Seq::new(ranges.len(), |i: int| slice::slice_track(ranges, n, row, false, i)),
        p.rows >= ranges.len(),
    ensures
        p.resolved(k) == Ok::<(Seq<Defaults>, Map<Seq<char>, VoiceModel>), PatternFault>(
            (Seq::new(k as nat, |i: int| slice_defaults(ranges, row, i)), p.voices),
        ),
    decreases k,
{
    let made = Seq::new(k as nat, |i: int| slice_defaults(ranges, row, i));
    if k > 0 {
        lemma_resolved(p, ranges, n, row, k - 1);
        lemma_voices(ranges.len() as int, k - 1);
        let track = p.tracks[k - 1];
        assert(track == slice::slice_track(ranges, n, row, false, k - 1));
        assert(track.stray_cell(p.rows, 1) is None);
        assert(track.stray_cell(p.rows, 0) is None);
        let before = Seq::new((k - 1) as nat, |i: int| slice_defaults(ranges, row, i));
        assert(before.push(slice_defaults(ranges, row, k - 1)) =~= made);
    } else {
        assert(made =~= Seq::empty());
    }
}

/// Equal slices have one trigger each.
proof fn lemma_triggers(p: PatternModel, ranges: Seq<(u64, u64)>, n: u64, row: u64, defaults: Seq<Defaults>, k: int)
    requires
        0 <= k <= ranges.len(),
        p.tracks == Seq::new(ranges.len(), |i: int| slice::slice_track(ranges, n, row, false, i)),
    ensures
        p.triggers(defaults, k).len() == k,
        forall|i: int|
            0 <= i < k ==> #[trigger] p.triggers(defaults, k)[i] == (Trigger {
                track: p.tracks[i].name,
                defaults: defaults[i],
                cell: p.tracks[i].cells[0],
            }),
    decreases k,
{
    if k > 0 {
        lemma_triggers(p, ranges, n, row, defaults, k - 1);
        assert(p.tracks[k - 1].cells.len() == 1);
    }
}

/// Whether a pattern is that of equal slices.
spec fn sliced_equally(p: PatternModel, ranges: Seq<(u64, u64)>, n: u64, row: u64) -> bool {
    &&& 0 < ranges.len() <= u32::MAX
    &&& p.voices == slice::slice_voices(ranges.len() as int)
    &&& p.tracks == Seq::new(ranges.len(), |i: int| slice::slice_track(ranges, n, row, false, i))
    &&& p.rows >= ranges.len()
}

/// The triggers of equal slices.
spec fn slice_trigger(ranges: Seq<(u64, u64)>, n: u64, row: u64, i: int) -> Trigger {
    let track = slice::slice_track(ranges, n, row, false, i);
    Trigger { track: track.name, defaults: slice_defaults(ranges, row, i), cell: track.cells[0] }
}

/// What a pattern of equal slices compiles to.
proof fn lemma_draft(p: PatternModel, ranges: Seq<(u64, u64)>, n: u64, row: u64)
    requires
        sliced_equally(p, ranges, n, row),
        p.draft(1) is Ok,
    ensures
        p.grid() is Ok,
        p.grid()->Ok_0 * ranges.len() <= p.grid()->Ok_0 * p.rows <= u64::MAX,
        p.draft(1)->Ok_0.sample_rate == p.sample_rate,
        p.draft(1)->Ok_0.voices == p.voices,
        p.draft(1)->Ok_0.duration_samples == p.grid()->Ok_0 * p.rows,
        p.draft(1)->Ok_0.events.len() == ranges.len(),
        forall|i: int|
            0 <= i < ranges.len() ==> #[trigger] p.draft(1)->Ok_0.events[i] == slice_trigger(
                ranges,
                n,
                row,
                i,
            ).event(p.grid()->Ok_0, 0, (p.grid()->Ok_0 * p.rows) as u64),
{
    let count = ranges.len() as int;
    let length = p.grid()->Ok_0;
    let loop_length = length * p.rows;
    assert(loop_length * 1 == loop_length);
    assert(length * count <= loop_length) by (nonlinear_arith)
        requires
            loop_length == length * p.rows,
            count <= p.rows,
            length >= 0,
    ;
    lemma_resolved(p, ranges, n, row, count);
    let defaults = Seq::new(count as nat, |i: int| slice_defaults(ranges, row, i));
    let triggers = p.triggers(defaults, count);
    lemma_triggers(p, ranges, n, row, defaults, count);
    assert forall|k: int| 0 <= k < triggers.len() implies #[trigger] triggers[k] == slice_trigger(
        ranges,
        n,
        row,
        k,
    ) by {
        assert(p.tracks[k] == slice::slice_track(ranges, n, row, false, k));
    }
    let total = loop_length as u64;
    let events = compile::loop_events(triggers, length, loop_length, total, 1);
    assert(0 * loop_length == 0);
    assert(compile::loop_events(triggers, length, loop_length, total, 0) =~= Seq::empty());
    assert(events.len() == count);
    assert(p.draft(1)->Ok_0.events == events);
}

/// Equal slices play back without a gap: one to the row, each from the end of
/// the one before it, at its own pitch and without effects. Up to a limit, a
/// row is as long as the slices are on average.
pub proof fn law_slices_play_gaplessly(
    n: u64,
    slices: u32,
    sr: u32,
    opts: SliceOpts,
    path: Seq<char>,
    stem: Option<Seq<char>>,
    i: int,
)
    requires
        0 < n <= FRAME_LIMIT,
        !opts.transient,
        opts.bpm is None || !(Single { bits: 0 }).less(opts.bpm->0),
        slice::slice_pattern(slice::equal_ranges(n, slices), n, sr, opts, path, stem).draft(1) is Ok,
        0 <= i < slice::equal_ranges(n, slices).len(),
    ensures
        ({
            let ranges = slice::equal_ranges(n, slices);
            let p = slice::slice_pattern(ranges, n, sr, opts, path, stem);
            let mean = slice::divided(n as int, ranges.len() as int).nearest();
            let row = p.grid()->Ok_0;
            let made = p.draft(1)->Ok_0;
            let events = made.events;
            &&& made.sample_rate == sr
            &&& events.len() == ranges.len()
            &&& events[i].voice == slice::slice_id(i)
            &&& made.voices[slice::slice_id(i)] == (VoiceModel::Sample {
                sample_id: slice::slice_id(i),
                loop_mode: SampleLoopMode::OneShot,
            })
            &&& events[i].pitch_ratio == Some(Single { bits: single::ONE })
            &&& events[i].amp == Single::of_ratio(9, 10)
            &&& events[i].pan == (Single { bits: 0 })
            &&& events[i].envelope == Envelope::Gate
            &&& events[i].fx.len() == 0
            &&& events[i].t == i * row
            &&& events[i].t + events[i].dur <= made.duration_samples
            &&& i + 1 < ranges.len() ==> events[i].t + events[i].dur == events[i + 1].t
            &&& mean < ROW_LIMIT ==> row == mean
        }),
{
    let ranges = slice::equal_ranges(n, slices);
    let count = ranges.len() as int;
    let row = slice::row_length(n, count, sr, opts);
    let p = slice::slice_pattern(ranges, n, sr, opts, path, stem);
    lemma_last_row(ranges, n, row, count);
    lemma_draft(p, ranges, n, row);
    lemma_voices(count, i);
    let length = p.grid()->Ok_0;
    assert(sr > 0 && length == p.row_length().nearest() && length > 0) by {
        reveal(PatternModel::grid);
    }
    let base = n as int / count;
    vstd::arithmetic::div_mod::lemma_fundamental_div_mod(n as int, count);
    vstd::arithmetic::div_mod::lemma_mod_bound(n as int, count);
    assert(base * count <= n) by (nonlinear_arith)
        requires
            n == count * base + n as int % count,
            n as int % count >= 0,
    ;
    if count == 1 {
        assert(n as int / 1 == n);
    }
    assert(base > 0);
    lemma_mean_length(n, count, base);
    lemma_row_comes_back(sr, p.lines_per_beat, row);
    assert(i * length < length * count) by (nonlinear_arith)
        requires
            0 <= i < count,
            length > 0,
    ;
    if i + 1 < count {
        assert(i * base <= n && (i + 1) * base <= n && (i + 1) * base == i * base + base) by (nonlinear_arith)
            requires
                base * count <= n,
                0 <= i < count - 1,
                base > 0,
        ;
        lemma_one_row(base, row);
        assert(slice::slice_rows(ranges, row, i) == (Single { bits: single::ONE }));
        lemma_length(slice_trigger(ranges, n, row, i), length);
        assert((i + 1) * length == i * length + length && (i + 1) * length <= length * count)
            by (nonlinear_arith)
            requires
                0 <= i < count - 1,
                length > 0,
        ;
    }
}

/// Slices are told apart by the digits of their names.
pub proof fn lemma_ids_differ(i: int, j: int)
    requires
        0 <= i,
        0 <= j,
        i != j,
    ensures
        slice::slice_id(i) != slice::slice_id(j),
{
    if slice::slice_id(i) == slice::slice_id(j) {
        let head = "slice_"@;
        let a = text::two_digits(i as nat);
        let b = text::two_digits(j as nat);
        assert(slice::slice_id(i).skip(head.len() as int) =~= a);
        assert(slice::slice_id(j).skip(head.len() as int) =~= b);
        lemma_two_digits(i as nat);
        lemma_two_digits(j as nat);
    }
}

pub proof fn lemma_two_digits(n: nat)
    ensures
        text::value(text::two_digits(n)) == n,
{
    text::lemma_value_of_digits(n);
    if n < 10 {
        let s = text::two_digits(n);
        assert(s.drop_last() =~= seq!['0']);
        assert(seq!['0'].drop_last() =~= Seq::<char>::empty());
        assert(text::digits(n).drop_last() =~= Seq::<char>::empty());
        assert(text::value(seq!['0']) == 0);
        assert(s.last() == text::digits(n).last());
    }
}

/// Each slice has its own part of the file.
pub proof fn lemma_samples(ranges: Seq<(u64, u64)>, path: Seq<char>, k: int, i: int)
    requires
        0 <= i < k,
    ensures
        slice::slice_samples(ranges, path, k)[slice::slice_id(i)] == (SampleModel {
            path,
            start_sample: ranges[i].0,
            end_sample: ranges[i].1,
            label: Some(slice::slice_id(i)),
        }),
    decreases k,
{
    if i < k - 1 {
        lemma_samples(ranges, path, k - 1, i);
        lemma_ids_differ(i, k - 1);
    }
}

/// A whole quotient of whole numbers is exact.
pub proof fn lemma_whole_quotient(a: int, b: int, c: int)
    requires
        0 < a < WHOLE_LIMIT,
        0 < b < WHOLE_LIMIT,
        0 < c < WHOLE_LIMIT,
        a == b * c,
    ensures
        slice::divided(a, b).nearest() == c,
        slice::divided(a, b).ceiling() == c,
{
    reveal(Double::quotient);
    lemma2_to64();
    lemma2_to64_rest();
    lemma_pow2_pos(double::UNIT as nat);
    let u = accuracy::unit();
    accuracy::lemma_of_int(a, 53);
    accuracy::lemma_of_int(b, 53);
    accuracy::lemma_quotient(Double::of_int(a), Double::of_int(b), 54, 54);
    lemma_positive(Double::of_int(a), 54);
    lemma_positive(Double::of_int(b), 54);
    let d = slice::divided(a, b);
    let bu = (b * u) as nat;
    let cu = (c * u) as nat;
    assert(bu > 0) by (nonlinear_arith)
        requires
            bu == b * u,
            b > 0,
            u > 0,
    ;
    assert((a * u) * u == bu * cu) by (nonlinear_arith)
        requires
            a == b * c,
            bu == b * u,
            cu == c * u,
    ;
    assert(bu * 1 == bu);
    rounding::lemma_pack_scale(53, bu, cu, 1);
    rounding::lemma_pack_exact(53, c as nat, double::UNIT as nat);
    assert(!Double::of_int(a).zero() && !Double::of_int(b).zero()) by {
        assert(rounding::scaled(53, 0) == 0);
    }
    assert(d.size() == cu);
    vstd::arithmetic::div_mod::lemma_div_multiples_vanish(c, u as int);
    vstd::arithmetic::div_mod::lemma_mod_multiples_basic(c, u as int);
    assert(u * c == c * u) by (nonlinear_arith);
    assert(d.whole_size() == c && d.part_size() == 0);
}

/// A note given as a frequency has a pitch.
proof fn lemma_no_bad_note(triggers: Seq<Trigger>, i: int)
    requires
        0 <= i <= triggers.len(),
        forall|k: int| 0 <= k < triggers.len() ==> (#[trigger] triggers[k]).cell.note is Hz,
    ensures
        compile::bad_note(triggers, i) is None,
    decreases triggers.len() - i,
{
    if i < triggers.len() {
        lemma_no_bad_note(triggers, i + 1);
    }
}

/// The names of slices are as many as the slices.
proof fn lemma_names(ranges: Seq<(u64, u64)>, path: Seq<char>, k: int)
    requires
        0 <= k,
    ensures
        slice::slice_voices(k).dom().finite(),
        slice::slice_voices(k).dom().len() == k,
        slice::slice_samples(ranges, path, k).dom() == slice::slice_voices(k).dom(),
        forall|name: Seq<char>| #[trigger]
            slice::slice_voices(k).dom().contains(name) ==> exists|i: int|
                0 <= i < k && name == #[trigger] slice::slice_id(i),
    decreases k,
{
    if k > 0 {
        lemma_names(ranges, path, k - 1);
        let before = slice::slice_voices(k - 1).dom();
        let name = slice::slice_id(k - 1);
        if before.contains(name) {
            let i = choose|i: int| 0 <= i < k - 1 && name == #[trigger] slice::slice_id(i);
            lemma_ids_differ(i, k - 1);
        }
        assert(slice::slice_voices(k).dom() =~= before.insert(name));
        assert(slice::slice_samples(ranges, path, k).dom() =~= before.insert(name));
        assert forall|other: Seq<char>| #[trigger]
            slice::slice_voices(k).dom().contains(other) implies exists|i: int|
            0 <= i < k && other == #[trigger] slice::slice_id(i) by {
            if other != name {
                assert(before.contains(other));
                let i = choose|i: int| 0 <= i < k - 1 && other == #[trigger] slice::slice_id(i);
                assert(0 <= i < k && other == slice::slice_id(i));
            }
        }
    } else {
        assert(slice::slice_voices(0).dom() =~= Set::empty());
        assert(slice::slice_samples(ranges, path, 0).dom() =~= Set::empty());
    }
}

/// A pattern of equal slices compiles where its grid does.
proof fn lemma_compiles(p: PatternModel, ranges: Seq<(u64, u64)>, n: u64, row: u64)
    requires
        sliced_equally(p, ranges, n, row),
        p.grid() is Ok,
        p.grid()->Ok_0 * p.rows <= u64::MAX,
    ensures
        p.draft(1) is Ok,
{
    let count = ranges.len() as int;
    let length = p.grid()->Ok_0 * p.rows;
    assert(length * 1 == length);
    lemma_resolved(p, ranges, n, row, count);
    let defaults = Seq::new(count as nat, |i: int| slice_defaults(ranges, row, i));
    let triggers = p.triggers(defaults, count);
    lemma_triggers(p, ranges, n, row, defaults, count);
    assert forall|k: int| 0 <= k < triggers.len() implies (#[trigger] triggers[k]).cell.note is Hz by {
        assert(p.tracks[k] == slice::slice_track(ranges, n, row, false, k));
    }
    lemma_no_bad_note(triggers, 0);
}

/// What a pattern of slices of one length compiles to, before it is checked.
proof fn lemma_even_slices(
    n: u64,
    slices: u32,
    sr: u32,
    opts: SliceOpts,
    path: Seq<char>,
    stem: Option<Seq<char>>,
    i: int,
)
    requires
        0 < n < WHOLE_LIMIT,
        slices > 0,
        n % slices as u64 == 0,
        n / (slices as u64) < ROW_LIMIT,
        sr > 0,
        !opts.transient,
        opts.bpm is None || !(Single { bits: 0 }).less(opts.bpm->0),
        0 <= i < slices,
    ensures
        ({
            let p = slice::slice_pattern(slice::equal_ranges(n, slices), n, sr, opts, path, stem);
            let made = p.draft(1)->Ok_0;
            let length = n / (slices as u64);
            &&& p.draft(1) is Ok
            &&& p.tracks.len() == slices
            &&& p.rows == slices
            &&& made.sample_rate == sr
            &&& made.duration_samples == n
            &&& made.voices == slice::slice_voices(slices as int)
            &&& made.samples == slice::slice_samples(slice::equal_ranges(n, slices), path, slices as int)
            &&& slice::equal_ranges(n, slices)[i] == ((i * length) as u64, (i * length + length) as u64)
            &&& i * length + length <= n
            &&& made.events.len() == slices
            &&& made.events[i].voice == slice::slice_id(i)
            &&& made.events[i].freq == Some(Pitch::Hz(Single { bits: single::ONE }))
            &&& made.events[i].amp == Single::of_ratio(9, 10)
            &&& made.events[i].pan == (Single { bits: 0 })
            &&& made.events[i].t == i * length
            &&& made.events[i].dur == length
        }),
{
    let ranges = slice::equal_ranges(n, slices);
    let count = slices as int;
    let base = n as int / count;
    vstd::arithmetic::div_mod::lemma_fundamental_div_mod(n as int, count);
    assert(n == base * count && 0 < base) by (nonlinear_arith)
        requires
            n == count * base,
            n > 0,
            count > 0,
    ;
    assert(base <= n && count <= n) by (nonlinear_arith)
        requires
            n == base * count,
            base > 0,
            count > 0,
    ;
    assert(ranges.len() == count);
    let row = slice::row_length(n, count, sr, opts);
    let p = slice::slice_pattern(ranges, n, sr, opts, path, stem);
    assert(n == count * base) by (nonlinear_arith)
        requires
            n == base * count,
    ;
    lemma_whole_quotient(n as int, count, base);
    lemma_whole_quotient(n as int, base, count);
    assert(row == base);
    lemma_last_row(ranges, n, row, count);
    assert(slice::rows_needed(n, row) == count);
    assert(p.rows == count);
    law_row_length_comes_back(p, row);
    lemma_compiles(p, ranges, n, row);
    lemma_draft(p, ranges, n, row);
    assert(p.draft(1)->Ok_0.samples == p.samples);
    assert(i * base + base <= n && i * base >= 0) by (nonlinear_arith)
        requires
            n == base * count,
            0 <= i < count,
            base > 0,
    ;
    assert(ranges[i].1 - ranges[i].0 == base) by {
        assert((i + 1) * base == i * base + base) by (nonlinear_arith);
        if i == count - 1 {
            assert((i + 1) * base == n) by (nonlinear_arith)
                requires
                    i == count - 1,
                    n == base * count,
            ;
        }
    }
    lemma_one_row(base, row);
    lemma_length(slice_trigger(ranges, n, row, i), row);
}

/// Cut into a number of slices that divides its length, a file becomes a
/// pattern that compiles and is exactly as long as the file: one track, one
/// voice and one sample for each slice, each as long as the others, each from
/// where the one before it ends, and the last to the end. What a slice plays
/// is its own part of the file.
pub proof fn law_even_slices_fill_the_file(
    n: u64,
    slices: u32,
    sr: u32,
    opts: SliceOpts,
    path: Seq<char>,
    stem: Option<Seq<char>>,
    i: int,
)
    requires
        0 < n < WHOLE_LIMIT,
        slices > 0,
        n % slices as u64 == 0,
        n / (slices as u64) < ROW_LIMIT,
        sr > 0,
        !opts.transient,
        opts.bpm is None || !(Single { bits: 0 }).less(opts.bpm->0),
        0 <= i < slices,
    ensures
        ({
            let p = slice::slice_pattern(slice::equal_ranges(n, slices), n, sr, opts, path, stem);
            let made = p.draft(1)->Ok_0;
            let length = n / (slices as u64);
            &&& p.draft(1) is Ok
            &&& made.valid()
            &&& p.tracks.len() == slices
            &&& p.rows == slices
            &&& made.sample_rate == sr
            &&& made.duration_samples == n
            &&& made.voices.dom().finite() && made.voices.dom().len() == slices
            &&& made.samples.dom().finite() && made.samples.dom().len() == slices
            &&& made.events.len() == slices
            &&& made.events[i].voice == slice::slice_id(i)
            &&& made.events[i].t == i * length
            &&& made.events[i].dur == length
            &&& made.voices[slice::slice_id(i)] == (VoiceModel::Sample {
                sample_id: slice::slice_id(i),
                loop_mode: SampleLoopMode::OneShot,
            })
            &&& made.samples[slice::slice_id(i)].path == path
            &&& made.samples[slice::slice_id(i)].start_sample == i * length
            &&& made.samples[slice::slice_id(i)].end_sample == i * length + length
        }),
{
    let ranges = slice::equal_ranges(n, slices);
    let p = slice::slice_pattern(ranges, n, sr, opts, path, stem);
    let made = p.draft(1)->Ok_0;
    let count = slices as int;
    lemma_even_slices(n, slices, sr, opts, path, stem, i);
    lemma_names(ranges, path, count);
    lemma_voices(count, i);
    lemma_samples(ranges, path, count, i);
    assert forall|name: Seq<char>| #[trigger] made.voices.dom().contains(name) implies piece::voice_fault(
        name,
        made.voices[name],
        made.samples,
    ) is None by {
        let k = choose|k: int| 0 <= k < count && name == #[trigger] slice::slice_id(k);
        lemma_voices(count, k);
    }
    lemma_loudness();
    assert forall|k: int| 0 <= k < made.events.len() implies piece::event_fault(
        0,
        #[trigger] made.events[k],
        made.voices,
        made.duration_samples,
    ) is None by {
        lemma_even_slices(n, slices, sr, opts, path, stem, k);
        lemma_voices(count, k);
    }
    song::lemma_no_event_fault(made, 0);
}

/// The same of the pattern that slicing a decoded file gives: `slice_to_pattern`
/// returns it, and no file that it decodes is too long for this.
pub proof fn law_evenly_sliced_file_is_filled(
    mono: Seq<Single>,
    native_sr: u32,
    opts: SliceOpts,
    path: Seq<char>,
    stem: Option<Seq<char>>,
    i: int,
)
    requires
        0 < mono.len() < WHOLE_LIMIT,
        !opts.transient,
        opts.bpm is None || !(Single { bits: 0 }).less(opts.bpm->0),
        ({
            let count = if opts.slices < 1 { 1 } else { opts.slices as int };
            let sr = match opts.sample_rate {
                Some(sr) => sr,
                None => native_sr,
            };
            &&& mono.len() as int % count == 0
            &&& mono.len() as int / count < ROW_LIMIT
            &&& sr > 0
            &&& 0 <= i < count
        }),
    ensures
        ({
            let n = mono.len() as int;
            let count = if opts.slices < 1 { 1 } else { opts.slices as int };
            let length = n / count;
            let p = slice::sliced(mono, native_sr, opts, path, stem);
            let made = p.draft(1)->Ok_0;
            &&& p.draft(1) is Ok
            &&& made.valid()
            &&& p.tracks.len() == count
            &&& p.rows == count
            &&& made.sample_rate == p.sample_rate
            &&& made.duration_samples == n
            &&& p.voices.dom().finite() && p.voices.dom().len() == count
            &&& p.samples.dom().finite() && p.samples.dom().len() == count
            &&& made.voices == p.voices
            &&& made.samples == p.samples
            &&& made.events.len() == count
            &&& made.events[i].voice == slice::slice_id(i)
            &&& made.events[i].t == i * length
            &&& made.events[i].dur == length
            &&& made.voices[slice::slice_id(i)] == (VoiceModel::Sample {
                sample_id: slice::slice_id(i),
                loop_mode: SampleLoopMode::OneShot,
            })
            &&& made.samples[slice::slice_id(i)].path == path
            &&& made.samples[slice::slice_id(i)].start_sample == i * length
            &&& made.samples[slice::slice_id(i)].end_sample == (i + 1) * length
        }),
{
    let n = mono.len() as u64;
    let slices: u32 = if opts.slices < 1 { 1 } else { opts.slices };
    let sr: u32 = match opts.sample_rate {
        Some(sr) => sr,
        None => native_sr,
    };
    let p = slice::slice_pattern(slice::equal_ranges(n, slices), n, sr, opts, path, stem);
    assert(p == slice::sliced(mono, native_sr, opts, path, stem));
    law_even_slices_fill_the_file(n, slices, sr, opts, path, stem, i);
    lemma_even_slices(n, slices, sr, opts, path, stem, i);
    let length = n as int / slices as int;
    assert((i + 1) * length == i * length + length) by (nonlinear_arith);
}

/// The loudness of a slice is one that an event may have.
proof fn lemma_loudness()
    ensures
        ({
            let amp = Single::of_ratio(9, 10);
            &&& amp.finite()
            &&& !amp.negative()
            &&& amp.at_most(Single { bits: single::ONE })
        }),
{
    reveal(Single::of_ratio);
    reveal(Single::quotient);
    lemma_pow2_pos(single::UNIT as nat);
    order::lemma_of_int_size(9);
    order::lemma_of_int_size(10);
    order::lemma_of_int_finite(9);
    order::lemma_of_int_finite(10);
    let nine = Single::of_int(9);
    let ten = Single::of_int(10);
    order::lemma_quotient_within(nine, ten);
    order::lemma_within_one(nine.quotient(ten));
}

} // verus!
