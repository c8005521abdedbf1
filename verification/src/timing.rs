//! How long rows and notes are: the row that a tempo gives, and the samples
//! that a number of rows gives.

use vstd::prelude::*;
use vstd::arithmetic::div_mod::*;
use vstd::arithmetic::power2::*;

use crate::accuracy;
use crate::closeness::gap;
use crate::compile;
use crate::double;
use crate::double::Double;
use crate::order;
use crate::pattern::PatternModel;
use crate::rounding;
use crate::single;
use crate::single::Single;

verus! {

/// The pattern of `2^-20`.
pub const SMALL: u32 = 0x3580_0000;

/// The pattern of `2^20`.
pub const BIG: u32 = 0x4980_0000;

/// Whether a value lies between `2^-20` and `2^20`.
pub open spec fn ordinary(x: Single) -> bool {
    (Single { bits: SMALL }).at_most(x) && x.at_most(Single { bits: BIG })
}

/// An ordinary value in double precision.
pub proof fn lemma_ordinary(x: Single)
    requires
        ordinary(x),
    ensures
        x.finite(),
        x.units() == x.size(),
        x.units() > 0,
        accuracy::mid(Double::of_single(x), 20),
        Double::of_single(x).size() == x.size() * accuracy::coarse(),
        x.size() <= pow2(169),
{
    lemma2_to64();
    order::lemma_in_double(x);
    rounding::lemma_scaled_at(24, SMALL as nat, pow2(23), 106);
    rounding::lemma_scaled_at(24, BIG as nat, pow2(23), 146);
    lemma_pow2_adds(23, 106);
    lemma_pow2_adds(23, 146);
    lemma_pow2_pos(129);
    if x.magnitude() > SMALL {
        rounding::lemma_scaled_monotone(24, SMALL as nat, x.magnitude());
    }
    if x.magnitude() < BIG {
        rounding::lemma_scaled_monotone(24, x.magnitude(), BIG as nat);
    }
    let c: nat = accuracy::coarse();
    lemma_pow2_pos((double::UNIT - single::UNIT) as nat);
    lemma_pow2_adds(149, (double::UNIT - single::UNIT) as nat);
    lemma_pow2_adds(129, 20);
    lemma_pow2_adds(149, 20);
    let s: nat = x.size();
    assert(pow2(149) * c <= (s * c) * pow2(20)) by (nonlinear_arith)
        requires
            pow2(129) <= s,
            pow2(149) == pow2(129) * pow2(20),
    ;
    assert(s * c <= (pow2(149) * c) * pow2(20)) by (nonlinear_arith)
        requires
            s <= pow2(169),
            pow2(169) == pow2(149) * pow2(20),
    ;
}

/// The nearest whole number is at most half away.
pub proof fn lemma_nearest_error(d: Double)
    requires
        d.finite(),
        !d.negative(),
        d.size() < 0x8000_0000_0000_0000 * accuracy::unit(),
    ensures
        2 * gap(d.nearest() * accuracy::unit() - d.size()) <= accuracy::unit(),
        d.nearest() <= 0x8000_0000_0000_0000,
{
    let u: int = accuracy::unit() as int;
    lemma_pow2_pos(double::UNIT as nat);
    let s: int = d.size() as int;
    let w: int = d.whole_size() as int;
    let r: int = d.part_size() as int;
    lemma_fundamental_div_mod(s, u);
    lemma_mod_bound(s, u);
    assert(w < 0x8000_0000_0000_0000) by (nonlinear_arith)
        requires
            s < 0x8000_0000_0000_0000 * u,
            s == u * w + r,
            r >= 0,
            u > 0,
    ;
    let n: int = d.nearest() as int;
    assert(n == if 2 * r >= u { w + 1 } else { w });
    assert(2 * gap(n * u - s) <= u) by (nonlinear_arith)
        requires
            s == u * w + r,
            0 <= r < u,
            n == if 2 * r >= u { w + 1 } else { w },
            gap(n * u - s) == if n * u - s < 0 { -(n * u - s) } else { n * u - s },
    ;
}

/// Whether a number of samples is that of a row: the sample rate times a
/// minute over the tempo times the lines to the beat, rounded. Half a sample
/// off, and a thousandth of that for the arithmetic.
pub open spec fn is_row(row: int, sr: int, tempo: Single, lines: int) -> bool {
    let beat = tempo.units() * lines;
    512 * (2 * gap(row * beat - (60 * sr) * pow2(single::UNIT as nat))) <= 513 * beat
}

proof fn lemma_row_error(l: int, c: int, x: int, a: int, row: int, u: int)
    requires
        0 < x,
        0 < c,
        0 < a,
        0 < u,
        0 <= l,
        0 <= row <= 0x100_0000_0000,
        0x1f_ffff_ffff_ffff * x <= 0x20_0000_0000_0000 * c,
        0x20_0000_0000_0000 * c <= 0x20_0000_0000_0001 * x,
        0x1f_ffff_ffff_ffff * (a * u) <= 0x20_0000_0000_0000 * (l * c),
        0x20_0000_0000_0000 * (l * c) <= 0x20_0000_0000_0001 * (a * u),
        2 * gap(row * u - l) <= u,
    ensures
        512 * (2 * gap(row * x - a)) <= 513 * x,
{
    let lx: int = l * x;
    let au: int = a * u;
    let ux: int = u * x;
    assert(lx >= 0 && au > 0 && ux > 0) by (nonlinear_arith)
        requires
            lx == l * x,
            au == a * u,
            ux == u * x,
            l >= 0,
            x > 0,
            a > 0,
            u > 0,
    ;
    assert(0x1f_ffff_ffff_ffff * au <= 0x20_0000_0000_0001 * lx) by (nonlinear_arith)
        requires
            0x20_0000_0000_0000 * c <= 0x20_0000_0000_0001 * x,
            0x1f_ffff_ffff_ffff * au <= 0x20_0000_0000_0000 * (l * c),
            lx == l * x,
            l >= 0,
    {
        assert(l * (0x20_0000_0000_0000 * c) <= l * (0x20_0000_0000_0001 * x));
    }
    assert(0x1f_ffff_ffff_ffff * lx <= 0x20_0000_0000_0001 * au) by (nonlinear_arith)
        requires
            0x1f_ffff_ffff_ffff * x <= 0x20_0000_0000_0000 * c,
            0x20_0000_0000_0000 * (l * c) <= 0x20_0000_0000_0001 * au,
            lx == l * x,
            l >= 0,
    {
        assert(l * (0x1f_ffff_ffff_ffff * x) <= l * (0x20_0000_0000_0000 * c));
    }
    // l is at most 2^40 and a half
    assert(lx <= 0x100_0000_0001 * ux) by (nonlinear_arith)
        requires
            lx == l * x,
            ux == u * x,
            2 * l <= 2 * (row * u) + u,
            row <= 0x100_0000_0000,
            x > 0,
            u > 0,
    {
        assert(row * u <= 0x100_0000_0000 * u);
        assert(2 * l <= 0x200_0000_0001 * u);
        assert((2 * l) * x <= (0x200_0000_0001 * u) * x);
    }
    let rx: int = row * x;
    assert(2 * gap(rx * u - lx) <= ux) by (nonlinear_arith)
        requires
            2 * gap(row * u - l) <= u,
            gap(row * u - l) == if row * u - l < 0 { -(row * u - l) } else { row * u - l },
            gap(rx * u - lx) == if rx * u - lx < 0 { -(rx * u - lx) } else { rx * u - lx },
            rx == row * x,
            lx == l * x,
            ux == u * x,
            x > 0,
    {
        assert((row * u - l) * x == rx * u - lx);
        assert((2 * (row * u - l)) * x <= u * x);
        assert((-(2 * (row * u - l))) * x <= u * x);
    }
    assert(512 * (2 * gap(rx * u - au)) <= 513 * ux);
    assert(512 * (2 * gap(rx - a)) <= 513 * x) by (nonlinear_arith)
        requires
            512 * (2 * gap(rx * u - au)) <= 513 * ux,
            au == a * u,
            ux == u * x,
            gap(rx - a) == if rx - a < 0 { -(rx - a) } else { rx - a },
            gap(rx * u - au) == if rx * u - au < 0 { -(rx * u - au) } else { rx * u - au },
            u > 0,
    {
        assert((rx - a) * u == rx * u - au);
        if rx - a < 0 {
            assert((512 * (2 * (-(rx - a)))) * u <= (513 * x) * u);
        } else {
            assert((512 * (2 * (rx - a))) * u <= (513 * x) * u);
        }
    }
}

/// The row that a tempo gives.
pub proof fn lemma_row(sr: u32, tempo: Single, lines: u32)
    requires
        sr > 0,
        lines > 0,
        ordinary(tempo),
    ensures
        ({
            let l = Double::of_int(sr as int).product(Double::of_int(60)).quotient(
                Double::of_single(tempo).product(Double::of_int(lines as int)),
            );
            &&& l.finite()
            &&& !l.negative()
            &&& l.nearest() <= 0x100_0000_0000 ==> is_row(l.nearest() as int, sr as int, tempo, lines as int)
        }),
{
    lemma2_to64();
    lemma2_to64_rest();
    lemma_ordinary(tempo);
    let u: nat = accuracy::unit();
    let coarse: nat = accuracy::coarse();
    let us: nat = pow2(single::UNIT as nat);
    lemma_pow2_pos(double::UNIT as nat);
    lemma_pow2_pos(single::UNIT as nat);
    lemma_pow2_pos((double::UNIT - single::UNIT) as nat);
    lemma_pow2_adds(single::UNIT as nat, (double::UNIT - single::UNIT) as nat);
    let minute: int = 60 * sr;
    let s = Double::of_int(sr as int);
    let k = Double::of_int(60);
    let a = s.product(k);
    let w = Double::of_single(tempo);
    let n = Double::of_int(lines as int);
    let c = w.product(n);
    let l = a.quotient(c);
    accuracy::lemma_of_int(sr as int, 32);
    accuracy::lemma_of_int(60, 6);
    accuracy::lemma_of_int(lines as int, 32);
    accuracy::lemma_product(s, k, 33, 7);
    accuracy::lemma_product(w, n, 20, 33);
    accuracy::lemma_quotient(a, c, 41, 54);
    // a minute of samples is exact
    assert(a.size() == minute * u) by {
        reveal(Double::product);
        assert((sr * u) * (60 * u) == u * (minute * u)) by (nonlinear_arith)
            requires
                minute == 60 * sr,
        ;
        assert(u * 1 == u);
        rounding::lemma_pack_scale(53, u, (minute * u) as nat, 1);
        rounding::lemma_pack_exact(53, minute as nat, double::UNIT as nat);
    }
    let x: int = w.size() * lines;
    let t: int = tempo.units();
    assert(x == (t * lines) * coarse && x > 0) by (nonlinear_arith)
        requires
            x == w.size() * lines,
            w.size() == t * coarse,
            t > 0,
            lines > 0,
            coarse > 0,
    ;
    let cs: int = c.size() as int;
    let h: int = 0x20_0000_0000_0000;
    assert(0x1f_ffff_ffff_ffff * x <= h * cs && h * cs <= 0x20_0000_0000_0001 * x) by (nonlinear_arith)
        requires
            (h - 1) * (w.size() * (lines * u)) <= h * (cs * u),
            h * (cs * u) <= (h + 1) * (w.size() * (lines * u)),
            x == w.size() * lines,
            h == 0x20_0000_0000_0000,
            u > 0,
    {
        assert(w.size() * (lines * u) == x * u);
        assert(((h - 1) * x) * u <= (h * cs) * u);
        assert((h * cs) * u <= ((h + 1) * x) * u);
    }
    assert(cs > 0);
    if l.nearest() <= 0x100_0000_0000 {
        let row: int = l.nearest() as int;
        let ls: int = l.size() as int;
        assert(ls < 0x8000_0000_0000_0000 * u) by {
            if ls >= 0x8000_0000_0000_0000 * u {
                assert((2 * 0x200_0000_0000 - 1) * u <= 2 * ls) by (nonlinear_arith)
                    requires
                        ls >= 0x8000_0000_0000_0000 * u,
                        u > 0,
                ;
                accuracy::lemma_nearest_at_least(l, 0x200_0000_0000);
            }
        }
        lemma_nearest_error(l);
        let m: int = minute * u;
        assert(m > 0) by (nonlinear_arith)
            requires
                m == minute * u,
                minute > 0,
                u > 0,
        ;
        lemma_row_error(ls, cs, x, m, row, u as int);
        let b: int = t * lines;
        assert(512 * (2 * gap(row * b - minute * us)) <= 513 * b) by (nonlinear_arith)
            requires
                512 * (2 * gap(row * x - m)) <= 513 * x,
                x == b * coarse,
                m == minute * u,
                u == us * coarse,
                coarse > 0,
                gap(row * x - m) == if row * x - m < 0 { -(row * x - m) } else { row * x - m },
                gap(row * b - minute * us) == if row * b - minute * us < 0 {
                    -(row * b - minute * us)
                } else {
                    row * b - minute * us
                },
        {
            assert((row * b - minute * us) * coarse == row * x - m);
            if row * b - minute * us < 0 {
                assert((512 * (2 * (-(row * b - minute * us)))) * coarse <= (513 * b) * coarse);
            } else {
                assert((512 * (2 * (row * b - minute * us))) * coarse <= (513 * b) * coarse);
            }
        }
    }
}

/// A pattern's rows have the length that its tempo and its lines to the beat
/// give at its sample rate.
pub proof fn law_row_goes_by_tempo(p: PatternModel)
    requires
        p.grid() is Ok,
        ordinary(p.tempo_bpm),
        p.grid()->Ok_0 <= 0x100_0000_0000,
    ensures
        p.sample_rate > 0,
        p.rows > 0,
        p.lines_per_beat > 0,
        p.grid()->Ok_0 > 0,
        is_row(p.grid()->Ok_0 as int, p.sample_rate as int, p.tempo_bpm, p.lines_per_beat as int),
{
    reveal(PatternModel::grid);
    lemma_row(p.sample_rate, p.tempo_bpm, p.lines_per_beat);
}

/// Whether a number of samples is that of some rows, rounded: half a sample
/// off, and a thousandth of that for the arithmetic.
pub open spec fn is_length(length: int, row: int, rows: Single) -> bool {
    let unit = pow2(single::UNIT as nat) as int;
    512 * (2 * gap(length * unit - row * rows.units())) <= 513 * unit
}

/// The samples that a number of rows gives.
pub proof fn lemma_length(row: u64, rows: Single)
    requires
        0 < row <= 0x100_0000_0000,
        ordinary(rows),
        row * rows.units() <= 0x100_0000_0000 * pow2(single::UNIT as nat),
    ensures
        is_length(
            Double::of_int(row as int).product(Double::of_single(rows)).nearest() as int,
            row as int,
            rows,
        ),
        Double::of_int(row as int).product(Double::of_single(rows)).nearest() <= 0x8000_0000_0000_0000,
{
    lemma2_to64();
    lemma2_to64_rest();
    lemma_ordinary(rows);
    let u: int = accuracy::unit() as int;
    let coarse: int = accuracy::coarse() as int;
    let us: int = pow2(single::UNIT as nat) as int;
    lemma_pow2_pos(double::UNIT as nat);
    lemma_pow2_pos(single::UNIT as nat);
    lemma_pow2_pos((double::UNIT - single::UNIT) as nat);
    lemma_pow2_adds(single::UNIT as nat, (double::UNIT - single::UNIT) as nat);
    let r = Double::of_int(row as int);
    let w = Double::of_single(rows);
    let d = r.product(w);
    accuracy::lemma_of_int(row as int, 40);
    accuracy::lemma_product(r, w, 41, 20);
    let s: int = d.size() as int;
    let t: int = rows.units();
    let v: int = row * t;
    let h: int = 0x20_0000_0000_0000;
    // s is v * coarse
    let vc: int = v * coarse;
    assert(vc <= 0x100_0000_0000 * u) by (nonlinear_arith)
        requires
            v <= 0x100_0000_0000 * us,
            vc == v * coarse,
            u == us * coarse,
            coarse > 0,
    ;
    assert(0x1f_ffff_ffff_ffff * vc <= h * s && h * s <= 0x20_0000_0000_0001 * vc) by (nonlinear_arith)
        requires
            (h - 1) * ((row * u) * (t * coarse)) <= h * (s * u),
            h * (s * u) <= (h + 1) * ((row * u) * (t * coarse)),
            v == row * t,
            vc == v * coarse,
            h == 0x20_0000_0000_0000,
            u > 0,
    {
        assert((row * u) * (t * coarse) == vc * u);
        assert(((h - 1) * vc) * u <= (h * s) * u);
        assert((h * s) * u <= ((h + 1) * vc) * u);
    }
    assert(vc >= 0) by (nonlinear_arith)
        requires
            vc == v * coarse,
            v == row * t,
            row > 0,
            t > 0,
            coarse > 0,
    ;
    assert(s < 0x8000_0000_0000_0000 * u);
    lemma_nearest_error(d);
    let n: int = d.nearest() as int;
    assert(512 * (2 * gap(n * u - vc)) <= 513 * u);
    assert(512 * (2 * gap(n * us - v)) <= 513 * us) by (nonlinear_arith)
        requires
            512 * (2 * gap(n * u - vc)) <= 513 * u,
            vc == v * coarse,
            u == us * coarse,
            coarse > 0,
            gap(n * u - vc) == if n * u - vc < 0 { -(n * u - vc) } else { n * u - vc },
            gap(n * us - v) == if n * us - v < 0 { -(n * us - v) } else { n * us - v },
    {
        assert((n * us - v) * coarse == n * u - vc);
        if n * us - v < 0 {
            assert((512 * (2 * (-(n * us - v)))) * coarse <= (513 * us) * coarse);
        } else {
            assert((512 * (2 * (n * us - v))) * coarse <= (513 * us) * coarse);
        }
    }
}

/// A whole tempo that divides a minute of samples into whole rows gives those
/// rows.
pub proof fn lemma_exact_row(sr: u32, tempo: int, lines: u32, row: int)
    requires
        sr > 0,
        lines > 0,
        0 < tempo < 0x1_0000,
        lines < 0x1_0000,
        0 < row < 0x100_0000_0000,
        row * (tempo * lines) == 60 * sr,
    ensures
        ({
            let t = Single::of_int(tempo);
            let l = Double::of_int(sr as int).product(Double::of_int(60)).quotient(
                Double::of_single(t).product(Double::of_int(lines as int)),
            );
            &&& t.finite() && (Single { bits: 0 }).less(t)
            &&& l.finite()
            &&& !l.negative()
            &&& l.nearest() == row
            &&& l.size() == row * accuracy::unit()
        }),
{
    lemma2_to64();
    lemma2_to64_rest();
    let t: Single = Single::of_int(tempo);
    let bits: nat = order::lemma_whole(tempo as nat);
    order::lemma_of_int_finite(tempo);
    order::lemma_in_double(t);
    let u: nat = accuracy::unit();
    lemma_pow2_pos(double::UNIT as nat);
    lemma_pow2_pos(single::UNIT as nat);
    lemma_pow2_pos((double::UNIT - single::UNIT) as nat);
    lemma_pow2_adds(single::UNIT as nat, (double::UNIT - single::UNIT) as nat);
    assert((tempo * pow2(single::UNIT as nat)) * accuracy::coarse() == tempo * u) by (nonlinear_arith)
        requires
            u == pow2(single::UNIT as nat) * accuracy::coarse(),
    ;
    let s = Double::of_int(sr as int);
    let k = Double::of_int(60);
    let w = Double::of_single(t);
    let n = Double::of_int(lines as int);
    accuracy::lemma_of_int(sr as int, 32);
    accuracy::lemma_of_int(60, 6);
    accuracy::lemma_of_int(lines as int, 16);
    let minute: int = 60 * sr;
    let beat: int = tempo * lines;
    assert(0 < beat < 0x1_0000_0000) by (nonlinear_arith)
        requires
            beat == tempo * lines,
            0 < tempo < 0x1_0000,
            0 < lines < 0x1_0000,
    ;
    lemma_double_product(s, k, sr as int, 60);
    lemma_double_product(w, n, tempo, lines as int);
    let a = s.product(k);
    let c = w.product(n);
    let l = a.quotient(c);
    assert(sr * 60 == minute);
    assert(minute * u == row * (beat * u)) by (nonlinear_arith)
        requires
            minute == row * beat,
    ;
    assert(l.finite() && !l.negative() && l.size() == row * u) by {
        reveal(Double::quotient);
        assert(beat * u > 0) by (nonlinear_arith)
            requires
                beat > 0,
                u > 0,
        ;
        assert((minute * u) * u == (beat * u) * (row * u)) by (nonlinear_arith)
            requires
                minute == row * beat,
        ;
        assert((beat * u) * 1 == beat * u);
        rounding::lemma_pack_scale(53, (beat * u) as nat, (row * u) as nat, 1);
        rounding::lemma_pack_exact(53, row as nat, double::UNIT as nat);
        lemma_small(row);
        assert(rounding::scaled(53, 0) == 0);
    }
    lemma_fundamental_div_mod_converse(l.size() as int, u as int, row, 0);
    assert(u * row == row * u) by (nonlinear_arith);
    single::lemma_less_is_by_value(Single { bits: 0 }, t);
    assert(rounding::scaled(24, 0) == 0);
    assert(tempo * pow2(single::UNIT as nat) > 0) by (nonlinear_arith)
        requires
            tempo > 0,
            pow2(single::UNIT as nat) > 0,
    ;
}

/// A whole number of at most 53 bits has a finite pattern.
pub proof fn lemma_small(n: int)
    requires
        0 <= n < 0x20_0000_0000_0000,
    ensures
        rounding::pack(53, (n * accuracy::unit()) as nat, 1) < double::INFINITE,
{
    lemma2_to64();
    lemma2_to64_rest();
    let u: nat = accuracy::unit();
    lemma_pow2_pos(double::UNIT as nat);
    lemma_pow2_adds(53, double::UNIT as nat);
    assert(n * u < pow2(1127)) by (nonlinear_arith)
        requires
            n < pow2(53),
            pow2(1127) == pow2(53) * u,
            u > 0,
    ;
    rounding::lemma_pack_bound(53, (n * u) as nat, 1, 1074);
    assert(pow2((53 - 1) as nat) == 0x10_0000_0000_0000);
}

/// Whole numbers multiply exactly in double precision.
pub proof fn lemma_double_product(a: Double, b: Double, x: int, y: int)
    requires
        a.finite(),
        b.finite(),
        !a.negative(),
        !b.negative(),
        0 < x,
        0 < y,
        x * y < 0x20_0000_0000_0000,
        a.size() == x * accuracy::unit(),
        b.size() == y * accuracy::unit(),
    ensures
        a.product(b).finite(),
        !a.product(b).negative(),
        a.product(b).size() == (x * y) * accuracy::unit(),
{
    reveal(Double::product);
    lemma2_to64();
    lemma2_to64_rest();
    let u: nat = accuracy::unit();
    lemma_pow2_pos(double::UNIT as nat);
    assert(x * y > 0) by (nonlinear_arith)
        requires
            x > 0,
            y > 0,
    ;
    assert((x * u) * (y * u) == u * ((x * y) * u)) by (nonlinear_arith);
    assert(u * 1 == u);
    rounding::lemma_pack_scale(53, u, ((x * y) * u) as nat, 1);
    rounding::lemma_pack_exact(53, (x * y) as nat, double::UNIT as nat);
    lemma_small(x * y);
}

/// A row of at most 2^40 samples is not too long.
pub proof fn lemma_not_too_many(d: Double, row: int)
    requires
        d.finite(),
        !d.negative(),
        0 < row < 0x100_0000_0000,
        d.size() == row * accuracy::unit(),
    ensures
        !(Double { bits: compile::TOO_MANY }).less(d),
{
    lemma2_to64();
    lemma2_to64_rest();
    let limit = Double { bits: compile::TOO_MANY };
    let u: nat = accuracy::unit();
    lemma_pow2_pos(double::UNIT as nat);
    assert(limit.size() == pow2(64) * u) by {
        assert(pow2((53 - 1) as nat) == 0x10_0000_0000_0000);
        rounding::lemma_scaled_at(53, compile::TOO_MANY as nat, pow2(52), 1086);
        lemma_pow2_adds(52, 1086);
        lemma_pow2_adds(64, 1074);
    }
    assert(row * u < pow2(64) * u) by (nonlinear_arith)
        requires
            row < pow2(64),
            u > 0,
    ;
    double::lemma_less_is_by_value(limit, d);
}

} // verus!
