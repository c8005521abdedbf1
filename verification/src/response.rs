//! How the filters answer: their gain at the frequencies that matter, and where
//! their poles lie.
//!
//! A filter with the coefficients `b0`, `b1`, `b2`, `a1`, `a2` passes a steady
//! value with the gain `(b0 + b1 + b2) / (1 + a1 + a2)`, and one that changes
//! its sign with every sample with `(b0 - b1 + b2) / (1 - a1 + a2)`.

use vstd::prelude::*;
use vstd::arithmetic::power2::*;

use crate::closeness;
use crate::closeness::{gap, whole};
use crate::curve::Curve;
use crate::dsp;
use crate::dsp::Biquad;
use crate::order;
use crate::rounding;
use crate::single;
use crate::single::Single;
use crate::timing;

verus! {

/// Whether the coefficients of a filter are numbers, and not all nothing.
pub open spec fn sound(f: Biquad) -> bool {
    &&& f.b0.finite() && f.b1.finite() && f.b2.finite() && f.a1.finite() && f.a2.finite()
    &&& f.b0.units() != 0 || f.a1.units() != 0 || f.a2.units() != 0
}

/// Whether a sum of coefficients is nothing, up to 32 parts in `2^24` of the
/// sizes of what is summed.
pub open spec fn vanishes(sum: int, sizes: int) -> bool {
    0x100_0000 * gap(sum) <= 32 * sizes
}

/// A part in `2^48` of one and of a coefficient.
pub open spec fn dust(a2: int) -> int {
    (whole() + gap(a2)) / 0x1_0000_0000_0000
}

/// The error of a quotient, whatever the sign of the divisor.
proof fn lemma_quotient(x: Single, y: Single)
    requires
        x.finite(),
        y.finite(),
        y.units() != 0,
        x.quotient(y).finite(),
    ensures
        0x100_0000 * gap(x.quotient(y).units() * y.units() - x.units() * whole()) <= gap(x.units()) * whole()
            + 0x80_0000 * gap(y.units()),
{
    if y.units() > 0 {
        closeness::lemma_quotient(x, y);
    } else {
        let n: Single = x.negated();
        let d: Single = y.negated();
        assert(n.finite() && d.finite() && n.units() == -x.units() && d.units() == -y.units());
        assert(x.quotient(y) == n.quotient(d)) by {
            reveal(Single::quotient);
        }
        closeness::lemma_quotient(n, d);
        let q: int = x.quotient(y).units();
        let a: int = x.units();
        let b: int = y.units();
        let u: int = whole();
        assert(q * (-b) - (-a) * u == -(q * b - a * u)) by (nonlinear_arith);
        assert(gap(-a) == gap(a) && gap(-b) == gap(b));
    }
}

/// A quotient that is a number is one of numbers, unless it is nothing.
proof fn lemma_parts(x: Single, y: Single)
    requires
        x.quotient(y).finite(),
    ensures
        x.quotient(y).units() != 0 ==> x.finite() && y.finite() && y.units() != 0,
        y.finite() ==> x.finite() && y.units() != 0,
{
    reveal(Single::quotient);
    lemma2_to64();
    assert(rounding::scaled(24, 0) == 0);
    if y.magnitude() > 0 {
        rounding::lemma_scaled_monotone(24, 0, y.magnitude());
    }
}

/// Nothing over a number is nothing.
proof fn lemma_nothing_over(x: Single)
    requires
        x.finite(),
        x.units() != 0,
    ensures
        (Single { bits: 0 }).quotient(x).units() == 0,
{
    lemma2_to64();
    assert(rounding::scaled(24, 0) == 0);
    if !x.negative() {
        order::lemma_zero_over(x);
    } else {
        reveal(Single::quotient);
        order::lemma_zero_over(x.negated());
        assert((Single { bits: 0 }).quotient(x) == (Single { bits: 0 }).quotient(x.negated()).negated());
    }
}

/// A sum that is a number is one of numbers.
pub proof fn lemma_summands(x: Single, y: Single)
    requires
        x.sum(y).finite(),
    ensures
        x.finite(),
        y.finite(),
{
    reveal(Single::sum);
}

/// A product that is a number is one of numbers.
pub proof fn lemma_factors(x: Single, y: Single)
    requires
        x.product(y).finite(),
    ensures
        x.finite(),
        y.finite(),
{
    reveal(Single::product);
}

/// What is small after it has been multiplied is small.
proof fn lemma_cancel(z: int, d: int, sizes: int)
    requires
        d != 0,
        0x100_0000 * gap(z * d) <= sizes * gap(d),
    ensures
        0x100_0000 * gap(z) <= sizes,
{
    closeness::lemma_gap_product(z, d);
    assert(0x100_0000 * gap(z) <= sizes) by (nonlinear_arith)
        requires
            0x100_0000 * (gap(z) * gap(d)) <= sizes * gap(d),
            gap(d) > 0,
    ;
}

/// Half a value.
pub proof fn lemma_half(x: Single)
    requires
        x.finite(),
        x.quotient(Single::of_int(2)).finite(),
    ensures
        0x100_0000 * gap(2 * x.quotient(Single::of_int(2)).units() - x.units()) <= gap(x.units()) + 0x100_0000,
{
    closeness::lemma_whole();
    closeness::lemma_of_int(2);
    lemma_quotient(x, Single::of_int(2));
    let h: int = x.quotient(Single::of_int(2)).units();
    let u: int = whole();
    let e: int = 2 * h - x.units();
    assert(h * (2 * u) - x.units() * u == e * u) by (nonlinear_arith)
        requires
            e == 2 * h - x.units(),
    ;
    closeness::lemma_gap_product(e, u);
    assert(0x100_0000 * gap(e) <= gap(x.units()) + 0x100_0000) by (nonlinear_arith)
        requires
            0x100_0000 * (gap(e) * u) <= gap(x.units()) * u + 0x80_0000 * (2 * u),
            u > 0,
    ;
}

/// Twice a value, the other way.
proof fn lemma_twice(x: Single)
    requires
        x.finite(),
        Single::of_int(-2).product(x).finite(),
    ensures
        0x100_0000 * gap(Single::of_int(-2).product(x).units() + 2 * x.units()) <= 2 * gap(x.units()) + 0x80_0000,
{
    closeness::lemma_whole();
    closeness::lemma_of_int(-2);
    closeness::lemma_product(Single::of_int(-2), x);
    let t: int = Single::of_int(-2).product(x).units();
    let u: int = whole();
    let v: int = x.units();
    assert(((-2) * u) * v == (-2 * v) * u) by (nonlinear_arith);
    let e: int = t + 2 * v;
    assert(t * u - (-2 * v) * u == e * u) by (nonlinear_arith)
        requires
            e == t + 2 * v,
    ;
    closeness::lemma_gap_product(e, u);
    closeness::lemma_gap_product(-2 * v, u);
    assert(0x100_0000 * gap(e) <= 2 * gap(v) + 0x80_0000) by (nonlinear_arith)
        requires
            0x100_0000 * (gap(e) * u) <= (2 * gap(v)) * u + 0x80_0000 * u,
            u > 0,
    ;
}

/// The raw terms behind a coefficient, all in units: `v` is the raw `r` over
/// `d`.
spec fn over(v: int, r: int, d: int) -> bool {
    0x100_0000 * gap(v * d - r * whole()) <= gap(r) * whole() + 0x80_0000 * gap(d)
}

/// What a raw term weighs.
proof fn lemma_over(v: int, r: int, d: int)
    requires
        over(v, r, d),
    ensures
        0xff_ffff * (gap(r) * whole()) <= 0x100_0000 * (gap(v) * gap(d)) + 0x80_0000 * gap(d),
        gap(v * d) == gap(v) * gap(d),
        gap(r * whole()) == gap(r) * whole(),
{
    closeness::lemma_whole();
    closeness::lemma_gap_product(v, d);
    closeness::lemma_gap_product(r, whole());
}

/// The bandpass gives its centre back as it is, whatever its width, and lets no
/// steady value through: its gain there is `(b0 - b2) / (1 - a2)`, which is one.
pub proof fn law_bandpass_is_even(m: spec_fn(Curve) -> Single, sample_rate: Single, center: Single, q: Single)
    requires
        sound(dsp::bandpass_of(m, sample_rate, center, q)),
    ensures
        ({
            let f = dsp::bandpass_of(m, sample_rate, center, q);
            &&& f.b1.units() == 0
            &&& f.b2 == f.b0.negated()
            &&& vanishes(
                f.b0.units() - f.b2.units() - (whole() - f.a2.units()),
                gap(f.b0.units()) + gap(f.b2.units()) + whole() + gap(f.a2.units()),
            )
        }),
{
    let f: Biquad = dsp::bandpass_of(m, sample_rate, center, q);
    let one: Single = Single { bits: single::ONE };
    let c: Single = m(Curve::Cos(dsp::angle(sample_rate, center)));
    let a: Single = dsp::alpha(m, sample_rate, center, q);
    let a0: Single = one.sum(a);
    let rest: Single = one.difference(a);
    closeness::lemma_whole();
    lemma_parts(a, a0);
    lemma_parts(Single::of_int(-2).product(c), a0);
    lemma_parts(rest, a0);
    closeness::lemma_sum(one, a);
    assert(a.negated().units() == -a.units());
    closeness::lemma_sum(one, a.negated());
    lemma_quotient(a, a0);
    lemma_quotient(rest, a0);
    assert(f.b2 == f.b0.negated()) by {
        reveal(Single::quotient);
    }
    assert(f.b1.units() == 0) by {
        lemma_nothing_over(a0);
    }
    lemma_even(f.b0.units(), f.a2.units(), a.units(), a0.units(), rest.units());
}

#[verifier::rlimit(60)]
#[verifier::spinoff_prover]
proof fn lemma_even(b0: int, a2: int, a: int, d: int, r: int)
    requires
        d != 0,
        0x100_0000 * gap(d - (whole() + a)) <= gap(whole() + a),
        0x100_0000 * gap(r - (whole() - a)) <= gap(whole() - a),
        over(b0, a, d),
        over(a2, r, d),
    ensures
        vanishes(2 * b0 - (whole() - a2), 2 * gap(b0) + whole() + gap(a2)),
{
    let u: int = whole();
    closeness::lemma_whole();
    lemma_over(b0, a, d);
    lemma_over(a2, r, d);
    let e: int = 2 * a + r - d;
    assert(0x100_0000 * gap(e) <= 2 * gap(d) + 2 * gap(r));
    closeness::lemma_gap_product(e, u);
    let z: int = 2 * b0 + a2 - u;
    let x: int = b0 * d;
    let y: int = a2 * d;
    assert(z * d == 2 * (x - a * u) + (y - r * u) + e * u) by (nonlinear_arith)
        requires
            z == 2 * b0 + a2 - u,
            x == b0 * d,
            y == a2 * d,
            e == 2 * a + r - d,
    ;
    assert(0x100_0000 * (gap(e) * u) <= 2 * (gap(d) * u) + 2 * (gap(r) * u)) by (nonlinear_arith)
        requires
            0x100_0000 * gap(e) <= 2 * gap(d) + 2 * gap(r),
            u > 0,
    ;
    lemma_small(gap(d), u);
    lemma_even_sizes(gap(z * d), gap(x - a * u), gap(y - r * u), gap(e * u), gap(x), gap(y), gap(d) * u, gap(d), gap(a) * u, gap(r) * u);
    let sizes: int = 32 * (2 * gap(b0) + u + gap(a2));
    assert(sizes * gap(d) == 64 * (gap(b0) * gap(d)) + 32 * (gap(d) * u) + 32 * (gap(a2) * gap(d))) by (nonlinear_arith)
        requires
            sizes == 32 * (2 * gap(b0) + u + gap(a2)),
    ;
    lemma_cancel(z, d, sizes);
}

proof fn lemma_even_sizes(z: int, p: int, q: int, e: int, x: int, y: int, du: int, d: int, au: int, ru: int)
    requires
        z <= 2 * p + q + e,
        0x100_0000 * p <= au + 0x80_0000 * d,
        0x100_0000 * q <= ru + 0x80_0000 * d,
        0x100_0000 * e <= 2 * du + 2 * ru,
        0xff_ffff * au <= 0x100_0000 * x + 0x80_0000 * d,
        0xff_ffff * ru <= 0x100_0000 * y + 0x80_0000 * d,
        0x1_0000_0000_0000 * d <= du,
        x >= 0,
        y >= 0,
        d >= 0,
    ensures
        0x100_0000 * z <= 64 * x + 32 * du + 32 * y,
{
}

/// A few units are nothing beside one.
proof fn lemma_small(d: int, u: int)
    requires
        d >= 0,
        u >= 0x1_0000_0000_0000_0000_0000_0000_0000,
    ensures
        0x1_0000_0000_0000_0000_0000_0000_0000 * d <= d * u,
{
    assert(0x1_0000_0000_0000_0000_0000_0000_0000 * d <= d * u) by (nonlinear_arith)
        requires
            d >= 0,
            u >= 0x1_0000_0000_0000_0000_0000_0000_0000,
    ;
}

/// The low-pass lets a steady value through as it is, and nothing of one that
/// changes its sign with every sample.
pub proof fn law_lowpass_is_even(m: spec_fn(Curve) -> Single, sample_rate: Single, cutoff: Single, q: Single)
    requires
        sound(dsp::lowpass_of(m, sample_rate, cutoff, q)),
    ensures
        ({
            let f = dsp::lowpass_of(m, sample_rate, cutoff, q);
            let (b0, b1, b2) = (f.b0.units(), f.b1.units(), f.b2.units());
            let (a1, a2) = (f.a1.units(), f.a2.units());
            &&& f.b2 == f.b0
            &&& vanishes(b0 + b1 + b2 - (whole() + a1 + a2), gap(b0) + gap(b1) + gap(b2) + whole() + gap(a1) + gap(a2))
            &&& vanishes(b0 - b1 + b2, gap(b0) + gap(b1) + gap(b2) + dust(a2))
        }),
{
    let f: Biquad = dsp::lowpass_of(m, sample_rate, cutoff, q);
    let one: Single = Single { bits: single::ONE };
    let c: Single = m(Curve::Cos(dsp::angle(sample_rate, cutoff)));
    let a: Single = dsp::alpha(m, sample_rate, cutoff, q);
    let a0: Single = one.sum(a);
    let rest: Single = one.difference(a);
    let b1: Single = one.difference(c);
    let b0: Single = b1.quotient(Single::of_int(2));
    let a1: Single = Single::of_int(-2).product(c);
    closeness::lemma_whole();
    lemma_parts(b0, a0);
    lemma_parts(a1, a0);
    lemma_parts(rest, a0);
    lemma_parts(b1, a0);
    lemma_summands(one, a);
    lemma_factors(Single::of_int(-2), c);
    assert(a.negated().units() == -a.units() && c.negated().units() == -c.units());
    closeness::lemma_sum(one, a);
    closeness::lemma_sum(one, a.negated());
    closeness::lemma_sum(one, c.negated());
    lemma_half(b1);
    lemma_twice(c);
    lemma_quotient(b0, a0);
    lemma_quotient(b1, a0);
    lemma_quotient(a1, a0);
    lemma_quotient(rest, a0);
    lemma_ends(
        f.b0.units(),
        f.b1.units(),
        f.a1.units(),
        f.a2.units(),
        b0.units(),
        b1.units(),
        a1.units(),
        rest.units(),
        a0.units(),
        a.units(),
        -c.units(),
    );
}

/// The high-pass lets a value that changes its sign with every sample through as
/// it is, and nothing of a steady one.
pub proof fn law_highpass_is_even(m: spec_fn(Curve) -> Single, sample_rate: Single, cutoff: Single, q: Single)
    requires
        sound(dsp::highpass_of(m, sample_rate, cutoff, q)),
    ensures
        ({
            let f = dsp::highpass_of(m, sample_rate, cutoff, q);
            let (b0, b1, b2) = (f.b0.units(), f.b1.units(), f.b2.units());
            let (a1, a2) = (f.a1.units(), f.a2.units());
            &&& f.b2 == f.b0
            &&& vanishes(b0 - b1 + b2 - (whole() - a1 + a2), gap(b0) + gap(b1) + gap(b2) + whole() + gap(a1) + gap(a2))
            &&& vanishes(b0 + b1 + b2, gap(b0) + gap(b1) + gap(b2) + dust(a2))
        }),
{
    let f: Biquad = dsp::highpass_of(m, sample_rate, cutoff, q);
    let one: Single = Single { bits: single::ONE };
    let c: Single = m(Curve::Cos(dsp::angle(sample_rate, cutoff)));
    let a: Single = dsp::alpha(m, sample_rate, cutoff, q);
    let a0: Single = one.sum(a);
    let rest: Single = one.difference(a);
    let s: Single = one.sum(c);
    let b1: Single = s.negated();
    let b0: Single = s.quotient(Single::of_int(2));
    let a1: Single = Single::of_int(-2).product(c);
    closeness::lemma_whole();
    lemma_parts(b0, a0);
    lemma_parts(a1, a0);
    lemma_parts(rest, a0);
    lemma_parts(b1, a0);
    lemma_summands(one, a);
    lemma_factors(Single::of_int(-2), c);
    assert(a.negated().units() == -a.units() && b1.units() == -s.units());
    closeness::lemma_sum(one, a);
    closeness::lemma_sum(one, a.negated());
    closeness::lemma_sum(one, c);
    lemma_half(s);
    lemma_twice(c);
    lemma_quotient(b0, a0);
    lemma_quotient(b1, a0);
    lemma_quotient(a1, a0);
    lemma_quotient(rest, a0);
    lemma_over_negated(f.b1.units(), b1.units(), a0.units());
    lemma_over_negated(f.a1.units(), a1.units(), a0.units());
    lemma_ends(
        f.b0.units(),
        -f.b1.units(),
        -f.a1.units(),
        f.a2.units(),
        b0.units(),
        s.units(),
        -a1.units(),
        rest.units(),
        a0.units(),
        a.units(),
        c.units(),
    );
}

proof fn lemma_over_negated(v: int, r: int, d: int)
    requires
        over(v, r, d),
    ensures
        over(-v, -r, d),
{
    assert((-v) * d - (-r) * whole() == -(v * d - r * whole())) by (nonlinear_arith);
}

/// What is close to a value is close by its own size too.
proof fn lemma_near(x: int, y: int, k: int)
    requires
        0x100_0000 * gap(x - y) <= gap(y) + k,
        k >= 0,
    ensures
        0x100_0000 * gap(x - y) <= 2 * gap(x) + 2 * k,
{
}

proof fn lemma_five(h: int, b: int, d: int, r: int, a: int)
    ensures
        gap(h + 2 * b - d - r - a) <= gap(h) + 2 * gap(b) + gap(d) + gap(r) + gap(a),
{
}

proof fn lemma_six(p: int, q: int, r: int, s: int, e: int, h: int)
    ensures
        gap(2 * p + q - r - s + e) <= 2 * gap(p) + gap(q) + gap(r) + gap(s) + gap(e),
        gap(2 * p - q + h) <= 2 * gap(p) + gap(q) + gap(h),
{
}

/// The gain of one at one end, and of nothing at the other.
#[verifier::rlimit(60)]
#[verifier::spinoff_prover]
proof fn lemma_ends(b0: int, b1: int, a1: int, a2: int, b0r: int, b1r: int, a1r: int, r: int, d: int, a: int, c: int)
    requires
        d != 0,
        over(b0, b0r, d),
        over(b1, b1r, d),
        over(a1, a1r, d),
        over(a2, r, d),
        0x100_0000 * gap(d - (whole() + a)) <= gap(whole() + a),
        0x100_0000 * gap(r - (whole() - a)) <= gap(whole() - a),
        0x100_0000 * gap(b1r - (whole() + c)) <= gap(whole() + c),
        0x100_0000 * gap(2 * b0r - b1r) <= gap(b1r) + 0x100_0000,
        0x100_0000 * gap(a1r - 2 * c) <= 2 * gap(c) + 0x80_0000,
    ensures
        vanishes(2 * b0 + b1 - (whole() + a1 + a2), 2 * gap(b0) + gap(b1) + whole() + gap(a1) + gap(a2)),
        vanishes(2 * b0 - b1, 2 * gap(b0) + gap(b1) + dust(a2)),
{
    let u: int = whole();
    let e: int = 2 * b0r + b1r - d - a1r - r;
    assert(0x100_0000 * gap(e) <= 5 * gap(b1r) + 2 * gap(d) + 2 * gap(r) + 2 * gap(a1r) + 0x400_0000) by {
        lemma_near(d, u + a, 0);
        lemma_near(r, u - a, 0);
        lemma_near(b1r, u + c, 0);
        lemma_near(a1r, 2 * c, 0x80_0000);
        lemma_five(2 * b0r - b1r, b1r - (u + c), d - (u + a), r - (u - a), a1r - 2 * c);
    }
    lemma_feedback(a2, a, d, r);
    lemma_ends_of(b0, b1, a1, a2, b0r, b1r, a1r, r, d);
}

#[verifier::rlimit(60)]
#[verifier::spinoff_prover]
proof fn lemma_ends_of(b0: int, b1: int, a1: int, a2: int, b0r: int, b1r: int, a1r: int, r: int, d: int)
    requires
        d != 0,
        over(b0, b0r, d),
        over(b1, b1r, d),
        over(a1, a1r, d),
        over(a2, r, d),
        0x100_0000 * gap(2 * b0r - b1r) <= gap(b1r) + 0x100_0000,
        0x100_0000 * gap(2 * b0r + b1r - d - a1r - r) <= 5 * gap(b1r) + 2 * gap(d) + 2 * gap(r) + 2 * gap(a1r)
            + 0x400_0000,
        0x100_0000_0000_0000_0000_0000 * whole() <= gap(d) * whole() + gap(a2) * gap(d),
    ensures
        vanishes(2 * b0 + b1 - (whole() + a1 + a2), 2 * gap(b0) + gap(b1) + whole() + gap(a1) + gap(a2)),
        vanishes(2 * b0 - b1, 2 * gap(b0) + gap(b1) + dust(a2)),
{
    let u: int = whole();
    closeness::lemma_whole();
    lemma_over(b0, b0r, d);
    lemma_over(b1, b1r, d);
    lemma_over(a1, a1r, d);
    lemma_over(a2, r, d);
    let e: int = 2 * b0r + b1r - d - a1r - r;
    let h: int = 2 * b0r - b1r;
    closeness::lemma_gap_product(e, u);
    closeness::lemma_gap_product(h, u);
    let z: int = 2 * b0 + b1 - (u + a1 + a2);
    let y: int = 2 * b0 - b1;
    assert(z * d == 2 * (b0 * d - b0r * u) + (b1 * d - b1r * u) - (a1 * d - a1r * u) - (a2 * d - r * u) + e * u
        && y * d == 2 * (b0 * d - b0r * u) - (b1 * d - b1r * u) + h * u) by (nonlinear_arith)
        requires
            z == 2 * b0 + b1 - (u + a1 + a2),
            e == 2 * b0r + b1r - d - a1r - r,
            y == 2 * b0 - b1,
            h == 2 * b0r - b1r,
    ;
    assert(0x100_0000 * (gap(e) * u) <= 5 * (gap(b1r) * u) + 2 * (gap(d) * u) + 2 * (gap(r) * u) + 2 * (gap(a1r) * u)
        + 0x400_0000 * u) by (nonlinear_arith)
        requires
            0x100_0000 * gap(e) <= 5 * gap(b1r) + 2 * gap(d) + 2 * gap(r) + 2 * gap(a1r) + 0x400_0000,
            u > 0,
    ;
    assert(0x100_0000 * (gap(h) * u) <= gap(b1r) * u + 0x100_0000 * u) by (nonlinear_arith)
        requires
            0x100_0000 * gap(h) <= gap(b1r) + 0x100_0000,
            u > 0,
    ;
    lemma_small(gap(d), u);
    let p0: int = gap(b0 * d - b0r * u);
    let p1: int = gap(b1 * d - b1r * u);
    let p2: int = gap(a1 * d - a1r * u);
    let p3: int = gap(a2 * d - r * u);
    let x0: int = gap(b0) * gap(d);
    let x1: int = gap(b1) * gap(d);
    let y1: int = gap(a1) * gap(d);
    let y2: int = gap(a2) * gap(d);
    let du: int = gap(d) * u;
    let g: int = gap(d);
    lemma_six(b0 * d - b0r * u, b1 * d - b1r * u, a1 * d - a1r * u, a2 * d - r * u, e * u, h * u);
    assert(x0 >= 0 && x1 >= 0 && y1 >= 0 && y2 >= 0) by (nonlinear_arith)
        requires
            x0 == gap(b0) * gap(d),
            x1 == gap(b1) * gap(d),
            y1 == gap(a1) * gap(d),
            y2 == gap(a2) * gap(d),
            gap(b0) >= 0,
            gap(b1) >= 0,
            gap(a1) >= 0,
            gap(a2) >= 0,
            gap(d) >= 0,
    ;
    let sizes: int = 32 * (2 * gap(b0) + gap(b1) + u + gap(a1) + gap(a2));
    assert(sizes * g == 64 * x0 + 32 * x1 + 32 * du + 32 * y1 + 32 * y2) by (nonlinear_arith)
        requires
            sizes == 32 * (2 * gap(b0) + gap(b1) + u + gap(a1) + gap(a2)),
            x0 == gap(b0) * g,
            x1 == gap(b1) * g,
            y1 == gap(a1) * g,
            y2 == gap(a2) * g,
            du == g * u,
    ;
    let k: int = dust(a2);
    assert(0x2_0000_0000_0000 * k >= u + gap(a2));
    let rest: int = 32 * (2 * gap(b0) + gap(b1) + k);
    assert(0x2_0000_0000_0000 * (k * g) >= du + y2 && rest * g == 64 * x0 + 32 * x1 + 32 * (k * g)) by (nonlinear_arith)
        requires
            rest == 32 * (2 * gap(b0) + gap(b1) + k),
            0x2_0000_0000_0000 * k >= u + gap(a2),
            g >= 0,
            x0 == gap(b0) * g,
            x1 == gap(b1) * g,
            y2 == gap(a2) * g,
            du == g * u,
    ;
    lemma_end_sizes(
        gap(z * d),
        gap(y * d),
        p0,
        p1,
        p2,
        p3,
        gap(e) * u,
        gap(h) * u,
        gap(b0r) * u,
        gap(b1r) * u,
        gap(a1r) * u,
        gap(r) * u,
        x0,
        x1,
        y1,
        y2,
        du,
        g,
        u,
        k * g,
    );
    lemma_cancel(z, d, sizes);
    lemma_cancel(y, d, rest);
}

/// The feedback of a filter is never lost: `1 + a2` is twice the inverse of the
/// raw `a0`.
#[verifier::rlimit(60)]
#[verifier::spinoff_prover]
proof fn lemma_feedback(a2: int, a: int, d: int, r: int)
    requires
        over(a2, r, d),
        0x100_0000 * gap(d - (whole() + a)) <= gap(whole() + a),
        0x100_0000 * gap(r - (whole() - a)) <= gap(whole() - a),
    ensures
        0x100_0000_0000_0000_0000_0000 * whole() <= gap(d) * whole() + gap(a2) * gap(d),
{
    let u: int = whole();
    closeness::lemma_whole();
    lemma_over(a2, r, d);
    lemma_small(gap(d), u);
    assert(gap(d) + gap(r) >= u);
    assert(gap(d) * u + gap(r) * u >= 0x1_0000_0000_0000_0000_0000_0000_0000 * u) by (nonlinear_arith)
        requires
            gap(d) + gap(r) >= u,
            u >= 0x1_0000_0000_0000_0000_0000_0000_0000,
    ;
}

proof fn lemma_end_sizes(
    z: int,
    y: int,
    p0: int,
    p1: int,
    p2: int,
    p3: int,
    e: int,
    h: int,
    r0: int,
    r1: int,
    s1: int,
    s2: int,
    x0: int,
    x1: int,
    y1: int,
    y2: int,
    du: int,
    d: int,
    u: int,
    k: int,
)
    requires
        z <= 2 * p0 + p1 + p2 + p3 + e,
        y <= 2 * p0 + p1 + h,
        0x100_0000 * p0 <= r0 + 0x80_0000 * d,
        0x100_0000 * p1 <= r1 + 0x80_0000 * d,
        0x100_0000 * p2 <= s1 + 0x80_0000 * d,
        0x100_0000 * p3 <= s2 + 0x80_0000 * d,
        0x100_0000 * e <= 5 * r1 + 2 * du + 2 * s2 + 2 * s1 + 0x400_0000 * u,
        0x100_0000 * h <= r1 + 0x100_0000 * u,
        0xff_ffff * r0 <= 0x100_0000 * x0 + 0x80_0000 * d,
        0xff_ffff * r1 <= 0x100_0000 * x1 + 0x80_0000 * d,
        0xff_ffff * s1 <= 0x100_0000 * y1 + 0x80_0000 * d,
        0xff_ffff * s2 <= 0x100_0000 * y2 + 0x80_0000 * d,
        0x1_0000_0000_0000_0000_0000_0000_0000 * d <= du,
        0x2_0000_0000_0000 * k >= du + y2,
        0x100_0000_0000_0000_0000_0000 * u <= du + y2,
        x0 >= 0,
        x1 >= 0,
        y1 >= 0,
        y2 >= 0,
        d >= 0,
        u >= 0,
    ensures
        0x100_0000 * z <= 64 * x0 + 32 * x1 + 32 * du + 32 * y1 + 32 * y2,
        0x100_0000 * y <= 64 * x0 + 32 * x1 + 32 * k,
{
}

/// Whether `w` is the angle of a frequency: how far a wave of it turns in one
/// sample, in radians.
pub open spec fn is_angle(w: Single, freq: Single, rate: int) -> bool {
    let turned = w.units() * Single::of_int(rate).units();
    w.finite() && 628318 * (freq.units() * whole()) <= 100000 * turned <= 628319 * (freq.units() * whole())
}

/// Whether the feedback of a filter is that of an angle with the cosine `c` and
/// the sine `s`, at the width of `q`: `a1` is `-c (1 + a2)`, and `1 - a2` is
/// `s / (2 q)` of `1 + a2`.
pub open spec fn is_resonance(f: Biquad, c: Single, s: Single, q: Single) -> bool {
    let u = whole();
    let (a1, a2) = (f.a1.units(), f.a2.units());
    &&& c.finite() && s.finite()
    &&& vanishes(
        a1 * u + c.units() * (u + a2),
        gap(a1) * u + (gap(c.units()) + 0x100_0000) * (u + gap(a2)),
    )
    &&& vanishes(
        (u - a2) * (2 * q.units()) - (u + a2) * s.units(),
        (u + gap(a2)) * (2 * q.units() + gap(s.units()) + 0x100_0000),
    )
}

/// Whether a filter resonates at a frequency.
pub open spec fn resonates(f: Biquad, m: spec_fn(Curve) -> Single, rate: int, freq: Single, q: Single) -> bool {
    exists|w: Single|
        #[trigger] is_angle(w, freq, rate) && is_resonance(f, m(Curve::Cos(w)), m(Curve::Sin(w)), q)
}

/// Whether a `q` is one that the filters take as it is.
pub open spec fn usable(q: Single) -> bool {
    timing::ordinary(q) && Single::of_ratio(1, 10000).at_most(q)
}

pub proof fn lemma_angle(rate: u32, freq: Single)
    requires
        rate > 0,
        timing::ordinary(freq),
    ensures
        is_angle(dsp::angle(Single::of_int(rate as int), freq), freq, rate as int),
{
    lemma2_to64();
    closeness::lemma_whole();
    timing::lemma_ordinary(freq);
    let u: int = whole();
    let tau: Single = Single { bits: dsp::TAU };
    let k: int = pow2(128) as int;
    rounding::lemma_scaled_at(24, dsp::TAU as nat, 0xc9_0fdb, 128);
    lemma_pow2_adds(21, 128);
    lemma_pow2_pos(128);
    assert(pow2(21) == 0x20_0000);
    assert(u == 0x20_0000 * k);
    let t: int = tau.units();
    assert(t == 0xc9_0fdb * k);
    assert(order::within_power(tau, 3)) by {
        lemma_pow2_adds(149, 3);
        assert(0xc9_0fdb * k <= 8 * (0x20_0000 * k));
    }
    assert(order::within_power(freq, 20));
    order::lemma_product_within_power(tau, freq, 3, 20);
    let p: Single = tau.product(freq);
    order::lemma_over_whole(p, rate as int, 23);
    let w: Single = p.quotient(Single::of_int(rate as int));
    let f: int = freq.units();
    closeness::lemma_product(tau, freq);
    assert(f >= 0x1_0000_0000_0000_0000_0000_0000_0000) by {
        rounding::lemma_scaled_at(24, timing::SMALL as nat, pow2(23), 106);
        lemma_pow2_adds(23, 106);
        lemma_pow2_adds(56, 56);
        lemma2_to64_rest();
        lemma_pow2_strictly_increases(112, 129);
        single::lemma_less_is_by_value(freq, Single { bits: timing::SMALL });
    }
    // the product
    let fu: int = f * u;
    assert(0x20_0000 * (t * f) == 0xc9_0fdb * fu && t * f > 0 && fu > 0) by (nonlinear_arith)
        requires
            fu == f * u,
            t == 0xc9_0fdb * k,
            u == 0x20_0000 * k,
            k > 0,
            f > 0,
    ;
    assert(fu >= 0x1_0000_0000_0000_0000_0000_0000_0000 * u) by (nonlinear_arith)
        requires
            fu == f * u,
            f >= 0x1_0000_0000_0000_0000_0000_0000_0000,
            u > 0,
    ;
    let pu: int = p.units() * u;
    assert(0x100_0000 * gap(pu - t * f) <= t * f);
    assert(p.units() >= 0x1_0000_0000_0000_0000_0000_0000) by (nonlinear_arith)
        requires
            pu == p.units() * u,
            pu >= 0x1_0000_0000_0000_0000_0000_0000 * u,
            u > 0,
    ;
    // the quotient
    let r: Single = Single::of_int(rate as int);
    closeness::lemma_of_int(rate as int);
    closeness::lemma_quotient(p, r);
    assert(gap(rate as int) * u == rate * u);
    assert(r.units() * 1 == r.units());
    assert(r.units() <= 0x2_0000_0000 * u) by (nonlinear_arith)
        requires
            0x100_0000 * gap(r.units() - rate * u) <= rate * u,
            gap(r.units() - rate * u) >= r.units() - rate * u,
            rate <= 0xffff_ffff,
            u > 0,
    ;
    assert(pu >= 0x80_0000 * r.units());
    assert(gap(p.units()) * u == pu);
}

/// What the raw terms of a resonance make of its coefficients.
#[verifier::rlimit(60)]
#[verifier::spinoff_prover]
proof fn lemma_turn(a1: int, a2: int, a1r: int, r: int, d: int, a: int, c: int)
    requires
        d != 0,
        over(a1, a1r, d),
        over(a2, r, d),
        0x100_0000 * gap(d - (whole() + a)) <= gap(whole() + a),
        0x100_0000 * gap(r - (whole() - a)) <= gap(whole() - a),
        0x100_0000 * gap(a1r + 2 * c) <= 2 * gap(c) + 0x80_0000,
    ensures
        vanishes(
            a1 * whole() + c * (whole() + a2),
            gap(a1) * whole() + (gap(c) + 0x100_0000) * (whole() + gap(a2)),
        ),
{
    let u: int = whole();
    closeness::lemma_whole();
    lemma_over(a1, a1r, d);
    lemma_over(a2, r, d);
    lemma_feedback(a2, a, d, r);
    lemma_small(gap(d), u);
    lemma_balance(a2, a, d, r);
    let t: int = a1 * d + 2 * c * u;
    let s: int = u * d + a2 * d - 2 * (u * u);
    let z: int = a1 * u + c * (u + a2);
    assert(z * d == u * t + c * s) by (nonlinear_arith)
        requires
            t == a1 * d + 2 * c * u,
            s == u * d + a2 * d - 2 * (u * u),
            z == a1 * u + c * (u + a2),
    ;
    let f: int = gap(d) * u + gap(a2) * gap(d);
    let e: int = a1r + 2 * c;
    assert(t == (a1 * d - a1r * u) + e * u) by (nonlinear_arith)
        requires
            t == a1 * d + 2 * c * u,
            e == a1r + 2 * c,
    ;
    closeness::lemma_gap_product(e, u);
    assert(0x100_0000 * (gap(e) * u) <= 2 * (gap(c) * u) + 0x80_0000 * u) by (nonlinear_arith)
        requires
            0x100_0000 * gap(e) <= 2 * gap(c) + 0x80_0000,
            u > 0,
    ;
    assert(0x100_0000 * gap(t) <= 2 * (gap(a1) * gap(d)) + 0x180_0000 * gap(d) + 2 * (gap(c) * u) + 0x80_0000 * u);
    closeness::lemma_gap_product(u, t);
    closeness::lemma_gap_product(c, s);
    let x: int = gap(a1) * gap(d);
    let cf: int = gap(c) * f;
    assert(0x100_0000 * (u * gap(t)) <= 2 * (u * x) + 0x180_0000 * (gap(d) * u) + gap(c) * (2 * (u * u)) + 0x80_0000
        * (u * u)) by (nonlinear_arith)
        requires
            0x100_0000 * gap(t) <= 2 * x + 0x180_0000 * gap(d) + 2 * (gap(c) * u) + 0x80_0000 * u,
            u > 0,
    ;
    assert(gap(c) * (2 * (u * u)) <= gap(c) * (2 * f)) by (nonlinear_arith)
        requires
            2 * (u * u) <= 2 * f,
            gap(c) >= 0,
    ;
    assert(gap(c) * (2 * f) == 2 * cf) by (nonlinear_arith)
        requires
            cf == gap(c) * f,
    ;
    assert(0x100_0000 * (gap(c) * gap(s)) <= 8 * cf) by (nonlinear_arith)
        requires
            0x100_0000 * gap(s) <= 8 * f,
            gap(c) >= 0,
            cf == gap(c) * f,
    ;
    let sizes: int = 32 * (gap(a1) * u + (gap(c) + 0x100_0000) * (u + gap(a2)));
    assert(sizes * gap(d) == 32 * (u * x) + 32 * cf + 0x2000_0000 * f) by (nonlinear_arith)
        requires
            sizes == 32 * (gap(a1) * u + (gap(c) + 0x100_0000) * (u + gap(a2))),
            x == gap(a1) * gap(d),
            cf == gap(c) * f,
            f == gap(d) * u + gap(a2) * gap(d),
    ;
    assert(u * x >= 0 && cf >= 0 && gap(a2) * gap(d) >= 0) by (nonlinear_arith)
        requires
            x == gap(a1) * gap(d),
            cf == gap(c) * f,
            gap(a1) >= 0,
            gap(a2) >= 0,
            gap(d) >= 0,
            gap(c) >= 0,
            f == gap(d) * u + gap(a2) * gap(d),
            u > 0,
    ;
    lemma_cancel(z, d, sizes);
}

/// `1 + a2` is twice the inverse of the raw `a0`, and `1 - a2` that of the
/// width.
#[verifier::rlimit(60)]
#[verifier::spinoff_prover]
proof fn lemma_balance(a2: int, a: int, d: int, r: int)
    requires
        over(a2, r, d),
        0x100_0000 * gap(d - (whole() + a)) <= gap(whole() + a),
        0x100_0000 * gap(r - (whole() - a)) <= gap(whole() - a),
    ensures
        0x100_0000 * gap(whole() * d + a2 * d - 2 * (whole() * whole())) <= 8 * (gap(d) * whole() + gap(a2) * gap(d)),
        0x100_0000 * gap(whole() * d - a2 * d - 2 * (whole() * a)) <= 8 * (gap(d) * whole() + gap(a2) * gap(d)),
        whole() * whole() <= gap(d) * whole() + gap(a2) * gap(d),
{
    let u: int = whole();
    closeness::lemma_whole();
    lemma_over(a2, r, d);
    lemma_small(gap(d), u);
    lemma_near(d, u + a, 0);
    lemma_near(r, u - a, 0);
    let e: int = d + r - 2 * u;
    let g: int = d - r - 2 * a;
    assert(0x100_0000 * gap(e) <= 2 * gap(d) + 2 * gap(r) && 0x100_0000 * gap(g) <= 2 * gap(d) + 2 * gap(r));
    let p: int = a2 * d - r * u;
    assert(u * d + a2 * d - 2 * (u * u) == e * u + p && u * d - a2 * d - 2 * (u * a) == g * u - p) by (nonlinear_arith)
        requires
            e == d + r - 2 * u,
            g == d - r - 2 * a,
            p == a2 * d - r * u,
    ;
    closeness::lemma_gap_product(e, u);
    closeness::lemma_gap_product(g, u);
    assert(0x100_0000 * (gap(e) * u) <= 2 * (gap(d) * u) + 2 * (gap(r) * u) && 0x100_0000 * (gap(g) * u) <= 2 * (gap(
        d,
    ) * u) + 2 * (gap(r) * u)) by (nonlinear_arith)
        requires
            0x100_0000 * gap(e) <= 2 * gap(d) + 2 * gap(r),
            0x100_0000 * gap(g) <= 2 * gap(d) + 2 * gap(r),
            u > 0,
    ;
    lemma_balance_sizes(
        gap(e * u + p),
        gap(g * u - p),
        gap(e) * u,
        gap(g) * u,
        gap(p),
        gap(r) * u,
        gap(d) * u,
        gap(a2) * gap(d),
        gap(d),
    );
    assert(4 * gap(d) + 4 * gap(r) >= 7 * u);
    assert(4 * (gap(d) * u) + 4 * (gap(r) * u) >= 7 * (u * u)) by (nonlinear_arith)
        requires
            4 * gap(d) + 4 * gap(r) >= 7 * u,
            u > 0,
    ;
    assert(gap(a2) * gap(d) >= 0) by (nonlinear_arith)
        requires
            gap(a2) >= 0,
            gap(d) >= 0,
    ;
}

proof fn lemma_balance_sizes(x: int, y: int, e: int, g: int, p: int, ru: int, du: int, ad: int, d: int)
    requires
        x <= e + p,
        y <= g + p,
        0x100_0000 * e <= 2 * du + 2 * ru,
        0x100_0000 * g <= 2 * du + 2 * ru,
        0x100_0000 * p <= ru + 0x80_0000 * d,
        0xff_ffff * ru <= 0x100_0000 * ad + 0x80_0000 * d,
        0x1_0000_0000_0000_0000_0000_0000_0000 * d <= du,
        d >= 0,
        ad >= 0,
    ensures
        0x100_0000 * x <= 8 * (du + ad),
        0x100_0000 * y <= 8 * (du + ad),
{
}

proof fn lemma_least(a: int, b: int, c: int)
    requires
        a <= b,
        c >= 0,
    ensures
        a * c <= b * c,
{
    assert(a * c <= b * c) by (nonlinear_arith)
        requires
            a <= b,
            c >= 0,
    ;
}

proof fn lemma_spread(u: int, a: int, q: int, s: int, d: int)
    ensures
        ((u - a) * q - (u + a) * s) * d == (u * d - a * d) * q - (u * d + a * d) * s,
{
    assert(((u - a) * q) * d == (u * d - a * d) * q) by (nonlinear_arith);
    assert(((u + a) * s) * d == (u * d + a * d) * s) by (nonlinear_arith);
    let x: int = (u - a) * q;
    let y: int = (u + a) * s;
    assert((x - y) * d == x * d - y * d) by (nonlinear_arith);
}

proof fn lemma_split(v: int, p: int, w: int, k: int)
    ensures
        v * (w + k) == (v - p) * w + p * w + v * k,
{
    assert(v * (w + k) == (v - p) * w + p * w + v * k) by (nonlinear_arith);
}

proof fn lemma_scale(u: int, a: int, w: int, s: int)
    ensures
        (2 * u) * (a * w - s * u) == (2 * (u * a)) * w - (2 * (u * u)) * s,
{
    assert((2 * u) * (a * w) == (2 * (u * a)) * w) by (nonlinear_arith);
    assert((2 * u) * (s * u) == (2 * (u * u)) * s) by (nonlinear_arith);
    let x: int = a * w;
    let y: int = s * u;
    assert((2 * u) * (x - y) == (2 * u) * x - (2 * u) * y) by (nonlinear_arith);
}

/// What the width of a resonance makes of its coefficients.
#[verifier::rlimit(60)]
#[verifier::spinoff_prover]
proof fn lemma_width(a2: int, r: int, d: int, a: int, s: int, w: int, q: int)
    requires
        d != 0,
        over(a2, r, d),
        0x100_0000 * gap(d - (whole() + a)) <= gap(whole() + a),
        0x100_0000 * gap(r - (whole() - a)) <= gap(whole() - a),
        0x100_0000 * gap(a * w - s * whole()) <= gap(s) * whole() + 0x80_0000 * w,
        0x100_0000 * gap(w - 2 * q) <= 2 * q + 0x80_0000,
        w > 0,
        q > 0,
    ensures
        vanishes(
            (whole() - a2) * (2 * q) - (whole() + a2) * s,
            (whole() + gap(a2)) * (2 * q + gap(s) + 0x100_0000),
        ),
{
    let u: int = whole();
    closeness::lemma_whole();
    lemma_feedback(a2, a, d, r);
    lemma_balance(a2, a, d, r);
    let f: int = gap(d) * u + gap(a2) * gap(d);
    let x: int = u * d - a2 * d - 2 * (u * a);
    let y: int = u * d + a2 * d - 2 * (u * u);
    let h: int = a * w - s * u;
    let k: int = 2 * q - w;
    let v: int = u * d - a2 * d;
    let z: int = (u - a2) * (2 * q) - (u + a2) * s;
    let o: int = u * d + a2 * d;
    lemma_spread(u, a2, 2 * q, s, d);
    lemma_split(v, 2 * (u * a), w, k);
    lemma_split(o, 2 * (u * u), s, 0);
    lemma_scale(u, a, w, s);
    assert(z * d == x * w - y * s + (2 * u) * h + v * k);
    closeness::lemma_gap_product(x, w);
    closeness::lemma_gap_product(y, s);
    closeness::lemma_gap_product(2 * u, h);
    closeness::lemma_gap_product(v, k);
    closeness::lemma_gap_product(a2, d);
    closeness::lemma_gap_product(u, d);
    assert(u * gap(d) == gap(d) * u) by (nonlinear_arith);
    assert(gap(v) <= f);
    let fw: int = f * w;
    let fs: int = f * gap(s);
    let fq: int = f * q;
    lemma_least(0x100_0000 * gap(x), 8 * f, w);
    lemma_least(0x100_0000 * gap(y), 8 * f, gap(s));
    lemma_least(0x100_0000 * gap(h), gap(s) * u + 0x80_0000 * w, 2 * u);
    lemma_least(u * u, f, gap(s));
    lemma_least(0x100_0000 * u, f, w);
    lemma_least(gap(v), f, gap(k));
    lemma_least(0x100_0000 * gap(k), 2 * q + 0x80_0000, f);
    lemma_least(w, 3 * q + 1, f);
    lemma_least(0, q, f);
    lemma_least(0, gap(s), f);
    assert((0x100_0000 * gap(x)) * w == 0x100_0000 * (gap(x) * w) && (8 * f) * w == 8 * (f * w)) by (nonlinear_arith);
    assert((0x100_0000 * gap(y)) * gap(s) == 0x100_0000 * (gap(y) * gap(s)) && (8 * f) * gap(s) == 8 * (f * gap(s)))
        by (nonlinear_arith);
    assert((0x100_0000 * gap(h)) * (2 * u) == 0x100_0000 * ((2 * u) * gap(h))) by (nonlinear_arith);
    assert((gap(s) * u + 0x80_0000 * w) * (2 * u) == 2 * ((u * u) * gap(s)) + 0x100_0000 * (u * w)) by (nonlinear_arith);
    assert((0x100_0000 * u) * w == 0x100_0000 * (u * w)) by (nonlinear_arith);
    assert((0x100_0000 * gap(k)) * f == 0x100_0000 * (f * gap(k))) by (nonlinear_arith);
    assert((2 * q + 0x80_0000) * f == 2 * (f * q) + 0x80_0000 * f) by (nonlinear_arith);
    assert((3 * q + 1) * f == 3 * (f * q) + f && w * f == f * w && q * f == f * q && gap(s) * f == f * gap(s) && 0 * f == 0)
        by (nonlinear_arith);
    let n: int = 2 * q + gap(s) + 0x100_0000;
    let sizes: int = 32 * ((u + gap(a2)) * n);
    assert(sizes * gap(d) == 32 * (((u + gap(a2)) * gap(d)) * n)) by (nonlinear_arith)
        requires
            sizes == 32 * ((u + gap(a2)) * n),
    ;
    assert((u + gap(a2)) * gap(d) == f) by (nonlinear_arith)
        requires
            f == gap(d) * u + gap(a2) * gap(d),
    ;
    assert(f * n == 2 * (f * q) + f * gap(s) + 0x100_0000 * f) by (nonlinear_arith)
        requires
            n == 2 * q + gap(s) + 0x100_0000,
    ;
    lemma_cancel(z, d, sizes);
}

/// The feedback that all the filters have.
proof fn lemma_resonance(f: Biquad, m: spec_fn(Curve) -> Single, sr: Single, freq: Single, q: Single)
    requires
        usable(q),
        ({
            let one = Single { bits: single::ONE };
            let c = m(Curve::Cos(dsp::angle(sr, freq)));
            let a = dsp::alpha(m, sr, freq, q);
            &&& one.sum(a).finite()
            &&& f.a1 == Single::of_int(-2).product(c).quotient(one.sum(a))
            &&& f.a2 == one.difference(a).quotient(one.sum(a))
            &&& f.a1.finite() && f.a2.finite()
        }),
    ensures
        is_resonance(f, m(Curve::Cos(dsp::angle(sr, freq))), m(Curve::Sin(dsp::angle(sr, freq))), q),
{
    let one: Single = Single { bits: single::ONE };
    let c: Single = m(Curve::Cos(dsp::angle(sr, freq)));
    let s: Single = m(Curve::Sin(dsp::angle(sr, freq)));
    let a: Single = dsp::alpha(m, sr, freq, q);
    let a0: Single = one.sum(a);
    let a1: Single = Single::of_int(-2).product(c);
    let rest: Single = one.difference(a);
    closeness::lemma_whole();
    timing::lemma_ordinary(q);
    lemma_parts(a1, a0);
    lemma_parts(rest, a0);
    lemma_summands(one, a);
    lemma_factors(Single::of_int(-2), c);
    closeness::lemma_sum(one, a);
    assert(a.negated().units() == -a.units());
    closeness::lemma_sum(one, a.negated());
    lemma_twice(c);
    lemma_quotient(a1, a0);
    lemma_quotient(rest, a0);
    lemma_turn(f.a1.units(), f.a2.units(), a1.units(), rest.units(), a0.units(), a.units(), c.units());
    // the width
    let two: Single = Single::of_int(2);
    assert(q.larger(Single::of_ratio(1, 10000)) == q);
    let w: Single = two.product(q);
    closeness::lemma_of_int(2);
    assert(order::within_power(two, 1)) by {
        lemma_pow2_adds(149, 1);
        lemma2_to64();
    }
    assert(order::within_power(q, 20));
    order::lemma_product_within_power(two, q, 1, 20);
    closeness::lemma_product(two, q);
    lemma_parts(s, w);
    lemma_quotient(s, w);
    let u: int = whole();
    let e: int = w.units() - 2 * q.units();
    assert(w.units() * u - (2 * u) * q.units() == e * u && (2 * u) * q.units() == (2 * q.units()) * u) by (nonlinear_arith)
        requires
            e == w.units() - 2 * q.units(),
    ;
    closeness::lemma_gap_product(e, u);
    closeness::lemma_gap_product(2 * q.units(), u);
    assert(0x100_0000 * gap(e) <= 2 * q.units() + 0x80_0000) by (nonlinear_arith)
        requires
            0x100_0000 * (gap(e) * u) <= (2 * q.units()) * u + 0x80_0000 * u,
            u > 0,
    ;
    assert(!w.negative()) by {
        reveal(Single::product);
        order::lemma_of_int_finite(2);
    }
    lemma_width(f.a2.units(), rest.units(), a0.units(), a.units(), s.units(), w.units(), q.units());
}

/// The bandpass resonates at its centre.
pub proof fn law_bandpass_resonates(m: spec_fn(Curve) -> Single, rate: u32, center: Single, q: Single)
    requires
        rate > 0,
        timing::ordinary(center),
        usable(q),
        sound(dsp::bandpass_of(m, Single::of_int(rate as int), center, q)),
    ensures
        resonates(dsp::bandpass_of(m, Single::of_int(rate as int), center, q), m, rate as int, center, q),
{
    let sr: Single = Single::of_int(rate as int);
    let f: Biquad = dsp::bandpass_of(m, sr, center, q);
    let w: Single = dsp::angle(sr, center);
    let c: Single = m(Curve::Cos(w));
    let a: Single = dsp::alpha(m, sr, center, q);
    let one: Single = Single { bits: single::ONE };
    lemma_parts(a, one.sum(a));
    lemma_parts(Single::of_int(-2).product(c), one.sum(a));
    lemma_parts(one.difference(a), one.sum(a));
    lemma_angle(rate, center);
    lemma_resonance(f, m, sr, center, q);
}

/// The low-pass resonates at its cutoff.
pub proof fn law_lowpass_resonates(m: spec_fn(Curve) -> Single, rate: u32, cutoff: Single, q: Single)
    requires
        rate > 0,
        timing::ordinary(cutoff),
        usable(q),
        sound(dsp::lowpass_of(m, Single::of_int(rate as int), cutoff, q)),
    ensures
        resonates(dsp::lowpass_of(m, Single::of_int(rate as int), cutoff, q), m, rate as int, cutoff, q),
{
    let sr: Single = Single::of_int(rate as int);
    let f: Biquad = dsp::lowpass_of(m, sr, cutoff, q);
    let w: Single = dsp::angle(sr, cutoff);
    let c: Single = m(Curve::Cos(w));
    let a: Single = dsp::alpha(m, sr, cutoff, q);
    let one: Single = Single { bits: single::ONE };
    lemma_parts(one.difference(c).quotient(Single::of_int(2)), one.sum(a));
    lemma_parts(Single::of_int(-2).product(c), one.sum(a));
    lemma_parts(one.difference(a), one.sum(a));
    lemma_angle(rate, cutoff);
    lemma_resonance(f, m, sr, cutoff, q);
}

/// The high-pass resonates at its cutoff.
pub proof fn law_highpass_resonates(m: spec_fn(Curve) -> Single, rate: u32, cutoff: Single, q: Single)
    requires
        rate > 0,
        timing::ordinary(cutoff),
        usable(q),
        sound(dsp::highpass_of(m, Single::of_int(rate as int), cutoff, q)),
    ensures
        resonates(dsp::highpass_of(m, Single::of_int(rate as int), cutoff, q), m, rate as int, cutoff, q),
{
    let sr: Single = Single::of_int(rate as int);
    let f: Biquad = dsp::highpass_of(m, sr, cutoff, q);
    let w: Single = dsp::angle(sr, cutoff);
    let c: Single = m(Curve::Cos(w));
    let a: Single = dsp::alpha(m, sr, cutoff, q);
    let one: Single = Single { bits: single::ONE };
    lemma_parts(one.sum(c).quotient(Single::of_int(2)), one.sum(a));
    lemma_parts(Single::of_int(-2).product(c), one.sum(a));
    lemma_parts(one.difference(a), one.sum(a));
    lemma_angle(rate, cutoff);
    lemma_resonance(f, m, sr, cutoff, q);
}

/// What was heard `k` samples before, or nothing.
pub open spec fn back(s: Seq<Single>, i: int, k: int) -> Single {
    if i - k >= 0 {
        s[i - k]
    } else {
        Single { bits: 0 }
    }
}

/// A filter that has heard nothing answers each value by the two values and the
/// two answers before it.
pub proof fn law_filter_feeds_back(f: Biquad, s: Seq<Single>, i: int)
    requires
        0 <= i < s.len(),
        is_silent(f),
    ensures
        f.filtered(s).len() == s.len(),
        ({
            let y = f.filtered(s);
            y[i] == f.b0.product(s[i]).sum(f.b1.product(back(s, i, 1))).sum(f.b2.product(back(s, i, 2))).difference(
                f.a1.product(back(y, i, 1)),
            ).difference(f.a2.product(back(y, i, 2)))
        }),
{
    lemma_heard(f, s, i);
}

proof fn lemma_heard(f: Biquad, s: Seq<Single>, i: int)
    requires
        0 <= i <= s.len(),
        is_silent(f),
    ensures
        ({
            let y = f.filtered(s);
            let g = f.after(s, i);
            &&& g.b0 == f.b0 && g.b1 == f.b1 && g.b2 == f.b2 && g.a1 == f.a1 && g.a2 == f.a2
            &&& g.x1 == back(s, i, 1) && g.x2 == back(s, i, 2)
            &&& g.y1 == back(y, i, 1) && g.y2 == back(y, i, 2)
        }),
    decreases i,
{
    if i > 0 {
        lemma_heard(f, s, i - 1);
        assert(f.filtered(s)[i - 1] == f.after(s, i - 1).answer(s[i - 1]));
    }
}

/// Whether a filter has heard nothing.
pub open spec fn is_silent(f: Biquad) -> bool {
    f.x1.bits == 0 && f.x2.bits == 0 && f.y1.bits == 0 && f.y2.bits == 0
}

/// The filters have heard nothing before the first value.
pub proof fn law_filters_start_silent(m: spec_fn(Curve) -> Single, rate: Single, freq: Single, q: Single)
    ensures
        is_silent(dsp::lowpass_of(m, rate, freq, q)),
        is_silent(dsp::highpass_of(m, rate, freq, q)),
        is_silent(dsp::bandpass_of(m, rate, freq, q)),
{
}

} // verus!
