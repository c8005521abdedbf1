//! What the voices give out: samples that come round or turn back, sums of
//! sines, modulated sines and noise.

use vstd::prelude::*;
use vstd::arithmetic::div_mod::*;
use vstd::arithmetic::power2::*;

use crate::accuracy;
use crate::closeness;
use crate::closeness::{gap, whole};
use crate::curve::Curve;
use crate::double;
use crate::double::Double;
use crate::dsp;
use crate::faithful;
use crate::fx;
use crate::gapless;
use crate::order;
use crate::piece::{EventModel, SampleLoopMode, VoiceModel};
use crate::response;
use crate::rounding;
use crate::single;
use crate::single::Single;
use crate::timing;
use crate::voice;

verus! {

/// A whole number, in double precision.
proof fn lemma_whole_double(n: int)
    requires
        0 <= n < 0x20_0000_0000_0000,
    ensures
        double::rounded(false, (n * accuracy::unit()) as nat, 1).finite(),
        !double::rounded(false, (n * accuracy::unit()) as nat, 1).negative(),
        double::rounded(false, (n * accuracy::unit()) as nat, 1).size() == n * accuracy::unit(),
        accuracy::unit() > 0,
{
    lemma2_to64();
    lemma2_to64_rest();
    lemma_pow2_pos(double::UNIT as nat);
    let u: int = accuracy::unit() as int;
    assert(n * u >= 0) by (nonlinear_arith)
        requires
            n >= 0,
            u > 0,
    ;
    timing::lemma_small(n);
    if n > 0 {
        rounding::lemma_pack_exact(53, n as nat, double::UNIT as nat);
    } else {
        assert(0 * u == 0);
        assert(rounding::scaled(53, 0) == 0);
        assert(rounding::nearest_even(0, 1) == 0);
        assert(rounding::pack(53, 0, 1) == 0);
    }
}

/// A whole position is between no two values.
proof fn lemma_at_whole(p: Double, j: int, a: Single, b: Single)
    requires
        p.finite(),
        !p.negative(),
        0 <= j < 0x20_0000_0000_0000,
        p.size() == j * accuracy::unit(),
        a.finite(),
        b.finite(),
    ensures
        p.floor() == j,
        faithful::same(voice::between(a, b, voice::part(p)), a),
{
    let u = accuracy::unit() as int;
    lemma2_to64();
    lemma2_to64_rest();
    lemma_pow2_pos(double::UNIT as nat);
    lemma_pow2_pos(single::UNIT as nat);
    lemma_pow2_pos((double::UNIT - single::UNIT) as nat);
    lemma_fundamental_div_mod_converse(j * u, u, j, 0);
    let part = voice::part(p);
    assert(part.bits == 0) by {
        reveal(Double::fraction);
        reveal(Double::as_single);
        assert(rounding::nearest_even(0, 1) == 0);
        assert(rounding::pack(53, 0, 1) == 0);
        let c = accuracy::coarse();
        assert(rounding::scaled(53, 0) == 0);
        lemma_small_mod(0, c);
        lemma_basic_div(0, c as int);
        assert(rounding::nearest_even(0, c) == 0);
        assert(pow2(24) * c > 0) by (nonlinear_arith)
            requires
                pow2(24) > 0,
                c > 0,
        ;
        assert(rounding::pack(24, 0, c) == 0);
    }
    let one = Single { bits: single::ONE };
    single::lemma_adding_zero(one, part.negated());
    assert(one.difference(part) == one);
    single::lemma_times_one(a);
    single::lemma_zero_times(part, b);
    single::lemma_commutes(part, b);
    let z = b.product(part);
    if a.bits != single::SIGN {
        single::lemma_adding_zero(a, z);
    } else {
        reveal(Single::sum);
        assert(rounding::scaled(24, 0) == 0);
    }
}

/// What is left of whole numbers.
proof fn lemma_remainder(a: Double, b: Double, k: int, n: int)
    requires
        a.finite() && !a.negative() && a.size() == k * accuracy::unit(),
        b.finite() && !b.negative() && b.size() == n * accuracy::unit(),
        0 <= k < 0x20_0000_0000_0000,
        0 < n < 0x20_0000_0000_0000,
    ensures
        a.remainder(b).finite(),
        !a.remainder(b).negative(),
        a.remainder(b).size() == (k % n) * accuracy::unit(),
{
    reveal(Double::remainder);
    lemma_pow2_pos(double::UNIT as nat);
    let u: int = accuracy::unit() as int;
    lemma_fundamental_div_mod(k, n);
    lemma_mod_bound(k, n);
    assert(k * u == (n * u) * (k / n) + (k % n) * u && 0 <= (k % n) * u < n * u) by (nonlinear_arith)
        requires
            k == n * (k / n) + k % n,
            0 <= k % n < n,
            u > 0,
    ;
    lemma_fundamental_div_mod_converse(k * u, n * u, k / n, (k % n) * u);
    lemma_whole_double(k % n);
}

/// A looped sample comes round: at its own rate the `k`th value is that of the
/// sample, counted round its end.
pub proof fn law_looped_sample_comes_round(e: EventModel, src: Seq<Single>, k: int, n: nat)
    requires
        e.pitch_ratio is None || e.pitch_ratio == Some(Single { bits: single::ONE }),
        2 <= src.len() < gapless::WHOLE_LIMIT,
        0 <= k < n < gapless::WHOLE_LIMIT,
        forall|i: int| 0 <= i < src.len() ==> (#[trigger] src[i]).finite(),
    ensures
        faithful::same(voice::sampled(e, src, SampleLoopMode::Loop, n)[k], src[k % src.len() as int]),
{
    faithful::lemma_stride(e);
    faithful::lemma_position(e, k);
    lemma2_to64();
    lemma2_to64_rest();
    let len: int = src.len() as int;
    accuracy::lemma_of_int(len, 53);
    let pos: Double = voice::position(e, k);
    lemma_remainder(pos, Double::of_int(len), k, len);
    let p: Double = pos.remainder(Double::of_int(len));
    let j: int = k % len;
    lemma_mod_bound(k, len);
    lemma_mod_bound(j + 1, len);
    lemma_small_mod(j as nat, len as nat);
    lemma_at_whole(p, j, src[j], src[(j + 1) % len]);
}

/// Where a way that turns back at its ends is after `k` steps.
pub open spec fn bounced(k: int, last: int) -> int {
    let r = k % (2 * last);
    if r <= last {
        r
    } else {
        2 * last - r
    }
}

/// A sample that turns back at its ends goes forth and back, at its own rate
/// value by value.
pub proof fn law_bounced_sample_turns_back(e: EventModel, src: Seq<Single>, k: int, n: nat)
    requires
        e.pitch_ratio is None || e.pitch_ratio == Some(Single { bits: single::ONE }),
        2 <= src.len() < 0x8_0000_0000_0000,
        0 <= k < n < gapless::WHOLE_LIMIT,
        forall|i: int| 0 <= i < src.len() ==> (#[trigger] src[i]).finite(),
    ensures
        faithful::same(
            voice::sampled(e, src, SampleLoopMode::PingPong, n)[k],
            src[bounced(k, src.len() - 1)],
        ),
{
    faithful::lemma_stride(e);
    faithful::lemma_position(e, k);
    lemma2_to64();
    lemma2_to64_rest();
    lemma_pow2_pos(double::UNIT as nat);
    let u: int = accuracy::unit() as int;
    let last: int = src.len() - 1;
    accuracy::lemma_of_int(last, 53);
    accuracy::lemma_of_int(2, 53);
    let two: Double = Double::of_int(2);
    let end: Double = Double::of_int(last);
    timing::lemma_double_product(two, end, 2, last);
    let period: Double = voice::round_trip(src.len());
    assert(period == two.product(end));
    let pos: Double = voice::position(e, k);
    lemma_remainder(pos, period, k, 2 * last);
    let q: Double = pos.remainder(period);
    let r: int = k % (2 * last);
    lemma_mod_bound(k, 2 * last);
    double::lemma_less_is_by_value(end, q);
    assert(last * u < r * u <==> last < r) by (nonlinear_arith)
        requires
            u > 0,
    ;
    let p: Double = if q.at_most(end) { q } else { period.difference(q) };
    assert(q.at_most(end) <==> r <= last);
    if r > last {
        assert((2 * last) * u - r * u == (2 * last - r) * u) by (nonlinear_arith);
        lemma_whole_double(2 * last - r);
        assert(period.difference(q) == double::rounded(false, ((2 * last - r) * u) as nat, 1)) by {
            reveal(Double::sum);
            assert(q.negated().units() == -q.units());
            assert((2 * last - r) * u > 0) by (nonlinear_arith)
                requires
                    2 * last - r > 0,
                    u > 0,
            ;
        }
    }
    let j: int = bounced(k, last);
    let next: int = if j + 1 <= last { j + 1 } else { last };
    assert(p.finite() && !p.negative() && p.size() == j * u);
    lemma_at_whole(p, j, src[j], src[next]);
    assert(period.finite() && !period.zero()) by {
        assert((2 * last) * u > 0) by (nonlinear_arith)
            requires
                last > 0,
                u > 0,
        ;
        assert(rounding::scaled(53, 0) == 0);
    }
}

/// A sample moves on by the ratio of its event with every step, by one where
/// there is none; and never by less than a thousandth.
pub proof fn law_sample_moves_by_its_ratio(e: EventModel, i: int)
    requires
        i >= 0,
    ensures
        voice::position(e, 0).bits == 0,
        exists|r: Single|
            voice::position(e, i + 1) == voice::position(e, i).sum(#[trigger] Double::of_single(r)) && match e.pitch_ratio {
                None => r == (Single { bits: single::ONE }),
                Some(ratio) => if Single::of_ratio(1, 1000).at_most(ratio) {
                    r == ratio
                } else {
                    closeness::about(r, 1, 1000, 4)
                },
            },
{
    let r: Single = voice::stride(e);
    assert(voice::position(e, i + 1) == voice::position(e, i).sum(Double::of_single(r)));
    closeness::lemma_share(1, 1000);
    reveal(Single::of_ratio);
    if e.pitch_ratio is None {
        faithful::lemma_stride(e);
    }
}

/// The sum of the sines of the first `k` partials with their weights, in order.
pub open spec fn weighed(
    m: spec_fn(Curve) -> Single,
    e: EventModel,
    rate: u32,
    partials: Seq<Single>,
    weights: Seq<Single>,
    i: int,
    k: int,
) -> Single
    decreases k,
{
    if k <= 0 {
        Single { bits: 0 }
    } else {
        weighed(m, e, rate, partials, weights, i, k - 1).sum(
            weights[k - 1].product(m(Curve::Sin(voice::phase(m, e, rate, Some(partials[k - 1]), i)))),
        )
    }
}

/// The sum of the sizes of the first `n` values, in units.
pub open spec fn sizes(s: Seq<Single>, n: int) -> int
    decreases n,
{
    if n <= 0 {
        0
    } else {
        sizes(s, n - 1) + gap(s[n - 1].units())
    }
}

/// Whether a weight is an amplitude as a part of all of them.
pub open spec fn is_weight(w: Single, amplitudes: Seq<Single>, k: int) -> bool {
    let all = sizes(amplitudes, amplitudes.len() as int);
    w.finite() && 0x1_0000 * gap(w.units() * all - amplitudes[k].units() * whole()) <= gap(amplitudes[k].units())
        * whole() + 0x80_0000 * all
}

proof fn lemma_sizes(s: Seq<Single>, n: int)
    requires
        0 <= n <= s.len(),
        n <= 32,
        forall|j: int| 0 <= j < s.len() ==> (#[trigger] s[j]).finite(),
        voice::size_sum(s, n).finite(),
    ensures
        sizes(s, n) >= 0,
        0x100_0000 * gap(voice::size_sum(s, n).units() - sizes(s, n)) <= 2 * n * sizes(s, n),
    decreases n,
{
    closeness::lemma_whole();
    if n > 0 {
        let before: Single = voice::size_sum(s, n - 1);
        let x: Single = fx::size_of(s[n - 1]);
        assert(s[n - 1].finite());
        assert(x.finite() && x.units() == gap(s[n - 1].units()));
        response::lemma_summands(before, x);
        lemma_sizes(s, n - 1);
        closeness::lemma_sum(before, x);
        let t: int = sizes(s, n - 1);
        let v: int = x.units();
        let k: int = n - 1;
        assert(2 * k * t <= 64 * t && 2 * (k + 1) * (t + v) >= 2 * k * t + 2 * t + 2 * v && 2 * k * t >= 0)
            by (nonlinear_arith)
            requires
                0 <= k < 32,
                t >= 0,
                v >= 0,
        ;
    } else {
        assert(2 * 0 * 0 == 0);
    }
}

proof fn lemma_weight_sizes(e: int, f: int, h: int, x: int, y: int, s: int, all: int)
    requires
        e <= f + h,
        0x100_0000 * f <= y + 0x80_0000 * s,
        0x100_0000 * h <= 65 * x,
        x <= y + f,
        0 <= s <= 2 * all,
        0 <= y,
    ensures
        0x1_0000 * e <= y + 0x80_0000 * all,
{
}

proof fn lemma_weight(amplitudes: Seq<Single>, k: int)
    requires
        0 <= k < amplitudes.len() <= 32,
        forall|j: int| 0 <= j < amplitudes.len() ==> (#[trigger] amplitudes[j]).finite(),
        voice::norm(amplitudes) == voice::size_sum(amplitudes, amplitudes.len() as int),
        voice::norm(amplitudes).finite(),
        voice::norm(amplitudes).units() > 0,
        amplitudes[k].quotient(voice::norm(amplitudes)).finite(),
    ensures
        is_weight(amplitudes[k].quotient(voice::norm(amplitudes)), amplitudes, k),
{
    closeness::lemma_whole();
    let n: int = amplitudes.len() as int;
    lemma_sizes(amplitudes, n);
    let a: Single = amplitudes[k];
    let s: Single = voice::norm(amplitudes);
    closeness::lemma_quotient(a, s);
    let w: Single = a.quotient(s);
    let all: int = sizes(amplitudes, n);
    let u: int = whole();
    let x: int = w.units() * s.units();
    let y: int = a.units() * u;
    let d: int = s.units() - all;
    assert(2 * n * all <= 64 * all && 2 * n * all >= 0) by (nonlinear_arith)
        requires
            0 <= n <= 32,
            all >= 0,
    ;
    closeness::lemma_gap_product(w.units(), s.units());
    closeness::lemma_gap_product(w.units(), d);
    closeness::lemma_gap_product(a.units(), u);
    let g: int = gap(w.units());
    assert(w.units() * all == x - w.units() * d) by (nonlinear_arith)
        requires
            x == w.units() * s.units(),
            d == s.units() - all,
    ;
    // the sum is off by a small part of itself
    assert(0x100_0000 * gap(d) <= 65 * s.units());
    assert(0x100_0000 * (g * gap(d)) <= 65 * (g * s.units())) by (nonlinear_arith)
        requires
            0x100_0000 * gap(d) <= 65 * s.units(),
            g >= 0,
    ;
    assert(s.units() <= 2 * all);
    lemma_weight_sizes(
        gap(w.units() * all - y),
        gap(x - y),
        g * gap(d),
        gap(x),
        gap(y),
        s.units(),
        all,
    );
}

/// A sum of sines gives each partial its part of the amplitude, and adds them.
pub proof fn law_partials_have_their_weights(
    m: spec_fn(Curve) -> Single,
    e: EventModel,
    rate: u32,
    partials: Seq<Single>,
    amplitudes: Seq<Single>,
    pan: Single,
    bank: Map<Seq<char>, Seq<Single>>,
    n: nat,
    i: int,
)
    requires
        0 <= i < n,
        0 < partials.len() <= 32,
        partials.len() == amplitudes.len(),
        forall|j: int| 0 <= j < amplitudes.len() ==> order::within_power(#[trigger] amplitudes[j], 50),
        order::within_power(voice::size_sum(amplitudes, amplitudes.len() as int), 60),
        voice::size_sum(amplitudes, amplitudes.len() as int).units() >= 0x1_0000_0000_0000_0000_0000_0000_0000,
        Single::of_ratio(1, 1000000).at_most(voice::size_sum(amplitudes, amplitudes.len() as int)),
        forall|j: int| 0 <= j < amplitudes.len() ==> (#[trigger] amplitudes[j]).quotient(voice::norm(amplitudes)).finite(),
    ensures
        exists|weights: Seq<Single>|
            weights.len() == partials.len() && (forall|k: int|
                0 <= k < partials.len() ==> is_weight(#[trigger] weights[k], amplitudes, k))
                && #[trigger] weighed(m, e, rate, partials, weights, i, partials.len() as int) == voice::voiced(
                m,
                (VoiceModel::SinePartials { partials, amplitudes, default_pan: pan }),
                e,
                rate,
                bank,
                n,
            )[i],
{
    let weights: Seq<Single> = Seq::new(
        partials.len(),
        |k: int| amplitudes[k].quotient(voice::norm(amplitudes)),
    );
    assert(voice::norm(amplitudes) == voice::size_sum(amplitudes, amplitudes.len() as int));
    assert forall|k: int| 0 <= k < partials.len() implies is_weight(#[trigger] weights[k], amplitudes, k) by {
        assert(amplitudes[k].quotient(voice::norm(amplitudes)).finite());
        lemma_weight(amplitudes, k);
    }
    lemma_weighed(m, e, rate, partials, amplitudes, i, weights, partials.len() as int);
}

proof fn lemma_weighed(
    m: spec_fn(Curve) -> Single,
    e: EventModel,
    rate: u32,
    partials: Seq<Single>,
    amplitudes: Seq<Single>,
    i: int,
    weights: Seq<Single>,
    k: int,
)
    requires
        0 <= k <= partials.len(),
        weights.len() == partials.len(),
        forall|j: int|
            0 <= j < partials.len() ==> #[trigger] weights[j] == amplitudes[j].quotient(voice::norm(amplitudes)),
    ensures
        weighed(m, e, rate, partials, weights, i, k) == voice::partial_sum(m, e, rate, partials, amplitudes, i, k),
    decreases k,
{
    if k > 0 {
        lemma_weighed(m, e, rate, partials, amplitudes, i, weights, k - 1);
        assert(weights[k - 1] == amplitudes[k - 1].quotient(voice::norm(amplitudes)));
    }
}

/// The phase of a partial turns by the angle of its frequency, which is that of
/// the event times its number.
pub proof fn law_partial_turns(m: spec_fn(Curve) -> Single, e: EventModel, rate: u32, partial: Single, i: int)
    requires
        i >= 0,
        rate > 0,
        timing::ordinary(voice::freq_of(m, e, i).product(partial)),
    ensures
        voice::phase(m, e, rate, Some(partial), 0).bits == 0,
        exists|w: Single|
            #[trigger] response::is_angle(w, voice::freq_of(m, e, i).product(partial), rate as int) && ({
                let turned = voice::phase(m, e, rate, Some(partial), i).sum(w);
                let next = voice::phase(m, e, rate, Some(partial), i + 1);
                if (Single { bits: dsp::TAU }).less(turned) {
                    next == turned.difference(Single { bits: dsp::TAU })
                } else {
                    next == turned
                }
            }),
{
    let f: Single = voice::freq_of(m, e, i).product(partial);
    response::lemma_angle(rate, f);
    assert(response::is_angle(dsp::angle(Single::of_int(rate as int), f), f, rate as int));
}

/// Whether `w` is the angle of a modulator: that of a frequency times a ratio.
pub open spec fn is_modulation(w: Single, freq: Single, ratio: Single, rate: int) -> bool {
    let turned = w.units() * Single::of_int(rate).units();
    w.finite() && 628318 * (freq.units() * ratio.units()) <= 100000 * turned <= 628319 * (freq.units()
        * ratio.units())
}

proof fn lemma_modulation(rate: u32, freq: Single, ratio: Single)
    requires
        rate > 0,
        timing::ordinary(freq),
        timing::ordinary(ratio),
    ensures
        is_modulation(
            (Single { bits: dsp::TAU }).product(freq).product(ratio).quotient(Single::of_int(rate as int)),
            freq,
            ratio,
            rate as int,
        ),
{
    lemma2_to64();
    lemma2_to64_rest();
    closeness::lemma_whole();
    timing::lemma_ordinary(freq);
    timing::lemma_ordinary(ratio);
    let u: int = whole();
    let tau: Single = Single { bits: dsp::TAU };
    let k: int = pow2(128) as int;
    rounding::lemma_scaled_at(24, dsp::TAU as nat, 0xc9_0fdb, 128);
    lemma_pow2_adds(21, 128);
    lemma_pow2_pos(128);
    assert(pow2(21) == 0x20_0000);
    assert(u == 0x20_0000 * k);
    let t: int = tau.units();
    assert(t == 0xc9_0fdb * k);
    assert(order::within_power(tau, 3)) by {
        lemma_pow2_adds(149, 3);
        assert(0xc9_0fdb * k <= 8 * (0x20_0000 * k));
    }
    assert(order::within_power(freq, 20) && order::within_power(ratio, 20));
    order::lemma_product_within_power(tau, freq, 3, 20);
    let p: Single = tau.product(freq);
    order::lemma_product_within_power(p, ratio, 23, 20);
    let m: Single = p.product(ratio);
    order::lemma_over_whole(m, rate as int, 43);
    closeness::lemma_product(tau, freq);
    closeness::lemma_product(p, ratio);
    let f: int = freq.units();
    let g: int = ratio.units();
    let least: int = 0x1_0000_0000_0000_0000_0000_0000_0000;
    assert(f >= least && g >= least && 0x10_0000 * g >= u) by {
        lemma_pow2_adds(20, 129);
        rounding::lemma_scaled_at(24, timing::SMALL as nat, pow2(23), 106);
        lemma_pow2_adds(23, 106);
        lemma_pow2_adds(56, 56);
        lemma_pow2_strictly_increases(112, 129);
        single::lemma_less_is_by_value(freq, Single { bits: timing::SMALL });
        single::lemma_less_is_by_value(ratio, Single { bits: timing::SMALL });
    }
    // the frequency times a turn
    let fu: int = f * u;
    let tf: int = t * f;
    let pu: int = p.units() * u;
    assert(0x20_0000 * tf == 0xc9_0fdb * fu && fu >= least * u) by (nonlinear_arith)
        requires
            fu == f * u,
            tf == t * f,
            t == 0xc9_0fdb * k,
            u == 0x20_0000 * k,
            f >= least,
            u > 0,
    ;
    assert(0x100_0000 * gap(pu - tf) <= tf);
    assert(p.units() >= 0x1_0000_0000_0000_0000_0000_0000) by (nonlinear_arith)
        requires
            pu == p.units() * u,
            pu >= 0x1_0000_0000_0000_0000_0000_0000 * u,
            u > 0,
    ;
    // times the ratio
    let pg: int = p.units() * g;
    let mu: int = m.units() * u;
    let fg: int = f * g;
    assert(pg * u == pu * g && fg * u == fu * g) by (nonlinear_arith)
        requires
            pg == p.units() * g,
            pu == p.units() * u,
            fg == f * g,
            fu == f * u,
    ;
    // pu lies between two multiples of fu
    assert(628_3183 * fu <= 100_0000 * pu <= 628_3188 * fu);
    assert(628_3183 * (fu * g) <= 100_0000 * (pu * g) <= 628_3188 * (fu * g)) by (nonlinear_arith)
        requires
            628_3183 * fu <= 100_0000 * pu,
            100_0000 * pu <= 628_3188 * fu,
            g > 0,
    ;
    assert(628_3183 * fg <= 100_0000 * pg <= 628_3188 * fg) by (nonlinear_arith)
        requires
            628_3183 * (fg * u) <= 100_0000 * (pg * u),
            100_0000 * (pg * u) <= 628_3188 * (fg * u),
            u > 0,
    ;
    assert(pg >= 0x1_0000_0000_0000_0000_0000_0000 * g) by (nonlinear_arith)
        requires
            pg == p.units() * g,
            p.units() >= 0x1_0000_0000_0000_0000_0000_0000,
            g > 0,
    ;
    assert(least >= 0x1_0000_0000_0000);
    assert(pg >= 0x80_0000 * u) by {
        lemma_large(pg, g, u);
    }
    assert(0x100_0000 * gap(mu - pg) <= pg);
    assert(m.units() > 0 && m.units() >= 0x1_0000_0000_0000) by (nonlinear_arith)
        requires
            mu == m.units() * u,
            2 * mu >= 0x10_0000_0000_0000 * u,
            u > 0,
    ;
    // over the rate
    let r: Single = Single::of_int(rate as int);
    closeness::lemma_of_int(rate as int);
    closeness::lemma_quotient(m, r);
    assert(gap(rate as int) * u == rate * u);
    assert(r.units() * 1 == r.units());
    assert(r.units() <= 0x2_0000_0000 * u) by (nonlinear_arith)
        requires
            0x100_0000 * gap(r.units() - rate * u) <= rate * u,
            gap(r.units() - rate * u) >= r.units() - rate * u,
            rate <= 0xffff_ffff,
            u > 0,
    ;
    assert(mu >= 0x80_0000 * r.units());
    assert(gap(m.units()) * u == mu);
}

proof fn lemma_large(pg: int, g: int, u: int)
    requires
        pg >= 0x1_0000_0000_0000_0000_0000_0000 * g,
        0x10_0000 * g >= u,
        u > 0,
    ensures
        pg >= 0x10_0000_0000_0000_0000 * u,
{
}

/// A modulated sine gives out the sine of its phase, moved by the sine of its
/// modulator times the index; and the modulator turns by the frequency of the
/// event times its ratio.
pub proof fn law_modulator_moves_the_phase(
    m: spec_fn(Curve) -> Single,
    e: EventModel,
    rate: u32,
    ratio: Single,
    index: Single,
    pan: Single,
    bank: Map<Seq<char>, Seq<Single>>,
    n: nat,
    i: int,
)
    requires
        0 <= i < n,
        rate > 0,
        timing::ordinary(voice::freq_of(m, e, i)),
        timing::ordinary(ratio),
    ensures
        ({
            let out = voice::voiced(
                m,
                (VoiceModel::Fm { modulator_ratio: ratio, modulation_index: index, default_pan: pan }),
                e,
                rate,
                bank,
                n,
            );
            let swing = m(Curve::Sin(voice::mod_phase(m, e, rate, ratio, i)));
            out[i] == m(Curve::Sin(voice::phase(m, e, rate, None, i).sum(index.product(swing))))
        }),
        voice::mod_phase(m, e, rate, ratio, 0).bits == 0,
        exists|w: Single|
            #[trigger] is_modulation(w, voice::freq_of(m, e, i), ratio, rate as int) && ({
                let turned = voice::mod_phase(m, e, rate, ratio, i).sum(w);
                let next = voice::mod_phase(m, e, rate, ratio, i + 1);
                if (Single { bits: dsp::TAU }).less(turned) {
                    next == turned.difference(Single { bits: dsp::TAU })
                } else {
                    next == turned
                }
            }),
{
    let f: Single = voice::freq_of(m, e, i);
    lemma_modulation(rate, f, ratio);
    let w: Single = (Single { bits: dsp::TAU }).product(f).product(ratio).quotient(Single::of_int(rate as int));
    assert(is_modulation(w, f, ratio, rate as int));
}

/// The generator of the noise never stops: it is never at zero, from where it
/// could not go on.
pub proof fn law_noise_never_stops(seed: u64, n: int)
    requires
        n >= 0,
    ensures
        voice::noise_state(seed, n) != 0,
        n == 0 && seed != 0 ==> voice::noise_state(seed, n) == seed,
    decreases n,
{
    if n > 0 {
        law_noise_never_stops(seed, n - 1);
        let x: u64 = voice::noise_state(seed, n - 1);
        let a: u64 = x ^ (x << 13);
        let b: u64 = a ^ (a >> 7);
        let c: u64 = b ^ (b << 17);
        assert(x != 0 ==> a != 0) by (bit_vector)
            requires
                a == x ^ (x << 13),
        ;
        assert(a != 0 ==> b != 0) by (bit_vector)
            requires
                b == a ^ (a >> 7),
        ;
        assert(b != 0 ==> c != 0) by (bit_vector)
            requires
                c == b ^ (b << 17),
        ;
        assert(c == voice::shuffled(x));
    }
}

/// A value of the noise is made of the upper 24 bits of the generator: as far
/// above -1 as they are above nothing, with 2 for all of them.
pub proof fn law_noise_is_made_of_the_upper_bits(seed: u64, i: int)
    ensures
        ({
            let bits = (voice::noise_state(seed, i + 1) >> 40) as int;
            let x = voice::noise_at(seed, i);
            &&& 0 <= bits < 0x100_0000
            &&& x.finite()
            &&& 0x100_0000 * gap(0x80_0000 * x.units() - (bits - 0x80_0000) * whole()) <= 0x800_0000 * whole()
        }),
{
    let s: u64 = voice::noise_state(seed, i + 1);
    let n: u64 = s >> 40;
    assert(n < 0x100_0000) by (bit_vector)
        requires
            n == s >> 40,
    ;
    closeness::lemma_whole();
    let u: int = whole();
    let k: int = n as int;
    closeness::lemma_share(k, 0x100_0000);
    let q: Single = Single::of_int(k).quotient(Single::of_int(0x100_0000));
    closeness::lemma_of_int(2);
    let two: Single = Single::of_int(2);
    order::lemma_one_within_power(q, 0);
    order::lemma_whole_bound(2);
    order::lemma_product_within_power(q, two, 0, 65);
    let p: Single = q.product(two);
    closeness::lemma_product(q, two);
    let e: int = p.units() - 2 * q.units();
    assert(p.units() * u - q.units() * (2 * u) == e * u && q.units() * (2 * u) == (2 * q.units()) * u) by (nonlinear_arith)
        requires
            e == p.units() - 2 * q.units(),
    ;
    closeness::lemma_gap_product(e, u);
    closeness::lemma_gap_product(2 * q.units(), u);
    assert(0x100_0000 * gap(e) <= gap(2 * q.units()) + 0x80_0000) by (nonlinear_arith)
        requires
            0x100_0000 * (gap(e) * u) <= gap(2 * q.units()) * u + 0x80_0000 * u,
            u > 0,
    ;
    let one: Single = Single { bits: single::ONE };
    assert(order::within(one, 1)) by {
        assert(1 * pow2(single::UNIT as nat) == u);
    }
    order::lemma_one_within_power(one.negated(), 65);
    assert(one.negated().units() == -u);
    order::lemma_sum_within_power(p, one.negated(), 65);
    closeness::lemma_sum(p, one.negated());
    assert(gap(k) * u == k * u);
    assert(k * u <= 0x100_0000 * u && k * u >= 0) by (nonlinear_arith)
        requires
            0 <= k <= 0x100_0000,
            u > 0,
    ;
    assert((k - 0x80_0000) * u == k * u - 0x80_0000 * u) by (nonlinear_arith);
    assert(0 <= q.units() <= u) by {
        assert(1 * u == u);
    }
}

/// The noise of an event starts from its time: events at different times make
/// different noise.
pub proof fn law_noise_starts_from_the_time(a: u64, b: u64)
    requires
        a != b,
    ensures
        voice::seed_of(a) != voice::seed_of(b),
{
}

/// A value between two neighbours lies on the straight line between them.
#[verifier::rlimit(40)]
pub proof fn law_values_between_are_on_a_line(a: Single, b: Single, t: Single)
    requires
        order::within(a, 1),
        order::within(b, 1),
        order::within(t, 1),
        t.units() >= 0,
    ensures
        ({
            let u = whole();
            let x = voice::between(a, b, t);
            x.finite() && 0x100_0000 * gap(x.units() * u - (a.units() * (u - t.units()) + b.units() * t.units())) <= 16
                * (u * u)
        }),
{
    closeness::lemma_whole();
    let u: int = whole();
    let one: Single = Single { bits: single::ONE };
    assert(1 * u == u && 1 * pow2(single::UNIT as nat) == u);
    assert(order::within(one, 1));
    order::lemma_one_within_power(a, 2);
    order::lemma_one_within_power(b, 2);
    order::lemma_one_within_power(t, 2);
    order::lemma_one_within_power(one, 2);
    assert(t.negated().units() == -t.units() && order::within_power(t.negated(), 2));
    order::lemma_sum_within_power(one, t.negated(), 2);
    let r: Single = one.difference(t);
    closeness::lemma_sum(one, t.negated());
    order::lemma_product_within_power(a, r, 2, 3);
    order::lemma_product_within_power(b, t, 2, 2);
    let p: Single = a.product(r);
    let q: Single = b.product(t);
    closeness::lemma_product(a, r);
    closeness::lemma_product(b, t);
    lemma_pow2_strictly_increases(149 + 4, 149 + 5);
    assert(order::within_power(q, 5));
    order::lemma_sum_within_power(p, q, 5);
    closeness::lemma_sum(p, q);
    let x: Single = p.sum(q);
    let av: int = a.units();
    let bv: int = b.units();
    let tv: int = t.units();
    let rv: int = r.units();
    assert(gap(av) <= u && gap(bv) <= u && 0 <= tv <= u);
    // the rest
    let f: int = rv - (u - tv);
    assert(0x100_0000 * gap(f) <= u);
    assert(gap(rv) <= 2 * u);
    closeness::lemma_gap_product(av, rv);
    closeness::lemma_gap_product(bv, tv);
    closeness::lemma_gap_product(av, f);
    let uu: int = u * u;
    assert(gap(av) * gap(rv) <= 2 * uu && gap(bv) * gap(tv) <= uu && 0x100_0000 * (gap(av) * gap(f)) <= uu && u <= uu)
        by (nonlinear_arith)
        requires
            0 <= gap(av) <= u,
            0 <= gap(bv) <= u,
            0 <= gap(tv) <= u,
            0 <= gap(rv) <= 2 * u,
            0x100_0000 * gap(f) <= u,
            gap(f) >= 0,
            u >= 1,
            uu == u * u,
    ;
    assert(av * rv == av * (u - tv) + av * f) by (nonlinear_arith)
        requires
            f == rv - (u - tv),
    ;
    assert(0x80_0000 * u <= uu) by (nonlinear_arith)
        requires
            u >= 0x80_0000,
            uu == u * u,
    ;
    // the sum
    let pv: int = p.units();
    let qv: int = q.units();
    let w: int = x.units() - (pv + qv);
    closeness::lemma_gap_product(w, u);
    closeness::lemma_gap_product(pv + qv, u);
    assert(0x100_0000 * (gap(w) * u) <= gap(pv + qv) * u) by (nonlinear_arith)
        requires
            0x100_0000 * gap(w) <= gap(pv + qv),
            u > 0,
    ;
    assert(x.units() * u == w * u + pv * u + qv * u && (pv + qv) * u == pv * u + qv * u) by (nonlinear_arith)
        requires
            w == x.units() - (pv + qv),
    ;
    lemma_line(x.units() * u, w * u, pv * u, qv * u, av * rv, bv * tv, av * f, av * (u - tv), uu);
}

proof fn lemma_line(x: int, w: int, p: int, q: int, ar: int, bt: int, af: int, line: int, uu: int)
    requires
        x == w + p + q,
        ar == line + af,
        gap(ar) <= 2 * uu,
        gap(bt) <= uu,
        0x100_0000 * gap(af) <= uu,
        0x100_0000 * gap(p - ar) <= 3 * uu,
        0x100_0000 * gap(q - bt) <= 2 * uu,
        0x100_0000 * gap(w) <= gap(p + q),
        uu >= 0,
    ensures
        0x100_0000 * gap(x - (line + bt)) <= 16 * uu,
{
}

} // verus!
