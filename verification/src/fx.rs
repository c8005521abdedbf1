//! Effects on a buffer.

use vstd::arithmetic::power2::*;
use vstd::prelude::*;

use crate::curve;
use crate::curve::Curve;
use crate::double;
use crate::double::Double;
use crate::dsp;
use crate::dsp::Biquad;
use crate::order;
use crate::piece::FxNode;
use crate::single;
use crate::single::Single;

verus! {

/// The size of a value.
pub open spec fn size_of(x: Single) -> Single {
    if x.negative() {
        x.negated()
    } else {
        x
    }
}

/// The nearest whole value, halves away from zero; a zero keeps its sign.
pub open spec fn round(x: Single) -> Single {
    let whole = Single::of_int(Double::of_single(size_of(x)).nearest() as int);
    if x.nan() {
        x
    } else if x.negative() {
        whole.negated()
    } else {
        whole
    }
}

/// Steps on each side of zero at a resolution, which is kept to 1..=16 bits.
pub open spec fn levels(bits: u8) -> int {
    let kept = if bits < 1 {
        1
    } else if bits > 16 {
        16
    } else {
        bits as int
    };
    pow2((kept - 1) as nat) as int
}

/// A value at a coarser resolution.
pub open spec fn crushed(x: Single, bits: u8) -> Single {
    let unit = Single::of_int(levels(bits));
    round(
        x.clamped(Single { bits: single::MINUS_ONE }, Single { bits: single::ONE }).product(unit),
    ).quotient(unit)
}

/// Whether a value is the step nearest to another, kept within `[-1, 1]`: it
/// lies in that range, is a multiple of one over the number of levels, and no
/// such multiple is nearer. All sizes are times the number of levels, in units
/// of `2^-149`. Of two that are equally near it is the one away from zero.
pub open spec fn is_nearest_step(x: Single, y: Single, bits: u8) -> bool {
    let unit = pow2(single::UNIT as nat) as int;
    let kept = x.clamped(Single { bits: single::MINUS_ONE }, Single { bits: single::ONE });
    let n = levels(bits);
    &&& (Single { bits: single::MINUS_ONE }).at_most(y)
    &&& y.at_most(Single { bits: single::ONE })
    &&& y.negative() == kept.negative()
    &&& (y.units() * n) % unit == 0
    &&& forall|k: int|
        distance(y.units() * n, kept.units() * n) <= distance(#[trigger] (k * unit), kept.units() * n)
    &&& 2 * (kept.size() * n) - 2 * (y.size() * n) < unit
}

/// How far two whole numbers are apart.
pub open spec fn distance(a: int, b: int) -> int {
    if a <= b {
        b - a
    } else {
        a - b
    }
}

/// Each value held for `factor` samples.
pub open spec fn held(s: Seq<Single>, factor: u32) -> Seq<Single> {
    if factor <= 1 {
        s
    } else {
        Seq::new(s.len(), |i: int| s[i - i % factor as int])
    }
}

/// The smaller number.
pub open spec fn lesser(a: int, b: int) -> int {
    if a <= b {
        a
    } else {
        b
    }
}

/// The first slice, repeated; the rest stays.
pub open spec fn stuttered(s: Seq<Single>, slice_samples: u64, repeats: u32) -> Seq<Single> {
    let slice = lesser(slice_samples as int, s.len() as int);
    let total = lesser(slice * repeats, s.len() as int);
    if slice_samples == 0 || repeats == 0 || s.len() == 0 {
        s
    } else {
        Seq::new(s.len(), |i: int| if i < total { s[i % slice] } else { s[i] })
    }
}

/// The `i`th value of a feedback delay.
pub open spec fn combed_at(s: Seq<Single>, delay: u64, feedback: Single, i: int) -> Single
    decreases i,
{
    if i < 0 || delay == 0 {
        Single { bits: 0 }
    } else {
        s[i].sum(
            feedback.product(
                if delay <= i {
                    combed_at(s, delay, feedback, i - delay)
                } else {
                    Single { bits: 0 }
                },
            ),
        )
    }
}

/// A feedback delay; the feedback is kept within 0.99.
pub open spec fn combed(s: Seq<Single>, delay: u64, feedback: Single) -> Seq<Single> {
    let fb = feedback.clamped(Single::of_ratio(-99, 100), Single::of_ratio(99, 100));
    if delay == 0 {
        s
    } else {
        Seq::new(s.len(), |i: int| combed_at(s, delay, fb, i))
    }
}

/// What an effect makes of a buffer.
pub open spec fn effect(
    node: FxNode,
    m: spec_fn(Curve) -> Single,
    s: Seq<Single>,
    sample_rate: u32,
) -> Seq<Single> {
    let rate = Single::of_int(sample_rate as int);
    match node {
        FxNode::Bitcrush { bits } => s.map_values(|x: Single| crushed(x, bits)),
        FxNode::SampleRateReduce { factor } => held(s, factor),
        FxNode::Reverse => s.reverse(),
        FxNode::Stutter { slice_samples, repeats } => stuttered(s, slice_samples, repeats),
        FxNode::CombDelay { delay_samples, feedback } => combed(s, delay_samples, feedback),
        FxNode::Lowpass { cutoff_hz, q } => dsp::lowpass_of(m, rate, cutoff_hz, q).filtered(s),
        FxNode::Highpass { cutoff_hz, q } => dsp::highpass_of(m, rate, cutoff_hz, q).filtered(s),
        FxNode::Bandpass { center_hz, q } => dsp::bandpass_of(m, rate, center_hz, q).filtered(s),
    }
}

/// What the first `n` effects of a chain make of a buffer.
pub open spec fn chained(
    fx: Seq<FxNode>,
    m: spec_fn(Curve) -> Single,
    s: Seq<Single>,
    sample_rate: u32,
    n: int,
) -> Seq<Single>
    decreases n,
{
    if n <= 0 {
        s
    } else {
        effect(fx[n - 1], m, chained(fx, m, s, sample_rate, n - 1), sample_rate)
    }
}

fn round_to_whole(x: Single) -> (r: Single)
    ensures
        r == round(x),
{
    if x.is_nan() {
        return x;
    }
    let negative: bool = x.is_negative();
    let size: Single = if negative {
        x.negate()
    } else {
        x
    };
    let whole: Single = Single::from_natural(Double::from_single(size).to_nearest());
    if negative {
        whole.negate()
    } else {
        whole
    }
}

fn level_count(bits: u8) -> (r: i64)
    ensures
        r == levels(bits),
{
    let mut n: i64 = 1;
    let mut b: u8 = 1;
    proof {
        lemma2_to64();
    }
    while b < bits && b < 16
        invariant
            1 <= b <= 16,
            b <= bits || b == 1,
            n == levels(b),
            n <= 32768,
        decreases 16 - b,
    {
        proof {
            lemma_pow2_unfold(b as nat);
            lemma2_to64();
            if b < 15 {
                lemma_pow2_strictly_increases(b as nat, 15);
            }
        }
        n = n * 2;
        b = b + 1;
    }
    n
}

/// Brings each value of a buffer to a coarser resolution: the nearest step.
pub fn bitcrush(buf: &mut Vec<Single>, bits: u8)
    ensures
        final(buf)@ == old(buf)@.map_values(|x: Single| crushed(x, bits)),
        forall|i: int|
            0 <= i < old(buf)@.len() && !(#[trigger] old(buf)@[i]).nan() ==> is_nearest_step(
                old(buf)@[i],
                final(buf)@[i],
                bits,
            ),
{
    let ghost before = buf@;
    let unit: Single = Single::from_int(level_count(bits));
    let low: Single = Single::of_bits(single::MINUS_ONE);
    let high: Single = Single::of_bits(single::ONE);
    let mut i: usize = 0;
    while i < buf.len()
        invariant
            i <= buf@.len(),
            buf@.len() == before.len(),
            unit == Single::of_int(levels(bits)),
            low.bits == single::MINUS_ONE,
            high.bits == single::ONE,
            forall|k: int| i <= k < before.len() ==> #[trigger] buf@[k] == before[k],
            forall|k: int| 0 <= k < i ==> #[trigger] buf@[k] == crushed(before[k], bits),
        decreases buf@.len() - i,
    {
        let x: Single = buf[i];
        buf.set(i, round_to_whole(x.clamp(low, high).times(unit)).over(unit));
        i = i + 1;
    }
    assert(buf@ =~= before.map_values(|x: Single| crushed(x, bits)));
    proof {
        assert forall|k: int| 0 <= k < before.len() && !(#[trigger] before[k]).nan() implies is_nearest_step(
            before[k],
            buf@[k],
            bits,
        ) by {
            law_bitcrush_rounds_to_a_step(before[k], bits);
        }
    }
}

fn sample_rate_reduce(buf: &mut Vec<Single>, factor: u32)
    ensures
        final(buf)@ == held(old(buf)@, factor),
{
    if factor <= 1 {
        return;
    }
    let ghost before = buf@;
    let mut last: Single = Single::of_bits(0);
    let mut phase: u32 = 0;
    let mut i: usize = 0;
    while i < buf.len()
        invariant
            i <= buf@.len(),
            buf@.len() == before.len(),
            factor > 1,
            phase < factor,
            phase == i as int % factor as int,
            phase > 0 ==> last == before[i - phase],
            forall|k: int| i <= k < before.len() ==> #[trigger] buf@[k] == before[k],
            forall|k: int| 0 <= k < i ==> #[trigger] buf@[k] == before[k - k % factor as int],
        decreases buf@.len() - i,
    {
        if phase == 0 {
            last = buf[i];
        }
        buf.set(i, last);
        proof {
            lemma_next_remainder(i as int, factor as int);
        }
        phase = if phase + 1 < factor {
            phase + 1
        } else {
            0
        };
        i = i + 1;
    }
    assert(buf@ =~= held(before, factor));
}

pub proof fn lemma_next_remainder(i: int, n: int)
    requires
        n > 1,
        i >= 0,
    ensures
        (i + 1) % n == if i % n + 1 < n {
            i % n + 1
        } else {
            0
        },
{
    let q: int = i / n;
    let r: int = i % n;
    vstd::arithmetic::div_mod::lemma_fundamental_div_mod(i, n);
    if r + 1 < n {
        vstd::arithmetic::div_mod::lemma_fundamental_div_mod_converse(i + 1, n, q, r + 1);
    } else {
        assert(n * q + n == n * (q + 1)) by (nonlinear_arith);
        vstd::arithmetic::div_mod::lemma_fundamental_div_mod_converse(i + 1, n, q + 1, 0);
    }
}

fn stutter(buf: &mut Vec<Single>, slice_samples: u64, repeats: u32)
    ensures
        final(buf)@ == stuttered(old(buf)@, slice_samples, repeats),
{
    let n: usize = buf.len();
    if slice_samples == 0 || repeats == 0 || n == 0 {
        return;
    }
    let ghost before = buf@;
    let slice: usize = if slice_samples <= n as u64 {
        slice_samples as usize
    } else {
        n
    };
    assert(slice * repeats <= u64::MAX * u32::MAX) by (nonlinear_arith)
        requires
            slice <= u64::MAX,
            repeats <= u32::MAX,
    ;
    let wanted: u128 = slice as u128 * repeats as u128;
    let total: usize = if wanted <= n as u128 {
        wanted as usize
    } else {
        n
    };
    let mut at: usize = 0;
    let mut i: usize = 0;
    while i < total
        invariant
            i <= total <= n,
            n == before.len(),
            buf@.len() == n,
            0 < slice <= n,
            at < slice,
            at == i as int % slice as int,
            forall|k: int| i <= k < n ==> #[trigger] buf@[k] == before[k],
            forall|k: int| 0 <= k < i ==> #[trigger] buf@[k] == before[k % slice as int],
        decreases total - i,
    {
        proof {
            vstd::arithmetic::div_mod::lemma_mod_decreases(i as nat, slice as nat);
            assert(at as int % slice as int == at) by {
                vstd::arithmetic::div_mod::lemma_small_mod(at as nat, slice as nat);
            }
            if slice > 1 {
                lemma_next_remainder(i as int, slice as int);
            }
        }
        let x: Single = buf[at];
        buf.set(i, x);
        at = if at + 1 < slice {
            at + 1
        } else {
            0
        };
        i = i + 1;
    }
    assert(buf@ =~= stuttered(before, slice_samples, repeats));
}

fn comb_delay(buf: &mut Vec<Single>, delay_samples: u64, feedback: Single)
    ensures
        final(buf)@ == combed(old(buf)@, delay_samples, feedback),
{
    if delay_samples == 0 {
        return;
    }
    let ghost before = buf@;
    let fb: Single = feedback.clamp(Single::ratio(-99, 100), Single::ratio(99, 100));
    let mut i: usize = 0;
    while i < buf.len()
        invariant
            i <= buf@.len(),
            buf@.len() == before.len(),
            delay_samples > 0,
            forall|k: int| i <= k < before.len() ==> #[trigger] buf@[k] == before[k],
            forall|k: int|
                0 <= k < i ==> #[trigger] buf@[k] == combed_at(before, delay_samples, fb, k),
        decreases buf@.len() - i,
    {
        let delayed: Single = if delay_samples <= i as u64 {
            buf[i - delay_samples as usize]
        } else {
            Single::of_bits(0)
        };
        let out: Single = buf[i].plus(fb.times(delayed));
        buf.set(i, out);
        i = i + 1;
    }
    assert(buf@ =~= combed(before, delay_samples, feedback));
}

fn reverse(buf: &mut Vec<Single>)
    ensures
        final(buf)@ == old(buf)@.reverse(),
{
    let ghost before = buf@;
    let n: usize = buf.len();
    let mut i: usize = 0;
    while i < n / 2
        invariant
            i <= n / 2,
            n == before.len(),
            buf@.len() == n,
            forall|k: int| 0 <= k < i ==> #[trigger] buf@[k] == before[n - 1 - k],
            forall|k: int| n - i <= k < n ==> #[trigger] buf@[k] == before[n - 1 - k],
            forall|k: int| i <= k < n - i ==> #[trigger] buf@[k] == before[k],
        decreases n / 2 - i,
    {
        let a: Single = buf[i];
        let b: Single = buf[n - 1 - i];
        buf.set(i, b);
        buf.set(n - 1 - i, a);
        i = i + 1;
    }
    assert(buf@ =~= before.reverse());
}

/// Runs a buffer through a filter.
pub fn biquad(buf: &mut Vec<Single>, filter: Biquad)
    ensures
        final(buf)@ == filter.filtered(old(buf)@),
{
    let ghost before = buf@;
    let mut state: Biquad = filter;
    let mut i: usize = 0;
    while i < buf.len()
        invariant
            i <= buf@.len(),
            buf@.len() == before.len(),
            state == filter.after(before, i as int),
            forall|k: int| i <= k < before.len() ==> #[trigger] buf@[k] == before[k],
            forall|k: int|
                0 <= k < i ==> #[trigger] buf@[k] == filter.after(before, k).answer(before[k]),
        decreases buf@.len() - i,
    {
        let y: Single = state.process(buf[i]);
        buf.set(i, y);
        i = i + 1;
    }
    assert(buf@ =~= filter.filtered(before));
}

/// Applies an effect to a buffer.
pub fn apply_fx<F: Fn(Curve) -> Single>(node: &FxNode, f: &F, buf: &mut Vec<Single>, sample_rate: u32)
    requires
        curve::accepts(*f),
    ensures
        final(buf)@.len() == old(buf)@.len(),
        forall|m: spec_fn(Curve) -> Single| #[trigger]
            curve::follows(*f, m) ==> final(buf)@ == effect(*node, m, old(buf)@, sample_rate),
{
    let rate: Single = Single::from_natural(sample_rate as u64);
    match *node {
        FxNode::Bitcrush { bits } => bitcrush(buf, bits),
        FxNode::SampleRateReduce { factor } => sample_rate_reduce(buf, factor),
        FxNode::Reverse => reverse(buf),
        FxNode::Stutter { slice_samples, repeats } => stutter(buf, slice_samples, repeats),
        FxNode::CombDelay { delay_samples, feedback } => comb_delay(buf, delay_samples, feedback),
        FxNode::Lowpass { cutoff_hz, q } => biquad(buf, Biquad::lowpass(f, rate, cutoff_hz, q)),
        FxNode::Highpass { cutoff_hz, q } => biquad(buf, Biquad::highpass(f, rate, cutoff_hz, q)),
        FxNode::Bandpass { center_hz, q } => biquad(buf, Biquad::bandpass(f, rate, center_hz, q)),
    }
}

/// Applies a chain of effects to a buffer, one after the other.
pub fn apply_chain<F: Fn(Curve) -> Single>(fx: &Vec<FxNode>, f: &F, buf: &mut Vec<Single>, sample_rate: u32)
    requires
        curve::accepts(*f),
    ensures
        final(buf)@.len() == old(buf)@.len(),
        forall|m: spec_fn(Curve) -> Single| #[trigger]
            curve::follows(*f, m) ==> final(buf)@ == chained(
                fx@,
                m,
                old(buf)@,
                sample_rate,
                fx@.len() as int,
            ),
{
    let ghost before = buf@;
    let mut i: usize = 0;
    while i < fx.len()
        invariant
            i <= fx@.len(),
            curve::accepts(*f),
            buf@.len() == before.len(),
            forall|m: spec_fn(Curve) -> Single| #[trigger]
                curve::follows(*f, m) ==> buf@ == chained(fx@, m, before, sample_rate, i as int),
        decreases fx.len() - i,
    {
        apply_fx(&fx[i], f, buf, sample_rate);
        i = i + 1;
    }
}

/// Reversing twice changes nothing.
pub proof fn law_reverse_twice(m: spec_fn(Curve) -> Single, s: Seq<Single>, sample_rate: u32)
    ensures
        effect(FxNode::Reverse, m, effect(FxNode::Reverse, m, s, sample_rate), sample_rate) == s,
{
    assert(s.reverse().reverse() =~= s);
}

/// No effect changes the length of a buffer.
pub proof fn law_effects_keep_length(
    fx: Seq<FxNode>,
    m: spec_fn(Curve) -> Single,
    s: Seq<Single>,
    sample_rate: u32,
    n: int,
)
    requires
        0 <= n <= fx.len(),
    ensures
        chained(fx, m, s, sample_rate, n).len() == s.len(),
    decreases n,
{
    if n > 0 {
        law_effects_keep_length(fx, m, s, sample_rate, n - 1);
    }
}

/// A stutter repeats the first slice: a step of one slice within the repeated
/// part changes nothing, and behind it everything stays.
pub proof fn law_stutter_repeats(s: Seq<Single>, slice_samples: u64, repeats: u32, i: int)
    requires
        slice_samples > 0,
        repeats > 0,
        0 <= i < s.len(),
    ensures
        slice_samples <= i < slice_samples * repeats ==> stuttered(s, slice_samples, repeats)[i] == stuttered(
            s,
            slice_samples,
            repeats,
        )[i - slice_samples],
        i >= slice_samples * repeats ==> stuttered(s, slice_samples, repeats)[i] == s[i],
{
    if slice_samples <= i < slice_samples * repeats {
        let n: int = slice_samples as int;
        assert((i - n) % n == i % n) by {
            vstd::arithmetic::div_mod::lemma_mod_sub_multiples_vanish(i, n);
        }
    } else if i >= slice_samples * repeats {
        assert(slice_samples <= slice_samples * repeats) by (nonlinear_arith)
            requires
                repeats >= 1,
        ;
    }
}

/// The whole number nearest to a size, halves upwards.
proof fn lemma_round(y: Single, top: nat)
    requires
        order::within(y, top),
        top < 0x100_0000,
    ensures
        ({
            let unit = pow2(single::UNIT as nat);
            let k = Double::of_single(size_of(y)).nearest();
            &&& k <= top
            &&& 2 * k * unit <= 2 * y.size() + unit < 2 * k * unit + 2 * unit
            &&& round(y).finite()
            &&& round(y).size() == k * unit
            &&& round(y).negative() == y.negative()
        }),
{
    let unit: nat = pow2(single::UNIT as nat);
    let more: nat = pow2((double::UNIT - single::UNIT) as nat);
    let x: Single = size_of(y);
    let d: Double = Double::of_single(x);
    let k: nat = d.nearest();
    lemma_pow2_pos(single::UNIT as nat);
    lemma_pow2_pos((double::UNIT - single::UNIT) as nat);
    lemma_pow2_adds(single::UNIT as nat, (double::UNIT - single::UNIT) as nat);
    let fine: nat = pow2(double::UNIT as nat);
    lemma_pow2_pos(double::UNIT as nat);
    assert(x.size() == y.size());
    order::lemma_in_double(x);
    let s: int = d.size() as int;
    let q: int = s / (fine as int);
    let r: int = s % (fine as int);
    vstd::arithmetic::div_mod::lemma_fundamental_div_mod(s, fine as int);
    vstd::arithmetic::div_mod::lemma_mod_bound(s, fine as int);
    assert(q <= top) by (nonlinear_arith)
        requires
            s == fine * q + r,
            r >= 0,
            s == y.size() * more,
            y.size() <= top * unit,
            fine == unit * more,
            more > 0,
            unit > 0,
    {
        assert(y.size() * more <= (top * unit) * more);
        assert((top * unit) * more == fine * top);
    }
    let n: int = if 2 * r >= fine {
        q + 1
    } else {
        q
    };
    assert(k == n);
    assert(2 * n * fine <= 2 * s + fine < 2 * n * fine + 2 * fine) by (nonlinear_arith)
        requires
            s == fine * q + r,
            0 <= r < fine,
            n == if 2 * r >= fine {
                q + 1
            } else {
                q
            },
    ;
    assert(2 * n * unit <= 2 * y.size() + unit < 2 * n * unit + 2 * unit) by (nonlinear_arith)
        requires
            2 * n * fine <= 2 * s + fine < 2 * n * fine + 2 * fine,
            s == y.size() * more,
            fine == unit * more,
            more > 0,
    {
        assert((2 * n * unit) * more <= (2 * y.size() + unit) * more);
        assert((2 * y.size() + unit) * more < (2 * n * unit + 2 * unit) * more);
    }
    assert(n <= top) by (nonlinear_arith)
        requires
            2 * n * unit <= 2 * y.size() + unit,
            y.size() <= top * unit,
            unit > 0,
    ;
    let bits: nat = order::lemma_whole(k);
}

/// What a coarser resolution makes of a value in `[-1, 1]`.
proof fn lemma_crushed(c: Single, bits: u8)
    requires
        order::within(c, 1),
    ensures
        ({
            let unit = pow2(single::UNIT as nat);
            let n = levels(bits) as nat;
            let y = crushed(c, bits);
            let k = round(c.product(Single::of_int(n as int))).size() / unit;
            &&& order::within(y, 1)
            &&& y.negative() == c.negative()
            &&& y.size() * n == k * unit
            &&& k <= n
            &&& 2 * k * unit <= 2 * (c.size() * n) + unit < 2 * k * unit + 2 * unit
            &&& y == round(c.product(Single::of_int(n as int))).quotient(Single::of_int(n as int))
        }),
{
    let unit: nat = pow2(single::UNIT as nat);
    lemma_pow2_pos(single::UNIT as nat);
    lemma2_to64();
    let j: nat = (if bits < 1 {
        1
    } else if bits > 16 {
        16
    } else {
        bits as int
    } - 1) as nat;
    let n: nat = pow2(j);
    lemma_pow2_pos(j);
    if j < 15 {
        lemma_pow2_strictly_increases(j, 15);
    }
    let step: Single = Single::of_int(n as int);
    let pattern: nat = order::lemma_whole(n);
    order::lemma_within_one(c);
    assert(1 * n == n);
    order::lemma_product_within(c, step, 1, n);
    let p: Single = c.product(step);
    order::lemma_times_power(c, step, j);
    lemma_round(p, n);
    let k: nat = Double::of_single(size_of(p)).nearest();
    let r: Single = round(p);
    vstd::arithmetic::div_mod::lemma_div_multiples_vanish(k as int, unit as int);
    assert(unit * k == k * unit) by (nonlinear_arith);
    order::lemma_over_power(k, r, step, j);
    assert(r.size() <= step.size()) by (nonlinear_arith)
        requires
            r.size() == k * unit,
            step.size() == n * unit,
            k <= n,
    ;
    assert(step.size() > 0) by (nonlinear_arith)
        requires
            step.size() == n * unit,
            n > 0,
            unit > 0,
    ;
    order::lemma_quotient_within(r, step);
}

/// `k * unit` is the multiple nearest to `v`, where `v` is no more than half a
/// unit away.
proof fn lemma_nearest_multiple(k: int, v: int, unit: int)
    requires
        unit > 0,
        2 * distance(k * unit, v) <= unit,
    ensures
        forall|j: int| distance(k * unit, v) <= distance(#[trigger] (j * unit), v),
{
    assert forall|j: int| distance(k * unit, v) <= distance(#[trigger] (j * unit), v) by {
        assert(j < k ==> j * unit <= k * unit - unit) by (nonlinear_arith)
            requires
                unit > 0,
        ;
        assert(j > k ==> j * unit >= k * unit + unit) by (nonlinear_arith)
            requires
                unit > 0,
        ;
    }
}

/// Bitcrushing gives the nearest step, and a second pass changes nothing.
pub proof fn law_bitcrush_rounds_to_a_step(x: Single, bits: u8)
    requires
        !x.nan(),
    ensures
        is_nearest_step(x, crushed(x, bits), bits),
        !crushed(x, bits).nan(),
        crushed(crushed(x, bits), bits) == crushed(x, bits),
{
    let unit: nat = pow2(single::UNIT as nat);
    lemma_pow2_pos(single::UNIT as nat);
    let low: Single = Single { bits: single::MINUS_ONE };
    let high: Single = Single { bits: single::ONE };
    let kept: Single = x.clamped(low, high);
    order::lemma_within_one(x);
    order::lemma_within_one(kept);
    assert(crushed(kept, bits) == crushed(x, bits));
    let y: Single = crushed(kept, bits);
    lemma_crushed(kept, bits);
    order::lemma_within_one(y);
    lemma_crushed(y, bits);
    let n: int = levels(bits);
    let step: Single = Single::of_int(n);
    let k: nat = round(kept.product(step)).size() / unit;
    let l: nat = round(y.product(step)).size() / unit;
    assert(2 * k * unit == 2 * (k * unit)) by (nonlinear_arith);
    // the second pass finds the same step
    assert(k == l) by (nonlinear_arith)
        requires
            2 * l * unit <= 2 * (k * unit) + unit < 2 * l * unit + 2 * unit,
            unit > 0,
    ;
    let z: Single = crushed(y, bits);
    lemma_pow2_pos((if bits < 1 {
        1
    } else if bits > 16 {
        16
    } else {
        bits as int
    } - 1) as nat);
    assert(z.size() == y.size()) by (nonlinear_arith)
        requires
            z.size() * n == y.size() * n,
            n > 0,
    ;
    single::lemma_same_size(z, y);
    // with the sign
    let u: int = unit as int;
    let steps: int = if y.negative() {
        -(k as int)
    } else {
        k as int
    };
    let v: int = kept.units() * n;
    assert(y.units() * n == steps * u) by (nonlinear_arith)
        requires
            y.size() * n == k * u,
            y.negative() ==> y.units() == -(y.size() as int) && steps == -(k as int),
            !y.negative() ==> y.units() == y.size() && steps == k,
    ;
    assert(v == if kept.negative() {
        -(kept.size() * n)
    } else {
        kept.size() * n
    }) by (nonlinear_arith)
        requires
            v == kept.units() * n,
            kept.units() == if kept.negative() {
                -(kept.size() as int)
            } else {
                kept.size() as int
            },
    ;
    assert(steps * u == if y.negative() {
        -(k * u)
    } else {
        k * u
    }) by (nonlinear_arith)
        requires
            steps == if y.negative() {
                -(k as int)
            } else {
                k as int
            },
    ;
    lemma_nearest_multiple(steps, v, u);
    vstd::arithmetic::div_mod::lemma_mod_multiples_basic(steps, u);
}

/// A second bitcrush changes nothing that the first has left.
pub proof fn law_bitcrush_twice(s: Seq<Single>, bits: u8, m: spec_fn(Curve) -> Single, sample_rate: u32)
    requires
        forall|i: int| 0 <= i < s.len() ==> !(#[trigger] s[i]).nan(),
    ensures
        ({
            let once = effect(FxNode::Bitcrush { bits }, m, s, sample_rate);
            effect(FxNode::Bitcrush { bits }, m, once, sample_rate) == once
        }),
{
    let once: Seq<Single> = effect(FxNode::Bitcrush { bits }, m, s, sample_rate);
    let twice: Seq<Single> = effect(FxNode::Bitcrush { bits }, m, once, sample_rate);
    assert forall|i: int| 0 <= i < s.len() implies twice[i] == once[i] by {
        law_bitcrush_rounds_to_a_step(s[i], bits);
    }
    assert(twice =~= once);
}

} // verus!
