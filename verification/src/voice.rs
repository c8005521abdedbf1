//! Voices: the raw sound of an event.

use vstd::prelude::*;
use vstd::arithmetic::power2::*;

use crate::curve;
use crate::curve::{take, Curve};
use crate::double;
use crate::double::Double;
use crate::dsp;
use crate::dsp::{Biquad, TAU};
use crate::fx;
use crate::order;
use crate::piece::{Event, EventModel, Pitch, PitchEnv, PitchShape, SampleLoopMode, VoiceDef, VoiceModel};
use crate::rounding;
use crate::sample::SampleBank;
use crate::single;
use crate::single::Single;

verus! {

/// What a voice needs to know of its piece.
pub struct VoiceCtx<'a> {
    pub sample_rate: u32,
    pub bank: &'a SampleBank,
}

/// The frequency of a pitch.
pub open spec fn hertz(m: spec_fn(Curve) -> Single, pitch: Pitch) -> Single {
    match pitch {
        Pitch::Hz(f) => f,
        Pitch::Key(key) => Single::of_int(440).product(
            m(
                Curve::Pow(
                    Single::of_int(2),
                    Single::of_int(key as int).difference(Single::of_int(69)).quotient(Single::of_int(12)),
                ),
            ),
        ),
    }
}

/// The frequency of an event, or another where it has none.
pub open spec fn base(m: spec_fn(Curve) -> Single, e: EventModel, other: Single) -> Single {
    match e.freq {
        Some(pitch) => hertz(m, pitch),
        None => other,
    }
}

/// The factor of a pitch envelope at sample `i`.
pub open spec fn env_ratio(m: spec_fn(Curve) -> Single, p: PitchEnv, i: int) -> Single {
    let total = if p.time_samples < 1 { 1 } else { p.time_samples as int };
    let t = Single::of_int(if i <= total { i } else { total }).quotient(Single::of_int(total));
    match p.shape {
        PitchShape::Linear => p.from_ratio.sum(p.to_ratio.difference(p.from_ratio).product(t)),
        PitchShape::Exp => {
            let from = p.from_ratio.larger(Single::of_ratio(1, 1000));
            let to = p.to_ratio.larger(Single::of_ratio(1, 1000));
            from.product(m(Curve::Pow(to.quotient(from), t)))
        },
    }
}

/// The frequency of an event at sample `i`.
pub open spec fn freq_of(m: spec_fn(Curve) -> Single, e: EventModel, i: int) -> Single {
    let f = base(m, e, Single::of_int(440));
    match e.pitch_env {
        None => f,
        Some(p) => f.product(env_ratio(m, p, i)),
    }
}

/// A phase brought back by one turn where it has passed one.
pub open spec fn wrapped(phase: Single) -> Single {
    if (Single { bits: TAU }).less(phase) {
        phase.difference(Single { bits: TAU })
    } else {
        phase
    }
}

/// The phase of a sine that follows the event, a factor above it, at sample
/// `i`.
pub open spec fn phase(m: spec_fn(Curve) -> Single, e: EventModel, rate: u32, factor: Option<Single>, i: int) -> Single
    decreases i,
{
    if i <= 0 {
        Single { bits: 0 }
    } else {
        let f = freq_of(m, e, i - 1);
        let g = match factor {
            None => f,
            Some(p) => f.product(p),
        };
        wrapped(
            phase(m, e, rate, factor, i - 1).sum(
                (Single { bits: TAU }).product(g).quotient(Single::of_int(rate as int)),
            ),
        )
    }
}

/// A sine.
pub open spec fn sine(m: spec_fn(Curve) -> Single, e: EventModel, rate: u32, n: nat) -> Seq<Single> {
    Seq::new(n, |i: int| m(Curve::Sin(phase(m, e, rate, None, i))))
}

/// The sum of the sizes of the first `n` amplitudes.
pub open spec fn size_sum(amplitudes: Seq<Single>, n: int) -> Single
    decreases n,
{
    if n <= 0 {
        Single { bits: 0 }
    } else {
        size_sum(amplitudes, n - 1).sum(fx::size_of(amplitudes[n - 1]))
    }
}

/// What amplitudes are divided by.
pub open spec fn norm(amplitudes: Seq<Single>) -> Single {
    size_sum(amplitudes, amplitudes.len() as int).larger(Single::of_ratio(1, 1000000))
}

/// The sum of the first `k` partials at sample `i`.
pub open spec fn partial_sum(
    m: spec_fn(Curve) -> Single,
    e: EventModel,
    rate: u32,
    partials: Seq<Single>,
    amplitudes: Seq<Single>,
    i: int,
    k: int,
) -> Single
    decreases k,
{
    if k <= 0 {
        Single { bits: 0 }
    } else {
        partial_sum(m, e, rate, partials, amplitudes, i, k - 1).sum(
            amplitudes[k - 1].quotient(norm(amplitudes)).product(
                m(Curve::Sin(phase(m, e, rate, Some(partials[k - 1]), i))),
            ),
        )
    }
}

/// A sum of sines.
pub open spec fn partial_sums(
    m: spec_fn(Curve) -> Single,
    e: EventModel,
    rate: u32,
    partials: Seq<Single>,
    amplitudes: Seq<Single>,
    n: nat,
) -> Seq<Single> {
    Seq::new(n, |i: int| partial_sum(m, e, rate, partials, amplitudes, i, partials.len() as int))
}

/// The phase of a modulator at sample `i`.
pub open spec fn mod_phase(m: spec_fn(Curve) -> Single, e: EventModel, rate: u32, ratio: Single, i: int) -> Single
    decreases i,
{
    if i <= 0 {
        Single { bits: 0 }
    } else {
        wrapped(
            mod_phase(m, e, rate, ratio, i - 1).sum(
                (Single { bits: TAU }).product(freq_of(m, e, i - 1)).product(ratio).quotient(
                    Single::of_int(rate as int),
                ),
            ),
        )
    }
}

/// A sine whose phase another sine moves.
pub open spec fn modulated(
    m: spec_fn(Curve) -> Single,
    e: EventModel,
    rate: u32,
    ratio: Single,
    index: Single,
    n: nat,
) -> Seq<Single> {
    Seq::new(
        n,
        |i: int|
            m(
                Curve::Sin(
                    phase(m, e, rate, None, i).sum(
                        index.product(m(Curve::Sin(mod_phase(m, e, rate, ratio, i)))),
                    ),
                ),
            ),
    )
}

/// One step of the noise generator.
pub open spec fn shuffled(x: u64) -> u64 {
    let a = x ^ (x << 13);
    let b = a ^ (a >> 7);
    b ^ (b << 17)
}

/// The state of the noise generator after `n` steps.
pub open spec fn noise_state(seed: u64, n: int) -> u64
    decreases n,
{
    if n <= 0 {
        if seed == 0 {
            0xDEAD_BEEF_CAFE_BABE
        } else {
            seed
        }
    } else {
        shuffled(noise_state(seed, n - 1))
    }
}

/// The `i`th value of white noise, from -1 up to 1.
pub open spec fn noise_at(seed: u64, i: int) -> Single {
    Single::of_int((noise_state(seed, i + 1) >> 40) as int).quotient(Single::of_int(0x100_0000)).product(
        Single::of_int(2),
    ).difference(Single { bits: single::ONE })
}

/// What the noise of an event starts from.
pub open spec fn seed_of(t: u64) -> u64 {
    ((t + 0x9E37_79B9_7F4A_7C15) % 0x1_0000_0000_0000_0000) as u64
}

/// Noise through a bandpass.
pub open spec fn noise(m: spec_fn(Curve) -> Single, e: EventModel, rate: u32, q: Single, n: nat) -> Seq<Single> {
    dsp::bandpass_of(
        m,
        Single::of_int(rate as int),
        base(m, e, Single::of_int(1000)),
        q.larger(Single::of_ratio(1, 10)),
    ).filtered(Seq::new(n, |i: int| noise_at(seed_of(e.t), i)))
}

/// How far a sample moves with each step.
pub open spec fn stride(e: EventModel) -> Single {
    (match e.pitch_ratio {
        Some(r) => r,
        None => Single { bits: single::ONE },
    }).larger(Single::of_ratio(1, 1000))
}

/// The position in a sample at step `i`.
pub open spec fn position(e: EventModel, i: int) -> Double
    decreases i,
{
    if i <= 0 {
        Double { bits: 0 }
    } else {
        position(e, i - 1).sum(Double::of_single(stride(e)))
    }
}

/// The value between two neighbours, a part of the way from one to the other.
pub open spec fn between(a: Single, b: Single, part: Single) -> Single {
    a.product((Single { bits: single::ONE }).difference(part)).sum(b.product(part))
}

/// The part of a position behind its whole number.
pub open spec fn part(pos: Double) -> Single {
    if pos.finite() {
        pos.fraction().as_single()
    } else {
        Single { bits: 0 }
    }
}

/// The value of a sample that plays once, at a position.
pub open spec fn once_at(src: Seq<Single>, pos: Double) -> Single {
    let zero = Single { bits: 0 };
    let i = pos.floor() as int;
    if i + 1 < src.len() {
        between(src[i], src[i + 1], part(pos))
    } else if i < src.len() {
        between(src[i], zero, part(pos))
    } else {
        between(zero, zero, part(pos))
    }
}

/// The value of a sample that starts again at its end, at a position.
pub open spec fn looped_at(src: Seq<Single>, pos: Double) -> Single {
    let p = pos.remainder(Double::of_int(src.len() as int));
    let i = p.floor() as int;
    between(src[i % src.len() as int], src[(i + 1) % src.len() as int], part(p))
}

/// The length of a way forth and back.
pub open spec fn round_trip(len: nat) -> Double {
    Double::of_int(2).product(Double::of_int(len - 1))
}

/// The value of a sample that turns back at each end, at a position.
pub open spec fn bounced_at(src: Seq<Single>, pos: Double) -> Single {
    let last = src.len() - 1;
    let period = round_trip(src.len());
    let q = pos.remainder(period);
    let p = if q.at_most(Double::of_int(last)) {
        q
    } else {
        period.difference(q)
    };
    let i = p.floor() as int;
    between(
        src[if i <= last { i } else { last }],
        src[if i + 1 <= last { i + 1 } else { last }],
        part(p),
    )
}

/// The value of a sample at a position; not a number where the position is
/// beyond all numbers.
pub open spec fn sample_at(src: Seq<Single>, mode: SampleLoopMode, pos: Double) -> Single {
    if src.len() == 0 {
        Single { bits: 0 }
    } else if src.len() == 1 {
        src[0]
    } else if !pos.finite() {
        single::not_a_number()
    } else {
        match mode {
            SampleLoopMode::OneShot => once_at(src, pos),
            SampleLoopMode::Loop => looped_at(src, pos),
            SampleLoopMode::PingPong => if round_trip(src.len()).finite() && !round_trip(src.len()).zero() {
                bounced_at(src, pos)
            } else {
                single::not_a_number()
            },
        }
    }
}

/// A sample, played at the event's rate.
pub open spec fn sampled(e: EventModel, src: Seq<Single>, mode: SampleLoopMode, n: nat) -> Seq<Single> {
    Seq::new(n, |i: int| sample_at(src, mode, position(e, i)))
}

/// The raw sound of an event: `n` samples of its voice.
pub open spec fn voiced(
    m: spec_fn(Curve) -> Single,
    def: VoiceModel,
    e: EventModel,
    rate: u32,
    bank: Map<Seq<char>, Seq<Single>>,
    n: nat,
) -> Seq<Single> {
    match def {
        VoiceModel::Sine { .. } => sine(m, e, rate, n),
        VoiceModel::SinePartials { partials, amplitudes, .. } => partial_sums(
            m,
            e,
            rate,
            partials,
            amplitudes,
            n,
        ),
        VoiceModel::NoiseBandpass { q, .. } => noise(m, e, rate, q, n),
        VoiceModel::Fm { modulator_ratio, modulation_index, .. } => modulated(
            m,
            e,
            rate,
            modulator_ratio,
            modulation_index,
            n,
        ),
        VoiceModel::Sample { sample_id, loop_mode } => if bank.dom().contains(sample_id) {
            sampled(e, bank[sample_id], loop_mode, n)
        } else {
            Seq::new(n, |i: int| Single { bits: 0 })
        },
    }
}

/// The frequency of a pitch.
pub fn to_hertz<F: Fn(Curve) -> Single>(f: &F, pitch: Pitch) -> (r: Single)
    requires
        curve::accepts(*f),
    ensures
        forall|m: spec_fn(Curve) -> Single| #[trigger] curve::follows(*f, m) ==> r == hertz(m, pitch),
{
    match pitch {
        Pitch::Hz(hz) => hz,
        Pitch::Key(key) => {
            let octaves: Single = Single::from_int(key).minus(Single::from_int(69)).over(
                Single::from_int(12),
            );
            Single::from_int(440).times(take(f, Curve::Pow(Single::from_int(2), octaves)))
        },
    }
}

fn base_freq<F: Fn(Curve) -> Single>(f: &F, event: &Event, other: Single) -> (r: Single)
    requires
        curve::accepts(*f),
    ensures
        forall|m: spec_fn(Curve) -> Single| #[trigger]
            curve::follows(*f, m) ==> r == base(m, event@, other),
{
    match event.freq {
        Some(pitch) => to_hertz(f, pitch),
        None => other,
    }
}

/// The factor of a pitch envelope at a sample.
pub fn pitch_env_ratio<F: Fn(Curve) -> Single>(f: &F, p: &PitchEnv, i: u64) -> (r: Single)
    requires
        curve::accepts(*f),
    ensures
        forall|m: spec_fn(Curve) -> Single| #[trigger]
            curve::follows(*f, m) ==> r == env_ratio(m, *p, i as int),
{
    let total: u64 = if p.time_samples < 1 {
        1
    } else {
        p.time_samples
    };
    let at: u64 = if i <= total {
        i
    } else {
        total
    };
    let t: Single = Single::from_natural(at).over(Single::from_natural(total));
    match p.shape {
        PitchShape::Linear => p.from_ratio.plus(p.to_ratio.minus(p.from_ratio).times(t)),
        PitchShape::Exp => {
            let from: Single = p.from_ratio.max(Single::ratio(1, 1000));
            let to: Single = p.to_ratio.max(Single::ratio(1, 1000));
            from.times(take(f, Curve::Pow(to.over(from), t)))
        },
    }
}

/// The frequency of an event at a sample, given that of its pitch.
fn bent<F: Fn(Curve) -> Single>(f: &F, event: &Event, hz: Single, i: u64) -> (r: Single)
    requires
        curve::accepts(*f),
    ensures
        forall|m: spec_fn(Curve) -> Single| #[trigger]
            curve::follows(*f, m) && hz == base(m, event@, Single::of_int(440)) ==> r == freq_of(
                m,
                event@,
                i as int,
            ),
{
    match &event.pitch_env {
        None => hz,
        Some(p) => hz.times(pitch_env_ratio(f, p, i)),
    }
}

/// The frequency of an event at a sample.
pub fn freq_at<F: Fn(Curve) -> Single>(f: &F, event: &Event, i: u64) -> (r: Single)
    requires
        curve::accepts(*f),
    ensures
        forall|m: spec_fn(Curve) -> Single| #[trigger]
            curve::follows(*f, m) ==> r == freq_of(m, event@, i as int),
{
    let hz: Single = base_freq(f, event, Single::from_int(440));
    bent(f, event, hz, i)
}

fn wrap_tau(phase: Single) -> (r: Single)
    ensures
        r == wrapped(phase),
{
    let turn: Single = Single::of_bits(TAU);
    if turn.is_less(phase) {
        phase.minus(turn)
    } else {
        phase
    }
}

/// Renders a sine.
pub fn render_sine<F: Fn(Curve) -> Single>(event: &Event, sample_rate: u32, f: &F, out: &mut Vec<Single>)
    requires
        curve::accepts(*f),
    ensures
        final(out)@.len() == old(out)@.len(),
        forall|m: spec_fn(Curve) -> Single| #[trigger]
            curve::follows(*f, m) ==> final(out)@ == sine(m, event@, sample_rate, old(out)@.len()),
{
    let n: usize = out.len();
    let rate: Single = Single::from_natural(sample_rate as u64);
    let turn: Single = Single::of_bits(TAU);
    let hz: Single = base_freq(f, event, Single::from_int(440));
    let mut now: Single = Single::of_bits(0);
    let mut i: usize = 0;
    while i < n
        invariant
            i <= n,
            n == out@.len(),
            curve::accepts(*f),
            rate == Single::of_int(sample_rate as int),
            turn.bits == TAU,
            forall|m: spec_fn(Curve) -> Single| #[trigger]
                curve::follows(*f, m) ==> hz == base(m, event@, Single::of_int(440)) && now == phase(
                    m,
                    event@,
                    sample_rate,
                    None,
                    i as int,
                ),
            forall|m: spec_fn(Curve) -> Single, k: int|
                0 <= k < i && #[trigger] curve::follows(*f, m) ==> #[trigger] out@[k] == m(
                    Curve::Sin(phase(m, event@, sample_rate, None, k)),
                ),
        decreases n - i,
    {
        let y: Single = take(f, Curve::Sin(now));
        out.set(i, y);
        let g: Single = bent(f, event, hz, i as u64);
        now = wrap_tau(now.plus(turn.times(g).over(rate)));
        i = i + 1;
    }
    assert forall|m: spec_fn(Curve) -> Single| #[trigger] curve::follows(*f, m) implies out@ == sine(
        m,
        event@,
        sample_rate,
        n as nat,
    ) by {
        assert(out@ =~= sine(m, event@, sample_rate, n as nat));
    }
}

fn norm_of(amplitudes: &Vec<Single>) -> (r: Single)
    ensures
        r == norm(amplitudes@),
{
    let mut total: Single = Single::of_bits(0);
    let mut k: usize = 0;
    while k < amplitudes.len()
        invariant
            k <= amplitudes@.len(),
            total == size_sum(amplitudes@, k as int),
        decreases amplitudes.len() - k,
    {
        let a: Single = amplitudes[k];
        let size: Single = if a.is_negative() {
            a.negate()
        } else {
            a
        };
        total = total.plus(size);
        k = k + 1;
    }
    total.max(Single::ratio(1, 1000000))
}

/// Renders a sum of sines.
pub fn render_sine_partials<F: Fn(Curve) -> Single>(
    event: &Event,
    sample_rate: u32,
    partials: &Vec<Single>,
    amplitudes: &Vec<Single>,
    f: &F,
    out: &mut Vec<Single>,
)
    requires
        curve::accepts(*f),
        partials@.len() <= amplitudes@.len(),
    ensures
        final(out)@.len() == old(out)@.len(),
        forall|m: spec_fn(Curve) -> Single| #[trigger]
            curve::follows(*f, m) ==> final(out)@ == partial_sums(
                m,
                event@,
                sample_rate,
                partials@,
                amplitudes@,
                old(out)@.len(),
            ),
{
    let n: usize = out.len();
    let parts: usize = partials.len();
    let rate: Single = Single::from_natural(sample_rate as u64);
    let turn: Single = Single::of_bits(TAU);
    let scale: Single = norm_of(amplitudes);
    let hz: Single = base_freq(f, event, Single::from_int(440));
    let mut phases: Vec<Single> = Vec::new();
    let mut p: usize = 0;
    while p < parts
        invariant
            p <= parts,
            phases@.len() == p,
            forall|k: int| 0 <= k < p ==> (#[trigger] phases@[k]).bits == 0,
        decreases parts - p,
    {
        phases.push(Single::of_bits(0));
        p = p + 1;
    }
    let mut i: usize = 0;
    while i < n
        invariant
            i <= n,
            n == out@.len(),
            parts == partials@.len(),
            parts <= amplitudes@.len(),
            phases@.len() == parts,
            curve::accepts(*f),
            rate == Single::of_int(sample_rate as int),
            turn.bits == TAU,
            scale == norm(amplitudes@),
            forall|m: spec_fn(Curve) -> Single| #[trigger]
                curve::follows(*f, m) ==> hz == base(m, event@, Single::of_int(440)),
            forall|m: spec_fn(Curve) -> Single, k: int|
                0 <= k < parts && #[trigger] curve::follows(*f, m) ==> #[trigger] phases@[k] == phase(
                    m,
                    event@,
                    sample_rate,
                    Some(partials@[k]),
                    i as int,
                ),
            forall|m: spec_fn(Curve) -> Single, k: int|
                0 <= k < i && #[trigger] curve::follows(*f, m) ==> #[trigger] out@[k] == partial_sum(
                    m,
                    event@,
                    sample_rate,
                    partials@,
                    amplitudes@,
                    k,
                    parts as int,
                ),
        decreases n - i,
    {
        let fund: Single = bent(f, event, hz, i as u64);
        let mut total: Single = Single::of_bits(0);
        let mut k: usize = 0;
        while k < parts
            invariant
                k <= parts,
                parts == partials@.len(),
                parts <= amplitudes@.len(),
                phases@.len() == parts,
                curve::accepts(*f),
                rate == Single::of_int(sample_rate as int),
                turn.bits == TAU,
                scale == norm(amplitudes@),
                forall|m: spec_fn(Curve) -> Single| #[trigger]
                    curve::follows(*f, m) ==> fund == freq_of(m, event@, i as int) && total == partial_sum(
                        m,
                        event@,
                        sample_rate,
                        partials@,
                        amplitudes@,
                        i as int,
                        k as int,
                    ),
                forall|m: spec_fn(Curve) -> Single, j: int|
                    k <= j < parts && #[trigger] curve::follows(*f, m) ==> #[trigger] phases@[j] == phase(
                        m,
                        event@,
                        sample_rate,
                        Some(partials@[j]),
                        i as int,
                    ),
                forall|m: spec_fn(Curve) -> Single, j: int|
                    0 <= j < k && #[trigger] curve::follows(*f, m) ==> #[trigger] phases@[j] == phase(
                        m,
                        event@,
                        sample_rate,
                        Some(partials@[j]),
                        i + 1,
                    ),
            decreases parts - k,
        {
            let now: Single = phases[k];
            total = total.plus(amplitudes[k].over(scale).times(take(f, Curve::Sin(now))));
            let next: Single = wrap_tau(now.plus(turn.times(fund.times(partials[k])).over(rate)));
            phases.set(k, next);
            k = k + 1;
        }
        out.set(i, total);
        i = i + 1;
    }
    assert forall|m: spec_fn(Curve) -> Single| #[trigger] curve::follows(*f, m) implies out@ == partial_sums(
        m,
        event@,
        sample_rate,
        partials@,
        amplitudes@,
        n as nat,
    ) by {
        assert(out@ =~= partial_sums(m, event@, sample_rate, partials@, amplitudes@, n as nat));
    }
}

/// Renders a sine whose phase another sine moves: the modulator runs at
/// `modulator_ratio` times the carrier, and moves its phase by up to
/// `modulation_index` radians.
pub fn render_fm<F: Fn(Curve) -> Single>(
    event: &Event,
    sample_rate: u32,
    modulator_ratio: Single,
    modulation_index: Single,
    f: &F,
    out: &mut Vec<Single>,
)
    requires
        curve::accepts(*f),
    ensures
        final(out)@.len() == old(out)@.len(),
        forall|m: spec_fn(Curve) -> Single| #[trigger]
            curve::follows(*f, m) ==> final(out)@ == modulated(
                m,
                event@,
                sample_rate,
                modulator_ratio,
                modulation_index,
                old(out)@.len(),
            ),
{
    let n: usize = out.len();
    let rate: Single = Single::from_natural(sample_rate as u64);
    let turn: Single = Single::of_bits(TAU);
    let hz: Single = base_freq(f, event, Single::from_int(440));
    let mut carrier: Single = Single::of_bits(0);
    let mut modulator: Single = Single::of_bits(0);
    let mut i: usize = 0;
    while i < n
        invariant
            i <= n,
            n == out@.len(),
            curve::accepts(*f),
            rate == Single::of_int(sample_rate as int),
            turn.bits == TAU,
            forall|m: spec_fn(Curve) -> Single| #[trigger]
                curve::follows(*f, m) ==> {
                    &&& hz == base(m, event@, Single::of_int(440))
                    &&& carrier == phase(m, event@, sample_rate, None, i as int)
                    &&& modulator == mod_phase(m, event@, sample_rate, modulator_ratio, i as int)
                },
            forall|m: spec_fn(Curve) -> Single, k: int|
                0 <= k < i && #[trigger] curve::follows(*f, m) ==> #[trigger] out@[k] == m(
                    Curve::Sin(
                        phase(m, event@, sample_rate, None, k).sum(
                            modulation_index.product(
                                m(Curve::Sin(mod_phase(m, event@, sample_rate, modulator_ratio, k))),
                            ),
                        ),
                    ),
                ),
        decreases n - i,
    {
        let moved: Single = carrier.plus(modulation_index.times(take(f, Curve::Sin(modulator))));
        let y: Single = take(f, Curve::Sin(moved));
        out.set(i, y);
        let g: Single = turn.times(bent(f, event, hz, i as u64));
        carrier = wrap_tau(carrier.plus(g.over(rate)));
        modulator = wrap_tau(modulator.plus(g.times(modulator_ratio).over(rate)));
        i = i + 1;
    }
    assert forall|m: spec_fn(Curve) -> Single| #[trigger] curve::follows(*f, m) implies out@ == modulated(
        m,
        event@,
        sample_rate,
        modulator_ratio,
        modulation_index,
        n as nat,
    ) by {
        assert(out@ =~= modulated(
            m,
            event@,
            sample_rate,
            modulator_ratio,
            modulation_index,
            n as nat,
        ));
    }
}

/// A noise generator.
pub struct XorShift(pub u64);

impl XorShift {
    pub fn new(seed: u64) -> (r: Self)
        ensures
            r.0 == noise_state(seed, 0),
    {
        XorShift(
            if seed == 0 {
                0xDEAD_BEEF_CAFE_BABE
            } else {
                seed
            },
        )
    }

    pub fn next_u64(&mut self) -> (r: u64)
        ensures
            r == shuffled(old(self).0),
            final(self).0 == r,
    {
        let x: u64 = self.0;
        let a: u64 = x ^ (x << 13);
        let b: u64 = a ^ (a >> 7);
        let c: u64 = b ^ (b << 17);
        self.0 = c;
        c
    }

    /// A value from 0 up to 1.
    pub fn next_f32(&mut self) -> (r: Single)
        ensures
            r == Single::of_int((shuffled(old(self).0) >> 40) as int).quotient(Single::of_int(0x100_0000)),
            final(self).0 == shuffled(old(self).0),
    {
        let x: u64 = self.next_u64();
        Single::from_natural(x >> 40).over(Single::from_int(0x100_0000))
    }
}

/// Renders noise through a bandpass.
pub fn render_noise_bandpass<F: Fn(Curve) -> Single>(
    event: &Event,
    sample_rate: u32,
    q: Single,
    f: &F,
    out: &mut Vec<Single>,
)
    requires
        curve::accepts(*f),
    ensures
        final(out)@.len() == old(out)@.len(),
        forall|m: spec_fn(Curve) -> Single| #[trigger]
            curve::follows(*f, m) ==> final(out)@ == noise(m, event@, sample_rate, q, old(out)@.len()),
{
    let n: usize = out.len();
    let center: Single = base_freq(f, event, Single::from_int(1000));
    let filter: Biquad = Biquad::bandpass(
        f,
        Single::from_natural(sample_rate as u64),
        center,
        q.max(Single::ratio(1, 10)),
    );
    let seed: u64 = event.t.wrapping_add(0x9E37_79B9_7F4A_7C15);
    assert(seed == seed_of(event.t));
    let mut rng: XorShift = XorShift::new(seed);
    let two: Single = Single::from_int(2);
    let one: Single = Single::of_bits(single::ONE);
    let mut i: usize = 0;
    while i < n
        invariant
            i <= n,
            n == out@.len(),
            rng.0 == noise_state(seed, i as int),
            two == Single::of_int(2),
            one.bits == single::ONE,
            forall|k: int| 0 <= k < i ==> #[trigger] out@[k] == noise_at(seed, k),
        decreases n - i,
    {
        let x: Single = rng.next_f32();
        out.set(i, x.times(two).minus(one));
        i = i + 1;
    }
    assert(out@ =~= Seq::new(n as nat, |i: int| noise_at(seed, i)));
    fx::biquad(out, filter);
}

fn blend(a: Single, b: Single, part: Single) -> (r: Single)
    ensures
        r == between(a, b, part),
{
    a.times(Single::of_bits(single::ONE).minus(part)).plus(b.times(part))
}

/// The value of a sample at a position.
pub fn value_at(src: &Vec<Single>, mode: SampleLoopMode, pos: Double) -> (r: Single)
    ensures
        r == sample_at(src@, mode, pos),
{
    let len: usize = src.len();
    let zero: Single = Single::of_bits(0);
    if len == 0 {
        return zero;
    }
    if len == 1 {
        return src[0];
    }
    if !pos.is_finite() {
        return Single::of_bits(0x7fc0_0000);
    }
    match mode {
        SampleLoopMode::OneShot => {
            let i: u64 = pos.to_floor();
            let share: Single = pos.fract().to_single();
            if i >= len as u64 {
                blend(zero, zero, share)
            } else {
                let at: usize = i as usize;
                if at + 1 < len {
                    blend(src[at], src[at + 1], share)
                } else {
                    blend(src[at], zero, share)
                }
            }
        },
        SampleLoopMode::Loop => {
            let span: Double = Double::from_natural(len as u64);
            proof {
                double::lemma_natural_is_finite(len as u64);
            }
            let p: Double = pos.modulo(span);
            let i: u64 = p.to_floor();
            let share: Single = if p.is_finite() {
                p.fract().to_single()
            } else {
                Single::of_bits(0)
            };
            let at: usize = (i % len as u64) as usize;
            let next: usize = if at + 1 < len {
                at + 1
            } else {
                0
            };
            proof {
                fx::lemma_next_remainder(i as int, len as int);
            }
            blend(src[at], src[next], share)
        },
        SampleLoopMode::PingPong => {
            let last: u64 = len as u64 - 1;
            let end: Double = Double::from_natural(last);
            let period: Double = Double::from_natural(2).times(end);
            if !period.is_finite() || period.is_at_most(Double::of_bits(0)) && Double::of_bits(
                0,
            ).is_at_most(period) {
                return Single::of_bits(0x7fc0_0000);
            }
            let q: Double = pos.modulo(period);
            let p: Double = if q.is_at_most(end) {
                q
            } else {
                period.minus(q)
            };
            let i: u64 = p.to_floor();
            let share: Single = if p.is_finite() {
                p.fract().to_single()
            } else {
                Single::of_bits(0)
            };
            let at: u64 = if i <= last {
                i
            } else {
                last
            };
            let next: u64 = if i < last {
                i + 1
            } else {
                last
            };
            blend(src[at as usize], src[next as usize], share)
        },
    }
}

/// Renders a sample at the event's rate.
pub fn render_sample(event: &Event, src: &Vec<Single>, loop_mode: SampleLoopMode, out: &mut Vec<Single>)
    ensures
        final(out)@ == sampled(event@, src@, loop_mode, old(out)@.len()),
{
    let n: usize = out.len();
    let ratio: Single = match event.pitch_ratio {
        Some(r) => r,
        None => Single::of_bits(single::ONE),
    };
    let step: Double = Double::from_single(ratio.max(Single::ratio(1, 1000)));
    let mut pos: Double = Double::of_bits(0);
    let mut i: usize = 0;
    while i < n
        invariant
            i <= n,
            n == out@.len(),
            step == Double::of_single(stride(event@)),
            pos == position(event@, i as int),
            forall|k: int|
                0 <= k < i ==> #[trigger] out@[k] == sample_at(src@, loop_mode, position(event@, k)),
        decreases n - i,
    {
        let y: Single = value_at(src, loop_mode, pos);
        out.set(i, y);
        pos = pos.plus(step);
        i = i + 1;
    }
    assert(out@ =~= sampled(event@, src@, loop_mode, n as nat));
}

fn silence(out: &mut Vec<Single>)
    ensures
        final(out)@ == Seq::new(old(out)@.len(), |i: int| Single { bits: 0 }),
{
    let n: usize = out.len();
    let mut i: usize = 0;
    while i < n
        invariant
            i <= n,
            n == out@.len(),
            forall|k: int| 0 <= k < i ==> (#[trigger] out@[k]).bits == 0,
        decreases n - i,
    {
        out.set(i, Single::of_bits(0));
        i = i + 1;
    }
    assert(out@ =~= Seq::new(n as nat, |i: int| Single { bits: 0 }));
}

/// Renders the raw sound of an event.
pub fn render_voice<F: Fn(Curve) -> Single>(
    def: &VoiceDef,
    event: &Event,
    ctx: &VoiceCtx,
    f: &F,
    out: &mut Vec<Single>,
)
    requires
        curve::accepts(*f),
        def is SinePartials ==> def->partials@.len() <= def->amplitudes@.len(),
    ensures
        final(out)@.len() == old(out)@.len(),
        forall|m: spec_fn(Curve) -> Single| #[trigger]
            curve::follows(*f, m) ==> final(out)@ == voiced(
                m,
                def@,
                event@,
                ctx.sample_rate,
                ctx.bank.samples@,
                old(out)@.len(),
            ),
{
    match def {
        VoiceDef::Sine { default_pan: _ } => render_sine(event, ctx.sample_rate, f, out),
        VoiceDef::SinePartials { partials, amplitudes, default_pan: _ } => render_sine_partials(
            event,
            ctx.sample_rate,
            partials,
            amplitudes,
            f,
            out,
        ),
        VoiceDef::NoiseBandpass { q, default_pan: _ } => render_noise_bandpass(
            event,
            ctx.sample_rate,
            *q,
            f,
            out,
        ),
        VoiceDef::Fm { modulator_ratio, modulation_index, default_pan: _ } => render_fm(
            event,
            ctx.sample_rate,
            *modulator_ratio,
            *modulation_index,
            f,
            out,
        ),
        VoiceDef::Sample { sample_id, loop_mode } => match ctx.bank.samples.get(sample_id.as_str()) {
            Some(src) => render_sample(event, src, *loop_mode, out),
            None => silence(out),
        },
    }
}

proof fn lemma_phase_ignores_time(
    m: spec_fn(Curve) -> Single,
    e: EventModel,
    t: u64,
    rate: u32,
    factor: Option<Single>,
    ratio: Single,
    i: int,
)
    ensures
        phase(m, (EventModel { t, ..e }), rate, factor, i) == phase(m, e, rate, factor, i),
        mod_phase(m, (EventModel { t, ..e }), rate, ratio, i) == mod_phase(m, e, rate, ratio, i),
        position((EventModel { t, ..e }), i) == position(e, i),
    decreases i,
{
    if i > 0 {
        lemma_phase_ignores_time(m, e, t, rate, factor, ratio, i - 1);
        let moved: EventModel = EventModel { t, ..e };
        assert(freq_of(m, moved, i - 1) == freq_of(m, e, i - 1));
        assert(stride(moved) == stride(e));
    }
}

proof fn lemma_partials_ignore_time(
    m: spec_fn(Curve) -> Single,
    e: EventModel,
    t: u64,
    rate: u32,
    partials: Seq<Single>,
    amplitudes: Seq<Single>,
    i: int,
    k: int,
)
    ensures
        partial_sum(m, (EventModel { t, ..e }), rate, partials, amplitudes, i, k) == partial_sum(
            m,
            e,
            rate,
            partials,
            amplitudes,
            i,
            k,
        ),
    decreases k,
{
    if k > 0 {
        lemma_partials_ignore_time(m, e, t, rate, partials, amplitudes, i, k - 1);
        lemma_phase_ignores_time(m, e, t, rate, Some(partials[k - 1]), Single { bits: 0 }, i);
    }
}

/// Only noise depends on when an event comes.
pub proof fn lemma_voice_ignores_time(
    m: spec_fn(Curve) -> Single,
    def: VoiceModel,
    e: EventModel,
    t: u64,
    rate: u32,
    bank: Map<Seq<char>, Seq<Single>>,
    n: nat,
)
    requires
        !(def is NoiseBandpass),
    ensures
        voiced(m, def, (EventModel { t, ..e }), rate, bank, n) == voiced(m, def, e, rate, bank, n),
{
    let moved: EventModel = EventModel { t, ..e };
    let a: Seq<Single> = voiced(m, def, moved, rate, bank, n);
    let b: Seq<Single> = voiced(m, def, e, rate, bank, n);
    assert forall|i: int| 0 <= i < n implies a[i] == b[i] by {
        match def {
            VoiceModel::SinePartials { partials, amplitudes, .. } => {
                lemma_partials_ignore_time(
                    m,
                    e,
                    t,
                    rate,
                    partials,
                    amplitudes,
                    i,
                    partials.len() as int,
                );
            },
            VoiceModel::Fm { modulator_ratio, .. } => {
                lemma_phase_ignores_time(m, e, t, rate, None, modulator_ratio, i);
            },
            _ => {
                lemma_phase_ignores_time(m, e, t, rate, None, Single { bits: 0 }, i);
            },
        }
    }
    assert(a =~= b);
}

proof fn lemma_phase_is_no_negative_zero(m: spec_fn(Curve) -> Single, e: EventModel, rate: u32, i: int)
    ensures
        phase(m, e, rate, None, i).bits != single::SIGN,
        phase(m, e, rate, None, i).nan() ==> phase(m, e, rate, None, i) == single::not_a_number(),
    decreases i,
{
    if i > 0 {
        lemma_phase_is_no_negative_zero(m, e, rate, i - 1);
        let turn: Single = Single { bits: TAU };
        let before: Single = phase(m, e, rate, None, i - 1);
        let step: Single = turn.product(freq_of(m, e, i - 1)).quotient(Single::of_int(rate as int));
        single::lemma_sum_is_no_negative_zero(before, step);
        single::lemma_sum_is_no_negative_zero(before.sum(step), turn.negated());
    }
}

/// The phase of a modulator stays finite, however long it runs.
proof fn lemma_mod_phase_is_finite(m: spec_fn(Curve) -> Single, e: EventModel, rate: u32, ratio: Single, i: int)
    requires
        rate > 0,
        order::within_power(ratio, 50),
        forall|k: int| 0 <= k < i ==> order::within_power(#[trigger] freq_of(m, e, k), 50),
    ensures
        order::within_power(mod_phase(m, e, rate, ratio, i), 127),
    decreases i,
{
    let turn: Single = Single { bits: TAU };
    lemma2_to64();
    if i > 0 {
        lemma_mod_phase_is_finite(m, e, rate, ratio, i - 1);
        let f: Single = freq_of(m, e, i - 1);
        // a turn is less than eight
        rounding::lemma_scaled_at(24, 0x4100_0000, pow2(23), 129);
        lemma_pow2_adds(23, 129);
        rounding::lemma_scaled_monotone(24, TAU as nat, 0x4100_0000);
        assert(order::within_power(turn, 3));
        order::lemma_product_within_power(turn, f, 3, 50);
        order::lemma_product_within_power(turn.product(f), ratio, 53, 50);
        order::lemma_over_whole(turn.product(f).product(ratio), rate as int, 103);
        let step: Single = turn.product(f).product(ratio).quotient(Single::of_int(rate as int));
        let before: Single = mod_phase(m, e, rate, ratio, i - 1);
        order::lemma_small_step(before, step);
        if turn.less(before.sum(step)) {
            order::lemma_taken_away(before.sum(step), turn);
        }
    }
}

/// The pattern of `2^50`.
pub const LARGE: u32 = 0x5880_0000;

/// Whether a value is no larger than `2^50`, whatever its sign.
pub open spec fn moderate(x: Single) -> bool {
    x.magnitude() <= LARGE
}

proof fn lemma_moderate(x: Single)
    requires
        moderate(x),
    ensures
        order::within_power(x, 50),
{
    lemma2_to64();
    rounding::lemma_scaled_at(24, LARGE as nat, pow2(23), 176);
    lemma_pow2_adds(23, 176);
    if x.magnitude() < LARGE {
        rounding::lemma_scaled_monotone(24, x.magnitude(), LARGE as nat);
    }
}

/// Without a modulation index, a modulated sine is a plain one, on a machine
/// whose sine of a finite phase is finite. The frequency and the ratio are
/// not so large that their product could overflow.
pub proof fn law_fm_without_index_is_sine(
    m: spec_fn(Curve) -> Single,
    e: EventModel,
    rate: u32,
    ratio: Single,
    index: Single,
    pan: Single,
    bank: Map<Seq<char>, Seq<Single>>,
    n: nat,
)
    requires
        index.zero(),
        rate > 0,
        moderate(ratio),
        forall|k: int| 0 <= k < n ==> moderate(#[trigger] freq_of(m, e, k)),
        forall|x: Single| x.finite() ==> (#[trigger] m(Curve::Sin(x))).finite(),
    ensures
        modulated(m, e, rate, ratio, index, n) == sine(m, e, rate, n),
        voiced(
            m,
            (VoiceModel::Fm { modulator_ratio: ratio, modulation_index: index, default_pan: pan }),
            e,
            rate,
            bank,
            n,
        ) == voiced(m, (VoiceModel::Sine { default_pan: pan }), e, rate, bank, n),
{
    let made: Seq<Single> = modulated(m, e, rate, ratio, index, n);
    let plain: Seq<Single> = sine(m, e, rate, n);
    lemma_moderate(ratio);
    assert forall|k: int| 0 <= k < n implies order::within_power(#[trigger] freq_of(m, e, k), 50) by {
        lemma_moderate(freq_of(m, e, k));
    }
    assert forall|i: int| 0 <= i < n implies made[i] == plain[i] by {
        let p: Single = phase(m, e, rate, None, i);
        let s: Single = m(Curve::Sin(mod_phase(m, e, rate, ratio, i)));
        lemma_mod_phase_is_finite(m, e, rate, ratio, i);
        lemma_phase_is_no_negative_zero(m, e, rate, i);
        single::lemma_zero_times(index, s);
        if p.nan() {
            reveal(Single::sum);
        } else {
            single::lemma_adding_zero(p, index.product(s));
        }
    }
    assert(made =~= plain);
}

/// The same of an event with one frequency throughout.
pub proof fn law_steady_fm_without_index_is_sine(
    m: spec_fn(Curve) -> Single,
    e: EventModel,
    freq: Single,
    rate: u32,
    ratio: Single,
    index: Single,
    pan: Single,
    bank: Map<Seq<char>, Seq<Single>>,
    n: nat,
)
    requires
        index.zero(),
        rate > 0,
        moderate(ratio),
        e.freq == Some(Pitch::Hz(freq)),
        e.pitch_env is None,
        moderate(freq),
        forall|x: Single| x.finite() ==> (#[trigger] m(Curve::Sin(x))).finite(),
    ensures
        voiced(
            m,
            (VoiceModel::Fm { modulator_ratio: ratio, modulation_index: index, default_pan: pan }),
            e,
            rate,
            bank,
            n,
        ) == voiced(m, (VoiceModel::Sine { default_pan: pan }), e, rate, bank, n),
{
    law_fm_without_index_is_sine(m, e, rate, ratio, index, pan, bank, n);
}

/// After the time of a pitch envelope its factor no longer changes.
pub proof fn law_pitch_stays_after_envelope(m: spec_fn(Curve) -> Single, p: PitchEnv, i: int, j: int)
    requires
        p.time_samples <= i,
        1 <= i <= j,
    ensures
        env_ratio(m, p, i) == env_ratio(m, p, j),
{
}

} // verus!
