//! How a sound is made, step by step: its pitch, its phase, its effects, its
//! fades and its place in the mix.

use vstd::prelude::*;
use vstd::arithmetic::power2::*;

use crate::closeness;
use crate::closeness::{gap, whole};
use crate::curve::Curve;
use crate::dsp;
use crate::envelope;
use crate::fx;
use crate::mixer;
use crate::order;
use crate::piece::{EventModel, FxNode, Pitch, PitchEnv, PitchShape, VoiceModel};
use crate::response;
use crate::rounding;
use crate::single;
use crate::single::Single;
use crate::timing;
use crate::voice;

verus! {

/// A reduced rate takes a value at every `factor`th sample, and holds it until
/// the next.
pub proof fn law_reduced_rate_holds(m: spec_fn(Curve) -> Single, s: Seq<Single>, rate: u32, factor: u32, i: int)
    requires
        0 <= i < s.len(),
    ensures
        ({
            let out = fx::effect(FxNode::SampleRateReduce { factor }, m, s, rate);
            &&& out.len() == s.len()
            &&& factor == 0 || i % (factor as int) == 0 ==> out[i] == s[i]
            &&& factor > 0 && i % (factor as int) != 0 ==> out[i] == out[i - 1]
        }),
{
    if factor > 1 {
        let f: int = factor as int;
        if i % f != 0 {
            vstd::arithmetic::div_mod::lemma_fundamental_div_mod(i, f);
            vstd::arithmetic::div_mod::lemma_fundamental_div_mod_converse(i - 1, f, i / f, i % f - 1);
        }
    } else if factor == 1 {
        assert(i % 1 == 0);
    }
}

/// A reversed buffer plays from its end.
pub proof fn law_reverse_plays_from_the_end(m: spec_fn(Curve) -> Single, s: Seq<Single>, rate: u32, i: int)
    requires
        0 <= i < s.len(),
    ensures
        fx::effect(FxNode::Reverse, m, s, rate)[i] == s[s.len() - 1 - i],
{
}

/// A stutter starts with the first slice as it is.
pub proof fn law_stutter_starts_with_its_slice(
    m: spec_fn(Curve) -> Single,
    s: Seq<Single>,
    rate: u32,
    slice_samples: u64,
    repeats: u32,
    i: int,
)
    requires
        0 <= i < s.len(),
    ensures
        ({
            let out = fx::effect(FxNode::Stutter { slice_samples, repeats }, m, s, rate);
            &&& out.len() == s.len()
            &&& i < slice_samples || slice_samples == 0 || repeats == 0 ==> out[i] == s[i]
            &&& repeats > 0 && slice_samples <= i < slice_samples * repeats ==> out[i] == out[i - slice_samples]
            &&& i >= slice_samples * repeats ==> out[i] == s[i]
        }),
{
    let out: Seq<Single> = fx::stuttered(s, slice_samples, repeats);
    if slice_samples > 0 && repeats > 0 {
        fx::law_stutter_repeats(s, slice_samples, repeats, i);
        if i < slice_samples {
            let slice: int = fx::lesser(slice_samples as int, s.len() as int);
            assert(i < slice);
            assert(i % slice == i) by {
                vstd::arithmetic::div_mod::lemma_small_mod(i as nat, slice as nat);
            }
        }
    }
}

/// A comb adds what it gave out `delay` samples before, times its feedback; a
/// feedback beyond 0.99 is brought back to it.
pub proof fn law_comb_feeds_back(
    m: spec_fn(Curve) -> Single,
    s: Seq<Single>,
    rate: u32,
    delay_samples: u64,
    feedback: Single,
    i: int,
)
    requires
        0 <= i < s.len(),
        delay_samples > 0,
        feedback.finite(),
    ensures
        ({
            let out = fx::effect(FxNode::CombDelay { delay_samples, feedback }, m, s, rate);
            &&& out.len() == s.len()
            &&& exists|g: Single|
                out[i] == s[i].sum(#[trigger] g.product(response::back(out, i, delay_samples as int))) && is_feedback(
                    g,
                    feedback,
                )
        }),
{
    let g: Single = feedback.clamped(Single::of_ratio(-99, 100), Single::of_ratio(99, 100));
    let out: Seq<Single> = fx::combed(s, delay_samples, feedback);
    assert(out[i] == s[i].sum(g.product(response::back(out, i, delay_samples as int))));
    lemma_feedback(feedback);
}

/// Whether a feedback is another, kept within 0.99.
pub open spec fn is_feedback(g: Single, feedback: Single) -> bool {
    &&& g.finite()
    &&& 0x100_0000 * (100 * gap(g.units()) - 99 * whole()) <= 4 * (99 * whole())
    &&& 0x100_0000 * (100 * gap(feedback.units()) - 99 * whole()) < -(4 * (99 * whole())) ==> g == feedback
    &&& 0x100_0000 * (100 * gap(feedback.units()) - 99 * whole()) > 4 * (99 * whole()) ==> closeness::about(
        g,
        if feedback.negative() { -99 } else { 99 },
        100,
        4,
    )
}

proof fn lemma_feedback(feedback: Single)
    requires
        feedback.finite(),
    ensures
        is_feedback(feedback.clamped(Single::of_ratio(-99, 100), Single::of_ratio(99, 100)), feedback),
{
    reveal(Single::of_ratio);
    closeness::lemma_whole();
    closeness::lemma_share(99, 100);
    order::lemma_of_int_size(-99);
    order::lemma_of_int_size(99);
    order::lemma_of_int_finite(99);
    order::lemma_of_int_finite(100);
    let high: Single = Single::of_ratio(99, 100);
    let low: Single = Single::of_ratio(-99, 100);
    assert(Single::of_int(-99) == Single::of_int(99).negated()) by {
        single::lemma_same_size(Single::of_int(-99), Single::of_int(99).negated());
    }
    assert(low == high.negated()) by {
        reveal(Single::quotient);
    }
    assert(gap(99) * whole() == 99 * whole() && gap(-99) * whole() == 99 * whole());
    single::lemma_less_is_by_value(feedback, low);
    single::lemma_less_is_by_value(high, feedback);
}

/// The effects of a chain follow each other: one more makes of a buffer what it
/// makes of what the others have made.
pub proof fn law_chain_goes_on(
    m: spec_fn(Curve) -> Single,
    fx: Seq<FxNode>,
    node: FxNode,
    s: Seq<Single>,
    rate: u32,
)
    ensures
        fx::chained(Seq::empty(), m, s, rate, 0) == s,
        fx::chained(fx.push(node), m, s, rate, (fx.len() + 1) as int) == fx::effect(
            node,
            m,
            fx::chained(fx, m, s, rate, fx.len() as int),
            rate,
        ),
{
    lemma_chain(m, fx, node, s, rate, fx.len() as int);
}

proof fn lemma_chain(m: spec_fn(Curve) -> Single, fx: Seq<FxNode>, node: FxNode, s: Seq<Single>, rate: u32, n: int)
    requires
        0 <= n <= fx.len(),
    ensures
        fx::chained(fx.push(node), m, s, rate, n) == fx::chained(fx, m, s, rate, n),
    decreases n,
{
    if n > 0 {
        lemma_chain(m, fx, node, s, rate, n - 1);
        assert(fx.push(node)[n - 1] == fx[n - 1]);
    }
}

/// Whether `x` is so many semitones, in octaves.
pub open spec fn is_octaves(x: Single, semitones: int) -> bool {
    x.finite() && 0x100_0000 * gap(12 * x.units() - semitones * whole()) <= 4 * (gap(semitones) * whole())
        + 0x800_0000
}

/// Key 69 is at 440 Hz, and twelve keys are an octave.
pub proof fn law_keys_are_tempered(m: spec_fn(Curve) -> Single, key: i64)
    requires
        -0x80_0000 < key < 0x80_0000,
    ensures
        exists|x: Single|
            #[trigger] is_octaves(x, key - 69) && voice::hertz(m, Pitch::Key(key)) == Single::of_int(440).product(
                m(Curve::Pow(Single::of_int(2), x)),
            ),
{
    closeness::lemma_whole();
    let u: int = whole();
    let k: Single = Single::of_int(key as int);
    closeness::lemma_of_int(key as int);
    closeness::lemma_of_int(69);
    closeness::lemma_of_int(12);
    let n: Single = Single::of_int(69).negated();
    assert(n.finite() && n.units() == -(69 * u));
    let d: Single = k.difference(Single::of_int(69));
    assert(order::within_power(k, 65) && order::within_power(n, 65)) by {
        lemma_size(key as int);
        lemma_size(69);
        assert(n.size() == Single::of_int(69).size());
    }
    order::lemma_sum_within_power(k, n, 65);
    closeness::lemma_sum(k, n);
    let t: int = key - 69;
    assert(k.units() + n.units() == t * u) by (nonlinear_arith)
        requires
            k.units() == key * u,
            n.units() == -(69 * u),
            t == key - 69,
    ;
    closeness::lemma_gap_product(t, u);
    order::lemma_over_whole(d, 12, 66);
    let x: Single = d.quotient(Single::of_int(12));
    closeness::lemma_quotient(d, Single::of_int(12));
    let e: int = 12 * x.units() - d.units();
    assert(x.units() * (12 * u) - d.units() * u == e * u) by (nonlinear_arith)
        requires
            e == 12 * x.units() - d.units(),
    ;
    closeness::lemma_gap_product(e, u);
    assert(0x100_0000 * gap(e) <= gap(d.units()) + 0x80_0000 * 12) by (nonlinear_arith)
        requires
            0x100_0000 * (gap(e) * u) <= gap(d.units()) * u + 0x80_0000 * (12 * u),
            u > 0,
    ;
    assert(is_octaves(x, t));
}

pub proof fn lemma_size(n: int)
    requires
        -0x80_0000 < n < 0x80_0000,
    ensures
        order::within_power(Single::of_int(n), 65),
{
    let m: int = gap(n);
    order::lemma_whole_bound(m);
    order::lemma_of_int_size(n);
    order::lemma_of_int_size(m);
    order::lemma_of_int_finite(n);
}

/// A frequency is taken as it is; without one an event plays at 440 Hz. A pitch
/// envelope multiplies it.
pub proof fn law_pitch_of_an_event(m: spec_fn(Curve) -> Single, e: EventModel, i: int)
    ensures
        e.pitch_env is None && e.freq is None ==> voice::freq_of(m, e, i) == Single::of_int(440),
        e.pitch_env is None && e.freq is Some && e.freq->0 is Hz ==> voice::freq_of(m, e, i) == e.freq->0->Hz_0,
        e.pitch_env is Some ==> voice::freq_of(m, e, i) == voice::freq_of(
            m,
            (EventModel { pitch_env: None, ..e }),
            i,
        ).product(voice::env_ratio(m, e.pitch_env->0, i)),
{
}

/// A linear pitch envelope goes evenly from its first ratio to its last.
pub proof fn law_linear_sweep_is_even(m: spec_fn(Curve) -> Single, p: PitchEnv, i: int)
    requires
        p.shape == PitchShape::Linear,
        order::within_power(p.from_ratio, 100),
        order::within_power(p.to_ratio, 100),
        0 <= i <= p.time_samples,
        p.time_samples > 0,
    ensures
        closeness::on_the_way(voice::env_ratio(m, p, i), p.from_ratio, p.to_ratio, i, p.time_samples as int),
{
    closeness::lemma_between(p.from_ratio, p.to_ratio, i, p.time_samples as int);
}

/// An exponential pitch envelope is its first ratio times a power of the way it
/// has to go, which grows evenly from nothing to one.
pub proof fn law_exponential_sweep_is_a_power(m: spec_fn(Curve) -> Single, p: PitchEnv, i: int)
    requires
        p.shape == PitchShape::Exp,
        Single::of_ratio(1, 1000).at_most(p.from_ratio),
        Single::of_ratio(1, 1000).at_most(p.to_ratio),
        0 <= i <= p.time_samples,
        p.time_samples > 0,
    ensures
        exists|t: Single|
            #[trigger] closeness::about(t, i, p.time_samples as int, 4) && voice::env_ratio(m, p, i)
                == p.from_ratio.product(m(Curve::Pow(p.to_ratio.quotient(p.from_ratio), t))),
{
    closeness::lemma_share(i, p.time_samples as int);
    let t: Single = Single::of_int(i).quotient(Single::of_int(p.time_samples as int));
    assert(closeness::about(t, i, p.time_samples as int, 4));
}

/// The phase of a sine starts at nothing, and turns with every sample by the
/// angle of its frequency; beyond a whole turn it comes back by one.
pub proof fn law_phase_turns(m: spec_fn(Curve) -> Single, e: EventModel, rate: u32, i: int)
    requires
        i >= 0,
        rate > 0,
        timing::ordinary(voice::freq_of(m, e, i)),
    ensures
        voice::phase(m, e, rate, None, 0).bits == 0,
        exists|w: Single|
            #[trigger] response::is_angle(w, voice::freq_of(m, e, i), rate as int) && ({
                let turned = voice::phase(m, e, rate, None, i).sum(w);
                let next = voice::phase(m, e, rate, None, i + 1);
                if (Single { bits: dsp::TAU }).less(turned) {
                    next == turned.difference(Single { bits: dsp::TAU })
                } else {
                    next == turned
                }
            }),
{
    let f: Single = voice::freq_of(m, e, i);
    response::lemma_angle(rate, f);
    assert(response::is_angle(dsp::angle(Single::of_int(rate as int), f), f, rate as int));
}

/// A sine voice gives out the sine of its phase.
pub proof fn law_sine_follows_its_phase(
    m: spec_fn(Curve) -> Single,
    pan: Single,
    e: EventModel,
    rate: u32,
    bank: Map<Seq<char>, Seq<Single>>,
    n: nat,
    i: int,
)
    requires
        0 <= i < n,
    ensures
        ({
            let out = voice::voiced(m, (VoiceModel::Sine { default_pan: pan }), e, rate, bank, n);
            out.len() == n && out[i] == m(Curve::Sin(voice::phase(m, e, rate, None, i)))
        }),
{
}

/// How long the fades of `n` samples are: a 400th of a second, at least one
/// sample and at most half of them.
pub open spec fn is_fade(fade: int, n: int, rate: int) -> bool {
    &&& 400 * fade <= rate || fade == 1
    &&& 2 * fade <= n
    &&& rate < 400 * (fade + 1) || n < 2 * (fade + 1)
}

/// A sound fades in and out evenly: `i` samples from either end its gain is
/// `i` and a half over the length of the fade, and between the fades nothing is
/// changed.
pub proof fn law_sound_fades_evenly(s: Seq<Single>, rate: u32, i: int)
    requires
        s.len() >= 4,
        0 <= i < s.len(),
    ensures
        ({
            let n = s.len() as int;
            let out = mixer::declicked(s, rate);
            let from_end = if i < n - 1 - i { i } else { n - 1 - i };
            &&& out.len() == n
            &&& exists|fade: int|
                #[trigger] is_fade(fade, n, rate as int) && if from_end < fade {
                    exists|g: Single|
                        out[i] == #[trigger] s[i].product(g) && closeness::about(g, 2 * from_end + 1, 2 * fade, 3)
                } else {
                    out[i] == s[i]
                }
        }),
{
    let n: int = s.len() as int;
    let fade: int = mixer::fade_length(n, rate);
    let from_end: int = if i < n - 1 - i { i } else { n - 1 - i };
    assert(is_fade(fade, n, rate as int));
    let out: Seq<Single> = mixer::declicked(s, rate);
    if from_end < fade {
        lemma_fade(from_end, fade);
        let g: Single = mixer::fade_gain(from_end, fade);
        assert(out[i] == s[i].product(g));
    }
}

proof fn lemma_fade(i: int, fade: int)
    requires
        0 <= i < fade < 0x100_0000,
    ensures
        closeness::about(mixer::fade_gain(i, fade), 2 * i + 1, 2 * fade, 3),
{
    closeness::lemma_whole();
    lemma2_to64();
    let u: int = whole();
    let half: Single = Single { bits: mixer::HALF };
    rounding::lemma_scaled_at(24, mixer::HALF as nat, pow2(23), 125);
    lemma_pow2_adds(23, 125);
    lemma_pow2_unfold(149);
    assert(2 * half.units() == u);
    closeness::lemma_of_int(i);
    order::lemma_whole_bound(i);
    order::lemma_one_within_power(half, 65);
    let a: Single = Single::of_int(i);
    order::lemma_sum_within_power(a, half, 65);
    closeness::lemma_sum(a, half);
    let x: Single = a.sum(half);
    assert(2 * (a.units() + half.units()) == (2 * i + 1) * u) by (nonlinear_arith)
        requires
            a.units() == i * u,
            2 * half.units() == u,
    ;
    assert(gap(2 * i + 1) * u == (2 * i + 1) * u);
    assert((2 * i + 1) * u >= u) by (nonlinear_arith)
        requires
            i >= 0,
            u > 0,
    ;
    assert(closeness::about(x, 2 * i + 1, 2, 1));
    lemma_pow2_strictly_increases(149 + 66, 149 + 100);
    closeness::lemma_over(x, 2 * i + 1, 2, 1, fade);
}

/// The sound of an event lies in the mix from its time on: its left share is
/// added to the even values, and its right share to the odd ones.
pub proof fn law_event_is_added_in_its_place(
    master: Seq<Single>,
    m: spec_fn(Curve) -> Single,
    def: VoiceModel,
    e: EventModel,
    rate: u32,
    bank: Map<Seq<char>, Seq<Single>>,
    i: int,
)
    requires
        0 <= i < e.dur,
        2 * (e.t + i) + 1 < master.len(),
    ensures
        ({
            let out = mixer::with_event(master, m, def, e, rate, bank);
            let s = mixer::sound(m, def, e, rate, bank);
            let (left, right) = mixer::gains(m, e.pan);
            let at = 2 * (e.t + i);
            &&& out.len() == master.len()
            &&& s.len() == e.dur
            &&& out[at] == master[at].sum(s[i].product(left))
            &&& out[at + 1] == master[at + 1].sum(s[i].product(right))
        }),
{
    mixer::law_sound_length(m, def, e, rate, bank);
    let at: int = 2 * (e.t + i);
    assert(at / 2 - e.t == i && (at + 1) / 2 - e.t == i && at % 2 == 0 && (at + 1) % 2 == 1);
}

/// The mix is limited to `[-1, 1]`, and left as it is inside.
pub proof fn law_limit_keeps_what_fits(m: spec_fn(Curve) -> Single, x: Single)
    requires
        x.finite(),
    ensures
        ({
            let y = mixer::limited(x);
            &&& gap(x.units()) <= whole() ==> y == x
            &&& x.units() > whole() ==> y.units() == whole()
            &&& x.units() < -whole() ==> y.units() == -whole()
        }),
{
    closeness::lemma_whole();
    single::lemma_less_is_by_value(x, Single { bits: single::MINUS_ONE });
    single::lemma_less_is_by_value(Single { bits: single::ONE }, x);
}

/// A sound is as loud as its event says: between its fades it is the sound of
/// the event at full loudness, times its own.
pub proof fn law_loudness_scales_the_sound(
    m: spec_fn(Curve) -> Single,
    def: VoiceModel,
    e: EventModel,
    rate: u32,
    bank: Map<Seq<char>, Seq<Single>>,
    i: int,
)
    requires
        e.dur >= 4,
        mixer::fade_length(e.dur as int, rate) <= i < e.dur - mixer::fade_length(e.dur as int, rate),
        0 <= i,
    ensures
        ({
            let full = mixer::sound(m, def, (EventModel { amp: Single { bits: single::ONE }, ..e }), rate, bank);
            let own = mixer::sound(m, def, e, rate, bank);
            full[i].finite() ==> own[i] == full[i].product(e.amp)
        }),
{
    let loud: EventModel = EventModel { amp: Single { bits: single::ONE }, ..e };
    lemma_voice_ignores_loudness(m, def, e, loud.amp, rate, bank, e.dur as nat);
    mixer::law_sound_length(m, def, e, rate, bank);
    mixer::law_sound_length(m, def, loud, rate, bank);
    let raw: Seq<Single> = voice::voiced(m, def, e, rate, bank, e.dur as nat);
    let shaped: Seq<Single> = envelope::enveloped(e.envelope, m, raw);
    let treated: Seq<Single> = fx::chained(e.fx, m, shaped, rate, e.fx.len() as int);
    let own: Seq<Single> = mixer::sound(m, def, e, rate, bank);
    let full: Seq<Single> = mixer::sound(m, def, loud, rate, bank);
    assert(own[i] == treated[i].product(e.amp));
    assert(full[i] == treated[i].product(loud.amp));
    if full[i].finite() {
        response::lemma_factors(treated[i], loud.amp);
        single::lemma_times_one(treated[i]);
    }
}

/// The voice of an event does not depend on its loudness.
proof fn lemma_voice_ignores_loudness(
    m: spec_fn(Curve) -> Single,
    def: VoiceModel,
    e: EventModel,
    amp: Single,
    rate: u32,
    bank: Map<Seq<char>, Seq<Single>>,
    n: nat,
)
    ensures
        voice::voiced(m, def, (EventModel { amp, ..e }), rate, bank, n) == voice::voiced(m, def, e, rate, bank, n),
{
    let o: EventModel = EventModel { amp, ..e };
    assert forall|i: int| #[trigger] voice::freq_of(m, o, i) == voice::freq_of(m, e, i) by {}
    assert forall|f: Option<Single>, i: int| #[trigger] voice::phase(m, o, rate, f, i) == voice::phase(
        m,
        e,
        rate,
        f,
        i,
    ) by {
        lemma_phase_alike(m, o, e, rate, f, i);
    }
    assert forall|r: Single, i: int| #[trigger] voice::mod_phase(m, o, rate, r, i) == voice::mod_phase(
        m,
        e,
        rate,
        r,
        i,
    ) by {
        lemma_mod_phase_alike(m, o, e, rate, r, i);
    }
    assert forall|i: int| #[trigger] voice::position(o, i) == voice::position(e, i) by {
        lemma_position_alike(o, e, i);
    }
    match def {
        VoiceModel::SinePartials { partials, amplitudes, .. } => {
            assert forall|i: int, k: int|
                k <= partials.len() implies #[trigger] voice::partial_sum(m, o, rate, partials, amplitudes, i, k)
                == voice::partial_sum(m, e, rate, partials, amplitudes, i, k) by {
                lemma_partials_alike(m, o, e, rate, partials, amplitudes, i, k);
            }
            assert(voice::partial_sums(m, o, rate, partials, amplitudes, n) =~= voice::partial_sums(
                m,
                e,
                rate,
                partials,
                amplitudes,
                n,
            ));
        },
        VoiceModel::Sine { .. } => {
            assert(voice::sine(m, o, rate, n) =~= voice::sine(m, e, rate, n));
        },
        VoiceModel::NoiseBandpass { .. } => {},
        VoiceModel::Fm { modulator_ratio, modulation_index, .. } => {
            assert(voice::modulated(m, o, rate, modulator_ratio, modulation_index, n) =~= voice::modulated(
                m,
                e,
                rate,
                modulator_ratio,
                modulation_index,
                n,
            ));
        },
        VoiceModel::Sample { sample_id, loop_mode } => {
            if bank.dom().contains(sample_id) {
                assert(voice::sampled(o, bank[sample_id], loop_mode, n) =~= voice::sampled(
                    e,
                    bank[sample_id],
                    loop_mode,
                    n,
                ));
            }
        },
    }
}

proof fn lemma_phase_alike(m: spec_fn(Curve) -> Single, o: EventModel, e: EventModel, rate: u32, f: Option<Single>, i: int)
    requires
        o == (EventModel { amp: o.amp, ..e }),
    ensures
        voice::phase(m, o, rate, f, i) == voice::phase(m, e, rate, f, i),
    decreases i,
{
    if i > 0 {
        lemma_phase_alike(m, o, e, rate, f, i - 1);
        assert(voice::freq_of(m, o, i - 1) == voice::freq_of(m, e, i - 1));
    }
}

proof fn lemma_mod_phase_alike(m: spec_fn(Curve) -> Single, o: EventModel, e: EventModel, rate: u32, r: Single, i: int)
    requires
        o == (EventModel { amp: o.amp, ..e }),
    ensures
        voice::mod_phase(m, o, rate, r, i) == voice::mod_phase(m, e, rate, r, i),
    decreases i,
{
    if i > 0 {
        lemma_mod_phase_alike(m, o, e, rate, r, i - 1);
        assert(voice::freq_of(m, o, i - 1) == voice::freq_of(m, e, i - 1));
    }
}

proof fn lemma_position_alike(o: EventModel, e: EventModel, i: int)
    requires
        o == (EventModel { amp: o.amp, ..e }),
    ensures
        voice::position(o, i) == voice::position(e, i),
    decreases i,
{
    if i > 0 {
        lemma_position_alike(o, e, i - 1);
    }
}

proof fn lemma_partials_alike(
    m: spec_fn(Curve) -> Single,
    o: EventModel,
    e: EventModel,
    rate: u32,
    partials: Seq<Single>,
    amplitudes: Seq<Single>,
    i: int,
    k: int,
)
    requires
        o == (EventModel { amp: o.amp, ..e }),
    ensures
        voice::partial_sum(m, o, rate, partials, amplitudes, i, k) == voice::partial_sum(
            m,
            e,
            rate,
            partials,
            amplitudes,
            i,
            k,
        ),
    decreases k,
{
    if k > 0 {
        lemma_partials_alike(m, o, e, rate, partials, amplitudes, i, k - 1);
        lemma_phase_alike(m, o, e, rate, Some(partials[k - 1]), i);
    }
}

/// The effects of an event come after its envelope, and its loudness and fades
/// after its effects: a reversed event is its enveloped voice from the end.
pub proof fn law_effects_come_after_the_envelope(
    m: spec_fn(Curve) -> Single,
    def: VoiceModel,
    e: EventModel,
    rate: u32,
    bank: Map<Seq<char>, Seq<Single>>,
    i: int,
)
    requires
        e.fx == seq![FxNode::Reverse],
        e.dur >= 4,
        mixer::fade_length(e.dur as int, rate) <= i < e.dur - mixer::fade_length(e.dur as int, rate),
        0 <= i,
    ensures
        mixer::sound(m, def, e, rate, bank)[i] == envelope::enveloped(
            e.envelope,
            m,
            voice::voiced(m, def, e, rate, bank, e.dur as nat),
        )[e.dur - 1 - i].product(e.amp),
{
    mixer::law_sound_length(m, def, e, rate, bank);
    let raw: Seq<Single> = voice::voiced(m, def, e, rate, bank, e.dur as nat);
    let shaped: Seq<Single> = envelope::enveloped(e.envelope, m, raw);
    assert(e.fx.len() == 1 && e.fx[0] == FxNode::Reverse);
    reveal_with_fuel(fx::chained, 2);
    let treated: Seq<Single> = fx::chained(e.fx, m, shaped, rate, 1);
    assert(treated == shaped.reverse());
    let loud: Seq<Single> = mixer::amplified(treated, e.amp);
    assert(mixer::sound(m, def, e, rate, bank) == mixer::declicked(loud, rate));
    assert(loud.len() == e.dur);
}

} // verus!
