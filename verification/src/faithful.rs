//! Samples played at their own rate.
//!
//! A sliced file that is rendered straight back is the file again, but for its
//! level and the fades at the edges of its slices.

use vstd::prelude::*;
use vstd::arithmetic::div_mod::*;
use vstd::arithmetic::power2::*;

use crate::accuracy;
use crate::curve::Curve;
use crate::double;
use crate::double::Double;
use crate::envelope;
use crate::gapless;
use crate::mixer;
use crate::piece::{Envelope, EventModel, PieceModel, SampleLoopMode, VoiceModel};
use crate::rounding;
use crate::sample::LoadFault;
use crate::single;
use crate::single::Single;
use crate::slice;
use crate::slice::SliceOpts;
use crate::voice;
use crate::wav;
use crate::wav::UnsupportedBits;

verus! {

/// Two values are the same number; zeros are, whatever their signs.
pub open spec fn same(a: Single, b: Single) -> bool {
    a == b || (a.zero() && b.zero())
}

/// A stride of one is no smaller than the smallest stride.
pub proof fn lemma_stride(e: EventModel)
    requires
        e.pitch_ratio is None || e.pitch_ratio == Some(Single { bits: single::ONE }),
    ensures
        voice::stride(e) == (Single { bits: single::ONE }),
{
    reveal(Single::of_ratio);
    reveal(Single::of_int);
    reveal(Single::quotient);
    lemma2_to64();
    lemma2_to64_rest();
    let u: nat = pow2(single::UNIT as nat);
    lemma_pow2_pos(single::UNIT as nat);
    let one = Single { bits: single::ONE };
    rounding::lemma_scaled_at(24, single::ONE as nat, pow2(23), 126);
    lemma_pow2_adds(23, 126);
    rounding::lemma_pack_of_scaled(24, single::ONE as nat);
    assert(Single::of_int(1) == one);
    let k = Single::of_int(1000);
    rounding::lemma_pack_exact(24, 1000, single::UNIT as nat);
    lemma_pow2_adds(10, single::UNIT as nat);
    lemma_pow2_strictly_increases(159, 276);
    assert(1000 * u < pow2(276)) by (nonlinear_arith)
        requires
            1024 * u == pow2(159),
            pow2(159) < pow2(276),
            u > 0,
    ;
    rounding::lemma_pack_bound(24, 1000 * u, 1, 252);
    assert(k.size() == 1000 * u);
    assert(k.magnitude() > 0);
    // a thousandth is less than one
    let r = Single::of_ratio(1, 1000);
    let num = u * u;
    let den = k.size();
    lemma_pow2_strictly_increases(40, single::UNIT as nat);
    assert(pow2(23) * den <= num) by (nonlinear_arith)
        requires
            den == 1000 * u,
            num == u * u,
            pow2(23) == 0x80_0000,
            u >= 0x80_0000 * 1000,
    {
        assert(0x80_0000 * (1000 * u) <= u * u);
    }
    rounding::lemma_pack_error(24, num, den);
    assert(num < pow2(276) * den) by (nonlinear_arith)
        requires
            num == u * u,
            den == 1000 * u,
            u < pow2(276),
            u > 0,
    ;
    rounding::lemma_pack_bound(24, num, den, 252);
    let v = r.size();
    assert(v <= u) by (nonlinear_arith)
        requires
            0x100_0000 * (v * (1000 * u)) <= (0x100_0000 + 1) * (u * u),
            u > 0,
    ;
    single::lemma_less_is_by_value(one, r);
}

/// Whole positions are exact.
pub proof fn lemma_position(e: EventModel, k: int)
    requires
        voice::stride(e) == (Single { bits: single::ONE }),
        0 <= k < gapless::WHOLE_LIMIT,
    ensures
        voice::position(e, k).finite(),
        !voice::position(e, k).negative(),
        voice::position(e, k).size() == k * accuracy::unit(),
    decreases k,
{
    lemma2_to64();
    lemma2_to64_rest();
    let u = accuracy::unit();
    lemma_pow2_pos(double::UNIT as nat);
    if k == 0 {
        assert(rounding::scaled(53, 0) == 0);
    } else {
        lemma_position(e, k - 1);
        accuracy::lemma_one();
        reveal(Double::sum);
        assert((k - 1) * u + u == k * u) by (nonlinear_arith);
        assert(k * u > 0) by (nonlinear_arith)
            requires
                k > 0,
                u > 0,
        ;
        rounding::lemma_pack_exact(53, k as nat, double::UNIT as nat);
        lemma_pow2_adds(53, double::UNIT as nat);
        lemma_pow2_strictly_increases(1127, 1300);
        assert(k * u < pow2(1300)) by (nonlinear_arith)
            requires
                k < 0x20_0000_0000_0000,
                0x20_0000_0000_0000 * u == pow2(1127),
                pow2(1127) < pow2(1300),
                u > 0,
        ;
        rounding::lemma_pack_bound(53, (k * u) as nat, 1, 1247);
        let before = voice::position(e, k - 1);
        let one = Double::of_single(Single { bits: single::ONE });
        assert(before.units() + one.units() == k * u);
        let pos = voice::position(e, k);
        assert(pos == before.sum(one));
        assert(pos == double::rounded(false, (k * u) as nat, 1));
        assert(pow2(52) == 0x10_0000_0000_0000);
        assert(rounding::pack(53, (k * u) as nat, 1) <= 1249 * pow2(52));
    }
}

/// A sample that plays once at its own rate plays as it is.
pub proof fn law_sample_plays_as_it_is(e: EventModel, src: Seq<Single>, k: int)
    requires
        e.pitch_ratio is None || e.pitch_ratio == Some(Single { bits: single::ONE }),
        0 <= k < src.len() <= gapless::WHOLE_LIMIT,
        forall|i: int| 0 <= i < src.len() ==> (#[trigger] src[i]).finite(),
    ensures
        same(voice::sample_at(src, SampleLoopMode::OneShot, voice::position(e, k)), src[k]),
{
    lemma_stride(e);
    lemma_position(e, k);
    let pos = voice::position(e, k);
    let u = accuracy::unit() as int;
    lemma2_to64();
    lemma2_to64_rest();
    lemma_pow2_pos(double::UNIT as nat);
    lemma_pow2_pos(single::UNIT as nat);
    lemma_pow2_pos((double::UNIT - single::UNIT) as nat);
    lemma_fundamental_div_mod_converse(k * u, u, k, 0);
    assert(pos.floor() == k);
    let part = voice::part(pos);
    assert(part.bits == 0) by {
        reveal(Double::fraction);
        reveal(Double::as_single);
        assert(rounding::nearest_even(0, 1) == 0);
        assert(rounding::pack(53, 0, 1) == 0);
        let c = accuracy::coarse();
        assert(rounding::scaled(53, 0) == 0);
        lemma_small_mod(0, c);
        lemma_basic_div(0, c as int);
        assert(rounding::nearest_even(0, c) == 0);
        assert(pow2(24) * c > 0) by (nonlinear_arith)
            requires
                pow2(24) > 0,
                c > 0,
        ;
        assert(rounding::pack(24, 0, c) == 0);
    }
    let one = Single { bits: single::ONE };
    single::lemma_adding_zero(one, part.negated());
    assert(one.difference(part) == one);
    if src.len() > 1 {
        let next = if k + 1 < src.len() { src[k + 1] } else { Single { bits: 0 } };
        single::lemma_times_one(src[k]);
        single::lemma_zero_times(part, next);
        single::lemma_commutes(part, next);
        let z = next.product(part);
        if src[k].bits != single::SIGN {
            single::lemma_adding_zero(src[k], z);
        } else {
            reveal(Single::sum);
            assert(rounding::scaled(24, 0) == 0);
        }
    }
}

/// Zeros are alike under a gain, and vanish when they are added.
proof fn lemma_zeros(a: Single, b: Single, gain: Single)
    requires
        a == b || (a.zero() && b.zero()),
    ensures
        a.product(gain) == b.product(gain) || (a.product(gain).zero() && b.product(gain).zero()),
{
    if a != b {
        if gain.finite() {
            single::lemma_zero_times(a, gain);
            single::lemma_zero_times(b, gain);
        } else {
            reveal(Single::product);
        }
    }
}

/// A frame that belongs to one event alone has the sound of that event.
proof fn lemma_mixed_frame(
    m: spec_fn(Curve) -> Single,
    q: PieceModel,
    bank: Map<Seq<char>, Seq<Single>>,
    n: int,
    i: int,
    x: int,
)
    requires
        0 <= i < q.events.len(),
        0 <= n <= q.events.len(),
        0 <= x < 2 * q.duration_samples,
        2 * q.events[i].t <= x < 2 * (q.events[i].t + q.events[i].dur),
        forall|j: int|
            0 <= j < q.events.len() && j != i ==> x < 2 * (#[trigger] q.events[j]).t || x >= 2 * (
            q.events[j].t + q.events[j].dur),
    ensures
        mixer::mixed(m, q, bank, n).len() == 2 * q.duration_samples,
        mixer::mixed(m, q, bank, n)[x] == if n <= i {
            Single { bits: 0 }
        } else {
            let e = q.events[i];
            (Single { bits: 0 }).sum(
                mixer::sound(m, q.voices[e.voice], e, q.sample_rate, bank)[x / 2 - e.t].product(
                    gain(m, e, x),
                ),
            )
        },
    decreases n,
{
    if n > 0 {
        lemma_mixed_frame(m, q, bank, n - 1, i, x);
        let e = q.events[n - 1];
        let master = mixer::mixed(m, q, bank, n - 1);
        mixer::law_sound_length(m, q.voices[e.voice], e, q.sample_rate, bank);
        if n - 1 != i {
            mixer::law_event_stays_in_its_frames(master, m, q.voices[e.voice], e, q.sample_rate, bank, x);
        }
    }
}

/// The gain of an event in the channel that position `x` of a stereo buffer
/// belongs to.
pub open spec fn gain(m: spec_fn(Curve) -> Single, e: EventModel, x: int) -> Single {
    if x % 2 == 0 {
        m(Curve::Cos(mixer::pan_angle(e.pan)))
    } else {
        m(Curve::Sin(mixer::pan_angle(e.pan)))
    }
}

/// Between its fades, an event that plays a sample once at its own rate, with
/// neither envelope nor effects, is the sample at the event's level.
pub proof fn law_sample_sounds_as_it_is(
    m: spec_fn(Curve) -> Single,
    e: EventModel,
    id: Seq<char>,
    rate: u32,
    bank: Map<Seq<char>, Seq<Single>>,
    k: int,
)
    requires
        e.pitch_ratio is None || e.pitch_ratio == Some(Single { bits: single::ONE }),
        e.envelope == Envelope::Gate,
        e.fx.len() == 0,
        bank.dom().contains(id),
        0 <= k < bank[id].len() <= gapless::WHOLE_LIMIT,
        mixer::fade_length(e.dur as int, rate) <= k < e.dur - mixer::fade_length(e.dur as int, rate),
        forall|i: int| 0 <= i < bank[id].len() ==> (#[trigger] bank[id][i]).finite(),
    ensures
        ({
            let def = VoiceModel::Sample { sample_id: id, loop_mode: SampleLoopMode::OneShot };
            same(mixer::sound(m, def, e, rate, bank)[k], bank[id][k].product(e.amp))
        }),
{
    let def = VoiceModel::Sample { sample_id: id, loop_mode: SampleLoopMode::OneShot };
    let raw = voice::voiced(m, def, e, rate, bank, e.dur as nat);
    let shaped = envelope::enveloped(e.envelope, m, raw);
    assert(shaped =~= raw);
    let loud = mixer::amplified(shaped, e.amp);
    assert(loud.len() == e.dur);
    mixer::law_declick_keeps_body(loud, rate, k);
    law_sample_plays_as_it_is(e, bank[id], k);
    lemma_zeros(raw[k], bank[id][k], e.amp);
}

/// An event of a piece whose frames are its own, and which plays a sample as
/// it is, sounds like the sample.
proof fn lemma_heard(
    m: spec_fn(Curve) -> Single,
    q: PieceModel,
    bank: Map<Seq<char>, Seq<Single>>,
    i: int,
    k: int,
    c: int,
)
    requires
        0 <= i < q.events.len(),
        0 <= c < 2,
        ({
            let e = q.events[i];
            let fade = mixer::fade_length(e.dur as int, q.sample_rate);
            &&& q.voices[e.voice] == (VoiceModel::Sample {
                sample_id: e.voice,
                loop_mode: SampleLoopMode::OneShot,
            })
            &&& e.pitch_ratio == Some(Single { bits: single::ONE })
            &&& e.envelope == Envelope::Gate
            &&& e.fx.len() == 0
            &&& e.t + e.dur <= q.duration_samples
            &&& bank.dom().contains(e.voice)
            &&& 0 <= k < bank[e.voice].len() <= gapless::WHOLE_LIMIT
            &&& fade <= k < e.dur - fade
            &&& forall|j: int| 0 <= j < bank[e.voice].len() ==> (#[trigger] bank[e.voice][j]).finite()
            &&& forall|j: int|
                0 <= j < q.events.len() && j != i ==> 2 * (e.t + k) + c < 2 * (#[trigger] q.events[j]).t || 2 * (e.t
                    + k) + c >= 2 * (q.events[j].t + q.events[j].dur)
        }),
    ensures
        ({
            let e = q.events[i];
            mixer::rendered(m, q, bank)[2 * (e.t + k) + c] == mixer::limited(
                (Single { bits: 0 }).sum(bank[e.voice][k].product(e.amp).product(gain(m, e, c))),
            )
        }),
{
    let e = q.events[i];
    let x = 2 * (e.t + k) + c;
    lemma_mixed_frame(m, q, bank, q.events.len() as int, i, x);
    law_sample_sounds_as_it_is(m, e, e.voice, q.sample_rate, bank, k);
    assert(x / 2 - e.t == k && x % 2 == c);
    let heard = mixer::sound(m, q.voices[e.voice], e, q.sample_rate, bank)[k];
    let sent = bank[e.voice][k].product(e.amp);
    lemma_zeros(heard, sent, gain(m, e, c));
    let zero = Single { bits: 0 };
    if heard.product(gain(m, e, c)) != sent.product(gain(m, e, c)) {
        single::lemma_adding_zero(zero, heard.product(gain(m, e, c)));
        single::lemma_adding_zero(zero, sent.product(gain(m, e, c)));
    }
}

/// Slices do not overlap.
proof fn lemma_apart(
    n: u64,
    slices: u32,
    sr: u32,
    opts: SliceOpts,
    path: Seq<char>,
    stem: Option<Seq<char>>,
    i: int,
    j: int,
)
    requires
        0 < n <= gapless::FRAME_LIMIT,
        !opts.transient,
        opts.bpm is None || !(Single { bits: 0 }).less(opts.bpm->0),
        slice::slice_pattern(slice::equal_ranges(n, slices), n, sr, opts, path, stem).draft(1) is Ok,
        0 <= i < j < slice::equal_ranges(n, slices).len(),
    ensures
        ({
            let p = slice::slice_pattern(slice::equal_ranges(n, slices), n, sr, opts, path, stem);
            let events = p.draft(1)->Ok_0.events;
            events[i].t + events[i].dur <= events[j].t
        }),
{
    let p = slice::slice_pattern(slice::equal_ranges(n, slices), n, sr, opts, path, stem);
    let row = p.grid()->Ok_0 as int;
    gapless::law_slices_play_gaplessly(n, slices, sr, opts, path, stem, i);
    gapless::law_slices_play_gaplessly(n, slices, sr, opts, path, stem, i + 1);
    gapless::law_slices_play_gaplessly(n, slices, sr, opts, path, stem, j);
    assert((i + 1) * row <= j * row) by (nonlinear_arith)
        requires
            i + 1 <= j,
            row >= 0,
    ;
}

/// A piece plays slices as they are, one after the other.
spec fn plays_slices(q: PieceModel, count: int, sr: u32) -> bool {
    &&& q.sample_rate == sr
    &&& q.events.len() == count
    &&& forall|i: int|
        0 <= i < count ==> {
            let e = #[trigger] q.events[i];
            &&& e.voice == slice::slice_id(i)
            &&& q.voices[e.voice] == (VoiceModel::Sample {
                sample_id: e.voice,
                loop_mode: SampleLoopMode::OneShot,
            })
            &&& e.pitch_ratio == Some(Single { bits: single::ONE })
            &&& e.envelope == Envelope::Gate
            &&& e.fx.len() == 0
            &&& e.amp == Single::of_ratio(9, 10)
            &&& e.t + e.dur <= q.duration_samples
        }
    &&& forall|i: int, j: int|
        0 <= i < j < count ==> (#[trigger] q.events[i]).t + q.events[i].dur <= (#[trigger] q.events[j]).t
}

proof fn lemma_plays_slices(
    n: u64,
    slices: u32,
    sr: u32,
    opts: SliceOpts,
    path: Seq<char>,
    stem: Option<Seq<char>>,
)
    requires
        0 < n <= gapless::FRAME_LIMIT,
        !opts.transient,
        opts.bpm is None || !(Single { bits: 0 }).less(opts.bpm->0),
        slice::slice_pattern(slice::equal_ranges(n, slices), n, sr, opts, path, stem).draft(1) is Ok,
    ensures
        plays_slices(
            slice::slice_pattern(slice::equal_ranges(n, slices), n, sr, opts, path, stem).draft(1)->Ok_0,
            slice::equal_ranges(n, slices).len() as int,
            sr,
        ),
{
    let ranges = slice::equal_ranges(n, slices);
    let q = slice::slice_pattern(ranges, n, sr, opts, path, stem).draft(1)->Ok_0;
    let count = ranges.len() as int;
    assert(count > 0);
    gapless::law_slices_play_gaplessly(n, slices, sr, opts, path, stem, 0);
    assert forall|i: int| 0 <= i < count implies {
        let e = #[trigger] q.events[i];
        &&& e.voice == slice::slice_id(i)
        &&& q.voices[e.voice] == (VoiceModel::Sample {
            sample_id: e.voice,
            loop_mode: SampleLoopMode::OneShot,
        })
        &&& e.pitch_ratio == Some(Single { bits: single::ONE })
        &&& e.envelope == Envelope::Gate
        &&& e.fx.len() == 0
        &&& e.amp == Single::of_ratio(9, 10)
        &&& e.t + e.dur <= q.duration_samples
    } by {
        gapless::law_slices_play_gaplessly(n, slices, sr, opts, path, stem, i);
    }
    assert forall|i: int, j: int| 0 <= i < j < count implies (#[trigger] q.events[i]).t + q.events[i].dur <= (
    #[trigger] q.events[j]).t by {
        lemma_apart(n, slices, sr, opts, path, stem, i, j);
    }
}

proof fn lemma_reproduced(
    m: spec_fn(Curve) -> Single,
    mono: Seq<Single>,
    q: PieceModel,
    count: int,
    range: (u64, u64),
    sr: u32,
    bank: Map<Seq<char>, Seq<Single>>,
    i: int,
    k: int,
    c: int,
)
    requires
        plays_slices(q, count, sr),
        0 <= i < count,
        0 <= c < 2,
        mono.len() <= gapless::FRAME_LIMIT,
        forall|j: int| 0 <= j < mono.len() ==> (#[trigger] mono[j]).finite(),
        range.0 <= range.1 <= mono.len(),
        bank.dom().contains(slice::slice_id(i)),
        bank[slice::slice_id(i)] == mono.subrange(range.0 as int, range.1 as int),
        0 <= k < range.1 - range.0,
        ({
            let fade = mixer::fade_length(q.events[i].dur as int, sr);
            fade <= k < q.events[i].dur - fade
        }),
    ensures
        mixer::rendered(m, q, bank)[2 * (q.events[i].t + k) + c] == mixer::limited(
            (Single { bits: 0 }).sum(
                mono[range.0 + k].product(Single::of_ratio(9, 10)).product(gain(m, q.events[i], c)),
            ),
        ),
{
    let e = q.events[i];
    assert forall|j: int| 0 <= j < bank[e.voice].len() implies (#[trigger] bank[e.voice][j]).finite() by {
        assert(mono[range.0 + j].finite());
    }
    lemma_heard(m, q, bank, i, k, c);
}

/// A file that is cut into equal slices and rendered straight back is the file
/// again, at the level of the slices: position `c` of the frame that the `k`th
/// sample of the `i`th slice plays in has that sample, unless a fade has it.
pub proof fn law_slices_reproduce_file(
    m: spec_fn(Curve) -> Single,
    mono: Seq<Single>,
    slices: u32,
    sr: u32,
    opts: SliceOpts,
    path: Seq<char>,
    stem: Option<Seq<char>>,
    bank: Map<Seq<char>, Seq<Single>>,
    i: int,
    k: int,
    c: int,
)
    requires
        0 < mono.len() <= gapless::FRAME_LIMIT,
        forall|j: int| 0 <= j < mono.len() ==> (#[trigger] mono[j]).finite(),
        !opts.transient,
        opts.bpm is None || !(Single { bits: 0 }).less(opts.bpm->0),
        0 <= c < 2,
        ({
            let n = mono.len() as u64;
            let ranges = slice::equal_ranges(n, slices);
            let p = slice::slice_pattern(ranges, n, sr, opts, path, stem);
            let e = p.draft(1)->Ok_0.events[i];
            let fade = mixer::fade_length(e.dur as int, sr);
            &&& p.draft(1) is Ok
            &&& 0 <= i < ranges.len()
            &&& bank.dom().contains(slice::slice_id(i))
            &&& bank[slice::slice_id(i)] == mono.subrange(ranges[i].0 as int, ranges[i].1 as int)
            &&& 0 <= k < ranges[i].1 - ranges[i].0
            &&& fade <= k < e.dur - fade
        }),
    ensures
        ({
            let n = mono.len() as u64;
            let ranges = slice::equal_ranges(n, slices);
            let made = slice::slice_pattern(ranges, n, sr, opts, path, stem).draft(1)->Ok_0;
            let e = made.events[i];
            let level = Single::of_ratio(9, 10);
            mixer::rendered(m, made, bank)[2 * (e.t + k) + c] == mixer::limited(
                (Single { bits: 0 }).sum(mono[ranges[i].0 + k].product(level).product(gain(m, e, c))),
            )
        }),
{
    let n = mono.len() as u64;
    let ranges = slice::equal_ranges(n, slices);
    let q = slice::slice_pattern(ranges, n, sr, opts, path, stem).draft(1)->Ok_0;
    slice::law_equal_ranges_cover(n, slices);
    lemma_ends(ranges, n, i);
    lemma_plays_slices(n, slices, sr, opts, path, stem);
    lemma_reproduced(m, mono, q, ranges.len() as int, ranges[i], sr, bank, i, k, c);
}

/// Ranges that cover a file lie within it.
proof fn lemma_ends(ranges: Seq<(u64, u64)>, n: u64, i: int)
    requires
        slice::covers(ranges, n),
        0 <= i < ranges.len(),
    ensures
        ranges[i].0 <= ranges[i].1 <= n,
    decreases ranges.len() - i,
{
    if i + 1 < ranges.len() {
        lemma_ends(ranges, n, i + 1);
    }
}

/// No slice ends where the file starts.
proof fn lemma_end_counts(n: u64, slices: u32, i: int)
    requires
        n > 0,
        0 <= i < slice::equal_ranges(n, slices).len(),
    ensures
        slice::equal_ranges(n, slices)[i].1 > 0,
{
    let count: int = if slices < 1 { 1 } else { slices as int };
    let base = n as int / count;
    lemma_fundamental_div_mod(n as int, count);
    lemma_mod_bound(n as int, count);
    if base > 0 && i < count - 1 {
        assert(0 < (i + 1) * base <= n) by (nonlinear_arith)
            requires
                0 <= i < count - 1,
                base > 0,
                n == count * base + n as int % count,
                n as int % count >= 0,
        ;
    }
}

/// A slice loads as its part of the file.
pub proof fn law_slice_loads_its_part(
    bytes: Seq<u8>,
    mono: Seq<Single>,
    rate: u32,
    slices: u32,
    path: Seq<char>,
    i: int,
)
    requires
        wav::wav_mono(bytes) == Some(Ok::<(Seq<Single>, u32), UnsupportedBits>((mono, rate))),
        0 < mono.len() <= u64::MAX,
        0 <= i < slice::equal_ranges(mono.len() as u64, slices).len(),
    ensures
        ({
            let ranges = slice::equal_ranges(mono.len() as u64, slices);
            let refs = slice::slice_samples(ranges, path, ranges.len() as int);
            refs[slice::slice_id(i)].loaded(slice::slice_id(i), bytes) == Ok::<Seq<Single>, LoadFault>(
                mono.subrange(ranges[i].0 as int, ranges[i].1 as int),
            )
        }),
{
    let n = mono.len() as u64;
    let ranges = slice::equal_ranges(n, slices);
    slice::law_equal_ranges_cover(n, slices);
    lemma_ends(ranges, n, i);
    lemma_end_counts(n, slices, i);
    gapless::lemma_samples(ranges, path, ranges.len() as int, i);
}

} // verus!
