//! From pieces to sound.

use vstd::prelude::*;
use vstd::arithmetic::power2::*;

use crate::curve;
use crate::curve::{take, Curve};
use crate::envelope;
use crate::envelope::apply_envelope;
use crate::fx;
use crate::fx::apply_chain;
use crate::order;
use crate::piece;
use crate::piece::{Event, EventModel, Piece, PieceModel, ValidationError, VoiceDef, VoiceModel};
use crate::rounding;
use crate::sample;
use crate::sample::{SampleBank, SampleLoadError};
use crate::single;
use crate::single::Single;
use crate::voice;
use crate::voice::{render_voice, VoiceCtx};

verus! {

/// The pattern of `0.5`.
pub const HALF: u32 = 0x3f00_0000;

/// The pattern of half pi.
pub const QUARTER_TURN: u32 = 0x3fc9_0fdb;

/// The pattern of a quarter of pi.
pub const EIGHTH_TURN: u32 = 0x3f49_0fdb;

/// The pattern of `2.0`.
pub const TWO: u32 = 0x4000_0000;

/// Why a piece could not be rendered.
#[derive(Debug)]
pub enum RenderError {
    Validation(ValidationError),
    SampleLoad(SampleLoadError),
    MissingVoice(usize, String),
}

/// The angle of a pan.
pub open spec fn pan_angle(pan: Single) -> Single {
    let one = Single { bits: single::ONE };
    pan.clamped(Single { bits: single::MINUS_ONE }, one).sum(one).product(Single { bits: HALF }).product(
        Single { bits: QUARTER_TURN },
    )
}

/// Samples of fade at each end of `n`: about 2.5 ms, at most half of them.
pub open spec fn fade_length(n: int, sample_rate: u32) -> int {
    let wanted = (sample_rate / 400) as int;
    if wanted < 1 {
        1
    } else if wanted > n / 2 {
        n / 2
    } else {
        wanted
    }
}

/// The gain of step `i` of a fade.
pub open spec fn fade_gain(i: int, fade: int) -> Single {
    Single::of_int(i).sum(Single { bits: HALF }).quotient(Single::of_int(fade))
}

/// A buffer with its edges faded.
pub open spec fn declicked(s: Seq<Single>, sample_rate: u32) -> Seq<Single> {
    let n = s.len() as int;
    let fade = fade_length(n, sample_rate);
    if n < 4 {
        s
    } else {
        Seq::new(
            s.len(),
            |i: int|
                if i < fade {
                    s[i].product(fade_gain(i, fade))
                } else if i >= n - fade {
                    s[i].product(fade_gain(n - 1 - i, fade))
                } else {
                    s[i]
                },
        )
    }
}

/// Every value times a gain.
pub open spec fn amplified(s: Seq<Single>, gain: Single) -> Seq<Single> {
    s.map_values(|x: Single| x.product(gain))
}

/// The sound of an event, before it is placed.
pub open spec fn sound(
    m: spec_fn(Curve) -> Single,
    def: VoiceModel,
    e: EventModel,
    rate: u32,
    bank: Map<Seq<char>, Seq<Single>>,
) -> Seq<Single> {
    let raw = voice::voiced(m, def, e, rate, bank, e.dur as nat);
    let shaped = envelope::enveloped(e.envelope, m, raw);
    let treated = fx::chained(e.fx, m, shaped, rate, e.fx.len() as int);
    declicked(amplified(treated, e.amp), rate)
}

/// A stereo buffer with a sound added from frame `t` on, as far as the buffer
/// has whole frames.
pub open spec fn placed(master: Seq<Single>, s: Seq<Single>, t: int, left: Single, right: Single) -> Seq<Single> {
    Seq::new(
        master.len(),
        |j: int|
            if 2 * t <= j < 2 * (t + s.len()) && 2 * (j / 2) + 1 < master.len() {
                master[j].sum(
                    s[j / 2 - t].product(
                        if j % 2 == 0 {
                            left
                        } else {
                            right
                        },
                    ),
                )
            } else {
                master[j]
            },
    )
}

/// A stereo buffer with an event added.
pub open spec fn with_event(
    master: Seq<Single>,
    m: spec_fn(Curve) -> Single,
    def: VoiceModel,
    e: EventModel,
    rate: u32,
    bank: Map<Seq<char>, Seq<Single>>,
) -> Seq<Single> {
    if e.dur == 0 {
        master
    } else {
        placed(
            master,
            sound(m, def, e, rate, bank),
            e.t as int,
            m(Curve::Cos(pan_angle(e.pan))),
            m(Curve::Sin(pan_angle(e.pan))),
        )
    }
}

/// The first `n` events of a piece, one over the other.
pub open spec fn mixed(
    m: spec_fn(Curve) -> Single,
    p: PieceModel,
    bank: Map<Seq<char>, Seq<Single>>,
    n: int,
) -> Seq<Single>
    decreases n,
{
    if n <= 0 {
        Seq::new(2 * p.duration_samples as nat, |i: int| Single { bits: 0 })
    } else {
        let e = p.events[n - 1];
        with_event(mixed(m, p, bank, n - 1), m, p.voices[e.voice], e, p.sample_rate, bank)
    }
}

/// A value kept to [-1, 1].
pub open spec fn limited(x: Single) -> Single {
    x.clamped(Single { bits: single::MINUS_ONE }, Single { bits: single::ONE })
}

/// The sound of a piece: interleaved stereo, kept to [-1, 1].
pub open spec fn rendered(
    m: spec_fn(Curve) -> Single,
    p: PieceModel,
    bank: Map<Seq<char>, Seq<Single>>,
) -> Seq<Single> {
    mixed(m, p, bank, p.events.len() as int).map_values(|x: Single| limited(x))
}

/// Fades both edges of a buffer, so that a sound that starts or ends off a
/// zero crossing does not click.
pub fn declick(buf: &mut Vec<Single>, sample_rate: u32)
    ensures
        final(buf)@ == declicked(old(buf)@, sample_rate),
{
    let n: usize = buf.len();
    if n < 4 {
        return;
    }
    let ghost before = buf@;
    let wanted: u32 = sample_rate / 400;
    let fade: usize = if wanted < 1 {
        1
    } else if wanted as u64 > (n / 2) as u64 {
        n / 2
    } else {
        wanted as usize
    };
    let half: Single = Single::of_bits(HALF);
    let whole: Single = Single::from_natural(fade as u64);
    let mut i: usize = 0;
    while i < fade
        invariant
            i <= fade <= n / 2,
            n == before.len(),
            buf@.len() == n,
            half.bits == HALF,
            whole == Single::of_int(fade as int),
            forall|k: int|
                0 <= k < i ==> #[trigger] buf@[k] == before[k].product(fade_gain(k, fade as int)),
            forall|k: int|
                n - i <= k < n ==> #[trigger] buf@[k] == before[k].product(
                    fade_gain(n - 1 - k, fade as int),
                ),
            forall|k: int| i <= k < n - i ==> #[trigger] buf@[k] == before[k],
        decreases fade - i,
    {
        let g: Single = Single::from_natural(i as u64).plus(half).over(whole);
        let a: Single = buf[i].times(g);
        buf.set(i, a);
        let b: Single = buf[n - 1 - i].times(g);
        buf.set(n - 1 - i, b);
        i = i + 1;
    }
    assert(buf@ =~= declicked(before, sample_rate));
}

/// Equal-power pan: at -1 fully left, at 0 in the centre, at +1 fully right.
pub fn pan_gains<F: Fn(Curve) -> Single>(f: &F, pan: Single) -> (r: (Single, Single))
    requires
        curve::accepts(*f),
    ensures
        forall|m: spec_fn(Curve) -> Single| #[trigger]
            curve::follows(*f, m) ==> r == gains(m, pan),
{
    let one: Single = Single::of_bits(single::ONE);
    let theta: Single = pan.clamp(Single::of_bits(single::MINUS_ONE), one).plus(one).times(
        Single::of_bits(HALF),
    ).times(Single::of_bits(QUARTER_TURN));
    (take(f, Curve::Cos(theta)), take(f, Curve::Sin(theta)))
}

fn amplify(buf: &mut Vec<Single>, gain: Single)
    ensures
        final(buf)@ == amplified(old(buf)@, gain),
{
    let ghost before = buf@;
    let mut i: usize = 0;
    while i < buf.len()
        invariant
            i <= buf@.len(),
            buf@.len() == before.len(),
            forall|k: int| i <= k < before.len() ==> #[trigger] buf@[k] == before[k],
            forall|k: int| 0 <= k < i ==> #[trigger] buf@[k] == before[k].product(gain),
        decreases buf@.len() - i,
    {
        let x: Single = buf[i].times(gain);
        buf.set(i, x);
        i = i + 1;
    }
    assert(buf@ =~= amplified(before, gain));
}

fn silent(n: usize) -> (r: Vec<Single>)
    ensures
        r@ == Seq::new(n as nat, |i: int| Single { bits: 0 }),
{
    let mut out: Vec<Single> = Vec::new();
    let mut i: usize = 0;
    while i < n
        invariant
            i <= n,
            out@.len() == i,
            forall|k: int| 0 <= k < i ==> (#[trigger] out@[k]).bits == 0,
        decreases n - i,
    {
        out.push(Single::of_bits(0));
        i = i + 1;
    }
    assert(out@ =~= Seq::new(n as nat, |i: int| Single { bits: 0 }));
    out
}

fn place(master: &mut Vec<Single>, buf: &Vec<Single>, t: usize, left: Single, right: Single)
    requires
        2 * (t + buf@.len()) <= usize::MAX,
    ensures
        final(master)@ == placed(old(master)@, buf@, t as int, left, right),
{
    let ghost before = master@;
    let total: usize = master.len();
    let frames: usize = total / 2;
    let n: usize = if t + buf.len() <= frames {
        buf.len()
    } else if t <= frames {
        frames - t
    } else {
        0
    };
    let mut i: usize = 0;
    while i < n
        invariant
            i <= n,
            n <= buf@.len(),
            total == before.len(),
            master@.len() == total,
            n > 0 ==> 2 * (t + n) <= total,
            forall|j: int|
                0 <= j < total && !(2 * t <= j < 2 * (t + i)) ==> #[trigger] master@[j] == before[j],
            forall|j: int|
                2 * t <= j < 2 * (t + i) ==> #[trigger] master@[j] == before[j].sum(
                    buf@[j / 2 - t].product(
                        if j % 2 == 0 {
                            left
                        } else {
                            right
                        },
                    ),
                ),
        decreases n - i,
    {
        let at: usize = 2 * (t + i);
        assert(at as int / 2 - t == i && at as int % 2 == 0 && (at + 1) / 2 - t == i && (at + 1) % 2 == 1);
        let l: Single = master[at].plus(buf[i].times(left));
        master.set(at, l);
        let r: Single = master[at + 1].plus(buf[i].times(right));
        master.set(at + 1, r);
        i = i + 1;
    }
    assert(master@ =~= placed(before, buf@, t as int, left, right));
}

/// Adds an event to the master buffer, cut where the buffer ends.
pub fn mix_event<F: Fn(Curve) -> Single>(
    def: &VoiceDef,
    event: &Event,
    ctx: &VoiceCtx,
    f: &F,
    master: &mut Vec<Single>,
)
    requires
        curve::accepts(*f),
        def is SinePartials ==> def->partials@.len() <= def->amplitudes@.len(),
        2 * (event.t + event.dur) <= usize::MAX,
    ensures
        final(master)@.len() == old(master)@.len(),
        forall|m: spec_fn(Curve) -> Single| #[trigger]
            curve::follows(*f, m) ==> final(master)@ == with_event(
                old(master)@,
                m,
                def@,
                event@,
                ctx.sample_rate,
                ctx.bank.samples@,
            ),
{
    if event.dur == 0 {
        return;
    }
    let mut buf: Vec<Single> = silent(event.dur as usize);
    render_voice(def, event, ctx, f, &mut buf);
    apply_envelope(&event.envelope, f, &mut buf);
    apply_chain(&event.fx, f, &mut buf, ctx.sample_rate);
    amplify(&mut buf, event.amp);
    declick(&mut buf, ctx.sample_rate);
    let (left, right) = pan_gains(f, event.pan);
    place(master, &buf, event.t as usize, left, right);
}

fn limit(buf: &mut Vec<Single>)
    ensures
        final(buf)@ == old(buf)@.map_values(|x: Single| limited(x)),
{
    let ghost before = buf@;
    let low: Single = Single::of_bits(single::MINUS_ONE);
    let high: Single = Single::of_bits(single::ONE);
    let mut i: usize = 0;
    while i < buf.len()
        invariant
            i <= buf@.len(),
            buf@.len() == before.len(),
            low.bits == single::MINUS_ONE,
            high.bits == single::ONE,
            forall|k: int| i <= k < before.len() ==> #[trigger] buf@[k] == before[k],
            forall|k: int| 0 <= k < i ==> #[trigger] buf@[k] == limited(before[k]),
        decreases buf@.len() - i,
    {
        let x: Single = buf[i].clamp(low, high);
        buf.set(i, x);
        i = i + 1;
    }
    assert(buf@ =~= before.map_values(|x: Single| limited(x)));
}

/// Renders a piece that has been checked.
fn render_with_bank_unchecked<F: Fn(Curve) -> Single>(piece: &Piece, bank: &SampleBank, f: &F) -> (r: Result<
    Vec<Single>,
    RenderError,
>)
    requires
        curve::accepts(*f),
        piece@.valid(),
        2 * piece.duration_samples <= usize::MAX,
    ensures
        r is Ok,
        r->Ok_0@.len() == 2 * piece.duration_samples,
        forall|m: spec_fn(Curve) -> Single| #[trigger]
            curve::follows(*f, m) ==> r->Ok_0@ == rendered(m, piece@, bank.samples@),
{
    let total: usize = piece.duration_samples as usize * 2;
    let mut master: Vec<Single> = silent(total);
    let ctx: VoiceCtx = VoiceCtx { sample_rate: piece.sample_rate, bank };
    let mut i: usize = 0;
    while i < piece.events.len()
        invariant
            i <= piece.events@.len(),
            curve::accepts(*f),
            piece@.valid(),
            2 * piece.duration_samples <= usize::MAX,
            master@.len() == 2 * piece.duration_samples,
            ctx.sample_rate == piece.sample_rate,
            ctx.bank == bank,
            forall|m: spec_fn(Curve) -> Single| #[trigger]
                curve::follows(*f, m) ==> master@ == mixed(m, piece@, bank.samples@, i as int),
        decreases piece.events.len() - i,
    {
        let event: &Event = &piece.events[i];
        assert(piece@.events[i as int] == event@);
        assert(piece@.events.len() == piece.events@.len());
        proof {
            piece::law_valid_event(piece@, i as int);
        }
        match piece.voices.get(event.voice.as_str()) {
            Some(def) => {
                assert(piece::voice_fault(event.voice@, piece@.voices[event.voice@], piece@.samples) is None);
                mix_event(def, event, &ctx, f, &mut master);
            },
            None => {
                return Err(RenderError::MissingVoice(i, event.voice.clone()));
            },
        }
        i = i + 1;
    }
    let ghost before = master@;
    limit(&mut master);
    Ok(master)
}

/// Renders a piece with its samples at hand.
pub fn render_with_bank<F: Fn(Curve) -> Single>(piece: &Piece, bank: &SampleBank, f: &F) -> (r: Result<
    Vec<Single>,
    RenderError,
>)
    requires
        curve::accepts(*f),
        2 * piece.duration_samples <= usize::MAX,
    ensures
        r is Ok <==> piece@.valid(),
        r matches Err(e) ==> e is Validation && piece@.judged(Some(e->Validation_0@)),
        r matches Ok(buf) ==> {
            &&& buf@.len() == 2 * piece.duration_samples
            &&& forall|m: spec_fn(Curve) -> Single| #[trigger]
                curve::follows(*f, m) ==> buf@ == rendered(m, piece@, bank.samples@)
        },
{
    match piece.validate() {
        Ok(()) => render_with_bank_unchecked(piece, bank, f),
        Err(e) => Err(RenderError::Validation(e)),
    }
}

/// Renders a piece, given the bytes that its directory holds of its sample
/// files, in the order of its table of samples. A faulty piece is refused
/// before a faulty file.
pub fn render_with_dir<F: Fn(Curve) -> Single>(piece: &Piece, files: &Vec<Vec<u8>>, f: &F) -> (r: Result<
    Vec<Single>,
    RenderError,
>)
    requires
        curve::accepts(*f),
        2 * piece.duration_samples <= usize::MAX,
        files@.len() == piece.samples.order().len(),
    ensures
        ({
            let bank = sample::bank_of(
                piece.samples.order(),
                piece.samples@,
                sample::contents(files@),
                files@.len() as int,
            );
            match r {
                Ok(buf) => {
                    &&& piece@.valid() && bank is Ok
                    &&& buf@.len() == 2 * piece.duration_samples
                    &&& forall|m: spec_fn(Curve) -> Single| #[trigger]
                        curve::follows(*f, m) ==> buf@ == rendered(m, piece@, bank->Ok_0)
                },
                Err(RenderError::Validation(e)) => !piece@.valid() && piece@.judged(Some(e@)),
                Err(RenderError::SampleLoad(e)) => piece@.valid() && bank is Err && e@ == bank->Err_0,
                Err(RenderError::MissingVoice(_, _)) => false,
            }
        }),
{
    match piece.validate() {
        Ok(()) => match SampleBank::load(piece, files) {
            Ok(bank) => render_with_bank_unchecked(piece, &bank, f),
            Err(e) => Err(RenderError::SampleLoad(e)),
        },
        Err(e) => Err(RenderError::Validation(e)),
    }
}

proof fn lemma_mixed_length(m: spec_fn(Curve) -> Single, p: PieceModel, bank: Map<Seq<char>, Seq<Single>>, n: int)
    ensures
        mixed(m, p, bank, n).len() == 2 * p.duration_samples,
    decreases n,
{
    if n > 0 {
        lemma_mixed_length(m, p, bank, n - 1);
    }
}

pub proof fn lemma_rendered_length(m: spec_fn(Curve) -> Single, p: PieceModel, bank: Map<Seq<char>, Seq<Single>>)
    ensures
        rendered(m, p, bank).len() == 2 * p.duration_samples,
{
    lemma_mixed_length(m, p, bank, p.events.len() as int);
}

/// The sizes of the values that panning multiplies by.
proof fn lemma_pan_sizes()
    ensures
        ({
            let unit = pow2(single::UNIT as nat);
            &&& (Single { bits: single::ONE }).size() == unit
            &&& (Single { bits: single::MINUS_ONE }).size() == unit
            &&& 2 * (Single { bits: HALF }).size() == unit
            &&& rounding::scaled(24, TWO as nat) == 2 * unit
            &&& (Single { bits: QUARTER_TURN }).size() == 2 * (Single { bits: EIGHTH_TURN }).size()
        }),
{
    lemma2_to64();
    lemma2_to64_rest();
    rounding::lemma_scaled_at(24, single::ONE as nat, pow2(23), 126);
    rounding::lemma_scaled_at(24, HALF as nat, pow2(23), 125);
    rounding::lemma_scaled_at(24, TWO as nat, pow2(23), 127);
    lemma_pow2_adds(23, 126);
    lemma_pow2_adds(23, 125);
    lemma_pow2_adds(23, 127);
    lemma_pow2_unfold(149);
    lemma_pow2_unfold(150);
}

/// Panning turns from none to a quarter turn: none where the pan is -1 or
/// below, half of it at 0, all of it where the pan is 1 or above.
pub proof fn law_pan_turns_a_quarter(pan: Single)
    requires
        !pan.nan(),
    ensures
        pan.at_most(Single { bits: single::MINUS_ONE }) ==> pan_angle(pan) == (Single { bits: 0 }),
        pan.zero() ==> pan_angle(pan) == (Single { bits: EIGHTH_TURN }),
        (Single { bits: single::ONE }).at_most(pan) ==> pan_angle(pan) == (Single { bits: QUARTER_TURN }),
        (Single { bits: 0 }).at_most(pan_angle(pan)),
        pan_angle(pan).at_most(Single { bits: QUARTER_TURN }),
{
    let unit: nat = pow2(single::UNIT as nat);
    lemma_pow2_pos(single::UNIT as nat);
    lemma_pan_sizes();
    let one: Single = Single { bits: single::ONE };
    let low: Single = Single { bits: single::MINUS_ONE };
    let half: Single = Single { bits: HALF };
    let quarter: Single = Single { bits: QUARTER_TURN };
    let two: Single = Single { bits: TWO };
    let none: Single = Single { bits: 0 };
    assert(rounding::scaled(24, 0) == 0) by {
        lemma2_to64();
    }
    assert(low.sum(one) == none && one.sum(one) == two && none.sum(one) == one && (Single {
        bits: single::SIGN,
    }).sum(one) == one) by {
        reveal(Single::sum);
        rounding::lemma_pack_of_scaled(24, TWO as nat);
        rounding::lemma_pack_of_scaled(24, single::ONE as nat);
    }
    assert(0 * half.size() == 0 && 0 * quarter.size() == 0 && unit * 0 == 0);
    order::lemma_product_exact(none, half, 0);
    order::lemma_product_exact(none, quarter, 0);
    assert((2 * unit) * half.size() == unit * unit) by (nonlinear_arith)
        requires
            2 * half.size() == unit,
    ;
    order::lemma_product_exact(two, half, single::ONE as nat);
    order::lemma_product_exact(one, quarter, QUARTER_TURN as nat);
    order::lemma_product_exact(one, half, HALF as nat);
    let eighth: nat = (Single { bits: EIGHTH_TURN }).size();
    assert(half.size() * (2 * eighth) == unit * eighth) by (nonlinear_arith)
        requires
            2 * half.size() == unit,
    ;
    order::lemma_product_exact(half, quarter, EIGHTH_TURN as nat);
    order::lemma_within_one(pan);
    let kept: Single = pan.clamped(low, one);
    order::lemma_within_one(kept);
    lemma_pan_is_monotone(low, kept);
    lemma_pan_is_monotone(kept, one);
    assert(kept.clamped(low, one) == kept);
}

proof fn lemma_pan_is_monotone(a: Single, b: Single)
    requires
        order::within(a, 1),
        order::within(b, 1),
        a.at_most(b),
    ensures
        pan_angle(a).at_most(pan_angle(b)),
{
    lemma_pan_sizes();
    let unit: nat = pow2(single::UNIT as nat);
    lemma_pow2_pos(single::UNIT as nat);
    let one: Single = Single { bits: single::ONE };
    let half: Single = Single { bits: HALF };
    order::lemma_within_one(a);
    order::lemma_within_one(b);
    order::lemma_sum_within(a, one, 1, 1);
    order::lemma_sum_within(b, one, 1, 1);
    order::lemma_sum_monotone(a, b, one);
    assert(order::within(half, 1));
    order::lemma_product_within(a.sum(one), half, 2, 1);
    order::lemma_product_within(b.sum(one), half, 2, 1);
    order::lemma_product_monotone(a.sum(one), b.sum(one), half);
    order::lemma_product_monotone(
        a.sum(one).product(half),
        b.sum(one).product(half),
        Single { bits: QUARTER_TURN },
    );
}

/// Panning further to the right never turns back.
pub proof fn law_pan_never_turns_back(a: Single, b: Single)
    requires
        a.at_most(b),
    ensures
        pan_angle(a).at_most(pan_angle(b)),
{
    let low: Single = Single { bits: single::MINUS_ONE };
    let high: Single = Single { bits: single::ONE };
    let x: Single = a.clamped(low, high);
    let y: Single = b.clamped(low, high);
    order::lemma_within_one(a);
    order::lemma_within_one(b);
    order::lemma_within_one(x);
    order::lemma_within_one(y);
    lemma_pan_is_monotone(x, y);
}

/// Whether two values differ by less than a millionth.
pub open spec fn close(a: Single, b: Single) -> bool {
    &&& a.finite() && b.finite()
    &&& 1000000 * fx::distance(a.units(), b.units()) < pow2(single::UNIT as nat)
}

/// Whether the squares of two gains sum to one, within a millionth.
pub open spec fn equal_power(left: Single, right: Single) -> bool {
    let unit = pow2(single::UNIT as nat) as int;
    &&& left.finite() && right.finite()
    &&& 1000000 * fx::distance(left.units() * left.units() + right.units() * right.units(), unit * unit) < unit
        * unit
}

/// Whether an angle lies within a quarter turn.
pub open spec fn in_quarter(x: Single) -> bool {
    (Single { bits: 0 }).at_most(x) && x.at_most(Single { bits: QUARTER_TURN })
}

/// Whether a machine's cosine and sine run along the circle over a quarter
/// turn, within a millionth: from its one end through its middle to its other
/// end, and never back.
pub open spec fn follows_circle(m: spec_fn(Curve) -> Single) -> bool {
    let zero = Single { bits: 0 };
    let one = Single { bits: single::ONE };
    let middle = Single { bits: EIGHTH_TURN };
    let end = Single { bits: QUARTER_TURN };
    &&& close(m(Curve::Cos(zero)), one) && close(m(Curve::Sin(zero)), zero)
    &&& close(m(Curve::Cos(middle)), m(Curve::Sin(middle)))
    &&& close(m(Curve::Cos(end)), zero) && close(m(Curve::Sin(end)), one)
    &&& forall|x: Single| in_quarter(x) ==> equal_power(#[trigger] m(Curve::Cos(x)), m(Curve::Sin(x)))
    &&& forall|x: Single, y: Single|
        in_quarter(x) && in_quarter(y) && x.at_most(y) ==> (#[trigger] m(Curve::Sin(x))).at_most(
            #[trigger] m(Curve::Sin(y)),
        )
    &&& forall|x: Single, y: Single|
        in_quarter(x) && in_quarter(y) && x.at_most(y) ==> (#[trigger] m(Curve::Cos(y))).at_most(
            #[trigger] m(Curve::Cos(x)),
        )
}

/// The left and the right gain of a pan.
pub open spec fn gains(m: spec_fn(Curve) -> Single, pan: Single) -> (Single, Single) {
    (m(Curve::Cos(pan_angle(pan))), m(Curve::Sin(pan_angle(pan))))
}

/// Panning has equal power, on a machine whose cosine and sine follow the
/// circle: at -1 all of it is left, at 0 both sides have the same, at 1 all of
/// it is right.
pub proof fn law_pan_has_equal_power(m: spec_fn(Curve) -> Single, pan: Single)
    requires
        !pan.nan(),
        follows_circle(m),
    ensures
        ({
            let (left, right) = gains(m, pan);
            let zero = Single { bits: 0 };
            let one = Single { bits: single::ONE };
            &&& equal_power(left, right)
            &&& pan.at_most(Single { bits: single::MINUS_ONE }) ==> close(left, one) && close(right, zero)
            &&& pan.zero() ==> close(left, right)
            &&& one.at_most(pan) ==> close(left, zero) && close(right, one)
        }),
{
    law_pan_turns_a_quarter(pan);
    assert(in_quarter(pan_angle(pan)));
}

/// Panning further to the right makes the right no softer and the left no
/// louder, on a machine whose cosine and sine follow the circle.
pub proof fn law_pan_moves_the_sound(m: spec_fn(Curve) -> Single, a: Single, b: Single)
    requires
        a.at_most(b),
        follows_circle(m),
    ensures
        gains(m, a).1.at_most(gains(m, b).1),
        gains(m, b).0.at_most(gains(m, a).0),
{
    law_pan_turns_a_quarter(a);
    law_pan_turns_a_quarter(b);
    law_pan_never_turns_back(a, b);
}

/// A rendered piece has two samples for each frame, each of them in [-1, 1]
/// unless it is not a number.
pub proof fn law_rendered_in_range(
    m: spec_fn(Curve) -> Single,
    p: PieceModel,
    bank: Map<Seq<char>, Seq<Single>>,
    i: int,
)
    requires
        0 <= i < 2 * p.duration_samples,
    ensures
        rendered(m, p, bank).len() == 2 * p.duration_samples,
        rendered(m, p, bank)[i].nan() || {
            &&& (Single { bits: single::MINUS_ONE }).at_most(rendered(m, p, bank)[i])
            &&& rendered(m, p, bank)[i].at_most(Single { bits: single::ONE })
        },
{
    lemma_mixed_length(m, p, bank, p.events.len() as int);
}

/// The sound of an event is as long as the event.
pub proof fn law_sound_length(
    m: spec_fn(Curve) -> Single,
    def: VoiceModel,
    e: EventModel,
    rate: u32,
    bank: Map<Seq<char>, Seq<Single>>,
)
    ensures
        sound(m, def, e, rate, bank).len() == e.dur,
{
    let raw: Seq<Single> = voice::voiced(m, def, e, rate, bank, e.dur as nat);
    fx::law_effects_keep_length(
        e.fx,
        m,
        envelope::enveloped(e.envelope, m, raw),
        rate,
        e.fx.len() as int,
    );
}

/// An event changes no frame outside its own time.
pub proof fn law_event_stays_in_its_frames(
    master: Seq<Single>,
    m: spec_fn(Curve) -> Single,
    def: VoiceModel,
    e: EventModel,
    rate: u32,
    bank: Map<Seq<char>, Seq<Single>>,
    j: int,
)
    requires
        0 <= j < master.len(),
        j < 2 * e.t || j >= 2 * (e.t + e.dur),
    ensures
        with_event(master, m, def, e, rate, bank)[j] == master[j],
{
    law_sound_length(m, def, e, rate, bank);
}

/// Between its two fades a sound is left as it is.
pub proof fn law_declick_keeps_body(s: Seq<Single>, sample_rate: u32, i: int)
    requires
        fade_length(s.len() as int, sample_rate) <= i < s.len() - fade_length(s.len() as int, sample_rate),
        0 <= i,
    ensures
        declicked(s, sample_rate)[i] == s[i],
{
}

/// An event later on the timeline sounds the same, unless it is noise.
pub proof fn law_sound_ignores_time(
    m: spec_fn(Curve) -> Single,
    def: VoiceModel,
    e: EventModel,
    t: u64,
    rate: u32,
    bank: Map<Seq<char>, Seq<Single>>,
)
    requires
        !(def is NoiseBandpass),
    ensures
        sound(m, def, (EventModel { t, ..e }), rate, bank) == sound(m, def, e, rate, bank),
{
    voice::lemma_voice_ignores_time(m, def, e, t, rate, bank, e.dur as nat);
}

/// Whether a voice sounds the same from two banks: the sample that it plays,
/// if it plays one, is in both or in neither, and the same.
pub open spec fn same_sample(
    def: VoiceModel,
    a: Map<Seq<char>, Seq<Single>>,
    b: Map<Seq<char>, Seq<Single>>,
) -> bool {
    def matches VoiceModel::Sample { sample_id, .. } ==> {
        &&& a.dom().contains(sample_id) == b.dom().contains(sample_id)
        &&& a.dom().contains(sample_id) ==> a[sample_id] == b[sample_id]
    }
}

proof fn lemma_sound_from_either_bank(
    m: spec_fn(Curve) -> Single,
    def: VoiceModel,
    e: EventModel,
    rate: u32,
    a: Map<Seq<char>, Seq<Single>>,
    b: Map<Seq<char>, Seq<Single>>,
)
    requires
        same_sample(def, a, b),
    ensures
        sound(m, def, e, rate, a) == sound(m, def, e, rate, b),
{
    assert(voice::voiced(m, def, e, rate, a, e.dur as nat) =~= voice::voiced(
        m,
        def,
        e,
        rate,
        b,
        e.dur as nat,
    ));
}

/// A stretch of time in a piece, with the bank that the piece plays from: it
/// begins at frame `start`, and the events in it begin with event `first`.
pub struct Stretch {
    pub piece: PieceModel,
    pub bank: Map<Seq<char>, Seq<Single>>,
    pub first: int,
    pub start: int,
}

impl Stretch {
    /// Whether, of the events of the piece, only the `count` from the first on
    /// sound within `frames` frames.
    pub open spec fn holds(self, count: int, frames: int) -> bool {
        &&& 0 <= self.first && 0 <= count && self.first + count <= self.piece.events.len()
        &&& 0 <= self.start && 0 <= frames && self.start + frames <= self.piece.duration_samples
        &&& forall|i: int|
            0 <= i < self.piece.events.len() && !(self.first <= i < self.first + count) ==> {
                let e = #[trigger] self.piece.events[i];
                e.t + e.dur <= self.start || e.t >= self.start + frames
            }
    }

    /// Whether two stretches have the same `k`th event: at the same distance
    /// from their start, with one voice. Noise depends on when it sounds, so
    /// with noise both stretches start in the same frame.
    pub open spec fn matches_at(self, other: Stretch, k: int) -> bool {
        let e = self.piece.events[self.first + k];
        let d = other.piece.events[other.first + k];
        let def = self.piece.voices[e.voice];
        &&& d == (EventModel { t: d.t, ..e })
        &&& e.t - self.start == d.t - other.start
        &&& def == other.piece.voices[d.voice]
        &&& same_sample(def, self.bank, other.bank)
        &&& def is NoiseBandpass ==> self.start == other.start
    }
}

/// Sample `x` of the buffer, when the first `k` events of a stretch have been
/// added to silence.
spec fn heard(m: spec_fn(Curve) -> Single, s: Stretch, k: int, x: int) -> Single
    decreases k,
{
    if k <= 0 {
        Single { bits: 0 }
    } else {
        let before = heard(m, s, k - 1, x);
        let e = s.piece.events[s.first + k - 1];
        if 2 * e.t <= x < 2 * (e.t + e.dur) {
            before.sum(
                sound(m, s.piece.voices[e.voice], e, s.piece.sample_rate, s.bank)[x / 2 - e.t].product(
                    if x % 2 == 0 {
                        m(Curve::Cos(pan_angle(e.pan)))
                    } else {
                        m(Curve::Sin(pan_angle(e.pan)))
                    },
                ),
            )
        } else {
            before
        }
    }
}

/// How many of the first `n` events are among the `len` from `at` on.
spec fn inside(at: int, len: int, n: int) -> int {
    if n <= at {
        0
    } else if n >= at + len {
        len
    } else {
        n - at
    }
}

/// Only the events of a stretch are heard in it.
proof fn lemma_heard(m: spec_fn(Curve) -> Single, s: Stretch, count: int, frames: int, n: int, x: int)
    requires
        s.holds(count, frames),
        2 * s.start <= x < 2 * (s.start + frames),
        0 <= n <= s.piece.events.len(),
    ensures
        mixed(m, s.piece, s.bank, n)[x] == heard(m, s, inside(s.first, count, n), x),
    decreases n,
{
    lemma_mixed_length(m, s.piece, s.bank, n);
    if n > 0 {
        lemma_heard(m, s, count, frames, n - 1, x);
        lemma_mixed_length(m, s.piece, s.bank, n - 1);
        let e: EventModel = s.piece.events[n - 1];
        law_sound_length(m, s.piece.voices[e.voice], e, s.piece.sample_rate, s.bank);
        if s.first <= n - 1 < s.first + count {
            assert(s.first + inside(s.first, count, n) - 1 == n - 1);
        }
    }
}

/// Matching events are heard alike.
proof fn lemma_heard_alike(m: spec_fn(Curve) -> Single, a: Stretch, b: Stretch, k: int, x: int)
    requires
        0 <= k,
        2 * a.start <= x,
        a.piece.sample_rate == b.piece.sample_rate,
        forall|i: int| 0 <= i < k ==> #[trigger] a.matches_at(b, i),
    ensures
        heard(m, a, k, x) == heard(m, b, k, x + 2 * (b.start - a.start)),
    decreases k,
{
    if k > 0 {
        lemma_heard_alike(m, a, b, k - 1, x);
        assert(a.matches_at(b, k - 1));
        let e: EventModel = a.piece.events[a.first + k - 1];
        let d: EventModel = b.piece.events[b.first + k - 1];
        assert(a.first + (k - 1) == a.first + k - 1);
        assert(b.first + (k - 1) == b.first + k - 1);
        let def: VoiceModel = a.piece.voices[e.voice];
        let rate: u32 = a.piece.sample_rate;
        let y: int = x + 2 * (b.start - a.start);
        assert(y / 2 == x / 2 + (b.start - a.start));
        assert(y % 2 == x % 2);
        lemma_sound_from_either_bank(m, def, d, rate, a.bank, b.bank);
        if def is NoiseBandpass {
            assert(d == e);
        } else {
            law_sound_ignores_time(m, def, e, d.t, rate, a.bank);
        }
    }
}

/// Two stretches with matching events sound alike, whatever sounds before and
/// after them in their pieces.
pub proof fn law_stretches_sound_alike(
    m: spec_fn(Curve) -> Single,
    a: Stretch,
    b: Stretch,
    count: int,
    frames: int,
)
    requires
        a.holds(count, frames),
        b.holds(count, frames),
        a.piece.sample_rate == b.piece.sample_rate,
        forall|k: int| 0 <= k < count ==> #[trigger] a.matches_at(b, k),
    ensures
        rendered(m, a.piece, a.bank).subrange(2 * a.start, 2 * (a.start + frames)) == rendered(
            m,
            b.piece,
            b.bank,
        ).subrange(2 * b.start, 2 * (b.start + frames)),
{
    let na: int = a.piece.events.len() as int;
    let nb: int = b.piece.events.len() as int;
    lemma_mixed_length(m, a.piece, a.bank, na);
    lemma_mixed_length(m, b.piece, b.bank, nb);
    let one: Seq<Single> = mixed(m, a.piece, a.bank, na);
    let two: Seq<Single> = mixed(m, b.piece, b.bank, nb);
    assert forall|j: int| 0 <= j < 2 * frames implies #[trigger] one[2 * a.start + j] == two[2 * b.start + j] by {
        lemma_heard(m, a, count, frames, na, 2 * a.start + j);
        lemma_heard(m, b, count, frames, nb, 2 * b.start + j);
        lemma_heard_alike(m, a, b, count, 2 * a.start + j);
    }
    let left: Seq<Single> = rendered(m, a.piece, a.bank).subrange(2 * a.start, 2 * (a.start + frames));
    let right: Seq<Single> = rendered(m, b.piece, b.bank).subrange(2 * b.start, 2 * (b.start + frames));
    assert forall|j: int| 0 <= j < left.len() implies left[j] == right[j] by {
        assert(one[2 * a.start + j] == two[2 * b.start + j]);
    }
    assert(left =~= right);
}

} // verus!
