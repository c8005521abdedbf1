//! How loud an event is over its time.

use vstd::prelude::*;

use crate::closeness;
use crate::curve;
use crate::curve::{take, Curve};
use crate::order;
use crate::piece::Envelope;
use crate::single;
use crate::single::Single;

verus! {

/// The smaller number.
pub open spec fn lesser(a: int, b: int) -> int {
    if a <= b {
        a
    } else {
        b
    }
}

/// At least one.
pub open spec fn at_least_one(n: int) -> int {
    if n < 1 {
        1
    } else {
        n
    }
}

/// How far `i` is into `n` steps.
pub open spec fn share(i: int, n: int) -> Single {
    Single::of_int(i).quotient(Single::of_int(at_least_one(n)))
}

/// The value `x` at step `i` of an event of `n` samples, under an envelope.
pub open spec fn shaped(env: Envelope, m: spec_fn(Curve) -> Single, n: int, i: int, x: Single) -> Single {
    let one = Single { bits: single::ONE };
    match env {
        Envelope::Gate => x,
        Envelope::Ad { attack, decay } => {
            let a = lesser(attack as int, n);
            let d_end = lesser(a + decay, n);
            if i < a {
                x.product(share(i, a))
            } else if i < d_end {
                x.product(one.difference(share(i - a, d_end - a)))
            } else {
                Single { bits: 0 }
            }
        },
        Envelope::Adsr { attack, decay, sustain, release } => {
            let a = lesser(attack as int, n);
            let d_end = lesser(a + decay, n);
            let r_start = if n - release > d_end { n - release } else { d_end };
            if i < a {
                x.product(share(i, a))
            } else if i < d_end {
                x.product(one.sum(sustain.difference(one).product(share(i - a, decay as int))))
            } else if i < r_start {
                x.product(sustain)
            } else {
                x.product(sustain.product(one.difference(share(i - r_start, n - r_start))))
            }
        },
        Envelope::Exp { attack, tau } => {
            let a = lesser(attack as int, n);
            if i < a {
                x.product(share(i, a))
            } else {
                x.product(
                    m(
                        Curve::Exp(
                            Single::of_int(i - a).negated().quotient(
                                Single::of_int(at_least_one(tau as int)),
                            ),
                        ),
                    ),
                )
            }
        },
    }
}

/// A buffer under an envelope.
pub open spec fn enveloped(env: Envelope, m: spec_fn(Curve) -> Single, buf: Seq<Single>) -> Seq<Single> {
    Seq::new(buf.len(), |i: int| shaped(env, m, buf.len() as int, i, buf[i]))
}

fn share_of(i: u64, n: u64) -> (r: Single)
    ensures
        r == share(i as int, n as int),
{
    let d: u64 = if n < 1 { 1 } else { n };
    Single::from_natural(i).over(Single::from_natural(d))
}

fn shape<F: Fn(Curve) -> Single>(env: Envelope, f: &F, n: u64, i: u64, x: Single) -> (r: Single)
    requires
        curve::accepts(*f),
        i < n,
    ensures
        forall|m: spec_fn(Curve) -> Single| #[trigger]
            curve::follows(*f, m) ==> r == shaped(env, m, n as int, i as int, x),
{
    let one: Single = Single::of_bits(single::ONE);
    match env {
        Envelope::Gate => x,
        Envelope::Ad { attack, decay } => {
            let a: u64 = if attack <= n { attack } else { n };
            let d_end: u64 = if decay <= n - a { a + decay } else { n };
            if i < a {
                x.times(share_of(i, a))
            } else if i < d_end {
                x.times(one.minus(share_of(i - a, d_end - a)))
            } else {
                Single::of_bits(0)
            }
        },
        Envelope::Adsr { attack, decay, sustain, release } => {
            let a: u64 = if attack <= n { attack } else { n };
            let d_end: u64 = if decay <= n - a { a + decay } else { n };
            let r_start: u64 = if release <= n && n - release > d_end { n - release } else { d_end };
            if i < a {
                x.times(share_of(i, a))
            } else if i < d_end {
                x.times(one.plus(sustain.minus(one).times(share_of(i - a, decay))))
            } else if i < r_start {
                x.times(sustain)
            } else {
                x.times(sustain.times(one.minus(share_of(i - r_start, n - r_start))))
            }
        },
        Envelope::Exp { attack, tau } => {
            let a: u64 = if attack <= n { attack } else { n };
            if i < a {
                x.times(share_of(i, a))
            } else {
                let d: u64 = if tau < 1 { 1 } else { tau };
                let at: Single = Single::from_natural(i - a).negate().over(Single::from_natural(d));
                x.times(take(f, Curve::Exp(at)))
            }
        },
    }
}

/// Puts a buffer under an envelope.
pub fn apply_envelope<F: Fn(Curve) -> Single>(env: &Envelope, f: &F, buf: &mut Vec<Single>)
    requires
        curve::accepts(*f),
    ensures
        final(buf)@.len() == old(buf)@.len(),
        forall|m: spec_fn(Curve) -> Single| #[trigger]
            curve::follows(*f, m) ==> final(buf)@ == enveloped(*env, m, old(buf)@),
{
    let ghost before = buf@;
    let n: usize = buf.len();
    let mut i: usize = 0;
    while i < n
        invariant
            i <= n,
            n == before.len(),
            buf@.len() == n,
            curve::accepts(*f),
            forall|k: int| i <= k < n ==> #[trigger] buf@[k] == before[k],
            forall|m: spec_fn(Curve) -> Single, k: int|
                0 <= k < i && #[trigger] curve::follows(*f, m) ==> #[trigger] buf@[k] == shaped(
                    *env,
                    m,
                    n as int,
                    k,
                    before[k],
                ),
        decreases n - i,
    {
        let y: Single = shape(*env, f, n as u64, i as u64, buf[i]);
        buf.set(i, y);
        i = i + 1;
    }
    assert forall|m: spec_fn(Curve) -> Single| #[trigger] curve::follows(*f, m) implies buf@ == enveloped(
        *env,
        m,
        before,
    ) by {
        assert(buf@ =~= enveloped(*env, m, before));
    }
}

/// An event under an attack-decay envelope is silent after its decay.
pub proof fn law_silent_after_decay(attack: u64, decay: u64, m: spec_fn(Curve) -> Single, buf: Seq<Single>, i: int)
    requires
        attack + decay <= i < buf.len(),
    ensures
        enveloped(Envelope::Ad { attack, decay }, m, buf)[i] == (Single { bits: 0 }),
{
}

/// A gate changes nothing.
pub proof fn law_gate_is_identity(m: spec_fn(Curve) -> Single, buf: Seq<Single>)
    ensures
        enveloped(Envelope::Gate, m, buf) == buf,
{
    assert(enveloped(Envelope::Gate, m, buf) =~= buf);
}

/// Whether a value is another times a gain that is `num / den`, up to a few
/// parts in `2^24` of it.
pub open spec fn risen(y: Single, x: Single, num: int, den: int) -> bool {
    exists|g: Single| y == #[trigger] x.product(g) && closeness::about(g, num, den, 4)
}

/// Whether a value is another times a gain that is `num / den`, up to a few
/// parts in `2^24` of one.
pub open spec fn fallen(y: Single, x: Single, num: int, den: int) -> bool {
    exists|g: Single| y == #[trigger] x.product(g) && closeness::within_parts(g, num, den, 6)
}

/// Every envelope but `Gate` rises in a straight line through its attack,
/// from nothing, and would be at full level at the attack's end. An attack that
/// is longer than the event is cut to the event.
pub proof fn law_attack_rises(env: Envelope, m: spec_fn(Curve) -> Single, buf: Seq<Single>, i: int)
    requires
        buf.len() < 0x1_0000_0000_0000_0000,
        0 <= i < buf.len(),
    ensures
        ({
            let n = buf.len() as int;
            let attack = match env {
                Envelope::Gate => 0,
                Envelope::Ad { attack, .. } => attack as int,
                Envelope::Adsr { attack, .. } => attack as int,
                Envelope::Exp { attack, .. } => attack as int,
            };
            let a = if attack <= n { attack } else { n };
            i < a ==> risen(enveloped(env, m, buf)[i], buf[i], i, a)
        }),
{
    let n: int = buf.len() as int;
    let attack: int = match env {
        Envelope::Gate => 0,
        Envelope::Ad { attack, .. } => attack as int,
        Envelope::Adsr { attack, .. } => attack as int,
        Envelope::Exp { attack, .. } => attack as int,
    };
    let a: int = if attack <= n { attack } else { n };
    if i < a {
        let g: Single = Single::of_int(i).quotient(Single::of_int(a));
        closeness::lemma_share(i, a);
        assert(enveloped(env, m, buf)[i] == buf[i].product(g));
    }
}

/// After its attack, an attack-decay envelope falls from full level to nothing
/// in a straight line, and ends with the event at the latest.
pub proof fn law_decay_falls(attack: u64, decay: u64, m: spec_fn(Curve) -> Single, buf: Seq<Single>, i: int)
    requires
        buf.len() < 0x1_0000_0000_0000_0000,
        attack <= i < attack + decay,
        i < buf.len(),
    ensures
        ({
            let n = buf.len() as int;
            let end = if attack + decay <= n { attack + decay } else { n };
            fallen(enveloped(Envelope::Ad { attack, decay }, m, buf)[i], buf[i], end - i, end - attack)
        }),
{
    let n: int = buf.len() as int;
    let end: int = if attack + decay <= n { attack + decay } else { n };
    let g: Single = (Single { bits: single::ONE }).difference(
        Single::of_int(i - attack).quotient(Single::of_int(end - attack)),
    );
    closeness::lemma_rest(i - attack, end - attack);
    assert(enveloped(Envelope::Ad { attack, decay }, m, buf)[i] == buf[i].product(g));
}

/// Between its decay and its release, an event under an ADSR has its sustain
/// level. The release takes the last samples, and none before.
pub proof fn law_sustain_holds(
    attack: u64,
    decay: u64,
    sustain: Single,
    release: u64,
    m: spec_fn(Curve) -> Single,
    buf: Seq<Single>,
    i: int,
)
    requires
        attack + decay <= i < buf.len() - release,
    ensures
        enveloped(Envelope::Adsr { attack, decay, sustain, release }, m, buf)[i] == buf[i].product(sustain),
{
}

/// In its decay, an ADSR goes from full level to its sustain in a straight
/// line.
pub proof fn law_decay_goes_to_sustain(
    attack: u64,
    decay: u64,
    sustain: Single,
    release: u64,
    m: spec_fn(Curve) -> Single,
    buf: Seq<Single>,
    i: int,
)
    requires
        order::within(sustain, 1),
        attack <= i < attack + decay,
        i < buf.len(),
    ensures
        exists|g: Single|
            enveloped(Envelope::Adsr { attack, decay, sustain, release }, m, buf)[i] == #[trigger] buf[i].product(
                g,
            ) && closeness::on_the_way(
                g,
                Single { bits: single::ONE },
                sustain,
                i - attack,
                decay as int,
            ),
{
    let one: Single = Single { bits: single::ONE };
    let k: int = i - attack;
    order::lemma_within_one(one);
    order::lemma_one_within_power(one, 100);
    order::lemma_one_within_power(sustain, 100);
    closeness::lemma_between(one, sustain, k, decay as int);
    let g: Single = closeness::between(one, sustain, Single::of_int(k).quotient(Single::of_int(decay as int)));
    assert(enveloped(Envelope::Adsr { attack, decay, sustain, release }, m, buf)[i] == buf[i].product(g));
}

/// In its release, an ADSR goes from its sustain to nothing in a straight
/// line. Where the event is too short for all three, the release has what the
/// attack and the decay leave.
pub proof fn law_release_falls(
    attack: u64,
    decay: u64,
    sustain: Single,
    release: u64,
    m: spec_fn(Curve) -> Single,
    buf: Seq<Single>,
    i: int,
)
    requires
        buf.len() < 0x1_0000_0000_0000_0000,
        order::within(sustain, 1),
        attack + decay <= i,
        buf.len() - release <= i < buf.len(),
    ensures
        ({
            let n = buf.len() as int;
            let tail = if attack + decay + release <= n { release as int } else { n - (attack + decay) };
            exists|g: Single|
                enveloped(Envelope::Adsr { attack, decay, sustain, release }, m, buf)[i]
                    == #[trigger] buf[i].product(g) && g.finite() && 0x100_0000 * closeness::gap(
                    g.units() * tail - sustain.units() * (n - i),
                ) <= 8 * (tail * closeness::whole())
        }),
{
    let n: int = buf.len() as int;
    let tail: int = if attack + decay + release <= n { release as int } else { n - (attack + decay) };
    let k: int = i - (n - tail);
    closeness::lemma_rest_of(sustain, k, tail);
    let rest: Single = (Single { bits: single::ONE }).difference(
        Single::of_int(k).quotient(Single::of_int(tail)),
    );
    let g: Single = sustain.product(rest);
    assert(tail - k == n - i);
    assert(enveloped(Envelope::Adsr { attack, decay, sustain, release }, m, buf)[i] == buf[i].product(g));
}

/// After its attack, an exponential envelope is the exponential of minus the
/// time over its time constant.
pub proof fn law_exponential_falls(attack: u64, tau: u64, m: spec_fn(Curve) -> Single, buf: Seq<Single>, i: int)
    requires
        buf.len() < 0x1_0000_0000_0000_0000,
        attack <= i < buf.len(),
        tau > 0,
    ensures
        exists|z: Single|
            enveloped(Envelope::Exp { attack, tau }, m, buf)[i] == buf[i].product(#[trigger] m(Curve::Exp(z)))
                && closeness::about(z, attack - i, tau as int, 4),
{
    let k: int = i - attack;
    let x: Single = Single::of_int(k);
    let y: Single = x.quotient(Single::of_int(tau as int));
    let z: Single = x.negated().quotient(Single::of_int(tau as int));
    order::lemma_of_int_finite(k);
    order::lemma_of_int_finite(tau as int);
    assert(z == y.negated()) by {
        reveal(Single::quotient);
    }
    closeness::lemma_ratio(k, tau as int);
    assert(z.units() == -y.units());
    assert((-y.units()) * tau == -(y.units() * tau) && (-k) * closeness::whole() == -(k * closeness::whole()))
        by (nonlinear_arith);
    assert(enveloped(Envelope::Exp { attack, tau }, m, buf)[i] == buf[i].product(m(Curve::Exp(z))));
}

} // verus!
