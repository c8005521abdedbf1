//! Filters.

use vstd::prelude::*;

use crate::curve;
use crate::curve::{take, Curve};
use crate::single;
use crate::single::Single;

verus! {

/// The pattern of twice pi.
pub const TAU: u32 = 0x40c9_0fdb;

/// Direct Form I biquad.
#[derive(Clone, Copy, Debug, PartialEq, Eq, Structural)]
pub struct Biquad {
    pub b0: Single,
    pub b1: Single,
    pub b2: Single,
    pub a1: Single,
    pub a2: Single,
    pub x1: Single,
    pub x2: Single,
    pub y1: Single,
    pub y2: Single,
}

/// The angle of a frequency.
pub open spec fn angle(sample_rate: Single, freq: Single) -> Single {
    (Single { bits: TAU }).product(freq).quotient(sample_rate)
}

/// The width of a filter: half the sine of its angle over its `q`, which is
/// kept above zero.
pub open spec fn alpha(m: spec_fn(Curve) -> Single, sample_rate: Single, freq: Single, q: Single) -> Single {
    m(Curve::Sin(angle(sample_rate, freq))).quotient(
        Single::of_int(2).product(q.larger(Single::of_ratio(1, 10000))),
    )
}

/// Raw coefficients divided by `a0`, with nothing heard yet.
pub open spec fn normalized(
    b0: Single,
    b1: Single,
    b2: Single,
    a0: Single,
    a1: Single,
    a2: Single,
) -> Biquad {
    let zero = Single { bits: 0 };
    Biquad {
        b0: b0.quotient(a0),
        b1: b1.quotient(a0),
        b2: b2.quotient(a0),
        a1: a1.quotient(a0),
        a2: a2.quotient(a0),
        x1: zero,
        x2: zero,
        y1: zero,
        y2: zero,
    }
}

/// RBJ bandpass with 0 dB peak gain.
pub open spec fn bandpass_of(m: spec_fn(Curve) -> Single, sample_rate: Single, center: Single, q: Single) -> Biquad {
    let one = Single { bits: single::ONE };
    let c = m(Curve::Cos(angle(sample_rate, center)));
    let a = alpha(m, sample_rate, center, q);
    normalized(
        a,
        Single { bits: 0 },
        a.negated(),
        one.sum(a),
        Single::of_int(-2).product(c),
        one.difference(a),
    )
}

/// RBJ low-pass.
pub open spec fn lowpass_of(m: spec_fn(Curve) -> Single, sample_rate: Single, cutoff: Single, q: Single) -> Biquad {
    let one = Single { bits: single::ONE };
    let c = m(Curve::Cos(angle(sample_rate, cutoff)));
    let a = alpha(m, sample_rate, cutoff, q);
    let b1 = one.difference(c);
    let b0 = b1.quotient(Single::of_int(2));
    normalized(b0, b1, b0, one.sum(a), Single::of_int(-2).product(c), one.difference(a))
}

/// RBJ high-pass.
pub open spec fn highpass_of(m: spec_fn(Curve) -> Single, sample_rate: Single, cutoff: Single, q: Single) -> Biquad {
    let one = Single { bits: single::ONE };
    let c = m(Curve::Cos(angle(sample_rate, cutoff)));
    let a = alpha(m, sample_rate, cutoff, q);
    let b0 = one.sum(c).quotient(Single::of_int(2));
    let b1 = one.sum(c).negated();
    normalized(b0, b1, b0, one.sum(a), Single::of_int(-2).product(c), one.difference(a))
}

impl Biquad {
    /// What the filter answers to a value.
    pub open spec fn answer(self, x: Single) -> Single {
        self.b0.product(x).sum(self.b1.product(self.x1)).sum(self.b2.product(self.x2)).difference(
            self.a1.product(self.y1),
        ).difference(self.a2.product(self.y2))
    }

    /// The filter after it has heard a value.
    pub open spec fn heard(self, x: Single) -> Biquad {
        Biquad { x2: self.x1, x1: x, y2: self.y1, y1: self.answer(x), ..self }
    }

    /// The filter after it has heard the first `n` values.
    pub open spec fn after(self, s: Seq<Single>, n: int) -> Biquad
        decreases n,
    {
        if n <= 0 {
            self
        } else {
            self.after(s, n - 1).heard(s[n - 1])
        }
    }

    /// What the filter makes of a row of values.
    pub open spec fn filtered(self, s: Seq<Single>) -> Seq<Single> {
        Seq::new(s.len(), |i: int| self.after(s, i).answer(s[i]))
    }

    fn normalize(b0: Single, b1: Single, b2: Single, a0: Single, a1: Single, a2: Single) -> (r: Self)
        ensures
            r == normalized(b0, b1, b2, a0, a1, a2),
    {
        let zero: Single = Single::of_bits(0);
        Biquad {
            b0: b0.over(a0),
            b1: b1.over(a0),
            b2: b2.over(a0),
            a1: a1.over(a0),
            a2: a2.over(a0),
            x1: zero,
            x2: zero,
            y1: zero,
            y2: zero,
        }
    }

    /// The cosine and the width of a filter.
    fn rbj_terms<F: Fn(Curve) -> Single>(f: &F, sample_rate: Single, freq_hz: Single, q: Single) -> (r: (
        Single,
        Single,
    ))
        requires
            curve::accepts(*f),
        ensures
            forall|m: spec_fn(Curve) -> Single| #[trigger]
                curve::follows(*f, m) ==> r.0 == m(Curve::Cos(angle(sample_rate, freq_hz))) && r.1 == alpha(
                    m,
                    sample_rate,
                    freq_hz,
                    q,
                ),
    {
        let w0: Single = Single::of_bits(TAU).times(freq_hz).over(sample_rate);
        let sine: Single = take(f, Curve::Sin(w0));
        let cosine: Single = take(f, Curve::Cos(w0));
        let width: Single = sine.over(Single::from_int(2).times(q.max(Single::ratio(1, 10000))));
        (cosine, width)
    }

    /// RBJ bandpass with 0 dB peak gain.
    pub fn bandpass<F: Fn(Curve) -> Single>(f: &F, sample_rate: Single, center_hz: Single, q: Single) -> (r: Self)
        requires
            curve::accepts(*f),
        ensures
            forall|m: spec_fn(Curve) -> Single| #[trigger]
                curve::follows(*f, m) ==> r == bandpass_of(m, sample_rate, center_hz, q),
    {
        let (c, a) = Self::rbj_terms(f, sample_rate, center_hz, q);
        let one: Single = Single::of_bits(single::ONE);
        Self::normalize(
            a,
            Single::of_bits(0),
            a.negate(),
            one.plus(a),
            Single::from_int(-2).times(c),
            one.minus(a),
        )
    }

    /// RBJ low-pass. `cutoff_hz` is the -3 dB corner; `q` sets resonance.
    pub fn lowpass<F: Fn(Curve) -> Single>(f: &F, sample_rate: Single, cutoff_hz: Single, q: Single) -> (r: Self)
        requires
            curve::accepts(*f),
        ensures
            forall|m: spec_fn(Curve) -> Single| #[trigger]
                curve::follows(*f, m) ==> r == lowpass_of(m, sample_rate, cutoff_hz, q),
    {
        let (c, a) = Self::rbj_terms(f, sample_rate, cutoff_hz, q);
        let one: Single = Single::of_bits(single::ONE);
        let b1: Single = one.minus(c);
        let b0: Single = b1.over(Single::from_int(2));
        Self::normalize(b0, b1, b0, one.plus(a), Single::from_int(-2).times(c), one.minus(a))
    }

    /// RBJ high-pass. `cutoff_hz` is the -3 dB corner; `q` sets resonance.
    pub fn highpass<F: Fn(Curve) -> Single>(f: &F, sample_rate: Single, cutoff_hz: Single, q: Single) -> (r: Self)
        requires
            curve::accepts(*f),
        ensures
            forall|m: spec_fn(Curve) -> Single| #[trigger]
                curve::follows(*f, m) ==> r == highpass_of(m, sample_rate, cutoff_hz, q),
    {
        let (c, a) = Self::rbj_terms(f, sample_rate, cutoff_hz, q);
        let one: Single = Single::of_bits(single::ONE);
        let b0: Single = one.plus(c).over(Single::from_int(2));
        let b1: Single = one.plus(c).negate();
        Self::normalize(b0, b1, b0, one.plus(a), Single::from_int(-2).times(c), one.minus(a))
    }

    /// Hears a value and answers it.
    pub fn process(&mut self, x: Single) -> (y: Single)
        ensures
            y == old(self).answer(x),
            *final(self) == old(self).heard(x),
    {
        let y: Single = self.b0.times(x).plus(self.b1.times(self.x1)).plus(self.b2.times(self.x2)).minus(
            self.a1.times(self.y1),
        ).minus(self.a2.times(self.y2));
        self.x2 = self.x1;
        self.x1 = x;
        self.y2 = self.y1;
        self.y1 = y;
        y
    }
}

} // verus!
