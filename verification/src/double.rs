//! Double-precision values, held as their IEEE 754 bit patterns.
//!
//! Comparison, sum, product and quotient are those of the binary64 format:
//! the exact result, rounded to the nearest value, ties to even. They give the
//! same bits on every machine.

use vstd::prelude::*;
use vstd::arithmetic::power2::*;

use crate::rounding;
use crate::single;
use crate::single::Single;

verus! {

/// The pattern of infinity, without the sign.
pub const INFINITE: u64 = 0x7ff0_0000_0000_0000;

/// The pattern of the sign alone.
pub const SIGN: u64 = 0x8000_0000_0000_0000;

/// Exponent of the unit: every finite value is a whole number of `2^-1074`.
pub const UNIT: u32 = 1074;

/// Significand bits.
pub const DIGITS: u32 = 53;

/// The pattern of `1.0`.
pub const ONE: u64 = 0x3ff0_0000_0000_0000;

/// A binary64 value.
#[derive(Clone, Copy, Debug, PartialEq, Eq, Structural)]
pub struct Double {
    pub bits: u64,
}

/// The value whose magnitude has the given pattern.
pub open spec fn signed(negative: bool, magnitude: nat) -> Double {
    Double { bits: (magnitude + if negative { SIGN as nat } else { 0 }) as u64 }
}

/// The result of an invalid operation.
pub open spec fn not_a_number() -> Double {
    Double { bits: 0x7ff8_0000_0000_0000 }
}

/// The value nearest to `num / den` units.
pub open spec fn rounded(negative: bool, num: nat, den: nat) -> Double {
    signed(
        negative,
        rounding::capped(INFINITE as nat, rounding::pack(DIGITS as nat, num, den)),
    )
}

impl Double {
    pub open spec fn negative(self) -> bool {
        self.bits >= SIGN
    }

    /// The pattern without its sign.
    pub open spec fn magnitude(self) -> nat {
        if self.bits >= SIGN {
            (self.bits - SIGN) as nat
        } else {
            self.bits as nat
        }
    }

    pub open spec fn nan(self) -> bool {
        self.magnitude() > INFINITE
    }

    pub open spec fn finite(self) -> bool {
        self.magnitude() < INFINITE
    }

    pub open spec fn infinite(self) -> bool {
        self.magnitude() == INFINITE
    }

    pub open spec fn zero(self) -> bool {
        self.magnitude() == 0
    }

    /// The size of a finite value, in units of `2^-1074`.
    pub open spec fn size(self) -> nat {
        rounding::scaled(DIGITS as nat, self.magnitude())
    }

    /// A finite value, in units of `2^-1074`.
    pub open spec fn units(self) -> int {
        if self.negative() {
            -(self.size() as int)
        } else {
            self.size() as int
        }
    }

    /// Position on the number line; patterns grow with the size of the value.
    pub open spec fn rank(self) -> int {
        if self.negative() {
            -(self.magnitude() as int)
        } else {
            self.magnitude() as int
        }
    }

    pub open spec fn less(self, other: Double) -> bool {
        !self.nan() && !other.nan() && self.rank() < other.rank()
    }

    pub open spec fn at_most(self, other: Double) -> bool {
        !self.nan() && !other.nan() && self.rank() <= other.rank()
    }

    pub open spec fn negated(self) -> Double {
        signed(!self.negative(), self.magnitude())
    }

    #[verifier::opaque]
    pub open spec fn sum(self, other: Double) -> Double {
        if self.nan() || other.nan() {
            not_a_number()
        } else if self.infinite() && other.infinite() {
            if self.negative() == other.negative() {
                self
            } else {
                not_a_number()
            }
        } else if self.infinite() {
            self
        } else if other.infinite() {
            other
        } else {
            let s: int = self.units() + other.units();
            if s == 0 {
                signed(self.negative() && other.negative(), 0)
            } else if s > 0 {
                rounded(false, s as nat, 1)
            } else {
                rounded(true, (-s) as nat, 1)
            }
        }
    }

    pub open spec fn difference(self, other: Double) -> Double {
        self.sum(other.negated())
    }

    #[verifier::opaque]
    pub open spec fn product(self, other: Double) -> Double {
        let negative = self.negative() != other.negative();
        if self.nan() || other.nan() || (self.infinite() && other.zero()) || (self.zero()
            && other.infinite()) {
            not_a_number()
        } else if self.infinite() || other.infinite() {
            signed(negative, INFINITE as nat)
        } else {
            rounded(negative, self.size() * other.size(), pow2(UNIT as nat))
        }
    }

    #[verifier::opaque]
    pub open spec fn quotient(self, other: Double) -> Double {
        let negative = self.negative() != other.negative();
        if self.nan() || other.nan() || (self.infinite() && other.infinite()) || (self.zero()
            && other.zero()) {
            not_a_number()
        } else if self.infinite() || other.zero() {
            signed(negative, INFINITE as nat)
        } else if other.infinite() {
            signed(negative, 0)
        } else {
            rounded(negative, self.size() * pow2(UNIT as nat), other.size())
        }
    }

    /// The value nearest to a whole number.
    #[verifier::opaque]
    pub open spec fn of_int(n: int) -> Double {
        if n < 0 {
            rounded(true, ((-n) * pow2(UNIT as nat)) as nat, 1)
        } else {
            rounded(false, (n * pow2(UNIT as nat)) as nat, 1)
        }
    }

    /// The same value in double precision.
    #[verifier::opaque]
    pub open spec fn of_single(x: Single) -> Double {
        if x.nan() {
            not_a_number()
        } else if x.infinite() {
            signed(x.negative(), INFINITE as nat)
        } else {
            rounded(x.negative(), x.size() * pow2((UNIT - single::UNIT) as nat), 1)
        }
    }

    /// The nearest single-precision value.
    #[verifier::opaque]
    pub open spec fn as_single(self) -> Single {
        if self.nan() {
            single::not_a_number()
        } else if self.infinite() {
            single::signed(self.negative(), single::INFINITE as nat)
        } else {
            single::rounded(self.negative(), self.size(), pow2((UNIT - single::UNIT) as nat))
        }
    }

    /// Kept to `0..=u64::MAX`; a NaN counts as zero.
    pub open spec fn kept(self, n: nat) -> nat {
        if self.nan() || self.negative() {
            0
        } else if self.infinite() || n > u64::MAX {
            u64::MAX as nat
        } else {
            n
        }
    }

    /// The whole part of the size of the value.
    pub open spec fn whole_size(self) -> nat {
        self.size() / pow2(UNIT as nat)
    }

    /// What is left of the size of the value after its whole part, in units.
    pub open spec fn part_size(self) -> nat {
        self.size() % pow2(UNIT as nat)
    }

    /// The nearest whole number, halves upwards.
    pub open spec fn nearest(self) -> nat {
        self.kept(
            if 2 * self.part_size() >= pow2(UNIT as nat) {
                self.whole_size() + 1
            } else {
                self.whole_size()
            },
        )
    }

    /// The whole number at or above the value.
    pub open spec fn ceiling(self) -> nat {
        self.kept(
            if self.part_size() > 0 {
                self.whole_size() + 1
            } else {
                self.whole_size()
            },
        )
    }

    /// The whole part.
    pub open spec fn floor(self) -> nat {
        self.kept(self.whole_size())
    }

    /// What is left of a value's size after its whole part.
    #[verifier::opaque]
    pub open spec fn fraction(self) -> Double {
        rounded(false, self.part_size(), 1)
    }

    /// What is left of a value's size after taking another's away as often as it
    /// fits.
    #[verifier::opaque]
    pub open spec fn remainder(self, other: Double) -> Double {
        rounded(false, self.size() % other.size(), 1)
    }
}

proof fn lemma_limits()
    ensures
        pow2(52) == 0x10_0000_0000_0000,
        pow2(53) == 0x20_0000_0000_0000,
        pow2(63) == 0x8000_0000_0000_0000,
        INFINITE < 4000 * pow2(52),
{
    lemma2_to64();
    lemma2_to64_rest();
}

/// One is `2^1074` units.
proof fn lemma_one()
    ensures
        rounding::scaled(DIGITS as nat, ONE as nat) == pow2(UNIT as nat),
{
    lemma_limits();
    // one is 2^52 * 2^1022 units
    rounding::lemma_scaled_at(53, ONE as nat, pow2(52), 1022);
    lemma_pow2_adds(52, 1022);
}

/// Order on the number line is order by value.
pub proof fn lemma_less_is_by_value(a: Double, b: Double)
    requires
        a.finite(),
        b.finite(),
    ensures
        a.less(b) <==> a.units() < b.units(),
        a.at_most(b) <==> a.units() <= b.units(),
{
    lemma_limits();
    let x: nat = a.magnitude();
    let y: nat = b.magnitude();
    if x < y {
        rounding::lemma_scaled_monotone(53, x, y);
    }
    if y < x {
        rounding::lemma_scaled_monotone(53, y, x);
    }
    if 0 < x {
        rounding::lemma_scaled_monotone(53, 0, x);
    }
    if 0 < y {
        rounding::lemma_scaled_monotone(53, 0, y);
    }
}

/// A positive whole number of 64 bits is a finite value, and not zero.
pub proof fn lemma_natural_is_finite(n: u64)
    requires
        n > 0,
    ensures
        Double::of_int(n as int).finite(),
        !Double::of_int(n as int).zero(),
{
    reveal(Double::of_int);
    lemma_limits();
    let unit: nat = pow2(UNIT as nat);
    lemma_pow2_pos(UNIT as nat);
    let num: nat = (n * unit) as nat;
    lemma_pow2_adds(64, UNIT as nat);
    lemma2_to64();
    lemma2_to64_rest();
    assert(n * unit < pow2(64) * unit) by (nonlinear_arith)
        requires
            n < pow2(64),
            unit > 0,
    ;
    assert(n * unit >= 1) by (nonlinear_arith)
        requires
            n > 0,
            unit > 0,
    ;
    rounding::lemma_pack_bound(53, num, 1, 1085);
    rounding::lemma_pack_positive(53, num, 1);
    let bits: nat = rounding::pack(53, num, 1);
    assert(bits <= 1087 * 0x10_0000_0000_0000);
    assert(Double::of_int(n as int).bits == bits);
    assert(Double::of_int(n as int).magnitude() == bits);
}

/// Swapping the operands changes neither a sum nor a product of numbers.
pub proof fn lemma_commutes(a: Double, b: Double)
    ensures
        a.sum(b) == b.sum(a),
        a.product(b) == b.product(a),
{
    reveal(Double::sum);
    reveal(Double::product);
    assert(a.size() * b.size() == b.size() * a.size()) by (nonlinear_arith);
}

impl Double {
    pub fn of_bits(bits: u64) -> (r: Double)
        ensures
            r == (Double { bits }),
    {
        Double { bits }
    }

    pub fn is_negative(self) -> (r: bool)
        ensures
            r == self.negative(),
    {
        self.bits >= SIGN
    }

    fn bare(self) -> (r: u64)
        ensures
            r == self.magnitude(),
            r < SIGN,
    {
        if self.bits >= SIGN {
            self.bits - SIGN
        } else {
            self.bits
        }
    }

    fn with_sign(negative: bool, magnitude: u64) -> (r: Double)
        requires
            magnitude < SIGN,
        ensures
            r == signed(negative, magnitude as nat),
            r.magnitude() == magnitude,
            r.negative() == negative,
    {
        if negative {
            Double { bits: magnitude + SIGN }
        } else {
            Double { bits: magnitude }
        }
    }

    pub fn is_nan(self) -> (r: bool)
        ensures
            r == self.nan(),
    {
        self.bare() > INFINITE
    }

    pub fn is_finite(self) -> (r: bool)
        ensures
            r == self.finite(),
    {
        self.bare() < INFINITE
    }

    pub fn is_less(self, other: Double) -> (r: bool)
        ensures
            r == self.less(other),
    {
        if self.is_nan() || other.is_nan() {
            return false;
        }
        let a: i128 = if self.is_negative() { -(self.bare() as i128) } else { self.bare() as i128 };
        let b: i128 = if other.is_negative() { -(other.bare() as i128) } else { other.bare() as i128 };
        a < b
    }

    pub fn is_at_most(self, other: Double) -> (r: bool)
        ensures
            r == self.at_most(other),
    {
        if self.is_nan() || other.is_nan() {
            return false;
        }
        let a: i128 = if self.is_negative() { -(self.bare() as i128) } else { self.bare() as i128 };
        let b: i128 = if other.is_negative() { -(other.bare() as i128) } else { other.bare() as i128 };
        a <= b
    }

    pub fn negate(self) -> (r: Double)
        ensures
            r == self.negated(),
    {
        Self::with_sign(!self.is_negative(), self.bare())
    }

    pub fn plus(self, other: Double) -> (r: Double)
        ensures
            r == self.sum(other),
    {
        reveal(Double::sum);
        if self.is_nan() || other.is_nan() {
            return Double { bits: 0x7ff8_0000_0000_0000 };
        }
        let a: u64 = self.bare();
        let b: u64 = other.bare();
        if a == INFINITE && b == INFINITE {
            if self.is_negative() == other.is_negative() {
                return self;
            }
            return Double { bits: 0x7ff8_0000_0000_0000 };
        }
        if a == INFINITE {
            return self;
        }
        if b == INFINITE {
            return other;
        }
        let subtract: bool = self.is_negative() != other.is_negative();
        if a == b && subtract {
            return Double { bits: 0 };
        }
        proof {
            lemma_limits();
            if a < b {
                rounding::lemma_scaled_monotone(53, a as nat, b as nat);
            }
            if b < a {
                rounding::lemma_scaled_monotone(53, b as nat, a as nat);
            }
            if 0 < a {
                rounding::lemma_scaled_monotone(53, 0, a as nat);
            }
        }
        if a == 0 && b == 0 {
            return self;
        }
        if a >= b {
            let m: u64 = rounding::combine(DIGITS, INFINITE, a, b, subtract);
            Self::with_sign(self.is_negative(), m)
        } else {
            let m: u64 = rounding::combine(DIGITS, INFINITE, b, a, subtract);
            Self::with_sign(other.is_negative(), m)
        }
    }

    pub fn minus(self, other: Double) -> (r: Double)
        ensures
            r == self.difference(other),
    {
        self.plus(other.negate())
    }

    pub fn times(self, other: Double) -> (r: Double)
        ensures
            r == self.product(other),
    {
        reveal(Double::product);
        let negative: bool = self.is_negative() != other.is_negative();
        let a: u64 = self.bare();
        let b: u64 = other.bare();
        if a > INFINITE || b > INFINITE || (a == INFINITE && b == 0) || (a == 0 && b == INFINITE) {
            return Double { bits: 0x7ff8_0000_0000_0000 };
        }
        if a == INFINITE || b == INFINITE {
            return Self::with_sign(negative, INFINITE);
        }
        proof {
            lemma_limits();
        }
        let m: u64 = rounding::multiply(DIGITS, UNIT, INFINITE, a, b);
        Self::with_sign(negative, m)
    }

    pub fn over(self, other: Double) -> (r: Double)
        ensures
            r == self.quotient(other),
    {
        reveal(Double::quotient);
        let negative: bool = self.is_negative() != other.is_negative();
        let a: u64 = self.bare();
        let b: u64 = other.bare();
        if a > INFINITE || b > INFINITE || (a == INFINITE && b == INFINITE) || (a == 0 && b == 0) {
            return Double { bits: 0x7ff8_0000_0000_0000 };
        }
        if a == INFINITE || b == 0 {
            return Self::with_sign(negative, INFINITE);
        }
        if b == INFINITE {
            return Self::with_sign(negative, 0);
        }
        proof {
            lemma_limits();
        }
        let m: u64 = rounding::divide(DIGITS, UNIT, INFINITE, a, b);
        Self::with_sign(negative, m)
    }

    pub fn from_natural(n: u64) -> (r: Double)
        ensures
            r == Double::of_int(n as int),
    {
        reveal(Double::of_int);
        let m: u64 = rounding::whole(DIGITS, UNIT, INFINITE, n);
        Self::with_sign(false, m)
    }

    pub fn from_single(x: Single) -> (r: Double)
        ensures
            r == Double::of_single(x),
    {
        reveal(Double::of_single);
        if x.is_nan() {
            return Double { bits: 0x7ff8_0000_0000_0000 };
        }
        if !x.is_finite() {
            return Self::with_sign(x.is_negative(), INFINITE);
        }
        let a: u32 = if x.bits >= single::SIGN { x.bits - single::SIGN } else { x.bits };
        proof {
            lemma_limits();
            lemma2_to64();
            assert(x.size() * pow2(925) * pow2(0) == x.size() * pow2(925)) by (nonlinear_arith)
                requires
                    pow2(0) == 1,
            ;
        }
        let m: u64 = rounding::convert(single::DIGITS, DIGITS, UNIT - single::UNIT, 0, INFINITE, a as u64);
        Self::with_sign(x.is_negative(), m)
    }

    pub fn to_single(self) -> (r: Single)
        ensures
            r == self.as_single(),
    {
        reveal(Double::as_single);
        if self.is_nan() {
            return Single { bits: 0x7fc0_0000 };
        }
        let sign: u32 = if self.is_negative() { single::SIGN } else { 0 };
        let a: u64 = self.bare();
        if a == INFINITE {
            return Single { bits: single::INFINITE + sign };
        }
        proof {
            lemma_limits();
            lemma2_to64();
            assert(self.size() * pow2(0) == self.size()) by (nonlinear_arith)
                requires
                    pow2(0) == 1,
            ;
        }
        let m: u64 = rounding::convert(
            DIGITS,
            single::DIGITS,
            0,
            UNIT - single::UNIT,
            single::INFINITE as u64,
            a,
        );
        Single { bits: m as u32 + sign }
    }

    /// Whole part and fraction of a finite value's size.
    fn cut(self) -> (r: rounding::Parts)
        requires
            self.finite(),
        ensures
            r.floor <= 0x1_0000_0000_0000_0000,
            r.of(self.size(), pow2(UNIT as nat)),
    {
        proof {
            lemma_limits();
        }
        rounding::parts(DIGITS, UNIT, self.bare())
    }

    pub fn to_nearest(self) -> (r: u64)
        ensures
            r == self.nearest(),
    {
        if self.is_nan() || self.is_negative() {
            return 0;
        }
        if !self.is_finite() {
            return u64::MAX;
        }
        let w: rounding::Parts = self.cut();
        if w.floor > u64::MAX as u128 || (w.floor == u64::MAX as u128 && w.half) {
            u64::MAX
        } else if w.half {
            w.floor as u64 + 1
        } else {
            w.floor as u64
        }
    }

    pub fn to_ceiling(self) -> (r: u64)
        ensures
            r == self.ceiling(),
    {
        if self.is_nan() || self.is_negative() {
            return 0;
        }
        if !self.is_finite() {
            return u64::MAX;
        }
        let w: rounding::Parts = self.cut();
        if w.floor > u64::MAX as u128 || (w.floor == u64::MAX as u128 && w.fraction) {
            u64::MAX
        } else if w.fraction {
            w.floor as u64 + 1
        } else {
            w.floor as u64
        }
    }

    pub fn to_floor(self) -> (r: u64)
        ensures
            r == self.floor(),
    {
        if self.is_nan() || self.is_negative() {
            return 0;
        }
        if !self.is_finite() {
            return u64::MAX;
        }
        let w: rounding::Parts = self.cut();
        if w.floor > u64::MAX as u128 {
            u64::MAX
        } else {
            w.floor as u64
        }
    }

    pub fn modulo(self, other: Double) -> (r: Double)
        requires
            self.finite(),
            other.finite(),
            !other.zero(),
        ensures
            r == self.remainder(other),
    {
        reveal(Double::remainder);
        proof {
            lemma_limits();
        }
        let m: u64 = rounding::remainder(DIGITS, INFINITE, self.bare(), other.bare());
        Self::with_sign(false, m)
    }

    pub fn fract(self) -> (r: Double)
        requires
            self.finite(),
        ensures
            r == self.fraction(),
    {
        reveal(Double::fraction);
        proof {
            lemma_limits();
            lemma_one();
        }
        let m: u64 = rounding::remainder(DIGITS, INFINITE, self.bare(), ONE);
        Self::with_sign(false, m)
    }
}

} // verus!
