//! Single-precision values, held as their IEEE 754 bit patterns.
//!
//! Comparison, sum, product and quotient are those of the binary32 format:
//! the exact result, rounded to the nearest value, ties to even. They give the
//! same bits on every machine.

use vstd::prelude::*;
use vstd::arithmetic::power2::*;

use crate::rounding;

verus! {

/// The pattern of infinity, without the sign.
pub const INFINITE: u32 = 0x7f80_0000;

/// The pattern of the sign alone.
pub const SIGN: u32 = 0x8000_0000;

/// Exponent of the unit: every finite value is a whole number of `2^-149`.
pub const UNIT: u32 = 149;

/// Significand bits.
pub const DIGITS: u32 = 24;

/// The pattern of `1.0`.
pub const ONE: u32 = 0x3f80_0000;

/// The pattern of `-1.0`.
pub const MINUS_ONE: u32 = 0xbf80_0000;

/// A binary32 value.
#[derive(Clone, Copy, Debug, PartialEq, Eq, Structural)]
pub struct Single {
    pub bits: u32,
}

/// The value whose magnitude has the given pattern.
pub open spec fn signed(negative: bool, magnitude: nat) -> Single {
    Single { bits: (magnitude + if negative { SIGN as nat } else { 0 }) as u32 }
}

/// The result of an invalid operation.
pub open spec fn not_a_number() -> Single {
    Single { bits: 0x7fc0_0000 }
}

/// The value nearest to `num / den` units.
pub open spec fn rounded(negative: bool, num: nat, den: nat) -> Single {
    signed(
        negative,
        rounding::capped(INFINITE as nat, rounding::pack(DIGITS as nat, num, den)),
    )
}

impl Single {
    pub open spec fn negative(self) -> bool {
        self.bits >= SIGN
    }

    /// The pattern without its sign.
    pub open spec fn magnitude(self) -> nat {
        if self.bits >= SIGN {
            (self.bits - SIGN) as nat
        } else {
            self.bits as nat
        }
    }

    pub open spec fn nan(self) -> bool {
        self.magnitude() > INFINITE
    }

    pub open spec fn finite(self) -> bool {
        self.magnitude() < INFINITE
    }

    pub open spec fn infinite(self) -> bool {
        self.magnitude() == INFINITE
    }

    pub open spec fn zero(self) -> bool {
        self.magnitude() == 0
    }

    /// The size of a finite value, in units of `2^-149`.
    pub open spec fn size(self) -> nat {
        rounding::scaled(DIGITS as nat, self.magnitude())
    }

    /// A finite value, in units of `2^-149`.
    pub open spec fn units(self) -> int {
        if self.negative() {
            -(self.size() as int)
        } else {
            self.size() as int
        }
    }

    /// Position on the number line; patterns grow with the size of the value.
    pub open spec fn rank(self) -> int {
        if self.negative() {
            -(self.magnitude() as int)
        } else {
            self.magnitude() as int
        }
    }

    pub open spec fn less(self, other: Single) -> bool {
        !self.nan() && !other.nan() && self.rank() < other.rank()
    }

    pub open spec fn at_most(self, other: Single) -> bool {
        !self.nan() && !other.nan() && self.rank() <= other.rank()
    }

    pub open spec fn negated(self) -> Single {
        signed(!self.negative(), self.magnitude())
    }

    #[verifier::opaque]
    pub open spec fn sum(self, other: Single) -> Single {
        if self.nan() || other.nan() {
            not_a_number()
        } else if self.infinite() && other.infinite() {
            if self.negative() == other.negative() {
                self
            } else {
                not_a_number()
            }
        } else if self.infinite() {
            self
        } else if other.infinite() {
            other
        } else {
            let s: int = self.units() + other.units();
            if s == 0 {
                signed(self.negative() && other.negative(), 0)
            } else if s > 0 {
                rounded(false, s as nat, 1)
            } else {
                rounded(true, (-s) as nat, 1)
            }
        }
    }

    pub open spec fn difference(self, other: Single) -> Single {
        self.sum(other.negated())
    }

    #[verifier::opaque]
    pub open spec fn product(self, other: Single) -> Single {
        let negative = self.negative() != other.negative();
        if self.nan() || other.nan() || (self.infinite() && other.zero()) || (self.zero()
            && other.infinite()) {
            not_a_number()
        } else if self.infinite() || other.infinite() {
            signed(negative, INFINITE as nat)
        } else {
            rounded(negative, self.size() * other.size(), pow2(UNIT as nat))
        }
    }

    #[verifier::opaque]
    pub open spec fn quotient(self, other: Single) -> Single {
        let negative = self.negative() != other.negative();
        if self.nan() || other.nan() || (self.infinite() && other.infinite()) || (self.zero()
            && other.zero()) {
            not_a_number()
        } else if self.infinite() || other.zero() {
            signed(negative, INFINITE as nat)
        } else if other.infinite() {
            signed(negative, 0)
        } else {
            rounded(negative, self.size() * pow2(UNIT as nat), other.size())
        }
    }

    /// The value nearest to a whole number.
    #[verifier::opaque]
    pub open spec fn of_int(n: int) -> Single {
        if n < 0 {
            rounded(true, ((-n) * pow2(UNIT as nat)) as nat, 1)
        } else {
            rounded(false, (n * pow2(UNIT as nat)) as nat, 1)
        }
    }

    /// The value nearest to `num / den`, for whole numbers of at most 24 bits:
    /// what the decimal literal of that ratio stands for.
    #[verifier::opaque]
    pub open spec fn of_ratio(num: int, den: int) -> Single {
        Single::of_int(num).quotient(Single::of_int(den))
    }

    /// The larger value; a number rather than a NaN.
    pub open spec fn larger(self, other: Single) -> Single {
        if self.nan() || self.less(other) {
            other
        } else {
            self
        }
    }

    /// The nearest value in `[low, high]`; a NaN stays.
    pub open spec fn clamped(self, low: Single, high: Single) -> Single {
        if self.less(low) {
            low
        } else if high.less(self) {
            high
        } else {
            self
        }
    }

    /// The whole part of a value, as an unsigned number of `width` bits would
    /// hold it: nothing below zero, nothing above `max`, zero for a NaN.
    pub open spec fn truncated(self, max: nat) -> nat {
        if self.nan() || self.negative() {
            0
        } else if self.infinite() || self.size() / pow2(UNIT as nat) > max {
            max
        } else {
            self.size() / pow2(UNIT as nat)
        }
    }
}

proof fn lemma_limits()
    ensures
        pow2(23) == 0x80_0000,
        pow2(24) == 0x100_0000,
        pow2(31) == 0x8000_0000,
        pow2(63) == 0x8000_0000_0000_0000,
        INFINITE < 4000 * pow2(23),
{
    lemma2_to64();
    lemma2_to64_rest();
}

/// Order on the number line is order by value.
pub proof fn lemma_less_is_by_value(a: Single, b: Single)
    requires
        a.finite(),
        b.finite(),
    ensures
        a.less(b) <==> a.units() < b.units(),
        a.at_most(b) <==> a.units() <= b.units(),
{
    lemma2_to64();
    let x: nat = a.magnitude();
    let y: nat = b.magnitude();
    if x < y {
        rounding::lemma_scaled_monotone(24, x, y);
    }
    if y < x {
        rounding::lemma_scaled_monotone(24, y, x);
    }
    if 0 < x {
        rounding::lemma_scaled_monotone(24, 0, x);
    }
    if 0 < y {
        rounding::lemma_scaled_monotone(24, 0, y);
    }
}

/// A value is its size and its sign.
pub proof fn lemma_same_size(a: Single, b: Single)
    requires
        a.finite(),
        b.finite(),
        a.size() == b.size(),
        a.negative() == b.negative(),
    ensures
        a == b,
{
    if a.magnitude() < b.magnitude() {
        rounding::lemma_scaled_monotone(24, a.magnitude(), b.magnitude());
    } else if b.magnitude() < a.magnitude() {
        rounding::lemma_scaled_monotone(24, b.magnitude(), a.magnitude());
    }
}

/// Swapping the operands changes neither a sum nor a product of numbers.
pub proof fn lemma_commutes(a: Single, b: Single)
    ensures
        a.sum(b) == b.sum(a),
        a.product(b) == b.product(a),
{
    reveal(Single::sum);
    reveal(Single::product);
    assert(a.size() * b.size() == b.size() * a.size()) by (nonlinear_arith);
}

/// Adding a zero changes no number but a negative zero.
pub proof fn lemma_adding_zero(x: Single, z: Single)
    requires
        !x.nan(),
        z.zero(),
        x.bits != SIGN,
    ensures
        x.sum(z) == x,
{
    reveal(Single::sum);
    lemma_limits();
    assert(z.size() == 0);
    if x.finite() {
        rounding::lemma_pack_of_scaled(24, x.magnitude());
        if x.magnitude() > 0 {
            rounding::lemma_scaled_monotone(24, 0, x.magnitude());
        }
        assert(x.units() + z.units() == x.units());
    }
}

/// Zero times a finite value is a zero.
pub proof fn lemma_zero_times(z: Single, x: Single)
    requires
        z.zero(),
        x.finite(),
    ensures
        z.product(x).zero(),
{
    reveal(Single::product);
    lemma_limits();
    let unit: nat = pow2(UNIT as nat);
    lemma_pow2_pos(UNIT as nat);
    assert(z.size() == 0);
    assert(0 * x.size() == 0) by (nonlinear_arith);
    assert(pow2(24) * unit > 0) by (nonlinear_arith)
        requires
            pow2(24) > 0,
            unit > 0,
    ;
    assert(rounding::nearest_even(0, unit) == 0) by {
        vstd::arithmetic::div_mod::lemma_small_mod(0, unit);
        vstd::arithmetic::div_mod::lemma_basic_div(0, unit as int);
    }
}

/// A finite value times one is itself.
pub proof fn lemma_times_one(x: Single)
    requires
        x.finite(),
    ensures
        x.product(Single { bits: ONE }) == x,
{
    reveal(Single::product);
    lemma_limits();
    let unit: nat = pow2(UNIT as nat);
    lemma_pow2_pos(UNIT as nat);
    // one is 2^23 * 2^126 units
    rounding::lemma_scaled_at(24, ONE as nat, pow2(23), 126);
    lemma_pow2_adds(23, 126);
    assert(x.size() * unit == unit * x.size() && unit * 1 == unit) by (nonlinear_arith);
    rounding::lemma_pack_scale(24, unit, x.size(), 1);
    rounding::lemma_pack_of_scaled(24, x.magnitude());
}

/// A sum is a negative zero only where both parts are.
pub proof fn lemma_sum_is_no_negative_zero(a: Single, b: Single)
    requires
        a.bits != SIGN,
    ensures
        a.sum(b).bits != SIGN,
        a.sum(b).nan() ==> a.sum(b) == not_a_number(),
{
    reveal(Single::sum);
    lemma_limits();
    if a.finite() && b.finite() {
        let s: int = a.units() + b.units();
        if s > 0 {
            rounding::lemma_pack_positive(24, s as nat, 1);
        } else if s < 0 {
            rounding::lemma_pack_positive(24, (-s) as nat, 1);
        } else if a.magnitude() > 0 {
            rounding::lemma_scaled_monotone(24, 0, a.magnitude());
        }
    }
}

impl Single {
    pub fn of_bits(bits: u32) -> (r: Single)
        ensures
            r == (Single { bits }),
    {
        Single { bits }
    }

    pub fn is_negative(self) -> (r: bool)
        ensures
            r == self.negative(),
    {
        self.bits >= SIGN
    }

    fn bare(self) -> (r: u32)
        ensures
            r == self.magnitude(),
            r < SIGN,
    {
        if self.bits >= SIGN {
            self.bits - SIGN
        } else {
            self.bits
        }
    }

    fn with_sign(negative: bool, magnitude: u32) -> (r: Single)
        requires
            magnitude < SIGN,
        ensures
            r == signed(negative, magnitude as nat),
            r.magnitude() == magnitude,
            r.negative() == negative,
    {
        if negative {
            Single { bits: magnitude + SIGN }
        } else {
            Single { bits: magnitude }
        }
    }

    pub fn is_nan(self) -> (r: bool)
        ensures
            r == self.nan(),
    {
        self.bare() > INFINITE
    }

    pub fn is_finite(self) -> (r: bool)
        ensures
            r == self.finite(),
    {
        self.bare() < INFINITE
    }

    pub fn is_less(self, other: Single) -> (r: bool)
        ensures
            r == self.less(other),
    {
        if self.is_nan() || other.is_nan() {
            return false;
        }
        let a: i64 = if self.is_negative() { -(self.bare() as i64) } else { self.bare() as i64 };
        let b: i64 = if other.is_negative() { -(other.bare() as i64) } else { other.bare() as i64 };
        a < b
    }

    pub fn is_at_most(self, other: Single) -> (r: bool)
        ensures
            r == self.at_most(other),
    {
        if self.is_nan() || other.is_nan() {
            return false;
        }
        let a: i64 = if self.is_negative() { -(self.bare() as i64) } else { self.bare() as i64 };
        let b: i64 = if other.is_negative() { -(other.bare() as i64) } else { other.bare() as i64 };
        a <= b
    }

    pub fn negate(self) -> (r: Single)
        ensures
            r == self.negated(),
    {
        Self::with_sign(!self.is_negative(), self.bare())
    }

    pub fn plus(self, other: Single) -> (r: Single)
        ensures
            r == self.sum(other),
    {
        reveal(Single::sum);
        if self.is_nan() || other.is_nan() {
            return Single { bits: 0x7fc0_0000 };
        }
        let a: u32 = self.bare();
        let b: u32 = other.bare();
        if a == INFINITE && b == INFINITE {
            if self.is_negative() == other.is_negative() {
                return self;
            }
            return Single { bits: 0x7fc0_0000 };
        }
        if a == INFINITE {
            return self;
        }
        if b == INFINITE {
            return other;
        }
        let subtract: bool = self.is_negative() != other.is_negative();
        if a == b && subtract {
            return Single { bits: 0 };
        }
        proof {
            lemma_limits();
            if a < b {
                rounding::lemma_scaled_monotone(24, a as nat, b as nat);
            }
            if b < a {
                rounding::lemma_scaled_monotone(24, b as nat, a as nat);
            }
            if 0 < a {
                rounding::lemma_scaled_monotone(24, 0, a as nat);
            }
        }
        if a == 0 && b == 0 {
            return self;
        }
        if a >= b {
            let m: u64 = rounding::combine(DIGITS, INFINITE as u64, a as u64, b as u64, subtract);
            Self::with_sign(self.is_negative(), m as u32)
        } else {
            let m: u64 = rounding::combine(DIGITS, INFINITE as u64, b as u64, a as u64, subtract);
            Self::with_sign(other.is_negative(), m as u32)
        }
    }

    pub fn minus(self, other: Single) -> (r: Single)
        ensures
            r == self.difference(other),
    {
        self.plus(other.negate())
    }

    pub fn times(self, other: Single) -> (r: Single)
        ensures
            r == self.product(other),
    {
        reveal(Single::product);
        let negative: bool = self.is_negative() != other.is_negative();
        let a: u32 = self.bare();
        let b: u32 = other.bare();
        if a > INFINITE || b > INFINITE || (a == INFINITE && b == 0) || (a == 0 && b == INFINITE) {
            return Single { bits: 0x7fc0_0000 };
        }
        if a == INFINITE || b == INFINITE {
            return Self::with_sign(negative, INFINITE);
        }
        proof {
            lemma_limits();
        }
        let m: u64 = rounding::multiply(DIGITS, UNIT, INFINITE as u64, a as u64, b as u64);
        Self::with_sign(negative, m as u32)
    }

    pub fn over(self, other: Single) -> (r: Single)
        ensures
            r == self.quotient(other),
    {
        reveal(Single::quotient);
        let negative: bool = self.is_negative() != other.is_negative();
        let a: u32 = self.bare();
        let b: u32 = other.bare();
        if a > INFINITE || b > INFINITE || (a == INFINITE && b == INFINITE) || (a == 0 && b == 0) {
            return Single { bits: 0x7fc0_0000 };
        }
        if a == INFINITE || b == 0 {
            return Self::with_sign(negative, INFINITE);
        }
        if b == INFINITE {
            return Self::with_sign(negative, 0);
        }
        proof {
            lemma_limits();
        }
        let m: u64 = rounding::divide(DIGITS, UNIT, INFINITE as u64, a as u64, b as u64);
        Self::with_sign(negative, m as u32)
    }

    pub fn from_int(n: i64) -> (r: Single)
        ensures
            r == Single::of_int(n as int),
    {
        reveal(Single::of_int);
        let size: u64 = if n == i64::MIN {
            0x8000_0000_0000_0000
        } else if n < 0 {
            (-n) as u64
        } else {
            n as u64
        };
        let m: u64 = rounding::whole(DIGITS, UNIT, INFINITE as u64, size);
        Self::with_sign(n < 0, m as u32)
    }

    pub fn from_natural(n: u64) -> (r: Single)
        ensures
            r == Single::of_int(n as int),
    {
        reveal(Single::of_int);
        let m: u64 = rounding::whole(DIGITS, UNIT, INFINITE as u64, n);
        Self::with_sign(false, m as u32)
    }

    pub fn ratio(num: i64, den: i64) -> (r: Single)
        ensures
            r == Single::of_ratio(num as int, den as int),
    {
        reveal(Single::of_ratio);
        Single::from_int(num).over(Single::from_int(den))
    }

    pub fn max(self, other: Single) -> (r: Single)
        ensures
            r == self.larger(other),
    {
        if self.is_nan() || self.is_less(other) {
            other
        } else {
            self
        }
    }

    pub fn clamp(self, low: Single, high: Single) -> (r: Single)
        ensures
            r == self.clamped(low, high),
    {
        if self.is_less(low) {
            low
        } else if high.is_less(self) {
            high
        } else {
            self
        }
    }

    /// The whole part, kept to `0..=u64::MAX`.
    pub fn to_natural(self) -> (r: u64)
        ensures
            r == self.truncated(u64::MAX as nat),
    {
        let a: u32 = self.bare();
        if a > INFINITE || self.is_negative() {
            return 0;
        }
        if a == INFINITE {
            return u64::MAX;
        }
        proof {
            lemma_limits();
        }
        let w: rounding::Parts = rounding::parts(DIGITS, UNIT, a as u64);
        if w.floor > u64::MAX as u128 {
            u64::MAX
        } else {
            w.floor as u64
        }
    }
}

} // verus!
