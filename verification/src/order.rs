//! What rounding does to the order of values: it never reverses two of them,
//! and what fits a bound that a value can hold still fits it.

use vstd::prelude::*;
use vstd::arithmetic::power2::*;

use crate::double;
use crate::double::Double;
use crate::rounding;
use crate::single;
use crate::single::Single;

verus! {

/// Whether a value lies between `-n` and `n`.
pub open spec fn within(x: Single, n: nat) -> bool {
    x.finite() && x.size() <= n * pow2(single::UNIT as nat)
}

/// The value nearest to a whole number of parts of a unit, with its sign.
pub open spec fn nearest(num: int, den: nat) -> Single {
    if num < 0 {
        single::rounded(true, (-num) as nat, den)
    } else {
        single::rounded(false, num as nat, den)
    }
}

/// What is at most a finite value is rounded to that value at most.
pub proof fn lemma_rounded_at_most(negative: bool, num: nat, den: nat, bits: nat)
    requires
        den > 0,
        bits < single::INFINITE,
        num <= rounding::scaled(24, bits) * den,
    ensures
        single::rounded(negative, num, den).magnitude() <= bits,
        single::rounded(negative, num, den).negative() == negative,
        single::rounded(negative, num, den).size() <= rounding::scaled(24, bits),
{
    rounding::lemma_pack_at_most(24, num, den, bits);
    let got: nat = single::rounded(negative, num, den).magnitude();
    if got < bits {
        rounding::lemma_scaled_monotone(24, got, bits);
    }
}

/// Rounding keeps the order.
pub proof fn lemma_nearest_monotone(a: int, b: int, den: nat)
    requires
        den > 0,
        a <= b,
    ensures
        nearest(a, den).at_most(nearest(b, den)),
{
    if a >= 0 {
        assert(a * den <= b * den) by (nonlinear_arith)
            requires
                a <= b,
        ;
        rounding::lemma_pack_monotone(24, a as nat, den, b as nat, den);
    } else if b < 0 {
        assert((-b) * den <= (-a) * den) by (nonlinear_arith)
            requires
                a <= b,
        ;
        rounding::lemma_pack_monotone(24, (-b) as nat, den, (-a) as nat, den);
    }
}

/// A whole number of at most 24 bits is a value.
pub proof fn lemma_whole(n: nat) -> (bits: nat)
    requires
        n < 0x100_0000,
    ensures
        bits < single::INFINITE,
        rounding::scaled(24, bits) == n * pow2(single::UNIT as nat),
        Single::of_int(n as int) == single::signed(false, bits),
        Single::of_int(n as int).finite(),
        Single::of_int(n as int).size() == n * pow2(single::UNIT as nat),
{
    reveal(Single::of_int);
    lemma2_to64();
    lemma2_to64_rest();
    let unit: nat = pow2(single::UNIT as nat);
    rounding::lemma_pack_exact(24, n, single::UNIT as nat);
    let bits: nat = rounding::pack(24, n * unit, 1);
    lemma_pow2_adds(24, 149);
    lemma_pow2_pos(149);
    assert(n * unit < pow2(173)) by (nonlinear_arith)
        requires
            n < pow2(24),
            pow2(173) == pow2(24) * unit,
            unit > 0,
    ;
    rounding::lemma_pack_bound(24, n * unit, 1, 149);
    assert(pow2((24 - 1) as nat) == 0x80_0000);
    assert((n as int) * unit == n * unit);
    bits
}

/// The sum of values in `[-a, a]` and `[-b, b]` lies in `[-(a + b), a + b]`.
pub proof fn lemma_sum_within(x: Single, y: Single, a: nat, b: nat)
    requires
        within(x, a),
        within(y, b),
        a + b < 0x100_0000,
    ensures
        within(x.sum(y), a + b),
{
    reveal(Single::sum);
    let unit: nat = pow2(single::UNIT as nat);
    let bits: nat = lemma_whole(a + b);
    assert((a + b) * unit == a * unit + b * unit) by (nonlinear_arith);
    let s: int = x.units() + y.units();
    if s > 0 {
        lemma_rounded_at_most(false, s as nat, 1, bits);
    } else if s < 0 {
        lemma_rounded_at_most(true, (-s) as nat, 1, bits);
    } else {
        lemma2_to64();
        assert(x.sum(y).size() == 0);
    }
}

/// A value divided by one that is no smaller lies in `[-1, 1]`.
pub proof fn lemma_quotient_within(x: Single, y: Single)
    requires
        x.finite(),
        y.finite(),
        0 < y.size(),
        x.size() <= y.size(),
    ensures
        within(x.quotient(y), 1),
{
    reveal(Single::quotient);
    let unit: nat = pow2(single::UNIT as nat);
    let bits: nat = lemma_whole(1);
    assert(x.size() * unit <= unit * y.size()) by (nonlinear_arith)
        requires
            x.size() <= y.size(),
    ;
    lemma2_to64();
    assert(!y.zero()) by {
        if y.zero() {
            assert(y.size() == 0);
        }
    }
    lemma_rounded_at_most(x.negative() != y.negative(), x.size() * unit, y.size(), bits);
}

/// A value divided by itself is one.
pub proof fn lemma_one_over(x: Single)
    requires
        x.finite(),
        !x.zero(),
    ensures
        x.quotient(x) == (Single { bits: single::ONE }),
{
    reveal(Single::quotient);
    lemma2_to64();
    lemma2_to64_rest();
    let unit: nat = pow2(single::UNIT as nat);
    rounding::lemma_scaled_monotone(24, 0, x.magnitude());
    assert(x.size() * 1 == x.size());
    rounding::lemma_pack_scale(24, x.size(), unit, 1);
    rounding::lemma_scaled_at(24, single::ONE as nat, pow2(23), 126);
    lemma_pow2_adds(23, 126);
    rounding::lemma_pack_of_scaled(24, single::ONE as nat);
}

/// The product of values in `[-a, a]` and `[-b, b]` lies in `[-a * b, a * b]`.
pub proof fn lemma_product_within(x: Single, y: Single, a: nat, b: nat)
    requires
        within(x, a),
        within(y, b),
        a * b < 0x100_0000,
    ensures
        within(x.product(y), a * b),
{
    reveal(Single::product);
    let unit: nat = pow2(single::UNIT as nat);
    lemma_pow2_pos(single::UNIT as nat);
    let bits: nat = lemma_whole(a * b);
    vstd::arithmetic::mul::lemma_mul_upper_bound(
        x.size() as int,
        (a * unit) as int,
        y.size() as int,
        (b * unit) as int,
    );
    assert((a * unit) * (b * unit) == ((a * b) * unit) * unit) by (nonlinear_arith);
    lemma_rounded_at_most(x.negative() != y.negative(), x.size() * y.size(), unit, bits);
}

/// Whole numbers of at most 64 bits have a finite value, and none but zero
/// has the value zero.
pub proof fn lemma_of_int_finite(n: int)
    requires
        -0x1_0000_0000_0000_0000 < n < 0x1_0000_0000_0000_0000,
    ensures
        Single::of_int(n).finite(),
        Single::of_int(n).zero() <==> n == 0,
        n >= 0 ==> !Single::of_int(n).negative(),
{
    reveal(Single::of_int);
    lemma2_to64();
    lemma2_to64_rest();
    let unit: nat = pow2(single::UNIT as nat);
    lemma_pow2_pos(single::UNIT as nat);
    let m: nat = if n < 0 { (-n) as nat } else { n as nat };
    lemma_pow2_adds(64, 149);
    assert(m * unit < pow2(213)) by (nonlinear_arith)
        requires
            m < pow2(64),
            pow2(213) == pow2(64) * unit,
            unit > 0,
    ;
    rounding::lemma_pack_bound(24, m * unit, 1, 189);
    assert(pow2((24 - 1) as nat) == 0x80_0000);
    assert((n as int) * unit == m * unit || (-n) * unit == m * unit);
    if m > 0 {
        assert(m * unit >= 1) by (nonlinear_arith)
            requires
                m > 0,
                unit > 0,
        ;
        rounding::lemma_pack_positive(24, m * unit, 1);
    } else {
        assert(m * unit == 0) by (nonlinear_arith)
            requires
                m == 0,
        ;
        assert(rounding::pack(24, 0, 1) == 0);
    }
}

/// The size of a whole number of at most 24 bits.
pub proof fn lemma_of_int_size(n: int)
    requires
        -0x100_0000 < n < 0x100_0000,
    ensures
        Single::of_int(n).finite(),
        Single::of_int(n).size() == (if n < 0 { -n } else { n }) * pow2(single::UNIT as nat),
        n < 0 ==> Single::of_int(n).negative(),
{
    let m: nat = if n < 0 { (-n) as nat } else { n as nat };
    let bits: nat = lemma_whole(m);
    reveal(Single::of_int);
    assert(Single::of_int(n).magnitude() == Single::of_int(m as int).magnitude());
}

/// Zero divided by a positive value is zero.
pub proof fn lemma_zero_over(x: Single)
    requires
        x.finite(),
        !x.zero(),
        !x.negative(),
    ensures
        Single::of_int(0).bits == 0,
        Single::of_int(0).quotient(x).bits == 0,
{
    reveal(Single::quotient);
    let zero: nat = lemma_whole(0);
    lemma_of_int_finite(0);
    let unit: nat = pow2(single::UNIT as nat);
    lemma2_to64();
    rounding::lemma_scaled_monotone(24, 0, x.magnitude());
    assert(0 * unit == 0) by (nonlinear_arith);
    lemma_rounded_at_most(false, 0, x.size(), 0);
}

/// The values in `[-1, 1]` are those that a clamp to it keeps.
pub proof fn lemma_within_one(x: Single)
    ensures
        within(x, 1) <==> (Single { bits: single::MINUS_ONE }).at_most(x) && x.at_most(
            Single { bits: single::ONE },
        ),
        !x.nan() ==> within(
            x.clamped(Single { bits: single::MINUS_ONE }, Single { bits: single::ONE }),
            1,
        ),
        within(x, 1) ==> x.clamped(
            Single { bits: single::MINUS_ONE },
            Single { bits: single::ONE },
        ) == x,
{
    lemma2_to64();
    lemma2_to64_rest();
    rounding::lemma_scaled_at(24, single::ONE as nat, pow2(23), 126);
    lemma_pow2_adds(23, 126);
    let one: nat = single::ONE as nat;
    if x.magnitude() < one {
        rounding::lemma_scaled_monotone(24, x.magnitude(), one);
    } else if x.magnitude() > one {
        rounding::lemma_scaled_monotone(24, one, x.magnitude());
    }
}

/// Adding a value keeps the order.
pub proof fn lemma_sum_monotone(x: Single, y: Single, c: Single)
    requires
        x.finite(),
        y.finite(),
        c.finite(),
        x.at_most(y),
    ensures
        x.sum(c).at_most(y.sum(c)),
{
    reveal(Single::sum);
    single::lemma_less_is_by_value(x, y);
    lemma_nearest_monotone(x.units() + c.units(), y.units() + c.units(), 1);
    assert(rounding::pack(24, 0, 1) == 0) by {
        lemma2_to64();
    }
    assert(x.sum(c).rank() == nearest(x.units() + c.units(), 1).rank());
    assert(y.sum(c).rank() == nearest(y.units() + c.units(), 1).rank());
}

proof fn lemma_product_rank(x: Single, c: Single)
    requires
        x.finite(),
        c.finite(),
        !c.negative(),
    ensures
        x.product(c).rank() == nearest(x.units() * c.size(), pow2(single::UNIT as nat)).rank(),
        !x.product(c).nan(),
{
    reveal(Single::product);
    let unit: nat = pow2(single::UNIT as nat);
    lemma_pow2_pos(single::UNIT as nat);
    let s: int = x.size() as int;
    let k: int = c.size() as int;
    assert(-(s * k) == (-s) * k && s * k >= 0) by (nonlinear_arith)
        requires
            s >= 0,
            k >= 0,
    ;
    assert(rounding::pack(24, 0, unit) == 0) by {
        lemma2_to64();
        assert(0 < pow2(24) * unit) by (nonlinear_arith)
            requires
                pow2(24) > 0,
                unit > 0,
        ;
    }
}

/// Multiplying by a value that is not negative keeps the order.
pub proof fn lemma_product_monotone(x: Single, y: Single, c: Single)
    requires
        x.finite(),
        y.finite(),
        c.finite(),
        !c.negative(),
        x.at_most(y),
    ensures
        x.product(c).at_most(y.product(c)),
{
    single::lemma_less_is_by_value(x, y);
    lemma_pow2_pos(single::UNIT as nat);
    assert(x.units() * c.size() <= y.units() * c.size()) by (nonlinear_arith)
        requires
            x.units() <= y.units(),
            c.size() >= 0,
    ;
    lemma_nearest_monotone(x.units() * c.size(), y.units() * c.size(), pow2(single::UNIT as nat));
    lemma_product_rank(x, c);
    lemma_product_rank(y, c);
}

/// A product that is a value is that value.
pub proof fn lemma_product_exact(x: Single, y: Single, bits: nat)
    requires
        x.finite(),
        y.finite(),
        bits < single::INFINITE,
        x.size() * y.size() == pow2(single::UNIT as nat) * rounding::scaled(24, bits),
    ensures
        x.product(y) == single::signed(x.negative() != y.negative(), bits),
{
    reveal(Single::product);
    let unit: nat = pow2(single::UNIT as nat);
    lemma_pow2_pos(single::UNIT as nat);
    assert(unit * 1 == unit);
    rounding::lemma_pack_scale(24, unit, rounding::scaled(24, bits), 1);
    rounding::lemma_pack_of_scaled(24, bits);
}

/// Times a power of two, a value stays exact while it stays finite.
pub proof fn lemma_times_power(x: Single, y: Single, j: nat)
    requires
        x.finite(),
        y.finite(),
        y.size() == pow2(j) * pow2(single::UNIT as nat),
        x.product(y).finite(),
    ensures
        x.product(y).size() == x.size() * pow2(j),
        x.product(y).negative() == (x.negative() != y.negative()),
{
    reveal(Single::product);
    let unit: nat = pow2(single::UNIT as nat);
    lemma_pow2_pos(single::UNIT as nat);
    lemma2_to64();
    let (m, k): (nat, nat) = rounding::lemma_significand(24, x.magnitude());
    lemma_pow2_adds(k, j);
    assert((m * pow2(k)) * pow2(j) == m * pow2(k + j)) by (nonlinear_arith)
        requires
            pow2(k + j) == pow2(k) * pow2(j),
    ;
    let exact: nat = x.size() * pow2(j);
    assert(x.size() * (pow2(j) * unit) == unit * exact) by (nonlinear_arith)
        requires
            exact == x.size() * pow2(j),
    ;
    assert(unit * 1 == unit);
    rounding::lemma_pack_scale(24, unit, exact, 1);
    rounding::lemma_pack_exact(24, m, k + j);
}

/// A whole number of at most 24 bits over a power of two is exact.
pub proof fn lemma_over_power(n: nat, x: Single, y: Single, j: nat)
    requires
        n < 0x100_0000,
        j <= single::UNIT,
        x.finite(),
        x.size() == n * pow2(single::UNIT as nat),
        y.finite(),
        y.size() == pow2(j) * pow2(single::UNIT as nat),
        n <= pow2(j),
    ensures
        x.quotient(y).finite(),
        x.quotient(y).size() * pow2(j) == n * pow2(single::UNIT as nat),
        x.quotient(y).negative() == (x.negative() != y.negative()),
{
    reveal(Single::quotient);
    let unit: nat = pow2(single::UNIT as nat);
    lemma_pow2_pos(single::UNIT as nat);
    lemma_pow2_pos(j);
    lemma2_to64();
    let part: nat = pow2((single::UNIT - j) as nat);
    lemma_pow2_adds((single::UNIT - j) as nat, j);
    assert(y.size() > 0) by (nonlinear_arith)
        requires
            y.size() == pow2(j) * unit,
            pow2(j) > 0,
            unit > 0,
    ;
    assert(!y.zero()) by {
        if y.zero() {
            assert(y.size() == 0);
        }
    }
    assert((n * unit) * unit == y.size() * (n * part)) by (nonlinear_arith)
        requires
            y.size() == pow2(j) * unit,
            unit == part * pow2(j),
    ;
    assert(y.size() * 1 == y.size());
    rounding::lemma_pack_scale(24, y.size(), n * part, 1);
    rounding::lemma_pack_exact(24, n, (single::UNIT - j) as nat);
    assert((n * part) * pow2(j) == n * unit) by (nonlinear_arith)
        requires
            unit == part * pow2(j),
    ;
    assert(x.size() <= y.size()) by (nonlinear_arith)
        requires
            x.size() == n * unit,
            y.size() == pow2(j) * unit,
            n <= pow2(j),
    ;
    lemma_quotient_within(x, y);
}

/// In double precision a value is the same, in smaller units.
pub proof fn lemma_in_double(x: Single)
    requires
        x.finite(),
    ensures
        Double::of_single(x).finite(),
        Double::of_single(x).size() == x.size() * pow2((double::UNIT - single::UNIT) as nat),
        Double::of_single(x).negative() == x.negative(),
{
    reveal(Double::of_single);
    lemma2_to64();
    lemma2_to64_rest();
    let (m, k): (nat, nat) = rounding::lemma_significand(24, x.magnitude());
    let more: nat = (double::UNIT - single::UNIT) as nat;
    let factor: nat = pow2(more);
    lemma_pow2_adds(k, more);
    assert((m * pow2(k)) * factor == m * pow2(k + more)) by (nonlinear_arith)
        requires
            pow2(k + more) == pow2(k) * factor,
    ;
    rounding::lemma_pack_exact(53, m, k + more);
    assert(k * pow2(23) <= x.magnitude());
    assert(k * 0x80_0000 < 255 * 0x80_0000);
    lemma_pow2_adds(24, k + more);
    lemma_pow2_pos(k + more);
    assert(m * pow2(k + more) < pow2(24 + (k + more))) by (nonlinear_arith)
        requires
            m < pow2(24),
            pow2(24 + (k + more)) == pow2(24) * pow2(k + more),
            pow2(k + more) > 0,
    ;
    if 24 + (k + more) < 53 + 1200 {
        lemma_pow2_strictly_increases(24 + (k + more), 53 + 1200);
    }
    rounding::lemma_pack_bound(53, m * pow2(k + more), 1, 1200);
    assert(pow2((53 - 1) as nat) == 0x10_0000_0000_0000);
}

/// Whether a value lies between `-2^e` and `2^e`.
pub open spec fn within_power(x: Single, e: nat) -> bool {
    x.finite() && x.size() <= pow2(single::UNIT as nat + e)
}

/// The pattern of a power of two.
proof fn lemma_power(e: nat) -> (bits: nat)
    requires
        e <= 127,
    ensures
        bits == (127 + e) * 0x80_0000,
        bits < single::INFINITE,
        rounding::scaled(24, bits) == pow2(single::UNIT as nat + e),
{
    lemma2_to64();
    let k: nat = 126 + e;
    let bits: nat = (127 + e) * 0x80_0000;
    lemma_pow2_adds(23, k);
    assert(pow2((24 - 1) as nat) == 0x80_0000);
    assert(bits == k * 0x80_0000 + 0x80_0000);
    rounding::lemma_scaled_at(24, bits, pow2(23), k);
    bits
}

/// The product of values within powers of two is within their product.
pub proof fn lemma_product_within_power(x: Single, y: Single, e: nat, f: nat)
    requires
        within_power(x, e),
        within_power(y, f),
        e + f <= 127,
    ensures
        within_power(x.product(y), e + f),
{
    reveal(Single::product);
    let u: nat = single::UNIT as nat;
    let bits: nat = lemma_power(e + f);
    lemma_pow2_pos(u);
    vstd::arithmetic::mul::lemma_mul_upper_bound(
        x.size() as int,
        pow2(u + e) as int,
        y.size() as int,
        pow2(u + f) as int,
    );
    lemma_pow2_adds(u + e, u + f);
    lemma_pow2_adds(u + (e + f), u);
    assert((u + e) + (u + f) == (u + (e + f)) + u);
    lemma_rounded_at_most(x.negative() != y.negative(), x.size() * y.size(), pow2(u), bits);
}

/// Dividing by a whole number makes no value larger.
pub proof fn lemma_over_whole(x: Single, n: int, e: nat)
    requires
        within_power(x, e),
        e <= 127,
        0 < n < 0x1_0000_0000_0000_0000,
    ensures
        within_power(x.quotient(Single::of_int(n)), e),
{
    reveal(Single::quotient);
    let unit: nat = pow2(single::UNIT as nat);
    lemma_pow2_pos(single::UNIT as nat);
    let y: Single = Single::of_int(n);
    let one: nat = lemma_whole(1);
    lemma_of_int_finite(n);
    assert(y.magnitude() >= one && y.size() >= unit) by {
        reveal(Single::of_int);
        assert((1 * unit) * 1 <= (n * unit) * 1) by (nonlinear_arith)
            requires
                n >= 1,
                unit > 0,
        ;
        rounding::lemma_pack_monotone(24, (1 * unit) as nat, 1, (n * unit) as nat, 1);
        if one < y.magnitude() {
            rounding::lemma_scaled_monotone(24, one, y.magnitude());
        }
    }
    let bits: nat = lemma_power(e);
    let top: nat = pow2(single::UNIT as nat + e);
    assert(x.size() * unit <= top * y.size()) by (nonlinear_arith)
        requires
            x.size() <= top,
            unit <= y.size(),
    ;
    lemma_rounded_at_most(x.negative() != y.negative(), x.size() * unit, y.size(), bits);
}

/// A step too small to count leaves a value in its bounds.
pub proof fn lemma_small_step(x: Single, s: Single)
    requires
        within_power(x, 127),
        within_power(s, 103),
    ensures
        within_power(x.sum(s), 127),
{
    reveal(Single::sum);
    lemma2_to64();
    let bits: nat = lemma_power(127);
    rounding::lemma_pack_half_step(24, 253);
    lemma_pow2_adds(23, 253);
    let top: nat = pow2(276) + pow2(252);
    let sum: int = x.units() + s.units();
    let size: nat = if sum < 0 { (-sum) as nat } else { sum as nat };
    rounding::lemma_pack_monotone(24, size, 1, top, 1);
    let got: nat = rounding::pack(24, size, 1);
    assert(got <= bits);
    if got < bits {
        rounding::lemma_scaled_monotone(24, got, bits);
    }
}

/// What is taken away from a larger value makes it smaller.
pub proof fn lemma_taken_away(x: Single, y: Single)
    requires
        x.finite(),
        y.finite(),
        !y.negative(),
        y.less(x),
    ensures
        x.difference(y).finite(),
        x.difference(y).size() <= x.size(),
{
    reveal(Single::sum);
    single::lemma_less_is_by_value(y, x);
    let s: int = x.units() + y.negated().units();
    assert(y.negated().units() == -y.units());
    lemma_rounded_at_most(false, s as nat, 1, x.magnitude());
}

/// The sum of values within a power of two is within the next.
pub proof fn lemma_sum_within_power(x: Single, y: Single, e: nat)
    requires
        within_power(x, e),
        within_power(y, e),
        e < 127,
    ensures
        within_power(x.sum(y), e + 1),
{
    reveal(Single::sum);
    lemma2_to64();
    let bits: nat = lemma_power(e + 1);
    lemma_pow2_unfold(single::UNIT as nat + (e + 1));
    let s: int = x.units() + y.units();
    if s > 0 {
        lemma_rounded_at_most(false, s as nat, 1, bits);
    } else if s < 0 {
        lemma_rounded_at_most(true, (-s) as nat, 1, bits);
    } else {
        assert(x.sum(y).size() == 0);
    }
}

/// A value in `[-1, 1]` is within the first power of two.
pub proof fn lemma_one_within_power(x: Single, e: nat)
    requires
        within(x, 1),
    ensures
        within_power(x, e),
{
    if e > 0 {
        lemma_pow2_strictly_increases(single::UNIT as nat, single::UNIT as nat + e);
    }
}

/// A whole number of at most 64 bits is within `2^65`.
pub proof fn lemma_whole_bound(n: int)
    requires
        0 <= n < 0x1_0000_0000_0000_0000,
    ensures
        within_power(Single::of_int(n), 65),
{
    reveal(Single::of_int);
    lemma2_to64();
    lemma2_to64_rest();
    let unit: nat = pow2(single::UNIT as nat);
    lemma_pow2_pos(single::UNIT as nat);
    let bits: nat = lemma_power(65);
    lemma_pow2_adds(149, 64);
    lemma_pow2_unfold(214);
    assert(n * unit <= pow2(213)) by (nonlinear_arith)
        requires
            n < pow2(64),
            pow2(213) == unit * pow2(64),
            unit > 0,
            n >= 0,
    ;
    lemma_rounded_at_most(false, (n * unit) as nat, 1, bits);
}

} // verus!
