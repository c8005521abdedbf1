//! How far the results of floating-point arithmetic are from the exact ones.

use vstd::prelude::*;
use vstd::arithmetic::div_mod::*;
use vstd::arithmetic::power2::*;

use crate::double;
use crate::double::Double;
use crate::rounding;
use crate::single;
use crate::single::Single;

verus! {

/// One, in units of double precision.
pub open spec fn unit() -> nat {
    pow2(double::UNIT as nat)
}

/// The unit of single precision, in units of double precision.
pub open spec fn coarse() -> nat {
    pow2((double::UNIT - single::UNIT) as nat)
}

/// `v` is `x` but for at most the `h`th part of it.
pub open spec fn near(h: nat, v: nat, x: nat) -> bool {
    &&& (h - 1) * x <= h * v
    &&& h * v <= (h + 1) * x
}

/// A positive value between `2^-e` and `2^e`.
pub open spec fn mid(d: Double, e: nat) -> bool {
    &&& d.finite()
    &&& !d.negative()
    &&& unit() <= d.size() * pow2(e)
    &&& d.size() <= unit() * pow2(e)
}

/// What is near is neither more than twice nor less than half.
pub proof fn lemma_near(h: nat, v: nat, x: nat)
    requires
        h >= 2,
        near(h, v, x),
    ensures
        v <= 2 * x,
        x <= 2 * v,
{
    assert(v <= 2 * x) by (nonlinear_arith)
        requires
            h * v <= (h + 1) * x,
            h >= 2,
            x >= 0,
    ;
    assert(x <= 2 * v) by (nonlinear_arith)
        requires
            (h - 1) * x <= h * v,
            h >= 2,
            x >= 0,
    ;
}

proof fn lemma_powers()
    ensures
        pow2(52) == 0x10_0000_0000_0000,
        pow2(53) == 0x20_0000_0000_0000,
        pow2(23) == 0x80_0000,
        pow2(24) == 0x100_0000,
        unit() > 0,
        coarse() > 0,
{
    lemma2_to64();
    lemma2_to64_rest();
    lemma_pow2_pos(double::UNIT as nat);
    lemma_pow2_pos((double::UNIT - single::UNIT) as nat);
}

/// A ratio of units in the middle of the range, rounded.
proof fn lemma_rounded(num: nat, den: nat)
    requires
        den > 0,
        pow2(52) * den <= num,
        num < pow2(1300) * den,
    ensures
        ({
            let r = double::rounded(false, num, den);
            &&& r.finite()
            &&& !r.negative()
            &&& r.size() > 0
            &&& near(pow2(53), r.size() * den, num)
        }),
{
    lemma_powers();
    rounding::lemma_pack_error(53, num, den);
    rounding::lemma_pack_bound(53, num, den, 1247);
    let r = double::rounded(false, num, den);
    let b = rounding::pack(53, num, den);
    assert(b < double::INFINITE);
    assert(r.bits == b);
    rounding::lemma_scaled_monotone(53, 0, b);
}

/// Powers of two in their order.
proof fn lemma_ordered(a: nat, b: nat)
    requires
        a <= b,
    ensures
        pow2(a) <= pow2(b),
{
    if a < b {
        lemma_pow2_strictly_increases(a, b);
    }
}

/// Whole numbers in double precision; exact up to 53 bits.
pub proof fn lemma_of_int(n: int, e: nat)
    requires
        0 < n <= pow2(e),
        e <= 64,
    ensures
        mid(Double::of_int(n), e + 1),
        near(pow2(53), Double::of_int(n).size(), (n * unit()) as nat),
        n < pow2(53) ==> Double::of_int(n).size() == n * unit(),
{
    reveal(Double::of_int);
    lemma_powers();
    let u = unit();
    let num = (n * u) as nat;
    let pe = pow2(e);
    lemma_pow2_unfold(e + 1);
    lemma_pow2_adds(e, double::UNIT as nat);
    lemma_ordered(52, double::UNIT as nat);
    lemma_pow2_strictly_increases(e + double::UNIT as nat, 1300);
    assert(u <= n * u <= pe * u) by (nonlinear_arith)
        requires
            0 < n <= pe,
            u > 0,
    ;
    lemma_rounded(num, 1);
    let s = Double::of_int(n).size();
    lemma_near(pow2(53), s, num);
    assert(u <= s * pow2(e + 1)) by (nonlinear_arith)
        requires
            u <= 2 * s,
            pow2(e + 1) == 2 * pe,
            pe >= 1,
    ;
    assert(s <= u * pow2(e + 1)) by (nonlinear_arith)
        requires
            s <= 2 * (pe * u),
            pow2(e + 1) == 2 * pe,
    ;
    if n < pow2(53) {
        rounding::lemma_pack_exact(53, n as nat, double::UNIT as nat);
        rounding::lemma_pack_bound(53, num, 1, 1247);
    }
}

/// One, in single precision.
pub proof fn lemma_one()
    ensures
        Single::of_int(1) == (Single { bits: single::ONE }),
        Double::of_single(Single { bits: single::ONE }).size() == unit(),
        mid(Double::of_single(Single { bits: single::ONE }), 1),
{
    reveal(Single::of_int);
    reveal(Double::of_single);
    lemma2_to64();
    lemma2_to64_rest();
    lemma_pow2_pos(double::UNIT as nat);
    // one is 2^23 * 2^126 units
    rounding::lemma_scaled_at(24, single::ONE as nat, pow2(23), 126);
    lemma_pow2_adds(23, 126);
    rounding::lemma_pack_of_scaled(24, single::ONE as nat);
    // and 2^52 * 2^1022 of the smaller ones
    rounding::lemma_scaled_at(53, double::ONE as nat, pow2(52), 1022);
    lemma_pow2_adds(52, 1022);
    rounding::lemma_pack_of_scaled(53, double::ONE as nat);
    lemma_pow2_adds(single::UNIT as nat, (double::UNIT - single::UNIT) as nat);
}

/// The product of two values in the middle of the range.
pub proof fn lemma_product(a: Double, b: Double, e: nat, f: nat)
    requires
        mid(a, e),
        mid(b, f),
        e + f <= 200,
    ensures
        mid(a.product(b), e + f + 1),
        near(pow2(53), a.product(b).size() * unit(), a.size() * b.size()),
{
    reveal(Double::product);
    lemma_powers();
    let u = unit();
    let x = a.size();
    let y = b.size();
    let pe = pow2(e);
    let pf = pow2(f);
    let both = pow2(e + f);
    lemma_pow2_pos(e);
    lemma_pow2_pos(f);
    lemma_pow2_pos(e + f);
    lemma_pow2_adds(e, f);
    lemma_pow2_unfold(e + f + 1);
    assert(u * u <= (x * y) * both) by (nonlinear_arith)
        requires
            u <= x * pe,
            u <= y * pf,
            both == pe * pf,
            u >= 0,
    ;
    assert(x * y <= (u * u) * both) by (nonlinear_arith)
        requires
            0 <= x <= u * pe,
            0 <= y <= u * pf,
            both == pe * pf,
    ;
    lemma_pow2_adds(52, e + f);
    lemma_ordered(52 + e + f, double::UNIT as nat);
    assert(pow2(52) * u <= x * y) by (nonlinear_arith)
        requires
            u * u <= (x * y) * both,
            pow2(52) * both <= u,
            both > 0,
            u > 0,
    ;
    lemma_pow2_adds(double::UNIT as nat, e + f);
    lemma_pow2_strictly_increases(double::UNIT as nat + e + f, 1300);
    assert(x * y < pow2(1300) * u) by (nonlinear_arith)
        requires
            x * y <= (u * u) * both,
            u * both < pow2(1300),
            u > 0,
    ;
    lemma_rounded(x * y, u);
    let s = a.product(b).size();
    lemma_near(pow2(53), s * u, x * y);
    let more = pow2(e + f + 1);
    assert(u <= s * more) by (nonlinear_arith)
        requires
            u * u <= (x * y) * both,
            x * y <= 2 * (s * u),
            more == 2 * both,
            u > 0,
            both > 0,
    ;
    assert(s <= u * more) by (nonlinear_arith)
        requires
            s * u <= 2 * (x * y),
            x * y <= (u * u) * both,
            more == 2 * both,
            u > 0,
    ;
}

/// The quotient of two values in the middle of the range.
pub proof fn lemma_quotient(a: Double, b: Double, e: nat, f: nat)
    requires
        mid(a, e),
        mid(b, f),
        e + f <= 200,
    ensures
        mid(a.quotient(b), e + f + 1),
        near(pow2(53), a.quotient(b).size() * b.size(), a.size() * unit()),
{
    reveal(Double::quotient);
    lemma_powers();
    let u = unit();
    let x = a.size();
    let y = b.size();
    let pe = pow2(e);
    let pf = pow2(f);
    let both = pow2(e + f);
    lemma_pow2_pos(e);
    lemma_pow2_pos(f);
    lemma_pow2_pos(e + f);
    lemma_pow2_adds(e, f);
    lemma_pow2_unfold(e + f + 1);
    assert(y > 0) by (nonlinear_arith)
        requires
            u <= y * pf,
            u > 0,
            y >= 0,
    ;
    assert(x > 0) by (nonlinear_arith)
        requires
            u <= x * pe,
            u > 0,
            x >= 0,
    ;
    assert(rounding::scaled(53, 0) == 0);
    // the exact quotient lies in [2^-(e + f), 2^(e + f)]
    assert(y <= x * both) by (nonlinear_arith)
        requires
            u <= x * pe,
            y <= u * pf,
            both == pe * pf,
            pf > 0,
    ;
    assert(x <= y * both) by (nonlinear_arith)
        requires
            x <= u * pe,
            u <= y * pf,
            both == pe * pf,
            pe > 0,
    ;
    lemma_pow2_adds(52, e + f);
    lemma_ordered(52 + e + f, double::UNIT as nat);
    assert(pow2(52) * y <= x * u) by (nonlinear_arith)
        requires
            y <= x * both,
            pow2(52) * both <= u,
            x > 0,
            pow2(52) > 0,
    ;
    lemma_pow2_adds(double::UNIT as nat, e + f);
    lemma_pow2_strictly_increases(double::UNIT as nat + e + f, 1300);
    assert(x * u < pow2(1300) * y) by (nonlinear_arith)
        requires
            x <= y * both,
            u * both < pow2(1300),
            u > 0,
            y > 0,
    ;
    lemma_rounded(x * u, y);
    let s = a.quotient(b).size();
    lemma_near(pow2(53), s * y, x * u);
    let more = pow2(e + f + 1);
    assert(u <= s * more) by (nonlinear_arith)
        requires
            y <= x * both,
            x * u <= 2 * (s * y),
            more == 2 * both,
            y > 0,
            x > 0,
            both > 0,
    ;
    assert(s <= u * more) by (nonlinear_arith)
        requires
            s * y <= 2 * (x * u),
            x <= y * both,
            more == 2 * both,
            y > 0,
            u > 0,
    ;
}

/// A value in the middle of the range, taken to single precision and back.
pub proof fn lemma_through_single(d: Double, e: nat)
    requires
        mid(d, e),
        e <= 120,
    ensures
        d.as_single().finite(),
        !d.as_single().negative(),
        d.as_single().size() > 0,
        near(pow2(24), d.as_single().size() * coarse(), d.size()),
        mid(Double::of_single(d.as_single()), e + 2),
        near(
            pow2(53),
            Double::of_single(d.as_single()).size(),
            d.as_single().size() * coarse(),
        ),
{
    reveal(Double::as_single);
    reveal(Double::of_single);
    lemma_powers();
    let u = unit();
    let c = coarse();
    let x = d.size();
    let pe = pow2(e);
    lemma_pow2_pos(e);
    // down
    lemma_pow2_adds(23, (double::UNIT - single::UNIT) as nat);
    lemma_pow2_adds(948, e);
    lemma_ordered(948 + e, double::UNIT as nat);
    assert(pow2(23) * c <= x) by (nonlinear_arith)
        requires
            u <= x * pe,
            (pow2(23) * c) * pe <= u,
            pe > 0,
    ;
    lemma_pow2_adds(double::UNIT as nat, e);
    lemma_pow2_adds(276, (double::UNIT - single::UNIT) as nat);
    lemma_pow2_strictly_increases(double::UNIT as nat + e, 1201);
    rounding::lemma_pack_error(24, x, c);
    rounding::lemma_pack_bound(24, x, c, 252);
    let t = d.as_single();
    let b = rounding::pack(24, x, c);
    assert(b < single::INFINITE);
    assert(t.bits == b);
    rounding::lemma_scaled_monotone(24, 0, b);
    let y = t.size() * c;
    lemma_near(pow2(24), y, x);
    // and up
    assert(y >= c) by (nonlinear_arith)
        requires
            y == t.size() * c,
            t.size() > 0,
            c > 0,
    ;
    lemma_ordered(52, (double::UNIT - single::UNIT) as nat);
    lemma_pow2_unfold(double::UNIT as nat + e + 1);
    lemma_pow2_strictly_increases(double::UNIT as nat + e + 1, 1300);
    lemma_rounded(y, 1);
    let w = Double::of_single(t).size();
    lemma_near(pow2(53), w, y);
    lemma_pow2_unfold(e + 1);
    lemma_pow2_unfold(e + 2);
    let more = pow2(e + 2);
    assert(u <= w * more) by (nonlinear_arith)
        requires
            u <= x * pe,
            x <= 4 * w,
            more == 4 * pe,
            pe > 0,
    ;
    assert(w <= u * more) by (nonlinear_arith)
        requires
            x <= u * pe,
            w <= 4 * x,
            more == 4 * pe,
            pe > 0,
    ;
}

/// A value at least a half below a whole number is rounded to that at least.
pub proof fn lemma_nearest_at_least(d: Double, n: nat)
    requires
        d.finite(),
        !d.negative(),
        n <= u64::MAX,
        (2 * n - 1) * unit() <= 2 * d.size(),
    ensures
        d.nearest() >= n,
{
    lemma_powers();
    let u: int = unit() as int;
    let s: int = d.size() as int;
    let w: int = d.whole_size() as int;
    let r: int = d.part_size() as int;
    lemma_fundamental_div_mod(s, u);
    lemma_mod_bound(s, u);
    assert(w >= n - 1) by (nonlinear_arith)
        requires
            (2 * n - 1) * u <= 2 * s,
            s == u * w + r,
            r < u,
            u > 0,
    ;
    if w == n - 1 {
        assert(2 * r >= u) by (nonlinear_arith)
            requires
                (2 * n - 1) * u <= 2 * s,
                s == u * w + r,
                w == n - 1,
        ;
    }
}

/// A value less than a half above a whole number is rounded to that at most.
pub proof fn lemma_nearest_at_most(d: Double, n: nat)
    requires
        d.finite(),
        !d.negative(),
        n <= u64::MAX,
        2 * d.size() < (2 * n + 1) * unit(),
    ensures
        d.nearest() <= n,
{
    lemma_powers();
    let u: int = unit() as int;
    let s: int = d.size() as int;
    let w: int = d.whole_size() as int;
    let r: int = d.part_size() as int;
    lemma_fundamental_div_mod(s, u);
    lemma_mod_bound(s, u);
    assert(w <= n) by (nonlinear_arith)
        requires
            2 * s < (2 * n + 1) * u,
            s == u * w + r,
            r >= 0,
            u > 0,
    ;
    if w == n {
        assert(2 * r < u) by (nonlinear_arith)
            requires
                2 * s < (2 * n + 1) * u,
                s == u * w + r,
                w == n,
        ;
    }
}

/// A value that is nearly a whole number is rounded to it.
pub proof fn lemma_nearest(d: Double, n: nat, h: nat)
    requires
        d.finite(),
        !d.negative(),
        n <= u64::MAX,
        2 * n < h,
        near(h, d.size(), n * unit()),
    ensures
        d.nearest() == n,
{
    lemma_powers();
    let u: int = unit() as int;
    let s: int = d.size() as int;
    assert((2 * n - 1) * u <= 2 * s) by (nonlinear_arith)
        requires
            (h - 1) * (n * u) <= h * s,
            2 * n < h,
            u > 0,
            n >= 0,
    ;
    assert(2 * s < (2 * n + 1) * u) by (nonlinear_arith)
        requires
            h * s <= (h + 1) * (n * u),
            2 * n < h,
            u > 0,
            n >= 0,
    ;
    lemma_nearest_at_least(d, n);
    lemma_nearest_at_most(d, n);
}

} // verus!
