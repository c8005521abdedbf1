//! How far the result of an operation on values can be from the exact result.
//!
//! Values count in units of `2^-149`. A result is off by at most one part in
//! `2^24` of the exact result, and by at most half a unit where that is less
//! than the smallest part that a value has.

use vstd::prelude::*;
use vstd::arithmetic::power2::*;

use crate::order;
use crate::rounding;
use crate::single;
use crate::single::Single;

verus! {

/// How far a whole number is from zero.
pub open spec fn gap(x: int) -> int {
    if x < 0 {
        -x
    } else {
        x
    }
}

/// One, in units.
pub open spec fn whole() -> int {
    pow2(single::UNIT as nat) as int
}

/// Whether a value is `num / den`, up to `slack` parts in `2^24` of it.
pub open spec fn about(x: Single, num: int, den: int, slack: int) -> bool {
    x.finite() && 0x100_0000 * gap(x.units() * den - num * whole()) <= slack * (gap(num) * whole())
}

/// Whether a value is `num / den`, up to `slack` parts in `2^24` of one.
pub open spec fn within_parts(x: Single, num: int, den: int, slack: int) -> bool {
    x.finite() && 0x100_0000 * gap(x.units() * den - num * whole()) <= slack * (den * whole())
}

pub proof fn lemma_whole()
    ensures
        whole() > 0,
        whole() >= 0x1_0000_0000_0000_0000_0000_0000_0000,
        (Single { bits: single::ONE }).units() == whole(),
        (Single { bits: single::ONE }).size() == whole(),
        (Single { bits: single::MINUS_ONE }).units() == -whole(),
        (Single { bits: 0 }).units() == 0,
{
    lemma2_to64();
    lemma2_to64_rest();
    lemma_pow2_pos(single::UNIT as nat);
    lemma_pow2_adds(56, 56);
    lemma_pow2_strictly_increases(112, single::UNIT as nat);
    rounding::lemma_scaled_at(24, single::ONE as nat, pow2(23), 126);
    lemma_pow2_adds(23, 126);
}

/// The error of rounding a ratio.
proof fn lemma_rounded(negative: bool, num: nat, den: nat)
    requires
        den > 0,
        single::rounded(negative, num, den).finite(),
    ensures
        0x100_0000 * gap(single::rounded(negative, num, den).size() * den - num) <= num + 0x80_0000 * den,
        num >= 0x80_0000 * den ==> 0x100_0000 * gap(single::rounded(negative, num, den).size() * den - num) <= num,
        single::rounded(negative, num, den).negative() == negative,
{
    lemma2_to64();
    let r: Single = single::rounded(negative, num, den);
    let v: int = r.size() as int;
    assert(r.magnitude() == rounding::pack(24, num, den));
    if num >= 0x80_0000 * den {
        rounding::lemma_pack_error(24, num, den);
        assert(pow2(24) == 0x100_0000);
        assert(0x100_0000 * gap(v * den - num) <= num) by (nonlinear_arith)
            requires
                gap(v * den - num) == if v * den - num < 0 {
                    -(v * den - num)
                } else {
                    v * den - num
                },
                0xff_ffff * num <= 0x100_0000 * (v * den),
                0x100_0000 * (v * den) <= 0x100_0001 * num,
        ;
    } else {
        let q: int = (num / den) as int;
        let m: int = (num % den) as int;
        vstd::arithmetic::div_mod::lemma_fundamental_div_mod(num as int, den as int);
        vstd::arithmetic::div_mod::lemma_mod_bound(num as int, den as int);
        assert(num < pow2(24) * den) by (nonlinear_arith)
            requires
                num < 0x80_0000 * den,
                pow2(24) == 0x100_0000,
                den > 0,
        ;
        assert(q < 0x80_0000) by (nonlinear_arith)
            requires
                num < 0x80_0000 * den,
                num == den * q + m,
                m >= 0,
                den > 0,
        ;
        assert(v == rounding::nearest_even(num, den));
        assert(2 * gap(v * den - num) <= den) by (nonlinear_arith)
            requires
                num == den * q + m,
                0 <= m < den,
                v == q && 2 * m <= den || v == q + 1 && 2 * m >= den,
                gap(v * den - num) == if v * den - num < 0 {
                    -(v * den - num)
                } else {
                    v * den - num
                },
        ;
    }
}

/// The sum of two values is off by at most one part of it.
pub proof fn lemma_sum(x: Single, y: Single)
    requires
        x.finite(),
        y.finite(),
        x.sum(y).finite(),
    ensures
        0x100_0000 * gap(x.sum(y).units() - (x.units() + y.units())) <= gap(x.units() + y.units()),
{
    reveal(Single::sum);
    lemma2_to64();
    let s: int = x.units() + y.units();
    let n: nat = gap(s) as nat;
    let r: Single = x.sum(y);
    assert(rounding::scaled(24, 0) == 0);
    if s != 0 {
        lemma_rounded(s < 0, n, 1);
        if n < 0x80_0000 {
            assert(n % 1 == 0 && n / 1 == n);
            assert(rounding::pack(24, n, 1) == n);
            assert(r.size() == n);
        }
    }
}

/// The product of two values.
pub proof fn lemma_product(x: Single, y: Single)
    requires
        x.finite(),
        y.finite(),
        x.product(y).finite(),
    ensures
        0x100_0000 * gap(x.product(y).units() * whole() - x.units() * y.units()) <= gap(x.units() * y.units())
            + 0x80_0000 * whole(),
        gap(x.units() * y.units()) >= 0x80_0000 * whole() ==> 0x100_0000 * gap(
            x.product(y).units() * whole() - x.units() * y.units(),
        ) <= gap(x.units() * y.units()),
{
    reveal(Single::product);
    lemma_whole();
    let num: nat = x.size() * y.size();
    let negative: bool = x.negative() != y.negative();
    lemma_rounded(negative, num, whole() as nat);
    let r: int = x.product(y).units();
    let v: int = x.product(y).size() as int;
    let a: int = x.size() as int;
    let b: int = y.size() as int;
    assert(x.units() * y.units() == if negative { -(a * b) } else { a * b }) by (nonlinear_arith)
        requires
            x.units() == if x.negative() { -a } else { a },
            y.units() == if y.negative() { -b } else { b },
            negative == (x.negative() != y.negative()),
    ;
    assert(r * whole() == if negative { -(v * whole()) } else { v * whole() }) by (nonlinear_arith)
        requires
            r == if negative { -v } else { v },
    ;
    assert(a * b >= 0) by (nonlinear_arith)
        requires
            a >= 0,
            b >= 0,
    ;
}

/// The quotient of two values.
pub proof fn lemma_quotient(x: Single, y: Single)
    requires
        x.finite(),
        y.finite(),
        y.units() > 0,
        x.quotient(y).finite(),
    ensures
        0x100_0000 * gap(x.quotient(y).units() * y.units() - x.units() * whole()) <= gap(x.units()) * whole()
            + 0x80_0000 * y.units(),
        gap(x.units()) * whole() >= 0x80_0000 * y.units() ==> 0x100_0000 * gap(
            x.quotient(y).units() * y.units() - x.units() * whole(),
        ) <= gap(x.units()) * whole(),
{
    reveal(Single::quotient);
    lemma_whole();
    lemma2_to64();
    assert(rounding::scaled(24, 0) == 0);
    let u: int = whole();
    let num: nat = x.size() * pow2(single::UNIT as nat);
    let negative: bool = x.negative();
    lemma_rounded(negative, num, y.size());
    let r: int = x.quotient(y).units();
    let v: int = x.quotient(y).size() as int;
    let a: int = x.size() as int;
    let b: int = y.size() as int;
    assert(x.units() * u == if negative { -(a * u) } else { a * u }) by (nonlinear_arith)
        requires
            x.units() == if negative { -a } else { a },
    ;
    assert(r * b == if negative { -(v * b) } else { v * b }) by (nonlinear_arith)
        requires
            r == if negative { -v } else { v },
    ;
    assert(a * u >= 0) by (nonlinear_arith)
        requires
            a >= 0,
            u >= 0,
    ;
}

/// A whole number of at most 64 bits is off by at most one part of it.
pub proof fn lemma_of_int(n: int)
    requires
        -0x1_0000_0000_0000_0000 < n < 0x1_0000_0000_0000_0000,
    ensures
        about(Single::of_int(n), n, 1, 1),
        gap(n) < 0x100_0000 ==> Single::of_int(n).units() == n * whole(),
        n >= 0 ==> !Single::of_int(n).negative(),
        n > 0 ==> Single::of_int(n).units() > 0,
        n == 0 ==> Single::of_int(n).bits == 0,
{
    order::lemma_of_int_finite(n);
    lemma_whole();
    lemma2_to64();
    let u: int = whole();
    let r: Single = Single::of_int(n);
    let k: nat = gap(n) as nat;
    assert(rounding::scaled(24, 0) == 0);
    assert(k * u >= 0 && gap(n) * u == k * u && n * u == if n < 0 { -(k * u) } else { k * u }) by (nonlinear_arith)
        requires
            k == if n < 0 { -n } else { n },
            gap(n) == k,
            u > 0,
    ;
    assert(r == single::rounded(n < 0, (k * u) as nat, 1)) by {
        reveal(Single::of_int);
        assert((-n) * u == k * u || n * u == k * u);
    }
    if n != 0 {
        assert(k * u >= 0x80_0000) by (nonlinear_arith)
            requires
                k >= 1,
                u >= 0x80_0000,
        ;
        lemma_rounded(n < 0, (k * u) as nat, 1);
        rounding::lemma_scaled_monotone(24, 0, r.magnitude());
    }
    if gap(n) < 0x100_0000 {
        order::lemma_of_int_size(n);
        if n < 0 {
            assert((-n) * u == -(n * u)) by (nonlinear_arith);
        }
    }
    assert(r.units() * 1 == r.units());
}

/// The ratio of two whole numbers: off by at most four parts.
pub proof fn lemma_ratio(i: int, n: int)
    requires
        0 <= i < 0x1_0000_0000_0000_0000,
        0 < n < 0x1_0000_0000_0000_0000,
    ensures
        about(Single::of_int(i).quotient(Single::of_int(n)), i, n, 4),
        !Single::of_int(i).quotient(Single::of_int(n)).negative(),
        i == 0 ==> Single::of_int(i).quotient(Single::of_int(n)).bits == 0,
{
    lemma_whole();
    lemma_of_int(i);
    lemma_of_int(n);
    order::lemma_of_int_finite(i);
    order::lemma_of_int_finite(n);
    let u: int = whole();
    let a: Single = Single::of_int(i);
    let b: Single = Single::of_int(n);
    order::lemma_whole_bound(i);
    order::lemma_over_whole(a, n, 65);
    let q: Single = a.quotient(b);
    if i == 0 {
        order::lemma_zero_over(b);
        assert(0 * n == 0 && 0 * u == 0);
    } else {
        let x: int = a.units();
        let y: int = b.units();
        let r: int = q.units();
        assert(!q.negative()) by {
            reveal(Single::quotient);
        }
        lemma_quotient(a, b);
        assert(gap(i) * u == i * u && gap(n) * u == n * u);
        assert(x * 1 == x && y * 1 == y);
        assert(0x100_0000 * gap(x - i * u) <= i * u && 0x100_0000 * gap(y - n * u) <= n * u);
        assert(i * u > 0 && n * u > 0) by (nonlinear_arith)
            requires
                i > 0,
                n > 0,
                u > 0,
        ;
        // far above the smallest values
        assert(gap(x) * u >= 0x80_0000 * y) by (nonlinear_arith)
            requires
                gap(x) == x,
                0x100_0000 * x >= 0xff_ffff * (i * u),
                0x100_0000 * y <= 0x100_0001 * (n * u),
                i >= 1,
                n < 0x1_0000_0000_0000_0000,
                u >= 0x1_0000_0000_0000_0000_0000_0000_0000,
        {
            assert(0x100_0000 * (x * u) >= (0xff_ffff * (i * u)) * u);
            assert((i * u) * u >= u * u);
            assert(u * u >= 0x1_0000_0000_0000_0000_0000_0000_0000 * u);
            assert(n * u <= 0x1_0000_0000_0000_0000 * u);
        }
        lemma_share_error(x, y, r, i, n, u);
    }
}

/// The part that a whole number is of another: off by at most four parts.
pub proof fn lemma_share(i: int, n: int)
    requires
        0 <= i <= n < 0x1_0000_0000_0000_0000,
        0 < n,
    ensures
        about(Single::of_int(i).quotient(Single::of_int(n)), i, n, 4),
        order::within(Single::of_int(i).quotient(Single::of_int(n)), 1),
        !Single::of_int(i).quotient(Single::of_int(n)).negative(),
        i == 0 ==> Single::of_int(i).quotient(Single::of_int(n)).bits == 0,
        i == n ==> Single::of_int(i).quotient(Single::of_int(n)) == (Single { bits: single::ONE }),
{
    lemma_ratio(i, n);
    lemma_of_int(n);
    order::lemma_of_int_finite(i);
    order::lemma_of_int_finite(n);
    lemma_of_int_ordered(i, n);
    order::lemma_quotient_within(Single::of_int(i), Single::of_int(n));
    if i == n {
        order::lemma_one_over(Single::of_int(i));
    }
}

/// Whole numbers keep their order.
pub proof fn lemma_of_int_ordered(i: int, n: int)
    requires
        0 <= i <= n,
    ensures
        Single::of_int(i).magnitude() <= Single::of_int(n).magnitude(),
        Single::of_int(i).size() <= Single::of_int(n).size(),
{
    reveal(Single::of_int);
    lemma_whole();
    let u: int = whole();
    assert(0 <= i * u <= n * u && (i * u) * 1 <= (n * u) * 1) by (nonlinear_arith)
        requires
            0 <= i <= n,
            u > 0,
    ;
    rounding::lemma_pack_monotone(24, (i * u) as nat, 1, (n * u) as nat, 1);
    if Single::of_int(i).magnitude() < Single::of_int(n).magnitude() {
        rounding::lemma_scaled_monotone(24, Single::of_int(i).magnitude(), Single::of_int(n).magnitude());
    }
}

/// Errors of a ratio add up.
proof fn lemma_share_error(x: int, y: int, r: int, i: int, n: int, u: int)
    requires
        0 < i,
        0 < n,
        0 < u,
        0 < x,
        0 < y,
        0 <= r,
        0x100_0000 * gap(x - i * u) <= i * u,
        0x100_0000 * gap(y - n * u) <= n * u,
        0x100_0000 * gap(r * y - x * u) <= x * u,
    ensures
        0x100_0000 * gap(r * n - i * u) <= 4 * (i * u),
{
    let iu: int = i * u;
    let nu: int = n * u;
    assert(iu > 0 && nu > 0) by (nonlinear_arith)
        requires
            iu == i * u,
            nu == n * u,
            i > 0,
            n > 0,
            u > 0,
    ;
    assert(x * u > 0) by (nonlinear_arith)
        requires
            x > 0,
            u > 0,
    ;
    assert((0x100_0000 * 0xff_ffff) * (r * nu) <= (0x100_0001 * 0x100_0001) * (iu * u)) by (nonlinear_arith)
        requires
            0x100_0000 * (r * y) <= 0x100_0001 * (x * u),
            0x100_0000 * x <= 0x100_0001 * iu,
            0x100_0000 * y >= 0xff_ffff * nu,
            r >= 0,
            u > 0,
    {
        assert((0x100_0000 * (r * y)) == r * (0x100_0000 * y));
        assert(r * (0x100_0000 * y) >= r * (0xff_ffff * nu));
        assert(0x100_0000 * (r * (0xff_ffff * nu)) == (0x100_0000 * 0xff_ffff) * (r * nu));
        assert(0x100_0000 * (0x100_0001 * (x * u)) == 0x100_0001 * ((0x100_0000 * x) * u));
        assert((0x100_0000 * x) * u <= (0x100_0001 * iu) * u);
        assert(0x100_0001 * ((0x100_0001 * iu) * u) == (0x100_0001 * 0x100_0001) * (iu * u));
        assert(0x100_0000 * (r * (0x100_0000 * y)) <= 0x100_0000 * (0x100_0001 * (x * u)));
        assert(0x100_0000 * (r * (0xff_ffff * nu)) <= 0x100_0000 * (r * (0x100_0000 * y)));
        assert(0x100_0001 * ((0x100_0000 * x) * u) <= 0x100_0001 * ((0x100_0001 * iu) * u));
    }
    assert((0x100_0000 * 0x100_0001) * (r * nu) >= (0xff_ffff * 0xff_ffff) * (iu * u)) by (nonlinear_arith)
        requires
            0x100_0000 * (r * y) >= 0xff_ffff * (x * u),
            0x100_0000 * x >= 0xff_ffff * iu,
            0x100_0000 * y <= 0x100_0001 * nu,
            r >= 0,
            u > 0,
    {
        assert((0x100_0000 * (r * y)) == r * (0x100_0000 * y));
        assert(r * (0x100_0000 * y) <= r * (0x100_0001 * nu));
        assert(0x100_0000 * (r * (0x100_0001 * nu)) == (0x100_0000 * 0x100_0001) * (r * nu));
        assert(0x100_0000 * (0xff_ffff * (x * u)) == 0xff_ffff * ((0x100_0000 * x) * u));
        assert((0x100_0000 * x) * u >= (0xff_ffff * iu) * u);
        assert(0xff_ffff * ((0xff_ffff * iu) * u) == (0xff_ffff * 0xff_ffff) * (iu * u));
        assert(0x100_0000 * (r * (0x100_0000 * y)) >= 0x100_0000 * (0xff_ffff * (x * u)));
        assert(0x100_0000 * (r * (0x100_0001 * nu)) >= 0x100_0000 * (r * (0x100_0000 * y)));
        assert(0xff_ffff * ((0x100_0000 * x) * u) >= 0xff_ffff * ((0xff_ffff * iu) * u));
    }
    let rn: int = r * n;
    assert(r * nu == rn * u) by (nonlinear_arith)
        requires
            nu == n * u,
            rn == r * n,
    ;
    assert((0x100_0000 * 0xff_ffff) * rn <= (0x100_0001 * 0x100_0001) * iu) by (nonlinear_arith)
        requires
            (0x100_0000 * 0xff_ffff) * (rn * u) <= (0x100_0001 * 0x100_0001) * (iu * u),
            u > 0,
    ;
    assert((0x100_0000 * 0x100_0001) * rn >= (0xff_ffff * 0xff_ffff) * iu) by (nonlinear_arith)
        requires
            (0x100_0000 * 0x100_0001) * (rn * u) >= (0xff_ffff * 0xff_ffff) * (iu * u),
            u > 0,
    ;
}

/// `x` of the way from one value to another: `from + (to - from) * x`.
pub open spec fn between(from: Single, to: Single, x: Single) -> Single {
    from.sum(to.difference(from).product(x))
}

/// Whether a value lies `k / n` of the way from one value to another, up to 16
/// parts in `2^24` of their sizes and one unit.
pub open spec fn on_the_way(g: Single, from: Single, to: Single, k: int, n: int) -> bool {
    g.finite() && 0x100_0000 * gap(g.units() * n - (from.units() * (n - k) + to.units() * k)) <= (16 * (gap(
        from.units(),
    ) + gap(to.units())) + 0x100_0000) * n
}

pub proof fn lemma_gap_product(a: int, b: int)
    ensures
        gap(a * b) == gap(a) * gap(b),
{
    assert((-a) * b == -(a * b) && a * (-b) == -(a * b) && (-a) * (-b) == a * b) by (nonlinear_arith);
    assert(a >= 0 && b >= 0 ==> a * b >= 0) by (nonlinear_arith);
    assert(a < 0 && b < 0 ==> a * b >= 0) by (nonlinear_arith);
    assert(a >= 0 && b < 0 ==> a * b <= 0) by (nonlinear_arith);
    assert(a < 0 && b >= 0 ==> a * b <= 0) by (nonlinear_arith);
}

proof fn lemma_times(a: int, b: int, c: int)
    requires
        a <= b,
        c >= 0,
    ensures
        a * c <= b * c,
{
    assert(a * c <= b * c) by (nonlinear_arith)
        requires
            a <= b,
            c >= 0,
    ;
}

proof fn lemma_between_error(f: int, t: int, d: int, x: int, p: int, g: int, k: int, n: int, u: int)
    requires
        0 <= k <= n,
        0 < n,
        0 < u,
        0 <= x <= u,
        0x100_0000 * gap(d - (t - f)) <= gap(t - f),
        0x100_0000 * gap(x * n - k * u) <= 4 * (k * u),
        0x100_0000 * gap(p * u - d * x) <= gap(d * x) + 0x80_0000 * u,
        0x100_0000 * gap(g - (f + p)) <= gap(f + p),
    ensures
        0x100_0000 * gap(g * n - (f * (n - k) + t * k)) <= (16 * (gap(f) + gap(t)) + 0x100_0000) * n,
{
    let m: int = gap(f) + gap(t);
    let nu: int = n * u;
    let ku: int = k * u;
    assert(0 <= ku <= nu && nu > 0) by (nonlinear_arith)
        requires
            ku == k * u,
            nu == n * u,
            0 <= k <= n,
            n > 0,
            u > 0,
    ;
    assert(gap(d) <= 2 * m);
    let ep: int = p * u - d * x;
    let ex: int = x * n - ku;
    let ed: int = d - (t - f);
    // the product
    lemma_gap_product(d, x);
    assert(gap(d) * gap(x) <= (2 * m) * u) by (nonlinear_arith)
        requires
            0 <= gap(d) <= 2 * m,
            0 <= gap(x) <= u,
    ;
    let mu: int = m * u;
    assert((2 * m) * u == 2 * mu) by (nonlinear_arith)
        requires
            mu == m * u,
    ;
    assert(0x100_0000 * gap(ep) <= 2 * mu + 0x80_0000 * u);
    // its size
    assert(0x100_0000 * gap(p) <= 0x200_0000 * m + 2 * m + 0x80_0000) by {
        lemma_gap_product(p, u);
        assert(gap(p) * u <= gap(d * x) + gap(ep));
        assert((0x100_0000 * gap(p)) * u == 0x100_0000 * (gap(p) * u)) by (nonlinear_arith);
        assert((0x200_0000 * m + 2 * m + 0x80_0000) * u == 0x200_0000 * mu + 2 * mu + 0x80_0000 * u)
            by (nonlinear_arith)
            requires
                mu == m * u,
        ;
        assert(0x100_0000 * gap(p) <= 0x200_0000 * m + 2 * m + 0x80_0000) by (nonlinear_arith)
            requires
                (0x100_0000 * gap(p)) * u <= (0x200_0000 * m + 2 * m + 0x80_0000) * u,
                u > 0,
        ;
    }
    let eg: int = g - (f + p);
    assert(0x100_0000 * gap(eg) <= 4 * m + 1);
    // p n - (t - f) k
    let w: int = p * n - (t - f) * k;
    assert(w * u == n * ep + d * ex + ed * ku) by {
        let t1: int = t - f;
        assert(w * u == (p * n) * u - (t1 * k) * u) by (nonlinear_arith)
            requires
                w == p * n - t1 * k,
        ;
        assert(n * ep == (p * n) * u - n * (d * x)) by (nonlinear_arith)
            requires
                ep == p * u - d * x,
        ;
        assert(d * ex == n * (d * x) - d * ku) by (nonlinear_arith)
            requires
                ex == x * n - ku,
        ;
        assert(ed * ku == d * ku - (t1 * k) * u) by (nonlinear_arith)
            requires
                ed == d - t1,
                ku == k * u,
        ;
    }
    let mnu: int = m * nu;
    lemma_gap_product(n, ep);
    lemma_gap_product(d, ex);
    lemma_gap_product(ed, ku);
    lemma_gap_product(w, u);
    assert(0x100_0000 * (n * gap(ep)) <= 2 * mnu + 0x80_0000 * nu) by {
        lemma_times(0x100_0000 * gap(ep), 2 * mu + 0x80_0000 * u, n);
        assert((0x100_0000 * gap(ep)) * n == 0x100_0000 * (n * gap(ep))) by (nonlinear_arith);
        assert((2 * mu + 0x80_0000 * u) * n == 2 * mnu + 0x80_0000 * nu) by (nonlinear_arith)
            requires
                mu == m * u,
                mnu == m * nu,
                nu == n * u,
        ;
    }
    assert(0x100_0000 * (gap(d) * gap(ex)) <= 8 * mnu) by {
        lemma_times(0x100_0000 * gap(ex), 4 * nu, gap(d));
        lemma_times(gap(d), 2 * m, 4 * nu);
        assert((0x100_0000 * gap(ex)) * gap(d) == 0x100_0000 * (gap(d) * gap(ex))) by (nonlinear_arith);
        assert((4 * nu) * gap(d) == gap(d) * (4 * nu)) by (nonlinear_arith);
        assert((2 * m) * (4 * nu) == 8 * mnu) by (nonlinear_arith)
            requires
                mnu == m * nu,
        ;
    }
    assert(0x100_0000 * (gap(ed) * ku) <= mnu) by {
        lemma_times(0x100_0000 * gap(ed), m, ku);
        lemma_times(ku, nu, m);
        assert((0x100_0000 * gap(ed)) * ku == 0x100_0000 * (gap(ed) * ku)) by (nonlinear_arith);
        assert(m * ku == ku * m && nu * m == mnu) by (nonlinear_arith)
            requires
                mnu == m * nu,
        ;
    }
    assert(0x100_0000 * (gap(w) * u) <= 11 * mnu + 0x80_0000 * nu);
    assert(0x100_0000 * gap(w) <= (11 * m + 0x80_0000) * n) by {
        assert((0x100_0000 * gap(w)) * u == 0x100_0000 * (gap(w) * u)) by (nonlinear_arith);
        assert(((11 * m + 0x80_0000) * n) * u == 11 * mnu + 0x80_0000 * nu) by (nonlinear_arith)
            requires
                mnu == m * nu,
                nu == n * u,
        ;
        assert(0x100_0000 * gap(w) <= (11 * m + 0x80_0000) * n) by (nonlinear_arith)
            requires
                (0x100_0000 * gap(w)) * u <= ((11 * m + 0x80_0000) * n) * u,
                u > 0,
        ;
    }
    lemma_gap_product(eg, n);
    lemma_times(0x100_0000 * gap(eg), 4 * m + 1, n);
    assert((0x100_0000 * gap(eg)) * n == 0x100_0000 * (gap(eg) * n)) by (nonlinear_arith);
    let all: int = g * n - (f * (n - k) + t * k);
    assert(all == eg * n + w) by (nonlinear_arith)
        requires
            all == g * n - (f * (n - k) + t * k),
            eg == g - (f + p),
            w == p * n - (t - f) * k,
    ;
    assert((4 * m + 1) * n + (11 * m + 0x80_0000) * n <= (16 * m + 0x100_0000) * n) by (nonlinear_arith)
        requires
            m >= 0,
            n > 0,
    ;
}

/// A share of the way between two values that are not too large.
pub proof fn lemma_between(from: Single, to: Single, k: int, n: int)
    requires
        order::within_power(from, 100),
        order::within_power(to, 100),
        0 <= k <= n < 0x1_0000_0000_0000_0000,
        0 < n,
    ensures
        on_the_way(between(from, to, Single::of_int(k).quotient(Single::of_int(n))), from, to, k, n),
        order::within_power(between(from, to, Single::of_int(k).quotient(Single::of_int(n))), 102),
{
    let x: Single = Single::of_int(k).quotient(Single::of_int(n));
    lemma_share(k, n);
    lemma_whole();
    assert(order::within_power(from.negated(), 100));
    order::lemma_sum_within_power(to, from.negated(), 100);
    let d: Single = to.difference(from);
    order::lemma_one_within_power(x, 0);
    order::lemma_product_within_power(d, x, 101, 0);
    let p: Single = d.product(x);
    lemma_pow2_strictly_increases(249, 250);
    assert(order::within_power(from, 101));
    order::lemma_sum_within_power(from, p, 101);
    lemma_sum(to, from.negated());
    lemma_product(d, x);
    lemma_sum(from, p);
    assert(gap(k) * whole() == k * whole());
    assert(1 * whole() == whole());
    lemma_between_error(
        from.units(),
        to.units(),
        d.units(),
        x.units(),
        p.units(),
        between(from, to, x).units(),
        k,
        n,
        whole(),
    );
}

/// What is left of one after a share of it: off by at most 6 parts of one.
pub proof fn lemma_rest(k: int, n: int)
    requires
        0 <= k <= n < 0x1_0000_0000_0000_0000,
        0 < n,
    ensures
        ({
            let rest = (Single { bits: single::ONE }).difference(Single::of_int(k).quotient(Single::of_int(n)));
            &&& within_parts(rest, n - k, n, 6)
            &&& order::within(rest, 1)
            &&& k == 0 ==> rest == (Single { bits: single::ONE })
        }),
{
    let one: Single = Single { bits: single::ONE };
    let x: Single = Single::of_int(k).quotient(Single::of_int(n));
    lemma_share(k, n);
    lemma_whole();
    let u: int = whole();
    let rest: Single = one.difference(x);
    order::lemma_within_one(rest);
    assert(x.negated().units() == -x.units());
    assert(0 <= x.units() <= u) by {
        assert(1 * u == u);
    }
    assert(order::within(rest, 1)) by {
        reveal(Single::sum);
        lemma2_to64();
        let s: int = u - x.units();
        if s > 0 {
            order::lemma_rounded_at_most(false, s as nat, 1, single::ONE as nat);
        } else {
            assert(rest.size() == 0);
        }
    }
    lemma_sum(one, x.negated());
    let e: int = rest.units() - (u - x.units());
    let f: int = x.units() * n - k * u;
    let all: int = rest.units() * n - (n - k) * u;
    assert(all == e * n - f) by (nonlinear_arith)
        requires
            all == rest.units() * n - (n - k) * u,
            e == rest.units() - (u - x.units()),
            f == x.units() * n - k * u,
    ;
    lemma_gap_product(e, n);
    lemma_times(0x100_0000 * gap(e), u, n);
    assert((0x100_0000 * gap(e)) * n == 0x100_0000 * (gap(e) * n)) by (nonlinear_arith);
    assert(u * n == n * u && k * u <= n * u) by (nonlinear_arith)
        requires
            0 <= k <= n,
            u > 0,
    ;
    assert(gap(k) * u == k * u);
    if k == 0 {
        single::lemma_adding_zero(one, x.negated());
    }
}

/// What is left of a value in `[-1, 1]` after a share of it: off by at most 8
/// parts of one.
pub proof fn lemma_rest_of(s: Single, k: int, n: int)
    requires
        order::within(s, 1),
        0 <= k <= n < 0x1_0000_0000_0000_0000,
        0 < n,
    ensures
        ({
            let rest = (Single { bits: single::ONE }).difference(Single::of_int(k).quotient(Single::of_int(n)));
            let g = s.product(rest);
            &&& g.finite()
            &&& 0x100_0000 * gap(g.units() * n - s.units() * (n - k)) <= 8 * (n * whole())
        }),
{
    lemma_whole();
    lemma_rest(k, n);
    let u: int = whole();
    let rest: Single = (Single { bits: single::ONE }).difference(Single::of_int(k).quotient(Single::of_int(n)));
    assert(1 * 1 == 1);
    order::lemma_product_within(s, rest, 1, 1);
    let g: Single = s.product(rest);
    lemma_product(s, rest);
    let sv: int = s.units();
    let r: int = rest.units();
    let e: int = g.units() * u - sv * r;
    let f: int = r * n - (n - k) * u;
    assert(1 * u == u);
    assert(gap(sv) <= u && gap(r) <= u);
    lemma_gap_product(sv, r);
    let uu: int = u * u;
    assert(gap(sv) * gap(r) <= uu) by (nonlinear_arith)
        requires
            0 <= gap(sv) <= u,
            0 <= gap(r) <= u,
            uu == u * u,
    ;
    assert(0x80_0000 * u <= uu) by (nonlinear_arith)
        requires
            uu == u * u,
            u >= 0x80_0000,
    ;
    let all: int = g.units() * n - sv * (n - k);
    assert(all * u == e * n + sv * f) by {
        assert(all * u == (g.units() * u) * n - sv * ((n - k) * u)) by (nonlinear_arith)
            requires
                all == g.units() * n - sv * (n - k),
        ;
        assert(e * n == (g.units() * u) * n - (sv * r) * n) by (nonlinear_arith)
            requires
                e == g.units() * u - sv * r,
        ;
        assert(sv * f == (sv * r) * n - sv * ((n - k) * u)) by (nonlinear_arith)
            requires
                f == r * n - (n - k) * u,
        ;
    }
    lemma_gap_product(e, n);
    lemma_gap_product(sv, f);
    lemma_gap_product(all, u);
    let nu: int = n * u;
    assert(nu > 0) by (nonlinear_arith)
        requires
            nu == n * u,
            n > 0,
            u > 0,
    ;
    let nuu: int = nu * u;
    assert(0x100_0000 * (gap(e) * n) <= 2 * nuu) by {
        lemma_times(0x100_0000 * gap(e), 2 * uu, n);
        assert((0x100_0000 * gap(e)) * n == 0x100_0000 * (gap(e) * n)) by (nonlinear_arith);
        assert((2 * uu) * n == 2 * nuu) by (nonlinear_arith)
            requires
                uu == u * u,
                nuu == nu * u,
                nu == n * u,
        ;
    }
    assert(0x100_0000 * (gap(sv) * gap(f)) <= 6 * nuu) by {
        lemma_times(0x100_0000 * gap(f), 6 * nu, gap(sv));
        lemma_times(gap(sv), u, 6 * nu);
        assert((0x100_0000 * gap(f)) * gap(sv) == 0x100_0000 * (gap(sv) * gap(f))) by (nonlinear_arith);
        assert((6 * nu) * gap(sv) == gap(sv) * (6 * nu)) by (nonlinear_arith);
        assert(u * (6 * nu) == 6 * nuu) by (nonlinear_arith)
            requires
                nuu == nu * u,
        ;
    }
    assert((0x100_0000 * gap(all)) * u == 0x100_0000 * (gap(all) * u)) by (nonlinear_arith);
    assert((8 * nu) * u == 8 * nuu) by (nonlinear_arith)
        requires
            nuu == nu * u,
    ;
    assert(0x100_0000 * gap(all) <= 8 * nu) by (nonlinear_arith)
        requires
            (0x100_0000 * gap(all)) * u <= (8 * nu) * u,
            u > 0,
    ;
}

/// The error of a quotient, and that of what is divided.
proof fn lemma_over_error(v: int, q: int, num: int, den: int, k: int, n: int, u: int)
    requires
        0 <= v,
        0 <= num,
        0 < den,
        0 < n,
        0 < u,
        0 <= k <= 16,
        0x100_0000 * gap(v * den - num * u) <= k * (num * u),
        0x100_0000 * gap(q * (n * u) - v * u) <= v * u,
    ensures
        0x100_0000 * gap(q * (den * n) - num * u) <= (k + 2) * (num * u),
{
    let nu: int = num * u;
    let e: int = v * den - nu;
    assert(nu >= 0) by (nonlinear_arith)
        requires
            nu == num * u,
            num >= 0,
            u > 0,
    ;
    // q n and v
    let f: int = q * n - v;
    assert(0x100_0000 * gap(f) <= v) by {
        assert(q * (n * u) - v * u == f * u) by (nonlinear_arith)
            requires
                f == q * n - v,
        ;
        lemma_gap_product(f, u);
        assert((0x100_0000 * gap(f)) * u == 0x100_0000 * (gap(f) * u)) by (nonlinear_arith);
        assert(0x100_0000 * gap(f) <= v) by (nonlinear_arith)
            requires
                (0x100_0000 * gap(f)) * u <= v * u,
                u > 0,
        ;
    }
    let all: int = q * (den * n) - nu;
    assert(all == f * den + e) by (nonlinear_arith)
        requires
            all == q * (den * n) - nu,
            f == q * n - v,
            e == v * den - nu,
    ;
    lemma_gap_product(f, den);
    lemma_times(0x100_0000 * gap(f), v, den);
    assert((0x100_0000 * gap(f)) * den == 0x100_0000 * (gap(f) * den)) by (nonlinear_arith);
    assert(k * nu <= 16 * nu) by (nonlinear_arith)
        requires
            k <= 16,
            nu >= 0,
    ;
    assert(v * den <= nu + nu);
    assert((k + 2) * nu == k * nu + 2 * nu) by (nonlinear_arith);
}

/// A value over a whole number of at most 24 bits: two parts more.
pub proof fn lemma_over(x: Single, num: int, den: int, k: int, n: int)
    requires
        !x.negative(),
        about(x, num, den, k),
        0 <= k <= 16,
        0 <= num,
        0 < den,
        0 < n < 0x100_0000,
        x.units() >= 0x1_0000_0000_0000,
        order::within_power(x, 100),
    ensures
        about(x.quotient(Single::of_int(n)), num, den * n, k + 2),
        !x.quotient(Single::of_int(n)).negative(),
        order::within_power(x.quotient(Single::of_int(n)), 100),
{
    lemma_whole();
    let u: int = whole();
    lemma_of_int(n);
    let y: Single = Single::of_int(n);
    order::lemma_over_whole(x, n, 100);
    let q: Single = x.quotient(y);
    lemma_quotient(x, y);
    assert(!q.negative()) by {
        reveal(Single::quotient);
        order::lemma_of_int_finite(n);
    }
    assert(gap(x.units()) * u >= 0x80_0000 * (n * u)) by (nonlinear_arith)
        requires
            gap(x.units()) >= 0x1_0000_0000_0000,
            n < 0x100_0000,
            u > 0,
    ;
    assert(gap(num) * u == num * u);
    assert(gap(x.units()) * u == x.units() * u);
    lemma_over_error(x.units(), q.units(), num, den, k, n, u);
}

/// Whole numbers whose product has at most 24 bits multiply exactly.
pub proof fn lemma_whole_product(a: int, b: int)
    requires
        0 <= a,
        0 <= b,
        a < 0x100_0000,
        b < 0x100_0000,
        a * b < 0x100_0000,
    ensures
        Single::of_int(a).product(Single::of_int(b)) == Single::of_int(a * b),
{
    let bits: nat = order::lemma_whole((a * b) as nat);
    let x: nat = order::lemma_whole(a as nat);
    let y: nat = order::lemma_whole(b as nat);
    order::lemma_of_int_finite(a);
    order::lemma_of_int_finite(b);
    assert(a * b >= 0) by (nonlinear_arith)
        requires
            a >= 0,
            b >= 0,
    ;
    let u: nat = pow2(single::UNIT as nat);
    assert((a * u) * (b * u) == u * ((a * b) * u)) by (nonlinear_arith);
    order::lemma_product_exact(Single::of_int(a), Single::of_int(b), bits);
}

/// A whole number over a power of two that is no smaller is exact.
pub proof fn lemma_part_of_power(n: int, j: nat)
    requires
        j <= 20,
        0 <= n <= pow2(j),
    ensures
        Single::of_int(n).quotient(Single::of_int(pow2(j) as int)).finite(),
        Single::of_int(n).quotient(Single::of_int(pow2(j) as int)).units() * pow2(j) == n * whole(),
        !Single::of_int(n).quotient(Single::of_int(pow2(j) as int)).negative(),
{
    lemma2_to64();
    if j < 20 {
        lemma_pow2_strictly_increases(j, 20);
    }
    lemma_pow2_pos(j);
    let a: nat = order::lemma_whole(n as nat);
    let b: nat = order::lemma_whole(pow2(j));
    order::lemma_of_int_finite(n);
    order::lemma_of_int_finite(pow2(j) as int);
    order::lemma_over_power(n as nat, Single::of_int(n), Single::of_int(pow2(j) as int), j);
}

} // verus!
