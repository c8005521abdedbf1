//! What leaves the library as whole numbers, and what the scope shows.

use vstd::prelude::*;
use vstd::arithmetic::div_mod::*;
use vstd::arithmetic::power2::*;

use crate::closeness;
use crate::closeness::{gap, whole};
use crate::engine;
use crate::keys;
use crate::order;
use crate::single;
use crate::single::Single;
use crate::view;
use crate::wav;

verus! {

/// A value times a whole number.
proof fn lemma_scaled(x: Single, n: int)
    requires
        order::within_power(x, 2),
        0 < n < 0x1_0000,
    ensures
        x.product(Single::of_int(n)).finite(),
        0x100_0000 * gap(x.product(Single::of_int(n)).units() - n * x.units()) <= n * gap(x.units()) + 0x80_0000,
{
    closeness::lemma_whole();
    closeness::lemma_of_int(n);
    order::lemma_whole_bound(n);
    let y: Single = Single::of_int(n);
    order::lemma_product_within_power(x, y, 2, 65);
    closeness::lemma_product(x, y);
    let u: int = whole();
    let p: int = x.product(y).units();
    let v: int = x.units();
    let e: int = p - n * v;
    assert(gap(n) * u == n * u);
    assert(v * (n * u) == (n * v) * u && p * u - (n * v) * u == e * u) by (nonlinear_arith)
        requires
            e == p - n * v,
    ;
    closeness::lemma_gap_product(e, u);
    closeness::lemma_gap_product(n * v, u);
    closeness::lemma_gap_product(n, v);
    assert(gap(n) == n);
    assert(0x100_0000 * gap(e) <= n * gap(v) + 0x80_0000) by (nonlinear_arith)
        requires
            0x100_0000 * (gap(e) * u) <= (n * gap(v)) * u + 0x80_0000 * u,
            u > 0,
    ;
}

proof fn lemma_in_range(s: Single)
    requires
        s.finite(),
    ensures
        ({
            let x = s.clamped(Single { bits: single::MINUS_ONE }, Single { bits: single::ONE });
            &&& order::within_power(x, 2)
            &&& gap(x.units()) <= whole()
            &&& gap(s.units()) <= whole() ==> x == s
        }),
{
    closeness::lemma_whole();
    let low: Single = Single { bits: single::MINUS_ONE };
    let high: Single = Single { bits: single::ONE };
    single::lemma_less_is_by_value(s, low);
    single::lemma_less_is_by_value(high, s);
    let x: Single = s.clamped(low, high);
    assert(x.finite() && gap(x.units()) <= whole());
    assert(x.size() == gap(x.units()));
    assert(1 * pow2(single::UNIT as nat) == whole());
    order::lemma_one_within_power(x, 2);
}

/// A value from -1 to 1 becomes the whole part of 32767 times it: less than one
/// step nearer to zero, and up to a rounding no further from it.
pub proof fn law_sixteen_bits_hold_the_whole_part(s: Single)
    requires
        s.finite(),
        gap(s.units()) <= whole(),
    ensures
        ({
            let q = wav::quantized(s);
            let exact = 32767 * gap(s.units());
            &&& -32767 <= q <= 32767
            &&& q > 0 ==> s.units() > 0
            &&& q < 0 ==> s.units() < 0
            &&& 0x100_0000 * (gap(q) * whole() - exact) <= exact + 0x80_0000
            &&& 0x100_0000 * (exact - gap(q) * whole()) < 0x100_0000 * whole() + exact + 0x80_0000
        }),
{
    closeness::lemma_whole();
    lemma_in_range(s);
    lemma_scaled(s, 32767);
    let u: int = whole();
    let x: Single = s.product(Single::of_int(32767));
    lemma_sign(s, 32767);
    let n: Single = if x.negative() { x.negated() } else { x };
    let d: int = n.size() as int / u;
    lemma_fundamental_div_mod(n.size() as int, u);
    lemma_mod_bound(n.size() as int, u);
    assert(u * d == d * u) by (nonlinear_arith);
    assert(0 <= d <= 32767) by (nonlinear_arith)
        requires
            d * u <= n.size(),
            n.size() < 32768 * u,
            n.size() < d * u + u,
            n.size() >= 0,
            u > 0,
    ;
    assert(gap(wav::quantized(s)) == d);
    closeness::lemma_gap_product(32767, s.units());
    if d > 0 {
        assert(d * u >= u) by (nonlinear_arith)
            requires
                d >= 1,
                u > 0,
        ;
    }
}

/// A product has the sign of its factors.
proof fn lemma_sign(x: Single, n: int)
    requires
        x.finite(),
        0 < n < 0x1_0000,
        x.product(Single::of_int(n)).finite(),
    ensures
        x.product(Single::of_int(n)).negative() == x.negative(),
{
    reveal(Single::product);
    closeness::lemma_of_int(n);
    order::lemma_of_int_finite(n);
}

/// A value from -1 to 1 becomes the whole part of its place in 0 to 65535.
pub proof fn law_unsigned_bits_hold_the_place(s: Single)
    requires
        s.finite(),
        gap(s.units()) <= whole(),
    ensures
        ({
            let n = engine::unsigned(s) as int;
            &&& 0 <= n <= 65535
            &&& 0x100_0000 * gap(2 * (n * whole()) - 65535 * (s.units() + whole())) <= 0x208_0000 * whole()
        }),
{
    closeness::lemma_whole();
    lemma2_to64();
    lemma_in_range(s);
    reveal(Single::of_ratio);
    let u: int = whole();
    closeness::lemma_part_of_power(1, 1);
    assert(pow2(1) == 2);
    let h: Single = Single::of_ratio(1, 2);
    assert(2 * h.units() == u);
    assert(h.size() == h.units());
    assert(order::within(h, 1)) by {
        assert(1 * pow2(single::UNIT as nat) == u);
    }
    order::lemma_one_within_power(h, 0);
    order::lemma_one_within_power(s, 0);
    order::lemma_product_within_power(s, h, 0, 0);
    let a: Single = s.product(h);
    closeness::lemma_product(s, h);
    let e: int = 2 * a.units() - s.units();
    let v: int = s.units();
    assert(2 * (a.units() * u - v * h.units()) == e * u && 2 * (v * h.units()) == v * u) by (nonlinear_arith)
        requires
            2 * h.units() == u,
            e == 2 * a.units() - v,
    ;
    closeness::lemma_gap_product(e, u);
    closeness::lemma_gap_product(v, u);
    assert(0x100_0000 * gap(e) <= gap(v) + 0x100_0000) by (nonlinear_arith)
        requires
            0x100_0000 * (gap(e) * u) <= gap(v) * u + 0x100_0000 * u,
            u > 0,
    ;
    order::lemma_sum_within_power(a, h, 0);
    let b: Single = a.sum(h);
    closeness::lemma_sum(a, h);
    lemma_pow2_strictly_increases(150, 151);
    assert(order::within_power(b, 2));
    lemma_scaled(b, 65535);
    let c: Single = b.product(Single::of_int(65535));
    let k: int = c.size() as int / u;
    lemma_fundamental_div_mod(c.size() as int, u);
    lemma_mod_bound(c.size() as int, u);
    assert(u * k == k * u) by (nonlinear_arith);
    assert(0x100_0000 * gap(2 * c.units() - 65535 * (v + u)) <= 65535 * (8 * u));
    let n: int = engine::unsigned(s) as int;
    if !c.negative() {
        if k > 65535 {
            assert(k * u >= 65536 * u) by (nonlinear_arith)
                requires
                    k >= 65536,
                    u > 0,
            ;
        }
        assert(k >= 0) by (nonlinear_arith)
            requires
                k * u > c.size() - u,
                c.size() >= 0,
                u > 0,
        ;
        assert(n == if k > 65535 { 65535 } else { k });
    } else {
        assert(n == 0);
        assert(0 * u == 0);
    }
}

/// Frames between two points of the scope.
pub open spec fn scope_step(columns: u16) -> int {
    let points = if columns < 34 { 64int } else { 2 * (columns - 2) };
    if points > 4096 {
        1
    } else {
        4096int / points
    }
}

/// The points of the scope lie evenly round the buffer, from 2048 frames before
/// the playhead on.
pub proof fn law_scope_shows_the_playhead(total: int, head: u64, columns: u16, b: int)
    requires
        total > 0,
        b >= 0,
    ensures
        keys::is_round(
            view::scope_frame(total, head, columns, b),
            head as int - 2048,
            b * scope_step(columns),
            total,
        ),
        view::scope_bins(columns) == if columns < 34 { 64int } else { 2 * (columns - 2) },
{
    let step: int = scope_step(columns);
    let bins: int = view::scope_bins(columns);
    assert(bins == if columns < 34 { 64int } else { 2 * (columns - 2) });
    if bins > 4096 {
        lemma_basic_div(4096, bins);
    } else {
        assert(4096int / bins >= 1) by (nonlinear_arith)
            requires
                0 < bins <= 4096,
        ;
    }
    let h: int = head as int;
    let x: int = h % total - 2048;
    let y: int = x % total + b * step;
    keys::lemma_round(h, total);
    keys::lemma_round(x, total);
    keys::lemma_round(y, total);
    // what is left of each is a multiple of the length
    let p: int = h % total - h;
    let q: int = x % total - x;
    let r: int = y % total - y;
    lemma_fundamental_div_mod(p, total);
    lemma_fundamental_div_mod(q, total);
    lemma_fundamental_div_mod(r, total);
    let m: int = p / total + q / total + r / total;
    assert(p + q + r == m * total) by (nonlinear_arith)
        requires
            p == total * (p / total),
            q == total * (q / total),
            r == total * (r / total),
            m == p / total + q / total + r / total,
    ;
    lemma_mod_multiples_basic(m, total);
}

/// A point of the scope is the mean of both channels.
pub proof fn law_scope_shows_the_mean(buffer: Seq<Single>, frame: int)
    requires
        0 <= frame,
        2 * frame + 1 < buffer.len(),
        order::within(buffer[2 * frame], 1),
        order::within(buffer[2 * frame + 1], 1),
    ensures
        ({
            let x = view::frame_mean(buffer, frame);
            let sum = buffer[2 * frame].units() + buffer[2 * frame + 1].units();
            x.finite() && 0x100_0000 * gap(2 * x.units() - sum) <= 4 * gap(sum) + 0x100_0000
        }),
{
    closeness::lemma_whole();
    lemma2_to64();
    reveal(Single::of_ratio);
    let u: int = whole();
    closeness::lemma_part_of_power(1, 1);
    assert(pow2(1) == 2);
    let h: Single = Single::of_ratio(1, 2);
    assert(2 * h.units() == u && h.size() == h.units());
    assert(order::within(h, 1)) by {
        assert(1 * pow2(single::UNIT as nat) == u);
    }
    order::lemma_one_within_power(h, 0);
    let a: Single = buffer[2 * frame];
    let b: Single = buffer[2 * frame + 1];
    order::lemma_one_within_power(a, 0);
    order::lemma_one_within_power(b, 0);
    order::lemma_sum_within_power(a, b, 0);
    let s: Single = a.sum(b);
    closeness::lemma_sum(a, b);
    order::lemma_product_within_power(s, h, 1, 0);
    let x: Single = s.product(h);
    closeness::lemma_product(s, h);
    let v: int = s.units();
    let e: int = 2 * x.units() - v;
    assert(2 * (x.units() * u - v * h.units()) == e * u && 2 * (v * h.units()) == v * u) by (nonlinear_arith)
        requires
            2 * h.units() == u,
            e == 2 * x.units() - v,
    ;
    closeness::lemma_gap_product(e, u);
    closeness::lemma_gap_product(v, u);
    assert(0x100_0000 * gap(e) <= gap(v) + 0x100_0000) by (nonlinear_arith)
        requires
            0x100_0000 * (gap(e) * u) <= gap(v) * u + 0x100_0000 * u,
            u > 0,
    ;
}

/// The four levels of the scope begin at nothing, 0.15, 0.4 and 0.7.
pub proof fn law_levels_of_the_scope(a: Single)
    requires
        a.finite(),
    ensures
        ({
            let u = whole();
            let x = 0x100_0000 * (100 * a.units());
            let level = view::loudness(a);
            &&& 0 <= level <= 3
            &&& x < 0xff_fff8 * (15 * u) ==> level == 0
            &&& 0x100_0008 * (15 * u) < x < 0xff_fff8 * (40 * u) ==> level == 1
            &&& 0x100_0008 * (40 * u) < x < 0xff_fff8 * (70 * u) ==> level == 2
            &&& 0x100_0008 * (70 * u) < x ==> level == 3
        }),
{
    closeness::lemma_whole();
    reveal(Single::of_ratio);
    closeness::lemma_share(15, 100);
    closeness::lemma_share(4, 10);
    closeness::lemma_share(7, 10);
    let u: int = whole();
    assert(gap(15) * u == 15 * u && gap(4) * u == 4 * u && gap(7) * u == 7 * u);
    single::lemma_less_is_by_value(a, Single::of_ratio(15, 100));
    single::lemma_less_is_by_value(a, Single::of_ratio(4, 10));
    single::lemma_less_is_by_value(a, Single::of_ratio(7, 10));
}

} // verus!
