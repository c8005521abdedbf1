//! How the onsets of a file are found: by how its loudness rises.

use vstd::prelude::*;

use crate::closeness;
use crate::closeness::{gap, whole};
use crate::order;
use crate::response;
use crate::single;
use crate::single::Single;
use crate::slice;

verus! {

/// The sum of the values from `lo` up to `hi`, in units.
pub open spec fn total(s: Seq<Single>, lo: int, hi: int) -> int
    decreases hi - lo,
{
    if hi <= lo {
        0
    } else {
        total(s, lo, hi - 1) + s[hi - 1].units()
    }
}

/// The sum of the squares of `k` values from `at` on, in units times units.
pub open spec fn squares(s: Seq<Single>, at: int, k: int) -> int
    decreases k,
{
    if k <= 0 {
        0
    } else {
        squares(s, at, k - 1) + s[at + k - 1].units() * s[at + k - 1].units()
    }
}

proof fn lemma_total(s: Seq<Single>, lo: int, hi: int)
    requires
        lo <= hi <= lo + 0x1000,
        forall|j: int| lo <= j < hi ==> (#[trigger] s[j]).finite() && s[j].units() >= 0,
        slice::sum_between(s, lo, hi).finite(),
    ensures
        total(s, lo, hi) >= 0,
        0x100_0000 * gap(slice::sum_between(s, lo, hi).units() - total(s, lo, hi)) <= 2 * (hi - lo) * total(s, lo, hi),
    decreases hi - lo,
{
    closeness::lemma_whole();
    if lo < hi {
        let before: Single = slice::sum_between(s, lo, hi - 1);
        let x: Single = s[hi - 1];
        response::lemma_summands(before, x);
        lemma_total(s, lo, hi - 1);
        closeness::lemma_sum(before, x);
        let t: int = total(s, lo, hi - 1);
        let k: int = hi - 1 - lo;
        let v: int = x.units();
        let b: int = before.units();
        assert(2 * k * t <= 0x2000 * t && 2 * (k + 1) * (t + v) >= 2 * k * t + 2 * t + 2 * v && 2 * k * t >= 0)
            by (nonlinear_arith)
            requires
                0 <= k < 0x1000,
                t >= 0,
                v >= 0,
        ;
        assert(gap(b + v) <= 2 * t + v);
    } else {
        assert(2 * (hi - lo) * 0 == 0);
    }
}

/// Whether `b` is the mean of the values from `lo` up to `hi`, or a
/// thousand-millionth where they are less.
pub open spec fn is_mean(b: Single, s: Seq<Single>, lo: int, hi: int) -> bool {
    let n = hi - lo;
    let t = total(s, lo, hi);
    &&& b.finite()
    &&& {
        ||| 0x100_0000 * gap(b.units() * n - t) <= (2 * n + 4) * t + 0x100_0000 * n
        ||| closeness::about(b, 1, 1000000000, 4) && t * 1000000000 <= 2 * (n * whole())
    }
}

proof fn lemma_mean(s: Seq<Single>, i: int)
    requires
        0 < i <= s.len(),
        forall|j: int| 0 <= j < s.len() ==> (#[trigger] s[j]).finite() && s[j].units() >= 0,
        ({
            let lo = if i > 16 { i - 16 } else { 0 };
            order::within_power(slice::sum_between(s, lo, i), 100)
        }),
    ensures
        is_mean(
            slice::baseline(s, i).larger(Single::of_ratio(1, 1000000000)),
            s,
            if i > 16 { i - 16 } else { 0 },
            i,
        ),
{
    closeness::lemma_whole();
    reveal(Single::of_ratio);
    let lo: int = if i > 16 { i - 16 } else { 0 };
    let n: int = i - lo;
    let sum: Single = slice::sum_between(s, lo, i);
    let least: Single = Single::of_ratio(1, 1000000000);
    closeness::lemma_share(1, 1000000000);
    lemma_total(s, lo, i);
    closeness::lemma_of_int(n);
    order::lemma_over_whole(sum, n, 100);
    let q: Single = sum.quotient(Single::of_int(n));
    assert(q == slice::baseline(s, i));
    closeness::lemma_quotient(sum, Single::of_int(n));
    let u: int = whole();
    let t: int = total(s, lo, i);
    let e: int = q.units() * n - sum.units();
    assert(q.units() * (n * u) - sum.units() * u == e * u) by (nonlinear_arith)
        requires
            e == q.units() * n - sum.units(),
    ;
    closeness::lemma_gap_product(e, u);
    assert(0x100_0000 * gap(e) <= gap(sum.units()) + 0x80_0000 * n) by (nonlinear_arith)
        requires
            0x100_0000 * (gap(e) * u) <= gap(sum.units()) * u + 0x80_0000 * (n * u),
            u > 0,
    ;
    assert(2 * n * t <= 32 * t && 2 * n * t >= 0) by (nonlinear_arith)
        requires
            0 <= n <= 16,
            t >= 0,
    ;
    assert((2 * n + 4) * t == 2 * n * t + 4 * t) by (nonlinear_arith);
    assert(gap(sum.units()) <= 2 * t);
    assert(is_mean(q, s, lo, i));
    single::lemma_less_is_by_value(q, least);
    if q.larger(least) != q {
        assert(gap(1) * u == u);
        let a: int = q.units();
        assert(4 * (1000000000 * a) <= 5 * u);
        assert(4 * (1000000000 * (a * n)) <= 5 * (n * u)) by (nonlinear_arith)
            requires
                4 * (1000000000 * a) <= 5 * u,
                n >= 0,
        ;
        lemma_small_mean(a, n, t, u);
    }
}

proof fn lemma_small_mean(a: int, n: int, t: int, u: int)
    requires
        0x100_0000 * gap(a * n - t) <= (2 * n + 4) * t + 0x100_0000 * n,
        (2 * n + 4) * t <= 36 * t,
        0 < n <= 16,
        t >= 0,
        4 * (1000000000 * (a * n)) <= 5 * (n * u),
        u >= 0x1_0000_0000_0000_0000_0000_0000_0000,
    ensures
        t * 1000000000 <= 2 * (n * u),
{
    assert(n * u >= u) by (nonlinear_arith)
        requires
            n >= 1,
            u > 0,
    ;
}

/// Whether the loudness stands out at hop `h`: it rises there, to a peak, and
/// above `threshold` times a mean.
pub open spec fn stands_out(env: Seq<Single>, threshold: Single, h: int, b: Single) -> bool {
    &&& env[h - 1].units() < env[h].units()
    &&& h + 1 < env.len() ==> env[h + 1].units() <= env[h].units()
    &&& threshold.product(b).less(env[h])
}

/// Whether the loudness of a file is measured in numbers of a sensible size.
pub open spec fn is_measured(env: Seq<Single>) -> bool {
    &&& forall|j: int| 0 <= j < env.len() ==> (#[trigger] env[j]).finite() && env[j].units() >= 0
    &&& forall|lo: int, hi: int|
        0 <= lo <= hi <= env.len() && hi - lo <= 16 ==> order::within_power(
            #[trigger] slice::sum_between(env, lo, hi),
            100,
        )
}

proof fn lemma_attack(env: Seq<Single>, threshold: Single, h: int)
    requires
        is_measured(env),
        0 < h < env.len(),
    ensures
        ({
            let b = slice::baseline(env, h).larger(Single::of_ratio(1, 1000000000));
            &&& is_mean(b, env, if h > 16 { h - 16 } else { 0 }, h)
            &&& slice::attack(env, threshold, h) == stands_out(env, threshold, h, b)
        }),
{
    let lo: int = if h > 16 { h - 16 } else { 0 };
    assert(order::within_power(slice::sum_between(env, lo, h), 100));
    lemma_mean(env, h);
    single::lemma_less_is_by_value(env[h - 1], env[h]);
    if h + 1 < env.len() {
        single::lemma_less_is_by_value(env[h], env[h + 1]);
        assert(!env[h].nan() && !env[h + 1].nan());
    }
}

proof fn lemma_hits(env: Seq<Single>, sr: u32, threshold: Single, min_gap_ms: Single, i: int)
    requires
        0 <= i <= env.len(),
        env.len() * 256 <= u64::MAX,
    ensures
        ({
            let found = slice::hits(env, sr, threshold, min_gap_ms, i);
            &&& found.onsets.len() > 0
            &&& forall|k: int|
                1 <= k < found.onsets.len() ==> exists|h: int|
                    0 < h < i && #[trigger] slice::attack(env, threshold, h) && #[trigger] found.onsets[k] == 256 * h
            &&& forall|h: int|
                0 < h < i && #[trigger] slice::attack(env, threshold, h) ==> is_taken(
                    found.onsets,
                    sr,
                    min_gap_ms,
                    h,
                )
            &&& found.last is Some ==> exists|k: int|
                1 <= k < found.onsets.len() && #[trigger] found.onsets[k] == 256 * found.last->0
            &&& found.last is Some ==> 0 < found.last->0 < i
        }),
    decreases i,
{
    if i > 1 {
        lemma_hits(env, sr, threshold, min_gap_ms, i - 1);
        let before = slice::hits(env, sr, threshold, min_gap_ms, i - 1);
        let found = slice::hits(env, sr, threshold, min_gap_ms, i);
        assert forall|h: int| 0 < h < i && #[trigger] slice::attack(env, threshold, h) implies is_taken(
            found.onsets,
            sr,
            min_gap_ms,
            h,
        ) by {
            if h < i - 1 {
                let k: int = choose|k: int| 1 <= k < before.onsets.len() && #[trigger] takes(
                    before.onsets[k],
                    sr,
                    min_gap_ms,
                    h,
                );
                assert(found.onsets[k] == before.onsets[k]);
                assert(takes(found.onsets[k], sr, min_gap_ms, h));
            } else if found.onsets.len() == before.onsets.len() {
                let k: int = choose|k: int|
                    1 <= k < before.onsets.len() && #[trigger] before.onsets[k] == 256 * before.last->0;
                assert(takes(found.onsets[k], sr, min_gap_ms, h));
            } else {
                let k: int = before.onsets.len() as int;
                assert(takes(found.onsets[k], sr, min_gap_ms, h));
            }
        }
        assert forall|k: int| 1 <= k < found.onsets.len() implies exists|h: int|
            0 < h < i && #[trigger] slice::attack(env, threshold, h) && #[trigger] found.onsets[k] == 256 * h by {
            if k < before.onsets.len() {
                assert(found.onsets[k] == before.onsets[k]);
                let h: int = choose|h: int|
                    0 < h < i - 1 && #[trigger] slice::attack(env, threshold, h) && before.onsets[k] == 256 * h;
                assert(slice::attack(env, threshold, h));
            } else {
                assert(slice::attack(env, threshold, i - 1));
            }
        }
        if found.last is Some {
            if found.onsets.len() > before.onsets.len() {
                assert(found.onsets[before.onsets.len() as int] == 256 * found.last->0);
            } else {
                let k: int = choose|k: int|
                    1 <= k < before.onsets.len() && #[trigger] before.onsets[k] == 256 * before.last->0;
                assert(found.onsets[k] == before.onsets[k]);
            }
        }
    }
}

/// Whether an onset is that of hop `h`, or comes before it by less than the
/// smallest gap.
pub open spec fn takes(onset: u64, sr: u32, min_gap_ms: Single, h: int) -> bool {
    onset == 256 * h || (onset < 256 * h && (256 * h - onset) * 1000 * whole() < min_gap_ms.units() * sr)
        || !min_gap_ms.finite()
}

/// Whether an onset stands for hop `h`.
pub open spec fn is_taken(onsets: Seq<u64>, sr: u32, min_gap_ms: Single, h: int) -> bool {
    exists|k: int| 1 <= k < onsets.len() && #[trigger] takes(onsets[k], sr, min_gap_ms, h)
}

/// The first of the sixteen hops before hop `h`, or of as many as there are.
pub open spec fn window(h: int) -> int {
    if h > 16 {
        h - 16
    } else {
        0
    }
}

/// Whether the loudness stands out at hop `h`, whatever its mean before it is
/// rounded to.
pub open spec fn is_loud(env: Seq<Single>, threshold: Single, h: int) -> bool {
    0 < h < env.len() && forall|b: Single|
        is_mean(b, env, window(h), h) ==> #[trigger] stands_out(env, threshold, h, b)
}

/// Whether the loudness stands out where an onset is.
pub open spec fn is_attacked(env: Seq<Single>, threshold: Single, onset: u64) -> bool {
    exists|h: int, b: Single|
        0 < h < env.len() && onset == 256 * h && is_mean(b, env, window(h), h) && #[trigger] stands_out(
            env,
            threshold,
            h,
            b,
        )
}

/// Every onset but the first is where the loudness stands out; and wherever it
/// does, there is an onset, or one shortly before.
pub proof fn law_onsets_are_where_it_gets_loud(mono: Seq<Single>, sr: u32, threshold: Single, min_gap_ms: Single)
    requires
        mono.len() <= u64::MAX,
        is_measured(slice::energies(mono)),
    ensures
        ({
            let env = slice::energies(mono);
            let onsets = slice::onsets_of(mono, sr, threshold, min_gap_ms);
            &&& forall|k: int| 1 <= k < onsets.len() ==> is_attacked(env, threshold, #[trigger] onsets[k])
            &&& forall|h: int| #[trigger] is_loud(env, threshold, h) ==> is_taken(onsets, sr, min_gap_ms, h)
        }),
{
    let env: Seq<Single> = slice::energies(mono);
    let onsets: Seq<u64> = slice::onsets_of(mono, sr, threshold, min_gap_ms);
    assert(env.len() * 256 <= mono.len());
    lemma_hits(env, sr, threshold, min_gap_ms, env.len() as int);
    assert forall|k: int| 1 <= k < onsets.len() implies is_attacked(env, threshold, #[trigger] onsets[k]) by {
        let h: int = choose|h: int|
            0 < h < env.len() && #[trigger] slice::attack(env, threshold, h) && onsets[k] == 256 * h;
        lemma_attack(env, threshold, h);
        let b: Single = slice::baseline(env, h).larger(Single::of_ratio(1, 1000000000));
        assert(is_mean(b, env, window(h), h) && stands_out(env, threshold, h, b));
    }
    assert forall|h: int| #[trigger] is_loud(env, threshold, h) implies is_taken(onsets, sr, min_gap_ms, h) by {
        lemma_attack(env, threshold, h);
        let b: Single = slice::baseline(env, h).larger(Single::of_ratio(1, 1000000000));
        assert(is_mean(b, env, window(h), h));
        assert(stands_out(env, threshold, h, b));
        assert(slice::attack(env, threshold, h));
    }
}

/// The loudness of a file is measured every 256 samples, as long as 512 are
/// left: the mean of their squares.
pub proof fn law_loudness_is_the_mean_square(mono: Seq<Single>, h: int)
    requires
        0 <= h < slice::energies(mono).len(),
        forall|j: int| 0 <= j < mono.len() ==> (#[trigger] mono[j]).finite(),
        slice::square_sum(mono, 256 * h, 512).finite(),
        order::within_power(slice::square_sum(mono, 256 * h, 512), 100),
    ensures
        ({
            let env = slice::energies(mono);
            let sum = squares(mono, 256 * h, 512);
            &&& 256 * (env.len() - 1) + 512 <= mono.len() < 256 * env.len() + 512
            &&& env[h].finite()
            &&& 0x100_0000 * gap(512 * (env[h].units() * whole()) - sum) <= 4096 * sum + 0x1_0000_0000_0000 * whole()
        }),
{
    closeness::lemma_whole();
    let u: int = whole();
    let s: Single = slice::square_sum(mono, 256 * h, 512);
    lemma_squares(mono, 256 * h, 512);
    closeness::lemma_of_int(512);
    order::lemma_over_whole(s, 512, 100);
    let q: Single = s.quotient(Single::of_int(512));
    assert(h * 256 == 256 * h);
    assert(q == slice::energies(mono)[h]);
    closeness::lemma_quotient(s, Single::of_int(512));
    let sum: int = squares(mono, 256 * h, 512);
    let a: int = s.units() * u;
    let e: int = 512 * (q.units() * u) - a;
    assert(q.units() * (512 * u) - s.units() * u == e) by (nonlinear_arith)
        requires
            e == 512 * (q.units() * u) - a,
            a == s.units() * u,
    ;
    closeness::lemma_gap_product(s.units(), u);
}

proof fn lemma_squares(s: Seq<Single>, at: int, k: int)
    requires
        0 <= k <= 512,
        0 <= at,
        at + k <= s.len(),
        forall|j: int| 0 <= j < s.len() ==> (#[trigger] s[j]).finite(),
        slice::square_sum(s, at, k).finite(),
    ensures
        squares(s, at, k) >= 0,
        0x100_0000 * gap(slice::square_sum(s, at, k).units() * whole() - squares(s, at, k)) <= 4 * k * squares(s, at, k)
            + 0x100_0000 * (k * whole()),
    decreases k,
{
    closeness::lemma_whole();
    let u: int = whole();
    if k > 0 {
        let before: Single = slice::square_sum(s, at, k - 1);
        let x: Single = s[at + k - 1];
        let p: Single = x.product(x);
        response::lemma_summands(before, p);
        lemma_squares(s, at, k - 1);
        closeness::lemma_product(x, x);
        closeness::lemma_sum(before, p);
        let t: int = squares(s, at, k - 1);
        let v: int = x.units() * x.units();
        assert(v >= 0) by (nonlinear_arith)
            requires
                v == x.units() * x.units(),
        ;
        let b: int = before.units() * u;
        let c: int = p.units() * u;
        let now: int = slice::square_sum(s, at, k).units();
        let d: int = now - (before.units() + p.units());
        let w: int = before.units() + p.units();
        closeness::lemma_gap_product(d, u);
        closeness::lemma_gap_product(w, u);
        assert(0x100_0000 * (gap(d) * u) <= gap(w) * u) by (nonlinear_arith)
            requires
                0x100_0000 * gap(d) <= gap(w),
                u > 0,
        ;
        assert(now * u == d * u + b + c && w * u == b + c) by (nonlinear_arith)
            requires
                d == now - w,
                w == before.units() + p.units(),
                b == before.units() * u,
                c == p.units() * u,
        ;
        let m: int = k - 1;
        lemma_square_step(now * u, b, c, t, v, m, u);
        assert(4 * k * (t + v) == 4 * (m + 1) * (t + v));
    } else {
        assert(4 * 0 * 0 == 0 && 0 * u == 0);
        assert(0 * u == 0);
    }
}

proof fn lemma_square_step(now: int, b: int, c: int, t: int, v: int, m: int, u: int)
    requires
        0 <= m < 512,
        t >= 0,
        v >= 0,
        u > 0,
        0x100_0000 * gap(b - t) <= 4 * m * t + 0x100_0000 * (m * u),
        0x100_0000 * gap(c - v) <= v + 0x80_0000 * u,
        0x100_0000 * gap(now - (b + c)) <= gap(b + c),
    ensures
        0x100_0000 * gap(now - (t + v)) <= 4 * (m + 1) * (t + v) + 0x100_0000 * ((m + 1) * u),
{
    assert(4 * (m + 1) * (t + v) >= 4 * m * t + 4 * t + 4 * v && 0 <= 4 * m * t <= 2048 * t && (m + 1) * u == m * u + u && 0
        <= m * u <= 512 * u) by (nonlinear_arith)
        requires
            0 <= m < 512,
            t >= 0,
            v >= 0,
            u > 0,
    ;
    assert(gap(b + c) <= gap(b - t) + gap(c - v) + t + v);
}

/// Equal slices are as long as each other; the last one has what is left too.
pub proof fn law_equal_slices_are_even(n: u64, slices: u32, i: int)
    requires
        slices > 0,
        n >= slices,
        0 <= i < slices,
    ensures
        ({
            let ranges = slice::equal_ranges(n, slices);
            let length = ranges[0].1 - ranges[0].0;
            &&& ranges.len() == slices
            &&& i < slices - 1 ==> ranges[i].1 - ranges[i].0 == length
            &&& ranges[i].0 == i * length
            &&& slices > 1 ==> slices * length <= n < slices * (length + 1)
            &&& ranges[slices - 1].1 == n
        }),
{
    let count: int = slices as int;
    let base: int = n as int / count;
    vstd::arithmetic::div_mod::lemma_fundamental_div_mod(n as int, count);
    vstd::arithmetic::div_mod::lemma_mod_bound(n as int, count);
    assert(base >= 1) by (nonlinear_arith)
        requires
            n == count * base + n as int % count,
            0 <= n as int % count < count,
            n >= count,
            count > 0,
    ;
    assert(count * (base + 1) == count * base + count) by (nonlinear_arith);
    assert((i + 1) * base == i * base + base && i * base <= (count - 1) * base && (count - 1) * base + base == count
        * base && 0 <= i * base && 0 * base == 0 && 1 * base == base) by (nonlinear_arith)
        requires
            0 <= i <= count - 1,
            base >= 1,
    ;
}

} // verus!
