//! IEEE 754 binary rounding in integer arithmetic.
//!
//! A finite binary floating-point value is an integer count of the format's
//! smallest subnormal, its *unit*. `scaled` gives that count for a bit
//! pattern, `pack` gives the bit pattern nearest to a ratio of such counts
//! (ties to even). `p` is the precision of the format: 24 for binary32, 53 for
//! binary64. Both functions speak of the bits below the sign.

use vstd::prelude::*;
use vstd::arithmetic::power2::*;
use vstd::arithmetic::div_mod::*;
use vstd::arithmetic::mul::*;

verus! {

/// The integer nearest to `num / den`, the even one of two equally near.
pub open spec fn nearest_even(num: nat, den: nat) -> nat {
    let q: nat = num / den;
    let r: nat = num % den;
    if 2 * r < den || (2 * r == den && q % 2 == 0) {
        q
    } else {
        q + 1
    }
}

/// The bit pattern nearest to `num / den` units. Doubling the unit until the
/// significand fits in `p` bits adds one to the exponent field each time.
pub open spec fn pack(p: nat, num: nat, den: nat) -> nat
    decreases num - den,
{
    if p == 0 || den == 0 || num < pow2(p) * den {
        nearest_even(num, den)
    } else {
        proof {
            lemma_pow2_unfold(p);
            lemma_pow2_pos((p - 1) as nat);
            assert(pow2(p) * den >= 2 * den) by (nonlinear_arith)
                requires
                    pow2(p) >= 2,
            ;
        }
        pow2((p - 1) as nat) + pack(p, num, 2 * den)
    }
}

/// The number of units that a bit pattern stands for.
pub open spec fn scaled(p: nat, bits: nat) -> nat
    decreases bits,
{
    if p == 0 || bits < pow2(p) {
        bits
    } else {
        proof {
            lemma_pow2_unfold(p);
            lemma_pow2_pos((p - 1) as nat);
        }
        2 * scaled(p, (bits - pow2((p - 1) as nat)) as nat)
    }
}

/// `num / den` lies in `[m, m + 1) * 2^e`; `sticky` says that it is not `m * 2^e`.
pub open spec fn truncates_to(num: nat, den: nat, m: nat, e: int, sticky: bool) -> bool {
    let a: nat = if e < 0 { num * pow2((-e) as nat) } else { num };
    let b: nat = if e > 0 { den * pow2(e as nat) } else { den };
    &&& m == a / b
    &&& sticky == (a % b != 0)
}

pub proof fn lemma_ratio_scale(c: nat, num: nat, den: nat)
    requires
        c > 0,
        den > 0,
    ensures
        c * den > 0,
        (c * num) / (c * den) == num / den,
        (c * num) % (c * den) == c * (num % den),
{
    let q: int = (num / den) as int;
    let r: int = (num % den) as int;
    lemma_fundamental_div_mod(num as int, den as int);
    assert(c * num == q * (c * den) + c * r) by (nonlinear_arith)
        requires
            num == den * q + r,
    ;
    assert(0 <= c * r < c * den) by (nonlinear_arith)
        requires
            0 <= r < den,
            c > 0,
    ;
    lemma_fundamental_div_mod_converse((c * num) as int, (c * den) as int, q, c * r);
}

proof fn lemma_nearest_scale(c: nat, num: nat, den: nat)
    requires
        c > 0,
        den > 0,
    ensures
        nearest_even(c * num, c * den) == nearest_even(num, den),
{
    lemma_ratio_scale(c, num, den);
    let r: nat = num % den;
    assert(2 * (c * r) < c * den <==> 2 * r < den) by (nonlinear_arith)
        requires
            c > 0,
    ;
    assert(2 * (c * r) == c * den <==> 2 * r == den) by (nonlinear_arith)
        requires
            c > 0,
    ;
}

/// `pack` in closed form, once the exponent step `k` is known.
proof fn lemma_pack_at(p: nat, num: nat, den: nat, k: nat)
    requires
        p > 0,
        den > 0,
        num < pow2(p) * (den * pow2(k)),
        k > 0 ==> num >= pow2(p) * (den * pow2((k - 1) as nat)),
    ensures
        pack(p, num, den) == k * pow2((p - 1) as nat) + nearest_even(num, den * pow2(k)),
    decreases k,
{
    lemma2_to64();
    if k == 0 {
        assert(den * pow2(0) == den);
    } else {
        lemma_pow2_unfold(k);
        let half: nat = pow2((k - 1) as nat);
        lemma_pow2_pos((k - 1) as nat);
        assert(den * pow2(k) == (2 * den) * half) by (nonlinear_arith)
            requires
                pow2(k) == 2 * half,
        ;
        assert(pow2(p) * (den * half) >= pow2(p) * den) by (nonlinear_arith)
            requires
                half >= 1,
        ;
        if k > 1 {
            lemma_pow2_unfold((k - 1) as nat);
            let quarter: nat = pow2((k - 2) as nat);
            assert(den * half == (2 * den) * quarter) by (nonlinear_arith)
                requires
                    half == 2 * quarter,
            ;
        }
        lemma_pack_at(p, num, 2 * den, (k - 1) as nat);
        let step: nat = pow2((p - 1) as nat);
        assert(step + (k - 1) * step == k * step) by (nonlinear_arith);
    }
}

/// `scaled` in closed form: significand times a power of two.
pub proof fn lemma_scaled_at(p: nat, bits: nat, m: nat, k: nat)
    requires
        p > 0,
        bits == k * pow2((p - 1) as nat) + m,
        m < pow2(p),
        k > 0 ==> m >= pow2((p - 1) as nat),
    ensures
        scaled(p, bits) == m * pow2(k),
    decreases k,
{
    lemma2_to64();
    lemma_pow2_unfold(p);
    let step: nat = pow2((p - 1) as nat);
    if k == 0 {
        assert(k * step == 0) by (nonlinear_arith)
            requires
                k == 0,
        ;
        assert(m * pow2(0) == m);
    } else {
        lemma_pow2_unfold(k);
        assert(k * step == step + (k - 1) * step) by (nonlinear_arith);
        assert((k - 1) * step >= 0) by (nonlinear_arith)
            requires
                k >= 1,
                step >= 0,
        ;
        lemma_scaled_at(p, (bits - step) as nat, m, (k - 1) as nat);
        let half: nat = pow2((k - 1) as nat);
        assert(2 * (m * half) == m * (2 * half)) by (nonlinear_arith);
    }
}

/// `2^n` for a small `n`.
pub fn power(n: u32) -> (r: u128)
    requires
        n < 127,
    ensures
        r == pow2(n as nat),
        r > 0,
{
    proof {
        lemma2_to64();
        lemma_pow2_pos(n as nat);
    }
    if n < 64 {
        let s: u64 = n as u64;
        proof {
            vstd::bits::lemma_u64_pow2_no_overflow(n as nat);
            vstd::bits::lemma_u64_shl_is_mul(1, s);
        }
        (1u64 << s) as u128
    } else {
        let s: u64 = (n - 64) as u64;
        proof {
            vstd::bits::lemma_u64_pow2_no_overflow((n - 64) as nat);
            vstd::bits::lemma_u64_shl_is_mul(1, s);
            lemma_pow2_adds(64, (n - 64) as nat);
        }
        0x1_0000_0000_0000_0000u128 * ((1u64 << s) as u128)
    }
}

/// The number of significant bits of `m`.
fn bit_length(m: u128) -> (l: u32)
    requires
        m < pow2(127),
    ensures
        l <= 127,
        m < pow2(l as nat),
        m == 0 ==> l == 0,
        m > 0 ==> l > 0 && pow2((l - 1) as nat) <= m,
{
    proof {
        lemma2_to64();
    }
    if m == 0 {
        return 0;
    }
    let mut lo: u32 = 0;
    let mut span: u32 = 127;
    while span > 1
        invariant
            span >= 1,
            lo + span <= 127,
            pow2(lo as nat) <= m < pow2((lo + span) as nat),
        decreases span,
    {
        let half: u32 = span / 2;
        if m >= power(lo + half) {
            lo = lo + half;
            span = span - half;
        } else {
            span = half;
        }
    }
    lo + 1
}

proof fn lemma_pow2_ordered(a: nat, b: nat)
    requires
        a <= b,
    ensures
        pow2(a) <= pow2(b),
{
    if a < b {
        lemma_pow2_strictly_increases(a, b);
    }
}

/// The two integers whose quotient `truncates_to` speaks of.
proof fn lemma_aligned(num: nat, den: nat, m: nat, e: int, sticky: bool) -> (s: (nat, nat, nat, nat))
    requires
        den > 0,
        truncates_to(num, den, m, e, sticky),
    ensures
        s.0 == if e < 0 { -e } else { 0 },
        s.1 == if e > 0 { e } else { 0 },
        s.2 == num * pow2(s.0),
        s.3 == den * pow2(s.1),
        s.3 > 0,
        m == s.2 / s.3,
        sticky == (s.2 % s.3 != 0),
        s.2 == m * s.3 + s.2 % s.3,
        s.2 % s.3 < s.3,
{
    lemma2_to64();
    let a: nat = if e < 0 { (-e) as nat } else { 0 };
    let b: nat = if e > 0 { e as nat } else { 0 };
    assert(num * pow2(0) == num);
    assert(den * pow2(0) == den);
    let x: nat = num * pow2(a);
    let y: nat = den * pow2(b);
    lemma_pow2_pos(b);
    assert(y > 0) by (nonlinear_arith)
        requires
            y == den * pow2(b),
            den > 0,
            pow2(b) > 0,
    ;
    lemma_fundamental_div_mod(x as int, y as int);
    assert(y * m == m * y) by (nonlinear_arith);
    lemma_mod_bound(x as int, y as int);
    (a, b, x, y)
}

proof fn lemma_binade(p: nat, num: nat, den: nat, m: nat, e: int, sticky: bool, l: nat, k: nat)
    requires
        den > 0,
        truncates_to(num, den, m, e, sticky),
        m < pow2(l),
        m == 0 ==> l == 0 && !sticky,
        m > 0 ==> l > 0 && pow2((l - 1) as nat) <= m,
        k == if e + l - p > 0 { e + l - p } else { 0 },
    ensures
        num < pow2(p) * (den * pow2(k)),
        k > 0 && m > 0 ==> num >= pow2(p) * (den * pow2((k - 1) as nat)),
        m == 0 ==> num == 0,
{
    let (a, b, x, y) = lemma_aligned(num, den, m, e, sticky);
    lemma_pow2_pos(a);
    lemma_pow2_pos(p);
    lemma_pow2_pos(k);
    let pa: nat = pow2(a);
    let pb: nat = pow2(b);
    if m == 0 {
        assert(m * y == 0) by (nonlinear_arith)
            requires
                m == 0,
        ;
        assert(num == 0) by (nonlinear_arith)
            requires
                num * pa == 0,
                pa > 0,
        ;
        assert(0 < pow2(p) * (den * pow2(k))) by (nonlinear_arith)
            requires
                den > 0,
                pow2(p) > 0,
                pow2(k) > 0,
        ;
    } else {
        // x < (m + 1) * y <= 2^l * y = 2^(l + b) * den <= 2^(p + k + a) * den
        lemma_pow2_adds(l, b);
        lemma_pow2_adds(p + k, a);
        lemma_pow2_adds(p, k);
        lemma_pow2_ordered(l + b, p + k + a);
        let lhs: nat = pow2(l);
        let top: nat = pow2(p);
        let pk: nat = pow2(k);
        assert(x < lhs * pb * den) by (nonlinear_arith)
            requires
                x < m * y + y,
                m + 1 <= lhs,
                y == den * pb,
        ;
        assert(num < top * (den * pk)) by (nonlinear_arith)
            requires
                num * pa < lhs * pb * den,
                lhs * pb <= top * pk * pa,
                pa > 0,
        ;
        if k > 0 {
            let below: nat = pow2((l - 1) as nat);
            let pk1: nat = pow2((k - 1) as nat);
            lemma_pow2_adds((l - 1) as nat, b);
            lemma_pow2_adds(p + (k - 1) as nat, a);
            lemma_pow2_adds(p, (k - 1) as nat);
            assert((l - 1) + b == p + (k - 1) + a);
            assert(num >= top * (den * pk1)) by (nonlinear_arith)
                requires
                    num * pa >= m * (den * pb),
                    m >= below,
                    below * pb == top * pk1 * pa,
                    pa > 0,
            ;
        }
    }
}

proof fn lemma_exact(p: nat, num: nat, den: nat, m: nat, e: int, l: nat, k: nat, up: nat)
    requires
        den > 0,
        truncates_to(num, den, m, e, false),
        m < pow2(l),
        up == e - k,
        l + up <= p,
    ensures
        nearest_even(num, den * pow2(k)) == m * pow2(up),
        m * pow2(up) < pow2(p),
{
    let (a, b, x, y) = lemma_aligned(num, den, m, e, false);
    lemma_pow2_pos(a);
    lemma_pow2_pos(k);
    lemma_pow2_pos(up);
    let unit: nat = den * pow2(k);
    let pa: nat = pow2(a);
    assert(unit > 0) by (nonlinear_arith)
        requires
            den > 0,
            pow2(k) > 0,
            unit == den * pow2(k),
    ;
    lemma_nearest_scale(pa, num, unit);
    assert(pa * num == x) by (nonlinear_arith)
        requires
            x == num * pa,
    ;
    lemma_pow2_adds(k + a, up);
    lemma_pow2_adds(k, a);
    assert(b == k + a + up);
    let w: nat = pa * unit;
    let pu: nat = pow2(up);
    assert(x == (m * pu) * w) by (nonlinear_arith)
        requires
            x == m * (den * (pow2(k) * pa * pu)),
            w == pa * (den * pow2(k)),
    ;
    assert(w > 0) by (nonlinear_arith)
        requires
            w == pa * unit,
            pa > 0,
            unit > 0,
    ;
    lemma_fundamental_div_mod_converse(x as int, w as int, (m * pu) as int, 0);
    lemma_pow2_adds(l, up);
    lemma_pow2_ordered(l + up, p);
    assert(m * pu < pow2(l) * pu) by (nonlinear_arith)
        requires
            m < pow2(l),
            pu > 0,
    ;
}

proof fn lemma_split(num: nat, den: nat, m: nat, e: int, sticky: bool, k: nat, sh: nat)
    requires
        den > 0,
        truncates_to(num, den, m, e, sticky),
        sh == k - e,
        sh > 0,
    ensures
        pow2(sh) > 0,
        ({
            let q: nat = m / pow2(sh);
            let low: nat = m % pow2(sh);
            let half: nat = pow2((sh - 1) as nat);
            nearest_even(num, den * pow2(k)) == if low < half || (low == half && !sticky && q % 2
                == 0) {
                q
            } else {
                q + 1
            }
        }),
{
    let (a, b, x, y) = lemma_aligned(num, den, m, e, sticky);
    lemma_pow2_pos(a);
    lemma_pow2_pos(k);
    lemma_pow2_pos(sh);
    let unit: nat = den * pow2(k);
    let pa: nat = pow2(a);
    let ps: nat = pow2(sh);
    assert(unit > 0) by (nonlinear_arith)
        requires
            den > 0,
            pow2(k) > 0,
            unit == den * pow2(k),
    ;
    lemma_nearest_scale(pa, num, unit);
    assert(pa * num == x) by (nonlinear_arith)
        requires
            x == num * pa,
    ;
    lemma_pow2_adds(k, a);
    lemma_pow2_adds(b, sh);
    assert(k + a == b + sh);
    let pk: nat = pow2(k);
    let pb: nat = pow2(b);
    assert(pa * unit == y * ps) by (nonlinear_arith)
        requires
            unit == den * pk,
            y == den * pb,
            pk * pa == pb * ps,
    ;
    let q: nat = m / ps;
    let low: nat = m % ps;
    let half: nat = pow2((sh - 1) as nat);
    let r: nat = x % y;
    lemma_pow2_unfold(sh);
    lemma_fundamental_div_mod(m as int, ps as int);
    lemma_mod_bound(m as int, ps as int);
    let rest: nat = low * y + r;
    assert(x == q * (y * ps) + rest) by (nonlinear_arith)
        requires
            x == m * y + r,
            m == ps * q + low,
            rest == low * y + r,
    ;
    assert(rest < y * ps) by (nonlinear_arith)
        requires
            rest == low * y + r,
            r < y,
            low + 1 <= ps,
    ;
    lemma_fundamental_div_mod_converse(x as int, (y * ps) as int, q as int, rest as int);
    assert(2 * rest < y * ps <==> low < half) by (nonlinear_arith)
        requires
            rest == low * y + r,
            0 <= r < y,
            ps == 2 * half,
    ;
    assert(2 * rest == y * ps <==> (low == half && r == 0)) by (nonlinear_arith)
        requires
            rest == low * y + r,
            0 <= r < y,
            ps == 2 * half,
    ;
}

/// The bit pattern nearest to a ratio that truncates to `m * 2^e`, no further
/// than the pattern of infinity.
fn round_pack(
    p: u32,
    m: u128,
    e: i32,
    sticky: bool,
    inf: u64,
    Ghost(num): Ghost<nat>,
    Ghost(den): Ghost<nat>,
) -> (r: u64)
    requires
        1 <= p <= 60,
        -10000 <= e <= 10000,
        m < pow2(120),
        den > 0,
        truncates_to(num, den, m as nat, e as int, sticky),
        sticky ==> m >= pow2((p + 1) as nat),
    ensures
        r == if pack(p as nat, num, den) < inf { pack(p as nat, num, den) } else { inf as nat },
{
    proof {
        lemma2_to64();
        lemma2_to64_rest();
        lemma_pow2_adds(60, 60);
        lemma_pow2_strictly_increases(120, 127);
        lemma_pow2_pos((p + 1) as nat);
    }
    if m == 0 {
        proof {
            let k: nat = if e - p > 0 { (e - p) as nat } else { 0 };
            lemma_binade(p as nat, num, den, 0, e as int, false, 0, k);
            lemma_pow2_pos(p as nat);
            assert(pow2(p as nat) * den > 0) by (nonlinear_arith)
                requires
                    pow2(p as nat) > 0,
                    den > 0,
            ;
            lemma_fundamental_div_mod_converse(0, den as int, 0, 0);
        }
        return 0;
    }
    let l: u32 = bit_length(m);
    let excess: i32 = e + l as i32 - p as i32;
    let k: i32 = if excess > 0 { excess } else { 0 };
    let sh: i32 = k - e;
    proof {
        if l > 120 {
            lemma_pow2_ordered(120, (l - 1) as nat);
        }
        if sticky && l < p + 2 {
            lemma_pow2_ordered(l as nat, (p + 1) as nat);
        }
        lemma_binade(p as nat, num, den, m as nat, e as int, sticky, l as nat, k as nat);
        lemma_pow2_pos(k as nat);
        lemma_pack_at(p as nat, num, den, k as nat);
        lemma_pow2_ordered(p as nat, 60);
        lemma_pow2_strictly_increases(60, 64);
    }
    let mant: u128 = if sh <= 0 {
        let up: u32 = (-sh) as u32;
        proof {
            lemma_exact(
                p as nat,
                num,
                den,
                m as nat,
                e as int,
                l as nat,
                k as nat,
                up as nat,
            );
        }
        m * power(up)
    } else {
        proof {
            lemma_split(num, den, m as nat, e as int, sticky, k as nat, sh as nat);
        }
        if sh > l as i32 {
            proof {
                lemma_pow2_ordered(l as nat, (sh - 1) as nat);
                lemma_pow2_unfold(sh as nat);
                lemma_fundamental_div_mod_converse(m as int, pow2(sh as nat) as int, 0, m as int);
            }
            0
        } else {
            let d: u128 = power(sh as u32);
            let half: u128 = power((sh - 1) as u32);
            let q: u128 = m / d;
            let low: u128 = m % d;
            assert(q <= m) by (nonlinear_arith)
                requires
                    q == m / d,
                    d >= 1,
            ;
            if low < half || (low == half && !sticky && q % 2 == 0) {
                q
            } else {
                q + 1
            }
        }
    };
    let step: u128 = power(p - 1);
    proof {
        lemma_pow2_strictly_increases((p - 1) as nat, 60);
        assert(k as u128 * step <= 20000 * pow2(60)) by (nonlinear_arith)
            requires
                0 <= k <= 20000,
                0 <= step <= pow2(60),
        ;
    }
    let bits: u128 = k as u128 * step + mant;
    if bits < inf as u128 {
        bits as u64
    } else {
        inf
    }
}

/// No further than the pattern of infinity.
pub open spec fn capped(inf: nat, bits: nat) -> nat {
    if bits < inf {
        bits
    } else {
        inf
    }
}

/// Significand and exponent step of a finite pattern.
pub fn split(p: u32, bits: u64) -> (r: (u64, u32))
    requires
        1 <= p <= 60,
        bits < pow2(63),
        bits < 4000 * pow2((p - 1) as nat),
    ensures
        r.0 < pow2(p as nat),
        r.1 < 4000,
        r.1 > 0 ==> r.0 >= pow2((p - 1) as nat),
        bits == r.1 * pow2((p - 1) as nat) + r.0,
        scaled(p as nat, bits as nat) == r.0 * pow2(r.1 as nat),
{
    let step: u64 = power(p - 1) as u64;
    proof {
        lemma2_to64();
        lemma2_to64_rest();
        lemma_pow2_ordered((p - 1) as nat, 59);
        lemma_pow2_unfold(p as nat);
        lemma_pow2_pos((p - 1) as nat);
        lemma_fundamental_div_mod(bits as int, step as int);
        lemma_mod_bound(bits as int, step as int);
    }
    let field: u64 = bits / step;
    proof {
        assert(field < 4000) by (nonlinear_arith)
            requires
                bits < 4000 * step,
                bits >= step * field,
        ;
    }
    if field <= 1 {
        proof {
            assert(bits < 2 * step) by (nonlinear_arith)
                requires
                    bits < step * field + step,
                    field <= 1,
            ;
            assert(0 * pow2((p - 1) as nat) == 0) by (nonlinear_arith);
            lemma_scaled_at(p as nat, bits as nat, bits as nat, 0);
        }
        (bits, 0)
    } else {
        let k: u64 = field - 1;
        proof {
            assert(k * step + step == step * field) by (nonlinear_arith)
                requires
                    k == field - 1,
            ;
            assert(k * step >= 0) by (nonlinear_arith);
        }
        let m: u64 = bits - k * step;
        proof {
            lemma_scaled_at(p as nat, bits as nat, m as nat, k as nat);
        }
        (m, k as u32)
    }
}

/// Larger patterns stand for larger values.
pub proof fn lemma_scaled_monotone(p: nat, a: nat, b: nat)
    requires
        p > 0,
        a < b,
    ensures
        scaled(p, a) < scaled(p, b),
    decreases b,
{
    lemma_pow2_unfold(p);
    lemma_pow2_pos((p - 1) as nat);
    let step: nat = pow2((p - 1) as nat);
    if b < pow2(p) {
    } else if a < pow2(p) {
        lemma_scaled_at_least(p, (b - step) as nat);
    } else {
        lemma_scaled_monotone(p, (a - step) as nat, (b - step) as nat);
    }
}

proof fn lemma_scaled_at_least(p: nat, b: nat)
    requires
        p > 0,
    ensures
        scaled(p, b) >= b,
        b >= pow2((p - 1) as nat) ==> scaled(p, b) >= pow2((p - 1) as nat),
    decreases b,
{
    lemma_pow2_unfold(p);
    lemma_pow2_pos((p - 1) as nat);
    if b >= pow2(p) {
        lemma_scaled_at_least(p, (b - pow2((p - 1) as nat)) as nat);
    }
}

/// The product of two finite patterns, in a format whose one is `2^u` units.
pub fn multiply(p: u32, u: u32, inf: u64, a: u64, b: u64) -> (r: u64)
    requires
        1 <= p <= 53,
        u <= 1100,
        a < pow2(63),
        b < pow2(63),
        a < 4000 * pow2((p - 1) as nat),
        b < 4000 * pow2((p - 1) as nat),
    ensures
        r == capped(
            inf as nat,
            pack(
                p as nat,
                scaled(p as nat, a as nat) * scaled(p as nat, b as nat),
                pow2(u as nat),
            ),
        ),
{
    let (ma, ka): (u64, u32) = split(p, a);
    let (mb, kb): (u64, u32) = split(p, b);
    let ghost num: nat = scaled(p as nat, a as nat) * scaled(p as nat, b as nat);
    let ghost den: nat = pow2(u as nat);
    proof {
        lemma2_to64();
        lemma2_to64_rest();
        lemma_pow2_ordered(p as nat, 53);
        assert(ma * mb < pow2(53) * pow2(53)) by (nonlinear_arith)
            requires
                0 <= ma < pow2(53),
                0 <= mb < pow2(53),
        ;
        lemma_pow2_adds(53, 53);
        lemma_pow2_strictly_increases(106, 120);
        lemma_pow2_strictly_increases(106, 127);
    }
    let m: u128 = ma as u128 * mb as u128;
    let e: i32 = ka as i32 + kb as i32 - u as i32;
    proof {
        let a0: nat = if e < 0 { (-e) as nat } else { 0 };
        let b0: nat = if e > 0 { e as nat } else { 0 };
        lemma_pow2_pos(u as nat);
        lemma_pow2_adds(ka as nat, kb as nat);
        let kk: nat = (ka + kb) as nat;
        let pa: nat = pow2(ka as nat);
        let pb: nat = pow2(kb as nat);
        assert(num == m * (pa * pb)) by (nonlinear_arith)
            requires
                num == (ma * pa) * (mb * pb),
                m == ma * mb,
        ;
        lemma_pow2_adds(kk, a0);
        lemma_pow2_adds(u as nat, b0);
        assert(kk + a0 == u + b0);
        assert(num * pow2(a0) == m * (den * pow2(b0))) by (nonlinear_arith)
            requires
                num == m * pow2(kk),
                pow2(kk) * pow2(a0) == den * pow2(b0),
        ;
        lemma_truncates_exactly(num, den, m as nat, e as int);
    }
    round_pack(p, m, e, false, inf, Ghost(num), Ghost(den))
}

proof fn lemma_truncates_exactly(num: nat, den: nat, m: nat, e: int)
    requires
        den > 0,
        num * pow2(if e < 0 { (-e) as nat } else { 0 }) == m * (den * pow2(
            if e > 0 { e as nat } else { 0 },
        )),
    ensures
        truncates_to(num, den, m, e, false),
{
    lemma2_to64();
    let b0: nat = if e > 0 { e as nat } else { 0 };
    let a: nat = if e < 0 { num * pow2((-e) as nat) } else { num };
    let b: nat = if e > 0 { den * pow2(e as nat) } else { den };
    assert(num * pow2(0) == num);
    assert(den * pow2(0) == den);
    lemma_pow2_pos(b0);
    assert(b > 0) by (nonlinear_arith)
        requires
            b == den * pow2(b0),
            den > 0,
            pow2(b0) > 0,
    ;
    lemma_fundamental_div_mod_converse(a as int, b as int, m as int, 0);
}

/// The quotient of a finite pattern by a non-zero one.
pub fn divide(p: u32, u: u32, inf: u64, a: u64, b: u64) -> (r: u64)
    requires
        1 <= p <= 53,
        u <= 1100,
        a < pow2(63),
        b < pow2(63),
        a < 4000 * pow2((p - 1) as nat),
        0 < b < 4000 * pow2((p - 1) as nat),
    ensures
        scaled(p as nat, b as nat) > 0,
        r == capped(
            inf as nat,
            pack(
                p as nat,
                scaled(p as nat, a as nat) * pow2(u as nat),
                scaled(p as nat, b as nat),
            ),
        ),
{
    let (ma, ka): (u64, u32) = split(p, a);
    let (mb, kb): (u64, u32) = split(p, b);
    let ghost num: nat = scaled(p as nat, a as nat) * pow2(u as nat);
    let ghost den: nat = scaled(p as nat, b as nat);
    proof {
        lemma2_to64();
        lemma2_to64_rest();
        lemma_pow2_ordered(p as nat, 53);
        lemma_scaled_at_least(p as nat, b as nat);
        lemma_pow2_strictly_increases(64, 127);
        lemma_pow2_strictly_increases(64, 120);
        assert(mb > 0) by (nonlinear_arith)
            requires
                mb * pow2(kb as nat) > 0,
        ;
    }
    let l: u32 = bit_length(ma as u128);
    proof {
        if l > 53 {
            lemma_pow2_ordered(53, (l - 1) as nat);
        }
    }
    let s: u32 = 119 - l;
    proof {
        lemma_pow2_adds(l as nat, s as nat);
        lemma_pow2_pos(s as nat);
        assert(ma * pow2(s as nat) < pow2(l as nat) * pow2(s as nat)) by (nonlinear_arith)
            requires
                ma < pow2(l as nat),
                pow2(s as nat) > 0,
        ;
        lemma_pow2_strictly_increases(119, 120);
        lemma_pow2_adds(60, 60);
    }
    let top: u128 = ma as u128 * power(s);
    let m: u128 = top / mb as u128;
    let sticky: bool = top % mb as u128 != 0;
    let e: i32 = ka as i32 - kb as i32 - s as i32 + u as i32;
    proof {
        assert(m <= top) by (nonlinear_arith)
            requires
                m == top / mb as u128,
                mb >= 1,
        ;
        if sticky {
            // ma > 0, so top >= 2^118 and the quotient keeps more than p + 1 bits.
            assert(ma > 0) by {
                if ma == 0 {
                    assert(top == 0) by (nonlinear_arith)
                        requires
                            top == ma * pow2(s as nat),
                            ma == 0,
                    ;
                    lemma_fundamental_div_mod_converse(0, mb as int, 0, 0);
                }
            }
            lemma_pow2_adds((l - 1) as nat, s as nat);
            assert(top >= pow2(118)) by (nonlinear_arith)
                requires
                    top == ma * pow2(s as nat),
                    ma >= pow2((l - 1) as nat),
                    pow2(118) == pow2((l - 1) as nat) * pow2(s as nat),
            ;
            lemma_pow2_adds(65, 53);
            lemma_pow2_ordered((p + 1) as nat, 65);
            lemma_fundamental_div_mod(top as int, mb as int);
            lemma_mod_bound(top as int, mb as int);
            assert(m >= pow2(65)) by (nonlinear_arith)
                requires
                    top < mb * m + mb,
                    mb <= pow2(53),
                    top >= pow2(65) * pow2(53),
                    m >= 0,
                    pow2(53) > 0,
            ;
        }
        lemma_truncates_quotient(
            ma as nat,
            ka as nat,
            mb as nat,
            kb as nat,
            u as nat,
            s as nat,
            e as int,
        );
    }
    round_pack(p, m, e, sticky, inf, Ghost(num), Ghost(den))
}

proof fn lemma_truncates_quotient(ma: nat, ka: nat, mb: nat, kb: nat, u: nat, s: nat, e: int)
    requires
        mb > 0,
        e == ka - kb - s + u,
    ensures
        truncates_to(
            (ma * pow2(ka)) * pow2(u),
            mb * pow2(kb),
            (ma * pow2(s)) / mb,
            e,
            (ma * pow2(s)) % mb != 0,
        ),
{
    lemma2_to64();
    let a0: nat = if e < 0 { (-e) as nat } else { 0 };
    let b0: nat = if e > 0 { e as nat } else { 0 };
    let num: nat = (ma * pow2(ka)) * pow2(u);
    let den: nat = mb * pow2(kb);
    let a: nat = if e < 0 { num * pow2((-e) as nat) } else { num };
    let b: nat = if e > 0 { den * pow2(e as nat) } else { den };
    assert(num * pow2(0) == num);
    assert(den * pow2(0) == den);
    lemma_pow2_adds(ka, u);
    lemma_pow2_adds(ka + u, a0);
    lemma_pow2_adds(kb, b0);
    lemma_pow2_adds(s, kb + b0);
    assert(ka + u + a0 == s + (kb + b0));
    let c: nat = pow2(kb + b0);
    lemma_pow2_pos(kb + b0);
    let pa: nat = pow2(ka);
    let pu: nat = pow2(u);
    let p0: nat = pow2(a0);
    let ps: nat = pow2(s);
    assert(a == c * (ma * ps)) by (nonlinear_arith)
        requires
            a == (ma * pa) * pu * p0,
            (pa * pu) * p0 == ps * c,
    ;
    assert(b == c * mb) by (nonlinear_arith)
        requires
            b == (mb * pow2(kb)) * pow2(b0),
            c == pow2(kb) * pow2(b0),
    ;
    lemma_ratio_scale(c, ma * ps, mb);
    let r: nat = (ma * ps) % mb;
    assert(c * r != 0 <==> r != 0) by (nonlinear_arith)
        requires
            c > 0,
    ;
}

/// The sum, or the difference, of two finite patterns, the larger one first.
pub fn combine(p: u32, inf: u64, a: u64, b: u64, subtract: bool) -> (r: u64)
    requires
        1 <= p <= 53,
        a < pow2(63),
        a < 4000 * pow2((p - 1) as nat),
        b <= a,
    ensures
        scaled(p as nat, b as nat) <= scaled(p as nat, a as nat),
        r == capped(
            inf as nat,
            pack(
                p as nat,
                if subtract {
                    (scaled(p as nat, a as nat) - scaled(p as nat, b as nat)) as nat
                } else {
                    scaled(p as nat, a as nat) + scaled(p as nat, b as nat)
                },
                1,
            ),
        ),
{
    let (ma, ka): (u64, u32) = split(p, a);
    let (mb, kb): (u64, u32) = split(p, b);
    let ghost sa: nat = scaled(p as nat, a as nat);
    let ghost sb: nat = scaled(p as nat, b as nat);
    proof {
        lemma2_to64();
        lemma2_to64_rest();
        if b < a {
            lemma_scaled_monotone(p as nat, b as nat, a as nat);
        }
        lemma_pow2_ordered(p as nat, 53);
        lemma_steps_ordered(p as nat, a as nat, ma as nat, ka as nat, b as nat, mb as nat, kb as nat);
        lemma_pow2_adds(53, 64);
        lemma_pow2_adds(60, 60);
        lemma_pow2_unfold(118);
        lemma_pow2_strictly_increases(118, 120);
    }
    let ghost num: nat = if subtract { (sa - sb) as nat } else { sa + sb };
    let gap: u32 = ka - kb;
    if gap <= 64 {
        let lift: u128 = power(gap);
        proof {
            lemma_pow2_ordered(gap as nat, 64);
            assert(ma * lift < pow2(53) * pow2(64)) by (nonlinear_arith)
                requires
                    0 <= ma < pow2(53),
                    0 < lift <= pow2(64),
            ;
            lemma_pow2_adds(gap as nat, kb as nat);
            let pk: nat = pow2(kb as nat);
            assert(sa == (ma * lift) * pk) by (nonlinear_arith)
                requires
                    sa == ma * (lift * pk),
            ;
            lemma_pow2_pos(kb as nat);
            assert(mb <= ma * lift) by (nonlinear_arith)
                requires
                    (ma * lift) * pk >= mb * pk,
                    pk > 0,
            ;
        }
        let high: u128 = ma as u128 * lift;
        let m: u128 = if subtract { high - mb as u128 } else { high + mb as u128 };
        proof {
            let pk: nat = pow2(kb as nat);
            assert(num == m * pk) by (nonlinear_arith)
                requires
                    num == if subtract { high * pk - mb * pk } else { high * pk + mb * pk },
                    m == if subtract { high - mb } else { high + mb },
            ;
            assert(num * pow2(0) == num);
            assert(1 * pk == pk);
            lemma_truncates_exactly(num, 1, m as nat, kb as int);
        }
        round_pack(p, m, kb as i32, false, inf, Ghost(num), Ghost(1))
    } else {
        let high: u128 = ma as u128 * 1024;
        let e: i32 = ka as i32 - 10;
        let sticky: bool = mb != 0;
        let m: u128 = if subtract && sticky { high - 1 } else { high };
        proof {
            let w: nat = pow2(e as nat);
            lemma_pow2_pos(e as nat);
            lemma_pow2_adds(10, e as nat);
            assert(sa == high * w) by (nonlinear_arith)
                requires
                    sa == ma * (1024 * w),
                    high == ma * 1024,
            ;
            // b is smaller than one step of the truncated sum
            lemma_pow2_adds(p as nat, kb as nat);
            lemma_pow2_ordered((p + kb) as nat, e as nat);
            lemma_pow2_pos(kb as nat);
            assert(sb < w) by (nonlinear_arith)
                requires
                    sb == mb * pow2(kb as nat),
                    mb < pow2(p as nat),
                    pow2(p as nat) * pow2(kb as nat) <= w,
                    pow2(kb as nat) > 0,
            ;
            assert(sticky <==> sb > 0) by (nonlinear_arith)
                requires
                    sb == mb * pow2(kb as nat),
                    sticky == (mb != 0),
                    pow2(kb as nat) > 0,
                    mb >= 0,
            ;
            assert(1 * w == w);
            if subtract && sticky {
                assert(num == m * w + (w - sb)) by (nonlinear_arith)
                    requires
                        num == high * w - sb,
                        m == high - 1,
                ;
                lemma_fundamental_div_mod_converse(num as int, w as int, m as int, w - sb);
            } else {
                lemma_fundamental_div_mod_converse(num as int, w as int, m as int, sb as int);
            }
            if sticky {
                lemma_pow2_adds((p - 1) as nat, 10);
                lemma_pow2_adds((p + 1) as nat, 8);
                lemma_pow2_pos((p + 1) as nat);
                assert(high >= pow2((p + 9) as nat)) by (nonlinear_arith)
                    requires
                        high == ma * 1024,
                        ma >= pow2((p - 1) as nat),
                        pow2((p + 9) as nat) == pow2((p - 1) as nat) * 1024,
                ;
            }
        }
        round_pack(p, m, e, sticky, inf, Ghost(num), Ghost(1))
    }
}

proof fn lemma_steps_ordered(p: nat, a: nat, ma: nat, ka: nat, b: nat, mb: nat, kb: nat)
    requires
        p > 0,
        b <= a,
        a == ka * pow2((p - 1) as nat) + ma,
        b == kb * pow2((p - 1) as nat) + mb,
        ma < pow2(p),
        kb > 0 ==> mb >= pow2((p - 1) as nat),
    ensures
        kb <= ka,
{
    lemma_pow2_unfold(p);
    let step: nat = pow2((p - 1) as nat);
    if kb > ka {
        assert(kb * step >= ka * step + step) by (nonlinear_arith)
            requires
                kb >= ka + 1,
        ;
    }
}

/// A whole number as a pattern.
pub fn whole(p: u32, u: u32, inf: u64, n: u64) -> (r: u64)
    requires
        1 <= p <= 53,
        u <= 1100,
    ensures
        r == capped(inf as nat, pack(p as nat, n as nat * pow2(u as nat), 1)),
{
    let ghost num: nat = n as nat * pow2(u as nat);
    proof {
        lemma2_to64();
        lemma_pow2_strictly_increases(64, 120);
        assert(num * pow2(0) == num);
        assert(1 * pow2(u as nat) == pow2(u as nat));
        lemma_truncates_exactly(num, 1, n as nat, u as int);
    }
    round_pack(p, n as u128, u as i32, false, inf, Ghost(num), Ghost(1))
}

/// A finite pattern of one format as a pattern of another: `2^x / 2^y` units of
/// the second make up one unit of the first.
pub fn convert(pf: u32, pt: u32, x: u32, y: u32, inf: u64, bits: u64) -> (r: u64)
    requires
        1 <= pf <= 53,
        1 <= pt <= 53,
        x <= 1100,
        y <= 1100,
        bits < pow2(63),
        bits < 4000 * pow2((pf - 1) as nat),
    ensures
        r == capped(
            inf as nat,
            pack(pt as nat, scaled(pf as nat, bits as nat) * pow2(x as nat), pow2(y as nat)),
        ),
{
    let (m, k): (u64, u32) = split(pf, bits);
    let e: i32 = k as i32 + x as i32 - y as i32;
    let ghost num: nat = scaled(pf as nat, bits as nat) * pow2(x as nat);
    let ghost den: nat = pow2(y as nat);
    proof {
        lemma2_to64();
        lemma_pow2_strictly_increases(64, 120);
        lemma_pow2_pos(y as nat);
        let a0: nat = if e < 0 { (-e) as nat } else { 0 };
        let b0: nat = if e > 0 { e as nat } else { 0 };
        lemma_pow2_adds(k as nat, x as nat);
        lemma_pow2_adds((k + x) as nat, a0);
        lemma_pow2_adds(y as nat, b0);
        assert(k + x + a0 == y + b0);
        let pk: nat = pow2(k as nat);
        let px: nat = pow2(x as nat);
        assert(num * pow2(a0) == m * (den * pow2(b0))) by (nonlinear_arith)
            requires
                num == (m * pk) * px,
                (pk * px) * pow2(a0) == den * pow2(b0),
        ;
        lemma_truncates_exactly(num, den, m as nat, e as int);
    }
    round_pack(pt, m as u128, e, false, inf, Ghost(num), Ghost(den))
}

/// What is left of one finite pattern after taking a non-zero one away as often
/// as it fits.
pub fn remainder(p: u32, inf: u64, a: u64, b: u64) -> (r: u64)
    requires
        1 <= p <= 53,
        a < pow2(63),
        b < pow2(63),
        a < 4000 * pow2((p - 1) as nat),
        0 < b < 4000 * pow2((p - 1) as nat),
    ensures
        scaled(p as nat, b as nat) > 0,
        r == capped(
            inf as nat,
            pack(p as nat, scaled(p as nat, a as nat) % scaled(p as nat, b as nat), 1),
        ),
{
    let (ma, ka): (u64, u32) = split(p, a);
    let (mb, kb): (u64, u32) = split(p, b);
    let ghost sa: nat = scaled(p as nat, a as nat);
    let ghost sb: nat = scaled(p as nat, b as nat);
    proof {
        lemma2_to64();
        lemma2_to64_rest();
        lemma_pow2_ordered(p as nat, 53);
        lemma_pow2_strictly_increases(64, 120);
        lemma_scaled_at_least(p as nat, b as nat);
        assert(mb > 0) by (nonlinear_arith)
            requires
                mb * pow2(kb as nat) > 0,
        ;
    }
    if a < b {
        proof {
            lemma_scaled_monotone(p as nat, a as nat, b as nat);
            lemma_fundamental_div_mod_converse(sa as int, sb as int, 0, sa as int);
            assert(sa * pow2(0) == sa);
            assert(1 * pow2(ka as nat) == pow2(ka as nat));
            lemma_truncates_exactly(sa, 1, ma as nat, ka as int);
        }
        return round_pack(p, ma as u128, ka as i32, false, inf, Ghost(sa), Ghost(1));
    }
    proof {
        lemma_steps_ordered(p as nat, a as nat, ma as nat, ka as nat, b as nat, mb as nat, kb as nat);
    }
    let mut rest: u64 = ma % mb;
    let mut k: u32 = ka;
    let ghost unit: nat = pow2(kb as nat);
    proof {
        lemma_pow2_pos(kb as nat);
        lemma_pow2_adds((ka - kb) as nat, kb as nat);
        let lift: nat = pow2((ka - kb) as nat);
        assert(sa == unit * (ma as nat * lift)) by (nonlinear_arith)
            requires
                sa == ma * (lift * unit),
        ;
        assert(sb == unit * mb as nat) by (nonlinear_arith)
            requires
                sb == mb * unit,
        ;
        lemma_ratio_scale(unit, ma as nat * lift, mb as nat);
        lemma_mul_mod_noop(ma as int, lift as int, mb as int);
        lemma_mul_mod_noop(rest as int, lift as int, mb as int);
        lemma_mod_twice(ma as int, mb as int);
    }
    while k > kb
        invariant
            kb <= k <= ka,
            mb > 0,
            mb < 0x20_0000_0000_0000,
            rest < mb,
            (rest as nat * pow2((k - kb) as nat)) % (mb as nat) == (ma as nat * pow2((ka - kb) as nat))
                % (mb as nat),
        decreases k,
    {
        let ghost before: nat = rest as nat;
        let twice: u64 = 2 * rest;
        rest = if twice >= mb { twice - mb } else { twice };
        proof {
            lemma_pow2_unfold((k - kb) as nat);
            let half: nat = pow2((k - kb - 1) as nat);
            assert(before * (2 * half) == (2 * before) * half) by (nonlinear_arith);
            if twice >= mb {
                lemma_fundamental_div_mod_converse(twice as int, mb as int, 1, rest as int);
            } else {
                lemma_fundamental_div_mod_converse(twice as int, mb as int, 0, rest as int);
            }
            lemma_mul_mod_noop(twice as int, half as int, mb as int);
            lemma_mul_mod_noop(rest as int, half as int, mb as int);
            lemma_mod_twice(twice as int, mb as int);
        }
        k = k - 1;
    }
    let ghost num: nat = sa % sb;
    proof {
        lemma2_to64();
        lemma_pow2_strictly_increases(64, 120);
        assert(rest * pow2(0) == rest);
        lemma_fundamental_div_mod_converse(rest as int, mb as int, 0, rest as int);
        assert(num == rest * unit) by (nonlinear_arith)
            requires
                num == unit * rest as nat,
        ;
        assert(num * pow2(0) == num);
        assert(1 * unit == unit);
        lemma_truncates_exactly(num, 1, rest as nat, kb as int);
    }
    round_pack(p, rest as u128, kb as i32, false, inf, Ghost(num), Ghost(1))
}

/// A pattern's whole part and how its fraction compares with a half.
pub struct Parts {
    /// Whole part; `2^64` where it is at least that.
    pub floor: u128,
    /// The value is more than its whole part.
    pub fraction: bool,
    /// The fraction is a half or more.
    pub half: bool,
}

impl Parts {
    /// What the parts of `n / d` are.
    pub open spec fn of(self, n: nat, d: nat) -> bool {
        if n / d >= 0x1_0000_0000_0000_0000 {
            self.floor == 0x1_0000_0000_0000_0000
        } else {
            &&& self.floor == n / d
            &&& self.fraction == (n % d != 0)
            &&& self.half == (2 * (n % d) >= d)
        }
    }
}

/// Whole part and fraction of a finite pattern.
pub fn parts(p: u32, u: u32, bits: u64) -> (r: Parts)
    requires
        1 <= p <= 53,
        u <= 1100,
        bits < pow2(63),
        bits < 4000 * pow2((p - 1) as nat),
    ensures
        r.floor <= 0x1_0000_0000_0000_0000,
        r.of(scaled(p as nat, bits as nat), pow2(u as nat)),
{
    let (m, k): (u64, u32) = split(p, bits);
    let ghost n: nat = scaled(p as nat, bits as nat);
    let ghost d: nat = pow2(u as nat);
    proof {
        lemma2_to64();
        lemma2_to64_rest();
        lemma_pow2_ordered(p as nat, 53);
        lemma_pow2_pos(u as nat);
        lemma_pow2_pos(k as nat);
    }
    if k >= u {
        let up: u32 = k - u;
        proof {
            lemma_pow2_adds(up as nat, u as nat);
            lemma_pow2_pos(up as nat);
            assert(n == (m * pow2(up as nat)) * d) by (nonlinear_arith)
                requires
                    n == m * (pow2(up as nat) * d),
            ;
            lemma_fundamental_div_mod_converse(n as int, d as int, m * pow2(up as nat), 0);
        }
        if m == 0 {
            proof {
                assert(m * pow2(up as nat) == 0) by (nonlinear_arith)
                    requires
                        m == 0,
                ;
            }
            return Parts { floor: 0, fraction: false, half: false };
        }
        if up >= 64 {
            proof {
                lemma_pow2_ordered(64, up as nat);
                assert(m * pow2(up as nat) >= pow2(64)) by (nonlinear_arith)
                    requires
                        m >= 1,
                        pow2(up as nat) >= pow2(64),
                ;
            }
            return Parts { floor: 0x1_0000_0000_0000_0000, fraction: false, half: false };
        }
        let lift: u128 = power(up);
        proof {
            lemma_pow2_ordered(up as nat, 64);
            assert(m * lift <= pow2(53) * pow2(64)) by (nonlinear_arith)
                requires
                    0 <= m <= pow2(53),
                    0 <= lift <= pow2(64),
            ;
        }
        let q: u128 = m as u128 * lift;
        if q >= 0x1_0000_0000_0000_0000 {
            Parts { floor: 0x1_0000_0000_0000_0000, fraction: false, half: false }
        } else {
            Parts { floor: q, fraction: false, half: false }
        }
    } else {
        let down: u32 = u - k;
        let ghost c: nat = pow2(k as nat);
        let ghost w: nat = pow2(down as nat);
        proof {
            lemma_pow2_adds(k as nat, down as nat);
            lemma_pow2_pos(down as nat);
            assert(n == c * m as nat) by (nonlinear_arith)
                requires
                    n == m * c,
            ;
            lemma_ratio_scale(c, m as nat, w);
            let r: nat = m as nat % w;
            assert(2 * (c * r) >= c * w <==> 2 * r >= w) by (nonlinear_arith)
                requires
                    c > 0,
            ;
            assert(c * r != 0 <==> r != 0) by (nonlinear_arith)
                requires
                    c > 0,
            ;
        }
        if down > 64 {
            proof {
                lemma_pow2_ordered(65, down as nat);
                lemma_pow2_unfold(65);
                lemma_fundamental_div_mod_converse(m as int, w as int, 0, m as int);
            }
            return Parts { floor: 0, fraction: m != 0, half: false };
        }
        let unit: u128 = power(down);
        proof {
            lemma_pow2_ordered(down as nat, 64);
        }
        let q: u128 = m as u128 / unit;
        let rest: u128 = m as u128 % unit;
        proof {
            assert(q <= m) by (nonlinear_arith)
                requires
                    q == m as u128 / unit,
                    unit >= 1,
            ;
        }
        Parts { floor: q, fraction: rest != 0, half: 2 * rest >= unit }
    }
}

/// How large a pattern can be: `k` doublings of the unit suffice.
pub proof fn lemma_pack_bound(p: nat, num: nat, den: nat, k: nat)
    requires
        p > 0,
        den > 0,
        num < pow2(p + k) * den,
    ensures
        pack(p, num, den) <= (k + 2) * pow2((p - 1) as nat),
    decreases k,
{
    let half: nat = pow2((p - 1) as nat);
    lemma_pow2_unfold(p);
    if num < pow2(p) * den {
        assert(num / den < pow2(p)) by (nonlinear_arith)
            requires
                num < pow2(p) * den,
                den > 0,
        ;
        assert(2 * half <= (k + 2) * half) by (nonlinear_arith);
    } else {
        if k == 0 {
            assert(p + k == p);
        }
        lemma_pow2_unfold(p + k);
        assert(pow2(p + k) * den == pow2((p + k - 1) as nat) * (2 * den)) by (nonlinear_arith)
            requires
                pow2(p + k) == 2 * pow2((p + k - 1) as nat),
        ;
        lemma_pack_bound(p, num, 2 * den, (k - 1) as nat);
        assert(half + (k - 1 + 2) * half == (k + 2) * half) by (nonlinear_arith);
    }
}

/// At least one unit packs to something.
pub proof fn lemma_pack_positive(p: nat, num: nat, den: nat)
    requires
        p > 0,
        0 < den <= num,
    ensures
        pack(p, num, den) > 0,
{
    lemma_pow2_pos((p - 1) as nat);
    assert(num / den >= 1) by (nonlinear_arith)
        requires
            0 < den <= num,
    ;
}

/// Scaling both parts of a ratio leaves its pattern.
pub proof fn lemma_pack_scale(p: nat, c: nat, num: nat, den: nat)
    requires
        p > 0,
        c > 0,
        den > 0,
    ensures
        pack(p, c * num, c * den) == pack(p, num, den),
    decreases num - den,
{
    let top: nat = pow2(p);
    assert(c * num < top * (c * den) <==> num < top * den) by (nonlinear_arith)
        requires
            c > 0,
    ;
    assert(c * den > 0) by (nonlinear_arith)
        requires
            c > 0,
            den > 0,
    ;
    if num < top * den {
        lemma_nearest_scale(c, num, den);
    } else {
        lemma_pow2_unfold(p);
        lemma_pow2_pos((p - 1) as nat);
        assert(top * den >= 2 * den) by (nonlinear_arith)
            requires
                top >= 2,
        ;
        assert(2 * (c * den) == c * (2 * den)) by (nonlinear_arith);
        lemma_pack_scale(p, c, num, 2 * den);
    }
}

/// The units of a pattern pack to that pattern.
pub proof fn lemma_pack_of_scaled(p: nat, bits: nat)
    requires
        p > 0,
    ensures
        pack(p, scaled(p, bits), 1) == bits,
    decreases bits,
{
    let half: nat = pow2((p - 1) as nat);
    lemma_pow2_unfold(p);
    lemma_pow2_pos((p - 1) as nat);
    if bits >= pow2(p) {
        let rest: nat = (bits - half) as nat;
        let s: nat = scaled(p, rest);
        lemma_scaled_at_least(p, rest);
        lemma_pack_of_scaled(p, rest);
        lemma_pack_scale(p, 2, s, 1);
    }
}

/// Above the subnormals, a pattern is off by at most `2^-p` of what it stands
/// for.
pub proof fn lemma_pack_error(p: nat, num: nat, den: nat)
    requires
        p > 0,
        den > 0,
        pow2((p - 1) as nat) * den <= num,
    ensures
        pack(p, num, den) >= pow2((p - 1) as nat),
        (pow2(p) - 1) * num <= pow2(p) * (scaled(p, pack(p, num, den)) * den),
        pow2(p) * (scaled(p, pack(p, num, den)) * den) <= (pow2(p) + 1) * num,
    decreases num - den,
{
    let half: nat = pow2((p - 1) as nat);
    let top: nat = pow2(p);
    lemma_pow2_unfold(p);
    lemma_pow2_pos((p - 1) as nat);
    let b: nat = pack(p, num, den);
    let v: nat = scaled(p, b);
    if num < top * den {
        let q: int = (num / den) as int;
        let r: int = (num % den) as int;
        lemma_fundamental_div_mod(num as int, den as int);
        lemma_mod_bound(num as int, den as int);
        assert(half <= q < top) by (nonlinear_arith)
            requires
                num == den * q + r,
                0 <= r < den,
                half * den <= num,
                num < top * den,
                den > 0,
        ;
        assert(b == q || b == q + 1);
        if b == top {
            assert(scaled(p, half) == half);
        }
        assert(v == b);
        let off: int = b * den - num;
        assert(-(den as int) <= 2 * off <= den) by {
            if b == q {
                assert(q * den - num == -r) by (nonlinear_arith)
                    requires
                        num == den * q + r,
                ;
            } else {
                assert((q + 1) * den - num == den - r) by (nonlinear_arith)
                    requires
                        num == den * q + r,
                ;
            }
        }
        assert(top * (v * den) - top * num == half * (2 * off)) by (nonlinear_arith)
            requires
                v * den - num == off,
                top == 2 * half,
        ;
        assert(-(num as int) <= half * (2 * off) <= num) by (nonlinear_arith)
            requires
                -(den as int) <= 2 * off <= den,
                half * den <= num,
                half >= 0,
        ;
    } else {
        assert(top * den >= 2 * den) by (nonlinear_arith)
            requires
                top >= 2,
        ;
        assert(half * (2 * den) == top * den) by (nonlinear_arith)
            requires
                top == 2 * half,
        ;
        lemma_pack_error(p, num, 2 * den);
        let w: nat = scaled(p, (b - half) as nat);
        assert(v == 2 * w);
        assert(w * (2 * den) == v * den) by (nonlinear_arith)
            requires
                v == 2 * w,
        ;
    }
    assert((top - 1) * num == top * num - num) by (nonlinear_arith);
    assert((top + 1) * num == top * num + num) by (nonlinear_arith);
}

/// A number of `p` bits, doubled any number of times, has a pattern of its
/// own.
pub proof fn lemma_pack_exact(p: nat, m: nat, k: nat)
    requires
        p > 0,
        m < pow2(p),
    ensures
        scaled(p, pack(p, m * pow2(k), 1)) == m * pow2(k),
    decreases k,
{
    let half: nat = pow2((p - 1) as nat);
    let top: nat = pow2(p);
    lemma_pow2_unfold(p);
    lemma_pow2_pos((p - 1) as nat);
    let num: nat = m * pow2(k);
    if num >= top {
        lemma2_to64();
        assert(m * pow2(0) == m);
        assert(k > 0);
        lemma_pow2_unfold(k);
        let rest: nat = m * pow2((k - 1) as nat);
        assert(num == 2 * rest) by (nonlinear_arith)
            requires
                num == m * pow2(k),
                rest == m * pow2((k - 1) as nat),
                pow2(k) == 2 * pow2((k - 1) as nat),
        ;
        lemma_pack_exact(p, m, (k - 1) as nat);
        lemma_pack_scale(p, 2, rest, 1);
        lemma_pack_error(p, rest, 1);
    }
}

proof fn lemma_nearest_monotone(n1: nat, d1: nat, n2: nat, d2: nat)
    requires
        d1 > 0,
        d2 > 0,
        n1 * d2 <= n2 * d1,
    ensures
        nearest_even(n1, d1) <= nearest_even(n2, d2),
{
    let q1: int = (n1 / d1) as int;
    let r1: int = (n1 % d1) as int;
    let q2: int = (n2 / d2) as int;
    let r2: int = (n2 % d2) as int;
    lemma_fundamental_div_mod(n1 as int, d1 as int);
    lemma_fundamental_div_mod(n2 as int, d2 as int);
    lemma_mod_bound(n1 as int, d1 as int);
    lemma_mod_bound(n2 as int, d2 as int);
    assert(n1 * d2 == (q1 * d1) * d2 + r1 * d2) by (nonlinear_arith)
        requires
            n1 == d1 * q1 + r1,
    ;
    assert(n2 * d1 == (q2 * d1) * d2 + r2 * d1) by (nonlinear_arith)
        requires
            n2 == d2 * q2 + r2,
    ;
    assert(q1 <= q2) by (nonlinear_arith)
        requires
            (q1 * d1) * d2 + r1 * d2 <= (q2 * d1) * d2 + r2 * d1,
            0 <= r1,
            r2 < d2,
            d1 > 0,
            d2 > 0,
    ;
    if q1 == q2 {
        assert(r1 * d2 <= r2 * d1);
        assert(2 * r1 > d1 ==> 2 * r2 > d2) by (nonlinear_arith)
            requires
                r1 * d2 <= r2 * d1,
                d1 > 0,
                d2 > 0,
        ;
        assert(2 * r1 == d1 ==> 2 * r2 >= d2) by (nonlinear_arith)
            requires
                r1 * d2 <= r2 * d1,
                d1 > 0,
                d2 > 0,
        ;
    }
}

/// A larger ratio has no smaller pattern.
pub proof fn lemma_pack_monotone(p: nat, n1: nat, d1: nat, n2: nat, d2: nat)
    requires
        p > 0,
        d1 > 0,
        d2 > 0,
        n1 * d2 <= n2 * d1,
    ensures
        pack(p, n1, d1) <= pack(p, n2, d2),
    decreases n1 - d1,
{
    let half: nat = pow2((p - 1) as nat);
    let top: nat = pow2(p);
    lemma_pow2_unfold(p);
    lemma_pow2_pos((p - 1) as nat);
    if n2 < top * d2 {
        assert(n1 < top * d1) by (nonlinear_arith)
            requires
                n1 * d2 <= n2 * d1,
                n2 < top * d2,
                d1 > 0,
                d2 > 0,
        ;
        lemma_nearest_monotone(n1, d1, n2, d2);
    } else if n1 < top * d1 {
        assert(half * (2 * d2) == top * d2) by (nonlinear_arith)
            requires
                top == 2 * half,
        ;
        lemma_pack_error(p, n2, 2 * d2);
        assert(n1 / d1 < top) by (nonlinear_arith)
            requires
                n1 < top * d1,
                d1 > 0,
        ;
    } else {
        assert(n1 * (2 * d2) <= n2 * (2 * d1)) by (nonlinear_arith)
            requires
                n1 * d2 <= n2 * d1,
        ;
        assert(top * d1 >= 2 * d1) by (nonlinear_arith)
            requires
                top >= 2,
        ;
        lemma_pack_monotone(p, n1, 2 * d1, n2, 2 * d2);
    }
}

/// What is at most the value of a pattern is rounded to that pattern at most.
pub proof fn lemma_pack_at_most(p: nat, num: nat, den: nat, bits: nat)
    requires
        p > 0,
        den > 0,
        num <= scaled(p, bits) * den,
    ensures
        pack(p, num, den) <= bits,
{
    lemma_pack_monotone(p, num, den, scaled(p, bits), 1);
    lemma_pack_of_scaled(p, bits);
}

/// A pattern stands for a significand and a power of two.
pub proof fn lemma_significand(p: nat, bits: nat) -> (r: (nat, nat))
    requires
        p > 0,
    ensures
        r.0 < pow2(p),
        scaled(p, bits) == r.0 * pow2(r.1),
        r.1 * pow2((p - 1) as nat) <= bits,
    decreases bits,
{
    lemma2_to64();
    lemma_pow2_unfold(p);
    lemma_pow2_pos((p - 1) as nat);
    let step: nat = pow2((p - 1) as nat);
    if bits < pow2(p) {
        assert(bits * pow2(0) == bits);
        assert(0 * step == 0);
        (bits, 0)
    } else {
        let (m, k): (nat, nat) = lemma_significand(p, (bits - step) as nat);
        lemma_pow2_unfold(k + 1);
        assert(2 * (m * pow2(k)) == m * pow2(k + 1)) by (nonlinear_arith)
            requires
                pow2(k + 1) == 2 * pow2(k),
        ;
        assert((k + 1) * step == k * step + step) by (nonlinear_arith);
        (m, k + 1)
    }
}

/// Half a step above a power of two is rounded down to it.
pub proof fn lemma_pack_half_step(p: nat, k: nat)
    requires
        p > 1,
        k > 0,
    ensures
        pack(p, pow2((p - 1) as nat) * pow2(k) + pow2((k - 1) as nat), 1) == (k + 1) * pow2(
            (p - 1) as nat,
        ),
        scaled(p, (k + 1) * pow2((p - 1) as nat)) == pow2((p - 1) as nat) * pow2(k),
{
    let step: nat = pow2((p - 1) as nat);
    let half: nat = pow2((k - 1) as nat);
    let whole: nat = pow2(k);
    let num: nat = step * whole + half;
    lemma_pow2_unfold(p);
    lemma_pow2_unfold((p - 1) as nat);
    lemma_pow2_unfold(k);
    lemma_pow2_pos((p - 2) as nat);
    lemma_pow2_pos((k - 1) as nat);
    assert(pow2(p) * (1 * half) == step * whole) by (nonlinear_arith)
        requires
            pow2(p) == 2 * step,
            whole == 2 * half,
    ;
    assert(num < pow2(p) * (1 * whole)) by (nonlinear_arith)
        requires
            num == step * whole + half,
            pow2(p) == 2 * step,
            whole == 2 * half,
            half > 0,
            step >= 1,
    ;
    lemma_pack_at(p, num, 1, k);
    assert(num / whole == step && num % whole == half) by {
        lemma_fundamental_div_mod_converse(num as int, whole as int, step as int, half as int);
    }
    assert(step % 2 == 0) by {
        assert(step == 2 * pow2((p - 2) as nat));
    }
    assert(k * step + step == (k + 1) * step) by (nonlinear_arith);
    lemma_scaled_at(p, (k + 1) * step, step, k);
}

} // verus!
