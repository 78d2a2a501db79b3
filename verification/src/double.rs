//! Double precision in integers: positive numbers of 53 significant bits, and
//! the operations on them, each rounded to the nearest such number and on a tie
//! to the even one.
//!
//! A number is held as an integer and the power of two that divides it.

use vstd::arithmetic::power2::*;
use vstd::prelude::*;

verus! {

/// The integer nearest to `n / d`, on a tie the even one.
pub open spec fn nearest(n: nat, d: nat) -> nat {
    let q = n / d;
    let r = n % d;
    if 2 * r > d || (2 * r == d && q % 2 == 1) {
        q + 1
    } else {
        q
    }
}

/// How often `n` must be doubled for `n / d` to reach 53 bits.
pub open spec fn doublings(n: nat, d: nat) -> nat
    decreases 0x20_0000_0000_0000 * d - n,
{
    if n == 0 || n >= 0x10_0000_0000_0000 * d {
        0
    } else {
        1 + doublings(2 * n, d)
    }
}

/// `n / d` for integers, where it is below the greatest integer of 53 bits: the
/// significant bits, and the exponent of the power of two that divides them.
pub open spec fn quotient(n: nat, d: nat) -> (nat, nat) {
    let s = doublings(n, d);
    (nearest(n * pow2(s), d), s)
}

/// The greatest integer whose square is at most `n`.
pub open spec fn floor_root(n: nat) -> nat {
    choose|r: nat| #[trigger] (r * r) <= n < (r + 1) * (r + 1)
}

/// The integer nearest to the square root of `n`.
pub open spec fn nearest_root(n: nat) -> nat {
    let r = floor_root(n);
    if n - r * r > r {
        r + 1
    } else {
        r
    }
}

/// The square root of a number of 53 bits.
pub open spec fn square_root(m: nat, s: nat) -> (nat, nat) {
    if s % 2 == 0 {
        (nearest_root(m * pow2(52)), (s + 52) / 2)
    } else {
        (nearest_root(m * pow2(53)), (s + 53) / 2)
    }
}

/// The distance of the numbers of 53 bits around `n`, from `unit` on.
pub open spec fn spacing(n: nat, unit: nat) -> nat
    decreases n - unit,
{
    if unit == 0 || n < 0x20_0000_0000_0000 * unit {
        unit
    } else {
        spacing(n, 2 * unit)
    }
}

/// The number of 53 bits nearest to the integer `n`.
pub open spec fn rounded(n: nat) -> nat {
    let unit = spacing(n, 1);
    nearest(n, unit) * unit
}

/// Only one integer is the floor of a square root.
proof fn floor_root_is_unique(n: nat, r: nat)
    requires
        r * r <= n < (r + 1) * (r + 1),
    ensures
        floor_root(n) == r,
{
    let x = floor_root(n);
    assert(r * r <= n);
    assert(x * x <= n < (x + 1) * (x + 1));
    if x < r {
        assert((x + 1) * (x + 1) <= r * r) by (nonlinear_arith)
            requires
                x + 1 <= r,
        ;
    } else if r < x {
        assert((r + 1) * (r + 1) <= x * x) by (nonlinear_arith)
            requires
                r + 1 <= x,
        ;
    }
}

pub fn div_nearest(n: u128, d: u128) -> (r: u128)
    requires
        0 < d < 0x4000_0000_0000_0000_0000_0000_0000_0000,
        n < u128::MAX,
    ensures
        r == nearest(n as nat, d as nat),
        r <= n / d + 1,
{
    let q: u128 = n / d;
    let rest: u128 = n % d;
    assert(q <= n) by (nonlinear_arith)
        requires
            q == n / d,
            d > 0,
    ;
    if 2 * rest > d || (2 * rest == d && q % 2 == 1) {
        q + 1
    } else {
        q
    }
}

/// The quotient of two integers.
pub fn divide(n: u128, d: u128) -> (r: (u128, u32))
    requires
        0 < n < 0x80_0000_0000_0000_0000_0000_0000_0000,
        0 < d < 0x8_0000_0000_0000_0000,
    ensures
        (r.0 as nat, r.1 as nat) == quotient(n as nat, d as nat),
        n * pow2(r.1 as nat) < 0x20_0000_0000_0000 * d || r.1 == 0,
        r.0 > 0,
        n < 0x20_0000_0000_0000 * d ==> r.0 <= 0x20_0000_0000_0000,
{
    let least: u128 = 0x10_0000_0000_0000 * d;
    let mut m: u128 = n;
    let mut s: u32 = 0;
    proof {
        lemma2_to64();
    }
    while m < least
        invariant
            least == 0x10_0000_0000_0000 * d,
            0 < d < 0x8_0000_0000_0000_0000,
            0 < n,
            m >= n + s,
            m < 0x100_0000_0000_0000_0000_0000_0000_0000,
            m == n * pow2(s as nat),
            s < 128,
            s > 0 ==> m < 2 * least,
            doublings(n as nat, d as nat) == s + doublings(m as nat, d as nat),
        decreases 2 * least - m,
    {
        proof {
            lemma_pow2_unfold((s + 1) as nat);
            assert(n * (2 * pow2(s as nat)) == 2 * (n * pow2(s as nat))) by (nonlinear_arith);
            if s >= 127 {
                lemma_pow2_adds(63, 64);
                lemma2_to64_rest();
                if s > 127 {
                    lemma_pow2_strictly_increases(127, s as nat);
                }
                assert(pow2(63) * pow2(64) == 0x8000_0000_0000_0000 * 0x1_0000_0000_0000_0000);
                assert(n * pow2(s as nat) >= pow2(s as nat)) by (nonlinear_arith)
                    requires
                        n >= 1,
                ;
                assert(false);
            }
        }
        m = 2 * m;
        s = s + 1;
    }
    proof {
        assert(m / d >= 0x10_0000_0000_0000) by (nonlinear_arith)
            requires
                m >= 0x10_0000_0000_0000 * d,
                d > 0,
        ;
        if n < 0x20_0000_0000_0000 * d {
            assert(m / d < 0x20_0000_0000_0000) by (nonlinear_arith)
                requires
                    m < 0x20_0000_0000_0000 * d,
                    d > 0,
            ;
        }
    }
    (div_nearest(m, d), s)
}

/// The power of two with the exponent `e`.
pub fn power(e: u32) -> (r: u128)
    requires
        pow2(e as nat) <= u128::MAX,
    ensures
        r == pow2(e as nat),
{
    let mut unit: u128 = 1;
    let mut i: u32 = 0;
    proof {
        lemma2_to64();
    }
    while i < e
        invariant
            i <= e,
            unit == pow2(i as nat),
            pow2(e as nat) <= u128::MAX,
        decreases e - i,
    {
        proof {
            lemma_pow2_unfold((i + 1) as nat);
            if i + 1 < e {
                lemma_pow2_strictly_increases((i + 1) as nat, e as nat);
            }
        }
        unit = 2 * unit;
        i += 1;
    }
    unit
}

/// The integer nearest to the square root of `n`.
pub fn root_nearest(n: u128) -> (r: u128)
    requires
        n < 0x1000_0000_0000_0000_0000_0000_0000,
    ensures
        r == nearest_root(n as nat),
        r <= 0x40_0000_0000_0000,
        n > 0 ==> r > 0,
{
    let mut low: u128 = 0;
    let mut high: u128 = 0x40_0000_0000_0000;
    assert(0x40_0000_0000_0000 * 0x40_0000_0000_0000 == 0x1000_0000_0000_0000_0000_0000_0000);
    while low + 1 < high
        invariant
            low < high <= 0x40_0000_0000_0000,
            low * low <= n < high * high,
        decreases high - low,
    {
        let mid: u128 = low + (high - low) / 2;
        assert(mid * mid <= 0x40_0000_0000_0000 * 0x40_0000_0000_0000) by (nonlinear_arith)
            requires
                mid <= 0x40_0000_0000_0000,
        ;
        if mid * mid <= n {
            low = mid;
        } else {
            high = mid;
        }
    }
    assert(high == low + 1);
    proof {
        floor_root_is_unique(n as nat, low as nat);
    }
    if n - low * low > low {
        low + 1
    } else {
        low
    }
}

/// The number of 53 bits nearest to the integer `n`: its significant bits, and the
/// exponent of the power of two that multiplies them.
pub fn round(n: u128) -> (r: (u128, u32))
    requires
        n < 0x10_0000_0000_0000_0000_0000_0000,
    ensures
        r.0 * pow2(r.1 as nat) == rounded(n as nat),
        r.0 <= 0x20_0000_0000_0000,
        r.1 <= 47,
        n > 0 ==> r.0 > 0,
{
    let mut unit: u128 = 1;
    let mut e: u32 = 0;
    proof {
        lemma2_to64();
        lemma2_to64_rest();
    }
    while n >= 0x20_0000_0000_0000 * unit
        invariant
            0 < unit <= 0x8000_0000_0000,
            unit == pow2(e as nat),
            e <= 47,
            pow2(47) == 0x8000_0000_0000,
            unit == 1 || unit <= n,
            n < 0x10_0000_0000_0000_0000_0000_0000,
            spacing(n as nat, 1) == spacing(n as nat, unit as nat),
        decreases n - unit,
    {
        proof {
            lemma_pow2_unfold((e + 1) as nat);
            assert(e != 47);
            if e + 1 < 47 {
                lemma_pow2_strictly_increases((e + 1) as nat, 47);
            }
        }
        unit = 2 * unit;
        e += 1;
    }
    let q: u128 = div_nearest(n, unit);
    proof {
        nearest_is_bounded(
            n as nat,
            unit as nat,
            if n >= unit {
                1
            } else {
                0
            },
            0x20_0000_0000_0000,
        );
    }
    (q, e)
}

/// The whole part of `n / d`.
pub fn whole_part(n: u128, d: u128) -> (r: u128)
    requires
        0 < n < 0x80_0000_0000_0000_0000_0000_0000_0000,
        0 < d < 0x8_0000_0000_0000_0000,
    ensures
        r == whole(n as nat, d as nat),
{
    let (m, s) = divide(n, d);
    proof {
        lemma2_to64();
        lemma_pow2_pos(s as nat);
        assert(pow2(s as nat) <= n * pow2(s as nat)) by (nonlinear_arith)
            requires
                n >= 1,
        ;
    }
    m / power(s)
}

/// The whole part of `n / d`.
pub open spec fn whole(n: nat, d: nat) -> nat {
    let (m, s) = quotient(n, d);
    m / pow2(s)
}

proof fn nearest_is_bounded(n: nat, d: nat, low: nat, high: nat)
    requires
        d > 0,
        low * d <= n < high * d,
    ensures
        low <= nearest(n, d) <= high,
{
    let q = n / d;
    assert(low <= q < high) by (nonlinear_arith)
        requires
            q == n / d,
            d > 0,
            low * d <= n < high * d,
    ;
}

proof fn spacing_fits(n: nat, unit: nat)
    requires
        unit > 0,
        unit == 1 || n >= 0x10_0000_0000_0000 * unit,
    ensures
        ({
            let u = spacing(n, unit);
            &&& u > 0
            &&& n < 0x20_0000_0000_0000 * u
            &&& u == 1 || n >= 0x10_0000_0000_0000 * u
        }),
    decreases n - unit,
{
    if n >= 0x20_0000_0000_0000 * unit {
        spacing_fits(n, 2 * unit);
    }
}

/// A number that must be doubled often enough is a fraction of 53 bits.
proof fn doublings_fit(n: nat, d: nat)
    requires
        n > 0,
        d > 0,
    ensures
        n * pow2(doublings(n, d)) >= 0x10_0000_0000_0000 * d,
        doublings(n, d) > 0 ==> n * pow2(doublings(n, d)) < 0x20_0000_0000_0000 * d,
    decreases 0x20_0000_0000_0000 * d - n,
{
    let s = doublings(n, d);
    lemma2_to64();
    if n < 0x10_0000_0000_0000 * d {
        doublings_fit(2 * n, d);
        lemma_pow2_unfold(s);
        let p = pow2((s - 1) as nat);
        assert(n * (2 * p) == (2 * n) * p) by (nonlinear_arith);
        if s == 1 {
            assert((2 * n) * p == 2 * n) by (nonlinear_arith)
                requires
                    p == 1,
            ;
        }
    } else {
        assert(n * 1 == n);
    }
}

proof fn doublings_scale(n: nat, d: nat, c: nat)
    requires
        c > 0,
    ensures
        doublings(n * c, d * c) == doublings(n, d),
    decreases 0x20_0000_0000_0000 * d - n,
{
    assert((n * c == 0) == (n == 0)) by (nonlinear_arith)
        requires
            c > 0,
    ;
    assert((n * c >= 0x10_0000_0000_0000 * (d * c)) == (n >= 0x10_0000_0000_0000 * d))
        by (nonlinear_arith)
        requires
            c > 0,
    ;
    if n > 0 && n < 0x10_0000_0000_0000 * d {
        doublings_scale(2 * n, d, c);
        assert((2 * n) * c == 2 * (n * c)) by (nonlinear_arith);
    }
}

proof fn nearest_scales(n: nat, d: nat, c: nat)
    requires
        c > 0,
        d > 0,
    ensures
        nearest(n * c, d * c) == nearest(n, d),
{
    let (q, r) = (n / d, n % d);
    vstd::arithmetic::div_mod::lemma_fundamental_div_mod(n as int, d as int);
    assert(n * c == q * (d * c) + r * c) by (nonlinear_arith)
        requires
            n == d * q + r,
    ;
    assert(0 <= r * c < d * c) by (nonlinear_arith)
        requires
            0 <= r < d,
            c > 0,
    ;
    vstd::arithmetic::div_mod::lemma_fundamental_div_mod_converse(
        (n * c) as int,
        (d * c) as int,
        q as int,
        (r * c) as int,
    );
    assert((2 * (r * c) > d * c) == (2 * r > d) && (2 * (r * c) == d * c) == (2 * r == d))
        by (nonlinear_arith)
        requires
            c > 0,
    ;
}

/// A quotient stays as it is when both sides are multiplied.
pub proof fn whole_scales(n: nat, d: nat, c: nat)
    requires
        c > 0,
        d > 0,
    ensures
        whole(n * c, d * c) == whole(n, d),
{
    doublings_scale(n, d, c);
    let p = pow2(doublings(n, d));
    assert((n * c) * p == (n * p) * c) by (nonlinear_arith);
    nearest_scales(n * p, d, c);
}

/// Rounding to an integer moves a quotient by at most one half.
proof fn nearest_is_near(n: nat, d: nat)
    requires
        d > 0,
    ensures
        2 * (nearest(n, d) * d) <= 2 * n + d,
        2 * n <= 2 * (nearest(n, d) * d) + d,
{
    let (q, r) = (n / d, n % d);
    vstd::arithmetic::div_mod::lemma_fundamental_div_mod(n as int, d as int);
    assert(q * d == d * q && (q + 1) * d == q * d + d) by (nonlinear_arith);
}

/// A quotient in double precision is near the exact one.
pub proof fn quotient_is_near(n: nat, d: nat)
    requires
        n > 0,
        d > 0,
    ensures
        ({
            let (q, s) = quotient(n, d);
            &&& q >= 0x10_0000_0000_0000
            &&& 4096 * (q * d) <= 4097 * (n * pow2(s))
            &&& 4096 * (n * pow2(s)) <= 4097 * (q * d)
        }),
{
    let s = doublings(n, d);
    let m = n * pow2(s);
    doublings_fit(n, d);
    nearest_is_near(m, d);
    assert(m < (m + 1) * d) by (nonlinear_arith)
        requires
            d >= 1,
    ;
    nearest_is_bounded(m, d, 0x10_0000_0000_0000, m + 1);
}

/// A number in double precision is near the integer that it stands for.
pub proof fn rounded_is_near(n: nat)
    ensures
        4096 * rounded(n) <= 4097 * n,
        4096 * n <= 4097 * rounded(n),
{
    let unit = spacing(n, 1);
    spacing_fits(n, 1);
    if unit == 1 {
        assert(n / 1 == n && n % 1 == 0);
        assert(nearest(n, 1) * 1 == n);
    } else {
        nearest_is_near(n, unit);
    }
}

/// The whole part of a quotient in double precision is near that of the exact
/// quotient, and it is positive where the exact one is.
pub proof fn whole_is_near(n: nat, d: nat)
    requires
        n > 0,
        d > 0,
    ensures
        4096 * (whole(n, d) * d) <= 4097 * n,
        4096 * n <= 4097 * ((whole(n, d) + 1) * d),
        n >= d ==> whole(n, d) > 0,
{
    let (m, s) = quotient(n, d);
    let p = pow2(s);
    let w = m / p;
    lemma_pow2_pos(s);
    quotient_is_near(n, d);
    assert(w * p <= m) by (nonlinear_arith)
        requires
            w == m / p,
            p > 0,
    ;
    assert((w * d) * p <= m * d) by (nonlinear_arith)
        requires
            w * p <= m,
    ;
    assert(4096 * (w * d) <= 4097 * n) by (nonlinear_arith)
        requires
            4096 * ((w * d) * p) <= 4097 * (n * p),
            p > 0,
    ;
    assert(m < (w + 1) * p) by (nonlinear_arith)
        requires
            w == m / p,
            p > 0,
    ;
    assert(m * d <= ((w + 1) * d) * p) by (nonlinear_arith)
        requires
            m < (w + 1) * p,
    ;
    assert(4096 * n <= 4097 * ((w + 1) * d)) by (nonlinear_arith)
        requires
            4096 * (n * p) <= 4097 * (((w + 1) * d) * p),
            p > 0,
    ;
    if n >= d {
        assert(p * d <= n * p) by (nonlinear_arith)
            requires
                n >= d,
        ;
        assert(n * p < (n * p + 1) * d) by (nonlinear_arith)
            requires
                d >= 1,
        ;
        nearest_is_bounded(n * p, d, p, n * p + 1);
        assert(w > 0) by (nonlinear_arith)
            requires
                w == m / p,
                m >= p,
                p > 0,
        ;
    }
}

/// Every integer has a floor of its square root.
proof fn floor_root_exists(n: nat)
    ensures
        floor_root(n) * floor_root(n) <= n < (floor_root(n) + 1) * (floor_root(n) + 1),
    decreases n,
{
    if n == 0 {
        assert(0nat * 0 <= 0 < (0nat + 1) * (0nat + 1)) by (nonlinear_arith);
        floor_root_is_unique(0, 0);
    } else {
        floor_root_exists((n - 1) as nat);
        let r = floor_root((n - 1) as nat);
        if n < (r + 1) * (r + 1) {
            floor_root_is_unique(n, r);
        } else {
            assert((r + 2) * (r + 2) > (r + 1) * (r + 1)) by (nonlinear_arith);
            floor_root_is_unique(n, r + 1);
        }
    }
}

/// A square root that is large is near the exact one.
pub proof fn root_is_near(n: nat)
    requires
        n >= 0x10_0000_0000_0000,
    ensures
        16_777_216 * (nearest_root(n) * nearest_root(n)) <= 16_785_409 * n,
        16_777_216 * n <= 16_785_409 * (nearest_root(n) * nearest_root(n)),
{
    floor_root_exists(n);
    let x = floor_root(n);
    let r = nearest_root(n);
    assert(x >= 4096) by (nonlinear_arith)
        requires
            n >= 0x10_0000_0000_0000,
            n < (x + 1) * (x + 1),
    ;
    assert((x + 1) * (x + 1) == x * x + 2 * x + 1) by (nonlinear_arith);
    assert((2 * r - 1) * (2 * r - 1) == 4 * (r * r) - 4 * r + 1) by (nonlinear_arith);
    assert((2 * r + 1) * (2 * r + 1) == 4 * (r * r) + 4 * r + 1) by (nonlinear_arith);
    assert((2 * r - 1) * (2 * r - 1) <= 4 * n <= (2 * r + 1) * (2 * r + 1));
    assert((4096 * (2 * r)) * (4096 * (2 * r)) <= (4097 * (2 * r - 1)) * (4097 * (2 * r - 1)))
        by (nonlinear_arith)
        requires
            r >= 4096,
    ;
    assert((4096 * (2 * r + 1)) * (4096 * (2 * r + 1)) <= (4097 * (2 * r)) * (4097 * (2 * r)))
        by (nonlinear_arith)
        requires
            r >= 4096,
    ;
    assert((4096 * (2 * r)) * (4096 * (2 * r)) == 4 * (16_777_216 * (r * r))) by (nonlinear_arith);
    assert((4097 * (2 * r)) * (4097 * (2 * r)) == 4 * (16_785_409 * (r * r))) by (nonlinear_arith);
    assert((4097 * (2 * r - 1)) * (4097 * (2 * r - 1)) == 16_785_409 * ((2 * r - 1) * (2 * r - 1)))
        by (nonlinear_arith);
    assert((4096 * (2 * r + 1)) * (4096 * (2 * r + 1)) == 16_777_216 * ((2 * r + 1) * (2 * r + 1)))
        by (nonlinear_arith);
}

} // verus!
