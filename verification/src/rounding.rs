//! Rounding the way double-precision arithmetic rounds, carried out in whole
//! numbers: a double is a 53-bit whole number times a power of two, and every
//! operation gives the double nearest to the exact result, ties going to the
//! even one.
use vstd::prelude::*;

verus! {

/// Half of the range of a 53-bit number: a double's leading bit.
pub const LEADING_BIT: u128 = 0x10_0000_0000_0000;

/// One past the largest 53-bit number.
pub const PRECISION: u128 = 0x20_0000_0000_0000;

// ---------------------------------------------------------------------------
// Models
// ---------------------------------------------------------------------------

/// `n / d` to the nearest whole number, ties to the even one.
pub open spec fn half_even(n: nat, d: nat) -> nat {
    let q = n / d;
    let r = n % d;
    if 2 * r < d || (2 * r == d && q % 2 == 0) {
        q
    } else {
        q + 1
    }
}

/// `n / d` to the nearest whole number, ties upwards.
pub open spec fn half_up(n: nat, d: nat) -> nat {
    (2 * n + d) / (2 * d)
}

/// The smallest power of two that brings `n` up to `bound`.
pub open spec fn magnified(n: nat, bound: nat) -> nat
    decreases
            if n < bound {
                bound - n
            } else {
                0
            },
{
    if n == 0 || n >= bound {
        1
    } else {
        2 * magnified(2 * n, bound)
    }
}

/// The smallest power of two that brings `n` down below `bound`.
pub open spec fn reduced(n: nat, bound: nat) -> nat
    decreases n,
{
    if n < bound || n == 0 {
        1
    } else {
        2 * reduced(n / 2, bound)
    }
}

/// The double nearest to a whole number.
pub open spec fn nearest(n: nat) -> nat {
    let unit = reduced(n, PRECISION as nat);
    half_even(n, unit) * unit
}

/// The double nearest to `a / b`, as a whole number over a power of two.
pub open spec fn quotient(a: nat, b: nat) -> (nat, nat) {
    let unit = magnified(a, b * LEADING_BIT as nat);
    (half_even(a * unit, b), unit)
}

/// The double nearest to `n` times `ratio`, to the nearest whole number.
pub open spec fn scaled(n: nat, ratio: (nat, nat)) -> nat {
    half_up(nearest(n * ratio.0), ratio.1)
}

// ---------------------------------------------------------------------------
// How far rounding moves a number
// ---------------------------------------------------------------------------

pub proof fn lemma_half_even(n: nat, d: nat)
    requires
        d > 0,
    ensures
        2 * d * half_even(n, d) <= 2 * n + d,
        2 * n <= 2 * d * half_even(n, d) + d,
{
    let q = n / d;
    let r = n % d;
    vstd::arithmetic::div_mod::lemma_fundamental_div_mod(n as int, d as int);
    assert(n == d * q + r);
    assert(r < d);
    assert(2 * d * (q + 1) == 2 * (d * q) + 2 * d) by (nonlinear_arith);
    assert(2 * d * q == 2 * (d * q)) by (nonlinear_arith);
}

/// Rounding never carries a quotient past a whole number above it.
pub proof fn lemma_half_even_at_most(n: nat, d: nat, bound: nat)
    requires
        d > 0,
        n <= d * bound,
    ensures
        half_even(n, d) <= bound,
{
    let q = n / d;
    let r = n % d;
    vstd::arithmetic::div_mod::lemma_fundamental_div_mod(n as int, d as int);
    if q >= bound + 1 {
        assert(d * q >= d * (bound + 1)) by (nonlinear_arith)
            requires
                q >= bound + 1,
        ;
        assert(d * (bound + 1) == d * bound + d) by (nonlinear_arith);
    }
    if q == bound {
        assert(r == 0);
    }
}

/// Rounding never carries a quotient below a whole number under it.
pub proof fn lemma_half_even_at_least(n: nat, d: nat, bound: nat)
    requires
        d > 0,
        n >= d * bound,
    ensures
        half_even(n, d) >= bound,
{
    let q = n / d;
    vstd::arithmetic::div_mod::lemma_fundamental_div_mod(n as int, d as int);
    if q < bound {
        assert(d * (q + 1) <= d * bound) by (nonlinear_arith)
            requires
                q < bound,
        ;
        assert(d * (q + 1) == d * q + d) by (nonlinear_arith);
    }
}

pub proof fn lemma_magnified(n: nat, bound: nat)
    requires
        n > 0,
    ensures
        magnified(n, bound) >= 1,
        n * magnified(n, bound) >= bound,
        magnified(n, bound) == 1 || n * magnified(n, bound) < 2 * bound,
    decreases
            if n < bound {
                bound - n
            } else {
                0
            },
{
    if n < bound {
        lemma_magnified(2 * n, bound);
        let m = magnified(2 * n, bound);
        assert((2 * n) * m == n * (2 * m)) by (nonlinear_arith);
    }
}

pub proof fn lemma_reduced(n: nat, bound: nat)
    requires
        bound > 0,
    ensures
        reduced(n, bound) >= 1,
        n < reduced(n, bound) * bound,
        reduced(n, bound) == 1 || reduced(n, bound) * bound <= 2 * n,
    decreases n,
{
    if n >= bound {
        lemma_reduced(n / 2, bound);
        let u = reduced(n / 2, bound);
        assert((2 * u) * bound == 2 * (u * bound)) by (nonlinear_arith);
        if u == 1 {
            assert(u * bound == bound);
        }
    }
}

/// A whole number and the double nearest to it differ by at most one part in
/// 2^53.
pub proof fn lemma_nearest(n: nat)
    ensures
        nearest(n) * PRECISION <= n * PRECISION + n,
        n * PRECISION <= nearest(n) * PRECISION + n,
        n < PRECISION ==> nearest(n) == n,
{
    let p = PRECISION as nat;
    let u = reduced(n, p);
    lemma_reduced(n, p);
    lemma_half_even(n, u);
    let h = half_even(n, u);
    assert(2 * u * h == 2 * (h * u)) by (nonlinear_arith);
    if u == 1 {
        assert(half_even(n, 1) == n) by {
            assert(n / 1 == n && n % 1 == 0);
        }
        assert(h * u == n);
        assert(n * p <= n * p + n);
    } else {
        // 2 * nearest <= 2n + u  and  u * p <= 2n
        assert(2 * (h * u) * p <= (2 * n + u) * p) by (nonlinear_arith)
            requires
                2 * (h * u) <= 2 * n + u,
                p > 0,
        ;
        assert((2 * n + u) * p == 2 * (n * p) + u * p) by (nonlinear_arith);
        assert(2 * (h * u) * p == 2 * ((h * u) * p)) by (nonlinear_arith);
        assert(2 * n * p <= (2 * (h * u) + u) * p) by (nonlinear_arith)
            requires
                2 * n <= 2 * (h * u) + u,
                p > 0,
        ;
        assert((2 * (h * u) + u) * p == 2 * ((h * u) * p) + u * p) by (nonlinear_arith);
        assert(2 * n * p == 2 * (n * p)) by (nonlinear_arith);
    }
}

/// Scaling by `a / b` stays at or under any whole number that the exact result
/// stays at or under.
pub proof fn lemma_scaled_at_most(n: nat, a: nat, b: nat, m: nat)
    requires
        a > 0,
        b > 0,
        n * a <= m * b,
        m <= u32::MAX,
    ensures
        scaled(n, quotient(a, b)) <= m,
{
    let l = LEADING_BIT as nat;
    let k = PRECISION as nat;
    let p = magnified(a, b * l);
    let q = half_even(a * p, b);
    let v = nearest(n * q);
    lemma_magnified(a, b * l);
    lemma_half_even(a * p, b);
    lemma_nearest(n * q);
    lemma_reach(n, a, b, m, p);
    // 2vk <= 2(nq)(k + 1), so 2vkb <= n(2bq)(k + 1) <= b(2mp + n)(k + 1)
    assert(2 * (v * k) * b <= (b * (2 * (m * p) + n)) * (k + 1)) by (nonlinear_arith)
        requires
            v * k <= (n * q) * k + n * q,
            2 * b * q <= 2 * (a * p) + b,
            n * a <= m * b,
            k > 0,
            b > 0,
    {
        assert(2 * (v * k) * b <= 2 * ((n * q) * (k + 1)) * b);
        assert(2 * ((n * q) * (k + 1)) * b == n * (2 * b * q) * (k + 1));
        assert(n * (2 * b * q) <= n * (2 * (a * p) + b));
        assert(n * (2 * (a * p) + b) == 2 * ((n * a) * p) + n * b);
        assert((n * a) * p <= (m * b) * p);
        assert(2 * ((m * b) * p) + n * b == b * (2 * (m * p) + n));
        assert(n * (2 * b * q) * (k + 1) <= (b * (2 * (m * p) + n)) * (k + 1));
    }
    assert(2 * (v * k) <= (2 * (m * p) + n) * (k + 1)) by (nonlinear_arith)
        requires
            2 * (v * k) * b <= (b * (2 * (m * p) + n)) * (k + 1),
            b > 0,
    ;
    assert((2 * (m * p) + n) * (k + 1) < 2 * (m * p) * k + p * k) by (nonlinear_arith)
        requires
            n * l <= m * p,
            k == 2 * l,
            l == 0x10_0000_0000_0000,
            m <= 0xffff_ffff,
            p >= 1,
    {
        assert(n * (k + 1) <= 4 * (n * l));
        assert(m * p <= 0xffff_ffff * p);
    }
    assert(2 * v < 2 * (m * p) + p) by (nonlinear_arith)
        requires
            2 * (v * k) < 2 * (m * p) * k + p * k,
            k > 0,
    ;
    assert((2 * v + p) / (2 * p) <= m) by (nonlinear_arith)
        requires
            2 * v < 2 * (m * p) + p,
            p >= 1,
    {
        assert(2 * v + p < (2 * p) * (m + 1));
    }
}

/// Scaling by `a / b` stays at or over the whole number just under the exact
/// result.
pub proof fn lemma_scaled_at_least(n: nat, a: nat, b: nat, m: nat)
    requires
        a > 0,
        b > 0,
        m * b <= n * a <= (m + 1) * b,
        m <= u32::MAX,
    ensures
        scaled(n, quotient(a, b)) >= m,
{
    let l = LEADING_BIT as nat;
    let k = PRECISION as nat;
    let p = magnified(a, b * l);
    let q = half_even(a * p, b);
    let v = nearest(n * q);
    let t = m + 1;
    lemma_magnified(a, b * l);
    lemma_half_even(a * p, b);
    lemma_nearest(n * q);
    lemma_reach(n, a, b, t, p);
    assert(2 * (m * p) * b <= n * (2 * b * q) + n * b) by (nonlinear_arith)
        requires
            2 * (a * p) <= 2 * b * q + b,
            m * b <= n * a,
    {
        assert(n * (2 * (a * p)) <= n * (2 * b * q + b));
        assert(n * (2 * (a * p)) == 2 * ((n * a) * p));
        assert((m * b) * p <= (n * a) * p);
        assert(2 * ((m * b) * p) == 2 * (m * p) * b);
    }
    assert(2 * (m * p) <= 2 * (n * q) + n) by (nonlinear_arith)
        requires
            2 * (m * p) * b <= n * (2 * b * q) + n * b,
            b > 0,
    {
        assert(n * (2 * b * q) + n * b == (2 * (n * q) + n) * b);
    }
    // (nq)k <= vk + nq, and nq is within reach of tp
    assert(2 * (n * q) <= 2 * (t * p) + n) by (nonlinear_arith)
        requires
            2 * b * q <= 2 * (a * p) + b,
            n * a <= t * b,
            b > 0,
    {
        assert(n * (2 * b * q) <= n * (2 * (a * p) + b));
        assert(n * (2 * (a * p) + b) == 2 * ((n * a) * p) + n * b);
        assert((n * a) * p <= (t * b) * p);
        assert(2 * ((t * b) * p) + n * b == (2 * (t * p) + n) * b);
        assert(n * (2 * b * q) == (2 * (n * q)) * b);
    }
    assert(2 * (m * p) <= 2 * v + p) by (nonlinear_arith)
        requires
            2 * (m * p) <= 2 * (n * q) + n,
            2 * (n * q) <= 2 * (t * p) + n,
            (n * q) * k <= v * k + n * q,
            n * l <= t * p,
            k == 2 * l,
            l == 0x10_0000_0000_0000,
            t <= 0x1_0000_0000,
            p >= 1,
    {
        assert(2 * (m * p) * k <= 2 * ((n * q) * k) + n * k);
        assert(2 * ((n * q) * k) <= 2 * (v * k) + 2 * (n * q));
        assert(n * k == 2 * (n * l));
        assert(t * p <= 0x1_0000_0000 * p);
        assert(n <= t * p);
        assert(2 * (m * p) * k <= 2 * (v * k) + 6 * (t * p));
        assert(2 * (m * p) * k <= (2 * v + p) * k);
    }
    assert((2 * v + p) / (2 * p) >= m) by (nonlinear_arith)
        requires
            2 * (m * p) <= 2 * v + p,
            p >= 1,
    {
        assert((2 * p) * m <= 2 * v + p);
    }
}

/// Scaling by `a / b` gives a whole number exactly where the exact result is one.
pub proof fn lemma_scaled_exact(n: nat, a: nat, b: nat, m: nat)
    requires
        a > 0,
        b > 0,
        n * a == m * b,
        m <= u32::MAX,
    ensures
        scaled(n, quotient(a, b)) == m,
{
    assert((m + 1) * b == m * b + b) by (nonlinear_arith);
    lemma_scaled_at_most(n, a, b, m);
    lemma_scaled_at_least(n, a, b, m);
}

proof fn lemma_reach(n: nat, a: nat, b: nat, m: nat, p: nat)
    requires
        a > 0,
        b > 0,
        n * a <= m * b,
        b * LEADING_BIT <= a * p,
    ensures
        n * LEADING_BIT <= m * p,
{
    let l = LEADING_BIT as nat;
    assert(n * l <= m * p) by (nonlinear_arith)
        requires
            a > 0,
            n * a <= m * b,
            b * l <= a * p,
    {
        assert((n * a) * l <= (m * b) * l);
        assert(m * (b * l) <= m * (a * p));
        assert((n * l) * a <= (m * p) * a);
    }
}

// ---------------------------------------------------------------------------
// Arithmetic
// ---------------------------------------------------------------------------

/// `n / d` to the nearest whole number, ties to the even one.
pub fn div_half_even(n: u128, d: u128) -> (q: u128)
    requires
        0 < d <= u128::MAX / 2,
        n < u128::MAX,
    ensures
        q == half_even(n as nat, d as nat),
{
    let q = n / d;
    let r = n % d;
    proof {
        assert(n as nat / d as nat <= n as nat) by {
            vstd::arithmetic::div_mod::lemma_div_is_ordered_by_denominator(
                n as int,
                1,
                d as int,
            );
        }
    }
    if 2 * r < d || (2 * r == d && q % 2 == 0) {
        q
    } else {
        q + 1
    }
}

/// The double nearest to a whole number.
pub fn nearest_double(n: u128) -> (out: u128)
    requires
        n < 0x1_0000_0000_0000_0000_0000_0000,
    ensures
        out == nearest(n as nat),
        out <= 2 * n,
{
    let mut unit: u128 = 1;
    let mut rest: u128 = n;
    while rest >= PRECISION
        invariant
            n < 0x1_0000_0000_0000_0000_0000_0000,
            1 <= unit,
            rest * unit <= n,
            unit * reduced(rest as nat, PRECISION as nat) == reduced(n as nat, PRECISION as nat),
        decreases rest,
    {
        let ghost before = reduced(rest as nat, PRECISION as nat);
        let ghost half = reduced((rest / 2) as nat, PRECISION as nat);
        proof {
            assert(before == 2 * half);
            assert(unit * (2 * half) == (2 * unit) * half) by (nonlinear_arith);
            assert((rest / 2) * (2 * unit) <= rest * unit) by (nonlinear_arith)
                requires
                    2 * (rest / 2) <= rest,
                    unit >= 1,
            ;
            assert(unit <= rest * unit) by (nonlinear_arith)
                requires
                    rest >= 1,
                    unit >= 1,
            ;
        }
        rest = rest / 2;
        unit = unit * 2;
    }
    proof {
        assert(unit * 1 == unit);
        lemma_reduced(n as nat, PRECISION as nat);
        lemma_half_even(n as nat, unit as nat);
        lemma_nearest(n as nat);
        lemma_half_even_at_most(n as nat, unit as nat, PRECISION as nat);
    }
    let q = div_half_even(n, unit);
    proof {
        assert(2 * (unit as nat) * (q as nat) == 2 * (q * unit)) by (nonlinear_arith);
        if unit > 1 {
            assert(unit <= 2 * n) by {
                assert(unit * PRECISION >= unit) by (nonlinear_arith)
                    requires
                        PRECISION >= 1,
                ;
            }
        } else {
            assert(q == n) by {
                assert(n as nat / 1 == n && n as nat % 1 == 0);
            }
        }
    }
    q * unit
}

/// The double nearest to `a / b`, as a whole number over a power of two.
pub fn divide(a: u32, b: u32) -> (ratio: (u128, u128))
    requires
        a > 0,
        b > 0,
    ensures
        (ratio.0 as nat, ratio.1 as nat) == quotient(a as nat, b as nat),
        0 < ratio.0 <= PRECISION,
        0 < ratio.1 <= 0x8000_0000_0000_0000_0000_0000,
{
    let floor: u128 = b as u128 * LEADING_BIT;
    let ghost bound: nat = b as nat * LEADING_BIT as nat;
    let mut n: u128 = a as u128;
    let mut unit: u128 = 1;
    while n < floor
        invariant
            n > 0,
            unit >= 1,
            floor == bound,
            floor <= 0xffff_ffff * LEADING_BIT,
            n == a * unit,
            unit * magnified(n as nat, bound) == magnified(a as nat, bound),
            unit <= n,
            n < 2 * floor,
        decreases
                if n < floor {
                    floor - n
                } else {
                    0
                },
    {
        proof {
            let m = magnified((2 * n) as nat, bound);
            assert(unit * (2 * m) == (2 * unit) * m) by (nonlinear_arith);
            assert(2 * (a * unit) == a * (2 * unit)) by (nonlinear_arith);
        }
        n = n * 2;
        unit = unit * 2;
    }
    proof {
        lemma_magnified(a as nat, bound);
        assert(magnified(n as nat, bound) == 1);
        assert(unit * 1 == unit);
        lemma_half_even(n as nat, b as nat);
        lemma_half_even_at_least(n as nat, b as nat, LEADING_BIT as nat);
        lemma_half_even_at_most(n as nat, b as nat, PRECISION as nat);
    }
    let q = div_half_even(n, b as u128);
    (q, unit)
}

/// `n` scaled by a ratio, to the nearest whole number.
pub fn scale(n: u32, ratio: (u128, u128)) -> (out: u128)
    requires
        0 < ratio.0 <= PRECISION,
        0 < ratio.1 <= 0x8000_0000_0000_0000_0000_0000,
    ensures
        out == scaled(n as nat, (ratio.0 as nat, ratio.1 as nat)),
{
    assert(n * ratio.0 <= 0xffff_ffff * PRECISION) by (nonlinear_arith)
        requires
            ratio.0 <= PRECISION,
            n <= 0xffff_ffff,
    ;
    let product = nearest_double(n as u128 * ratio.0);
    (2 * product + ratio.1) / (2 * ratio.1)
}

/// Rounding goes to the nearest whole number, and to the even one where two are as
/// near.
pub proof fn rounding_goes_to_the_nearest(n: nat, d: nat)
    requires
        d > 0,
    ensures
        2 * (d * half_even(n, d)) <= 2 * n + d,
        2 * n <= 2 * (d * half_even(n, d)) + d,
        2 * (d * half_even(n, d)) == 2 * n + d || 2 * n == 2 * (d * half_even(n, d)) + d
            ==> half_even(n, d) % 2 == 0,
{
    let q = n / d;
    let r = n % d;
    vstd::arithmetic::div_mod::lemma_fundamental_div_mod(n as int, d as int);
    assert(n == d * q + r);
    assert(d * (q + 1) == d * q + d) by (nonlinear_arith);
}

/// A whole number that a double holds is its own nearest double.
pub proof fn what_a_double_holds_is_exact(n: nat)
    requires
        n < 0x20_0000_0000_0000,
    ensures
        nearest(n) == n,
{
    assert(reduced(n, PRECISION as nat) == 1);
    assert(n / 1 == n && n % 1 == 0);
}

} // verus!
