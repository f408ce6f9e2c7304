//! Fixed-point arithmetic in rays (units of 10^27) and the mining formulas
//! built on it.
use crate::constants::{
    pi, pi_div_12, pi_div_12_value, pi_div_2, pi_div_2_value, pi_div_4, pi_div_4_value, pi_value,
    point_2, point_2_value, point_4, point_4_value, point_8, point_8_value,
};
use crate::digits::pow256;
use crate::types::pool_type::{DP, ISP, USP};
use crate::types::{
    pool_info_fits, update_share_fits, pool_info_ok, pool_info_spec, update_share_ok, update_share_spec, MineParams, MineParamsView, PoolData,
    PoolInfo, PoolInfoView,
};
use crate::u256::{lemma_div_unique, u256_max, U256};
use vstd::prelude::*;

verus! {

/// One ray: `10^27`.
pub open spec fn ray() -> nat {
    1_000_000_000_000_000_000_000_000_000
}

/// Half a ray: `5 * 10^26`.
pub open spec fn half_ray() -> nat {
    500_000_000_000_000_000_000_000_000
}

/// `a * b` in rays, rounded half up.
pub open spec fn ray_mul_spec(a: nat, b: nat) -> nat {
    (a * b + half_ray()) / ray()
}

/// `ray_mul` does not overflow on these arguments.
pub open spec fn ray_mul_ok(a: nat, b: nat) -> bool {
    a == 0 || b == 0 || a * b + half_ray() <= u256_max()
}

/// `a / b` in rays, rounded half up.
pub open spec fn ray_div_spec(a: nat, b: nat) -> nat {
    (a * ray() + b / 2) / b
}

/// `ray_div` neither divides by zero nor overflows on these arguments.
pub open spec fn ray_div_ok(a: nat, b: nat) -> bool {
    b > 0 && a * ray() + b / 2 <= u256_max()
}

pub proof fn lemma_u256_max_value()
    ensures
        u256_max() == 115792089237316195423570985008687907853269984665640564039457584007913129639935nat,
{
    reveal_with_fuel(pow256, 33);
}

/// Fixed-point operations on `U256` in units of `10^27`.
pub struct RayMath;

impl RayMath {
    /// `10^27`.
    pub fn ray() -> (r: U256)
        ensures
            r.value() == ray(),
            r.wf(),
    {
        proof {
            reveal_with_fuel(vstd::arithmetic::power::pow, 28);
            lemma_u256_max_value();
        }
        U256::from_u64(10).pow(27)
    }

    /// `5 * 10^26`.
    pub fn half_ray() -> (r: U256)
        ensures
            r.value() == half_ray(),
            r.wf(),
    {
        proof {
            reveal_with_fuel(vstd::arithmetic::power::pow, 27);
            lemma_u256_max_value();
        }
        U256::from_u64(10).pow(26).mul(&U256::from_u64(5))
    }

    /// `a * b / 10^27`, rounded half up. Defined while `a * b + 10^27 / 2`
    /// stays within `2^256 - 1`, which `ray_mul_fits` tests.
    pub fn ray_mul(a: &U256, b: &U256) -> (r: U256)
        requires
            a.wf(),
            b.wf(),
            ray_mul_ok(a.value(), b.value()),
        ensures
            r.value() == ray_mul_spec(a.value(), b.value()),
            r.wf(),
    {
        if a.is_zero() || b.is_zero() {
            proof {
                assert(a.value() * b.value() == 0) by (nonlinear_arith)
                    requires
                        a.value() == 0 || b.value() == 0,
                ;
            }
            return U256::zero();
        }
        let h = RayMath::half_ray();
        let prod = a.mul(b);
        let sum = prod.add(&h);
        sum.div(&RayMath::ray())
    }

    /// `a * 10^27 / b`, rounded half up. Defined for a nonzero `b` while
    /// `a * 10^27 + b / 2` stays within `2^256 - 1`, which `ray_div_fits` tests.
    pub fn ray_div(a: &U256, b: &U256) -> (r: U256)
        requires
            a.wf(),
            b.wf(),
            ray_div_ok(a.value(), b.value()),
        ensures
            r.value() == ray_div_spec(a.value(), b.value()),
            r.wf(),
    {
        let two = U256::from_u64(2);
        let half_b = b.div(&two);
        let scaled = a.mul(&RayMath::ray());
        let sum = scaled.add(&half_b);
        sum.div(b)
    }
}

/// Whether `ray_mul(a, b)` fits in 256 bits.
pub fn ray_mul_fits(a: &U256, b: &U256) -> (r: bool)
    requires
        a.wf(),
        b.wf(),
    ensures
        r == ray_mul_ok(a.value(), b.value()),
{
    if a.is_zero() || b.is_zero() {
        return true;
    }
    a.fits_mul(b) && a.mul(b).fits_add(&RayMath::half_ray())
}

/// Whether `ray_div(a, b)` has a nonzero divisor and fits in 256 bits.
pub fn ray_div_fits(a: &U256, b: &U256) -> (r: bool)
    requires
        a.wf(),
        b.wf(),
    ensures
        r == ray_div_ok(a.value(), b.value()),
{
    if b.is_zero() {
        return false;
    }
    let e27 = RayMath::ray();
    a.fits_mul(&e27) && a.mul(&e27).fits_add(&b.div(&U256::from_u64(2)))
}

/// `x^n` in rays, each factor applied with `ray_mul` from `10^27`.
pub open spec fn ray_pow_spec(x: nat, n: nat) -> nat
    decreases n,
{
    if n == 0 {
        ray()
    } else {
        ray_mul_spec(ray_pow_spec(x, (n - 1) as nat), x)
    }
}

/// No step of `ray_pow(x, n)` overflows.
pub open spec fn ray_pow_ok(x: nat, n: nat) -> bool
    decreases n,
{
    if n == 0 {
        true
    } else {
        ray_pow_ok(x, (n - 1) as nat) && ray_mul_ok(ray_pow_spec(x, (n - 1) as nat), x)
    }
}

/// `x^y` in rays by `y` rounded multiplications.
pub fn ray_pow(x: &U256, y: u32) -> (r: U256)
    requires
        x.wf(),
        ray_pow_ok(x.value(), y as nat),
    ensures
        r.value() == ray_pow_spec(x.value(), y as nat),
        r.wf(),
{
    let mut z = RayMath::ray();
    let mut i: u32 = 0;
    while i < y
        invariant
            i <= y,
            x.wf(),
            z.wf(),
            z.value() == ray_pow_spec(x.value(), i as nat),
            ray_pow_ok(x.value(), y as nat),
        decreases y - i,
    {
        proof {
            lemma_ray_pow_ok_prefix(x.value(), (i + 1) as nat, y as nat);
        }
        z = RayMath::ray_mul(&z, x);
        i = i + 1;
    }
    z
}

pub proof fn lemma_ray_pow_ok_prefix(x: nat, m: nat, n: nat)
    requires
        m <= n,
        ray_pow_ok(x, n),
    ensures
        ray_pow_ok(x, m),
    decreases n,
{
    if m < n {
        lemma_ray_pow_ok_prefix(x, m, (n - 1) as nat);
    }
}

/// `n!`.
pub open spec fn factorial(n: nat) -> nat
    decreases n,
{
    if n == 0 {
        1
    } else {
        n * factorial((n - 1) as nat)
    }
}

pub proof fn lemma_factorial_monotone(m: nat, n: nat)
    requires
        m <= n,
    ensures
        1 <= factorial(m) <= factorial(n),
    decreases n,
{
    if n == 0 {
    } else if m == n {
        lemma_factorial_positive(n);
    } else {
        lemma_factorial_monotone(m, (n - 1) as nat);
        let f = factorial((n - 1) as nat);
        assert(n * f >= f) by (nonlinear_arith)
            requires
                n >= 1,
                f >= 1,
        ;
    }
}

pub proof fn lemma_factorial_positive(n: nat)
    ensures
        factorial(n) >= 1,
    decreases n,
{
    if n > 0 {
        lemma_factorial_positive((n - 1) as nat);
        let f = factorial((n - 1) as nat);
        assert(n * f >= 1) by (nonlinear_arith)
            requires
                n >= 1,
                f >= 1,
        ;
    }
}

/// `u!`, for `u` up to 20, where it still fits in a `u64`.
pub fn fac(u: u64) -> (r: u64)
    requires
        factorial(u as nat) <= u64::MAX,
    ensures
        r == factorial(u as nat),
{
    let mut r: u64 = 1;
    let mut i: u64 = 0;
    while i < u
        invariant
            i <= u,
            r == factorial(i as nat),
            factorial(u as nat) <= u64::MAX,
        decreases u - i,
    {
        proof {
            lemma_factorial_monotone((i + 1) as nat, u as nat);
            assert(factorial((i + 1) as nat) == (i + 1) * factorial(i as nat));
        }
        i = i + 1;
        r = r * i;
    }
    r
}

/// `x^(2k+1)` in rays as the sine series computes it: `x` itself, then
/// `ray_pow(x, 3)`, then two more rounded factors of `x` per step.
pub open spec fn odd_power(x: nat, k: nat) -> nat
    decreases k,
{
    if k == 0 {
        x
    } else if k == 1 {
        ray_pow_spec(x, 3)
    } else {
        ray_mul_spec(ray_mul_spec(odd_power(x, (k - 1) as nat), x), x)
    }
}

/// No multiplication up to `odd_power(x, k)` overflows.
pub open spec fn odd_powers_ok(x: nat, k: nat) -> bool
    decreases k,
{
    if k <= 1 {
        ray_pow_ok(x, 3)
    } else {
        &&& odd_powers_ok(x, (k - 1) as nat)
        &&& ray_mul_ok(odd_power(x, (k - 1) as nat), x)
        &&& ray_mul_ok(ray_mul_spec(odd_power(x, (k - 1) as nat), x), x)
    }
}

/// The `k`-th term of the series for `sin x`, without its sign.
pub open spec fn sin_term(x: nat, k: nat) -> nat {
    odd_power(x, k) / factorial(2 * k + 1)
}

/// The terms that the series adds: `x - x^3/3! + x^5/5! - ...` taken up to `x^19/19!`.
pub open spec fn sin_plus_terms(x: nat) -> nat {
    sin_term(x, 0) + sin_term(x, 2) + sin_term(x, 4) + sin_term(x, 6) + sin_term(x, 8)
}

/// The terms that the series subtracts.
pub open spec fn sin_minus_terms(x: nat) -> nat {
    sin_term(x, 1) + sin_term(x, 3) + sin_term(x, 5) + sin_term(x, 7) + sin_term(x, 9)
}

/// `add + sin x` (or `add - sin x` when `inverse`), truncated at zero.
pub open spec fn sinx_and_add_spec(x: nat, add: nat, inverse: bool) -> nat {
    let pos = if inverse { add + sin_minus_terms(x) } else { add + sin_plus_terms(x) };
    let neg = if inverse { sin_plus_terms(x) } else { sin_minus_terms(x) };
    if pos >= neg {
        (pos - neg) as nat
    } else {
        0
    }
}

/// No step of `sinx_and_add` overflows.
pub open spec fn sinx_and_add_ok(x: nat, add: nat, inverse: bool) -> bool {
    &&& odd_powers_ok(x, 9)
    &&& if inverse {
        add + sin_minus_terms(x) <= u256_max()
    } else {
        add + sin_plus_terms(x) <= u256_max()
    }
}

pub proof fn lemma_odd_powers_ok_prefix(x: nat, m: nat, n: nat)
    requires
        m <= n,
        odd_powers_ok(x, n),
    ensures
        odd_powers_ok(x, m),
    decreases n,
{
    if m < n && n > 1 {
        lemma_odd_powers_ok_prefix(x, m, (n - 1) as nat);
    }
}

proof fn lemma_factorial_19()
    ensures
        factorial(19) == 121645100408832000,
{
    reveal_with_fuel(factorial, 20);
}

/// The next odd power from the previous one.
fn next_odd_power(p: &U256, x: &U256, k: Ghost<nat>) -> (r: U256)
    requires
        p.wf(),
        x.wf(),
        k@ >= 2,
        p.value() == odd_power(x.value(), (k@ - 1) as nat),
        odd_powers_ok(x.value(), k@),
    ensures
        r.wf(),
        r.value() == odd_power(x.value(), k@),
{
    let q = RayMath::ray_mul(p, x);
    RayMath::ray_mul(&q, x)
}

/// `p / n!`.
fn div_factorial(p: &U256, n: u64) -> (r: U256)
    requires
        p.wf(),
        n <= 19,
    ensures
        r.wf(),
        r.value() == p.value() / factorial(n as nat),
{
    proof {
        lemma_factorial_19();
        lemma_factorial_monotone(n as nat, 19);
    }
    let f = U256::from_u64(fac(n));
    p.div(&f)
}

/// `add + sin x`, or `add - sin x` when `inverse`, by the first ten terms of
/// the Taylor series in rays; a negative result is returned as zero.
pub fn sinx_and_add(x: &U256, add: &U256, inverse: bool) -> (r: U256)
    requires
        x.wf(),
        add.wf(),
        sinx_and_add_ok(x.value(), add.value(), inverse),
    ensures
        r.wf(),
        r.value() == sinx_and_add_spec(x.value(), add.value(), inverse),
{
    let ghost xv = x.value();
    proof {
        lemma_odd_powers_ok_prefix(xv, 1, 9);
    }
    let power_3 = ray_pow(x, 3);
    proof {
        lemma_odd_powers_ok_prefix(xv, 2, 9);
    }
    let power_5 = next_odd_power(&power_3, x, Ghost(2));
    proof {
        lemma_odd_powers_ok_prefix(xv, 3, 9);
    }
    let power_7 = next_odd_power(&power_5, x, Ghost(3));
    proof {
        lemma_odd_powers_ok_prefix(xv, 4, 9);
    }
    let power_9 = next_odd_power(&power_7, x, Ghost(4));
    proof {
        lemma_odd_powers_ok_prefix(xv, 5, 9);
    }
    let power_11 = next_odd_power(&power_9, x, Ghost(5));
    proof {
        lemma_odd_powers_ok_prefix(xv, 6, 9);
    }
    let power_13 = next_odd_power(&power_11, x, Ghost(6));
    proof {
        lemma_odd_powers_ok_prefix(xv, 7, 9);
    }
    let power_15 = next_odd_power(&power_13, x, Ghost(7));
    proof {
        lemma_odd_powers_ok_prefix(xv, 8, 9);
    }
    let power_17 = next_odd_power(&power_15, x, Ghost(8));
    let power_19 = next_odd_power(&power_17, x, Ghost(9));

    let p1 = x.clone();
    let p2 = div_factorial(&power_3, 3);
    let p3 = div_factorial(&power_5, 5);
    let p4 = div_factorial(&power_7, 7);
    let p5 = div_factorial(&power_9, 9);
    let p6 = div_factorial(&power_11, 11);
    let p7 = div_factorial(&power_13, 13);
    let p8 = div_factorial(&power_15, 15);
    let p9 = div_factorial(&power_17, 17);
    let p10 = div_factorial(&power_19, 19);
    proof {
        reveal_with_fuel(factorial, 2);
        assert(factorial(1) == 1);
        assert(xv / 1 == xv);
        assert(p1.value() == sin_term(xv, 0));
        assert(p2.value() == sin_term(xv, 1));
        assert(p3.value() == sin_term(xv, 2));
        assert(p4.value() == sin_term(xv, 3));
        assert(p5.value() == sin_term(xv, 4));
        assert(p6.value() == sin_term(xv, 5));
        assert(p7.value() == sin_term(xv, 6));
        assert(p8.value() == sin_term(xv, 7));
        assert(p9.value() == sin_term(xv, 8));
        assert(p10.value() == sin_term(xv, 9));
    }
    if !inverse {
        let ret = add.add(&p1).add(&p3).add(&p5).add(&p7).add(&p9);
        saturating_chain(&ret, &p2, &p4, &p6, &p8, &p10)
    } else {
        let ret = add.add(&p2).add(&p4).add(&p6).add(&p8).add(&p10);
        saturating_chain(&ret, &p1, &p3, &p5, &p7, &p9)
    }
}

/// `s - a - b - c - d - e`, or zero as soon as a step would go below zero.
fn saturating_chain(s: &U256, a: &U256, b: &U256, c: &U256, d: &U256, e: &U256) -> (r: U256)
    requires
        s.wf(),
        a.wf(),
        b.wf(),
        c.wf(),
        d.wf(),
        e.wf(),
    ensures
        r.wf(),
        r.value() == if s.value() >= a.value() + b.value() + c.value() + d.value() + e.value() {
            (s.value() - (a.value() + b.value() + c.value() + d.value() + e.value())) as nat
        } else {
            0
        },
{
    if s.lt(a) {
        return U256::zero();
    }
    let ret = s.sub(a);
    if ret.lt(b) {
        return U256::zero();
    }
    let ret = ret.sub(b);
    if ret.lt(c) {
        return U256::zero();
    }
    let ret = ret.sub(c);
    if ret.lt(d) {
        return U256::zero();
    }
    let ret = ret.sub(d);
    if ret.lt(e) {
        return U256::zero();
    }
    ret.sub(e)
}

/// `2^n`.
pub open spec fn two_pow(n: nat) -> nat
    decreases n,
{
    if n == 0 {
        1
    } else {
        2 * two_pow((n - 1) as nat)
    }
}

proof fn lemma_two_pow_monotone(m: nat, n: nat)
    requires
        m <= n,
    ensures
        1 <= two_pow(m) <= two_pow(n),
    decreases n,
{
    if n > 0 && m < n {
        lemma_two_pow_monotone(m, (n - 1) as nat);
    } else if n > 0 {
        lemma_two_pow_monotone((n - 1) as nat, (n - 1) as nat);
    }
}

/// For a multiplier of at most two rays, `ray_mul` at most doubles.
proof fn lemma_ray_mul_at_most_double(z: nat, x: nat)
    requires
        x <= 2 * ray(),
    ensures
        ray_mul_spec(z, x) <= 2 * z,
{
    assert(z * x <= 2 * z * ray()) by (nonlinear_arith)
        requires
            x <= 2 * ray(),
    ;
    lemma_div_unique((2 * z * ray() + half_ray()) as int, ray() as int, (2 * z) as int, half_ray() as int);
    vstd::arithmetic::div_mod::lemma_div_is_ordered(
        (z * x + half_ray()) as int,
        (2 * z * ray() + half_ray()) as int,
        ray() as int,
    );
}

proof fn lemma_ray_mul_ok_small(z: nat, x: nat)
    requires
        x <= 2 * ray(),
        z <= 2 * two_pow(19) * ray(),
    ensures
        ray_mul_ok(z, x),
{
    reveal_with_fuel(two_pow, 20);
    lemma_u256_max_value();
    assert(two_pow(19) == 524288);
    let b: nat = 1048576 * ray();
    assert(z * x <= b * (2 * ray())) by (nonlinear_arith)
        requires
            x <= 2 * ray(),
            z <= b,
    ;
    assert(b * (2 * ray()) + half_ray() <= u256_max());
}

/// For `x` of at most two rays, `odd_power(x, k)` is at most `2^(2k+1)` rays
/// and no multiplication up to it overflows.
pub proof fn lemma_odd_power_bound(x: nat, k: nat)
    requires
        x <= 2 * ray(),
        1 <= k <= 9,
    ensures
        odd_power(x, k) <= two_pow(2 * k + 1) * ray(),
        odd_powers_ok(x, k),
    decreases k,
{
    lemma_two_pow_monotone(2 * k + 1, 19);
    if k == 1 {
        let z1 = ray_pow_spec(x, 1);
        let z2 = ray_pow_spec(x, 2);
        lemma_ray_mul_at_most_double(ray(), x);
        lemma_ray_mul_at_most_double(z1, x);
        lemma_ray_mul_at_most_double(z2, x);
        reveal_with_fuel(two_pow, 4);
        reveal_with_fuel(ray_pow_spec, 4);
        reveal_with_fuel(ray_pow_ok, 4);
        lemma_ray_mul_ok_small(ray(), x);
        lemma_ray_mul_ok_small(z1, x);
        lemma_ray_mul_ok_small(z2, x);
    } else {
        let k1 = (k - 1) as nat;
        lemma_odd_power_bound(x, k1);
        lemma_two_pow_monotone(2 * k1 + 1, 19);
        let p = odd_power(x, k1);
        let q = ray_mul_spec(p, x);
        lemma_ray_mul_at_most_double(p, x);
        lemma_ray_mul_at_most_double(q, x);
        lemma_ray_mul_ok_small(p, x);
        lemma_ray_mul_ok_small(q, x);
        assert(two_pow(2 * k + 1) == 4 * two_pow(2 * k1 + 1)) by {
            assert(2 * k + 1 == (2 * k1 + 1) + 2);
            reveal_with_fuel(two_pow, 3);
        }
    }
}

/// For `x` of at most two rays and `add` of at most a thousand rays,
/// `sinx_and_add` does not overflow and stays below `add` plus `2^22` rays.
pub proof fn lemma_sinx_and_add_bound(x: nat, add: nat, inverse: bool)
    requires
        x <= 2 * ray(),
        add <= 1000 * ray(),
    ensures
        sinx_and_add_ok(x, add, inverse),
        sinx_and_add_spec(x, add, inverse) <= add + two_pow(22) * ray(),
{
    lemma_odd_power_bound(x, 9);
    reveal_with_fuel(two_pow, 23);
    lemma_u256_max_value();
    assert forall|k: nat| 0 <= k <= 9 implies sin_term(x, k) <= two_pow(19) * ray() by {
        lemma_factorial_positive(2 * k + 1);
        if k > 0 {
            lemma_odd_power_bound(x, k);
            lemma_two_pow_monotone(2 * k + 1, 19);
        }
        vstd::arithmetic::div_mod::lemma_div_is_ordered_by_denominator(
            odd_power(x, k) as int,
            1,
            factorial(2 * k + 1) as int,
        );
    }
    assert(sin_term(x, 0) <= two_pow(19) * ray());
    assert(sin_term(x, 1) <= two_pow(19) * ray());
    assert(sin_term(x, 2) <= two_pow(19) * ray());
    assert(sin_term(x, 3) <= two_pow(19) * ray());
    assert(sin_term(x, 4) <= two_pow(19) * ray());
    assert(sin_term(x, 5) <= two_pow(19) * ray());
    assert(sin_term(x, 6) <= two_pow(19) * ray());
    assert(sin_term(x, 7) <= two_pow(19) * ray());
    assert(sin_term(x, 8) <= two_pow(19) * ray());
    assert(sin_term(x, 9) <= two_pow(19) * ray());
}

/// For `x` of at most 1.6 rays, a rounded multiplication by `x` gives at
/// most 1.6 times the multiplicand plus a half.
proof fn lemma_ray_mul_growth(a: nat, x: nat)
    requires
        10 * x <= 16 * ray(),
    ensures
        10 * ray_mul_spec(a, x) <= 16 * a + 5,
{
    let r = ray();
    let h = half_ray();
    let q = ray_mul_spec(a, x);
    vstd::arithmetic::div_mod::lemma_fundamental_div_mod((a * x + h) as int, r as int);
    assert(r * q <= a * x + h);
    assert(10 * q <= 16 * a + 5) by (nonlinear_arith)
        requires
            r * q <= a * x + h,
            10 * x <= 16 * r,
            2 * h == r,
            r > 0,
    ;
}

/// For `x` of at most 1.6 rays, each term of the sine series is at most the
/// term before it.
proof fn lemma_sin_term_decreasing(x: nat, k: nat)
    requires
        10 * x <= 16 * ray(),
        k <= 8,
    ensures
        sin_term(x, k + 1) <= sin_term(x, k),
{
    let p = odd_power(x, k);
    let p1 = ray_mul_spec(p, x);
    let p2 = odd_power(x, k + 1);
    if k == 0 {
        reveal_with_fuel(ray_pow_spec, 4);
        crate::u256::lemma_div_unique((ray() * x + half_ray()) as int, ray() as int, x as int, half_ray() as int);
        assert(ray_mul_spec(ray(), x) == x) by (nonlinear_arith)
            requires
                x == (ray() * x + half_ray()) / ray(),
        ;
        assert(ray_pow_spec(x, 1) == x);
    }
    assert(p2 == ray_mul_spec(p1, x));
    lemma_ray_mul_growth(p, x);
    lemma_ray_mul_growth(p1, x);
    let f = factorial(2 * k + 1);
    let m: nat = (2 * k + 2) * (2 * k + 3);
    lemma_factorial_positive(2 * k + 1);
    assert(factorial(2 * k + 2) == (2 * k + 2) * f);
    assert(factorial(2 * (k + 1) + 1) == (2 * k + 3) * factorial(2 * k + 2));
    assert(factorial(2 * (k + 1) + 1) == m * f) by (nonlinear_arith)
        requires
            factorial(2 * (k + 1) + 1) == (2 * k + 3) * ((2 * k + 2) * f),
            m == (2 * k + 2) * (2 * k + 3),
    ;
    assert(m >= 6) by (nonlinear_arith)
        requires
            m == (2 * k + 2) * (2 * k + 3),
    ;
    let q = p / f;
    let t = p2 / (m * f);
    vstd::arithmetic::div_mod::lemma_fundamental_div_mod(p as int, f as int);
    assert(m * f > 0) by (nonlinear_arith)
        requires
            m >= 6,
            f >= 1,
    ;
    vstd::arithmetic::div_mod::lemma_fundamental_div_mod(p2 as int, (m * f) as int);
    assert(t <= q) by (nonlinear_arith)
        requires
            p == f * q + p % f,
            p % f < f,
            f >= 1,
            m >= 6,
            10 * p1 <= 16 * p + 5,
            10 * p2 <= 16 * p1 + 5,
            p2 == (m * f) * t + p2 % (m * f),
            p2 % (m * f) >= 0,
    ;
}

/// For `x` of at most 1.6 rays, the terms the series adds outweigh the
/// terms it subtracts: `sin x` is not negative there.
pub proof fn lemma_sin_terms_order(x: nat)
    requires
        10 * x <= 16 * ray(),
    ensures
        sin_minus_terms(x) <= sin_plus_terms(x),
{
    lemma_sin_term_decreasing(x, 0);
    lemma_sin_term_decreasing(x, 2);
    lemma_sin_term_decreasing(x, 4);
    lemma_sin_term_decreasing(x, 6);
    lemma_sin_term_decreasing(x, 8);
}

/// For `x` of at most 1.6 rays, subtracting the sine leaves at most `add`
/// and adding it leaves at least `add`.
pub proof fn lemma_sinx_and_add_sides(x: nat, add: nat)
    requires
        10 * x <= 16 * ray(),
    ensures
        sinx_and_add_spec(x, add, true) <= add,
        sinx_and_add_spec(x, add, false) >= add,
{
    lemma_sin_terms_order(x);
}

/// `5/3` in rays, as `ray_div(5, 3)` rounds it.
pub open spec fn five_thirds() -> nat {
    ray_div_spec(5, 3)
}

/// Where the sine is taken for a price `p`: `6p` folded into `[0, pi/2]`
/// by `sin x = sin(pi - x)` and `sin x = -sin(x - pi)`, and whether the
/// sign turned.
pub open spec fn sine_argument(p: nat) -> (nat, bool) {
    let p6 = p * 6;
    let folded = if p6 >= pi_div_2_value() && p6 < pi_value() {
        (pi_value() - p6) as nat
    } else {
        p6
    };
    let inverse = folded >= pi_value();
    (
        if inverse {
            (folded - pi_value()) as nat
        } else {
            folded
        },
        inverse,
    )
}

/// The reserve ratio for a maze value `vm` against the stable pools' value
/// `vu`: 0.8 below a price of pi/12, 0.2 above pi/4, and in between
/// `0.3 * (5/3 + sin(6p))` with the sine folded into `[0, pi/2]`.
pub open spec fn svrb_spec(vm: nat, vu: nat) -> nat {
    if vm == 0 || vu == 0 {
        0
    } else {
        let p = ray_div_spec(vm, vu);
        if p < pi_div_12_value() {
            point_8_value()
        } else if p > pi_div_4_value() {
            point_2_value()
        } else {
            let (x, inverse) = sine_argument(p);
            sinx_and_add_spec(x, five_thirds(), inverse) * 3 / 10
        }
    }
}

/// `calculate_svrb` does not overflow on these arguments.
pub open spec fn svrb_ok(vm: nat, vu: nat) -> bool {
    vm == 0 || vu == 0 || ray_div_ok(vm, vu)
}

/// The reserve ratio for the maze pool from its value `v_maze` and the total
/// value of the stable pools `v_usp`.
pub fn calculate_svrb(v_maze: &U256, v_usp: &U256) -> (r: U256)
    requires
        v_maze.wf(),
        v_usp.wf(),
        svrb_ok(v_maze.value(), v_usp.value()),
    ensures
        r.wf(),
        r.value() == svrb_spec(v_maze.value(), v_usp.value()),
{
    if v_maze.is_zero() {
        return U256::zero();
    }
    if v_usp.is_zero() {
        return U256::zero();
    }
    let p_maze = RayMath::ray_div(v_maze, v_usp);
    if p_maze.lt(&pi_div_12()) {
        return point_8();
    }
    if p_maze.gt(&pi_div_4()) {
        return point_2();
    }
    proof {
        lemma_u256_max_value();
    }
    let five_thirds = RayMath::ray_div(&U256::from_u64(5), &U256::from_u64(3));
    let mut p_maze_6 = p_maze.mul(&U256::from_u64(6));
    let pi = pi();
    if p_maze_6.ge(&pi_div_2()) && p_maze_6.lt(&pi) {
        p_maze_6 = pi.sub(&p_maze_6);
    }
    let inverse = p_maze_6.ge(&pi);
    let x = if inverse {
        p_maze_6.sub(&pi)
    } else {
        p_maze_6
    };
    proof {
        assert(five_thirds.value() == 1666666666666666666666666667);
        lemma_sinx_and_add_bound(x.value(), five_thirds.value(), inverse);
        reveal_with_fuel(two_pow, 23);
    }
    let y = sinx_and_add(&x, &five_thirds, inverse);
    y.mul(&U256::from_u64(3)).div(&U256::from_u64(10))
}

/// The funding-or-reserve ratio of a pool from its debt and funding:
/// 0.5 while the occupancy `debt / funding` is at most 0.2, then
/// `occupancy / 2 + 0.4` up to 0.8, and 0.8 beyond; zero without funding.
pub open spec fn forb_spec(debt: nat, funding: nat) -> nat {
    if funding == 0 {
        0
    } else {
        let occupy = ray_div_spec(debt, funding);
        if occupy <= point_2_value() {
            half_ray()
        } else if occupy <= point_8_value() {
            occupy / 2 + point_4_value()
        } else {
            point_8_value()
        }
    }
}

/// `calculate_forb` does not overflow on these arguments.
pub open spec fn forb_ok(debt: nat, funding: nat) -> bool {
    funding == 0 || ray_div_ok(debt, funding)
}

pub fn calculate_forb(debt: &U256, funding: &U256) -> (r: U256)
    requires
        debt.wf(),
        funding.wf(),
        forb_ok(debt.value(), funding.value()),
    ensures
        r.wf(),
        r.value() == forb_spec(debt.value(), funding.value()),
{
    if funding.is_zero() {
        return U256::zero();
    }
    let occupy = RayMath::ray_div(debt, funding);
    if occupy.le(&point_2()) {
        return RayMath::half_ray();
    }
    if occupy.le(&point_8()) {
        proof {
            lemma_u256_max_value();
        }
        return occupy.div(&U256::from_u64(2)).add(&point_4());
    }
    point_8()
}

/// The information of pool `i` before any share is computed.
pub open spec fn info_of(pools: Seq<PoolData>, i: int) -> PoolInfoView {
    pool_info_spec(pools[i]@)
}

/// Pool `i` has type `t` and a nonzero total, so its value counts for `t`.
pub open spec fn counted(pools: Seq<PoolData>, t: u64, i: int) -> bool {
    info_of(pools, i).total != 0 && pools[i].pool_type == t
}

/// The total value of the counted pools of type `t` with index in `[from, n)`.
pub open spec fn value_sum(pools: Seq<PoolData>, t: u64, from: nat, n: nat) -> nat
    decreases n,
{
    if n <= from {
        0
    } else {
        value_sum(pools, t, from, (n - 1) as nat) + if counted(pools, t, n - 1) {
            info_of(pools, n - 1).total_value
        } else {
            0
        }
    }
}

pub proof fn lemma_value_sum_monotone(pools: Seq<PoolData>, t: u64, from: nat, m: nat, n: nat)
    requires
        m <= n,
    ensures
        value_sum(pools, t, from, m) <= value_sum(pools, t, from, n),
    decreases n,
{
    if m < n {
        lemma_value_sum_monotone(pools, t, from, m, (n - 1) as nat);
    }
}

/// Leaving out pool 0 does not increase a sum.
pub proof fn lemma_value_sum_from_one(pools: Seq<PoolData>, t: u64, n: nat)
    ensures
        value_sum(pools, t, 1, n) + (if n >= 1 && counted(pools, t, 0) {
            info_of(pools, 0).total_value
        } else {
            0
        }) == value_sum(pools, t, 0, n),
    decreases n,
{
    if n > 1 {
        lemma_value_sum_from_one(pools, t, (n - 1) as nat);
    } else if n == 1 {
        assert(value_sum(pools, t, 0, 0) == 0);
    }
}

/// The quantities that `calculate_share` derives before it sets shares.
pub ghost struct ShareContext {
    pub y: nat,
    pub y_usp: nat,
    pub y_isp: nat,
    pub y_dp: nat,
    pub v_usp: nat,
    pub v_isp: nat,
    pub v_stable: nat,
    pub v_maze: nat,
    pub svrb: nat,
    pub d_maze: nat,
    pub d_stable: nat,
}

/// The output for `y = y_global * k` split into the stable pools' part
/// `y * r_usp`, the index pools' part `y * r_isp` and the rest for debt pools;
/// the stable part split again by `svrb` between the maze pool (pool 0) and
/// the other stable pools.
pub open spec fn share_context(pools: Seq<PoolData>, params: MineParamsView) -> ShareContext {
    let n = pools.len();
    let y = ray_mul_spec(params.y_global, params.k);
    let y_usp = ray_mul_spec(y, params.r_usp);
    let y_isp = ray_mul_spec(y, params.r_isp);
    let v_usp = value_sum(pools, USP, 0, n);
    let v_maze = if n >= 1 && counted(pools, USP, 0) {
        info_of(pools, 0).total_value
    } else {
        0
    };
    let svrb = svrb_spec(v_maze, v_usp);
    let d_maze = ray_mul_spec(y_usp, svrb);
    ShareContext {
        y,
        y_usp,
        y_isp,
        y_dp: (y - y_usp - y_isp) as nat,
        v_usp,
        v_isp: value_sum(pools, ISP, 0, n),
        v_stable: value_sum(pools, USP, 1, n),
        v_maze,
        svrb,
        d_maze,
        d_stable: (y_usp - d_maze) as nat,
    }
}

/// The result for pool `i`: the maze pool gets `svrb` of the stable part; a
/// stable pool its value's fraction of the rest; an index pool its value's
/// fraction of the index part; a debt pool the debt part per unit of funding.
pub open spec fn share_result(pools: Seq<PoolData>, params: MineParamsView, i: int) -> PoolInfoView {
    let c = share_context(pools, params);
    let b = info_of(pools, i);
    if i == 0 {
        update_share_spec(b, c.y_usp, c.svrb, forb_spec(pools[0].debt.value(), b.funding))
    } else if b.pool_type == USP && c.v_stable != 0 {
        update_share_spec(
            b,
            c.d_stable,
            ray_div_spec(b.total_value, c.v_stable),
            forb_spec(pools[i].debt.value(), b.funding),
        )
    } else if b.pool_type == ISP && c.v_isp != 0 {
        update_share_spec(
            b,
            c.y_isp,
            ray_div_spec(b.total_value, c.v_isp),
            forb_spec(pools[i].debt.value(), b.funding),
        )
    } else if b.pool_type == DP && b.funding != 0 {
        PoolInfoView { funding_share: ray_div_spec(c.y_dp, b.funding), ..b }
    } else {
        b
    }
}

/// Pool `i > 0` is settled without overflow.
pub open spec fn share_step_ok(pools: Seq<PoolData>, params: MineParamsView, i: int) -> bool {
    let c = share_context(pools, params);
    let b = info_of(pools, i);
    let forb = forb_spec(pools[i].debt.value(), b.funding);
    &&& (b.pool_type == USP && c.v_stable != 0) ==> {
        &&& ray_div_ok(b.total_value, c.v_stable)
        &&& forb_ok(pools[i].debt.value(), b.funding)
        &&& update_share_ok(b, c.d_stable, ray_div_spec(b.total_value, c.v_stable), forb)
    }
    &&& (b.pool_type == ISP && c.v_isp != 0) ==> {
        &&& ray_div_ok(b.total_value, c.v_isp)
        &&& forb_ok(pools[i].debt.value(), b.funding)
        &&& update_share_ok(b, c.y_isp, ray_div_spec(b.total_value, c.v_isp), forb)
    }
    &&& (b.pool_type == DP && b.funding != 0) ==> ray_div_ok(c.y_dp, b.funding)
}

/// `calculate_share` neither overflows nor indexes out of bounds: at least
/// one pool, and every intermediate within 256 bits.
pub open spec fn calculate_share_ok(pools: Seq<PoolData>, params: MineParamsView) -> bool {
    let n = pools.len();
    let c = share_context(pools, params);
    let b0 = info_of(pools, 0);
    &&& n >= 1
    &&& forall|i: int| #![trigger pools[i]] 0 <= i < n ==> pools[i].wf() && pool_info_ok(pools[i]@)
    &&& c.v_usp <= u256_max()
    &&& c.v_isp <= u256_max()
    &&& ray_mul_ok(params.y_global, params.k)
    &&& ray_mul_ok(c.y, params.r_usp)
    &&& ray_mul_ok(c.y, params.r_isp)
    &&& c.y_usp + c.y_isp <= c.y
    &&& svrb_ok(c.v_maze, c.v_usp)
    &&& forb_ok(pools[0].debt.value(), b0.funding)
    &&& update_share_ok(b0, c.y_usp, c.svrb, forb_spec(pools[0].debt.value(), b0.funding))
    &&& ray_mul_ok(c.y_usp, c.svrb)
    &&& c.d_maze <= c.y_usp
    &&& forall|i: int| 1 <= i < n ==> #[trigger] share_step_ok(pools, params, i)
}

/// Settles pool `i > 0` from its information.
fn settle_pool(
    info: PoolInfo,
    debt: &U256,
    pools: Ghost<Seq<PoolData>>,
    params: Ghost<MineParamsView>,
    i: Ghost<int>,
    d_stable: &U256,
    y_isp: &U256,
    y_dp: &U256,
    v_stable: &U256,
    v_isp: &U256,
) -> (r: PoolInfo)
    requires
        1 <= i@ < pools@.len(),
        info.wf(),
        info@ == info_of(pools@, i@),
        debt.wf(),
        debt.value() == pools@[i@].debt.value(),
        share_step_ok(pools@, params@, i@),
        d_stable.wf(),
        y_isp.wf(),
        y_dp.wf(),
        v_stable.wf(),
        v_isp.wf(),
        d_stable.value() == share_context(pools@, params@).d_stable,
        y_isp.value() == share_context(pools@, params@).y_isp,
        y_dp.value() == share_context(pools@, params@).y_dp,
        v_stable.value() == share_context(pools@, params@).v_stable,
        v_isp.value() == share_context(pools@, params@).v_isp,
    ensures
        r.wf(),
        r@ == share_result(pools@, params@, i@),
{
    let mut info = info;
    if info.pool_type == USP && !v_stable.is_zero() {
        let vwd = RayMath::ray_div(&info.total_value, v_stable);
        let forb = calculate_forb(debt, &info.funding);
        info.update_share(d_stable, vwd, forb);
    }
    if info.pool_type == ISP && !v_isp.is_zero() {
        let vwd = RayMath::ray_div(&info.total_value, v_isp);
        let forb = calculate_forb(debt, &info.funding);
        info.update_share(y_isp, vwd, forb);
    }
    if info.pool_type == DP && !info.funding.is_zero() {
        info.funding_share = RayMath::ray_div(y_dp, &info.funding);
    }
    info
}

/// The mining shares of every pool.
pub fn calculate_share(pools: &[PoolData], params: &MineParams) -> (ret: Vec<PoolInfo>)
    requires
        params.wf(),
        calculate_share_ok(pools@, params@),
    ensures
        ret.len() == pools.len(),
        forall|i: int|
            #![trigger ret[i]]
            0 <= i < ret.len() ==> ret[i].wf() && ret[i]@ == share_result(pools@, params@, i),
{
    let ghost c = share_context(pools@, params@);
    let n = pools.len();
    let y = RayMath::ray_mul(&params.y_global, &params.k);
    let y_usp = RayMath::ray_mul(&y, &params.r_usp);
    let y_isp = RayMath::ray_mul(&y, &params.r_isp);
    let y_dp: U256 = y.sub(&y_usp).sub(&y_isp);

    let mut infos: Vec<PoolInfo> = Vec::new();
    let mut v_usp = U256::zero();
    let mut v_isp = U256::zero();
    let mut v_stable = U256::zero();
    let mut v_maze = U256::zero();

    let mut i: usize = 0;
    while i < n
        invariant
            i <= n,
            n == pools.len(),
            calculate_share_ok(pools@, params@),
            c == share_context(pools@, params@),
            infos.len() == i,
            forall|j: int| #![trigger infos@[j]] 0 <= j < i ==> infos@[j].wf() && infos@[j]@ == info_of(pools@, j),
            v_usp.wf(),
            v_isp.wf(),
            v_stable.wf(),
            v_maze.wf(),
            v_usp.value() == value_sum(pools@, USP, 0, i as nat),
            v_isp.value() == value_sum(pools@, ISP, 0, i as nat),
            v_stable.value() == value_sum(pools@, USP, 1, i as nat),
            v_maze.value() == if i >= 1 && counted(pools@, USP, 0) {
                info_of(pools@, 0).total_value
            } else {
                0
            },
        decreases n - i,
    {
        let p = &pools[i];
        assert(pools@[i as int].wf() && pool_info_ok(pools@[i as int]@));
        let info = PoolInfo::from(p);
        proof {
            lemma_value_sum_monotone(pools@, USP, 0, (i + 1) as nat, n as nat);
            lemma_value_sum_monotone(pools@, ISP, 0, (i + 1) as nat, n as nat);
            lemma_value_sum_from_one(pools@, USP, (i + 1) as nat);
        }
        if !info.total.is_zero() {
            if p.pool_type == USP {
                v_usp = v_usp.add(&info.total_value);
                if i == 0 {
                    v_maze = v_maze.add(&info.total_value);
                } else {
                    v_stable = v_stable.add(&info.total_value);
                }
            }
            if p.pool_type == ISP {
                v_isp = v_isp.add(&info.total_value);
            }
        }
        let ghost before = infos@;
        infos.push(info);
        proof {
            assert forall|j: int| #![trigger infos@[j]] 0 <= j <= i implies infos@[j].wf() && infos@[j]@ == info_of(
                pools@,
                j,
            ) by {
                if j < i {
                    assert(infos@[j] == before[j]);
                }
            }
        }
        i = i + 1;
    }

    assert(pools@[0].wf());
    assert(infos@[0].wf() && infos@[0]@ == info_of(pools@, 0));
    let svrb = calculate_svrb(&v_maze, &v_usp);
    let forb_0 = calculate_forb(&pools[0].debt, &infos[0].funding);
    let mut maze_info = infos[0].clone();
    maze_info.update_share(&y_usp, svrb.clone(), forb_0);
    let d_maze = RayMath::ray_mul(&y_usp, &svrb);
    let d_stable = y_usp.sub(&d_maze);

    let mut out: Vec<PoolInfo> = Vec::new();
    out.push(maze_info);
    let mut i: usize = 1;
    while i < n
        invariant
            1 <= i <= n,
            n == pools.len(),
            infos.len() == n,
            calculate_share_ok(pools@, params@),
            c == share_context(pools@, params@),
            forall|j: int| #![trigger infos@[j]] 0 <= j < n ==> infos@[j].wf() && infos@[j]@ == info_of(pools@, j),
            y_isp.wf(),
            y_dp.wf(),
            d_stable.wf(),
            v_isp.wf(),
            v_stable.wf(),
            y_isp.value() == c.y_isp,
            y_dp.value() == c.y_dp,
            d_stable.value() == c.d_stable,
            v_isp.value() == c.v_isp,
            v_stable.value() == c.v_stable,
            out.len() == i,
            forall|j: int| #![trigger out@[j]] 0 <= j < i ==> out@[j].wf() && out@[j]@ == share_result(pools@, params@, j),
        decreases n - i,
    {
        assert(infos@[i as int].wf() && infos@[i as int]@ == info_of(pools@, i as int));
        assert(pools@[i as int].wf());
        assert(share_step_ok(pools@, params@, i as int));
        let info = settle_pool(
            infos[i].clone(),
            &pools[i].debt,
            Ghost(pools@),
            Ghost(params@),
            Ghost(i as int),
            &d_stable,
            &y_isp,
            &y_dp,
            &v_stable,
            &v_isp,
        );
        out.push(info);
        i = i + 1;
    }
    out
}

/// Whether the debt and funding of a pool give a funding ratio within 256 bits.
pub fn forb_fits(debt: &U256, funding: &U256) -> (r: bool)
    requires
        debt.wf(),
        funding.wf(),
    ensures
        r == forb_ok(debt.value(), funding.value()),
{
    funding.is_zero() || ray_div_fits(debt, funding)
}

/// Whether pool `i > 0` is settled within 256 bits.
fn share_step_fits(
    info: &PoolInfo,
    debt: &U256,
    pools: Ghost<Seq<PoolData>>,
    params: Ghost<MineParamsView>,
    i: Ghost<int>,
    d_stable: &U256,
    y_isp: &U256,
    y_dp: &U256,
    v_stable: &U256,
    v_isp: &U256,
) -> (r: bool)
    requires
        1 <= i@ < pools@.len(),
        info.wf(),
        info@ == info_of(pools@, i@),
        debt.wf(),
        debt.value() == pools@[i@].debt.value(),
        d_stable.wf(),
        y_isp.wf(),
        y_dp.wf(),
        v_stable.wf(),
        v_isp.wf(),
        d_stable.value() == share_context(pools@, params@).d_stable,
        y_isp.value() == share_context(pools@, params@).y_isp,
        y_dp.value() == share_context(pools@, params@).y_dp,
        v_stable.value() == share_context(pools@, params@).v_stable,
        v_isp.value() == share_context(pools@, params@).v_isp,
    ensures
        r == share_step_ok(pools@, params@, i@),
{
    if info.pool_type == USP && !v_stable.is_zero() {
        if !ray_div_fits(&info.total_value, v_stable) || !forb_fits(debt, &info.funding) {
            return false;
        }
        let vwd = RayMath::ray_div(&info.total_value, v_stable);
        let forb = calculate_forb(debt, &info.funding);
        if !update_share_fits(info, d_stable, &vwd, &forb) {
            return false;
        }
    }
    if info.pool_type == ISP && !v_isp.is_zero() {
        if !ray_div_fits(&info.total_value, v_isp) || !forb_fits(debt, &info.funding) {
            return false;
        }
        let vwd = RayMath::ray_div(&info.total_value, v_isp);
        let forb = calculate_forb(debt, &info.funding);
        if !update_share_fits(info, y_isp, &vwd, &forb) {
            return false;
        }
    }
    if info.pool_type == DP && !info.funding.is_zero() {
        return ray_div_fits(y_dp, &info.funding);
    }
    true
}

/// The information of every pool, or `None` if building one overflows.
fn pool_infos_fitting(pools: &[PoolData]) -> (r: Option<Vec<PoolInfo>>)
    requires
        forall|i: int| #![trigger pools@[i]] 0 <= i < pools@.len() ==> pools@[i].wf(),
    ensures
        r is None <==> !(forall|i: int| #![trigger pools@[i]] 0 <= i < pools@.len() ==> pool_info_ok(pools@[i]@)),
        r matches Some(infos) ==> infos.len() == pools.len() && forall|j: int|
            #![trigger infos@[j]]
            0 <= j < pools.len() ==> infos@[j].wf() && infos@[j]@ == info_of(pools@, j),
{
    let n = pools.len();
    let mut infos: Vec<PoolInfo> = Vec::new();
    let mut i: usize = 0;
    while i < n
        invariant
            i <= n,
            n == pools.len(),
            forall|j: int| #![trigger pools@[j]] 0 <= j < pools@.len() ==> pools@[j].wf(),
            forall|j: int| #![trigger pools@[j]] 0 <= j < i ==> pool_info_ok(pools@[j]@),
            infos.len() == i,
            forall|j: int| #![trigger infos@[j]] 0 <= j < i ==> infos@[j].wf() && infos@[j]@ == info_of(pools@, j),
        decreases n - i,
    {
        assert(pools@[i as int].wf());
        if !pool_info_fits(&pools[i]) {
            return None;
        }
        let info = PoolInfo::from(&pools[i]);
        let ghost before = infos@;
        infos.push(info);
        proof {
            assert forall|j: int| #![trigger infos@[j]] 0 <= j <= i implies infos@[j].wf() && infos@[j]@ == info_of(
                pools@,
                j,
            ) by {
                if j < i {
                    assert(infos@[j] == before[j]);
                }
            }
        }
        i = i + 1;
    }
    Some(infos)
}

/// The values of the stable pools, of the index pools, of the stable pools
/// after the first, and of the maze pool; `None` if a sum overflows.
fn value_sums_fitting(pools: Ghost<Seq<PoolData>>, infos: &Vec<PoolInfo>) -> (r: Option<(U256, U256, U256, U256)>)
    requires
        infos.len() == pools@.len(),
        forall|j: int| #![trigger infos@[j]] 0 <= j < infos.len() ==> infos@[j].wf() && infos@[j]@ == info_of(pools@, j),
    ensures
        r is None <==> (value_sum(pools@, USP, 0, pools@.len()) > u256_max() || value_sum(
            pools@,
            ISP,
            0,
            pools@.len(),
        ) > u256_max()),
        r matches Some(v) ==> {
            &&& v.0.wf() && v.1.wf() && v.2.wf() && v.3.wf()
            &&& v.0.value() == value_sum(pools@, USP, 0, pools@.len())
            &&& v.1.value() == value_sum(pools@, ISP, 0, pools@.len())
            &&& v.2.value() == value_sum(pools@, USP, 1, pools@.len())
            &&& v.3.value() == if pools@.len() >= 1 && counted(pools@, USP, 0) {
                info_of(pools@, 0).total_value
            } else {
                0
            }
        },
{
    let n = infos.len();
    let mut v_usp = U256::zero();
    let mut v_isp = U256::zero();
    let mut v_stable = U256::zero();
    let mut v_maze = U256::zero();
    let mut i: usize = 0;
    while i < n
        invariant
            i <= n,
            n == pools@.len(),
            n == infos.len(),
            forall|j: int| #![trigger infos@[j]] 0 <= j < n ==> infos@[j].wf() && infos@[j]@ == info_of(pools@, j),
            v_usp.wf(),
            v_isp.wf(),
            v_stable.wf(),
            v_maze.wf(),
            v_usp.value() == value_sum(pools@, USP, 0, i as nat),
            v_isp.value() == value_sum(pools@, ISP, 0, i as nat),
            v_stable.value() == value_sum(pools@, USP, 1, i as nat),
            v_maze.value() == if i >= 1 && counted(pools@, USP, 0) {
                info_of(pools@, 0).total_value
            } else {
                0
            },
        decreases n - i,
    {
        assert(infos@[i as int].wf() && infos@[i as int]@ == info_of(pools@, i as int));
        let info = &infos[i];
        proof {
            lemma_value_sum_monotone(pools@, USP, 0, (i + 1) as nat, n as nat);
            lemma_value_sum_monotone(pools@, ISP, 0, (i + 1) as nat, n as nat);
            lemma_value_sum_from_one(pools@, USP, (i + 1) as nat);
        }
        if !info.total.is_zero() {
            if info.pool_type == USP {
                if !v_usp.fits_add(&info.total_value) {
                    return None;
                }
                v_usp = v_usp.add(&info.total_value);
                if i == 0 {
                    v_maze = v_maze.add(&info.total_value);
                } else {
                    v_stable = v_stable.add(&info.total_value);
                }
            }
            if info.pool_type == ISP {
                if !v_isp.fits_add(&info.total_value) {
                    return None;
                }
                v_isp = v_isp.add(&info.total_value);
            }
        }
        i = i + 1;
    }
    proof {
        v_usp.lemma_wf_bound();
        v_isp.lemma_wf_bound();
    }
    Some((v_usp, v_isp, v_stable, v_maze))
}

/// Whether `calculate_share` runs on these pools and parameters: at least
/// one pool, and every intermediate within 256 bits.
pub fn calculate_share_fits(pools: &[PoolData], params: &MineParams) -> (r: bool)
    requires
        params.wf(),
        forall|i: int| #![trigger pools@[i]] 0 <= i < pools@.len() ==> pools@[i].wf(),
    ensures
        r == calculate_share_ok(pools@, params@),
{
    let ghost c = share_context(pools@, params@);
    let n = pools.len();
    if n == 0 {
        return false;
    }
    let infos = match pool_infos_fitting(pools) {
        Some(v) => v,
        None => {
            return false;
        },
    };
    let (v_usp, v_isp, v_stable, v_maze) = match value_sums_fitting(Ghost(pools@), &infos) {
        Some(v) => v,
        None => {
            return false;
        },
    };
    let ok = share_tail_fits(pools, params, &infos, &v_usp, &v_isp, &v_stable, &v_maze);
    ok
}

/// The conditions of `calculate_share_ok` after the sums.
#[verifier::rlimit(40)]
fn share_tail_fits(
    pools: &[PoolData],
    params: &MineParams,
    infos: &Vec<PoolInfo>,
    v_usp: &U256,
    v_isp: &U256,
    v_stable: &U256,
    v_maze: &U256,
) -> (r: bool)
    requires
        params.wf(),
        pools.len() >= 1,
        forall|i: int| #![trigger pools@[i]] 0 <= i < pools@.len() ==> pools@[i].wf() && pool_info_ok(pools@[i]@),
        infos.len() == pools.len(),
        forall|j: int| #![trigger infos@[j]] 0 <= j < infos.len() ==> infos@[j].wf() && infos@[j]@ == info_of(pools@, j),
        v_usp.wf(),
        v_isp.wf(),
        v_stable.wf(),
        v_maze.wf(),
        v_usp.value() == share_context(pools@, params@).v_usp,
        v_isp.value() == share_context(pools@, params@).v_isp,
        v_stable.value() == share_context(pools@, params@).v_stable,
        v_maze.value() == share_context(pools@, params@).v_maze,
    ensures
        r == calculate_share_ok(pools@, params@),
{
    let ghost c = share_context(pools@, params@);
    let n = pools.len();
    if !ray_mul_fits(&params.y_global, &params.k) {
        return false;
    }
    let y = RayMath::ray_mul(&params.y_global, &params.k);
    if !ray_mul_fits(&y, &params.r_usp) || !ray_mul_fits(&y, &params.r_isp) {
        return false;
    }
    let y_usp = RayMath::ray_mul(&y, &params.r_usp);
    let y_isp = RayMath::ray_mul(&y, &params.r_isp);
    if !y_usp.fits_add(&y_isp) || y_usp.add(&y_isp).gt(&y) {
        proof {
            y.lemma_wf_bound();
        }
        return false;
    }
    let y_dp = y.sub(&y_usp).sub(&y_isp);
    if !v_maze.is_zero() && !v_usp.is_zero() && !ray_div_fits(v_maze, v_usp) {
        return false;
    }
    let svrb = calculate_svrb(v_maze, v_usp);
    assert(infos@[0].wf() && infos@[0]@ == info_of(pools@, 0));
    assert(pools@[0].wf());
    if !forb_fits(&pools[0].debt, &infos[0].funding) {
        return false;
    }
    let forb_0 = calculate_forb(&pools[0].debt, &infos[0].funding);
    if !update_share_fits(&infos[0], &y_usp, &svrb, &forb_0) {
        return false;
    }
    if !ray_mul_fits(&y_usp, &svrb) {
        return false;
    }
    let d_maze = RayMath::ray_mul(&y_usp, &svrb);
    if d_maze.gt(&y_usp) {
        return false;
    }
    let d_stable = y_usp.sub(&d_maze);
    let mut i: usize = 1;
    while i < n
        invariant
            1 <= i <= n,
            n == pools.len(),
            infos.len() == n,
            forall|j: int| #![trigger pools@[j]] 0 <= j < pools@.len() ==> pools@[j].wf(),
            forall|j: int| #![trigger infos@[j]] 0 <= j < n ==> infos@[j].wf() && infos@[j]@ == info_of(pools@, j),
            y_isp.wf(),
            y_dp.wf(),
            d_stable.wf(),
            v_isp.wf(),
            v_stable.wf(),
            y_isp.value() == c.y_isp,
            y_dp.value() == c.y_dp,
            d_stable.value() == c.d_stable,
            v_isp.value() == c.v_isp,
            v_stable.value() == c.v_stable,
            c == share_context(pools@, params@),
            forall|j: int| 1 <= j < i ==> #[trigger] share_step_ok(pools@, params@, j),
        decreases n - i,
    {
        assert(infos@[i as int].wf() && infos@[i as int]@ == info_of(pools@, i as int));
        assert(pools@[i as int].wf());
        if !share_step_fits(
            &infos[i],
            &pools[i].debt,
            Ghost(pools@),
            Ghost(params@),
            Ghost(i as int),
            &d_stable,
            &y_isp,
            &y_dp,
            v_stable,
            v_isp,
        ) {
            return false;
        }
        i = i + 1;
    }
    proof {
        v_usp.lemma_wf_bound();
        v_isp.lemma_wf_bound();
    }
    true
}
} // verus!
