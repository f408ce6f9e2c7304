//! Constants of the mining formulas, in rays.
use crate::u256::{lemma_div_unique, U256};
use crate::utils::{lemma_u256_max_value, ray, ray_div_spec, RayMath};
use vstd::prelude::*;

verus! {

/// The first 28 digits of pi, read as rays.
pub open spec fn pi_value() -> nat {
    3141592653589793238462643383
}

pub open spec fn pi_div_2_value() -> nat {
    pi_value() / 2
}

pub open spec fn pi_div_12_value() -> nat {
    pi_value() / 12
}

pub open spec fn pi_div_4_value() -> nat {
    pi_value() / 4
}

/// `0.8`, `0.2` and `0.4` in rays.
pub open spec fn point_8_value() -> nat {
    800_000_000_000_000_000_000_000_000
}

pub open spec fn point_2_value() -> nat {
    200_000_000_000_000_000_000_000_000
}

pub open spec fn point_4_value() -> nat {
    400_000_000_000_000_000_000_000_000
}

/// Pi in rays: the integer of its first 28 digits, divided by `10^27` with `ray_div`.
pub fn pi() -> (r: U256)
    ensures
        r.wf(),
        r.value() == pi_value(),
{
    proof {
        lemma_u256_max_value();
    }
    let high = U256::from_u64(3141592653589);
    let scale = U256::from_u64(1_000_000_000_000_000);
    let low = U256::from_u64(793238462643383);
    let u = high.mul(&scale).add(&low);
    let e27 = RayMath::ray();
    proof {
        assert(u.value() == pi_value());
        lemma_div_unique(
            (pi_value() * ray() + ray() / 2) as int,
            ray() as int,
            pi_value() as int,
            (ray() / 2) as int,
        );
        assert(ray_div_spec(u.value(), e27.value()) == pi_value());
    }
    RayMath::ray_div(&u, &e27)
}

pub fn pi_div_2() -> (r: U256)
    ensures
        r.wf(),
        r.value() == pi_div_2_value(),
{
    pi().div(&U256::from_u64(2))
}

pub fn pi_div_12() -> (r: U256)
    ensures
        r.wf(),
        r.value() == pi_div_12_value(),
{
    pi().div(&U256::from_u64(12))
}

pub fn pi_div_4() -> (r: U256)
    ensures
        r.wf(),
        r.value() == pi_div_4_value(),
{
    pi().div(&U256::from_u64(4))
}

/// `n / 10` in rays, by `ray_div`.
fn tenths(n: u64) -> (r: U256)
    requires
        n <= 10,
    ensures
        r.wf(),
        r.value() == n * 100_000_000_000_000_000_000_000_000,
{
    proof {
        lemma_u256_max_value();
        lemma_div_unique(
            (n * ray() + 5) as int,
            10,
            (n * 100_000_000_000_000_000_000_000_000) as int,
            5,
        );
    }
    RayMath::ray_div(&U256::from_u64(n), &U256::from_u64(10))
}

pub fn point_8() -> (r: U256)
    ensures
        r.wf(),
        r.value() == point_8_value(),
{
    tenths(8)
}

pub fn point_2() -> (r: U256)
    ensures
        r.wf(),
        r.value() == point_2_value(),
{
    tenths(2)
}

pub fn point_4() -> (r: U256)
    ensures
        r.wf(),
        r.value() == point_4_value(),
{
    tenths(4)
}

} // verus!
