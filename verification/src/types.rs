//! Pool inputs, mining parameters and per-pool results.
pub mod pool_type;

use crate::u256::{u256_max, U256};
use crate::utils::{
    lemma_u256_max_value, ray_div_fits, ray_div_ok, ray_div_spec, ray_mul_fits, ray_mul_ok, ray_mul_spec,
    RayMath,
};
use vstd::arithmetic::power::pow;
use vstd::prelude::*;

verus! {

/// A pool as the caller describes it.
pub struct PoolData {
    pub pool_type: u64,
    pub funding: U256,
    pub reserve: U256,
    pub debt: U256,
    pub price: U256,
    pub decimals: u64,
}

/// The values of a `PoolData`.
pub ghost struct PoolDataView {
    pub pool_type: u64,
    pub funding: nat,
    pub reserve: nat,
    pub debt: nat,
    pub price: nat,
    pub decimals: u64,
}

impl View for PoolData {
    type V = PoolDataView;

    open spec fn view(&self) -> PoolDataView {
        PoolDataView {
            pool_type: self.pool_type,
            funding: self.funding.value(),
            reserve: self.reserve.value(),
            debt: self.debt.value(),
            price: self.price.value(),
            decimals: self.decimals,
        }
    }
}

impl PoolData {
    pub open spec fn wf(&self) -> bool {
        &&& self.funding.wf()
        &&& self.reserve.wf()
        &&& self.debt.wf()
        &&& self.price.wf()
    }
}

/// The parameters of one mining computation.
pub struct MineParams {
    pub y_global: U256,
    pub k: U256,
    pub r_usp: U256,
    pub r_dp: U256,
    pub r_isp: U256,
}

pub ghost struct MineParamsView {
    pub y_global: nat,
    pub k: nat,
    pub r_usp: nat,
    pub r_dp: nat,
    pub r_isp: nat,
}

impl View for MineParams {
    type V = MineParamsView;

    open spec fn view(&self) -> MineParamsView {
        MineParamsView {
            y_global: self.y_global.value(),
            k: self.k.value(),
            r_usp: self.r_usp.value(),
            r_dp: self.r_dp.value(),
            r_isp: self.r_isp.value(),
        }
    }
}

impl MineParams {
    pub open spec fn wf(&self) -> bool {
        &&& self.y_global.wf()
        &&& self.k.wf()
        &&& self.r_usp.wf()
        &&& self.r_dp.wf()
        &&& self.r_isp.wf()
    }
}

/// A pool's values and its computed shares.
pub struct PoolInfo {
    pub pool_type: u64,
    pub funding: U256,
    pub reserve: U256,
    pub total: U256,
    pub funding_value: U256,
    pub reserve_value: U256,
    pub total_value: U256,
    pub forb: U256,
    pub vwd: U256,
    pub funding_share: U256,
    pub reserve_share: U256,
}

pub ghost struct PoolInfoView {
    pub pool_type: u64,
    pub funding: nat,
    pub reserve: nat,
    pub total: nat,
    pub funding_value: nat,
    pub reserve_value: nat,
    pub total_value: nat,
    pub forb: nat,
    pub vwd: nat,
    pub funding_share: nat,
    pub reserve_share: nat,
}

impl View for PoolInfo {
    type V = PoolInfoView;

    open spec fn view(&self) -> PoolInfoView {
        PoolInfoView {
            pool_type: self.pool_type,
            funding: self.funding.value(),
            reserve: self.reserve.value(),
            total: self.total.value(),
            funding_value: self.funding_value.value(),
            reserve_value: self.reserve_value.value(),
            total_value: self.total_value.value(),
            forb: self.forb.value(),
            vwd: self.vwd.value(),
            funding_share: self.funding_share.value(),
            reserve_share: self.reserve_share.value(),
        }
    }
}

/// The information of a pool before any share is computed: its amounts and
/// their values at `price` per `10^decimals` units.
pub open spec fn pool_info_spec(p: PoolDataView) -> PoolInfoView {
    let divisor = pow(10, p.decimals as nat) as nat;
    let funding_value = p.funding * p.price / divisor;
    let reserve_value = p.reserve * p.price / divisor;
    PoolInfoView {
        pool_type: p.pool_type,
        funding: p.funding,
        reserve: p.reserve,
        total: p.funding + p.reserve,
        funding_value,
        reserve_value,
        total_value: funding_value + reserve_value,
        forb: 0,
        vwd: 0,
        funding_share: 0,
        reserve_share: 0,
    }
}

/// Building the information of `p` does not overflow.
pub open spec fn pool_info_ok(p: PoolDataView) -> bool {
    let divisor = pow(10, p.decimals as nat);
    &&& p.funding + p.reserve <= u256_max()
    &&& divisor <= u256_max()
    &&& p.funding * p.price <= u256_max()
    &&& p.reserve * p.price <= u256_max()
    &&& p.funding * p.price / (divisor as nat) + p.reserve * p.price / (divisor as nat) <= u256_max()
}

/// `info` after `update_share(y, vwd, forb)`: the reward `y * vwd` is split
/// into a funding part `reward * forb` and the rest for the reserve, each
/// divided by its amount where the amount is not zero.
pub open spec fn update_share_spec(info: PoolInfoView, y: nat, vwd: nat, forb: nat) -> PoolInfoView {
    let reward = ray_mul_spec(y, vwd);
    let funding_reward = ray_mul_spec(reward, forb);
    let reserve_reward = (reward - funding_reward) as nat;
    PoolInfoView {
        vwd,
        forb,
        funding_share: if info.funding != 0 {
            ray_div_spec(funding_reward, info.funding)
        } else {
            info.funding_share
        },
        reserve_share: if info.reserve != 0 {
            ray_div_spec(reserve_reward, info.reserve)
        } else {
            info.reserve_share
        },
        ..info
    }
}

/// `update_share` does not overflow on these arguments.
pub open spec fn update_share_ok(info: PoolInfoView, y: nat, vwd: nat, forb: nat) -> bool {
    let reward = ray_mul_spec(y, vwd);
    let funding_reward = ray_mul_spec(reward, forb);
    &&& ray_mul_ok(y, vwd)
    &&& ray_mul_ok(reward, forb)
    &&& funding_reward <= reward
    &&& info.funding != 0 ==> ray_div_ok(funding_reward, info.funding)
    &&& info.reserve != 0 ==> ray_div_ok((reward - funding_reward) as nat, info.reserve)
}

/// `10^d` fits in 256 bits exactly when `d <= 77`.
pub proof fn lemma_pow10_fits(d: nat)
    ensures
        (pow(10, d) <= u256_max()) == (d <= 77),
{
    lemma_u256_max_value();
    reveal_with_fuel(pow, 79);
    assert(pow(10, 77) == 100000000000000000000000000000000000000000000000000000000000000000000000000000);
    assert(pow(10, 78) == 1000000000000000000000000000000000000000000000000000000000000000000000000000000);
    if d <= 77 {
        vstd::arithmetic::power::lemma_pow_increases(10, d, 77);
    } else {
        vstd::arithmetic::power::lemma_pow_increases(10, 78, d);
    }
}

/// Whether building the information of `p` fits in 256 bits.
pub fn pool_info_fits(p: &PoolData) -> (r: bool)
    requires
        p.wf(),
    ensures
        r == pool_info_ok(p@),
{
    proof {
        lemma_pow10_fits(p.decimals as nat);
    }
    if !p.funding.fits_add(&p.reserve) || p.decimals > 77 || !p.funding.fits_mul(&p.price)
        || !p.reserve.fits_mul(&p.price) {
        return false;
    }
    proof {
        vstd::arithmetic::power::lemma_pow_positive(10, p.decimals as nat);
    }
    let divisor = U256::from_u64(10).pow(p.decimals);
    let funding_value = p.funding.mul(&p.price).div(&divisor);
    let reserve_value = p.reserve.mul(&p.price).div(&divisor);
    funding_value.fits_add(&reserve_value)
}

/// Whether `update_share` fits in 256 bits on these arguments.
pub fn update_share_fits(info: &PoolInfo, y: &U256, vwd: &U256, forb: &U256) -> (r: bool)
    requires
        info.wf(),
        y.wf(),
        vwd.wf(),
        forb.wf(),
    ensures
        r == update_share_ok(info@, y.value(), vwd.value(), forb.value()),
{
    if !ray_mul_fits(y, vwd) {
        return false;
    }
    let reward = RayMath::ray_mul(y, vwd);
    if !ray_mul_fits(&reward, forb) {
        return false;
    }
    let funding_reward = RayMath::ray_mul(&reward, forb);
    if funding_reward.gt(&reward) {
        return false;
    }
    if !info.funding.is_zero() && !ray_div_fits(&funding_reward, &info.funding) {
        return false;
    }
    let reserve_reward = reward.sub(&funding_reward);
    info.reserve.is_zero() || ray_div_fits(&reserve_reward, &info.reserve)
}

impl PoolInfo {
    pub open spec fn wf(&self) -> bool {
        &&& self.funding.wf()
        &&& self.reserve.wf()
        &&& self.total.wf()
        &&& self.funding_value.wf()
        &&& self.reserve_value.wf()
        &&& self.total_value.wf()
        &&& self.forb.wf()
        &&& self.vwd.wf()
        &&& self.funding_share.wf()
        &&& self.reserve_share.wf()
    }

    /// The information of a pool: amounts, total, and values at its price.
    pub fn from(p: &PoolData) -> (info: PoolInfo)
        requires
            p.wf(),
            pool_info_ok(p@),
        ensures
            info.wf(),
            info@ == pool_info_spec(p@),
    {
        let ten = U256::from_u64(10);
        proof {
            vstd::arithmetic::power::lemma_pow_positive(10, p.decimals as nat);
        }
        let decimal_divisor = ten.pow(p.decimals);
        let funding = p.funding.clone();
        let reserve = p.reserve.clone();
        let total = funding.add(&reserve);
        let funding_value = funding.mul(&p.price).div(&decimal_divisor);
        let reserve_value = reserve.mul(&p.price).div(&decimal_divisor);
        let total_value = funding_value.add(&reserve_value);
        PoolInfo {
            pool_type: p.pool_type,
            funding,
            reserve,
            total,
            funding_value,
            reserve_value,
            total_value,
            forb: U256::zero(),
            vwd: U256::zero(),
            funding_share: U256::zero(),
            reserve_share: U256::zero(),
        }
    }

    /// A copy with the same values.
    pub fn clone(&self) -> (r: PoolInfo)
        requires
            self.wf(),
        ensures
            r.wf(),
            r@ == self@,
    {
        PoolInfo {
            pool_type: self.pool_type,
            funding: self.funding.clone(),
            reserve: self.reserve.clone(),
            total: self.total.clone(),
            funding_value: self.funding_value.clone(),
            reserve_value: self.reserve_value.clone(),
            total_value: self.total_value.clone(),
            forb: self.forb.clone(),
            vwd: self.vwd.clone(),
            funding_share: self.funding_share.clone(),
            reserve_share: self.reserve_share.clone(),
        }
    }

    /// Records `vwd` and `forb` and computes the funding and reserve shares
    /// of the reward `y * vwd`.
    pub fn update_share(&mut self, y: &U256, vwd: U256, forb: U256)
        requires
            old(self).wf(),
            y.wf(),
            vwd.wf(),
            forb.wf(),
            update_share_ok(old(self)@, y.value(), vwd.value(), forb.value()),
        ensures
            final(self).wf(),
            final(self)@ == update_share_spec(old(self)@, y.value(), vwd.value(), forb.value()),
    {
        self.vwd = vwd;
        self.forb = forb;
        let reward = RayMath::ray_mul(y, &self.vwd);
        let funding_reward = RayMath::ray_mul(&reward, &self.forb);
        let reserve_reward = reward.sub(&funding_reward);
        if !self.funding.is_zero() {
            self.funding_share = RayMath::ray_div(&funding_reward, &self.funding);
        }
        if !self.reserve.is_zero() {
            self.reserve_share = RayMath::ray_div(&reserve_reward, &self.reserve);
        }
    }
}

} // verus!
