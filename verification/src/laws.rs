//! Properties that hold across the library's operations.
use crate::address::Address;
use crate::contract::{batch_mint_spec, burn_spec, locked_spec, mint_spec, unclaimed_and_ratio, unlocked_spec};
use crate::types::pool_type::{DP, ISP, USP};
use crate::types::{pool_info_spec, MineParamsView, PoolData, PoolDataView};
use crate::u256::U256;
use vstd::arithmetic::power::pow;
use crate::decimal::{
    ascii_chars, dec_digits, decimal_spec, decimal_value, digit_bytes, pow10, strip_trailing_zeros, zero_padded,
};
use vstd::utf8::{encode_utf8, is_ascii_chars, is_ascii_chars_encode_utf8};
use crate::persist::{amount_of, is_owner, pair_key, save_pair_spec, ContractView};
use crate::u256::u64_be;
use crate::utils::{
    share_context, share_result, sinx_and_add_spec, five_thirds, forb_spec, half_ray, lemma_sinx_and_add_sides, ray, ray_div_spec, ray_mul_spec, sine_argument,
    svrb_spec,
};
use crate::constants::{pi_div_12_value, pi_div_2_value, pi_div_4_value, pi_value, point_8_value};
use vstd::prelude::*;

verus! {

/// The locked and the unlocked part of a reward add up to the reward.
pub proof fn lemma_locked_plus_unlocked(v: ContractView, asset: Seq<u8>, mptype: u64, user: Seq<u8>)
    requires
        unlocked_spec(v, asset, mptype, user) <= unclaimed_and_ratio(v, asset, mptype, user).0,
    ensures
        locked_spec(v, asset, mptype, user) + unlocked_spec(v, asset, mptype, user) == amount_of(
            v.unclaimed,
            pair_key(asset, mptype, user),
        ),
{
}

/// Burning what was just minted restores every reward; the pair is then
/// stored, with its former amount.
pub proof fn lemma_mint_then_burn(v: ContractView, key: Seq<u8>, amount: nat)
    ensures
        burn_spec(mint_spec(v, key, amount), key, amount) == (ContractView {
            unclaimed: v.unclaimed.insert(key, amount_of(v.unclaimed, key)),
            ..v
        }),
{
    let after = burn_spec(mint_spec(v, key, amount), key, amount);
    assert(after.unclaimed =~= v.unclaimed.insert(key, amount_of(v.unclaimed, key)));
}

/// A stored reward reads back as written, and writing one pair's reward
/// leaves every other pair's.
pub proof fn lemma_unclaimed_read_after_write(v: ContractView, key: Seq<u8>, other: Seq<u8>, amount: nat)
    ensures
        amount_of(v.unclaimed.insert(key, amount), key) == amount,
        other != key ==> amount_of(v.unclaimed.insert(key, amount), other) == amount_of(v.unclaimed, other),
{
}

/// Among assets of one length, a pair key determines the asset, the mining
/// type and the user.
pub proof fn lemma_pair_key_injective(
    a1: Seq<u8>,
    m1: u64,
    u1: Seq<u8>,
    a2: Seq<u8>,
    m2: u64,
    u2: Seq<u8>,
)
    requires
        a1.len() == a2.len(),
        pair_key(a1, m1, u1) == pair_key(a2, m2, u2),
    ensures
        a1 == a2,
        m1 == m2,
        u1 == u2,
{
    let k = pair_key(a1, m1, u1);
    let n = a1.len() as int;
    assert(a1 =~= k.take(n));
    assert(a2 =~= pair_key(a2, m2, u2).take(n));
    assert(u64_be(m1) =~= k.subrange(n, n + 8));
    assert(u64_be(m2) =~= pair_key(a2, m2, u2).subrange(n, n + 8));
    assert(u1 =~= k.skip(n + 8));
    assert(u2 =~= pair_key(a2, m2, u2).skip(n + 8));
    crate::persist::lemma_u64_be_injective();
}

/// Registering a pair that already has an index changes nothing and gives
/// that index; so registering a pair a second time repeats the first result.
pub proof fn lemma_save_pair_idempotent(v: ContractView, key: Seq<u8>)
    ensures
        v.pair_index.contains_key(key) ==> save_pair_spec(v, key) == (v, v.pair_index[key]),
        save_pair_spec(save_pair_spec(v, key).0, key) == save_pair_spec(v, key),
{
}

/// The owner change leaves the owner as it was when the sender's address
/// has the owner's length.
pub proof fn lemma_modify_owner_keeps_owner(v: ContractView, sender: Seq<u8>)
    requires
        is_owner(v, sender),
        sender.len() == v.owner.len(),
    ensures
        sender == v.owner,
{
    assert(sender =~= sender.take(v.owner.len() as int));
}

/// One ray is the unit of `ray_mul` and of `ray_div`.
pub proof fn lemma_ray_unit(x: nat)
    ensures
        ray_mul_spec(x, ray()) == x,
        ray_mul_spec(ray(), x) == x,
        ray_div_spec(x, ray()) == x,
{
    crate::u256::lemma_div_unique((x * ray() + half_ray()) as int, ray() as int, x as int, half_ray() as int);
    assert(ray() * x == x * ray()) by (nonlinear_arith);
}

/// `ray_mul` is commutative.
pub proof fn lemma_ray_mul_commutative(a: nat, b: nat)
    ensures
        ray_mul_spec(a, b) == ray_mul_spec(b, a),
{
    assert(a * b == b * a) by (nonlinear_arith);
}

/// A funded pool's funding ratio lies between 0.5 and 0.8.
pub proof fn lemma_forb_range(debt: nat, funding: nat)
    requires
        funding != 0,
    ensures
        half_ray() <= forb_spec(debt, funding) <= point_8_value(),
{
}

/// Between the two cut-off prices the series is taken at most at pi/2
/// (one unit above it, from the rounding of pi/2 itself).
pub proof fn lemma_sine_argument_range(p: nat)
    requires
        pi_div_12_value() <= p <= pi_div_4_value(),
    ensures
        sine_argument(p).0 <= pi_div_2_value() + 1,
{
}

/// With no fractional digits, `decimal` writes the same digits as `to_string`.
pub proof fn lemma_decimal_without_fraction(v: nat)
    ensures
        decimal_spec(v, 0) == dec_digits(v),
{
    if v != 0 {
        crate::decimal::lemma_dec_digits_ascii(v);
        let all = zero_padded(dec_digits(v), 1);
        assert(all == dec_digits(v));
        assert(all.skip(all.len() as int) =~= Seq::<u8>::empty());
        assert(strip_trailing_zeros(Seq::<u8>::empty()) == Seq::<u8>::empty());
        assert(all.take(all.len() as int) =~= all);
    }
}

/// Reading the decimal text of a number gives the number back.
pub proof fn lemma_decimal_round_trip(n: nat)
    ensures
        digit_bytes(dec_digits(n)),
        decimal_value(dec_digits(n)) == n,
    decreases n,
{
    crate::decimal::lemma_dec_digits_ascii(n);
    if n < 10 {
        let s = dec_digits(n);
        assert(s.drop_last() =~= Seq::<u8>::empty());
        assert(decimal_value(Seq::<u8>::empty()) == 0);
    } else {
        lemma_decimal_round_trip(n / 10);
        let s = dec_digits(n);
        assert(s.drop_last() =~= dec_digits(n / 10));
    }
}

/// A number below `10^k` has at most `k` decimal digits.
proof fn lemma_dec_digits_len(n: nat, k: nat)
    requires
        k >= 1,
        n < pow10(k),
    ensures
        dec_digits(n).len() <= k,
    decreases n,
{
    if n >= 10 {
        if k == 1 {
            assert(pow10(1) == 10 * pow10(0));
        } else {
            lemma_dec_digits_len(n / 10, (k - 1) as nat);
        }
    }
}

/// Parsing the text that `U256::to_string` writes gives the number back:
/// the bytes of that text are the number's decimal digits, all of them at
/// least `b'0'`, at most 77 of them below `10^77`, and they read as the
/// number; so `U256::from_str` on the text of `x` returns `Ok` of `x`'s value.
pub proof fn lemma_to_string_from_str_round_trip(n: nat)
    requires
        n < pow10(77),
    ensures
        encode_utf8(ascii_chars(dec_digits(n))) == dec_digits(n),
        digit_bytes(encode_utf8(ascii_chars(dec_digits(n)))),
        encode_utf8(ascii_chars(dec_digits(n))).len() <= 77,
        decimal_value(encode_utf8(ascii_chars(dec_digits(n)))) == n,
{
    let d = dec_digits(n);
    let t = ascii_chars(d);
    crate::decimal::lemma_dec_digits_ascii(n);
    assert(is_ascii_chars(t)) by {
        assert forall|i: int| 0 <= i < t.len() implies '\0' <= #[trigger] t[i] <= '\u{7f}' by {
            assert(48 <= d[i] < 58);
        }
    }
    is_ascii_chars_encode_utf8(t);
    assert forall|i: int| 0 <= i < d.len() implies #[trigger] encode_utf8(t)[i] == d[i] by {
        assert(t[i] as u8 == encode_utf8(t)[i]);
        assert(48 <= d[i] < 58);
    }
    assert(encode_utf8(t) =~= d);
    lemma_decimal_round_trip(n);
    lemma_dec_digits_len(n, 77);
}

/// The funding ratio from the occupancy `o = debt / funding` in rays
/// (rounded half up): 0.5 up to an occupancy of 0.2, `o / 2 + 0.4` above it
/// up to 0.8, and 0.8 beyond; so it rises strictly on `(0.2, 0.8]`.
pub proof fn lemma_forb_by_occupancy(debt: nat, funding: nat)
    requires
        funding > 0,
    ensures
        ({
            let o = (debt * 1_000_000_000_000_000_000_000_000_000 + funding / 2) / funding;
            &&& o <= 200_000_000_000_000_000_000_000_000 ==> forb_spec(debt, funding)
                == 500_000_000_000_000_000_000_000_000
            &&& 200_000_000_000_000_000_000_000_000 < o <= 800_000_000_000_000_000_000_000_000
                ==> forb_spec(debt, funding) == o / 2 + 400_000_000_000_000_000_000_000_000
            &&& o > 800_000_000_000_000_000_000_000_000 ==> forb_spec(debt, funding)
                == 800_000_000_000_000_000_000_000_000
        }),
{
}

/// The funding ratio never falls as the debt grows against the same funding.
pub proof fn lemma_forb_monotone(d1: nat, d2: nat, funding: nat)
    requires
        funding > 0,
        d1 <= d2,
    ensures
        forb_spec(d1, funding) <= forb_spec(d2, funding),
{
    let a = d1 * 1_000_000_000_000_000_000_000_000_000 + funding / 2;
    let b = d2 * 1_000_000_000_000_000_000_000_000_000 + funding / 2;
    assert(a <= b) by (nonlinear_arith)
        requires
            d1 <= d2,
            a == d1 * 1_000_000_000_000_000_000_000_000_000 + funding / 2,
            b == d2 * 1_000_000_000_000_000_000_000_000_000 + funding / 2,
    ;
    vstd::arithmetic::div_mod::lemma_div_is_ordered(a as int, b as int, funding as int);
}

/// The harvestable part of a pair's reward is the reward times the asset's
/// harvest ratio limit in rays, rounded half up; with no limit stored it is
/// zero and the whole reward stays locked; the two parts add up to the reward.
pub proof fn lemma_unlocked_by_ratio(v: ContractView, asset: Seq<u8>, mptype: u64, user: Seq<u8>)
    ensures
        ({
            let u = amount_of(v.unclaimed, pair_key(asset, mptype, user));
            let r = amount_of(v.harvest_ratio, asset);
            &&& unlocked_spec(v, asset, mptype, user) == (u * r + 500_000_000_000_000_000_000_000_000)
                / 1_000_000_000_000_000_000_000_000_000
            &&& !v.harvest_ratio.contains_key(asset) ==> unlocked_spec(v, asset, mptype, user) == 0
            &&& !v.harvest_ratio.contains_key(asset) ==> locked_spec(v, asset, mptype, user) == u
            &&& unlocked_spec(v, asset, mptype, user) <= u ==> locked_spec(v, asset, mptype, user)
                + unlocked_spec(v, asset, mptype, user) == u
        }),
{
}

/// A larger harvest ratio limit never unlocks less of the same reward.
pub proof fn lemma_unlocked_monotone(v: ContractView, asset: Seq<u8>, mptype: u64, user: Seq<u8>, r2: nat)
    requires
        amount_of(v.harvest_ratio, asset) <= r2,
    ensures
        unlocked_spec(v, asset, mptype, user) <= unlocked_spec(
            ContractView { harvest_ratio: v.harvest_ratio.insert(asset, r2), ..v },
            asset,
            mptype,
            user,
        ),
{
    let u = amount_of(v.unclaimed, pair_key(asset, mptype, user));
    let r1 = amount_of(v.harvest_ratio, asset);
    assert(u * r1 <= u * r2) by (nonlinear_arith)
        requires
            r1 <= r2,
    ;
    vstd::arithmetic::div_mod::lemma_div_is_ordered(
        (u * r1 + half_ray()) as int,
        (u * r2 + half_ray()) as int,
        ray() as int,
    );
}

/// What the first `n` entries of a batch credit to the pair key `k`: the
/// amounts of the entries whose asset, mining type and user make that key.
pub open spec fn credited(
    assets: Seq<Address>,
    mptypes: Seq<u64>,
    users: Seq<Address>,
    amounts: Seq<U256>,
    n: nat,
    k: Seq<u8>,
) -> nat
    decreases n,
{
    if n == 0 {
        0
    } else {
        let i = n - 1;
        credited(assets, mptypes, users, amounts, (n - 1) as nat, k) + if pair_key(
            assets[i].bytes(),
            mptypes[i],
            users[i].bytes(),
        ) == k {
            amounts[i].value()
        } else {
            0
        }
    }
}

/// After a batch, each pair's reward has grown by exactly the amounts of
/// the entries made of that pair's asset, mining type and user, and every
/// entry's pair is registered.
pub proof fn lemma_batch_mint_credits(
    v: ContractView,
    assets: Seq<Address>,
    mptypes: Seq<u64>,
    users: Seq<Address>,
    amounts: Seq<U256>,
    n: nat,
    k: Seq<u8>,
)
    ensures
        amount_of(batch_mint_spec(v, assets, mptypes, users, amounts, n).unclaimed, k) == amount_of(
            v.unclaimed,
            k,
        ) + credited(assets, mptypes, users, amounts, n, k),
        forall|i: int|
            0 <= i < n ==> #[trigger] batch_mint_spec(v, assets, mptypes, users, amounts, n).pair_index.contains_key(
                pair_key(assets[i].bytes(), mptypes[i], users[i].bytes()),
            ),
        forall|j: Seq<u8>|
            v.pair_index.contains_key(j) ==> #[trigger] batch_mint_spec(
                v,
                assets,
                mptypes,
                users,
                amounts,
                n,
            ).pair_index.contains_key(j),
    decreases n,
{
    if n > 0 {
        let m = (n - 1) as nat;
        lemma_batch_mint_credits(v, assets, mptypes, users, amounts, m, k);
        crate::contract::lemma_batch_mint_steps(v, assets, mptypes, users, amounts, n);
        let w = batch_mint_spec(v, assets, mptypes, users, amounts, m);
        let key = pair_key(assets[m as int].bytes(), mptypes[m as int], users[m as int].bytes());
        let w2 = batch_mint_spec(v, assets, mptypes, users, amounts, n);
        assert(w2 == mint_spec(save_pair_spec(w, key).0, key, amounts[m as int].value()));
        assert forall|i: int| 0 <= i < n implies #[trigger] w2.pair_index.contains_key(
            pair_key(assets[i].bytes(), mptypes[i], users[i].bytes()),
        ) by {
            if i < m {
                assert(w.pair_index.contains_key(pair_key(assets[i].bytes(), mptypes[i], users[i].bytes())));
            }
        }
        assert forall|j: Seq<u8>| v.pair_index.contains_key(j) implies #[trigger] w2.pair_index.contains_key(j) by {
            assert(w.pair_index.contains_key(j));
        }
    }
}

/// `10^n` is vstd's `pow(10, n)`.
proof fn lemma_pow10_is_pow(n: nat)
    ensures
        pow10(n) == pow(10, n),
        pow10(n) >= 1,
    decreases n,
{
    reveal(pow);
    if n > 0 {
        lemma_pow10_is_pow((n - 1) as nat);
        assert(pow(10, n) == 10 * pow(10, (n - 1) as nat));
    }
}

/// `q` is `a / d` rounded down: `q * d <= a < (q + 1) * d`.
proof fn lemma_floor_div(a: nat, d: nat)
    requires
        d > 0,
    ensures
        (a / d) * d <= a < (a / d + 1) * d,
{
    vstd::arithmetic::div_mod::lemma_fundamental_div_mod(a as int, d as int);
    assert((a / d) * d + a % d == a) by (nonlinear_arith)
        requires
            a == d * (a / d) + a % d,
    ;
    assert((a / d + 1) * d == (a / d) * d + d) by (nonlinear_arith);
}

/// A pool's values are its amounts times its price, scaled down by ten to
/// the pool's own decimals and rounded down: `value * 10^decimals <=
/// amount * price < (value + 1) * 10^decimals`; its total value is the sum
/// of the two and its total the sum of its funding and reserve.
pub proof fn lemma_pool_values(p: PoolDataView)
    ensures
        ({
            let info = pool_info_spec(p);
            let d = pow10(p.decimals as nat);
            &&& info.funding_value * d <= p.funding * p.price < (info.funding_value + 1) * d
            &&& info.reserve_value * d <= p.reserve * p.price < (info.reserve_value + 1) * d
            &&& info.total_value == info.funding_value + info.reserve_value
            &&& info.total == p.funding + p.reserve
            &&& info.funding == p.funding
            &&& info.reserve == p.reserve
            &&& info.pool_type == p.pool_type
        }),
{
    let d = pow10(p.decimals as nat);
    lemma_pow10_is_pow(p.decimals as nat);
    lemma_floor_div(p.funding * p.price, d);
    lemma_floor_div(p.reserve * p.price, d);
}

/// The reserve ratio by the price `p = v_maze / v_usp` in rays (rounded
/// half up), with pi taken as 3.141592653589793238462643383: 0.8 below
/// pi/12, 0.2 above pi/4, and between the two at least 0.5 while `6p < pi`,
/// where the sine of `6p` is added, and at most 0.5 once `6p >= pi`, where
/// it is subtracted; no ratio without either value.
pub proof fn lemma_svrb_by_price(vm: nat, vu: nat)
    ensures
        vm == 0 || vu == 0 ==> svrb_spec(vm, vu) == 0,
        ({
            let p = (vm * 1_000_000_000_000_000_000_000_000_000 + vu / 2) / vu;
            vm > 0 && vu > 0 ==> {
                &&& p < 261799387799149436538553615 ==> svrb_spec(vm, vu)
                    == 800_000_000_000_000_000_000_000_000
                &&& p > 785398163397448309615660845 ==> svrb_spec(vm, vu)
                    == 200_000_000_000_000_000_000_000_000
                &&& 261799387799149436538553615 <= p <= 785398163397448309615660845 && 6 * p
                    < 3141592653589793238462643383 ==> svrb_spec(vm, vu)
                    >= 500_000_000_000_000_000_000_000_000
                &&& 261799387799149436538553615 <= p <= 785398163397448309615660845 && 6 * p
                    >= 3141592653589793238462643383 ==> svrb_spec(vm, vu)
                    <= 500_000_000_000_000_000_000_000_000
            }
        }),
{
    if vm > 0 && vu > 0 {
        let p = ray_div_spec(vm, vu);
        if pi_div_12_value() <= p <= pi_div_4_value() {
            lemma_sine_argument_range(p);
            let (x, inverse) = sine_argument(p);
            lemma_sinx_and_add_sides(x, five_thirds());
            assert(five_thirds() == 1666666666666666666666666667);
            assert(inverse <==> p * 6 >= pi_value());
            let y = sinx_and_add_spec(x, five_thirds(), inverse);
            if inverse {
                assert(y * 3 / 10 <= 500_000_000_000_000_000_000_000_000);
            } else {
                assert(y * 3 / 10 >= 500_000_000_000_000_000_000_000_000);
            }
        }
    }
}

/// Settling shares keeps every pool's amounts and values as the pool gave
/// them; the maze pool (pool 0) is weighted by the reserve ratio of its value
/// against all stable value, a stable pool by its value's fraction of the
/// other stable pools' value, an index pool by its fraction of the index
/// pools' value, each with the funding ratio of its own debt and funding; a
/// debt pool gets what is left of the mined amount after the stable and
/// index parts, per unit of its funding.
pub proof fn lemma_share_weights(pools: Seq<PoolData>, params: MineParamsView, i: int)
    requires
        0 <= i < pools.len(),
    ensures
        ({
            let r = share_result(pools, params, i);
            let b = pool_info_spec(pools[i]@);
            let c = share_context(pools, params);
            &&& r.pool_type == b.pool_type && r.funding == b.funding && r.reserve == b.reserve
            &&& r.total == b.total && r.funding_value == b.funding_value
            &&& r.reserve_value == b.reserve_value && r.total_value == b.total_value
            &&& i == 0 ==> r.vwd == svrb_spec(c.v_maze, c.v_usp) && r.forb == forb_spec(
                pools[0]@.debt,
                b.funding,
            )
            &&& i > 0 && b.pool_type == USP && c.v_stable != 0 ==> r.vwd == (b.total_value
                * 1_000_000_000_000_000_000_000_000_000 + c.v_stable / 2) / c.v_stable && r.forb
                == forb_spec(pools[i]@.debt, b.funding)
            &&& i > 0 && b.pool_type == ISP && c.v_isp != 0 ==> r.vwd == (b.total_value
                * 1_000_000_000_000_000_000_000_000_000 + c.v_isp / 2) / c.v_isp && r.forb
                == forb_spec(pools[i]@.debt, b.funding)
            &&& i > 0 && b.pool_type == DP && b.funding != 0 ==> r.funding_share == (c.y_dp
                * 1_000_000_000_000_000_000_000_000_000 + b.funding / 2) / b.funding
            &&& c.y_usp + c.y_isp <= c.y ==> c.y_dp == c.y - c.y_usp - c.y_isp
        }),
{
}

} // verus!
