use maze_mining::types::pool_info_fits;
use maze_mining::utils::{calculate_share_fits, ray_div_fits, ray_mul_fits};
use maze_mining::constants::{pi, pi_div_12, pi_div_2, pi_div_4, point_2, point_4, point_8};
use maze_mining::decimal::decimal;
use maze_mining::types::{MineParams, PoolData};
use maze_mining::u256::U256;
use maze_mining::utils::{
    calculate_forb, calculate_share, calculate_svrb, fac, ray_pow, sinx_and_add, RayMath,
};

fn u(s: &str) -> U256 {
    U256::from_str(s).unwrap()
}

fn n(x: u64) -> U256 {
    U256::from_u64(x)
}

const RAY: &str = "1000000000000000000000000000";

fn rays(k: u64) -> U256 {
    n(k).mul(&RayMath::ray())
}

#[test]
fn ray_constants() {
    assert_eq!(RayMath::ray().to_string(), RAY);
    assert_eq!(RayMath::half_ray().to_string(), "500000000000000000000000000");
    assert_eq!(pi().to_string(), "3141592653589793238462643383");
    assert_eq!(pi_div_2().to_string(), "1570796326794896619231321691");
    assert_eq!(pi_div_12().to_string(), "261799387799149436538553615");
    assert_eq!(pi_div_4().to_string(), "785398163397448309615660845");
    assert_eq!(point_8().to_string(), "800000000000000000000000000");
    assert_eq!(point_2().to_string(), "200000000000000000000000000");
    assert_eq!(point_4().to_string(), "400000000000000000000000000");
}

#[test]
fn ray_mul_and_div_round_half_up() {
    let half = RayMath::half_ray();
    assert_eq!(RayMath::ray_mul(&rays(3), &half).to_string(), "1500000000000000000000000000");
    // 1 * 0.5 rounds up to 1
    assert_eq!(RayMath::ray_mul(&n(1), &half).u64(), 1);
    // 1 * 0.4999.. rounds down to 0
    assert_eq!(RayMath::ray_mul(&n(1), &u("499999999999999999999999999")).u64(), 0);
    assert!(RayMath::ray_mul(&n(0), &U256::max()).is_zero());
    assert_eq!(RayMath::ray_div(&n(1), &n(3)).to_string(), "333333333333333333333333333");
    assert_eq!(RayMath::ray_div(&n(2), &n(3)).to_string(), "666666666666666666666666667");
    assert_eq!(RayMath::ray_div(&n(5), &n(3)).to_string(), "1666666666666666666666666667");
}

#[test]
fn ray_unit_law_on_values() {
    let x = u("123456789012345678901234567890");
    assert!(RayMath::ray_mul(&x, &RayMath::ray()).equals(&x));
    assert!(RayMath::ray_mul(&RayMath::ray(), &x).equals(&x));
    assert!(RayMath::ray_div(&x, &RayMath::ray()).equals(&x));
    let y = u("987654321098765432109876");
    assert!(RayMath::ray_mul(&x, &y).equals(&RayMath::ray_mul(&y, &x)));
}

#[test]
fn ray_pow_and_factorial() {
    assert_eq!(ray_pow(&rays(2), 3).to_string(), "8000000000000000000000000000");
    assert_eq!(ray_pow(&RayMath::half_ray(), 2).to_string(), "250000000000000000000000000");
    assert_eq!(ray_pow(&n(12345), 0).to_string(), RAY);
    assert_eq!(fac(0), 1);
    assert_eq!(fac(5), 120);
    assert_eq!(fac(19), 121645100408832000);
    assert_eq!(fac(20), 2432902008176640000);
}

#[test]
fn sine_series() {
    // sin(1) = 0.8414709848...
    assert_eq!(sinx_and_add(&rays(1), &n(0), false).to_string(), "841470984807896506632967998");
    // sin(0.5) = 0.4794255386...
    assert_eq!(
        sinx_and_add(&RayMath::half_ray(), &n(0), false).to_string(),
        "479425538604203000273287926"
    );
    // 2 - sin(1)
    assert_eq!(sinx_and_add(&rays(1), &rays(2), true).to_string(), "1158529015192103493367032002");
    // 0 - sin(1) is cut at zero
    assert!(sinx_and_add(&rays(1), &n(0), true).is_zero());
}

#[test]
fn svrb_by_price() {
    let cases: [(u64, u64, &str); 11] = [
        (1, 10, "800000000000000000000000000"),
        (1, 4, "800000000000000000000000000"),
        (1, 5, "800000000000000000000000000"),
        (3, 10, "792154289263458553158999528"),
        (1, 3, "772789228047704508524314132"),
        (2, 5, "702638954165345277969720447"),
        (1, 2, "542336002417960166630223441"),
        (7, 20, "758962809994662131190439741"),
        (0, 5, "0"),
        (5, 0, "0"),
        (100, 1, "200000000000000000000000000"),
    ];
    for (vm, vu, expected) in cases.iter() {
        assert_eq!(calculate_svrb(&n(*vm), &n(*vu)).to_string(), *expected);
    }
}

#[test]
fn forb_by_occupancy() {
    let cases: [(u64, u64, &str); 8] = [
        (0, 10, "500000000000000000000000000"),
        (1, 10, "500000000000000000000000000"),
        (2, 10, "500000000000000000000000000"),
        (3, 10, "550000000000000000000000000"),
        (5, 10, "650000000000000000000000000"),
        (8, 10, "800000000000000000000000000"),
        (9, 10, "800000000000000000000000000"),
        (7, 0, "0"),
    ];
    for (debt, funding, expected) in cases.iter() {
        assert_eq!(calculate_forb(&n(*debt), &n(*funding)).to_string(), *expected);
    }
}

#[test]
fn decimal_text() {
    let cases: [(&str, u32, &str); 10] = [
        ("0", 3, "0"),
        ("5", 3, "0.005"),
        ("1000", 3, "1"),
        ("123456", 3, "123.456"),
        ("120", 3, "0.12"),
        ("1", 0, "1"),
        ("1234", 0, "1234"),
        ("1000000000000000000000000000", 27, "1"),
        ("1500000000000000000000000000", 27, "1.5"),
        ("7", 10, "0.0000000007"),
    ];
    for (v, d, expected) in cases.iter() {
        assert_eq!(decimal(&u(v), *d), *expected);
    }
    assert_eq!(decimal(&u("98765"), 0), u("98765").to_string());
}

fn pool(t: u64, funding: &str, reserve: &str, debt: &str, price: &str) -> PoolData {
    PoolData {
        pool_type: t,
        funding: u(funding),
        reserve: u(reserve),
        debt: u(debt),
        price: u(price),
        decimals: 18,
    }
}

#[test]
fn share_of_each_pool() {
    let r = |k: &str| format!("{}000000000000000000000000000", k);
    let pools = vec![
        pool(0, &r("1000"), &r("500"), &r("200"), "2000000000000000000"),
        pool(0, &r("3000"), "0", "0", "1000000000000000000"),
        pool(1, &r("200"), &r("100"), &r("50"), "500000000000000000"),
        pool(2, &r("400"), "0", "0", "1000000000000000000"),
        pool(0, "0", "0", "0", "1000000000000000000"),
        pool(1, "0", &r("50"), "0", "2000000000000000000"),
    ];
    let params = MineParams {
        y_global: u(&r("10")),
        k: u("500000000000000000000000000"),
        r_usp: u("600000000000000000000000000"),
        r_dp: u("200000000000000000000000000"),
        r_isp: u("300000000000000000000000000"),
    };
    let out = calculate_share(&pools, &params);
    assert_eq!(out.len(), 6);
    let expect = [
        ("500000000000000000000000000", "542336002417960166630223441", "813504003626940249945335", "1627008007253880499890670"),
        ("500000000000000000000000000", "1000000000000000000000000000", "228831998791019916684888", "0"),
        ("525000000000000000000000000", "600000000000000000000000000", "2362500000000000000000000", "4275000000000000000000000"),
        ("0", "0", "1250000000000000000000000", "0"),
        ("0", "0", "0", "0"),
        ("0", "400000000000000000000000000", "0", "12000000000000000000000000"),
    ];
    for (i, (forb, vwd, fs, rs)) in expect.iter().enumerate() {
        assert_eq!(out[i].forb.to_string(), *forb, "forb of pool {}", i);
        assert_eq!(out[i].vwd.to_string(), *vwd, "vwd of pool {}", i);
        assert_eq!(out[i].funding_share.to_string(), *fs, "funding share of pool {}", i);
        assert_eq!(out[i].reserve_share.to_string(), *rs, "reserve share of pool {}", i);
    }
    assert_eq!(out[0].total_value.to_string(), r("3000"));
    assert_eq!(out[2].funding_value.to_string(), r("100"));
    assert_eq!(out[5].reserve_value.to_string(), r("100"));
    assert_eq!(out[3].total.to_string(), r("400"));
}

#[test]
fn fits_checks_of_the_formulas() {
    let max = U256::max();
    assert!(ray_mul_fits(&n(0), &max));
    assert!(!ray_mul_fits(&max, &n(1)));
    assert!(ray_mul_fits(&rays(1000), &rays(1000)));
    assert!(!ray_div_fits(&n(1), &n(0)));
    assert!(ray_div_fits(&n(1), &n(3)));
    assert!(!ray_div_fits(&max, &n(3)));
    let p = pool(0, "1000", "0", "0", "1");
    assert!(pool_info_fits(&p));
    let q = PoolData { decimals: 78, ..pool(0, "1000", "0", "0", "1") };
    assert!(!pool_info_fits(&q));
    let params = MineParams {
        y_global: rays(10),
        k: RayMath::half_ray(),
        r_usp: u("600000000000000000000000000"),
        r_dp: u("200000000000000000000000000"),
        r_isp: u("300000000000000000000000000"),
    };
    assert!(calculate_share_fits(&[pool(0, "1000", "0", "0", "1")], &params));
    assert!(!calculate_share_fits(&[], &params));
    let greedy = MineParams {
        y_global: rays(10),
        k: RayMath::half_ray(),
        r_usp: u("900000000000000000000000000"),
        r_dp: U256::zero(),
        r_isp: u("300000000000000000000000000"),
    };
    // the stable and index parts exceed the output
    assert!(!calculate_share_fits(&[pool(0, "1000", "0", "0", "1")], &greedy));
}
