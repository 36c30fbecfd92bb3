use simd_rescue_prime::ff::{
    to_canonical, vec_add_ff_p64, vec_add_ff_p64_, vec_mul_ff_p64, vec_mul_ff_p64_, U64x4, MOD,
};
use std::collections::hash_map::RandomState;
use std::hash::{BuildHasher, Hasher};

fn reduced(v: U64x4) -> [u64; 4] {
    v.map(|x| x % MOD)
}

fn random_u64() -> u64 {
    let mut h = RandomState::new().build_hasher();
    h.write_u64(0x5eed);
    h.finish()
}

fn random_vector() -> U64x4 {
    let mut a = [0u64; 4];
    for lane in a.iter_mut() {
        *lane = random_u64() % MOD;
    }
    a
}

#[test]
fn test_ff_mul_1_() {
    let a = [random_vector(), random_vector(), random_vector()];
    let b = vec_mul_ff_p64(a, [[1u64; 4]; 3]);

    assert_eq!(reduced(b[0]), a[0]);
    assert_eq!(reduced(b[1]), a[1]);
    assert_eq!(reduced(b[2]), a[2]);
}

#[test]
fn test_ff_mul_2_() {
    let a: U64x4 = [3u64; 4];
    let b: U64x4 = [5u64; 4];
    assert_eq!(reduced(vec_mul_ff_p64_(a, b)), [15u64; 4]);
}

#[test]
fn test_ff_mul_3_() {
    let a = [[MOD - 1; 4]; 3];
    let b = [[2u64; 4]; 3];
    let c = [[4u64; 4]; 3];

    let res_0 = vec_mul_ff_p64(a, a);
    assert_eq!(reduced(res_0[0]), [1u64; 4]);
    assert_eq!(reduced(res_0[1]), [1u64; 4]);
    assert_eq!(reduced(res_0[2]), [1u64; 4]);

    let res_1 = vec_mul_ff_p64(a, b);
    assert_eq!(reduced(res_1[0]), [MOD - 2; 4]);
    assert_eq!(reduced(res_1[1]), [MOD - 2; 4]);
    assert_eq!(reduced(res_1[2]), [MOD - 2; 4]);

    let res_2 = vec_mul_ff_p64(a, c);
    assert_eq!(reduced(res_2[0]), [MOD - 4; 4]);
    assert_eq!(reduced(res_2[1]), [MOD - 4; 4]);
    assert_eq!(reduced(res_2[2]), [MOD - 4; 4]);
}

#[test]
fn test_ff_mul_4_() {
    let a = [[(MOD + 1) / 2; 4]; 3];
    let b = [[2u64; 4]; 3];

    let res = vec_mul_ff_p64(a, b);
    assert_eq!(reduced(res[0]), [1u64; 4]);
    assert_eq!(reduced(res[1]), [1u64; 4]);
    assert_eq!(reduced(res[2]), [1u64; 4]);
}

#[test]
fn test_ff_add_0_() {
    let a = [random_vector(), random_vector(), random_vector()];
    let res = vec_add_ff_p64(a, [[0u64; 4]; 3]);

    assert_eq!(reduced(res[0]), a[0]);
    assert_eq!(reduced(res[1]), a[1]);
    assert_eq!(reduced(res[2]), a[2]);
}

#[test]
fn test_ff_add_1_() {
    let a = [[2u64; 4]; 3];
    let b = [[3u64; 4]; 3];
    let res = vec_add_ff_p64(a, b);

    assert_eq!(reduced(res[0]), [5u64; 4]);
    assert_eq!(reduced(res[1]), [5u64; 4]);
    assert_eq!(reduced(res[2]), [5u64; 4]);
}

#[test]
fn test_ff_add_2_() {
    let a = [[MOD - 1; 4]; 3];
    let b = [[1u64; 4]; 3];
    let c: [U64x4; 3] = [[2u64; 4]; 3];

    let res_0 = vec_add_ff_p64(a, b);
    assert_eq!(reduced(res_0[0]), [0u64; 4]);
    assert_eq!(reduced(res_0[1]), [0u64; 4]);
    assert_eq!(reduced(res_0[2]), [0u64; 4]);

    let res_1 = vec_add_ff_p64(a, c);
    assert_eq!(reduced(res_1[0]), [1u64; 4]);
    assert_eq!(reduced(res_1[1]), [1u64; 4]);
    assert_eq!(reduced(res_1[2]), [1u64; 4]);
}

#[test]
fn test_ff_add_3_() {
    let a = [[MOD - 1; 4]; 3];
    let b = [[0xffffffffu64; 4]; 3];

    let res = vec_add_ff_p64(a, b);
    assert_eq!(reduced(res[0]), [0xfffffffeu64; 4]);
    assert_eq!(reduced(res[1]), [0xfffffffeu64; 4]);
    assert_eq!(reduced(res[2]), [0xfffffffeu64; 4]);
}

#[test]
fn mul_by_zero_is_zero() {
    for a in [0u64, 1, 12345, MOD - 1, MOD, MOD + 7, u64::MAX] {
        let r = vec_mul_ff_p64_([a; 4], [0; 4]);
        assert_eq!(r.map(to_canonical), [0; 4]);
    }
}

#[test]
fn mul_by_one_keeps_value() {
    for a in [0u64, 1, 12345, MOD - 1, MOD, MOD + 7, u64::MAX] {
        let r = vec_mul_ff_p64_([a; 4], [1; 4]);
        assert_eq!(r.map(to_canonical), [to_canonical(a); 4]);
    }
}

#[test]
fn mul_commutes_on_wide_lanes() {
    let a: U64x4 = [u64::MAX, MOD, 0xdead_beef_0123_4567, 3];
    let b: U64x4 = [u64::MAX - 5, 0x1_0000_0000, MOD + 1, 0xffff_ffff_ffff];
    let ab = vec_mul_ff_p64_(a, b).map(to_canonical);
    let ba = vec_mul_ff_p64_(b, a).map(to_canonical);
    assert_eq!(ab, ba);
    for j in 0..4 {
        let exact = ((a[j] as u128 * b[j] as u128) % MOD as u128) as u64;
        assert_eq!(ab[j], exact);
    }
}

#[test]
fn add_zero_keeps_value() {
    for a in [0u64, 1, MOD - 1, MOD, MOD + 7, u64::MAX] {
        let r = vec_add_ff_p64_([a; 4], [0; 4]);
        assert_eq!(r.map(to_canonical), [to_canonical(a); 4]);
    }
}

#[test]
fn add_negation_is_zero() {
    for a in [0u64, 1, 99, MOD - 1, MOD, MOD + 7, u64::MAX] {
        let neg = MOD - a % MOD;
        let r = vec_add_ff_p64_([a; 4], [neg; 4]);
        assert_eq!(r.map(to_canonical), [0; 4]);
    }
}

#[test]
fn add_matches_wide_sum() {
    let a: U64x4 = [u64::MAX, MOD, MOD - 1, 0xffff_ffff];
    let b: U64x4 = [u64::MAX, u64::MAX, MOD + 3, MOD - 1];
    let r = vec_add_ff_p64_(a, b).map(to_canonical);
    for j in 0..4 {
        let exact = ((a[j] as u128 + b[j] as u128) % MOD as u128) as u64;
        assert_eq!(r[j], exact);
    }
}

#[test]
fn canonical_form() {
    assert_eq!(to_canonical(0), 0);
    assert_eq!(to_canonical(MOD - 1), MOD - 1);
    assert_eq!(to_canonical(MOD), 0);
    assert_eq!(to_canonical(u64::MAX), 0xfffffffe);
}
