use simd_rescue_prime::ff::{to_canonical, vec_add_ff_p64, U64x4, MOD};
use simd_rescue_prime::rescue_prime::{apply_inv_sbox, apply_mds, apply_rescue_permutation, apply_sbox};
use simd_rescue_prime::{hash_elements, merge};

fn reduced(v: U64x4) -> [u64; 4] {
    v.map(|x| x % MOD)
}

/// Arbitrary, fixed, canonical tables standing in for the MDS matrix and the
/// round constants, for checks that hold whatever the tables are.
fn sample_tables() -> ([U64x4; 36], [U64x4; 21], [U64x4; 21]) {
    let mut seed: u64 = 0x9e37_79b9_7f4a_7c15;
    let mut next = move || {
        seed = seed.wrapping_add(0x9e37_79b9_7f4a_7c15);
        let mut z = seed;
        z = (z ^ (z >> 30)).wrapping_mul(0xbf58_476d_1ce4_e5b9);
        z = (z ^ (z >> 27)).wrapping_mul(0x94d0_49bb_1331_11eb);
        (z ^ (z >> 31)) % MOD
    };
    let mut mds = [[0u64; 4]; 36];
    let mut ark1 = [[0u64; 4]; 21];
    let mut ark2 = [[0u64; 4]; 21];
    for v in mds.iter_mut().chain(ark1.iter_mut()).chain(ark2.iter_mut()) {
        for lane in v.iter_mut() {
            *lane = next();
        }
    }
    (mds, ark1, ark2)
}

fn digest(state: [U64x4; 3]) -> [u64; 4] {
    state[0].map(to_canonical)
}

#[test]
fn test_apply_sbox() {
    let state: [U64x4; 3] = [
        [1 << 10, 1 << 11, 1 << 12, 1 << 13],
        [1 << 20, 1 << 21, 1 << 22, 1 << 23],
        [1 << 60, 1 << 61, 1 << 62, 1 << 63],
    ];
    let res = apply_sbox(state);

    assert_eq!(
        reduced(res[0]),
        [274877906880, 35184372080640, 4503599626321920, 576460752169205760,]
    );
    assert_eq!(
        reduced(res[1]),
        [
            18446726477228539905,
            18444492269600899073,
            18158513693262872577,
            18446744060824649731,
        ]
    );
    assert_eq!(
        reduced(res[2]),
        [68719476736, 8796093022208, 1125899906842624, 144115188075855872,]
    );
}

#[test]
fn test_apply_inv_sbox() {
    let state: [U64x4; 3] = [
        [1 << 10, 1 << 11, 1 << 12, 1 << 13],
        [1 << 20, 1 << 21, 1 << 22, 1 << 23],
        [1 << 60, 1 << 61, 1 << 62, 1 << 63],
    ];
    let res = apply_inv_sbox(state);

    assert_eq!(
        reduced(res[0]),
        [18446743794536677441, 536870912, 4503599626321920, 18446735273321562113,]
    );
    assert_eq!(
        reduced(res[1]),
        [18446726477228539905, 8, 288230376151711744, 18446744069414453249,]
    );
    assert_eq!(
        reduced(res[2]),
        [68719476736, 576460752169205760, 18445618169507741697, 512,]
    );
}

#[test]
fn test_merge() {
    let state: [u64; 8] = [1 << 0, 1 << 1, 1 << 2, 1 << 3, 1 << 4, 1 << 5, 1 << 6, 1 << 7];
    let (mds, ark1, ark2) = sample_tables();

    assert_eq!(hash_elements(&state, mds, ark1, ark2), merge(state, mds, ark1, ark2));
}

#[test]
fn sbox_round_trip() {
    let state: [U64x4; 3] = [
        [0, 1, 2, 3],
        [1 << 20, MOD - 1, MOD - 2, 1 << 33],
        [1 << 60, 1 << 61, 1 << 62, 1 << 63],
    ];
    let res = apply_inv_sbox(apply_sbox(state));
    for i in 0..3 {
        assert_eq!(res[i].map(to_canonical), state[i]);
    }
    let res = apply_sbox(apply_inv_sbox(state));
    for i in 0..3 {
        assert_eq!(res[i].map(to_canonical), state[i]);
    }
}

#[test]
fn sbox_is_seventh_power() {
    let state: [U64x4; 3] = [[2, 3, 5, 7], [11, 13, 17, 19], [23, 29, 31, 37]];
    let res = apply_sbox(state);
    for i in 0..3 {
        for j in 0..4 {
            let x = state[i][j] as u128;
            let mut expected: u128 = 1;
            for _ in 0..7 {
                expected = expected * x % MOD as u128;
            }
            assert_eq!(to_canonical(res[i][j]) as u128, expected);
        }
    }
}

#[test]
fn mds_of_identity_rows() {
    // the matrix with ones on its diagonal leaves the state as it is
    let mut mds = [[0u64; 4]; 36];
    for r in 0..12 {
        mds[3 * r + r / 4][r % 4] = 1;
    }
    let state: [U64x4; 3] = [[0, 1, 2, 3], [4, 5, 6, 7], [8, 9, 10, MOD + 11]];
    let res = apply_mds(state, mds);
    assert_eq!(res.map(|v| v.map(to_canonical)), [[0, 1, 2, 3], [4, 5, 6, 7], [8, 9, 10, 11]]);
}

#[test]
fn mds_row_sums() {
    // every entry 1: each lane becomes the sum of the state
    let mds = [[1u64; 4]; 36];
    let state: [U64x4; 3] = [[0, 1, 2, 3], [4, 5, 6, 7], [8, 9, 10, 11]];
    let res = apply_mds(state, mds);
    assert_eq!(res.map(|v| v.map(to_canonical)), [[66; 4]; 3]);
    let state: [U64x4; 3] = [[MOD - 1; 4]; 3];
    let res = apply_mds(state, mds);
    assert_eq!(res.map(|v| v.map(to_canonical)), [[MOD - 12; 4]; 3]);
}

#[test]
fn hash_of_empty_input_is_zero() {
    let (mds, ark1, ark2) = sample_tables();
    assert_eq!(hash_elements(&[], mds, ark1, ark2), [0, 0, 0, 0]);
}

#[test]
fn hash_of_one_element_permutes_once() {
    let (mds, ark1, ark2) = sample_tables();
    let expected = digest(apply_rescue_permutation(
        [[42, 0, 0, 0], [0; 4], [0, 0, 0, 1]],
        mds,
        ark1,
        ark2,
    ));
    assert_eq!(hash_elements(&[42], mds, ark1, ark2), expected);
}

#[test]
fn hash_of_eight_elements_permutes_once() {
    let (mds, ark1, ark2) = sample_tables();
    let input: [u64; 8] = [0, 1, 2, 3, 4, 5, 6, 7];
    let expected = digest(apply_rescue_permutation(
        [[0, 1, 2, 3], [4, 5, 6, 7], [0, 0, 0, 8]],
        mds,
        ark1,
        ark2,
    ));
    assert_eq!(hash_elements(&input, mds, ark1, ark2), expected);
    assert_eq!(merge(input, mds, ark1, ark2), expected);
}

#[test]
fn hash_of_nine_elements_permutes_twice() {
    let (mds, ark1, ark2) = sample_tables();
    let input: [u64; 9] = [1, 2, 3, 4, 5, 6, 7, 8, 9];
    let first = apply_rescue_permutation([[1, 2, 3, 4], [5, 6, 7, 8], [0, 0, 0, 9]], mds, ark1, ark2);
    let second = apply_rescue_permutation(
        vec_add_ff_p64(first, [[9, 0, 0, 0], [0; 4], [0; 4]]),
        mds,
        ark1,
        ark2,
    );
    assert_eq!(hash_elements(&input, mds, ark1, ark2), digest(second));
}

#[test]
fn hash_of_six_elements_pads_with_zero() {
    let (mds, ark1, ark2) = sample_tables();
    let input: [u64; 6] = [MOD + 1, 2, 3, 4, u64::MAX, 6];
    let expected = digest(apply_rescue_permutation(
        vec_add_ff_p64([[0; 4], [0; 4], [0, 0, 0, 6]], [[MOD + 1, 2, 3, 4], [u64::MAX, 6, 0, 0], [0; 4]]),
        mds,
        ark1,
        ark2,
    ));
    assert_eq!(hash_elements(&input, mds, ark1, ark2), expected);
    for lane in expected {
        assert!(lane < MOD);
    }
}

#[test]
fn merge_matches_hash_on_extreme_values() {
    let (mds, ark1, ark2) = sample_tables();
    let input: [u64; 8] = [u64::MAX, MOD, MOD - 1, 0, 1, 0xffff_ffff, 1 << 63, 12345];
    assert_eq!(hash_elements(&input, mds, ark1, ark2), merge(input, mds, ark1, ark2));
}
