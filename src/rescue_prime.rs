use vstd::arithmetic::power::pow;
use vstd::arithmetic::power2::pow2;
use vstd::prelude::*;

use crate::ff::{
    fe, to_canonical, vec_add_ff_p64, vec_add_ff_p64_, vec_mul_ff_p64, U64x4, MOD, ULONG_MAX,
};
use crate::model::{
    absorb_blocks, add_at, add_layer, field_vals, hash_spec, inv_sbox, inv_sbox_layer,
    lemma_fe_add_congr, lemma_inv_sbox_lane, lemma_sbox_lane, lemma_square_lane, lemma_sum12,
    lemma_sum_congr, mds_layer, merge_spec, permute, round, round_consts, rounds, row_dot, sbox,
    sbox_layer, sponge, sum,
};

verus! {

/// Number of rounds of the permutation.
pub const NUM_ROUNDS: usize = 7;

/// Number of rate lanes, into which input is absorbed.
pub const RATE_WIDTH: usize = 8;

/// Forward S-box, `x^7` on every lane, as `x * (x^2 * x^4)`.
pub fn apply_sbox(state: [U64x4; 3]) -> (r: [U64x4; 3])
    ensures
        field_vals(r@) == sbox_layer(field_vals(state@)),
{
    let state2 = vec_mul_ff_p64(state, state);
    let state4 = vec_mul_ff_p64(state2, state2);
    let state6 = vec_mul_ff_p64(state2, state4);

    let r = vec_mul_ff_p64(state, state6);
    assert forall|i: int, j: int| 0 <= i < 3 && 0 <= j < 4 implies
        fe(#[trigger] r[i][j] as int) == sbox(fe(state[i][j] as int)) by {
        lemma_sbox_lane(state[i][j] as int, state2[i][j] as int, state4[i][j] as int,
            state6[i][j] as int, r[i][j] as int);
    }
    assert(field_vals(r@) =~= sbox_layer(field_vals(state@)));
    r
}

/// `base^(2^m) * tail` on every lane: `m` squarings, then one product.
fn exp_acc(m: usize, base: [U64x4; 3], tail: [U64x4; 3]) -> (r: [U64x4; 3])
    ensures
        forall|i: int, j: int| 0 <= i < 3 && 0 <= j < 4 ==>
            fe(#[trigger] r[i][j] as int) == fe(pow(base[i][j] as int, pow2(m as nat)) * tail[i][j]),
{
    let mut res = base;
    proof {
        assert forall|i: int, j: int| 0 <= i < 3 && 0 <= j < 4 implies
            fe(#[trigger] res[i][j] as int) == fe(pow(base[i][j] as int, pow2(0))) by {
            vstd::arithmetic::power::lemma_pow1(base[i][j] as int);
            vstd::arithmetic::power2::lemma2_to64();
        }
    }
    let mut k: usize = 0;
    while k < m
        invariant
            k <= m,
            forall|i: int, j: int| 0 <= i < 3 && 0 <= j < 4 ==>
                fe(#[trigger] res[i][j] as int) == fe(pow(base[i][j] as int, pow2(k as nat))),
        decreases m - k,
    {
        let sq = vec_mul_ff_p64(res, res);
        assert forall|i: int, j: int| 0 <= i < 3 && 0 <= j < 4 implies
            fe(#[trigger] sq[i][j] as int) == fe(pow(base[i][j] as int, pow2((k + 1) as nat))) by {
            lemma_square_lane(base[i][j] as int, res[i][j] as int, sq[i][j] as int, k as nat);
        }
        res = sq;
        k = k + 1;
    }

    let r = vec_mul_ff_p64(res, tail);
    assert forall|i: int, j: int| 0 <= i < 3 && 0 <= j < 4 implies
        fe(#[trigger] r[i][j] as int) == fe(pow(base[i][j] as int, pow2(m as nat)) * tail[i][j]) by {
        crate::model::lemma_fe_mul(res[i][j] as int, tail[i][j] as int);
        crate::model::lemma_fe_mul(pow(base[i][j] as int, pow2(m as nat)), tail[i][j] as int);
    }
    r
}

/// Inverse S-box, `x^(1/7)` on every lane, by a fixed addition chain.
pub fn apply_inv_sbox(state: [U64x4; 3]) -> (r: [U64x4; 3])
    ensures
        field_vals(r@) == inv_sbox_layer(field_vals(state@)),
{
    let t1 = vec_mul_ff_p64(state, state);
    let t2 = vec_mul_ff_p64(t1, t1);

    let t3 = exp_acc(3, t2, t2);
    let t4a = exp_acc(6, t3, t3);
    let t4 = exp_acc(12, t4a, t4a);

    let t5 = exp_acc(6, t4, t3);
    let t6 = exp_acc(31, t5, t5);

    let a0 = vec_mul_ff_p64(t6, t6);
    let a1 = vec_mul_ff_p64(a0, t5);
    let a2 = vec_mul_ff_p64(a1, a1);
    let a3 = vec_mul_ff_p64(a2, a2);
    let b0 = vec_mul_ff_p64(t1, t2);
    let b = vec_mul_ff_p64(b0, state);

    let r = vec_mul_ff_p64(a3, b);
    assert forall|i: int, j: int| 0 <= i < 3 && 0 <= j < 4 implies
        fe(#[trigger] r[i][j] as int) == inv_sbox(fe(state[i][j] as int)) by {
        lemma_inv_sbox_lane(state[i][j] as int, t1[i][j] as int, t2[i][j] as int,
            t3[i][j] as int, t4a[i][j] as int, t4[i][j] as int, t5[i][j] as int,
            t6[i][j] as int, a0[i][j] as int, a1[i][j] as int, a2[i][j] as int,
            a3[i][j] as int, b0[i][j] as int, b[i][j] as int, r[i][j] as int);
    }
    assert(field_vals(r@) =~= inv_sbox_layer(field_vals(state@)));
    r
}

/// Sum of two lanes modulo `p`; `b` is brought below `p` first, and an overflow
/// of `2^64` is taken back by subtracting `p` with wrap-around.
fn reduce_add(a: u64, b: u64) -> (r: u64)
    ensures
        fe(r as int) == fe(a + b),
{
    let b2 = b - MOD * ((b >= MOD) as u64);
    let over = a > ULONG_MAX - b2;
    let res = a.wrapping_add(b2);
    let r = res.wrapping_sub(MOD * (over as u64));
    proof {
        let k: int = if b >= MOD { 1 } else { 0 };
        assert(r == a + b - (MOD as int) * k - (MOD as int) * (if over { 1int } else { 0 }));
        crate::ff::lemma_fe_shift(r as int, a + b, -k - (if over { 1int } else { 0 }));
    }
    r
}

/// Sum of the four lanes modulo `p`, as a balanced tree of pairwise sums.
fn reduce_sum_vec4(a: U64x4) -> (r: u64)
    ensures
        fe(r as int) == fe(a[0] + a[1] + a[2] + a[3]),
{
    let a0 = reduce_add(a[0], a[1]);
    let a1 = reduce_add(a[2], a[3]);
    let r = reduce_add(a0, a1);
    proof {
        lemma_fe_add_congr(a0 as int, a1 as int, a[0] + a[1], a[2] + a[3]);
    }
    r
}

/// Sum of all twelve lanes modulo `p`.
fn reduce_sum(a: [U64x4; 3]) -> (r: u64)
    ensures
        fe(r as int) == fe(sum(field_vals(a@))),
{
    let a0 = reduce_sum_vec4(a[0]);
    let a1 = reduce_sum_vec4(a[1]);
    let a2 = reduce_sum_vec4(a[2]);
    let r = reduce_sum_vec4([a0, a1, a2, 0]);
    proof {
        let raw = Seq::new(12, |k: int| a[k / 4][k % 4] as int);
        let fv = field_vals(a@);
        assert forall|k: int| 0 <= k < 12 implies fe(#[trigger] fv[k]) == fe(raw[k]) by {
            crate::model::lemma_fe_idem(a[k / 4][k % 4] as int);
        }
        lemma_sum_congr(fv, raw);
        lemma_sum12(raw);
        let s0 = a[0][0] + a[0][1] + a[0][2] + a[0][3];
        let s1 = a[1][0] + a[1][1] + a[1][2] + a[1][3];
        let s2 = a[2][0] + a[2][1] + a[2][2] + a[2][3];
        lemma_fe_add_congr(a0 as int, a1 as int, s0, s1);
        lemma_fe_add_congr(a0 + a1, a2 as int, s0 + s1, s2);
        assert(sum(raw) == s0 + s1 + s2);
    }
    r
}

/// Row `i` of the MDS product: the state times vectors `3i .. 3i + 3` of `mds`.
fn mds_row(state: [U64x4; 3], mds: &[U64x4; 36], i: usize) -> (r: u64)
    requires
        i < 12,
    ensures
        fe(r as int) == fe(row_dot(field_vals(mds@), i as int, field_vals(state@))),
{
    let prod = vec_mul_ff_p64(state, [mds[3 * i], mds[3 * i + 1], mds[3 * i + 2]]);
    let r = reduce_sum(prod);
    proof {
        let m = field_vals(mds@);
        let v = field_vals(state@);
        let fv = field_vals(prod@);
        let terms = Seq::new(12, |j: int| v[j] * m[12 * i + j]);
        assert forall|j: int| 0 <= j < 12 implies fe(#[trigger] fv[j]) == fe(terms[j]) by {
            let x = state[j / 4][j % 4] as int;
            let y = mds[3 * i + j / 4][j % 4] as int;
            assert((12 * i + j) / 4 == 3 * i + j / 4 && (12 * i + j) % 4 == j % 4);
            crate::model::lemma_fe_idem(x * y);
            crate::model::lemma_fe_mul(x, y);
        }
        lemma_sum_congr(fv, terms);
    }
    r
}

/// MDS layer: each lane becomes the field dot product of a matrix row with the state.
pub fn apply_mds(state: [U64x4; 3], mds: [U64x4; 36]) -> (r: [U64x4; 3])
    ensures
        field_vals(r@) == mds_layer(field_vals(mds@), field_vals(state@)),
{
    let s0 = mds_row(state, &mds, 0);
    let s1 = mds_row(state, &mds, 1);
    let s2 = mds_row(state, &mds, 2);
    let s3 = mds_row(state, &mds, 3);

    let s4 = mds_row(state, &mds, 4);
    let s5 = mds_row(state, &mds, 5);
    let s6 = mds_row(state, &mds, 6);
    let s7 = mds_row(state, &mds, 7);

    let s8 = mds_row(state, &mds, 8);
    let s9 = mds_row(state, &mds, 9);
    let s10 = mds_row(state, &mds, 10);
    let s11 = mds_row(state, &mds, 11);

    let r = [[s0, s1, s2, s3], [s4, s5, s6, s7], [s8, s9, s10, s11]];
    assert(field_vals(r@) =~= mds_layer(field_vals(mds@), field_vals(state@)));
    r
}

/// Round-constant injection: lane-wise field sum.
fn apply_constants(state: [U64x4; 3], cnst: [U64x4; 3]) -> (r: [U64x4; 3])
    ensures
        field_vals(r@) == add_layer(field_vals(state@), field_vals(cnst@)),
{
    let r = vec_add_ff_p64(state, cnst);
    assert forall|k: int| 0 <= k < 12 implies #[trigger] field_vals(r@)[k]
        == add_layer(field_vals(state@), field_vals(cnst@))[k] by {
        lemma_fe_add_congr(state[k / 4][k % 4] as int, cnst[k / 4][k % 4] as int,
            field_vals(state@)[k], field_vals(cnst@)[k]);
        crate::model::lemma_fe_idem(state[k / 4][k % 4] as int);
        crate::model::lemma_fe_idem(cnst[k / 4][k % 4] as int);
    }
    assert(field_vals(r@) =~= add_layer(field_vals(state@), field_vals(cnst@)));
    r
}

/// One round of the permutation.
fn apply_permutation_round(
    state: [U64x4; 3],
    mds: [U64x4; 36],
    ark1: [U64x4; 3],
    ark2: [U64x4; 3],
) -> (r: [U64x4; 3])
    ensures
        field_vals(r@) == round(
            field_vals(state@),
            field_vals(mds@),
            field_vals(ark1@),
            field_vals(ark2@),
        ),
{
    let mut state = apply_sbox(state);
    state = apply_mds(state, mds);
    state = apply_constants(state, ark1);

    state = apply_inv_sbox(state);
    state = apply_mds(state, mds);
    state = apply_constants(state, ark2);

    state
}

/// The three vectors of round `i` in a table of seven rounds.
fn round_slice(ark: &[U64x4; 21], i: usize) -> (r: [U64x4; 3])
    requires
        i < 7,
    ensures
        field_vals(r@) == round_consts(field_vals(ark@), i as int),
{
    let r = [ark[3 * i], ark[3 * i + 1], ark[3 * i + 2]];
    assert forall|k: int| 0 <= k < 12 implies #[trigger] field_vals(r@)[k]
        == round_consts(field_vals(ark@), i as int)[k] by {
        assert((12 * i + k) / 4 == 3 * i + k / 4 && (12 * i + k) % 4 == k % 4);
    }
    assert(field_vals(r@) =~= round_consts(field_vals(ark@), i as int));
    r
}

/// The full permutation: `NUM_ROUNDS` rounds, the constants of round `i` taken
/// from vectors `3i .. 3i + 3` of `ark1` and `ark2`.
pub fn apply_rescue_permutation(
    state: [U64x4; 3],
    mds: [U64x4; 36],
    ark1: [U64x4; 21],
    ark2: [U64x4; 21],
) -> (r: [U64x4; 3])
    ensures
        field_vals(r@) == permute(
            field_vals(state@),
            field_vals(mds@),
            field_vals(ark1@),
            field_vals(ark2@),
        ),
{
    let ghost v0 = field_vals(state@);
    let mut state = state;
    let mut i: usize = 0;
    while i < NUM_ROUNDS
        invariant
            i <= NUM_ROUNDS,
            field_vals(state@) == rounds(
                v0,
                field_vals(mds@),
                field_vals(ark1@),
                field_vals(ark2@),
                i as nat,
            ),
        decreases NUM_ROUNDS - i,
    {
        state = apply_permutation_round(state, mds, round_slice(&ark1, i), round_slice(&ark2, i));
        i = i + 1;
    }
    state
}

/// Field-adds the up to four elements of `input` from `j` on into lanes `i .. i + 4`;
/// lanes past the end of the input receive zero.
fn absorb_chunk(state: [U64x4; 3], input: &[u64], j: usize, i: usize) -> (r: [U64x4; 3])
    requires
        i == 0 || i == 4,
        j < input.len(),
    ensures
        field_vals(r@) == add_at(
            field_vals(state@),
            i as int,
            input@.subrange(j as int, if input.len() - j >= 4 { j + 4 } else { input.len() as int }),
        ),
{
    let l = input.len();
    let input_: U64x4 = if l - j >= 4 {
        [input[j], input[j + 1], input[j + 2], input[j + 3]]
    } else {
        [
            input[j],
            if l - j > 1 { input[j + 1] } else { 0 },
            if l - j > 2 { input[j + 2] } else { 0 },
            0,
        ]
    };
    let mut state = state;
    let ghost old_state = state;
    state[i / 4] = vec_add_ff_p64_(state[i / 4], input_);
    proof {
        let end = if l - j >= 4 { j + 4 } else { l as int };
        let vals = input@.subrange(j as int, end);
        let target = add_at(field_vals(old_state@), i as int, vals);
        assert forall|k: int| 0 <= k < 12 implies #[trigger] field_vals(state@)[k] == target[k] by {
            if i <= k < i + 4 {
                let x = old_state[k / 4][k % 4] as int;
                let c = input_[k - i] as int;
                lemma_fe_add_congr(x, c, fe(x), c);
                crate::model::lemma_fe_idem(x);
            }
        }
        assert(field_vals(state@) =~= target);
    }
    state
}

/// Hash of a sequence of field elements: the elements are absorbed into the eight
/// rate lanes, four at a time, with the permutation after every eight; a trailing
/// partial block is permuted once more. The first four lanes, canonical, are the digest.
pub fn hash_elements(
    input: &[u64],
    mds: [U64x4; 36],
    ark1: [U64x4; 21],
    ark2: [U64x4; 21],
) -> (r: [u64; 4])
    ensures
        forall|k: int| 0 <= k < 4 ==> #[trigger] r[k] as int == hash_spec(
            input@,
            field_vals(mds@),
            field_vals(ark1@),
            field_vals(ark2@),
        )[k],
{
    let ghost m = field_vals(mds@);
    let ghost a1 = field_vals(ark1@);
    let ghost a2 = field_vals(ark2@);
    let l = input.len();
    let mut state: [U64x4; 3] = [[0u64; 4], [0u64; 4], [0, 0, 0, l as u64 % MOD]];
    assert(field_vals(state@) =~= crate::model::initial_state(l as nat));

    let mut i: usize = 0;
    let mut j: usize = 0;
    while j < l
        invariant
            l == input.len(),
            m == field_vals(mds@),
            a1 == field_vals(ark1@),
            a2 == field_vals(ark2@),
            j <= l,
            i == 0 || i == 4,
            j < l ==> j % 8 == i,
            i == 0 ==> (j % 8 == 0 && field_vals(state@) == absorb_blocks(input@, (j / 8) as nat, m, a1, a2))
                || (j == l && l % 8 != 0 && field_vals(state@) == sponge(input@, m, a1, a2)),
            i == 4 ==> j % 8 != 0 && field_vals(state@) == add_at(
                absorb_blocks(input@, (j / 8) as nat, m, a1, a2),
                0,
                input@.subrange(8 * (j / 8), j as int),
            ),
        decreases l - j,
    {
        let ghost prev = field_vals(state@);
        let ghost n = j / 8;
        let ghost j_old = j;
        let next = if l - j >= 4 { j + 4 } else { l };
        state = absorb_chunk(state, input, j, i);
        proof {
            let blocks = absorb_blocks(input@, n as nat, m, a1, a2);
            let lo = 8 * n;
            assert(add_at(add_at(blocks, 0, input@.subrange(lo, j as int)), (j - lo) as int,
                input@.subrange(j as int, next as int))
                =~= add_at(blocks, 0, input@.subrange(lo, next as int)));
            if i == 0 {
                assert(input@.subrange(lo, j as int).len() == 0);
                assert(add_at(blocks, 0, input@.subrange(lo, j as int)) =~= blocks);
            }
        }
        i += 4;
        j = next;
        if i % RATE_WIDTH == 0 {
            state = apply_rescue_permutation(state, mds, ark1, ark2);
            i = 0;
            proof {
                if next == j_old + 4 {
                    assert(next / 8 == n + 1);
                    assert(absorb_blocks(input@, (n + 1) as nat, m, a1, a2) == crate::model::permute(
                        add_at(absorb_blocks(input@, n as nat, m, a1, a2), 0,
                            input@.subrange(8 * n, 8 * (n + 1))), m, a1, a2));
                } else {
                    assert(l / 8 == n);
                }
            }
        }
    }

    if i > 0 {
        state = apply_rescue_permutation(state, mds, ark1, ark2);
    }

    let r = [
        to_canonical(state[0][0]),
        to_canonical(state[0][1]),
        to_canonical(state[0][2]),
        to_canonical(state[0][3]),
    ];
    r
}

/// Merge of two four-element digests: the eight inputs fill the rate lanes, the
/// capacity lanes hold `[0, 0, 0, 8]`, and one permutation is applied. The first
/// four lanes, canonical, are the result.
pub fn merge(input: [u64; 8], mds: [U64x4; 36], ark1: [U64x4; 21], ark2: [U64x4; 21]) -> (r: [u64; 4])
    ensures
        forall|k: int| 0 <= k < 4 ==> #[trigger] r[k] as int == merge_spec(
            input@,
            field_vals(mds@),
            field_vals(ark1@),
            field_vals(ark2@),
        )[k],
{
    let mut state = [
        [input[0], input[1], input[2], input[3]],
        [input[4], input[5], input[6], input[7]],
        [0, 0, 0, RATE_WIDTH as u64],
    ];
    proof {
        let init = Seq::new(
            12,
            |k: int|
                if k < 8 {
                    fe(input[k] as int)
                } else if k == 11 {
                    8
                } else {
                    0
                },
        );
        assert(field_vals(state@) =~= init);
    }

    state = apply_rescue_permutation(state, mds, ark1, ark2);
    [
        to_canonical(state[0][0]),
        to_canonical(state[0][1]),
        to_canonical(state[0][2]),
        to_canonical(state[0][3]),
    ]
}

/// Merging eight elements gives the same digest as hashing them as a sequence.
pub proof fn lemma_merge_is_hash(input: Seq<u64>, m: Seq<int>, ark1: Seq<int>, ark2: Seq<int>)
    requires
        input.len() == 8,
    ensures
        merge_spec(input, m, ark1, ark2) == hash_spec(input, m, ark1, ark2),
{
    let blocks0 = absorb_blocks(input, 0, m, ark1, ark2);
    assert(input.subrange(0, 8) =~= input);
    assert(add_at(blocks0, 0, input) =~= Seq::new(
        12,
        |k: int|
            if k < 8 {
                fe(input[k] as int)
            } else if k == 11 {
                8
            } else {
                0
            },
    ));
    assert(sponge(input, m, ark1, ark2) == absorb_blocks(input, 1, m, ark1, ark2));
}

/// On a state of canonical lanes, the inverse S-box undoes the forward S-box.
pub proof fn lemma_sbox_round_trip(state: [U64x4; 3])
    requires
        forall|i: int, j: int| 0 <= i < 3 && 0 <= j < 4 ==> #[trigger] state[i][j] < MOD,
    ensures
        inv_sbox_layer(sbox_layer(field_vals(state@))) == field_vals(state@),
{
    let v = field_vals(state@);
    assert forall|k: int| 0 <= k < 12 implies #[trigger] inv_sbox_layer(sbox_layer(v))[k] == v[k] by {
        crate::model::lemma_fe_idem(state[k / 4][k % 4] as int);
        crate::model::lemma_inv_sbox_of_sbox(v[k]);
    }
    assert(inv_sbox_layer(sbox_layer(v)) =~= v);
}

} // verus!
