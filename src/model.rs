use vstd::arithmetic::div_mod::{lemma_add_mod_noop, lemma_mul_mod_noop};
use vstd::arithmetic::power::{
    lemma0_pow, lemma1_pow, lemma_pow1, lemma_pow_adds, lemma_pow_mod_noop, lemma_pow_multiplies,
    pow,
};
use vstd::arithmetic::power2::{lemma2_to64, pow2};
use vstd::prelude::*;

use crate::ff::{fe, MOD, U64x4};
use crate::prime_field::{lemma_fermat, lemma_mod_is_prime};

verus! {

/// The exponent of the inverse S-box: `7^-1 mod (p - 1)`.
pub open spec fn inv_alpha() -> nat {
    10540996611094048183
}

/// Field values of the lanes of a run of vectors, lane 0 of the first vector first.
pub open spec fn field_vals(v: Seq<U64x4>) -> Seq<int> {
    Seq::new(4 * v.len(), |k: int| fe(v[k / 4][k % 4] as int))
}

/// Forward S-box on one field value: `x^7`.
pub open spec fn sbox(x: int) -> int {
    fe(pow(x, 7))
}

/// Inverse S-box on one field value: `x^(1/7)`.
pub open spec fn inv_sbox(x: int) -> int {
    fe(pow(x, inv_alpha()))
}

/// Forward S-box on every lane.
pub open spec fn sbox_layer(v: Seq<int>) -> Seq<int> {
    Seq::new(v.len(), |k: int| sbox(v[k]))
}

/// Inverse S-box on every lane.
pub open spec fn inv_sbox_layer(v: Seq<int>) -> Seq<int> {
    Seq::new(v.len(), |k: int| inv_sbox(v[k]))
}

/// Lane-wise field sum.
pub open spec fn add_layer(v: Seq<int>, c: Seq<int>) -> Seq<int> {
    Seq::new(v.len(), |k: int| fe(v[k] + c[k]))
}

/// Integer sum of a sequence.
pub open spec fn sum(s: Seq<int>) -> int
    decreases s.len(),
{
    if s.len() == 0 {
        0
    } else {
        sum(s.drop_last()) + s.last()
    }
}

/// Row `i` of the twelve-by-twelve matrix `m` (row-major) times `v`, as an integer.
pub open spec fn row_dot(m: Seq<int>, i: int, v: Seq<int>) -> int {
    sum(Seq::new(12, |j: int| v[j] * m[12 * i + j]))
}

/// The MDS layer: the matrix-vector product over the field.
pub open spec fn mds_layer(m: Seq<int>, v: Seq<int>) -> Seq<int> {
    Seq::new(12, |i: int| fe(row_dot(m, i, v)))
}

/// One round: S-box, MDS, first constants, inverse S-box, MDS, second constants.
pub open spec fn round(v: Seq<int>, m: Seq<int>, c1: Seq<int>, c2: Seq<int>) -> Seq<int> {
    add_layer(mds_layer(m, inv_sbox_layer(add_layer(mds_layer(m, sbox_layer(v)), c1))), c2)
}

/// The twelve constants of round `r` in a table of rounds.
pub open spec fn round_consts(ark: Seq<int>, r: int) -> Seq<int> {
    ark.subrange(12 * r, 12 * r + 12)
}

/// The first `n` rounds, round `0` first.
pub open spec fn rounds(v: Seq<int>, m: Seq<int>, ark1: Seq<int>, ark2: Seq<int>, n: nat) -> Seq<int>
    decreases n,
{
    if n == 0 {
        v
    } else {
        let r = n - 1;
        round(rounds(v, m, ark1, ark2, r as nat), m, round_consts(ark1, r), round_consts(ark2, r))
    }
}

/// The Rescue-Prime permutation: seven rounds.
pub open spec fn permute(v: Seq<int>, m: Seq<int>, ark1: Seq<int>, ark2: Seq<int>) -> Seq<int> {
    rounds(v, m, ark1, ark2, 7)
}

/// Field-adds `vals` into the lanes of `v` from `start` on.
pub open spec fn add_at(v: Seq<int>, start: int, vals: Seq<u64>) -> Seq<int> {
    Seq::new(
        v.len(),
        |k: int|
            if start <= k < start + vals.len() {
                fe(v[k] + vals[k - start] as int)
            } else {
                v[k]
            },
    )
}

/// The state before absorbing: zero but for lane 11, which holds the input length.
pub open spec fn initial_state(len: nat) -> Seq<int> {
    Seq::new(12, |k: int| if k == 11 { fe(len as int) } else { 0 })
}

/// The state after the first `n` blocks of eight elements, each absorbed into the
/// rate lanes and followed by the permutation.
pub open spec fn absorb_blocks(
    input: Seq<u64>,
    n: nat,
    m: Seq<int>,
    ark1: Seq<int>,
    ark2: Seq<int>,
) -> Seq<int>
    decreases n,
{
    if n == 0 {
        initial_state(input.len())
    } else {
        let prev = absorb_blocks(input, (n - 1) as nat, m, ark1, ark2);
        permute(add_at(prev, 0, input.subrange(8 * (n - 1), 8 * n as int)), m, ark1, ark2)
    }
}

/// The sponge state once all input is absorbed: the full blocks, then a trailing
/// partial block, if any, followed by one more permutation.
pub open spec fn sponge(input: Seq<u64>, m: Seq<int>, ark1: Seq<int>, ark2: Seq<int>) -> Seq<int> {
    let n = input.len() / 8;
    let full = absorb_blocks(input, n, m, ark1, ark2);
    if input.len() % 8 == 0 {
        full
    } else {
        permute(add_at(full, 0, input.subrange(8 * n as int, input.len() as int)), m, ark1, ark2)
    }
}

/// The digest of a sequence of elements: the first four lanes of the sponge state.
pub open spec fn hash_spec(input: Seq<u64>, m: Seq<int>, ark1: Seq<int>, ark2: Seq<int>) -> Seq<int> {
    sponge(input, m, ark1, ark2).take(4)
}

/// The digest of a merge: eight elements in the rate lanes, the capacity lanes
/// `[0, 0, 0, 8]`, one permutation, the first four lanes.
pub open spec fn merge_spec(input: Seq<u64>, m: Seq<int>, ark1: Seq<int>, ark2: Seq<int>) -> Seq<int> {
    let init = Seq::new(
        12,
        |k: int|
            if k < 8 {
                fe(input[k] as int)
            } else if k == 11 {
                8
            } else {
                0
            },
    );
    permute(init, m, ark1, ark2).take(4)
}

/// Field values of products depend on the field values of the factors alone.
pub proof fn lemma_fe_mul(x: int, y: int)
    ensures
        fe(fe(x) * fe(y)) == fe(x * y),
{
    lemma_mul_mod_noop(x, y, MOD as int);
}

/// Field values of sums depend on the field values of the terms alone.
pub proof fn lemma_fe_add(x: int, y: int)
    ensures
        fe(fe(x) + fe(y)) == fe(x + y),
{
    lemma_add_mod_noop(x, y, MOD as int);
}

/// Taking the field value twice changes nothing.
pub proof fn lemma_fe_idem(x: int)
    ensures
        fe(fe(x)) == fe(x),
        0 <= fe(x) < MOD,
{
    vstd::arithmetic::div_mod::lemma_mod_twice(x, MOD as int);
}

/// Powers of `x` multiply by adding exponents, on representatives.
pub proof fn lemma_pow_mul(x: int, a: int, b: int, r: int, e1: nat, e2: nat)
    requires
        fe(a) == fe(pow(x, e1)),
        fe(b) == fe(pow(x, e2)),
        fe(r) == fe(a * b),
    ensures
        fe(r) == fe(pow(x, e1 + e2)),
{
    lemma_fe_mul(a, b);
    lemma_fe_mul(pow(x, e1), pow(x, e2));
    lemma_pow_adds(x, e1, e2);
}

/// The forward S-box chain on one lane computes `x^7`.
pub proof fn lemma_sbox_lane(x: int, x2: int, x4: int, x6: int, r: int)
    requires
        fe(x2) == fe(x * x),
        fe(x4) == fe(x2 * x2),
        fe(x6) == fe(x2 * x4),
        fe(r) == fe(x * x6),
    ensures
        fe(r) == sbox(fe(x)),
{
    lemma_pow1(x);
    lemma_pow_mul(x, x, x, x2, 1, 1);
    lemma_pow_mul(x, x2, x2, x4, 2, 2);
    lemma_pow_mul(x, x2, x4, x6, 2, 4);
    lemma_pow_mul(x, x, x6, r, 1, 6);
    lemma_pow_mod_noop(x, 7, MOD as int);
}

/// A representative of `b^(2^m) * t`, where `b ≡ x^e1` and `t ≡ x^e2`, is `x^(e1 * 2^m + e2)`.
pub proof fn lemma_exp_acc_lane(x: int, base: int, tail: int, r: int, m: nat, e1: nat, e2: nat)
    requires
        fe(base) == fe(pow(x, e1)),
        fe(tail) == fe(pow(x, e2)),
        fe(r) == fe(pow(base, pow2(m)) * tail),
    ensures
        fe(r) == fe(pow(x, e1 * pow2(m) + e2)),
{
    let n = pow2(m);
    lemma_pow_mod_noop(base, n, MOD as int);
    lemma_pow_mod_noop(pow(x, e1), n, MOD as int);
    lemma_pow_multiplies(x, e1, n);
    lemma_pow_mul(x, pow(base, n), tail, r, e1 * n, e2);
}

/// Squaring a representative of `b^(2^k)` gives one of `b^(2^(k+1))`.
pub proof fn lemma_square_lane(b: int, res: int, r: int, k: nat)
    requires
        fe(res) == fe(pow(b, pow2(k))),
        fe(r) == fe(res * res),
    ensures
        fe(r) == fe(pow(b, pow2(k + 1))),
{
    lemma_pow_mul(b, res, res, r, pow2(k), pow2(k));
    lemma_pow_adds(2, k, 1);
    lemma_pow1(2);
    vstd::arithmetic::power::lemma_pow_positive(2, k);
    assert(pow2(k + 1) == pow2(k) + pow2(k));
}

/// The inverse S-box addition chain on one lane computes `x^(1/7)`.
pub proof fn lemma_inv_sbox_lane(
    x: int, t1: int, t2: int, t3: int, t4a: int, t4: int, t5: int, t6: int,
    a0: int, a1: int, a2: int, a3: int, b0: int, b: int, r: int,
)
    requires
        fe(t1) == fe(x * x),
        fe(t2) == fe(t1 * t1),
        fe(t3) == fe(pow(t2, pow2(3)) * t2),
        fe(t4a) == fe(pow(t3, pow2(6)) * t3),
        fe(t4) == fe(pow(t4a, pow2(12)) * t4a),
        fe(t5) == fe(pow(t4, pow2(6)) * t3),
        fe(t6) == fe(pow(t5, pow2(31)) * t5),
        fe(a0) == fe(t6 * t6),
        fe(a1) == fe(a0 * t5),
        fe(a2) == fe(a1 * a1),
        fe(a3) == fe(a2 * a2),
        fe(b0) == fe(t1 * t2),
        fe(b) == fe(b0 * x),
        fe(r) == fe(a3 * b),
    ensures
        fe(r) == inv_sbox(fe(x)),
{
    lemma2_to64();
    lemma_pow1(x);
    lemma_pow_mul(x, x, x, t1, 1, 1);
    lemma_pow_mul(x, t1, t1, t2, 2, 2);
    lemma_exp_acc_lane(x, t2, t2, t3, 3, 4, 4);
    lemma_exp_acc_lane(x, t3, t3, t4a, 6, 36, 36);
    lemma_exp_acc_lane(x, t4a, t4a, t4, 12, 2340, 2340);
    lemma_exp_acc_lane(x, t4, t3, t5, 6, 9586980, 36);
    lemma_exp_acc_lane(x, t5, t5, t6, 31, 613566756, 613566756);
    lemma_pow_mul(x, t6, t6, a0, 1317624576079972644, 1317624576079972644);
    lemma_pow_mul(x, a0, t5, a1, 2635249152159945288, 613566756);
    lemma_pow_mul(x, a1, a1, a2, 2635249152773512044, 2635249152773512044);
    lemma_pow_mul(x, a2, a2, a3, 5270498305547024088, 5270498305547024088);
    lemma_pow_mul(x, t1, t2, b0, 2, 4);
    lemma_pow_mul(x, b0, x, b, 6, 1);
    lemma_pow_mul(x, a3, b, r, 10540996611094048176, 7);
    lemma_pow_mod_noop(x, inv_alpha(), MOD as int);
}

/// Field values of sums respect congruent terms.
pub proof fn lemma_fe_add_congr(x: int, y: int, x2: int, y2: int)
    requires
        fe(x) == fe(x2),
        fe(y) == fe(y2),
    ensures
        fe(x + y) == fe(x2 + y2),
{
    lemma_fe_add(x, y);
    lemma_fe_add(x2, y2);
}

/// Sums of termwise congruent sequences are congruent.
pub proof fn lemma_sum_congr(s: Seq<int>, t: Seq<int>)
    requires
        s.len() == t.len(),
        forall|k: int| 0 <= k < s.len() ==> fe(#[trigger] s[k]) == fe(t[k]),
    ensures
        fe(sum(s)) == fe(sum(t)),
    decreases s.len(),
{
    if s.len() > 0 {
        let s0 = s.drop_last();
        let t0 = t.drop_last();
        assert forall|k: int| 0 <= k < s0.len() implies fe(#[trigger] s0[k]) == fe(t0[k]) by {
            assert(s0[k] == s[k] && t0[k] == t[k]);
        }
        lemma_sum_congr(s0, t0);
        lemma_fe_add_congr(sum(s0), s.last(), sum(t0), t.last());
    }
}

/// The sum of twelve values, written out.
pub proof fn lemma_sum12(s: Seq<int>)
    requires
        s.len() == 12,
    ensures
        sum(s) == s[0] + s[1] + s[2] + s[3] + s[4] + s[5] + s[6] + s[7] + s[8] + s[9] + s[10]
            + s[11],
{
    reveal_with_fuel(sum, 13);
    assert(s.drop_last().drop_last().drop_last().drop_last().drop_last().drop_last().drop_last()
        .drop_last().drop_last().drop_last().drop_last().drop_last().len() == 0);
}

/// The inverse S-box undoes the forward S-box: `(x^7)^(1/7) == x` in the field.
pub proof fn lemma_inv_sbox_of_sbox(x: int)
    requires
        0 <= x < MOD,
    ensures
        inv_sbox(sbox(x)) == x,
{
    let e = inv_alpha();
    let q: nat = 0xffffffff00000000;
    lemma_pow_mod_noop(pow(x, 7), e, MOD as int);
    lemma_pow_multiplies(x, 7, e);
    assert(7 * e == 4 * q + 1);
    lemma_pow_adds(x, 4 * q, 1);
    lemma_pow_multiplies(x, q, 4);
    lemma_pow1(x);
    vstd::arithmetic::div_mod::lemma_small_mod(x as nat, MOD as nat);
    let a = pow(pow(x, q), 4);
    assert(inv_sbox(sbox(x)) == fe(pow(pow(x, 7), e)));
    assert(pow(pow(x, 7), e) == pow(x, 4 * q + 1));
    assert(pow(x, 4 * q + 1) == a * x);
    if x == 0 {
        assert(a * x == 0);
    } else {
        lemma_mod_is_prime();
        lemma_fermat(MOD as nat, x as nat);
        assert(fe(pow(x, q)) == 1);
        lemma_pow_mod_noop(pow(x, q), 4, MOD as int);
        lemma1_pow(4);
        vstd::arithmetic::div_mod::lemma_small_mod(1, MOD as nat);
        assert(fe(a) == 1);
        lemma_fe_mul(a, x);
        assert(fe(a) * fe(x) == fe(x)) by (nonlinear_arith)
            requires
                fe(a) == 1,
        ;
    }
}

} // verus!
