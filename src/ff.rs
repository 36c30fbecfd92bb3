use vstd::prelude::*;

verus! {

/// Largest `u64`.
pub const ULONG_MAX: u64 = 0xffffffffffffffff;

/// Largest `u32`, as a `u64`; also `2^64 mod p`.
pub const UINT_MAX: u64 = 0xffffffff;

/// The Goldilocks prime `p = 2^64 - 2^32 + 1`.
pub const MOD: u64 = 0xffffffff00000001;

/// Four 64-bit lanes, worked on in lockstep.
pub type U64x4 = [u64; 4];

/// The field value of a representative: its residue modulo `p`.
pub open spec fn fe(x: int) -> int {
    x % (MOD as int)
}

/// The low and high 32-bit halves of a lane, as arithmetic.
proof fn lemma_halves(x: u64)
    by (bit_vector)
    ensures
        x & UINT_MAX == x % 0x1_0000_0000,
        x >> 32u64 == x / 0x1_0000_0000,
{
}

/// Shifting a 32-bit value left by 32 multiplies it by `2^32`.
proof fn lemma_shift_up(x: u64)
    by (bit_vector)
    requires
        x < 0x1_0000_0000,
    ensures
        x << 32u64 == x * 0x1_0000_0000,
{
}

/// `a * b == hi * 2^64 + lo` with `lo < 2^64`, from the four 32-bit partial products.
proof fn lemma_mul_hi(
    a_hi: int, a_lo: int, b_hi: int, b_lo: int,
    mid1_hi: int, mid1_lo: int, mid2_hi: int, mid2_lo: int,
    lo_hi: int, lo_lo: int, carry: int, t2_lo: int,
)
    requires
        0 <= a_lo < 0x1_0000_0000, 0 <= b_lo < 0x1_0000_0000,
        0 <= a_hi, 0 <= b_hi,
        a_hi * b_lo == mid1_hi * 0x1_0000_0000 + mid1_lo,
        b_hi * a_lo == mid2_hi * 0x1_0000_0000 + mid2_lo,
        a_lo * b_lo == lo_hi * 0x1_0000_0000 + lo_lo,
        0 <= lo_lo < 0x1_0000_0000,
        0 <= t2_lo < 0x1_0000_0000,
        mid1_lo + mid2_lo + lo_hi == carry * 0x1_0000_0000 + t2_lo,
    ensures
        (a_hi * 0x1_0000_0000 + a_lo) * (b_hi * 0x1_0000_0000 + b_lo)
            == (a_hi * b_hi + mid1_hi + mid2_hi + carry) * 0x1_0000_0000_0000_0000
                + (t2_lo * 0x1_0000_0000 + lo_lo),
        0 <= t2_lo * 0x1_0000_0000 + lo_lo < 0x1_0000_0000_0000_0000,
{
    assert((a_hi * 0x1_0000_0000 + a_lo) * (b_hi * 0x1_0000_0000 + b_lo)
        == a_hi * b_hi * 0x1_0000_0000_0000_0000 + (a_hi * b_lo + b_hi * a_lo) * 0x1_0000_0000
            + a_lo * b_lo) by (nonlinear_arith);
}

/// High 64 bits of the 128-bit product of two lanes.
fn mul_hi_(a: u64, b: u64) -> (r: u64)
    ensures
        r == (a as int * b as int) / 0x1_0000_0000_0000_0000,
{
    let a_lo = a & UINT_MAX;
    let a_hi = a >> 32u64;
    let b_lo = b & UINT_MAX;
    let b_hi = b >> 32u64;
    proof {
        lemma_halves(a);
        lemma_halves(b);
    }
    assert(a_hi * b_hi < 0x1_0000_0000_0000_0000 && a_hi * b_lo < 0x1_0000_0000_0000_0000
        && b_hi * a_lo < 0x1_0000_0000_0000_0000 && a_lo * b_lo < 0x1_0000_0000_0000_0000)
        by (nonlinear_arith)
        requires a_lo < 0x1_0000_0000, a_hi < 0x1_0000_0000, b_lo < 0x1_0000_0000, b_hi < 0x1_0000_0000;

    let a_x_b_hi = a_hi * b_hi;
    let a_x_b_mid = a_hi * b_lo;
    let b_x_a_mid = b_hi * a_lo;
    let a_x_b_lo = a_lo * b_lo;

    let tmp0 = a_x_b_mid & UINT_MAX;
    let tmp1 = b_x_a_mid & UINT_MAX;
    proof {
        lemma_halves(a_x_b_mid);
        lemma_halves(b_x_a_mid);
        lemma_halves(a_x_b_lo);
    }
    let lo_hi = a_x_b_lo >> 32u64;
    let tmp2 = tmp0 + tmp1 + lo_hi;
    let carry_bit = tmp2 >> 32u64;
    proof {
        lemma_halves(tmp2);
    }
    let mid1_hi = a_x_b_mid >> 32u64;
    let mid2_hi = b_x_a_mid >> 32u64;

    proof {
        lemma_mul_hi(
            a_hi as int, a_lo as int, b_hi as int, b_lo as int,
            mid1_hi as int, tmp0 as int, mid2_hi as int, tmp1 as int,
            lo_hi as int, a_x_b_lo as int % 0x1_0000_0000, carry_bit as int, tmp2 as int % 0x1_0000_0000,
        );
        let hi = a_hi * b_hi + mid1_hi + mid2_hi + carry_bit;
        let lo = (tmp2 as int % 0x1_0000_0000) * 0x1_0000_0000 + a_x_b_lo as int % 0x1_0000_0000;
        vstd::arithmetic::div_mod::lemma_fundamental_div_mod_converse(
            a as int * b as int, 0x1_0000_0000_0000_0000, hi, lo);
        assert(a as int * b as int / 0x1_0000_0000_0000_0000 < 0x1_0000_0000_0000_0000) by (nonlinear_arith)
            requires a < 0x1_0000_0000_0000_0000, b < 0x1_0000_0000_0000_0000;
    }
    a_x_b_hi + mid1_hi + mid2_hi + carry_bit
}

/// Representatives that differ by a multiple of `p` have the same field value.
pub proof fn lemma_fe_shift(x: int, y: int, k: int)
    requires
        x == y + (MOD as int) * k,
    ensures
        fe(x) == fe(y),
{
    vstd::arithmetic::div_mod::lemma_mod_multiples_vanish(k, y, MOD as int);
    assert((MOD as int) * k + y == x);
}

/// `0xffffffff` when `flag` holds, else zero.
fn mask(flag: bool) -> (r: u64)
    ensures
        r == if flag { UINT_MAX } else { 0 },
{
    (flag as u64) * UINT_MAX
}

/// Goldilocks reduction of a lane product; the result is congruent to `a * b`
/// and may exceed `p`.
fn mul_lane(a: u64, b: u64) -> (r: u64)
    ensures
        fe(r as int) == fe(a * b),
{
    let ab = a.wrapping_mul(b);
    let cd = mul_hi_(a, b);
    let c = cd & UINT_MAX;
    let d = cd >> 32u64;
    proof {
        lemma_halves(cd);
    }
    assert(c * 0x1_0000_0000 < 0x1_0000_0000_0000_0000) by (nonlinear_arith)
        requires c < 0x1_0000_0000;

    let tmp0 = ab.wrapping_sub(d);
    let under0 = ab < d;
    let tmp1 = mask(under0);
    // after a borrow, tmp0 is at least 2^64 - 2^32 + 1, so this does not wrap
    let tmp2 = tmp0 - tmp1;

    proof {
        lemma_shift_up(c);
    }
    let tmp3 = (c << 32u64) - c;

    let tmp4 = tmp2.wrapping_add(tmp3);
    let over0 = tmp2 > ULONG_MAX - tmp3;
    let tmp5 = mask(over0);
    proof {
        let prod = a as int * b as int;
        vstd::arithmetic::div_mod::lemma_fundamental_div_mod(prod, 0x1_0000_0000_0000_0000);
        assert(ab == prod % 0x1_0000_0000_0000_0000);
        let u: int = if under0 { 1 } else { 0 };
        let o: int = if over0 { 1 } else { 0 };
        assert(tmp4 + tmp5 == ab - d + c * 0xffffffff + (MOD as int) * (u - o));
        assert(prod == ab + (c + d * 0x1_0000_0000) * 0x1_0000_0000_0000_0000);
        assert(prod == ab - d + c * 0xffffffff + (MOD as int) * (c + d * 0x1_0000_0001))
            by (nonlinear_arith)
            requires prod == ab + (c + d * 0x1_0000_0000) * 0x1_0000_0000_0000_0000;
        lemma_fe_shift(tmp4 + tmp5, prod, u - o - c - d * 0x1_0000_0001);
    }
    tmp4 + tmp5
}

/// Lane addition modulo `p`: `b` is brought below `p` first, then at most one
/// overflow of `2^64` is folded back as `2^64 - p`.
fn add_lane(a: u64, b: u64) -> (r: u64)
    ensures
        fe(r as int) == fe(a + b),
{
    let t0 = b >= MOD;
    let b_ok = if t0 { b - MOD } else { b };

    let tmp0 = a.wrapping_add(b_ok);
    let over0 = a > ULONG_MAX - b_ok;
    let tmp1 = mask(over0);

    let tmp2 = tmp0.wrapping_add(tmp1);
    let over1 = tmp0 > ULONG_MAX - tmp1;
    let tmp3 = mask(over1);
    proof {
        let k: int = if t0 { 1 } else { 0 };
        let o: int = if over0 { 1 } else { 0 };
        assert(!over1);
        assert(tmp2 + tmp3 == a + b - (MOD as int) * (k + o));
        lemma_fe_shift(tmp2 + tmp3, a + b, -(k + o));
    }
    tmp2 + tmp3
}

/// The canonical representative of a lane: its value modulo `p`, below `p`.
pub fn to_canonical(x: u64) -> (r: u64)
    ensures
        r == fe(x as int),
{
    let ge = x >= MOD;
    x - MOD * (ge as u64)
}

/// Lane-wise product modulo `p`.
pub fn vec_mul_ff_p64_(a: U64x4, b: U64x4) -> (r: U64x4)
    ensures
        forall|j: int| 0 <= j < 4 ==> fe(#[trigger] r[j] as int) == fe(a[j] * b[j]),
{
    [mul_lane(a[0], b[0]), mul_lane(a[1], b[1]), mul_lane(a[2], b[2]), mul_lane(a[3], b[3])]
}

/// Lane-wise product modulo `p` of two twelve-lane values.
pub fn vec_mul_ff_p64(a: [U64x4; 3], b: [U64x4; 3]) -> (r: [U64x4; 3])
    ensures
        forall|i: int, j: int|
            0 <= i < 3 && 0 <= j < 4 ==> fe(#[trigger] r[i][j] as int) == fe(a[i][j] * b[i][j]),
{
    [vec_mul_ff_p64_(a[0], b[0]), vec_mul_ff_p64_(a[1], b[1]), vec_mul_ff_p64_(a[2], b[2])]
}

/// Lane-wise sum modulo `p`.
pub fn vec_add_ff_p64_(a: U64x4, b: U64x4) -> (r: U64x4)
    ensures
        forall|j: int| 0 <= j < 4 ==> fe(#[trigger] r[j] as int) == fe(a[j] + b[j]),
{
    [add_lane(a[0], b[0]), add_lane(a[1], b[1]), add_lane(a[2], b[2]), add_lane(a[3], b[3])]
}

/// Lane-wise sum modulo `p` of two twelve-lane values.
pub fn vec_add_ff_p64(a: [U64x4; 3], b: [U64x4; 3]) -> (r: [U64x4; 3])
    ensures
        forall|i: int, j: int|
            0 <= i < 3 && 0 <= j < 4 ==> fe(#[trigger] r[i][j] as int) == fe(a[i][j] + b[i][j]),
{
    [vec_add_ff_p64_(a[0], b[0]), vec_add_ff_p64_(a[1], b[1]), vec_add_ff_p64_(a[2], b[2])]
}

/// Canonicalizing a lane product with zero gives zero.
pub proof fn lemma_mul_by_zero(a: u64, r: u64)
    requires
        fe(r as int) == fe(a * 0),
    ensures
        fe(r as int) == 0,
{
}

/// Multiplying by one leaves the field value unchanged.
pub proof fn lemma_mul_by_one(a: u64, r: u64)
    requires
        fe(r as int) == fe(a * 1),
    ensures
        fe(r as int) == fe(a as int),
{
}

/// Lane multiplication is commutative on field values.
pub proof fn lemma_mul_commutes(a: u64, b: u64, ab: u64, ba: u64)
    requires
        fe(ab as int) == fe(a * b),
        fe(ba as int) == fe(b * a),
    ensures
        fe(ab as int) == fe(ba as int),
{
    assert(a * b == b * a) by (nonlinear_arith);
}

/// Adding zero leaves the field value unchanged.
pub proof fn lemma_add_zero(a: u64, r: u64)
    requires
        fe(r as int) == fe(a + 0),
    ensures
        fe(r as int) == fe(a as int),
{
}

/// Adding `p - (a mod p)` to `a` gives zero.
pub proof fn lemma_add_negation(a: u64, r: u64)
    requires
        fe(r as int) == fe(a + (MOD - fe(a as int))),
    ensures
        fe(r as int) == 0,
{
    vstd::arithmetic::div_mod::lemma_fundamental_div_mod(a as int, MOD as int);
    lemma_fe_shift(a + (MOD - fe(a as int)), 0, a as int / (MOD as int) + 1);
}

/// `(p - 1)^2` is one in the field.
pub proof fn lemma_minus_one_squared(r: u64)
    requires
        fe(r as int) == fe((MOD - 1) * (MOD - 1)),
    ensures
        fe(r as int) == 1,
{
    assert(0xffffffff00000000int * 0xffffffff00000000int
        == 1 + 0xffffffff00000001int * 0xfffffffeffffffffint);
    lemma_fe_shift((MOD - 1) * (MOD - 1), 1, MOD - 2);
}

/// `(p + 1) / 2` is the inverse of two.
pub proof fn lemma_half_times_two(r: u64)
    requires
        fe(r as int) == fe(((MOD + 1) / 2) * 2),
    ensures
        fe(r as int) == 1,
{
    assert(((MOD + 1) / 2) * 2 == 1 + (MOD as int) * 1);
    lemma_fe_shift(((MOD + 1) / 2) * 2, 1, 1);
}

} // verus!
