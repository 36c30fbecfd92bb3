use vstd::arithmetic::div_mod::{
    lemma_add_mod_noop, lemma_fundamental_div_mod_converse, lemma_fundamental_div_mod, lemma_mod_multiples_basic, lemma_mod_twice,
    lemma_mul_mod_noop_general, lemma_small_mod,
};
use vstd::arithmetic::power::{
    lemma0_pow, lemma1_pow, lemma_pow0, lemma_pow1, lemma_pow_adds, lemma_pow_mod_noop,
    lemma_pow_multiplies, lemma_pow_positive, pow,
};
use vstd::arithmetic::power2::{lemma2_to64, lemma_pow2, lemma_pow2_strictly_increases, pow2};
use vstd::prelude::*;

use crate::ff::{fe, MOD};
use crate::model::lemma_pow_mul;

verus! {

/// `q` is prime: greater than one, with no divisor strictly between one and itself.
pub open spec fn is_prime(q: int) -> bool {
    q > 1 && forall|d: int| 1 < d < q ==> #[trigger] (q % d) != 0
}

/// `d * k` is a multiple of `d`.
proof fn lemma_multiple(d: int, k: int)
    requires
        d > 0,
    ensures
        (d * k) % d == 0,
{
    lemma_mod_multiples_basic(k, d);
    assert(k * d == d * k) by (nonlinear_arith);
}

/// A multiple of `d` is `d` times its quotient.
proof fn lemma_quotient(x: int, d: int)
    requires
        d > 0,
        x % d == 0,
    ensures
        x == d * (x / d),
{
    lemma_fundamental_div_mod(x, d);
}

/// Multiples of `d` are closed under integer combinations.
proof fn lemma_combination(d: int, x: int, y: int, a: int, b: int)
    requires
        d > 0,
        x % d == 0,
        y % d == 0,
    ensures
        (a * x + b * y) % d == 0,
{
    lemma_quotient(x, d);
    lemma_quotient(y, d);
    let u = x / d;
    let v = y / d;
    assert(a * x + b * y == d * (a * u + b * v)) by (nonlinear_arith)
        requires
            x == d * u,
            y == d * v,
    ;
    lemma_multiple(d, a * u + b * v);
}

/// Bezout: a common divisor `g` of `a` and `b`, with `a * x + b * y == g`, as `(g, x, y)`.
proof fn lemma_bezout(a: int, b: int) -> (r: (int, int, int))
    requires
        a >= 0,
        b >= 0,
        a + b > 0,
    ensures
        r.0 > 0,
        a * r.1 + b * r.2 == r.0,
        a % r.0 == 0,
        b % r.0 == 0,
    decreases b,
{
    if b == 0 {
        lemma_multiple(a, 1);
        lemma_multiple(a, 0);
        (a, 1, 0)
    } else {
        let c = a % b;
        let (g, x, y) = lemma_bezout(b, c);
        lemma_fundamental_div_mod(a, b);
        let q = a / b;
        lemma_combination(g, b, c, q, 1);
        assert(q * b + 1 * c == a) by (nonlinear_arith)
            requires
                a == b * q + c,
        ;
        assert(a * y + b * (x - q * y) == g) by (nonlinear_arith)
            requires
                a == b * q + c,
                b * x + c * y == g,
        ;
        (g, y, x - q * y)
    }
}

/// Euclid's lemma: a prime that divides a product and not the first factor
/// divides the second.
pub proof fn lemma_euclid(q: int, a: int, b: int)
    requires
        is_prime(q),
        (a * b) % q == 0,
        a % q != 0,
    ensures
        b % q == 0,
{
    let a1 = a % q;
    let (g, x, y) = lemma_bezout(a1, q);
    lemma_quotient(q, g);
    assert(g <= q) by (nonlinear_arith)
        requires
            q == g * (q / g),
            g > 0,
            q > 0,
    ;
    if g != 1 && g != q {
        assert(q % g != 0);
    }
    if g == q {
        lemma_small_mod(a1 as nat, q as nat);
    }
    assert(g == 1);
    lemma_mul_mod_noop_general(a, b, q);
    lemma_multiple(q, 1);
    lemma_combination(q, a1 * b, q, x, b * y);
    assert(x * (a1 * b) + (b * y) * q == b) by (nonlinear_arith)
        requires
            a1 * x + q * y == 1,
    ;
}

/// The binomial coefficient, by Pascal's rule.
pub open spec fn binom(n: nat, k: nat) -> nat
    decreases n,
{
    if k == 0 {
        1
    } else if n == 0 {
        0
    } else {
        binom((n - 1) as nat, (k - 1) as nat) + binom((n - 1) as nat, k)
    }
}

/// `sum_{k < m} binom(n, k) * x^k`.
pub open spec fn binom_sum(n: nat, x: int, m: nat) -> int
    decreases m,
{
    if m == 0 {
        0
    } else {
        binom_sum(n, x, (m - 1) as nat) + binom(n, (m - 1) as nat) * pow(x, (m - 1) as nat)
    }
}

/// No way to choose more items than there are.
proof fn lemma_binom_zero(n: nat, k: nat)
    requires
        k > n,
    ensures
        binom(n, k) == 0,
    decreases n,
{
    if n > 0 {
        lemma_binom_zero((n - 1) as nat, (k - 1) as nat);
        lemma_binom_zero((n - 1) as nat, k);
    }
}

/// One way to choose all items.
proof fn lemma_binom_all(n: nat)
    ensures
        binom(n, n) == 1,
    decreases n,
{
    if n > 0 {
        lemma_binom_all((n - 1) as nat);
        lemma_binom_zero((n - 1) as nat, n);
    }
}

/// `n` ways to choose one item.
proof fn lemma_binom_one(n: nat)
    ensures
        binom(n, 1) == n,
    decreases n,
{
    if n > 0 {
        lemma_binom_one((n - 1) as nat);
        assert(binom((n - 1) as nat, 0) == 1);
    }
}

/// Absorption: `k * binom(n, k) == n * binom(n - 1, k - 1)`.
proof fn lemma_binom_absorb(n: nat, k: nat)
    requires
        n >= 1,
        k >= 1,
    ensures
        k * binom(n, k) == n * binom((n - 1) as nat, (k - 1) as nat),
    decreases n,
{
    if k == 1 {
        lemma_binom_one(n);
        assert(binom((n - 1) as nat, 0) == 1);
        assert(k * binom(n, k) == n);
    } else if n == 1 {
        lemma_binom_zero(0, (k - 1) as nat);
        lemma_binom_zero(0, k);
        assert(binom(1, k) == binom(0, (k - 1) as nat) + binom(0, k));
        assert(k * binom(n, k) == 0);
    } else {
        let a = binom((n - 1) as nat, (k - 1) as nat);
        let b = binom((n - 1) as nat, k);
        let c = binom((n - 2) as nat, (k - 2) as nat);
        let d = binom((n - 2) as nat, (k - 1) as nat);
        lemma_binom_absorb((n - 1) as nat, (k - 1) as nat);
        lemma_binom_absorb((n - 1) as nat, k);
        assert(binom(n, k) == a + b);
        assert(a == c + d);
        assert(k * binom(n, k) == n * a) by (nonlinear_arith)
            requires
                binom(n, k) == a + b,
                a == c + d,
                (k - 1) * a == (n - 1) * c,
                k * b == (n - 1) * d,
        ;
    }
}

/// `x^(m + 1) == x * x^m`.
proof fn lemma_pow_succ(x: int, m: nat)
    ensures
        pow(x, m + 1) == x * pow(x, m),
{
    reveal(pow);
}

/// Pascal's rule on partial binomial sums.
proof fn lemma_binom_sum_step(n: nat, x: int, m: nat)
    ensures
        binom_sum(n + 1, x, m + 1) == binom_sum(n, x, m + 1) + x * binom_sum(n, x, m),
    decreases m,
{
    if m == 0 {
        lemma_pow0(x);
        assert(binom_sum(n + 1, x, 1) == binom_sum(n + 1, x, 0) + binom(n + 1, 0) * pow(x, 0));
        assert(binom_sum(n, x, 1) == binom_sum(n, x, 0) + binom(n, 0) * pow(x, 0));
    } else {
        lemma_binom_sum_step(n, x, (m - 1) as nat);
        lemma_pow_succ(x, (m - 1) as nat);
        let xm1 = pow(x, (m - 1) as nat);
        let xm = pow(x, m);
        let s1 = binom_sum(n, x, (m - 1) as nat);
        let bm1 = binom(n, (m - 1) as nat);
        let bm = binom(n, m);
        assert(binom(n + 1, m) == bm1 + bm);
        assert(binom_sum(n + 1, x, m + 1) == binom_sum(n + 1, x, m) + (bm1 + bm) * xm);
        assert(binom_sum(n, x, m) == s1 + bm1 * xm1);
        assert((bm1 + bm) * xm + x * s1 == bm * xm + x * (s1 + bm1 * xm1)) by (nonlinear_arith)
            requires
                xm == x * xm1,
        ;
    }
}

/// The binomial theorem at `y = 1`: `(x + 1)^n == sum_{k <= n} binom(n, k) * x^k`.
proof fn lemma_binomial(n: nat, x: int)
    ensures
        binom_sum(n, x, n + 1) == pow(x + 1, n),
    decreases n,
{
    if n == 0 {
        lemma_pow0(x);
        lemma_pow0(x + 1);
        assert(binom_sum(0, x, 1) == binom_sum(0, x, 0) + binom(0, 0) * pow(x, 0));
    } else {
        let n1 = (n - 1) as nat;
        lemma_binomial(n1, x);
        lemma_binom_sum_step(n1, x, n);
        lemma_binom_zero(n1, n);
        lemma_pow_succ(x + 1, n1);
        let s = binom_sum(n1, x, n);
        assert(binom_sum(n1, x, n + 1) == s + binom(n1, n) * pow(x, n));
        assert(binom_sum(n1, x, n + 1) == s);
        assert(s + x * s == (x + 1) * s) by (nonlinear_arith);
    }
}

/// Adding a multiple of `q` leaves the residue unchanged.
proof fn lemma_add_multiple(a: int, t: int, q: int)
    requires
        q > 0,
        t % q == 0,
    ensures
        (a + t) % q == a % q,
{
    lemma_add_mod_noop(a, t, q);
    lemma_mod_twice(a, q);
}

/// Values with equal residues differ by a multiple.
proof fn lemma_congruent_diff(a: int, b: int, q: int)
    requires
        q > 0,
        a % q == b % q,
    ensures
        (a - b) % q == 0,
{
    lemma_fundamental_div_mod(a, q);
    lemma_fundamental_div_mod(b, q);
    assert(a - b == q * (a / q - b / q)) by (nonlinear_arith)
        requires
            a == q * (a / q) + a % q,
            b == q * (b / q) + b % q,
            a % q == b % q,
    ;
    lemma_multiple(q, a / q - b / q);
}

/// Values that differ by a multiple have equal residues.
proof fn lemma_diff_congruent(a: int, b: int, q: int)
    requires
        q > 0,
        (a - b) % q == 0,
    ensures
        a % q == b % q,
{
    lemma_add_multiple(b, a - b, q);
}

/// A prime `q` divides `binom(q, k)` for `0 < k < q`.
proof fn lemma_prime_divides_binom(q: nat, k: nat)
    requires
        is_prime(q as int),
        0 < k < q,
    ensures
        (binom(q, k) as int) % (q as int) == 0,
{
    lemma_binom_absorb(q, k);
    lemma_multiple(q as int, binom((q - 1) as nat, (k - 1) as nat) as int);
    lemma_small_mod(k, q);
    lemma_euclid(q as int, k as int, binom(q, k) as int);
}

/// Modulo a prime `q`, the terms of `(x + 1)^q` strictly between the first and
/// the last vanish.
proof fn lemma_binom_sum_mod(q: nat, x: int, m: nat)
    requires
        is_prime(q as int),
        1 <= m <= q,
    ensures
        binom_sum(q, x, m) % (q as int) == 1,
    decreases m,
{
    if m == 1 {
        lemma_pow0(x);
        assert(binom_sum(q, x, 1) == binom_sum(q, x, 0) + binom(q, 0) * pow(x, 0));
        lemma_small_mod(1, q);
    } else {
        let k = (m - 1) as nat;
        lemma_binom_sum_mod(q, x, k);
        lemma_prime_divides_binom(q, k);
        lemma_multiple(q as int, 0);
        lemma_combination(q as int, binom(q, k) as int, 0, pow(x, k), 0);
        lemma_add_multiple(binom_sum(q, x, k), binom(q, k) * pow(x, k), q as int);
    }
}

/// The freshman's dream modulo a prime: `(x + 1)^q ≡ x^q + 1`.
proof fn lemma_freshman(q: nat, x: int)
    requires
        is_prime(q as int),
    ensures
        pow(x + 1, q) % (q as int) == (pow(x, q) + 1) % (q as int),
{
    lemma_binomial(q, x);
    lemma_binom_all(q);
    let s = binom_sum(q, x, q);
    assert(binom_sum(q, x, q + 1) == s + binom(q, q) * pow(x, q));
    lemma_binom_sum_mod(q, x, q);
    lemma_add_mod_noop(s, pow(x, q), q as int);
    lemma_add_mod_noop(1, pow(x, q), q as int);
    lemma_small_mod(1, q);
}

/// `x^q ≡ x` modulo a prime `q`.
proof fn lemma_pow_prime(q: nat, x: nat)
    requires
        is_prime(q as int),
    ensures
        pow(x as int, q) % (q as int) == (x as int) % (q as int),
    decreases x,
{
    if x == 0 {
        lemma0_pow(q);
    } else {
        let y = (x - 1) as nat;
        lemma_pow_prime(q, y);
        lemma_freshman(q, y as int);
        lemma_add_mod_noop(pow(y as int, q), 1, q as int);
        lemma_add_mod_noop(y as int, 1, q as int);
    }
}

/// Fermat's little theorem: `x^(q-1) ≡ 1` modulo a prime `q` that does not divide `x`.
pub proof fn lemma_fermat(q: nat, x: nat)
    requires
        is_prime(q as int),
        (x as int) % (q as int) != 0,
    ensures
        pow(x as int, (q - 1) as nat) % (q as int) == 1,
{
    let e = (q - 1) as nat;
    lemma_pow_prime(q, x);
    lemma_pow_succ(x as int, e);
    lemma_congruent_diff(pow(x as int, q), x as int, q as int);
    assert(pow(x as int, q) - x == x * (pow(x as int, e) - 1)) by (nonlinear_arith)
        requires
            pow(x as int, q) == x * pow(x as int, e),
    ;
    lemma_euclid(q as int, x as int, pow(x as int, e) - 1);
    lemma_diff_congruent(pow(x as int, e), 1, q as int);
    lemma_small_mod(1, q);
}

/// `7^((p-1)/2) ≡ -1` and `7^(p-1) ≡ 1` modulo `p`, by repeated squaring.
proof fn lemma_seven_powers()
    ensures
        fe(pow(7, 0x7fffffff80000000)) == 0xffffffff00000000,
        fe(pow(7, 0xffffffff00000000)) == 1,
{
    lemma_pow1(7);
    lemma_pow_mul(7, 7, 7, 49, 1, 1);
    lemma_pow_mul(7, 49, 7, 343, 2, 1);
    lemma_pow_mul(7, 343, 343, 117649, 3, 3);
    lemma_pow_mul(7, 117649, 7, 823543, 6, 1);
    lemma_pow_mul(7, 823543, 823543, 678223072849, 7, 7);
    lemma_pow_mul(7, 678223072849, 7, 4747561509943, 14, 1);
    lemma_pow_mul(7, 4747561509943, 4747561509943, 1582037354089406189, 15, 15);
    lemma_pow_mul(7, 1582037354089406189, 7, 11074261478625843323, 30, 1);
    lemma_pow_mul(7, 11074261478625843323, 11074261478625843323, 14911712358349047125, 31, 31);
    lemma_pow_mul(7, 14911712358349047125, 7, 12148266161370408270, 62, 1);
    lemma_pow_mul(7, 12148266161370408270, 12148266161370408270, 14177331716484271384, 63, 63);
    lemma_pow_mul(7, 14177331716484271384, 7, 7007601668316978083, 126, 1);
    lemma_pow_mul(7, 7007601668316978083, 7007601668316978083, 1160753142525841411, 127, 127);
    lemma_pow_mul(7, 1160753142525841411, 7, 8125271997680889877, 254, 1);
    lemma_pow_mul(7, 8125271997680889877, 8125271997680889877, 10915923311382173605, 255, 255);
    lemma_pow_mul(7, 10915923311382173605, 7, 2624486902016877951, 510, 1);
    lemma_pow_mul(7, 2624486902016877951, 2624486902016877951, 1179017105118043277, 511, 511);
    lemma_pow_mul(7, 1179017105118043277, 7, 8253119735826302939, 1022, 1);
    lemma_pow_mul(7, 8253119735826302939, 8253119735826302939, 13682469552810377440, 1023, 1023);
    lemma_pow_mul(7, 13682469552810377440, 7, 3543566522599720475, 2046, 1);
    lemma_pow_mul(7, 3543566522599720475, 3543566522599720475, 12252646851770615269, 2047, 2047);
    lemma_pow_mul(7, 12252646851770615269, 7, 11981551684735969599, 4094, 1);
    lemma_pow_mul(7, 11981551684735969599, 11981551684735969599, 9343193256669382154, 4095, 4095);
    lemma_pow_mul(7, 9343193256669382154, 7, 10062120588441922115, 8190, 1);
    lemma_pow_mul(7, 10062120588441922115, 10062120588441922115, 4133221502128927102, 8191, 8191);
    lemma_pow_mul(7, 4133221502128927102, 7, 10485806445487905393, 16382, 1);
    lemma_pow_mul(7, 10485806445487905393, 10485806445487905393, 5861853314594190514, 16383, 16383);
    lemma_pow_mul(7, 5861853314594190514, 7, 4139485063330164956, 32766, 1);
    lemma_pow_mul(7, 4139485063330164956, 4139485063330164956, 7004045467739516513, 32767, 32767);
    lemma_pow_mul(7, 7004045467739516513, 7, 12134830135347446949, 65534, 1);
    lemma_pow_mul(7, 12134830135347446949, 12134830135347446949, 618113109518621269, 65535, 65535);
    lemma_pow_mul(7, 618113109518621269, 7, 4326791766630348883, 131070, 1);
    lemma_pow_mul(7, 4326791766630348883, 4326791766630348883, 13205783127219969319, 131071, 131071);
    lemma_pow_mul(7, 13205783127219969319, 7, 206761543466863628, 262142, 1);
    lemma_pow_mul(7, 206761543466863628, 206761543466863628, 14617186517222294718, 262143, 262143);
    lemma_pow_mul(7, 14617186517222294718, 7, 10086585273483141421, 524286, 1);
    lemma_pow_mul(7, 10086585273483141421, 10086585273483141421, 5535602650859329748, 524287, 524287);
    lemma_pow_mul(7, 5535602650859329748, 7, 1855730417186139594, 1048574, 1);
    lemma_pow_mul(7, 1855730417186139594, 1855730417186139594, 3724741596018185032, 1048575, 1048575);
    lemma_pow_mul(7, 3724741596018185032, 7, 7626447102712710903, 2097150, 1);
    lemma_pow_mul(7, 7626447102712710903, 7626447102712710903, 11653985196031332500, 2097151, 2097151);
    lemma_pow_mul(7, 11653985196031332500, 7, 7790920094560990216, 4194302, 1);
    lemma_pow_mul(7, 7790920094560990216, 7790920094560990216, 16654626667483233145, 4194303, 4194303);
    lemma_pow_mul(7, 16654626667483233145, 7, 5901922255895126089, 8388606, 1);
    lemma_pow_mul(7, 5901922255895126089, 5901922255895126089, 9182212999444825067, 8388607, 8388607);
    lemma_pow_mul(7, 9182212999444825067, 7, 8935258787870022506, 16777214, 1);
    lemma_pow_mul(7, 8935258787870022506, 8935258787870022506, 17682034324931514088, 16777215, 16777215);
    lemma_pow_mul(7, 17682034324931514088, 7, 13093775858033092690, 33554430, 1);
    lemma_pow_mul(7, 13093775858033092690, 13093775858033092690, 9511995656157268947, 33554431, 33554431);
    lemma_pow_mul(7, 9511995656157268947, 7, 11243737384857129666, 67108862, 1);
    lemma_pow_mul(7, 11243737384857129666, 11243737384857129666, 16106297366990222687, 67108863, 67108863);
    lemma_pow_mul(7, 16106297366990222687, 7, 2063617152444052883, 134217726, 1);
    lemma_pow_mul(7, 2063617152444052883, 2063617152444052883, 4501656151559876649, 134217727, 134217727);
    lemma_pow_mul(7, 4501656151559876649, 7, 13064848991504552222, 268435454, 1);
    lemma_pow_mul(7, 13064848991504552222, 13064848991504552222, 2370486178716065012, 268435455, 268435455);
    lemma_pow_mul(7, 2370486178716065012, 7, 16593403251012455084, 536870910, 1);
    lemma_pow_mul(7, 16593403251012455084, 16593403251012455084, 14013264900002007546, 536870911, 536870911);
    lemma_pow_mul(7, 14013264900002007546, 7, 5859133952941131217, 1073741822, 1);
    lemma_pow_mul(7, 5859133952941131217, 5859133952941131217, 10142762553374040318, 1073741823, 1073741823);
    lemma_pow_mul(7, 10142762553374040318, 7, 15659105665374529263, 2147483646, 1);
    lemma_pow_mul(7, 15659105665374529263, 15659105665374529263, 16062014221418238814, 2147483647, 2147483647);
    lemma_pow_mul(7, 16062014221418238814, 7, 1753635133440165772, 4294967294, 1);
    lemma_pow_mul(7, 1753635133440165772, 1753635133440165772, 4614640910117430873, 4294967295, 4294967295);
    lemma_pow_mul(7, 4614640910117430873, 4614640910117430873, 9123114210336311365, 8589934590, 8589934590);
    lemma_pow_mul(7, 9123114210336311365, 9123114210336311365, 16116352524544190054, 17179869180, 17179869180);
    lemma_pow_mul(7, 16116352524544190054, 16116352524544190054, 6414415596519834757, 34359738360, 34359738360);
    lemma_pow_mul(7, 6414415596519834757, 6414415596519834757, 1213594585890690845, 68719476720, 68719476720);
    lemma_pow_mul(7, 1213594585890690845, 1213594585890690845, 17096174751763063430, 137438953440, 137438953440);
    lemma_pow_mul(7, 17096174751763063430, 17096174751763063430, 5456943929260765144, 274877906880, 274877906880);
    lemma_pow_mul(7, 5456943929260765144, 5456943929260765144, 9713644485405565297, 549755813760, 549755813760);
    lemma_pow_mul(7, 9713644485405565297, 9713644485405565297, 16905767614792059275, 1099511627520, 1099511627520);
    lemma_pow_mul(7, 16905767614792059275, 16905767614792059275, 5416168637041100469, 2199023255040, 2199023255040);
    lemma_pow_mul(7, 5416168637041100469, 5416168637041100469, 17654865857378133588, 4398046510080, 4398046510080);
    lemma_pow_mul(7, 17654865857378133588, 17654865857378133588, 3511170319078647661, 8796093020160, 8796093020160);
    lemma_pow_mul(7, 3511170319078647661, 3511170319078647661, 18146160046829613826, 17592186040320, 17592186040320);
    lemma_pow_mul(7, 18146160046829613826, 18146160046829613826, 9306717745644682924, 35184372080640, 35184372080640);
    lemma_pow_mul(7, 9306717745644682924, 9306717745644682924, 12380578893860276750, 70368744161280, 70368744161280);
    lemma_pow_mul(7, 12380578893860276750, 12380578893860276750, 6115771955107415310, 140737488322560, 140737488322560);
    lemma_pow_mul(7, 6115771955107415310, 6115771955107415310, 17776499369601055404, 281474976645120, 281474976645120);
    lemma_pow_mul(7, 17776499369601055404, 17776499369601055404, 16207902636198568418, 562949953290240, 562949953290240);
    lemma_pow_mul(7, 16207902636198568418, 16207902636198568418, 1532612707718625687, 1125899906580480, 1125899906580480);
    lemma_pow_mul(7, 1532612707718625687, 1532612707718625687, 17492915097719143606, 2251799813160960, 2251799813160960);
    lemma_pow_mul(7, 17492915097719143606, 17492915097719143606, 455906449640507599, 4503599626321920, 4503599626321920);
    lemma_pow_mul(7, 455906449640507599, 455906449640507599, 11353340290879379826, 9007199252643840, 9007199252643840);
    lemma_pow_mul(7, 11353340290879379826, 11353340290879379826, 1803076106186727246, 18014398505287680, 18014398505287680);
    lemma_pow_mul(7, 1803076106186727246, 1803076106186727246, 13797081185216407910, 36028797010575360, 36028797010575360);
    lemma_pow_mul(7, 13797081185216407910, 13797081185216407910, 17870292113338400769, 72057594021150720, 72057594021150720);
    lemma_pow_mul(7, 17870292113338400769, 17870292113338400769, 549755813888, 144115188042301440, 144115188042301440);
    lemma_pow_mul(7, 549755813888, 549755813888, 70368744161280, 288230376084602880, 288230376084602880);
    lemma_pow_mul(7, 70368744161280, 70368744161280, 17293822564807737345, 576460752169205760, 576460752169205760);
    lemma_pow_mul(7, 17293822564807737345, 17293822564807737345, 18446744069397807105, 1152921504338411520, 1152921504338411520);
    lemma_pow_mul(7, 18446744069397807105, 18446744069397807105, 281474976710656, 2305843008676823040, 2305843008676823040);
    lemma_pow_mul(7, 281474976710656, 281474976710656, 18446744069414584320, 4611686017353646080, 4611686017353646080);
    lemma_pow_mul(7, 18446744069414584320, 18446744069414584320, 1, 9223372034707292160, 9223372034707292160);
}

/// The least divisor of `n` that is at least `k`.
pub open spec fn least_divisor_from(n: int, k: int) -> int
    decreases n - k,
{
    if k >= n {
        n
    } else if n % k == 0 {
        k
    } else {
        least_divisor_from(n, k + 1)
    }
}

/// `least_divisor_from(n, k)` divides `n`, and nothing from `k` up to it does.
proof fn lemma_least_divisor(n: int, k: int)
    requires
        2 <= k <= n,
    ensures
        k <= least_divisor_from(n, k) <= n,
        n % least_divisor_from(n, k) == 0,
        forall|d: int| k <= d < least_divisor_from(n, k) ==> #[trigger] (n % d) != 0,
    decreases n - k,
{
    if k >= n {
        lemma_multiple(n, 1);
    } else if n % k != 0 {
        lemma_least_divisor(n, k + 1);
    }
}

/// A divisor of a divisor of `n` divides `n`.
proof fn lemma_divides_trans(n: int, r: int, d: int)
    requires
        d > 0,
        r > 0,
        n % r == 0,
        r % d == 0,
    ensures
        n % d == 0,
{
    lemma_quotient(n, r);
    lemma_combination(d, r, 0, n / r, 0);
    assert(n / r * r + 0 * 0 == n) by (nonlinear_arith)
        requires
            n == r * (n / r),
    ;
    lemma_multiple(d, 0);
}

/// Residues modulo `p` determine residues modulo a divisor `r` of `p`.
proof fn lemma_mod_divisor(x: int, p: int, r: int)
    requires
        p > 0,
        r > 0,
        p % r == 0,
    ensures
        x % r == (x % p) % r,
{
    lemma_fundamental_div_mod(x, p);
    lemma_combination(r, p, 0, x / p, 0);
    lemma_multiple(r, 0);
    assert(x == x % p + (x / p) * p + 0 * 0) by (nonlinear_arith)
        requires
            x == p * (x / p) + x % p,
    ;
    lemma_add_multiple(x % p, (x / p) * p + 0 * 0, r);
}

/// A value whose square and whose odd power `t` are both `1` modulo `r` is itself `1`.
proof fn lemma_unit_root(y: int, t: nat, r: int)
    requires
        r > 1,
        t % 2 == 1,
        (y * y) % r == 1,
        pow(y, t) % r == 1,
    ensures
        y % r == 1,
{
    let w = (t / 2) as nat;
    lemma_pow_adds(y, 2 * w, 1);
    lemma_pow_multiplies(y, 2, w);
    lemma_pow_succ(y, 1);
    lemma_pow1(y);
    lemma_pow_mod_noop(y * y, w, r);
    lemma1_pow(w);
    lemma_small_mod(1, r as nat);
    lemma_mul_mod_noop_general(pow(y * y, w), y, r);
    assert(t == 2 * w + 1);
}

/// If `c^t ≡ 1` for an odd `t` and `c^(2^k) ≡ 1` modulo `r`, then `c ≡ 1`.
proof fn lemma_odd_root(c: int, t: nat, k: nat, r: int)
    requires
        r > 1,
        t % 2 == 1,
        pow(c, t) % r == 1,
        pow(c, pow2(k)) % r == 1,
    ensures
        c % r == 1,
    decreases k,
{
    lemma2_to64();
    if k == 0 {
        lemma_pow1(c);
    } else {
        let h = pow2((k - 1) as nat);
        let y = pow(c, h);
        lemma_pow2((k - 1) as nat);
        lemma_pow2(k);
        lemma_pow_adds(2, (k - 1) as nat, 1);
        lemma_pow1(2);
        lemma_pow_adds(c, h, h);
        assert(pow2(k) == h + h);
        lemma_pow_multiplies(c, h, t);
        lemma_pow_multiplies(c, t, h);
        assert(h * t == t * h) by (nonlinear_arith);
        lemma_pow_mod_noop(pow(c, t), h, r);
        lemma1_pow(h);
        lemma_small_mod(1, r as nat);
        lemma_unit_root(y, t, r);
        lemma_odd_root(c, t, (k - 1) as nat, r);
    }
}

/// A positive integer is a power of two times an odd number.
proof fn lemma_two_adic(n: nat) -> (r: (nat, nat))
    requires
        n >= 1,
    ensures
        n == pow2(r.0) * r.1,
        r.1 % 2 == 1,
    decreases n,
{
    lemma2_to64();
    if n % 2 == 1 {
        assert(pow2(0) * n == n) by (nonlinear_arith)
            requires
                pow2(0) == 1,
        ;
        (0, n)
    } else {
        let (s, t) = lemma_two_adic(n / 2);
        lemma_pow2(s);
        lemma_pow2(s + 1);
        lemma_pow_adds(2, s, 1);
        lemma_pow1(2);
        assert(n == pow2(s + 1) * t) by (nonlinear_arith)
            requires
                n / 2 == pow2(s) * t,
                n % 2 == 0,
                pow2(s + 1) == pow2(s) * 2,
        ;
        (s + 1, t)
    }
}

/// Every prime factor of `p` exceeds `2^32`.
proof fn lemma_prime_factor_large(r: int)
    requires
        is_prime(r),
        (MOD as int) % r == 0,
    ensures
        r > 0x1_0000_0000,
{
    let p = MOD as int;
    let m: nat = 0xffffffff;
    let half: nat = 0x7fffffff80000000;
    let full: nat = 0xffffffff00000000;
    lemma_seven_powers();
    lemma2_to64();
    if r == 2 {
        assert(p % 2 == 1);
    }
    // 7^((p-1)/2) ≡ -1 and 7^(p-1) ≡ 1 modulo r
    lemma_mod_divisor(pow(7, half), p, r);
    lemma_mod_divisor(pow(7, full), p, r);
    lemma_mod_divisor(p - 1, p, r);
    lemma_small_mod(1, r as nat);
    lemma_small_mod((p - 1) as nat, p as nat);
    lemma_quotient(p, r);
    assert(p - 1 == r * (p / r - 1) + (r - 1)) by (nonlinear_arith)
        requires
            p == r * (p / r),
    ;
    lemma_fundamental_div_mod_converse(p - 1, r, p / r - 1, r - 1);
    assert(pow(7, half) % r == r - 1);
    assert(pow(7, full) % r == 1);
    // r does not divide 7, so Fermat applies
    if 7int % r == 0 {
        lemma_pow_mod_noop(7, full, r);
        lemma0_pow(full);
    }
    lemma_fermat(r as nat, 7);
    if r <= 0x1_0000_0000 {
        let (s, t) = lemma_two_adic((r - 1) as nat);
        lemma_pow2(s);
        lemma_pow_positive(2, s);
        if s >= 32 {
            if s > 32 {
                lemma_pow2_strictly_increases(32, s);
            }
            assert(pow2(s) * t >= pow2(s)) by (nonlinear_arith)
                requires
                    t >= 1,
            ;
        }
        assert(s < 32);
        let c = pow(7, m * pow2(s));
        // c^t == 7^(m (r-1)) == (7^(r-1))^m ≡ 1
        lemma_pow_multiplies(7, m * pow2(s), t);
        lemma_pow_multiplies(7, (r - 1) as nat, m);
        assert(m * pow2(s) * t == (r - 1) * m) by (nonlinear_arith)
            requires
                r - 1 == pow2(s) * t,
        ;
        lemma_pow_mod_noop(pow(7, (r - 1) as nat), m, r);
        lemma1_pow(m);
        // c^(2^(32-s)) == 7^(m 2^32) == 7^(p-1) ≡ 1
        lemma_pow_adds(2, s, (32 - s) as nat);
        lemma_pow2((32 - s) as nat);
        lemma2_to64();
        lemma_pow2(32);
        lemma_pow_multiplies(7, m * pow2(s), pow2((32 - s) as nat));
        assert(m * pow2(s) * pow2((32 - s) as nat) == full) by (nonlinear_arith)
            requires
                pow2(s) * pow2((32 - s) as nat) == 0x1_0000_0000,
                m == 0xffffffff,
                full == 0xffffffff00000000,
        ;
        lemma_odd_root(c, t, (32 - s) as nat, r);
        // then 7^((p-1)/2) == c^(2^(31-s)) ≡ 1, against ≡ -1
        lemma_pow_adds(2, s, (31 - s) as nat);
        lemma_pow2((31 - s) as nat);
        lemma_pow2(31);
        lemma_pow_multiplies(7, m * pow2(s), pow2((31 - s) as nat));
        assert(m * pow2(s) * pow2((31 - s) as nat) == half) by (nonlinear_arith)
            requires
                pow2(s) * pow2((31 - s) as nat) == 0x8000_0000,
                m == 0xffffffff,
                half == 0x7fffffff80000000,
        ;
        lemma_pow_mod_noop(c, pow2((31 - s) as nat), r);
        lemma1_pow(pow2((31 - s) as nat));
    }
}

/// `p = 2^64 - 2^32 + 1` is prime.
pub proof fn lemma_mod_is_prime()
    ensures
        is_prime(MOD as int),
{
    let p = MOD as int;
    assert forall|d: int| 1 < d < p implies #[trigger] (p % d) != 0 by {
        if p % d == 0 {
            lemma_least_divisor(p, 2);
            let r = least_divisor_from(p, 2);
            assert(r <= d);
            assert forall|e: int| 1 < e < r implies #[trigger] (r % e) != 0 by {
                if r % e == 0 {
                    lemma_divides_trans(p, r, e);
                }
            }
            lemma_prime_factor_large(r);
            lemma_quotient(p, r);
            let c = p / r;
            assert(c >= 2) by (nonlinear_arith)
                requires
                    p == r * c,
                    r < p,
                    r > 0,
            ;
            lemma_multiple(c, r);
            assert(p % c == 0) by (nonlinear_arith)
                requires
                    p == r * c,
                    (c * r) % c == 0,
            ;
            assert(c >= r);
            assert(r * c > p) by (nonlinear_arith)
                requires
                    r > 0x1_0000_0000,
                    c >= r,
                    p < 0x1_0000_0000_0000_0000,
            ;
        }
    }
}

} // verus!
