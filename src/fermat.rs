use vstd::arithmetic::div_mod::{
    lemma_add_mod_noop, lemma_fundamental_div_mod, lemma_mod_multiples_vanish,
    lemma_mul_mod_noop_left, lemma_mul_mod_noop_right, lemma_small_mod,
};
use vstd::arithmetic::power::{lemma1_pow, lemma_pow_mod_noop, lemma_pow_multiplies, pow};
use vstd::prelude::*;

verus! {

/// `p` is prime: at least two, with no divisor strictly between one and itself.
pub open spec fn is_prime(p: int) -> bool {
    p >= 2 && forall|d: int| 2 <= d < p ==> #[trigger] (p % d) != 0
}

/// Binomial coefficient, by Pascal's rule.
pub open spec fn binom(n: nat, k: nat) -> nat
    decreases n,
{
    if k == 0 {
        1
    } else if n == 0 {
        0
    } else {
        binom((n - 1) as nat, (k - 1) as nat) + binom((n - 1) as nat, k)
    }
}

/// The first `m + 1` terms of the binomial expansion of `(a + 1)^n`.
pub open spec fn binom_sum(a: int, n: nat, m: int) -> int
    decreases m + 1,
{
    if m < 0 {
        0
    } else {
        binom_sum(a, n, m - 1) + binom(n, m as nat) * pow(a, m as nat)
    }
}

/// Euclid's lemma for a prime modulus and a factor in `(0, p)`.
proof fn lemma_euclid(p: int, a: int, b: int)
    requires
        is_prime(p),
        0 < a < p,
        (a * b) % p == 0,
    ensures
        b % p == 0,
    decreases a,
{
    if a == 1 {
        assert(a * b == b) by (nonlinear_arith)
            requires
                a == 1,
        ;
    } else {
        let r = p % a;
        assert(r != 0);
        lemma_fundamental_div_mod(p, a);
        lemma_fundamental_div_mod(a * b, p);
        let k = (a * b) / p;
        let t = b - (p / a) * k;
        assert(r * b == p * t) by (nonlinear_arith)
            requires
                p == a * (p / a) + r,
                a * b == p * k + 0,
                t == b - (p / a) * k,
        ;
        lemma_mod_multiples_vanish(t, 0, p);
        assert(0 < r < a);
        lemma_euclid(p, r, b);
    }
}

proof fn lemma_binom_zero_above(n: nat, k: nat)
    requires
        k > n,
    ensures
        binom(n, k) == 0,
    decreases n,
{
    if n > 0 {
        lemma_binom_zero_above((n - 1) as nat, (k - 1) as nat);
        lemma_binom_zero_above((n - 1) as nat, k);
    }
}

proof fn lemma_binom_diag(n: nat)
    ensures
        binom(n, n) == 1,
    decreases n,
{
    if n > 0 {
        lemma_binom_diag((n - 1) as nat);
        lemma_binom_zero_above((n - 1) as nat, n);
    }
}

proof fn lemma_binom_absorb(n: nat, k: nat)
    requires
        n >= 1,
        k >= 1,
    ensures
        k * binom(n, k) == n * binom((n - 1) as nat, (k - 1) as nat),
    decreases n,
{
    let n1 = (n - 1) as nat;
    let k1 = (k - 1) as nat;
    if n == 1 {
        assert(binom(0, k) == 0);
        if k == 1 {
            assert(binom(1, 1) == binom(0, 0) + binom(0, 1));
            assert(binom(0, 0) == 1);
        } else {
            assert(binom(0, k1) == 0);
            assert(binom(1, k) == binom(0, k1) + binom(0, k));
            assert(binom(1, k) == 0);
            assert(k * 0 == 0);
        }
    } else if k == 1 {
        lemma_binom_absorb(n1, 1);
        assert(binom(n, 1) == binom(n1, 0) + binom(n1, 1));
        assert(binom((n1 - 1) as nat, 0) == 1);
        assert(binom(n1, 1) == n1) by (nonlinear_arith)
            requires
                1 * binom(n1, 1) == n1 * binom((n1 - 1) as nat, 0),
                binom((n1 - 1) as nat, 0) == 1,
        ;
        assert(binom(n1, 0) == 1);
        assert(binom(n, 1) == n);
        assert(1 * binom(n, 1) == n * binom(n1, 0));
    } else {
        let n2 = (n - 2) as nat;
        let k2 = (k - 2) as nat;
        lemma_binom_absorb(n1, k);
        lemma_binom_absorb(n1, k1);
        assert(binom(n, k) == binom(n1, k1) + binom(n1, k));
        assert(binom(n1, k1) == binom(n2, k2) + binom(n2, k1));
        assert(k * binom(n, k) == n * binom(n1, k1)) by (nonlinear_arith)
            requires
                binom(n, k) == binom(n1, k1) + binom(n1, k),
                binom(n1, k1) == binom(n2, k2) + binom(n2, k1),
                k * binom(n1, k) == n1 * binom(n2, k1),
                k1 * binom(n1, k1) == n1 * binom(n2, k2),
                n1 == n - 1,
                k1 == k - 1,
        ;
    }
}

proof fn lemma_prime_divides_binom(p: int, k: nat)
    requires
        is_prime(p),
        0 < k < p,
    ensures
        (binom(p as nat, k) as int) % p == 0,
{
    let c = binom(p as nat, k);
    lemma_binom_absorb(p as nat, k);
    let t = binom((p - 1) as nat, (k - 1) as nat);
    assert(k * c == p * t);
    lemma_mod_multiples_vanish(t as int, 0, p);
    lemma_euclid(p, k as int, c as int);
}

proof fn lemma_binom_sum_step(a: int, n: nat, m: int)
    requires
        m >= 0,
    ensures
        binom_sum(a, n + 1, m) == binom_sum(a, n, m) + a * binom_sum(a, n, m - 1),
    decreases m,
{
    reveal(pow);
    if m == 0 {
        assert(pow(a, 0) == 1);
        assert(binom_sum(a, n + 1, -1) == 0);
        assert(binom_sum(a, n, -1) == 0);
    } else {
        lemma_binom_sum_step(a, n, m - 1);
        let mn = m as nat;
        let bn1 = binom((n + 1) as nat, mn);
        assert(bn1 == binom(n, (m - 1) as nat) + binom(n, mn));
        assert(pow(a, mn) == a * pow(a, (m - 1) as nat));
        let s1 = binom_sum(a, n, m - 1);
        let s2 = binom_sum(a, n, m - 2);
        assert(binom_sum(a, n, m - 1) == s2 + binom(n, (m - 1) as nat) * pow(a, (m - 1) as nat));
        assert(binom_sum(a, n + 1, m) == binom_sum(a, n, m) + a * binom_sum(a, n, m - 1))
            by (nonlinear_arith)
            requires
                binom_sum(a, n + 1, m) == binom_sum(a, n + 1, m - 1) + bn1 * pow(a, mn),
                binom_sum(a, n + 1, m - 1) == s1 + a * s2,
                bn1 == binom(n, (m - 1) as nat) + binom(n, mn),
                pow(a, mn) == a * pow(a, (m - 1) as nat),
                binom_sum(a, n, m) == s1 + binom(n, mn) * pow(a, mn),
                s1 == s2 + binom(n, (m - 1) as nat) * pow(a, (m - 1) as nat),
                binom_sum(a, n, m - 1) == s1,
        ;
    }
}

proof fn lemma_binomial_theorem(a: int, n: nat)
    ensures
        pow(a + 1, n) == binom_sum(a, n, n as int),
    decreases n,
{
    reveal(pow);
    if n == 0 {
        assert(pow(a + 1, 0) == 1);
        assert(pow(a, 0) == 1);
        assert(binom_sum(a, 0, -1) == 0);
        assert(binom(0, 0) == 1);
        assert(binom_sum(a, 0, 0) == binom_sum(a, 0, -1) + binom(0, 0) * pow(a, 0));
        assert(binom_sum(a, 0, 0) == 1);
    } else {
        let n1 = (n - 1) as nat;
        lemma_binomial_theorem(a, n1);
        lemma_binom_sum_step(a, n1, n as int);
        lemma_binom_zero_above(n1, n);
        let s = binom_sum(a, n1, n1 as int);
        assert(binom_sum(a, n1, n as int) == s + binom(n1, n) * pow(a, n));
        assert(pow(a + 1, n) == (a + 1) * pow(a + 1, n1));
        assert(pow(a + 1, n) == binom_sum(a, n, n as int)) by (nonlinear_arith)
            requires
                binom_sum(a, n, n as int) == binom_sum(a, n1, n as int) + a * s,
                binom_sum(a, n1, n as int) == s + 0 * pow(a, n),
                pow(a + 1, n1) == s,
                pow(a + 1, n) == (a + 1) * pow(a + 1, n1),
        ;
    }
}

proof fn lemma_binom_sum_mod_prime(a: int, p: int, m: int)
    requires
        is_prime(p),
        0 <= m < p,
    ensures
        binom_sum(a, p as nat, m) % p == 1,
    decreases m,
{
    reveal(pow);
    if m == 0 {
        assert(pow(a, 0) == 1);
        assert(binom_sum(a, p as nat, -1) == 0);
        lemma_small_mod(1, p as nat);
    } else {
        lemma_binom_sum_mod_prime(a, p, m - 1);
        lemma_prime_divides_binom(p, m as nat);
        let c = binom(p as nat, m as nat) as int;
        lemma_fundamental_div_mod(c, p);
        let t = c / p;
        let prev = binom_sum(a, p as nat, m - 1);
        assert(c * pow(a, m as nat) == p * (t * pow(a, m as nat))) by (nonlinear_arith)
            requires
                c == p * t + 0,
        ;
        lemma_mod_multiples_vanish(t * pow(a, m as nat), prev, p);
    }
}

/// `a^p ≡ a (mod p)` for a prime `p` and `a >= 0`.
proof fn lemma_fermat_power(a: nat, p: int)
    requires
        is_prime(p),
    ensures
        pow(a as int, p as nat) % p == (a as int) % p,
    decreases a,
{
    reveal(pow);
    let pn = p as nat;
    if a == 0 {
        assert(pow(0, pn) == 0 * pow(0, (pn - 1) as nat));
    } else {
        let b = (a - 1) as nat;
        lemma_fermat_power(b, p);
        lemma_binomial_theorem(b as int, pn);
        lemma_binom_diag(pn);
        lemma_binom_sum_mod_prime(b as int, p, p - 1);
        let s = binom_sum(b as int, pn, p - 1);
        let x = pow(b as int, pn);
        assert(pow(a as int, pn) == s + x);
        lemma_add_mod_noop(s, x, p);
        lemma_add_mod_noop(1, x, p);
        lemma_add_mod_noop(1, b as int, p);
        lemma_small_mod(1, pn);
    }
}

/// `w^(p-1) ≡ 1 (mod p)` for a prime `p` and `1 <= w < p`.
pub proof fn lemma_fermat_unit(p: int, w: int)
    requires
        is_prime(p),
        1 <= w < p,
    ensures
        pow(w, (p - 1) as nat) % p == 1,
{
    reveal(pow);
    let x = pow(w, (p - 1) as nat);
    lemma_fermat_power(w as nat, p);
    assert(pow(w, p as nat) == w * x);
    lemma_small_mod(w as nat, p as nat);
    lemma_fundamental_div_mod(w * x, p);
    let q = (w * x) / p;
    assert(w * (x - 1) == p * q) by (nonlinear_arith)
        requires
            w * x == p * q + w,
    ;
    lemma_mod_multiples_vanish(q, 0, p);
    lemma_euclid(p, w, x - 1);
    lemma_fundamental_div_mod(x - 1, p);
    let k = (x - 1) / p;
    assert(x == p * k + 1);
    lemma_mod_multiples_vanish(k, 1, p);
    lemma_small_mod(1, p as nat);
}

/// Fermat's little theorem, which makes the Fermat test accept every odd prime: for an odd
/// prime `p` and a witness `w` with `1 <= w < p - 1`, `w^(p-1) mod p == 1`.
pub proof fn lemma_fermat_test_accepts_primes(p: int, w: int)
    requires
        is_prime(p),
        p % 2 == 1,
        1 <= w < p - 1,
    ensures
        pow(w, (p - 1) as nat) % p == 1,
{
    lemma_fermat_unit(p, w);
}

/// `m^(1 + t(p-1)) ≡ m (mod p)` for a prime `p`, `m >= 0` and `t >= 0`.
pub proof fn lemma_fermat_exponent(p: int, m: int, t: nat)
    requires
        is_prime(p),
        m >= 0,
    ensures
        pow(m, (1 + t * (p - 1)) as nat) % p == m % p,
{
    reveal(pow);
    let s = (t * (p - 1)) as nat;
    assert(t * (p - 1) >= 0) by (nonlinear_arith)
        requires
            p >= 2,
    ;
    let y = pow(m, s);
    assert(pow(m, (1 + s) as nat) == m * y);
    lemma_mul_mod_noop_right(m, y, p);
    lemma_pow_multiplies(m, (p - 1) as nat, t);
    assert(((p - 1) as nat) * t == s) by (nonlinear_arith)
        requires
            p >= 2,
            s == t * (p - 1),
    ;
    assert(y == pow(pow(m, (p - 1) as nat), t));
    let r = m % p;
    if r == 0 {
        lemma_mul_mod_noop_left(m, y, p);
        assert(0 * y == 0);
    } else {
        lemma_pow_mod_noop(m, (p - 1) as nat, p);
        lemma_fermat_unit(p, r);
        lemma_pow_mod_noop(pow(m, (p - 1) as nat), t, p);
        lemma1_pow(t);
        lemma_small_mod(1, p as nat);
        assert(y % p == 1);
        assert(m * 1 == m);
    }
}

/// If two distinct primes both divide `y`, so does their product.
pub proof fn lemma_distinct_primes_divide(p: int, q: int, y: int)
    requires
        is_prime(p),
        is_prime(q),
        p != q,
        y % p == 0,
        y % q == 0,
    ensures
        y % (p * q) == 0,
{
    lemma_fundamental_div_mod(y, p);
    let a = y / p;
    assert(y == p * a);
    let r = p % q;
    if q < p {
        assert(r != 0);
    } else {
        lemma_small_mod(p as nat, q as nat);
    }
    lemma_mul_mod_noop_left(p, a, q);
    lemma_euclid(q, r, a);
    lemma_fundamental_div_mod(a, q);
    let b = a / q;
    assert(y == (p * q) * b) by (nonlinear_arith)
        requires
            y == p * a,
            a == q * b + 0,
    ;
    assert(p * q > 0) by (nonlinear_arith)
        requires
            p >= 2,
            q >= 2,
    ;
    lemma_mod_multiples_vanish(b, 0, p * q);
}

} // verus!
