use crate::bignum::BigNum;
use vstd::arithmetic::div_mod::{
    lemma_fundamental_div_mod, lemma_fundamental_div_mod_converse, lemma_mod_bound,
    lemma_mod_multiples_vanish, lemma_mul_mod_noop_left, lemma_mul_mod_noop_right,
    lemma_small_mod,
};
use vstd::arithmetic::power::{
    lemma_pow_adds, lemma_pow_mod_noop, lemma_pow_multiplies, lemma_square_is_pow2, pow,
};
use vstd::prelude::*;

verus! {

/// Greatest common divisor by Euclid's recurrence; `gcd_spec(a, 0) == a`.
pub open spec fn gcd_spec(a: nat, b: nat) -> nat
    decreases b,
{
    if b == 0 {
        a
    } else {
        gcd_spec(b, a % b)
    }
}

/// The extended Euclidean recurrence from running coefficients `u` (of the remainder `a`)
/// and `v` (of `b`): the final coefficient and the final non-zero remainder.
pub open spec fn egcd_spec(a: nat, b: nat, u: int, v: int) -> (int, nat)
    decreases b,
{
    if b == 0 {
        (u, a)
    } else {
        egcd_spec(b, a % b, v, u - (a / b) * v)
    }
}

/// The coefficient of `a` that the extended Euclidean algorithm produces for `(a, b)`.
pub open spec fn bezout_x(a: nat, b: nat) -> int {
    egcd_spec(a, b, 1, 0).0
}

proof fn lemma_egcd_is_gcd(a: nat, b: nat, u: int, v: int)
    ensures
        egcd_spec(a, b, u, v).1 == gcd_spec(a, b),
    decreases b,
{
    if b != 0 {
        lemma_egcd_is_gcd(b, a % b, v, u - (a / b) * v);
    }
}

proof fn lemma_square_step(a: int, b: int, e: nat, m: int)
    requires
        m > 0,
    ensures
        ((if e % 2 == 1 { (a * b) % m } else { a }) * pow((b * b) % m, e / 2)) % m == (a * pow(
            b,
            e,
        )) % m,
{
    let h = e / 2;
    let x = pow(b * b, h);
    lemma_pow_adds(b, 2 * h, e % 2);
    lemma_pow_multiplies(b, 2, h);
    lemma_square_is_pow2(b);
    assert(pow(b, e) == x * pow(b, e % 2));
    let y = if e % 2 == 1 { (a * b) % m } else { a };
    lemma_pow_mod_noop(b * b, h, m);
    lemma_mul_mod_noop_right(y, pow((b * b) % m, h), m);
    lemma_mul_mod_noop_right(y, x, m);
    assert((y * pow((b * b) % m, h)) % m == (y * x) % m);
    if e % 2 == 1 {
        assert(pow(b, 1) == b) by {
            reveal_with_fuel(pow, 2);
        }
        lemma_mul_mod_noop_left(a * b, x, m);
        assert(a * b * x == a * (x * b)) by (nonlinear_arith);
    } else {
        assert(pow(b, 0) == 1) by {
            reveal_with_fuel(pow, 1);
        }
    }
}

/// `base` raised to `exp`, modulo `m`, by repeated squaring: every intermediate value
/// is reduced below `m`, and an exponent of zero gives `1 % m`.
pub fn mod_pow(base: &BigNum, exp: &BigNum, m: &BigNum) -> (r: BigNum)
    requires
        base@ >= 0,
        exp@ >= 0,
        m@ > 0,
    ensures
        r@ == pow(base@, exp@ as nat) % m@,
{
    let zero = BigNum::from_u64(0);
    let one = BigNum::from_u64(1);
    let mut acc = one.remainder(m);
    let mut b = base.remainder(m);
    let mut e = exp.copy();
    proof {
        lemma_pow_mod_noop(base@, exp@ as nat, m@);
        lemma_mul_mod_noop_left(1, pow(base@ % m@, exp@ as nat), m@);
    }
    while zero.less_than(&e)
        invariant
            m@ > 0,
            zero@ == 0,
            0 <= acc@ < m@,
            0 <= b@ < m@,
            e@ >= 0,
            (acc@ * pow(b@, e@ as nat)) % m@ == pow(base@, exp@ as nat) % m@,
        decreases e@,
    {
        proof {
            lemma_square_step(acc@, b@, e@ as nat, m@);
            assert(b@ * b@ >= 0) by (nonlinear_arith)
                requires
                    b@ >= 0,
            ;
        }
        if e.is_odd() {
            assert(acc@ * b@ >= 0) by (nonlinear_arith)
                requires
                    acc@ >= 0,
                    b@ >= 0,
            ;
            acc = acc.times(&b).remainder(m);
        }
        b = b.times(&b).remainder(m);
        e = e.half();
    }
    proof {
        assert(pow(b@, 0) == 1) by {
            reveal_with_fuel(pow, 1);
        }
        lemma_small_mod(acc@ as nat, m@ as nat);
    }
    acc
}

/// Greatest common divisor of two non-negative integers, by Euclid's algorithm.
pub fn gcd(a: &BigNum, b: &BigNum) -> (r: BigNum)
    requires
        a@ >= 0,
        b@ >= 0,
    ensures
        r@ == gcd_spec(a@ as nat, b@ as nat),
{
    let zero = BigNum::from_u64(0);
    let mut x = a.copy();
    let mut y = b.copy();
    while !y.equals(&zero)
        invariant
            zero@ == 0,
            x@ >= 0,
            y@ >= 0,
            gcd_spec(x@ as nat, y@ as nat) == gcd_spec(a@ as nat, b@ as nat),
        decreases y@,
    {
        let t = y.copy();
        y = x.remainder(&y);
        x = t;
    }
    x
}

/// The extended Euclidean algorithm: returns `(x, g)` where `g` is the greatest common
/// divisor of `a` and `b` and `x * a ≡ g (mod b)`.
pub fn extended_gcd(a: &BigNum, b: &BigNum) -> (r: (BigNum, BigNum))
    requires
        a@ >= 0,
        b@ >= 0,
    ensures
        r.0@ == bezout_x(a@ as nat, b@ as nat),
        r.1@ == gcd_spec(a@ as nat, b@ as nat),
        b@ > 0 ==> (r.0@ * a@ - r.1@) % b@ == 0,
        b@ == 0 ==> r.0@ == 1,
{
    let zero = BigNum::from_u64(0);
    let mut u = BigNum::from_u64(1);
    let mut v = BigNum::from_u64(0);
    let mut ca = a.copy();
    let mut cb = b.copy();
    let ghost yu: int = 0;
    let ghost yv: int = 1;
    while !cb.equals(&zero)
        invariant
            zero@ == 0,
            ca@ >= 0,
            cb@ >= 0,
            egcd_spec(ca@ as nat, cb@ as nat, u@, v@) == egcd_spec(a@ as nat, b@ as nat, 1, 0),
            u@ * a@ + yu * b@ == ca@,
            v@ * a@ + yv * b@ == cb@,
        decreases cb@,
    {
        let q = ca.quotient(&cb);
        let r = ca.remainder(&cb);
        let m = u.minus(&q.times(&v));
        proof {
            let ym = yu - q@ * yv;
            lemma_fundamental_div_mod(ca@, cb@);
            assert(m@ * a@ + ym * b@ == ca@ - q@ * cb@) by (nonlinear_arith)
                requires
                    m@ == u@ - q@ * v@,
                    ym == yu - q@ * yv,
                    u@ * a@ + yu * b@ == ca@,
                    v@ * a@ + yv * b@ == cb@,
            ;
            yu = yv;
            yv = ym;
        }
        ca = cb;
        cb = r;
        u = v;
        v = m;
    }
    proof {
        lemma_egcd_is_gcd(a@ as nat, b@ as nat, 1, 0);
        if b@ > 0 {
            assert(u@ * a@ - ca@ == b@ * (-yu)) by (nonlinear_arith)
                requires
                    u@ * a@ + yu * b@ == ca@,
            ;
            lemma_mod_multiples_vanish(-yu, 0, b@);
        } else {
            assert(ca@ == a@);
        }
    }
    (u, ca)
}

/// The multiplicative inverse of `a` modulo `n`, in `[0, n)`: `None` exactly when `a`
/// and `n` are not coprime. It is the extended Euclidean coefficient of `a`, reduced.
pub fn multiplicative_inverse(a: &BigNum, n: &BigNum) -> (r: Option<BigNum>)
    requires
        a@ >= 0,
        n@ > 0,
    ensures
        r is Some <==> gcd_spec(a@ as nat, n@ as nat) == 1,
        r matches Some(x) ==> x@ == bezout_x(a@ as nat, n@ as nat) % n@,
        r matches Some(x) ==> 0 <= x@ < n@ && (a@ * x@) % n@ == 1int % n@,
{
    let zero = BigNum::from_u64(0);
    let one = BigNum::from_u64(1);
    let (x, g) = extended_gcd(a, n);
    if !g.equals(&one) {
        return None;
    }
    let res = if x.less_than(&zero) {
        let t = zero.minus(&x).remainder(n);
        if t.equals(&zero) {
            proof {
                let k = (-x@) / n@;
                lemma_fundamental_div_mod(-x@, n@);
                assert(x@ == (-k) * n@ + 0) by (nonlinear_arith)
                    requires
                        -x@ == n@ * k + t@,
                        t@ == 0,
                ;
                lemma_fundamental_div_mod_converse(x@, n@, -k, 0);
            }
            t
        } else {
            proof {
                let k = (-x@) / n@;
                lemma_fundamental_div_mod(-x@, n@);
                lemma_mod_bound(-x@, n@);
                assert(x@ == (-k - 1) * n@ + (n@ - t@)) by (nonlinear_arith)
                    requires
                        -x@ == n@ * k + t@,
                ;
                lemma_fundamental_div_mod_converse(x@, n@, -k - 1, n@ - t@);
            }
            n.minus(&t)
        }
    } else {
        x.remainder(n)
    };
    proof {
        lemma_mod_bound(x@, n@);
        assert(x@ * a@ == a@ * x@) by (nonlinear_arith);
        assert((x@ * a@) % n@ == 1int % n@) by {
            lemma_fundamental_div_mod(x@ * a@ - 1, n@);
            let k = (x@ * a@ - 1) / n@;
            assert(x@ * a@ == n@ * k + 1);
            lemma_mod_multiples_vanish(k, 1, n@);
        }
        lemma_mul_mod_noop_right(a@, x@, n@);
    }
    Some(res)
}

/// The inverse of `a` modulo a prime `p` by Fermat's little theorem: `a^(p-2) mod p`.
pub fn multiplicative_inverse_fermat(a: &BigNum, p: &BigNum) -> (r: BigNum)
    requires
        a@ >= 0,
        p@ >= 2,
    ensures
        r@ == pow(a@, (p@ - 2) as nat) % p@,
{
    let two = BigNum::from_u64(2);
    let e = p.minus(&two);
    mod_pow(a, &e, p)
}

} // verus!
