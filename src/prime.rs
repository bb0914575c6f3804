use crate::arith::mod_pow;
use crate::bignum::BigNum;
use vstd::arithmetic::power::pow;
use vstd::prelude::*;

verus! {

/// Whether repeated squaring of `x` modulo `p` meets `p - 1` within `steps` squarings,
/// stopping (with `false`) at the first `1`.
pub open spec fn squares_reach_minus_one(x: int, p: int, steps: int) -> bool
    decreases steps,
{
    if steps <= 0 {
        false
    } else {
        let y = (x * x) % p;
        if y == p - 1 {
            true
        } else if y == 1 {
            false
        } else {
            squares_reach_minus_one(y, p, steps - 1)
        }
    }
}

/// The Miller–Rabin verdict for `p` with `p - 1 = q * 2^k` and the witness `w`.
pub open spec fn miller_rabin(p: int, q: int, k: int, w: int) -> bool {
    let x = pow(w, q as nat) % p;
    x == 1 || x == p - 1 || squares_reach_minus_one(x, p, k - 1)
}

/// `(q, k)` with `n = q * 2^k` and `q` odd, for `n > 0`, found by halving while even.
pub open spec fn odd_split(n: int) -> (int, int)
    decreases n,
{
    if n > 0 && n % 2 == 0 {
        let (q, k) = odd_split(n / 2);
        (q, k + 1)
    } else {
        (n, 0)
    }
}

/// The primality decision for `p` with the witness `w`: `p` is at least two and
/// passes Miller–Rabin with `p - 1` split into its odd part and power of two.
pub open spec fn passes_miller_rabin(p: int, w: int) -> bool {
    p >= 2 && miller_rabin(p, odd_split(p - 1).0, odd_split(p - 1).1, w)
}

/// Fermat's test: whether `w^(p-1) mod p == 1`.
pub fn fermat_test(p: &BigNum, witness: &BigNum) -> (r: bool)
    requires
        p@ >= 1,
        witness@ >= 0,
    ensures
        r == (pow(witness@, (p@ - 1) as nat) % p@ == 1),
{
    let one = BigNum::from_u64(1);
    let e = p.minus(&one);
    let rem = mod_pow(witness, &e, p);
    rem.equals(&one)
}

/// One round of Miller–Rabin for `p`, given `q` and `k` with `p - 1 = q * 2^k` and a witness `w`.
pub fn miller_rabin_test(p: &BigNum, q: &BigNum, k: &BigNum, w: &BigNum) -> (r: bool)
    requires
        p@ > 0,
        q@ >= 0,
        w@ >= 0,
    ensures
        r == miller_rabin(p@, q@, k@, w@),
{
    let zero = BigNum::from_u64(0);
    let one = BigNum::from_u64(1);
    let pm1 = p.minus(&one);
    let mut x = mod_pow(w, q, p);
    if x.equals(&one) || x.equals(&pm1) {
        return true;
    }
    let mut i = k.minus(&one);
    while zero.less_than(&i)
        invariant
            zero@ == 0,
            one@ == 1,
            pm1@ == p@ - 1,
            p@ > 0,
            0 <= x@ < p@,
            miller_rabin(p@, q@, k@, w@) == squares_reach_minus_one(x@, p@, i@),
        decreases i@,
    {
        assert(x@ * x@ >= 0) by (nonlinear_arith)
            requires
                x@ >= 0,
        ;
        x = x.times(&x).remainder(p);
        if x.equals(&pm1) {
            return true;
        }
        if x.equals(&one) {
            return false;
        }
        i = i.minus(&one);
    }
    false
}

/// The primality decision for `p` with a given witness `w`.
pub fn primality_test_with_witness(p: &BigNum, w: &BigNum) -> (r: bool)
    requires
        w@ >= 0,
    ensures
        r == passes_miller_rabin(p@, w@),
{
    let zero = BigNum::from_u64(0);
    let one = BigNum::from_u64(1);
    let two = BigNum::from_u64(2);
    if p.less_than(&two) {
        return false;
    }
    let mut q = p.minus(&one);
    let mut k = BigNum::from_u64(0);
    while !q.is_odd()
        invariant
            zero@ == 0,
            one@ == 1,
            q@ > 0,
            k@ >= 0,
            odd_split(p@ - 1) == (odd_split(q@).0, odd_split(q@).1 + k@),
        decreases q@,
    {
        q = q.half();
        k = k.plus(&one);
    }
    miller_rabin_test(p, &q, &k, w)
}

/// The primality decision for `p`: one round of Miller–Rabin with a witness drawn at random
/// below `2^bits(p)`. Values below two are rejected without a draw.
pub fn primality_test(p: &BigNum) -> (r: bool)
    ensures
        exists|w: int| 0 <= w && r == #[trigger] passes_miller_rabin(p@, w),
        p@ < 2 ==> !r,
{
    let two = BigNum::from_u64(2);
    if p.less_than(&two) {
        assert(!passes_miller_rabin(p@, 0));
        return false;
    }
    let w = BigNum::random_below_pow2(p.bit_length());
    let r = primality_test_with_witness(p, &w);
    assert(0 <= w@ && r == passes_miller_rabin(p@, w@));
    r
}

/// A random probable prime: a candidate drawn below `2^bits` and stepped up by one until
/// the primality decision accepts it. `None` only if 2^64 - 1 candidates in a row were
/// rejected.
pub fn random_prime(bits: usize) -> (r: Option<BigNum>)
    ensures
        r matches Some(p) ==> exists|w: int| 0 <= w && #[trigger] passes_miller_rabin(p@, w),
{
    let one = BigNum::from_u64(1);
    let mut p = BigNum::random_below_pow2(bits as u64);
    let mut tries: u64 = 0;
    while tries < u64::MAX
        invariant
            one@ == 1,
        decreases u64::MAX - tries,
    {
        let accepted = primality_test(&p);
        if accepted {
            proof {
                let w = choose|w: int| 0 <= w && accepted == #[trigger] passes_miller_rabin(p@, w);
                assert(0 <= w && passes_miller_rabin(p@, w));
                assert(exists|w: int| 0 <= w && #[trigger] passes_miller_rabin(p@, w));
            }
            let res = Some(p);
            assert(res matches Some(x) && x@ == p@);
            return res;
        }
        p = p.plus(&one);
        tries = tries + 1;
    }
    None
}

} // verus!
