use crate::arith::{bezout_x, gcd, gcd_spec, mod_pow, multiplicative_inverse};
use crate::bignum::{be_bytes, be_value, BigNum};
use crate::fermat::{is_prime, lemma_distinct_primes_divide, lemma_fermat_exponent};
use crate::prime::{passes_miller_rabin, random_prime};
use vstd::arithmetic::power::pow;
use vstd::prelude::*;
use vstd::string::{StrSliceExecFns, StringExecFns};
use vstd::utf8::{
    decode_utf8, encode_utf8, encode_utf8_decode_utf8, encode_utf8_valid_utf8, is_ascii_chars,
    is_ascii_chars_encode_utf8, valid_utf8,
};

verus! {

/// Plaintext bytes per block.
pub const PLAIN_BLOCK: usize = 8;

/// Ciphertext bytes per block.
pub const CIPHER_BLOCK: usize = 16;

/// `p` passes the primality decision with some witness.
pub open spec fn probable_prime(p: int) -> bool {
    exists|w: int| 0 <= w && #[trigger] passes_miller_rabin(p, w)
}

/// `(n, e, d)` is the key triple built from `p` and `q`: `n = p * q`, `e` is coprime to
/// `phi = (p - 1)(q - 1)` and below it, and `d` is the reduced inverse of `e` modulo `phi`.
pub open spec fn key_from_primes(n: int, e: int, d: int, p: int, q: int) -> bool {
    let phi = (p - 1) * (q - 1);
    &&& n == p * q
    &&& phi > 0
    &&& 0 <= e < phi
    &&& gcd_spec(e as nat, phi as nat) == 1
    &&& d == bezout_x(e as nat, phi as nat) % phi
    &&& 0 <= d < phi
    &&& (e * d) % phi == 1int % phi
}

/// The raw RSA transform: `m^e mod n`.
pub open spec fn rsa_spec(m: int, e: int, n: int) -> int {
    pow(m, e as nat) % n
}

/// Length of the first block of `len` remaining bytes, for blocks of `size`.
pub open spec fn block_len(len: nat, size: nat) -> nat {
    if len < size {
        len
    } else {
        size
    }
}

/// Every block of `b`, cut in `size` bytes from the front, reads (big-endian) below `n`.
pub open spec fn blocks_below(b: Seq<u8>, size: nat, n: int) -> bool
    decreases b.len(),
{
    if b.len() == 0 || size == 0 {
        true
    } else {
        let t = block_len(b.len(), size) as int;
        be_value(b.subrange(0, t)) < n && blocks_below(b.subrange(t, b.len() as int), size, n)
    }
}

/// `s` preceded by zero bytes up to sixteen bytes.
pub open spec fn pad_block(s: Seq<u8>) -> Seq<u8> {
    Seq::new((16 - s.len()) as nat, |i: int| 0u8) + s
}

/// The ciphertext of plaintext bytes `b`: each 8-byte block (the last may be shorter)
/// transformed with `(e, n)` and written as sixteen big-endian bytes.
pub open spec fn encode_blocks(b: Seq<u8>, e: int, n: int) -> Seq<u8>
    decreases b.len(),
{
    if b.len() == 0 {
        seq![]
    } else {
        let t = block_len(b.len(), 8) as int;
        pad_block(be_bytes(rsa_spec(be_value(b.subrange(0, t)) as int, e, n) as nat))
            + encode_blocks(b.subrange(t, b.len() as int), e, n)
    }
}

/// `p` put in front of the text in `o`, if there is one.
pub open spec fn prepend_text(p: Seq<char>, o: Option<Seq<char>>) -> Option<Seq<char>> {
    match o {
        Some(t) => Some(p + t),
        None => None,
    }
}

/// The plaintext of ciphertext bytes `b`: each 16-byte block (the last may be shorter)
/// transformed with `(d, n)`, its shortest big-endian bytes read as UTF-8, the texts joined.
/// `None` when some block's bytes are not valid UTF-8.
pub open spec fn decode_blocks(b: Seq<u8>, d: int, n: int) -> Option<Seq<char>>
    decreases b.len(),
{
    if b.len() == 0 {
        Some(seq![])
    } else {
        let t = block_len(b.len(), 16) as int;
        let plain = be_bytes(rsa_spec(be_value(b.subrange(0, t)) as int, d, n) as nat);
        if valid_utf8(plain) {
            prepend_text(decode_utf8(plain), decode_blocks(b.subrange(t, b.len() as int), d, n))
        } else {
            None
        }
    }
}

proof fn lemma_be_bytes_len(v: nat, k: nat)
    requires
        k >= 1,
        v < pow(256, k),
    ensures
        be_bytes(v).len() <= k,
    decreases v,
{
    if v >= 256 {
        let k1 = (k - 1) as nat;
        reveal_with_fuel(pow, 2);
        assert(pow(256, k) == 256 * pow(256, k1));
        if k == 1 {
            assert(pow(256, 0) == 1);
            assert(false);
        }
        assert(v / 256 < pow(256, k1)) by (nonlinear_arith)
            requires
                v < 256 * pow(256, k1),
                v >= 256,
        ;
        lemma_be_bytes_len(v / 256, k1);
    }
}

proof fn lemma_prepend_twice(a: Seq<char>, b: Seq<char>, o: Option<Seq<char>>)
    ensures
        prepend_text(a, prepend_text(b, o)) == prepend_text(a + b, o),
{
    if let Some(t) = o {
        assert(a + (b + t) =~= (a + b) + t);
    }
}

/// The bytes of `b` from `from` up to `to`.
fn sub_bytes(b: &Vec<u8>, from: usize, to: usize) -> (r: Vec<u8>)
    requires
        from <= to <= b.len(),
    ensures
        r@ == b@.subrange(from as int, to as int),
{
    let mut r: Vec<u8> = Vec::new();
    let mut i: usize = from;
    while i < to
        invariant
            from <= i <= to <= b.len(),
            r@ == b@.subrange(from as int, i as int),
        decreases to - i,
    {
        r.push(b[i]);
        i = i + 1;
    }
    r
}

/// Relies on `String::from_utf8`: `Ok` exactly for valid UTF-8, holding the decoded text.
#[verifier::external_body]
fn utf8_text(b: Vec<u8>) -> (r: Option<String>)
    ensures
        r is Some <==> valid_utf8(b@),
        r matches Some(s) ==> s@ == decode_utf8(b@),
{
    String::from_utf8(b).ok()
}

/// A public exponent for the totient `phi`: a random draw reduced modulo `phi`, stepped up
/// by one until it is coprime to `phi`. It stays below `phi`, since `phi - 1` is coprime to `phi`.
pub fn random_coprime(phi: &BigNum) -> (r: BigNum)
    requires
        phi@ > 0,
    ensures
        0 <= r@ < phi@,
        gcd_spec(r@ as nat, phi@ as nat) == 1,
{
    let one = BigNum::from_u64(1);
    let draw = BigNum::random_below_pow2(phi.bit_length());
    let mut e = draw.remainder(phi);
    proof {
        lemma_coprime_predecessor(phi@ as nat);
    }
    while !gcd(&e, phi).equals(&one)
        invariant
            one@ == 1,
            phi@ > 0,
            0 <= e@ < phi@,
            gcd_spec((phi@ - 1) as nat, phi@ as nat) == 1,
        decreases phi@ - e@,
    {
        e = e.plus(&one);
    }
    e
}

proof fn lemma_coprime_predecessor(n: nat)
    requires
        n >= 1,
    ensures
        gcd_spec((n - 1) as nat, n) == 1,
{
    let m = (n - 1) as nat;
    assert(m % n == m) by {
        vstd::arithmetic::div_mod::lemma_small_mod(m, n);
    }
    assert(gcd_spec(m, n) == gcd_spec(n, m));
    if m == 0 {
        assert(gcd_spec(1, 0) == 1);
    } else if m == 1 {
        assert(n % m == 0);
        assert(gcd_spec(m, 0) == 1);
    } else {
        assert(n % m == 1) by {
            vstd::arithmetic::div_mod::lemma_fundamental_div_mod_converse(n as int, m as int, 1, 1);
        }
        assert(gcd_spec(m, 1) == gcd_spec(1, m % 1));
        assert(gcd_spec(1, 0) == 1);
    }
}

/// A key triple `(n, e, d)` from two random probable primes of `bits` bits.
/// `None` only when a prime search gives up.
pub fn rsa_keygen(bits: usize) -> (r: Option<(BigNum, BigNum, BigNum)>)
    ensures
        r matches Some(k) ==> exists|p: int, q: int|
            probable_prime(p) && probable_prime(q) && #[trigger] key_from_primes(k.0@, k.1@, k.2@, p, q),
{
    let one = BigNum::from_u64(1);
    let p1 = match random_prime(bits) {
        Some(p) => p,
        None => return None,
    };
    let p2 = match random_prime(bits) {
        Some(p) => p,
        None => return None,
    };
    let n = p1.times(&p2);
    let phi = p1.minus(&one).times(&p2.minus(&one));
    proof {
        assert(phi@ > 0) by (nonlinear_arith)
            requires
                p1@ >= 2,
                p2@ >= 2,
                phi@ == (p1@ - 1) * (p2@ - 1),
        ;
    }
    let pubkey = random_coprime(&phi);
    let inv = multiplicative_inverse(&pubkey, &phi);
    let prvkey = inv.unwrap();
    proof {
        assert(probable_prime(p1@));
        assert(probable_prime(p2@));
        assert(key_from_primes(n@, pubkey@, prvkey@, p1@, p2@));
        assert(exists|p: int, q: int|
            probable_prime(p) && probable_prime(q) && #[trigger] key_from_primes(n@, pubkey@, prvkey@, p, q));
    }
    let res = Some((n, pubkey, prvkey));
    assert(res matches Some(k) && k.0@ == n@ && k.1@ == pubkey@ && k.2@ == prvkey@);
    res
}

/// Encrypts the integer `m` with the public exponent: `m^e mod n`.
pub fn rsa_encode(m: &BigNum, pubkey: &BigNum, n: &BigNum) -> (r: BigNum)
    requires
        0 <= m@ < n@,
        pubkey@ >= 0,
    ensures
        r@ == rsa_spec(m@, pubkey@, n@),
{
    mod_pow(m, pubkey, n)
}

/// Decrypts the integer `c` with the private exponent: `c^d mod n`.
pub fn rsa_decode(c: &BigNum, prvkey: &BigNum, n: &BigNum) -> (r: BigNum)
    requires
        0 <= c@ < n@,
        prvkey@ >= 0,
    ensures
        r@ == rsa_spec(c@, prvkey@, n@),
{
    mod_pow(c, prvkey, n)
}

/// Encrypts the UTF-8 bytes of `message` block by block: each 8-byte block is read as a
/// big-endian integer, encrypted, and written as sixteen big-endian bytes.
pub fn rsa_encode_message(message: &str, pubkey: &BigNum, n: &BigNum) -> (r: Vec<u8>)
    requires
        pubkey@ >= 0,
        n@ <= pow(256, 16),
        blocks_below(encode_utf8(message@), 8, n@),
    ensures
        r@ == encode_blocks(encode_utf8(message@), pubkey@, n@),
{
    let bytes = message.as_bytes_vec();
    let len = bytes.len();
    let mut out: Vec<u8> = Vec::new();
    let mut i: usize = 0;
    assert(bytes@.subrange(0, len as int) =~= bytes@);
    assert(out@ + encode_blocks(bytes@, pubkey@, n@) =~= encode_blocks(bytes@, pubkey@, n@));
    while i < len
        invariant
            len == bytes@.len(),
            bytes@ == encode_utf8(message@),
            i <= len,
            pubkey@ >= 0,
            n@ <= pow(256, 16),
            blocks_below(bytes@.subrange(i as int, len as int), 8, n@),
            out@ + encode_blocks(bytes@.subrange(i as int, len as int), pubkey@, n@)
                == encode_blocks(bytes@, pubkey@, n@),
        decreases len - i,
    {
        let ghost rest = bytes@.subrange(i as int, len as int);
        let end = if len - i < PLAIN_BLOCK {
            len
        } else {
            i + PLAIN_BLOCK
        };
        let chunk = sub_bytes(&bytes, i, end);
        assert(chunk@ == rest.subrange(0, (end - i) as int));
        assert(bytes@.subrange(end as int, len as int) =~= rest.subrange(
            (end - i) as int,
            rest.len() as int,
        ));
        let m = BigNum::from_be_bytes(chunk.as_slice());
        let c = rsa_encode(&m, pubkey, n);
        let v = c.to_be_bytes();
        proof {
            lemma_be_bytes_len(c@ as nat, 16);
        }
        let vlen = v.len();
        let ghost before = out@;
        let mut j: usize = 0;
        while j < CIPHER_BLOCK - vlen
            invariant
                vlen <= CIPHER_BLOCK,
                j <= CIPHER_BLOCK - vlen,
                out@ == before + Seq::new(j as nat, |x: int| 0u8),
            decreases CIPHER_BLOCK - vlen - j,
        {
            out.push(0u8);
            j = j + 1;
            assert(out@ =~= before + Seq::new(j as nat, |x: int| 0u8));
        }
        let ghost zeros = Seq::new((16 - vlen) as nat, |x: int| 0u8);
        let mut k: usize = 0;
        while k < vlen
            invariant
                vlen == v@.len(),
                k <= vlen,
                out@ == before + zeros + v@.subrange(0, k as int),
            decreases vlen - k,
        {
            out.push(v[k]);
            k = k + 1;
            assert(out@ =~= before + zeros + v@.subrange(0, k as int));
        }
        proof {
            assert(v@.subrange(0, vlen as int) =~= v@);
            assert(zeros + v@ == pad_block(v@));
            let tail = encode_blocks(bytes@.subrange(end as int, len as int), pubkey@, n@);
            assert(before + pad_block(v@) + tail =~= before + (pad_block(v@) + tail));
        }
        i = end;
    }
    proof {
        assert(encode_blocks(bytes@.subrange(len as int, len as int), pubkey@, n@) == Seq::<u8>::empty());
        assert(out@ + Seq::<u8>::empty() =~= out@);
    }
    out
}

/// Decrypts `message` block by block: each 16-byte block is read as a big-endian integer,
/// decrypted, and its shortest big-endian bytes read as UTF-8; the texts are joined in order.
/// `None` exactly when some block's plaintext bytes are not valid UTF-8.
pub fn rsa_decode_message(message: &Vec<u8>, prvkey: &BigNum, n: &BigNum) -> (r: Option<String>)
    requires
        prvkey@ >= 0,
        blocks_below(message@, 16, n@),
    ensures
        r is Some <==> decode_blocks(message@, prvkey@, n@) is Some,
        r matches Some(s) ==> decode_blocks(message@, prvkey@, n@) == Some(s@),
{
    let len = message.len();
    let mut out = String::new();
    let mut i: usize = 0;
    assert(message@.subrange(0, len as int) =~= message@);
    proof {
        lemma_prepend_empty(decode_blocks(message@, prvkey@, n@));
    }
    while i < len
        invariant
            len == message@.len(),
            i <= len,
            prvkey@ >= 0,
            blocks_below(message@.subrange(i as int, len as int), 16, n@),
            decode_blocks(message@, prvkey@, n@) == prepend_text(
                out@,
                decode_blocks(message@.subrange(i as int, len as int), prvkey@, n@),
            ),
        decreases len - i,
    {
        let ghost rest = message@.subrange(i as int, len as int);
        let end = if len - i < CIPHER_BLOCK {
            len
        } else {
            i + CIPHER_BLOCK
        };
        let chunk = sub_bytes(message, i, end);
        assert(chunk@ == rest.subrange(0, (end - i) as int));
        assert(message@.subrange(end as int, len as int) =~= rest.subrange(
            (end - i) as int,
            rest.len() as int,
        ));
        let c = BigNum::from_be_bytes(chunk.as_slice());
        let m = rsa_decode(&c, prvkey, n);
        proof {
            vstd::arithmetic::div_mod::lemma_mod_bound(pow(c@, prvkey@ as nat), n@);
        }
        let plain = m.to_be_bytes();
        let piece = utf8_text(plain);
        match piece {
            None => {
                return None;
            },
            Some(text) => {
                proof {
                    lemma_prepend_twice(
                        out@,
                        text@,
                        decode_blocks(message@.subrange(end as int, len as int), prvkey@, n@),
                    );
                }
                out.append(text.as_str());
            },
        }
        i = end;
    }
    proof {
        assert(decode_blocks(message@.subrange(len as int, len as int), prvkey@, n@) == Some(
            Seq::<char>::empty(),
        ));
        assert(out@ + Seq::<char>::empty() =~= out@);
    }
    Some(out)
}

proof fn lemma_prepend_empty(o: Option<Seq<char>>)
    ensures
        prepend_text(Seq::empty(), o) == o,
{
    if let Some(t) = o {
        assert(Seq::<char>::empty() + t =~= t);
    }
}

/// Whether every `size`-byte block of `bytes` (the last may be shorter), read big-endian,
/// is below `n`: the condition that the codec places on its input.
pub fn blocks_fit(bytes: &Vec<u8>, size: usize, n: &BigNum) -> (r: bool)
    requires
        size > 0,
    ensures
        r == blocks_below(bytes@, size as nat, n@),
{
    let len = bytes.len();
    let mut i: usize = 0;
    assert(bytes@.subrange(0, len as int) =~= bytes@);
    while i < len
        invariant
            len == bytes@.len(),
            i <= len,
            size > 0,
            blocks_below(bytes@, size as nat, n@) == blocks_below(
                bytes@.subrange(i as int, len as int),
                size as nat,
                n@,
            ),
        decreases len - i,
    {
        let ghost rest = bytes@.subrange(i as int, len as int);
        let end = if len - i < size {
            len
        } else {
            i + size
        };
        let chunk = sub_bytes(bytes, i, end);
        assert(chunk@ == rest.subrange(0, (end - i) as int));
        assert(bytes@.subrange(end as int, len as int) =~= rest.subrange(
            (end - i) as int,
            rest.len() as int,
        ));
        let v = BigNum::from_be_bytes(chunk.as_slice());
        if !v.less_than(n) {
            return false;
        }
        i = end;
    }
    true
}

/// Whether `n` is at most `2^128`, so that every residue modulo `n` fits a ciphertext block.
pub fn modulus_fits_block(n: &BigNum) -> (r: bool)
    ensures
        r == (n@ <= pow(256, 16)),
{
    let half = BigNum::from_u64(u64::MAX).plus(&BigNum::from_u64(1));
    let bound = half.times(&half);
    proof {
        reveal_with_fuel(pow, 17);
        assert(pow(256, 16) == 340282366920938463463374607431768211456);
        assert(half@ == 18446744073709551616);
        assert(bound@ == 340282366920938463463374607431768211456) by (nonlinear_arith)
            requires
                half@ == 18446744073709551616,
                bound@ == half@ * half@,
        ;
    }
    !bound.less_than(n)
}

/// Encryption is deterministic: two encryptions of the same integer under the same key,
/// or of the same text under the same key, give the same ciphertext.
pub proof fn lemma_encode_deterministic(
    m: int,
    e: int,
    n: int,
    c1: int,
    c2: int,
    text: Seq<char>,
    b1: Seq<u8>,
    b2: Seq<u8>,
)
    requires
        c1 == rsa_spec(m, e, n),
        c2 == rsa_spec(m, e, n),
        b1 == encode_blocks(encode_utf8(text), e, n),
        b2 == encode_blocks(encode_utf8(text), e, n),
    ensures
        c1 == c2,
        b1 == b2,
{
}

proof fn lemma_be_value_zeros(k: nat)
    ensures
        be_value(Seq::new(k, |i: int| 0u8)) == 0,
    decreases k,
{
    if k > 0 {
        assert(Seq::new(k, |i: int| 0u8).drop_last() =~= Seq::new((k - 1) as nat, |i: int| 0u8));
        lemma_be_value_zeros((k - 1) as nat);
    }
}

proof fn lemma_be_value_leading_zeros(k: nat, s: Seq<u8>)
    ensures
        be_value(Seq::new(k, |i: int| 0u8) + s) == be_value(s),
    decreases s.len(),
{
    let z = Seq::new(k, |i: int| 0u8);
    if s.len() == 0 {
        assert(z + s =~= z);
        lemma_be_value_zeros(k);
    } else {
        assert((z + s).drop_last() =~= z + s.drop_last());
        lemma_be_value_leading_zeros(k, s.drop_last());
    }
}

proof fn lemma_be_value_of_be_bytes(v: nat)
    ensures
        be_value(be_bytes(v)) == v,
    decreases v,
{
    if v < 256 {
        let s = seq![v as u8];
        assert(s.drop_last() =~= Seq::<u8>::empty());
        assert(s.last() as nat == v);
        assert(be_value(s) == be_value(s.drop_last()) * 256 + s.last());
    } else {
        lemma_be_value_of_be_bytes(v / 256);
        let s = be_bytes(v / 256).push((v % 256) as u8);
        assert(s.drop_last() =~= be_bytes(v / 256));
        assert(s.last() as nat == v % 256);
        assert(be_value(s) == be_value(s.drop_last()) * 256 + s.last());
        vstd::arithmetic::div_mod::lemma_fundamental_div_mod(v as int, 256);
    }
}

proof fn lemma_be_value_positive(s: Seq<u8>)
    requires
        s.len() >= 1,
        s[0] != 0,
    ensures
        be_value(s) >= 1,
        s.len() >= 2 ==> be_value(s) >= 256,
    decreases s.len(),
{
    if s.len() >= 2 {
        lemma_be_value_positive(s.drop_last());
    } else {
        assert(s.drop_last() =~= Seq::<u8>::empty());
    }
}

proof fn lemma_be_bytes_of_be_value(s: Seq<u8>)
    requires
        s.len() >= 1,
        s[0] != 0,
    ensures
        be_bytes(be_value(s)) == s,
    decreases s.len(),
{
    let v = be_value(s);
    if s.len() == 1 {
        assert(s.drop_last() =~= Seq::<u8>::empty());
        assert(be_value(s) == be_value(s.drop_last()) * 256 + s.last());
        assert(v == s[0]);
        assert(be_bytes(v) =~= s);
    } else {
        let t = s.drop_last();
        lemma_be_value_positive(s);
        lemma_be_bytes_of_be_value(t);
        vstd::arithmetic::div_mod::lemma_fundamental_div_mod_converse(
            v as int,
            256,
            be_value(t) as int,
            s.last() as int,
        );
        assert(be_bytes(v) =~= t.push(s.last()));
        assert(t.push(s.last()) =~= s);
    }
}

proof fn lemma_ascii_bytes(text: Seq<char>, a: int, b: int)
    requires
        is_ascii_chars(text),
        0 <= a <= b <= text.len(),
    ensures
        encode_utf8(text).subrange(a, b) == encode_utf8(text.subrange(a, b)),
        encode_utf8(text).len() == text.len(),
{
    let sub = text.subrange(a, b);
    assert(is_ascii_chars(sub));
    is_ascii_chars_encode_utf8(text);
    is_ascii_chars_encode_utf8(sub);
    assert(encode_utf8(text).subrange(a, b) =~= encode_utf8(sub));
}

/// The block codec inverts itself whenever the transform does. For text of ASCII characters
/// other than NUL whose blocks lie below `n <= 2^128`, and exponents under which decryption
/// undoes encryption for every integer below `n`, decoding the encoded text gives the text back.
pub proof fn lemma_codec_round_trip(text: Seq<char>, e: int, d: int, n: int)
    requires
        is_ascii_chars(text),
        forall|i: int| 0 <= i < text.len() ==> #[trigger] text[i] != '\0',
        n <= pow(256, 16),
        blocks_below(encode_utf8(text), 8, n),
        forall|m: int| 0 <= m < n ==> #[trigger] rsa_spec(rsa_spec(m, e, n), d, n) == m,
    ensures
        decode_blocks(encode_blocks(encode_utf8(text), e, n), d, n) == Some(text),
    decreases text.len(),
{
    let bytes = encode_utf8(text);
    lemma_ascii_bytes(text, 0, text.len() as int);
    if text.len() == 0 {
        assert(bytes.len() == 0);
    } else {
        let len = text.len() as int;
        let t = block_len(bytes.len(), 8) as int;
        let head = bytes.subrange(0, t);
        let rest_text = text.subrange(t, len);
        lemma_ascii_bytes(text, 0, t);
        lemma_ascii_bytes(text, t, len);
        let m = be_value(head) as int;
        assert(m < n);
        let c = rsa_spec(m, e, n);
        assert(n > 0);
        vstd::arithmetic::div_mod::lemma_mod_bound(pow(m, e as nat), n);
        let cb = be_bytes(c as nat);
        lemma_be_bytes_len(c as nat, 16);
        let block = pad_block(cb);
        let tail = encode_blocks(bytes.subrange(t, len), e, n);
        let enc = encode_blocks(bytes, e, n);
        assert(enc == block + tail);
        assert(block.len() == 16);
        assert(enc.subrange(0, 16) =~= block);
        assert(enc.subrange(16, enc.len() as int) =~= tail);
        lemma_be_value_leading_zeros((16 - cb.len()) as nat, cb);
        lemma_be_value_of_be_bytes(c as nat);
        assert(be_value(enc.subrange(0, 16)) == c);
        assert(rsa_spec(c, d, n) == m);
        is_ascii_chars_encode_utf8(text);
        assert(bytes[0] == text[0] as u8);
        assert(head[0] == text[0] as u8);
        assert(text[0] != '\0');
        assert(head[0] != 0);
        lemma_be_bytes_of_be_value(head);
        let head_text = text.subrange(0, t);
        encode_utf8_valid_utf8(head_text);
        encode_utf8_decode_utf8(head_text);
        assert(valid_utf8(head));
        assert(decode_utf8(head) == head_text);
        assert(is_ascii_chars(rest_text));
        assert forall|i: int| 0 <= i < rest_text.len() implies #[trigger] rest_text[i] != '\0' by {
            assert(rest_text[i] == text[i + t]);
        }
        lemma_codec_round_trip(rest_text, e, d, n);
        assert(head_text + rest_text =~= text);
    }
}

proof fn lemma_same_residue(x: int, m: int, p: int)
    requires
        p > 0,
        x % p == m % p,
    ensures
        (x - m) % p == 0,
{
    vstd::arithmetic::div_mod::lemma_fundamental_div_mod(x, p);
    vstd::arithmetic::div_mod::lemma_fundamental_div_mod(m, p);
    let c = x / p - m / p;
    assert(x - m == p * c) by (nonlinear_arith)
        requires
            x == p * (x / p) + x % p,
            m == p * (m / p) + m % p,
            x % p == m % p,
            c == x / p - m / p,
    ;
    vstd::arithmetic::div_mod::lemma_mod_multiples_vanish(c, 0, p);
}

/// RSA round trip: for a key triple built from two distinct primes, decrypting the
/// encryption of any integer `0 <= m < n` gives `m` back.
pub proof fn lemma_rsa_round_trip(n: int, e: int, d: int, p: int, q: int, m: int)
    requires
        is_prime(p),
        is_prime(q),
        p != q,
        key_from_primes(n, e, d, p, q),
        0 <= m < n,
    ensures
        rsa_spec(rsa_spec(m, e, n), d, n) == m,
{
    let phi = (p - 1) * (q - 1);
    assert(n > 0 && phi >= 2) by (nonlinear_arith)
        requires
            n == p * q,
            p >= 2,
            q >= 2,
            p != q,
            phi == (p - 1) * (q - 1),
    ;
    vstd::arithmetic::power::lemma_pow_mod_noop(pow(m, e as nat), d as nat, n);
    vstd::arithmetic::power::lemma_pow_multiplies(m, e as nat, d as nat);
    let ed = e * d;
    assert(ed >= 0) by (nonlinear_arith)
        requires
            e >= 0,
            d >= 0,
            ed == e * d,
    ;
    assert(ed % phi == 1) by {
        vstd::arithmetic::div_mod::lemma_small_mod(1, phi as nat);
    }
    vstd::arithmetic::div_mod::lemma_fundamental_div_mod(ed, phi);
    let k = ed / phi;
    assert(k >= 0) by {
        vstd::arithmetic::div_mod::lemma_div_pos_is_pos(ed, phi);
    }
    let tp = (k * (q - 1)) as nat;
    let tq = (k * (p - 1)) as nat;
    assert(ed == 1 + tp * (p - 1) && ed == 1 + tq * (q - 1)) by (nonlinear_arith)
        requires
            ed == phi * k + 1,
            phi == (p - 1) * (q - 1),
            k >= 0,
            q >= 2,
            p >= 2,
            tp == k * (q - 1),
            tq == k * (p - 1),
    ;
    assert((e as nat) * (d as nat) == ed as nat);
    lemma_fermat_exponent(p, m, tp);
    lemma_fermat_exponent(q, m, tq);
    let x = pow(m, ed as nat);
    lemma_same_residue(x, m, p);
    lemma_same_residue(x, m, q);
    lemma_distinct_primes_divide(p, q, x - m);
    vstd::arithmetic::div_mod::lemma_fundamental_div_mod(x - m, n);
    let c = (x - m) / n;
    assert(x == n * c + m);
    vstd::arithmetic::div_mod::lemma_mod_multiples_vanish(c, m, n);
    vstd::arithmetic::div_mod::lemma_small_mod(m as nat, n as nat);
}

/// Message round trip: for a key triple built from two distinct primes with `n <= 2^128`,
/// and text of ASCII characters other than NUL whose 8-byte blocks lie below `n`, decoding
/// the encoded text gives the text back.
pub proof fn lemma_message_round_trip(text: Seq<char>, n: int, e: int, d: int, p: int, q: int)
    requires
        is_prime(p),
        is_prime(q),
        p != q,
        key_from_primes(n, e, d, p, q),
        n <= pow(256, 16),
        is_ascii_chars(text),
        forall|i: int| 0 <= i < text.len() ==> #[trigger] text[i] != '\0',
        blocks_below(encode_utf8(text), 8, n),
    ensures
        decode_blocks(encode_blocks(encode_utf8(text), e, n), d, n) == Some(text),
{
    assert forall|m: int| 0 <= m < n implies #[trigger] rsa_spec(rsa_spec(m, e, n), d, n) == m by {
        lemma_rsa_round_trip(n, e, d, p, q, m);
    }
    lemma_codec_round_trip(text, e, d, n);
}

} // verus!
