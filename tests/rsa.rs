use rsa_toolkit::arith::{
    extended_gcd, gcd, mod_pow, multiplicative_inverse, multiplicative_inverse_fermat,
};
use rsa_toolkit::bignum::BigNum;
use rsa_toolkit::prime::{
    fermat_test, miller_rabin_test, primality_test, primality_test_with_witness, random_prime,
};
use rsa_toolkit::rsa::{
    blocks_fit, modulus_fits_block, random_coprime, rsa_decode, rsa_decode_message, rsa_encode,
    rsa_encode_message, rsa_keygen,
};
use rsa_toolkit::rsa_key::RSAKey;

fn big(v: u64) -> BigNum {
    BigNum::from_u64(v)
}

#[test]
fn test_multiplicative_inverse_fermat() {
    let a = big(3);
    let p = big(11);
    assert_eq!(multiplicative_inverse_fermat(&a, &p), big(4));
}

#[test]
fn test_fermat_test() {
    let p = big(11);
    let witness = big(2);
    assert_eq!(fermat_test(&p, &witness), true);
}

#[test]
fn test_rabin_miller_test() {
    let p = big(11);
    let q = big(5);
    let k = big(2);
    let w = big(2);
    assert_eq!(miller_rabin_test(&p, &q, &k, &w), true);
}

#[test]
fn test_rabin_miller_test_false() {
    let p = big(2793);
    let q = big(349);
    let k = big(2);
    let w = big(150);
    assert_eq!(miller_rabin_test(&p, &q, &k, &w), false);
}

#[test]
fn test_random_prime() {
    let p = random_prime(512).unwrap();
    println!("Random prime: {}", p.to_decimal());
    assert_eq!(primality_test(&p), true);
}

#[test]
fn test_extended_gcd() {
    let a = big(240);
    let b = big(46);
    let (x, g) = extended_gcd(&a, &b);
    assert_eq!(x, BigNum::from_i64(-9));
    assert_eq!(g, big(2));
}

#[test]
fn test_multiplicative_inverse() {
    let a = big(3);
    let n = big(10);
    assert_eq!(multiplicative_inverse(&a, &n), Some(big(7)));
}

#[test]
fn test_rsa_keygen() {
    let (n, pubkey, prvkey) = rsa_keygen(16).unwrap();
    println!("n: {}", n.to_decimal());
    println!("pubkey: {}", pubkey.to_decimal());
    println!("prvkey: {}", prvkey.to_decimal());
}

#[test]
fn test_rsa_encode_decode() {
    let m = big(1234567890);
    let (n, pubkey, prvkey) = rsa_keygen(64).unwrap();
    println!("n: {}", n.to_decimal());
    println!("pubkey: {}", pubkey.to_decimal());
    println!("prvkey: {}", prvkey.to_decimal());

    let c = rsa_encode(&m, &pubkey, &n);
    let m2 = rsa_decode(&c, &prvkey, &n);
    assert_eq!(m, m2);
}

#[test]
fn test_rsa_message_encode_decode() {
    let msg = "Hello, World!";
    let (n, pubkey, prvkey) = rsa_keygen(64).unwrap();
    println!("n: {}", n.to_decimal());
    println!("pubkey: {}", pubkey.to_decimal());
    println!("prvkey: {}", prvkey.to_decimal());

    let enc = rsa_encode_message(msg, &pubkey, &n);

    println!("Encrypted message: {:?}", enc);
    let dec = rsa_decode_message(&enc, &prvkey, &n);
    assert_eq!(Some(msg.to_string()), dec);
}

#[test]
fn fermat_holds_for_small_odd_primes() {
    for p in [3u64, 5, 7, 11, 13, 101, 7919] {
        for w in 1..(p - 1).min(60) {
            assert!(fermat_test(&big(p), &big(w)), "p = {}, w = {}", p, w);
        }
    }
}

#[test]
fn fermat_liar_and_fermat_witness() {
    // 341 = 11 * 31 passes to base 2 but not to base 3.
    assert!(fermat_test(&big(341), &big(2)));
    assert!(!fermat_test(&big(341), &big(3)));
}

#[test]
fn mod_pow_exact_values() {
    assert_eq!(mod_pow(&big(4), &big(13), &big(497)), big(445));
    assert_eq!(mod_pow(&big(5), &big(0), &big(7)), big(1));
    assert_eq!(mod_pow(&big(5), &big(0), &big(1)), big(0));
    assert_eq!(mod_pow(&big(12), &big(1), &big(7)), big(5));
    assert_eq!(mod_pow(&big(0), &big(5), &big(7)), big(0));
}

#[test]
fn gcd_exact_values() {
    assert_eq!(gcd(&big(240), &big(46)), big(2));
    assert_eq!(gcd(&big(0), &big(5)), big(5));
    assert_eq!(gcd(&big(7), &big(0)), big(7));
    assert_eq!(gcd(&big(17), &big(5)), big(1));
}

#[test]
fn extended_gcd_with_zero() {
    let (x, g) = extended_gcd(&big(9), &big(0));
    assert_eq!(x, big(1));
    assert_eq!(g, big(9));
}

#[test]
fn inverse_missing_when_not_coprime() {
    assert_eq!(multiplicative_inverse(&big(4), &big(10)), None);
}

#[test]
fn inverse_of_negative_coefficient_is_normalized() {
    // extended_gcd(7, 40) gives the coefficient -17; its residue is 23.
    let (x, _) = extended_gcd(&big(7), &big(40));
    assert_eq!(x, BigNum::from_i64(-17));
    assert_eq!(multiplicative_inverse(&big(7), &big(40)), Some(big(23)));
}

#[test]
fn miller_rabin_with_fixed_witness() {
    assert!(primality_test_with_witness(&big(11), &big(2)));
    assert!(primality_test_with_witness(&big(7919), &big(3)));
    assert!(!primality_test_with_witness(&big(9), &big(2)));
    assert!(!primality_test_with_witness(&big(1), &big(2)));
    assert!(!primality_test_with_witness(&big(0), &big(2)));
    // 2047 = 23 * 89 is a strong pseudoprime to base 2 and is caught by base 3.
    assert!(primality_test_with_witness(&big(2047), &big(2)));
    assert!(!primality_test_with_witness(&big(2047), &big(3)));
}

#[test]
fn primality_rejects_values_below_two() {
    assert!(!primality_test(&big(0)));
    assert!(!primality_test(&big(1)));
}

#[test]
fn random_prime_small_bits() {
    let p = random_prime(8).unwrap();
    let v: u64 = p.to_decimal().parse().unwrap();
    assert!(v >= 2);
}

#[test]
fn random_coprime_is_coprime_and_below() {
    for _ in 0..20 {
        let phi = big(60);
        let e = random_coprime(&phi);
        assert_eq!(gcd(&e, &phi), big(1));
        let e_dec: u64 = e.to_decimal().parse().unwrap();
        assert!(e_dec < 60);
    }
    assert_eq!(random_coprime(&big(1)), big(0));
}

#[test]
fn encode_is_deterministic() {
    let n = big(3233);
    let e = big(17);
    let c1 = rsa_encode(&big(65), &e, &n);
    let c2 = rsa_encode(&big(65), &e, &n);
    assert_eq!(c1, c2);
    assert_eq!(c1, big(2790));
    assert_eq!(rsa_decode(&c1, &big(2753), &n), big(65));
}

#[test]
fn encode_message_blocks() {
    // With e = 1 the blocks carry the plaintext values themselves.
    let n = BigNum::from_u64(u64::MAX);
    let enc = rsa_encode_message("AB", &big(1), &n);
    let mut expected = vec![0u8; 14];
    expected.extend_from_slice(&[0x41, 0x42]);
    assert_eq!(enc, expected);
    assert_eq!(rsa_encode_message("", &big(1), &n), Vec::<u8>::new());
    assert_eq!(rsa_encode_message("abcdefghi", &big(3), &n).len(), 32);
}

#[test]
fn message_round_trip_with_fixed_key() {
    let n = big(4_294_967_291 * 4_294_967_279);
    let e = big(65537);
    let phi = big(4_294_967_290 * 4_294_967_278);
    let d = multiplicative_inverse(&e, &phi).unwrap();
    let msg = "The quick brown fox jumps over the lazy dog";
    let enc = rsa_encode_message(msg, &e, &n);
    assert_eq!(enc.len(), 16 * 6);
    assert_eq!(rsa_decode_message(&enc, &d, &n), Some(msg.to_string()));
}

#[test]
fn decode_message_rejects_invalid_utf8() {
    let mut block = vec![0u8; 15];
    block.push(0xFF);
    assert_eq!(rsa_decode_message(&block, &big(1), &big(1000)), None);
    assert_eq!(rsa_decode_message(&Vec::new(), &big(1), &big(1000)), Some(String::new()));
}

#[test]
fn key_record_reads_back() {
    let key = RSAKey::new(big(3233), big(17));
    assert_eq!(key.n_str().as_str(), "3233");
    assert_eq!(key.key_str().as_str(), "17");
    assert_eq!(key.n(), Some(big(3233)));
    assert_eq!(key.key(), Some(big(17)));
    let neg = RSAKey::new(BigNum::from_i64(-42), big(0));
    assert_eq!(neg.n_str().as_str(), "-42");
    assert_eq!(neg.n(), Some(BigNum::from_i64(-42)));
    let bad = RSAKey::from_text("12x".to_string(), "7".to_string());
    assert_eq!(bad.n(), None);
    assert_eq!(bad.key(), Some(big(7)));
}

#[test]
fn codec_preconditions_are_checked() {
    let bytes = b"Hello, World!".to_vec();
    assert!(blocks_fit(&bytes, 8, &BigNum::from_u64(u64::MAX)));
    assert!(!blocks_fit(&bytes, 8, &big(1000)));
    assert!(blocks_fit(&Vec::new(), 16, &big(0)));
    let two_64 = BigNum::from_u64(u64::MAX);
    assert!(modulus_fits_block(&two_64));
    let key = RSAKey::from_text("340282366920938463463374607431768211456".to_string(), "1".to_string());
    assert!(modulus_fits_block(&key.n().unwrap()));
    let over = RSAKey::from_text("340282366920938463463374607431768211457".to_string(), "1".to_string());
    assert!(!modulus_fits_block(&over.n().unwrap()));
    assert!(BigNum::from_i64(-1).is_negative());
    assert!(!big(0).is_negative());
}
