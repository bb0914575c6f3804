use crate::bignum::{decimal_of, BigNum};
use vstd::prelude::*;

verus! {

/// A persisted key: the modulus and one exponent, each kept as base-10 text.
#[derive(Debug)]
pub struct RSAKey {
    n: String,
    key: String,
}

impl RSAKey {
    /// The modulus as stored.
    pub closed spec fn n_text(&self) -> Seq<char> {
        self.n@
    }

    /// The exponent as stored.
    pub closed spec fn key_text(&self) -> Seq<char> {
        self.key@
    }

    /// A key holding the base-10 text of `n` and of `key`.
    pub fn new(n: BigNum, key: BigNum) -> (r: RSAKey)
        ensures
            r.n_text() == decimal_of(n@),
            r.key_text() == decimal_of(key@),
    {
        RSAKey { n: n.to_decimal(), key: key.to_decimal() }
    }

    /// A key from stored text, taken as it is.
    pub fn from_text(n: String, key: String) -> (r: RSAKey)
        ensures
            r.n_text() == n@,
            r.key_text() == key@,
    {
        RSAKey { n, key }
    }

    /// The stored text of the modulus.
    pub fn n_str(&self) -> (r: &String)
        ensures
            r@ == self.n_text(),
    {
        &self.n
    }

    /// The stored text of the exponent.
    pub fn key_str(&self) -> (r: &String)
        ensures
            r@ == self.key_text(),
    {
        &self.key
    }

    /// The modulus read back; text written by `new` reads back as the value it came from.
    pub fn n(&self) -> (r: Option<BigNum>)
        ensures
            forall|v: int| self.n_text() == #[trigger] decimal_of(v) ==> r.is_some() && r.unwrap()@ == v,
    {
        BigNum::parse_decimal(self.n.as_str())
    }

    /// The exponent read back; text written by `new` reads back as the value it came from.
    pub fn key(&self) -> (r: Option<BigNum>)
        ensures
            forall|v: int| self.key_text() == #[trigger] decimal_of(v) ==> r.is_some() && r.unwrap()@ == v,
    {
        BigNum::parse_decimal(self.key.as_str())
    }
}

} // verus!
