use num_bigint::RandBigInt;
use vstd::arithmetic::power::pow;
use vstd::prelude::*;

verus! {

/// Value of bytes read least significant first.
pub open spec fn le_value(s: Seq<u8>) -> nat
    decreases s.len(),
{
    if s.len() == 0 {
        0
    } else {
        (s[0] as nat + 256 * le_value(s.drop_first())) as nat
    }
}

/// Value of bytes in two's complement, least significant first; no bytes stand for zero.
pub open spec fn twos_value(s: Seq<u8>) -> int {
    if s.len() > 0 && s.last() >= 128 {
        le_value(s) - pow(256, s.len())
    } else {
        le_value(s) as int
    }
}

/// Value of bytes read most significant first.
pub open spec fn be_value(s: Seq<u8>) -> nat
    decreases s.len(),
{
    if s.len() == 0 {
        0
    } else {
        (be_value(s.drop_last()) * 256 + s.last()) as nat
    }
}

/// Shortest big-endian bytes of `v`: one byte for values below 256, no leading zero byte otherwise.
pub open spec fn be_bytes(v: nat) -> Seq<u8>
    decreases v,
{
    if v < 256 {
        seq![v as u8]
    } else {
        be_bytes(v / 256).push((v % 256) as u8)
    }
}

pub open spec fn digit_char(d: nat) -> char {
    seq!['0', '1', '2', '3', '4', '5', '6', '7', '8', '9'][d as int]
}

/// Decimal digits of `v`, without leading zeros.
pub open spec fn decimal_digits(v: nat) -> Seq<char>
    decreases v,
{
    if v < 10 {
        seq![digit_char(v)]
    } else {
        decimal_digits(v / 10).push(digit_char(v % 10))
    }
}

/// Base-10 text of `v`, with a leading `-` when it is negative.
pub open spec fn decimal_of(v: int) -> Seq<char> {
    if v < 0 {
        seq!['-'] + decimal_digits((-v) as nat)
    } else {
        decimal_digits(v as nat)
    }
}

/// An arbitrary-precision signed integer. Its value is kept as two's-complement bytes,
/// least significant first; the arithmetic itself is done by `num_bigint`.
#[derive(Debug)]
pub struct BigNum {
    bytes: Vec<u8>,
}

impl View for BigNum {
    type V = int;

    closed spec fn view(&self) -> int {
        twos_value(self.bytes@)
    }
}

impl BigNum {
    /// Relies on `BigInt::from(u64)` and `BigInt::to_signed_bytes_le`: the same value.
    #[verifier::external_body]
    fn make_u64(v: u64) -> (r: BigNum)
        ensures
            r@ == v,
    {
        BigNum { bytes: num_bigint::BigInt::from(v).to_signed_bytes_le() }
    }

    /// Relies on `BigInt::from(i64)` and `BigInt::to_signed_bytes_le`: the same value.
    #[verifier::external_body]
    fn make_i64(v: i64) -> (r: BigNum)
        ensures
            r@ == v,
    {
        BigNum { bytes: num_bigint::BigInt::from(v).to_signed_bytes_le() }
    }

    pub fn from_u64(v: u64) -> (r: BigNum)
        ensures
            r@ == v,
    {
        Self::make_u64(v)
    }

    pub fn from_i64(v: i64) -> (r: BigNum)
        ensures
            r@ == v,
    {
        Self::make_i64(v)
    }

    /// The value in base 10, with `-` before a negative value.
    pub fn to_decimal(&self) -> (r: String)
        ensures
            r@ == decimal_of(self@),
    {
        self.decimal_text()
    }

    /// Whether the value is below zero.
    pub fn is_negative(&self) -> (r: bool)
        ensures
            r == (self@ < 0),
    {
        self.less_than(&BigNum::from_u64(0))
    }

    /// A second value equal to this one.
    pub fn copy(&self) -> (r: BigNum)
        ensures
            r@ == self@,
    {
        let mut bytes: Vec<u8> = Vec::new();
        let mut i: usize = 0;
        while i < self.bytes.len()
            invariant
                i <= self.bytes.len(),
                bytes@ == self.bytes@.subrange(0, i as int),
            decreases self.bytes.len() - i,
        {
            bytes.push(self.bytes[i]);
            i = i + 1;
        }
        assert(bytes@ == self.bytes@);
        BigNum { bytes }
    }

    /// Relies on `Add` for `num_bigint::BigInt`.
    #[verifier::external_body]
    pub(crate) fn plus(&self, o: &BigNum) -> (r: BigNum)
        ensures
            r@ == self@ + o@,
    {
        let s = num_bigint::BigInt::from_signed_bytes_le(&self.bytes)
            + num_bigint::BigInt::from_signed_bytes_le(&o.bytes);
        BigNum { bytes: s.to_signed_bytes_le() }
    }

    /// Relies on `Sub` for `num_bigint::BigInt`.
    #[verifier::external_body]
    pub(crate) fn minus(&self, o: &BigNum) -> (r: BigNum)
        ensures
            r@ == self@ - o@,
    {
        let s = num_bigint::BigInt::from_signed_bytes_le(&self.bytes)
            - num_bigint::BigInt::from_signed_bytes_le(&o.bytes);
        BigNum { bytes: s.to_signed_bytes_le() }
    }

    /// Relies on `Mul` for `num_bigint::BigInt`.
    #[verifier::external_body]
    pub(crate) fn times(&self, o: &BigNum) -> (r: BigNum)
        ensures
            r@ == self@ * o@,
    {
        let s = num_bigint::BigInt::from_signed_bytes_le(&self.bytes)
            * num_bigint::BigInt::from_signed_bytes_le(&o.bytes);
        BigNum { bytes: s.to_signed_bytes_le() }
    }

    /// Relies on `Div` for `num_bigint::BigInt`, which truncates: on a non-negative
    /// dividend and a positive divisor that is the floor.
    #[verifier::external_body]
    pub(crate) fn quotient(&self, o: &BigNum) -> (r: BigNum)
        requires
            self@ >= 0,
            o@ > 0,
        ensures
            r@ == self@ / o@,
    {
        let s = num_bigint::BigInt::from_signed_bytes_le(&self.bytes)
            / num_bigint::BigInt::from_signed_bytes_le(&o.bytes);
        BigNum { bytes: s.to_signed_bytes_le() }
    }

    /// Relies on `Rem` for `num_bigint::BigInt`, which takes the dividend's sign: on a
    /// non-negative dividend and a positive divisor that is the usual residue.
    #[verifier::external_body]
    pub(crate) fn remainder(&self, o: &BigNum) -> (r: BigNum)
        requires
            self@ >= 0,
            o@ > 0,
        ensures
            r@ == self@ % o@,
    {
        let s = num_bigint::BigInt::from_signed_bytes_le(&self.bytes)
            % num_bigint::BigInt::from_signed_bytes_le(&o.bytes);
        BigNum { bytes: s.to_signed_bytes_le() }
    }

    /// Relies on `Shr` for `num_bigint::BigInt`: a shift by one halves, rounding down.
    #[verifier::external_body]
    pub(crate) fn half(&self) -> (r: BigNum)
        requires
            self@ >= 0,
        ensures
            r@ == self@ / 2,
    {
        let s = num_bigint::BigInt::from_signed_bytes_le(&self.bytes) >> 1u32;
        BigNum { bytes: s.to_signed_bytes_le() }
    }

    /// Relies on `BigInt::bit(0)`: the lowest bit of the two's complement.
    #[verifier::external_body]
    pub(crate) fn is_odd(&self) -> (r: bool)
        ensures
            r == (self@ % 2 == 1),
    {
        num_bigint::BigInt::from_signed_bytes_le(&self.bytes).bit(0)
    }

    /// Relies on `PartialOrd` for `num_bigint::BigInt`: numeric order.
    #[verifier::external_body]
    pub(crate) fn less_than(&self, o: &BigNum) -> (r: bool)
        ensures
            r == (self@ < o@),
    {
        num_bigint::BigInt::from_signed_bytes_le(&self.bytes)
            < num_bigint::BigInt::from_signed_bytes_le(&o.bytes)
    }

    /// Relies on `PartialEq` for `num_bigint::BigInt`: numeric equality.
    #[verifier::external_body]
    pub(crate) fn equals(&self, o: &BigNum) -> (r: bool)
        ensures
            r == (self@ == o@),
    {
        num_bigint::BigInt::from_signed_bytes_le(&self.bytes)
            == num_bigint::BigInt::from_signed_bytes_le(&o.bytes)
    }

    /// Relies on `BigInt::bits`: the number of bits of the magnitude, zero for zero.
    #[verifier::external_body]
    pub(crate) fn bit_length(&self) -> (r: u64)
        requires
            self@ >= 0,
        ensures
            self@ < pow(2, r as nat),
            r > 0 ==> pow(2, (r - 1) as nat) <= self@,
    {
        num_bigint::BigInt::from_signed_bytes_le(&self.bytes).bits()
    }

    /// Relies on `BigInt::from_bytes_be` with a plus sign: the bytes read most significant first.
    #[verifier::external_body]
    pub(crate) fn from_be_bytes(b: &[u8]) -> (r: BigNum)
        ensures
            r@ == be_value(b@),
    {
        let s = num_bigint::BigInt::from_bytes_be(num_bigint::Sign::Plus, b);
        BigNum { bytes: s.to_signed_bytes_le() }
    }

    /// Relies on `BigInt::to_bytes_be`: the magnitude's bytes, most significant first,
    /// with no leading zero byte, and `[0]` for zero.
    #[verifier::external_body]
    pub(crate) fn to_be_bytes(&self) -> (r: Vec<u8>)
        requires
            self@ >= 0,
        ensures
            r@ == be_bytes(self@ as nat),
    {
        num_bigint::BigInt::from_signed_bytes_le(&self.bytes).to_bytes_be().1
    }

    /// Relies on `Display` for `num_bigint::BigInt`: base 10, with `-` before a negative value.
    #[verifier::external_body]
    fn decimal_text(&self) -> (r: String)
        ensures
            r@ == decimal_of(self@),
    {
        num_bigint::BigInt::from_signed_bytes_le(&self.bytes).to_string()
    }

    /// Relies on `BigInt::parse_bytes` in radix 10, which reads back what `Display` writes.
    #[verifier::external_body]
    pub(crate) fn parse_decimal(s: &str) -> (r: Option<BigNum>)
        ensures
            forall|v: int| s@ == #[trigger] decimal_of(v) ==> r.is_some() && r.unwrap()@ == v,
    {
        match num_bigint::BigInt::parse_bytes(s.as_bytes(), 10) {
            Some(x) => Some(BigNum { bytes: x.to_signed_bytes_le() }),
            None => None,
        }
    }

    /// Relies on `RandBigInt::gen_biguint` over `rand::thread_rng`: a draw below `2^bits`.
    #[verifier::external_body]
    pub(crate) fn random_below_pow2(bits: u64) -> (r: BigNum)
        ensures
            0 <= r@ < pow(2, bits as nat),
    {
        let s = num_bigint::BigInt::from(rand::thread_rng().gen_biguint(bits));
        BigNum { bytes: s.to_signed_bytes_le() }
    }
}

impl PartialEq for BigNum {
    fn eq(&self, o: &BigNum) -> (r: bool) {
        self.equals(o)
    }
}

impl vstd::std_specs::cmp::PartialEqSpecImpl for BigNum {
    open spec fn obeys_eq_spec() -> bool {
        true
    }

    open spec fn eq_spec(&self, o: &BigNum) -> bool {
        self@ == o@
    }
}

} // verus!
