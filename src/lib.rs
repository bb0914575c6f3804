pub mod arith;
pub mod bignum;
pub mod fermat;
pub mod prime;
pub mod rsa;
pub mod rsa_key;
