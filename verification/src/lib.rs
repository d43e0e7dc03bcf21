//! Ring signature verification (ECC and RSA flavours) over fixed-width big integers.
pub mod bignum;
pub mod utils;
pub mod ecc;
pub mod rsa;
pub mod rsa2;
