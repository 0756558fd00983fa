//! A cryptanalytic attack on the Micali–Schnorr style pseudorandom generator
//! with a small internal state: when the state is short relative to the
//! modulus, one observed output chunk determines the state through a 2-adic
//! (Hensel) root computation instead of a brute-force search.

pub mod attack;
pub mod bignum;
pub mod hensel;
pub mod msprg;
