//! The Micali–Schnorr style pseudorandom generator.
//!
//! One round raises the secret state to the public exponent modulo `N`,
//! reveals the low `k` bits of the result as the output chunk, and keeps the
//! high bits (plus one, in the `Ms91` variant) as the next state.

use vstd::prelude::*;
use vstd::arithmetic::power2::pow2;
use crate::bignum::{
    big, pow_n, big_add, big_clone, big_div_rem, big_from_u64, big_is_zero, big_modpow,
    big_shl, big_shr,
};

verus! {

broadcast use vstd::arithmetic::power2::lemma_pow2_pos;

/// The transition variant of the generator.
#[derive(Clone, Copy, Debug, PartialEq, Eq, Structural)]
pub enum Version {
    Ms91,
    Iso,
}

/// The round value `s^e mod N`.
pub open spec fn round_value(s: nat, e: nat, modulus: nat) -> nat
    recommends
        modulus > 0,
{
    pow_n(s, e) % modulus
}

/// The output chunk of a round: the low `k` bits of the round value.
pub open spec fn chunk_of(z: nat, k: nat) -> nat {
    z % pow2(k)
}

/// The state after a round: the high bits of the round value, incremented
/// by one in the `Ms91` variant.
pub open spec fn next_state_of(z: nat, k: nat, version: Version) -> nat {
    match version {
        Version::Ms91 => z / pow2(k) + 1,
        Version::Iso => z / pow2(k),
    }
}

/// Relies on `rsa::RsaPrivateKey::new_with_exp` (with
/// `rsa::traits::PublicKeyParts::n` to read the modulus): key generation
/// retries until the modulus has exactly `bits` bits, so on success the
/// modulus lies in `[2^(bits-1), 2^bits)`; on failure it returns an error.
/// For an even exponent no inverse modulo the (even) group order exists and
/// the retry loop never returns, so the precondition demands an odd one.
#[verifier::external_body]
fn generate_modulus(bits: usize, e: &rsa::BigUint) -> (r: Option<rsa::BigUint>)
    requires
        big(*e) % 2 == 1,
    ensures
        r matches Some(m) ==> bits >= 1 && pow2((bits - 1) as nat) <= big(m) < pow2(bits as nat),
{
    let mut rng = rand::thread_rng();
    match rsa::RsaPrivateKey::new_with_exp(&mut rng, bits, e) {
        Ok(key) => Some(rsa::traits::PublicKeyParts::n(&key).clone()),
        Err(_) => None,
    }
}

/// Relies on `rand::distributions::Uniform::new_inclusive` and
/// `Distribution::sample` for `rsa::BigUint`: the draw lies in the closed
/// range `[lo, hi]`. `new_inclusive` panics when `lo > hi`, which the
/// precondition rules out.
#[verifier::external_body]
fn sample_range(lo: &rsa::BigUint, hi: &rsa::BigUint) -> (r: rsa::BigUint)
    requires
        big(*lo) <= big(*hi),
    ensures
        big(*lo) <= big(r) <= big(*hi),
{
    rand::distributions::Distribution::sample(
        &rand::distributions::Uniform::new_inclusive(lo, hi),
        &mut rand::thread_rng(),
    )
}

/// The state of one generator instance.
pub struct State {
    modulus: rsa::BigUint,
    e: rsa::BigUint,
    n: usize,
    k: usize,
    version: Version,
    s: rsa::BigUint,
}

impl State {
    /// The modulus `N`, as a natural number.
    pub closed spec fn spec_modulus(&self) -> nat {
        big(self.modulus)
    }

    /// The public exponent `e`, as a natural number.
    pub closed spec fn spec_exp(&self) -> nat {
        big(self.e)
    }

    /// The current secret state, as a natural number.
    pub closed spec fn spec_state(&self) -> nat {
        big(self.s)
    }

    /// The configured modulus bit-length `n`.
    pub closed spec fn spec_n(&self) -> usize {
        self.n
    }

    /// The state-split parameter `k`: how many low bits a round reveals.
    pub closed spec fn spec_k(&self) -> usize {
        self.k
    }

    /// The transition variant.
    pub closed spec fn spec_version(&self) -> Version {
        self.version
    }

    /// The generator is usable: its modulus is positive.
    pub open spec fn wf(&self) -> bool {
        self.spec_modulus() > 0
    }

    /// Assembles a generator from explicit parts; declines a zero modulus.
    pub fn from_parts(
        modulus: rsa::BigUint,
        e: rsa::BigUint,
        n: usize,
        k: usize,
        version: Version,
        s: rsa::BigUint,
    ) -> (r: Option<State>)
        ensures
            (r is Some) <==> big(modulus) > 0,
            r matches Some(st) ==> st.wf() && st.spec_modulus() == big(modulus) && st.spec_exp()
                == big(e) && st.spec_n() == n && st.spec_k() == k && st.spec_version() == version
                && st.spec_state() == big(s),
    {
        if big_is_zero(&modulus) {
            None
        } else {
            Some(State { modulus, e, n, k, version, s })
        }
    }

    /// Creates a generator with a fresh RSA modulus of `n` bits for the odd
    /// exponent `e`, and an initial secret state sampled uniformly from
    /// `[1, N >> k]`. Returns nothing when key generation fails or the
    /// sampling range is empty.
    pub fn new(n: usize, e: &rsa::BigUint, k: usize, version: Version) -> (r: Option<State>)
        requires
            big(*e) % 2 == 1,
        ensures
            r matches Some(st) ==> st.wf() && st.spec_n() == n && st.spec_k() == k
                && st.spec_version() == version && st.spec_exp() == big(*e) && n >= 1 && pow2(
                (n - 1) as nat,
            ) <= st.spec_modulus() < pow2(n as nat) && 1 <= st.spec_state()
                <= st.spec_modulus() / pow2(k as nat),
    {
        match generate_modulus(n, e) {
            None => None,
            Some(modulus) => {
                let hi = big_shr(&modulus, k);
                if big_is_zero(&hi) {
                    return None;
                }
                let one = big_from_u64(1);
                let s = sample_range(&one, &hi);
                let ec = big_clone(e);
                Some(State { modulus, e: ec, n, k, version, s })
            },
        }
    }

    /// The modulus the generator was built with, for the drivers to read.
    pub fn modulus(&self) -> (r: &rsa::BigUint)
        ensures
            big(*r) == self.spec_modulus(),
    {
        &self.modulus
    }

    /// One round of the generator: returns the low `k` bits of
    /// `s^e mod N` and replaces the state by the high bits (plus one in the
    /// `Ms91` variant). Always produces an output chunk.
    pub fn next(&mut self) -> (r: Option<rsa::BigUint>)
        requires
            old(self).wf(),
        ensures
            final(self).wf(),
            r is Some,
            final(self).spec_modulus() == old(self).spec_modulus(),
            final(self).spec_exp() == old(self).spec_exp(),
            final(self).spec_n() == old(self).spec_n(),
            final(self).spec_k() == old(self).spec_k(),
            final(self).spec_version() == old(self).spec_version(),
            r matches Some(out) ==> ({
                let z = round_value(
                    old(self).spec_state(),
                    old(self).spec_exp(),
                    old(self).spec_modulus(),
                );
                big(out) == chunk_of(z, old(self).spec_k() as nat) && final(self).spec_state()
                    == next_state_of(z, old(self).spec_k() as nat, old(self).spec_version())
            }),
    {
        let z = big_modpow(&self.s, &self.e, &self.modulus);
        let one = big_from_u64(1);
        let pk = big_shl(&one, self.k);
        let (_q, out) = big_div_rem(&z, &pk);
        let sh = big_shr(&z, self.k);
        self.s = match self.version {
            Version::Ms91 => big_add(&sh, &one),
            Version::Iso => sh,
        };
        Some(out)
    }
}

} // verus!
