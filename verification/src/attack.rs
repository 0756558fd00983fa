//! The two attack drivers: recover the generator's secret state from one
//! observed output chunk.
//!
//! The basic driver feeds the chunk straight to the solver. The improved
//! driver widens the reachable state size by also searching a bounded range
//! of carries `c`, solving for `b + c·N` and verifying each candidate
//! against the observed chunk.

use vstd::prelude::*;
use vstd::arithmetic::power2::pow2;
use crate::bignum::{
    big, pow_n, big_add, big_div_rem, big_eq, big_from_u64, big_modpow, big_mul, big_shl,
    big_to_usize,
};
use crate::hensel::{hensel_solve, hensel_spec, lemma_pow_n, lemma_root_recovery, SolverError};
use crate::msprg::{chunk_of, round_value, State, Version};

verus! {

broadcast use vstd::arithmetic::power2::lemma_pow2_pos;

/// Why an attack attempt produced no state.
#[derive(Clone, Copy, Debug, PartialEq, Eq, Structural)]
pub enum AttackError {
    /// Generator parameters could not be derived or key generation failed.
    Setup,
    /// The solver found no root for the observed chunk.
    Solver(SolverError),
    /// The solver's root is not unique on enough bits to cover the state.
    InsufficientUniqueness,
    /// No carry candidate in the bounded search range verified.
    SearchExhausted,
}

/// What recovering a state of at most `r` bits from chunk `b` yields: the
/// solver's root masked to its low `r` bits, provided the root is unique on
/// at least `r` bits.
pub open spec fn basic_recovery(e: nat, b: nat, k: nat, r: nat) -> Result<nat, AttackError> {
    match hensel_spec(e, b, k) {
        Err(se) => Err(AttackError::Solver(se)),
        Ok(m) => if m.1 < r {
            Err(AttackError::InsufficientUniqueness)
        } else {
            Ok(m.0 % pow2(r))
        },
    }
}

/// Recovers a state of at most `r` bits from the observed chunk `b` of a
/// round split at `k` bits, exactly as `basic_recovery` describes.
pub fn recover_state(e: &rsa::BigUint, b: &rsa::BigUint, k: usize, r: usize) -> (res: Result<
    rsa::BigUint,
    AttackError,
>)
    ensures
        (res is Ok) <==> (basic_recovery(big(*e), big(*b), k as nat, r as nat) is Ok),
        res matches Ok(s) ==> basic_recovery(big(*e), big(*b), k as nat, r as nat) matches Ok(v)
            && big(s) == v,
        res matches Err(err) ==> basic_recovery(big(*e), big(*b), k as nat, r as nat) matches Err(
            m,
        ) && m == err,
{
    match hensel_solve(e, b, k) {
        Err(se) => Err(AttackError::Solver(se)),
        Ok(sol) => {
            if sol.unique_bits < r {
                Err(AttackError::InsufficientUniqueness)
            } else {
                let one = big_from_u64(1);
                let pr = big_shl(&one, r);
                let (_q, masked) = big_div_rem(&sol.root, &pr);
                Ok(masked)
            }
        },
    }
}

/// The a-priori bound on recoverable state bits for the basic driver:
/// `floor((n - 1) / e)`.
pub open spec fn basic_bound(n: nat, e: nat) -> nat
    recommends
        n >= 1,
        e >= 1,
{
    (((n - 1) as int) / (e as int)) as nat
}

/// Performs the basic small-state attack for a modulus bit-length `n` and
/// odd exponent `e`: builds a fresh generator split at `k = n - r` with
/// `r = floor((n - 1) / e)`, captures one output chunk, and recovers the
/// state from it. Any recovered state fits in `r` bits.
pub fn small_state_attack(n: usize, e: &rsa::BigUint) -> (res: Result<rsa::BigUint, AttackError>)
    requires
        n >= 1,
        big(*e) % 2 == 1,
    ensures
        res matches Ok(s) ==> big(s) < pow2(basic_bound(n as nat, big(*e))),
{
    let nb = big_from_u64((n - 1) as u64);
    let (rq, _rr) = big_div_rem(&nb, e);
    proof {
        vstd::arithmetic::div_mod::lemma_div_nonincreasing((n - 1) as int, big(*e) as int);
    }
    let r = big_to_usize(&rq).unwrap();
    let k = n - r;
    match State::new(n, e, k, Version::Ms91) {
        None => Err(AttackError::Setup),
        Some(mut msprg) => {
            let b = msprg.next().unwrap();
            let res = recover_state(e, &b, k, r);
            proof {
                if res is Ok {
                    vstd::arithmetic::div_mod::lemma_mod_division_less_than_divisor(
                        basic_recovery(big(*e), big(b), k as nat, r as nat)->Ok_0 as int,
                        pow2(r as nat) as int,
                    );
                }
            }
            res
        },
    }
}

/// Round trip of the basic recovery: when the secret state fits in `r`
/// bits and its `e`-th power stays below the modulus, a successful basic
/// recovery from the generator's output chunk returns exactly the secret
/// state — so one generator round taken from the recovered state
/// reproduces the observed chunk.
pub proof fn lemma_basic_round_trip(e: nat, s: nat, modulus: nat, k: nat, r: nat)
    requires
        e % 2 == 1,
        modulus >= 1,
        s < pow2(r),
        pow_n(s, e) < modulus,
        basic_recovery(e, chunk_of(round_value(s, e, modulus), k), k, r) is Ok,
    ensures
        basic_recovery(e, chunk_of(round_value(s, e, modulus), k), k, r) == Ok::<
            nat,
            AttackError,
        >(s),
        chunk_of(
            round_value(
                basic_recovery(e, chunk_of(round_value(s, e, modulus), k), k, r)->Ok_0,
                e,
                modulus,
            ),
            k,
        ) == chunk_of(round_value(s, e, modulus), k),
{
    vstd::arithmetic::div_mod::lemma_small_mod(pow_n(s, e), modulus);
    let b = chunk_of(round_value(s, e, modulus), k);
    lemma_root_recovery(e, s, k);
    let res = hensel_spec(e, b, k);
    let root = res->Ok_0.0;
    let u = res->Ok_0.1;
    if r < u {
        vstd::arithmetic::power2::lemma_pow2_strictly_increases(r, u);
    }
    vstd::arithmetic::div_mod::lemma_small_mod(s, pow2(u));
    vstd::arithmetic::power2::lemma_pow2_adds(r, (u - r) as nat);
    vstd::arithmetic::div_mod::lemma_mod_mod(
        root as int,
        pow2(r) as int,
        pow2((u - r) as nat) as int,
    );
    vstd::arithmetic::div_mod::lemma_small_mod(s, pow2(r));
}

/// Whether carry candidate `c` passes the improved driver's verification:
/// the solver finds a root for `b + c·N` unique on at least `r` bits, and
/// raising the masked candidate to `e` modulo `N·w` (where `w` bounds the
/// search) reproduces both the carry and the observed chunk.
pub open spec fn improved_accepts(
    e: nat,
    b: nat,
    modulus: nat,
    k: nat,
    r: nat,
    w: nat,
    c: nat,
) -> bool
    recommends
        modulus >= 1,
        w >= 1,
{
    match hensel_spec(e, b + c * modulus, k) {
        Err(_) => false,
        Ok(m) => {
            let cand = m.0 % pow2(r);
            let mp = pow_n(cand, e) % (modulus * w);
            m.1 >= r && mp / modulus == c && (mp % modulus) % pow2(k) == b
        },
    }
}

/// The state candidate that carry `c` leads to: the solver's root for
/// `b + c·N`, masked to its low `r` bits.
pub open spec fn improved_candidate(e: nat, b: nat, modulus: nat, k: nat, r: nat, c: nat) -> nat {
    match hensel_spec(e, b + c * modulus, k) {
        Err(_) => 0,
        Ok(m) => m.0 % pow2(r),
    }
}

/// Searches carries `c` in ascending order over `0 .. w`, returning the
/// candidate of the first `c` that verifies, or reporting the search
/// exhausted.
pub fn improved_search(
    e: &rsa::BigUint,
    b: &rsa::BigUint,
    modulus: &rsa::BigUint,
    k: usize,
    r: usize,
    w: usize,
) -> (res: Result<rsa::BigUint, AttackError>)
    requires
        big(*modulus) >= 1,
    ensures
        res matches Ok(s) ==> big(s) < pow2(r as nat),
        res matches Ok(s) ==> exists|c: nat|
            c < w as nat && #[trigger] improved_accepts(
                big(*e),
                big(*b),
                big(*modulus),
                k as nat,
                r as nat,
                w as nat,
                c,
            ) && big(s) == improved_candidate(big(*e), big(*b), big(*modulus), k as nat, r as nat, c)
                && forall|c2: nat|
                c2 < c ==> !improved_accepts(
                    big(*e),
                    big(*b),
                    big(*modulus),
                    k as nat,
                    r as nat,
                    w as nat,
                    c2,
                ),
        res matches Err(err) ==> err == AttackError::SearchExhausted && forall|c: nat|
            c < w as nat ==> !improved_accepts(
                big(*e),
                big(*b),
                big(*modulus),
                k as nat,
                r as nat,
                w as nat,
                c,
            ),
{
    let wb = big_from_u64(w as u64);
    let vbound = big_mul(modulus, &wb);
    let one = big_from_u64(1);
    let pr = big_shl(&one, r);
    let pk = big_shl(&one, k);
    let mut c: usize = 0;
    while c < w
        invariant
            c <= w,
            big(*modulus) >= 1,
            big(vbound) == big(*modulus) * w as nat,
            big(pr) == pow2(r as nat),
            big(pk) == pow2(k as nat),
            forall|c2: nat|
                c2 < c as nat ==> !improved_accepts(
                    big(*e),
                    big(*b),
                    big(*modulus),
                    k as nat,
                    r as nat,
                    w as nat,
                    c2,
                ),
        decreases w - c,
    {
        let cb = big_from_u64(c as u64);
        let shift = big_mul(modulus, &cb);
        let target = big_add(b, &shift);
        proof {
            vstd::arithmetic::mul::lemma_mul_is_commutative(big(*modulus) as int, c as int);
            assert(big(target) == big(*b) + (c as nat) * big(*modulus));
        }
        let ghost accepted = improved_accepts(
            big(*e),
            big(*b),
            big(*modulus),
            k as nat,
            r as nat,
            w as nat,
            c as nat,
        );
        match hensel_solve(e, &target, k) {
            Err(_) => {
                proof {
                    assert(!accepted);
                }
            },
            Ok(sol) => {
                let (_q, cand) = big_div_rem(&sol.root, &pr);
                if sol.unique_bits >= r {
                    proof {
                        vstd::arithmetic::mul::lemma_mul_inequality(
                            1,
                            w as int,
                            big(*modulus) as int,
                        );
                        vstd::arithmetic::mul::lemma_mul_is_commutative(
                            w as int,
                            big(*modulus) as int,
                        );
                    }
                    let mp = big_modpow(&cand, e, &vbound);
                    let (quot, rem) = big_div_rem(&mp, modulus);
                    let (_q2, reml) = big_div_rem(&rem, &pk);
                    if big_eq(&quot, &cb) && big_eq(&reml, b) {
                        proof {
                            assert(accepted);
                            vstd::arithmetic::div_mod::lemma_mod_division_less_than_divisor(
                                big(sol.root) as int,
                                pow2(r as nat) as int,
                            );
                        }
                        return Ok(cand);
                    }
                    proof {
                        assert(!accepted);
                    }
                } else {
                    proof {
                        assert(!accepted);
                    }
                }
            },
        }
        c = c + 1;
    }
    Err(AttackError::SearchExhausted)
}

/// `floor(log2(x))`, by repeated halving.
pub open spec fn spec_log2(x: nat) -> nat
    decreases x,
{
    if x <= 1 {
        0
    } else {
        1 + spec_log2(x / 2)
    }
}

/// The improved driver's bound on recoverable state bits:
/// `floor((n - 1 + m·log2(n)) / e)`.
pub open spec fn improved_bound(n: nat, e: nat, m: nat) -> nat
    recommends
        n >= 1,
        e >= 1,
{
    (((n - 1 + m * spec_log2(n)) as int) / (e as int)) as nat
}

/// Every natural number is below its own power of two.
proof fn lemma_n_lt_pow2(n: nat)
    ensures
        n < pow2(n),
    decreases n,
{
    if n == 0 {
        vstd::arithmetic::power2::lemma2_to64();
    } else {
        lemma_n_lt_pow2((n - 1) as nat);
        vstd::arithmetic::power2::lemma_pow2_unfold(n);
    }
}

/// The binary logarithm of `x`, rounded down.
fn floor_log2(x: usize) -> (r: usize)
    requires
        x >= 1,
    ensures
        r as nat == spec_log2(x as nat),
{
    let mut v = x;
    let mut r: usize = 0;
    proof {
        vstd::arithmetic::power2::lemma2_to64();
    }
    while v >= 2
        invariant
            1 <= v <= x,
            spec_log2(x as nat) == r as nat + spec_log2(v as nat),
            pow2(r as nat) * (v as nat) <= x as nat,
        decreases v,
    {
        proof {
            lemma_n_lt_pow2(r as nat);
            assert(pow2(r as nat) * 1 <= pow2(r as nat) * (v as nat)) by {
                vstd::arithmetic::mul::lemma_mul_inequality(
                    1,
                    v as int,
                    pow2(r as nat) as int,
                );
                vstd::arithmetic::mul::lemma_mul_is_commutative(1, pow2(r as nat) as int);
                vstd::arithmetic::mul::lemma_mul_is_commutative(
                    v as int,
                    pow2(r as nat) as int,
                );
            }
            vstd::arithmetic::power2::lemma_pow2_unfold((r + 1) as nat);
            assert(2 * (v as int / 2) <= v as int);
            assert(pow2((r + 1) as nat) * ((v as int / 2) as nat) <= pow2(r as nat) * (
            v as nat)) by (nonlinear_arith)
                requires
                    pow2((r + 1) as nat) == 2 * pow2(r as nat),
                    2 * (v as int / 2) <= v as int,
                    v >= 2,
            {}
        }
        v = v / 2;
        r = r + 1;
    }
    r
}

/// `base^exp` when it fits a `usize`, or nothing when it overflows.
fn usize_pow_checked(base: usize, exp: u32) -> (r: Option<usize>)
    ensures
        r matches Some(v) ==> v as nat == pow_n(base as nat, exp as nat),
        r is None ==> pow_n(base as nat, exp as nat) > usize::MAX as nat,
{
    proof {
        vstd::arithmetic::power::lemma_pow0(base as int);
    }
    let mut p: usize = 1;
    let mut j: u32 = 0;
    while j < exp
        invariant
            j <= exp,
            p as nat == pow_n(base as nat, j as nat),
        decreases exp - j,
    {
        proof {
            lemma_pow_n(base as nat, j as nat);
            lemma_pow_n(base as nat, (j + 1) as nat);
            vstd::arithmetic::power::lemma_pow_adds(base as int, j as nat, 1);
            vstd::arithmetic::power::lemma_pow1(base as int);
        }
        if base != 0 && p > usize::MAX / base {
            proof {
                let bb = base as int;
                let q = usize::MAX as int / bb;
                vstd::arithmetic::div_mod::lemma_fundamental_div_mod(usize::MAX as int, bb);
                vstd::arithmetic::div_mod::lemma_mod_division_less_than_divisor(
                    usize::MAX as int,
                    bb,
                );
                vstd::arithmetic::mul::lemma_mul_inequality(q + 1, p as int, bb);
                assert((q + 1) * bb == q * bb + bb) by (nonlinear_arith);
                assert(q * bb == bb * q) by (nonlinear_arith);
                assert(p as int * bb > usize::MAX as int);
                lemma_pow_n(base as nat, exp as nat);
                vstd::arithmetic::power::lemma_pow_increases(
                    base as nat,
                    (j + 1) as nat,
                    exp as nat,
                );
            }
            return None;
        }
        proof {
            if base != 0 {
                let bb = base as int;
                let q = usize::MAX as int / bb;
                vstd::arithmetic::div_mod::lemma_fundamental_div_mod(usize::MAX as int, bb);
                vstd::arithmetic::div_mod::lemma_mod_division_less_than_divisor(
                    usize::MAX as int,
                    bb,
                );
                vstd::arithmetic::mul::lemma_mul_inequality(p as int, q, bb);
                assert(q * bb == bb * q) by (nonlinear_arith);
                assert(p as int * bb <= usize::MAX as int);
            } else {
                assert(p as int * base as int == 0) by (nonlinear_arith)
                    requires
                        base as int == 0,
                {}
            }
            assert(p as int * base as int <= usize::MAX as int);
        }
        p = p * base;
        j = j + 1;
    }
    Some(p)
}

/// Performs the improved small-state attack for a modulus bit-length `n`,
/// odd exponent `e` and search-width multiplier `m`: builds a fresh
/// generator split at `k = n - r` with `r = floor((n - 1 + m·log2(n)) / e)`,
/// captures one output chunk, and searches carries `0 .. n^m` for a
/// verified candidate. Any recovered state fits in `r` bits; parameter
/// derivations that overflow the machine, or a bound `r` that leaves no
/// revealed bits, fail the setup before anything is generated.
pub fn improved_small_state_attack(n: usize, e: &rsa::BigUint, m: u32) -> (res: Result<
    rsa::BigUint,
    AttackError,
>)
    requires
        n >= 1,
        big(*e) % 2 == 1,
    ensures
        res matches Ok(s) ==> big(s) < pow2(improved_bound(n as nat, big(*e), m as nat)),
        (n as nat - 1 + m as nat * spec_log2(n as nat)) > usize::MAX as nat ==> res == Err::<
            rsa::BigUint,
            AttackError,
        >(AttackError::Setup),
        pow_n(n as nat, m as nat) > usize::MAX as nat ==> res == Err::<
            rsa::BigUint,
            AttackError,
        >(AttackError::Setup),
        improved_bound(n as nat, big(*e), m as nat) >= n as nat ==> res == Err::<
            rsa::BigUint,
            AttackError,
        >(AttackError::Setup),
{
    let lg = floor_log2(n);
    let mu = m as usize;
    if lg != 0 && mu > usize::MAX / lg {
        return Err(AttackError::Setup);
    }
    proof {
        if lg != 0 {
            let lb = lg as int;
            let q = usize::MAX as int / lb;
            vstd::arithmetic::div_mod::lemma_fundamental_div_mod(usize::MAX as int, lb);
            vstd::arithmetic::div_mod::lemma_mod_division_less_than_divisor(
                usize::MAX as int,
                lb,
            );
            vstd::arithmetic::mul::lemma_mul_inequality(mu as int, q, lb);
            assert(q * lb == lb * q) by (nonlinear_arith);
        }
    }
    let slack = mu * lg;
    if slack > usize::MAX - (n - 1) {
        return Err(AttackError::Setup);
    }
    let rnum = n - 1 + slack;
    let rb = big_from_u64(rnum as u64);
    let (rq, _rr) = big_div_rem(&rb, e);
    proof {
        vstd::arithmetic::div_mod::lemma_div_nonincreasing(rnum as int, big(*e) as int);
    }
    let r = big_to_usize(&rq).unwrap();
    if r >= n {
        return Err(AttackError::Setup);
    }
    let k = n - r;
    let w = match usize_pow_checked(n, m) {
        None => {
            return Err(AttackError::Setup);
        },
        Some(v) => v,
    };
    match State::new(n, e, k, Version::Ms91) {
        None => Err(AttackError::Setup),
        Some(mut msprg) => {
            let b = msprg.next().unwrap();
            improved_search(e, &b, msprg.modulus(), k, r, w)
        },
    }
}

} // verus!
