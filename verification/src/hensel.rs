//! The 2-adic root solver: given an odd exponent `e`, a target `b` and a bit
//! budget `k`, find `x` with `x^e ≡ b (mod 2^k)` by bit-by-bit Hensel
//! lifting, and report on how many low bits the root is pinned down.
//!
//! The whole computation is mirrored by spec functions over `nat`
//! (`hensel_spec` and its pieces); the executable solver is proved to return
//! exactly what the model says.

use vstd::prelude::*;
use vstd::arithmetic::power::pow;
use vstd::arithmetic::power2::pow2;
use crate::bignum::{
    big, pow_n, big_add, big_div_rem, big_from_u64, big_is_even, big_is_zero, big_modpow,
    big_shl, big_shr, big_sub, big_to_usize, big_trailing_zeros,
};

verus! {

broadcast use vstd::arithmetic::power2::lemma_pow2_pos;

/// Why the solver declined to produce a root.
#[derive(Clone, Copy, Debug, PartialEq, Eq, Structural)]
pub enum SolverError {
    /// The exponent is even: the map `x ↦ x^e` is not 2-adically invertible.
    UnsupportedExponent,
    /// The target's trailing-zero count is not a multiple of the exponent,
    /// so no integer root exists.
    NoRoot,
}

/// A root of `x^e ≡ b (mod 2^k)` together with the number of low-order bits
/// on which it is the unique solution.
pub struct HenselSolution {
    pub root: rsa::BigUint,
    pub unique_bits: usize,
}

/// Number of trailing zero bits of `t` (zero for `t == 0`).
pub open spec fn tz(t: nat) -> nat
    decreases t,
{
    if t == 0 || t % 2 == 1 {
        0
    } else {
        1 + tz(t / 2)
    }
}

/// `ceil(a / b)` over natural numbers.
pub open spec fn div_ceil_spec(a: nat, b: nat) -> nat
    recommends
        b >= 1,
{
    ((a + b - 1) / (b as int)) as nat
}

/// One lifting step: decide bit `i` of the root so that `sol^e` agrees with
/// the target on its low `i + 1` bits.
pub open spec fn lift_step(e: nat, t: nat, sol: nat, i: nat) -> nat {
    let m = pow2(i + 1) as int;
    let d = pow(sol as int, e) % m + m - (t as int) % m;
    if (d / (pow2(i) as int)) % 2 == 1 {
        sol + pow2(i)
    } else {
        sol
    }
}

/// The odd root approximation after bits `1 .. j` have been decided,
/// starting from the unique odd root `1` modulo 2.
pub open spec fn lift(e: nat, t: nat, j: nat) -> nat
    decreases j,
{
    if j <= 1 {
        1
    } else {
        lift_step(e, t, lift(e, t, (j - 1) as nat), (j - 1) as nat)
    }
}

/// The solver, as a function over natural numbers: either a root together
/// with its count of unique low bits, or the reason there is none.
pub open spec fn hensel_spec(e: nat, b: nat, k: nat) -> Result<(nat, nat), SolverError> {
    if e % 2 == 0 {
        Err(SolverError::UnsupportedExponent)
    } else {
        let t = b % pow2(k);
        if t == 0 {
            Ok((0, div_ceil_spec(k, e)))
        } else {
            let z = tz(t);
            if z % e != 0 {
                Err(SolverError::NoRoot)
            } else {
                Ok(
                    (
                        lift(e, t / pow2(z), (k - z) as nat) * pow2(z / e),
                        ((k - z) + z / e) as nat,
                    ),
                )
            }
        }
    }
}

/// A number divisible by `2^z` with an odd quotient has exactly `z`
/// trailing zero bits.
proof fn lemma_tz_unique(t: nat, z: nat)
    requires
        t % pow2(z) == 0,
        (t / pow2(z)) % 2 == 1,
    ensures
        tz(t) == z,
    decreases z,
{
    if t == 0 {
        assert(t / pow2(z) == 0) by {
            vstd::arithmetic::div_mod::lemma_div_of0(pow2(z) as int);
        }
    } else if z == 0 {
        assert(pow2(0) == 1) by {
            vstd::arithmetic::power2::lemma2_to64();
        }
        assert(t / 1 == t) by {
            vstd::arithmetic::div_mod::lemma_div_basics(t as int);
        }
    } else {
        vstd::arithmetic::power2::lemma_pow2_unfold(z);
        assert(pow2(z) == 2 * pow2((z - 1) as nat));
        vstd::arithmetic::div_mod::lemma_breakdown(t as int, 2, pow2((z - 1) as nat) as int);
        assert(t % 2 == 0);
        assert((t / 2) % pow2((z - 1) as nat) == 0);
        assert((t / 2) / pow2((z - 1) as nat) == t / pow2(z)) by {
            vstd::arithmetic::div_mod::lemma_div_denominator(
                t as int,
                2,
                pow2((z - 1) as nat) as int,
            );
        }
        lemma_tz_unique(t / 2, (z - 1) as nat);
    }
}

/// A nonzero multiple of `2^z` is at least `2^z`.
proof fn lemma_pow2_divides_bound(t: nat, z: nat)
    requires
        t != 0,
        t % pow2(z) == 0,
    ensures
        pow2(z) <= t,
{
    vstd::arithmetic::div_mod::lemma_fundamental_div_mod(t as int, pow2(z) as int);
    assert(t == pow2(z) * (t as int / pow2(z) as int));
    if t as int / pow2(z) as int <= 0 {
        vstd::arithmetic::mul::lemma_mul_inequality(t as int / pow2(z) as int, 0, pow2(z) as int);
        assert((t as int / pow2(z) as int) * pow2(z) <= 0);
        vstd::arithmetic::mul::lemma_mul_is_commutative(pow2(z) as int, t as int / pow2(z) as int);
        assert(false);
    }
    vstd::arithmetic::mul::lemma_mul_inequality(1, t as int / pow2(z) as int, pow2(z) as int);
    vstd::arithmetic::mul::lemma_mul_is_commutative(pow2(z) as int, t as int / pow2(z) as int);
}

/// `pow` of a natural base is a natural number, so `pow_n` agrees with it.
pub proof fn lemma_pow_n(b: nat, e: nat)
    ensures
        pow(b as int, e) >= 0,
        pow_n(b, e) == pow(b as int, e),
    decreases e,
{
    if e == 0 {
        vstd::arithmetic::power::lemma_pow0(b as int);
    } else {
        lemma_pow_n(b, (e - 1) as nat);
        assert(pow(b as int, e) == b * pow(b as int, (e - 1) as nat)) by {
            reveal(pow);
        }
        vstd::arithmetic::mul::lemma_mul_nonnegative(b as int, pow(b as int, (e - 1) as nat));
    }
}

/// Rounding `a` up to a multiple of `b` and dividing stays below `a`.
proof fn lemma_div_ceil_le(a: nat, b: nat)
    requires
        b >= 1,
    ensures
        div_ceil_spec(a, b) <= a,
{
    vstd::arithmetic::div_mod::lemma_fundamental_div_mod_converse(
        (a * b + b - 1) as int,
        b as int,
        a as int,
        (b - 1) as int,
    );
    assert(a <= a * b) by {
        vstd::arithmetic::mul::lemma_mul_inequality(1, b as int, a as int);
        vstd::arithmetic::mul::lemma_mul_is_commutative(b as int, a as int);
    }
    vstd::arithmetic::div_mod::lemma_div_is_ordered(
        (a + b - 1) as int,
        (a * b + b - 1) as int,
        b as int,
    );
}

/// For every odd exponent and every bit budget, a zero target yields the
/// zero root, unique on `ceil(k/e)` bits.
pub proof fn lemma_zero_target(e: nat, b: nat, k: nat)
    requires
        e % 2 == 1,
        b % pow2(k) == 0,
    ensures
        hensel_spec(e, b, k) == Ok::<(nat, nat), SolverError>((0, div_ceil_spec(k, e))),
{
}

/// The solver reports no root whenever the reduced target's trailing-zero
/// count is not a multiple of the exponent.
pub proof fn lemma_no_root(e: nat, b: nat, k: nat)
    requires
        e % 2 == 1,
        b % pow2(k) != 0,
        tz(b % pow2(k)) % e != 0,
    ensures
        hensel_spec(e, b, k) == Err::<(nat, nat), SolverError>(SolverError::NoRoot),
{
}

/// The solver always declines an even exponent, whatever the target and
/// the bit budget.
pub proof fn lemma_even_exponent(e: nat, b: nat, k: nat)
    requires
        e % 2 == 0,
    ensures
        hensel_spec(e, b, k) == Err::<(nat, nat), SolverError>(SolverError::UnsupportedExponent),
{
}

/// A power of an odd number is odd.
proof fn lemma_pow_odd(x: nat, e: nat)
    requires
        x % 2 == 1,
    ensures
        pow_n(x, e) % 2 == 1,
    decreases e,
{
    lemma_pow_n(x, e);
    if e == 0 {
        vstd::arithmetic::power::lemma_pow0(x as int);
    } else {
        lemma_pow_odd(x, (e - 1) as nat);
        lemma_pow_n(x, (e - 1) as nat);
        assert(pow(x as int, e) == x * pow(x as int, (e - 1) as nat)) by {
            reveal(pow);
        }
        vstd::arithmetic::div_mod::lemma_mul_mod_noop(
            x as int,
            pow(x as int, (e - 1) as nat),
            2,
        );
    }
}

/// First-order expansion of `(a + c)^e`: the remainder beyond the linear
/// term is a multiple of `c²`, returned as the witness.
#[verifier::rlimit(50)]
proof fn lemma_binomial(a: int, c: int, e: nat) -> (m: int)
    requires
        e >= 1,
    ensures
        pow(a + c, e) == pow(a, e) + e * pow(a, (e - 1) as nat) * c + m * c * c,
    decreases e,
{
    if e == 1 {
        vstd::arithmetic::power::lemma_pow1(a + c);
        vstd::arithmetic::power::lemma_pow1(a);
        vstd::arithmetic::power::lemma_pow0(a);
        assert(e * pow(a, (e - 1) as nat) * c == c) by (nonlinear_arith)
            requires
                e == 1,
                pow(a, (e - 1) as nat) == 1,
        {}
        0
    } else {
        let m0 = lemma_binomial(a, c, (e - 1) as nat);
        let d = e as int - 1;
        let p1 = pow(a, (e - 1) as nat);
        let p2 = pow(a, (e - 2) as nat);
        let s = pow(a + c, (e - 1) as nat);
        let t = pow(a + c, e);
        let pe = pow(a, e);
        let m1 = a * m0 + d * p2 + m0 * c;
        assert(t == (a + c) * s && pe == a * p1 && p1 == a * p2) by {
            reveal(pow);
        }
        assert(s == p1 + d * p2 * c + m0 * c * c);
        assert(t == a * s + c * s) by (nonlinear_arith)
            requires
                t == (a + c) * s,
        {}
        assert(a * s == a * p1 + d * (a * p2) * c + (a * m0) * c * c) by (nonlinear_arith)
            requires
                s == p1 + d * p2 * c + m0 * c * c,
        {}
        assert(c * s == p1 * c + (d * p2) * c * c + (m0 * c) * c * c) by (nonlinear_arith)
            requires
                s == p1 + d * p2 * c + m0 * c * c,
        {}
        assert(e * p1 * c == d * p1 * c + p1 * c) by (nonlinear_arith)
            requires
                d == e as int - 1,
        {}
        assert(m1 * c * c == (a * m0) * c * c + (d * p2) * c * c + (m0 * c) * c * c)
            by (nonlinear_arith)
            requires
                m1 == a * m0 + d * p2 + m0 * c,
        {}
        assert(d * (a * p2) * c == d * p1 * c) by (nonlinear_arith)
            requires
                p1 == a * p2,
        {}
        assert(t == pe + e * pow(a, (e - 1) as nat) * c + m1 * c * c);
        m1
    }
}

/// For odd `x` and odd `e`, adding `2^i` to `x` flips exactly bit `i` of
/// `x^e` modulo `2^(i+1)`: the derivative `e·x^(e-1)` is odd, so the linear
/// term of the expansion contributes `2^i` and the rest vanishes.
proof fn lemma_lift_flip(x: nat, e: nat, i: nat)
    requires
        x % 2 == 1,
        e % 2 == 1,
        i >= 1,
    ensures
        pow_n((x + pow2(i)) as nat, e) % pow2(i + 1) == (pow_n(x, e) + pow2(i)) % pow2(i + 1),
{
    let c = pow2(i) as int;
    let mm = pow2(i + 1) as int;
    vstd::arithmetic::power2::lemma_pow2_unfold(i + 1);
    let m0 = lemma_binomial(x as int, c, e);
    let dd = e * pow(x as int, (e - 1) as nat);
    lemma_pow_odd(x, (e - 1) as nat);
    lemma_pow_n(x, (e - 1) as nat);
    vstd::arithmetic::div_mod::lemma_mul_mod_noop(
        e as int,
        pow(x as int, (e - 1) as nat),
        2,
    );
    assert(dd % 2 == 1);
    vstd::arithmetic::div_mod::lemma_fundamental_div_mod(dd, 2);
    let tt = dd / 2;
    assert(dd * c == tt * mm + c) by (nonlinear_arith)
        requires
            dd == 2 * tt + 1,
            mm == 2 * c,
    {}
    vstd::arithmetic::power2::lemma_pow2_adds(i, i);
    vstd::arithmetic::power2::lemma_pow2_adds((i - 1) as nat, i + 1);
    assert(c * c == pow2((i - 1) as nat) as int * mm);
    assert(m0 * c * c == mm * (m0 * pow2((i - 1) as nat) as int) + 0) by (nonlinear_arith)
        requires
            c * c == pow2((i - 1) as nat) as int * mm,
    {}
    let aa = tt + m0 * pow2((i - 1) as nat) as int;
    assert(mm * aa == tt * mm + mm * (m0 * pow2((i - 1) as nat) as int)) by (nonlinear_arith)
        requires
            aa == tt + m0 * pow2((i - 1) as nat) as int,
    {}
    assert(pow(x as int + c, e) == mm * aa + (pow(x as int, e) + c));
    vstd::arithmetic::div_mod::lemma_mod_multiples_vanish(aa, pow(x as int, e) + c, mm);
    lemma_pow_n((x + pow2(i)) as nat, e);
    lemma_pow_n(x, e);
}

/// The lifted approximation after `j` bits is an odd root of the target
/// modulo `2^j`, and stays below `2^j`.
proof fn lemma_lift_props(e: nat, t: nat, j: nat)
    requires
        e % 2 == 1,
        t % 2 == 1,
        j >= 1,
    ensures
        lift(e, t, j) % 2 == 1,
        lift(e, t, j) < pow2(j),
        pow_n(lift(e, t, j), e) % pow2(j) == t % pow2(j),
    decreases j,
{
    if j == 1 {
        vstd::arithmetic::power::lemma1_pow(e);
        lemma_pow_n(1, e);
        vstd::arithmetic::power2::lemma2_to64();
    } else {
        let i = (j - 1) as nat;
        lemma_lift_props(e, t, i);
        let sol = lift(e, t, i);
        lemma_pow_n(sol, e);
        let c = pow2(i) as int;
        let mm = pow2(j) as int;
        vstd::arithmetic::power2::lemma_pow2_unfold(j);
        vstd::arithmetic::power2::lemma_pow2_unfold(i);
        vstd::arithmetic::power2::lemma_pow2_strictly_increases(i, j);
        let pa = pow(sol as int, e);
        let aa = pa % mm;
        let bb = (t as int) % mm;
        vstd::arithmetic::div_mod::lemma_mod_mod(pa, c, 2);
        vstd::arithmetic::div_mod::lemma_mod_mod(t as int, c, 2);
        assert(aa % c == bb % c);
        let a1 = aa / c;
        let b1 = bb / c;
        let w = aa % c;
        vstd::arithmetic::div_mod::lemma_fundamental_div_mod(aa, c);
        vstd::arithmetic::div_mod::lemma_fundamental_div_mod(bb, c);
        vstd::arithmetic::div_mod::lemma_multiply_divide_lt(aa, c, 2);
        vstd::arithmetic::div_mod::lemma_multiply_divide_lt(bb, c, 2);
        assert(0 <= a1 < 2 && 0 <= b1 < 2);
        let d = aa + mm - bb;
        assert(lift(e, t, j) == lift_step(e, t, sol, i));
        if a1 == b1 {
            assert(aa == bb);
            assert(d == 2 * c);
            vstd::arithmetic::div_mod::lemma_div_by_multiple(2, c);
            assert(d / c == 2);
            assert(lift(e, t, j) == sol);
        } else {
            let sol2 = (sol + pow2(i)) as nat;
            lemma_lift_flip(sol, e, i);
            lemma_pow_n(sol2, e);
            vstd::arithmetic::div_mod::lemma_add_mod_noop(pa, c, mm);
            vstd::arithmetic::div_mod::lemma_small_mod(pow2(i), pow2(j));
            assert((pow_n(sol, e) + pow2(i)) % pow2(j) == ((aa + c) % mm) as nat);
            if a1 == 0 {
                assert(c * a1 == 0 && c * b1 == c) by (nonlinear_arith)
                    requires
                        a1 == 0,
                        b1 == 1,
                {}
                assert(aa == w && bb == c + w);
                assert(d == c);
                vstd::arithmetic::div_mod::lemma_div_by_multiple(1, c);
                assert(d / c == 1);
                assert(lift(e, t, j) == sol2);
                vstd::arithmetic::div_mod::lemma_small_mod((aa + c) as nat, mm as nat);
                assert((aa + c) % mm == bb);
            } else {
                assert(c * a1 == c && c * b1 == 0) by (nonlinear_arith)
                    requires
                        a1 == 1,
                        b1 == 0,
                {}
                assert(aa == c + w && bb == w);
                assert(d == 3 * c);
                vstd::arithmetic::div_mod::lemma_div_by_multiple(3, c);
                assert(d / c == 3);
                assert(lift(e, t, j) == sol2);
                vstd::arithmetic::div_mod::lemma_mod_multiples_vanish(1, w, mm);
                vstd::arithmetic::div_mod::lemma_small_mod(w as nat, mm as nat);
                assert((aa + c) % mm == bb);
            }
            assert(sol2 % 2 == 1) by {
                vstd::arithmetic::div_mod::lemma_add_mod_noop(sol as int, pow2(i) as int, 2);
                vstd::arithmetic::div_mod::lemma_mod_multiples_basic(pow2((i - 1) as nat) as int, 2);
                assert(pow2(i) % 2 == 0);
            }
        }
    }
}

/// For an odd exponent, two odd numbers with the same `e`-th power modulo
/// `2^j` agree modulo `2^j`: the root the solver lifts is the only odd one.
proof fn lemma_root_unique(e: nat, x: nat, y: nat, j: nat)
    requires
        e % 2 == 1,
        x % 2 == 1,
        y % 2 == 1,
        pow_n(x, e) % pow2(j) == pow_n(y, e) % pow2(j),
    ensures
        x % pow2(j) == y % pow2(j),
    decreases j,
{
    vstd::arithmetic::power2::lemma2_to64();
    if j == 0 {
    } else if j == 1 {
    } else {
        let i = (j - 1) as nat;
        let h = pow2(i) as int;
        let mm = pow2(j) as int;
        vstd::arithmetic::power2::lemma_pow2_unfold(j);
        lemma_pow_n(x, e);
        lemma_pow_n(y, e);
        vstd::arithmetic::div_mod::lemma_mod_mod(pow(x as int, e), h, 2);
        vstd::arithmetic::div_mod::lemma_mod_mod(pow(y as int, e), h, 2);
        lemma_root_unique(e, x, y, i);
        let xm = (x as int) % mm;
        let ym = (y as int) % mm;
        vstd::arithmetic::div_mod::lemma_mod_mod(x as int, h, 2);
        vstd::arithmetic::div_mod::lemma_mod_mod(y as int, h, 2);
        let xb = xm / h;
        let yb = ym / h;
        vstd::arithmetic::div_mod::lemma_fundamental_div_mod(xm, h);
        vstd::arithmetic::div_mod::lemma_fundamental_div_mod(ym, h);
        vstd::arithmetic::div_mod::lemma_multiply_divide_lt(xm, h, 2);
        vstd::arithmetic::div_mod::lemma_multiply_divide_lt(ym, h, 2);
        if xb != yb {
            let lo = if xb == 0 { xm } else { ym };
            let hi = if xb == 0 { ym } else { xm };
            if xb == 0 {
                assert(h * xb == 0 && h * yb == h) by (nonlinear_arith)
                    requires
                        xb == 0,
                        yb == 1,
                {}
            } else {
                assert(h * xb == h && h * yb == 0) by (nonlinear_arith)
                    requires
                        xb == 1,
                        yb == 0,
                {}
            }
            assert(hi == lo + h);
            assert(lo % 2 == 1) by {
                vstd::arithmetic::div_mod::lemma_mod_mod(x as int, 2, h);
                vstd::arithmetic::div_mod::lemma_mod_mod(y as int, 2, h);
            }
            vstd::arithmetic::power::lemma_pow_mod_noop(x as int, e, mm);
            vstd::arithmetic::power::lemma_pow_mod_noop(y as int, e, mm);
            lemma_lift_flip(lo as nat, e, i);
            lemma_pow_n(lo as nat, e);
            lemma_pow_n(hi as nat, e);
            let v = pow(lo, e) % mm;
            vstd::arithmetic::div_mod::lemma_add_mod_noop(pow(lo, e), h, mm);
            vstd::arithmetic::div_mod::lemma_small_mod(pow2(i), pow2(j));
            if v < h {
                vstd::arithmetic::div_mod::lemma_small_mod((v + h) as nat, mm as nat);
                assert((v + h) % mm == v + h);
            } else {
                vstd::arithmetic::div_mod::lemma_mod_multiples_vanish(1, v - h, mm);
                vstd::arithmetic::div_mod::lemma_small_mod((v - h) as nat, mm as nat);
                assert((v + h) % mm == v - h);
            }
            assert(pow(hi, e) % mm != pow(lo, e) % mm);
            assert(false);
        }
    }
}

/// With exponent one the solver is the identity: the root is the reduced
/// target itself, unique on all `k` requested bits.
pub proof fn lemma_identity_exponent(b: nat, k: nat)
    ensures
        hensel_spec(1, b, k) == Ok::<(nat, nat), SolverError>((b % pow2(k), k)),
{
    let t = b % pow2(k);
    vstd::arithmetic::div_mod::lemma_mod_division_less_than_divisor(b as int, pow2(k) as int);
    if t == 0 {
        assert(div_ceil_spec(k, 1) == k) by {
            vstd::arithmetic::div_mod::lemma_div_basics(k as int);
        }
    } else {
        lemma_tz_props(t);
        let z = tz(t);
        lemma_pow2_divides_bound(t, z);
        if z >= k {
            if z > k {
                vstd::arithmetic::power2::lemma_pow2_strictly_increases(k, z);
            }
            assert(false);
        }
        let kz = (k - z) as nat;
        let t2 = t / pow2(z);
        vstd::arithmetic::div_mod::lemma_div_basics(z as int);
        lemma_lift_props(1, t2, kz);
        let l = lift(1, t2, kz);
        vstd::arithmetic::power::lemma_pow1(l as int);
        lemma_pow_n(l, 1);
        assert(t2 < pow2(kz)) by {
            vstd::arithmetic::power2::lemma_pow2_adds(z, kz);
            vstd::arithmetic::div_mod::lemma_multiply_divide_lt(
                t as int,
                pow2(z) as int,
                pow2(kz) as int,
            );
        }
        vstd::arithmetic::div_mod::lemma_small_mod(t2, pow2(kz));
        vstd::arithmetic::div_mod::lemma_small_mod(l, pow2(kz));
        assert(l == t2);
        assert(l * pow2(z) == t) by {
            vstd::arithmetic::div_mod::lemma_fundamental_div_mod(t as int, pow2(z) as int);
            vstd::arithmetic::mul::lemma_mul_is_commutative(t2 as int, pow2(z) as int);
        }
    }
}

/// A nonzero number is its trailing-zero power of two times an odd part.
proof fn lemma_tz_props(x: nat)
    requires
        x != 0,
    ensures
        x % pow2(tz(x)) == 0,
        (x / pow2(tz(x))) % 2 == 1,
    decreases x,
{
    vstd::arithmetic::power2::lemma2_to64();
    if x % 2 == 1 {
        vstd::arithmetic::div_mod::lemma_div_basics(x as int);
    } else {
        lemma_tz_props(x / 2);
        let z1 = tz(x / 2);
        vstd::arithmetic::power2::lemma_pow2_unfold((z1 + 1) as nat);
        vstd::arithmetic::div_mod::lemma_breakdown(x as int, 2, pow2(z1) as int);
        vstd::arithmetic::div_mod::lemma_div_denominator(x as int, 2, pow2(z1) as int);
        assert(x % pow2(z1 + 1) == 2 * ((x as int / 2) % pow2(z1) as int) + x % 2);
    }
}

/// A nonzero `x` splits as `2^tz(x)` times an odd part, and its `e`-th
/// power splits correspondingly.
proof fn lemma_pow_decompose(x: nat, e: nat)
    requires
        x != 0,
    ensures
        x == pow2(tz(x)) * (x / pow2(tz(x))),
        (x / pow2(tz(x))) % 2 == 1,
        pow_n(x, e) == pow2(e * tz(x)) * pow_n(x / pow2(tz(x)), e),
        x % 2 == 1 ==> pow_n(x, e) % 2 == 1,
{
    lemma_tz_props(x);
    let zx = tz(x);
    let ox = x / pow2(zx);
    vstd::arithmetic::div_mod::lemma_fundamental_div_mod(x as int, pow2(zx) as int);
    lemma_pow_n(x, e);
    lemma_pow_n(ox, e);
    lemma_pow_n(pow2(zx), e);
    vstd::arithmetic::power::lemma_pow_distributes(pow2(zx) as int, ox as int, e);
    vstd::arithmetic::power2::lemma_pow2(zx);
    vstd::arithmetic::power::lemma_pow_multiplies(2, zx, e);
    vstd::arithmetic::power2::lemma_pow2(zx * e);
    vstd::arithmetic::mul::lemma_mul_is_commutative(zx as int, e as int);
    if x % 2 == 1 {
        lemma_pow_odd(x, e);
    }
}

/// The solver inverts the exponent map: for every odd exponent `e`, every
/// `x` and every bit budget `k`, solving for `x^e mod 2^k` succeeds, the
/// reported unique-bit count is at most `k`, and the root agrees with `x`
/// on all of those bits.
pub proof fn lemma_root_recovery(e: nat, x: nat, k: nat)
    requires
        e % 2 == 1,
    ensures
        ({
            let res = hensel_spec(e, pow_n(x, e) % pow2(k), k);
            &&& res is Ok
            &&& res->Ok_0.1 <= k
            &&& res->Ok_0.0 % pow2(res->Ok_0.1) == x % pow2(res->Ok_0.1)
        }),
{
    let b = pow_n(x, e) % pow2(k);
    lemma_pow_n(x, e);
    vstd::arithmetic::div_mod::lemma_mod_division_less_than_divisor(
        pow_n(x, e) as int,
        pow2(k) as int,
    );
    vstd::arithmetic::div_mod::lemma_small_mod(b, pow2(k));
    if x == 0 {
        assert(pow_n(0, e) == 0) by {
            vstd::arithmetic::power::lemma0_pow(e);
        }
        assert(b == 0) by {
            vstd::arithmetic::div_mod::lemma_mod_multiples_basic(0, pow2(k) as int);
        }
        lemma_div_ceil_le(k, e);
        vstd::arithmetic::div_mod::lemma_small_mod(0, pow2(div_ceil_spec(k, e)));
        return ;
    }
    let zx = tz(x);
    let ox = x / pow2(zx);
    lemma_pow_decompose(x, e);
    lemma_pow_odd(ox, e);
    if k <= e * zx {
        // x^e is a multiple of 2^k, so the target reduces to zero.
        vstd::arithmetic::power2::lemma_pow2_adds(k, (e * zx - k) as nat);
        assert(pow_n(x, e) == (pow2((e * zx - k) as nat) * pow_n(ox, e)) * pow2(k))
            by (nonlinear_arith)
            requires
                pow_n(x, e) == pow2(e * zx) * pow_n(ox, e),
                pow2(e * zx) == pow2(k) * pow2((e * zx - k) as nat),
        {}
        vstd::arithmetic::div_mod::lemma_mod_multiples_basic(
            (pow2((e * zx - k) as nat) * pow_n(ox, e)) as int,
            pow2(k) as int,
        );
        assert(b == 0);
        let u = div_ceil_spec(k, e);
        lemma_div_ceil_le(k, e);
        // u <= zx, so 2^u divides x.
        vstd::arithmetic::div_mod::lemma_fundamental_div_mod_converse(
            (e * zx + e - 1) as int,
            e as int,
            zx as int,
            (e - 1) as int,
        );
        vstd::arithmetic::div_mod::lemma_div_is_ordered(
            (k + e - 1) as int,
            (e * zx + e - 1) as int,
            e as int,
        );
        vstd::arithmetic::mul::lemma_mul_is_commutative(e as int, zx as int);
        assert(u <= zx);
        vstd::arithmetic::power2::lemma_pow2_adds(u, (zx - u) as nat);
        assert(x == (pow2((zx - u) as nat) * ox) * pow2(u)) by (nonlinear_arith)
            requires
                x == pow2(zx) * ox,
                pow2(zx) == pow2(u) * pow2((zx - u) as nat),
        {}
        vstd::arithmetic::div_mod::lemma_mod_multiples_basic(
            (pow2((zx - u) as nat) * ox) as int,
            pow2(u) as int,
        );
        vstd::arithmetic::div_mod::lemma_small_mod(0, pow2(u));
        assert(x % pow2(u) == 0);
    } else {
        // The odd part survives: the target is 2^(e·tz(x)) times an odd
        // remainder, so the solver lifts the odd part's root and shifts.
        let kz = (k - e * zx) as nat;
        let ww = pow_n(ox, e) % pow2(kz);
        vstd::arithmetic::power2::lemma_pow2_adds(e * zx, kz);
        vstd::arithmetic::div_mod::lemma_truncate_middle(
            pow_n(ox, e) as int,
            pow2(e * zx) as int,
            pow2(kz) as int,
        );
        assert(b == pow2(e * zx) * ww);
        assert(ww % 2 == 1) by {
            vstd::arithmetic::power2::lemma_pow2_unfold(kz);
            vstd::arithmetic::div_mod::lemma_mod_mod(pow_n(ox, e) as int, 2, pow2(
                (kz - 1) as nat,
            ) as int);
        }
        assert(b != 0) by {
            vstd::arithmetic::mul::lemma_mul_inequality(1, ww as int, pow2(e * zx) as int);
            vstd::arithmetic::mul::lemma_mul_is_commutative(ww as int, pow2(e * zx) as int);
        }
        vstd::arithmetic::div_mod::lemma_mod_multiples_basic(ww as int, pow2(e * zx) as int);
        vstd::arithmetic::div_mod::lemma_div_by_multiple(ww as int, pow2(e * zx) as int);
        vstd::arithmetic::mul::lemma_mul_is_commutative(ww as int, pow2(e * zx) as int);
        lemma_tz_unique(b, e * zx);
        let z = tz(b);
        assert(z == e * zx);
        vstd::arithmetic::div_mod::lemma_mod_multiples_basic(zx as int, e as int);
        vstd::arithmetic::div_mod::lemma_div_by_multiple(zx as int, e as int);
        vstd::arithmetic::mul::lemma_mul_is_commutative(zx as int, e as int);
        assert(z % e == 0 && z / e == zx);
        assert(z < k) by {
            vstd::arithmetic::mul::lemma_mul_inequality(1, e as int, zx as int);
            vstd::arithmetic::mul::lemma_mul_is_commutative(e as int, zx as int);
        }
        let l = lift(e, ww, kz);
        lemma_lift_props(e, ww, kz);
        assert(pow_n(l, e) % pow2(kz) == pow_n(ox, e) % pow2(kz)) by {
            vstd::arithmetic::div_mod::lemma_mod_division_less_than_divisor(
                pow_n(ox, e) as int,
                pow2(kz) as int,
            );
            vstd::arithmetic::div_mod::lemma_small_mod(ww, pow2(kz));
        }
        lemma_root_unique(e, l, ox, kz);
        let u = kz + zx;
        // the root and x decompose the same way below bit u
        vstd::arithmetic::power2::lemma_pow2_adds(zx, kz);
        vstd::arithmetic::div_mod::lemma_truncate_middle(
            l as int,
            pow2(zx) as int,
            pow2(kz) as int,
        );
        vstd::arithmetic::div_mod::lemma_truncate_middle(
            ox as int,
            pow2(zx) as int,
            pow2(kz) as int,
        );
        vstd::arithmetic::mul::lemma_mul_is_commutative(l as int, pow2(zx) as int);
        assert(zx <= z) by {
            vstd::arithmetic::mul::lemma_mul_inequality(1, e as int, zx as int);
            vstd::arithmetic::mul::lemma_mul_is_commutative(e as int, zx as int);
        }
        assert(hensel_spec(e, b, k) == Ok::<(nat, nat), SolverError>((l * pow2(zx), u)));
        assert((l * pow2(zx)) % pow2(u) == x % pow2(u));
    }
}

/// Finds a root of `x^e ≡ b (mod 2^k)` for odd `e`, returning the root and
/// the number of low-order bits on which it is unique, exactly as
/// `hensel_spec` describes.
pub fn hensel_solve(e: &rsa::BigUint, b: &rsa::BigUint, k: usize) -> (r: Result<
    HenselSolution,
    SolverError,
>)
    ensures
        (r is Ok) <==> (hensel_spec(big(*e), big(*b), k as nat) is Ok),
        r matches Ok(sol) ==> hensel_spec(big(*e), big(*b), k as nat) matches Ok(m) && big(
            sol.root,
        ) == m.0 && sol.unique_bits as nat == m.1,
        r matches Err(err) ==> hensel_spec(big(*e), big(*b), k as nat) matches Err(m) && m
            == err,
{
    if big_is_even(e) {
        return Err(SolverError::UnsupportedExponent);
    }
    let ghost en = big(*e);
    let one = big_from_u64(1);
    let pk = big_shl(&one, k);
    let (_q0, target) = big_div_rem(b, &pk);
    match big_trailing_zeros(&target) {
        None => {
            let kb = big_from_u64(k as u64);
            let s = big_add(&kb, e);
            let s1 = big_sub(&s, &one);
            let (q, _rz) = big_div_rem(&s1, e);
            proof {
                lemma_div_ceil_le(k as nat, en);
            }
            let ub = big_to_usize(&q).unwrap();
            Ok(HenselSolution { root: big_from_u64(0), unique_bits: ub })
        },
        Some(z) => {
            proof {
                lemma_tz_unique(big(target), z as nat);
                lemma_pow2_divides_bound(big(target), z as nat);
                if z as nat >= k as nat {
                    if z as nat > k as nat {
                        vstd::arithmetic::power2::lemma_pow2_strictly_increases(
                            k as nat,
                            z as nat,
                        );
                    }
                    assert(big(target) < pow2(k as nat)) by {
                        vstd::arithmetic::div_mod::lemma_mod_division_less_than_divisor(
                            big(*b) as int,
                            pow2(k as nat) as int,
                        );
                    }
                    assert(false);
                }
            }
            let t2 = big_shr(&target, z);
            let k2 = k - z;
            let zb = big_from_u64(z as u64);
            let (qz, rz) = big_div_rem(&zb, e);
            if !big_is_zero(&rz) {
                return Err(SolverError::NoRoot);
            }
            proof {
                vstd::arithmetic::div_mod::lemma_div_nonincreasing(z as int, en as int);
            }
            let sol_zeros = big_to_usize(&qz).unwrap();
            let ghost tn = big(t2);
            let mut sol = big_from_u64(1);
            let mut i: usize = 1;
            while i < k2
                invariant
                    1 <= i <= k2,
                    en == big(*e),
                    en % 2 == 1,
                    tn == big(t2),
                    big(one) == 1,
                    big(sol) == lift(en, tn, i as nat),
                decreases k2 - i,
            {
                let ghost sol_prev = big(sol);
                let m = big_shl(&one, i + 1);
                let mp = big_modpow(&sol, e, &m);
                let (_qt, tr) = big_div_rem(&t2, &m);
                let s1 = big_add(&mp, &m);
                let d = big_sub(&s1, &tr);
                let dsh = big_shr(&d, i);
                if !big_is_even(&dsh) {
                    let bit = big_shl(&one, i);
                    sol = big_add(&sol, &bit);
                }
                proof {
                    lemma_pow_n(sol_prev, en);
                    assert(big(sol) == lift_step(en, tn, sol_prev, i as nat));
                    assert(lift(en, tn, (i + 1) as nat) == lift_step(
                        en,
                        tn,
                        lift(en, tn, i as nat),
                        i as nat,
                    ));
                }
                i = i + 1;
            }
            let root = big_shl(&sol, sol_zeros);
            let ub = k2 + sol_zeros;
            Ok(HenselSolution { root, unique_bits: ub })
        },
    }
}

} // verus!
