use rsa::BigUint;
use small_state_attack::attack::{
    improved_search, improved_small_state_attack, recover_state, small_state_attack, AttackError,
};
use small_state_attack::hensel::SolverError;
use small_state_attack::msprg::{State, Version};

#[test]
fn basic_recovery_round_trip() {
    // n = 8, e = 3: the basic driver's bound is r = 2, so k = 6. A secret
    // state of at most 2 bits is recovered exactly, and stepping a fresh
    // generator from the recovered state reproduces the observed chunk.
    let modulus = BigUint::from(11u32 * 23);
    let e = BigUint::from(3u32);
    let (k, r) = (6, 2);
    let mut msprg = State::from_parts(
        modulus.clone(),
        e.clone(),
        8,
        k,
        Version::Ms91,
        BigUint::from(3u32),
    )
    .unwrap();
    let b = msprg.next().unwrap();
    let recovered = recover_state(&e, &b, k, r).unwrap();
    assert_eq!(recovered, BigUint::from(3u32));

    let mut replay = State::from_parts(modulus, e, 8, k, Version::Ms91, recovered).unwrap();
    assert_eq!(replay.next().unwrap(), b);
}

#[test]
fn basic_recovery_insufficient_uniqueness() {
    // A zero chunk pins the root on only ceil(k/e) = 2 bits, fewer than the
    // 3 the caller demands.
    let e = BigUint::from(3u32);
    assert_eq!(
        recover_state(&e, &BigUint::from(0u32), 6, 3),
        Err(AttackError::InsufficientUniqueness)
    );
}

#[test]
fn basic_recovery_reports_solver_failure() {
    let e = BigUint::from(3u32);
    assert_eq!(
        recover_state(&e, &BigUint::from(4u32), 3, 1),
        Err(AttackError::Solver(SolverError::NoRoot))
    );
    assert_eq!(
        recover_state(&BigUint::from(2u32), &BigUint::from(4u32), 3, 1),
        Err(AttackError::Solver(SolverError::UnsupportedExponent))
    );
}

#[test]
fn improved_search_recovers_wider_state() {
    // n = 8, e = 3, N = 253: the basic bound is r = 2, so the 3-bit state 7
    // defeats the basic driver; the improved bound with m = 1 is r = 3 with
    // k = 5, and the carry search finds the state at c = 1.
    let modulus = BigUint::from(11u32 * 23);
    let e = BigUint::from(3u32);

    let mut basic_gen = State::from_parts(
        modulus.clone(),
        e.clone(),
        8,
        6,
        Version::Ms91,
        BigUint::from(7u32),
    )
    .unwrap();
    let basic_b = basic_gen.next().unwrap();
    assert_eq!(
        recover_state(&e, &basic_b, 6, 2),
        Err(AttackError::Solver(SolverError::NoRoot))
    );

    let mut improved_gen = State::from_parts(
        modulus.clone(),
        e.clone(),
        8,
        5,
        Version::Ms91,
        BigUint::from(7u32),
    )
    .unwrap();
    let b = improved_gen.next().unwrap();
    assert_eq!(b, BigUint::from(26u32));
    let recovered = improved_search(&e, &b, &modulus, 5, 3, 8).unwrap();
    assert_eq!(recovered, BigUint::from(7u32));
}

#[test]
fn improved_search_exhausts_without_candidate() {
    // A chunk with a single trailing zero bit has no cube root 2-adically,
    // and with an odd modulus every shifted target keeps failing for w = 1.
    let e = BigUint::from(3u32);
    let modulus = BigUint::from(11u32 * 23);
    assert_eq!(
        improved_search(&e, &BigUint::from(2u32), &modulus, 3, 1, 1),
        Err(AttackError::SearchExhausted)
    );
}

#[test]
fn small_state_attack_setup_failure() {
    // The key generator refuses an 8-bit modulus outright: too few primes
    // of 4 bits exist for generation to terminate.
    let e = BigUint::from(3u32);
    assert_eq!(small_state_attack(8, &e), Err(AttackError::Setup));
}

#[test]
fn small_state_attack_end_to_end() {
    // A full run against a freshly generated 256-bit modulus: the recovered
    // state fits the advertised r = 85 bits.
    let e = BigUint::from(3u32);
    let recovered = small_state_attack(256, &e).unwrap();
    assert!(recovered.bits() <= 85);
}

#[test]
fn improved_small_state_attack_end_to_end() {
    // A full run of the widened search against a 64-bit modulus: the bound
    // is r = (63 + 6) / 3 = 23 bits.
    let e = BigUint::from(3u32);
    let recovered = improved_small_state_attack(64, &e, 1).unwrap();
    assert!(recovered.bits() <= 23);
}
