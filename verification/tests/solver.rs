use rsa::BigUint;
use small_state_attack::hensel::{hensel_solve, SolverError};

#[test]
fn hensel_solve_zero() {
    let sol = hensel_solve(&BigUint::from(3u32), &BigUint::from(8u32), 3).unwrap();
    assert_eq!(sol.root, BigUint::from(0u32));
    assert_eq!(sol.unique_bits, 1);

    let sol = hensel_solve(&BigUint::from(3u32), &BigUint::from(32u32), 5).unwrap();
    assert_eq!(sol.root, BigUint::from(0u32));
    assert_eq!(sol.unique_bits, 2);

    let sol = hensel_solve(&BigUint::from(3u32), &BigUint::from(64u32), 6).unwrap();
    assert_eq!(sol.root, BigUint::from(0u32));
    assert_eq!(sol.unique_bits, 2);

    let sol = hensel_solve(&BigUint::from(3u32), &BigUint::from(128u32), 7).unwrap();
    assert_eq!(sol.root, BigUint::from(0u32));
    assert_eq!(sol.unique_bits, 3);

    let sol = hensel_solve(&BigUint::from(3u32), &BigUint::from(16u32), 3).unwrap();
    assert_eq!(sol.root, BigUint::from(0u32));
    assert_eq!(sol.unique_bits, 1);
}

#[test]
fn hensel_solve_no_solution() {
    assert!(matches!(
        hensel_solve(&BigUint::from(3u32), &BigUint::from(4u32), 3),
        Err(SolverError::NoRoot)
    ));
    assert!(matches!(
        hensel_solve(&BigUint::from(3u32), &BigUint::from(2u32), 3),
        Err(SolverError::NoRoot)
    ));
    assert!(matches!(
        hensel_solve(&BigUint::from(3u32), &BigUint::from(12u32), 3),
        Err(SolverError::NoRoot)
    ));
    assert!(matches!(
        hensel_solve(&BigUint::from(3u32), &BigUint::from(48u32), 6),
        Err(SolverError::NoRoot)
    ));
}

#[test]
fn hensel_solve_odd() {
    let sol = hensel_solve(&BigUint::from(3u32), &BigUint::from(7u32), 6).unwrap();
    assert_eq!(sol.root, BigUint::from(23u32));
    assert_eq!(sol.unique_bits, 6);

    let sol = hensel_solve(&BigUint::from(1u32), &BigUint::from(7u32), 6).unwrap();
    assert_eq!(sol.root, BigUint::from(7u32));
    assert_eq!(sol.unique_bits, 6);

    let sol = hensel_solve(&BigUint::from(7u32), &BigUint::from(1u32), 6).unwrap();
    assert_eq!(sol.root, BigUint::from(1u32));
    assert_eq!(sol.unique_bits, 6);
}

#[test]
fn hensel_solve_even() {
    let sol = hensel_solve(&BigUint::from(3u32), &BigUint::from(8u32), 6).unwrap();
    assert_eq!(sol.root, BigUint::from(2u32));
    assert_eq!(sol.unique_bits, 4);

    let sol = hensel_solve(&BigUint::from(3u32), &BigUint::from(8u32), 10).unwrap();
    assert_eq!(sol.root, BigUint::from(2u32));
    assert_eq!(sol.unique_bits, 8);

    let sol = hensel_solve(&BigUint::from(3u32), &BigUint::from(192u32), 10).unwrap();
    assert_eq!(sol.root, BigUint::from(44u32));
    assert_eq!(sol.unique_bits, 6);

    let sol = hensel_solve(&BigUint::from(3u32), &BigUint::from(216u32), 10).unwrap();
    assert_eq!(sol.root, BigUint::from(6u32));
    assert_eq!(sol.unique_bits, 8);

    let sol = hensel_solve(&BigUint::from(5u32), &BigUint::from(32u32), 10).unwrap();
    assert_eq!(sol.root, BigUint::from(2u32));
    assert_eq!(sol.unique_bits, 6);

    let sol = hensel_solve(&BigUint::from(5u32), &BigUint::from(736u32), 10).unwrap();
    assert_eq!(sol.root, BigUint::from(46u32));
    assert_eq!(sol.unique_bits, 6);
}

#[test]
fn hensel_solve_even_exponent() {
    assert!(matches!(
        hensel_solve(&BigUint::from(2u32), &BigUint::from(4u32), 6),
        Err(SolverError::UnsupportedExponent)
    ));
    assert!(matches!(
        hensel_solve(&BigUint::from(0u32), &BigUint::from(7u32), 6),
        Err(SolverError::UnsupportedExponent)
    ));
    assert!(matches!(
        hensel_solve(&BigUint::from(4u32), &BigUint::from(0u32), 8),
        Err(SolverError::UnsupportedExponent)
    ));
}

#[test]
fn hensel_solve_zero_budget() {
    // With no bits requested, every target reduces to zero.
    let sol = hensel_solve(&BigUint::from(3u32), &BigUint::from(5u32), 0).unwrap();
    assert_eq!(sol.root, BigUint::from(0u32));
    assert_eq!(sol.unique_bits, 0);
}

#[test]
fn hensel_solve_large_exponent_zero_target() {
    // ceil(k / e) rounds up: e = 5, k = 8 gives 2 unique bits.
    let sol = hensel_solve(&BigUint::from(5u32), &BigUint::from(0u32), 8).unwrap();
    assert_eq!(sol.root, BigUint::from(0u32));
    assert_eq!(sol.unique_bits, 2);
}
