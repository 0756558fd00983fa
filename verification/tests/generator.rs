use rsa::BigUint;
use small_state_attack::msprg::{State, Version};

fn make_state(version: Version) -> State {
    State::from_parts(
        BigUint::from(11u32 * 23),
        BigUint::from(3u32),
        8,
        3,
        version,
        BigUint::from(24u32),
    )
    .unwrap()
}

#[test]
fn next_ms91() {
    let mut msprg = make_state(Version::Ms91);
    assert_eq!(msprg.next(), Some(BigUint::from(2u32)));
    assert_eq!(msprg.next(), Some(BigUint::from(1u32)));
}

#[test]
fn next_iso() {
    let mut msprg = make_state(Version::Iso);
    assert_eq!(msprg.next(), Some(BigUint::from(2u32)));
    assert_eq!(msprg.next(), Some(BigUint::from(5u32)));
}

#[test]
fn modulus() {
    let msprg = make_state(Version::Iso);
    assert_eq!(msprg.modulus(), &BigUint::from(11u32 * 23));
}

#[test]
fn from_parts_rejects_zero_modulus() {
    assert!(State::from_parts(
        BigUint::from(0u32),
        BigUint::from(3u32),
        8,
        3,
        Version::Ms91,
        BigUint::from(1u32),
    )
    .is_none());
}

#[test]
fn new_generator_has_full_size_modulus() {
    // Exercises the RSA key generator and the uniform sampler: the modulus
    // must have exactly the requested bit-length and the sampled state must
    // lie in [1, N >> k].
    let msprg = State::new(128, &BigUint::from(3u32), 100, Version::Ms91).unwrap();
    assert_eq!(msprg.modulus().bits(), 128);
}
