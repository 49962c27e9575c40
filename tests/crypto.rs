use cubix_chain::crypto::{derive_key, generate_address, CubicKey};

const EMPTY_SHA3: &str = "a7ffc6f8bf1ed76651c14756a061d662f580ff4de43b49fa82d80a4b80f8434a";

#[test]
fn test_key_rotation() {
    let seed = [0u8; 32];
    let mut key = CubicKey::new(seed, [1, 0, 0, 0]);
    let k1 = key.next_key();
    let k2 = key.next_key();
    assert_ne!(k1, k2);
}

#[test]
fn key_rotation_cycles_every_three_keys() {
    let mut key = CubicKey::new([7u8; 32], [1, 0, 0, 0]);
    let k1 = key.next_key();
    let _k2 = key.next_key();
    let _k3 = key.next_key();
    let k4 = key.next_key();
    assert_eq!(k1, k4);
    assert_eq!(k1, derive_key(&[7u8; 32], &[1, 0, 0, 0]));
}

#[test]
fn derive_key_of_nothing_is_sha3_of_empty() {
    let k = derive_key(&[], &[]);
    assert_eq!(k.len(), 32);
    let hex: String = k.iter().map(|b| format!("{:02x}", b)).collect();
    assert_eq!(hex, EMPTY_SHA3);
}

#[test]
fn address_is_hex_of_sha3() {
    assert_eq!(generate_address(&[]), EMPTY_SHA3);
    let a = generate_address(b"abc");
    assert_eq!(a, "3a985da74fe225b2045c172d6bd390bd855f086e3e9d525b46bfe24511431532");
}

#[test]
fn key_from_a_longer_seed_uses_its_first_32_bytes() {
    let mut long = vec![5u8; 32];
    long.extend_from_slice(&[9u8; 8]);
    let mut a = CubicKey::from_seed(&long);
    let mut b = CubicKey::new([5u8; 32], [0, 0, 0, 0]);
    assert_eq!(a.next_key(), b.next_key());
}
