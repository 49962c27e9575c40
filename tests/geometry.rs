use cubix_chain::consensus::is_leader;
use cubix_chain::geometry::{cube_position, digital_root};

#[test]
fn byte_digital_root_values() {
    assert_eq!(digital_root(&[]), 9);
    assert_eq!(digital_root(&[1, 2, 3]), 6);
    assert_eq!(digital_root(&[9]), 9);
    assert_eq!(digital_root(&[10]), 1);
    assert_eq!(digital_root(&[255, 255]), 6);
}

#[test]
fn cube_position_values() {
    assert_eq!(cube_position(&[4, 5, 6, 7, 0]), (4, 1, 2, 0, 1));
    assert_eq!(cube_position(&[0, 0, 0, 0]), (9, 0, 0, 0, 0));
}

#[test]
fn leader_when_roots_agree() {
    let state = [0u8; 32];
    assert!(is_leader(&[9], &state));
    assert!(is_leader(&[3, 6], &state));
    assert!(!is_leader(&[1], &state));
}

#[test]
fn fresh_network_state() {
    let n = cubix_chain::network::NetworkState::current();
    assert!(n.peers().is_empty());
    assert_eq!(n.chain_height(), 0);
    assert_eq!(cubix_chain::network::generate_proof(), vec![0u8; 32]);
}
