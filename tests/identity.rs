use cubix_chain::identity::{
    compute_p_star_s, decode_gf_elements, verify_signature, ExpandedPublicKey, GFElement,
    MayoParams, Message, Signature,
};

fn create_dummy_epk(params_enum: &MayoParams) -> ExpandedPublicKey {
    let params = params_enum.variant();
    ExpandedPublicKey(vec![0u8; params.p1_bytes + params.p2_bytes + params.p3_bytes])
}

fn create_dummy_signature(params_enum: &MayoParams) -> Signature {
    let params = params_enum.variant();
    let s_bytes_len = params_enum.bytes_for_gf16_elements(params.n);
    let mut sig_bytes = vec![0u8; s_bytes_len];
    sig_bytes.extend_from_slice(&vec![0u8; params.salt_bytes]);
    Signature(sig_bytes)
}

#[test]
fn test_verify_signature_flow_mayo1() {
    let params_enum = MayoParams::mayo1();
    let epk = create_dummy_epk(&params_enum);
    let message = Message(b"test message for verify".to_vec());
    let signature = create_dummy_signature(&params_enum);

    let verify_result = verify_signature(&epk, &message, &signature, &params_enum);
    match verify_result {
        Err(e) => assert_eq!(e, "MAYO.Verify math core (compute_p_star_s) not implemented"),
        Ok(_) => panic!("Verify should fail due to placeholder math core"),
    }
}

#[test]
fn test_verify_signature_flow_mayo2() {
    let params_enum = MayoParams::mayo2();
    let epk = create_dummy_epk(&params_enum);
    let message = Message(b"another test message for verify".to_vec());
    let signature = create_dummy_signature(&params_enum);

    let verify_result = verify_signature(&epk, &message, &signature, &params_enum);
    match verify_result {
        Err(e) => assert_eq!(e, "MAYO.Verify math core (compute_p_star_s) not implemented"),
        Ok(_) => panic!("Verify should fail due to placeholder math core"),
    }
}

#[test]
fn test_verify_signature_length_checks() {
    let params_enum = MayoParams::mayo1();
    let epk = create_dummy_epk(&params_enum);
    let message = Message(b"test".to_vec());
    let valid_signature = create_dummy_signature(&params_enum);

    let mut wrong_epk_bytes = epk.0.clone();
    wrong_epk_bytes.pop();
    let wrong_epk = ExpandedPublicKey(wrong_epk_bytes);
    assert_eq!(
        verify_signature(&wrong_epk, &message, &valid_signature, &params_enum),
        Err("Expanded public key has incorrect length")
    );

    let mut wrong_sig_bytes = valid_signature.0.clone();
    wrong_sig_bytes.pop();
    let wrong_sig = Signature(wrong_sig_bytes);
    assert_eq!(
        verify_signature(&epk, &message, &wrong_sig, &params_enum),
        Err("Signature has incorrect length")
    );
}

#[test]
fn key_length_is_checked_before_signature_length() {
    let params_enum = MayoParams::mayo2();
    let epk = ExpandedPublicKey(vec![1u8; 3]);
    let sig = Signature(vec![]);
    assert_eq!(
        verify_signature(&epk, &Message(vec![]), &sig, &params_enum),
        Err("Expanded public key has incorrect length")
    );
}

#[test]
fn parameter_sizes() {
    let first = MayoParams::mayo1().variant();
    assert_eq!((first.n, first.m, first.o, first.salt_bytes), (86, 78, 8, 24));
    assert_eq!(first.p1_bytes + first.p2_bytes + first.p3_bytes, 120159 + 24336 + 1404);
    let second = MayoParams::mayo2().variant();
    assert_eq!((second.n, second.m, second.o), (81, 64, 17));
    assert_eq!(MayoParams::mayo2().bytes_for_gf16_elements(81), 41);
    assert_eq!(MayoParams::mayo1().bytes_for_gf16_elements(86), 43);
}

#[test]
fn decodes_low_half_first() {
    let v = decode_gf_elements(&[0x21, 0x43, 0xff], 0, 5).unwrap();
    assert_eq!(v, vec![GFElement(1), GFElement(2), GFElement(3), GFElement(4), GFElement(15)]);
    let w = decode_gf_elements(&[0x21, 0x43], 1, 2).unwrap();
    assert_eq!(w, vec![GFElement(3), GFElement(4)]);
    assert!(decode_gf_elements(&[0x21], 0, 3).is_err());
    assert!(decode_gf_elements(&[0x21], 2, 0).is_err());
}

#[test]
fn p_star_s_is_not_available() {
    let params = MayoParams::mayo1().variant();
    let r = compute_p_star_s(&vec![], &vec![], &vec![], &vec![], &params);
    assert_eq!(r, Err("compute_p_star_s: Not yet implemented"));
}
