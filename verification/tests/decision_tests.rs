use slime_core::decision::interpret_verdict;
use slime_core::decision::AB_S_Verdict;

#[test]
fn impossible_verdict_yields_nothing() {
    let v = AB_S_Verdict { is_ok: 0, pad: [0; 7], payload: [0; 32] };
    assert!(interpret_verdict(&v).is_none());
}

#[test]
fn impossible_verdict_payload_is_never_read() {
    // Whatever garbage the payload region holds, an impossible verdict
    // yields exactly the same outcome: nothing.
    let clean = AB_S_Verdict { is_ok: 0, pad: [0; 7], payload: [0; 32] };
    let garbage = AB_S_Verdict { is_ok: 0, pad: [7; 7], payload: [0xDE; 32] };
    assert_eq!(interpret_verdict(&clean), interpret_verdict(&garbage));
    assert!(interpret_verdict(&garbage).is_none());
}

#[test]
fn authorized_verdict_is_read_little_endian() {
    let mut payload = [0u8; 32];
    payload[0..8].copy_from_slice(&0x1122334455667788u64.to_le_bytes());
    payload[8..16].copy_from_slice(&0x99AABBCCDDEEFF00u64.to_le_bytes());
    payload[16..32].copy_from_slice(&0x00112233445566778899AABBCCDDEEFFu128.to_le_bytes());
    let v = AB_S_Verdict { is_ok: 1, pad: [0; 7], payload };
    let effect = interpret_verdict(&v).expect("authorized verdict carries an effect");
    assert_eq!(effect.domain_id, 0x1122334455667788);
    assert_eq!(effect.magnitude, 0x99AABBCCDDEEFF00);
    assert_eq!(effect.actuation_token, 0x00112233445566778899AABBCCDDEEFF);
}

#[test]
fn any_nonzero_flag_authorizes() {
    let v = AB_S_Verdict { is_ok: 2, pad: [0; 7], payload: [0; 32] };
    let effect = interpret_verdict(&v).expect("nonzero flag authorizes");
    assert_eq!(effect.domain_id, 0);
    assert_eq!(effect.magnitude, 0);
    assert_eq!(effect.actuation_token, 0);
}
