use slime_core::decision::AuthorizedEffect;
use slime_core::egress::serialize_effect;

#[test]
fn egress_record_is_exact_little_endian() {
    let effect = AuthorizedEffect {
        domain_id: 0x1122334455667788,
        magnitude: 0x99AABBCCDDEEFF00,
        actuation_token: 0x00112233445566778899AABBCCDDEEFF,
    };
    let record = serialize_effect(&effect);
    assert_eq!(record.len(), 32);
    let mut expected = Vec::new();
    expected.extend_from_slice(&0x1122334455667788u64.to_le_bytes());
    expected.extend_from_slice(&0x99AABBCCDDEEFF00u64.to_le_bytes());
    expected.extend_from_slice(&0x00112233445566778899AABBCCDDEEFFu128.to_le_bytes());
    assert_eq!(record, expected);
    // Byte-for-byte, without going through std's converters.
    assert_eq!(
        record,
        vec![
            0x88, 0x77, 0x66, 0x55, 0x44, 0x33, 0x22, 0x11, // domain_id
            0x00, 0xFF, 0xEE, 0xDD, 0xCC, 0xBB, 0xAA, 0x99, // magnitude
            0xFF, 0xEE, 0xDD, 0xCC, 0xBB, 0xAA, 0x99, 0x88, // actuation_token
            0x77, 0x66, 0x55, 0x44, 0x33, 0x22, 0x11, 0x00,
        ]
    );
}

#[test]
fn egress_record_is_reproducible() {
    let effect = AuthorizedEffect { domain_id: 5, magnitude: 9, actuation_token: 13 };
    assert_eq!(serialize_effect(&effect), serialize_effect(&effect));
}
