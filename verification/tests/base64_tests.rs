use slime_core::base64::base64_decode;
use slime_core::base64::base64_encode;
use slime_core::base64::DecodeError;

#[test]
fn decode_empty_is_empty() {
    assert_eq!(base64_decode(b""), Ok(Vec::new()));
}

#[test]
fn decode_known_vectors() {
    assert_eq!(base64_decode(b"aGVsbG8="), Ok(b"hello".to_vec()));
    assert_eq!(base64_decode(b"QQ=="), Ok(b"A".to_vec()));
    assert_eq!(base64_decode(b"QUI="), Ok(b"AB".to_vec()));
    assert_eq!(base64_decode(b"QUJD"), Ok(b"ABC".to_vec()));
    assert_eq!(base64_decode(b"+/+/"), Ok(vec![0xFB, 0xFF, 0xBF]));
}

#[test]
fn encode_known_vectors() {
    assert_eq!(base64_encode(b""), Vec::<u8>::new());
    assert_eq!(base64_encode(b"hello"), b"aGVsbG8=".to_vec());
    assert_eq!(base64_encode(b"A"), b"QQ==".to_vec());
    assert_eq!(base64_encode(b"AB"), b"QUI=".to_vec());
    assert_eq!(base64_encode(b"ABC"), b"QUJD".to_vec());
}

#[test]
fn decode_rejects_bad_length() {
    assert_eq!(base64_decode(b"A"), Err(DecodeError::Malformed));
    assert_eq!(base64_decode(b"AA"), Err(DecodeError::Malformed));
    assert_eq!(base64_decode(b"AAA"), Err(DecodeError::Malformed));
    assert_eq!(base64_decode(b"AAAAA"), Err(DecodeError::Malformed));
}

#[test]
fn decode_rejects_bad_padding() {
    // More than two trailing pads.
    assert_eq!(base64_decode(b"A==="), Err(DecodeError::Malformed));
    assert_eq!(base64_decode(b"===="), Err(DecodeError::Malformed));
    // A stray pad before the end.
    assert_eq!(base64_decode(b"A=AA"), Err(DecodeError::Malformed));
    assert_eq!(base64_decode(b"=AAA"), Err(DecodeError::Malformed));
    assert_eq!(base64_decode(b"AA=A"), Err(DecodeError::Malformed));
    assert_eq!(base64_decode(b"AAAA====AAAA"), Err(DecodeError::Malformed));
}

#[test]
fn decode_rejects_foreign_bytes() {
    assert_eq!(base64_decode(b"AAA!"), Err(DecodeError::Malformed));
    assert_eq!(base64_decode(b"AA A"), Err(DecodeError::Malformed));
    assert_eq!(base64_decode(b"AAA\n"), Err(DecodeError::Malformed));
    // URL-safe alphabet bytes are foreign to the standard alphabet.
    assert_eq!(base64_decode(b"AA-_"), Err(DecodeError::Malformed));
    assert_eq!(base64_decode(&[0xFF, 0xFF, 0xFF, 0xFF]), Err(DecodeError::Malformed));
}

#[test]
fn round_trip_small_inputs() {
    let cases: Vec<Vec<u8>> = vec![
        vec![],
        vec![0],
        vec![255],
        vec![1, 2],
        vec![1, 2, 3],
        vec![1, 2, 3, 4],
        b"The quick brown fox jumps over the lazy dog".to_vec(),
        (0u16..=255).map(|b| b as u8).collect(),
    ];
    for bytes in cases {
        assert_eq!(base64_decode(&base64_encode(&bytes)), Ok(bytes));
    }
}

#[test]
fn round_trip_at_the_cap() {
    let bytes = vec![0xA5u8; 65536];
    let encoded = base64_encode(&bytes);
    assert_eq!(base64_decode(&encoded), Ok(bytes));
}

#[test]
fn decode_rejects_one_past_the_cap() {
    let bytes = vec![0u8; 65537];
    let encoded = base64_encode(&bytes);
    assert_eq!(base64_decode(&encoded), Err(DecodeError::TooLarge));
}
