use slime_core::schema::parse_exact_schema;

#[test]
fn exact_schema_accepts_canonical_request() {
    let body = b"{\"domain\":\"test\",\"magnitude\":10,\"payload\":\"\"}";
    let pr = parse_exact_schema(body).expect("canonical body must parse");
    assert_eq!(pr.domain, b"test".to_vec());
    assert_eq!(pr.magnitude, 10);
    assert_eq!(pr.payload_b64, Vec::<u8>::new());
}

#[test]
fn exact_schema_accepts_all_domain_byte_classes() {
    let body = b"{\"domain\":\"Az0_-\",\"magnitude\":18446744073709551615,\"payload\":\"QQ==\"}";
    let pr = parse_exact_schema(body).expect("body must parse");
    assert_eq!(pr.domain, b"Az0_-".to_vec());
    assert_eq!(pr.magnitude, u64::MAX);
    assert_eq!(pr.payload_b64, b"QQ==".to_vec());
}

#[test]
fn exact_schema_rejects_missing_field() {
    assert!(parse_exact_schema(b"{\"domain\":\"test\",\"magnitude\":10}").is_none());
    assert!(parse_exact_schema(b"{\"domain\":\"test\",\"payload\":\"\"}").is_none());
    assert!(parse_exact_schema(b"{\"magnitude\":10,\"payload\":\"\"}").is_none());
    assert!(parse_exact_schema(b"{}").is_none());
    assert!(parse_exact_schema(b"").is_none());
}

#[test]
fn exact_schema_rejects_reordered_fields() {
    let body = b"{\"magnitude\":10,\"domain\":\"test\",\"payload\":\"\"}";
    assert!(parse_exact_schema(body).is_none());
    let body = b"{\"domain\":\"test\",\"payload\":\"\",\"magnitude\":10}";
    assert!(parse_exact_schema(body).is_none());
}

#[test]
fn exact_schema_rejects_whitespace() {
    let body = b"{\"domain\": \"test\",\"magnitude\":10,\"payload\":\"\"}";
    assert!(parse_exact_schema(body).is_none());
    let body = b"{ \"domain\":\"test\",\"magnitude\":10,\"payload\":\"\" }";
    assert!(parse_exact_schema(body).is_none());
    let body = b"{\"domain\":\"test\", \"magnitude\":10,\"payload\":\"\"}";
    assert!(parse_exact_schema(body).is_none());
}

#[test]
fn exact_schema_rejects_trailing_bytes() {
    let body = b"{\"domain\":\"test\",\"magnitude\":10,\"payload\":\"\"} ";
    assert!(parse_exact_schema(body).is_none());
    let body = b"{\"domain\":\"test\",\"magnitude\":10,\"payload\":\"\"}x";
    assert!(parse_exact_schema(body).is_none());
    let body = b"{\"domain\":\"test\",\"magnitude\":10,\"payload\":\"\"}\r\n";
    assert!(parse_exact_schema(body).is_none());
}

#[test]
fn exact_schema_rejects_bad_domain() {
    // Empty, foreign ASCII, and non-ASCII domain bytes.
    assert!(parse_exact_schema(b"{\"domain\":\"\",\"magnitude\":10,\"payload\":\"\"}").is_none());
    assert!(
        parse_exact_schema(b"{\"domain\":\"a b\",\"magnitude\":10,\"payload\":\"\"}").is_none()
    );
    assert!(
        parse_exact_schema(b"{\"domain\":\"a.b\",\"magnitude\":10,\"payload\":\"\"}").is_none()
    );
    let mut body = b"{\"domain\":\"a".to_vec();
    body.push(0xC3);
    body.push(0xA9);
    body.extend_from_slice(b"\",\"magnitude\":10,\"payload\":\"\"}");
    assert!(parse_exact_schema(&body).is_none());
}

#[test]
fn exact_schema_rejects_bad_magnitude() {
    assert!(
        parse_exact_schema(b"{\"domain\":\"t\",\"magnitude\":,\"payload\":\"\"}").is_none()
    );
    assert!(
        parse_exact_schema(b"{\"domain\":\"t\",\"magnitude\":1a,\"payload\":\"\"}").is_none()
    );
    assert!(
        parse_exact_schema(b"{\"domain\":\"t\",\"magnitude\":-1,\"payload\":\"\"}").is_none()
    );
    assert!(
        parse_exact_schema(b"{\"domain\":\"t\",\"magnitude\":1.5,\"payload\":\"\"}").is_none()
    );
    // One past u64::MAX overflows and must fail.
    let body = b"{\"domain\":\"t\",\"magnitude\":18446744073709551616,\"payload\":\"\"}";
    assert!(parse_exact_schema(body).is_none());
}

#[test]
fn exact_schema_accepts_leading_zero_magnitude() {
    let pr = parse_exact_schema(b"{\"domain\":\"t\",\"magnitude\":007,\"payload\":\"\"}")
        .expect("digit run with leading zeros parses");
    assert_eq!(pr.magnitude, 7);
}

#[test]
fn exact_schema_payload_is_raw_token() {
    // The parser takes any quote-free run; base64 validity is judged later.
    let pr = parse_exact_schema(b"{\"domain\":\"t\",\"magnitude\":1,\"payload\":\"!!\"}")
        .expect("quote-free payload token parses");
    assert_eq!(pr.payload_b64, b"!!".to_vec());
    // A quote inside the payload breaks the shape.
    assert!(
        parse_exact_schema(b"{\"domain\":\"t\",\"magnitude\":1,\"payload\":\"a\"b\"}").is_none()
    );
}
