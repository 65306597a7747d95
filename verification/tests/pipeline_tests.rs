use slime_core::decision::ActionRequest;
use slime_core::framer::frame_body;
use slime_core::framer::parse_content_length;
use slime_core::framer::FrameError;
use slime_core::hash::fnv1a_64;
use slime_core::pipeline::parse_request;
use slime_core::pipeline::process_request;
use slime_core::pipeline::rejection_response;
use slime_core::pipeline::verdict_response;
use slime_core::pipeline::Rejection;
use slime_core::pipeline::RequestOutcome;
use slime_core::scan::memmem;

fn request_with_body(body: &[u8]) -> Vec<u8> {
    let mut buf = Vec::new();
    buf.extend_from_slice(b"POST / HTTP/1.1\r\nHost: localhost\r\nContent-Length: ");
    buf.extend_from_slice(format!("{}", body.len()).as_bytes());
    buf.extend_from_slice(b"\r\n\r\n");
    buf.extend_from_slice(body);
    buf
}

#[test]
fn memmem_finds_first_occurrence() {
    assert_eq!(memmem(b"abcabc", b"bc"), Some(1));
    assert_eq!(memmem(b"abcabc", b"abc"), Some(0));
    assert_eq!(memmem(b"abc", b""), Some(0));
    assert_eq!(memmem(b"abc", b"d"), None);
    assert_eq!(memmem(b"ab", b"abc"), None);
}

#[test]
fn content_length_header_is_found_and_parsed() {
    assert_eq!(parse_content_length(b"Content-Length: 42\r\n\r\n"), Some(42));
    assert_eq!(parse_content_length(b"POST / HTTP/1.1\r\nContent-Length:7\r\n\r\n"), Some(7));
    assert_eq!(parse_content_length(b"Content-Length: \t 10 \r\n"), Some(10));
    // The first such line decides, even if a later one differs.
    assert_eq!(
        parse_content_length(b"Content-Length: 1\r\nContent-Length: 2\r\n\r\n"),
        Some(1)
    );
}

#[test]
fn content_length_header_rejections() {
    assert_eq!(parse_content_length(b"POST / HTTP/1.1\r\n\r\n"), None);
    assert_eq!(parse_content_length(b"Content-Length: abc\r\n"), None);
    assert_eq!(parse_content_length(b"Content-Length: 1x\r\n"), None);
    assert_eq!(parse_content_length(b"Content-Length:\r\n"), None);
    assert_eq!(parse_content_length(b"Content-Length: 99999999999999999999999\r\n"), None);
    // A mid-line occurrence is not a header.
    assert_eq!(parse_content_length(b"X: Content-Length: 5\r\n"), None);
}

#[test]
fn frame_accepts_content_length_at_the_margin() {
    let body = vec![b'x'; 15872];
    let buf = request_with_body(&body);
    assert_eq!(frame_body(&buf), Ok(body));
}

#[test]
fn frame_rejects_content_length_past_the_margin() {
    let body = vec![b'x'; 15873];
    let buf = request_with_body(&body);
    assert_eq!(frame_body(&buf), Err(FrameError::MissingContentLength));
}

#[test]
fn frame_rejects_missing_separator_or_short_body() {
    assert_eq!(
        frame_body(b"POST / HTTP/1.1\r\nContent-Length: 5\r\nabc"),
        Err(FrameError::MissingBody)
    );
    assert_eq!(
        frame_body(b"POST / HTTP/1.1\r\nContent-Length: 5\r\n\r\nabc"),
        Err(FrameError::MissingBody)
    );
}

#[test]
fn frame_slices_exactly_the_declared_body() {
    let buf = b"POST / HTTP/1.1\r\nContent-Length: 3\r\n\r\nabcdef";
    assert_eq!(frame_body(buf), Ok(b"abc".to_vec()));
}

#[test]
fn parse_request_normalizes_the_action() {
    let body = b"{\"domain\":\"test\",\"magnitude\":10,\"payload\":\"aGVsbG8=\"}";
    let action = parse_request(body).expect("acceptable body");
    assert_eq!(action.domain_id, fnv1a_64(b"test") & 0xFFFF_FFFF);
    assert_eq!(action.magnitude, 10);
    assert_eq!(action.payload, b"hello".to_vec());
}

#[test]
fn parse_request_rejects_by_stage() {
    assert_eq!(parse_request(b"not json"), Err(Rejection::InvalidSchema));
    assert_eq!(
        parse_request(b"{\"domain\":\"t\",\"magnitude\":1,\"payload\":\"!!\"}"),
        Err(Rejection::InvalidPayload)
    );
}

#[test]
fn process_request_end_to_end_accepts() {
    let buf = request_with_body(b"{\"domain\":\"test\",\"magnitude\":10,\"payload\":\"\"}");
    match process_request(&buf) {
        RequestOutcome::Action(ActionRequest { domain_id, magnitude, payload }) => {
            assert_eq!(domain_id, fnv1a_64(b"test") & 0xFFFF_FFFF);
            assert_eq!(magnitude, 10);
            assert_eq!(payload, Vec::<u8>::new());
        },
        RequestOutcome::Reject(rej) => panic!("unexpected rejection {:?}", rej),
    }
}

#[test]
fn process_request_rejects_each_stage() {
    assert!(matches!(
        process_request(b"POST / HTTP/1.1\r\n\r\n"),
        RequestOutcome::Reject(Rejection::MissingContentLength)
    ));
    assert!(matches!(
        process_request(b"POST / HTTP/1.1\r\nContent-Length: 5\r\n\r\nab"),
        RequestOutcome::Reject(Rejection::MissingBody)
    ));
    let buf = request_with_body(b"{\"magnitude\":10}");
    assert!(matches!(
        process_request(&buf),
        RequestOutcome::Reject(Rejection::InvalidSchema)
    ));
    let buf = request_with_body(b"{\"domain\":\"t\",\"magnitude\":1,\"payload\":\"A\"}");
    assert!(matches!(
        process_request(&buf),
        RequestOutcome::Reject(Rejection::InvalidPayload)
    ));
}

#[test]
fn payload_cap_is_enforced_end_to_end() {
    // A payload of exactly 65536 decoded bytes is accepted; one more
    // byte is refused. A body this large exceeds the framer's margin, so
    // the cap is exercised at the parse stage, where it is enforced.
    let under = slime_core::base64::base64_encode(&vec![0u8; 65536]);
    let mut body = b"{\"domain\":\"t\",\"magnitude\":1,\"payload\":\"".to_vec();
    body.extend_from_slice(&under);
    body.extend_from_slice(b"\"}");
    let action = parse_request(&body).expect("payload of exactly 65536 bytes is accepted");
    assert_eq!(action.payload.len(), 65536);

    let over = slime_core::base64::base64_encode(&vec![0u8; 65537]);
    let mut body = b"{\"domain\":\"t\",\"magnitude\":1,\"payload\":\"".to_vec();
    body.extend_from_slice(&over);
    body.extend_from_slice(b"\"}");
    assert_eq!(parse_request(&body), Err(Rejection::PayloadTooLarge));
}

#[test]
fn rejection_responses_are_fixed_literals() {
    assert_eq!(
        rejection_response(Rejection::MissingContentLength),
        b"HTTP/1.1 400 Bad Request\r\nContent-Length: 62\r\n\r\n{\"error\":\"invalid_request\",\"message\":\"missing Content-Length\"}".to_vec()
    );
    assert_eq!(
        rejection_response(Rejection::MissingBody),
        b"HTTP/1.1 400 Bad Request\r\nContent-Length: 52\r\n\r\n{\"error\":\"invalid_request\",\"message\":\"missing body\"}".to_vec()
    );
    assert_eq!(
        rejection_response(Rejection::InvalidSchema),
        b"HTTP/1.1 400 Bad Request\r\nContent-Length: 54\r\n\r\n{\"error\":\"invalid_request\",\"message\":\"invalid schema\"}".to_vec()
    );
    assert_eq!(
        rejection_response(Rejection::InvalidPayload),
        rejection_response(Rejection::InvalidSchema)
    );
    assert_eq!(
        rejection_response(Rejection::PayloadTooLarge),
        b"HTTP/1.1 413 Payload Too Large\r\nContent-Length: 61\r\n\r\n{\"error\":\"payload_too_large\",\"message\":\"exceeds 65536 bytes\"}".to_vec()
    );
}

#[test]
fn verdict_responses_are_fixed_literals() {
    assert_eq!(
        verdict_response(true),
        b"HTTP/1.1 200 OK\r\nContent-Length: 23\r\n\r\n{\"status\":\"AUTHORIZED\"}".to_vec()
    );
    assert_eq!(
        verdict_response(false),
        b"HTTP/1.1 200 OK\r\nContent-Length: 23\r\n\r\n{\"status\":\"IMPOSSIBLE\"}".to_vec()
    );
}
