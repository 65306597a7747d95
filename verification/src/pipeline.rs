//! The ingress pipeline: one buffered message in, one outcome out.
//!
//! Frame, parse, decode — in that order, each stage gating the next —
//! and normalize the accepted request for the decision boundary. Every
//! way a message can fail maps to exactly one fixed rejection, and each
//! rejection to one fixed response with an exact `Content-Length`.
use vstd::prelude::*;
use vstd::string::StrSliceExecFns;
use vstd::string::StringSliceAdditionalSpecFns;

use crate::base64::b64_decode_spec;
use crate::base64::b64_decoded_len;
use crate::base64::b64_valid;
use crate::base64::base64_decode;
use crate::base64::DecodeError;
use crate::base64::MAX_PAYLOAD_BYTES;
use crate::decision::ActionRequest;
use crate::framer::accepted_content_length;
use crate::framer::first_sep_at;
use crate::framer::frame_body;
use crate::framer::framed_body;
use crate::framer::lemma_accepted_cl_unique;
use crate::framer::lemma_framed_body_unique;
use crate::framer::FrameError;
use crate::hash::domain_id_spec;
use crate::hash::fnv1a_64;
use crate::schema::lemma_schema_matches_unique;
use crate::schema::parse_exact_schema;
use crate::schema::schema_matches;

verus! {

/// The single failure outcome of each pipeline stage, in pipeline order.
/// `InvalidSchema` and `InvalidPayload` both answer with the invalid
/// schema response; they are kept apart because the stages are.
#[derive(Clone, Copy, Debug, PartialEq, Eq, Structural)]
pub enum Rejection {
    MissingContentLength,
    MissingBody,
    InvalidSchema,
    InvalidPayload,
    PayloadTooLarge,
}

/// What one buffered message amounts to: a fixed rejection, or a
/// normalized action for the decision boundary.
pub enum RequestOutcome {
    Reject(Rejection),
    Action(ActionRequest),
}

/// No field split of the body matches the schema.
pub open spec fn no_schema_match(b: Seq<u8>) -> bool {
    !(exists|d: Seq<u8>, m: u64, p: Seq<u8>| schema_matches(b, d, m, p))
}

/// The body matches the schema but its payload is not well-formed
/// base64.
pub open spec fn has_malformed_payload(b: Seq<u8>) -> bool {
    exists|d: Seq<u8>, m: u64, p: Seq<u8>| schema_matches(b, d, m, p) && !b64_valid(p)
}

/// The body matches the schema with well-formed base64 decoding past the
/// payload cap.
pub open spec fn has_oversized_payload(b: Seq<u8>) -> bool {
    exists|d: Seq<u8>, m: u64, p: Seq<u8>|
        schema_matches(b, d, m, p) && b64_valid(p) && b64_decoded_len(p)
            > MAX_PAYLOAD_BYTES as int
}

/// The body matches the schema and its payload decodes within the cap.
pub open spec fn body_accepted(b: Seq<u8>) -> bool {
    exists|d: Seq<u8>, m: u64, p: Seq<u8>|
        schema_matches(b, d, m, p) && b64_valid(p) && b64_decoded_len(p)
            <= MAX_PAYLOAD_BYTES as int
}

/// The normalized action an accepted body yields: the domain hashed and
/// masked, the magnitude as parsed, the payload decoded.
pub open spec fn action_matches_body(b: Seq<u8>, a: ActionRequest) -> bool {
    exists|d: Seq<u8>, m: u64, p: Seq<u8>|
        {
            &&& schema_matches(b, d, m, p)
            &&& b64_valid(p)
            &&& b64_decoded_len(p) <= MAX_PAYLOAD_BYTES as int
            &&& a.domain_id == domain_id_spec(d)
            &&& a.magnitude == m
            &&& a.payload@ == b64_decode_spec(p)
        }
}

/// The buffer accepts no content length within the margin.
pub open spec fn rejects_missing_content_length(buf: Seq<u8>) -> bool {
    !(exists|v: int| accepted_content_length(buf, v))
}

/// The buffer accepts a content length, but no separator leaves room for
/// that many buffered body bytes.
pub open spec fn rejects_missing_body(buf: Seq<u8>) -> bool {
    exists|v: int|
        accepted_content_length(buf, v) && (forall|pos: int|
            first_sep_at(buf, pos) ==> pos + 4 + v > buf.len())
}

/// The buffer frames a body that matches no schema split.
pub open spec fn frames_unmatched_body(buf: Seq<u8>) -> bool {
    exists|b: Seq<u8>| framed_body(buf, b) && no_schema_match(b)
}

/// The buffer frames a body whose payload is not well-formed base64.
pub open spec fn frames_malformed_payload(buf: Seq<u8>) -> bool {
    exists|b: Seq<u8>| framed_body(buf, b) && has_malformed_payload(b)
}

/// The buffer frames a body whose payload decodes past the cap.
pub open spec fn frames_oversized_payload(buf: Seq<u8>) -> bool {
    exists|b: Seq<u8>| framed_body(buf, b) && has_oversized_payload(b)
}

/// The buffer frames an acceptable body.
pub open spec fn frames_accepted_body(buf: Seq<u8>) -> bool {
    exists|b: Seq<u8>| framed_body(buf, b) && body_accepted(b)
}

/// The action the buffer's framed body yields.
pub open spec fn action_matches_buffer(buf: Seq<u8>, a: ActionRequest) -> bool {
    exists|b: Seq<u8>| framed_body(buf, b) && action_matches_body(b, a)
}

/// Parse an already-framed body and normalize it for the decision
/// boundary.
///
/// `Ok` exactly when the body is acceptable, and then the action's
/// fields are the hash-masked domain, the parsed magnitude and the
/// decoded payload. Each error names the first stage that refused the
/// body: `InvalidSchema` exactly when no field split matches the schema,
/// `InvalidPayload` exactly when the matched payload is not well-formed
/// base64, `PayloadTooLarge` exactly when it is but decodes past the
/// cap.
pub fn parse_request(body: &[u8]) -> (r: Result<ActionRequest, Rejection>)
    ensures
        r matches Ok(a) ==> action_matches_body(body@, a),
        r is Ok <==> body_accepted(body@),
        r == Err::<ActionRequest, Rejection>(Rejection::InvalidSchema) <==> no_schema_match(body@),
        r == Err::<ActionRequest, Rejection>(Rejection::InvalidPayload) <==> has_malformed_payload(
            body@,
        ),
        r == Err::<ActionRequest, Rejection>(Rejection::PayloadTooLarge)
            <==> has_oversized_payload(body@),
{
    let pr = match parse_exact_schema(body) {
        Some(pr) => pr,
        None => {
            return Err(Rejection::InvalidSchema);
        },
    };
    let ghost d0 = pr.domain@;
    let ghost m0 = pr.magnitude;
    let ghost p0 = pr.payload_b64@;
    proof {
        assert forall|d: Seq<u8>, m: u64, p: Seq<u8>|
            schema_matches(body@, d, m, p) implies d == d0 && m == m0 && p == p0 by {
            lemma_schema_matches_unique(body@, d, m, p, d0, m0, p0);
        }
    }
    let payload = match base64_decode(pr.payload_b64.as_slice()) {
        Ok(payload) => payload,
        Err(DecodeError::Malformed) => {
            return Err(Rejection::InvalidPayload);
        },
        Err(DecodeError::TooLarge) => {
            return Err(Rejection::PayloadTooLarge);
        },
    };
    let domain_id = fnv1a_64(pr.domain.as_slice()) & 0xFFFF_FFFF;
    let action = ActionRequest { domain_id, magnitude: pr.magnitude, payload };
    Ok(action)
}

/// A buffer that accepts no content length frames nothing and reaches no
/// later stage.
proof fn lemma_outcome_when_no_accept(buf: Seq<u8>)
    requires
        rejects_missing_content_length(buf),
    ensures
        !rejects_missing_body(buf),
        !frames_unmatched_body(buf),
        !frames_malformed_payload(buf),
        !frames_oversized_payload(buf),
        !frames_accepted_body(buf),
{
    assert forall|b: Seq<u8>| !framed_body(buf, b) by {
        if framed_body(buf, b) {
            let (v, pos) = choose|v: int, pos: int|
                {
                    &&& accepted_content_length(buf, v)
                    &&& first_sep_at(buf, pos)
                    &&& pos + 4 + v <= buf.len()
                    &&& b == buf.subrange(pos + 4, pos + 4 + v)
                };
        }
    }
}

/// A buffer whose accepted content length fits after no separator frames
/// nothing and reaches no later stage.
proof fn lemma_outcome_when_no_fit(buf: Seq<u8>)
    requires
        rejects_missing_body(buf),
    ensures
        !rejects_missing_content_length(buf),
        !frames_unmatched_body(buf),
        !frames_malformed_payload(buf),
        !frames_oversized_payload(buf),
        !frames_accepted_body(buf),
{
    let v0 = choose|v: int|
        accepted_content_length(buf, v) && (forall|pos: int|
            first_sep_at(buf, pos) ==> pos + 4 + v > buf.len());
    assert forall|b: Seq<u8>| !framed_body(buf, b) by {
        if framed_body(buf, b) {
            let (v, pos) = choose|v: int, pos: int|
                {
                    &&& accepted_content_length(buf, v)
                    &&& first_sep_at(buf, pos)
                    &&& pos + 4 + v <= buf.len()
                    &&& b == buf.subrange(pos + 4, pos + 4 + v)
                };
            lemma_accepted_cl_unique(buf, v, v0);
            assert(pos + 4 + v0 > buf.len());
        }
    }
}

/// With the framed body in hand the framing rejections are ruled out,
/// and each buffer-level stage predicate is equivalent to its body-level
/// statement: the buffer frames exactly one body.
proof fn lemma_outcome_when_framed(buf: Seq<u8>, body: Seq<u8>)
    requires
        framed_body(buf, body),
    ensures
        !rejects_missing_content_length(buf),
        !rejects_missing_body(buf),
        frames_unmatched_body(buf) <==> no_schema_match(body),
        frames_malformed_payload(buf) <==> has_malformed_payload(body),
        frames_oversized_payload(buf) <==> has_oversized_payload(body),
        frames_accepted_body(buf) <==> body_accepted(body),
        forall|a: ActionRequest| action_matches_buffer(buf, a) <==> action_matches_body(body, a),
{
    let (v0, pos0) = choose|v: int, pos: int|
        {
            &&& accepted_content_length(buf, v)
            &&& first_sep_at(buf, pos)
            &&& pos + 4 + v <= buf.len()
            &&& body == buf.subrange(pos + 4, pos + 4 + v)
        };
    assert(!rejects_missing_body(buf)) by {
        if rejects_missing_body(buf) {
            let v1 = choose|v: int|
                accepted_content_length(buf, v) && (forall|pos: int|
                    first_sep_at(buf, pos) ==> pos + 4 + v > buf.len());
            lemma_accepted_cl_unique(buf, v0, v1);
            assert(pos0 + 4 + v1 > buf.len());
        }
    }
    assert forall|b: Seq<u8>| framed_body(buf, b) implies b == body by {
        lemma_framed_body_unique(buf, b, body);
    }
}

/// Run the whole ingress pipeline on one buffered message.
///
/// The outcome is `Action` exactly when the buffer frames an acceptable
/// body, and otherwise the rejection of the first stage that refused it,
/// each stated exactly: no content length within the margin, no
/// separator leaving room for the declared body, no schema match, a
/// malformed payload, or an oversized one.
pub fn process_request(buf: &[u8]) -> (r: RequestOutcome)
    ensures
        r matches RequestOutcome::Action(a) ==> action_matches_buffer(buf@, a),
        (r matches RequestOutcome::Action(a2)) <==> frames_accepted_body(buf@),
        r == RequestOutcome::Reject(Rejection::MissingContentLength)
            <==> rejects_missing_content_length(buf@),
        r == RequestOutcome::Reject(Rejection::MissingBody) <==> rejects_missing_body(buf@),
        r == RequestOutcome::Reject(Rejection::InvalidSchema) <==> frames_unmatched_body(buf@),
        r == RequestOutcome::Reject(Rejection::InvalidPayload) <==> frames_malformed_payload(buf@),
        r == RequestOutcome::Reject(Rejection::PayloadTooLarge) <==> frames_oversized_payload(
            buf@,
        ),
{
    let body = match frame_body(buf) {
        Ok(b) => b,
        Err(FrameError::MissingContentLength) => {
            proof {
                lemma_outcome_when_no_accept(buf@);
            }
            return RequestOutcome::Reject(Rejection::MissingContentLength);
        },
        Err(FrameError::MissingBody) => {
            proof {
                lemma_outcome_when_no_fit(buf@);
            }
            return RequestOutcome::Reject(Rejection::MissingBody);
        },
    };
    proof {
        lemma_outcome_when_framed(buf@, body@);
    }
    match parse_request(body.as_slice()) {
        Ok(a) => RequestOutcome::Action(a),
        Err(rej) => RequestOutcome::Reject(rej),
    }
}

/// The fixed response owed to each rejection: the framing failures and
/// the schema and payload failures answer 400, only an oversized decoded
/// payload answers 413.
pub open spec fn rejection_response_spec(rej: Rejection) -> Seq<u8> {
    match rej {
        Rejection::MissingContentLength => {
            "HTTP/1.1 400 Bad Request\r\nContent-Length: 62\r\n\r\n{\"error\":\"invalid_request\",\"message\":\"missing Content-Length\"}".spec_bytes()
        },
        Rejection::MissingBody => {
            "HTTP/1.1 400 Bad Request\r\nContent-Length: 52\r\n\r\n{\"error\":\"invalid_request\",\"message\":\"missing body\"}".spec_bytes()
        },
        Rejection::InvalidSchema => {
            "HTTP/1.1 400 Bad Request\r\nContent-Length: 54\r\n\r\n{\"error\":\"invalid_request\",\"message\":\"invalid schema\"}".spec_bytes()
        },
        Rejection::InvalidPayload => {
            "HTTP/1.1 400 Bad Request\r\nContent-Length: 54\r\n\r\n{\"error\":\"invalid_request\",\"message\":\"invalid schema\"}".spec_bytes()
        },
        Rejection::PayloadTooLarge => {
            "HTTP/1.1 413 Payload Too Large\r\nContent-Length: 61\r\n\r\n{\"error\":\"payload_too_large\",\"message\":\"exceeds 65536 bytes\"}".spec_bytes()
        },
    }
}

/// The fixed response owed to each verdict. Authorization failure is not
/// a protocol failure: both answers are 200.
pub open spec fn verdict_response_spec(authorized: bool) -> Seq<u8> {
    if authorized {
        "HTTP/1.1 200 OK\r\nContent-Length: 23\r\n\r\n{\"status\":\"AUTHORIZED\"}".spec_bytes()
    } else {
        "HTTP/1.1 200 OK\r\nContent-Length: 23\r\n\r\n{\"status\":\"IMPOSSIBLE\"}".spec_bytes()
    }
}

/// Render the fixed response bytes for a rejection.
pub fn rejection_response(rej: Rejection) -> (r: Vec<u8>)
    ensures
        r@ == rejection_response_spec(rej),
{
    match rej {
        Rejection::MissingContentLength => {
            "HTTP/1.1 400 Bad Request\r\nContent-Length: 62\r\n\r\n{\"error\":\"invalid_request\",\"message\":\"missing Content-Length\"}".as_bytes_vec()
        },
        Rejection::MissingBody => {
            "HTTP/1.1 400 Bad Request\r\nContent-Length: 52\r\n\r\n{\"error\":\"invalid_request\",\"message\":\"missing body\"}".as_bytes_vec()
        },
        Rejection::InvalidSchema => {
            "HTTP/1.1 400 Bad Request\r\nContent-Length: 54\r\n\r\n{\"error\":\"invalid_request\",\"message\":\"invalid schema\"}".as_bytes_vec()
        },
        Rejection::InvalidPayload => {
            "HTTP/1.1 400 Bad Request\r\nContent-Length: 54\r\n\r\n{\"error\":\"invalid_request\",\"message\":\"invalid schema\"}".as_bytes_vec()
        },
        Rejection::PayloadTooLarge => {
            "HTTP/1.1 413 Payload Too Large\r\nContent-Length: 61\r\n\r\n{\"error\":\"payload_too_large\",\"message\":\"exceeds 65536 bytes\"}".as_bytes_vec()
        },
    }
}

/// Render the fixed response bytes for a verdict.
pub fn verdict_response(authorized: bool) -> (r: Vec<u8>)
    ensures
        r@ == verdict_response_spec(authorized),
{
    if authorized {
        "HTTP/1.1 200 OK\r\nContent-Length: 23\r\n\r\n{\"status\":\"AUTHORIZED\"}".as_bytes_vec()
    } else {
        "HTTP/1.1 200 OK\r\nContent-Length: 23\r\n\r\n{\"status\":\"IMPOSSIBLE\"}".as_bytes_vec()
    }
}

} // verus!
