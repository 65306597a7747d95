//! The decision boundary: fixed-layout values exchanged with the external
//! authorization engine, and the one rule that governs reading a verdict.
//!
//! The engine takes a normalized action and answers with a flag and a
//! 32-byte payload region. The payload region carries a valid
//! [`AuthorizedEffect`] if and only if the flag says authorized; when the
//! flag says otherwise, the region is never read or interpreted here.
use vstd::bytes::spec_u128_from_le_bytes;
use vstd::bytes::spec_u64_from_le_bytes;
use vstd::bytes::u128_from_le_bytes;
use vstd::bytes::u64_from_le_bytes;
use vstd::prelude::*;
use vstd::slice::slice_subrange;

verus! {

/// A normalized action, the value handed across the decision boundary:
/// the masked 32-bit domain identifier (carried widened in a u64), the
/// request's magnitude, and the decoded payload bytes.
#[derive(Debug, PartialEq, Eq)]
pub struct ActionRequest {
    pub domain_id: u64,
    pub magnitude: u64,
    pub payload: Vec<u8>,
}

/// An engine-minted effect, bound for the actuator: two 64-bit fields and
/// an opaque 128-bit actuation token that this perimeter forwards without
/// ever interpreting.
#[derive(Clone, Copy, Debug, PartialEq, Eq, Structural)]
pub struct AuthorizedEffect {
    pub domain_id: u64,
    pub magnitude: u64,
    pub actuation_token: u128,
}

/// The verdict as it crosses the boundary: a flag byte (0 means the action
/// is impossible, anything else means authorized), alignment padding, and
/// a 32-byte payload region that is meaningful only when authorized.
#[allow(non_camel_case_types)]
#[derive(Clone, Copy)]
pub struct AB_S_Verdict {
    pub is_ok: u8,
    pub pad: [u8; 7],
    pub payload: [u8; 32],
}

/// The effect stored little-endian in a verdict's 32-byte payload region:
/// domain_id in bytes 0..8, magnitude in 8..16, actuation_token in 16..32.
pub open spec fn effect_of_payload(payload: Seq<u8>) -> AuthorizedEffect
    recommends
        payload.len() == 32,
{
    AuthorizedEffect {
        domain_id: spec_u64_from_le_bytes(payload.subrange(0, 8)),
        magnitude: spec_u64_from_le_bytes(payload.subrange(8, 16)),
        actuation_token: spec_u128_from_le_bytes(payload.subrange(16, 32)),
    }
}

/// What reading a verdict yields: the payload's effect when the flag says
/// authorized, nothing at all otherwise.
pub open spec fn verdict_effect(v: AB_S_Verdict) -> Option<AuthorizedEffect> {
    if v.is_ok == 0 {
        None
    } else {
        Some(effect_of_payload(v.payload@))
    }
}

/// Materialize a verdict's payload as a typed effect, but only when the
/// flag authorizes it; an impossible verdict yields `None` and its payload
/// region is not touched.
pub fn interpret_verdict(v: &AB_S_Verdict) -> (r: Option<AuthorizedEffect>)
    ensures
        r == verdict_effect(*v),
{
    if v.is_ok == 0 {
        None
    } else {
        let payload: &[u8] = v.payload.as_slice();
        let effect = AuthorizedEffect {
            domain_id: u64_from_le_bytes(slice_subrange(payload, 0, 8)),
            magnitude: u64_from_le_bytes(slice_subrange(payload, 8, 16)),
            actuation_token: u128_from_le_bytes(slice_subrange(payload, 16, 32)),
        };
        Some(effect)
    }
}

/// Payload discipline: an impossible verdict's payload bytes never reach
/// the outcome. Two impossible verdicts with arbitrary, distinct payload
/// regions are indistinguishable to the rest of the pipeline.
pub proof fn lemma_impossible_payload_never_read(v1: AB_S_Verdict, v2: AB_S_Verdict)
    requires
        v1.is_ok == 0,
        v2.is_ok == 0,
    ensures
        verdict_effect(v1) == verdict_effect(v2),
        verdict_effect(v1) is None,
{
}

} // verus!
