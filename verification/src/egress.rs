//! Egress record framing.
//!
//! An authorized effect crosses to the actuator as exactly 32 bytes,
//! little-endian, with no framing and no acknowledgment: 8 bytes
//! domain_id, 8 bytes magnitude, 16 bytes actuation_token. The channel
//! itself — a local socket established once at boot — lives outside this
//! crate; what is proved here is the record's exact shape.
use vstd::bytes::lemma_auto_spec_u128_to_from_le_bytes;
use vstd::bytes::lemma_auto_spec_u64_to_from_le_bytes;
use vstd::bytes::spec_u128_to_le_bytes;
use vstd::bytes::spec_u64_to_le_bytes;
use vstd::bytes::u128_to_le_bytes;
use vstd::bytes::u64_to_le_bytes;
use vstd::prelude::*;

use crate::decision::AuthorizedEffect;

verus! {

/// The 32-byte little-endian egress record of an effect:
/// `[domain_id:u64][magnitude:u64][actuation_token:u128]`.
pub open spec fn effect_record(e: AuthorizedEffect) -> Seq<u8> {
    spec_u64_to_le_bytes(e.domain_id) + spec_u64_to_le_bytes(e.magnitude)
        + spec_u128_to_le_bytes(e.actuation_token)
}

/// Serialize an effect into its exact 32-byte egress record.
pub fn serialize_effect(e: &AuthorizedEffect) -> (r: Vec<u8>)
    ensures
        r@ == effect_record(*e),
        r@.len() == 32,
{
    proof {
        lemma_auto_spec_u64_to_from_le_bytes();
        lemma_auto_spec_u128_to_from_le_bytes();
    }
    let mut out: Vec<u8> = Vec::new();
    let domain = u64_to_le_bytes(e.domain_id);
    let magnitude = u64_to_le_bytes(e.magnitude);
    let token = u128_to_le_bytes(e.actuation_token);
    out.extend_from_slice(domain.as_slice());
    out.extend_from_slice(magnitude.as_slice());
    out.extend_from_slice(token.as_slice());
    proof {
        assert(out@ =~= effect_record(*e));
    }
    out
}

/// Serialization is injective: distinct effects never produce the same
/// record, so the actuator can attribute every record it reads.
pub proof fn lemma_effect_record_injective(a: AuthorizedEffect, b: AuthorizedEffect)
    requires
        effect_record(a) == effect_record(b),
    ensures
        a == b,
{
    lemma_auto_spec_u64_to_from_le_bytes();
    lemma_auto_spec_u128_to_from_le_bytes();
    assert(effect_record(a).subrange(0, 8) =~= spec_u64_to_le_bytes(a.domain_id));
    assert(effect_record(a).subrange(8, 16) =~= spec_u64_to_le_bytes(a.magnitude));
    assert(effect_record(a).subrange(16, 32) =~= spec_u128_to_le_bytes(a.actuation_token));
    assert(effect_record(b).subrange(0, 8) =~= spec_u64_to_le_bytes(b.domain_id));
    assert(effect_record(b).subrange(8, 16) =~= spec_u64_to_le_bytes(b.magnitude));
    assert(effect_record(b).subrange(16, 32) =~= spec_u128_to_le_bytes(b.actuation_token));
}

} // verus!
