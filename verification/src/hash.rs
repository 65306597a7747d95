//! FNV-1a hashing of domain tokens.
//!
//! A domain string is identified across the decision boundary by the low
//! 32 bits of its 64-bit FNV-1a hash. The hash is a pure function of the
//! bytes: no seeding, no per-process state.
use vstd::prelude::*;

verus! {

/// FNV-1a, 64-bit: fold each byte into the hash with xor, then multiply
/// by the FNV prime modulo 2^64.
pub open spec fn fnv1a_64_spec(data: Seq<u8>) -> u64
    decreases data.len(),
{
    if data.len() == 0 {
        0xcbf29ce484222325u64
    } else {
        (fnv1a_64_spec(data.drop_last()) ^ (data.last() as u64)).wrapping_mul(0x100000001b3u64)
    }
}

/// The low 32 bits of the 64-bit hash: the domain identifier handed to
/// the decision engine.
pub open spec fn domain_id_spec(data: Seq<u8>) -> u64 {
    fnv1a_64_spec(data) & 0xFFFF_FFFFu64
}

pub fn fnv1a_64(data: &[u8]) -> (r: u64)
    ensures
        r == fnv1a_64_spec(data@),
{
    let mut hash: u64 = 0xcbf29ce484222325;
    let mut i: usize = 0;
    while i < data.len()
        invariant
            0 <= i <= data@.len(),
            hash == fnv1a_64_spec(data@.take(i as int)),
        decreases data@.len() - i,
    {
        proof {
            assert(data@.take(i + 1).drop_last() =~= data@.take(i as int));
            assert(data@.take(i + 1).last() == data@[i as int]);
        }
        hash = hash ^ (data[i] as u64);
        hash = hash.wrapping_mul(0x100000001b3);
        i += 1;
    }
    proof {
        assert(data@.take(data@.len() as int) =~= data@);
    }
    hash
}

/// The hash is deterministic: equal byte sequences hash to equal values,
/// in every run and on every machine. There is no seed and no hidden state.
pub proof fn lemma_fnv1a_64_deterministic(a: Seq<u8>, b: Seq<u8>)
    requires
        a == b,
    ensures
        fnv1a_64_spec(a) == fnv1a_64_spec(b),
        domain_id_spec(a) == domain_id_spec(b),
{
}

} // verus!
