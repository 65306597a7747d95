use slime_core::hash::fnv1a_64;

#[test]
fn fnv1a_64_known_vectors() {
    // The offset basis is the hash of the empty input.
    assert_eq!(fnv1a_64(b""), 0xcbf29ce484222325);
    assert_eq!(fnv1a_64(b"a"), 0xaf63dc4c8601ec8c);
    assert_eq!(fnv1a_64(b"foobar"), 0x85944171f73967e8);
}

#[test]
fn fnv1a_64_is_deterministic() {
    let h1 = fnv1a_64(b"some-domain_01");
    let h2 = fnv1a_64(b"some-domain_01");
    assert_eq!(h1, h2);
    let id1 = fnv1a_64(b"some-domain_01") & 0xFFFF_FFFF;
    let id2 = fnv1a_64(b"some-domain_01") & 0xFFFF_FFFF;
    assert_eq!(id1, id2);
}

#[test]
fn fnv1a_64_distinguishes_nearby_strings() {
    assert_ne!(fnv1a_64(b"test"), fnv1a_64(b"tesu"));
    assert_ne!(fnv1a_64(b"test"), fnv1a_64(b"test "));
}
