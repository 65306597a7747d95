//! The literal request schema.
//!
//! Exactly one byte shape is accepted:
//! `{"domain":"<D>","magnitude":<M>,"payload":"<P>"}` with no whitespace,
//! no reordering, no extra fields and no trailing bytes. `<D>` is a
//! non-empty run of ASCII alphanumerics, `_` or `-`; `<M>` is a run of
//! ASCII digits whose value fits an unsigned 64-bit integer; `<P>` is any
//! run of bytes free of `"` (its base64 shape is judged by the decoder,
//! not here). Parsing has a single failure outcome: no partial results.
use vstd::prelude::*;
use vstd::slice::slice_subrange;
use vstd::slice::slice_to_vec;

use crate::scan::bytes_eq_at;

verus! {

/// A fully parsed request: the three raw fields, exactly as they stood
/// between the schema's literal anchors.
pub struct ParsedRequest {
    pub domain: Vec<u8>,
    pub magnitude: u64,
    pub payload_b64: Vec<u8>,
}

/// Bytes allowed in a domain token.
pub open spec fn is_domain_byte(c: u8) -> bool {
    ||| '0' as u8 <= c <= '9' as u8
    ||| 'A' as u8 <= c <= 'Z' as u8
    ||| 'a' as u8 <= c <= 'z' as u8
    ||| c == '_' as u8
    ||| c == '-' as u8
}

pub open spec fn is_digit_byte(c: u8) -> bool {
    '0' as u8 <= c <= '9' as u8
}

/// The decimal value of a digit run.
pub open spec fn digits_val(s: Seq<u8>) -> int
    decreases s.len(),
{
    if s.len() == 0 {
        0
    } else {
        digits_val(s.drop_last()) * 10 + (s.last() - '0' as u8)
    }
}

/// The anchor `{"domain":"`.
pub open spec fn lit_domain() -> Seq<u8> {
    seq![
        '{' as u8,
        '"' as u8,
        'd' as u8,
        'o' as u8,
        'm' as u8,
        'a' as u8,
        'i' as u8,
        'n' as u8,
        '"' as u8,
        ':' as u8,
        '"' as u8,
    ]
}

/// The anchor `","magnitude":`.
pub open spec fn lit_magnitude() -> Seq<u8> {
    seq![
        '"' as u8,
        ',' as u8,
        '"' as u8,
        'm' as u8,
        'a' as u8,
        'g' as u8,
        'n' as u8,
        'i' as u8,
        't' as u8,
        'u' as u8,
        'd' as u8,
        'e' as u8,
        '"' as u8,
        ':' as u8,
    ]
}

/// The anchor `,"payload":"`.
pub open spec fn lit_payload() -> Seq<u8> {
    seq![
        ',' as u8,
        '"' as u8,
        'p' as u8,
        'a' as u8,
        'y' as u8,
        'l' as u8,
        'o' as u8,
        'a' as u8,
        'd' as u8,
        '"' as u8,
        ':' as u8,
        '"' as u8,
    ]
}

/// The closing anchor `"}`.
pub open spec fn lit_end() -> Seq<u8> {
    seq!['"' as u8, '}' as u8]
}

/// The body, split at the given magnitude length: anchors and fields in
/// their exact places, nothing before, between or after them.
pub open spec fn body_shape(
    body: Seq<u8>,
    domain: Seq<u8>,
    magnitude: u64,
    payload: Seq<u8>,
    mlen: int,
) -> bool {
    let dlen = domain.len() as int;
    let plen = payload.len() as int;
    let mstart = 25 + dlen;
    let pstart = mstart + mlen + 12;
    &&& mlen > 0
    &&& body.len() == pstart + plen + 2
    &&& body.subrange(0, 11) == lit_domain()
    &&& body.subrange(11, 11 + dlen) == domain
    &&& body.subrange(11 + dlen, mstart) == lit_magnitude()
    &&& forall|i: int| mstart <= i < mstart + mlen ==> is_digit_byte(#[trigger] body[i])
    &&& digits_val(body.subrange(mstart, mstart + mlen)) == magnitude as int
    &&& body.subrange(mstart + mlen, pstart) == lit_payload()
    &&& body.subrange(pstart, pstart + plen) == payload
    &&& body.subrange(pstart + plen, pstart + plen + 2) == lit_end()
}

/// The literal schema, as a relation between a body and the three fields
/// it carries. For a given body at most one triple (and one digit-run
/// length) satisfies it; `lemma_schema_matches_unique` proves that.
pub open spec fn schema_matches(
    body: Seq<u8>,
    domain: Seq<u8>,
    magnitude: u64,
    payload: Seq<u8>,
) -> bool {
    &&& domain.len() > 0
    &&& forall|i: int| 0 <= i < domain.len() ==> is_domain_byte(#[trigger] domain[i])
    &&& forall|i: int| 0 <= i < payload.len() ==> #[trigger] payload[i] != '"' as u8
    &&& exists|mlen: int| body_shape(body, domain, magnitude, payload, mlen)
}

fn is_domain_byte_exec(c: u8) -> (r: bool)
    ensures
        r == is_domain_byte(c),
{
    (48 <= c && c <= 57) || (65 <= c && c <= 90) || (97 <= c && c <= 122) || c == 95 || c == 45
}

/// Digit runs only grow in value as they extend: a prefix of an all-digit
/// run never exceeds the whole run's value.
pub(crate) proof fn lemma_digits_val_prefix_le(s: Seq<u8>, k: int)
    requires
        0 <= k <= s.len(),
        forall|i: int| 0 <= i < s.len() ==> is_digit_byte(#[trigger] s[i]),
    ensures
        0 <= digits_val(s.subrange(0, k)),
        digits_val(s.subrange(0, k)) <= digits_val(s),
    decreases s.len(),
{
    if k == s.len() {
        assert(s.subrange(0, k) =~= s);
        lemma_digits_val_nonneg(s);
    } else {
        assert(s.drop_last() =~= s.subrange(0, s.len() - 1));
        lemma_digits_val_prefix_le(s.drop_last(), k);
        assert(s.drop_last().subrange(0, k) =~= s.subrange(0, k));
        lemma_digits_val_nonneg(s.drop_last());
    }
}

pub(crate) proof fn lemma_digits_val_nonneg(s: Seq<u8>)
    requires
        forall|i: int| 0 <= i < s.len() ==> is_digit_byte(#[trigger] s[i]),
    ensures
        digits_val(s) >= 0,
    decreases s.len(),
{
    if s.len() > 0 {
        assert(s.drop_last() =~= s.subrange(0, s.len() - 1));
        lemma_digits_val_nonneg(s.drop_last());
    }
}

/// With the first `"` at or after offset 11 found at `dend`, a matching
/// decomposition can only put the domain's end there.
proof fn lemma_pin_domain(
    body: Seq<u8>,
    domain: Seq<u8>,
    magnitude: u64,
    payload: Seq<u8>,
    mlen: int,
    dend: int,
)
    requires
        body_shape(body, domain, magnitude, payload, mlen),
        domain.len() > 0,
        forall|i: int| 0 <= i < domain.len() ==> is_domain_byte(#[trigger] domain[i]),
        11 <= dend < body.len(),
        body[dend] == '"' as u8,
        forall|j: int| 11 <= j < dend ==> #[trigger] body[j] != '"' as u8,
    ensures
        11 + domain.len() == dend,
{
    let dlen = domain.len() as int;
    assert(body[11 + dlen] == lit_magnitude()[0]) by {
        assert(body.subrange(11 + dlen, 25 + dlen)[0] == body[11 + dlen]);
    }
    assert(body[11 + dlen] == '"' as u8);
    if 11 + dlen < dend {
        assert(body[11 + dlen] != '"' as u8);
    } else if 11 + dlen > dend {
        assert(body.subrange(11, 11 + dlen)[dend - 11] == body[dend]);
        assert(is_domain_byte(domain[dend - 11]));
        assert(!is_domain_byte('"' as u8));
    }
}

/// With the domain pinned and the first non-digit after the magnitude
/// anchor found at `mend`, a matching decomposition can only put the
/// magnitude's end there.
proof fn lemma_pin_magnitude(
    body: Seq<u8>,
    domain: Seq<u8>,
    magnitude: u64,
    payload: Seq<u8>,
    mlen: int,
    mend: int,
)
    requires
        body_shape(body, domain, magnitude, payload, mlen),
        25 + domain.len() <= mend <= body.len(),
        forall|j: int| 25 + domain.len() <= j < mend ==> is_digit_byte(#[trigger] body[j]),
        mend == body.len() || !is_digit_byte(body[mend]),
    ensures
        25 + domain.len() + mlen == mend,
{
    let mstart = 25 + domain.len() as int;
    assert(body[mstart + mlen] == lit_payload()[0]) by {
        assert(body.subrange(mstart + mlen, mstart + mlen + 12)[0] == body[mstart + mlen]);
    }
    assert(body[mstart + mlen] == ',' as u8);
    if mstart + mlen < mend {
        assert(is_digit_byte(body[mstart + mlen]));
    } else if mstart + mlen > mend {
        assert(mend < body.len());
        assert(is_digit_byte(body[mend]));
    }
}

/// With domain and magnitude pinned and the first `"` after the payload
/// anchor found at `pend`, a matching decomposition can only put the
/// payload's end there.
proof fn lemma_pin_payload(
    body: Seq<u8>,
    domain: Seq<u8>,
    magnitude: u64,
    payload: Seq<u8>,
    mlen: int,
    pend: int,
)
    requires
        body_shape(body, domain, magnitude, payload, mlen),
        forall|i: int| 0 <= i < payload.len() ==> #[trigger] payload[i] != '"' as u8,
        25 + domain.len() + mlen + 12 <= pend <= body.len(),
        forall|j: int| 25 + domain.len() + mlen + 12 <= j < pend ==> #[trigger] body[j]
            != '"' as u8,
        pend == body.len() || body[pend] == '"' as u8,
    ensures
        25 + domain.len() + mlen + 12 + payload.len() == pend,
{
    let pstart = 25 + domain.len() + mlen + 12;
    let plen = payload.len() as int;
    assert(body[pstart + plen] == lit_end()[0]) by {
        assert(body.subrange(pstart + plen, pstart + plen + 2)[0] == body[pstart + plen]);
    }
    assert(body[pstart + plen] == '"' as u8);
    if pstart + plen < pend {
        assert(body[pstart + plen] != '"' as u8);
    } else if pstart + plen > pend {
        assert(pend < body.len());
        assert(body.subrange(pstart, pstart + plen)[pend - pstart] == body[pend]);
        assert(payload[pend - pstart] != '"' as u8);
    }
}

/// If the scan for the domain's closing `"` runs off the body or meets a
/// byte that is neither a domain byte nor `"`, no decomposition exists.
proof fn lemma_domain_scan_dead_end(body: Seq<u8>, i: int)
    requires
        11 <= i <= body.len(),
        forall|j: int| 11 <= j < i ==> is_domain_byte(#[trigger] body[j]) && body[j] != '"' as u8,
        i == body.len() || (!is_domain_byte(body[i]) && body[i] != '"' as u8),
    ensures
        forall|d: Seq<u8>, m: u64, p: Seq<u8>| !schema_matches(body, d, m, p),
{
    assert forall|d: Seq<u8>, m: u64, p: Seq<u8>| !schema_matches(body, d, m, p) by {
        if schema_matches(body, d, m, p) {
            let mlen = choose|mlen: int| body_shape(body, d, m, p, mlen);
            let dlen = d.len() as int;
            assert(body[11 + dlen] == lit_magnitude()[0]) by {
                assert(body.subrange(11 + dlen, 25 + dlen)[0] == body[11 + dlen]);
            }
            assert(11 + dlen < body.len());
            if 11 + dlen < i {
                assert(body[11 + dlen] != '"' as u8);
            } else if 11 + dlen > i {
                assert(i < body.len());
                assert(body.subrange(11, 11 + dlen)[i - 11] == body[i]);
                assert(is_domain_byte(d[i - 11]));
            } else {
                assert(i < body.len());
                assert(body[i] == '"' as u8);
            }
        }
    }
}

/// Parse a body against the literal schema.
///
/// `Some` is returned exactly on the bodies that match the schema, and
/// carries the unique matching fields; every other body — missing or
/// reordered fields, whitespace, a foreign domain byte, a non-numeric or
/// overflowing magnitude, trailing bytes — yields `None`.
#[verifier::rlimit(50)]
pub fn parse_exact_schema(body: &[u8]) -> (r: Option<ParsedRequest>)
    ensures
        r matches Some(pr) ==> schema_matches(body@, pr.domain@, pr.magnitude, pr.payload_b64@),
        r is None ==> forall|d: Seq<u8>, m: u64, p: Seq<u8>| !schema_matches(body@, d, m, p),
{
    let n = body.len();

    // Anchor `{"domain":"`.
    let l1: [u8; 11] = [123, 34, 100, 111, 109, 97, 105, 110, 34, 58, 34];
    proof {
        assert(l1@ =~= lit_domain());
    }
    if !bytes_eq_at(body, 0, l1.as_slice()) {
        proof {
            assert forall|d: Seq<u8>, m: u64, p: Seq<u8>| !schema_matches(body@, d, m, p) by {
                if schema_matches(body@, d, m, p) {
                    let mlen = choose|mlen: int| body_shape(body@, d, m, p, mlen);
                    assert(body@.len() >= 11);
                }
            }
        }
        return None;
    }

    // Domain token: scan to the first `"`.
    let mut i: usize = 11;
    while i < n && body[i] != 34
        invariant
            11 <= i <= n,
            n == body@.len(),
            forall|j: int| 11 <= j < i ==> is_domain_byte(#[trigger] body@[j]) && body@[j]
                != '"' as u8,
        decreases n - i,
    {
        if !is_domain_byte_exec(body[i]) {
            proof {
                lemma_domain_scan_dead_end(body@, i as int);
            }
            return None;
        }
        i += 1;
    }
    if i == n {
        proof {
            lemma_domain_scan_dead_end(body@, i as int);
        }
        return None;
    }
    let dend = i;

    // The domain must be non-empty, and `","magnitude":` must follow.
    let l2: [u8; 14] = [34, 44, 34, 109, 97, 103, 110, 105, 116, 117, 100, 101, 34, 58];
    proof {
        assert(l2@ =~= lit_magnitude());
    }
    if dend == 11 || !bytes_eq_at(body, dend, l2.as_slice()) {
        proof {
            assert forall|d: Seq<u8>, m: u64, p: Seq<u8>| !schema_matches(body@, d, m, p) by {
                if schema_matches(body@, d, m, p) {
                    let mlen = choose|mlen: int| body_shape(body@, d, m, p, mlen);
                    lemma_pin_domain(body@, d, m, p, mlen, dend as int);
                }
            }
        }
        return None;
    }

    // Magnitude: a non-empty digit run whose value fits u64.
    let ms = dend + 14;
    let mut j = ms;
    let mut mag: u64 = 0;
    proof {
        assert(body@.subrange(ms as int, ms as int) =~= Seq::<u8>::empty());
    }
    while j < n && 48 <= body[j] && body[j] <= 57
        invariant
            ms <= j <= n,
            ms == dend + 14,
            11 < dend,
            dend + 14 <= n,
            n == body@.len(),
            forall|k: int| ms <= k < j ==> is_digit_byte(#[trigger] body@[k]),
            mag as int == digits_val(body@.subrange(ms as int, j as int)),
            forall|k: int| 11 <= k < dend ==> is_domain_byte(#[trigger] body@[k]) && body@[k]
                != '"' as u8,
            body@[dend as int] == '"' as u8,
            body@.subrange(0, 11) == lit_domain(),
            body@.subrange(dend as int, dend + 14) == lit_magnitude(),
        decreases n - j,
    {
        let d = body[j] - 48;
        let ghost run = body@.subrange(ms as int, j as int);
        proof {
            assert(body@.subrange(ms as int, j + 1) =~= run.push(body@[j as int]));
            assert(body@.subrange(ms as int, j + 1).drop_last() =~= run);
        }
        let mag10 = match mag.checked_mul(10) {
            Some(v) => v,
            None => {
                proof {
                    magnitude_overflow_contradiction(body@, dend as int, j as int, mag, d);
                }
                return None;
            },
        };
        mag = match mag10.checked_add(d as u64) {
            Some(v) => v,
            None => {
                proof {
                    magnitude_overflow_contradiction(body@, dend as int, j as int, mag, d);
                }
                return None;
            },
        };
        j += 1;
    }
    if j == ms {
        proof {
            assert forall|d: Seq<u8>, m: u64, p: Seq<u8>| !schema_matches(body@, d, m, p) by {
                if schema_matches(body@, d, m, p) {
                    let mlen = choose|mlen: int| body_shape(body@, d, m, p, mlen);
                    lemma_pin_domain(body@, d, m, p, mlen, dend as int);
                    assert(body@[25 + d.len() as int] == body@.subrange(
                        25 + d.len() as int,
                        25 + d.len() + mlen,
                    )[0]);
                    assert(is_digit_byte(body@[ms as int]));
                }
            }
        }
        return None;
    }

    // `,"payload":"` must follow the digits.
    let l3: [u8; 12] = [44, 34, 112, 97, 121, 108, 111, 97, 100, 34, 58, 34];
    proof {
        assert(l3@ =~= lit_payload());
    }
    if !bytes_eq_at(body, j, l3.as_slice()) {
        proof {
            assert forall|d: Seq<u8>, m: u64, p: Seq<u8>| !schema_matches(body@, d, m, p) by {
                if schema_matches(body@, d, m, p) {
                    let mlen = choose|mlen: int| body_shape(body@, d, m, p, mlen);
                    lemma_pin_domain(body@, d, m, p, mlen, dend as int);
                    lemma_pin_magnitude(body@, d, m, p, mlen, j as int);
                }
            }
        }
        return None;
    }

    // Payload token: scan to the first `"`.
    let ps = j + 12;
    let mut k = ps;
    while k < n && body[k] != 34
        invariant
            ps <= k <= n,
            n == body@.len(),
            forall|t: int| ps <= t < k ==> #[trigger] body@[t] != '"' as u8,
        decreases n - k,
    {
        k += 1;
    }
    if k == n {
        proof {
            assert forall|d: Seq<u8>, m: u64, p: Seq<u8>| !schema_matches(body@, d, m, p) by {
                if schema_matches(body@, d, m, p) {
                    let mlen = choose|mlen: int| body_shape(body@, d, m, p, mlen);
                    lemma_pin_domain(body@, d, m, p, mlen, dend as int);
                    lemma_pin_magnitude(body@, d, m, p, mlen, j as int);
                    lemma_pin_payload(body@, d, m, p, mlen, k as int);
                }
            }
        }
        return None;
    }

    // The exact closing `"}`, and nothing after it.
    let l4: [u8; 2] = [34, 125];
    proof {
        assert(l4@ =~= lit_end());
    }
    if !(n - k == 2 && bytes_eq_at(body, k, l4.as_slice())) {
        proof {
            assert forall|d: Seq<u8>, m: u64, p: Seq<u8>| !schema_matches(body@, d, m, p) by {
                if schema_matches(body@, d, m, p) {
                    let mlen = choose|mlen: int| body_shape(body@, d, m, p, mlen);
                    lemma_pin_domain(body@, d, m, p, mlen, dend as int);
                    lemma_pin_magnitude(body@, d, m, p, mlen, j as int);
                    lemma_pin_payload(body@, d, m, p, mlen, k as int);
                    assert(body@.subrange(k as int, k + 2) == lit_end());
                    assert(body@.len() == k + 2);
                }
            }
        }
        return None;
    }

    let domain = slice_to_vec(slice_subrange(body, 11, dend));
    let payload_b64 = slice_to_vec(slice_subrange(body, ps, k));
    let pr = ParsedRequest { domain, magnitude: mag, payload_b64 };
    proof {
        let dlen = dend - 11;
        let mlen = j - ms;
        assert(body_shape(body@, pr.domain@, pr.magnitude, pr.payload_b64@, mlen as int)) by {
            assert(body@.subrange(11, 11 + dlen as int) =~= pr.domain@);
            assert(body@.subrange(ps as int, k as int) =~= pr.payload_b64@);
            assert(body@.subrange(dend as int, dend + 14) == lit_magnitude());
            assert(body@.subrange(j as int, j + 12) == lit_payload());
            assert(body@.subrange(k as int, k + 2) == lit_end());
        }
        assert forall|t: int| 0 <= t < pr.domain@.len() implies is_domain_byte(
            #[trigger] pr.domain@[t],
        ) by {
            assert(pr.domain@[t] == body@[11 + t]);
        }
        assert forall|t: int| 0 <= t < pr.payload_b64@.len() implies #[trigger] pr.payload_b64@[t]
            != '"' as u8 by {
            assert(pr.payload_b64@[t] == body@[ps + t]);
        }
    }
    Some(pr)
}

/// At the moment the running magnitude value overflows, no decomposition
/// can exist: any matching digit run would extend past this digit and
/// carry a value beyond u64.
proof fn magnitude_overflow_contradiction(body: Seq<u8>, dend: int, j: int, mag: u64, d: u8)
    requires
        11 < dend,
        dend + 14 <= j < body.len(),
        forall|k: int| dend + 14 <= k < j ==> is_digit_byte(#[trigger] body[k]),
        is_digit_byte(body[j]),
        d == body[j] - '0' as u8,
        mag as int == digits_val(body.subrange(dend + 14, j)),
        mag as int * 10 + d > u64::MAX,
        body[dend] == '"' as u8,
        forall|k: int| 11 <= k < dend ==> is_domain_byte(#[trigger] body[k]) && body[k]
            != '"' as u8,
    ensures
        forall|dm: Seq<u8>, m: u64, p: Seq<u8>| !schema_matches(body, dm, m, p),
{
    assert forall|dm: Seq<u8>, m: u64, p: Seq<u8>| !schema_matches(body, dm, m, p) by {
        if schema_matches(body, dm, m, p) {
            let mlen = choose|mlen: int| body_shape(body, dm, m, p, mlen);
            lemma_pin_domain(body, dm, m, p, mlen, dend);
            let mstart = dend + 14;
            let mend = mstart + mlen;
            assert(body[mend] == lit_payload()[0]) by {
                assert(body.subrange(mend, mend + 12)[0] == body[mend]);
            }
            assert(body[mend] == ',' as u8);
            assert(mend > j) by {
                if mend <= j {
                    assert(is_digit_byte(body[mend]));
                }
            }
            let run = body.subrange(mstart, mend);
            assert(forall|t: int| 0 <= t < run.len() ==> is_digit_byte(#[trigger] run[t]));
            lemma_digits_val_prefix_le(run, j + 1 - mstart);
            assert(run.subrange(0, j + 1 - mstart) =~= body.subrange(mstart, j + 1));
            assert(body.subrange(mstart, j + 1).drop_last() =~= body.subrange(mstart, j));
            assert(digits_val(body.subrange(mstart, j + 1)) == mag as int * 10 + d);
            assert(m as int >= mag as int * 10 + d);
        }
    }
}

/// Schema exactness, uniqueness half: a body matches at most one triple
/// of fields. Together with `parse_exact_schema`'s contract this pins the
/// parser's output completely.
pub proof fn lemma_schema_matches_unique(
    body: Seq<u8>,
    d1: Seq<u8>,
    m1: u64,
    p1: Seq<u8>,
    d2: Seq<u8>,
    m2: u64,
    p2: Seq<u8>,
)
    requires
        schema_matches(body, d1, m1, p1),
        schema_matches(body, d2, m2, p2),
    ensures
        d1 == d2,
        m1 == m2,
        p1 == p2,
{
    let mlen1 = choose|mlen: int| body_shape(body, d1, m1, p1, mlen);
    let mlen2 = choose|mlen: int| body_shape(body, d2, m2, p2, mlen);
    let dend = 11 + d1.len() as int;
    assert(body[dend] == lit_magnitude()[0]) by {
        assert(body.subrange(dend, dend + 14)[0] == body[dend]);
    }
    assert forall|t: int| 11 <= t < dend implies is_domain_byte(#[trigger] body[t]) && body[t]
        != '"' as u8 by {
        assert(body.subrange(11, dend)[t - 11] == body[t]);
        assert(is_domain_byte(d1[t - 11]));
    }
    lemma_pin_domain(body, d2, m2, p2, mlen2, dend);
    assert(d1 =~= d2) by {
        assert(body.subrange(11, dend) == d1 && body.subrange(11, dend) == d2);
    }
    let mstart = dend + 14;
    let mend = mstart + mlen1;
    assert(body[mend] == lit_payload()[0]) by {
        assert(body.subrange(mend, mend + 12)[0] == body[mend]);
    }
    assert forall|t: int| mstart <= t < mend implies is_digit_byte(#[trigger] body[t]) by {}
    lemma_pin_magnitude(body, d2, m2, p2, mlen2, mend);
    assert(mlen1 == mlen2);
    assert(m1 == m2) by {
        assert(digits_val(body.subrange(mstart, mend)) == m1 as int);
        assert(digits_val(body.subrange(mstart, mend)) == m2 as int);
    }
    let pstart = mend + 12;
    let pend = pstart + p1.len() as int;
    assert(body[pend] == lit_end()[0]) by {
        assert(body.subrange(pend, pend + 2)[0] == body[pend]);
    }
    assert forall|t: int| pstart <= t < pend implies #[trigger] body[t] != '"' as u8 by {
        assert(body.subrange(pstart, pend)[t - pstart] == body[t]);
        assert(p1[t - pstart] != '"' as u8);
    }
    lemma_pin_payload(body, d2, m2, p2, mlen2, pend);
    assert(p1 =~= p2) by {
        assert(body.subrange(pstart, pend) == p1 && body.subrange(pstart, pend) == p2);
    }
}

} // verus!
