//! Strict base64 decoding of the request payload.
//!
//! RFC 4648 standard alphabet only: input length must be a multiple of
//! four, at most two trailing pad characters, no pad or foreign byte
//! anywhere else, and the decoded payload may not exceed 65536 bytes.
//! The empty input decodes to the empty payload. The matching encoder is
//! provided so the decoder's acceptance can be exercised and the
//! round-trip law stated.
use vstd::prelude::*;

verus! {

/// The byte cap on a decoded payload.
pub const MAX_PAYLOAD_BYTES: usize = 65536;

/// Why a payload was refused: not well-formed base64, or well-formed but
/// decoding past the payload cap. The two demand different responses.
#[derive(Clone, Copy, Debug, PartialEq, Eq, Structural)]
pub enum DecodeError {
    Malformed,
    TooLarge,
}

/// Membership in the standard base64 alphabet (pad excluded).
pub open spec fn is_b64_byte(c: u8) -> bool {
    ||| 'A' as u8 <= c <= 'Z' as u8
    ||| 'a' as u8 <= c <= 'z' as u8
    ||| '0' as u8 <= c <= '9' as u8
    ||| c == '+' as u8
    ||| c == '/' as u8
}

/// The sextet value of an alphabet byte (0 for a byte outside it).
pub open spec fn b64_val(c: u8) -> int {
    if 'A' as u8 <= c <= 'Z' as u8 {
        c - 'A' as u8
    } else if 'a' as u8 <= c <= 'z' as u8 {
        c - 'a' as u8 + 26
    } else if '0' as u8 <= c <= '9' as u8 {
        c - '0' as u8 + 52
    } else if c == '+' as u8 {
        62
    } else if c == '/' as u8 {
        63
    } else {
        0
    }
}

/// The alphabet byte of a sextet value.
pub open spec fn b64_char_of(v: int) -> u8
    recommends
        0 <= v < 64,
{
    if v < 26 {
        ('A' as u8 + v) as u8
    } else if v < 52 {
        ('a' as u8 + (v - 26)) as u8
    } else if v < 62 {
        ('0' as u8 + (v - 52)) as u8
    } else if v == 62 {
        '+' as u8
    } else {
        '/' as u8
    }
}

/// How many trailing pad bytes the input carries (at most two are ever
/// meaningful; a third is caught as a foreign byte in the prefix).
pub open spec fn b64_pad_count(s: Seq<u8>) -> int {
    if s.len() >= 2 && s[s.len() - 1] == '=' as u8 && s[s.len() - 2] == '=' as u8 {
        2
    } else if s.len() >= 1 && s[s.len() - 1] == '=' as u8 {
        1
    } else {
        0
    }
}

/// Structural validity: length a multiple of four, and every byte before
/// the trailing pad region in the alphabet. This excludes stray pads,
/// more than two pads, and foreign bytes anywhere.
pub open spec fn b64_valid(s: Seq<u8>) -> bool {
    &&& s.len() % 4 == 0
    &&& forall|i: int| 0 <= i < s.len() - b64_pad_count(s) ==> is_b64_byte(#[trigger] s[i])
}

/// The decoded length a valid input promises: three bytes per group,
/// less one per pad byte.
pub open spec fn b64_decoded_len(s: Seq<u8>) -> int {
    s.len() / 4 * 3 - b64_pad_count(s)
}

/// Group-by-group decoding. Only the final group of a valid input can
/// carry pads; a padded group yields one or two bytes, a full group
/// three.
pub open spec fn b64_decode_spec(s: Seq<u8>) -> Seq<u8>
    decreases s.len(),
{
    if s.len() < 4 {
        Seq::empty()
    } else {
        let v0 = b64_val(s[0]);
        let v1 = b64_val(s[1]);
        let v2 = b64_val(s[2]);
        let v3 = b64_val(s[3]);
        if s.len() == 4 && s[3] == '=' as u8 {
            if s[2] == '=' as u8 {
                seq![(v0 * 4 + v1 / 16) as u8]
            } else {
                seq![(v0 * 4 + v1 / 16) as u8, (v1 % 16 * 16 + v2 / 4) as u8]
            }
        } else {
            seq![
                (v0 * 4 + v1 / 16) as u8,
                (v1 % 16 * 16 + v2 / 4) as u8,
                (v2 % 4 * 64 + v3) as u8,
            ] + b64_decode_spec(s.skip(4))
        }
    }
}

/// Canonical encoding: three bytes become four alphabet bytes; a
/// one-byte or two-byte tail is padded out to a full group.
pub open spec fn b64_encode_spec(b: Seq<u8>) -> Seq<u8>
    decreases b.len(),
{
    if b.len() == 0 {
        Seq::empty()
    } else if b.len() == 1 {
        let x = b[0] as int;
        seq![b64_char_of(x / 4), b64_char_of(x % 4 * 16), '=' as u8, '=' as u8]
    } else if b.len() == 2 {
        let x = b[0] as int;
        let y = b[1] as int;
        seq![
            b64_char_of(x / 4),
            b64_char_of(x % 4 * 16 + y / 16),
            b64_char_of(y % 16 * 4),
            '=' as u8,
        ]
    } else {
        let x = b[0] as int;
        let y = b[1] as int;
        let z = b[2] as int;
        seq![
            b64_char_of(x / 4),
            b64_char_of(x % 4 * 16 + y / 16),
            b64_char_of(y % 16 * 4 + z / 64),
            b64_char_of(z % 64),
        ] + b64_encode_spec(b.skip(3))
    }
}

fn is_b64_byte_exec(c: u8) -> (r: bool)
    ensures
        r == is_b64_byte(c),
{
    (65 <= c && c <= 90) || (97 <= c && c <= 122) || (48 <= c && c <= 57) || c == 43 || c == 47
}

fn b64_val_exec(c: u8) -> (r: u8)
    ensures
        r as int == b64_val(c),
        r < 64,
{
    if 65 <= c && c <= 90 {
        c - 65
    } else if 97 <= c && c <= 122 {
        c - 97 + 26
    } else if 48 <= c && c <= 57 {
        c - 48 + 52
    } else if c == 43 {
        62
    } else if c == 47 {
        63
    } else {
        0
    }
}

fn b64_char_of_exec(v: u8) -> (r: u8)
    requires
        v < 64,
    ensures
        r == b64_char_of(v as int),
{
    if v < 26 {
        65 + v
    } else if v < 52 {
        97 + (v - 26)
    } else if v < 62 {
        48 + (v - 52)
    } else if v == 62 {
        43
    } else {
        47
    }
}

/// Decode strict base64 under the payload cap.
///
/// `Ok` exactly on structurally valid input whose decoded length fits the
/// cap; `Malformed` exactly on structurally invalid input; `TooLarge`
/// exactly on valid input decoding past the cap.
pub fn base64_decode(input: &[u8]) -> (r: Result<Vec<u8>, DecodeError>)
    ensures
        r is Ok ==> {
            &&& b64_valid(input@)
            &&& b64_decoded_len(input@) <= MAX_PAYLOAD_BYTES
            &&& r.unwrap()@ == b64_decode_spec(input@)
            &&& r.unwrap()@.len() == b64_decoded_len(input@)
        },
        r == Err::<Vec<u8>, DecodeError>(DecodeError::Malformed) <==> !b64_valid(input@),
        r == Err::<Vec<u8>, DecodeError>(DecodeError::TooLarge) <==> b64_valid(input@)
            && b64_decoded_len(input@) > MAX_PAYLOAD_BYTES,
{
    let n = input.len();
    if n % 4 != 0 {
        return Err(DecodeError::Malformed);
    }
    if n == 0 {
        let out: Vec<u8> = Vec::new();
        return Ok(out);
    }
    let pad: usize = if input[n - 1] == 61 {
        if input[n - 2] == 61 {
            2
        } else {
            1
        }
    } else {
        0
    };
    proof {
        assert(pad == b64_pad_count(input@));
    }
    let mut i: usize = 0;
    while i < n - pad
        invariant
            0 <= i <= n - pad,
            n == input@.len(),
            n % 4 == 0,
            n >= 4,
            pad == b64_pad_count(input@),
            forall|j: int| 0 <= j < i ==> is_b64_byte(#[trigger] input@[j]),
        decreases n - pad - i,
    {
        if !is_b64_byte_exec(input[i]) {
            proof {
                assert(!b64_valid(input@));
            }
            return Err(DecodeError::Malformed);
        }
        i += 1;
    }
    proof {
        assert(b64_valid(input@));
    }
    let decoded_len = n / 4 * 3 - pad;
    if decoded_len > MAX_PAYLOAD_BYTES {
        return Err(DecodeError::TooLarge);
    }
    let groups = n / 4;
    let mut out: Vec<u8> = Vec::new();
    let mut g: usize = 0;
    proof {
        assert(input@.skip(0) =~= input@);
    }
    while g < groups
        invariant
            0 <= g <= groups,
            groups == n / 4,
            n == input@.len(),
            n % 4 == 0,
            n >= 4,
            pad == b64_pad_count(input@),
            pad <= 2,
            b64_valid(input@),
            out@.len() == if g == groups { 3 * g - pad } else { 3 * g },
            b64_decode_spec(input@) == out@ + b64_decode_spec(input@.skip(4 * g)),
        decreases groups - g,
    {
        let base = 4 * g;
        let v0 = b64_val_exec(input[base]);
        let v1 = b64_val_exec(input[base + 1]);
        let v2 = b64_val_exec(input[base + 2]);
        let v3 = b64_val_exec(input[base + 3]);
        let ghost rest = input@.skip(4 * g as int);
        proof {
            assert(rest.len() == n - 4 * g);
            assert(rest[0] == input@[base as int]);
            assert(rest[1] == input@[base + 1]);
            assert(rest[2] == input@[base + 2]);
            assert(rest[3] == input@[base + 3]);
            assert(rest.skip(4) =~= input@.skip(4 * (g + 1)));
        }
        if g == groups - 1 && pad > 0 {
            proof {
                assert(rest.len() == 4);
                assert(input@[n - 1] == rest[3] && input@[n - 2] == rest[2]);
            }
            if pad == 2 {
                out.push(v0 * 4 + v1 / 16);
            } else {
                out.push(v0 * 4 + v1 / 16);
                out.push(v1 % 16 * 16 + v2 / 4);
            }
        } else {
            proof {
                if rest.len() == 4 {
                    assert(g == groups - 1 && pad == 0);
                    assert(rest[3] == input@[n - 1]);
                    assert(rest[3] != '=' as u8);
                }
            }
            out.push(v0 * 4 + v1 / 16);
            out.push(v1 % 16 * 16 + v2 / 4);
            out.push(v2 % 4 * 64 + v3);
        }
        g += 1;
    }
    proof {
        assert(input@.skip(4 * groups as int) =~= Seq::<u8>::empty());
        assert(out@ =~= b64_decode_spec(input@));
    }
    Ok(out)
}

/// Encode bytes as canonical base64 with trailing pads.
pub fn base64_encode(input: &[u8]) -> (r: Vec<u8>)
    ensures
        r@ == b64_encode_spec(input@),
{
    let n = input.len();
    let mut out: Vec<u8> = Vec::new();
    let mut i: usize = 0;
    proof {
        assert(input@.skip(0) =~= input@);
    }
    while n - i >= 3
        invariant
            0 <= i <= n,
            i % 3 == 0,
            n == input@.len(),
            b64_encode_spec(input@) == out@ + b64_encode_spec(input@.skip(i as int)),
        decreases n - i,
    {
        let x = input[i];
        let y = input[i + 1];
        let z = input[i + 2];
        let ghost rest = input@.skip(i as int);
        proof {
            assert(rest.len() >= 3);
            assert(rest[0] == input@[i as int]);
            assert(rest[1] == input@[i + 1]);
            assert(rest[2] == input@[i + 2]);
            assert(rest.skip(3) =~= input@.skip(i + 3));
        }
        out.push(b64_char_of_exec(x / 4));
        out.push(b64_char_of_exec(x % 4 * 16 + y / 16));
        out.push(b64_char_of_exec(y % 16 * 4 + z / 64));
        out.push(b64_char_of_exec(z % 64));
        i += 3;
    }
    let ghost tail = input@.skip(i as int);
    if i == n {
        proof {
            assert(tail =~= Seq::<u8>::empty());
            assert(out@ =~= b64_encode_spec(input@));
        }
    } else if i + 1 == n {
        let x = input[i];
        proof {
            assert(tail.len() == 1);
            assert(tail[0] == input@[i as int]);
        }
        out.push(b64_char_of_exec(x / 4));
        out.push(b64_char_of_exec(x % 4 * 16));
        out.push(61);
        out.push(61);
        proof {
            assert(out@ =~= b64_encode_spec(input@));
        }
    } else {
        let x = input[i];
        let y = input[i + 1];
        proof {
            assert(tail.len() == 2);
            assert(tail[0] == input@[i as int]);
            assert(tail[1] == input@[i + 1]);
        }
        out.push(b64_char_of_exec(x / 4));
        out.push(b64_char_of_exec(x % 4 * 16 + y / 16));
        out.push(b64_char_of_exec(y % 16 * 4));
        out.push(61);
        proof {
            assert(out@ =~= b64_encode_spec(input@));
        }
    }
    out
}

/// An alphabet byte is never the pad byte, and carries a sextet value
/// that the alphabet maps back to it.
proof fn lemma_char_of_val(v: int)
    requires
        0 <= v < 64,
    ensures
        is_b64_byte(b64_char_of(v)),
        b64_char_of(v) != '=' as u8,
        b64_val(b64_char_of(v)) == v,
{
}

/// Round trip: every byte sequence is recovered exactly from its
/// canonical encoding, the encoding is structurally valid, and its
/// promised decoded length is the original length. With a sequence no
/// longer than the payload cap, [`base64_decode`] therefore accepts what
/// [`base64_encode`] produced and returns the original bytes.
#[verifier::rlimit(50)]
pub proof fn lemma_base64_round_trip(b: Seq<u8>)
    ensures
        b64_valid(b64_encode_spec(b)),
        b64_decoded_len(b64_encode_spec(b)) == b.len(),
        b64_decode_spec(b64_encode_spec(b)) == b,
    decreases b.len(),
{
    let e = b64_encode_spec(b);
    if b.len() == 0 {
        assert(b64_decode_spec(e) =~= b);
    } else if b.len() == 1 {
        let x = b[0] as int;
        lemma_char_of_val(x / 4);
        lemma_char_of_val(x % 4 * 16);
        assert(b64_pad_count(e) == 2);
        assert(b64_decode_spec(e) =~= b);
    } else if b.len() == 2 {
        let x = b[0] as int;
        let y = b[1] as int;
        lemma_char_of_val(x / 4);
        lemma_char_of_val(x % 4 * 16 + y / 16);
        lemma_char_of_val(y % 16 * 4);
        assert(b64_pad_count(e) == 1);
        assert((x % 4 * 16 + y / 16) / 16 == x % 4);
        assert((x % 4 * 16 + y / 16) % 16 == y / 16);
        assert(b64_decode_spec(e) =~= b);
    } else {
        let x = b[0] as int;
        let y = b[1] as int;
        let z = b[2] as int;
        lemma_char_of_val(x / 4);
        lemma_char_of_val(x % 4 * 16 + y / 16);
        lemma_char_of_val(y % 16 * 4 + z / 64);
        lemma_char_of_val(z % 64);
        lemma_base64_round_trip(b.skip(3));
        let rest = b64_encode_spec(b.skip(3));
        assert(e.skip(4) =~= rest);
        assert((x % 4 * 16 + y / 16) / 16 == x % 4);
        assert((x % 4 * 16 + y / 16) % 16 == y / 16);
        assert((y % 16 * 4 + z / 64) / 4 == y % 16);
        assert((y % 16 * 4 + z / 64) % 4 == z / 64);
        if b.len() == 3 {
            assert(rest.len() == 0);
            assert(b64_pad_count(e) == 0);
            assert(b64_decode_spec(e) =~= b);
        } else {
            assert(rest.len() >= 4);
            assert(b64_pad_count(e) == b64_pad_count(rest));
            assert(b64_decode_spec(e) =~= seq![b[0], b[1], b[2]] + b64_decode_spec(rest));
            assert(b64_decode_spec(e) =~= b);
        }
    }
}

} // verus!
