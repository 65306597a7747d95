//! Single-shot HTTP framing.
//!
//! One bounded read yields the whole message or nothing: the framer
//! locates the first `Content-Length` header line, bounds its value,
//! finds the first blank line, and slices out exactly that many body
//! bytes. A missing or unusable header, a header value past the reserved
//! margin, a missing blank line, or a declared body running past the
//! buffered bytes each fail closed with a fixed rejection.
use vstd::prelude::*;
use vstd::slice::slice_subrange;
use vstd::slice::slice_to_vec;

use crate::scan::bytes_eq_at;
use crate::scan::match_at;
use crate::scan::memmem;
use crate::schema::digits_val;
use crate::schema::is_digit_byte;
use crate::schema::lemma_digits_val_prefix_le;

verus! {

/// The largest acceptable `Content-Length`: the read buffer less the
/// margin reserved for the header section.
pub const MAX_CONTENT_LENGTH: usize = 15872;

/// Why a buffered message was refused a body.
#[derive(Clone, Copy, Debug, PartialEq, Eq, Structural)]
pub enum FrameError {
    MissingContentLength,
    MissingBody,
}

/// The header name `Content-Length:`.
pub open spec fn cl_name() -> Seq<u8> {
    seq![
        'C' as u8,
        'o' as u8,
        'n' as u8,
        't' as u8,
        'e' as u8,
        'n' as u8,
        't' as u8,
        '-' as u8,
        'L' as u8,
        'e' as u8,
        'n' as u8,
        'g' as u8,
        't' as u8,
        'h' as u8,
        ':' as u8,
    ]
}

/// The blank line separating headers from body.
pub open spec fn header_sep() -> Seq<u8> {
    seq!['\r' as u8, '\n' as u8, '\r' as u8, '\n' as u8]
}

/// Space or horizontal tab, the padding tolerated around a header value.
pub open spec fn is_ws(c: u8) -> bool {
    c == ' ' as u8 || c == '\t' as u8
}

/// A `Content-Length` header line begins at `i`: the start of the buffer
/// or the byte after a line feed, followed by the header name.
pub open spec fn cl_header_at(h: Seq<u8>, i: int) -> bool {
    &&& i == 0 || h[i - 1] == '\n' as u8
    &&& match_at(h, cl_name(), i)
}

/// The first `Content-Length` line of the buffer begins at `i`.
pub open spec fn is_first_cl(h: Seq<u8>, i: int) -> bool {
    &&& cl_header_at(h, i)
    &&& forall|j: int| 0 <= j < i ==> !cl_header_at(h, j)
}

/// The value region of the header line at `i`, split at `a` (first
/// digit), `b` (past the digits) and `e` (the line's end): optional
/// padding, a non-empty digit run of value `v`, optional padding, then
/// the end of the buffer or a line break.
pub open spec fn cl_value_shape(h: Seq<u8>, i: int, v: int, a: int, b: int, e: int) -> bool {
    &&& i + 15 <= a < b <= e <= h.len()
    &&& forall|t: int| i + 15 <= t < a ==> is_ws(#[trigger] h[t])
    &&& forall|t: int| a <= t < b ==> is_digit_byte(#[trigger] h[t])
    &&& forall|t: int| b <= t < e ==> is_ws(#[trigger] h[t])
    &&& e == h.len() || h[e] == '\r' as u8 || h[e] == '\n' as u8
    &&& digits_val(h.subrange(a, b)) == v
}

/// The header line at `i` carries the value `v`.
pub open spec fn cl_line_value(h: Seq<u8>, i: int, v: int) -> bool {
    exists|a: int, b: int, e: int| cl_value_shape(h, i, v, a, b, e)
}

/// A buffer accepts `v` as its content length: its first
/// `Content-Length` line carries `v`, and `v` is within the margin.
pub open spec fn accepted_content_length(buf: Seq<u8>, v: int) -> bool {
    exists|i: int|
        is_first_cl(buf, i) && cl_line_value(buf, i, v) && 0 <= v <= MAX_CONTENT_LENGTH as int
}

/// The first header/body separator of the buffer stands at `pos`.
pub open spec fn first_sep_at(buf: Seq<u8>, pos: int) -> bool {
    &&& match_at(buf, header_sep(), pos)
    &&& forall|j: int| 0 <= j < pos ==> !match_at(buf, header_sep(), j)
}

/// `b` is the body the buffer declares and carries: exactly the accepted
/// content length in bytes, right after the first separator.
pub open spec fn framed_body(buf: Seq<u8>, b: Seq<u8>) -> bool {
    exists|v: int, pos: int|
        {
            &&& accepted_content_length(buf, v)
            &&& first_sep_at(buf, pos)
            &&& pos + 4 + v <= buf.len()
            &&& b == buf.subrange(pos + 4, pos + 4 + v)
        }
}

/// A buffer has at most one first `Content-Length` line.
proof fn lemma_first_cl_unique(h: Seq<u8>, i1: int, i2: int)
    requires
        is_first_cl(h, i1),
        is_first_cl(h, i2),
    ensures
        i1 == i2,
{
    if i1 < i2 {
        assert(!cl_header_at(h, i1));
    } else if i2 < i1 {
        assert(!cl_header_at(h, i2));
    }
}

/// A header line carries at most one value.
proof fn lemma_cl_value_unique(h: Seq<u8>, i: int, v1: int, v2: int)
    requires
        cl_line_value(h, i, v1),
        cl_line_value(h, i, v2),
    ensures
        v1 == v2,
{
    let (a1, b1, e1) = choose|a: int, b: int, e: int| cl_value_shape(h, i, v1, a, b, e);
    let (a2, b2, e2) = choose|a: int, b: int, e: int| cl_value_shape(h, i, v2, a, b, e);
    assert(a1 == a2) by {
        if a1 < a2 {
            assert(is_ws(h[a1]));
            assert(is_digit_byte(h[a1]));
        } else if a2 < a1 {
            assert(is_ws(h[a2]));
            assert(is_digit_byte(h[a2]));
        }
    }
    assert(b1 == b2) by {
        if b1 < b2 {
            assert(is_digit_byte(h[b1]));
            if b1 < e1 {
                assert(is_ws(h[b1]));
            }
        } else if b2 < b1 {
            assert(is_digit_byte(h[b2]));
            if b2 < e2 {
                assert(is_ws(h[b2]));
            }
        }
    }
    assert(h.subrange(a1, b1) == h.subrange(a2, b2));
}

/// A buffer accepts at most one content length.
pub proof fn lemma_accepted_cl_unique(buf: Seq<u8>, v1: int, v2: int)
    requires
        accepted_content_length(buf, v1),
        accepted_content_length(buf, v2),
    ensures
        v1 == v2,
{
    let i1 = choose|i: int|
        is_first_cl(buf, i) && cl_line_value(buf, i, v1) && 0 <= v1 <= MAX_CONTENT_LENGTH as int;
    let i2 = choose|i: int|
        is_first_cl(buf, i) && cl_line_value(buf, i, v2) && 0 <= v2 <= MAX_CONTENT_LENGTH as int;
    lemma_first_cl_unique(buf, i1, i2);
    lemma_cl_value_unique(buf, i1, v1, v2);
}

/// A buffer has at most one first separator.
pub proof fn lemma_first_sep_unique(buf: Seq<u8>, pos1: int, pos2: int)
    requires
        first_sep_at(buf, pos1),
        first_sep_at(buf, pos2),
    ensures
        pos1 == pos2,
{
    if pos1 < pos2 {
        assert(!match_at(buf, header_sep(), pos1));
    } else if pos2 < pos1 {
        assert(!match_at(buf, header_sep(), pos2));
    }
}

/// A buffer frames at most one body.
pub proof fn lemma_framed_body_unique(buf: Seq<u8>, b1: Seq<u8>, b2: Seq<u8>)
    requires
        framed_body(buf, b1),
        framed_body(buf, b2),
    ensures
        b1 == b2,
{
    let (v1, pos1) = choose|v: int, pos: int|
        {
            &&& accepted_content_length(buf, v)
            &&& first_sep_at(buf, pos)
            &&& pos + 4 + v <= buf.len()
            &&& b1 == buf.subrange(pos + 4, pos + 4 + v)
        };
    let (v2, pos2) = choose|v: int, pos: int|
        {
            &&& accepted_content_length(buf, v)
            &&& first_sep_at(buf, pos)
            &&& pos + 4 + v <= buf.len()
            &&& b2 == buf.subrange(pos + 4, pos + 4 + v)
        };
    lemma_accepted_cl_unique(buf, v1, v2);
    lemma_first_sep_unique(buf, pos1, pos2);
}

/// Parse the value of the `Content-Length` line at `p`.
fn parse_cl_value(req: &[u8], p: usize) -> (r: Option<usize>)
    requires
        match_at(req@, cl_name(), p as int),
    ensures
        r matches Some(v) ==> cl_line_value(req@, p as int, v as int),
        r is None ==> forall|v: int| 0 <= v <= usize::MAX ==> !cl_line_value(req@, p as int, v),
{
    let n = req.len();
    let vs = p + 15;
    let mut a = vs;
    while a < n && (req[a] == 32 || req[a] == 9)
        invariant
            p + 15 <= a <= n,
            n == req@.len(),
            forall|t: int| p + 15 <= t < a ==> is_ws(#[trigger] req@[t]),
        decreases n - a,
    {
        a += 1;
    }
    // `a` is the first byte after the padding, if any byte is left.
    let mut b = a;
    let mut val: usize = 0;
    proof {
        assert(req@.subrange(a as int, a as int) =~= Seq::<u8>::empty());
    }
    while b < n && 48 <= req[b] && req[b] <= 57
        invariant
            p + 15 <= a <= b <= n,
            n == req@.len(),
            forall|t: int| p + 15 <= t < a ==> is_ws(#[trigger] req@[t]),
            a == n || !is_ws(req@[a as int]),
            forall|t: int| a <= t < b ==> is_digit_byte(#[trigger] req@[t]),
            val as int == digits_val(req@.subrange(a as int, b as int)),
        decreases n - b,
    {
        let d = req[b] - 48;
        let ghost run = req@.subrange(a as int, b as int);
        proof {
            assert(req@.subrange(a as int, b + 1) =~= run.push(req@[b as int]));
            assert(req@.subrange(a as int, b + 1).drop_last() =~= run);
        }
        let val10 = match val.checked_mul(10) {
            Some(x) => x,
            None => {
                proof {
                    cl_value_overflow(req@, p as int, a as int, b as int, val, d);
                }
                return None;
            },
        };
        val = match val10.checked_add(d as usize) {
            Some(x) => x,
            None => {
                proof {
                    cl_value_overflow(req@, p as int, a as int, b as int, val, d);
                }
                return None;
            },
        };
        b += 1;
    }
    if b == a {
        // No digit where the value must start: no split can exist.
        proof {
            assert forall|v: int| 0 <= v <= usize::MAX implies !cl_line_value(
                req@,
                p as int,
                v,
            ) by {
                if cl_line_value(req@, p as int, v) {
                    let (a1, b1, e1) = choose|x: int, y: int, z: int|
                        cl_value_shape(req@, p as int, v, x, y, z);
                    pin_cl_digit_start(req@, p as int, a as int, v, a1, b1, e1);
                    assert(is_digit_byte(req@[a as int]));
                }
            }
        }
        return None;
    }
    let mut e = b;
    while e < n && (req[e] == 32 || req[e] == 9)
        invariant
            b <= e <= n,
            n == req@.len(),
            forall|t: int| b <= t < e ==> is_ws(#[trigger] req@[t]),
        decreases n - e,
    {
        e += 1;
    }
    if e == n || req[e] == 13 || req[e] == 10 {
        proof {
            assert(cl_value_shape(req@, p as int, val as int, a as int, b as int, e as int));
        }
        Some(val)
    } else {
        // A foreign byte before the line break: no split can exist.
        proof {
            assert forall|v: int| 0 <= v <= usize::MAX implies !cl_line_value(
                req@,
                p as int,
                v,
            ) by {
                if cl_line_value(req@, p as int, v) {
                    let (a1, b1, e1) = choose|x: int, y: int, z: int|
                        cl_value_shape(req@, p as int, v, x, y, z);
                    pin_cl_digit_start(req@, p as int, a as int, v, a1, b1, e1);
                    pin_cl_digit_end(req@, p as int, a as int, b as int, v, b1, e1);
                    if e1 < e {
                        assert(is_ws(req@[e1]));
                    } else if e1 > e {
                        assert(is_ws(req@[e as int]));
                    }
                }
            }
        }
        None
    }
}

/// In any value split of the line at `p`, the digits begin at the first
/// non-padding byte.
proof fn pin_cl_digit_start(h: Seq<u8>, p: int, a: int, v: int, a1: int, b1: int, e1: int)
    requires
        cl_value_shape(h, p, v, a1, b1, e1),
        0 <= p,
        p + 15 <= a <= h.len(),
        forall|t: int| p + 15 <= t < a ==> is_ws(#[trigger] h[t]),
        a == h.len() || !is_ws(h[a]),
    ensures
        a1 == a,
{
    if a1 < a {
        assert(is_ws(h[a1]));
        assert(is_digit_byte(h[a1]));
    } else if a1 > a {
        assert(is_ws(h[a]));
    }
}

/// In any value split of the line at `p`, the digits end at the first
/// non-digit byte.
proof fn pin_cl_digit_end(h: Seq<u8>, p: int, a: int, b: int, v: int, b1: int, e1: int)
    requires
        cl_value_shape(h, p, v, a, b1, e1),
        0 <= a <= b <= h.len(),
        forall|t: int| a <= t < b ==> is_digit_byte(#[trigger] h[t]),
        b == h.len() || !is_digit_byte(h[b]),
    ensures
        b1 == b,
{
    if b1 < b {
        assert(is_digit_byte(h[b1]));
        if b1 < e1 {
            assert(is_ws(h[b1]));
        }
    } else if b1 > b {
        assert(is_digit_byte(h[b]));
    }
}

/// When the running value exceeds the machine range, any value the line
/// could carry exceeds it too.
proof fn cl_value_overflow(h: Seq<u8>, p: int, a: int, b: int, val: usize, d: u8)
    requires
        0 <= p,
        p + 15 <= a <= b < h.len(),
        forall|t: int| p + 15 <= t < a ==> is_ws(#[trigger] h[t]),
        a == h.len() || !is_ws(h[a]),
        forall|t: int| a <= t < b ==> is_digit_byte(#[trigger] h[t]),
        is_digit_byte(h[b]),
        d == h[b] - '0' as u8,
        val as int == digits_val(h.subrange(a, b)),
        val as int * 10 + d > usize::MAX,
    ensures
        forall|v: int| 0 <= v <= usize::MAX ==> !cl_line_value(h, p, v),
{
    assert forall|v: int| 0 <= v <= usize::MAX implies !cl_line_value(h, p, v) by {
        if cl_line_value(h, p, v) {
            let (a1, b1, e1) = choose|x: int, y: int, z: int| cl_value_shape(h, p, v, x, y, z);
            pin_cl_digit_start(h, p, a, v, a1, b1, e1);
            assert(b1 > b) by {
                if b1 <= b {
                    assert(is_digit_byte(h[b1]));
                    if b1 < e1 {
                        assert(is_ws(h[b1]));
                    }
                }
            }
            let run = h.subrange(a, b1);
            assert(forall|t: int| 0 <= t < run.len() ==> is_digit_byte(#[trigger] run[t]));
            lemma_digits_val_prefix_le(run, b + 1 - a);
            assert(run.subrange(0, b + 1 - a) =~= h.subrange(a, b + 1));
            assert(h.subrange(a, b + 1).drop_last() =~= h.subrange(a, b));
            assert(digits_val(h.subrange(a, b + 1)) == val as int * 10 + d);
            assert(v >= val as int * 10 + d);
        }
    }
}

/// Find the buffer's first `Content-Length` line and parse its value.
///
/// `Some` carries the value of the first such line when that line is
/// usable; a buffer without the header, or whose first header line has
/// no parseable in-range value, yields `None`. Later duplicate headers
/// are never consulted.
pub fn parse_content_length(req: &[u8]) -> (r: Option<usize>)
    ensures
        r matches Some(v) ==> exists|i: int|
            is_first_cl(req@, i) && cl_line_value(req@, i, v as int),
        r is None ==> forall|i: int, v: int|
            !(is_first_cl(req@, i) && 0 <= v <= usize::MAX && cl_line_value(req@, i, v)),
{
    let n = req.len();
    let name: [u8; 15] = [67, 111, 110, 116, 101, 110, 116, 45, 76, 101, 110, 103, 116, 104, 58];
    proof {
        assert(name@ =~= cl_name());
    }
    let mut p: usize = 0;
    while p < n
        invariant
            0 <= p <= n,
            n == req@.len(),
            name@ == cl_name(),
            forall|j: int| 0 <= j < p ==> !cl_header_at(req@, j),
        decreases n - p,
    {
        let line_start = p == 0 || req[p - 1] == 10;
        if line_start && bytes_eq_at(req, p, name.as_slice()) {
            let r = parse_cl_value(req, p);
            proof {
                assert(is_first_cl(req@, p as int));
                if r is None {
                    assert forall|i: int, v: int|
                        !(is_first_cl(req@, i) && 0 <= v <= usize::MAX && cl_line_value(
                            req@,
                            i,
                            v,
                        )) by {
                        if is_first_cl(req@, i) && 0 <= v <= usize::MAX && cl_line_value(
                            req@,
                            i,
                            v,
                        ) {
                            lemma_first_cl_unique(req@, i, p as int);
                        }
                    }
                }
            }
            return r;
        }
        proof {
            assert(!cl_header_at(req@, p as int));
        }
        p += 1;
    }
    proof {
        assert forall|i: int, v: int|
            !(is_first_cl(req@, i) && 0 <= v <= usize::MAX && cl_line_value(req@, i, v)) by {
            if is_first_cl(req@, i) {
                assert(match_at(req@, cl_name(), i));
                assert(0 <= i < n);
                assert(!cl_header_at(req@, i));
            }
        }
    }
    None
}

/// Frame the buffered message: bound its declared content length and
/// slice out exactly that many body bytes after the first blank line.
///
/// `MissingContentLength` exactly when the buffer accepts no content
/// length; `MissingBody` exactly when it accepts one but no separator
/// leaves room for that many buffered body bytes; otherwise the body.
pub fn frame_body(buf: &[u8]) -> (r: Result<Vec<u8>, FrameError>)
    ensures
        r matches Ok(b) ==> framed_body(buf@, b@),
        r == Err::<Vec<u8>, FrameError>(FrameError::MissingContentLength) <==> !(exists|v: int|
            accepted_content_length(buf@, v)),
        r == Err::<Vec<u8>, FrameError>(FrameError::MissingBody) <==> exists|v: int|
            accepted_content_length(buf@, v) && (forall|pos: int|
                first_sep_at(buf@, pos) ==> pos + 4 + v > buf@.len()),
{
    let n = buf.len();
    let cl = match parse_content_length(buf) {
        Some(v) => v,
        None => {
            proof {
                assert forall|v: int| !accepted_content_length(buf@, v) by {
                    if accepted_content_length(buf@, v) {
                        let i = choose|i: int|
                            is_first_cl(buf@, i) && cl_line_value(buf@, i, v) && 0 <= v
                                <= MAX_CONTENT_LENGTH as int;
                        assert(!(is_first_cl(buf@, i) && 0 <= v <= usize::MAX && cl_line_value(
                            buf@,
                            i,
                            v,
                        )));
                    }
                }
            }
            return Err(FrameError::MissingContentLength);
        },
    };
    let ghost i0 = choose|i: int| is_first_cl(buf@, i) && cl_line_value(buf@, i, cl as int);
    if cl > MAX_CONTENT_LENGTH {
        proof {
            assert forall|v: int| !accepted_content_length(buf@, v) by {
                if accepted_content_length(buf@, v) {
                    let i = choose|i: int|
                        is_first_cl(buf@, i) && cl_line_value(buf@, i, v) && 0 <= v
                            <= MAX_CONTENT_LENGTH as int;
                    lemma_first_cl_unique(buf@, i, i0);
                    lemma_cl_value_unique(buf@, i0, v, cl as int);
                }
            }
        }
        return Err(FrameError::MissingContentLength);
    }
    proof {
        assert(accepted_content_length(buf@, cl as int));
    }
    let sep: [u8; 4] = [13, 10, 13, 10];
    proof {
        assert(sep@ =~= header_sep());
    }
    let pos = match memmem(buf, sep.as_slice()) {
        Some(pos) => pos,
        None => {
            proof {
                missing_body_case(buf@, cl as int);
            }
            return Err(FrameError::MissingBody);
        },
    };
    proof {
        assert(first_sep_at(buf@, pos as int));
    }
    let body_start = pos + 4;
    if cl > n - body_start {
        proof {
            missing_body_case(buf@, cl as int);
        }
        return Err(FrameError::MissingBody);
    }
    let body = slice_to_vec(slice_subrange(buf, body_start, body_start + cl));
    proof {
        assert(framed_body(buf@, body@));
        not_missing(buf@, cl as int, pos as int);
    }
    Ok(body)
}

/// With an accepted content length in hand, the two `MissingBody`
/// conditions coincide regardless of which length witnesses them.
proof fn missing_body_case(buf: Seq<u8>, cl: int)
    requires
        accepted_content_length(buf, cl),
        forall|pos: int| first_sep_at(buf, pos) ==> pos + 4 + cl > buf.len(),
    ensures
        exists|v: int|
            accepted_content_length(buf, v) && (forall|pos: int|
                first_sep_at(buf, pos) ==> pos + 4 + v > buf.len()),
        !(forall|v: int| !accepted_content_length(buf, v)),
{
}

/// A framed body excludes both rejections.
proof fn not_missing(buf: Seq<u8>, cl: int, pos: int)
    requires
        accepted_content_length(buf, cl),
        first_sep_at(buf, pos),
        pos + 4 + cl <= buf.len(),
    ensures
        !(forall|v: int| !accepted_content_length(buf, v)),
        !(exists|v: int|
            accepted_content_length(buf, v) && (forall|q: int|
                first_sep_at(buf, q) ==> q + 4 + v > buf.len())),
{
    if exists|v: int|
        accepted_content_length(buf, v) && (forall|q: int|
            first_sep_at(buf, q) ==> q + 4 + v > buf.len()) {
        let v = choose|v: int|
            accepted_content_length(buf, v) && (forall|q: int|
                first_sep_at(buf, q) ==> q + 4 + v > buf.len());
        let i1 = choose|i: int|
            is_first_cl(buf, i) && cl_line_value(buf, i, v) && 0 <= v <= MAX_CONTENT_LENGTH as int;
        let i2 = choose|i: int|
            is_first_cl(buf, i) && cl_line_value(buf, i, cl) && 0 <= cl
                <= MAX_CONTENT_LENGTH as int;
        lemma_first_cl_unique(buf, i1, i2);
        lemma_cl_value_unique(buf, i1, v, cl);
        assert(pos + 4 + v > buf.len());
    }
}

} // verus!
