//! Byte scanning primitives shared by the framer and the schema parser.
use vstd::prelude::*;

verus! {

/// `needle` stands in `haystack` at offset `i`.
pub open spec fn match_at(haystack: Seq<u8>, needle: Seq<u8>, i: int) -> bool {
    &&& 0 <= i
    &&& i + needle.len() <= haystack.len()
    &&& haystack.subrange(i, i + needle.len()) == needle
}

/// Whether `lit` stands in `body` at offset `at`.
pub(crate) fn bytes_eq_at(body: &[u8], at: usize, lit: &[u8]) -> (r: bool)
    requires
        at <= body@.len(),
    ensures
        r == match_at(body@, lit@, at as int),
{
    let n = body.len();
    let m = lit.len();
    if m > n - at {
        return false;
    }
    let mut i: usize = 0;
    while i < m
        invariant
            0 <= i <= m,
            m == lit@.len(),
            n == body@.len(),
            at + m <= n,
            forall|j: int| 0 <= j < i ==> body@[at + j] == lit@[j],
        decreases m - i,
    {
        if body[at + i] != lit[i] {
            proof {
                assert(body@.subrange(at as int, at + lit@.len())[i as int] == body@[at + i]);
            }
            return false;
        }
        i += 1;
    }
    proof {
        assert(body@.subrange(at as int, at + lit@.len()) =~= lit@);
    }
    true
}

/// The first offset at which `needle` stands in `haystack`, if any.
pub fn memmem(haystack: &[u8], needle: &[u8]) -> (r: Option<usize>)
    ensures
        r matches Some(i) ==> match_at(haystack@, needle@, i as int) && forall|j: int|
            0 <= j < i ==> !match_at(haystack@, needle@, j),
        r is None ==> forall|j: int| !match_at(haystack@, needle@, j),
{
    let n = haystack.len();
    let m = needle.len();
    if m > n {
        return None;
    }
    let limit = n - m;
    let mut i: usize = 0;
    loop
        invariant
            0 <= i <= limit,
            limit == n - m,
            m <= n,
            n == haystack@.len(),
            m == needle@.len(),
            forall|j: int| 0 <= j < i ==> !match_at(haystack@, needle@, j),
        decreases limit - i,
    {
        if bytes_eq_at(haystack, i, needle) {
            return Some(i);
        }
        if i == limit {
            proof {
                assert forall|j: int| !match_at(haystack@, needle@, j) by {
                    if match_at(haystack@, needle@, j) {
                        assert(0 <= j <= limit);
                    }
                }
            }
            return None;
        }
        i += 1;
    }
}

} // verus!
