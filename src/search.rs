//! Literal search over byte sequences.
use vstd::prelude::*;
use vstd::string::StringSliceAdditionalSpecFns;

verus! {

/// `pat` occurs in `hay` starting at index `i`.
pub open spec fn occurs_at(hay: Seq<u8>, pat: Seq<u8>, i: int) -> bool {
    0 <= i && i + pat.len() <= hay.len() && hay.subrange(i, i + pat.len()) == pat
}

/// `i` is the first index at or after `from` where `pat` occurs in `hay`.
pub open spec fn first_from(hay: Seq<u8>, pat: Seq<u8>, from: int, i: int) -> bool {
    from <= i && occurs_at(hay, pat, i) && forall|k: int| from <= k < i ==> !occurs_at(hay, pat, k)
}

/// `pat` occurs nowhere in `hay` at or after `from`.
pub open spec fn absent_from(hay: Seq<u8>, pat: Seq<u8>, from: int) -> bool {
    forall|k: int| from <= k ==> !occurs_at(hay, pat, k)
}

/// `j` is the last index where `pat` occurs in `hay`.
pub open spec fn last_at(hay: Seq<u8>, pat: Seq<u8>, j: int) -> bool {
    occurs_at(hay, pat, j) && forall|k: int| j < k ==> !occurs_at(hay, pat, k)
}

/// There is at most one first occurrence.
pub proof fn lemma_first_unique(hay: Seq<u8>, pat: Seq<u8>, from: int, a: int, b: int)
    requires
        first_from(hay, pat, from, a),
        first_from(hay, pat, from, b),
    ensures
        a == b,
{
}

/// There is at most one last occurrence.
pub proof fn lemma_last_unique(hay: Seq<u8>, pat: Seq<u8>, a: int, b: int)
    requires
        last_at(hay, pat, a),
        last_at(hay, pat, b),
    ensures
        a == b,
{
}

/// An occurrence in a suffix is an occurrence in the whole, shifted by the
/// suffix's start.
pub proof fn lemma_occurs_in_suffix(hay: Seq<u8>, pat: Seq<u8>, pos: int)
    requires
        0 <= pos <= hay.len(),
    ensures
        forall|x: int|
            0 <= x ==> (#[trigger] occurs_at(hay.subrange(pos, hay.len() as int), pat, x)
                <==> occurs_at(hay, pat, pos + x)),
{
    assert forall|x: int| 0 <= x implies (#[trigger] occurs_at(
        hay.subrange(pos, hay.len() as int),
        pat,
        x,
    ) <==> occurs_at(hay, pat, pos + x)) by {
        let rest = hay.subrange(pos, hay.len() as int);
        if x + pat.len() <= rest.len() {
            assert(rest.subrange(x, x + pat.len()) =~= hay.subrange(pos + x, pos + x + pat.len()));
        }
    }
}

/// Relies on `regex::escape` and `regex::bytes::Regex::find_at`: a pattern made by
/// escaping `needle` matches exactly the UTF-8 bytes of `needle`, and `find_at`
/// returns the leftmost match that starts at or after `start`.
#[verifier::external_body]
pub(crate) fn find_literal(hay: &[u8], needle: &str, start: usize) -> (r: Option<usize>)
    requires
        start <= hay@.len(),
        needle.spec_bytes().len() <= 1024,
    ensures
        match r {
            Some(i) => first_from(hay@, needle.spec_bytes(), start as int, i as int),
            None => absent_from(hay@, needle.spec_bytes(), start as int),
        },
{
    let re = regex::bytes::Regex::new(&regex::escape(needle)).unwrap();
    re.find_at(hay, start).map(|m| m.start())
}

} // verus!
