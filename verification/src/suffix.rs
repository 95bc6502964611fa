//! Trusted construction of the suffix array and LCP array over a byte text.

use libsais::SuffixArrayConstruction;
use vstd::prelude::*;

verus! {

/// The suffixes of `text` at `p` and `q` share a prefix of length `l`.
pub open spec fn common_prefix_len(text: Seq<u8>, p: int, q: int, l: int) -> bool {
    &&& p + l <= text.len()
    &&& q + l <= text.len()
    &&& forall|k: int| 0 <= k < l ==> #[trigger] text[p + k] == text[q + k]
}

/// The shared prefix of length `l` is maximal: one suffix ends there, or the
/// next bytes differ.
pub open spec fn maximal_common_prefix(text: Seq<u8>, p: int, q: int, l: int) -> bool {
    &&& common_prefix_len(text, p, q, l)
    &&& (p + l == text.len() || q + l == text.len() || text[p + l] != text[q + l])
}

/// The suffix of `text` at `p` is lexicographically below the one at `q`.
pub open spec fn suffix_lex_less(text: Seq<u8>, p: int, q: int) -> bool {
    exists|l: int|
        #![trigger common_prefix_len(text, p, q, l)]
        0 <= l && common_prefix_len(text, p, q, l) && ((p + l == text.len() && q + l < text.len())
            || (p + l < text.len() && q + l < text.len() && text[p + l] < text[q + l]))
}

/// `sa` and `lcp` are a suffix array of `text` with its LCP array: `sa` is a
/// permutation of the positions sorted by suffix order, `lcp[0]` is zero, and
/// `lcp[i]` is the length of the longest common prefix of the suffixes at
/// `sa[i-1]` and `sa[i]`.
pub open spec fn sa_lcp_wf(text: Seq<u8>, sa: Seq<i32>, lcp: Seq<i32>) -> bool {
    &&& sa.len() == text.len()
    &&& lcp.len() == text.len()
    &&& forall|i: int| 0 <= i < sa.len() ==> 0 <= #[trigger] sa[i] < text.len()
    &&& forall|i: int, j: int| 0 <= i < j < sa.len() ==> sa[i] != sa[j]
    &&& (lcp.len() > 0 ==> lcp[0] == 0)
    &&& forall|i: int|
        1 <= i < lcp.len() ==> 0 <= #[trigger] lcp[i] && maximal_common_prefix(
            text,
            sa[i - 1] as int,
            sa[i] as int,
            lcp[i] as int,
        )
    &&& forall|i: int|
        1 <= i < sa.len() ==> suffix_lex_less(text, sa[i - 1] as int, #[trigger] sa[i] as int)
}

/// Whether the suffix-array construction succeeds on this text. The
/// construction is deterministic, so success is a function of the text
/// alone; the trusted wrapper below ties this name to the call's outcome.
pub uninterp spec fn sais_ok(text: Seq<u8>) -> bool;

/// Relies on `libsais`: `SuffixArrayConstruction::run` sorts all suffix
/// positions of the text lexicographically, and the chained
/// `plcp_construction`/`lcp_construction` passes produce the longest-common-
/// prefix array of adjacent sorted suffixes, starting with zero. A failure in
/// any pass yields nothing.
#[verifier::external_body]
pub fn suffix_array_with_lcp(text: &Vec<u8>) -> (r: Option<(Vec<i32>, Vec<i32>)>)
    requires
        1 <= text.len(),
        text.len() <= 0x7fff_ffff,
    ensures
        (r is Some) <==> sais_ok(text@),
        r matches Some(pair) ==> sa_lcp_wf(text@, pair.0@, pair.1@),
{
    let text_slice: &[u8] = text.as_slice();
    let construction = SuffixArrayConstruction::for_text(text_slice).in_owned_buffer32();
    let sa_res = construction.single_threaded().run().ok()?;
    let plcp_res = sa_res.plcp_construction().single_threaded().run().ok()?;
    let lcp_res = plcp_res.lcp_construction().single_threaded().run().ok()?;
    let (sa, lcp, _, _) = lcp_res.into_parts();
    Some((sa, lcp))
}

} // verus!
