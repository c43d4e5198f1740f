//! Three-way comparisons of the suffixes of a text, in the form that sorting
//! and bisecting routines take.

use vstd::prelude::*;
use std::cmp::Ordering;
use crate::lex::{
    lcp, lcp_len, lemma_lcp, lemma_lcp_symmetric, lemma_lcp_unique, lex_lt, suffix, window,
};

verus! {

/// The suffix at `a` is below the suffix at `b`.
pub open spec fn suffix_below(text: Seq<u8>, a: usize, b: usize) -> bool {
    lex_lt(suffix(text, a as int), suffix(text, b as int))
}

/// The suffix at `start`, cut to the length of `pat`, is below `pat`.
pub open spec fn window_below(text: Seq<u8>, start: usize, pat: Seq<u8>) -> bool {
    lex_lt(window(text, start as int, pat.len() as int), pat)
}

/// The suffix at `start`, cut to the length of `pat`, is above `pat`.
pub open spec fn window_above(text: Seq<u8>, start: usize, pat: Seq<u8>) -> bool {
    lex_lt(pat, window(text, start as int, pat.len() as int))
}

/// How two suffixes are ordered, read off at the end of their common prefix.
pub proof fn lemma_suffix_rank(text: Seq<u8>, a: usize, b: usize, c: usize)
    requires
        a <= text.len(),
        b <= text.len(),
        c == lcp_len(suffix(text, a as int), suffix(text, b as int)),
    ensures
        a + c <= text.len(),
        b + c <= text.len(),
        suffix_below(text, a, b) == (b + c < text.len() && (a + c == text.len() || text[a + c]
            < text[b + c])),
        suffix_below(text, b, a) == (a + c < text.len() && (b + c == text.len() || text[b + c]
            < text[a + c])),
        (a + c == text.len() && b + c == text.len()) ==> a == b,
        (a + c < text.len() && b + c < text.len()) ==> text[a + c] != text[b + c],
{
    lemma_lcp(suffix(text, a as int), suffix(text, b as int));
    lemma_lcp_symmetric(suffix(text, a as int), suffix(text, b as int));
}

/// How a suffix cut to the length of `pat` is ordered against `pat`, read off
/// at the end of the common prefix of `pat` and the whole suffix.
pub proof fn lemma_window_rank(text: Seq<u8>, start: usize, pat: Seq<u8>, c: usize)
    requires
        start <= text.len(),
        c == lcp_len(pat, suffix(text, start as int)),
    ensures
        c <= pat.len(),
        start + c <= text.len(),
        window_below(text, start, pat) == (c < pat.len() && (start + c == text.len() || text[
            start + c] < pat[c as int])),
        window_above(text, start, pat) == (c < pat.len() && start + c < text.len() && pat[c as int]
            < text[start + c]),
        c == pat.len() <==> window(text, start as int, pat.len() as int) == pat,
        (c < pat.len() && start + c < text.len()) ==> text[start + c] != pat[c as int],
{
    let s = suffix(text, start as int);
    let w = window(text, start as int, pat.len() as int);
    lemma_lcp(pat, s);
    lemma_lcp_unique(pat, w, c as int);
    lemma_lcp_unique(w, pat, c as int);
    if c == pat.len() {
        assert(w =~= pat);
    }
}

/// Orders the suffix of `text` at `a` against the suffix at `b`, each taken to
/// the end of the text.
pub fn suffix_order(text: &[u8], a: usize, b: usize) -> (o: Ordering)
    requires
        a <= text@.len(),
        b <= text@.len(),
    ensures
        (o == Ordering::Less) == suffix_below(text@, a, b),
        (o == Ordering::Greater) == suffix_below(text@, b, a),
        (o == Ordering::Equal) ==> a == b,
{
    let n: usize = text.len();
    let c: usize = lcp(text, a, text, b, 0);
    proof {
        lemma_suffix_rank(text@, a, b, c);
    }
    if a + c == n {
        if b + c == n {
            Ordering::Equal
        } else {
            Ordering::Less
        }
    } else if b + c == n {
        Ordering::Greater
    } else if text[a + c] < text[b + c] {
        Ordering::Less
    } else {
        Ordering::Greater
    }
}

/// Orders the suffix of `text` at `start`, cut to the length of `pat`, against
/// `pat`. A suffix that ends before it has as many symbols as `pat` is compared
/// as it is.
pub fn window_order(text: &[u8], start: usize, pat: &[u8]) -> (o: Ordering)
    requires
        start <= text@.len(),
    ensures
        (o == Ordering::Less) == window_below(text@, start, pat@),
        (o == Ordering::Greater) == window_above(text@, start, pat@),
{
    let n: usize = text.len();
    let m: usize = pat.len();
    assert(suffix(pat@, 0) =~= pat@);
    let c: usize = lcp(pat, 0, text, start, 0);
    proof {
        lemma_window_rank(text@, start, pat@, c);
    }
    if c == m {
        Ordering::Equal
    } else if start + c == n {
        Ordering::Less
    } else if text[start + c] < pat[c] {
        Ordering::Less
    } else {
        Ordering::Greater
    }
}

/// Whether the suffix of `text` at `a` is below the suffix at `b`.
pub fn suffix_precedes(text: &[u8], a: usize, b: usize) -> (r: bool)
    requires
        a <= text@.len(),
        b <= text@.len(),
    ensures
        r == suffix_below(text@, a, b),
{
    match suffix_order(text, a, b) {
        Ordering::Less => true,
        _ => false,
    }
}

/// Sorts offsets into `text` by the suffixes that start at them, with
/// `slice::sort_unstable_by` and `suffix_order` as its comparison.
///
/// Taken from the standard library without proof: the slice afterwards holds
/// the same offsets as before, each as often as before, and no offset stands
/// before one whose suffix is below its own. The comparison is a total order on
/// offsets up to the length of the text, which is what the sort asks for.
#[verifier::external_body]
pub(crate) fn sort_by_suffix(order: &mut Vec<usize>, text: &[u8])
    requires
        forall|i: int| 0 <= i < old(order)@.len() ==> old(order)@[i] <= text@.len(),
    ensures
        final(order)@.to_multiset() == old(order)@.to_multiset(),
        forall|i: int, j: int|
            0 <= i < j < final(order)@.len() ==> !suffix_below(
                text@,
                #[trigger] final(order)@[j],
                #[trigger] final(order)@[i],
            ),
{
    order.sort_unstable_by(|a, b| suffix_order(text, *a, *b));
}

/// Finds, among the positions `lo .. hi` of `order`, the first whose suffix,
/// cut to the length of `pat`, is not below `pat`, with
/// `bisection::bisect_left_slice_by` and `window_order` as its comparison.
///
/// Taken from the `bisection` crate without proof, as its documentation states
/// it for a slice that is sorted against the comparison: the result lies in
/// `lo ..= hi`, every position of the range before it compares as less, and no
/// position of the range from it on does. The crate halves `lo + hi`; the sum
/// cannot overflow, since a slice of offsets holds fewer than `usize::MAX / 2`
/// of them.
#[verifier::external_body]
pub(crate) fn bisect_window(text: &[u8], order: &[usize], lo: usize, hi: usize, pat: &[u8]) -> (r:
    usize)
    requires
        lo <= hi <= order@.len(),
        forall|i: int| lo <= i < hi ==> #[trigger] order@[i] <= text@.len(),
        forall|i: int, j: int|
            lo <= i < j < hi && window_below(text@, #[trigger] order@[j], pat@) ==> window_below(
                text@,
                #[trigger] order@[i],
                pat@,
            ),
    ensures
        lo <= r <= hi,
        forall|i: int| lo <= i < r ==> window_below(text@, #[trigger] order@[i], pat@),
        forall|i: int| r <= i < hi ==> !window_below(text@, #[trigger] order@[i], pat@),
{
    bisection::bisect_left_slice_by(order, lo..hi, |a| window_order(text, *a, pat))
}

} // verus!
