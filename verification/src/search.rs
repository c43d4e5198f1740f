//! Searching a suffix array for the place of a pattern: by plain bisection, and
//! by a bisection that remembers how much of the pattern is already matched.

use vstd::prelude::*;
use crate::lex::{
    agree, lcp, lemma_lcp, lemma_lt_transitive, lemma_sandwich, lemma_take_monotone, suffix,
    window,
};
use crate::ordering::{bisect_window, lemma_window_rank, suffix_below, window_below};
use crate::suffix_array::is_suffix_array;

verus! {

/// The first position in `lo .. hi` whose suffix, cut to the length of `pat`,
/// is not below `pat`; `hi` where there is none.
pub open spec fn first_not_below(
    text: Seq<u8>,
    order: Seq<usize>,
    lo: int,
    hi: int,
    pat: Seq<u8>,
) -> int
    decreases hi - lo,
{
    if lo >= hi {
        hi
    } else if !window_below(text, order[lo], pat) {
        lo
    } else {
        first_not_below(text, order, lo + 1, hi, pat)
    }
}

/// `at` parts the positions `lo .. hi`: before it every suffix, cut to the
/// length of `pat`, is below `pat`, and from it on none is.
pub open spec fn parts_range(
    text: Seq<u8>,
    order: Seq<usize>,
    lo: int,
    hi: int,
    pat: Seq<u8>,
    at: int,
) -> bool {
    &&& lo <= at <= hi
    &&& forall|i: int| lo <= i < at ==> window_below(text, #[trigger] order[i], pat)
    &&& forall|i: int| at <= i < hi ==> !window_below(text, #[trigger] order[i], pat)
}

/// A place that parts the range is the first position that is not below the
/// pattern.
pub proof fn lemma_parting_is_first(
    text: Seq<u8>,
    order: Seq<usize>,
    lo: int,
    hi: int,
    pat: Seq<u8>,
    at: int,
)
    requires
        parts_range(text, order, lo, hi, pat, at),
    ensures
        first_not_below(text, order, lo, hi, pat) == at,
    decreases hi - lo,
{
    if lo < hi {
        if window_below(text, order[lo], pat) {
            lemma_parting_is_first(text, order, lo + 1, hi, pat, at);
        }
    }
}

/// What `first_not_below` finds: it lies in `lo ..= hi`, every position of the
/// range before it is below the pattern, and the position itself is not.
pub proof fn lemma_first_not_below(text: Seq<u8>, order: Seq<usize>, lo: int, hi: int, pat: Seq<u8>)
    requires
        lo <= hi,
    ensures
        lo <= first_not_below(text, order, lo, hi, pat) <= hi,
        forall|i: int|
            lo <= i < first_not_below(text, order, lo, hi, pat) ==> window_below(
                text,
                #[trigger] order[i],
                pat,
            ),
        first_not_below(text, order, lo, hi, pat) < hi ==> !window_below(
            text,
            order[first_not_below(text, order, lo, hi, pat)],
            pat,
        ),
    decreases hi - lo,
{
    if lo < hi && window_below(text, order[lo], pat) {
        lemma_first_not_below(text, order, lo + 1, hi, pat);
    }
}

/// In a suffix array, a suffix that is below the pattern when cut to the
/// pattern's length has only such suffixes before it.
pub proof fn lemma_below_is_downward(
    text: Seq<u8>,
    order: Seq<usize>,
    i: int,
    j: int,
    pat: Seq<u8>,
)
    requires
        is_suffix_array(text, order),
        0 <= i <= j < order.len(),
        window_below(text, order[j], pat),
    ensures
        window_below(text, order[i], pat),
{
    if i < j {
        let m = pat.len() as int;
        let a = suffix(text, order[i] as int);
        let b = suffix(text, order[j] as int);
        assert(suffix_below(text, order[i], order[j]));
        lemma_take_monotone(a, b, m);
        assert(window(a, 0, m) =~= window(text, order[i] as int, m));
        assert(window(b, 0, m) =~= window(text, order[j] as int, m));
        if window(a, 0, m) != window(b, 0, m) {
            lemma_lt_transitive(window(a, 0, m), window(b, 0, m), pat);
        }
    }
}

/// In a suffix array the first position of a range that is not below the
/// pattern parts the range.
pub proof fn lemma_first_parts_range(
    text: Seq<u8>,
    order: Seq<usize>,
    lo: int,
    hi: int,
    pat: Seq<u8>,
)
    requires
        is_suffix_array(text, order),
        0 <= lo <= hi <= order.len(),
    ensures
        parts_range(text, order, lo, hi, pat, first_not_below(text, order, lo, hi, pat)),
{
    let at = first_not_below(text, order, lo, hi, pat);
    lemma_first_not_below(text, order, lo, hi, pat);
    assert forall|i: int| at <= i < hi implies !window_below(text, #[trigger] order[i], pat) by {
        if window_below(text, order[i], pat) {
            lemma_below_is_downward(text, order, at, i, pat);
        }
    }
}

/// Finds the first position in `lo .. hi` of the suffix array whose suffix, cut
/// to the length of `pat`, is not below `pat`, by bisection; each probe compares
/// the pattern from its first symbol.
pub fn search_naive(text: &[u8], order: &[usize], lo: usize, hi: usize, pat: &[u8]) -> (at: usize)
    requires
        is_suffix_array(text@, order@),
        lo <= hi <= order@.len(),
    ensures
        at == first_not_below(text@, order@, lo as int, hi as int, pat@),
{
    proof {
        assert forall|i: int, j: int|
            lo <= i < j < hi && window_below(
                text@,
                #[trigger] order@[j],
                pat@,
            ) implies window_below(text@, #[trigger] order@[i], pat@) by {
            lemma_below_is_downward(text@, order@, i, j, pat@);
        }
    }
    let at: usize = bisect_window(text, order, lo, hi, pat);
    proof {
        lemma_parting_is_first(text@, order@, lo as int, hi as int, pat@, at as int);
    }
    at
}

/// Finds the first position in `lo .. hi` of the suffix array whose suffix, cut
/// to the length of `pat`, is not below `pat`, by a bisection that keeps, for
/// the suffix just outside either end of what is left to search, the length of
/// a prefix that it shares with `pat`. A probe lies between the two, so it
/// shares the shorter of the two prefixes and is compared from there on.
pub fn simpaccel(text: &[u8], order: &[usize], lo: usize, hi: usize, pat: &[u8]) -> (at: usize)
    requires
        is_suffix_array(text@, order@),
        lo <= hi <= order@.len(),
    ensures
        at == first_not_below(text@, order@, lo as int, hi as int, pat@),
{
    let n: usize = text.len();
    let m: usize = pat.len();
    let mut l: usize = lo;
    let mut r: usize = hi;
    let mut lcp_l: usize = 0;
    let mut lcp_r: usize = 0;
    assert(suffix(pat@, 0) =~= pat@);
    while l < r
        invariant
            is_suffix_array(text@, order@),
            n == text@.len(),
            m == pat@.len(),
            suffix(pat@, 0) == pat@,
            lo <= l <= r <= hi <= order@.len(),
            forall|i: int| lo <= i < l ==> window_below(text@, #[trigger] order@[i], pat@),
            forall|i: int| r <= i < hi ==> !window_below(text@, #[trigger] order@[i], pat@),
            lcp_l <= m,
            lcp_r <= m,
            l > lo ==> agree(pat@, suffix(text@, order@[l - 1] as int), lcp_l as int),
            r < hi ==> agree(pat@, suffix(text@, order@[r as int] as int), lcp_r as int),
            l == lo ==> lcp_l == 0,
            r == hi ==> lcp_r == 0,
        decreases r - l,
    {
        let c: usize = l + (r - l) / 2;
        let known: usize = if lcp_l <= lcp_r { lcp_l } else { lcp_r };
        let start: usize = order[c];
        proof {
            let probe = suffix(text@, start as int);
            if known > 0 {
                let left = suffix(text@, order@[l - 1] as int);
                let right = suffix(text@, order@[r as int] as int);
                assert(suffix_below(text@, order@[l - 1], order@[c as int]));
                assert(suffix_below(text@, order@[c as int], order@[r as int]));
                assert(agree(left, right, known as int));
                lemma_sandwich(left, probe, right, known as int);
            }
            assert(agree(pat@, probe, known as int));
        }
        let full: usize = lcp(pat, 0, text, start, known);
        proof {
            lemma_window_rank(text@, start, pat@, full);
            lemma_lcp(pat@, suffix(text@, start as int));
        }
        if full < m && (start + full == n || text[start + full] < pat[full]) {
            proof {
                assert forall|i: int| lo <= i < c + 1 implies window_below(
                    text@,
                    #[trigger] order@[i],
                    pat@,
                ) by {
                    lemma_below_is_downward(text@, order@, i, c as int, pat@);
                }
            }
            l = c + 1;
            lcp_l = full;
        } else {
            proof {
                assert forall|i: int| c <= i < hi implies !window_below(
                    text@,
                    #[trigger] order@[i],
                    pat@,
                ) by {
                    if window_below(text@, order@[i], pat@) {
                        lemma_below_is_downward(text@, order@, c as int, i, pat@);
                    }
                }
            }
            r = c;
            lcp_r = full;
        }
    }
    proof {
        lemma_parting_is_first(text@, order@, lo as int, hi as int, pat@, l as int);
    }
    l
}

} // verus!
