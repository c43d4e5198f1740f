//! Lexicographic order on sequences of symbols, stated through the length of
//! the longest common prefix.

use vstd::prelude::*;

verus! {

/// The suffix of `text` that starts at offset `start`.
pub open spec fn suffix(text: Seq<u8>, start: int) -> Seq<u8> {
    text.subrange(start, text.len() as int)
}

/// The first `m` symbols of the suffix at `start`; the whole suffix where it
/// is shorter than `m`.
pub open spec fn window(text: Seq<u8>, start: int, m: int) -> Seq<u8> {
    if start + m <= text.len() {
        text.subrange(start, start + m)
    } else {
        text.subrange(start, text.len() as int)
    }
}

/// `a` and `b` both have at least `m` symbols and agree on their first `m`.
pub open spec fn agree(a: Seq<u8>, b: Seq<u8>, m: int) -> bool {
    &&& 0 <= m <= a.len()
    &&& m <= b.len()
    &&& forall|j: int| 0 <= j < m ==> a[j] == b[j]
}

/// The first position at or after `from` where `a` and `b` differ or one of
/// them ends.
pub open spec fn mismatch_from(a: Seq<u8>, b: Seq<u8>, from: int) -> int
    decreases a.len() - from,
{
    if 0 <= from < a.len() && from < b.len() && a[from] == b[from] {
        mismatch_from(a, b, from + 1)
    } else {
        from
    }
}

/// Length of the longest common prefix of `a` and `b`.
pub open spec fn lcp_len(a: Seq<u8>, b: Seq<u8>) -> int {
    mismatch_from(a, b, 0)
}

/// `p` is where the common prefix of `a` and `b` ends.
pub open spec fn ends_common_prefix(a: Seq<u8>, b: Seq<u8>, p: int) -> bool {
    &&& agree(a, b, p)
    &&& (p == a.len() || p == b.len() || a[p] != b[p])
}

/// Strict lexicographic order: after the common prefix `a` ends while `b`
/// goes on, or `a` holds the smaller symbol.
pub open spec fn lex_lt(a: Seq<u8>, b: Seq<u8>) -> bool {
    let p = lcp_len(a, b);
    p < b.len() && (p == a.len() || a[p] < b[p])
}

/// Lexicographic order, equality included.
pub open spec fn lex_le(a: Seq<u8>, b: Seq<u8>) -> bool {
    a == b || lex_lt(a, b)
}

proof fn lemma_mismatch_from(a: Seq<u8>, b: Seq<u8>, from: int)
    requires
        agree(a, b, from),
    ensures
        from <= mismatch_from(a, b, from),
        ends_common_prefix(a, b, mismatch_from(a, b, from)),
    decreases a.len() - from,
{
    if from < a.len() && from < b.len() && a[from] == b[from] {
        lemma_mismatch_from(a, b, from + 1);
    }
}

proof fn lemma_mismatch_reaches(a: Seq<u8>, b: Seq<u8>, from: int, p: int)
    requires
        0 <= from <= p,
        ends_common_prefix(a, b, p),
    ensures
        mismatch_from(a, b, from) == p,
    decreases p - from,
{
    if from < p {
        lemma_mismatch_reaches(a, b, from + 1, p);
    }
}

/// `lcp_len` is where the common prefix ends.
pub proof fn lemma_lcp(a: Seq<u8>, b: Seq<u8>)
    ensures
        ends_common_prefix(a, b, lcp_len(a, b)),
{
    lemma_mismatch_from(a, b, 0);
}

/// The common prefix ends at one place only.
pub proof fn lemma_lcp_unique(a: Seq<u8>, b: Seq<u8>, p: int)
    requires
        ends_common_prefix(a, b, p),
    ensures
        lcp_len(a, b) == p,
{
    lemma_mismatch_reaches(a, b, 0, p);
}

/// The longest common prefix does not depend on the order of its arguments.
pub proof fn lemma_lcp_symmetric(a: Seq<u8>, b: Seq<u8>)
    ensures
        lcp_len(a, b) == lcp_len(b, a),
{
    lemma_lcp(a, b);
    lemma_lcp_unique(b, a, lcp_len(a, b));
}

/// No sequence is below itself, and of two sequences at most one is below
/// the other.
pub proof fn lemma_lt_asymmetric(a: Seq<u8>, b: Seq<u8>)
    ensures
        !(lex_lt(a, b) && lex_lt(b, a)),
        lex_lt(a, b) ==> a != b,
{
    lemma_lcp(a, b);
    lemma_lcp_symmetric(a, b);
}

/// Two different sequences are ordered one way or the other.
pub proof fn lemma_lt_total(a: Seq<u8>, b: Seq<u8>)
    ensures
        a == b || lex_lt(a, b) || lex_lt(b, a),
{
    lemma_lcp(a, b);
    lemma_lcp_symmetric(a, b);
    let p = lcp_len(a, b);
    if p == a.len() && p == b.len() {
        assert(a =~= b);
    }
}

/// The strict order is transitive.
pub proof fn lemma_lt_transitive(a: Seq<u8>, b: Seq<u8>, c: Seq<u8>)
    requires
        lex_lt(a, b),
        lex_lt(b, c),
    ensures
        lex_lt(a, c),
{
    lemma_lcp(a, b);
    lemma_lcp(b, c);
    let p = lcp_len(a, b);
    let q = lcp_len(b, c);
    let m = if p <= q { p } else { q };
    lemma_lcp_unique(a, c, m);
}

/// Cutting both sequences to their first `m` symbols keeps their order, though
/// it may make them equal.
pub proof fn lemma_take_monotone(a: Seq<u8>, b: Seq<u8>, m: int)
    requires
        lex_le(a, b),
        0 <= m,
    ensures
        lex_le(window(a, 0, m), window(b, 0, m)),
{
    let x = window(a, 0, m);
    let y = window(b, 0, m);
    if a == b {
    } else {
        lemma_lcp(a, b);
        let p = lcp_len(a, b);
        if p >= m {
            assert(x =~= y);
        } else {
            lemma_lcp_unique(x, y, p);
        }
    }
}

/// Where the first `k` symbols of `a` are below the first `k` symbols of `b`,
/// `a` is below `b`.
pub proof fn lemma_prefix_decides(a: Seq<u8>, b: Seq<u8>, k: int)
    requires
        0 <= k,
        lex_lt(window(a, 0, k), window(b, 0, k)),
    ensures
        lex_lt(a, b),
{
    let x = window(a, 0, k);
    let y = window(b, 0, k);
    lemma_lcp(x, y);
    let p = lcp_len(x, y);
    assert forall|j: int| 0 <= j < p implies a[j] == b[j] by {
        assert(x[j] == y[j]);
    }
    if p < x.len() {
        assert(x[p] == a[p] && y[p] == b[p]);
    }
    lemma_lcp_unique(a, b, p);
}

/// A sequence that lies between two sequences with a common prefix of length
/// `m` has that prefix too.
pub proof fn lemma_sandwich(a: Seq<u8>, b: Seq<u8>, c: Seq<u8>, m: int)
    requires
        lex_le(a, b),
        lex_le(b, c),
        agree(a, c, m),
    ensures
        agree(a, b, m),
        agree(b, c, m),
{
    if a == b || b == c {
    } else {
        lemma_lcp(a, b);
        let p = lcp_len(a, b);
        if p < m {
            lemma_lcp_unique(b, c, p);
        }
    }
}

/// Length of the longest common prefix of the suffix of `x` at `xs` and the
/// suffix of `y` at `ys`. The first `known` symbols are taken as equal and are
/// not read again.
pub fn lcp(x: &[u8], xs: usize, y: &[u8], ys: usize, known: usize) -> (r: usize)
    requires
        xs <= x@.len(),
        ys <= y@.len(),
        agree(suffix(x@, xs as int), suffix(y@, ys as int), known as int),
    ensures
        r == lcp_len(suffix(x@, xs as int), suffix(y@, ys as int)),
        known <= r,
        xs + r <= x@.len(),
        ys + r <= y@.len(),
{
    assert(suffix(x@, xs as int).len() == x@.len() - xs);
    assert(suffix(y@, ys as int).len() == y@.len() - ys);
    let xn: usize = x.len();
    let yn: usize = y.len();
    let mut i: usize = known;
    while xs + i < xn && ys + i < yn && x[xs + i] == y[ys + i]
        invariant
            xn == x@.len(),
            yn == y@.len(),
            xs <= x@.len(),
            ys <= y@.len(),
            known <= i,
            xs + i <= x@.len(),
            ys + i <= y@.len(),
            agree(suffix(x@, xs as int), suffix(y@, ys as int), i as int),
        decreases x@.len() - xs - i,
    {
        i += 1;
    }
    proof {
        lemma_lcp_unique(suffix(x@, xs as int), suffix(y@, ys as int), i as int);
    }
    i
}

/// Whether `x` is below `y` in lexicographic order.
pub fn precedes(x: &[u8], y: &[u8]) -> (r: bool)
    ensures
        r == lex_lt(x@, y@),
{
    assert(suffix(x@, 0) =~= x@);
    assert(suffix(y@, 0) =~= y@);
    let c: usize = lcp(x, 0, y, 0, 0);
    proof {
        lemma_lcp(x@, y@);
    }
    c < y.len() && (c == x.len() || x[c] < y[c])
}

} // verus!
