//! The alphabet of the index and the successor of a query in it.

use vstd::prelude::*;
use crate::lex::{lcp_len, lemma_lcp, lemma_lcp_unique, lex_lt};

verus! {

/// The symbol `A`, the least of the alphabet.
pub const SYMBOL_A: u8 = 65;

/// The symbol `C`.
pub const SYMBOL_C: u8 = 67;

/// The symbol `G`.
pub const SYMBOL_G: u8 = 71;

/// The symbol `T`, the greatest of the alphabet.
pub const SYMBOL_T: u8 = 84;

/// The symbol `$` that ends a reference sequence. It is below every symbol of
/// the alphabet.
pub const SENTINEL: u8 = 36;

/// `b` is one of the four symbols of the alphabet.
pub open spec fn is_symbol(b: u8) -> bool {
    b == SYMBOL_A || b == SYMBOL_C || b == SYMBOL_G || b == SYMBOL_T
}

/// Every symbol of `s` belongs to the alphabet.
pub open spec fn is_dna(s: Seq<u8>) -> bool {
    forall|i: int| 0 <= i < s.len() ==> is_symbol(#[trigger] s[i])
}

/// The symbol that follows `b` in the alphabet; `T` has none and stays.
pub open spec fn next_symbol(b: u8) -> u8 {
    if b == SYMBOL_A {
        SYMBOL_C
    } else if b == SYMBOL_C {
        SYMBOL_G
    } else {
        SYMBOL_T
    }
}

/// The place of the last symbol of `s` that is not `T`, or -1 where `s` holds
/// nothing but `T`.
pub open spec fn pivot(s: Seq<u8>) -> int
    decreases s.len(),
{
    if s.len() == 0 {
        -1
    } else if s.last() != SYMBOL_T {
        s.len() - 1
    } else {
        pivot(s.drop_last())
    }
}

/// The successor of `s`, read as a number in base four with the digits
/// `A < C < G < T`: the last symbol that is not `T` steps to the next symbol of
/// the alphabet and every `T` behind it turns into `A`. Where `s` holds nothing
/// but `T`, the successor is one symbol longer than `s` and holds nothing but
/// `A`.
pub open spec fn successor(s: Seq<u8>) -> Seq<u8> {
    let p = pivot(s);
    if p < 0 {
        Seq::new(s.len() + 1, |i: int| SYMBOL_A)
    } else {
        Seq::new(
            s.len(),
            |i: int|
                if i < p {
                    s[i]
                } else if i == p {
                    next_symbol(s[p])
                } else {
                    SYMBOL_A
                },
        )
    }
}

/// What `pivot` finds: behind it stand only `T`, at it stands another symbol.
pub proof fn lemma_pivot(s: Seq<u8>)
    ensures
        -1 <= pivot(s) < s.len(),
        forall|i: int| pivot(s) < i < s.len() ==> s[i] == SYMBOL_T,
        pivot(s) >= 0 ==> s[pivot(s)] != SYMBOL_T,
    decreases s.len(),
{
    if s.len() > 0 && s.last() == SYMBOL_T {
        lemma_pivot(s.drop_last());
        assert forall|i: int| pivot(s) < i < s.len() implies s[i] == SYMBOL_T by {
            if i < s.len() - 1 {
                assert(s[i] == s.drop_last()[i]);
            }
        }
    }
}

/// The place `p` with only `T` behind it and another symbol at it is the
/// pivot.
pub proof fn lemma_pivot_unique(s: Seq<u8>, p: int)
    requires
        -1 <= p < s.len(),
        forall|i: int| p < i < s.len() ==> s[i] == SYMBOL_T,
        p >= 0 ==> s[p] != SYMBOL_T,
    ensures
        pivot(s) == p,
{
    lemma_pivot(s);
}

/// The successor of a query over the alphabet is over the alphabet.
pub proof fn lemma_successor_is_dna(s: Seq<u8>)
    requires
        is_dna(s),
    ensures
        is_dna(successor(s)),
        pivot(s) < 0 ==> successor(s).len() == s.len() + 1,
        pivot(s) >= 0 ==> successor(s).len() == s.len(),
{
    lemma_pivot(s);
}

/// A query that holds a symbol other than `T` is below its successor, the two
/// are equally long, and no sequence over the alphabet of that length lies
/// strictly between them.
pub proof fn lemma_successor_is_next(s: Seq<u8>, t: Seq<u8>)
    requires
        is_dna(s),
        pivot(s) >= 0,
        is_dna(t),
        t.len() == s.len(),
    ensures
        successor(s).len() == s.len(),
        lex_lt(s, successor(s)),
        !(lex_lt(s, t) && lex_lt(t, successor(s))),
{
    let next = successor(s);
    let p = pivot(s);
    lemma_pivot(s);
    assert(is_symbol(s[p]));
    lemma_lcp_unique(s, next, p);
    if lex_lt(s, t) && lex_lt(t, next) {
        lemma_lcp(s, t);
        let q = lcp_len(s, t);
        assert(is_symbol(s[q]) && is_symbol(t[q]));
        lemma_lcp(t, next);
        let r = lcp_len(t, next);
        if q < p {
            lemma_lcp_unique(t, next, q);
        } else if q == p {
            if t[p] == next[p] {
                assert(r > p);
                assert(is_symbol(t[r]));
            } else {
                lemma_lcp_unique(t, next, p);
            }
        }
    }
}

/// The successor of `queryseq` in the alphabet `A < C < G < T`.
pub fn nextseq(queryseq: &[u8]) -> (next: Vec<u8>)
    requires
        is_dna(queryseq@),
    ensures
        next@ == successor(queryseq@),
{
    let n: usize = queryseq.len();
    let mut tail: usize = n;
    while tail > 0 && queryseq[tail - 1] == SYMBOL_T
        invariant
            n == queryseq@.len(),
            tail <= n,
            forall|i: int| tail <= i < n ==> queryseq@[i] == SYMBOL_T,
        decreases tail,
    {
        tail -= 1;
    }
    proof {
        lemma_pivot_unique(queryseq@, tail - 1);
    }
    let mut next: Vec<u8> = Vec::new();
    let mut i: usize = 0;
    if tail == 0 {
        next.push(SYMBOL_A);
    } else {
        while i + 1 < tail
            invariant
                n == queryseq@.len(),
                0 < tail <= n,
                i + 1 <= tail,
                next@ == queryseq@.subrange(0, i as int),
            decreases tail - i,
        {
            next.push(queryseq[i]);
            i += 1;
            assert(next@ =~= queryseq@.subrange(0, i as int));
        }
        let b: u8 = queryseq[i];
        assert(is_symbol(b));
        let stepped: u8 = if b == SYMBOL_A {
            SYMBOL_C
        } else if b == SYMBOL_C {
            SYMBOL_G
        } else {
            SYMBOL_T
        };
        next.push(stepped);
        i += 1;
    }
    let ghost head = next@;
    assert(forall|j: int| 0 <= j < head.len() ==> head[j] == successor(queryseq@)[j]);
    assert(tail == 0 ==> head.len() == 1);
    assert(tail > 0 ==> head.len() == tail);
    while i < n
        invariant
            n == queryseq@.len(),
            tail <= i <= n,
            next@.len() == head.len() + i - tail,
            forall|j: int| 0 <= j < head.len() ==> next@[j] == head[j],
            forall|j: int| head.len() <= j < next@.len() ==> next@[j] == SYMBOL_A,
        decreases n - i,
    {
        next.push(SYMBOL_A);
        i += 1;
    }
    proof {
        let want = successor(queryseq@);
        assert(pivot(queryseq@) == tail - 1);
        assert(next@.len() == want.len());
        assert forall|j: int| 0 <= j < next@.len() implies next@[j] == want[j] by {
            if j < head.len() {
                assert(next@[j] == head[j]);
            } else {
                assert(next@[j] == SYMBOL_A);
            }
        }
        assert(next@ =~= want);
    }
    next
}

} // verus!
