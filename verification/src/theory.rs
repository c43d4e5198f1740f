//! What the answers of an index are worth: how the search within the range of
//! a prefix relates to the search of the whole suffix array, and the hits to the
//! places where the query stands in the reference sequence.

use vstd::prelude::*;
use crate::index::{
    answer, candidate_range, hit_offsets, hits_within, is_index, HitRange, IndexView,
};
use crate::lex::{
    lcp_len, lemma_lcp, lemma_lcp_unique, lemma_lt_asymmetric, lemma_lt_total,
    lemma_lt_transitive, lemma_prefix_decides, lemma_take_monotone, suffix, window,
};
use crate::ordering::{suffix_below, window_below};
use crate::prefix_table::{
    entry_fits, is_long, is_prefix_table, kmer_at, lemma_table_complete, Row,
};
use crate::search::{
    first_not_below, lemma_below_is_downward, lemma_first_not_below, lemma_first_parts_range,
    lemma_parting_is_first,
};
use crate::error::IndexError;
use crate::successor::{
    is_dna, is_symbol, lemma_pivot, lemma_pivot_unique, lemma_successor_is_next, pivot,
    successor, SENTINEL, SYMBOL_A, SYMBOL_T,
};
use crate::suffix_array::is_suffix_array;

verus! {

/// A pattern that starts with the prefix of an entry of the prefix table has
/// before the range of that entry only suffixes that are below it, and behind
/// the range none.
pub proof fn lemma_outside_the_range(
    text: Seq<u8>,
    order: Seq<usize>,
    k: int,
    table: Seq<Row>,
    j: int,
    pat: Seq<u8>,
    i: int,
)
    requires
        is_suffix_array(text, order),
        is_prefix_table(text, order, k, table),
        0 <= j < table.len(),
        k <= pat.len(),
        pat.subrange(0, k) == table[j].prefix,
        0 <= i < order.len(),
    ensures
        i < table[j].lo ==> window_below(text, order[i], pat),
        i >= table[j].hi ==> !window_below(text, order[i], pat),
{
    let e = table[j];
    let m = pat.len() as int;
    assert(entry_fits(text, order, k, e));
    let first = e.lo as int;
    assert(kmer_at(text, order, k, first) == e.prefix);
    let a = suffix(text, order[i] as int);
    let b = suffix(text, order[first] as int);
    let w = window(text, order[i] as int, m);
    assert(window(b, 0, k) =~= e.prefix);
    assert(window(pat, 0, k) =~= e.prefix);
    assert(window(w, 0, k) =~= window(a, 0, k));
    if i < e.lo || i >= e.hi {
        if window(a, 0, k) == e.prefix {
            assert(is_long(text, order, k, i));
            assert(kmer_at(text, order, k, i) =~= window(a, 0, k));
            let c = lemma_table_complete(text, order, k, table, i);
            assert(c == j);
        }
        if i < e.lo {
            assert(suffix_below(text, order[i], order[first]));
            lemma_take_monotone(a, b, k);
            lemma_prefix_decides(w, pat, k);
        } else {
            assert(suffix_below(text, order[first], order[i]));
            lemma_take_monotone(b, a, k);
            lemma_prefix_decides(pat, w, k);
            lemma_lt_asymmetric(pat, w);
        }
    }
}

/// For a pattern that starts with the prefix of an entry of the prefix table,
/// the search within the range of the entry finds the place that the search of
/// the whole suffix array finds.
pub proof fn lemma_range_keeps_bound(
    text: Seq<u8>,
    order: Seq<usize>,
    k: int,
    table: Seq<Row>,
    j: int,
    pat: Seq<u8>,
)
    requires
        is_suffix_array(text, order),
        is_prefix_table(text, order, k, table),
        0 <= j < table.len(),
        k <= pat.len(),
        pat.subrange(0, k) == table[j].prefix,
    ensures
        first_not_below(text, order, table[j].lo as int, table[j].hi as int, pat)
            == first_not_below(text, order, 0, order.len() as int, pat),
{
    let lo = table[j].lo as int;
    let hi = table[j].hi as int;
    let n = order.len() as int;
    assert(entry_fits(text, order, k, table[j]));
    lemma_first_parts_range(text, order, lo, hi, pat);
    let at = first_not_below(text, order, lo, hi, pat);
    assert forall|i: int| 0 <= i < at implies window_below(text, #[trigger] order[i], pat) by {
        if i < lo {
            lemma_outside_the_range(text, order, k, table, j, pat, i);
        }
    }
    assert forall|i: int| at <= i < n implies !window_below(text, #[trigger] order[i], pat) by {
        if i >= hi {
            lemma_outside_the_range(text, order, k, table, j, pat, i);
        }
    }
    lemma_parting_is_first(text, order, 0, n, pat, at);
}

/// Where every suffix of a range that is below `a` is below `b`, the search
/// for `a` ends no later than the search for `b`.
pub proof fn lemma_bounds_in_order(
    text: Seq<u8>,
    order: Seq<usize>,
    lo: int,
    hi: int,
    a: Seq<u8>,
    b: Seq<u8>,
)
    requires
        lo <= hi,
        forall|i: int|
            lo <= i < hi && window_below(text, #[trigger] order[i], a) ==> window_below(
                text,
                order[i],
                b,
            ),
    ensures
        first_not_below(text, order, lo, hi, a) <= first_not_below(text, order, lo, hi, b),
{
    lemma_first_not_below(text, order, lo, hi, a);
    lemma_first_not_below(text, order, lo, hi, b);
    let x = first_not_below(text, order, lo, hi, a);
    let y = first_not_below(text, order, lo, hi, b);
    if y < x {
        assert(window_below(text, order[y], a));
    }
}

/// A suffix that is below a query that holds a symbol other than `T` is below
/// the successor of the query.
pub proof fn lemma_below_successor(text: Seq<u8>, start: usize, query: Seq<u8>)
    requires
        is_dna(query),
        pivot(query) >= 0,
        window_below(text, start, query),
    ensures
        window_below(text, start, successor(query)),
{
    lemma_successor_is_next(query, query);
    lemma_lt_transitive(
        window(text, start as int, query.len() as int),
        query,
        successor(query),
    );
}

/// A suffix that is below the successor of a query of nothing but `T`, and at
/// least one of them, is below the query.
pub proof fn lemma_below_all_t(text: Seq<u8>, start: usize, query: Seq<u8>)
    requires
        is_dna(query),
        query.len() > 0,
        pivot(query) < 0,
        start <= text.len(),
        window_below(text, start, successor(query)),
    ensures
        window_below(text, start, query),
{
    let next = successor(query);
    let long = window(text, start as int, next.len() as int);
    let short = window(text, start as int, query.len() as int);
    lemma_pivot(query);
    lemma_lcp(long, next);
    assert(query[0] == SYMBOL_T);
    assert(next[0] == SYMBOL_A);
    if short.len() > 0 {
        assert(short[0] == long[0]);
    }
    lemma_lcp_unique(short, query, 0);
}

/// The index with its prefix table taken away.
pub open spec fn without_table(index: IndexView) -> IndexView {
    IndexView { text: index.text, order: index.order, k: 0, table: Seq::empty() }
}

/// What the prefix table does to an answer. A query that the table covers is
/// searched within the range of its first `k` symbols as it would be searched
/// in the whole suffix array, and the hits start where they start without the
/// table. They also end there, and so the same offsets are found, unless the
/// suffix right behind the range is below the successor of the query: that
/// suffix, and those like it, the search of the whole suffix array takes for
/// hits, and the search within the range leaves out. A query of nothing but `T`
/// has no hits either way.
pub proof fn lemma_narrowing(index: IndexView, query: Seq<u8>)
    requires
        is_index(index),
        index.order.len() <= usize::MAX,
        index.k > 0,
        is_dna(query),
        candidate_range(index, query) is Some,
    ensures
        ({
            let (lo, hi) = candidate_range(index, query)->Some_0;
            let narrowed = hits_within(index.text, index.order, lo, hi, query);
            let whole = hits_within(index.text, index.order, 0, index.order.len() as usize, query);
            &&& lo < hi <= index.order.len()
            &&& answer(index, query) == Ok::<HitRange, IndexError>(narrowed)
            &&& answer(without_table(index), query) == Ok::<HitRange, IndexError>(
                whole,
            )
            &&& narrowed.start == whole.start
            &&& hit_offsets(index.order, narrowed) == hit_offsets(index.order, whole) <==> (pivot(
                query,
            ) < 0 || hi == index.order.len() || !window_below(
                index.text,
                index.order[hi as int],
                successor(query),
            ))
        }),
{
    let text = index.text;
    let order = index.order;
    let table = index.table;
    let k = index.k as int;
    let n = order.len() as int;
    let key = query.subrange(0, k);
    let next = successor(query);
    let j = choose|j: int| 0 <= j < table.len() && (#[trigger] table[j]).prefix == key;
    let (lo, hi) = candidate_range(index, query)->Some_0;
    assert(entry_fits(text, order, k, table[j]));
    lemma_range_keeps_bound(text, order, k, table, j, query);
    lemma_first_not_below(text, order, lo as int, hi as int, query);
    lemma_first_not_below(text, order, lo as int, hi as int, next);
    lemma_first_not_below(text, order, 0, n, query);
    lemma_first_not_below(text, order, 0, n, next);
    let start = first_not_below(text, order, lo as int, hi as int, query);
    let end_narrowed = first_not_below(text, order, lo as int, hi as int, next);
    let end_whole = first_not_below(text, order, 0, n, next);
    let narrowed = hits_within(text, order, lo, hi, query);
    let whole = hits_within(text, order, 0, n as usize, query);
    if pivot(query) < 0 {
        assert forall|i: int|
            0 <= i < n && window_below(text, #[trigger] order[i], next) implies window_below(
            text,
            order[i],
            query,
        ) by {
            lemma_below_all_t(text, order[i], query);
        }
        lemma_bounds_in_order(text, order, lo as int, hi as int, next, query);
        lemma_bounds_in_order(text, order, 0, n, next, query);
        assert(hit_offsets(order, narrowed) =~= Seq::<usize>::empty());
        assert(hit_offsets(order, whole) =~= Seq::<usize>::empty());
    } else {
        assert forall|i: int|
            0 <= i < n && window_below(text, #[trigger] order[i], query) implies window_below(
            text,
            order[i],
            next,
        ) by {
            lemma_below_successor(text, order[i], query);
        }
        lemma_bounds_in_order(text, order, lo as int, hi as int, query, next);
        lemma_bounds_in_order(text, order, 0, n, query, next);
        lemma_first_parts_range(text, order, lo as int, hi as int, next);
        lemma_first_parts_range(text, order, 0, n, next);
        assert forall|i: int| 0 <= i < lo implies window_below(text, #[trigger] order[i], next) by {
            lemma_outside_the_range(text, order, k, table, j, query, i);
        }
        if hi == n || !window_below(text, order[hi as int], next) {
            assert forall|i: int| end_narrowed <= i < n implies !window_below(
                text,
                #[trigger] order[i],
                next,
            ) by {
                if i >= hi && window_below(text, order[i], next) {
                    lemma_below_is_downward(text, order, hi as int, i, next);
                }
            }
            lemma_parting_is_first(text, order, 0, n, next, end_narrowed);
        } else {
            assert(end_whole > hi) by {
                if end_whole <= hi {
                    lemma_below_is_downward(text, order, end_whole, hi as int, next);
                }
            }
            assert(hit_offsets(order, narrowed).len() == end_narrowed - start);
            assert(hit_offsets(order, whole).len() == end_whole - start);
        }
    }
}

/// `query` stands in `text` at offset `at`.
pub open spec fn occurs_at(text: Seq<u8>, at: int, query: Seq<u8>) -> bool {
    at + query.len() <= text.len() && text.subrange(at, at + query.len()) == query
}

/// Every symbol of `text` belongs to the alphabet or is the sentinel.
pub open spec fn is_reference(text: Seq<u8>) -> bool {
    forall|i: int| 0 <= i < text.len() ==> is_symbol(#[trigger] text[i]) || text[i] == SENTINEL
}

/// The hits of a query that does not end in `T`, in a reference sequence of
/// symbols of the alphabet and sentinels, are the places where the query
/// stands: a position of the searched range lies within the hits if and only if
/// the query stands in the text at the offset that the suffix array holds
/// there.
pub proof fn lemma_hits_are_occurrences(
    text: Seq<u8>,
    order: Seq<usize>,
    lo: usize,
    hi: usize,
    query: Seq<u8>,
    i: int,
)
    requires
        is_suffix_array(text, order),
        is_reference(text),
        lo <= hi <= order.len(),
        is_dna(query),
        query.len() > 0,
        query.last() != SYMBOL_T,
        lo <= i < hi,
    ensures
        (hits_within(text, order, lo, hi, query).start <= i < hits_within(
            text,
            order,
            lo,
            hi,
            query,
        ).end) <==> occurs_at(text, order[i] as int, query),
{
    let m = query.len() as int;
    let next = successor(query);
    let w = window(text, order[i] as int, m);
    lemma_first_parts_range(text, order, lo as int, hi as int, query);
    lemma_first_parts_range(text, order, lo as int, hi as int, next);
    lemma_pivot_unique(query, m - 1);
    lemma_successor_is_next(query, query);
    assert(is_symbol(query[m - 1]));
    if occurs_at(text, order[i] as int, query) {
        assert(w =~= query);
        lemma_lt_asymmetric(query, query);
    }
    if !window_below(text, order[i], query) && window_below(text, order[i], next) {
        if w != query {
            lemma_lt_total(w, query);
            lemma_lcp(query, w);
            lemma_lcp(w, next);
            let d = lcp_len(query, w);
            if d < m - 1 {
                lemma_lcp_unique(w, next, d);
            } else {
                assert(d == m - 1);
                lemma_lcp_unique(w, next, d);
                assert(is_symbol(w[d]) || w[d] == SENTINEL) by {
                    assert(w[d] == text[order[i] + d]);
                }
            }
        }
        assert(occurs_at(text, order[i] as int, query));
    }
}

/// In a reference sequence of symbols of the alphabet and sentinels, the prefix
/// table does not change the answer to a query that it covers and that does not
/// end in `T`: the hits within the range of the first `k` symbols are the hits
/// in the whole suffix array.
pub proof fn lemma_narrowing_is_exact(index: IndexView, query: Seq<u8>)
    requires
        is_index(index),
        is_reference(index.text),
        index.order.len() <= usize::MAX,
        index.k > 0,
        is_dna(query),
        query.len() > 0,
        query.last() != SYMBOL_T,
        candidate_range(index, query) is Some,
    ensures
        answer(index, query) == answer(without_table(index), query),
{
    let text = index.text;
    let order = index.order;
    let table = index.table;
    let k = index.k as int;
    let n = order.len() as int;
    let key = query.subrange(0, k);
    let next = successor(query);
    let j = choose|j: int| 0 <= j < table.len() && (#[trigger] table[j]).prefix == key;
    let (lo, hi) = candidate_range(index, query)->Some_0;
    lemma_pivot_unique(query, query.len() - 1);
    lemma_successor_is_next(query, query);
    lemma_narrowing(index, query);
    lemma_first_parts_range(text, order, lo as int, hi as int, next);
    lemma_first_parts_range(text, order, 0, n, next);
    lemma_first_parts_range(text, order, 0, n, query);
    if hi < n {
        if window_below(text, order[hi as int], next) {
            lemma_outside_the_range(text, order, k, table, j, query, hi as int);
            lemma_hits_are_occurrences(text, order, 0, n as usize, query, hi as int);
            assert(occurs_at(text, order[hi as int] as int, query));
            assert(is_long(text, order, k, hi as int));
            assert(kmer_at(text, order, k, hi as int) =~= key);
            let c = lemma_table_complete(text, order, k, table, hi as int);
            assert(c == j);
        }
        assert forall|i: int| hi <= i < n implies !window_below(text, #[trigger] order[i], next) by {
            if window_below(text, order[i], next) {
                lemma_below_is_downward(text, order, hi as int, i, next);
            }
        }
    }
    let end = first_not_below(text, order, lo as int, hi as int, next);
    assert forall|i: int| 0 <= i < end implies window_below(text, #[trigger] order[i], next) by {
        if i < lo {
            lemma_outside_the_range(text, order, k, table, j, query, i);
            lemma_below_successor(text, order[i], query);
        }
    }
    lemma_parting_is_first(text, order, 0, n, next, end);
}

} // verus!
