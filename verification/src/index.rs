//! The index over one reference sequence, and the answers it gives.

use vstd::prelude::*;
use crate::error::IndexError;
use crate::prefix_table::{
    build_prefix_table, check_prefix_table, find_range, is_prefix_table,
    lemma_prefix_table_unique, lemma_range_in_bounds, range_of, rows_of, PrefixEntry, Row,
};
use crate::search::{first_not_below, lemma_first_not_below, search_naive, simpaccel};
use crate::successor::{
    is_dna, is_symbol, nextseq, successor, SENTINEL, SYMBOL_A, SYMBOL_C, SYMBOL_G, SYMBOL_T,
};
use crate::suffix_array::{
    build_suffix_array, check_suffix_array, is_suffix_array, lemma_suffix_array_unique,
};

verus! {

/// How the suffix array is searched. The mode decides the cost of a query,
/// never its answer.
#[derive(Clone, Copy, Debug, PartialEq, Eq, Structural)]
pub enum SearchMode {
    /// Plain bisection.
    Naive,
    /// Bisection that skips the symbols known to match.
    Simpaccel,
}

/// The positions `start .. end` of the suffix array that answer a query. Where
/// `end` is not above `start` the range holds nothing.
#[derive(Clone, Copy, Debug, PartialEq, Eq, Structural)]
pub struct HitRange {
    pub start: usize,
    pub end: usize,
}

/// An index: the reference sequence with its sentinel, its suffix array, the
/// length `k` of the prefixes in the prefix table, and that table, which is
/// empty where `k` is 0.
#[derive(Clone, Debug, PartialEq, Eq)]
pub struct IndexArtifact {
    pub text: Vec<u8>,
    pub order: Vec<usize>,
    pub k: u32,
    pub table: Vec<PrefixEntry>,
}

/// An index as plain values.
pub struct IndexView {
    pub text: Seq<u8>,
    pub order: Seq<usize>,
    pub k: u32,
    pub table: Seq<Row>,
}

impl View for IndexArtifact {
    type V = IndexView;

    open spec fn view(&self) -> IndexView {
        IndexView {
            text: self.text@,
            order: self.order@,
            k: self.k,
            table: rows_of(self.table@),
        }
    }
}

/// The parts belong together: `text` ends with the sentinel, `order` is its
/// suffix array, and `table` is the prefix table of the two for prefixes of `k`
/// symbols, or empty where `k` is 0.
pub open spec fn is_index(index: IndexView) -> bool {
    &&& index.text.len() > 0
    &&& index.text.last() == SENTINEL
    &&& is_suffix_array(index.text, index.order)
    &&& index.k == 0 ==> index.table.len() == 0
    &&& index.k > 0 ==> is_prefix_table(index.text, index.order, index.k as int, index.table)
}

/// The index of the reference sequence `text`, which ends with the sentinel,
/// with a prefix table for prefixes of `k` symbols. There is one such index and
/// no other.
pub open spec fn index_of(text: Seq<u8>, k: u32) -> IndexView {
    choose|index: IndexView| #[trigger] is_index(index) && index.text == text && index.k == k
}

/// A reference sequence has one index for each length of prefix.
pub proof fn lemma_index_unique(a: IndexView, b: IndexView)
    requires
        is_index(a),
        is_index(b),
        a.text == b.text,
        a.k == b.k,
    ensures
        a == b,
{
    lemma_suffix_array_unique(a.text, a.order, b.order);
    if a.k > 0 {
        lemma_prefix_table_unique(a.text, a.order, a.k as int, a.table, b.table);
    } else {
        assert(a.table =~= b.table);
    }
}

/// The range of the suffix array in which a query is searched: all of it where
/// the index has no prefix table, else the range that the table gives for the
/// first `k` symbols of the query. There is none where the query is shorter
/// than `k` or the table does not hold its first `k` symbols.
pub open spec fn candidate_range(index: IndexView, query: Seq<u8>) -> Option<(usize, usize)> {
    if index.k == 0 {
        Some((0usize, index.order.len() as usize))
    } else if query.len() < index.k {
        None
    } else {
        range_of(index.table, query.subrange(0, index.k as int))
    }
}

/// The answer to a query within the range `lo .. hi` of the suffix array: it
/// starts at the first suffix that, cut to the length of the query, is not below
/// the query, and ends before the first that, cut to the length of the query's
/// successor, is not below that successor.
pub open spec fn hits_within(
    text: Seq<u8>,
    order: Seq<usize>,
    lo: usize,
    hi: usize,
    query: Seq<u8>,
) -> HitRange {
    HitRange {
        start: first_not_below(text, order, lo as int, hi as int, query) as usize,
        end: first_not_below(text, order, lo as int, hi as int, successor(query)) as usize,
    }
}

/// The offsets that a hit range stands for: the entries `start .. end` of the
/// suffix array, in the order of the suffix array.
pub open spec fn hit_offsets(order: Seq<usize>, hits: HitRange) -> Seq<usize> {
    if hits.start <= hits.end <= order.len() {
        order.subrange(hits.start as int, hits.end as int)
    } else {
        Seq::empty()
    }
}

/// The answer of an index to `query`: the hits within the range in which the
/// query is searched. A query with a symbol outside the alphabet has none, and
/// neither has one for which there is no such range.
pub open spec fn answer(index: IndexView, query: Seq<u8>) -> Result<HitRange, IndexError> {
    if !is_dna(query) {
        Err(IndexError::ForeignSymbol)
    } else {
        match candidate_range(index, query) {
            None => Err(IndexError::UnindexedPrefix),
            Some((lo, hi)) => Ok(hits_within(index.text, index.order, lo, hi, query)),
        }
    }
}

impl IndexArtifact {
    /// The index is well formed: see `is_index`.
    pub open spec fn wf(&self) -> bool {
        is_index(self@)
    }

    /// Builds the index of `body`: appends the sentinel, sorts the suffixes and,
    /// where `k` is not 0, lays out the prefix table.
    pub fn build(body: &[u8], k: u32) -> (index: IndexArtifact)
        ensures
            index.wf(),
            index@ == index_of(body@.push(SENTINEL), k),
            index.text@ == body@.push(SENTINEL),
            index.k == k,
    {
        let mut text: Vec<u8> = vstd::slice::slice_to_vec(body);
        text.push(SENTINEL);
        let order: Vec<usize> = build_suffix_array(text.as_slice());
        let table: Vec<PrefixEntry> = if k == 0 {
            Vec::new()
        } else {
            build_prefix_table(text.as_slice(), order.as_slice(), k as usize)
        };
        let index = IndexArtifact { text, order, k, table };
        proof {
            assert(is_index(index@));
            lemma_index_unique(index@, index_of(body@.push(SENTINEL), k));
        }
        index
    }

    /// Whether the parts of the index belong together.
    pub fn validate(&self) -> (ok: bool)
        ensures
            ok == self.wf(),
    {
        let n: usize = self.text.len();
        if n == 0 || self.text[n - 1] != SENTINEL {
            return false;
        }
        if !check_suffix_array(self.text.as_slice(), self.order.as_slice()) {
            return false;
        }
        if self.k == 0 {
            self.table.len() == 0
        } else {
            check_prefix_table(
                self.text.as_slice(),
                self.order.as_slice(),
                self.k as usize,
                self.table.as_slice(),
            )
        }
    }

    /// Answers `query`: the range of the suffix array whose suffixes lie from
    /// the query up to, and not including, its successor.
    ///
    /// A query with a symbol outside the alphabet is refused. A query that the
    /// prefix table does not cover is refused too: the table has no way back to
    /// the whole suffix array. Both searches give the same range.
    pub fn resolve(&self, mode: SearchMode, query: &[u8]) -> (r: Result<HitRange, IndexError>)
        requires
            self.wf(),
        ensures
            r == answer(self@, query@),
    {
        if !is_query(query) {
            return Err(IndexError::ForeignSymbol);
        }
        let n: usize = self.order.len();
        let (lo, hi): (usize, usize) = if self.k == 0 {
            (0, n)
        } else {
            let k: usize = self.k as usize;
            if query.len() < k {
                return Err(IndexError::UnindexedPrefix);
            }
            let key = vstd::slice::slice_subrange(query, 0, k);
            match find_range(self.table.as_slice(), key) {
                None => {
                    return Err(IndexError::UnindexedPrefix);
                },
                Some(range) => {
                    proof {
                        lemma_range_in_bounds(
                            self.text@,
                            self.order@,
                            self.k as int,
                            rows_of(self.table@),
                            key@,
                        );
                    }
                    range
                },
            }
        };
        let next: Vec<u8> = nextseq(query);
        let text = self.text.as_slice();
        let order = self.order.as_slice();
        proof {
            lemma_first_not_below(self.text@, self.order@, lo as int, hi as int, query@);
            lemma_first_not_below(self.text@, self.order@, lo as int, hi as int, next@);
        }
        let (start, end): (usize, usize) = match mode {
            SearchMode::Naive => (
                search_naive(text, order, lo, hi, query),
                search_naive(text, order, lo, hi, next.as_slice()),
            ),
            SearchMode::Simpaccel => (
                simpaccel(text, order, lo, hi, query),
                simpaccel(text, order, lo, hi, next.as_slice()),
            ),
        };
        Ok(HitRange { start, end })
    }

    /// The offsets into the reference sequence that `hits` stands for, in the
    /// order of the suffix array.
    pub fn offsets(&self, hits: HitRange) -> (found: Vec<usize>)
        ensures
            found@ == hit_offsets(self.order@, hits),
    {
        let mut found: Vec<usize> = Vec::new();
        if hits.start <= hits.end && hits.end <= self.order.len() {
            let mut i: usize = hits.start;
            while i < hits.end
                invariant
                    hits.start <= i <= hits.end <= self.order@.len(),
                    found@ == self.order@.subrange(hits.start as int, i as int),
                decreases hits.end - i,
            {
                found.push(self.order[i]);
                i += 1;
                assert(found@ =~= self.order@.subrange(hits.start as int, i as int));
            }
        }
        found
    }
}

/// Whether every symbol of `query` belongs to the alphabet.
pub fn is_query(query: &[u8]) -> (ok: bool)
    ensures
        ok == is_dna(query@),
{
    let n: usize = query.len();
    let mut i: usize = 0;
    while i < n
        invariant
            n == query@.len(),
            i <= n,
            forall|j: int| 0 <= j < i ==> is_symbol(#[trigger] query@[j]),
        decreases n - i,
    {
        let b: u8 = query[i];
        if b != SYMBOL_A && b != SYMBOL_C && b != SYMBOL_G && b != SYMBOL_T {
            return false;
        }
        i += 1;
    }
    true
}

} // verus!
