//! The prefix table: for each prefix of a fixed length that a suffix of the text
//! starts with, the range of the suffix array that holds those suffixes.

use vstd::prelude::*;
use vstd::slice::{slice_subrange, slice_to_vec};
use crate::lex::{
    lemma_lt_asymmetric, lemma_lt_total, lemma_lt_transitive, lemma_take_monotone, lex_lt,
    precedes, suffix, window,
};
use crate::ordering::suffix_below;
use crate::suffix_array::is_suffix_array;

verus! {

/// One line of the prefix table: the positions `lo .. hi` of the suffix array
/// belong to the suffixes that start with `prefix`.
#[derive(Clone, Debug, PartialEq, Eq)]
pub struct PrefixEntry {
    pub prefix: Vec<u8>,
    pub lo: usize,
    pub hi: usize,
}

/// An entry of the prefix table as plain values.
pub struct Row {
    pub prefix: Seq<u8>,
    pub lo: usize,
    pub hi: usize,
}

impl View for PrefixEntry {
    type V = Row;

    open spec fn view(&self) -> Row {
        Row { prefix: self.prefix@, lo: self.lo, hi: self.hi }
    }
}

/// The entries of a table as plain values.
pub open spec fn rows_of(table: Seq<PrefixEntry>) -> Seq<Row> {
    Seq::new(table.len(), |j: int| table[j]@)
}

/// The suffix at position `i` of the suffix array has at least `k` symbols.
pub open spec fn is_long(text: Seq<u8>, order: Seq<usize>, k: int, i: int) -> bool {
    order[i] + k <= text.len()
}

/// The first `k` symbols of the suffix at position `i` of the suffix array.
pub open spec fn kmer_at(text: Seq<u8>, order: Seq<usize>, k: int, i: int) -> Seq<u8> {
    text.subrange(order[i] as int, order[i] + k)
}

/// The range of `e` is not empty, starts at a suffix of at least `k` symbols
/// and holds, among such suffixes, only those that start with the prefix of
/// `e`, which has `k` symbols.
pub open spec fn entry_fits(text: Seq<u8>, order: Seq<usize>, k: int, e: Row) -> bool {
    &&& e.prefix.len() == k
    &&& e.lo < e.hi <= order.len()
    &&& is_long(text, order, k, e.lo as int)
    &&& forall|i: int|
        e.lo <= i < e.hi && #[trigger] is_long(text, order, k, i) ==> kmer_at(text, order, k, i)
            == e.prefix
}

/// The prefixes of the table strictly ascend.
pub open spec fn keys_ascend(table: Seq<Row>) -> bool {
    forall|i: int, j: int|
        0 <= i < j < table.len() ==> lex_lt(
            (#[trigger] table[i]).prefix,
            (#[trigger] table[j]).prefix,
        )
}

/// `table` is the prefix table of the suffix array `order` of `text` for
/// prefixes of `k` symbols: one entry for each prefix of that length that a
/// suffix starts with, in ascending order of the prefixes; each range begins
/// where the one before it ends, the first at the first suffix of at least `k`
/// symbols, and the last ends with the suffix array. Suffixes of fewer than `k`
/// symbols have no prefix of their own; one that stands behind the suffixes of a
/// prefix lies in the range of that prefix.
pub open spec fn is_prefix_table(
    text: Seq<u8>,
    order: Seq<usize>,
    k: int,
    table: Seq<Row>,
) -> bool {
    &&& forall|j: int| 0 <= j < table.len() ==> entry_fits(text, order, k, #[trigger] table[j])
    &&& forall|j: int|
        0 <= j && j + 1 < table.len() ==> (#[trigger] table[j]).hi == table[j + 1].lo
    &&& keys_ascend(table)
    &&& table.len() > 0 ==> table.last().hi == order.len()
    &&& forall|i: int|
        0 <= i < (if table.len() > 0 {
            table[0].lo as int
        } else {
            order.len() as int
        }) ==> !#[trigger] is_long(text, order, k, i)
}

/// Whether some entry of `table` has the prefix `key`.
pub open spec fn has_key(table: Seq<Row>, key: Seq<u8>) -> bool {
    exists|j: int| 0 <= j < table.len() && (#[trigger] table[j]).prefix == key
}

/// The range that `table` gives for the prefix `key`, where it has one.
pub open spec fn range_of(table: Seq<Row>, key: Seq<u8>) -> Option<(usize, usize)> {
    if has_key(table, key) {
        let j = choose|j: int| 0 <= j < table.len() && (#[trigger] table[j]).prefix == key;
        Some((table[j].lo, table[j].hi))
    } else {
        None
    }
}

/// Where the prefixes ascend, the entry with a given prefix is the only one.
pub proof fn lemma_range_of(table: Seq<Row>, j: int)
    requires
        keys_ascend(table),
        0 <= j < table.len(),
    ensures
        range_of(table, table[j].prefix) == Some((table[j].lo, table[j].hi)),
{
    let key = table[j].prefix;
    let c = choose|c: int| 0 <= c < table.len() && (#[trigger] table[c]).prefix == key;
    if c < j {
        lemma_lt_asymmetric(table[c].prefix, table[j].prefix);
    } else if j < c {
        lemma_lt_asymmetric(table[j].prefix, table[c].prefix);
    }
}

/// The range that a prefix table gives for a prefix is a range of the suffix
/// array, and it is not empty.
pub proof fn lemma_range_in_bounds(
    text: Seq<u8>,
    order: Seq<usize>,
    k: int,
    table: Seq<Row>,
    key: Seq<u8>,
)
    requires
        is_prefix_table(text, order, k, table),
        range_of(table, key) is Some,
    ensures
        ({
            let (lo, hi) = range_of(table, key)->Some_0;
            lo < hi <= order.len()
        }),
{
    let j = choose|j: int| 0 <= j < table.len() && (#[trigger] table[j]).prefix == key;
    assert(entry_fits(text, order, k, table[j]));
}

/// Prefixes that ascend from each entry to the next ascend throughout.
pub proof fn lemma_keys_ascend(table: Seq<Row>, i: int, j: int)
    requires
        forall|t: int|
            0 <= t && t + 1 < table.len() ==> lex_lt(
                (#[trigger] table[t]).prefix,
                table[t + 1].prefix,
            ),
        0 <= i < j < table.len(),
    ensures
        lex_lt(table[i].prefix, table[j].prefix),
    decreases j - i,
{
    if i + 1 < j {
        lemma_keys_ascend(table, i, j - 1);
        lemma_lt_transitive(table[i].prefix, table[j - 1].prefix, table[j].prefix);
    }
}

/// Of two suffixes of at least `k` symbols, the one that stands first in the
/// suffix array has the same first `k` symbols as the other or a lesser `k`.
pub proof fn lemma_kmers_ascend(text: Seq<u8>, order: Seq<usize>, k: int, i: int, j: int)
    requires
        is_suffix_array(text, order),
        0 <= k,
        0 <= i < j < order.len(),
        is_long(text, order, k, i),
        is_long(text, order, k, j),
    ensures
        kmer_at(text, order, k, i) == kmer_at(text, order, k, j) || lex_lt(
            kmer_at(text, order, k, i),
            kmer_at(text, order, k, j),
        ),
{
    let a = suffix(text, order[i] as int);
    let b = suffix(text, order[j] as int);
    assert(suffix_below(text, order[i], order[j]));
    lemma_take_monotone(a, b, k);
    assert(window(a, 0, k) =~= kmer_at(text, order, k, i));
    assert(window(b, 0, k) =~= kmer_at(text, order, k, j));
}

/// Ranges that follow one another do not overlap: an earlier one ends before a
/// later one begins.
pub proof fn lemma_ranges_in_order(
    text: Seq<u8>,
    order: Seq<usize>,
    k: int,
    table: Seq<Row>,
    a: int,
    b: int,
)
    requires
        is_prefix_table(text, order, k, table),
        0 <= a < b < table.len(),
    ensures
        table[a].hi <= table[b].lo,
    decreases b - a,
{
    assert(entry_fits(text, order, k, table[b - 1]));
    if a + 1 < b {
        lemma_ranges_in_order(text, order, k, table, a, b - 1);
    }
}

/// From an entry whose range begins at or before position `i`, some entry at or
/// after it has `i` in its range.
proof fn lemma_range_covers(
    text: Seq<u8>,
    order: Seq<usize>,
    k: int,
    table: Seq<Row>,
    i: int,
    from: int,
) -> (j: int)
    requires
        is_prefix_table(text, order, k, table),
        0 <= from < table.len(),
        table[from].lo <= i < order.len(),
    ensures
        from <= j < table.len(),
        table[j].lo <= i < table[j].hi,
    decreases table.len() - from,
{
    if i < table[from].hi {
        from
    } else {
        lemma_range_covers(text, order, k, table, i, from + 1)
    }
}

/// Every suffix of at least `k` symbols lies in the range of exactly one entry
/// of the prefix table, and that entry, and no other, has its first `k` symbols
/// as its prefix.
pub proof fn lemma_table_complete(
    text: Seq<u8>,
    order: Seq<usize>,
    k: int,
    table: Seq<Row>,
    i: int,
) -> (j: int)
    requires
        is_prefix_table(text, order, k, table),
        0 <= i < order.len(),
        is_long(text, order, k, i),
    ensures
        0 <= j < table.len(),
        table[j].lo <= i < table[j].hi,
        table[j].prefix == kmer_at(text, order, k, i),
        forall|other: int|
            0 <= other < table.len() && (#[trigger] table[other]).lo <= i < table[other].hi
                ==> other == j,
        forall|other: int|
            0 <= other < table.len() && (#[trigger] table[other]).prefix == kmer_at(
                text,
                order,
                k,
                i,
            ) ==> other == j,
        range_of(table, kmer_at(text, order, k, i)) == Some((table[j].lo, table[j].hi)),
{
    let j = lemma_range_covers(text, order, k, table, i, 0);
    assert(entry_fits(text, order, k, table[j]));
    assert forall|other: int|
        0 <= other < table.len() && (#[trigger] table[other]).lo <= i
            < table[other].hi implies other == j by {
        if other < j {
            lemma_ranges_in_order(text, order, k, table, other, j);
        } else if j < other {
            lemma_ranges_in_order(text, order, k, table, j, other);
        }
    }
    assert forall|other: int|
        0 <= other < table.len() && (#[trigger] table[other]).prefix == kmer_at(
            text,
            order,
            k,
            i,
        ) implies other == j by {
        if other < j {
            lemma_lt_asymmetric(table[other].prefix, table[j].prefix);
        } else if j < other {
            lemma_lt_asymmetric(table[j].prefix, table[other].prefix);
        }
    }
    lemma_range_of(table, j);
    j
}

/// Two prefix tables of one suffix array agree on their first `upto` entries.
proof fn lemma_tables_agree(
    text: Seq<u8>,
    order: Seq<usize>,
    k: int,
    a: Seq<Row>,
    b: Seq<Row>,
    upto: int,
)
    requires
        is_prefix_table(text, order, k, a),
        is_prefix_table(text, order, k, b),
        0 <= upto <= a.len(),
    ensures
        upto <= b.len(),
        forall|j: int| 0 <= j < upto ==> a[j] == b[j],
    decreases upto,
{
    if upto > 0 {
        let j = upto - 1;
        lemma_tables_agree(text, order, k, a, b, j);
        assert(entry_fits(text, order, k, a[j]));
        if j == 0 {
            assert(is_long(text, order, k, a[0].lo as int));
            assert(b.len() > 0);
        } else {
            assert(a[j - 1] == b[j - 1]);
            assert(a[j - 1].hi == a[j].lo);
            assert(b.last().hi == order.len());
            assert(b.len() > j);
            assert(b[j - 1].hi == b[j].lo);
        }
        assert(entry_fits(text, order, k, b[j]));
        assert(a[j].lo == b[j].lo);
        assert(kmer_at(text, order, k, a[j].lo as int) == a[j].prefix);
        assert(kmer_at(text, order, k, b[j].lo as int) == b[j].prefix);
        if a[j].hi < b[j].hi {
            lemma_next_entry_differs(text, order, k, a, j);
            assert(is_long(text, order, k, a[j].hi as int));
        }
        if b[j].hi < a[j].hi {
            lemma_next_entry_differs(text, order, k, b, j);
            assert(is_long(text, order, k, b[j].hi as int));
        }
    }
}

/// Where the range of an entry ends before the suffix array does, a suffix of
/// at least `k` symbols stands right behind it, and it starts with another
/// prefix.
proof fn lemma_next_entry_differs(
    text: Seq<u8>,
    order: Seq<usize>,
    k: int,
    table: Seq<Row>,
    j: int,
)
    requires
        is_prefix_table(text, order, k, table),
        0 <= j < table.len(),
        table[j].hi < order.len(),
    ensures
        is_long(text, order, k, table[j].hi as int),
        kmer_at(text, order, k, table[j].hi as int) != table[j].prefix,
{
    assert(j + 1 < table.len());
    assert(table[j].hi == table[j + 1].lo);
    assert(entry_fits(text, order, k, table[j + 1]));
    assert(is_long(text, order, k, table[j + 1].lo as int));
    assert(kmer_at(text, order, k, table[j + 1].lo as int) == table[j + 1].prefix);
    lemma_lt_asymmetric(table[j].prefix, table[j + 1].prefix);
}

/// A suffix array has one prefix table for each length of prefix.
pub proof fn lemma_prefix_table_unique(
    text: Seq<u8>,
    order: Seq<usize>,
    k: int,
    a: Seq<Row>,
    b: Seq<Row>,
)
    requires
        is_prefix_table(text, order, k, a),
        is_prefix_table(text, order, k, b),
    ensures
        a == b,
{
    lemma_tables_agree(text, order, k, a, b, a.len() as int);
    lemma_tables_agree(text, order, k, b, a, b.len() as int);
    assert(a =~= b);
}

/// A table whose entries fit, follow one another and ascend stays so when an
/// entry is added that fits, begins where the last range ends and has a prefix
/// above all others.
proof fn lemma_push_entry(text: Seq<u8>, order: Seq<usize>, k: int, before: Seq<Row>, entry: Row)
    requires
        forall|j: int| 0 <= j < before.len() ==> entry_fits(text, order, k, #[trigger] before[j]),
        forall|j: int|
            0 <= j && j + 1 < before.len() ==> (#[trigger] before[j]).hi == before[j + 1].lo,
        keys_ascend(before),
        entry_fits(text, order, k, entry),
        before.len() > 0 ==> before.last().hi == entry.lo,
        forall|j: int|
            0 <= j < before.len() ==> lex_lt((#[trigger] before[j]).prefix, entry.prefix),
    ensures
        forall|j: int|
            0 <= j < before.push(entry).len() ==> entry_fits(
                text,
                order,
                k,
                #[trigger] before.push(entry)[j],
            ),
        forall|j: int|
            0 <= j && j + 1 < before.push(entry).len() ==> (#[trigger] before.push(entry)[j]).hi
                == before.push(entry)[j + 1].lo,
        keys_ascend(before.push(entry)),
        before.push(entry)[0].lo == if before.len() > 0 {
            before[0].lo
        } else {
            entry.lo
        },
{
    let after = before.push(entry);
    assert forall|j: int| 0 <= j < after.len() implies entry_fits(
        text,
        order,
        k,
        #[trigger] after[j],
    ) by {
        if j < before.len() {
            assert(after[j] == before[j]);
        }
    }
    assert forall|a: int, b: int| 0 <= a < b < after.len() implies lex_lt(
        (#[trigger] after[a]).prefix,
        (#[trigger] after[b]).prefix,
    ) by {
        assert(after[a] == before[a]);
        if b < before.len() {
            assert(after[b] == before[b]);
        }
    }
    assert forall|j: int| 0 <= j && j + 1 < after.len() implies (#[trigger] after[j]).hi == after[j
        + 1].lo by {
        assert(after[j] == before[j]);
        if j + 1 < before.len() {
            assert(after[j + 1] == before[j + 1]);
        }
    }
}

/// Whether `text` holds `key` at offset `at`.
pub fn holds_at(text: &[u8], at: usize, key: &[u8]) -> (r: bool)
    requires
        at + key@.len() <= text@.len(),
    ensures
        r == (text@.subrange(at as int, at + key@.len()) == key@),
{
    let n: usize = text.len();
    let k: usize = key.len();
    let mut j: usize = 0;
    while j < k
        invariant
            n == text@.len(),
            k == key@.len(),
            at + k <= n,
            j <= k,
            forall|t: int| 0 <= t < j ==> text@[at + t] == key@[t],
        decreases k - j,
    {
        if text[at + j] != key[j] {
            assert(text@.subrange(at as int, at + k)[j as int] != key@[j as int]);
            return false;
        }
        j += 1;
    }
    assert(text@.subrange(at as int, at + k) =~= key@);
    true
}

/// Builds the prefix table of the suffix array `order` of `text` for prefixes of
/// `k` symbols, in one pass over the suffix array. A suffix of fewer than `k`
/// symbols opens no range and closes none.
pub fn build_prefix_table(text: &[u8], order: &[usize], k: usize) -> (table: Vec<PrefixEntry>)
    requires
        is_suffix_array(text@, order@),
        k >= 1,
    ensures
        is_prefix_table(text@, order@, k as int, rows_of(table@)),
{
    let n: usize = text.len();
    let mut table: Vec<PrefixEntry> = Vec::new();
    let mut key: Vec<u8> = Vec::new();
    let mut start: usize = 0;
    let mut open: bool = false;
    let mut i: usize = 0;
    while i < n
        invariant
            is_suffix_array(text@, order@),
            n == text@.len(),
            k >= 1,
            i <= n,
            forall|j: int|
                0 <= j < rows_of(table@).len() ==> entry_fits(
                    text@,
                    order@,
                    k as int,
                    #[trigger] rows_of(table@)[j],
                ),
            forall|j: int|
                0 <= j && j + 1 < rows_of(table@).len() ==> (#[trigger] rows_of(table@)[j]).hi
                    == rows_of(table@)[j + 1].lo,
            keys_ascend(rows_of(table@)),
            !open ==> rows_of(table@).len() == 0,
            !open ==> forall|p: int| 0 <= p < i ==> !#[trigger] is_long(text@, order@, k as int, p),
            open ==> start < i,
            open ==> is_long(text@, order@, k as int, start as int),
            open ==> key@ == kmer_at(text@, order@, k as int, start as int),
            open ==> forall|p: int|
                start <= p < i && #[trigger] is_long(text@, order@, k as int, p) ==> kmer_at(
                    text@,
                    order@,
                    k as int,
                    p,
                ) == key@,
            open && rows_of(table@).len() > 0 ==> rows_of(table@).last().hi == start,
            open ==> forall|j: int|
                0 <= j < rows_of(table@).len() ==> lex_lt(
                    (#[trigger] rows_of(table@)[j]).prefix,
                    key@,
                ),
            forall|p: int|
                0 <= p < (if rows_of(table@).len() > 0 {
                    rows_of(table@)[0].lo as int
                } else if open {
                    start as int
                } else {
                    i as int
                }) ==> !#[trigger] is_long(text@, order@, k as int, p),
        decreases n - i,
    {
        let off: usize = order[i];
        if n - off >= k {
            if !open {
                key = slice_to_vec(slice_subrange(text, off, off + k));
                start = i;
                open = true;
            } else if !holds_at(text, off, key.as_slice()) {
                let next_key: Vec<u8> = slice_to_vec(slice_subrange(text, off, off + k));
                proof {
                    lemma_kmers_ascend(text@, order@, k as int, start as int, i as int);
                    assert forall|j: int| 0 <= j < rows_of(table@).len() implies lex_lt(
                        (#[trigger] rows_of(table@)[j]).prefix,
                        next_key@,
                    ) by {
                        lemma_lt_transitive(rows_of(table@)[j].prefix, key@, next_key@);
                    }
                }
                let ghost before = rows_of(table@);
                let entry = PrefixEntry { prefix: key, lo: start, hi: i };
                table.push(entry);
                proof {
                    assert(rows_of(table@) =~= before.push(entry@));
                    lemma_push_entry(text@, order@, k as int, before, entry@);
                }
                key = next_key;
                start = i;
            }
        }
        i += 1;
    }
    if open {
        let ghost before = rows_of(table@);
        let entry = PrefixEntry { prefix: key, lo: start, hi: n };
        table.push(entry);
        proof {
            assert(rows_of(table@) =~= before.push(entry@));
            lemma_push_entry(text@, order@, k as int, before, entry@);
        }
    }
    table
}

/// Looks up the range that `table` gives for the prefix `key`, by bisection
/// over the ascending prefixes.
pub fn find_range(table: &[PrefixEntry], key: &[u8]) -> (r: Option<(usize, usize)>)
    requires
        keys_ascend(rows_of(table@)),
    ensures
        r == range_of(rows_of(table@), key@),
{
    let ghost rows = rows_of(table@);
    let mut lo: usize = 0;
    let mut hi: usize = table.len();
    while lo < hi
        invariant
            rows == rows_of(table@),
            keys_ascend(rows),
            lo <= hi <= rows.len(),
            forall|j: int| 0 <= j < lo ==> lex_lt((#[trigger] rows[j]).prefix, key@),
            forall|j: int| hi <= j < rows.len() ==> lex_lt(key@, (#[trigger] rows[j]).prefix),
        decreases hi - lo,
    {
        let mid: usize = lo + (hi - lo) / 2;
        let entry = &table[mid];
        if precedes(entry.prefix.as_slice(), key) {
            proof {
                assert forall|j: int| 0 <= j < mid + 1 implies lex_lt(
                    (#[trigger] rows[j]).prefix,
                    key@,
                ) by {
                    if j < mid {
                        lemma_lt_transitive(rows[j].prefix, rows[mid as int].prefix, key@);
                    }
                }
            }
            lo = mid + 1;
        } else if precedes(key, entry.prefix.as_slice()) {
            proof {
                assert forall|j: int| mid <= j < rows.len() implies lex_lt(
                    key@,
                    (#[trigger] rows[j]).prefix,
                ) by {
                    if mid < j {
                        lemma_lt_transitive(key@, rows[mid as int].prefix, rows[j].prefix);
                    }
                }
            }
            hi = mid;
        } else {
            proof {
                lemma_lt_total(entry.prefix@, key@);
                lemma_range_of(rows, mid as int);
            }
            return Some((entry.lo, entry.hi));
        }
    }
    proof {
        if has_key(rows, key@) {
            let j = choose|j: int| 0 <= j < rows.len() && (#[trigger] rows[j]).prefix == key@;
            if j < lo {
                lemma_lt_asymmetric(rows[j].prefix, key@);
            } else {
                lemma_lt_asymmetric(key@, rows[j].prefix);
            }
        }
    }
    None
}

/// Whether the range of `entry` fits its prefix: see `entry_fits`.
pub fn check_entry(text: &[u8], order: &[usize], k: usize, entry: &PrefixEntry) -> (ok: bool)
    requires
        is_suffix_array(text@, order@),
    ensures
        ok == entry_fits(text@, order@, k as int, entry@),
{
    let n: usize = text.len();
    if entry.prefix.len() != k || entry.lo >= entry.hi || entry.hi > n {
        return false;
    }
    if n - order[entry.lo] < k {
        return false;
    }
    let mut i: usize = entry.lo;
    while i < entry.hi
        invariant
            n == text@.len(),
            n == order@.len(),
            forall|t: int| 0 <= t < n ==> #[trigger] order@[t] < n,
            entry.prefix@.len() == k,
            entry.lo <= i <= entry.hi <= n,
            forall|t: int|
                entry.lo <= t < i && #[trigger] is_long(text@, order@, k as int, t) ==> kmer_at(
                    text@,
                    order@,
                    k as int,
                    t,
                ) == entry.prefix@,
        decreases entry.hi - i,
    {
        let off: usize = order[i];
        if n - off >= k && !holds_at(text, off, entry.prefix.as_slice()) {
            assert(is_long(text@, order@, k as int, i as int));
            return false;
        }
        i += 1;
    }
    true
}

/// Whether `table` is the prefix table of the suffix array `order` of `text` for
/// prefixes of `k` symbols.
pub fn check_prefix_table(text: &[u8], order: &[usize], k: usize, table: &[PrefixEntry]) -> (ok:
    bool)
    requires
        is_suffix_array(text@, order@),
    ensures
        ok == is_prefix_table(text@, order@, k as int, rows_of(table@)),
{
    let n: usize = text.len();
    let count: usize = table.len();
    let ghost rows = rows_of(table@);
    let mut j: usize = 0;
    while j < count
        invariant
            is_suffix_array(text@, order@),
            rows == rows_of(table@),
            count == table@.len(),
            j <= count,
            forall|t: int| 0 <= t < j ==> entry_fits(text@, order@, k as int, #[trigger] rows[t]),
            forall|t: int| 0 <= t && t + 1 < j ==> (#[trigger] rows[t]).hi == rows[t + 1].lo,
            forall|t: int|
                0 <= t && t + 1 < j ==> lex_lt((#[trigger] rows[t]).prefix, rows[t + 1].prefix),
        decreases count - j,
    {
        let entry = &table[j];
        assert(entry@ == rows[j as int]);
        if !check_entry(text, order, k, entry) {
            return false;
        }
        if j > 0 {
            let before = &table[j - 1];
            assert(before@ == rows[j - 1]);
            if before.hi != entry.lo {
                return false;
            }
            if !precedes(before.prefix.as_slice(), entry.prefix.as_slice()) {
                assert(!keys_ascend(rows));
                return false;
            }
        }
        j += 1;
    }
    if count > 0 && table[count - 1].hi != n {
        assert(rows.last().hi != n);
        return false;
    }
    let first: usize = if count > 0 {
        assert(entry_fits(text@, order@, k as int, rows[0]));
        table[0].lo
    } else {
        n
    };
    let mut p: usize = 0;
    while p < first
        invariant
            n == text@.len(),
            n == order@.len(),
            forall|i: int| 0 <= i < n ==> #[trigger] order@[i] < n,
            p <= first <= n,
            rows == rows_of(table@),
            count == table@.len(),
            count > 0 ==> first == rows[0].lo,
            count == 0 ==> first == n,
            forall|i: int| 0 <= i < p ==> !#[trigger] is_long(text@, order@, k as int, i),
        decreases first - p,
    {
        if n - order[p] >= k {
            assert(is_long(text@, order@, k as int, p as int));
            return false;
        }
        p += 1;
    }
    proof {
        assert forall|a: int, b: int| 0 <= a < b < rows.len() implies lex_lt(
            (#[trigger] rows[a]).prefix,
            (#[trigger] rows[b]).prefix,
        ) by {
            lemma_keys_ascend(rows, a, b);
        }
    }
    true
}

} // verus!
