//! The binary image of an index: the reference sequence, the suffix array, the
//! prefix length and the prefix table, one after the other.
//!
//! Every length and every position is written as eight bytes, least significant
//! byte first; the prefix length as four. A sequence of symbols is its length
//! and then its symbols, one byte each. The suffix array is its length and then
//! its offsets. The table is the number of its entries and then the entries,
//! each as its prefix, the start of its range and the end of its range. This is
//! how `bincode` lays out the tuple of the four with its default options and
//! fixed-width integers.

use vstd::prelude::*;
use vstd::bytes::{
    lemma_auto_spec_u32_to_from_le_bytes, lemma_auto_spec_u64_to_from_le_bytes,
    spec_u32_from_le_bytes, spec_u32_to_le_bytes, spec_u64_from_le_bytes, spec_u64_to_le_bytes,
    u32_from_le_bytes, u64_from_le_bytes,
};
use vstd::slice::{slice_subrange, slice_to_vec};
use crate::error::IndexError;
use crate::index::{is_index, IndexArtifact, IndexView};
use crate::prefix_table::{rows_of, PrefixEntry, Row};

verus! {

/// The entries of a table of pairs as plain values.
pub open spec fn pair_rows(pairs: Seq<(Vec<u8>, (usize, usize))>) -> Seq<Row> {
    Seq::new(
        pairs.len(),
        |j: int| Row { prefix: pairs[j].0@, lo: pairs[j].1.0, hi: pairs[j].1.1 },
    )
}

/// A length or a position: eight bytes, least significant byte first.
pub open spec fn word(x: usize) -> Seq<u8> {
    spec_u64_to_le_bytes(x as u64)
}

/// A sequence of symbols: its length, then the symbols.
pub open spec fn blob(s: Seq<u8>) -> Seq<u8> {
    word(s.len() as usize) + s
}

/// The offsets of `s`, one word each.
pub open spec fn words(s: Seq<usize>) -> Seq<u8>
    decreases s.len(),
{
    if s.len() == 0 {
        Seq::empty()
    } else {
        words(s.drop_last()) + word(s.last())
    }
}

/// One entry of the table: the prefix, the start and the end of its range.
pub open spec fn row_bytes(row: Row) -> Seq<u8> {
    blob(row.prefix) + word(row.lo) + word(row.hi)
}

/// The entries of `rows`, one after the other.
pub open spec fn rows_bytes(rows: Seq<Row>) -> Seq<u8>
    decreases rows.len(),
{
    if rows.len() == 0 {
        Seq::empty()
    } else {
        rows_bytes(rows.drop_last()) + row_bytes(rows.last())
    }
}

/// The image of an index.
pub open spec fn index_bytes(index: IndexView) -> Seq<u8> {
    blob(index.text) + word(index.order.len() as usize) + words(index.order)
        + spec_u32_to_le_bytes(index.k) + word(index.table.len() as usize) + rows_bytes(
        index.table,
    )
}

/// `bincode::ErrorKind`, the reason that `bincode` gives where it fails.
/// Nothing of it is looked at.
#[verifier::external_type_specification]
#[verifier::external_body]
pub struct ExErrorKind(bincode::ErrorKind);

/// Writes the four parts of an index as one tuple, with `bincode::serialize`.
///
/// Taken from `bincode` without proof: the call succeeds, and the bytes are the
/// image that `index_bytes` states. `bincode::serialize` writes fixed-width
/// integers, least significant byte first; a `usize` as a `u64`; a vector as
/// its length, a `u64`, and then its elements; a tuple as its fields and
/// nothing else. It fails only on a size limit, which it does not set, on a
/// sequence of unknown length and on a writer that fails, and it writes to a
/// vector.
#[verifier::external_body]
fn bincode_image(
    text: &Vec<u8>,
    order: &Vec<usize>,
    k: u32,
    pairs: &Vec<(Vec<u8>, (usize, usize))>,
) -> (r: Result<Vec<u8>, Box<bincode::ErrorKind>>)
    ensures
        r is Ok,
        r->Ok_0@ == index_bytes(
            IndexView { text: text@, order: order@, k: k, table: pair_rows(pairs@) },
        ),
{
    bincode::serialize(&(text, order, k, pairs))
}

/// The entries of `table` as pairs of a prefix and a range.
pub fn table_pairs(table: &[PrefixEntry]) -> (pairs: Vec<(Vec<u8>, (usize, usize))>)
    ensures
        pair_rows(pairs@) == rows_of(table@),
{
    let mut pairs: Vec<(Vec<u8>, (usize, usize))> = Vec::new();
    let mut j: usize = 0;
    while j < table.len()
        invariant
            j <= table@.len(),
            pairs@.len() == j,
            forall|t: int|
                0 <= t < j ==> (#[trigger] pairs@[t]).0@ == table@[t].prefix@ && pairs@[t].1.0
                    == table@[t].lo && pairs@[t].1.1 == table@[t].hi,
        decreases table@.len() - j,
    {
        let entry = &table[j];
        let prefix: Vec<u8> = slice_to_vec(entry.prefix.as_slice());
        pairs.push((prefix, (entry.lo, entry.hi)));
        j += 1;
    }
    assert(pair_rows(pairs@) =~= rows_of(table@));
    pairs
}

/// The image of `index`.
pub fn encode(index: &IndexArtifact) -> (bytes: Vec<u8>)
    ensures
        bytes@ == index_bytes(index@),
{
    let pairs = table_pairs(index.table.as_slice());
    match bincode_image(&index.text, &index.order, index.k, &pairs) {
        Ok(bytes) => bytes,
        Err(_) => vstd::pervasive::unreached(),
    }
}

/// Reads a word at `at`: its value and the place behind it. There is none
/// where fewer than eight bytes are left or the value is no `usize`.
pub open spec fn read_word(bytes: Seq<u8>, at: int) -> Option<(usize, int)> {
    if 0 <= at && at + 8 <= bytes.len() {
        let v = spec_u64_from_le_bytes(bytes.subrange(at, at + 8));
        if v <= usize::MAX {
            Some((v as usize, at + 8))
        } else {
            None
        }
    } else {
        None
    }
}

/// Reads the prefix length at `at`: four bytes.
pub open spec fn read_k(bytes: Seq<u8>, at: int) -> Option<(u32, int)> {
    if 0 <= at && at + 4 <= bytes.len() {
        Some((spec_u32_from_le_bytes(bytes.subrange(at, at + 4)), at + 4))
    } else {
        None
    }
}

/// Reads a sequence of symbols at `at`: a length, and as many symbols.
pub open spec fn read_blob(bytes: Seq<u8>, at: int) -> Option<(Seq<u8>, int)> {
    match read_word(bytes, at) {
        Some((n, p)) => if p + n <= bytes.len() {
            Some((bytes.subrange(p, p + n), p + n))
        } else {
            None
        },
        None => None,
    }
}

/// Reads `count` words from `at` on.
pub open spec fn read_words(bytes: Seq<u8>, at: int, count: nat) -> Option<(Seq<usize>, int)>
    decreases count,
{
    if count == 0 {
        Some((Seq::empty(), at))
    } else {
        match read_words(bytes, at, (count - 1) as nat) {
            Some((s, p)) => match read_word(bytes, p) {
                Some((v, q)) => Some((s.push(v), q)),
                None => None,
            },
            None => None,
        }
    }
}

/// Reads one entry of the table at `at`.
pub open spec fn read_row(bytes: Seq<u8>, at: int) -> Option<(Row, int)> {
    match read_blob(bytes, at) {
        Some((prefix, p)) => match read_word(bytes, p) {
            Some((lo, q)) => match read_word(bytes, q) {
                Some((hi, r)) => Some((Row { prefix: prefix, lo: lo, hi: hi }, r)),
                None => None,
            },
            None => None,
        },
        None => None,
    }
}

/// Reads `count` entries of the table from `at` on.
pub open spec fn read_rows(bytes: Seq<u8>, at: int, count: nat) -> Option<(Seq<Row>, int)>
    decreases count,
{
    if count == 0 {
        Some((Seq::empty(), at))
    } else {
        match read_rows(bytes, at, (count - 1) as nat) {
            Some((s, p)) => match read_row(bytes, p) {
                Some((row, q)) => Some((s.push(row), q)),
                None => None,
            },
            None => None,
        }
    }
}

/// Reads the four parts of an index from the start of `bytes`. Bytes behind
/// the last entry of the table are not looked at.
pub open spec fn read_image(bytes: Seq<u8>) -> Option<IndexView> {
    match read_blob(bytes, 0) {
        Some((text, at_count)) => match read_word(bytes, at_count) {
            Some((n, at_offsets)) => match read_words(bytes, at_offsets, n as nat) {
                Some((order, at_k)) => match read_k(bytes, at_k) {
                    Some((k, at_entries)) => match read_word(bytes, at_entries) {
                        Some((c, at_rows)) => match read_rows(bytes, at_rows, c as nat) {
                            Some((rows, at_end)) => Some(
                                IndexView { text: text, order: order, k: k, table: rows },
                            ),
                            None => None,
                        },
                        None => None,
                    },
                    None => None,
                },
                None => None,
            },
            None => None,
        },
        None => None,
    }
}

/// `bytes` start with the image of a well-formed index.
pub open spec fn is_image(bytes: Seq<u8>) -> bool {
    match read_image(bytes) {
        Some(index) => is_index(index),
        None => false,
    }
}

/// Where fewer words can be read than asked for, more cannot be read either.
proof fn lemma_read_words_fails(bytes: Seq<u8>, at: int, some: nat, count: nat)
    requires
        some <= count,
        read_words(bytes, at, some) is None,
    ensures
        read_words(bytes, at, count) is None,
    decreases count,
{
    if some < count {
        lemma_read_words_fails(bytes, at, some, (count - 1) as nat);
    }
}

/// Where fewer entries can be read than asked for, more cannot be read either.
proof fn lemma_read_rows_fails(bytes: Seq<u8>, at: int, some: nat, count: nat)
    requires
        some <= count,
        read_rows(bytes, at, some) is None,
    ensures
        read_rows(bytes, at, count) is None,
    decreases count,
{
    if some < count {
        lemma_read_rows_fails(bytes, at, some, (count - 1) as nat);
    }
}

/// Reads a word of `bytes` at `at`.
fn take_word(bytes: &[u8], at: usize) -> (r: Option<(usize, usize)>)
    ensures
        match r {
            Some((v, p)) => read_word(bytes@, at as int) == Some((v, p as int)),
            None => read_word(bytes@, at as int) is None,
        },
{
    let n: usize = bytes.len();
    if at > n || n - at < 8 {
        return None;
    }
    let v: u64 = u64_from_le_bytes(slice_subrange(bytes, at, at + 8));
    if v > usize::MAX as u64 {
        return None;
    }
    Some((v as usize, at + 8))
}

/// Reads a sequence of symbols of `bytes` at `at`.
fn take_blob(bytes: &[u8], at: usize) -> (r: Option<(Vec<u8>, usize)>)
    ensures
        match r {
            Some((s, p)) => read_blob(bytes@, at as int) == Some((s@, p as int)),
            None => read_blob(bytes@, at as int) is None,
        },
{
    let n: usize = bytes.len();
    match take_word(bytes, at) {
        None => None,
        Some((len, p)) => {
            if n - p < len {
                return None;
            }
            let s: Vec<u8> = slice_to_vec(slice_subrange(bytes, p, p + len));
            Some((s, p + len))
        },
    }
}

/// Reads the image of an index from the start of `bytes` and checks that its
/// parts belong together. Bytes behind the image are not looked at.
#[verifier::loop_isolation(false)]
pub fn decode(bytes: &[u8]) -> (r: Result<IndexArtifact, IndexError>)
    ensures
        match r {
            Ok(index) => is_image(bytes@) && read_image(bytes@) == Some(index@),
            Err(e) => !is_image(bytes@) && e == IndexError::CorruptIndex,
        },
{
    let n: usize = bytes.len();
    let (text, at_count): (Vec<u8>, usize) = match take_blob(bytes, 0) {
        Some(found) => found,
        None => {
            return Err(IndexError::CorruptIndex);
        },
    };
    let (count, at_offsets): (usize, usize) = match take_word(bytes, at_count) {
        Some(found) => found,
        None => {
            return Err(IndexError::CorruptIndex);
        },
    };
    let mut order: Vec<usize> = Vec::new();
    let mut at: usize = at_offsets;
    let mut i: usize = 0;
    while i < count
        invariant
            i <= count,
            read_words(bytes@, at_offsets as int, i as nat) == Some((order@, at as int)),
        decreases count - i,
    {
        match take_word(bytes, at) {
            Some((v, q)) => {
                order.push(v);
                at = q;
            },
            None => {
                proof {
                    lemma_read_words_fails(bytes@, at_offsets as int, (i + 1) as nat, count as nat);
                }
                return Err(IndexError::CorruptIndex);
            },
        }
        i += 1;
    }
    let at_k: usize = at;
    if n - at_k < 4 {
        return Err(IndexError::CorruptIndex);
    }
    let k: u32 = u32_from_le_bytes(slice_subrange(bytes, at_k, at_k + 4));
    let at_entries: usize = at_k + 4;
    let (entries, at_rows): (usize, usize) = match take_word(bytes, at_entries) {
        Some(found) => found,
        None => {
            return Err(IndexError::CorruptIndex);
        },
    };
    let mut table: Vec<PrefixEntry> = Vec::new();
    let mut at: usize = at_rows;
    let mut j: usize = 0;
    while j < entries
        invariant
            j <= entries,
            read_rows(bytes@, at_rows as int, j as nat) == Some((rows_of(table@), at as int)),
        decreases entries - j,
    {
        let (prefix, at_lo): (Vec<u8>, usize) = match take_blob(bytes, at) {
            Some(found) => found,
            None => {
                proof {
                    lemma_read_rows_fails(bytes@, at_rows as int, (j + 1) as nat, entries as nat);
                }
                return Err(IndexError::CorruptIndex);
            },
        };
        let (lo, at_hi): (usize, usize) = match take_word(bytes, at_lo) {
            Some(found) => found,
            None => {
                proof {
                    lemma_read_rows_fails(bytes@, at_rows as int, (j + 1) as nat, entries as nat);
                }
                return Err(IndexError::CorruptIndex);
            },
        };
        let (hi, behind): (usize, usize) = match take_word(bytes, at_hi) {
            Some(found) => found,
            None => {
                proof {
                    lemma_read_rows_fails(bytes@, at_rows as int, (j + 1) as nat, entries as nat);
                }
                return Err(IndexError::CorruptIndex);
            },
        };
        let ghost before = table@;
        table.push(PrefixEntry { prefix, lo, hi });
        assert(rows_of(table@) =~= rows_of(before).push(
            Row { prefix: prefix@, lo: lo, hi: hi },
        ));
        at = behind;
        j += 1;
    }
    let index = IndexArtifact { text, order, k, table };
    if !index.validate() {
        return Err(IndexError::CorruptIndex);
    }
    Ok(index)
}

/// Bytes that hold `a` and then `b` at `at` hold `a` at `at` and `b` behind
/// it.
proof fn lemma_split(bytes: Seq<u8>, at: int, a: Seq<u8>, b: Seq<u8>)
    requires
        0 <= at,
        at + a.len() + b.len() <= bytes.len(),
        bytes.subrange(at, at + a.len() + b.len()) == a + b,
    ensures
        bytes.subrange(at, at + a.len()) == a,
        bytes.subrange(at + a.len(), at + a.len() + b.len()) == b,
{
    let whole = bytes.subrange(at, at + a.len() + b.len());
    assert forall|i: int| 0 <= i < a.len() implies bytes.subrange(at, at + a.len())[i] == a[i] by {
        assert(whole[i] == (a + b)[i]);
    }
    assert(bytes.subrange(at, at + a.len()) =~= a);
    assert forall|i: int| 0 <= i < b.len() implies bytes.subrange(
        at + a.len(),
        at + a.len() + b.len(),
    )[i] == b[i] by {
        assert(whole[a.len() + i] == (a + b)[a.len() + i]);
    }
    assert(bytes.subrange(at + a.len(), at + a.len() + b.len()) =~= b);
}

/// Bytes that hold `a` at `at` and `b` behind it hold `a` and then `b` at
/// `at`.
proof fn lemma_join(bytes: Seq<u8>, at: int, a: Seq<u8>, b: Seq<u8>)
    requires
        0 <= at,
        at + a.len() + b.len() <= bytes.len(),
        bytes.subrange(at, at + a.len()) == a,
        bytes.subrange(at + a.len(), at + a.len() + b.len()) == b,
    ensures
        bytes.subrange(at, at + a.len() + b.len()) == a + b,
{
    let whole = bytes.subrange(at, at + a.len() + b.len());
    assert forall|i: int| 0 <= i < whole.len() implies whole[i] == (a + b)[i] by {
        if i < a.len() {
            assert(bytes.subrange(at, at + a.len())[i] == a[i]);
        } else {
            assert(bytes.subrange(at + a.len(), at + a.len() + b.len())[i - a.len()] == b[i
                - a.len()]);
        }
    }
    assert(whole =~= a + b);
}

/// A word has eight bytes.
pub proof fn lemma_word_len(x: usize)
    ensures
        word(x).len() == 8,
{
    lemma_auto_spec_u64_to_from_le_bytes();
}

/// The offsets of `s` take eight bytes each.
pub proof fn lemma_words_len(s: Seq<usize>)
    ensures
        words(s).len() == 8 * s.len(),
    decreases s.len(),
{
    if s.len() > 0 {
        lemma_words_len(s.drop_last());
        lemma_word_len(s.last());
    }
}

/// The word written for `x` is read as `x`.
proof fn lemma_word_read(bytes: Seq<u8>, at: int, x: usize)
    requires
        0 <= at,
        at + 8 <= bytes.len(),
        bytes.subrange(at, at + 8) == word(x),
    ensures
        read_word(bytes, at) == Some((x, at + 8)),
{
    lemma_auto_spec_u64_to_from_le_bytes();
}

/// The word that is read as `x` is the word written for `x`.
proof fn lemma_word_written(bytes: Seq<u8>, at: int)
    requires
        read_word(bytes, at) is Some,
    ensures
        bytes.subrange(at, at + 8) == word(read_word(bytes, at)->Some_0.0),
{
    lemma_auto_spec_u64_to_from_le_bytes();
    let s = bytes.subrange(at, at + 8);
    assert(spec_u64_to_le_bytes(spec_u64_from_le_bytes(s)) == s);
}

/// The symbols written for `s` are read as `s`.
proof fn lemma_blob_read(bytes: Seq<u8>, at: int, s: Seq<u8>)
    requires
        0 <= at,
        s.len() <= usize::MAX,
        at + 8 + s.len() <= bytes.len(),
        bytes.subrange(at, at + 8 + s.len()) == blob(s),
    ensures
        read_blob(bytes, at) == Some((s, at + 8 + s.len())),
{
    lemma_word_len(s.len() as usize);
    lemma_split(bytes, at, word(s.len() as usize), s);
    lemma_word_read(bytes, at, s.len() as usize);
}

/// The symbols that are read as a sequence are what is written for it.
proof fn lemma_blob_written(bytes: Seq<u8>, at: int)
    requires
        read_blob(bytes, at) is Some,
    ensures
        bytes.subrange(at, read_blob(bytes, at)->Some_0.1) == blob(read_blob(bytes, at)->Some_0.0),
        read_blob(bytes, at)->Some_0.1 == at + 8 + read_blob(bytes, at)->Some_0.0.len(),
{
    let s = read_blob(bytes, at)->Some_0.0;
    lemma_word_written(bytes, at);
    lemma_word_len(s.len() as usize);
    lemma_join(bytes, at, word(s.len() as usize), s);
}

/// The offsets written for `s` are read as `s`.
proof fn lemma_words_read(bytes: Seq<u8>, at: int, s: Seq<usize>)
    requires
        0 <= at,
        at + 8 * s.len() <= bytes.len(),
        bytes.subrange(at, at + 8 * s.len()) == words(s),
    ensures
        read_words(bytes, at, s.len()) == Some((s, at + 8 * s.len())),
    decreases s.len(),
{
    if s.len() > 0 {
        let front = s.drop_last();
        lemma_words_len(front);
        lemma_word_len(s.last());
        lemma_split(bytes, at, words(front), word(s.last()));
        lemma_words_read(bytes, at, front);
        lemma_word_read(bytes, at + 8 * front.len(), s.last());
        assert(front.push(s.last()) =~= s);
    } else {
        assert(s =~= Seq::empty());
    }
}

/// The offsets that are read are what is written for them.
proof fn lemma_words_written(bytes: Seq<u8>, at: int, count: nat)
    requires
        0 <= at <= bytes.len(),
        read_words(bytes, at, count) is Some,
    ensures
        read_words(bytes, at, count)->Some_0.0.len() == count,
        read_words(bytes, at, count)->Some_0.1 == at + 8 * count,
        at + 8 * count <= bytes.len(),
        bytes.subrange(at, at + 8 * count) == words(read_words(bytes, at, count)->Some_0.0),
    decreases count,
{
    if count > 0 {
        let front = read_words(bytes, at, (count - 1) as nat)->Some_0.0;
        let p = read_words(bytes, at, (count - 1) as nat)->Some_0.1;
        let s = read_words(bytes, at, count)->Some_0.0;
        lemma_words_written(bytes, at, (count - 1) as nat);
        lemma_word_written(bytes, p);
        assert(s.drop_last() =~= front);
        lemma_words_len(front);
        lemma_word_len(s.last());
        lemma_join(bytes, at, words(front), word(s.last()));
    } else {
        assert(bytes.subrange(at, at) =~= Seq::<u8>::empty());
    }
}

/// The length of what is written for an entry.
pub proof fn lemma_row_len(row: Row)
    ensures
        row_bytes(row).len() == 24 + row.prefix.len(),
{
    lemma_word_len(row.prefix.len() as usize);
    lemma_word_len(row.lo);
    lemma_word_len(row.hi);
}

/// The entry written for `row` is read as `row`.
proof fn lemma_row_read(bytes: Seq<u8>, at: int, row: Row)
    requires
        0 <= at,
        row.prefix.len() <= usize::MAX,
        at + 24 + row.prefix.len() <= bytes.len(),
        bytes.subrange(at, at + 24 + row.prefix.len()) == row_bytes(row),
    ensures
        read_row(bytes, at) == Some((row, at + 24 + row.prefix.len())),
{
    lemma_word_len(row.prefix.len() as usize);
    lemma_word_len(row.lo);
    lemma_word_len(row.hi);
    let m = 8 + row.prefix.len();
    assert(row_bytes(row) =~= (blob(row.prefix) + word(row.lo)) + word(row.hi));
    lemma_split(bytes, at, blob(row.prefix) + word(row.lo), word(row.hi));
    lemma_split(bytes, at, blob(row.prefix), word(row.lo));
    lemma_blob_read(bytes, at, row.prefix);
    lemma_word_read(bytes, at + m, row.lo);
    lemma_word_read(bytes, at + m + 8, row.hi);
}

/// The entry that is read is what is written for it.
proof fn lemma_row_written(bytes: Seq<u8>, at: int)
    requires
        0 <= at,
        read_row(bytes, at) is Some,
    ensures
        read_row(bytes, at)->Some_0.1 == at + 24 + read_row(bytes, at)->Some_0.0.prefix.len(),
        read_row(bytes, at)->Some_0.1 <= bytes.len(),
        bytes.subrange(at, read_row(bytes, at)->Some_0.1) == row_bytes(
            read_row(bytes, at)->Some_0.0,
        ),
{
    let row = read_row(bytes, at)->Some_0.0;
    let m = 8 + row.prefix.len();
    lemma_blob_written(bytes, at);
    lemma_word_written(bytes, at + m);
    lemma_word_written(bytes, at + m + 8);
    lemma_word_len(row.prefix.len() as usize);
    lemma_word_len(row.lo);
    lemma_word_len(row.hi);
    lemma_join(bytes, at, blob(row.prefix), word(row.lo));
    lemma_join(bytes, at, blob(row.prefix) + word(row.lo), word(row.hi));
}

/// The entries written for `rows` are read as `rows`.
proof fn lemma_rows_read(bytes: Seq<u8>, at: int, rows: Seq<Row>)
    requires
        0 <= at,
        forall|j: int| 0 <= j < rows.len() ==> (#[trigger] rows[j]).prefix.len() <= usize::MAX,
        at + rows_bytes(rows).len() <= bytes.len(),
        bytes.subrange(at, at + rows_bytes(rows).len()) == rows_bytes(rows),
    ensures
        read_rows(bytes, at, rows.len()) == Some((rows, at + rows_bytes(rows).len())),
    decreases rows.len(),
{
    if rows.len() > 0 {
        let front = rows.drop_last();
        lemma_row_len(rows.last());
        lemma_split(bytes, at, rows_bytes(front), row_bytes(rows.last()));
        lemma_rows_read(bytes, at, front);
        lemma_row_read(bytes, at + rows_bytes(front).len(), rows.last());
        assert(front.push(rows.last()) =~= rows);
    } else {
        assert(rows =~= Seq::empty());
    }
}

/// The entries that are read are what is written for them.
proof fn lemma_rows_written(bytes: Seq<u8>, at: int, count: nat)
    requires
        0 <= at <= bytes.len(),
        read_rows(bytes, at, count) is Some,
    ensures
        read_rows(bytes, at, count)->Some_0.0.len() == count,
        read_rows(bytes, at, count)->Some_0.1 == at + rows_bytes(
            read_rows(bytes, at, count)->Some_0.0,
        ).len(),
        read_rows(bytes, at, count)->Some_0.1 <= bytes.len(),
        bytes.subrange(at, read_rows(bytes, at, count)->Some_0.1) == rows_bytes(
            read_rows(bytes, at, count)->Some_0.0,
        ),
    decreases count,
{
    if count > 0 {
        let front = read_rows(bytes, at, (count - 1) as nat)->Some_0.0;
        let p = read_rows(bytes, at, (count - 1) as nat)->Some_0.1;
        let rows = read_rows(bytes, at, count)->Some_0.0;
        lemma_rows_written(bytes, at, (count - 1) as nat);
        lemma_row_written(bytes, p);
        assert(rows.drop_last() =~= front);
        lemma_row_len(rows.last());
        lemma_join(bytes, at, rows_bytes(front), row_bytes(rows.last()));
    } else {
        assert(bytes.subrange(at, at) =~= Seq::<u8>::empty());
    }
}

/// The parts of an index can be written: their lengths are lengths of vectors.
pub open spec fn fits(index: IndexView) -> bool {
    &&& index.text.len() <= usize::MAX
    &&& index.order.len() <= usize::MAX
    &&& index.table.len() <= usize::MAX
    &&& forall|j: int|
        0 <= j < index.table.len() ==> (#[trigger] index.table[j]).prefix.len() <= usize::MAX
}

/// Reading gives back what was written: from the image of an index, whatever
/// bytes follow it, `read_image` reads the reference sequence, the suffix
/// array, the prefix length and the table that were written.
pub proof fn lemma_read_after_write(index: IndexView, rest: Seq<u8>)
    requires
        fits(index),
    ensures
        read_image(index_bytes(index) + rest) == Some(index),
{
    lemma_auto_spec_u32_to_from_le_bytes();
    let a = blob(index.text);
    let b = word(index.order.len() as usize);
    let c = words(index.order);
    let d = spec_u32_to_le_bytes(index.k);
    let e = word(index.table.len() as usize);
    let f = rows_bytes(index.table);
    let bytes = index_bytes(index) + rest;
    lemma_word_len(index.text.len() as usize);
    lemma_word_len(index.order.len() as usize);
    lemma_words_len(index.order);
    lemma_word_len(index.table.len() as usize);
    let at_count = a.len() as int;
    let at_offsets = at_count + 8;
    let at_k = at_offsets + c.len();
    let at_entries = at_k + 4;
    let at_rows = at_entries + 8;
    assert(bytes.subrange(0, at_count) =~= a);
    assert(bytes.subrange(at_count, at_offsets) =~= b);
    assert(bytes.subrange(at_offsets, at_k) =~= c);
    assert(bytes.subrange(at_k, at_entries) =~= d);
    assert(bytes.subrange(at_entries, at_rows) =~= e);
    assert(bytes.subrange(at_rows, at_rows + f.len()) =~= f);
    lemma_blob_read(bytes, 0, index.text);
    lemma_word_read(bytes, at_count, index.order.len() as usize);
    lemma_words_read(bytes, at_offsets, index.order);
    lemma_word_read(bytes, at_entries, index.table.len() as usize);
    lemma_rows_read(bytes, at_rows, index.table);
}

/// What `read_image` reads stands at the start of the bytes: they begin with
/// the image of what was read.
pub proof fn lemma_written_before_read(bytes: Seq<u8>)
    requires
        read_image(bytes) is Some,
    ensures
        index_bytes(read_image(bytes)->Some_0).len() <= bytes.len(),
        bytes.subrange(0, index_bytes(read_image(bytes)->Some_0).len() as int) == index_bytes(
            read_image(bytes)->Some_0,
        ),
{
    lemma_auto_spec_u32_to_from_le_bytes();
    let index = read_image(bytes)->Some_0;
    let at_count = read_blob(bytes, 0)->Some_0.1;
    let at_offsets = at_count + 8;
    let at_k = read_words(bytes, at_offsets, index.order.len())->Some_0.1;
    lemma_blob_written(bytes, 0);
    lemma_word_written(bytes, at_count);
    lemma_words_written(bytes, at_offsets, read_word(bytes, at_count)->Some_0.0 as nat);
    let at_entries = at_k + 4;
    let at_rows = at_entries + 8;
    lemma_word_written(bytes, at_entries);
    lemma_rows_written(bytes, at_rows, read_word(bytes, at_entries)->Some_0.0 as nat);
    let a = blob(index.text);
    let b = word(index.order.len() as usize);
    let c = words(index.order);
    let d = spec_u32_to_le_bytes(index.k);
    let e = word(index.table.len() as usize);
    let f = rows_bytes(index.table);
    lemma_word_len(index.order.len() as usize);
    lemma_word_len(index.table.len() as usize);
    assert(bytes.subrange(at_k, at_entries) == d) by {
        let s = bytes.subrange(at_k, at_entries);
        assert(spec_u32_to_le_bytes(spec_u32_from_le_bytes(s)) == s);
    }
    lemma_join(bytes, 0, a, b);
    lemma_join(bytes, 0, a + b, c);
    lemma_join(bytes, 0, a + b + c, d);
    lemma_join(bytes, 0, a + b + c + d, e);
    lemma_join(bytes, 0, a + b + c + d + e, f);
}

/// An index comes back from its image as it went in: the image of a
/// well-formed index, whatever bytes follow it, is read as the same reference
/// sequence, suffix array, prefix length and table, so `decode` accepts it and
/// gives an index with these parts.
pub proof fn lemma_round_trip(index: IndexArtifact, rest: Seq<u8>)
    requires
        index.wf(),
    ensures
        read_image(index_bytes(index@) + rest) == Some(index@),
        is_image(index_bytes(index@) + rest),
{
    assert(index.text@.len() == index.text.len());
    assert(index.order@.len() == index.order.len());
    assert(index.table@.len() == index.table.len());
    assert forall|j: int| 0 <= j < index@.table.len() implies (
    #[trigger] index@.table[j]).prefix.len() <= usize::MAX by {
        assert(index.table@[j].prefix@.len() == index.table@[j].prefix.len());
    }
    lemma_read_after_write(index@, rest);
}

} // verus!
