//! The two runs of the index: building the image of an index from the lines of
//! a reference, and answering the lines of queries from an image.

use vstd::prelude::*;
use crate::codec::{decode, encode, index_bytes, is_image, read_image};
use crate::error::IndexError;
use crate::index::{answer, hit_offsets, index_of, IndexArtifact, IndexView, SearchMode};
use crate::records::{
    answer_line, append, assemble, body_of, format_answer, has_data, lines_in, queries_of,
    query_records, read_queries, split_lines, Query,
};
use crate::successor::SENTINEL;

verus! {

/// Builds the index of the reference sequence that the text `reference` holds,
/// with a prefix table for prefixes of `k` symbols where `k` is not 0, and gives
/// its image. The lines of the text that are no headers make up the sequence; a
/// text without such a line is refused.
pub fn buildsa(reference: &[u8], k: u32) -> (r: Result<Vec<u8>, IndexError>)
    ensures
        match r {
            Ok(bytes) => has_data(lines_in(reference@)) && bytes@ == index_bytes(
                index_of(body_of(lines_in(reference@)).push(SENTINEL), k),
            ),
            Err(e) => !has_data(lines_in(reference@)) && e == IndexError::EmptySequence,
        },
{
    let lines = split_lines(reference);
    match assemble(lines.as_slice()) {
        Err(e) => Err(e),
        Ok(body) => {
            let index = IndexArtifact::build(body.as_slice(), k);
            Ok(encode(&index))
        },
    }
}

/// The word `naive`.
pub open spec fn naive_word() -> Seq<u8> {
    seq![110u8, 97u8, 105u8, 118u8, 101u8]
}

/// The word `simpaccel`.
pub open spec fn simpaccel_word() -> Seq<u8> {
    seq![115u8, 105u8, 109u8, 112u8, 97u8, 99u8, 99u8, 101u8, 108u8]
}

/// Reads the name of a search mode: `naive` or `simpaccel`, and nothing else.
pub fn parse_mode(word: &[u8]) -> (r: Result<SearchMode, IndexError>)
    ensures
        word@ == naive_word() ==> r == Ok::<SearchMode, IndexError>(SearchMode::Naive),
        word@ == simpaccel_word() ==> r == Ok::<SearchMode, IndexError>(SearchMode::Simpaccel),
        word@ != naive_word() && word@ != simpaccel_word() ==> r == Err::<SearchMode, IndexError>(
            IndexError::InvalidMode,
        ),
{
    if word.len() == 5 && word[0] == 110 && word[1] == 97 && word[2] == 105 && word[3] == 118
        && word[4] == 101 {
        assert(word@ =~= naive_word());
        Ok(SearchMode::Naive)
    } else if word.len() == 9 && word[0] == 115 && word[1] == 105 && word[2] == 109 && word[3]
        == 112 && word[4] == 97 && word[5] == 99 && word[6] == 99 && word[7] == 101 && word[8]
        == 108 {
        assert(word@ =~= simpaccel_word());
        Ok(SearchMode::Simpaccel)
    } else {
        Err(IndexError::InvalidMode)
    }
}

/// The line that answers `query` under the name `name`, or why there is none.
pub open spec fn query_line(index: IndexView, name: Seq<u8>, query: Seq<u8>) -> Result<
    Seq<u8>,
    IndexError,
> {
    match answer(index, query) {
        Ok(hits) => Ok(answer_line(name, hit_offsets(index.order, hits))),
        Err(e) => Err(e),
    }
}

/// Answers one query against `index` and writes the answer as a line: the name
/// of the query, the number of hits and the offsets of the hits in the order of
/// the suffix array.
pub fn runquery(index: &IndexArtifact, mode: SearchMode, queryname: &[u8], queryseq: &[u8]) -> (r:
    Result<Vec<u8>, IndexError>)
    requires
        index.wf(),
    ensures
        match r {
            Ok(line) => query_line(index@, queryname@, queryseq@) == Ok::<Seq<u8>, IndexError>(
                line@,
            ),
            Err(e) => query_line(index@, queryname@, queryseq@) == Err::<Seq<u8>, IndexError>(e),
        },
{
    match index.resolve(mode, queryseq) {
        Err(e) => Err(e),
        Ok(hits) => {
            let offsets = index.offsets(hits);
            Ok(format_answer(queryname, offsets.as_slice()))
        },
    }
}

/// The lines that answer `queries`, one after the other, or the reason why the
/// first query that has no answer has none.
pub open spec fn batch_lines(index: IndexView, queries: Seq<(Seq<u8>, Seq<u8>)>) -> Result<
    Seq<u8>,
    IndexError,
>
    decreases queries.len(),
{
    if queries.len() == 0 {
        Ok(Seq::empty())
    } else {
        match batch_lines(index, queries.drop_last()) {
            Err(e) => Err(e),
            Ok(out) => match query_line(index, queries.last().0, queries.last().1) {
                Err(e) => Err(e),
                Ok(line) => Ok(out + line),
            },
        }
    }
}

/// Answers `queries` against `index` in their order. The first query that has
/// no answer ends the run, and nothing is given but its error.
pub fn run_batch(index: &IndexArtifact, mode: SearchMode, queries: &[Query]) -> (r: Result<
    Vec<u8>,
    IndexError,
>)
    requires
        index.wf(),
    ensures
        match r {
            Ok(out) => batch_lines(index@, queries_of(queries@)) == Ok::<Seq<u8>, IndexError>(out@),
            Err(e) => batch_lines(index@, queries_of(queries@)) == Err::<Seq<u8>, IndexError>(e),
        },
{
    let ghost all = queries_of(queries@);
    let mut out: Vec<u8> = Vec::new();
    let mut i: usize = 0;
    while i < queries.len()
        invariant
            index.wf(),
            all == queries_of(queries@),
            i <= queries@.len(),
            batch_lines(index@, all.subrange(0, i as int)) == Ok::<Seq<u8>, IndexError>(out@),
        decreases queries@.len() - i,
    {
        let ghost before = all.subrange(0, i as int);
        let ghost after = all.subrange(0, i + 1);
        let query = &queries[i];
        proof {
            assert(after.drop_last() =~= before);
            assert(after.last() == (query.name@, query.symbols@));
        }
        match runquery(index, mode, query.name.as_slice(), query.symbols.as_slice()) {
            Err(e) => {
                proof {
                    lemma_batch_fails(index@, all, i + 1);
                }
                return Err(e);
            },
            Ok(line) => {
                append(&mut out, line.as_slice());
            },
        }
        i += 1;
    }
    assert(all.subrange(0, i as int) =~= all);
    Ok(out)
}

/// A run that fails on its first `upto` queries fails on all of them in the same
/// way.
proof fn lemma_batch_fails(index: IndexView, queries: Seq<(Seq<u8>, Seq<u8>)>, upto: int)
    requires
        0 <= upto <= queries.len(),
        batch_lines(index, queries.subrange(0, upto)) is Err,
    ensures
        batch_lines(index, queries) == batch_lines(index, queries.subrange(0, upto)),
    decreases queries.len() - upto,
{
    if upto < queries.len() {
        let next = queries.subrange(0, upto + 1);
        assert(next.drop_last() =~= queries.subrange(0, upto));
        lemma_batch_fails(index, queries, upto + 1);
    } else {
        assert(queries.subrange(0, upto) =~= queries);
    }
}

/// What a run over the image `image` and the text `queries` gives: the lines
/// that answer the queries of the text, or why there are none.
pub open spec fn run_output(image: Seq<u8>, queries: Seq<u8>) -> Result<Seq<u8>, IndexError> {
    if is_image(image) {
        batch_lines(read_image(image)->Some_0, query_records(lines_in(queries)))
    } else {
        Err(IndexError::CorruptIndex)
    }
}

/// Loads the index from its image `image`, reads the queries that the text
/// `queries` holds and answers them in their order, each by one line. Bytes
/// that are no image are refused before any query is read.
pub fn querysa(image: &[u8], queries: &[u8], mode: SearchMode) -> (r: Result<Vec<u8>, IndexError>)
    ensures
        match r {
            Ok(out) => run_output(image@, queries@) == Ok::<Seq<u8>, IndexError>(out@),
            Err(e) => run_output(image@, queries@) == Err::<Seq<u8>, IndexError>(e),
        },
{
    match decode(image) {
        Err(e) => Err(e),
        Ok(index) => {
            let lines = split_lines(queries);
            let records = read_queries(lines.as_slice());
            run_batch(&index, mode, records.as_slice())
        },
    }
}

} // verus!
