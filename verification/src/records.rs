//! The text around an index: the lines that a reference sequence and the
//! queries are read from, and the lines that answers are written as.

use vstd::prelude::*;
use crate::error::IndexError;

verus! {

/// The mark `>` that a header line starts with.
pub const RECORD_MARK: u8 = 62;

/// The tab that parts the fields of an answer.
pub const TAB: u8 = 9;

/// The line feed that ends a line.
pub const LINE_FEED: u8 = 10;

/// The carriage return that may stand before a line feed.
pub const CARRIAGE_RETURN: u8 = 13;

/// A query: the name from its header line and its symbols.
#[derive(Clone, Debug, PartialEq, Eq)]
pub struct Query {
    pub name: Vec<u8>,
    pub symbols: Vec<u8>,
}

/// `line` is a header: it starts with the record mark.
pub open spec fn is_header(line: Seq<u8>) -> bool {
    line.len() > 0 && line[0] == RECORD_MARK
}

/// The lines of `lines` as sequences of bytes.
pub open spec fn lines_of(lines: Seq<Vec<u8>>) -> Seq<Seq<u8>> {
    Seq::new(lines.len(), |i: int| lines[i]@)
}

/// `line` without the carriage return at its end, where it has one.
pub open spec fn without_return(line: Seq<u8>) -> Seq<u8> {
    if line.len() > 0 && line.last() == CARRIAGE_RETURN {
        line.drop_last()
    } else {
        line
    }
}

/// Where reading lines stands after `text`: the lines that a line feed has
/// ended, and the bytes read since the last line feed.
pub open spec fn split_state(text: Seq<u8>) -> (Seq<Seq<u8>>, Seq<u8>)
    decreases text.len(),
{
    if text.len() == 0 {
        (Seq::empty(), Seq::empty())
    } else {
        let (done, pending) = split_state(text.drop_last());
        if text.last() == LINE_FEED {
            (done.push(without_return(pending)), Seq::empty())
        } else {
            (done, pending.push(text.last()))
        }
    }
}

/// The lines of `text`. A line feed ends a line, and a carriage return right
/// before it is no part of the line. What follows the last line feed is a line
/// too, unless nothing follows it.
pub open spec fn lines_in(text: Seq<u8>) -> Seq<Seq<u8>> {
    let (done, pending) = split_state(text);
    if pending.len() > 0 {
        done.push(pending)
    } else {
        done
    }
}

/// Reads the lines of `text`.
pub fn split_lines(text: &[u8]) -> (lines: Vec<Vec<u8>>)
    ensures
        lines_of(lines@) == lines_in(text@),
{
    let mut lines: Vec<Vec<u8>> = Vec::new();
    let mut pending: Vec<u8> = Vec::new();
    let n: usize = text.len();
    let mut i: usize = 0;
    while i < n
        invariant
            n == text@.len(),
            i <= n,
            split_state(text@.subrange(0, i as int)) == (lines_of(lines@), pending@),
        decreases n - i,
    {
        let ghost after = text@.subrange(0, i + 1);
        proof {
            assert(after.drop_last() =~= text@.subrange(0, i as int));
            assert(after.last() == text@[i as int]);
        }
        let b: u8 = text[i];
        if b == LINE_FEED {
            let ghost whole = pending@;
            let m: usize = pending.len();
            if m > 0 && pending[m - 1] == CARRIAGE_RETURN {
                pending.pop();
            }
            assert(pending@ =~= without_return(whole));
            let ghost done = lines@;
            lines.push(pending);
            assert(lines_of(lines@) =~= lines_of(done).push(without_return(whole)));
            pending = Vec::new();
        } else {
            pending.push(b);
        }
        i += 1;
    }
    assert(text@.subrange(0, i as int) =~= text@);
    if pending.len() > 0 {
        let ghost done = lines@;
        lines.push(pending);
        assert(lines_of(lines@) =~= lines_of(done).push(pending@));
    }
    lines
}

/// The symbols of all lines that are no headers, in their order.
pub open spec fn body_of(lines: Seq<Seq<u8>>) -> Seq<u8>
    decreases lines.len(),
{
    if lines.len() == 0 {
        Seq::empty()
    } else if is_header(lines.last()) {
        body_of(lines.drop_last())
    } else {
        body_of(lines.drop_last()) + lines.last()
    }
}

/// Some line is no header.
pub open spec fn has_data(lines: Seq<Seq<u8>>) -> bool {
    exists|i: int| 0 <= i < lines.len() && !is_header(#[trigger] lines[i])
}

/// Some line is no header if the last line is none or some line before it is
/// none.
pub proof fn lemma_has_data_step(lines: Seq<Seq<u8>>)
    requires
        lines.len() > 0,
    ensures
        has_data(lines) == (has_data(lines.drop_last()) || !is_header(lines.last())),
{
    let front = lines.drop_last();
    if has_data(front) {
        let w = choose|w: int| 0 <= w < front.len() && !is_header(#[trigger] front[w]);
        assert(!is_header(lines[w]));
    }
    if !is_header(lines.last()) {
        assert(!is_header(lines[lines.len() - 1]));
    }
    if has_data(lines) {
        let w = choose|w: int| 0 <= w < lines.len() && !is_header(#[trigger] lines[w]);
        if w < front.len() {
            assert(!is_header(front[w]));
        }
    }
}

/// Whether `line` is a header.
pub fn line_is_header(line: &[u8]) -> (r: bool)
    ensures
        r == is_header(line@),
{
    line.len() > 0 && line[0] == RECORD_MARK
}

/// Appends the bytes of `more` to `out`.
pub fn append(out: &mut Vec<u8>, more: &[u8])
    ensures
        final(out)@ == old(out)@ + more@,
{
    let ghost before = out@;
    let n: usize = more.len();
    let mut i: usize = 0;
    while i < n
        invariant
            n == more@.len(),
            i <= n,
            out@ == before + more@.subrange(0, i as int),
        decreases n - i,
    {
        out.push(more[i]);
        i += 1;
        assert(out@ =~= before + more@.subrange(0, i as int));
    }
    assert(more@.subrange(0, n as int) =~= more@);
}

/// Puts the reference sequence together from the lines of its source: header
/// lines are left out, the other lines are joined in their order. The sentinel
/// is not yet part of it. A source without a line of symbols is refused; one
/// whose lines of symbols are all empty gives the empty sequence.
pub fn assemble(lines: &[Vec<u8>]) -> (r: Result<Vec<u8>, IndexError>)
    ensures
        match r {
            Ok(body) => has_data(lines_of(lines@)) && body@ == body_of(lines_of(lines@)),
            Err(e) => !has_data(lines_of(lines@)) && e == IndexError::EmptySequence,
        },
{
    let ghost all = lines_of(lines@);
    let mut body: Vec<u8> = Vec::new();
    let mut seen: bool = false;
    let mut i: usize = 0;
    while i < lines.len()
        invariant
            all == lines_of(lines@),
            i <= lines@.len(),
            body@ == body_of(all.subrange(0, i as int)),
            seen == has_data(all.subrange(0, i as int)),
        decreases lines@.len() - i,
    {
        let ghost before = all.subrange(0, i as int);
        let ghost after = all.subrange(0, i + 1);
        let line = lines[i].as_slice();
        proof {
            assert(after.drop_last() =~= before);
            assert(after.last() == line@);
            lemma_has_data_step(after);
        }
        if !line_is_header(line) {
            append(&mut body, line);
            seen = true;
        }
        i += 1;
    }
    assert(all.subrange(0, i as int) =~= all);
    if seen {
        Ok(body)
    } else {
        Err(IndexError::EmptySequence)
    }
}

/// The digits of `n` in base ten, the most significant first.
pub open spec fn decimal(n: nat) -> Seq<u8>
    decreases n,
{
    if n < 10 {
        seq![(48 + n) as u8]
    } else {
        decimal(n / 10).push((48 + n % 10) as u8)
    }
}

/// Appends the digits of `n` in base ten to `out`.
pub fn push_decimal(out: &mut Vec<u8>, n: usize)
    ensures
        final(out)@ == old(out)@ + decimal(n as nat),
    decreases n,
{
    let ghost before = out@;
    if n >= 10 {
        push_decimal(out, n / 10);
    }
    out.push(48 + (n % 10) as u8);
    assert(out@ =~= before + decimal(n as nat));
}

/// The fields of an answer behind the name and the count: each offset with a
/// tab before it.
pub open spec fn offset_fields(offsets: Seq<usize>) -> Seq<u8>
    decreases offsets.len(),
{
    if offsets.len() == 0 {
        Seq::empty()
    } else {
        offset_fields(offsets.drop_last()) + seq![TAB] + decimal(offsets.last() as nat)
    }
}

/// The line that answers a query: its name, the number of offsets and the
/// offsets, parted by tabs, and a line feed.
pub open spec fn answer_line(name: Seq<u8>, offsets: Seq<usize>) -> Seq<u8> {
    name + seq![TAB] + decimal(offsets.len()) + offset_fields(offsets) + seq![LINE_FEED]
}

/// Writes the line that answers a query with the name `name`: the name, the
/// number of offsets found and the offsets in the order they were found in.
pub fn format_answer(name: &[u8], offsets: &[usize]) -> (line: Vec<u8>)
    ensures
        line@ == answer_line(name@, offsets@),
{
    let mut line: Vec<u8> = Vec::new();
    append(&mut line, name);
    line.push(TAB);
    push_decimal(&mut line, offsets.len());
    let ghost head = line@;
    let mut i: usize = 0;
    while i < offsets.len()
        invariant
            i <= offsets@.len(),
            line@ == head + offset_fields(offsets@.subrange(0, i as int)),
        decreases offsets@.len() - i,
    {
        let ghost before = offsets@.subrange(0, i as int);
        let ghost after = offsets@.subrange(0, i + 1);
        assert(after.drop_last() =~= before);
        let ghost start = line@;
        line.push(TAB);
        push_decimal(&mut line, offsets[i]);
        assert(line@ =~= head + offset_fields(after)) by {
            assert(line@ == start.push(TAB) + decimal(offsets@[i as int] as nat));
        }
        i += 1;
    }
    assert(offsets@.subrange(0, i as int) =~= offsets@);
    line.push(LINE_FEED);
    assert(line@ =~= answer_line(name@, offsets@));
    line
}

/// The queries of `queries` as plain values: name and symbols.
pub open spec fn queries_of(queries: Seq<Query>) -> Seq<(Seq<u8>, Seq<u8>)> {
    Seq::new(queries.len(), |i: int| (queries[i].name@, queries[i].symbols@))
}

/// Where reading queries stands after `lines`: the queries that are complete,
/// the name from the last header, and the symbols read since.
pub open spec fn scan(lines: Seq<Seq<u8>>) -> (Seq<(Seq<u8>, Seq<u8>)>, Seq<u8>, Seq<u8>)
    decreases lines.len(),
{
    if lines.len() == 0 {
        (Seq::empty(), Seq::empty(), Seq::empty())
    } else {
        let (done, name, pending) = scan(lines.drop_last());
        let line = lines.last();
        if is_header(line) {
            (
                if pending.len() > 0 {
                    done.push((name, pending))
                } else {
                    done
                },
                line.subrange(1, line.len() as int),
                Seq::empty(),
            )
        } else {
            (done, name, pending + line)
        }
    }
}

/// The queries that `lines` hold. A header line names the query that follows,
/// by what stands behind its mark; the lines up to the next header are its
/// symbols. A header that no symbols follow gives no query, and symbols before
/// the first header give a query without a name.
pub open spec fn query_records(lines: Seq<Seq<u8>>) -> Seq<(Seq<u8>, Seq<u8>)> {
    let (done, name, pending) = scan(lines);
    if pending.len() > 0 {
        done.push((name, pending))
    } else {
        done
    }
}

/// Reads the queries that `lines` hold.
pub fn read_queries(lines: &[Vec<u8>]) -> (queries: Vec<Query>)
    ensures
        queries_of(queries@) == query_records(lines_of(lines@)),
{
    let ghost all = lines_of(lines@);
    let mut queries: Vec<Query> = Vec::new();
    let mut name: Vec<u8> = Vec::new();
    let mut pending: Vec<u8> = Vec::new();
    let mut i: usize = 0;
    while i < lines.len()
        invariant
            all == lines_of(lines@),
            i <= lines@.len(),
            scan(all.subrange(0, i as int)) == (queries_of(queries@), name@, pending@),
        decreases lines@.len() - i,
    {
        let ghost before = all.subrange(0, i as int);
        let ghost after = all.subrange(0, i + 1);
        let line = lines[i].as_slice();
        proof {
            assert(after.drop_last() =~= before);
            assert(after.last() == line@);
        }
        if line_is_header(line) {
            if pending.len() > 0 {
                let ghost done = queries@;
                queries.push(Query { name, symbols: pending });
                assert(queries_of(queries@) =~= queries_of(done).push((name@, pending@)));
                pending = Vec::new();
            }
            name = vstd::slice::slice_to_vec(vstd::slice::slice_subrange(line, 1, line.len()));
        } else {
            append(&mut pending, line);
        }
        i += 1;
    }
    assert(all.subrange(0, i as int) =~= all);
    if pending.len() > 0 {
        let ghost done = queries@;
        queries.push(Query { name, symbols: pending });
        assert(queries_of(queries@) =~= queries_of(done).push((name@, pending@)));
    }
    queries
}

} // verus!
