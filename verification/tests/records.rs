use std::io::BufRead;

use suffix_index::error::IndexError;
use suffix_index::records::{
    append, assemble, format_answer, line_is_header, push_decimal, read_queries, split_lines,
    Query,
};

fn lines(text: &[&str]) -> Vec<Vec<u8>> {
    text.iter().map(|l| l.as_bytes().to_vec()).collect()
}

fn query(name: &str, symbols: &str) -> Query {
    Query { name: name.as_bytes().to_vec(), symbols: symbols.as_bytes().to_vec() }
}

#[test]
fn assemble_joins_the_lines_of_symbols() {
    let source = lines(&[">chr1 test", "ACGT", "GGA", ">chr2", "TT"]);
    assert_eq!(assemble(&source), Ok(b"ACGTGGATT".to_vec()));
}

#[test]
fn assemble_without_a_header() {
    assert_eq!(assemble(&lines(&["ACGT"])), Ok(b"ACGT".to_vec()));
}

#[test]
fn assemble_refuses_a_source_without_symbols() {
    assert_eq!(assemble(&lines(&[])), Err(IndexError::EmptySequence));
    assert_eq!(assemble(&lines(&[">only", ">headers"])), Err(IndexError::EmptySequence));
}

#[test]
fn assemble_takes_an_empty_line_as_a_line_of_symbols() {
    assert_eq!(assemble(&lines(&[">chr1", ""])), Ok(vec![]));
    assert_eq!(assemble(&lines(&["AC", "", "GT"])), Ok(b"ACGT".to_vec()));
}

#[test]
fn header_starts_with_the_mark() {
    assert!(line_is_header(b">x"));
    assert!(line_is_header(b">"));
    assert!(!line_is_header(b""));
    assert!(!line_is_header(b"A>"));
}

#[test]
fn queries_take_their_name_from_the_header() {
    let source = lines(&[">first", "ACG", "T", ">second one", "GG"]);
    assert_eq!(
        read_queries(&source),
        vec![query("first", "ACGT"), query("second one", "GG")]
    );
}

#[test]
fn header_without_symbols_gives_no_query() {
    let source = lines(&[">first", ">second", "AC", ">third"]);
    assert_eq!(read_queries(&source), vec![query("second", "AC")]);
}

#[test]
fn symbols_before_the_first_header_have_no_name() {
    let source = lines(&["AC", ">named", "GT"]);
    assert_eq!(read_queries(&source), vec![query("", "AC"), query("named", "GT")]);
}

#[test]
fn no_lines_no_queries() {
    assert_eq!(read_queries(&lines(&[])), vec![]);
}

#[test]
fn decimal_digits() {
    for (n, want) in [
        (0usize, "0"),
        (7, "7"),
        (10, "10"),
        (99, "99"),
        (100, "100"),
        (1234567890, "1234567890"),
        (usize::MAX, &usize::MAX.to_string()),
    ] {
        let mut out = b"n=".to_vec();
        push_decimal(&mut out, n);
        assert_eq!(out, format!("n={}", want).into_bytes());
    }
}

#[test]
fn append_adds_at_the_end() {
    let mut out = b"AC".to_vec();
    append(&mut out, b"GT");
    append(&mut out, b"");
    assert_eq!(out, b"ACGT".to_vec());
}

#[test]
fn answer_line_with_hits() {
    assert_eq!(format_answer(b"first", &[4, 2, 0]), b"first\t3\t4\t2\t0\n".to_vec());
}

#[test]
fn answer_line_without_hits() {
    assert_eq!(format_answer(b"first", &[]), b"first\t0\n".to_vec());
}

#[test]
fn answer_line_with_large_offsets() {
    assert_eq!(
        format_answer(b"", &[1000000, 12]),
        b"\t2\t1000000\t12\n".to_vec()
    );
}

#[test]
fn lines_end_at_line_feeds() {
    assert_eq!(split_lines(b"ab\ncd\n"), lines(&["ab", "cd"]));
    assert_eq!(split_lines(b"ab\ncd"), lines(&["ab", "cd"]));
}

#[test]
fn carriage_return_before_a_line_feed_is_dropped() {
    assert_eq!(split_lines(b"ab\r\ncd\r\n"), lines(&["ab", "cd"]));
    assert_eq!(split_lines(b"a\rb\n"), lines(&["a\rb"]));
    assert_eq!(split_lines(b"ab\r"), lines(&["ab\r"]));
    assert_eq!(split_lines(b"ab\r\r\n"), lines(&["ab\r"]));
}

#[test]
fn empty_lines_are_lines() {
    assert_eq!(split_lines(b"ab\n\ncd"), lines(&["ab", "", "cd"]));
    assert_eq!(split_lines(b"\n"), lines(&[""]));
    assert_eq!(split_lines(b"\r\n"), lines(&[""]));
}

#[test]
fn no_text_no_lines() {
    assert_eq!(split_lines(b""), lines(&[]));
}

#[test]
fn lines_are_what_the_standard_library_reads() {
    for text in [
        &b"ab\ncd\n"[..],
        b"ab\r\ncd",
        b"\n\nab\n\n",
        b">h\r\nAC\r\n\r\nGT",
        b"",
        b"\r",
    ] {
        let want: Vec<Vec<u8>> = text.lines().map(|l| l.unwrap().into_bytes()).collect();
        assert_eq!(split_lines(text), want);
    }
}
