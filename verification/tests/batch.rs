use suffix_index::batch::{buildsa, parse_mode, querysa, run_batch, runquery};
use suffix_index::codec::{decode, encode};
use suffix_index::error::IndexError;
use suffix_index::index::{IndexArtifact, SearchMode};
use suffix_index::records::Query;

fn lines(text: &[&str]) -> Vec<u8> {
    let mut all = Vec::new();
    for line in text {
        all.extend(line.as_bytes());
        all.push(b'\n');
    }
    all
}

#[test]
fn mode_names() {
    assert_eq!(parse_mode(b"naive"), Ok(SearchMode::Naive));
    assert_eq!(parse_mode(b"simpaccel"), Ok(SearchMode::Simpaccel));
}

#[test]
fn other_words_are_no_mode() {
    for word in [&b""[..], b"Naive", b"naive ", b"simpacce", b"simpaccel2", b"fast", b"naivf"] {
        assert_eq!(parse_mode(word), Err(IndexError::InvalidMode));
    }
}

#[test]
fn build_gives_the_image_of_the_index() {
    let image = buildsa(&lines(&[">ref", "ACA", "CA"]), 2).unwrap();
    assert_eq!(image, encode(&IndexArtifact::build(b"ACACA", 2)));
    let index = decode(&image).unwrap();
    assert_eq!(index.text, b"ACACA$".to_vec());
    assert_eq!(index.order, vec![5, 4, 2, 0, 3, 1]);
    assert_eq!(index.k, 2);
}

#[test]
fn build_refuses_a_reference_without_symbols() {
    assert_eq!(buildsa(&lines(&[">ref"]), 0), Err(IndexError::EmptySequence));
    assert_eq!(buildsa(&lines(&[]), 3), Err(IndexError::EmptySequence));
}

#[test]
fn one_query_one_line() {
    let index = IndexArtifact::build(b"ACACA", 0);
    assert_eq!(
        runquery(&index, SearchMode::Naive, b"q", b"A"),
        Ok(b"q\t3\t4\t2\t0\n".to_vec())
    );
    assert_eq!(
        runquery(&index, SearchMode::Simpaccel, b"q", b"AC"),
        Ok(b"q\t2\t2\t0\n".to_vec())
    );
    assert_eq!(
        runquery(&index, SearchMode::Simpaccel, b"none", b"G"),
        Ok(b"none\t0\n".to_vec())
    );
}

#[test]
fn single_hit_line() {
    let index = IndexArtifact::build(b"ACGT", 0);
    assert_eq!(
        runquery(&index, SearchMode::Naive, b"g", b"G"),
        Ok(b"g\t1\t2\n".to_vec())
    );
}

#[test]
fn query_with_a_foreign_symbol_has_no_line() {
    let index = IndexArtifact::build(b"ACACA", 0);
    assert_eq!(
        runquery(&index, SearchMode::Naive, b"q", b"X"),
        Err(IndexError::ForeignSymbol)
    );
}

#[test]
fn queries_are_answered_in_their_order() {
    let image = buildsa(&lines(&[">ref", "ACACA"]), 0).unwrap();
    let queries = lines(&[">one", "A", ">two", "A", "C", ">three", "G"]);
    for mode in [SearchMode::Naive, SearchMode::Simpaccel] {
        assert_eq!(
            querysa(&image, &queries, mode),
            Ok(b"one\t3\t4\t2\t0\ntwo\t2\t2\t0\nthree\t0\n".to_vec())
        );
    }
}

#[test]
fn no_queries_no_output() {
    let image = buildsa(&lines(&["ACACA"]), 0).unwrap();
    assert_eq!(querysa(&image, &lines(&[]), SearchMode::Naive), Ok(vec![]));
}

#[test]
fn corrupt_image_ends_the_run() {
    let image = buildsa(&lines(&["ACACA"]), 0).unwrap();
    let queries = lines(&[">one", "A"]);
    assert_eq!(
        querysa(&image[..image.len() - 1], &queries, SearchMode::Naive),
        Err(IndexError::CorruptIndex)
    );
}

#[test]
fn first_unanswered_query_ends_the_run() {
    let image = buildsa(&lines(&["ACACA"]), 2).unwrap();
    let queries = lines(&[">one", "AC", ">two", "A", ">three", "AXC"]);
    assert_eq!(
        querysa(&image, &queries, SearchMode::Simpaccel),
        Err(IndexError::UnindexedPrefix)
    );
    let queries = lines(&[">one", "AC", ">two", "AXC", ">three", "A"]);
    assert_eq!(
        querysa(&image, &queries, SearchMode::Simpaccel),
        Err(IndexError::ForeignSymbol)
    );
}

#[test]
fn batch_joins_the_lines() {
    let index = IndexArtifact::build(b"ACGT", 0);
    let queries = vec![
        Query { name: b"a".to_vec(), symbols: b"CG".to_vec() },
        Query { name: b"b".to_vec(), symbols: b"G".to_vec() },
    ];
    assert_eq!(
        run_batch(&index, SearchMode::Naive, &queries),
        Ok(b"a\t1\t1\nb\t1\t2\n".to_vec())
    );
}
