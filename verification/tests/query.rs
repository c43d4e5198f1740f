use suffix_index::error::IndexError;
use suffix_index::index::{HitRange, IndexArtifact, SearchMode};
use suffix_index::search::{search_naive, simpaccel};

fn hits(index: &IndexArtifact, mode: SearchMode, query: &[u8]) -> (usize, Vec<usize>) {
    let range = index.resolve(mode, query).unwrap();
    let offsets = index.offsets(range);
    (offsets.len(), offsets)
}

#[test]
fn end_to_end_single_hit() {
    let index = IndexArtifact::build(b"ACGT", 0);
    assert_eq!(index.text, b"ACGT$".to_vec());
    assert_eq!(index.order, vec![4, 0, 1, 2, 3]);
    assert_eq!(hits(&index, SearchMode::Naive, b"G"), (1, vec![2]));
    assert_eq!(hits(&index, SearchMode::Simpaccel, b"G"), (1, vec![2]));
}

#[test]
fn end_to_end_with_repeats() {
    let index = IndexArtifact::build(b"ACACA", 0);
    assert_eq!(index.order, vec![5, 4, 2, 0, 3, 1]);
    assert_eq!(hits(&index, SearchMode::Naive, b"A"), (3, vec![4, 2, 0]));
    assert_eq!(hits(&index, SearchMode::Simpaccel, b"A"), (3, vec![4, 2, 0]));
    assert_eq!(hits(&index, SearchMode::Naive, b"AC"), (2, vec![2, 0]));
    assert_eq!(hits(&index, SearchMode::Simpaccel, b"AC"), (2, vec![2, 0]));
}

#[test]
fn hit_range_is_start_and_end_of_the_two_searches() {
    let index = IndexArtifact::build(b"ACACA", 0);
    assert_eq!(
        index.resolve(SearchMode::Naive, b"AC"),
        Ok(HitRange { start: 2, end: 4 })
    );
    assert_eq!(
        index.resolve(SearchMode::Simpaccel, b"CA"),
        Ok(HitRange { start: 4, end: 6 })
    );
}

#[test]
fn foreign_symbol_is_refused() {
    let index = IndexArtifact::build(b"ACACA", 0);
    assert_eq!(
        index.resolve(SearchMode::Naive, b"X"),
        Err(IndexError::ForeignSymbol)
    );
    assert_eq!(
        index.resolve(SearchMode::Simpaccel, b"AXA"),
        Err(IndexError::ForeignSymbol)
    );
}

#[test]
fn absent_query_has_no_hit() {
    let index = IndexArtifact::build(b"ACACA", 0);
    assert_eq!(hits(&index, SearchMode::Naive, b"G"), (0, vec![]));
    assert_eq!(hits(&index, SearchMode::Simpaccel, b"G"), (0, vec![]));
    assert_eq!(hits(&index, SearchMode::Naive, b"ACACAC"), (0, vec![]));
    assert_eq!(hits(&index, SearchMode::Simpaccel, b"ACACAC"), (0, vec![]));
}

#[test]
fn query_of_nothing_but_t_ends_before_it_starts() {
    // the successor of "T" is "AA", which sorts before "T"
    let index = IndexArtifact::build(b"ACGT", 0);
    let range = index.resolve(SearchMode::Naive, b"T").unwrap();
    assert_eq!(range, HitRange { start: 4, end: 1 });
    assert_eq!(index.offsets(range), Vec::<usize>::new());
    assert_eq!(index.resolve(SearchMode::Simpaccel, b"T"), Ok(range));
}

#[test]
fn empty_query_finds_the_sentinel_suffix() {
    let index = IndexArtifact::build(b"ACGT", 0);
    assert_eq!(hits(&index, SearchMode::Naive, b""), (1, vec![4]));
    assert_eq!(hits(&index, SearchMode::Simpaccel, b""), (1, vec![4]));
}

#[test]
fn modes_agree_on_every_short_query() {
    let body = b"GATTACAGATTACACATTAGGGACCATTTTACGAT";
    let symbols = [b'A', b'C', b'G', b'T'];
    for k in [0u32, 1, 2, 3] {
        let index = IndexArtifact::build(body, k);
        assert!(index.validate());
        let mut queries: Vec<Vec<u8>> = vec![vec![]];
        let mut last: Vec<Vec<u8>> = vec![vec![]];
        for _ in 0..4 {
            let mut next = Vec::new();
            for q in &last {
                for s in symbols {
                    let mut longer = q.clone();
                    longer.push(s);
                    next.push(longer);
                }
            }
            queries.extend(next.iter().cloned());
            last = next;
        }
        for q in &queries {
            let naive = index.resolve(SearchMode::Naive, q);
            let accel = index.resolve(SearchMode::Simpaccel, q);
            assert_eq!(naive, accel);
            if let Ok(range) = naive {
                assert_eq!(index.offsets(range), index.offsets(accel.unwrap()));
            }
        }
    }
}

#[test]
fn hits_are_the_occurrences_where_the_query_does_not_end_in_t() {
    let body = b"GATTACAGATTACACATTAGGGACCATTTTACGAT";
    let index = IndexArtifact::build(body, 0);
    for q in [&b"GA"[..], b"A", b"ACA", b"TTA", b"GATTACA", b"CC", b"G"] {
        let range = index.resolve(SearchMode::Simpaccel, q).unwrap();
        let mut found = index.offsets(range);
        found.sort();
        let mut want = Vec::new();
        for at in 0..body.len() {
            if body[at..].starts_with(q) {
                want.push(at);
            }
        }
        assert_eq!(found, want);
    }
}

#[test]
fn query_ending_in_t_can_take_in_the_end_of_the_text() {
    // "C$" lies between "AT" and its successor "CA"
    let index = IndexArtifact::build(b"ATC", 0);
    assert_eq!(index.order, vec![3, 0, 2, 1]);
    assert_eq!(hits(&index, SearchMode::Naive, b"AT"), (2, vec![0, 2]));
    assert_eq!(hits(&index, SearchMode::Simpaccel, b"AT"), (2, vec![0, 2]));
}

#[test]
fn prefix_table_narrows_the_search() {
    let index = IndexArtifact::build(b"ACACA", 2);
    assert_eq!(hits(&index, SearchMode::Naive, b"AC"), (2, vec![2, 0]));
    assert_eq!(hits(&index, SearchMode::Simpaccel, b"AC"), (2, vec![2, 0]));
    assert_eq!(hits(&index, SearchMode::Naive, b"CAC"), (1, vec![1]));
    assert_eq!(hits(&index, SearchMode::Simpaccel, b"CAC"), (1, vec![1]));
}

#[test]
fn query_as_long_as_the_prefix_gives_the_range_of_the_search_without_table() {
    let body = b"GATTACAGATTACACATTAGGGACCATTTTACGAT";
    let plain = IndexArtifact::build(body, 0);
    for k in [1u32, 2, 3, 4] {
        let index = IndexArtifact::build(body, k);
        for entry in &index.table {
            let q = &entry.prefix;
            if q.contains(&b'$') || *q.last().unwrap() == b'T' {
                continue;
            }
            let narrowed = index.resolve(SearchMode::Naive, q).unwrap();
            assert_eq!(
                narrowed,
                HitRange {
                    start: search_naive(&index.text, &index.order, entry.lo, entry.hi, q),
                    end: search_naive(
                        &index.text,
                        &index.order,
                        entry.lo,
                        entry.hi,
                        &suffix_index::successor::nextseq(q)
                    ),
                }
            );
            assert_eq!(narrowed, plain.resolve(SearchMode::Naive, q).unwrap());
            assert_eq!(narrowed, index.resolve(SearchMode::Simpaccel, q).unwrap());
        }
    }
}

#[test]
fn query_shorter_than_the_prefix_is_unindexed() {
    let index = IndexArtifact::build(b"ACACA", 2);
    assert_eq!(
        index.resolve(SearchMode::Naive, b"A"),
        Err(IndexError::UnindexedPrefix)
    );
    assert_eq!(
        index.resolve(SearchMode::Simpaccel, b""),
        Err(IndexError::UnindexedPrefix)
    );
}

#[test]
fn query_with_an_absent_prefix_is_unindexed() {
    let index = IndexArtifact::build(b"ACACA", 2);
    assert_eq!(
        index.resolve(SearchMode::Naive, b"GG"),
        Err(IndexError::UnindexedPrefix)
    );
    assert_eq!(
        index.resolve(SearchMode::Simpaccel, b"AAC"),
        Err(IndexError::UnindexedPrefix)
    );
}

#[test]
fn searches_find_the_first_suffix_not_below_the_pattern() {
    let text = b"ACACA$";
    let order = vec![5, 4, 2, 0, 3, 1];
    assert_eq!(search_naive(text, &order, 0, 6, b"AC"), 2);
    assert_eq!(simpaccel(text, &order, 0, 6, b"AC"), 2);
    assert_eq!(search_naive(text, &order, 0, 6, b"B"), 4);
    assert_eq!(simpaccel(text, &order, 0, 6, b"B"), 4);
    assert_eq!(search_naive(text, &order, 0, 6, b"T"), 6);
    assert_eq!(simpaccel(text, &order, 0, 6, b"T"), 6);
    assert_eq!(search_naive(text, &order, 3, 3, b"A"), 3);
    assert_eq!(simpaccel(text, &order, 3, 3, b"A"), 3);
    assert_eq!(search_naive(text, &order, 4, 6, b"A"), 4);
    assert_eq!(simpaccel(text, &order, 4, 6, b"A"), 4);
}

#[test]
fn prefix_table_leaves_out_what_lies_behind_its_range() {
    // "C$" lies between "AT" and its successor "CA", behind the range of "AT"
    let narrowed = IndexArtifact::build(b"ATC", 2);
    let whole = IndexArtifact::build(b"ATC", 0);
    assert_eq!(hits(&narrowed, SearchMode::Naive, b"AT"), (1, vec![0]));
    assert_eq!(hits(&narrowed, SearchMode::Simpaccel, b"AT"), (1, vec![0]));
    assert_eq!(hits(&whole, SearchMode::Naive, b"AT"), (2, vec![0, 2]));
    assert_eq!(
        narrowed.resolve(SearchMode::Naive, b"AT").unwrap().start,
        whole.resolve(SearchMode::Naive, b"AT").unwrap().start
    );
}

#[test]
fn query_of_nothing_but_t_has_no_hit_under_a_prefix_table() {
    let narrowed = IndexArtifact::build(b"ATTC", 1);
    let whole = IndexArtifact::build(b"ATTC", 0);
    for q in [&b"T"[..], b"TT"] {
        assert_eq!(hits(&narrowed, SearchMode::Naive, q), (0, vec![]));
        assert_eq!(hits(&whole, SearchMode::Simpaccel, q), (0, vec![]));
    }
}

fn scrambled(len: usize) -> Vec<u8> {
    let symbols = [b'A', b'C', b'G', b'T'];
    let mut state: u64 = 0x2545F4914F6CDD1D;
    let mut body = Vec::with_capacity(len);
    for _ in 0..len {
        state ^= state << 13;
        state ^= state >> 7;
        state ^= state << 17;
        body.push(symbols[(state % 4) as usize]);
    }
    body
}

#[test]
fn longer_reference_keeps_its_answers_through_the_image() {
    let body = scrambled(4000);
    for k in [0u32, 4] {
        let index = IndexArtifact::build(&body, k);
        assert!(index.validate());
        let back = suffix_index::codec::decode(&suffix_index::codec::encode(&index)).unwrap();
        assert_eq!(back, index);
        for at in (0..3900).step_by(97) {
            for len in [4usize, 7, 12] {
                let q = &body[at..at + len];
                if *q.last().unwrap() == b'T' {
                    continue;
                }
                let naive = back.resolve(SearchMode::Naive, q).unwrap();
                let accel = back.resolve(SearchMode::Simpaccel, q).unwrap();
                assert_eq!(naive, accel);
                let mut found = back.offsets(naive);
                found.sort();
                let mut want = Vec::new();
                for start in 0..body.len() {
                    if body[start..].starts_with(q) {
                        want.push(start);
                    }
                }
                assert_eq!(found, want);
            }
        }
    }
}
