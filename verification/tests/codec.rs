use std::collections::HashMap;

use suffix_index::codec::{decode, encode, table_pairs};
use suffix_index::error::IndexError;
use suffix_index::index::IndexArtifact;
use suffix_index::prefix_table::PrefixEntry;

fn word(x: u64) -> Vec<u8> {
    x.to_le_bytes().to_vec()
}

#[test]
fn image_of_a_small_index() {
    let index = IndexArtifact::build(b"A", 0);
    let mut want = Vec::new();
    want.extend(word(2));
    want.extend(b"A$");
    want.extend(word(2));
    want.extend(word(1));
    want.extend(word(0));
    want.extend([0u8, 0, 0, 0]);
    want.extend(word(0));
    assert_eq!(encode(&index), want);
}

#[test]
fn image_with_a_prefix_table() {
    let index = IndexArtifact::build(b"AC", 1);
    // suffixes: "$" (2), "AC$" (0), "C$" (1)
    let mut want = Vec::new();
    want.extend(word(3));
    want.extend(b"AC$");
    want.extend(word(3));
    want.extend(word(2));
    want.extend(word(0));
    want.extend(word(1));
    want.extend([1u8, 0, 0, 0]);
    want.extend(word(3));
    want.extend(word(1));
    want.extend(b"$");
    want.extend(word(0));
    want.extend(word(1));
    want.extend(word(1));
    want.extend(b"A");
    want.extend(word(1));
    want.extend(word(2));
    want.extend(word(1));
    want.extend(b"C");
    want.extend(word(2));
    want.extend(word(3));
    assert_eq!(encode(&index), want);
}

#[test]
fn round_trip_without_table() {
    let index = IndexArtifact::build(b"GATTACAGATTACA", 0);
    assert_eq!(decode(&encode(&index)), Ok(index));
}

#[test]
fn round_trip_with_table() {
    for k in [1u32, 2, 3, 7, 40] {
        let index = IndexArtifact::build(b"GATTACAGATTACACATTAG", k);
        let back = decode(&encode(&index)).unwrap();
        assert_eq!(back.text, index.text);
        assert_eq!(back.order, index.order);
        assert_eq!(back.k, index.k);
        assert_eq!(back.table, index.table);
    }
}

#[test]
fn round_trip_of_the_empty_reference() {
    let index = IndexArtifact::build(b"", 0);
    assert_eq!(index.text, b"$".to_vec());
    assert_eq!(decode(&encode(&index)), Ok(index));
}

#[test]
fn bytes_behind_the_image_are_left_alone() {
    let index = IndexArtifact::build(b"ACACA", 2);
    let mut bytes = encode(&index);
    bytes.extend(b"more");
    assert_eq!(decode(&bytes), Ok(index));
}

#[test]
fn every_truncation_is_corrupt() {
    let index = IndexArtifact::build(b"ACACA", 2);
    let bytes = encode(&index);
    for cut in 0..bytes.len() {
        assert_eq!(decode(&bytes[..cut]), Err(IndexError::CorruptIndex));
    }
}

#[test]
fn empty_input_is_corrupt() {
    assert_eq!(decode(b""), Err(IndexError::CorruptIndex));
}

#[test]
fn a_length_beyond_the_input_is_corrupt() {
    let mut bytes = word(u64::MAX);
    bytes.extend(b"ACGT$");
    assert_eq!(decode(&bytes), Err(IndexError::CorruptIndex));
}

#[test]
fn a_wrong_suffix_array_is_corrupt() {
    let mut index = IndexArtifact::build(b"ACGT", 0);
    index.order.swap(1, 2);
    assert!(!index.validate());
    assert_eq!(decode(&encode(&index)), Err(IndexError::CorruptIndex));
}

#[test]
fn a_missing_sentinel_is_corrupt() {
    let mut index = IndexArtifact::build(b"ACGT", 0);
    index.text = b"ACGTA".to_vec();
    index.order = suffix_index::suffix_array::build_suffix_array(&index.text);
    assert!(!index.validate());
    assert_eq!(decode(&encode(&index)), Err(IndexError::CorruptIndex));
}

#[test]
fn a_wrong_table_is_corrupt() {
    let mut index = IndexArtifact::build(b"ACACA", 2);
    index.table[1].hi = 3;
    assert_eq!(decode(&encode(&index)), Err(IndexError::CorruptIndex));
    let mut index = IndexArtifact::build(b"ACACA", 2);
    index.table.pop();
    assert_eq!(decode(&encode(&index)), Err(IndexError::CorruptIndex));
    let mut index = IndexArtifact::build(b"ACACA", 0);
    index.table.push(PrefixEntry { prefix: vec![], lo: 0, hi: 6 });
    assert_eq!(decode(&encode(&index)), Err(IndexError::CorruptIndex));
}

#[test]
fn a_table_under_another_prefix_length_is_corrupt() {
    let mut index = IndexArtifact::build(b"ACACA", 2);
    index.k = 3;
    assert_eq!(decode(&encode(&index)), Err(IndexError::CorruptIndex));
}

#[test]
fn pairs_hold_the_entries() {
    let index = IndexArtifact::build(b"ACACA", 2);
    assert_eq!(
        table_pairs(&index.table),
        vec![
            (b"A$".to_vec(), (1, 2)),
            (b"AC".to_vec(), (2, 4)),
            (b"CA".to_vec(), (4, 6)),
        ]
    );
}

#[test]
fn image_is_what_bincode_writes_for_strings_and_a_map() {
    let index = IndexArtifact::build(b"GATTACA", 0);
    let text = String::from_utf8(index.text.clone()).unwrap();
    let table: HashMap<String, (usize, usize)> = HashMap::new();
    let want = bincode::serialize(&(text, index.order.clone(), 0u32, table)).unwrap();
    assert_eq!(encode(&index), want);
}

#[test]
fn bincode_reads_the_image_as_strings_and_a_map() {
    let index = IndexArtifact::build(b"GATTACAGATTACA", 3);
    let bytes = encode(&index);
    let (text, order, k, table): (String, Vec<usize>, u32, HashMap<String, (usize, usize)>) =
        bincode::deserialize(&bytes).unwrap();
    assert_eq!(text.as_bytes(), &index.text[..]);
    assert_eq!(order, index.order);
    assert_eq!(k, 3);
    assert_eq!(table.len(), index.table.len());
    for entry in &index.table {
        let key = String::from_utf8(entry.prefix.clone()).unwrap();
        assert_eq!(table.get(&key), Some(&(entry.lo, entry.hi)));
    }
}
