use suffix_index::prefix_table::{
    build_prefix_table, check_prefix_table, find_range, holds_at, PrefixEntry,
};
use suffix_index::suffix_array::build_suffix_array;

fn entry(prefix: &[u8], lo: usize, hi: usize) -> PrefixEntry {
    PrefixEntry { prefix: prefix.to_vec(), lo, hi }
}

#[test]
fn table_of_two_symbol_prefixes() {
    let text = b"ACACA$";
    let order = build_suffix_array(text);
    let table = build_prefix_table(text, &order, 2);
    assert_eq!(
        table,
        vec![entry(b"A$", 1, 2), entry(b"AC", 2, 4), entry(b"CA", 4, 6)]
    );
}

#[test]
fn last_range_takes_in_the_short_suffixes_behind_it() {
    let text = b"ACGT$";
    let order = build_suffix_array(text);
    let table = build_prefix_table(text, &order, 3);
    assert_eq!(
        table,
        vec![entry(b"ACG", 1, 2), entry(b"CGT", 2, 3), entry(b"GT$", 3, 5)]
    );
}

#[test]
fn prefixes_longer_than_the_text_give_no_entry() {
    let text = b"ACGT$";
    let order = build_suffix_array(text);
    assert_eq!(build_prefix_table(text, &order, 6), vec![]);
}

#[test]
fn prefix_as_long_as_the_text_gives_one_entry() {
    let text = b"ACGT$";
    let order = build_suffix_array(text);
    assert_eq!(
        build_prefix_table(text, &order, 5),
        vec![entry(b"ACGT$", 1, 5)]
    );
}

#[test]
fn every_long_suffix_lies_in_the_range_of_its_prefix() {
    let text = b"GATTACAGATTACACATTAGGGACCATTTTACGAT$";
    let order = build_suffix_array(text);
    for k in 1..6usize {
        let table = build_prefix_table(text, &order, k);
        assert!(check_prefix_table(text, &order, k, &table));
        for j in 1..table.len() {
            assert_eq!(table[j - 1].hi, table[j].lo);
            assert!(table[j - 1].prefix < table[j].prefix);
        }
        assert_eq!(table.last().unwrap().hi, order.len());
        for (i, &offset) in order.iter().enumerate() {
            if offset + k <= text.len() {
                let key = &text[offset..offset + k];
                let holding: Vec<&PrefixEntry> =
                    table.iter().filter(|e| e.lo <= i && i < e.hi).collect();
                assert_eq!(holding.len(), 1);
                assert_eq!(holding[0].prefix, key);
                assert_eq!(find_range(&table, key), Some((holding[0].lo, holding[0].hi)));
            }
        }
    }
}

#[test]
fn lookup_of_an_absent_prefix() {
    let text = b"ACACA$";
    let order = build_suffix_array(text);
    let table = build_prefix_table(text, &order, 2);
    assert_eq!(find_range(&table, b"AC"), Some((2, 4)));
    assert_eq!(find_range(&table, b"A$"), Some((1, 2)));
    assert_eq!(find_range(&table, b"CA"), Some((4, 6)));
    assert_eq!(find_range(&table, b"AA"), None);
    assert_eq!(find_range(&table, b"CC"), None);
    assert_eq!(find_range(&table, b"A"), None);
    assert_eq!(find_range(&table, b"ACA"), None);
    assert_eq!(find_range(&[], b"AC"), None);
}

#[test]
fn check_refuses_a_gap_between_ranges() {
    let text = b"ACACA$";
    let order = build_suffix_array(text);
    let table = vec![entry(b"A$", 1, 2), entry(b"AC", 2, 3), entry(b"CA", 4, 6)];
    assert!(!check_prefix_table(text, &order, 2, &table));
}

#[test]
fn check_refuses_a_wrong_prefix() {
    let text = b"ACACA$";
    let order = build_suffix_array(text);
    let table = vec![entry(b"A$", 1, 2), entry(b"AG", 2, 4), entry(b"CA", 4, 6)];
    assert!(!check_prefix_table(text, &order, 2, &table));
}

#[test]
fn check_refuses_a_missing_entry() {
    let text = b"ACACA$";
    let order = build_suffix_array(text);
    let table = vec![entry(b"AC", 2, 4), entry(b"CA", 4, 6)];
    assert!(!check_prefix_table(text, &order, 2, &table));
    let table = vec![entry(b"A$", 1, 2), entry(b"AC", 2, 4)];
    assert!(!check_prefix_table(text, &order, 2, &table));
    assert!(!check_prefix_table(text, &order, 2, &[]));
}

#[test]
fn check_refuses_a_merged_range() {
    let text = b"ACACA$";
    let order = build_suffix_array(text);
    let table = vec![entry(b"A$", 1, 4), entry(b"CA", 4, 6)];
    assert!(!check_prefix_table(text, &order, 2, &table));
}

#[test]
fn holds_at_compares_a_window() {
    assert!(holds_at(b"ACACA$", 2, b"ACA"));
    assert!(!holds_at(b"ACACA$", 1, b"ACA"));
    assert!(holds_at(b"ACACA$", 6, b""));
}
