use suffix_index::suffix_array::{build_suffix_array, check_suffix_array};

#[test]
fn suffix_array_of_acgt() {
    // "$", "ACGT$", "CGT$", "GT$", "T$"
    assert_eq!(build_suffix_array(b"ACGT$"), vec![4, 0, 1, 2, 3]);
}

#[test]
fn suffix_array_with_repeats() {
    // "$", "A$", "ACA$", "ACACA$", "CA$", "CACA$"
    assert_eq!(build_suffix_array(b"ACACA$"), vec![5, 4, 2, 0, 3, 1]);
}

#[test]
fn suffix_array_of_sentinel_alone() {
    assert_eq!(build_suffix_array(b"$"), vec![0]);
}

#[test]
fn suffix_array_of_nothing() {
    assert_eq!(build_suffix_array(b""), Vec::<usize>::new());
}

#[test]
fn suffix_array_of_one_repeated_symbol() {
    // the shorter suffix is a prefix of the longer and comes first
    assert_eq!(build_suffix_array(b"AAAA"), vec![3, 2, 1, 0]);
}

#[test]
fn suffixes_ascend_strictly() {
    let text = b"GATTACAGATTACACATTAG$";
    let order = build_suffix_array(text);
    assert_eq!(order.len(), text.len());
    for i in 1..order.len() {
        assert!(text[order[i - 1]..] < text[order[i]..]);
    }
    let mut seen = vec![false; text.len()];
    for &offset in &order {
        assert!(!seen[offset]);
        seen[offset] = true;
    }
}

#[test]
fn check_accepts_the_built_array() {
    let text = b"ACACA$";
    let order = build_suffix_array(text);
    assert!(check_suffix_array(text, &order));
}

#[test]
fn check_refuses_a_wrong_order() {
    assert!(!check_suffix_array(b"ACGT$", &[0, 4, 1, 2, 3]));
}

#[test]
fn check_refuses_a_wrong_length() {
    assert!(!check_suffix_array(b"ACGT$", &[4, 0, 1, 2]));
}

#[test]
fn check_refuses_an_offset_out_of_range() {
    assert!(!check_suffix_array(b"ACGT$", &[4, 0, 1, 2, 5]));
}

#[test]
fn check_refuses_a_repeated_offset() {
    assert!(!check_suffix_array(b"ACGT$", &[4, 0, 1, 2, 2]));
}
