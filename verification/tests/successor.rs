use suffix_index::successor::nextseq;

#[test]
fn successor_steps_last_symbol() {
    assert_eq!(nextseq(b"ACG"), b"ACT".to_vec());
}

#[test]
fn successor_carries_over_t() {
    assert_eq!(nextseq(b"ACT"), b"AGA".to_vec());
}

#[test]
fn successor_of_all_t_grows_by_one() {
    assert_eq!(nextseq(b"TTT"), b"AAAA".to_vec());
    assert_eq!(nextseq(b"T"), b"AA".to_vec());
}

#[test]
fn successor_of_nothing() {
    assert_eq!(nextseq(b""), b"A".to_vec());
}

#[test]
fn successor_of_each_symbol() {
    assert_eq!(nextseq(b"A"), b"C".to_vec());
    assert_eq!(nextseq(b"C"), b"G".to_vec());
    assert_eq!(nextseq(b"G"), b"T".to_vec());
}

#[test]
fn successor_carries_to_the_first_symbol() {
    assert_eq!(nextseq(b"ATTT"), b"CAAA".to_vec());
    assert_eq!(nextseq(b"GTT"), b"TAA".to_vec());
}

#[test]
fn successor_is_the_next_of_its_length() {
    let symbols = [b'A', b'C', b'G', b'T'];
    let mut all: Vec<Vec<u8>> = Vec::new();
    for a in symbols {
        for b in symbols {
            for c in symbols {
                all.push(vec![a, b, c]);
            }
        }
    }
    for pair in all.windows(2) {
        assert_eq!(nextseq(&pair[0]), pair[1]);
    }
}
