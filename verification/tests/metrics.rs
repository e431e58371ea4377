use ambi::metrics::{hamming, levenshtein};

#[test]
fn test_hamming() {
    assert_eq!(None, hamming(&['b', 'b', 'a', 'a', 'a'], &['a', 'a', 'a', 'a']));
    assert_eq!(Some(2), hamming(&['b', 'b', 'a', 'a'], &['a', 'a', 'a', 'a']));
    assert_eq!(Some(0), hamming(&['b', 'b', 'a', 'a'], &['b', 'b', 'a', 'a']));
}

#[test]
fn test_leven() {
    let seq_a: Vec<char> = "ATGCAGT".chars().collect();
    let seq_b: Vec<char> = "ATCCAAGT".chars().collect();
    let seq_c: Vec<char> = "AT".chars().collect();
    assert_eq!(2, levenshtein(seq_a.as_slice(), seq_b.as_slice()));
    assert_eq!(0, levenshtein(seq_a.as_slice(), seq_c.as_slice()));
    assert_eq!(0, levenshtein(seq_b.as_slice(), seq_c.as_slice()));
}

#[test]
fn test_hamming_empty() {
    assert_eq!(Some(0), hamming(&[], &[]));
    assert_eq!(None, hamming(&[], &['a']));
}

#[test]
fn test_leven_empty() {
    assert_eq!(0, levenshtein(&[], &['a', 'b']));
    assert_eq!(1, levenshtein(&['a', 'b'], &['a', 'c']));
}
