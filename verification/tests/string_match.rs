use ambi::automaton::Automat;
use ambi::boyer_moore::{boyer_moore, BoyerMoore};
use ambi::kmp::KnuthMorrisPratt;
use ambi::matching::{MatchError, TextMatch};
use ambi::naive::naive_match;
use ambi::rabin_karp::{rabin_karp, RabinKarp};

fn cv(s: &str) -> Vec<char> {
    s.chars().collect()
}

/// Run every matcher variant on the same pattern and text, check that all
/// of them agree, and return the shared listing.
fn all_matchers(text: &str, pattern: &str) -> Vec<usize> {
    let t = cv(text);
    let p = cv(pattern);
    let mut sigma = t.clone();
    sigma.extend(p.iter().cloned());

    let expected = naive_match(t.as_slice(), p.as_slice()).unwrap();

    let auto = Automat::new(p.as_slice()).unwrap();
    assert_eq!(expected, auto.match_text(t.as_slice()).unwrap());

    let kmp = KnuthMorrisPratt::new(p.as_slice()).unwrap();
    assert_eq!(expected, kmp.match_text(t.as_slice()).unwrap());

    let bm = BoyerMoore::new(p.as_slice()).unwrap();
    assert_eq!(expected, bm.match_text(t.as_slice()).unwrap());
    assert_eq!(expected, boyer_moore(t.as_slice(), p.as_slice()).unwrap());

    let rk = RabinKarp::new(p.as_slice(), sigma.as_slice()).unwrap();
    assert_eq!(expected, rk.match_text(t.as_slice()).unwrap());
    assert_eq!(expected, rabin_karp(t.as_slice(), p.as_slice(), 4, 101).unwrap());

    expected
}

#[test]
fn test_naive_matches() {
    let (pattern, text): (Vec<char>, Vec<char>) =
        ("sock".chars().collect(), "I am sock a sock".chars().collect());
    let results = naive_match(text.as_slice(), pattern.as_slice()).unwrap();
    assert_eq!(vec![5, 12], results);
}

#[test]
fn test_naive_rejects_long_pattern() {
    let (pattern, text): (Vec<char>, Vec<char>) =
        ("sock tube colour nope".chars().collect(), "I am".chars().collect());
    assert_eq!(
        Err(MatchError::InvalidInput),
        naive_match(text.as_slice(), pattern.as_slice())
    );
}

#[test]
fn test_naive_rejects_empty_pattern() {
    assert_eq!(Err(MatchError::InvalidInput), naive_match(&['a', 'b'], &[]));
}

#[test]
fn test_sigma() {
    let result = Automat::sigma_suffix(&['a', 'a', 'b', 'a', 'a', 'a']);
    assert_eq!(2, result);
    assert_eq!(1, Automat::sigma_suffix(&['a', 'b', 'a']));
}

#[test]
fn test_automat() {
    let slice = "aabab".chars().collect::<Vec<char>>();
    let auto = Automat::new(slice.as_slice()).unwrap();
    let result = auto
        .match_text("aaababaabaababaab".chars().collect::<Vec<char>>().as_slice())
        .unwrap();
    assert_eq!(vec![1, 9], result);
}

#[test]
fn test_knut() {
    let aaba = KnuthMorrisPratt::new("aabab".chars().collect::<Vec<char>>().as_slice()).unwrap();
    let result = aaba
        .match_text("aaababaabaababaab".chars().collect::<Vec<char>>().as_slice())
        .unwrap();
    assert_eq!(vec![1, 9], result);

    let abab = KnuthMorrisPratt::new("abab".chars().collect::<Vec<char>>().as_slice()).unwrap();
    let second = abab
        .match_text("aaababaabaababaab".chars().collect::<Vec<char>>().as_slice())
        .unwrap();
    assert_eq!(vec![2, 10], second);
}

#[test]
fn test_boyer_moore() {
    let pattern = "aabab".chars().collect::<Vec<char>>();
    let text = "aaababaabaababaab".chars().collect::<Vec<char>>();
    let bm = BoyerMoore::new(pattern.as_slice()).unwrap();
    let result = bm.match_text(text.as_slice()).unwrap();
    assert_eq!(vec![1, 9], result);
}

#[test]
fn test_boyer_moore_2() {
    let pattern = "ababababca".chars().collect::<Vec<char>>();
    let text = "aaababaabaababacab".chars().collect::<Vec<char>>();
    let bm = BoyerMoore::new(pattern.as_slice()).unwrap();
    let result = bm.match_text(text.as_slice()).unwrap();
    assert_eq!(Vec::<usize>::new(), result);
}

#[test]
fn test_boyer_moore_ueb1() {
    let pattern = "abaabab".chars().collect::<Vec<char>>();
    let text = "abaabaaabaabab".chars().collect::<Vec<char>>();
    let bm = BoyerMoore::new(pattern.as_slice()).unwrap();
    let result = bm.match_text(text.as_slice()).unwrap();
    assert_eq!(vec![7], result);
}

#[test]
fn test_cross_validation_scenarios() {
    assert_eq!(vec![1, 9], all_matchers("aaababaabaababaab", "aabab"));
    assert_eq!(vec![5, 12], all_matchers("I am sock a sock", "sock"));
    assert_eq!(vec![7], all_matchers("abaabaaabaabab", "abaabab"));
    assert_eq!(Vec::<usize>::new(), all_matchers("aaababaabaababacab", "ababababca"));
}

#[test]
fn test_overlap() {
    assert_eq!(vec![0, 1], all_matchers("aaa", "aa"));
}

#[test]
fn test_single_symbol_pattern() {
    assert_eq!(vec![1, 3, 5], all_matchers("banana", "a"));
}

#[test]
fn test_full_length_pattern() {
    assert_eq!(vec![0], all_matchers("abba", "abba"));
    assert_eq!(Vec::<usize>::new(), all_matchers("abba", "abab"));
}

#[test]
fn test_pattern_longer_than_text() {
    let t = cv("ab");
    let p = cv("abc");
    assert_eq!(Err(MatchError::InvalidInput), naive_match(t.as_slice(), p.as_slice()));
    let auto = Automat::new(p.as_slice()).unwrap();
    assert_eq!(Err(MatchError::InvalidInput), auto.match_text(t.as_slice()));
    let kmp = KnuthMorrisPratt::new(p.as_slice()).unwrap();
    assert_eq!(Err(MatchError::InvalidInput), kmp.match_text(t.as_slice()));
    let bm = BoyerMoore::new(p.as_slice()).unwrap();
    assert_eq!(Err(MatchError::InvalidInput), bm.match_text(t.as_slice()));
    let mut sigma = t.clone();
    sigma.extend(p.iter().cloned());
    let rk = RabinKarp::new(p.as_slice(), sigma.as_slice()).unwrap();
    assert_eq!(Err(MatchError::InvalidInput), rk.match_text(t.as_slice()));
}

#[test]
fn test_empty_pattern_rejected_everywhere() {
    assert!(Automat::new(&[]).is_err());
    assert!(KnuthMorrisPratt::new(&[]).is_err());
    assert!(BoyerMoore::new(&[]).is_err());
    assert!(RabinKarp::new(&[], &['a']).is_err());
    assert!(rabin_karp(&['a'], &[], 2, 101).is_err());
    assert!(boyer_moore(&['a'], &[]).is_err());
}

#[test]
fn test_rabin_karp_collision_confirmed() {
    // With base 1 and modulus 5 the hash of a window is the symbol sum
    // modulo 5, so the windows "ba" and "ab" collide; the confirmation
    // step must reject the colliding window at offset 0.
    let text = cv("baab");
    let pattern = cv("ab");
    assert_eq!(vec![2], rabin_karp(text.as_slice(), pattern.as_slice(), 1, 5).unwrap());
}

#[test]
fn test_rabin_karp_collision_confirmed_prepared() {
    // A two-symbol alphabet gives base 1 and modulus 2, so "ab" and "ba"
    // share a hash; only the confirmed occurrence is reported.
    let text = cv("baab");
    let pattern = cv("ab");
    let sigma = cv("ab");
    let rk = RabinKarp::new(pattern.as_slice(), sigma.as_slice()).unwrap();
    assert_eq!(vec![2], rk.match_text(text.as_slice()).unwrap());
}

#[test]
fn test_rabin_karp_unknown_symbol() {
    let rk = RabinKarp::new(cv("ab").as_slice(), cv("ab").as_slice()).unwrap();
    assert_eq!(Err(MatchError::InvalidInput), rk.match_text(cv("abcab").as_slice()));
}

#[test]
fn test_rabin_karp_pattern_outside_alphabet() {
    assert!(RabinKarp::new(cv("abc").as_slice(), cv("ab").as_slice()).is_err());
}

#[test]
fn test_rabin_karp_singleton_alphabet() {
    let rk = RabinKarp::new(cv("aa").as_slice(), cv("a").as_slice()).unwrap();
    assert_eq!(vec![0, 1], rk.match_text(cv("aaa").as_slice()).unwrap());
}

#[test]
fn test_match_text_idempotent() {
    let p = cv("aabab");
    let t = cv("aaababaabaababaab");
    let kmp = KnuthMorrisPratt::new(p.as_slice()).unwrap();
    let first = kmp.match_text(t.as_slice()).unwrap();
    let second = kmp.match_text(t.as_slice()).unwrap();
    assert_eq!(first, second);
    let bm = BoyerMoore::new(p.as_slice()).unwrap();
    assert_eq!(bm.match_text(t.as_slice()).unwrap(), bm.match_text(t.as_slice()).unwrap());
}

#[test]
fn test_repeated_symbol_pattern() {
    assert_eq!(vec![0, 1, 2, 3], all_matchers("aaaaa", "aa"));
    assert_eq!(vec![0], all_matchers("aaa", "aaa"));
}
