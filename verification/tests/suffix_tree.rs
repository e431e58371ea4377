use ambi::suffix::SuffixTree;

fn cv(s: &str) -> Vec<char> {
    s.chars().collect()
}

#[test]
fn test_set_off_words() {
    let input = vec!['a', 'b', 'a', 'a', 'b'];
    let set_of_words = SuffixTree::set_of_words(input.as_slice());
    assert_eq!(5, set_of_words.len());
    assert_eq!(cv("abaab"), set_of_words[0]);
    assert_eq!(cv("baab"), set_of_words[1]);
    assert_eq!(cv("aab"), set_of_words[2]);
    assert_eq!(cv("ab"), set_of_words[3]);
    assert_eq!(cv("b"), set_of_words[4]);
}

#[test]
fn test_longest_prefix() {
    let suf = SuffixTree::longest_prefix(&vec![cv("abab"), cv("aba"), cv("abb")]);
    assert_eq!(cv("ab"), suf);
}

#[test]
fn test_longest_prefix_whole_word() {
    let suf = SuffixTree::longest_prefix(&vec![cv("aba"), cv("abab")]);
    assert_eq!(cv("aba"), suf);
}

#[test]
fn test_wotd() {
    let st = SuffixTree::wotd(&['a', 'b', 'a', 'b', 'b']);
    assert_eq!(5, st.leaf_count());
    assert!(st.distinct_sibling_symbols());
}

#[test]
fn test_wotd_empty() {
    let st = SuffixTree::wotd(&[]);
    assert_eq!(0, st.leaf_count());
    assert!(st.distinct_sibling_symbols());
}

#[test]
fn test_wotd_repeated() {
    let st = SuffixTree::wotd(&['a', 'a', 'a']);
    assert_eq!(3, st.leaf_count());
    assert!(st.distinct_sibling_symbols());
}

#[test]
fn test_wotd_larger() {
    let input = cv("abaababaab");
    let st = SuffixTree::wotd(input.as_slice());
    assert_eq!(input.len(), st.leaf_count());
    assert!(st.distinct_sibling_symbols());
}
