use std::collections::BTreeSet;

use labyrinth::Matcher;

#[test]
fn test_general_case() {
    let words: Vec<String> = ["he", "she", "his", "hers"]
        .iter()
        .map(|&s| s.to_string())
        .collect();
    let mut matcher: Matcher = Matcher::new(words);
    let text: String = "shers".to_string();
    let ans: Vec<Vec<usize>> = vec![vec![], vec![], vec![1, 0], vec![], vec![3]];
    for (i, c) in text.chars().enumerate() {
        let sac: BTreeSet<usize> = BTreeSet::from_iter(matcher.next(&c));
        assert_eq!(sac, BTreeSet::from_iter(ans[i].clone()));
    }
}

#[test]
fn test_fallback() {
    let words: Vec<String> = ["abck", "bcdk", "cde", "def", "abkcdefg"]
        .iter()
        .map(|&s| s.to_string())
        .collect();
    let mut matcher: Matcher = Matcher::new(words);
    let text: String = "abcdefg".to_string();
    let ans: Vec<Vec<usize>> = vec![vec![], vec![], vec![], vec![], vec![2], vec![3], vec![]];
    for (i, c) in text.chars().enumerate() {
        let sac: BTreeSet<usize> = BTreeSet::from_iter(matcher.next(&c));
        assert_eq!(sac, BTreeSet::from_iter(ans[i].clone()));
    }
}

#[test]
fn test_no_matches() {
    let words: Vec<String> = ["xyz", "abc", "deb", "kef"]
        .iter()
        .map(|&s| s.to_string())
        .collect();
    let mut matcher: Matcher = Matcher::new(words);
    let text: String = "def".to_string();
    let ans: Vec<Vec<usize>> = vec![vec![], vec![], vec![]];
    for (i, c) in text.chars().enumerate() {
        let sac: BTreeSet<usize> = BTreeSet::from_iter(matcher.next(&c));
        assert_eq!(sac, BTreeSet::from_iter(ans[i].clone()));
    }
}

#[test]
fn test_full_text_match() {
    let words: Vec<String> = ["a", "aa", "aaa"].iter().map(|&s| s.to_string()).collect();
    let mut matcher: Matcher = Matcher::new(words);
    let text: String = "aaa".to_string();
    let ans: Vec<Vec<usize>> = vec![vec![0], vec![1, 0], vec![2, 1, 0]];
    for (i, c) in text.chars().enumerate() {
        let sac: BTreeSet<usize> = BTreeSet::from_iter(matcher.next(&c));
        assert_eq!(sac, BTreeSet::from_iter(ans[i].clone()));
    }
}

/// Streaming over any text reports exactly the dictionary words that end
/// at each position, checked against a brute-force suffix oracle.
#[test]
fn test_against_suffix_oracle() {
    let words: Vec<&str> = vec!["ab", "ba", "aba", "bb", "abab"];
    let text = "ababba";
    let mut matcher = Matcher::new(words.iter().map(|&s| s.to_string()).collect());
    for i in 0..text.len() {
        let c = text.as_bytes()[i] as char;
        let got: BTreeSet<usize> = BTreeSet::from_iter(matcher.next(&c));
        let prefix = &text[..=i];
        let expect: BTreeSet<usize> = words
            .iter()
            .enumerate()
            .filter(|(_, w)| prefix.ends_with(*w))
            .map(|(k, _)| k)
            .collect();
        assert_eq!(got, expect, "at position {}", i);
    }
}

#[test]
fn test_duplicate_words_both_reported() {
    let words: Vec<String> = ["ab", "ab"].iter().map(|&s| s.to_string()).collect();
    let mut matcher = Matcher::new(words);
    assert_eq!(matcher.next(&'a'), Vec::<usize>::new());
    let got: BTreeSet<usize> = BTreeSet::from_iter(matcher.next(&'b'));
    assert_eq!(got, BTreeSet::from_iter(vec![0, 1]));
}

#[test]
fn test_empty_word_list() {
    let mut matcher = Matcher::new(Vec::new());
    assert_eq!(matcher.next(&'a'), Vec::<usize>::new());
    assert_eq!(matcher.next(&'b'), Vec::<usize>::new());
}

/// An empty pattern contributes no edges and is never reported when the
/// cursor has nowhere to go.
#[test]
fn test_empty_pattern_never_reported() {
    let words: Vec<String> = ["", "a"].iter().map(|&s| s.to_string()).collect();
    let mut matcher = Matcher::new(words);
    assert_eq!(matcher.next(&'a'), vec![1]);
    assert_eq!(matcher.next(&'b'), Vec::<usize>::new());
}

#[test]
fn test_reset_forgets_progress() {
    let words: Vec<String> = ["ab"].iter().map(|&s| s.to_string()).collect();
    let mut matcher = Matcher::new(words);
    assert_eq!(matcher.next(&'a'), Vec::<usize>::new());
    matcher.reset();
    // after the reset, 'b' completes nothing
    assert_eq!(matcher.next(&'b'), Vec::<usize>::new());
    assert_eq!(matcher.next(&'a'), Vec::<usize>::new());
    assert_eq!(matcher.next(&'b'), vec![0]);
}

#[test]
fn test_options_and_next_state() {
    let words: Vec<String> = ["ab", "ac"].iter().map(|&s| s.to_string()).collect();
    let matcher = Matcher::new(words);
    let from_root: BTreeSet<char> = BTreeSet::from_iter(matcher.options(0));
    assert_eq!(from_root, BTreeSet::from_iter(vec!['a']));
    let s_a = matcher.next_state(0, 'a');
    assert_ne!(s_a, 0);
    let after_a: BTreeSet<char> = BTreeSet::from_iter(matcher.options(s_a));
    assert_eq!(after_a, BTreeSet::from_iter(vec!['b', 'c']));
    // an unknown character falls back to the root
    assert_eq!(matcher.next_state(s_a, 'z'), 0);
    // peeking does not move the live cursor
    let mut live = matcher;
    let s_a2 = live.next_state(0, 'a');
    assert_eq!(s_a2, s_a);
}
