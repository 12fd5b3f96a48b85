use std::collections::BTreeMap;

use author_identifier::chain::{Entry, WordChain, WordCount};
use author_identifier::similarity::KeyScore;

fn words(list: &[&str]) -> Vec<String> {
    list.iter().map(|w| String::from(*w)).collect()
}

fn as_map(list: &Vec<WordCount>) -> BTreeMap<String, u64> {
    list.iter().map(|item| (item.word.clone(), item.count)).collect()
}

fn mean(terms: &[KeyScore]) -> f64 {
    if terms.is_empty() {
        return 0.0;
    }
    let mut sum = 0.0;
    for term in terms {
        sum += (term.overlap as f64) / (term.scale as f64);
    }
    sum / terms.len() as f64
}

#[test]
fn word_chain_new() {
    const KEY_LENGTH: usize = 2;
    let text = String::from("This is a test");

    let word_chain = WordChain::new(String::from("snippet"), text, KEY_LENGTH);

    let key_words: Vec<String> = vec![String::from("This"), String::from("is")];

    let expected_word_counts: BTreeMap<String, u64> =
        vec![(String::from("a"), 1)].into_iter().collect();
    let word_counts = word_chain.followers(&key_words).unwrap();
    assert_eq!(expected_word_counts, as_map(word_counts));
}

#[test]
fn word_chain_new_repeat_words() {
    const KEY_LENGTH: usize = 2;
    let text = String::from("This is a This is a");

    let word_chain = WordChain::new(String::from("snippet"), text, KEY_LENGTH);

    let key_words: Vec<String> = vec![String::from("This"), String::from("is")];

    let expected_word_counts: BTreeMap<String, u64> =
        vec![(String::from("a"), 2)].into_iter().collect();
    let word_counts = word_chain.followers(&key_words).unwrap();
    assert_eq!(expected_word_counts, as_map(word_counts));
}

#[test]
fn word_chain_compare_eq() {
    const KEY_LENGTH: usize = 2;
    let text = String::from("This is a test");

    let word_chain = WordChain::new(String::from("snippet"), text, KEY_LENGTH);

    assert_eq!(mean(&word_chain.compare(&word_chain.clone()).unwrap()), 1.0);
}

#[test]
fn word_chain_compare_ne() {
    const KEY_LENGTH: usize = 2;
    let text = String::from("This is a test");
    let text_2 = String::from("No common words in text");

    let word_chain = WordChain::new(String::from("snippet"), text, KEY_LENGTH);
    let word_chain_2 = WordChain::new(String::from("snippet"), text_2, KEY_LENGTH);

    assert_eq!(mean(&word_chain.compare(&word_chain_2).unwrap()), 0.0);
}

#[test]
fn word_chain_merge() {
    const KEY_LENGTH: usize = 2;
    let text = String::from("This is a test");
    let text_2 = String::from("No common words in text");

    let word_chain = WordChain::new(String::from("snippet"), text, KEY_LENGTH);
    let word_chain_2 = WordChain::new(String::from("snippet"), text_2, KEY_LENGTH);
    let new_word_chain = word_chain.merge(&word_chain_2).unwrap();

    assert_eq!(new_word_chain.len(), word_chain.len() + word_chain_2.len());
}

#[test]
fn word_chain_merge_common() {
    const KEY_LENGTH: usize = 2;
    let text = String::from("This is a test");
    let text_2 = String::from("This is the test");

    let word_chain = WordChain::new(String::from("snippet"), text, KEY_LENGTH);
    let word_chain_2 = WordChain::new(String::from("snippet"), text_2, KEY_LENGTH);
    let new_word_chain = word_chain.merge(&word_chain_2).unwrap();

    let key_words: Vec<String> = vec![String::from("This"), String::from("is")];

    let expected_word_counts: BTreeMap<String, u64> =
        vec![(String::from("a"), 1), (String::from("the"), 1)].into_iter().collect();
    let word_counts = new_word_chain.followers(&key_words).unwrap();
    assert_eq!(expected_word_counts, as_map(word_counts));
}

#[test]
fn new_splits_on_any_run_of_whitespace() {
    let chain = WordChain::new(
        String::from("t"),
        String::from("  one\ttwo\n\nthree   four \r\n"),
        2,
    );
    assert_eq!(chain.len(), 2);
    assert_eq!(chain.count(&words(&["one", "two"]), &String::from("three")), 1);
    assert_eq!(chain.count(&words(&["two", "three"]), &String::from("four")), 1);
    assert_eq!(chain.count(&words(&["one\ttwo", "three"]), &String::from("four")), 0);
}

#[test]
fn new_keeps_case_and_punctuation() {
    let chain = WordChain::new(String::from("t"), String::from("Hi, there. hi, there!"), 1);
    assert_eq!(chain.len(), 3);
    assert_eq!(chain.count(&words(&["Hi,"]), &String::from("there.")), 1);
    assert_eq!(chain.count(&words(&["hi,"]), &String::from("there!")), 1);
    assert_eq!(chain.count(&words(&["there."]), &String::from("hi,")), 1);
    assert_eq!(chain.count(&words(&["Hi,"]), &String::from("there!")), 0);
}

#[test]
fn new_agrees_with_build() {
    let text = "a b a b c a b";
    let from_text = WordChain::new(String::from("t"), String::from(text), 2);
    let from_words = WordChain::build(String::from("t"), &words(&["a", "b", "a", "b", "c", "a", "b"]), 2);
    assert_eq!(from_text.len(), from_words.len());
    for entry in &from_words.entries {
        assert_eq!(
            as_map(&entry.followers),
            as_map(from_text.followers(&entry.key).unwrap())
        );
    }
}

#[test]
fn build_keeps_title_and_key_length() {
    let chain = WordChain::build(String::from("snippet"), &words(&["a", "b", "c"]), 2);
    assert_eq!(chain.title, "snippet");
    assert_eq!(chain.key_length, 2);
}

#[test]
fn build_of_too_few_words_is_empty() {
    assert_eq!(WordChain::build(String::from("t"), &words(&[]), 1).len(), 0);
    assert_eq!(WordChain::build(String::from("t"), &words(&["a"]), 1).len(), 0);
    assert_eq!(WordChain::build(String::from("t"), &words(&["a", "b"]), 2).len(), 0);
    assert_eq!(WordChain::build(String::from("t"), &words(&["a", "b"]), 5).len(), 0);
    assert_eq!(WordChain::new(String::from("t"), String::from("   "), 1).len(), 0);
}

#[test]
fn build_with_one_more_word_than_the_window_has_one_key() {
    let chain = WordChain::build(String::from("t"), &words(&["a", "b", "c"]), 2);
    assert_eq!(chain.len(), 1);
    assert_eq!(chain.count(&words(&["a", "b"]), &String::from("c")), 1);
}

#[test]
fn build_counts_every_follower() {
    let chain = WordChain::build(
        String::from("t"),
        &words(&["a", "b", "a", "c", "a", "b", "a", "b"]),
        1,
    );
    assert_eq!(chain.len(), 3);
    let after_a: BTreeMap<String, u64> =
        vec![(String::from("b"), 3), (String::from("c"), 1)].into_iter().collect();
    assert_eq!(as_map(chain.followers(&words(&["a"])).unwrap()), after_a);
    let after_b: BTreeMap<String, u64> = vec![(String::from("a"), 2)].into_iter().collect();
    assert_eq!(as_map(chain.followers(&words(&["b"])).unwrap()), after_b);
    assert_eq!(chain.count(&words(&["c"]), &String::from("a")), 1);
    assert_eq!(chain.count(&words(&["c"]), &String::from("b")), 0);
}

#[test]
fn build_keys_have_the_window_length_and_counts_are_positive() {
    for key_length in 1..5usize {
        let chain = WordChain::build(
            String::from("t"),
            &words(&["x", "y", "x", "y", "z", "x", "y", "x", "x"]),
            key_length,
        );
        let mut seen: usize = 0;
        for entry in &chain.entries {
            assert_eq!(entry.key.len(), key_length);
            assert!(!entry.followers.is_empty());
            for item in &entry.followers {
                assert!(item.count >= 1);
                seen += item.count as usize;
            }
        }
        assert_eq!(seen, 9 - key_length);
    }
}

#[test]
fn followers_of_an_unknown_or_misshapen_key_is_none() {
    let chain = WordChain::build(String::from("t"), &words(&["a", "b", "c"]), 2);
    assert!(chain.followers(&words(&["b", "c"])).is_none());
    assert!(chain.followers(&words(&["a"])).is_none());
    assert!(chain.followers(&words(&["a", "b", "c"])).is_none());
    assert_eq!(chain.count(&words(&["a"]), &String::from("b")), 0);
}

#[test]
fn compare_gives_the_exact_fraction_of_each_shared_key() {
    // After "a": left has b x3, c x1; right has b x1, d x2.
    let left = WordChain::build(
        String::from("l"),
        &words(&["a", "b", "a", "b", "a", "b", "a", "c"]),
        1,
    );
    let right = WordChain::build(String::from("r"), &words(&["a", "b", "a", "d", "a", "d"]), 1);
    let terms = left.compare(&right).unwrap();
    // Shared keys, in the order of the left model: "a", then "b".
    assert_eq!(terms.len(), 2);
    assert_eq!(terms[0], KeyScore { overlap: 4, scale: 8 });
    // After "b": left has a x3; right has a x1.
    assert_eq!(terms[1], KeyScore { overlap: 4, scale: 6 });
    let expected = (4.0 / 8.0 + 4.0 / 6.0) / 2.0;
    assert_eq!(mean(&terms), expected);
}

#[test]
fn compare_is_symmetric() {
    let left = WordChain::build(
        String::from("l"),
        &words(&["a", "b", "a", "b", "a", "b", "a", "c"]),
        1,
    );
    let right = WordChain::build(String::from("r"), &words(&["b", "a", "d", "a", "b", "a"]), 1);
    let there = left.compare(&right).unwrap();
    let back = right.compare(&left).unwrap();
    let mut sorted_there: Vec<(u128, u128)> = there.iter().map(|t| (t.overlap, t.scale)).collect();
    let mut sorted_back: Vec<(u128, u128)> = back.iter().map(|t| (t.overlap, t.scale)).collect();
    sorted_there.sort();
    sorted_back.sort();
    assert_eq!(sorted_there, sorted_back);
    assert!(!there.is_empty());
}

#[test]
fn compare_stays_between_zero_and_one() {
    let texts = ["a b c a b d", "a b d a b d a c", "x y z", "a b", "b a b a b a c c c"];
    for left_text in texts {
        for right_text in texts {
            let left = WordChain::new(String::from("l"), String::from(left_text), 1);
            let right = WordChain::new(String::from("r"), String::from(right_text), 1);
            let terms = left.compare(&right).unwrap();
            for term in &terms {
                assert!(term.scale > 0);
                assert!(term.overlap <= term.scale);
            }
            let score = mean(&terms);
            assert!(0.0 <= score && score <= 1.0);
        }
    }
}

#[test]
fn compare_with_itself_is_one_on_every_key() {
    let chain = WordChain::new(String::from("t"), String::from("a b c a b d a b c c"), 2);
    let terms = chain.compare(&chain).unwrap();
    assert_eq!(terms.len(), chain.len());
    for term in &terms {
        assert_eq!(term.overlap, term.scale);
    }
    assert_eq!(mean(&terms), 1.0);
}

#[test]
fn compare_of_shared_key_without_shared_follower_is_zero() {
    let left = WordChain::build(String::from("l"), &words(&["a", "b"]), 1);
    let right = WordChain::build(String::from("r"), &words(&["a", "c", "a", "c"]), 1);
    let terms = left.compare(&right).unwrap();
    assert_eq!(terms, vec![KeyScore { overlap: 0, scale: 4 }]);
    assert_eq!(mean(&terms), 0.0);
}

#[test]
fn compare_of_empty_models_has_no_terms() {
    let empty = WordChain::build(String::from("e"), &words(&["a"]), 2);
    let full = WordChain::build(String::from("f"), &words(&["a", "b", "c"]), 2);
    assert!(empty.compare(&full).unwrap().is_empty());
    assert!(full.compare(&empty).unwrap().is_empty());
    assert!(empty.compare(&empty).unwrap().is_empty());
}

#[test]
fn compare_rejects_different_key_lengths() {
    let one = WordChain::new(String::from("a"), String::from("This is a test"), 1);
    let two = WordChain::new(String::from("b"), String::from("This is a test"), 2);
    let failure = one.compare(&two).unwrap_err();
    assert_eq!(failure.left, 1);
    assert_eq!(failure.right, 2);
    let failure = two.compare(&one).unwrap_err();
    assert_eq!(failure.left, 2);
    assert_eq!(failure.right, 1);
}

#[test]
fn merge_rejects_different_key_lengths() {
    let one = WordChain::new(String::from("a"), String::from("This is a test"), 1);
    let two = WordChain::new(String::from("b"), String::from("This is a test"), 2);
    let failure = one.merge(&two).unwrap_err();
    assert_eq!(failure.left, 1);
    assert_eq!(failure.right, 2);
    assert!(two.merge(&one).is_err());
}

#[test]
fn merge_adds_counts_of_shared_words() {
    let left = WordChain::build(
        String::from("l"),
        &words(&["a", "b", "a", "b", "a", "c"]),
        1,
    );
    let right = WordChain::build(String::from("r"), &words(&["a", "b", "a", "d", "e", "a"]), 1);
    let both = left.merge(&right).unwrap();
    assert_eq!(both.title, "l");
    assert_eq!(both.key_length, 1);
    // Keys: a, b from the left; a, b, d, e from the right.
    assert_eq!(both.len(), 4);
    let after_a: BTreeMap<String, u64> =
        vec![(String::from("b"), 3), (String::from("c"), 1), (String::from("d"), 1)]
            .into_iter()
            .collect();
    assert_eq!(as_map(both.followers(&words(&["a"])).unwrap()), after_a);
    assert_eq!(both.count(&words(&["b"]), &String::from("a")), 3);
    assert_eq!(both.count(&words(&["d"]), &String::from("e")), 1);
    assert_eq!(both.count(&words(&["e"]), &String::from("a")), 1);
}

#[test]
fn merge_leaves_its_inputs_alone() {
    let left = WordChain::build(String::from("l"), &words(&["a", "b", "a", "b"]), 1);
    let right = WordChain::build(String::from("r"), &words(&["a", "b", "c"]), 1);
    let _ = left.merge(&right).unwrap();
    assert_eq!(left.len(), 2);
    assert_eq!(left.count(&words(&["a"]), &String::from("b")), 2);
    assert_eq!(right.len(), 2);
    assert_eq!(right.count(&words(&["a"]), &String::from("b")), 1);
}

#[test]
fn merge_with_an_empty_model_keeps_the_other() {
    let empty = WordChain::build(String::from("e"), &words(&[]), 1);
    let full = WordChain::build(String::from("f"), &words(&["a", "b", "a", "b"]), 1);
    let one = empty.merge(&full).unwrap();
    let other = full.merge(&empty).unwrap();
    assert_eq!(one.len(), 2);
    assert_eq!(other.len(), 2);
    assert_eq!(one.count(&words(&["a"]), &String::from("b")), 2);
    assert_eq!(other.count(&words(&["a"]), &String::from("b")), 2);
    assert_eq!(one.title, "e");
}

#[test]
fn merge_of_a_text_with_itself_doubles_and_scores_one() {
    let chain = WordChain::new(String::from("t"), String::from("a b c a b d"), 2);
    let twice = chain.merge(&chain).unwrap();
    assert_eq!(twice.len(), chain.len());
    assert_eq!(twice.count(&words(&["a", "b"]), &String::from("c")), 2);
    assert_eq!(twice.count(&words(&["a", "b"]), &String::from("d")), 2);
    // The same words follow, each twice as often: every fraction is
    // (c + 2c) / (2 * 2c).
    let terms = chain.compare(&twice).unwrap();
    assert_eq!(terms[0], KeyScore { overlap: 6, scale: 8 });
    assert_eq!(mean(&terms), 0.75);
}

#[test]
fn can_merge_holds_for_ordinary_texts() {
    let left = WordChain::new(String::from("l"), String::from("a b c a b d"), 2);
    let right = WordChain::new(String::from("r"), String::from("a b c x y z"), 2);
    let other_length = WordChain::new(String::from("o"), String::from("a b c"), 1);
    assert!(left.can_merge(&right));
    assert!(right.can_merge(&left));
    assert!(left.can_merge(&left));
    assert!(left.can_merge(&other_length));
}

#[test]
fn can_merge_fails_where_counts_would_not_fit() {
    let heavy = |count: u64| WordChain {
        title: String::from("h"),
        key_length: 1,
        entries: vec![Entry {
            key: words(&["a"]),
            followers: vec![WordCount { word: String::from("b"), count }],
        }],
    };
    assert!(!heavy(u64::MAX).can_merge(&heavy(1)));
    assert!(!heavy(1 << 63).can_merge(&heavy(1 << 63)));
    assert!(heavy(u64::MAX - 1).can_merge(&heavy(1)));
    let sum = heavy(u64::MAX - 1).merge(&heavy(1)).unwrap();
    assert_eq!(sum.count(&words(&["a"]), &String::from("b")), u64::MAX);
    let other_key = WordChain::build(String::from("o"), &words(&["c", "d"]), 1);
    assert!(heavy(u64::MAX).can_merge(&other_key));
    assert_eq!(heavy(u64::MAX).merge(&other_key).unwrap().len(), 2);
}

#[test]
fn compare_of_the_largest_counts_does_not_overflow() {
    let heavy = WordChain {
        title: String::from("h"),
        key_length: 1,
        entries: vec![Entry {
            key: words(&["a"]),
            followers: vec![WordCount { word: String::from("b"), count: u64::MAX }],
        }],
    };
    let terms = heavy.compare(&heavy).unwrap();
    let twice = 2 * (u64::MAX as u128);
    assert_eq!(terms, vec![KeyScore { overlap: twice, scale: twice }]);
}
