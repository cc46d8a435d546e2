use static_website_search::format_structs::PostFreq;
use static_website_search::hash::naive_hash;
use static_website_search::minimize_width::minimize_width;
use static_website_search::tokenize::tokenize;

fn no_stopwords() -> Vec<String> {
    Vec::new()
}

fn tf(entries: &[(&str, u32)]) -> Vec<(String, u32)> {
    entries.iter().map(|(k, v)| (k.to_string(), *v)).collect()
}

#[test]
fn tokenize_counts_lowercased_words() {
    let text = "Hello, hello world!".to_string();
    let counter = tokenize(&text, &no_stopwords());
    assert_eq!(counter, tf(&[("hello", 2), ("world", 1)]));
}

#[test]
fn tokenize_splits_on_every_non_alphabetic_character() {
    let text = "a1b  c-d".to_string();
    let counter = tokenize(&text, &no_stopwords());
    assert_eq!(counter, tf(&[("a", 1), ("b", 1), ("c", 1), ("d", 1)]));
}

#[test]
fn tokenize_drops_stopwords_after_lowercasing() {
    let stopwords: Vec<String> = vec!["the".to_string(), "a".to_string()];
    let text = "The cat saw a Cat".to_string();
    let counter = tokenize(&text, &stopwords);
    assert_eq!(counter, tf(&[("cat", 2), ("saw", 1)]));
}

#[test]
fn tokenize_lowercases_beyond_ascii() {
    let text = "ÉCOLE école".to_string();
    let counter = tokenize(&text, &no_stopwords());
    assert_eq!(counter, tf(&[("école", 2)]));
}

#[test]
fn tokenize_empty_text_gives_empty_counter() {
    let counter = tokenize(&"".to_string(), &no_stopwords());
    assert!(counter.is_empty());
}

#[test]
fn minimize_width_ranks_each_word_across_posts() {
    let posts = vec![
        PostFreq {
            title: "first".to_string(),
            url: "one.html".to_string(),
            term_frequency: tf(&[("a", 5), ("b", 7)]),
        },
        PostFreq {
            title: "second".to_string(),
            url: "two.html".to_string(),
            term_frequency: tf(&[("a", 3)]),
        },
    ];
    let out = minimize_width(&posts);
    assert_eq!(out.len(), 2);
    assert_eq!(out[0].title, "first");
    assert_eq!(out[0].url, "one.html");
    // word "a" has distinct values {3, 5}: 5 ranks 1, 3 ranks 0
    assert_eq!(out[0].term_frequency, tf(&[("a", 3), ("b", 1)]));
    assert_eq!(out[1].term_frequency, tf(&[("a", 1)]));
}

#[test]
fn minimize_width_ignores_duplicate_values() {
    let posts = vec![
        PostFreq {
            title: "t".to_string(),
            url: "u".to_string(),
            term_frequency: tf(&[("w", 4)]),
        },
        PostFreq {
            title: "t2".to_string(),
            url: "u2".to_string(),
            term_frequency: tf(&[("w", 4), ("x", 9)]),
        },
        PostFreq {
            title: "t3".to_string(),
            url: "u3".to_string(),
            term_frequency: tf(&[("w", 2)]),
        },
    ];
    let out = minimize_width(&posts);
    // distinct values for "w" are {2, 4}: 4 ranks 1 both times, 2 ranks 0
    assert_eq!(out[0].term_frequency, tf(&[("w", 3)]));
    assert_eq!(out[1].term_frequency, tf(&[("w", 3), ("x", 1)]));
    assert_eq!(out[2].term_frequency, tf(&[("w", 1)]));
}

#[test]
fn naive_hash_weights_positions() {
    // empty token: (0 + 1) * (14 + 1)
    assert_eq!(naive_hash("", 14), 15);
    // "a": (1 * 97 + 1) * (0 + 1)
    assert_eq!(naive_hash("a", 0), 98);
    // "ab": (1 * 97 + 2 * 98 + 1) * (1 + 1)
    assert_eq!(naive_hash("ab", 1), 588);
}
