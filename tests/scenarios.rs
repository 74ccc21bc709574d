use word_freq::counter::{count_range, count_words, partition_bounds};
use word_freq::tokenizer::tokenize;
use word_freq::top_k::top_k;
use word_freq::{most_frequent, DEFAULT_CHUNK_SIZE, DEFAULT_TOP_K};

fn strings(words: &[&str]) -> Vec<String> {
    words.iter().map(|w| w.to_string()).collect()
}

fn sorted_counts(mut es: Vec<(String, u64)>) -> Vec<(String, u64)> {
    es.sort();
    es
}

#[test]
fn two_cats_top_two() {
    let text = "The cat sat. The cat ran!";
    let tokens = tokenize(text);
    assert_eq!(tokens, strings(&["the", "cat", "sat", "the", "cat", "ran"]));
    let counts = sorted_counts(count_words(&tokens, DEFAULT_CHUNK_SIZE));
    assert_eq!(
        counts,
        vec![
            ("cat".to_string(), 2),
            ("ran".to_string(), 1),
            ("sat".to_string(), 1),
            ("the".to_string(), 2),
        ]
    );
    let top = most_frequent(text, 2, DEFAULT_CHUNK_SIZE);
    assert_eq!(top.len(), 2);
    let mut words: Vec<String> = top.iter().map(|e| e.0.clone()).collect();
    words.sort();
    assert_eq!(words, strings(&["cat", "the"]));
    assert!(top.iter().all(|e| e.1 == 2));
}

#[test]
fn empty_text_gives_sentinels() {
    let tokens = tokenize("");
    assert!(tokens.is_empty());
    assert!(count_words(&tokens, DEFAULT_CHUNK_SIZE).is_empty());
    let top = most_frequent("", DEFAULT_TOP_K, DEFAULT_CHUNK_SIZE);
    assert_eq!(top.len(), 30);
    assert!(top.iter().all(|e| e.0.is_empty() && e.1 == 0));
}

#[test]
fn repeated_word_in_ten_chunks() {
    let text = vec!["word"; 100_000].join(" ");
    let tokens = tokenize(&text);
    assert_eq!(tokens.len(), 100_000);
    let bounds = partition_bounds(tokens.len(), 10_000);
    assert_eq!(bounds.len(), 10);
    for (i, &(lo, hi)) in bounds.iter().enumerate() {
        assert_eq!((lo, hi), (i * 10_000, (i + 1) * 10_000));
        let part = count_range(&tokens, lo, hi);
        assert_eq!(part.len(), 1);
        assert_eq!(*part.get("word").unwrap(), 10_000);
    }
    assert_eq!(count_words(&tokens, 10_000), vec![("word".to_string(), 100_000)]);
    assert_eq!(most_frequent(&text, 1, 10_000), vec![("word".to_string(), 100_000)]);
}

#[test]
fn variants_of_a_collapse() {
    let text = "a A a! a? 'a'";
    assert_eq!(tokenize(text), strings(&["a", "a", "a", "a", "a"]));
    assert_eq!(most_frequent(text, 1, DEFAULT_CHUNK_SIZE), vec![("a".to_string(), 5)]);
}

#[test]
fn top_k_keeps_first_of_equal_counts() {
    let entries = vec![
        ("x".to_string(), 3),
        ("y".to_string(), 5),
        ("z".to_string(), 3),
        ("w".to_string(), 1),
    ];
    assert_eq!(top_k(&entries, 2), vec![("y".to_string(), 5), ("x".to_string(), 3)]);
    assert_eq!(
        top_k(&entries, 3),
        vec![("y".to_string(), 5), ("x".to_string(), 3), ("z".to_string(), 3)]
    );
    assert_eq!(
        top_k(&entries, 6),
        vec![
            ("y".to_string(), 5),
            ("x".to_string(), 3),
            ("z".to_string(), 3),
            ("w".to_string(), 1),
            (String::new(), 0),
            (String::new(), 0),
        ]
    );
}

#[test]
fn top_k_of_zero_slots_is_empty() {
    let entries = vec![("x".to_string(), 3)];
    assert!(top_k(&entries, 0).is_empty());
}
