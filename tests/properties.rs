use word_freq::counter::{count_range, count_words, partition_bounds};
use word_freq::tokenizer::tokenize;
use word_freq::top_k::top_k;

const SAMPLE: &str = "It was the best of times, it was the worst of times, it was the age of \
    wisdom, it was the age of foolishness -- it was the epoch of belief; it was the epoch of \
    incredulity. \u{201c}Quoted\u{201d} WORDS, numbers 42 and 42!";

#[test]
fn chunked_counts_equal_single_count() {
    let tokens = tokenize(SAMPLE);
    let whole = count_range(&tokens, 0, tokens.len());
    for size in [1usize, 2, 3, 7, 100] {
        let merged = count_words(&tokens, size);
        assert_eq!(merged.len(), whole.len());
        for (w, c) in &merged {
            assert_eq!(*whole.get(w).unwrap(), *c);
        }
    }
}

#[test]
fn separate_groups_add_up() {
    let tokens = tokenize(SAMPLE);
    let mid = tokens.len() / 3;
    let left = count_range(&tokens, 0, mid);
    let right = count_range(&tokens, mid, tokens.len());
    for (w, c) in count_words(&tokens, 5) {
        let l = left.get(&w).map(|r| *r).unwrap_or(0);
        let r = right.get(&w).map(|r| *r).unwrap_or(0);
        assert_eq!(l + r, c);
    }
}

#[test]
fn counts_sum_to_token_total() {
    let tokens = tokenize(SAMPLE);
    let total: u64 = count_words(&tokens, 4).iter().map(|e| e.1).sum();
    assert_eq!(total, tokens.len() as u64);
}

#[test]
fn top_k_is_bounded_and_sorted() {
    let entries = count_words(&tokenize(SAMPLE), 3);
    for k in [0usize, 1, 4, 10, 100] {
        let top = top_k(&entries, k);
        assert_eq!(top.len(), k);
        assert!(top.windows(2).all(|w| w[0].1 >= w[1].1));
    }
}

#[test]
fn top_k_excludes_only_lower_counts() {
    let entries = count_words(&tokenize(SAMPLE), 3);
    let top = top_k(&entries, 4);
    let lowest = top.iter().map(|e| e.1).min().unwrap();
    for e in &entries {
        if !top.contains(e) {
            assert!(e.1 <= lowest);
        }
    }
    assert_eq!(top[0].1, 6);
}

#[test]
fn retokenizing_joined_tokens_is_stable() {
    let tokens = tokenize(SAMPLE);
    let joined = tokens.join(" ");
    assert_eq!(tokenize(&joined), tokens);
}

#[test]
fn partitions_cover_in_order() {
    let bounds = partition_bounds(25, 10);
    assert_eq!(bounds, vec![(0, 10), (10, 20), (20, 25)]);
    assert_eq!(partition_bounds(0, 10), vec![(0, 0)]);
    assert_eq!(partition_bounds(10, 10), vec![(0, 10)]);
    assert_eq!(partition_bounds(3, 100), vec![(0, 3)]);
}
