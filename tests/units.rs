use word_freq::input::{parse_book_id, parse_choice, Choice};
use word_freq::tokenizer::{char_is_space, tokenize};

#[test]
fn space_test_agrees_with_std() {
    for v in 0u32..0x11_0000 {
        if let Some(c) = char::from_u32(v) {
            assert_eq!(char_is_space(c), c.is_whitespace(), "{v:#x}");
        }
    }
}

#[test]
fn tokenize_lowercases_and_trims() {
    assert_eq!(tokenize("  HeLLo,\tWORLD...\n"), vec!["hello".to_string(), "world".to_string()]);
    assert_eq!(tokenize("\u{3000}Straße\u{a0}ÉTÉ"), vec!["straße".to_string(), "été".to_string()]);
}

#[test]
fn tokenize_keeps_inner_punctuation() {
    assert_eq!(tokenize("don't (x-ray) 3.14"), vec!["don't".to_string(), "x-ray".to_string(), "3.14".to_string()]);
}

#[test]
fn tokenize_drops_punctuation_runs() {
    assert!(tokenize("-- ... !!! ' \" ").is_empty());
    assert!(tokenize(" \n\t ").is_empty());
}

#[test]
fn book_ids_are_read() {
    assert_eq!(parse_book_id("1342\n"), Some(1342));
    assert_eq!(parse_book_id("  https://www.gutenberg.org/ebooks/84 "), Some(84));
    assert_eq!(parse_book_id("#00042"), Some(42));
    assert_eq!(parse_book_id("4294967295"), Some(u32::MAX));
}

#[test]
fn bad_book_ids_are_refused() {
    assert_eq!(parse_book_id(""), None);
    assert_eq!(parse_book_id("no digits"), None);
    assert_eq!(parse_book_id("0"), None);
    assert_eq!(parse_book_id("4294967296"), None);
    assert_eq!(parse_book_id("12a"), None);
    assert_eq!(parse_book_id("12 34"), None);
}

#[test]
fn menu_choices_are_read() {
    assert_eq!(parse_choice("F\n"), Some(Choice::Frequent));
    assert_eq!(parse_choice(" f "), Some(Choice::Frequent));
    assert_eq!(parse_choice("M"), Some(Choice::Markov));
    assert_eq!(parse_choice("m\r\n"), Some(Choice::Markov));
    assert_eq!(parse_choice("x"), None);
    assert_eq!(parse_choice("FF"), None);
    assert_eq!(parse_choice(""), None);
}

#[test]
fn dotted_capital_i_is_not_its_own_normal_form() {
    let first = tokenize("\u{130}");
    assert_eq!(first, vec!["i\u{307}".to_string()]);
    assert_eq!(tokenize(&first.join(" ")), vec!["i".to_string()]);
}
