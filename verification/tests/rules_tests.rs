use std::sync::Arc;
use word_frequency::collapser::Collapser;
use word_frequency::errors::LoadFromFileError;
use word_frequency::rules::{
    insert_char, insert_word, noise_word, noise_words_from_lines, separators_from_lines,
    word_before,
};
use word_frequency::word_counter::WordCounter;

fn chars(s: &str) -> Vec<char> {
    s.chars().collect()
}

fn lines(ls: &[&str]) -> Vec<String> {
    ls.iter().map(|l| l.to_string()).collect()
}

#[test]
fn words_are_ordered_as_in_a_dictionary() {
    assert!(word_before(&chars(""), &chars("")));
    assert!(word_before(&chars(""), &chars("a")));
    assert!(!word_before(&chars("a"), &chars("")));
    assert!(word_before(&chars("a"), &chars("a")));
    assert!(word_before(&chars("a"), &chars("ab")));
    assert!(!word_before(&chars("ab"), &chars("a")));
    assert!(word_before(&chars("ab"), &chars("b")));
    assert!(!word_before(&chars("b"), &chars("ab")));
    assert!(word_before(&chars("Zebra"), &chars("apple")));
    assert!(word_before(&chars("z"), &chars("\u{e9}")));
}

#[test]
fn word_order_agrees_with_string_order() {
    let words = ["", "a", "ab", "abc", "b", "B", "the", "then", "\u{e9}t\u{e9}", "zz"];
    for a in words {
        for b in words {
            assert_eq!(word_before(&chars(a), &chars(b)), a <= b);
        }
    }
}

#[test]
fn noise_word_drops_line_feeds() {
    assert_eq!(noise_word("the\n"), "the");
    assert_eq!(noise_word("the"), "the");
    assert_eq!(noise_word("\nth\ne\n\n"), "the");
    assert_eq!(noise_word("the\r\n"), "the\r");
    assert_eq!(noise_word(""), "");
}

#[test]
fn noise_words_come_out_sorted() {
    let words = noise_words_from_lines(&lines(&["the\n", "a\n", "of\n", "an\n", "a\n"]));
    assert_eq!(words, lines(&["a", "a", "an", "of", "the"]));
    assert!(noise_words_from_lines(&Vec::new()).is_empty());
}

#[test]
fn insert_word_keeps_the_order() {
    let mut words = lines(&["b", "d"]);
    insert_word(&mut words, "c".to_string());
    insert_word(&mut words, "a".to_string());
    insert_word(&mut words, "e".to_string());
    insert_word(&mut words, "c".to_string());
    assert_eq!(words, lines(&["a", "b", "c", "c", "d", "e"]));
}

#[test]
fn insert_char_keeps_the_order() {
    let mut seps = vec![' ', ';'];
    insert_char(&mut seps, ',');
    insert_char(&mut seps, '\n');
    insert_char(&mut seps, '~');
    assert_eq!(seps, vec!['\n', ' ', ',', ';', '~']);
}

#[test]
fn separators_are_the_first_characters_sorted() {
    match separators_from_lines(&lines(&[";\n", " \n", ",x\n", "\n", ".\n"])) {
        Ok(seps) => assert_eq!(seps, vec!['\n', ' ', ',', '.', ';']),
        Err(_) => panic!("five separators"),
    }
    match separators_from_lines(&Vec::new()) {
        Ok(seps) => assert!(seps.is_empty()),
        Err(_) => panic!("no separators"),
    }
}

#[test]
fn separators_reject_an_empty_line() {
    match separators_from_lines(&lines(&[";\n", ""])) {
        Err(LoadFromFileError::FormatError(msg)) => assert_eq!(msg, "Char not found"),
        _ => panic!("a format error"),
    }
}

#[test]
fn noise_words_are_found_by_halving() {
    let noise = noise_words_from_lines(&lines(&[
        "the\n", "a\n", "of\n", "an\n", "to\n", "in\n", "is\n", "it\n", "on\n",
    ]));
    let wc = WordCounter::new(Arc::new(vec![' ']), Arc::new(noise.clone()), Arc::new(Collapser::new()));
    for w in &noise {
        assert!(wc.is_noise(w));
    }
    for w in ["", "aa", "as", "i", "iz", "tha", "thee", "zz", "A"] {
        assert!(!wc.is_noise(&w.to_string()));
    }
    let none = WordCounter::new(Arc::new(vec![' ']), Arc::new(Vec::new()), Arc::new(Collapser::new()));
    assert!(!none.is_noise(&"the".to_string()));
}

#[test]
fn loaded_rules_drive_a_count() {
    let noise = noise_words_from_lines(&lines(&["the\n", "a\n"]));
    let seps = match separators_from_lines(&lines(&[" \n", "\n"])) {
        Ok(s) => s,
        Err(_) => panic!("two separators"),
    };
    let table = match Collapser::from_lines(&lines(&["kitten;cat\n"])) {
        Ok(c) => c,
        Err(_) => panic!("one record"),
    };
    let mut wc = WordCounter::new(Arc::new(seps), Arc::new(noise), Arc::new(table));
    wc.process_line("The kitten and a cat\n");
    assert_eq!(wc.count("cat"), 2);
    assert_eq!(wc.count("and"), 1);
    assert_eq!(wc.len(), 2);
}
