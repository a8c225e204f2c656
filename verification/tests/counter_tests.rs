use std::sync::Arc;
use word_frequency::collapser::Collapser;
use word_frequency::word_counter::WordCounter;

fn counter(seps: &[char], noise: &[&str], pairs: &[(&str, &str)]) -> WordCounter {
    let mut c = Collapser::new();
    for (word, synonym) in pairs {
        c.add(word, synonym);
    }
    WordCounter::new(
        Arc::new(seps.to_vec()),
        Arc::new(noise.iter().map(|w| w.to_string()).collect()),
        Arc::new(c),
    )
}

fn strings(tokens: Vec<Vec<char>>) -> Vec<String> {
    tokens.into_iter().map(|t| t.into_iter().collect()).collect()
}

#[test]
fn new_counter_is_empty() {
    let wc = counter(&[' '], &[], &[]);
    assert_eq!(wc.len(), 0);
    assert_eq!(wc.rows_processed(), 0);
    assert_eq!(wc.count("cat"), 0);
}

#[test]
fn split_at_every_separator() {
    let wc = counter(&[' ', ','], &[], &[]);
    assert_eq!(strings(wc.split("a b,c")), vec!["a", "b", "c"]);
    assert_eq!(strings(wc.split("")), vec![""]);
    assert_eq!(strings(wc.split(" ")), vec!["", ""]);
    assert_eq!(strings(wc.split("a,, b ")), vec!["a", "", "", "b", ""]);
    assert_eq!(strings(wc.split("caf\u{e9} au lait")), vec!["caf\u{e9}", "au", "lait"]);
}

#[test]
fn split_without_separators_is_the_line() {
    let wc = counter(&[], &[], &[]);
    assert_eq!(strings(wc.split("a b")), vec!["a b"]);
    assert!(!wc.is_separator(' '));
}

#[test]
fn countable_part_strips_and_filters() {
    let chars = |s: &str| s.chars().collect::<Vec<char>>();
    assert_eq!(WordCounter::countable_part(&chars("cat")), Some("cat".to_string()));
    assert_eq!(WordCounter::countable_part(&chars("\tcat")), Some("cat".to_string()));
    assert_eq!(WordCounter::countable_part(&chars("\t\tcat")), Some("\tcat".to_string()));
    assert_eq!(WordCounter::countable_part(&chars("cat\r\n")), Some("cat".to_string()));
    assert_eq!(WordCounter::countable_part(&chars("\r\n")), None);
    assert_eq!(WordCounter::countable_part(&chars("\ncat\r\n")), Some("cat".to_string()));
    assert_eq!(WordCounter::countable_part(&chars("cat\n")), Some("cat\n".to_string()));
    assert_eq!(WordCounter::countable_part(&chars("")), None);
    assert_eq!(WordCounter::countable_part(&chars("x")), None);
    assert_eq!(WordCounter::countable_part(&chars("\tx")), None);
    assert_eq!(WordCounter::countable_part(&chars("xy\r\n")), Some("xy".to_string()));
    assert_eq!(WordCounter::countable_part(&chars("x\r\n")), None);
    assert_eq!(WordCounter::countable_part(&chars("42")), None);
    assert_eq!(WordCounter::countable_part(&chars("0123456789")), None);
    assert_eq!(WordCounter::countable_part(&chars("4x")), Some("4x".to_string()));
    assert_eq!(WordCounter::countable_part(&chars("\u{e9}")), None);
}

#[test]
fn register_word_adds_to_the_count() {
    let mut wc = counter(&[' '], &[], &[]);
    wc.register_word("cat".to_string(), 3);
    assert_eq!(wc.count("cat"), 3);
    wc.register_word("cat".to_string(), 4);
    assert_eq!(wc.count("cat"), 7);
    wc.register_word("dog".to_string(), 0);
    assert_eq!(wc.count("dog"), 0);
    assert_eq!(wc.len(), 2);
    assert_eq!(wc.word_at(0), "cat");
    assert_eq!(wc.word_at(1), "dog");
    assert_eq!(wc.rows_processed(), 0);
}

#[test]
fn register_word_never_lowers_a_count() {
    let mut wc = counter(&[' '], &[], &[]);
    let mut last: u64 = 0;
    for delta in [0u64, 1, 0, 5, 2] {
        wc.register_word("cat".to_string(), delta);
        assert!(wc.count("cat") >= last);
        assert_eq!(wc.count("cat"), last + delta);
        last = wc.count("cat");
    }
    wc.register_word("dog".to_string(), 9);
    assert_eq!(wc.count("dog"), 9);
    assert_eq!(wc.count("cat"), last);
}

#[test]
fn count_lowered_skips_noise_and_collapses() {
    let mut wc = counter(&[' '], &["the"], &[("cat", "kitten")]);
    wc.count_lowered("the".to_string());
    wc.count_lowered("kitten".to_string());
    wc.count_lowered("cat".to_string());
    wc.count_lowered("The".to_string());
    assert_eq!(wc.count("the"), 0);
    assert_eq!(wc.count("kitten"), 0);
    assert_eq!(wc.count("cat"), 2);
    assert_eq!(wc.count("The"), 1);
    assert!(wc.is_noise(&"the".to_string()));
    assert!(!wc.is_noise(&"th".to_string()));
}

#[test]
fn process_line_counts_lower_case() {
    let mut wc = counter(&[' '], &["the"], &[]);
    wc.process_line("The CAT saw the Cat");
    assert_eq!(wc.count("cat"), 2);
    assert_eq!(wc.count("saw"), 1);
    assert_eq!(wc.count("the"), 0);
    assert_eq!(wc.count("CAT"), 0);
    assert_eq!(wc.len(), 2);
    assert_eq!(wc.rows_processed(), 1);
}

#[test]
fn process_line_lowers_before_collapsing() {
    let mut wc = counter(&[' '], &[], &[("cat", "kitten")]);
    wc.process_line("KITTEN Kitten cat");
    assert_eq!(wc.count("cat"), 3);
    assert_eq!(wc.count("kitten"), 0);
}

#[test]
fn process_line_drops_short_numeric_and_noise_tokens() {
    let mut wc = counter(&[' ', '\n'], &["an", "the"], &[]);
    wc.process_line("x 7 42 The AN a1 ok  \n");
    assert_eq!(wc.len(), 2);
    assert_eq!(wc.count("a1"), 1);
    assert_eq!(wc.count("ok"), 1);
    assert_eq!(wc.count("x"), 0);
    assert_eq!(wc.count("42"), 0);
    assert_eq!(wc.count("the"), 0);
    assert_eq!(wc.count("an"), 0);
    assert_eq!(wc.count(""), 0);
}

#[test]
fn process_line_strips_line_ends() {
    let mut wc = counter(&[' '], &[], &[]);
    wc.process_line("\tone two\r\n");
    wc.process_line("two");
    assert_eq!(wc.count("one"), 1);
    assert_eq!(wc.count("two"), 2);
    assert_eq!(wc.rows_processed(), 2);
}

#[test]
fn process_empty_line_counts_the_row_only() {
    let mut wc = counter(&[' '], &[], &[]);
    wc.process_line("");
    assert_eq!(wc.len(), 0);
    assert_eq!(wc.rows_processed(), 1);
}

#[test]
fn merge_adds_counts_word_by_word() {
    let mut a = counter(&[' '], &[], &[]);
    let mut b = counter(&[' '], &[], &[]);
    a.process_line("cat dog cat");
    b.process_line("dog bird");
    let mut ab = counter(&[' '], &[], &[]);
    ab.merge(&a);
    ab.merge(&b);
    let mut ba = counter(&[' '], &[], &[]);
    ba.merge(&b);
    ba.merge(&a);
    for w in ["cat", "dog", "bird", "fish"] {
        assert_eq!(ab.count(w), ba.count(w));
    }
    assert_eq!(ab.count("cat"), 2);
    assert_eq!(ab.count("dog"), 2);
    assert_eq!(ab.count("bird"), 1);
    assert_eq!(ab.len(), 3);
    assert_eq!(a.count("dog"), 1);
}

#[test]
fn ranked_is_sorted_by_count() {
    let mut wc = counter(&[' '], &[], &[]);
    wc.register_word("a".to_string(), 5);
    wc.register_word("b".to_string(), 5);
    wc.register_word("c".to_string(), 10);
    let top = wc.ranked(2);
    assert_eq!(top.len(), 2);
    assert_eq!(top[0], ("c".to_string(), 10));
    assert_eq!(top[1].1, 5);
    assert!(top[1].0 == "a" || top[1].0 == "b");
    assert!(top[0].1 >= top[1].1);
}

#[test]
fn ranked_with_a_large_limit_lists_everything() {
    let mut wc = counter(&[' '], &[], &[]);
    wc.process_line("one two two three three three");
    let top = wc.ranked(100);
    assert_eq!(
        top,
        vec![("three".to_string(), 3), ("two".to_string(), 2), ("one".to_string(), 1)]
    );
    assert!(wc.ranked(0).is_empty());
    assert_eq!(wc.ranked(1), vec![("three".to_string(), 3)]);
}

#[test]
fn ranked_of_nothing_is_empty() {
    let wc = counter(&[' '], &[], &[]);
    assert!(wc.ranked(100).is_empty());
}
