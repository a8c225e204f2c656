use word_frequency::records::{find_field_end, space, trim_bounds};
use word_frequency::table::WordTable;
use word_frequency::text::{chars_of, digits_only, string_of};

#[test]
fn chars_of_lists_every_character() {
    assert_eq!(chars_of(""), Vec::<char>::new());
    assert_eq!(chars_of("a\u{e9}\u{1f600}z"), vec!['a', '\u{e9}', '\u{1f600}', 'z']);
}

#[test]
fn string_of_takes_a_range() {
    let chars = chars_of("h\u{e9}llo");
    assert_eq!(string_of(&chars, 0, 5), "h\u{e9}llo");
    assert_eq!(string_of(&chars, 1, 3), "\u{e9}l");
    assert_eq!(string_of(&chars, 2, 2), "");
}

#[test]
fn digits_only_sees_decimal_digits() {
    let chars = chars_of("a0129b\u{663}");
    assert!(digits_only(&chars, 1, 5));
    assert!(!digits_only(&chars, 0, 5));
    assert!(!digits_only(&chars, 1, 6));
    assert!(!digits_only(&chars, 6, 7));
    assert!(digits_only(&chars, 3, 3));
}

#[test]
fn space_agrees_with_the_white_space_property() {
    let mut n: u32 = 0;
    while n < 0x3100 {
        if let Some(c) = char::from_u32(n) {
            assert_eq!(space(c), c.is_whitespace());
        }
        n += 1;
    }
    assert!(!space('\u{feff}'));
    assert!(!space('\u{200b}'));
}

#[test]
fn fields_end_at_a_semicolon() {
    let chars = chars_of("ab;cd;");
    assert_eq!(find_field_end(&chars, 0), 2);
    assert_eq!(find_field_end(&chars, 2), 2);
    assert_eq!(find_field_end(&chars, 3), 5);
    assert_eq!(find_field_end(&chars, 6), 6);
    assert_eq!(find_field_end(&chars_of("abc"), 0), 3);
}

#[test]
fn trim_bounds_skip_white_space() {
    let chars = chars_of("  ab c \n");
    assert_eq!(trim_bounds(&chars, 0, 8), (2, 6));
    assert_eq!(trim_bounds(&chars, 2, 6), (2, 6));
    assert_eq!(trim_bounds(&chars, 0, 2), (2, 2));
    assert_eq!(trim_bounds(&chars, 6, 8), (8, 8));
    assert_eq!(trim_bounds(&chars, 3, 3), (3, 3));
}

#[test]
fn word_table_keeps_first_insertion_order() {
    let mut t: WordTable<u64> = WordTable::new();
    assert_eq!(t.len(), 0);
    assert_eq!(t.get("a"), None);
    t.insert("b".to_string(), 1);
    t.insert("a".to_string(), 2);
    t.insert("b".to_string(), 3);
    assert_eq!(t.len(), 2);
    assert_eq!(t.key_at(0), "b");
    assert_eq!(t.key_at(1), "a");
    assert_eq!(t.get("b"), Some(3));
    assert_eq!(t.get("a"), Some(2));
    assert_eq!(t.get("c"), None);
}
