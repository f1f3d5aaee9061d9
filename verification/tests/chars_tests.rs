use ckai::chars::{is_digit, is_letter, is_word_char};
use ckai::text::{char_width, chars_of};

#[test]
fn ascii_is_classified_as_std_classifies_it() {
    for code in 0u32..128 {
        let c = char::from_u32(code).unwrap();
        assert_eq!(is_letter(c), c.is_alphabetic(), "letter {:?}", c);
        assert_eq!(is_word_char(c), c.is_alphanumeric(), "word character {:?}", c);
        assert_eq!(is_digit(c), c.is_ascii_digit(), "digit {:?}", c);
    }
}

#[test]
fn beyond_ascii_unicode_decides() {
    assert!(is_letter('é'));
    assert!(is_letter('京'));
    assert!(!is_letter('€'));
    assert!(!is_letter('²'));
    assert!(is_word_char('é'));
    assert!(is_word_char('²'));
    assert!(is_word_char('٣'));
    assert!(!is_word_char('€'));
    assert!(!is_word_char('\u{a0}'));
}

#[test]
fn only_the_ten_ascii_digits_are_digits() {
    assert!(is_digit('0'));
    assert!(is_digit('9'));
    assert!(!is_digit('٣'));
    assert!(!is_digit('²'));
    assert!(!is_digit('a'));
}

#[test]
fn width_is_the_length_of_the_encoding() {
    for c in ['\0', 'a', '\u{7f}', '\u{80}', 'é', '\u{7ff}', '\u{800}', '€', '\u{ffff}', '\u{10000}', '💝', '\u{10ffff}'] {
        assert_eq!(char_width(c), c.len_utf8(), "{:?}", c);
    }
    assert_eq!(char_width('a'), 1);
    assert_eq!(char_width('é'), 2);
    assert_eq!(char_width('€'), 3);
    assert_eq!(char_width('💝'), 4);
}

#[test]
fn chars_of_lists_the_characters() {
    assert_eq!(chars_of("aé€"), vec!['a', 'é', '€']);
    assert_eq!(chars_of(""), Vec::<char>::new());
}
