use string_analyzer::text::{
    chars_of, check_palindrome, contains, contains_char, parse_unsigned_word, same_text,
    single_char_text, split_whitespace,
};

fn chars(text: &str) -> Vec<char> {
    text.chars().collect()
}

#[test]
fn chars_of_gives_the_scalar_values_in_order() {
    assert_eq!(chars_of("héllo"), vec!['h', 'é', 'l', 'l', 'o']);
    assert_eq!(chars_of(""), Vec::<char>::new());
    assert_eq!(chars_of("a\u{0301}"), vec!['a', '\u{0301}']);
}

#[test]
fn single_char_text_holds_one_scalar_value() {
    assert_eq!(single_char_text('z'), "z");
    assert_eq!(single_char_text('ß'), "ß");
}

#[test]
fn contains_agrees_with_the_standard_search() {
    let texts = ["", "a", "abc", "aaab", "hello world", "the letter q", "ababab", "ünï"];
    let patterns = ["", "a", "b", "ab", "aab", "abc", "abcd", "world", "o w", "letter q", "bab", "nï", "x"];
    for text in texts {
        for pattern in patterns {
            assert_eq!(
                contains(&chars(text), &chars(pattern)),
                text.contains(pattern),
                "{:?} in {:?}",
                pattern,
                text
            );
        }
    }
}

#[test]
fn contains_finds_a_pattern_at_the_very_end() {
    assert!(contains(&chars("xxabc"), &chars("abc")));
    assert!(!contains(&chars("xxab"), &chars("abc")));
}

#[test]
fn contains_char_looks_at_every_position() {
    assert!(contains_char(&chars("racecar"), 'e'));
    assert!(contains_char(&chars("racecar"), 'r'));
    assert!(!contains_char(&chars("racecar"), 'z'));
    assert!(!contains_char(&chars(""), 'a'));
}

#[test]
fn same_text_compares_scalar_values() {
    assert!(same_text("letter", "letter"));
    assert!(!same_text("letter", "letters"));
    assert!(!same_text("letter", "lettex"));
    assert!(same_text("", ""));
}

#[test]
fn palindromes_are_told_by_scalar_values() {
    assert!(check_palindrome(&chars("racecar")));
    assert!(check_palindrome(&chars("")));
    assert!(check_palindrome(&chars("a")));
    assert!(check_palindrome(&chars("abba")));
    assert!(!check_palindrome(&chars("Racecar")));
    assert!(!check_palindrome(&chars("hello world")));
    assert!(!check_palindrome(&chars("ab")));
}

#[test]
fn split_whitespace_agrees_with_the_standard_split() {
    let texts = [
        "",
        " ",
        "hello world",
        "  leading and trailing  ",
        "tabs\tand\nlines\r\n",
        "one",
        "ideographic\u{3000}space",
        "no\u{00A0}break",
        "a  b   c",
        "zero\u{200B}width",
    ];
    for text in texts {
        let expected: Vec<&str> = text.split_whitespace().collect();
        assert_eq!(split_whitespace(text), expected, "{:?}", text);
    }
}

#[test]
fn parse_agrees_with_the_standard_parse() {
    let words = [
        "", "0", "7", "20", "007", "+5", "+", "-5", "-0", "++5", "5+", "12a", "a12", " 5", "5 ",
        "1_000", "٣", "18446744073709551615", "18446744073709551616", "99999999999999999999999",
        "4294967295", "4294967296",
    ];
    for word in words {
        assert_eq!(parse_unsigned_word(word), word.parse::<usize>().ok(), "{:?}", word);
    }
}

#[test]
fn parse_reads_decimal_digits() {
    assert_eq!(parse_unsigned_word("20"), Some(20));
    assert_eq!(parse_unsigned_word("+20"), Some(20));
    assert_eq!(parse_unsigned_word("0010"), Some(10));
    assert_eq!(parse_unsigned_word("twenty"), None);
}

fn has_white_space(c: char) -> bool {
    matches!(
        c as u32,
        0x09..=0x0D | 0x20 | 0x85 | 0xA0 | 0x1680 | 0x2000..=0x200A | 0x2028 | 0x2029 | 0x202F
            | 0x205F | 0x3000
    )
}

#[test]
fn whitespace_is_the_unicode_property() {
    let mut seen = 0;
    for code in 0..=0x10FFFFu32 {
        if let Some(c) = char::from_u32(code) {
            let mut text = String::new();
            text.push(c);
            assert_eq!(split_whitespace(&text).is_empty(), has_white_space(c), "U+{:04X}", code);
            assert_eq!(c.is_whitespace(), has_white_space(c), "U+{:04X}", code);
            if has_white_space(c) {
                seen += 1;
            }
        }
    }
    assert_eq!(seen, 25);
}
