use norg_pandoc_ast::text::{
    char_is_digit, char_is_space, chars_of, decimal, drop_first, ends_with, read_level,
    replace_home, same_text, slice_text, spells, split_entry, split_lines, starts_with,
    strip_delimiters, trim,
};

fn chars(text: &str) -> Vec<char> {
    text.chars().collect()
}

#[test]
fn characters_of_a_text() {
    assert_eq!(chars_of("añ→"), vec!['a', 'ñ', '→']);
    assert_eq!(chars_of(""), Vec::<char>::new());
}

#[test]
fn texts_are_compared_by_characters() {
    assert!(same_text("code", "code"));
    assert!(!same_text("code", "codes"));
    assert!(!same_text("code", "cods"));
    assert!(same_text("", ""));
    assert!(spells(&chars("table"), "table"));
    assert!(!spells(&chars("table"), "tables"));
}

#[test]
fn prefixes_and_suffixes() {
    assert!(starts_with(&chars("heading1"), "heading"));
    assert!(starts_with(&chars("heading"), "heading"));
    assert!(!starts_with(&chars("head"), "heading"));
    assert!(starts_with(&chars("x"), ""));
    assert!(ends_with(&chars("bold_close"), "close"));
    assert!(!ends_with(&chars("closed"), "close"));
    assert!(!ends_with(&chars("se"), "close"));
}

#[test]
fn digits_and_levels() {
    assert!(char_is_digit('0') && char_is_digit('9'));
    assert!(!char_is_digit('a') && !char_is_digit('/') && !char_is_digit(':'));
    assert_eq!(read_level(&chars("heading2")), Some(2));
    assert_eq!(read_level(&chars("unordered_list10")), Some(10));
    assert_eq!(read_level(&chars("h007")), Some(7));
    assert_eq!(read_level(&chars("heading")), None);
    assert_eq!(read_level(&chars("heading1_prefix")), None);
    assert_eq!(read_level(&chars("")), None);
    assert_eq!(read_level(&chars("x18446744073709551615")), Some(u64::MAX));
    assert_eq!(read_level(&chars("x18446744073709551616")), None);
}

#[test]
fn numbers_in_decimal() {
    assert_eq!(decimal(0), "0");
    assert_eq!(decimal(7), "7");
    assert_eq!(decimal(10), "10");
    assert_eq!(decimal(1234567890), "1234567890");
    assert_eq!(decimal(u64::MAX), "18446744073709551615");
}

#[test]
fn slices_by_characters() {
    assert_eq!(slice_text("añ→b", 1, 3), "ñ→");
    assert_eq!(slice_text("abc", 3, 3), "");
    assert_eq!(drop_first("\\*"), "*");
    assert_eq!(drop_first("é!"), "!");
    assert_eq!(drop_first(""), "");
    assert_eq!(strip_delimiters("`code`"), "code");
    assert_eq!(strip_delimiters("«ñ»"), "ñ");
    assert_eq!(strip_delimiters("ab"), "");
    assert_eq!(strip_delimiters("a"), "");
    assert_eq!(strip_delimiters(""), "");
}

#[test]
fn white_space_is_as_in_unicode() {
    for c in ['\t', '\n', '\u{b}', '\u{c}', '\r', ' ', '\u{85}', '\u{a0}', '\u{1680}', '\u{2000}',
        '\u{200a}', '\u{2028}', '\u{2029}', '\u{202f}', '\u{205f}', '\u{3000}']
    {
        assert!(char_is_space(c));
    }
    for c in ['a', '\u{8}', '\u{e}', '\u{200b}', '\u{feff}', '_'] {
        assert!(!char_is_space(c));
    }
    let mut code = 0u32;
    while code < 0x3100 {
        if let Some(c) = char::from_u32(code) {
            assert_eq!(char_is_space(c), c.is_whitespace());
        }
        code += 1;
    }
}

#[test]
fn trimming() {
    assert_eq!(trim("  a b \t\n"), "a b");
    assert_eq!(trim("a"), "a");
    assert_eq!(trim(" \u{3000} "), "");
    assert_eq!(trim(""), "");
    assert_eq!(trim("\u{a0}é\u{a0}"), "é");
}

#[test]
fn entries_split_at_first_colon() {
    assert_eq!(split_entry("title: Demo"), ("title".to_string(), "Demo".to_string()));
    assert_eq!(split_entry(" a : b : c "), ("a".to_string(), "b : c".to_string()));
    assert_eq!(split_entry("flag"), ("flag".to_string(), String::new()));
    assert_eq!(split_entry(":"), (String::new(), String::new()));
    assert_eq!(split_entry(""), (String::new(), String::new()));
}

#[test]
fn lines() {
    assert_eq!(split_lines("a\nb"), vec!["a".to_string(), "b".to_string()]);
    assert_eq!(split_lines("a\n"), vec!["a".to_string(), String::new()]);
    assert_eq!(split_lines(""), vec![String::new()]);
    assert_eq!(split_lines("\n\nx"), vec![String::new(), String::new(), "x".to_string()]);
}

#[test]
fn home_directory_replaces_tilde() {
    assert_eq!(replace_home("~/notes", "/home/jane"), "/home/jane/notes");
    assert_eq!(replace_home("a~b~", "H"), "aHbH");
    assert_eq!(replace_home("plain", "H"), "plain");
    assert_eq!(replace_home("", "H"), "");
    assert_eq!(replace_home("~", ""), "");
}
