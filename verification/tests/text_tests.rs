use tinyshell::text::{
    char_index_at_byte, chars_of, is_whitespace, join_strings, string_of, text_is,
    trimmed_bounds, utf8_len_of, utf8_width, TrimSet,
};

#[test]
fn whitespace_agrees_with_std_on_every_char() {
    for u in 0u32..=0x10FFFF {
        if let Some(c) = char::from_u32(u) {
            assert_eq!(is_whitespace(c), c.is_whitespace(), "code point {:#x}", u);
        }
    }
}

#[test]
fn utf8_width_agrees_with_std() {
    for c in ['a', '\u{7f}', '\u{80}', 'é', '\u{7ff}', '\u{800}', '€', '\u{ffff}', '\u{10000}', '😀'] {
        assert_eq!(utf8_width(c), c.len_utf8());
    }
}

#[test]
fn string_of_builds_the_chars() {
    let v = vec!['a', 'b', 'c', 'd'];
    assert_eq!(string_of(&v, 1, 3), "bc");
    assert_eq!(string_of(&v, 0, 4), "abcd");
    assert_eq!(string_of(&v, 2, 2), "");
}

#[test]
fn chars_of_gives_the_chars() {
    assert_eq!(chars_of("héllo"), vec!['h', 'é', 'l', 'l', 'o']);
    assert_eq!(chars_of(""), Vec::<char>::new());
}

#[test]
fn trimmed_bounds_match_str_trim() {
    for s in ["  a b  ", "\t\n x\u{3000}", "", "   ", "abc", "\u{a0}a\u{2028}"] {
        let v: Vec<char> = s.chars().collect();
        let (lo, hi) = trimmed_bounds(&v, TrimSet::WhiteSpace);
        let got: String = v[lo..hi].iter().collect();
        assert_eq!(got, s.trim());
    }
}

#[test]
fn trimmed_bounds_of_quotes() {
    let v: Vec<char> = "'\"a'b\"'".chars().collect();
    let (lo, hi) = trimmed_bounds(&v, TrimSet::Quotes);
    assert_eq!((lo, hi), (2, 5));
}

#[test]
fn join_strings_matches_std_join() {
    let parts = vec!["a".to_string(), "bc".to_string(), "".to_string(), "d".to_string()];
    assert_eq!(join_strings(&parts, " "), parts.join(" "));
    assert_eq!(join_strings(&parts, "  "), parts.join("  "));
    assert_eq!(join_strings(&Vec::new(), " "), "");
    assert_eq!(join_strings(&vec!["one".to_string()], ", "), "one");
}

#[test]
fn text_is_compares_texts() {
    assert!(text_is("exit", "exit"));
    assert!(!text_is("exit", "exi"));
    assert!(!text_is("", "a"));
    assert!(text_is("", ""));
}

#[test]
fn char_index_at_byte_on_multibyte_text() {
    let line = "aé€😀b";
    assert_eq!(char_index_at_byte(line, 0), Some(0));
    assert_eq!(char_index_at_byte(line, 1), Some(1));
    assert_eq!(char_index_at_byte(line, 2), None);
    assert_eq!(char_index_at_byte(line, 3), Some(2));
    assert_eq!(char_index_at_byte(line, 6), Some(3));
    assert_eq!(char_index_at_byte(line, 7), None);
    assert_eq!(char_index_at_byte(line, 10), Some(4));
    assert_eq!(char_index_at_byte(line, 11), Some(5));
    assert_eq!(char_index_at_byte(line, 12), None);
    for pos in 0..=line.len() + 1 {
        assert_eq!(char_index_at_byte(line, pos).is_some(), line.is_char_boundary(pos));
    }
}

#[test]
fn utf8_len_of_counts_bytes() {
    let v: Vec<char> = "aé€😀".chars().collect();
    assert_eq!(utf8_len_of(&v, 0), 0);
    assert_eq!(utf8_len_of(&v, 2), 3);
    assert_eq!(utf8_len_of(&v, 4), "aé€😀".len());
}
