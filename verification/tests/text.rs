use rust_rag::text::{
    decimal_string, equals_ignore_ascii_case, is_whitespace_char, preview_lines, split_lines,
    split_words, string_chars, trim_chars,
};

fn chars(s: &str) -> Vec<char> {
    s.chars().collect()
}

fn strings(v: Vec<Vec<char>>) -> Vec<String> {
    v.into_iter().map(|w| w.into_iter().collect()).collect()
}

#[test]
fn white_space_matches_std_for_every_char() {
    for u in 0u32..0x110000 {
        if let Some(c) = char::from_u32(u) {
            assert_eq!(is_whitespace_char(c), c.is_whitespace(), "U+{:04X}", u);
        }
    }
}

#[test]
fn decimal_text() {
    assert_eq!(decimal_string(0), "0");
    assert_eq!(decimal_string(7), "7");
    assert_eq!(decimal_string(10), "10");
    assert_eq!(decimal_string(1234), "1234");
    assert_eq!(decimal_string(usize::MAX), usize::MAX.to_string());
}

#[test]
fn words_match_split_whitespace() {
    let samples = [
        "",
        "   ",
        "hello",
        "  Hello   World \n",
        "tab\tseparated\u{00A0}nbsp\u{3000}ideographic",
        "a\r\nb\u{2028}c",
        "{\n  \"id\": \"doc1\"\n}",
    ];
    for s in samples {
        let expected: Vec<String> = s.split_whitespace().map(|w| w.to_string()).collect();
        assert_eq!(strings(split_words(&chars(s))), expected, "{:?}", s);
    }
}

#[test]
fn trim_matches_std() {
    for s in ["", "  ", " a ", "\t exit \n", "x", "\u{2003}mid dle\u{2003}"] {
        let t: String = trim_chars(&chars(s)).into_iter().collect();
        assert_eq!(t, s.trim());
    }
}

#[test]
fn ascii_case_insensitive_equality() {
    assert!(equals_ignore_ascii_case(&chars("EXIT"), &chars("exit")));
    assert!(equals_ignore_ascii_case(&chars("QuIt"), &chars("quit")));
    assert!(!equals_ignore_ascii_case(&chars("exit!"), &chars("exit")));
    assert!(!equals_ignore_ascii_case(&chars("éxit"), &chars("Éxit")));
}

#[test]
fn lines_match_std() {
    for s in ["", "a", "a\n", "\n", "a\r\nb", "foo\r\nbar\n\nbaz", "x\n\ny\n"] {
        let expected: Vec<String> = s.lines().map(|l| l.to_string()).collect();
        assert_eq!(strings(split_lines(&chars(s))), expected, "{:?}", s);
    }
}

#[test]
fn string_characters() {
    assert_eq!(string_chars("añb"), vec!['a', 'ñ', 'b']);
}

#[test]
fn preview_of_short_text_is_its_lines() {
    let text = "line one\nline two\nline three";
    assert_eq!(preview_lines(text, 200, 5), vec!["line one", "line two", "line three"]);
    assert_eq!(preview_lines(text, 200, 2), vec!["line one", "line two"]);
}

#[test]
fn preview_of_long_text_is_cut_and_marked() {
    let text = "a".repeat(250);
    let expected = format!("{}...", "a".repeat(200));
    assert_eq!(preview_lines(&text, 200, 5), vec![expected]);
}

#[test]
fn preview_cut_counts_bytes() {
    // 'é' takes two bytes: ten of them are 20 bytes.
    let text = "é".repeat(10);
    assert_eq!(preview_lines(&text, 8, 5), vec![format!("{}...", "é".repeat(4))]);
    assert_eq!(preview_lines(&text, 20, 5), vec![text.clone()]);
}

#[test]
fn preview_cut_inside_a_character_falls_before_it() {
    let text = format!("{}{}", "a".repeat(199), "é".repeat(5));
    assert_eq!(preview_lines(&text, 200, 5), vec![format!("{}...", "a".repeat(199))]);
    let text = format!("{}{}", "b".repeat(299), "€€");
    assert_eq!(preview_lines(&text, 300, 8), vec![format!("{}...", "b".repeat(299))]);
}
