use shu_mcp::text::{contains_text, is_white_space_char, keywords, str_lt};

#[test]
fn byte_order_of_texts() {
    assert!(str_lt("2026-05-09", "2026-05-10"));
    assert!(!str_lt("2026-05-10", "2026-05-10"));
    assert!(str_lt("abc", "abcd"));
    assert!(!str_lt("abcd", "abc"));
    assert!(str_lt("", "a"));
    assert!(!str_lt("", ""));
    assert!(str_lt("Z", "a"));
    assert!(str_lt("a", "上"));
}

#[test]
fn substring_search() {
    assert!(contains_text("上海大学援疆教师", "援疆教师"));
    assert!(contains_text("abc", ""));
    assert!(contains_text("", ""));
    assert!(!contains_text("", "a"));
    assert!(!contains_text("abc", "abd"));
    assert!(contains_text("aaab", "aab"));
}

#[test]
fn keyword_splitting() {
    assert_eq!(keywords("  Hello\tWORLD\u{3000}上海 x\n"), vec!["hello", "world", "上海", "x"]);
    assert!(keywords("").is_empty());
    assert!(keywords(" \u{2003}\u{85}").is_empty());
    assert_eq!(keywords("ÀB"), vec!["àb"]);
}

#[test]
fn white_space_set() {
    for c in ['\t', '\n', '\u{b}', '\u{c}', '\r', ' ', '\u{85}', '\u{a0}', '\u{1680}', '\u{2000}', '\u{200a}', '\u{2028}', '\u{2029}', '\u{202f}', '\u{205f}', '\u{3000}'] {
        assert!(is_white_space_char(c));
        assert!(c.is_whitespace());
    }
    for c in ['a', '\u{200b}', '\u{8}', '\u{e}', '上', '\u{180e}', '\u{feff}'] {
        assert!(!is_white_space_char(c));
        assert_eq!(c.is_whitespace(), is_white_space_char(c));
    }
}

#[test]
fn keywords_are_lowercased() {
    assert_eq!(keywords("ÄBC Shu 上海"), vec!["äbc", "shu", "上海"]);
    assert_eq!(keywords("ΣΑΣ"), vec!["σας"]);
}

#[test]
fn ascii_keywords_are_ascii_lowered() {
    assert_eq!(keywords("Rust MCP  SHU-News_2026"), vec!["rust", "mcp", "shu-news_2026"]);
}
