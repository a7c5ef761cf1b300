use wynn_browser::text;

fn strings(v: Vec<Vec<char>>) -> Vec<String> {
    v.iter().map(|w| w.iter().collect()).collect()
}

#[test]
fn white_space_is_unicode_white_space() {
    for code in 0..=0x10FFFFu32 {
        if let Some(c) = char::from_u32(code) {
            assert_eq!(text::is_white(c), c.is_whitespace(), "U+{:04X}", code);
        }
    }
}

#[test]
fn trims_both_ends() {
    for s in ["", " ", "a", "  a b \t\n", "\u{2003}x\u{85}", "\u{feff}y"] {
        assert_eq!(text::trim(s), s.trim());
    }
}

#[test]
fn splits_words_and_lines() {
    for s in ["", "a", "  a  bc\td\n", "0.0.0.0 ads.example\r\n", "\u{3000}x\u{3000}y"] {
        let chars: Vec<char> = s.chars().collect();
        let expected: Vec<&str> = s.split_whitespace().collect();
        assert_eq!(strings(text::words_of(&chars)), expected);
    }
    for s in ["", "\n", "a\nb", "a\r\nb\n", "\r\n\r\n", "a\rb", "x\n\ny"] {
        let chars: Vec<char> = s.chars().collect();
        let expected: Vec<&str> = s.lines().collect();
        assert_eq!(strings(text::lines_of(&chars)), expected);
    }
}

#[test]
fn searches_text() {
    assert!(text::has("https://a.example", "://"));
    assert!(!text::has("a:/b", "://"));
    assert!(text::has("abc", ""));
    assert!(text::starts("https://x", "https://"));
    assert!(!text::starts("http", "https"));
    assert!(text::finishes("cdn.cloudflare.com", "cloudflare.com"));
    assert!(!text::finishes("e.com", "cloudflare.com"));
    assert!(text::same("ä", "ä"));
    assert!(!text::same("a", "ab"));
    let s: Vec<char> = "abcabc".chars().collect();
    let p: Vec<char> = "ca".chars().collect();
    assert_eq!(text::find(&s, &p), Some(2));
    assert_eq!(text::find(&p, &s), None);
}

#[test]
fn replaces_characters() {
    for (s, w) in [("", "x"), ("a'b''", "\\'"), ("'", ""), ("none", "?")] {
        assert_eq!(text::replace_char(s, '\'', w), s.replace('\'', w));
    }
}

#[test]
fn writes_numbers() {
    for n in [0u128, 7, 10, 99, 100, u64::MAX as u128, u128::MAX] {
        assert_eq!(text::decimal_of(n), n.to_string());
    }
    for n in [0i64, -1, 42, i64::MIN, i64::MAX] {
        assert_eq!(text::signed_decimal_of(n), n.to_string());
    }
}

#[test]
fn orders_text_like_bytes() {
    let all = ["", "a", "aa", "ab", "b", "Z", "é", "z", "\u{10000}", "\u{ffff}"];
    for a in all {
        for b in all {
            assert_eq!(text::text_before(a, b), a.as_bytes() < b.as_bytes(), "{} {}", a, b);
        }
    }
}

#[test]
fn measures_bytes() {
    for s in ["", "abc", "é", "\u{20ac}", "\u{1f600}x"] {
        assert_eq!(text::byte_len(s), s.len());
    }
}
