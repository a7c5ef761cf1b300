use wynn_browser::script;

#[test]
fn escapes_backslashes_before_quotes() {
    assert_eq!(script::quote(r"a\'b"), r"a\\\'b");
    assert_eq!(script::quote("it's"), r"it\'s");
    assert_eq!(script::quote("line\nbreak"), "line\nbreak");
}

#[test]
fn escapes_for_double_quotes() {
    assert_eq!(script::quote_double("a\"b"), r#"a\"b"#);
    assert_eq!(script::quote_double(r#"a\"b"#), r#"a\\\"b"#);
    assert_eq!(script::quote_double("it's"), "it's");
}

#[test]
fn escapes_line_ends() {
    assert_eq!(script::quote_lines("a\nb\rc'\\"), r"a\nb\rc\'\\");
    assert_eq!(script::quote_lines("\\n"), r"\\n");
    assert_eq!(script::quote_lines(""), "");
}

/// Reads the body of a single-quoted literal.
fn literal(body: &str) -> String {
    let mut out = String::new();
    let mut chars = body.chars();
    while let Some(c) = chars.next() {
        assert!(c != '\'' && c != '\n' && c != '\r', "the literal ends early");
        if c == '\\' {
            match chars.next() {
                Some('n') => out.push('\n'),
                Some('r') => out.push('\r'),
                Some(c) => out.push(c),
                None => panic!("the literal breaks off"),
            }
        } else {
            out.push(c);
        }
    }
    out
}

#[test]
fn a_quoted_text_means_itself() {
    for s in ["", "plain", "'); alert('x", "\\", "\\'", "\\\\'\\", "é\u{1f600}'"] {
        assert_eq!(literal(&script::quote(s)), s);
        assert_eq!(literal(&script::quote_lines(s)), s);
    }
    for s in ["a\nb", "\r\n", "\\n\n", "'\r'\\r"] {
        assert_eq!(literal(&script::quote_lines(s)), s);
    }
}
