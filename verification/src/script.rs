//! Text inside JavaScript: escaping it for a quoted literal, and what such a
//! literal means.

use vstd::prelude::*;

use crate::text;

verus! {

/// `s` with backslashes and single quotes escaped.
pub open spec fn quoted(s: Seq<char>) -> Seq<char> {
    text::replaced(text::replaced(s, '\\', "\\\\"@), '\'', "\\'"@)
}

/// `s` with backslashes, single quotes and line ends escaped.
pub open spec fn quoted_lines(s: Seq<char>) -> Seq<char> {
    text::replaced(text::replaced(quoted(s), '\n', "\\n"@), '\r', "\\r"@)
}

/// `s` with backslashes and double quotes escaped.
pub open spec fn double_quoted(s: Seq<char>) -> Seq<char> {
    text::replaced(text::replaced(s, '\\', "\\\\"@), '"', "\\\""@)
}

/// The text that a literal with the body `s` between two of `quote` stands for;
/// `None` where the body would end the literal early, or breaks off.
pub open spec fn literal_value(s: Seq<char>, quote: char) -> Option<Seq<char>>
    decreases s.len(),
{
    if s.len() == 0 {
        Some(Seq::empty())
    } else if s[0] == '\\' {
        if s.len() < 2 {
            None
        } else {
            match (escape_value(s[1]), literal_value(s.skip(2), quote)) {
                (Some(c), Some(rest)) => Some(seq![c] + rest),
                _ => None,
            }
        }
    } else if s[0] == quote || s[0] == '\n' || s[0] == '\r' {
        None
    } else {
        match literal_value(s.skip(1), quote) {
            Some(rest) => Some(seq![s[0]] + rest),
            None => None,
        }
    }
}

/// The character that a backslash and `c` stand for, for the escapes in use.
pub open spec fn escape_value(c: char) -> Option<char> {
    if c == '\\' || c == '\'' || c == '"' {
        Some(c)
    } else if c == 'n' {
        Some('\n')
    } else if c == 'r' {
        Some('\r')
    } else {
        None
    }
}

/// Escapes backslashes and single quotes.
pub fn quote(s: &str) -> (r: String)
    ensures
        r@ == quoted(s@),
{
    let once = text::replace_char(s, '\\', "\\\\");
    text::replace_char(once.as_str(), '\'', "\\'")
}

/// Escapes backslashes, single quotes and line ends.
pub fn quote_lines(s: &str) -> (r: String)
    ensures
        r@ == quoted_lines(s@),
{
    let once = quote(s);
    let twice = text::replace_char(once.as_str(), '\n', "\\n");
    text::replace_char(twice.as_str(), '\r', "\\r")
}

/// Escapes backslashes and double quotes.
pub fn quote_double(s: &str) -> (r: String)
    ensures
        r@ == double_quoted(s@),
{
    let once = text::replace_char(s, '\\', "\\\\");
    text::replace_char(once.as_str(), '"', "\\\"")
}

proof fn lemma_replaced_concat(a: Seq<char>, b: Seq<char>, c: char, w: Seq<char>)
    ensures
        text::replaced(a + b, c, w) == text::replaced(a, c, w) + text::replaced(b, c, w),
    decreases b.len(),
{
    if b.len() == 0 {
        assert(a + b =~= a);
        assert(text::replaced(a, c, w) + text::replaced(b, c, w) =~= text::replaced(a, c, w));
    } else {
        assert((a + b).drop_last() =~= a + b.drop_last());
        lemma_replaced_concat(a, b.drop_last(), c, w);
        assert(text::replaced(a + b, c, w) =~= text::replaced(a, c, w) + text::replaced(b, c, w));
    }
}

proof fn lemma_replaced_one(x: char, c: char, w: Seq<char>)
    ensures
        text::replaced(seq![x], c, w) == if x == c {
            w
        } else {
            seq![x]
        },
{
    assert(seq![x].drop_last() =~= Seq::empty());
    assert(text::replaced(Seq::empty(), c, w) =~= Seq::empty());
    assert(text::replaced(seq![x], c, w) =~= if x == c {
        w
    } else {
        seq![x]
    });
}

proof fn lemma_literal_concat(a: Seq<char>, b: Seq<char>, quote: char)
    requires
        literal_value(a, quote) is Some,
        quote != '\\',
    ensures
        literal_value(a + b, quote) == match literal_value(b, quote) {
            Some(rest) => Some(literal_value(a, quote)->0 + rest),
            None => None::<Seq<char>>,
        },
    decreases a.len(),
{
    if a.len() == 0 {
        assert(a + b =~= b);
        if let Some(rest) = literal_value(b, quote) {
            assert(Seq::<char>::empty() + rest =~= rest);
        }
    } else if a[0] == '\\' {
        assert((a + b).skip(2) =~= a.skip(2) + b);
        lemma_literal_concat(a.skip(2), b, quote);
        if let Some(rest) = literal_value(b, quote) {
            let head = escape_value(a[1])->0;
            assert(seq![head] + (literal_value(a.skip(2), quote)->0 + rest) =~= (seq![head] + literal_value(
                a.skip(2),
                quote,
            )->0) + rest);
        }
    } else {
        assert((a + b).skip(1) =~= a.skip(1) + b);
        lemma_literal_concat(a.skip(1), b, quote);
        if let Some(rest) = literal_value(b, quote) {
            assert(seq![a[0]] + (literal_value(a.skip(1), quote)->0 + rest) =~= (seq![a[0]] + literal_value(
                a.skip(1),
                quote,
            )->0) + rest);
        }
    }
}

proof fn lemma_quoted_step(s: Seq<char>, x: char)
    ensures
        quoted(s.push(x)) == quoted(s) + quoted(seq![x]),
        quoted_lines(s.push(x)) == quoted_lines(s) + quoted_lines(seq![x]),
{
    assert(s.push(x) =~= s + seq![x]);
    lemma_replaced_concat(s, seq![x], '\\', "\\\\"@);
    let a = text::replaced(s, '\\', "\\\\"@);
    let b = text::replaced(seq![x], '\\', "\\\\"@);
    lemma_replaced_concat(a, b, '\'', "\\'"@);
    lemma_replaced_concat(quoted(s), quoted(seq![x]), '\n', "\\n"@);
    lemma_replaced_concat(
        text::replaced(quoted(s), '\n', "\\n"@),
        text::replaced(quoted(seq![x]), '\n', "\\n"@),
        '\r',
        "\\r"@,
    );
}

/// What one character is escaped to, and that it means the character.
proof fn lemma_quoted_char(x: char)
    ensures
        x != '\n' && x != '\r' ==> literal_value(quoted(seq![x]), '\'') == Some(seq![x]),
        literal_value(quoted_lines(seq![x]), '\'') == Some(seq![x]),
{
    reveal_strlit("\\\\");
    reveal_strlit("\\'");
    reveal_strlit("\\n");
    reveal_strlit("\\r");
    assert("\\\\"@ =~= seq!['\\', '\\']);
    assert("\\'"@ =~= seq!['\\', '\'']);
    assert("\\n"@ =~= seq!['\\', 'n']);
    assert("\\r"@ =~= seq!['\\', 'r']);
    lemma_replaced_one(x, '\\', "\\\\"@);
    let once = text::replaced(seq![x], '\\', "\\\\"@);
    if x == '\\' {
        lemma_two('\\', '\\', '\'', "\\'"@);
        lemma_two('\\', '\\', '\n', "\\n"@);
        lemma_two('\\', '\\', '\r', "\\r"@);
        lemma_escape_literal('\\', '\'');
    } else {
        lemma_replaced_one(x, '\'', "\\'"@);
        if x == '\'' {
            lemma_two('\\', '\'', '\n', "\\n"@);
            lemma_two('\\', '\'', '\r', "\\r"@);
            lemma_escape_literal('\'', '\'');
        } else {
            lemma_replaced_one(x, '\n', "\\n"@);
            if x == '\n' {
                lemma_two('\\', 'n', '\r', "\\r"@);
                lemma_escape_literal('n', '\'');
            } else {
                lemma_replaced_one(x, '\r', "\\r"@);
                if x == '\r' {
                    lemma_escape_literal('r', '\'');
                } else {
                    assert(seq![x].skip(1) =~= Seq::<char>::empty());
                    assert(literal_value(seq![x].skip(1), '\'') == Some(Seq::<char>::empty()));
                    assert(seq![x] + Seq::<char>::empty() =~= seq![x]);
                }
            }
        }
    }
}

proof fn lemma_two(x: char, y: char, c: char, w: Seq<char>)
    requires
        x != c,
        y != c,
    ensures
        text::replaced(seq![x, y], c, w) == seq![x, y],
{
    assert(seq![x, y] =~= seq![x] + seq![y]);
    lemma_replaced_concat(seq![x], seq![y], c, w);
    lemma_replaced_one(x, c, w);
    lemma_replaced_one(y, c, w);
}

proof fn lemma_escape_literal(c: char, quote: char)
    requires
        escape_value(c) is Some,
    ensures
        literal_value(seq!['\\', c], quote) == Some(seq![escape_value(c)->0]),
{
    let s = seq!['\\', c];
    assert(s.skip(2) =~= Seq::<char>::empty());
    assert(literal_value(s.skip(2), quote) == Some(Seq::<char>::empty()));
    assert(seq![escape_value(c)->0] + Seq::<char>::empty() =~= seq![escape_value(c)->0]);
}

/// A text without line ends, quoted, means itself in a single-quoted literal.
pub proof fn law_quoted_means_itself(s: Seq<char>)
    requires
        forall|i: int| 0 <= i < s.len() ==> s[i] != '\n' && s[i] != '\r',
    ensures
        literal_value(quoted(s), '\'') == Some(s),
    decreases s.len(),
{
    if s.len() == 0 {
        assert(quoted(s) =~= Seq::<char>::empty());
        assert(s =~= Seq::<char>::empty());
    } else {
        let t = s.drop_last();
        let x = s.last();
        law_quoted_means_itself(t);
        assert(t.push(x) =~= s);
        lemma_quoted_step(t, x);
        lemma_quoted_char(x);
        lemma_literal_concat(quoted(t), quoted(seq![x]), '\'');
        assert(t + seq![x] =~= s);
    }
}

/// A text quoted with its line ends means itself in a single-quoted literal.
pub proof fn law_quoted_lines_means_itself(s: Seq<char>)
    ensures
        literal_value(quoted_lines(s), '\'') == Some(s),
    decreases s.len(),
{
    if s.len() == 0 {
        assert(quoted(s) =~= Seq::<char>::empty());
        assert(quoted_lines(s) =~= Seq::<char>::empty());
        assert(s =~= Seq::<char>::empty());
    } else {
        let t = s.drop_last();
        let x = s.last();
        law_quoted_lines_means_itself(t);
        assert(t.push(x) =~= s);
        lemma_quoted_step(t, x);
        lemma_quoted_char(x);
        lemma_literal_concat(quoted_lines(t), quoted_lines(seq![x]), '\'');
        assert(t + seq![x] =~= s);
    }
}

/// What one character is escaped to in a double-quoted literal, and that it
/// means the character.
proof fn lemma_double_quoted_char(x: char)
    requires
        x != '\n' && x != '\r',
    ensures
        literal_value(double_quoted(seq![x]), '"') == Some(seq![x]),
{
    reveal_strlit("\\\\");
    reveal_strlit("\\\"");
    assert("\\\\"@ =~= seq!['\\', '\\']);
    assert("\\\""@ =~= seq!['\\', '"']);
    lemma_replaced_one(x, '\\', "\\\\"@);
    if x == '\\' {
        lemma_two('\\', '\\', '"', "\\\""@);
        lemma_escape_literal('\\', '"');
    } else {
        lemma_replaced_one(x, '"', "\\\""@);
        if x == '"' {
            lemma_escape_literal('"', '"');
        } else {
            assert(seq![x].skip(1) =~= Seq::<char>::empty());
            assert(literal_value(seq![x].skip(1), '"') == Some(Seq::<char>::empty()));
            assert(seq![x] + Seq::<char>::empty() =~= seq![x]);
        }
    }
}

/// A text without line ends, quoted, means itself in a double-quoted literal.
pub proof fn law_double_quoted_means_itself(s: Seq<char>)
    requires
        forall|i: int| 0 <= i < s.len() ==> s[i] != '\n' && s[i] != '\r',
    ensures
        literal_value(double_quoted(s), '"') == Some(s),
    decreases s.len(),
{
    if s.len() == 0 {
        assert(double_quoted(s) =~= Seq::<char>::empty());
        assert(s =~= Seq::<char>::empty());
    } else {
        let t = s.drop_last();
        let x = s.last();
        law_double_quoted_means_itself(t);
        assert(s =~= t + seq![x]);
        lemma_replaced_concat(t, seq![x], '\\', "\\\\"@);
        lemma_replaced_concat(
            text::replaced(t, '\\', "\\\\"@),
            text::replaced(seq![x], '\\', "\\\\"@),
            '"',
            "\\\""@,
        );
        lemma_double_quoted_char(x);
        lemma_literal_concat(double_quoted(t), double_quoted(seq![x]), '"');
    }
}

} // verus!
