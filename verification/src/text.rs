//! Strings as sequences of characters: searching, cutting, trimming, replacing.

use vstd::prelude::*;

verus! {

/// `String::push`: appends one character to the end of the string.
pub assume_specification[ String::push ](s: &mut String, c: char)
    ensures
        final(s)@ == old(s)@.push(c),
;

/// `char::from_u32`: the character with that code point, or `None` where the
/// number is a surrogate or beyond the last code point.
pub assume_specification[ char::from_u32 ](i: u32) -> (r: Option<char>)
    ensures
        r == if i < 0xD800 || 0xE000 <= i <= 0x10FFFF {
            Some(i as char)
        } else {
            None
        },
;

/// What `str::to_lowercase` makes of a text.
pub uninterp spec fn lowercase(s: Seq<char>) -> Seq<char>;

/// `str::to_lowercase`: the text in lower case by the Unicode tables, which are
/// not spelled out here; all that is claimed is that the result depends on the
/// text alone.
#[verifier::external_body]
pub(crate) fn to_lowercase(s: &str) -> (r: String)
    ensures
        r@ == lowercase(s@),
{
    s.to_lowercase()
}

/// `String::from_utf8`: the string that the bytes encode, or `None` where they
/// are not UTF-8.
#[verifier::external_body]
pub(crate) fn string_from_utf8(bytes: Vec<u8>) -> (r: Option<String>)
    ensures
        match r {
            Some(s) => vstd::utf8::valid_utf8(bytes@) && s@ == vstd::utf8::decode_utf8(bytes@),
            None => !vstd::utf8::valid_utf8(bytes@),
        },
{
    String::from_utf8(bytes).ok()
}

/// `p` stands in `s` from index `i` on.
pub open spec fn occurs_at(s: Seq<char>, p: Seq<char>, i: int) -> bool {
    0 <= i && i + p.len() <= s.len() && s.subrange(i, i + p.len()) == p
}

/// `i` is the first index at which `p` stands in `s`.
pub open spec fn first_at(s: Seq<char>, p: Seq<char>, i: int) -> bool {
    occurs_at(s, p, i) && forall|j: int| 0 <= j < i ==> !occurs_at(s, p, j)
}

/// Whether `p` stands anywhere in `s`.
pub open spec fn holds(s: Seq<char>, p: Seq<char>) -> bool {
    exists|i: int| occurs_at(s, p, i)
}

/// Where `p` stands in `s` for the first time, if it does.
pub open spec fn position(s: Seq<char>, p: Seq<char>) -> Option<int> {
    if exists|i: int| first_at(s, p, i) {
        Some(choose|i: int| first_at(s, p, i))
    } else {
        None
    }
}

/// `s` begins with `p`.
pub open spec fn begins(s: Seq<char>, p: Seq<char>) -> bool {
    occurs_at(s, p, 0)
}

/// `s` ends with `p`.
pub open spec fn ends(s: Seq<char>, p: Seq<char>) -> bool {
    occurs_at(s, p, s.len() - p.len())
}

/// `s` with every `c` replaced by `w`.
pub open spec fn replaced(s: Seq<char>, c: char, w: Seq<char>) -> Seq<char>
    decreases s.len(),
{
    if s.len() == 0 {
        s
    } else {
        replaced(s.drop_last(), c, w) + if s.last() == c {
            w
        } else {
            seq![s.last()]
        }
    }
}

/// A character with upper-case ASCII letters made lower case.
pub open spec fn folded_char(c: char) -> char {
    if 'A' <= c <= 'Z' {
        (c as u32 + 32) as char
    } else {
        c
    }
}

/// A text with upper-case ASCII letters made lower case.
pub open spec fn folded(s: Seq<char>) -> Seq<char> {
    s.map_values(|c: char| folded_char(c))
}

/// The characters with the Unicode property `White_Space`.
pub open spec fn white(c: char) -> bool {
    ||| '\u{9}' <= c <= '\u{d}'
    ||| c == ' '
    ||| c == '\u{85}'
    ||| c == '\u{a0}'
    ||| c == '\u{1680}'
    ||| '\u{2000}' <= c <= '\u{200a}'
    ||| c == '\u{2028}'
    ||| c == '\u{2029}'
    ||| c == '\u{202f}'
    ||| c == '\u{205f}'
    ||| c == '\u{3000}'
}

/// `s` without the white space at its end.
pub open spec fn trimmed_end(s: Seq<char>) -> Seq<char>
    decreases s.len(),
{
    if s.len() > 0 && white(s.last()) {
        trimmed_end(s.drop_last())
    } else {
        s
    }
}

/// `s` without the white space at its start.
pub open spec fn trimmed_start(s: Seq<char>) -> Seq<char>
    decreases s.len(),
{
    if s.len() > 0 && white(s[0]) {
        trimmed_start(s.drop_first())
    } else {
        s
    }
}

/// `s` without the white space at either end.
pub open spec fn trimmed(s: Seq<char>) -> Seq<char> {
    trimmed_end(trimmed_start(s))
}

/// The first occurrence is unique, and there is one wherever there is any.
pub proof fn lemma_position(s: Seq<char>, p: Seq<char>)
    ensures
        forall|i: int| first_at(s, p, i) ==> position(s, p) == Some(i),
        holds(s, p) <==> position(s, p) is Some,
        position(s, p) is Some ==> first_at(s, p, position(s, p)->0),
{
    assert forall|i: int| first_at(s, p, i) implies position(s, p) == Some(i) by {
        let k = choose|k: int| first_at(s, p, k);
        assert(first_at(s, p, k));
        assert(!(k < i)) by {
            if k < i {
                assert(!occurs_at(s, p, k));
            }
        }
        assert(!(i < k)) by {
            if i < k {
                assert(!occurs_at(s, p, i));
            }
        }
    }
    if holds(s, p) {
        let i = choose|i: int| occurs_at(s, p, i);
        lemma_first_exists(s, p, i);
    }
    if position(s, p) is Some {
        let k = position(s, p)->0;
        assert(first_at(s, p, k));
        assert(occurs_at(s, p, k));
    }
}

proof fn lemma_first_exists(s: Seq<char>, p: Seq<char>, i: int)
    requires
        occurs_at(s, p, i),
    ensures
        exists|k: int| first_at(s, p, k),
    decreases i,
{
    if forall|j: int| 0 <= j < i ==> !occurs_at(s, p, j) {
        assert(first_at(s, p, i));
    } else {
        let j = choose|j: int| 0 <= j < i && occurs_at(s, p, j);
        lemma_first_exists(s, p, j);
    }
}

/// The characters of `s`.
pub fn chars_of(s: &str) -> (v: Vec<char>)
    ensures
        v@ == s@,
{
    let mut v: Vec<char> = Vec::new();
    for c in it: s.chars()
        invariant
            it.seq() == s@,
            v@ == s@.take(it.index()),
    {
        v.push(c);
    }
    v
}

/// The string made of the characters `v[from..to]`.
pub fn string_between(v: &[char], from: usize, to: usize) -> (s: String)
    requires
        from <= to <= v@.len(),
    ensures
        s@ == v@.subrange(from as int, to as int),
{
    let mut s = String::new();
    let mut i: usize = from;
    while i < to
        invariant
            from <= i <= to <= v@.len(),
            s@ == v@.subrange(from as int, i as int),
        decreases to - i,
    {
        s.push(v[i]);
        i += 1;
    }
    s
}

/// The string made of the characters `v`.
pub fn string_of(v: &[char]) -> (s: String)
    ensures
        s@ == v@,
{
    let s = string_between(v, 0, v.len());
    assert(v@.subrange(0, v@.len() as int) =~= v@);
    s
}

/// How many characters `s` begins with before the first white one.
pub open spec fn word_len(s: Seq<char>) -> nat
    decreases s.len(),
{
    if s.len() == 0 || white(s[0]) {
        0
    } else {
        1 + word_len(s.drop_first())
    }
}

/// The words of `s`: its longest runs without white space, in order.
pub open spec fn words(s: Seq<char>) -> Seq<Seq<char>>
    decreases s.len(),
{
    if s.len() == 0 {
        Seq::empty()
    } else if white(s[0]) {
        words(s.drop_first())
    } else {
        let n = word_len(s) as int;
        if n <= 0 || n > s.len() {
            Seq::empty()
        } else {
            seq![s.take(n)] + words(s.skip(n))
        }
    }
}

/// How many characters `s` has up to and with its first line feed, or in all.
pub open spec fn line_len(s: Seq<char>) -> nat
    decreases s.len(),
{
    if s.len() == 0 {
        0
    } else if s[0] == '\n' {
        1
    } else {
        1 + line_len(s.drop_first())
    }
}

/// A line without the line feed that ends it, nor a carriage return before that.
pub open spec fn unterminated(s: Seq<char>) -> Seq<char> {
    if s.len() > 0 && s.last() == '\n' {
        let t = s.drop_last();
        if t.len() > 0 && t.last() == '\r' {
            t.drop_last()
        } else {
            t
        }
    } else {
        s
    }
}

/// The lines of `s`; a line feed at the very end starts no further line.
pub open spec fn lines(s: Seq<char>) -> Seq<Seq<char>>
    decreases s.len(),
{
    if s.len() == 0 {
        Seq::empty()
    } else {
        let n = line_len(s) as int;
        if n <= 0 || n > s.len() {
            Seq::empty()
        } else {
            seq![unterminated(s.take(n))] + lines(s.skip(n))
        }
    }
}

/// What a vector of character vectors holds.
pub open spec fn views(v: Seq<Vec<char>>) -> Seq<Seq<char>> {
    v.map_values(|w: Vec<char>| w@)
}

/// What a vector of strings holds.
pub open spec fn texts(v: Seq<String>) -> Seq<Seq<char>> {
    v.map_values(|w: String| w@)
}

proof fn lemma_word_len(s: Seq<char>, n: int)
    requires
        0 <= n <= s.len(),
        forall|i: int| 0 <= i < n ==> !white(s[i]),
        n == s.len() || white(s[n]),
    ensures
        word_len(s) == n,
    decreases s.len(),
{
    if n > 0 {
        lemma_word_len(s.drop_first(), n - 1);
    }
}

proof fn lemma_line_len(s: Seq<char>, n: int)
    requires
        0 < n <= s.len(),
        forall|i: int| 0 <= i < n - 1 ==> s[i] != '\n',
        n == s.len() || s[n - 1] == '\n',
    ensures
        line_len(s) == n,
    decreases s.len(),
{
    if s[0] != '\n' && s.len() > 1 {
        lemma_line_len(s.drop_first(), n - 1);
    } else if s[0] != '\n' {
        assert(line_len(s.drop_first()) == 0);
    }
}

/// The words of `s`.
pub fn words_of(s: &[char]) -> (v: Vec<Vec<char>>)
    ensures
        views(v@) == words(s@),
{
    let mut v: Vec<Vec<char>> = Vec::new();
    let mut i: usize = 0;
    assert(s@.skip(0) =~= s@);
    assert(views(v@) + words(s@) =~= words(s@));
    while i < s.len()
        invariant
            i <= s@.len(),
            views(v@) + words(s@.skip(i as int)) == words(s@),
        decreases s@.len() - i,
    {
        if is_white(s[i]) {
            assert(s@.skip(i as int).drop_first() =~= s@.skip(i + 1));
            i += 1;
        } else {
            let mut j: usize = i;
            let mut w: Vec<char> = Vec::new();
            while j < s.len() && !is_white(s[j])
                invariant
                    i <= j <= s@.len(),
                    w@ == s@.subrange(i as int, j as int),
                    forall|k: int| i <= k < j ==> !white(s@[k]),
                decreases s@.len() - j,
            {
                w.push(s[j]);
                j += 1;
            }
            proof {
                let t = s@.skip(i as int);
                assert forall|k: int| 0 <= k < j - i implies !white(t[k]) by {
                    assert(t[k] == s@[i + k]);
                }
                lemma_word_len(t, j - i);
                assert(t.take(j - i) =~= w@);
                assert(t.skip(j - i) =~= s@.skip(j as int));
                assert(views(v@.push(w)) =~= views(v@).push(w@));
                assert(views(v@).push(w@) + words(s@.skip(j as int)) =~= views(v@) + words(t));
            }
            v.push(w);
            i = j;
        }
    }
    assert(s@.skip(i as int).len() == 0);
    assert(views(v@) + words(s@.skip(i as int)) =~= views(v@));
    v
}

/// The lines of `s`.
pub fn lines_of(s: &[char]) -> (v: Vec<Vec<char>>)
    ensures
        views(v@) == lines(s@),
{
    let mut v: Vec<Vec<char>> = Vec::new();
    let mut i: usize = 0;
    assert(s@.skip(0) =~= s@);
    assert(views(v@) + lines(s@) =~= lines(s@));
    while i < s.len()
        invariant
            i <= s@.len(),
            views(v@) + lines(s@.skip(i as int)) == lines(s@),
        decreases s@.len() - i,
    {
        let mut j: usize = i;
        let mut w: Vec<char> = Vec::new();
        while j < s.len() && s[j] != '\n'
            invariant
                i <= j <= s@.len(),
                w@ == s@.subrange(i as int, j as int),
                forall|k: int| i <= k < j ==> s@[k] != '\n',
            decreases s@.len() - j,
        {
            w.push(s[j]);
            j += 1;
        }
        let ghost whole = w@;
        let mut next: usize = j;
        if j < s.len() {
            if w.len() > 0 && w[w.len() - 1] == '\r' {
                w.pop();
            }
            next = j + 1;
        }
        proof {
            let t = s@.skip(i as int);
            let n = next - i;
            assert forall|k: int| 0 <= k < n - 1 implies t[k] != '\n' by {
                assert(t[k] == s@[i + k]);
            }
            lemma_line_len(t, n);
            assert(t.take(n) =~= s@.subrange(i as int, next as int));
            if j < s@.len() {
                assert(t.take(n).last() == '\n');
                assert(t.take(n).drop_last() =~= whole);
            } else {
                assert(t.take(n) =~= whole);
                if whole.len() > 0 {
                    assert(whole.last() == s@[j - 1]);
                }
            }
            assert(unterminated(t.take(n)) =~= w@);
            assert(t.skip(n) =~= s@.skip(next as int));
            assert(views(v@.push(w)) =~= views(v@).push(w@));
            assert(views(v@).push(w@) + lines(s@.skip(next as int)) =~= views(v@) + lines(t));
        }
        v.push(w);
        i = next;
    }
    assert(s@.skip(i as int).len() == 0);
    assert(views(v@) + lines(s@.skip(i as int)) =~= views(v@));
    v
}

/// Whether `c` is white space.
pub fn is_white(c: char) -> (r: bool)
    ensures
        r == white(c),
{
    ('\u{9}' <= c && c <= '\u{d}') || c == ' ' || c == '\u{85}' || c == '\u{a0}' || c == '\u{1680}' || (
    '\u{2000}' <= c && c <= '\u{200a}') || c == '\u{2028}' || c == '\u{2029}' || c == '\u{202f}' || c
        == '\u{205f}' || c == '\u{3000}'
}

/// Whether `p` stands in `s` from index `i` on.
pub fn stands_at(s: &[char], p: &[char], i: usize) -> (r: bool)
    ensures
        r == occurs_at(s@, p@, i as int),
{
    if p.len() > s.len() || i > s.len() - p.len() {
        return false;
    }
    let mut k: usize = 0;
    while k < p.len()
        invariant
            k <= p@.len(),
            i + p@.len() <= s@.len() <= usize::MAX,
            forall|j: int| 0 <= j < k ==> s@[i + j] == p@[j],
        decreases p@.len() - k,
    {
        if s[i + k] != p[k] {
            assert(s@.subrange(i as int, i + p@.len())[k as int] != p@[k as int]);
            return false;
        }
        k += 1;
    }
    assert(s@.subrange(i as int, i + p@.len()) =~= p@);
    true
}

/// The first index at which `p` stands in `s`.
pub fn find(s: &[char], p: &[char]) -> (r: Option<usize>)
    ensures
        match r {
            Some(i) => position(s@, p@) == Some(i as int),
            None => position(s@, p@) is None,
        },
{
    proof {
        lemma_position(s@, p@);
    }
    let mut i: usize = 0;
    while i <= s.len() && p.len() <= s.len() - i
        invariant
            i <= s@.len() + 1,
            forall|j: int| 0 <= j < i ==> !occurs_at(s@, p@, j),
        decreases s@.len() + 1 - i,
    {
        if stands_at(s, p, i) {
            assert(first_at(s@, p@, i as int));
            return Some(i);
        }
        if i == s.len() {
            return None;
        }
        i += 1;
    }
    None
}

/// Whether `p` stands anywhere in `s`.
pub fn has(s: &str, p: &str) -> (r: bool)
    ensures
        r == holds(s@, p@),
{
    let sv = chars_of(s);
    let pv = chars_of(p);
    proof {
        lemma_position(s@, p@);
    }
    find(sv.as_slice(), pv.as_slice()).is_some()
}

/// Whether `s` begins with `p`.
pub fn starts(s: &str, p: &str) -> (r: bool)
    ensures
        r == begins(s@, p@),
{
    let sv = chars_of(s);
    let pv = chars_of(p);
    stands_at(sv.as_slice(), pv.as_slice(), 0)
}

/// Whether `s` ends with `p`.
pub fn finishes(s: &str, p: &str) -> (r: bool)
    ensures
        r == ends(s@, p@),
{
    let sv = chars_of(s);
    let pv = chars_of(p);
    if pv.len() > sv.len() {
        return false;
    }
    stands_at(sv.as_slice(), pv.as_slice(), sv.len() - pv.len())
}

/// Whether two strings hold the same characters.
pub fn same(a: &str, b: &str) -> (r: bool)
    ensures
        r == (a@ == b@),
{
    let x = a.as_bytes();
    let y = b.as_bytes();
    proof {
        vstd::utf8::encode_utf8_decode_utf8(a@);
        vstd::utf8::encode_utf8_decode_utf8(b@);
    }
    if x.len() != y.len() {
        return false;
    }
    let mut i: usize = 0;
    while i < x.len()
        invariant
            x@.len() == y@.len(),
            x@ == vstd::utf8::encode_utf8(a@),
            y@ == vstd::utf8::encode_utf8(b@),
            i <= x@.len(),
            forall|j: int| 0 <= j < i ==> x@[j] == y@[j],
        decreases x@.len() - i,
    {
        if x[i] != y[i] {
            return false;
        }
        i += 1;
    }
    assert(x@ =~= y@);
    true
}

/// `s` with every `c` replaced by `w`.
pub fn replace_char(s: &str, c: char, w: &str) -> (r: String)
    ensures
        r@ == replaced(s@, c, w@),
{
    let mut r = String::new();
    let v = chars_of(s);
    let mut i: usize = 0;
    while i < v.len()
        invariant
            v@ == s@,
            i <= v@.len(),
            r@ == replaced(s@.take(i as int), c, w@),
        decreases v@.len() - i,
    {
        assert(s@.take(i + 1).drop_last() =~= s@.take(i as int));
        if v[i] == c {
            r.append(w);
        } else {
            r.push(v[i]);
            assert(r@ =~= replaced(s@.take(i as int), c, w@) + seq![s@[i as int]]);
        }
        i += 1;
    }
    assert(s@.take(i as int) =~= s@);
    r
}

fn fold_char(c: char) -> (r: char)
    ensures
        r == folded_char(c),
{
    if 'A' <= c && c <= 'Z' {
        (c as u8 + 32) as char
    } else {
        c
    }
}

/// Makes upper-case ASCII letters lower case.
pub fn fold(s: &str) -> (r: String)
    ensures
        r@ == folded(s@),
{
    let v = chars_of(s);
    let mut r = String::new();
    let mut i: usize = 0;
    assert(r@ =~= folded(s@).take(0));
    while i < v.len()
        invariant
            v@ == s@,
            i <= v@.len(),
            r@ == folded(s@).take(i as int),
        decreases v@.len() - i,
    {
        r.push(fold_char(v[i]));
        assert(r@ =~= folded(s@).take(i + 1));
        i += 1;
    }
    assert(r@ =~= folded(s@));
    r
}

/// Folding is done once and for all, and keeps what a text holds.
pub proof fn lemma_folded(s: Seq<char>, p: Seq<char>)
    ensures
        folded(folded(p)) == folded(p),
        holds(s, p) ==> holds(folded(s), folded(p)),
{
    assert(folded(folded(p)) =~= folded(p));
    if holds(s, p) {
        let i = choose|i: int| occurs_at(s, p, i);
        assert(folded(s).subrange(i, i + p.len()) =~= folded(s.subrange(i, i + p.len())));
        assert(occurs_at(folded(s), folded(p), i));
    }
}

/// `s` without the white space at either end.
pub fn trim(s: &str) -> (r: String)
    ensures
        r@ == trimmed(s@),
{
    let v = chars_of(s);
    let mut a: usize = 0;
    assert(s@.skip(0) =~= s@);
    while a < v.len() && is_white(v[a])
        invariant
            v@ == s@,
            a <= v@.len(),
            trimmed_start(s@) == trimmed_start(s@.skip(a as int)),
        decreases v@.len() - a,
    {
        assert(s@.skip(a as int).drop_first() =~= s@.skip(a + 1));
        a += 1;
    }
    let ghost t = s@.skip(a as int);
    assert(trimmed_start(s@) == t);
    let mut b: usize = v.len();
    assert(v@.subrange(a as int, b as int) =~= t);
    while b > a && is_white(v[b - 1])
        invariant
            v@ == s@,
            a <= b <= v@.len(),
            trimmed_end(t) == trimmed_end(v@.subrange(a as int, b as int)),
        decreases b,
    {
        assert(v@.subrange(a as int, b as int).drop_last() =~= v@.subrange(a as int, b - 1));
        b -= 1;
    }
    string_between(v.as_slice(), a, b)
}

/// `a` comes before `b` in the order of code points, a prefix before what it
/// is a prefix of.
pub open spec fn text_precedes(a: Seq<char>, b: Seq<char>) -> bool
    decreases a.len(),
{
    if b.len() == 0 {
        false
    } else if a.len() == 0 {
        true
    } else if a[0] != b[0] {
        a[0] < b[0]
    } else {
        text_precedes(a.drop_first(), b.drop_first())
    }
}

/// No two texts come before each other.
pub proof fn lemma_text_asymmetric(a: Seq<char>, b: Seq<char>)
    requires
        text_precedes(a, b),
    ensures
        !text_precedes(b, a),
    decreases a.len(),
{
    if a.len() > 0 && b.len() > 0 && a[0] == b[0] {
        lemma_text_asymmetric(a.drop_first(), b.drop_first());
    }
}

/// Not coming before is transitive.
pub proof fn lemma_text_negatively_transitive(a: Seq<char>, b: Seq<char>, c: Seq<char>)
    requires
        !text_precedes(a, b),
        !text_precedes(b, c),
    ensures
        !text_precedes(a, c),
    decreases a.len(),
{
    if a.len() > 0 && b.len() > 0 && c.len() > 0 && a[0] == b[0] && b[0] == c[0] {
        lemma_text_negatively_transitive(a.drop_first(), b.drop_first(), c.drop_first());
    }
}

/// Decides whether `a` comes before `b`.
pub fn text_before(a: &str, b: &str) -> (r: bool)
    ensures
        r == text_precedes(a@, b@),
{
    let x = chars_of(a);
    let y = chars_of(b);
    let mut i: usize = 0;
    assert(x@.skip(0) =~= x@);
    assert(y@.skip(0) =~= y@);
    while i < x.len() && i < y.len()
        invariant
            x@ == a@,
            y@ == b@,
            i <= x@.len(),
            i <= y@.len(),
            text_precedes(a@, b@) == text_precedes(x@.skip(i as int), y@.skip(i as int)),
        decreases x@.len() - i,
    {
        if x[i] != y[i] {
            return x[i] < y[i];
        }
        assert(x@.skip(i as int).drop_first() =~= x@.skip(i + 1));
        assert(y@.skip(i as int).drop_first() =~= y@.skip(i + 1));
        i += 1;
    }
    i < y.len()
}

/// The digit for a value below ten.
pub open spec fn digit(d: nat) -> char {
    (48 + d) as char
}

/// `n` in decimal digits.
pub open spec fn decimal(n: nat) -> Seq<char>
    decreases n,
{
    if n < 10 {
        seq![digit(n)]
    } else {
        decimal(n / 10).push(digit(n % 10))
    }
}

/// `n` in decimal digits.
pub fn decimal_of(n: u128) -> (r: String)
    ensures
        r@ == decimal(n as nat),
    decreases n,
{
    let last: char = (48u8 + (n % 10) as u8) as char;
    let mut r = if n < 10 {
        String::new()
    } else {
        decimal_of(n / 10)
    };
    r.push(last);
    assert(n < 10 ==> r@ =~= seq![digit(n as nat)]);
    r
}

/// A number in decimal digits, with a minus sign where it is negative.
pub open spec fn signed_decimal(n: int) -> Seq<char> {
    if n < 0 {
        "-"@ + decimal((-n) as nat)
    } else {
        decimal(n as nat)
    }
}

/// A number in decimal digits, with a minus sign where it is negative.
pub fn signed_decimal_of(n: i64) -> (r: String)
    ensures
        r@ == signed_decimal(n as int),
{
    if n < 0 {
        let digits = decimal_of((-(n as i128)) as u128);
        joined("-", digits.as_str())
    } else {
        decimal_of(n as u128)
    }
}

/// How many bytes `s` takes in UTF-8.
pub fn byte_len(s: &str) -> (n: usize)
    ensures
        n == vstd::utf8::encode_utf8(s@).len(),
{
    s.as_bytes().len()
}

/// `a` followed by `b`.
pub fn joined(a: &str, b: &str) -> (r: String)
    ensures
        r@ == a@ + b@,
{
    let mut r = a.to_owned();
    r.append(b);
    r
}

// Laws.

/// What it means to stand in a text: character by character.
pub proof fn law_occurrence(s: Seq<char>, p: Seq<char>, i: int)
    ensures
        occurs_at(s, p, i) <==> 0 <= i && i + p.len() <= s.len() && forall|k: int|
            0 <= k < p.len() ==> s[i + k] == #[trigger] p[k],
        holds(s, p) <==> exists|j: int| #[trigger] occurs_at(s, p, j),
        begins(s, p) <==> s.len() >= p.len() && forall|k: int|
            0 <= k < p.len() ==> #[trigger] s[k] == p[k],
        ends(s, p) <==> s.len() >= p.len() && forall|k: int|
            0 <= k < p.len() ==> s[s.len() - p.len() + k] == #[trigger] p[k],
{
    lemma_occurrence(s, p, i);
    lemma_occurrence(s, p, 0);
    lemma_occurrence(s, p, s.len() - p.len());
    if s.len() >= p.len() {
        if forall|k: int| 0 <= k < p.len() ==> #[trigger] s[k] == p[k] {
            assert forall|k: int| 0 <= k < p.len() implies s[0 + k] == #[trigger] p[k] by {
                assert(s[k] == p[k]);
            }
        }
        if begins(s, p) {
            assert forall|k: int| 0 <= k < p.len() implies #[trigger] s[k] == p[k] by {
                assert(s[0 + k] == p[k]);
            }
        }
    }
}

proof fn lemma_occurrence(s: Seq<char>, p: Seq<char>, i: int)
    ensures
        occurs_at(s, p, i) <==> 0 <= i && i + p.len() <= s.len() && forall|k: int|
            0 <= k < p.len() ==> s[i + k] == #[trigger] p[k],
{
    if 0 <= i && i + p.len() <= s.len() {
        let part = s.subrange(i, i + p.len());
        if part == p {
            assert forall|k: int| 0 <= k < p.len() implies s[i + k] == #[trigger] p[k] by {
                assert(part[k] == s[i + k]);
            }
        }
        if forall|k: int| 0 <= k < p.len() ==> s[i + k] == #[trigger] p[k] {
            assert forall|k: int| 0 <= k < p.len() implies part[k] == p[k] by {
                assert(s[i + k] == p[k]);
            }
            assert(part =~= p);
        }
    }
}

/// A text holds a single character where the character is among its own.
pub proof fn law_holds_one(s: Seq<char>, c: char)
    ensures
        holds(s, seq![c]) <==> s.contains(c),
{
    if s.contains(c) {
        let i = choose|i: int| 0 <= i < s.len() && s[i] == c;
        assert(s.subrange(i, i + 1) =~= seq![c]);
        assert(occurs_at(s, seq![c], i));
    }
    if holds(s, seq![c]) {
        let i = choose|i: int| occurs_at(s, seq![c], i);
        assert(s.subrange(i, i + 1)[0] == s[i]);
    }
}

/// White space is what Unicode calls so.
pub proof fn law_white(c: char)
    ensures
        white(c) <==> {
            let n = c as int;
            ||| n == 0x9 || n == 0xa || n == 0xb || n == 0xc || n == 0xd || n == 0x20
            ||| n == 0x85 || n == 0xa0 || n == 0x1680
            ||| n == 0x2000 || n == 0x2001 || n == 0x2002 || n == 0x2003 || n == 0x2004 || n == 0x2005
            ||| n == 0x2006 || n == 0x2007 || n == 0x2008 || n == 0x2009 || n == 0x200a
            ||| n == 0x2028 || n == 0x2029 || n == 0x202f || n == 0x205f || n == 0x3000
        },
{
}

proof fn lemma_trimmed_start(s: Seq<char>) -> (a: int)
    ensures
        0 <= a <= s.len(),
        trimmed_start(s) == s.skip(a),
        forall|k: int| 0 <= k < a ==> white(#[trigger] s[k]),
        a < s.len() ==> !white(s[a]),
    decreases s.len(),
{
    if s.len() > 0 && white(s[0]) {
        let t = s.drop_first();
        let b = lemma_trimmed_start(t);
        assert(t.skip(b) =~= s.skip(b + 1));
        assert forall|k: int| 0 <= k < b + 1 implies white(#[trigger] s[k]) by {
            if k > 0 {
                assert(s[k] == t[k - 1]);
            }
        }
        b + 1
    } else {
        assert(s.skip(0) =~= s);
        0
    }
}

proof fn lemma_trimmed_end(s: Seq<char>) -> (b: int)
    ensures
        0 <= b <= s.len(),
        trimmed_end(s) == s.take(b),
        forall|k: int| b <= k < s.len() ==> white(#[trigger] s[k]),
        b > 0 ==> !white(s[b - 1]),
    decreases s.len(),
{
    if s.len() > 0 && white(s.last()) {
        let t = s.drop_last();
        let b = lemma_trimmed_end(t);
        assert(t.take(b) =~= s.take(b));
        assert forall|k: int| b <= k < s.len() implies white(#[trigger] s[k]) by {
            if k < t.len() {
                assert(s[k] == t[k]);
            }
        }
        b
    } else {
        assert(s.take(s.len() as int) =~= s);
        s.len() as int
    }
}

/// Trimming takes white space off both ends, all of it and nothing else.
pub proof fn law_trimmed(s: Seq<char>)
    ensures
        exists|a: int, b: int|
            {
                &&& 0 <= a <= b <= s.len()
                &&& trimmed(s) == #[trigger] s.subrange(a, b)
                &&& forall|k: int| 0 <= k < a || b <= k < s.len() ==> white(#[trigger] s[k])
                &&& a < b ==> !white(s[a]) && !white(s[b - 1])
            },
{
    let a = lemma_trimmed_start(s);
    let t = s.skip(a);
    let n = lemma_trimmed_end(t);
    let b = a + n;
    assert(t.take(n) =~= s.subrange(a, b));
    assert forall|k: int| 0 <= k < a || b <= k < s.len() implies white(#[trigger] s[k]) by {
        if k >= b {
            assert(s[k] == t[k - a]);
        }
    }
    if a < b {
        assert(s[b - 1] == t[n - 1]);
    }
}

/// A text with nothing white at its ends is left as it is, and white space
/// around a text makes no difference.
pub proof fn law_trimming_is_about_the_ends(before: Seq<char>, s: Seq<char>, after: Seq<char>)
    requires
        forall|k: int| 0 <= k < before.len() ==> white(#[trigger] before[k]),
        forall|k: int| 0 <= k < after.len() ==> white(#[trigger] after[k]),
        s.len() > 0,
        !white(s[0]),
        !white(s.last()),
    ensures
        trimmed(before + s + after) == s,
{
    let all = before + s + after;
    let a = lemma_trimmed_start(all);
    assert(a == before.len()) by {
        assert(all[before.len() as int] == s[0]);
        if a < before.len() {
            assert(all[a] == before[a]);
        }
    }
    let t = all.skip(a);
    let n = lemma_trimmed_end(t);
    assert(n == s.len()) by {
        assert(t[s.len() - 1] == s.last());
        if n > s.len() {
            assert(t[n - 1] == after[n - 1 - s.len()]);
        }
    }
    assert(t.take(n) =~= s);
}

/// The words of a text: white space before the first, then a run without white
/// space, which is the first word, then the words of what follows it.
pub proof fn law_words(before: Seq<char>, word: Seq<char>, after: Seq<char>)
    requires
        forall|k: int| 0 <= k < before.len() ==> white(#[trigger] before[k]),
        forall|k: int| 0 <= k < word.len() ==> !white(#[trigger] word[k]),
        word.len() > 0,
        after.len() > 0 ==> white(after[0]),
    ensures
        words(before + word + after) == seq![word] + words(after),
        words(before) == Seq::<Seq<char>>::empty(),
    decreases before.len(),
{
    let s = before + word + after;
    if before.len() > 0 {
        let shorter = before.drop_first();
        assert forall|k: int| 0 <= k < shorter.len() implies white(#[trigger] shorter[k]) by {
            assert(shorter[k] == before[k + 1]);
        }
        law_words(shorter, word, after);
        assert(s[0] == before[0]);
        assert(white(s[0]));
        assert(s.drop_first() =~= shorter + word + after);
    } else {
        assert(s =~= word + after);
        assert forall|k: int| 0 <= k < word.len() implies !white(#[trigger] s[k]) by {
            assert(s[k] == word[k]);
        }
        assert(s[0] == word[0]);
        lemma_word_len(s, word.len() as int);
        assert(s.take(word.len() as int) =~= word);
        assert(s.skip(word.len() as int) =~= after);
    }
}

proof fn lemma_last_line_len(s: Seq<char>)
    requires
        forall|k: int| 0 <= k < s.len() ==> #[trigger] s[k] != '\n',
    ensures
        line_len(s) == s.len(),
    decreases s.len(),
{
    if s.len() > 0 {
        let t = s.drop_first();
        assert(s[0] != '\n');
        assert forall|k: int| 0 <= k < t.len() implies #[trigger] t[k] != '\n' by {
            assert(t[k] == s[k + 1]);
        }
        lemma_last_line_len(t);
    }
}

/// The lines of a text: what stands before the first line feed, without a
/// carriage return at its end, and then the lines of what follows. A text
/// without line feed is one line as it is.
pub proof fn law_lines(line: Seq<char>, rest: Seq<char>)
    requires
        forall|k: int| 0 <= k < line.len() ==> #[trigger] line[k] != '\n',
    ensures
        lines(line + seq!['\n'] + rest) == seq![
            if line.len() > 0 && line.last() == '\r' {
                line.drop_last()
            } else {
                line
            },
        ] + lines(rest),
        line.len() > 0 ==> lines(line) == seq![line],
        lines(Seq::<char>::empty()) == Seq::<Seq<char>>::empty(),
{
    let s = line + seq!['\n'] + rest;
    let n = line.len() as int;
    assert(s[n] == '\n');
    assert forall|k: int| 0 <= k < n implies #[trigger] s[k] != '\n' by {
        assert(s[k] == line[k]);
    }
    lemma_line_len(s, n + 1);
    let whole = s.take(n + 1);
    assert(whole.drop_last() =~= line);
    assert(whole.last() == '\n');
    assert(s.skip(n + 1) =~= rest);
    if line.len() > 0 {
        lemma_last_line_len(line);
        assert(line.take(n) =~= line);
        assert(line.last() != '\n') by {
            assert(line[n - 1] != '\n');
        }
        assert(line.skip(n) =~= Seq::<char>::empty());
        assert(lines(line.skip(n)) =~= Seq::<Seq<char>>::empty());
        assert(seq![line] + Seq::<Seq<char>>::empty() =~= seq![line]);
    }
}

/// Replacing a character puts the other text wherever the character stands and
/// leaves all else as it is.
pub proof fn law_replaced(a: Seq<char>, b: Seq<char>, c: char, w: Seq<char>)
    ensures
        replaced(a + seq![c] + b, c, w) == replaced(a, c, w) + w + replaced(b, c, w),
        !a.contains(c) ==> replaced(a, c, w) == a,
    decreases b.len(), a.len(),
{
    if b.len() == 0 {
        assert(a + seq![c] + b =~= a.push(c));
        assert(a.push(c).drop_last() =~= a);
        assert(replaced(b, c, w) =~= Seq::<char>::empty());
        assert(replaced(a, c, w) + w + replaced(b, c, w) =~= replaced(a, c, w) + w);
    } else {
        let t = b.drop_last();
        law_replaced(a, t, c, w);
        assert((a + seq![c] + b).drop_last() =~= a + seq![c] + t);
        assert(replaced(a + seq![c] + b, c, w) =~= replaced(a, c, w) + w + replaced(b, c, w));
    }
    lemma_not_replaced(a, c, w);
}

proof fn lemma_not_replaced(a: Seq<char>, c: char, w: Seq<char>)
    ensures
        !a.contains(c) ==> replaced(a, c, w) == a,
    decreases a.len(),
{
    if a.len() > 0 && !a.contains(c) {
        let t = a.drop_last();
        assert(!t.contains(c)) by {
            if t.contains(c) {
                let i = choose|i: int| 0 <= i < t.len() && t[i] == c;
                assert(a[i] == c);
            }
        }
        lemma_not_replaced(t, c, w);
        assert(a.last() != c) by {
            assert(a.contains(a.last()));
        }
        assert(t + seq![a.last()] =~= a);
    }
}

/// Folding keeps the length, makes the upper-case letters of ASCII lower case
/// and leaves every other character as it is.
pub proof fn law_folded(s: Seq<char>, i: int)
    requires
        0 <= i < s.len(),
    ensures
        folded(s).len() == s.len(),
        65 <= s[i] as int <= 90 ==> folded(s)[i] as int == s[i] as int + 32,
        !(65 <= s[i] as int <= 90) ==> folded(s)[i] == s[i],
{
    lemma_folded_char(s[i]);
}

proof fn lemma_folded_char(c: char)
    ensures
        65 <= c as int <= 90 ==> folded_char(c) as int == c as int + 32,
        !(65 <= c as int <= 90) ==> folded_char(c) == c,
{
}

/// The order of texts is that of a dictionary: what decides is the first place
/// where they differ, and a text comes before those it is the beginning of.
pub proof fn law_text_order(a: Seq<char>, b: Seq<char>, k: int)
    requires
        0 <= k <= a.len(),
        k <= b.len(),
        forall|j: int| 0 <= j < k ==> a[j] == b[j],
    ensures
        k < a.len() && k < b.len() && a[k] != b[k] ==> (text_precedes(a, b) <==> a[k] < b[k]),
        k == a.len() ==> (text_precedes(a, b) <==> k < b.len()),
        k == b.len() ==> !text_precedes(a, b),
    decreases k,
{
    if k > 0 {
        let x = a.drop_first();
        let y = b.drop_first();
        assert(a[0] == b[0]);
        assert forall|j: int| 0 <= j < k - 1 implies x[j] == y[j] by {
            assert(a[j + 1] == b[j + 1]);
        }
        law_text_order(x, y, k - 1);
    }
}

/// The number that decimal digits stand for.
pub open spec fn digits_value(s: Seq<char>) -> int
    decreases s.len(),
{
    if s.len() == 0 {
        0
    } else {
        10 * digits_value(s.drop_last()) + (s.last() as int - '0' as int)
    }
}

/// A number in decimal digits is read back, and has no zero too many.
pub proof fn law_decimal_reads_back(n: nat)
    ensures
        digits_value(decimal(n)) == n,
        decimal(n).len() > 0,
        forall|i: int| 0 <= i < decimal(n).len() ==> '0' <= #[trigger] decimal(n)[i] <= '9',
        n > 0 ==> decimal(n)[0] != '0',
        n == 0 ==> decimal(n) == seq!['0'],
    decreases n,
{
    if n < 10 {
        let s = decimal(n);
        assert(s.drop_last() =~= Seq::<char>::empty());
        assert(digits_value(s.drop_last()) == 0);
        lemma_digit(n);
    } else {
        let before = decimal(n / 10);
        law_decimal_reads_back(n / 10);
        lemma_digit(n % 10);
        let s = decimal(n);
        assert(s.drop_last() =~= before);
        assert forall|i: int| 0 <= i < s.len() implies '0' <= #[trigger] s[i] <= '9' by {
            if i < before.len() {
                assert(s[i] == before[i]);
            }
        }
        assert(s[0] == before[0]);
    }
}

proof fn lemma_digit(d: nat)
    requires
        d < 10,
    ensures
        digit(d) as int - '0' as int == d,
        '0' <= digit(d) <= '9',
        d == 0 <==> digit(d) == '0',
{
}

/// A negative number is written as its amount behind a minus sign, any other as
/// its amount.
pub proof fn law_signed_decimal(n: int)
    ensures
        n >= 0 ==> digits_value(signed_decimal(n)) == n && signed_decimal(n)[0] != '-',
        n < 0 ==> signed_decimal(n)[0] == '-' && digits_value(signed_decimal(n).skip(1)) == -n,
{
    reveal_strlit("-");
    if n >= 0 {
        law_decimal_reads_back(n as nat);
    } else {
        law_decimal_reads_back((-n) as nat);
        assert(signed_decimal(n).skip(1) =~= decimal((-n) as nat));
    }
}

} // verus!
