//! Base64 with the standard alphabet and padding.

use vstd::prelude::*;

use crate::records;
use crate::text;

verus! {

/// The symbol for a value below 64.
pub open spec fn symbol(v: int) -> char {
    if v < 26 {
        (65 + v) as char
    } else if v < 52 {
        (71 + v) as char
    } else if v < 62 {
        (v - 4) as char
    } else if v == 62 {
        '+'
    } else {
        '/'
    }
}

/// The value of a symbol; the padding counts as zero.
pub open spec fn value(c: char) -> Option<int> {
    if 'A' <= c <= 'Z' {
        Some(c as int - 65)
    } else if 'a' <= c <= 'z' {
        Some(c as int - 71)
    } else if '0' <= c <= '9' {
        Some(c as int + 4)
    } else if c == '+' {
        Some(62int)
    } else if c == '/' {
        Some(63int)
    } else if c == '=' {
        Some(0int)
    } else {
        None
    }
}

/// The encoding of `data`: four symbols for every three bytes.
pub open spec fn encoded(data: Seq<u8>) -> Seq<char>
    decreases data.len(),
{
    if data.len() == 0 {
        Seq::empty()
    } else if data.len() == 1 {
        let a = data[0] as int;
        seq![symbol(a / 4), symbol(a % 4 * 16), '=', '=']
    } else if data.len() == 2 {
        let a = data[0] as int;
        let b = data[1] as int;
        seq![symbol(a / 4), symbol(a % 4 * 16 + b / 16), symbol(b % 16 * 4), '=']
    } else {
        let a = data[0] as int;
        let b = data[1] as int;
        let c = data[2] as int;
        seq![
            symbol(a / 4),
            symbol(a % 4 * 16 + b / 16),
            symbol(b % 16 * 4 + c / 64),
            symbol(c % 64),
        ] + encoded(data.skip(3))
    }
}

/// White space that may stand between symbols.
pub open spec fn blank(c: char) -> bool {
    c == ' ' || c == '\t' || c == '\n' || c == '\u{c}' || c == '\r'
}

/// The bytes that four symbols stand for, given their values; the third and
/// the fourth symbol give no byte where they are padding.
pub open spec fn quad(a: int, b: int, c: int, d: int, third: char, fourth: char) -> Seq<u8> {
    seq![(a * 4 + b / 16) as u8] + (if third != '=' {
        seq![(b % 16 * 16 + c / 4) as u8]
    } else {
        Seq::<u8>::empty()
    }) + (if fourth != '=' {
        seq![(c % 4 * 64 + d) as u8]
    } else {
        Seq::<u8>::empty()
    })
}

/// What symbols without blanks between them decode to.
pub open spec fn decoded_symbols(s: Seq<char>) -> Option<Seq<u8>>
    decreases s.len(),
{
    if s.len() == 0 {
        Some(Seq::<u8>::empty())
    } else if s.len() < 4 {
        None
    } else {
        match (value(s[0]), value(s[1]), value(s[2]), value(s[3]), decoded_symbols(s.skip(4))) {
            (Some(a), Some(b), Some(c), Some(d), Some(rest)) => Some(
                quad(a, b, c, d, s[2], s[3]) + rest,
            ),
            _ => None,
        }
    }
}

/// What `s` decodes to, blanks left out.
pub open spec fn decoded(s: Seq<char>) -> Option<Seq<u8>> {
    decoded_symbols(s.filter(|c: char| !blank(c)))
}

proof fn lemma_symbol_value(v: int)
    requires
        0 <= v < 64,
    ensures
        value(symbol(v)) == Some(v),
        !blank(symbol(v)),
        symbol(v) != '=',
{
}

proof fn lemma_encoded_solid(data: Seq<u8>)
    ensures
        forall|i: int| 0 <= i < encoded(data).len() ==> !blank(#[trigger] encoded(data)[i]),
    decreases data.len(),
{
    assert forall|v: int| 0 <= v < 64 implies !blank(#[trigger] symbol(v)) by {
        lemma_symbol_value(v);
    }
    if data.len() >= 3 {
        lemma_encoded_solid(data.skip(3));
        let rest = encoded(data.skip(3));
        let all = encoded(data);
        assert forall|i: int| 0 <= i < all.len() implies !blank(#[trigger] all[i]) by {
            if i >= 4 {
                assert(all[i] == rest[i - 4]);
            }
        }
    }
}

proof fn lemma_decoded_symbols_of_encoded(data: Seq<u8>)
    ensures
        decoded_symbols(encoded(data)) == Some(data),
    decreases data.len(),
{
    let s = encoded(data);
    if data.len() == 0 {
    } else if data.len() == 1 {
        let a = data[0] as int;
        lemma_symbol_value(a / 4);
        lemma_symbol_value(a % 4 * 16);
        assert(s.skip(4) =~= Seq::empty());
        assert(decoded_symbols(s.skip(4)) == Some(Seq::<u8>::empty()));
        assert(decoded_symbols(s)->0 =~= data);
    } else if data.len() == 2 {
        let a = data[0] as int;
        let b = data[1] as int;
        lemma_symbol_value(a / 4);
        lemma_symbol_value(a % 4 * 16 + b / 16);
        lemma_symbol_value(b % 16 * 4);
        assert(s.skip(4) =~= Seq::empty());
        assert(decoded_symbols(s.skip(4)) == Some(Seq::<u8>::empty()));
        assert(decoded_symbols(s)->0 =~= data);
    } else {
        let a = data[0] as int;
        let b = data[1] as int;
        let c = data[2] as int;
        lemma_symbol_value(a / 4);
        lemma_symbol_value(a % 4 * 16 + b / 16);
        lemma_symbol_value(b % 16 * 4 + c / 64);
        lemma_symbol_value(c % 64);
        lemma_decoded_symbols_of_encoded(data.skip(3));
        assert(s.skip(4) =~= encoded(data.skip(3)));
        assert(decoded_symbols(s)->0 =~= data);
    }
}

proof fn lemma_filter_keeps_all(s: Seq<char>)
    requires
        forall|i: int| 0 <= i < s.len() ==> !blank(#[trigger] s[i]),
    ensures
        s.filter(|c: char| !blank(c)) == s,
    decreases s.len(),
{
    reveal(Seq::filter);
    if s.len() > 0 {
        let t = s.drop_last();
        assert forall|i: int| 0 <= i < t.len() implies !blank(#[trigger] t[i]) by {
            assert(t[i] == s[i]);
        }
        lemma_filter_keeps_all(t);
        assert(!blank(s[s.len() - 1]));
        assert(t.push(s.last()) =~= s);
    }
}

/// Decoding gives back what was encoded.
pub proof fn law_decode_inverts_encode(data: Seq<u8>)
    ensures
        decoded(encoded(data)) == Some(data),
{
    lemma_encoded_solid(data);
    lemma_filter_keeps_all(encoded(data));
    lemma_decoded_symbols_of_encoded(data);
}

/// Different data have different encodings.
pub proof fn law_encode_is_injective(a: Seq<u8>, b: Seq<u8>)
    requires
        encoded(a) == encoded(b),
    ensures
        a == b,
{
    law_decode_inverts_encode(a);
    law_decode_inverts_encode(b);
}

/// An encoding has four symbols for every three bytes begun.
pub proof fn law_encoded_length(data: Seq<u8>)
    ensures
        encoded(data).len() == (data.len() + 2) / 3 * 4,
    decreases data.len(),
{
    if data.len() >= 3 {
        law_encoded_length(data.skip(3));
    }
}

fn symbol_of(v: u8) -> (c: char)
    requires
        v < 64,
    ensures
        c == symbol(v as int),
{
    if v < 26 {
        (65 + v) as char
    } else if v < 52 {
        (71 + v) as char
    } else if v < 62 {
        (v - 4) as char
    } else if v == 62 {
        '+'
    } else {
        '/'
    }
}

fn value_of(c: char) -> (r: Option<u8>)
    ensures
        match r {
            Some(v) => value(c) == Some(v as int) && v < 64,
            None => value(c) is None,
        },
{
    if 'A' <= c && c <= 'Z' {
        Some((c as u32 - 65) as u8)
    } else if 'a' <= c && c <= 'z' {
        Some((c as u32 - 71) as u8)
    } else if '0' <= c && c <= '9' {
        Some((c as u32 + 4) as u8)
    } else if c == '+' {
        Some(62)
    } else if c == '/' {
        Some(63)
    } else if c == '=' {
        Some(0)
    } else {
        None
    }
}

/// Encodes `data`.
pub fn base64_encode(data: &[u8]) -> (r: String)
    ensures
        r@ == encoded(data@),
{
    let mut r = String::new();
    let mut i: usize = 0;
    assert(data@.skip(0) =~= data@);
    assert(r@ + encoded(data@) =~= encoded(data@));
    while data.len() - i >= 3
        invariant
            i <= data@.len(),
            r@ + encoded(data@.skip(i as int)) == encoded(data@),
        decreases data@.len() - i,
    {
        let a: u8 = data[i];
        let b: u8 = data[i + 1];
        let c: u8 = data[i + 2];
        let ghost before = r@;
        r.push(symbol_of(a / 4));
        r.push(symbol_of(a % 4 * 16 + b / 16));
        r.push(symbol_of(b % 16 * 4 + c / 64));
        r.push(symbol_of(c % 64));
        proof {
            let t = data@.skip(i as int);
            assert(t.skip(3) =~= data@.skip(i + 3));
            assert(r@ + encoded(data@.skip(i + 3)) =~= before + encoded(t));
        }
        i += 3;
    }
    let ghost t = data@.skip(i as int);
    let ghost before = r@;
    if data.len() - i == 2 {
        let a: u8 = data[i];
        let b: u8 = data[i + 1];
        r.push(symbol_of(a / 4));
        r.push(symbol_of(a % 4 * 16 + b / 16));
        r.push(symbol_of(b % 16 * 4));
        r.push('=');
    } else if data.len() - i == 1 {
        let a: u8 = data[i];
        r.push(symbol_of(a / 4));
        r.push(symbol_of(a % 4 * 16));
        r.push('=');
        r.push('=');
    }
    assert(r@ =~= before + encoded(t));
    r
}

fn is_blank(c: char) -> (r: bool)
    ensures
        r == blank(c),
{
    c == ' ' || c == '\t' || c == '\n' || c == '\u{c}' || c == '\r'
}

/// Decodes `input`: `None` where, blanks left out, it is not made of fours of
/// symbols and padding.
pub fn base64_decode(input: &str) -> (r: Option<Vec<u8>>)
    ensures
        match r {
            Some(data) => decoded(input@) == Some(data@),
            None => decoded(input@) is None,
        },
{
    let all = text::chars_of(input);
    let mut s: Vec<char> = Vec::new();
    let mut k: usize = 0;
    let ghost solid = |c: char| !blank(c);
    assert(all@.take(0).filter(solid) =~= s@) by {
        reveal(Seq::filter);
    }
    while k < all.len()
        invariant
            k <= all@.len(),
            solid == (|c: char| !blank(c)),
            s@ == all@.take(k as int).filter(solid),
        decreases all@.len() - k,
    {
        proof {
            reveal(Seq::filter);
            assert(all@.take(k + 1).drop_last() =~= all@.take(k as int));
        }
        if !is_blank(all[k]) {
            s.push(all[k]);
        }
        k += 1;
    }
    assert(all@.take(k as int) =~= all@);
    let mut out: Vec<u8> = Vec::new();
    let mut i: usize = 0;
    assert(s@.skip(0) =~= s@);
    while i < s.len()
        invariant
            i <= s@.len(),
            s@ == all@.filter(solid),
            solid == (|c: char| !blank(c)),
            all@ == input@,
            match decoded_symbols(s@.skip(i as int)) {
                Some(rest) => decoded_symbols(s@) == Some(out@ + rest),
                None => decoded_symbols(s@) is None,
            },
        decreases s@.len() - i,
    {
        let ghost t = s@.skip(i as int);
        let ghost before = out@;
        if s.len() - i < 4 {
            return None;
        }
        let third: char = s[i + 2];
        let fourth: char = s[i + 3];
        assert(t.skip(4) =~= s@.skip(i + 4));
        match (value_of(s[i]), value_of(s[i + 1]), value_of(third), value_of(fourth)) {
            (Some(a), Some(b), Some(c), Some(d)) => {
                out.push(a * 4 + b / 16);
                if third != '=' {
                    out.push(b % 16 * 16 + c / 4);
                }
                if fourth != '=' {
                    out.push(c % 4 * 64 + d);
                }
                proof {
                    assert(out@ =~= before + quad(a as int, b as int, c as int, d as int, third, fourth));
                    if let Some(rest) = decoded_symbols(t.skip(4)) {
                        assert(before + (quad(a as int, b as int, c as int, d as int, third, fourth) + rest)
                            =~= out@ + rest);
                    }
                }
            },
            _ => {
                return None;
            },
        }
        i += 4;
    }
    assert(decoded_symbols(s@.skip(i as int)) == Some(Seq::<u8>::empty()));
    assert(out@ + Seq::<u8>::empty() =~= out@);
    Some(out)
}

/// The alphabet: the symbol for each value, and the value of each symbol. The
/// padding counts as zero, and no other character has a value.
pub proof fn law_alphabet(v: int, c: char)
    ensures
        0 <= v < 64 ==> symbol(v)
            == "ABCDEFGHIJKLMNOPQRSTUVWXYZabcdefghijklmnopqrstuvwxyz0123456789+/"@[v],
        0 <= v < 64 ==> value(symbol(v)) == Some(v),
        value(c) is Some ==> c == '=' && value(c) == Some(0int) || 0 <= value(c)->0 < 64 && symbol(
            value(c)->0,
        ) == c,
        value('=') is Some,
{
    reveal_strlit("ABCDEFGHIJKLMNOPQRSTUVWXYZabcdefghijklmnopqrstuvwxyz0123456789+/");
}

/// Three bytes are encoded as four symbols that stand for the same 24 bits, one
/// or two bytes with padding in place of what is missing, and longer data
/// three bytes at a time.
pub proof fn law_groups_of_three(a: u8, b: u8, c: u8, rest: Seq<u8>)
    ensures
        encoded(seq![a, b, c] + rest) == encoded(seq![a, b, c]) + encoded(rest),
        ({
            let e = encoded(seq![a, b, c]);
            &&& e.len() == 4
            &&& value(e[0])->0 * 262144 + value(e[1])->0 * 4096 + value(e[2])->0 * 64 + value(e[3])->0
                == a * 65536 + b * 256 + c
            &&& forall|k: int| 0 <= k < 4 ==> #[trigger] e[k] != '='
        }),
        ({
            let e = encoded(seq![a, b]);
            &&& e.len() == 4 && e[2] != '=' && e[3] == '='
            &&& value(e[0])->0 * 4096 + value(e[1])->0 * 64 + value(e[2])->0 == (a * 256 + b) * 4
        }),
        ({
            let e = encoded(seq![a]);
            &&& e.len() == 4 && e[1] != '=' && e[2] == '=' && e[3] == '='
            &&& value(e[0])->0 * 64 + value(e[1])->0 == a * 16
        }),
        encoded(Seq::<u8>::empty()).len() == 0,
{
    let three = seq![a, b, c];
    let all = three + rest;
    assert(all.skip(3) =~= rest);
    assert(three.skip(3) =~= Seq::<u8>::empty());
    assert(encoded(three.skip(3)) =~= Seq::<char>::empty());
    assert(all[0] == a && all[1] == b && all[2] == c);
    assert(encoded(all) =~= encoded(three) + encoded(rest));
    let (x, y, z) = (a as int, b as int, c as int);
    law_alphabet(x / 4, '=');
    law_alphabet(x % 4 * 16 + y / 16, '=');
    law_alphabet(y % 16 * 4 + z / 64, '=');
    law_alphabet(z % 64, '=');
    law_alphabet(x % 4 * 16, '=');
    law_alphabet(y % 16 * 4, '=');
    let e = encoded(three);
    assert(e[0] == symbol(x / 4));
    assert(e[1] == symbol(x % 4 * 16 + y / 16));
    assert(e[2] == symbol(y % 16 * 4 + z / 64));
    assert(e[3] == symbol(z % 64));
}

/// Blanks between symbols make no difference to what a text decodes to.
pub proof fn law_blanks_are_left_out(a: Seq<char>, c: char, b: Seq<char>)
    requires
        c == ' ' || c == '\t' || c == '\n' || c == '\u{c}' || c == '\r',
    ensures
        decoded(a + seq![c] + b) == decoded(a + b),
{
    let f = |c: char| !blank(c);
    records::lemma_filter_pieces(a, c, b, f);
    assert((a + seq![c] + b).filter(f) =~= a.filter(f) + b.filter(f));
    lemma_filter_concat(a, b, f);
}

proof fn lemma_filter_concat(a: Seq<char>, b: Seq<char>, f: spec_fn(char) -> bool)
    ensures
        (a + b).filter(f) == a.filter(f) + b.filter(f),
    decreases b.len(),
{
    reveal(Seq::filter);
    if b.len() == 0 {
        assert(a + b =~= a);
        assert(a.filter(f) + b.filter(f) =~= a.filter(f));
    } else {
        let t = b.drop_last();
        lemma_filter_concat(a, t, f);
        assert((a + b).drop_last() =~= a + t);
        assert((a + b).last() == b.last());
        assert((a + b).filter(f) =~= a.filter(f) + b.filter(f));
    }
}

/// A text decodes where it is made of symbols in groups of four, and only there.
pub proof fn law_decodable(s: Seq<char>)
    requires
        forall|i: int| 0 <= i < s.len() ==> !blank(#[trigger] s[i]),
    ensures
        decoded(s) is Some <==> s.len() % 4 == 0 && forall|i: int|
            0 <= i < s.len() ==> value(#[trigger] s[i]) is Some,
{
    let f = |c: char| !blank(c);
    records::lemma_filter_all(s, f);
    lemma_decodable(s);
}

proof fn lemma_decodable(s: Seq<char>)
    ensures
        decoded_symbols(s) is Some <==> s.len() % 4 == 0 && forall|i: int|
            0 <= i < s.len() ==> value(#[trigger] s[i]) is Some,
    decreases s.len(),
{
    if s.len() >= 4 {
        let t = s.skip(4);
        lemma_decodable(t);
        if decoded_symbols(s) is Some {
            assert forall|i: int| 0 <= i < s.len() implies value(#[trigger] s[i]) is Some by {
                if i >= 4 {
                    assert(s[i] == t[i - 4]);
                }
            }
        }
        if s.len() % 4 == 0 && (forall|i: int| 0 <= i < s.len() ==> value(#[trigger] s[i]) is Some) {
            assert forall|i: int| 0 <= i < t.len() implies value(#[trigger] t[i]) is Some by {
                assert(t[i] == s[i + 4]);
            }
            assert(value(s[0]) is Some && value(s[1]) is Some && value(s[2]) is Some && value(s[3])
                is Some);
        }
    } else if s.len() > 0 {
        assert(s.len() % 4 != 0);
    }
}

} // verus!
