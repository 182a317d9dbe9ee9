//! Escaping of text for XML content and of paths for URIs.
use vstd::prelude::*;
use vstd::utf8::encode_utf8;

verus! {

/// What one character becomes in XML text or in a quoted attribute value.
pub open spec fn escape_char(c: char) -> Seq<char> {
    if c == '&' {
        "&amp;"@
    } else if c == '<' {
        "&lt;"@
    } else if c == '>' {
        "&gt;"@
    } else if c == '"' {
        "&quot;"@
    } else if c == '\'' {
        "&#x27;"@
    } else {
        seq![c]
    }
}

/// `s` with `&`, `<`, `>`, `"` and `'` replaced by their entities.
pub open spec fn escape_text(s: Seq<char>) -> Seq<char>
    decreases s.len(),
{
    if s.len() == 0 {
        Seq::empty()
    } else {
        escape_char(s[0]) + escape_text(s.drop_first())
    }
}

pub open spec fn starts_with(s: Seq<char>, t: Seq<char>) -> bool {
    s.len() >= t.len() && s.subrange(0, t.len() as int) == t
}

/// The text that XML character data or an attribute value `s` stands for:
/// the entities `&amp;`, `&lt;`, `&gt;`, `&quot;` and `&#x27;` read back as
/// the characters they name.
pub open spec fn unescape_text(s: Seq<char>) -> Seq<char>
    decreases s.len(),
{
    if s.len() == 0 {
        Seq::empty()
    } else if s[0] != '&' {
        seq![s[0]] + unescape_text(s.skip(1))
    } else if s.len() >= 5 && starts_with(s, "&amp;"@) {
        seq!['&'] + unescape_text(s.skip(5))
    } else if s.len() >= 4 && starts_with(s, "&lt;"@) {
        seq!['<'] + unescape_text(s.skip(4))
    } else if s.len() >= 4 && starts_with(s, "&gt;"@) {
        seq!['>'] + unescape_text(s.skip(4))
    } else if s.len() >= 6 && starts_with(s, "&quot;"@) {
        seq!['"'] + unescape_text(s.skip(6))
    } else if s.len() >= 6 && starts_with(s, "&#x27;"@) {
        seq!['\''] + unescape_text(s.skip(6))
    } else {
        seq![s[0]] + unescape_text(s.skip(1))
    }
}

proof fn lemma_not_prefix(s: Seq<char>, t: Seq<char>, i: int)
    requires
        0 <= i < t.len(),
        i < s.len(),
        s[i] != t[i],
    ensures
        !starts_with(s, t),
{
    if starts_with(s, t) {
        assert(s.subrange(0, t.len() as int)[i] == s[i]);
    }
}

proof fn lemma_prefix(e: Seq<char>, rest: Seq<char>)
    ensures
        starts_with(e + rest, e),
        (e + rest).skip(e.len() as int) == rest,
{
    assert((e + rest).subrange(0, e.len() as int) =~= e);
    assert((e + rest).skip(e.len() as int) =~= rest);
}

/// Reading escaped text back as XML character data, or as the value of a
/// quoted attribute, gives back the text that was escaped.
pub proof fn lemma_unescape_escape(s: Seq<char>)
    ensures
        unescape_text(escape_text(s)) == s,
    decreases s.len(),
{
    reveal_strlit("&amp;");
    reveal_strlit("&lt;");
    reveal_strlit("&gt;");
    reveal_strlit("&quot;");
    reveal_strlit("&#x27;");
    if s.len() > 0 {
        let c = s[0];
        let rest = escape_text(s.drop_first());
        let e = escape_char(c);
        let es = e + rest;
        lemma_unescape_escape(s.drop_first());
        assert(escape_text(s) == es);
        lemma_prefix(e, rest);
        if c == '&' || c == '<' || c == '>' || c == '"' || c == '\'' {
            assert(es[0] == '&');
            assert(es[1] == e[1]);
            if c != '&' {
                lemma_not_prefix(es, "&amp;"@, 1);
            }
            if c != '<' {
                if es.len() > 1 {
                    lemma_not_prefix(es, "&lt;"@, 1);
                }
            }
            if c != '>' {
                lemma_not_prefix(es, "&gt;"@, 1);
            }
            if c != '"' {
                lemma_not_prefix(es, "&quot;"@, 1);
            }
        } else {
            assert(es[0] == c);
            assert(es.skip(1) =~= rest);
        }
        assert(seq![c] + s.drop_first() =~= s);
    }
}

/// Relies on html_escape::encode_quoted_attribute: each `&`, `<`, `>`, `"`
/// and `'` becomes `&amp;`, `&lt;`, `&gt;`, `&quot;` and `&#x27;`, every
/// other character stays as it is.
#[verifier::external_body]
pub(crate) fn encode_quoted_attribute(s: &str) -> (r: String)
    ensures
        r@ == escape_text(s@),
{
    html_escape::encode_quoted_attribute(s).into_owned()
}

/// The bytes that stay as they are in a URI component: ASCII letters and
/// digits and `- _ . ! ~ * ' ( )`.
pub open spec fn uri_keeps(b: u8) -> bool {
    (48 <= b <= 57) || (65 <= b <= 90) || (97 <= b <= 122) || b == 45 || b == 95 || b == 46 || b == 33
        || b == 126 || b == 42 || b == 39 || b == 40 || b == 41
}

/// The upper-case hexadecimal digit for `d`.
pub open spec fn hex_digit(d: u8) -> char {
    "0123456789ABCDEF"@[d as int]
}

/// What one byte becomes: itself, or `%` and two hexadecimal digits.
pub open spec fn uri_byte(b: u8) -> Seq<char> {
    if uri_keeps(b) {
        seq![b as char]
    } else {
        seq!['%', hex_digit(b / 16), hex_digit(b % 16)]
    }
}

pub open spec fn uri_bytes(bs: Seq<u8>) -> Seq<char>
    decreases bs.len(),
{
    if bs.len() == 0 {
        Seq::empty()
    } else {
        uri_byte(bs[0]) + uri_bytes(bs.drop_first())
    }
}

/// The percent-encoded form of a text used as one URI component, taken over
/// its UTF-8 bytes.
pub open spec fn uri_component_of(s: Seq<char>) -> Seq<char> {
    uri_bytes(encode_utf8(s))
}

/// The value of a hexadecimal digit written upper-case.
pub open spec fn hex_value(c: char) -> int {
    if '0' <= c <= '9' {
        c as int - 48
    } else {
        c as int - 55
    }
}

/// The bytes that a percent-encoded text stands for.
pub open spec fn percent_decode(cs: Seq<char>) -> Seq<u8>
    decreases cs.len(),
{
    if cs.len() == 0 {
        Seq::empty()
    } else if cs[0] == '%' && cs.len() >= 3 {
        seq![(hex_value(cs[1]) * 16 + hex_value(cs[2])) as u8] + percent_decode(cs.skip(3))
    } else {
        seq![cs[0] as u8] + percent_decode(cs.skip(1))
    }
}

proof fn lemma_hex(d: u8)
    requires
        d < 16,
    ensures
        hex_value(hex_digit(d)) == d,
{
    reveal_strlit("0123456789ABCDEF");
    let h = "0123456789ABCDEF"@;
    assert(h[0] == '0' && h[1] == '1' && h[2] == '2' && h[3] == '3' && h[4] == '4' && h[5] == '5');
    assert(h[6] == '6' && h[7] == '7' && h[8] == '8' && h[9] == '9' && h[10] == 'A' && h[11] == 'B');
    assert(h[12] == 'C' && h[13] == 'D' && h[14] == 'E' && h[15] == 'F');
}

/// Decoding the percent-encoded bytes gives the bytes back.
pub proof fn lemma_percent_round_trip(bs: Seq<u8>)
    ensures
        percent_decode(uri_bytes(bs)) == bs,
    decreases bs.len(),
{
    if bs.len() > 0 {
        let b = bs[0];
        let e = uri_byte(b);
        let rest = uri_bytes(bs.drop_first());
        lemma_percent_round_trip(bs.drop_first());
        let es = e + rest;
        assert(uri_bytes(bs) == es);
        if uri_keeps(b) {
            assert(es[0] == b as char);
            assert((b as char) != '%');
            assert(((b as char) as u8) == b);
            assert(es.skip(1) =~= rest);
        } else {
            lemma_hex(b / 16);
            lemma_hex(b % 16);
            assert(es[0] == '%' && es[1] == hex_digit(b / 16) && es[2] == hex_digit(b % 16));
            assert(es.skip(3) =~= rest);
            assert((hex_value(es[1]) * 16 + hex_value(es[2])) == b);
        }
        assert(seq![b] + bs.drop_first() =~= bs);
    }
}

/// Decoding a location written for a text, and reading the bytes as UTF-8,
/// gives the text back.
pub proof fn lemma_location_round_trip(s: Seq<char>)
    ensures
        vstd::utf8::decode_utf8(percent_decode(uri_component_of(s))) == s,
{
    lemma_percent_round_trip(encode_utf8(s));
    vstd::utf8::encode_utf8_decode_utf8(s);
}

/// Relies on url_escape::encode_component: each UTF-8 byte of the text that
/// is not an ASCII letter, digit or one of `- _ . ! ~ * ' ( )` becomes `%`
/// and two upper-case hexadecimal digits; the others stay.
#[verifier::external_body]
pub(crate) fn encode_component(s: &str) -> (r: String)
    ensures
        r@ == uri_component_of(s@),
{
    url_escape::encode_component(s).into_owned()
}

} // verus!
