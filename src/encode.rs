//! Percent-encoding of request paths and query components.

use vstd::prelude::*;
use vstd::utf8::*;

verus! {

/// Characters that are never escaped: `A-Z a-z 0-9 _ - . ~`.
pub open spec fn unreserved(c: char) -> bool {
    ||| ('A' <= c && c <= 'Z')
    ||| ('a' <= c && c <= 'z')
    ||| ('0' <= c && c <= '9')
    ||| c == '_'
    ||| c == '-'
    ||| c == '.'
    ||| c == '~'
}

/// The uppercase hexadecimal digit of a value below sixteen.
pub open spec fn hex_digit(n: u8) -> char {
    if n < 10 {
        (('0' as u8) + n) as char
    } else {
        (('A' as u8) + (n - 10)) as char
    }
}

/// `%XX` for one byte, with uppercase hexadecimal digits.
pub open spec fn pct_byte(b: u8) -> Seq<char> {
    seq!['%', hex_digit(b / 16), hex_digit(b % 16)]
}

/// Each byte escaped as `%XX`, in order.
pub open spec fn pct_bytes(bs: Seq<u8>) -> Seq<char>
    decreases bs.len(),
{
    if bs.len() == 0 {
        Seq::empty()
    } else {
        pct_bytes(bs.drop_last()) + pct_byte(bs.last())
    }
}

/// The encoding of one character: unreserved characters (and `/` when slashes are
/// kept) stand as they are; any other character becomes its UTF-8 bytes as `%XX`.
pub open spec fn char_encoding(c: char, encode_slash: bool) -> Seq<char> {
    if unreserved(c) || (c == '/' && !encode_slash) {
        seq![c]
    } else {
        pct_bytes(encode_utf8(seq![c]))
    }
}

/// The encoding of a string: the encodings of its characters, concatenated.
pub open spec fn str_encoding(s: Seq<char>, encode_slash: bool) -> Seq<char>
    decreases s.len(),
{
    if s.len() == 0 {
        Seq::empty()
    } else {
        str_encoding(s.drop_last(), encode_slash) + char_encoding(s.last(), encode_slash)
    }
}

/// The value of a hexadecimal digit (either case); zero for any other character.
pub open spec fn hex_value(c: char) -> int {
    if '0' <= c && c <= '9' {
        c as int - '0' as int
    } else if 'A' <= c && c <= 'F' {
        c as int - 'A' as int + 10
    } else if 'a' <= c && c <= 'f' {
        c as int - 'a' as int + 10
    } else {
        0
    }
}

/// Percent-decoding: `%XX` becomes the byte it names, any other character its
/// low byte.
pub open spec fn pct_decode(s: Seq<char>) -> Seq<u8>
    decreases s.len(),
{
    if s.len() == 0 {
        Seq::empty()
    } else if s[0] == '%' && s.len() >= 3 {
        seq![(hex_value(s[1]) * 16 + hex_value(s[2])) as u8] + pct_decode(s.skip(3))
    } else {
        seq![s[0] as u8] + pct_decode(s.skip(1))
    }
}

/// Relies on `ToString` for `char`: the string holding that one character.
#[verifier::external_body]
pub(crate) fn char_to_string(c: char) -> (r: String)
    ensures
        r@ == seq![c],
{
    c.to_string()
}

fn is_unreserved(c: char) -> (r: bool)
    ensures
        r == unreserved(c),
{
    ('A' <= c && c <= 'Z') || ('a' <= c && c <= 'z') || ('0' <= c && c <= '9') || c == '_'
        || c == '-' || c == '.' || c == '~'
}

/// The UTF-8 bytes of one character.
fn utf8_bytes(c: char) -> (r: Vec<u8>)
    ensures
        r@ == encode_utf8(seq![c]),
{
    proof {
        char_is_scalar(c);
        assert(seq![c].drop_first() =~= Seq::<char>::empty());
        assert(seq![c][0] == c);
        assert(encode_utf8(Seq::<char>::empty()) =~= Seq::<u8>::empty());
        assert(encode_utf8(seq![c]) =~= encode_scalar(c as u32));
    }
    let v = c as u32;
    if v <= 0x7F {
        vec![(v & 0x7F) as u8]
    } else if v <= 0x7FF {
        vec![0xC0 | ((v >> 6) & 0x1F) as u8, 0x80 | (v & 0x3F) as u8]
    } else if v <= 0xFFFF {
        vec![
            0xE0 | ((v >> 12) & 0x0F) as u8,
            0x80 | ((v >> 6) & 0x3F) as u8,
            0x80 | (v & 0x3F) as u8,
        ]
    } else {
        vec![
            0xF0 | ((v >> 18) & 0x7) as u8,
            0x80 | ((v >> 12) & 0x3F) as u8,
            0x80 | ((v >> 6) & 0x3F) as u8,
            0x80 | (v & 0x3F) as u8,
        ]
    }
}

/// Appends `%XX` for one byte.
fn push_pct_byte(out: &mut String, b: u8)
    ensures
        final(out)@ == old(out)@ + pct_byte(b),
{
    let digits = "0123456789ABCDEF";
    proof {
        reveal_strlit("0123456789ABCDEF");
        reveal_strlit("%");
    }
    let hi = b / 16;
    let lo = b % 16;
    let hi_s = digits.substring_char(hi as usize, hi as usize + 1);
    let lo_s = digits.substring_char(lo as usize, lo as usize + 1);
    assert(hi_s@ =~= seq![hex_digit(hi)]);
    assert(lo_s@ =~= seq![hex_digit(lo)]);
    out.append("%");
    out.append(hi_s);
    out.append(lo_s);
    assert(out@ =~= old(out)@ + pct_byte(b));
}

/// Encodes one character: unreserved characters pass through, `/` passes through
/// unless `encode_slash` is set, and every other character becomes its UTF-8
/// bytes as `%XX` with uppercase hexadecimal digits.
pub fn uri_encode(c: char, encode_slash: bool) -> (r: String)
    ensures
        r@ == char_encoding(c, encode_slash),
{
    if is_unreserved(c) || (c == '/' && !encode_slash) {
        char_to_string(c)
    } else {
        let bytes = utf8_bytes(c);
        let mut out = String::new();
        let mut i: usize = 0;
        while i < bytes.len()
            invariant
                i <= bytes@.len(),
                bytes@ == encode_utf8(seq![c]),
                out@ == pct_bytes(bytes@.subrange(0, i as int)),
            decreases bytes@.len() - i,
        {
            push_pct_byte(&mut out, bytes[i]);
            assert(bytes@.subrange(0, i as int + 1).drop_last() =~= bytes@.subrange(0, i as int));
            i = i + 1;
        }
        assert(bytes@.subrange(0, i as int) =~= bytes@);
        out
    }
}

/// Encodes a string character by character, as [`uri_encode`] does.
pub fn uri_encode_str(s: &str, encode_slash: bool) -> (r: String)
    ensures
        r@ == str_encoding(s@, encode_slash),
{
    let n = s.unicode_len();
    let mut out = String::new();
    let mut i: usize = 0;
    while i < n
        invariant
            n == s@.len(),
            i <= n,
            out@ == str_encoding(s@.subrange(0, i as int), encode_slash),
        decreases n - i,
    {
        let c = s.get_char(i);
        let e = uri_encode(c, encode_slash);
        out.append(e.as_str());
        assert(s@.subrange(0, i as int + 1).drop_last() =~= s@.subrange(0, i as int));
        i = i + 1;
    }
    assert(s@.subrange(0, i as int) =~= s@);
    out
}

proof fn lemma_unreserved_encodes_to_itself(s: Seq<char>, encode_slash: bool)
    requires
        forall|i: int| 0 <= i < s.len() ==> unreserved(#[trigger] s[i]),
    ensures
        str_encoding(s, encode_slash) == s,
    decreases s.len(),
{
    if s.len() > 0 {
        lemma_unreserved_encodes_to_itself(s.drop_last(), encode_slash);
        assert(s =~= s.drop_last() + seq![s.last()]);
    }
}

proof fn lemma_decode_plain(s: Seq<char>)
    requires
        forall|i: int| 0 <= i < s.len() ==> #[trigger] s[i] != '%',
    ensures
        pct_decode(s) == s.map_values(|c: char| c as u8),
    decreases s.len(),
{
    if s.len() > 0 {
        lemma_decode_plain(s.skip(1));
        assert(s.map_values(|c: char| c as u8) =~= seq![s[0] as u8] + s.skip(1).map_values(
            |c: char| c as u8,
        ));
    }
}

/// Unreserved characters are never escaped, so a string of them encodes to
/// itself under either slash policy, and percent-decoding the encoding gives
/// back exactly the string's bytes.
pub proof fn lemma_unreserved_round_trip(s: Seq<char>, encode_slash: bool)
    requires
        forall|i: int| 0 <= i < s.len() ==> unreserved(#[trigger] s[i]),
    ensures
        str_encoding(s, encode_slash) == s,
        pct_decode(str_encoding(s, encode_slash)) == encode_utf8(s),
{
    lemma_unreserved_encodes_to_itself(s, encode_slash);
    lemma_decode_plain(s);
    assert(is_ascii_chars(s));
    is_ascii_chars_encode_utf8(s);
    assert(pct_decode(s) =~= encode_utf8(s));
}

/// A character that an encoding can hold: an unreserved character, the `%` of
/// an escape, or a slash where slashes are kept.
pub open spec fn encoded_char(c: char, encode_slash: bool) -> bool {
    unreserved(c) || c == '%' || (c == '/' && !encode_slash)
}

proof fn lemma_pct_bytes_chars(bs: Seq<u8>)
    ensures
        forall|i: int|
            0 <= i < pct_bytes(bs).len() ==> unreserved(#[trigger] pct_bytes(bs)[i]) || pct_bytes(bs)[i]
                == '%',
    decreases bs.len(),
{
    if bs.len() > 0 {
        lemma_pct_bytes_chars(bs.drop_last());
        let a = pct_bytes(bs.drop_last());
        let b = pct_byte(bs.last());
        assert(pct_bytes(bs) == a + b);
        assert forall|i: int| 0 <= i < (a + b).len() implies unreserved(#[trigger] (a + b)[i]) || (a
            + b)[i] == '%' by {
            if i >= a.len() {
                assert((a + b)[i] == b[i - a.len()]);
            } else {
                assert((a + b)[i] == a[i]);
            }
        }
    }
}

/// Every character of an encoding is unreserved, the `%` of an escape, or a
/// kept slash: so no encoding holds a line break, `&`, `=`, `:` or `;`.
pub proof fn lemma_encoding_chars(s: Seq<char>, encode_slash: bool)
    ensures
        forall|i: int|
            0 <= i < str_encoding(s, encode_slash).len() ==> encoded_char(
                #[trigger] str_encoding(s, encode_slash)[i],
                encode_slash,
            ),
    decreases s.len(),
{
    if s.len() > 0 {
        lemma_encoding_chars(s.drop_last(), encode_slash);
        lemma_pct_bytes_chars(encode_utf8(seq![s.last()]));
        let a = str_encoding(s.drop_last(), encode_slash);
        let b = char_encoding(s.last(), encode_slash);
        assert(str_encoding(s, encode_slash) == a + b);
        assert forall|i: int| 0 <= i < (a + b).len() implies encoded_char(
            #[trigger] (a + b)[i],
            encode_slash,
        ) by {
            if i >= a.len() {
                assert((a + b)[i] == b[i - a.len()]);
            } else {
                assert((a + b)[i] == a[i]);
            }
        }
    }
}

} // verus!
