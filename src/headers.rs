//! The headers that are signed, selected from hyper's header map.

use vstd::prelude::*;
use vstd::multiset::Multiset;
use hyper::header::{HeaderMap, HeaderValue};
use crate::encode::char_to_string;
use crate::error::SignError;
use crate::order::{chars_lt, lemma_lt_asymmetric, lemma_lt_irreflexive, lemma_lt_total, lemma_lt_transitive, str_lt};

verus! {

broadcast use vstd::multiset::group_multiset_axioms, vstd::seq_lib::group_to_multiset_ensures;

/// hyper's header map, seen only through [`header_entries`].
#[verifier::external_type_specification]
#[verifier::external_body]
#[verifier::reject_recursive_types(T)]
pub struct ExHeaderMap<T>(HeaderMap<T>);

/// The values that a `HeaderMap` holds by default; opaque here.
#[verifier::external_type_specification]
#[verifier::external_body]
pub struct ExHeaderValue(HeaderValue);

/// What a header map holds: each name with each of its values, as bytes.
pub uninterp spec fn header_entries(m: HeaderMap) -> Multiset<(Seq<char>, Seq<u8>)>;

/// A letter `A-Z` mapped to lower case; any other character unchanged.
pub open spec fn ascii_lower(c: char) -> char {
    if 'A' <= c && c <= 'Z' {
        ((c as u8) + 32) as char
    } else {
        c
    }
}

pub open spec fn lower_chars(s: Seq<char>) -> Seq<char> {
    s.map_values(|c: char| ascii_lower(c))
}

/// No letter `A-Z` occurs.
pub open spec fn is_lower(s: Seq<char>) -> bool {
    forall|i: int| 0 <= i < s.len() ==> !('A' <= #[trigger] s[i] && s[i] <= 'Z')
}

/// A header name as hyper stores it: not empty, and free of line breaks and of
/// the `:` and `;` that separate names from values and from each other.
pub open spec fn name_safe(s: Seq<char>) -> bool {
    &&& s.len() > 0
    &&& forall|i: int| 0 <= i < s.len() ==> #[trigger] s[i] != '\n' && s[i] != ':' && s[i] != ';'
}

/// A name that hyper accepts as a static header name: lower-case letters,
/// digits and `-`.
pub open spec fn static_name(s: Seq<char>) -> bool {
    &&& s.len() > 0
    &&& forall|i: int|
        0 <= i < s.len() ==> ('a' <= #[trigger] s[i] && s[i] <= 'z') || ('0' <= s[i] && s[i] <= '9')
            || s[i] == '-'
}

/// Header names that never take part in signing, in lower case.
pub open spec fn excluded(name: Seq<char>) -> bool {
    ||| name == "authorization"@
    ||| name == "content-length"@
    ||| name == "content-type"@
    ||| name == "user-agent"@
}

/// A tab or a printable ASCII byte.
pub open spec fn visible_byte(b: u8) -> bool {
    b == 9 || (32 <= b && b < 127)
}

pub open spec fn visible_bytes(v: Seq<u8>) -> bool {
    forall|i: int| 0 <= i < v.len() ==> visible_byte(#[trigger] v[i])
}

/// Every character is a tab or printable ASCII.
pub open spec fn printable(v: Seq<char>) -> bool {
    forall|i: int| 0 <= i < v.len() ==> (#[trigger] v[i] == '\t' || (' ' <= v[i] && v[i] <= '~'))
}

/// The bytes of an ASCII string.
pub open spec fn ascii_bytes(s: Seq<char>) -> Seq<u8> {
    s.map_values(|c: char| c as u8)
}

/// A header that would be signed but whose value is not printable ASCII.
pub open spec fn unsignable(p: (Seq<char>, Seq<u8>)) -> bool {
    !excluded(p.0) && !visible_bytes(p.1)
}

/// The entries of the map that take part in signing.
pub open spec fn signed_entries(m: HeaderMap) -> Multiset<(Seq<char>, Seq<u8>)> {
    header_entries(m).filter(|p: (Seq<char>, Seq<u8>)| !excluded(p.0))
}

/// Pairs of strings, seen as pairs of character sequences.
pub open spec fn pairs_view(v: Seq<(String, String)>) -> Seq<(Seq<char>, Seq<char>)> {
    v.map_values(|p: (String, String)| (p.0@, p.1@))
}

/// Pairs of character sequences with the second read as ASCII bytes.
pub open spec fn as_byte_pairs(s: Seq<(Seq<char>, Seq<char>)>) -> Seq<(Seq<char>, Seq<u8>)> {
    s.map_values(|p: (Seq<char>, Seq<char>)| (p.0, ascii_bytes(p.1)))
}

/// Names and byte values of hyper's entries.
pub open spec fn raw_pairs(v: Seq<(String, Vec<u8>)>) -> Seq<(Seq<char>, Seq<u8>)> {
    v.map_values(|p: (String, Vec<u8>)| (p.0@, p.1@))
}

/// `a` sorts strictly before `b`: by name, then by value.
pub open spec fn pair_lt(a: (Seq<char>, Seq<char>), b: (Seq<char>, Seq<char>)) -> bool {
    chars_lt(a.0, b.0) || (a.0 == b.0 && chars_lt(a.1, b.1))
}

/// Ordered by name, and by value where names are equal.
pub open spec fn pairs_ordered(s: Seq<(Seq<char>, Seq<char>)>) -> bool {
    forall|i: int, j: int| 0 <= i < j < s.len() ==> !pair_lt(#[trigger] s[j], #[trigger] s[i])
}

/// `signed` is the list of headers of `m` that take part in signing: each
/// entry whose name is not excluded, as many times as the map holds it, with
/// its value as text, ordered by name and then value.
pub open spec fn signed_list(m: HeaderMap, signed: Seq<(Seq<char>, Seq<char>)>) -> bool {
    &&& pairs_ordered(signed)
    &&& forall|i: int|
        0 <= i < signed.len() ==> is_lower(#[trigger] signed[i].0) && name_safe(signed[i].0)
            && printable(signed[i].1)
    &&& as_byte_pairs(signed).to_multiset() == signed_entries(m)
}

/// `e` names a header of `m` that cannot be signed.
pub open spec fn names_unsignable(m: HeaderMap, e: SignError) -> bool {
    match e {
        SignError::EncodingError { name } => exists|p: (Seq<char>, Seq<u8>)|
            #[trigger] header_entries(m).count(p) > 0 && unsignable(p) && name@ == p.0,
        _ => false,
    }
}

/// Relies on `HeaderMap::iter`, `HeaderName::as_str` and `HeaderValue::as_bytes`:
/// each name is handed out once for each of its values, and its text is always
/// in lower case and never empty; every byte of it comes out of hyper's name
/// table (or is zero), which maps line breaks, `:` and `;` to zero.
#[verifier::external_body]
fn header_pairs(m: &HeaderMap) -> (r: Vec<(String, Vec<u8>)>)
    ensures
        raw_pairs(r@).to_multiset() == header_entries(*m),
        forall|i: int| 0 <= i < r@.len() ==> is_lower(#[trigger] r@[i].0@) && name_safe(r@[i].0@),
{
    m.iter().map(|(n, v)| (n.as_str().to_string(), v.as_bytes().to_vec())).collect()
}

/// Relies on `HeaderMap::insert` with `HeaderValue::from_str`: all values of the
/// name are replaced by the one given. A static name must be a lower-case token
/// of at most 65535 bytes (else `insert` panics), the value must hold no control character (else
/// `from_str` fails), and the map must stay far below its capacity.
#[verifier::external_body]
pub(crate) fn insert_header(m: &mut HeaderMap, name: &'static str, value: &str)
    requires
        static_name(name@),
        name@.len() <= 65535,
        printable(value@),
        header_entries(*old(m)).len() < 4096,
    ensures
        header_entries(*final(m)) == header_entries(*old(m)).filter(
            |p: (Seq<char>, Seq<u8>)| p.0 != name@,
        ).insert((name@, ascii_bytes(value@))),
{
    m.insert(name, HeaderValue::from_str(value).unwrap());
}

/// Relies on `HeaderMap::len`: the number of values stored, counting each
/// value of a repeated name.
#[verifier::external_body]
pub(crate) fn header_count(m: &HeaderMap) -> (n: usize)
    ensures
        n == header_entries(*m).len(),
{
    m.len()
}

/// Two strings are equal.
pub(crate) fn str_eq(a: &str, b: &str) -> (r: bool)
    ensures
        r == (a@ == b@),
{
    let r = !str_lt(a, b) && !str_lt(b, a);
    proof {
        if a@ == b@ {
            lemma_lt_irreflexive(a@);
        } else {
            lemma_lt_total(a@, b@);
        }
    }
    r
}

fn is_excluded(name: &str) -> (r: bool)
    ensures
        r == excluded(name@),
{
    str_eq(name, "authorization") || str_eq(name, "content-length") || str_eq(name, "content-type")
        || str_eq(name, "user-agent")
}

/// The value as text, if every byte is a tab or printable ASCII.
fn value_text(v: &Vec<u8>) -> (r: Option<String>)
    ensures
        r is Some <==> visible_bytes(v@),
        r matches Some(s) ==> printable(s@) && ascii_bytes(s@) == v@,
{
    let mut s = String::new();
    let mut i: usize = 0;
    while i < v.len()
        invariant
            i <= v@.len(),
            s@.len() == i,
            forall|j: int| 0 <= j < i ==> visible_byte(#[trigger] v@[j]),
            forall|j: int| 0 <= j < i ==> #[trigger] s@[j] == v@[j] as char,
        decreases v@.len() - i,
    {
        let b = v[i];
        if !(b == 9 || (32 <= b && b < 127)) {
            return None;
        }
        let c = char_to_string(b as char);
        s.append(c.as_str());
        i = i + 1;
    }
    assert forall|j: int| 0 <= j < s@.len() implies (#[trigger] s@[j] as u8) == v@[j] && (s@[j]
        == '\t' || (' ' <= s@[j] && s@[j] <= '~')) by {
        assert(visible_byte(v@[j]));
    }
    assert(ascii_bytes(s@) =~= v@);
    Some(s)
}

proof fn lemma_pair_lt_order(a: (Seq<char>, Seq<char>), b: (Seq<char>, Seq<char>), c: (Seq<char>, Seq<char>))
    ensures
        !pair_lt(a, a),
        pair_lt(a, b) ==> !pair_lt(b, a),
        a != b ==> pair_lt(a, b) || pair_lt(b, a),
        pair_lt(a, b) && pair_lt(b, c) ==> pair_lt(a, c),
{
    lemma_lt_irreflexive(a.0);
    lemma_lt_irreflexive(a.1);
    lemma_lt_irreflexive(b.0);
    lemma_lt_asymmetric(a.0, b.0);
    lemma_lt_asymmetric(a.1, b.1);
    if a.0 != b.0 {
        lemma_lt_total(a.0, b.0);
    } else if a.1 != b.1 {
        lemma_lt_total(a.1, b.1);
    }
    if chars_lt(a.0, b.0) && chars_lt(b.0, c.0) {
        lemma_lt_transitive(a.0, b.0, c.0);
    }
    if a.0 == b.0 && b.0 == c.0 && chars_lt(a.1, b.1) && chars_lt(b.1, c.1) {
        lemma_lt_transitive(a.1, b.1, c.1);
    }
}

/// Compares two pairs by [`pair_lt`].
fn pair_less(a: &(String, String), b: &(String, String)) -> (r: bool)
    ensures
        r == pair_lt((a.0@, a.1@), (b.0@, b.1@)),
{
    if str_lt(a.0.as_str(), b.0.as_str()) {
        true
    } else if str_eq(a.0.as_str(), b.0.as_str()) {
        str_lt(a.1.as_str(), b.1.as_str())
    } else {
        false
    }
}

/// Where `x` goes in an ordered list so that it stays ordered, after any equal
/// pair.
fn ordered_slot(v: &Vec<(String, String)>, x: &(String, String)) -> (k: usize)
    requires
        pairs_ordered(pairs_view(v@)),
    ensures
        k <= v@.len(),
        forall|i: int| 0 <= i < k ==> !pair_lt((x.0@, x.1@), #[trigger] pairs_view(v@)[i]),
        forall|i: int| k <= i < v@.len() ==> pair_lt((x.0@, x.1@), #[trigger] pairs_view(v@)[i]),
{
    let ghost pv = pairs_view(v@);
    let ghost xv = (x.0@, x.1@);
    let mut i: usize = 0;
    let mut found = false;
    while !found && i < v.len()
        invariant
            i <= v@.len(),
            pv == pairs_view(v@),
            xv == (x.0@, x.1@),
            pairs_ordered(pv),
            forall|j: int| 0 <= j < i ==> !pair_lt(xv, #[trigger] pv[j]),
            found ==> i < v@.len() && pair_lt(xv, pv[i as int]),
        decreases v@.len() - i + (if found { 0int } else { 1int }),
    {
        assert(pv[i as int] == (v@[i as int].0@, v@[i as int].1@));
        if pair_less(x, &v[i]) {
            found = true;
        } else {
            i = i + 1;
        }
    }
    assert forall|j: int| i <= j < v@.len() implies pair_lt(xv, #[trigger] pv[j]) by {
        if j > i {
            lemma_pair_lt_order(xv, pv[i as int], pv[j]);
            lemma_pair_lt_order(pv[i as int], pv[j], xv);
            lemma_pair_lt_order(pv[j], pv[i as int], xv);
        }
    }
    i
}

/// The headers to sign, as `(name, value)` pairs ordered by name and then by
/// value: every entry of the map but those named `authorization`,
/// `content-length`, `content-type` and `user-agent`. Fails, naming the header,
/// where a header to sign has a value that is not printable ASCII.
pub fn get_headers_to_sign(h: &HeaderMap) -> (r: Result<Vec<(String, String)>, SignError>)
    ensures
        r is Ok <==> forall|p: (Seq<char>, Seq<u8>)|
            #[trigger] header_entries(*h).count(p) > 0 ==> !unsignable(p),
        match r {
            Ok(v) => signed_list(*h, pairs_view(v@)),
            Err(e) => names_unsignable(*h, e),
        },
{
    let src = header_pairs(h);
    let ghost sv = raw_pairs(src@);
    let ghost keep = |p: (Seq<char>, Seq<u8>)| !excluded(p.0);
    let mut out: Vec<(String, String)> = Vec::new();
    let mut i: usize = 0;
    while i < src.len()
        invariant
            i <= src@.len(),
            sv == raw_pairs(src@),
            sv.to_multiset() == header_entries(*h),
            forall|j: int| 0 <= j < src@.len() ==> is_lower(#[trigger] src@[j].0@) && name_safe(src@[j].0@),
            keep == (|p: (Seq<char>, Seq<u8>)| !excluded(p.0)),
            forall|j: int| 0 <= j < i ==> !unsignable(#[trigger] sv[j]),
            pairs_ordered(pairs_view(out@)),
            forall|j: int| 0 <= j < out@.len() ==> #[trigger] is_lower(pairs_view(out@)[j].0),
            forall|j: int| 0 <= j < out@.len() ==> #[trigger] name_safe(pairs_view(out@)[j].0),
            forall|j: int| 0 <= j < out@.len() ==> #[trigger] printable(pairs_view(out@)[j].1),
            as_byte_pairs(pairs_view(out@)).to_multiset() == sv.subrange(0, i as int).to_multiset().filter(keep),
        decreases src@.len() - i,
    {
        let ghost x = sv[i as int];
        let ghost before = sv.subrange(0, i as int).to_multiset();
        assert(sv.subrange(0, i as int + 1) =~= sv.subrange(0, i as int).push(x));
        assert(sv.subrange(0, i as int + 1).to_multiset() =~= before.insert(x));
        let name = &src[i].0;
        assert(x == (name@, src@[i as int].1@));
        assert(is_lower(src@[i as int].0@) && name_safe(src@[i as int].0@));
        if !is_excluded(name.as_str()) {
            let text = match value_text(&src[i].1) {
                Some(t) => t,
                None => {
                    assert(sv.contains(x));
                    assert(header_entries(*h).count(x) > 0);
                    return Err(SignError::EncodingError { name: name.clone() });
                },
            };
            let pair = (name.clone(), text);
            let k = ordered_slot(&out, &pair);
            let ghost old_pv = pairs_view(out@);
            let ghost y = (pair.0@, pair.1@);
            out.insert(k, pair);
            assert(pairs_view(out@) =~= old_pv.insert(k as int, y));
            let ghost npv = pairs_view(out@);
            assert forall|a: int, b: int| 0 <= a < b < npv.len() implies !pair_lt(
                #[trigger] npv[b],
                #[trigger] npv[a],
            ) by {
                if b < k {
                } else if b == k {
                } else if a < k {
                    assert(npv[b] == old_pv[b - 1]);
                } else if a == k {
                    assert(npv[b] == old_pv[b - 1]);
                    lemma_pair_lt_order(y, npv[b], y);
                } else {
                    assert(npv[a] == old_pv[a - 1] && npv[b] == old_pv[b - 1]);
                }
            }
            assert forall|j: int| 0 <= j < out@.len() implies is_lower(
                #[trigger] pairs_view(out@)[j].0,
            ) && name_safe(pairs_view(out@)[j].0) && printable(pairs_view(out@)[j].1) by {
                if j > k {
                    assert(npv[j] == old_pv[j - 1]);
                } else if j < k {
                    assert(npv[j] == old_pv[j]);
                }
            }
            assert(as_byte_pairs(npv) =~= as_byte_pairs(old_pv).insert(k as int, x));
            assert(before.insert(x).filter(keep) =~= before.filter(keep).insert(x));
        } else {
            assert(before.insert(x).filter(keep) =~= before.filter(keep));
        }
        i = i + 1;
    }
    assert(sv.subrange(0, i as int) =~= sv);
    assert forall|p: (Seq<char>, Seq<u8>)| #[trigger] header_entries(*h).count(p) > 0 implies !unsignable(p) by {
        assert(sv.contains(p));
    }
    assert(signed_entries(*h) =~= sv.to_multiset().filter(keep));
    Ok(out)
}

proof fn lemma_lower_unchanged(s: Seq<char>)
    requires
        is_lower(s),
    ensures
        lower_chars(s) == s,
{
    assert(lower_chars(s) =~= s);
}

/// Whatever the case in which a header name is given, if it is one of the
/// excluded names it never appears among the signed headers.
pub proof fn lemma_excluded_never_signed(m: HeaderMap, signed: Seq<(Seq<char>, Seq<char>)>, name: Seq<char>)
    requires
        signed_list(m, signed),
        excluded(lower_chars(name)),
    ensures
        forall|i: int|
            0 <= i < signed.len() ==> lower_chars(#[trigger] signed[i].0) != lower_chars(name),
{
    assert forall|i: int| 0 <= i < signed.len() implies lower_chars(#[trigger] signed[i].0)
        != lower_chars(name) by {
        let bp = as_byte_pairs(signed);
        assert(bp[i] == (signed[i].0, ascii_bytes(signed[i].1)));
        assert(bp.contains(bp[i]));
        assert(signed_entries(m).count(bp[i]) > 0);
        lemma_lower_unchanged(signed[i].0);
    }
}

} // verus!
