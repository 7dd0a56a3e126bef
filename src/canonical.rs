//! The canonical request: the exact text that the signing stage hashes.

use vstd::prelude::*;
use crate::encode::{encoded_char, lemma_encoding_chars, str_encoding, uri_encode_str};
use crate::error::SignError;
use hyper::header::HeaderMap;
use crate::headers::{
    ascii_bytes, get_headers_to_sign, header_count, header_entries, insert_header, names_unsignable, pairs_view,
    name_safe, signed_list, static_name, unsignable,
};
use crate::query::{
    canonical_query, get_canonical_querystr, lemma_query_one_line, opt_view, params_encoding,
    params_sorted, query_names_distinct, query_view, Param,
};
use crate::request::{
    amz_date, aws_format_time, lemma_amz_date_printable, mk_path, path_of, token_ok, S3Req,
};

verus! {

/// Each signed header as `name:value` and a newline.
pub open spec fn header_block(s: Seq<(Seq<char>, Seq<char>)>) -> Seq<char>
    decreases s.len(),
{
    if s.len() == 0 {
        Seq::empty()
    } else {
        header_block(s.drop_last()) + s.last().0 + seq![':'] + s.last().1 + seq!['\n']
    }
}

/// The signed header names joined with `;`.
pub open spec fn signed_names(s: Seq<(Seq<char>, Seq<char>)>) -> Seq<char>
    decreases s.len(),
{
    if s.len() == 0 {
        Seq::empty()
    } else if s.len() == 1 {
        s[0].0
    } else {
        signed_names(s.drop_last()) + seq![';'] + s.last().0
    }
}

/// The six lines of a canonical request: method, encoded path (slashes kept),
/// query string, header block, signed header names, payload placeholder.
pub open spec fn canonical_text(
    method: Seq<char>,
    path: Seq<char>,
    query: Seq<char>,
    signed: Seq<(Seq<char>, Seq<char>)>,
) -> Seq<char> {
    method + seq!['\n'] + str_encoding(path, false) + seq!['\n'] + query + seq!['\n']
        + header_block(signed) + seq!['\n'] + signed_names(signed) + seq!['\n']
        + "UNSIGNED-PAYLOAD"@
}

/// `text` is the canonical request of `r`.
pub open spec fn is_canonical_request(r: S3Req, text: Seq<char>) -> bool {
    exists|signed: Seq<(Seq<char>, Seq<char>)>, query: Seq<char>|
        signed_list(r.headers, signed) && canonical_query(query_view(r.query@), query) && text
            == canonical_text(r.method@, path_of(opt_view(r.bucket), opt_view(r.object)), query, signed)
}

/// An object key without a bucket.
pub open spec fn bad_state(r: S3Req) -> bool {
    r.object is Some && r.bucket is None
}

/// `after` is `before` with `x-amz-date` set to `date`, in place of any value
/// that it had.
pub open spec fn date_set(before: HeaderMap, after: HeaderMap, date: Seq<char>) -> bool {
    header_entries(after) == header_entries(before).filter(
        |p: (Seq<char>, Seq<u8>)| p.0 != "x-amz-date"@,
    ).insert(("x-amz-date"@, ascii_bytes(date)))
}

/// What signing `before` does: `after` is the request once signed, `res` what
/// the call returns.
///
/// An object key without a bucket is refused, with the request left as it
/// was. Otherwise the request gains its `x-amz-date` header and nothing else
/// changes; the call then fails exactly when a header to sign has a value that
/// is not printable ASCII, and else returns the canonical request.
pub open spec fn signing_outcome(before: S3Req, after: S3Req, res: Result<String, SignError>) -> bool {
    &&& bad_state(before) ==> after == before && (res matches Err(SignError::InvalidRequestState))
    &&& !bad_state(before) ==> {
        &&& after.method == before.method
        &&& after.bucket == before.bucket
        &&& after.object == before.object
        &&& after.query == before.query
        &&& after.ts == before.ts
        &&& after.wf()
        &&& date_set(before.headers, after.headers, amz_date(before.ts))
        &&& (res is Ok <==> forall|p: (Seq<char>, Seq<u8>)|
            #[trigger] header_entries(after.headers).count(p) > 0 ==> !unsignable(p))
        &&& match res {
            Ok(s) => is_canonical_request(after, s@),
            Err(e) => names_unsignable(after.headers, e),
        }
    }
}

/// Builds the canonical request of `r`, first setting its `x-amz-date` header
/// to the request's timestamp so that the date is signed too.
///
/// An object key without a bucket is refused before anything else, with the
/// request left as it was. A header to sign whose value is not printable ASCII
/// fails the call, naming the first such header.
pub fn get_canonical_request(r: &mut S3Req) -> (res: Result<String, SignError>)
    requires
        old(r).wf(),
        header_entries(old(r).headers).len() < 4096,
    ensures
        signing_outcome(*old(r), *final(r), res),
{
    if r.object.is_some() && r.bucket.is_none() {
        return Err(SignError::InvalidRequestState);
    }
    let date = aws_format_time(&r.ts);
    proof {
        reveal_strlit("x-amz-date");
        assert(static_name("x-amz-date"@));
        lemma_amz_date_printable(r.ts);
    }
    insert_header(&mut r.headers, "x-amz-date", date.as_str());
    let hs = match get_headers_to_sign(&r.headers) {
        Ok(hs) => hs,
        Err(e) => {
            return Err(e);
        },
    };
    let path = mk_path(r);
    let query = get_canonical_querystr(&r.query);
    let ghost sv = pairs_view(hs@);
    let mut block = String::new();
    let mut names = String::new();
    let mut i: usize = 0;
    while i < hs.len()
        invariant
            i <= hs@.len(),
            sv == pairs_view(hs@),
            block@ == header_block(sv.subrange(0, i as int)),
            names@ == signed_names(sv.subrange(0, i as int)),
        decreases hs@.len() - i,
    {
        proof {
            reveal_strlit(":");
            reveal_strlit("\n");
            reveal_strlit(";");
        }
        let ghost pre = sv.subrange(0, i as int);
        let ghost next = sv.subrange(0, i as int + 1);
        assert(next.drop_last() =~= pre);
        assert(next.last() == sv[i as int]);
        let ghost old_block = block@;
        let ghost old_names = names@;
        block.append(hs[i].0.as_str());
        block.append(":");
        block.append(hs[i].1.as_str());
        block.append("\n");
        assert(block@ =~= old_block + sv[i as int].0 + seq![':'] + sv[i as int].1 + seq!['\n']);
        if i > 0 {
            names.append(";");
        }
        names.append(hs[i].0.as_str());
        if i == 0 {
            assert(names@ =~= signed_names(next));
        } else {
            assert(names@ =~= old_names + seq![';'] + sv[i as int].0);
        }
        i = i + 1;
    }
    assert(sv.subrange(0, i as int) =~= sv);
    let mut out = r.method.clone();
    out.append("\n");
    let encoded_path = uri_encode_str(path.as_str(), false);
    out.append(encoded_path.as_str());
    out.append("\n");
    out.append(query.as_str());
    out.append("\n");
    out.append(block.as_str());
    out.append("\n");
    out.append(names.as_str());
    out.append("\n");
    out.append("UNSIGNED-PAYLOAD");
    proof {
        reveal_strlit("\n");
    }
    assert(out@ =~= canonical_text(
        r.method@,
        path_of(opt_view(r.bucket), opt_view(r.object)),
        query@,
        sv,
    ));
    Ok(out)
}

/// No line break occurs.
pub open spec fn one_line(s: Seq<char>) -> bool {
    forall|i: int| 0 <= i < s.len() ==> #[trigger] s[i] != '\n'
}

proof fn lemma_names_one_line(s: Seq<(Seq<char>, Seq<char>)>)
    requires
        forall|i: int| 0 <= i < s.len() ==> name_safe(#[trigger] s[i].0),
    ensures
        one_line(signed_names(s)),
        forall|i: int| 0 <= i < signed_names(s).len() ==> #[trigger] signed_names(s)[i] != ':',
    decreases s.len(),
{
    if s.len() == 1 {
        assert(name_safe(s[0].0));
    } else if s.len() > 1 {
        lemma_names_one_line(s.drop_last());
        let a = signed_names(s.drop_last());
        let b = s.last().0;
        assert(name_safe(s[s.len() - 1].0));
        let whole = a + seq![';'] + b;
        assert(signed_names(s) == whole);
        assert forall|i: int| 0 <= i < whole.len() implies #[trigger] whole[i] != '\n' && whole[i]
            != ':' by {
            if i < a.len() {
                assert(whole[i] == a[i]);
            } else if i > a.len() {
                assert(whole[i] == b[i - a.len() - 1]);
            }
        }
    }
}

/// The canonical request of a well-formed request falls into lines exactly as
/// its six parts say: the method, the encoded path, the query string, one
/// `name:value` line for each signed header (in the signing order, the name
/// holding no `:`), an empty line, the signed names, and `UNSIGNED-PAYLOAD`.
/// None of these parts holds a line break, so the text has six lines and one
/// more for each signed header.
pub proof fn lemma_canonical_lines(r: S3Req, text: Seq<char>)
    requires
        r.wf(),
        is_canonical_request(r, text),
    ensures
        exists|signed: Seq<(Seq<char>, Seq<char>)>, query: Seq<char>|
            {
                &&& signed_list(r.headers, signed)
                &&& canonical_query(query_view(r.query@), query)
                &&& text == canonical_text(
                    r.method@,
                    path_of(opt_view(r.bucket), opt_view(r.object)),
                    query,
                    signed,
                )
                &&& one_line(r.method@)
                &&& one_line(str_encoding(path_of(opt_view(r.bucket), opt_view(r.object)), false))
                &&& one_line(query)
                &&& one_line(signed_names(signed))
                &&& forall|i: int|
                    0 <= i < signed.len() ==> one_line(#[trigger] signed[i].0) && one_line(
                        signed[i].1,
                    ) && forall|j: int| 0 <= j < signed[i].0.len() ==> signed[i].0[j] != ':'
            },
{
    let path = path_of(opt_view(r.bucket), opt_view(r.object));
    let (signed, query) = choose|signed: Seq<(Seq<char>, Seq<char>)>, query: Seq<char>|
        signed_list(r.headers, signed) && canonical_query(query_view(r.query@), query) && text
            == canonical_text(r.method@, path, query, signed);
    let s = choose|s: Seq<Param>|
        params_sorted(s) && (forall|p: Param| #[trigger] s.contains(p) <==> query_view(
            r.query@,
        ).contains(p)) && query == params_encoding(s);
    lemma_query_one_line(s);
    lemma_encoding_chars(path, false);
    assert forall|i: int| 0 <= i < str_encoding(path, false).len() implies #[trigger] str_encoding(
        path,
        false,
    )[i] != '\n' by {
        assert(encoded_char(str_encoding(path, false)[i], false));
    }
    assert forall|i: int| 0 <= i < r.method@.len() implies #[trigger] r.method@[i] != '\n' by {
        assert(crate::request::tchar(r.method@[i]));
    }
    lemma_names_one_line(signed);
    assert forall|i: int| 0 <= i < signed.len() implies one_line(#[trigger] signed[i].0) && one_line(
        signed[i].1,
    ) && forall|j: int| 0 <= j < signed[i].0.len() ==> signed[i].0[j] != ':' by {
        assert(name_safe(signed[i].0) && crate::headers::printable(signed[i].1));
        assert forall|j: int| 0 <= j < signed[i].1.len() implies #[trigger] signed[i].1[j] != '\n' by {
            assert(signed[i].1[j] == '\t' || (' ' <= signed[i].1[j] && signed[i].1[j] <= '~'));
        }
    }
}

/// Builds the canonical request of `r` as [`get_canonical_request`] does, after
/// checking what that function asks of its input: a method that is an HTTP
/// token, a valid timestamp, distinct query names, and fewer than 4096 header
/// values. Where a check fails it returns `None` and leaves `r` as it was.
pub fn checked_canonical_request(r: &mut S3Req) -> (res: Option<Result<String, SignError>>)
    ensures
        res is None <==> !(old(r).wf() && header_entries(old(r).headers).len() < 4096),
        res is None ==> *final(r) == *old(r),
        res matches Some(x) ==> signing_outcome(*old(r), *final(r), x),
{
    if !token_ok(r.method.as_str()) || !r.ts.is_valid() || !query_names_distinct(&r.query)
        || header_count(&r.headers) >= 4096 {
        return None;
    }
    Some(get_canonical_request(r))
}

} // verus!
