//! The canonical query string.

use vstd::prelude::*;
use crate::encode::{encoded_char, lemma_encoding_chars, str_encoding, uri_encode_str};
use crate::headers::str_eq;
use crate::order::{
    chars_lt, keys_sorted, sorted_slot, lemma_lt_asymmetric, lemma_lt_irreflexive, lemma_lt_total,
};

verus! {

/// A query parameter: a name, and a value unless it is a bare flag.
pub type Param = (Seq<char>, Option<Seq<char>>);

pub open spec fn opt_view(o: Option<String>) -> Option<Seq<char>> {
    match o {
        Some(s) => Some(s@),
        None => None,
    }
}

/// Query parameters, seen as character sequences.
pub open spec fn query_view(q: Seq<(String, Option<String>)>) -> Seq<Param> {
    q.map_values(|p: (String, Option<String>)| (p.0@, opt_view(p.1)))
}

/// No name occurs twice.
pub open spec fn names_distinct(q: Seq<Param>) -> bool {
    forall|i: int, j: int| 0 <= i < j < q.len() ==> #[trigger] q[i].0 != #[trigger] q[j].0
}

/// A missing value sorts before any value; values sort by [`chars_lt`].
pub open spec fn opt_lt(a: Option<Seq<char>>, b: Option<Seq<char>>) -> bool {
    match (a, b) {
        (None, Some(_)) => true,
        (Some(x), Some(y)) => chars_lt(x, y),
        _ => false,
    }
}

/// Parameters sort by name, then by value.
pub open spec fn param_lt(a: Param, b: Param) -> bool {
    chars_lt(a.0, b.0) || (a.0 == b.0 && opt_lt(a.1, b.1))
}

/// Parameters rise strictly.
pub open spec fn params_sorted(s: Seq<Param>) -> bool {
    forall|i: int, j: int| 0 <= i < j < s.len() ==> param_lt(#[trigger] s[i], #[trigger] s[j])
}

/// One parameter: the encoded name, then `=` and the encoded value if there is
/// a value. Slashes are encoded.
pub open spec fn param_encoding(p: Param) -> Seq<char> {
    match p.1 {
        Some(v) => str_encoding(p.0, true) + seq!['='] + str_encoding(v, true),
        None => str_encoding(p.0, true),
    }
}

/// The parameters' encodings joined with `&`.
pub open spec fn params_encoding(s: Seq<Param>) -> Seq<char>
    decreases s.len(),
{
    if s.len() == 0 {
        Seq::empty()
    } else if s.len() == 1 {
        param_encoding(s[0])
    } else {
        params_encoding(s.drop_last()) + seq!['&'] + param_encoding(s.last())
    }
}

/// `r` is the canonical query string of `q`: the encoding of `q`'s parameters
/// in rising order.
pub open spec fn canonical_query(q: Seq<Param>, r: Seq<char>) -> bool {
    exists|s: Seq<Param>|
        params_sorted(s) && (forall|p: Param| #[trigger] s.contains(p) <==> q.contains(p)) && r
            == params_encoding(s)
}

proof fn lemma_param_lt_order(a: Param, b: Param)
    ensures
        !param_lt(a, a),
        param_lt(a, b) ==> !param_lt(b, a),
{
    lemma_lt_irreflexive(a.0);
    lemma_lt_asymmetric(a.0, b.0);
    lemma_lt_asymmetric(b.0, a.0);
    lemma_lt_irreflexive(b.0);
    if let Some(x) = a.1 {
        lemma_lt_irreflexive(x);
        if let Some(y) = b.1 {
            lemma_lt_asymmetric(x, y);
        }
    }
}

/// Two strictly sorted sequences of parameters that hold the same parameters are
/// the same sequence.
proof fn lemma_sorted_unique(a: Seq<Param>, b: Seq<Param>)
    requires
        params_sorted(a),
        params_sorted(b),
        forall|p: Param| #[trigger] a.contains(p) <==> b.contains(p),
    ensures
        a == b,
    decreases a.len(),
{
    if a.len() == 0 {
        if b.len() > 0 {
            assert(b.contains(b[0]));
            assert(a.contains(b[0]));
        }
        assert(a =~= b);
    } else if b.len() == 0 {
        assert(a.contains(a[0]));
    } else {
        assert(a.contains(a[0]));
        assert(b.contains(b[0]));
        assert(b.contains(a[0]));
        assert(a.contains(b[0]));
        if a[0] != b[0] {
            let kb = choose|k: int| 0 <= k < b.len() && b[k] == a[0];
            let ka = choose|k: int| 0 <= k < a.len() && a[k] == b[0];
            assert(param_lt(b[0], b[kb]));
            assert(param_lt(a[0], a[ka]));
            lemma_param_lt_order(a[0], b[0]);
        }
        let ta = a.drop_first();
        let tb = b.drop_first();
        assert forall|p: Param| #[trigger] ta.contains(p) implies tb.contains(p) by {
            let m = choose|m: int| 0 <= m < ta.len() && ta[m] == p;
            assert(a[m + 1] == p && a.contains(p));
            assert(param_lt(a[0], a[m + 1]));
            lemma_param_lt_order(a[0], p);
            let n = choose|n: int| 0 <= n < b.len() && b[n] == p;
            assert(n != 0);
            assert(tb[n - 1] == p);
        }
        assert forall|p: Param| #[trigger] tb.contains(p) implies ta.contains(p) by {
            let m = choose|m: int| 0 <= m < tb.len() && tb[m] == p;
            assert(b[m + 1] == p && b.contains(p));
            assert(a.contains(p));
            assert(param_lt(b[0], b[m + 1]));
            lemma_param_lt_order(b[0], p);
            let n = choose|n: int| 0 <= n < a.len() && a[n] == p;
            assert(n != 0);
            assert(ta[n - 1] == p);
        }
        lemma_sorted_unique(ta, tb);
        assert(a =~= seq![a[0]] + ta);
        assert(b =~= seq![b[0]] + tb);
    }
}

/// The canonical query string does not depend on the order in which the
/// parameters are given: any two orderings of the same parameters have the same
/// canonical query string.
pub proof fn lemma_query_order_irrelevant(q1: Seq<Param>, q2: Seq<Param>, r1: Seq<char>, r2: Seq<char>)
    requires
        q1.to_multiset() =~= q2.to_multiset(),
        canonical_query(q1, r1),
        canonical_query(q2, r2),
    ensures
        r1 == r2,
{
    broadcast use vstd::seq_lib::group_to_multiset_ensures;

    let s1 = choose|s: Seq<Param>|
        params_sorted(s) && (forall|p: Param| #[trigger] s.contains(p) <==> q1.contains(p)) && r1
            == params_encoding(s);
    let s2 = choose|s: Seq<Param>|
        params_sorted(s) && (forall|p: Param| #[trigger] s.contains(p) <==> q2.contains(p)) && r2
            == params_encoding(s);
    assert forall|p: Param| #[trigger] s1.contains(p) <==> s2.contains(p) by {
        assert(q1.contains(p) <==> q1.to_multiset().count(p) > 0);
        assert(q2.contains(p) <==> q2.to_multiset().count(p) > 0);
    }
    lemma_sorted_unique(s1, s2);
}

/// Tests [`names_distinct`].
pub fn query_names_distinct(q: &Vec<(String, Option<String>)>) -> (r: bool)
    ensures
        r == names_distinct(query_view(q@)),
{
    let ghost qv = query_view(q@);
    let mut i: usize = 0;
    while i < q.len()
        invariant
            qv == query_view(q@),
            i <= q@.len(),
            forall|a: int, b: int| 0 <= a < b < i ==> #[trigger] qv[a].0 != #[trigger] qv[b].0,
        decreases q@.len() - i,
    {
        let mut j: usize = 0;
        while j < i
            invariant
                qv == query_view(q@),
                j <= i < q@.len(),
                forall|a: int, b: int| 0 <= a < b < i ==> #[trigger] qv[a].0 != #[trigger] qv[b].0,
                forall|a: int| 0 <= a < j ==> #[trigger] qv[a].0 != qv[i as int].0,
            decreases i - j,
        {
            assert(qv[j as int].0 == q@[j as int].0@ && qv[i as int].0 == q@[i as int].0@);
            if str_eq(q[j].0.as_str(), q[i].0.as_str()) {
                return false;
            }
            j = j + 1;
        }
        i = i + 1;
    }
    true
}

/// One rendered parameter holds no `&`, so the query string splits at `&` into
/// exactly its parameters. A bare flag holds no `=` at all; a valued parameter
/// is the encoded name, one `=`, and the encoded value, neither of which holds
/// an `=`.
pub proof fn lemma_param_segment(p: Param)
    ensures
        forall|i: int|
            0 <= i < param_encoding(p).len() ==> #[trigger] param_encoding(p)[i] != '&'
                && param_encoding(p)[i] != '\n',
        p.1 is None ==> param_encoding(p) == str_encoding(p.0, true) && forall|i: int|
            0 <= i < param_encoding(p).len() ==> #[trigger] param_encoding(p)[i] != '=',
        forall|i: int|
            0 <= i < str_encoding(p.0, true).len() ==> #[trigger] str_encoding(p.0, true)[i] != '=',
        p.1 matches Some(v) ==> forall|i: int|
            0 <= i < str_encoding(v, true).len() ==> #[trigger] str_encoding(v, true)[i] != '=',
{
    lemma_encoding_chars(p.0, true);
    let k = str_encoding(p.0, true);
    if let Some(v) = p.1 {
        lemma_encoding_chars(v, true);
        let e = str_encoding(v, true);
        let whole = k + seq!['='] + e;
        assert forall|i: int| 0 <= i < whole.len() implies #[trigger] whole[i] != '&' && whole[i]
            != '\n' by {
            if i < k.len() {
                assert(whole[i] == k[i]);
                assert(encoded_char(k[i], true));
            } else if i > k.len() {
                assert(whole[i] == e[i - k.len() - 1]);
                assert(encoded_char(e[i - k.len() - 1], true));
            }
        }
    } else {
        assert forall|i: int| 0 <= i < k.len() implies #[trigger] k[i] != '&' && k[i] != '\n' by {
            assert(encoded_char(k[i], true));
        }
    }
    assert forall|i: int| 0 <= i < k.len() implies #[trigger] k[i] != '=' by {
        assert(encoded_char(k[i], true));
    }
    if let Some(v) = p.1 {
        let e = str_encoding(v, true);
        assert forall|i: int| 0 <= i < e.len() implies #[trigger] e[i] != '=' by {
            assert(encoded_char(e[i], true));
        }
    }
}

/// A query string holds no line break.
pub proof fn lemma_query_one_line(s: Seq<Param>)
    ensures
        forall|i: int| 0 <= i < params_encoding(s).len() ==> #[trigger] params_encoding(s)[i] != '\n',
    decreases s.len(),
{
    if s.len() == 1 {
        lemma_param_segment(s[0]);
    } else if s.len() > 1 {
        lemma_query_one_line(s.drop_last());
        lemma_param_segment(s.last());
        let a = params_encoding(s.drop_last());
        let b = param_encoding(s.last());
        let whole = a + seq!['&'] + b;
        assert(params_encoding(s) == whole);
        assert forall|i: int| 0 <= i < whole.len() implies #[trigger] whole[i] != '\n' by {
            if i < a.len() {
                assert(whole[i] == a[i]);
            } else if i > a.len() {
                assert(whole[i] == b[i - a.len() - 1]);
            }
        }
    }
}

fn clone_opt(o: &Option<String>) -> (r: Option<String>)
    ensures
        opt_view(r) == opt_view(*o),
{
    match o {
        Some(s) => Some(s.clone()),
        None => None,
    }
}

/// The canonical query string: the parameters in rising order of name (a bare
/// flag before a valued parameter of the same name), name and value
/// percent-encoded with slashes encoded, `name=value` or the bare name, joined
/// with `&`. No parameters give the empty string.
pub fn get_canonical_querystr(q: &Vec<(String, Option<String>)>) -> (r: String)
    requires
        names_distinct(query_view(q@)),
    ensures
        canonical_query(query_view(q@), r@),
{
    let ghost qv = query_view(q@);
    let mut sorted: Vec<(String, Option<String>)> = Vec::new();
    let mut i: usize = 0;
    while i < q.len()
        invariant
            qv == query_view(q@),
            names_distinct(qv),
            i <= q@.len(),
            keys_sorted(sorted@),
            forall|p: Param| #[trigger]
                query_view(sorted@).contains(p) <==> (exists|j: int| 0 <= j < i && #[trigger] qv[j] == p),
        decreases q@.len() - i,
    {
        let name = &q[i].0;
        assert(qv[i as int] == (name@, opt_view(q@[i as int].1)));
        let k = sorted_slot(&sorted, name);
        let ghost old_s = sorted@;
        let ghost pv = query_view(old_s);
        assert forall|m: int| 0 <= m < old_s.len() implies (m >= k ==> chars_lt(
            name@,
            #[trigger] old_s[m].0@,
        )) && old_s[m].0@ != name@ by {
            assert(pv[m] == (old_s[m].0@, opt_view(old_s[m].1)));
            assert(pv.contains(pv[m]));
            let j = choose|j: int| 0 <= j < i && #[trigger] qv[j] == pv[m];
            assert(qv[j].0 != qv[i as int].0);
            if m >= k {
                lemma_lt_total(name@, old_s[m].0@);
            }
        }
        let value = clone_opt(&q[i].1);
        sorted.insert(k, (name.clone(), value));
        let ghost x = qv[i as int];
        assert(query_view(sorted@) =~= pv.insert(k as int, x));
        assert forall|a: int, b: int| 0 <= a < b < sorted@.len() implies chars_lt(
            #[trigger] sorted@[a].0@,
            #[trigger] sorted@[b].0@,
        ) by {
            if b < k {
                assert(sorted@[a] == old_s[a] && sorted@[b] == old_s[b]);
            } else if b == k {
                assert(sorted@[a] == old_s[a]);
            } else if a < k {
                assert(sorted@[a] == old_s[a] && sorted@[b] == old_s[b - 1]);
            } else if a == k {
                assert(sorted@[b] == old_s[b - 1]);
            } else {
                assert(sorted@[a] == old_s[a - 1] && sorted@[b] == old_s[b - 1]);
            }
        }
        assert forall|p: Param| #[trigger]
            query_view(sorted@).contains(p) <==> (exists|j: int| 0 <= j < i + 1 && #[trigger] qv[j] == p) by {
            let npv = query_view(sorted@);
            if npv.contains(p) {
                let m = choose|m: int| 0 <= m < npv.len() && npv[m] == p;
                if m < k {
                    assert(pv[m] == p && pv.contains(p));
                } else if m > k {
                    assert(pv[m - 1] == p && pv.contains(p));
                } else {
                    assert(qv[i as int] == p);
                }
            }
            if exists|j: int| 0 <= j < i + 1 && #[trigger] qv[j] == p {
                let j = choose|j: int| 0 <= j < i + 1 && #[trigger] qv[j] == p;
                if j < i {
                    assert(pv.contains(p));
                    let m = choose|m: int| 0 <= m < pv.len() && pv[m] == p;
                    if m < k {
                        assert(npv[m] == p);
                    } else {
                        assert(npv[m + 1] == p);
                    }
                } else {
                    assert(npv[k as int] == p);
                }
            }
        }
        i = i + 1;
    }
    let ghost sv = query_view(sorted@);
    assert forall|a: int, b: int| 0 <= a < b < sv.len() implies param_lt(
        #[trigger] sv[a],
        #[trigger] sv[b],
    ) by {
        assert(sv[a].0 == sorted@[a].0@ && sv[b].0 == sorted@[b].0@);
    }
    assert forall|p: Param| #[trigger] sv.contains(p) <==> qv.contains(p) by {
        if qv.contains(p) {
            let j = choose|j: int| 0 <= j < qv.len() && qv[j] == p;
            assert(qv[j] == p);
        }
    }
    let mut out = String::new();
    let mut m: usize = 0;
    while m < sorted.len()
        invariant
            m <= sorted@.len(),
            sv == query_view(sorted@),
            out@ == params_encoding(sv.subrange(0, m as int)),
        decreases sorted@.len() - m,
    {
        proof {
            reveal_strlit("&");
            reveal_strlit("=");
        }
        let ghost before = out@;
        if m > 0 {
            out.append("&");
        }
        let key = uri_encode_str(sorted[m].0.as_str(), true);
        out.append(key.as_str());
        match &sorted[m].1 {
            Some(v) => {
                out.append("=");
                let ev = uri_encode_str(v.as_str(), true);
                out.append(ev.as_str());
            },
            None => {},
        }
        let ghost pre = sv.subrange(0, m as int);
        let ghost next = sv.subrange(0, m as int + 1);
        assert(next.drop_last() =~= pre);
        assert(next.last() == sv[m as int]);
        if m == 0 {
            assert(out@ =~= param_encoding(sv[0]));
        } else {
            assert(out@ =~= before + seq!['&'] + param_encoding(sv[m as int]));
        }
        m = m + 1;
    }
    assert(sv.subrange(0, m as int) =~= sv);
    out
}

} // verus!
