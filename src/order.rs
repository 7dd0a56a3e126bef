//! Lexicographic order on strings, by code point, and sorted insertion.

use vstd::prelude::*;

verus! {

/// `a` sorts strictly before `b`, comparing code points from the left; a proper
/// prefix sorts first.
pub open spec fn chars_lt(a: Seq<char>, b: Seq<char>) -> bool
    decreases a.len(),
{
    if a.len() == 0 {
        b.len() > 0
    } else if b.len() == 0 {
        false
    } else if a[0] != b[0] {
        a[0] < b[0]
    } else {
        chars_lt(a.drop_first(), b.drop_first())
    }
}

/// The keys of a sequence of pairs rise strictly.
pub open spec fn keys_sorted<V>(s: Seq<(String, V)>) -> bool {
    forall|i: int, j: int| 0 <= i < j < s.len() ==> chars_lt(#[trigger] s[i].0@, #[trigger] s[j].0@)
}

pub proof fn lemma_lt_irreflexive(a: Seq<char>)
    ensures
        !chars_lt(a, a),
    decreases a.len(),
{
    if a.len() > 0 {
        lemma_lt_irreflexive(a.drop_first());
    }
}

pub proof fn lemma_lt_asymmetric(a: Seq<char>, b: Seq<char>)
    ensures
        chars_lt(a, b) ==> !chars_lt(b, a),
    decreases a.len(),
{
    if a.len() > 0 && b.len() > 0 && a[0] == b[0] {
        lemma_lt_asymmetric(a.drop_first(), b.drop_first());
    }
}

pub proof fn lemma_lt_transitive(a: Seq<char>, b: Seq<char>, c: Seq<char>)
    requires
        chars_lt(a, b),
        chars_lt(b, c),
    ensures
        chars_lt(a, c),
    decreases a.len(),
{
    if a.len() > 0 && b.len() > 0 && c.len() > 0 && a[0] == b[0] && b[0] == c[0] {
        lemma_lt_transitive(a.drop_first(), b.drop_first(), c.drop_first());
    }
}

pub proof fn lemma_lt_total(a: Seq<char>, b: Seq<char>)
    requires
        a != b,
    ensures
        chars_lt(a, b) || chars_lt(b, a),
    decreases a.len(),
{
    if a.len() == 0 {
        if b.len() == 0 {
            assert(a =~= b);
        }
    } else if b.len() > 0 && a[0] == b[0] {
        if a.drop_first() == b.drop_first() {
            assert(a =~= seq![a[0]] + a.drop_first());
            assert(b =~= seq![b[0]] + b.drop_first());
        }
        lemma_lt_total(a.drop_first(), b.drop_first());
    }
}

/// Compares two strings by [`chars_lt`].
pub fn str_lt(a: &str, b: &str) -> (r: bool)
    ensures
        r == chars_lt(a@, b@),
{
    let na = a.unicode_len();
    let nb = b.unicode_len();
    let mut i: usize = 0;
    assert(a@.skip(0) =~= a@);
    assert(b@.skip(0) =~= b@);
    while i < na && i < nb
        invariant
            na == a@.len(),
            nb == b@.len(),
            i <= na,
            i <= nb,
            chars_lt(a@, b@) == chars_lt(a@.skip(i as int), b@.skip(i as int)),
        decreases na - i,
    {
        let ca = a.get_char(i);
        let cb = b.get_char(i);
        let ghost sa = a@.skip(i as int);
        let ghost sb = b@.skip(i as int);
        assert(sa[0] == ca && sb[0] == cb);
        if ca != cb {
            return ca < cb;
        }
        assert(sa.drop_first() =~= a@.skip(i as int + 1));
        assert(sb.drop_first() =~= b@.skip(i as int + 1));
        i = i + 1;
    }
    i == na && i < nb
}

/// The place at which `key` keeps a key-sorted vector sorted: every key before
/// it sorts before `key`, and none from it on does.
pub fn sorted_slot<V>(v: &Vec<(String, V)>, key: &String) -> (k: usize)
    requires
        keys_sorted(v@),
    ensures
        k <= v@.len(),
        forall|i: int| 0 <= i < k ==> chars_lt(#[trigger] v@[i].0@, key@),
        forall|i: int| k <= i < v@.len() ==> !chars_lt(#[trigger] v@[i].0@, key@),
{
    let mut i: usize = 0;
    while i < v.len() && str_lt(v[i].0.as_str(), key.as_str())
        invariant
            i <= v@.len(),
            keys_sorted(v@),
            forall|j: int| 0 <= j < i ==> chars_lt(#[trigger] v@[j].0@, key@),
        decreases v@.len() - i,
    {
        i = i + 1;
    }
    assert forall|j: int| i <= j < v@.len() implies !chars_lt(#[trigger] v@[j].0@, key@) by {
        if j > i && chars_lt(v@[j].0@, key@) {
            lemma_lt_transitive(v@[i as int].0@, v@[j].0@, key@);
        }
    }
    i
}

} // verus!
