//! Lexicographic ordering of string keys, association-list lookup, and
//! small executable string utilities shared by the store modules.

use vstd::prelude::*;

verus! {

/// Strict lexicographic order on character sequences, comparing
/// characters by their scalar values.
pub open spec fn key_lt(a: Seq<char>, b: Seq<char>) -> bool
    decreases a.len(),
{
    if b.len() == 0 {
        false
    } else if a.len() == 0 {
        true
    } else if (a[0] as u32) < (b[0] as u32) {
        true
    } else if a[0] == b[0] {
        key_lt(a.drop_first(), b.drop_first())
    } else {
        false
    }
}

/// Lookup in an association list keyed by character sequences: the
/// value of the first entry whose key equals `k`.
pub open spec fn assoc<V>(es: Seq<(Seq<char>, V)>, k: Seq<char>) -> Option<V>
    decreases es.len(),
{
    if es.len() == 0 {
        None
    } else if es[0].0 == k {
        Some(es[0].1)
    } else {
        assoc(es.drop_first(), k)
    }
}

/// The keys of an association list are strictly increasing, hence unique.
pub open spec fn sorted_keys<V>(es: Seq<(Seq<char>, V)>) -> bool {
    forall|i: int, j: int| 0 <= i < j < es.len() ==> #[trigger] key_lt(es[i].0, es[j].0)
}

pub proof fn lemma_key_lt_irrefl(a: Seq<char>)
    ensures
        !key_lt(a, a),
    decreases a.len(),
{
    if a.len() > 0 {
        lemma_key_lt_irrefl(a.drop_first());
    }
}

pub proof fn lemma_key_lt_trans(a: Seq<char>, b: Seq<char>, c: Seq<char>)
    requires
        key_lt(a, b),
        key_lt(b, c),
    ensures
        key_lt(a, c),
    decreases a.len(),
{
    if a.len() > 0 && b.len() > 0 && c.len() > 0 {
        if a[0] == b[0] && b[0] == c[0] {
            lemma_key_lt_trans(a.drop_first(), b.drop_first(), c.drop_first());
        }
    }
}

/// Two keys that are not ordered either way are equal.
pub proof fn lemma_key_lt_connex(a: Seq<char>, b: Seq<char>)
    requires
        !key_lt(a, b),
        !key_lt(b, a),
    ensures
        a == b,
    decreases a.len(),
{
    if a.len() == 0 || b.len() == 0 {
        assert(a =~= b);
    } else {
        assert(!((a[0] as u32) < (b[0] as u32)));
        assert(!((b[0] as u32) < (a[0] as u32)));
        assert((a[0] as u32) == (b[0] as u32));
        vstd::utf8::char_u32_cast(a[0], a[0] as u32);
        vstd::utf8::char_u32_cast(b[0], b[0] as u32);
        assert(a[0] == b[0]);
        lemma_key_lt_connex(a.drop_first(), b.drop_first());
        assert(a =~= seq![a[0]] + a.drop_first());
        assert(b =~= seq![b[0]] + b.drop_first());
    }
}

/// In a sorted association list, a key below the first key is absent.
pub proof fn lemma_sorted_absent<V>(es: Seq<(Seq<char>, V)>, k: Seq<char>)
    requires
        sorted_keys(es),
        es.len() > 0,
        key_lt(k, es[0].0),
    ensures
        assoc(es, k) is None,
    decreases es.len(),
{
    lemma_key_lt_irrefl(k);
    assert(es[0].0 != k);
    if es.len() > 1 {
        assert(key_lt(es[0].0, es[1].0));
        lemma_key_lt_trans(k, es[0].0, es[1].0);
        assert(sorted_keys(es.drop_first())) by {
            assert(forall|i: int, j: int|
                0 <= i < j < es.drop_first().len() ==> #[trigger] key_lt(
                    es.drop_first()[i].0,
                    es.drop_first()[j].0,
                )) by {
                assert(forall|i: int, j: int|
                    0 <= i < j < es.drop_first().len() ==> es.drop_first()[i] == es[i + 1]
                        && es.drop_first()[j] == es[j + 1] && key_lt(es[i + 1].0, es[j + 1].0));
            }
        }
        lemma_sorted_absent(es.drop_first(), k);
    }
}

/// A sorted association list keeps its sortedness when the first entry
/// is dropped.
pub proof fn lemma_sorted_drop_first<V>(es: Seq<(Seq<char>, V)>)
    requires
        sorted_keys(es),
        es.len() > 0,
    ensures
        sorted_keys(es.drop_first()),
{
    assert(forall|i: int, j: int|
        0 <= i < j < es.drop_first().len() ==> #[trigger] key_lt(
            es.drop_first()[i].0,
            es.drop_first()[j].0,
        )) by {
        assert(forall|i: int, j: int|
            0 <= i < j < es.drop_first().len() ==> es.drop_first()[i] == es[i + 1]
                && es.drop_first()[j] == es[j + 1] && key_lt(es[i + 1].0, es[j + 1].0));
    }
}

/// The first entry whose key is `k` decides an association lookup.
pub proof fn lemma_assoc_at<V>(es: Seq<(Seq<char>, V)>, k: Seq<char>, at: int)
    requires
        0 <= at < es.len(),
        es[at].0 == k,
        forall|l: int| 0 <= l < at ==> (#[trigger] es[l]).0 != k,
    ensures
        assoc(es, k) == Some(es[at].1),
    decreases at,
{
    if at > 0 {
        assert(forall|l: int|
            0 <= l < at - 1 ==> (#[trigger] es.drop_first()[l]) == es[l + 1]);
        lemma_assoc_at(es.drop_first(), k, at - 1);
    }
}

/// A key that matches no entry is absent.
pub proof fn lemma_assoc_absent<V>(es: Seq<(Seq<char>, V)>, k: Seq<char>)
    requires
        forall|l: int| 0 <= l < es.len() ==> (#[trigger] es[l]).0 != k,
    ensures
        assoc(es, k) is None,
    decreases es.len(),
{
    if es.len() > 0 {
        assert(forall|l: int|
            0 <= l < es.len() - 1 ==> (#[trigger] es.drop_first()[l]) == es[l + 1]);
        lemma_assoc_absent(es.drop_first(), k);
    }
}

/// A successful lookup names some entry of the list.
pub proof fn lemma_assoc_some_index<V>(es: Seq<(Seq<char>, V)>, k: Seq<char>)
    requires
        assoc(es, k) is Some,
    ensures
        exists|i: int| 0 <= i < es.len() && (#[trigger] es[i]).0 == k,
    decreases es.len(),
{
    if es.len() > 0 {
        if es[0].0 == k {
            assert(es[0].0 == k);
        } else {
            lemma_assoc_some_index(es.drop_first(), k);
            let i = choose|i: int|
                0 <= i < es.drop_first().len() && (#[trigger] es.drop_first()[i]).0 == k;
            assert(es[i + 1].0 == k);
        }
    }
}

/// Compares two string slices for character equality.
pub fn str_eq(a: &str, b: &str) -> (r: bool)
    ensures
        r == (a@ == b@),
{
    let sa = String::from_str(a);
    let sb = String::from_str(b);
    sa == sb
}

fn str_lt_from(a: &str, b: &str, i: usize) -> (r: bool)
    requires
        i <= a@.len(),
        i <= b@.len(),
    ensures
        r == key_lt(a@.skip(i as int), b@.skip(i as int)),
    decreases a@.len() - i,
{
    if i >= b.unicode_len() {
        false
    } else if i >= a.unicode_len() {
        true
    } else {
        let ca = a.get_char(i);
        let cb = b.get_char(i);
        if (ca as u32) < (cb as u32) {
            true
        } else if ca == cb {
            let r = str_lt_from(a, b, i + 1);
            proof {
                assert(a@.skip(i as int).drop_first() =~= a@.skip(i + 1));
                assert(b@.skip(i as int).drop_first() =~= b@.skip(i + 1));
            }
            r
        } else {
            false
        }
    }
}

/// Decides the strict lexicographic order between two string slices.
pub fn str_lt(a: &str, b: &str) -> (r: bool)
    ensures
        r == key_lt(a@, b@),
{
    let r = str_lt_from(a, b, 0);
    proof {
        assert(a@.skip(0) =~= a@);
        assert(b@.skip(0) =~= b@);
    }
    r
}

/// Relies on `String::push` from std: appends the given character at
/// the end of the string.
#[verifier::external_body]
pub fn push_char(s: &mut String, c: char)
    ensures
        final(s)@ == old(s)@.push(c),
{
    s.push(c);
}

/// Copies the characters of a string slice into a vector.
pub fn str_to_chars(s: &str) -> (r: Vec<char>)
    ensures
        r@ == s@,
{
    let n = s.unicode_len();
    let mut r: Vec<char> = Vec::new();
    let mut i: usize = 0;
    while i < n
        invariant
            n == s@.len(),
            i <= n,
            r@ =~= s@.subrange(0, i as int),
        decreases n - i,
    {
        r.push(s.get_char(i));
        i = i + 1;
    }
    proof {
        assert(r@ =~= s@);
    }
    r
}

/// Tests whether `p` is a prefix of `s`.
pub fn str_starts_with(s: &str, p: &str) -> (r: bool)
    ensures
        r == p@.is_prefix_of(s@),
{
    let np = p.unicode_len();
    let ns = s.unicode_len();
    if np > ns {
        proof {
            assert(!p@.is_prefix_of(s@));
        }
        return false;
    }
    let mut i: usize = 0;
    while i < np
        invariant
            np == p@.len(),
            ns == s@.len(),
            np <= ns,
            i <= np,
            forall|j: int| 0 <= j < i ==> p@[j] == s@[j],
        decreases np - i,
    {
        if p.get_char(i) != s.get_char(i) {
            proof {
                assert(!p@.is_prefix_of(s@)) by {
                    assert(p@[i as int] != s@.subrange(0, np as int)[i as int]);
                }
            }
            return false;
        }
        i = i + 1;
    }
    proof {
        assert(p@ =~= s@.subrange(0, np as int));
    }
    true
}

} // verus!
