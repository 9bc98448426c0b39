//! Recursive string/map documents with dotted-path lookup and a
//! left-biased structural merge.

use vstd::prelude::*;

use crate::keys::{assoc, key_lt, sorted_keys};
use crate::keys::{lemma_assoc_absent, lemma_assoc_at, lemma_assoc_some_index};
use crate::keys::{
    lemma_key_lt_connex, lemma_key_lt_irrefl, lemma_key_lt_trans, lemma_sorted_absent,
    lemma_sorted_drop_first, str_eq, str_lt,
};

verus! {

/// Mathematical model of a document: a leaf string or an ordered
/// association list of key/document pairs.
#[verifier::ext_equal]
pub enum DocV {
    Val(Seq<char>),
    Obj(Seq<(Seq<char>, DocV)>),
}

/// A document: a leaf string value or a map from string keys to
/// sub-documents, kept sorted by key.
#[derive(Debug)]
pub enum Doc {
    Val(String),
    Obj(Vec<(String, Doc)>),
}

/// The model of a document value.
pub open spec fn doc_view(d: Doc) -> DocV
    decreases d, 1nat,
{
    match d {
        Doc::Val(s) => DocV::Val(s@),
        Doc::Obj(es) => DocV::Obj(entries_view(es@)),
    }
}

/// The model of a document's entry list, entry by entry.
pub open spec fn entries_view(es: Seq<(String, Doc)>) -> Seq<(Seq<char>, DocV)>
    decreases es, 0nat,
{
    if es.len() == 0 {
        Seq::empty()
    } else {
        seq![(es[0].0@, doc_view(es[0].1))] + entries_view(es.drop_first())
    }
}

/// Entry models are taken pointwise: the view of entry `i` is the pair
/// of the key's characters and the sub-document's model.
pub proof fn lemma_entries_view(es: Seq<(String, Doc)>)
    ensures
        entries_view(es).len() == es.len(),
        forall|i: int|
            0 <= i < es.len() ==> #[trigger] entries_view(es)[i] == (es[i].0@, doc_view(es[i].1)),
    decreases es.len(),
{
    if es.len() > 0 {
        lemma_entries_view(es.drop_first());
    }
}

impl View for Doc {
    type V = DocV;

    open spec fn view(&self) -> DocV {
        doc_view(*self)
    }
}

impl DeepView for Doc {
    type V = DocV;

    open spec fn deep_view(&self) -> DocV {
        self.view()
    }
}

/// Well-formedness of a document model: every map's keys are strictly
/// increasing (hence unique), recursively.
pub open spec fn wf(v: DocV) -> bool
    decreases v,
{
    match v {
        DocV::Val(_) => true,
        DocV::Obj(es) => sorted_keys(es) && forall|i: int|
            0 <= i < es.len() ==> wf(#[trigger] es[i].1),
    }
}

/// Left-biased structural merge: maps merge recursively on the union
/// of their keys; any other combination keeps the left side.
pub open spec fn merge_spec(a: DocV, b: DocV) -> DocV
    decreases a, b, 1nat,
{
    match a {
        DocV::Obj(ea) => match b {
            DocV::Obj(eb) => DocV::Obj(merge_entries_spec(ea, eb)),
            _ => a,
        },
        _ => a,
    }
}

/// Merge of two key-sorted entry lists: the union of the keys, with
/// entries present on both sides merged recursively.
pub open spec fn merge_entries_spec(
    ea: Seq<(Seq<char>, DocV)>,
    eb: Seq<(Seq<char>, DocV)>,
) -> Seq<(Seq<char>, DocV)>
    decreases ea, eb, 0nat,
{
    if ea.len() == 0 {
        eb
    } else if eb.len() == 0 {
        ea
    } else if ea[0].0 == eb[0].0 {
        seq![(ea[0].0, merge_spec(ea[0].1, eb[0].1))] + merge_entries_spec(
            ea.drop_first(),
            eb.drop_first(),
        )
    } else if key_lt(ea[0].0, eb[0].0) {
        seq![ea[0]] + merge_entries_spec(ea.drop_first(), eb)
    } else {
        seq![eb[0]] + merge_entries_spec(ea, eb.drop_first())
    }
}

impl Doc {
    /// Builds a copy whose model equals this document's model.
    pub fn duplicate(&self) -> (r: Doc)
        ensures
            r@ == self@,
        decreases *self,
    {
        match self {
            Doc::Val(s) => Doc::Val(s.clone()),
            Doc::Obj(es) => {
                let mut out: Vec<(String, Doc)> = Vec::new();
                let n = es.len();
                let mut i: usize = 0;
                while i < n
                    invariant
                        *self is Obj,
                        es == self->Obj_0,
                        n == es@.len(),
                        i <= n,
                        out@.len() == i,
                        forall|j: int|
                            0 <= j < i ==> #[trigger] out@[j].0@ == es@[j].0@ && doc_view(
                                out@[j].1,
                            ) == doc_view(es@[j].1),
                    decreases n - i,
                {
                    let k = es[i].0.clone();
                    proof {
                        assert(decreases_to!(*self => self->Obj_0));
                        assert(decreases_to!(es@ => es@[i as int]));
                    }
                    let d = es[i].1.duplicate();
                    out.push((k, d));
                    i = i + 1;
                }
                proof {
                    lemma_entries_view(out@);
                    lemma_entries_view(es@);
                    assert(entries_view(out@) =~= entries_view(es@));
                }
                Doc::Obj(out)
            },
        }
    }
}

/// Pointwise reading of a suffix of an entry list's model.
pub proof fn lemma_entries_view_suffix(es: Seq<(String, Doc)>, i: int)
    requires
        0 <= i < es.len(),
    ensures
        entries_view(es.skip(i)).len() == es.len() - i,
        entries_view(es.skip(i))[0] == (es[i].0@, doc_view(es[i].1)),
        entries_view(es.skip(i)).drop_first() == entries_view(es.skip(i + 1)),
{
    lemma_entries_view(es.skip(i));
    lemma_entries_view(es.skip(i + 1));
    assert(es.skip(i)[0] == es[i]);
    assert(entries_view(es.skip(i)).drop_first() =~= entries_view(es.skip(i + 1))) by {
        assert(forall|k: int|
            0 <= k < es.len() - i - 1 ==> es.skip(i)[k + 1] == #[trigger] es.skip(i + 1)[k]);
    }
}

/// Duplicates the entries of `es` from position `i` on.
fn duplicate_entries(es: &Vec<(String, Doc)>, i: usize) -> (r: Vec<(String, Doc)>)
    requires
        i <= es.len(),
    ensures
        entries_view(r@) == entries_view(es@.skip(i as int)),
{
    let n = es.len();
    let mut out: Vec<(String, Doc)> = Vec::new();
    let mut k: usize = i;
    while k < n
        invariant
            i <= k <= n,
            n == es@.len(),
            out@.len() == k - i,
            forall|j: int|
                0 <= j < k - i ==> #[trigger] out@[j].0@ == es@[i + j].0@ && doc_view(out@[j].1)
                    == doc_view(es@[i + j].1),
        decreases n - k,
    {
        let key = es[k].0.clone();
        let d = es[k].1.duplicate();
        out.push((key, d));
        k = k + 1;
    }
    proof {
        lemma_entries_view(out@);
        lemma_entries_view(es@.skip(i as int));
        assert(entries_view(out@) =~= entries_view(es@.skip(i as int)));
    }
    out
}

/// Merges the entry suffixes `ea[i..]` and `eb[j..]` of two documents.
fn merge_entries(ea: &Vec<(String, Doc)>, eb: &Vec<(String, Doc)>, i: usize, j: usize) -> (r: Vec<
    (String, Doc),
>)
    requires
        i <= ea.len(),
        j <= eb.len(),
    ensures
        entries_view(r@) == merge_entries_spec(
            entries_view(ea@.skip(i as int)),
            entries_view(eb@.skip(j as int)),
        ),
    decreases *ea, *eb, ea@.len() - i + eb@.len() - j,
{
    proof {
        lemma_entries_view(ea@.skip(i as int));
        lemma_entries_view(eb@.skip(j as int));
    }
    if i >= ea.len() {
        let r = duplicate_entries(eb, j);
        proof {
            assert(entries_view(ea@.skip(i as int)).len() == 0);
        }
        r
    } else if j >= eb.len() {
        let r = duplicate_entries(ea, i);
        proof {
            assert(entries_view(eb@.skip(j as int)).len() == 0);
        }
        r
    } else {
        proof {
            lemma_entries_view_suffix(ea@, i as int);
            lemma_entries_view_suffix(eb@, j as int);
            assert(decreases_to!(ea@ => ea@[i as int]));
            assert(decreases_to!(eb@ => eb@[j as int]));
        }
        let ghost eav = entries_view(ea@.skip(i as int));
        let ghost ebv = entries_view(eb@.skip(j as int));
        let ka = &ea[i].0;
        let kb = &eb[j].0;
        let mut out: Vec<(String, Doc)> = Vec::new();
        if str_eq(ka.as_str(), kb.as_str()) {
            let m = ea[i].1.merge(&eb[j].1);
            out.push((ka.clone(), m));
            let mut rest = merge_entries(ea, eb, i + 1, j + 1);
            let ghost rest_v = rest@;
            out.append(&mut rest);
            proof {
                assert(out@.drop_first() =~= rest_v);
                assert(entries_view(out@) == seq![(out@[0].0@, doc_view(out@[0].1))]
                    + entries_view(rest_v));
                assert(merge_entries_spec(eav, ebv) == seq![
                    (eav[0].0, merge_spec(eav[0].1, ebv[0].1)),
                ] + merge_entries_spec(eav.drop_first(), ebv.drop_first()));
                assert(entries_view(out@) =~= merge_entries_spec(eav, ebv));
            }
            out
        } else if str_lt(ka.as_str(), kb.as_str()) {
            let d = ea[i].1.duplicate();
            out.push((ka.clone(), d));
            let mut rest = merge_entries(ea, eb, i + 1, j);
            let ghost rest_v = rest@;
            out.append(&mut rest);
            proof {
                assert(out@.drop_first() =~= rest_v);
                assert(entries_view(out@) == seq![(out@[0].0@, doc_view(out@[0].1))]
                    + entries_view(rest_v));
                assert(merge_entries_spec(eav, ebv) == seq![eav[0]] + merge_entries_spec(
                    eav.drop_first(),
                    ebv,
                ));
                assert(entries_view(out@) =~= merge_entries_spec(eav, ebv));
            }
            out
        } else {
            let d = eb[j].1.duplicate();
            out.push((kb.clone(), d));
            let mut rest = merge_entries(ea, eb, i, j + 1);
            let ghost rest_v = rest@;
            out.append(&mut rest);
            proof {
                assert(out@.drop_first() =~= rest_v);
                assert(entries_view(out@) == seq![(out@[0].0@, doc_view(out@[0].1))]
                    + entries_view(rest_v));
                assert(merge_entries_spec(eav, ebv) == seq![ebv[0]] + merge_entries_spec(
                    eav,
                    ebv.drop_first(),
                ));
                assert(entries_view(out@) =~= merge_entries_spec(eav, ebv));
            }
            out
        }
    }
}

/// Index of the first `'.'` in `s`, or `-1` if there is none.
pub open spec fn first_dot(s: Seq<char>) -> int
    decreases s.len(),
{
    if s.len() == 0 {
        -1
    } else if s[0] == '.' {
        0
    } else {
        let r = first_dot(s.drop_first());
        if r < 0 {
            -1
        } else {
            r + 1
        }
    }
}

pub proof fn lemma_first_dot(s: Seq<char>)
    ensures
        first_dot(s) == -1 || (0 <= first_dot(s) < s.len()),
        first_dot(s) == -1 ==> forall|k: int| 0 <= k < s.len() ==> s[k] != '.',
        first_dot(s) >= 0 ==> s[first_dot(s)] == '.',
        first_dot(s) >= 0 ==> forall|k: int| 0 <= k < first_dot(s) ==> s[k] != '.',
    decreases s.len(),
{
    if s.len() > 0 && s[0] != '.' {
        let t = s.drop_first();
        lemma_first_dot(t);
        assert(forall|k: int| 0 <= k < s.len() - 1 ==> #[trigger] t[k] == s[k + 1]);
        if first_dot(s) == -1 {
            assert forall|k: int| 0 <= k < s.len() implies s[k] != '.' by {
                if k > 0 {
                    assert(t[k - 1] != '.');
                }
            }
        } else {
            assert(first_dot(s) == first_dot(t) + 1);
            assert(s[first_dot(s)] == t[first_dot(t)]);
            assert forall|k: int| 0 <= k < first_dot(s) implies s[k] != '.' by {
                if k > 0 {
                    assert(t[k - 1] != '.');
                }
            }
        }
    }
}

/// Dotted-path lookup in a document model: the empty path names the
/// document itself; a path into a leaf fails; in a map, the leading
/// segment selects a sub-document for the remaining path.
pub open spec fn get_spec(v: DocV, path: Seq<char>) -> Option<DocV>
    decreases path.len(),
{
    if path.len() == 0 {
        Some(v)
    } else {
        match v {
            DocV::Val(_) => None,
            DocV::Obj(es) => {
                let d = first_dot(path);
                if d < 0 {
                    assoc(es, path)
                } else if d >= path.len() {
                    None
                } else {
                    match assoc(es, path.take(d)) {
                        Some(sub) => get_spec(sub, path.skip(d + 1)),
                        None => None,
                    }
                }
            },
        }
    }
}



/// Scans the entries for a key equal to `k`; the result mirrors an
/// association lookup in the model.
fn find_entry<'a>(es: &'a Vec<(String, Doc)>, k: &str) -> (r: Option<&'a Doc>)
    ensures
        match r {
            Some(d) => assoc(entries_view(es@), k@) == Some(d@),
            None => assoc(entries_view(es@), k@) is None,
        },
{
    proof {
        lemma_entries_view(es@);
    }
    let n = es.len();
    let mut t: usize = 0;
    while t < n
        invariant
            t <= n,
            n == es@.len(),
            entries_view(es@).len() == n,
            forall|l: int|
                0 <= l < es@.len() ==> #[trigger] entries_view(es@)[l] == (
                    es@[l].0@,
                    doc_view(es@[l].1),
                ),
            forall|l: int| 0 <= l < t ==> (#[trigger] entries_view(es@)[l]).0 != k@,
        decreases n - t,
    {
        if str_eq(es[t].0.as_str(), k) {
            proof {
                lemma_assoc_at(entries_view(es@), k@, t as int);
            }
            return Some(&es[t].1);
        }
        t = t + 1;
    }
    proof {
        lemma_assoc_absent(entries_view(es@), k@);
    }
    None
}

/// Position of the first `'.'` in `s`, if any, mirroring `first_dot`.
fn find_dot(s: &str) -> (r: Option<usize>)
    ensures
        match r {
            Some(d) => first_dot(s@) == d as int,
            None => first_dot(s@) == -1,
        },
{
    proof {
        lemma_first_dot(s@);
    }
    let n = s.unicode_len();
    let mut t: usize = 0;
    while t < n
        invariant
            t <= n,
            n == s@.len(),
            forall|l: int| 0 <= l < t ==> s@[l] != '.',
        decreases n - t,
    {
        if s.get_char(t) == '.' {
            proof {
                lemma_first_dot(s@);
                if first_dot(s@) == -1 {
                    assert(s@[t as int] != '.');
                }
                if first_dot(s@) >= 0 {
                    if first_dot(s@) < t as int {
                        assert(s@[first_dot(s@)] != '.');
                    }
                    if first_dot(s@) > t as int {
                        assert(s@[t as int] != '.');
                    }
                }
            }
            return Some(t);
        }
        t = t + 1;
    }
    proof {
        lemma_first_dot(s@);
        if first_dot(s@) >= 0 {
            assert(s@[first_dot(s@)] == '.');
        }
    }
    None
}

impl Doc {
    /// Dotted-path lookup: follows each `'.'`-separated segment of
    /// `path` through nested maps; the empty path returns the document
    /// itself.
    pub fn get<'a>(&'a self, path: &str) -> (r: Option<&'a Doc>)
        ensures
            match r {
                Some(d) => get_spec(self@, path@) == Some(d@),
                None => get_spec(self@, path@) is None,
            },
        decreases path@.len(),
    {
        let n = path.unicode_len();
        if n == 0 {
            return Some(self);
        }
        match self {
            Doc::Val(_) => None,
            Doc::Obj(es) => {
                match find_dot(path) {
                    None => find_entry(es, path),
                    Some(d) => {
                        proof {
                            lemma_first_dot(path@);
                        }
                        let lead = path.substring_char(0, d);
                        let rest = path.substring_char(d + 1, n);
                        proof {
                            assert(lead@ =~= path@.take(d as int));
                            assert(rest@ =~= path@.skip(d + 1));
                        }
                        match find_entry(es, lead) {
                            Some(sub) => sub.get(rest),
                            None => None,
                        }
                    },
                }
            },
        }
    }

    /// The string held by a leaf document.
    pub fn into_val(&self) -> (r: &str)
        requires
            self@ is Val,
        ensures
            r@ == self@->Val_0,
    {
        match self {
            Doc::Val(s) => s.as_str(),
            Doc::Obj(_) => {
                proof {
                    assert(false);
                }
                ""
            },
        }
    }

    /// A leaf document holding the characters of `s`.
    pub fn text(s: &str) -> (r: Doc)
        ensures
            r@ == DocV::Val(s@),
    {
        Doc::Val(String::from_str(s))
    }

    /// A map document with no entries.
    pub fn empty() -> (r: Doc)
        ensures
            r@ == DocV::Obj(Seq::empty()),
    {
        let es: Vec<(String, Doc)> = Vec::new();
        Doc::Obj(es)
    }

    /// Structural merge with `other`: maps merge recursively on the
    /// union of their keys, any other combination keeps `self`.
    pub fn merge(&self, other: &Doc) -> (r: Doc)
        ensures
            r@ == merge_spec(self@, other@),
        decreases *self, *other, 1nat,
    {
        match (self, other) {
            (Doc::Obj(ea), Doc::Obj(eb)) => {
                proof {
                    assert(decreases_to!(*self => self->Obj_0));
                }
                let es = merge_entries(ea, eb, 0, 0);
                proof {
                    assert(ea@.skip(0) =~= ea@);
                    assert(eb@.skip(0) =~= eb@);
                }
                Doc::Obj(es)
            },
            _ => {
                let r = self.duplicate();
                proof {
                    assert(merge_spec(self@, other@) == self@);
                }
                r
            },
        }
    }
}

/// Merging a document with itself gives the document back.
pub proof fn lemma_merge_idem(v: DocV)
    ensures
        merge_spec(v, v) == v,
    decreases v, 1nat,
{
    match v {
        DocV::Val(_) => {
        },
        DocV::Obj(es) => {
            lemma_merge_entries_idem(es);
        },
    }
}

proof fn lemma_merge_entries_idem(es: Seq<(Seq<char>, DocV)>)
    ensures
        merge_entries_spec(es, es) == es,
    decreases es, 0nat,
{
    if es.len() > 0 {
        lemma_merge_idem(es[0].1);
        lemma_merge_entries_idem(es.drop_first());
        assert((es[0].0, es[0].1) == es[0]);
        assert(merge_entries_spec(es, es) =~= es);
    }
}

/// How a merged entry list answers lookups: a key found on both sides
/// maps to the recursive merge of the two values; a key found on one
/// side keeps that side's value.
pub proof fn lemma_merge_lookup(
    ea: Seq<(Seq<char>, DocV)>,
    eb: Seq<(Seq<char>, DocV)>,
    k: Seq<char>,
)
    requires
        sorted_keys(ea),
        sorted_keys(eb),
    ensures
        assoc(merge_entries_spec(ea, eb), k) == (match (assoc(ea, k), assoc(eb, k)) {
            (Some(x), Some(y)) => Some(merge_spec(x, y)),
            (Some(x), None) => Some(x),
            (None, Some(y)) => Some(y),
            (None, None) => None::<DocV>,
        }),
    decreases ea.len() + eb.len(),
{
    if ea.len() == 0 || eb.len() == 0 {
    } else {
        let m = merge_entries_spec(ea, eb);
        if ea[0].0 == eb[0].0 {
            let h = ea[0].0;
            let mt = merge_entries_spec(ea.drop_first(), eb.drop_first());
            assert(m == seq![(h, merge_spec(ea[0].1, eb[0].1))] + mt);
            assert(m[0] == (h, merge_spec(ea[0].1, eb[0].1)));
            if k == h {
                assert(assoc(m, k) == Some(merge_spec(ea[0].1, eb[0].1)));
            } else {
                assert(m.drop_first() =~= mt);
                lemma_sorted_drop_first(ea);
                lemma_sorted_drop_first(eb);
                lemma_merge_lookup(ea.drop_first(), eb.drop_first(), k);
            }
        } else if key_lt(ea[0].0, eb[0].0) {
            let mt = merge_entries_spec(ea.drop_first(), eb);
            assert(m == seq![ea[0]] + mt);
            assert(m[0] == ea[0]);
            if k == ea[0].0 {
                lemma_sorted_absent(eb, k);
            } else {
                assert(m.drop_first() =~= mt);
                lemma_sorted_drop_first(ea);
                lemma_merge_lookup(ea.drop_first(), eb, k);
            }
        } else {
            if !key_lt(eb[0].0, ea[0].0) {
                lemma_key_lt_connex(ea[0].0, eb[0].0);
            }
            assert(key_lt(eb[0].0, ea[0].0));
            let mt = merge_entries_spec(ea, eb.drop_first());
            assert(m == seq![eb[0]] + mt);
            assert(m[0] == eb[0]);
            if k == eb[0].0 {
                lemma_sorted_absent(ea, k);
            } else {
                assert(m.drop_first() =~= mt);
                lemma_sorted_drop_first(eb);
                lemma_merge_lookup(ea, eb.drop_first(), k);
            }
        }
    }
}

/// Every key of a merged entry list stays above a common lower bound
/// of the two inputs.
proof fn lemma_merge_key_bound(
    ea: Seq<(Seq<char>, DocV)>,
    eb: Seq<(Seq<char>, DocV)>,
    b: Seq<char>,
)
    requires
        forall|i: int| 0 <= i < ea.len() ==> key_lt(b, (#[trigger] ea[i]).0),
        forall|i: int| 0 <= i < eb.len() ==> key_lt(b, (#[trigger] eb[i]).0),
    ensures
        forall|i: int|
            0 <= i < merge_entries_spec(ea, eb).len() ==> key_lt(
                b,
                (#[trigger] merge_entries_spec(ea, eb)[i]).0,
            ),
    decreases ea.len() + eb.len(),
{
    if ea.len() == 0 || eb.len() == 0 {
    } else {
        let m = merge_entries_spec(ea, eb);
        if ea[0].0 == eb[0].0 {
            lemma_merge_key_bound(ea.drop_first(), eb.drop_first(), b);
            assert(forall|i: int|
                1 <= i < m.len() ==> (#[trigger] m[i]) == merge_entries_spec(
                    ea.drop_first(),
                    eb.drop_first(),
                )[i - 1]);
            assert(m[0].0 == ea[0].0);
        } else if key_lt(ea[0].0, eb[0].0) {
            lemma_merge_key_bound(ea.drop_first(), eb, b);
            assert(forall|i: int|
                1 <= i < m.len() ==> (#[trigger] m[i]) == merge_entries_spec(
                    ea.drop_first(),
                    eb,
                )[i - 1]);
            assert(m[0] == ea[0]);
        } else {
            lemma_merge_key_bound(ea, eb.drop_first(), b);
            assert(forall|i: int|
                1 <= i < m.len() ==> (#[trigger] m[i]) == merge_entries_spec(
                    ea,
                    eb.drop_first(),
                )[i - 1]);
            assert(m[0] == eb[0]);
        }
    }
}

/// Merging preserves well-formedness: sorted inputs merge to a sorted
/// list, and every merged value is well-formed.
pub proof fn lemma_merge_wf(a: DocV, b: DocV)
    requires
        wf(a),
        wf(b),
    ensures
        wf(merge_spec(a, b)),
    decreases a, b, 1nat,
{
    match a {
        DocV::Obj(ea) => match b {
            DocV::Obj(eb) => {
                lemma_merge_entries_wf(ea, eb);
            },
            _ => {
            },
        },
        _ => {
        },
    }
}

proof fn lemma_merge_entries_wf(ea: Seq<(Seq<char>, DocV)>, eb: Seq<(Seq<char>, DocV)>)
    requires
        sorted_keys(ea),
        sorted_keys(eb),
        forall|i: int| 0 <= i < ea.len() ==> wf((#[trigger] ea[i]).1),
        forall|i: int| 0 <= i < eb.len() ==> wf((#[trigger] eb[i]).1),
    ensures
        sorted_keys(merge_entries_spec(ea, eb)),
        forall|i: int|
            0 <= i < merge_entries_spec(ea, eb).len() ==> wf(
                (#[trigger] merge_entries_spec(ea, eb)[i]).1,
            ),
        merge_entries_spec(ea, eb).len() > 0 ==> ea.len() + eb.len() > 0 && (merge_entries_spec(
            ea,
            eb,
        )[0].0 == ea[0].0 || merge_entries_spec(ea, eb)[0].0 == eb[0].0),
    decreases ea, eb, 0nat,
{
    if ea.len() == 0 || eb.len() == 0 {
    } else {
        let m = merge_entries_spec(ea, eb);
        lemma_sorted_drop_first(ea);
        lemma_sorted_drop_first(eb);
        if ea[0].0 == eb[0].0 {
            let h = ea[0].0;
            let mt = merge_entries_spec(ea.drop_first(), eb.drop_first());
            lemma_merge_wf(ea[0].1, eb[0].1);
            lemma_merge_entries_wf(ea.drop_first(), eb.drop_first());
            assert(m == seq![(h, merge_spec(ea[0].1, eb[0].1))] + mt);
            assert(forall|i: int| 1 <= i < m.len() ==> (#[trigger] m[i]) == mt[i - 1]);
            assert(forall|i: int|
                0 <= i < ea.drop_first().len() ==> key_lt(h, (#[trigger] ea.drop_first()[i]).0));
            assert(forall|i: int|
                0 <= i < eb.drop_first().len() ==> key_lt(h, (#[trigger] eb.drop_first()[i]).0));
            lemma_merge_key_bound(ea.drop_first(), eb.drop_first(), h);
            assert(sorted_keys(m));
        } else if key_lt(ea[0].0, eb[0].0) {
            let h = ea[0].0;
            let mt = merge_entries_spec(ea.drop_first(), eb);
            lemma_merge_entries_wf(ea.drop_first(), eb);
            assert(m == seq![ea[0]] + mt);
            assert(forall|i: int| 1 <= i < m.len() ==> (#[trigger] m[i]) == mt[i - 1]);
            assert(forall|i: int|
                0 <= i < ea.drop_first().len() ==> key_lt(h, (#[trigger] ea.drop_first()[i]).0));
            assert(forall|i: int| 0 <= i < eb.len() ==> key_lt(h, (#[trigger] eb[i]).0)) by {
                assert forall|i: int| 0 <= i < eb.len() implies key_lt(h, (#[trigger] eb[i]).0) by {
                    if i > 0 {
                        lemma_key_lt_trans(h, eb[0].0, eb[i].0);
                    }
                }
            }
            lemma_merge_key_bound(ea.drop_first(), eb, h);
            assert(sorted_keys(m));
        } else {
            if !key_lt(eb[0].0, ea[0].0) {
                lemma_key_lt_connex(ea[0].0, eb[0].0);
            }
            assert(key_lt(eb[0].0, ea[0].0));
            let h = eb[0].0;
            let mt = merge_entries_spec(ea, eb.drop_first());
            lemma_merge_entries_wf(ea, eb.drop_first());
            assert(m == seq![eb[0]] + mt);
            assert(forall|i: int| 1 <= i < m.len() ==> (#[trigger] m[i]) == mt[i - 1]);
            assert(forall|i: int|
                0 <= i < eb.drop_first().len() ==> key_lt(h, (#[trigger] eb.drop_first()[i]).0));
            assert(forall|i: int| 0 <= i < ea.len() ==> key_lt(h, (#[trigger] ea[i]).0)) by {
                assert forall|i: int| 0 <= i < ea.len() implies key_lt(h, (#[trigger] ea[i]).0) by {
                    if i > 0 {
                        lemma_key_lt_trans(h, ea[0].0, ea[i].0);
                    }
                }
            }
            lemma_merge_key_bound(ea, eb.drop_first(), h);
            assert(sorted_keys(m));
        }
    }
}

/// Merging maps with disjoint key sets keeps every entry unchanged:
/// a key answers from whichever side holds it.
pub proof fn lemma_merge_disjoint(ea: Seq<(Seq<char>, DocV)>, eb: Seq<(Seq<char>, DocV)>)
    requires
        sorted_keys(ea),
        sorted_keys(eb),
        forall|i: int, j: int|
            0 <= i < ea.len() && 0 <= j < eb.len() ==> (#[trigger] ea[i]).0 != (
            #[trigger] eb[j]).0,
    ensures
        forall|k: Seq<char>|
            #![trigger assoc(merge_entries_spec(ea, eb), k)]
            assoc(merge_entries_spec(ea, eb), k) == (if assoc(ea, k) is Some {
                assoc(ea, k)
            } else {
                assoc(eb, k)
            }),
{
    assert forall|k: Seq<char>|
        #![trigger assoc(merge_entries_spec(ea, eb), k)]
        assoc(merge_entries_spec(ea, eb), k) == (if assoc(ea, k) is Some {
            assoc(ea, k)
        } else {
            assoc(eb, k)
        }) by {
        lemma_merge_lookup(ea, eb, k);
        if assoc(ea, k) is Some && assoc(eb, k) is Some {
            lemma_assoc_some_index(ea, k);
            lemma_assoc_some_index(eb, k);
            assert(false);
        }
    }
}


/// Lookup of a shared plain key in a merged document: both values merge
/// recursively when both are maps; otherwise the left value wins.
pub proof fn lemma_merge_shared_key(a: DocV, b: DocV, k: Seq<char>)
    requires
        a is Obj,
        b is Obj,
        wf(a),
        wf(b),
        k.len() > 0,
        first_dot(k) == -1,
        assoc(a->Obj_0, k) is Some,
        assoc(b->Obj_0, k) is Some,
    ensures
        get_spec(merge_spec(a, b), k) == Some(
            merge_spec(assoc(a->Obj_0, k)->0, assoc(b->Obj_0, k)->0),
        ),
        get_spec(a, k) == Some(assoc(a->Obj_0, k)->0),
        get_spec(b, k) == Some(assoc(b->Obj_0, k)->0),
        !(assoc(a->Obj_0, k)->0 is Obj && assoc(b->Obj_0, k)->0 is Obj) ==> get_spec(
            merge_spec(a, b),
            k,
        ) == get_spec(a, k),
{
    let ea = a->Obj_0;
    let eb = b->Obj_0;
    lemma_merge_lookup(ea, eb, k);
    assert(get_spec(merge_spec(a, b), k) == assoc(merge_entries_spec(ea, eb), k));
}

} // verus!
