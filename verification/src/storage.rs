//! The flat string key-value store: its capability interface and an
//! in-memory implementation that backs the typed collections.

use vstd::prelude::*;

use crate::keys::{assoc, lemma_assoc_absent, lemma_assoc_at, str_eq};

verus! {

/// The entry list after assigning `v` to `k`: an existing entry is
/// replaced in place, a new key is appended at the end.
pub open spec fn set_entry(es: Seq<(Seq<char>, Seq<char>)>, k: Seq<char>, v: Seq<char>) -> Seq<
    (Seq<char>, Seq<char>),
>
    decreases es.len(),
{
    if es.len() == 0 {
        seq![(k, v)]
    } else if es[0].0 == k {
        seq![(k, v)] + es.drop_first()
    } else {
        seq![es[0]] + set_entry(es.drop_first(), k, v)
    }
}

/// The entry list after removing every entry keyed `k`.
pub open spec fn remove_entry(es: Seq<(Seq<char>, Seq<char>)>, k: Seq<char>) -> Seq<
    (Seq<char>, Seq<char>),
>
    decreases es.len(),
{
    if es.len() == 0 {
        es
    } else if es[0].0 == k {
        remove_entry(es.drop_first(), k)
    } else {
        seq![es[0]] + remove_entry(es.drop_first(), k)
    }
}

/// No two entries share a key.
pub open spec fn unique_keys<V>(es: Seq<(Seq<char>, V)>) -> bool {
    forall|i: int, j: int|
        0 <= i < j < es.len() ==> (#[trigger] es[i]).0 != (#[trigger] es[j]).0
}

/// How an assignment answers lookups: the assigned key maps to the new
/// value, every other key is untouched.
pub proof fn lemma_set_entry_assoc(
    es: Seq<(Seq<char>, Seq<char>)>,
    k: Seq<char>,
    v: Seq<char>,
    k2: Seq<char>,
)
    ensures
        assoc(set_entry(es, k, v), k2) == (if k2 == k {
            Some(v)
        } else {
            assoc(es, k2)
        }),
    decreases es.len(),
{
    if es.len() == 0 {
        let r = set_entry(es, k, v);
        assert(r == seq![(k, v)]);
        assert(r[0] == (k, v));
        assert(r.drop_first() =~= Seq::<(Seq<char>, Seq<char>)>::empty());
        if k2 != k {
            assert(assoc(r, k2) == assoc(r.drop_first(), k2));
            assert(assoc(r.drop_first(), k2) is None);
        }
    } else if es[0].0 == k {
        let r = set_entry(es, k, v);
        assert(r == seq![(k, v)] + es.drop_first());
        assert(r[0] == (k, v));
        assert(r.drop_first() =~= es.drop_first());
        if k2 != k {
            assert(assoc(r, k2) == assoc(es.drop_first(), k2));
            assert(assoc(es, k2) == assoc(es.drop_first(), k2));
        }
    } else {
        let r = set_entry(es, k, v);
        assert(r == seq![es[0]] + set_entry(es.drop_first(), k, v));
        assert(r[0] == es[0]);
        assert(r.drop_first() =~= set_entry(es.drop_first(), k, v));
        lemma_set_entry_assoc(es.drop_first(), k, v, k2);
    }
}

/// How a removal answers lookups: the removed key is absent, every
/// other key is untouched.
pub proof fn lemma_remove_entry_assoc(es: Seq<(Seq<char>, Seq<char>)>, k: Seq<char>, k2: Seq<char>)
    ensures
        assoc(remove_entry(es, k), k2) == (if k2 == k {
            None
        } else {
            assoc(es, k2)
        }),
    decreases es.len(),
{
    if es.len() == 0 {
    } else if es[0].0 == k {
        lemma_remove_entry_assoc(es.drop_first(), k, k2);
    } else {
        let r = remove_entry(es, k);
        assert(r == seq![es[0]] + remove_entry(es.drop_first(), k));
        assert(r[0] == es[0]);
        assert(r.drop_first() =~= remove_entry(es.drop_first(), k));
        lemma_remove_entry_assoc(es.drop_first(), k, k2);
    }
}

/// Membership in the list after an assignment.
pub proof fn lemma_set_entry_keys(
    es: Seq<(Seq<char>, Seq<char>)>,
    k: Seq<char>,
    v: Seq<char>,
    k2: Seq<char>,
)
    ensures
        (exists|i: int|
            0 <= i < set_entry(es, k, v).len() && (#[trigger] set_entry(es, k, v)[i]).0 == k2)
            <==> (k2 == k || exists|i: int| 0 <= i < es.len() && (#[trigger] es[i]).0 == k2),
    decreases es.len(),
{
    let r = set_entry(es, k, v);
    if es.len() == 0 {
        assert(r == seq![(k, v)]);
        assert(r[0].0 == k);
    } else if es[0].0 == k {
        assert(r == seq![(k, v)] + es.drop_first());
        assert(r[0].0 == k);
        assert(forall|i: int| 1 <= i < r.len() ==> (#[trigger] r[i]) == es.drop_first()[i - 1]);
        assert(forall|i: int|
            0 <= i < es.drop_first().len() ==> (#[trigger] es.drop_first()[i]) == es[i + 1]);
        if exists|i: int| 0 <= i < r.len() && (#[trigger] r[i]).0 == k2 {
            let i = choose|i: int| 0 <= i < r.len() && (#[trigger] r[i]).0 == k2;
            if i == 0 {
            } else {
                assert(es[i].0 == k2);
            }
        }
        if k2 == k {
            assert(r[0].0 == k2);
        } else if exists|i: int| 0 <= i < es.len() && (#[trigger] es[i]).0 == k2 {
            let i = choose|i: int| 0 <= i < es.len() && (#[trigger] es[i]).0 == k2;
            assert(i != 0);
            assert(r[i].0 == k2);
        }
    } else {
        lemma_set_entry_keys(es.drop_first(), k, v, k2);
        let rt = set_entry(es.drop_first(), k, v);
        assert(r == seq![es[0]] + rt);
        assert(r[0] == es[0]);
        assert(forall|i: int| 1 <= i < r.len() ==> (#[trigger] r[i]) == rt[i - 1]);
        assert(forall|i: int|
            0 <= i < es.drop_first().len() ==> (#[trigger] es.drop_first()[i]) == es[i + 1]);
        if exists|i: int| 0 <= i < r.len() && (#[trigger] r[i]).0 == k2 {
            let i = choose|i: int| 0 <= i < r.len() && (#[trigger] r[i]).0 == k2;
            if i == 0 {
                assert(es[0].0 == k2);
            } else {
                assert(rt[i - 1].0 == k2);
            }
        }
        if k2 == k || exists|i: int| 0 <= i < es.len() && (#[trigger] es[i]).0 == k2 {
            if k2 != k {
                let i = choose|i: int| 0 <= i < es.len() && (#[trigger] es[i]).0 == k2;
                if i == 0 {
                    assert(r[0].0 == k2);
                } else {
                    assert(es.drop_first()[i - 1].0 == k2);
                    assert(exists|j: int| 0 <= j < rt.len() && (#[trigger] rt[j]).0 == k2);
                    let j = choose|j: int| 0 <= j < rt.len() && (#[trigger] rt[j]).0 == k2;
                    assert(r[j + 1].0 == k2);
                }
            } else {
                assert(exists|j: int| 0 <= j < rt.len() && (#[trigger] rt[j]).0 == k2);
                let j = choose|j: int| 0 <= j < rt.len() && (#[trigger] rt[j]).0 == k2;
                assert(r[j + 1].0 == k2);
            }
        }
    }
}

/// Assigning keeps keys unique.
pub proof fn lemma_set_entry_unique(es: Seq<(Seq<char>, Seq<char>)>, k: Seq<char>, v: Seq<char>)
    requires
        unique_keys(es),
    ensures
        unique_keys(set_entry(es, k, v)),
    decreases es.len(),
{
    let r = set_entry(es, k, v);
    if es.len() == 0 {
        assert(r == seq![(k, v)]);
    } else if es[0].0 == k {
        assert(r == seq![(k, v)] + es.drop_first());
        assert(forall|i: int| 1 <= i < r.len() ==> (#[trigger] r[i]) == es.drop_first()[i - 1]);
        assert(forall|i: int|
            0 <= i < es.drop_first().len() ==> (#[trigger] es.drop_first()[i]) == es[i + 1]);
        assert(r[0].0 == k);
        assert forall|i: int, j: int| 0 <= i < j < r.len() implies (#[trigger] r[i]).0 != (
        #[trigger] r[j]).0 by {
            if i == 0 {
                assert(r[j].0 == es[j].0);
                assert(es[0].0 != es[j].0);
            } else {
                assert(r[i].0 == es[i].0 && r[j].0 == es[j].0);
            }
        }
    } else {
        assert(forall|i: int|
            0 <= i < es.drop_first().len() ==> (#[trigger] es.drop_first()[i]) == es[i + 1]);
        lemma_set_entry_unique(es.drop_first(), k, v);
        let rt = set_entry(es.drop_first(), k, v);
        assert(r == seq![es[0]] + rt);
        assert(forall|i: int| 1 <= i < r.len() ==> (#[trigger] r[i]) == rt[i - 1]);
        assert forall|i: int, j: int| 0 <= i < j < r.len() implies (#[trigger] r[i]).0 != (
        #[trigger] r[j]).0 by {
            if i == 0 {
                assert(rt[j - 1].0 == r[j].0);
                lemma_set_entry_keys(es.drop_first(), k, v, es[0].0);
                if r[j].0 == es[0].0 {
                    assert(exists|t: int| 0 <= t < rt.len() && (#[trigger] rt[t]).0 == es[0].0);
                    assert(es[0].0 == k || exists|t: int|
                        0 <= t < es.drop_first().len() && (#[trigger] es.drop_first()[t]).0
                            == es[0].0);
                    if es[0].0 != k {
                        let t = choose|t: int|
                            0 <= t < es.drop_first().len() && (#[trigger] es.drop_first()[t]).0
                                == es[0].0;
                        assert(es[t + 1].0 == es[0].0);
                        assert(false);
                    }
                }
            } else {
                assert(rt[i - 1].0 != rt[j - 1].0);
            }
        }
    }
}

/// Removing keeps keys unique.
pub proof fn lemma_remove_entry_unique(es: Seq<(Seq<char>, Seq<char>)>, k: Seq<char>)
    requires
        unique_keys(es),
    ensures
        unique_keys(remove_entry(es, k)),
        forall|i: int|
            0 <= i < remove_entry(es, k).len() ==> exists|j: int|
                0 <= j < es.len() && (#[trigger] remove_entry(es, k)[i]) == es[j],
    decreases es.len(),
{
    let r = remove_entry(es, k);
    if es.len() == 0 {
    } else {
        assert(forall|i: int|
            0 <= i < es.drop_first().len() ==> (#[trigger] es.drop_first()[i]) == es[i + 1]);
        lemma_remove_entry_unique(es.drop_first(), k);
        let rt = remove_entry(es.drop_first(), k);
        if es[0].0 == k {
            assert(r == rt);
            assert forall|i: int|
                0 <= i < r.len() implies exists|j: int|
                0 <= j < es.len() && (#[trigger] r[i]) == es[j] by {
                let j = choose|j: int|
                    0 <= j < es.drop_first().len() && (#[trigger] rt[i]) == es.drop_first()[j];
                assert(r[i] == es[j + 1]);
            }
        } else {
            assert(r == seq![es[0]] + rt);
            assert(r[0] == es[0]);
            assert(forall|i: int| 1 <= i < r.len() ==> (#[trigger] r[i]) == rt[i - 1]);
            assert forall|i: int|
                0 <= i < r.len() implies exists|j: int|
                0 <= j < es.len() && (#[trigger] r[i]) == es[j] by {
                if i == 0 {
                    assert(r[0] == es[0]);
                } else {
                    let j = choose|j: int|
                        0 <= j < es.drop_first().len() && (#[trigger] rt[i - 1])
                            == es.drop_first()[j];
                    assert(r[i] == es[j + 1]);
                }
            }
            assert forall|i: int, j: int| 0 <= i < j < r.len() implies (#[trigger] r[i]).0 != (
            #[trigger] r[j]).0 by {
                if i == 0 {
                    let t = choose|t: int|
                        0 <= t < es.drop_first().len()
                            && (#[trigger] rt[j - 1]) == es.drop_first()[t];
                    assert(r[j] == es[t + 1]);
                } else {
                    assert(rt[i - 1].0 != rt[j - 1].0);
                }
            }
        }
    }
}

/// Capability interface of a flat string-keyed store, as the typed
/// collections consume it. An implementation exposes its entries, in
/// order, and keeps their keys unique.
pub trait Storage: Sized {
    /// The stored entries, in order.
    spec fn entries(&self) -> Seq<(Seq<char>, Seq<char>)>;

    /// The implementation's own invariant.
    spec fn inv(&self) -> bool;

    /// A valid store never holds two entries with the same key.
    proof fn inv_unique_keys(&self)
        requires
            self.inv(),
        ensures
            unique_keys(self.entries()),
    ;

    /// The value stored under `key`, if any.
    fn get_item(&self, key: &str) -> (r: Option<String>)
        requires
            self.inv(),
        ensures
            match r {
                Some(v) => assoc(self.entries(), key@) == Some(v@),
                None => assoc(self.entries(), key@) is None,
            },
    ;

    /// Assigns `val` to `key`, replacing any previous value.
    fn set_item(&mut self, key: &str, val: &str)
        requires
            old(self).inv(),
        ensures
            final(self).inv(),
            final(self).entries() == set_entry(old(self).entries(), key@, val@),
    ;

    /// Removes the entry under `key`, if any.
    fn remove_item(&mut self, key: &str)
        requires
            old(self).inv(),
        ensures
            final(self).inv(),
            final(self).entries() == remove_entry(old(self).entries(), key@),
    ;

    /// Whether `key` holds a value.
    fn has_key(&self, key: &str) -> (r: bool)
        requires
            self.inv(),
        ensures
            r == (assoc(self.entries(), key@) is Some),
    ;

    /// A copy of all entries, in stored order.
    fn items(&self) -> (r: Vec<(String, String)>)
        requires
            self.inv(),
        ensures
            r.deep_view() == self.entries(),
    ;
}

/// An in-memory store: the write-back cache that fronts whatever
/// durable store the surrounding program loads it from and saves it
/// to. Lookups always read the live entry list, never a stale key
/// snapshot.
pub struct StringStore {
    inner: Vec<(String, String)>,
}

impl StringStore {
    /// An empty store.
    pub fn new() -> (r: StringStore)
        ensures
            r.inv(),
            r.entries() == Seq::<(Seq<char>, Seq<char>)>::empty(),
    {
        let inner: Vec<(String, String)> = Vec::new();
        proof {
            assert(inner.deep_view() =~= Seq::<(Seq<char>, Seq<char>)>::empty());
        }
        StringStore { inner }
    }
}

impl Storage for StringStore {
    closed spec fn entries(&self) -> Seq<(Seq<char>, Seq<char>)> {
        self.inner.deep_view()
    }

    closed spec fn inv(&self) -> bool {
        unique_keys(self.inner.deep_view())
    }

    proof fn inv_unique_keys(&self) {
    }

    fn get_item(&self, key: &str) -> (r: Option<String>) {
        let n = self.inner.len();
        let ghost es = self.inner.deep_view();
        proof {
            assert(es.len() == n);
        }
        let mut i: usize = 0;
        while i < n
            invariant
                i <= n,
                n == self.inner@.len(),
                es == self.inner.deep_view(),
                es.len() == n,
                forall|l: int| 0 <= l < i ==> (#[trigger] es[l]).0 != key@,
            decreases n - i,
        {
            proof {
                assert(es[i as int] == (self.inner@[i as int].0@, self.inner@[i as int].1@));
            }
            if str_eq(self.inner[i].0.as_str(), key) {
                let v = self.inner[i].1.clone();
                proof {
                    lemma_assoc_at(es, key@, i as int);
                }
                return Some(v);
            }
            i = i + 1;
        }
        proof {
            lemma_assoc_absent(es, key@);
        }
        None
    }

    fn set_item(&mut self, key: &str, val: &str) {
        let ghost es = self.inner.deep_view();
        let n = self.inner.len();
        let mut i: usize = 0;
        while i < n
            invariant
                i <= n,
                n == self.inner@.len(),
                es == self.inner.deep_view(),
                es.len() == n,
                unique_keys(es),
                forall|l: int| 0 <= l < i ==> (#[trigger] es[l]).0 != key@,
                self == old(self),
            decreases n - i,
        {
            proof {
                assert(es[i as int] == (self.inner@[i as int].0@, self.inner@[i as int].1@));
            }
            if str_eq(self.inner[i].0.as_str(), key) {
                self.inner.remove(i);
                self.inner.insert(i, (String::from_str(key), String::from_str(val)));
                proof {
                    lemma_set_entry_at(es, key@, val@, i as int);
                    lemma_set_entry_unique(es, key@, val@);
                    assert(self.inner.deep_view() =~= set_entry(es, key@, val@));
                }
                return ;
            }
            i = i + 1;
        }
        self.inner.push((String::from_str(key), String::from_str(val)));
        proof {
            lemma_set_entry_absent(es, key@, val@);
            lemma_set_entry_unique(es, key@, val@);
            assert(self.inner.deep_view() =~= set_entry(es, key@, val@));
        }
    }

    fn remove_item(&mut self, key: &str) {
        let ghost es = self.inner.deep_view();
        let n = self.inner.len();
        let mut i: usize = 0;
        while i < n
            invariant
                i <= n,
                n == self.inner@.len(),
                es == self.inner.deep_view(),
                es.len() == n,
                unique_keys(es),
                forall|l: int| 0 <= l < i ==> (#[trigger] es[l]).0 != key@,
                self == old(self),
            decreases n - i,
        {
            proof {
                assert(es[i as int] == (self.inner@[i as int].0@, self.inner@[i as int].1@));
            }
            if str_eq(self.inner[i].0.as_str(), key) {
                self.inner.remove(i);
                proof {
                    lemma_remove_entry_at(es, key@, i as int);
                    lemma_remove_entry_unique(es, key@);
                    assert(self.inner.deep_view() =~= remove_entry(es, key@));
                }
                return ;
            }
            i = i + 1;
        }
        proof {
            lemma_remove_entry_absent(es, key@);
            assert(self.inner.deep_view() =~= remove_entry(es, key@));
        }
    }

    fn has_key(&self, key: &str) -> (r: bool) {
        let r = self.get_item(key);
        r.is_some()
    }

    fn items(&self) -> (r: Vec<(String, String)>) {
        let n = self.inner.len();
        let mut out: Vec<(String, String)> = Vec::new();
        let mut i: usize = 0;
        while i < n
            invariant
                i <= n,
                n == self.inner@.len(),
                out@.len() == i,
                forall|l: int|
                    0 <= l < i ==> (#[trigger] out@[l]).0@ == self.inner@[l].0@ && out@[l].1@
                        == self.inner@[l].1@,
            decreases n - i,
        {
            let k = self.inner[i].0.clone();
            let v = self.inner[i].1.clone();
            proof {
                assert(k == self.inner@[i as int].0);
                assert(v == self.inner@[i as int].1);
            }
            out.push((k, v));
            i = i + 1;
        }
        proof {
            assert(out.deep_view() =~= self.inner.deep_view());
        }
        out
    }
}

/// Positional reading of an in-place assignment.
proof fn lemma_set_entry_at(es: Seq<(Seq<char>, Seq<char>)>, k: Seq<char>, v: Seq<char>, at: int)
    requires
        0 <= at < es.len(),
        es[at].0 == k,
        forall|l: int| 0 <= l < at ==> (#[trigger] es[l]).0 != k,
    ensures
        set_entry(es, k, v) == es.take(at) + seq![(k, v)] + es.skip(at + 1),
    decreases at,
{
    if at == 0 {
        assert(set_entry(es, k, v) =~= es.take(0) + seq![(k, v)] + es.skip(1));
    } else {
        assert(forall|l: int|
            0 <= l < es.drop_first().len() ==> (#[trigger] es.drop_first()[l]) == es[l + 1]);
        lemma_set_entry_at(es.drop_first(), k, v, at - 1);
        assert(set_entry(es, k, v) == seq![es[0]] + set_entry(es.drop_first(), k, v));
        assert(es.drop_first().take(at - 1) =~= es.take(at).drop_first());
        assert(es.drop_first().skip(at) =~= es.skip(at + 1));
        assert(set_entry(es, k, v) =~= es.take(at) + seq![(k, v)] + es.skip(at + 1));
    }
}

/// An assignment of an absent key appends the entry.
proof fn lemma_set_entry_absent(es: Seq<(Seq<char>, Seq<char>)>, k: Seq<char>, v: Seq<char>)
    requires
        forall|l: int| 0 <= l < es.len() ==> (#[trigger] es[l]).0 != k,
    ensures
        set_entry(es, k, v) == es + seq![(k, v)],
    decreases es.len(),
{
    if es.len() == 0 {
        assert(set_entry(es, k, v) =~= es + seq![(k, v)]);
    } else {
        assert(forall|l: int|
            0 <= l < es.drop_first().len() ==> (#[trigger] es.drop_first()[l]) == es[l + 1]);
        lemma_set_entry_absent(es.drop_first(), k, v);
        assert(set_entry(es, k, v) =~= es + seq![(k, v)]);
    }
}

/// Positional reading of a removal when keys are unique.
proof fn lemma_remove_entry_at(es: Seq<(Seq<char>, Seq<char>)>, k: Seq<char>, at: int)
    requires
        unique_keys(es),
        0 <= at < es.len(),
        es[at].0 == k,
        forall|l: int| 0 <= l < at ==> (#[trigger] es[l]).0 != k,
    ensures
        remove_entry(es, k) == es.take(at) + es.skip(at + 1),
    decreases at,
{
    if at == 0 {
        assert(forall|l: int|
            0 <= l < es.drop_first().len() ==> (#[trigger] es.drop_first()[l]) == es[l + 1]);
        lemma_remove_entry_absent(es.drop_first(), k);
        assert(remove_entry(es, k) =~= es.take(0) + es.skip(1));
    } else {
        assert(forall|l: int|
            0 <= l < es.drop_first().len() ==> (#[trigger] es.drop_first()[l]) == es[l + 1]);
        assert(unique_keys(es.drop_first()));
        lemma_remove_entry_at(es.drop_first(), k, at - 1);
        assert(remove_entry(es, k) == seq![es[0]] + remove_entry(es.drop_first(), k));
        assert(es.drop_first().take(at - 1) =~= es.take(at).drop_first());
        assert(es.drop_first().skip(at) =~= es.skip(at + 1));
        assert(remove_entry(es, k) =~= es.take(at) + es.skip(at + 1));
    }
}

/// Removing an absent key changes nothing.
proof fn lemma_remove_entry_absent(es: Seq<(Seq<char>, Seq<char>)>, k: Seq<char>)
    requires
        forall|l: int| 0 <= l < es.len() ==> (#[trigger] es[l]).0 != k,
    ensures
        remove_entry(es, k) == es,
    decreases es.len(),
{
    if es.len() > 0 {
        assert(forall|l: int|
            0 <= l < es.drop_first().len() ==> (#[trigger] es.drop_first()[l]) == es[l + 1]);
        lemma_remove_entry_absent(es.drop_first(), k);
        assert(remove_entry(es, k) =~= es);
    }
}

} // verus!
