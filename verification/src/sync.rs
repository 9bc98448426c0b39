//! Reconciliation of a local collection against a remote one: the
//! remote side diffs the caller's identifier list, the local side
//! applies the answer. The remote store is authoritative for
//! existence: records it lacks are dropped locally, records the local
//! side lacks are pulled in wholesale. The procedure carries no
//! transaction; a run cut short is completed by the next run.

use vstd::prelude::*;

use crate::collection::Collection;
use crate::ident::ID;
use crate::keys::str_eq;
use crate::record::Record;
use crate::collection::{ids_spec, list_spec};
use crate::keys::{assoc, lemma_assoc_absent};
use crate::storage::{remove_entry, set_entry, unique_keys};

verus! {

/// Whether `k` occurs in an identifier list.
pub open spec fn id_in(ids: Seq<Seq<char>>, k: Seq<char>) -> bool {
    exists|i: int| 0 <= i < ids.len() && ids[i] == k
}

/// Whether some entry of `rl` carries identifier `k`.
pub open spec fn entry_in<TV>(rl: Seq<(Seq<char>, TV)>, k: Seq<char>) -> bool {
    exists|i: int| 0 <= i < rl.len() && (#[trigger] rl[i]).0 == k
}

/// The remote entries absent from the identifier list, in order.
pub open spec fn missing_spec<TV>(rl: Seq<(Seq<char>, TV)>, ids: Seq<Seq<char>>) -> Seq<
    (Seq<char>, TV),
>
    decreases rl.len(),
{
    if rl.len() == 0 {
        Seq::empty()
    } else if id_in(ids, rl[0].0) {
        missing_spec(rl.drop_first(), ids)
    } else {
        seq![rl[0]] + missing_spec(rl.drop_first(), ids)
    }
}

/// The identifiers of the list that no remote entry carries, in order.
pub open spec fn unknown_spec<TV>(ids: Seq<Seq<char>>, rl: Seq<(Seq<char>, TV)>) -> Seq<Seq<char>>
    decreases ids.len(),
{
    if ids.len() == 0 {
        Seq::empty()
    } else if entry_in(rl, ids[0]) {
        unknown_spec(ids.drop_first(), rl)
    } else {
        seq![ids[0]] + unknown_spec(ids.drop_first(), rl)
    }
}

/// The asymmetric diff a reconciliation answers with: `missing` holds
/// the records the asking side lacks, `unknown` the identifiers it
/// holds that the answering side has never seen.
#[derive(Debug)]
pub struct SyncResponse<T> {
    pub missing: Vec<(ID, T)>,
    pub unknown: Vec<ID>,
}

/// Decides whether `k` occurs in `ids`.
fn contains_id(ids: &Vec<ID>, k: &ID) -> (r: bool)
    ensures
        r == id_in(ids.deep_view(), k@),
{
    let n = ids.len();
    let mut i: usize = 0;
    while i < n
        invariant
            i <= n,
            n == ids@.len(),
            forall|j: int| 0 <= j < i ==> ids.deep_view()[j] != k@,
        decreases n - i,
    {
        proof {
            assert(ids.deep_view()[i as int] == ids@[i as int].deep_view());
        }
        if str_eq(ids[i].as_str(), k.as_str()) {
            proof {
                assert(ids.deep_view()[i as int] == k@);
            }
            return true;
        }
        i = i + 1;
    }
    proof {
        assert(forall|j: int| 0 <= j < ids.deep_view().len() ==> ids.deep_view()[j] != k@);
    }
    false
}

/// Computes the reconciliation answer the remote side gives for a
/// local identifier list: which remote records the list lacks, and
/// which of its identifiers the remote side does not hold.
pub fn reconcile<T: Record>(local_ids: &Vec<ID>, remote: &Collection<T>) -> (r: SyncResponse<T>)
    requires
        remote.inv(),
    ensures
        r.missing.deep_view() == missing_spec(
            crate::collection::list_spec::<T>(remote.raw(), remote.prefix_spec()),
            local_ids.deep_view(),
        ),
        r.unknown.deep_view() == unknown_spec(
            local_ids.deep_view(),
            crate::collection::list_spec::<T>(remote.raw(), remote.prefix_spec()),
        ),
{
    let rl = remote.list();
    let ghost rlv = rl.deep_view();
    let ghost idsv = local_ids.deep_view();
    let n = rl.len();
    let mut missing: Vec<(ID, T)> = Vec::new();
    proof {
        assert(rlv.skip(0) =~= rlv);
        assert(missing.deep_view() =~= Seq::<(Seq<char>, T::V)>::empty());
        assert(missing.deep_view() + missing_spec(rlv, idsv) =~= missing_spec(rlv, idsv));
    }
    let mut i: usize = 0;
    while i < n
        invariant
            i <= n,
            n == rl@.len(),
            rlv == rl.deep_view(),
            idsv == local_ids.deep_view(),
            missing.deep_view() + missing_spec(rlv.skip(i as int), idsv) == missing_spec(
                rlv,
                idsv,
            ),
        decreases n - i,
    {
        proof {
            assert(rlv[i as int] == (rl@[i as int].0.deep_view(), rl@[i as int].1.deep_view()));
            assert(rlv.skip(i as int)[0] == rlv[i as int]);
            assert(rlv.skip(i as int).drop_first() =~= rlv.skip(i + 1));
        }
        if !contains_id(local_ids, &rl[i].0) {
            let rid = rl[i].0.duplicate();
            let rv = rl[i].1.duplicate();
            missing.push((rid, rv));
            proof {
                assert(missing.deep_view() =~= missing.deep_view().take(
                    missing.deep_view().len() - 1,
                ).push(rlv[i as int]));
                assert(missing.deep_view() + missing_spec(rlv.skip(i + 1), idsv)
                    =~= missing_spec(rlv, idsv));
            }
        } else {
            proof {
                assert(missing.deep_view() + missing_spec(rlv.skip(i + 1), idsv)
                    =~= missing_spec(rlv, idsv));
            }
        }
        i = i + 1;
    }
    proof {
        assert(rlv.skip(n as int).len() == 0);
        assert(missing.deep_view() =~= missing_spec(rlv, idsv));
    }
    let m = local_ids.len();
    let mut unknown: Vec<ID> = Vec::new();
    proof {
        assert(idsv.skip(0) =~= idsv);
        assert(unknown.deep_view() =~= Seq::<Seq<char>>::empty());
        assert(unknown.deep_view() + unknown_spec(idsv, rlv) =~= unknown_spec(idsv, rlv));
    }
    let mut t: usize = 0;
    while t < m
        invariant
            t <= m,
            m == local_ids@.len(),
            rlv == rl.deep_view(),
            idsv == local_ids.deep_view(),
            unknown.deep_view() + unknown_spec(idsv.skip(t as int), rlv) == unknown_spec(
                idsv,
                rlv,
            ),
        decreases m - t,
    {
        proof {
            assert(idsv[t as int] == local_ids@[t as int].deep_view());
            assert(idsv.skip(t as int)[0] == idsv[t as int]);
            assert(idsv.skip(t as int).drop_first() =~= idsv.skip(t + 1));
        }
        if !contains_entry(&rl, &local_ids[t]) {
            let rid = local_ids[t].duplicate();
            unknown.push(rid);
            proof {
                assert(unknown.deep_view() =~= unknown.deep_view().take(
                    unknown.deep_view().len() - 1,
                ).push(idsv[t as int]));
                assert(unknown.deep_view() + unknown_spec(idsv.skip(t + 1), rlv)
                    =~= unknown_spec(idsv, rlv));
            }
        } else {
            proof {
                assert(unknown.deep_view() + unknown_spec(idsv.skip(t + 1), rlv)
                    =~= unknown_spec(idsv, rlv));
            }
        }
        t = t + 1;
    }
    proof {
        assert(idsv.skip(m as int).len() == 0);
        assert(unknown.deep_view() =~= unknown_spec(idsv, rlv));
    }
    SyncResponse { missing, unknown }
}

/// Decides whether some entry of `rl` carries identifier `k`.
fn contains_entry<T: Record>(rl: &Vec<(ID, T)>, k: &ID) -> (r: bool)
    ensures
        r == entry_in(rl.deep_view(), k@),
{
    let n = rl.len();
    let mut i: usize = 0;
    while i < n
        invariant
            i <= n,
            n == rl@.len(),
            forall|j: int| 0 <= j < i ==> (#[trigger] rl.deep_view()[j]).0 != k@,
        decreases n - i,
    {
        proof {
            assert(rl.deep_view()[i as int] == (
                rl@[i as int].0.deep_view(),
                rl@[i as int].1.deep_view(),
            ));
        }
        if str_eq(rl[i].0.as_str(), k.as_str()) {
            proof {
                assert((rl.deep_view()[i as int]).0 == k@);
            }
            return true;
        }
        i = i + 1;
    }
    false
}

/// The entry list after assigning, in order, each listed record under
/// its prefixed key.
pub open spec fn apply_assigns<T: Record>(
    es: Seq<(Seq<char>, Seq<char>)>,
    prefix: Seq<char>,
    items: Seq<(Seq<char>, T::V)>,
) -> Seq<(Seq<char>, Seq<char>)>
    decreases items.len(),
{
    if items.len() == 0 {
        es
    } else {
        apply_assigns::<T>(
            set_entry(es, prefix + items[0].0, T::encode_of(items[0].1)),
            prefix,
            items.drop_first(),
        )
    }
}

/// The entry list after removing, in order, each listed identifier's
/// prefixed key.
pub open spec fn apply_removes(
    es: Seq<(Seq<char>, Seq<char>)>,
    prefix: Seq<char>,
    ids: Seq<Seq<char>>,
) -> Seq<(Seq<char>, Seq<char>)>
    decreases ids.len(),
{
    if ids.len() == 0 {
        es
    } else {
        apply_removes(remove_entry(es, prefix + ids[0]), prefix, ids.drop_first())
    }
}


/// A key occurs among the entries exactly when its lookup succeeds.
proof fn lemma_entry_in_assoc<V>(es: Seq<(Seq<char>, V)>, k: Seq<char>)
    ensures
        entry_in(es, k) <==> assoc(es, k) is Some,
    decreases es.len(),
{
    if es.len() > 0 {
        lemma_entry_in_assoc(es.drop_first(), k);
        assert(forall|i: int|
            0 <= i < es.drop_first().len() ==> (#[trigger] es.drop_first()[i]) == es[i + 1]);
        if es[0].0 == k {
            assert(entry_in(es, k));
        } else {
            if entry_in(es, k) {
                let i = choose|i: int| 0 <= i < es.len() && (#[trigger] es[i]).0 == k;
                assert(es.drop_first()[i - 1].0 == k);
                assert(entry_in(es.drop_first(), k));
            }
            if entry_in(es.drop_first(), k) {
                let i = choose|i: int|
                    0 <= i < es.drop_first().len() && (#[trigger] es.drop_first()[i]).0 == k;
                assert(es[i + 1].0 == k);
                assert(entry_in(es, k));
            }
        }
    }
}

/// Appending a common prefix to two keys keeps them apart.
proof fn lemma_prefix_cancel(prefix: Seq<char>, a: Seq<char>, b: Seq<char>)
    requires
        prefix + a == prefix + b,
    ensures
        a == b,
{
    assert((prefix + a).skip(prefix.len() as int) =~= a);
    assert((prefix + b).skip(prefix.len() as int) =~= b);
}

/// Membership in a non-empty identifier list, read off its head.
proof fn lemma_id_in_cons(ids: Seq<Seq<char>>, k: Seq<char>)
    requires
        ids.len() > 0,
    ensures
        id_in(ids, k) <==> (ids[0] == k || id_in(ids.drop_first(), k)),
{
    assert(forall|i: int|
        0 <= i < ids.drop_first().len() ==> (#[trigger] ids.drop_first()[i]) == ids[i + 1]);
    if id_in(ids, k) {
        let i = choose|i: int| 0 <= i < ids.len() && ids[i] == k;
        if i > 0 {
            assert(ids.drop_first()[i - 1] == k);
        }
    }
    if id_in(ids.drop_first(), k) {
        let i = choose|i: int| 0 <= i < ids.drop_first().len() && ids.drop_first()[i] == k;
        assert(ids[i + 1] == k);
    }
    if ids[0] == k {
        assert(id_in(ids, k));
    }
}

/// How the missing list answers lookups: an identifier the asking side
/// holds is never in it; any other identifier answers as in the
/// remote record list.
proof fn lemma_missing_assoc<TV>(rl: Seq<(Seq<char>, TV)>, ids: Seq<Seq<char>>, k: Seq<char>)
    ensures
        assoc(missing_spec(rl, ids), k) == (if id_in(ids, k) {
            None
        } else {
            assoc(rl, k)
        }),
    decreases rl.len(),
{
    if rl.len() > 0 {
        lemma_missing_assoc(rl.drop_first(), ids, k);
        let m = missing_spec(rl, ids);
        if id_in(ids, rl[0].0) {
            if rl[0].0 == k {
                assert(id_in(ids, k));
            }
        } else {
            assert(m == seq![rl[0]] + missing_spec(rl.drop_first(), ids));
            assert(m[0] == rl[0]);
            assert(m.drop_first() =~= missing_spec(rl.drop_first(), ids));
        }
    }
}

/// The missing list keeps remote identifiers unique.
proof fn lemma_missing_unique<TV>(rl: Seq<(Seq<char>, TV)>, ids: Seq<Seq<char>>)
    requires
        unique_keys(rl),
    ensures
        unique_keys(missing_spec(rl, ids)),
    decreases rl.len(),
{
    if rl.len() > 0 {
        assert(forall|i: int|
            0 <= i < rl.drop_first().len() ==> (#[trigger] rl.drop_first()[i]) == rl[i + 1]);
        lemma_missing_unique(rl.drop_first(), ids);
        if !id_in(ids, rl[0].0) {
            let m = missing_spec(rl, ids);
            let mt = missing_spec(rl.drop_first(), ids);
            assert(m == seq![rl[0]] + mt);
            assert(m[0] == rl[0]);
            assert(forall|i: int| 1 <= i < m.len() ==> (#[trigger] m[i]) == mt[i - 1]);
            assert(!entry_in(mt, rl[0].0)) by {
                lemma_entry_in_assoc(mt, rl[0].0);
                lemma_missing_assoc(rl.drop_first(), ids, rl[0].0);
                lemma_entry_in_assoc(rl.drop_first(), rl[0].0);
                if entry_in(rl.drop_first(), rl[0].0) {
                    let i = choose|i: int|
                        0 <= i < rl.drop_first().len()
                            && (#[trigger] rl.drop_first()[i]).0 == rl[0].0;
                    assert(rl[i + 1].0 == rl[0].0);
                    assert(false);
                }
            }
            assert forall|i: int, j: int| 0 <= i < j < m.len() implies (#[trigger] m[i]).0 != (
            #[trigger] m[j]).0 by {
                if i == 0 {
                    assert(m[j] == mt[j - 1]);
                    if m[j].0 == rl[0].0 {
                        assert(entry_in(mt, rl[0].0));
                    }
                } else {
                    assert(mt[i - 1].0 != mt[j - 1].0);
                }
            }
        }
    }
}

/// How the entry list answers lookups after the missing records are
/// assigned: an assigned identifier maps to its record's encoding,
/// every other key is untouched.
proof fn lemma_apply_assigns_assoc<T: Record>(
    es: Seq<(Seq<char>, Seq<char>)>,
    prefix: Seq<char>,
    items: Seq<(Seq<char>, T::V)>,
    k: Seq<char>,
)
    requires
        unique_keys(items),
    ensures
        assoc(apply_assigns::<T>(es, prefix, items), prefix + k) == (match assoc(items, k) {
            Some(v) => Some(T::encode_of(v)),
            None => assoc(es, prefix + k),
        }),
    decreases items.len(),
{
    if items.len() > 0 {
        assert(forall|i: int|
            0 <= i < items.drop_first().len() ==> (#[trigger] items.drop_first()[i]) == items[i
                + 1]);
        let es1 = set_entry(es, prefix + items[0].0, T::encode_of(items[0].1));
        lemma_apply_assigns_assoc::<T>(es1, prefix, items.drop_first(), k);
        crate::storage::lemma_set_entry_assoc(
            es,
            prefix + items[0].0,
            T::encode_of(items[0].1),
            prefix + k,
        );
        if items[0].0 == k {
            assert(forall|l: int|
                0 <= l < items.drop_first().len() ==> (#[trigger] items.drop_first()[l]).0 != k);
            lemma_assoc_absent(items.drop_first(), k);
        } else {
            if prefix + items[0].0 == prefix + k {
                lemma_prefix_cancel(prefix, items[0].0, k);
            }
        }
    }
}

/// How the entry list answers lookups after the unknown identifiers
/// are removed: a removed identifier is absent, every other key is
/// untouched.
proof fn lemma_apply_removes_assoc(
    es: Seq<(Seq<char>, Seq<char>)>,
    prefix: Seq<char>,
    ids: Seq<Seq<char>>,
    k: Seq<char>,
)
    ensures
        assoc(apply_removes(es, prefix, ids), prefix + k) == (if id_in(ids, k) {
            None
        } else {
            assoc(es, prefix + k)
        }),
    decreases ids.len(),
{
    if ids.len() == 0 {
        assert(!id_in(ids, k));
    } else {
        let es1 = remove_entry(es, prefix + ids[0]);
        lemma_apply_removes_assoc(es1, prefix, ids.drop_first(), k);
        crate::storage::lemma_remove_entry_assoc(es, prefix + ids[0], prefix + k);
        lemma_id_in_cons(ids, k);
        if ids[0] != k {
            if prefix + ids[0] == prefix + k {
                lemma_prefix_cancel(prefix, ids[0], k);
            }
        }
    }
}

/// Which identifiers the unknown list holds: exactly those of the
/// asking side that name no remote record.
proof fn lemma_unknown_in<TV>(ids: Seq<Seq<char>>, rl: Seq<(Seq<char>, TV)>, k: Seq<char>)
    ensures
        id_in(unknown_spec(ids, rl), k) <==> (id_in(ids, k) && !entry_in(rl, k)),
    decreases ids.len(),
{
    if ids.len() == 0 {
        assert(!id_in(unknown_spec(ids, rl), k));
        assert(!id_in(ids, k));
    } else {
        lemma_unknown_in(ids.drop_first(), rl, k);
        lemma_id_in_cons(ids, k);
        let u = unknown_spec(ids, rl);
        if entry_in(rl, ids[0]) {
            assert(u == unknown_spec(ids.drop_first(), rl));
        } else {
            assert(u == seq![ids[0]] + unknown_spec(ids.drop_first(), rl));
            assert(u.len() > 0);
            assert(u[0] == ids[0]);
            assert(u.drop_first() =~= unknown_spec(ids.drop_first(), rl));
            lemma_id_in_cons(u, k);
        }
    }
}

/// Every key an entry list holds under the prefix contributes its
/// stripped identifier to the identifier list.
proof fn lemma_ids_spec_complete(es: Seq<(Seq<char>, Seq<char>)>, prefix: Seq<char>, k: Seq<char>)
    ensures
        assoc(es, prefix + k) is Some ==> id_in(ids_spec(es, prefix), k),
    decreases es.len(),
{
    if es.len() > 0 {
        lemma_ids_spec_complete(es.drop_first(), prefix, k);
        let idsx = ids_spec(es, prefix);
        if es[0].0 == prefix + k {
            assert(prefix.is_prefix_of(es[0].0)) by {
                assert((prefix + k).subrange(0, prefix.len() as int) =~= prefix);
            }
            assert(idsx[0] == es[0].0.skip(prefix.len() as int));
            assert((prefix + k).skip(prefix.len() as int) =~= k);
            assert(idsx[0] == k);
            assert(id_in(idsx, k));
        } else {
            if assoc(es.drop_first(), prefix + k) is Some {
                let tl = ids_spec(es.drop_first(), prefix);
                let i = choose|i: int| 0 <= i < tl.len() && tl[i] == k;
                if prefix.is_prefix_of(es[0].0) {
                    assert(idsx == seq![es[0].0.skip(prefix.len() as int)] + tl);
                    assert(idsx[i + 1] == k);
                    assert(id_in(idsx, k));
                } else {
                    assert(idsx == tl);
                }
            }
        }
    }
}

/// A record named by the decoded list answers to an entry of the
/// store, under its prefixed key.
proof fn lemma_list_spec_entry<T: Record>(
    es: Seq<(Seq<char>, Seq<char>)>,
    prefix: Seq<char>,
    k: Seq<char>,
)
    ensures
        entry_in(list_spec::<T>(es, prefix), k) ==> exists|j: int|
            0 <= j < es.len() && (#[trigger] es[j]).0 == prefix + k,
    decreases es.len(),
{
    if es.len() > 0 {
        lemma_list_spec_entry::<T>(es.drop_first(), prefix, k);
        let l = list_spec::<T>(es, prefix);
        let lt = list_spec::<T>(es.drop_first(), prefix);
        if entry_in(l, k) {
            let i = choose|i: int| 0 <= i < l.len() && (#[trigger] l[i]).0 == k;
            let headed = prefix.is_prefix_of(es[0].0) && T::decode_of(es[0].1) is Some;
            if headed {
                assert(l == seq![(es[0].0.skip(prefix.len() as int), T::decode_of(es[0].1)->0)]
                    + lt);
                if i == 0 {
                    assert(es[0].0 =~= prefix + es[0].0.skip(prefix.len() as int));
                    assert(es[0].0 == prefix + k);
                } else {
                    assert(l[i] == lt[i - 1]);
                    assert(entry_in(lt, k));
                    let j = choose|j: int|
                        0 <= j < es.drop_first().len() && (#[trigger] es.drop_first()[j]).0
                            == prefix + k;
                    assert(es[j + 1].0 == prefix + k);
                }
            } else {
                assert(l == lt);
                assert(entry_in(lt, k));
                let j = choose|j: int|
                    0 <= j < es.drop_first().len() && (#[trigger] es.drop_first()[j]).0 == prefix
                        + k;
                assert(es[j + 1].0 == prefix + k);
            }
        }
    }
}

/// A store with unique keys decodes to a record list with unique
/// identifiers.
proof fn lemma_list_spec_unique<T: Record>(es: Seq<(Seq<char>, Seq<char>)>, prefix: Seq<char>)
    requires
        unique_keys(es),
    ensures
        unique_keys(list_spec::<T>(es, prefix)),
    decreases es.len(),
{
    if es.len() > 0 {
        assert(forall|i: int|
            0 <= i < es.drop_first().len() ==> (#[trigger] es.drop_first()[i]) == es[i + 1]);
        lemma_list_spec_unique::<T>(es.drop_first(), prefix);
        let l = list_spec::<T>(es, prefix);
        let lt = list_spec::<T>(es.drop_first(), prefix);
        let headed = prefix.is_prefix_of(es[0].0) && T::decode_of(es[0].1) is Some;
        if headed {
            let k0 = es[0].0.skip(prefix.len() as int);
            assert(l == seq![(k0, T::decode_of(es[0].1)->0)] + lt);
            assert(l[0].0 == k0);
            assert(forall|i: int| 1 <= i < l.len() ==> (#[trigger] l[i]) == lt[i - 1]);
            assert(!entry_in(lt, k0)) by {
                if entry_in(lt, k0) {
                    lemma_list_spec_entry::<T>(es.drop_first(), prefix, k0);
                    let j = choose|j: int|
                        0 <= j < es.drop_first().len() && (#[trigger] es.drop_first()[j]).0
                            == prefix + k0;
                    assert(es[0].0 =~= prefix + k0);
                    assert(es[j + 1].0 == es[0].0);
                    assert(false);
                }
            }
            assert forall|i: int, j: int| 0 <= i < j < l.len() implies (#[trigger] l[i]).0 != (
            #[trigger] l[j]).0 by {
                if i == 0 {
                    assert(l[j] == lt[j - 1]);
                    if l[j].0 == k0 {
                        assert(entry_in(lt, k0));
                    }
                } else {
                    assert(lt[i - 1].0 != lt[j - 1].0);
                }
            }
        }
    }
}

/// Reconciliation converges in one full round: after the answer to
/// the local identifier list is applied, a record exists locally
/// exactly where the remote record list holds it; a record both sides
/// held keeps the local entry, and a pulled-in record holds the
/// remote record's encoding.
pub proof fn lemma_reconcile_converges<T: Record>(
    local_raw: Seq<(Seq<char>, Seq<char>)>,
    remote_raw: Seq<(Seq<char>, Seq<char>)>,
    prefix: Seq<char>,
    k: Seq<char>,
)
    requires
        unique_keys(local_raw),
        unique_keys(remote_raw),
    ensures
        ({
            let rl = list_spec::<T>(remote_raw, prefix);
            let ids = ids_spec(local_raw, prefix);
            let fin = apply_removes(
                apply_assigns::<T>(local_raw, prefix, missing_spec(rl, ids)),
                prefix,
                unknown_spec(ids, rl),
            );
            &&& (!entry_in(rl, k) ==> assoc(fin, prefix + k) is None)
            &&& (entry_in(rl, k) && id_in(ids, k) ==> assoc(fin, prefix + k) == assoc(
                local_raw,
                prefix + k,
            ))
            &&& (entry_in(rl, k) && !id_in(ids, k) ==> assoc(fin, prefix + k) == Some(
                T::encode_of(assoc(rl, k)->0),
            ))
        }),
{
    let rl = list_spec::<T>(remote_raw, prefix);
    let ids = ids_spec(local_raw, prefix);
    let miss = missing_spec(rl, ids);
    let unk = unknown_spec(ids, rl);
    let mid = apply_assigns::<T>(local_raw, prefix, miss);
    let fin = apply_removes(mid, prefix, unk);
    lemma_list_spec_unique::<T>(remote_raw, prefix);
    lemma_missing_unique(rl, ids);
    lemma_apply_assigns_assoc::<T>(local_raw, prefix, miss, k);
    lemma_missing_assoc(rl, ids, k);
    lemma_apply_removes_assoc(mid, prefix, unk, k);
    lemma_unknown_in(ids, rl, k);
    lemma_entry_in_assoc(rl, k);
    if !entry_in(rl, k) {
        if id_in(ids, k) {
            assert(id_in(unk, k));
        } else {
            assert(assoc(miss, k) is None);
            lemma_ids_spec_complete(local_raw, prefix, k);
            assert(assoc(local_raw, prefix + k) is None);
        }
    }
}

impl<T: Record> Collection<T> {
    /// Overwrites the local collection with a full remote record set:
    /// every remote record is stored locally, the remote value always
    /// winning. No document merge happens on this path.
    pub fn sync(&mut self, remote: Vec<(ID, T)>)
        requires
            old(self).inv(),
        ensures
            final(self).inv(),
            final(self).raw() == apply_assigns::<T>(
                old(self).raw(),
                old(self).prefix_spec(),
                remote.deep_view(),
            ),
            final(self).prefix_spec() == old(self).prefix_spec(),
            final(self).sub_count() == old(self).sub_count(),
            forall|i: int|
                0 <= i < old(self).sub_count() ==> final(self).sub_active(i) == old(
                    self,
                ).sub_active(i),
            forall|i: int|
                0 <= i < old(self).sub_count() ==> old(self).sub_queue(i).is_prefix_of(
                    final(self).sub_queue(i),
                ),
    {
        let ghost rv = remote.deep_view();
        let n = remote.len();
        proof {
            assert(rv.skip(0) =~= rv);
        }
        let mut i: usize = 0;
        while i < n
            invariant
                i <= n,
                n == remote@.len(),
                rv == remote.deep_view(),
                self.inv(),
                self.prefix_spec() == old(self).prefix_spec(),
                self.sub_count() == old(self).sub_count(),
                apply_assigns::<T>(self.raw(), self.prefix_spec(), rv.skip(i as int))
                    == apply_assigns::<T>(old(self).raw(), old(self).prefix_spec(), rv),
                forall|s: int|
                    0 <= s < old(self).sub_count() ==> self.sub_active(s) == old(self).sub_active(
                        s,
                    ),
                forall|s: int|
                    0 <= s < old(self).sub_count() ==> old(self).sub_queue(s).is_prefix_of(
                        self.sub_queue(s),
                    ),
            decreases n - i,
        {
            let ghost pre = self.raw();
            proof {
                assert(rv[i as int] == (
                    remote@[i as int].0.deep_view(),
                    remote@[i as int].1.deep_view(),
                ));
                assert(rv.skip(i as int)[0] == rv[i as int]);
                assert(rv.skip(i as int).drop_first() =~= rv.skip(i + 1));
            }
            self.set(&remote[i].0, &remote[i].1);
            proof {
                assert(apply_assigns::<T>(pre, self.prefix_spec(), rv.skip(i as int))
                    == apply_assigns::<T>(self.raw(), self.prefix_spec(), rv.skip(i + 1)));
                assert forall|s: int|
                    0 <= s < old(self).sub_count() implies old(self).sub_queue(s).is_prefix_of(
                    self.sub_queue(s),
                ) by {
                    assert(old(self).sub_queue(s).len() <= self.sub_queue(s).len());
                }
            }
            i = i + 1;
        }
        proof {
            assert(rv.skip(n as int).len() == 0);
        }
    }

    /// Applies a reconciliation answer: pulls in each missing record,
    /// then drops each unknown identifier. The remote side thereby
    /// stays authoritative for which records exist.
    pub fn apply_sync(&mut self, resp: SyncResponse<T>)
        requires
            old(self).inv(),
        ensures
            final(self).inv(),
            final(self).raw() == apply_removes(
                apply_assigns::<T>(
                    old(self).raw(),
                    old(self).prefix_spec(),
                    resp.missing.deep_view(),
                ),
                old(self).prefix_spec(),
                resp.unknown.deep_view(),
            ),
            final(self).prefix_spec() == old(self).prefix_spec(),
            final(self).sub_count() == old(self).sub_count(),
            forall|i: int|
                0 <= i < old(self).sub_count() ==> final(self).sub_active(i) == old(
                    self,
                ).sub_active(i),
            forall|i: int|
                0 <= i < old(self).sub_count() ==> old(self).sub_queue(i).is_prefix_of(
                    final(self).sub_queue(i),
                ),
    {
        let SyncResponse { missing, unknown } = resp;
        let ghost mv = missing.deep_view();
        let ghost uv = unknown.deep_view();
        self.sync(missing);
        let ghost mid = self.raw();
        let n = unknown.len();
        proof {
            assert(uv.skip(0) =~= uv);
            assert(mid == apply_assigns::<T>(old(self).raw(), old(self).prefix_spec(), mv));
        }
        let mut i: usize = 0;
        while i < n
            invariant
                i <= n,
                n == unknown@.len(),
                uv == unknown.deep_view(),
                self.inv(),
                self.prefix_spec() == old(self).prefix_spec(),
                self.sub_count() == old(self).sub_count(),
                apply_removes(self.raw(), self.prefix_spec(), uv.skip(i as int)) == apply_removes(
                    apply_assigns::<T>(old(self).raw(), old(self).prefix_spec(), mv),
                    old(self).prefix_spec(),
                    uv,
                ),
                forall|s: int|
                    0 <= s < old(self).sub_count() ==> self.sub_active(s) == old(self).sub_active(
                        s,
                    ),
                forall|s: int|
                    0 <= s < old(self).sub_count() ==> old(self).sub_queue(s).is_prefix_of(
                        self.sub_queue(s),
                    ),
            decreases n - i,
        {
            let ghost pre = self.raw();
            proof {
                assert(uv[i as int] == unknown@[i as int].deep_view());
                assert(uv.skip(i as int)[0] == uv[i as int]);
                assert(uv.skip(i as int).drop_first() =~= uv.skip(i + 1));
            }
            self.drop(&unknown[i]);
            proof {
                assert(apply_removes(pre, self.prefix_spec(), uv.skip(i as int)) == apply_removes(
                    self.raw(),
                    self.prefix_spec(),
                    uv.skip(i + 1),
                ));
                assert forall|s: int|
                    0 <= s < old(self).sub_count() implies old(self).sub_queue(s).is_prefix_of(
                    self.sub_queue(s),
                ) by {
                    assert(old(self).sub_queue(s).len() <= self.sub_queue(s).len());
                }
            }
            i = i + 1;
        }
        proof {
            assert(uv.skip(n as int).len() == 0);
        }
    }
}

} // verus!
