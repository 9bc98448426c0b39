//! The document-level store: content-addressed records kept directly
//! in a flat store, with merge-based updates.
//!
//! A record's key is derived from its serialized content, so a merge
//! that changes the content writes under a new identifier and leaves
//! the entry under the old identifier untouched; callers must keep the
//! returned identifier.

use vstd::prelude::*;

use crate::codec::{deserialize_spec, ser};
use crate::doc::{merge_spec, Doc, DocV};
use crate::ident::{base64_of, sha256_of, ID};
use crate::keys::assoc;
use crate::storage::{remove_entry, set_entry, Storage, StringStore};
use vstd::string::StringSliceAdditionalSpecFns;

verus! {

/// The identifier a document is stored under: derived from the UTF-8
/// bytes of its serialized text.
pub open spec fn content_id(v: DocV) -> Seq<char> {
    base64_of(sha256_of(vstd::utf8::encode_utf8(ser(v))))
}

/// The value if the provided identifier is present: its entry decoded,
/// with an entry that does not decode reported as absent.
pub fn get(store: &StringStore, id: &ID) -> (r: Option<Doc>)
    requires
        store.inv(),
    ensures
        match r {
            Some(d) => {
                &&& assoc(store.entries(), id@) is Some
                &&& deserialize_spec(assoc(store.entries(), id@)->0) == Some(d@)
            },
            None => match assoc(store.entries(), id@) {
                Some(s) => deserialize_spec(s) is None,
                None => true,
            },
        },
{
    match store.get_item(id.as_str()) {
        Some(s) => Doc::from_str(s.as_str()),
        None => None,
    }
}

/// Inserts a document under its content-derived identifier and
/// returns that identifier.
pub fn put(store: &mut StringStore, data: &Doc) -> (r: ID)
    requires
        old(store).inv(),
    ensures
        final(store).inv(),
        r@ == content_id(data@),
        final(store).entries() == set_entry(old(store).entries(), content_id(data@), ser(data@)),
{
    let value = data.emit();
    let id = ID::gen(value.as_str());
    store.set_item(id.as_str(), value.as_str());
    id
}

/// Updates the record under `id` with the overlay strategy: the
/// stored document, merged with `doc` (stored side winning), is put
/// back content-addressed, and the new identifier is returned. An
/// absent or undecodable record is left alone and reported as `None`.
pub fn update(store: &mut StringStore, id: &ID, doc: &Doc) -> (r: Option<ID>)
    requires
        old(store).inv(),
    ensures
        final(store).inv(),
        match assoc(old(store).entries(), id@) {
            Some(s) => match deserialize_spec(s) {
                Some(cur) => {
                    &&& r is Some
                    &&& r->0@ == content_id(merge_spec(cur, doc@))
                    &&& final(store).entries() == set_entry(
                        old(store).entries(),
                        content_id(merge_spec(cur, doc@)),
                        ser(merge_spec(cur, doc@)),
                    )
                },
                None => r is None && *final(store) == *old(store),
            },
            None => r is None && *final(store) == *old(store),
        },
{
    match get(store, id) {
        Some(orig) => {
            let merged = orig.merge(doc);
            Some(put(store, &merged))
        },
        None => None,
    }
}

/// Drops the record under `id`; an absent identifier changes nothing.
pub fn drop(store: &mut StringStore, id: &ID)
    requires
        old(store).inv(),
    ensures
        final(store).inv(),
        final(store).entries() == remove_entry(old(store).entries(), id@),
{
    store.remove_item(id.as_str());
}

/// The documents the store's entries decode to, in store order;
/// entries that do not decode are passed over.
pub open spec fn docs_spec(es: Seq<(Seq<char>, Seq<char>)>) -> Seq<DocV>
    decreases es.len(),
{
    if es.len() == 0 {
        Seq::empty()
    } else {
        let rest = docs_spec(es.drop_first());
        match deserialize_spec(es[0].1) {
            Some(v) => seq![v] + rest,
            None => rest,
        }
    }
}

proof fn lemma_docs_spec_snoc(es: Seq<(Seq<char>, Seq<char>)>, e: (Seq<char>, Seq<char>))
    ensures
        docs_spec(es.push(e)) == docs_spec(es) + (match deserialize_spec(e.1) {
            Some(v) => seq![v],
            None => Seq::empty(),
        }),
    decreases es.len(),
{
    if es.len() == 0 {
        assert(es.push(e)[0] == e);
        assert(es.push(e).drop_first() =~= Seq::<(Seq<char>, Seq<char>)>::empty());
        assert(es.push(e).drop_first() == Seq::<(Seq<char>, Seq<char>)>::empty());
        assert(docs_spec(es.push(e).drop_first()) == Seq::<DocV>::empty());
        assert(docs_spec(es) == Seq::<DocV>::empty());
        assert(docs_spec(es.push(e)) =~= docs_spec(es) + (match deserialize_spec(e.1) {
            Some(v) => seq![v],
            None => Seq::<DocV>::empty(),
        }));
    } else {
        assert(es.push(e)[0] == es[0]);
        assert(es.push(e).drop_first() =~= es.drop_first().push(e));
        lemma_docs_spec_snoc(es.drop_first(), e);
        assert(docs_spec(es.push(e)) =~= docs_spec(es) + (match deserialize_spec(e.1) {
            Some(v) => seq![v],
            None => Seq::<DocV>::empty(),
        }));
    }
}

/// Returns the list of documents in the store.
pub fn list(store: &StringStore) -> (r: Vec<Doc>)
    requires
        store.inv(),
    ensures
        r.deep_view() == docs_spec(store.entries()),
{
    let items = store.items();
    let n = items.len();
    let mut out: Vec<Doc> = Vec::new();
    let mut i: usize = 0;
    while i < n
        invariant
            i <= n,
            n == items@.len(),
            items.deep_view() == store.entries(),
            out.deep_view() == docs_spec(store.entries().take(i as int)),
        decreases n - i,
    {
        let ghost prev = store.entries().take(i as int);
        proof {
            assert(store.entries().take(i + 1) =~= prev.push(store.entries()[i as int]));
            assert(items.deep_view()[i as int] == (items@[i as int].0@, items@[i as int].1@));
            lemma_docs_spec_snoc(prev, store.entries()[i as int]);
        }
        match Doc::from_str(items[i].1.as_str()) {
            Some(d) => {
                out.push(d);
                proof {
                    assert(out.deep_view() =~= docs_spec(store.entries().take(i + 1)));
                }
            },
            None => {
                proof {
                    assert(out.deep_view() =~= docs_spec(store.entries().take(i + 1)));
                }
            },
        }
        i = i + 1;
    }
    proof {
        assert(store.entries().take(n as int) =~= store.entries());
    }
    out
}

} // verus!
