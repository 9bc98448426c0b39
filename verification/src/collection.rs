//! Typed collections: a prefixed, typed view over the flat store, with
//! change notification for local mutations.

use vstd::prelude::*;

use crate::ident::ID;
use crate::keys::{assoc, str_starts_with};
use crate::record::Record;
use crate::storage::{remove_entry, set_entry, Storage, StringStore};

verus! {

/// A change of one record: a record was created or overwritten, or a
/// record was removed.
#[derive(Debug)]
pub enum StorageEvent<T> {
    Assign(ID, T),
    Delete(ID),
}

/// Model of an event: the identifier's characters and, for an
/// assignment, the record's model.
pub enum EventV<V> {
    Assign(Seq<char>, V),
    Delete(Seq<char>),
}

impl<T: DeepView> DeepView for StorageEvent<T> {
    type V = EventV<T::V>;

    open spec fn deep_view(&self) -> EventV<T::V> {
        match self {
            StorageEvent::Assign(id, t) => EventV::Assign(id.deep_view(), t.deep_view()),
            StorageEvent::Delete(id) => EventV::Delete(id.deep_view()),
        }
    }
}

impl<T: DeepView> View for StorageEvent<T> {
    type V = EventV<T::V>;

    open spec fn view(&self) -> EventV<T::V> {
        self.deep_view()
    }
}

/// The identifier an event speaks of.
pub open spec fn event_id<V>(e: EventV<V>) -> Seq<char> {
    match e {
        EventV::Assign(id, _) => id,
        EventV::Delete(id) => id,
    }
}

impl<T: DeepView> StorageEvent<T> {
    /// The identifier of the record this event speaks of.
    pub fn id(&self) -> (r: &ID)
        ensures
            r@ == event_id(self.deep_view()),
    {
        match self {
            StorageEvent::Assign(id, _) => id,
            StorageEvent::Delete(id) => id,
        }
    }
}

impl<T: Record> StorageEvent<T> {
    /// Copies the event, keeping its model.
    pub fn duplicate(&self) -> (r: StorageEvent<T>)
        ensures
            r.deep_view() == self.deep_view(),
    {
        match self {
            StorageEvent::Assign(id, t) => StorageEvent::Assign(id.duplicate(), t.duplicate()),
            StorageEvent::Delete(id) => StorageEvent::Delete(id.duplicate()),
        }
    }
}

/// One subscriber's registration: whether it still listens, and the
/// events addressed to it that it has not yet taken.
pub struct Subscription<T> {
    active: bool,
    pending: Vec<StorageEvent<T>>,
}

/// A typed collection: each record of type `T` is one entry of the
/// underlying store, under the collection's key prefix. Mutations feed
/// every active subscriber's event queue.
pub struct Collection<T: Record> {
    store: StringStore,
    prefix: String,
    subs: Vec<Subscription<T>>,
}

/// The records a collection's entries decode to, in store order: an
/// entry under the prefix yields its stripped identifier and decoded
/// record; an entry that does not decode is passed over.
pub open spec fn list_spec<T: Record>(
    es: Seq<(Seq<char>, Seq<char>)>,
    prefix: Seq<char>,
) -> Seq<(Seq<char>, T::V)>
    decreases es.len(),
{
    if es.len() == 0 {
        Seq::empty()
    } else {
        let rest = list_spec::<T>(es.drop_first(), prefix);
        if prefix.is_prefix_of(es[0].0) {
            match T::decode_of(es[0].1) {
                Some(tv) => seq![(es[0].0.skip(prefix.len() as int), tv)] + rest,
                None => rest,
            }
        } else {
            rest
        }
    }
}

/// The identifiers of a collection's entries, in store order.
pub open spec fn ids_spec(es: Seq<(Seq<char>, Seq<char>)>, prefix: Seq<char>) -> Seq<Seq<char>>
    decreases es.len(),
{
    if es.len() == 0 {
        Seq::empty()
    } else {
        let rest = ids_spec(es.drop_first(), prefix);
        if prefix.is_prefix_of(es[0].0) {
            seq![es[0].0.skip(prefix.len() as int)] + rest
        } else {
            rest
        }
    }
}

proof fn lemma_list_spec_snoc<T: Record>(
    es: Seq<(Seq<char>, Seq<char>)>,
    prefix: Seq<char>,
    e: (Seq<char>, Seq<char>),
)
    ensures
        list_spec::<T>(es.push(e), prefix) == list_spec::<T>(es, prefix) + (if prefix.is_prefix_of(
            e.0,
        ) {
            match T::decode_of(e.1) {
                Some(tv) => seq![(e.0.skip(prefix.len() as int), tv)],
                None => Seq::empty(),
            }
        } else {
            Seq::empty()
        }),
        ids_spec(es.push(e), prefix) == ids_spec(es, prefix) + (if prefix.is_prefix_of(e.0) {
            seq![e.0.skip(prefix.len() as int)]
        } else {
            Seq::empty()
        }),
    decreases es.len(),
{
    if es.len() == 0 {
        assert(es.push(e)[0] == e);
        assert(es.push(e).drop_first() =~= Seq::<(Seq<char>, Seq<char>)>::empty());
        assert(es.push(e).drop_first() == Seq::<(Seq<char>, Seq<char>)>::empty());
        assert(list_spec::<T>(es.push(e).drop_first(), prefix) == Seq::<(Seq<char>, T::V)>::empty());
        assert(list_spec::<T>(es, prefix) == Seq::<(Seq<char>, T::V)>::empty());
        assert(list_spec::<T>(es.push(e), prefix) =~= list_spec::<T>(es, prefix) + (
        if prefix.is_prefix_of(e.0) {
            match T::decode_of(e.1) {
                Some(tv) => seq![(e.0.skip(prefix.len() as int), tv)],
                None => Seq::<(Seq<char>, T::V)>::empty(),
            }
        } else {
            Seq::<(Seq<char>, T::V)>::empty()
        }));
        assert(es.push(e).drop_first() == Seq::<(Seq<char>, Seq<char>)>::empty());
        assert(ids_spec(es.push(e).drop_first(), prefix) == Seq::<Seq<char>>::empty());
        assert(ids_spec(es, prefix) == Seq::<Seq<char>>::empty());
        assert(ids_spec(es.push(e), prefix) =~= ids_spec(es, prefix) + (if prefix.is_prefix_of(
            e.0,
        ) {
            seq![e.0.skip(prefix.len() as int)]
        } else {
            Seq::<Seq<char>>::empty()
        }));
    } else {
        assert(es.push(e)[0] == es[0]);
        assert(es.push(e).drop_first() =~= es.drop_first().push(e));
        lemma_list_spec_snoc::<T>(es.drop_first(), prefix, e);
        assert(list_spec::<T>(es.push(e), prefix) =~= list_spec::<T>(es, prefix) + (
        if prefix.is_prefix_of(e.0) {
            match T::decode_of(e.1) {
                Some(tv) => seq![(e.0.skip(prefix.len() as int), tv)],
                None => Seq::<(Seq<char>, T::V)>::empty(),
            }
        } else {
            Seq::<(Seq<char>, T::V)>::empty()
        }));
        assert(ids_spec(es.push(e), prefix) =~= ids_spec(es, prefix) + (if prefix.is_prefix_of(
            e.0,
        ) {
            seq![e.0.skip(prefix.len() as int)]
        } else {
            Seq::<Seq<char>>::empty()
        }));
    }
}

impl<T: Record> Collection<T> {
    /// The underlying entries, full keys included.
    pub closed spec fn raw(&self) -> Seq<(Seq<char>, Seq<char>)> {
        self.store.entries()
    }

    /// The collection's key prefix.
    pub closed spec fn prefix_spec(&self) -> Seq<char> {
        self.prefix@
    }

    /// The store key of a record id.
    pub open spec fn key_of(&self, id: Seq<char>) -> Seq<char> {
        self.prefix_spec() + id
    }

    /// Validity of the collection: its store is valid.
    pub closed spec fn inv(&self) -> bool {
        self.store.inv()
    }

    /// How many subscriber registrations exist, inactive ones included.
    pub closed spec fn sub_count(&self) -> nat {
        self.subs@.len()
    }

    /// Whether registration `i` still listens.
    pub closed spec fn sub_active(&self, i: int) -> bool {
        self.subs@[i].active
    }

    /// The queued event models of registration `i`, oldest first.
    pub closed spec fn sub_queue(&self, i: int) -> Seq<EventV<T::V>> {
        self.subs@[i].pending.deep_view()
    }

    /// A valid collection's underlying store never holds two entries
    /// with the same key.
    pub proof fn raw_unique(&self)
        requires
            self.inv(),
        ensures
            crate::storage::unique_keys(self.raw()),
    {
        self.store.inv_unique_keys();
    }

    /// A fresh, empty collection under `prefix`.
    pub fn new(prefix: &str) -> (r: Collection<T>)
        ensures
            r.inv(),
            r.raw() == Seq::<(Seq<char>, Seq<char>)>::empty(),
            r.prefix_spec() == prefix@,
            r.sub_count() == 0,
    {
        let subs: Vec<Subscription<T>> = Vec::new();
        Collection { store: StringStore::new(), prefix: String::from_str(prefix), subs }
    }

    /// The record stored under `id`: its entry decoded, with an entry
    /// that does not decode reported as absent.
    pub fn get(&self, id: &ID) -> (r: Option<T>)
        requires
            self.inv(),
        ensures
            match r {
                Some(t) => {
                    &&& assoc(self.raw(), self.key_of(id@)) is Some
                    &&& T::decode_of(assoc(self.raw(), self.key_of(id@))->0) == Some(t.deep_view())
                },
                None => match assoc(self.raw(), self.key_of(id@)) {
                    Some(s) => T::decode_of(s) is None,
                    None => true,
                },
            },
    {
        let mut key = self.prefix.clone();
        key.append(id.as_str());
        match self.store.get_item(key.as_str()) {
            Some(s) => T::decode(s.as_str()),
            None => None,
        }
    }

    /// Stores `t` under `id`, overwriting any previous record. If the
    /// key was absent, every active subscriber is handed an assignment
    /// event before the write; overwriting an existing key notifies
    /// nobody.
    pub fn set(&mut self, id: &ID, t: &T)
        requires
            old(self).inv(),
        ensures
            final(self).inv(),
            final(self).raw() == set_entry(
                old(self).raw(),
                old(self).key_of(id@),
                T::encode_of(t.deep_view()),
            ),
            final(self).prefix_spec() == old(self).prefix_spec(),
            final(self).sub_count() == old(self).sub_count(),
            forall|i: int|
                0 <= i < old(self).sub_count() ==> final(self).sub_active(i) == old(
                    self,
                ).sub_active(i),
            forall|i: int|
                0 <= i < old(self).sub_count() ==> final(self).sub_queue(i) == (if old(
                    self,
                ).sub_active(i) && assoc(old(self).raw(), old(self).key_of(id@)) is None {
                    old(self).sub_queue(i).push(EventV::Assign(id@, t.deep_view()))
                } else {
                    old(self).sub_queue(i)
                }),
    {
        let mut key = self.prefix.clone();
        key.append(id.as_str());
        let absent = !self.store.has_key(key.as_str());
        if absent {
            let n = self.subs.len();
            let mut i: usize = 0;
            while i < n
                invariant
                    i <= n,
                    n == self.subs@.len(),
                    n == old(self).subs@.len(),
                    self.store == old(self).store,
                    self.prefix == old(self).prefix,
                    forall|j: int|
                        0 <= j < i ==> (#[trigger] self.subs@[j]).active == old(
                            self,
                        ).subs@[j].active,
                    forall|j: int|
                        0 <= j < i ==> (#[trigger] self.subs@[j]).pending.deep_view() == (if old(
                            self,
                        ).subs@[j].active {
                            old(self).subs@[j].pending.deep_view().push(
                                EventV::Assign(id@, t.deep_view()),
                            )
                        } else {
                            old(self).subs@[j].pending.deep_view()
                        }),
                    forall|j: int| i <= j < n ==> #[trigger] self.subs@[j] == old(self).subs@[j],
                decreases n - i,
            {
                if self.subs[i].active {
                    let ev = StorageEvent::Assign(id.duplicate(), t.duplicate());
                    proof {
                        assert(ev.deep_view() == EventV::Assign(id@, t.deep_view()));
                    }
                    self.subs[i].pending.push(ev);
                    proof {
                        assert(self.subs@[i as int].pending.deep_view() =~= old(
                            self,
                        ).subs@[i as int].pending.deep_view().push(
                            EventV::Assign(id@, t.deep_view()),
                        ));
                    }
                }
                i = i + 1;
            }
        }
        let enc = t.encode();
        self.store.set_item(key.as_str(), enc.as_str());
    }

    /// Removes the record under `id`. If a decodable record was there,
    /// every active subscriber is handed a removal event first; the
    /// removal itself happens either way.
    pub fn drop(&mut self, id: &ID)
        requires
            old(self).inv(),
        ensures
            final(self).inv(),
            final(self).raw() == remove_entry(old(self).raw(), old(self).key_of(id@)),
            final(self).prefix_spec() == old(self).prefix_spec(),
            final(self).sub_count() == old(self).sub_count(),
            forall|i: int|
                0 <= i < old(self).sub_count() ==> final(self).sub_active(i) == old(
                    self,
                ).sub_active(i),
            forall|i: int|
                0 <= i < old(self).sub_count() ==> final(self).sub_queue(i) == (if old(
                    self,
                ).sub_active(i) && (match assoc(old(self).raw(), old(self).key_of(id@)) {
                    Some(s) => T::decode_of(s) is Some,
                    None => false,
                }) {
                    old(self).sub_queue(i).push(EventV::Delete(id@))
                } else {
                    old(self).sub_queue(i)
                }),
    {
        if self.subs.len() > 0 {
            let present = self.get(id);
            if present.is_some() {
                let n = self.subs.len();
                let mut i: usize = 0;
                while i < n
                    invariant
                        i <= n,
                        n == self.subs@.len(),
                        n == old(self).subs@.len(),
                        self.store == old(self).store,
                        self.prefix == old(self).prefix,
                        forall|j: int|
                            0 <= j < i ==> (#[trigger] self.subs@[j]).active == old(
                                self,
                            ).subs@[j].active,
                        forall|j: int|
                            0 <= j < i ==> (#[trigger] self.subs@[j]).pending.deep_view() == (
                            if old(self).subs@[j].active {
                                old(self).subs@[j].pending.deep_view().push(EventV::Delete(id@))
                            } else {
                                old(self).subs@[j].pending.deep_view()
                            }),
                        forall|j: int|
                            i <= j < n ==> #[trigger] self.subs@[j] == old(self).subs@[j],
                    decreases n - i,
                {
                    if self.subs[i].active {
                        let ev = StorageEvent::Delete(id.duplicate());
                        proof {
                            assert(ev.deep_view() == EventV::<T::V>::Delete(id@));
                        }
                        self.subs[i].pending.push(ev);
                        proof {
                            assert(self.subs@[i as int].pending.deep_view() =~= old(
                                self,
                            ).subs@[i as int].pending.deep_view().push(EventV::Delete(id@)));
                        }
                    }
                    i = i + 1;
                }
            }
        }
        let mut key = self.prefix.clone();
        key.append(id.as_str());
        self.store.remove_item(key.as_str());
    }

    /// All records of the collection, in store order, identifiers
    /// stripped of the prefix; entries that do not decode are passed
    /// over.
    pub fn list(&self) -> (r: Vec<(ID, T)>)
        requires
            self.inv(),
        ensures
            r.deep_view() == list_spec::<T>(self.raw(), self.prefix_spec()),
    {
        let items = self.store.items();
        let n = items.len();
        let mut out: Vec<(ID, T)> = Vec::new();
        let plen = self.prefix.as_str().unicode_len();
        let mut i: usize = 0;
        while i < n
            invariant
                i <= n,
                n == items@.len(),
                items.deep_view() == self.raw(),
                plen == self.prefix_spec().len(),
                self.inv(),
                out.deep_view() == list_spec::<T>(self.raw().take(i as int), self.prefix_spec()),
            decreases n - i,
        {
            let ghost prev = self.raw().take(i as int);
            proof {
                assert(self.raw().take(i + 1) =~= prev.push(self.raw()[i as int]));
                assert(items.deep_view()[i as int] == (items@[i as int].0@, items@[i as int].1@));
                lemma_list_spec_snoc::<T>(prev, self.prefix_spec(), self.raw()[i as int]);
            }
            let k = items[i].0.as_str();
            if str_starts_with(k, self.prefix.as_str()) {
                let klen = k.unicode_len();
                let stripped = k.substring_char(plen, klen);
                match T::decode(items[i].1.as_str()) {
                    Some(t) => {
                        let rid = ID::from_string(String::from_str(stripped));
                        out.push((rid, t));
                        proof {
                            assert(stripped@ =~= self.raw()[i as int].0.skip(
                                self.prefix_spec().len() as int,
                            ));
                            assert(out.deep_view() =~= list_spec::<T>(
                                self.raw().take(i + 1),
                                self.prefix_spec(),
                            ));
                        }
                    },
                    None => {
                        proof {
                            assert(out.deep_view() =~= list_spec::<T>(
                                self.raw().take(i + 1),
                                self.prefix_spec(),
                            ));
                        }
                    },
                }
            } else {
                proof {
                    assert(out.deep_view() =~= list_spec::<T>(
                        self.raw().take(i + 1),
                        self.prefix_spec(),
                    ));
                }
            }
            i = i + 1;
        }
        proof {
            assert(self.raw().take(n as int) =~= self.raw());
        }
        out
    }

    /// The identifiers of all entries under the prefix, in store
    /// order, undecodable entries included.
    pub fn ids(&self) -> (r: Vec<ID>)
        requires
            self.inv(),
        ensures
            r.deep_view() == ids_spec(self.raw(), self.prefix_spec()),
    {
        let items = self.store.items();
        let n = items.len();
        let mut out: Vec<ID> = Vec::new();
        let plen = self.prefix.as_str().unicode_len();
        let mut i: usize = 0;
        while i < n
            invariant
                i <= n,
                n == items@.len(),
                items.deep_view() == self.raw(),
                plen == self.prefix_spec().len(),
                self.inv(),
                out.deep_view() == ids_spec(self.raw().take(i as int), self.prefix_spec()),
            decreases n - i,
        {
            let ghost prev = self.raw().take(i as int);
            proof {
                assert(self.raw().take(i + 1) =~= prev.push(self.raw()[i as int]));
                assert(items.deep_view()[i as int] == (items@[i as int].0@, items@[i as int].1@));
                lemma_list_spec_snoc::<T>(prev, self.prefix_spec(), self.raw()[i as int]);
            }
            let k = items[i].0.as_str();
            if str_starts_with(k, self.prefix.as_str()) {
                let klen = k.unicode_len();
                let stripped = k.substring_char(plen, klen);
                let rid = ID::from_string(String::from_str(stripped));
                out.push(rid);
                proof {
                    assert(stripped@ =~= self.raw()[i as int].0.skip(
                        self.prefix_spec().len() as int,
                    ));
                    assert(out.deep_view() =~= ids_spec(
                        self.raw().take(i + 1),
                        self.prefix_spec(),
                    ));
                }
            } else {
                proof {
                    assert(out.deep_view() =~= ids_spec(
                        self.raw().take(i + 1),
                        self.prefix_spec(),
                    ));
                }
            }
            i = i + 1;
        }
        proof {
            assert(self.raw().take(n as int) =~= self.raw());
        }
        out
    }

    /// Registers a new subscriber and returns its handle. The new
    /// subscriber's queue starts empty: no event from before the
    /// registration is replayed.
    pub fn subscribe(&mut self) -> (h: usize)
        requires
            old(self).inv(),
        ensures
            final(self).inv(),
            final(self).raw() == old(self).raw(),
            final(self).prefix_spec() == old(self).prefix_spec(),
            final(self).sub_count() == old(self).sub_count() + 1,
            h == old(self).sub_count(),
            final(self).sub_active(h as int),
            final(self).sub_queue(h as int) == Seq::<EventV<T::V>>::empty(),
            forall|i: int|
                0 <= i < old(self).sub_count() ==> final(self).sub_active(i) == old(
                    self,
                ).sub_active(i) && final(self).sub_queue(i) == old(self).sub_queue(i),
    {
        let h = self.subs.len();
        let pending: Vec<StorageEvent<T>> = Vec::new();
        proof {
            assert(pending.deep_view() =~= Seq::<EventV<T::V>>::empty());
        }
        self.subs.push(Subscription { active: true, pending });
        h
    }

    /// Withdraws a subscriber: its queue keeps its events, but no new
    /// event will be added to it. An unknown handle changes nothing.
    pub fn unsubscribe(&mut self, h: usize)
        requires
            old(self).inv(),
        ensures
            final(self).inv(),
            final(self).raw() == old(self).raw(),
            final(self).prefix_spec() == old(self).prefix_spec(),
            final(self).sub_count() == old(self).sub_count(),
            h < old(self).sub_count() ==> !final(self).sub_active(h as int),
            forall|i: int|
                0 <= i < old(self).sub_count() && i != h ==> final(self).sub_active(i) == old(
                    self,
                ).sub_active(i),
            forall|i: int|
                0 <= i < old(self).sub_count() ==> final(self).sub_queue(i) == old(
                    self,
                ).sub_queue(i),
    {
        if h < self.subs.len() {
            self.subs[h].active = false;
        }
    }

    /// Takes the events queued for subscriber `h`, oldest first, and
    /// empties its queue. An unknown handle yields nothing.
    pub fn take_events(&mut self, h: usize) -> (r: Vec<StorageEvent<T>>)
        requires
            old(self).inv(),
        ensures
            final(self).inv(),
            final(self).raw() == old(self).raw(),
            final(self).prefix_spec() == old(self).prefix_spec(),
            final(self).sub_count() == old(self).sub_count(),
            forall|i: int|
                0 <= i < old(self).sub_count() ==> final(self).sub_active(i) == old(
                    self,
                ).sub_active(i),
            h < old(self).sub_count() ==> r.deep_view() == old(self).sub_queue(h as int)
                && final(self).sub_queue(h as int) == Seq::<EventV<T::V>>::empty(),
            h >= old(self).sub_count() ==> r.deep_view() == Seq::<EventV<T::V>>::empty(),
            forall|i: int|
                0 <= i < old(self).sub_count() && i != h ==> final(self).sub_queue(i) == old(
                    self,
                ).sub_queue(i),
    {
        let mut out: Vec<StorageEvent<T>> = Vec::new();
        if h >= self.subs.len() {
            proof {
                assert(out.deep_view() =~= Seq::<EventV<T::V>>::empty());
            }
            return out;
        }
        let n = self.subs[h].pending.len();
        let mut i: usize = 0;
        while i < n
            invariant
                i <= n,
                h < self.subs@.len(),
                n == self.subs@[h as int].pending@.len(),
                self == old(self),
                out@.len() == i,
                forall|k: int|
                    0 <= k < i ==> (#[trigger] out@[k]).deep_view() == self.subs@[
                        h as int].pending.deep_view()[k],
            decreases n - i,
        {
            let ev = self.subs[h].pending[i].duplicate();
            proof {
                assert(self.subs@[h as int].pending@[i as int].deep_view() == self.subs@[
                    h as int].pending.deep_view()[i as int]);
            }
            out.push(ev);
            i = i + 1;
        }
        proof {
            assert(out.deep_view() =~= old(self).sub_queue(h as int));
        }
        self.subs[h].pending.clear();
        proof {
            assert(self.subs@[h as int].pending.deep_view() =~= Seq::<EventV<T::V>>::empty());
        }
        out
    }
}

} // verus!
