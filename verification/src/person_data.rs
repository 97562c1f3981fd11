//! Identities, records, and the store that holds them.

use std::collections::HashMap;
use vstd::prelude::*;
use vstd::std_specs::cmp::PartialEqSpecImpl;
use vstd::std_specs::hash::spec_hash_map_iter;
use vstd::std_specs::iter::IteratorSpec;
use crate::error::StoreError;
use crate::listing::{insert_in_order, listing_view, sorted_by_name};
use crate::store_model::{restorable, PersonView, StoreModel};
use crate::text::{chars_of, contains_chars, contains_text};

verus! {

/// The identity of a person. Identities are issued by a store, in increasing
/// order, and are never issued twice by the same store.
#[derive(Debug, Copy, Clone, PartialEq, Eq, Hash, Structural)]
pub struct PersonId(u32);

impl View for PersonId {
    type V = nat;

    closed spec fn view(&self) -> nat {
        self.0 as nat
    }
}

impl PersonId {
    /// The identity with the given number.
    pub fn from_raw(raw: u32) -> (id: PersonId)
        ensures
            id@ == raw,
    {
        PersonId(raw)
    }

    /// The number of this identity.
    pub fn raw(&self) -> (raw: u32)
        ensures
            raw == self@,
    {
        self.0
    }

    /// Identities are told apart by their numbers alone.
    pub proof fn lemma_same_number_same_id(self, other: PersonId)
        ensures
            self@ == other@ <==> self == other,
    {
    }
}

impl Default for PersonId {
    /// The identity that a new store issues first.
    fn default() -> (id: PersonId)
        ensures
            id@ == 0,
    {
        PersonId(0)
    }
}

/// A person: an identity and a name.
#[derive(Debug, Clone)]
pub struct Person {
    pub id: PersonId,
    pub name: String,
}

impl View for Person {
    type V = PersonView;

    open spec fn view(&self) -> PersonView {
        PersonView { id: self.id@, name: self.name@ }
    }
}

impl PartialEq for Person {
    /// Two records are equal when they are records of the same person,
    /// whatever names they hold.
    fn eq(&self, other: &Person) -> (same: bool) {
        self.id == other.id
    }
}

impl PartialEqSpecImpl for Person {
    open spec fn obeys_eq_spec() -> bool {
        true
    }

    open spec fn eq_spec(&self, other: &Person) -> bool {
        self.id == other.id
    }
}

/// The store: every person by identity, and the identity that the next
/// person gets. It issues identities from 0 upwards and forgets none.
#[derive(Debug)]
pub struct PersonIdMap {
    map: HashMap<u32, Person>,
    next_id: PersonId,
}

impl View for PersonIdMap {
    type V = StoreModel;

    closed spec fn view(&self) -> StoreModel {
        StoreModel {
            records: Map::new(
                |id: nat| id <= u32::MAX && self.map@.contains_key(id as u32),
                |id: nat| self.map@[id as u32].name@,
            ),
            next_id: self.next_id@,
        }
    }
}

/// What an entry of the map stands for in a listing.
spec fn entry_of(pair: (&u32, &Person)) -> (nat, Seq<char>) {
    (*pair.0 as nat, pair.1.name@)
}

impl PersonIdMap {
    /// Each record is kept under its own identity.
    pub closed spec fn keyed_by_id(&self) -> bool {
        forall|key: u32| self.map@.contains_key(key) ==> self.map@[key].id@ == key
    }

    /// The store is in order: each record is kept under its own identity, and
    /// every identity in it was issued before the next one.
    pub open spec fn wf(&self) -> bool {
        &&& self.keyed_by_id()
        &&& self@.valid()
        &&& self@.next_id <= u32::MAX
    }

    /// A store without persons. It issues identity 0 first.
    pub fn new() -> (store: PersonIdMap)
        ensures
            store.wf(),
            store@ == StoreModel::empty(),
    {
        let store = PersonIdMap { map: HashMap::new(), next_id: PersonId(0) };
        assert(store@.records =~= StoreModel::empty().records);
        store
    }

    /// The identity that the next person gets.
    pub fn next_id(&self) -> (id: PersonId)
        ensures
            id@ == self@.next_id,
    {
        self.next_id
    }

    /// Whether the store has issued every identity that it can; it then takes
    /// no more persons.
    pub fn is_full(&self) -> (full: bool)
        ensures
            full == (self@.next_id >= u32::MAX),
    {
        self.next_id.0 == u32::MAX
    }

    /// Adds a person with this name, which may be empty, and returns the
    /// identity issued for them.
    pub fn add_with_name(&mut self, name: String) -> (id: PersonId)
        requires
            old(self).wf(),
            old(self)@.next_id < u32::MAX,
        ensures
            final(self).wf(),
            id@ == old(self)@.next_id,
            final(self)@ == old(self)@.with_added(name@),
    {
        let id = self.next_id;
        let person = Person { id, name };
        self.map.insert(id.0, person);
        self.next_id = PersonId(id.0 + 1);
        assert(self@.records =~= old(self)@.with_added(name@).records);
        id
    }

    /// A copy of the record of the person `id`, if the store has one.
    pub fn get_person(&self, id: PersonId) -> (found: Option<Person>)
        requires
            self.wf(),
        ensures
            match found {
                Some(person) => self@.person(id@) == Some(person@),
                None => self@.person(id@) is None,
            },
    {
        match self.map.get(&id.0) {
            Some(person) => Some(Person { id: person.id, name: person.name.clone() }),
            None => None,
        }
    }

    /// Gives the person `id` the name `new_name`. Where the store has no such
    /// person, nothing changes.
    pub fn update_name(&mut self, id: PersonId, new_name: String)
        requires
            old(self).wf(),
        ensures
            final(self).wf(),
            final(self)@ == old(self)@.with_renamed(id@, new_name@),
    {
        if self.map.contains_key(&id.0) {
            self.map.insert(id.0, Person { id, name: new_name });
            assert(self@.records =~= old(self)@.with_renamed(id@, new_name@).records);
        }
    }

    /// What the walk over the map passes, taken together, is what the store
    /// holds, and no identity is passed twice.
    proof fn lemma_pairs_are_the_store(&self, pairs: Seq<(&u32, &Person)>)
        requires
            self.wf(),
            pairs == spec_hash_map_iter(&self.map).remaining(),
            pairs.no_duplicates(),
        ensures
            forall|entry: (nat, Seq<char>)|
                self@.holds(entry) <==> exists|k: int|
                    0 <= k < pairs.len() && entry_of(pairs[k]) == entry,
            forall|i: int, j: int|
                0 <= i < j < pairs.len() ==> entry_of(pairs[i]).0 != entry_of(pairs[j]).0,
            forall|k: int| 0 <= k < pairs.len() ==> (#[trigger] pairs[k]).1.id@ == *pairs[k].0,
    {
        assert forall|k: int| 0 <= k < pairs.len() implies self.map@.contains_key(
            *(#[trigger] pairs[k]).0,
        ) && self.map@[*pairs[k].0] == *pairs[k].1 by {}
        assert forall|entry: (nat, Seq<char>)|
            self@.holds(entry) <==> exists|k: int|
                0 <= k < pairs.len() && entry_of(pairs[k]) == entry by {
            if self@.holds(entry) {
                let key = entry.0 as u32;
                assert(self.map@.contains_key(key));
                assert(pairs.contains((&key, &self.map@[key])));
                let k = choose|k: int| 0 <= k < pairs.len() && pairs[k] == (&key, &self.map@[key]);
                assert(entry_of(pairs[k]) == entry);
            }
            if exists|k: int| 0 <= k < pairs.len() && entry_of(pairs[k]) == entry {
                let k = choose|k: int| 0 <= k < pairs.len() && entry_of(pairs[k]) == entry;
                assert(self.map@.contains_key(*pairs[k].0) && self.map@[*pairs[k].0]
                    == *pairs[k].1);
            }
        }
        assert forall|i: int, j: int| 0 <= i < j < pairs.len() implies entry_of(pairs[i]).0
            != entry_of(pairs[j]).0 by {
            if entry_of(pairs[i]).0 == entry_of(pairs[j]).0 {
                assert(self.map@[*pairs[i].0] == *pairs[i].1);
                assert(self.map@[*pairs[j].0] == *pairs[j].1);
                assert(pairs[i] == pairs[j]);
            }
        }
    }

    /// The persons whose name contains `search_string`, as it is written,
    /// capitals and small letters told apart: each with identity and name, by
    /// name, and among equal names by identity.
    pub fn search_by_names(&self, search_string: &str) -> (found: Vec<(PersonId, String)>)
        requires
            self.wf(),
        ensures
            self@.is_search_result(search_string@, listing_view(found@)),
    {
        let needle = chars_of(search_string);
        let mut found: Vec<(PersonId, String)> = Vec::new();
        let ghost pairs = spec_hash_map_iter(&self.map).remaining();
        for pair in it: self.map.iter()
            invariant
                self.wf(),
                needle@ == search_string@,
                it.seq() == pairs,
                pairs == spec_hash_map_iter(&self.map).remaining(),
                pairs.no_duplicates(),
                sorted_by_name(listing_view(found@)),
                forall|entry: (nat, Seq<char>)|
                    listing_view(found@).contains(entry) <==> (contains_text(entry.1, needle@)
                        && exists|k: int| 0 <= k < it.index() && entry_of(pairs[k]) == entry),
        {
            let (key, person) = pair;
            let ghost here = it.index();
            proof {
                self.lemma_pairs_are_the_store(pairs);
                assert(pairs[here] == pair);
            }
            let name_chars = chars_of(person.name.as_str());
            if contains_chars(&name_chars, &needle) {
                proof {
                    // an entry with this identity would have come from an earlier pair
                    if listing_view(found@).contains(entry_of(pair)) {
                        let k = choose|k: int| 0 <= k < here && entry_of(pairs[k]) == entry_of(pair);
                        assert(entry_of(pairs[k]).0 != entry_of(pairs[here]).0);
                    }
                }
                insert_in_order(&mut found, person.id, person.name.clone());
            }
            proof {
                assert forall|other: (nat, Seq<char>)|
                    listing_view(found@).contains(other) <==> (contains_text(other.1, needle@)
                        && exists|k: int| 0 <= k < here + 1 && entry_of(pairs[k]) == other) by {
                    if other == entry_of(pair) {
                        assert(entry_of(pairs[here]) == other);
                    }
                }
            }
        }
        proof {
            self.lemma_pairs_are_the_store(pairs);
        }
        found
    }

    /// Every person of the store, each with identity and name, in no
    /// particular order.
    pub fn list(&self) -> (all: Vec<(PersonId, String)>)
        requires
            self.wf(),
        ensures
            self@.is_listing(listing_view(all@)),
    {
        let mut all: Vec<(PersonId, String)> = Vec::new();
        let ghost pairs = spec_hash_map_iter(&self.map).remaining();
        for pair in it: self.map.iter()
            invariant
                self.wf(),
                it.seq() == pairs,
                pairs == spec_hash_map_iter(&self.map).remaining(),
                pairs.no_duplicates(),
                all.len() == it.index(),
                forall|k: int| 0 <= k < all.len() ==> listing_view(all@)[k] == entry_of(pairs[k]),
        {
            let (key, person) = pair;
            let ghost here = it.index();
            let ghost before = listing_view(all@);
            proof {
                self.lemma_pairs_are_the_store(pairs);
                assert(pairs[here] == pair);
            }
            all.push((person.id, person.name.clone()));
            proof {
                assert(listing_view(all@) =~= before.push(entry_of(pairs[here])));
            }
        }
        proof {
            self.lemma_pairs_are_the_store(pairs);
            let listing = listing_view(all@);
            assert forall|entry: (nat, Seq<char>)| listing.contains(entry) <==> self@.holds(
                entry,
            ) by {
                if listing.contains(entry) {
                    let k = choose|k: int| 0 <= k < listing.len() && listing[k] == entry;
                    assert(entry_of(pairs[k]) == entry);
                }
                if self@.holds(entry) {
                    let k = choose|k: int| 0 <= k < pairs.len() && entry_of(pairs[k]) == entry;
                    assert(listing[k] == entry);
                }
            }
        }
        all
    }

    /// The store that holds the persons of `records` and issues `next_id`
    /// next. It is refused where an identity stands in `records` twice, or
    /// one is not below `next_id`: no store lists such records.
    pub fn from_parts(records: Vec<(PersonId, String)>, next_id: PersonId) -> (restored: Result<
        PersonIdMap,
        StoreError,
    >)
        ensures
            match restored {
                Ok(store) => {
                    &&& restorable(listing_view(records@), next_id@)
                    &&& store.wf()
                    &&& store@.next_id == next_id@
                    &&& store@.is_listing(listing_view(records@))
                },
                Err(error) => {
                    &&& error == StoreError::ValidationFailure
                    &&& !restorable(listing_view(records@), next_id@)
                },
            },
    {
        let ghost listing = listing_view(records@);
        let mut rest = records;
        let mut store = PersonIdMap { map: HashMap::new(), next_id };
        assert(store@.records =~= Map::<nat, Seq<char>>::empty());
        loop
            invariant
                listing == listing_view(records@),
                rest.len() <= listing.len(),
                listing_view(rest@) == listing.take(rest.len() as int),
                store.wf(),
                store@.next_id == next_id@,
                forall|entry: (nat, Seq<char>)|
                    store@.holds(entry) <==> exists|k: int|
                        rest.len() <= k < listing.len() && listing[k] == entry,
                forall|i: int, j: int|
                    rest.len() <= i < j < listing.len() ==> (#[trigger] listing[i]).0 != (
                    #[trigger] listing[j]).0,
            decreases rest.len(),
        {
            let ghost at = rest.len() - 1;
            let ghost before = store@;
            match rest.pop() {
                None => {
                    proof {
                        assert forall|i: int| 0 <= i < listing.len() implies (
                        #[trigger] listing[i]).0 < next_id@ by {
                            assert(store@.holds(listing[i]));
                        }
                        assert forall|entry: (nat, Seq<char>)|
                            listing.contains(entry) <==> store@.holds(entry) by {
                            if listing.contains(entry) {
                                let k = choose|k: int| 0 <= k < listing.len() && listing[k] == entry;
                                assert(store@.holds(entry));
                            }
                        }
                        assert(listing.no_duplicates());
                    }
                    return Ok(store);
                },
                Some((id, name)) => {
                    assert(listing_view(rest@.push((id, name)))[at] == listing.take(at + 1)[at]);
                    assert(listing[at] == (id@, name@));
                    if id.0 >= next_id.0 {
                        return Err(StoreError::ValidationFailure);
                    }
                    if store.map.contains_key(&id.0) {
                        proof {
                            assert(before.holds((id@, before.records[id@])));
                            let k = choose|k: int|
                                at < k < listing.len() && listing[k] == (id@, before.records[id@]);
                            assert(listing[at].0 == listing[k].0);
                        }
                        return Err(StoreError::ValidationFailure);
                    }
                    store.map.insert(id.0, Person { id, name });
                    proof {
                        assert(store@.records =~= before.records.insert(id@, name@));
                        assert(listing_view(rest@) =~= listing.take(rest.len() as int));
                        assert forall|entry: (nat, Seq<char>)|
                            store@.holds(entry) <==> exists|k: int|
                                at <= k < listing.len() && listing[k] == entry by {
                            if before.holds(entry) {
                                let k = choose|k: int|
                                    at < k < listing.len() && listing[k] == entry;
                                assert(at <= k < listing.len() && listing[k] == entry);
                            }
                            if exists|k: int| at <= k < listing.len() && listing[k] == entry {
                                let k = choose|k: int|
                                    at <= k < listing.len() && listing[k] == entry;
                                if k > at {
                                    assert(before.holds(entry));
                                    assert(entry.0 != id@);
                                }
                            }
                        }
                        assert forall|i: int, j: int| at <= i < j < listing.len() implies (
                        #[trigger] listing[i]).0 != (#[trigger] listing[j]).0 by {
                            if i == at {
                                assert(before.holds(listing[j]));
                            }
                        }
                    }
                },
            }
        }
    }

    /// The store that a process starts with: the one that was saved, or, where
    /// none was, a store without persons.
    pub fn restore(saved: Option<(Vec<(PersonId, String)>, PersonId)>) -> (restored: Result<
        PersonIdMap,
        StoreError,
    >)
        ensures
            match (saved, restored) {
                (None, Ok(store)) => store.wf() && store@ == StoreModel::empty(),
                (Some(parts), Ok(store)) => {
                    &&& restorable(listing_view(parts.0@), parts.1@)
                    &&& store.wf()
                    &&& store@.next_id == parts.1@
                    &&& store@.is_listing(listing_view(parts.0@))
                },
                (None, Err(_)) => false,
                (Some(parts), Err(error)) => {
                    &&& error == StoreError::ValidationFailure
                    &&& !restorable(listing_view(parts.0@), parts.1@)
                },
            },
    {
        match saved {
            None => Ok(PersonIdMap::new()),
            Some((records, next_id)) => PersonIdMap::from_parts(records, next_id),
        }
    }

    /// A copy of the store, to change and to save before the store itself
    /// changes.
    pub fn staged(&self) -> (copy: PersonIdMap)
        requires
            self.wf(),
        ensures
            copy.wf(),
            copy@ == self@,
    {
        let copy = PersonIdMap { map: self.map.clone(), next_id: self.next_id };
        assert(copy@.records =~= self@.records);
        copy
    }

    /// Ends a change that was made on a copy: where the copy was saved, the
    /// store becomes the copy; where saving failed, the store stays as it was
    /// and the failure is reported.
    pub fn commit(&mut self, staged: PersonIdMap, persisted: bool) -> (done: Result<(), StoreError>)
        requires
            old(self).wf(),
            staged.wf(),
        ensures
            final(self).wf(),
            persisted ==> done == Ok::<(), StoreError>(()) && final(self)@ == staged@,
            !persisted ==> done == Err::<(), StoreError>(StoreError::PersistenceFailure)
                && final(self)@ == old(self)@,
    {
        if persisted {
            *self = staged;
            Ok(())
        } else {
            Err(StoreError::PersistenceFailure)
        }
    }
}

impl Default for PersonIdMap {
    /// A store without persons.
    fn default() -> (store: PersonIdMap)
        ensures
            store.wf(),
            store@ == StoreModel::empty(),
    {
        PersonIdMap::new()
    }
}

} // verus!
