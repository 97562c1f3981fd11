//! The mathematical model of a person store: a map from identities to names
//! and the next identity to issue. The contracts of the store are stated over
//! this model, and the laws below are proved of it.

use vstd::prelude::*;
use crate::text::contains_text;
use crate::listing::{sorted_by_name, lemma_sorted_listings_equal};

verus! {

/// A record as a plain value.
pub struct PersonView {
    pub id: nat,
    pub name: Seq<char>,
}

/// A store as a plain value.
#[verifier::ext_equal]
pub struct StoreModel {
    /// The name of each person, by identity.
    pub records: Map<nat, Seq<char>>,
    /// The identity that the next person gets.
    pub next_id: nat,
}

impl StoreModel {
    /// Every identity in the store was issued before `next_id`.
    pub open spec fn valid(self) -> bool {
        forall|id: nat| self.records.contains_key(id) ==> id < self.next_id
    }

    /// The store without persons, which issues identity 0 first.
    pub open spec fn empty() -> StoreModel {
        StoreModel { records: Map::empty(), next_id: 0 }
    }

    /// The store after a person named `name` was added: the person has the
    /// identity `self.next_id`.
    pub open spec fn with_added(self, name: Seq<char>) -> StoreModel {
        StoreModel { records: self.records.insert(self.next_id, name), next_id: self.next_id + 1 }
    }

    /// The store after the person `id` was renamed to `name`. A store that
    /// has no such person stays as it is.
    pub open spec fn with_renamed(self, id: nat, name: Seq<char>) -> StoreModel {
        if self.records.contains_key(id) {
            StoreModel { records: self.records.insert(id, name), next_id: self.next_id }
        } else {
            self
        }
    }

    /// The record of the person `id`, if the store has one.
    pub open spec fn person(self, id: nat) -> Option<PersonView> {
        if self.records.contains_key(id) {
            Some(PersonView { id, name: self.records[id] })
        } else {
            None
        }
    }

    /// The store has a person with this identity and this name.
    pub open spec fn holds(self, entry: (nat, Seq<char>)) -> bool {
        self.records.contains_key(entry.0) && self.records[entry.0] == entry.1
    }

    /// `listing` is what a search for `needle` gives: each person whose name
    /// contains `needle`, once, by name and among equal names by identity.
    pub open spec fn is_search_result(self, needle: Seq<char>, listing: Seq<(nat, Seq<char>)>) -> bool {
        &&& sorted_by_name(listing)
        &&& forall|entry: (nat, Seq<char>)|
            listing.contains(entry) <==> self.holds(entry) && contains_text(entry.1, needle)
    }

    /// `listing` holds each person of the store once, in some order.
    pub open spec fn is_listing(self, listing: Seq<(nat, Seq<char>)>) -> bool {
        &&& listing.no_duplicates()
        &&& forall|entry: (nat, Seq<char>)| listing.contains(entry) <==> self.holds(entry)
    }

    /// The store after persons with these names were added one after another.
    pub open spec fn with_all_added(self, names: Seq<Seq<char>>) -> StoreModel
        decreases names.len(),
    {
        if names.len() == 0 {
            self
        } else {
            self.with_all_added(names.drop_last()).with_added(names.last())
        }
    }

    /// The identities that these persons got, in the order of `names`.
    pub open spec fn issued(self, names: Seq<Seq<char>>) -> Seq<nat>
        decreases names.len(),
    {
        if names.len() == 0 {
            Seq::empty()
        } else {
            self.issued(names.drop_last()).push(self.with_all_added(names.drop_last()).next_id)
        }
    }
}

/// A listing and a next identity that some valid store can have: no identity
/// stands in the listing twice, and each was issued before `next_id`.
pub open spec fn restorable(listing: Seq<(nat, Seq<char>)>, next_id: nat) -> bool {
    &&& forall|i: int| 0 <= i < listing.len() ==> (#[trigger] listing[i]).0 < next_id
    &&& forall|i: int, j: int|
        0 <= i < j < listing.len() ==> (#[trigger] listing[i]).0 != (#[trigger] listing[j]).0
}

/// Adding a person keeps a store valid.
pub proof fn lemma_add_keeps_valid(store: StoreModel, name: Seq<char>)
    requires
        store.valid(),
    ensures
        store.with_added(name).valid(),
{
}

/// Renaming keeps a store valid, and changes neither which identities the
/// store holds nor the next identity.
pub proof fn lemma_rename_keeps_identities(store: StoreModel, id: nat, name: Seq<char>)
    requires
        store.valid(),
    ensures
        store.with_renamed(id, name).valid(),
        store.with_renamed(id, name).next_id == store.next_id,
        store.with_renamed(id, name).records.dom() == store.records.dom(),
{
    assert(store.with_renamed(id, name).records.dom() =~= store.records.dom());
}

/// Identities come out in strictly increasing order and none comes twice:
/// whatever persons are added one after another, each gets an identity above
/// those issued before it, and none that the store held already.
pub proof fn lemma_issued_ids_increase(store: StoreModel, names: Seq<Seq<char>>)
    requires
        store.valid(),
    ensures
        store.with_all_added(names).valid(),
        store.with_all_added(names).next_id == store.next_id + names.len(),
        store.issued(names).len() == names.len(),
        forall|i: int| 0 <= i < names.len() ==> #[trigger] store.issued(names)[i] == store.next_id + i,
        forall|i: int, j: int|
            0 <= i < j < names.len() ==> store.issued(names)[i] < store.issued(names)[j],
        forall|i: int|
            0 <= i < names.len() ==> !store.records.contains_key(#[trigger] store.issued(names)[i]),
    decreases names.len(),
{
    if names.len() > 0 {
        lemma_issued_ids_increase(store, names.drop_last());
    }
}

/// A person who was just added is found under the identity that was issued,
/// with the name given; every other lookup answers as before.
pub proof fn lemma_person_after_add(store: StoreModel, name: Seq<char>)
    requires
        store.valid(),
    ensures
        store.with_added(name).person(store.next_id) == Some(
            PersonView { id: store.next_id, name },
        ),
        forall|other: nat|
            other != store.next_id ==> store.with_added(name).person(other) == store.person(other),
{
}

/// After a person was renamed a lookup gives the new name; every other
/// lookup answers as before.
pub proof fn lemma_person_after_rename(store: StoreModel, id: nat, name: Seq<char>)
    requires
        store.records.contains_key(id),
    ensures
        store.with_renamed(id, name).person(id) == Some(PersonView { id, name }),
        forall|other: nat|
            other != id ==> store.with_renamed(id, name).person(other) == store.person(other),
{
}

/// Renaming a person that the store does not have changes nothing: not the
/// records, so not their number, and not the next identity.
pub proof fn lemma_rename_of_absent(store: StoreModel, id: nat, name: Seq<char>)
    requires
        !store.records.contains_key(id),
    ensures
        store.with_renamed(id, name) == store,
        store.with_renamed(id, name).records.len() == store.records.len(),
{
}

/// A search has one result: a store and a text to search for determine the
/// listing, the order of its entries included.
pub proof fn lemma_search_result_unique(
    store: StoreModel,
    needle: Seq<char>,
    first: Seq<(nat, Seq<char>)>,
    second: Seq<(nat, Seq<char>)>,
)
    requires
        store.is_search_result(needle, first),
        store.is_search_result(needle, second),
    ensures
        first == second,
{
    lemma_sorted_listings_equal(first, second);
}

/// A listing of a valid store, together with the store's next identity, gives
/// the store back: listings are enough to save a store and to restore it.
pub proof fn lemma_listing_determines_store(
    store: StoreModel,
    other: StoreModel,
    listing: Seq<(nat, Seq<char>)>,
)
    requires
        store.is_listing(listing),
        other.is_listing(listing),
        other.next_id == store.next_id,
    ensures
        other == store,
{
    assert forall|id: nat| store.records.contains_key(id) == other.records.contains_key(id) by {
        if store.records.contains_key(id) {
            assert(store.holds((id, store.records[id])));
            assert(listing.contains((id, store.records[id])));
            assert(other.holds((id, store.records[id])));
        }
        if other.records.contains_key(id) {
            assert(other.holds((id, other.records[id])));
            assert(listing.contains((id, other.records[id])));
            assert(store.holds((id, other.records[id])));
        }
    }
    assert forall|id: nat| store.records.contains_key(id) implies store.records[id]
        == other.records[id] by {
        assert(store.holds((id, store.records[id])));
        assert(listing.contains((id, store.records[id])));
        assert(other.holds((id, store.records[id])));
    }
    assert(store.records =~= other.records);
}

/// What a valid store lists can be restored.
pub proof fn lemma_listing_restorable(store: StoreModel, listing: Seq<(nat, Seq<char>)>)
    requires
        store.valid(),
        store.is_listing(listing),
    ensures
        restorable(listing, store.next_id),
{
    assert forall|i: int| 0 <= i < listing.len() implies (#[trigger] listing[i]).0
        < store.next_id by {
        assert(listing.contains(listing[i]));
        assert(store.holds(listing[i]));
    }
    assert forall|i: int, j: int| 0 <= i < j < listing.len() implies (#[trigger] listing[i]).0 != (
    #[trigger] listing[j]).0 by {
        assert(listing.contains(listing[i]));
        assert(listing.contains(listing[j]));
        assert(store.holds(listing[i]) && store.holds(listing[j]));
    }
}

} // verus!
