//! What the endpoints for persons decide, once the store is at hand.

use vstd::prelude::*;
use crate::error::StoreError;
use crate::person_data::{Person, PersonId, PersonIdMap};

verus! {

/// Prepares the creation of a person named `name`: the store as it will be
/// with them in it, and the identity that they get. The store at hand is not
/// changed; the prepared store is saved first and then put in its place by
/// `commit`, so that what is in memory is never ahead of what is saved.
pub fn create_person(persons: &PersonIdMap, name: String) -> (prepared: (PersonIdMap, PersonId))
    requires
        persons.wf(),
        persons@.next_id < u32::MAX,
    ensures
        prepared.0.wf(),
        prepared.0@ == persons@.with_added(name@),
        prepared.1@ == persons@.next_id,
{
    let mut staged = persons.staged();
    let id = staged.add_with_name(name);
    (staged, id)
}

/// Prepares the renaming of the person `id` to `new_name`: the store as it
/// will be. Where the store has no such person, that is the store as it is.
/// The store at hand is not changed; see `create_person`.
pub fn update_person_name(persons: &PersonIdMap, id: PersonId, new_name: String) -> (prepared:
    PersonIdMap)
    requires
        persons.wf(),
    ensures
        prepared.wf(),
        prepared@ == persons@.with_renamed(id@, new_name@),
{
    let mut staged = persons.staged();
    staged.update_name(id, new_name);
    staged
}

/// The record of the person `id`. A lookup of an identity that the store does
/// not hold fails with `NotFound`.
pub fn get_person(persons: &PersonIdMap, id: PersonId) -> (found: Result<Person, StoreError>)
    requires
        persons.wf(),
    ensures
        match found {
            Ok(person) => persons@.person(id@) == Some(person@),
            Err(error) => error == StoreError::NotFound && persons@.person(id@) is None,
        },
{
    match persons.get_person(id) {
        Some(person) => Ok(person),
        None => Err(StoreError::NotFound),
    }
}

/// The name under which a person stands in a list: their own, or a
/// placeholder where they have none.
pub fn display_name(name: &str) -> (shown: String)
    ensures
        shown@ == (if name@.len() == 0 {
            "-Unknown Name-"@
        } else {
            name@
        }),
{
    if name.is_empty() {
        "-Unknown Name-".to_owned()
    } else {
        name.to_owned()
    }
}

} // verus!
