use person_store::{
    create_person, get_person, update_person_name, Person, PersonId, PersonIdMap, StoreError,
};
use std::sync::RwLock;

fn pairs(listing: &[(PersonId, String)]) -> Vec<(u32, String)> {
    listing.iter().map(|(id, name)| (id.raw(), name.clone())).collect()
}

fn sorted_pairs(listing: &[(PersonId, String)]) -> Vec<(u32, String)> {
    let mut all = pairs(listing);
    all.sort();
    all
}

fn entry(id: u32, name: &str) -> (u32, String) {
    (id, name.to_string())
}

fn store_of(names: &[&str]) -> PersonIdMap {
    let mut store = PersonIdMap::new();
    for name in names {
        store.add_with_name(name.to_string());
    }
    store
}

#[test]
fn a_new_store_is_empty_and_issues_zero_first() {
    let store = PersonIdMap::new();
    assert_eq!(store.next_id().raw(), 0);
    assert!(store.list().is_empty());
    assert!(!store.is_full());
    assert!(store.search_by_names("").is_empty());
}

#[test]
fn the_default_store_is_the_new_store() {
    let store = PersonIdMap::default();
    assert_eq!(store.next_id().raw(), 0);
    assert!(store.list().is_empty());
}

#[test]
fn identities_are_issued_in_increasing_order() {
    let mut store = PersonIdMap::new();
    let mut issued: Vec<u32> = Vec::new();
    for name in ["Ann", "Bea", "", "Ann", "Carl", "Dora", "Ann"] {
        issued.push(store.add_with_name(name.to_string()).raw());
    }
    assert_eq!(issued, vec![0, 1, 2, 3, 4, 5, 6]);
    for window in issued.windows(2) {
        assert!(window[0] < window[1]);
    }
    assert_eq!(store.next_id().raw(), 7);
}

#[test]
fn renaming_does_not_disturb_the_issue_of_identities() {
    let mut store = PersonIdMap::new();
    let first = store.add_with_name("Ann".to_string());
    store.update_name(first, "Anna".to_string());
    store.update_name(PersonId::from_raw(50), "Nobody".to_string());
    let second = store.add_with_name("Bea".to_string());
    assert_eq!(first.raw(), 0);
    assert_eq!(second.raw(), 1);
    assert_eq!(store.next_id().raw(), 2);
}

#[test]
fn a_person_is_found_after_they_were_added() {
    let mut store = store_of(&["Ann", "Bea"]);
    let id = store.add_with_name("Carl".to_string());
    let found = store.get_person(id).unwrap();
    assert_eq!(found.id.raw(), id.raw());
    assert_eq!(found.id.raw(), 2);
    assert_eq!(found.name, "Carl");
    assert_eq!(store.get_person(PersonId::from_raw(0)).unwrap().name, "Ann");
    assert_eq!(store.get_person(PersonId::from_raw(1)).unwrap().name, "Bea");
}

#[test]
fn a_person_may_have_an_empty_name() {
    let mut store = PersonIdMap::new();
    let id = store.add_with_name(String::new());
    assert_eq!(store.get_person(id).unwrap().name, "");
    assert_eq!(pairs(&store.search_by_names("")), vec![entry(0, "")]);
}

#[test]
fn a_lookup_hands_out_a_copy() {
    let mut store = store_of(&["Ann"]);
    let mut copy = store.get_person(PersonId::from_raw(0)).unwrap();
    copy.name.push_str(" changed");
    assert_eq!(store.get_person(PersonId::from_raw(0)).unwrap().name, "Ann");
    store.update_name(PersonId::from_raw(0), "Anna".to_string());
    assert_eq!(copy.name, "Ann changed");
}

#[test]
fn a_lookup_of_an_unknown_identity_finds_nothing() {
    let store = store_of(&["Ann"]);
    assert!(store.get_person(PersonId::from_raw(1)).is_none());
    assert!(store.get_person(PersonId::from_raw(u32::MAX)).is_none());
    assert!(PersonIdMap::new().get_person(PersonId::from_raw(0)).is_none());
}

#[test]
fn get_person_fails_with_not_found() {
    let store = store_of(&["Ann"]);
    assert_eq!(get_person(&store, PersonId::from_raw(99)).unwrap_err(), StoreError::NotFound);
    let found = get_person(&store, PersonId::from_raw(0)).unwrap();
    assert_eq!(found.id.raw(), 0);
    assert_eq!(found.name, "Ann");
}

#[test]
fn a_renamed_person_is_found_under_the_new_name() {
    let mut store = store_of(&["Ann", "Bea"]);
    store.update_name(PersonId::from_raw(1), "Beatrice".to_string());
    let found = store.get_person(PersonId::from_raw(1)).unwrap();
    assert_eq!(found.id.raw(), 1);
    assert_eq!(found.name, "Beatrice");
    assert_eq!(store.get_person(PersonId::from_raw(0)).unwrap().name, "Ann");
    assert_eq!(store.list().len(), 2);
}

#[test]
fn renaming_an_unknown_person_changes_nothing() {
    let mut store = store_of(&["Ann", "Bea"]);
    let before = sorted_pairs(&store.list());
    store.update_name(PersonId::from_raw(2), "Carl".to_string());
    assert_eq!(store.list().len(), 2);
    assert_eq!(sorted_pairs(&store.list()), before);
    assert!(store.get_person(PersonId::from_raw(2)).is_none());
    assert_eq!(store.next_id().raw(), 2);
}

#[test]
fn a_search_gives_only_the_matching_names_in_order() {
    let store = store_of(&["Carla", "Bob", "Oscar", "Alice", "carl", "Carl"]);
    assert_eq!(
        pairs(&store.search_by_names("ar")),
        vec![entry(5, "Carl"), entry(0, "Carla"), entry(2, "Oscar"), entry(4, "carl")]
    );
    assert_eq!(pairs(&store.search_by_names("Car")), vec![entry(5, "Carl"), entry(0, "Carla")]);
    assert!(store.search_by_names("x").is_empty());
}

#[test]
fn a_search_orders_equal_names_by_identity() {
    let store = store_of(&["Ann", "Bea", "Ann", "Al", "Ann"]);
    assert_eq!(
        pairs(&store.search_by_names("A")),
        vec![entry(3, "Al"), entry(0, "Ann"), entry(2, "Ann"), entry(4, "Ann")]
    );
}

#[test]
fn a_search_for_the_empty_text_gives_everyone() {
    let store = store_of(&["Bob", "", "Alice"]);
    assert_eq!(
        pairs(&store.search_by_names("")),
        vec![entry(1, ""), entry(2, "Alice"), entry(0, "Bob")]
    );
}

#[test]
fn a_search_tells_capitals_from_small_letters() {
    let store = store_of(&["Bob", "bob", "BOB"]);
    assert_eq!(pairs(&store.search_by_names("B")), vec![entry(2, "BOB"), entry(0, "Bob")]);
    assert_eq!(pairs(&store.search_by_names("b")), vec![entry(0, "Bob"), entry(1, "bob")]);
}

#[test]
fn a_search_sees_the_new_name_after_a_rename() {
    let mut store = store_of(&["Ann", "Bea"]);
    store.update_name(PersonId::from_raw(0), "Zoe".to_string());
    assert!(store.search_by_names("Ann").is_empty());
    assert_eq!(pairs(&store.search_by_names("e")), vec![entry(1, "Bea"), entry(0, "Zoe")]);
}

#[test]
fn a_search_among_many_is_in_order() {
    let mut store = PersonIdMap::new();
    for n in 0..200u32 {
        store.add_with_name(format!("p{}", (n * 37) % 101));
    }
    let found = pairs(&store.search_by_names("p1"));
    let mut expected: Vec<(u32, String)> = (0..200u32)
        .map(|n| (n, format!("p{}", (n * 37) % 101)))
        .filter(|(_, name)| name.contains("p1"))
        .collect();
    expected.sort_by(|a, b| a.1.cmp(&b.1).then(a.0.cmp(&b.0)));
    assert_eq!(found, expected);
    assert!(!found.is_empty());
}

#[test]
fn the_list_holds_everyone_once() {
    let store = store_of(&["Carl", "Ann", "Bea", "Ann"]);
    assert_eq!(
        sorted_pairs(&store.list()),
        vec![entry(0, "Carl"), entry(1, "Ann"), entry(2, "Bea"), entry(3, "Ann")]
    );
}

#[test]
fn end_to_end() {
    let mut store = PersonIdMap::new();
    assert_eq!(store.add_with_name("Alice".to_string()).raw(), 0);
    assert_eq!(store.add_with_name("Bob".to_string()).raw(), 1);
    assert_eq!(pairs(&store.search_by_names("B")), vec![entry(1, "Bob")]);
    store.update_name(PersonId::from_raw(0), "Alicia".to_string());
    let found = get_person(&store, PersonId::from_raw(0)).unwrap();
    assert_eq!(found.id.raw(), 0);
    assert_eq!(found.name, "Alicia");
    assert_eq!(get_person(&store, PersonId::from_raw(99)).unwrap_err(), StoreError::NotFound);
}

#[test]
fn a_store_is_restored_from_its_list() {
    let mut store = store_of(&["Carl", "Ann", "Bea"]);
    store.update_name(PersonId::from_raw(1), "Anna".to_string());
    let restored = PersonIdMap::from_parts(store.list(), store.next_id()).unwrap();
    assert_eq!(restored.next_id().raw(), 3);
    assert_eq!(sorted_pairs(&restored.list()), sorted_pairs(&store.list()));
    assert_eq!(restored.get_person(PersonId::from_raw(1)).unwrap().name, "Anna");
    let mut restored = restored;
    assert_eq!(restored.add_with_name("Dora".to_string()).raw(), 3);
}

#[test]
fn a_restored_store_may_have_gaps() {
    let records = vec![(PersonId::from_raw(7), "Ann".to_string()), (PersonId::from_raw(2), "Bea".to_string())];
    let mut store = PersonIdMap::from_parts(records, PersonId::from_raw(10)).unwrap();
    assert_eq!(sorted_pairs(&store.list()), vec![entry(2, "Bea"), entry(7, "Ann")]);
    assert!(store.get_person(PersonId::from_raw(3)).is_none());
    assert_eq!(store.add_with_name("Carl".to_string()).raw(), 10);
}

#[test]
fn records_with_an_identity_twice_are_refused() {
    let records = vec![
        (PersonId::from_raw(1), "Ann".to_string()),
        (PersonId::from_raw(2), "Bea".to_string()),
        (PersonId::from_raw(1), "Carl".to_string()),
    ];
    assert_eq!(
        PersonIdMap::from_parts(records, PersonId::from_raw(5)).unwrap_err(),
        StoreError::ValidationFailure
    );
}

#[test]
fn records_with_an_identity_not_yet_issued_are_refused() {
    let records = vec![(PersonId::from_raw(0), "Ann".to_string()), (PersonId::from_raw(3), "Bea".to_string())];
    assert_eq!(
        PersonIdMap::from_parts(records.clone(), PersonId::from_raw(3)).unwrap_err(),
        StoreError::ValidationFailure
    );
    assert!(PersonIdMap::from_parts(records, PersonId::from_raw(4)).is_ok());
}

#[test]
fn no_records_and_any_next_identity_are_accepted() {
    let store = PersonIdMap::from_parts(Vec::new(), PersonId::from_raw(0)).unwrap();
    assert_eq!(store.next_id().raw(), 0);
    let store = PersonIdMap::from_parts(Vec::new(), PersonId::from_raw(12)).unwrap();
    assert_eq!(store.next_id().raw(), 12);
    assert!(store.list().is_empty());
}

#[test]
fn without_a_saved_state_the_store_starts_empty() {
    let store = PersonIdMap::restore(None).unwrap();
    assert_eq!(store.next_id().raw(), 0);
    assert!(store.list().is_empty());
}

#[test]
fn with_a_saved_state_the_store_starts_from_it() {
    let saved = (vec![(PersonId::from_raw(0), "Ann".to_string())], PersonId::from_raw(1));
    let store = PersonIdMap::restore(Some(saved)).unwrap();
    assert_eq!(store.next_id().raw(), 1);
    assert_eq!(store.get_person(PersonId::from_raw(0)).unwrap().name, "Ann");
    let broken = (vec![(PersonId::from_raw(1), "Ann".to_string())], PersonId::from_raw(1));
    assert_eq!(PersonIdMap::restore(Some(broken)).unwrap_err(), StoreError::ValidationFailure);
}

#[test]
fn a_store_that_has_issued_every_identity_is_full() {
    let last = u32::MAX - 1;
    let mut store = PersonIdMap::from_parts(Vec::new(), PersonId::from_raw(last)).unwrap();
    assert!(!store.is_full());
    assert_eq!(store.add_with_name("Last".to_string()).raw(), last);
    assert!(store.is_full());
    assert_eq!(store.next_id().raw(), u32::MAX);
    assert_eq!(store.get_person(PersonId::from_raw(last)).unwrap().name, "Last");
}

#[test]
fn a_staged_copy_changes_apart_from_the_store() {
    let store = store_of(&["Ann"]);
    let mut staged = store.staged();
    assert_eq!(staged.add_with_name("Bea".to_string()).raw(), 1);
    staged.update_name(PersonId::from_raw(0), "Anna".to_string());
    assert_eq!(sorted_pairs(&store.list()), vec![entry(0, "Ann")]);
    assert_eq!(store.next_id().raw(), 1);
    assert_eq!(sorted_pairs(&staged.list()), vec![entry(0, "Anna"), entry(1, "Bea")]);
}

#[test]
fn a_saved_change_is_committed() {
    let mut store = store_of(&["Ann"]);
    let (staged, id) = create_person(&store, "Bea".to_string());
    assert_eq!(id.raw(), 1);
    assert_eq!(store.list().len(), 1);
    assert_eq!(store.commit(staged, true), Ok(()));
    assert_eq!(sorted_pairs(&store.list()), vec![entry(0, "Ann"), entry(1, "Bea")]);
    assert_eq!(store.next_id().raw(), 2);
}

#[test]
fn a_change_that_was_not_saved_leaves_the_store_as_it_was() {
    let mut store = store_of(&["Ann"]);
    let (staged, _) = create_person(&store, "Bea".to_string());
    assert_eq!(store.commit(staged, false), Err(StoreError::PersistenceFailure));
    assert_eq!(sorted_pairs(&store.list()), vec![entry(0, "Ann")]);
    assert_eq!(store.next_id().raw(), 1);
    let staged = update_person_name(&store, PersonId::from_raw(0), "Anna".to_string());
    assert_eq!(store.commit(staged, false), Err(StoreError::PersistenceFailure));
    assert_eq!(store.get_person(PersonId::from_raw(0)).unwrap().name, "Ann");
    let (staged, id) = create_person(&store, "Carl".to_string());
    assert_eq!(id.raw(), 1);
    assert_eq!(store.commit(staged, true), Ok(()));
    assert_eq!(store.get_person(PersonId::from_raw(1)).unwrap().name, "Carl");
}

#[test]
fn a_prepared_rename_is_committed() {
    let mut store = store_of(&["Ann", "Bea"]);
    let staged = update_person_name(&store, PersonId::from_raw(1), "Beatrice".to_string());
    assert_eq!(store.get_person(PersonId::from_raw(1)).unwrap().name, "Bea");
    assert_eq!(store.commit(staged, true), Ok(()));
    assert_eq!(store.get_person(PersonId::from_raw(1)).unwrap().name, "Beatrice");
    let staged = update_person_name(&store, PersonId::from_raw(9), "Nobody".to_string());
    assert_eq!(store.commit(staged, true), Ok(()));
    assert_eq!(store.list().len(), 2);
}

#[test]
fn writers_that_take_turns_never_get_the_same_identity() {
    let shared = RwLock::new(PersonIdMap::new());
    let mut by_first: Vec<u32> = Vec::new();
    let mut by_second: Vec<u32> = Vec::new();
    for round in 0..50u32 {
        let order = if round % 3 == 0 { [1, 0] } else { [0, 1] };
        for writer in order {
            let id = shared.write().unwrap().add_with_name(format!("w{}r{}", writer, round));
            if writer == 0 {
                by_first.push(id.raw());
            } else {
                by_second.push(id.raw());
            }
            let seen = shared.read().unwrap().get_person(id).unwrap();
            assert_eq!(seen.name, format!("w{}r{}", writer, round));
        }
    }
    let mut all: Vec<u32> = by_first.iter().chain(by_second.iter()).copied().collect();
    all.sort();
    assert_eq!(all, (0..100u32).collect::<Vec<u32>>());
    assert!(by_first.windows(2).all(|w| w[0] < w[1]));
    assert!(by_second.windows(2).all(|w| w[0] < w[1]));
}

#[test]
fn a_record_is_built_from_its_fields() {
    let ann = Person { id: PersonId::from_raw(3), name: "Ann".to_string() };
    assert_eq!(ann.id.raw(), 3);
    assert_eq!(ann.name, "Ann");
}
