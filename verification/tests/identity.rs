use person_store::{display_name, Person, PersonId, StoreError};

#[test]
fn raw_gives_the_number_back() {
    assert_eq!(PersonId::from_raw(7).raw(), 7);
    assert_eq!(PersonId::from_raw(0).raw(), 0);
    assert_eq!(PersonId::from_raw(u32::MAX).raw(), u32::MAX);
}

#[test]
fn default_identity_is_zero() {
    assert_eq!(PersonId::default().raw(), 0);
    assert_eq!(PersonId::default(), PersonId::from_raw(0));
}

#[test]
fn identities_compare_by_number() {
    assert_eq!(PersonId::from_raw(3), PersonId::from_raw(3));
    assert_ne!(PersonId::from_raw(3), PersonId::from_raw(4));
}

#[test]
fn records_are_equal_by_identity_not_by_name() {
    let ann = Person { id: PersonId::from_raw(1), name: "Ann".to_string() };
    let renamed = Person { id: PersonId::from_raw(1), name: "Anna".to_string() };
    let namesake = Person { id: PersonId::from_raw(2), name: "Ann".to_string() };
    assert!(ann == renamed);
    assert!(ann != namesake);
}

#[test]
fn cloned_record_keeps_identity_and_name() {
    let ann = Person { id: PersonId::from_raw(5), name: "Ann".to_string() };
    let copy = ann.clone();
    assert_eq!(copy.id.raw(), 5);
    assert_eq!(copy.name, "Ann");
}

#[test]
fn display_name_of_a_named_person_is_the_name() {
    assert_eq!(display_name("Alice"), "Alice");
    assert_eq!(display_name(" "), " ");
}

#[test]
fn display_name_of_an_unnamed_person_is_the_placeholder() {
    assert_eq!(display_name(""), "-Unknown Name-");
}

#[test]
fn every_error_has_its_message() {
    assert_eq!(StoreError::NotFound.message(), "Person not found");
    assert_eq!(StoreError::PersistenceFailure.message(), "Person store could not be saved");
    assert_eq!(StoreError::TransportFailure.message(), "Person store could not be reached");
    assert_eq!(StoreError::ValidationFailure.message(), "Invalid person data");
}
