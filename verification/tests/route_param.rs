use leptos_router::ParamsError;
use person_store::{ParamFailure, PersonId};

#[test]
fn a_parameter_with_a_number_gives_the_identity() {
    assert_eq!(PersonId::into_param(Some("42"), "id").unwrap().raw(), 42);
    assert_eq!(PersonId::into_param(Some("0"), "id").unwrap().raw(), 0);
    assert_eq!(PersonId::into_param(Some("4294967295"), "id").unwrap().raw(), u32::MAX);
    assert_eq!(PersonId::into_param(Some("007"), "id").unwrap().raw(), 7);
}

#[test]
fn the_name_of_the_parameter_plays_no_part_in_its_number() {
    assert_eq!(PersonId::into_param(Some("5"), "id").unwrap().raw(), 5);
    assert_eq!(PersonId::into_param(Some("5"), "person").unwrap().raw(), 5);
    assert_eq!(PersonId::into_param(Some("5"), "").unwrap().raw(), 5);
}

#[test]
fn a_parameter_that_is_absent_is_missing() {
    assert!(matches!(PersonId::into_param(None, "id"), Err(ParamFailure::Missing)));
}

#[test]
fn a_parameter_that_is_no_number_is_malformed() {
    for text in ["", "x", "12a", " 1", "1 ", "-1", "4294967296", "1.5", "0x10"] {
        assert!(matches!(
            PersonId::into_param(Some(text), "id"),
            Err(ParamFailure::Malformed(ParamsError::Params(_)))
        ));
    }
}

#[test]
fn a_read_number_becomes_the_identity() {
    assert_eq!(PersonId::from_param(Ok(Some(9))).unwrap().raw(), 9);
    assert_eq!(PersonId::from_param(Ok(Some(u32::MAX))).unwrap().raw(), u32::MAX);
}

#[test]
fn no_number_read_is_a_missing_parameter() {
    assert!(matches!(PersonId::from_param(Ok(None)), Err(ParamFailure::Missing)));
}

#[test]
fn a_report_of_the_router_is_handed_on() {
    let report = ParamsError::MissingParam("id".to_string());
    match PersonId::from_param(Err(report)) {
        Err(ParamFailure::Malformed(ParamsError::MissingParam(name))) => assert_eq!(name, "id"),
        _ => panic!("the report is handed on as it came"),
    }
}
