//! Identities from the parameters of a route.

use leptos_router::IntoParam;
use leptos_router::ParamsError;
use vstd::prelude::*;
use crate::person_data::PersonId;

verus! {

/// What the router reports when it cannot read a parameter. Nothing is known
/// of what is inside.
#[verifier::external_type_specification]
#[verifier::external_body]
pub struct ExParamsError(leptos_router::ParamsError);

/// The number that the router reads from the text of a parameter, where it
/// reads one. The text alone decides.
pub uninterp spec fn param_number(text: Seq<char>) -> Option<u32>;

/// Calls `into_param` of `leptos_router::IntoParam` for `Option<u32>`. Not
/// proved, but taken from the router: a parameter that is absent is read as
/// no number, without an error; one that is present is read as the number
/// that its text stands for, or, where it stands for none, is reported. The
/// name of the parameter plays no part.
#[verifier::external_body]
fn number_param(value: Option<&str>, name: &str) -> (parsed: Result<Option<u32>, ParamsError>)
    ensures
        match value {
            None => parsed == Ok::<Option<u32>, ParamsError>(None),
            Some(text) => match param_number(text@) {
                Some(number) => parsed == Ok::<Option<u32>, ParamsError>(Some(number)),
                None => parsed is Err,
            },
        },
{
    Option::<u32>::into_param(value, name)
}

/// Why a parameter of a route gives no identity.
#[derive(Debug)]
pub enum ParamFailure {
    /// The route has no such parameter.
    Missing,
    /// The parameter does not stand for a number; the router's report is
    /// handed on as it came.
    Malformed(ParamsError),
}

impl PersonId {
    /// The identity that a parameter stands for, from what the router read
    /// of it: the number it read, a failure where it found no parameter, and
    /// its own report where it could not read the one it found.
    pub fn from_param(parsed: Result<Option<u32>, ParamsError>) -> (id: Result<PersonId, ParamFailure>)
        ensures
            match parsed {
                Ok(Some(number)) => id matches Ok(found) && found@ == number,
                Ok(None) => id matches Err(ParamFailure::Missing),
                Err(report) => id matches Err(ParamFailure::Malformed(handed_on)) && handed_on
                    == report,
            },
    {
        match parsed {
            Ok(Some(number)) => Ok(PersonId::from_raw(number)),
            Ok(None) => Err(ParamFailure::Missing),
            Err(report) => Err(ParamFailure::Malformed(report)),
        }
    }

    /// The identity that the parameter `name` of a route stands for, where
    /// `value` is its text, or nothing if the route has no such parameter.
    pub fn into_param(value: Option<&str>, name: &str) -> (id: Result<PersonId, ParamFailure>)
        ensures
            match value {
                None => id matches Err(ParamFailure::Missing),
                Some(text) => match param_number(text@) {
                    Some(number) => id matches Ok(found) && found@ == number,
                    None => id matches Err(ParamFailure::Malformed(_)),
                },
            },
    {
        PersonId::from_param(number_param(value, name))
    }
}

} // verus!
