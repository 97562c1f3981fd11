//! A person registry: a store that issues identities and keeps names, and a
//! single-flight cache for reads of it.

pub mod cache_model;
pub mod error;
pub mod listing;
pub mod person;
pub mod person_data;
pub mod resource_cache;
pub mod route_param;
pub mod store_model;
pub mod text;

pub use cache_model::FetchState;
pub use error::StoreError;
pub use person::{create_person, display_name, get_person, update_person_name};
pub use person_data::{Person, PersonId, PersonIdMap};
pub use resource_cache::{CacheKey, FetchHandle, Lookup, ResourceCache};
pub use route_param::ParamFailure;
