//! A registry of typed configuration values that are read from a key-value
//! store in batches and written back to it in batches.
use vstd::prelude::*;

pub mod configs;
pub mod laws;
pub mod registry;
pub mod schema;
pub mod store;
pub mod value;
pub mod wire;

verus! {

} // verus!
