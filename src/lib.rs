use vstd::prelude::*;

pub mod intern;
pub mod partition;
pub mod record;
pub mod scan;
pub mod store;
pub mod summary;
pub mod temperature;

verus! {

} // verus!
