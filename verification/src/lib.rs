use vstd::prelude::*;

pub mod fibonacci;
pub mod golden;
pub mod phifixed;
pub mod curve;
pub mod roster;
pub mod ledger;
pub mod economy;
pub mod field;
pub mod registry;
pub mod blob_json;
pub mod identity;

verus! {
} // verus!
