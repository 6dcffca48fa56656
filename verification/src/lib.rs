//! A vector of model data that records, slot by slot, which widgets have to
//! be added, removed, recreated or updated to mirror its contents, together
//! with the naming helpers used by the view macros.

pub mod changes;
pub mod factory_vec;
pub mod macro_util;

pub use changes::ChangeType;
pub use factory_vec::FactoryVec;
