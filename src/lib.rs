//! An authorization engine for a programmable account: context rules bind
//! signers and policies to classes of actions, and `check_auth` decides
//! whether a batch of actions is admitted by the signatures presented.
use vstd::prelude::*;

pub mod types;
pub mod policy;
pub mod registry;
pub mod store;
pub mod engine;
pub mod laws;

verus! {

} // verus!
