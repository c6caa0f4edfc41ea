//! Canonical binary codec for a layered transaction record of a
//! range-based-ownership ledger, together with the key-value store
//! facades that consume decoded transactions.

pub mod codec;
pub mod store;
pub mod wire;

use vstd::prelude::*;

verus! {

} // verus!
