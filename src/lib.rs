use std::sync::Arc;

use vstd::prelude::*;

pub mod bytes;
pub mod multistore;
pub mod state;
pub mod storage;
pub mod substore;
pub mod table;

verus! {

/// Relies on `Arc::clone`: the new handle points to the same allocation.
#[verifier::external_body]
pub(crate) fn share<T>(a: &Arc<T>) -> (r: Arc<T>)
    ensures
        r == *a,
{
    Arc::clone(a)
}

} // verus!
