//! The concurrent map of the `dashmap` crate.

use vstd::prelude::*;

verus! {

/// `dashmap::DashMap`, an opaque type here.
#[verifier::external_type_specification]
#[verifier::external_body]
#[verifier::reject_recursive_types(K)]
#[verifier::reject_recursive_types(V)]
#[verifier::reject_recursive_types(S)]
pub struct ExDashMap<K, V, S>(dashmap::DashMap<K, V, S>);

} // verus!
