//! Closes the set of eviction policies.
use vstd::prelude::*;

verus! {

/// Implemented by the eviction policies of this crate, and by nothing else:
/// the module is private, so no other crate can name the trait.
pub trait Sealed {

}

} // verus!
