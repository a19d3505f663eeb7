//! Support for values that are made the first time they are used.
use vstd::prelude::*;

verus! {

/// Implemented by each lazily made value, so that it can be made ahead of
/// its first use.
pub trait LazyStatic {
    /// Makes the value if it has not been made yet.
    fn initialize(lazy: &Self);
}

} // verus!
