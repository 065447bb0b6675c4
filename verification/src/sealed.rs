use vstd::prelude::*;

verus! {

/// Marks the primitive integer types; nothing outside this crate can implement it, so no
/// other type can claim to be a [`crate::sample::Sample`].
pub trait Sealed {
}

} // verus!
