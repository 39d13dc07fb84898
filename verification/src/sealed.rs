use vstd::prelude::*;

verus! {

/// A token that only this crate can name. It is taken by the methods of the
/// conversion traits, so that nothing outside the crate can call them with
/// an argument of its own making.
#[non_exhaustive]
pub struct Sealed;

} // verus!
