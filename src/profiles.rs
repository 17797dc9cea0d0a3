use vstd::prelude::*;

verus! {

/// The profile used where no other is chosen.
pub struct Default;

/// The development profile.
pub struct Dev;

/// The test profile.
pub struct Test;

} // verus!
