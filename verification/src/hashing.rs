//! The hasher behind hash maps and sets with integer keys.
use rustc_hash::FxBuildHasher;

use vstd::prelude::*;

verus! {

/// Hash maps and sets that use this hasher can be relied on.
pub open spec fn sound(hasher: FxBuildHasher) -> bool {
    vstd::std_specs::hash::builds_valid_hashers::<FxBuildHasher>()
}

/// `FxBuildHasher::default`: the hashers that it builds all start from the same
/// state and add what is written to them deterministically, so that equal keys have
/// equal hashes.
#[verifier::external_body]
pub(crate) fn fx_hasher() -> (hasher: FxBuildHasher)
    ensures
        sound(hasher),
{
    FxBuildHasher::default()
}

} // verus!
