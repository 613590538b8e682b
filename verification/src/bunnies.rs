use vstd::prelude::*;

verus! {

/// A snuggle of bunnies multiplies them eightfold.
pub fn snuggle(bunnies: u128) -> (result: u128)
    requires
        bunnies <= u128::MAX / 8,
    ensures
        result == bunnies * 8,
{
    bunnies * 8
}

} // verus!
