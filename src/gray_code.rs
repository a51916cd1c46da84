use vstd::prelude::*;

verus! {

/// The binary-reflected Gray code of `n`: each bit is the exclusive or of the same
/// bit of `n` and the next higher one.
pub open spec fn gray(n: u32) -> u32 {
    n ^ (n >> 1u32)
}

/// Converts a number to its Gray code.
pub fn gray_code(n: u32) -> (r: u32)
    ensures
        r == gray(n),
{
    n ^ (n >> 1)
}

} // verus!
