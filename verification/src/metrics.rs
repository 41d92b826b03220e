use vstd::prelude::*;

verus! {

/// Resets the allocation counter. Builds without allocation metrics keep no
/// counter, so there is nothing to reset.
pub fn reset() {
}

/// Reads the number of bytes allocated since the last reset. Builds without
/// allocation metrics count nothing and always report zero.
pub fn read() -> (bytes: u64)
    ensures
        bytes == 0,
{
    0
}

} // verus!
