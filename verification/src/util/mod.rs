pub mod hash;
pub mod indexer;
pub mod last_bytes;
pub mod permutation;
pub mod quantizers;

use vstd::prelude::*;

verus! {

/// Takes the value out of a full option and leaves it empty.
pub fn drain_full_option<T: Copy>(option: &mut Option<T>) -> (r: T)
    requires
        old(option).is_some(),
    ensures
        Some(r) == *old(option),
        final(option).is_none(),
{
    let value = option.unwrap();
    *option = None;
    value
}

/// Puts a value into an empty option.
pub fn fill_empty_option<T>(option: &mut Option<T>, value: T)
    requires
        old(option).is_none(),
    ensures
        *final(option) == Some(value),
{
    *option = Some(value);
}

} // verus!
