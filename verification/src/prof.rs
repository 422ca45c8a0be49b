//! A hook around the steps of a comparison that are worth timing.

use vstd::prelude::*;

verus! {

/// Runs `f` and hands on what it returns.
pub fn timeit<T, F: FnOnce() -> T>(f: F) -> (result: T)
    requires
        call_requires(f, ()),
    ensures
        call_ensures(f, (), result),
{
    f()
}

} // verus!
