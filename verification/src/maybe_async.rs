//! A result that is either already at hand or still being produced: callers
//! that run inside a reactor await the second form, callers that do not take
//! the first.

use vstd::prelude::*;

verus! {

pub enum MaybeAsync<R, F> {
    Sync(R),
    Async(F),
}

} // verus!
