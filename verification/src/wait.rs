//! Wait strategies. A ring carries one value per side; how a side waits is up
//! to whoever drives the ring.

use vstd::prelude::*;

verus! {

/// The default strategy: give the processor away between two looks.
#[derive(Clone, Copy, Debug)]
pub struct YieldWait;

impl Default for YieldWait {
    fn default() -> (r: Self)
        ensures
            r == YieldWait,
    {
        YieldWait
    }
}

} // verus!
