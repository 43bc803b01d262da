//! The fixed set of baud rates that the bus-send subcommand accepts.

use vstd::prelude::*;

verus! {

/// The accepted baud rates, in bits per second.
pub open spec fn spec_baud_rate_allowed(rate: u32) -> bool {
    ||| rate == 5000
    ||| rate == 10000
    ||| rate == 20000
    ||| rate == 33000
    ||| rate == 47000
    ||| rate == 50000
    ||| rate == 83000
    ||| rate == 95000
    ||| rate == 100000
    ||| rate == 125000
    ||| rate == 250000
    ||| rate == 500000
    ||| rate == 800000
    ||| rate == 1000000
}

/// Whether `rate` is one of the accepted baud rates.
pub fn baud_rate_allowed(rate: u32) -> (r: bool)
    ensures
        r == spec_baud_rate_allowed(rate),
{
    rate == 5000 || rate == 10000 || rate == 20000 || rate == 33000 || rate == 47000 || rate
        == 50000 || rate == 83000 || rate == 95000 || rate == 100000 || rate == 125000 || rate
        == 250000 || rate == 500000 || rate == 800000 || rate == 1000000
}

} // verus!
