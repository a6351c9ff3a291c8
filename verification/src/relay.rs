//! The relay: helps nodes behind NAT gateways to reach each other.
use vstd::prelude::*;

verus! {

/// Nothing has to be set up before a relay starts.
pub fn run() -> (r: Result<(), String>)
    ensures
        r is Ok,
{
    Ok(())
}

} // verus!
