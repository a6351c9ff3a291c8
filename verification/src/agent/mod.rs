//! The agent: downloads game versions and serves their chunks to others.
use vstd::prelude::*;

pub mod cafe_store;
pub mod config;
pub mod control;
pub mod datapath;
pub mod download;
pub mod endpoint;
pub mod executor;
pub mod fetch;
pub mod stun;
pub mod tools;
pub mod update;

verus! {

/// Nothing has to be set up before an agent starts.
pub fn run() -> (r: Result<(), String>)
    ensures
        r is Ok,
{
    Ok(())
}

} // verus!
